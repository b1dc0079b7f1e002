//! Johnston names for five-limit stacks: a letter, sharps or flats, and pluses or minuses for
//! syntonic commas.
use crate::interval::stack::Stack;
use crate::interval::stacktype::{FiveLimitStackType, StackCoeff, StackType};
use crate::rational::{fits_i64, truncated_quotient};
use vstd::prelude::*;

verus! {

#[derive(Clone, Copy, Debug, PartialEq, Eq, Structural)]
pub enum BaseName {
    C,
    D,
    E,
    F,
    G,
    A,
    B,
}

#[derive(Clone, Copy, Debug, PartialEq, Eq, Structural)]
pub struct Accidental {
    pub sharpflat: StackCoeff,
    pub plusminus: StackCoeff,
}

#[derive(Clone, Copy, Debug, PartialEq, Eq, Structural)]
pub struct NoteName {
    pub basename: BaseName,
    pub octave: StackCoeff,
    pub accidental: Accidental,
}

/// `F A C E G B D`: each letter is a pure major third above the previous one, alternating with
/// minor thirds; the row repeats a syntonic comma higher.
pub open spec fn johnston_base_row(k: int) -> BaseName {
    if k == 0 {
        BaseName::F
    } else if k == 1 {
        BaseName::A
    } else if k == 2 {
        BaseName::C
    } else if k == 3 {
        BaseName::E
    } else if k == 4 {
        BaseName::G
    } else if k == 5 {
        BaseName::B
    } else {
        BaseName::D
    }
}

/// The position of the letter in the scale starting at C.
pub open spec fn base_index(b: BaseName) -> int {
    match b {
        BaseName::C => 0,
        BaseName::D => 1,
        BaseName::E => 2,
        BaseName::F => 3,
        BaseName::G => 4,
        BaseName::A => 5,
        BaseName::B => 6,
    }
}

pub open spec fn base_char(b: BaseName) -> char {
    match b {
        BaseName::C => 'C',
        BaseName::D => 'D',
        BaseName::E => 'E',
        BaseName::F => 'F',
        BaseName::G => 'G',
        BaseName::A => 'A',
        BaseName::B => 'B',
    }
}

/// The name of the note `octaves` octaves, `fifths` fifths and `thirds` thirds above middle C.
pub open spec fn johnston_name(octaves: int, fifths: int, thirds: int) -> NoteName {
    let ix = 2 + 2 * fifths + thirds;
    NoteName {
        basename: johnston_base_row(ix % 7),
        accidental: Accidental {
            sharpflat: ((1 + fifths + 4 * thirds) / 7) as i64,
            plusminus: (ix / 7) as i64,
        },
        octave: (4 + octaves + (4 * fifths + 2 * thirds) / 7) as i64,
    }
}

/// Computing the name stays within `i64`.
pub open spec fn johnston_name_fits(octaves: int, fifths: int, thirds: int) -> bool {
    &&& fits_i64(2 * fifths)
    &&& fits_i64(2 + 2 * fifths)
    &&& fits_i64(2 + 2 * fifths + thirds)
    &&& fits_i64(4 * thirds)
    &&& fits_i64(1 + fifths)
    &&& fits_i64(1 + fifths + 4 * thirds)
    &&& fits_i64(4 * fifths)
    &&& fits_i64(2 * thirds)
    &&& fits_i64(4 * fifths + 2 * thirds)
    &&& fits_i64(4 + octaves)
    &&& fits_i64(4 + octaves + (4 * fifths + 2 * thirds) / 7)
}

/// `n` copies of `c`.
pub open spec fn repeat(c: char, n: int) -> Seq<char> {
    Seq::new(if n > 0 { n as nat } else { 0 }, |i: int| c)
}

/// Sharps or flats, then pluses or minuses.
pub open spec fn accidental_chars(a: Accidental) -> Seq<char> {
    (if a.sharpflat >= 0 {
        repeat('#', a.sharpflat as int)
    } else {
        repeat('b', -a.sharpflat)
    }) + (if a.plusminus >= 0 {
        repeat('+', a.plusminus as int)
    } else {
        repeat('-', -a.plusminus)
    })
}

/// The pitch class: the letter and the accidentals.
pub open spec fn class_chars(n: NoteName) -> Seq<char> {
    seq![base_char(n.basename)] + accidental_chars(n.accidental)
}

pub open spec fn digit_char(d: int) -> char {
    seq!['0', '1', '2', '3', '4', '5', '6', '7', '8', '9'][d]
}

/// The decimal digits of `n`.
pub open spec fn digits(n: nat) -> Seq<char>
    decreases n,
{
    if n < 10 {
        seq![digit_char(n as int)]
    } else {
        digits(n / 10).push(digit_char((n % 10) as int))
    }
}

/// `x` in decimal, with a minus sign if it is negative.
pub open spec fn decimal(x: int) -> Seq<char> {
    if x < 0 {
        seq!['-'] + digits((-x) as nat)
    } else {
        digits(x as nat)
    }
}

/// The full name: the pitch class, a space, and the octave number.
pub open spec fn full_chars(n: NoteName) -> Seq<char> {
    class_chars(n) + seq![' '] + decimal(n.octave as int)
}

/// Whether `c` is one of the decimal digits.
pub open spec fn is_digit(c: char) -> bool {
    '0' <= c <= '9'
}

/// The value of a string of decimal digits, most significant first.
pub open spec fn digits_value(s: Seq<char>) -> int
    decreases s.len(),
{
    if s.len() == 0 {
        0
    } else {
        10 * digits_value(s.drop_last()) + (s.last() as int - '0' as int)
    }
}

/// `s` is the usual decimal numeral of `x`: a minus sign for a negative number, then the digits
/// of its magnitude, without leading zeros.
pub open spec fn is_numeral(s: Seq<char>, x: int) -> bool {
    let d = if x < 0 {
        s.drop_first()
    } else {
        s
    };
    &&& s.len() > 0
    &&& (x < 0 <==> s[0] == '-')
    &&& d.len() > 0
    &&& forall|i: int| 0 <= i < d.len() ==> is_digit(#[trigger] d[i])
    &&& d.len() > 1 ==> d[0] != '0'
    &&& digits_value(d) == if x < 0 {
        -x
    } else {
        x
    }
}

proof fn lemma_digit_char(d: int)
    requires
        0 <= d < 10,
    ensures
        digit_char(d) as int == '0' as int + d,
        is_digit(digit_char(d)),
{
    let t = seq!['0', '1', '2', '3', '4', '5', '6', '7', '8', '9'];
    assert(digit_char(d) == t[d]);
    assert('0' as int == 48 && '9' as int == 57);
    if d == 0 {
    } else if d == 1 {
        assert(t[1] as int == 49);
    } else if d == 2 {
        assert(t[2] as int == 50);
    } else if d == 3 {
        assert(t[3] as int == 51);
    } else if d == 4 {
        assert(t[4] as int == 52);
    } else if d == 5 {
        assert(t[5] as int == 53);
    } else if d == 6 {
        assert(t[6] as int == 54);
    } else if d == 7 {
        assert(t[7] as int == 55);
    } else if d == 8 {
        assert(t[8] as int == 56);
    } else {
        assert(t[9] as int == 57);
    }
}

proof fn lemma_digits(n: nat)
    ensures
        digits(n).len() > 0,
        forall|i: int| 0 <= i < digits(n).len() ==> is_digit(#[trigger] digits(n)[i]),
        digits(n).len() > 1 ==> digits(n)[0] != '0',
        n > 0 ==> digits(n)[0] != '0',
        digits(n).len() > 1 ==> n > 0,
        digits_value(digits(n)) == n,
    decreases n,
{
    if n < 10 {
        lemma_digit_char(n as int);
        let s = digits(n);
        assert(s == seq![digit_char(n as int)]);
        assert(s.drop_last() =~= Seq::<char>::empty());
        assert(digits_value(Seq::<char>::empty()) == 0);
        assert(digits_value(s) == 10 * digits_value(s.drop_last()) + (s.last() as int - '0' as int));
        assert(s.last() == digit_char(n as int));
    } else {
        lemma_digit_char((n % 10) as int);
        lemma_digits(n / 10);
        let d = digits(n / 10);
        let c = digit_char((n % 10) as int);
        assert(digits(n) == d.push(c));
        assert(d.push(c).drop_last() =~= d);
        assert(d.push(c)[0] == d[0]);
        assert forall|i: int| 0 <= i < digits(n).len() implies is_digit(#[trigger] digits(n)[i]) by {
            if i < d.len() {
                assert(digits(n)[i] == d[i]);
            }
        }
        assert(digits(n)[0] == d[0]);
        assert(d.push(c).last() == c);
        assert(digits_value(d.push(c)) == 10 * digits_value(d) + (c as int - '0' as int));
        assert(n == 10 * (n / 10) + n % 10);
    }
}

/// The octave of a full note name is written as the usual decimal numeral: the full name is the
/// class name, a space, and that numeral.
pub proof fn law_full_name_is_class_space_octave(n: NoteName)
    ensures
        full_chars(n) == class_chars(n) + seq![' '] + decimal(n.octave as int),
        is_numeral(decimal(n.octave as int), n.octave as int),
{
    let x = n.octave as int;
    if x < 0 {
        lemma_digits((-x) as nat);
        let s = decimal(x);
        assert(s.drop_first() =~= digits((-x) as nat));
    } else {
        lemma_digits(x as nat);
        assert(digits(x as nat)[0] != '-');
    }
}

/// `String::push`. Claimed: the character is appended.
#[verifier::external_body]
fn push_char(s: &mut String, c: char)
    ensures
        final(s)@ == old(s)@.push(c),
{
    s.push(c)
}

/// Appends `n` copies of `c`.
fn push_repeated(s: &mut String, c: char, n: u64)
    ensures
        final(s)@ == old(s)@ + repeat(c, n as int),
{
    let mut k: u64 = 0;
    while k < n
        invariant
            k <= n,
            s@ == old(s)@ + repeat(c, k as int),
        decreases n - k,
    {
        push_char(s, c);
        k = k + 1;
        proof {
            assert(s@ =~= old(s)@ + repeat(c, k as int));
        }
    }
}

/// Appends the decimal digits of `n`.
fn push_digits(s: &mut String, n: u64)
    ensures
        final(s)@ == old(s)@ + digits(n as nat),
    decreases n,
{
    let table = ['0', '1', '2', '3', '4', '5', '6', '7', '8', '9'];
    if n >= 10 {
        push_digits(s, n / 10);
    }
    let d = (n % 10) as usize;
    push_char(s, table[d]);
    proof {
        assert(table@ =~= seq!['0', '1', '2', '3', '4', '5', '6', '7', '8', '9']);
        if n >= 10 {
            assert(s@ =~= old(s)@ + digits(n as nat));
        } else {
            assert(s@ =~= old(s)@ + digits(n as nat));
        }
    }
}

/// Appends `x` in decimal.
fn push_decimal(s: &mut String, x: i64)
    ensures
        final(s)@ == old(s)@ + decimal(x as int),
{
    if x < 0 {
        push_char(s, '-');
        let m: u64 = if x == i64::MIN {
            9223372036854775808u64
        } else {
            (-x) as u64
        };
        push_digits(s, m);
        proof {
            assert(s@ =~= old(s)@ + decimal(x as int));
        }
    } else {
        push_digits(s, x as u64);
    }
}

fn base_name_at(k: i64) -> (b: BaseName)
    requires
        0 <= k < 7,
    ensures
        b == johnston_base_row(k as int),
{
    if k == 0 {
        BaseName::F
    } else if k == 1 {
        BaseName::A
    } else if k == 2 {
        BaseName::C
    } else if k == 3 {
        BaseName::E
    } else if k == 4 {
        BaseName::G
    } else if k == 5 {
        BaseName::B
    } else {
        BaseName::D
    }
}

fn base_char_of(b: BaseName) -> (c: char)
    ensures
        c == base_char(b),
{
    match b {
        BaseName::C => 'C',
        BaseName::D => 'D',
        BaseName::E => 'E',
        BaseName::F => 'F',
        BaseName::G => 'G',
        BaseName::A => 'A',
        BaseName::B => 'B',
    }
}

/// Euclidean quotient by a positive divisor.
pub fn div_euclid(x: i64, d: i64) -> (q: i64)
    requires
        d > 0,
    ensures
        q == x as int / d as int,
{
    proof {
        lemma_div_bound(x as int, d as int);
    }
    x.checked_div_euclid(d).unwrap()
}

/// Euclidean remainder by a positive divisor.
pub fn rem_euclid(x: i64, d: i64) -> (r: i64)
    requires
        d > 0,
    ensures
        r == x as int % d as int,
{
    x.checked_rem_euclid(d).unwrap()
}

proof fn lemma_div_bound(x: int, d: int)
    requires
        d > 0,
        fits_i64(x),
    ensures
        fits_i64(x / d),
{
    if x >= 0 {
        vstd::arithmetic::div_mod::lemma_div_is_ordered_by_denominator(x, 1, d);
        vstd::arithmetic::div_mod::lemma_div_pos_is_pos(x, d);
    } else {
        vstd::arithmetic::div_mod::lemma_fundamental_div_mod(x, d);
        vstd::arithmetic::div_mod::lemma_mod_bound(x, d);
        let q = x / d;
        assert(x < (q + 1) * d) by (nonlinear_arith)
            requires
                x == d * q + x % d,
                x % d < d,
        ;
        assert(q >= x) by (nonlinear_arith)
            requires
                x < (q + 1) * d,
                d >= 1,
                x < 0,
        ;
        assert(q <= 0) by (nonlinear_arith)
            requires
                x == d * q + x % d,
                x % d >= 0,
                d >= 1,
                x < 0,
        ;
    }
}

impl NoteName {
    /// The name of the target of `s`.
    pub fn new<T: FiveLimitStackType>(s: &Stack<T>) -> (n: Self)
        requires
            s.wf(),
            johnston_name_fits(
                s.target@[T::spec_octave_index() as int] as int,
                s.target@[T::spec_fifth_index() as int] as int,
                s.target@[T::spec_third_index() as int] as int,
            ),
        ensures
            n == johnston_name(
                s.target@[T::spec_octave_index() as int] as int,
                s.target@[T::spec_fifth_index() as int] as int,
                s.target@[T::spec_third_index() as int] as int,
            ),
    {
        proof {
            T::lemma_fivelimit_indices();
        }
        Self::new_from_coeffs::<T>(s.target.as_slice())
    }

    /// like [Self::new], but doesn't need a whole [Stack] as an argument, only the
    /// [Stack::target] coefficients
    pub fn new_from_coeffs<T: FiveLimitStackType>(coeffs: &[StackCoeff]) -> (n: Self)
        requires
            coeffs@.len() == T::spec_key_distances().len(),
            johnston_name_fits(
                coeffs@[T::spec_octave_index() as int] as int,
                coeffs@[T::spec_fifth_index() as int] as int,
                coeffs@[T::spec_third_index() as int] as int,
            ),
        ensures
            n == johnston_name(
                coeffs@[T::spec_octave_index() as int] as int,
                coeffs@[T::spec_fifth_index() as int] as int,
                coeffs@[T::spec_third_index() as int] as int,
            ),
    {
        proof {
            T::lemma_fivelimit_indices();
        }
        let octaves = coeffs[T::octave_index()];
        let fifths = coeffs[T::fifth_index()];
        let thirds = coeffs[T::third_index()];
        Self::from_exponents(octaves, fifths, thirds)
    }

    /// like new, but uses the [Stack::actual] instead of the [Stack::target]. Fractions are
    /// rounded towards zero.
    ///
    /// This function makes sense when you know that the [Stack::actual] describes a pure
    /// interval, which is differenf from the the [Stack::target]: I.e. [Stack::is_pure()], but
    /// not [Stack::is_target()].
    pub fn new_from_actual<T: FiveLimitStackType>(s: &Stack<T>) -> (n: Self)
        requires
            s.wf(),
            johnston_name_fits(
                truncated_quotient(
                    s.actual@[T::spec_octave_index() as int].numer as int,
                    s.actual@[T::spec_octave_index() as int].denom as int,
                ),
                truncated_quotient(
                    s.actual@[T::spec_fifth_index() as int].numer as int,
                    s.actual@[T::spec_fifth_index() as int].denom as int,
                ),
                truncated_quotient(
                    s.actual@[T::spec_third_index() as int].numer as int,
                    s.actual@[T::spec_third_index() as int].denom as int,
                ),
            ),
        ensures
            n == johnston_name(
                truncated_quotient(
                    s.actual@[T::spec_octave_index() as int].numer as int,
                    s.actual@[T::spec_octave_index() as int].denom as int,
                ),
                truncated_quotient(
                    s.actual@[T::spec_fifth_index() as int].numer as int,
                    s.actual@[T::spec_fifth_index() as int].denom as int,
                ),
                truncated_quotient(
                    s.actual@[T::spec_third_index() as int].numer as int,
                    s.actual@[T::spec_third_index() as int].denom as int,
                ),
            ),
    {
        proof {
            T::lemma_fivelimit_indices();
            assert(s.actual@[T::spec_octave_index() as int].wf());
            assert(s.actual@[T::spec_fifth_index() as int].wf());
            assert(s.actual@[T::spec_third_index() as int].wf());
        }
        let octaves = s.actual[T::octave_index()].to_integer();
        let fifths = s.actual[T::fifth_index()].to_integer();
        let thirds = s.actual[T::third_index()].to_integer();
        Self::from_exponents(octaves, fifths, thirds)
    }

    fn from_exponents(octaves: i64, fifths: i64, thirds: i64) -> (n: Self)
        requires
            johnston_name_fits(octaves as int, fifths as int, thirds as int),
        ensures
            n == johnston_name(octaves as int, fifths as int, thirds as int),
    {
        let ix = 2 + 2 * fifths + thirds;
        let r = rem_euclid(ix, 7);
        NoteName {
            basename: base_name_at(r),
            accidental: Accidental {
                sharpflat: div_euclid(1 + fifths + 4 * thirds, 7),
                plusminus: div_euclid(ix, 7),
            },
            octave: 4 + octaves + div_euclid(4 * fifths + 2 * thirds, 7),
        }
    }

    /// Write the pitch class (i.e. the note name without the octave number)
    pub fn write_class(&self, f: &mut String)
        ensures
            final(f)@ == old(f)@ + class_chars(*self),
    {
        push_char(f, base_char_of(self.basename));
        let sf = self.accidental.sharpflat;
        if sf > 0 {
            push_repeated(f, '#', sf as u64);
        }
        if sf < 0 {
            let m: u64 = if sf == i64::MIN {
                9223372036854775808u64
            } else {
                (-sf) as u64
            };
            push_repeated(f, 'b', m);
        }
        let ghost after_sf = f@;
        let pm = self.accidental.plusminus;
        if pm > 0 {
            push_repeated(f, '+', pm as u64);
        }
        if pm < 0 {
            let m: u64 = if pm == i64::MIN {
                9223372036854775808u64
            } else {
                (-pm) as u64
            };
            push_repeated(f, '-', m);
        }
        proof {
            assert(f@ =~= old(f)@ + class_chars(*self));
        }
    }

    /// Write the full note name.
    pub fn write_full(&self, f: &mut String)
        ensures
            final(f)@ == old(f)@ + full_chars(*self),
    {
        self.write_class(f);
        push_char(f, ' ');
        push_decimal(f, self.octave);
        proof {
            assert(f@ =~= old(f)@ + full_chars(*self));
        }
    }

    /// The pitch class as [String].
    pub fn str_class(&self) -> (s: String)
        ensures
            s@ == class_chars(*self),
    {
        let mut res = String::new();
        self.write_class(&mut res);
        proof {
            assert(res@ =~= class_chars(*self));
        }
        res
    }

    /// The full note name as a [String].
    pub fn str_full(&self) -> (s: String)
        ensures
            s@ == full_chars(*self),
    {
        let mut res = String::new();
        self.write_full(&mut res);
        proof {
            assert(res@ =~= full_chars(*self));
        }
        res
    }
}

} // verus!
