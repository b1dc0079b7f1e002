//! The stack type of octaves, fifths, and major thirds, with the temperaments "12edo" and
//! "1/4-comma meantone".
use crate::interval::stacktype::{
    stacktype_wf, FiveLimitStackType, OctavePeriodicStackType, PeriodicStackType, StackType,
};
use crate::interval::fundamental::HasFundamental;
use crate::interval::stack::{coeffs_wf, Stack};
use crate::interval::temperament::Temperament;
use crate::rational::{add_spec, fits_i64, gcd, integer, lemma_gcd_one, Rational};
use vstd::prelude::*;

verus! {

/// Octaves (12 keys), fifths (7 keys), and major thirds (4 keys).
#[derive(Debug, Hash, Eq, PartialEq, Clone, Copy)]
pub struct ConcreteFiveLimitStackType {}

pub open spec fn frac(n: i64, d: i64) -> Rational {
    Rational { numer: n, denom: d }
}

/// 12edo: twelve tempered fifths are seven octaves, three tempered thirds are one octave, octaves
/// are pure. The fifth is detuned by `7/12` octave minus a fifth, the third by `1/3` octave minus
/// a third.
pub open spec fn twelve_edo() -> Seq<Seq<Rational>> {
    seq![
        seq![integer(0), integer(0), integer(0)],
        seq![frac(7, 12), integer(-1i64), integer(0)],
        seq![frac(1, 3), integer(0), integer(-1i64)],
    ]
}

/// 1/4-comma meantone: four tempered fifths are two octaves and a third, octaves and thirds are
/// pure. The fifth is detuned by a quarter of a syntonic comma (`1/2` octave minus a fifth plus a
/// quarter third).
pub open spec fn quarter_comma() -> Seq<Seq<Rational>> {
    seq![
        seq![integer(0), integer(0), integer(0)],
        seq![frac(1, 2), integer(-1i64), frac(1, 4)],
        seq![integer(0), integer(0), integer(0)],
    ]
}

impl StackType for ConcreteFiveLimitStackType {
    open spec fn spec_key_distances() -> Seq<u8> {
        seq![12u8, 7u8, 4u8]
    }

    open spec fn spec_temperaments() -> Seq<Seq<Seq<Rational>>> {
        seq![twelve_edo(), quarter_comma()]
    }

    proof fn lemma_stacktype_wf() {
        lemma_gcd_one(0);
        lemma_gcd_one(1);
        reveal_with_fuel(gcd, 7);
        assert(gcd(7, 12) == 1);
        assert(gcd(1, 3) == 1);
        assert(gcd(1, 2) == 1);
        assert(gcd(1, 4) == 1);
        assert(stacktype_wf(Self::spec_key_distances(), Self::spec_temperaments()));
    }

    fn key_distance(i: usize) -> (d: u8) {
        if i == 0 {
            12
        } else if i == 1 {
            7
        } else {
            4
        }
    }

    fn num_intervals() -> (n: usize) {
        3
    }

    fn temperaments() -> (r: Vec<Temperament>) {
        let zero = Rational::from_integer(0);
        let minus_one = Rational::from_integer(-1i64);
        let edo = Temperament::from_adjustments(
            "12edo".to_owned(),
            vec![
                vec![zero, zero, zero],
                vec![Rational { numer: 7, denom: 12 }, minus_one, zero],
                vec![Rational { numer: 1, denom: 3 }, zero, minus_one],
            ],
        );
        let meantone = Temperament::from_adjustments(
            "1/4-comma meantone".to_owned(),
            vec![
                vec![zero, zero, zero],
                vec![Rational { numer: 1, denom: 2 }, minus_one, Rational { numer: 1, denom: 4 }],
                vec![zero, zero, zero],
            ],
        );
        proof {
            assert(edo.spec_adjustments() =~= twelve_edo());
            assert(meantone.spec_adjustments() =~= quarter_comma());
        }
        let r = vec![edo, meantone];
        proof {
            assert(r@.len() == 2);
        }
        r
    }

    fn num_temperaments() -> (n: usize) {
        2
    }
}

impl FiveLimitStackType for ConcreteFiveLimitStackType {
    open spec fn spec_octave_index() -> nat {
        0
    }

    open spec fn spec_fifth_index() -> nat {
        1
    }

    open spec fn spec_third_index() -> nat {
        2
    }

    proof fn lemma_fivelimit_indices() {
    }

    fn octave_index() -> (i: usize) {
        0
    }

    fn fifth_index() -> (i: usize) {
        1
    }

    fn third_index() -> (i: usize) {
        2
    }
}

impl PeriodicStackType for ConcreteFiveLimitStackType {
    open spec fn spec_period_index() -> nat {
        0
    }

    proof fn lemma_period_index() {
    }

    fn period_index() -> (i: usize) {
        0
    }

    fn period_keys() -> (k: u8) {
        12
    }
}

impl OctavePeriodicStackType for ConcreteFiveLimitStackType {
    proof fn lemma_octave_period() {
    }
}

/// The exponents of octaves, fifths and thirds from `b` to the fundamental of `a` and `b`:
/// writing both notes as octaves of `2^x 3^y 5^z`, the prime exponents that are larger in `b`
/// than in `a` are lowered.
pub open spec fn fundamental_exponents(a: Seq<i64>, b: Seq<i64>) -> (int, int, int) {
    let e0 = a[0] - a[1] - a[2] * 2 - b[0] + b[1] + b[2] * 2;
    let e1 = a[1] - b[1];
    let e2 = a[2] - b[2];
    let c0 = if e0 > 0 { 0 } else { e0 };
    let c1 = if e1 > 0 { 0 } else { e1 };
    let c2 = if e2 > 0 { 0 } else { e2 };
    (c0 + c1 + c2 * 2, c1, c2)
}

/// Every step of the computation of [fundamental_exponents] and of adding them stays within
/// `i64`.
pub open spec fn fundamental_exponents_fit(a: Seq<i64>, b: Seq<i64>) -> bool {
    let p2 = a[0] - a[1];
    let p3 = p2 - a[2] * 2;
    let p4 = p3 - b[0];
    let p5 = p4 + b[1];
    let e0 = p5 + b[2] * 2;
    let e1 = a[1] - b[1];
    let e2 = a[2] - b[2];
    let c0 = if e0 > 0 { 0 } else { e0 };
    let c1 = if e1 > 0 { 0 } else { e1 };
    let c2 = if e2 > 0 { 0 } else { e2 };
    &&& fits_i64(p2)
    &&& fits_i64(a[2] * 2)
    &&& fits_i64(p3)
    &&& fits_i64(p4)
    &&& fits_i64(p5)
    &&& fits_i64(b[2] * 2)
    &&& fits_i64(e0)
    &&& fits_i64(e1)
    &&& fits_i64(e2)
    &&& fits_i64(c0 + c1)
    &&& fits_i64(c2 * 2)
    &&& fits_i64(c0 + c1 + c2 * 2)
}

impl HasFundamental for ConcreteFiveLimitStackType {
    open spec fn fundamental_ok(a: Seq<i64>, b_target: Seq<i64>, b_actual: Seq<Rational>) -> bool {
        let (x, y, z) = fundamental_exponents(a, b_target);
        &&& a.len() == 3
        &&& coeffs_wf::<Self>(b_target, b_actual)
        &&& fundamental_exponents_fit(a, b_target)
        &&& fits_i64(b_target[0] + x)
        &&& fits_i64(b_target[1] + y)
        &&& fits_i64(b_target[2] + z)
        &&& add_spec(b_actual[0], integer(x as i64)) is Some
        &&& add_spec(b_actual[1], integer(y as i64)) is Some
        &&& add_spec(b_actual[2], integer(z as i64)) is Some
    }

    open spec fn is_fundamental(
        a: Seq<i64>,
        b_target: Seq<i64>,
        b_actual: Seq<Rational>,
        r_target: Seq<i64>,
        r_actual: Seq<Rational>,
    ) -> bool {
        let (x, y, z) = fundamental_exponents(a, b_target);
        &&& r_target == seq![
            (b_target[0] + x) as i64,
            (b_target[1] + y) as i64,
            (b_target[2] + z) as i64,
        ]
        &&& r_actual == seq![
            add_spec(b_actual[0], integer(x as i64)).unwrap(),
            add_spec(b_actual[1], integer(y as i64)).unwrap(),
            add_spec(b_actual[2], integer(z as i64)).unwrap(),
        ]
        &&& coeffs_wf::<Self>(r_target, r_actual)
    }

    fn fundamental_inplace(a: &Stack<Self>, b: &mut Stack<Self>) {
        let o: usize = 0;
        let f: usize = 1;
        let t: usize = 2;
        let mut e0: i64 = 0;
        let mut e1: i64 = 0;
        let mut e2: i64 = 0;

        e0 = e0 + a.target[o];
        e1 = e1 + a.target[f];
        e0 = e0 - a.target[f];
        e2 = e2 + a.target[t];
        e0 = e0 - a.target[t] * 2;

        e0 = e0 - b.target[o];
        e1 = e1 - b.target[f];
        e0 = e0 + b.target[f];
        e2 = e2 - b.target[t];
        e0 = e0 + b.target[t] * 2;

        if e0 > 0 {
            e0 = 0;
        }
        if e1 > 0 {
            e1 = 0;
        }
        if e2 > 0 {
            e2 = 0;
        }

        e0 = e0 + e1;
        e0 = e0 + e2 * 2;

        b.increment_at_index_pure(o, e0);
        b.increment_at_index_pure(f, e1);
        b.increment_at_index_pure(t, e2);
        proof {
            let ghost (x, y, z) = fundamental_exponents(a.target@, old(b).target@);
            assert(x == e0 && y == e1 && z == e2);
            assert(b.target@ =~= seq![
                (old(b).target@[0] + x) as i64,
                (old(b).target@[1] + y) as i64,
                (old(b).target@[2] + z) as i64,
            ]);
            assert(b.actual@ =~= seq![
                add_spec(old(b).actual@[0], integer(x as i64)).unwrap(),
                add_spec(old(b).actual@[1], integer(y as i64)).unwrap(),
                add_spec(old(b).actual@[2], integer(z as i64)).unwrap(),
            ]);
        }
    }
}

/// The exponents of 2, 3 and 5 in the frequency ratio `2^o (3/2)^f (5/4)^t` of `o` octaves, `f`
/// fifths and `t` pure major thirds.
pub open spec fn prime_exponents(c: Seq<i64>) -> (int, int, int) {
    (c[0] - c[1] - 2 * c[2], c[1] as int, c[2] as int)
}

pub open spec fn min(a: int, b: int) -> int {
    if a <= b {
        a
    } else {
        b
    }
}

/// The fundamental of two notes is the highest note of which both are overtones: each of its
/// prime exponents is the smaller one of the two notes'.
pub proof fn law_fundamental_prime_minimum(
    a: Seq<i64>,
    b_target: Seq<i64>,
    b_actual: Seq<Rational>,
    r_target: Seq<i64>,
    r_actual: Seq<Rational>,
)
    requires
        ConcreteFiveLimitStackType::fundamental_ok(a, b_target, b_actual),
        ConcreteFiveLimitStackType::is_fundamental(a, b_target, b_actual, r_target, r_actual),
    ensures
        prime_exponents(r_target) == (
            min(prime_exponents(a).0, prime_exponents(b_target).0),
            min(prime_exponents(a).1, prime_exponents(b_target).1),
            min(prime_exponents(a).2, prime_exponents(b_target).2),
        ),
{
}

/// The fundamental does not depend on the order of the two notes.
pub proof fn law_fundamental_symmetric(
    a_target: Seq<i64>,
    a_actual: Seq<Rational>,
    b_target: Seq<i64>,
    b_actual: Seq<Rational>,
    r_target: Seq<i64>,
    r_actual: Seq<Rational>,
    s_target: Seq<i64>,
    s_actual: Seq<Rational>,
)
    requires
        ConcreteFiveLimitStackType::fundamental_ok(a_target, b_target, b_actual),
        ConcreteFiveLimitStackType::is_fundamental(a_target, b_target, b_actual, r_target, r_actual),
        ConcreteFiveLimitStackType::fundamental_ok(b_target, a_target, a_actual),
        ConcreteFiveLimitStackType::is_fundamental(b_target, a_target, a_actual, s_target, s_actual),
    ensures
        r_target == s_target,
{
    law_fundamental_prime_minimum(a_target, b_target, b_actual, r_target, r_actual);
    law_fundamental_prime_minimum(b_target, a_target, a_actual, s_target, s_actual);
    assert(r_target =~= s_target);
}

} // verus!
