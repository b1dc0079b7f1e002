//! Exact rational numbers with `i64` numerator and denominator, as they are used for the
//! "actual" (possibly tempered) coefficients of stacks of intervals.
//!
//! The arithmetic itself is done by `num_rational`; this module holds the value type the library
//! works with, its mathematical model, and the trusted wrappers around the calls.
pub mod exact;

use num_rational::Ratio;
use vstd::prelude::*;

verus! {

/// The greatest common divisor, by Euclid's algorithm.
pub open spec fn gcd(a: nat, b: nat) -> nat
    decreases b,
{
    if b == 0 {
        a
    } else {
        gcd(b, a % b)
    }
}

pub open spec fn abs(x: int) -> nat {
    if x < 0 {
        (-x) as nat
    } else {
        x as nat
    }
}

pub open spec fn fits_i64(x: int) -> bool {
    i64::MIN <= x <= i64::MAX
}

/// A rational number `numer / denom`.
///
/// Values produced by this library are always in lowest terms with a positive denominator (see
/// [Rational::wf]), so that equality of the fields is equality of the numbers.
#[derive(Clone, Copy, Debug, PartialEq, Eq, Structural, Hash)]
pub struct Rational {
    pub numer: i64,
    pub denom: i64,
}

/// The fraction `n / d` (with `d != 0`) in lowest terms, with a positive denominator.
pub open spec fn reduced(n: int, d: int) -> Rational {
    if n == 0 {
        Rational { numer: 0, denom: 1 }
    } else {
        let g = gcd(abs(n), abs(d)) as int;
        let s: int = if d < 0 {
            -1
        } else {
            1
        };
        Rational { numer: (s * (n / g)) as i64, denom: (s * (d / g)) as i64 }
    }
}

/// The rational `x` as an integer.
pub open spec fn integer(x: i64) -> Rational {
    Rational { numer: x, denom: 1 }
}

impl Rational {
    /// Lowest terms, positive denominator.
    pub open spec fn wf(self) -> bool {
        &&& self.denom > 0
        &&& gcd(abs(self.numer as int), self.denom as nat) == 1
    }

    /// Is this number an integer?
    pub open spec fn spec_is_integer(self) -> bool {
        self.denom == 1
    }

    /// Creates the rational number `numer / denom`, in lowest terms.
    pub fn new(numer: i64, denom: i64) -> (r: Rational)
        requires
            denom != 0,
            new_fits(numer, denom),
        ensures
            r == reduced(numer as int, denom as int),
            r.wf(),
    {
        reduce_fraction(numer, denom)
    }

    /// The integer `x` as a rational number.
    pub fn from_integer(x: i64) -> (r: Rational)
        ensures
            r == integer(x),
            r.wf(),
    {
        proof {
            reveal_with_fuel(gcd, 3);
        }
        Rational { numer: x, denom: 1 }
    }

    /// Is the denominator one?
    pub fn is_integer(&self) -> (b: bool)
        ensures
            b == self.spec_is_integer(),
    {
        self.denom == 1
    }

    /// The quotient of numerator and denominator, rounded towards zero.
    pub fn to_integer(&self) -> (r: i64)
        requires
            self.denom > 0,
        ensures
            r == truncated_quotient(self.numer as int, self.denom as int),
    {
        self.numer.checked_div(self.denom).unwrap()
    }
}

/// Integer division rounding towards zero, for a positive divisor.
pub open spec fn truncated_quotient(n: int, d: int) -> int {
    if n >= 0 {
        n / d
    } else {
        -((-n) / d)
    }
}

/// No arithmetic overflow happens while `num_rational` puts `numer / denom` into lowest terms.
pub open spec fn new_fits(numer: i64, denom: i64) -> bool {
    denom > 0 || numer == 0 || numer == denom || {
        let g = gcd(abs(numer as int), abs(denom as int)) as int;
        fits_i64(-((numer as int) / g)) && fits_i64(-((denom as int) / g))
    }
}

/// `a + b`, in lowest terms, or `None` where `num_rational`'s addition of two fractions with
/// positive denominators overflows: it brings both to the least common denominator first.
pub open spec fn add_spec(a: Rational, b: Rational) -> Option<Rational> {
    if a.denom == b.denom {
        if fits_i64(a.numer + b.numer) {
            Some(reduced(a.numer + b.numer, a.denom as int))
        } else {
            None
        }
    } else {
        let l = a.denom * ((b.denom as int) / (gcd(a.denom as nat, b.denom as nat) as int));
        let x = a.numer * (l / (a.denom as int));
        let y = b.numer * (l / (b.denom as int));
        if fits_i64(l) && fits_i64(x) && fits_i64(y) && fits_i64(x + y) {
            Some(reduced(a.numer * b.denom + b.numer * a.denom, a.denom * b.denom))
        } else {
            None
        }
    }
}

/// `a - b`, in lowest terms, or `None` where `num_rational`'s subtraction of two fractions with
/// positive denominators overflows: like the addition, it brings both to the least common
/// denominator first.
pub open spec fn sub_spec(a: Rational, b: Rational) -> Option<Rational> {
    if a.denom == b.denom {
        if fits_i64(a.numer - b.numer) {
            Some(reduced(a.numer - b.numer, a.denom as int))
        } else {
            None
        }
    } else {
        let l = a.denom * ((b.denom as int) / (gcd(a.denom as nat, b.denom as nat) as int));
        let x = a.numer * (l / (a.denom as int));
        let y = b.numer * (l / (b.denom as int));
        if fits_i64(l) && fits_i64(x) && fits_i64(y) && fits_i64(x - y) {
            Some(reduced(a.numer * b.denom - b.numer * a.denom, a.denom * b.denom))
        } else {
            None
        }
    }
}

/// `a * k`, in lowest terms, or `None` where `num_rational`'s product of a fraction with a
/// positive denominator and an integer overflows: it cancels `gcd(denominator, k)` first.
pub open spec fn mul_int_spec(a: Rational, k: i64) -> Option<Rational> {
    let g = gcd(a.denom as nat, abs(k as int)) as int;
    if fits_i64(a.numer * ((k as int) / g)) {
        Some(reduced(a.numer * k, a.denom as int))
    } else {
        None
    }
}

/// `x + k * y`, or `None` on overflow.
pub open spec fn axpy_spec(x: Rational, k: i64, y: Rational) -> Option<Rational> {
    match mul_int_spec(y, k) {
        Some(m) => add_spec(x, m),
        None => None,
    }
}

/// `num_rational::Ratio::new`: puts `numer / denom` into lowest terms with a positive
/// denominator. Claimed: the result is that fraction in lowest terms. It panics on a zero
/// denominator, and overflows where the sign of a negative denominator is moved to the numerator
/// and a reduced part is `i64::MIN`; the precondition leaves both out.
#[verifier::external_body]
fn reduce_fraction(numer: i64, denom: i64) -> (r: Rational)
    requires
        denom != 0,
        new_fits(numer, denom),
    ensures
        r == reduced(numer as int, denom as int),
        r.wf(),
{
    let x = Ratio::new(numer, denom);
    Rational { numer: *x.numer(), denom: *x.denom() }
}

/// `num_rational`'s `Ratio + Ratio`. Claimed: the sum in lowest terms with a positive
/// denominator. The precondition leaves out the inputs on which one of its intermediate products
/// or sums overflows `i64`.
#[verifier::external_body]
fn add_ratios(a: Rational, b: Rational) -> (r: Rational)
    requires
        a.denom > 0,
        b.denom > 0,
        add_spec(a, b) is Some,
    ensures
        Some(r) == add_spec(a, b),
        r.wf(),
{
    let x = Ratio::new_raw(a.numer, a.denom) + Ratio::new_raw(b.numer, b.denom);
    Rational { numer: *x.numer(), denom: *x.denom() }
}

/// `num_rational`'s `Ratio - Ratio`. Claimed: the difference in lowest terms with a positive
/// denominator. The precondition leaves out the inputs on which one of its intermediate products
/// or differences overflows `i64`.
#[verifier::external_body]
fn sub_ratios(a: Rational, b: Rational) -> (r: Rational)
    requires
        a.denom > 0,
        b.denom > 0,
        sub_spec(a, b) is Some,
    ensures
        Some(r) == sub_spec(a, b),
        r.wf(),
{
    let x = Ratio::new_raw(a.numer, a.denom) - Ratio::new_raw(b.numer, b.denom);
    Rational { numer: *x.numer(), denom: *x.denom() }
}

/// `num_rational`'s `Ratio * T` for `T = i64`. Claimed: the product in lowest terms with a
/// positive denominator. The precondition leaves out the inputs on which the product of the
/// numerator with the cancelled factor overflows `i64`.
#[verifier::external_body]
fn mul_ratio_int(a: Rational, k: i64) -> (r: Rational)
    requires
        a.denom > 0,
        mul_int_spec(a, k) is Some,
    ensures
        Some(r) == mul_int_spec(a, k),
        r.wf(),
{
    let x = Ratio::new_raw(a.numer, a.denom) * k;
    Rational { numer: *x.numer(), denom: *x.denom() }
}

/// The sum `a + b`.
pub fn plus(a: Rational, b: Rational) -> (r: Rational)
    requires
        a.denom > 0,
        b.denom > 0,
        add_spec(a, b) is Some,
    ensures
        Some(r) == add_spec(a, b),
        r.wf(),
{
    add_ratios(a, b)
}

/// The difference `a - b`.
pub fn minus(a: Rational, b: Rational) -> (r: Rational)
    requires
        a.denom > 0,
        b.denom > 0,
        sub_spec(a, b) is Some,
    ensures
        Some(r) == sub_spec(a, b),
        r.wf(),
{
    sub_ratios(a, b)
}

/// The product `a * k`.
pub fn times_int(a: Rational, k: i64) -> (r: Rational)
    requires
        a.denom > 0,
        mul_int_spec(a, k) is Some,
    ensures
        Some(r) == mul_int_spec(a, k),
        r.wf(),
{
    mul_ratio_int(a, k)
}

/// `x + k * y`.
pub fn axpy(x: Rational, k: i64, y: Rational) -> (r: Rational)
    requires
        x.denom > 0,
        y.denom > 0,
        axpy_spec(x, k, y) is Some,
    ensures
        Some(r) == axpy_spec(x, k, y),
        r.wf(),
{
    let m = mul_ratio_int(y, k);
    add_ratios(x, m)
}

/// One is coprime to everything, and zero is divisible by everything.
pub proof fn lemma_gcd_one(a: nat)
    ensures
        gcd(a, 1) == 1,
        gcd(1, a) == 1,
        gcd(0, a) == a,
{
    assert(a % 1 == 0);
    assert(gcd(1, 0) == 1);
    assert(gcd(a, 1) == gcd(1, 0));
    if a == 1 {
        assert(1nat % a == 0);
    } else if a > 1 {
        vstd::arithmetic::div_mod::lemma_small_mod(1, a);
        assert(gcd(1, a) == gcd(a, 1));
    }
    if a != 0 {
        assert(0nat % a == 0);
        assert(gcd(0, a) == gcd(a, 0));
    }
}

} // verus!
