//! The rational model is exact: fractions in lowest terms are unique, and the sums and products
//! that the model computes are the sums and products of the numbers.
use crate::rational::{abs, add_spec, axpy_spec, fits_i64, gcd, mul_int_spec, reduced, sub_spec, Rational};
use vstd::arithmetic::div_mod::{
    lemma_fundamental_div_mod, lemma_mod_multiples_basic, lemma_div_multiples_vanish,
};
use vstd::prelude::*;

verus! {

/// The greatest common divisor of two numbers that are not both zero is positive and divides
/// both.
pub proof fn lemma_gcd_divides(a: nat, b: nat)
    requires
        a > 0 || b > 0,
    ensures
        gcd(a, b) > 0,
        a % gcd(a, b) == 0,
        b % gcd(a, b) == 0,
    decreases b,
{
    if b == 0 {
        assert(a % a == 0) by {
            lemma_mod_multiples_basic(1, a as int);
        }
        assert(0nat % a == 0);
    } else {
        lemma_gcd_divides(b, a % b);
        let g = gcd(b, a % b);
        assert(gcd(a, b) == g);
        lemma_fundamental_div_mod(a as int, b as int);
        lemma_fundamental_div_mod(b as int, g as int);
        lemma_fundamental_div_mod((a % b) as int, g as int);
        let kb = b as int / g as int;
        let kr = (a % b) as int / g as int;
        let q = a as int / b as int;
        assert(a == g * (q * kb + kr)) by (nonlinear_arith)
            requires
                a == b * q + (a % b),
                b == g * kb,
                a % b == g * kr,
        ;
        lemma_mod_multiples_basic(q * kb + kr, g as int);
        assert((q * kb + kr) * g == g * (q * kb + kr)) by (nonlinear_arith);
    }
}

/// Bézout: the greatest common divisor is an integer combination of the two numbers.
pub proof fn lemma_bezout(a: nat, b: nat) -> (r: (int, int))
    ensures
        a * r.0 + b * r.1 == gcd(a, b),
    decreases b,
{
    if b == 0 {
        (1, 0)
    } else {
        let (x, y) = lemma_bezout(b, a % b);
        lemma_fundamental_div_mod(a as int, b as int);
        let q = a as int / b as int;
        assert(a * y + b * (x - q * y) == b * x + (a % b) * y) by (nonlinear_arith)
            requires
                a == b * q + (a % b),
        ;
        (y, x - q * y)
    }
}

/// A number that divides two numbers divides every integer combination of them.
pub proof fn lemma_divides_combination(a: int, b: int, g: int, x: int, y: int)
    requires
        g > 0,
        a % g == 0,
        b % g == 0,
    ensures
        (a * x + b * y) % g == 0,
{
    lemma_fundamental_div_mod(a, g);
    lemma_fundamental_div_mod(b, g);
    let ka = a / g;
    let kb = b / g;
    assert(a * x + b * y == (ka * x + kb * y) * g) by (nonlinear_arith)
        requires
            a == g * ka,
            b == g * kb,
    ;
    lemma_mod_multiples_basic(ka * x + kb * y, g);
}

/// If an integer combination of two numbers is one, they are coprime.
pub proof fn lemma_coprime_of_combination(a: nat, b: nat, x: int, y: int)
    requires
        a * x + b * y == 1,
    ensures
        gcd(a, b) == 1,
{
    if a == 0 && b == 0 {
        assert(a * x + b * y == 0) by (nonlinear_arith)
            requires
                a == 0,
                b == 0,
        ;
    } else {
        lemma_gcd_divides(a, b);
        let g = gcd(a, b) as int;
        lemma_divides_combination(a as int, b as int, g, x, y);
        assert(1int % g == 0);
        if g > 1 {
            vstd::arithmetic::div_mod::lemma_small_mod(1, g as nat);
        }
    }
}

/// `n` and `d` (with `d != 0`) divided by their greatest common divisor, with the sign moved to
/// the numerator: the fraction `n / d` in lowest terms, as unbounded integers.
pub open spec fn reduced_int(n: int, d: int) -> (int, int) {
    if n == 0 {
        (0, 1)
    } else {
        let g = gcd(abs(n), abs(d)) as int;
        let s: int = if d < 0 {
            -1
        } else {
            1
        };
        (s * (n / g), s * (d / g))
    }
}

/// Dividing by a divisor: `m == g * (m / g)`, and the quotient has the sign of `m` and is not
/// larger.
proof fn lemma_exact_div(m: int, g: int)
    requires
        g > 0,
        (abs(m) as int) % g == 0,
    ensures
        m == g * (m / g),
        abs(m / g) == (abs(m) as int) / g,
        abs(m / g) <= abs(m),
        m > 0 ==> m / g > 0,
        m < 0 ==> m / g < 0,
{
    let k = abs(m) as int / g;
    lemma_fundamental_div_mod(abs(m) as int, g);
    assert(abs(m) == g * k);
    if m >= 0 {
        assert(m == g * k);
        lemma_div_multiples_vanish(k, g);
    } else {
        assert(m == g * (-k)) by (nonlinear_arith)
            requires
                -m == g * k,
        ;
        lemma_div_multiples_vanish(-k, g);
    }
    assert(k <= abs(m)) by (nonlinear_arith)
        requires
            abs(m) == g * k,
            g >= 1,
            k >= 0,
    ;
    assert(m > 0 ==> k > 0) by (nonlinear_arith)
        requires
            abs(m) == g * k,
            m >= 0 ==> abs(m) == m,
            g > 0,
    ;
    assert(m < 0 ==> k > 0) by (nonlinear_arith)
        requires
            abs(m) == g * k,
            m < 0 ==> abs(m) == -m,
            g > 0,
    ;
}

/// [reduced_int] is the fraction in lowest terms with a positive denominator, it stands for the
/// same number, and its parts are no larger.
pub proof fn lemma_reduced_int(n: int, d: int)
    requires
        d != 0,
    ensures
        reduced_int(n, d).1 > 0,
        gcd(abs(reduced_int(n, d).0), reduced_int(n, d).1 as nat) == 1,
        reduced_int(n, d).0 * d == n * reduced_int(n, d).1,
        abs(reduced_int(n, d).0) <= abs(n),
        reduced_int(n, d).1 <= abs(d),
        d > 0 && n >= 0 ==> 0 <= reduced_int(n, d).0 <= n,
        d > 0 && n < 0 ==> n <= reduced_int(n, d).0 < 0,
{
    if n == 0 {
        crate::rational::lemma_gcd_one(0);
        assert(abs(d) >= 1);
    } else {
        let a = abs(n);
        let b = abs(d);
        lemma_gcd_divides(a, b);
        let g = gcd(a, b) as int;
        let ai = a as int;
        let bi = b as int;
        lemma_exact_div(n, g);
        lemma_exact_div(d, g);
        let (rn, rd) = reduced_int(n, d);
        let s: int = if d < 0 { -1 } else { 1 };
        assert(rn == s * (n / g));
        assert(rd == s * (d / g));
        let ng = n / g;
        let dg = d / g;
        if d < 0 {
            assert(rn == -ng && rd == -dg) by (nonlinear_arith)
                requires
                    rn == s * ng,
                    rd == s * dg,
                    s == -1,
            ;
        } else {
            assert(rn == ng && rd == dg) by (nonlinear_arith)
                requires
                    rn == s * ng,
                    rd == s * dg,
                    s == 1,
            ;
        }
        assert(rd == abs(d / g));
        assert(abs(rn) == abs(n / g));
        assert(rn * d == n * rd) by (nonlinear_arith)
            requires
                n == g * (n / g),
                d == g * (d / g),
                rn == s * (n / g),
                rd == s * (d / g),
        ;
        let (x, y) = lemma_bezout(a, b);
        lemma_fundamental_div_mod(ai, g);
        lemma_fundamental_div_mod(bi, g);
        assert((ai / g) * x + (bi / g) * y == 1) by (nonlinear_arith)
            requires
                ai * x + bi * y == g,
                ai == g * (ai / g),
                bi == g * (bi / g),
                g > 0,
        ;
        assert(abs(rn) == ai / g);
        assert(rd == bi / g);
        lemma_coprime_of_combination((ai / g) as nat, (bi / g) as nat, x, y);
    }
}

/// Euclid's lemma: a number that divides a product and is coprime to one factor divides the
/// other.
pub proof fn lemma_coprime_divides(n: int, d: int, m: int)
    requires
        d > 0,
        gcd(abs(n), d as nat) == 1,
        (n * m) % d == 0,
    ensures
        m % d == 0,
{
    let (x, y) = lemma_bezout(abs(n), d as nat);
    lemma_fundamental_div_mod(n * m, d);
    let k = (n * m) / d;
    let an = abs(n) as int;
    let sk: int = if n >= 0 { k } else { -k };
    assert(an * m == d * sk) by (nonlinear_arith)
        requires
            n * m == d * k,
            n >= 0 ==> an == n && sk == k,
            n < 0 ==> an == -n && sk == -k,
    ;
    assert(m == (sk * x + m * y) * d) by (nonlinear_arith)
        requires
            an * x + d * y == 1,
            an * m == d * sk,
    ;
    lemma_mod_multiples_basic(sk * x + m * y, d);
}

/// Fractions in lowest terms with positive denominators that stand for the same number are the
/// same fraction.
pub proof fn lemma_lowest_terms_unique(n1: int, d1: int, n2: int, d2: int)
    requires
        d1 > 0,
        d2 > 0,
        gcd(abs(n1), d1 as nat) == 1,
        gcd(abs(n2), d2 as nat) == 1,
        n1 * d2 == n2 * d1,
    ensures
        n1 == n2,
        d1 == d2,
{
    lemma_mod_multiples_basic(n2, d1);
    assert(n2 * d1 == d1 * n2) by (nonlinear_arith);
    lemma_coprime_divides(n1, d1, d2);
    lemma_mod_multiples_basic(n1, d2);
    assert(n1 * d2 == d2 * n1) by (nonlinear_arith);
    assert(n2 * d1 == n1 * d2);
    lemma_coprime_divides(n2, d2, d1);
    lemma_fundamental_div_mod(d2, d1);
    lemma_fundamental_div_mod(d1, d2);
    let k1 = d2 / d1;
    let k2 = d1 / d2;
    assert(d1 == d2) by (nonlinear_arith)
        requires
            d2 == d1 * k1,
            d1 == d2 * k2,
            d1 > 0,
            d2 > 0,
    ;
    assert(n1 == n2) by (nonlinear_arith)
        requires
            n1 * d2 == n2 * d1,
            d1 == d2,
            d1 > 0,
    ;
}

/// Fractions that stand for the same number have the same lowest terms.
pub proof fn lemma_reduced_same(n1: int, d1: int, n2: int, d2: int)
    requires
        d1 != 0,
        d2 != 0,
        n1 * d2 == n2 * d1,
    ensures
        reduced_int(n1, d1) == reduced_int(n2, d2),
{
    lemma_reduced_int(n1, d1);
    lemma_reduced_int(n2, d2);
    let (r1, s1) = reduced_int(n1, d1);
    let (r2, s2) = reduced_int(n2, d2);
    assert(r1 * s2 == r2 * s1) by (nonlinear_arith)
        requires
            r1 * d1 == n1 * s1,
            r2 * d2 == n2 * s2,
            n1 * d2 == n2 * d1,
            d1 != 0,
            d2 != 0,
            s1 > 0,
            s2 > 0,
    {
        assert(r1 * s2 * (d1 * d2) == r2 * s1 * (d1 * d2));
    }
    lemma_lowest_terms_unique(r1, s1, r2, s2);
}

/// `r` is the fraction `n / d` in lowest terms.
pub open spec fn stands_for(r: Rational, n: int, d: int) -> bool {
    r.numer as int == reduced_int(n, d).0 && r.denom as int == reduced_int(n, d).1
}

/// Where the lowest terms fit in `i64`, the model's [reduced] is them.
proof fn lemma_reduced_fits(n: int, d: int)
    requires
        d != 0,
        fits_i64(reduced_int(n, d).0),
        fits_i64(reduced_int(n, d).1),
    ensures
        stands_for(reduced(n, d), n, d),
{
}

/// What a fraction in lowest terms stands for.
pub proof fn lemma_stands_for(r: Rational, n: int, d: int)
    requires
        d != 0,
        stands_for(r, n, d),
    ensures
        r.wf(),
        r.numer * d == n * r.denom,
{
    lemma_reduced_int(n, d);
}

/// The model's sum is the sum of the numbers, in lowest terms.
pub proof fn lemma_add_exact(a: Rational, b: Rational)
    requires
        a.denom > 0,
        b.denom > 0,
        add_spec(a, b) is Some,
    ensures
        stands_for(
            add_spec(a, b).unwrap(),
            a.numer * b.denom + b.numer * a.denom,
            a.denom * b.denom,
        ),
{
    let an = a.numer as int;
    let ad = a.denom as int;
    let bn = b.numer as int;
    let bd = b.denom as int;
    let nn = an * bd + bn * ad;
    let dd = ad * bd;
    assert(dd > 0) by (nonlinear_arith)
        requires
            ad > 0,
            bd > 0,
            dd == ad * bd,
    ;
    if ad == bd {
        lemma_reduced_int(an + bn, ad);
        lemma_reduced_fits(an + bn, ad);
        assert((an + bn) * dd == nn * ad) by (nonlinear_arith)
            requires
                nn == an * bd + bn * ad,
                dd == ad * bd,
                ad == bd,
        ;
        lemma_reduced_same(an + bn, ad, nn, dd);
    } else {
        lemma_gcd_divides(ad as nat, bd as nat);
        let g = gcd(ad as nat, bd as nat) as int;
        lemma_fundamental_div_mod(ad, g);
        lemma_fundamental_div_mod(bd, g);
        let ag = ad / g;
        let bg = bd / g;
        let l = ad * bg;
        assert(l == ag * bd) by (nonlinear_arith)
            requires
                ad == g * ag,
                bd == g * bg,
                l == ad * bg,
        ;
        assert(bg > 0) by (nonlinear_arith)
            requires
                bd == g * bg,
                bd > 0,
                g > 0,
        ;
        lemma_div_multiples_vanish(bg, ad);
        lemma_div_multiples_vanish(ag, bd);
        assert(l / ad == bg) by {
            assert(ad * bg == l);
        }
        assert(l / bd == ag) by {
            assert(l == bd * ag) by (nonlinear_arith)
                requires
                    l == ag * bd,
            ;
        }
        let x = an * bg;
        let y = bn * ag;
        assert(l > 0) by (nonlinear_arith)
            requires
                l == ad * bg,
                ad > 0,
                bg > 0,
        ;
        assert((x + y) * g == nn) by (nonlinear_arith)
            requires
                ad == g * ag,
                bd == g * bg,
                x == an * bg,
                y == bn * ag,
                nn == an * bd + bn * ad,
        ;
        assert(l * g == dd) by (nonlinear_arith)
            requires
                bd == g * bg,
                l == ad * bg,
                dd == ad * bd,
        ;
        assert(nn * l == (x + y) * dd) by (nonlinear_arith)
            requires
                (x + y) * g == nn,
                l * g == dd,
        ;
        lemma_reduced_same(nn, dd, x + y, l);
        lemma_reduced_int(x + y, l);
        assert(fits_i64(x + y));
        assert(fits_i64(l));
        lemma_reduced_fits(nn, dd);
    }
}

/// The model's difference is the difference of the numbers, in lowest terms.
pub proof fn lemma_sub_exact(a: Rational, b: Rational)
    requires
        a.denom > 0,
        b.denom > 0,
        sub_spec(a, b) is Some,
    ensures
        stands_for(
            sub_spec(a, b).unwrap(),
            a.numer * b.denom - b.numer * a.denom,
            a.denom * b.denom,
        ),
{
    let an = a.numer as int;
    let ad = a.denom as int;
    let bn = b.numer as int;
    let bd = b.denom as int;
    let nn = an * bd - bn * ad;
    let dd = ad * bd;
    assert(dd > 0) by (nonlinear_arith)
        requires
            ad > 0,
            bd > 0,
            dd == ad * bd,
    ;
    if ad == bd {
        lemma_reduced_int(an - bn, ad);
        lemma_reduced_fits(an - bn, ad);
        assert((an - bn) * dd == nn * ad) by (nonlinear_arith)
            requires
                nn == an * bd - bn * ad,
                dd == ad * bd,
                ad == bd,
        ;
        lemma_reduced_same(an - bn, ad, nn, dd);
    } else {
        lemma_gcd_divides(ad as nat, bd as nat);
        let g = gcd(ad as nat, bd as nat) as int;
        lemma_fundamental_div_mod(ad, g);
        lemma_fundamental_div_mod(bd, g);
        let ag = ad / g;
        let bg = bd / g;
        let l = ad * bg;
        assert(l == ag * bd) by (nonlinear_arith)
            requires
                ad == g * ag,
                bd == g * bg,
                l == ad * bg,
        ;
        assert(bg > 0) by (nonlinear_arith)
            requires
                bd == g * bg,
                bd > 0,
                g > 0,
        ;
        lemma_div_multiples_vanish(bg, ad);
        lemma_div_multiples_vanish(ag, bd);
        assert(l / ad == bg) by {
            assert(ad * bg == l);
        }
        assert(l / bd == ag) by {
            assert(l == bd * ag) by (nonlinear_arith)
                requires
                    l == ag * bd,
            ;
        }
        let x = an * bg;
        let y = bn * ag;
        assert(l > 0) by (nonlinear_arith)
            requires
                l == ad * bg,
                ad > 0,
                bg > 0,
        ;
        assert((x - y) * g == nn) by (nonlinear_arith)
            requires
                ad == g * ag,
                bd == g * bg,
                x == an * bg,
                y == bn * ag,
                nn == an * bd - bn * ad,
        ;
        assert(l * g == dd) by (nonlinear_arith)
            requires
                bd == g * bg,
                l == ad * bg,
                dd == ad * bd,
        ;
        assert(nn * l == (x - y) * dd) by (nonlinear_arith)
            requires
                (x - y) * g == nn,
                l * g == dd,
        ;
        lemma_reduced_same(nn, dd, x - y, l);
        lemma_reduced_int(x - y, l);
        assert(fits_i64(x - y));
        assert(fits_i64(l));
        lemma_reduced_fits(nn, dd);
    }
}

/// The model's product with an integer is the product of the numbers, in lowest terms.
pub proof fn lemma_mul_exact(a: Rational, k: i64)
    requires
        a.denom > 0,
        mul_int_spec(a, k) is Some,
    ensures
        stands_for(mul_int_spec(a, k).unwrap(), a.numer * k, a.denom as int),
{
    let an = a.numer as int;
    let ad = a.denom as int;
    lemma_gcd_divides(ad as nat, abs(k as int));
    let g = gcd(ad as nat, abs(k as int)) as int;
    lemma_exact_div(k as int, g);
    lemma_exact_div(ad, g);
    let kg = (k as int) / g;
    let adg = ad / g;
    assert(adg > 0);
    assert((an * k) * adg == (an * kg) * ad) by (nonlinear_arith)
        requires
            k == g * kg,
            ad == g * adg,
    ;
    lemma_reduced_same(an * k, ad, an * kg, adg);
    lemma_reduced_int(an * kg, adg);
    lemma_reduced_fits(an * k, ad);
}

/// The algebra of the round trip: `(x + m1) + m2 = x` where `m1 = -m2`, with all numbers as
/// cross-multiplied fractions with positive denominators.
proof fn lemma_round_trip_algebra(
    xn: int,
    xd: int,
    yn: int,
    yd: int,
    q: int,
    m1n: int,
    m1d: int,
    m2n: int,
    m2d: int,
    sn: int,
    sd: int,
    rn: int,
    rd: int,
)
    requires
        xd > 0,
        yd > 0,
        m1d > 0,
        m2d > 0,
        sd > 0,
        rd > 0,
        m1n * yd == (yn * (-q)) * m1d,
        m2n * yd == (yn * q) * m2d,
        sn * (xd * m1d) == (xn * m1d + m1n * xd) * sd,
        rn * (sd * m2d) == (sn * m2d + m2n * sd) * rd,
    ensures
        rn * xd == xn * rd,
{
    assert((m1n * m2d + m2n * m1d) * yd == 0) by (nonlinear_arith)
        requires
            m1n * yd == (yn * (-q)) * m1d,
            m2n * yd == (yn * q) * m2d,
    ;
    assert(m1n * m2d + m2n * m1d == 0) by (nonlinear_arith)
        requires
            (m1n * m2d + m2n * m1d) * yd == 0,
            yd > 0,
    ;
    let p = sd * m1d * m2d;
    assert(p > 0) by (nonlinear_arith)
        requires
            sd > 0,
            m1d > 0,
            m2d > 0,
            p == sd * m1d * m2d,
    ;
    let a1 = sd * m2d;
    let b1 = xd * m1d;
    let w = (sn * m2d + m2n * sd) * rd;
    let c = sd * rd * xd;
    assert(rn * a1 * b1 == w * b1) by (nonlinear_arith)
        requires
            rn * a1 == w,
    ;
    assert(rn * a1 * b1 == rn * xd * p) by (nonlinear_arith)
        requires
            a1 == sd * m2d,
            b1 == xd * m1d,
            p == sd * m1d * m2d,
    ;
    let aa = sn * m2d;
    let bb = m2n * sd;
    assert(w == aa * rd + bb * rd) by (nonlinear_arith)
        requires
            w == (aa + bb) * rd,
    ;
    assert(w * b1 == (aa * rd) * b1 + (bb * rd) * b1) by (nonlinear_arith)
        requires
            w == aa * rd + bb * rd,
    ;
    assert((aa * rd) * b1 == (sn * b1) * (m2d * rd)) by (nonlinear_arith)
        requires
            aa == sn * m2d,
    ;
    assert((bb * rd) * b1 == (m2n * m1d) * c) by (nonlinear_arith)
        requires
            bb == m2n * sd,
            b1 == xd * m1d,
            c == sd * rd * xd,
    ;
    let v = (xn * m1d + m1n * xd) * sd;
    assert((sn * b1) * (m2d * rd) == v * (m2d * rd)) by (nonlinear_arith)
        requires
            sn * b1 == v,
    ;
    let v1 = xn * m1d * sd;
    let v2 = m1n * xd * sd;
    assert(v == v1 + v2) by (nonlinear_arith)
        requires
            v == (xn * m1d + m1n * xd) * sd,
            v1 == xn * m1d * sd,
            v2 == m1n * xd * sd,
    ;
    assert(v * (m2d * rd) == v1 * (m2d * rd) + v2 * (m2d * rd)) by (nonlinear_arith)
        requires
            v == v1 + v2,
    ;
    assert(v1 * (m2d * rd) == xn * rd * p) by (nonlinear_arith)
        requires
            v1 == xn * m1d * sd,
            p == sd * m1d * m2d,
    ;
    assert(v2 * (m2d * rd) == (m1n * m2d) * c) by (nonlinear_arith)
        requires
            v2 == m1n * xd * sd,
            c == sd * rd * xd,
    ;
    assert((m1n * m2d) * c + (m2n * m1d) * c == 0) by (nonlinear_arith)
        requires
            m1n * m2d + m2n * m1d == 0,
    ;
    assert(rn * xd * p == xn * rd * p);
    assert(rn * xd == xn * rd) by (nonlinear_arith)
        requires
            rn * xd * p == xn * rd * p,
            p > 0,
    ;
}

/// Adding `-q` times `y` and then `q` times `y` gives back the number one started with.
pub proof fn lemma_axpy_round_trip(x: Rational, q: i64, y: Rational)
    requires
        x.wf(),
        y.denom > 0,
        fits_i64(-q),
        axpy_spec(x, (-q) as i64, y) is Some,
        axpy_spec(axpy_spec(x, (-q) as i64, y).unwrap(), q, y) is Some,
    ensures
        axpy_spec(axpy_spec(x, (-q) as i64, y).unwrap(), q, y) == Some(x),
{
    let nq = (-q) as i64;
    let m1 = mul_int_spec(y, nq).unwrap();
    lemma_mul_exact(y, nq);
    lemma_stands_for(m1, y.numer * nq, y.denom as int);
    let s = add_spec(x, m1).unwrap();
    lemma_add_exact(x, m1);
    assert(x.denom * m1.denom > 0) by (nonlinear_arith)
        requires
            x.denom > 0,
            m1.denom > 0,
    ;
    lemma_stands_for(s, x.numer * m1.denom + m1.numer * x.denom, x.denom * m1.denom);
    let m2 = mul_int_spec(y, q).unwrap();
    lemma_mul_exact(y, q);
    lemma_stands_for(m2, y.numer * q, y.denom as int);
    let r = add_spec(s, m2).unwrap();
    lemma_add_exact(s, m2);
    assert(s.denom * m2.denom > 0) by (nonlinear_arith)
        requires
            s.denom > 0,
            m2.denom > 0,
    ;
    lemma_stands_for(r, s.numer * m2.denom + m2.numer * s.denom, s.denom * m2.denom);
    lemma_round_trip_algebra(
        x.numer as int,
        x.denom as int,
        y.numer as int,
        y.denom as int,
        q as int,
        m1.numer as int,
        m1.denom as int,
        m2.numer as int,
        m2.denom as int,
        s.numer as int,
        s.denom as int,
        r.numer as int,
        r.denom as int,
    );
    lemma_lowest_terms_unique(r.numer as int, r.denom as int, x.numer as int, x.denom as int);
}

} // verus!
