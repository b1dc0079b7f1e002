//! Enumerating the combinations of candidates: every spring (and every anchor) has a list of
//! candidate lengths, and the combination that is tried is a number in the mixed radix whose
//! digits are the indices of the candidates in use, the first spring being the lowest digit.
use vstd::prelude::*;

verus! {

/// The number whose digits (lowest first) are `d`, in the mixed radix `r`.
pub open spec fn odometer_value(d: Seq<int>, r: Seq<int>) -> int
    decreases d.len(),
{
    if d.len() == 0 {
        0
    } else {
        d[0] + r[0] * odometer_value(d.drop_first(), r.drop_first())
    }
}

/// The number of combinations of digits in the mixed radix `r`.
pub open spec fn odometer_capacity(r: Seq<int>) -> int
    decreases r.len(),
{
    if r.len() == 0 {
        1
    } else {
        r[0] * odometer_capacity(r.drop_first())
    }
}

/// Every digit is below its radix.
pub open spec fn digits_in_range(d: Seq<int>, r: Seq<int>) -> bool {
    &&& d.len() == r.len()
    &&& forall|t: int| 0 <= t < d.len() ==> 0 <= #[trigger] d[t] < r[t]
}

/// The digits after counting up from `d`: the digits before `t` (all at their highest) are set
/// to zero, and the digit at `t` is counted up.
pub open spec fn count_up_at(d: Seq<int>, t: int) -> Seq<int> {
    Seq::new(d.len(), |q: int| if q < t { 0 } else if q == t { d[q] + 1 } else { d[q] })
}

pub proof fn lemma_count_up(d: Seq<int>, r: Seq<int>, t: int)
    requires
        d.len() == r.len(),
        0 <= t < d.len(),
        forall|q: int| 0 <= q < t ==> #[trigger] d[q] == r[q] - 1,
    ensures
        odometer_value(count_up_at(d, t), r) == odometer_value(d, r) + 1,
    decreases t,
{
    let e = count_up_at(d, t);
    if t == 0 {
        assert(e.drop_first() =~= d.drop_first());
    } else {
        let d1 = d.drop_first();
        let r1 = r.drop_first();
        assert forall|q: int| 0 <= q < t - 1 implies #[trigger] d1[q] == r1[q] - 1 by {
            assert(d[q + 1] == r[q + 1] - 1);
        }
        lemma_count_up(d1, r1, t - 1);
        assert(e.drop_first() =~= count_up_at(d1, t - 1));
        assert(d[0] == r[0] - 1);
        let v1 = odometer_value(d1, r1);
        assert(r[0] * (v1 + 1) == r[0] * v1 + r[0]) by (nonlinear_arith);
    }
}

/// All digits at their highest: the number is the last one.
pub proof fn lemma_all_highest(d: Seq<int>, r: Seq<int>)
    requires
        d.len() == r.len(),
        forall|q: int| 0 <= q < d.len() ==> #[trigger] d[q] == r[q] - 1,
    ensures
        odometer_value(d, r) + 1 == odometer_capacity(r),
    decreases d.len(),
{
    if d.len() > 0 {
        let d1 = d.drop_first();
        let r1 = r.drop_first();
        assert forall|q: int| 0 <= q < d1.len() implies #[trigger] d1[q] == r1[q] - 1 by {
            assert(d[q + 1] == r[q + 1] - 1);
        }
        lemma_all_highest(d1, r1);
        let v1 = odometer_value(d1, r1);
        assert((r[0] - 1) + r[0] * v1 + 1 == r[0] * (v1 + 1)) by (nonlinear_arith);
    }
}

/// All digits zero: the number is zero.
pub proof fn lemma_all_zero(d: Seq<int>, r: Seq<int>)
    requires
        d.len() == r.len(),
        forall|q: int| 0 <= q < d.len() ==> #[trigger] d[q] == 0,
    ensures
        odometer_value(d, r) == 0,
    decreases d.len(),
{
    if d.len() > 0 {
        let d1 = d.drop_first();
        assert forall|q: int| 0 <= q < d1.len() implies #[trigger] d1[q] == 0 by {
            assert(d[q + 1] == 0);
        }
        lemma_all_zero(d1, r.drop_first());
        assert(r[0] * 0 == 0) by (nonlinear_arith);
    }
}

/// The digits of two numbers one after the other: the second one counts in units of the
/// capacity of the first.
pub proof fn lemma_concat(d1: Seq<int>, r1: Seq<int>, d2: Seq<int>, r2: Seq<int>)
    requires
        d1.len() == r1.len(),
        d2.len() == r2.len(),
    ensures
        odometer_value(d1 + d2, r1 + r2) == odometer_value(d1, r1) + odometer_capacity(r1)
            * odometer_value(d2, r2),
        odometer_capacity(r1 + r2) == odometer_capacity(r1) * odometer_capacity(r2),
    decreases d1.len(),
{
    if d1.len() == 0 {
        assert(d1 + d2 =~= d2);
        assert(r1 + r2 =~= r2);
        assert(odometer_value(d1, r1) == 0);
        assert(odometer_capacity(r1) == 1);
    } else {
        assert((d1 + d2)[0] == d1[0]);
        assert((r1 + r2)[0] == r1[0]);
        assert((d1 + d2).len() > 0);
        assert((d1 + d2).drop_first() =~= d1.drop_first() + d2);
        assert((r1 + r2).drop_first() =~= r1.drop_first() + r2);
        lemma_concat(d1.drop_first(), r1.drop_first(), d2, r2);
        let v = odometer_value(d1.drop_first(), r1.drop_first());
        let c = odometer_capacity(r1.drop_first());
        let w = odometer_value(d2, r2);
        let c2 = odometer_capacity(r2);
        assert(r1[0] * (v + c * w) == r1[0] * v + (r1[0] * c) * w) by (nonlinear_arith);
        assert(r1[0] * (c * c2) == (r1[0] * c) * c2) by (nonlinear_arith);
        assert(odometer_value(d1 + d2, r1 + r2) == d1[0] + r1[0] * odometer_value(d1.drop_first() + d2, r1.drop_first() + r2));
        assert(odometer_capacity(r1 + r2) == r1[0] * odometer_capacity(r1.drop_first() + r2));
        assert(odometer_value(d1, r1) == d1[0] + r1[0] * v);
        assert(odometer_capacity(r1) == r1[0] * c);
    }
}

/// Digits in range make a number below the capacity.
pub proof fn lemma_value_bounds(d: Seq<int>, r: Seq<int>)
    requires
        digits_in_range(d, r),
    ensures
        0 <= odometer_value(d, r) < odometer_capacity(r),
    decreases d.len(),
{
    if d.len() > 0 {
        let d1 = d.drop_first();
        let r1 = r.drop_first();
        assert forall|t: int| 0 <= t < d1.len() implies 0 <= #[trigger] d1[t] < r1[t] by {
            assert(0 <= d[t + 1] < r[t + 1]);
        }
        lemma_value_bounds(d1, r1);
        let v1 = odometer_value(d1, r1);
        let c1 = odometer_capacity(r1);
        assert(0 <= d[0] < r[0]);
        assert(0 <= d[0] + r[0] * v1 < r[0] * c1) by (nonlinear_arith)
            requires
                0 <= d[0] < r[0],
                0 <= v1 < c1,
        ;
    }
}

/// Digits in range are determined by their number.
pub proof fn lemma_value_injective(d1: Seq<int>, d2: Seq<int>, r: Seq<int>)
    requires
        digits_in_range(d1, r),
        digits_in_range(d2, r),
        odometer_value(d1, r) == odometer_value(d2, r),
    ensures
        d1 == d2,
    decreases d1.len(),
{
    if d1.len() > 0 {
        let e1 = d1.drop_first();
        let e2 = d2.drop_first();
        let r1 = r.drop_first();
        assert forall|t: int| 0 <= t < e1.len() implies 0 <= #[trigger] e1[t] < r1[t] by {
            assert(0 <= d1[t + 1] < r[t + 1]);
        }
        assert forall|t: int| 0 <= t < e2.len() implies 0 <= #[trigger] e2[t] < r1[t] by {
            assert(0 <= d2[t + 1] < r[t + 1]);
        }
        let v1 = odometer_value(e1, r1);
        let v2 = odometer_value(e2, r1);
        assert(0 <= d1[0] < r[0]);
        assert(0 <= d2[0] < r[0]);
        assert(v1 == v2 && d1[0] == d2[0]) by (nonlinear_arith)
            requires
                0 <= d1[0] < r[0],
                0 <= d2[0] < r[0],
                d1[0] + r[0] * v1 == d2[0] + r[0] * v2,
        ;
        lemma_value_injective(e1, e2, r1);
        assert(d1 =~= d2) by {
            assert forall|t: int| 0 <= t < d1.len() implies d1[t] == d2[t] by {
                if t > 0 {
                    assert(e1[t - 1] == e2[t - 1]);
                }
            }
        }
    }
}

} // verus!
