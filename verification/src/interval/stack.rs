//! Stacks: integer combinations of the base intervals of a [StackType], together with the
//! (possibly tempered) rational combination of pure intervals they actually sound as.
use std::marker::PhantomData;

use crate::interval::stacktype::{stacktype_wf, StackCoeff, StackType};
use crate::interval::temperament::{adjusted, all_wf, square_wf};
use crate::rational::{
    add_spec, axpy, plus, axpy_spec, fits_i64, integer, lemma_gcd_one, Rational,
};
use vstd::prelude::*;

verus! {

/// A stack of intervals.
///
/// The `target` is the integer combination of base intervals that the stack stands for; the
/// `actual` is the rational combination of pure base intervals that it sounds as, after the
/// temperaments have been applied.
#[derive(Debug, Hash, Eq, PartialEq)]
pub struct Stack<T: StackType> {
    pub _phantom: PhantomData<T>,
    pub target: Vec<StackCoeff>,
    pub actual: Vec<Rational>,
}

/// The integers `c`, as rationals.
pub open spec fn integers(c: Seq<i64>) -> Seq<Rational> {
    Seq::new(c.len(), |i: int| integer(c[i]))
}

/// Applies the active ones among the first `t` temperaments, in order, to the stack `start` of
/// pure intervals, with the target coefficients `c`. `None` if an intermediate step overflows.
pub open spec fn apply_temperaments(
    temps: Seq<Seq<Seq<Rational>>>,
    active: Seq<bool>,
    c: Seq<i64>,
    start: Seq<Rational>,
    t: nat,
) -> Option<Seq<Rational>>
    decreases t,
{
    if t == 0 {
        Some(start)
    } else {
        match apply_temperaments(temps, active, c, start, (t - 1) as nat) {
            Some(x) => if active[t - 1] {
                adjusted(temps[t - 1], c, x)
            } else {
                Some(x)
            },
            None => None,
        }
    }
}

/// The actual coefficients of the stack with target coefficients `c`, tempered by the active
/// temperaments.
pub open spec fn tempered(temps: Seq<Seq<Seq<Rational>>>, active: Seq<bool>, c: Seq<i64>) -> Option<
    Seq<Rational>,
> {
    apply_temperaments(temps, active, c, integers(c), active.len())
}

/// `x + k * y`, entrywise, or `None` if a step overflows.
pub open spec fn axpy_all(x: Seq<Rational>, k: i64, y: Seq<Rational>) -> Option<Seq<Rational>> {
    if x.len() <= y.len() && forall|i: int| 0 <= i < x.len() ==> #[trigger] axpy_spec(x[i], k, y[i]) is Some {
        Some(Seq::new(x.len(), |i: int| axpy_spec(x[i], k, y[i]).unwrap()))
    } else {
        None
    }
}

/// Adds `inc` times the comma of the `i`-th interval of each of the first `t` active
/// temperaments, in order, to `start`.
pub open spec fn apply_commas(
    temps: Seq<Seq<Seq<Rational>>>,
    active: Seq<bool>,
    i: int,
    inc: i64,
    start: Seq<Rational>,
    t: nat,
) -> Option<Seq<Rational>>
    decreases t,
{
    if t == 0 {
        Some(start)
    } else {
        match apply_commas(temps, active, i, inc, start, (t - 1) as nat) {
            Some(x) => if active[t - 1] {
                axpy_all(x, inc, temps[t - 1][i])
            } else {
                Some(x)
            },
            None => None,
        }
    }
}

/// The actual coefficients after adding `inc` to the `i`-th interval, with the active
/// temperaments applied to the added intervals.
pub open spec fn incremented(
    temps: Seq<Seq<Seq<Rational>>>,
    active: Seq<bool>,
    a: Seq<Rational>,
    i: int,
    inc: i64,
) -> Option<Seq<Rational>> {
    match add_spec(a[i], integer(inc)) {
        Some(r) => apply_commas(temps, active, i, inc, a.update(i, r), active.len()),
        None => None,
    }
}

/// Only existing temperaments are switched on.
pub open spec fn active_ok(active: Seq<bool>, n_temperaments: nat) -> bool {
    forall|t: int| 0 <= t < active.len() && #[trigger] active[t] ==> t < n_temperaments
}

/// `sum_{k < j} kd[k] * t[k]`.
pub open spec fn weighted_sum(kd: Seq<u8>, t: Seq<i64>, j: nat) -> int
    decreases j,
{
    if j == 0 {
        0
    } else {
        weighted_sum(kd, t, (j - 1) as nat) + kd[j - 1] * t[j - 1]
    }
}

/// Computing the weighted sum `kd . t` step by step stays within `i64`.
pub open spec fn weighted_sum_fits(kd: Seq<u8>, t: Seq<i64>) -> bool {
    forall|j: int|
        0 <= j < t.len() ==> fits_i64(kd[j] * t[j]) && fits_i64(
            #[trigger] weighted_sum(kd, t, (j + 1) as nat),
        )
}

/// `t + k * o`, entrywise.
pub open spec fn scaled_target(t: Seq<i64>, k: i64, o: Seq<i64>) -> Seq<i64> {
    Seq::new(t.len(), |i: int| (t[i] + k * o[i]) as i64)
}

/// Computing `t + k * o` entrywise stays within `i64`.
pub open spec fn scaled_target_fits(t: Seq<i64>, k: i64, o: Seq<i64>) -> bool {
    &&& t.len() <= o.len()
    &&& forall|i: int| 0 <= i < t.len() ==> fits_i64(k * o[i]) && fits_i64(#[trigger] t[i] + k * o[i])
}

pub proof fn lemma_apply_temperaments_prefix(
    temps: Seq<Seq<Seq<Rational>>>,
    active: Seq<bool>,
    c: Seq<i64>,
    start: Seq<Rational>,
    t: nat,
    n: nat,
)
    requires
        t <= n,
        apply_temperaments(temps, active, c, start, n) is Some,
    ensures
        apply_temperaments(temps, active, c, start, t) is Some,
    decreases n - t,
{
    if t < n {
        lemma_apply_temperaments_prefix(temps, active, c, start, t + 1, n);
    }
}

pub proof fn lemma_apply_commas_prefix(
    temps: Seq<Seq<Seq<Rational>>>,
    active: Seq<bool>,
    i: int,
    inc: i64,
    start: Seq<Rational>,
    t: nat,
    n: nat,
)
    requires
        t <= n,
        apply_commas(temps, active, i, inc, start, n) is Some,
    ensures
        apply_commas(temps, active, i, inc, start, t) is Some,
    decreases n - t,
{
    if t < n {
        lemma_apply_commas_prefix(temps, active, i, inc, start, t + 1, n);
    }
}

/// The weighted sum of a unit vector picks out one weight.
pub proof fn lemma_weighted_sum_unit(kd: Seq<u8>, p: int, m: i64, j: nat)
    requires
        0 <= p < kd.len(),
        j <= kd.len(),
    ensures
        weighted_sum(kd, Seq::new(kd.len(), |i: int| 0i64).update(p, m), j) == if p < j {
            kd[p] * m
        } else {
            0
        },
    decreases j,
{
    if j > 0 {
        lemma_weighted_sum_unit(kd, p, m, (j - 1) as nat);
    }
}

/// Changing one coefficient changes the weighted sum by its weight times the change.
pub proof fn lemma_weighted_sum_update(kd: Seq<u8>, t: Seq<i64>, p: int, m: i64, j: nat)
    requires
        0 <= p < t.len(),
        j <= t.len(),
    ensures
        weighted_sum(kd, t.update(p, m), j) == weighted_sum(kd, t, j) + if p < j {
            kd[p] * (m - t[p])
        } else {
            0
        },
    decreases j,
{
    if j > 0 {
        lemma_weighted_sum_update(kd, t, p, m, (j - 1) as nat);
        let a = kd[j - 1] as int;
        if p == j - 1 {
            assert(a * m == a * t[p] + a * (m - t[p])) by (nonlinear_arith);
        }
    }
}

/// The weighted sum of zeros is zero.
pub proof fn lemma_weighted_sum_zero(kd: Seq<u8>, n: nat, j: nat)
    requires
        j <= n,
    ensures
        weighted_sum(kd, Seq::new(n, |i: int| 0i64), j) == 0,
    decreases j,
{
    if j > 0 {
        lemma_weighted_sum_zero(kd, n, (j - 1) as nat);
    }
}

/// The weighted sum is linear: that of `t + k * o` is that of `t` plus `k` times that of `o`.
pub proof fn lemma_weighted_sum_scaled(kd: Seq<u8>, t: Seq<i64>, k: i64, o: Seq<i64>, j: nat)
    requires
        j <= t.len(),
        scaled_target_fits(t, k, o),
    ensures
        weighted_sum(kd, scaled_target(t, k, o), j) == weighted_sum(kd, t, j) + k * weighted_sum(kd, o, j),
    decreases j,
{
    if j > 0 {
        lemma_weighted_sum_scaled(kd, t, k, o, (j - 1) as nat);
        let a = kd[j - 1] as int;
        let x = t[j - 1] as int;
        let y = o[j - 1] as int;
        let w = weighted_sum(kd, o, (j - 1) as nat);
        assert(fits_i64(x + k * y));
        assert(scaled_target(t, k, o)[j - 1] == x + k * y);
        assert(a * (x + k * y) == a * x + k * (a * y)) by (nonlinear_arith);
        assert(k * w + k * (a * y) == k * (w + a * y)) by (nonlinear_arith);
    }
}

/// Well-formed stacks: one coefficient per base interval, rationals in lowest terms.
pub open spec fn coeffs_wf<T: StackType>(target: Seq<i64>, actual: Seq<Rational>) -> bool {
    &&& target.len() == T::spec_key_distances().len()
    &&& actual.len() == T::spec_key_distances().len()
    &&& all_wf(actual)
}

impl<T: StackType> Clone for Stack<T> {
    fn clone(&self) -> (r: Self)
        ensures
            r.target@ == self.target@,
            r.actual@ == self.actual@,
    {
        let target = self.target.clone();
        let actual = self.actual.clone();
        proof {
            assert(target@ =~= self.target@);
            assert(actual@ =~= self.actual@);
        }
        Stack { _phantom: self._phantom, target, actual }
    }
}

impl<T: StackType> Stack<T> {
    /// One coefficient per base interval, rationals in lowest terms.
    pub open spec fn wf(&self) -> bool {
        coeffs_wf::<T>(self.target@, self.actual@)
    }

    /// The actual coefficients are exactly the target coefficients.
    pub open spec fn spec_is_target(&self) -> bool {
        &&& self.actual@.len() <= self.target@.len()
        &&& forall|i: int| 0 <= i < self.actual@.len() ==> #[trigger] self.actual@[i] == integer(self.target@[i])
    }

    /// The actual coefficients are integers.
    pub open spec fn spec_is_pure(&self) -> bool {
        forall|i: int| 0 <= i < self.actual@.len() ==> (#[trigger] self.actual@[i]).denom == 1
    }

    /// The key distance of the target: `sum_i key_distance(i) * target[i]`.
    pub open spec fn spec_key_distance(&self) -> int {
        weighted_sum(T::spec_key_distances(), self.target@, self.target@.len())
    }

    pub fn from_target_and_actual(target: Vec<StackCoeff>, actual: Vec<Rational>) -> (s: Self)
        ensures
            s.target@ == target@,
            s.actual@ == actual@,
    {
        Stack { _phantom: PhantomData, target, actual }
    }

    /// actual will be initialised to the same as target
    pub fn from_target(target: Vec<StackCoeff>) -> (s: Self)
        ensures
            s.target@ == target@,
            s.actual@ == integers(target@),
            all_wf(s.actual@),
            s.spec_is_target(),
    {
        let mut actual: Vec<Rational> = Vec::new();
        let n = target.len();
        for i in 0..n
            invariant
                n == target@.len(),
                actual@ == integers(target@.subrange(0, i as int)),
                all_wf(actual@),
        {
            actual.push(Rational::from_integer(target[i]));
            proof {
                assert(integers(target@.subrange(0, i + 1)) =~= integers(target@.subrange(0, i as int)).push(integer(target@[i as int])));
            }
        }
        proof {
            assert(target@.subrange(0, n as int) =~= target@);
        }
        Stack { _phantom: PhantomData, target, actual }
    }

    pub fn raw(self) -> (r: (Vec<StackCoeff>, Vec<Rational>))
        ensures
            r.0@ == self.target@,
            r.1@ == self.actual@,
    {
        (self.target, self.actual)
    }

    /// The stack with the given target coefficients, tempered by the active temperaments.
    pub fn from_temperaments_and_target(active_temperaments: &[bool], coefficients: Vec<StackCoeff>) -> (s: Self)
        requires
            coefficients@.len() == T::spec_key_distances().len(),
            active_ok(active_temperaments@, T::spec_temperaments().len()),
            tempered(T::spec_temperaments(), active_temperaments@, coefficients@) is Some,
        ensures
            s.target@ == coefficients@,
            Some(s.actual@) == tempered(T::spec_temperaments(), active_temperaments@, coefficients@),
            s.wf(),
    {
        let mut s = Self::from_target(coefficients);
        s.retemper(active_temperaments);
        s
    }

    /// The stack with all coefficients zero.
    pub fn new_zero() -> (s: Self)
        ensures
            s.target@ == Seq::new(T::spec_key_distances().len(), |i: int| 0i64),
            s.actual@ == Seq::new(T::spec_key_distances().len(), |i: int| integer(0)),
            s.wf(),
    {
        let n = T::num_intervals();
        let mut target: Vec<StackCoeff> = Vec::new();
        let mut actual: Vec<Rational> = Vec::new();
        proof {
            lemma_gcd_one(0);
        }
        for i in 0..n
            invariant
                target@ == Seq::new(i as nat, |k: int| 0i64),
                actual@ == Seq::new(i as nat, |k: int| integer(0)),
                integer(0).wf(),
        {
            target.push(0);
            actual.push(Rational::from_integer(0));
            proof {
                assert(target@ =~= Seq::new((i + 1) as nat, |k: int| 0i64));
                assert(actual@ =~= Seq::new((i + 1) as nat, |k: int| integer(0)));
            }
        }
        Stack { _phantom: PhantomData, target, actual }
    }

    /// `multiplier` times the `interval_index`-th base interval, untempered.
    pub fn from_pure_interval(interval_index: usize, multiplier: StackCoeff) -> (s: Self)
        requires
            interval_index < T::spec_key_distances().len(),
        ensures
            s.target@ == Seq::new(T::spec_key_distances().len(), |i: int| 0i64).update(
                interval_index as int,
                multiplier,
            ),
            s.actual@ == integers(s.target@),
            s.wf(),
    {
        let mut s = Self::new_zero();
        s.target.set(interval_index, multiplier);
        s.actual.set(interval_index, Rational::from_integer(multiplier));
        proof {
            assert(s.actual@ =~= integers(s.target@));
        }
        s
    }

    pub fn target_coefficients(&self) -> (r: &[StackCoeff])
        ensures
            r@ == self.target@,
    {
        self.target.as_slice()
    }

    pub fn actual_coefficients(&self) -> (r: &[Rational])
        ensures
            r@ == self.actual@,
    {
        self.actual.as_slice()
    }

    /// Adds `increment` to the coefficient of the `interval_index`-th base interval, and tempers
    /// the added intervals by the active temperaments.
    pub fn increment_at_index(
        &mut self,
        active_temperaments: &[bool],
        interval_index: usize,
        increment: StackCoeff,
    )
        requires
            old(self).wf(),
            interval_index < T::spec_key_distances().len(),
            active_ok(active_temperaments@, T::spec_temperaments().len()),
            fits_i64(old(self).target@[interval_index as int] + increment),
            incremented(
                T::spec_temperaments(),
                active_temperaments@,
                old(self).actual@,
                interval_index as int,
                increment,
            ) is Some,
        ensures
            final(self).target@ == old(self).target@.update(
                interval_index as int,
                (old(self).target@[interval_index as int] + increment) as i64,
            ),
            Some(final(self).actual@) == incremented(
                T::spec_temperaments(),
                active_temperaments@,
                old(self).actual@,
                interval_index as int,
                increment,
            ),
            final(self).wf(),
    {
        proof {
            T::lemma_stacktype_wf();
            lemma_gcd_one(1);
        }
        let ghost temps = T::spec_temperaments();
        let ghost active = active_temperaments@;
        let ghost i = interval_index as int;
        let n = T::num_intervals();
        self.target.set(interval_index, self.target[interval_index] + increment);
        let r = plus(self.actual[interval_index], Rational::from_integer(increment));
        self.actual.set(interval_index, r);
        let ghost start = self.actual@;
        let ghost target1 = self.target@;
        let temperaments = T::temperaments();
        let mut t: usize = 0;
        while t < active_temperaments.len()
            invariant
                temps == T::spec_temperaments(),
                stacktype_wf(T::spec_key_distances(), temps),
                active == active_temperaments@,
                active_ok(active, temps.len()),
                i == interval_index,
                0 <= i < n,
                n == T::spec_key_distances().len(),
                temperaments@.len() == temps.len(),
                forall|k: int| 0 <= k < temperaments@.len() ==> (#[trigger] temperaments@[k]).spec_adjustments() == temps[k],
                t <= active.len(),
                apply_commas(temps, active, i, increment, start, active.len()) is Some,
                Some(self.actual@) == apply_commas(temps, active, i, increment, start, t as nat),
                self.actual@.len() == n,
                all_wf(self.actual@),
                self.target@ == target1,
                self.target@.len() == n,
            decreases active.len() - t,
        {
            proof {
                lemma_apply_commas_prefix(temps, active, i, increment, start, (t + 1) as nat, active.len());
            }
            if active_temperaments[t] {
                proof {
                    assert(active[t as int]);
                    assert(t < temps.len());
                    assert(temperaments@[t as int].spec_adjustments() == temps[t as int]);
                    assert(square_wf(temps[t as int], n as nat));
                    assert(temps[t as int].len() == n);
                    assert(temperaments@[t as int].spec_adjustments().len() == n);
                    assert(interval_index < n);
                }
                let comma = temperaments[t].comma(interval_index);
                proof {
                    assert(square_wf(temps[t as int], n as nat));
                    assert(comma@ == temps[t as int][i]);
                }
                let mut k: usize = 0;
                let ghost before = self.actual@;
                while k < n
                    invariant
                        0 <= k <= n,
                        n == T::spec_key_distances().len(),
                        square_wf(temps[t as int], n as nat),
                        comma@ == temps[t as int][i],
                        0 <= i < n,
                        before.len() == n,
                        axpy_all(before, increment, comma@) is Some,
                        self.actual@.len() == n,
                        all_wf(self.actual@),
                        all_wf(before),
                        forall|j: int| 0 <= j < k ==> self.actual@[j] == #[trigger] axpy_spec(before[j], increment, comma@[j]).unwrap(),
                        forall|j: int| k <= j < n ==> self.actual@[j] == #[trigger] before[j],
                        self.target@ == target1,
                        self.target@.len() == n,
                    decreases n - k,
                {
                    proof {
                        assert(axpy_spec(before[k as int], increment, comma@[k as int]) is Some);
                        assert(comma@[k as int] == temps[t as int][i][k as int]);
                        assert(comma@[k as int].wf());
                        assert(self.actual@[k as int].wf());
                    }
                    let x = axpy(self.actual[k], increment, comma[k]);
                    self.actual.set(k, x);
                    k = k + 1;
                }
                proof {
                    assert(self.actual@ =~= axpy_all(before, increment, comma@).unwrap());
                }
            }
            t = t + 1;
        }
    }

    /// Adds `increment` to the coefficient of the `interval_index`-th base interval, untempered.
    pub fn increment_at_index_pure(&mut self, interval_index: usize, increment: StackCoeff)
        requires
            interval_index < old(self).target@.len(),
            interval_index < old(self).actual@.len(),
            old(self).actual@[interval_index as int].denom > 0,
            fits_i64(old(self).target@[interval_index as int] + increment),
            add_spec(old(self).actual@[interval_index as int], integer(increment)) is Some,
        ensures
            final(self).target@ == old(self).target@.update(
                interval_index as int,
                (old(self).target@[interval_index as int] + increment) as i64,
            ),
            final(self).actual@ == old(self).actual@.update(
                interval_index as int,
                add_spec(old(self).actual@[interval_index as int], integer(increment)).unwrap(),
            ),
            all_wf(old(self).actual@) ==> all_wf(final(self).actual@),
    {
        proof {
            lemma_gcd_one(1);
        }
        self.target.set(interval_index, self.target[interval_index] + increment);
        let r = plus(self.actual[interval_index], Rational::from_integer(increment));
        self.actual.set(interval_index, r);
    }

    /// Is the actual stack the same as the target?
    pub fn is_target(&self) -> (b: bool)
        requires
            self.wf(),
        ensures
            b == self.spec_is_target(),
    {
        let n = self.actual.len();
        for i in 0..n
            invariant
                self.wf(),
                n == self.actual@.len(),
                forall|j: int| 0 <= j < i ==> #[trigger] self.actual@[j] == integer(self.target@[j]),
        {
            let r = self.actual[i];
            if !r.is_integer() {
                return false;
            }
            if r.to_integer() != self.target[i] {
                return false;
            }
            proof {
                assert(r.denom == 1);
                assert(r.numer / 1 == r.numer);
            }
        }
        true
    }

    /// - `s.is_target()´ implies ´s.is_pure()´, but not vice versa.
    pub fn is_pure(&self) -> (b: bool)
        ensures
            b == self.spec_is_pure(),
    {
        let n = self.actual.len();
        for i in 0..n
            invariant
                n == self.actual@.len(),
                forall|j: int| 0 <= j < i ==> (#[trigger] self.actual@[j]).denom == 1,
        {
            if !self.actual[i].is_integer() {
                return false;
            }
        }
        true
    }

    /// The difference of the MIDI key numbers of the upper and lower note of the target.
    pub fn key_distance(&self) -> (d: StackCoeff)
        requires
            self.target@.len() <= T::spec_key_distances().len(),
            weighted_sum_fits(T::spec_key_distances(), self.target@),
        ensures
            d == self.spec_key_distance(),
    {
        let n = self.target.len();
        let mut res: StackCoeff = 0;
        for i in 0..n
            invariant
                n == self.target@.len(),
                n <= T::spec_key_distances().len(),
                weighted_sum_fits(T::spec_key_distances(), self.target@),
                res == weighted_sum(T::spec_key_distances(), self.target@, i as nat),
        {
            proof {
                assert(fits_i64(weighted_sum(T::spec_key_distances(), self.target@, (i + 1) as nat)));
            }
            let kd = T::key_distance(i) as StackCoeff;
            res = res + kd * self.target[i];
        }
        res
    }

    /// [Self::key_number], or `None` where computing it overflows `i64`.
    pub fn checked_key_number(&self) -> (k: Option<StackCoeff>)
        requires
            self.target@.len() <= T::spec_key_distances().len(),
        ensures
            k is Some <==> (weighted_sum_fits(T::spec_key_distances(), self.target@) && fits_i64(
                self.spec_key_distance() + 60,
            )),
            k is Some ==> k.unwrap() == self.spec_key_distance() + 60,
    {
        let ghost kds = T::spec_key_distances();
        let ghost t = self.target@;
        let n = self.target.len();
        let mut res: StackCoeff = 0;
        let mut i: usize = 0;
        while i < n
            invariant
                n == t.len(),
                t == self.target@,
                kds == T::spec_key_distances(),
                n <= kds.len(),
                i <= n,
                res == weighted_sum(kds, t, i as nat),
                forall|j: int| 0 <= j < i ==> fits_i64(kds[j] * #[trigger] t[j]),
                forall|j: int| 0 <= j < i ==> fits_i64(#[trigger] weighted_sum(kds, t, (j + 1) as nat)),
            decreases n - i,
        {
            let kd = T::key_distance(i) as StackCoeff;
            let prod = match kd.checked_mul(self.target[i]) {
                Some(p) => p,
                None => {
                    proof {
                        assert(!fits_i64(kds[i as int] * t[i as int]));
                        assert(!weighted_sum_fits(kds, t)) by {
                            if weighted_sum_fits(kds, t) {
                                assert(fits_i64(weighted_sum(kds, t, (i + 1) as nat)));
                            }
                        }
                    }
                    return None;
                },
            };
            res = match res.checked_add(prod) {
                Some(r) => r,
                None => {
                    proof {
                        assert(!fits_i64(weighted_sum(kds, t, (i + 1) as nat)));
                    }
                    return None;
                },
            };
            i = i + 1;
        }
        proof {
            assert(weighted_sum_fits(kds, t)) by {
                assert forall|j: int| 0 <= j < t.len() implies fits_i64(kds[j] * t[j]) && fits_i64(
                    #[trigger] weighted_sum(kds, t, (j + 1) as nat),
                ) by {
                    assert(fits_i64(kds[j] * t[j]));
                }
            }
        }
        res.checked_add(60)
    }

    /// If the zero stack corresponds to middle C, return the MIDI note number of the key that this
    /// stack describes. This uses the [Self::key_distance], so it returns the "enharmonically
    /// correct" key, not the one whose (equally tempered) MIDI note is closest to the actually
    /// sounding note.
    pub fn key_number(&self) -> (k: StackCoeff)
        requires
            self.target@.len() <= T::spec_key_distances().len(),
            weighted_sum_fits(T::spec_key_distances(), self.target@),
            fits_i64(self.spec_key_distance() + 60),
        ensures
            k == self.spec_key_distance() + 60,
    {
        self.key_distance() + 60
    }

    /// Sets all coefficients to zero.
    pub fn reset_to_zero(&mut self)
        ensures
            final(self).target@ == Seq::new(old(self).target@.len(), |i: int| 0i64),
            final(self).actual@ == Seq::new(old(self).actual@.len(), |i: int| integer(0)),
            all_wf(final(self).actual@),
    {
        proof {
            lemma_gcd_one(0);
        }
        let n = self.target.len();
        for i in 0..n
            invariant
                n == self.target@.len(),
                n == old(self).target@.len(),
                self.actual@.len() == old(self).actual@.len(),
                forall|j: int| 0 <= j < i ==> #[trigger] self.target@[j] == 0,
        {
            self.target.set(i, 0);
        }
        proof {
            assert(self.target@ =~= Seq::new(old(self).target@.len(), |i: int| 0i64));
        }
        let m = self.actual.len();
        for i in 0..m
            invariant
                m == self.actual@.len(),
                m == old(self).actual@.len(),
                self.target@ == Seq::new(old(self).target@.len(), |i: int| 0i64),
                integer(0).wf(),
                forall|j: int| 0 <= j < i ==> #[trigger] self.actual@[j] == integer(0),
        {
            self.actual.set(i, Rational::from_integer(0));
        }
        proof {
            assert(self.target@ =~= Seq::new(old(self).target@.len(), |i: int| 0i64));
            assert(self.actual@ =~= Seq::new(old(self).actual@.len(), |i: int| integer(0)));
        }
    }

    /// Recomputes the actual coefficients from the target, with the active temperaments.
    pub fn retemper(&mut self, active_temperaments: &[bool])
        requires
            old(self).target@.len() == T::spec_key_distances().len(),
            old(self).actual@.len() == T::spec_key_distances().len(),
            active_ok(active_temperaments@, T::spec_temperaments().len()),
            tempered(T::spec_temperaments(), active_temperaments@, old(self).target@) is Some,
        ensures
            final(self).target@ == old(self).target@,
            Some(final(self).actual@) == tempered(
                T::spec_temperaments(),
                active_temperaments@,
                old(self).target@,
            ),
            final(self).wf(),
    {
        proof {
            T::lemma_stacktype_wf();
        }
        let ghost temps = T::spec_temperaments();
        let ghost active = active_temperaments@;
        let ghost c = self.target@;
        let n = self.target.len();
        for i in 0..n
            invariant
                n == self.target@.len(),
                n == self.actual@.len(),
                self.target@ == c,
                forall|j: int| 0 <= j < i ==> #[trigger] self.actual@[j] == integer(c[j]),
                forall|j: int| 0 <= j < i ==> (#[trigger] self.actual@[j]).wf(),
        {
            let r = Rational::from_integer(self.target[i]);
            self.actual.set(i, r);
        }
        proof {
            assert(self.actual@ =~= integers(c));
        }
        let temperaments = T::temperaments();
        let mut t: usize = 0;
        while t < active_temperaments.len()
            invariant
                temps == T::spec_temperaments(),
                stacktype_wf(T::spec_key_distances(), temps),
                active == active_temperaments@,
                active_ok(active, temps.len()),
                n == T::spec_key_distances().len(),
                temperaments@.len() == temps.len(),
                forall|k: int| 0 <= k < temperaments@.len() ==> (#[trigger] temperaments@[k]).spec_adjustments() == temps[k],
                t <= active.len(),
                c == self.target@,
                c.len() == n,
                apply_temperaments(temps, active, c, integers(c), active.len()) is Some,
                Some(self.actual@) == apply_temperaments(temps, active, c, integers(c), t as nat),
                self.actual@.len() == n,
                all_wf(self.actual@),
            decreases active.len() - t,
        {
            proof {
                lemma_apply_temperaments_prefix(temps, active, c, integers(c), (t + 1) as nat, active.len());
            }
            if active_temperaments[t] {
                proof {
                    assert(square_wf(temps[t as int], n as nat));
                }
                temperaments[t].add_adjustment(self.target.as_slice(), &mut self.actual);
            }
            t = t + 1;
        }
    }

    /// Makes `self` equal to `other`.
    pub fn clone_from(&mut self, other: &Self)
        ensures
            final(self).target@ == other.target@,
            final(self).actual@ == other.actual@,
    {
        *self = other.clone();
    }
}

/// Adding a multiple of another value.
pub trait ScaledAdd<S>: Sized {
    /// No step of `self += scalar * other` overflows.
    spec fn scaled_add_ok(&self, scalar: S, other: &Self) -> bool;

    /// `self` is `before + scalar * other`.
    spec fn is_scaled_sum(&self, before: &Self, scalar: S, other: &Self) -> bool;

    fn scaled_add(&mut self, scalar: S, other: &Self)
        requires
            old(self).scaled_add_ok(scalar, other),
        ensures
            final(self).is_scaled_sum(old(self), scalar, other),
    ;
}

impl<T: StackType> ScaledAdd<StackCoeff> for Stack<T> {
    open spec fn scaled_add_ok(&self, scalar: StackCoeff, other: &Self) -> bool {
        &&& all_wf(self.actual@)
        &&& all_wf(other.actual@)
        &&& scaled_target_fits(self.target@, scalar, other.target@)
        &&& axpy_all(self.actual@, scalar, other.actual@) is Some
    }

    open spec fn is_scaled_sum(&self, before: &Self, scalar: StackCoeff, other: &Self) -> bool {
        &&& self.target@ == scaled_target(before.target@, scalar, other.target@)
        &&& Some(self.actual@) == axpy_all(before.actual@, scalar, other.actual@)
        &&& all_wf(self.actual@)
    }

    fn scaled_add(&mut self, scalar: StackCoeff, other: &Self) {
        let ghost t0 = self.target@;
        let ghost a0 = self.actual@;
        let n = self.target.len();
        for i in 0..n
            invariant
                n == self.target@.len(),
                t0.len() == n,
                scaled_target_fits(t0, scalar, other.target@),
                self.actual@ == a0,
                forall|j: int| 0 <= j < i ==> #[trigger] self.target@[j] == (t0[j] + scalar * other.target@[j]) as i64,
                forall|j: int| i <= j < n ==> #[trigger] self.target@[j] == t0[j],
        {
            proof {
                assert(fits_i64(t0[i as int] + scalar * other.target@[i as int]));
            }
            let x = self.target[i] + scalar * other.target[i];
            self.target.set(i, x);
        }
        proof {
            assert(self.target@ =~= scaled_target(t0, scalar, other.target@));
        }
        let m = self.actual.len();
        for i in 0..m
            invariant
                m == self.actual@.len(),
                a0.len() == m,
                all_wf(a0),
                all_wf(self.actual@),
                all_wf(other.actual@),
                axpy_all(a0, scalar, other.actual@) is Some,
                forall|j: int| 0 <= j < i ==> self.actual@[j] == #[trigger] axpy_spec(a0[j], scalar, other.actual@[j]).unwrap(),
                forall|j: int| i <= j < m ==> self.actual@[j] == #[trigger] a0[j],
                self.target@ == scaled_target(t0, scalar, other.target@),
        {
            proof {
                assert(axpy_spec(a0[i as int], scalar, other.actual@[i as int]) is Some);
                assert(self.actual@[i as int].wf());
                assert(other.actual@[i as int].wf());
            }
            let x = axpy(self.actual[i], scalar, other.actual[i]);
            self.actual.set(i, x);
        }
        proof {
            assert(self.actual@ =~= axpy_all(a0, scalar, other.actual@).unwrap());
        }
    }
}

/// A stack whose actual coefficients are its target coefficients is pure: all its actual
/// coefficients are integers.
pub proof fn law_target_is_pure<T: StackType>(s: Stack<T>)
    requires
        s.spec_is_target(),
    ensures
        s.spec_is_pure(),
{
    assert forall|i: int| 0 <= i < s.actual@.len() implies (#[trigger] s.actual@[i]).denom == 1 by {
        assert(s.actual@[i] == integer(s.target@[i]));
    }
}

/// Adding `k` times `o` to the target coefficients and then `-k` times `o` gives back the
/// coefficients one started with.
pub proof fn law_scaled_target_round_trip(t: Seq<i64>, k: i64, o: Seq<i64>)
    requires
        scaled_target_fits(t, k, o),
        fits_i64(-k),
        scaled_target_fits(scaled_target(t, k, o), (-k) as i64, o),
    ensures
        scaled_target(scaled_target(t, k, o), (-k) as i64, o) == t,
{
    let u = scaled_target(t, k, o);
    assert forall|i: int| 0 <= i < t.len() implies #[trigger] scaled_target(u, (-k) as i64, o)[i] == t[i] by {
        assert(u[i] == t[i] + k * o[i]);
        assert(((-k) as i64) * o[i] == -(k * o[i])) by (nonlinear_arith)
            requires
                fits_i64(-k),
        ;
    }
    assert(scaled_target(u, (-k) as i64, o) =~= t);
}

/// Adding `-q` times a stack `p` to a stack `s` and then `q` times `p` to the result gives back
/// `s`: its target coefficients and its actual coefficients.
pub proof fn law_scaled_add_round_trip<T: StackType>(
    s: Stack<T>,
    q: i64,
    p: Stack<T>,
    mid: Stack<T>,
    r: Stack<T>,
)
    requires
        s.wf(),
        p.wf(),
        fits_i64(-q),
        s.scaled_add_ok((-q) as i64, &p),
        mid.is_scaled_sum(&s, (-q) as i64, &p),
        mid.scaled_add_ok(q, &p),
        r.is_scaled_sum(&mid, q, &p),
    ensures
        r.target@ == s.target@,
        r.actual@ == s.actual@,
{
    assert(-((-q) as i64) == q);
    law_scaled_target_round_trip(s.target@, (-q) as i64, p.target@);
    let a = s.actual@;
    let m = mid.actual@;
    assert forall|i: int| 0 <= i < a.len() implies #[trigger] r.actual@[i] == a[i] by {
        assert(axpy_spec(a[i], (-q) as i64, p.actual@[i]) is Some);
        assert(m[i] == axpy_spec(a[i], (-q) as i64, p.actual@[i]).unwrap());
        assert(axpy_spec(m[i], q, p.actual@[i]) is Some);
        assert(a[i].wf());
        assert(p.actual@[i].wf());
        crate::rational::exact::lemma_axpy_round_trip(a[i], q, p.actual@[i]);
    }
    assert(r.actual@ =~= a);
}

/// With no temperament active, the actual coefficients of a stack are its target coefficients:
/// a stack retempered that way is its target.
pub proof fn law_untempered_is_target(temps: Seq<Seq<Seq<Rational>>>, active: Seq<bool>, c: Seq<i64>)
    requires
        forall|i: int| 0 <= i < active.len() ==> !#[trigger] active[i],
    ensures
        tempered(temps, active, c) == Some(integers(c)),
{
    lemma_untempered_prefix(temps, active, c, active.len());
}

proof fn lemma_untempered_prefix(temps: Seq<Seq<Seq<Rational>>>, active: Seq<bool>, c: Seq<i64>, t: nat)
    requires
        t <= active.len(),
        forall|i: int| 0 <= i < active.len() ==> !#[trigger] active[i],
    ensures
        apply_temperaments(temps, active, c, integers(c), t) == Some(integers(c)),
    decreases t,
{
    if t > 0 {
        lemma_untempered_prefix(temps, active, c, (t - 1) as nat);
        assert(!active[t - 1]);
    }
}

} // verus!
