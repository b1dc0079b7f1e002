//! A neighbourhood is a description of the tunings of some notes, relative to
//! a reference note.
use std::collections::HashMap;

use crate::interval::stack::{
    active_ok, axpy_all, incremented, law_scaled_add_round_trip, lemma_weighted_sum_scaled, lemma_weighted_sum_unit,
    lemma_weighted_sum_update, lemma_weighted_sum_zero, scaled_target, scaled_target_fits, weighted_sum,
    weighted_sum_fits, ScaledAdd,
    Stack,
};
use crate::interval::stacktype::{
    FiveLimitStackType, OctavePeriodicStackType, PeriodicStackType, StackCoeff, StackType,
};
use crate::interval::temperament::all_wf;
use crate::notename::johnston::fivelimit::{div_euclid, rem_euclid};
use crate::rational::{fits_i64, integer, Rational};
use vstd::prelude::*;

verus! {

broadcast use vstd::std_specs::hash::group_hash_axioms;

/// One of the kinds of neighbourhood.
#[derive(Debug, PartialEq)]
pub enum SomeNeighbourhood<T: StackType> {
    PeriodicComplete(PeriodicComplete<T>),
    PeriodicPartial(PeriodicPartial<T>),
}

/// Tunings for all notes, described by giving the tunings of all notes in the first "octave" above
/// the reference.
///
/// invariants:
/// - the [key_distance][Stack::key_distance] of the stack on index `ì` is `i`. In particular, the
/// first one (at index zero) must map to a unison on the keyboard.
#[derive(Debug, PartialEq)]
pub struct PeriodicComplete<T: StackType> {
    pub stacks: Vec<Stack<T>>,
    pub period: Stack<T>,
}

/// Like [PeriodicComplete], but with the invariant that the period is the one of the stack type
#[derive(Debug, PartialEq)]
pub struct PeriodicCompleteAligned<T: PeriodicStackType> {
    pub inner: PeriodicComplete<T>,
}

/// Tunings for some notes and their "octave equivalents" described by giving tunings of some notes
/// in the first "octave" over the reference.
#[derive(Debug, PartialEq)]
pub struct PeriodicPartial<T: StackType> {
    /// invariant: the keys are all in the range 0..=(period_keys-1)
    pub stacks: HashMap<usize, Stack<T>>,
    pub period: Stack<T>,
}

/// The period is a well-formed stack whose key distance is between 1 and 127.
pub open spec fn period_wf<T: StackType>(period: Stack<T>) -> bool {
    &&& period.wf()
    &&& weighted_sum_fits(T::spec_key_distances(), period.target@)
    &&& 0 < period.spec_key_distance() < 128
}

/// The number of keys in the period.
pub open spec fn period_keys_of<T: StackType>(period: Stack<T>) -> int {
    period.spec_key_distance()
}

/// How many periods above the reference the note at `offset` is.
pub open spec fn period_quot(offset: int, n: int) -> int {
    offset / n
}

/// The note in the first period above the reference with the same class as `offset`.
pub open spec fn period_rem(offset: int, n: int) -> int {
    offset % n
}

/// `s` is `stored + q * period`.
pub open spec fn is_shifted<T: StackType>(s: Stack<T>, stored: Stack<T>, q: int, period: Stack<T>) -> bool {
    fits_i64(q) && s.is_scaled_sum(&stored, q as i64, &period)
}

/// `stored + q * period` can be computed.
pub open spec fn shift_ok<T: StackType>(stored: Stack<T>, q: int, period: Stack<T>) -> bool {
    fits_i64(q) && stored.scaled_add_ok(q as i64, &period)
}

/// Storing a stack: it is stored `q` periods lower, in the slot of its class.
pub open spec fn insert_ok_for<T: StackType>(stack: Stack<T>, period: Stack<T>) -> bool {
    let n = period_keys_of(period);
    let kd = stack.spec_key_distance();
    &&& stack.wf()
    &&& weighted_sum_fits(T::spec_key_distances(), stack.target@)
    &&& shift_ok(stack, -period_quot(kd, n), period)
}

/// Description of the tunings of notes relative to a reference.
pub trait Neighbourhood<T: StackType>: Sized {
    spec fn spec_wf(&self) -> bool;

    /// Does this neighbourhood provide a tuning for a note with the given offset from the
    /// reference?
    spec fn spec_has_tuning_for(&self, offset: i8) -> bool;

    /// The tuning for the offset can be computed without overflow.
    spec fn lookup_ok(&self, offset: i8) -> bool;

    /// `s` is the tuning for the note at `offset`.
    spec fn is_relative_stack(&self, offset: i8, s: Stack<T>) -> bool;

    spec fn insert_ok(&self, stack: Stack<T>) -> bool;

    /// `self` is `before` with the tuning `stack` stored; `r` is what was stored.
    spec fn is_inserted(&self, before: Self, stack: Stack<T>, r: Stack<T>) -> bool;

    /// The values of the `axis`-th target coefficient of the stored stacks.
    spec fn stored_targets(&self, axis: int) -> Set<int>;

    /// the lowest and highest entry in the given dimension; `(0, 0)` where nothing is stored.
    /// The `axis` must be in the range `0..N`, where `N` is the
    /// [num_intervals][StackType::num_intervals].
    fn bounds(&self, axis: usize) -> (r: (StackCoeff, StackCoeff))
        requires
            self.spec_wf(),
            axis < T::spec_key_distances().len(),
        ensures
            forall|x: int| #[trigger] self.stored_targets(axis as int).contains(x) ==> r.0 <= x <= r.1,
            (exists|x: int| #[trigger] self.stored_targets(axis as int).contains(x)) ==> self.stored_targets(
                axis as int,
            ).contains(r.0 as int) && self.stored_targets(axis as int).contains(r.1 as int),
            !(exists|x: int| #[trigger] self.stored_targets(axis as int).contains(x)) ==> r == (0i64, 0i64),
    ;

    /// Insert a tuning. If there's already a tuning for the (relative) note described by Stack,
    /// update. Returns a reference to the  actually inserted Stack (which may be different in the case of
    /// periodic neighbourhoods, where we store the representative in the "octave" above the
    /// reference)
    fn insert(&mut self, stack: &Stack<T>) -> (r: &Stack<T>)
        requires
            old(self).spec_wf(),
            old(self).insert_ok(*stack),
        ensures
            final(self).is_inserted(*old(self), *stack, *r),
            final(self).spec_wf(),
    ;

    /// Does this neighbourhood provide a tuning for a note with the given offset from the
    /// reference?
    fn has_tuning_for(&self, offset: i8) -> (b: bool)
        requires
            self.spec_wf(),
        ensures
            b == self.spec_has_tuning_for(offset),
    ;

    /// returns true iff has_tuning_for returns true for the same offset. Leaves `target`
    /// unchanged if it returns `false`
    fn try_write_relative_stack(&self, target: &mut Stack<T>, offset: i8) -> (b: bool)
        requires
            self.spec_wf(),
            self.lookup_ok(offset),
        ensures
            b == self.spec_has_tuning_for(offset),
            b ==> self.is_relative_stack(offset, *final(target)),
            !b ==> *final(target) == *old(target),
    ;

    /// returns Some iff has_tuning_for returns true for the same offset.
    fn try_get_relative_stack(&self, offset: i8) -> (r: Option<Stack<T>>)
        requires
            self.spec_wf(),
            self.lookup_ok(offset),
        ensures
            r is Some == self.spec_has_tuning_for(offset),
            r is Some ==> self.is_relative_stack(offset, r.unwrap()),
    {
        if self.has_tuning_for(offset) {
            let mut res = Stack::new_zero();
            let _ = self.try_write_relative_stack(&mut res, offset);
            Some(res)
        } else {
            None
        }
    }
}

/// Neighbourhoods that can return a tuning for every offset.
pub trait CompleteNeigbourhood<T: StackType>: Neighbourhood<T> {
    proof fn lemma_complete(&self, offset: i8)
        requires
            self.spec_wf(),
        ensures
            self.spec_has_tuning_for(offset),
    ;

    fn write_relative_stack(&self, target: &mut Stack<T>, offset: i8)
        requires
            self.spec_wf(),
            self.lookup_ok(offset),
        ensures
            self.is_relative_stack(offset, *final(target)),
    {
        proof {
            self.lemma_complete(offset);
        }
        self.try_write_relative_stack(target, offset);
    }

    fn get_relative_stack(&self, offset: i8) -> (r: Stack<T>)
        requires
            self.spec_wf(),
            self.lookup_ok(offset),
        ensures
            self.is_relative_stack(offset, r),
    {
        proof {
            self.lemma_complete(offset);
        }
        self.try_get_relative_stack(offset).unwrap()
    }
}

/// Neighbourhoods that repeat after a period.
pub trait PeriodicNeighbourhood<T: StackType>: Neighbourhood<T> {
    spec fn spec_period(&self) -> Stack<T>;

    /// The "octave": keys will be tuned relative to the highest note that can be obtained by
    /// shifting the reference a number (negative, zero, or positive) of these periods.
    fn period(&self) -> (r: &Stack<T>)
        ensures
            *r == self.spec_period(),
    ;

    /// Convenience: the [key_distance][Stack::key_distance] of the period.
    fn period_keys(&self) -> (k: u8)
        requires
            self.spec_period().target@.len() <= T::spec_key_distances().len(),
            weighted_sum_fits(T::spec_key_distances(), self.spec_period().target@),
        ensures
            k == self.spec_period().spec_key_distance() as u8,
    {
        self.period().key_distance() as u8
    }
}

/// Marker trait for periodic neighbourhoods whose period is the one of the stack type.
pub trait AlignedPeriodicNeighbourhood<T: PeriodicStackType>: PeriodicNeighbourhood<T> {

}

/// Euclidean quotient and remainder of an `i8` by a positive divisor.
fn div_rem_i8(offset: i8, n: i8) -> (r: (StackCoeff, usize))
    requires
        n > 0,
    ensures
        r.0 == period_quot(offset as int, n as int),
        r.1 == period_rem(offset as int, n as int),
{
    let q = div_euclid(offset as i64, n as i64);
    let m = rem_euclid(offset as i64, n as i64);
    proof {
        vstd::arithmetic::div_mod::lemma_mod_bound(offset as int, n as int);
    }
    (q, m as usize)
}

impl<T: StackType> PeriodicComplete<T> {
    /// The period is well-formed, and there is one well-formed stack for every key of the
    /// period: the one at index `k` has key distance `k`.
    pub open spec fn complete_wf(&self) -> bool {
        &&& period_wf(self.period)
        &&& self.stacks@.len() == period_keys_of(self.period)
        &&& forall|i: int| 0 <= i < self.stacks@.len() ==> (#[trigger] self.stacks@[i]).wf()
        &&& forall|i: int| 0 <= i < self.stacks@.len() ==> (#[trigger] self.stacks@[i]).spec_key_distance() == i
    }

    /// The period's key distance.
    fn keys(&self) -> (n: i64)
        requires
            period_wf(self.period),
        ensures
            n == period_keys_of(self.period),
            0 < n < 128,
    {
        self.period.key_distance()
    }
}

impl<T: StackType> Neighbourhood<T> for PeriodicComplete<T> {
    open spec fn spec_wf(&self) -> bool {
        self.complete_wf()
    }

    open spec fn spec_has_tuning_for(&self, offset: i8) -> bool {
        true
    }

    open spec fn lookup_ok(&self, offset: i8) -> bool {
        let n = period_keys_of(self.period);
        shift_ok(self.stacks@[period_rem(offset as int, n)], period_quot(offset as int, n), self.period)
    }

    open spec fn is_relative_stack(&self, offset: i8, s: Stack<T>) -> bool {
        let n = period_keys_of(self.period);
        is_shifted(s, self.stacks@[period_rem(offset as int, n)], period_quot(offset as int, n), self.period)
    }

    open spec fn insert_ok(&self, stack: Stack<T>) -> bool {
        insert_ok_for(stack, self.period)
    }

    open spec fn is_inserted(&self, before: Self, stack: Stack<T>, r: Stack<T>) -> bool {
        let n = period_keys_of(before.period);
        let rem = period_rem(stack.spec_key_distance(), n);
        &&& self.period == before.period
        &&& self.stacks@.len() == before.stacks@.len()
        &&& forall|i: int| 0 <= i < self.stacks@.len() && i != rem ==> #[trigger] self.stacks@[i] == before.stacks@[i]
        &&& self.stacks@[rem] == r
        &&& is_shifted(r, stack, -period_quot(stack.spec_key_distance(), n), before.period)
    }

    open spec fn stored_targets(&self, axis: int) -> Set<int> {
        Set::new(|x: int| exists|i: int| 0 <= i < self.stacks@.len() && #[trigger] self.stacks@[i].target@[axis] == x)
    }

    fn bounds(&self, axis: usize) -> (r: (StackCoeff, StackCoeff)) {
        let (mut min, mut max): (StackCoeff, StackCoeff) = (0, 0);
        let mut i: usize = 0;
        while i < self.stacks.len()
            invariant
                self.spec_wf(),
                axis < T::spec_key_distances().len(),
                i <= self.stacks@.len(),
                forall|k: int| 0 <= k < i ==> min <= #[trigger] self.stacks@[k].target@[axis as int] <= max,
                i == 0 ==> min == 0 && max == 0,
                i > 0 ==> exists|k: int| 0 <= k < i && #[trigger] self.stacks@[k].target@[axis as int] == min,
                i > 0 ==> exists|k: int| 0 <= k < i && #[trigger] self.stacks@[k].target@[axis as int] == max,
            decreases self.stacks@.len() - i,
        {
            let x = self.stacks[i].target[axis];
            if i == 0 {
                min = x;
                max = x;
            } else {
                if x > max {
                    max = x;
                }
                if x < min {
                    min = x;
                }
            }
            i = i + 1;
        }
        proof {
            assert forall|x: int| #[trigger] self.stored_targets(axis as int).contains(x) implies min <= x <= max by {
                let k = choose|k: int| 0 <= k < self.stacks@.len() && #[trigger] self.stacks@[k].target@[axis as int] == x;
            }
            if exists|x: int| #[trigger] self.stored_targets(axis as int).contains(x) {
                let x = choose|x: int| #[trigger] self.stored_targets(axis as int).contains(x);
                let k = choose|k: int| 0 <= k < self.stacks@.len() && #[trigger] self.stacks@[k].target@[axis as int] == x;
                assert(i > 0);
                let a = choose|k: int| 0 <= k < i && #[trigger] self.stacks@[k].target@[axis as int] == min;
                let b = choose|k: int| 0 <= k < i && #[trigger] self.stacks@[k].target@[axis as int] == max;
                assert(self.stored_targets(axis as int).contains(min as int));
                assert(self.stored_targets(axis as int).contains(max as int));
            } else {
                if self.stacks@.len() > 0 {
                    assert(self.stored_targets(axis as int).contains(self.stacks@[0].target@[axis as int] as int));
                }
            }
        }
        (min, max)
    }

    fn insert(&mut self, stack: &Stack<T>) -> (r: &Stack<T>) {
        let n = self.keys();
        let kd = stack.key_distance();
        let quot = div_euclid(kd, n);
        let rem = rem_euclid(kd, n) as usize;
        proof {
            vstd::arithmetic::div_mod::lemma_mod_bound(kd as int, n as int);
        }
        let mut the_stack = stack.clone();
        the_stack.scaled_add(-quot, &self.period);
        proof {
            let kds = T::spec_key_distances();
            lemma_weighted_sum_scaled(kds, stack.target@, (-quot) as i64, self.period.target@, stack.target@.len());
            vstd::arithmetic::div_mod::lemma_fundamental_div_mod(kd as int, n as int);
            assert(stack.target@.len() == kds.len());
            assert(self.period.target@.len() == kds.len());
            assert(the_stack.target@ == scaled_target(stack.target@, (-quot) as i64, self.period.target@));
            assert(the_stack.target@.len() == kds.len());
            assert(kd == stack.spec_key_distance());
            assert(n == self.period.spec_key_distance());
            assert(the_stack.spec_key_distance() == kd + (-quot) * n);
            assert(quot == (kd as int) / (n as int) && rem == (kd as int) % (n as int));
            assert((-quot) * n == -((n as int) * ((kd as int) / (n as int)))) by (nonlinear_arith)
                requires
                    quot == (kd as int) / (n as int),
            ;
            assert(the_stack.spec_key_distance() == rem);
        }
        self.stacks.set(rem, the_stack);
        &self.stacks[rem]
    }

    fn has_tuning_for(&self, offset: i8) -> (b: bool) {
        true
    }

    fn try_write_relative_stack(&self, target: &mut Stack<T>, offset: i8) -> (b: bool) {
        let n = self.keys() as i8;
        let (quot, rem) = div_rem_i8(offset, n);
        target.clone_from(&self.stacks[rem]);
        target.scaled_add(quot, &self.period);
        true
    }
}

impl<T: StackType> CompleteNeigbourhood<T> for PeriodicComplete<T> {
    proof fn lemma_complete(&self, offset: i8) {
    }
}

impl<T: StackType> PeriodicNeighbourhood<T> for PeriodicComplete<T> {
    open spec fn spec_period(&self) -> Stack<T> {
        self.period
    }

    fn period(&self) -> (r: &Stack<T>) {
        &self.period
    }
}

impl<T: StackType> PeriodicPartial<T> {
    /// The period's key distance.
    fn keys(&self) -> (n: i64)
        requires
            period_wf(self.period),
        ensures
            n == period_keys_of(self.period),
            0 < n < 128,
    {
        self.period.key_distance()
    }
}

impl<T: StackType> Neighbourhood<T> for PeriodicPartial<T> {
    open spec fn spec_wf(&self) -> bool {
        &&& period_wf(self.period)
        &&& forall|k: usize| #[trigger] self.stacks@.contains_key(k) ==> k < period_keys_of(self.period) && self.stacks@[k].wf()
    }

    open spec fn spec_has_tuning_for(&self, offset: i8) -> bool {
        self.stacks@.contains_key(period_rem(offset as int, period_keys_of(self.period)) as usize)
    }

    open spec fn lookup_ok(&self, offset: i8) -> bool {
        let n = period_keys_of(self.period);
        let rem = period_rem(offset as int, n) as usize;
        self.stacks@.contains_key(rem) ==> shift_ok(self.stacks@[rem], period_quot(offset as int, n), self.period)
    }

    open spec fn is_relative_stack(&self, offset: i8, s: Stack<T>) -> bool {
        let n = period_keys_of(self.period);
        let rem = period_rem(offset as int, n) as usize;
        is_shifted(s, self.stacks@[rem], period_quot(offset as int, n), self.period)
    }

    open spec fn insert_ok(&self, stack: Stack<T>) -> bool {
        insert_ok_for(stack, self.period)
    }

    open spec fn is_inserted(&self, before: Self, stack: Stack<T>, r: Stack<T>) -> bool {
        let n = period_keys_of(before.period);
        let rem = period_rem(stack.spec_key_distance(), n) as usize;
        &&& self.period == before.period
        &&& self.stacks@ == before.stacks@.insert(rem, r)
        &&& is_shifted(r, stack, -period_quot(stack.spec_key_distance(), n), before.period)
    }

    open spec fn stored_targets(&self, axis: int) -> Set<int> {
        Set::new(|x: int| exists|k: usize| self.stacks@.contains_key(k) && #[trigger] self.stacks@[k].target@[axis] == x)
    }

    fn bounds(&self, axis: usize) -> (r: (StackCoeff, StackCoeff)) {
        let (mut min, mut max): (StackCoeff, StackCoeff) = (0, 0);
        let n = self.keys() as usize;
        let mut found = false;
        let mut k: usize = 0;
        while k < n
            invariant
                self.spec_wf(),
                axis < T::spec_key_distances().len(),
                n == period_keys_of(self.period),
                k <= n,
                forall|j: usize| j < k && self.stacks@.contains_key(j) ==> min <= #[trigger] self.stacks@[j].target@[axis as int] <= max,
                found == exists|j: usize| j < k && #[trigger] self.stacks@.contains_key(j),
                !found ==> min == 0 && max == 0,
                found ==> exists|j: usize| self.stacks@.contains_key(j) && #[trigger] self.stacks@[j].target@[axis as int] == min,
                found ==> exists|j: usize| self.stacks@.contains_key(j) && #[trigger] self.stacks@[j].target@[axis as int] == max,
            decreases n - k,
        {
            match self.stacks.get(&k) {
                Some(stack) => {
                    let x = stack.target[axis];
                    if !found {
                        min = x;
                        max = x;
                        found = true;
                    } else {
                        if x > max {
                            max = x;
                        }
                        if x < min {
                            min = x;
                        }
                    }
                    assert(self.stacks@.contains_key(k));
                },
                None => {
                    assert(!self.stacks@.contains_key(k));
                    assert(found == exists|j: usize| j < k + 1 && #[trigger] self.stacks@.contains_key(j)) by {
                        if found {
                            let j = choose|j: usize| j < k && #[trigger] self.stacks@.contains_key(j);
                            assert(j < k + 1);
                        } else {
                            assert forall|j: usize| j < k + 1 implies !#[trigger] self.stacks@.contains_key(j) by {
                                if j < k {
                                }
                            }
                        }
                    }
                },
            }
            k = k + 1;
        }
        proof {
            assert forall|x: int| #[trigger] self.stored_targets(axis as int).contains(x) implies min <= x <= max by {
                let j = choose|j: usize| self.stacks@.contains_key(j) && #[trigger] self.stacks@[j].target@[axis as int] == x;
                assert(j < n);
            }
            if exists|x: int| #[trigger] self.stored_targets(axis as int).contains(x) {
                let x = choose|x: int| #[trigger] self.stored_targets(axis as int).contains(x);
                let j = choose|j: usize| self.stacks@.contains_key(j) && #[trigger] self.stacks@[j].target@[axis as int] == x;
                assert(j < n);
                assert(found);
                let a = choose|j: usize| self.stacks@.contains_key(j) && #[trigger] self.stacks@[j].target@[axis as int] == min;
                let b = choose|j: usize| self.stacks@.contains_key(j) && #[trigger] self.stacks@[j].target@[axis as int] == max;
                assert(self.stored_targets(axis as int).contains(min as int));
                assert(self.stored_targets(axis as int).contains(max as int));
            } else if found {
                let j = choose|j: usize| j < k && #[trigger] self.stacks@.contains_key(j);
                assert(self.stored_targets(axis as int).contains(self.stacks@[j].target@[axis as int] as int));
            }
        }
        (min, max)
    }

    fn insert(&mut self, stack: &Stack<T>) -> (r: &Stack<T>) {
        let n = self.keys();
        let kd = stack.key_distance();
        let quot = div_euclid(kd, n);
        let rem = rem_euclid(kd, n) as usize;
        proof {
            vstd::arithmetic::div_mod::lemma_mod_bound(kd as int, n as int);
        }
        let mut the_stack = stack.clone();
        the_stack.scaled_add(-quot, &self.period);
        let ghost stored = the_stack;
        self.stacks.insert(rem, the_stack);
        proof {
            assert(self.stacks@[rem] == stored);
        }
        self.stacks.get(&rem).unwrap()
    }

    fn has_tuning_for(&self, offset: i8) -> (b: bool) {
        let n = self.keys() as i8;
        let (_quot, rem) = div_rem_i8(offset, n);
        self.stacks.contains_key(&rem)
    }

    fn try_write_relative_stack(&self, target: &mut Stack<T>, offset: i8) -> (b: bool) {
        let n = self.keys() as i8;
        let (quot, rem) = div_rem_i8(offset, n);
        match self.stacks.get(&rem) {
            None => false,
            Some(stack) => {
                target.clone_from(stack);
                target.scaled_add(quot, &self.period);
                true
            },
        }
    }
}

impl<T: StackType> PeriodicNeighbourhood<T> for PeriodicPartial<T> {
    open spec fn spec_period(&self) -> Stack<T> {
        self.period
    }

    fn period(&self) -> (r: &Stack<T>) {
        &self.period
    }
}

impl<T: StackType> Neighbourhood<T> for SomeNeighbourhood<T> {
    open spec fn spec_wf(&self) -> bool {
        match self {
            SomeNeighbourhood::PeriodicComplete(n) => n.spec_wf(),
            SomeNeighbourhood::PeriodicPartial(n) => n.spec_wf(),
        }
    }

    open spec fn spec_has_tuning_for(&self, offset: i8) -> bool {
        match self {
            SomeNeighbourhood::PeriodicComplete(n) => n.spec_has_tuning_for(offset),
            SomeNeighbourhood::PeriodicPartial(n) => n.spec_has_tuning_for(offset),
        }
    }

    open spec fn lookup_ok(&self, offset: i8) -> bool {
        match self {
            SomeNeighbourhood::PeriodicComplete(n) => n.lookup_ok(offset),
            SomeNeighbourhood::PeriodicPartial(n) => n.lookup_ok(offset),
        }
    }

    open spec fn is_relative_stack(&self, offset: i8, s: Stack<T>) -> bool {
        match self {
            SomeNeighbourhood::PeriodicComplete(n) => n.is_relative_stack(offset, s),
            SomeNeighbourhood::PeriodicPartial(n) => n.is_relative_stack(offset, s),
        }
    }

    open spec fn insert_ok(&self, stack: Stack<T>) -> bool {
        match self {
            SomeNeighbourhood::PeriodicComplete(n) => n.insert_ok(stack),
            SomeNeighbourhood::PeriodicPartial(n) => n.insert_ok(stack),
        }
    }

    open spec fn is_inserted(&self, before: Self, stack: Stack<T>, r: Stack<T>) -> bool {
        match (self, before) {
            (SomeNeighbourhood::PeriodicComplete(n), SomeNeighbourhood::PeriodicComplete(b)) => n.is_inserted(b, stack, r),
            (SomeNeighbourhood::PeriodicPartial(n), SomeNeighbourhood::PeriodicPartial(b)) => n.is_inserted(b, stack, r),
            _ => false,
        }
    }

    open spec fn stored_targets(&self, axis: int) -> Set<int> {
        match self {
            SomeNeighbourhood::PeriodicComplete(n) => n.stored_targets(axis),
            SomeNeighbourhood::PeriodicPartial(n) => n.stored_targets(axis),
        }
    }

    fn bounds(&self, axis: usize) -> (r: (StackCoeff, StackCoeff)) {
        match self {
            SomeNeighbourhood::PeriodicComplete(n) => {
                assert(self.stored_targets(axis as int) == n.stored_targets(axis as int));
                n.bounds(axis)
            },
            SomeNeighbourhood::PeriodicPartial(n) => {
                assert(self.stored_targets(axis as int) == n.stored_targets(axis as int));
                n.bounds(axis)
            },
        }
    }

    fn insert(&mut self, stack: &Stack<T>) -> (r: &Stack<T>) {
        match self {
            SomeNeighbourhood::PeriodicComplete(n) => n.insert(stack),
            SomeNeighbourhood::PeriodicPartial(n) => n.insert(stack),
        }
    }

    fn has_tuning_for(&self, offset: i8) -> (b: bool) {
        match self {
            SomeNeighbourhood::PeriodicComplete(n) => n.has_tuning_for(offset),
            SomeNeighbourhood::PeriodicPartial(n) => n.has_tuning_for(offset),
        }
    }

    fn try_write_relative_stack(&self, target: &mut Stack<T>, offset: i8) -> (b: bool) {
        match self {
            SomeNeighbourhood::PeriodicComplete(n) => n.try_write_relative_stack(target, offset),
            SomeNeighbourhood::PeriodicPartial(n) => n.try_write_relative_stack(target, offset),
        }
    }
}

impl<T: PeriodicStackType> PeriodicCompleteAligned<T> {
    /// The period is the period of the stack type, once.
    pub open spec fn aligned(&self) -> bool {
        &&& self.inner.period.target@ == Seq::new(T::spec_key_distances().len(), |i: int| 0i64).update(
            T::spec_period_index() as int,
            1,
        )
        &&& self.inner.period.actual@ == Seq::new(T::spec_key_distances().len(), |i: int| integer(0)).update(
            T::spec_period_index() as int,
            integer(1),
        )
    }
}

impl<T: PeriodicStackType> Neighbourhood<T> for PeriodicCompleteAligned<T> {
    open spec fn spec_wf(&self) -> bool {
        self.inner.spec_wf()
    }

    open spec fn spec_has_tuning_for(&self, offset: i8) -> bool {
        self.inner.spec_has_tuning_for(offset)
    }

    open spec fn lookup_ok(&self, offset: i8) -> bool {
        self.inner.lookup_ok(offset)
    }

    open spec fn is_relative_stack(&self, offset: i8, s: Stack<T>) -> bool {
        self.inner.is_relative_stack(offset, s)
    }

    open spec fn insert_ok(&self, stack: Stack<T>) -> bool {
        self.inner.insert_ok(stack)
    }

    open spec fn is_inserted(&self, before: Self, stack: Stack<T>, r: Stack<T>) -> bool {
        self.inner.is_inserted(before.inner, stack, r)
    }

    open spec fn stored_targets(&self, axis: int) -> Set<int> {
        self.inner.stored_targets(axis)
    }

    fn bounds(&self, axis: usize) -> (r: (StackCoeff, StackCoeff)) {
        assert(self.stored_targets(axis as int) == self.inner.stored_targets(axis as int));
        self.inner.bounds(axis)
    }

    fn insert(&mut self, stack: &Stack<T>) -> (r: &Stack<T>) {
        self.inner.insert(stack)
    }

    fn has_tuning_for(&self, offset: i8) -> (b: bool) {
        self.inner.has_tuning_for(offset)
    }

    fn try_write_relative_stack(&self, target: &mut Stack<T>, offset: i8) -> (b: bool) {
        self.inner.try_write_relative_stack(target, offset)
    }
}

impl<T: PeriodicStackType> CompleteNeigbourhood<T> for PeriodicCompleteAligned<T> {
    proof fn lemma_complete(&self, offset: i8) {
    }
}

impl<T: PeriodicStackType> PeriodicNeighbourhood<T> for PeriodicCompleteAligned<T> {
    open spec fn spec_period(&self) -> Stack<T> {
        self.inner.period
    }

    fn period(&self) -> (r: &Stack<T>) {
        self.inner.period()
    }
}

impl<T: PeriodicStackType> AlignedPeriodicNeighbourhood<T> for PeriodicCompleteAligned<T> {

}

/// The stairs of fifths and thirds that [new_fivelimit_neighbourhood] walks along, without
/// offset: `(fifths, thirds)` for the `index`-th note.
pub open spec fn corridor_no_offset(width: int, index: int) -> (int, int) {
    let thirds = index / width;
    ((width - 4) * thirds + index % width, thirds)
}

pub open spec fn corridor_no_offset_fits(width: int, index: int) -> bool {
    let thirds = index / width;
    &&& fits_i64(width - 4)
    &&& fits_i64((width - 4) * thirds)
    &&& fits_i64((width - 4) * thirds + index % width)
}

/// `(octaves, fifths, thirds)` of the `index`-th note of the corridor, shifted by `offset`:
/// the octaves bring the note into the octave above the reference.
pub open spec fn corridor(width: int, offset: int, index: int) -> (int, int, int) {
    let (f0, thirds) = corridor_no_offset(width, index + offset);
    let fifths = f0 - offset;
    (-((2 * thirds + 4 * fifths) / 7), fifths, thirds)
}

pub open spec fn corridor_fits(width: int, offset: int, index: int) -> bool {
    let (f0, thirds) = corridor_no_offset(width, index + offset);
    let fifths = f0 - offset;
    &&& fits_i64(index + offset)
    &&& corridor_no_offset_fits(width, index + offset)
    &&& fits_i64(fifths)
    &&& fits_i64(2 * thirds)
    &&& fits_i64(4 * fifths)
    &&& fits_i64(2 * thirds + 4 * fifths)
}

pub fn fivelimit_corridor_no_offset(width: StackCoeff, index: StackCoeff) -> (r: (StackCoeff, StackCoeff))
    requires
        width > 0,
        corridor_no_offset_fits(width as int, index as int),
    ensures
        r.0 == corridor_no_offset(width as int, index as int).0,
        r.1 == corridor_no_offset(width as int, index as int).1,
{
    let thirds = div_euclid(index, width);
    let fifths = (width - 4) * thirds + rem_euclid(index, width);
    (fifths, thirds)
}

pub fn fivelimit_corridor(width: StackCoeff, offset: StackCoeff, index: StackCoeff) -> (r: (
    StackCoeff,
    StackCoeff,
    StackCoeff,
))
    requires
        width > 0,
        corridor_fits(width as int, offset as int, index as int),
    ensures
        r.0 == corridor(width as int, offset as int, index as int).0,
        r.1 == corridor(width as int, offset as int, index as int).1,
        r.2 == corridor(width as int, offset as int, index as int).2,
{
    let (mut fifths, thirds) = fivelimit_corridor_no_offset(width, index + offset);
    fifths -= offset;
    let s = 2 * thirds + 4 * fifths;
    let q = div_euclid(s, 7);
    let octaves = -q;
    (octaves, fifths, thirds)
}

/// The slot of the note `i` fifths above the reference.
pub open spec fn fifth_slot(i: int) -> int {
    (7 * i) % 12
}

/// Twelve consecutive notes of the circle of fifths land in twelve different slots.
proof fn lemma_fifth_slot_injective(a: int, b: int)
    requires
        a < b < a + 12,
    ensures
        fifth_slot(a) != fifth_slot(b),
{
    let d = b - a;
    if fifth_slot(a) == fifth_slot(b) {
        vstd::arithmetic::div_mod::lemma_fundamental_div_mod(7 * a, 12);
        vstd::arithmetic::div_mod::lemma_fundamental_div_mod(7 * b, 12);
        let qa = (7 * a) / 12;
        let qb = (7 * b) / 12;
        assert(7 * d == 12 * (qb - qa));
        if qb - qa <= 0 {
            assert(12 * (qb - qa) <= 0) by (nonlinear_arith)
                requires
                    qb - qa <= 0,
            ;
        } else if qb - qa >= 7 {
            assert(12 * (qb - qa) >= 84) by (nonlinear_arith)
                requires
                    qb - qa >= 7,
            ;
        } else {
            assert(qb - qa == 1 || qb - qa == 2 || qb - qa == 3 || qb - qa == 4 || qb - qa == 5
                || qb - qa == 6);
        }
    }
}

/// Every twelfth slot is reached: the note `(7 * s + index) % 12 - index`, which is one of the
/// notes `-index..12-index`, lands in slot `s`.
proof fn lemma_fifth_slot_onto(s: int, index: int)
    requires
        0 <= s < 12,
    ensures
        -index <= (7 * s + index) % 12 - index < 12 - index,
        fifth_slot((7 * s + index) % 12 - index) == s,
{
    let x = 7 * s + index;
    let m = x % 12;
    let q = x / 12;
    vstd::arithmetic::div_mod::lemma_fundamental_div_mod(x, 12);
    vstd::arithmetic::div_mod::lemma_mod_bound(x, 12);
    let j = m - index;
    assert(7 * j == 12 * (4 * s - 7 * q) + s) by (nonlinear_arith)
        requires
            x == 7 * s + index,
            x == 12 * q + m,
            j == m - index,
    ;
    vstd::arithmetic::div_mod::lemma_mod_multiples_vanish(4 * s - 7 * q, s, 12);
    vstd::arithmetic::div_mod::lemma_small_mod(s as nat, 12);
}

/// The octaves of the note `i` of the corridor, moved by whole octaves so that the note lands in
/// the first octave above the reference.
pub open spec fn slot_octaves(width: int, offset: int, i: int) -> int {
    let (o, f, t) = corridor(width, offset, i);
    o - (12 * o + 7 * f + 4 * t) / 12
}

/// Moving the note `i` of the corridor into the first octave stays within `i64`.
pub open spec fn slot_fits(width: int, offset: int, i: int) -> bool {
    let (o, f, t) = corridor(width, offset, i);
    &&& fits_i64(12 * o)
    &&& fits_i64(7 * f)
    &&& fits_i64(4 * t)
    &&& fits_i64(12 * o + 7 * f)
    &&& fits_i64(12 * o + 7 * f + 4 * t)
    &&& fits_i64(slot_octaves(width, offset, i))
}

/// The stack of the slot of note `i` of a five-limit neighbourhood: its target.
pub open spec fn corridor_target<T: FiveLimitStackType>(width: int, offset: int, i: int) -> Seq<i64> {
    let (o, f, t) = corridor(width, offset, i);
    Seq::new(T::spec_key_distances().len(), |k: int| 0i64).update(
        T::spec_octave_index() as int,
        slot_octaves(width, offset, i) as i64,
    ).update(T::spec_fifth_index() as int, f as i64).update(T::spec_third_index() as int, t as i64)
}

/// The note `i` of the corridor, moved into the first octave, has the key distance of its slot.
proof fn lemma_corridor_key_distance<T: FiveLimitStackType>(width: int, offset: int, i: int)
    requires
        width > 0,
        corridor_fits(width, offset, i),
        slot_fits(width, offset, i),
    ensures
        weighted_sum(
            T::spec_key_distances(),
            corridor_target::<T>(width, offset, i),
            T::spec_key_distances().len(),
        ) == fifth_slot(i),
{
    T::lemma_fivelimit_indices();
    let kds = T::spec_key_distances();
    let n = kds.len();
    let (o, f, t) = corridor(width, offset, i);
    let so = slot_octaves(width, offset, i);
    let z = Seq::new(n, |k: int| 0i64);
    let t1 = z.update(T::spec_octave_index() as int, so as i64);
    let t2 = t1.update(T::spec_fifth_index() as int, f as i64);
    let t3 = t2.update(T::spec_third_index() as int, t as i64);
    lemma_weighted_sum_zero(kds, n, n);
    lemma_weighted_sum_update(kds, z, T::spec_octave_index() as int, so as i64, n);
    lemma_weighted_sum_update(kds, t1, T::spec_fifth_index() as int, f as i64, n);
    lemma_weighted_sum_update(kds, t2, T::spec_third_index() as int, t as i64, n);
    assert(corridor_target::<T>(width, offset, i) == t3);
    assert(weighted_sum(kds, t3, n) == 12 * so + 7 * f + 4 * t);
    // the fifths are `i` less four per third
    let x = i + offset;
    let th = x / width;
    let r = x % width;
    vstd::arithmetic::div_mod::lemma_fundamental_div_mod(x, width);
    assert(corridor_no_offset(width, x) == ((width - 4) * th + r, th));
    assert(t == th);
    assert(f == (width - 4) * th + r - offset);
    assert(f == i - 4 * th) by (nonlinear_arith)
        requires
            f == (width - 4) * th + r - offset,
            x == width * th + r,
            x == i + offset,
    ;
    let kd0 = 12 * o + 7 * f + 4 * t;
    vstd::arithmetic::div_mod::lemma_fundamental_div_mod(kd0, 12);
    assert(12 * so + 7 * f + 4 * t == kd0 % 12);
    assert(kd0 == 12 * (o - 2 * th) + 7 * i);
    vstd::arithmetic::div_mod::lemma_mod_multiples_vanish(o - 2 * th, 7 * i, 12);
}

/// The stack of the slot of note `i` of a five-limit neighbourhood: its actual coefficients, or
/// `None` on overflow.
pub open spec fn corridor_actual<T: FiveLimitStackType>(
    active: Seq<bool>,
    width: int,
    offset: int,
    i: int,
) -> Option<Seq<Rational>> {
    let (o, f, t) = corridor(width, offset, i);
    let temps = T::spec_temperaments();
    let zero = Seq::new(T::spec_key_distances().len(), |k: int| integer(0));
    match incremented(temps, active, zero, T::spec_octave_index() as int, slot_octaves(width, offset, i) as i64) {
        Some(a1) => match incremented(temps, active, a1, T::spec_fifth_index() as int, f as i64) {
            Some(a2) => incremented(temps, active, a2, T::spec_third_index() as int, t as i64),
            None => None,
        },
        None => None,
    }
}

/// The notes `-index..12-index` of the corridor can be computed.
pub open spec fn fivelimit_neighbourhood_ok<T: FiveLimitStackType>(
    active: Seq<bool>,
    width: int,
    index: int,
    offset: int,
) -> bool {
    &&& width > 0
    &&& fits_i64(-index)
    &&& fits_i64(12 - index)
    &&& forall|i: int|
        -index <= i < 12 - index ==> fits_i64(7 * i) && #[trigger] corridor_fits(width, offset, i)
            && slot_fits(width, offset, i) && corridor_actual::<T>(active, width, offset, i) is Some
}

/// Generate a complete set of 12 notes, with a sensible five-limit tuning: the `i`-th note of the
/// circle of fifths, for `i` in `-index..12-index`, is tuned as the `i`-th step of a corridor of
/// fifths and thirds of the given `width`, shifted by `offset` fifths, and moved by whole octaves
/// into the first octave above the reference: the stack in slot `k` has key distance `k`.
///
/// - `width` must be in `1..=12-index+offset`
/// - `offset` must be in `0..width`
/// - `index` must be in `0..=11`
pub fn new_fivelimit_neighbourhood<T: FiveLimitStackType + OctavePeriodicStackType>(
    active_temperaments: &[bool],
    width: StackCoeff,
    index: StackCoeff,
    offset: StackCoeff,
) -> (n: PeriodicCompleteAligned<T>)
    requires
        active_ok(active_temperaments@, T::spec_temperaments().len()),
        fivelimit_neighbourhood_ok::<T>(active_temperaments@, width as int, index as int, offset as int),
    ensures
        n.spec_wf(),
        n.aligned(),
        n.inner.stacks@.len() == 12,
        forall|i: int|
            -index <= i < 12 - index ==> (#[trigger] n.inner.stacks@[fifth_slot(i)]).target@
                == corridor_target::<T>(width as int, offset as int, i) && Some(
                n.inner.stacks@[fifth_slot(i)].actual@,
            ) == corridor_actual::<T>(active_temperaments@, width as int, offset as int, i),
{
    proof {
        T::lemma_fivelimit_indices();
        T::lemma_period_index();
        T::lemma_octave_period();
    }
    let ghost active = active_temperaments@;
    let ghost zt = Seq::new(T::spec_key_distances().len(), |k: int| 0i64);
    let ghost za = Seq::new(T::spec_key_distances().len(), |k: int| integer(0));
    let mut stacks: Vec<Stack<T>> = Vec::new();
    for k in 0..12usize
        invariant
            stacks@.len() == k,
            zt == Seq::new(T::spec_key_distances().len(), |k: int| 0i64),
            za == Seq::new(T::spec_key_distances().len(), |k: int| integer(0)),
            forall|s: int| 0 <= s < k ==> (#[trigger] stacks@[s]).target@ == zt && stacks@[s].actual@ == za && stacks@[s].wf(),
    {
        stacks.push(Stack::new_zero());
    }
    let mut i: StackCoeff = -index;
    while i < 12 - index
        invariant
            -index <= i <= 12 - index,
            active == active_temperaments@,
            active_ok(active, T::spec_temperaments().len()),
            fivelimit_neighbourhood_ok::<T>(active, width as int, index as int, offset as int),
            stacks@.len() == 12,
            T::spec_octave_index() < T::spec_key_distances().len(),
            T::spec_fifth_index() < T::spec_key_distances().len(),
            T::spec_third_index() < T::spec_key_distances().len(),
            T::spec_octave_index() != T::spec_fifth_index(),
            T::spec_octave_index() != T::spec_third_index(),
            T::spec_fifth_index() != T::spec_third_index(),
            zt == Seq::new(T::spec_key_distances().len(), |k: int| 0i64),
            za == Seq::new(T::spec_key_distances().len(), |k: int| integer(0)),
            forall|s: int| 0 <= s < 12 ==> (#[trigger] stacks@[s]).wf(),
            forall|j: int|
                -index <= j < i ==> (#[trigger] stacks@[fifth_slot(j)]).target@ == corridor_target::<T>(
                    width as int,
                    offset as int,
                    j,
                ) && Some(stacks@[fifth_slot(j)].actual@) == corridor_actual::<T>(
                    active,
                    width as int,
                    offset as int,
                    j,
                ),
            forall|s: int|
                0 <= s < 12 && (forall|j: int| -index <= j < i ==> #[trigger] fifth_slot(j) != s) ==> (
                #[trigger] stacks@[s]).target@ == zt && stacks@[s].actual@ == za,
        decreases 12 - index - i,
    {
        proof {
            assert(corridor_fits(width as int, offset as int, i as int));
        }
        let (octaves, fifths, thirds) = fivelimit_corridor(width, offset, i);
        proof {
            assert(slot_fits(width as int, offset as int, i as int));
        }
        // move the note by whole octaves into the first octave above the reference
        let kd = 12 * octaves + 7 * fifths + 4 * thirds;
        let octaves = octaves - div_euclid(kd, 12);
        let slot = rem_euclid(7 * i, 12) as usize;
        proof {
            vstd::arithmetic::div_mod::lemma_mod_bound(7 * i as int, 12);
            assert forall|j: int| -index <= j < i implies #[trigger] fifth_slot(j) != slot by {
                lemma_fifth_slot_injective(j, i as int);
            }
            assert(stacks@[slot as int].target@ == zt);
            assert(stacks@[slot as int].actual@ == za);
        }
        let mut the_stack = stacks[slot].clone();
        let ghost a0 = the_stack.actual@;
        proof {
            let a = corridor_actual::<T>(active, width as int, offset as int, i as int);
            assert(a is Some);
            assert(the_stack.target@[T::spec_octave_index() as int] == 0);
            assert(the_stack.target@[T::spec_fifth_index() as int] == 0);
            assert(the_stack.target@[T::spec_third_index() as int] == 0);
        }
        the_stack.increment_at_index(active_temperaments, T::octave_index(), octaves);
        the_stack.increment_at_index(active_temperaments, T::fifth_index(), fifths);
        the_stack.increment_at_index(active_temperaments, T::third_index(), thirds);
        proof {
            assert(the_stack.target@ =~= corridor_target::<T>(width as int, offset as int, i as int));
        }
        stacks.set(slot, the_stack);
        proof {
            assert forall|j: int|
                -index <= j < i + 1 implies (#[trigger] stacks@[fifth_slot(j)]).target@ == corridor_target::<T>(
                    width as int,
                    offset as int,
                    j,
                ) && Some(stacks@[fifth_slot(j)].actual@) == corridor_actual::<T>(
                    active,
                    width as int,
                    offset as int,
                    j,
                ) by {
                if j < i {
                    lemma_fifth_slot_injective(j, i as int);
                }
            }
            assert forall|s: int|
                0 <= s < 12 && (forall|j: int| -index <= j < i + 1 ==> #[trigger] fifth_slot(j) != s) implies (
                #[trigger] stacks@[s]).target@ == zt && stacks@[s].actual@ == za by {
                assert(fifth_slot(i as int) != s);
            }
        }
        i = i + 1;
    }
    proof {
        assert forall|k: int| 0 <= k < 12 implies (#[trigger] stacks@[k]).spec_key_distance() == k by {
            lemma_fifth_slot_onto(k, index as int);
            let j = (7 * k + index) % 12 - index;
            assert(corridor_fits(width as int, offset as int, j));
            assert(stacks@[fifth_slot(j)].target@ == corridor_target::<T>(width as int, offset as int, j));
            lemma_corridor_key_distance::<T>(width as int, offset as int, j);
        }
    }
    let period = Stack::from_pure_interval(T::period_index(), 1);
    proof {
        lemma_weighted_sum_unit(T::spec_key_distances(), T::spec_period_index() as int, 1, T::spec_key_distances().len());
        assert(period.target@ == Seq::new(T::spec_key_distances().len(), |i: int| 0i64).update(T::spec_period_index() as int, 1));
        lemma_weighted_sum_fits_unit::<T>(T::spec_period_index() as int);
        assert(period.actual@ =~= Seq::new(T::spec_key_distances().len(), |i: int| integer(0)).update(T::spec_period_index() as int, integer(1)));
    }
    PeriodicCompleteAligned { inner: PeriodicComplete { stacks, period } }
}

/// The unit vector of the period has a small weighted sum at every step.
proof fn lemma_weighted_sum_fits_unit<T: OctavePeriodicStackType>(p: int)
    requires
        p == T::spec_period_index(),
    ensures
        weighted_sum_fits(
            T::spec_key_distances(),
            Seq::new(T::spec_key_distances().len(), |i: int| 0i64).update(p, 1),
        ),
{
    T::lemma_period_index();
    let kd = T::spec_key_distances();
    let t = Seq::new(kd.len(), |i: int| 0i64).update(p, 1);
    assert forall|j: int| 0 <= j < t.len() implies fits_i64(kd[j] * t[j]) && fits_i64(
        #[trigger] weighted_sum(kd, t, (j + 1) as nat),
    ) by {
        lemma_weighted_sum_unit(kd, p, 1, (j + 1) as nat);
    }
}

/// Shifting a stack down by the periods that inserting it moves it, and up again by as many,
/// stays within `i64`: the stored representative can be looked up again.
pub open spec fn round_trip_ok<T: StackType>(stack: Stack<T>, period: Stack<T>) -> bool {
    let q = period_quot(stack.spec_key_distance(), period_keys_of(period));
    &&& fits_i64(q)
    &&& scaled_target_fits(scaled_target(stack.target@, (-q) as i64, period.target@), q as i64, period.target@)
    &&& axpy_all(stack.actual@, (-q) as i64, period.actual@) matches Some(a) && axpy_all(
        a,
        q as i64,
        period.actual@,
    ) is Some
}

/// The lookup of a stack that was just inserted can be computed, where the round trip stays within
/// `i64`.
proof fn lemma_lookup_after_insert<T: StackType>(stack: Stack<T>, stored: Stack<T>, period: Stack<T>)
    requires
        period_wf(period),
        round_trip_ok(stack, period),
        is_shifted(stored, stack, -period_quot(stack.spec_key_distance(), period_keys_of(period)), period),
    ensures
        shift_ok(stored, period_quot(stack.spec_key_distance(), period_keys_of(period)), period),
{
}

/// What is inserted into a partial periodic neighbourhood is given back at its key distance from
/// the reference: the same target and the same actual coefficients. The lookup can be computed
/// where the round trip stays within `i64`.
pub proof fn law_partial_insert_then_get<T: StackType>(
    before: PeriodicPartial<T>,
    after: PeriodicPartial<T>,
    stack: Stack<T>,
    stored: Stack<T>,
    got: Stack<T>,
)
    requires
        before.spec_wf(),
        before.insert_ok(stack),
        after.is_inserted(before, stack, stored),
        -128 <= stack.spec_key_distance() < 128,
        round_trip_ok(stack, before.period),
        after.is_relative_stack(stack.spec_key_distance() as i8, got),
    ensures
        after.spec_has_tuning_for(stack.spec_key_distance() as i8),
        after.lookup_ok(stack.spec_key_distance() as i8),
        got.target@ == stack.target@,
        got.actual@ == stack.actual@,
{
    let n = period_keys_of(before.period);
    let kd = stack.spec_key_distance();
    let rem = period_rem(kd, n) as usize;
    assert(after.stacks@.contains_key(rem));
    assert(after.stacks@[rem] == stored);
    let q = period_quot(kd, n);
    lemma_lookup_after_insert(stack, stored, before.period);
    assert(((-q) as i64) == -(q as i64));
    law_scaled_add_round_trip(stack, q as i64, before.period, stored, got);
}

/// What is inserted into a complete periodic neighbourhood is given back at its key distance from
/// the reference: the same target and the same actual coefficients. The lookup can be computed
/// where the round trip stays within `i64`.
pub proof fn law_complete_insert_then_get<T: StackType>(
    before: PeriodicComplete<T>,
    after: PeriodicComplete<T>,
    stack: Stack<T>,
    stored: Stack<T>,
    got: Stack<T>,
)
    requires
        before.spec_wf(),
        before.insert_ok(stack),
        after.is_inserted(before, stack, stored),
        -128 <= stack.spec_key_distance() < 128,
        round_trip_ok(stack, before.period),
        after.is_relative_stack(stack.spec_key_distance() as i8, got),
    ensures
        after.lookup_ok(stack.spec_key_distance() as i8),
        got.target@ == stack.target@,
        got.actual@ == stack.actual@,
{
    let n = period_keys_of(before.period);
    let kd = stack.spec_key_distance();
    let q = period_quot(kd, n);
    let rem = period_rem(kd, n);
    assert(after.stacks@[rem] == stored);
    lemma_lookup_after_insert(stack, stored, before.period);
    assert(((-q) as i64) == -(q as i64));
    law_scaled_add_round_trip(stack, q as i64, before.period, stored, got);
}

} // verus!
