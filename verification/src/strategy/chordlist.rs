//! A strategy that recognises chords from a list of patterns.
pub mod pattern;

use crate::interval::stacktype::StackType;
use crate::keystate::KeyState;
use crate::neighbourhood::Neighbourhood;
use crate::strategy::chordlist::pattern::{actives, lemma_fit_bound, Fit, Pattern};
use crate::strategy::twostep::{IntervalSolution, IntervalStrategy};
use vstd::prelude::*;

verus! {

/// A list of chord patterns, tried in order.
pub struct Chordlist<T: StackType> {
    pub patterns: Vec<Pattern<T>>,
}

/// The index of the first pattern at or after `i` that the active keys fit completely.
pub open spec fn first_complete<T: StackType>(acts: Seq<bool>, patterns: Seq<Pattern<T>>, i: nat) -> Option<nat>
    decreases patterns.len() - i,
{
    if i >= patterns.len() {
        None
    } else if patterns[i as int].spec_fit(acts).next == 128 {
        Some(i)
    } else {
        first_complete(acts, patterns, i + 1)
    }
}

/// The sounding keys below `n`, from the highest down.
pub open spec fn sounding_below(acts: Seq<bool>, n: int) -> Seq<u8>
    decreases n,
{
    if n <= 0 {
        Seq::empty()
    } else {
        (if acts[n - 1] {
            seq![(n - 1) as u8]
        } else {
            Seq::empty()
        }) + sounding_below(acts, n - 1)
    }
}

/// The offset of key `note` from the reference key.
pub open spec fn key_offset(note: int, reference: u8) -> int {
    note - (reference as i8)
}

/// Every sounding key has a tuning in the neighbourhood, at an offset that fits in `i8`.
pub open spec fn tunings_available<T: StackType>(
    acts: Seq<bool>,
    pattern: Pattern<T>,
    reference: u8,
) -> bool {
    &&& pattern.neighbourhood.spec_wf()
    &&& forall|n: int|
        0 <= n < 128 && #[trigger] acts[n] ==> -128 <= key_offset(n, reference) < 128
            && pattern.neighbourhood.spec_has_tuning_for(key_offset(n, reference) as i8)
            && pattern.neighbourhood.lookup_ok(key_offset(n, reference) as i8)
}

impl<T: StackType> Chordlist<T> {
    pub open spec fn list_ok(&self, acts: Seq<bool>) -> bool {
        &&& self.patterns@.len() > 0
        &&& forall|i: int| 0 <= i < self.patterns@.len() ==> (#[trigger] self.patterns@[i]).keyshape.fit_ok()
        &&& match first_complete(acts, self.patterns@, 0) {
            Some(c) => tunings_available(acts, self.patterns@[c as int], self.patterns@[c as int].spec_fit(acts).reference),
            None => true,
        }
    }
}

/// The loop that picks the pattern: the current fit is the best one so far, and it is complete
/// exactly if one of the patterns so far fits completely, in which case it is the first one.
proof fn lemma_first_complete_skip<T: StackType>(acts: Seq<bool>, patterns: Seq<Pattern<T>>, i: nat)
    requires
        i <= patterns.len(),
        forall|k: int| 0 <= k < i ==> (#[trigger] patterns[k].spec_fit(acts)).next != 128,
    ensures
        first_complete(acts, patterns, 0) == first_complete(acts, patterns, i),
    decreases i,
{
    if i > 0 {
        lemma_first_complete_skip(acts, patterns, (i - 1) as nat);
    }
}

proof fn lemma_first_complete_is_complete<T: StackType>(acts: Seq<bool>, patterns: Seq<Pattern<T>>, i: nat)
    ensures
        match first_complete(acts, patterns, i) {
            Some(c) => i <= c < patterns.len() && patterns[c as int].spec_fit(acts).next == 128,
            None => forall|k: int| i <= k < patterns.len() ==> (#[trigger] patterns[k].spec_fit(acts)).next != 128,
        },
    decreases patterns.len() - i,
{
    if i < patterns.len() {
        lemma_first_complete_is_complete(acts, patterns, i + 1);
    }
}

impl<T: StackType> IntervalStrategy<T> for Chordlist<T> {
    open spec fn solve_ok(&self, keys: [KeyState; 128]) -> bool {
        self.list_ok(actives(keys))
    }

    open spec fn is_solution(&self, keys: [KeyState; 128], r: Option<IntervalSolution<T>>) -> bool {
        let acts = actives(keys);
        match first_complete(acts, self.patterns@, 0) {
            None => r is None,
            Some(c) => {
                let p = self.patterns@[c as int];
                let reference = p.spec_fit(acts).reference;
                let notes = sounding_below(acts, 128);
                &&& r is Some
                &&& r.unwrap().reference == reference
                &&& r.unwrap().intervals@.len() == notes.len()
                &&& forall|k: int|
                    0 <= k < notes.len() ==> (#[trigger] r.unwrap().intervals@[k]).0 == notes[k]
                        && p.neighbourhood.is_relative_stack(
                        key_offset(notes[k] as int, reference) as i8,
                        r.unwrap().intervals@[k].1,
                    )
            },
        }
    }

    fn solve(&mut self, keys: &[KeyState; 128]) -> (r: Option<IntervalSolution<T>>) {
        let ghost acts = actives(*keys);
        let ghost pats = self.patterns@;
        let mut fit: Fit = self.patterns[0].fit(keys);
        let mut index: usize = 0;
        let mut i: usize = 1;
        let n = self.patterns.len();
        while i < n
            invariant
                1 <= i <= n,
                n == pats.len(),
                pats == self.patterns@,
                acts == actives(*keys),
                self.list_ok(acts),
                index < i,
                fit == pats[index as int].spec_fit(acts),
                fit.next == 128 ==> first_complete(acts, pats, 0) == Some(index as nat),
                fit.next != 128 ==> forall|k: int| 0 <= k < i ==> (#[trigger] pats[k].spec_fit(acts)).next != 128,
            ensures
                fit == pats[index as int].spec_fit(acts),
                index < n,
                fit.next == 128 ==> first_complete(acts, pats, 0) == Some(index as nat),
                fit.next != 128 ==> forall|k: int| 0 <= k < n ==> (#[trigger] pats[k].spec_fit(acts)).next != 128,
            decreases n - i,
        {
            if fit.is_complete() {
                break ;
            }
            let new_fit = self.patterns[i].fit(keys);
            if new_fit.is_better_than(&fit) {
                proof {
                    if new_fit.next == 128 {
                        lemma_first_complete_skip(acts, pats, i as nat);
                    }
                }
                fit = new_fit;
                index = i;
            } else {
                proof {
                    lemma_fit_bound(acts, pats[index as int]);
                    assert(new_fit.next != 128);
                }
            }
            i += 1;
        }
        if !fit.is_complete() {
            proof {
                lemma_first_complete_is_complete(acts, pats, 0);
            }
            return None;
        }
        let ghost p = pats[index as int];
        let reference = fit.reference;
        let mut intervals: Vec<(u8, crate::interval::stack::Stack<T>)> = Vec::new();
        let mut note: usize = 128;
        while note > 0
            invariant
                note <= 128,
                acts == actives(*keys),
                pats == self.patterns@,
                index < pats.len(),
                p == pats[index as int],
                first_complete(acts, pats, 0) == Some(index as nat),
                self.list_ok(acts),
                reference == p.spec_fit(acts).reference,
                intervals@.len() + sounding_below(acts, note as int).len() == sounding_below(acts, 128).len(),
                forall|k: int| 0 <= k < intervals@.len() ==> (#[trigger] intervals@[k]).0 == sounding_below(acts, 128)[k]
                    && p.neighbourhood.is_relative_stack(key_offset(sounding_below(acts, 128)[k] as int, reference) as i8, intervals@[k].1),
                sounding_below(acts, 128) == intervals@.map_values(|x: (u8, crate::interval::stack::Stack<T>)| x.0) + sounding_below(acts, note as int),
            decreases note,
        {
            note -= 1;
            if keys[note].is_sounding() {
                proof {
                    assert(acts[note as int]);
                }
                let offset = note as i8 - reference as i8;
                let stack = self.patterns[index].neighbourhood.try_get_relative_stack(offset);
                intervals.push((note as u8, stack.unwrap()));
            }
            proof {
                let before = sounding_below(acts, note + 1);
                assert(before == (if acts[note as int] { seq![note as u8] } else { Seq::empty() }) + sounding_below(acts, note as int));
            }
        }
        Some(IntervalSolution { intervals, reference })
    }
}

} // verus!
