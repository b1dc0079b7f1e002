//! Strategies in two steps: first the intervals between the sounding notes, then their position.
use crate::interval::stack::Stack;
use crate::interval::stacktype::StackType;
use crate::keystate::KeyState;
use vstd::prelude::*;

verus! {

pub struct IntervalSolution<T: StackType> {
    /// MIDI key numbers together with their tuning relative to the reference note
    pub intervals: Vec<(u8, Stack<T>)>,
    /// MIDI key number of the reference note (which is not necessarily present in
    /// [Self::intervals])
    pub reference: u8,
}

/// Finds the intervals between the sounding keys.
pub trait IntervalStrategy<T: StackType>: Sized {
    /// The strategy can be applied to these keys.
    spec fn solve_ok(&self, keys: [KeyState; 128]) -> bool;

    /// `r` is the strategy's answer for these keys.
    spec fn is_solution(&self, keys: [KeyState; 128], r: Option<IntervalSolution<T>>) -> bool;

    fn solve(&mut self, keys: &[KeyState; 128]) -> (r: Option<IntervalSolution<T>>)
        requires
            old(self).solve_ok(*keys),
        ensures
            final(self).is_solution(*keys, r),
    ;
}

} // verus!
