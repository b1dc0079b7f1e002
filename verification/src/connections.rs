//! Values that are in one of two states, such as a MIDI port that is either unconnected or
//! connected.
use vstd::prelude::*;

verus! {

pub enum Either<A, B> {
    Left(A),
    Right(B),
}

} // verus!
