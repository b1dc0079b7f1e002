//! Descriptions of the base intervals and temperaments that stacks can be made of.
pub mod fivelimit;

use crate::interval::temperament::{square_wf, Temperament};
use crate::rational::Rational;
use vstd::prelude::*;

verus! {

/// The type of integer coefficients used in [Stack][crate::interval::stack::Stack]s.
pub type StackCoeff = i64;

/// The base intervals of a stack type are described by their key distances, and its temperaments
/// by their adjustment matrices: the key distances have at least one entry, and every temperament
/// is a square matrix of that size, with entries in lowest terms.
pub open spec fn stacktype_wf(key_distances: Seq<u8>, temperaments: Seq<Seq<Seq<Rational>>>) -> bool {
    &&& key_distances.len() > 0
    &&& forall|t: int|
        0 <= t < temperaments.len() ==> square_wf(#[trigger] temperaments[t], key_distances.len())
}

/// A description of the base intervals and temperaments that may be used in a
/// [Stack][crate::interval::stack::Stack].
pub trait StackType: Copy + Sized {
    /// For each base interval, the difference of the MIDI key numbers of its upper and lower note.
    spec fn spec_key_distances() -> Seq<u8>;

    /// For each temperament, the matrix whose `i`-th row is the comma by which the `i`-th base
    /// interval is detuned.
    spec fn spec_temperaments() -> Seq<Seq<Seq<Rational>>>;

    proof fn lemma_stacktype_wf()
        ensures
            stacktype_wf(Self::spec_key_distances(), Self::spec_temperaments()),
    ;

    /// The key distance of the `i`-th base interval.
    fn key_distance(i: usize) -> (d: u8)
        requires
            i < Self::spec_key_distances().len(),
        ensures
            d == Self::spec_key_distances()[i as int],
    ;

    /// The number of base intervals.
    fn num_intervals() -> (n: usize)
        ensures
            n == Self::spec_key_distances().len(),
    ;

    /// The temperaments that may be applied to intervals in a stack of this type.
    fn temperaments() -> (r: Vec<Temperament>)
        ensures
            r@.len() == Self::spec_temperaments().len(),
            forall|t: int| 0 <= t < r@.len() ==> (#[trigger] r@[t]).spec_adjustments() == Self::spec_temperaments()[t],
    ;

    /// The number of temperaments.
    fn num_temperaments() -> (n: usize)
        ensures
            n == Self::spec_temperaments().len(),
    ;
}

/// Stack types whose base intervals include octaves, fifths, and thirds: twelve, seven and four
/// keys wide.
pub trait FiveLimitStackType: StackType {
    spec fn spec_octave_index() -> nat;

    spec fn spec_fifth_index() -> nat;

    spec fn spec_third_index() -> nat;

    proof fn lemma_fivelimit_indices()
        ensures
            Self::spec_octave_index() < Self::spec_key_distances().len(),
            Self::spec_fifth_index() < Self::spec_key_distances().len(),
            Self::spec_third_index() < Self::spec_key_distances().len(),
            Self::spec_octave_index() != Self::spec_fifth_index(),
            Self::spec_octave_index() != Self::spec_third_index(),
            Self::spec_fifth_index() != Self::spec_third_index(),
            Self::spec_key_distances()[Self::spec_octave_index() as int] == 12,
            Self::spec_key_distances()[Self::spec_fifth_index() as int] == 7,
            Self::spec_key_distances()[Self::spec_third_index() as int] == 4,
    ;

    fn octave_index() -> (i: usize)
        ensures
            i == Self::spec_octave_index(),
    ;

    fn fifth_index() -> (i: usize)
        ensures
            i == Self::spec_fifth_index(),
    ;

    fn third_index() -> (i: usize)
        ensures
            i == Self::spec_third_index(),
    ;
}

/// Stack types with a distinguished base interval, the period.
pub trait PeriodicStackType: StackType {
    spec fn spec_period_index() -> nat;

    proof fn lemma_period_index()
        ensures
            Self::spec_period_index() < Self::spec_key_distances().len(),
    ;

    fn period_index() -> (i: usize)
        ensures
            i == Self::spec_period_index(),
    ;

    /// The key distance of the period.
    fn period_keys() -> (k: u8)
        ensures
            k == Self::spec_key_distances()[Self::spec_period_index() as int],
    ;
}

/// Marker trait for stack types whose period is the octave. This means two things: the frequency
/// ratio is 2:1, and there are 12 notes in that space.
pub trait OctavePeriodicStackType: PeriodicStackType {
    proof fn lemma_octave_period()
        ensures
            Self::spec_key_distances()[Self::spec_period_index() as int] == 12,
    ;
}

} // verus!
