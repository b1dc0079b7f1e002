//! A strategy that tunes every note by a fixed twelve-note neighbourhood around a global
//! reference.
use crate::interval::stack::{ScaledAdd, Stack};
use crate::interval::stacktype::{FiveLimitStackType, OctavePeriodicStackType, StackCoeff};
use crate::keystate::KeyState;
use crate::neighbourhood::{
    corridor_actual, corridor_target, fifth_slot, fivelimit_neighbourhood_ok, new_fivelimit_neighbourhood,
    CompleteNeigbourhood, Neighbourhood,
    PeriodicCompleteAligned,
};
use crate::interval::stack::active_ok;
use crate::interval::stacktype::StackType;
use vstd::prelude::*;

verus! {

/// The neighbourhood is [new_fivelimit_neighbourhood] of these parameters; notes are tuned
/// relative to the global reference: the key `reference_key` tuned as `reference_stack`.
pub struct StaticTuningConfig<T: StackType> {
    pub active_temperaments: Vec<bool>,
    pub width: StackCoeff,
    pub index: StackCoeff,
    pub offset: StackCoeff,
    pub reference_stack: Stack<T>,
    pub reference_key: u8,
}

pub struct StaticTuning<T: FiveLimitStackType + OctavePeriodicStackType> {
    neighbourhood: PeriodicCompleteAligned<T>,
    active_temperaments: Vec<bool>,
    reference_stack: Stack<T>,
    reference_key: u8,
    tuning_up_to_date: [bool; 128],
}

/// The offset of key `note` from the reference key: both are taken as `i8`, and the difference is
/// that of those values.
pub open spec fn reference_offset(note: u8, reference_key: u8) -> int {
    note as i8 - reference_key as i8
}

impl<T: FiveLimitStackType + OctavePeriodicStackType> StaticTuning<T> {
    pub closed spec fn spec_neighbourhood(&self) -> PeriodicCompleteAligned<T> {
        self.neighbourhood
    }

    pub closed spec fn spec_reference_stack(&self) -> Stack<T> {
        self.reference_stack
    }

    pub closed spec fn spec_reference_key(&self) -> u8 {
        self.reference_key
    }

    /// Which temperaments are active.
    pub closed spec fn spec_active_temperaments(&self) -> Seq<bool> {
        self.active_temperaments@
    }

    /// Which notes' tunings are up to date.
    pub closed spec fn spec_up_to_date(&self) -> Seq<bool> {
        self.tuning_up_to_date@
    }

    /// The tuning of `note` can be computed: its offset fits in `i8`, and the lookup and the
    /// addition of the reference do not overflow.
    pub open spec fn tuning_ok(&self, note: u8) -> bool {
        self.tuning_ok_with(note, self.spec_reference_stack(), self.spec_reference_key())
    }

    /// [Self::tuning_ok], for the given global reference.
    pub open spec fn tuning_ok_with(&self, note: u8, reference_stack: Stack<T>, reference_key: u8) -> bool {
        let offset = reference_offset(note, reference_key);
        &&& -128 <= offset < 128
        &&& self.spec_neighbourhood().lookup_ok(offset as i8)
        &&& forall|s: Stack<T>|
            self.spec_neighbourhood().is_relative_stack(offset as i8, s) ==> s.scaled_add_ok(
                1,
                &reference_stack,
            )
    }

    /// `s` is the tuning of `note`: the stack of the neighbourhood at the note's offset from the
    /// reference key, plus the reference stack.
    pub open spec fn is_tuning(&self, note: u8, s: Stack<T>) -> bool {
        exists|r: Stack<T>|
            self.spec_neighbourhood().is_relative_stack(
                reference_offset(note, self.spec_reference_key()) as i8,
                r,
            ) && s.is_scaled_sum(&r, 1, &self.spec_reference_stack())
    }

    pub fn new(config: &StaticTuningConfig<T>) -> (s: Self)
        requires
            active_ok(config.active_temperaments@, T::spec_temperaments().len()),
            fivelimit_neighbourhood_ok::<T>(
                config.active_temperaments@,
                config.width as int,
                config.index as int,
                config.offset as int,
            ),
        ensures
            s.spec_neighbourhood().spec_wf(),
            s.spec_neighbourhood().aligned(),
            s.spec_neighbourhood().inner.stacks@.len() == 12,
            forall|i: int|
                -config.index <= i < 12 - config.index ==> (#[trigger] s.spec_neighbourhood().inner.stacks@[fifth_slot(
                    i,
                )]).target@ == corridor_target::<T>(config.width as int, config.offset as int, i) && Some(
                    s.spec_neighbourhood().inner.stacks@[fifth_slot(i)].actual@,
                ) == corridor_actual::<T>(
                    config.active_temperaments@,
                    config.width as int,
                    config.offset as int,
                    i,
                ),
            s.spec_active_temperaments() == config.active_temperaments@,
            s.spec_reference_stack().target@ == config.reference_stack.target@,
            s.spec_reference_stack().actual@ == config.reference_stack.actual@,
            s.spec_reference_key() == config.reference_key,
            s.spec_up_to_date() == Seq::new(128, |i: int| false),
    {
        let s = Self {
            neighbourhood: new_fivelimit_neighbourhood(
                &config.active_temperaments,
                config.width,
                config.index,
                config.offset,
            ),
            active_temperaments: copy_bools(&config.active_temperaments),
            reference_stack: config.reference_stack.clone(),
            reference_key: config.reference_key,
            tuning_up_to_date: [false; 128],
        };
        proof {
            assert(s.spec_up_to_date() =~= Seq::new(128, |i: int| false));
        }
        s
    }

    /// The tuning of `note` is computed and written to `tunings`, unless it is up to date. Returns
    /// whether it was computed, which is when it is sent on.
    pub fn update_tuning(&mut self, tunings: &mut [Stack<T>; 128], note: u8) -> (updated: bool)
        requires
            note < 128,
            old(self).spec_neighbourhood().spec_wf(),
            old(self).tuning_ok(note),
        ensures
            final(self).spec_neighbourhood() == old(self).spec_neighbourhood(),
            final(self).spec_active_temperaments() == old(self).spec_active_temperaments(),
            final(self).spec_reference_stack() == old(self).spec_reference_stack(),
            final(self).spec_reference_key() == old(self).spec_reference_key(),
            updated == !old(self).spec_up_to_date()[note as int],
            final(self).spec_up_to_date() == old(self).spec_up_to_date().update(note as int, true),
            updated ==> final(tunings)@ == old(tunings)@.update(note as int, final(tunings)@[note as int])
                && old(self).is_tuning(note, final(tunings)@[note as int]),
            !updated ==> final(tunings)@ == old(tunings)@,
    {
        if self.tuning_up_to_date[note as usize] {
            proof {
                assert(self.spec_up_to_date() =~= self.spec_up_to_date().update(note as int, true));
            }
            return false;
        }
        let offset: i8 = note as i8 - self.reference_key as i8;
        let mut s = Stack::new_zero();
        self.neighbourhood.write_relative_stack(&mut s, offset);
        let ghost r = s;
        s.scaled_add(1, &self.reference_stack);
        tunings[note as usize] = s;
        self.tuning_up_to_date[note as usize] = true;
        proof {
            assert(self.spec_up_to_date() =~= old(self).spec_up_to_date().update(note as int, true));
            assert(tunings@ =~= old(tunings)@.update(note as int, tunings@[note as int]));
            assert(old(self).spec_neighbourhood().is_relative_stack(offset, r));
        }
        true
    }

    /// Every sounding note is tuned anew. Returns the notes that were, from the lowest up.
    pub fn retune_all(&mut self, keys: &[KeyState; 128], tunings: &mut [Stack<T>; 128]) -> (notes: Vec<u8>)
        requires
            old(self).spec_neighbourhood().spec_wf(),
            forall|n: u8| n < 128 && (#[trigger] keys@[n as int]).spec_is_sounding() ==> old(self).tuning_ok(n),
        ensures
            final(self).spec_neighbourhood() == old(self).spec_neighbourhood(),
            final(self).spec_active_temperaments() == old(self).spec_active_temperaments(),
            final(self).spec_reference_stack() == old(self).spec_reference_stack(),
            final(self).spec_reference_key() == old(self).spec_reference_key(),
            notes@ == sounding_up_to(keys@, 128),
            forall|n: int| 0 <= n < 128 ==> (#[trigger] final(self).spec_up_to_date()[n]) == keys@[n].spec_is_sounding(),
            forall|n: int|
                0 <= n < 128 ==> if keys@[n].spec_is_sounding() {
                    old(self).is_tuning(n as u8, #[trigger] final(tunings)@[n])
                } else {
                    final(tunings)@[n] == old(tunings)@[n]
                },
    {
        self.tuning_up_to_date = [false; 128];
        let mut notes: Vec<u8> = Vec::new();
        let mut note: usize = 0;
        while note < 128
            invariant
                note <= 128,
                self.spec_neighbourhood() == old(self).spec_neighbourhood(),
                self.spec_active_temperaments() == old(self).spec_active_temperaments(),
                self.spec_reference_stack() == old(self).spec_reference_stack(),
                self.spec_reference_key() == old(self).spec_reference_key(),
                self.spec_neighbourhood().spec_wf(),
                self.spec_up_to_date().len() == 128,
                forall|n: u8| n < 128 && (#[trigger] keys@[n as int]).spec_is_sounding() ==> old(self).tuning_ok(n),
                forall|n: int| note <= n < 128 ==> !(#[trigger] self.spec_up_to_date()[n]),
                forall|n: int| 0 <= n < note ==> (#[trigger] self.spec_up_to_date()[n]) == keys@[n].spec_is_sounding(),
                forall|n: int| note <= n < 128 ==> #[trigger] tunings@[n] == old(tunings)@[n],
                forall|n: int|
                    0 <= n < note ==> if keys@[n].spec_is_sounding() {
                        old(self).is_tuning(n as u8, #[trigger] tunings@[n])
                    } else {
                        tunings@[n] == old(tunings)@[n]
                    },
                notes@ == sounding_up_to(keys@, note as int),
            decreases 128 - note,
        {
            if keys[note].is_sounding() {
                proof {
                    assert(keys@[note as int] == keys@[(note as u8) as int]);
                }
                self.update_tuning(tunings, note as u8);
                notes.push(note as u8);
            }
            note = note + 1;
        }
        notes
    }

    /// Sets the global reference, and tunes every sounding note anew: see [Self::retune_all].
    pub fn set_reference(
        &mut self,
        reference_stack: Stack<T>,
        reference_key: u8,
        keys: &[KeyState; 128],
        tunings: &mut [Stack<T>; 128],
    ) -> (notes: Vec<u8>)
        requires
            old(self).spec_neighbourhood().spec_wf(),
            forall|n: u8| n < 128 && (#[trigger] keys@[n as int]).spec_is_sounding() ==> old(self).tuning_ok_with(
                n,
                reference_stack,
                reference_key,
            ),
        ensures
            final(self).spec_reference_stack() == reference_stack,
            final(self).spec_reference_key() == reference_key,
            final(self).spec_neighbourhood() == old(self).spec_neighbourhood(),
            final(self).spec_active_temperaments() == old(self).spec_active_temperaments(),
            notes@ == sounding_up_to(keys@, 128),
            forall|n: int|
                0 <= n < 128 ==> if keys@[n].spec_is_sounding() {
                    final(self).is_tuning(n as u8, #[trigger] final(tunings)@[n])
                } else {
                    final(tunings)@[n] == old(tunings)@[n]
                },
    {
        self.reference_stack = reference_stack;
        self.reference_key = reference_key;
        self.retune_all(keys, tunings)
    }
}

/// The sounding keys below `n`, from the lowest up.
pub open spec fn sounding_up_to(keys: Seq<KeyState>, n: int) -> Seq<u8>
    decreases n,
{
    if n <= 0 {
        Seq::empty()
    } else {
        sounding_up_to(keys, n - 1) + if keys[n - 1].spec_is_sounding() {
            seq![(n - 1) as u8]
        } else {
            Seq::empty()
        }
    }
}

fn copy_bools(v: &Vec<bool>) -> (r: Vec<bool>)
    ensures
        r@ == v@,
{
    let mut r: Vec<bool> = Vec::new();
    let mut i: usize = 0;
    while i < v.len()
        invariant
            i <= v@.len(),
            r@ == v@.take(i as int),
        decreases v@.len() - i,
    {
        r.push(v[i]);
        i = i + 1;
        proof {
            assert(r@ =~= v@.take(i as int));
        }
    }
    proof {
        assert(v@.take(i as int) =~= v@);
    }
    r
}

} // verus!
