//! Which MIDI channels a key is sounding on: pressed, or held by the sustain pedal.
use std::time::Instant;

use vstd::prelude::*;

verus! {

/// `std::time::Instant`, carried through as an opaque value.
#[verifier::external_type_specification]
#[verifier::external_body]
pub struct ExInstant(Instant);

/// The current time: `std::time::Instant::now`. Nothing is claimed of the result.
#[verifier::external_body]
pub(crate) fn now() -> Instant {
    Instant::now()
}

/// The bit of channel `c`.
pub open spec fn channel_bit(c: u8) -> u16 {
    (1u16 << c) as u16
}

/// The channels that are pressed and held after a note on.
pub open spec fn after_note_on(on: u16, held: u16, c: u8) -> (u16, u16) {
    ((on | channel_bit(c)) as u16, held)
}

/// The channels that are pressed and held after a note off.
pub open spec fn after_note_off(on: u16, held: u16, c: u8, pedal_hold: bool) -> (u16, u16) {
    (
        (on & !channel_bit(c)) as u16,
        if pedal_hold {
            (held | (on & channel_bit(c))) as u16
        } else {
            held
        },
    )
}

/// The channels that are pressed and held after the pedal was released.
pub open spec fn after_pedal_off(on: u16, held: u16, c: u8) -> (u16, u16) {
    (on, (held & !channel_bit(c)) as u16)
}

/// Sounding on some channel.
pub open spec fn sounding(state: (u16, u16)) -> bool {
    state.0 != 0 || state.1 != 0
}

/// The state of one key: on which channels it is pressed, and on which it is held by a pedal.
#[derive(Clone, Copy)]
pub struct KeyState {
    last_change: Instant,  // last time that the note changed between sounding and not sounding
    on_channels: u16,
    held_channels: u16,
}

impl KeyState {
    /// The channels on which the key is pressed, and those on which it is held (bit `c` for
    /// channel `c`).
    pub closed spec fn channels(&self) -> (u16, u16) {
        (self.on_channels, self.held_channels)
    }

    /// The last time the key started or stopped sounding.
    pub closed spec fn spec_last_change(&self) -> Instant {
        self.last_change
    }

    pub open spec fn spec_is_sounding(&self) -> bool {
        sounding(self.channels())
    }

    pub fn new(time: Instant) -> (s: Self)
        ensures
            s.channels() == (0u16, 0u16),
            s.spec_last_change() == time,
    {
        Self { last_change: time, on_channels: 0, held_channels: 0 }
    }

    pub fn is_sounding(&self) -> (b: bool)
        ensures
            b == self.spec_is_sounding(),
    {
        self.on_channels != 0 || self.held_channels != 0
    }

    /// returns true iff the note state changed between "sounding on no channel" and "sounding on
    /// any channel"
    pub fn note_on(&mut self, channel: u8, time: Instant) -> (changed: bool)
        requires
            channel < 16,
        ensures
            final(self).channels() == after_note_on(old(self).channels().0, old(self).channels().1, channel),
            changed == !old(self).spec_is_sounding(),
            final(self).spec_is_sounding(),
            final(self).spec_last_change() == if changed {
                time
            } else {
                old(self).spec_last_change()
            },
    {
        let state_change = !self.is_sounding();
        if state_change {
            self.last_change = time;
        }
        let bit: u16 = 1u16 << channel;
        let on = self.on_channels;
        self.on_channels = on | bit;
        assert(bit != 0 ==> on | bit != 0) by (bit_vector);
        assert(bit == 1u16 << channel ==> channel < 16 ==> bit != 0) by (bit_vector);
        return state_change;
    }

    /// returns true iff the note state changed between "sounding on no channel" and "sounding on
    /// any channel"
    pub fn note_off(&mut self, channel: u8, pedal_hold: bool, time: Instant) -> (changed: bool)
        requires
            channel < 16,
        ensures
            final(self).channels() == after_note_off(
                old(self).channels().0,
                old(self).channels().1,
                channel,
                pedal_hold,
            ),
            changed == (old(self).spec_is_sounding() && !final(self).spec_is_sounding()),
            final(self).spec_last_change() == if changed {
                time
            } else {
                old(self).spec_last_change()
            },
    {
        let was_sounding = self.is_sounding();
        let bit: u16 = 1u16 << channel;
        if pedal_hold {
            self.held_channels = self.held_channels | (self.on_channels & bit);
        }
        self.on_channels = self.on_channels & !bit;
        if was_sounding && !self.is_sounding() {
            self.last_change = time;
            return true;
        }
        false
    }

    /// returns true iff the note state changed
    pub fn pedal_off(&mut self, channel: u8, time: Instant) -> (changed: bool)
        requires
            channel < 16,
        ensures
            final(self).channels() == after_pedal_off(
                old(self).channels().0,
                old(self).channels().1,
                channel,
            ),
            changed == (old(self).spec_is_sounding() && !final(self).spec_is_sounding()),
            final(self).spec_last_change() == if changed {
                time
            } else {
                old(self).spec_last_change()
            },
    {
        let was_sounding = self.is_sounding();
        let bit: u16 = 1u16 << channel;
        self.held_channels = self.held_channels & !bit;
        if was_sounding && !self.is_sounding() {
            self.last_change = time;
            return true;
        }
        false
    }
}

/// A key that is pressed on one channel and released there without the pedal stops sounding,
/// unless it is still pressed or held on another channel.
pub proof fn law_release_without_pedal(on: u16, held: u16, c: u8)
    requires
        c < 16,
    ensures
        sounding(after_note_off(after_note_on(on, held, c).0, after_note_on(on, held, c).1, c, false))
            <==> ((on & !channel_bit(c)) != 0 || held != 0),
{
    let bit = channel_bit(c);
    assert(bit == (1u16 << c) as u16);
    assert(((on | bit) & !bit) == (on & !bit)) by (bit_vector);
}

/// A key that was silent, is pressed on a channel and released there with the pedal held keeps
/// sounding; releasing the pedal on that channel silences it again.
pub proof fn law_pedal_sustains(c: u8)
    requires
        c < 16,
    ensures
        sounding(after_note_off(after_note_on(0, 0, c).0, after_note_on(0, 0, c).1, c, true)),
        !sounding(
            after_pedal_off(
                after_note_off(after_note_on(0, 0, c).0, after_note_on(0, 0, c).1, c, true).0,
                after_note_off(after_note_on(0, 0, c).0, after_note_on(0, 0, c).1, c, true).1,
                c,
            ),
        ),
{
    let bit = channel_bit(c);
    assert(bit == (1u16 << c) as u16);
    assert(c < 16 ==> (1u16 << c) != 0u16) by (bit_vector);
    assert(((0u16 | bit) & !bit) == 0u16) by (bit_vector);
    assert((0u16 | ((0u16 | bit) & bit)) == bit) by (bit_vector);
    assert((bit & !bit) == 0u16) by (bit_vector);
}

/// Releasing a key never makes a silent key sound.
pub proof fn law_note_off_keeps_silence(on: u16, held: u16, c: u8, pedal_hold: bool)
    requires
        !sounding((on, held)),
    ensures
        !sounding(after_note_off(on, held, c, pedal_hold)),
{
    let bit = channel_bit(c);
    assert(on == 0u16 ==> (on & !bit) == 0u16) by (bit_vector);
    assert(on == 0u16 && held == 0u16 ==> (held | (on & bit)) == 0u16) by (bit_vector);
}

/// Releasing the pedal never makes a silent key sound.
pub proof fn law_pedal_off_keeps_silence(on: u16, held: u16, c: u8)
    requires
        !sounding((on, held)),
    ensures
        !sounding(after_pedal_off(on, held, c)),
{
    let bit = channel_bit(c);
    assert(held == 0u16 ==> (held & !bit) == 0u16) by (bit_vector);
}

} // verus!
