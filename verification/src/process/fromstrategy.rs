//! What the process does with incoming MIDI before the strategy is asked: it parses the bytes,
//! and keeps track of the sounding keys and the sustain pedals.
use std::time::Instant;

use midi_msg::{ChannelVoiceMsg, ControlChange, MidiMsg, ReceiverContext};

use crate::keystate::{after_note_off, after_note_on, after_pedal_off, now, sounding, KeyState};
use vstd::prelude::*;

verus! {

/// The incoming MIDI messages that the process looks at; the input channel is a number from 0
/// to 15.
#[derive(Clone, Copy, Debug, PartialEq, Eq, Structural)]
pub enum IncomingEvent {
    NoteOn { channel: u8, note: u8, velocity: u8 },
    NoteOff { channel: u8, note: u8, velocity: u8 },
    /// The sustain pedal.
    Hold { channel: u8, value: u8 },
    /// Any other message.
    Other,
}

/// What `midi_msg::MidiMsg::from_midi_with_context` makes of the bytes, with a fresh receiver
/// context that parses control changes into their named controls: the event, or the message of
/// the parse error.
pub uninterp spec fn midi_parse(bytes: Seq<u8>) -> Result<IncomingEvent, Seq<char>>;

/// `midi_msg::MidiMsg::from_midi_with_context`, with a fresh `ReceiverContext` that parses control
/// changes into their named controls (so that controller 64 is the sustain pedal `Hold`), and
/// with the message it parses told apart into the events the process looks at. The contract
/// claims only that the result is a function of the bytes ([midi_parse]), and that channels are
/// numbers below 16 (the crate's `Channel` has sixteen values); what the crate parses is not
/// stated.
#[verifier::external_body]
fn parse_midi(bytes: &[u8]) -> (r: Result<IncomingEvent, String>)
    ensures
        match r {
            Ok(e) => midi_parse(bytes@) == Ok::<IncomingEvent, Seq<char>>(e),
            Err(s) => midi_parse(bytes@) == Err::<IncomingEvent, Seq<char>>(s@),
        },
        r matches Ok(IncomingEvent::NoteOn { channel, .. }) ==> channel < 16,
        r matches Ok(IncomingEvent::NoteOff { channel, .. }) ==> channel < 16,
        r matches Ok(IncomingEvent::Hold { channel, .. }) ==> channel < 16,
{
    match MidiMsg::from_midi_with_context(bytes, &mut ReceiverContext::new().complex_cc()) {
        Ok((MidiMsg::ChannelVoice { channel, msg: ChannelVoiceMsg::NoteOn { note, velocity } }, _)) =>
            Ok(IncomingEvent::NoteOn { channel: channel as u8, note, velocity }),
        Ok((MidiMsg::ChannelVoice { channel, msg: ChannelVoiceMsg::NoteOff { note, velocity } }, _)) =>
            Ok(IncomingEvent::NoteOff { channel: channel as u8, note, velocity }),
        Ok((MidiMsg::ChannelVoice { channel, msg: ChannelVoiceMsg::ControlChange { control: ControlChange::Hold(value) } }, _)) =>
            Ok(IncomingEvent::Hold { channel: channel as u8, value }),
        Ok(_) => Ok(IncomingEvent::Other),
        Err(e) => Err(e.to_string()),
    }
}

/// Parses incoming MIDI bytes: see [midi_parse].
pub fn parse_incoming(bytes: &[u8]) -> (r: Result<IncomingEvent, String>)
    ensures
        match r {
            Ok(e) => midi_parse(bytes@) == Ok::<IncomingEvent, Seq<char>>(e),
            Err(s) => midi_parse(bytes@) == Err::<IncomingEvent, Seq<char>>(s@),
        },
        r matches Ok(IncomingEvent::NoteOn { channel, .. }) ==> channel < 16,
        r matches Ok(IncomingEvent::NoteOff { channel, .. }) ==> channel < 16,
        r matches Ok(IncomingEvent::Hold { channel, .. }) ==> channel < 16,
{
    parse_midi(bytes)
}

/// The keys and pedals as the process sees them.
pub struct NoteTracker {
    key_states: [KeyState; 128],
    pedal_hold: [bool; 16],
}

impl NoteTracker {
    /// The state of each key.
    pub closed spec fn spec_keys(&self) -> Seq<KeyState> {
        self.key_states@
    }

    /// Whether the sustain pedal is held, for each input channel.
    pub closed spec fn spec_pedal(&self) -> Seq<bool> {
        self.pedal_hold@
    }

    /// One state per key, one pedal per input channel.
    pub open spec fn wf(&self) -> bool {
        &&& self.spec_keys().len() == 128
        &&& self.spec_pedal().len() == 16
    }

    /// Every tracker has one state per key and one pedal per input channel.
    pub proof fn lemma_wf(&self)
        ensures
            self.wf(),
    {
    }

    /// Nothing sounds, no pedal is held.
    pub fn new() -> (s: Self)
        ensures
            s.wf(),
            s.spec_keys().len() == 128,
            forall|k: int| 0 <= k < 128 ==> #[trigger] s.spec_keys()[k].channels() == (0u16, 0u16),
            s.spec_pedal() == Seq::new(16, |i: int| false),
    {
        let t = now();
        let s = Self { key_states: [KeyState::new(t); 128], pedal_hold: [false; 16] };
        proof {
            assert(s.spec_pedal() =~= Seq::new(16, |i: int| false));
        }
        s
    }

    /// The keys, for the strategy.
    pub fn key_states(&self) -> (k: &[KeyState; 128])
        ensures
            k@ == self.spec_keys(),
    {
        &self.key_states
    }

    /// A key was pressed on `channel`. Returns whether it started sounding, which is when the
    /// strategy is asked for its tuning.
    pub fn note_on(&mut self, channel: u8, note: u8, time: Instant) -> (started: bool)
        requires
            channel < 16,
            note < 128,
        ensures
            final(self).spec_pedal() == old(self).spec_pedal(),
            final(self).spec_keys() == old(self).spec_keys().update(
                note as int,
                final(self).spec_keys()[note as int],
            ),
            final(self).spec_keys()[note as int].channels() == after_note_on(
                old(self).spec_keys()[note as int].channels().0,
                old(self).spec_keys()[note as int].channels().1,
                channel,
            ),
            started == !old(self).spec_keys()[note as int].spec_is_sounding(),
            final(self).spec_keys()[note as int].spec_last_change() == if started {
                time
            } else {
                old(self).spec_keys()[note as int].spec_last_change()
            },
            final(self).wf(),
    {
        let mut k = self.key_states[note as usize];
        let started = k.note_on(channel, time);
        self.key_states[note as usize] = k;
        started
    }

    /// A key was released on `channel`. Returns whether it stopped sounding (it does not while
    /// the pedal of that channel is held, or while it is pressed on another channel), which is
    /// when the strategy is told.
    pub fn note_off(&mut self, channel: u8, note: u8, time: Instant) -> (stopped: bool)
        requires
            channel < 16,
            note < 128,
        ensures
            final(self).spec_pedal() == old(self).spec_pedal(),
            final(self).spec_keys() == old(self).spec_keys().update(
                note as int,
                final(self).spec_keys()[note as int],
            ),
            final(self).spec_keys()[note as int].channels() == after_note_off(
                old(self).spec_keys()[note as int].channels().0,
                old(self).spec_keys()[note as int].channels().1,
                channel,
                old(self).spec_pedal()[channel as int],
            ),
            stopped == (old(self).spec_keys()[note as int].spec_is_sounding()
                && !final(self).spec_keys()[note as int].spec_is_sounding()),
            final(self).spec_keys()[note as int].spec_last_change() == if stopped {
                time
            } else {
                old(self).spec_keys()[note as int].spec_last_change()
            },
            final(self).wf(),
    {
        let mut k = self.key_states[note as usize];
        let stopped = k.note_off(channel, self.pedal_hold[channel as usize], time);
        self.key_states[note as usize] = k;
        stopped
    }

    /// The sustain pedal of `channel` was set to `value`. When it is released, the keys that it
    /// held are released on that channel; returns those that stopped sounding, from the lowest
    /// up, for the strategy.
    pub fn hold(&mut self, channel: u8, value: u8, time: Instant) -> (off_notes: Vec<u8>)
        requires
            channel < 16,
        ensures
            final(self).spec_pedal() == old(self).spec_pedal().update(channel as int, value > 0),
            final(self).spec_keys().len() == old(self).spec_keys().len(),
            value > 0 ==> final(self).spec_keys() == old(self).spec_keys() && off_notes@ == Seq::<u8>::empty(),
            value == 0 ==> forall|k: int|
                0 <= k < 128 ==> #[trigger] final(self).spec_keys()[k].channels() == after_pedal_off(
                    old(self).spec_keys()[k].channels().0,
                    old(self).spec_keys()[k].channels().1,
                    channel,
                ),
            value == 0 ==> off_notes@ == stopped_below(
                old(self).spec_keys(),
                channel,
                128,
            ),
            value == 0 ==> forall|k: int|
                0 <= k < 128 ==> #[trigger] final(self).spec_keys()[k].spec_last_change() == if old(
                    self,
                ).spec_keys()[k].spec_is_sounding() && !final(self).spec_keys()[k].spec_is_sounding() {
                    time
                } else {
                    old(self).spec_keys()[k].spec_last_change()
                },
            final(self).wf(),
    {
        let mut off_notes: Vec<u8> = Vec::new();
        if value > 0 {
            self.pedal_hold[channel as usize] = true;
            return off_notes;
        }
        self.pedal_hold[channel as usize] = false;
        let ghost old_keys = self.spec_keys();
        let mut note: usize = 0;
        while note < 128
            invariant
                note <= 128,
                channel < 16,
                old_keys.len() == 128,
                self.spec_keys().len() == 128,
                self.spec_pedal() == old(self).spec_pedal().update(channel as int, false),
                old_keys == old(self).spec_keys(),
                forall|j: int| note <= j < 128 ==> #[trigger] self.spec_keys()[j] == old_keys[j],
                forall|j: int|
                    0 <= j < note ==> #[trigger] self.spec_keys()[j].channels() == after_pedal_off(
                        old_keys[j].channels().0,
                        old_keys[j].channels().1,
                        channel,
                    ),
                forall|j: int|
                    0 <= j < note ==> #[trigger] self.spec_keys()[j].spec_last_change() == if old_keys[j].spec_is_sounding()
                        && !self.spec_keys()[j].spec_is_sounding() {
                        time
                    } else {
                        old_keys[j].spec_last_change()
                    },
                off_notes@ == stopped_below(old_keys, channel, note as int),
            decreases 128 - note,
        {
            let mut k = self.key_states[note];
            let changed = k.pedal_off(channel, time);
            self.key_states[note] = k;
            if changed {
                off_notes.push(note as u8);
            }
            note = note + 1;
        }
        off_notes
    }
}

/// The keys below `n` that stop sounding when the pedal of `channel` is released, from the lowest
/// up.
pub open spec fn stopped_below(keys: Seq<KeyState>, channel: u8, n: int) -> Seq<u8>
    decreases n,
{
    if n <= 0 {
        Seq::empty()
    } else {
        let k = keys[n - 1];
        stopped_below(keys, channel, n - 1) + if k.spec_is_sounding() && !sounding(
            after_pedal_off(k.channels().0, k.channels().1, channel),
        ) {
            seq![(n - 1) as u8]
        } else {
            Seq::empty()
        }
    }
}

} // verus!
