//! A backend that uses twelve MIDI channels and pitch bends, one channel for each pitch class.
//! Works for tuning systems that have an octave-periodic stack type.
//!
//! Tunings are given to this module as pitch bends of the notes: the conversion from semitones,
//! which depends on the bend range of the synthesizer, happens before.
use std::time::Instant;

use crate::backend::midi::{ChannelMsg, OutgoingMsg};
use crate::keystate::{after_note_off, after_note_on, after_pedal_off, now, sounding, KeyState};
use vstd::prelude::*;

verus! {

/// The twelve output channels, as channel numbers from 0 to 15. Exclude channel 10 (the ninth)
/// for General MIDI compatibility.
#[derive(Clone, Debug)]
pub struct Pitchbend12Config {
    pub channels: Vec<u8>,
}

/// An event for the backend.
pub enum Pitchbend12Event {
    Start,
    Reset,
    Stop,
    NoteOn { channel: u8, note: u8, velocity: u8, time: Instant },
    NoteOff { channel: u8, note: u8, velocity: u8, time: Instant },
    PedalHold { channel: u8, value: u8, time: Instant },
    ProgramChange { program: u8 },
    /// The pitch class of `note` shall get the pitch bend `bend`.
    Retune { note: u8, bend: u16 },
    /// `note` is pressed, and its pitch class shall get the pitch bend `bend`.
    TunedNoteOn { channel: u8, note: u8, velocity: u8, bend: u16, time: Instant },
}

/// The output channel of a note: the one of its pitch class.
pub open spec fn pitch_class(note: u8) -> int {
    note as int % 12
}

/// The same message on all twelve channels.
pub open spec fn on_all(channels: Seq<u8>, msg: ChannelMsg) -> Seq<OutgoingMsg> {
    Seq::new(12, |i: int| OutgoingMsg { channel: channels[i], msg })
}

/// What is sent when the backend starts or is reset: on every channel the bend `8192`, a
/// released pedal, and "all sound off".
pub open spec fn reset12_outputs(channels: Seq<u8>) -> Seq<OutgoingMsg> {
    Seq::new(
        36,
        |j: int|
            {
                let c = channels[j / 3];
                if j % 3 == 0 {
                    OutgoingMsg { channel: c, msg: ChannelMsg::PitchBend { bend: 8192 } }
                } else if j % 3 == 1 {
                    OutgoingMsg { channel: c, msg: ChannelMsg::Hold { value: 0 } }
                } else {
                    OutgoingMsg { channel: c, msg: ChannelMsg::AllSoundOff }
                }
            },
    )
}

/// What is sent to give the pitch class of `note` the bend `bend`: nothing if it has it already.
pub open spec fn retune12_outputs(channels: Seq<u8>, bends: Seq<u16>, note: u8, bend: u16) -> Seq<
    OutgoingMsg,
> {
    let i = pitch_class(note);
    if bends[i] == bend {
        seq![]
    } else {
        seq![OutgoingMsg { channel: channels[i], msg: ChannelMsg::PitchBend { bend } }]
    }
}

/// The backend's state.
pub struct Pitchbend12 {
    config: Pitchbend12Config,
    /// invariant: the bend pertaining to `channels[i]` is in `bends[i]`
    bends: Vec<u16>,
    key_state: Vec<KeyState>,
    /// is the sustain pedal held at the moment? (for each input channel)
    pedal_hold: Vec<bool>,
}

impl Pitchbend12 {
    /// The twelve output channels.
    pub closed spec fn spec_channels(&self) -> Seq<u8> {
        self.config.channels@
    }

    /// The current bend of each output channel.
    pub closed spec fn spec_bends(&self) -> Seq<u16> {
        self.bends@
    }

    /// The state of each of the 128 keys.
    pub closed spec fn spec_keys(&self) -> Seq<KeyState> {
        self.key_state@
    }

    /// Whether the sustain pedal is held, for each of the 16 input channels.
    pub closed spec fn spec_pedal(&self) -> Seq<bool> {
        self.pedal_hold@
    }

    pub open spec fn wf(&self) -> bool {
        &&& self.spec_channels().len() == 12
        &&& forall|i: int| 0 <= i < 12 ==> #[trigger] self.spec_channels()[i] < 16
        &&& self.spec_bends().len() == 12
        &&& self.spec_keys().len() == 128
        &&& self.spec_pedal().len() == 16
    }

    /// A backend that was just started: every channel is unbent, nothing sounds, no pedal is
    /// held.
    pub open spec fn is_fresh(&self) -> bool {
        &&& self.spec_bends() == Seq::new(12, |i: int| 8192u16)
        &&& forall|k: int| 0 <= k < 128 ==> #[trigger] self.spec_keys()[k].channels() == (0u16, 0u16)
        &&& self.spec_pedal() == Seq::new(16, |i: int| false)
    }

    pub fn new(config: &Pitchbend12Config) -> (s: Self)
        requires
            config.channels@.len() == 12,
            forall|i: int| 0 <= i < 12 ==> #[trigger] config.channels@[i] < 16,
        ensures
            s.wf(),
            s.is_fresh(),
            s.spec_channels() == config.channels@,
    {
        let now = now();
        let mut key_state: Vec<KeyState> = Vec::new();
        let mut k: usize = 0;
        while k < 128
            invariant
                k <= 128,
                key_state@.len() == k,
                forall|j: int| 0 <= j < k ==> #[trigger] key_state@[j].channels() == (0u16, 0u16),
            decreases 128 - k,
        {
            key_state.push(KeyState::new(now));
            k = k + 1;
        }
        let mut pedal_hold: Vec<bool> = Vec::new();
        let mut c: usize = 0;
        while c < 16
            invariant
                c <= 16,
                pedal_hold@ == Seq::new(c as nat, |i: int| false),
            decreases 16 - c,
        {
            pedal_hold.push(false);
            c = c + 1;
        }
        let mut bends: Vec<u16> = Vec::new();
        let mut i: usize = 0;
        while i < 12
            invariant
                i <= 12,
                bends@ == Seq::new(i as nat, |j: int| 8192u16),
            decreases 12 - i,
        {
            bends.push(8192);
            i = i + 1;
        }
        let channels = config.channels.clone();
        Self { config: Pitchbend12Config { channels }, bends, key_state, pedal_hold }
    }

    /// The current bend of the pitch class of `note`.
    pub fn bend_of(&self, note: u8) -> (b: u16)
        requires
            self.wf(),
        ensures
            b == self.spec_bends()[pitch_class(note)],
    {
        self.bends[note as usize % 12]
    }

    /// The events on which the backend does not panic.
    pub open spec fn event_ok(&self, ev: Pitchbend12Event) -> bool {
        match ev {
            Pitchbend12Event::NoteOn { channel, note, .. } => channel < 16 && note < 128,
            Pitchbend12Event::NoteOff { channel, note, .. } => channel < 16 && note < 128,
            Pitchbend12Event::PedalHold { channel, .. } => channel < 16,
            Pitchbend12Event::TunedNoteOn { channel, note, .. } => channel < 16 && note < 128,
            _ => true,
        }
    }

    /// The effect of an event: the new state `new` and what is sent, `out`.
    pub open spec fn event_spec(old: Self, new: Self, out: Seq<OutgoingMsg>, ev: Pitchbend12Event) -> bool {
        let chs = old.spec_channels();
        &&& new.wf()
        &&& new.spec_channels() == chs
        &&& match ev {
            Pitchbend12Event::Start => new.is_fresh() && out == reset12_outputs(chs),
            Pitchbend12Event::Reset => new.is_fresh() && out == reset12_outputs(chs),
            Pitchbend12Event::Stop => new == old && out == Seq::<OutgoingMsg>::empty(),
            Pitchbend12Event::NoteOn { channel, note, velocity, time } => {
                let ks = old.spec_keys()[note as int];
                &&& out == seq![
                    OutgoingMsg {
                        channel: chs[pitch_class(note)],
                        msg: ChannelMsg::NoteOn { note, velocity },
                    },
                ]
                &&& new.spec_bends() == old.spec_bends()
                &&& new.spec_pedal() == old.spec_pedal()
                &&& new.spec_keys() == old.spec_keys().update(note as int, new.spec_keys()[note as int])
                &&& new.spec_keys()[note as int].channels() == after_note_on(
                    ks.channels().0,
                    ks.channels().1,
                    channel,
                )
                &&& new.spec_keys()[note as int].spec_last_change() == if ks.spec_is_sounding() {
                    ks.spec_last_change()
                } else {
                    time
                }
            },
            Pitchbend12Event::NoteOff { channel, note, velocity, time } => {
                let ks = old.spec_keys()[note as int];
                &&& out == seq![
                    OutgoingMsg {
                        channel: chs[pitch_class(note)],
                        msg: ChannelMsg::NoteOff { note, velocity },
                    },
                ]
                &&& new.spec_bends() == old.spec_bends()
                &&& new.spec_pedal() == old.spec_pedal()
                &&& new.spec_keys() == old.spec_keys().update(note as int, new.spec_keys()[note as int])
                &&& new.spec_keys()[note as int].channels() == after_note_off(
                    ks.channels().0,
                    ks.channels().1,
                    channel,
                    old.spec_pedal()[channel as int],
                )
                &&& new.spec_keys()[note as int].spec_last_change() == if ks.spec_is_sounding()
                    && !new.spec_keys()[note as int].spec_is_sounding() {
                    time
                } else {
                    ks.spec_last_change()
                }
            },
            Pitchbend12Event::PedalHold { channel, value, time } => {
                &&& out == on_all(chs, ChannelMsg::Hold { value })
                &&& new.spec_bends() == old.spec_bends()
                &&& new.spec_pedal() == old.spec_pedal().update(channel as int, value != 0)
                &&& value != 0 ==> new.spec_keys() == old.spec_keys()
                &&& value == 0 ==> forall|k: int|
                    0 <= k < 128 ==> {
                        let ks = #[trigger] old.spec_keys()[k];
                        &&& new.spec_keys()[k].channels() == after_pedal_off(
                            ks.channels().0,
                            ks.channels().1,
                            channel,
                        )
                        &&& new.spec_keys()[k].spec_last_change() == if ks.spec_is_sounding()
                            && !new.spec_keys()[k].spec_is_sounding() {
                            time
                        } else {
                            ks.spec_last_change()
                        }
                    }
            },
            Pitchbend12Event::ProgramChange { program } => new == old && out == on_all(
                chs,
                ChannelMsg::ProgramChange { program },
            ),
            Pitchbend12Event::Retune { note, bend } => {
                &&& out == retune12_outputs(chs, old.spec_bends(), note, bend)
                &&& new.spec_bends() == old.spec_bends().update(pitch_class(note), bend)
                &&& new.spec_keys() == old.spec_keys()
                &&& new.spec_pedal() == old.spec_pedal()
            },
            Pitchbend12Event::TunedNoteOn { channel, note, velocity, bend, time } => {
                let ks = old.spec_keys()[note as int];
                &&& out == seq![
                    OutgoingMsg {
                        channel: chs[pitch_class(note)],
                        msg: ChannelMsg::NoteOn { note, velocity },
                    },
                ] + retune12_outputs(chs, old.spec_bends(), note, bend)
                &&& new.spec_bends() == old.spec_bends().update(pitch_class(note), bend)
                &&& new.spec_pedal() == old.spec_pedal()
                &&& new.spec_keys() == old.spec_keys().update(note as int, new.spec_keys()[note as int])
                &&& new.spec_keys()[note as int].channels() == after_note_on(
                    ks.channels().0,
                    ks.channels().1,
                    channel,
                )
                &&& new.spec_keys()[note as int].spec_last_change() == if ks.spec_is_sounding() {
                    ks.spec_last_change()
                } else {
                    time
                }
            },
        }
    }

    fn on_all(&self, msg: ChannelMsg) -> (out: Vec<OutgoingMsg>)
        requires
            self.wf(),
        ensures
            out@ == on_all(self.spec_channels(), msg),
    {
        let mut out: Vec<OutgoingMsg> = Vec::new();
        let mut i: usize = 0;
        while i < 12
            invariant
                self.wf(),
                i <= 12,
                out@ == Seq::new(i as nat, |j: int| OutgoingMsg { channel: self.spec_channels()[j], msg }),
            decreases 12 - i,
        {
            out.push(OutgoingMsg { channel: self.config.channels[i], msg });
            i = i + 1;
            proof {
                assert(out@ =~= Seq::new(
                    i as nat,
                    |j: int| OutgoingMsg { channel: self.spec_channels()[j], msg },
                ));
            }
        }
        out
    }

    /// Gives the pitch class of `note` the bend `bend`.
    fn handle_retune(&mut self, note: u8, bend: u16) -> (out: Vec<OutgoingMsg>)
        requires
            old(self).wf(),
        ensures
            final(self).wf(),
            final(self).spec_channels() == old(self).spec_channels(),
            final(self).spec_keys() == old(self).spec_keys(),
            final(self).spec_pedal() == old(self).spec_pedal(),
            final(self).spec_bends() == old(self).spec_bends().update(pitch_class(note), bend),
            out@ == retune12_outputs(old(self).spec_channels(), old(self).spec_bends(), note, bend),
    {
        let channel_index = note as usize % 12;
        let mut out: Vec<OutgoingMsg> = Vec::new();
        if self.bends[channel_index] != bend {
            out.push(
                OutgoingMsg {
                    channel: self.config.channels[channel_index],
                    msg: ChannelMsg::PitchBend { bend },
                },
            );
            self.bends.set(channel_index, bend);
        } else {
            proof {
                assert(self.spec_bends() =~= self.spec_bends().update(pitch_class(note), bend));
            }
        }
        proof {
            assert(out@ =~= retune12_outputs(old(self).spec_channels(), old(self).spec_bends(), note, bend));
        }
        out
    }

    /// Handles an event: returns what to send, in order.
    pub fn handle_event(&mut self, ev: Pitchbend12Event) -> (out: Vec<OutgoingMsg>)
        requires
            old(self).wf(),
            old(self).event_ok(ev),
        ensures
            Self::event_spec(*old(self), *final(self), out@, ev),
    {
        match ev {
            Pitchbend12Event::Start => self.reset(),
            Pitchbend12Event::Reset => self.reset(),
            Pitchbend12Event::Stop => Vec::new(),
            Pitchbend12Event::NoteOn { channel, note, velocity, time } => {
                let mut out: Vec<OutgoingMsg> = Vec::new();
                out.push(
                    OutgoingMsg {
                        channel: self.config.channels[note as usize % 12],
                        msg: ChannelMsg::NoteOn { note, velocity },
                    },
                );
                let mut ks = self.key_state[note as usize];
                ks.note_on(channel, time);
                self.key_state.set(note as usize, ks);
                proof {
                    assert(self.spec_keys() =~= old(self).spec_keys().update(
                        note as int,
                        self.spec_keys()[note as int],
                    ));
                }
                out
            },
            Pitchbend12Event::NoteOff { channel, note, velocity, time } => {
                let mut out: Vec<OutgoingMsg> = Vec::new();
                out.push(
                    OutgoingMsg {
                        channel: self.config.channels[note as usize % 12],
                        msg: ChannelMsg::NoteOff { note, velocity },
                    },
                );
                let mut ks = self.key_state[note as usize];
                ks.note_off(channel, self.pedal_hold[channel as usize], time);
                self.key_state.set(note as usize, ks);
                proof {
                    assert(self.spec_keys() =~= old(self).spec_keys().update(
                        note as int,
                        self.spec_keys()[note as int],
                    ));
                }
                out
            },
            Pitchbend12Event::PedalHold { channel, value, time } => {
                let out = self.on_all(ChannelMsg::Hold { value });
                self.pedal_hold.set(channel as usize, value != 0);
                if value == 0 {
                    let ghost old_keys = self.spec_keys();
                    let mut k: usize = 0;
                    while k < 128
                        invariant
                            k <= 128,
                            channel < 16,
                            self.spec_keys().len() == 128,
                            old_keys.len() == 128,
                            self.spec_channels() == old(self).spec_channels(),
                            self.spec_bends() == old(self).spec_bends(),
                            self.spec_pedal() == old(self).spec_pedal().update(channel as int, false),
                            old_keys == old(self).spec_keys(),
                            self.wf(),
                            forall|j: int| k <= j < 128 ==> #[trigger] self.spec_keys()[j] == old_keys[j],
                            forall|j: int|
                                0 <= j < k ==> #[trigger] self.spec_keys()[j].channels() == after_pedal_off(
                                    old_keys[j].channels().0,
                                    old_keys[j].channels().1,
                                    channel,
                                ),
                            forall|j: int|
                                0 <= j < k ==> #[trigger] self.spec_keys()[j].spec_last_change() == if old_keys[j].spec_is_sounding()
                                    && !self.spec_keys()[j].spec_is_sounding() {
                                    time
                                } else {
                                    old_keys[j].spec_last_change()
                                },
                        decreases 128 - k,
                    {
                        let mut ks = self.key_state[k];
                        ks.pedal_off(channel, time);
                        self.key_state.set(k, ks);
                        k = k + 1;
                    }
                }
                out
            },
            Pitchbend12Event::ProgramChange { program } => self.on_all(
                ChannelMsg::ProgramChange { program },
            ),
            Pitchbend12Event::Retune { note, bend } => self.handle_retune(note, bend),
            Pitchbend12Event::TunedNoteOn { channel, note, velocity, bend, time } => {
                let mut out: Vec<OutgoingMsg> = Vec::new();
                out.push(
                    OutgoingMsg {
                        channel: self.config.channels[note as usize % 12],
                        msg: ChannelMsg::NoteOn { note, velocity },
                    },
                );
                let mut more = self.handle_retune(note, bend);
                out.append(&mut more);
                let mut ks = self.key_state[note as usize];
                ks.note_on(channel, time);
                self.key_state.set(note as usize, ks);
                proof {
                    assert(self.spec_keys() =~= old(self).spec_keys().update(
                        note as int,
                        self.spec_keys()[note as int],
                    ));
                }
                out
            },
        }
    }

    /// Starts afresh: every channel is unbent, unpedalled and silenced.
    fn reset(&mut self) -> (out: Vec<OutgoingMsg>)
        requires
            old(self).wf(),
        ensures
            final(self).wf(),
            final(self).is_fresh(),
            final(self).spec_channels() == old(self).spec_channels(),
            out@ == reset12_outputs(old(self).spec_channels()),
    {
        *self = Pitchbend12::new(&self.config);
        let mut out: Vec<OutgoingMsg> = Vec::new();
        let mut i: usize = 0;
        while i < 12
            invariant
                self.wf(),
                self.is_fresh(),
                i <= 12,
                out@ == reset12_outputs(self.spec_channels()).take(3 * i),
            decreases 12 - i,
        {
            let channel = self.config.channels[i];
            out.push(
                OutgoingMsg { channel, msg: ChannelMsg::PitchBend { bend: self.bends[i] } },
            );
            out.push(OutgoingMsg { channel, msg: ChannelMsg::Hold { value: 0 } });
            out.push(OutgoingMsg { channel, msg: ChannelMsg::AllSoundOff });
            i = i + 1;
            proof {
                assert(out@ =~= reset12_outputs(self.spec_channels()).take(3 * i));
            }
        }
        proof {
            assert(reset12_outputs(self.spec_channels()).take(36) =~= reset12_outputs(
                self.spec_channels(),
            ));
        }
        out
    }
}

} // verus!
