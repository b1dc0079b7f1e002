//! This backend uses pitch bends, but doesn't assign pitch classes to channels before the fact. It
//! therefore makes it possible to tune as many notes independently as there are channels (i.e. at
//! most 16). Thus, this is the correct backend if you want to work in tuning systems that are not
//! octave-periodic, for example.
//!
//! This entails some subtleties with regard to input and output channels:
//!
//! - Notes are set to their correct tuning at the "note on". If you retune, it might be possible
//!   that (a) you can't because you'll exceed the pitch bend range or (b) you inadvertently detune
//!   other notes which were assigned the same channel during their note on.
//!
//! - Notes will be considered "on" exactly if there's at least one input channel on which they are
//!   sounding. Thus, if you send a "note on" on channel 1 and one on channel 2, you'll also have to
//!   send two corresponding "note off" events, or the note will continue sounding.
//!
//! Tunings are given to this module as MIDI notes and pitch bends: the conversion from semitones,
//! which depends on the bend range of the synthesizer, happens before.
use std::time::Instant;

use crate::backend::midi::{ChannelMsg, OutgoingMsg};
use crate::keystate::{
    after_note_off, after_note_on, after_pedal_off, law_note_off_keeps_silence,
    law_pedal_off_keeps_silence, now, sounding, KeyState,
};
use vstd::prelude::*;

verus! {

/// The output channel (an index into the configured channels) and the output note that a key
/// sounds on.
#[derive(Clone, Copy, Debug, PartialEq, Eq, Structural)]
pub struct AssignedNoteAndChannel {
    pub channel_index: usize,
    pub note: u8,
}

/// An output channel, its current pitch bend, and the number of notes that were started on it and
/// not yet released.
#[derive(Clone, Copy, Debug, PartialEq, Eq, Structural)]
pub struct ChannelWithInfo {
    pub channel: u8,
    pub bend: u16,
    pub n_active_notes: u8,
}

/// What the backend does in response to an event.
#[derive(Clone, Copy, Debug, PartialEq, Eq, Structural)]
pub enum BackendOutput {
    /// Send this message.
    Midi(OutgoingMsg),
    /// A pitch bend was sent to retune the sounding `note`, which is played as `assigned_note`
    /// with the pitch bend `bend`. (The bend may be outside of the bend range.)
    BendSent { note: u8, assigned_note: u8, bend: u16 },
    /// All channels were in use: `note` is played as `closest_note` on the channel whose bend
    /// `bend` is closest to the desired one.
    ClosestBendUsed { note: u8, closest_note: u8, bend: u16 },
}

/// The output channels to use, as channel numbers from 0 to 15.
#[derive(Clone, Debug)]
pub struct PitchbendConfig {
    pub channels: Vec<u8>,
}

/// An event for the backend.
pub enum PitchbendEvent {
    Start,
    Reset,
    Stop,
    /// A key was pressed on `channel`. If it is not sounding yet, it shall be played as
    /// `closest_note` with the pitch bend `bend`; if it is, its channel shall get the pitch bend
    /// `retune_bend`.
    TunedNoteOn {
        channel: u8,
        note: u8,
        velocity: u8,
        closest_note: u8,
        bend: u16,
        retune_bend: u16,
        time: Instant,
    },
    NoteOff { channel: u8, note: u8, velocity: u8, time: Instant },
    /// The sounding `note` shall get the pitch bend `bend` on its channel.
    Retune { note: u8, bend: u16 },
    PedalHold { channel: u8, value: u8, time: Instant },
    ProgramChange { program: u8 },
}

/// The bend that leaves a note untuned.
pub open spec fn center_bend() -> u16 {
    8192
}

/// The first of the first `n` channels whose bend is `bend`.
pub open spec fn first_with_bend(chs: Seq<ChannelWithInfo>, bend: u16, n: int) -> Option<int>
    decreases n,
{
    if n <= 0 {
        None
    } else {
        match first_with_bend(chs, bend, n - 1) {
            Some(i) => Some(i),
            None => if chs[n - 1].bend == bend {
                Some(n - 1)
            } else {
                None
            },
        }
    }
}

/// The first of the first `n` channels on which no note is active.
pub open spec fn first_unused(chs: Seq<ChannelWithInfo>, n: int) -> Option<int>
    decreases n,
{
    if n <= 0 {
        None
    } else {
        match first_unused(chs, n - 1) {
            Some(i) => Some(i),
            None => if chs[n - 1].n_active_notes == 0 {
                Some(n - 1)
            } else {
                None
            },
        }
    }
}

pub open spec fn dist(a: u16, b: u16) -> int {
    if a >= b {
        a - b
    } else {
        b - a
    }
}

/// The first of the first `n` channels whose bend is closest to `bend`.
pub open spec fn closest_bend(chs: Seq<ChannelWithInfo>, bend: u16, n: int) -> int
    decreases n,
{
    if n <= 1 {
        0
    } else {
        let b = closest_bend(chs, bend, n - 1);
        if dist(chs[n - 1].bend, bend) < dist(chs[b].bend, bend) {
            n - 1
        } else {
            b
        }
    }
}

/// The channel on which a key that is not sounding is started with the pitch bend `bend`: the
/// first channel that has that bend already, else the first unused channel, else the channel
/// whose bend is closest.
pub open spec fn note_on_channel(chs: Seq<ChannelWithInfo>, bend: u16) -> int {
    match first_with_bend(chs, bend, chs.len() as int) {
        Some(i) => i,
        None => match first_unused(chs, chs.len() as int) {
            Some(i) => i,
            None => closest_bend(chs, bend, chs.len() as int),
        },
    }
}

/// The channels after a key that is not sounding was started with the pitch bend `bend`.
pub open spec fn channels_after_note_on(chs: Seq<ChannelWithInfo>, bend: u16) -> Seq<ChannelWithInfo> {
    let i = note_on_channel(chs, bend);
    let new_bend = if first_with_bend(chs, bend, chs.len() as int) is None && first_unused(
        chs,
        chs.len() as int,
    ) is Some {
        bend
    } else {
        chs[i].bend
    };
    chs.update(
        i,
        ChannelWithInfo {
            channel: chs[i].channel,
            bend: new_bend,
            n_active_notes: (chs[i].n_active_notes + 1) as u8,
        },
    )
}

pub open spec fn midi(channel: u8, msg: ChannelMsg) -> BackendOutput {
    BackendOutput::Midi(OutgoingMsg { channel, msg })
}

/// What is sent when a key that is not sounding is started as `closest_note` with the bend
/// `bend`.
pub open spec fn note_on_outputs(
    chs: Seq<ChannelWithInfo>,
    note: u8,
    velocity: u8,
    closest_note: u8,
    bend: u16,
) -> Seq<BackendOutput> {
    let i = note_on_channel(chs, bend);
    let c = chs[i].channel;
    let on = midi(c, ChannelMsg::NoteOn { note: closest_note, velocity });
    match first_with_bend(chs, bend, chs.len() as int) {
        Some(_) => seq![on],
        None => match first_unused(chs, chs.len() as int) {
            Some(_) => seq![midi(c, ChannelMsg::PitchBend { bend }), on],
            None => seq![
                on,
                BackendOutput::ClosestBendUsed { note, closest_note, bend: chs[i].bend },
            ],
        },
    }
}

/// Whether key `k` counts toward the active notes of channel `ch`.
pub open spec fn counts_toward(
    keys: Seq<KeyState>,
    assigned: Seq<AssignedNoteAndChannel>,
    ch: int,
    k: int,
) -> bool {
    keys[k].spec_is_sounding() && assigned[k].channel_index == ch
}

/// The number of the first `n` keys that sound and were assigned the channel `ch`.
pub open spec fn count_on(
    keys: Seq<KeyState>,
    assigned: Seq<AssignedNoteAndChannel>,
    ch: int,
    n: int,
) -> int
    decreases n,
{
    if n <= 0 {
        0
    } else {
        count_on(keys, assigned, ch, n - 1) + if counts_toward(keys, assigned, ch, n - 1) {
            1int
        } else {
            0int
        }
    }
}

/// Changing one key changes each count by at most its own contribution.
proof fn lemma_count_update(
    keys: Seq<KeyState>,
    assigned: Seq<AssignedNoteAndChannel>,
    keys2: Seq<KeyState>,
    assigned2: Seq<AssignedNoteAndChannel>,
    ch: int,
    k: int,
    n: int,
)
    requires
        0 <= k < n,
        forall|j: int|
            0 <= j < n && j != k ==> counts_toward(keys2, assigned2, ch, j) == counts_toward(
                keys,
                assigned,
                ch,
                j,
            ),
    ensures
        count_on(keys2, assigned2, ch, n) == count_on(keys, assigned, ch, n) - (if counts_toward(
            keys,
            assigned,
            ch,
            k,
        ) {
            1int
        } else {
            0int
        }) + (if counts_toward(keys2, assigned2, ch, k) {
            1int
        } else {
            0int
        }),
    decreases n,
{
    if n - 1 > k {
        lemma_count_update(keys, assigned, keys2, assigned2, ch, k, n - 1);
    } else {
        lemma_count_same(keys, assigned, keys2, assigned2, ch, n - 1);
    }
}

/// Counts agree where the contributions agree.
proof fn lemma_count_same(
    keys: Seq<KeyState>,
    assigned: Seq<AssignedNoteAndChannel>,
    keys2: Seq<KeyState>,
    assigned2: Seq<AssignedNoteAndChannel>,
    ch: int,
    n: int,
)
    requires
        forall|j: int|
            0 <= j < n ==> counts_toward(keys2, assigned2, ch, j) == counts_toward(
                keys,
                assigned,
                ch,
                j,
            ),
    ensures
        count_on(keys2, assigned2, ch, n) == count_on(keys, assigned, ch, n),
    decreases n,
{
    if n > 0 {
        lemma_count_same(keys, assigned, keys2, assigned2, ch, n - 1);
    }
}

/// Counts only drop where contributions only drop.
proof fn lemma_count_mono(
    keys: Seq<KeyState>,
    assigned: Seq<AssignedNoteAndChannel>,
    keys2: Seq<KeyState>,
    assigned2: Seq<AssignedNoteAndChannel>,
    ch: int,
    n: int,
)
    requires
        forall|j: int|
            0 <= j < n ==> counts_toward(keys2, assigned2, ch, j) ==> counts_toward(
                keys,
                assigned,
                ch,
                j,
            ),
    ensures
        count_on(keys2, assigned2, ch, n) <= count_on(keys, assigned, ch, n),
    decreases n,
{
    if n > 0 {
        lemma_count_mono(keys, assigned, keys2, assigned2, ch, n - 1);
    }
}

/// A key that counts makes the count positive.
proof fn lemma_count_pos(
    keys: Seq<KeyState>,
    assigned: Seq<AssignedNoteAndChannel>,
    ch: int,
    k: int,
    n: int,
)
    requires
        0 <= k < n,
        counts_toward(keys, assigned, ch, k),
    ensures
        count_on(keys, assigned, ch, n) >= 1,
    decreases n,
{
    lemma_count_nonneg(keys, assigned, ch, n - 1);
    if k < n - 1 {
        lemma_count_pos(keys, assigned, ch, k, n - 1);
    }
}

proof fn lemma_count_nonneg(
    keys: Seq<KeyState>,
    assigned: Seq<AssignedNoteAndChannel>,
    ch: int,
    n: int,
)
    ensures
        count_on(keys, assigned, ch, n) >= 0,
    decreases n,
{
    if n > 0 {
        lemma_count_nonneg(keys, assigned, ch, n - 1);
    }
}

/// The backend's state.
pub struct Pitchbend {
    config: PitchbendConfig,
    key_state: Vec<KeyState>,
    /// pertains to input channels
    pedal_hold: Vec<bool>,
    channels_with_info: Vec<ChannelWithInfo>,
    assigned: Vec<AssignedNoteAndChannel>,
}

impl Pitchbend {
    pub closed spec fn spec_config(&self) -> Seq<u8> {
        self.config.channels@
    }

    /// The state of each of the 128 keys.
    pub closed spec fn spec_keys(&self) -> Seq<KeyState> {
        self.key_state@
    }

    /// Whether the sustain pedal is held, for each of the 16 input channels.
    pub closed spec fn spec_pedal(&self) -> Seq<bool> {
        self.pedal_hold@
    }

    /// The output channels.
    pub closed spec fn spec_channels(&self) -> Seq<ChannelWithInfo> {
        self.channels_with_info@
    }

    /// The output channel and note of each of the 128 keys.
    pub closed spec fn spec_assigned(&self) -> Seq<AssignedNoteAndChannel> {
        self.assigned@
    }

    pub open spec fn is_sounding(&self, note: u8) -> bool {
        self.spec_keys()[note as int].spec_is_sounding()
    }

    /// The invariant of the state. Every channel counts at least as many active notes as there
    /// are sounding keys that were started on it.
    pub open spec fn wf(&self) -> bool {
        &&& self.spec_keys().len() == 128
        &&& self.spec_pedal().len() == 16
        &&& self.spec_assigned().len() == 128
        &&& self.spec_channels().len() == self.spec_config().len()
        &&& forall|i: int|
            0 <= i < self.spec_config().len() ==> #[trigger] self.spec_config()[i] < 16
                && self.spec_channels()[i].channel == self.spec_config()[i]
        &&& self.spec_channels().len() > 0 ==> forall|k: int|
            0 <= k < 128 ==> #[trigger] self.spec_assigned()[k].channel_index
                < self.spec_channels().len()
        &&& forall|k: int|
            0 <= k < 128 && #[trigger] self.spec_keys()[k].spec_is_sounding() ==> self.spec_channels().len() > 0
        &&& forall|i: int|
            0 <= i < self.spec_channels().len() ==> count_on(
                self.spec_keys(),
                self.spec_assigned(),
                i,
                128,
            ) <= (#[trigger] self.spec_channels()[i]).n_active_notes
    }

    /// The state of a backend that was just started: nothing sounds, no pedal is held, every
    /// channel is unbent and unused, and every key is assigned its own note on the first channel.
    pub open spec fn is_fresh(&self) -> bool {
        &&& forall|k: int| 0 <= k < 128 ==> #[trigger] self.spec_keys()[k].channels() == (0u16, 0u16)
        &&& self.spec_pedal() == Seq::new(16, |i: int| false)
        &&& self.spec_assigned() == Seq::new(
            128,
            |k: int| AssignedNoteAndChannel { channel_index: 0, note: k as u8 },
        )
        &&& self.spec_channels() == Seq::new(
            self.spec_config().len(),
            |i: int|
                ChannelWithInfo {
                    channel: self.spec_config()[i],
                    bend: center_bend(),
                    n_active_notes: 0,
                },
        )
    }

    pub fn new(config: &PitchbendConfig) -> (s: Self)
        requires
            forall|i: int| 0 <= i < config.channels@.len() ==> #[trigger] config.channels@[i] < 16,
        ensures
            s.wf(),
            s.spec_config() == config.channels@,
            s.is_fresh(),
    {
        let now = now();
        let mut key_state: Vec<KeyState> = Vec::new();
        let mut assigned: Vec<AssignedNoteAndChannel> = Vec::new();
        let mut k: usize = 0;
        while k < 128
            invariant
                k <= 128,
                key_state@.len() == k,
                assigned@.len() == k,
                forall|j: int| 0 <= j < k ==> #[trigger] key_state@[j].channels() == (0u16, 0u16),
                forall|j: int|
                    0 <= j < k ==> #[trigger] assigned@[j] == (AssignedNoteAndChannel {
                        channel_index: 0,
                        note: j as u8,
                    }),
            decreases 128 - k,
        {
            key_state.push(KeyState::new(now));
            assigned.push(AssignedNoteAndChannel { channel_index: 0, note: k as u8 });
            k = k + 1;
        }
        let mut pedal_hold: Vec<bool> = Vec::new();
        let mut c: usize = 0;
        while c < 16
            invariant
                c <= 16,
                pedal_hold@ == Seq::new(c as nat, |i: int| false),
            decreases 16 - c,
        {
            pedal_hold.push(false);
            c = c + 1;
        }
        let mut channels_with_info: Vec<ChannelWithInfo> = Vec::new();
        let mut i: usize = 0;
        while i < config.channels.len()
            invariant
                i <= config.channels@.len(),
                channels_with_info@ == Seq::new(
                    i as nat,
                    |j: int|
                        ChannelWithInfo {
                            channel: config.channels@[j],
                            bend: center_bend(),
                            n_active_notes: 0,
                        },
                ),
            decreases config.channels@.len() - i,
        {
            channels_with_info.push(
                ChannelWithInfo { channel: config.channels[i], bend: 8192, n_active_notes: 0 },
            );
            i = i + 1;
        }
        let channels = config.channels.clone();
        let s = Self {
            config: PitchbendConfig { channels },
            key_state,
            pedal_hold,
            channels_with_info,
            assigned,
        };
        proof {
            assert(s.spec_assigned() =~= Seq::new(
                128,
                |k: int| AssignedNoteAndChannel { channel_index: 0, note: k as u8 },
            ));
            assert forall|i: int| 0 <= i < s.spec_channels().len() implies count_on(
                s.spec_keys(),
                s.spec_assigned(),
                i,
                128,
            ) <= (#[trigger] s.spec_channels()[i]).n_active_notes by {
                lemma_count_none(s.spec_keys(), s.spec_assigned(), i, 128);
            }
        }
        s
    }
}


/// What is sent when the sounding key `note`, played as `a.note` on the channel `a.channel_index`,
/// is to get the bend `bend`: nothing if the channel has that bend already.
pub open spec fn bend_outputs(
    chs: Seq<ChannelWithInfo>,
    a: AssignedNoteAndChannel,
    note: u8,
    bend: u16,
) -> Seq<BackendOutput> {
    let ch = chs[a.channel_index as int];
    if ch.bend == bend {
        seq![]
    } else {
        seq![
            midi(ch.channel, ChannelMsg::PitchBend { bend }),
            BackendOutput::BendSent { note, assigned_note: a.note, bend },
        ]
    }
}

/// What is sent on every output channel when the backend starts or is reset: the bend of a fresh
/// channel, a released pedal, and "all sound off".
pub open spec fn reset_outputs(chs: Seq<ChannelWithInfo>) -> Seq<BackendOutput> {
    Seq::new(
        (3 * chs.len()) as nat,
        |j: int|
            {
                let ch = chs[j / 3];
                if j % 3 == 0 {
                    midi(ch.channel, ChannelMsg::PitchBend { bend: ch.bend })
                } else if j % 3 == 1 {
                    midi(ch.channel, ChannelMsg::Hold { value: 0 })
                } else {
                    midi(ch.channel, ChannelMsg::AllSoundOff)
                }
            },
    )
}

/// The same message on every output channel.
pub open spec fn on_every_channel(chs: Seq<ChannelWithInfo>, msg: ChannelMsg) -> Seq<BackendOutput> {
    Seq::new(chs.len(), |i: int| midi(chs[i].channel, msg))
}

impl Pitchbend {
    /// Everything but the keys and the output channels is unchanged.
    pub open spec fn same_settings(&self, other: &Self) -> bool {
        &&& self.spec_config() == other.spec_config()
        &&& self.spec_pedal() == other.spec_pedal()
        &&& self.spec_assigned() == other.spec_assigned()
    }

    /// The effect of a key press with the given tunings: see [PitchbendEvent::TunedNoteOn].
    pub open spec fn tuned_note_on_spec(
        old: Self,
        new: Self,
        out: Seq<BackendOutput>,
        input_channel: u8,
        note: u8,
        velocity: u8,
        closest_note: u8,
        bend: u16,
        retune_bend: u16,
        time: Instant,
    ) -> bool {
        let n = note as int;
        let a = old.spec_assigned()[n];
        let chs = old.spec_channels();
        let ks = old.spec_keys()[n];
        &&& new.wf()
        &&& new.spec_config() == old.spec_config()
        &&& new.spec_pedal() == old.spec_pedal()
        &&& new.spec_keys() == old.spec_keys().update(n, new.spec_keys()[n])
        &&& new.spec_keys()[n].channels() == after_note_on(
            ks.channels().0,
            ks.channels().1,
            input_channel,
        )
        &&& if old.is_sounding(note) {
            &&& out == seq![
                midi(chs[a.channel_index as int].channel, ChannelMsg::NoteOn { note: a.note, velocity }),
            ] + bend_outputs(chs, a, note, retune_bend)
            &&& new.spec_keys()[n].spec_last_change() == ks.spec_last_change()
            &&& new.spec_channels() == chs
            &&& new.spec_assigned() == old.spec_assigned()
        } else {
            let i = note_on_channel(chs, bend);
            &&& out == note_on_outputs(chs, note, velocity, closest_note, bend)
            &&& new.spec_channels() == channels_after_note_on(chs, bend)
            &&& new.spec_assigned() == old.spec_assigned().update(n, new.spec_assigned()[n])
            &&& new.spec_assigned()[n].channel_index == i
            &&& new.spec_assigned()[n].note == closest_note
            &&& new.spec_keys()[n].spec_last_change() == time
        }
    }

    /// The effect of a key release: see [PitchbendEvent::NoteOff].
    pub open spec fn note_off_spec(
        old: Self,
        new: Self,
        out: Seq<BackendOutput>,
        input_channel: u8,
        note: u8,
        velocity: u8,
        time: Instant,
    ) -> bool {
        let n = note as int;
        let a = old.spec_assigned()[n];
        let chs = old.spec_channels();
        let ks = old.spec_keys()[n];
        let after = after_note_off(
            ks.channels().0,
            ks.channels().1,
            input_channel,
            old.spec_pedal()[input_channel as int],
        );
        let stopped = ks.spec_is_sounding() && !sounding(after);
        let ch = chs[a.channel_index as int];
        &&& new.wf()
        &&& new.same_settings(&old)
        &&& new.spec_keys() == old.spec_keys().update(n, new.spec_keys()[n])
        &&& new.spec_keys()[n].channels() == after
        &&& new.spec_keys()[n].spec_last_change() == if stopped {
            time
        } else {
            ks.spec_last_change()
        }
        &&& out == if stopped {
            seq![midi(ch.channel, ChannelMsg::NoteOff { note: a.note, velocity })]
        } else {
            seq![]
        }
        &&& new.spec_channels() == if stopped {
            chs.update(
                a.channel_index as int,
                ChannelWithInfo {
                    channel: ch.channel,
                    bend: ch.bend,
                    n_active_notes: (ch.n_active_notes - 1) as u8,
                },
            )
        } else {
            chs
        }
    }

    /// The effect of a retuning: see [PitchbendEvent::Retune]. The channel's recorded bend stays
    /// as it was.
    pub open spec fn retune_spec(old: Self, new: Self, out: Seq<BackendOutput>, note: u8, bend: u16) -> bool {
        &&& new == old
        &&& out == if old.is_sounding(note) {
            bend_outputs(old.spec_channels(), old.spec_assigned()[note as int], note, bend)
        } else {
            seq![]
        }
    }

    /// The effect of the sustain pedal on input channel `channel`: see [PitchbendEvent::PedalHold].
    pub open spec fn pedal_spec(
        old: Self,
        new: Self,
        out: Seq<BackendOutput>,
        channel: u8,
        value: u8,
        time: Instant,
    ) -> bool {
        &&& new.wf()
        &&& new.spec_config() == old.spec_config()
        &&& new.spec_assigned() == old.spec_assigned()
        &&& new.spec_channels() == old.spec_channels()
        &&& new.spec_pedal() == old.spec_pedal().update(channel as int, value != 0)
        &&& out == on_every_channel(old.spec_channels(), ChannelMsg::Hold { value })
        &&& new.spec_keys().len() == 128
        &&& value != 0 ==> new.spec_keys() == old.spec_keys()
        &&& value == 0 ==> forall|k: int|
            0 <= k < 128 ==> {
                let ks = #[trigger] old.spec_keys()[k];
                let after = after_pedal_off(ks.channels().0, ks.channels().1, channel);
                &&& new.spec_keys()[k].channels() == after
                &&& new.spec_keys()[k].spec_last_change() == if ks.spec_is_sounding() && !sounding(
                    after,
                ) {
                    time
                } else {
                    ks.spec_last_change()
                }
            }
    }

    /// The effect of a start or a reset: the backend is fresh again, every channel is unbent,
    /// and unpedalled, and silenced.
    pub open spec fn reset_spec(old: Self, new: Self, out: Seq<BackendOutput>) -> bool {
        &&& new.wf()
        &&& new.spec_config() == old.spec_config()
        &&& new.is_fresh()
        &&& out == reset_outputs(new.spec_channels())
    }
}


/// Once found, the first channel with a bend stays the first.
proof fn lemma_first_with_bend_stable(chs: Seq<ChannelWithInfo>, bend: u16, m: int, n: int)
    requires
        0 <= m <= n,
        first_with_bend(chs, bend, m) is Some,
    ensures
        first_with_bend(chs, bend, n) == first_with_bend(chs, bend, m),
    decreases n - m,
{
    if m < n {
        lemma_first_with_bend_stable(chs, bend, m, n - 1);
    }
}

/// Once found, the first unused channel stays the first.
proof fn lemma_first_unused_stable(chs: Seq<ChannelWithInfo>, m: int, n: int)
    requires
        0 <= m <= n,
        first_unused(chs, m) is Some,
    ensures
        first_unused(chs, n) == first_unused(chs, m),
    decreases n - m,
{
    if m < n {
        lemma_first_unused_stable(chs, m, n - 1);
    }
}

/// What the searches find lies among the channels searched.
proof fn lemma_found_in_range(chs: Seq<ChannelWithInfo>, bend: u16, n: int)
    requires
        1 <= n <= chs.len(),
    ensures
        0 <= closest_bend(chs, bend, n) < n,
        first_with_bend(chs, bend, n) matches Some(i) ==> 0 <= i < n && chs[i].bend == bend,
        first_unused(chs, n) matches Some(i) ==> 0 <= i < n && chs[i].n_active_notes == 0,
    decreases n,
{
    if n > 1 {
        lemma_found_in_range(chs, bend, n - 1);
    } else {
        assert(first_with_bend(chs, bend, 0) is None);
        assert(first_unused(chs, 0) is None);
    }
}

/// The closest bend among the first `n` channels: no channel before it is as close, and none of
/// the first `n` is closer.
proof fn lemma_closest_bend(chs: Seq<ChannelWithInfo>, bend: u16, n: int)
    requires
        1 <= n <= chs.len(),
    ensures
        0 <= closest_bend(chs, bend, n) < n,
        forall|j: int| 0 <= j < n ==> dist(chs[closest_bend(chs, bend, n)].bend, bend) <= dist(#[trigger] chs[j].bend, bend),
        forall|j: int| 0 <= j < closest_bend(chs, bend, n) ==> dist(chs[closest_bend(chs, bend, n)].bend, bend) < dist(
            #[trigger] chs[j].bend,
            bend,
        ),
    decreases n,
{
    if n > 1 {
        lemma_closest_bend(chs, bend, n - 1);
    }
}

/// The first channel with the bend among the first `n`, if there is one.
proof fn lemma_first_with_bend(chs: Seq<ChannelWithInfo>, bend: u16, n: int)
    requires
        0 <= n <= chs.len(),
    ensures
        first_with_bend(chs, bend, n) matches Some(i) ==> 0 <= i < n && chs[i].bend == bend && forall|j: int|
            0 <= j < i ==> (#[trigger] chs[j]).bend != bend,
        first_with_bend(chs, bend, n) is None ==> forall|j: int| 0 <= j < n ==> (#[trigger] chs[j]).bend != bend,
    decreases n,
{
    if n > 0 {
        lemma_first_with_bend(chs, bend, n - 1);
    }
}

/// The first unused channel among the first `n`, if there is one.
proof fn lemma_first_unused(chs: Seq<ChannelWithInfo>, n: int)
    requires
        0 <= n <= chs.len(),
    ensures
        first_unused(chs, n) matches Some(i) ==> 0 <= i < n && chs[i].n_active_notes == 0 && forall|j: int|
            0 <= j < i ==> (#[trigger] chs[j]).n_active_notes != 0,
        first_unused(chs, n) is None ==> forall|j: int| 0 <= j < n ==> (#[trigger] chs[j]).n_active_notes != 0,
    decreases n,
{
    if n > 0 {
        lemma_first_unused(chs, n - 1);
    }
}

/// Where a key that is not sounding is started: on the first output channel that has the
/// requested bend already; if none has, on the first channel on which no note is active; if every
/// channel is in use, on the first channel whose bend is closest to the requested one, that is: no
/// channel's bend is closer, and every channel before it is farther.
pub proof fn law_note_on_channel(chs: Seq<ChannelWithInfo>, bend: u16)
    requires
        chs.len() > 0,
    ensures
        ({
            let i = note_on_channel(chs, bend);
            &&& 0 <= i < chs.len()
            &&& (exists|j: int| 0 <= j < chs.len() && (#[trigger] chs[j]).bend == bend) ==> {
                &&& chs[i].bend == bend
                &&& forall|j: int| 0 <= j < i ==> (#[trigger] chs[j]).bend != bend
            }
            &&& (forall|j: int| 0 <= j < chs.len() ==> (#[trigger] chs[j]).bend != bend) && (exists|j: int|
                0 <= j < chs.len() && (#[trigger] chs[j]).n_active_notes == 0) ==> {
                &&& chs[i].n_active_notes == 0
                &&& forall|j: int| 0 <= j < i ==> (#[trigger] chs[j]).n_active_notes != 0
            }
            &&& (forall|j: int| 0 <= j < chs.len() ==> (#[trigger] chs[j]).bend != bend) && (forall|j: int|
                0 <= j < chs.len() ==> (#[trigger] chs[j]).n_active_notes != 0) ==> {
                &&& forall|j: int| 0 <= j < chs.len() ==> dist(chs[i].bend, bend) <= dist(#[trigger] chs[j].bend, bend)
                &&& forall|j: int| 0 <= j < i ==> dist(chs[i].bend, bend) < dist(#[trigger] chs[j].bend, bend)
            }
        }),
{
    let n = chs.len() as int;
    lemma_first_with_bend(chs, bend, n);
    lemma_first_unused(chs, n);
    lemma_closest_bend(chs, bend, n);
}

impl Pitchbend {
    /// The first output channel whose bend is `bend`.
    fn find_bend(&self, bend: u16) -> (r: Option<usize>)
        ensures
            r matches Some(i) ==> first_with_bend(self.spec_channels(), bend, self.spec_channels().len() as int) == Some(i as int),
            r is None ==> first_with_bend(self.spec_channels(), bend, self.spec_channels().len() as int) is None,
    {
        let n = self.channels_with_info.len();
        let mut i: usize = 0;
        while i < n
            invariant
                n == self.spec_channels().len(),
                i <= n,
                first_with_bend(self.spec_channels(), bend, i as int) is None,
            decreases n - i,
        {
            if self.channels_with_info[i].bend == bend {
                proof {
                    lemma_first_with_bend_stable(self.spec_channels(), bend, i + 1, n as int);
                }
                return Some(i);
            }
            i = i + 1;
        }
        None
    }

    /// The first output channel on which no note is active.
    fn find_unused(&self) -> (r: Option<usize>)
        ensures
            r matches Some(i) ==> first_unused(self.spec_channels(), self.spec_channels().len() as int) == Some(i as int),
            r is None ==> first_unused(self.spec_channels(), self.spec_channels().len() as int) is None,
    {
        let n = self.channels_with_info.len();
        let mut i: usize = 0;
        while i < n
            invariant
                n == self.spec_channels().len(),
                i <= n,
                first_unused(self.spec_channels(), i as int) is None,
            decreases n - i,
        {
            if self.channels_with_info[i].n_active_notes == 0 {
                proof {
                    lemma_first_unused_stable(self.spec_channels(), i + 1, n as int);
                }
                return Some(i);
            }
            i = i + 1;
        }
        None
    }

    /// The first output channel whose bend is closest to `bend`.
    fn find_closest(&self, bend: u16) -> (r: usize)
        requires
            self.spec_channels().len() > 0,
        ensures
            r == closest_bend(self.spec_channels(), bend, self.spec_channels().len() as int),
            r < self.spec_channels().len(),
            forall|j: int|
                0 <= j < self.spec_channels().len() ==> dist(self.spec_channels()[r as int].bend, bend) <= dist(
                    #[trigger] self.spec_channels()[j].bend,
                    bend,
                ),
            forall|j: int|
                0 <= j < r ==> dist(self.spec_channels()[r as int].bend, bend) < dist(
                    #[trigger] self.spec_channels()[j].bend,
                    bend,
                ),
    {
        proof {
            lemma_closest_bend(self.spec_channels(), bend, self.spec_channels().len() as int);
        }
        let n = self.channels_with_info.len();
        let mut best_bend_index: usize = 0;
        let mut best_bend = self.channels_with_info[0].bend;
        let mut i: usize = 1;
        while i < n
            invariant
                n == self.spec_channels().len(),
                1 <= i <= n,
                best_bend_index == closest_bend(self.spec_channels(), bend, i as int),
                best_bend_index < i,
                best_bend == self.spec_channels()[best_bend_index as int].bend,
            decreases n - i,
        {
            let new_bend = self.channels_with_info[i].bend;
            let d_new: u16 = if new_bend >= bend { new_bend - bend } else { bend - new_bend };
            let d_best: u16 = if best_bend >= bend { best_bend - bend } else { bend - best_bend };
            if d_new < d_best {
                best_bend_index = i;
                best_bend = new_bend;
            }
            i = i + 1;
        }
        best_bend_index
    }

    /// The output channel on which a key that is not sounding is started with the bend `bend`.
    pub fn next_note_on_channel(&self, bend: u16) -> (i: usize)
        requires
            self.spec_channels().len() > 0,
        ensures
            i == note_on_channel(self.spec_channels(), bend),
            i < self.spec_channels().len(),
    {
        proof {
            lemma_found_in_range(self.spec_channels(), bend, self.spec_channels().len() as int);
        }
        match self.find_bend(bend) {
            Some(i) => i,
            None => match self.find_unused() {
                Some(i) => i,
                None => self.find_closest(bend),
            },
        }
    }

    /// Whether the key `note` is sounding.
    pub fn key_is_sounding(&self, note: u8) -> (b: bool)
        requires
            self.wf(),
            note < 128,
        ensures
            b == self.is_sounding(note),
    {
        self.key_state[note as usize].is_sounding()
    }

    /// The number of output channels.
    pub fn num_channels(&self) -> (n: usize)
        ensures
            n == self.spec_channels().len(),
    {
        self.channels_with_info.len()
    }

    /// The output channel `i`.
    pub fn channel(&self, i: usize) -> (c: ChannelWithInfo)
        requires
            i < self.spec_channels().len(),
        ensures
            c == self.spec_channels()[i as int],
    {
        self.channels_with_info[i]
    }

    /// The output channel and note of the key `note`.
    pub fn assignment(&self, note: u8) -> (a: AssignedNoteAndChannel)
        requires
            self.wf(),
            note < 128,
        ensures
            a == self.spec_assigned()[note as int],
    {
        self.assigned[note as usize]
    }

    /// What to send to give the sounding key `note` the bend `bend`; nothing if it does not
    /// sound or its channel has that bend already.
    pub fn send_retune(&self, note: u8, bend: u16) -> (out: Vec<BackendOutput>)
        requires
            self.wf(),
            note < 128,
        ensures
            Self::retune_spec(*self, *self, out@, note, bend),
    {
        let mut out: Vec<BackendOutput> = Vec::new();
        if !self.key_state[note as usize].is_sounding() {
            assert(out@ =~= seq![]);
            return out;
        }
        let a = self.assigned[note as usize];
        let ch = self.channels_with_info[a.channel_index];
        if ch.bend == bend {
            assert(out@ =~= seq![]);
            return out;
        }
        out.push(
            BackendOutput::Midi(
                OutgoingMsg { channel: ch.channel, msg: ChannelMsg::PitchBend { bend } },
            ),
        );
        out.push(BackendOutput::BendSent { note, assigned_note: a.note, bend });
        assert(out@ =~= bend_outputs(self.spec_channels(), a, note, bend));
        out
    }
}


impl Pitchbend {
    /// The key `note` was pressed on the input channel `input_channel`.
    ///
    /// If it is sounding already, it is struck again on its channel, and its channel gets the
    /// bend `retune_bend`. Otherwise it is played as `closest_note` with the bend `bend`: on the
    /// first channel that has that bend already; else on the first unused channel, which gets the
    /// bend; else on the channel whose bend is closest, which is reported.
    pub fn send_tuned_note_on(
        &mut self,
        input_channel: u8,
        note: u8,
        velocity: u8,
        closest_note: u8,
        bend: u16,
        retune_bend: u16,
        time: Instant,
    ) -> (out: Vec<BackendOutput>)
        requires
            old(self).wf(),
            input_channel < 16,
            note < 128,
            old(self).is_sounding(note) || old(self).spec_channels().len() > 0,
            old(self).is_sounding(note) || old(self).spec_channels()[note_on_channel(
                old(self).spec_channels(),
                bend,
            )].n_active_notes < 255,
        ensures
            Self::tuned_note_on_spec(
                *old(self),
                *final(self),
                out@,
                input_channel,
                note,
                velocity,
                closest_note,
                bend,
                retune_bend,
                time,
            ),
    {
        let nu = note as usize;
        if self.key_state[nu].is_sounding() {
            let ghost old_self = *self;
            // the key now also sounds on this input channel
            let mut ks = self.key_state[nu];
            ks.note_on(input_channel, time);
            self.key_state.set(nu, ks);
            proof {
                assert(self.spec_keys() =~= old_self.spec_keys().update(note as int, ks));
                assert forall|j: int| 0 <= j < self.spec_channels().len() implies count_on(
                    self.spec_keys(),
                    self.spec_assigned(),
                    j,
                    128,
                ) <= (#[trigger] self.spec_channels()[j]).n_active_notes by {
                    lemma_count_update(
                        old_self.spec_keys(),
                        old_self.spec_assigned(),
                        self.spec_keys(),
                        self.spec_assigned(),
                        j,
                        note as int,
                        128,
                    );
                    assert(old_self.spec_channels()[j].n_active_notes >= count_on(
                        old_self.spec_keys(),
                        old_self.spec_assigned(),
                        j,
                        128,
                    ));
                }
                assert(self.wf());
            }
            let a = self.assigned[nu];
            let c = self.channels_with_info[a.channel_index].channel;
            let mut out: Vec<BackendOutput> = Vec::new();
            out.push(
                BackendOutput::Midi(
                    OutgoingMsg { channel: c, msg: ChannelMsg::NoteOn { note: a.note, velocity } },
                ),
            );
            let mut more = self.send_retune(note, retune_bend);
            out.append(&mut more);
            return out;
        }
        let ghost old_self = *self;
        let ghost chs = self.spec_channels();
        let mut ks = self.key_state[nu];
        ks.note_on(input_channel, time);
        self.key_state.set(nu, ks);

        let mut out: Vec<BackendOutput> = Vec::new();
        let i = self.next_note_on_channel(bend);
        let mut ch = self.channels_with_info[i];
        match self.find_bend(bend) {
            Some(_) => {
                out.push(
                    BackendOutput::Midi(
                        OutgoingMsg {
                            channel: ch.channel,
                            msg: ChannelMsg::NoteOn { note: closest_note, velocity },
                        },
                    ),
                );
            },
            None => match self.find_unused() {
                Some(_) => {
                    out.push(
                        BackendOutput::Midi(
                            OutgoingMsg { channel: ch.channel, msg: ChannelMsg::PitchBend { bend } },
                        ),
                    );
                    out.push(
                        BackendOutput::Midi(
                            OutgoingMsg {
                                channel: ch.channel,
                                msg: ChannelMsg::NoteOn { note: closest_note, velocity },
                            },
                        ),
                    );
                    ch.bend = bend;
                },
                None => {
                    out.push(
                        BackendOutput::Midi(
                            OutgoingMsg {
                                channel: ch.channel,
                                msg: ChannelMsg::NoteOn { note: closest_note, velocity },
                            },
                        ),
                    );
                    out.push(BackendOutput::ClosestBendUsed { note, closest_note, bend: ch.bend });
                },
            },
        }
        ch.n_active_notes = ch.n_active_notes + 1;
        self.channels_with_info.set(i, ch);
        self.assigned.set(nu, AssignedNoteAndChannel { channel_index: i, note: closest_note });
        proof {
            assert(self.spec_assigned() =~= old_self.spec_assigned().update(note as int, self.spec_assigned()[note as int]));
            assert(out@ =~= note_on_outputs(chs, note, velocity, closest_note, bend));
            assert(self.spec_channels() =~= channels_after_note_on(chs, bend));
            assert(self.spec_keys() =~= old_self.spec_keys().update(note as int, self.spec_keys()[note as int]));
            assert forall|j: int| 0 <= j < self.spec_channels().len() implies count_on(
                self.spec_keys(),
                self.spec_assigned(),
                j,
                128,
            ) <= (#[trigger] self.spec_channels()[j]).n_active_notes by {
                lemma_count_update(
                    old_self.spec_keys(),
                    old_self.spec_assigned(),
                    self.spec_keys(),
                    self.spec_assigned(),
                    j,
                    note as int,
                    128,
                );
                assert(old_self.spec_channels()[j].n_active_notes >= count_on(
                    old_self.spec_keys(),
                    old_self.spec_assigned(),
                    j,
                    128,
                ));
            }
        }
        out
    }
}


impl Pitchbend {
    /// The key `note` was released on the input channel `input_channel`. If it stops sounding
    /// (the pedal is not held on that channel, and it is not pressed on another one), it is
    /// released on its channel.
    pub fn send_note_off(&mut self, input_channel: u8, note: u8, velocity: u8, time: Instant) -> (out: Vec<BackendOutput>)
        requires
            old(self).wf(),
            input_channel < 16,
            note < 128,
            old(self).spec_channels().len() > 0,
        ensures
            Self::note_off_spec(*old(self), *final(self), out@, input_channel, note, velocity, time),
    {
        let ghost old_self = *self;
        let nu = note as usize;
        let output_channel_index = self.assigned[nu].channel_index;
        let output_note = self.assigned[nu].note;
        let mut ch = self.channels_with_info[output_channel_index];
        let mut out: Vec<BackendOutput> = Vec::new();
        let mut ks = self.key_state[nu];
        let stopped = ks.note_off(input_channel, self.pedal_hold[input_channel as usize], time);
        self.key_state.set(nu, ks);
        proof {
            assert(self.spec_keys() =~= old_self.spec_keys().update(note as int, self.spec_keys()[note as int]));
            let ghost oks = old_self.spec_keys()[note as int];
            if !oks.spec_is_sounding() {
                law_note_off_keeps_silence(
                    oks.channels().0,
                    oks.channels().1,
                    input_channel,
                    old_self.spec_pedal()[input_channel as int],
                );
            }
        }
        if stopped {
            proof {
                lemma_count_pos(
                    old_self.spec_keys(),
                    old_self.spec_assigned(),
                    output_channel_index as int,
                    note as int,
                    128,
                );
            }
            out.push(
                BackendOutput::Midi(
                    OutgoingMsg {
                        channel: ch.channel,
                        msg: ChannelMsg::NoteOff { note: output_note, velocity },
                    },
                ),
            );
            ch.n_active_notes = ch.n_active_notes - 1;
            self.channels_with_info.set(output_channel_index, ch);
        }
        proof {
            assert forall|j: int| 0 <= j < self.spec_channels().len() implies count_on(
                self.spec_keys(),
                self.spec_assigned(),
                j,
                128,
            ) <= (#[trigger] self.spec_channels()[j]).n_active_notes by {
                lemma_count_update(
                    old_self.spec_keys(),
                    old_self.spec_assigned(),
                    self.spec_keys(),
                    self.spec_assigned(),
                    j,
                    note as int,
                    128,
                );
                assert(old_self.spec_channels()[j].n_active_notes >= count_on(
                    old_self.spec_keys(),
                    old_self.spec_assigned(),
                    j,
                    128,
                ));
            }
            assert(out@ =~= (if stopped {
                seq![midi(ch.channel, ChannelMsg::NoteOff { note: output_note, velocity })]
            } else {
                seq![]
            }));
        }
        out
    }

    /// The sustain pedal of input channel `channel` was set to `value`: the value is sent on
    /// every output channel, and when the pedal is released, the keys that were held by it on
    /// that channel are released.
    pub fn send_pedal_hold(&mut self, channel: u8, value: u8, time: Instant) -> (out: Vec<BackendOutput>)
        requires
            old(self).wf(),
            channel < 16,
        ensures
            Self::pedal_spec(*old(self), *final(self), out@, channel, value, time),
    {
        let ghost old_self = *self;
        let out = self.on_every_channel(ChannelMsg::Hold { value });
        self.pedal_hold.set(channel as usize, value != 0);
        if value == 0 {
            let mut k: usize = 0;
            while k < 128
                invariant
                    old_self.wf(),
                    k <= 128,
                    channel < 16,
                    self.spec_keys().len() == 128,
                    self.spec_config() == old_self.spec_config(),
                    self.spec_assigned() == old_self.spec_assigned(),
                    self.spec_channels() == old_self.spec_channels(),
                    self.spec_pedal() == old_self.spec_pedal().update(channel as int, value != 0),
                    forall|j: int| k <= j < 128 ==> #[trigger] self.spec_keys()[j] == old_self.spec_keys()[j],
                    forall|j: int|
                        0 <= j < k ==> {
                            let ks = #[trigger] old_self.spec_keys()[j];
                            let after = after_pedal_off(ks.channels().0, ks.channels().1, channel);
                            &&& self.spec_keys()[j].channels() == after
                            &&& self.spec_keys()[j].spec_last_change() == if ks.spec_is_sounding()
                                && !sounding(after) {
                                time
                            } else {
                                ks.spec_last_change()
                            }
                            &&& self.spec_keys()[j].spec_is_sounding() ==> ks.spec_is_sounding()
                        },
                decreases 128 - k,
            {
                let mut ks = self.key_state[k];
                proof {
                    if !ks.spec_is_sounding() {
                        law_pedal_off_keeps_silence(ks.channels().0, ks.channels().1, channel);
                    }
                }
                ks.pedal_off(channel, time);
                self.key_state.set(k, ks);
                k = k + 1;
            }
            proof {
                assert forall|j: int| 0 <= j < self.spec_channels().len() implies count_on(
                    self.spec_keys(),
                    self.spec_assigned(),
                    j,
                    128,
                ) <= (#[trigger] self.spec_channels()[j]).n_active_notes by {
                    assert forall|m: int| 0 <= m < 128 && counts_toward(
                        self.spec_keys(),
                        self.spec_assigned(),
                        j,
                        m,
                    ) implies counts_toward(old_self.spec_keys(), old_self.spec_assigned(), j, m) by {
                        assert(old_self.spec_keys()[m] == old_self.spec_keys()[m]);
                    }
                    lemma_count_mono(
                        old_self.spec_keys(),
                        old_self.spec_assigned(),
                        self.spec_keys(),
                        self.spec_assigned(),
                        j,
                        128,
                    );
                    assert(old_self.spec_channels()[j].n_active_notes >= count_on(
                        old_self.spec_keys(),
                        old_self.spec_assigned(),
                        j,
                        128,
                    ));
                }
                assert forall|m: int| 0 <= m < 128 && #[trigger] self.spec_keys()[m].spec_is_sounding() implies self.spec_channels().len() > 0 by {
                    assert(old_self.spec_keys()[m] == old_self.spec_keys()[m]);
                    assert(old_self.spec_keys()[m].spec_is_sounding());
                }
            }
        }
        out
    }

    /// The program `program` is set on every output channel.
    pub fn send_program_change(&self, program: u8) -> (out: Vec<BackendOutput>)
        ensures
            out@ == on_every_channel(self.spec_channels(), ChannelMsg::ProgramChange { program }),
    {
        self.on_every_channel(ChannelMsg::ProgramChange { program })
    }

    fn on_every_channel(&self, msg: ChannelMsg) -> (out: Vec<BackendOutput>)
        ensures
            out@ == on_every_channel(self.spec_channels(), msg),
    {
        let mut out: Vec<BackendOutput> = Vec::new();
        let mut i: usize = 0;
        while i < self.channels_with_info.len()
            invariant
                i <= self.spec_channels().len(),
                out@ == on_every_channel(self.spec_channels().take(i as int), msg),
            decreases self.spec_channels().len() - i,
        {
            out.push(
                BackendOutput::Midi(OutgoingMsg { channel: self.channels_with_info[i].channel, msg }),
            );
            i = i + 1;
            proof {
                assert(out@ =~= on_every_channel(self.spec_channels().take(i as int), msg));
            }
        }
        proof {
            assert(self.spec_channels().take(i as int) =~= self.spec_channels());
        }
        out
    }

    /// Starts afresh: see [Self::reset_spec].
    pub fn reset(&mut self) -> (out: Vec<BackendOutput>)
        requires
            old(self).wf(),
        ensures
            Self::reset_spec(*old(self), *final(self), out@),
    {
        *self = Pitchbend::new(&self.config);
        let mut out: Vec<BackendOutput> = Vec::new();
        let mut i: usize = 0;
        while i < self.channels_with_info.len()
            invariant
                i <= self.spec_channels().len(),
                out@ == reset_outputs(self.spec_channels().take(i as int)),
            decreases self.spec_channels().len() - i,
        {
            let ch = self.channels_with_info[i];
            out.push(
                BackendOutput::Midi(
                    OutgoingMsg { channel: ch.channel, msg: ChannelMsg::PitchBend { bend: ch.bend } },
                ),
            );
            out.push(
                BackendOutput::Midi(
                    OutgoingMsg { channel: ch.channel, msg: ChannelMsg::Hold { value: 0 } },
                ),
            );
            out.push(
                BackendOutput::Midi(OutgoingMsg { channel: ch.channel, msg: ChannelMsg::AllSoundOff }),
            );
            i = i + 1;
            proof {
                assert(out@ =~= reset_outputs(self.spec_channels().take(i as int)));
            }
        }
        proof {
            assert(self.spec_channels().take(i as int) =~= self.spec_channels());
        }
        out
    }
}


impl Pitchbend {
    /// The events on which the backend does not panic.
    pub open spec fn event_ok(&self, ev: PitchbendEvent) -> bool {
        match ev {
            PitchbendEvent::TunedNoteOn { channel, note, bend, .. } => {
                &&& channel < 16
                &&& note < 128
                &&& self.is_sounding(note) || {
                    &&& self.spec_channels().len() > 0
                    &&& self.spec_channels()[note_on_channel(self.spec_channels(), bend)].n_active_notes < 255
                }
            },
            PitchbendEvent::NoteOff { channel, note, .. } => {
                &&& channel < 16
                &&& note < 128
                &&& self.spec_channels().len() > 0
            },
            PitchbendEvent::Retune { note, .. } => note < 128,
            PitchbendEvent::PedalHold { channel, .. } => channel < 16,
            _ => true,
        }
    }

    /// Handles an event: returns what to send, in order.
    pub fn handle_event(&mut self, ev: PitchbendEvent) -> (out: Vec<BackendOutput>)
        requires
            old(self).wf(),
            old(self).event_ok(ev),
        ensures
            final(self).wf(),
            match ev {
                PitchbendEvent::Start => Self::reset_spec(*old(self), *final(self), out@),
                PitchbendEvent::Reset => Self::reset_spec(*old(self), *final(self), out@),
                PitchbendEvent::Stop => *final(self) == *old(self) && out@ == Seq::<BackendOutput>::empty(),
                PitchbendEvent::TunedNoteOn {
                    channel,
                    note,
                    velocity,
                    closest_note,
                    bend,
                    retune_bend,
                    time,
                } => Self::tuned_note_on_spec(
                    *old(self),
                    *final(self),
                    out@,
                    channel,
                    note,
                    velocity,
                    closest_note,
                    bend,
                    retune_bend,
                    time,
                ),
                PitchbendEvent::NoteOff { channel, note, velocity, time } => Self::note_off_spec(
                    *old(self),
                    *final(self),
                    out@,
                    channel,
                    note,
                    velocity,
                    time,
                ),
                PitchbendEvent::Retune { note, bend } => Self::retune_spec(
                    *old(self),
                    *final(self),
                    out@,
                    note,
                    bend,
                ),
                PitchbendEvent::PedalHold { channel, value, time } => Self::pedal_spec(
                    *old(self),
                    *final(self),
                    out@,
                    channel,
                    value,
                    time,
                ),
                PitchbendEvent::ProgramChange { program } => *final(self) == *old(self) && out@
                    == on_every_channel(old(self).spec_channels(), ChannelMsg::ProgramChange { program }),
            },
    {
        match ev {
            PitchbendEvent::Start => self.reset(),
            PitchbendEvent::Reset => self.reset(),
            PitchbendEvent::Stop => Vec::new(),
            PitchbendEvent::TunedNoteOn {
                channel,
                note,
                velocity,
                closest_note,
                bend,
                retune_bend,
                time,
            } => self.send_tuned_note_on(
                channel,
                note,
                velocity,
                closest_note,
                bend,
                retune_bend,
                time,
            ),
            PitchbendEvent::NoteOff { channel, note, velocity, time } => self.send_note_off(
                channel,
                note,
                velocity,
                time,
            ),
            PitchbendEvent::Retune { note, bend } => self.send_retune(note, bend),
            PitchbendEvent::PedalHold { channel, value, time } => self.send_pedal_hold(
                channel,
                value,
                time,
            ),
            PitchbendEvent::ProgramChange { program } => self.send_program_change(program),
        }
    }
}

/// A key that was silent, is pressed on an input channel and released there while that channel's
/// pedal is not held, is released on the output channel and as the output note that it was
/// started with; that channel is left with as many active notes as before.
pub proof fn law_release_where_started(
    s0: Pitchbend,
    s1: Pitchbend,
    s2: Pitchbend,
    out1: Seq<BackendOutput>,
    out2: Seq<BackendOutput>,
    channel: u8,
    note: u8,
    velocity: u8,
    closest_note: u8,
    bend: u16,
    retune_bend: u16,
    time: Instant,
    off_velocity: u8,
    off_time: Instant,
)
    requires
        s0.wf(),
        channel < 16,
        note < 128,
        !s0.is_sounding(note),
        !s0.spec_pedal()[channel as int],
        Pitchbend::tuned_note_on_spec(
            s0,
            s1,
            out1,
            channel,
            note,
            velocity,
            closest_note,
            bend,
            retune_bend,
            time,
        ),
        Pitchbend::note_off_spec(s1, s2, out2, channel, note, off_velocity, off_time),
    ensures
        ({
            let i = note_on_channel(s0.spec_channels(), bend);
            let c = s0.spec_channels()[i].channel;
            &&& out1.contains(midi(c, ChannelMsg::NoteOn { note: closest_note, velocity }))
            &&& out2 == seq![midi(c, ChannelMsg::NoteOff { note: closest_note, velocity: off_velocity })]
            &&& s2.spec_channels()[i].n_active_notes == s0.spec_channels()[i].n_active_notes
            &&& !s2.is_sounding(note)
        }),
{
    let ks = s0.spec_keys()[note as int];
    let bit = crate::keystate::channel_bit(channel);
    assert(ks.channels().0 == 0 && ks.channels().1 == 0);
    assert(((0u16 | bit) & !bit) == 0u16) by (bit_vector);
    assert(channel < 16 ==> (1u16 << channel) != 0u16) by (bit_vector);
    assert((0u16 | bit) != 0u16) by (bit_vector)
        requires
            bit != 0u16,
    ;
    assert(s1.spec_keys()[note as int].spec_is_sounding());
    let chs = s0.spec_channels();
    assert(s1.spec_channels().len() > 0);
    assert(chs.len() > 0);
    let i = note_on_channel(chs, bend);
    lemma_found_in_range(chs, bend, chs.len() as int);
    let on = midi(chs[i].channel, ChannelMsg::NoteOn { note: closest_note, velocity });
    let a = s1.spec_assigned()[note as int];
    assert(a.channel_index == i && a.note == closest_note);
    lemma_count_pos(s1.spec_keys(), s1.spec_assigned(), i, note as int, 128);
    assert(s1.spec_channels()[i].n_active_notes >= 1);
    let x = s0.spec_channels()[i].n_active_notes;
    assert(x == 255u8 ==> ((x + 1) as u8) == 0u8) by (bit_vector);
    assert(s1.spec_channels()[i].n_active_notes == s0.spec_channels()[i].n_active_notes + 1);
    assert(s1.spec_channels()[i].channel == chs[i].channel);
    assert(!s2.spec_keys()[note as int].spec_is_sounding());
    assert(out2 == seq![midi(chs[i].channel, ChannelMsg::NoteOff { note: closest_note, velocity: off_velocity })]);
    assert(out1.contains(on)) by {
        if first_with_bend(chs, bend, chs.len() as int) is None && first_unused(chs, chs.len() as int) is Some {
            assert(out1[1] == on);
        } else {
            assert(out1[0] == on);
        }
    }
}

/// With no key sounding, nothing counts.
proof fn lemma_count_none(
    keys: Seq<KeyState>,
    assigned: Seq<AssignedNoteAndChannel>,
    ch: int,
    n: int,
)
    requires
        n <= keys.len(),
        forall|k: int| 0 <= k < n ==> #[trigger] keys[k].channels() == (0u16, 0u16),
    ensures
        count_on(keys, assigned, ch, n) == 0,
    decreases n,
{
    if n > 0 {
        lemma_count_none(keys, assigned, ch, n - 1);
        assert(keys[n - 1].channels() == (0u16, 0u16));
        assert(!sounding(keys[n - 1].channels()));
    }
}

} // verus!
