//! The MIDI channel messages that the backends send, and their encoding as bytes.
use midi_msg::{Channel, ChannelModeMsg, ChannelVoiceMsg, ControlChange, MidiMsg};
use vstd::prelude::*;

verus! {

/// What is sent on one MIDI channel.
#[derive(Clone, Copy, Debug, PartialEq, Eq, Structural)]
pub enum ChannelMsg {
    NoteOn { note: u8, velocity: u8 },
    NoteOff { note: u8, velocity: u8 },
    PitchBend { bend: u16 },
    /// The sustain pedal.
    Hold { value: u8 },
    ProgramChange { program: u8 },
    AllSoundOff,
}

/// A message on the MIDI channel `channel` (`0` is the first channel).
#[derive(Clone, Copy, Debug, PartialEq, Eq, Structural)]
pub struct OutgoingMsg {
    pub channel: u8,
    pub msg: ChannelMsg,
}

/// A data byte: values above 127 are sent as 127.
pub open spec fn data_byte(x: u8) -> u8 {
    if x > 127 {
        127
    } else {
        x
    }
}

/// The bytes of `m` on the wire: a status byte (the kind of message in the high nibble, the
/// channel in the low one) and the data bytes. A pitch bend is sent least significant seven bits
/// first; bends above 16383 are sent as 16383.
pub open spec fn midi_bytes(m: OutgoingMsg) -> Seq<u8> {
    let c = m.channel;
    match m.msg {
        ChannelMsg::NoteOff { note, velocity } => seq![
            (0x80 + c) as u8,
            data_byte(note),
            data_byte(velocity),
        ],
        ChannelMsg::NoteOn { note, velocity } => seq![
            (0x90 + c) as u8,
            data_byte(note),
            data_byte(velocity),
        ],
        ChannelMsg::Hold { value } => seq![(0xB0 + c) as u8, 64u8, data_byte(value)],
        ChannelMsg::AllSoundOff => seq![(0xB0 + c) as u8, 120u8, 0u8],
        ChannelMsg::ProgramChange { program } => seq![(0xC0 + c) as u8, data_byte(program)],
        ChannelMsg::PitchBend { bend } => if bend > 16383 {
            seq![(0xE0 + c) as u8, 0x7fu8, 0x7fu8]
        } else {
            seq![(0xE0 + c) as u8, (bend % 128) as u8, (bend / 128) as u8]
        },
    }
}

/// `midi_msg::MidiMsg::to_midi` on the `ChannelVoice` or `ChannelMode` message that `m` stands
/// for, on the channel `Channel::from_u8(m.channel)`. The contract claims that the bytes are
/// those of [midi_bytes]: in the crate's source the status byte is the kind plus the channel
/// number, data bytes are capped at 127, a bend is split into two seven-bit halves (capped at
/// 16383), the sustain pedal is controller 64 and "all sound off" is controller 120 with value 0.
#[verifier::external_body]
fn to_midi(m: &OutgoingMsg) -> (bytes: Vec<u8>)
    requires
        m.channel < 16,
    ensures
        bytes@ == midi_bytes(*m),
{
    let channel = Channel::from_u8(m.channel);
    let msg = match m.msg {
        ChannelMsg::NoteOn { note, velocity } => ChannelVoiceMsg::NoteOn { note, velocity },
        ChannelMsg::NoteOff { note, velocity } => ChannelVoiceMsg::NoteOff { note, velocity },
        ChannelMsg::PitchBend { bend } => ChannelVoiceMsg::PitchBend { bend },
        ChannelMsg::Hold { value } => ChannelVoiceMsg::ControlChange { control: ControlChange::Hold(value) },
        ChannelMsg::ProgramChange { program } => ChannelVoiceMsg::ProgramChange { program },
        ChannelMsg::AllSoundOff => return MidiMsg::ChannelMode { channel, msg: ChannelModeMsg::AllSoundOff }.to_midi(),
    };
    MidiMsg::ChannelVoice { channel, msg }.to_midi()
}

impl OutgoingMsg {
    /// The bytes to send.
    pub fn to_bytes(&self) -> (bytes: Vec<u8>)
        requires
            self.channel < 16,
        ensures
            bytes@ == midi_bytes(*self),
    {
        to_midi(self)
    }
}

} // verus!
