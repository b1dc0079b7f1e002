use std::time::Instant;

use adaptuner::backend::midi::{ChannelMsg, OutgoingMsg};
use adaptuner::backend::pitchbend::{
    BackendOutput, Pitchbend, PitchbendConfig, PitchbendEvent,
};
use adaptuner::backend::pitchbend12::{Pitchbend12, Pitchbend12Config, Pitchbend12Event};

fn midi(channel: u8, msg: ChannelMsg) -> BackendOutput {
    BackendOutput::Midi(OutgoingMsg { channel, msg })
}

#[test]
fn midi_encoding() {
    let on = OutgoingMsg { channel: 2, msg: ChannelMsg::NoteOn { note: 60, velocity: 100 } };
    assert_eq!(on.to_bytes(), vec![0x92, 60, 100]);
    let off = OutgoingMsg { channel: 0, msg: ChannelMsg::NoteOff { note: 200, velocity: 0 } };
    assert_eq!(off.to_bytes(), vec![0x80, 127, 0]);
    let bend = OutgoingMsg { channel: 15, msg: ChannelMsg::PitchBend { bend: 8192 + 300 } };
    assert_eq!(bend.to_bytes(), vec![0xEF, ((8192 + 300) % 128) as u8, ((8192 + 300) / 128) as u8]);
    let too_far = OutgoingMsg { channel: 1, msg: ChannelMsg::PitchBend { bend: 20000 } };
    assert_eq!(too_far.to_bytes(), vec![0xE1, 0x7f, 0x7f]);
    let hold = OutgoingMsg { channel: 3, msg: ChannelMsg::Hold { value: 127 } };
    assert_eq!(hold.to_bytes(), vec![0xB3, 64, 127]);
    let program = OutgoingMsg { channel: 4, msg: ChannelMsg::ProgramChange { program: 7 } };
    assert_eq!(program.to_bytes(), vec![0xC4, 7]);
    let silence = OutgoingMsg { channel: 5, msg: ChannelMsg::AllSoundOff };
    assert_eq!(silence.to_bytes(), vec![0xB5, 120, 0]);
}

fn two_channels() -> Pitchbend {
    Pitchbend::new(&PitchbendConfig { channels: vec![0, 1] })
}

fn note_on(note: u8, closest_note: u8, bend: u16) -> PitchbendEvent {
    PitchbendEvent::TunedNoteOn {
        channel: 0,
        note,
        velocity: 90,
        closest_note,
        bend,
        retune_bend: bend,
        time: Instant::now(),
    }
}

#[test]
fn pitchbend_start_resets_every_channel() {
    let mut pb = two_channels();
    let out = pb.handle_event(PitchbendEvent::Start);
    assert_eq!(
        out,
        vec![
            midi(0, ChannelMsg::PitchBend { bend: 8192 }),
            midi(0, ChannelMsg::Hold { value: 0 }),
            midi(0, ChannelMsg::AllSoundOff),
            midi(1, ChannelMsg::PitchBend { bend: 8192 }),
            midi(1, ChannelMsg::Hold { value: 0 }),
            midi(1, ChannelMsg::AllSoundOff),
        ]
    );
    assert!(pb.handle_event(PitchbendEvent::Stop).is_empty());
}

#[test]
fn pitchbend_allocates_channels() {
    let mut pb = two_channels();
    // an untuned note goes to the first channel, which has the right bend already
    assert_eq!(pb.handle_event(note_on(60, 60, 8192)), vec![midi(0, ChannelMsg::NoteOn { note: 60, velocity: 90 })]);
    // a detuned note needs a channel of its own: the first unused one gets the bend
    assert_eq!(
        pb.handle_event(note_on(64, 64, 8000)),
        vec![
            midi(1, ChannelMsg::PitchBend { bend: 8000 }),
            midi(1, ChannelMsg::NoteOn { note: 64, velocity: 90 }),
        ]
    );
    assert_eq!(pb.channel(1).bend, 8000);
    assert_eq!(pb.channel(1).n_active_notes, 1);
    // another note with that bend shares the channel
    assert_eq!(pb.handle_event(note_on(71, 71, 8000)), vec![midi(1, ChannelMsg::NoteOn { note: 71, velocity: 90 })]);
    assert_eq!(pb.channel(1).n_active_notes, 2);
    // all channels are used: the one with the closest bend is taken and reported
    assert_eq!(pb.next_note_on_channel(8100), 0);
    assert_eq!(
        pb.handle_event(note_on(67, 67, 8100)),
        vec![
            midi(0, ChannelMsg::NoteOn { note: 67, velocity: 90 }),
            BackendOutput::ClosestBendUsed { note: 67, closest_note: 67, bend: 8192 },
        ]
    );
    assert_eq!(pb.assignment(67).channel_index, 0);
    // releasing a note releases it where it was started
    let off = pb.handle_event(PitchbendEvent::NoteOff { channel: 0, note: 64, velocity: 0, time: Instant::now() });
    assert_eq!(off, vec![midi(1, ChannelMsg::NoteOff { note: 64, velocity: 0 })]);
    assert_eq!(pb.channel(1).n_active_notes, 1);
}

#[test]
fn pitchbend_retunes_sounding_notes_only() {
    let mut pb = two_channels();
    assert!(pb.handle_event(PitchbendEvent::Retune { note: 60, bend: 9000 }).is_empty());
    pb.handle_event(note_on(60, 59, 8192));
    assert_eq!(pb.assignment(60).note, 59);
    assert_eq!(
        pb.handle_event(PitchbendEvent::Retune { note: 60, bend: 9000 }),
        vec![
            midi(0, ChannelMsg::PitchBend { bend: 9000 }),
            BackendOutput::BendSent { note: 60, assigned_note: 59, bend: 9000 },
        ]
    );
    // the same bend again sends nothing
    assert!(pb.handle_event(PitchbendEvent::Retune { note: 60, bend: 8192 }).is_empty());
    // pressing the sounding key again strikes it again and retunes it
    let again = pb.handle_event(PitchbendEvent::TunedNoteOn {
        channel: 1,
        note: 60,
        velocity: 50,
        closest_note: 61,
        bend: 100,
        retune_bend: 7000,
        time: Instant::now(),
    });
    assert_eq!(
        again,
        vec![
            midi(0, ChannelMsg::NoteOn { note: 59, velocity: 50 }),
            midi(0, ChannelMsg::PitchBend { bend: 7000 }),
            BackendOutput::BendSent { note: 60, assigned_note: 59, bend: 7000 },
        ]
    );
}

#[test]
fn pitchbend_pedal_holds_notes() {
    let mut pb = two_channels();
    pb.handle_event(note_on(60, 60, 8192));
    assert_eq!(
        pb.handle_event(PitchbendEvent::PedalHold { channel: 0, value: 127, time: Instant::now() }),
        vec![midi(0, ChannelMsg::Hold { value: 127 }), midi(1, ChannelMsg::Hold { value: 127 })]
    );
    // released while the pedal is held: still sounding, nothing sent
    let off = pb.handle_event(PitchbendEvent::NoteOff { channel: 0, note: 60, velocity: 0, time: Instant::now() });
    assert!(off.is_empty());
    assert_eq!(
        pb.handle_event(PitchbendEvent::PedalHold { channel: 0, value: 0, time: Instant::now() }),
        vec![midi(0, ChannelMsg::Hold { value: 0 }), midi(1, ChannelMsg::Hold { value: 0 })]
    );
    assert_eq!(
        pb.handle_event(PitchbendEvent::ProgramChange { program: 5 }),
        vec![midi(0, ChannelMsg::ProgramChange { program: 5 }), midi(1, ChannelMsg::ProgramChange { program: 5 })]
    );
}

fn twelve() -> Pitchbend12 {
    Pitchbend12::new(&Pitchbend12Config { channels: vec![0, 1, 2, 3, 4, 5, 6, 7, 8, 10, 11, 12] })
}

#[test]
fn pitchbend12_uses_the_channel_of_the_pitch_class() {
    let mut pb = twelve();
    let out = pb.handle_event(Pitchbend12Event::Reset);
    assert_eq!(out.len(), 36);
    assert_eq!(out[0], OutgoingMsg { channel: 0, msg: ChannelMsg::PitchBend { bend: 8192 } });
    assert_eq!(out[29], OutgoingMsg { channel: 10, msg: ChannelMsg::AllSoundOff });
    assert_eq!(
        pb.handle_event(Pitchbend12Event::NoteOn { channel: 0, note: 69, velocity: 80, time: Instant::now() }),
        vec![OutgoingMsg { channel: 10, msg: ChannelMsg::NoteOn { note: 69, velocity: 80 } }]
    );
    assert_eq!(
        pb.handle_event(Pitchbend12Event::TunedNoteOn {
            channel: 0,
            note: 64,
            velocity: 80,
            bend: 7500,
            time: Instant::now()
        }),
        vec![
            OutgoingMsg { channel: 4, msg: ChannelMsg::NoteOn { note: 64, velocity: 80 } },
            OutgoingMsg { channel: 4, msg: ChannelMsg::PitchBend { bend: 7500 } },
        ]
    );
    assert_eq!(pb.bend_of(76), 7500);
    assert!(pb.handle_event(Pitchbend12Event::Retune { note: 52, bend: 7500 }).is_empty());
    assert_eq!(
        pb.handle_event(Pitchbend12Event::NoteOff { channel: 0, note: 69, velocity: 3, time: Instant::now() }),
        vec![OutgoingMsg { channel: 10, msg: ChannelMsg::NoteOff { note: 69, velocity: 3 } }]
    );
    assert_eq!(
        pb.handle_event(Pitchbend12Event::PedalHold { channel: 2, value: 0, time: Instant::now() }).len(),
        12
    );
    assert!(pb.handle_event(Pitchbend12Event::Stop).is_empty());
}

#[test]
fn pitchbend_note_sounds_while_any_input_channel_holds_it() {
    let mut pb = two_channels();
    let on = |channel: u8| PitchbendEvent::TunedNoteOn {
        channel,
        note: 60,
        velocity: 100,
        closest_note: 60,
        bend: 8192,
        retune_bend: 8192,
        time: Instant::now(),
    };
    let first = pb.handle_event(on(0));
    assert_eq!(first, vec![midi(0, ChannelMsg::NoteOn { note: 60, velocity: 100 })]);
    let second = pb.handle_event(on(1));
    assert_eq!(second, vec![midi(0, ChannelMsg::NoteOn { note: 60, velocity: 100 })]);
    // released on the first input channel: still held on the second one
    let off = |channel: u8| PitchbendEvent::NoteOff { channel, note: 60, velocity: 0, time: Instant::now() };
    assert!(pb.handle_event(off(0)).is_empty());
    assert_eq!(
        pb.handle_event(off(1)),
        vec![midi(0, ChannelMsg::NoteOff { note: 60, velocity: 0 })]
    );
}
