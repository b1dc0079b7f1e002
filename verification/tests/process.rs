use std::time::Instant;

use adaptuner::connections::Either;
use adaptuner::gui::connectionwindow::{Input, Output};
use adaptuner::interval::stack::Stack;
use adaptuner::interval::stacktype::fivelimit::ConcreteFiveLimitStackType;
use adaptuner::keystate::KeyState;
use adaptuner::neighbourhood::{fivelimit_corridor, fivelimit_corridor_no_offset};
use adaptuner::process::fromstrategy::{parse_incoming, IncomingEvent, NoteTracker};
use adaptuner::process::springs::util::Connector;
use adaptuner::strategy::chordlist::pattern::{
    fit_classes_fixed, fit_classes_relative, fit_voicing_fixed, fit_voicing_relative, Fit,
};
use adaptuner::strategy::static_tuning::{StaticTuning, StaticTuningConfig};

type T5 = ConcreteFiveLimitStackType;

#[test]
fn parsing_incoming_midi() {
    assert_eq!(
        parse_incoming(&[0x93, 60, 100]),
        Ok(IncomingEvent::NoteOn { channel: 3, note: 60, velocity: 100 })
    );
    assert_eq!(
        parse_incoming(&[0x80, 61, 0]),
        Ok(IncomingEvent::NoteOff { channel: 0, note: 61, velocity: 0 })
    );
    assert_eq!(
        parse_incoming(&[0xB1, 64, 127]),
        Ok(IncomingEvent::Hold { channel: 1, value: 127 })
    );
    assert_eq!(parse_incoming(&[0xC2, 5]), Ok(IncomingEvent::Other));
    assert!(parse_incoming(&[]).is_err());
}

#[test]
fn tracking_keys_and_pedals() {
    let t = Instant::now();
    let mut tracker = NoteTracker::new();
    assert!(tracker.note_on(0, 60, t));
    assert!(!tracker.note_on(1, 60, t));
    assert!(!tracker.note_off(0, 60, t));
    assert!(tracker.note_off(1, 60, t));
    assert!(!tracker.key_states()[60].is_sounding());

    assert!(tracker.hold(2, 100, t).is_empty());
    tracker.note_on(2, 64, t);
    tracker.note_on(2, 67, t);
    tracker.note_on(3, 72, t);
    assert!(!tracker.note_off(2, 64, t));
    assert!(!tracker.note_off(2, 67, t));
    assert!(tracker.key_states()[64].is_sounding());
    // released on channel 3, which has no pedal
    assert!(tracker.note_off(3, 72, t));
    assert_eq!(tracker.hold(2, 0, t), vec![64, 67]);
    assert!(!tracker.key_states()[67].is_sounding());
}

fn static_tuning() -> StaticTuning<T5> {
    StaticTuning::new(&StaticTuningConfig {
        active_temperaments: vec![false, false],
        width: 4,
        index: 0,
        offset: 0,
        reference_stack: Stack::new_zero(),
        reference_key: 60,
    })
}

#[test]
fn static_tuning_tunes_relative_to_the_reference() {
    let mut st = static_tuning();
    let mut tunings: [Stack<T5>; 128] = core::array::from_fn(|_| Stack::new_zero());
    assert!(st.update_tuning(&mut tunings, 64));
    assert_eq!(tunings[64], Stack::from_target(vec![0, 0, 1]));
    // up to date: nothing is computed
    assert!(!st.update_tuning(&mut tunings, 64));
    assert!(st.update_tuning(&mut tunings, 55));
    assert_eq!(tunings[55], Stack::from_target(vec![-1, 1, 0]));

    let t = Instant::now();
    let mut keys = [KeyState::new(t); 128];
    keys[62].note_on(0, t);
    keys[69].note_on(0, t);
    // a new reference: D is the zero stack now
    let notes = st.set_reference(Stack::from_target(vec![0, 2, 0]), 62, &keys, &mut tunings);
    assert_eq!(notes, vec![62, 69]);
    assert_eq!(tunings[62], Stack::from_target(vec![0, 2, 0]));
    assert_eq!(tunings[69], Stack::from_target(vec![0, 3, 0]));
    let again = st.retune_all(&keys, &mut tunings);
    assert_eq!(again, vec![62, 69]);
}

#[test]
fn static_tuning_uses_the_configured_neighbourhood() {
    // a corridor of width twelve has only fifths: E is four fifths up, two octaves down
    let mut st = StaticTuning::<T5>::new(&StaticTuningConfig {
        active_temperaments: vec![false, false],
        width: 12,
        index: 0,
        offset: 0,
        reference_stack: Stack::new_zero(),
        reference_key: 60,
    });
    let mut tunings: [Stack<T5>; 128] = core::array::from_fn(|_| Stack::new_zero());
    assert!(st.update_tuning(&mut tunings, 64));
    assert_eq!(tunings[64], Stack::from_target(vec![-2, 4, 0]));
}

#[test]
fn corridors_of_fifths_and_thirds() {
    assert_eq!(fivelimit_corridor_no_offset(4, 0), (0, 0));
    assert_eq!(fivelimit_corridor_no_offset(4, 5), (1, 1));
    assert_eq!(fivelimit_corridor_no_offset(4, -1), (3, -1));
    assert_eq!(fivelimit_corridor(4, 0, 1), (0, 1, 0));
    assert_eq!(fivelimit_corridor(4, 0, 4), (0, 0, 1));
    assert_eq!(fivelimit_corridor(12, 0, 2), (-1, 2, 0));
}

#[test]
fn fitting_functions() {
    let mut notes = [false; 128];
    notes[60] = true;
    notes[64] = true;
    notes[67] = true;
    assert_eq!(fit_classes_fixed(12, &[0, 4, 7], 0, &notes, 0), Fit { reference: 0, next: 128 });
    // no minor chord fits C major, not even partially: a partial fit must have all of its
    // classes among the keys that fit
    assert_eq!(fit_classes_relative(12, &[0, 3, 7], &notes, 0), Fit { reference: 0, next: 0 });
    assert_eq!(fit_classes_relative(12, &[0, 4], &notes, 0), Fit { reference: 0, next: 67 });
    assert_eq!(
        fit_voicing_fixed(12, &[vec![0], vec![4, 7]], 0, &notes, 0),
        Fit { reference: 0, next: 128 }
    );
    assert_eq!(
        fit_voicing_relative(12, &[vec![0], vec![4, 7]], &notes, 0),
        Fit { reference: 0, next: 128 }
    );
}

#[test]
fn small_types() {
    let e: Either<u8, String> = Either::Left(3);
    assert!(matches!(e, Either::Left(3)));
    let f: Either<u8, String> = Either::Right(String::from("x"));
    assert!(matches!(f, Either::Right(_)));
    let _ = (Input {}, Output {});
    let c = Connector::Rod(vec![(7, 1)]);
    assert!(matches!(c, Connector::Rod(ref s) if s == &vec![(7, 1)]));
    assert!(matches!(Connector::Spring, Connector::Spring));
    assert!(matches!(Connector::NoConnection, Connector::NoConnection));
}

#[test]
fn checked_key_numbers() {
    assert_eq!(Stack::<T5>::from_target(vec![1, 1, 0]).checked_key_number(), Some(79));
    assert_eq!(Stack::<T5>::from_target(vec![i64::MAX, 0, 0]).checked_key_number(), None);
}
