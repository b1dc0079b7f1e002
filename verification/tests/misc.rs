use std::time::Instant;

use adaptuner::gui::connectionwindow::{ConnectionEvent, ConnectionWindow};
use adaptuner::gui::latencywindow::LatencyWindow;
use adaptuner::interval::stack::{ScaledAdd, Stack};
use adaptuner::interval::stacktype::fivelimit::ConcreteFiveLimitStackType;
use adaptuner::keystate::KeyState;
use adaptuner::neighbourhood::{new_fivelimit_neighbourhood, SomeNeighbourhood};
use adaptuner::rational::{axpy, minus, plus, times_int, Rational};
use adaptuner::strategy::chordlist::pattern::{KeyShape, Pattern};
use adaptuner::strategy::chordlist::Chordlist;
use adaptuner::strategy::twostep::IntervalStrategy;

type T5 = ConcreteFiveLimitStackType;

#[test]
fn key_state_channels_and_pedal() {
    let t = Instant::now();
    let mut k = KeyState::new(t);
    assert!(!k.is_sounding());
    assert!(k.note_on(0, t));
    assert!(!k.note_on(3, t));
    assert!(!k.note_off(0, false, t));
    assert!(k.is_sounding());
    assert!(k.note_off(3, false, t));
    assert!(!k.is_sounding());
    // held by the pedal
    k.note_on(5, t);
    assert!(!k.note_off(5, true, t));
    assert!(k.is_sounding());
    assert!(!k.pedal_off(4, t));
    assert!(k.pedal_off(5, t));
    assert!(!k.is_sounding());
}

#[test]
fn latency_window_mean() {
    let mut w = LatencyWindow::new(3);
    assert_eq!(w.window_length(), 3);
    assert_eq!(w.mean(), 0);
    w.record(3_000);
    assert_eq!(w.mean(), 1_000);
    w.record(4_000);
    assert_eq!(w.mean(), 2_333);
    w.record(5_000);
    assert_eq!(w.mean(), 4_000);
    // the oldest value is replaced
    w.record(0);
    assert_eq!(w.mean(), 3_000);
}

#[test]
fn latency_window_mean_divides_as_durations_do() {
    let mut w = LatencyWindow::new(3);
    w.record(1_000_000_002);
    let expected = std::time::Duration::new(1, 2) / 3;
    assert_eq!(w.mean(), expected.as_nanos());
    assert_eq!(w.mean(), 333_333_334);
}

#[test]
fn latency_window_sum_must_be_a_duration() {
    let max: u128 = u64::MAX as u128 * 1_000_000_000 + 999_999_999;
    let mut w = LatencyWindow::new(2);
    assert!(w.record_fits(max));
    assert!(!w.record_fits(max + 1));
    w.record(max);
    // the other value would now add to the longest duration
    assert!(w.record_fits(0));
    assert!(!w.record_fits(1));
}

#[test]
fn rational_arithmetic() {
    let half = Rational::new(2, 4);
    assert_eq!(half, Rational { numer: 1, denom: 2 });
    assert_eq!(Rational::new(3, -6), Rational { numer: -1, denom: 2 });
    assert_eq!(Rational::new(0, -5), Rational::from_integer(0));
    let third = Rational::new(1, 3);
    assert_eq!(plus(half, third), Rational::new(5, 6));
    assert_eq!(plus(half, half), Rational::from_integer(1));
    assert_eq!(minus(half, third), Rational::new(1, 6));
    assert_eq!(minus(Rational::new(1, 4), Rational::new(3, 4)), Rational::new(-1, 2));
    assert_eq!(minus(third, third), Rational::from_integer(0));
    assert_eq!(times_int(third, 6), Rational::from_integer(2));
    assert_eq!(times_int(Rational::new(3, 4), -2), Rational::new(-3, 2));
    assert_eq!(axpy(half, 3, third), Rational::new(3, 2));
    assert!(Rational::from_integer(7).is_integer());
    assert!(!third.is_integer());
    assert_eq!(Rational::new(7, 2).to_integer(), 3);
    assert_eq!(Rational::new(-7, 2).to_integer(), -3);
}

#[test]
fn stacks_target_pure_and_tempered() {
    let fifth = Stack::<T5>::from_pure_interval(1, 1);
    assert_eq!(fifth.target, vec![0, 1, 0]);
    assert!(fifth.is_target() && fifth.is_pure());
    assert_eq!(fifth.key_distance(), 7);
    assert_eq!(fifth.key_number(), 67);

    // a fifth of 12edo is not the pure fifth
    let tempered = Stack::<T5>::from_temperaments_and_target(&[true, false], vec![0, 1, 0]);
    assert!(!tempered.is_target());
    assert!(!tempered.is_pure());

    // pure, but not the target
    let odd = Stack::<T5>::from_target_and_actual(
        vec![0, 1, 0],
        vec![Rational::from_integer(1), Rational::from_integer(0), Rational::from_integer(0)],
    );
    assert!(odd.is_pure());
    assert!(!odd.is_target());

    let mut s = Stack::<T5>::new_zero();
    s.increment_at_index(&[true, false], 2, 3);
    assert_eq!(s.target, vec![0, 0, 3]);
    assert_eq!(s.actual, vec![Rational::from_integer(1), Rational::from_integer(0), Rational::from_integer(0)]);
    s.retemper(&[false, false]);
    assert!(s.is_target());
    s.increment_at_index_pure(0, -1);
    assert_eq!(s.target_coefficients(), &[-1, 0, 3]);
    assert_eq!(s.actual_coefficients()[0], Rational::from_integer(-1));
    s.reset_to_zero();
    assert_eq!(s, Stack::new_zero());
}

#[test]
fn scaled_add_and_back() {
    let mut s = Stack::<T5>::from_temperaments_and_target(&[false, true], vec![1, 2, 0]);
    let original = s.clone();
    let third = Stack::<T5>::from_pure_interval(2, 1);
    s.scaled_add(5, &third);
    assert_eq!(s.target, vec![1, 2, 5]);
    s.scaled_add(-5, &third);
    assert_eq!(s, original);
}

#[test]
fn chordlist_finds_the_first_complete_pattern() {
    let neighbourhood = || -> SomeNeighbourhood<T5> {
        SomeNeighbourhood::PeriodicComplete(new_fivelimit_neighbourhood(&[false; 2], 4, 0, 0).inner)
    };
    let mut list = Chordlist {
        patterns: vec![
            Pattern {
                name: String::from("minor"),
                keyshape: KeyShape::ClassesRelative { period_keys: 12, classes: vec![0, 3, 7] },
                neighbourhood: neighbourhood(),
            },
            Pattern {
                name: String::from("major"),
                keyshape: KeyShape::ClassesRelative { period_keys: 12, classes: vec![0, 4, 7] },
                neighbourhood: neighbourhood(),
            },
        ],
    };
    let t = Instant::now();
    let mut keys = [KeyState::new(t); 128];
    for k in [62usize, 66, 69] {
        keys[k].note_on(0, t);
    }
    let sol = list.solve(&keys).expect("D major is in the list");
    assert_eq!(sol.reference, 2);
    let notes: Vec<u8> = sol.intervals.iter().map(|(k, _)| *k).collect();
    assert_eq!(notes, vec![69, 66, 62]);
    // the fifth, the major third, and the root, relative to the lowest D
    assert_eq!(sol.intervals[0].1.target, vec![5, 1, 0]);
    assert_eq!(sol.intervals[1].1.target, vec![5, 0, 1]);
    assert_eq!(sol.intervals[2].1.target, vec![5, 0, 0]);

    let mut silence = [KeyState::new(t); 128];
    silence[61].note_on(0, t);
    silence[62].note_on(0, t);
    assert!(list.solve(&silence).is_none());
}

#[test]
fn connection_window_keeps_the_error_until_connected() {
    let mut w: ConnectionWindow<u32> = ConnectionWindow::new();
    assert!(matches!(&w, ConnectionWindow::Unconnected { error: None, available_ports } if available_ports.is_empty()));
    w.handle_event(ConnectionEvent::Disconnected { available_ports: vec![(1, "synth".to_string())] });
    w.handle_event(ConnectionEvent::ConnectionError { reason: "busy".to_string() });
    match &w {
        ConnectionWindow::Unconnected { error, available_ports } => {
            assert_eq!(error.as_deref(), Some("busy"));
            assert_eq!(available_ports, &vec![(1, "synth".to_string())]);
        }
        ConnectionWindow::Connected { .. } => panic!("not connected"),
    }
    // a new list of ports keeps the error
    w.handle_event(ConnectionEvent::Disconnected { available_ports: vec![] });
    assert!(matches!(&w, ConnectionWindow::Unconnected { error: Some(e), .. } if e == "busy"));
    w.handle_event(ConnectionEvent::Connected { portname: "synth".to_string() });
    assert!(matches!(&w, ConnectionWindow::Connected { portname } if portname == "synth"));
    // after a disconnection, the old error is gone
    w.handle_event(ConnectionEvent::Disconnected { available_ports: vec![(2, "other".to_string())] });
    assert!(matches!(&w, ConnectionWindow::Unconnected { error: None, available_ports } if available_ports.len() == 2 - 1));
}
