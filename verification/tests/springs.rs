use std::cell::Cell;

use adaptuner::interval::stack::Stack;
use adaptuner::interval::stacktype::fivelimit::ConcreteFiveLimitStackType;
use adaptuner::process::springs::util::{Connector, KeyDistance, RodSpec, Workspace};
use adaptuner::rational::Rational;

type T5 = ConcreteFiveLimitStackType;

fn sorted_rods(ws: &Workspace<T5>) -> Vec<((usize, usize), RodSpec)> {
    let mut m = ws.current_rods();
    m.sort_by(|a, b| a.0.cmp(&b.0));
    m
}

#[test]
fn test_collect_intervals() {
    type Irrelevant = ConcreteFiveLimitStackType;
    let mut ws = Workspace::<Irrelevant>::new(1, false, false, false);

    ws.set_keys(&[0, 1, 2, 3]);
    ws.collect_intervals(
        |i, j| Connector::Rod(vec![(j as KeyDistance - i as KeyDistance, 1)]),
        |_| -> Vec<(Stack<Irrelevant>, Rational)> {
            panic!("This will not be called, since there are no springs!")
        },
        |_| Stack::new_zero(), // irrelevant
    );
    assert_eq!(
        sorted_rods(&ws),
        vec![
            ((0, 1), vec![(1, 1)]),
            ((0, 2), vec![(2, 1)]),
            ((0, 3), vec![(3, 1)]),
        ]
    );

    ws.set_keys(&[0, 1, 2, 3, 4, 5]);
    ws.collect_intervals(
        |i, j| {
            if (j - i) % 2 == 0 {
                Connector::Rod(vec![(j as KeyDistance - i as KeyDistance, 1)])
            } else {
                Connector::Spring
            }
        },
        |_| vec![],            // irrelevant
        |_| Stack::new_zero(), // irrelevant
    );
    assert_eq!(
        sorted_rods(&ws),
        vec![
            ((0, 2), vec![(2, 1)]),
            ((0, 4), vec![(4, 1)]),
            ((1, 3), vec![(2, 1)]),
            ((1, 5), vec![(4, 1)]),
        ]
    );

    let k: Vec<u8> = vec![0, 2, 5, 7, 12, 14];
    ws.set_keys(&k);
    ws.collect_intervals(
        |i, j| {
            let d = k[j] - k[i];
            if (d % 12 == 0) | (d % 7 == 0) {
                Connector::Rod(vec![(k[j] as KeyDistance - k[i] as KeyDistance, 1)])
            } else {
                Connector::Spring
            }
        },
        |_| vec![],            // irrelevant
        |_| Stack::new_zero(), // irrelevant
    );
    assert_eq!(
        sorted_rods(&ws),
        vec![
            ((0, 1), vec![(12, -1), (14, 1)]),
            ((0, 2), vec![(7, -1), (12, 1)]),
            ((0, 3), vec![(7, 1)]),
            ((0, 4), vec![(12, 1)]),
            ((0, 5), vec![(14, 1)]),
        ]
    );
}

#[test]
fn chained_rods_are_summed() {
    let mut ws = Workspace::<T5>::new(3, false, false, false);
    ws.set_keys(&[60, 64, 67]);
    // a major third and a minor third on top of it: the fifth is their sum
    let next = ws.collect_intervals(
        |i, j| match (i, j) {
            (0, 1) => Connector::Rod(vec![(4, 1)]),
            (1, 2) => Connector::Rod(vec![(3, 1)]),
            _ => Connector::NoConnection,
        },
        |_| vec![],
        |_| Stack::new_zero(),
    );
    assert_eq!(sorted_rods(&ws), vec![((0, 1), vec![(4, 1)]), ((0, 2), vec![(3, 1), (4, 1)])]);
    // two rods, no springs
    assert_eq!(next, 2);
}

#[test]
fn redundant_rod_is_dropped() {
    let mut ws = Workspace::<T5>::new(3, false, false, false);
    ws.set_keys(&[60, 64, 67]);
    let next = ws.collect_intervals(
        |i, j| match (i, j) {
            (0, 1) => Connector::Rod(vec![(4, 1)]),
            (1, 2) => Connector::Rod(vec![(3, 1)]),
            _ => Connector::Rod(vec![(7, 1)]),
        },
        |_| vec![],
        |_| Stack::new_zero(),
    );
    assert_eq!(sorted_rods(&ws), vec![((0, 1), vec![(4, 1)]), ((0, 2), vec![(7, 1)])]);
    assert_eq!(next, 2);
}

#[test]
fn springs_are_counted_before_rods() {
    let mut ws = Workspace::<T5>::new(4, false, false, false);
    ws.set_keys(&[60, 62, 64, 65]);
    let next = ws.collect_intervals(
        |i, _j| {
            if i == 0 {
                Connector::Spring
            } else {
                Connector::NoConnection
            }
        },
        |_| vec![],
        |_| Stack::new_zero(),
    );
    // three springs from the first note, no rods
    assert_eq!(next, 3);
    assert!(ws.current_rods().is_empty());
}

#[test]
fn spring_candidates_are_memoised() {
    let calls = Cell::new(0);
    let mut ws = Workspace::<T5>::new(4, true, false, false);
    ws.set_keys(&[60, 62, 64, 66]);
    // all neighbours are a whole tone apart: the candidates are asked for once
    ws.collect_intervals(
        |i, j| {
            if j == i + 1 {
                Connector::Spring
            } else {
                Connector::NoConnection
            }
        },
        |d| {
            assert_eq!(d, 2);
            calls.set(calls.get() + 1);
            vec![]
        },
        |_| Stack::new_zero(),
    );
    assert_eq!(calls.get(), 1);
    // remembered between collections
    ws.collect_intervals(
        |i, j| {
            if j == i + 1 {
                Connector::Spring
            } else {
                Connector::NoConnection
            }
        },
        |_| {
            calls.set(calls.get() + 1);
            vec![]
        },
        |_| Stack::new_zero(),
    );
    assert_eq!(calls.get(), 1);
}

#[test]
fn spring_candidates_are_forgotten_without_memo() {
    let calls = Cell::new(0);
    let mut ws = Workspace::<T5>::new(2, false, false, false);
    ws.set_keys(&[60, 67]);
    for _ in 0..2 {
        ws.collect_intervals(
            |_, _| Connector::Spring,
            |_| {
                calls.set(calls.get() + 1);
                vec![]
            },
            |_| Stack::new_zero(),
        );
    }
    assert_eq!(calls.get(), 2);
}

#[test]
fn rod_lengths_are_asked_for_once_per_spec() {
    let calls = Cell::new(0);
    let mut ws = Workspace::<T5>::new(3, false, false, true);
    ws.set_keys(&[60, 72, 84]);
    ws.collect_intervals(
        |i, j| {
            if j == i + 1 {
                Connector::Rod(vec![(12, 1)])
            } else {
                Connector::NoConnection
            }
        },
        |_| vec![],
        |spec| {
            calls.set(calls.get() + 1);
            let mut s = Stack::<T5>::new_zero();
            s.target[0] = spec.iter().map(|(_, c)| *c).sum();
            s
        },
    );
    // the rods (0, 1) with one octave and (0, 2) with two octaves
    assert_eq!(sorted_rods(&ws), vec![((0, 1), vec![(12, 1)]), ((0, 2), vec![(12, 2)])]);
    assert_eq!(calls.get(), 2);
}

fn stack(target: Vec<i64>) -> Stack<T5> {
    Stack::from_target(target)
}

fn third_and_minor_third(ws: &mut Workspace<T5>) {
    ws.set_keys(&[60, 64, 67]);
    ws.collect_intervals(
        |i, j| match (i, j) {
            (0, 1) => Connector::Rod(vec![(4, 1)]),
            (1, 2) => Connector::Spring,
            _ => Connector::NoConnection,
        },
        |d| {
            assert_eq!(d, 3);
            vec![(stack(vec![0, 1, -1]), Rational { numer: 1, denom: 15 })]
        },
        |_| stack(vec![0, 0, 1]),
    );
}

#[test]
fn interval_targets_complete_the_triangle() {
    let mut ws = Workspace::<T5>::new(3, false, false, false);
    third_and_minor_third(&mut ws);
    // in the order (0, 1), (0, 2), (1, 2): the fifth is the major third plus the minor third
    assert_eq!(
        ws.current_interval_targets(),
        vec![vec![0, 0, 1], vec![0, 1, 0], vec![0, 1, -1]]
    );
}

#[test]
fn undetermined_intervals_are_zero() {
    let mut ws = Workspace::<T5>::new(3, false, false, false);
    ws.set_keys(&[60, 64, 67]);
    ws.collect_intervals(
        |i, j| {
            if (i, j) == (0, 1) {
                Connector::Rod(vec![(4, 1)])
            } else {
                Connector::NoConnection
            }
        },
        |_| vec![],
        |_| stack(vec![0, 0, 1]),
    );
    assert_eq!(
        ws.current_interval_targets(),
        vec![vec![0, 0, 1], vec![0, 0, 0], vec![0, 0, 0]]
    );
}

#[test]
fn rods_win_over_springs() {
    let mut ws = Workspace::<T5>::new(3, false, false, false);
    ws.set_keys(&[60, 64, 67]);
    // the rods fix the fifth from the first note, the spring from the first to the second note
    // would be a different third
    ws.collect_intervals(
        |i, j| match (i, j) {
            (0, 1) => Connector::Spring,
            (1, 2) => Connector::Rod(vec![(3, 1)]),
            _ => Connector::Rod(vec![(7, 1)]),
        },
        |_| vec![(stack(vec![2, -4, 0]), Rational { numer: 1, denom: 5 })],
        |spec| {
            if spec == &vec![(7, 1)] {
                stack(vec![0, 1, 0])
            } else {
                stack(vec![0, 0, 1])
            }
        },
    );
    // the merged rods are (0, 1) = fifth - minor third and (0, 2) = fifth
    assert_eq!(
        sorted_rods(&ws),
        vec![((0, 1), vec![(3, -1), (7, 1)]), ((0, 2), vec![(7, 1)])]
    );
    // the spring between (0, 1) is not used, since the rods determine that interval
    assert_eq!(
        ws.current_interval_targets(),
        vec![vec![0, 0, 1], vec![0, 1, 0], vec![0, 1, -1]]
    );
}

#[test]
fn anchor_targets_start_at_the_first_anchor() {
    let mut ws = Workspace::<T5>::new(3, false, false, false);
    third_and_minor_third(&mut ws);
    let next = 2;
    ws.collect_anchors(next, |k| k == 64, |_| vec![(stack(vec![0, 0, 1]), Rational { numer: 1, denom: 1 })]);
    let intervals = ws.current_interval_targets();
    assert_eq!(
        ws.current_anchor_targets(&intervals),
        vec![vec![0, 0, 0], vec![0, 0, 1], vec![0, 1, 0]]
    );
}

#[test]
fn candidates_are_counted_through() {
    let mut ws = Workspace::<T5>::new(3, false, false, false);
    ws.set_keys(&[60, 61, 62]);
    // two springs of a semitone each, with two candidates: diatonic and chromatic semitone
    ws.collect_intervals(
        |i, j| {
            if j == i + 1 {
                Connector::Spring
            } else {
                Connector::NoConnection
            }
        },
        |_| {
            vec![
                (stack(vec![1, -1, -1]), Rational { numer: 1, denom: 15 }),
                (stack(vec![0, -1, 2]), Rational { numer: 1, denom: 75 }),
            ]
        },
        |_| stack(vec![0, 0, 0]),
    );
    let diatonic = vec![1, -1, -1];
    let chromatic = vec![0, -1, 2];
    let first_two = |ws: &Workspace<T5>| {
        let t = ws.current_interval_targets();
        (t[0].clone(), t[2].clone())
    };
    assert_eq!(first_two(&ws), (diatonic.clone(), diatonic.clone()));
    assert!(ws.prepare_next_candidate());
    assert_eq!(first_two(&ws), (chromatic.clone(), diatonic.clone()));
    assert!(ws.prepare_next_candidate());
    assert_eq!(first_two(&ws), (diatonic.clone(), chromatic.clone()));
    assert!(ws.prepare_next_candidate());
    assert_eq!(first_two(&ws), (chromatic.clone(), chromatic.clone()));
    // after the last combination, all candidates are back at the first one
    assert!(!ws.prepare_next_candidate());
    assert_eq!(first_two(&ws), (diatonic.clone(), diatonic));
}

#[test]
fn anchor_candidates_come_before_spring_candidates() {
    let mut ws = Workspace::<T5>::new(2, false, false, false);
    ws.set_keys(&[60, 67]);
    let next = ws.collect_intervals(
        |_, _| Connector::Spring,
        |_| {
            vec![
                (stack(vec![0, 1, 0]), Rational { numer: 1, denom: 3 }),
                (stack(vec![2, -3, 0]), Rational { numer: 1, denom: 9 }),
            ]
        },
        |_| stack(vec![0, 0, 0]),
    );
    assert_eq!(next, 1);
    ws.collect_anchors(
        next,
        |k| k == 60,
        |_| {
            vec![
                (stack(vec![0, 0, 0]), Rational { numer: 1, denom: 1 }),
                (stack(vec![0, 0, 1]), Rational { numer: 1, denom: 1 }),
                (stack(vec![0, 0, -1]), Rational { numer: 1, denom: 1 }),
            ]
        },
    );
    // three anchor candidates times two spring candidates
    let mut count = 1;
    while ws.prepare_next_candidate() {
        count += 1;
    }
    assert_eq!(count, 6);
    // the anchor alone has three candidates
    let mut anchor_count = 1;
    while ws.prepare_next_anchor_candidate() {
        anchor_count += 1;
    }
    assert_eq!(anchor_count, 3);
}

fn position(coefficients: [(i64, i64); 3]) -> Vec<Rational> {
    coefficients.iter().map(|&(numer, denom)| Rational { numer, denom }).collect()
}

fn anchored_third_and_minor_third() -> Workspace<T5> {
    let mut ws = Workspace::<T5>::new(3, false, false, false);
    third_and_minor_third(&mut ws);
    ws.collect_anchors(2, |k| k == 64, |_| vec![(stack(vec![0, 0, 1]), Rational { numer: 1, denom: 1 })]);
    ws
}

#[test]
fn solution_at_the_candidates_is_relaxed() {
    let ws = anchored_third_and_minor_third();
    let solution = vec![
        position([(0, 1), (0, 1), (0, 1)]),
        position([(0, 1), (0, 1), (1, 1)]),
        position([(0, 1), (1, 1), (0, 1)]),
    ];
    assert!(ws.relaxed_in(&solution));
}

#[test]
fn detuned_spring_is_not_relaxed() {
    let ws = anchored_third_and_minor_third();
    // the fifth above the anchored third is a quarter of a syntonic comma's third too high
    let solution = vec![
        position([(0, 1), (0, 1), (0, 1)]),
        position([(0, 1), (0, 1), (1, 1)]),
        position([(0, 1), (1, 1), (1, 4)]),
    ];
    assert!(!ws.relaxed_in(&solution));
}

#[test]
fn moved_anchor_is_not_relaxed() {
    let ws = anchored_third_and_minor_third();
    // every note moved by the same amount: the spring keeps its length, the anchor does not
    let solution = vec![
        position([(0, 1), (-1, 4), (0, 1)]),
        position([(0, 1), (-1, 4), (1, 1)]),
        position([(0, 1), (3, 4), (0, 1)]),
    ];
    assert!(!ws.relaxed_in(&solution));
}
