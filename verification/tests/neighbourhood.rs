use std::collections::HashMap;

use adaptuner::interval::stack::Stack;
use adaptuner::interval::stacktype::fivelimit::ConcreteFiveLimitStackType;
use adaptuner::neighbourhood::{
    new_fivelimit_neighbourhood, CompleteNeigbourhood, Neighbourhood, PeriodicComplete,
    PeriodicCompleteAligned, PeriodicNeighbourhood, PeriodicPartial, SomeNeighbourhood,
};

type MockStackType = ConcreteFiveLimitStackType;

#[test]
fn test_test_insert_retrieve() {
    let period = Stack::<MockStackType>::from_target(vec![1, 0, 0]);
    let mut neigh = PeriodicPartial {
        stacks: [(9, Stack::from_target(vec![1, 4, 123]))].into(),
        period,
    };
    assert_eq!(
        neigh.try_get_relative_stack(9 + 12),
        Some(Stack::from_target(vec![2, 4, 123]))
    );

    neigh.insert(&Stack::from_target(vec![0, 3, 0]));
    assert_eq!(
        neigh.try_get_relative_stack(9),
        Some(Stack::from_target(vec![-1, 3, 0]))
    );
    assert_eq!(
        neigh.try_get_relative_stack(-3),
        Some(Stack::from_target(vec![-2, 3, 0]))
    );

    // the next two are a regression test
    neigh.insert(&Stack::from_target(vec![1, -2, 0]));
    assert_eq!(
        neigh.stacks.get(&10),
        Some(&Stack::from_target(vec![2, -2, 0]))
    );
    assert_eq!(
        neigh.try_get_relative_stack(10),
        Some(Stack::from_target(vec![2, -2, 0]))
    );
}

#[test]
fn test_new_fivelimit_neighbourhood() {
    let period = Stack::<MockStackType>::from_target(vec![1, 0, 0]);

    assert_eq!(
        new_fivelimit_neighbourhood(&[false; 2], 12, 0, 0),
        PeriodicCompleteAligned {
            inner: PeriodicComplete {
                stacks: vec![
                    Stack::from_target(vec![0, 0, 0]),
                    Stack::from_target(vec![-4, 7, 0]),
                    Stack::from_target(vec![-1, 2, 0]),
                    Stack::from_target(vec![-5, 9, 0]),
                    Stack::from_target(vec![-2, 4, 0]),
                    Stack::from_target(vec![-6, 11, 0]),
                    Stack::from_target(vec![-3, 6, 0]),
                    Stack::from_target(vec![0, 1, 0]),
                    Stack::from_target(vec![-4, 8, 0]),
                    Stack::from_target(vec![-1, 3, 0]),
                    Stack::from_target(vec![-5, 10, 0]),
                    Stack::from_target(vec![-2, 5, 0]),
                ],
                period: period.clone(),
            }
        }
    );

    assert_eq!(
        new_fivelimit_neighbourhood(&[false; 2], 3, 0, 0),
        PeriodicCompleteAligned {
            inner: PeriodicComplete {
                stacks: vec![
                    Stack::from_target(vec![0, 0, 0]),
                    Stack::from_target(vec![0, -1, 2]),
                    Stack::from_target(vec![-1, 2, 0]),
                    Stack::from_target(vec![1, -3, 3]),
                    Stack::from_target(vec![0, 0, 1]),
                    Stack::from_target(vec![0, -1, 3]),
                    Stack::from_target(vec![1, -2, 2]),
                    Stack::from_target(vec![0, 1, 0]),
                    Stack::from_target(vec![0, 0, 2]),
                    Stack::from_target(vec![1, -1, 1]),
                    Stack::from_target(vec![1, -2, 3]),
                    Stack::from_target(vec![0, 1, 1]),
                ],
                period: period.clone(),
            }
        }
    );

    assert_eq!(
        new_fivelimit_neighbourhood(&[false; 2], 5, 0, 0),
        PeriodicCompleteAligned {
            inner: PeriodicComplete {
                stacks: vec![
                    Stack::from_target(vec![0, 0, 0]),
                    Stack::from_target(vec![-2, 3, 1]),
                    Stack::from_target(vec![-1, 2, 0]),
                    Stack::from_target(vec![-3, 5, 1]),
                    Stack::from_target(vec![-2, 4, 0]),
                    Stack::from_target(vec![-2, 3, 2]),
                    Stack::from_target(vec![-1, 2, 1]),
                    Stack::from_target(vec![0, 1, 0]),
                    Stack::from_target(vec![-2, 4, 1]),
                    Stack::from_target(vec![-1, 3, 0]),
                    Stack::from_target(vec![-1, 2, 2]),
                    Stack::from_target(vec![0, 1, 1]),
                ],
                period: period.clone(),
            }
        }
    );

    assert_eq!(
        new_fivelimit_neighbourhood(&[false; 2], 4, 0, 0),
        PeriodicCompleteAligned {
            inner: PeriodicComplete {
                stacks: vec![
                    Stack::from_target(vec![0, 0, 0]),
                    Stack::from_target(vec![-2, 3, 1]),
                    Stack::from_target(vec![-1, 2, 0]),
                    Stack::from_target(vec![-1, 1, 2]),
                    Stack::from_target(vec![0, 0, 1]),
                    Stack::from_target(vec![-2, 3, 2]),
                    Stack::from_target(vec![-1, 2, 1]),
                    Stack::from_target(vec![0, 1, 0]),
                    Stack::from_target(vec![0, 0, 2]),
                    Stack::from_target(vec![-1, 3, 0]),
                    Stack::from_target(vec![-1, 2, 2]),
                    Stack::from_target(vec![0, 1, 1]),
                ],
                period: period.clone(),
            }
        }
    );

    assert_eq!(
        new_fivelimit_neighbourhood(&[false; 2], 4, 1, 0),
        PeriodicCompleteAligned {
            inner: PeriodicComplete {
                stacks: vec![
                    Stack::from_target(vec![0, 0, 0]),
                    Stack::from_target(vec![-2, 3, 1]),
                    Stack::from_target(vec![-1, 2, 0]),
                    Stack::from_target(vec![-1, 1, 2]),
                    Stack::from_target(vec![0, 0, 1]),
                    Stack::from_target(vec![-1, 3, -1]),
                    Stack::from_target(vec![-1, 2, 1]),
                    Stack::from_target(vec![0, 1, 0]),
                    Stack::from_target(vec![0, 0, 2]),
                    Stack::from_target(vec![-1, 3, 0]),
                    Stack::from_target(vec![-1, 2, 2]),
                    Stack::from_target(vec![0, 1, 1]),
                ],
                period: period.clone(),
            }
        }
    );

    assert_eq!(
        new_fivelimit_neighbourhood(&[false; 2], 4, 2, 0),
        PeriodicCompleteAligned {
            inner: PeriodicComplete {
                stacks: vec![
                    Stack::from_target(vec![0, 0, 0]),
                    Stack::from_target(vec![-2, 3, 1]),
                    Stack::from_target(vec![-1, 2, 0]),
                    Stack::from_target(vec![-1, 1, 2]),
                    Stack::from_target(vec![0, 0, 1]),
                    Stack::from_target(vec![-1, 3, -1]),
                    Stack::from_target(vec![-1, 2, 1]),
                    Stack::from_target(vec![0, 1, 0]),
                    Stack::from_target(vec![0, 0, 2]),
                    Stack::from_target(vec![-1, 3, 0]),
                    Stack::from_target(vec![0, 2, -1]),
                    Stack::from_target(vec![0, 1, 1]),
                ],
                period: period.clone(),
            }
        }
    );

    assert_eq!(
        new_fivelimit_neighbourhood(&[false; 2], 4, 3, 0),
        PeriodicCompleteAligned {
            inner: PeriodicComplete {
                stacks: vec![
                    Stack::from_target(vec![0, 0, 0]),
                    Stack::from_target(vec![-2, 3, 1]),
                    Stack::from_target(vec![-1, 2, 0]),
                    Stack::from_target(vec![0, 1, -1]),
                    Stack::from_target(vec![0, 0, 1]),
                    Stack::from_target(vec![-1, 3, -1]),
                    Stack::from_target(vec![-1, 2, 1]),
                    Stack::from_target(vec![0, 1, 0]),
                    Stack::from_target(vec![0, 0, 2]),
                    Stack::from_target(vec![-1, 3, 0]),
                    Stack::from_target(vec![0, 2, -1]),
                    Stack::from_target(vec![0, 1, 1]),
                ],
                period: period.clone(),
            }
        }
    );

    assert_eq!(
        new_fivelimit_neighbourhood(&[false; 2], 4, 4, 0),
        PeriodicCompleteAligned {
            inner: PeriodicComplete {
                stacks: vec![
                    Stack::from_target(vec![0, 0, 0]),
                    Stack::from_target(vec![-2, 3, 1]),
                    Stack::from_target(vec![-1, 2, 0]),
                    Stack::from_target(vec![0, 1, -1]),
                    Stack::from_target(vec![0, 0, 1]),
                    Stack::from_target(vec![-1, 3, -1]),
                    Stack::from_target(vec![-1, 2, 1]),
                    Stack::from_target(vec![0, 1, 0]),
                    Stack::from_target(vec![1, 0, -1]),
                    Stack::from_target(vec![-1, 3, 0]),
                    Stack::from_target(vec![0, 2, -1]),
                    Stack::from_target(vec![0, 1, 1]),
                ],
                period: period.clone(),
            }
        }
    );

    assert_eq!(
        new_fivelimit_neighbourhood(&[false; 2], 4, 0, 1),
        PeriodicCompleteAligned {
            inner: PeriodicComplete {
                stacks: vec![
                    Stack::from_target(vec![0, 0, 0]),
                    Stack::from_target(vec![0, -1, 2]),
                    Stack::from_target(vec![-1, 2, 0]),
                    Stack::from_target(vec![-1, 1, 2]),
                    Stack::from_target(vec![0, 0, 1]),
                    Stack::from_target(vec![0, -1, 3]),
                    Stack::from_target(vec![-1, 2, 1]),
                    Stack::from_target(vec![0, 1, 0]),
                    Stack::from_target(vec![0, 0, 2]),
                    Stack::from_target(vec![1, -1, 1]),
                    Stack::from_target(vec![-1, 2, 2]),
                    Stack::from_target(vec![0, 1, 1]),
                ],
                period: period.clone(),
            }
        }
    );

    assert_eq!(
        new_fivelimit_neighbourhood(&[false; 2], 4, 0, 2),
        PeriodicCompleteAligned {
            inner: PeriodicComplete {
                stacks: vec![
                    Stack::from_target(vec![0, 0, 0]),
                    Stack::from_target(vec![0, -1, 2]),
                    Stack::from_target(vec![1, -2, 1]),
                    Stack::from_target(vec![-1, 1, 2]),
                    Stack::from_target(vec![0, 0, 1]),
                    Stack::from_target(vec![0, -1, 3]),
                    Stack::from_target(vec![1, -2, 2]),
                    Stack::from_target(vec![0, 1, 0]),
                    Stack::from_target(vec![0, 0, 2]),
                    Stack::from_target(vec![1, -1, 1]),
                    Stack::from_target(vec![1, -2, 3]),
                    Stack::from_target(vec![0, 1, 1]),
                ],
                period: period.clone(),
            }
        }
    );

    assert_eq!(
        new_fivelimit_neighbourhood(&[false; 2], 4, 0, 3),
        PeriodicCompleteAligned {
            inner: PeriodicComplete {
                stacks: vec![
                    Stack::from_target(vec![0, 0, 0]),
                    Stack::from_target(vec![0, -1, 2]),
                    Stack::from_target(vec![1, -2, 1]),
                    Stack::from_target(vec![1, -3, 3]),
                    Stack::from_target(vec![0, 0, 1]),
                    Stack::from_target(vec![0, -1, 3]),
                    Stack::from_target(vec![1, -2, 2]),
                    Stack::from_target(vec![2, -3, 1]),
                    Stack::from_target(vec![0, 0, 2]),
                    Stack::from_target(vec![1, -1, 1]),
                    Stack::from_target(vec![1, -2, 3]),
                    Stack::from_target(vec![2, -3, 2]),
                ],
                period: period.clone(),
            }
        }
    );
}

#[test]
fn partial_neighbourhood_has_only_inserted_classes() {
    let period = Stack::<MockStackType>::from_target(vec![1, 0, 0]);
    let mut neigh = PeriodicPartial {
        stacks: HashMap::new(),
        period,
    };
    assert!(!neigh.has_tuning_for(4));
    assert_eq!(neigh.try_get_relative_stack(4), None);
    let stored = neigh.insert(&Stack::from_target(vec![1, 0, 1])).clone();
    // a major third an octave up is stored in the first octave
    assert_eq!(stored, Stack::from_target(vec![0, 0, 1]));
    assert!(neigh.has_tuning_for(4));
    assert!(neigh.has_tuning_for(-8));
    assert!(!neigh.has_tuning_for(5));
    assert_eq!(
        neigh.try_get_relative_stack(-8),
        Some(Stack::from_target(vec![-1, 0, 1]))
    );
    assert_eq!(neigh.period_keys(), 12);
}

#[test]
fn insert_then_retrieve_gives_back_a_tempered_stack() {
    let period = Stack::<MockStackType>::from_target(vec![1, 0, 0]);
    let mut neigh = PeriodicPartial {
        stacks: HashMap::new(),
        period,
    };
    // a fifth in quarter-comma meantone, two octaves up
    let fifth = Stack::<MockStackType>::from_temperaments_and_target(&[false, true], vec![2, 1, 0]);
    neigh.insert(&fifth);
    assert_eq!(neigh.try_get_relative_stack(31), Some(fifth));
}

#[test]
fn complete_neighbourhood_lookups() {
    let neigh: PeriodicCompleteAligned<MockStackType> =
        new_fivelimit_neighbourhood(&[false; 2], 12, 0, 0);
    assert_eq!(
        neigh.get_relative_stack(19),
        Stack::from_target(vec![1, 1, 0])
    );
    let mut target = Stack::new_zero();
    neigh.write_relative_stack(&mut target, -5);
    assert_eq!(target, Stack::from_target(vec![-1, 1, 0]));
    assert!(neigh.has_tuning_for(-100));

    let some = SomeNeighbourhood::PeriodicComplete(neigh.inner);
    assert_eq!(
        some.try_get_relative_stack(7),
        Some(Stack::from_target(vec![0, 1, 0]))
    );
}

#[test]
fn bounds_of_the_stored_targets() {
    let neigh: PeriodicCompleteAligned<MockStackType> =
        new_fivelimit_neighbourhood(&[false; 2], 4, 0, 0);
    // fifths: from 0 to 3, thirds: from 0 to 2, octaves: from -2 to 0
    assert_eq!(neigh.bounds(1), (0, 3));
    assert_eq!(neigh.bounds(2), (0, 2));
    assert_eq!(neigh.bounds(0), (-2, 0));

    let period = Stack::<MockStackType>::from_target(vec![1, 0, 0]);
    let mut partial = PeriodicPartial {
        stacks: HashMap::new(),
        period,
    };
    assert_eq!(partial.bounds(1), (0, 0));
    partial.insert(&Stack::from_target(vec![0, 1, 0]));
    partial.insert(&Stack::from_target(vec![2, -2, 0]));
    assert_eq!(partial.bounds(1), (-2, 1));
    let some = SomeNeighbourhood::PeriodicPartial(partial);
    assert_eq!(some.bounds(2), (0, 0));
}

#[test]
fn bounds_are_those_of_the_stored_entries() {
    let period = Stack::<MockStackType>::from_target(vec![1, 0, 0]);
    let mut partial = PeriodicPartial {
        stacks: HashMap::new(),
        period,
    };
    // two fifths are stored one octave lower; the major sixth of five fifths stays
    partial.insert(&Stack::from_target(vec![0, 2, 0]));
    partial.insert(&Stack::from_target(vec![-2, 5, 0]));
    assert_eq!(partial.bounds(1), (2, 5));
    assert_eq!(partial.bounds(0), (-2, -1));
    assert_eq!(partial.bounds(2), (0, 0));
}

#[test]
fn fivelimit_neighbourhood_slots_have_their_key_distances() {
    // a corridor of width one is a line of major thirds; its notes are moved into the octave
    for (width, index, offset) in [(1, 11, 0), (1, 0, 0), (3, 5, 2), (12, 0, 0)] {
        let neigh: PeriodicCompleteAligned<MockStackType> =
            new_fivelimit_neighbourhood(&[false; 2], width, index, offset);
        for (k, stack) in neigh.inner.stacks.iter().enumerate() {
            assert_eq!(stack.key_distance(), k as i64);
        }
    }
}
