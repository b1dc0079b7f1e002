use adaptuner::interval::fundamental::HasFundamental;
use adaptuner::interval::stack::Stack;
use adaptuner::interval::stacktype::fivelimit::ConcreteFiveLimitStackType;
use adaptuner::interval::stacktype::{
    FiveLimitStackType, OctavePeriodicStackType, PeriodicStackType, StackType,
};
use adaptuner::rational::Rational;

#[test]
fn test_target_fundamental() {
    assert_eq!(
        <ConcreteFiveLimitStackType as HasFundamental>::fundamental(
            &Stack::from_target(vec![0, 0, 0]),
            &Stack::from_target(vec![0, 0, 0])
        ),
        Stack::from_target(vec![0, 0, 0])
    );

    assert_eq!(
        <ConcreteFiveLimitStackType as HasFundamental>::fundamental(
            &Stack::from_target(vec![0, 0, 0]),
            &Stack::from_target(vec![1, 0, 0])
        ),
        Stack::from_target(vec![0, 0, 0])
    );

    assert_eq!(
        <ConcreteFiveLimitStackType as HasFundamental>::fundamental(
            &Stack::from_target(vec![1, 0, 0]),
            &Stack::from_target(vec![0, 0, 0])
        ),
        Stack::from_target(vec![0, 0, 0])
    );

    assert_eq!(
        <ConcreteFiveLimitStackType as HasFundamental>::fundamental(
            &Stack::from_target(vec![0, 0, 0]),
            &Stack::from_target(vec![1, 1, 0])
        ),
        Stack::from_target(vec![0, 0, 0])
    );

    assert_eq!(
        <ConcreteFiveLimitStackType as HasFundamental>::fundamental(
            &Stack::from_target(vec![0, 0, 0]),
            &Stack::from_target(vec![2, 0, 1])
        ),
        Stack::from_target(vec![0, 0, 0])
    );

    assert_eq!(
        <ConcreteFiveLimitStackType as HasFundamental>::fundamental(
            &Stack::from_target(vec![0, 0, 0]),
            &Stack::from_target(vec![0, 0, 1])
        ),
        Stack::from_target(vec![-2, 0, 0])
    );

    assert_eq!(
        <ConcreteFiveLimitStackType as HasFundamental>::fundamental(
            &Stack::from_target(vec![0, 1, 0]),
            &Stack::from_target(vec![0, 0, 1])
        ),
        Stack::from_target(vec![-2, 0, 0])
    );

    assert_eq!(
        <ConcreteFiveLimitStackType as HasFundamental>::fundamental(
            &Stack::from_target(vec![0, 0, 0]),
            &Stack::from_target(vec![-1, 2, 0])
        ),
        Stack::from_target(vec![-3, 0, 0])
    );

    assert_eq!(
        <ConcreteFiveLimitStackType as HasFundamental>::fundamental(
            &Stack::from_target(vec![0, -1, 0]),
            &Stack::from_target(vec![0, 0, 1])
        ),
        Stack::from_target(vec![-3, -1, 0])
    );

    assert_eq!(
        <ConcreteFiveLimitStackType as HasFundamental>::fundamental(
            &Stack::from_target(vec![0, -1, 0]),
            &Stack::from_target(vec![1, -1, 0])
        ),
        Stack::from_target(vec![0, -1, 0])
    );
}

#[test]
fn fundamental_is_symmetric_and_below_both() {
    let a = Stack::<ConcreteFiveLimitStackType>::from_target(vec![1, 2, -1]);
    let b = Stack::<ConcreteFiveLimitStackType>::from_target(vec![0, -1, 2]);
    let ab = <ConcreteFiveLimitStackType as HasFundamental>::fundamental(&a, &b);
    let ba = <ConcreteFiveLimitStackType as HasFundamental>::fundamental(&b, &a);
    assert_eq!(ab.target, ba.target);
    // prime exponents: a = 2^(1-2+2) 3^2 5^-1, b = 2^(0+1-4) 3^-1 5^2
    // fundamental: 2^-3 3^-1 5^-1, i.e. -3 = o - f - 2t with f = -1, t = -1: o = -6
    assert_eq!(ab, Stack::from_target(vec![-6, -1, -1]));
}

#[test]
fn fundamental_in_place_of_a_tempered_stack() {
    let a = Stack::<ConcreteFiveLimitStackType>::from_target(vec![0, 0, 0]);
    let mut b = Stack::<ConcreteFiveLimitStackType>::from_temperaments_and_target(&[true, false], vec![0, 1, 0]);
    <ConcreteFiveLimitStackType as HasFundamental>::fundamental_inplace(&a, &mut b);
    assert_eq!(b.target, vec![-1, 0, 0]);
    assert_eq!(
        b.actual,
        vec![Rational::new(-5, 12), Rational::new(-1, 1), Rational::new(0, 1)]
    );
}

#[test]
fn the_five_limit_stack_type() {
    assert_eq!(ConcreteFiveLimitStackType::num_intervals(), 3);
    assert_eq!(ConcreteFiveLimitStackType::key_distance(0), 12);
    assert_eq!(ConcreteFiveLimitStackType::key_distance(1), 7);
    assert_eq!(ConcreteFiveLimitStackType::key_distance(2), 4);
    assert_eq!(ConcreteFiveLimitStackType::octave_index(), 0);
    assert_eq!(ConcreteFiveLimitStackType::fifth_index(), 1);
    assert_eq!(ConcreteFiveLimitStackType::third_index(), 2);
    assert_eq!(ConcreteFiveLimitStackType::period_index(), 0);
    assert_eq!(ConcreteFiveLimitStackType::period_keys(), 12);
    assert_eq!(ConcreteFiveLimitStackType::num_temperaments(), 2);
    let temps = ConcreteFiveLimitStackType::temperaments();
    assert_eq!(temps[0].name, "12edo");
    // quarter-comma meantone: four fifths are two octaves and a third
    assert_eq!(
        temps[1].adjustment(&[0, 1, 0]),
        vec![Rational::new(2, 4), Rational::new(-4, 4), Rational::new(1, 4)]
    );
    assert_eq!(
        temps[1].adjustment(&[1, 0, 0]),
        vec![Rational::from_integer(0), Rational::from_integer(0), Rational::from_integer(0)]
    );
    assert_eq!(
        temps[1].adjustment(&[0, 0, 1]),
        vec![Rational::from_integer(0), Rational::from_integer(0), Rational::from_integer(0)]
    );
    assert_eq!(temps[0].comma(1), vec![Rational::new(7, 12), Rational::new(-1, 1), Rational::new(0, 1)]);
}
