use adaptuner::gui::notewindow::vertical_index;
use adaptuner::interval::stack::Stack;
use adaptuner::interval::stacktype::fivelimit::ConcreteFiveLimitStackType;
use adaptuner::notename::johnston::fivelimit::{Accidental, BaseName, NoteName};

type MockStackType = ConcreteFiveLimitStackType;

#[test]
fn test_str_name() {
    let examples = [
        ([0, 0, 0], "C 4"),
        ([-1, 0, 0], "C 3"),
        ([1, 0, 0], "C 5"),
        ([0, -4, 0], "Ab- 1"),
        ([0, -3, 0], "Eb- 2"),
        ([0, -2, 0], "Bb- 2"),
        ([0, -1, 0], "F 3"),
        ([0, 1, 0], "G 4"),
        ([0, 2, 0], "D 5"),
        ([0, 3, 0], "A+ 5"),
        ([0, 4, 0], "E+ 6"),
        ([0, 0, -4], "Bbbb- 2"),
        ([0, 0, -3], "Dbb- 3"),
        ([0, 0, -2], "Fb 3"),
        ([0, 0, -1], "Ab 3"),
        ([0, 0, 1], "E 4"),
        ([0, 0, 2], "G# 4"),
        ([0, 0, 3], "B# 4"),
        ([0, 0, 4], "D## 5"),
        ([0, 0, 5], "F###+ 5"),
        ([-1, 2, 1], "F#+ 4"),
        ([1, -2, 2], "F# 4"),
        ([-4, 8, -2], "C++ 4"),
    ];

    for (coeffs, name) in examples.iter() {
        assert_eq!(
            NoteName::new(&Stack::<MockStackType>::from_target(coeffs.to_vec())).str_full(),
            String::from(*name)
        );
    }
}

#[test]
fn class_name_leaves_out_the_octave() {
    let n = NoteName::new(&Stack::<MockStackType>::from_target(vec![0, 0, 5]));
    assert_eq!(n.str_class(), "F###+");
    let mut s = String::from("x");
    n.write_class(&mut s);
    assert_eq!(s, "xF###+");
    let mut t = String::new();
    n.write_full(&mut t);
    assert_eq!(t, "F###+ 5");
}

#[test]
fn negative_and_large_octaves() {
    let n = NoteName::new(&Stack::<MockStackType>::from_target(vec![-10, 0, 0]));
    assert_eq!(n.str_full(), "C -6");
    let m = NoteName::new(&Stack::<MockStackType>::from_target(vec![123, 0, 0]));
    assert_eq!(m.str_full(), "C 127");
}

#[test]
fn name_from_coefficients_and_fields() {
    let n = NoteName::new_from_coeffs::<MockStackType>(&[0, 0, 2]);
    assert_eq!(
        n,
        NoteName {
            basename: BaseName::G,
            octave: 4,
            accidental: Accidental {
                sharpflat: 1,
                plusminus: 0
            }
        }
    );
}

#[test]
fn staff_positions() {
    let c4 = NoteName::new(&Stack::<MockStackType>::from_target(vec![0, 0, 0]));
    let d5 = NoteName::new(&Stack::<MockStackType>::from_target(vec![0, 2, 0]));
    let bb2 = NoteName::new(&Stack::<MockStackType>::from_target(vec![0, -2, 0]));
    assert_eq!(vertical_index(&c4), 0);
    assert_eq!(vertical_index(&d5), 8);
    assert_eq!(vertical_index(&bb2), -8);
}

#[test]
fn full_name_is_class_space_octave() {
    for octaves in [-5, -4, -1, 0, 5, 6, 96, 1_000_000] {
        for fifths in [-3, 0, 4] {
            let n = NoteName::new(&Stack::<MockStackType>::from_target(vec![octaves, fifths, 1]));
            assert_eq!(n.str_full(), format!("{} {}", n.str_class(), n.octave.to_string()));
        }
    }
    let c = NoteName::new(&Stack::<MockStackType>::from_target(vec![-5, 0, 0]));
    assert_eq!(c.str_full(), "C -1");
}
