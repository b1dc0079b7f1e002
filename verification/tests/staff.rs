use std::time::Instant;

use adaptuner::gui::notewindow::{
    accidental_beside, accidental_shapes, chord_order, ledger_lines, NoteShape, NoteWindow,
};
use adaptuner::interval::stack::Stack;
use adaptuner::interval::stacktype::fivelimit::ConcreteFiveLimitStackType;
use adaptuner::notename::johnston::fivelimit::{Accidental, BaseName, NoteName};

fn acc(sharpflat: i64, plusminus: i64) -> Accidental {
    Accidental { sharpflat, plusminus }
}

fn note(basename: BaseName, octave: i64, sharpflat: i64, plusminus: i64) -> NoteName {
    NoteName { basename, octave, accidental: acc(sharpflat, plusminus) }
}

#[test]
fn glyphs_of_accidentals() {
    assert_eq!(accidental_shapes(&acc(0, 0)), vec![]);
    assert_eq!(accidental_shapes(&acc(1, 0)), vec![NoteShape::Sharp]);
    assert_eq!(accidental_shapes(&acc(-1, 0)), vec![NoteShape::Flat]);
    assert_eq!(
        accidental_shapes(&acc(3, 1)),
        vec![NoteShape::Plus, NoteShape::DoubleSharp, NoteShape::Sharp]
    );
    assert_eq!(
        accidental_shapes(&acc(-4, -2)),
        vec![NoteShape::Minus, NoteShape::Minus, NoteShape::DoubleFlat, NoteShape::DoubleFlat]
    );
}

#[test]
fn ledger_lines_of_notes() {
    // middle C
    assert_eq!(ledger_lines(0), Some((0, 0)));
    // on the staves
    assert_eq!(ledger_lines(5), None);
    assert_eq!(ledger_lines(-10), None);
    // just above and below the staves
    assert_eq!(ledger_lines(11), None);
    assert_eq!(ledger_lines(-11), None);
    // above the treble staff: A 5 is 12, C 6 is 14
    assert_eq!(ledger_lines(12), Some((12, 12)));
    assert_eq!(ledger_lines(15), Some((12, 14)));
    // below the bass staff
    assert_eq!(ledger_lines(-12), Some((-12, -12)));
    assert_eq!(ledger_lines(-15), Some((-14, -12)));
}

#[test]
fn accidentals_of_neighbours() {
    let sharp = acc(1, 0);
    let flat = acc(-1, 0);
    // a seventh apart: no offset
    assert!(accidental_beside(6, &sharp, &sharp));
    assert!(accidental_beside(-6, &sharp, &sharp));
    // a sixth apart: no offset, unless the higher note has a sharp
    assert!(accidental_beside(5, &sharp, &flat));
    assert!(!accidental_beside(5, &flat, &sharp));
    assert!(accidental_beside(-5, &flat, &sharp));
    assert!(!accidental_beside(-5, &sharp, &flat));
    // closer: always an offset
    assert!(!accidental_beside(2, &flat, &flat));
}

#[test]
fn chord_order_alternates_accidentals() {
    let c4 = note(BaseName::C, 4, 0, 0);
    let e4 = note(BaseName::E, 4, 0, 0);
    let fs4 = note(BaseName::F, 4, 1, 0);
    let bb4 = note(BaseName::B, 4, -1, 0);
    let cs5 = note(BaseName::C, 5, 1, 0);
    let d5p = note(BaseName::D, 5, 0, 1);
    let g5 = note(BaseName::G, 5, 0, 0);
    let (order, first_accidental) = chord_order(&[d5p, g5, bb4, c4, cs5, fs4, e4]);
    assert_eq!(first_accidental, 3);
    // plain notes from the bottom, then the accidentals: lowest, highest, second lowest, ...
    assert_eq!(order, vec![c4, e4, g5, fs4, d5p, bb4, cs5]);
}

#[test]
fn chord_order_keeps_notes_at_the_same_position_in_order() {
    let c4 = note(BaseName::C, 4, 0, 0);
    let cs4 = note(BaseName::C, 4, 1, 0);
    let cb4 = note(BaseName::C, 4, -1, 0);
    let (order, first_accidental) = chord_order(&[cs4, c4, cb4]);
    assert_eq!(first_accidental, 1);
    assert_eq!(order, vec![c4, cs4, cb4]);
    assert_eq!(chord_order(&[]), (vec![], 0));
}

#[test]
fn note_window_shows_the_sounding_keys() {
    type T5 = ConcreteFiveLimitStackType;
    let t = Instant::now();
    let mut w = NoteWindow::<T5>::new();
    assert!(w.sounding_notes().is_empty());
    // E 4 as a pure major third above middle C, and G 4 as a fifth
    w.retune(64, &Stack::from_target(vec![0, 0, 1]));
    w.retune(67, &Stack::from_target(vec![0, 1, 0]));
    w.note_on(0, 67, t);
    w.note_on(0, 64, t);
    w.note_on(0, 60, t);
    assert_eq!(
        w.sounding_notes(),
        vec![
            note(BaseName::C, 4, 0, 0),
            note(BaseName::E, 4, 0, 0),
            note(BaseName::G, 4, 0, 0)
        ]
    );
    // the pedal keeps a released key sounding until it is released itself
    w.hold(0, 127, t);
    w.note_off(0, 64, t);
    assert_eq!(w.sounding_notes().len(), 3);
    w.hold(0, 0, t);
    assert_eq!(
        w.sounding_notes(),
        vec![note(BaseName::C, 4, 0, 0), note(BaseName::G, 4, 0, 0)]
    );
    // a release on another channel does not stop the key
    w.note_off(1, 60, t);
    assert_eq!(w.sounding_notes().len(), 2);
}
