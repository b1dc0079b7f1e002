//! The position of notes on the staff, and what is drawn for them: the glyphs of their
//! accidentals, their ledger lines, and the order in which the notes of a chord get their
//! accidentals.
use std::time::Instant;

use crate::interval::stack::Stack;
use crate::interval::stacktype::{FiveLimitStackType, StackCoeff};
use crate::keystate::KeyState;
use crate::notename::johnston::fivelimit::{
    base_index, johnston_name, johnston_name_fits, Accidental, BaseName, NoteName,
};
use crate::process::fromstrategy::NoteTracker;
use crate::rational::fits_i64;
use vstd::prelude::*;

verus! {

broadcast use vstd::seq_lib::group_seq_properties;

/// The line or space of the staff on which the note stands, counted in steps of the diatonic
/// scale from middle C (`C 4` is 0, `D 4` is 1, `C 5` is 7).
pub open spec fn spec_vertical_index(n: NoteName) -> int {
    (n.octave - 4) * 7 + base_index(n.basename)
}

/// The staff position of `n` fits in a [StackCoeff].
pub open spec fn vertical_index_fits(n: NoteName) -> bool {
    &&& fits_i64(n.octave - 4)
    &&& fits_i64((n.octave - 4) * 7)
    &&& fits_i64(spec_vertical_index(n))
}

/// The staff position [spec_vertical_index] of `n`.
pub fn vertical_index(n: &NoteName) -> (v: StackCoeff)
    requires
        vertical_index_fits(*n),
    ensures
        v == spec_vertical_index(*n),
{
    let b: StackCoeff = match n.basename {
        BaseName::C => 0,
        BaseName::D => 1,
        BaseName::E => 2,
        BaseName::F => 3,
        BaseName::G => 4,
        BaseName::A => 5,
        BaseName::B => 6,
    };
    (n.octave - 4) * 7 + b
}

/// The glyphs on the staff.
#[derive(Clone, Copy, Debug, PartialEq, Eq, Structural)]
pub enum NoteShape {
    BassClef,
    TrebleClef,
    WholeNote,
    Natural,
    Sharp,
    Flat,
    DoubleSharp,
    DoubleFlat,
    Plus,
    Minus,
}

/// The glyphs of an accidental, from right to left: one plus per syntonic comma up (or minus per
/// comma down), then one double sharp per two sharps and a sharp for an odd one (or the same with
/// flats).
pub open spec fn spec_accidental_shapes(a: Accidental) -> Seq<NoteShape> {
    let commas = if a.plusminus > 0 {
        Seq::new(a.plusminus as nat, |i: int| NoteShape::Plus)
    } else {
        Seq::new((-a.plusminus) as nat, |i: int| NoteShape::Minus)
    };
    let sharps = if a.sharpflat > 0 {
        Seq::new((a.sharpflat / 2) as nat, |i: int| NoteShape::DoubleSharp) + if a.sharpflat % 2
            == 1 {
            seq![NoteShape::Sharp]
        } else {
            Seq::empty()
        }
    } else {
        Seq::new(((-a.sharpflat) / 2) as nat, |i: int| NoteShape::DoubleFlat) + if (-a.sharpflat)
            % 2 == 1 {
            seq![NoteShape::Flat]
        } else {
            Seq::empty()
        }
    };
    commas + sharps
}

fn push_shapes(r: &mut Vec<NoteShape>, shape: NoteShape, count: u64)
    requires
        old(r)@.len() + count <= usize::MAX,
    ensures
        final(r)@ == old(r)@ + Seq::new(count as nat, |i: int| shape),
{
    let mut i: u64 = 0;
    while i < count
        invariant
            i <= count,
            old(r)@.len() + count <= usize::MAX,
            r@ == old(r)@ + Seq::new(i as nat, |j: int| shape),
        decreases count - i,
    {
        r.push(shape);
        i += 1;
        assert(r@ =~= old(r)@ + Seq::new(i as nat, |j: int| shape));
    }
}

/// The glyphs that are drawn for the accidental `a`, from right to left; see
/// [spec_accidental_shapes].
pub fn accidental_shapes(a: &Accidental) -> (r: Vec<NoteShape>)
    requires
        a.plusminus != i64::MIN,
        a.sharpflat != i64::MIN,
        spec_accidental_shapes(*a).len() <= usize::MAX,
    ensures
        r@ == spec_accidental_shapes(*a),
{
    let mut r: Vec<NoteShape> = Vec::new();
    let n_commas: u64 = if a.plusminus > 0 {
        a.plusminus as u64
    } else {
        (-a.plusminus) as u64
    };
    let n_double: u64 = if a.sharpflat > 0 {
        (a.sharpflat / 2) as u64
    } else {
        ((-a.sharpflat) / 2) as u64
    };
    let odd: bool = if a.sharpflat > 0 {
        a.sharpflat % 2 == 1
    } else {
        (-a.sharpflat) % 2 == 1
    };
    if a.plusminus > 0 {
        push_shapes(&mut r, NoteShape::Plus, n_commas);
    } else {
        push_shapes(&mut r, NoteShape::Minus, n_commas);
    }
    let ghost commas = r@;
    if a.sharpflat > 0 {
        push_shapes(&mut r, NoteShape::DoubleSharp, n_double);
        if odd {
            r.push(NoteShape::Sharp);
        }
    } else {
        push_shapes(&mut r, NoteShape::DoubleFlat, n_double);
        if odd {
            r.push(NoteShape::Flat);
        }
    }
    assert(r@ =~= spec_accidental_shapes(*a));
    r
}

/// The ledger lines of a note at the staff position `v`, as the range `(lowest, highest)` of the
/// staff positions (all of the same parity as `lowest`, i.e. even) they are drawn at: middle C
/// gets one, and notes more than a line above or below the staves get one at every line position
/// up to the note.
pub open spec fn spec_ledger_lines(v: int) -> Option<(int, int)> {
    if v == 0 {
        Some((0, 0))
    } else if v >= 12 {
        Some((12, v - v % 2))
    } else if v <= -12 {
        Some((v + v % 2, -12))
    } else {
        None
    }
}

/// The ledger lines for a note at the staff position `vertical_index`, drawn at every second
/// staff position from the first to the second of the pair; see [spec_ledger_lines].
pub fn ledger_lines(vertical_index: StackCoeff) -> (r: Option<(StackCoeff, StackCoeff)>)
    ensures
        r == match spec_ledger_lines(vertical_index as int) {
            Some((lo, hi)) => Some((lo as i64, hi as i64)),
            None => None,
        },
        r matches Some((lo, hi)) ==> lo % 2 == 0 && hi % 2 == 0 && lo <= hi,
{
    if vertical_index == 0 {
        Some((0, 0))
    } else if vertical_index > 10 {
        if vertical_index >= 12 {
            Some((12, vertical_index - vertical_index % 2))
        } else {
            None
        }
    } else if vertical_index < -10 {
        let mut i = vertical_index;
        // the positions of lines are even
        if i % 2 != 0 {
            i += 1;
        }
        proof {
            assert(vertical_index as int % 2 == if vertical_index % 2 == 0 { 0int } else { 1int });
        }
        if i <= -12 {
            Some((i, -12))
        } else {
            None
        }
    } else {
        None
    }
}

/// The accidental has sharps (whose glyphs reach further down than those of flats).
pub open spec fn has_sharps(a: Accidental) -> bool {
    a.sharpflat > 0 && a.sharpflat % 2 == 1
}

/// Whether the accidental of a note `index_offset` staff positions below a neighbouring note may
/// stand as far right as the neighbour's accidental (else it has to stand left of it): where the
/// notes are at least a seventh apart, or a sixth apart and the higher note has no sharps.
pub open spec fn spec_accidental_beside(index_offset: int, new: Accidental, neighbour: Accidental) -> bool {
    ||| index_offset >= 6 || index_offset <= -6
    ||| index_offset == 5 && !has_sharps(neighbour)
    ||| index_offset == -5 && !has_sharps(new)
}

/// Where the accidental of a new note may stand next to the accidental of a neighbouring note
/// `index_offset` staff positions above it; see [spec_accidental_beside].
pub fn accidental_beside(index_offset: StackCoeff, new: &Accidental, neighbour: &Accidental) -> (b: bool)
    ensures
        b == spec_accidental_beside(index_offset as int, *new, *neighbour),
{
    // if the notes are a at least a seventh apart, no offset is needed
    if index_offset >= 6 || index_offset <= -6 {
        return true;
    }
    let has_sharps = |a: &Accidental| -> (b: bool)
        ensures
            b == has_sharps(*a),
        { a.sharpflat > 0 && a.sharpflat % 2 == 1 };
    // For a sixth, if the higher note doesn't have sharps (which descend), no offset is needed
    (index_offset == 5 && !has_sharps(neighbour)) || (index_offset == -5 && !has_sharps(new))
}

// ---------------------------------------------------------------------------------------------
// The order of the notes of a chord
// ---------------------------------------------------------------------------------------------

/// The note has an accidental (sharps, flats, or commas).
pub open spec fn has_accidental(n: NoteName) -> bool {
    n.accidental.plusminus != 0 || n.accidental.sharpflat != 0
}

/// `x` inserted into `s` after the last note that is at most as high as `x`, counting from the
/// end: where `s` is sorted by staff position, the result is too, and `x` comes after the notes
/// at its position.
pub open spec fn insert_by_index(s: Seq<NoteName>, x: NoteName) -> Seq<NoteName>
    decreases s.len(),
{
    if s.len() == 0 {
        seq![x]
    } else if spec_vertical_index(s.last()) <= spec_vertical_index(x) {
        s.push(x)
    } else {
        insert_by_index(s.drop_last(), x).push(s.last())
    }
}

/// The notes sorted by their staff position, lowest first; notes at the same position keep their
/// order.
pub open spec fn sorted_by_index(s: Seq<NoteName>) -> Seq<NoteName>
    decreases s.len(),
{
    if s.len() == 0 {
        s
    } else {
        insert_by_index(sorted_by_index(s.drop_last()), s.last())
    }
}

/// The notes alternately from the bottom and from the top: the lowest, the highest, the second
/// lowest, the second highest, and so on.
pub open spec fn alternate(a: Seq<NoteName>) -> Seq<NoteName>
    decreases a.len(),
{
    if a.len() <= 1 {
        a
    } else {
        seq![a[0], a.last()] + alternate(a.subrange(1, a.len() - 1))
    }
}

/// The order in which the notes of a chord are drawn: the notes without accidentals first, then
/// those with accidentals alternately from the bottom and from the top (so that the accidentals
/// of neighbouring notes can stand beside each other), each group by staff position.
pub open spec fn spec_chord_order(notes: Seq<NoteName>) -> Seq<NoteName> {
    let sorted = sorted_by_index(notes);
    sorted.filter(|n: NoteName| !has_accidental(n)) + alternate(
        sorted.filter(|n: NoteName| has_accidental(n)),
    )
}

proof fn lemma_insert_at(s: Seq<NoteName>, x: NoteName, p: int)
    requires
        0 <= p <= s.len(),
        forall|i: int| p <= i < s.len() ==> spec_vertical_index(#[trigger] s[i]) > spec_vertical_index(x),
        p > 0 ==> spec_vertical_index(s[p - 1]) <= spec_vertical_index(x),
    ensures
        insert_by_index(s, x) == s.insert(p, x),
    decreases s.len() - p,
{
    if s.len() == 0 {
        assert(s.insert(p, x) =~= seq![x]);
    } else if p == s.len() {
        assert(s.insert(p, x) =~= s.push(x));
    } else {
        let s1 = s.drop_last();
        assert forall|i: int| p <= i < s1.len() implies spec_vertical_index(#[trigger] s1[i]) > spec_vertical_index(x) by {
            assert(s1[i] == s[i]);
        }
        if p > 0 {
            assert(s1[p - 1] == s[p - 1]);
        }
        lemma_insert_at(s1, x, p);
        assert(s1.insert(p, x).push(s.last()) =~= s.insert(p, x));
    }
}

proof fn lemma_insert_multiset(s: Seq<NoteName>, x: NoteName)
    ensures
        insert_by_index(s, x).to_multiset() == s.to_multiset().insert(x),
    decreases s.len(),
{
    broadcast use vstd::seq_lib::group_to_multiset_ensures;

    if s.len() > 0 && spec_vertical_index(s.last()) > spec_vertical_index(x) {
        lemma_insert_multiset(s.drop_last(), x);
        assert(s.drop_last().push(s.last()) =~= s);
        assert(s.drop_last().to_multiset().insert(x).insert(s.last()) =~= s.drop_last().to_multiset().insert(
            s.last(),
        ).insert(x));
    } else if s.len() == 0 {
        assert(s.to_multiset() =~= vstd::multiset::Multiset::empty());
        assert(seq![x] =~= s.push(x));
    }
}

proof fn lemma_sorted_multiset(s: Seq<NoteName>)
    ensures
        sorted_by_index(s).to_multiset() == s.to_multiset(),
    decreases s.len(),
{
    broadcast use vstd::seq_lib::group_to_multiset_ensures;

    if s.len() > 0 {
        lemma_sorted_multiset(s.drop_last());
        lemma_insert_multiset(sorted_by_index(s.drop_last()), s.last());
        assert(s.drop_last().push(s.last()) =~= s);
    }
}

proof fn lemma_partition_multiset(s: Seq<NoteName>)
    ensures
        (s.filter(|n: NoteName| !has_accidental(n)) + s.filter(|n: NoteName| has_accidental(n))).to_multiset()
            == s.to_multiset(),
    decreases s.len(),
{
    broadcast use vstd::seq_lib::group_to_multiset_ensures;

    let p = |n: NoteName| !has_accidental(n);
    let q = |n: NoteName| has_accidental(n);
    if s.len() > 0 {
        let s1 = s.drop_last();
        let x = s.last();
        lemma_partition_multiset(s1);
        assert(s1.push(x) =~= s);
        s1.lemma_filter_push(x, p);
        s1.lemma_filter_push(x, q);
        vstd::seq_lib::lemma_multiset_commutative(s.filter(p), s.filter(q));
        vstd::seq_lib::lemma_multiset_commutative(s1.filter(p), s1.filter(q));
    } else {
        assert(s.filter(p) =~= Seq::<NoteName>::empty()) by {
            reveal(Seq::filter);
        }
        assert(s.filter(q) =~= Seq::<NoteName>::empty()) by {
            reveal(Seq::filter);
        }
        assert(s.filter(p) + s.filter(q) =~= s);
    }
}

proof fn lemma_alternate(a: Seq<NoteName>)
    ensures
        alternate(a).len() == a.len(),
        forall|t: int|
            0 <= t < a.len() ==> #[trigger] alternate(a)[t] == if t % 2 == 0 {
                a[t / 2]
            } else {
                a[a.len() - 1 - (t - 1) / 2]
            },
        alternate(a).to_multiset() == a.to_multiset(),
    decreases a.len(),
{
    broadcast use vstd::seq_lib::group_to_multiset_ensures;

    if a.len() > 1 {
        let m = a.subrange(1, a.len() - 1);
        lemma_alternate(m);
        let r = alternate(a);
        assert forall|t: int| 0 <= t < a.len() implies #[trigger] r[t] == if t % 2 == 0 {
            a[t / 2]
        } else {
            a[a.len() - 1 - (t - 1) / 2]
        } by {
            if t >= 2 {
                assert(r[t] == alternate(m)[t - 2]);
                if t % 2 == 0 {
                    assert((t - 2) / 2 == t / 2 - 1);
                    assert(m[(t - 2) / 2] == a[t / 2]);
                } else {
                    assert((t - 3) / 2 == (t - 1) / 2 - 1);
                    assert(m[m.len() - 1 - (t - 3) / 2] == a[a.len() - 1 - (t - 1) / 2]);
                }
            }
        }
        let ends = seq![a[0], a.last()];
        vstd::seq_lib::lemma_multiset_commutative(ends, alternate(m));
        vstd::seq_lib::lemma_multiset_commutative(ends, m);
        assert(a =~= seq![a[0]] + m + seq![a.last()]);
        vstd::seq_lib::lemma_multiset_commutative(seq![a[0]] + m, seq![a.last()]);
        vstd::seq_lib::lemma_multiset_commutative(seq![a[0]], m);
        vstd::seq_lib::lemma_multiset_commutative(seq![a[0]], seq![a.last()]);
        assert(seq![a[0]] + seq![a.last()] =~= ends);
    }
}

/// The order in which a chord is drawn changes the order, but not the content of the notes.
pub proof fn law_chord_order_is_permutation(notes: Seq<NoteName>)
    ensures
        spec_chord_order(notes).to_multiset() == notes.to_multiset(),
{
    let sorted = sorted_by_index(notes);
    let p = |n: NoteName| !has_accidental(n);
    let q = |n: NoteName| has_accidental(n);
    lemma_sorted_multiset(notes);
    lemma_partition_multiset(sorted);
    lemma_alternate(sorted.filter(q));
    vstd::seq_lib::lemma_multiset_commutative(sorted.filter(p), alternate(sorted.filter(q)));
    vstd::seq_lib::lemma_multiset_commutative(sorted.filter(p), sorted.filter(q));
}

/// The order in which the notes of a chord are drawn (see [spec_chord_order]), and the number of
/// notes without accidentals, which come first.
pub fn chord_order(notes: &[NoteName]) -> (r: (Vec<NoteName>, usize))
    requires
        forall|i: int| 0 <= i < notes@.len() ==> vertical_index_fits(#[trigger] notes@[i]),
    ensures
        r.0@ == spec_chord_order(notes@),
        r.1 == sorted_by_index(notes@).filter(|n: NoteName| !has_accidental(n)).len(),
{
    // sort lowest to highest
    let mut sorted: Vec<NoteName> = Vec::new();
    let mut t: usize = 0;
    while t < notes.len()
        invariant
            t <= notes@.len(),
            forall|i: int| 0 <= i < notes@.len() ==> vertical_index_fits(#[trigger] notes@[i]),
            sorted@ == sorted_by_index(notes@.take(t as int)),
            sorted@.to_multiset() == notes@.take(t as int).to_multiset(),
        decreases notes@.len() - t,
    {
        let x = notes[t];
        let ghost before = sorted@;
        proof {
            lemma_sorted_multiset(notes@.take(t as int));
            assert forall|i: int| 0 <= i < before.len() implies vertical_index_fits(#[trigger] before[i]) by {
                assert(before.to_multiset().count(before[i]) > 0) by {
                    broadcast use vstd::seq_lib::group_to_multiset_ensures;
                    assert(before.contains(before[i]));
                }
                assert(notes@.take(t as int).contains(before[i])) by {
                    broadcast use vstd::seq_lib::group_to_multiset_ensures;
                }
                let k = choose|k: int| 0 <= k < t && notes@.take(t as int)[k] == before[i];
                assert(notes@[k] == before[i]);
            }
        }
        let vx = vertical_index(&x);
        let mut p: usize = sorted.len();
        while p > 0 && vertical_index(&sorted[p - 1]) > vx
            invariant
                p <= sorted@.len(),
                sorted@ == before,
                vx == spec_vertical_index(x),
                forall|i: int| 0 <= i < before.len() ==> vertical_index_fits(#[trigger] before[i]),
                forall|i: int| p <= i < before.len() ==> spec_vertical_index(#[trigger] before[i]) > vx,
            decreases p,
        {
            p -= 1;
        }
        proof {
            lemma_insert_at(before, x, p as int);
            assert(notes@.take(t as int + 1) =~= notes@.take(t as int).push(x));
            assert(notes@.take(t as int + 1).drop_last() =~= notes@.take(t as int));
            lemma_insert_multiset(before, x);
            broadcast use vstd::seq_lib::group_to_multiset_ensures;
        }
        sorted.insert(p, x);
        t += 1;
    }
    proof {
        assert(notes@.take(notes@.len() as int) =~= notes@);
    }
    // notes without accidentals come first
    let ghost pred_plain = |n: NoteName| !has_accidental(n);
    let ghost pred_acc = |n: NoteName| has_accidental(n);
    let mut plain: Vec<NoteName> = Vec::new();
    let mut with_acc: Vec<NoteName> = Vec::new();
    let mut t: usize = 0;
    while t < sorted.len()
        invariant
            t <= sorted@.len(),
            pred_plain == (|n: NoteName| !has_accidental(n)),
            pred_acc == (|n: NoteName| has_accidental(n)),
            plain@ == sorted@.take(t as int).filter(pred_plain),
            with_acc@ == sorted@.take(t as int).filter(pred_acc),
        decreases sorted@.len() - t,
    {
        let x = sorted[t];
        proof {
            assert(sorted@.take(t as int + 1) =~= sorted@.take(t as int).push(x));
            sorted@.take(t as int).lemma_filter_push(x, pred_plain);
            sorted@.take(t as int).lemma_filter_push(x, pred_acc);
        }
        if x.accidental.plusminus != 0 || x.accidental.sharpflat != 0 {
            assert(pred_acc(x) && !pred_plain(x));
            with_acc.push(x);
        } else {
            assert(!pred_acc(x) && pred_plain(x));
            plain.push(x);
        }
        assert(plain@ == sorted@.take(t as int + 1).filter(pred_plain));
        assert(with_acc@ == sorted@.take(t as int + 1).filter(pred_acc));
        t += 1;
    }
    proof {
        assert(sorted@.take(sorted@.len() as int) =~= sorted@);
    }
    // we want to alternate accidentals between high and low notes
    let first_accidental = plain.len();
    let m = with_acc.len();
    let mut r = plain;
    let mut t: usize = 0;
    while t < m
        invariant
            t <= m,
            m == with_acc@.len(),
            r@.len() == first_accidental + t,
            pred_plain == (|n: NoteName| !has_accidental(n)),
            pred_acc == (|n: NoteName| has_accidental(n)),
            with_acc@ == sorted@.filter(pred_acc),
            sorted@ == sorted_by_index(notes@),
            forall|u: int| 0 <= u < first_accidental ==> #[trigger] r@[u] == sorted@.filter(pred_plain)[u],
            first_accidental == sorted@.filter(pred_plain).len(),
            forall|u: int|
                0 <= u < t ==> #[trigger] r@[first_accidental + u] == if u % 2 == 0 {
                    with_acc@[u / 2]
                } else {
                    with_acc@[m - 1 - (u - 1) / 2]
                },
        decreases m - t,
    {
        let x = if t % 2 == 0 {
            with_acc[t / 2]
        } else {
            with_acc[m - 1 - (t - 1) / 2]
        };
        r.push(x);
        t += 1;
    }
    proof {
        lemma_alternate(with_acc@);
        assert(r@ =~= spec_chord_order(notes@)) by {
            assert forall|u: int| 0 <= u < r@.len() implies r@[u] == spec_chord_order(notes@)[u] by {
                if u >= first_accidental {
                    assert(r@[first_accidental + (u - first_accidental)] == r@[u]);
                }
            }
        }
    }
    (r, first_accidental)
}

// ---------------------------------------------------------------------------------------------
// The state of the note window
// ---------------------------------------------------------------------------------------------

/// The name of the target of the tuning of a key.
pub open spec fn tuning_name<T: FiveLimitStackType>(s: Stack<T>) -> NoteName {
    johnston_name(
        s.target@[T::spec_octave_index() as int] as int,
        s.target@[T::spec_fifth_index() as int] as int,
        s.target@[T::spec_third_index() as int] as int,
    )
}

/// The name of the tuning of a key can be computed.
pub open spec fn tuning_name_fits<T: FiveLimitStackType>(s: Stack<T>) -> bool {
    &&& s.wf()
    &&& johnston_name_fits(
        s.target@[T::spec_octave_index() as int] as int,
        s.target@[T::spec_fifth_index() as int] as int,
        s.target@[T::spec_third_index() as int] as int,
    )
}

/// The names of the tunings of the sounding ones among the first `n` keys, from the lowest up.
pub open spec fn sounding_names<T: FiveLimitStackType>(
    keys: Seq<KeyState>,
    tunings: Seq<Stack<T>>,
    n: int,
) -> Seq<NoteName>
    decreases n,
{
    if n <= 0 {
        Seq::empty()
    } else {
        sounding_names(keys, tunings, n - 1) + if keys[n - 1].spec_is_sounding() {
            seq![tuning_name(tunings[n - 1])]
        } else {
            Seq::empty()
        }
    }
}

/// What the note window shows: the sounding keys (as the MIDI it is sent makes them sound) and
/// the current tuning of every key.
pub struct NoteWindow<T: FiveLimitStackType> {
    notes: NoteTracker,
    tunings: Vec<Stack<T>>,
}

impl<T: FiveLimitStackType> NoteWindow<T> {
    /// The state of each key, and whether the sustain pedal is held on each channel.
    pub closed spec fn spec_notes(&self) -> (Seq<KeyState>, Seq<bool>) {
        (self.notes.spec_keys(), self.notes.spec_pedal())
    }

    /// The tuning of each key.
    pub closed spec fn spec_tunings(&self) -> Seq<Stack<T>> {
        self.tunings@
    }

    /// One tuning per key, and one state per key.
    pub open spec fn wf(&self) -> bool {
        &&& self.spec_tunings().len() == 128
        &&& self.spec_notes().0.len() == 128
        &&& self.spec_notes().1.len() == 16
    }

    /// Nothing sounds, and every key is tuned to the zero stack.
    pub fn new() -> (w: Self)
        ensures
            w.wf(),
            forall|k: int| 0 <= k < 128 ==> #[trigger] w.spec_notes().0[k].channels() == (0u16, 0u16),
            w.spec_notes().1 == Seq::new(16, |i: int| false),
            forall|k: int|
                0 <= k < 128 ==> (#[trigger] w.spec_tunings()[k]).target@ == Seq::new(
                    T::spec_key_distances().len(),
                    |i: int| 0i64,
                ) && w.spec_tunings()[k].wf(),
    {
        let notes = NoteTracker::new();
        let mut tunings: Vec<Stack<T>> = Vec::new();
        while tunings.len() < 128
            invariant
                tunings@.len() <= 128,
                forall|k: int|
                    0 <= k < tunings@.len() ==> (#[trigger] tunings@[k]).target@ == Seq::new(
                        T::spec_key_distances().len(),
                        |i: int| 0i64,
                    ) && tunings@[k].wf(),
            decreases 128 - tunings@.len(),
        {
            tunings.push(Stack::new_zero());
        }
        NoteWindow { notes, tunings }
    }

    /// A key was pressed on `channel`.
    pub fn note_on(&mut self, channel: u8, note: u8, time: Instant)
        requires
            old(self).wf(),
            channel < 16,
            note < 128,
        ensures
            final(self).wf(),
            final(self).spec_tunings() == old(self).spec_tunings(),
            final(self).spec_notes().1 == old(self).spec_notes().1,
            final(self).spec_notes().0 == old(self).spec_notes().0.update(
                note as int,
                final(self).spec_notes().0[note as int],
            ),
            final(self).spec_notes().0[note as int].channels() == crate::keystate::after_note_on(
                old(self).spec_notes().0[note as int].channels().0,
                old(self).spec_notes().0[note as int].channels().1,
                channel,
            ),
    {
        self.notes.note_on(channel, note, time);
    }

    /// A key was released on `channel`: it keeps sounding while the pedal of the channel is held.
    pub fn note_off(&mut self, channel: u8, note: u8, time: Instant)
        requires
            old(self).wf(),
            channel < 16,
            note < 128,
        ensures
            final(self).wf(),
            final(self).spec_tunings() == old(self).spec_tunings(),
            final(self).spec_notes().1 == old(self).spec_notes().1,
            final(self).spec_notes().0 == old(self).spec_notes().0.update(
                note as int,
                final(self).spec_notes().0[note as int],
            ),
            final(self).spec_notes().0[note as int].channels() == crate::keystate::after_note_off(
                old(self).spec_notes().0[note as int].channels().0,
                old(self).spec_notes().0[note as int].channels().1,
                channel,
                old(self).spec_notes().1[channel as int],
            ),
    {
        self.notes.note_off(channel, note, time);
    }

    /// The sustain pedal of `channel` was set to `value`; when it is released, the keys it held on
    /// that channel are released.
    pub fn hold(&mut self, channel: u8, value: u8, time: Instant)
        requires
            old(self).wf(),
            channel < 16,
        ensures
            final(self).wf(),
            final(self).spec_tunings() == old(self).spec_tunings(),
            final(self).spec_notes().1 == old(self).spec_notes().1.update(channel as int, value > 0),
            value > 0 ==> final(self).spec_notes().0 == old(self).spec_notes().0,
            value == 0 ==> forall|k: int|
                0 <= k < 128 ==> #[trigger] final(self).spec_notes().0[k].channels()
                    == crate::keystate::after_pedal_off(
                    old(self).spec_notes().0[k].channels().0,
                    old(self).spec_notes().0[k].channels().1,
                    channel,
                ),
    {
        let _released = self.notes.hold(channel, value, time);
    }

    /// The key `note` is now tuned to `tuning_stack`.
    pub fn retune(&mut self, note: u8, tuning_stack: &Stack<T>)
        requires
            old(self).wf(),
            note < 128,
        ensures
            final(self).wf(),
            final(self).spec_notes() == old(self).spec_notes(),
            final(self).spec_tunings().len() == 128,
            forall|k: int|
                0 <= k < 128 && k != note ==> #[trigger] final(self).spec_tunings()[k] == old(
                    self,
                ).spec_tunings()[k],
            final(self).spec_tunings()[note as int].target@ == tuning_stack.target@,
            final(self).spec_tunings()[note as int].actual@ == tuning_stack.actual@,
    {
        self.tunings.set(note as usize, tuning_stack.clone());
    }

    /// The names of the tunings of the sounding keys, from the lowest up: the notes of the chord
    /// that is drawn.
    pub fn sounding_notes(&self) -> (r: Vec<NoteName>)
        requires
            self.wf(),
            forall|k: int|
                0 <= k < 128 && (#[trigger] self.spec_notes().0[k]).spec_is_sounding()
                    ==> tuning_name_fits(self.spec_tunings()[k]),
        ensures
            r@ == sounding_names(self.spec_notes().0, self.spec_tunings(), 128),
    {
        let keys = self.notes.key_states();
        let mut r: Vec<NoteName> = Vec::new();
        let mut i: usize = 0;
        while i < 128
            invariant
                i <= 128,
                keys@ == self.spec_notes().0,
                self.wf(),
                forall|k: int|
                    0 <= k < 128 && (#[trigger] self.spec_notes().0[k]).spec_is_sounding()
                        ==> tuning_name_fits(self.spec_tunings()[k]),
                r@ == sounding_names(self.spec_notes().0, self.spec_tunings(), i as int),
            decreases 128 - i,
        {
            if keys[i].is_sounding() {
                let name = NoteName::new(&self.tunings[i]);
                r.push(name);
            }
            i += 1;
        }
        r
    }
}

} // verus!
