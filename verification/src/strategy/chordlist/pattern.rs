//! Matching the set of sounding keys against chord shapes.
use crate::interval::stacktype::StackType;
use crate::keystate::KeyState;
use crate::neighbourhood::SomeNeighbourhood;
use vstd::prelude::*;

verus! {

/// A named chord shape, together with the tunings of its notes.
#[derive(Debug, PartialEq)]
pub struct Pattern<T: StackType> {
    pub name: String,
    pub keyshape: KeyShape,
    pub neighbourhood: SomeNeighbourhood<T>,
}

impl<T: StackType> Pattern<T> {
    pub open spec fn spec_fit(&self, acts: Seq<bool>) -> Fit {
        self.keyshape.spec_fit(acts, 0)
    }

    /// How well the active keys fit the pattern's shape.
    pub fn fit<N: HasActivationStatus>(&self, notes: &[N; 128]) -> (f: Fit)
        requires
            self.keyshape.fit_ok(),
        ensures
            f == self.spec_fit(actives(*notes)),
    {
        self.keyshape.fit(notes, 0)
    }
}

/// No fit reaches beyond the last key.
pub proof fn lemma_fit_bound<T: StackType>(acts: Seq<bool>, p: Pattern<T>)
    ensures
        p.spec_fit(acts).next <= 128,
{
    lemma_shape_fit_bound(acts, p.keyshape, 0);
}

pub proof fn lemma_shape_fit_bound(acts: Seq<bool>, shape: KeyShape, start: nat)
    requires
        start <= 128,
    ensures
        shape.spec_fit(acts, start).next <= 128,
{
    match shape {
        KeyShape::ClassesFixed { period_keys, classes, zero } => {
            lemma_classes_fixed_bound(acts, period_keys, classes@, zero, start);
        },
        KeyShape::ClassesRelative { period_keys, classes } => {
            lemma_classes_relative_bound(acts, period_keys, classes@, start, 0);
        },
        KeyShape::VoicingFixed { period_keys, blocks, zero } => {
            lemma_voicing_fixed_bound(acts, period_keys, blocks_view(blocks@), zero, start);
        },
        KeyShape::VoicingRelative { period_keys, blocks } => {
            lemma_voicing_relative_bound(acts, period_keys, blocks_view(blocks@), start, 0);
        },
    }
}

proof fn lemma_classes_relative_bound(acts: Seq<bool>, period_keys: u8, classes: Seq<u8>, start: nat, zero: nat)
    requires
        start <= 128,
    ensures
        classes_relative_from(acts, period_keys, classes, start, zero).next <= 128,
    decreases period_keys - zero,
{
    if zero < period_keys {
        lemma_classes_fixed_bound(acts, period_keys, classes, zero as u8, start);
        lemma_classes_relative_bound(acts, period_keys, classes, start, zero + 1);
    }
}

proof fn lemma_voicing_chain_bound(acts: Seq<bool>, period_keys: u8, blocks: Seq<Seq<u8>>, zero: u8, i: nat, next: nat)
    requires
        next <= 128,
    ensures
        voicing_chain(acts, period_keys, blocks, zero, i, next) matches Some(n) ==> n <= 128,
    decreases blocks.len() - i,
{
    if i < blocks.len() {
        lemma_classes_fixed_bound(acts, period_keys, blocks[i as int], zero, next);
        let new_next = classes_fixed_fit(acts, period_keys, blocks[i as int], zero, next).next;
        if new_next > next {
            lemma_voicing_chain_bound(acts, period_keys, blocks, zero, i + 1, new_next as nat);
        }
    }
}

proof fn lemma_voicing_fixed_bound(acts: Seq<bool>, period_keys: u8, blocks: Seq<Seq<u8>>, zero: u8, start: nat)
    requires
        start <= 128,
    ensures
        voicing_fixed_fit(acts, period_keys, blocks, zero, start).next <= 128,
{
    lemma_voicing_chain_bound(acts, period_keys, blocks, zero, 0, start);
}

proof fn lemma_voicing_relative_bound(acts: Seq<bool>, period_keys: u8, blocks: Seq<Seq<u8>>, start: nat, zero: nat)
    requires
        start <= 128,
    ensures
        voicing_relative_from(acts, period_keys, blocks, start, zero).next <= 128,
    decreases 12 - zero,
{
    if zero < 12 {
        lemma_voicing_fixed_bound(acts, period_keys, blocks, zero as u8, start);
        lemma_voicing_relative_bound(acts, period_keys, blocks, start, zero + 1);
    }
}

/// The shape of a chord, as key numbers (modulo the period) relative to a reference key.
#[derive(Debug, Clone, PartialEq)]
pub enum KeyShape {
    /// The pitch classes `classes`, with the reference fixed at `zero`.
    ClassesFixed { period_keys: u8, classes: Vec<u8>, zero: u8 },
    /// The pitch classes `classes`, with any reference in the first period.
    ClassesRelative { period_keys: u8, classes: Vec<u8> },
    /// Groups of pitch classes that must sound in this order from low to high, with the reference
    /// fixed at `zero`.
    VoicingFixed { period_keys: u8, blocks: Vec<Vec<u8>>, zero: u8 },
    /// Like [KeyShape::VoicingFixed], with any reference in the first twelve keys.
    VoicingRelative { period_keys: u8, blocks: Vec<Vec<u8>> },
}

/// How well the sounding keys fit a shape: all keys below `next` fit, relative to `reference`.
#[derive(Debug, PartialEq, Eq, Structural)]
pub struct Fit {
    pub reference: u8,
    pub next: usize,
}

impl Fit {
    pub fn is_at_least_partial(&self) -> (b: bool)
        ensures
            b == (self.next > 0),
    {
        self.next > 0
    }

    pub fn is_complete(&self) -> (b: bool)
        ensures
            b == (self.next == 128),
    {
        self.next == 128
    }

    pub fn is_better_than(&self, other: &Self) -> (b: bool)
        ensures
            b == (self.next > other.next),
    {
        self.next > other.next
    }
}

/// A complete fit is at least partial, and no fit is better than itself.
pub proof fn law_complete_fit_is_partial(f: Fit)
    ensures
        f.next == 128 ==> f.next > 0,
        !(f.next > f.next),
{
}

/// Things that can be sounding or silent.
pub trait HasActivationStatus {
    spec fn spec_active(&self) -> bool;

    fn active(&self) -> (b: bool)
        ensures
            b == self.spec_active(),
    ;
}

impl HasActivationStatus for bool {
    open spec fn spec_active(&self) -> bool {
        *self
    }

    fn active(&self) -> (b: bool) {
        *self
    }
}

impl HasActivationStatus for KeyState {
    open spec fn spec_active(&self) -> bool {
        self.spec_is_sounding()
    }

    fn active(&self) -> (b: bool) {
        self.is_sounding()
    }
}

/// Which of the 128 keys are active.
pub open spec fn actives<N: HasActivationStatus>(notes: [N; 128]) -> Seq<bool> {
    Seq::new(128, |i: int| notes@[i].spec_active())
}

/// The class `x`, shifted to `zero`, is the class of key `i`.
pub open spec fn class_matches(x: u8, zero: u8, period_keys: u8, i: int) -> bool {
    (x + zero) % (period_keys as int) == i % (period_keys as int)
}

/// The first index `j' >= j` in `classes` whose class matches key `i`.
pub open spec fn position_from(classes: Seq<u8>, zero: u8, period_keys: u8, i: int, j: nat) -> Option<
    nat,
>
    decreases classes.len() - j,
{
    if j >= classes.len() {
        None
    } else if class_matches(classes[j as int], zero, period_keys, i) {
        Some(j)
    } else {
        position_from(classes, zero, period_keys, i, j + 1)
    }
}

/// The first class in `classes` that key `i` is an instance of.
pub open spec fn first_match(classes: Seq<u8>, zero: u8, period_keys: u8, i: int) -> Option<nat> {
    position_from(classes, zero, period_keys, i, 0)
}

/// The first active key at or above `i` that is in none of the classes, or `i` itself if `i`
/// is not a key.
pub open spec fn scan_stop(acts: Seq<bool>, classes: Seq<u8>, zero: u8, period_keys: u8, i: nat) -> nat
    decreases 128 - i,
{
    if i >= 128 {
        i
    } else if acts[i as int] && first_match(classes, zero, period_keys, i as int) is None {
        i
    } else {
        scan_stop(acts, classes, zero, period_keys, i + 1)
    }
}

/// Class `j` is the first match of some active key in `start..stop`.
pub open spec fn is_used(
    acts: Seq<bool>,
    classes: Seq<u8>,
    zero: u8,
    period_keys: u8,
    start: int,
    stop: int,
    j: nat,
) -> bool {
    exists|k: int|
        start <= k < stop && acts[k] && #[trigger] first_match(classes, zero, period_keys, k) == Some(j)
}

/// The fit of the active keys from `start` on to the classes at `zero`: the sounding keys up to
/// the first one outside the classes fit if every class occurs among them; otherwise nothing fits.
pub open spec fn classes_fixed_fit(
    acts: Seq<bool>,
    period_keys: u8,
    classes: Seq<u8>,
    zero: u8,
    start: nat,
) -> Fit {
    let stop = scan_stop(acts, classes, zero, period_keys, start);
    Fit {
        reference: zero,
        next: if forall|j: nat|
            j < classes.len() ==> #[trigger] is_used(acts, classes, zero, period_keys, start as int, stop as int, j) {
            stop as usize
        } else {
            start as usize
        },
    }
}

/// The fit at the first reference `zero' >= zero` below `period_keys` at which some keys fit.
pub open spec fn classes_relative_from(
    acts: Seq<bool>,
    period_keys: u8,
    classes: Seq<u8>,
    start: nat,
    zero: nat,
) -> Fit
    decreases period_keys - zero,
{
    if zero >= period_keys {
        Fit { reference: 0, next: 0 }
    } else if classes_fixed_fit(acts, period_keys, classes, zero as u8, start).next > start {
        classes_fixed_fit(acts, period_keys, classes, zero as u8, start)
    } else {
        classes_relative_from(acts, period_keys, classes, start, zero + 1)
    }
}

/// Fitting the blocks `blocks[i..]` one after the other, each one starting where the previous
/// one ended; `None` if one of them does not fit any key.
pub open spec fn voicing_chain(
    acts: Seq<bool>,
    period_keys: u8,
    blocks: Seq<Seq<u8>>,
    zero: u8,
    i: nat,
    next: nat,
) -> Option<nat>
    decreases blocks.len() - i,
{
    if i >= blocks.len() {
        Some(next)
    } else {
        let new_next = classes_fixed_fit(acts, period_keys, blocks[i as int], zero, next).next;
        if new_next > next {
            voicing_chain(acts, period_keys, blocks, zero, i + 1, new_next as nat)
        } else {
            None
        }
    }
}

/// The fit of the blocks at `zero`: where all blocks fit in order, up to where the last one
/// ended; otherwise nothing.
pub open spec fn voicing_fixed_fit(
    acts: Seq<bool>,
    period_keys: u8,
    blocks: Seq<Seq<u8>>,
    zero: u8,
    start: nat,
) -> Fit {
    Fit {
        reference: zero,
        next: match voicing_chain(acts, period_keys, blocks, zero, 0, start) {
            Some(n) => n as usize,
            None => start as usize,
        },
    }
}

/// The fit at the first reference `zero' >= zero` below twelve at which some keys fit.
pub open spec fn voicing_relative_from(
    acts: Seq<bool>,
    period_keys: u8,
    blocks: Seq<Seq<u8>>,
    start: nat,
    zero: nat,
) -> Fit
    decreases 12 - zero,
{
    if zero >= 12 {
        Fit { reference: 0, next: 0 }
    } else if voicing_fixed_fit(acts, period_keys, blocks, zero as u8, start).next > start {
        voicing_fixed_fit(acts, period_keys, blocks, zero as u8, start)
    } else {
        voicing_relative_from(acts, period_keys, blocks, start, zero + 1)
    }
}

/// The classes, shifted by any of the references `0..=max_zero`, stay within `u8`.
pub open spec fn classes_shift_fits(classes: Seq<u8>, max_zero: int) -> bool {
    forall|j: int| 0 <= j < classes.len() ==> #[trigger] classes[j] + max_zero < 256
}

pub open spec fn blocks_shift_fit(blocks: Seq<Vec<u8>>, max_zero: int) -> bool {
    forall|b: int| 0 <= b < blocks.len() ==> classes_shift_fits(#[trigger] blocks[b]@, max_zero)
}

pub open spec fn blocks_view(blocks: Seq<Vec<u8>>) -> Seq<Seq<u8>> {
    Seq::new(blocks.len(), |b: int| blocks[b]@)
}

impl KeyShape {
    /// The shape can be matched: the period is not empty, and shifted classes stay within `u8`.
    pub open spec fn fit_ok(&self) -> bool {
        match self {
            KeyShape::ClassesFixed { period_keys, classes, zero } => *period_keys > 0
                && classes_shift_fits(classes@, *zero as int),
            KeyShape::ClassesRelative { period_keys, classes } => *period_keys > 0
                && classes_shift_fits(classes@, *period_keys - 1),
            KeyShape::VoicingFixed { period_keys, blocks, zero } => *period_keys > 0
                && blocks_shift_fit(blocks@, *zero as int),
            KeyShape::VoicingRelative { period_keys, blocks } => *period_keys > 0
                && blocks_shift_fit(blocks@, 11),
        }
    }

    /// The fit of the active keys from `start` on.
    pub open spec fn spec_fit(&self, acts: Seq<bool>, start: nat) -> Fit {
        match self {
            KeyShape::ClassesFixed { period_keys, classes, zero } => classes_fixed_fit(
                acts,
                *period_keys,
                classes@,
                *zero,
                start,
            ),
            KeyShape::ClassesRelative { period_keys, classes } => classes_relative_from(
                acts,
                *period_keys,
                classes@,
                start,
                0,
            ),
            KeyShape::VoicingFixed { period_keys, blocks, zero } => voicing_fixed_fit(
                acts,
                *period_keys,
                blocks_view(blocks@),
                *zero,
                start,
            ),
            KeyShape::VoicingRelative { period_keys, blocks } => voicing_relative_from(
                acts,
                *period_keys,
                blocks_view(blocks@),
                start,
                0,
            ),
        }
    }

    /// How well the active keys from `start` on fit this shape.
    pub fn fit<N: HasActivationStatus>(&self, notes: &[N; 128], start: usize) -> (f: Fit)
        requires
            self.fit_ok(),
            start <= 128,
        ensures
            f == self.spec_fit(actives(*notes), start as nat),
    {
        match self {
            KeyShape::ClassesFixed { period_keys, classes, zero } => fit_classes_fixed(
                *period_keys,
                classes.as_slice(),
                *zero,
                notes,
                start,
            ),
            KeyShape::ClassesRelative { period_keys, classes } => fit_classes_relative(
                *period_keys,
                classes.as_slice(),
                notes,
                start,
            ),
            KeyShape::VoicingFixed { period_keys, blocks, zero } => fit_voicing_fixed(
                *period_keys,
                blocks.as_slice(),
                *zero,
                notes,
                start,
            ),
            KeyShape::VoicingRelative { period_keys, blocks } => fit_voicing_relative(
                *period_keys,
                blocks.as_slice(),
                notes,
                start,
            ),
        }
    }
}

/// Skipping a prefix of non-matching classes.
proof fn lemma_position_skip(classes: Seq<u8>, zero: u8, period_keys: u8, i: int, j: nat)
    requires
        j <= classes.len(),
        forall|k: int| 0 <= k < j ==> !class_matches(#[trigger] classes[k], zero, period_keys, i),
    ensures
        first_match(classes, zero, period_keys, i) == position_from(classes, zero, period_keys, i, j),
    decreases j,
{
    if j > 0 {
        lemma_position_skip(classes, zero, period_keys, i, (j - 1) as nat);
    }
}

/// The first class that key `i` is an instance of.
fn position_of_class(classes: &[u8], zero: u8, period_keys: u8, i: usize) -> (r: Option<usize>)
    requires
        period_keys > 0,
        classes_shift_fits(classes@, zero as int),
        i < 128,
    ensures
        match r {
            Some(j) => first_match(classes@, zero, period_keys, i as int) == Some(j as nat) && j < classes@.len(),
            None => first_match(classes@, zero, period_keys, i as int) is None,
        },
{
    let n = classes.len();
    let key_class = (i as u8) % period_keys;
    for j in 0..n
        invariant
            n == classes@.len(),
            period_keys > 0,
            classes_shift_fits(classes@, zero as int),
            i < 128,
            key_class == (i as int) % (period_keys as int),
            forall|k: int| 0 <= k < j ==> !class_matches(#[trigger] classes@[k], zero, period_keys, i as int),
    {
        proof {
            assert(classes@[j as int] + zero < 256);
        }
        if (classes[j] + zero) % period_keys == key_class {
            proof {
                lemma_position_skip(classes@, zero, period_keys, i as int, j as nat);
            }
            return Some(j);
        }
    }
    proof {
        lemma_position_skip(classes@, zero, period_keys, i as int, n as nat);
    }
    None
}


pub fn fit_classes_fixed<N: HasActivationStatus>(
    period_keys: u8,
    classes: &[u8],
    zero: u8,
    notes: &[N; 128],
    start: usize,
) -> (f: Fit)
    requires
        period_keys > 0,
        classes_shift_fits(classes@, zero as int),
        start <= 128,
    ensures
        f == classes_fixed_fit(actives(*notes), period_keys, classes@, zero, start as nat),
{
    let ghost acts = actives(*notes);
    let ghost cl = classes@;
    let n = classes.len();
    let mut used: Vec<bool> = Vec::new();
    for k in 0..n
        invariant
            used@ == Seq::new(k as nat, |j: int| false),
    {
        used.push(false);
        proof {
            assert(used@ =~= Seq::new((k + 1) as nat, |j: int| false));
        }
    }
    let mut i = start;
    while i < 128
        invariant
            start <= i <= 128,
            n == cl.len(),
            cl == classes@,
            acts == actives(*notes),
            period_keys > 0,
            classes_shift_fits(cl, zero as int),
            used@.len() == n,
            scan_stop(acts, cl, zero, period_keys, start as nat) == scan_stop(acts, cl, zero, period_keys, i as nat),
            forall|j: int|
                0 <= j < n ==> (#[trigger] used@[j] <==> is_used(acts, cl, zero, period_keys, start as int, i as int, j as nat)),
        ensures
            scan_stop(acts, cl, zero, period_keys, start as nat) == i,
            start <= i <= 128,
            used@.len() == n,
            forall|j: int|
                0 <= j < n ==> (#[trigger] used@[j] <==> is_used(acts, cl, zero, period_keys, start as int, i as int, j as nat)),
        decreases 128 - i,
    {
        if !notes[i].active() {
            proof {
                assert(scan_stop(acts, cl, zero, period_keys, i as nat) == scan_stop(acts, cl, zero, period_keys, (i + 1) as nat));
                assert forall|j: int| 0 <= j < n implies (#[trigger] used@[j] <==> is_used(acts, cl, zero, period_keys, start as int, i + 1, j as nat)) by {
                    if is_used(acts, cl, zero, period_keys, start as int, i + 1, j as nat) {
                        let k = choose|k: int| start <= k < i + 1 && acts[k] && #[trigger] first_match(cl, zero, period_keys, k) == Some(j as nat);
                        assert(k != i);
                        assert(is_used(acts, cl, zero, period_keys, start as int, i as int, j as nat));
                    }
                    if is_used(acts, cl, zero, period_keys, start as int, i as int, j as nat) {
                        let k = choose|k: int| start <= k < i && acts[k] && #[trigger] first_match(cl, zero, period_keys, k) == Some(j as nat);
                        assert(start <= k < i + 1 && acts[k] && first_match(cl, zero, period_keys, k) == Some(j as nat));
                    }
                }
            }
            i += 1;
            continue;
        }
        match position_of_class(classes, zero, period_keys, i) {
            Some(j) => {
                proof {
                    assert(acts[i as int]);
                    assert(first_match(cl, zero, period_keys, i as int) == Some(j as nat));
                    assert(j < n);
                    assert(scan_stop(acts, cl, zero, period_keys, i as nat) == scan_stop(acts, cl, zero, period_keys, (i + 1) as nat));
                    assert forall|jj: int| 0 <= jj < n implies (#[trigger] used@.update(j as int, true)[jj] <==> is_used(acts, cl, zero, period_keys, start as int, i + 1, jj as nat)) by {
                        if jj == j {
                            assert(start <= i < i + 1 && acts[i as int] && first_match(cl, zero, period_keys, i as int) == Some(jj as nat));
                        } else {
                            if is_used(acts, cl, zero, period_keys, start as int, i + 1, jj as nat) {
                                let k = choose|k: int| start <= k < i + 1 && acts[k] && #[trigger] first_match(cl, zero, period_keys, k) == Some(jj as nat);
                                assert(k != i);
                                assert(is_used(acts, cl, zero, period_keys, start as int, i as int, jj as nat));
                            }
                            if is_used(acts, cl, zero, period_keys, start as int, i as int, jj as nat) {
                                let k = choose|k: int| start <= k < i && acts[k] && #[trigger] first_match(cl, zero, period_keys, k) == Some(jj as nat);
                                assert(start <= k < i + 1 && acts[k] && first_match(cl, zero, period_keys, k) == Some(jj as nat));
                            }
                        }
                    }
                }
                i += 1;
                used.set(j, true);
            },
            None => {
                proof {
                    assert(acts[i as int]);
                    assert(scan_stop(acts, cl, zero, period_keys, i as nat) == i);
                }
                break ;
            },
        }
    }
    let ghost stop = scan_stop(acts, cl, zero, period_keys, start as nat);
    assert(stop == i);
    let mut all_used = true;
    for j in 0..n
        invariant
            n == used@.len(),
            all_used == forall|jj: int| 0 <= jj < j ==> #[trigger] used@[jj],
    {
        if !used[j] {
            all_used = false;
        }
    }
    proof {
        if all_used {
            assert forall|j: nat| j < cl.len() implies #[trigger] is_used(acts, cl, zero, period_keys, start as int, stop as int, j) by {
                assert(used@[j as int]);
            }
        } else {
            let jj = choose|jj: int| 0 <= jj < n && !#[trigger] used@[jj];
            assert(!is_used(acts, cl, zero, period_keys, start as int, stop as int, jj as nat));
        }
    }
    if !all_used {
        Fit { reference: zero, next: start }
    } else {
        Fit { reference: zero, next: i }
    }
}

pub fn fit_classes_relative<N: HasActivationStatus>(
    period_keys: u8,
    classes: &[u8],
    notes: &[N; 128],
    start: usize,
) -> (f: Fit)
    requires
        period_keys > 0,
        classes_shift_fits(classes@, period_keys - 1),
        start <= 128,
    ensures
        f == classes_relative_from(actives(*notes), period_keys, classes@, start as nat, 0),
{
    let ghost acts = actives(*notes);
    let mut zero: u8 = 0;
    while zero < period_keys
        invariant
            0 <= zero <= period_keys,
            acts == actives(*notes),
            classes_shift_fits(classes@, period_keys - 1),
            start <= 128,
            classes_relative_from(acts, period_keys, classes@, start as nat, 0)
                == classes_relative_from(acts, period_keys, classes@, start as nat, zero as nat),
        decreases period_keys - zero,
    {
        proof {
            assert forall|j: int| 0 <= j < classes@.len() implies #[trigger] classes@[j] + (zero as int) < 256 by {
                assert(classes@[j] + (period_keys - 1) < 256);
            }
        }
        let res = fit_classes_fixed(period_keys, classes, zero, notes, start);
        if res.next > start {
            return res;
        }
        zero += 1;
    }
    Fit { reference: 0, next: 0 }
}

pub fn fit_voicing_fixed<N: HasActivationStatus>(
    period_keys: u8,
    blocks: &[Vec<u8>],
    zero: u8,
    notes: &[N; 128],
    start: usize,
) -> (f: Fit)
    requires
        period_keys > 0,
        blocks_shift_fit(blocks@, zero as int),
        start <= 128,
    ensures
        f == voicing_fixed_fit(actives(*notes), period_keys, blocks_view(blocks@), zero, start as nat),
{
    let ghost acts = actives(*notes);
    let ghost bl = blocks_view(blocks@);
    let mut next = start;
    let mut i: usize = 0;
    while i < blocks.len()
        invariant
            i <= blocks@.len(),
            start <= next <= 128,
            acts == actives(*notes),
            bl == blocks_view(blocks@),
            period_keys > 0,
            blocks_shift_fit(blocks@, zero as int),
            voicing_chain(acts, period_keys, bl, zero, 0, start as nat)
                == voicing_chain(acts, period_keys, bl, zero, i as nat, next as nat),
        ensures
            voicing_chain(acts, period_keys, bl, zero, 0, start as nat)
                == voicing_chain(acts, period_keys, bl, zero, i as nat, next as nat),
            i == blocks@.len() || voicing_chain(acts, period_keys, bl, zero, i as nat, next as nat) is None,
            i <= blocks@.len(),
        decreases blocks@.len() - i,
    {
        proof {
            assert(classes_shift_fits(blocks@[i as int]@, zero as int));
            assert(bl[i as int] == blocks@[i as int]@);
        }
        let fit = fit_classes_fixed(period_keys, blocks[i].as_slice(), zero, notes, next);
        proof {
            lemma_classes_fixed_bound(acts, period_keys, bl[i as int], zero, next as nat);
        }
        if fit.next > next {
            next = fit.next;
            i += 1;
        } else {
            break ;
        }
    }
    if i == blocks.len() {
        Fit { reference: zero, next }
    } else {
        Fit { reference: zero, next: start }
    }
}

/// A fit from `start <= 128` ends at `start` or at most at key 128.
proof fn lemma_classes_fixed_bound(
    acts: Seq<bool>,
    period_keys: u8,
    classes: Seq<u8>,
    zero: u8,
    start: nat,
)
    requires
        start <= 128,
    ensures
        start <= classes_fixed_fit(acts, period_keys, classes, zero, start).next <= 128,
{
    lemma_scan_stop_bound(acts, classes, zero, period_keys, start);
}

proof fn lemma_scan_stop_bound(acts: Seq<bool>, classes: Seq<u8>, zero: u8, period_keys: u8, i: nat)
    requires
        i <= 128,
    ensures
        i <= scan_stop(acts, classes, zero, period_keys, i) <= 128,
    decreases 128 - i,
{
    if i < 128 {
        lemma_scan_stop_bound(acts, classes, zero, period_keys, i + 1);
    }
}

pub fn fit_voicing_relative<N: HasActivationStatus>(
    period_keys: u8,
    blocks: &[Vec<u8>],
    notes: &[N; 128],
    start: usize,
) -> (f: Fit)
    requires
        period_keys > 0,
        blocks_shift_fit(blocks@, 11),
        start <= 128,
    ensures
        f == voicing_relative_from(actives(*notes), period_keys, blocks_view(blocks@), start as nat, 0),
{
    let ghost acts = actives(*notes);
    let mut zero: u8 = 0;
    while zero < 12
        invariant
            0 <= zero <= 12,
            acts == actives(*notes),
            period_keys > 0,
            blocks_shift_fit(blocks@, 11),
            start <= 128,
            voicing_relative_from(acts, period_keys, blocks_view(blocks@), start as nat, 0)
                == voicing_relative_from(acts, period_keys, blocks_view(blocks@), start as nat, zero as nat),
        decreases 12 - zero,
    {
        proof {
            assert forall|b: int| 0 <= b < blocks@.len() implies classes_shift_fits(#[trigger] blocks@[b]@, zero as int) by {
                assert(classes_shift_fits(blocks@[b]@, 11));
            }
        }
        let res = fit_voicing_fixed(period_keys, blocks, zero, notes, start);
        if res.next > start {
            return res;
        }
        zero += 1;
    }
    Fit { reference: 0, next: 0 }
}

} // verus!
