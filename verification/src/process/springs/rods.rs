//! Rods: intervals between two notes that must not be detuned, written as sums of multiples of
//! key distances; and the merging of a system of rods into an equivalent one in which no note is
//! the upper end of more than one rod.
use crate::rational::fits_i64;
use vstd::prelude::*;

verus! {

/// The terms of a rod spec have positive, strictly ascending key distances.
pub open spec fn terms_sorted(a: Seq<(i8, i64)>) -> bool {
    &&& forall|t: int| 0 <= t < a.len() ==> (#[trigger] a[t]).0 > 0
    &&& forall|s: int, t: int| 0 <= s < t < a.len() ==> (#[trigger] a[s]).0 < (#[trigger] a[t]).0
}

/// A well-formed rod spec: at least one term, with positive, strictly ascending key distances.
pub open spec fn rodspec_wf(a: Seq<(i8, i64)>) -> bool {
    a.len() > 0 && terms_sorted(a)
}

/// The interval that the terms `a` stand for, if the key distance `d` stands for the interval
/// `v(d)`.
pub open spec fn rod_value(a: Seq<(i8, i64)>, v: spec_fn(i8) -> int) -> int
    decreases a.len(),
{
    if a.len() == 0 {
        0
    } else {
        a[0].1 * v(a[0].0) + rod_value(a.drop_first(), v)
    }
}

/// The sorted terms `a`, with `c` times the key distance `d` added: to the coefficient of `d`
/// where `a` has a term for `d`, else as a new term in its place.
pub open spec fn add_term(a: Seq<(i8, i64)>, d: i8, c: i64) -> Seq<(i8, i64)>
    decreases a.len(),
{
    if a.len() == 0 {
        seq![(d, c)]
    } else if a[0].0 == d {
        seq![(d, (a[0].1 + c) as i64)] + a.drop_first()
    } else if a[0].0 > d {
        seq![(d, c)] + a
    } else {
        seq![a[0]] + add_term(a.drop_first(), d, c)
    }
}

/// The coefficient that [add_term] computes fits in an `i64`.
pub open spec fn add_term_fits(a: Seq<(i8, i64)>, d: i8, c: i64) -> bool
    decreases a.len(),
{
    if a.len() == 0 {
        true
    } else if a[0].0 == d {
        fits_i64(a[0].1 + c)
    } else if a[0].0 > d {
        true
    } else {
        add_term_fits(a.drop_first(), d, c)
    }
}

/// [add_term] for a key distance of either sign: a negative distance stands for the positive one
/// with the opposite coefficient.
pub open spec fn add_signed(a: Seq<(i8, i64)>, d: i8, c: i64) -> Seq<(i8, i64)> {
    if d < 0 {
        add_term(a, (-d) as i8, (-c) as i64)
    } else {
        add_term(a, d, c)
    }
}

/// The terms of `a` added to `b`, one after the other.
pub open spec fn add_all(b: Seq<(i8, i64)>, a: Seq<(i8, i64)>) -> Seq<(i8, i64)>
    decreases a.len(),
{
    if a.len() == 0 {
        b
    } else {
        add_all(add_term(b, a[0].0, a[0].1), a.drop_first())
    }
}

pub open spec fn add_all_fits(b: Seq<(i8, i64)>, a: Seq<(i8, i64)>) -> bool
    decreases a.len(),
{
    if a.len() == 0 {
        true
    } else {
        add_term_fits(b, a[0].0, a[0].1) && add_all_fits(add_term(b, a[0].0, a[0].1), a.drop_first())
    }
}

/// The terms of `b` with opposite coefficients.
pub open spec fn negate(b: Seq<(i8, i64)>) -> Seq<(i8, i64)> {
    Seq::new(b.len(), |t: int| (b[t].0, (-b[t].1) as i64))
}

pub open spec fn negate_fits(b: Seq<(i8, i64)>) -> bool {
    forall|t: int| 0 <= t < b.len() ==> (#[trigger] b[t]).1 != i64::MIN
}

pub proof fn lemma_add_term_value(a: Seq<(i8, i64)>, d: i8, c: i64, v: spec_fn(i8) -> int)
    requires
        add_term_fits(a, d, c),
    ensures
        rod_value(add_term(a, d, c), v) == rod_value(a, v) + c * v(d),
    decreases a.len(),
{
    let r = add_term(a, d, c);
    if a.len() == 0 {
        assert(r.drop_first() =~= a);
        assert(r[0] == (d, c));
    } else if a[0].0 == d {
        assert(r.drop_first() =~= a.drop_first());
        assert(r[0] == (d, (a[0].1 + c) as i64));
        vstd::arithmetic::mul::lemma_mul_is_distributive_add_other_way(v(d), a[0].1 as int, c as int);
    } else if a[0].0 > d {
        assert(r.drop_first() =~= a);
        assert(r[0] == (d, c));
    } else {
        lemma_add_term_value(a.drop_first(), d, c, v);
        assert(r.drop_first() =~= add_term(a.drop_first(), d, c));
        assert(r[0] == a[0]);
    }
}

/// The lowest key distance after [add_term].
pub open spec fn add_term_low(a: Seq<(i8, i64)>, d: i8) -> i8 {
    if a.len() == 0 || d < a[0].0 {
        d
    } else {
        a[0].0
    }
}

pub proof fn lemma_add_term_sorted(a: Seq<(i8, i64)>, d: i8, c: i64)
    requires
        terms_sorted(a),
        d > 0,
    ensures
        terms_sorted(add_term(a, d, c)),
        add_term(a, d, c).len() >= 1,
        add_term(a, d, c).len() >= a.len(),
        forall|t: int|
            0 <= t < add_term(a, d, c).len() ==> (#[trigger] add_term(a, d, c)[t]).0 >= add_term_low(a, d),
    decreases a.len(),
{
    let r = add_term(a, d, c);
    if a.len() == 0 {
    } else if a[0].0 == d {
        assert forall|t: int| 0 <= t < r.len() implies (#[trigger] r[t]).0 == a[t].0 by {}
    } else if a[0].0 > d {
        assert forall|t: int| 1 <= t < r.len() implies (#[trigger] r[t]).0 == a[t - 1].0 by {}
    } else {
        let rest = a.drop_first();
        lemma_add_term_sorted(rest, d, c);
        let rr = add_term(rest, d, c);
        assert forall|t: int| 1 <= t < r.len() implies (#[trigger] r[t]) == rr[t - 1] by {}
        assert forall|t: int| 0 <= t < rr.len() implies (#[trigger] rr[t]).0 > a[0].0 by {
            if rest.len() > 0 {
                assert(rest[0] == a[1]);
            }
        }
        assert forall|s: int, t: int| 0 <= s < t < r.len() implies (#[trigger] r[s]).0 < (
        #[trigger] r[t]).0 by {
            if s > 0 {
                assert(r[s] == rr[s - 1]);
                assert(r[t] == rr[t - 1]);
            } else {
                assert(r[t] == rr[t - 1]);
            }
        }
    }
}

pub proof fn lemma_add_all_value(b: Seq<(i8, i64)>, a: Seq<(i8, i64)>, v: spec_fn(i8) -> int)
    requires
        add_all_fits(b, a),
    ensures
        rod_value(add_all(b, a), v) == rod_value(b, v) + rod_value(a, v),
    decreases a.len(),
{
    if a.len() > 0 {
        lemma_add_term_value(b, a[0].0, a[0].1, v);
        lemma_add_all_value(add_term(b, a[0].0, a[0].1), a.drop_first(), v);
    }
}

pub proof fn lemma_add_all_sorted(b: Seq<(i8, i64)>, a: Seq<(i8, i64)>)
    requires
        terms_sorted(b),
        forall|t: int| 0 <= t < a.len() ==> (#[trigger] a[t]).0 > 0,
    ensures
        terms_sorted(add_all(b, a)),
        add_all(b, a).len() >= b.len(),
    decreases a.len(),
{
    if a.len() > 0 {
        lemma_add_term_sorted(b, a[0].0, a[0].1);
        let rest = a.drop_first();
        assert forall|t: int| 0 <= t < rest.len() implies (#[trigger] rest[t]).0 > 0 by {
            assert(rest[t] == a[t + 1]);
        }
        lemma_add_all_sorted(add_term(b, a[0].0, a[0].1), rest);
    }
}

pub proof fn lemma_negate(b: Seq<(i8, i64)>, v: spec_fn(i8) -> int)
    requires
        negate_fits(b),
    ensures
        rod_value(negate(b), v) == -rod_value(b, v),
    decreases b.len(),
{
    if b.len() > 0 {
        let rest = b.drop_first();
        assert(negate(b).drop_first() =~= negate(rest));
        assert forall|t: int| 0 <= t < rest.len() implies (#[trigger] rest[t]).1 != i64::MIN by {
            assert(rest[t] == b[t + 1]);
        }
        lemma_negate(rest, v);
        assert((-b[0].1) * v(b[0].0) == -(b[0].1 * v(b[0].0))) by (nonlinear_arith);
    }
}

pub proof fn lemma_negate_sorted(b: Seq<(i8, i64)>)
    requires
        rodspec_wf(b),
    ensures
        rodspec_wf(negate(b)),
{
    assert forall|s: int, t: int| 0 <= s < t < b.len() implies (#[trigger] negate(b)[s]).0 < (
    #[trigger] negate(b)[t]).0 by {
        assert(b[s].0 < b[t].0);
    }
}

// ---------------------------------------------------------------------------------------------
// Systems of rods
// ---------------------------------------------------------------------------------------------

/// A system of rods between `n` notes: a rod from the `i`-th to the `j`-th note, with `i < j`, is
/// stored under the key `(i, j)`, and every rod spec is well-formed.
pub open spec fn system_wf(m: Map<(int, int), Seq<(i8, i64)>>, n: int) -> bool {
    forall|p: (int, int)|
        #[trigger] m.contains_key(p) ==> 0 <= p.0 < p.1 < n && rodspec_wf(m[p])
}

/// All rods of the system hold, if the `x`-th note is at the position `pos(x)` and the key
/// distance `d` stands for the interval `v(d)`.
pub open spec fn rods_hold(
    m: Map<(int, int), Seq<(i8, i64)>>,
    pos: spec_fn(int) -> int,
    v: spec_fn(i8) -> int,
) -> bool {
    forall|p: (int, int)|
        #[trigger] m.contains_key(p) ==> pos(p.1) - pos(p.0) == rod_value(m[p], v)
}

/// No note is the upper end of two different rods.
pub open spec fn one_rod_below_each(m: Map<(int, int), Seq<(i8, i64)>>) -> bool {
    forall|x: int, y: int, k: int|
        #![trigger m.contains_key((x, k)), m.contains_key((y, k))]
        m.contains_key((x, k)) && m.contains_key((y, k)) ==> x == y
}

/// One step of the merge, for the notes `i < j < k`: a rod `b` from `j` to `k` is replaced by one
/// from `i` to `k` (if there is a rod `a` from `i` to `j` but none from `i` to `k`), or by one from
/// `i` to `j` (if there is a rod `c` from `i` to `k` but none from `i` to `j`), or dropped (if
/// both `a` and `c` are there).
pub open spec fn merge_step(
    m: Map<(int, int), Seq<(i8, i64)>>,
    i: int,
    j: int,
    k: int,
) -> Map<(int, int), Seq<(i8, i64)>> {
    if !m.contains_key((j, k)) {
        m
    } else {
        let b = m[(j, k)];
        let has_a = m.contains_key((i, j));
        let has_c = m.contains_key((i, k));
        if has_a && !has_c {
            m.remove((j, k)).insert((i, k), add_all(b, m[(i, j)]))
        } else if !has_a && has_c {
            m.remove((j, k)).insert((i, j), add_all(negate(b), m[(i, k)]))
        } else if has_a && has_c {
            m.remove((j, k))
        } else {
            m
        }
    }
}

/// The coefficients that [merge_step] computes fit in an `i64`.
pub open spec fn merge_step_fits(m: Map<(int, int), Seq<(i8, i64)>>, i: int, j: int, k: int) -> bool {
    m.contains_key((j, k)) ==> {
        let b = m[(j, k)];
        let has_a = m.contains_key((i, j));
        let has_c = m.contains_key((i, k));
        &&& (has_a && !has_c ==> add_all_fits(b, m[(i, j)]))
        &&& (!has_a && has_c ==> negate_fits(b) && add_all_fits(negate(b), m[(i, k)]))
    }
}

/// The steps for `i = count - 1` down to `0`.
pub open spec fn merge_row(m: Map<(int, int), Seq<(i8, i64)>>, count: nat, j: int, k: int) -> Map<
    (int, int),
    Seq<(i8, i64)>,
>
    decreases count,
{
    if count == 0 {
        m
    } else {
        merge_row(merge_step(m, count - 1, j, k), (count - 1) as nat, j, k)
    }
}

pub open spec fn merge_row_fits(m: Map<(int, int), Seq<(i8, i64)>>, count: nat, j: int, k: int) -> bool
    decreases count,
{
    count == 0 || (merge_step_fits(m, count - 1, j, k) && merge_row_fits(
        merge_step(m, count - 1, j, k),
        (count - 1) as nat,
        j,
        k,
    ))
}

/// The rows for `j = count - 1` down to `0`, each for all `i < j`.
pub open spec fn merge_column(m: Map<(int, int), Seq<(i8, i64)>>, count: nat, k: int) -> Map<
    (int, int),
    Seq<(i8, i64)>,
>
    decreases count,
{
    if count == 0 {
        m
    } else {
        merge_column(merge_row(m, (count - 1) as nat, count - 1, k), (count - 1) as nat, k)
    }
}

pub open spec fn merge_column_fits(m: Map<(int, int), Seq<(i8, i64)>>, count: nat, k: int) -> bool
    decreases count,
{
    count == 0 || (merge_row_fits(m, (count - 1) as nat, count - 1, k) && merge_column_fits(
        merge_row(m, (count - 1) as nat, count - 1, k),
        (count - 1) as nat,
        k,
    ))
}

/// The columns for `k = count - 1` down to `0`, each for all `j < k`: the whole merge of a system
/// of rods between `count` notes.
pub open spec fn merge_rods(m: Map<(int, int), Seq<(i8, i64)>>, count: nat) -> Map<
    (int, int),
    Seq<(i8, i64)>,
>
    decreases count,
{
    if count == 0 {
        m
    } else {
        merge_rods(merge_column(m, (count - 1) as nat, count - 1), (count - 1) as nat)
    }
}

pub open spec fn merge_rods_fits(m: Map<(int, int), Seq<(i8, i64)>>, count: nat) -> bool
    decreases count,
{
    count == 0 || (merge_column_fits(m, (count - 1) as nat, count - 1) && merge_rods_fits(
        merge_column(m, (count - 1) as nat, count - 1),
        (count - 1) as nat,
    ))
}

/// The two maps agree at the key `p`.
pub open spec fn same_at(
    m1: Map<(int, int), Seq<(i8, i64)>>,
    m2: Map<(int, int), Seq<(i8, i64)>>,
    p: (int, int),
) -> bool {
    &&& m1.contains_key(p) == m2.contains_key(p)
    &&& m1.contains_key(p) ==> m1[p] == m2[p]
}

/// The keys of a system are pairs of note indices, the lower one first.
pub open spec fn keys_ordered(m: Map<(int, int), Seq<(i8, i64)>>) -> bool {
    forall|p: (int, int)| #[trigger] m.contains_key(p) ==> 0 <= p.0 < p.1
}

/// At most one rod has the `k`-th note as its upper end.
pub open spec fn one_rod_below(m: Map<(int, int), Seq<(i8, i64)>>, k: int) -> bool {
    forall|x: int, y: int|
        #![trigger m.contains_key((x, k)), m.contains_key((y, k))]
        m.contains_key((x, k)) && m.contains_key((y, k)) ==> x == y
}

proof fn lemma_step_frame(m: Map<(int, int), Seq<(i8, i64)>>, i: int, j: int, k: int)
    ensures
        forall|p: (int, int)|
            p != (j, k) && p != (i, k) && p != (i, j) ==> #[trigger] same_at(merge_step(m, i, j, k), m, p),
{
}

pub proof fn lemma_step_wf(m: Map<(int, int), Seq<(i8, i64)>>, n: int, i: int, j: int, k: int)
    requires
        system_wf(m, n),
        0 <= i < j < k < n,
    ensures
        system_wf(merge_step(m, i, j, k), n),
{
    let r = merge_step(m, i, j, k);
    if m.contains_key((j, k)) {
        let b = m[(j, k)];
        let has_a = m.contains_key((i, j));
        let has_c = m.contains_key((i, k));
        if has_a && !has_c {
            let a = m[(i, j)];
            assert(rodspec_wf(a));
            lemma_add_all_sorted(b, a);
        } else if !has_a && has_c {
            let c = m[(i, k)];
            assert(rodspec_wf(c));
            lemma_negate_sorted(b);
            lemma_add_all_sorted(negate(b), c);
        }
    }
    assert forall|p: (int, int)| #[trigger] r.contains_key(p) implies 0 <= p.0 < p.1 < n && rodspec_wf(
        r[p],
    ) by {
        lemma_step_frame(m, i, j, k);
        if p != (j, k) && p != (i, k) && p != (i, j) {
            assert(same_at(r, m, p));
        }
    }
}

proof fn lemma_row_wf(m: Map<(int, int), Seq<(i8, i64)>>, n: int, count: nat, j: int, k: int)
    requires
        system_wf(m, n),
        count <= j < k < n,
    ensures
        system_wf(merge_row(m, count, j, k), n),
    decreases count,
{
    if count > 0 {
        lemma_step_wf(m, n, count - 1, j, k);
        lemma_row_wf(merge_step(m, count - 1, j, k), n, (count - 1) as nat, j, k);
    }
}

proof fn lemma_column_wf(m: Map<(int, int), Seq<(i8, i64)>>, n: int, count: nat, k: int)
    requires
        system_wf(m, n),
        count <= k < n,
    ensures
        system_wf(merge_column(m, count, k), n),
    decreases count,
{
    if count > 0 {
        lemma_row_wf(m, n, (count - 1) as nat, count - 1, k);
        lemma_column_wf(merge_row(m, (count - 1) as nat, count - 1, k), n, (count - 1) as nat, k);
    }
}

proof fn lemma_merge_wf(m: Map<(int, int), Seq<(i8, i64)>>, n: int, count: nat)
    requires
        system_wf(m, n),
        count <= n,
    ensures
        system_wf(merge_rods(m, count), n),
    decreases count,
{
    if count > 0 {
        lemma_column_wf(m, n, (count - 1) as nat, count - 1);
        lemma_merge_wf(merge_column(m, (count - 1) as nat, count - 1), n, (count - 1) as nat);
    }
}

proof fn lemma_row_frame(m: Map<(int, int), Seq<(i8, i64)>>, count: nat, j: int, k: int)
    requires
        count <= j < k,
    ensures
        forall|p: (int, int)| p.1 > k ==> #[trigger] same_at(merge_row(m, count, j, k), m, p),
    decreases count,
{
    if count > 0 {
        let m1 = merge_step(m, count - 1, j, k);
        lemma_step_frame(m, count - 1, j, k);
        lemma_row_frame(m1, (count - 1) as nat, j, k);
        assert forall|p: (int, int)| p.1 > k implies #[trigger] same_at(merge_row(m, count, j, k), m, p) by {
            assert(same_at(merge_row(m1, (count - 1) as nat, j, k), m1, p));
            assert(same_at(m1, m, p));
        }
    }
}

proof fn lemma_column_frame(m: Map<(int, int), Seq<(i8, i64)>>, count: nat, k: int)
    requires
        count <= k,
    ensures
        forall|p: (int, int)| p.1 > k ==> #[trigger] same_at(merge_column(m, count, k), m, p),
    decreases count,
{
    if count > 0 {
        let m1 = merge_row(m, (count - 1) as nat, count - 1, k);
        lemma_row_frame(m, (count - 1) as nat, count - 1, k);
        lemma_column_frame(m1, (count - 1) as nat, k);
        assert forall|p: (int, int)| p.1 > k implies #[trigger] same_at(merge_column(m, count, k), m, p) by {
            assert(same_at(merge_column(m1, (count - 1) as nat, k), m1, p));
            assert(same_at(m1, m, p));
        }
    }
}

proof fn lemma_row_noop(m: Map<(int, int), Seq<(i8, i64)>>, count: nat, j: int, k: int)
    requires
        !m.contains_key((j, k)),
    ensures
        merge_row(m, count, j, k) == m,
    decreases count,
{
    if count > 0 {
        lemma_row_noop(m, (count - 1) as nat, j, k);
    }
}

/// Within the row of `j`: a rod from `j` to `k` that survives all steps is the only one below `k`.
proof fn lemma_row_one_below(m: Map<(int, int), Seq<(i8, i64)>>, count: nat, j: int, k: int)
    requires
        count <= j < k,
        keys_ordered(m),
        forall|y: int| y > j ==> !(#[trigger] m.contains_key((y, k))),
        m.contains_key((j, k)) ==> forall|x: int| count <= x < j ==> !(#[trigger] m.contains_key((x, k))),
    ensures
        keys_ordered(merge_row(m, count, j, k)),
        forall|y: int| y > j ==> !(#[trigger] merge_row(m, count, j, k).contains_key((y, k))),
        merge_row(m, count, j, k).contains_key((j, k)) ==> forall|x: int|
            0 <= x < j ==> !(#[trigger] merge_row(m, count, j, k).contains_key((x, k))),
    decreases count,
{
    if count > 0 {
        let i = count - 1;
        let m1 = merge_step(m, i, j, k);
        lemma_step_frame(m, i, j, k);
        assert(keys_ordered(m1)) by {
            assert forall|p: (int, int)| #[trigger] m1.contains_key(p) implies 0 <= p.0 < p.1 by {
                if p != (j, k) && p != (i, k) && p != (i, j) {
                    assert(same_at(m1, m, p));
                }
            }
        }
        assert forall|y: int| y > j implies !(#[trigger] m1.contains_key((y, k))) by {
            assert(same_at(m1, m, (y, k)));
        }
        if m1.contains_key((j, k)) {
            assert(m1 == m);
            assert forall|x: int| i <= x < j implies !(#[trigger] m1.contains_key((x, k))) by {}
        }
        lemma_row_one_below(m1, (count - 1) as nat, j, k);
    }
}

proof fn lemma_column_one_below(m: Map<(int, int), Seq<(i8, i64)>>, count: nat, k: int)
    requires
        count <= k,
        keys_ordered(m),
        forall|x: int, y: int|
            #![trigger m.contains_key((x, k)), m.contains_key((y, k))]
            m.contains_key((x, k)) && m.contains_key((y, k)) && y >= count ==> x == y,
    ensures
        keys_ordered(merge_column(m, count, k)),
        one_rod_below(merge_column(m, count, k), k),
    decreases count,
{
    if count == 0 {
        assert forall|x: int, y: int|
            #![trigger m.contains_key((x, k)), m.contains_key((y, k))]
            m.contains_key((x, k)) && m.contains_key((y, k)) implies x == y by {
            assert(y >= 0);
        }
    } else {
        let j = count - 1;
        let m1 = merge_row(m, j as nat, j, k);
        if exists|y: int| y > j && #[trigger] m.contains_key((y, k)) {
            let y = choose|y: int| y > j && #[trigger] m.contains_key((y, k));
            assert(!m.contains_key((j, k)));
            lemma_row_noop(m, j as nat, j, k);
        } else {
            lemma_row_one_below(m, j as nat, j, k);
            assert forall|x: int, y: int|
                #![trigger m1.contains_key((x, k)), m1.contains_key((y, k))]
                m1.contains_key((x, k)) && m1.contains_key((y, k)) && y >= j implies x == y by {
                assert(y == j);
                assert(x >= 0);
            }
        }
        lemma_column_one_below(m1, j as nat, k);
    }
}

proof fn lemma_merge_one_below(m: Map<(int, int), Seq<(i8, i64)>>, count: nat)
    requires
        keys_ordered(m),
        forall|k: int| k >= count ==> #[trigger] one_rod_below(m, k),
    ensures
        forall|k: int| #[trigger] one_rod_below(merge_rods(m, count), k),
    decreases count,
{
    if count > 0 {
        let k = count - 1;
        let m1 = merge_column(m, k as nat, k);
        assert forall|x: int, y: int|
            #![trigger m.contains_key((x, k)), m.contains_key((y, k))]
            m.contains_key((x, k)) && m.contains_key((y, k)) && y >= k implies x == y by {}
        lemma_column_one_below(m, k as nat, k);
        lemma_column_frame(m, k as nat, k);
        assert forall|k2: int| k2 >= count implies #[trigger] one_rod_below(m1, k2) by {
            assert(one_rod_below(m, k2));
            assert forall|x: int, y: int|
                #![trigger m1.contains_key((x, k2)), m1.contains_key((y, k2))]
                m1.contains_key((x, k2)) && m1.contains_key((y, k2)) implies x == y by {
                assert(same_at(m1, m, (x, k2)));
                assert(same_at(m1, m, (y, k2)));
            }
        }
        assert forall|k2: int| k2 >= k implies #[trigger] one_rod_below(m1, k2) by {
            if k2 >= count {
                assert(one_rod_below(m1, k2));
            }
        }
        lemma_merge_one_below(m1, k as nat);
        assert(merge_rods(m, count) == merge_rods(m1, k as nat));
    } else {
        assert forall|k: int| #[trigger] one_rod_below(merge_rods(m, count), k) by {
            assert(one_rod_below(m, k));
        }
    }
}

/// After the merge, no note is the upper end of more than one rod, and the system is still
/// well-formed.
pub proof fn law_merge_one_rod_below_each(m: Map<(int, int), Seq<(i8, i64)>>, n: nat)
    requires
        system_wf(m, n as int),
    ensures
        system_wf(merge_rods(m, n), n as int),
        one_rod_below_each(merge_rods(m, n)),
{
    lemma_merge_wf(m, n as int, n);
    assert forall|k: int| k >= n implies #[trigger] one_rod_below(m, k) by {
        assert forall|x: int, y: int|
            #![trigger m.contains_key((x, k)), m.contains_key((y, k))]
            m.contains_key((x, k)) && m.contains_key((y, k)) implies x == y by {}
    }
    lemma_merge_one_below(m, n);
    let r = merge_rods(m, n);
    assert forall|x: int, y: int, k: int|
        #![trigger r.contains_key((x, k)), r.contains_key((y, k))]
        r.contains_key((x, k)) && r.contains_key((y, k)) implies x == y by {
        assert(one_rod_below(r, k));
    }
}

proof fn lemma_step_hold(
    m: Map<(int, int), Seq<(i8, i64)>>,
    i: int,
    j: int,
    k: int,
    pos0: spec_fn(int) -> int,
    pos: spec_fn(int) -> int,
    v: spec_fn(i8) -> int,
)
    requires
        i < j < k,
        merge_step_fits(m, i, j, k),
        rods_hold(m, pos0, v),
    ensures
        rods_hold(merge_step(m, i, j, k), pos0, v),
        rods_hold(merge_step(m, i, j, k), pos, v) ==> rods_hold(m, pos, v),
{
    let r = merge_step(m, i, j, k);
    lemma_step_frame(m, i, j, k);
    if m.contains_key((j, k)) {
        let b = m[(j, k)];
        let has_a = m.contains_key((i, j));
        let has_c = m.contains_key((i, k));
        assert(pos0(k) - pos0(j) == rod_value(b, v));
        if has_a && !has_c {
            let a = m[(i, j)];
            assert(pos0(j) - pos0(i) == rod_value(a, v));
            lemma_add_all_value(b, a, v);
        } else if !has_a && has_c {
            let c = m[(i, k)];
            assert(pos0(k) - pos0(i) == rod_value(c, v));
            lemma_negate(b, v);
            lemma_add_all_value(negate(b), c, v);
        } else if has_a && has_c {
            assert(pos0(j) - pos0(i) == rod_value(m[(i, j)], v));
            assert(pos0(k) - pos0(i) == rod_value(m[(i, k)], v));
        }
        assert forall|p: (int, int)| #[trigger] r.contains_key(p) implies pos0(p.1) - pos0(p.0)
            == rod_value(r[p], v) by {
            if p != (j, k) && p != (i, k) && p != (i, j) {
                assert(same_at(r, m, p));
            }
        }
        if rods_hold(r, pos, v) {
            assert forall|p: (int, int)| #[trigger] m.contains_key(p) implies pos(p.1) - pos(p.0)
                == rod_value(m[p], v) by {
                if p != (j, k) && p != (i, k) && p != (i, j) {
                    assert(same_at(r, m, p));
                } else if p == (j, k) {
                    if has_a && !has_c {
                        assert(r.contains_key((i, j)) && r.contains_key((i, k)));
                    } else if !has_a && has_c {
                        assert(r.contains_key((i, j)) && r.contains_key((i, k)));
                    } else if has_a && has_c {
                        assert(r.contains_key((i, j)) && r.contains_key((i, k)));
                    }
                } else {
                    assert(r.contains_key(p));
                }
            }
        }
    }
}

proof fn lemma_row_hold(
    m: Map<(int, int), Seq<(i8, i64)>>,
    count: nat,
    j: int,
    k: int,
    pos0: spec_fn(int) -> int,
    pos: spec_fn(int) -> int,
    v: spec_fn(i8) -> int,
)
    requires
        count <= j < k,
        merge_row_fits(m, count, j, k),
        rods_hold(m, pos0, v),
    ensures
        rods_hold(merge_row(m, count, j, k), pos0, v),
        rods_hold(merge_row(m, count, j, k), pos, v) ==> rods_hold(m, pos, v),
    decreases count,
{
    if count > 0 {
        lemma_step_hold(m, count - 1, j, k, pos0, pos, v);
        lemma_row_hold(merge_step(m, count - 1, j, k), (count - 1) as nat, j, k, pos0, pos, v);
    }
}

proof fn lemma_column_hold(
    m: Map<(int, int), Seq<(i8, i64)>>,
    count: nat,
    k: int,
    pos0: spec_fn(int) -> int,
    pos: spec_fn(int) -> int,
    v: spec_fn(i8) -> int,
)
    requires
        count <= k,
        merge_column_fits(m, count, k),
        rods_hold(m, pos0, v),
    ensures
        rods_hold(merge_column(m, count, k), pos0, v),
        rods_hold(merge_column(m, count, k), pos, v) ==> rods_hold(m, pos, v),
    decreases count,
{
    if count > 0 {
        lemma_row_hold(m, (count - 1) as nat, count - 1, k, pos0, pos, v);
        lemma_column_hold(
            merge_row(m, (count - 1) as nat, count - 1, k),
            (count - 1) as nat,
            k,
            pos0,
            pos,
            v,
        );
    }
}

proof fn lemma_merge_hold(
    m: Map<(int, int), Seq<(i8, i64)>>,
    count: nat,
    pos0: spec_fn(int) -> int,
    pos: spec_fn(int) -> int,
    v: spec_fn(i8) -> int,
)
    requires
        merge_rods_fits(m, count),
        rods_hold(m, pos0, v),
    ensures
        rods_hold(merge_rods(m, count), pos0, v),
        rods_hold(merge_rods(m, count), pos, v) ==> rods_hold(m, pos, v),
    decreases count,
{
    if count > 0 {
        lemma_column_hold(m, (count - 1) as nat, count - 1, pos0, pos, v);
        lemma_merge_hold(merge_column(m, (count - 1) as nat, count - 1), (count - 1) as nat, pos0, pos, v);
    }
}

/// The merge loses no information: every placement of the notes that meets all rods of the
/// system also meets all rods of the merged system.
pub proof fn law_merge_sound(
    m: Map<(int, int), Seq<(i8, i64)>>,
    n: nat,
    pos: spec_fn(int) -> int,
    v: spec_fn(i8) -> int,
)
    requires
        merge_rods_fits(m, n),
        rods_hold(m, pos, v),
    ensures
        rods_hold(merge_rods(m, n), pos, v),
{
    lemma_merge_hold(m, n, pos, pos, v);
}

/// The merge adds no information either: where the rods of the system can be met at all (by
/// `pos0`), every placement that meets the merged rods meets the rods of the system.
pub proof fn law_merge_complete(
    m: Map<(int, int), Seq<(i8, i64)>>,
    n: nat,
    pos0: spec_fn(int) -> int,
    pos: spec_fn(int) -> int,
    v: spec_fn(i8) -> int,
)
    requires
        merge_rods_fits(m, n),
        rods_hold(m, pos0, v),
        rods_hold(merge_rods(m, n), pos, v),
    ensures
        rods_hold(m, pos, v),
{
    lemma_merge_hold(m, n, pos0, pos, v);
}

} // verus!
