//! The intended (untempered) intervals between the notes of a solution: the intervals between
//! pairs of notes that are known are completed, triangle by triangle, to the intervals they
//! determine.
use crate::rational::fits_i64;
use vstd::prelude::*;

verus! {

/// The coefficientwise sum of two vectors of coefficients.
pub open spec fn vec_add(a: Seq<i64>, b: Seq<i64>) -> Seq<i64> {
    Seq::new(a.len(), |t: int| (a[t] + b[t]) as i64)
}

/// The coefficientwise difference of two vectors of coefficients.
pub open spec fn vec_sub(a: Seq<i64>, b: Seq<i64>) -> Seq<i64> {
    Seq::new(a.len(), |t: int| (a[t] - b[t]) as i64)
}

pub open spec fn vec_add_fits(a: Seq<i64>, b: Seq<i64>) -> bool {
    &&& a.len() == b.len()
    &&& forall|t: int| 0 <= t < a.len() ==> fits_i64(#[trigger] a[t] + b[t])
}

pub open spec fn vec_sub_fits(a: Seq<i64>, b: Seq<i64>) -> bool {
    &&& a.len() == b.len()
    &&& forall|t: int| 0 <= t < a.len() ==> fits_i64(#[trigger] a[t] - b[t])
}

/// One step of the completion, for the notes `i < j < k`: where two of the three intervals
/// between them are known, the third one is computed from them.
pub open spec fn complete_step(
    m: Map<(int, int), Seq<i64>>,
    i: int,
    j: int,
    k: int,
) -> Map<(int, int), Seq<i64>> {
    let has_ij = m.contains_key((i, j));
    let has_jk = m.contains_key((j, k));
    let has_ik = m.contains_key((i, k));
    if !has_ij && has_jk && has_ik {
        m.insert((i, j), vec_sub(m[(i, k)], m[(j, k)]))
    } else if has_ij && !has_jk && has_ik {
        m.insert((j, k), vec_sub(m[(i, k)], m[(i, j)]))
    } else if has_ij && has_jk && !has_ik {
        m.insert((i, k), vec_add(m[(i, j)], m[(j, k)]))
    } else {
        m
    }
}

/// The coefficients that [complete_step] computes fit in an `i64`.
pub open spec fn complete_step_fits(m: Map<(int, int), Seq<i64>>, i: int, j: int, k: int) -> bool {
    let has_ij = m.contains_key((i, j));
    let has_jk = m.contains_key((j, k));
    let has_ik = m.contains_key((i, k));
    &&& (!has_ij && has_jk && has_ik ==> vec_sub_fits(m[(i, k)], m[(j, k)]))
    &&& (has_ij && !has_jk && has_ik ==> vec_sub_fits(m[(i, k)], m[(i, j)]))
    &&& (has_ij && has_jk && !has_ik ==> vec_add_fits(m[(i, j)], m[(j, k)]))
}

/// The steps for `k` from `k0` up to `n - 1`.
pub open spec fn complete_ks(m: Map<(int, int), Seq<i64>>, i: int, j: int, k0: int, n: int) -> Map<
    (int, int),
    Seq<i64>,
>
    decreases n - k0,
{
    if k0 >= n {
        m
    } else {
        complete_ks(complete_step(m, i, j, k0), i, j, k0 + 1, n)
    }
}

pub open spec fn complete_ks_fits(m: Map<(int, int), Seq<i64>>, i: int, j: int, k0: int, n: int) -> bool
    decreases n - k0,
{
    k0 >= n || (complete_step_fits(m, i, j, k0) && complete_ks_fits(
        complete_step(m, i, j, k0),
        i,
        j,
        k0 + 1,
        n,
    ))
}

/// The steps for `j` from `j0` up to `n - 1`, each for all `k > j`.
pub open spec fn complete_js(m: Map<(int, int), Seq<i64>>, i: int, j0: int, n: int) -> Map<
    (int, int),
    Seq<i64>,
>
    decreases n - j0,
{
    if j0 >= n {
        m
    } else {
        complete_js(complete_ks(m, i, j0, j0 + 1, n), i, j0 + 1, n)
    }
}

pub open spec fn complete_js_fits(m: Map<(int, int), Seq<i64>>, i: int, j0: int, n: int) -> bool
    decreases n - j0,
{
    j0 >= n || (complete_ks_fits(m, i, j0, j0 + 1, n) && complete_js_fits(
        complete_ks(m, i, j0, j0 + 1, n),
        i,
        j0 + 1,
        n,
    ))
}

/// The steps for `i` from `i0` up to `n - 1`, each for all `i < j < k`: one pass of the completion
/// over all triangles of the `n` notes.
pub open spec fn complete_is(m: Map<(int, int), Seq<i64>>, i0: int, n: int) -> Map<(int, int), Seq<i64>>
    decreases n - i0,
{
    if i0 >= n {
        m
    } else {
        complete_is(complete_js(m, i0, i0 + 1, n), i0 + 1, n)
    }
}

pub open spec fn complete_is_fits(m: Map<(int, int), Seq<i64>>, i0: int, n: int) -> bool
    decreases n - i0,
{
    i0 >= n || (complete_js_fits(m, i0, i0 + 1, n) && complete_is_fits(
        complete_js(m, i0, i0 + 1, n),
        i0 + 1,
        n,
    ))
}

/// The intervals `m` are those between the notes at the positions `pos`: the interval from `i`
/// to `j` is `pos(j) - pos(i)`, coefficientwise.
pub open spec fn intervals_between(m: Map<(int, int), Seq<i64>>, pos: spec_fn(int) -> Seq<int>) -> bool {
    forall|p: (int, int)|
        #[trigger] m.contains_key(p) ==> m[p].len() == pos(p.1).len() && pos(p.0).len()
            == pos(p.1).len() && forall|t: int|
            0 <= t < m[p].len() ==> #[trigger] m[p][t] == pos(p.1)[t] - pos(p.0)[t]
}

proof fn lemma_step(m: Map<(int, int), Seq<i64>>, i: int, j: int, k: int, pos: spec_fn(int) -> Seq<int>)
    requires
        i < j < k,
    ensures
        forall|p: (int, int)|
            #[trigger] m.contains_key(p) ==> complete_step(m, i, j, k).contains_key(p)
                && complete_step(m, i, j, k)[p] == m[p],
        complete_step_fits(m, i, j, k) && intervals_between(m, pos) ==> intervals_between(
            complete_step(m, i, j, k),
            pos,
        ),
{
    let r = complete_step(m, i, j, k);
    if complete_step_fits(m, i, j, k) && intervals_between(m, pos) {
        assert forall|p: (int, int)| #[trigger] r.contains_key(p) implies r[p].len() == pos(p.1).len()
            && pos(p.0).len() == pos(p.1).len() && forall|t: int|
            0 <= t < r[p].len() ==> #[trigger] r[p][t] == pos(p.1)[t] - pos(p.0)[t] by {
            if m.contains_key(p) {
            } else if p == (i, j) {
                assert(m.contains_key((i, k)) && m.contains_key((j, k)));
            } else if p == (j, k) {
                assert(m.contains_key((i, k)) && m.contains_key((i, j)));
            } else {
                assert(m.contains_key((i, j)) && m.contains_key((j, k)));
            }
        }
    }
}

proof fn lemma_ks(m: Map<(int, int), Seq<i64>>, i: int, j: int, k0: int, n: int, pos: spec_fn(int) -> Seq<int>)
    requires
        i < j < k0,
    ensures
        forall|p: (int, int)|
            #[trigger] m.contains_key(p) ==> complete_ks(m, i, j, k0, n).contains_key(p)
                && complete_ks(m, i, j, k0, n)[p] == m[p],
        complete_ks_fits(m, i, j, k0, n) && intervals_between(m, pos) ==> intervals_between(
            complete_ks(m, i, j, k0, n),
            pos,
        ),
    decreases n - k0,
{
    if k0 < n {
        lemma_step(m, i, j, k0, pos);
        lemma_ks(complete_step(m, i, j, k0), i, j, k0 + 1, n, pos);
    }
}

proof fn lemma_js(m: Map<(int, int), Seq<i64>>, i: int, j0: int, n: int, pos: spec_fn(int) -> Seq<int>)
    requires
        i < j0,
    ensures
        forall|p: (int, int)|
            #[trigger] m.contains_key(p) ==> complete_js(m, i, j0, n).contains_key(p)
                && complete_js(m, i, j0, n)[p] == m[p],
        complete_js_fits(m, i, j0, n) && intervals_between(m, pos) ==> intervals_between(
            complete_js(m, i, j0, n),
            pos,
        ),
    decreases n - j0,
{
    if j0 < n {
        lemma_ks(m, i, j0, j0 + 1, n, pos);
        lemma_js(complete_ks(m, i, j0, j0 + 1, n), i, j0 + 1, n, pos);
    }
}

proof fn lemma_is(m: Map<(int, int), Seq<i64>>, i0: int, n: int, pos: spec_fn(int) -> Seq<int>)
    ensures
        forall|p: (int, int)|
            #[trigger] m.contains_key(p) ==> complete_is(m, i0, n).contains_key(p) && complete_is(
                m,
                i0,
                n,
            )[p] == m[p],
        complete_is_fits(m, i0, n) && intervals_between(m, pos) ==> intervals_between(
            complete_is(m, i0, n),
            pos,
        ),
    decreases n - i0,
{
    if i0 < n {
        lemma_js(m, i0, i0 + 1, n, pos);
        lemma_is(complete_js(m, i0, i0 + 1, n), i0 + 1, n, pos);
    }
}

/// The completion keeps every interval that was known.
pub proof fn law_complete_keeps(m: Map<(int, int), Seq<i64>>, n: int)
    ensures
        forall|p: (int, int)|
            #[trigger] m.contains_key(p) ==> complete_is(m, 0, n).contains_key(p) && complete_is(
                m,
                0,
                n,
            )[p] == m[p],
{
    lemma_is(m, 0, n, |x: int| Seq::<int>::empty());
}

/// The completion only computes intervals that the known ones imply: where the known intervals
/// are those between notes at some positions, so are all completed ones.
pub proof fn law_complete_sound(m: Map<(int, int), Seq<i64>>, n: int, pos: spec_fn(int) -> Seq<int>)
    requires
        complete_is_fits(m, 0, n),
        intervals_between(m, pos),
    ensures
        intervals_between(complete_is(m, 0, n), pos),
{
    lemma_is(m, 0, n, pos);
}

} // verus!
