//! The connections between notes, and the bookkeeping of the springs, rods and anchors that a
//! solver for the tunings of the sounding notes works on.
use crate::interval::stack::Stack;
use crate::interval::stacktype::{StackCoeff, StackType};
use crate::process::springs::candidates::{
    count_up_at, digits_in_range, lemma_all_highest, lemma_all_zero, lemma_concat, lemma_count_up,
    lemma_value_bounds, lemma_value_injective, odometer_capacity,
    odometer_value,
};
use crate::process::springs::rods::{
    add_all, add_all_fits, add_signed, add_term, add_term_fits, lemma_step_wf, merge_column,
    merge_column_fits, merge_row, merge_row_fits, merge_rods, merge_rods_fits, merge_step,
    merge_step_fits, negate, negate_fits, rodspec_wf, system_wf, terms_sorted,
};
use crate::process::springs::targets::{
    complete_is, complete_is_fits, complete_js, complete_js_fits, complete_ks, complete_ks_fits,
    complete_step, complete_step_fits, intervals_between, vec_add, vec_add_fits, vec_sub,
    vec_sub_fits,
};
use crate::interval::temperament::all_wf;
use crate::rational::{fits_i64, minus, sub_spec, Rational};
use vstd::prelude::*;

verus! {

/// The difference of two MIDI key numbers.
pub type KeyDistance = i8;

/// A MIDI key number.
pub type KeyNumber = u8;

/// An association list of key distances of the sub-intervals and multiplicities of these
/// intervals.
///
/// invariants:
/// - length at least 1
/// - the key distances are always positive
/// - sorted by ascending key distance
pub type RodSpec = Vec<(KeyDistance, StackCoeff)>;

/// How two notes are connected.
pub enum Connector {
    /// The interval between the notes is flexible; it may be detuned if necessary.
    Spring,
    /// The notes must be tuned the given interval apart.
    Rod(RodSpec),
    /// The tuning of the two notes is not (directly) related.
    NoConnection,
}

#[derive(Debug)]
struct SpringInfo {
    solver_length_index: usize,
    memo_key: KeyDistance,
    current_candidate_index: usize,
}

#[derive(Debug)]
struct AnchorInfo {
    solver_length_index: usize,
    memo_key: KeyNumber,
    current_candidate_index: usize,
}

#[derive(Debug)]
struct RodInfo {
    solver_length_index: usize,
    memo_key: RodSpec,
}

// ---------------------------------------------------------------------------------------------
// Tables indexed by pairs of notes
// ---------------------------------------------------------------------------------------------

/// The place of the pair `(i, j)` of note indices in a table for `n` notes.
pub open spec fn pair_index(n: int, i: int, j: int) -> int {
    i * n + j
}

proof fn lemma_pair_index(n: int, i: int, j: int)
    requires
        0 <= i < n,
        0 <= j < n,
    ensures
        0 <= pair_index(n, i, j) < n * n,
        pair_index(n, i, j) + 1 <= n * n,
{
    assert(0 <= i * n + j < n * n) by (nonlinear_arith)
        requires
            0 <= i < n,
            0 <= j < n,
    ;
}

proof fn lemma_pair_index_injective(n: int, p: (int, int), q: (int, int))
    requires
        0 <= p.0 < n,
        0 <= p.1 < n,
        0 <= q.0 < n,
        0 <= q.1 < n,
        pair_index(n, p.0, p.1) == pair_index(n, q.0, q.1),
    ensures
        p == q,
{
    if p.0 < q.0 {
        assert(p.0 * n + p.1 < q.0 * n + q.1) by (nonlinear_arith)
            requires
                0 <= p.0 < q.0,
                0 <= p.1 < n,
                0 <= q.1,
        ;
    } else if q.0 < p.0 {
        assert(q.0 * n + q.1 < p.0 * n + p.1) by (nonlinear_arith)
            requires
                0 <= q.0 < p.0,
                0 <= q.1 < n,
                0 <= p.1,
        ;
    }
}

/// The rods of a table for `n` notes: the specs of the rods between the notes `i < j`.
spec fn rods_of(t: Seq<Option<RodInfo>>, n: int) -> Map<(int, int), Seq<(i8, i64)>> {
    Map::new(
        |p: (int, int)| 0 <= p.0 < p.1 < n && t[pair_index(n, p.0, p.1)] is Some,
        |p: (int, int)| t[pair_index(n, p.0, p.1)]->0.memo_key@,
    )
}

/// A table for `n` notes has one place per pair, and only those of pairs `i < j` are used.
spec fn table_shape<X>(t: Seq<Option<X>>, n: int) -> bool {
    &&& t.len() == n * n
    &&& forall|i: int, j: int|
        0 <= j <= i < n ==> #[trigger] t[pair_index(n, i, j)] is None
}

proof fn lemma_rods_of_update(t: Seq<Option<RodInfo>>, n: int, i: int, j: int, o: Option<RodInfo>)
    requires
        table_shape(t, n),
        0 <= i < j < n,
    ensures
        table_shape(t.update(pair_index(n, i, j), o), n),
        rods_of(t.update(pair_index(n, i, j), o), n) == (match o {
            Some(r) => rods_of(t, n).insert((i, j), r.memo_key@),
            None => rods_of(t, n).remove((i, j)),
        }),
{
    let u = t.update(pair_index(n, i, j), o);
    lemma_pair_index(n, i, j);
    assert forall|x: int, y: int| 0 <= y <= x < n implies #[trigger] u[pair_index(n, x, y)] is None by {
        lemma_pair_index(n, x, y);
        if pair_index(n, x, y) == pair_index(n, i, j) {
            lemma_pair_index_injective(n, (x, y), (i, j));
        }
    }
    let expected = match o {
        Some(r) => rods_of(t, n).insert((i, j), r.memo_key@),
        None => rods_of(t, n).remove((i, j)),
    };
    assert forall|p: (int, int)| #[trigger] rods_of(u, n).contains_key(p) == expected.contains_key(p)
        && (rods_of(u, n).contains_key(p) ==> rods_of(u, n)[p] == expected[p]) by {
        if 0 <= p.0 < p.1 < n {
            lemma_pair_index(n, p.0, p.1);
            if pair_index(n, p.0, p.1) == pair_index(n, i, j) {
                lemma_pair_index_injective(n, p, (i, j));
            }
        }
    }
    assert(rods_of(u, n) =~= expected);
}

// ---------------------------------------------------------------------------------------------
// Rod specs
// ---------------------------------------------------------------------------------------------

proof fn lemma_add_term_at(a: Seq<(i8, i64)>, d: i8, c: i64, t: int)
    requires
        0 <= t <= a.len(),
        forall|s: int| 0 <= s < t ==> (#[trigger] a[s]).0 < d,
        t < a.len() ==> a[t].0 >= d,
    ensures
        add_term(a, d, c) == (if t < a.len() && a[t].0 == d {
            a.update(t, (d, (a[t].1 + c) as i64))
        } else {
            a.insert(t, (d, c))
        }),
        add_term_fits(a, d, c) == (t < a.len() && a[t].0 == d ==> fits_i64(a[t].1 + c)),
    decreases t,
{
    if t == 0 {
        if a.len() == 0 {
            assert(a.insert(0, (d, c)) =~= seq![(d, c)]);
        } else if a[0].0 == d {
            assert(a.update(0, (d, (a[0].1 + c) as i64)) =~= seq![(d, (a[0].1 + c) as i64)]
                + a.drop_first());
        } else {
            assert(a.insert(0, (d, c)) =~= seq![(d, c)] + a);
        }
    } else {
        let rest = a.drop_first();
        assert(a[0].0 < d);
        assert forall|s: int| 0 <= s < t - 1 implies (#[trigger] rest[s]).0 < d by {
            assert(rest[s] == a[s + 1]);
        }
        lemma_add_term_at(rest, d, c, t - 1);
        if t < a.len() && a[t].0 == d {
            assert(seq![a[0]] + rest.update(t - 1, (d, (a[t].1 + c) as i64)) =~= a.update(
                t,
                (d, (a[t].1 + c) as i64),
            ));
        } else {
            assert(seq![a[0]] + rest.insert(t - 1, (d, c)) =~= a.insert(t, (d, c)));
        }
    }
}

/// Adds `c` times the key distance `d` to the rod spec `a`, keeping its terms sorted.
fn add_to_rodspec(a: &mut RodSpec, d: KeyDistance, c: StackCoeff)
    requires
        d != i8::MIN,
        d < 0 ==> c != i64::MIN,
        if d < 0 {
            add_term_fits(old(a)@, (-d) as i8, (-c) as i64)
        } else {
            add_term_fits(old(a)@, d, c)
        },
        forall|t: int| 0 <= t < old(a)@.len() ==> (#[trigger] old(a)@[t]).0 > 0,
    ensures
        final(a)@ == add_signed(old(a)@, d, c),
{
    let mut d = d;
    let mut c = c;
    if d < 0 {
        d = -d;
        c = -c;
    }
    // the simple linear search is best here: rod specs are short. In the most common case, they
    // have length 1.
    let mut t: usize = 0;
    while t < a.len() && a[t].0 < d
        invariant
            t <= a@.len(),
            a@ == old(a)@,
            forall|s: int| 0 <= s < t ==> (#[trigger] a@[s]).0 < d,
        decreases a@.len() - t,
    {
        t += 1;
    }
    proof {
        lemma_add_term_at(a@, d, c, t as int);
    }
    if t < a.len() {
        if a[t].0 == d {
            let x = a[t].1;
            a.set(t, (d, x + c));
        } else {
            a.insert(t, (d, c));
        }
    } else {
        a.insert(t, (d, c));
    }
}

/// Adds all terms of `other` to `a`.
fn add_all_terms(a: &mut RodSpec, other: &RodSpec)
    requires
        add_all_fits(old(a)@, other@),
        terms_sorted(old(a)@),
        terms_sorted(other@),
    ensures
        final(a)@ == add_all(old(a)@, other@),
{
    let mut t: usize = 0;
    assert(other@.skip(0) =~= other@);
    while t < other.len()
        invariant
            t <= other@.len(),
            terms_sorted(other@),
            terms_sorted(a@),
            add_all(a@, other@.skip(t as int)) == add_all(old(a)@, other@),
            add_all_fits(a@, other@.skip(t as int)),
        decreases other@.len() - t,
    {
        let (d, x) = other[t];
        let ghost rest = other@.skip(t as int);
        proof {
            assert(rest[0] == (d, x));
            assert(rest.drop_first() =~= other@.skip(t + 1));
            crate::process::springs::rods::lemma_add_term_sorted(a@, d, x);
        }
        add_to_rodspec(a, d, x);
        t += 1;
    }
    proof {
        assert(other@.skip(t as int) =~= Seq::<(i8, i64)>::empty());
    }
}

/// The terms of `a` with opposite coefficients.
fn negate_terms(a: &mut RodSpec)
    requires
        negate_fits(old(a)@),
    ensures
        final(a)@ == negate(old(a)@),
{
    let mut t: usize = 0;
    while t < a.len()
        invariant
            t <= a@.len(),
            a@.len() == old(a)@.len(),
            forall|s: int| t <= s < a@.len() ==> #[trigger] a@[s] == old(a)@[s],
            forall|s: int| 0 <= s < t ==> #[trigger] a@[s] == negate(old(a)@)[s],
            negate_fits(old(a)@),
        decreases a@.len() - t,
    {
        let (d, x) = a[t];
        assert(old(a)@[t as int].1 != i64::MIN);
        a.set(t, (d, -x));
        t += 1;
    }
    assert(a@ =~= negate(old(a)@));
}

// ---------------------------------------------------------------------------------------------
// The merge of the rods
// ---------------------------------------------------------------------------------------------

fn merge_step_in(tbl: &mut Vec<Option<RodInfo>>, n: usize, i: usize, j: usize, k: usize)
    requires
        table_shape(old(tbl)@, n as int),
        i < j < k < n,
        system_wf(rods_of(old(tbl)@, n as int), n as int),
        merge_step_fits(rods_of(old(tbl)@, n as int), i as int, j as int, k as int),
    ensures
        table_shape(final(tbl)@, n as int),
        rods_of(final(tbl)@, n as int) == merge_step(
            rods_of(old(tbl)@, n as int),
            i as int,
            j as int,
            k as int,
        ),
{
    let ghost m = rods_of(tbl@, n as int);
    proof {
        lemma_pair_index(n as int, i as int, j as int);
        lemma_pair_index(n as int, i as int, k as int);
        lemma_pair_index(n as int, j as int, k as int);
    }
    let len = tbl.len();
    assert(len == n * n);
    assert(i * n + j < len && i * n + k < len && j * n + k < len);
    assert(i * n <= usize::MAX && j * n <= usize::MAX);
    let ij = i * n + j;
    let ik = i * n + k;
    let jk = j * n + k;
    if tbl[jk].is_none() {
        assert(!m.contains_key((j as int, k as int)));
        return;
    }
    let has_a = tbl[ij].is_some();
    let has_c = tbl[ik].is_some();
    assert(m.contains_key((j as int, k as int)));
    assert(has_a == m.contains_key((i as int, j as int)));
    assert(has_c == m.contains_key((i as int, k as int)));
    if has_a && !has_c {
        let b = tbl[jk].take().unwrap();
        proof {
            lemma_rods_of_update(old(tbl)@, n as int, j as int, k as int, None);
        }
        let mut spec = b.memo_key;
        match &tbl[ij] {
            Some(a) => {
                assert(rodspec_wf(m[(i as int, j as int)]));
                add_all_terms(&mut spec, &a.memo_key);
            },
            None => {},
        }
        let ghost before = tbl@;
        tbl.set(ik, Some(RodInfo { memo_key: spec, solver_length_index: b.solver_length_index }));
        proof {
            lemma_rods_of_update(before, n as int, i as int, k as int, tbl@[ik as int]);
            assert(rods_of(tbl@, n as int) =~= merge_step(m, i as int, j as int, k as int));
        }
    } else if !has_a && has_c {
        let b = tbl[jk].take().unwrap();
        proof {
            lemma_rods_of_update(old(tbl)@, n as int, j as int, k as int, None);
        }
        let mut spec = b.memo_key;
        negate_terms(&mut spec);
        match &tbl[ik] {
            Some(c) => {
                assert(rodspec_wf(m[(i as int, k as int)]));
                proof {
                    crate::process::springs::rods::lemma_negate_sorted(m[(j as int, k as int)]);
                }
                add_all_terms(&mut spec, &c.memo_key);
            },
            None => {},
        }
        let ghost before = tbl@;
        tbl.set(ij, Some(RodInfo { memo_key: spec, solver_length_index: b.solver_length_index }));
        proof {
            lemma_rods_of_update(before, n as int, i as int, j as int, tbl@[ij as int]);
            assert(rods_of(tbl@, n as int) =~= merge_step(m, i as int, j as int, k as int));
        }
    } else if has_a && has_c {
        tbl.set(jk, None);
        proof {
            lemma_rods_of_update(old(tbl)@, n as int, j as int, k as int, None);
        }
    }
}

/// Replaces the rods of the table by an equivalent system in which no note is the upper end of
/// more than one rod; see [merge_rods].
fn merge_table(tbl: &mut Vec<Option<RodInfo>>, n: usize)
    requires
        table_shape(old(tbl)@, n as int),
        system_wf(rods_of(old(tbl)@, n as int), n as int),
        merge_rods_fits(rods_of(old(tbl)@, n as int), n as nat),
    ensures
        table_shape(final(tbl)@, n as int),
        rods_of(final(tbl)@, n as int) == merge_rods(rods_of(old(tbl)@, n as int), n as nat),
{
    let ghost target = merge_rods(rods_of(tbl@, n as int), n as nat);
    let mut kk: usize = n;
    while kk > 0
        invariant
            kk <= n,
            table_shape(tbl@, n as int),
            system_wf(rods_of(tbl@, n as int), n as int),
            merge_rods(rods_of(tbl@, n as int), kk as nat) == target,
            merge_rods_fits(rods_of(tbl@, n as int), kk as nat),
        decreases kk,
    {
        let k = kk - 1;
        let ghost column_target = merge_column(rods_of(tbl@, n as int), k as nat, k as int);
        let mut jj: usize = k;
        while jj > 0
            invariant
                k < n,
                jj <= k,
                table_shape(tbl@, n as int),
                system_wf(rods_of(tbl@, n as int), n as int),
                merge_column(rods_of(tbl@, n as int), jj as nat, k as int) == column_target,
                merge_column_fits(rods_of(tbl@, n as int), jj as nat, k as int),
                merge_rods(column_target, k as nat) == target,
                merge_rods_fits(column_target, k as nat),
            decreases jj,
        {
            let j = jj - 1;
            let ghost row_target = merge_row(rods_of(tbl@, n as int), j as nat, j as int, k as int);
            let mut ii: usize = j;
            while ii > 0
                invariant
                    j < k < n,
                    ii <= j,
                    table_shape(tbl@, n as int),
                    system_wf(rods_of(tbl@, n as int), n as int),
                    merge_row(rods_of(tbl@, n as int), ii as nat, j as int, k as int) == row_target,
                    merge_row_fits(rods_of(tbl@, n as int), ii as nat, j as int, k as int),
                    merge_column(row_target, j as nat, k as int) == column_target,
                    merge_column_fits(row_target, j as nat, k as int),
                    merge_rods(column_target, k as nat) == target,
                    merge_rods_fits(column_target, k as nat),
                decreases ii,
            {
                let i = ii - 1;
                proof {
                    lemma_step_wf(rods_of(tbl@, n as int), n as int, i as int, j as int, k as int);
                }
                merge_step_in(tbl, n, i, j, k);
                ii = i;
            }
            jj = j;
        }
        kk = k;
    }
}

// ---------------------------------------------------------------------------------------------
// Counting the used places of a table
// ---------------------------------------------------------------------------------------------

/// The number of used places among the first `t` places of a table.
pub open spec fn count_some<X>(s: Seq<Option<X>>, t: int) -> nat
    decreases t,
{
    if t <= 0 {
        0
    } else {
        count_some(s, t - 1) + if s[t - 1] is Some {
            1nat
        } else {
            0nat
        }
    }
}

proof fn lemma_count_some_update<X>(s: Seq<Option<X>>, p: int, x: Option<X>, t: int)
    requires
        0 <= p < s.len(),
        t <= s.len(),
    ensures
        t <= p ==> count_some(s.update(p, x), t) == count_some(s, t),
        t > p ==> count_some(s.update(p, x), t) + (if s[p] is Some {
            1int
        } else {
            0int
        }) == count_some(s, t) + (if x is Some {
            1int
        } else {
            0int
        }),
    decreases t,
{
    if t > 0 {
        lemma_count_some_update(s, p, x, t - 1);
    }
}

proof fn lemma_count_some_same<X, Y>(s1: Seq<Option<X>>, s2: Seq<Option<Y>>, t: int)
    requires
        forall|q: int| 0 <= q < t ==> (#[trigger] s1[q] is Some) == (s2[q] is Some),
    ensures
        count_some(s1, t) == count_some(s2, t),
    decreases t,
{
    if t > 0 {
        lemma_count_some_same(s1, s2, t - 1);
    }
}

proof fn lemma_count_some_none<X>(s: Seq<Option<X>>, a: int, b: int)
    requires
        0 <= a <= b <= s.len(),
        forall|t: int| a <= t < b ==> #[trigger] s[t] is None,
    ensures
        count_some(s, b) == count_some(s, a),
    decreases b - a,
{
    if b > a {
        lemma_count_some_none(s, a, b - 1);
    }
}

/// The used places of a table are numbered consecutively from `start`, in the order of the
/// places.
spec fn springs_numbered(s: Seq<Option<SpringInfo>>, start: int) -> bool {
    forall|t: int|
        0 <= t < s.len() && #[trigger] s[t] is Some ==> s[t]->0.solver_length_index == start
            + count_some(s, t)
}

spec fn rods_numbered(s: Seq<Option<RodInfo>>, start: int) -> bool {
    forall|t: int|
        0 <= t < s.len() && #[trigger] s[t] is Some ==> s[t]->0.solver_length_index == start
            + count_some(s, t)
}

proof fn lemma_decode(n: int, t: int)
    requires
        0 <= n,
        0 <= t < n * n,
    ensures
        0 <= t / n < n,
        0 <= t % n < n,
        pair_index(n, t / n, t % n) == t,
{
    assert(n > 0) by (nonlinear_arith)
        requires
            0 <= n,
            0 <= t < n * n,
    ;
    vstd::arithmetic::div_mod::lemma_fundamental_div_mod(t, n);
    vstd::arithmetic::div_mod::lemma_mod_bound(t, n);
    assert(0 <= t / n < n) by (nonlinear_arith)
        requires
            t == n * (t / n) + t % n,
            0 <= t % n < n,
            0 <= t < n * n,
    ;
    vstd::arithmetic::mul::lemma_mul_is_commutative(n, t / n);
}

/// Unique key numbers are at most 256.
proof fn lemma_unique_keys(keys: Seq<u8>)
    requires
        keys.no_duplicates(),
    ensures
        keys.len() <= 256,
{
    let ks = keys.map_values(|x: u8| x as int);
    assert(ks.no_duplicates()) by {
        assert forall|a: int, b: int| 0 <= a < ks.len() && 0 <= b < ks.len() && a != b implies ks[a]
            != ks[b] by {
            assert(keys[a] != keys[b]);
        }
    }
    ks.unique_seq_to_set();
    assert(ks.to_set().subset_of(vstd::set_lib::set_int_range(0, 256))) by {
        assert forall|x: int| ks.to_set().contains(x) implies vstd::set_lib::set_int_range(0, 256).contains(
            x,
        ) by {
            let t = choose|t: int| 0 <= t < ks.len() && ks[t] == x;
        }
    }
    vstd::set_lib::lemma_int_range(0, 256);
    vstd::set_lib::lemma_len_subset(ks.to_set(), vstd::set_lib::set_int_range(0, 256));
}

proof fn lemma_count_some_le<X>(s: Seq<Option<X>>, t: int)
    requires
        0 <= t,
    ensures
        count_some(s, t) <= t,
    decreases t,
{
    if t > 0 {
        lemma_count_some_le(s, t - 1);
    }
}

/// The springs of a table for `n` notes: the key distance of each spring between the notes
/// `i < j`.
spec fn springs_of(t: Seq<Option<SpringInfo>>, n: int) -> Map<(int, int), i8> {
    Map::new(
        |p: (int, int)| 0 <= p.0 < p.1 < n && t[pair_index(n, p.0, p.1)] is Some,
        |p: (int, int)| t[pair_index(n, p.0, p.1)]->0.memo_key,
    )
}

proof fn lemma_springs_of_update(t: Seq<Option<SpringInfo>>, n: int, i: int, j: int, o: Option<SpringInfo>)
    requires
        table_shape(t, n),
        0 <= i < j < n,
    ensures
        table_shape(t.update(pair_index(n, i, j), o), n),
        springs_of(t.update(pair_index(n, i, j), o), n) == (match o {
            Some(r) => springs_of(t, n).insert((i, j), r.memo_key),
            None => springs_of(t, n).remove((i, j)),
        }),
{
    let u = t.update(pair_index(n, i, j), o);
    lemma_pair_index(n, i, j);
    assert forall|x: int, y: int| 0 <= y <= x < n implies #[trigger] u[pair_index(n, x, y)] is None by {
        lemma_pair_index(n, x, y);
        if pair_index(n, x, y) == pair_index(n, i, j) {
            lemma_pair_index_injective(n, (x, y), (i, j));
        }
    }
    let expected = match o {
        Some(r) => springs_of(t, n).insert((i, j), r.memo_key),
        None => springs_of(t, n).remove((i, j)),
    };
    assert forall|p: (int, int)| #[trigger] springs_of(u, n).contains_key(p) == expected.contains_key(p)
        && (springs_of(u, n).contains_key(p) ==> springs_of(u, n)[p] == expected[p]) by {
        if 0 <= p.0 < p.1 < n {
            lemma_pair_index(n, p.0, p.1);
            if pair_index(n, p.0, p.1) == pair_index(n, i, j) {
                lemma_pair_index_injective(n, p, (i, j));
            }
        }
    }
    assert(springs_of(u, n) =~= expected);
}

/// A table for `n` notes with no used place.
fn none_table<X>(len: usize) -> (t: Vec<Option<X>>)
    ensures
        t@.len() == len,
        forall|s: int| 0 <= s < len ==> #[trigger] t@[s] is None,
{
    let mut t: Vec<Option<X>> = Vec::new();
    while t.len() < len
        invariant
            t@.len() <= len,
            forall|s: int| 0 <= s < t@.len() ==> #[trigger] t@[s] is None,
        decreases len - t@.len(),
    {
        t.push(None);
    }
    t
}

/// The key distance from the `i`-th to the `j`-th of the `keys`.
pub open spec fn key_distance_of(keys: Seq<KeyNumber>, i: int, j: int) -> int {
    (keys[j] as i8) - (keys[i] as i8)
}

/// `conns` holds, for every pair `i < j` of the `n` notes, a connector that `which_connector` may
/// return for it.
pub open spec fn connectors_from<WC: Fn(usize, usize) -> Connector>(
    which_connector: WC,
    conns: Map<(int, int), Connector>,
    n: int,
) -> bool {
    forall|i: int, j: int|
        0 <= i < j < n ==> #[trigger] conns.contains_key((i, j)) && which_connector.ensures(
            (i as usize, j as usize),
            conns[(i, j)],
        )
}

/// The rods that the connectors `conns` ask for.
pub open spec fn initial_rods(conns: Map<(int, int), Connector>, n: int) -> Map<
    (int, int),
    Seq<(i8, i64)>,
> {
    Map::new(
        |p: (int, int)| 0 <= p.0 < p.1 < n && conns[p] is Rod,
        |p: (int, int)| conns[p]->Rod_0@,
    )
}

/// The springs that the connectors `conns` ask for, with the key distances they span.
pub open spec fn initial_springs(conns: Map<(int, int), Connector>, keys: Seq<KeyNumber>, n: int) -> Map<
    (int, int),
    i8,
> {
    Map::new(
        |p: (int, int)| 0 <= p.0 < p.1 < n && conns[p] is Spring,
        |p: (int, int)| key_distance_of(keys, p.0, p.1) as i8,
    )
}

/// Whether the spring candidates for the key distance `d` have been memoised.
fn has_spring_memo<T: StackType>(memo: &Vec<(KeyDistance, Vec<(Stack<T>, Rational)>)>, d: KeyDistance) -> (b: bool)
    ensures
        b == exists|t: int| 0 <= t < memo@.len() && (#[trigger] memo@[t]).0 == d,
{
    let mut t: usize = 0;
    while t < memo.len()
        invariant
            t <= memo@.len(),
            forall|s: int| 0 <= s < t ==> (#[trigger] memo@[s]).0 != d,
        decreases memo@.len() - t,
    {
        if memo[t].0 == d {
            return true;
        }
        t += 1;
    }
    false
}

/// Whether two rod specs have the same terms.
fn same_terms(a: &RodSpec, b: &RodSpec) -> (r: bool)
    ensures
        r == (a@ == b@),
{
    if a.len() != b.len() {
        return false;
    }
    let mut t: usize = 0;
    while t < a.len()
        invariant
            t <= a@.len(),
            a@.len() == b@.len(),
            forall|s: int| 0 <= s < t ==> #[trigger] a@[s] == b@[s],
        decreases a@.len() - t,
    {
        if a[t].0 != b[t].0 || a[t].1 != b[t].1 {
            return false;
        }
        t += 1;
    }
    assert(a@ =~= b@);
    true
}

/// A copy of a rod spec.
fn copy_terms(a: &RodSpec) -> (r: RodSpec)
    ensures
        r@ == a@,
{
    let mut r: RodSpec = Vec::new();
    let mut t: usize = 0;
    while t < a.len()
        invariant
            t <= a@.len(),
            r@ == a@.subrange(0, t as int),
        decreases a@.len() - t,
    {
        r.push(a[t]);
        t += 1;
    }
    assert(a@.subrange(0, a@.len() as int) =~= a@);
    r
}

/// Whether the candidate for the rod spec `spec` has been memoised.
fn has_rod_memo<T: StackType>(memo: &Vec<(RodSpec, Stack<T>)>, spec: &RodSpec) -> (b: bool)
    ensures
        b == exists|t: int| 0 <= t < memo@.len() && (#[trigger] memo@[t]).0@ == spec@,
{
    let mut t: usize = 0;
    while t < memo.len()
        invariant
            t <= memo@.len(),
            forall|s: int| 0 <= s < t ==> (#[trigger] memo@[s]).0@ != spec@,
        decreases memo@.len() - t,
    {
        if same_terms(&memo[t].0, spec) {
            return true;
        }
        t += 1;
    }
    false
}

/// The pair `p` comes before the pair `(i, j)` in the order of the rows (by the lower note, then
/// by the upper one).
pub open spec fn pair_before(p: (int, int), i: int, j: int) -> bool {
    p.0 < i || (p.0 == i && p.1 < j)
}

spec fn partial_rods(conns: Map<(int, int), Connector>, n: int, i: int, j: int) -> Map<
    (int, int),
    Seq<(i8, i64)>,
> {
    Map::new(
        |p: (int, int)| 0 <= p.0 < p.1 < n && pair_before(p, i, j) && conns[p] is Rod,
        |p: (int, int)| conns[p]->Rod_0@,
    )
}

spec fn partial_springs(conns: Map<(int, int), Connector>, keys: Seq<KeyNumber>, n: int, i: int, j: int) -> Map<
    (int, int),
    i8,
> {
    Map::new(
        |p: (int, int)| 0 <= p.0 < p.1 < n && pair_before(p, i, j) && conns[p] is Spring,
        |p: (int, int)| key_distance_of(keys, p.0, p.1) as i8,
    )
}

proof fn lemma_partial_step(
    conns: Map<(int, int), Connector>,
    c: Connector,
    keys: Seq<KeyNumber>,
    n: int,
    i: int,
    j: int,
)
    requires
        0 <= i < j < n,
    ensures
        partial_rods(conns.insert((i, j), c), n, i, j + 1) == (if c is Rod {
            partial_rods(conns, n, i, j).insert((i, j), c->Rod_0@)
        } else {
            partial_rods(conns, n, i, j)
        }),
        partial_springs(conns.insert((i, j), c), keys, n, i, j + 1) == (if c is Spring {
            partial_springs(conns, keys, n, i, j).insert((i, j), key_distance_of(keys, i, j) as i8)
        } else {
            partial_springs(conns, keys, n, i, j)
        }),
{
    let c2 = conns.insert((i, j), c);
    assert(partial_rods(c2, n, i, j + 1) =~= (if c is Rod {
        partial_rods(conns, n, i, j).insert((i, j), c->Rod_0@)
    } else {
        partial_rods(conns, n, i, j)
    }));
    assert(partial_springs(c2, keys, n, i, j + 1) =~= (if c is Spring {
        partial_springs(conns, keys, n, i, j).insert((i, j), key_distance_of(keys, i, j) as i8)
    } else {
        partial_springs(conns, keys, n, i, j)
    }));
}

proof fn lemma_partial_row(conns: Map<(int, int), Connector>, keys: Seq<KeyNumber>, n: int, i: int)
    requires
        0 <= i < n,
    ensures
        partial_rods(conns, n, i, i + 1) == partial_rods(conns, n, i, 0),
        partial_springs(conns, keys, n, i, i + 1) == partial_springs(conns, keys, n, i, 0),
        partial_rods(conns, n, i, n) == partial_rods(conns, n, i + 1, 0),
        partial_springs(conns, keys, n, i, n) == partial_springs(conns, keys, n, i + 1, 0),
{
    assert(partial_rods(conns, n, i, i + 1) =~= partial_rods(conns, n, i, 0));
    assert(partial_springs(conns, keys, n, i, i + 1) =~= partial_springs(conns, keys, n, i, 0));
    assert(partial_rods(conns, n, i, n) =~= partial_rods(conns, n, i + 1, 0));
    assert(partial_springs(conns, keys, n, i, n) =~= partial_springs(conns, keys, n, i + 1, 0));
}

/// The memo `memo` extends `base` by candidates that `provide` may return for keys of the
/// `owners` (springs by key distance, anchors by key number), and holds candidates for the key of
/// every owner.
pub open spec fn memo_extends<T: StackType, K, Q, P: Fn(K) -> Vec<(Stack<T>, Rational)>>(
    memo: Seq<(K, Vec<(Stack<T>, Rational)>)>,
    base: Seq<(K, Vec<(Stack<T>, Rational)>)>,
    owners: Map<Q, K>,
    provide: P,
) -> bool {
    &&& base.len() <= memo.len()
    &&& memo.subrange(0, base.len() as int) == base
    &&& forall|t: int|
        base.len() <= t < memo.len() ==> provide.ensures(((#[trigger] memo[t]).0,), memo[t].1)
            && exists|q: Q| #[trigger] owners.contains_key(q) && owners[q] == memo[t].0
    &&& forall|q: Q|
        #[trigger] owners.contains_key(q) ==> exists|t: int|
            0 <= t < memo.len() && (#[trigger] memo[t]).0 == owners[q]
}

/// The rod memo `memo` extends `base` by lengths that `provide` may return for specs of the
/// `rods`, and holds the length for the spec of every rod.
pub open spec fn rod_memo_extends<T: StackType, PR: Fn(&RodSpec) -> Stack<T>>(
    memo: Seq<(RodSpec, Stack<T>)>,
    base: Seq<(RodSpec, Stack<T>)>,
    rods: Map<(int, int), Seq<(i8, i64)>>,
    provide: PR,
) -> bool {
    &&& rod_memo_added(memo, base, rods, provide)
    &&& forall|p: (int, int)|
        #[trigger] rods.contains_key(p) ==> exists|t: int|
            0 <= t < memo.len() && (#[trigger] memo[t]).0@ == rods[p]
}

/// The rod memo `memo` extends `base` by lengths that `provide` may return for specs of the
/// `rods`.
pub open spec fn rod_memo_added<T: StackType, PR: Fn(&RodSpec) -> Stack<T>>(
    memo: Seq<(RodSpec, Stack<T>)>,
    base: Seq<(RodSpec, Stack<T>)>,
    rods: Map<(int, int), Seq<(i8, i64)>>,
    provide: PR,
) -> bool {
    &&& base.len() <= memo.len()
    &&& memo.subrange(0, base.len() as int) == base
    &&& forall|t: int|
        base.len() <= t < memo.len() ==> provide.ensures((&(#[trigger] memo[t]).0,), memo[t].1)
            && exists|p: (int, int)| #[trigger] rods.contains_key(p) && rods[p] == memo[t].0@
}

#[verifier::rlimit(40)]
#[verifier::spinoff_prover]
proof fn lemma_memo_add<T: StackType, K, Q, P: Fn(K) -> Vec<(Stack<T>, Rational)>>(
    memo_before: Seq<(K, Vec<(Stack<T>, Rational)>)>,
    memo: Seq<(K, Vec<(Stack<T>, Rational)>)>,
    base: Seq<(K, Vec<(Stack<T>, Rational)>)>,
    owners_before: Map<Q, K>,
    p: Q,
    d: K,
    provide: P,
)
    requires
        memo_extends(memo_before, base, owners_before, provide),
        !owners_before.contains_key(p),
        forall|s: int, t: int|
            0 <= s < t < memo_before.len() ==> (#[trigger] memo_before[s]).0 != (#[trigger] memo_before[t]).0,
        (exists|t: int| 0 <= t < memo_before.len() && (#[trigger] memo_before[t]).0 == d) ==> memo == memo_before,
        !(exists|t: int| 0 <= t < memo_before.len() && (#[trigger] memo_before[t]).0 == d) ==> memo.len()
            == memo_before.len() + 1 && memo.subrange(0, memo_before.len() as int) == memo_before
            && memo[memo_before.len() as int].0 == d && provide.ensures(
            (d,),
            memo[memo_before.len() as int].1,
        ),
    ensures
        memo_extends(memo, base, owners_before.insert(p, d), provide),
        forall|s: int, t: int| 0 <= s < t < memo.len() ==> (#[trigger] memo[s]).0 != (#[trigger] memo[t]).0,
{
    let owners_after = owners_before.insert(p, d);
    let found = exists|t: int| 0 <= t < memo_before.len() && (#[trigger] memo_before[t]).0 == d;
    assert forall|t: int| 0 <= t < memo_before.len() implies #[trigger] memo[t] == memo_before[t] by {
        if !found {
            assert(memo.subrange(0, memo_before.len() as int)[t] == memo_before[t]);
        }
    }
    assert(memo.subrange(0, base.len() as int) =~= base) by {
        assert(memo_before.subrange(0, base.len() as int) == base);
        assert forall|t: int| 0 <= t < base.len() implies memo.subrange(0, base.len() as int)[t] == base[t] by {
            assert(memo_before.subrange(0, base.len() as int)[t] == base[t]);
        }
    }
    assert forall|t: int|
        base.len() <= t < memo.len() implies provide.ensures(((#[trigger] memo[t]).0,), memo[t].1)
            && exists|q: Q| #[trigger] owners_after.contains_key(q) && owners_after[q] == memo[t].0 by {
        if t < memo_before.len() {
            assert(memo[t] == memo_before[t]);
            let q = choose|q: Q|
                #[trigger] owners_before.contains_key(q) && owners_before[q] == memo_before[t].0;
            assert(owners_after.contains_key(q) && owners_after[q] == memo[t].0);
        } else {
            assert(owners_after.contains_key(p) && owners_after[p] == memo[t].0);
        }
    }
    assert forall|q: Q| #[trigger] owners_after.contains_key(q) implies exists|t: int|
        0 <= t < memo.len() && (#[trigger] memo[t]).0 == owners_after[q] by {
        if q == p {
            if found {
                let t = choose|t: int| 0 <= t < memo_before.len() && (#[trigger] memo_before[t]).0 == d;
                assert(memo[t] == memo_before[t]);
            } else {
                assert(memo[memo_before.len() as int].0 == d);
            }
        } else {
            assert(owners_before.contains_key(q));
            let t = choose|t: int|
                0 <= t < memo_before.len() && (#[trigger] memo_before[t]).0 == owners_before[q];
            assert(memo[t] == memo_before[t]);
        }
    }
    assert forall|s: int, t: int| 0 <= s < t < memo.len() implies (#[trigger] memo[s]).0
        != (#[trigger] memo[t]).0 by {
        assert(memo[s] == memo_before[s]);
        if t < memo_before.len() {
            assert(memo[t] == memo_before[t]);
        }
    }
}

// ---------------------------------------------------------------------------------------------
// The workspace
// ---------------------------------------------------------------------------------------------

/// The bookkeeping for solving the tunings of a set of notes connected by springs (intervals that
/// may be detuned), rods (intervals that may not) and anchors (springs that tie a note to a
/// position).
pub struct Workspace<T: StackType> {
    n_keys: usize,
    keys: Vec<KeyNumber>,
    memo_springs: bool,
    memo_anchors: bool,
    memo_rods: bool,
    memoed_springs: Vec<(KeyDistance, Vec<(Stack<T>, Rational)>)>,
    memoed_anchors: Vec<(KeyNumber, Vec<(Stack<T>, Rational)>)>,
    memoed_rods: Vec<(RodSpec, Stack<T>)>,
    // one place per pair of notes; see [pair_index]
    current_springs: Vec<Option<SpringInfo>>,
    // one place per note
    current_anchors: Vec<Option<AnchorInfo>>,
    // one place per pair of notes; see [pair_index]
    current_rods: Vec<Option<RodInfo>>,
}

impl<T: StackType> Workspace<T> {
    /// The number of notes is that of the keys, the keys are distinct, and every memo has each
    /// key at most once.
    pub closed spec fn wf(&self) -> bool {
        &&& self.n_keys == self.keys@.len()
        &&& self.keys@.no_duplicates()
        &&& forall|s: int, t: int|
            0 <= s < t < self.memoed_springs@.len() ==> (#[trigger] self.memoed_springs@[s]).0 != (
            #[trigger] self.memoed_springs@[t]).0
        &&& forall|s: int, t: int|
            0 <= s < t < self.memoed_anchors@.len() ==> (#[trigger] self.memoed_anchors@[s]).0 != (
            #[trigger] self.memoed_anchors@[t]).0
        &&& forall|s: int, t: int|
            0 <= s < t < self.memoed_rods@.len() ==> (#[trigger] self.memoed_rods@[s]).0@ != (
            #[trigger] self.memoed_rods@[t]).0@
    }

    /// The key numbers of the notes.
    pub closed spec fn spec_keys(&self) -> Seq<KeyNumber> {
        self.keys@
    }

    /// Whether springs, anchors and rods are remembered between calls.
    pub closed spec fn memo_flags(&self) -> (bool, bool, bool) {
        (self.memo_springs, self.memo_anchors, self.memo_rods)
    }

    /// The memoised spring candidates, by key distance.
    pub closed spec fn spring_memo(&self) -> Seq<(KeyDistance, Vec<(Stack<T>, Rational)>)> {
        self.memoed_springs@
    }

    /// The memoised anchor candidates, by key number.
    pub closed spec fn anchor_memo(&self) -> Seq<(KeyNumber, Vec<(Stack<T>, Rational)>)> {
        self.memoed_anchors@
    }

    /// The memoised rod lengths, by rod spec.
    pub closed spec fn rod_memo(&self) -> Seq<(RodSpec, Stack<T>)> {
        self.memoed_rods@
    }

    /// The current rods: the spec of the rod between the notes `i < j`, under the key `(i, j)`.
    pub closed spec fn rods(&self) -> Map<(int, int), Seq<(i8, i64)>> {
        rods_of(self.current_rods@, self.n_keys as int)
    }

    /// The current springs: the key distance of the spring between the notes `i < j`, under the
    /// key `(i, j)`.
    pub closed spec fn springs(&self) -> Map<(int, int), i8> {
        springs_of(self.current_springs@, self.n_keys as int)
    }

    /// Which of the candidates for its key distance the spring between the notes `p` currently
    /// uses.
    pub closed spec fn spring_candidate(&self, p: (int, int)) -> int {
        self.current_springs@[pair_index(self.n_keys as int, p.0, p.1)]->0.current_candidate_index as int
    }

    /// The springs and rods of the current keys have been collected: the tables are for the
    /// current number of notes, and the rods are well-formed.
    pub closed spec fn intervals_collected(&self) -> bool {
        &&& table_shape(self.current_springs@, self.n_keys as int)
        &&& table_shape(self.current_rods@, self.n_keys as int)
        &&& system_wf(self.rods(), self.n_keys as int)
    }

    /// The lengths that the solver is given are numbered: the springs from 0 in the order of their
    /// pairs of notes (by the lower note, then by the upper one), the rods after them in the same
    /// order, and `next` is the number after the last.
    pub closed spec fn lengths_numbered(&self, next: nat) -> bool {
        let n = self.n_keys as int;
        let n_springs = count_some(self.current_springs@, n * n);
        &&& springs_numbered(self.current_springs@, 0)
        &&& rods_numbered(self.current_rods@, n_springs as int)
        &&& next == n_springs + count_some(self.current_rods@, n * n)
    }

    /// meanings of arguments:
    /// - `initial_n_keys`: How many simultaneously sounding keys do you expect this workspace to
    ///    be used for? Choosing a big value will potentially prevent re-allocations, at the cost of
    ///    wasting space.
    /// - `memo_springs`, `memo_anchors` and `memo_rods`: Should sizes, anchor positions (and
    ///    their stiffnesses) and the lengths of rods be remembered between successive
    ///    collections?
    pub fn new(initial_n_keys: usize, memo_springs: bool, memo_anchors: bool, memo_rods: bool) -> (ws: Self)
        ensures
            ws.wf(),
            ws.spec_keys() == Seq::<KeyNumber>::empty(),
            ws.memo_flags() == (memo_springs, memo_anchors, memo_rods),
            ws.spring_memo() == Seq::<(KeyDistance, Vec<(Stack<T>, Rational)>)>::empty(),
            ws.anchor_memo() == Seq::<(KeyNumber, Vec<(Stack<T>, Rational)>)>::empty(),
            ws.rod_memo() == Seq::<(RodSpec, Stack<T>)>::empty(),
            ws.intervals_collected(),
            ws.rods() == Map::<(int, int), Seq<(i8, i64)>>::empty(),
            ws.springs() == Map::<(int, int), i8>::empty(),
    {
        let ws = Workspace {
            n_keys: 0,
            keys: Vec::with_capacity(initial_n_keys),
            memo_springs,
            memo_anchors,
            memo_rods,
            memoed_springs: Vec::new(),
            memoed_anchors: Vec::new(),
            memoed_rods: Vec::new(),
            current_springs: Vec::new(),
            current_anchors: Vec::new(),
            current_rods: Vec::new(),
        };
        assert(ws.rods() =~= Map::<(int, int), Seq<(i8, i64)>>::empty());
        assert(ws.springs() =~= Map::<(int, int), i8>::empty());
        ws
    }

    /// Sets the key numbers of the notes that are considered together.
    ///
    /// invariants:
    ///
    /// - The entries of `keys` must be unique.
    /// - The ordering of `keys` matters: Notes that come later (and the springs between them) are
    ///   more "stable" in the sense that alternative tunings are less likely to be picked.
    pub fn set_keys(&mut self, keys: &[KeyNumber])
        requires
            old(self).wf(),
            keys@.no_duplicates(),
        ensures
            final(self).wf(),
            final(self).spec_keys() == keys@,
            final(self).memo_flags() == old(self).memo_flags(),
            final(self).spring_memo() == old(self).spring_memo(),
            final(self).anchor_memo() == old(self).anchor_memo(),
            final(self).rod_memo() == old(self).rod_memo(),
    {
        self.n_keys = keys.len();
        self.keys.clear();
        self.keys.extend_from_slice(keys);
        proof {
            assert(self.keys@ =~= keys@);
        }
    }

    /// The current rods, in the order of their pairs of notes (by the lower note, then by the
    /// upper one): the pair and the spec of each.
    pub fn current_rods(&self) -> (r: Vec<((usize, usize), RodSpec)>)
        requires
            self.wf(),
            self.intervals_collected(),
        ensures
            forall|t: int|
                0 <= t < r@.len() ==> #[trigger] self.rods().contains_key(
                    (r@[t].0.0 as int, r@[t].0.1 as int),
                ) && self.rods()[(r@[t].0.0 as int, r@[t].0.1 as int)] == r@[t].1@,
            forall|s: int, t: int|
                0 <= s < t < r@.len() ==> pair_before(
                    ((#[trigger] r@[s]).0.0 as int, r@[s].0.1 as int),
                    (#[trigger] r@[t]).0.0 as int,
                    r@[t].0.1 as int,
                ),
            forall|p: (int, int)|
                #[trigger] self.rods().contains_key(p) ==> exists|t: int|
                    0 <= t < r@.len() && (#[trigger] r@[t]).0 == (p.0 as usize, p.1 as usize),
    {
        let n = self.n_keys;
        let nn = self.current_rods.len();
        let mut r: Vec<((usize, usize), RodSpec)> = Vec::new();
        let mut t: usize = 0;
        while t < nn
            invariant
                n == self.n_keys,
                nn == n * n,
                t <= nn,
                table_shape(self.current_rods@, n as int),
                forall|q: int|
                    #![trigger r@[q]]
                    0 <= q < r@.len() ==> rods_of(self.current_rods@, n as int).contains_key(
                        (r@[q].0.0 as int, r@[q].0.1 as int),
                    ) && rods_of(self.current_rods@, n as int)[(r@[q].0.0 as int, r@[q].0.1 as int)]
                        == r@[q].1@ && pair_index(n as int, r@[q].0.0 as int, r@[q].0.1 as int) < t,
                forall|s: int, q: int|
                    0 <= s < q < r@.len() ==> pair_index(
                        n as int,
                        (#[trigger] r@[s]).0.0 as int,
                        r@[s].0.1 as int,
                    ) < pair_index(n as int, (#[trigger] r@[q]).0.0 as int, r@[q].0.1 as int),
                forall|q: int|
                    0 <= q < t && #[trigger] self.current_rods@[q] is Some ==> exists|s: int|
                        0 <= s < r@.len() && pair_index(
                            n as int,
                            (#[trigger] r@[s]).0.0 as int,
                            r@[s].0.1 as int,
                        ) == q,
            decreases nn - t,
        {
            match &self.current_rods[t] {
                Some(info) => {
                    proof {
                        lemma_decode(n as int, t as int);
                    }
                    let i = t / n;
                    let j = t % n;
                    proof {
                        if j <= i {
                            assert(self.current_rods@[pair_index(n as int, i as int, j as int)] is None);
                        }
                    }
                    let spec = copy_terms(&info.memo_key);
                    let ghost before = r@;
                    r.push(((i, j), spec));
                    proof {
                        assert(pair_index(n as int, i as int, j as int) == t);
                        assert(rods_of(self.current_rods@, n as int).contains_key((i as int, j as int)));
                        assert forall|q: int| 0 <= q < before.len() implies #[trigger] r@[q] == before[q] by {}
                        assert forall|q: int|
                            #![trigger r@[q]]
                            0 <= q < r@.len() implies rods_of(self.current_rods@, n as int).contains_key(
                                (r@[q].0.0 as int, r@[q].0.1 as int),
                            ) && rods_of(self.current_rods@, n as int)[(r@[q].0.0 as int, r@[q].0.1 as int)]
                                == r@[q].1@ && pair_index(n as int, r@[q].0.0 as int, r@[q].0.1 as int) < t + 1 by {
                            let m = rods_of(self.current_rods@, n as int);
                            if q < before.len() {
                                assert(r@[q] == before[q]);
                                assert(m.contains_key((before[q].0.0 as int, before[q].0.1 as int)));
                                assert(m[(before[q].0.0 as int, before[q].0.1 as int)] == before[q].1@);
                                assert(pair_index(n as int, before[q].0.0 as int, before[q].0.1 as int) < t);
                            } else {
                                assert(r@[q].0 == (i, j));
                                assert(r@[q].1@ == info.memo_key@);
                                assert(self.current_rods@[t as int] == Some(*info));
                                assert(m.contains_key((i as int, j as int)));
                                assert(m[(i as int, j as int)] == info.memo_key@);
                            }
                        }
                        assert forall|s: int, q: int|
                            0 <= s < q < r@.len() implies pair_index(
                                n as int,
                                (#[trigger] r@[s]).0.0 as int,
                                r@[s].0.1 as int,
                            ) < pair_index(n as int, (#[trigger] r@[q]).0.0 as int, r@[q].0.1 as int) by {
                            assert(r@[s] == before[s]);
                            if q < before.len() {
                                assert(r@[q] == before[q]);
                            }
                        }
                        assert forall|q: int| 0 <= q < t + 1 && #[trigger] self.current_rods@[q] is Some implies exists|s: int|
                            0 <= s < r@.len() && pair_index(
                                n as int,
                                (#[trigger] r@[s]).0.0 as int,
                                r@[s].0.1 as int,
                            ) == q by {
                            if q < t {
                                let s = choose|s: int|
                                    0 <= s < before.len() && pair_index(
                                        n as int,
                                        (#[trigger] before[s]).0.0 as int,
                                        before[s].0.1 as int,
                                    ) == q;
                                assert(r@[s] == before[s]);
                            } else {
                                assert(pair_index(n as int, r@[before.len() as int].0.0 as int, r@[before.len() as int].0.1 as int) == q);
                            }
                        }
                    }
                },
                None => {},
            }
            t += 1;
        }
        proof {
            let m = rods_of(self.current_rods@, n as int);
            assert forall|s: int, q: int|
                0 <= s < q < r@.len() implies pair_before(
                    ((#[trigger] r@[s]).0.0 as int, r@[s].0.1 as int),
                    (#[trigger] r@[q]).0.0 as int,
                    r@[q].0.1 as int,
                ) by {
                let a = (r@[s].0.0 as int, r@[s].0.1 as int);
                let b = (r@[q].0.0 as int, r@[q].0.1 as int);
                assert(m.contains_key(a) && m.contains_key(b));
                assert(pair_index(n as int, a.0, a.1) < pair_index(n as int, b.0, b.1));
                if !pair_before(a, b.0, b.1) {
                    if a.0 == b.0 {
                    } else {
                        assert(b.0 * n + b.1 < a.0 * n + a.1) by (nonlinear_arith)
                            requires
                                0 <= b.0 < a.0,
                                0 <= b.1 < n,
                                0 <= a.1,
                        ;
                    }
                }
            }
            assert forall|p: (int, int)| #[trigger] m.contains_key(p) implies exists|t: int|
                0 <= t < r@.len() && (#[trigger] r@[t]).0 == (p.0 as usize, p.1 as usize) by {
                lemma_pair_index(n as int, p.0, p.1);
                let q = pair_index(n as int, p.0, p.1);
                assert(self.current_rods@[q] is Some);
                let s = choose|s: int|
                    0 <= s < r@.len() && pair_index(
                        n as int,
                        (#[trigger] r@[s]).0.0 as int,
                        r@[s].0.1 as int,
                    ) == q;
                let a = (r@[s].0.0 as int, r@[s].0.1 as int);
                assert(m.contains_key(a));
                lemma_pair_index_injective(n as int, a, p);
            }
        }
        r
    }

    /// Clears the tables of springs and rods, and fills them from the connectors that
    /// `which_connector` returns for the pairs of notes, in the order of the pairs; memoises the
    /// spring candidates as they are needed.
    fn fill_tables<WC, PS>(&mut self, which_connector: WC, provide_candidate_springs: PS) -> (r: (
        usize,
        Ghost<Map<(int, int), Connector>>,
    )) where
        WC: Fn(usize, usize) -> Connector,
        PS: Fn(KeyDistance) -> Vec<(Stack<T>, Rational)>,

        requires
            old(self).wf(),
            forall|i: usize, j: usize|
                i < j < old(self).spec_keys().len() ==> #[trigger] which_connector.requires((i, j)),
            forall|d: KeyDistance| #[trigger] provide_candidate_springs.requires((d,)),
            forall|i: usize, j: usize, c: Connector|
                #[trigger] which_connector.ensures((i, j), c) && c is Rod ==> rodspec_wf(c->Rod_0@),
            forall|i: int, j: int|
                0 <= i < j < old(self).spec_keys().len() ==> i8::MIN <= #[trigger] key_distance_of(
                    old(self).spec_keys(),
                    i,
                    j,
                ) <= i8::MAX,
        ensures
            final(self).wf(),
            final(self).n_keys == old(self).n_keys,
            final(self).keys@ == old(self).keys@,
            final(self).memo_springs == old(self).memo_springs,
            final(self).memo_anchors == old(self).memo_anchors,
            final(self).memo_rods == old(self).memo_rods,
            final(self).current_anchors == old(self).current_anchors,
            final(self).memoed_anchors == old(self).memoed_anchors,
            final(self).memoed_rods == old(self).memoed_rods,
            final(self).n_keys <= 256,
            table_shape(final(self).current_springs@, final(self).n_keys as int),
            table_shape(final(self).current_rods@, final(self).n_keys as int),
            connectors_from(which_connector, r.1@, final(self).n_keys as int),
            rods_of(final(self).current_rods@, final(self).n_keys as int) == initial_rods(
                r.1@,
                final(self).n_keys as int,
            ),
            springs_of(final(self).current_springs@, final(self).n_keys as int) == initial_springs(
                r.1@,
                final(self).keys@,
                final(self).n_keys as int,
            ),
            system_wf(rods_of(final(self).current_rods@, final(self).n_keys as int), final(self).n_keys as int),
            forall|t: int|
                0 <= t < final(self).current_springs@.len() && #[trigger] final(self).current_springs@[t] is Some
                    ==> final(self).current_springs@[t]->0.current_candidate_index == 0,
            springs_numbered(final(self).current_springs@, 0),
            r.0 == count_some(final(self).current_springs@, final(self).current_springs@.len() as int),
            memo_extends(
                final(self).memoed_springs@,
                if old(self).memo_springs {
                    old(self).memoed_springs@
                } else {
                    Seq::empty()
                },
                springs_of(final(self).current_springs@, final(self).n_keys as int),
                provide_candidate_springs,
            ),
    {
        let n = self.n_keys;
        proof {
            lemma_unique_keys(self.keys@);
            assert(n * n <= 256 * 256) by (nonlinear_arith)
                requires
                    n <= 256,
            ;
        }
        let nn = n * n;
        self.current_springs = none_table(nn);
        self.current_rods = none_table(nn);
        if !self.memo_springs {
            self.memoed_springs = Vec::new();
        }
        let ghost keys = self.keys@;
        let ghost spring_base = self.memoed_springs@;
        let ghost rod_base = self.memoed_rods@;
        let ghost mut conns: Map<(int, int), Connector> = Map::empty();
        proof {
            assert forall|x: int, y: int| 0 <= y <= x < n implies #[trigger] self.current_springs@[pair_index(
                n as int,
                x,
                y,
            )] is None && self.current_rods@[pair_index(n as int, x, y)] is None by {
                lemma_pair_index(n as int, x, y);
            }
            assert(self.keys@ == old(self).keys@);
            assert forall|x: int, y: int| 0 <= y <= x < n implies #[trigger] self.current_rods@[pair_index(
                n as int,
                x,
                y,
            )] is None by {
                lemma_pair_index(n as int, x, y);
            }
            assert forall|x: int, y: int|
                0 <= x < y < n implies i8::MIN <= #[trigger] key_distance_of(keys, x, y) <= i8::MAX by {
                assert(keys == old(self).spec_keys());
                assert(i8::MIN <= key_distance_of(old(self).spec_keys(), x, y) <= i8::MAX);
            }
            assert forall|p: (int, int)| !rods_of(self.current_rods@, n as int).contains_key(p)
                && !springs_of(self.current_springs@, n as int).contains_key(p) by {
                if 0 <= p.0 < p.1 < n {
                    lemma_pair_index(n as int, p.0, p.1);
                }
            }
            lemma_count_some_none(self.current_springs@, 0, nn as int);
            assert(rods_of(self.current_rods@, n as int) =~= partial_rods(conns, n as int, 0, 0));
            assert(springs_of(self.current_springs@, n as int) =~= partial_springs(
                conns,
                keys,
                n as int,
                0,
                0,
            ));
            assert(self.memoed_springs@.subrange(0, spring_base.len() as int) =~= spring_base);
        }
        let mut solver_length_index: usize = 0;
        let mut i: usize = 0;
        while i < n
            invariant
                n == self.n_keys,
                nn == n * n,
                nn <= 65536,
                self.wf(),
                self.keys@ == keys,
                i <= n,
                table_shape(self.current_springs@, n as int),
                table_shape(self.current_rods@, n as int),
                forall|t: int| i * n <= t < nn ==> #[trigger] self.current_springs@[t] is None,
                forall|t: int| i * n <= t < nn ==> #[trigger] self.current_rods@[t] is None,
                forall|x: int, y: int|
                    0 <= x < y < n && x < i ==> #[trigger] conns.contains_key((x, y))
                        && which_connector.ensures((x as usize, y as usize), conns[(x, y)]),
                rods_of(self.current_rods@, n as int) == partial_rods(conns, n as int, i as int, 0),
                springs_of(self.current_springs@, n as int) == partial_springs(
                    conns,
                    keys,
                    n as int,
                    i as int,
                    0,
                ),
                system_wf(rods_of(self.current_rods@, n as int), n as int),
                forall|t: int|
                    0 <= t < nn && #[trigger] self.current_springs@[t] is Some
                        ==> self.current_springs@[t]->0.current_candidate_index == 0,
                springs_numbered(self.current_springs@, 0),
                solver_length_index == count_some(self.current_springs@, nn as int),
                self.memoed_rods == old(self).memoed_rods,
                memo_extends(
                    self.memoed_springs@,
                    spring_base,
                    springs_of(self.current_springs@, n as int),
                    provide_candidate_springs,
                ),
                self.memo_springs == old(self).memo_springs,
                self.memo_anchors == old(self).memo_anchors,
                self.memo_rods == old(self).memo_rods,
                self.current_anchors == old(self).current_anchors,
                self.memoed_anchors == old(self).memoed_anchors,
                forall|i: usize, j: usize| i < j < n ==> #[trigger] which_connector.requires((i, j)),
                forall|d: KeyDistance| #[trigger] provide_candidate_springs.requires((d,)),
                forall|i: usize, j: usize, c: Connector|
                    #[trigger] which_connector.ensures((i, j), c) && c is Rod ==> rodspec_wf(
                        c->Rod_0@,
                    ),
                forall|x: int, y: int|
                    0 <= x < y < n ==> i8::MIN <= #[trigger] key_distance_of(keys, x, y) <= i8::MAX,
            decreases n - i,
        {
            proof {
                lemma_partial_row(conns, keys, n as int, i as int);
                assert(i * n + (i + 1) >= i * n);
            }
            let mut j: usize = i + 1;
            while j < n
                invariant
                    n == self.n_keys,
                    nn == n * n,
                    nn <= 65536,
                    self.wf(),
                    self.keys@ == keys,
                    i < n,
                    i + 1 <= j <= n,
                    table_shape(self.current_springs@, n as int),
                    table_shape(self.current_rods@, n as int),
                    forall|t: int| i * n + j <= t < nn ==> #[trigger] self.current_springs@[t] is None,
                    forall|t: int| i * n + j <= t < nn ==> #[trigger] self.current_rods@[t] is None,
                    forall|x: int, y: int|
                        0 <= x < y < n && pair_before((x, y), i as int, j as int)
                            ==> #[trigger] conns.contains_key((x, y)) && which_connector.ensures(
                            (x as usize, y as usize),
                            conns[(x, y)],
                        ),
                    rods_of(self.current_rods@, n as int) == partial_rods(
                        conns,
                        n as int,
                        i as int,
                        j as int,
                    ),
                    springs_of(self.current_springs@, n as int) == partial_springs(
                        conns,
                        keys,
                        n as int,
                        i as int,
                        j as int,
                    ),
                    system_wf(rods_of(self.current_rods@, n as int), n as int),
                    forall|t: int|
                        0 <= t < nn && #[trigger] self.current_springs@[t] is Some
                            ==> self.current_springs@[t]->0.current_candidate_index == 0,
                    springs_numbered(self.current_springs@, 0),
                    solver_length_index == count_some(self.current_springs@, nn as int),
                    self.memoed_rods == old(self).memoed_rods,
                    memo_extends(
                        self.memoed_springs@,
                        spring_base,
                        springs_of(self.current_springs@, n as int),
                        provide_candidate_springs,
                    ),
                    self.memo_springs == old(self).memo_springs,
                    self.memo_anchors == old(self).memo_anchors,
                    self.memo_rods == old(self).memo_rods,
                    self.current_anchors == old(self).current_anchors,
                    self.memoed_anchors == old(self).memoed_anchors,
                    forall|i: usize, j: usize| i < j < n ==> #[trigger] which_connector.requires((i, j)),
                    forall|d: KeyDistance| #[trigger] provide_candidate_springs.requires((d,)),
                    forall|i: usize, j: usize, c: Connector|
                        #[trigger] which_connector.ensures((i, j), c) && c is Rod ==> rodspec_wf(
                            c->Rod_0@,
                        ),
                    forall|x: int, y: int|
                        0 <= x < y < n ==> i8::MIN <= #[trigger] key_distance_of(keys, x, y) <= i8::MAX,
                decreases n - j,
            {
                proof {
                    lemma_pair_index(n as int, i as int, j as int);
                }
                let ij = i * n + j;
                let c = which_connector(i, j);
                let ghost old_conns = conns;
                proof {
                    conns = conns.insert((i as int, j as int), c);
                    lemma_partial_step(old_conns, c, keys, n as int, i as int, j as int);
                    assert forall|x: int, y: int|
                        0 <= x < y < n && pair_before((x, y), i as int, j as int + 1)
                            implies #[trigger] conns.contains_key((x, y)) && which_connector.ensures(
                            (x as usize, y as usize),
                            conns[(x, y)],
                        ) by {
                        if (x, y) != (i as int, j as int) {
                            assert(old_conns.contains_key((x, y)));
                        }
                    }
                }
                match c {
                    Connector::Spring => {
                        let ghost d0 = key_distance_of(keys, i as int, j as int) as i8;
                        let d: KeyDistance = self.keys[j] as KeyDistance - self.keys[i] as KeyDistance;
                        assert(d == d0);
                        let ghost memo_before = self.memoed_springs@;
                        let ghost springs_before = springs_of(self.current_springs@, n as int);
                        let memoised = has_spring_memo(&self.memoed_springs, d);
                        if !memoised {
                            let candidates = provide_candidate_springs(d);
                            self.memoed_springs.push((d, candidates));
                        }
                        let ghost before = self.current_springs@;
                        self.current_springs.set(
                            ij,
                            Some(
                                SpringInfo {
                                    current_candidate_index: 0,
                                    memo_key: d,
                                    solver_length_index,
                                },
                            ),
                        );
                        proof {
                            lemma_springs_of_update(
                                before,
                                n as int,
                                i as int,
                                j as int,
                                self.current_springs@[ij as int],
                            );
                            let springs_after = springs_of(self.current_springs@, n as int);
                            assert(springs_after == springs_before.insert((i as int, j as int), d));
                            assert(!springs_before.contains_key((i as int, j as int))) by {
                                assert(before[ij as int] is None);
                            }
                            if !memoised {
                                assert(self.memoed_springs@.subrange(0, memo_before.len() as int) =~= memo_before);
                            }
                            lemma_memo_add(
                                memo_before,
                                self.memoed_springs@,
                                spring_base,
                                springs_before,
                                (i as int, j as int),
                                d,
                                provide_candidate_springs,
                            );
                            // the numbering
                            lemma_count_some_update(before, ij as int, self.current_springs@[ij as int], nn as int);
                            lemma_count_some_none(before, ij as int, nn as int);
                            lemma_count_some_le(before, nn as int);
                            assert forall|t: int|
                                0 <= t < nn && #[trigger] self.current_springs@[t] is Some implies self.current_springs@[t]->0.solver_length_index
                                    == count_some(self.current_springs@, t) by {
                                lemma_count_some_update(before, ij as int, self.current_springs@[ij as int], t);
                                if t == ij {
                                    lemma_count_some_none(before, ij as int, nn as int);
                                }
                            }
                        }
                        solver_length_index += 1;
                    },
                    Connector::Rod(spec) => {
                        let ghost before = self.current_rods@;
                        self.current_rods.set(ij, Some(RodInfo { memo_key: spec, solver_length_index: 0 }));
                        proof {
                            lemma_rods_of_update(before, n as int, i as int, j as int, self.current_rods@[ij as int]);
                            assert(rodspec_wf(old_conns.insert((i as int, j as int), c)[(i as int, j as int)]->Rod_0@));
                        }
                    },
                    Connector::NoConnection => {},
                }
                j += 1;
            }
            proof {
                assert((i + 1) * n == i * n + n) by (nonlinear_arith);
            }
            i += 1;
        }
        proof {
            assert(partial_rods(conns, n as int, n as int, 0) =~= initial_rods(conns, n as int));
            assert(partial_springs(conns, keys, n as int, n as int, 0) =~= initial_springs(
                conns,
                keys,
                n as int,
            ));
            assert(connectors_from(which_connector, conns, n as int));
            assert(keys == old(self).spec_keys());
        }
        proof {
            assert(partial_rods(conns, n as int, n as int, 0) =~= initial_rods(conns, n as int));
            assert(partial_springs(conns, keys, n as int, n as int, 0) =~= initial_springs(
                conns,
                keys,
                n as int,
            ));
        }
        (solver_length_index, Ghost(conns))
    }

    /// Memoises the lengths of the rods of the table that have not been memoised yet, in the order
    /// of their places; forgets the earlier ones first unless rods are remembered.
    fn memo_rods<PR>(&mut self, provide_rod: PR) where PR: Fn(&RodSpec) -> Stack<T>,
        requires
            old(self).wf(),
            table_shape(old(self).current_rods@, old(self).n_keys as int),
            forall|r: &RodSpec| #[trigger] provide_rod.requires((r,)),
        ensures
            final(self).wf(),
            final(self).n_keys == old(self).n_keys,
            final(self).keys@ == old(self).keys@,
            final(self).memo_springs == old(self).memo_springs,
            final(self).memo_anchors == old(self).memo_anchors,
            final(self).memo_rods == old(self).memo_rods,
            final(self).current_anchors == old(self).current_anchors,
            final(self).memoed_anchors == old(self).memoed_anchors,
            final(self).memoed_springs == old(self).memoed_springs,
            final(self).current_springs == old(self).current_springs,
            final(self).current_rods == old(self).current_rods,
            rod_memo_extends(
                final(self).memoed_rods@,
                if old(self).memo_rods {
                    old(self).memoed_rods@
                } else {
                    Seq::empty()
                },
                rods_of(final(self).current_rods@, final(self).n_keys as int),
                provide_rod,
            ),
    {
        if !self.memo_rods {
            self.memoed_rods = Vec::new();
        }
        let n = self.n_keys;
        let nn = self.current_rods.len();
        let ghost numbered = self.current_rods@;
        let ghost rod_base = self.memoed_rods@;
        let ghost keys = self.keys@;
        let ghost springs_tbl = self.current_springs@;
        let ghost spring_memo = self.memoed_springs@;
        let mut t: usize = 0;
        proof {
            assert(self.memoed_rods@.subrange(0, rod_base.len() as int) =~= rod_base);
        }
        while t < nn
            invariant
                n == self.n_keys,
                nn == n * n,
                t <= nn,
                self.wf(),
                self.keys@ == keys,
                self.current_springs@ == springs_tbl,
                self.memoed_springs@ == spring_memo,
                self.current_rods@ == numbered,
                self.current_rods == old(self).current_rods,
                self.current_springs == old(self).current_springs,
                self.memoed_springs == old(self).memoed_springs,
                self.memo_springs == old(self).memo_springs,
                self.memo_anchors == old(self).memo_anchors,
                self.memo_rods == old(self).memo_rods,
                self.current_anchors == old(self).current_anchors,
                self.memoed_anchors == old(self).memoed_anchors,
                table_shape(numbered, n as int),
                rod_memo_added(self.memoed_rods@, rod_base, rods_of(numbered, n as int), provide_rod),
                forall|q: int|
                    0 <= q < t && #[trigger] numbered[q] is Some ==> exists|s: int|
                        0 <= s < self.memoed_rods@.len() && (#[trigger] self.memoed_rods@[s]).0@
                            == numbered[q]->0.memo_key@,
                forall|r: &RodSpec| #[trigger] provide_rod.requires((r,)),
            decreases nn - t,
        {
            let ghost memo_before = self.memoed_rods@;
            match &self.current_rods[t] {
                Some(r) => {
                    if !has_rod_memo(&self.memoed_rods, &r.memo_key) {
                        let key = copy_terms(&r.memo_key);
                        let stack = provide_rod(&key);
                        self.memoed_rods.push((key, stack));
                        proof {
                            let memo = self.memoed_rods@;
                            lemma_decode(n as int, t as int);
                            let p = ((t / n) as int, (t % n) as int);
                            if p.1 <= p.0 {
                                assert(numbered[pair_index(n as int, p.0, p.1)] is None);
                            }
                            assert(rods_of(numbered, n as int).contains_key(p));
                            assert(memo.subrange(0, rod_base.len() as int) =~= rod_base) by {
                                assert forall|s: int| 0 <= s < rod_base.len() implies memo[s] == memo_before[s] by {}
                                assert(memo_before.subrange(0, rod_base.len() as int) == rod_base);
                            }
                            assert forall|s: int|
                                rod_base.len() <= s < memo.len() implies provide_rod.ensures(
                                (&(#[trigger] memo[s]).0,),
                                memo[s].1,
                            ) && exists|p: (int, int)|
                                #[trigger] rods_of(numbered, n as int).contains_key(p) && rods_of(
                                    numbered,
                                    n as int,
                                )[p] == memo[s].0@ by {
                                if s < memo_before.len() {
                                    assert(memo[s] == memo_before[s]);
                                } else {
                                    assert(rods_of(numbered, n as int)[p] == memo[s].0@);
                                }
                            }
                            assert forall|q: int|
                                0 <= q < t + 1 && #[trigger] numbered[q] is Some implies exists|s: int|
                                    0 <= s < memo.len() && (#[trigger] memo[s]).0@ == numbered[q]->0.memo_key@ by {
                                if q < t {
                                    let s = choose|s: int|
                                        0 <= s < memo_before.len() && (#[trigger] memo_before[s]).0@
                                            == numbered[q]->0.memo_key@;
                                    assert(memo[s] == memo_before[s]);
                                } else {
                                    assert(memo[memo.len() - 1].0@ == numbered[q]->0.memo_key@);
                                }
                            }
                            assert forall|s1: int, s2: int| 0 <= s1 < s2 < memo.len() implies (#[trigger] memo[s1]).0@
                                != (#[trigger] memo[s2]).0@ by {
                                assert(memo[s1] == memo_before[s1]);
                                if s2 < memo_before.len() {
                                    assert(memo[s2] == memo_before[s2]);
                                }
                            }
                        }
                    }
                },
                None => {},
            }
            t += 1;
        }
        proof {
            let n_i = n as int;
            assert forall|p: (int, int)| #[trigger] rods_of(numbered, n_i).contains_key(p) implies exists|s: int|
                0 <= s < self.memoed_rods@.len() && (#[trigger] self.memoed_rods@[s]).0@ == rods_of(numbered, n_i)[p] by {
                lemma_pair_index(n_i, p.0, p.1);
                assert(numbered[pair_index(n_i, p.0, p.1)] is Some);
            }
            assert(rod_base == if old(self).memo_rods {
                    old(self).memoed_rods@
                } else {
                    Seq::empty()
                });
            assert(rods_of(self.current_rods@, n_i) == rods_of(numbered, n_i));

        }
    }

    /// Collects the springs and rods between the notes, and merges the rods so that no note is the
    /// upper end of more than one rod (see [merge_rods]).
    ///
    /// - `which_connector` returns the kind of connection that should be used between the notes
    ///   with the two given indices in the keys. The connection can be one of:
    ///   - [Connector::NoConnection]: The tuning of the two notes is not (directly) related.
    ///   - [Connector::Rod]: The two notes must be tuned a specific interval apart.
    ///   - [Connector::Spring]: The tuning of the notes is related, but the interval between them
    ///     is flexible; it may be detuned if necessary.
    /// - `provide_candidate_springs` returns for each key distance several options for detune-able
    ///   intervals that might be used to instantiate the key distance. These are given as a
    ///   [Stack] together with a "stiffness" (i.e. how hard to detune)
    /// - `provide_rod` does the same for non-detuneable intervals.
    ///
    /// The `provide_*` functions are only called when needed: with memoisation switched on, at
    /// most once for each key distance or rod spec.
    ///
    /// Returns 1 plus the highest number of a length that it used; the anchors are numbered from
    /// there.
    pub fn collect_intervals<WC, PS, PR>(
        &mut self,
        which_connector: WC,
        provide_candidate_springs: PS,
        provide_rod: PR,
    ) -> (next: usize) where
        WC: Fn(usize, usize) -> Connector,
        PS: Fn(KeyDistance) -> Vec<(Stack<T>, Rational)>,
        PR: Fn(&RodSpec) -> Stack<T>,

        requires
            old(self).wf(),
            forall|i: usize, j: usize|
                i < j < old(self).spec_keys().len() ==> #[trigger] which_connector.requires((i, j)),
            forall|d: KeyDistance| #[trigger] provide_candidate_springs.requires((d,)),
            forall|r: &RodSpec| #[trigger] provide_rod.requires((r,)),
            forall|i: usize, j: usize, c: Connector|
                #[trigger] which_connector.ensures((i, j), c) && c is Rod ==> rodspec_wf(c->Rod_0@),
            forall|i: int, j: int|
                0 <= i < j < old(self).spec_keys().len() ==> i8::MIN <= #[trigger] key_distance_of(
                    old(self).spec_keys(),
                    i,
                    j,
                ) <= i8::MAX,
            forall|conns: Map<(int, int), Connector>|
                #[trigger] connectors_from(which_connector, conns, old(self).spec_keys().len() as int)
                    ==> merge_rods_fits(
                    initial_rods(conns, old(self).spec_keys().len() as int),
                    old(self).spec_keys().len(),
                ),
        ensures
            final(self).wf(),
            final(self).intervals_collected(),
            final(self).spec_keys() == old(self).spec_keys(),
            final(self).memo_flags() == old(self).memo_flags(),
            final(self).same_anchors(*old(self)),
            exists|conns: Map<(int, int), Connector>|
                {
                    &&& #[trigger] connectors_from(
                        which_connector,
                        conns,
                        old(self).spec_keys().len() as int,
                    )
                    &&& final(self).springs() == initial_springs(
                        conns,
                        old(self).spec_keys(),
                        old(self).spec_keys().len() as int,
                    )
                    &&& final(self).rods() == merge_rods(
                        initial_rods(conns, old(self).spec_keys().len() as int),
                        old(self).spec_keys().len(),
                    )
                },
            forall|p: (int, int)|
                #[trigger] final(self).springs().contains_key(p) ==> final(self).spring_candidate(p)
                    == 0,
            final(self).lengths_numbered(next as nat),
            memo_extends(
                final(self).spring_memo(),
                if old(self).memo_flags().0 {
                    old(self).spring_memo()
                } else {
                    Seq::empty()
                },
                final(self).springs(),
                provide_candidate_springs,
            ),
            rod_memo_extends(
                final(self).rod_memo(),
                if old(self).memo_flags().2 {
                    old(self).rod_memo()
                } else {
                    Seq::empty()
                },
                final(self).rods(),
                provide_rod,
            ),
    {
        let (n_springs, Ghost(conns)) = self.fill_tables(which_connector, provide_candidate_springs);
        let n = self.n_keys;
        let ghost filled = self.current_rods@;
        proof {
            assert(connectors_from(which_connector, conns, n as int));
            assert(n == old(self).spec_keys().len());
            assert(merge_rods_fits(initial_rods(conns, n as int), n as nat));
            crate::process::springs::rods::law_merge_one_rod_below_each(rods_of(filled, n as int), n as nat);
            lemma_count_some_le(self.current_springs@, (n * n) as int);
        }
        merge_table(&mut self.current_rods, n);
        let next = number_rods(&mut self.current_rods, n, n_springs);
        self.memo_rods(provide_rod);
        proof {
            let n_i = n as int;
            assert forall|p: (int, int)| #[trigger] self.springs().contains_key(p) implies self.spring_candidate(p) == 0 by {
                lemma_pair_index(n_i, p.0, p.1);
            }
            assert(self.same_anchors(*old(self)));
        }
        next
    }
}

/// Numbers the rods of the table consecutively from `start`, in the order of their places.
fn number_rods(tbl: &mut Vec<Option<RodInfo>>, n: usize, start: usize) -> (next: usize)
    requires
        table_shape(old(tbl)@, n as int),
        n <= 256,
        start <= n * n,
    ensures
        table_shape(final(tbl)@, n as int),
        rods_of(final(tbl)@, n as int) == rods_of(old(tbl)@, n as int),
        forall|q: int| 0 <= q < n * n ==> (#[trigger] final(tbl)@[q] is Some) == (old(tbl)@[q] is Some),
        rods_numbered(final(tbl)@, start as int),
        next == start + count_some(final(tbl)@, n * n),
{
    let ghost merged = tbl@;
    proof {
        assert(n * n <= 256 * 256) by (nonlinear_arith)
            requires
                n <= 256,
        ;
    }
    let nn = n * n;
    let ghost n_springs = start as int;
    let mut solver_length_index = start;
    let mut t: usize = 0;
    while t < nn
        invariant
            nn == n * n,
            nn <= 65536,
            t <= nn,
            n_springs <= nn,
            table_shape(tbl@, n as int),
            rods_of(tbl@, n as int) == rods_of(merged, n as int),
            forall|q: int|
                0 <= q < nn ==> (#[trigger] tbl@[q] is Some) == (merged[q] is Some),
            forall|q: int|
                0 <= q < t && #[trigger] tbl@[q] is Some
                    ==> tbl@[q]->0.solver_length_index == n_springs + count_some(
                    tbl@,
                    q,
                ),
            solver_length_index == n_springs + count_some(tbl@, t as int),
        decreases nn - t,
    {
        proof {
            lemma_count_some_le(tbl@, t as int);
        }
        if tbl[t].is_some() {
            let ghost before = tbl@;
            let mut r = tbl[t].take().unwrap();
            r.solver_length_index = solver_length_index;
            tbl.set(t, Some(r));
            proof {
                assert forall|q: int| 0 <= q < nn implies (#[trigger] tbl@[q] is Some
                    == before[q] is Some) && (tbl@[q] is Some
                    ==> tbl@[q]->0.memo_key == before[q]->0.memo_key) by {}
                assert forall|x: int, y: int| 0 <= y <= x < n implies #[trigger] tbl@[pair_index(
                    n as int,
                    x,
                    y,
                )] is None by {
                    lemma_pair_index(n as int, x, y);
                    assert(before[pair_index(n as int, x, y)] is None);
                }
                assert forall|p: (int, int)| #[trigger] rods_of(tbl@, n as int).contains_key(p)
                    == rods_of(before, n as int).contains_key(p) && (rods_of(before, n as int).contains_key(p)
                    ==> rods_of(tbl@, n as int)[p] == rods_of(before, n as int)[p]) by {
                    if 0 <= p.0 < p.1 < n {
                        lemma_pair_index(n as int, p.0, p.1);
                    }
                }
                assert(rods_of(tbl@, n as int) =~= rods_of(before, n as int));
                assert(tbl@ =~= before.update(t as int, tbl@[t as int]));
                lemma_count_some_update(before, t as int, tbl@[t as int], t as int + 1);
                assert forall|q: int|
                    0 <= q <= t && #[trigger] tbl@[q] is Some implies tbl@[q]->0.solver_length_index
                        == n_springs + count_some(tbl@, q) by {
                    lemma_count_some_update(before, t as int, tbl@[t as int], q);
                    if q < t {
                        assert(tbl@[q] == before[q]);
                    } else {
                        assert(tbl@[q]->0.solver_length_index == solver_length_index);
                        assert(count_some(tbl@, q) == count_some(before, q));
                    }
                }
            }
            solver_length_index += 1;
        }
        t += 1;
    }
    solver_length_index
}

// ---------------------------------------------------------------------------------------------
// The intended intervals and positions of a solution
// ---------------------------------------------------------------------------------------------

/// The entry of the memo for the key `k`.
pub open spec fn memo_entry<K, V>(memo: Seq<(K, V)>, k: K) -> V {
    memo[choose|t: int| 0 <= t < memo.len() && (#[trigger] memo[t]).0 == k].1
}

/// The length that the rod memo holds for the rod spec `spec`.
pub open spec fn rod_memo_entry<T: StackType>(memo: Seq<(RodSpec, Stack<T>)>, spec: Seq<(i8, i64)>) -> Stack<T> {
    memo[choose|t: int| 0 <= t < memo.len() && (#[trigger] memo[t]).0@ == spec].1
}

proof fn lemma_memo_entry<K, V>(memo: Seq<(K, V)>, t: int)
    requires
        0 <= t < memo.len(),
        forall|s: int, u: int| 0 <= s < u < memo.len() ==> (#[trigger] memo[s]).0 != (#[trigger] memo[u]).0,
    ensures
        memo_entry(memo, memo[t].0) == memo[t].1,
{
    let k = memo[t].0;
    assert(exists|u: int| 0 <= u < memo.len() && (#[trigger] memo[u]).0 == k);
    let u = choose|u: int| 0 <= u < memo.len() && (#[trigger] memo[u]).0 == k;
    if u < t {
        assert(memo[u].0 != memo[t].0);
    } else if t < u {
        assert(memo[t].0 != memo[u].0);
    }
}

proof fn lemma_rod_memo_entry<T: StackType>(memo: Seq<(RodSpec, Stack<T>)>, t: int)
    requires
        0 <= t < memo.len(),
        forall|s: int, u: int| 0 <= s < u < memo.len() ==> (#[trigger] memo[s]).0@ != (#[trigger] memo[u]).0@,
    ensures
        rod_memo_entry(memo, memo[t].0@) == memo[t].1,
{
    let k = memo[t].0@;
    assert(exists|u: int| 0 <= u < memo.len() && (#[trigger] memo[u]).0@ == k);
    let u = choose|u: int| 0 <= u < memo.len() && (#[trigger] memo[u]).0@ == k;
    if u < t {
        assert(memo[u].0@ != memo[t].0@);
    } else if t < u {
        assert(memo[t].0@ != memo[u].0@);
    }
}

/// A copy of a vector of coefficients.
fn copy_coeffs(a: &Vec<StackCoeff>) -> (r: Vec<StackCoeff>)
    ensures
        r@ == a@,
{
    let mut r: Vec<StackCoeff> = Vec::new();
    let mut t: usize = 0;
    while t < a.len()
        invariant
            t <= a@.len(),
            r@ == a@.subrange(0, t as int),
        decreases a@.len() - t,
    {
        r.push(a[t]);
        t += 1;
    }
    assert(a@.subrange(0, a@.len() as int) =~= a@);
    r
}

/// `len` zero coefficients.
fn zero_coeffs(len: usize) -> (r: Vec<StackCoeff>)
    ensures
        r@ == Seq::new(len as nat, |t: int| 0i64),
{
    let mut r: Vec<StackCoeff> = Vec::new();
    while r.len() < len
        invariant
            r@.len() <= len,
            forall|t: int| 0 <= t < r@.len() ==> #[trigger] r@[t] == 0,
        decreases len - r@.len(),
    {
        r.push(0);
    }
    assert(r@ =~= Seq::new(len as nat, |t: int| 0i64));
    r
}

fn add_coeffs(a: &Vec<StackCoeff>, b: &Vec<StackCoeff>) -> (r: Vec<StackCoeff>)
    requires
        vec_add_fits(a@, b@),
    ensures
        r@ == vec_add(a@, b@),
{
    let mut r: Vec<StackCoeff> = Vec::new();
    let mut t: usize = 0;
    while t < a.len()
        invariant
            t <= a@.len(),
            vec_add_fits(a@, b@),
            r@.len() == t,
            forall|s: int| 0 <= s < t ==> #[trigger] r@[s] == a@[s] + b@[s],
        decreases a@.len() - t,
    {
        assert(fits_i64(a@[t as int] + b@[t as int]));
        r.push(a[t] + b[t]);
        t += 1;
    }
    assert(r@ =~= vec_add(a@, b@));
    r
}

fn sub_coeffs(a: &Vec<StackCoeff>, b: &Vec<StackCoeff>) -> (r: Vec<StackCoeff>)
    requires
        vec_sub_fits(a@, b@),
    ensures
        r@ == vec_sub(a@, b@),
{
    let mut r: Vec<StackCoeff> = Vec::new();
    let mut t: usize = 0;
    while t < a.len()
        invariant
            t <= a@.len(),
            vec_sub_fits(a@, b@),
            r@.len() == t,
            forall|s: int| 0 <= s < t ==> #[trigger] r@[s] == a@[s] - b@[s],
        decreases a@.len() - t,
    {
        assert(fits_i64(a@[t as int] - b@[t as int]));
        r.push(a[t] - b[t]);
        t += 1;
    }
    assert(r@ =~= vec_sub(a@, b@));
    r
}

/// The number of the pair `(i, j)` of notes among the pairs of `n` notes in the order of the rows
/// (by the lower note, then by the upper one).
pub open spec fn tri_index(n: int, i: int, j: int) -> int {
    n * i - i * (i + 1) / 2 + j - i - 1
}

proof fn lemma_tri_index_row(n: int, i: int)
    requires
        0 <= i,
    ensures
        tri_index(n, i + 1, i + 2) == tri_index(n, i, n),
{
    let a = i * (i + 1);
    assert((i + 1) * (i + 2) == a + 2 * (i + 1)) by (nonlinear_arith)
        requires
            a == i * (i + 1),
    ;
    assert((a + 2 * (i + 1)) / 2 == a / 2 + (i + 1)) by {
        vstd::arithmetic::div_mod::lemma_fundamental_div_mod(a, 2);
        vstd::arithmetic::div_mod::lemma_fundamental_div_mod_converse(a + 2 * (i + 1), 2, a / 2 + (i + 1), a % 2);
    }
    assert(n * (i + 1) == n * i + n) by (nonlinear_arith);
    assert(i * (i + 1) / 2 == a / 2);
}

proof fn lemma_tri_count(n: int)
    requires
        0 <= n,
    ensures
        tri_index(n, n - 1, n) == n * (n - 1) / 2,
        n >= 1 ==> tri_index(n, 0, 1) == 0,
{
    let a = (n - 1) * n;
    assert(n * (n - 1) == a) by (nonlinear_arith)
        requires
            a == (n - 1) * n,
    ;
    assert(n * (n - 1) - a / 2 + n - (n - 1) - 1 == a / 2) by {
        vstd::arithmetic::div_mod::lemma_fundamental_div_mod(a, 2);
        assert(a % 2 == 0) by {
            vstd::arithmetic::div_mod::lemma_mod_bound(a, 2);
            if n % 2 == 0 {
                assert(a == 2 * ((n / 2) * (n - 1))) by (nonlinear_arith)
                    requires
                        n == 2 * (n / 2),
                        a == (n - 1) * n,
                ;
                vstd::arithmetic::div_mod::lemma_mod_multiples_basic((n / 2) * (n - 1), 2);
            } else {
                vstd::arithmetic::div_mod::lemma_fundamental_div_mod(n, 2);
                assert(a == 2 * (n * ((n - 1) / 2))) by (nonlinear_arith)
                    requires
                        n - 1 == 2 * ((n - 1) / 2),
                        a == (n - 1) * n,
                ;
                vstd::arithmetic::div_mod::lemma_mod_multiples_basic(n * ((n - 1) / 2), 2);
            }
        }
    }
}

/// Within the pairs before `(i, j)` in the order of the rows, the numbers are below that of
/// `(i, j)`.
proof fn lemma_tri_index_order(n: int, x: int, y: int, i: int, j: int)
    requires
        0 <= x < y < n,
        0 <= i < j <= n,
        pair_before((x, y), i, j),
    ensures
        0 <= tri_index(n, x, y) < tri_index(n, i, j),
    decreases i - x,
{
    if x == i {
        assert(tri_index(n, x, y) < tri_index(n, i, j));
        lemma_tri_nonneg(n, x, y);
    } else {
        // the last pair of the row of x comes before the first pair of the next row
        if x + 1 < i {
            lemma_tri_index_row(n, x);
            lemma_tri_index_order(n, x + 1, x + 2, i, j);
            assert(tri_index(n, x, y) < tri_index(n, x, n));
        } else {
            lemma_tri_index_row(n, x);
            assert(tri_index(n, x, y) < tri_index(n, x, n));
            assert(tri_index(n, i, i + 1) <= tri_index(n, i, j));
        }
        lemma_tri_nonneg(n, x, y);
    }
}

proof fn lemma_tri_nonneg(n: int, x: int, y: int)
    requires
        0 <= x < y < n,
    ensures
        tri_index(n, x, y) >= 0,
{
    // n * x - x * (x + 1) / 2 >= x * (x + 1) / 2 >= 0, since n >= x + 1
    assert(n * x >= (x + 1) * x) by (nonlinear_arith)
        requires
            0 <= x,
            x + 1 <= n,
    ;
    assert(x * (x + 1) / 2 <= x * (x + 1)) by {
        assert(x * (x + 1) >= 0) by (nonlinear_arith)
            requires
                0 <= x,
        ;
    }
    assert((x + 1) * x == x * (x + 1)) by (nonlinear_arith);
}

/// The target of the length that the rod memo holds for `spec`.
fn rod_memo_target<T: StackType>(memo: &Vec<(RodSpec, Stack<T>)>, spec: &RodSpec) -> (r: Vec<StackCoeff>)
    requires
        exists|t: int| 0 <= t < memo@.len() && (#[trigger] memo@[t]).0@ == spec@,
        forall|s: int, u: int| 0 <= s < u < memo@.len() ==> (#[trigger] memo@[s]).0@ != (#[trigger] memo@[u]).0@,
    ensures
        r@ == rod_memo_entry(memo@, spec@).target@,
{
    let mut t: usize = 0;
    while t < memo.len()
        invariant
            t <= memo@.len(),
            forall|s: int| 0 <= s < t ==> (#[trigger] memo@[s]).0@ != spec@,
            forall|s: int, u: int| 0 <= s < u < memo@.len() ==> (#[trigger] memo@[s]).0@ != (#[trigger] memo@[u]).0@,
            exists|t: int| 0 <= t < memo@.len() && (#[trigger] memo@[t]).0@ == spec@,
        decreases memo@.len() - t,
    {
        if same_terms(&memo[t].0, spec) {
            proof {
                lemma_rod_memo_entry(memo@, t as int);
            }
            return copy_coeffs(&memo[t].1.target);
        }
        t += 1;
    }
    Vec::new()
}

/// The target of the candidate `c` that the spring memo holds for the key distance `d`.
fn spring_candidate_target<T: StackType>(
    memo: &Vec<(KeyDistance, Vec<(Stack<T>, Rational)>)>,
    d: KeyDistance,
    c: usize,
) -> (r: Vec<StackCoeff>)
    requires
        memo_has(memo@, d),
        c < memo_count(memo@, d),
        forall|s: int, u: int| 0 <= s < u < memo@.len() ==> (#[trigger] memo@[s]).0 != (#[trigger] memo@[u]).0,
    ensures
        r@ == memo_entry(memo@, d)@[c as int].0.target@,
{
    let mut t: usize = 0;
    while t < memo.len()
        invariant
            t <= memo@.len(),
            forall|s: int| 0 <= s < t ==> (#[trigger] memo@[s]).0 != d,
            forall|s: int, u: int| 0 <= s < u < memo@.len() ==> (#[trigger] memo@[s]).0 != (#[trigger] memo@[u]).0,
            memo_has(memo@, d),
            c < memo_count(memo@, d),
        decreases memo@.len() - t,
    {
        if memo[t].0 == d {
            proof {
                lemma_memo_entry(memo@, t as int);
                lemma_memo_count(memo@, t as int);
            }
            return copy_coeffs(&memo[t].1[c].0.target);
        }
        t += 1;
    }
    Vec::new()
}

/// The target of the candidate `c` that the anchor memo holds for the key number `d`.
fn anchor_candidate_target<T: StackType>(
    memo: &Vec<(KeyNumber, Vec<(Stack<T>, Rational)>)>,
    d: KeyNumber,
    c: usize,
) -> (r: Vec<StackCoeff>)
    requires
        memo_has(memo@, d),
        c < memo_count(memo@, d),
        forall|s: int, u: int| 0 <= s < u < memo@.len() ==> (#[trigger] memo@[s]).0 != (#[trigger] memo@[u]).0,
    ensures
        r@ == memo_entry(memo@, d)@[c as int].0.target@,
{
    let mut t: usize = 0;
    while t < memo.len()
        invariant
            t <= memo@.len(),
            forall|s: int| 0 <= s < t ==> (#[trigger] memo@[s]).0 != d,
            forall|s: int, u: int| 0 <= s < u < memo@.len() ==> (#[trigger] memo@[s]).0 != (#[trigger] memo@[u]).0,
            memo_has(memo@, d),
            c < memo_count(memo@, d),
        decreases memo@.len() - t,
    {
        if memo[t].0 == d {
            proof {
                lemma_memo_entry(memo@, t as int);
                lemma_memo_count(memo@, t as int);
            }
            return copy_coeffs(&memo[t].1[c].0.target);
        }
        t += 1;
    }
    Vec::new()
}

/// The place of the key distance `d` in the spring memo.
fn spring_memo_index<T: StackType>(memo: &Vec<(KeyDistance, Vec<(Stack<T>, Rational)>)>, d: KeyDistance) -> (t: usize)
    requires
        memo_has(memo@, d),
    ensures
        t < memo@.len(),
        memo@[t as int].0 == d,
{
    let mut t: usize = 0;
    while t < memo.len()
        invariant
            t <= memo@.len(),
            forall|s: int| 0 <= s < t ==> (#[trigger] memo@[s]).0 != d,
            memo_has(memo@, d),
        decreases memo@.len() - t,
    {
        if memo[t].0 == d {
            return t;
        }
        t += 1;
    }
    proof {
        let s = choose|s: int| 0 <= s < memo@.len() && (#[trigger] memo@[s]).0 == d;
        assert(memo@[s].0 != d);
    }
    0
}

/// The place of the key number `k` in the anchor memo.
fn anchor_memo_index<T: StackType>(memo: &Vec<(KeyNumber, Vec<(Stack<T>, Rational)>)>, k: KeyNumber) -> (t: usize)
    requires
        memo_has(memo@, k),
    ensures
        t < memo@.len(),
        memo@[t as int].0 == k,
{
    let mut t: usize = 0;
    while t < memo.len()
        invariant
            t <= memo@.len(),
            forall|s: int| 0 <= s < t ==> (#[trigger] memo@[s]).0 != k,
            memo_has(memo@, k),
        decreases memo@.len() - t,
    {
        if memo[t].0 == k {
            return t;
        }
        t += 1;
    }
    proof {
        let s = choose|s: int| 0 <= s < memo@.len() && (#[trigger] memo@[s]).0 == k;
        assert(memo@[s].0 != k);
    }
    0
}

/// The known intervals of a table for `n` notes.
spec fn targets_of(t: Seq<Option<Vec<StackCoeff>>>, n: int) -> Map<(int, int), Seq<i64>> {
    Map::new(
        |p: (int, int)| 0 <= p.0 < p.1 < n && t[pair_index(n, p.0, p.1)] is Some,
        |p: (int, int)| t[pair_index(n, p.0, p.1)]->0@,
    )
}

proof fn lemma_targets_of_update(t: Seq<Option<Vec<StackCoeff>>>, n: int, i: int, j: int, v: Vec<StackCoeff>)
    requires
        table_shape(t, n),
        0 <= i < j < n,
    ensures
        table_shape(t.update(pair_index(n, i, j), Some(v)), n),
        targets_of(t.update(pair_index(n, i, j), Some(v)), n) == targets_of(t, n).insert((i, j), v@),
{
    let u = t.update(pair_index(n, i, j), Some(v));
    lemma_pair_index(n, i, j);
    assert forall|x: int, y: int| 0 <= y <= x < n implies #[trigger] u[pair_index(n, x, y)] is None by {
        lemma_pair_index(n, x, y);
        if pair_index(n, x, y) == pair_index(n, i, j) {
            lemma_pair_index_injective(n, (x, y), (i, j));
        }
    }
    let expected = targets_of(t, n).insert((i, j), v@);
    assert forall|p: (int, int)| #[trigger] targets_of(u, n).contains_key(p) == expected.contains_key(p)
        && (targets_of(u, n).contains_key(p) ==> targets_of(u, n)[p] == expected[p]) by {
        if 0 <= p.0 < p.1 < n {
            lemma_pair_index(n, p.0, p.1);
            if pair_index(n, p.0, p.1) == pair_index(n, i, j) {
                lemma_pair_index_injective(n, p, (i, j));
            }
        }
    }
    assert(targets_of(u, n) =~= expected);
}

fn complete_step_in(tbl: &mut Vec<Option<Vec<StackCoeff>>>, n: usize, i: usize, j: usize, k: usize)
    requires
        table_shape(old(tbl)@, n as int),
        i < j < k < n,
        complete_step_fits(targets_of(old(tbl)@, n as int), i as int, j as int, k as int),
    ensures
        table_shape(final(tbl)@, n as int),
        targets_of(final(tbl)@, n as int) == complete_step(
            targets_of(old(tbl)@, n as int),
            i as int,
            j as int,
            k as int,
        ),
{
    let ghost m = targets_of(tbl@, n as int);
    proof {
        lemma_pair_index(n as int, i as int, j as int);
        lemma_pair_index(n as int, i as int, k as int);
        lemma_pair_index(n as int, j as int, k as int);
    }
    let len = tbl.len();
    assert(i * n + j < len && i * n + k < len && j * n + k < len);
    assert(i * n <= usize::MAX && j * n <= usize::MAX);
    let ij = i * n + j;
    let ik = i * n + k;
    let jk = j * n + k;
    let has_ij = tbl[ij].is_some();
    let has_jk = tbl[jk].is_some();
    let has_ik = tbl[ik].is_some();
    assert(has_ij == m.contains_key((i as int, j as int)));
    assert(has_jk == m.contains_key((j as int, k as int)));
    assert(has_ik == m.contains_key((i as int, k as int)));
    if !has_ij && has_jk && has_ik {
        let v = sub_coeffs(tbl[ik].as_ref().unwrap(), tbl[jk].as_ref().unwrap());
        let ghost before = tbl@;
        tbl.set(ij, Some(v));
        proof {
            lemma_targets_of_update(before, n as int, i as int, j as int, v);
        }
    } else if has_ij && !has_jk && has_ik {
        let v = sub_coeffs(tbl[ik].as_ref().unwrap(), tbl[ij].as_ref().unwrap());
        let ghost before = tbl@;
        tbl.set(jk, Some(v));
        proof {
            lemma_targets_of_update(before, n as int, j as int, k as int, v);
        }
    } else if has_ij && has_jk && !has_ik {
        let v = add_coeffs(tbl[ij].as_ref().unwrap(), tbl[jk].as_ref().unwrap());
        let ghost before = tbl@;
        tbl.set(ik, Some(v));
        proof {
            lemma_targets_of_update(before, n as int, i as int, k as int, v);
        }
    }
}

/// One pass of the completion over all triangles of the notes; see [complete_is].
fn complete_table(tbl: &mut Vec<Option<Vec<StackCoeff>>>, n: usize)
    requires
        table_shape(old(tbl)@, n as int),
        complete_is_fits(targets_of(old(tbl)@, n as int), 0, n as int),
    ensures
        table_shape(final(tbl)@, n as int),
        targets_of(final(tbl)@, n as int) == complete_is(targets_of(old(tbl)@, n as int), 0, n as int),
{
    let ghost target = complete_is(targets_of(tbl@, n as int), 0, n as int);
    let mut i: usize = 0;
    while i < n
        invariant
            i <= n,
            table_shape(tbl@, n as int),
            complete_is(targets_of(tbl@, n as int), i as int, n as int) == target,
            complete_is_fits(targets_of(tbl@, n as int), i as int, n as int),
        decreases n - i,
    {
        let ghost is_rest = complete_js(targets_of(tbl@, n as int), i as int, i as int + 1, n as int);
        let mut j: usize = i + 1;
        while j < n
            invariant
                i < n,
                i + 1 <= j <= n,
                table_shape(tbl@, n as int),
                complete_js(targets_of(tbl@, n as int), i as int, j as int, n as int) == is_rest,
                complete_js_fits(targets_of(tbl@, n as int), i as int, j as int, n as int),
                complete_is(is_rest, i as int + 1, n as int) == target,
                complete_is_fits(is_rest, i as int + 1, n as int),
            decreases n - j,
        {
            let ghost js_rest = complete_ks(targets_of(tbl@, n as int), i as int, j as int, j as int + 1, n as int);
            let mut k: usize = j + 1;
            while k < n
                invariant
                    i < j < n,
                    j + 1 <= k <= n,
                    table_shape(tbl@, n as int),
                    complete_ks(targets_of(tbl@, n as int), i as int, j as int, k as int, n as int) == js_rest,
                    complete_ks_fits(targets_of(tbl@, n as int), i as int, j as int, k as int, n as int),
                    complete_js(js_rest, i as int, j as int + 1, n as int) == is_rest,
                    complete_js_fits(js_rest, i as int, j as int + 1, n as int),
                    complete_is(is_rest, i as int + 1, n as int) == target,
                    complete_is_fits(is_rest, i as int + 1, n as int),
                decreases n - k,
            {
                complete_step_in(tbl, n, i, j, k);
                k += 1;
            }
            j += 1;
        }
        i += 1;
    }
}

// ---------------------------------------------------------------------------------------------
// Anchors, and the enumeration of the candidates
// ---------------------------------------------------------------------------------------------

/// `anchored` holds, for every one of the `keys`, an answer that `is_note_anchored` may give for
/// it.
pub open spec fn anchored_from<AP: Fn(KeyNumber) -> bool>(
    is_note_anchored: AP,
    keys: Seq<KeyNumber>,
    anchored: Seq<bool>,
) -> bool {
    &&& anchored.len() == keys.len()
    &&& forall|i: int|
        0 <= i < keys.len() ==> is_note_anchored.ensures((keys[i],), #[trigger] anchored[i])
}

/// The memo has candidates for the key `k`.
pub open spec fn memo_has<K, V>(memo: Seq<(K, Vec<V>)>, k: K) -> bool {
    exists|t: int| 0 <= t < memo.len() && (#[trigger] memo[t]).0 == k
}

/// The number of candidates that the memo has for the key `k`.
pub open spec fn memo_count<K, V>(memo: Seq<(K, Vec<V>)>, k: K) -> int {
    memo[choose|t: int| 0 <= t < memo.len() && (#[trigger] memo[t]).0 == k].1@.len() as int
}

proof fn lemma_memo_count<K, V>(memo: Seq<(K, Vec<V>)>, t: int)
    requires
        0 <= t < memo.len(),
        forall|s: int, u: int| 0 <= s < u < memo.len() ==> (#[trigger] memo[s]).0 != (#[trigger] memo[u]).0,
    ensures
        memo_has(memo, memo[t].0),
        memo_count(memo, memo[t].0) == memo[t].1@.len(),
{
    let k = memo[t].0;
    assert(memo_has(memo, k));
    let u = choose|u: int| 0 <= u < memo.len() && (#[trigger] memo[u]).0 == k;
    if u < t {
        assert(memo[u].0 != memo[t].0);
    } else if t < u {
        assert(memo[t].0 != memo[u].0);
    }
}

/// The number of candidates for the key `k` of the anchors.
fn anchor_memo_len<T: StackType>(memo: &Vec<(KeyNumber, Vec<(Stack<T>, Rational)>)>, k: KeyNumber) -> (r: usize)
    requires
        memo_has(memo@, k),
        forall|s: int, u: int| 0 <= s < u < memo@.len() ==> (#[trigger] memo@[s]).0 != (#[trigger] memo@[u]).0,
    ensures
        r == memo_count(memo@, k),
{
    let mut t: usize = 0;
    while t < memo.len()
        invariant
            t <= memo@.len(),
            forall|s: int| 0 <= s < t ==> (#[trigger] memo@[s]).0 != k,
            forall|s: int, u: int| 0 <= s < u < memo@.len() ==> (#[trigger] memo@[s]).0 != (#[trigger] memo@[u]).0,
        decreases memo@.len() - t,
    {
        if memo[t].0 == k {
            proof {
                lemma_memo_count(memo@, t as int);
            }
            return memo[t].1.len();
        }
        t += 1;
    }
    0
}

/// The number of candidates for the key distance `d` of the springs.
fn spring_memo_len<T: StackType>(memo: &Vec<(KeyDistance, Vec<(Stack<T>, Rational)>)>, d: KeyDistance) -> (r: usize)
    requires
        memo_has(memo@, d),
        forall|s: int, u: int| 0 <= s < u < memo@.len() ==> (#[trigger] memo@[s]).0 != (#[trigger] memo@[u]).0,
    ensures
        r == memo_count(memo@, d),
{
    let mut t: usize = 0;
    while t < memo.len()
        invariant
            t <= memo@.len(),
            forall|s: int| 0 <= s < t ==> (#[trigger] memo@[s]).0 != d,
            forall|s: int, u: int| 0 <= s < u < memo@.len() ==> (#[trigger] memo@[s]).0 != (#[trigger] memo@[u]).0,
        decreases memo@.len() - t,
    {
        if memo[t].0 == d {
            proof {
                lemma_memo_count(memo@, t as int);
            }
            return memo[t].1.len();
        }
        t += 1;
    }
    0
}

/// The anchors of a table for `n` notes: the key number of each anchored note, under the note's
/// index.
spec fn anchors_of(t: Seq<Option<AnchorInfo>>) -> Map<int, KeyNumber> {
    Map::new(|i: int| 0 <= i < t.len() && t[i] is Some, |i: int| t[i]->0.memo_key)
}

spec fn anchors_numbered(s: Seq<Option<AnchorInfo>>, start: int) -> bool {
    forall|t: int|
        0 <= t < s.len() && #[trigger] s[t] is Some ==> s[t]->0.solver_length_index == start
            + count_some(s, t)
}

/// Whether the anchor candidates for the key `k` have been memoised.
fn has_anchor_memo<T: StackType>(memo: &Vec<(KeyNumber, Vec<(Stack<T>, Rational)>)>, k: KeyNumber) -> (b: bool)
    ensures
        b == memo_has(memo@, k),
{
    let mut t: usize = 0;
    while t < memo.len()
        invariant
            t <= memo@.len(),
            forall|s: int| 0 <= s < t ==> (#[trigger] memo@[s]).0 != k,
        decreases memo@.len() - t,
    {
        if memo[t].0 == k {
            assert(memo@[t as int].0 == k);
            return true;
        }
        t += 1;
    }
    false
}

impl<T: StackType> Workspace<T> {
    /// The current anchors: the key number of each anchored note, under the note's index.
    pub closed spec fn anchors(&self) -> Map<int, KeyNumber> {
        anchors_of(self.current_anchors@)
    }

    /// The springs and rods are the same in both: their tables, the candidates in use, their
    /// numbering and their memos.
    pub open spec fn same_intervals(&self, other: Self) -> bool {
        &&& self.springs() == other.springs()
        &&& self.rods() == other.rods()
        &&& self.spring_digits() == other.spring_digits()
        &&& self.spring_radices() == other.spring_radices()
        &&& self.intervals_collected() == other.intervals_collected()
        &&& forall|next: nat| #[trigger] self.lengths_numbered(next) == other.lengths_numbered(next)
        &&& self.spring_memo() == other.spring_memo()
        &&& self.rod_memo() == other.rod_memo()
    }

    /// The anchors are the same in both: their table, the candidates in use, their numbering and
    /// their memo.
    pub open spec fn same_anchors(&self, other: Self) -> bool {
        &&& self.anchors() == other.anchors()
        &&& self.anchor_digits() == other.anchor_digits()
        &&& self.anchor_radices() == other.anchor_radices()
        &&& self.anchors_collected() == other.anchors_collected()
        &&& forall|start: nat| #[trigger] self.anchors_numbered_from(start) == other.anchors_numbered_from(start)
        &&& self.anchor_memo() == other.anchor_memo()
    }

    /// The anchors have been collected for the current keys: there is a place for every note.
    pub closed spec fn anchors_collected(&self) -> bool {
        self.current_anchors@.len() == self.n_keys
    }

    /// The anchors are numbered consecutively from `start`, in the order of the notes.
    pub closed spec fn anchors_numbered_from(&self, start: nat) -> bool {
        anchors_numbered(self.current_anchors@, start as int)
    }

    /// Every anchor and every spring has candidates memoised for its key: at least one.
    pub closed spec fn candidates_ready(&self) -> bool {
        &&& forall|t: int|
            0 <= t < self.current_anchors@.len() && #[trigger] self.current_anchors@[t] is Some
                ==> memo_has(self.memoed_anchors@, self.current_anchors@[t]->0.memo_key)
                && memo_count(self.memoed_anchors@, self.current_anchors@[t]->0.memo_key) >= 1
        &&& forall|t: int|
            0 <= t < self.current_springs@.len() && #[trigger] self.current_springs@[t] is Some
                ==> memo_has(self.memoed_springs@, self.current_springs@[t]->0.memo_key)
                && memo_count(self.memoed_springs@, self.current_springs@[t]->0.memo_key) >= 1
    }

    /// The index of the candidate in use for each anchor, in the order of the notes (0 where there
    /// is no anchor).
    pub closed spec fn anchor_digits(&self) -> Seq<int> {
        Seq::new(
            self.current_anchors@.len(),
            |t: int|
                match self.current_anchors@[t] {
                    Some(a) => a.current_candidate_index as int,
                    None => 0,
                },
        )
    }

    /// The number of candidates for each anchor, in the order of the notes (1 where there is no
    /// anchor).
    pub closed spec fn anchor_radices(&self) -> Seq<int> {
        Seq::new(
            self.current_anchors@.len(),
            |t: int|
                match self.current_anchors@[t] {
                    Some(a) => memo_count(self.memoed_anchors@, a.memo_key),
                    None => 1,
                },
        )
    }

    /// Collects the anchors: the notes for which `is_note_anchored` says so are tied to a position
    /// by a "fixed spring", whose candidate positions `provide_candidate_anchors` gives (and which
    /// is only called when needed: with memoisation switched on, at most once for each key number).
    /// The anchors are numbered from `start_index` (the number that [Self::collect_intervals]
    /// returned), in the order of the notes.
    pub fn collect_anchors<AP, PA>(
        &mut self,
        start_index: usize,
        is_note_anchored: AP,
        provide_candidate_anchors: PA,
    ) where
        AP: Fn(KeyNumber) -> bool,
        PA: Fn(KeyNumber) -> Vec<(Stack<T>, Rational)>,

        requires
            old(self).wf(),
            start_index + old(self).spec_keys().len() <= usize::MAX,
            forall|k: KeyNumber| #[trigger] is_note_anchored.requires((k,)),
            forall|k: KeyNumber| #[trigger] provide_candidate_anchors.requires((k,)),
        ensures
            final(self).wf(),
            final(self).spec_keys() == old(self).spec_keys(),
            final(self).memo_flags() == old(self).memo_flags(),
            final(self).same_intervals(*old(self)),
            final(self).anchors_collected(),
            exists|anchored: Seq<bool>|
                {
                    &&& #[trigger] anchored_from(is_note_anchored, old(self).spec_keys(), anchored)
                    &&& final(self).anchors() == Map::new(
                        |i: int| 0 <= i < anchored.len() && anchored[i],
                        |i: int| old(self).spec_keys()[i],
                    )
                },
            final(self).anchors_numbered_from(start_index as nat),
            forall|t: int| 0 <= t < final(self).anchor_digits().len() ==> #[trigger] final(self).anchor_digits()[t] == 0,
            memo_extends(
                final(self).anchor_memo(),
                if old(self).memo_flags().1 {
                    old(self).anchor_memo()
                } else {
                    Seq::empty()
                },
                final(self).anchors(),
                provide_candidate_anchors,
            ),
    {
        let n = self.n_keys;
        self.current_anchors = none_table(n);
        if !self.memo_anchors {
            self.memoed_anchors = Vec::new();
        }
        let ghost base = self.memoed_anchors@;
        let ghost keys = self.keys@;
        let ghost mut anchored: Seq<bool> = Seq::empty();
        let mut solver_length_index = start_index;
        proof {
            assert(anchors_of(self.current_anchors@) =~= Map::<int, KeyNumber>::empty());
            assert(self.memoed_anchors@.subrange(0, base.len() as int) =~= base);
            lemma_count_some_none(self.current_anchors@, 0, n as int);
        }
        let mut i: usize = 0;
        while i < n
            invariant
                n == self.n_keys,
                i <= n,
                self.wf(),
                self.keys@ == keys,
                keys.len() == n,
                start_index + n <= usize::MAX,
                self.memo_springs == old(self).memo_springs,
                self.memo_anchors == old(self).memo_anchors,
                self.memo_rods == old(self).memo_rods,
                self.current_springs == old(self).current_springs,
                self.current_rods == old(self).current_rods,
                self.memoed_springs == old(self).memoed_springs,
                self.memoed_rods == old(self).memoed_rods,
                self.current_anchors@.len() == n,
                forall|t: int| i <= t < n ==> #[trigger] self.current_anchors@[t] is None,
                anchored.len() == i,
                forall|t: int|
                    0 <= t < i ==> is_note_anchored.ensures((keys[t],), #[trigger] anchored[t]),
                anchors_of(self.current_anchors@) == Map::new(
                    |t: int| 0 <= t < anchored.len() && anchored[t],
                    |t: int| keys[t],
                ),
                forall|t: int|
                    0 <= t < n && #[trigger] self.current_anchors@[t] is Some
                        ==> self.current_anchors@[t]->0.current_candidate_index == 0,
                anchors_numbered(self.current_anchors@, start_index as int),
                solver_length_index == start_index + count_some(self.current_anchors@, n as int),
                memo_extends(
                    self.memoed_anchors@,
                    base,
                    anchors_of(self.current_anchors@),
                    provide_candidate_anchors,
                ),
                forall|k: KeyNumber| #[trigger] is_note_anchored.requires((k,)),
                forall|k: KeyNumber| #[trigger] provide_candidate_anchors.requires((k,)),
            decreases n - i,
        {
            let k = self.keys[i];
            let a = is_note_anchored(k);
            proof {
                anchored = anchored.push(a);
            }
            if a {
                let ghost memo_before = self.memoed_anchors@;
                let ghost anchors_before = anchors_of(self.current_anchors@);
                let memoised = has_anchor_memo(&self.memoed_anchors, k);
                if !memoised {
                    let candidates = provide_candidate_anchors(k);
                    self.memoed_anchors.push((k, candidates));
                    proof {
                        assert(self.memoed_anchors@.subrange(0, memo_before.len() as int) =~= memo_before);
                    }
                }
                let ghost before = self.current_anchors@;
                self.current_anchors.set(
                    i,
                    Some(AnchorInfo { solver_length_index, memo_key: k, current_candidate_index: 0 }),
                );
                proof {
                    assert(!anchors_before.contains_key(i as int));
                    lemma_memo_add(
                        memo_before,
                        self.memoed_anchors@,
                        base,
                        anchors_before,
                        i as int,
                        k,
                        provide_candidate_anchors,
                    );
                    assert(anchors_of(self.current_anchors@) =~= anchors_before.insert(i as int, k));
                    lemma_count_some_update(before, i as int, self.current_anchors@[i as int], n as int);
                    lemma_count_some_none(before, i as int, n as int);
                    lemma_count_some_le(before, i as int);
                    assert forall|t: int|
                        0 <= t < n && #[trigger] self.current_anchors@[t] is Some implies self.current_anchors@[t]->0.solver_length_index
                            == start_index + count_some(self.current_anchors@, t) by {
                        lemma_count_some_update(before, i as int, self.current_anchors@[i as int], t);
                        if t == i {
                            lemma_count_some_none(before, i as int, n as int);
                        }
                    }
                    assert(anchors_of(self.current_anchors@) =~= Map::new(
                        |t: int| 0 <= t < anchored.len() && anchored[t],
                        |t: int| keys[t],
                    ));
                }
                solver_length_index += 1;
            } else {
                proof {
                    assert(anchors_of(self.current_anchors@) =~= Map::new(
                        |t: int| 0 <= t < anchored.len() && anchored[t],
                        |t: int| keys[t],
                    ));
                }
            }
            i += 1;
        }
        proof {
            assert(anchored_from(is_note_anchored, old(self).spec_keys(), anchored));
            assert(self.same_intervals(*old(self)));
        }
    }

    /// The target of the memoised length of every rod, under the rod's pair of notes.
    pub closed spec fn rod_targets(&self) -> Map<(int, int), Seq<i64>> {
        Map::new(
            |p: (int, int)| self.rods().contains_key(p),
            |p: (int, int)| rod_memo_entry(self.memoed_rods@, self.rods()[p]).target@,
        )
    }

    /// The target of the candidate in use of every spring, under the spring's pair of notes.
    pub closed spec fn spring_targets(&self) -> Map<(int, int), Seq<i64>> {
        Map::new(
            |p: (int, int)| self.springs().contains_key(p),
            |p: (int, int)| memo_entry(self.memoed_springs@, self.springs()[p])@[self.spring_candidate(p)].0.target@,
        )
    }

    /// The intended intervals: the targets of the rods, completed (see [complete_is]); then the
    /// targets of the springs where the interval is not known yet; completed again.
    pub open spec fn intended_intervals(&self) -> Map<(int, int), Seq<i64>> {
        let n = self.spec_keys().len() as int;
        complete_is(self.spring_targets().union_prefer_right(complete_is(self.rod_targets(), 0, n)), 0, n)
    }

    /// The coefficients of the intended intervals fit in an `i64`.
    pub open spec fn intended_intervals_fit(&self) -> bool {
        let n = self.spec_keys().len() as int;
        &&& complete_is_fits(self.rod_targets(), 0, n)
        &&& complete_is_fits(self.spring_targets().union_prefer_right(complete_is(self.rod_targets(), 0, n)), 0, n)
    }

    /// The length of every rod is memoised, and so is the candidate in use of every spring.
    pub closed spec fn targets_ready(&self) -> bool {
        &&& forall|t: int|
            0 <= t < self.current_rods@.len() && #[trigger] self.current_rods@[t] is Some ==> exists|s: int|
                0 <= s < self.memoed_rods@.len() && (#[trigger] self.memoed_rods@[s]).0@
                    == self.current_rods@[t]->0.memo_key@
        &&& forall|t: int|
            0 <= t < self.current_springs@.len() && #[trigger] self.current_springs@[t] is Some
                ==> memo_has(self.memoed_springs@, self.current_springs@[t]->0.memo_key)
                && self.current_springs@[t]->0.current_candidate_index < memo_count(
                self.memoed_springs@,
                self.current_springs@[t]->0.memo_key,
            )
    }

    /// Computes a list of targets for the intervals in the current solution.
    ///
    /// If there are no tensioned springs, these correspond directly to the intervals in the
    /// solution. Otherwise, there is no "always correct choice" to guess the intended non-detuned
    /// intervals. These choices are made:
    ///
    /// - every interval that is fixed by a rod or a combination of rods will be kept.
    /// - springs and rods that come between more "stable" notes (i.e. the ones that come last in
    /// the keys) are preferred.
    ///
    /// The order of the intervals is such that the interval from the `i`-th to the `j`-th note,
    /// where `0 <= i < j`, is stored at the index computed by [tri_index]:
    ///
    /// `
    /// let index = |i, j| n * i - i * (i + 1) / 2 + j - i - 1;
    /// `
    ///
    /// Intervals that nothing determines are zero.
    pub fn current_interval_targets(&self) -> (r: Vec<Vec<StackCoeff>>)
        requires
            self.wf(),
            self.intervals_collected(),
            self.targets_ready(),
            self.intended_intervals_fit(),
        ensures
            r@.len() == self.spec_keys().len() * (self.spec_keys().len() - 1) / 2,
            forall|i: int, j: int|
                0 <= i < j < self.spec_keys().len() ==> (#[trigger] r@[tri_index(
                    self.spec_keys().len() as int,
                    i,
                    j,
                )])@ == if self.intended_intervals().contains_key((i, j)) {
                    self.intended_intervals()[(i, j)]
                } else {
                    Seq::new(T::spec_key_distances().len(), |t: int| 0i64)
                },
    {
        let n = self.n_keys;
        proof {
            lemma_unique_keys(self.keys@);
            assert(n * n <= 256 * 256) by (nonlinear_arith)
                requires
                    n <= 256,
            ;
        }
        let nn = n * n;
        let mut tbl: Vec<Option<Vec<StackCoeff>>> = none_table(nn);
        // Let's iterate through this back to front: This will prefer the connections between more
        // "stable" notes
        let mut t: usize = nn;
        while t > 0
            invariant
                n == self.n_keys,
                nn == n * n,
                t <= nn,
                self.wf(),
                self.intervals_collected(),
                self.targets_ready(),
                tbl@.len() == nn,
                forall|q: int| 0 <= q < t ==> #[trigger] tbl@[q] is None,
                forall|q: int| t <= q < nn ==> (#[trigger] tbl@[q] is Some) == (self.current_rods@[q] is Some),
                forall|q: int|
                    t <= q < nn && #[trigger] tbl@[q] is Some ==> tbl@[q]->0@ == rod_memo_entry(
                        self.memoed_rods@,
                        self.current_rods@[q]->0.memo_key@,
                    ).target@,
            decreases t,
        {
            t -= 1;
            match &self.current_rods[t] {
                Some(v) => {
                    if tbl[t].is_none() {
                        let target = rod_memo_target(&self.memoed_rods, &v.memo_key);
                        tbl.set(t, Some(target));
                    }
                },
                None => {},
            }
        }
        proof {
            assert forall|x: int, y: int| 0 <= y <= x < n implies #[trigger] tbl@[pair_index(n as int, x, y)] is None by {
                lemma_pair_index(n as int, x, y);
                assert(self.current_rods@[pair_index(n as int, x, y)] is None);
            }
            assert forall|p: (int, int)| #[trigger] targets_of(tbl@, n as int).contains_key(p) == self.rod_targets().contains_key(p)
                && (self.rod_targets().contains_key(p) ==> targets_of(tbl@, n as int)[p] == self.rod_targets()[p]) by {
                if 0 <= p.0 < p.1 < n {
                    lemma_pair_index(n as int, p.0, p.1);
                }
            }
            assert(targets_of(tbl@, n as int) =~= self.rod_targets());
        }
        complete_table(&mut tbl, n);
        let ghost mid = tbl@;
        // Again, back to front. Also: after the rods have been completed.
        t = nn;
        while t > 0
            invariant
                n == self.n_keys,
                nn == n * n,
                t <= nn,
                self.wf(),
                self.intervals_collected(),
                self.targets_ready(),
                mid.len() == nn,
                tbl@.len() == nn,
                forall|q: int| 0 <= q < t ==> #[trigger] tbl@[q] == mid[q],
                forall|q: int|
                    t <= q < nn ==> (#[trigger] tbl@[q] is Some) == (mid[q] is Some || self.current_springs@[q] is Some),
                forall|q: int|
                    t <= q < nn && #[trigger] tbl@[q] is Some ==> tbl@[q]->0@ == if mid[q] is Some {
                        mid[q]->0@
                    } else {
                        memo_entry(self.memoed_springs@, self.current_springs@[q]->0.memo_key)@[self.current_springs@[q]->0.current_candidate_index as int].0.target@
                    },
            decreases t,
        {
            t -= 1;
            match &self.current_springs[t] {
                Some(v) => {
                    if tbl[t].is_none() {
                        let target = spring_candidate_target(
                            &self.memoed_springs,
                            v.memo_key,
                            v.current_candidate_index,
                        );
                        tbl.set(t, Some(target));
                    }
                },
                None => {},
            }
        }
        proof {
            let m1 = targets_of(mid, n as int);
            assert forall|x: int, y: int| 0 <= y <= x < n implies #[trigger] tbl@[pair_index(n as int, x, y)] is None by {
                lemma_pair_index(n as int, x, y);
                assert(self.current_springs@[pair_index(n as int, x, y)] is None);
                assert(mid[pair_index(n as int, x, y)] is None);
            }
            let expected = self.spring_targets().union_prefer_right(m1);
            assert forall|p: (int, int)| #[trigger] targets_of(tbl@, n as int).contains_key(p) == expected.contains_key(p)
                && (expected.contains_key(p) ==> targets_of(tbl@, n as int)[p] == expected[p]) by {
                if 0 <= p.0 < p.1 < n {
                    lemma_pair_index(n as int, p.0, p.1);
                }
            }
            assert(targets_of(tbl@, n as int) =~= expected);
        }
        complete_table(&mut tbl, n);
        // the intervals, in the order of the pairs of notes
        let num = T::num_intervals();
        let mut r: Vec<Vec<StackCoeff>> = Vec::new();
        let ghost result = targets_of(tbl@, n as int);
        let mut i: usize = 0;
        proof {
            if n >= 1 {
                lemma_tri_count(n as int);
                assert(r@.len() == tri_index(n as int, 0, 1));
            } else {
                assert(n * (n - 1) / 2 == 0) by (nonlinear_arith)
                    requires
                        n == 0,
                ;
            }
        }
        while i < n
            invariant
                n == self.n_keys,
                nn == n * n,
                i <= n,
                table_shape(tbl@, n as int),
                targets_of(tbl@, n as int) == result,
                num == T::spec_key_distances().len(),
                r@.len() == if i < n { tri_index(n as int, i as int, i as int + 1) } else { n * (n - 1) / 2 },
                forall|x: int, y: int|
                    0 <= x < y < n && x < i ==> (#[trigger] r@[tri_index(n as int, x, y)])@ == if result.contains_key((x, y)) {
                        result[(x, y)]
                    } else {
                        Seq::new(num as nat, |t: int| 0i64)
                    },
            decreases n - i,
        {
            let mut j: usize = i + 1;
            while j < n
                invariant
                    n == self.n_keys,
                    nn == n * n,
                    i < n,
                    i + 1 <= j <= n,
                    table_shape(tbl@, n as int),
                    targets_of(tbl@, n as int) == result,
                    num == T::spec_key_distances().len(),
                    r@.len() == tri_index(n as int, i as int, j as int),
                    forall|x: int, y: int|
                        0 <= x < y < n && pair_before((x, y), i as int, j as int) ==> (#[trigger] r@[tri_index(n as int, x, y)])@ == if result.contains_key((x, y)) {
                            result[(x, y)]
                        } else {
                            Seq::new(num as nat, |t: int| 0i64)
                        },
                decreases n - j,
            {
                proof {
                    lemma_pair_index(n as int, i as int, j as int);
                }
                let ij = i * n + j;
                let v = match &tbl[ij] {
                    Some(v) => copy_coeffs(v),
                    None => zero_coeffs(num),
                };
                let ghost before = r@;
                r.push(v);
                proof {
                    assert forall|x: int, y: int|
                        0 <= x < y < n && pair_before((x, y), i as int, j as int + 1) implies (#[trigger] r@[tri_index(n as int, x, y)])@ == if result.contains_key((x, y)) {
                            result[(x, y)]
                        } else {
                            Seq::new(num as nat, |t: int| 0i64)
                        } by {
                        if (x, y) != (i as int, j as int) {
                            lemma_tri_index_order(n as int, x, y, i as int, j as int);
                            assert(r@[tri_index(n as int, x, y)] == before[tri_index(n as int, x, y)]);
                        }
                    }
                }
                j += 1;
            }
            proof {
                if i + 1 < n {
                    lemma_tri_index_row(n as int, i as int);
                } else {
                    lemma_tri_count(n as int);
                }
                assert forall|x: int, y: int|
                    0 <= x < y < n && x < i + 1 implies (#[trigger] r@[tri_index(n as int, x, y)])@ == if result.contains_key((x, y)) {
                        result[(x, y)]
                    } else {
                        Seq::new(num as nat, |t: int| 0i64)
                    } by {
                    assert(pair_before((x, y), i as int, n as int));
                }
            }
            i += 1;
        }
        proof {
            if n == 0 {
                assert(n * (n - 1) / 2 == 0) by (nonlinear_arith)
                    requires
                        n == 0,
                ;
            }
        }
        r
    }

    /// The index of the first anchored note.
    pub closed spec fn first_anchor(&self) -> int {
        choose|a: int|
            #![trigger self.current_anchors@[a]]
            0 <= a < self.current_anchors@.len() && self.current_anchors@[a] is Some && forall|q: int|
                0 <= q < a ==> #[trigger] self.current_anchors@[q] is None
    }

    /// The target of the candidate in use for the first anchored note.
    pub closed spec fn first_anchor_target(&self) -> Seq<i64> {
        let a = self.current_anchors@[self.first_anchor()]->0;
        memo_entry(self.memoed_anchors@, a.memo_key)@[a.current_candidate_index as int].0.target@
    }

    /// The position of the first note, as the [Self::current_anchor_targets] place it: the target
    /// of the first anchor, less the interval from the first note to it.
    pub open spec fn anchor_base(&self, interval_targets: Seq<Seq<i64>>) -> Seq<i64> {
        if self.first_anchor() == 0 {
            self.first_anchor_target()
        } else {
            vec_sub(self.first_anchor_target(), interval_targets[self.first_anchor() - 1])
        }
    }

    /// The coefficients that [Self::current_anchor_targets] computes fit in an `i64`.
    pub open spec fn anchor_targets_fit(&self, interval_targets: Seq<Seq<i64>>) -> bool {
        &&& self.first_anchor() != 0 ==> vec_sub_fits(
            self.first_anchor_target(),
            interval_targets[self.first_anchor() - 1],
        )
        &&& forall|i: int|
            0 <= i < self.spec_keys().len() - 1 ==> vec_add_fits(
                self.anchor_base(interval_targets),
                #[trigger] interval_targets[i],
            )
    }

    /// Return a list of targets for the notes in the current solution.
    ///
    /// If there are no tensioned springs, these correspond directly to the solution. Otherwise,
    /// there is no "always correct choice" to guess the intended non-detuned notes. This function
    /// uses the intervals to the first note, as provided by the `interval_targets` argument to
    /// determine the positions of all other notes, starting from the target of the first anchored
    /// note.
    ///
    /// Expected invariants:
    /// - the `interval_targets` the result returned by [Self::current_interval_targets]. (Or, at
    /// least the prefix of the first `n-1` entries of that vector)
    pub fn current_anchor_targets(&self, interval_targets: &[Vec<StackCoeff>]) -> (r: Vec<Vec<StackCoeff>>)
        requires
            self.wf(),
            self.anchors_collected(),
            self.candidates_ready(),
            digits_in_range(self.anchor_digits(), self.anchor_radices()),
            exists|i: int| #[trigger] self.anchors().contains_key(i),
            interval_targets@.len() + 1 >= self.spec_keys().len(),
            self.anchor_targets_fit(interval_targets@.map_values(|v: Vec<StackCoeff>| v@)),
        ensures
            r@.len() == self.spec_keys().len(),
            r@[0]@ == self.anchor_base(interval_targets@.map_values(|v: Vec<StackCoeff>| v@)),
            forall|i: int|
                0 <= i < self.spec_keys().len() - 1 ==> (#[trigger] r@[i + 1])@ == vec_add(
                    self.anchor_base(interval_targets@.map_values(|v: Vec<StackCoeff>| v@)),
                    interval_targets@[i]@,
                ),
            // the first anchored note is at its target
            r@[self.first_anchor()]@ == self.first_anchor_target(),
    {
        let ghost iv = interval_targets@.map_values(|v: Vec<StackCoeff>| v@);
        let n = self.n_keys;
        let mut a: usize = 0;
        let ghost some = choose|i: int| #[trigger] self.anchors().contains_key(i);
        while self.current_anchors[a].is_none()
            invariant
                n == self.n_keys,
                self.current_anchors@.len() == n,
                a <= some < n,
                self.current_anchors@[some] is Some,
                forall|q: int| 0 <= q < a ==> #[trigger] self.current_anchors@[q] is None,
            decreases some - a,
        {
            a += 1;
        }
        proof {
            assert(self.first_anchor() == a) by {
                let f = self.first_anchor();
                assert(0 <= a < self.current_anchors@.len() && self.current_anchors@[a as int] is Some
                    && forall|q: int| 0 <= q < a ==> #[trigger] self.current_anchors@[q] is None);
                if f < a {
                    assert(self.current_anchors@[f] is None);
                } else if f > a {
                    assert(self.current_anchors@[a as int] is None);
                }
            }
            assert(self.anchor_digits()[a as int] < self.anchor_radices()[a as int]);
        }
        let (key, cand) = match &self.current_anchors[a] {
            Some(info) => (info.memo_key, info.current_candidate_index),
            None => (0, 0),
        };
        let target = anchor_candidate_target(&self.memoed_anchors, key, cand);
        let base = if a == 0 {
            target
        } else {
            proof {
                assert(iv[a - 1] == interval_targets@[a - 1]@);
            }
            sub_coeffs(&target, &interval_targets[a - 1])
        };
        let mut r: Vec<Vec<StackCoeff>> = Vec::new();
        r.push(base);
        let mut i: usize = 0;
        while i + 1 < n
            invariant
                n == self.n_keys,
                n == self.spec_keys().len(),
                interval_targets@.len() + 1 >= n,
                1 <= n,
                i + 1 <= n,
                r@.len() == i + 1,
                r@[0]@ == self.anchor_base(iv),
                iv == interval_targets@.map_values(|v: Vec<StackCoeff>| v@),
                self.anchor_targets_fit(iv),
                forall|q: int| 0 <= q < i ==> (#[trigger] r@[q + 1])@ == vec_add(self.anchor_base(iv), interval_targets@[q]@),
            decreases n - i,
        {
            proof {
                assert(iv[i as int] == interval_targets@[i as int]@);
            }
            let v = add_coeffs(&r[0], &interval_targets[i]);
            r.push(v);
            i += 1;
        }
        proof {
            let f = a as int;
            if f > 0 {
                let t = self.first_anchor_target();
                let b = self.anchor_base(iv);
                assert(iv[f - 1] == interval_targets@[f - 1]@);
                assert(r@[f]@ =~= t) by {
                    assert(vec_add_fits(b, iv[f - 1]));
                    assert(vec_sub_fits(t, iv[f - 1]));
                    assert(r@[(f - 1) + 1]@ == vec_add(b, interval_targets@[f - 1]@));
                    assert forall|x: int| 0 <= x < t.len() implies r@[f]@[x] == t[x] by {
                        assert(b[x] == t[x] - iv[f - 1][x]);
                    }
                }
            }
        }
        r
    }

    /// The actual coefficients of the candidate in use of every spring, under the spring's pair
    /// of notes.
    pub closed spec fn spring_actuals(&self) -> Map<(int, int), Seq<Rational>> {
        Map::new(
            |p: (int, int)| self.springs().contains_key(p),
            |p: (int, int)| memo_entry(self.memoed_springs@, self.springs()[p])@[self.spring_candidate(p)].0.actual@,
        )
    }

    /// The actual coefficients of the candidate in use of every anchor, under the index of the
    /// anchored note.
    pub closed spec fn anchor_actuals(&self) -> Map<int, Seq<Rational>> {
        Map::new(
            |k: int| self.anchors().contains_key(k),
            |k: int| memo_entry(self.memoed_anchors@, self.anchors()[k])@[self.anchor_digits()[k]].0.actual@,
        )
    }

    /// Every anchored note sits where the candidate in use of its anchor puts it.
    pub open spec fn anchors_relaxed_in(&self, solution: Seq<Seq<Rational>>) -> bool {
        forall|k: int, m: int|
            self.anchor_actuals().contains_key(k) && 0 <= m < T::spec_key_distances().len()
                ==> #[trigger] self.anchor_actuals()[k][m] == solution[k][m]
    }

    /// Every spring between two notes `i < j` has the length of its candidate in use: the
    /// position of the note `j` less that of the note `i`.
    pub open spec fn springs_relaxed_in(&self, solution: Seq<Seq<Rational>>) -> bool {
        forall|p: (int, int), m: int|
            self.spring_actuals().contains_key(p) && 0 <= m < T::spec_key_distances().len()
                ==> sub_spec(solution[p.1][m], solution[p.0][m]) == Some(
                #[trigger] self.spring_actuals()[p][m],
            )
    }

    /// The solution has a position for every note, with one coefficient in lowest terms per base
    /// interval; the candidates in use have (at least) as many coefficients, in lowest terms; and
    /// the differences that the springs are compared to do not overflow.
    pub open spec fn relaxed_in_ok(&self, solution: Seq<Seq<Rational>>) -> bool {
        let num = T::spec_key_distances().len();
        &&& solution.len() == self.spec_keys().len()
        &&& forall|k: int| 0 <= k < solution.len() ==> (#[trigger] solution[k]).len() == num && all_wf(solution[k])
        &&& forall|k: int|
            #[trigger] self.anchor_actuals().contains_key(k) ==> self.anchor_actuals()[k].len() >= num && all_wf(
                self.anchor_actuals()[k],
            )
        &&& forall|p: (int, int)|
            #[trigger] self.spring_actuals().contains_key(p) ==> self.spring_actuals()[p].len() >= num && all_wf(
                self.spring_actuals()[p],
            )
        &&& forall|p: (int, int), m: int|
            self.spring_actuals().contains_key(p) && 0 <= m < num ==> (#[trigger] sub_spec(
                solution[p.1][m],
                solution[p.0][m],
            )) is Some
    }

    /// Returns true iff all springs have their relaxed length (that is: there are no detuned
    /// intervals or notes) in the provided solution: the position of the `i`-th note is the row
    /// `solution[i]`, one coefficient per base interval.
    pub fn relaxed_in(&self, solution: &[Vec<Rational>]) -> (b: bool)
        requires
            self.wf(),
            self.intervals_collected(),
            self.targets_ready(),
            self.anchors_collected(),
            self.candidates_ready(),
            digits_in_range(self.anchor_digits(), self.anchor_radices()),
            self.relaxed_in_ok(solution@.map_values(|v: Vec<Rational>| v@)),
        ensures
            b == (self.anchors_relaxed_in(solution@.map_values(|v: Vec<Rational>| v@))
                && self.springs_relaxed_in(solution@.map_values(|v: Vec<Rational>| v@))),
    {
        let anchors_ok = self.anchor_relaxed_in(solution);
        let springs_ok = self.interval_relaxed_in(solution);
        anchors_ok && springs_ok
    }

    /// Like [Self::relaxed_in], but only takes into account anchor springs.
    fn anchor_relaxed_in(&self, solution: &[Vec<Rational>]) -> (b: bool)
        requires
            self.wf(),
            self.anchors_collected(),
            self.candidates_ready(),
            digits_in_range(self.anchor_digits(), self.anchor_radices()),
            self.relaxed_in_ok(solution@.map_values(|v: Vec<Rational>| v@)),
        ensures
            b == self.anchors_relaxed_in(solution@.map_values(|v: Vec<Rational>| v@)),
    {
        let ghost sol = solution@.map_values(|v: Vec<Rational>| v@);
        let num = T::num_intervals();
        let mut i: usize = 0;
        while i < self.current_anchors.len()
            invariant
                i <= self.current_anchors@.len(),
                self.wf(),
                self.anchors_collected(),
                self.candidates_ready(),
                digits_in_range(self.anchor_digits(), self.anchor_radices()),
                self.relaxed_in_ok(sol),
                sol == solution@.map_values(|v: Vec<Rational>| v@),
                num == T::spec_key_distances().len(),
                forall|k: int, m: int|
                    0 <= k < i && self.anchor_actuals().contains_key(k) && 0 <= m < num
                        ==> #[trigger] self.anchor_actuals()[k][m] == sol[k][m],
            decreases self.current_anchors@.len() - i,
        {
            match &self.current_anchors[i] {
                Some(v) => {
                    let t = anchor_memo_index(&self.memoed_anchors, v.memo_key);
                    proof {
                        lemma_memo_entry(self.memoed_anchors@, t as int);
                        lemma_memo_count(self.memoed_anchors@, t as int);
                        assert(self.anchor_digits()[i as int] == v.current_candidate_index);
                        assert(self.anchor_radices()[i as int] == memo_count(self.memoed_anchors@, v.memo_key));
                        assert(self.anchor_actuals().contains_key(i as int));
                    }
                    let stack = &self.memoed_anchors[t].1[v.current_candidate_index].0;
                    proof {
                        assert(stack.actual@ == self.anchor_actuals()[i as int]);
                    }
                    let row = &solution[i];
                    proof {
                        assert(row@ == sol[i as int]);
                    }
                    let mut m: usize = 0;
                    while m < num
                        invariant
                            m <= num,
                            num == T::spec_key_distances().len(),
                            stack.actual@.len() >= num,
                            row@.len() == num,
                            i < sol.len(),
                            row@ == sol[i as int],
                            sol == solution@.map_values(|v: Vec<Rational>| v@),
                            self.anchor_actuals().contains_key(i as int),
                            stack.actual@ == self.anchor_actuals()[i as int],
                            forall|x: int| 0 <= x < m ==> stack.actual@[x] == row@[x],
                        decreases num - m,
                    {
                        if stack.actual[m] != row[m] {
                            proof {
                                assert(self.anchor_actuals()[i as int][m as int] != sol[i as int][m as int]);
                            }
                            return false;
                        }
                        m += 1;
                    }
                    proof {
                        assert forall|k: int, x: int|
                            0 <= k < i + 1 && self.anchor_actuals().contains_key(k) && 0 <= x < num
                                implies #[trigger] self.anchor_actuals()[k][x] == sol[k][x] by {
                            if k == i {
                                assert(stack.actual@[x] == row@[x]);
                            }
                        }
                    }
                },
                None => {
                    proof {
                        assert(!self.anchor_actuals().contains_key(i as int));
                    }
                },
            }
            i += 1;
        }
        true
    }

    /// Like [Self::relaxed_in], but only takes into account interval (i.e. non-anchor) springs.
    fn interval_relaxed_in(&self, solution: &[Vec<Rational>]) -> (b: bool)
        requires
            self.wf(),
            self.intervals_collected(),
            self.targets_ready(),
            self.relaxed_in_ok(solution@.map_values(|v: Vec<Rational>| v@)),
        ensures
            b == self.springs_relaxed_in(solution@.map_values(|v: Vec<Rational>| v@)),
    {
        let ghost sol = solution@.map_values(|v: Vec<Rational>| v@);
        let n = self.n_keys;
        let num = T::num_intervals();
        let mut i: usize = 0;
        while i < n
            invariant
                n == self.n_keys,
                i <= n,
                self.wf(),
                self.intervals_collected(),
                self.targets_ready(),
                self.relaxed_in_ok(sol),
                sol == solution@.map_values(|v: Vec<Rational>| v@),
                num == T::spec_key_distances().len(),
                forall|p: (int, int), x: int|
                    p.0 < i && self.spring_actuals().contains_key(p) && 0 <= x < num
                        ==> sub_spec(sol[p.1][x], sol[p.0][x]) == Some(#[trigger] self.spring_actuals()[p][x]),
            decreases n - i,
        {
            let mut j: usize = i + 1;
            while j < n
                invariant
                    n == self.n_keys,
                    i < n,
                    i + 1 <= j <= n,
                    self.wf(),
                    self.intervals_collected(),
                    self.targets_ready(),
                    self.relaxed_in_ok(sol),
                    sol == solution@.map_values(|v: Vec<Rational>| v@),
                    num == T::spec_key_distances().len(),
                    forall|p: (int, int), x: int|
                        pair_before(p, i as int, j as int) && self.spring_actuals().contains_key(p) && 0 <= x < num
                            ==> sub_spec(sol[p.1][x], sol[p.0][x]) == Some(#[trigger] self.spring_actuals()[p][x]),
                decreases n - j,
            {
                proof {
                    lemma_pair_index(n as int, i as int, j as int);
                    lemma_unique_keys(self.keys@);
                    assert(i * n + j < 256 * 256) by (nonlinear_arith)
                        requires
                            i < n <= 256,
                            j < n,
                    ;
                }
                match &self.current_springs[i * n + j] {
                    Some(v) => {
                        let t = spring_memo_index(&self.memoed_springs, v.memo_key);
                        proof {
                            let t0 = pair_index(n as int, i as int, j as int);
                            lemma_memo_entry(self.memoed_springs@, t as int);
                            lemma_memo_count(self.memoed_springs@, t as int);
                            assert(self.current_springs@[t0] is Some);
                            assert(self.springs().contains_key((i as int, j as int)));
                            assert(self.spring_actuals().contains_key((i as int, j as int)));
                        }
                        let stack = &self.memoed_springs[t].1[v.current_candidate_index].0;
                        proof {
                            assert(stack.actual@ == self.spring_actuals()[(i as int, j as int)]);
                        }
                        let lower = &solution[i];
                        let upper = &solution[j];
                        proof {
                            assert(lower@ == sol[i as int]);
                            assert(upper@ == sol[j as int]);
                        }
                        let mut m: usize = 0;
                        while m < num
                            invariant
                                m <= num,
                                i < j < sol.len(),
                                lower@ == sol[i as int],
                                upper@ == sol[j as int],
                                sol == solution@.map_values(|v: Vec<Rational>| v@),
                                self.spring_actuals().contains_key((i as int, j as int)),
                                stack.actual@ == self.spring_actuals()[(i as int, j as int)],
                                num == T::spec_key_distances().len(),
                                stack.actual@.len() >= num,
                                lower@.len() == num,
                                upper@.len() == num,
                                all_wf(lower@),
                                all_wf(upper@),
                                forall|x: int| 0 <= x < num ==> (#[trigger] sub_spec(upper@[x], lower@[x])) is Some,
                                forall|x: int| 0 <= x < m ==> sub_spec(upper@[x], lower@[x]) == Some(stack.actual@[x]),
                            decreases num - m,
                        {
                            assert(upper@[m as int].wf() && lower@[m as int].wf());
                            assert(sub_spec(upper@[m as int], lower@[m as int]) is Some);
                            let d = minus(upper[m], lower[m]);
                            if stack.actual[m] != d {
                                proof {
                                    assert(self.spring_actuals()[(i as int, j as int)][m as int] == stack.actual@[m as int]);
                                }
                                return false;
                            }
                            m += 1;
                        }
                        proof {
                            assert forall|p: (int, int), x: int|
                                pair_before(p, i as int, j as int + 1) && self.spring_actuals().contains_key(p) && 0 <= x < num
                                    implies sub_spec(sol[p.1][x], sol[p.0][x]) == Some(#[trigger] self.spring_actuals()[p][x]) by {
                                if p == (i as int, j as int) {
                                    assert(sub_spec(upper@[x], lower@[x]) == Some(stack.actual@[x]));
                                }
                            }
                        }
                    },
                    None => {
                        proof {
                            assert(!self.spring_actuals().contains_key((i as int, j as int)));
                            assert forall|p: (int, int), x: int|
                                pair_before(p, i as int, j as int + 1) && self.spring_actuals().contains_key(p) && 0 <= x < num
                                    implies sub_spec(sol[p.1][x], sol[p.0][x]) == Some(#[trigger] self.spring_actuals()[p][x]) by {
                                assert(p != (i as int, j as int));
                            }
                        }
                    },
                }
                j += 1;
            }
            proof {
                assert forall|p: (int, int), x: int|
                    p.0 < i + 1 && self.spring_actuals().contains_key(p) && 0 <= x < num
                        implies sub_spec(sol[p.1][x], sol[p.0][x]) == Some(#[trigger] self.spring_actuals()[p][x]) by {
                    assert(pair_before(p, i as int, n as int));
                }
            }
            i += 1;
        }
        proof {
            assert forall|p: (int, int), x: int|
                self.spring_actuals().contains_key(p) && 0 <= x < num
                    implies sub_spec(sol[p.1][x], sol[p.0][x]) == Some(#[trigger] self.spring_actuals()[p][x]) by {
                assert(p.0 < n);
            }
        }
        true
    }

    /// Tries the next combination of candidates for the anchors: counts the candidate indices up
    /// as the digits of a number, the first anchor being the lowest digit (see [odometer_value]).
    /// Returns false, with all indices back at zero, after the last combination.
    pub fn prepare_next_anchor_candidate(&mut self) -> (changed: bool)
        requires
            old(self).wf(),
            old(self).candidates_ready(),
            digits_in_range(old(self).anchor_digits(), old(self).anchor_radices()),
        ensures
            final(self).wf(),
            final(self).candidates_ready(),
            final(self).spec_keys() == old(self).spec_keys(),
            final(self).memo_flags() == old(self).memo_flags(),
            final(self).anchors() == old(self).anchors(),
            final(self).anchor_memo() == old(self).anchor_memo(),
            final(self).anchors_collected() == old(self).anchors_collected(),
            forall|start: nat| final(self).anchors_numbered_from(start) == old(self).anchors_numbered_from(start),
            final(self).same_intervals(*old(self)),
            final(self).anchor_radices() == old(self).anchor_radices(),
            digits_in_range(final(self).anchor_digits(), final(self).anchor_radices()),
            changed ==> odometer_value(final(self).anchor_digits(), final(self).anchor_radices())
                == odometer_value(old(self).anchor_digits(), old(self).anchor_radices()) + 1,
            !changed ==> odometer_value(final(self).anchor_digits(), final(self).anchor_radices()) == 0
                && odometer_value(old(self).anchor_digits(), old(self).anchor_radices()) + 1
                == odometer_capacity(old(self).anchor_radices()),
    {
        let ghost d0 = self.anchor_digits();
        let ghost r = self.anchor_radices();
        let ghost tbl0 = self.current_anchors@;
        let n = self.current_anchors.len();
        let mut t: usize = 0;
        while t < n
            invariant
                n == self.current_anchors@.len(),
                n == tbl0.len(),
                tbl0 == old(self).current_anchors@,
                old(self).candidates_ready(),
                d0 == old(self).anchor_digits(),
                r == old(self).anchor_radices(),
                t <= n,
                self.wf(),
                self.n_keys == old(self).n_keys,
                self.keys == old(self).keys,
                self.memo_springs == old(self).memo_springs,
                self.memo_anchors == old(self).memo_anchors,
                self.memo_rods == old(self).memo_rods,
                self.current_springs == old(self).current_springs,
                self.current_rods == old(self).current_rods,
                self.memoed_springs == old(self).memoed_springs,
                self.memoed_rods == old(self).memoed_rods,
                self.memoed_anchors == old(self).memoed_anchors,
                d0 == Seq::new(n as nat, |q: int| match tbl0[q] { Some(a) => a.current_candidate_index as int, None => 0 }),
                r == Seq::new(n as nat, |q: int| match tbl0[q] { Some(a) => memo_count(self.memoed_anchors@, a.memo_key), None => 1 }),
                digits_in_range(d0, r),
                forall|q: int| 0 <= q < n ==> (#[trigger] self.current_anchors@[q] is Some) == (tbl0[q] is Some),
                forall|q: int|
                    0 <= q < n && #[trigger] self.current_anchors@[q] is Some ==> self.current_anchors@[q]->0.memo_key
                        == tbl0[q]->0.memo_key && self.current_anchors@[q]->0.solver_length_index
                        == tbl0[q]->0.solver_length_index,
                forall|q: int| t <= q < n ==> #[trigger] self.current_anchors@[q] == tbl0[q],
                forall|q: int| 0 <= q < t ==> #[trigger] d0[q] == r[q] - 1,
                forall|q: int|
                    0 <= q < t && #[trigger] self.current_anchors@[q] is Some ==> self.current_anchors@[q]->0.current_candidate_index
                        == 0,
                forall|q: int|
                    0 <= q < n && #[trigger] tbl0[q] is Some ==> memo_has(self.memoed_anchors@, tbl0[q]->0.memo_key)
                        && memo_count(self.memoed_anchors@, tbl0[q]->0.memo_key) >= 1,
            decreases n - t,
        {
            if self.current_anchors[t].is_some() {
                let mut v = self.current_anchors[t].take().unwrap();
                proof {
                    assert(tbl0[t as int] is Some);
                }
                let count = anchor_memo_len(&self.memoed_anchors, v.memo_key);
                assert(d0[t as int] == v.current_candidate_index);
                assert(r[t as int] == count);
                if v.current_candidate_index < count - 1 {
                    v.current_candidate_index += 1;
                    self.current_anchors.set(t, Some(v));
                    proof {
                        lemma_count_up(d0, r, t as int);
                        assert(self.anchor_digits() =~= count_up_at(d0, t as int)) by {
                            assert forall|q: int| 0 <= q < n implies #[trigger] self.anchor_digits()[q] == count_up_at(d0, t as int)[q] by {
                                if q > t {
                                    assert(self.current_anchors@[q] == tbl0[q]);
                                }
                            }
                        }
                        assert(self.anchor_radices() =~= r);
                        self.lemma_anchor_frame(*old(self), tbl0);
                    }
                    return true;
                } else {
                    v.current_candidate_index = 0;
                    self.current_anchors.set(t, Some(v));
                }
            }
            t += 1;
        }
        proof {
            lemma_all_highest(d0, r);
            assert forall|q: int| 0 <= q < n implies #[trigger] self.anchor_digits()[q] == 0 by {}
            lemma_all_zero(self.anchor_digits(), r);
            assert(self.anchor_radices() =~= r);
            self.lemma_anchor_frame(*old(self), tbl0);
        }
        false
    }

    /// Tries the next combination of candidates for the springs: counts the candidate indices up
    /// as the digits of a number, the spring between the first pair of notes being the lowest digit
    /// (see [odometer_value]).
    /// Returns false, with all indices back at zero, after the last combination.
    pub fn prepare_next_spring_candidate(&mut self) -> (changed: bool)
        requires
            old(self).wf(),
            old(self).candidates_ready(),
            old(self).intervals_collected(),
            digits_in_range(old(self).spring_digits(), old(self).spring_radices()),
        ensures
            final(self).wf(),
            final(self).candidates_ready(),
            final(self).spec_keys() == old(self).spec_keys(),
            final(self).memo_flags() == old(self).memo_flags(),
            final(self).same_anchors(*old(self)),
            final(self).springs() == old(self).springs(),
            final(self).rods() == old(self).rods(),
            final(self).spring_memo() == old(self).spring_memo(),
            final(self).rod_memo() == old(self).rod_memo(),
            final(self).intervals_collected(),
            forall|next: nat| #[trigger] final(self).lengths_numbered(next) == old(self).lengths_numbered(next),
            final(self).spring_radices() == old(self).spring_radices(),
            digits_in_range(final(self).spring_digits(), final(self).spring_radices()),
            changed ==> odometer_value(final(self).spring_digits(), final(self).spring_radices())
                == odometer_value(old(self).spring_digits(), old(self).spring_radices()) + 1,
            !changed ==> odometer_value(final(self).spring_digits(), final(self).spring_radices()) == 0
                && odometer_value(old(self).spring_digits(), old(self).spring_radices()) + 1
                == odometer_capacity(old(self).spring_radices()),
            spring_step(*old(self), *final(self), changed),
    {
        let ghost d0 = self.spring_digits();
        let ghost r = self.spring_radices();
        let ghost tbl0 = self.current_springs@;
        let n = self.current_springs.len();
        let mut t: usize = 0;
        while t < n
            invariant
                n == self.current_springs@.len(),
                n == tbl0.len(),
                tbl0 == old(self).current_springs@,
                old(self).candidates_ready(),
                d0 == old(self).spring_digits(),
                r == old(self).spring_radices(),
                t <= n,
                self.wf(),
                self.n_keys == old(self).n_keys,
                self.keys == old(self).keys,
                self.memo_springs == old(self).memo_springs,
                self.memo_anchors == old(self).memo_anchors,
                self.memo_rods == old(self).memo_rods,
                self.current_anchors == old(self).current_anchors,
                self.current_rods == old(self).current_rods,
                self.memoed_anchors == old(self).memoed_anchors,
                self.memoed_rods == old(self).memoed_rods,
                self.memoed_springs == old(self).memoed_springs,
                old(self).intervals_collected(),
                d0 == Seq::new(n as nat, |q: int| match tbl0[q] { Some(a) => a.current_candidate_index as int, None => 0 }),
                r == Seq::new(n as nat, |q: int| match tbl0[q] { Some(a) => memo_count(self.memoed_springs@, a.memo_key), None => 1 }),
                digits_in_range(d0, r),
                forall|q: int| 0 <= q < n ==> (#[trigger] self.current_springs@[q] is Some) == (tbl0[q] is Some),
                forall|q: int|
                    0 <= q < n && #[trigger] self.current_springs@[q] is Some ==> self.current_springs@[q]->0.memo_key
                        == tbl0[q]->0.memo_key && self.current_springs@[q]->0.solver_length_index
                        == tbl0[q]->0.solver_length_index,
                forall|q: int| t <= q < n ==> #[trigger] self.current_springs@[q] == tbl0[q],
                forall|q: int| 0 <= q < t ==> #[trigger] d0[q] == r[q] - 1,
                forall|q: int|
                    0 <= q < t && #[trigger] self.current_springs@[q] is Some ==> self.current_springs@[q]->0.current_candidate_index
                        == 0,
                forall|q: int|
                    0 <= q < n && #[trigger] tbl0[q] is Some ==> memo_has(self.memoed_springs@, tbl0[q]->0.memo_key)
                        && memo_count(self.memoed_springs@, tbl0[q]->0.memo_key) >= 1,
            decreases n - t,
        {
            if self.current_springs[t].is_some() {
                let mut v = self.current_springs[t].take().unwrap();
                proof {
                    assert(tbl0[t as int] is Some);
                }
                let count = spring_memo_len(&self.memoed_springs, v.memo_key);
                assert(d0[t as int] == v.current_candidate_index);
                assert(r[t as int] == count);
                if v.current_candidate_index < count - 1 {
                    v.current_candidate_index += 1;
                    self.current_springs.set(t, Some(v));
                    proof {
                        lemma_count_up(d0, r, t as int);
                        assert(self.spring_digits() =~= count_up_at(d0, t as int)) by {
                            assert forall|q: int| 0 <= q < n implies #[trigger] self.spring_digits()[q] == count_up_at(d0, t as int)[q] by {
                                if q > t {
                                    assert(self.current_springs@[q] == tbl0[q]);
                                }
                            }
                        }
                        assert(self.spring_radices() =~= r);
                        self.lemma_spring_frame(*old(self), tbl0);
                    }
                    return true;
                } else {
                    v.current_candidate_index = 0;
                    self.current_springs.set(t, Some(v));
                }
            }
            t += 1;
        }
        proof {
            lemma_all_highest(d0, r);
            assert forall|q: int| 0 <= q < n implies #[trigger] self.spring_digits()[q] == 0 by {}
            lemma_all_zero(self.spring_digits(), r);
            assert(self.spring_radices() =~= r);
            self.lemma_spring_frame(*old(self), tbl0);
        }
        false
    }

    /// Tries the next combination of candidates: changes the anchors first and then the springs,
    /// i.e. counts up the number whose digits are the candidate indices of the anchors (the lowest
    /// ones) followed by those of the springs. Returns false, with all indices back at zero, after
    /// the last combination.
    pub fn prepare_next_candidate(&mut self) -> (changed: bool)
        requires
            old(self).wf(),
            old(self).candidates_ready(),
            old(self).intervals_collected(),
            digits_in_range(old(self).anchor_digits(), old(self).anchor_radices()),
            digits_in_range(old(self).spring_digits(), old(self).spring_radices()),
        ensures
            final(self).wf(),
            final(self).candidates_ready(),
            final(self).intervals_collected(),
            final(self).spec_keys() == old(self).spec_keys(),
            final(self).memo_flags() == old(self).memo_flags(),
            final(self).anchors() == old(self).anchors(),
            final(self).springs() == old(self).springs(),
            final(self).rods() == old(self).rods(),
            final(self).anchor_radices() == old(self).anchor_radices(),
            final(self).spring_radices() == old(self).spring_radices(),
            digits_in_range(final(self).anchor_digits(), final(self).anchor_radices()),
            digits_in_range(final(self).spring_digits(), final(self).spring_radices()),
            ({
                let r = old(self).anchor_radices() + old(self).spring_radices();
                let before = odometer_value(old(self).anchor_digits() + old(self).spring_digits(), r);
                let after = odometer_value(final(self).anchor_digits() + final(self).spring_digits(), r);
                &&& changed ==> after == before + 1
                &&& !changed ==> after == 0 && before + 1 == odometer_capacity(r)
            }),
    {
        let ghost a0 = self.anchor_digits();
        let ghost s0 = self.spring_digits();
        let ghost ra = self.anchor_radices();
        let ghost rs = self.spring_radices();
        let anchors_changed = self.prepare_next_anchor_candidate();
        proof {
            lemma_concat(a0, ra, s0, rs);
            lemma_concat(self.anchor_digits(), ra, s0, rs);
        }
        if anchors_changed {
            true
        } else {
            let ghost a1 = self.anchor_digits();
            let springs_changed = self.prepare_next_spring_candidate();
            proof {
                lemma_concat(a1, ra, self.spring_digits(), rs);
                let ca = odometer_capacity(ra);
                let vs = odometer_value(s0, rs);
                if springs_changed {
                    assert(ca * (vs + 1) == ca * vs + ca) by (nonlinear_arith);
                } else {
                    let cs = odometer_capacity(rs);
                    assert(ca * 0 == 0) by (nonlinear_arith);
                    assert(ca + ca * vs == ca * (vs + 1)) by (nonlinear_arith);
                }
            }
            springs_changed
        }
    }

    /// What changing the candidate indices of the anchors keeps.
    proof fn lemma_anchor_frame(&self, old_ws: Self, tbl0: Seq<Option<AnchorInfo>>)
        requires
            tbl0 == old_ws.current_anchors@,
            self.memoed_anchors == old_ws.memoed_anchors,
            self.current_springs == old_ws.current_springs,
            self.memoed_springs == old_ws.memoed_springs,
            self.current_anchors@.len() == tbl0.len(),
            old_ws.candidates_ready(),
            forall|q: int| 0 <= q < tbl0.len() ==> (#[trigger] self.current_anchors@[q] is Some) == (tbl0[q] is Some),
            forall|q: int|
                0 <= q < tbl0.len() && #[trigger] self.current_anchors@[q] is Some ==> self.current_anchors@[q]->0.memo_key
                    == tbl0[q]->0.memo_key && self.current_anchors@[q]->0.solver_length_index
                    == tbl0[q]->0.solver_length_index,
        ensures
            self.anchors() == old_ws.anchors(),
            self.candidates_ready(),
            forall|start: nat| self.anchors_numbered_from(start) == old_ws.anchors_numbered_from(start),
    {
        assert(self.anchors() =~= old_ws.anchors());
        assert forall|q: int| 0 <= q <= tbl0.len() implies #[trigger] count_some(self.current_anchors@, q) == count_some(tbl0, q) by {
            lemma_count_some_same(self.current_anchors@, tbl0, q);
        }
        assert forall|start: nat| #[trigger] self.anchors_numbered_from(start) == old_ws.anchors_numbered_from(start) by {
            if self.anchors_numbered_from(start) {
                assert forall|t: int|
                    0 <= t < tbl0.len() && #[trigger] tbl0[t] is Some implies tbl0[t]->0.solver_length_index == start
                        + count_some(tbl0, t) by {
                    assert(self.current_anchors@[t] is Some);
                    assert(count_some(self.current_anchors@, t) == count_some(tbl0, t));
                }
            }
            if old_ws.anchors_numbered_from(start) {
                assert forall|t: int|
                    0 <= t < tbl0.len() && #[trigger] self.current_anchors@[t] is Some implies self.current_anchors@[t]->0.solver_length_index == start
                        + count_some(self.current_anchors@, t) by {
                    assert(tbl0[t] is Some);
                    assert(count_some(self.current_anchors@, t) == count_some(tbl0, t));
                }
            }
        }
    }

    /// What changing the candidate indices of the springs keeps.
    proof fn lemma_spring_frame(&self, old_ws: Self, tbl0: Seq<Option<SpringInfo>>)
        requires
            tbl0 == old_ws.current_springs@,
            self.memoed_springs == old_ws.memoed_springs,
            self.current_anchors == old_ws.current_anchors,
            self.memoed_anchors == old_ws.memoed_anchors,
            self.current_rods == old_ws.current_rods,
            self.memoed_rods == old_ws.memoed_rods,
            self.n_keys == old_ws.n_keys,
            old_ws.intervals_collected(),
            self.current_springs@.len() == tbl0.len(),
            old_ws.candidates_ready(),
            forall|q: int| 0 <= q < tbl0.len() ==> (#[trigger] self.current_springs@[q] is Some) == (tbl0[q] is Some),
            forall|q: int|
                0 <= q < tbl0.len() && #[trigger] self.current_springs@[q] is Some ==> self.current_springs@[q]->0.memo_key
                    == tbl0[q]->0.memo_key && self.current_springs@[q]->0.solver_length_index
                    == tbl0[q]->0.solver_length_index,
        ensures
            self.springs() == old_ws.springs(),
            self.candidates_ready(),
            self.intervals_collected(),
            self.same_anchors(old_ws),
            forall|next: nat| #[trigger] self.lengths_numbered(next) == old_ws.lengths_numbered(next),
    {
        let n = self.n_keys as int;
        assert forall|p: (int, int)| #[trigger] self.springs().contains_key(p) == old_ws.springs().contains_key(p)
            && (self.springs().contains_key(p) ==> self.springs()[p] == old_ws.springs()[p]) by {
            if 0 <= p.0 < p.1 < n {
                lemma_pair_index(n, p.0, p.1);
            }
        }
        assert(self.springs() =~= old_ws.springs());
        assert forall|x: int, y: int| 0 <= y <= x < n implies #[trigger] self.current_springs@[pair_index(n, x, y)] is None by {
            lemma_pair_index(n, x, y);
            assert(tbl0[pair_index(n, x, y)] is None);
        }
        assert forall|q: int| 0 <= q <= tbl0.len() implies #[trigger] count_some(self.current_springs@, q) == count_some(tbl0, q) by {
            lemma_count_some_same(self.current_springs@, tbl0, q);
        }
        assert forall|next: nat| #[trigger] self.lengths_numbered(next) == old_ws.lengths_numbered(next) by {
            assert(n * n == tbl0.len());
            if self.lengths_numbered(next) {
                assert forall|t: int|
                    0 <= t < tbl0.len() && #[trigger] tbl0[t] is Some implies tbl0[t]->0.solver_length_index == 0
                        + count_some(tbl0, t) by {
                    assert(self.current_springs@[t] is Some);
                    assert(count_some(self.current_springs@, t) == count_some(tbl0, t));
                }
            }
            if old_ws.lengths_numbered(next) {
                assert forall|t: int|
                    0 <= t < tbl0.len() && #[trigger] self.current_springs@[t] is Some implies self.current_springs@[t]->0.solver_length_index == 0
                        + count_some(self.current_springs@, t) by {
                    assert(tbl0[t] is Some);
                    assert(count_some(self.current_springs@, t) == count_some(tbl0, t));
                }
            }
        }
    }

    /// The index of the candidate in use for each spring, in the order of the pairs of notes (0
    /// where there is no spring).
    pub closed spec fn spring_digits(&self) -> Seq<int> {
        Seq::new(
            self.current_springs@.len(),
            |t: int|
                match self.current_springs@[t] {
                    Some(a) => a.current_candidate_index as int,
                    None => 0,
                },
        )
    }

    /// The number of candidates for each spring, in the order of the pairs of notes (1 where there
    /// is no spring).
    pub closed spec fn spring_radices(&self) -> Seq<int> {
        Seq::new(
            self.current_springs@.len(),
            |t: int|
                match self.current_springs@[t] {
                    Some(a) => memo_count(self.memoed_springs@, a.memo_key),
                    None => 1,
                },
        )
    }
}

/// Every interval that is fixed by a rod or a combination of rods is kept among the intended
/// intervals: the completion of the rods' targets, and so every rod's own target.
pub proof fn law_rod_intervals_kept<T: StackType>(ws: Workspace<T>)
    ensures
        forall|p: (int, int)|
            #[trigger] complete_is(ws.rod_targets(), 0, ws.spec_keys().len() as int).contains_key(p)
                ==> ws.intended_intervals().contains_key(p) && ws.intended_intervals()[p]
                == complete_is(ws.rod_targets(), 0, ws.spec_keys().len() as int)[p],
        forall|p: (int, int)|
            #[trigger] ws.rod_targets().contains_key(p) ==> ws.intended_intervals().contains_key(p)
                && ws.intended_intervals()[p] == ws.rod_targets()[p],
{
    let n = ws.spec_keys().len() as int;
    let c = complete_is(ws.rod_targets(), 0, n);
    let u = ws.spring_targets().union_prefer_right(c);
    crate::process::springs::targets::law_complete_keeps(ws.rod_targets(), n);
    crate::process::springs::targets::law_complete_keeps(u, n);
    assert forall|p: (int, int)| #[trigger] c.contains_key(p) implies ws.intended_intervals().contains_key(p)
        && ws.intended_intervals()[p] == c[p] by {
        assert(u.contains_key(p) && u[p] == c[p]);
    }
}

/// The intended intervals are sound: where the targets of the rods and of the springs are the
/// intervals between notes at some positions, so are all intended intervals.
pub proof fn law_intended_intervals_sound<T: StackType>(ws: Workspace<T>, pos: spec_fn(int) -> Seq<int>)
    requires
        ws.intended_intervals_fit(),
        intervals_between(ws.rod_targets(), pos),
        intervals_between(ws.spring_targets(), pos),
    ensures
        intervals_between(ws.intended_intervals(), pos),
{
    let n = ws.spec_keys().len() as int;
    let c = complete_is(ws.rod_targets(), 0, n);
    crate::process::springs::targets::law_complete_sound(ws.rod_targets(), n, pos);
    let u = ws.spring_targets().union_prefer_right(c);
    assert(intervals_between(u, pos)) by {
        assert forall|p: (int, int)| #[trigger] u.contains_key(p) implies u[p].len() == pos(p.1).len()
            && pos(p.0).len() == pos(p.1).len() && forall|t: int|
            0 <= t < u[p].len() ==> #[trigger] u[p][t] == pos(p.1)[t] - pos(p.0)[t] by {
            if c.contains_key(p) {
                assert(u[p] == c[p]);
            } else {
                assert(u[p] == ws.spring_targets()[p]);
            }
        }
    }
    crate::process::springs::targets::law_complete_sound(u, n, pos);
}

/// One call of [Workspace::prepare_next_spring_candidate], as its contract has it: the radices
/// stay, the digits stay in range, and they count up by one, or (the call returning false) go
/// back to zero after the last combination.
pub open spec fn spring_step<T: StackType>(before: Workspace<T>, after: Workspace<T>, changed: bool) -> bool {
    let r = before.spring_radices();
    &&& after.spring_radices() == r
    &&& digits_in_range(after.spring_digits(), r)
    &&& changed ==> odometer_value(after.spring_digits(), r) == odometer_value(before.spring_digits(), r) + 1
    &&& !changed ==> odometer_value(after.spring_digits(), r) == 0 && odometer_value(
        before.spring_digits(),
        r,
    ) + 1 == odometer_capacity(r)
}

/// Successive calls of [Workspace::prepare_next_spring_candidate], starting with every spring at
/// its first candidate, go through all combinations of candidates: with `L` combinations, the
/// first `L - 1` calls return true and the `L`-th returns false; after `k < L` calls the
/// combination is the `k`-th (so each one is visited once), and after the `L`-th call every spring
/// is back at its first candidate.
pub proof fn law_spring_candidates_enumerated<T: StackType>(ws: Seq<Workspace<T>>, changed: Seq<bool>)
    requires
        ws.len() == changed.len() + 1,
        digits_in_range(ws[0].spring_digits(), ws[0].spring_radices()),
        forall|q: int| 0 <= q < ws[0].spring_digits().len() ==> #[trigger] ws[0].spring_digits()[q] == 0,
        forall|k: int| 0 <= k < changed.len() ==> spring_step(ws[k], ws[k + 1], #[trigger] changed[k]),
    ensures
        ({
            let r = ws[0].spring_radices();
            let l = odometer_capacity(r);
            &&& forall|k: int|
                0 <= k < ws.len() && k < l ==> #[trigger] odometer_value(ws[k].spring_digits(), r) == k
            &&& forall|k: int| 0 <= k < changed.len() && k < l ==> #[trigger] changed[k] == (k + 1 < l)
            &&& changed.len() >= l ==> forall|q: int|
                0 <= q < ws[l].spring_digits().len() ==> #[trigger] ws[l].spring_digits()[q] == 0
            &&& forall|d: Seq<int>|
                digits_in_range(d, r) && #[trigger] odometer_value(d, r) < ws.len() ==> ws[odometer_value(
                    d,
                    r,
                )].spring_digits() == d
        }),
{
    let r = ws[0].spring_radices();
    let l = odometer_capacity(r);
    lemma_all_zero(ws[0].spring_digits(), r);
    lemma_value_bounds(ws[0].spring_digits(), r);
    lemma_spring_steps_prefix(ws, changed, (if ws.len() < l { ws.len() - 1 } else { l - 1 }) as nat);
    assert forall|k: int| 0 <= k < changed.len() && k < l implies #[trigger] changed[k] == (k + 1 < l) by {
        lemma_spring_steps_prefix(ws, changed, k as nat);
        assert(spring_step(ws[k], ws[k + 1], changed[k]));
        if k + 1 == l && changed[k] {
            lemma_value_bounds(ws[k + 1].spring_digits(), r);
        }
    }
    if changed.len() >= l {
        let k = l - 1;
        lemma_spring_steps_prefix(ws, changed, k as nat);
        assert(spring_step(ws[k], ws[k + 1], changed[k]));
        if changed[k] {
            lemma_value_bounds(ws[k + 1].spring_digits(), r);
        }
        lemma_value_injective(ws[l].spring_digits(), ws[0].spring_digits(), r);
    }
    assert forall|d: Seq<int>|
        digits_in_range(d, r) && #[trigger] odometer_value(d, r) < ws.len() implies ws[odometer_value(
            d,
            r,
        )].spring_digits() == d by {
        let v = odometer_value(d, r);
        lemma_value_bounds(d, r);
        lemma_spring_steps_prefix(ws, changed, v as nat);
        lemma_value_injective(ws[v].spring_digits(), d, r);
    }
}

/// The first `k + 1` workspaces of such a sequence of calls: their radices are those of the first,
/// their digits in range, and the `j`-th one's combination is the `j`-th.
proof fn lemma_spring_steps_prefix<T: StackType>(ws: Seq<Workspace<T>>, changed: Seq<bool>, k: nat)
    requires
        ws.len() == changed.len() + 1,
        digits_in_range(ws[0].spring_digits(), ws[0].spring_radices()),
        odometer_value(ws[0].spring_digits(), ws[0].spring_radices()) == 0,
        forall|j: int| 0 <= j < changed.len() ==> spring_step(ws[j], ws[j + 1], #[trigger] changed[j]),
        k < ws.len(),
        k < odometer_capacity(ws[0].spring_radices()),
    ensures
        forall|j: int|
            0 <= j <= k ==> (#[trigger] ws[j]).spring_radices() == ws[0].spring_radices() && digits_in_range(
                ws[j].spring_digits(),
                ws[0].spring_radices(),
            ) && odometer_value(ws[j].spring_digits(), ws[0].spring_radices()) == j,
    decreases k,
{
    if k > 0 {
        lemma_spring_steps_prefix(ws, changed, (k - 1) as nat);
        let j = k - 1;
        assert(spring_step(ws[j], ws[j + 1], changed[j]));
        assert(ws[j].spring_radices() == ws[0].spring_radices());
    }
}

} // verus!
