//! Treating the idea of "tempering intervals" in the abstract setting. A [Temperament] is a
//! specification of how stacks of tempered intervals relate to stacks of pure intervals.
use crate::rational::{axpy, axpy_spec, integer, lemma_gcd_one, Rational};
use vstd::prelude::*;

verus! {

/// A description of a temperament, i.e. "how much you detune" some intervals.
///
/// Assume we're working in a setting with `D` base intervals (octaves, fifths, thirds,
/// sevenths...) which we conceive of as "pure". Sometimes, we want to describe a slightly detuned
/// version of this set of intervals. How much we detune the intervals, in terms of rational linear
/// combinations of the base intervals, is what an element of this type encodes.
pub struct Temperament {
    pub name: String,
    /// a `D x D` matrix. The i-th row describes the "comma" by which the i-th interval is
    /// detuned. The comma is given as a rational combination of base intervals, and the
    /// coefficients of that linear combination are what the row contains.
    adjustments: Vec<Vec<Rational>>,
}

/// Errors while computing a [Temperament] from identifications of notes.
pub enum TemperamentErr {
    /// The linear algebra failed for a reason other than a degenerate matrix.
    FromLinalgErr(LUErr),
    /// The tempered intervals do not determine the temperament.
    Indeterminate,
}

/// Errors of the rational LU decomposition.
pub enum LUErr {
    MatrixDegenerate,
}

/// Row `i` of the matrix `adj`, as a sequence.
pub open spec fn row(adj: Seq<Seq<Rational>>, i: int) -> Seq<Rational> {
    adj[i]
}

/// `init + sum_{j' < j} c[j'] * adj[j'][i]`, accumulated from `j' = 0` upwards, or `None` if an
/// intermediate step overflows.
pub open spec fn adjust_entry(
    adj: Seq<Seq<Rational>>,
    c: Seq<i64>,
    init: Rational,
    i: int,
    j: nat,
) -> Option<Rational>
    decreases j,
{
    if j == 0 {
        Some(init)
    } else {
        match adjust_entry(adj, c, init, i, (j - 1) as nat) {
            Some(x) => axpy_spec(x, c[j - 1], adj[j - 1][i]),
            None => None,
        }
    }
}

/// `out` with the adjustment for the coefficients `c` added to its first `c.len()` entries, or
/// `None` if an intermediate step overflows.
pub open spec fn adjusted(adj: Seq<Seq<Rational>>, c: Seq<i64>, out: Seq<Rational>) -> Option<
    Seq<Rational>,
> {
    if forall|i: int| 0 <= i < c.len() ==> #[trigger] adjust_entry(adj, c, out[i], i, c.len()) is Some {
        Some(
            Seq::new(
                out.len(),
                |i: int|
                    if i < c.len() {
                        adjust_entry(adj, c, out[i], i, c.len()).unwrap()
                    } else {
                        out[i]
                    },
            ),
        )
    } else {
        None
    }
}

/// All entries of the square matrix `adj` of size `n` are in lowest terms.
pub open spec fn square_wf(adj: Seq<Seq<Rational>>, n: nat) -> bool {
    &&& adj.len() == n
    &&& forall|j: int| 0 <= j < n ==> (#[trigger] adj[j]).len() == n
    &&& forall|j: int, k: int| 0 <= j < n && 0 <= k < n ==> (#[trigger] adj[j][k]).wf()
}

pub open spec fn all_wf(s: Seq<Rational>) -> bool {
    forall|i: int| 0 <= i < s.len() ==> (#[trigger] s[i]).wf()
}

/// A prefix of a successful accumulation is successful, and its values are in lowest terms.
pub proof fn lemma_adjust_entry_prefix(
    adj: Seq<Seq<Rational>>,
    c: Seq<i64>,
    init: Rational,
    i: int,
    j: nat,
    n: nat,
)
    requires
        j <= n,
        adjust_entry(adj, c, init, i, n) is Some,
    ensures
        adjust_entry(adj, c, init, i, j) is Some,
    decreases n - j,
{
    if j < n {
        lemma_adjust_entry_prefix(adj, c, init, i, j + 1, n);
    }
}

impl Temperament {
    /// The adjustment matrix.
    pub closed spec fn spec_adjustments(&self) -> Seq<Seq<Rational>> {
        self.adjustments@.map_values(|r: Vec<Rational>| r@)
    }

    /// A temperament with the given name and adjustment matrix.
    pub(crate) fn from_adjustments(name: String, adjustments: Vec<Vec<Rational>>) -> (t:
        Temperament)
        ensures
            t.spec_adjustments() == adjustments@.map_values(|r: Vec<Rational>| r@),
    {
        Temperament { name, adjustments }
    }

    /// The error "tempered out" by the `i`-th interval, given as (the coefficients of) a rational
    /// combination of pure intervals.
    pub fn comma(&self, i: usize) -> (r: Vec<Rational>)
        requires
            i < self.spec_adjustments().len(),
        ensures
            r@ == self.spec_adjustments()[i as int],
    {
        self.adjustments[i].clone()
    }

    /// The adjustment applied by the temperament to a stack of pure invervals with the given
    /// coefficients.
    pub fn adjustment(&self, coefficients: &[i64]) -> (r: Vec<Rational>)
        requires
            square_wf(self.spec_adjustments(), coefficients@.len()),
            adjusted(
                self.spec_adjustments(),
                coefficients@,
                Seq::new(coefficients@.len(), |i: int| integer(0)),
            ) is Some,
        ensures
            Some(r@) == adjusted(
                self.spec_adjustments(),
                coefficients@,
                Seq::new(coefficients@.len(), |i: int| integer(0)),
            ),
    {
        let mut output: Vec<Rational> = Vec::new();
        let d = coefficients.len();
        for k in 0..d
            invariant
                output@ == Seq::new(k as nat, |i: int| integer(0)),
        {
            output.push(Rational::from_integer(0));
        }
        assert(output@ =~= Seq::new(coefficients@.len(), |i: int| integer(0)));
        proof {
            lemma_gcd_one(0);
        }
        self.add_adjustment(coefficients, &mut output);
        output
    }

    /// Like [Self::adjustment], only with an output argument that will be mutated. The adjustment
    /// will be added to whatever is already in `output`.
    pub fn add_adjustment(&self, coefficients: &[i64], output: &mut Vec<Rational>)
        requires
            square_wf(self.spec_adjustments(), coefficients@.len()),
            old(output)@.len() >= coefficients@.len(),
            all_wf(old(output)@),
            adjusted(self.spec_adjustments(), coefficients@, old(output)@) is Some,
        ensures
            Some(final(output)@) == adjusted(self.spec_adjustments(), coefficients@, old(output)@),
            all_wf(final(output)@),
    {
        let ghost adj = self.spec_adjustments();
        let ghost c = coefficients@;
        let ghost out0 = output@;
        let d = coefficients.len();
        assert(forall|i: int| 0 <= i < d ==> #[trigger] adjust_entry(adj, c, out0[i], i, c.len()) is Some);
        for i in 0..d
            invariant
                d == c.len(),
                adj == self.spec_adjustments(),
                square_wf(adj, d as nat),
                c == coefficients@,
                output@.len() == out0.len(),
                d <= out0.len(),
                all_wf(output@),
                forall|k: int| 0 <= k < d ==> #[trigger] adjust_entry(adj, c, out0[k], k, c.len()) is Some,
                forall|k: int| 0 <= k < i ==> output@[k] == #[trigger] adjust_entry(adj, c, out0[k], k, c.len()).unwrap(),
                forall|k: int| i <= k < out0.len() ==> output@[k] == #[trigger] out0[k],
        {
            let ghost init = out0[i as int];
            assert(adjust_entry(adj, c, init, i as int, c.len()) is Some);
            for j in 0..d
                invariant
                    d == c.len(),
                    0 <= i < d,
                    adj == self.spec_adjustments(),
                    square_wf(adj, d as nat),
                    c == coefficients@,
                    output@.len() == out0.len(),
                    d <= out0.len(),
                    all_wf(output@),
                    adjust_entry(adj, c, init, i as int, c.len()) is Some,
                    Some(output@[i as int]) == adjust_entry(adj, c, init, i as int, j as nat),
                    forall|k: int| 0 <= k < i ==> output@[k] == #[trigger] adjust_entry(adj, c, out0[k], k, c.len()).unwrap(),
                    forall|k: int| i < k < out0.len() ==> output@[k] == #[trigger] out0[k],
            {
                proof {
                    lemma_adjust_entry_prefix(adj, c, init, i as int, (j + 1) as nat, c.len());
                    self.lemma_view_entry(j as int, i as int);
                    assert(output@[i as int].wf());
                    assert(adj[j as int][i as int].wf());
                }
                let x = axpy(output[i], coefficients[j], self.adjustments[j][i]);
                output.set(i, x);
            }
        }
        proof {
            assert(Some(output@) == adjusted(adj, c, out0)) by {
                assert(output@ =~= adjusted(adj, c, out0).unwrap());
            }
        }
    }

    /// Connects the executable matrix with its model.
    proof fn lemma_view_entry(&self, j: int, i: int)
        requires
            0 <= j < self.adjustments@.len(),
            0 <= i < self.adjustments@[j]@.len(),
        ensures
            self.spec_adjustments()[j][i] == self.adjustments@[j]@[i],
            self.spec_adjustments().len() == self.adjustments@.len(),
            self.spec_adjustments()[j].len() == self.adjustments@[j]@.len(),
    {
    }
}

} // verus!
