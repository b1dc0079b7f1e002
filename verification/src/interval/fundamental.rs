//! The "fundamental" of two notes: the highest note of which both are overtones, as far as the
//! stack type can tell.
use crate::interval::stack::Stack;
use crate::interval::stacktype::StackType;
use crate::rational::Rational;
use vstd::prelude::*;

verus! {

pub trait HasFundamental: StackType {
    /// The fundamental of the stack with target coefficients `a` and the stack with coefficients
    /// `b_target`, `b_actual` can be computed without overflow.
    spec fn fundamental_ok(a: Seq<i64>, b_target: Seq<i64>, b_actual: Seq<Rational>) -> bool;

    /// `r_target`, `r_actual` are the coefficients of the fundamental of the stack with target
    /// coefficients `a` and the stack with coefficients `b_target`, `b_actual`.
    spec fn is_fundamental(
        a: Seq<i64>,
        b_target: Seq<i64>,
        b_actual: Seq<Rational>,
        r_target: Seq<i64>,
        r_actual: Seq<Rational>,
    ) -> bool;

    /// Replaces `b` by the fundamental of `a` and `b`.
    fn fundamental_inplace(a: &Stack<Self>, b: &mut Stack<Self>)
        requires
            Self::fundamental_ok(a.target@, old(b).target@, old(b).actual@),
        ensures
            Self::is_fundamental(
                a.target@,
                old(b).target@,
                old(b).actual@,
                final(b).target@,
                final(b).actual@,
            ),
    ;

    /// The fundamental of `a` and `b`.
    fn fundamental(a: &Stack<Self>, b: &Stack<Self>) -> (r: Stack<Self>)
        requires
            Self::fundamental_ok(a.target@, b.target@, b.actual@),
        ensures
            Self::is_fundamental(a.target@, b.target@, b.actual@, r.target@, r.actual@),
    {
        let mut r = b.clone();
        Self::fundamental_inplace(a, &mut r);
        r
    }
}

} // verus!
