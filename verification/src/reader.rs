//! Sequential reader over a `.nam` flat weight blob, consumed in NAM's
//! `export_weights` order. Callers validate the total count up front, so `take`
//! never over-runs.

use vstd::prelude::*;
use crate::arith::{exprs, Arith, Expr, Scalar};
use crate::json::JsonNumber;

verus! {

/// The expressions of a run of weights.
pub open spec fn constants<N>(w: Seq<JsonNumber>) -> Seq<Expr<N>> {
    Seq::new(w.len(), |i: int| Expr::Constant(w[i]))
}

/// `n` weights from `at` on.
pub open spec fn span<N>(w: Seq<JsonNumber>, at: nat, n: nat) -> Seq<Expr<N>> {
    constants(w.subrange(at as int, (at + n) as int))
}

/// A position in a weight blob.
pub struct Reader<'a> {
    w: &'a [JsonNumber],
    i: usize,
}

impl<'a> Reader<'a> {
    /// The whole blob.
    pub closed spec fn blob(self) -> Seq<JsonNumber> {
        self.w@
    }

    /// How many weights were taken.
    pub closed spec fn at(self) -> nat {
        self.i as nat
    }

    /// The position lies within the blob.
    pub closed spec fn wf(self) -> bool {
        self.i <= self.w@.len()
    }

    /// A reader at the beginning of `w`.
    pub fn new(w: &'a [JsonNumber]) -> (r: Self)
        ensures
            r.wf(),
            r.blob() == w@,
            r.at() == 0,
    {
        Reader { w, i: 0 }
    }

    /// Take the next `n` weights.
    pub fn take<A: Arith>(&mut self, n: usize) -> (r: Vec<Scalar<A>>)
        requires
            old(self).wf(),
            old(self).at() + n <= old(self).blob().len(),
        ensures
            final(self).wf(),
            final(self).blob() == old(self).blob(),
            final(self).at() == old(self).at() + n,
            r@.len() == n,
            exprs(r@) == span::<A::Num>(old(self).blob(), old(self).at(), n as nat),
    {
        let mut out: Vec<Scalar<A>> = Vec::new();
        assert(self.w.len() == self.w@.len());
        let start: usize = self.i;
        let mut k: usize = 0;
        while k < n
            invariant
                self.w == old(self).w,
                self.i == start,
                start + n <= self.w@.len() <= usize::MAX,
                k <= n,
                out@.len() == k,
                forall|q: int|
                    0 <= q < k ==> (#[trigger] out@[q])@ == Expr::<A::Num>::Constant(
                        self.w@[start + q],
                    ),
            decreases n - k,
        {
            out.push(Scalar::constant(self.w[start + k]));
            k += 1;
        }
        self.i = start + n;
        assert(exprs(out@) =~= span::<A::Num>(old(self).blob(), old(self).at(), n as nat));
        out
    }

    /// Weights not yet consumed.
    pub fn remaining(&self) -> (r: usize)
        requires
            self.wf(),
        ensures
            r == self.blob().len() - self.at(),
    {
        self.w.len() - self.i
    }
}

} // verus!
