//! One LSTM layer: gates from `W*[x; h] + b`, then the standard cell update.
//!
//! `W` is the combined `(4H) x (input_size + H)` matrix in NAM `export_weights`
//! order, row-major, gate order **i, f, g, o**. The exporter pre-sums the input and
//! hidden biases, so there is a single bias vector of length `4H`.

use vstd::prelude::*;
use crate::arith::{exprs, Arith, Expr, Scalar};
use crate::signal::{copy_into, duplicate, lemma_row, Machine};

verus! {

/// `bias` plus the products of `w`, from `base` on, with the first `k` elements of
/// `x`, added up from left to right.
pub open spec fn dot<N>(
    bias: Expr<N>,
    w: Seq<Expr<N>>,
    base: int,
    x: Seq<Expr<N>>,
    k: nat,
) -> Expr<N>
    decreases k,
{
    if k == 0 {
        bias
    } else {
        dot(bias, w, base, x, (k - 1) as nat).plus(w[base + k - 1].times(x[k - 1]))
    }
}

/// An LSTM layer.
#[verifier::ext_equal]
pub struct CellModel<N> {
    pub input_size: nat,
    pub hidden_size: nat,
    /// `(4H) x (input_size + H)`, row-major.
    pub w: Seq<Expr<N>>,
    pub b: Seq<Expr<N>>,
    /// The state that the file was exported with.
    pub h0: Seq<Expr<N>>,
    pub c0: Seq<Expr<N>>,
    /// The current hidden and cell state.
    pub h: Seq<Expr<N>>,
    pub c: Seq<Expr<N>>,
}

impl<N> CellModel<N> {
    pub open spec fn valid(self) -> bool {
        &&& self.w.len() == 4 * self.hidden_size * (self.input_size + self.hidden_size)
        &&& self.b.len() == 4 * self.hidden_size
        &&& self.h0.len() == self.hidden_size
        &&& self.c0.len() == self.hidden_size
        &&& self.h.len() == self.hidden_size
        &&& self.c.len() == self.hidden_size
    }

    /// Pre-activation `g` of the gates for input `x`.
    pub open spec fn gate(self, x: Seq<Expr<N>>, g: int) -> Expr<N> {
        let row = self.input_size + self.hidden_size;
        dot(self.b[g], self.w, g * row, x + self.h, row)
    }

    /// The next cell state.
    pub open spec fn next_c(self, x: Seq<Expr<N>>) -> Seq<Expr<N>> {
        Seq::new(
            self.hidden_size,
            |j: int|
                {
                    let i = self.gate(x, j).sigmoid();
                    let f = self.gate(x, self.hidden_size + j).sigmoid();
                    let g = self.gate(x, 2 * self.hidden_size + j).tanh();
                    f.times(self.c[j]).plus(i.times(g))
                },
        )
    }

    /// The next hidden state.
    pub open spec fn next_h(self, x: Seq<Expr<N>>) -> Seq<Expr<N>> {
        Seq::new(
            self.hidden_size,
            |j: int|
                self.gate(x, 3 * self.hidden_size + j).sigmoid().times(self.next_c(x)[j].tanh()),
        )
    }

    /// The same layer in the state that the file was exported with.
    pub open spec fn fresh(self) -> Self {
        CellModel { h: self.h0, c: self.c0, ..self }
    }

    /// A layer in the state that the file was exported with.
    pub open spec fn made(
        input_size: nat,
        hidden_size: nat,
        w: Seq<Expr<N>>,
        b: Seq<Expr<N>>,
        h0: Seq<Expr<N>>,
        c0: Seq<Expr<N>>,
    ) -> Self {
        CellModel { input_size, hidden_size, w, b, h0, c0, h: h0, c: c0 }
    }
}

impl<N> Machine<(Seq<Expr<N>>, ()), Seq<Expr<N>>> for CellModel<N> {
    open spec fn step(self, x: (Seq<Expr<N>>, ())) -> (Self, Seq<Expr<N>>) {
        (CellModel { h: self.next_h(x.0), c: self.next_c(x.0), ..self }, self.next_h(x.0))
    }
}

/// One LSTM layer, with its state and scratch pre-allocated.
pub struct LstmCell<A: Arith> {
    hidden_size: usize,
    input_size: usize,
    /// `(4H) x (input_size + H)`, row-major.
    w: Vec<Scalar<A>>,
    b: Vec<Scalar<A>>,
    /// Exported initial hidden/cell (length H each); `reset` restores to these.
    h0: Vec<Scalar<A>>,
    c0: Vec<Scalar<A>>,
    h: Vec<Scalar<A>>,
    c: Vec<Scalar<A>>,
    /// `[x ; h]` of the current step.
    xh: Vec<Scalar<A>>,
    gates: Vec<Scalar<A>>,
}

impl<A: Arith> View for LstmCell<A> {
    type V = CellModel<A::Num>;

    closed spec fn view(&self) -> CellModel<A::Num> {
        CellModel {
            input_size: self.input_size as nat,
            hidden_size: self.hidden_size as nat,
            w: exprs(self.w@),
            b: exprs(self.b@),
            h0: exprs(self.h0@),
            c0: exprs(self.c0@),
            h: exprs(self.h@),
            c: exprs(self.c@),
        }
    }
}

impl<A: Arith> LstmCell<A> {
    /// The tensors and the scratch have their sizes.
    pub closed spec fn wf(self) -> bool {
        &&& self@.valid()
        &&& self.xh@.len() == self.input_size + self.hidden_size
        &&& self.gates@.len() == 4 * self.hidden_size
    }

    /// A well-formed cell has a valid model.
    pub proof fn lemma_valid(self)
        requires
            self.wf(),
        ensures
            self@.valid(),
    {
    }

    /// A cell in its exported state.
    pub fn new(
        input_size: usize,
        hidden_size: usize,
        w: Vec<Scalar<A>>,
        b: Vec<Scalar<A>>,
        h0: Vec<Scalar<A>>,
        c0: Vec<Scalar<A>>,
    ) -> (r: Self)
        requires
            w@.len() == 4 * hidden_size * (input_size + hidden_size),
            b@.len() == 4 * hidden_size,
            h0@.len() == hidden_size,
            c0@.len() == hidden_size,
            input_size + hidden_size <= usize::MAX,
        ensures
            r.wf(),
            r@ == CellModel::made(
                input_size as nat,
                hidden_size as nat,
                exprs(w@),
                exprs(b@),
                exprs(h0@),
                exprs(c0@),
            ),
    {
        assert(b.len() == 4 * hidden_size);
        let mut h: Vec<Scalar<A>> = vec![Scalar::zero(); hidden_size];
        let mut c: Vec<Scalar<A>> = vec![Scalar::zero(); hidden_size];
        copy_into(h.as_mut_slice(), h0.as_slice());
        copy_into(c.as_mut_slice(), c0.as_slice());
        LstmCell {
            hidden_size,
            input_size,
            w,
            b,
            h0,
            c0,
            h,
            c,
            xh: vec![Scalar::zero(); input_size + hidden_size],
            gates: vec![Scalar::zero(); 4 * hidden_size],
        }
    }

    /// Width of the state.
    pub fn hidden_size(&self) -> (r: usize)
        ensures
            r == self@.hidden_size,
    {
        self.hidden_size
    }

    /// The hidden state.
    pub fn hidden(&self) -> (r: &[Scalar<A>])
        ensures
            exprs(r@) == self@.h,
            r@.len() == self@.h.len(),
    {
        self.h.as_slice()
    }

    /// Compute the pre-activations of all gates for input `x`.
    fn compute_gates(&mut self, x: &[Scalar<A>])
        requires
            old(self).wf(),
            x@.len() == old(self)@.input_size,
        ensures
            final(self).wf(),
            *final(self) == (LstmCell {
                xh: final(self).xh,
                gates: final(self).gates,
                ..*old(self)
            }),
            forall|g: int|
                0 <= g < 4 * old(self).hidden_size ==> (#[trigger] final(self).gates@[g])@ == old(
                    self,
                )@.gate(exprs(x@), g),
    {
        let ghost m = self@;
        let ghost cat = exprs(x@) + m.h;
        let n: usize = self.input_size;
        let h: usize = self.hidden_size;
        assert(self.xh.len() == n + h);
        let row: usize = n + h;
        let mut k: usize = 0;
        while k < row
            invariant
                *self == (LstmCell { xh: self.xh, ..*old(self) }),
                self@ == m,
                n == self.input_size,
                h == self.hidden_size,
                row == n + h,
                x@.len() == n,
                self.h@.len() == h,
                self.xh@.len() == row,
                cat == exprs(x@) + m.h,
                m == old(self)@,
                m.valid(),
                k <= row,
                forall|q: int| 0 <= q < k ==> (#[trigger] self.xh@[q])@ == cat[q],
            decreases row - k,
        {
            if k < n {
                self.xh[k] = x[k];
            } else {
                self.xh[k] = self.h[k - n];
            }
            k += 1;
        }
        assert(exprs(self.xh@) =~= cat);
        assert(self.gates.len() == 4 * h);
        assert(self.w.len() == 4 * h * row);
        let mut g: usize = 0;
        while g < 4 * h
            invariant
                *self == (LstmCell { xh: self.xh, gates: self.gates, ..*old(self) }),
                self@ == m,
                m == old(self)@,
                m.valid(),
                h == self.hidden_size,
                row == self.input_size + h,
                self.xh@.len() == row,
                exprs(self.xh@) == cat,
                cat == exprs(x@) + m.h,
                self.gates@.len() == 4 * h,
                4 * h <= usize::MAX,
                4 * h * row <= usize::MAX,
                g <= 4 * h,
                forall|q: int|
                    0 <= q < g ==> (#[trigger] self.gates@[q])@ == m.gate(exprs(x@), q),
            decreases 4 * h - g,
        {
            proof {
                lemma_row(4 * h, row as int, g as int);
            }
            let base: usize = g * row;
            let mut acc = self.b[g];
            let mut k: usize = 0;
            while k < row
                invariant
                    self@ == m,
                    m.valid(),
                    h == self.hidden_size,
                    row == self.input_size + h,
                    self.xh@.len() == row,
                    exprs(self.xh@) == cat,
                    g < 4 * h,
                    base == g * row,
                    base + row <= 4 * h * row <= usize::MAX,
                    k <= row,
                    acc@ == dot(m.b[g as int], m.w, base as int, cat, k as nat),
                decreases row - k,
            {
                proof {
                    assert(self.xh@[k as int]@ == exprs(self.xh@)[k as int]);
                    assert(self.w@[base + k]@ == m.w[base + k]);
                }
                acc = acc.plus(self.w[base + k].times(self.xh[k]));
                k += 1;
            }
            self.gates[g] = acc;
            g += 1;
        }
    }

    /// Advance one timestep with input `x` (length `input_size`); the new hidden state
    /// is then [`Self::hidden`].
    pub fn process(&mut self, x: &[Scalar<A>])
        requires
            old(self).wf(),
            x@.len() == old(self)@.input_size,
        ensures
            final(self).wf(),
            final(self)@ == old(self)@.step((exprs(x@), ())).0,
            final(self)@.h == old(self)@.step((exprs(x@), ())).1,
    {
        let ghost m = self@;
        let ghost xs = exprs(x@);
        self.compute_gates(x);
        let h: usize = self.hidden_size;
        assert(self.gates.len() == 4 * h);
        let mut j: usize = 0;
        while j < h
            invariant
                *self == (LstmCell {
                    xh: self.xh,
                    gates: self.gates,
                    h: self.h,
                    c: self.c,
                    ..*old(self)
                }),
                m == old(self)@,
                m.valid(),
                h == self.hidden_size,
                4 * h <= usize::MAX,
                self.gates@.len() == 4 * h,
                self.xh@.len() == self.input_size + self.hidden_size,
                self.h@.len() == h,
                self.c@.len() == h,
                forall|g: int|
                    0 <= g < 4 * h ==> (#[trigger] self.gates@[g])@ == m.gate(xs, g),
                j <= h,
                forall|q: int| 0 <= q < j ==> (#[trigger] self.c@[q])@ == m.next_c(xs)[q],
                forall|q: int| j <= q < h ==> (#[trigger] self.c@[q])@ == m.c[q],
                forall|q: int| 0 <= q < j ==> (#[trigger] self.h@[q])@ == m.next_h(xs)[q],
            decreases h - j,
        {
            let i = self.gates[j].sigmoid();
            let f = self.gates[h + j].sigmoid();
            let g = self.gates[2 * h + j].tanh();
            let o = self.gates[3 * h + j].sigmoid();
            let c = f.times(self.c[j]).plus(i.times(g));
            self.c[j] = c;
            self.h[j] = o.times(c.tanh());
            j += 1;
        }
        proof {
            assert(self@.c =~= m.next_c(xs));
            assert(self@.h =~= m.next_h(xs));
        }
    }

    /// Restore the exported initial state.
    pub fn reset(&mut self)
        requires
            old(self).wf(),
        ensures
            final(self).wf(),
            final(self)@ == old(self)@.fresh(),
    {
        copy_into(self.h.as_mut_slice(), self.h0.as_slice());
        copy_into(self.c.as_mut_slice(), self.c0.as_slice());
    }
}

impl<A: Arith> Clone for LstmCell<A> {
    fn clone(&self) -> (r: Self)
        ensures
            r@ == self@,
            r.wf() == self.wf(),
    {
        LstmCell {
            hidden_size: self.hidden_size,
            input_size: self.input_size,
            w: duplicate(&self.w),
            b: duplicate(&self.b),
            h0: duplicate(&self.h0),
            c0: duplicate(&self.c0),
            h: duplicate(&self.h),
            c: duplicate(&self.c),
            xh: duplicate(&self.xh),
            gates: duplicate(&self.gates),
        }
    }
}

} // verus!
