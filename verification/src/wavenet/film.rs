//! Feature-wise linear modulation (FiLM).
//!
//! A FiLM block modulates a signal by a per-channel scale (and optionally a shift)
//! computed from a conditioning signal. The scale/shift vector is the output of a 1x1
//! convolution over the conditioning input, producing `(shift ? 2 : 1) * input_dim`
//! rows: the top `input_dim` are the scale, the bottom `input_dim` (when `shift`) are
//! the shift. The modulation is then `out = in * scale (+ shift)`, elementwise.
//!
//! Like every primitive here it has a per-sample path and a planar block path
//! (`[channel * n + t]`), plus in-place (`_`-suffixed) variants. All scratch is
//! pre-allocated in [`FiLM::new`].

use vstd::prelude::*;
use crate::arith::{exprs, Arith, Expr, Scalar};
use crate::signal::{
    column, columns, copy_into, duplicate, front_mut, lemma_columns_one, lemma_planar,
    lemma_planar_distinct, lemma_row, MAX_BLOCK,
};
use crate::wavenet::conv::{lemma_one_by_one, spread, Conv1d, ConvModel};

verus! {

/// A FiLM block.
#[verifier::ext_equal]
pub struct FilmModel<N> {
    /// From the conditioning to the scale and, below it, the shift.
    pub conv: ConvModel<N>,
    /// Width of the modulated signal.
    pub dim: nat,
    pub shift: bool,
}

impl<N> FilmModel<N> {
    /// Rows that the inner 1x1 emits.
    pub open spec fn rows(self) -> nat {
        if self.shift {
            2 * self.dim
        } else {
            self.dim
        }
    }

    /// The inner convolution fits and remembers nothing.
    pub open spec fn valid(self) -> bool {
        &&& self.conv.valid()
        &&& self.conv.out_ch == self.rows()
        &&& self.conv.past.len() == 0
        &&& self.conv == self.conv.fresh()
    }

    /// Row `i` of the modulated signal.
    pub open spec fn modulate(self, x: Expr<N>, ss: Seq<Expr<N>>, i: int) -> Expr<N> {
        if self.shift {
            x.times(ss[i]).plus(ss[self.dim + i])
        } else {
            x.times(ss[i])
        }
    }

    /// The signal `x` modulated by the conditioning `c`.
    pub open spec fn apply(self, x: Seq<Expr<N>>, c: Seq<Expr<N>>) -> Seq<Expr<N>> {
        Seq::new(self.dim, |i: int| self.modulate(x[i], self.conv.apply(c), i))
    }

    /// A FiLM block made of compact grouped weights.
    pub open spec fn made(
        condition_dim: nat,
        dim: nat,
        shift: bool,
        groups: nat,
        weights: Seq<Expr<N>>,
        bias: Seq<Expr<N>>,
    ) -> Self {
        let rows = if shift {
            2 * dim
        } else {
            dim
        };
        FilmModel {
            conv: ConvModel::made(
                condition_dim,
                rows,
                1,
                1,
                spread(condition_dim, rows, 1, groups, weights),
                Some(bias),
            ),
            dim,
            shift,
        }
    }
}

/// A FiLM block with all scratch buffers pre-allocated.
pub struct FiLM<A: Arith> {
    /// `condition_dim -> (shift ? 2 : 1) * input_dim`, kernel 1, bias, grouped.
    cond_to_scale_shift: Conv1d<A>,
    /// Width of the modulated signal (the scale width).
    input_dim: usize,
    /// Whether a shift term is added (scale-only when false).
    shift: bool,
    /// Rows of scale (and shift).
    rows: usize,
    /// Planar `[rows][MAX_BLOCK]` scratch holding the scale (and shift).
    ss: Vec<Scalar<A>>,
}

impl<A: Arith> View for FiLM<A> {
    type V = FilmModel<A::Num>;

    closed spec fn view(&self) -> FilmModel<A::Num> {
        FilmModel {
            conv: self.cond_to_scale_shift@,
            dim: self.input_dim as nat,
            shift: self.shift,
        }
    }
}

impl<A: Arith> FiLM<A> {
    /// The inner convolution and the scratch fit the dimensions.
    pub closed spec fn wf(self) -> bool {
        &&& self.cond_to_scale_shift.wf()
        &&& self@.valid()
        &&& self.rows == self@.rows()
        &&& self.ss@.len() == self.rows * MAX_BLOCK
    }

    /// A well-formed block has a valid model.
    pub proof fn lemma_valid(self)
        requires
            self.wf(),
        ensures
            self@.valid(),
    {
    }

    /// Whether the buffers of a block with that many rows of scale (and shift) have
    /// lengths that fit a `usize`.
    pub open spec fn fits(condition_dim: nat, rows: nat) -> bool {
        &&& condition_dim * MAX_BLOCK <= usize::MAX
        &&& rows * condition_dim <= usize::MAX
        &&& rows * MAX_BLOCK <= usize::MAX
    }

    /// Build a FiLM block from the compact grouped weights of its inner 1x1.
    pub fn new(
        condition_dim: usize,
        input_dim: usize,
        shift: bool,
        groups: usize,
        weights: Vec<Scalar<A>>,
        bias: Vec<Scalar<A>>,
    ) -> (r: Self)
        requires
            groups >= 1,
            Self::fits(condition_dim as nat, bias@.len()),
            condition_dim % groups == 0,
            bias@.len() == if shift {
                2 * input_dim
            } else {
                input_dim as int
            },
            bias@.len() % (groups as nat) == 0,
            weights@.len() == bias@.len() * (condition_dim as int / groups as int),
        ensures
            r.wf(),
            r@.valid(),
            r@ == FilmModel::made(
                condition_dim as nat,
                input_dim as nat,
                shift,
                groups as nat,
                exprs(weights@),
                exprs(bias@),
            ),
    {
        proof {
            assert(bias.len() == bias@.len());
            assert((1 - 1) * 1 == 0);
        }
        let rows: usize = bias.len();
        proof {
            let c = condition_dim as int;
            assert(rows * c * 1 == rows * c);
            assert(rows * (c / groups as int) * 1 == rows * (c / groups as int));
            assert(c * (0 + MAX_BLOCK) == c * MAX_BLOCK);
        }
        let cond_to_scale_shift = Conv1d::new_grouped(
            condition_dim,
            rows,
            1,
            1,
            groups,
            weights,
            Some(bias),
        );
        let r = FiLM {
            cond_to_scale_shift,
            input_dim,
            shift,
            rows,
            ss: vec![Scalar::zero(); rows * MAX_BLOCK],
        };
        assert(r@.conv.fresh().past =~= r@.conv.past);
        r
    }

    /// Rows the inner 1x1 emits: `(shift ? 2 : 1) * input_dim`.
    pub fn out_rows(&self) -> (r: usize)
        requires
            self.wf(),
        ensures
            r == self@.rows(),
    {
        self.rows
    }

    /// Compute the scale (and shift) rows of `n` conditioning columns.
    fn modulation(&mut self, condition: &[Scalar<A>], n: usize)
        requires
            old(self).wf(),
            n <= MAX_BLOCK,
            condition@.len() == old(self)@.conv.in_ch * n,
        ensures
            final(self).wf(),
            *final(self) == (FiLM {
                cond_to_scale_shift: final(self).cond_to_scale_shift,
                ss: final(self).ss,
                ..*old(self)
            }),
            final(self)@ == old(self)@,
            forall|i: int, t: int|
                0 <= i < old(self).rows && 0 <= t < n ==> (#[trigger] final(self).ss@[i * n + t])@
                    == old(self)@.conv.apply(
                    columns(exprs(condition@), old(self)@.conv.in_ch, n as nat)[t],
                )[i],
    {
        let ghost m = self@.conv;
        let ghost cs = columns(exprs(condition@), m.in_ch, n as nat);
        proof {
            assert(self.rows * n <= self.rows * MAX_BLOCK) by (nonlinear_arith)
                requires
                    n <= MAX_BLOCK,
                    0 <= self.rows,
            ;
            assert(self.ss.len() == self.rows * MAX_BLOCK);
        }
        let ss = front_mut(&mut self.ss, self.rows * n);
        self.cond_to_scale_shift.process_block(condition, ss, n);
        proof {
            lemma_one_by_one(m, cs);
            let out = columns(exprs(self.ss@.take(self.rows * n)), m.out_ch, n as nat);
            assert(self.ss@.take(self.rows * n) =~= ss@);
            assert forall|i: int, t: int| 0 <= i < self.rows && 0 <= t < n implies (
            #[trigger] self.ss@[i * n + t])@ == m.apply(cs[t])[i] by {
                lemma_planar(self.rows as int, n as int, i, t);
                assert(out[t][i] == self.ss@[i * n + t]@);
            }
        }
    }

    /// Out-of-place block, planar `[channel * n + t]`. `input`/`out` are
    /// `input_dim * n`, `condition` is `condition_dim * n`, `n <= MAX_BLOCK`. The same
    /// as `n` [`Self::process_sample`] calls.
    pub fn process_block(
        &mut self,
        input: &[Scalar<A>],
        condition: &[Scalar<A>],
        out: &mut [Scalar<A>],
        n: usize,
    )
        requires
            old(self).wf(),
            n <= MAX_BLOCK,
            condition@.len() == old(self)@.conv.in_ch * n,
            input@.len() == old(self)@.dim * n,
            old(out)@.len() == old(self)@.dim * n,
        ensures
            final(self).wf(),
            final(self)@ == old(self)@,
            final(out)@.len() == old(out)@.len(),
            columns(exprs(final(out)@), old(self)@.dim, n as nat) =~= Seq::new(
                n as nat,
                |t: int|
                    old(self)@.apply(
                        columns(exprs(input@), old(self)@.dim, n as nat)[t],
                        columns(exprs(condition@), old(self)@.conv.in_ch, n as nat)[t],
                    ),
            ),
    {
        copy_into(out, input);
        self.process_block_(out, condition, n);
    }

    /// In-place block: `buf` is `input_dim * n`, planar.
    pub fn process_block_(&mut self, buf: &mut [Scalar<A>], condition: &[Scalar<A>], n: usize)
        requires
            old(self).wf(),
            n <= MAX_BLOCK,
            condition@.len() == old(self)@.conv.in_ch * n,
            old(buf)@.len() == old(self)@.dim * n,
        ensures
            final(self).wf(),
            final(self)@ == old(self)@,
            final(buf)@.len() == old(buf)@.len(),
            columns(exprs(final(buf)@), old(self)@.dim, n as nat) =~= Seq::new(
                n as nat,
                |t: int|
                    old(self)@.apply(
                        columns(exprs(old(buf)@), old(self)@.dim, n as nat)[t],
                        columns(exprs(condition@), old(self)@.conv.in_ch, n as nat)[t],
                    ),
            ),
    {
        self.modulation(condition, n);
        let ghost m = self@;
        let ghost cs = columns(exprs(condition@), m.conv.in_ch, n as nat);
        let d: usize = self.input_dim;
        assert(buf.len() == d * n);
        assert(self.ss.len() == self.rows * MAX_BLOCK);
        let mut i: usize = 0;
        while i < d
            invariant
                self.wf(),
                self@ == m,
                n <= MAX_BLOCK,
                d == self.input_dim,
                buf@.len() == d * n <= usize::MAX,
                old(buf)@.len() == d * n,
                self.rows * MAX_BLOCK <= usize::MAX,
                i <= d,
                forall|q: int, t: int|
                    0 <= q < self.rows && 0 <= t < n ==> (#[trigger] self.ss@[q * n + t])@
                        == m.conv.apply(cs[t])[q],
                forall|q: int, t: int|
                    0 <= q < i && 0 <= t < n ==> (#[trigger] buf@[q * n + t])@ == m.modulate(
                        old(buf)@[q * n + t]@,
                        m.conv.apply(cs[t]),
                        q,
                    ),
                forall|q: int|
                    i * n <= q < d * n ==> #[trigger] buf@[q] == old(buf)@[q],
            decreases d - i,
        {
            proof {
                lemma_row(d as int, n as int, i as int);
                lemma_row(self.rows as int, n as int, i as int);
                if self.shift {
                    lemma_row(self.rows as int, n as int, d + i);
                }
                assert(self.rows * n <= self.rows * MAX_BLOCK) by (nonlinear_arith)
                    requires
                        n <= MAX_BLOCK,
                        0 <= self.rows,
                ;
                assert((i + 1) * n == i * n + n) by (nonlinear_arith);
            }
            let row: usize = i * n;
            let low: usize = if self.shift {
                (d + i) * n
            } else {
                row
            };
            let mut t: usize = 0;
            while t < n
                invariant
                    self.wf(),
                    self@ == m,
                    n <= MAX_BLOCK,
                    d == self.input_dim,
                    buf@.len() == d * n <= usize::MAX,
                    old(buf)@.len() == d * n,
                    self.rows * MAX_BLOCK <= usize::MAX,
                    self.rows * n <= self.rows * MAX_BLOCK,
                    i < d,
                    row == i * n,
                    row + n <= d * n,
                    row + n <= self.rows * n,
                    self.shift ==> low == (d + i) * n && low + n <= self.rows * n,
                    !self.shift ==> low == row,
                    t <= n,
                    forall|q: int, u: int|
                        0 <= q < self.rows && 0 <= u < n ==> (#[trigger] self.ss@[q * n + u])@
                            == m.conv.apply(cs[u])[q],
                    forall|q: int, u: int|
                        (0 <= q < i && 0 <= u < n || q == i && 0 <= u < t) ==> (
                        #[trigger] buf@[q * n + u])@ == m.modulate(
                            old(buf)@[q * n + u]@,
                            m.conv.apply(cs[u]),
                            q,
                        ),
                    forall|q: int|
                        row + t <= q < d * n ==> #[trigger] buf@[q] == old(buf)@[q],
                decreases n - t,
            {
                let ghost earlier = buf@;
                let x = buf[row + t].times(self.ss[row + t]);
                if self.shift {
                    buf[row + t] = x.plus(self.ss[low + t]);
                } else {
                    buf[row + t] = x;
                }
                proof {
                    assert(self.ss@[i * n + t]@ == m.conv.apply(cs[t as int])[i as int]);
                    if self.shift {
                        assert(self.ss@[(d + i) * n + t]@ == m.conv.apply(cs[t as int])[d + i]);
                    }
                    assert forall|q: int, u: int|
                        (0 <= q < i && 0 <= u < n || q == i && 0 <= u < t + 1) implies (
                    #[trigger] buf@[q * n + u])@ == m.modulate(
                        old(buf)@[q * n + u]@,
                        m.conv.apply(cs[u]),
                        q,
                    ) by {
                        lemma_planar(d as int, n as int, q, u);
                        if q * n + u == row + t {
                            lemma_planar_distinct(n as int, q, u, i as int, t as int);
                        } else {
                            assert(buf@[q * n + u] == earlier[q * n + u]);
                        }
                    }
                }
                t += 1;
            }
            i += 1;
        }
        proof {
            let xs = columns(exprs(old(buf)@), m.dim, n as nat);
            let ys = columns(exprs(buf@), m.dim, n as nat);
            assert forall|t: int| 0 <= t < n implies #[trigger] ys[t] =~= m.apply(xs[t], cs[t]) by {
                assert forall|q: int| 0 <= q < m.dim implies #[trigger] ys[t][q] == m.apply(
                    xs[t],
                    cs[t],
                )[q] by {
                    lemma_planar(d as int, n as int, q, t);
                    assert(ys[t] == column(exprs(buf@), m.dim, n as nat, t));
                    assert(buf@[q * n + t]@ == m.modulate(
                        old(buf)@[q * n + t]@,
                        m.conv.apply(cs[t]),
                        q,
                    ));
                }
            }
        }
    }

    /// Out-of-place: `out = input * scale (+ shift)`. `input`/`out` are `input_dim`
    /// wide, `condition` is `condition_dim` wide.
    pub fn process_sample(
        &mut self,
        input: &[Scalar<A>],
        condition: &[Scalar<A>],
        out: &mut [Scalar<A>],
    )
        requires
            old(self).wf(),
            condition@.len() == old(self)@.conv.in_ch,
            input@.len() == old(self)@.dim,
            old(out)@.len() == old(self)@.dim,
        ensures
            final(self).wf(),
            final(self)@ == old(self)@,
            final(out)@.len() == old(out)@.len(),
            exprs(final(out)@) == old(self)@.apply(exprs(input@), exprs(condition@)),
    {
        copy_into(out, input);
        self.process_sample_(out, condition);
    }

    /// In-place: `buf = buf * scale (+ shift)`. `buf` is `input_dim` wide, `condition`
    /// is `condition_dim` wide.
    pub fn process_sample_(&mut self, buf: &mut [Scalar<A>], condition: &[Scalar<A>])
        requires
            old(self).wf(),
            condition@.len() == old(self)@.conv.in_ch,
            old(buf)@.len() == old(self)@.dim,
        ensures
            final(self).wf(),
            final(self)@ == old(self)@,
            final(buf)@.len() == old(buf)@.len(),
            exprs(final(buf)@) == old(self)@.apply(exprs(old(buf)@), exprs(condition@)),
    {
        let ghost x = exprs(buf@);
        self.process_block_(buf, condition, 1);
        proof {
            lemma_columns_one(x);
            lemma_columns_one(exprs(condition@));
            lemma_columns_one(exprs(buf@));
            assert(seq![exprs(buf@)][0] == exprs(buf@));
            assert(exprs(buf@) == columns(exprs(buf@), self@.dim, 1)[0]);
        }
    }
}

impl<A: Arith> Clone for FiLM<A> {
    fn clone(&self) -> (r: Self)
        ensures
            r@ == self@,
            r.wf() == self.wf(),
    {
        FiLM {
            cond_to_scale_shift: self.cond_to_scale_shift.clone(),
            input_dim: self.input_dim,
            shift: self.shift,
            rows: self.rows,
            ss: duplicate(&self.ss),
        }
    }
}

} // verus!
