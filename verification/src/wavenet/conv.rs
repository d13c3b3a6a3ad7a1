//! Causal, dilated 1-D convolution with a pre-allocated ring buffer.
//!
//! This is the one stateful primitive in the WaveNet forward pass. Weights are laid
//! out `[out_ch][in_ch][kernel]` row-major, followed by an optional `[out_ch]` bias.
//!
//! A 1x1 convolution (`kernel = 1`) degenerates to a per-sample matrix multiply; the
//! same type is reused for the rechannel, input-mixer, 1x1 and head layers.
//!
//! Two entry points share one streaming history: the per-sample
//! [`Conv1d::process_sample`], and the block [`Conv1d::process_block`], which stages
//! `[history ++ block]` into a contiguous planar scratch so that its inner loop runs
//! over time with a stationary weight.

use vstd::prelude::*;
use crate::arith::{exprs, Arith, Expr, Scalar};
use crate::signal::{
    column, columns, duplicate, lemma_planar, lemma_planar_distinct, lemma_row, run, silence,
    Machine, MAX_BLOCK,
};

verus! {

/// A dilated causal convolution and the input columns it remembers.
#[verifier::ext_equal]
pub struct ConvModel<N> {
    pub in_ch: nat,
    pub out_ch: nat,
    pub kernel: nat,
    pub dilation: nat,
    /// `[out_ch][in_ch][kernel]`, row-major.
    pub weights: Seq<Expr<N>>,
    pub bias: Option<Seq<Expr<N>>>,
    /// The latest input columns, oldest first: as many as the oldest tap reaches
    /// back.
    pub past: Seq<Seq<Expr<N>>>,
}

impl<N> ConvModel<N> {
    /// How many columns the oldest tap lies before the newest.
    pub open spec fn reach(self) -> nat {
        ((self.kernel - 1) * self.dilation) as nat
    }

    pub open spec fn valid(self) -> bool {
        &&& self.kernel >= 1
        &&& self.weights.len() == self.out_ch * self.in_ch * self.kernel
        &&& self.bias matches Some(b) ==> b.len() == self.out_ch
        &&& self.past.len() == self.reach()
        &&& forall|h: int| 0 <= h < self.past.len() ==> (#[trigger] self.past[h]).len() == self.in_ch
    }

    /// The sum for output channel `o` after `k` whole taps and the first `j` channels
    /// of the next one. `window` holds the remembered columns and the newest; tap `k`
    /// reads its column `k * dilation`.
    pub open spec fn partial(
        self,
        window: Seq<Seq<Expr<N>>>,
        o: int,
        k: nat,
        j: nat,
    ) -> Expr<N>
        decreases k, j,
    {
        if j > 0 {
            self.partial(window, o, k, (j - 1) as nat).plus(
                self.weights[(o * self.in_ch + (j - 1)) * self.kernel + k].times(
                    window[(k * self.dilation) as int][j - 1],
                ),
            )
        } else if k > 0 {
            self.partial(window, o, (k - 1) as nat, self.in_ch)
        } else {
            match self.bias {
                Some(b) => b[o],
                None => Expr::Zero,
            }
        }
    }

    /// The output column for a window of input columns.
    pub open spec fn answer(self, window: Seq<Seq<Expr<N>>>) -> Seq<Expr<N>> {
        Seq::new(self.out_ch, |o: int| self.partial(window, o, self.kernel, 0))
    }

    /// The output of a 1x1 convolution for the input column `x`.
    pub open spec fn apply(self, x: Seq<Expr<N>>) -> Seq<Expr<N>> {
        self.answer(seq![x])
    }

    /// The same convolution, remembering silence.
    pub open spec fn fresh(self) -> Self {
        ConvModel { past: Seq::new(self.reach(), |h: int| silence(self.in_ch)), ..self }
    }

    /// A convolution that remembers silence.
    pub open spec fn made(
        in_ch: nat,
        out_ch: nat,
        kernel: nat,
        dilation: nat,
        weights: Seq<Expr<N>>,
        bias: Option<Seq<Expr<N>>>,
    ) -> Self {
        ConvModel { in_ch, out_ch, kernel, dilation, weights, bias, past: Seq::empty() }.fresh()
    }
}

impl<N> Machine<Seq<Expr<N>>, Seq<Expr<N>>> for ConvModel<N> {
    open spec fn step(self, x: Seq<Expr<N>>) -> (Self, Seq<Expr<N>>) {
        let window = self.past.push(x);
        (ConvModel { past: window.drop_first(), ..self }, self.answer(window))
    }
}

/// After a run a convolution remembers the end of its history and the run's inputs,
/// and each output was computed from a window of the two.
pub proof fn lemma_conv_run<N>(m: ConvModel<N>, xs: Seq<Seq<Expr<N>>>)
    ensures
        run(m, xs).0 == (ConvModel { past: (m.past + xs).skip(xs.len() as int), ..m }),
        run(m, xs).1.len() == xs.len(),
        forall|t: int|
            0 <= t < xs.len() ==> #[trigger] run(m, xs).1[t] == m.answer(
                (m.past + xs).subrange(t, t + m.past.len() + 1),
            ),
    decreases xs.len(),
{
    let past = m.past;
    if xs.len() == 0 {
        assert((past + xs).skip(0) =~= past);
    } else {
        let ys = xs.drop_last();
        let n = ys.len() as int;
        lemma_conv_run(m, ys);
        let q = run(m, ys).0;
        let window = q.past.push(xs.last());
        assert(window =~= (past + xs).subrange(n, n + past.len() + 1));
        assert(window.drop_first() =~= (past + xs).skip(n + 1));
        assert forall|w: Seq<Seq<Expr<N>>>| #[trigger] q.answer(w) == m.answer(w) by {
            lemma_conv_answer(q, m, w);
        }
        assert forall|t: int| 0 <= t < xs.len() implies #[trigger] run(m, xs).1[t] == m.answer(
            (past + xs).subrange(t, t + past.len() + 1),
        ) by {
            if t < n {
                assert(run(m, xs).1[t] == run(m, ys).1[t]);
                assert((past + ys).subrange(t, t + past.len() + 1) =~= (past + xs).subrange(
                    t,
                    t + past.len() + 1,
                ));
            }
        }
    }
}

/// A run changes only what a convolution remembers, and keeps it valid.
pub proof fn lemma_conv_kept<N>(m: ConvModel<N>, xs: Seq<Seq<Expr<N>>>)
    ensures
        run(m, xs).0 == (ConvModel { past: run(m, xs).0.past, ..m }),
        run(m, xs).0.fresh() == m.fresh(),
        run(m, xs).0.past.len() == m.past.len(),
{
    lemma_conv_run(m, xs);
}

/// What a convolution remembers has no part in how it weighs a given window.
pub proof fn lemma_conv_answer<N>(a: ConvModel<N>, b: ConvModel<N>, window: Seq<Seq<Expr<N>>>)
    requires
        a == (ConvModel { past: a.past, ..b }),
    ensures
        a.answer(window) == b.answer(window),
{
    assert forall|o: int| 0 <= o < a.out_ch implies a.partial(window, o, a.kernel, 0) == b.partial(
        window,
        o,
        b.kernel,
        0,
    ) by {
        lemma_partial_same(a, b, window, o, a.kernel, 0);
    }
    assert(a.answer(window) =~= b.answer(window));
}

proof fn lemma_partial_same<N>(
    a: ConvModel<N>,
    b: ConvModel<N>,
    window: Seq<Seq<Expr<N>>>,
    o: int,
    k: nat,
    j: nat,
)
    requires
        a == (ConvModel { past: a.past, ..b }),
    ensures
        a.partial(window, o, k, j) == b.partial(window, o, k, j),
    decreases k, j,
{
    if j > 0 {
        lemma_partial_same(a, b, window, o, k, (j - 1) as nat);
    } else if k > 0 {
        lemma_partial_same(a, b, window, o, (k - 1) as nat, a.in_ch);
    }
}

/// A convolution that remembers nothing answers each column on its own.
pub proof fn lemma_one_by_one<N>(m: ConvModel<N>, xs: Seq<Seq<Expr<N>>>)
    requires
        m.past.len() == 0,
    ensures
        run(m, xs).0 == m,
        run(m, xs).1 =~= Seq::new(xs.len(), |t: int| m.apply(xs[t])),
{
    lemma_conv_run(m, xs);
    assert((m.past + xs).skip(xs.len() as int) =~= m.past);
    assert forall|t: int| 0 <= t < xs.len() implies run(m, xs).1[t] == m.apply(xs[t]) by {
        assert((m.past + xs).subrange(t, t + 1) =~= seq![xs[t]]);
    }
}

/// `i` brought back into a ring of `len` slots, for an `i` at most one turn beyond it.
spec fn wrap(i: int, len: int) -> int {
    if i < len {
        i
    } else {
        i - len
    }
}

/// The dense weights of a grouped convolution. Its compact weights are laid out
/// `[out_ch][in_ch / groups][kernel]`; an output channel sees only the input channels
/// of its own group, so every other weight is zero.
pub open spec fn spread<N>(
    in_ch: nat,
    out_ch: nat,
    kernel: nat,
    groups: nat,
    w: Seq<Expr<N>>,
) -> Seq<Expr<N>> {
    Seq::new(
        (out_ch * in_ch * kernel) as nat,
        |i: int|
            {
                let o = i / (kernel as int) / (in_ch as int);
                let j = i / (kernel as int) % (in_ch as int);
                let k = i % (kernel as int);
                let group_out = (out_ch / groups) as int;
                let group_in = (in_ch / groups) as int;
                if o / group_out == j / group_in {
                    w[(o * group_in + j % group_in) * kernel + k]
                } else {
                    Expr::Zero
                }
            },
    )
}

/// Where index `i` of a dense weight tensor finds its compact weight.
proof fn lemma_spread_index(in_ch: int, out_ch: int, kernel: int, groups: int, i: int)
    requires
        0 <= i < out_ch * in_ch * kernel,
        0 <= in_ch,
        0 <= out_ch,
        0 < kernel,
        0 < groups,
        in_ch % groups == 0,
        out_ch % groups == 0,
    ensures
        0 < in_ch,
        0 < in_ch / groups,
        0 < out_ch / groups,
        0 <= i / kernel / in_ch < out_ch,
        0 <= i / kernel % in_ch < in_ch,
        0 <= ((i / kernel / in_ch) * (in_ch / groups) + (i / kernel % in_ch) % (in_ch / groups))
            * kernel + i % kernel < out_ch * (in_ch / groups) * kernel,
        0 <= (i / kernel / in_ch) * (in_ch / groups) + (i / kernel % in_ch) % (in_ch / groups)
            < out_ch * (in_ch / groups),
        0 <= (i / kernel / in_ch) * (in_ch / groups),
{
    let row = i / kernel;
    assert(in_ch > 0 && out_ch > 0) by (nonlinear_arith)
        requires
            0 <= i < out_ch * in_ch * kernel,
            0 <= in_ch,
            0 <= out_ch,
            0 < kernel,
    ;
    assert(0 <= row < out_ch * in_ch) by (nonlinear_arith)
        requires
            row == i / kernel,
            0 <= i < out_ch * in_ch * kernel,
            0 < kernel,
    ;
    let o = row / in_ch;
    assert(0 <= o < out_ch) by (nonlinear_arith)
        requires
            o == row / in_ch,
            0 <= row < out_ch * in_ch,
            0 < in_ch,
    ;
    let gi = in_ch / groups;
    let go = out_ch / groups;
    assert(gi > 0) by (nonlinear_arith)
        requires
            gi == in_ch / groups,
            in_ch % groups == 0,
            in_ch > 0,
            groups > 0,
    ;
    assert(go > 0) by (nonlinear_arith)
        requires
            go == out_ch / groups,
            out_ch % groups == 0,
            out_ch > 0,
            groups > 0,
    ;
    let j = row % in_ch;
    lemma_planar(out_ch, gi, o, j % gi);
    lemma_planar(out_ch * gi, kernel, o * gi + j % gi, i % kernel);
}

/// A dilated causal convolution, with its history in a pre-allocated ring buffer.
pub struct Conv1d<A: Arith> {
    in_ch: usize,
    out_ch: usize,
    kernel: usize,
    dilation: usize,
    /// `[out_ch][in_ch][kernel]`, row-major.
    weights: Vec<Scalar<A>>,
    bias: Option<Vec<Scalar<A>>>,
    /// Ring of the most recent `ring_len` input columns, `in_ch` values each.
    ring: Vec<Scalar<A>>,
    ring_len: usize,
    /// Index of the column written most recently.
    pos: usize,
    /// Planar `[in_ch][ring_len - 1 + MAX_BLOCK]` staging for the block path.
    staged: Vec<Scalar<A>>,
    staged_stride: usize,
}

impl<A: Arith> View for Conv1d<A> {
    type V = ConvModel<A::Num>;

    closed spec fn view(&self) -> ConvModel<A::Num> {
        ConvModel {
            in_ch: self.in_ch as nat,
            out_ch: self.out_ch as nat,
            kernel: self.kernel as nat,
            dilation: self.dilation as nat,
            weights: exprs(self.weights@),
            bias: match self.bias {
                Some(b) => Some(exprs(b@)),
                None => None,
            },
            past: self.window().drop_first(),
        }
    }
}

impl<A: Arith> Conv1d<A> {
    /// The column in slot `c` of the ring.
    spec fn slot_column(self, c: int) -> Seq<Expr<A::Num>> {
        Seq::new(self.in_ch as nat, |j: int| self.ring@[c * self.in_ch + j]@)
    }

    /// The columns of the ring, oldest first.
    spec fn window(self) -> Seq<Seq<Expr<A::Num>>> {
        Seq::new(
            self.ring_len as nat,
            |i: int| self.slot_column(wrap(self.pos + 1 + i, self.ring_len as int)),
        )
    }

    /// The pre-allocated buffers have the sizes that the dimensions ask for.
    pub closed spec fn wf(self) -> bool {
        &&& self.kernel >= 1
        &&& self.weights@.len() == self.out_ch * self.in_ch * self.kernel
        &&& self.bias matches Some(b) ==> b@.len() == self.out_ch
        &&& self.ring_len == (self.kernel - 1) * self.dilation + 1
        &&& self.ring@.len() == self.ring_len * self.in_ch
        &&& self.pos < self.ring_len
        &&& self.staged_stride == self.ring_len - 1 + MAX_BLOCK
        &&& self.staged@.len() == self.in_ch * self.staged_stride
    }

    /// A well-formed convolution has a valid model.
    pub proof fn lemma_valid(self)
        requires
            self.wf(),
        ensures
            self@.valid(),
    {
    }

    /// Number of input channels.
    pub fn in_ch(&self) -> (r: usize)
        ensures
            r == self@.in_ch,
    {
        self.in_ch
    }

    /// Number of output channels.
    pub fn out_ch(&self) -> (r: usize)
        ensures
            r == self@.out_ch,
    {
        self.out_ch
    }

    /// Number of taps.
    pub fn kernel(&self) -> (r: usize)
        ensures
            r == self@.kernel,
    {
        self.kernel
    }

    /// How many columns the oldest tap lies before the newest.
    pub fn reach(&self) -> (r: usize)
        requires
            self.wf(),
        ensures
            r == self@.reach(),
    {
        self.ring_len - 1
    }

    /// The slot of the ring that holds column `i` of the window.
    fn slot(&self, i: usize) -> (r: usize)
        requires
            self.pos < self.ring_len,
            i < self.ring_len,
        ensures
            r == wrap(self.pos + 1 + i, self.ring_len as int),
            r < self.ring_len,
    {
        let rest: usize = self.ring_len - 1 - self.pos;
        if i < rest {
            self.pos + 1 + i
        } else {
            i - rest
        }
    }

    /// Store column `t` of a planar block of `n` samples as the newest.
    fn push(&mut self, block: &[Scalar<A>], n: usize, t: usize)
        requires
            old(self).wf(),
            block@.len() == old(self).in_ch * n,
            t < n,
        ensures
            final(self).wf(),
            final(self).staged == old(self).staged,
            *final(self) == (Conv1d { ring: final(self).ring, pos: final(self).pos, ..*old(self) }),
            final(self).window() == old(self).window().drop_first().push(
                column(exprs(block@), old(self).in_ch as nat, n as nat, t as int),
            ),
    {
        self.pos = if self.pos + 1 == self.ring_len {
            0
        } else {
            self.pos + 1
        };
        let ghost len = self.ring_len as int;
        let ghost w = self.in_ch as int;
        proof {
            lemma_row(len, w, self.pos as int);
            assert(self.ring.len() == len * w);
            assert(block.len() == w * n);
        }
        let base: usize = self.pos * self.in_ch;
        let mut j: usize = 0;
        while j < self.in_ch
            invariant
                *self == (Conv1d { ring: self.ring, pos: self.pos, ..*old(self) }),
                len == self.ring_len,
                w == self.in_ch,
                self.pos < len,
                self.pos == wrap(old(self).pos + 1, len),
                base == self.pos * w,
                base + w <= len * w <= usize::MAX,
                w * n <= usize::MAX,
                self.ring@.len() == len * w,
                old(self).ring@.len() == len * w,
                block@.len() == w * n,
                t < n,
                j <= w,
                forall|i: int|
                    0 <= i < len * w ==> #[trigger] self.ring@[i] == if base <= i < base + j {
                        block@[(i - base) * n + t]
                    } else {
                        old(self).ring@[i]
                    },
            decreases self.in_ch - j,
        {
            proof {
                lemma_planar(w, n as int, j as int, t as int);
            }
            self.ring[base + j] = block[j * n + t];
            j += 1;
        }
        proof {
            let x = column(exprs(block@), w as nat, n as nat, t as int);
            let before = old(self).window();
            assert forall|c: int| 0 <= c < len && c != self.pos implies #[trigger] self.slot_column(c)
                =~= old(self).slot_column(c) by {
                assert forall|jj: int| 0 <= jj < w implies self.slot_column(c)[jj] == old(
                    self,
                ).slot_column(c)[jj] by {
                    lemma_planar(len, w, c, jj);
                    if base <= c * w + jj < base + w {
                        lemma_planar_distinct(w, c, jj, self.pos as int, c * w + jj - base);
                    }
                }
            }
            assert(self.slot_column(self.pos as int) =~= x) by {
                assert forall|jj: int| 0 <= jj < w implies self.slot_column(self.pos as int)[jj]
                    == x[jj] by {
                    lemma_planar(len, w, self.pos as int, jj);
                    lemma_planar(w, n as int, jj, t as int);
                }
            }
            assert forall|i: int| 0 <= i < len implies #[trigger] self.window()[i]
                == before.drop_first().push(x)[i] by {
                if i < len - 1 {
                    assert(before.drop_first()[i] == before[i + 1]);
                }
            }
            assert(self.window() =~= before.drop_first().push(x));
        }
    }

    /// The bias of output channel `o`, or zero.
    fn bias_of(&self, o: usize) -> (r: Scalar<A>)
        requires
            self.wf(),
            o < self.out_ch,
        ensures
            forall|window: Seq<Seq<Expr<A::Num>>>|
                r@ == #[trigger] self@.partial(window, o as int, 0, 0),
    {
        match &self.bias {
            Some(b) => b[o],
            None => Scalar::zero(),
        }
    }

    /// The weight of tap `k` from input channel `j` to output channel `o`.
    fn weight(&self, o: usize, j: usize, k: usize) -> (r: Scalar<A>)
        requires
            self.wf(),
            o < self.out_ch,
            j < self.in_ch,
            k < self.kernel,
        ensures
            r@ == self@.weights[(o * self.in_ch + j) * self.kernel + k],
    {
        proof {
            let rows = self.out_ch * self.in_ch;
            assert(self.weights.len() == rows * self.kernel);
            lemma_planar(self.out_ch as int, self.in_ch as int, o as int, j as int);
            lemma_planar(rows, self.kernel as int, o * self.in_ch + j, k as int);
            if rows > usize::MAX {
                assert(rows * self.kernel >= rows) by (nonlinear_arith)
                    requires
                        rows >= 0,
                        self.kernel >= 1,
                ;
            }
        }
        self.weights[(o * self.in_ch + j) * self.kernel + k]
    }

    /// Push one input column (`in_ch` values) and write the convolution result
    /// (`out_ch` values) into `out`.
    pub fn process_sample(&mut self, input: &[Scalar<A>], out: &mut [Scalar<A>])
        requires
            old(self).wf(),
            input@.len() == old(self)@.in_ch,
            old(out)@.len() == old(self)@.out_ch,
        ensures
            final(self).wf(),
            final(out)@.len() == old(out)@.len(),
            (final(self)@, exprs(final(out)@)) == old(self)@.step(exprs(input@)),
    {
        let ghost x = exprs(input@);
        let ghost past = self@.past;
        let ghost before = self@;
        assert(self.in_ch * 1 == self.in_ch);
        self.push(input, 1, 0);
        let ghost window = past.push(x);
        proof {
            assert(column(x, self.in_ch as nat, 1, 0) =~= x);
            assert(self.window() =~= window);
            assert(self@ == before.step(x).0);
        }
        let mut o: usize = 0;
        while o < self.out_ch
            invariant
                self.wf(),
                self@ == before.step(x).0,
                before == (ConvModel { past: before.past, ..self@ }),
                self.window() == window,
                o <= self.out_ch,
                out@.len() == self.out_ch,
                forall|q: int|
                    0 <= q < o ==> (#[trigger] out@[q])@ == self@.partial(window, q, self@.kernel, 0),
            decreases self.out_ch - o,
        {
            let mut acc = self.bias_of(o);
            let mut k: usize = 0;
            assert(acc@ == self@.partial(window, o as int, 0, 0));
            while k < self.kernel
                invariant
                    self.wf(),
                    self.window() == window,
                    o < self.out_ch,
                    k <= self.kernel,
                    acc@ == self@.partial(window, o as int, k as nat, 0),
                decreases self.kernel - k,
            {
                proof {
                    lemma_tap(self.kernel as int, self.dilation as int, k as int);
                }
                // Tap `k` reads the input `(kernel - 1 - k) * dilation` samples ago.
                let col: usize = self.slot(k * self.dilation);
                proof {
                    lemma_row(self.ring_len as int, self.in_ch as int, col as int);
                    assert(self.ring.len() == self.ring_len * self.in_ch);
                }
                let base: usize = col * self.in_ch;
                let mut j: usize = 0;
                while j < self.in_ch
                    invariant
                        self.wf(),
                        self.window() == window,
                        o < self.out_ch,
                        k < self.kernel,
                        j <= self.in_ch,
                        0 <= k * self.dilation < self.ring_len,
                        col < self.ring_len,
                        base == col * self.in_ch,
                        self.ring_len * self.in_ch <= usize::MAX,
                        window[k * self.dilation] == self.slot_column(col as int),
                        acc@ == self@.partial(window, o as int, k as nat, j as nat),
                    decreases self.in_ch - j,
                {
                    proof {
                        lemma_planar(self.ring_len as int, self.in_ch as int, col as int, j as int);
                    }
                    acc = acc.plus(self.weight(o, j, k).times(self.ring[base + j]));
                    j += 1;
                }
                k += 1;
            }
            out[o] = acc;
            o += 1;
        }
        proof {
            lemma_conv_answer(before, self@, window);
            assert(exprs(out@) =~= before.answer(window));
        }
    }

    /// What the staging area holds for channel `j` at time `h`.
    spec fn staged_at(self, j: int, h: int) -> Expr<A::Num> {
        self.staged@[j * self.staged_stride + h]@
    }

    /// Lay out the history followed by a planar block of `n` samples, one contiguous
    /// row per input channel.
    fn stage(&mut self, block: &[Scalar<A>], n: usize)
        requires
            old(self).wf(),
            block@.len() == old(self).in_ch * n,
            n <= MAX_BLOCK,
        ensures
            final(self).wf(),
            *final(self) == (Conv1d { staged: final(self).staged, ..*old(self) }),
            forall|j: int, h: int|
                0 <= j < old(self).in_ch && 0 <= h < old(self).ring_len - 1 + n
                    ==> #[trigger] final(self).staged_at(j, h) == (old(self)@.past + columns(
                    exprs(block@),
                    old(self).in_ch as nat,
                    n as nat,
                ))[h][j],
    {
        let hist: usize = self.ring_len - 1;
        let s: usize = self.staged_stride;
        let ghost past = self@.past;
        let ghost cols = columns(exprs(block@), self.in_ch as nat, n as nat);
        let ghost line = past + cols;
        assert(past.len() == hist && cols.len() == n);
        assert(block.len() == self.in_ch * n);
        assert(self.ring.len() == self.ring_len * self.in_ch);
        assert(self.staged.len() == self.in_ch * s);
        let mut j: usize = 0;
        while j < self.in_ch
            invariant
                *self == (Conv1d { staged: self.staged, ..*old(self) }),
                old(self).wf(),
                self.wf(),
                hist == self.ring_len - 1,
                s == self.staged_stride,
                n <= MAX_BLOCK,
                past == old(self)@.past,
                cols == columns(exprs(block@), self.in_ch as nat, n as nat),
                line == past + cols,
                past.len() == hist,
                block@.len() == self.in_ch * n,
                self.in_ch * n <= usize::MAX,
                self.ring_len * self.in_ch <= usize::MAX,
                self.in_ch * s <= usize::MAX,
                j <= self.in_ch,
                forall|jj: int, h: int|
                    0 <= jj < j && 0 <= h < hist + n ==> #[trigger] self.staged_at(jj, h)
                        == line[h][jj],
            decreases self.in_ch - j,
        {
            proof {
                lemma_row(self.in_ch as int, s as int, j as int);
                lemma_row(self.in_ch as int, n as int, j as int);
            }
            let row: usize = j * s;
            let src: usize = j * n;
            let mut h: usize = 0;
            while h < hist + n
                invariant
                    *self == (Conv1d { staged: self.staged, ..*old(self) }),
                    old(self).wf(),
                    self.wf(),
                    hist == self.ring_len - 1,
                    s == self.staged_stride,
                    n <= MAX_BLOCK,
                    past == old(self)@.past,
                    cols == columns(exprs(block@), self.in_ch as nat, n as nat),
                    line == past + cols,
                    past.len() == hist,
                    block@.len() == self.in_ch * n,
                    self.ring_len * self.in_ch <= usize::MAX,
                    self.in_ch * s <= usize::MAX,
                    self.in_ch * n <= usize::MAX,
                    j < self.in_ch,
                    row == j * s,
                    row + s <= self.in_ch * s,
                    src == j * n,
                    src + n <= self.in_ch * n,
                    h <= hist + n,
                    forall|jj: int, hh: int|
                        (0 <= jj < j && 0 <= hh < hist + n || jj == j && 0 <= hh < h)
                            ==> #[trigger] self.staged_at(jj, hh) == line[hh][jj],
                decreases hist + n - h,
            {
                let ghost earlier = *self;
                if h < hist {
                    let col: usize = self.slot(h + 1);
                    proof {
                        lemma_planar(self.ring_len as int, self.in_ch as int, col as int, j as int);
                        assert(past[h as int] == self.slot_column(col as int));
                    }
                    self.staged[row + h] = self.ring[col * self.in_ch + j];
                } else {
                    proof {
                        assert(line[h as int] == cols[h - hist]);
                    }
                    self.staged[row + h] = block[src + (h - hist)];
                }
                proof {
                    assert(self.staged_at(j as int, h as int) == line[h as int][j as int]);
                    assert forall|jj: int, hh: int|
                        (0 <= jj < j && 0 <= hh < hist + n || jj == j && 0 <= hh < h + 1) implies
                        #[trigger] self.staged_at(jj, hh) == line[hh][jj] by {
                        if !(jj == j && hh == h) {
                            lemma_planar(self.in_ch as int, s as int, jj, hh);
                            if jj * s + hh == row + h {
                                lemma_planar_distinct(s as int, jj, hh, j as int, h as int);
                            }
                            assert(earlier.staged_at(jj, hh) == line[hh][jj]);
                        }
                    }
                }
                h += 1;
            }
            j += 1;
        }
        assert(self.window() =~= old(self).window());
    }

    /// Add what tap `k` of input channel `j` contributes to row `o` of a planar block.
    fn add_tap(&self, out: &mut [Scalar<A>], o: usize, k: usize, j: usize, n: usize)
        requires
            self.wf(),
            old(out)@.len() == self.out_ch * n,
            o < self.out_ch,
            k < self.kernel,
            j < self.in_ch,
            n <= MAX_BLOCK,
        ensures
            final(out)@.len() == old(out)@.len(),
            forall|i: int|
                0 <= i < old(out)@.len() && !(o * n <= i < o * n + n) ==> #[trigger] final(out)@[i]
                    == old(out)@[i],
            forall|t: int|
                0 <= t < n ==> (#[trigger] final(out)@[o * n + t])@ == old(out)@[o * n + t]@.plus(
                    self@.weights[(o * self.in_ch + j) * self.kernel + k].times(
                        self.staged_at(j as int, k * self.dilation + t),
                    ),
                ),
    {
        let w = self.weight(o, j, k);
        proof {
            lemma_tap(self.kernel as int, self.dilation as int, k as int);
            lemma_row(self.in_ch as int, self.staged_stride as int, j as int);
            lemma_row(self.out_ch as int, n as int, o as int);
            assert(self.staged.len() == self.in_ch * self.staged_stride);
            assert(out.len() == self.out_ch * n);
        }
        let base: usize = j * self.staged_stride + k * self.dilation;
        let row: usize = o * n;
        let mut t: usize = 0;
        while t < n
            invariant
                self.wf(),
                o < self.out_ch,
                n <= MAX_BLOCK,
                0 <= k * self.dilation <= self.ring_len - 1,
                base == j * self.staged_stride + k * self.dilation,
                j * self.staged_stride + self.staged_stride <= self.in_ch * self.staged_stride
                    <= usize::MAX,
                row == o * n,
                row + n <= out@.len() <= usize::MAX,
                out@.len() == old(out)@.len(),
                w@ == self@.weights[(o * self.in_ch + j) * self.kernel + k],
                t <= n,
                forall|i: int|
                    0 <= i < out@.len() && !(row <= i < row + t) ==> #[trigger] out@[i] == old(
                        out,
                    )@[i],
                forall|u: int|
                    0 <= u < t ==> (#[trigger] out@[row + u])@ == old(out)@[row + u]@.plus(
                        w@.times(self.staged_at(j as int, k * self.dilation + u)),
                    ),
            decreases n - t,
        {
            out[row + t] = out[row + t].plus(w.times(self.staged[base + t]));
            t += 1;
        }
    }

    /// Compute row `o` of the output from the staging area.
    fn compute_row(
        &self,
        out: &mut [Scalar<A>],
        o: usize,
        n: usize,
        Ghost(line): Ghost<Seq<Seq<Expr<A::Num>>>>,
    )
        requires
            self.wf(),
            old(out)@.len() == self.out_ch * n,
            o < self.out_ch,
            n <= MAX_BLOCK,
            line.len() == self.ring_len - 1 + n,
            forall|j: int, h: int|
                0 <= j < self.in_ch && 0 <= h < line.len() ==> #[trigger] self.staged_at(j, h)
                    == line[h][j],
        ensures
            final(out)@.len() == old(out)@.len(),
            forall|i: int|
                0 <= i < old(out)@.len() && !(o * n <= i < o * n + n) ==> #[trigger] final(out)@[i]
                    == old(out)@[i],
            forall|t: int|
                0 <= t < n ==> (#[trigger] final(out)@[o * n + t])@ == self@.partial(
                    line.subrange(t, t + self.ring_len),
                    o as int,
                    self@.kernel,
                    0,
                ),
    {
        let b = self.bias_of(o);
        proof {
            lemma_row(self.out_ch as int, n as int, o as int);
            assert(out.len() == self.out_ch * n);
        }
        let row: usize = o * n;
        let ghost win = |t: int| line.subrange(t, t + self.ring_len);
        let mut t: usize = 0;
        while t < n
            invariant
                row == o * n,
                row + n <= out@.len() <= usize::MAX,
                out@.len() == old(out)@.len(),
                t <= n,
                forall|i: int|
                    0 <= i < out@.len() && !(row <= i < row + t) ==> #[trigger] out@[i] == old(
                        out,
                    )@[i],
                forall|u: int| 0 <= u < t ==> #[trigger] out@[row + u] == b,
            decreases n - t,
        {
            out[row + t] = b;
            t += 1;
        }
        let mut k: usize = 0;
        while k < self.kernel
            invariant
                self.wf(),
                o < self.out_ch,
                n <= MAX_BLOCK,
                row == o * n,
                row + n <= out@.len() <= usize::MAX,
                out@.len() == self.out_ch * n,
                out@.len() == old(out)@.len(),
                line.len() == self.ring_len - 1 + n,
                forall|j: int, h: int|
                    0 <= j < self.in_ch && 0 <= h < line.len() ==> #[trigger] self.staged_at(j, h)
                        == line[h][j],
                k <= self.kernel,
                forall|i: int|
                    0 <= i < out@.len() && !(row <= i < row + n) ==> #[trigger] out@[i] == old(
                        out,
                    )@[i],
                forall|u: int|
                    0 <= u < n ==> (#[trigger] out@[row + u])@ == self@.partial(
                        line.subrange(u, u + self.ring_len),
                        o as int,
                        k as nat,
                        0,
                    ),
            decreases self.kernel - k,
        {
            proof {
                lemma_tap(self.kernel as int, self.dilation as int, k as int);
            }
            let mut j: usize = 0;
            while j < self.in_ch
                invariant
                    self.wf(),
                    o < self.out_ch,
                    n <= MAX_BLOCK,
                    row == o * n,
                    row + n <= out@.len() <= usize::MAX,
                    out@.len() == self.out_ch * n,
                    out@.len() == old(out)@.len(),
                    line.len() == self.ring_len - 1 + n,
                    forall|j: int, h: int|
                        0 <= j < self.in_ch && 0 <= h < line.len() ==> #[trigger] self.staged_at(
                            j,
                            h,
                        ) == line[h][j],
                    k < self.kernel,
                    0 <= k * self.dilation <= self.ring_len - 1,
                    j <= self.in_ch,
                    forall|i: int|
                        0 <= i < out@.len() && !(row <= i < row + n) ==> #[trigger] out@[i] == old(
                            out,
                        )@[i],
                    forall|u: int|
                        0 <= u < n ==> (#[trigger] out@[row + u])@ == self@.partial(
                            line.subrange(u, u + self.ring_len),
                            o as int,
                            k as nat,
                            j as nat,
                        ),
                decreases self.in_ch - j,
            {
                let ghost earlier = out@;
                self.add_tap(out, o, k, j, n);
                proof {
                    assert forall|u: int| 0 <= u < n implies (#[trigger] out@[row + u])@
                        == self@.partial(
                        line.subrange(u, u + self.ring_len),
                        o as int,
                        k as nat,
                        (j + 1) as nat,
                    ) by {
                        assert(out@[o * n + u]@ == earlier[o * n + u]@.plus(
                            self@.weights[(o * self.in_ch + j) * self.kernel + k].times(
                                self.staged_at(j as int, k * self.dilation + u),
                            ),
                        ));
                        assert(earlier[row + u]@ == self@.partial(
                            line.subrange(u, u + self.ring_len),
                            o as int,
                            k as nat,
                            j as nat,
                        ));
                    }
                }
                j += 1;
            }
            k += 1;
        }
    }

    /// Process `n` input columns at once, in **planar** layout: `block_in` is
    /// `in_ch * n` laid out `[channel * n + t]`, and `block_out` is `out_ch * n` the
    /// same way. Equivalent to `n` calls of [`Self::process_sample`], and leaves the
    /// streaming history in the identical state, so the two entry points are freely
    /// interchangeable across calls.
    ///
    /// `n` must be `<= MAX_BLOCK`; callers chunk longer runs.
    pub fn process_block(&mut self, block_in: &[Scalar<A>], block_out: &mut [Scalar<A>], n: usize)
        requires
            old(self).wf(),
            n <= MAX_BLOCK,
            block_in@.len() == old(self)@.in_ch * n,
            old(block_out)@.len() == old(self)@.out_ch * n,
        ensures
            final(self).wf(),
            final(block_out)@.len() == old(block_out)@.len(),
            (final(self)@, columns(exprs(final(block_out)@), old(self)@.out_ch, n as nat)) == run(
                old(self)@,
                columns(exprs(block_in@), old(self)@.in_ch, n as nat),
            ),
    {
        let ghost before = self@;
        let ghost xs = columns(exprs(block_in@), self@.in_ch, n as nat);
        if n == 1 {
            self.process_sample(block_in, block_out);
            proof {
                assert(xs.drop_last() =~= Seq::empty());
                assert(xs.last() =~= exprs(block_in@));
                assert(columns(exprs(block_out@), before.out_ch, 1) =~= seq![exprs(block_out@)]) by {
                    assert(column(exprs(block_out@), before.out_ch, 1, 0) =~= exprs(block_out@));
                }
                assert(run(before, xs.drop_last()) == (before, Seq::<Seq<Expr<A::Num>>>::empty()));
                assert(run(before, xs).1 =~= seq![exprs(block_out@)]);
            }
            return;
        }
        self.stage(block_in, n);
        let ghost line = before.past + xs;
        let ghost staged = *self;
        proof {
            assert(self.window() =~= old(self).window());
            assert(self@ == before);
        }
        let mut o: usize = 0;
        while o < self.out_ch
            invariant
                *self == staged,
                self.wf(),
                self@ == before,
                n <= MAX_BLOCK,
                line == before.past + xs,
                line.len() == self.ring_len - 1 + n,
                forall|j: int, h: int|
                    0 <= j < self.in_ch && 0 <= h < line.len() ==> #[trigger] self.staged_at(j, h)
                        == line[h][j],
                o <= self.out_ch,
                block_out@.len() == self.out_ch * n,
                forall|q: int, t: int|
                    0 <= q < o && 0 <= t < n ==> (#[trigger] block_out@[q * n + t])@
                        == before.partial(
                        line.subrange(t, t + self.ring_len),
                        q,
                        before.kernel,
                        0,
                    ),
            decreases self.out_ch - o,
        {
            let ghost earlier = block_out@;
            self.compute_row(block_out, o, n, Ghost(line));
            proof {
                assert forall|q: int, t: int| 0 <= q < o + 1 && 0 <= t < n implies (
                #[trigger] block_out@[q * n + t])@ == before.partial(
                    line.subrange(t, t + self.ring_len),
                    q,
                    before.kernel,
                    0,
                ) by {
                    lemma_planar(self.out_ch as int, n as int, q, t);
                    if q < o {
                        lemma_row(o as int, n as int, q);
                        assert(block_out@[q * n + t] == earlier[q * n + t]);
                    }
                }
            }
            o += 1;
        }
        // Advance the ring by every column of the block.
        let mut t: usize = 0;
        while t < n
            invariant
                self.wf(),
                *self == (Conv1d { ring: self.ring, pos: self.pos, ..staged }),
                staged@ == before,
                xs == columns(exprs(block_in@), self.in_ch as nat, n as nat),
                before.past.len() == self.ring_len - 1,
                block_in@.len() == self.in_ch * n,
                t <= n,
                self.window().drop_first() == (before.past + xs).subrange(
                    t as int,
                    t + self.ring_len - 1,
                ),
            decreases n - t,
        {
            let ghost earlier = self.window();
            self.push(block_in, n, t);
            proof {
                assert(self.window().drop_first() =~= (before.past + xs).subrange(
                    t + 1,
                    t + self.ring_len,
                ));
            }
            t += 1;
        }
        proof {
            lemma_conv_run(before, xs);
            let ys = columns(exprs(block_out@), before.out_ch, n as nat);
            assert(self@.past =~= (before.past + xs).skip(n as int));
            assert(self@ == run(before, xs).0);
            assert forall|t: int| 0 <= t < n implies ys[t] == #[trigger] run(before, xs).1[t] by {
                assert forall|q: int| 0 <= q < before.out_ch implies ys[t][q] == before.partial(
                    line.subrange(t, t + before.past.len() + 1),
                    q,
                    before.kernel,
                    0,
                ) by {
                    lemma_planar(before.out_ch as int, n as int, q, t);
                }
                assert(ys[t] =~= before.answer(line.subrange(t, t + before.past.len() + 1)));
            }
            assert(ys =~= run(before, xs).1);
        }
    }

    /// Clear the history to silence.
    pub fn reset(&mut self)
        requires
            old(self).wf(),
        ensures
            final(self).wf(),
            final(self)@ == old(self)@.fresh(),
    {
        let len: usize = self.ring.len();
        let mut i: usize = 0;
        while i < len
            invariant
                *self == (Conv1d { ring: self.ring, ..*old(self) }),
                self.ring@.len() == len,
                old(self).ring@.len() == len,
                i <= len,
                forall|q: int| 0 <= q < i ==> (#[trigger] self.ring@[q])@ == Expr::<A::Num>::Zero,
            decreases len - i,
        {
            self.ring[i] = Scalar::zero();
            i += 1;
        }
        self.pos = self.ring_len - 1;
        proof {
            self.lemma_silent();
        }
    }

    /// A ring of silence.
    proof fn lemma_silent(self)
        requires
            self.wf(),
            forall|q: int|
                0 <= q < self.ring@.len() ==> (#[trigger] self.ring@[q])@ == Expr::<A::Num>::Zero,
        ensures
            self@ == self@.fresh(),
    {
        assert forall|c: int| 0 <= c < self.ring_len implies #[trigger] self.slot_column(c)
            =~= silence(self.in_ch as nat) by {
            assert forall|j: int| 0 <= j < self.in_ch implies self.slot_column(c)[j]
                == Expr::<A::Num>::Zero by {
                lemma_planar(self.ring_len as int, self.in_ch as int, c, j);
            }
        }
        assert(self@.past =~= self@.fresh().past);
    }

    /// Whether the buffers of a convolution with these dimensions have lengths that
    /// fit a `usize`.
    pub open spec fn fits(in_ch: nat, kernel: nat, dilation: nat) -> bool {
        &&& (kernel - 1) * dilation + 1 + MAX_BLOCK <= usize::MAX
        &&& in_ch * ((kernel - 1) * dilation + MAX_BLOCK) <= usize::MAX
    }

    /// A convolution that remembers silence.
    pub fn new(
        in_ch: usize,
        out_ch: usize,
        kernel: usize,
        dilation: usize,
        weights: Vec<Scalar<A>>,
        bias: Option<Vec<Scalar<A>>>,
    ) -> (r: Self)
        requires
            kernel >= 1,
            weights@.len() == out_ch * in_ch * kernel,
            bias matches Some(b) ==> b@.len() == out_ch,
            Self::fits(in_ch as nat, kernel as nat, dilation as nat),
        ensures
            r.wf(),
            r@.valid(),
            r@ == ConvModel::made(
                in_ch as nat,
                out_ch as nat,
                kernel as nat,
                dilation as nat,
                exprs(weights@),
                match bias {
                    Some(b) => Some(exprs(b@)),
                    None => None,
                },
            ),
    {
        proof {
            lemma_tap(kernel as int, dilation as int, kernel - 1);
            assert(((kernel - 1) * dilation + 1) * in_ch <= in_ch * ((kernel - 1) * dilation
                + MAX_BLOCK)) by (nonlinear_arith)
                requires
                    0 <= (kernel - 1) * dilation,
                    0 <= in_ch,
                    MAX_BLOCK == 1024,
            ;
            assert(((kernel - 1) * dilation + 1) * in_ch >= 0) by (nonlinear_arith)
                requires
                    0 <= (kernel - 1) * dilation,
                    0 <= in_ch,
            ;
        }
        let ring_len: usize = (kernel - 1) * dilation + 1;
        let staged_stride: usize = (ring_len - 1) + MAX_BLOCK;
        let r = Conv1d {
            in_ch,
            out_ch,
            kernel,
            dilation,
            weights,
            bias,
            ring: vec![Scalar::zero(); ring_len * in_ch],
            ring_len,
            pos: ring_len - 1,
            staged: vec![Scalar::zero(); in_ch * staged_stride],
            staged_stride,
        };
        proof {
            r.lemma_silent();
            r.lemma_valid();
        }
        r
    }

    /// A grouped convolution that remembers silence. `weights` is compact,
    /// `[out_ch][in_ch / groups][kernel]`.
    pub fn new_grouped(
        in_ch: usize,
        out_ch: usize,
        kernel: usize,
        dilation: usize,
        groups: usize,
        weights: Vec<Scalar<A>>,
        bias: Option<Vec<Scalar<A>>>,
    ) -> (r: Self)
        requires
            kernel >= 1,
            groups >= 1,
            in_ch % groups == 0,
            out_ch % groups == 0,
            weights@.len() == out_ch * (in_ch as int / groups as int) * kernel,
            out_ch * in_ch * kernel <= usize::MAX,
            bias matches Some(b) ==> b@.len() == out_ch,
            Self::fits(in_ch as nat, kernel as nat, dilation as nat),
        ensures
            r.wf(),
            r@.valid(),
            r@ == ConvModel::made(
                in_ch as nat,
                out_ch as nat,
                kernel as nat,
                dilation as nat,
                spread(in_ch as nat, out_ch as nat, kernel as nat, groups as nat, exprs(weights@)),
                match bias {
                    Some(b) => Some(exprs(b@)),
                    None => None,
                },
            ),
    {
        proof {
            assert(0 <= out_ch * in_ch <= out_ch * in_ch * kernel) by (nonlinear_arith)
                requires
                    kernel >= 1,
                    0 <= in_ch,
                    0 <= out_ch,
            ;
        }
        let total: usize = out_ch * in_ch * kernel;
        assert(weights.len() == weights@.len());
        let ghost wide = spread(
            in_ch as nat,
            out_ch as nat,
            kernel as nat,
            groups as nat,
            exprs(weights@),
        );
        let mut dense: Vec<Scalar<A>> = Vec::new();
        let mut i: usize = 0;
        while i < total
            invariant
                kernel >= 1,
                groups >= 1,
                in_ch % groups == 0,
                out_ch % groups == 0,
                weights@.len() == out_ch * (in_ch as int / groups as int) * kernel,
                weights@.len() <= usize::MAX,
                total == out_ch * in_ch * kernel,
                wide == spread(
                    in_ch as nat,
                    out_ch as nat,
                    kernel as nat,
                    groups as nat,
                    exprs(weights@),
                ),
                i <= total,
                dense@.len() == i,
                forall|q: int| 0 <= q < i ==> (#[trigger] dense@[q])@ == wide[q],
            decreases total - i,
        {
            proof {
                lemma_spread_index(
                    in_ch as int,
                    out_ch as int,
                    kernel as int,
                    groups as int,
                    i as int,
                );
                assert(weights.len() == weights@.len());
                let a = (i as int / kernel as int / in_ch as int) * (in_ch as int / groups as int)
                    + (i as int / kernel as int % in_ch as int) % (in_ch as int / groups as int);
                assert(a <= a * kernel) by (nonlinear_arith)
                    requires
                        0 <= a,
                        kernel >= 1,
                ;
            }
            let group_in: usize = in_ch / groups;
            let group_out: usize = out_ch / groups;
            let row: usize = i / kernel;
            let o: usize = row / in_ch;
            let j: usize = row % in_ch;
            if o / group_out == j / group_in {
                dense.push(weights[(o * group_in + j % group_in) * kernel + i % kernel]);
            } else {
                dense.push(Scalar::zero());
            }
            i += 1;
        }
        assert(exprs(dense@) =~= wide);
        Conv1d::new(in_ch, out_ch, kernel, dilation, dense, bias)
    }
}

/// Tap `k` of a kernel reads within the ring.
proof fn lemma_tap(kernel: int, dilation: int, k: int)
    requires
        0 <= k < kernel,
        0 <= dilation,
    ensures
        0 <= k * dilation <= (kernel - 1) * dilation,
{
    assert(0 <= k * dilation <= (kernel - 1) * dilation) by (nonlinear_arith)
        requires
            0 <= k <= kernel - 1,
            0 <= dilation,
    ;
}

impl<A: Arith> Clone for Conv1d<A> {
    fn clone(&self) -> (r: Self)
        ensures
            r@ == self@,
            r.wf() == self.wf(),
    {
        let bias = match &self.bias {
            Some(b) => Some(duplicate(b)),
            None => None,
        };
        let r = Conv1d {
            in_ch: self.in_ch,
            out_ch: self.out_ch,
            kernel: self.kernel,
            dilation: self.dilation,
            weights: duplicate(&self.weights),
            bias,
            ring: duplicate(&self.ring),
            ring_len: self.ring_len,
            pos: self.pos,
            staged: duplicate(&self.staged),
            staged_stride: self.staged_stride,
        };
        proof {
            assert forall|c: int| #[trigger] r.slot_column(c) =~= self.slot_column(c) by {}
            assert(r.window() =~= self.window());
        }
        r
    }
}

} // verus!
