//! Optional post-stack head: a chain of `activation -> Conv1d` applied to the final
//! layer-array head output after `head_scale` scaling.
//!
//! Each conv has dilation 1 and a bias; the head's single `activation` is applied
//! before *each* conv (in place over that conv's input), then the conv runs. The last
//! conv's output is the model output (no re-scaling). Uses the planar `[ch][t]` block
//! convention of the other parts.

use vstd::prelude::*;
use crate::arith::{exprs, Arith, Expr, Scalar};
use crate::engine::stages_reach;
use crate::signal::{
    column, columns, copy_into, duplicate, front, front_columns, front_mut, lemma_block_len,
    lemma_chain_empty, lemma_chain_len, lemma_chain_run, lemma_columns_one, lemma_planar,
    lemma_run_len, lemma_run_one, paired, run, Chain, Machine, MAX_BLOCK,
};
use crate::wavenet::activation::Activation;
use crate::wavenet::conv::{lemma_conv_kept, Conv1d, ConvModel};
use vstd::arithmetic::overflow::CheckedUsize;

verus! {

/// One stage of a post-stack head: an activation, then a convolution.
#[verifier::ext_equal]
pub struct HeadStage<N> {
    pub activation: Activation,
    pub conv: ConvModel<N>,
}

impl<N> HeadStage<N> {
    /// What the convolution is given.
    pub open spec fn enter(self, x: Seq<Expr<N>>) -> Seq<Expr<N>> {
        Seq::new(x.len(), |i: int| self.activation.of(x[i]))
    }

    /// The same stage, remembering silence.
    pub open spec fn fresh(self) -> Self {
        HeadStage { conv: self.conv.fresh(), ..self }
    }
}

impl<N> Machine<(Seq<Expr<N>>, ()), Seq<Expr<N>>> for HeadStage<N> {
    open spec fn step(self, x: (Seq<Expr<N>>, ())) -> (Self, Seq<Expr<N>>) {
        let r = self.conv.step(self.enter(x.0));
        (HeadStage { conv: r.0, ..self }, r.1)
    }
}

/// A post-stack head: stages in series.
#[verifier::ext_equal]
pub struct HeadModel<N> {
    pub stages: Seq<HeadStage<N>>,
}

impl<N> HeadModel<N> {
    /// Width of the input.
    pub open spec fn in_channels(self) -> nat {
        self.stages[0].conv.in_ch
    }

    /// Width of the output.
    pub open spec fn out_channels(self) -> nat {
        self.stages.last().conv.out_ch
    }

    /// Every convolution takes what the one before it gives.
    pub open spec fn valid(self) -> bool {
        &&& self.stages.len() > 0
        &&& forall|i: int| 0 <= i < self.stages.len() ==> (#[trigger] self.stages[i]).conv.valid()
        &&& forall|i: int|
            0 < i < self.stages.len() ==> (#[trigger] self.stages[i]).conv.in_ch
                == self.stages[i - 1].conv.out_ch
    }

    /// How many samples an output depends on: one, and one more for every tap beyond
    /// the first of each convolution.
    pub open spec fn receptive_field(self) -> nat
        decreases self.stages.len(),
    {
        if self.stages.len() == 0 {
            1
        } else {
            (HeadModel { stages: self.stages.drop_last() }.receptive_field()
                + self.stages.last().conv.kernel - 1) as nat
        }
    }

    /// The same head, remembering silence.
    pub open spec fn fresh(self) -> Self {
        HeadModel { stages: Seq::new(self.stages.len(), |i: int| self.stages[i].fresh()) }
    }
}

/// No context, at each of `n` times.
pub open spec fn no_context(n: nat) -> Seq<()> {
    Seq::new(n, |t: int| ())
}

impl<N> Machine<Seq<Expr<N>>, Seq<Expr<N>>> for HeadModel<N> {
    open spec fn step(self, x: Seq<Expr<N>>) -> (Self, Seq<Expr<N>>) {
        let r = Chain { stages: self.stages }.step((x, ()));
        (HeadModel { stages: r.0.stages }, r.1)
    }
}

/// A head runs as the chain of its stages does.
pub proof fn lemma_head_run<N>(m: HeadModel<N>, xs: Seq<Seq<Expr<N>>>)
    ensures
        ({
            let chain = run(Chain { stages: m.stages }, paired(xs, no_context(xs.len())));
            &&& run(m, xs).0.stages == chain.0.stages
            &&& run(m, xs).1 == chain.1
            &&& chain.1.len() == xs.len()
        }),
    decreases xs.len(),
{
    let cs = no_context(xs.len());
    lemma_run_len(Chain { stages: m.stages }, paired(xs, cs));
    if xs.len() > 0 {
        lemma_head_run(m, xs.drop_last());
        assert(paired(xs, cs).drop_last() =~= paired(
            xs.drop_last(),
            no_context(xs.drop_last().len()),
        ));
    }
}

/// A stage may be run part by part: activate the whole stream, then convolve it.
pub proof fn lemma_stage_run<N>(m: HeadStage<N>, xs: Seq<Seq<Expr<N>>>, cs: Seq<()>)
    requires
        xs.len() == cs.len(),
    ensures
        ({
            let es = Seq::new(xs.len(), |t: int| m.enter(xs[t]));
            let r = run(m.conv, es);
            let whole = run(m, paired(xs, cs));
            &&& whole.0 == (HeadStage { conv: r.0, ..m })
            &&& whole.1 == r.1
            &&& whole.0.fresh() == m.fresh()
            &&& whole.0.conv.in_ch == m.conv.in_ch
            &&& whole.0.conv.out_ch == m.conv.out_ch
            &&& whole.0.conv.kernel == m.conv.kernel
        }),
    decreases xs.len(),
{
    let es = Seq::new(xs.len(), |t: int| m.enter(xs[t]));
    if xs.len() > 0 {
        let es1 = Seq::new(xs.drop_last().len(), |t: int| m.enter(xs.drop_last()[t]));
        assert(es.drop_last() =~= es1);
        assert(paired(xs, cs).drop_last() =~= paired(xs.drop_last(), cs.drop_last()));
        lemma_stage_run(m, xs.drop_last(), cs.drop_last());
    } else {
        assert(es =~= Seq::empty());
    }
    lemma_conv_kept(m.conv, es);
}

/// Whether `b` is `a` after a run: the same stages, differing only in what they
/// remember.
pub open spec fn same_stages<N>(a: Seq<HeadStage<N>>, b: Seq<HeadStage<N>>) -> bool {
    &&& a.len() == b.len()
    &&& forall|i: int|
        0 <= i < a.len() ==> (#[trigger] b[i]).fresh() == a[i].fresh() && b[i].conv.in_ch
            == a[i].conv.in_ch && b[i].conv.out_ch == a[i].conv.out_ch && b[i].conv.kernel
            == a[i].conv.kernel
}

/// A run changes only what the stages of a head remember.
proof fn lemma_stages_kept<N>(stages: Seq<HeadStage<N>>, xs: Seq<Seq<Expr<N>>>, cs: Seq<()>)
    requires
        xs.len() == cs.len(),
    ensures
        same_stages(stages, run(Chain { stages }, paired(xs, cs)).0.stages),
    decreases stages.len(),
{
    let whole = run(Chain { stages }, paired(xs, cs));
    lemma_chain_len(Chain { stages }, paired(xs, cs));
    if stages.len() > 0 {
        lemma_chain_run(stages, xs, cs);
        let front = run(Chain { stages: stages.drop_last() }, paired(xs, cs));
        lemma_stages_kept(stages.drop_last(), xs, cs);
        lemma_stage_run(stages.last(), front.1, cs);
        assert forall|i: int| 0 <= i < stages.len() implies (
        #[trigger] whole.0.stages[i]).fresh() == stages[i].fresh() && whole.0.stages[i].conv.in_ch
            == stages[i].conv.in_ch && whole.0.stages[i].conv.out_ch == stages[i].conv.out_ch
            && whole.0.stages[i].conv.kernel == stages[i].conv.kernel by {
            if i < stages.len() - 1 {
                assert(whole.0.stages[i] == front.0.stages[i]);
                assert(stages.drop_last()[i] == stages[i]);
            }
        }
    }
}

/// A run changes only what a head remembers.
pub proof fn lemma_head_kept<N>(m: HeadModel<N>, xs: Seq<Seq<Expr<N>>>)
    ensures
        run(m, xs).0.fresh() == m.fresh(),
        same_stages(m.stages, run(m, xs).0.stages),
{
    lemma_head_run(m, xs);
    lemma_stages_kept(m.stages, xs, no_context(xs.len()));
    assert(run(m, xs).0.fresh().stages =~= m.fresh().stages);
}

/// A post-stack head: `(activation, conv)` pairs run in chain order.
pub struct PostStackHead<A: Arith> {
    convs: Vec<(Activation, Conv1d<A>)>,
    in_channels: usize,
    out_channels: usize,
    /// Widest signal of the chain.
    width: usize,
    /// Planar `[width][MAX_BLOCK]` ping-pong scratch: what the next conv reads.
    scratch_a: Vec<Scalar<A>>,
    /// Planar `[width][MAX_BLOCK]` ping-pong scratch: what it writes.
    scratch_b: Vec<Scalar<A>>,
}

/// What the pairs of a chain compute.
pub open spec fn stage_views<A: Arith>(convs: Seq<(Activation, Conv1d<A>)>) -> Seq<
    HeadStage<A::Num>,
> {
    Seq::new(convs.len(), |i: int| HeadStage { activation: convs[i].0, conv: convs[i].1@ })
}

impl<A: Arith> View for PostStackHead<A> {
    type V = HeadModel<A::Num>;

    closed spec fn view(&self) -> HeadModel<A::Num> {
        HeadModel { stages: stage_views(self.convs@) }
    }
}

/// Apply an activation to every number of a planar block.
fn activate_block<A: Arith>(act: Activation, buf: &mut [Scalar<A>])
    ensures
        final(buf)@.len() == old(buf)@.len(),
        forall|i: int| 0 <= i < old(buf)@.len() ==> (#[trigger] final(buf)@[i])@ == act.of(old(buf)@[i]@),
{
    let mut i: usize = 0;
    while i < buf.len()
        invariant
            buf@.len() == old(buf)@.len(),
            i <= buf@.len(),
            forall|q: int| 0 <= q < i ==> (#[trigger] buf@[q])@ == act.of(old(buf)@[q]@),
            forall|q: int| i <= q < buf@.len() ==> #[trigger] buf@[q] == old(buf)@[q],
        decreases buf@.len() - i,
    {
        buf[i] = act.apply(buf[i]);
        i += 1;
    }
}

impl<A: Arith> PostStackHead<A> {
    /// The convolutions fit together and the scratch buffers hold every signal.
    pub closed spec fn wf(self) -> bool {
        &&& self@.valid()
        &&& forall|i: int| 0 <= i < self.convs@.len() ==> (#[trigger] self.convs@[i]).1.wf()
        &&& self.in_channels == self@.in_channels()
        &&& self.out_channels == self@.out_channels()
        &&& self.in_channels <= self.width
        &&& forall|i: int|
            0 <= i < self.convs@.len() ==> (#[trigger] self.convs@[i]).1@.out_ch <= self.width
        &&& self.scratch_a@.len() == self.width * MAX_BLOCK
        &&& self.scratch_b@.len() == self.width * MAX_BLOCK
    }

    /// A well-formed head has a valid model.
    pub proof fn lemma_valid(self)
        requires
            self.wf(),
        ensures
            self@.valid(),
    {
    }

    /// Build a head from convolutions that fit together.
    pub fn new(convs: Vec<(Activation, Conv1d<A>)>) -> (r: Self)
        requires
            (HeadModel { stages: stage_views(convs@) }).valid(),
            forall|i: int| 0 <= i < convs@.len() ==> (#[trigger] convs@[i]).1.wf(),
            convs@[0].1@.in_ch * MAX_BLOCK <= usize::MAX,
            forall|i: int|
                0 <= i < convs@.len() ==> (#[trigger] convs@[i]).1@.out_ch * MAX_BLOCK
                    <= usize::MAX,
        ensures
            r.wf(),
            r@ == (HeadModel { stages: stage_views(convs@) }),
    {
        let ghost m = HeadModel { stages: stage_views(convs@) };
        assert(m.stages.len() == convs@.len());
        let in_channels: usize = convs[0].1.in_ch();
        let out_channels: usize = convs[convs.len() - 1].1.out_ch();
        assert(m.stages[0] == HeadStage { activation: convs@[0].0, conv: convs@[0].1@ });
        let mut width: usize = in_channels;
        let mut i: usize = 0;
        while i < convs.len()
            invariant
                i <= convs@.len(),
                in_channels <= width,
                width * MAX_BLOCK <= usize::MAX,
                forall|j: int| 0 <= j < i ==> (#[trigger] convs@[j]).1@.out_ch <= width,
                forall|j: int|
                    0 <= j < convs@.len() ==> (#[trigger] convs@[j]).1@.out_ch * MAX_BLOCK
                        <= usize::MAX,
            decreases convs@.len() - i,
        {
            let w: usize = convs[i].1.out_ch();
            if w > width {
                width = w;
            }
            i += 1;
        }
        let r = PostStackHead {
            convs,
            in_channels,
            out_channels,
            width,
            scratch_a: vec![Scalar::zero(); width * MAX_BLOCK],
            scratch_b: vec![Scalar::zero(); width * MAX_BLOCK],
        };
        assert(r@.stages =~= m.stages);
        r
    }

    /// Width of the input.
    pub fn in_channels(&self) -> (r: usize)
        requires
            self.wf(),
        ensures
            r == self@.in_channels(),
    {
        self.in_channels
    }

    /// Width of the output.
    pub fn out_channels(&self) -> (r: usize)
        requires
            self.wf(),
        ensures
            r == self@.out_channels(),
    {
        self.out_channels
    }

    /// Receptive field: one, plus `kernel - 1` for every convolution of the chain.
    pub fn receptive_field(&self) -> (r: usize)
        requires
            self.wf(),
            self@.receptive_field() <= usize::MAX,
        ensures
            r == self@.receptive_field(),
    {
        let ghost stages = self@.stages;
        let mut rf: usize = 1;
        let mut i: usize = 0;
        assert(stages.take(0) =~= Seq::empty());
        while i < self.convs.len()
            invariant
                self.wf(),
                stages == self@.stages,
                self@.receptive_field() <= usize::MAX,
                i <= stages.len(),
                stages.len() == self.convs@.len(),
                rf == (HeadModel { stages: stages.take(i as int) }).receptive_field(),
                rf >= 1,
            decreases stages.len() - i,
        {
            proof {
                assert(stages.take(i + 1).drop_last() =~= stages.take(i as int));
                assert(stages.take(i + 1).last() == stages[i as int]);
                self.lemma_field_grows(i + 1);
                assert(stages[i as int].conv.valid());
            }
            rf = rf + (self.convs[i].1.kernel() - 1);
            i += 1;
        }
        assert(stages.take(i as int) =~= stages);
        rf
    }

    /// How far back the convolutions reach in all.
    pub fn reach(&self) -> (r: CheckedUsize)
        requires
            self.wf(),
        ensures
            r@ == stages_reach(self@.stages),
    {
        let ghost stages = self@.stages;
        let mut total = CheckedUsize::new(0);
        let mut i: usize = 0;
        assert(stages.take(0) =~= Seq::empty());
        while i < self.convs.len()
            invariant
                self.wf(),
                stages == self@.stages,
                stages.len() == self.convs@.len(),
                i <= stages.len(),
                total@ == stages_reach(stages.take(i as int)),
            decreases stages.len() - i,
        {
            assert(stages.take(i + 1).drop_last() =~= stages.take(i as int));
            assert(stages.take(i + 1).last().conv == self.convs@[i as int].1@);
            total = total.add_value(self.convs[i].1.reach());
            i += 1;
        }
        assert(stages.take(i as int) =~= stages);
        total
    }

    /// A part of the chain has no larger receptive field than the whole.
    proof fn lemma_field_grows(self, i: int)
        requires
            self.wf(),
            0 <= i <= self@.stages.len(),
        ensures
            (HeadModel { stages: self@.stages.take(i) }).receptive_field()
                <= self@.receptive_field(),
        decreases self@.stages.len() - i,
    {
        let stages = self@.stages;
        if i == stages.len() {
            assert(stages.take(i) =~= stages);
        } else {
            self.lemma_field_grows(i + 1);
            assert(stages.take(i + 1).drop_last() =~= stages.take(i));
            assert(stages[i].conv.valid());
        }
    }

    /// Run the chain over `scratch_a`, leaving the output there.
    fn run_chain(&mut self, n: usize)
        requires
            old(self).wf(),
            n <= MAX_BLOCK,
        ensures
            final(self).wf(),
            ({
                let m = old(self)@;
                let xs = front_columns(old(self).scratch_a@, m.in_channels(), n as nat);
                let ys = front_columns(final(self).scratch_a@, m.out_channels(), n as nat);
                (final(self)@, ys) == run(m, xs)
            }),
            final(self)@.out_channels() == old(self)@.out_channels(),
            final(self)@.in_channels() == old(self)@.in_channels(),
    {
        let ghost m = self@;
        let ghost xs = front_columns(self.scratch_a@, m.in_channels(), n as nat);
        let ghost cs = no_context(n as nat);
        proof {
            lemma_head_run(m, xs);
            assert(m.stages.take(0) =~= Seq::empty());
            lemma_chain_empty(m.stages.take(0), xs, cs);
        }
        let len: usize = self.convs.len();
        let mut i: usize = 0;
        let mut w: usize = self.in_channels;
        while i < len
            invariant
                *self == (PostStackHead {
                    convs: self.convs,
                    scratch_a: self.scratch_a,
                    scratch_b: self.scratch_b,
                    ..*old(self)
                }),
                m == old(self)@,
                old(self).wf(),
                m.valid(),
                n <= MAX_BLOCK,
                xs.len() == n,
                cs == no_context(n as nat),
                len == m.stages.len(),
                self.convs@.len() == len,
                forall|j: int| 0 <= j < len ==> (#[trigger] self.convs@[j]).1.wf(),
                self.scratch_a@.len() == self.width * MAX_BLOCK,
                self.scratch_b@.len() == self.width * MAX_BLOCK,
                i <= len,
                w <= self.width,
                i < len ==> w == m.stages[i as int].conv.in_ch,
                i == len ==> w == m.out_channels(),
                forall|j: int|
                    i <= j < len ==> (#[trigger] self.convs@[j]).0 == m.stages[j].activation
                        && self.convs@[j].1@ == m.stages[j].conv,
                ({
                    let part = run(Chain { stages: m.stages.take(i as int) }, paired(xs, cs));
                    &&& part.0.stages.len() == i
                    &&& forall|j: int|
                        0 <= j < i ==> (#[trigger] self.convs@[j]).0
                            == part.0.stages[j].activation && self.convs@[j].1@
                            == part.0.stages[j].conv
                    &&& front_columns(self.scratch_a@, w as nat, n as nat) == part.1
                }),
            decreases len - i,
        {
            let ghost stages = m.stages.take(i + 1);
            let ghost part = run(Chain { stages: m.stages.take(i as int) }, paired(xs, cs));
            let ghost earlier = self.convs@;
            let ghost stage = m.stages[i as int];
            let act: Activation = self.convs[i].0;
            let out_ch: usize = self.convs[i].1.out_ch();
            proof {
                assert(old(self).convs@[i as int].1@.out_ch <= self.width);
                lemma_block_len(w as int, n as int);
                lemma_block_len(out_ch as int, n as int);
                assert(self.scratch_a.len() == self.width * MAX_BLOCK);
                assert(w * MAX_BLOCK <= self.width * MAX_BLOCK) by (nonlinear_arith)
                    requires
                        w <= self.width,
                ;
                assert(out_ch * MAX_BLOCK <= self.width * MAX_BLOCK) by (nonlinear_arith)
                    requires
                        out_ch <= self.width,
                ;
            }
            let src = front_mut(&mut self.scratch_a, w * n);
            let ghost before = exprs(src@);
            activate_block(act, src);
            let dst = front_mut(&mut self.scratch_b, out_ch * n);
            self.convs[i].1.process_block(src, dst, n);
            proof {
                let es = Seq::new(n as nat, |t: int| stage.enter(part.1[t]));
                let activated = columns(exprs(src@), w as nat, n as nat);
                assert(part.1.len() == n);
                assert forall|t: int| 0 <= t < n implies #[trigger] activated[t] =~= es[t] by {
                    assert forall|c: int| 0 <= c < w implies #[trigger] activated[t][c]
                        == es[t][c] by {
                        lemma_planar(w as int, n as int, c, t);
                        assert(part.1[t] == column(before, w as nat, n as nat, t));
                        assert(activated[t] == column(exprs(src@), w as nat, n as nat, t));
                    }
                }
                assert(activated =~= es);
                assert(self.scratch_b@.take(out_ch * n) =~= dst@);
                assert(stages.drop_last() =~= m.stages.take(i as int));
                assert(stages.last() == stage);
                lemma_chain_run(stages, xs, cs);
                lemma_chain_len(Chain { stages }, paired(xs, cs));
                lemma_stage_run(stage, part.1, cs);
                assert forall|j: int| 0 <= j < len && j != i implies #[trigger] self.convs@[j]
                    == earlier[j] by {}
                assert(self.convs@[i as int].0 == earlier[i as int].0);
                if i + 1 < len {
                    assert(m.stages[i + 1].conv.in_ch == stage.conv.out_ch);
                }
            }
            std::mem::swap(&mut self.scratch_a, &mut self.scratch_b);
            w = out_ch;
            i += 1;
        }
        proof {
            assert(m.stages.take(len as int) =~= m.stages);
            assert(self@.stages =~= run(m, xs).0.stages);
            lemma_head_kept(m, xs);
            let kept = run(m, xs).0.stages;
            assert forall|j: int| 0 <= j < len implies (#[trigger] self@.stages[j]).conv.valid() by {
                self.convs@[j].1.lemma_valid();
            }
            assert forall|j: int| 0 < j < len implies (#[trigger] self@.stages[j]).conv.in_ch
                == self@.stages[j - 1].conv.out_ch by {
                assert(kept[j].conv.in_ch == m.stages[j].conv.in_ch);
                assert(kept[j - 1].conv.out_ch == m.stages[j - 1].conv.out_ch);
            }
            assert forall|j: int| 0 <= j < len implies (#[trigger] self.convs@[j]).1@.out_ch
                <= self.width by {
                assert(kept[j].conv.out_ch == m.stages[j].conv.out_ch);
                assert(self@.stages[j].conv == self.convs@[j].1@);
                assert(old(self).convs@[j].1@.out_ch <= self.width);
            }
            assert(kept[0].conv.in_ch == m.stages[0].conv.in_ch);
            assert(kept[len - 1].conv.out_ch == m.stages[len - 1].conv.out_ch);
        }
    }

    /// Planar block twin of [`Self::process_sample`]. `work` is `[in_channels][n]`
    /// (already `head_scale`-scaled); the last conv's output goes to `out`,
    /// `[out_channels][n]`. `n <= MAX_BLOCK`.
    pub fn process_block(&mut self, work: &[Scalar<A>], out: &mut [Scalar<A>], n: usize)
        requires
            old(self).wf(),
            n <= MAX_BLOCK,
            work@.len() == old(self)@.in_channels() * n,
            old(out)@.len() == old(self)@.out_channels() * n,
        ensures
            final(self).wf(),
            final(self)@.in_channels() == old(self)@.in_channels(),
            final(self)@.out_channels() == old(self)@.out_channels(),
            final(out)@.len() == old(out)@.len(),
            (final(self)@, columns(exprs(final(out)@), old(self)@.out_channels(), n as nat)) == run(
                old(self)@,
                columns(exprs(work@), old(self)@.in_channels(), n as nat),
            ),
    {
        proof {
            lemma_block_len(self.in_channels as int, n as int);
            lemma_block_len(self.out_channels as int, n as int);
            assert(self.scratch_a.len() == self.width * MAX_BLOCK);
            assert(self.in_channels * MAX_BLOCK <= self.width * MAX_BLOCK) by (nonlinear_arith)
                requires
                    self.in_channels <= self.width,
            ;
            let last = self.convs@.len() - 1;
            assert(self.convs@[last].1@.out_ch <= self.width);
            assert(self.out_channels * MAX_BLOCK <= self.width * MAX_BLOCK) by (nonlinear_arith)
                requires
                    self.out_channels <= self.width,
            ;
        }
        let out_len: usize = self.out_channels * n;
        let src = front_mut(&mut self.scratch_a, self.in_channels * n);
        copy_into(src, work);
        proof {
            assert(self.scratch_a@.take(self.in_channels * n) =~= src@);
        }
        self.run_chain(n);
        let produced = front(&self.scratch_a, out_len);
        copy_into(out, produced);
    }

    /// Per-sample. `work` is the (already `head_scale`-scaled) head input,
    /// `in_channels` wide; the last conv's output goes to `out`, `out_channels` wide.
    pub fn process_sample(&mut self, work: &[Scalar<A>], out: &mut [Scalar<A>])
        requires
            old(self).wf(),
            work@.len() == old(self)@.in_channels(),
            old(out)@.len() == old(self)@.out_channels(),
        ensures
            final(self).wf(),
            final(self)@.in_channels() == old(self)@.in_channels(),
            final(self)@.out_channels() == old(self)@.out_channels(),
            final(out)@.len() == old(out)@.len(),
            (final(self)@, exprs(final(out)@)) == old(self)@.step(exprs(work@)),
    {
        let ghost m = self@;
        proof {
            lemma_columns_one(exprs(work@));
            lemma_run_one(m, exprs(work@));
        }
        self.process_block(work, out, 1);
        proof {
            lemma_columns_one(exprs(out@));
            assert(seq![exprs(out@)][0] == exprs(out@));
            assert(seq![m.step(exprs(work@)).1][0] == m.step(exprs(work@)).1);
        }
    }

    /// Clear the history to silence.
    pub fn reset(&mut self)
        requires
            old(self).wf(),
        ensures
            final(self).wf(),
            final(self)@ == old(self)@.fresh(),
            final(self)@.in_channels() == old(self)@.in_channels(),
            final(self)@.out_channels() == old(self)@.out_channels(),
    {
        let ghost m = self@;
        let len: usize = self.convs.len();
        let mut i: usize = 0;
        while i < len
            invariant
                *self == (PostStackHead { convs: self.convs, ..*old(self) }),
                m == old(self)@,
                len == m.stages.len(),
                self.convs@.len() == len,
                forall|j: int| 0 <= j < len ==> (#[trigger] self.convs@[j]).1.wf(),
                i <= len,
                forall|j: int|
                    0 <= j < len ==> (#[trigger] self.convs@[j]).0 == m.stages[j].activation
                        && self.convs@[j].1@ == if j < i {
                        m.stages[j].conv.fresh()
                    } else {
                        m.stages[j].conv
                    },
            decreases len - i,
        {
            let ghost earlier = self.convs@;
            self.convs[i].1.reset();
            proof {
                assert forall|j: int| 0 <= j < len && j != i implies #[trigger] self.convs@[j]
                    == earlier[j] by {}
            }
            i += 1;
        }
        proof {
            assert(self@ =~= m.fresh());
            assert forall|j: int| 0 <= j < len implies (#[trigger] self@.stages[j]).conv.valid() by {
                self.convs@[j].1.lemma_valid();
            }
            assert forall|j: int| 0 <= j < len implies (#[trigger] self.convs@[j]).1@.out_ch
                <= self.width by {
                assert(old(self).convs@[j].1@.out_ch <= self.width);
            }
        }
    }
}

impl<A: Arith> Clone for PostStackHead<A> {
    fn clone(&self) -> (r: Self)
        ensures
            r@ == self@,
            self.wf() ==> r.wf(),
    {
        let mut convs: Vec<(Activation, Conv1d<A>)> = Vec::new();
        let mut i: usize = 0;
        while i < self.convs.len()
            invariant
                i <= self.convs@.len(),
                convs@.len() == i,
                forall|j: int|
                    0 <= j < i ==> (#[trigger] convs@[j]).0 == self.convs@[j].0 && convs@[j].1@
                        == self.convs@[j].1@ && convs@[j].1.wf() == self.convs@[j].1.wf(),
            decreases self.convs@.len() - i,
        {
            convs.push((self.convs[i].0, self.convs[i].1.clone()));
            i += 1;
        }
        let r = PostStackHead {
            convs,
            in_channels: self.in_channels,
            out_channels: self.out_channels,
            width: self.width,
            scratch_a: duplicate(&self.scratch_a),
            scratch_b: duplicate(&self.scratch_b),
        };
        assert(r@.stages =~= self@.stages);
        r
    }
}

} // verus!
