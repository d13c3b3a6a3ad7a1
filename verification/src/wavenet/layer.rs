//! A single WaveNet layer: dilated conv + conditioning mix-in, gated activation, a
//! residual 1x1, and a head contribution.
//!
//! For input `x`, conditioning `c` and the eight optional FiLM sites (each the
//! identity when absent):
//!
//! ```text
//! z    = conv(pre(x)) |> conv_post   +   input_mixin(mix_pre(c)) |> mix_post
//! p    = gating(act_pre(z)) |> act_post
//! head_accum += head1x1(p) |> head_post     // or p without a head 1x1
//! out  = layer1x1(p) (|> layer_post when blended) + x   // or p + x
//! ```

use vstd::prelude::*;
use crate::arith::{exprs, Arith, Expr, Scalar};
use crate::model::GatingMode;
use crate::signal::{
    add_into, added, columns, copy_into, duplicate, front, front_columns, front_mut,
    lemma_block_len, lemma_columns_added, lemma_columns_one, lemma_run_len, lemma_run_one, paired,
    run, Machine, MAX_BLOCK,
};
use crate::wavenet::activation::Activation;
use crate::wavenet::conv::{lemma_conv_kept, lemma_conv_run, lemma_one_by_one, Conv1d, ConvModel};
use crate::wavenet::film::{FiLM, FilmModel};
use crate::wavenet::gating::Gating;

verus! {

/// What a layer, or an array of layers, hands on to the next one.
#[verifier::ext_equal]
pub struct Carry<N> {
    /// The layer signal.
    pub signal: Seq<Expr<N>>,
    /// The head signal.
    pub head: Seq<Expr<N>>,
}

/// The carry of every time.
pub open spec fn carries<N>(signals: Seq<Seq<Expr<N>>>, heads: Seq<Seq<Expr<N>>>) -> Seq<Carry<N>> {
    Seq::new(signals.len(), |t: int| Carry { signal: signals[t], head: heads[t] })
}

/// The eight FiLM sites of a layer.
#[verifier::ext_equal]
pub struct FilmsModel<N> {
    pub conv_pre: Option<FilmModel<N>>,
    pub conv_post: Option<FilmModel<N>>,
    pub mixin_pre: Option<FilmModel<N>>,
    pub mixin_post: Option<FilmModel<N>>,
    pub activation_pre: Option<FilmModel<N>>,
    pub activation_post: Option<FilmModel<N>>,
    pub layer1x1_post: Option<FilmModel<N>>,
    pub head1x1_post: Option<FilmModel<N>>,
}

/// `x` modulated at a FiLM site, which may be absent.
pub open spec fn filmed<N>(
    site: Option<FilmModel<N>>,
    x: Seq<Expr<N>>,
    c: Seq<Expr<N>>,
) -> Seq<Expr<N>> {
    match site {
        Some(f) => f.apply(x, c),
        None => x,
    }
}

/// Whether a FiLM site fits a signal `dim` wide and a conditioning `cond` wide.
pub open spec fn film_fits<N>(site: Option<FilmModel<N>>, dim: nat, cond: nat) -> bool {
    site matches Some(f) ==> f.valid() && f.dim == dim && f.conv.in_ch == cond
}

/// A WaveNet layer. Only its dilated convolution remembers anything.
#[verifier::ext_equal]
pub struct LayerModel<N> {
    pub conv: ConvModel<N>,
    pub mixin: ConvModel<N>,
    pub layer1x1: Option<ConvModel<N>>,
    pub head1x1: Option<ConvModel<N>>,
    pub gating: Gating,
    pub films: FilmsModel<N>,
}

/// Whether `m` is a 1x1 convolution of these widths.
pub open spec fn one_by_one<N>(m: ConvModel<N>, in_ch: nat, out_ch: nat) -> bool {
    &&& m.valid()
    &&& m.in_ch == in_ch
    &&& m.out_ch == out_ch
    &&& m.past.len() == 0
}

impl<N> LayerModel<N> {
    /// Width of the layer signal.
    pub open spec fn channels(self) -> nat {
        self.conv.in_ch
    }

    /// Width of the conditioning.
    pub open spec fn condition(self) -> nat {
        self.mixin.in_ch
    }

    /// Width of the activated signal.
    pub open spec fn bottleneck(self) -> nat {
        self.gating.bottleneck as nat
    }

    /// Width of the head contribution.
    pub open spec fn head_width(self) -> nat {
        match self.head1x1 {
            Some(h) => h.out_ch,
            None => self.bottleneck(),
        }
    }

    /// The parts fit together.
    pub open spec fn valid(self) -> bool {
        let mid = self.gating.rows();
        let bn = self.bottleneck();
        let cond = self.condition();
        &&& self.conv.valid()
        &&& self.conv.out_ch == mid
        &&& one_by_one(self.mixin, cond, mid)
        &&& match self.layer1x1 {
            Some(l) => one_by_one(l, bn, self.channels()),
            None => bn == self.channels(),
        }
        &&& self.head1x1 matches Some(h) ==> one_by_one(h, bn, h.out_ch)
        &&& film_fits(self.films.conv_pre, self.channels(), cond)
        &&& film_fits(self.films.conv_post, mid, cond)
        &&& film_fits(self.films.mixin_pre, cond, cond)
        &&& film_fits(self.films.mixin_post, mid, cond)
        &&& film_fits(self.films.activation_pre, mid, cond)
        &&& film_fits(self.films.activation_post, bn, cond)
        &&& self.layer1x1 is Some ==> film_fits(self.films.layer1x1_post, self.channels(), cond)
        &&& self.head1x1 is Some ==> film_fits(self.films.head1x1_post, self.head_width(), cond)
    }

    /// What the dilated convolution is given.
    pub open spec fn enter(self, x: Seq<Expr<N>>, c: Seq<Expr<N>>) -> Seq<Expr<N>> {
        filmed(self.films.conv_pre, x, c)
    }

    /// What the conditioning adds.
    pub open spec fn mixed(self, c: Seq<Expr<N>>) -> Seq<Expr<N>> {
        filmed(self.films.mixin_post, self.mixin.apply(filmed(self.films.mixin_pre, c, c)), c)
    }

    /// The activated signal, from the output `z` of the dilated convolution.
    pub open spec fn activated(self, z: Seq<Expr<N>>, c: Seq<Expr<N>>) -> Seq<Expr<N>> {
        let sum = added(filmed(self.films.conv_post, z, c), self.mixed(c));
        filmed(
            self.films.activation_post,
            self.gating.apply(filmed(self.films.activation_pre, sum, c)),
            c,
        )
    }

    /// The head contribution of the activated signal `p`.
    pub open spec fn contribution(self, p: Seq<Expr<N>>, c: Seq<Expr<N>>) -> Seq<Expr<N>> {
        match self.head1x1 {
            Some(h) => filmed(self.films.head1x1_post, h.apply(p), c),
            None => p,
        }
    }

    /// What the activated signal `p` adds to the layer's input.
    pub open spec fn projected(self, p: Seq<Expr<N>>, c: Seq<Expr<N>>) -> Seq<Expr<N>> {
        match self.layer1x1 {
            Some(l) => if self.gating.mode == GatingMode::Blended {
                filmed(self.films.layer1x1_post, l.apply(p), c)
            } else {
                l.apply(p)
            },
            None => p,
        }
    }

    /// What the layer hands on, given the output `z` of its dilated convolution.
    pub open spec fn leave(self, x: Carry<N>, c: Seq<Expr<N>>, z: Seq<Expr<N>>) -> Carry<N> {
        let p = self.activated(z, c);
        Carry {
            signal: added(self.projected(p, c), x.signal),
            head: added(x.head, self.contribution(p, c)),
        }
    }

    /// The same layer, remembering silence.
    pub open spec fn fresh(self) -> Self {
        LayerModel { conv: self.conv.fresh(), ..self }
    }
}

impl<N> Machine<(Carry<N>, Seq<Expr<N>>), Carry<N>> for LayerModel<N> {
    open spec fn step(self, x: (Carry<N>, Seq<Expr<N>>)) -> (Self, Carry<N>) {
        let r = self.conv.step(self.enter(x.0.signal, x.1));
        (LayerModel { conv: r.0, ..self }, self.leave(x.0, x.1, r.1))
    }
}

/// What the dilated convolution is given over time.
pub open spec fn entering<N>(
    m: LayerModel<N>,
    xs: Seq<Carry<N>>,
    cs: Seq<Seq<Expr<N>>>,
) -> Seq<Seq<Expr<N>>> {
    Seq::new(xs.len(), |t: int| m.enter(xs[t].signal, cs[t]))
}

/// A layer may be run part by part: first its dilated convolution over the whole
/// stream, then the rest of it.
pub proof fn lemma_layer_run<N>(m: LayerModel<N>, xs: Seq<Carry<N>>, cs: Seq<Seq<Expr<N>>>)
    requires
        xs.len() == cs.len(),
    ensures
        run(m, paired(xs, cs)).0 == (LayerModel { conv: run(m.conv, entering(m, xs, cs)).0, ..m }),
        run(m.conv, entering(m, xs, cs)).1.len() == xs.len(),
        run(m, paired(xs, cs)).1 =~= Seq::new(
            xs.len(),
            |t: int| m.leave(xs[t], cs[t], run(m.conv, entering(m, xs, cs)).1[t]),
        ),
    decreases xs.len(),
{
    lemma_run_len(m.conv, entering(m, xs, cs));
    if xs.len() > 0 {
        let xs1 = xs.drop_last();
        let cs1 = cs.drop_last();
        assert(paired(xs, cs).drop_last() =~= paired(xs1, cs1));
        assert(entering(m, xs, cs).drop_last() =~= entering(m, xs1, cs1));
        lemma_layer_run(m, xs1, cs1);
        lemma_run_len(m.conv, entering(m, xs1, cs1));
        let before = run(m, paired(xs1, cs1)).0;
        let r = before.step((xs.last(), cs.last()));
        assert(before.enter(xs.last().signal, cs.last()) == m.enter(xs.last().signal, cs.last()));
        let z = before.conv.step(m.enter(xs.last().signal, cs.last())).1;
        assert(before.leave(xs.last(), cs.last(), z) == m.leave(xs.last(), cs.last(), z));
        assert(run(m, paired(xs, cs)).1 =~= Seq::new(
            xs.len(),
            |t: int| m.leave(xs[t], cs[t], run(m.conv, entering(m, xs, cs)).1[t]),
        ));
    } else {
        assert(entering(m, xs, cs) =~= Seq::empty());
    }
}

/// A run changes only what a layer's dilated convolution remembers.
pub proof fn lemma_layer_kept<N>(m: LayerModel<N>, xs: Seq<Carry<N>>, cs: Seq<Seq<Expr<N>>>)
    requires
        xs.len() == cs.len(),
    ensures
        run(m, paired(xs, cs)).0.fresh() == m.fresh(),
        run(m, paired(xs, cs)).0.channels() == m.channels(),
        run(m, paired(xs, cs)).0.condition() == m.condition(),
        run(m, paired(xs, cs)).0.head_width() == m.head_width(),
{
    lemma_layer_run(m, xs, cs);
    lemma_conv_kept(m.conv, entering(m, xs, cs));
}

/// The eight FiLM sites of a layer.
pub struct Films<A: Arith> {
    pub conv_pre: Option<FiLM<A>>,
    pub conv_post: Option<FiLM<A>>,
    pub mixin_pre: Option<FiLM<A>>,
    pub mixin_post: Option<FiLM<A>>,
    pub activation_pre: Option<FiLM<A>>,
    pub activation_post: Option<FiLM<A>>,
    pub layer1x1_post: Option<FiLM<A>>,
    pub head1x1_post: Option<FiLM<A>>,
}

/// What a FiLM site computes.
pub open spec fn site_view<A: Arith>(site: Option<FiLM<A>>) -> Option<FilmModel<A::Num>> {
    match site {
        Some(f) => Some(f@),
        None => None,
    }
}

/// Whether a FiLM site, if present, is well-formed.
pub open spec fn site_wf<A: Arith>(site: Option<FiLM<A>>) -> bool {
    site matches Some(f) ==> f.wf()
}

impl<A: Arith> Films<A> {
    pub open spec fn view(&self) -> FilmsModel<A::Num> {
        FilmsModel {
            conv_pre: site_view(self.conv_pre),
            conv_post: site_view(self.conv_post),
            mixin_pre: site_view(self.mixin_pre),
            mixin_post: site_view(self.mixin_post),
            activation_pre: site_view(self.activation_pre),
            activation_post: site_view(self.activation_post),
            layer1x1_post: site_view(self.layer1x1_post),
            head1x1_post: site_view(self.head1x1_post),
        }
    }

    pub open spec fn wf(self) -> bool {
        &&& site_wf(self.conv_pre)
        &&& site_wf(self.conv_post)
        &&& site_wf(self.mixin_pre)
        &&& site_wf(self.mixin_post)
        &&& site_wf(self.activation_pre)
        &&& site_wf(self.activation_post)
        &&& site_wf(self.layer1x1_post)
        &&& site_wf(self.head1x1_post)
    }

    /// No FiLM anywhere.
    pub fn absent() -> (r: Self)
        ensures
            r.wf(),
            r@ == (FilmsModel::<A::Num> {
                conv_pre: None,
                conv_post: None,
                mixin_pre: None,
                mixin_post: None,
                activation_pre: None,
                activation_post: None,
                layer1x1_post: None,
                head1x1_post: None,
            }),
    {
        Films {
            conv_pre: None,
            conv_post: None,
            mixin_pre: None,
            mixin_post: None,
            activation_pre: None,
            activation_post: None,
            layer1x1_post: None,
            head1x1_post: None,
        }
    }
}

/// Rows of a plain layer's dilated convolution.
pub open spec fn plain_rows(channels: nat, gated: bool) -> nat {
    if gated {
        2 * channels
    } else {
        channels
    }
}

/// A plain layer: a residual 1x1 with a bias, no head 1x1 and no FiLM. If it is gated,
/// it is gated by a sigmoid.
pub open spec fn plain_layer<N>(
    channels: usize,
    condition_size: nat,
    kernel: nat,
    dilation: nat,
    activation: Activation,
    gated: bool,
    conv_w: Seq<Expr<N>>,
    conv_b: Seq<Expr<N>>,
    mix_w: Seq<Expr<N>>,
    one_w: Seq<Expr<N>>,
    one_b: Seq<Expr<N>>,
) -> LayerModel<N> {
    let ch = channels as nat;
    let mid = plain_rows(ch, gated);
    LayerModel {
        conv: ConvModel::made(ch, mid, kernel, dilation, conv_w, Some(conv_b)),
        mixin: ConvModel::made(condition_size, mid, 1, 1, mix_w, None),
        layer1x1: Some(ConvModel::made(ch, ch, 1, 1, one_w, Some(one_b))),
        head1x1: None,
        gating: Gating {
            mode: if gated {
                GatingMode::Gated
            } else {
                GatingMode::Ungated
            },
            primary: activation,
            secondary: Activation::Sigmoid,
            bottleneck: channels,
        },
        films: FilmsModel {
            conv_pre: None,
            conv_post: None,
            mixin_pre: None,
            mixin_post: None,
            activation_pre: None,
            activation_post: None,
            layer1x1_post: None,
            head1x1_post: None,
        },
    }
}

/// Modulate a planar block in place at a FiLM site, if it is present.
fn film_block<A: Arith>(
    site: &mut Option<FiLM<A>>,
    buf: &mut [Scalar<A>],
    condition: &[Scalar<A>],
    n: usize,
    Ghost(dim): Ghost<nat>,
    Ghost(cond): Ghost<nat>,
)
    requires
        site_wf(*old(site)),
        film_fits(site_view(*old(site)), dim, cond),
        n <= MAX_BLOCK,
        condition@.len() == cond * n,
        old(buf)@.len() == dim * n,
    ensures
        site_wf(*final(site)),
        site_view(*final(site)) == site_view(*old(site)),
        final(buf)@.len() == old(buf)@.len(),
        columns(exprs(final(buf)@), dim, n as nat) == Seq::new(
            n as nat,
            |t: int|
                filmed(
                    site_view(*old(site)),
                    columns(exprs(old(buf)@), dim, n as nat)[t],
                    columns(exprs(condition@), cond, n as nat)[t],
                ),
        ),
{
    match site {
        Some(f) => {
            f.process_block_(buf, condition, n);
        },
        None => {},
    }
    proof {
        assert(columns(exprs(buf@), dim, n as nat) =~= Seq::new(
            n as nat,
            |t: int|
                filmed(
                    site_view(*old(site)),
                    columns(exprs(old(buf)@), dim, n as nat)[t],
                    columns(exprs(condition@), cond, n as nat)[t],
                ),
        ));
    }
}

/// Apply a 1x1 convolution to a planar block.
fn one_by_one_block<A: Arith>(
    conv: &mut Conv1d<A>,
    input: &[Scalar<A>],
    out: &mut [Scalar<A>],
    n: usize,
)
    requires
        old(conv).wf(),
        old(conv)@.past.len() == 0,
        n <= MAX_BLOCK,
        input@.len() == old(conv)@.in_ch * n,
        old(out)@.len() == old(conv)@.out_ch * n,
    ensures
        final(conv).wf(),
        final(conv)@ == old(conv)@,
        final(out)@.len() == old(out)@.len(),
        columns(exprs(final(out)@), old(conv)@.out_ch, n as nat) == Seq::new(
            n as nat,
            |t: int| old(conv)@.apply(columns(exprs(input@), old(conv)@.in_ch, n as nat)[t]),
        ),
{
    conv.process_block(input, out, n);
    proof {
        let xs = columns(exprs(input@), old(conv)@.in_ch, n as nat);
        lemma_one_by_one(old(conv)@, xs);
        assert(columns(exprs(out@), old(conv)@.out_ch, n as nat) =~= Seq::new(
            n as nat,
            |t: int| old(conv)@.apply(xs[t]),
        ));
    }
}

/// One dilated WaveNet layer with all scratch buffers pre-allocated.
pub struct Layer<A: Arith> {
    conv: Conv1d<A>,
    mixin: Conv1d<A>,
    layer1x1: Option<Conv1d<A>>,
    head1x1: Option<Conv1d<A>>,
    gating: Gating,
    films: Films<A>,
    channels: usize,
    condition: usize,
    /// Rows of the dilated convolution's output.
    mid: usize,
    head_width: usize,
    /// Planar scratch: the modulated layer input, `[channels][MAX_BLOCK]`.
    entry: Vec<Scalar<A>>,
    /// The dilated-conv output, then `+= mix`: `[mid][MAX_BLOCK]`.
    block: Vec<Scalar<A>>,
    /// The modulated conditioning, `[condition][MAX_BLOCK]`.
    mix_in: Vec<Scalar<A>>,
    /// The input-mixer output, `[mid][MAX_BLOCK]`.
    mix: Vec<Scalar<A>>,
    /// The activated signal, `[bottleneck][MAX_BLOCK]`.
    post: Vec<Scalar<A>>,
    /// The head 1x1 output, `[head_width][MAX_BLOCK]`.
    share: Vec<Scalar<A>>,
}

/// What an optional convolution computes.
pub open spec fn conv_view<A: Arith>(conv: Option<Conv1d<A>>) -> Option<ConvModel<A::Num>> {
    match conv {
        Some(c) => Some(c@),
        None => None,
    }
}

impl<A: Arith> View for Layer<A> {
    type V = LayerModel<A::Num>;

    closed spec fn view(&self) -> LayerModel<A::Num> {
        LayerModel {
            conv: self.conv@,
            mixin: self.mixin@,
            layer1x1: conv_view(self.layer1x1),
            head1x1: conv_view(self.head1x1),
            gating: self.gating,
            films: self.films@,
        }
    }
}

impl<A: Arith> Layer<A> {
    /// The parts fit together and the scratch buffers have their sizes.
    pub closed spec fn wf(self) -> bool {
        &&& self.conv.wf()
        &&& self.mixin.wf()
        &&& self.layer1x1 matches Some(l) ==> l.wf()
        &&& self.head1x1 matches Some(h) ==> h.wf()
        &&& self.films.wf()
        &&& self@.valid()
        &&& self.channels == self@.channels()
        &&& self.condition == self@.condition()
        &&& self.mid == self.gating.rows()
        &&& self.head_width == self@.head_width()
        &&& self.entry@.len() == self.channels * MAX_BLOCK
        &&& self.block@.len() == self.mid * MAX_BLOCK
        &&& self.mix_in@.len() == self.condition * MAX_BLOCK
        &&& self.mix@.len() == self.mid * MAX_BLOCK
        &&& self.post@.len() == self.gating.bottleneck * MAX_BLOCK
        &&& self.share@.len() == self.head_width * MAX_BLOCK
    }

    /// A well-formed layer has a valid model.
    pub proof fn lemma_valid(self)
        requires
            self.wf(),
        ensures
            self@.valid(),
    {
    }

    /// Width of the head contribution.
    pub fn head_contrib_width(&self) -> (r: usize)
        requires
            self.wf(),
        ensures
            r == self@.head_width(),
    {
        self.head_width
    }

    /// Width of the conditioning.
    pub fn condition_size(&self) -> (r: usize)
        requires
            self.wf(),
        ensures
            r == self@.condition(),
    {
        self.condition
    }

    /// How far back the dilated convolution reaches.
    pub fn reach(&self) -> (r: usize)
        requires
            self.wf(),
        ensures
            r == self@.conv.reach(),
    {
        self.conv.reach()
    }

    /// Build a layer from parts that fit together.
    pub fn from_parts(
        conv: Conv1d<A>,
        mixin: Conv1d<A>,
        layer1x1: Option<Conv1d<A>>,
        head1x1: Option<Conv1d<A>>,
        gating: Gating,
        films: Films<A>,
    ) -> (r: Self)
        requires
            conv.wf(),
            mixin.wf(),
            layer1x1 matches Some(l) ==> l.wf(),
            head1x1 matches Some(h) ==> h.wf(),
            films.wf(),
            (LayerModel {
                conv: conv@,
                mixin: mixin@,
                layer1x1: conv_view(layer1x1),
                head1x1: conv_view(head1x1),
                gating,
                films: films@,
            }).valid(),
            conv@.in_ch * MAX_BLOCK <= usize::MAX,
            mixin@.in_ch * MAX_BLOCK <= usize::MAX,
            conv@.out_ch * MAX_BLOCK <= usize::MAX,
            head1x1 matches Some(h) ==> h@.out_ch * MAX_BLOCK <= usize::MAX,
        ensures
            r.wf(),
            r@ == (LayerModel {
                conv: conv@,
                mixin: mixin@,
                layer1x1: conv_view(layer1x1),
                head1x1: conv_view(head1x1),
                gating,
                films: films@,
            }),
    {
        let channels: usize = conv.in_ch();
        let condition: usize = mixin.in_ch();
        let mid: usize = conv.out_ch();
        let head_width: usize = match &head1x1 {
            Some(h) => h.out_ch(),
            None => gating.bottleneck,
        };
        let bn: usize = gating.bottleneck;
        proof {
            assert(bn * MAX_BLOCK <= mid * MAX_BLOCK) by (nonlinear_arith)
                requires
                    0 <= bn <= mid,
                    MAX_BLOCK == 1024,
            ;
        }
        Layer {
            conv,
            mixin,
            layer1x1,
            head1x1,
            gating,
            films,
            channels,
            condition,
            mid,
            head_width,
            entry: vec![Scalar::zero(); channels * MAX_BLOCK],
            block: vec![Scalar::zero(); mid * MAX_BLOCK],
            mix_in: vec![Scalar::zero(); condition * MAX_BLOCK],
            mix: vec![Scalar::zero(); mid * MAX_BLOCK],
            post: vec![Scalar::zero(); bn * MAX_BLOCK],
            share: vec![Scalar::zero(); head_width * MAX_BLOCK],
        }
    }

    /// Build a plain layer from its weight tensors: a residual 1x1 with a bias, no head
    /// 1x1 and no FiLM.
    ///
    /// When `gated`, the dilated conv produces `2 * channels` outputs (the conv and
    /// input-mixer weight tensors must be sized accordingly), gated by a sigmoid.
    pub fn new(
        channels: usize,
        condition_size: usize,
        kernel: usize,
        dilation: usize,
        activation: Activation,
        gated: bool,
        conv_w: Vec<Scalar<A>>,
        conv_b: Vec<Scalar<A>>,
        mix_w: Vec<Scalar<A>>,
        one_w: Vec<Scalar<A>>,
        one_b: Vec<Scalar<A>>,
    ) -> (r: Self)
        requires
            kernel >= 1,
            2 * channels * MAX_BLOCK <= usize::MAX,
            Conv1d::<A>::fits(channels as nat, kernel as nat, dilation as nat),
            Conv1d::<A>::fits(condition_size as nat, 1, 1),
            Conv1d::<A>::fits(channels as nat, 1, 1),
            conv_w@.len() == plain_rows(channels as nat, gated) * channels * kernel,
            conv_b@.len() == plain_rows(channels as nat, gated),
            mix_w@.len() == plain_rows(channels as nat, gated) * condition_size,
            one_w@.len() == channels * channels,
            one_b@.len() == channels,
        ensures
            r.wf(),
            r@ == plain_layer(
                channels,
                condition_size as nat,
                kernel as nat,
                dilation as nat,
                activation,
                gated,
                exprs(conv_w@),
                exprs(conv_b@),
                exprs(mix_w@),
                exprs(one_w@),
                exprs(one_b@),
            ),
    {
        let mid: usize = if gated {
            2 * channels
        } else {
            channels
        };
        let mode = if gated {
            GatingMode::Gated
        } else {
            GatingMode::Ungated
        };
        let conv = Conv1d::new(channels, mid, kernel, dilation, conv_w, Some(conv_b));
        let mixin = Conv1d::new(condition_size, mid, 1, 1, mix_w, None);
        let one_by_one = Conv1d::new(channels, channels, 1, 1, one_w, Some(one_b));
        let gating = Gating::new(mode, activation, Activation::Sigmoid, channels);
        proof {
            assert(condition_size * MAX_BLOCK == condition_size * ((1 - 1) * 1 + MAX_BLOCK));
            assert(channels * MAX_BLOCK == channels * ((1 - 1) * 1 + MAX_BLOCK));
        }
        Layer::from_parts(conv, mixin, Some(one_by_one), None, gating, Films::absent())
    }

    /// Run the dilated convolution over a block, leaving its output in `block`.
    fn convolve(&mut self, input: &[Scalar<A>], condition: &[Scalar<A>], n: usize)
        requires
            old(self).wf(),
            n <= MAX_BLOCK,
            input@.len() == old(self)@.channels() * n,
            condition@.len() == old(self)@.condition() * n,
        ensures
            final(self).wf(),
            ({
                let m = old(self)@;
                let xs = columns(exprs(input@), m.channels(), n as nat);
                let cs = columns(exprs(condition@), m.condition(), n as nat);
                let es = Seq::new(n as nat, |t: int| m.enter(xs[t], cs[t]));
                let r = run(m.conv, es);
                &&& final(self)@ == (LayerModel { conv: r.0, ..m })
                &&& front_columns(final(self).block@, m.gating.rows(), n as nat) == r.1
            }),
    {
        let ghost m = self@;
        let ghost xs = columns(exprs(input@), m.channels(), n as nat);
        let ghost cs = columns(exprs(condition@), m.condition(), n as nat);
        let ghost es = Seq::new(n as nat, |t: int| m.enter(xs[t], cs[t]));
        proof {
            lemma_block_len(self.channels as int, n as int);
            lemma_block_len(self.mid as int, n as int);
            assert(self.entry.len() == self.channels * MAX_BLOCK);
            assert(self.block.len() == self.mid * MAX_BLOCK);
        }
        let mid_len: usize = self.mid * n;
        match &mut self.films.conv_pre {
            Some(f) => {
                let entry = front_mut(&mut self.entry, self.channels * n);
                f.process_block(input, condition, entry, n);
                assert(columns(exprs(entry@), m.channels(), n as nat) =~= es);
                let block = front_mut(&mut self.block, mid_len);
                self.conv.process_block(entry, block, n);
                assert(self.block@.take(mid_len as int) =~= block@);
            },
            None => {
                assert(xs =~= es);
                let block = front_mut(&mut self.block, mid_len);
                self.conv.process_block(input, block, n);
                assert(self.block@.take(mid_len as int) =~= block@);
            },
        }
        proof {
            self.conv.lemma_valid();
            lemma_conv_run(m.conv, es);
        }
    }

    /// Run the input mixer over a block, leaving its output in `mix`.
    fn mix_condition(&mut self, condition: &[Scalar<A>], n: usize)
        requires
            old(self).wf(),
            n <= MAX_BLOCK,
            condition@.len() == old(self)@.condition() * n,
        ensures
            final(self).wf(),
            final(self)@ == old(self)@,
            final(self).block == old(self).block,
            ({
                let m = old(self)@;
                let cs = columns(exprs(condition@), m.condition(), n as nat);
                front_columns(final(self).mix@, m.gating.rows(), n as nat) == Seq::new(
                    n as nat,
                    |t: int| m.mixed(cs[t]),
                )
            }),
    {
        let ghost m = self@;
        let ghost cs = columns(exprs(condition@), m.condition(), n as nat);
        let ghost fs = Seq::new(n as nat, |t: int| filmed(m.films.mixin_pre, cs[t], cs[t]));
        let ghost mid = m.gating.rows();
        proof {
            lemma_block_len(self.condition as int, n as int);
            lemma_block_len(self.mid as int, n as int);
            assert(self.mix_in.len() == self.condition * MAX_BLOCK);
            assert(self.mix.len() == self.mid * MAX_BLOCK);
        }
        let mid_len: usize = self.mid * n;
        let mix = front_mut(&mut self.mix, mid_len);
        match &mut self.films.mixin_pre {
            Some(f) => {
                let mix_in = front_mut(&mut self.mix_in, self.condition * n);
                f.process_block(condition, condition, mix_in, n);
                assert(columns(exprs(mix_in@), m.condition(), n as nat) =~= fs);
                one_by_one_block(&mut self.mixin, mix_in, mix, n);
            },
            None => {
                assert(cs =~= fs);
                one_by_one_block(&mut self.mixin, condition, mix, n);
            },
        }
        film_block(
            &mut self.films.mixin_post,
            mix,
            condition,
            n,
            Ghost(mid),
            Ghost(m.condition()),
        );
        proof {
            assert(self.mix@.take(mid_len as int) =~= mix@);
            assert(columns(exprs(mix@), mid, n as nat) =~= Seq::new(
                n as nat,
                |t: int| m.mixed(cs[t]),
            ));
        }
    }

    /// Turn `block` and `mix` into the activated signal, left in `post`.
    fn activate(&mut self, condition: &[Scalar<A>], n: usize)
        requires
            old(self).wf(),
            n <= MAX_BLOCK,
            condition@.len() == old(self)@.condition() * n,
            front_columns(old(self).mix@, old(self)@.gating.rows(), n as nat) == Seq::new(
                n as nat,
                |t: int|
                    old(self)@.mixed(
                        columns(exprs(condition@), old(self)@.condition(), n as nat)[t],
                    ),
            ),
        ensures
            final(self).wf(),
            final(self)@ == old(self)@,
            ({
                let m = old(self)@;
                let cs = columns(exprs(condition@), m.condition(), n as nat);
                let zs = front_columns(old(self).block@, m.gating.rows(), n as nat);
                front_columns(final(self).post@, m.bottleneck(), n as nat) == Seq::new(
                    n as nat,
                    |t: int| m.activated(zs[t], cs[t]),
                )
            }),
    {
        let ghost m = self@;
        let ghost cs = columns(exprs(condition@), m.condition(), n as nat);
        let ghost mid = m.gating.rows();
        let ghost zs = front_columns(self.block@, mid, n as nat);
        let ghost ms = front_columns(self.mix@, mid, n as nat);
        proof {
            lemma_block_len(self.mid as int, n as int);
            lemma_block_len(self.gating.bottleneck as int, n as int);
            assert(self.block.len() == self.mid * MAX_BLOCK);
            assert(self.post.len() == self.gating.bottleneck * MAX_BLOCK);
        }
        let mid_len: usize = self.mid * n;
        let bn_len: usize = self.gating.bottleneck * n;
        let block = front_mut(&mut self.block, mid_len);
        film_block(
            &mut self.films.conv_post,
            block,
            condition,
            n,
            Ghost(mid),
            Ghost(m.condition()),
        );
        let ghost z1 = exprs(block@);
        let mix = front(&self.mix, mid_len);
        add_into(block, mix);
        proof {
            lemma_columns_added(z1, exprs(mix@), mid, n as nat);
        }
        let ghost sums = columns(exprs(block@), mid, n as nat);
        film_block(
            &mut self.films.activation_pre,
            block,
            condition,
            n,
            Ghost(mid),
            Ghost(m.condition()),
        );
        let ghost pre = columns(exprs(block@), mid, n as nat);
        let post = front_mut(&mut self.post, bn_len);
        self.gating.process_block(block, post, n);
        let ghost gated = columns(exprs(post@), m.bottleneck(), n as nat);
        film_block(
            &mut self.films.activation_post,
            post,
            condition,
            n,
            Ghost(m.bottleneck()),
            Ghost(m.condition()),
        );
        proof {
            assert(self.post@.take(bn_len as int) =~= post@);
            let out = columns(exprs(post@), m.bottleneck(), n as nat);
            assert forall|t: int| 0 <= t < n implies #[trigger] out[t] == m.activated(
                zs[t],
                cs[t],
            ) by {
                assert(ms[t] == m.mixed(cs[t]));
                assert(sums[t] == added(filmed(m.films.conv_post, zs[t], cs[t]), m.mixed(cs[t])));
                assert(pre[t] == filmed(m.films.activation_pre, sums[t], cs[t]));
                assert(gated[t] == m.gating.apply(pre[t]));
            }
            assert(out =~= Seq::new(n as nat, |t: int| m.activated(zs[t], cs[t])));
        }
    }

    /// Add the head contribution of `post` to the accumulator.
    fn contribute(&mut self, condition: &[Scalar<A>], head_accum: &mut [Scalar<A>], n: usize)
        requires
            old(self).wf(),
            n <= MAX_BLOCK,
            condition@.len() == old(self)@.condition() * n,
            old(head_accum)@.len() == old(self)@.head_width() * n,
        ensures
            final(self).wf(),
            final(self)@ == old(self)@,
            final(self).post == old(self).post,
            final(head_accum)@.len() == old(head_accum)@.len(),
            ({
                let m = old(self)@;
                let cs = columns(exprs(condition@), m.condition(), n as nat);
                let ps = front_columns(old(self).post@, m.bottleneck(), n as nat);
                let hs = columns(exprs(old(head_accum)@), m.head_width(), n as nat);
                columns(exprs(final(head_accum)@), m.head_width(), n as nat) == Seq::new(
                    n as nat,
                    |t: int| added(hs[t], m.contribution(ps[t], cs[t])),
                )
            }),
    {
        let ghost m = self@;
        let ghost cs = columns(exprs(condition@), m.condition(), n as nat);
        let ghost ps = front_columns(self.post@, m.bottleneck(), n as nat);
        let ghost w = m.head_width();
        proof {
            lemma_block_len(self.head_width as int, n as int);
            lemma_block_len(self.gating.bottleneck as int, n as int);
            assert(self.share.len() == self.head_width * MAX_BLOCK);
            assert(self.post.len() == self.gating.bottleneck * MAX_BLOCK);
        }
        let bn_len: usize = self.gating.bottleneck * n;
        let post = front(&self.post, bn_len);
        match &mut self.head1x1 {
            Some(h) => {
                let share = front_mut(&mut self.share, self.head_width * n);
                one_by_one_block(h, post, share, n);
                film_block(
                    &mut self.films.head1x1_post,
                    share,
                    condition,
                    n,
                    Ghost(w),
                    Ghost(m.condition()),
                );
                add_into(head_accum, share);
                proof {
                    lemma_columns_added(exprs(old(head_accum)@), exprs(share@), w, n as nat);
                }
            },
            None => {
                add_into(head_accum, post);
                proof {
                    lemma_columns_added(exprs(old(head_accum)@), exprs(post@), w, n as nat);
                }
            },
        }
        proof {
            let hs = columns(exprs(old(head_accum)@), w, n as nat);
            assert(columns(exprs(head_accum@), w, n as nat) =~= Seq::new(
                n as nat,
                |t: int| added(hs[t], m.contribution(ps[t], cs[t])),
            ));
        }
    }

    /// Write the residual output made of `post` and the layer's input.
    fn project(
        &mut self,
        input: &[Scalar<A>],
        condition: &[Scalar<A>],
        out: &mut [Scalar<A>],
        n: usize,
    )
        requires
            old(self).wf(),
            n <= MAX_BLOCK,
            condition@.len() == old(self)@.condition() * n,
            input@.len() == old(self)@.channels() * n,
            old(out)@.len() == old(self)@.channels() * n,
        ensures
            final(self).wf(),
            final(self)@ == old(self)@,
            final(out)@.len() == old(out)@.len(),
            ({
                let m = old(self)@;
                let cs = columns(exprs(condition@), m.condition(), n as nat);
                let ps = front_columns(old(self).post@, m.bottleneck(), n as nat);
                let xs = columns(exprs(input@), m.channels(), n as nat);
                columns(exprs(final(out)@), m.channels(), n as nat) == Seq::new(
                    n as nat,
                    |t: int| added(m.projected(ps[t], cs[t]), xs[t]),
                )
            }),
    {
        let ghost m = self@;
        let ghost cs = columns(exprs(condition@), m.condition(), n as nat);
        let ghost ps = front_columns(self.post@, m.bottleneck(), n as nat);
        let ghost w = m.channels();
        proof {
            lemma_block_len(self.gating.bottleneck as int, n as int);
            assert(self.post.len() == self.gating.bottleneck * MAX_BLOCK);
        }
        let bn_len: usize = self.gating.bottleneck * n;
        let post = front(&self.post, bn_len);
        match &mut self.layer1x1 {
            Some(l) => {
                one_by_one_block(l, post, out, n);
                if self.gating.mode == GatingMode::Blended {
                    film_block(
                        &mut self.films.layer1x1_post,
                        out,
                        condition,
                        n,
                        Ghost(w),
                        Ghost(m.condition()),
                    );
                }
            },
            None => {
                copy_into(out, post);
            },
        }
        let ghost os = columns(exprs(out@), w, n as nat);
        proof {
            assert forall|t: int| 0 <= t < n implies #[trigger] os[t] == m.projected(
                ps[t],
                cs[t],
            ) by {}
            lemma_columns_added(exprs(out@), exprs(input@), w, n as nat);
        }
        add_into(out, input);
        proof {
            let xs = columns(exprs(input@), w, n as nat);
            assert(columns(exprs(out@), w, n as nat) =~= Seq::new(
                n as nat,
                |t: int| added(m.projected(ps[t], cs[t]), xs[t]),
            ));
        }
    }

    /// Block twin of [`Self::process_sample`]. All slices are **planar** `[ch][t]`,
    /// `n <= MAX_BLOCK`: `input`/`out` are `channels * n`, `head_accum` is
    /// `head_width * n`, `condition` is `condition_size * n`.
    pub fn process_block(
        &mut self,
        input: &[Scalar<A>],
        condition: &[Scalar<A>],
        head_accum: &mut [Scalar<A>],
        out: &mut [Scalar<A>],
        n: usize,
    )
        requires
            old(self).wf(),
            n <= MAX_BLOCK,
            input@.len() == old(self)@.channels() * n,
            condition@.len() == old(self)@.condition() * n,
            old(head_accum)@.len() == old(self)@.head_width() * n,
            old(out)@.len() == old(self)@.channels() * n,
        ensures
            final(self).wf(),
            final(head_accum)@.len() == old(head_accum)@.len(),
            final(out)@.len() == old(out)@.len(),
            ({
                let m = old(self)@;
                let xs = carries(
                    columns(exprs(input@), m.channels(), n as nat),
                    columns(exprs(old(head_accum)@), m.head_width(), n as nat),
                );
                let cs = columns(exprs(condition@), m.condition(), n as nat);
                let ys = carries(
                    columns(exprs(final(out)@), m.channels(), n as nat),
                    columns(exprs(final(head_accum)@), m.head_width(), n as nat),
                );
                (final(self)@, ys) == run(m, paired(xs, cs))
            }),
    {
        let ghost m = self@;
        let ghost sigs = columns(exprs(input@), m.channels(), n as nat);
        let ghost heads = columns(exprs(head_accum@), m.head_width(), n as nat);
        let ghost xs = carries(sigs, heads);
        let ghost cs = columns(exprs(condition@), m.condition(), n as nat);
        self.convolve(input, condition, n);
        proof {
            lemma_layer_run(m, xs, cs);
            assert(entering(m, xs, cs) =~= Seq::new(n as nat, |t: int| m.enter(sigs[t], cs[t])));
        }
        let ghost m1 = self@;
        let ghost zs = run(m.conv, entering(m, xs, cs)).1;
        self.mix_condition(condition, n);
        self.activate(condition, n);
        let ghost ps = front_columns(self.post@, m.bottleneck(), n as nat);
        self.contribute(condition, head_accum, n);
        self.project(input, condition, out, n);
        proof {
            let ys = carries(
                columns(exprs(out@), m.channels(), n as nat),
                columns(exprs(head_accum@), m.head_width(), n as nat),
            );
            assert forall|t: int| 0 <= t < n implies #[trigger] ys[t] == m.leave(
                xs[t],
                cs[t],
                zs[t],
            ) by {
                assert(ps[t] == m1.activated(zs[t], cs[t]));
                assert(m1.activated(zs[t], cs[t]) == m.activated(zs[t], cs[t]));
                assert(m1.contribution(ps[t], cs[t]) == m.contribution(ps[t], cs[t]));
                assert(m1.projected(ps[t], cs[t]) == m.projected(ps[t], cs[t]));
            }
            assert(ys =~= run(m, paired(xs, cs)).1);
        }
    }

    /// Process one sample.
    ///
    /// - `input`: this layer's input, `channels` wide.
    /// - `condition`: the conditioning signal, `condition_size` wide.
    /// - `head_accum`: the head accumulator; this layer's contribution is *added* to it.
    /// - `out`: `channels`-wide residual output for the next layer.
    pub fn process_sample(
        &mut self,
        input: &[Scalar<A>],
        condition: &[Scalar<A>],
        head_accum: &mut [Scalar<A>],
        out: &mut [Scalar<A>],
    )
        requires
            old(self).wf(),
            input@.len() == old(self)@.channels(),
            condition@.len() == old(self)@.condition(),
            old(head_accum)@.len() == old(self)@.head_width(),
            old(out)@.len() == old(self)@.channels(),
        ensures
            final(self).wf(),
            final(head_accum)@.len() == old(head_accum)@.len(),
            final(out)@.len() == old(out)@.len(),
            (final(self)@, (Carry { signal: exprs(final(out)@), head: exprs(final(head_accum)@) }))
                == old(self)@.step(
                ((Carry { signal: exprs(input@), head: exprs(old(head_accum)@) }), exprs(
                    condition@,
                )),
            ),
    {
        let ghost m = self@;
        let ghost x = Carry { signal: exprs(input@), head: exprs(head_accum@) };
        let ghost c = exprs(condition@);
        proof {
            lemma_columns_one(exprs(input@));
            lemma_columns_one(exprs(head_accum@));
            lemma_columns_one(c);
            lemma_run_one(m, (x, c));
            assert(paired(carries(seq![x.signal], seq![x.head]), seq![c]) =~= seq![(x, c)]);
        }
        self.process_block(input, condition, head_accum, out, 1);
        proof {
            lemma_columns_one(exprs(out@));
            lemma_columns_one(exprs(head_accum@));
            let y = Carry { signal: exprs(out@), head: exprs(head_accum@) };
            assert(carries(seq![y.signal], seq![y.head])[0] == y);
            assert(seq![m.step((x, c)).1][0] == m.step((x, c)).1);
        }
    }

    /// Clear the history to silence.
    pub fn reset(&mut self)
        requires
            old(self).wf(),
        ensures
            final(self).wf(),
            final(self)@ == old(self)@.fresh(),
    {
        self.conv.reset();
        proof {
            self.conv.lemma_valid();
        }
    }
}

fn copied_site<A: Arith>(site: &Option<FiLM<A>>) -> (r: Option<FiLM<A>>)
    ensures
        site_view(r) == site_view(*site),
        site_wf(r) == site_wf(*site),
{
    match site {
        Some(f) => Some(f.clone()),
        None => None,
    }
}

fn copied_conv<A: Arith>(conv: &Option<Conv1d<A>>) -> (r: Option<Conv1d<A>>)
    ensures
        conv_view(r) == conv_view(*conv),
        (r matches Some(c) ==> c.wf()) == (*conv matches Some(c) ==> c.wf()),
{
    match conv {
        Some(c) => Some(c.clone()),
        None => None,
    }
}

impl<A: Arith> Clone for Films<A> {
    fn clone(&self) -> (r: Self)
        ensures
            r@ == self@,
            r.wf() == self.wf(),
    {
        Films {
            conv_pre: copied_site(&self.conv_pre),
            conv_post: copied_site(&self.conv_post),
            mixin_pre: copied_site(&self.mixin_pre),
            mixin_post: copied_site(&self.mixin_post),
            activation_pre: copied_site(&self.activation_pre),
            activation_post: copied_site(&self.activation_post),
            layer1x1_post: copied_site(&self.layer1x1_post),
            head1x1_post: copied_site(&self.head1x1_post),
        }
    }
}

impl<A: Arith> Clone for Layer<A> {
    fn clone(&self) -> (r: Self)
        ensures
            r@ == self@,
            r.wf() == self.wf(),
    {
        Layer {
            conv: self.conv.clone(),
            mixin: self.mixin.clone(),
            layer1x1: copied_conv(&self.layer1x1),
            head1x1: copied_conv(&self.head1x1),
            gating: self.gating,
            films: self.films.clone(),
            channels: self.channels,
            condition: self.condition,
            mid: self.mid,
            head_width: self.head_width,
            entry: duplicate(&self.entry),
            block: duplicate(&self.block),
            mix_in: duplicate(&self.mix_in),
            mix: duplicate(&self.mix),
            post: duplicate(&self.post),
            share: duplicate(&self.share),
        }
    }
}

} // verus!
