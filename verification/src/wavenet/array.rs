//! A layer-array: an input rechannel, a stack of dilated [`Layer`]s, and a head
//! rechannel that maps the accumulated head signal to this array's `head_size`.
//!
//! The head accumulator is seeded with the *incoming* head (the previous array's head
//! output, or silence for the first array), each layer adds its contribution to it,
//! and the head rechannel projects the result:
//!
//! ```text
//! x = rechannel(input)
//! head_accum = head_in
//! for layer: x, head_accum = layer(x, condition, head_accum)
//! head_out = head_rechannel(head_accum)
//! ```

use vstd::prelude::*;
use crate::arith::{exprs, Arith, Expr, Scalar};
use crate::engine::layers_reach;
use crate::signal::{
    chain_step, columns, copy_into, duplicate, front, front_columns, front_mut, lemma_block_len,
    lemma_chain_empty, lemma_chain_len, lemma_chain_run, lemma_columns_one, lemma_run_len,
    lemma_run_one, paired, run, Chain, Machine, MAX_BLOCK,
};
use crate::wavenet::conv::{lemma_conv_kept, lemma_one_by_one, Conv1d, ConvModel};
use crate::wavenet::layer::{carries, lemma_layer_kept, one_by_one, Carry, Layer, LayerModel};
use vstd::arithmetic::overflow::CheckedUsize;

verus! {

/// A stack of dilated layers between two rechannels.
#[verifier::ext_equal]
pub struct ArrayModel<N> {
    pub rechannel: ConvModel<N>,
    pub layers: Seq<LayerModel<N>>,
    pub head_rechannel: ConvModel<N>,
}

/// The head signals of a stream.
pub open spec fn heads_of<N>(ys: Seq<Carry<N>>) -> Seq<Seq<Expr<N>>> {
    Seq::new(ys.len(), |t: int| ys[t].head)
}

impl<N> ArrayModel<N> {
    /// Width of the input.
    pub open spec fn input_size(self) -> nat {
        self.rechannel.in_ch
    }

    /// Width of the layer signal.
    pub open spec fn channels(self) -> nat {
        self.rechannel.out_ch
    }

    /// Width of the conditioning.
    pub open spec fn condition(self) -> nat {
        self.layers[0].condition()
    }

    /// Width of the head accumulator.
    pub open spec fn head_in(self) -> nat {
        self.head_rechannel.in_ch
    }

    /// Width of the head output.
    pub open spec fn head_size(self) -> nat {
        self.head_rechannel.out_ch
    }

    /// Whether layer `i` fits into the stack.
    pub open spec fn layer_fits(self, i: int) -> bool {
        &&& self.layers[i].valid()
        &&& self.layers[i].channels() == self.channels()
        &&& self.layers[i].condition() == self.condition()
        &&& self.layers[i].head_width() == self.head_in()
    }

    /// The parts fit together.
    pub open spec fn valid(self) -> bool {
        &&& one_by_one(self.rechannel, self.input_size(), self.channels())
        &&& self.head_rechannel.valid()
        &&& self.layers.len() > 0
        &&& forall|i: int| 0 <= i < self.layers.len() ==> #[trigger] self.layer_fits(i)
    }

    /// What the first layer is given.
    pub open spec fn enter(self, x: Carry<N>) -> Carry<N> {
        Carry { signal: self.rechannel.apply(x.signal), head: x.head }
    }

    /// The same array, remembering silence.
    pub open spec fn fresh(self) -> Self {
        ArrayModel {
            layers: Seq::new(self.layers.len(), |i: int| self.layers[i].fresh()),
            head_rechannel: self.head_rechannel.fresh(),
            ..self
        }
    }
}

impl<N> Machine<(Carry<N>, Seq<Expr<N>>), Carry<N>> for ArrayModel<N> {
    open spec fn step(self, x: (Carry<N>, Seq<Expr<N>>)) -> (Self, Carry<N>) {
        let stack = chain_step(self.layers, self.enter(x.0), x.1);
        let head = self.head_rechannel.step(stack.1.head);
        (
            ArrayModel { layers: stack.0, head_rechannel: head.0, ..self },
            Carry { signal: stack.1.signal, head: head.1 },
        )
    }
}

/// What the first layer is given over time.
pub open spec fn stacked<N>(m: ArrayModel<N>, xs: Seq<Carry<N>>) -> Seq<Carry<N>> {
    Seq::new(xs.len(), |t: int| m.enter(xs[t]))
}

/// An array may be run part by part: its layers over the whole stream, then its head
/// rechannel.
pub proof fn lemma_array_run<N>(m: ArrayModel<N>, xs: Seq<Carry<N>>, cs: Seq<Seq<Expr<N>>>)
    requires
        xs.len() == cs.len(),
    ensures
        ({
            let stack = run(Chain { stages: m.layers }, paired(stacked(m, xs), cs));
            let head = run(m.head_rechannel, heads_of(stack.1));
            let whole = run(m, paired(xs, cs));
            &&& stack.1.len() == xs.len()
            &&& head.1.len() == xs.len()
            &&& whole.0 == (ArrayModel { layers: stack.0.stages, head_rechannel: head.0, ..m })
            &&& whole.1 =~= Seq::new(
                xs.len(),
                |t: int| Carry { signal: stack.1[t].signal, head: head.1[t] },
            )
        }),
    decreases xs.len(),
{
    let es = stacked(m, xs);
    let chain = Chain { stages: m.layers };
    let stack = run(chain, paired(es, cs));
    lemma_run_len(chain, paired(es, cs));
    let head = run(m.head_rechannel, heads_of(stack.1));
    lemma_run_len(m.head_rechannel, heads_of(stack.1));
    if xs.len() > 0 {
        let xs1 = xs.drop_last();
        let cs1 = cs.drop_last();
        let es1 = stacked(m, xs1);
        assert(paired(xs, cs).drop_last() =~= paired(xs1, cs1));
        assert(paired(es, cs).drop_last() =~= paired(es1, cs1));
        lemma_array_run(m, xs1, cs1);
        let stack1 = run(chain, paired(es1, cs1));
        lemma_run_len(chain, paired(es1, cs1));
        assert(heads_of(stack.1).drop_last() =~= heads_of(stack1.1));
        lemma_run_len(m.head_rechannel, heads_of(stack1.1));
    } else {
        assert(paired(es, cs) =~= Seq::empty());
        assert(heads_of(stack.1) =~= Seq::empty());
        assert(stack.0.stages =~= m.layers);
    }
}

/// Whether `b` is `a` after a run: the same layers, differing only in what they
/// remember.
pub open spec fn same_layers<N>(a: Seq<LayerModel<N>>, b: Seq<LayerModel<N>>) -> bool {
    &&& a.len() == b.len()
    &&& forall|i: int|
        0 <= i < a.len() ==> (#[trigger] b[i]).fresh() == a[i].fresh() && b[i].channels()
            == a[i].channels() && b[i].condition() == a[i].condition() && b[i].head_width()
            == a[i].head_width()
}

/// A run changes only what the layers of a stack remember.
pub proof fn lemma_stack_kept<N>(
    layers: Seq<LayerModel<N>>,
    xs: Seq<Carry<N>>,
    cs: Seq<Seq<Expr<N>>>,
)
    requires
        xs.len() == cs.len(),
    ensures
        same_layers(layers, run(Chain { stages: layers }, paired(xs, cs)).0.stages),
    decreases layers.len(),
{
    let whole = run(Chain { stages: layers }, paired(xs, cs));
    lemma_chain_len(Chain { stages: layers }, paired(xs, cs));
    if layers.len() > 0 {
        lemma_chain_run(layers, xs, cs);
        let front = run(Chain { stages: layers.drop_last() }, paired(xs, cs));
        lemma_stack_kept(layers.drop_last(), xs, cs);
        lemma_layer_kept(layers.last(), front.1, cs);
        assert forall|i: int| 0 <= i < layers.len() implies (
        #[trigger] whole.0.stages[i]).fresh() == layers[i].fresh() && whole.0.stages[i].channels()
            == layers[i].channels() && whole.0.stages[i].condition() == layers[i].condition()
            && whole.0.stages[i].head_width() == layers[i].head_width() by {
            if i < layers.len() - 1 {
                assert(whole.0.stages[i] == front.0.stages[i]);
                assert(layers.drop_last()[i] == layers[i]);
            }
        }
    }
}

/// A run changes only what an array remembers.
pub proof fn lemma_array_kept<N>(m: ArrayModel<N>, xs: Seq<Carry<N>>, cs: Seq<Seq<Expr<N>>>)
    requires
        xs.len() == cs.len(),
    ensures
        ({
            let after = run(m, paired(xs, cs)).0;
            &&& after.fresh() == m.fresh()
            &&& after.rechannel == m.rechannel
            &&& after.head_rechannel.in_ch == m.head_rechannel.in_ch
            &&& after.head_rechannel.out_ch == m.head_rechannel.out_ch
            &&& same_layers(m.layers, after.layers)
        }),
{
    lemma_array_run(m, xs, cs);
    let stack = run(Chain { stages: m.layers }, paired(stacked(m, xs), cs));
    lemma_stack_kept(m.layers, stacked(m, xs), cs);
    lemma_conv_kept(m.head_rechannel, heads_of(stack.1));
    let after = run(m, paired(xs, cs)).0;
    assert(after.fresh().layers =~= m.fresh().layers);
}

/// A stack of dilated layers sharing channel parameters.
pub struct LayerArray<A: Arith> {
    rechannel: Conv1d<A>,
    layers: Vec<Layer<A>>,
    head_rechannel: Conv1d<A>,
    channels: usize,
    condition: usize,
    head_in: usize,
    head_size: usize,
    /// Planar `[channels][MAX_BLOCK]` scratch: the current layer signal.
    cur: Vec<Scalar<A>>,
    /// Planar `[channels][MAX_BLOCK]` scratch: the next layer signal.
    nxt: Vec<Scalar<A>>,
    /// Planar `[head_in][MAX_BLOCK]` head accumulator.
    head_accum: Vec<Scalar<A>>,
}

/// What the layers compute.
pub open spec fn layer_views<A: Arith>(layers: Seq<Layer<A>>) -> Seq<LayerModel<A::Num>> {
    Seq::new(layers.len(), |i: int| layers[i]@)
}

impl<A: Arith> View for LayerArray<A> {
    type V = ArrayModel<A::Num>;

    closed spec fn view(&self) -> ArrayModel<A::Num> {
        ArrayModel {
            rechannel: self.rechannel@,
            layers: layer_views(self.layers@),
            head_rechannel: self.head_rechannel@,
        }
    }
}

impl<A: Arith> LayerArray<A> {
    /// The parts fit together and the scratch buffers have their sizes.
    pub closed spec fn wf(self) -> bool {
        &&& self.rechannel.wf()
        &&& self.head_rechannel.wf()
        &&& forall|i: int| 0 <= i < self.layers@.len() ==> (#[trigger] self.layers@[i]).wf()
        &&& self@.valid()
        &&& self.channels == self@.channels()
        &&& self.condition == self@.condition()
        &&& self.head_in == self@.head_in()
        &&& self.head_size == self@.head_size()
        &&& self.cur@.len() == self.channels * MAX_BLOCK
        &&& self.nxt@.len() == self.channels * MAX_BLOCK
        &&& self.head_accum@.len() == self.head_in * MAX_BLOCK
    }

    /// A well-formed array has a valid model.
    pub proof fn lemma_valid(self)
        requires
            self.wf(),
        ensures
            self@.valid(),
    {
    }

    /// Build an array from parts that fit together.
    pub fn from_parts(rechannel: Conv1d<A>, layers: Vec<Layer<A>>, head_rechannel: Conv1d<A>) -> (r:
        Self)
        requires
            rechannel.wf(),
            head_rechannel.wf(),
            forall|i: int| 0 <= i < layers@.len() ==> (#[trigger] layers@[i]).wf(),
            (ArrayModel {
                rechannel: rechannel@,
                layers: layer_views(layers@),
                head_rechannel: head_rechannel@,
            }).valid(),
            rechannel@.out_ch * MAX_BLOCK <= usize::MAX,
            head_rechannel@.in_ch * MAX_BLOCK <= usize::MAX,
        ensures
            r.wf(),
            r@ == (ArrayModel {
                rechannel: rechannel@,
                layers: layer_views(layers@),
                head_rechannel: head_rechannel@,
            }),
    {
        let channels: usize = rechannel.out_ch();
        let head_in: usize = head_rechannel.in_ch();
        let head_size: usize = head_rechannel.out_ch();
        let condition: usize = layers[0].condition_size();
        LayerArray {
            rechannel,
            layers,
            head_rechannel,
            channels,
            condition,
            head_in,
            head_size,
            cur: vec![Scalar::zero(); channels * MAX_BLOCK],
            nxt: vec![Scalar::zero(); channels * MAX_BLOCK],
            head_accum: vec![Scalar::zero(); head_in * MAX_BLOCK],
        }
    }

    /// Build an array of plain layers, whose rechannels are 1x1 convolutions: the first
    /// without a bias, the head's with one where `head_b` is given.
    pub fn new(
        input_size: usize,
        channels: usize,
        head_size: usize,
        rechannel_w: Vec<Scalar<A>>,
        layers: Vec<Layer<A>>,
        head_w: Vec<Scalar<A>>,
        head_b: Option<Vec<Scalar<A>>>,
    ) -> (r: Self)
        requires
            rechannel_w@.len() == channels * input_size,
            head_w@.len() == head_size * channels,
            head_b matches Some(b) ==> b@.len() == head_size,
            Conv1d::<A>::fits(input_size as nat, 1, 1),
            Conv1d::<A>::fits(channels as nat, 1, 1),
            layers@.len() > 0,
            forall|i: int|
                0 <= i < layers@.len() ==> (#[trigger] layers@[i]).wf() && layers@[i]@.channels()
                    == channels && layers@[i]@.head_width() == channels
                    && layers@[i]@.condition() == layers@[0]@.condition(),
        ensures
            r.wf(),
            r@ == (ArrayModel {
                rechannel: ConvModel::made(
                    input_size as nat,
                    channels as nat,
                    1,
                    1,
                    exprs(rechannel_w@),
                    None,
                ),
                layers: layer_views(layers@),
                head_rechannel: ConvModel::made(
                    channels as nat,
                    head_size as nat,
                    1,
                    1,
                    exprs(head_w@),
                    match head_b {
                        Some(b) => Some(exprs(b@)),
                        None => None,
                    },
                ),
            }),
    {
        let rechannel = Conv1d::new(input_size, channels, 1, 1, rechannel_w, None);
        let head_rechannel = Conv1d::new(channels, head_size, 1, 1, head_w, head_b);
        proof {
            let m = ArrayModel {
                rechannel: rechannel@,
                layers: layer_views(layers@),
                head_rechannel: head_rechannel@,
            };
            assert forall|i: int| 0 <= i < m.layers.len() implies #[trigger] m.layer_fits(i) by {
                layers@[i].lemma_valid();
            }
            assert(channels * MAX_BLOCK == channels * ((1 - 1) * 1 + MAX_BLOCK));
        }
        LayerArray::from_parts(rechannel, layers, head_rechannel)
    }

    /// Width of the layer signal.
    pub fn channels(&self) -> (r: usize)
        requires
            self.wf(),
        ensures
            r == self@.channels(),
    {
        self.channels
    }

    /// Width of the head output.
    pub fn head_size(&self) -> (r: usize)
        requires
            self.wf(),
        ensures
            r == self@.head_size(),
    {
        self.head_size
    }

    /// Width of the head accumulator.
    pub fn head_in(&self) -> (r: usize)
        requires
            self.wf(),
        ensures
            r == self@.head_in(),
    {
        self.head_in
    }

    /// How far back the layers and the head rechannel reach in all.
    pub fn reach(&self) -> (r: CheckedUsize)
        requires
            self.wf(),
        ensures
            r@ == layers_reach(self@.layers) + self@.head_rechannel.reach(),
    {
        let ghost layers = self@.layers;
        let mut total = CheckedUsize::new(0);
        let mut i: usize = 0;
        assert(layers.take(0) =~= Seq::empty());
        while i < self.layers.len()
            invariant
                self.wf(),
                layers == self@.layers,
                layers.len() == self.layers@.len(),
                i <= layers.len(),
                total@ == layers_reach(layers.take(i as int)),
            decreases layers.len() - i,
        {
            assert(layers.take(i + 1).drop_last() =~= layers.take(i as int));
            assert(layers.take(i + 1).last() == self.layers@[i as int]@);
            total = total.add_value(self.layers[i].reach());
            i += 1;
        }
        assert(layers.take(i as int) =~= layers);
        total.add_value(self.head_rechannel.reach())
    }

    /// Run the layers over a block, from `cur` and `head_accum` to the same places.
    fn run_layers(&mut self, condition: &[Scalar<A>], n: usize)
        requires
            old(self).wf(),
            n <= MAX_BLOCK,
            condition@.len() == old(self)@.condition() * n,
        ensures
            final(self).wf(),
            ({
                let m = old(self)@;
                let cs = columns(exprs(condition@), m.condition(), n as nat);
                let xs = carries(
                    front_columns(old(self).cur@, m.channels(), n as nat),
                    front_columns(old(self).head_accum@, m.head_in(), n as nat),
                );
                let ys = carries(
                    front_columns(final(self).cur@, m.channels(), n as nat),
                    front_columns(final(self).head_accum@, m.head_in(), n as nat),
                );
                let stack = run(Chain { stages: m.layers }, paired(xs, cs));
                &&& final(self)@ == (ArrayModel { layers: stack.0.stages, ..m })
                &&& ys == stack.1
            }),
    {
        let ghost m = self@;
        let ghost cs = columns(exprs(condition@), m.condition(), n as nat);
        let ghost xs = carries(
            front_columns(self.cur@, m.channels(), n as nat),
            front_columns(self.head_accum@, m.head_in(), n as nat),
        );
        proof {
            lemma_block_len(self.channels as int, n as int);
            lemma_block_len(self.head_in as int, n as int);
            assert(self.cur.len() == self.channels * MAX_BLOCK);
            assert(self.head_accum.len() == self.head_in * MAX_BLOCK);
            assert(m.layers.take(0) =~= Seq::empty());
            lemma_chain_empty(m.layers.take(0), xs, cs);
        }
        let len: usize = self.layers.len();
        let ch_len: usize = self.channels * n;
        let head_len: usize = self.head_in * n;
        let mut i: usize = 0;
        while i < len
            invariant
                *self == (LayerArray {
                    layers: self.layers,
                    cur: self.cur,
                    nxt: self.nxt,
                    head_accum: self.head_accum,
                    ..*old(self)
                }),
                m == old(self)@,
                old(self).wf(),
                m.valid(),
                n <= MAX_BLOCK,
                condition@.len() == m.condition() * n,
                cs == columns(exprs(condition@), m.condition(), n as nat),
                xs.len() == n,
                len == m.layers.len(),
                self.layers@.len() == len,
                forall|j: int| 0 <= j < len ==> (#[trigger] self.layers@[j]).wf(),
                self.channels == m.channels(),
                self.head_in == m.head_in(),
                ch_len == m.channels() * n,
                head_len == m.head_in() * n,
                self.cur@.len() == self.channels * MAX_BLOCK,
                self.nxt@.len() == self.channels * MAX_BLOCK,
                self.head_accum@.len() == self.head_in * MAX_BLOCK,
                ch_len <= self.channels * MAX_BLOCK,
                head_len <= self.head_in * MAX_BLOCK,
                i <= len,
                forall|j: int| i <= j < len ==> (#[trigger] self.layers@[j])@ == m.layers[j],
                ({
                    let part = run(Chain { stages: m.layers.take(i as int) }, paired(xs, cs));
                    &&& part.0.stages.len() == i
                    &&& forall|j: int|
                        0 <= j < i ==> (#[trigger] self.layers@[j])@ == part.0.stages[j]
                    &&& carries(
                        front_columns(self.cur@, m.channels(), n as nat),
                        front_columns(self.head_accum@, m.head_in(), n as nat),
                    ) == part.1
                }),
            decreases len - i,
        {
            let ghost stages = m.layers.take(i + 1);
            let ghost part = run(Chain { stages: m.layers.take(i as int) }, paired(xs, cs));
            let ghost earlier = self.layers@;
            assert(m.layer_fits(i as int));
            assert(self.layers@[i as int]@ == m.layers[i as int]);
            let head = front_mut(&mut self.head_accum, head_len);
            let nxt = front_mut(&mut self.nxt, ch_len);
            let cur = front(&self.cur, ch_len);
            self.layers[i].process_block(cur, condition, head, nxt, n);
            proof {
                assert(self.head_accum@.take(head_len as int) =~= head@);
                assert(self.nxt@.take(ch_len as int) =~= nxt@);
                assert(stages.drop_last() =~= m.layers.take(i as int));
                assert(stages.last() == m.layers[i as int]);
                lemma_chain_run(stages, xs, cs);
                lemma_chain_len(Chain { stages }, paired(xs, cs));
                lemma_layer_kept(m.layers[i as int], part.1, cs);
                assert forall|j: int| 0 <= j < i implies (#[trigger] self.layers@[j])@
                    == part.0.stages[j] by {
                    assert(self.layers@[j] == earlier[j]);
                }
                assert forall|j: int| i + 1 <= j < len implies (#[trigger] self.layers@[j])@
                    == m.layers[j] by {
                    assert(self.layers@[j] == earlier[j]);
                }
                assert forall|j: int| 0 <= j < len implies (#[trigger] self.layers@[j]).wf() by {
                    if j != i {
                        assert(self.layers@[j] == earlier[j]);
                    }
                }
            }
            std::mem::swap(&mut self.cur, &mut self.nxt);
            i += 1;
        }
        proof {
            assert(m.layers.take(len as int) =~= m.layers);
            let stack = run(Chain { stages: m.layers }, paired(xs, cs));
            assert(self@.layers =~= stack.0.stages);
            lemma_stack_kept(m.layers, xs, cs);
            assert forall|j: int| 0 <= j < self@.layers.len() implies #[trigger] self@.layer_fits(
                j,
            ) by {
                assert(m.layer_fits(j));
                assert(m.layer_fits(0));
                self.layers@[j].lemma_valid();
            }
        }
    }

    /// Block twin of [`Self::process_sample`]. All slices are **planar** `[ch][t]`,
    /// `n <= MAX_BLOCK`: `input` is `input_size * n`, `head_in` is the accumulator's
    /// width times `n`, `array_out` is `channels * n`, `head_out` is `head_size * n`.
    pub fn process_block(
        &mut self,
        input: &[Scalar<A>],
        condition: &[Scalar<A>],
        head_in: &[Scalar<A>],
        head_out: &mut [Scalar<A>],
        array_out: &mut [Scalar<A>],
        n: usize,
    )
        requires
            old(self).wf(),
            n <= MAX_BLOCK,
            input@.len() == old(self)@.input_size() * n,
            condition@.len() == old(self)@.condition() * n,
            head_in@.len() == old(self)@.head_in() * n,
            old(head_out)@.len() == old(self)@.head_size() * n,
            old(array_out)@.len() == old(self)@.channels() * n,
        ensures
            final(self).wf(),
            final(head_out)@.len() == old(head_out)@.len(),
            final(array_out)@.len() == old(array_out)@.len(),
            ({
                let m = old(self)@;
                let xs = carries(
                    columns(exprs(input@), m.input_size(), n as nat),
                    columns(exprs(head_in@), m.head_in(), n as nat),
                );
                let cs = columns(exprs(condition@), m.condition(), n as nat);
                let ys = carries(
                    columns(exprs(final(array_out)@), m.channels(), n as nat),
                    columns(exprs(final(head_out)@), m.head_size(), n as nat),
                );
                (final(self)@, ys) == run(m, paired(xs, cs))
            }),
    {
        let ghost m = self@;
        let ghost xs = carries(
            columns(exprs(input@), m.input_size(), n as nat),
            columns(exprs(head_in@), m.head_in(), n as nat),
        );
        let ghost cs = columns(exprs(condition@), m.condition(), n as nat);
        proof {
            lemma_block_len(self.channels as int, n as int);
            lemma_block_len(self.head_in as int, n as int);
            assert(self.cur.len() == self.channels * MAX_BLOCK);
            assert(self.head_accum.len() == self.head_in * MAX_BLOCK);
            lemma_one_by_one(m.rechannel, columns(exprs(input@), m.input_size(), n as nat));
            lemma_array_run(m, xs, cs);
        }
        let ch_len: usize = self.channels * n;
        let head_len: usize = self.head_in * n;
        let cur = front_mut(&mut self.cur, ch_len);
        self.rechannel.process_block(input, cur, n);
        let accum = front_mut(&mut self.head_accum, head_len);
        copy_into(accum, head_in);
        proof {
            assert(self.cur@.take(ch_len as int) =~= cur@);
            assert(self.head_accum@.take(head_len as int) =~= accum@);
            assert(carries(
                front_columns(self.cur@, m.channels(), n as nat),
                front_columns(self.head_accum@, m.head_in(), n as nat),
            ) =~= stacked(m, xs));
            assert(self@ =~= m);
        }
        self.run_layers(condition, n);
        let ghost stack = run(Chain { stages: m.layers }, paired(stacked(m, xs), cs));
        proof {
            lemma_block_len(self.channels as int, n as int);
            lemma_block_len(self.head_in as int, n as int);
            assert(heads_of(stack.1) =~= front_columns(self.head_accum@, m.head_in(), n as nat));
            lemma_conv_kept(m.head_rechannel, heads_of(stack.1));
            self.head_rechannel.lemma_valid();
        }
        let ghost valid = self@;
        let accum = front(&self.head_accum, head_len);
        self.head_rechannel.process_block(accum, head_out, n);
        let cur = front(&self.cur, ch_len);
        copy_into(array_out, cur);
        proof {
            self.head_rechannel.lemma_valid();
            let ys = carries(
                columns(exprs(array_out@), m.channels(), n as nat),
                columns(exprs(head_out@), m.head_size(), n as nat),
            );
            assert(ys =~= run(m, paired(xs, cs)).1);
            assert forall|j: int| 0 <= j < self@.layers.len() implies #[trigger] self@.layer_fits(
                j,
            ) by {
                assert(valid.layer_fits(j));
            }
        }
    }

    /// Process one sample.
    ///
    /// - `input`: `input_size` wide.
    /// - `condition`: conditioning signal.
    /// - `head_in`: incoming head (silence for the first array).
    /// - `head_out`: `head_size`-wide head output.
    /// - `array_out`: `channels`-wide output for the next array.
    pub fn process_sample(
        &mut self,
        input: &[Scalar<A>],
        condition: &[Scalar<A>],
        head_in: &[Scalar<A>],
        head_out: &mut [Scalar<A>],
        array_out: &mut [Scalar<A>],
    )
        requires
            old(self).wf(),
            input@.len() == old(self)@.input_size(),
            condition@.len() == old(self)@.condition(),
            head_in@.len() == old(self)@.head_in(),
            old(head_out)@.len() == old(self)@.head_size(),
            old(array_out)@.len() == old(self)@.channels(),
        ensures
            final(self).wf(),
            final(head_out)@.len() == old(head_out)@.len(),
            final(array_out)@.len() == old(array_out)@.len(),
            (final(self)@, (Carry { signal: exprs(final(array_out)@), head: exprs(final(head_out)@) }))
                == old(self)@.step(
                ((Carry { signal: exprs(input@), head: exprs(head_in@) }), exprs(condition@)),
            ),
    {
        let ghost m = self@;
        let ghost x = Carry { signal: exprs(input@), head: exprs(head_in@) };
        let ghost c = exprs(condition@);
        proof {
            lemma_columns_one(exprs(input@));
            lemma_columns_one(exprs(head_in@));
            lemma_columns_one(c);
            lemma_run_one(m, (x, c));
            assert(paired(carries(seq![x.signal], seq![x.head]), seq![c]) =~= seq![(x, c)]);
        }
        self.process_block(input, condition, head_in, head_out, array_out, 1);
        proof {
            lemma_columns_one(exprs(array_out@));
            lemma_columns_one(exprs(head_out@));
            let y = Carry { signal: exprs(array_out@), head: exprs(head_out@) };
            assert(carries(seq![y.signal], seq![y.head])[0] == y);
            assert(seq![m.step((x, c)).1][0] == m.step((x, c)).1);
        }
    }

    /// Clear the history to silence.
    pub fn reset(&mut self)
        requires
            old(self).wf(),
        ensures
            final(self).wf(),
            final(self)@ == old(self)@.fresh(),
    {
        let ghost m = self@;
        self.head_rechannel.reset();
        let len: usize = self.layers.len();
        let mut i: usize = 0;
        while i < len
            invariant
                *self == (LayerArray {
                    layers: self.layers,
                    head_rechannel: self.head_rechannel,
                    ..*old(self)
                }),
                m == old(self)@,
                len == m.layers.len(),
                self.layers@.len() == len,
                forall|j: int| 0 <= j < len ==> (#[trigger] self.layers@[j]).wf(),
                i <= len,
                forall|j: int| i <= j < len ==> (#[trigger] self.layers@[j])@ == m.layers[j],
                forall|j: int| 0 <= j < i ==> (#[trigger] self.layers@[j])@ == m.layers[j].fresh(),
                self.head_rechannel.wf(),
                self.head_rechannel@ == m.head_rechannel.fresh(),
            decreases len - i,
        {
            let ghost earlier = self.layers@;
            self.layers[i].reset();
            proof {
                assert forall|j: int| 0 <= j < len && j != i implies #[trigger] self.layers@[j]
                    == earlier[j] by {}
            }
            i += 1;
        }
        proof {
            assert(self@ =~= m.fresh());
            self.head_rechannel.lemma_valid();
            assert forall|j: int| 0 <= j < self@.layers.len() implies #[trigger] self@.layer_fits(
                j,
            ) by {
                assert(m.layer_fits(j));
                assert(m.layer_fits(0));
                self.layers@[j].lemma_valid();
            }
        }
    }
}

impl<A: Arith> Clone for LayerArray<A> {
    fn clone(&self) -> (r: Self)
        ensures
            r@ == self@,
            self.wf() ==> r.wf(),
    {
        let mut layers: Vec<Layer<A>> = Vec::new();
        let mut i: usize = 0;
        while i < self.layers.len()
            invariant
                i <= self.layers@.len(),
                layers@.len() == i,
                forall|j: int|
                    0 <= j < i ==> (#[trigger] layers@[j])@ == self.layers@[j]@ && layers@[j].wf()
                        == self.layers@[j].wf(),
            decreases self.layers@.len() - i,
        {
            layers.push(self.layers[i].clone());
            i += 1;
        }
        let r = LayerArray {
            rechannel: self.rechannel.clone(),
            layers,
            head_rechannel: self.head_rechannel.clone(),
            channels: self.channels,
            condition: self.condition,
            head_in: self.head_in,
            head_size: self.head_size,
            cur: duplicate(&self.cur),
            nxt: duplicate(&self.nxt),
            head_accum: duplicate(&self.head_accum),
        };
        assert(r@.layers =~= self@.layers);
        r
    }
}

} // verus!
