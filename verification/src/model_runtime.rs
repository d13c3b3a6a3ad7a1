//! Architecture-agnostic runtime: [`Model`] dispatches over the `.nam`'s declared
//! architecture so consumers run any supported model without branching.

use vstd::prelude::*;
use crate::arith::{comparison, evaluates, exprs, Arith, Expr, Scalar};
use crate::engine::{
    conveyed_all, lemma_engine_run_lstm, lemma_engine_run_slimmable, lemma_engine_run_wavenet, EngineModel,
    SlimModel,
};
use crate::json::JsonNumber;
use crate::lstm::Lstm;
use crate::metadata::Calibration;
use crate::signal::{columns, inputs, lemma_columns_mono, run, Machine, MAX_BLOCK};
use crate::wavenet::WaveNet;

verus! {

impl<N> SlimModel<N> {
    /// The container with submodel `index` active, or the last where there is none such.
    pub open spec fn selecting(self, index: nat) -> SlimModel<N> {
        SlimModel {
            active: if index < self.submodels.len() {
                index
            } else {
                (self.submodels.len() - 1) as nat
            },
            ..self
        }
    }
}

/// Whether `verdict` can be what the arithmetic answers to whether threshold `i` exceeds
/// `value`.
pub open spec fn passes<A: Arith>(
    max: Seq<JsonNumber>,
    value: A::Num,
    i: int,
    verdict: bool,
) -> bool {
    comparison::<A>(Expr::Constant(max[i]), Expr::Input(value), verdict)
}

/// Whether the width dial at `value` can activate submodel `a`: its threshold is the first
/// that exceeds `value`, or none does and it is the last.
pub open spec fn dialled<A: Arith>(max: Seq<JsonNumber>, value: A::Num, a: int) -> bool {
    ||| passes::<A>(max, value, a, true) && forall|i: int|
        0 <= i < a ==> #[trigger] passes::<A>(max, value, i, false)
    ||| a == max.len() - 1 && forall|i: int|
        0 <= i < max.len() ==> #[trigger] passes::<A>(max, value, i, false)
}


/// A runnable NAM model of any supported architecture.
///
/// Build with [`Model::from_nam`]; then call [`Model::process_buffer`] on the audio
/// thread.
#[non_exhaustive]
pub enum Model<A: Arith> {
    /// A WaveNet model.
    WaveNet(Box<WaveNet<A>>),
    /// An LSTM model.
    Lstm(Lstm<A>),
    /// A width-selectable container of submodels.
    Slimmable(Slimmable<A>),
}

/// A width-selectable set of pre-built submodels.
///
/// All submodels are built up front, so switching the active one is a single index
/// write. Each submodel keeps its own streaming state, so switching mid-stream leaves
/// a short warmup transient on the newly-selected submodel. The container itself holds
/// no weights and does no DSP.
pub struct Slimmable<A: Arith> {
    submodels: Vec<Model<A>>,
    max_values: Vec<JsonNumber>,
    active: usize,
    calibration: Calibration,
}

impl<A: Arith> Slimmable<A> {
    pub closed spec fn view(&self) -> SlimModel<A::Num>
        decreases self,
    {
        SlimModel {
            submodels: Seq::new(
                self.submodels@.len(),
                |i: int|
                    if 0 <= i < self.submodels@.len() {
                        self.submodels@[i].view()
                    } else {
                        arbitrary()
                    },
            ),
            max_values: self.max_values@,
            active: self.active as nat,
        }
    }

    /// Every submodel is well-formed, and one of them is active.
    pub closed spec fn wf(self) -> bool
        decreases self,
    {
        &&& self.active < self.submodels@.len()
        &&& self.max_values@.len() == self.submodels@.len()
        &&& forall|i: int| 0 <= i < self.submodels@.len() ==> (#[trigger] self.submodels@[i]).wf()
    }

    /// The numbers by which a host calibrates levels and rate.
    pub closed spec fn levels(self) -> Calibration {
        self.calibration
    }
}

impl<A: Arith> Model<A> {
    pub open spec fn view(&self) -> EngineModel<A::Num>
        decreases self,
    {
        match self {
            Model::WaveNet(w) => EngineModel::WaveNet(w.view()),
            Model::Lstm(l) => EngineModel::Lstm(l.view()),
            Model::Slimmable(s) => EngineModel::Slimmable(s.view()),
        }
    }

    pub open spec fn wf(self) -> bool
        decreases self,
    {
        match self {
            Model::WaveNet(w) => w.wf(),
            Model::Lstm(l) => l.wf(),
            Model::Slimmable(s) => s.wf(),
        }
    }

    /// The numbers by which a host calibrates levels and rate.
    pub open spec fn levels(self) -> Calibration {
        match self {
            Model::WaveNet(w) => w.levels(),
            Model::Lstm(l) => l.levels(),
            Model::Slimmable(s) => s.levels(),
        }
    }

    /// A well-formed model has a valid view.
    pub proof fn lemma_valid(self)
        requires
            self.wf(),
        ensures
            self@.valid(),
        decreases self,
    {
        match self {
            Model::WaveNet(w) => {
                w.lemma_valid();
            },
            Model::Lstm(l) => {
                l.lemma_valid();
            },
            Model::Slimmable(s) => {
                assert forall|i: int| 0 <= i < s@.submodels.len() implies (
                #[trigger] s@.submodels[i]).valid() by {
                    s.submodels@[i].lemma_valid();
                }
                assert(s@.valid());
            },
        }
    }

    /// Run a mono block, writing `num_output_channels() * n` rows, planar `[ch][t]`,
    /// into `out`.
    pub fn process_block_multi(&mut self, input: &[Scalar<A>], out: &mut [Scalar<A>], n: usize)
        requires
            old(self).wf(),
            n <= MAX_BLOCK,
            input@.len() == n,
            old(out)@.len() == old(self)@.rows() * n,
        ensures
            final(self).wf(),
            final(self).levels() == old(self).levels(),
            final(out)@.len() == old(out)@.len(),
            final(self)@ == run(old(self)@, exprs(input@)).0,
            columns(exprs(final(out)@), old(self)@.rows(), n as nat) == conveyed_all(
                old(self)@.rows(),
                run(old(self)@, exprs(input@)).1,
            ),
        decreases old(self)@, 2nat,
    {
        match self {
            Model::WaveNet(w) => {
                proof {
                    lemma_engine_run_wavenet(w@, exprs(input@));
                }
                w.process_block_multi(input, out, n);
            },
            Model::Lstm(l) => {
                proof {
                    lemma_engine_run_lstm(l@, exprs(input@));
                    assert(EngineModel::Lstm(l@).rows() == 1);
                    assert(1 * n == n);
                }
                let ghost ys = run(l@, exprs(input@)).1;
                l.process_block(input, out);
                proof {
                    lemma_columns_mono(exprs(out@));
                    assert(columns(exprs(out@), 1, n as nat) =~= Seq::new(
                        n as nat,
                        |t: int| seq![ys[t]],
                    ));
                    assert(conveyed_all(1, run(EngineModel::Lstm(old(self)@->Lstm_0), exprs(input@)).1)
                        =~= Seq::new(n as nat, |t: int| seq![ys[t]]));
                }
            },
            Model::Slimmable(s) => {
                s.process_block_multi(input, out, n);
            },
        }
    }
}

impl<A: Arith> Slimmable<A> {
    /// Run a mono block through the active submodel.
    fn process_block_multi(&mut self, input: &[Scalar<A>], out: &mut [Scalar<A>], n: usize)
        requires
            old(self).wf(),
            n <= MAX_BLOCK,
            input@.len() == n,
            old(out)@.len() == EngineModel::Slimmable(old(self)@).rows() * n,
        ensures
            final(self).wf(),
            final(self).levels() == old(self).levels(),
            final(out)@.len() == old(out)@.len(),
            EngineModel::Slimmable(final(self)@) == run(
                EngineModel::Slimmable(old(self)@),
                exprs(input@),
            ).0,
            columns(exprs(final(out)@), EngineModel::Slimmable(old(self)@).rows(), n as nat)
                == conveyed_all(
                EngineModel::Slimmable(old(self)@).rows(),
                run(EngineModel::Slimmable(old(self)@), exprs(input@)).1,
            ),
        decreases old(self)@, 0nat,
    {
        let ghost before = *self;
        let ghost m = self@;
        let a: usize = self.active;
        proof {
            assert(m.submodels[a as int] == self.submodels@[a as int]@);
            lemma_engine_run_slimmable(m, exprs(input@));
        }
        self.submodels[a].process_block_multi(input, out, n);
        proof {
            assert forall|i: int| 0 <= i < self.submodels@.len() implies (
            #[trigger] self.submodels@[i]).wf() by {
                if i != a {
                    assert(self.submodels@[i] == before.submodels@[i]);
                }
            }
            assert(self@.submodels =~= m.submodels.update(
                a as int,
                run(m.submodels[a as int], exprs(input@)).0,
            ));
        }
    }
}

impl<A: Arith> Slimmable<A> {
    /// A container of submodels, with the last (full) one active.
    pub(crate) fn assemble(
        submodels: Vec<Model<A>>,
        max_values: Vec<JsonNumber>,
        calibration: Calibration,
    ) -> (r: Self)
        requires
            submodels@.len() > 0,
            max_values@.len() == submodels@.len(),
            forall|i: int| 0 <= i < submodels@.len() ==> (#[trigger] submodels@[i]).wf(),
        ensures
            r.wf(),
            r.levels() == calibration,
            r@.submodels.len() == submodels@.len(),
            forall|i: int|
                0 <= i < submodels@.len() ==> #[trigger] r@.submodels[i] == submodels@[i]@,
            r@.max_values == max_values@,
            r@.active == submodels@.len() - 1,
    {
        let active: usize = submodels.len() - 1;
        Slimmable { submodels, max_values, active, calibration }
    }
}

/// A container is smaller than the model it makes.
proof fn lemma_contained<N>(s: SlimModel<N>)
    ensures
        decreases_to!(EngineModel::Slimmable(s) => s),
{
    let e = EngineModel::Slimmable(s);
    assert(decreases_to!(e => e->Slimmable_0));
}

impl<A: Arith> Slimmable<A> {
    /// Number of submodels.
    pub fn len(&self) -> (r: usize)
        ensures
            r == self@.submodels.len(),
    {
        self.submodels.len()
    }

    /// Whether there are no submodels. Always `false` of a built container, which has at
    /// least one.
    pub fn is_empty(&self) -> (r: bool)
        ensures
            r == (self@.submodels.len() == 0),
            self.wf() ==> !r,
    {
        self.submodels.len() == 0
    }

    /// Index of the currently-active submodel.
    pub fn active_index(&self) -> (r: usize)
        requires
            self.wf(),
        ensures
            r == self@.active,
            r < self@.submodels.len(),
    {
        self.active
    }

    /// Select a submodel by index, clamping out-of-range to the last (full) submodel.
    pub fn select(&mut self, index: usize)
        requires
            old(self).wf(),
        ensures
            final(self).wf(),
            final(self).levels() == old(self).levels(),
            final(self)@ == old(self)@.selecting(index as nat),
    {
        let last: usize = self.submodels.len() - 1;
        self.active = if index < last {
            index
        } else {
            last
        };
        assert(self@.submodels =~= old(self)@.submodels);
    }

    /// Set the width dial: activate the first submodel whose `max_value` exceeds
    /// `value`, else the last (full) submodel.
    pub fn set_slim_size(&mut self, value: A::Num)
        requires
            old(self).wf(),
        ensures
            final(self).wf(),
            final(self).levels() == old(self).levels(),
            final(self)@ == (SlimModel { active: final(self)@.active, ..old(self)@ }),
            dialled::<A>(old(self)@.max_values, value, final(self)@.active as int),
    {
        let ghost max = self@.max_values;
        let last: usize = self.submodels.len() - 1;
        let mut i: usize = 0;
        loop
            invariant
                self.wf(),
                *self == *old(self),
                max == self@.max_values,
                max == self.max_values@,
                last == self.submodels@.len() - 1,
                max.len() == last + 1,
                i <= last,
                forall|j: int| 0 <= j < i ==> #[trigger] passes::<A>(max, value, j, false),
            decreases last - i,
        {
            let verdict = Scalar::<A>::constant(self.max_values[i]).exceeds(Scalar::input(value));
            assert(passes::<A>(max, value, i as int, verdict));
            if verdict || i == last {
                self.active = i;
                assert(self@.submodels =~= old(self)@.submodels);
                return;
            }
            i += 1;
        }
    }

    /// Process a buffer through the active submodel.
    fn process_buffer(&mut self, io: &mut [A::Num])
        requires
            old(self).wf(),
        ensures
            final(self).wf(),
            final(self).levels() == old(self).levels(),
            final(io)@.len() == old(io)@.len(),
            EngineModel::Slimmable(final(self)@) == run(
                EngineModel::Slimmable(old(self)@),
                inputs(old(io)@),
            ).0,
            forall|t: int|
                0 <= t < old(io)@.len() ==> evaluates::<A>(
                    run(EngineModel::Slimmable(old(self)@), inputs(old(io)@)).1[t][0],
                    #[trigger] final(io)@[t],
                ),
        decreases old(self)@, 0nat,
    {
        let ghost before = *self;
        let ghost m = self@;
        let a: usize = self.active;
        let ghost xs = inputs(io@);
        proof {
            assert(m.submodels[a as int] == self.submodels@[a as int]@);
            lemma_engine_run_slimmable(m, xs);
        }
        self.submodels[a].process_buffer(io);
        proof {
            assert forall|i: int| 0 <= i < self.submodels@.len() implies (
            #[trigger] self.submodels@[i]).wf() by {
                if i != a {
                    assert(self.submodels@[i] == before.submodels@[i]);
                }
            }
            assert(self@.submodels =~= m.submodels.update(
                a as int,
                run(m.submodels[a as int], xs).0,
            ));
        }
    }

    /// Process a sample through the active submodel.
    fn process_sample(&mut self, x: A::Num) -> (r: A::Num)
        requires
            old(self).wf(),
        ensures
            final(self).wf(),
            final(self).levels() == old(self).levels(),
            EngineModel::Slimmable(final(self)@) == EngineModel::Slimmable(old(self)@).step(
                Expr::Input(x),
            ).0,
            evaluates::<A>(
                EngineModel::Slimmable(old(self)@).step(Expr::Input(x)).1[0],
                r,
            ),
        decreases old(self)@, 0nat,
    {
        let ghost before = *self;
        let ghost m = self@;
        let a: usize = self.active;
        proof {
            assert(m.submodels[a as int] == self.submodels@[a as int]@);
        }
        let r = self.submodels[a].process_sample(x);
        proof {
            assert forall|i: int| 0 <= i < self.submodels@.len() implies (
            #[trigger] self.submodels@[i]).wf() by {
                if i != a {
                    assert(self.submodels@[i] == before.submodels@[i]);
                }
            }
            assert(self@.submodels =~= m.submodels.update(
                a as int,
                m.submodels[a as int].advance(Expr::Input(x)).0,
            ));
        }
        r
    }

    /// Reset every submodel: a later `select` must not surface stale state from a
    /// previously-active submodel. The selection stays.
    fn reset(&mut self)
        requires
            old(self).wf(),
        ensures
            final(self).wf(),
            final(self).levels() == old(self).levels(),
            EngineModel::Slimmable(final(self)@) == EngineModel::Slimmable(old(self)@).fresh(),
        decreases old(self)@, 0nat,
    {
        let ghost m = self@;
        let len: usize = self.submodels.len();
        let mut i: usize = 0;
        while i < len
            invariant
                *self == (Slimmable { submodels: self.submodels, ..*old(self) }),
                m == old(self)@,
                len == m.submodels.len(),
                self.submodels@.len() == len,
                forall|j: int| 0 <= j < len ==> (#[trigger] self.submodels@[j]).wf(),
                i <= len,
                forall|j: int|
                    0 <= j < len ==> (#[trigger] self.submodels@[j])@ == if j < i {
                        m.submodels[j].fresh()
                    } else {
                        m.submodels[j]
                    },
            decreases len - i,
        {
            let ghost earlier = self.submodels@;
            assert(self.submodels@[i as int]@ == m.submodels[i as int]);
            self.submodels[i].reset();
            proof {
                assert forall|j: int| 0 <= j < len && j != i implies #[trigger] self.submodels@[j]
                    == earlier[j] by {}
            }
            i += 1;
        }
        assert(self@.submodels =~= EngineModel::Slimmable(m).fresh()->Slimmable_0.submodels);
    }

    /// Receptive field of the active submodel.
    fn receptive_field(&self) -> (r: usize)
        requires
            self.wf(),
        ensures
            r == EngineModel::Slimmable(self@).receptive_field(),
        decreases self@, 0nat,
    {
        assert(self@.submodels[self.active as int] == self.submodels@[self.active as int]@);
        self.submodels[self.active].receptive_field()
    }

    /// Output rows of the active submodel.
    fn num_output_channels(&self) -> (r: usize)
        requires
            self.wf(),
        ensures
            r == EngineModel::Slimmable(self@).rows(),
            r * MAX_BLOCK <= usize::MAX,
        decreases self@, 0nat,
    {
        assert(self@.submodels[self.active as int] == self.submodels@[self.active as int]@);
        self.submodels[self.active].num_output_channels()
    }
}

impl<A: Arith> Model<A> {
    /// Process a buffer of mono samples in place.
    pub fn process_buffer(&mut self, io: &mut [A::Num])
        requires
            old(self).wf(),
        ensures
            final(self).wf(),
            final(self).levels() == old(self).levels(),
            final(io)@.len() == old(io)@.len(),
            final(self)@ == run(old(self)@, inputs(old(io)@)).0,
            forall|t: int|
                0 <= t < old(io)@.len() ==> evaluates::<A>(
                    run(old(self)@, inputs(old(io)@)).1[t][0],
                    #[trigger] final(io)@[t],
                ),
        decreases old(self)@, 1nat,
    {
        let ghost xs = inputs(io@);
        match self {
            Model::WaveNet(w) => {
                proof {
                    lemma_engine_run_wavenet(w@, xs);
                }
                w.process_buffer(io);
            },
            Model::Lstm(l) => {
                let ghost ys = run(l@, xs).1;
                proof {
                    lemma_engine_run_lstm(l@, xs);
                }
                l.process_buffer(io);
            },
            Model::Slimmable(s) => {
                proof {
                    lemma_contained(s@);
                }
                s.process_buffer(io);
            },
        }
    }

    /// Process a single mono sample.
    pub fn process_sample(&mut self, x: A::Num) -> (r: A::Num)
        requires
            old(self).wf(),
        ensures
            final(self).wf(),
            final(self).levels() == old(self).levels(),
            final(self)@ == old(self)@.step(Expr::Input(x)).0,
            evaluates::<A>(old(self)@.step(Expr::Input(x)).1[0], r),
        decreases old(self)@, 1nat,
    {
        match self {
            Model::WaveNet(w) => w.process_sample(x),
            Model::Lstm(l) => l.process_sample(x),
            Model::Slimmable(s) => {
                proof {
                    lemma_contained(s@);
                }
                s.process_sample(x)
            },
        }
    }

    /// Reset all internal state to the model's initial conditions.
    pub fn reset(&mut self)
        requires
            old(self).wf(),
        ensures
            final(self).wf(),
            final(self).levels() == old(self).levels(),
            final(self)@ == old(self)@.fresh(),
        decreases old(self)@, 1nat,
    {
        match self {
            Model::WaveNet(w) => {
                w.reset();
            },
            Model::Lstm(l) => {
                l.reset();
            },
            Model::Slimmable(s) => {
                s.reset();
            },
        }
    }

    /// The numbers by which a host calibrates levels and rate.
    pub fn calibration(&self) -> (r: Calibration)
        ensures
            r == self.levels(),
    {
        match self {
            Model::WaveNet(w) => w.calibration(),
            Model::Lstm(l) => l.calibration(),
            Model::Slimmable(s) => s.calibration,
        }
    }

    /// The sample rate, in Hz, the model expects its input to be at, falling back to
    /// the default when the file does not specify one. **You must feed the model audio
    /// at this rate**; nothing here resamples.
    pub fn expected_sample_rate(&self) -> (r: JsonNumber)
        ensures
            r == self.levels().sample_rate,
    {
        self.calibration().sample_rate
    }

    /// Output loudness, if the file records it.
    pub fn loudness(&self) -> (r: Option<JsonNumber>)
        ensures
            r == self.levels().loudness,
    {
        self.calibration().loudness
    }

    /// Input calibration level in dBu (analog level at 0 dBFS in), if present.
    pub fn input_level_dbu(&self) -> (r: Option<JsonNumber>)
        ensures
            r == self.levels().input_level_dbu,
    {
        self.calibration().input_level_dbu
    }

    /// Output calibration level in dBu (analog level at 0 dBFS out), if present.
    pub fn output_level_dbu(&self) -> (r: Option<JsonNumber>)
        ensures
            r == self.levels().output_level_dbu,
    {
        self.calibration().output_level_dbu
    }

    /// The model's processing latency in samples.
    ///
    /// For WaveNet this is the receptive field: the first this-many output samples of a
    /// fresh (or freshly [`reset`](Self::reset)) model are a startup transient computed
    /// against zero history. LSTM has no warmup, so this is `0`.
    pub fn receptive_field(&self) -> (r: usize)
        requires
            self.wf(),
        ensures
            r == self@.receptive_field(),
        decreases self@, 1nat,
    {
        match self {
            Model::WaveNet(w) => w.receptive_field(),
            Model::Lstm(_) => 0,
            Model::Slimmable(s) => {
                proof {
                    lemma_contained(s@);
                }
                s.receptive_field()
            },
        }
    }

    /// Number of output rows this model emits. WaveNet defers to its post-stack head or
    /// last layer-array; LSTM is always mono.
    pub fn num_output_channels(&self) -> (r: usize)
        requires
            self.wf(),
        ensures
            r == self@.rows(),
            r * MAX_BLOCK <= usize::MAX,
        decreases self@, 1nat,
    {
        match self {
            Model::WaveNet(w) => w.num_output_channels(),
            Model::Lstm(_) => 1,
            Model::Slimmable(s) => {
                proof {
                    lemma_contained(s@);
                }
                s.num_output_channels()
            },
        }
    }

    /// The width-selectable container, if this model is one. Use it to drive the slim
    /// dial ([`Slimmable::select`] / [`Slimmable::set_slim_size`]); plain WaveNet and
    /// LSTM models return `None`.
    pub fn as_slimmable(&self) -> (r: Option<&Slimmable<A>>)
        ensures
            match r {
                Some(s) => *self == Model::Slimmable(*s),
                None => !(self@ is Slimmable),
            },
    {
        match self {
            Model::Slimmable(s) => Some(s),
            _ => None,
        }
    }

    /// Mutable variant of [`Model::as_slimmable`], for setting the active submodel.
    pub fn as_slimmable_mut(&mut self) -> (r: Option<&mut Slimmable<A>>)
        ensures
            match r {
                Some(s) => *old(self) == Model::Slimmable(*s) && *final(self) == Model::Slimmable(
                    *final(s),
                ),
                None => !(old(self)@ is Slimmable) && *final(self) == *old(self),
            },
    {
        match self {
            Model::Slimmable(s) => Some(s),
            _ => None,
        }
    }
}

impl<A: Arith> Slimmable<A> {
    fn copy(&self) -> (r: Self)
        ensures
            r@ == self@,
            self.wf() ==> r.wf(),
            r.levels() == self.levels(),
        decreases self@, 0nat,
    {
        let mut submodels: Vec<Model<A>> = Vec::new();
        let mut max_values: Vec<JsonNumber> = Vec::new();
        let mut i: usize = 0;
        while i < self.submodels.len()
            invariant
                i <= self.submodels@.len(),
                submodels@.len() == i,
                forall|j: int|
                    0 <= j < i ==> (#[trigger] submodels@[j])@ == self.submodels@[j]@ && (
                    self.submodels@[j].wf() ==> submodels@[j].wf()),
            decreases self.submodels@.len() - i,
        {
            assert(self@.submodels[i as int] == self.submodels@[i as int]@);
            submodels.push(self.submodels[i].copy());
            i += 1;
        }
        let mut k: usize = 0;
        while k < self.max_values.len()
            invariant
                k <= self.max_values@.len(),
                max_values@ == self.max_values@.take(k as int),
            decreases self.max_values@.len() - k,
        {
            max_values.push(self.max_values[k]);
            k += 1;
            assert(max_values@ =~= self.max_values@.take(k as int));
        }
        assert(self.max_values@.take(k as int) =~= self.max_values@);
        let r = Slimmable {
            submodels,
            max_values,
            active: self.active,
            calibration: self.calibration,
        };
        assert(r@.submodels =~= self@.submodels);
        r
    }
}

impl<A: Arith> Model<A> {
    pub(crate) fn copy(&self) -> (r: Self)
        ensures
            r@ == self@,
            self.wf() ==> r.wf(),
            r.levels() == self.levels(),
        decreases self@, 1nat,
    {
        match self {
            Model::WaveNet(w) => {
                assert(self@->WaveNet_0 == w@);
                Model::WaveNet(Box::new((**w).copy()))
            },
            Model::Lstm(l) => Model::Lstm(l.clone()),
            Model::Slimmable(s) => {
                proof {
                    lemma_contained(s@);
                }
                Model::Slimmable(s.copy())
            },
        }
    }
}

impl<A: Arith> Clone for Slimmable<A> {
    fn clone(&self) -> (r: Self)
        ensures
            r@ == self@,
            self.wf() ==> r.wf(),
            r.levels() == self.levels(),
    {
        self.copy()
    }
}

impl<A: Arith> Clone for Model<A> {
    fn clone(&self) -> (r: Self)
        ensures
            r@ == self@,
            self.wf() ==> r.wf(),
            r.levels() == self.levels(),
    {
        self.copy()
    }
}

} // verus!
