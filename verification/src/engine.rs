//! What a runnable model computes: the mathematics of the engines.

use vstd::prelude::*;
use crate::arith::Expr;
use crate::json::JsonNumber;
use crate::lstm::{lemma_cells_kept, LstmModel};
use crate::signal::{
    chain_step, lemma_chain_len, lemma_chain_run, lemma_chain_take, lemma_run_len, lemma_run_one, paired, run, scaled,
    silence, Chain, Machine,
};
use crate::wavenet::array::{lemma_array_kept, ArrayModel};
use crate::wavenet::head::{lemma_head_kept, HeadModel, HeadStage};
use crate::wavenet::layer::{Carry, LayerModel};

verus! {

/// A WaveNet: layer-arrays in series, conditioned by the input or by what a nested
/// model makes of it, and an optional post-stack head.
#[verifier::ext_equal]
pub struct WaveNetModel<N> {
    pub arrays: Seq<ArrayModel<N>>,
    pub head: Option<HeadModel<N>>,
    pub condition: Option<Box<EngineModel<N>>>,
    pub head_scale: Expr<N>,
}

/// A width-selectable set of models, of which one is active.
#[verifier::ext_equal]
pub struct SlimModel<N> {
    pub submodels: Seq<EngineModel<N>>,
    pub max_values: Seq<JsonNumber>,
    pub active: nat,
}

/// A runnable model: from one input sample to a column of output rows.
#[verifier::ext_equal]
pub enum EngineModel<N> {
    WaveNet(WaveNetModel<N>),
    Lstm(LstmModel<N>),
    Slimmable(SlimModel<N>),
}

/// A column of `rows` output rows as a model around it is given it: without the sample
/// that a listener hears where there is no row.
pub open spec fn conveyed<N>(rows: nat, column: Seq<Expr<N>>) -> Seq<Expr<N>> {
    if rows == 0 {
        Seq::empty()
    } else {
        column
    }
}

/// What a listener hears of `rows` head rows, scaled: the rows, or `lead` where there is
/// none.
pub open spec fn voiced<N>(
    rows: nat,
    scale: Expr<N>,
    last: Seq<Expr<N>>,
    lead: Expr<N>,
) -> Seq<Expr<N>> {
    if rows == 0 {
        seq![scale.times(lead)]
    } else {
        scaled(scale, last)
    }
}

impl<N> WaveNetModel<N> {
    /// Number of output rows.
    pub open spec fn rows(self) -> nat {
        if self.arrays.len() == 0 {
            1
        } else {
            match self.head {
                Some(h) => h.out_channels(),
                None => self.arrays.last().head_size(),
            }
        }
    }

    /// Number of samples heard at a time: the output rows, or one where there is none.
    pub open spec fn lanes(self) -> nat {
        if self.rows() == 0 {
            1
        } else {
            self.rows()
        }
    }

    /// Width of the conditioning.
    pub open spec fn condition_width(self) -> nat
        decreases self,
    {
        match self.condition {
            Some(m) => m.rows(),
            None => 1,
        }
    }

    /// What the first array is given for the input `x`.
    pub open spec fn seed(self, x: Expr<N>) -> Carry<N> {
        Carry { signal: seq![x], head: silence(self.arrays[0].head_in()) }
    }

    /// The next state of the nested model and the conditioning for the input `x`.
    pub open spec fn conditioned(self, x: Expr<N>) -> (Option<Box<EngineModel<N>>>, Seq<Expr<N>>)
        decreases self, 0nat,
    {
        match self.condition {
            Some(m) => {
                let r = m.advance(x);
                (Some(Box::new(r.0)), conveyed(m.rows(), r.1))
            },
            None => (None, seq![x]),
        }
    }

    /// What stands in the first row of the head buffer behind the first `k` arrays: the
    /// first row of their head output. The arrays write to two buffers in turn, so where
    /// array `k - 1` has no head row, what the arrays up to the one two before it left
    /// still stands there; at first both are silent.
    pub open spec fn lead(self, x: Expr<N>, c: Seq<Expr<N>>, k: int) -> Expr<N>
        decreases k + 1,
    {
        if k <= 0 {
            Expr::Zero
        } else if self.arrays[k - 1].head_size() > 0 {
            chain_step(self.arrays.take(k), self.seed(x), c).1.head[0]
        } else {
            self.lead(x, c, k - 2)
        }
    }

    /// The next state of the post-stack head and the output, from the last array's
    /// head output and what stands where its first row would.
    pub open spec fn emitted(self, last: Seq<Expr<N>>, lead: Expr<N>) -> (
        Option<HeadModel<N>>,
        Seq<Expr<N>>,
    ) {
        match self.head {
            Some(h) => {
                let r = h.step(scaled(self.head_scale, last));
                (Some(r.0), r.1)
            },
            None => (None, voiced(self.rows(), self.head_scale, last, lead)),
        }
    }

    /// The next state and the output rows for the input `x`; the scaled lead where there
    /// is no row.
    pub open spec fn advance(self, x: Expr<N>) -> (Self, Seq<Expr<N>>)
        decreases self, 1nat,
    {
        if self.arrays.len() == 0 {
            (self, seq![self.head_scale.times(x)])
        } else {
            let c = self.conditioned(x);
            let stack = chain_step(self.arrays, self.seed(x), c.1);
            let lead = self.lead(x, c.1, self.arrays.len() as int);
            let out = self.emitted(stack.1.head, lead);
            (
                WaveNetModel { arrays: stack.0, head: out.0, condition: c.0, ..self },
                out.1,
            )
        }
    }

    /// Whether array `i` fits into the series.
    pub open spec fn array_fits(self, i: int) -> bool {
        &&& self.arrays[i].valid()
        &&& self.arrays[i].condition() == self.condition_width()
        &&& self.arrays[i].input_size() == if i == 0 {
            1
        } else {
            self.arrays[i - 1].channels()
        }
        &&& i > 0 ==> self.arrays[i].head_in() == self.arrays[i - 1].head_size()
    }

    /// The parts fit together.
    pub open spec fn valid(self) -> bool
        decreases self,
    {
        &&& forall|i: int| 0 <= i < self.arrays.len() ==> #[trigger] self.array_fits(i)
        &&& match self.head {
            Some(h) => {
                &&& h.valid()
                &&& h.out_channels() >= 1
                &&& self.arrays.len() > 0 ==> h.in_channels() == self.arrays.last().head_size()
            },
            None => true,
        }
        &&& match self.condition {
            Some(m) => m.valid(),
            None => true,
        }
    }

    /// The same model, remembering silence.
    pub open spec fn fresh(self) -> Self
        decreases self,
    {
        WaveNetModel {
            arrays: Seq::new(self.arrays.len(), |i: int| self.arrays[i].fresh()),
            head: match self.head {
                Some(h) => Some(h.fresh()),
                None => None,
            },
            condition: match self.condition {
                Some(m) => Some(Box::new(m.fresh())),
                None => None,
            },
            head_scale: self.head_scale,
        }
    }
}

impl<N> SlimModel<N> {
    pub open spec fn valid(self) -> bool
        decreases self,
    {
        &&& self.active < self.submodels.len()
        &&& self.max_values.len() == self.submodels.len()
        &&& forall|i: int| 0 <= i < self.submodels.len() ==> (#[trigger] self.submodels[i]).valid()
    }
}

impl<N> EngineModel<N> {
    /// Number of output rows.
    pub open spec fn rows(self) -> nat
        decreases self,
    {
        match self {
            EngineModel::WaveNet(w) => w.rows(),
            EngineModel::Lstm(_) => 1,
            EngineModel::Slimmable(s) => if s.active < s.submodels.len() {
                s.submodels[s.active as int].rows()
            } else {
                1
            },
        }
    }

    /// The parts fit together, and a container has a submodel that is active.
    pub open spec fn valid(self) -> bool
        decreases self,
    {
        match self {
            EngineModel::WaveNet(w) => w.valid(),
            EngineModel::Lstm(l) => l.valid(),
            EngineModel::Slimmable(s) => s.valid(),
        }
    }

    /// The next state and the output rows for the input `x`. A container hands the
    /// input to its active submodel alone.
    pub open spec fn advance(self, x: Expr<N>) -> (Self, Seq<Expr<N>>)
        decreases self, 2nat,
    {
        match self {
            EngineModel::WaveNet(w) => {
                let r = w.advance(x);
                (EngineModel::WaveNet(r.0), r.1)
            },
            EngineModel::Lstm(l) => {
                let r = l.step(x);
                (EngineModel::Lstm(r.0), seq![r.1])
            },
            EngineModel::Slimmable(s) => if s.active < s.submodels.len() {
                let r = s.submodels[s.active as int].advance(x);
                (
                    EngineModel::Slimmable(
                        SlimModel { submodels: s.submodels.update(s.active as int, r.0), ..s },
                    ),
                    r.1,
                )
            } else {
                (self, seq![x])
            },
        }
    }

    /// The same model in its initial state. The selection of a container stays.
    pub open spec fn fresh(self) -> Self
        decreases self,
    {
        match self {
            EngineModel::WaveNet(w) => EngineModel::WaveNet(w.fresh()),
            EngineModel::Lstm(l) => EngineModel::Lstm(l.fresh()),
            EngineModel::Slimmable(s) => EngineModel::Slimmable(
                SlimModel {
                    submodels: Seq::new(
                        s.submodels.len(),
                        |i: int|
                            if 0 <= i < s.submodels.len() {
                                s.submodels[i].fresh()
                            } else {
                                arbitrary()
                            },
                    ),
                    ..s
                },
            ),
        }
    }
}

impl<N> Machine<Expr<N>, Seq<Expr<N>>> for WaveNetModel<N> {
    open spec fn step(self, x: Expr<N>) -> (Self, Seq<Expr<N>>) {
        self.advance(x)
    }
}

impl<N> Machine<Expr<N>, Seq<Expr<N>>> for EngineModel<N> {
    open spec fn step(self, x: Expr<N>) -> (Self, Seq<Expr<N>>) {
        self.advance(x)
    }
}

/// Whether `b` is `a` after a run: the same arrays, differing only in what they
/// remember.
pub open spec fn same_arrays<N>(a: Seq<ArrayModel<N>>, b: Seq<ArrayModel<N>>) -> bool {
    &&& a.len() == b.len()
    &&& forall|i: int|
        0 <= i < a.len() ==> (#[trigger] b[i]).fresh() == a[i].fresh() && b[i].rechannel
            == a[i].rechannel && b[i].head_in() == a[i].head_in() && b[i].head_size()
            == a[i].head_size() && (a[i].layers.len() > 0 ==> b[i].condition() == a[i].condition())
}

/// A run changes only what the arrays of a series remember.
pub proof fn lemma_arrays_kept<N>(
    arrays: Seq<ArrayModel<N>>,
    xs: Seq<Carry<N>>,
    cs: Seq<Seq<Expr<N>>>,
)
    requires
        xs.len() == cs.len(),
    ensures
        same_arrays(arrays, run(Chain { stages: arrays }, paired(xs, cs)).0.stages),
    decreases arrays.len(),
{
    let whole = run(Chain { stages: arrays }, paired(xs, cs));
    lemma_chain_len(Chain { stages: arrays }, paired(xs, cs));
    if arrays.len() > 0 {
        lemma_chain_run(arrays, xs, cs);
        let front = run(Chain { stages: arrays.drop_last() }, paired(xs, cs));
        lemma_arrays_kept(arrays.drop_last(), xs, cs);
        lemma_array_kept(arrays.last(), front.1, cs);
        let b = whole.0.stages;
        assert forall|i: int| 0 <= i < arrays.len() implies (#[trigger] b[i]).fresh()
            == arrays[i].fresh() && b[i].rechannel == arrays[i].rechannel && b[i].head_in()
            == arrays[i].head_in() && b[i].head_size() == arrays[i].head_size() && (
        arrays[i].layers.len() > 0 ==> b[i].condition() == arrays[i].condition()) by {
            if i < arrays.len() - 1 {
                assert(b[i] == front.0.stages[i]);
                assert(arrays.drop_last()[i] == arrays[i]);
            }
        }
    }
}

/// One step changes only what the arrays of a series remember.
proof fn lemma_arrays_step_kept<N>(arrays: Seq<ArrayModel<N>>, x: Carry<N>, c: Seq<Expr<N>>)
    ensures
        same_arrays(arrays, chain_step(arrays, x, c).0),
{
    lemma_arrays_kept(arrays, seq![x], seq![c]);
    assert(paired(seq![x], seq![c]) =~= seq![(x, c)]);
    lemma_run_one(Chain { stages: arrays }, (x, c));
}

/// A step of a WaveNet changes only what it remembers.
pub proof fn lemma_wavenet_step_kept<N>(m: WaveNetModel<N>, x: Expr<N>)
    ensures
        m.advance(x).0.fresh() == m.fresh(),
        m.advance(x).0.rows() == m.rows(),
        m.advance(x).0.condition_width() == m.condition_width(),
        same_arrays(m.arrays, m.advance(x).0.arrays),
        m.advance(x).0.head_scale == m.head_scale,
    decreases m, 1nat,
{
    let after = m.advance(x).0;
    if m.arrays.len() > 0 {
        let c = m.conditioned(x);
        lemma_arrays_step_kept(m.arrays, m.seed(x), c.1);
        assert(after.fresh().arrays =~= m.fresh().arrays);
        match m.condition {
            Some(e) => {
                lemma_engine_step_kept(*e, x);
            },
            None => {},
        }
        match m.head {
            Some(h) => {
                let last = chain_step(m.arrays, m.seed(x), c.1).1.head;
                let s = scaled(m.head_scale, last);
                lemma_head_kept(h, seq![s]);
                lemma_run_one(h, s);
                let kept = h.step(s).0.stages;
                if h.stages.len() > 0 {
                    assert(kept[h.stages.len() - 1].conv.out_ch
                        == h.stages[h.stages.len() - 1].conv.out_ch);
                } else {
                    assert(kept =~= h.stages);
                }
            },
            None => {},
        }
        assert(after.fresh() =~= m.fresh());
    }
}

/// A step of a model changes only what it remembers.
pub proof fn lemma_engine_step_kept<N>(m: EngineModel<N>, x: Expr<N>)
    ensures
        m.advance(x).0.fresh() == m.fresh(),
        m.advance(x).0.rows() == m.rows(),
    decreases m, 2nat,
{
    match m {
        EngineModel::WaveNet(w) => {
            lemma_wavenet_step_kept(w, x);
        },
        EngineModel::Lstm(l) => {
            let after = l.step(x).0;
            if l.cells.len() > 0 {
                lemma_cells_kept(l.cells, seq![x], 0);
            }
            assert forall|i: int| 0 <= i < l.cells.len() implies #[trigger] after.cells[i].fresh()
                == l.cells[i].fresh() by {
                lemma_cells_kept(l.cells, seq![x], i);
            }
            assert(after.fresh().cells =~= l.fresh().cells);
        },
        EngineModel::Slimmable(s) => {
            if s.active < s.submodels.len() {
                let a = s.active as int;
                lemma_engine_step_kept(s.submodels[a], x);
                let after = m.advance(x).0->Slimmable_0;
                assert(m.advance(x).0.fresh()->Slimmable_0.submodels
                    =~= m.fresh()->Slimmable_0.submodels);
                assert(after.submodels[a] == s.submodels[a].advance(x).0);
            }
        },
    }
}

/// A run of a model changes only what it remembers: resetting it after the run is the
/// same as resetting it before.
pub proof fn lemma_engine_kept<N>(m: EngineModel<N>, xs: Seq<Expr<N>>)
    ensures
        run(m, xs).0.fresh() == m.fresh(),
        run(m, xs).0.rows() == m.rows(),
    decreases xs.len(),
{
    if xs.len() > 0 {
        lemma_engine_kept(m, xs.drop_last());
        lemma_engine_step_kept(run(m, xs.drop_last()).0, xs.last());
    }
}

/// A run of a WaveNet changes only what it remembers.
pub proof fn lemma_wavenet_kept<N>(m: WaveNetModel<N>, xs: Seq<Expr<N>>)
    ensures
        run(m, xs).0.fresh() == m.fresh(),
        run(m, xs).0.rows() == m.rows(),
        run(m, xs).0.condition_width() == m.condition_width(),
        same_arrays(m.arrays, run(m, xs).0.arrays),
        run(m, xs).0.head_scale == m.head_scale,
    decreases xs.len(),
{
    if xs.len() > 0 {
        lemma_wavenet_kept(m, xs.drop_last());
        let before = run(m, xs.drop_last()).0;
        lemma_wavenet_step_kept(before, xs.last());
        let after = run(m, xs).0;
        assert forall|i: int| 0 <= i < m.arrays.len() implies (
        #[trigger] after.arrays[i]).fresh() == m.arrays[i].fresh() && after.arrays[i].rechannel
            == m.arrays[i].rechannel && after.arrays[i].head_in() == m.arrays[i].head_in()
            && after.arrays[i].head_size() == m.arrays[i].head_size() && (m.arrays[i].layers.len()
            > 0 ==> after.arrays[i].condition() == m.arrays[i].condition()) by {
            assert(before.arrays[i].fresh() == m.arrays[i].fresh());
            assert(before.arrays[i].fresh().layers.len() == before.arrays[i].layers.len());
            assert(m.arrays[i].fresh().layers.len() == m.arrays[i].layers.len());
        }
    }
}

/// The columns of a stream as a model around is given them.
pub open spec fn conveyed_all<N>(rows: nat, ys: Seq<Seq<Expr<N>>>) -> Seq<Seq<Expr<N>>> {
    Seq::new(ys.len(), |t: int| conveyed(rows, ys[t]))
}

/// The conditioning of a stream.
pub open spec fn conditioning<N>(m: WaveNetModel<N>, xs: Seq<Expr<N>>) -> Seq<Seq<Expr<N>>> {
    match m.condition {
        Some(e) => conveyed_all(e.rows(), run(*e, xs).1),
        None => Seq::new(xs.len(), |t: int| seq![xs[t]]),
    }
}

/// What the first array is given over time.
pub open spec fn seeds<N>(m: WaveNetModel<N>, xs: Seq<Expr<N>>) -> Seq<Carry<N>> {
    Seq::new(xs.len(), |t: int| m.seed(xs[t]))
}

/// The scaled head signals of a stream.
pub open spec fn scaled_heads<N>(scale: Expr<N>, ys: Seq<Carry<N>>) -> Seq<Seq<Expr<N>>> {
    Seq::new(ys.len(), |t: int| scaled(scale, ys[t].head))
}

/// What stands in the first row of the head buffer behind the first `k` arrays over time.
pub open spec fn leads<N>(
    arrays: Seq<ArrayModel<N>>,
    xs: Seq<Carry<N>>,
    cs: Seq<Seq<Expr<N>>>,
    k: int,
) -> Seq<Expr<N>>
    decreases k + 1,
{
    if k <= 0 {
        silence(xs.len())
    } else if arrays[k - 1].head_size() > 0 {
        let part = run(Chain { stages: arrays.take(k) }, paired(xs, cs));
        Seq::new(xs.len(), |t: int| part.1[t].head[0])
    } else {
        leads(arrays, xs, cs, k - 2)
    }
}

/// What a listener hears of the head signals of a stream.
pub open spec fn voiced_heads<N>(
    rows: nat,
    scale: Expr<N>,
    ys: Seq<Carry<N>>,
    ls: Seq<Expr<N>>,
) -> Seq<Seq<Expr<N>>> {
    Seq::new(ys.len(), |t: int| voiced(rows, scale, ys[t].head, ls[t]))
}

/// What stands in a head buffer at the last time is what the state reached before leads
/// to.
proof fn lemma_leads<N>(
    m: WaveNetModel<N>,
    before: WaveNetModel<N>,
    xs: Seq<Expr<N>>,
    cs: Seq<Seq<Expr<N>>>,
    k: int,
)
    requires
        xs.len() == cs.len(),
        xs.len() > 0,
        k <= m.arrays.len(),
        same_arrays(m.arrays, before.arrays),
        m.arrays.len() > 0,
        before.arrays == run(
            Chain { stages: m.arrays },
            paired(seeds(m, xs.drop_last()), cs.drop_last()),
        ).0.stages,
    ensures
        leads(m.arrays, seeds(m, xs), cs, k).len() == xs.len(),
        leads(m.arrays, seeds(m, xs), cs, k).drop_last() == leads(
            m.arrays,
            seeds(m, xs.drop_last()),
            cs.drop_last(),
            k,
        ),
        leads(m.arrays, seeds(m, xs), cs, k).last() == before.lead(xs.last(), cs.last(), k),
    decreases k + 1,
{
    let whole = leads(m.arrays, seeds(m, xs), cs, k);
    let part = leads(m.arrays, seeds(m, xs.drop_last()), cs.drop_last(), k);
    if k <= 0 {
        assert(whole.drop_last() =~= part);
    } else {
        assert(before.arrays[k - 1].head_size() == m.arrays[k - 1].head_size());
        if m.arrays[k - 1].head_size() > 0 {
            let p = paired(seeds(m, xs), cs);
            let p1 = paired(seeds(m, xs.drop_last()), cs.drop_last());
            let chain = Chain { stages: m.arrays.take(k) };
            assert(p.drop_last() =~= p1);
            lemma_run_len(chain, p);
            lemma_run_len(chain, p1);
            lemma_chain_take(m.arrays, k, seeds(m, xs.drop_last()), cs.drop_last());
            assert(before.arrays[0].head_in() == m.arrays[0].head_in());
            assert(before.seed(xs.last()) == m.seed(xs.last()));
            assert(p.last() == (m.seed(xs.last()), cs.last()));
            assert(whole.drop_last() =~= part);
        } else {
            lemma_leads(m, before, xs, cs, k - 2);
        }
    }
}

/// A WaveNet may be run part by part over a whole stream: the nested model, then the
/// arrays, then the post-stack head.
pub proof fn lemma_wavenet_run<N>(m: WaveNetModel<N>, xs: Seq<Expr<N>>)
    requires
        m.arrays.len() > 0,
    ensures
        ({
            let cs = conditioning(m, xs);
            let stack = run(Chain { stages: m.arrays }, paired(seeds(m, xs), cs));
            let last = scaled_heads(m.head_scale, stack.1);
            let whole = run(m, xs);
            &&& cs.len() == xs.len()
            &&& stack.1.len() == xs.len()
            &&& whole.0.arrays == stack.0.stages
            &&& whole.0.head_scale == m.head_scale
            &&& match m.condition {
                Some(e) => whole.0.condition == Some(Box::new(run(*e, xs).0)),
                None => whole.0.condition is None,
            }
            &&& match m.head {
                Some(h) => whole.0.head == Some(run(h, last).0) && whole.1 == run(h, last).1,
                None => whole.0.head is None && whole.1 == voiced_heads(
                    m.rows(),
                    m.head_scale,
                    stack.1,
                    leads(m.arrays, seeds(m, xs), cs, m.arrays.len() as int),
                ),
            }
        }),
    decreases xs.len(),
{
    let cs = conditioning(m, xs);
    let chain = Chain { stages: m.arrays };
    if m.condition is Some {
        lemma_run_len(*m.condition->Some_0, xs);
    }
    let stack = run(chain, paired(seeds(m, xs), cs));
    lemma_run_len(chain, paired(seeds(m, xs), cs));
    let last = scaled_heads(m.head_scale, stack.1);
    if xs.len() > 0 {
        let xs1 = xs.drop_last();
        let cs1 = conditioning(m, xs1);
        lemma_wavenet_run(m, xs1);
        lemma_wavenet_kept(m, xs1);
        if m.condition is Some {
            lemma_run_len(*m.condition->Some_0, xs1);
            lemma_engine_kept(*m.condition->Some_0, xs1);
        }
        assert(cs.drop_last() =~= cs1);
        assert(paired(seeds(m, xs), cs).drop_last() =~= paired(seeds(m, xs1), cs1));
        let stack1 = run(chain, paired(seeds(m, xs1), cs1));
        lemma_run_len(chain, paired(seeds(m, xs1), cs1));
        let last1 = scaled_heads(m.head_scale, stack1.1);
        assert(last.drop_last() =~= last1);
        let before = run(m, xs1).0;
        assert(before.arrays[0].head_in() == m.arrays[0].head_in());
        assert(before.seed(xs.last()) == m.seed(xs.last()));
        assert(before.conditioned(xs.last()).1 == cs.last());
        let step = chain_step(before.arrays, before.seed(xs.last()), cs.last());
        assert(paired(seeds(m, xs), cs).last() == (m.seed(xs.last()), cs.last()));
        assert(stack.1.last() == step.1);
        assert(last.last() == scaled(m.head_scale, step.1.head));
        match m.head {
            Some(h) => {
                assert(run(h, last).1 =~= run(m, xs).1);
            },
            None => {
                assert(before.rows() == m.rows());
                let k = m.arrays.len() as int;
                assert(seeds(m, xs1) =~= seeds(m, xs.drop_last()));
                lemma_leads(m, before, xs, cs, k);
                let ls = leads(m.arrays, seeds(m, xs), cs, k);
                let ls1 = leads(m.arrays, seeds(m, xs1), cs1, k);
                let ys = voiced_heads(m.rows(), m.head_scale, stack.1, ls);
                assert(ys.drop_last() =~= voiced_heads(m.rows(), m.head_scale, stack1.1, ls1)) by {
                    assert forall|t: int| 0 <= t < xs1.len() implies ls[t] == ls1[t] by {
                        assert(ls.drop_last()[t] == ls[t]);
                    }
                }
                assert(ys =~= run(m, xs).1);
            },
        }
    } else {
        assert(paired(seeds(m, xs), cs) =~= Seq::empty());
        assert(last =~= Seq::empty());
        assert(m.head matches Some(h) ==> run(h, last).1 =~= Seq::empty());
        assert(voiced_heads(
            m.rows(),
            m.head_scale,
            stack.1,
            leads(m.arrays, seeds(m, xs), cs, m.arrays.len() as int),
        ) =~= Seq::empty());
        assert(run(m, xs).1 =~= Seq::<Seq<Expr<N>>>::empty());
    }
}

/// A WaveNet without arrays only scales.
pub proof fn lemma_wavenet_run_empty<N>(m: WaveNetModel<N>, xs: Seq<Expr<N>>)
    requires
        m.arrays.len() == 0,
    ensures
        run(m, xs).0 == m,
        run(m, xs).1 =~= Seq::new(xs.len(), |t: int| seq![m.head_scale.times(xs[t])]),
    decreases xs.len(),
{
    if xs.len() > 0 {
        lemma_wavenet_run_empty(m, xs.drop_last());
    }
}

/// A model of one kind runs as that kind does.
pub proof fn lemma_engine_run_wavenet<N>(w: WaveNetModel<N>, xs: Seq<Expr<N>>)
    ensures
        run(EngineModel::WaveNet(w), xs) == (EngineModel::WaveNet(run(w, xs).0), run(w, xs).1),
    decreases xs.len(),
{
    if xs.len() > 0 {
        lemma_engine_run_wavenet(w, xs.drop_last());
    }
}

/// An LSTM gives one output row.
pub proof fn lemma_engine_run_lstm<N>(l: LstmModel<N>, xs: Seq<Expr<N>>)
    ensures
        run(EngineModel::Lstm(l), xs).0 == EngineModel::Lstm(run(l, xs).0),
        run(l, xs).1.len() == xs.len(),
        run(EngineModel::Lstm(l), xs).1 =~= Seq::new(xs.len(), |t: int| seq![run(l, xs).1[t]]),
    decreases xs.len(),
{
    lemma_run_len(l, xs);
    if xs.len() > 0 {
        lemma_engine_run_lstm(l, xs.drop_last());
        lemma_run_len(l, xs.drop_last());
    }
}

/// A container runs its active submodel; the others stand still.
pub proof fn lemma_engine_run_slimmable<N>(s: SlimModel<N>, xs: Seq<Expr<N>>)
    requires
        s.active < s.submodels.len(),
    ensures
        run(EngineModel::Slimmable(s), xs).0 == EngineModel::Slimmable(
            SlimModel {
                submodels: s.submodels.update(
                    s.active as int,
                    run(s.submodels[s.active as int], xs).0,
                ),
                ..s
            },
        ),
        run(EngineModel::Slimmable(s), xs).1 == run(s.submodels[s.active as int], xs).1,
    decreases xs.len(),
{
    let a = s.active as int;
    if xs.len() > 0 {
        lemma_engine_run_slimmable(s, xs.drop_last());
        let before = s.submodels.update(a, run(s.submodels[a], xs.drop_last()).0);
        assert(before.update(a, run(s.submodels[a], xs).0) =~= s.submodels.update(
            a,
            run(s.submodels[a], xs).0,
        ));
    } else {
        assert(s.submodels.update(a, s.submodels[a]) =~= s.submodels);
    }
}

/// How far back the layers of an array reach in all.
pub open spec fn layers_reach<N>(layers: Seq<LayerModel<N>>) -> nat
    decreases layers.len(),
{
    if layers.len() == 0 {
        0
    } else {
        layers_reach(layers.drop_last()) + layers.last().conv.reach()
    }
}

/// How far back the arrays of a series reach in all.
pub open spec fn arrays_reach<N>(arrays: Seq<ArrayModel<N>>) -> nat
    decreases arrays.len(),
{
    if arrays.len() == 0 {
        0
    } else {
        arrays_reach(arrays.drop_last()) + layers_reach(arrays.last().layers)
            + arrays.last().head_rechannel.reach()
    }
}

/// How far back the stages of a post-stack head reach in all.
pub open spec fn stages_reach<N>(stages: Seq<HeadStage<N>>) -> nat
    decreases stages.len(),
{
    if stages.len() == 0 {
        0
    } else {
        stages_reach(stages.drop_last()) + stages.last().conv.reach()
    }
}

impl<N> WaveNetModel<N> {
    /// Receptive field in samples: how far back the deepest tap reaches. It counts from
    /// one, or from the receptive field of the nested model.
    pub open spec fn receptive_field(self) -> nat
        decreases self,
    {
        (match self.condition {
            Some(m) => m.receptive_field(),
            None => 1,
        }) + arrays_reach(self.arrays) + (match self.head {
            Some(h) => stages_reach(h.stages),
            None => 0,
        })
    }
}

impl<N> EngineModel<N> {
    /// Receptive field in samples. An LSTM has no warmup; a container has that of its
    /// active submodel.
    pub open spec fn receptive_field(self) -> nat
        decreases self,
    {
        match self {
            EngineModel::WaveNet(w) => w.receptive_field(),
            EngineModel::Lstm(_) => 0,
            EngineModel::Slimmable(s) => if s.active < s.submodels.len() {
                s.submodels[s.active as int].receptive_field()
            } else {
                0
            },
        }
    }
}

proof fn lemma_layers_reach_fresh<N>(a: Seq<LayerModel<N>>, b: Seq<LayerModel<N>>)
    requires
        a.len() == b.len(),
        forall|i: int| 0 <= i < a.len() ==> (#[trigger] a[i]).fresh() == b[i].fresh(),
    ensures
        layers_reach(a) == layers_reach(b),
    decreases a.len(),
{
    if a.len() > 0 {
        assert forall|i: int| 0 <= i < a.drop_last().len() implies (
        #[trigger] a.drop_last()[i]).fresh() == b.drop_last()[i].fresh() by {
            assert(a[i].fresh() == b[i].fresh());
        }
        lemma_layers_reach_fresh(a.drop_last(), b.drop_last());
        let i = a.len() - 1;
        assert(a[i].fresh() == b[i].fresh());
        assert(a[i].conv.fresh() == b[i].conv.fresh());
        assert(a[i].conv.fresh().kernel == a[i].conv.kernel);
        assert(b[i].conv.fresh().kernel == b[i].conv.kernel);
        assert(a[i].conv.fresh().dilation == a[i].conv.dilation);
        assert(b[i].conv.fresh().dilation == b[i].conv.dilation);
    }
}

/// Arrays that differ only in what they remember reach equally far.
pub proof fn lemma_arrays_reach_fresh<N>(a: Seq<ArrayModel<N>>, b: Seq<ArrayModel<N>>)
    requires
        a.len() == b.len(),
        forall|i: int| 0 <= i < a.len() ==> (#[trigger] a[i]).fresh() == b[i].fresh(),
    ensures
        arrays_reach(a) == arrays_reach(b),
    decreases a.len(),
{
    if a.len() > 0 {
        assert forall|i: int| 0 <= i < a.drop_last().len() implies (
        #[trigger] a.drop_last()[i]).fresh() == b.drop_last()[i].fresh() by {
            assert(a[i].fresh() == b[i].fresh());
        }
        lemma_arrays_reach_fresh(a.drop_last(), b.drop_last());
        let x = a[a.len() - 1];
        let y = b[a.len() - 1];
        assert(x.fresh() == y.fresh());
        assert(x.fresh().layers.len() == x.layers.len());
        assert(y.fresh().layers.len() == y.layers.len());
        assert forall|i: int| 0 <= i < x.layers.len() implies (#[trigger] x.layers[i]).fresh()
            == y.layers[i].fresh() by {
            assert(x.fresh().layers[i] == x.layers[i].fresh());
            assert(y.fresh().layers[i] == y.layers[i].fresh());
        }
        lemma_layers_reach_fresh(x.layers, y.layers);
        assert(x.head_rechannel.fresh() == y.head_rechannel.fresh());
        assert(x.head_rechannel.fresh().kernel == x.head_rechannel.kernel);
        assert(y.head_rechannel.fresh().kernel == y.head_rechannel.kernel);
        assert(x.head_rechannel.fresh().dilation == x.head_rechannel.dilation);
        assert(y.head_rechannel.fresh().dilation == y.head_rechannel.dilation);
    }
}

/// Heads that differ only in what they remember reach equally far.
pub proof fn lemma_stages_reach_fresh<N>(a: Seq<HeadStage<N>>, b: Seq<HeadStage<N>>)
    requires
        a.len() == b.len(),
        forall|i: int| 0 <= i < a.len() ==> (#[trigger] a[i]).fresh() == b[i].fresh(),
    ensures
        stages_reach(a) == stages_reach(b),
    decreases a.len(),
{
    if a.len() > 0 {
        assert forall|i: int| 0 <= i < a.drop_last().len() implies (
        #[trigger] a.drop_last()[i]).fresh() == b.drop_last()[i].fresh() by {
            assert(a[i].fresh() == b[i].fresh());
        }
        lemma_stages_reach_fresh(a.drop_last(), b.drop_last());
        let i = a.len() - 1;
        assert(a[i].fresh() == b[i].fresh());
        assert(a[i].conv.fresh() == b[i].conv.fresh());
        assert(a[i].conv.fresh().kernel == a[i].conv.kernel);
        assert(b[i].conv.fresh().kernel == b[i].conv.kernel);
        assert(a[i].conv.fresh().dilation == a[i].conv.dilation);
        assert(b[i].conv.fresh().dilation == b[i].conv.dilation);
    }
}

/// WaveNets that differ only in what they remember have the same receptive field.
pub proof fn lemma_wavenet_field_fresh<N>(a: WaveNetModel<N>, b: WaveNetModel<N>)
    requires
        a.fresh() == b.fresh(),
    ensures
        a.receptive_field() == b.receptive_field(),
    decreases a, 0nat,
{
    assert(a.fresh().arrays.len() == a.arrays.len());
    assert(b.fresh().arrays.len() == b.arrays.len());
    assert forall|i: int| 0 <= i < a.arrays.len() implies (#[trigger] a.arrays[i]).fresh()
        == b.arrays[i].fresh() by {
        assert(a.fresh().arrays[i] == a.arrays[i].fresh());
        assert(b.fresh().arrays[i] == b.arrays[i].fresh());
    }
    lemma_arrays_reach_fresh(a.arrays, b.arrays);
    match (a.head, b.head) {
        (Some(h), Some(g)) => {
            assert(h.fresh() == g.fresh());
            assert(h.fresh().stages.len() == h.stages.len());
            assert(g.fresh().stages.len() == g.stages.len());
            assert forall|i: int| 0 <= i < h.stages.len() implies (#[trigger] h.stages[i]).fresh()
                == g.stages[i].fresh() by {
                assert(h.fresh().stages[i] == h.stages[i].fresh());
                assert(g.fresh().stages[i] == g.stages[i].fresh());
            }
            lemma_stages_reach_fresh(h.stages, g.stages);
        },
        _ => {},
    }
    match (a.condition, b.condition) {
        (Some(e), Some(f)) => {
            lemma_engine_field_fresh(*e, *f);
        },
        _ => {},
    }
}

/// Models that differ only in what they remember have the same receptive field.
pub proof fn lemma_engine_field_fresh<N>(a: EngineModel<N>, b: EngineModel<N>)
    requires
        a.fresh() == b.fresh(),
    ensures
        a.receptive_field() == b.receptive_field(),
    decreases a, 1nat,
{
    match (a, b) {
        (EngineModel::WaveNet(w), EngineModel::WaveNet(v)) => {
            lemma_wavenet_field_fresh(w, v);
        },
        (EngineModel::Slimmable(s), EngineModel::Slimmable(r)) => {
            let fa = a.fresh()->Slimmable_0;
            let fb = b.fresh()->Slimmable_0;
            assert(fa.submodels.len() == s.submodels.len());
            assert(fb.submodels.len() == r.submodels.len());
            if s.active < s.submodels.len() {
                let i = s.active as int;
                assert(fa.submodels[i] == s.submodels[i].fresh());
                assert(fb.submodels[i] == r.submodels[i].fresh());
                lemma_engine_field_fresh(s.submodels[i], r.submodels[i]);
            }
        },
        _ => {},
    }
}

/// Resetting a WaveNet twice is resetting it once, and keeps its shape.
pub proof fn lemma_wavenet_fresh<N>(m: WaveNetModel<N>)
    ensures
        m.fresh().fresh() == m.fresh(),
        m.fresh().rows() == m.rows(),
        m.fresh().condition_width() == m.condition_width(),
    decreases m, 0nat,
{
    let f = m.fresh();
    assert forall|i: int| 0 <= i < m.arrays.len() implies #[trigger] f.arrays[i].fresh()
        == f.arrays[i] by {
        let a = m.arrays[i];
        assert(f.arrays[i] == a.fresh());
        assert forall|j: int| 0 <= j < a.layers.len() implies #[trigger] a.fresh().layers[j].fresh()
            == a.fresh().layers[j] by {}
        assert(a.fresh().fresh().layers =~= a.fresh().layers);
    }
    assert(f.fresh().arrays =~= f.arrays);
    match m.head {
        Some(h) => {
            assert forall|i: int| 0 <= i < h.stages.len() implies #[trigger] h.fresh().stages[i].fresh()
                == h.fresh().stages[i] by {}
            assert(h.fresh().fresh().stages =~= h.fresh().stages);
            if h.stages.len() == 0 {
                assert(h.fresh().stages =~= h.stages);
            }
        },
        None => {},
    }
    match m.condition {
        Some(e) => {
            lemma_engine_fresh(*e);
        },
        None => {},
    }
    assert(f.fresh() =~= f);
}

/// Resetting a model twice is resetting it once, and keeps its shape.
pub proof fn lemma_engine_fresh<N>(m: EngineModel<N>)
    ensures
        m.fresh().fresh() == m.fresh(),
        m.fresh().rows() == m.rows(),
    decreases m, 1nat,
{
    match m {
        EngineModel::WaveNet(w) => {
            lemma_wavenet_fresh(w);
        },
        EngineModel::Lstm(l) => {
            assert(l.fresh().fresh().cells =~= l.fresh().cells);
        },
        EngineModel::Slimmable(s) => {
            let f = m.fresh()->Slimmable_0;
            assert forall|i: int| 0 <= i < s.submodels.len() implies #[trigger] f.submodels[i].fresh()
                == f.submodels[i] by {
                lemma_engine_fresh(s.submodels[i]);
            }
            let g = EngineModel::Slimmable(f).fresh()->Slimmable_0;
            assert(m.fresh() == EngineModel::Slimmable(f));
            assert forall|i: int| 0 <= i < f.submodels.len() implies #[trigger] g.submodels[i]
                == f.submodels[i] by {
                assert(f.submodels[i].fresh() == f.submodels[i]);
            }
            assert(g.submodels =~= f.submodels);
            if s.active < s.submodels.len() {
                lemma_engine_fresh(s.submodels[s.active as int]);
            }
        },
    }
}

} // verus!
