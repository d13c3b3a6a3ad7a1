//! What holds of every model and every stream.

pub mod arithmetic;
pub mod builds;
pub mod configs;
pub mod containers;
pub mod dealing;
pub mod documents;
pub mod networks;
pub mod numbers;
pub mod readings;

use vstd::prelude::*;
use crate::arith::Expr;
use crate::document::{members_reading, Entry};
use crate::engine::{
    arrays_reach, conditioning, layers_reach, leads, lemma_engine_field_fresh, lemma_engine_fresh,
    lemma_engine_kept, lemma_engine_run_slimmable, lemma_engine_run_wavenet, lemma_wavenet_fresh,
    lemma_wavenet_run, lemma_wavenet_run_empty, scaled_heads, seeds, stages_reach, EngineModel,
    SlimModel, WaveNetModel,
};
use crate::error::JsonFailure;
use crate::json::{lookup, JsonNumber, JsonTree};
use crate::loading::{engine_failure, engine_of, wavenet_of};
use crate::lstm::lstm_of;
use crate::model::{ArrayShape, ConfigShape, NamShape, WaveNetShape};
use crate::parser::nam_json;
use crate::parser::records::{
    member_complaint, members_complaint, missing_complaint, nam_record, repeated, unknown, Kind,
};
use crate::signal::{
    chain_step, lemma_chain_empty, lemma_chain_run, lemma_chain_stage, lemma_run_at,
    lemma_run_concat, lemma_run_len, paired, run, scaled, Chain, Machine,
};
use crate::wavenet::array::{heads_of, lemma_array_run, stacked, ArrayModel};
use crate::wavenet::assembly::{dense_at, grouped_at};
use crate::wavenet::conv::{lemma_conv_answer, lemma_conv_run, spread, ConvModel};
use crate::wavenet::head::{lemma_head_run, lemma_stage_run, no_context, HeadModel, HeadStage};
use crate::wavenet::layer::{entering, lemma_layer_run, Carry, LayerModel};
use crate::wavenet::weights::arrays_count;

verus! {

// ---- Streaming ----

/// The block size does not matter: feeding a stream in two pieces gives the outputs,
/// and leaves the state, of feeding it at once.
pub proof fn lemma_pieces<N>(m: EngineModel<N>, xs: Seq<Expr<N>>, ys: Seq<Expr<N>>)
    ensures
        run(m, xs + ys).0 == run(run(m, xs).0, ys).0,
        run(m, xs + ys).1 == run(m, xs).1 + run(run(m, xs).0, ys).1,
{
    lemma_run_concat(m, xs, ys);
}

/// Feeding a block is feeding its samples one after another: the output at time `t` is
/// what a single step answers in the state that the steps before it led to.
pub proof fn lemma_samples<N>(m: EngineModel<N>, xs: Seq<Expr<N>>, t: int)
    requires
        0 <= t < xs.len(),
    ensures
        run(m, xs).1.len() == xs.len(),
        run(m, xs).1[t] == run(m, xs.take(t)).0.step(xs[t]).1,
        run(m, xs.take(t + 1)).0 == run(m, xs.take(t)).0.step(xs[t]).0,
{
    lemma_run_at(m, xs, t);
}

// ---- Reset ----

/// Every convolution of a layer as it is read remembers silence.
proof fn lemma_layer_built<N>(s: ArrayShape, w: Seq<JsonNumber>, at: nat, i: int)
    ensures
        s.layer_at::<N>(w, at, i).fresh() == s.layer_at::<N>(w, at, i),
{
    reveal(grouped_at);
    let m = s.layer_at::<N>(w, at, i);
    assert(m.conv.fresh().past =~= m.conv.past);
}

/// An array as it is read remembers silence.
proof fn lemma_array_built<N>(s: ArrayShape, w: Seq<JsonNumber>, at: nat)
    ensures
        s.array_at::<N>(w, at).fresh() == s.array_at::<N>(w, at),
{
    reveal(dense_at);
    let m = s.array_at::<N>(w, at);
    assert forall|i: int| 0 <= i < m.layers.len() implies #[trigger] m.layers[i].fresh()
        == m.layers[i] by {
        let first = at + (s.channels * s.input_size) as nat;
        lemma_layer_built::<N>(s, w, first + s.layers_count(i as nat), i);
    }
    assert(m.fresh().layers =~= m.layers);
    assert(m.head_rechannel.fresh().past =~= m.head_rechannel.past);
}

/// A WaveNet as it is built remembers silence.
proof fn lemma_wavenet_built<N>(c: WaveNetShape, w: Seq<JsonNumber>)
    requires
        c.condition_dsp matches Some(d) ==> engine_failure(*d) is None,
    ensures
        wavenet_of::<N>(c, w).fresh() == wavenet_of::<N>(c, w),
    decreases c, 0nat,
{
    let m = wavenet_of::<N>(c, w);
    assert forall|i: int| 0 <= i < m.arrays.len() implies #[trigger] m.arrays[i].fresh()
        == m.arrays[i] by {
        lemma_array_built::<N>(c.layers[i], w, arrays_count(c.layers, i as nat));
    }
    assert(m.fresh().arrays =~= m.arrays);
    match c.post_stack_head {
        Some(h) => {
            let head = m.head->Some_0;
            reveal(dense_at);
            assert forall|i: int| 0 <= i < head.stages.len() implies #[trigger] head.stages[i].fresh()
                == head.stages[i] by {
                assert(head.stages[i].conv.fresh().past =~= head.stages[i].conv.past);
            }
            assert(head.fresh().stages =~= head.stages);
        },
        None => {},
    }
    match c.condition_dsp {
        Some(d) => {
            lemma_built::<N>(*d);
        },
        None => {},
    }
    assert(m.fresh() =~= m);
}

/// A model that was just built is in its initial state: resetting it changes nothing.
pub proof fn lemma_built<N>(m: NamShape)
    requires
        engine_failure(m) is None,
    ensures
        engine_of::<N>(m).fresh() == engine_of::<N>(m),
    decreases m, 1nat,
{
    match m.config {
        ConfigShape::WaveNet(c) => {
            lemma_wavenet_built::<N>(c, m.weights);
        },
        ConfigShape::Lstm(c) => {
            let l = lstm_of::<N>(c, m.weights);
            assert forall|i: int| 0 <= i < l.cells.len() implies #[trigger] l.cells[i].fresh()
                == l.cells[i] by {}
            assert(l.fresh().cells =~= l.cells);
        },
        ConfigShape::Slimmable(subs) => {
            let e = engine_of::<N>(m);
            let s = e->Slimmable_0;
            let f = e.fresh()->Slimmable_0;
            assert forall|i: int| 0 <= i < subs.len() implies #[trigger] f.submodels[i]
                == s.submodels[i] by {
                lemma_submodel_sound(m, subs.len(), i);
                lemma_built::<N>(subs[i].model);
                assert(s.submodels[i] == engine_of::<N>(subs[i].model));
            }
            assert(f.submodels =~= s.submodels);
            assert(e.fresh() == EngineModel::Slimmable(f));
            assert(f =~= s);
        },
    }
}

/// Where a container can be built, each of its submodels can.
proof fn lemma_submodel_sound(m: NamShape, n: nat, i: int)
    requires
        m.config is Slimmable,
        crate::loading::submodels_failure(m.config->Slimmable_0, n) is None,
        0 <= i < n <= m.config->Slimmable_0.len(),
    ensures
        engine_failure(m.config->Slimmable_0[i].model) is None,
    decreases n,
{
    if i < n - 1 {
        lemma_submodel_sound(m, (n - 1) as nat, i);
    }
}

/// Whatever a model was fed, resetting it brings it back to the state in which it was
/// built, so it answers the next stream as it would have answered the first.
pub proof fn lemma_reset_restores<N>(m: NamShape, fed: Seq<Expr<N>>, next: Seq<Expr<N>>)
    requires
        engine_failure(m) is None,
    ensures
        run(engine_of::<N>(m), fed).0.fresh() == engine_of::<N>(m),
        run(run(engine_of::<N>(m), fed).0.fresh(), next) == run(engine_of::<N>(m), next),
{
    lemma_built::<N>(m);
    lemma_engine_kept(engine_of::<N>(m), fed);
}

/// Resetting twice is resetting once.
pub proof fn lemma_reset_once<N>(m: EngineModel<N>)
    ensures
        m.fresh().fresh() == m.fresh(),
{
    lemma_engine_fresh(m);
}

// ---- Containers ----

/// A container runs its active submodel and leaves the others, and the selection, as
/// they are; resetting leaves the selection too.
pub proof fn lemma_selection_stays<N>(s: SlimModel<N>, xs: Seq<Expr<N>>)
    requires
        s.active < s.submodels.len(),
    ensures
        run(EngineModel::Slimmable(s), xs).0 matches EngineModel::Slimmable(after) ==> {
            &&& after.active == s.active
            &&& after.max_values == s.max_values
            &&& after.submodels.len() == s.submodels.len()
            &&& forall|i: int|
                0 <= i < s.submodels.len() && i != s.active ==> #[trigger] after.submodels[i]
                    == s.submodels[i]
        },
        run(EngineModel::Slimmable(s), xs).0 is Slimmable,
        run(EngineModel::Slimmable(s), xs).1 == run(s.submodels[s.active as int], xs).1,
        EngineModel::Slimmable(s).fresh()->Slimmable_0.active == s.active,
{
    lemma_engine_run_slimmable(s, xs);
}

// ---- Weights ----

/// A nested conditioning model carries its own weights and takes none of its parent's.
pub proof fn lemma_nested_takes_no_weights(c: WaveNetShape, d: Option<Box<NamShape>>)
    ensures
        (WaveNetShape { condition_dsp: d, ..c }).count() == c.count(),
{
}

/// A convolution in one group is dense.
pub proof fn lemma_one_group_is_dense<N>(in_ch: nat, out_ch: nat, kernel: nat, w: Seq<Expr<N>>)
    requires
        w.len() == out_ch * in_ch * kernel,
    ensures
        spread(in_ch, out_ch, kernel, 1, w) == w,
{
    let wide = spread(in_ch, out_ch, kernel, 1, w);
    assert forall|i: int| 0 <= i < w.len() implies wide[i] == w[i] by {
        let k = kernel as int;
        let n = in_ch as int;
        assert(k > 0 && n > 0 && out_ch > 0) by (nonlinear_arith)
            requires
                0 <= i < out_ch * in_ch * kernel,
                k == kernel,
                n == in_ch,
        ;
        let row = i / k;
        let o = row / n;
        let j = row % n;
        assert(row * k + i % k == i) by (nonlinear_arith)
            requires
                row == i / k,
                k > 0,
        ;
        assert(0 <= row < out_ch * n) by (nonlinear_arith)
            requires
                row == i / k,
                0 <= i < out_ch * n * k,
                k > 0,
        ;
        assert(o * n + j == row) by (nonlinear_arith)
            requires
                o == row / n,
                j == row % n,
                n > 0,
        ;
        assert(0 <= o < out_ch) by (nonlinear_arith)
            requires
                o == row / n,
                0 <= row < out_ch * n,
                n > 0,
        ;
        assert(o / (out_ch as int) == 0) by (nonlinear_arith)
            requires
                0 <= o < out_ch,
        ;
        assert(j / n == 0 && j % n == j) by (nonlinear_arith)
            requires
                0 <= j < n,
        ;
        assert((out_ch / 1) as int == out_ch as int);
        assert((in_ch / 1) as int == n);
    }
    assert(wide =~= w);
}

// ---- Documents ----

proof fn lemma_lookup_unknown(ms: Seq<(Seq<char>, JsonTree)>, j: int, key: Seq<char>)
    requires
        0 <= j < ms.len(),
        ms[j].0 != key,
    ensures
        lookup(ms.remove(j), key) == lookup(ms, key),
    decreases ms.len(),
{
    let rest = ms.remove(j);
    if j == 0 {
        assert(rest =~= ms.drop_first());
    } else {
        assert(rest[0] == ms[0]);
        if ms[0].0 != key {
            lemma_lookup_unknown(ms.drop_first(), j - 1, key);
            assert(rest.drop_first() =~= ms.drop_first().remove(j - 1));
        }
    }
}

proof fn lemma_member_unknown(
    name: Seq<char>,
    v: JsonTree,
    again: bool,
    fields: Seq<(Seq<char>, Kind)>,
    n: nat,
)
    requires
        unknown(name, fields),
    ensures
        member_complaint(name, v, again, fields, n) is None,
    decreases n,
{
    if n > 0 {
        lemma_member_unknown(name, v, again, fields, (n - 1) as nat);
    }
}

proof fn lemma_members_unknown(
    ms: Seq<(Seq<char>, JsonTree)>,
    j: int,
    fields: Seq<(Seq<char>, Kind)>,
    k: nat,
)
    requires
        0 <= j < ms.len(),
        unknown(ms[j].0, fields),
        k <= ms.len(),
    ensures
        members_complaint(ms, fields, k) == members_complaint(
            ms.remove(j),
            fields,
            if k <= j {
                k
            } else {
                (k - 1) as nat
            },
        ),
    decreases k,
{
    let rest = ms.remove(j);
    if k > 0 {
        lemma_members_unknown(ms, j, fields, (k - 1) as nat);
        let i = k - 1;
        let (name, v) = ms[i];
        if i == j {
            lemma_member_unknown(name, v, repeated(ms, i), fields, fields.len());
        } else {
            let p = if i < j {
                i
            } else {
                i - 1
            };
            assert(rest[p] == ms[i]);
            if unknown(name, fields) {
                lemma_member_unknown(name, v, repeated(ms, i), fields, fields.len());
                lemma_member_unknown(name, v, repeated(rest, p), fields, fields.len());
            } else {
                assert(name != ms[j].0);
                if repeated(ms, i) {
                    let q = choose|q: int| 0 <= q < i && #[trigger] ms[q].0 == ms[i].0;
                    assert(rest[if q < j {
                        q
                    } else {
                        q - 1
                    }].0 == rest[p].0);
                }
                if repeated(rest, p) {
                    let q = choose|q: int| 0 <= q < p && #[trigger] rest[q].0 == rest[p].0;
                    assert(ms[if q < j {
                        q
                    } else {
                        q + 1
                    }].0 == ms[i].0);
                }
                assert(repeated(ms, i) == repeated(rest, p));
            }
        }
    }
}

proof fn lemma_missing_unknown(
    ms: Seq<(Seq<char>, JsonTree)>,
    j: int,
    fields: Seq<(Seq<char>, Kind)>,
    n: nat,
)
    requires
        0 <= j < ms.len(),
        unknown(ms[j].0, fields),
    ensures
        missing_complaint(ms.remove(j), fields, n) == missing_complaint(ms, fields, n),
    decreases n,
{
    if 0 < n <= fields.len() {
        lemma_missing_unknown(ms, j, fields, (n - 1) as nat);
        assert(fields[n - 1].0 != ms[j].0);
        lemma_lookup_unknown(ms, j, fields[n - 1].0);
    }
}

/// Unknown members are ignored: leaving one out of a file changes nothing.
pub proof fn lemma_unknown_members_ignored(ms: Seq<(Seq<char>, JsonTree)>, j: int)
    requires
        0 <= j < ms.len(),
        ms[j].0 != "version"@,
        ms[j].0 != "architecture"@,
        ms[j].0 != "config"@,
        ms[j].0 != "weights"@,
        ms[j].0 != "sample_rate"@,
        ms[j].0 != "metadata"@,
    ensures
        nam_json(JsonTree::Object(ms.remove(j))) == nam_json(JsonTree::Object(ms)),
{
    let fields = nam_record().fields;
    assert(unknown(ms[j].0, fields));
    lemma_members_unknown(ms, j, fields, ms.len());
    lemma_missing_unknown(ms, j, fields, fields.len());
    lemma_lookup_unknown(ms, j, "version"@);
    lemma_lookup_unknown(ms, j, "architecture"@);
    lemma_lookup_unknown(ms, j, "config"@);
    lemma_lookup_unknown(ms, j, "weights"@);
    lemma_lookup_unknown(ms, j, "sample_rate"@);
    lemma_lookup_unknown(ms, j, "metadata"@);
}

proof fn lemma_member_again(
    name: Seq<char>,
    v: JsonTree,
    fields: Seq<(Seq<char>, Kind)>,
    n: nat,
    i: int,
)
    requires
        0 <= i < n <= fields.len(),
        fields[i].0 == name,
    ensures
        member_complaint(name, v, true, fields, n) is Some,
    decreases n,
{
    if i < n - 1 {
        lemma_member_again(name, v, fields, (n - 1) as nat, i);
    }
}

proof fn lemma_members_again(
    ms: Seq<(Seq<char>, JsonTree)>,
    fields: Seq<(Seq<char>, Kind)>,
    j: int,
    k: nat,
)
    requires
        0 <= j < k <= ms.len(),
        repeated(ms, j),
        !unknown(ms[j].0, fields),
    ensures
        members_complaint(ms, fields, k) is Some,
    decreases k,
{
    if j < k - 1 {
        lemma_members_again(ms, fields, j, (k - 1) as nat);
    } else {
        let i = choose|i: int| 0 <= i < fields.len() && #[trigger] fields[i].0 == ms[j].0;
        lemma_member_again(ms[j].0, ms[j].1, fields, fields.len(), i);
    }
}

/// A file in which a known name stands twice is refused.
pub proof fn lemma_known_names_stand_once(ms: Seq<(Seq<char>, JsonTree)>, i: int, j: int)
    requires
        0 <= i < j < ms.len(),
        ms[i].0 == ms[j].0,
        !unknown(ms[j].0, nam_record().fields),
    ensures
        nam_json(JsonTree::Object(ms)) matches Err(JsonFailure::Shape(_)),
{
    assert(repeated(ms, j));
    lemma_members_again(ms, nam_record().fields, j, ms.len());
}

proof fn lemma_reading_unknown(
    text: Seq<char>,
    inner: Seq<char>,
    es: Seq<Entry>,
    j: int,
    k: nat,
)
    requires
        0 <= j < es.len(),
        unknown(es[j].name, nam_record().fields),
        k <= es.len(),
    ensures
        ({
            let without = members_reading(
                text,
                inner,
                es.remove(j),
                if k <= j {
                    k
                } else {
                    (k - 1) as nat
                },
            );
            &&& members_reading(text, inner, es, k) is Ok == without is Ok
            &&& without is Ok ==> members_reading(text, inner, es, k) == without
        }),
    decreases k,
{
    let rest = es.remove(j);
    if k > 0 {
        lemma_reading_unknown(text, inner, es, j, (k - 1) as nat);
        let i = k - 1;
        if i != j {
            assert(rest[if i < j {
                i
            } else {
                i - 1
            }] == es[i]);
        }
    }
}

/// The value of an unknown member is skipped, whatever its text is: leaving the member
/// out of a file changes neither whether the others can be read nor what is read.
pub proof fn lemma_unknown_values_skipped(
    text: Seq<char>,
    inner: Seq<char>,
    es: Seq<Entry>,
    j: int,
)
    requires
        0 <= j < es.len(),
        unknown(es[j].name, nam_record().fields),
    ensures
        ({
            let without = members_reading(text, inner, es.remove(j), (es.len() - 1) as nat);
            &&& members_reading(text, inner, es, es.len()) is Ok == without is Ok
            &&& without is Ok ==> members_reading(text, inner, es, es.len()) == without
        }),
{
    lemma_reading_unknown(text, inner, es, j, es.len());
}

// ---- Warmup ----

/// Whether two streams agree from time `s` on.
pub open spec fn agree_from<T>(a: Seq<T>, b: Seq<T>, s: nat) -> bool {
    &&& a.len() == b.len()
    &&& forall|t: int| s <= t < a.len() ==> #[trigger] a[t] == b[t]
}

/// Whether two machines forget how they differ: fed streams that agree from some time
/// on, their outputs agree from `d` samples later on.
#[verifier::opaque]
pub open spec fn settles<I, O, M: Machine<I, O>>(a: M, b: M, d: nat) -> bool {
    forall|xs: Seq<I>, ys: Seq<I>, s: nat| #[trigger]
        agree_from(xs, ys, s) ==> agree_from(
            run::<I, O, M>(a, xs).1,
            run::<I, O, M>(b, ys).1,
            s + d,
        )
}

/// Machines that settle, on two streams.
proof fn lemma_settled<I, O, M: Machine<I, O>>(
    a: M,
    b: M,
    d: nat,
    xs: Seq<I>,
    ys: Seq<I>,
    s: nat,
)
    requires
        settles::<I, O, M>(a, b, d),
        agree_from(xs, ys, s),
    ensures
        agree_from(run::<I, O, M>(a, xs).1, run::<I, O, M>(b, ys).1, s + d),
{
    reveal(settles);
}

/// Whether every convolution of an array remembers as many columns as it reaches back.
pub open spec fn primed_array<N>(a: ArrayModel<N>) -> bool {
    &&& forall|i: int|
        0 <= i < a.layers.len() ==> (#[trigger] a.layers[i]).conv.past.len()
            == a.layers[i].conv.reach()
    &&& a.head_rechannel.past.len() == a.head_rechannel.reach()
}

/// Whether every convolution of a post-stack head remembers as many columns as it
/// reaches back.
pub open spec fn primed_head<N>(h: HeadModel<N>) -> bool {
    forall|i: int|
        0 <= i < h.stages.len() ==> (#[trigger] h.stages[i]).conv.past.len()
            == h.stages[i].conv.reach()
}

/// Whether every convolution of a WaveNet remembers as many columns as it reaches back.
pub open spec fn primed_wavenet<N>(w: WaveNetModel<N>) -> bool
    decreases w,
{
    &&& forall|i: int| 0 <= i < w.arrays.len() ==> primed_array(#[trigger] w.arrays[i])
    &&& w.head matches Some(h) ==> primed_head(h)
    &&& match w.condition {
        Some(m) => primed(*m),
        None => true,
    }
}

/// Whether every convolution of a model remembers as many columns as it reaches back.
pub open spec fn primed<N>(m: EngineModel<N>) -> bool
    decreases m,
{
    match m {
        EngineModel::WaveNet(w) => primed_wavenet(w),
        EngineModel::Lstm(_) => true,
        EngineModel::Slimmable(s) => forall|i: int|
            0 <= i < s.submodels.len() ==> primed(#[trigger] s.submodels[i]),
    }
}

proof fn lemma_wavenet_primed_step<N>(w: WaveNetModel<N>, x: Expr<N>)
    requires
        primed_wavenet(w),
    ensures
        primed_wavenet(w.advance(x).0),
    decreases w, 0nat,
{
    if w.arrays.len() > 0 {
        let after = w.advance(x).0;
        let c = w.conditioned(x);
        assert forall|i: int| 0 <= i < after.arrays.len() implies primed_array(
            #[trigger] after.arrays[i],
        ) by {
            let _ = lemma_chain_stage(w.arrays, w.seed(x), c.1, 0);
            let given = lemma_chain_stage(w.arrays, w.seed(x), c.1, i);
            let a = w.arrays[i];
            let b = after.arrays[i];
            assert(primed_array(a));
            let entered = a.enter(given);
            assert forall|j: int| 0 <= j < b.layers.len() implies (
            #[trigger] b.layers[j]).conv.past.len() == b.layers[j].conv.reach() by {
                if a.layers.len() > 0 {
                    let _ = lemma_chain_stage(a.layers, entered, c.1, 0);
                    let _ = lemma_chain_stage(a.layers, entered, c.1, j);
                    assert(a.layers[j].conv.past.len() == a.layers[j].conv.reach());
                }
            }
        }
        match w.head {
            Some(h) => {
                let last = chain_step(w.arrays, w.seed(x), c.1).1.head;
                let given = scaled(w.head_scale, last);
                let g = h.step(given).0;
                assert forall|i: int| 0 <= i < g.stages.len() implies (
                #[trigger] g.stages[i]).conv.past.len() == g.stages[i].conv.reach() by {
                    if h.stages.len() > 0 {
                        let _ = lemma_chain_stage(h.stages, given, (), 0);
                        let _ = lemma_chain_stage(h.stages, given, (), i);
                        assert(h.stages[i].conv.past.len() == h.stages[i].conv.reach());
                    }
                }
            },
            None => {},
        }
        match w.condition {
            Some(m) => {
                lemma_primed_step(*m, x);
            },
            None => {},
        }
    }
}

proof fn lemma_primed_step<N>(m: EngineModel<N>, x: Expr<N>)
    requires
        primed(m),
    ensures
        primed(m.advance(x).0),
    decreases m, 1nat,
{
    match m {
        EngineModel::WaveNet(w) => {
            lemma_wavenet_primed_step(w, x);
        },
        EngineModel::Lstm(_) => {},
        EngineModel::Slimmable(s) => {
            if s.active < s.submodels.len() {
                let a = s.active as int;
                lemma_primed_step(s.submodels[a], x);
                let after = m.advance(x).0->Slimmable_0;
                assert forall|i: int| 0 <= i < after.submodels.len() implies primed(
                    #[trigger] after.submodels[i],
                ) by {
                    if i != a {
                        assert(after.submodels[i] == s.submodels[i]);
                    }
                }
            }
        },
    }
}

/// Running a model does not change how many columns its convolutions remember.
pub proof fn lemma_primed_run<N>(m: EngineModel<N>, xs: Seq<Expr<N>>)
    requires
        primed(m),
    ensures
        primed(run(m, xs).0),
    decreases xs.len(),
{
    if xs.len() > 0 {
        lemma_primed_run(m, xs.drop_last());
        lemma_primed_step(run(m, xs.drop_last()).0, xs.last());
    }
}

proof fn lemma_wavenet_primed_fresh<N>(w: WaveNetModel<N>)
    ensures
        primed_wavenet(w.fresh()),
    decreases w, 0nat,
{
    let f = w.fresh();
    assert forall|i: int| 0 <= i < f.arrays.len() implies primed_array(#[trigger] f.arrays[i]) by {
        assert(f.arrays[i] == w.arrays[i].fresh());
    }
    match w.condition {
        Some(m) => {
            lemma_primed_fresh(*m);
        },
        None => {},
    }
}

/// In a model in its initial state every convolution remembers as many columns as it
/// reaches back.
pub proof fn lemma_primed_fresh<N>(m: EngineModel<N>)
    ensures
        primed(m.fresh()),
    decreases m, 1nat,
{
    match m {
        EngineModel::WaveNet(w) => {
            lemma_wavenet_primed_fresh(w);
        },
        EngineModel::Lstm(_) => {},
        EngineModel::Slimmable(s) => {
            let f = m.fresh()->Slimmable_0;
            assert forall|i: int| 0 <= i < f.submodels.len() implies primed(
                #[trigger] f.submodels[i],
            ) by {
                lemma_primed_fresh(s.submodels[i]);
            }
        },
    }
}

proof fn lemma_wavenet_primed<N>(w: WaveNetModel<N>)
    requires
        w.valid(),
    ensures
        primed_wavenet(w),
    decreases w, 0nat,
{
    assert forall|i: int| 0 <= i < w.arrays.len() implies primed_array(#[trigger] w.arrays[i]) by {
        assert(w.array_fits(i));
        let a = w.arrays[i];
        assert forall|j: int| 0 <= j < a.layers.len() implies (
        #[trigger] a.layers[j]).conv.past.len() == a.layers[j].conv.reach() by {
            assert(a.layer_fits(j));
        }
    }
    match w.head {
        Some(h) => {
            assert forall|i: int| 0 <= i < h.stages.len() implies (
            #[trigger] h.stages[i]).conv.past.len() == h.stages[i].conv.reach() by {
                assert(h.stages[i].conv.valid());
            }
        },
        None => {},
    }
    match w.condition {
        Some(m) => {
            lemma_primed(*m);
        },
        None => {},
    }
}

/// In a valid model every convolution remembers as many columns as it reaches back.
pub proof fn lemma_primed<N>(m: EngineModel<N>)
    requires
        m.valid(),
    ensures
        primed(m),
    decreases m, 1nat,
{
    match m {
        EngineModel::WaveNet(w) => {
            lemma_wavenet_primed(w);
        },
        EngineModel::Lstm(_) => {},
        EngineModel::Slimmable(s) => {
            assert forall|i: int| 0 <= i < s.submodels.len() implies primed(
                #[trigger] s.submodels[i],
            ) by {
                lemma_primed(s.submodels[i]);
            }
        },
    }
}

/// Convolutions that differ only in what they remember settle once their oldest tap has
/// passed it.
proof fn lemma_conv_settles<N>(a: ConvModel<N>, b: ConvModel<N>)
    requires
        a.fresh() == b.fresh(),
        a.past.len() == a.reach(),
        b.past.len() == b.reach(),
    ensures
        settles::<Seq<Expr<N>>, Seq<Expr<N>>, ConvModel<N>>(a, b, a.reach()),
{
    reveal(settles);
    assert(a == (ConvModel { past: a.past, ..b })) by {
        assert(a.fresh().weights == b.fresh().weights);
        assert(a.fresh().in_ch == b.fresh().in_ch);
        assert(a.fresh().kernel == b.fresh().kernel);
        assert(a.fresh().dilation == b.fresh().dilation);
    }
    let r = a.reach();
    assert forall|xs: Seq<Seq<Expr<N>>>, ys: Seq<Seq<Expr<N>>>, s: nat| #[trigger]
        agree_from(xs, ys, s) implies agree_from(run(a, xs).1, run(b, ys).1, s + r) by {
        lemma_conv_run(a, xs);
        lemma_conv_run(b, ys);
        assert forall|t: int| s + r <= t < xs.len() implies #[trigger] run(a, xs).1[t] == run(
            b,
            ys,
        ).1[t] by {
            let wa = (a.past + xs).subrange(t, t + r + 1);
            let wb = (b.past + ys).subrange(t, t + r + 1);
            assert forall|h: int| 0 <= h < r + 1 implies wa[h] == wb[h] by {
                assert(wa[h] == xs[t + h - r]);
                assert(wb[h] == ys[t + h - r]);
            }
            assert(wa =~= wb);
            lemma_conv_answer(a, b, wa);
        }
    }
}

/// The streams of a stream of pairs.
proof fn lemma_unpaired<X, C>(ps: Seq<(X, C)>)
    ensures
        paired(Seq::new(ps.len(), |t: int| ps[t].0), Seq::new(ps.len(), |t: int| ps[t].1)) == ps,
{
    assert(paired(Seq::new(ps.len(), |t: int| ps[t].0), Seq::new(ps.len(), |t: int| ps[t].1))
        =~= ps);
}

/// Layers that differ only in what they remember, on two streams.
proof fn lemma_layer_settled<N>(
    a: LayerModel<N>,
    b: LayerModel<N>,
    ps: Seq<(Carry<N>, Seq<Expr<N>>)>,
    qs: Seq<(Carry<N>, Seq<Expr<N>>)>,
    s: nat,
)
    requires
        a.fresh() == b.fresh(),
        a.conv.past.len() == a.conv.reach(),
        b.conv.past.len() == b.conv.reach(),
        agree_from(ps, qs, s),
    ensures
        agree_from(run(a, ps).1, run(b, qs).1, s + a.conv.reach()),
{
    assert(a.conv.fresh() == b.conv.fresh());
    assert(a == (LayerModel { conv: a.conv, ..b })) by {
        assert(a.fresh().mixin == b.fresh().mixin);
        assert(a.fresh().layer1x1 == b.fresh().layer1x1);
        assert(a.fresh().head1x1 == b.fresh().head1x1);
        assert(a.fresh().gating == b.fresh().gating);
        assert(a.fresh().films == b.fresh().films);
    }
    let r = a.conv.reach();
    lemma_conv_settles(a.conv, b.conv);
    let n = ps.len();
    let xs = Seq::new(n, |t: int| ps[t].0);
    let cs = Seq::new(n, |t: int| ps[t].1);
    let ys = Seq::new(n, |t: int| qs[t].0);
    let ds = Seq::new(n, |t: int| qs[t].1);
    lemma_unpaired(ps);
    lemma_unpaired(qs);
    lemma_layer_run(a, xs, cs);
    lemma_layer_run(b, ys, ds);
    let ea = entering(a, xs, cs);
    let eb = entering(b, ys, ds);
    assert(agree_from(ea, eb, s)) by {
        assert forall|t: int| s <= t < n implies #[trigger] ea[t] == eb[t] by {
            assert(ps[t] == qs[t]);
        }
    }
    lemma_settled(a.conv, b.conv, r, ea, eb, s);
    assert forall|t: int| s + r <= t < n implies #[trigger] run(a, ps).1[t] == run(b, qs).1[t] by {
        let za = run(a.conv, ea).1[t];
        assert(za == run(b.conv, eb).1[t]);
        assert(ps[t] == qs[t]);
        assert(a.leave(xs[t], cs[t], za) == b.leave(ys[t], ds[t], za));
    }
}

/// Layers that differ only in what they remember settle once their oldest tap has
/// passed it.
proof fn lemma_layer_settles<N>(a: LayerModel<N>, b: LayerModel<N>)
    requires
        a.fresh() == b.fresh(),
        a.conv.past.len() == a.conv.reach(),
        b.conv.past.len() == b.conv.reach(),
    ensures
        settles::<(Carry<N>, Seq<Expr<N>>), Carry<N>, LayerModel<N>>(a, b, a.conv.reach()),
{
    reveal(settles);
    assert forall|ps: Seq<(Carry<N>, Seq<Expr<N>>)>, qs: Seq<(Carry<N>, Seq<Expr<N>>)>, s: nat|
        #[trigger] agree_from(ps, qs, s) implies agree_from(
        run(a, ps).1,
        run(b, qs).1,
        s + a.conv.reach(),
    ) by {
        lemma_layer_settled(a, b, ps, qs, s);
    }
}

/// Stages in series settle one after another.
proof fn lemma_chain_settles<X, C, M: Machine<(X, C), X>>(
    a: Seq<M>,
    b: Seq<M>,
    front: nat,
    last: nat,
)
    requires
        a.len() == b.len(),
        a.len() > 0,
        settles::<(X, C), X, Chain<M>>(
            Chain { stages: a.drop_last() },
            Chain { stages: b.drop_last() },
            front,
        ),
        settles::<(X, C), X, M>(a.last(), b.last(), last),
    ensures
        settles::<(X, C), X, Chain<M>>(Chain { stages: a }, Chain { stages: b }, front + last),
{
    reveal(settles);
    assert forall|ps: Seq<(X, C)>, qs: Seq<(X, C)>, s: nat| #[trigger]
        agree_from(ps, qs, s) implies agree_from(
        run::<(X, C), X, Chain<M>>(Chain { stages: a }, ps).1,
        run::<(X, C), X, Chain<M>>(Chain { stages: b }, qs).1,
        s + (front + last),
    ) by {
        let n = ps.len();
        let xs = Seq::new(n, |t: int| ps[t].0);
        let cs = Seq::new(n, |t: int| ps[t].1);
        let ys = Seq::new(n, |t: int| qs[t].0);
        let ds = Seq::new(n, |t: int| qs[t].1);
        lemma_unpaired(ps);
        lemma_unpaired(qs);
        lemma_chain_run::<X, C, M>(a, xs, cs);
        lemma_chain_run::<X, C, M>(b, ys, ds);
        let fa = run::<(X, C), X, Chain<M>>(Chain { stages: a.drop_last() }, ps).1;
        let fb = run::<(X, C), X, Chain<M>>(Chain { stages: b.drop_last() }, qs).1;
        assert(agree_from(fa, fb, s + front));
        let pa = paired(fa, cs);
        let pb = paired(fb, ds);
        assert(agree_from(pa, pb, s + front)) by {
            assert forall|t: int| s + front <= t < n implies #[trigger] pa[t] == pb[t] by {
                assert(fa[t] == fb[t]);
                assert(ps[t] == qs[t]);
            }
        }
        assert(s + front + last == s + (front + last));
    }
}

/// An empty series has nothing to forget.
proof fn lemma_chain_settles_empty<X, C, M: Machine<(X, C), X>>(a: Seq<M>, b: Seq<M>)
    requires
        a.len() == 0,
        b.len() == 0,
    ensures
        settles::<(X, C), X, Chain<M>>(Chain { stages: a }, Chain { stages: b }, 0),
{
    reveal(settles);
    assert forall|ps: Seq<(X, C)>, qs: Seq<(X, C)>, s: nat| #[trigger]
        agree_from(ps, qs, s) implies agree_from(
        run::<(X, C), X, Chain<M>>(Chain { stages: a }, ps).1,
        run::<(X, C), X, Chain<M>>(Chain { stages: b }, qs).1,
        s + 0,
    ) by {
        let n = ps.len();
        let xs = Seq::new(n, |t: int| ps[t].0);
        let cs = Seq::new(n, |t: int| ps[t].1);
        let ys = Seq::new(n, |t: int| qs[t].0);
        let ds = Seq::new(n, |t: int| qs[t].1);
        lemma_unpaired(ps);
        lemma_unpaired(qs);
        lemma_chain_empty::<X, C, M>(a, xs, cs);
        lemma_chain_empty::<X, C, M>(b, ys, ds);
        assert forall|t: int| s <= t < n implies #[trigger] xs[t] == ys[t] by {
            assert(ps[t] == qs[t]);
        }
    }
}

/// The layers of arrays that differ only in what they remember settle.
proof fn lemma_layers_settle<N>(a: Seq<LayerModel<N>>, b: Seq<LayerModel<N>>)
    requires
        a.len() == b.len(),
        forall|i: int|
            0 <= i < a.len() ==> (#[trigger] a[i]).fresh() == b[i].fresh() && a[i].conv.past.len()
                == a[i].conv.reach() && b[i].conv.past.len() == b[i].conv.reach(),
    ensures
        settles::<(Carry<N>, Seq<Expr<N>>), Carry<N>, Chain<LayerModel<N>>>(
            Chain { stages: a },
            Chain { stages: b },
            layers_reach(a),
        ),
    decreases a.len(),
{
    if a.len() == 0 {
        lemma_chain_settles_empty::<Carry<N>, Seq<Expr<N>>, LayerModel<N>>(a, b);
    } else {
        assert forall|i: int| 0 <= i < a.drop_last().len() implies (
        #[trigger] a.drop_last()[i]).fresh() == b.drop_last()[i].fresh()
            && a.drop_last()[i].conv.past.len() == a.drop_last()[i].conv.reach()
            && b.drop_last()[i].conv.past.len() == b.drop_last()[i].conv.reach() by {
            assert(a[i].fresh() == b[i].fresh());
        }
        lemma_layers_settle(a.drop_last(), b.drop_last());
        let k = a.len() - 1;
        assert(a[k].fresh() == b[k].fresh());
        lemma_layer_settles(a.last(), b.last());
        lemma_chain_settles::<Carry<N>, Seq<Expr<N>>, LayerModel<N>>(
            a,
            b,
            layers_reach(a.drop_last()),
            a.last().conv.reach(),
        );
    }
}

/// Arrays that differ only in what they remember, on two streams.
proof fn lemma_array_settled<N>(
    a: ArrayModel<N>,
    b: ArrayModel<N>,
    ps: Seq<(Carry<N>, Seq<Expr<N>>)>,
    qs: Seq<(Carry<N>, Seq<Expr<N>>)>,
    s: nat,
)
    requires
        a.fresh() == b.fresh(),
        primed_array(a),
        primed_array(b),
        agree_from(ps, qs, s),
    ensures
        agree_from(
            run(a, ps).1,
            run(b, qs).1,
            s + (layers_reach(a.layers) + a.head_rechannel.reach()),
        ),
{
    assert(a.fresh().layers.len() == a.layers.len());
    assert(b.fresh().layers.len() == b.layers.len());
    assert forall|i: int| 0 <= i < a.layers.len() implies (#[trigger] a.layers[i]).fresh()
        == b.layers[i].fresh() && a.layers[i].conv.past.len() == a.layers[i].conv.reach()
        && b.layers[i].conv.past.len() == b.layers[i].conv.reach() by {
        assert(a.fresh().layers[i] == a.layers[i].fresh());
        assert(b.fresh().layers[i] == b.layers[i].fresh());
    }
    lemma_layers_settle(a.layers, b.layers);
    assert(a.head_rechannel.fresh() == b.head_rechannel.fresh());
    lemma_conv_settles(a.head_rechannel, b.head_rechannel);
    let r = layers_reach(a.layers);
    let h = a.head_rechannel.reach();
    let n = ps.len();
    let xs = Seq::new(n, |t: int| ps[t].0);
    let cs = Seq::new(n, |t: int| ps[t].1);
    let ys = Seq::new(n, |t: int| qs[t].0);
    let ds = Seq::new(n, |t: int| qs[t].1);
    lemma_unpaired(ps);
    lemma_unpaired(qs);
    lemma_array_run(a, xs, cs);
    lemma_array_run(b, ys, ds);
    let pa = paired(stacked(a, xs), cs);
    let pb = paired(stacked(b, ys), ds);
    assert(agree_from(pa, pb, s)) by {
        assert forall|t: int| s <= t < n implies #[trigger] pa[t] == pb[t] by {
            assert(ps[t] == qs[t]);
            assert(a.rechannel == b.rechannel);
        }
    }
    lemma_settled(Chain { stages: a.layers }, Chain { stages: b.layers }, r, pa, pb, s);
    let sa = run(Chain { stages: a.layers }, pa).1;
    let sb = run(Chain { stages: b.layers }, pb).1;
    assert(agree_from(heads_of(sa), heads_of(sb), s + r)) by {
        assert forall|t: int| s + r <= t < n implies #[trigger] heads_of(sa)[t] == heads_of(
            sb,
        )[t] by {
            assert(sa[t] == sb[t]);
        }
    }
    lemma_settled(a.head_rechannel, b.head_rechannel, h, heads_of(sa), heads_of(sb), s + r);
    let ha = run(a.head_rechannel, heads_of(sa)).1;
    let hb = run(b.head_rechannel, heads_of(sb)).1;
    assert forall|t: int| s + (r + h) <= t < n implies #[trigger] run(a, ps).1[t] == run(
        b,
        qs,
    ).1[t] by {
        assert(sa[t] == sb[t]);
        assert(ha[t] == hb[t]);
    }
}

/// Arrays that differ only in what they remember settle.
proof fn lemma_array_settles<N>(a: ArrayModel<N>, b: ArrayModel<N>)
    requires
        a.fresh() == b.fresh(),
        primed_array(a),
        primed_array(b),
    ensures
        settles::<(Carry<N>, Seq<Expr<N>>), Carry<N>, ArrayModel<N>>(
            a,
            b,
            layers_reach(a.layers) + a.head_rechannel.reach(),
        ),
{
    reveal(settles);
    assert forall|ps: Seq<(Carry<N>, Seq<Expr<N>>)>, qs: Seq<(Carry<N>, Seq<Expr<N>>)>, s: nat|
        #[trigger] agree_from(ps, qs, s) implies agree_from(
        run(a, ps).1,
        run(b, qs).1,
        s + (layers_reach(a.layers) + a.head_rechannel.reach()),
    ) by {
        lemma_array_settled(a, b, ps, qs, s);
    }
}

/// Arrays in series that differ only in what they remember settle.
proof fn lemma_arrays_settle<N>(a: Seq<ArrayModel<N>>, b: Seq<ArrayModel<N>>)
    requires
        a.len() == b.len(),
        forall|i: int|
            0 <= i < a.len() ==> (#[trigger] a[i]).fresh() == b[i].fresh() && primed_array(a[i])
                && primed_array(b[i]),
    ensures
        settles::<(Carry<N>, Seq<Expr<N>>), Carry<N>, Chain<ArrayModel<N>>>(
            Chain { stages: a },
            Chain { stages: b },
            arrays_reach(a),
        ),
    decreases a.len(),
{
    if a.len() == 0 {
        lemma_chain_settles_empty::<Carry<N>, Seq<Expr<N>>, ArrayModel<N>>(a, b);
    } else {
        assert forall|i: int| 0 <= i < a.drop_last().len() implies (
        #[trigger] a.drop_last()[i]).fresh() == b.drop_last()[i].fresh() && primed_array(
            a.drop_last()[i],
        ) && primed_array(b.drop_last()[i]) by {
            assert(a[i].fresh() == b[i].fresh());
        }
        lemma_arrays_settle(a.drop_last(), b.drop_last());
        let k = a.len() - 1;
        assert(a[k].fresh() == b[k].fresh());
        lemma_array_settles(a.last(), b.last());
        lemma_chain_settles::<Carry<N>, Seq<Expr<N>>, ArrayModel<N>>(
            a,
            b,
            arrays_reach(a.drop_last()),
            layers_reach(a.last().layers) + a.last().head_rechannel.reach(),
        );
    }
}

/// Stages of a post-stack head that differ only in what they remember settle.
proof fn lemma_stage_settles<N>(a: HeadStage<N>, b: HeadStage<N>)
    requires
        a.fresh() == b.fresh(),
        a.conv.past.len() == a.conv.reach(),
        b.conv.past.len() == b.conv.reach(),
    ensures
        settles::<(Seq<Expr<N>>, ()), Seq<Expr<N>>, HeadStage<N>>(a, b, a.conv.reach()),
{
    assert(a.conv.fresh() == b.conv.fresh());
    assert(a.fresh().activation == b.fresh().activation);
    lemma_conv_settles(a.conv, b.conv);
    let r = a.conv.reach();
    reveal(settles);
    assert forall|ps: Seq<(Seq<Expr<N>>, ())>, qs: Seq<(Seq<Expr<N>>, ())>, s: nat| #[trigger]
        agree_from(ps, qs, s) implies agree_from(run(a, ps).1, run(b, qs).1, s + r) by {
        let n = ps.len();
        let xs = Seq::new(n, |t: int| ps[t].0);
        let cs = Seq::new(n, |t: int| ps[t].1);
        let ys = Seq::new(n, |t: int| qs[t].0);
        let ds = Seq::new(n, |t: int| qs[t].1);
        lemma_unpaired(ps);
        lemma_unpaired(qs);
        lemma_stage_run(a, xs, cs);
        lemma_stage_run(b, ys, ds);
        let ea = Seq::new(n, |t: int| a.enter(xs[t]));
        let eb = Seq::new(n, |t: int| b.enter(ys[t]));
        assert(agree_from(ea, eb, s)) by {
            assert forall|t: int| s <= t < n implies #[trigger] ea[t] == eb[t] by {
                assert(ps[t] == qs[t]);
                assert(a.enter(xs[t]) =~= b.enter(ys[t]));
            }
        }
        lemma_settled(a.conv, b.conv, r, ea, eb, s);
    }
}

/// The stages of heads that differ only in what they remember settle.
proof fn lemma_stages_settle<N>(a: Seq<HeadStage<N>>, b: Seq<HeadStage<N>>)
    requires
        a.len() == b.len(),
        forall|i: int|
            0 <= i < a.len() ==> (#[trigger] a[i]).fresh() == b[i].fresh() && a[i].conv.past.len()
                == a[i].conv.reach() && b[i].conv.past.len() == b[i].conv.reach(),
    ensures
        settles::<(Seq<Expr<N>>, ()), Seq<Expr<N>>, Chain<HeadStage<N>>>(
            Chain { stages: a },
            Chain { stages: b },
            stages_reach(a),
        ),
    decreases a.len(),
{
    if a.len() == 0 {
        lemma_chain_settles_empty::<Seq<Expr<N>>, (), HeadStage<N>>(a, b);
    } else {
        assert forall|i: int| 0 <= i < a.drop_last().len() implies (
        #[trigger] a.drop_last()[i]).fresh() == b.drop_last()[i].fresh()
            && a.drop_last()[i].conv.past.len() == a.drop_last()[i].conv.reach()
            && b.drop_last()[i].conv.past.len() == b.drop_last()[i].conv.reach() by {
            assert(a[i].fresh() == b[i].fresh());
        }
        lemma_stages_settle(a.drop_last(), b.drop_last());
        let k = a.len() - 1;
        assert(a[k].fresh() == b[k].fresh());
        lemma_stage_settles(a.last(), b.last());
        lemma_chain_settles::<Seq<Expr<N>>, (), HeadStage<N>>(
            a,
            b,
            stages_reach(a.drop_last()),
            a.last().conv.reach(),
        );
    }
}

/// Heads that differ only in what they remember settle.
proof fn lemma_head_settles<N>(a: HeadModel<N>, b: HeadModel<N>)
    requires
        a.fresh() == b.fresh(),
        primed_head(a),
        primed_head(b),
    ensures
        settles::<Seq<Expr<N>>, Seq<Expr<N>>, HeadModel<N>>(a, b, stages_reach(a.stages)),
{
    assert(a.fresh().stages.len() == a.stages.len());
    assert(b.fresh().stages.len() == b.stages.len());
    assert forall|i: int| 0 <= i < a.stages.len() implies (#[trigger] a.stages[i]).fresh()
        == b.stages[i].fresh() && a.stages[i].conv.past.len() == a.stages[i].conv.reach()
        && b.stages[i].conv.past.len() == b.stages[i].conv.reach() by {
        assert(a.fresh().stages[i] == a.stages[i].fresh());
        assert(b.fresh().stages[i] == b.stages[i].fresh());
    }
    lemma_stages_settle(a.stages, b.stages);
    let r = stages_reach(a.stages);
    reveal(settles);
    assert forall|xs: Seq<Seq<Expr<N>>>, ys: Seq<Seq<Expr<N>>>, s: nat| #[trigger]
        agree_from(xs, ys, s) implies agree_from(run(a, xs).1, run(b, ys).1, s + r) by {
        let pa = paired(xs, no_context(xs.len()));
        let pb = paired(ys, no_context(ys.len()));
        lemma_head_run(a, xs);
        lemma_head_run(b, ys);
        assert(agree_from(pa, pb, s)) by {
            assert forall|t: int| s <= t < pa.len() implies #[trigger] pa[t] == pb[t] by {
                assert(xs[t] == ys[t]);
            }
        }
        lemma_settled(Chain { stages: a.stages }, Chain { stages: b.stages }, r, pa, pb, s);
    }
}

/// Whether nothing in a model remembers forever: no LSTM runs in it.
pub open spec fn feedforward<N>(m: EngineModel<N>) -> bool
    decreases m,
{
    match m {
        EngineModel::WaveNet(w) => match w.condition {
            Some(e) => feedforward(*e),
            None => true,
        },
        EngineModel::Lstm(_) => false,
        EngineModel::Slimmable(s) => s.active < s.submodels.len() && feedforward(
            s.submodels[s.active as int],
        ),
    }
}

/// A receptive field holds at least the current sample.
pub proof fn lemma_field_positive<N>(m: EngineModel<N>)
    requires
        feedforward(m),
    ensures
        m.receptive_field() >= 1,
    decreases m,
{
    match m {
        EngineModel::WaveNet(w) => {
            if w.condition is Some {
                lemma_field_positive(*w.condition->Some_0);
            }
            assert(w.receptive_field() >= 1);
        },
        EngineModel::Lstm(_) => {},
        EngineModel::Slimmable(s) => {
            lemma_field_positive(s.submodels[s.active as int]);
        },
    }
}

/// Fewer arrays do not reach further.
proof fn lemma_reach_take<N>(arrays: Seq<ArrayModel<N>>, k: int)
    requires
        0 <= k <= arrays.len(),
    ensures
        arrays_reach(arrays.take(k)) <= arrays_reach(arrays),
    decreases arrays.len(),
{
    if k == arrays.len() {
        assert(arrays.take(k) =~= arrays);
    } else {
        lemma_reach_take(arrays.drop_last(), k);
        assert(arrays.drop_last().take(k) =~= arrays.take(k));
    }
}

/// What stands in the head buffers settles as the arrays do.
proof fn lemma_leads_settle<N>(
    a: Seq<ArrayModel<N>>,
    b: Seq<ArrayModel<N>>,
    xs: Seq<Carry<N>>,
    cs: Seq<Seq<Expr<N>>>,
    ys: Seq<Carry<N>>,
    ds: Seq<Seq<Expr<N>>>,
    s: nat,
    k: int,
)
    requires
        a.len() == b.len(),
        forall|i: int|
            0 <= i < a.len() ==> (#[trigger] a[i]).fresh() == b[i].fresh() && primed_array(a[i])
                && primed_array(b[i]),
        xs.len() == cs.len() == ys.len() == ds.len(),
        agree_from(paired(xs, cs), paired(ys, ds), s),
        k <= a.len(),
    ensures
        leads(a, xs, cs, k).len() == xs.len(),
        agree_from(leads(a, xs, cs, k), leads(b, ys, ds, k), s + arrays_reach(a)),
    decreases k + 1,
{
    if k > 0 {
        assert(a[k - 1].fresh() == b[k - 1].fresh());
        assert(a[k - 1].head_rechannel.fresh() == b[k - 1].head_rechannel.fresh());
        assert(a[k - 1].head_rechannel.fresh().out_ch == a[k - 1].head_size());
        assert(b[k - 1].head_rechannel.fresh().out_ch == b[k - 1].head_size());
        if a[k - 1].head_size() > 0 {
            let fa = a.take(k);
            let fb = b.take(k);
            assert forall|i: int| 0 <= i < fa.len() implies (#[trigger] fa[i]).fresh()
                == fb[i].fresh() && primed_array(fa[i]) && primed_array(fb[i]) by {
                assert(a[i].fresh() == b[i].fresh());
            }
            lemma_arrays_settle(fa, fb);
            let pa = paired(xs, cs);
            let pb = paired(ys, ds);
            let r = arrays_reach(fa);
            lemma_settled(Chain { stages: fa }, Chain { stages: fb }, r, pa, pb, s);
            lemma_reach_take(a, k);
            lemma_run_len(Chain { stages: fa }, pa);
            lemma_run_len(Chain { stages: fb }, pb);
            let la = leads(a, xs, cs, k);
            let lb = leads(b, ys, ds, k);
            assert forall|t: int| s + arrays_reach(a) <= t < la.len() implies #[trigger] la[t]
                == lb[t] by {
                assert(run(Chain { stages: fa }, pa).1[t] == run(Chain { stages: fb }, pb).1[t]);
            }
        } else {
            lemma_leads_settle(a, b, xs, cs, ys, ds, s, k - 2);
        }
    }
}

/// A WaveNet forgets its history within its receptive field.
proof fn lemma_wavenet_warmup<N>(a: WaveNetModel<N>, b: WaveNetModel<N>, xs: Seq<Expr<N>>)
    requires
        a.fresh() == b.fresh(),
        primed_wavenet(a),
        primed_wavenet(b),
        feedforward(EngineModel::WaveNet(a)),
    ensures
        agree_from(run(a, xs).1, run(b, xs).1, (a.receptive_field() - 1) as nat),
    decreases a, 0nat,
{
    assert(a.fresh().arrays.len() == a.arrays.len());
    assert(b.fresh().arrays.len() == b.arrays.len());
    assert(a.fresh().head_scale == b.fresh().head_scale);
    lemma_run_len(a, xs);
    lemma_run_len(b, xs);
    if a.arrays.len() == 0 {
        lemma_wavenet_run_empty(a, xs);
        lemma_wavenet_run_empty(b, xs);
    } else {
        let n = xs.len();
        assert forall|i: int| 0 <= i < a.arrays.len() implies (#[trigger] a.arrays[i]).fresh()
            == b.arrays[i].fresh() && primed_array(a.arrays[i]) && primed_array(b.arrays[i]) by {
            assert(a.fresh().arrays[i] == a.arrays[i].fresh());
            assert(b.fresh().arrays[i] == b.arrays[i].fresh());
        }
        lemma_arrays_settle(a.arrays, b.arrays);
        lemma_wavenet_run(a, xs);
        lemma_wavenet_run(b, xs);
        let ca = conditioning(a, xs);
        let cb = conditioning(b, xs);
        let base: nat = match a.condition {
            Some(e) => (e.receptive_field() - 1) as nat,
            None => 0,
        };
        assert(agree_from(ca, cb, base)) by {
            match (a.condition, b.condition) {
                (Some(e), Some(f)) => {
                    lemma_warmup(*e, *f, xs);
                    lemma_engine_fresh(*e);
                    lemma_engine_fresh(*f);
                    assert forall|t: int| base <= t < n implies #[trigger] ca[t] == cb[t] by {
                        assert(run(*e, xs).1[t] == run(*f, xs).1[t]);
                    }
                },
                _ => {},
            }
        }
        let pa = paired(seeds(a, xs), ca);
        let pb = paired(seeds(b, xs), cb);
        assert(agree_from(pa, pb, base)) by {
            assert forall|t: int| base <= t < n implies #[trigger] pa[t] == pb[t] by {
                assert(ca[t] == cb[t]);
                assert(a.arrays[0].fresh() == b.arrays[0].fresh());
                assert(a.arrays[0].head_rechannel.fresh() == b.arrays[0].head_rechannel.fresh());
                assert(a.arrays[0].head_rechannel.fresh().in_ch == a.arrays[0].head_in());
                assert(b.arrays[0].head_rechannel.fresh().in_ch == b.arrays[0].head_in());
                assert(a.seed(xs[t]) == b.seed(xs[t]));
            }
        }
        let r = arrays_reach(a.arrays);
        let sa = run(Chain { stages: a.arrays }, pa).1;
        let sb = run(Chain { stages: b.arrays }, pb).1;
        lemma_settled(Chain { stages: a.arrays }, Chain { stages: b.arrays }, r, pa, pb, base);
        let la = scaled_heads(a.head_scale, sa);
        let lb = scaled_heads(b.head_scale, sb);
        assert(agree_from(la, lb, base + r)) by {
            assert forall|t: int| base + r <= t < n implies #[trigger] la[t] == lb[t] by {
                assert(sa[t] == sb[t]);
            }
        }
        match (a.head, b.head) {
            (Some(g), Some(h)) => {
                lemma_head_settles(g, h);
                lemma_settled(g, h, stages_reach(g.stages), la, lb, base + r);
            },
            _ => {
                let k = a.arrays.len() as int;
                lemma_leads_settle(a.arrays, b.arrays, seeds(a, xs), ca, seeds(b, xs), cb, base, k);
                lemma_wavenet_fresh(a);
                lemma_wavenet_fresh(b);
                let na = leads(a.arrays, seeds(a, xs), ca, k);
                let nb = leads(b.arrays, seeds(b, xs), cb, k);
                assert forall|t: int| base + r <= t < n implies #[trigger] run(a, xs).1[t] == run(
                    b,
                    xs,
                ).1[t] by {
                    assert(sa[t] == sb[t]);
                    assert(na[t] == nb[t]);
                }
            },
        }
        if a.condition is Some {
            lemma_field_positive(*a.condition->Some_0);
        }
    }
}

/// Warmup: a model in which no LSTM runs forgets its history within its receptive
/// field. Whatever two such models remember, if they differ in nothing else, their
/// outputs agree from their `receptive_field()`-th sample on.
pub proof fn lemma_warmup<N>(a: EngineModel<N>, b: EngineModel<N>, xs: Seq<Expr<N>>)
    requires
        a.fresh() == b.fresh(),
        primed(a),
        primed(b),
        feedforward(a),
    ensures
        agree_from(run(a, xs).1, run(b, xs).1, (a.receptive_field() - 1) as nat),
    decreases a, 1nat,
{
    match (a, b) {
        (EngineModel::WaveNet(w), EngineModel::WaveNet(v)) => {
            lemma_wavenet_warmup(w, v, xs);
            lemma_engine_run_wavenet(w, xs);
            lemma_engine_run_wavenet(v, xs);
        },
        (EngineModel::Slimmable(s), EngineModel::Slimmable(r)) => {
            let fa = a.fresh()->Slimmable_0;
            let fb = b.fresh()->Slimmable_0;
            let i = s.active as int;
            assert(fa.submodels.len() == s.submodels.len());
            assert(fb.submodels.len() == r.submodels.len());
            assert(fa.submodels[i] == s.submodels[i].fresh());
            assert(fb.submodels[i] == r.submodels[i].fresh());
            lemma_warmup(s.submodels[i], r.submodels[i], xs);
            lemma_engine_run_slimmable(s, xs);
            lemma_engine_run_slimmable(r, xs);
        },
        _ => {},
    }
}

/// Whatever two models built from one file were fed, their outputs on a further stream
/// agree from their `receptive_field()`-th sample on, if no LSTM runs in them.
pub proof fn lemma_warmup_built<N>(
    m: NamShape,
    fed: Seq<Expr<N>>,
    other: Seq<Expr<N>>,
    xs: Seq<Expr<N>>,
)
    requires
        engine_failure(m) is None,
        feedforward(engine_of::<N>(m)),
    ensures
        agree_from(
            run(run(engine_of::<N>(m), fed).0, xs).1,
            run(run(engine_of::<N>(m), other).0, xs).1,
            (engine_of::<N>(m).receptive_field() - 1) as nat,
        ),
{
    let e = engine_of::<N>(m);
    let a = run(e, fed).0;
    let b = run(e, other).0;
    lemma_built::<N>(m);
    lemma_primed_fresh(e);
    lemma_primed_run(e, fed);
    lemma_primed_run(e, other);
    lemma_engine_kept(e, fed);
    lemma_engine_kept(e, other);
    lemma_engine_field_fresh(a, e);
    lemma_feedforward_fresh(e, a);
    lemma_warmup(a, b, xs);
}

/// Whether an LSTM runs in a model does not depend on what the model remembers.
proof fn lemma_feedforward_fresh<N>(a: EngineModel<N>, b: EngineModel<N>)
    requires
        a.fresh() == b.fresh(),
        feedforward(a),
    ensures
        feedforward(b),
    decreases a,
{
    match (a, b) {
        (EngineModel::WaveNet(w), EngineModel::WaveNet(v)) => {
            assert(a.fresh() == EngineModel::WaveNet(w.fresh()));
            assert(b.fresh() == EngineModel::WaveNet(v.fresh()));
            match (w.condition, v.condition) {
                (Some(e), Some(f)) => {
                    assert(w.fresh().condition == Some(Box::new(e.fresh())));
                    assert(v.fresh().condition == Some(Box::new(f.fresh())));
                    lemma_feedforward_fresh(*e, *f);
                },
                _ => {},
            }
        },
        (EngineModel::Slimmable(s), EngineModel::Slimmable(r)) => {
            let fa = a.fresh()->Slimmable_0;
            let fb = b.fresh()->Slimmable_0;
            let i = s.active as int;
            assert(fa.submodels.len() == s.submodels.len());
            assert(fb.submodels.len() == r.submodels.len());
            assert(fa.submodels[i] == s.submodels[i].fresh());
            assert(fb.submodels[i] == r.submodels[i].fresh());
            lemma_feedforward_fresh(s.submodels[i], r.submodels[i]);
        },
        _ => {},
    }
}

} // verus!
