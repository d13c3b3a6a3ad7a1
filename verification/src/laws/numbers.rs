//! What holds of the numbers that come out, under every arithmetic whose operations are
//! functions of their operands: there an expression evaluates to one number only, so
//! outputs described by the same expressions are the same numbers, bit for bit.

use vstd::prelude::*;
use crate::arith::{evaluates, exprs, functional, lemma_evaluates_once, Arith, Expr, Scalar};
use crate::engine::{
    lemma_engine_fresh, lemma_engine_kept, lemma_engine_run_lstm, lemma_engine_run_slimmable,
    lemma_engine_run_wavenet, lemma_wavenet_field_fresh, EngineModel, SlimModel, WaveNetModel,
};
use crate::json::JsonNumber;
use crate::laws::{feedforward, lemma_built, lemma_field_positive, lemma_warmup_built};
use crate::loading::{
    engine_failure, engine_of, field_of, rows_of, submodels_failure, wavenet_failure,
    wavenet_field, wavenet_of,
};
use crate::lstm::LstmModel;
use crate::model::{ConfigShape, NamShape, SubmodelShape, WaveNetShape};
use crate::signal::{columns, inputs, lemma_run_at, lemma_run_concat, lemma_run_len, run, Machine};
use crate::wavenet::conv::ConvModel;

verus! {

/// Whether `out` can be the numbers in row `row` of the outputs that `m` gives when fed
/// `xs`. What `process_buffer` leaves in a buffer is so related to what stood there, in
/// row zero.
pub open spec fn sounds<A: Arith, I, M: Machine<I, Seq<Expr<A::Num>>>>(
    m: M,
    xs: Seq<I>,
    row: int,
    out: Seq<A::Num>,
) -> bool {
    &&& out.len() == xs.len()
    &&& forall|t: int|
        0 <= t < xs.len() ==> evaluates::<A>(run(m, xs).1[t][row], #[trigger] out[t])
}

/// The state that single steps over `xs` lead to.
pub open spec fn stepped<I, O, M: Machine<I, O>>(m: M, xs: Seq<I>) -> M
    decreases xs.len(),
{
    if xs.len() == 0 {
        m
    } else {
        stepped::<I, O, M>(m, xs.drop_last()).step(xs.last()).0
    }
}

/// Whether `out` can be the numbers in row `row` of what single steps over `xs` answer.
/// What a `process_sample` for each input returns is so related to them.
pub open spec fn sounds_stepwise<A: Arith, I, M: Machine<I, Seq<Expr<A::Num>>>>(
    m: M,
    xs: Seq<I>,
    row: int,
    out: Seq<A::Num>,
) -> bool {
    &&& out.len() == xs.len()
    &&& forall|t: int|
        0 <= t < xs.len() ==> evaluates::<A>(
            stepped(m, xs.take(t)).step(xs[t]).1[row],
            #[trigger] out[t],
        )
}

/// Pieces of a stream, put together.
pub open spec fn joined<T>(pieces: Seq<Seq<T>>) -> Seq<T>
    decreases pieces.len(),
{
    if pieces.len() == 0 {
        Seq::empty()
    } else {
        joined(pieces.drop_last()) + pieces.last()
    }
}

/// The state that runs over the pieces, one after another, lead to.
pub open spec fn fed<I, O, M: Machine<I, O>>(m: M, pieces: Seq<Seq<I>>) -> M
    decreases pieces.len(),
{
    if pieces.len() == 0 {
        m
    } else {
        run::<I, O, M>(fed::<I, O, M>(m, pieces.drop_last()), pieces.last()).0
    }
}

/// Whether `outs` can be the numbers in row `row` that come out piece by piece.
pub open spec fn sounds_piecewise<A: Arith, I, M: Machine<I, Seq<Expr<A::Num>>>>(
    m: M,
    pieces: Seq<Seq<I>>,
    row: int,
    outs: Seq<Seq<A::Num>>,
) -> bool {
    &&& outs.len() == pieces.len()
    &&& forall|k: int|
        0 <= k < pieces.len() ==> sounds::<A, I, M>(
            fed(m, pieces.take(k)),
            pieces[k],
            row,
            #[trigger] outs[k],
        )
}

/// Buffers of samples, as inputs.
pub open spec fn buffers<N>(blocks: Seq<Seq<N>>) -> Seq<Seq<Expr<N>>> {
    Seq::new(blocks.len(), |k: int| inputs(blocks[k]))
}

// ---- Any machine ----

/// From one state, the same input gives the same numbers.
pub proof fn lemma_sounds_once<A: Arith, I, M: Machine<I, Seq<Expr<A::Num>>>>(
    m: M,
    xs: Seq<I>,
    row: int,
    out: Seq<A::Num>,
    other: Seq<A::Num>,
)
    requires
        functional::<A>(),
        sounds::<A, I, M>(m, xs, row, out),
        sounds::<A, I, M>(m, xs, row, other),
    ensures
        out == other,
{
    assert forall|t: int| 0 <= t < xs.len() implies out[t] == other[t] by {
        lemma_evaluates_once::<A>(run(m, xs).1[t][row], out[t], other[t]);
    }
    assert(out =~= other);
}

/// Stepping over a stream leads where running over it does.
proof fn lemma_stepped<I, O, M: Machine<I, O>>(m: M, xs: Seq<I>)
    ensures
        stepped::<I, O, M>(m, xs) == run::<I, O, M>(m, xs).0,
    decreases xs.len(),
{
    if xs.len() > 0 {
        lemma_stepped::<I, O, M>(m, xs.drop_last());
    }
}

/// A block gives the numbers, and leaves the state, that its inputs do one by one.
pub proof fn lemma_block_is_samples<A: Arith, I, M: Machine<I, Seq<Expr<A::Num>>>>(
    m: M,
    xs: Seq<I>,
    row: int,
    block: Seq<A::Num>,
    samples: Seq<A::Num>,
)
    requires
        functional::<A>(),
        sounds::<A, I, M>(m, xs, row, block),
        sounds_stepwise::<A, I, M>(m, xs, row, samples),
    ensures
        block == samples,
        run(m, xs).0 == stepped(m, xs),
{
    lemma_stepped(m, xs);
    assert forall|t: int| 0 <= t < xs.len() implies block[t] == samples[t] by {
        lemma_run_at(m, xs, t);
        lemma_stepped(m, xs.take(t));
        lemma_evaluates_once::<A>(run(m, xs).1[t][row], block[t], samples[t]);
    }
    assert(block =~= samples);
}

/// What comes out piece by piece can come out of the whole.
proof fn lemma_joined_sounds<A: Arith, I, M: Machine<I, Seq<Expr<A::Num>>>>(
    m: M,
    pieces: Seq<Seq<I>>,
    row: int,
    outs: Seq<Seq<A::Num>>,
)
    requires
        sounds_piecewise::<A, I, M>(m, pieces, row, outs),
    ensures
        sounds::<A, I, M>(m, joined(pieces), row, joined(outs)),
        run(m, joined(pieces)).0 == fed(m, pieces),
    decreases pieces.len(),
{
    if pieces.len() > 0 {
        let n = pieces.len() - 1;
        let front = pieces.drop_last();
        let xs = joined(front);
        let ys = pieces.last();
        assert forall|k: int| 0 <= k < front.len() implies sounds::<A, I, M>(
            fed(m, front.take(k)),
            front[k],
            row,
            #[trigger] outs.drop_last()[k],
        ) by {
            assert(front.take(k) =~= pieces.take(k));
            assert(outs.drop_last()[k] == outs[k]);
        }
        lemma_joined_sounds::<A, I, M>(m, front, row, outs.drop_last());
        assert(pieces.take(n) =~= front);
        assert(sounds::<A, I, M>(fed(m, front), ys, row, outs[n]));
        lemma_run_concat(m, xs, ys);
        lemma_run_len(m, xs);
        lemma_run_len(fed(m, front), ys);
        let a = joined(outs.drop_last());
        let b = outs.last();
        assert(joined(outs) == a + b);
        assert forall|t: int| 0 <= t < (xs + ys).len() implies evaluates::<A>(
            run(m, xs + ys).1[t][row],
            #[trigger] (a + b)[t],
        ) by {
            if t < xs.len() {
                assert((a + b)[t] == a[t]);
                assert(run(m, xs + ys).1[t] == run(m, xs).1[t]);
            } else {
                let u = t - xs.len();
                assert((a + b)[t] == b[u]);
                assert(run(m, xs + ys).1[t] == run(run(m, xs).0, ys).1[u]);
                assert(evaluates::<A>(run(fed(m, front), ys).1[u][row], b[u]));
            }
        }
    }
}

/// However a stream is cut into pieces, the numbers that come out, put together, are
/// those of the whole stream, and the state reached is the same.
pub proof fn lemma_any_pieces<A: Arith, I, M: Machine<I, Seq<Expr<A::Num>>>>(
    m: M,
    pieces: Seq<Seq<I>>,
    row: int,
    outs: Seq<Seq<A::Num>>,
    whole: Seq<A::Num>,
)
    requires
        functional::<A>(),
        sounds_piecewise::<A, I, M>(m, pieces, row, outs),
        sounds::<A, I, M>(m, joined(pieces), row, whole),
    ensures
        joined(outs) == whole,
        fed(m, pieces) == run(m, joined(pieces)).0,
{
    lemma_joined_sounds::<A, I, M>(m, pieces, row, outs);
    lemma_sounds_once::<A, I, M>(m, joined(pieces), row, joined(outs), whole);
}

// ---- Buffers ----

/// `Model::process_buffer` leaves at every time what `process_sample` returns there, and
/// both leave the model in the same state.
pub proof fn lemma_model_samples<A: Arith>(
    m: EngineModel<A::Num>,
    io: Seq<A::Num>,
    block: Seq<A::Num>,
    samples: Seq<A::Num>,
)
    requires
        functional::<A>(),
        sounds::<A, Expr<A::Num>, EngineModel<A::Num>>(m, inputs(io), 0, block),
        sounds_stepwise::<A, Expr<A::Num>, EngineModel<A::Num>>(m, inputs(io), 0, samples),
    ensures
        block == samples,
        run(m, inputs(io)).0 == stepped(m, inputs(io)),
{
    lemma_block_is_samples::<A, Expr<A::Num>, EngineModel<A::Num>>(m, inputs(io), 0, block, samples);
}

/// `WaveNet::process_buffer` leaves at every time what `process_sample` returns there,
/// and both leave the network in the same state.
pub proof fn lemma_wavenet_samples<A: Arith>(
    m: WaveNetModel<A::Num>,
    io: Seq<A::Num>,
    block: Seq<A::Num>,
    samples: Seq<A::Num>,
)
    requires
        functional::<A>(),
        sounds::<A, Expr<A::Num>, WaveNetModel<A::Num>>(m, inputs(io), 0, block),
        sounds_stepwise::<A, Expr<A::Num>, WaveNetModel<A::Num>>(m, inputs(io), 0, samples),
    ensures
        block == samples,
        run(m, inputs(io)).0 == stepped(m, inputs(io)),
{
    lemma_block_is_samples::<A, Expr<A::Num>, WaveNetModel<A::Num>>(
        m,
        inputs(io),
        0,
        block,
        samples,
    );
}

/// `Lstm::process_buffer` leaves at every time what `process_sample` returns there, and
/// both leave the network in the same state. Its outputs are single samples.
pub proof fn lemma_lstm_samples<A: Arith>(
    l: LstmModel<A::Num>,
    io: Seq<A::Num>,
    block: Seq<A::Num>,
    samples: Seq<A::Num>,
)
    requires
        functional::<A>(),
        block.len() == io.len(),
        samples.len() == io.len(),
        forall|t: int|
            0 <= t < io.len() ==> evaluates::<A>(run(l, inputs(io)).1[t], #[trigger] block[t]),
        forall|t: int|
            0 <= t < io.len() ==> evaluates::<A>(
                stepped(l, inputs(io).take(t)).step(Expr::Input(io[t])).1,
                #[trigger] samples[t],
            ),
    ensures
        block == samples,
        run(l, inputs(io)).0 == stepped(l, inputs(io)),
{
    let xs = inputs(io);
    lemma_stepped(l, xs);
    assert forall|t: int| 0 <= t < io.len() implies block[t] == samples[t] by {
        lemma_run_at(l, xs, t);
        lemma_stepped(l, xs.take(t));
        lemma_evaluates_once::<A>(run(l, xs).1[t], block[t], samples[t]);
    }
    assert(block =~= samples);
}

/// Buffers put together are inputs put together.
proof fn lemma_buffers_joined<N>(blocks: Seq<Seq<N>>)
    ensures
        joined(buffers(blocks)) == inputs(joined(blocks)),
    decreases blocks.len(),
{
    if blocks.len() == 0 {
        assert(joined(buffers(blocks)) =~= inputs(joined(blocks)));
    } else {
        lemma_buffers_joined(blocks.drop_last());
        assert(buffers(blocks).drop_last() =~= buffers(blocks.drop_last()));
        assert(joined(buffers(blocks)) =~= inputs(joined(blocks)));
    }
}

/// Calls of `Model::process_buffer` on blocks of any sizes give what one call on all of
/// them at once gives, and leave the model in the same state.
pub proof fn lemma_model_blocks<A: Arith>(
    m: EngineModel<A::Num>,
    blocks: Seq<Seq<A::Num>>,
    outs: Seq<Seq<A::Num>>,
    whole: Seq<A::Num>,
)
    requires
        functional::<A>(),
        sounds_piecewise::<A, Expr<A::Num>, EngineModel<A::Num>>(m, buffers(blocks), 0, outs),
        sounds::<A, Expr<A::Num>, EngineModel<A::Num>>(m, inputs(joined(blocks)), 0, whole),
    ensures
        joined(outs) == whole,
        fed(m, buffers(blocks)) == run(m, inputs(joined(blocks))).0,
{
    lemma_buffers_joined(blocks);
    lemma_any_pieces::<A, Expr<A::Num>, EngineModel<A::Num>>(m, buffers(blocks), 0, outs, whole);
}

// ---- Convolutions ----

/// `Conv1d::process_block` gives in each row and at every time what `process_sample` on
/// the column gives there, whatever the block size, and both leave the convolution in
/// the same state.
pub proof fn lemma_conv_samples<A: Arith>(
    m: ConvModel<A::Num>,
    block_in: Seq<Scalar<A>>,
    n: nat,
    row: int,
    block: Seq<A::Num>,
    samples: Seq<A::Num>,
)
    requires
        functional::<A>(),
        0 <= row < m.out_ch,
        sounds::<A, Seq<Expr<A::Num>>, ConvModel<A::Num>>(
            m,
            columns(exprs(block_in), m.in_ch, n),
            row,
            block,
        ),
        sounds_stepwise::<A, Seq<Expr<A::Num>>, ConvModel<A::Num>>(
            m,
            columns(exprs(block_in), m.in_ch, n),
            row,
            samples,
        ),
    ensures
        block == samples,
        run(m, columns(exprs(block_in), m.in_ch, n)).0 == stepped(
            m,
            columns(exprs(block_in), m.in_ch, n),
        ),
        n == 0 ==> run(m, columns(exprs(block_in), m.in_ch, n)).0 == m,
{
    lemma_block_is_samples::<A, Seq<Expr<A::Num>>, ConvModel<A::Num>>(
        m,
        columns(exprs(block_in), m.in_ch, n),
        row,
        block,
        samples,
    );
}

// ---- Networks as models ----

/// A WaveNet gives the same numbers alone and as a model.
pub proof fn lemma_wavenet_as_model<A: Arith>(
    w: WaveNetModel<A::Num>,
    io: Seq<A::Num>,
    out: Seq<A::Num>,
)
    ensures
        sounds::<A, Expr<A::Num>, WaveNetModel<A::Num>>(w, inputs(io), 0, out) == sounds::<
            A,
            Expr<A::Num>,
            EngineModel<A::Num>,
        >(EngineModel::WaveNet(w), inputs(io), 0, out),
        run(EngineModel::WaveNet(w), inputs(io)).0 == EngineModel::WaveNet(
            run(w, inputs(io)).0,
        ),
{
    lemma_engine_run_wavenet(w, inputs(io));
}

/// An LSTM, whose outputs are single samples, gives the same numbers alone and as a
/// model.
pub proof fn lemma_lstm_as_model<A: Arith>(
    l: LstmModel<A::Num>,
    io: Seq<A::Num>,
    out: Seq<A::Num>,
)
    ensures
        (out.len() == io.len() && forall|t: int|
            0 <= t < io.len() ==> evaluates::<A>(run(l, inputs(io)).1[t], #[trigger] out[t]))
            == sounds::<A, Expr<A::Num>, EngineModel<A::Num>>(
            EngineModel::Lstm(l),
            inputs(io),
            0,
            out,
        ),
        run(EngineModel::Lstm(l), inputs(io)).0 == EngineModel::Lstm(run(l, inputs(io)).0),
{
    lemma_engine_run_lstm(l, inputs(io));
    assert forall|t: int| 0 <= t < io.len() implies #[trigger] run(
        EngineModel::Lstm(l),
        inputs(io),
    ).1[t][0] == run(l, inputs(io)).1[t] by {}
}

// ---- Containers ----

/// A container gives the numbers that its active submodel gives alone. The selection
/// and the other submodels stay as they are, and the active one ends where it would
/// have ended alone.
pub proof fn lemma_container_sounds<A: Arith>(
    s: SlimModel<A::Num>,
    io: Seq<A::Num>,
    out: Seq<A::Num>,
    alone: Seq<A::Num>,
)
    requires
        functional::<A>(),
        s.active < s.submodels.len(),
        sounds::<A, Expr<A::Num>, EngineModel<A::Num>>(
            EngineModel::Slimmable(s),
            inputs(io),
            0,
            out,
        ),
        sounds::<A, Expr<A::Num>, EngineModel<A::Num>>(
            s.submodels[s.active as int],
            inputs(io),
            0,
            alone,
        ),
    ensures
        out == alone,
        run(EngineModel::Slimmable(s), inputs(io)).0 == EngineModel::Slimmable(
            SlimModel {
                submodels: s.submodels.update(
                    s.active as int,
                    run(s.submodels[s.active as int], inputs(io)).0,
                ),
                ..s
            },
        ),
{
    lemma_engine_run_slimmable(s, inputs(io));
    assert(sounds::<A, Expr<A::Num>, EngineModel<A::Num>>(
        s.submodels[s.active as int],
        inputs(io),
        0,
        out,
    ));
    lemma_sounds_once::<A, Expr<A::Num>, EngineModel<A::Num>>(
        s.submodels[s.active as int],
        inputs(io),
        0,
        out,
        alone,
    );
}

// ---- Warmup ----

/// Two models built from one file, in which no LSTM runs, give the same numbers on the
/// same input from its `receptive_field()`-th sample on, whatever each was fed before.
pub proof fn lemma_warmup_sounds<A: Arith>(
    m: NamShape,
    before: Seq<A::Num>,
    other: Seq<A::Num>,
    io: Seq<A::Num>,
    out: Seq<A::Num>,
    other_out: Seq<A::Num>,
)
    requires
        functional::<A>(),
        engine_failure(m) is None,
        feedforward(engine_of::<A::Num>(m)),
        sounds::<A, Expr<A::Num>, EngineModel<A::Num>>(
            run(engine_of::<A::Num>(m), inputs(before)).0,
            inputs(io),
            0,
            out,
        ),
        sounds::<A, Expr<A::Num>, EngineModel<A::Num>>(
            run(engine_of::<A::Num>(m), inputs(other)).0,
            inputs(io),
            0,
            other_out,
        ),
    ensures
        forall|t: int|
            engine_of::<A::Num>(m).receptive_field() - 1 <= t < io.len() ==> #[trigger] out[t]
                == other_out[t],
{
    let e = engine_of::<A::Num>(m);
    let a = run(e, inputs(before)).0;
    let b = run(e, inputs(other)).0;
    let xs = inputs(io);
    lemma_warmup_built::<A::Num>(m, inputs(before), inputs(other), xs);
    assert forall|t: int| e.receptive_field() - 1 <= t < io.len() implies #[trigger] out[t]
        == other_out[t] by {
        lemma_field_positive(e);
        lemma_run_len(a, xs);
        assert(run(a, xs).1[t] == run(b, xs).1[t]);
        lemma_evaluates_once::<A>(run(a, xs).1[t][0], out[t], other_out[t]);
    }
}

/// Two WaveNets built from one file without a nested model give the same numbers on the
/// same input from its `receptive_field()`-th sample on, whatever each was fed before.
pub proof fn lemma_wavenet_warmup_sounds<A: Arith>(
    m: NamShape,
    before: Seq<A::Num>,
    other: Seq<A::Num>,
    io: Seq<A::Num>,
    out: Seq<A::Num>,
    other_out: Seq<A::Num>,
)
    requires
        functional::<A>(),
        engine_failure(m) is None,
        m.config is WaveNet,
        m.config->WaveNet_0.condition_dsp is None,
        sounds::<A, Expr<A::Num>, WaveNetModel<A::Num>>(
            run(wavenet_of::<A::Num>(m.config->WaveNet_0, m.weights), inputs(before)).0,
            inputs(io),
            0,
            out,
        ),
        sounds::<A, Expr<A::Num>, WaveNetModel<A::Num>>(
            run(wavenet_of::<A::Num>(m.config->WaveNet_0, m.weights), inputs(other)).0,
            inputs(io),
            0,
            other_out,
        ),
    ensures
        forall|t: int|
            wavenet_of::<A::Num>(m.config->WaveNet_0, m.weights).receptive_field() - 1 <= t
                < io.len() ==> #[trigger] out[t] == other_out[t],
{
    let w = wavenet_of::<A::Num>(m.config->WaveNet_0, m.weights);
    let e = engine_of::<A::Num>(m);
    assert(e == EngineModel::WaveNet(w));
    assert(w.condition is None);
    lemma_wavenet_as_model::<A>(w, before, out);
    lemma_wavenet_as_model::<A>(w, other, out);
    lemma_wavenet_as_model::<A>(run(w, inputs(before)).0, io, out);
    lemma_wavenet_as_model::<A>(run(w, inputs(other)).0, io, other_out);
    lemma_warmup_sounds::<A>(m, before, other, io, out, other_out);
    assert(e.receptive_field() == w.receptive_field());
}

// ---- Reset ----

/// Something that is done to a model.
pub enum Action<N> {
    /// Feed it a stream, by `process_buffer` or `process_sample`.
    Feed(Seq<Expr<N>>),
    /// Make another submodel of a container the active one, by `select` or
    /// `set_slim_size`.
    Activate(nat),
    /// Reset it.
    Restart,
}

/// A model with another submodel active; one that is no container, or has no such
/// submodel, stays as it is.
pub open spec fn activated<N>(m: EngineModel<N>, index: nat) -> EngineModel<N> {
    match m {
        EngineModel::Slimmable(s) if index < s.submodels.len() => EngineModel::Slimmable(
            SlimModel { active: index, ..s },
        ),
        _ => m,
    }
}

/// Which submodel of a container is active.
pub open spec fn selection<N>(m: EngineModel<N>) -> Option<nat> {
    match m {
        EngineModel::Slimmable(s) => Some(s.active),
        _ => None,
    }
}

/// The model after something was done to it.
pub open spec fn acted<N>(m: EngineModel<N>, action: Action<N>) -> EngineModel<N> {
    match action {
        Action::Feed(xs) => run(m, xs).0,
        Action::Activate(index) => activated(m, index),
        Action::Restart => m.fresh(),
    }
}

/// The model after a number of things were done to it.
pub open spec fn driven<N>(m: EngineModel<N>, actions: Seq<Action<N>>) -> EngineModel<N>
    decreases actions.len(),
{
    if actions.len() == 0 {
        m
    } else {
        acted(driven(m, actions.drop_last()), actions.last())
    }
}

/// Which submodel is active has no part in what resetting does to the submodels.
proof fn lemma_activated_fresh<N>(m: EngineModel<N>, index: nat)
    ensures
        activated(m, index).fresh() == activated(m.fresh(), index),
{
    match m {
        EngineModel::Slimmable(s) => {
            let f = m.fresh()->Slimmable_0;
            assert(f.submodels.len() == s.submodels.len());
            if index < s.submodels.len() {
                let g = activated(m, index).fresh()->Slimmable_0;
                assert(g.submodels =~= f.submodels);
                assert(g =~= activated(m.fresh(), index)->Slimmable_0);
            }
        },
        _ => {},
    }
}

/// Activating a submodel last decides alone which one is active.
proof fn lemma_activated_last<N>(m: EngineModel<N>, index: nat, next: nat)
    requires
        m matches EngineModel::Slimmable(s) ==> next < s.submodels.len(),
    ensures
        activated(activated(m, index), next) == activated(m, next),
{
}

/// Whatever is done to a model, resetting it then brings every submodel back.
proof fn lemma_driven_fresh<N>(m: EngineModel<N>, actions: Seq<Action<N>>, index: nat)
    requires
        m matches EngineModel::Slimmable(s) ==> index < s.submodels.len(),
    ensures
        activated(driven(m, actions).fresh(), index) == activated(m.fresh(), index),
        driven(m, actions) matches EngineModel::Slimmable(d) ==> m is Slimmable
            && d.submodels.len() == m->Slimmable_0.submodels.len(),
        m is Slimmable ==> driven(m, actions) is Slimmable,
    decreases actions.len(),
{
    if actions.len() > 0 {
        let d = driven(m, actions.drop_last());
        lemma_driven_fresh(m, actions.drop_last(), index);
        match actions.last() {
            Action::Feed(xs) => {
                lemma_engine_kept(d, xs);
                let after = run(d, xs).0;
                assert(after.fresh() == d.fresh());
                lemma_alike(after, d);
            },
            Action::Activate(other) => {
                lemma_activated_fresh(d, other);
                lemma_alike(d.fresh(), d);
                lemma_activated_last(d.fresh(), other, index);
            },
            Action::Restart => {
                lemma_engine_fresh(d);
                lemma_alike(d.fresh(), d);
            },
        }
    }
}

/// Models that differ only in what they remember are of one kind, and containers of as
/// many submodels.
proof fn lemma_alike<N>(a: EngineModel<N>, b: EngineModel<N>)
    requires
        a.fresh() == b.fresh() || a == b.fresh(),
    ensures
        a is Slimmable == b is Slimmable,
        a is Slimmable ==> a->Slimmable_0.submodels.len() == b->Slimmable_0.submodels.len(),
{
    assert(a is Slimmable ==> a.fresh()->Slimmable_0.submodels.len()
        == a->Slimmable_0.submodels.len());
    assert(b is Slimmable ==> b.fresh()->Slimmable_0.submodels.len()
        == b->Slimmable_0.submodels.len());
}

/// Whatever a model was fed, and whichever submodels were activated in between, after a
/// reset every submodel is the one that was built, and the one that was active still
/// is. A model that is no container is the one that was built.
pub proof fn lemma_reset_rebuilds<N>(m: NamShape, actions: Seq<Action<N>>)
    requires
        engine_failure(m) is None,
    ensures
        forall|index: nat|
            (engine_of::<N>(m) matches EngineModel::Slimmable(s) ==> index < s.submodels.len())
                ==> #[trigger] activated(driven(engine_of::<N>(m), actions).fresh(), index)
                == activated(engine_of::<N>(m), index),
        driven(engine_of::<N>(m), actions).fresh() matches EngineModel::Slimmable(d) ==> {
            &&& engine_of::<N>(m) is Slimmable
            &&& d.submodels == engine_of::<N>(m)->Slimmable_0.submodels
            &&& d.max_values == engine_of::<N>(m)->Slimmable_0.max_values
        },
        engine_of::<N>(m) !is Slimmable ==> driven(engine_of::<N>(m), actions).fresh()
            == engine_of::<N>(m),
        selection(driven(engine_of::<N>(m), actions).fresh()) == selection(
            driven(engine_of::<N>(m), actions),
        ),
        driven(engine_of::<N>(m), actions).fresh().fresh() == driven(
            engine_of::<N>(m),
            actions,
        ).fresh(),
{
    let e = engine_of::<N>(m);
    let d = driven(e, actions);
    lemma_built::<N>(m);
    lemma_engine_fresh(d);
    assert forall|index: nat|
        (e matches EngineModel::Slimmable(s) ==> index < s.submodels.len()) implies #[trigger]
        activated(d.fresh(), index) == activated(e, index) by {
        lemma_driven_fresh(e, actions, index);
    }
    match e {
        EngineModel::Slimmable(s) => {
            assert(s.submodels.len() > 0);
            lemma_driven_fresh(e, actions, 0);
            lemma_alike(d.fresh(), d);
            assert(activated(d.fresh(), 0) == activated(e, 0));
        },
        _ => {
            lemma_driven_fresh(e, actions, 0);
            lemma_alike(d.fresh(), d);
            assert(activated(d.fresh(), 0) == activated(e, 0));
        },
    }
}

/// A model that was reset after any use gives, with any submodel active, the numbers of
/// one that was just built, with the same one active.
pub proof fn lemma_reset_sounds<A: Arith>(
    m: NamShape,
    actions: Seq<Action<A::Num>>,
    index: nat,
    io: Seq<A::Num>,
    out: Seq<A::Num>,
    built: Seq<A::Num>,
)
    requires
        functional::<A>(),
        engine_failure(m) is None,
        engine_of::<A::Num>(m) matches EngineModel::Slimmable(s) ==> index < s.submodels.len(),
        sounds::<A, Expr<A::Num>, EngineModel<A::Num>>(
            activated(driven(engine_of::<A::Num>(m), actions).fresh(), index),
            inputs(io),
            0,
            out,
        ),
        sounds::<A, Expr<A::Num>, EngineModel<A::Num>>(
            activated(engine_of::<A::Num>(m), index),
            inputs(io),
            0,
            built,
        ),
    ensures
        out == built,
{
    lemma_reset_rebuilds::<A::Num>(m, actions);
    lemma_sounds_once::<A, Expr<A::Num>, EngineModel<A::Num>>(
        activated(engine_of::<A::Num>(m), index),
        inputs(io),
        0,
        out,
        built,
    );
}

/// A WaveNet that was reset after any stream is the one that was built: it gives the
/// same numbers, and has the same receptive field. A second reset changes nothing.
pub proof fn lemma_wavenet_reset_sounds<A: Arith>(
    m: NamShape,
    before: Seq<A::Num>,
    io: Seq<A::Num>,
    out: Seq<A::Num>,
    built: Seq<A::Num>,
)
    requires
        functional::<A>(),
        engine_failure(m) is None,
        m.config is WaveNet,
        sounds::<A, Expr<A::Num>, WaveNetModel<A::Num>>(
            run(wavenet_of::<A::Num>(m.config->WaveNet_0, m.weights), inputs(before)).0.fresh(),
            inputs(io),
            0,
            out,
        ),
        sounds::<A, Expr<A::Num>, WaveNetModel<A::Num>>(
            wavenet_of::<A::Num>(m.config->WaveNet_0, m.weights),
            inputs(io),
            0,
            built,
        ),
    ensures
        out == built,
        run(wavenet_of::<A::Num>(m.config->WaveNet_0, m.weights), inputs(before)).0.fresh()
            == wavenet_of::<A::Num>(m.config->WaveNet_0, m.weights),
        run(
            wavenet_of::<A::Num>(m.config->WaveNet_0, m.weights),
            inputs(before),
        ).0.receptive_field() == wavenet_of::<A::Num>(
            m.config->WaveNet_0,
            m.weights,
        ).receptive_field(),
        run(wavenet_of::<A::Num>(m.config->WaveNet_0, m.weights), inputs(before)).0.fresh().fresh()
            == run(
            wavenet_of::<A::Num>(m.config->WaveNet_0, m.weights),
            inputs(before),
        ).0.fresh(),
{
    let w = wavenet_of::<A::Num>(m.config->WaveNet_0, m.weights);
    let e = engine_of::<A::Num>(m);
    let xs = inputs(before);
    assert(e == EngineModel::WaveNet(w));
    lemma_built::<A::Num>(m);
    lemma_engine_kept(e, xs);
    lemma_engine_run_wavenet(w, xs);
    let v = run(w, xs).0;
    assert(EngineModel::WaveNet(v).fresh() == EngineModel::WaveNet(v.fresh()));
    assert(e.fresh() == EngineModel::WaveNet(w.fresh()));
    assert(v.fresh() == w);
    lemma_wavenet_field_fresh(v, w);
    lemma_sounds_once::<A, Expr<A::Num>, WaveNetModel<A::Num>>(w, inputs(io), 0, out, built);
}

// ---- Descriptions ----

/// A WaveNet's config without what has no part in its sound: the `head_scale` of the
/// config, which gives way to the one among the weights, and the like of a nested model.
pub open spec fn bare_wavenet(c: WaveNetShape) -> WaveNetShape
    decreases c,
{
    WaveNetShape {
        head_scale: JsonNumber::PosInt(0),
        condition_dsp: match c.condition_dsp {
            Some(d) => Some(Box::new(bare(*d))),
            None => None,
        },
        ..c
    }
}

/// A file without what has no part in its sound: version, sample rate and metadata, and
/// the `head_scale` of a WaveNet's config, in the file and in the models it holds.
pub open spec fn bare(m: NamShape) -> NamShape
    decreases m,
{
    NamShape {
        version: Seq::empty(),
        sample_rate: None,
        metadata: None,
        config: match m.config {
            ConfigShape::WaveNet(c) => ConfigShape::WaveNet(bare_wavenet(c)),
            ConfigShape::Lstm(c) => ConfigShape::Lstm(c),
            ConfigShape::Slimmable(subs) => ConfigShape::Slimmable(
                Seq::new(
                    subs.len(),
                    |i: int|
                        if 0 <= i < subs.len() {
                            SubmodelShape { model: bare(subs[i].model), ..subs[i] }
                        } else {
                            arbitrary()
                        },
                ),
            ),
        },
        ..m
    }
}

/// The failures of arrays are read from the arrays.
proof fn lemma_same_arrays(c: WaveNetShape, d: WaveNetShape, n: nat)
    requires
        c.layers == d.layers,
        c.condition_rows() == d.condition_rows(),
    ensures
        c.condition_failure(n) == d.condition_failure(n),
        c.arrays_failure(n) == d.arrays_failure(n),
        c.arrays_build_failure(n) == d.arrays_build_failure(n),
        c.carry_failure(n) == d.carry_failure(n),
    decreases n,
{
    if n > 0 {
        lemma_same_arrays(c, d, (n - 1) as nat);
    }
}

/// A nested model is described by its file.
proof fn lemma_bare_wavenet<N>(c: WaveNetShape, w: Seq<JsonNumber>)
    ensures
        wavenet_of::<N>(bare_wavenet(c), w) == wavenet_of::<N>(c, w),
        bare_wavenet(c).condition_rows() == c.condition_rows(),
        wavenet_field(bare_wavenet(c)) == wavenet_field(c),
        bare_wavenet(c).condition_dsp is Some == c.condition_dsp is Some,
        c.condition_dsp matches Some(d) ==> engine_failure(*bare_wavenet(c).condition_dsp->Some_0)
            == engine_failure(*d),
    decreases c, 0nat, 0nat,
{
    let b = bare_wavenet(c);
    match c.condition_dsp {
        Some(d) => {
            lemma_bare::<N>(*d);
            assert(b.condition_dsp == Some(Box::new(bare(*d))));
        },
        None => {},
    }
    assert(wavenet_of::<N>(b, w).arrays =~= wavenet_of::<N>(c, w).arrays);
}

/// The submodels of a container are described by their files.
proof fn lemma_bare_submodels<N>(m: NamShape, n: nat)
    requires
        m.config is Slimmable,
        n <= m.config->Slimmable_0.len(),
    ensures
        submodels_failure(bare(m).config->Slimmable_0, n) == submodels_failure(
            m.config->Slimmable_0,
            n,
        ),
    decreases m, 0nat, n,
{
    if n > 0 {
        let subs = m.config->Slimmable_0;
        assert(bare(m).config->Slimmable_0[n - 1].model == bare(subs[n - 1].model));
        lemma_bare_submodels::<N>(m, (n - 1) as nat);
        lemma_bare::<N>(subs[n - 1].model);
    }
}

/// A file builds the model, or fails to, that it does without its version, sample rate
/// and metadata, and without the `head_scale` of a WaveNet's config.
pub proof fn lemma_bare<N>(m: NamShape)
    ensures
        engine_of::<N>(bare(m)) == engine_of::<N>(m),
        engine_failure(bare(m)) == engine_failure(m),
        rows_of(bare(m)) == rows_of(m),
        field_of(bare(m)) == field_of(m),
    decreases m, 1nat, 0nat,
{
    match m.config {
        ConfigShape::WaveNet(c) => {
            let b = bare_wavenet(c);
            lemma_bare_wavenet::<N>(c, m.weights);
            lemma_same_arrays(c, b, c.layers.len());
            assert(bare(m).config == ConfigShape::WaveNet(b));
            assert(c.mixes_gating() == b.mixes_gating());
            assert(wavenet_failure(bare(m)) == wavenet_failure(m));
        },
        ConfigShape::Lstm(_) => {},
        ConfigShape::Slimmable(subs) => {
            let bares = bare(m).config->Slimmable_0;
            lemma_bare_submodels::<N>(m, subs.len());
            assert forall|i: int| 0 <= i < subs.len() implies engine_of::<N>(
                (#[trigger] bares[i]).model,
            ) == engine_of::<N>(subs[i].model) && bares[i].max_value == subs[i].max_value by {
                lemma_bare::<N>(subs[i].model);
            }
            let s = engine_of::<N>(m)->Slimmable_0;
            let t = engine_of::<N>(bare(m))->Slimmable_0;
            assert(t.submodels =~= s.submodels);
            assert(t.max_values =~= s.max_values);
            if subs.len() > 0 {
                lemma_bare::<N>(subs[subs.len() - 1].model);
                assert(bares[subs.len() - 1].model == bare(subs[subs.len() - 1].model));
            }
        },
    }
}

/// Files that differ only in version, sample rate, metadata and the `head_scale` of a
/// WaveNet's config build models, or fail to, alike, and give the same numbers.
pub proof fn lemma_descriptions_are_silent<A: Arith>(
    m: NamShape,
    other: NamShape,
    io: Seq<A::Num>,
    out: Seq<A::Num>,
    other_out: Seq<A::Num>,
)
    requires
        functional::<A>(),
        bare(m) == bare(other),
        sounds::<A, Expr<A::Num>, EngineModel<A::Num>>(
            engine_of::<A::Num>(m),
            inputs(io),
            0,
            out,
        ),
        sounds::<A, Expr<A::Num>, EngineModel<A::Num>>(
            engine_of::<A::Num>(other),
            inputs(io),
            0,
            other_out,
        ),
    ensures
        engine_failure(m) == engine_failure(other),
        engine_of::<A::Num>(m) == engine_of::<A::Num>(other),
        out == other_out,
{
    lemma_bare::<A::Num>(m);
    lemma_bare::<A::Num>(other);
    lemma_sounds_once::<A, Expr<A::Num>, EngineModel<A::Num>>(
        engine_of::<A::Num>(m),
        inputs(io),
        0,
        out,
        other_out,
    );
}

} // verus!
