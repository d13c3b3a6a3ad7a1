//! From a parsed file to a runnable model: what is built, and what is rejected.

use vstd::prelude::*;
use crate::arith::{Arith, Expr, Scalar};
use crate::engine::{arrays_reach, layers_reach, stages_reach, EngineModel, SlimModel, WaveNetModel};
use crate::error::{Error, Failure};
use crate::json::JsonNumber;
use crate::lstm::{lstm_failure, lstm_of, Lstm};
use crate::model::{
    ArrayShape, ConfigShape, GatingMode, ModelConfig, NamModel, NamShape, PostHeadShape,
    SubmodelShape, WaveNetConfig, WaveNetShape,
};
use crate::model_runtime::{Model, Slimmable};
use crate::reader::Reader;
use crate::signal::MAX_BLOCK;
use crate::text::{decimal, Text};
use crate::wavenet::array::LayerArray;
use crate::wavenet::assembly::{build_array, build_post_stack_head, dense_at, grouped_at};
use crate::wavenet::head::PostStackHead;
use crate::wavenet::weights::{arrays_count, expected_weight_count, head_in_width};
use crate::wavenet::{array_views, WaveNet};

verus! {

/// Output rows of the model that a file holds.
pub open spec fn rows_of(m: NamShape) -> nat
    decreases m,
{
    match m.config {
        ConfigShape::WaveNet(c) => if c.layers.len() == 0 {
            1
        } else {
            match c.post_stack_head {
                Some(h) => h.out_channels as nat,
                None => c.layers.last().head_size as nat,
            }
        },
        ConfigShape::Lstm(_) => 1,
        ConfigShape::Slimmable(subs) => if subs.len() == 0 {
            1
        } else {
            rows_of(subs[subs.len() - 1].model)
        },
    }
}

impl WaveNetShape {
    /// Width of the conditioning: the output rows of the nested model, or one.
    pub open spec fn condition_rows(self) -> nat {
        match self.condition_dsp {
            Some(m) => rows_of(*m),
            None => 1,
        }
    }

    /// Width of what array `i` is given.
    pub open spec fn array_input(self, i: int) -> nat {
        if i == 0 {
            1
        } else {
            self.layers[i - 1].channels as nat
        }
    }

    /// Whether the layers of some array differ in their gating mode.
    pub open spec fn mixes_gating(self) -> bool {
        exists|i: int, j: int|
            0 <= i < self.layers.len() && 0 <= j < self.layers[i].gating_modes.len()
                && #[trigger] self.layers[i].gating_modes[j] != self.layers[i].gating_modes[0]
    }

    /// The complaint that array `i` takes a conditioning of the wrong width.
    pub open spec fn condition_complaint(self, i: int) -> Failure {
        Failure::UnsupportedFeature(
            "condition_size of layer "@ + decimal(i as nat) + " ("@ + decimal(
                self.layers[i].condition_size as nat,
            ) + ") != condition_dsp output channels ("@ + decimal(self.condition_rows()) + ")"@,
        )
    }

    /// Why the conditioning of the first `n` arrays does not fit, if so.
    pub open spec fn condition_failure(self, n: nat) -> Option<Failure>
        decreases n,
    {
        if n == 0 {
            None
        } else if self.condition_failure((n - 1) as nat) is Some {
            self.condition_failure((n - 1) as nat)
        } else if self.layers[n - 1].condition_size != self.condition_rows() {
            Some(self.condition_complaint(n - 1))
        } else {
            None
        }
    }

    /// Why one of the first `n` arrays cannot be built, if so.
    pub open spec fn arrays_build_failure(self, n: nat) -> Option<Failure>
        decreases n,
    {
        if n == 0 {
            None
        } else if self.arrays_build_failure((n - 1) as nat) is Some {
            self.arrays_build_failure((n - 1) as nat)
        } else {
            self.layers[n - 1].build_failure(self.array_input(n - 1))
        }
    }

    /// The complaint that array `i` does not take the head that the one before it gives.
    pub open spec fn carry_complaint(self, i: int) -> Failure {
        Failure::UnsupportedFeature(
            "layer-array head-carry width mismatch: array "@ + decimal((i - 1) as nat)
                + " head_size "@ + decimal(self.layers[i - 1].head_size as nat) + " != array "@
                + decimal(i as nat) + " head_in "@ + decimal(self.layers[i].head_in()),
        )
    }

    /// Why the head is not carried through the first `n` arrays, if so.
    pub open spec fn carry_failure(self, n: nat) -> Option<Failure>
        decreases n,
    {
        if n <= 1 {
            None
        } else if self.carry_failure((n - 1) as nat) is Some {
            self.carry_failure((n - 1) as nat)
        } else if self.layers[n - 2].head_size != self.layers[n - 1].head_in() {
            Some(self.carry_complaint(n - 1))
        } else {
            None
        }
    }
}

/// How far back the first `n` layers of an array reach in all.
pub open spec fn layers_field(s: ArrayShape, n: nat) -> nat
    decreases n,
{
    if n == 0 {
        0
    } else {
        layers_field(s, (n - 1) as nat) + ((s.kernel_sizes[n - 1] - 1) * s.dilations[n - 1]) as nat
    }
}

/// How far back the first `n` arrays reach in all.
pub open spec fn arrays_field(layers: Seq<ArrayShape>, n: nat) -> nat
    decreases n,
{
    if n == 0 {
        0
    } else {
        let s = layers[n - 1];
        arrays_field(layers, (n - 1) as nat) + layers_field(s, s.kernel_sizes.len()) + (
        s.head_kernel_size - 1) as nat
    }
}

/// How far back the first `n` convolutions of a post-stack head reach in all.
pub open spec fn head_field(h: PostHeadShape, n: nat) -> nat
    decreases n,
{
    if n == 0 {
        0
    } else {
        head_field(h, (n - 1) as nat) + (h.kernel_sizes[n - 1] - 1) as nat
    }
}

/// Receptive field implied by a config: per layer `(kernel_size - 1) * dilation`, plus
/// `head_kernel_size - 1` per array, plus `kernel - 1` for each convolution of the
/// post-stack head. It counts from one, or from the nested model's receptive field.
pub open spec fn wavenet_field(c: WaveNetShape) -> nat
    decreases c,
{
    (match c.condition_dsp {
        Some(m) => field_of(*m),
        None => 1,
    }) + arrays_field(c.layers, c.layers.len()) + (match c.post_stack_head {
        Some(h) => head_field(h, h.kernel_sizes.len()),
        None => 0,
    })
}

/// Receptive field of the model that a file holds, as it is built.
pub open spec fn field_of(m: NamShape) -> nat
    decreases m,
{
    match m.config {
        ConfigShape::WaveNet(c) => wavenet_field(c),
        ConfigShape::Lstm(_) => 0,
        ConfigShape::Slimmable(subs) => if subs.len() == 0 {
            0
        } else {
            field_of(subs[subs.len() - 1].model)
        },
    }
}

/// The WaveNet that a config and its weights hold.
pub open spec fn wavenet_of<N>(c: WaveNetShape, w: Seq<JsonNumber>) -> WaveNetModel<N>
    decreases c,
{
    let n = c.layers.len();
    WaveNetModel {
        arrays: Seq::new(n, |i: int| c.layers[i].array_at(w, arrays_count(c.layers, i as nat))),
        head: match c.post_stack_head {
            Some(h) => Some(h.head_at(w, arrays_count(c.layers, n), c.head_input())),
            None => None,
        },
        condition: match c.condition_dsp {
            Some(m) => Some(Box::new(engine_of(*m))),
            None => None,
        },
        head_scale: Expr::Constant(w[c.count() - 1]),
    }
}

/// The model that a file holds. A container starts with its last submodel active.
pub open spec fn engine_of<N>(m: NamShape) -> EngineModel<N>
    decreases m,
{
    match m.config {
        ConfigShape::WaveNet(c) => EngineModel::WaveNet(wavenet_of(c, m.weights)),
        ConfigShape::Lstm(c) => EngineModel::Lstm(lstm_of(c, m.weights)),
        ConfigShape::Slimmable(subs) => EngineModel::Slimmable(
            SlimModel {
                submodels: Seq::new(
                    subs.len(),
                    |i: int|
                        if 0 <= i < subs.len() {
                            engine_of(subs[i].model)
                        } else {
                            arbitrary()
                        },
                ),
                max_values: Seq::new(subs.len(), |i: int| subs[i].max_value),
                active: (subs.len() - 1) as nat,
            },
        ),
    }
}

/// Why no WaveNet can be built from a file, if so.
pub open spec fn wavenet_failure(m: NamShape) -> Option<Failure>
    decreases m, 0nat,
{
    match m.config {
        ConfigShape::WaveNet(c) => {
            let n = c.layers.len();
            let nested = match c.condition_dsp {
                Some(d) => engine_failure(*d),
                None => None,
            };
            let head = match c.post_stack_head {
                Some(h) => h.build_failure(c.head_input()),
                None => None,
            };
            if c.in_channels != 1 {
                Some(Failure::UnsupportedFeature("in_channels != 1"@))
            } else if c.mixes_gating() {
                Some(Failure::UnsupportedFeature("mixed gating modes"@))
            } else if nested is Some {
                nested
            } else if c.condition_failure(n) is Some {
                c.condition_failure(n)
            } else if c.count_failure() is Some {
                c.count_failure()
            } else if c.count() != m.weights.len() {
                Some(Failure::WeightCountMismatch { expected: c.count(), found: m.weights.len() })
            } else if c.arrays_build_failure(n) is Some {
                c.arrays_build_failure(n)
            } else if c.carry_failure(n) is Some {
                c.carry_failure(n)
            } else if head is Some {
                head
            } else if wavenet_field(c) > usize::MAX {
                Some(Failure::ConfigTooLarge)
            } else {
                None
            }
        },
        _ => Some(Failure::UnsupportedArchitecture(m.architecture)),
    }
}

/// Why one of the first `n` submodels cannot be built, if so.
pub open spec fn submodels_failure(subs: Seq<SubmodelShape>, n: nat) -> Option<Failure>
    decreases subs, n,
{
    if n == 0 || n > subs.len() {
        None
    } else if submodels_failure(subs, (n - 1) as nat) is Some {
        submodels_failure(subs, (n - 1) as nat)
    } else {
        engine_failure(subs[n - 1].model)
    }
}

/// Why no model can be built from a file, if so.
pub open spec fn engine_failure(m: NamShape) -> Option<Failure>
    decreases m, 1nat,
{
    match m.config {
        ConfigShape::WaveNet(_) => wavenet_failure(m),
        ConfigShape::Lstm(_) => lstm_failure(m),
        ConfigShape::Slimmable(subs) => if subs.len() == 0 {
            Some(Failure::UnsupportedFeature("empty SlimmableContainer"@))
        } else {
            submodels_failure(subs, subs.len())
        },
    }
}

/// The layers of an array reach as far back as its config says.
proof fn lemma_layers_field<N>(s: ArrayShape, w: Seq<JsonNumber>, at: nat, n: nat)
    requires
        n <= s.kernel_sizes.len(),
    ensures
        layers_reach(s.array_at::<N>(w, at).layers.take(n as int)) == layers_field(s, n),
    decreases n,
{
    let layers = s.array_at::<N>(w, at).layers;
    if n > 0 {
        lemma_layers_field::<N>(s, w, at, (n - 1) as nat);
        assert(layers.take(n as int).drop_last() =~= layers.take(n - 1));
        assert(layers.take(n as int).last() == layers[n - 1]);
        reveal(grouped_at);
    }
}

/// The arrays of a WaveNet reach as far back as its config says.
proof fn lemma_arrays_field<N>(c: WaveNetShape, w: Seq<JsonNumber>, n: nat)
    requires
        n <= c.layers.len(),
    ensures
        arrays_reach(wavenet_of::<N>(c, w).arrays.take(n as int)) == arrays_field(c.layers, n),
    decreases n,
{
    let arrays = wavenet_of::<N>(c, w).arrays;
    if n > 0 {
        lemma_arrays_field::<N>(c, w, (n - 1) as nat);
        assert(arrays.take(n as int).drop_last() =~= arrays.take(n - 1));
        let a = arrays[n - 1];
        assert(arrays.take(n as int).last() == a);
        let s = c.layers[n - 1];
        let at = arrays_count(c.layers, (n - 1) as nat);
        assert(a == s.array_at::<N>(w, at));
        lemma_layers_field::<N>(s, w, at, s.kernel_sizes.len());
        assert(a.layers.take(s.kernel_sizes.len() as int) =~= a.layers);
        reveal(dense_at);
        assert(a.head_rechannel.reach() == (s.head_kernel_size - 1) as nat) by {
            assert((s.head_kernel_size - 1) * 1 == s.head_kernel_size - 1);
        }
    }
}

/// The post-stack head reaches as far back as its config says.
proof fn lemma_head_field<N>(h: PostHeadShape, w: Seq<JsonNumber>, at: nat, in_ch: nat, n: nat)
    requires
        n <= h.kernel_sizes.len(),
    ensures
        stages_reach(h.head_at::<N>(w, at, in_ch).stages.take(n as int)) == head_field(h, n),
    decreases n,
{
    let stages = h.head_at::<N>(w, at, in_ch).stages;
    if n > 0 {
        lemma_head_field::<N>(h, w, at, in_ch, (n - 1) as nat);
        assert(stages.take(n as int).drop_last() =~= stages.take(n - 1));
        assert(stages.take(n as int).last() == stages[n - 1]);
        reveal(dense_at);
        assert(stages[n - 1].conv.reach() == (h.kernel_sizes[n - 1] - 1) as nat) by {
            assert((h.kernel_sizes[n - 1] - 1) * 1 == h.kernel_sizes[n - 1] - 1);
        }
    }
}

/// The receptive field of a built WaveNet is the one that its config implies.
pub proof fn lemma_wavenet_field<N>(c: WaveNetShape, w: Seq<JsonNumber>)
    requires
        c.condition_dsp matches Some(m) ==> engine_failure(*m) is None,
    ensures
        wavenet_of::<N>(c, w).receptive_field() == wavenet_field(c),
    decreases c, 0nat,
{
    let m = wavenet_of::<N>(c, w);
    lemma_arrays_field::<N>(c, w, c.layers.len());
    assert(m.arrays.take(c.layers.len() as int) =~= m.arrays);
    match c.post_stack_head {
        Some(h) => {
            let at = arrays_count(c.layers, c.layers.len());
            let n = h.kernel_sizes.len();
            lemma_head_field::<N>(h, w, at, c.head_input(), n);
            let stages = h.head_at::<N>(w, at, c.head_input()).stages;
            assert(stages.take(n as int) =~= stages);
        },
        None => {},
    }
    match c.condition_dsp {
        Some(d) => {
            lemma_field_of::<N>(*d);
        },
        None => {},
    }
}

/// The receptive field of a built model is the one that its file implies.
pub proof fn lemma_field_of<N>(m: NamShape)
    requires
        engine_failure(m) is None,
    ensures
        engine_of::<N>(m).receptive_field() == field_of(m),
    decreases m, 1nat,
{
    match m.config {
        ConfigShape::WaveNet(c) => {
            lemma_wavenet_field::<N>(c, m.weights);
        },
        ConfigShape::Lstm(_) => {},
        ConfigShape::Slimmable(subs) => {
            let last = subs.len() - 1;
            lemma_field_of::<N>(subs[last].model);
            assert(engine_of::<N>(m)->Slimmable_0.submodels[last] == engine_of::<N>(
                subs[last].model,
            ));
        },
    }
}

/// The output rows of a built model are those that its file implies.
pub proof fn lemma_rows_of<N>(m: NamShape)
    requires
        engine_failure(m) is None,
    ensures
        engine_of::<N>(m).rows() == rows_of(m),
    decreases m,
{
    match m.config {
        ConfigShape::WaveNet(c) => {
            let e = wavenet_of::<N>(c, m.weights);
            if c.layers.len() > 0 {
                reveal(dense_at);
                match c.post_stack_head {
                    Some(h) => {
                        let k = h.kernel_sizes.len() - 1;
                        let at = arrays_count(c.layers, c.layers.len());
                        assert(h.count_failure(c.head_input()) is None);
                        assert(e.head->Some_0.stages[k] == h.stage_at::<N>(
                            m.weights,
                            at,
                            c.head_input(),
                            k,
                        ));
                    },
                    None => {
                        let k = c.layers.len() - 1;
                        assert(e.arrays[k] == c.layers[k].array_at::<N>(
                            m.weights,
                            arrays_count(c.layers, k as nat),
                        ));
                    },
                }
            }
        },
        ConfigShape::Lstm(_) => {},
        ConfigShape::Slimmable(subs) => {
            let last = subs.len() - 1;
            lemma_rows_of::<N>(subs[last].model);
            assert(engine_of::<N>(m)->Slimmable_0.submodels[last] == engine_of::<N>(
                subs[last].model,
            ));
        },
    }
}

/// Reject WaveNet features whose forward pass is not implemented, rather than silently
/// mis-running them.
fn check_unsupported_features(cfg: &WaveNetConfig) -> (r: Result<(), Error>)
    requires
        forall|i: int| 0 <= i < cfg@.layers.len() ==> (#[trigger] cfg@.layers[i]).wf(),
    ensures
        match r {
            Ok(_) => cfg@.in_channels == 1 && !cfg@.mixes_gating(),
            Err(e) => if cfg@.in_channels != 1 {
                e@ == Failure::UnsupportedFeature("in_channels != 1"@)
            } else {
                cfg@.mixes_gating() && e@ == Failure::UnsupportedFeature("mixed gating modes"@)
            },
        },
{
    if cfg.in_channels != 1 {
        return Err(Error::UnsupportedFeature("in_channels != 1".to_owned()));
    }
    let ghost s = cfg@;
    let n: usize = cfg.layers.len();
    let mut i: usize = 0;
    while i < n
        invariant
            s == cfg@,
            n == s.layers.len(),
            n == cfg.layers@.len(),
            s.in_channels == 1,
            forall|i: int| 0 <= i < s.layers.len() ==> (#[trigger] s.layers[i]).wf(),
            i <= n,
            forall|a: int, j: int|
                0 <= a < i && 0 <= j < s.layers[a].gating_modes.len()
                    ==> #[trigger] s.layers[a].gating_modes[j] == s.layers[a].gating_modes[0],
        decreases n - i,
    {
        assert(s.layers[i as int] == cfg.layers@[i as int]@);
        assert(s.layers[i as int].wf());
        let first: GatingMode = cfg.layers[i].gating_mode();
        let modes: &Vec<GatingMode> = &cfg.layers[i].gating_modes;
        let mut j: usize = 0;
        while j < modes.len()
            invariant
                s == cfg@,
                s.in_channels == 1,
                n == s.layers.len(),
                n == cfg.layers@.len(),
                i < n,
                s.layers[i as int].gating_modes == modes@,
                first == modes@[0],
                j <= modes@.len(),
                forall|q: int| 0 <= q < j ==> #[trigger] modes@[q] == first,
            decreases modes@.len() - j,
        {
            if modes[j] != first {
                assert(s.layers[i as int].gating_modes[j as int]
                    != s.layers[i as int].gating_modes[0]);
                return Err(Error::UnsupportedFeature("mixed gating modes".to_owned()));
            }
            j += 1;
        }
        i += 1;
    }
    Ok(())
}

/// A failure among the first arrays is the failure of the whole.
proof fn lemma_first_failure(c: WaveNetShape, n: nat)
    requires
        n <= c.layers.len(),
    ensures
        c.condition_failure(n) is Some ==> c.condition_failure(c.layers.len())
            == c.condition_failure(n),
        c.arrays_build_failure(n) is Some ==> c.arrays_build_failure(c.layers.len())
            == c.arrays_build_failure(n),
        c.carry_failure(n) is Some ==> c.carry_failure(c.layers.len()) == c.carry_failure(n),
    decreases c.layers.len() - n,
{
    if n < c.layers.len() {
        lemma_first_failure(c, n + 1);
    }
}

/// Fewer arrays have fewer weights.
proof fn lemma_arrays_grow(layers: Seq<ArrayShape>, i: nat, n: nat)
    requires
        i <= n,
    ensures
        arrays_count(layers, i) <= arrays_count(layers, n),
    decreases n - i,
{
    if i < n {
        lemma_arrays_grow(layers, i + 1, n);
    }
}

/// Where the arrays can be counted together, each of them can.
proof fn lemma_each_counted(c: WaveNetShape, n: nat, i: int)
    requires
        c.arrays_failure(n) is None,
        0 <= i < n <= c.layers.len(),
    ensures
        c.layers[i].count_failure() is None,
    decreases n,
{
    if i < n - 1 {
        lemma_each_counted(c, (n - 1) as nat, i);
    }
}

/// Check that every array takes the conditioning there is: the nested model's output
/// rows, or the mono input.
fn check_condition_width(cfg: &WaveNetConfig, rows: usize) -> (r: Result<(), Error>)
    requires
        rows == cfg@.condition_rows(),
    ensures
        match r {
            Ok(_) => cfg@.condition_failure(cfg@.layers.len()) is None,
            Err(e) => cfg@.condition_failure(cfg@.layers.len()) == Some(e@),
        },
{
    let ghost s = cfg@;
    let n: usize = cfg.layers.len();
    let mut i: usize = 0;
    while i < n
        invariant
            s == cfg@,
            n == s.layers.len(),
            n == cfg.layers@.len(),
            rows == s.condition_rows(),
            i <= n,
            s.condition_failure(i as nat) is None,
        decreases n - i,
    {
        assert(s.layers[i as int] == cfg.layers@[i as int]@);
        if cfg.layers[i].condition_size != rows {
            let text = Text::new().and("condition_size of layer ").and_number(i).and(
                " (",
            ).and_number(cfg.layers[i].condition_size).and(
                ") != condition_dsp output channels (",
            ).and_number(rows).and(")");
            proof {
                lemma_first_failure(s, (i + 1) as nat);
                assert(Failure::UnsupportedFeature(text@) == s.condition_complaint(i as int)) by {
                    assert(Seq::<char>::empty() + "condition_size of layer "@
                        =~= "condition_size of layer "@);
                }
            }
            return Err(Error::UnsupportedFeature(text.done()));
        }
        i += 1;
    }
    Ok(())
}

/// Check that each array's head output is as wide as the next array's accumulator, into
/// which it is seeded.
fn check_head_carry(cfg: &WaveNetConfig) -> (r: Result<(), Error>)
    ensures
        match r {
            Ok(_) => cfg@.carry_failure(cfg@.layers.len()) is None,
            Err(e) => cfg@.carry_failure(cfg@.layers.len()) == Some(e@),
        },
{
    let ghost s = cfg@;
    let n: usize = cfg.layers.len();
    let mut i: usize = 1;
    while i < n
        invariant
            s == cfg@,
            n == s.layers.len(),
            n == cfg.layers@.len(),
            1 <= i,
            i <= n || i == 1,
            s.carry_failure(i as nat) is None,
        decreases n - i,
    {
        assert(s.layers[i as int] == cfg.layers@[i as int]@);
        assert(s.layers[i - 1] == cfg.layers@[i - 1]@);
        let produced: usize = cfg.layers[i - 1].head_size;
        let consumed: usize = head_in_width(&cfg.layers[i]);
        if produced != consumed {
            let text = Text::new().and("layer-array head-carry width mismatch: array ").and_number(
                i - 1,
            ).and(" head_size ").and_number(produced).and(" != array ").and_number(i).and(
                " head_in ",
            ).and_number(consumed);
            proof {
                lemma_first_failure(s, (i + 1) as nat);
                assert(Failure::UnsupportedFeature(text@) == s.carry_complaint(i as int)) by {
                    assert(Seq::<char>::empty() + "layer-array head-carry width mismatch: array "@
                        =~= "layer-array head-carry width mismatch: array "@);
                }
            }
            return Err(Error::UnsupportedFeature(text.done()));
        }
        i += 1;
    }
    Ok(())
}

/// Build every array from a reader at the beginning of the blob.
fn build_arrays<A: Arith>(r: &mut Reader, cfg: &WaveNetConfig) -> (res: Result<
    Vec<LayerArray<A>>,
    Error,
>)
    requires
        old(r).wf(),
        old(r).at() == 0,
        forall|i: int| 0 <= i < cfg@.layers.len() ==> (#[trigger] cfg@.layers[i]).wf(),
        cfg@.count_failure() is None,
        arrays_count(cfg@.layers, cfg@.layers.len()) <= old(r).blob().len(),
    ensures
        match res {
            Ok(arrays) => {
                let c = cfg@;
                let n = c.layers.len();
                &&& c.arrays_build_failure(n) is None
                &&& final(r).wf()
                &&& final(r).blob() == old(r).blob()
                &&& final(r).at() == arrays_count(c.layers, n)
                &&& arrays@.len() == n
                &&& forall|i: int| 0 <= i < n ==> #[trigger] array_built(arrays@, c, i)
                &&& array_views(arrays@) == wavenet_of::<A::Num>(c, old(r).blob()).arrays
            },
            Err(e) => cfg@.arrays_build_failure(cfg@.layers.len()) == Some(e@),
        },
{
    let ghost c = cfg@;
    let ghost w = r.blob();
    let n: usize = cfg.layers.len();
    let mut arrays: Vec<LayerArray<A>> = Vec::new();
    let mut input: usize = 1;
    let mut i: usize = 0;
    while i < n
        invariant
            r.wf(),
            r.blob() == w,
            c == cfg@,
            n == c.layers.len(),
            n == cfg.layers@.len(),
            forall|i: int| 0 <= i < c.layers.len() ==> (#[trigger] c.layers[i]).wf(),
            c.count_failure() is None,
            i <= n,
            input == c.array_input(i as int),
            r.at() == arrays_count(c.layers, i as nat),
            arrays_count(c.layers, n as nat) <= w.len(),
            c.arrays_build_failure(i as nat) is None,
            arrays@.len() == i,
            forall|j: int| 0 <= j < i ==> #[trigger] array_built(arrays@, c, j),
            forall|j: int|
                0 <= j < i ==> (#[trigger] arrays@[j])@ == c.layers[j].array_at::<A::Num>(
                    w,
                    arrays_count(c.layers, j as nat),
                ),
        decreases n - i,
    {
        let ghost earlier = arrays@;
        proof {
            assert(c.layers[i as int] == cfg.layers@[i as int]@);
            assert(c.layers[i as int].wf());
            lemma_each_counted(c, n as nat, i as int);
            lemma_arrays_grow(c.layers, (i + 1) as nat, n as nat);
            lemma_first_failure(c, (i + 1) as nat);
        }
        match build_array(r, &cfg.layers[i], input) {
            Ok(a) => {
                arrays.push(a);
            },
            Err(e) => {
                return Err(e);
            },
        }
        proof {
            assert forall|j: int| 0 <= j < i + 1 implies #[trigger] array_built(arrays@, c, j) by {
                if j < i {
                    assert(array_built(earlier, c, j));
                    assert(arrays@[j] == earlier[j]);
                    if j > 0 {
                        assert(arrays@[j - 1] == earlier[j - 1]);
                    }
                } else {
                    lemma_widths_fit(c.layers[i as int]);
                }
            }
        }
        input = cfg.layers[i].channels;
        i += 1;
    }
    assert(array_views(arrays@) =~= wavenet_of::<A::Num>(c, w).arrays);
    Ok(arrays)
}

/// Array `i` is built as its config says.
spec fn array_built<A: Arith>(arrays: Seq<LayerArray<A>>, c: WaveNetShape, i: int) -> bool {
    let a = arrays[i]@;
    let s = c.layers[i];
    &&& arrays[i].wf()
    &&& a.valid()
    &&& a.condition() == s.condition_size
    &&& a.input_size() == s.input_size
    &&& s.input_size == c.array_input(i)
    &&& a.channels() == s.channels
    &&& a.head_in() == s.head_in()
    &&& a.head_size() == s.head_size
    &&& s.channels * MAX_BLOCK <= usize::MAX
    &&& s.head_in() * MAX_BLOCK <= usize::MAX
    &&& s.head_size * MAX_BLOCK <= usize::MAX
}

/// The signals of an array that can be built have lengths that fit a `usize`.
proof fn lemma_widths_fit(s: ArrayShape)
    requires
        s.sized(),
        s.head_kernel_size >= 1,
    ensures
        s.channels * MAX_BLOCK <= usize::MAX,
        s.head_in() * MAX_BLOCK <= usize::MAX,
        s.head_size * MAX_BLOCK <= usize::MAX,
{
    let hin = s.head_in();
    let reach = (s.head_kernel_size - 1) * 1;
    assert(hin * MAX_BLOCK <= hin * (reach + MAX_BLOCK)) by (nonlinear_arith)
        requires
            hin >= 0,
            reach >= 0,
            MAX_BLOCK == 1024,
    ;
}

/// Where no array fails, none of a kind does.
proof fn lemma_no_failure(c: WaveNetShape, n: nat, i: int)
    requires
        0 <= i < n <= c.layers.len(),
    ensures
        c.condition_failure(n) is None ==> c.layers[i].condition_size == c.condition_rows(),
        c.carry_failure(n) is None && i > 0 ==> c.layers[i - 1].head_size == c.layers[i].head_in(),
    decreases n,
{
    if i < n - 1 {
        lemma_no_failure(c, (n - 1) as nat, i);
    }
}

impl<A: Arith> WaveNet<A> {
    /// Build a runnable model from a parsed `.nam` file.
    ///
    /// All allocation happens here. Fails if the architecture is unsupported, an
    /// activation is unknown, the config is inconsistent, or the flat weight blob does
    /// not match the config.
    #[verifier::rlimit(60)]
    #[verifier::spinoff_prover]
    pub fn new(model: &NamModel) -> (r: Result<Self, Error>)
        requires
            model@.wf(),
        ensures
            match r {
                Ok(net) => {
                    &&& wavenet_failure(model@) is None
                    &&& net.wf()
                    &&& net@ == wavenet_of::<A::Num>(model@.config->WaveNet_0, model@.weights)
                    &&& net.levels() == model@.calibration()
                },
                Err(e) => wavenet_failure(model@) == Some(e@),
            },
        decreases model@, 0nat,
    {
        let cfg: &WaveNetConfig = match &model.config {
            ModelConfig::WaveNet(cfg) => cfg,
            _ => {
                return Err(Error::UnsupportedArchitecture(model.architecture.clone()));
            },
        };
        let ghost c = cfg@;
        let ghost w = model@.weights;
        let ghost n = c.layers.len();
        assert(model@.config == ConfigShape::WaveNet(c));
        match check_unsupported_features(cfg) {
            Ok(_) => {},
            Err(e) => {
                return Err(e);
            },
        }
        let condition_dsp: Option<Box<Model<A>>> = match &cfg.condition_dsp {
            Some(nested) => {
                assert(c.condition_dsp == Some(Box::new(nested@)));
                match Model::from_nam(nested) {
                    Ok(m) => {
                        proof {
                            lemma_rows_of::<A::Num>(nested@);
                        }
                        Some(Box::new(m))
                    },
                    Err(e) => {
                        return Err(e);
                    },
                }
            },
            None => None,
        };
        let rows: usize = match &condition_dsp {
            Some(m) => m.num_output_channels(),
            None => 1,
        };
        match check_condition_width(cfg, rows) {
            Ok(_) => {},
            Err(e) => {
                return Err(e);
            },
        }
        let expected: usize = match expected_weight_count(cfg) {
            Ok(k) => k,
            Err(e) => {
                return Err(e);
            },
        };
        if expected != model.weights.len() {
            return Err(Error::WeightCountMismatch { expected, found: model.weights.len() });
        }
        let mut r = Reader::new(model.weights.as_slice());
        let arrays: Vec<LayerArray<A>> = match build_arrays(&mut r, cfg) {
            Ok(a) => a,
            Err(e) => {
                return Err(e);
            },
        };
        match check_head_carry(cfg) {
            Ok(_) => {},
            Err(e) => {
                return Err(e);
            },
        }
        let count: usize = arrays.len();
        let in_channels: usize = if count == 0 {
            0
        } else {
            cfg.layers[count - 1].head_size
        };
        assert(in_channels == c.head_input());
        let post_stack_head: Option<Box<PostStackHead<A>>> = match &cfg.post_stack_head {
            Some(hc) => match build_post_stack_head(&mut r, hc, in_channels) {
                Ok(h) => Some(Box::new(h)),
                Err(e) => {
                    return Err(e);
                },
            },
            None => None,
        };
        let last = r.take(1);
        let head_scale: Scalar<A> = last[0];
        let ghost m = wavenet_of::<A::Num>(c, w);
        proof {
            lemma_wavenet_field::<A::Num>(c, w);
            assert(crate::arith::exprs(last@)[0] == head_scale@);
            assert(m.head_scale == head_scale@);
            assert(m.condition_width() == c.condition_rows());
            assert forall|i: int| 0 <= i < m.arrays.len() implies #[trigger] m.array_fits(i) by {
                assert(array_built(arrays@, c, i));
                assert(m.arrays[i] == arrays@[i]@);
                lemma_no_failure(c, n, i);
                if i > 0 {
                    assert(array_built(arrays@, c, i - 1));
                    assert(m.arrays[i - 1] == arrays@[i - 1]@);
                }
            }
            if count > 0 {
                assert(array_built(arrays@, c, count - 1));
                assert(m.arrays.last() == arrays@[count - 1]@);
            }
            if condition_dsp is Some {
                condition_dsp->Some_0.lemma_valid();
            }
            assert(m.valid());
            assert forall|i: int| 0 <= i < arrays@.len() implies (
            #[trigger] arrays@[i])@.channels() * MAX_BLOCK <= usize::MAX && arrays@[i]@.head_in()
                * MAX_BLOCK <= usize::MAX && arrays@[i]@.head_size() * MAX_BLOCK
                <= usize::MAX by {
                assert(array_built(arrays@, c, i));
            }
            assert forall|i: int| 0 <= i < arrays@.len() implies (
            #[trigger] arrays@[i]).wf() by {
                assert(array_built(arrays@, c, i));
            }
        }
        WaveNet::assemble(
            arrays,
            post_stack_head,
            condition_dsp,
            head_scale,
            model.calibration(),
            Ghost(m),
        )
    }
}

/// A failure among the first submodels is the failure of the whole.
proof fn lemma_first_submodel_failure(subs: Seq<SubmodelShape>, n: nat)
    requires
        n <= subs.len(),
        submodels_failure(subs, n) is Some,
    ensures
        submodels_failure(subs, subs.len()) == submodels_failure(subs, n),
    decreases subs.len() - n,
{
    if n < subs.len() {
        lemma_first_submodel_failure(subs, n + 1);
    }
}

impl<A: Arith> Model<A> {
    /// Build the runtime matching `model.architecture`. All allocation happens here.
    pub fn from_nam(model: &NamModel) -> (r: Result<Self, Error>)
        requires
            model@.wf(),
        ensures
            match r {
                Ok(net) => {
                    &&& engine_failure(model@) is None
                    &&& net.wf()
                    &&& net@ == engine_of::<A::Num>(model@)
                    &&& net.levels() == model@.calibration()
                },
                Err(e) => engine_failure(model@) == Some(e@),
            },
        decreases model@, 1nat,
    {
        match &model.config {
            ModelConfig::WaveNet(_) => match WaveNet::new(model) {
                Ok(net) => Ok(Model::WaveNet(Box::new(net))),
                Err(e) => Err(e),
            },
            ModelConfig::Lstm(_) => match Lstm::new(model) {
                Ok(net) => Ok(Model::Lstm(net)),
                Err(e) => Err(e),
            },
            ModelConfig::Slimmable(cfg) => {
                let ghost subs = model@.config->Slimmable_0;
                let n: usize = cfg.submodels.len();
                if n == 0 {
                    return Err(Error::UnsupportedFeature("empty SlimmableContainer".to_owned()));
                }
                let mut submodels: Vec<Model<A>> = Vec::new();
                let mut max_values: Vec<JsonNumber> = Vec::new();
                let mut i: usize = 0;
                while i < n
                    invariant
                        model.config == ModelConfig::Slimmable(*cfg),
                        model@.wf(),
                        model@.config == ConfigShape::Slimmable(subs),
                        n == subs.len(),
                        n == cfg.submodels@.len(),
                        n > 0,
                        i <= n,
                        submodels_failure(subs, i as nat) is None,
                        submodels@.len() == i,
                        max_values@.len() == i,
                        forall|j: int| 0 <= j < i ==> (#[trigger] submodels@[j]).wf(),
                        forall|j: int|
                            0 <= j < i ==> (#[trigger] submodels@[j])@ == engine_of::<A::Num>(
                                subs[j].model,
                            ),
                        forall|j: int|
                            0 <= j < i ==> #[trigger] max_values@[j] == subs[j].max_value,
                    decreases n - i,
                {
                    assert(subs[i as int] == cfg.submodels@[i as int]@);
                    assert(subs[i as int].model.wf());
                    match Model::from_nam(&cfg.submodels[i].model) {
                        Ok(m) => {
                            submodels.push(m);
                        },
                        Err(e) => {
                            proof {
                                lemma_first_submodel_failure(subs, (i + 1) as nat);
                            }
                            return Err(e);
                        },
                    }
                    max_values.push(cfg.submodels[i].max_value);
                    i += 1;
                }
                let ghost views = submodels@;
                let slim = Slimmable::assemble(submodels, max_values, model.calibration());
                proof {
                    let e = engine_of::<A::Num>(model@)->Slimmable_0;
                    assert forall|j: int| 0 <= j < n implies #[trigger] slim@.submodels[j]
                        == e.submodels[j] by {
                        assert(slim@.submodels[j] == views[j]@);
                    }
                    assert(slim@.submodels =~= e.submodels);
                    assert(slim@.max_values =~= e.max_values);
                    assert(slim@ =~= e);
                }
                Ok(Model::Slimmable(slim))
            },
        }
    }
}

} // verus!
