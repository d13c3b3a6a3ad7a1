//! Which files can be built: what must agree with what in a config, and that nothing else
//! but its size stands in the way of one in which everything does.

use vstd::prelude::*;
use crate::error::Failure;
use crate::laws::dealing::{
    lemma_activations_resolve, lemma_array_builds, lemma_one_mode, rows_before_gating, width_shown,
};
use crate::loading::{engine_failure, rows_of, submodels_failure, wavenet_failure};
use crate::lstm::{lemma_cells_count, lstm_failure};
use crate::model::{
    ActivationChoice, ArrayShape, FilmConfig, LstmConfig, NamShape, PostHeadShape, SubmodelShape,
    WaveNetShape,
};
use crate::wavenet::activation::resolved;

verus! {

// ---- WaveNets ----

/// Whether both widths of a convolution are multiples of the number of its groups.
pub open spec fn parted(groups: usize, a: nat, b: nat) -> bool {
    &&& groups >= 1
    &&& a % (groups as nat) == 0
    &&& b % (groups as nat) == 0
}

/// Whether a FiLM site beside a signal `dim` wide has groups that its widths are multiples
/// of; there are as many rows again where it shifts.
pub open spec fn site_parted(f: FilmConfig, dim: nat, cond: nat) -> bool {
    f.active ==> parted(
        f.groups,
        cond,
        if f.shift {
            dim + dim
        } else {
            dim
        },
    )
}

/// Whether an activation is one of those there are.
pub open spec fn known(choice: ActivationChoice) -> bool {
    match choice {
        ActivationChoice::Named { name, .. } => name == "Tanh"@ || name == "ReLU"@ || name
            == "Sigmoid"@ || name == "LeakyReLU"@,
        ActivationChoice::Unsupported(_) => false,
    }
}

/// Whether layer `i` of an array can be had: it has a tap, the gating mode of the first
/// layer, and activations that there are.
pub open spec fn layer_agrees(s: ArrayShape, i: int) -> bool {
    &&& s.kernel_sizes[i] >= 1
    &&& s.gating_modes[i] == s.gating_modes[0]
    &&& known(s.activations[i])
    &&& known(s.secondary_activations[i])
}

/// Whether the parts of an array agree with each other, with an input `input` wide and
/// with a conditioning `cond` wide.
pub open spec fn array_agrees(s: ArrayShape, input: nat, cond: nat) -> bool {
    let ch = s.channels as nat;
    let bn = s.bottleneck as nat;
    let mid = rows_before_gating(s, 0);
    let shown = match s.head1x1.out_channels {
        Some(n) => n as nat,
        None => ch,
    };
    &&& s.input_size == input
    &&& s.condition_size == cond
    &&& s.head_kernel_size >= 1
    &&& forall|i: int| 0 <= i < s.dilations.len() ==> #[trigger] layer_agrees(s, i)
    &&& parted(s.groups_input, ch, mid)
    &&& parted(s.groups_input_mixin, cond, mid)
    &&& s.layer1x1.active ==> parted(s.layer1x1.groups, bn, ch)
    &&& !s.layer1x1.active ==> bn == ch
    &&& s.head1x1.active ==> parted(s.head1x1.groups, bn, shown)
    &&& site_parted(s.conv_pre_film, ch, cond)
    &&& site_parted(s.conv_post_film, mid, cond)
    &&& site_parted(s.input_mixin_pre_film, cond, cond)
    &&& site_parted(s.input_mixin_post_film, mid, cond)
    &&& site_parted(s.activation_pre_film, mid, cond)
    &&& site_parted(s.activation_post_film, bn, cond)
    &&& site_parted(s.layer1x1_post_film, ch, cond)
    &&& site_parted(s.head1x1_post_film, shown, cond)
}

/// Whether array `a` agrees with what stands before it: it takes the channels of the array
/// before it, the first a single one, and adds to a head as wide as what that array hands
/// on.
pub open spec fn array_follows(c: WaveNetShape, a: int) -> bool {
    let cond = match c.condition_dsp {
        Some(d) => rows_of(*d),
        None => 1,
    };
    &&& a == 0 ==> array_agrees(c.layers[a], 1, cond)
    &&& a > 0 ==> array_agrees(c.layers[a], c.layers[a - 1].channels as nat, cond)
    &&& a > 0 ==> width_shown(c.layers[a]) == c.layers[a - 1].head_size
}

/// Whether the post-stack head can be had: it has convolutions, each with a tap, gives one
/// channel, and has an activation that there is.
pub open spec fn head_agrees(h: PostHeadShape) -> bool {
    &&& h.out_channels == 1
    &&& h.kernel_sizes.len() > 0
    &&& forall|i: int| 0 <= i < h.kernel_sizes.len() ==> #[trigger] h.kernel_sizes[i] >= 1
    &&& known(h.activation)
}

/// Whether everything in the file of a WaveNet agrees.
pub open spec fn wavenet_agrees(m: NamShape) -> bool {
    let c = m.config->WaveNet_0;
    &&& m.config is WaveNet
    &&& c.in_channels == 1
    &&& c.condition_dsp matches Some(d) ==> engine_failure(*d) is None
    &&& forall|a: int| 0 <= a < c.layers.len() ==> #[trigger] array_follows(c, a)
    &&& c.post_stack_head matches Some(h) ==> head_agrees(h)
    &&& m.weights.len() == c.count()
}

proof fn lemma_known(choice: ActivationChoice)
    ensures
        known(choice) == resolved(choice) is Ok,
{
}

proof fn lemma_condition_of(c: WaveNetShape, n: nat, a: int)
    requires
        c.condition_failure(n) is None,
        0 <= a < n,
    ensures
        c.layers[a].condition_size == c.condition_rows(),
    decreases n,
{
    if a < n - 1 {
        lemma_condition_of(c, (n - 1) as nat, a);
    }
}

proof fn lemma_carry_of(c: WaveNetShape, n: nat, a: int)
    requires
        c.carry_failure(n) is None,
        0 < a < n,
    ensures
        c.layers[a - 1].head_size == c.layers[a].head_in(),
    decreases n,
{
    if a < n - 1 {
        lemma_carry_of(c, (n - 1) as nat, a);
    }
}

/// An array is sound where its parts agree.
proof fn lemma_array_sound(s: ArrayShape, input: nat)
    requires
        s.wf(),
    ensures
        array_agrees(s, input, s.condition_size as nat) ==> s.sound(input),
        s.sound(input) && (forall|i: int| 0 <= i < s.dilations.len() ==> #[trigger] layer_agrees(s, i))
            ==> array_agrees(s, input, s.condition_size as nat),
{
    if forall|i: int| 0 <= i < s.dilations.len() ==> #[trigger] layer_agrees(s, i) {
        assert forall|i: int| 0 <= i < s.kernel_sizes.len() implies #[trigger] s.kernel_sizes[i]
            >= 1 by {
            assert(layer_agrees(s, i));
        }
    }
}

/// In a file of which a WaveNet can be built everything agrees: the widths of what is
/// joined, the groups with the widths, the gating modes of an array, the names of the
/// activations, and the number of the weights.
pub proof fn lemma_what_builds_agrees(m: NamShape)
    requires
        m.wf(),
        wavenet_failure(m) is None,
    ensures
        wavenet_agrees(m),
{
    let c = m.config->WaveNet_0;
    let n = c.layers.len();
    assert forall|a: int| 0 <= a < n implies #[trigger] array_follows(c, a) by {
        let s = c.layers[a];
        lemma_array_builds(c, n, a);
        lemma_one_mode(c, a);
        lemma_condition_of(c, n, a);
        if a > 0 {
            lemma_carry_of(c, n, a);
        }
        assert forall|i: int| 0 <= i < s.dilations.len() implies #[trigger] layer_agrees(s, i) by {
            lemma_activations_resolve(s, s.kernel_sizes.len(), i);
            lemma_known(s.activations[i]);
            lemma_known(s.secondary_activations[i]);
        }
        lemma_array_sound(s, c.array_input(a));
    }
    if let Some(h) = c.post_stack_head {
        lemma_known(h.activation);
        assert forall|i: int| 0 <= i < h.kernel_sizes.len() implies #[trigger] h.kernel_sizes[i]
            >= 1 by {}
    }
}

// ---- What agrees ----

proof fn lemma_condition_agrees(c: WaveNetShape, n: nat)
    requires
        n <= c.layers.len(),
        forall|a: int| 0 <= a < c.layers.len() ==> #[trigger] array_follows(c, a),
    ensures
        c.condition_failure(n) is None,
    decreases n,
{
    if n > 0 {
        lemma_condition_agrees(c, (n - 1) as nat);
        assert(array_follows(c, n - 1));
    }
}

proof fn lemma_carry_agrees(c: WaveNetShape, n: nat)
    requires
        n <= c.layers.len(),
        forall|a: int| 0 <= a < c.layers.len() ==> #[trigger] array_follows(c, a),
    ensures
        c.carry_failure(n) is None,
    decreases n,
{
    if n > 1 {
        lemma_carry_agrees(c, (n - 1) as nat);
        assert(array_follows(c, n - 1));
    }
}

proof fn lemma_activations_agree(s: ArrayShape, n: nat)
    requires
        n <= s.dilations.len(),
        forall|i: int| 0 <= i < s.dilations.len() ==> #[trigger] layer_agrees(s, i),
    ensures
        s.activation_failure(n) is None,
    decreases n,
{
    if n > 0 {
        lemma_activations_agree(s, (n - 1) as nat);
        assert(layer_agrees(s, n - 1));
        lemma_known(s.activations[n - 1]);
        lemma_known(s.secondary_activations[n - 1]);
    }
}

/// Whether nothing but a size stands in the way.
spec fn at_most_too_large(f: Option<Failure>) -> bool {
    f is None || f == Some(Failure::ConfigTooLarge)
}

proof fn lemma_array_agrees_builds(c: WaveNetShape, a: int)
    requires
        0 <= a < c.layers.len(),
        c.layers[a].wf(),
        array_follows(c, a),
    ensures
        at_most_too_large(c.layers[a].count_failure()),
        at_most_too_large(c.layers[a].build_failure(c.array_input(a))),
{
    let s = c.layers[a];
    lemma_array_sound(s, c.array_input(a));
    lemma_activations_agree(s, s.dilations.len());
    assert(!s.has_zero_groups());
}

proof fn lemma_arrays_agree(c: WaveNetShape, n: nat)
    requires
        n <= c.layers.len(),
        forall|a: int| 0 <= a < c.layers.len() ==> (#[trigger] c.layers[a]).wf(),
        forall|a: int| 0 <= a < c.layers.len() ==> #[trigger] array_follows(c, a),
    ensures
        at_most_too_large(c.arrays_failure(n)),
        at_most_too_large(c.arrays_build_failure(n)),
    decreases n,
{
    if n > 0 {
        lemma_arrays_agree(c, (n - 1) as nat);
        assert(array_follows(c, n - 1));
        lemma_array_agrees_builds(c, n - 1);
    }
}

proof fn lemma_modes_agree(c: WaveNetShape)
    requires
        forall|a: int| 0 <= a < c.layers.len() ==> (#[trigger] c.layers[a]).wf(),
        forall|a: int| 0 <= a < c.layers.len() ==> #[trigger] array_follows(c, a),
    ensures
        !c.mixes_gating(),
{
    assert forall|i: int, j: int|
        0 <= i < c.layers.len() && 0 <= j
            < c.layers[i].gating_modes.len() implies #[trigger] c.layers[i].gating_modes[j]
        == c.layers[i].gating_modes[0] by {
        assert(array_follows(c, i));
        assert(c.layers[i].wf());
        assert(layer_agrees(c.layers[i], j));
    }
}

/// Of a file in which everything agrees a WaveNet can be built, unless it is too large.
pub proof fn lemma_what_agrees_builds(m: NamShape)
    requires
        m.wf(),
        wavenet_agrees(m),
    ensures
        wavenet_failure(m) is None || wavenet_failure(m) == Some(Failure::ConfigTooLarge),
{
    let c = m.config->WaveNet_0;
    let n = c.layers.len();
    lemma_arrays_agree(c, n);
    lemma_condition_agrees(c, n);
    lemma_carry_agrees(c, n);
    lemma_modes_agree(c);
    if let Some(h) = c.post_stack_head {
        lemma_known(h.activation);
    }
}

/// Whether everything in the file of a WaveNet agrees but perhaps the number of its weights.
pub open spec fn wavenet_agrees_but_for_weights(m: NamShape) -> bool {
    let c = m.config->WaveNet_0;
    &&& m.config is WaveNet
    &&& c.in_channels == 1
    &&& c.condition_dsp matches Some(d) ==> engine_failure(*d) is None
    &&& forall|a: int| 0 <= a < c.layers.len() ==> #[trigger] array_follows(c, a)
    &&& c.post_stack_head matches Some(h) ==> head_agrees(h)
}

/// Where there are too few weights or too many, the WaveNet cannot be built: the failure says
/// how many there should be and how many there are, unless it is too large.
pub proof fn lemma_wavenet_miscounted(m: NamShape)
    requires
        m.wf(),
        wavenet_agrees_but_for_weights(m),
        m.weights.len() != m.config->WaveNet_0.count(),
    ensures
        wavenet_failure(m) == Some(Failure::ConfigTooLarge) || wavenet_failure(m) == Some(
            Failure::WeightCountMismatch {
                expected: m.config->WaveNet_0.count(),
                found: m.weights.len(),
            },
        ),
{
    let c = m.config->WaveNet_0;
    let n = c.layers.len();
    lemma_arrays_agree(c, n);
    lemma_condition_agrees(c, n);
    lemma_modes_agree(c);
}

// ---- LSTMs ----

/// Weights of an LSTM: of each layer four rows of the matrix for every unit, as wide as
/// its input and its hidden state, four biases for every unit, and what every unit holds at
/// first; then a weight of the head for every unit of the last layer, and its bias.
pub open spec fn lstm_weights(cfg: LstmConfig) -> int {
    let h = cfg.hidden_size as int;
    let first = 4 * h * (cfg.input_size + h) + 6 * h;
    let later = 4 * h * (h + h) + 6 * h;
    if cfg.num_layers == 0 {
        h + 1
    } else {
        first + (cfg.num_layers - 1) * later + h + 1
    }
}

/// An LSTM can be built of exactly as many weights as its layers and its head have; where it
/// has a layer, the first takes a single input. Where there are too few weights or too many,
/// the failure says how many there should be and how many there are.
pub proof fn lemma_which_lstms_build(m: NamShape)
    requires
        m.config is Lstm,
        m.weights.len() <= usize::MAX,
    ensures
        ({
            let cfg = m.config->Lstm_0;
            &&& lstm_failure(m) is None <==> {
                &&& m.weights.len() == lstm_weights(cfg)
                &&& cfg.num_layers > 0 ==> cfg.input_size == 1
            }
            &&& lstm_weights(cfg) <= usize::MAX && m.weights.len() != lstm_weights(cfg)
                ==> lstm_failure(m) == Some(
                Failure::WeightCountMismatch {
                    expected: lstm_weights(cfg) as nat,
                    found: m.weights.len(),
                },
            )
        }),
{
    let cfg = m.config->Lstm_0;
    if cfg.num_layers > 0 {
        lemma_cells_count(cfg, cfg.num_layers as nat);
    }
}

// ---- Containers ----

proof fn lemma_submodels_build(subs: Seq<SubmodelShape>, n: nat, k: int)
    requires
        0 <= k < n <= subs.len(),
        engine_failure(subs[k].model) is Some,
        forall|i: int| 0 <= i < k ==> engine_failure((#[trigger] subs[i]).model) is None,
    ensures
        submodels_failure(subs, k as nat) is None,
        submodels_failure(subs, n) == engine_failure(subs[k].model),
    decreases n,
{
    lemma_all_build(subs, k as nat);
    if k < n - 1 {
        lemma_submodels_build(subs, (n - 1) as nat, k);
    }
}

proof fn lemma_all_build(subs: Seq<SubmodelShape>, n: nat)
    requires
        n <= subs.len(),
        forall|i: int| 0 <= i < n ==> engine_failure((#[trigger] subs[i]).model) is None,
    ensures
        submodels_failure(subs, n) is None,
    decreases n,
{
    if n > 0 {
        lemma_all_build(subs, (n - 1) as nat);
    }
}

/// A container with submodels can be built where each of them can.
pub proof fn lemma_containers_build(m: NamShape)
    requires
        m.config is Slimmable,
        m.config->Slimmable_0.len() > 0,
        forall|i: int|
            0 <= i < m.config->Slimmable_0.len() ==> engine_failure(
                (#[trigger] m.config->Slimmable_0[i]).model,
            ) is None,
    ensures
        engine_failure(m) is None,
{
    lemma_all_build(m.config->Slimmable_0, m.config->Slimmable_0.len());
}

/// Where a submodel cannot be built, the container cannot either, for the reason of the
/// first such submodel.
pub proof fn lemma_containers_fail(m: NamShape, k: int)
    requires
        m.config is Slimmable,
        0 <= k < m.config->Slimmable_0.len(),
        engine_failure(m.config->Slimmable_0[k].model) is Some,
        forall|i: int|
            0 <= i < k ==> engine_failure((#[trigger] m.config->Slimmable_0[i]).model) is None,
    ensures
        engine_failure(m) == engine_failure(m.config->Slimmable_0[k].model),
{
    lemma_submodels_build(m.config->Slimmable_0, m.config->Slimmable_0.len(), k);
}

} // verus!
