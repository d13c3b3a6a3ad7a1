//! The on-disk `.nam` file format: its types, and how they are read from JSON.

use vstd::prelude::*;
use crate::json::{Json, JsonNumber, JsonTree};

verus! {

/// How a layer-array's `activation` field was specified in the `.nam`.
///
/// NAM A1 writes a bare string (`"Tanh"`); A2 may write a dict
/// (`{"type": "LeakyReLU", "negative_slope": 0.01}`). Any other shape is captured as
/// [`ActivationSpec::Unsupported`], which the runtime rejects with
/// [`crate::error::Error::UnsupportedFeature`] rather than silently mis-running.
#[derive(Debug, PartialEq)]
pub enum ActivationSpec {
    /// A single named activation, with an optional negative slope (LeakyReLU).
    Named {
        /// Activation name, e.g. `"Tanh"`, `"ReLU"`, `"LeakyReLU"`.
        name: String,
        /// LeakyReLU negative slope, if the file specified one. `None`: the runtime
        /// applies NAM's default of `0.01`.
        negative_slope: Option<JsonNumber>,
    },
    /// A shape this crate does not model.
    Unsupported(Json),
}

/// The mathematical content of an [`ActivationSpec`].
pub enum ActivationChoice {
    Named { name: Seq<char>, negative_slope: Option<JsonNumber> },
    Unsupported(JsonTree),
}

impl ActivationSpec {
    pub open spec fn view(&self) -> ActivationChoice {
        match self {
            ActivationSpec::Named { name, negative_slope } => ActivationChoice::Named {
                name: name@,
                negative_slope: *negative_slope,
            },
            ActivationSpec::Unsupported(v) => ActivationChoice::Unsupported(v@),
        }
    }
}

impl Clone for ActivationSpec {
    fn clone(&self) -> (r: ActivationSpec)
        ensures
            r@ == self@,
    {
        match self {
            ActivationSpec::Named { name, negative_slope } => ActivationSpec::Named {
                name: name.clone(),
                negative_slope: *negative_slope,
            },
            ActivationSpec::Unsupported(v) => ActivationSpec::Unsupported(v.clone()),
        }
    }
}

/// Activation gating mode for a WaveNet layer.
#[derive(Debug, Clone, Copy, PartialEq, Eq, Structural)]
pub enum GatingMode {
    /// No gating: `out = activation(z)`.
    Ungated,
    /// Gated: `out = primary(z_a) * secondary(z_b)` (classic `tanh*sigmoid`).
    Gated,
    /// Blended: `out = a*primary(z_a) + (1-a)*z_a` with `a = secondary(z_b)`.
    Blended,
}

/// A layer's residual 1x1 (`layer1x1`): maps the activated bottleneck back to
/// `channels`. Active by default (the A1 `_1x1`).
#[derive(Debug, Clone, Copy, PartialEq, Eq, Structural)]
pub struct Layer1x1Config {
    /// Whether the 1x1 is present (inactive: identity residual, needs
    /// bottleneck == channels).
    pub active: bool,
    /// Grouped-conv group count (1 = dense).
    pub groups: usize,
}

/// A layer's head 1x1 (`head1x1`): an optional 1x1 producing this layer's head
/// contribution. Inactive by default (then the head contribution is the activated
/// bottleneck directly).
#[derive(Debug, Clone, Copy, PartialEq, Eq)]
pub struct Head1x1Config {
    /// Whether the head 1x1 is present.
    pub active: bool,
    /// Output channels (defaults to `channels` when active and unspecified).
    pub out_channels: Option<usize>,
    /// Grouped-conv group count.
    pub groups: usize,
}

/// One FiLM block (`*_pre_film` / `*_post_film`): conditions a scale (and an optional
/// shift) from the conditioning signal. Absent or `false`: inactive.
#[derive(Debug, Clone, Copy, PartialEq, Eq, Structural)]
pub struct FilmConfig {
    /// Whether this FiLM site is applied.
    pub active: bool,
    /// Whether it adds a shift term (else scale-only).
    pub shift: bool,
    /// Grouped-conv group count for the conditioning 1x1.
    pub groups: usize,
}

/// Post-stack head (`config.head`): a stack of `activation -> Conv1D` applied after
/// the layer-arrays. Absent for A1.
#[derive(Debug)]
pub struct PostStackHeadConfig {
    /// Hidden channel count between head convs.
    pub channels: usize,
    /// Final output channels.
    pub out_channels: usize,
    /// Per-conv kernel sizes (one conv per entry).
    pub kernel_sizes: Vec<usize>,
    /// Activation applied before each head conv.
    pub activation: ActivationSpec,
}

/// Configuration for one WaveNet layer-array, normalized so every per-layer quantity
/// is a `Vec` of length `dilations.len()`. A1 files fill the A2 fields with defaults.
#[derive(Debug)]
pub struct LayerArrayConfig {
    /// Input channels into the array (1 for the first array).
    pub input_size: usize,
    /// Conditioning signal width.
    pub condition_size: usize,
    /// Hidden channel count between layers.
    pub channels: usize,
    /// Internal per-layer width (defaults to `channels`).
    pub bottleneck: usize,
    /// Per-layer dilation factors; its length defines the number of layers.
    pub dilations: Vec<usize>,
    /// Per-layer dilated-conv kernel sizes.
    pub kernel_sizes: Vec<usize>,
    /// Per-layer primary activations.
    pub activations: Vec<ActivationSpec>,
    /// Per-layer gating modes.
    pub gating_modes: Vec<GatingMode>,
    /// Per-layer secondary activations (for gating); `Named{"Sigmoid"}` where
    /// unspecified.
    pub secondary_activations: Vec<ActivationSpec>,
    /// Grouped-conv groups for the dilated conv.
    pub groups_input: usize,
    /// Grouped-conv groups for the input mixer.
    pub groups_input_mixin: usize,
    /// Head rechannel output width.
    pub head_size: usize,
    /// Head rechannel kernel size (1 for A1; e.g. 16 for A2 conv heads).
    pub head_kernel_size: usize,
    /// Whether the head rechannel has a bias.
    pub head_bias: bool,
    /// Residual 1x1 config.
    pub layer1x1: Layer1x1Config,
    /// Head 1x1 config.
    pub head1x1: Head1x1Config,
    /// FiLM: applied to the layer input before the dilated conv.
    pub conv_pre_film: FilmConfig,
    /// FiLM: applied to the dilated-conv output.
    pub conv_post_film: FilmConfig,
    /// FiLM: applied to the conditioning before the input mixer.
    pub input_mixin_pre_film: FilmConfig,
    /// FiLM: applied to the input-mixer output.
    pub input_mixin_post_film: FilmConfig,
    /// FiLM: applied to the conv+mixin sum before activation.
    pub activation_pre_film: FilmConfig,
    /// FiLM: applied to the activation output.
    pub activation_post_film: FilmConfig,
    /// FiLM: applied to the layer1x1 output (blended gating only).
    pub layer1x1_post_film: FilmConfig,
    /// FiLM: applied to the head1x1 output.
    pub head1x1_post_film: FilmConfig,
}

/// WaveNet configuration: layer-arrays, optional post-stack head and condition DSP,
/// and the output scale. Per-layer quantities are normalized into `Vec`s.
#[derive(Debug)]
pub struct WaveNetConfig {
    /// One config per layer-array.
    pub layers: Vec<LayerArrayConfig>,
    /// Optional post-stack head (`config.head`).
    pub post_stack_head: Option<PostStackHeadConfig>,
    /// Output gain (note: the runtime value is the trailing weight).
    pub head_scale: JsonNumber,
    /// Input channels (default 1).
    pub in_channels: usize,
    /// Optional nested conditioning DSP.
    pub condition_dsp: Option<Box<NamModel>>,
}

/// LSTM configuration.
#[derive(Debug, Clone, Copy, PartialEq, Eq, Structural)]
pub struct LstmConfig {
    /// Input width (1 for mono amp models).
    pub input_size: usize,
    /// Hidden state dimension `H`.
    pub hidden_size: usize,
    /// Number of stacked LSTM layers `L`.
    pub num_layers: usize,
}

/// One entry in a [`SlimmableConfig`]: a complete standalone submodel plus the
/// width-dial threshold at which it becomes active.
#[derive(Debug)]
pub struct SlimmableSubmodel {
    /// Upper width-dial value this submodel covers.
    pub max_value: JsonNumber,
    /// The submodel itself: a full standalone `.nam` of any architecture.
    pub model: NamModel,
}

/// `SlimmableContainer` configuration: an ordered list of standalone submodels
/// selected at runtime by a width dial. The container holds no weights of its own.
#[derive(Debug)]
pub struct SlimmableConfig {
    /// Submodels in ascending `max_value` order; the last is the full-width model.
    pub submodels: Vec<SlimmableSubmodel>,
}

/// Architecture-specific configuration, tagged by `NamModel.architecture`.
#[derive(Debug)]
pub enum ModelConfig {
    /// WaveNet: a stack of dilated-convolution layer-arrays.
    WaveNet(WaveNetConfig),
    /// LSTM: stacked recurrent layers plus a linear head.
    Lstm(LstmConfig),
    /// SlimmableContainer: a width-selectable set of standalone submodels.
    Slimmable(SlimmableConfig),
}

/// A parsed `.nam` model file.
///
/// This is the *file representation*: the config and the flat weight blob. To run
/// inference, build a [`crate::model_runtime::Model`] from it.
#[derive(Debug)]
pub struct NamModel {
    /// `.nam` format version string (e.g. `"0.5.4"`).
    pub version: String,
    /// Model architecture, e.g. `"WaveNet"`.
    pub architecture: String,
    /// Architecture-specific configuration (dispatched on [`Self::architecture`]).
    pub config: ModelConfig,
    /// Flat weight blob. The final element of a WaveNet's is `head_scale`.
    pub weights: Vec<JsonNumber>,
    /// Training sample rate. Absent in older files; see
    /// [`Self::expected_sample_rate`].
    pub sample_rate: Option<JsonNumber>,
    /// Opaque training/gear metadata. Not used for inference.
    pub metadata: Option<Json>,
}

/// The mathematical content of a [`PostStackHeadConfig`].
#[verifier::ext_equal]
pub struct PostHeadShape {
    pub channels: usize,
    pub out_channels: usize,
    pub kernel_sizes: Seq<usize>,
    pub activation: ActivationChoice,
}

/// The mathematical content of a [`LayerArrayConfig`].
#[verifier::ext_equal]
pub struct ArrayShape {
    pub input_size: usize,
    pub condition_size: usize,
    pub channels: usize,
    pub bottleneck: usize,
    pub dilations: Seq<usize>,
    pub kernel_sizes: Seq<usize>,
    pub activations: Seq<ActivationChoice>,
    pub gating_modes: Seq<GatingMode>,
    pub secondary_activations: Seq<ActivationChoice>,
    pub groups_input: usize,
    pub groups_input_mixin: usize,
    pub head_size: usize,
    pub head_kernel_size: usize,
    pub head_bias: bool,
    pub layer1x1: Layer1x1Config,
    pub head1x1: Head1x1Config,
    pub conv_pre_film: FilmConfig,
    pub conv_post_film: FilmConfig,
    pub input_mixin_pre_film: FilmConfig,
    pub input_mixin_post_film: FilmConfig,
    pub activation_pre_film: FilmConfig,
    pub activation_post_film: FilmConfig,
    pub layer1x1_post_film: FilmConfig,
    pub head1x1_post_film: FilmConfig,
}

/// The mathematical content of a [`WaveNetConfig`].
#[verifier::ext_equal]
pub struct WaveNetShape {
    pub layers: Seq<ArrayShape>,
    pub post_stack_head: Option<PostHeadShape>,
    pub head_scale: JsonNumber,
    pub in_channels: usize,
    pub condition_dsp: Option<Box<NamShape>>,
}

/// The mathematical content of a [`SlimmableSubmodel`].
#[verifier::ext_equal]
pub struct SubmodelShape {
    pub max_value: JsonNumber,
    pub model: NamShape,
}

/// The mathematical content of a [`ModelConfig`].
#[verifier::ext_equal]
pub enum ConfigShape {
    WaveNet(WaveNetShape),
    Lstm(LstmConfig),
    Slimmable(Seq<SubmodelShape>),
}

/// The mathematical content of a [`NamModel`].
#[verifier::ext_equal]
pub struct NamShape {
    pub version: Seq<char>,
    pub architecture: Seq<char>,
    pub config: ConfigShape,
    pub weights: Seq<JsonNumber>,
    pub sample_rate: Option<JsonNumber>,
    pub metadata: Option<JsonTree>,
}

/// The contents of a run of activation choices.
pub open spec fn choices(specs: Seq<ActivationSpec>) -> Seq<ActivationChoice> {
    Seq::new(specs.len(), |i: int| specs[i]@)
}

/// The contents of an optional document.
pub open spec fn tree_of(v: Option<Json>) -> Option<JsonTree> {
    match v {
        Some(j) => Some(j@),
        None => None,
    }
}

impl PostStackHeadConfig {
    pub open spec fn view(&self) -> PostHeadShape {
        PostHeadShape {
            channels: self.channels,
            out_channels: self.out_channels,
            kernel_sizes: self.kernel_sizes@,
            activation: self.activation@,
        }
    }
}

/// The contents of an optional post-stack head.
pub open spec fn post_head_of(h: Option<PostStackHeadConfig>) -> Option<PostHeadShape> {
    match h {
        Some(c) => Some(c@),
        None => None,
    }
}

impl ArrayShape {
    /// Every per-layer quantity is given for every layer, and there is a layer.
    pub open spec fn wf(self) -> bool {
        let n = self.dilations.len();
        &&& n > 0
        &&& self.kernel_sizes.len() == n
        &&& self.activations.len() == n
        &&& self.gating_modes.len() == n
        &&& self.secondary_activations.len() == n
    }
}

impl LayerArrayConfig {
    pub open spec fn view(&self) -> ArrayShape {
        ArrayShape {
            input_size: self.input_size,
            condition_size: self.condition_size,
            channels: self.channels,
            bottleneck: self.bottleneck,
            dilations: self.dilations@,
            kernel_sizes: self.kernel_sizes@,
            activations: choices(self.activations@),
            gating_modes: self.gating_modes@,
            secondary_activations: choices(self.secondary_activations@),
            groups_input: self.groups_input,
            groups_input_mixin: self.groups_input_mixin,
            head_size: self.head_size,
            head_kernel_size: self.head_kernel_size,
            head_bias: self.head_bias,
            layer1x1: self.layer1x1,
            head1x1: self.head1x1,
            conv_pre_film: self.conv_pre_film,
            conv_post_film: self.conv_post_film,
            input_mixin_pre_film: self.input_mixin_pre_film,
            input_mixin_post_film: self.input_mixin_post_film,
            activation_pre_film: self.activation_pre_film,
            activation_post_film: self.activation_post_film,
            layer1x1_post_film: self.layer1x1_post_film,
            head1x1_post_film: self.head1x1_post_film,
        }
    }

    /// The gating mode of the array's first layer, which the others share.
    pub fn gating_mode(&self) -> (r: GatingMode)
        requires
            self@.wf(),
        ensures
            r == self@.gating_modes[0],
    {
        self.gating_modes[0]
    }
}

/// The contents of a run of layer-arrays.
pub open spec fn array_shapes(layers: Seq<LayerArrayConfig>) -> Seq<ArrayShape> {
    Seq::new(layers.len(), |i: int| layers[i]@)
}

impl WaveNetConfig {
    pub open spec fn view(&self) -> WaveNetShape
        decreases self,
    {
        WaveNetShape {
            layers: array_shapes(self.layers@),
            post_stack_head: post_head_of(self.post_stack_head),
            head_scale: self.head_scale,
            in_channels: self.in_channels,
            condition_dsp: match self.condition_dsp {
                Some(m) => Some(Box::new(m.view())),
                None => None,
            },
        }
    }
}

impl SlimmableSubmodel {
    pub open spec fn view(&self) -> SubmodelShape
        decreases self,
    {
        SubmodelShape { max_value: self.max_value, model: self.model.view() }
    }
}

impl ModelConfig {
    pub open spec fn view(&self) -> ConfigShape
        decreases self,
    {
        match self {
            ModelConfig::WaveNet(c) => ConfigShape::WaveNet(c.view()),
            ModelConfig::Lstm(c) => ConfigShape::Lstm(*c),
            ModelConfig::Slimmable(c) => ConfigShape::Slimmable(
                Seq::new(
                    c.submodels@.len(),
                    |i: int|
                        if 0 <= i < c.submodels@.len() {
                            c.submodels@[i].view()
                        } else {
                            arbitrary()
                        },
                ),
            ),
        }
    }
}

impl NamModel {
    pub open spec fn view(&self) -> NamShape
        decreases self,
    {
        NamShape {
            version: self.version@,
            architecture: self.architecture@,
            config: self.config.view(),
            weights: self.weights@,
            sample_rate: self.sample_rate,
            metadata: tree_of(self.metadata),
        }
    }
}

impl NamShape {
    /// Every layer-array of the model, and of the models nested in it, gives its
    /// per-layer quantities for every layer.
    pub open spec fn wf(self) -> bool
        decreases self,
    {
        match self.config {
            ConfigShape::WaveNet(c) => {
                &&& forall|i: int| 0 <= i < c.layers.len() ==> (#[trigger] c.layers[i]).wf()
                &&& match c.condition_dsp {
                    Some(m) => m.wf(),
                    None => true,
                }
            },
            ConfigShape::Lstm(_) => true,
            ConfigShape::Slimmable(subs) => forall|i: int|
                0 <= i < subs.len() ==> (#[trigger] subs[i]).model.wf(),
        }
    }
}

/// Sample rate assumed when a `.nam` file omits the `sample_rate` field.
pub const DEFAULT_SAMPLE_RATE: u64 = 48000;

impl NamShape {
    /// The sample rate of the file, or the default.
    pub open spec fn rate(self) -> JsonNumber {
        match self.sample_rate {
            Some(r) => r,
            None => JsonNumber::PosInt(DEFAULT_SAMPLE_RATE),
        }
    }
}

impl NamModel {
    /// The sample rate, in Hz, the model expects its input to be at, falling back to
    /// [`DEFAULT_SAMPLE_RATE`] when the file does not specify one.
    ///
    /// **You must feed the model audio at this rate.** The forward pass runs at
    /// whatever rate you hand it and does *not* resample. A model captured at one rate
    /// fed audio at another produces silently wrong output: its dilations and
    /// recurrence are defined in samples, not seconds. If your host runs at a
    /// different rate, resample to this rate before and back afterwards.
    #[must_use]
    pub fn expected_sample_rate(&self) -> (r: JsonNumber)
        ensures
            r == self@.rate(),
    {
        match self.sample_rate {
            Some(r) => r,
            None => JsonNumber::PosInt(DEFAULT_SAMPLE_RATE),
        }
    }
}

/// A copy of a vector of plain values.
fn copied<T: Copy>(v: &Vec<T>) -> (r: Vec<T>)
    ensures
        r@ == v@,
{
    let mut out: Vec<T> = Vec::new();
    let mut i: usize = 0;
    assert(v@.take(0) =~= Seq::empty());
    while i < v.len()
        invariant
            i <= v@.len(),
            out@ == v@.take(i as int),
        decreases v@.len() - i,
    {
        out.push(v[i]);
        i += 1;
        assert(out@ =~= v@.take(i as int));
    }
    assert(v@.take(i as int) =~= v@);
    out
}

/// A copy of a run of activations.
fn copied_activations(v: &Vec<ActivationSpec>) -> (r: Vec<ActivationSpec>)
    ensures
        choices(r@) == choices(v@),
{
    let mut out: Vec<ActivationSpec> = Vec::new();
    let mut i: usize = 0;
    while i < v.len()
        invariant
            i <= v@.len(),
            out@.len() == i,
            forall|q: int| 0 <= q < i ==> (#[trigger] out@[q])@ == v@[q]@,
        decreases v@.len() - i,
    {
        out.push(v[i].clone());
        i += 1;
    }
    assert(choices(out@) =~= choices(v@));
    out
}

impl Clone for PostStackHeadConfig {
    fn clone(&self) -> (r: PostStackHeadConfig)
        ensures
            r@ == self@,
    {
        PostStackHeadConfig {
            channels: self.channels,
            out_channels: self.out_channels,
            kernel_sizes: copied(&self.kernel_sizes),
            activation: self.activation.clone(),
        }
    }
}

impl Clone for LayerArrayConfig {
    fn clone(&self) -> (r: LayerArrayConfig)
        ensures
            r@ == self@,
    {
        LayerArrayConfig {
            dilations: copied(&self.dilations),
            kernel_sizes: copied(&self.kernel_sizes),
            activations: copied_activations(&self.activations),
            gating_modes: copied(&self.gating_modes),
            secondary_activations: copied_activations(&self.secondary_activations),
            input_size: self.input_size,
            condition_size: self.condition_size,
            channels: self.channels,
            bottleneck: self.bottleneck,
            groups_input: self.groups_input,
            groups_input_mixin: self.groups_input_mixin,
            head_size: self.head_size,
            head_kernel_size: self.head_kernel_size,
            head_bias: self.head_bias,
            layer1x1: self.layer1x1,
            head1x1: self.head1x1,
            conv_pre_film: self.conv_pre_film,
            conv_post_film: self.conv_post_film,
            input_mixin_pre_film: self.input_mixin_pre_film,
            input_mixin_post_film: self.input_mixin_post_film,
            activation_pre_film: self.activation_pre_film,
            activation_post_film: self.activation_post_film,
            layer1x1_post_film: self.layer1x1_post_film,
            head1x1_post_film: self.head1x1_post_film,
        }
    }
}

/// A copy of a run of layer-arrays.
fn copied_arrays(v: &Vec<LayerArrayConfig>) -> (r: Vec<LayerArrayConfig>)
    ensures
        array_shapes(r@) == array_shapes(v@),
{
    let mut out: Vec<LayerArrayConfig> = Vec::new();
    let mut i: usize = 0;
    while i < v.len()
        invariant
            i <= v@.len(),
            out@.len() == i,
            forall|q: int| 0 <= q < i ==> (#[trigger] out@[q])@ == v@[q]@,
        decreases v@.len() - i,
    {
        out.push(v[i].clone());
        i += 1;
    }
    assert(array_shapes(out@) =~= array_shapes(v@));
    out
}

impl WaveNetConfig {
    fn copy(&self) -> (r: WaveNetConfig)
        ensures
            r@ == self@,
        decreases self@,
    {
        let post_stack_head = match &self.post_stack_head {
            Some(h) => Some(h.clone()),
            None => None,
        };
        let condition_dsp = match &self.condition_dsp {
            Some(m) => {
                assert(*self@.condition_dsp->Some_0 == m@);
                Some(Box::new(m.copy()))
            },
            None => None,
        };
        let r = WaveNetConfig {
            layers: copied_arrays(&self.layers),
            post_stack_head,
            head_scale: self.head_scale,
            in_channels: self.in_channels,
            condition_dsp,
        };
        assert(r@ =~= self@);
        r
    }
}

impl SlimmableSubmodel {
    fn copy(&self) -> (r: SlimmableSubmodel)
        ensures
            r@ == self@,
        decreases self@,
    {
        assert(self@.model == self.model@);
        SlimmableSubmodel { max_value: self.max_value, model: self.model.copy() }
    }
}

impl SlimmableConfig {
    /// The contents of the submodels.
    pub open spec fn view(&self) -> Seq<SubmodelShape> {
        ModelConfig::Slimmable(*self)@->Slimmable_0
    }

    fn copy(&self) -> (r: SlimmableConfig)
        ensures
            r@ == self@,
        decreases self@,
    {
        let mut out: Vec<SlimmableSubmodel> = Vec::new();
        let mut i: usize = 0;
        while i < self.submodels.len()
            invariant
                i <= self.submodels@.len(),
                out@.len() == i,
                forall|q: int| 0 <= q < i ==> (#[trigger] out@[q])@ == self.submodels@[q]@,
            decreases self.submodels@.len() - i,
        {
            assert(self@[i as int] == self.submodels@[i as int]@);
            out.push(self.submodels[i].copy());
            i += 1;
        }
        let r = SlimmableConfig { submodels: out };
        assert(r@ =~= self@);
        r
    }
}

impl ModelConfig {
    fn copy(&self) -> (r: ModelConfig)
        ensures
            r@ == self@,
        decreases self@,
    {
        match self {
            ModelConfig::WaveNet(c) => {
                assert(self@->WaveNet_0 == c@);
                ModelConfig::WaveNet(c.copy())
            },
            ModelConfig::Lstm(c) => ModelConfig::Lstm(*c),
            ModelConfig::Slimmable(c) => {
                assert(self@->Slimmable_0 =~= c@);
                ModelConfig::Slimmable(c.copy())
            },
        }
    }
}

impl NamModel {
    fn copy(&self) -> (r: NamModel)
        ensures
            r@ == self@,
        decreases self@,
    {
        let metadata = match &self.metadata {
            Some(j) => Some(j.clone()),
            None => None,
        };
        assert(self@.config == self.config@);
        NamModel {
            version: self.version.clone(),
            architecture: self.architecture.clone(),
            config: self.config.copy(),
            weights: copied(&self.weights),
            sample_rate: self.sample_rate,
            metadata,
        }
    }
}

impl Clone for WaveNetConfig {
    fn clone(&self) -> (r: WaveNetConfig)
        ensures
            r@ == self@,
    {
        self.copy()
    }
}

impl Clone for SlimmableSubmodel {
    fn clone(&self) -> (r: SlimmableSubmodel)
        ensures
            r@ == self@,
    {
        self.copy()
    }
}

impl Clone for SlimmableConfig {
    fn clone(&self) -> (r: SlimmableConfig)
        ensures
            r@ == self@,
    {
        self.copy()
    }
}

impl Clone for ModelConfig {
    fn clone(&self) -> (r: ModelConfig)
        ensures
            r@ == self@,
    {
        self.copy()
    }
}

impl Clone for NamModel {
    fn clone(&self) -> (r: NamModel)
        ensures
            r@ == self@,
    {
        self.copy()
    }
}

} // verus!
