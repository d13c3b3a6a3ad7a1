//! Reading layer-arrays, and normalizing what they say of their layers.

use vstd::prelude::*;
use crate::json::{Json, JsonTree};
use crate::model::{
    choices, tree_of, ActivationChoice, ActivationSpec, ArrayShape, FilmConfig, GatingMode,
    Head1x1Config, Layer1x1Config, LayerArrayConfig,
};
use crate::parser::fields::{
    lemma_field, list_of, maybe_field, maybe_flag_field, maybe_size_field, maybe_sizes_field, read_maybe,
    read_maybe_flag, read_maybe_size, read_maybe_sizes, read_size_field, read_sizes_field,
    size_field, sizes_field,
};
use crate::parser::options::{
    activation_of, film_of, flag, gating_named, head1x1_of, layer1x1_of, read_flag, read_size, said,
    sigmoid_choice, size,
};
use crate::parser::records::{array_record, complain, layer_array, shape_complaint, Kind};
use crate::text::{decimal, Text};

verus! {

// ---- Per-layer quantities ----

/// The complaint that a per-layer list has the wrong length.
pub open spec fn length_complaint(what: Seq<char>, len: nat, middle: Seq<char>, n: nat) -> Seq<
    char,
> {
    what + decimal(len) + middle + decimal(n)
}

pub(crate) fn complain_length(what: &str, len: usize, middle: &str, n: usize) -> (r: String)
    ensures
        r@ == length_complaint(what@, len as nat, middle@, n as nat),
{
    let text = Text::new().and(what).and_number(len).and(middle).and_number(n);
    assert(text@ =~= length_complaint(what@, len as nat, middle@, n as nat));
    text.done()
}

/// One activation for all layers, or a list with one for each.
pub open spec fn activations_of(v: JsonTree, n: nat) -> Result<Seq<ActivationChoice>, Seq<char>> {
    match v {
        JsonTree::Array(items) => if items.len() != n {
            Err(
                length_complaint(
                    "activation list length "@,
                    items.len(),
                    " != number of layers "@,
                    n,
                ),
            )
        } else {
            Ok(Seq::new(n, |i: int| activation_of(items[i])))
        },
        _ => Ok(Seq::new(n, |i: int| activation_of(v))),
    }
}

/// A secondary activation: the sigmoid where it is `null`.
pub open spec fn secondary_of(v: JsonTree) -> ActivationChoice {
    if v == JsonTree::Null {
        sigmoid_choice()
    } else {
        activation_of(v)
    }
}

/// One secondary activation for all layers, or a list with one for each.
pub open spec fn secondaries_of(v: JsonTree, n: nat) -> Result<Seq<ActivationChoice>, Seq<char>> {
    match v {
        JsonTree::Array(items) => if items.len() != n {
            Err(
                length_complaint("secondary_activation list length "@, items.len(), " != "@, n),
            )
        } else {
            Ok(Seq::new(n, |i: int| secondary_of(items[i])))
        },
        _ => Ok(Seq::new(n, |i: int| secondary_of(v))),
    }
}

/// The first `k` gating modes of a list, or the first complaint among them.
pub open spec fn gatings_listed(items: Seq<JsonTree>, k: nat) -> Result<
    Seq<GatingMode>,
    Seq<char>,
>
    decreases k,
{
    if k == 0 {
        Ok(Seq::empty())
    } else {
        match gatings_listed(items, (k - 1) as nat) {
            Err(m) => Err(m),
            Ok(before) => match items[k - 1] {
                JsonTree::String(s) => match gating_named(s) {
                    Ok(g) => Ok(before.push(g)),
                    Err(m) => Err(m),
                },
                _ => Err("gating_mode entry is not a string"@),
            },
        }
    }
}

/// One gating mode for all layers, or a list with one for each.
pub open spec fn gatings_of(v: JsonTree, n: nat) -> Result<Seq<GatingMode>, Seq<char>> {
    match v {
        JsonTree::String(s) => match gating_named(s) {
            Ok(g) => Ok(Seq::new(n, |i: int| g)),
            Err(m) => Err(m),
        },
        JsonTree::Array(items) => if items.len() != n {
            Err(
                length_complaint(
                    "gating_mode list length "@,
                    items.len(),
                    " != number of layers "@,
                    n,
                ),
            )
        } else {
            gatings_listed(items, n)
        },
        _ => Err("gating_mode is neither a string nor a list"@),
    }
}

/// The contents of an outcome with a list of activations.
pub open spec fn said_choices(r: Result<Vec<ActivationSpec>, String>) -> Result<
    Seq<ActivationChoice>,
    Seq<char>,
> {
    match r {
        Ok(v) => Ok(choices(v@)),
        Err(m) => Err(m@),
    }
}

/// The contents of an outcome with a list.
pub open spec fn said_list<T>(r: Result<Vec<T>, String>) -> Result<Seq<T>, Seq<char>> {
    match r {
        Ok(v) => Ok(v@),
        Err(m) => Err(m@),
    }
}

/// Broadcast a single activation or expand a per-layer list to length `n`.
pub(crate) fn broadcast_activations(v: &Json, n: usize) -> (r: Result<Vec<ActivationSpec>, String>)
    ensures
        said_choices(r) == activations_of(v@, n as nat),
{
    let mut out: Vec<ActivationSpec> = Vec::new();
    let mut i: usize = 0;
    match v {
        Json::Array(items) => {
            let ghost trees = v@->Array_0;
            if items.len() != n {
                return Err(
                    complain_length(
                        "activation list length ",
                        items.len(),
                        " != number of layers ",
                        n,
                    ),
                );
            }
            while i < n
                invariant
                    *v == Json::Array(*items),
                    trees == v@->Array_0,
                    trees.len() == n,
                    n == items@.len(),
                    i <= n,
                    out@.len() == i,
                    forall|q: int| 0 <= q < i ==> (#[trigger] out@[q])@ == activation_of(trees[q]),
                decreases n - i,
            {
                assert(trees[i as int] == items@[i as int]@);
                out.push(ActivationSpec::from_json(&items[i]));
                i += 1;
            }
            assert(choices(out@) =~= Seq::new(n as nat, |i: int| activation_of(trees[i])));
        },
        _ => {
            while i < n
                invariant
                    i <= n,
                    out@.len() == i,
                    forall|q: int| 0 <= q < i ==> (#[trigger] out@[q])@ == activation_of(v@),
                decreases n - i,
            {
                out.push(ActivationSpec::from_json(v));
                i += 1;
            }
            assert(choices(out@) =~= Seq::new(n as nat, |i: int| activation_of(v@)));
        },
    }
    Ok(out)
}

pub(crate) fn read_secondary(v: &Json) -> (r: ActivationSpec)
    ensures
        r@ == secondary_of(v@),
{
    if v.is_null() {
        ActivationSpec::default_sigmoid()
    } else {
        ActivationSpec::from_json(v)
    }
}

/// Broadcast or expand `secondary_activation`; `null` elements become the sigmoid.
pub(crate) fn broadcast_secondary(v: &Json, n: usize) -> (r: Result<Vec<ActivationSpec>, String>)
    ensures
        said_choices(r) == secondaries_of(v@, n as nat),
{
    let mut out: Vec<ActivationSpec> = Vec::new();
    let mut i: usize = 0;
    match v {
        Json::Array(items) => {
            let ghost trees = v@->Array_0;
            if items.len() != n {
                return Err(
                    complain_length("secondary_activation list length ", items.len(), " != ", n),
                );
            }
            while i < n
                invariant
                    *v == Json::Array(*items),
                    trees == v@->Array_0,
                    trees.len() == n,
                    n == items@.len(),
                    i <= n,
                    out@.len() == i,
                    forall|q: int| 0 <= q < i ==> (#[trigger] out@[q])@ == secondary_of(trees[q]),
                decreases n - i,
            {
                assert(trees[i as int] == items@[i as int]@);
                out.push(read_secondary(&items[i]));
                i += 1;
            }
            assert(choices(out@) =~= Seq::new(n as nat, |i: int| secondary_of(trees[i])));
        },
        _ => {
            while i < n
                invariant
                    i <= n,
                    out@.len() == i,
                    forall|q: int| 0 <= q < i ==> (#[trigger] out@[q])@ == secondary_of(v@),
                decreases n - i,
            {
                out.push(read_secondary(v));
                i += 1;
            }
            assert(choices(out@) =~= Seq::new(n as nat, |i: int| secondary_of(v@)));
        },
    }
    Ok(out)
}

/// A complaint among the first modes is the complaint of the whole list.
proof fn lemma_gatings_first(items: Seq<JsonTree>, k: nat, n: nat)
    requires
        k <= n,
        gatings_listed(items, k) is Err,
    ensures
        gatings_listed(items, n) == gatings_listed(items, k),
    decreases n - k,
{
    if k < n {
        lemma_gatings_first(items, k + 1, n);
    }
}

/// Broadcast a single gating name or expand a per-layer list to length `n`.
pub(crate) fn broadcast_gating(v: &Json, n: usize) -> (r: Result<Vec<GatingMode>, String>)
    ensures
        said_list(r) == gatings_of(v@, n as nat),
{
    match v {
        Json::String(s) => match GatingMode::from_name(s.as_str()) {
            Ok(g) => {
                let out: Vec<GatingMode> = vec![g; n];
                assert(out@ =~= Seq::new(n as nat, |i: int| g));
                Ok(out)
            },
            Err(m) => Err(m),
        },
        Json::Array(items) => {
            let ghost trees = v@->Array_0;
            if items.len() != n {
                return Err(
                    complain_length(
                        "gating_mode list length ",
                        items.len(),
                        " != number of layers ",
                        n,
                    ),
                );
            }
            let mut out: Vec<GatingMode> = Vec::new();
            let mut i: usize = 0;
            while i < n
                invariant
                    *v == Json::Array(*items),
                    trees == v@->Array_0,
                    trees.len() == n,
                    n == items@.len(),
                    i <= n,
                    gatings_listed(trees, i as nat) == Ok::<Seq<GatingMode>, Seq<char>>(out@),
                decreases n - i,
            {
                let ghost before = out@;
                assert(trees[i as int] == items@[i as int]@);
                match &items[i] {
                    Json::String(s) => match GatingMode::from_name(s.as_str()) {
                        Ok(g) => {
                            out.push(g);
                        },
                        Err(m) => {
                            proof {
                                lemma_gatings_first(trees, (i + 1) as nat, n as nat);
                            }
                            return Err(m);
                        },
                    },
                    _ => {
                        proof {
                            lemma_gatings_first(trees, (i + 1) as nat, n as nat);
                        }
                        return Err("gating_mode entry is not a string".to_owned());
                    },
                }
                i += 1;
            }
            Ok(out)
        },
        _ => Err("gating_mode is neither a string nor a list".to_owned()),
    }
}

// ---- Layer-arrays ----

/// A layer-array as a document writes it.
pub struct RawArray {
    pub input_size: usize,
    pub condition_size: usize,
    pub channels: usize,
    pub bottleneck: Option<usize>,
    pub dilations: Seq<usize>,
    pub kernel_size: Option<usize>,
    pub kernel_sizes: Option<Seq<usize>>,
    pub activation: JsonTree,
    pub gating_mode: Option<JsonTree>,
    pub gated: Option<bool>,
    pub secondary_activation: Option<JsonTree>,
    pub groups_input: Option<usize>,
    pub groups_input_mixin: Option<usize>,
    pub head: Option<JsonTree>,
    pub head_size: Option<usize>,
    pub head_bias: Option<bool>,
    pub layer1x1: Option<JsonTree>,
    pub head1x1: Option<JsonTree>,
    pub conv_pre_film: Option<JsonTree>,
    pub conv_post_film: Option<JsonTree>,
    pub input_mixin_pre_film: Option<JsonTree>,
    pub input_mixin_post_film: Option<JsonTree>,
    pub activation_pre_film: Option<JsonTree>,
    pub activation_post_film: Option<JsonTree>,
    pub layer1x1_post_film: Option<JsonTree>,
    pub head1x1_post_film: Option<JsonTree>,
}

/// A layer-array as a document writes it, or why it is none.
pub open spec fn raw_array(t: JsonTree) -> Result<RawArray, Seq<char>> {
    match shape_complaint(t, array_record()) {
        Some(m) => Err(m),
        None => Ok(
            RawArray {
                input_size: size_field(t, "input_size"@, 0)->Some_0,
                condition_size: size_field(t, "condition_size"@, 1)->Some_0,
                channels: size_field(t, "channels"@, 2)->Some_0,
                bottleneck: maybe_size_field(t, "bottleneck"@, 3)->Some_0,
                dilations: sizes_field(t, "dilations"@, 4)->Some_0,
                kernel_size: maybe_size_field(t, "kernel_size"@, 5)->Some_0,
                kernel_sizes: maybe_sizes_field(t, "kernel_sizes"@, 6)->Some_0,
                activation: t.field("activation"@, 7)->Some_0,
                gating_mode: maybe_field(t, "gating_mode"@, 8),
                gated: maybe_flag_field(t, "gated"@, 9)->Some_0,
                secondary_activation: maybe_field(t, "secondary_activation"@, 10),
                groups_input: maybe_size_field(t, "groups_input"@, 11)->Some_0,
                groups_input_mixin: maybe_size_field(t, "groups_input_mixin"@, 12)->Some_0,
                head: maybe_field(t, "head"@, 13),
                head_size: maybe_size_field(t, "head_size"@, 14)->Some_0,
                head_bias: maybe_flag_field(t, "head_bias"@, 15)->Some_0,
                layer1x1: maybe_field(t, "layer1x1"@, 16),
                head1x1: maybe_field(t, "head1x1"@, 17),
                conv_pre_film: maybe_field(t, "conv_pre_film"@, 18),
                conv_post_film: maybe_field(t, "conv_post_film"@, 19),
                input_mixin_pre_film: maybe_field(t, "input_mixin_pre_film"@, 20),
                input_mixin_post_film: maybe_field(t, "input_mixin_post_film"@, 21),
                activation_pre_film: maybe_field(t, "activation_pre_film"@, 22),
                activation_post_film: maybe_field(t, "activation_post_film"@, 23),
                layer1x1_post_film: maybe_field(t, "layer1x1_post_film"@, 24),
                head1x1_post_film: maybe_field(t, "head1x1_post_film"@, 25),
            },
        ),
    }
}

/// The fields of a layer-array without complaint can be read.
proof fn lemma_array_fields(t: JsonTree)
    requires
        shape_complaint(t, array_record()) is None,
    ensures
        size_field(t, "input_size"@, 0) is Some,
        size_field(t, "condition_size"@, 1) is Some,
        size_field(t, "channels"@, 2) is Some,
        maybe_size_field(t, "bottleneck"@, 3) is Some,
        sizes_field(t, "dilations"@, 4) is Some,
        maybe_size_field(t, "kernel_size"@, 5) is Some,
        maybe_sizes_field(t, "kernel_sizes"@, 6) is Some,
        t.field("activation"@, 7) is Some,
        maybe_flag_field(t, "gated"@, 9) is Some,
        maybe_size_field(t, "groups_input"@, 11) is Some,
        maybe_size_field(t, "groups_input_mixin"@, 12) is Some,
        maybe_size_field(t, "head_size"@, 14) is Some,
        maybe_flag_field(t, "head_bias"@, 15) is Some,
{
    let rec = array_record();
    lemma_field(t, rec, 0, "input_size"@, Kind::Size);
    lemma_field(t, rec, 1, "condition_size"@, Kind::Size);
    lemma_field(t, rec, 2, "channels"@, Kind::Size);
    lemma_field(t, rec, 3, "bottleneck"@, Kind::MaybeSize);
    lemma_field(t, rec, 4, "dilations"@, Kind::Sizes);
    lemma_field(t, rec, 5, "kernel_size"@, Kind::MaybeSize);
    lemma_field(t, rec, 6, "kernel_sizes"@, Kind::MaybeSizes);
    lemma_field(t, rec, 7, "activation"@, Kind::Any);
    lemma_field(t, rec, 9, "gated"@, Kind::MaybeFlag);
    lemma_field(t, rec, 11, "groups_input"@, Kind::MaybeSize);
    lemma_field(t, rec, 12, "groups_input_mixin"@, Kind::MaybeSize);
    lemma_field(t, rec, 14, "head_size"@, Kind::MaybeSize);
    lemma_field(t, rec, 15, "head_bias"@, Kind::MaybeFlag);
}

/// `v`, or `d` where it is not given.
pub open spec fn or_else<T>(v: Option<T>, d: T) -> T {
    match v {
        Some(x) => x,
        None => d,
    }
}

impl RawArray {
    /// Number of layers.
    pub open spec fn depth(self) -> nat {
        self.dilations.len()
    }

    /// The kernel size of every layer.
    pub open spec fn kernels(self) -> Result<Seq<usize>, Seq<char>> {
        match (self.kernel_size, self.kernel_sizes) {
            (Some(_), Some(_)) => Err(
                "layer-array specifies both kernel_size and kernel_sizes"@,
            ),
            (Some(k), None) => Ok(Seq::new(self.depth(), |i: int| k)),
            (None, Some(ks)) => if ks.len() != self.depth() {
                Err(
                    length_complaint(
                        "kernel_sizes length "@,
                        ks.len(),
                        " != number of layers "@,
                        self.depth(),
                    ),
                )
            } else {
                Ok(ks)
            },
            (None, None) => Err("layer-array specifies neither kernel_size nor kernel_sizes"@),
        }
    }

    /// The gating mode of every layer.
    pub open spec fn gatings(self) -> Result<Seq<GatingMode>, Seq<char>> {
        match (self.gating_mode, self.gated) {
            (Some(v), _) => gatings_of(v, self.depth()),
            (None, Some(true)) => Ok(Seq::new(self.depth(), |i: int| GatingMode::Gated)),
            (None, _) => Ok(Seq::new(self.depth(), |i: int| GatingMode::Ungated)),
        }
    }

    /// The secondary activation of every layer.
    pub open spec fn secondaries(self) -> Result<Seq<ActivationChoice>, Seq<char>> {
        match self.secondary_activation {
            Some(v) => secondaries_of(v, self.depth()),
            None => Ok(Seq::new(self.depth(), |i: int| sigmoid_choice())),
        }
    }

    /// Width, kernel size and bias of the head rechannel.
    pub open spec fn head_rechannel(self) -> Result<(usize, usize, bool), Seq<char>> {
        match self.head {
            Some(h) => if size(h, "out_channels"@) is None {
                Err("layer head missing out_channels"@)
            } else if size(h, "kernel_size"@) is None {
                Err("layer head missing kernel_size"@)
            } else {
                Ok(
                    (
                        size(h, "out_channels"@)->Some_0,
                        size(h, "kernel_size"@)->Some_0,
                        flag(h, "bias"@, true),
                    ),
                )
            },
            None => match self.head_size {
                Some(n) => Ok((n, 1, or_else(self.head_bias, false))),
                None => Err("layer-array missing head_size (and no head object)"@),
            },
        }
    }

    /// A normalized layer-array gives every per-layer quantity for every layer.
    pub proof fn lemma_normalized_wf(self)
        ensures
            self.normalized() matches Ok(s) ==> s.wf(),
    {
        if self.normalized() is Ok {
            match self.gating_mode {
                Some(v) => {
                    if v is Array {
                        lemma_gatings_len(v->Array_0, self.depth());
                    }
                },
                None => {},
            }
        }
    }

    /// The layer-array with every per-layer quantity given for every layer, or why it
    /// makes no sense.
    pub open spec fn normalized(self) -> Result<ArrayShape, Seq<char>> {
        let activations = activations_of(self.activation, self.depth());
        if self.depth() == 0 {
            Err("layer-array has no dilations"@)
        } else if self.kernels() is Err {
            Err(self.kernels()->Err_0)
        } else if activations is Err {
            Err(activations->Err_0)
        } else if self.gatings() is Err {
            Err(self.gatings()->Err_0)
        } else if self.secondaries() is Err {
            Err(self.secondaries()->Err_0)
        } else if self.head_rechannel() is Err {
            Err(self.head_rechannel()->Err_0)
        } else {
            Ok(
                ArrayShape {
                    input_size: self.input_size,
                    condition_size: self.condition_size,
                    channels: self.channels,
                    bottleneck: or_else(self.bottleneck, self.channels),
                    dilations: self.dilations,
                    kernel_sizes: self.kernels()->Ok_0,
                    activations: activations->Ok_0,
                    gating_modes: self.gatings()->Ok_0,
                    secondary_activations: self.secondaries()->Ok_0,
                    groups_input: or_else(self.groups_input, 1),
                    groups_input_mixin: or_else(self.groups_input_mixin, 1),
                    head_size: self.head_rechannel()->Ok_0.0,
                    head_kernel_size: self.head_rechannel()->Ok_0.1,
                    head_bias: self.head_rechannel()->Ok_0.2,
                    layer1x1: layer1x1_of(self.layer1x1),
                    head1x1: head1x1_of(self.head1x1),
                    conv_pre_film: film_of(self.conv_pre_film),
                    conv_post_film: film_of(self.conv_post_film),
                    input_mixin_pre_film: film_of(self.input_mixin_pre_film),
                    input_mixin_post_film: film_of(self.input_mixin_post_film),
                    activation_pre_film: film_of(self.activation_pre_film),
                    activation_post_film: film_of(self.activation_post_film),
                    layer1x1_post_film: film_of(self.layer1x1_post_film),
                    head1x1_post_film: film_of(self.head1x1_post_film),
                },
            )
        }
    }
}

/// On-disk shape of a layer-array config: optional and either-or fields exactly as NAM
/// writes them. Converted to [`LayerArrayConfig`] by [`Self::normalize`].
#[derive(Debug)]
pub struct RawLayerArrayConfig {
    input_size: usize,
    condition_size: usize,
    channels: usize,
    bottleneck: Option<usize>,
    dilations: Vec<usize>,
    kernel_size: Option<usize>,
    kernel_sizes: Option<Vec<usize>>,
    activation: Json,
    gating_mode: Option<Json>,
    gated: Option<bool>,
    secondary_activation: Option<Json>,
    groups_input: Option<usize>,
    groups_input_mixin: Option<usize>,
    head: Option<Json>,
    head_size: Option<usize>,
    head_bias: Option<bool>,
    layer1x1: Option<Json>,
    head1x1: Option<Json>,
    conv_pre_film: Option<Json>,
    conv_post_film: Option<Json>,
    input_mixin_pre_film: Option<Json>,
    input_mixin_post_film: Option<Json>,
    activation_pre_film: Option<Json>,
    activation_post_film: Option<Json>,
    layer1x1_post_film: Option<Json>,
    head1x1_post_film: Option<Json>,
}

/// The contents of an outcome with a raw layer-array.
pub open spec fn said_raw(r: Result<RawLayerArrayConfig, String>) -> Result<RawArray, Seq<char>> {
    match r {
        Ok(x) => Ok(x@),
        Err(m) => Err(m@),
    }
}

/// The contents of an outcome with a layer-array.
pub open spec fn said_array(r: Result<LayerArrayConfig, String>) -> Result<ArrayShape, Seq<char>> {
    match r {
        Ok(x) => Ok(x@),
        Err(m) => Err(m@),
    }
}

impl RawLayerArrayConfig {
    pub closed spec fn view(&self) -> RawArray {
        RawArray {
            input_size: self.input_size,
            condition_size: self.condition_size,
            channels: self.channels,
            bottleneck: self.bottleneck,
            dilations: self.dilations@,
            kernel_size: self.kernel_size,
            kernel_sizes: list_of(self.kernel_sizes),
            activation: self.activation@,
            gating_mode: tree_of(self.gating_mode),
            gated: self.gated,
            secondary_activation: tree_of(self.secondary_activation),
            groups_input: self.groups_input,
            groups_input_mixin: self.groups_input_mixin,
            head: tree_of(self.head),
            head_size: self.head_size,
            head_bias: self.head_bias,
            layer1x1: tree_of(self.layer1x1),
            head1x1: tree_of(self.head1x1),
            conv_pre_film: tree_of(self.conv_pre_film),
            conv_post_film: tree_of(self.conv_post_film),
            input_mixin_pre_film: tree_of(self.input_mixin_pre_film),
            input_mixin_post_film: tree_of(self.input_mixin_post_film),
            activation_pre_film: tree_of(self.activation_pre_film),
            activation_post_film: tree_of(self.activation_post_film),
            layer1x1_post_film: tree_of(self.layer1x1_post_film),
            head1x1_post_film: tree_of(self.head1x1_post_film),
        }
    }

    /// Read a layer-array, or say why it is none.
    pub fn from_json(t: &Json) -> (r: Result<RawLayerArrayConfig, String>)
        ensures
            said_raw(r) == raw_array(t@),
    {
        match complain(t, &layer_array()) {
            Some(m) => {
                return Err(m);
            },
            None => {},
        }
        proof {
            lemma_array_fields(t@);
        }
        let input_size: usize = read_size_field(t, "input_size", 0).unwrap();
        let condition_size: usize = read_size_field(t, "condition_size", 1).unwrap();
        let channels: usize = read_size_field(t, "channels", 2).unwrap();
        let bottleneck: Option<usize> = read_maybe_size(t, "bottleneck", 3).unwrap();
        let dilations: Vec<usize> = read_sizes_field(t, "dilations", 4).unwrap();
        let kernel_size: Option<usize> = read_maybe_size(t, "kernel_size", 5).unwrap();
        let kernel_sizes: Option<Vec<usize>> = read_maybe_sizes(t, "kernel_sizes", 6).unwrap();
        let activation: Json = t.field("activation", 7).unwrap().clone();
        let gated: Option<bool> = read_maybe_flag(t, "gated", 9).unwrap();
        let groups_input: Option<usize> = read_maybe_size(t, "groups_input", 11).unwrap();
        let groups_input_mixin: Option<usize> = read_maybe_size(
            t,
            "groups_input_mixin",
            12,
        ).unwrap();
        let head_size: Option<usize> = read_maybe_size(t, "head_size", 14).unwrap();
        let head_bias: Option<bool> = read_maybe_flag(t, "head_bias", 15).unwrap();
        Ok(
            RawLayerArrayConfig {
                input_size,
                condition_size,
                channels,
                bottleneck,
                dilations,
                kernel_size,
                kernel_sizes,
                activation,
                gating_mode: read_maybe(t, "gating_mode", 8),
                gated,
                secondary_activation: read_maybe(t, "secondary_activation", 10),
                groups_input,
                groups_input_mixin,
                head: read_maybe(t, "head", 13),
                head_size,
                head_bias,
                layer1x1: read_maybe(t, "layer1x1", 16),
                head1x1: read_maybe(t, "head1x1", 17),
                conv_pre_film: read_maybe(t, "conv_pre_film", 18),
                conv_post_film: read_maybe(t, "conv_post_film", 19),
                input_mixin_pre_film: read_maybe(t, "input_mixin_pre_film", 20),
                input_mixin_post_film: read_maybe(t, "input_mixin_post_film", 21),
                activation_pre_film: read_maybe(t, "activation_pre_film", 22),
                activation_post_film: read_maybe(t, "activation_post_film", 23),
                layer1x1_post_film: read_maybe(t, "layer1x1_post_film", 24),
                head1x1_post_film: read_maybe(t, "head1x1_post_film", 25),
            },
        )
    }

    fn normalize_kernels(&self) -> (r: Result<Vec<usize>, String>)
        ensures
            said_list(r) == self@.kernels(),
    {
        let n: usize = self.dilations.len();
        match (self.kernel_size, &self.kernel_sizes) {
            (Some(_), Some(_)) => Err(
                "layer-array specifies both kernel_size and kernel_sizes".to_owned(),
            ),
            (Some(k), None) => {
                let ks: Vec<usize> = vec![k; n];
                assert(ks@ =~= Seq::new(n as nat, |i: int| k));
                Ok(ks)
            },
            (None, Some(ks)) => {
                if ks.len() != n {
                    return Err(
                        complain_length(
                            "kernel_sizes length ",
                            ks.len(),
                            " != number of layers ",
                            n,
                        ),
                    );
                }
                let copy: Vec<usize> = ks.clone();
                assert(copy@ =~= ks@);
                Ok(copy)
            },
            (None, None) => Err(
                "layer-array specifies neither kernel_size nor kernel_sizes".to_owned(),
            ),
        }
    }

    fn normalize_gating(&self) -> (r: Result<Vec<GatingMode>, String>)
        ensures
            said_list(r) == self@.gatings(),
    {
        let n: usize = self.dilations.len();
        match (&self.gating_mode, self.gated) {
            (Some(v), _) => broadcast_gating(v, n),
            (None, Some(true)) => {
                let modes: Vec<GatingMode> = vec![GatingMode::Gated; n];
                assert(modes@ =~= Seq::new(n as nat, |i: int| GatingMode::Gated));
                Ok(modes)
            },
            (None, _) => {
                let modes: Vec<GatingMode> = vec![GatingMode::Ungated; n];
                assert(modes@ =~= Seq::new(n as nat, |i: int| GatingMode::Ungated));
                Ok(modes)
            },
        }
    }

    fn normalize_secondary(&self) -> (r: Result<Vec<ActivationSpec>, String>)
        ensures
            said_choices(r) == self@.secondaries(),
    {
        let n: usize = self.dilations.len();
        match &self.secondary_activation {
            Some(v) => broadcast_secondary(v, n),
            None => {
                let mut out: Vec<ActivationSpec> = Vec::new();
                let mut i: usize = 0;
                while i < n
                    invariant
                        i <= n,
                        out@.len() == i,
                        forall|q: int| 0 <= q < i ==> (#[trigger] out@[q])@ == sigmoid_choice(),
                    decreases n - i,
                {
                    out.push(ActivationSpec::default_sigmoid());
                    i += 1;
                }
                assert(choices(out@) =~= Seq::new(n as nat, |i: int| sigmoid_choice()));
                Ok(out)
            },
        }
    }

    fn normalize_head(&self) -> (r: Result<(usize, usize, bool), String>)
        ensures
            said(r) == self@.head_rechannel(),
    {
        match &self.head {
            Some(h) => {
                let out: usize = match read_size(h, "out_channels") {
                    Some(n) => n,
                    None => {
                        return Err("layer head missing out_channels".to_owned());
                    },
                };
                let k: usize = match read_size(h, "kernel_size") {
                    Some(n) => n,
                    None => {
                        return Err("layer head missing kernel_size".to_owned());
                    },
                };
                Ok((out, k, read_flag(h, "bias", true)))
            },
            None => match self.head_size {
                Some(n) => Ok(
                    (
                        n,
                        1,
                        match self.head_bias {
                            Some(b) => b,
                            None => false,
                        },
                    ),
                ),
                None => Err("layer-array missing head_size (and no head object)".to_owned()),
            },
        }
    }

    /// Give every per-layer quantity for every layer, and fill in the defaults.
    #[verifier::rlimit(40)]
    pub fn normalize(self) -> (r: Result<LayerArrayConfig, String>)
        ensures
            said_array(r) == self@.normalized(),
            r matches Ok(la) ==> la@.wf(),
    {
        let ghost raw = self@;
        let n: usize = self.dilations.len();
        if n == 0 {
            return Err("layer-array has no dilations".to_owned());
        }
        let kernel_sizes: Vec<usize> = match self.normalize_kernels() {
            Ok(x) => x,
            Err(m) => {
                return Err(m);
            },
        };
        let activations: Vec<ActivationSpec> = match broadcast_activations(&self.activation, n) {
            Ok(x) => x,
            Err(m) => {
                return Err(m);
            },
        };
        let gating_modes: Vec<GatingMode> = match self.normalize_gating() {
            Ok(x) => x,
            Err(m) => {
                return Err(m);
            },
        };
        let secondary_activations: Vec<ActivationSpec> = match self.normalize_secondary() {
            Ok(x) => x,
            Err(m) => {
                return Err(m);
            },
        };
        let (head_size, head_kernel_size, head_bias): (usize, usize, bool) =
            match self.normalize_head() {
            Ok(x) => x,
            Err(m) => {
                return Err(m);
            },
        };
        proof {
            raw.lemma_normalized_wf();
        }
        Ok(
            LayerArrayConfig {
                input_size: self.input_size,
                condition_size: self.condition_size,
                channels: self.channels,
                bottleneck: match self.bottleneck {
                    Some(b) => b,
                    None => self.channels,
                },
                dilations: self.dilations,
                kernel_sizes,
                activations,
                gating_modes,
                secondary_activations,
                groups_input: match self.groups_input {
                    Some(g) => g,
                    None => 1,
                },
                groups_input_mixin: match self.groups_input_mixin {
                    Some(g) => g,
                    None => 1,
                },
                head_size,
                head_kernel_size,
                head_bias,
                layer1x1: Layer1x1Config::from_json(self.layer1x1.as_ref()),
                head1x1: Head1x1Config::from_json(self.head1x1.as_ref()),
                conv_pre_film: FilmConfig::from_json(self.conv_pre_film.as_ref()),
                conv_post_film: FilmConfig::from_json(self.conv_post_film.as_ref()),
                input_mixin_pre_film: FilmConfig::from_json(self.input_mixin_pre_film.as_ref()),
                input_mixin_post_film: FilmConfig::from_json(self.input_mixin_post_film.as_ref()),
                activation_pre_film: FilmConfig::from_json(self.activation_pre_film.as_ref()),
                activation_post_film: FilmConfig::from_json(self.activation_post_film.as_ref()),
                layer1x1_post_film: FilmConfig::from_json(self.layer1x1_post_film.as_ref()),
                head1x1_post_film: FilmConfig::from_json(self.head1x1_post_film.as_ref()),
            },
        )
    }
}

/// A list of gating modes keeps its length.
proof fn lemma_gatings_len(items: Seq<JsonTree>, k: nat)
    ensures
        gatings_listed(items, k) matches Ok(gs) ==> gs.len() == k,
    decreases k,
{
    if k > 0 {
        lemma_gatings_len(items, (k - 1) as nat);
    }
}

} // verus!
