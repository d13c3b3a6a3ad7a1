//! Reading a `.nam` document: its fields, their types, and how they are normalized.
//!
//! A record may be written as an object with named fields, or as an array with the
//! fields in their order. Unknown members are ignored. A field that is missing, stands
//! there twice, or holds a value of the wrong type, makes the whole document
//! [`JsonError::Shape`]; fields that have their types but do not make sense together
//! make it [`JsonError::Content`]. A complaint about a field of a file says where in the
//! text it is; one about its config, which is read from a document, does not.

pub mod fields;
pub mod layers;
pub mod options;
pub mod records;

use vstd::prelude::*;
use crate::document::{complain_of_trailing, document, read_document, trailing};
use crate::error::{Error, Failure, JsonError, JsonFailure};
use crate::json::{Json, JsonNumber, JsonTree};
use crate::model::{
    array_shapes, tree_of, ActivationSpec, ArrayShape, ConfigShape, LayerArrayConfig, LstmConfig,
    ModelConfig, NamModel, NamShape, PostHeadShape, PostStackHeadConfig, SlimmableConfig,
    SlimmableSubmodel, SubmodelShape, WaveNetConfig, WaveNetShape,
};
use crate::parser::fields::{
    lemma_field, list_of, maybe_field, maybe_number_field, maybe_size_field, numbers, read_maybe,
    read_maybe_number, read_maybe_size, read_numbers, read_size_field, size_field,
};
use crate::parser::layers::{or_else, raw_array, RawArray, RawLayerArrayConfig};
use crate::parser::options::{activation_of, read_size, size};
use crate::parser::records::{
    absent_complaint, complain, complain_of_absent, complain_of_present, items_complaint,
    kind_complaint, lemma_complete, lemma_holds, lemma_items_fit, lemma_lookup, lemma_present, lstm,
    lstm_record, missing, nam, nam_record, present_complaint, shape_complaint, slimmable,
    slimmable_record, submodel, submodel_record, wavenet, wavenet_record, Kind,
};
use crate::text::{debug_text, same, Text};

verus! {

// ---- WaveNet configs ----

/// The sizes of a list of integers from zero upwards.
pub open spec fn wide_sizes(v: JsonTree) -> Option<Seq<usize>> {
    match v {
        JsonTree::Array(vs) => if forall|i: int|
            0 <= i < vs.len() ==> (#[trigger] vs[i]).as_u64() is Some {
            Some(Seq::new(vs.len(), |i: int| vs[i].as_u64()->Some_0 as usize))
        } else {
            None
        },
        _ => None,
    }
}

/// A post-stack head, or why it makes no sense.
pub open spec fn post_head_json(h: JsonTree) -> Result<PostHeadShape, Seq<char>> {
    let kernels = match h.get("kernel_sizes"@) {
        Some(v) => v,
        None => JsonTree::Null,
    };
    let activation = match h.get("activation"@) {
        Some(v) => v,
        None => JsonTree::Null,
    };
    if size(h, "channels"@) is None {
        Err("post-stack head missing channels"@)
    } else if size(h, "out_channels"@) is None {
        Err("post-stack head missing out_channels"@)
    } else if !(kernels is Array) {
        Err("post-stack head missing kernel_sizes"@)
    } else if wide_sizes(kernels) is None {
        Err("kernel_sizes entry not an int"@)
    } else {
        Ok(
            PostHeadShape {
                channels: size(h, "channels"@)->Some_0,
                out_channels: size(h, "out_channels"@)->Some_0,
                kernel_sizes: wide_sizes(kernels)->Some_0,
                activation: activation_of(activation),
            },
        )
    }
}

/// The contents of an outcome with a post-stack head.
pub open spec fn said_head(r: Result<PostStackHeadConfig, String>) -> Result<
    PostHeadShape,
    Seq<char>,
> {
    match r {
        Ok(x) => Ok(x@),
        Err(m) => Err(m@),
    }
}

fn read_wide_sizes(vs: &Vec<Json>) -> (r: Option<Vec<usize>>)
    ensures
        forall|j: Json| #![trigger j@] j == Json::Array(*vs) ==> list_of(r) == wide_sizes(j@),
{
    let ghost v = Json::Array(*vs);
    let ghost items = v@->Array_0;
    let mut out: Vec<usize> = Vec::new();
    let mut i: usize = 0;
    while i < vs.len()
        invariant
            v == Json::Array(*vs),
            items == v@->Array_0,
            items.len() == vs@.len(),
            i <= vs@.len(),
            out@.len() == i,
            forall|q: int|
                0 <= q < i ==> (#[trigger] items[q]).as_u64() is Some && out@[q]
                    == items[q].as_u64()->Some_0 as usize,
        decreases vs@.len() - i,
    {
        assert(items[i as int] == vs@[i as int]@);
        match vs[i].as_u64() {
            Some(n) => {
                out.push(
                    #[verifier::truncate]
                    (n as usize),
                );
            },
            None => {
                return None;
            },
        }
        i += 1;
    }
    assert(out@ =~= Seq::new(items.len(), |i: int| items[i].as_u64()->Some_0 as usize));
    Some(out)
}

impl PostStackHeadConfig {
    /// Read a post-stack head.
    pub fn from_json(h: &Json) -> (r: Result<PostStackHeadConfig, String>)
        ensures
            said_head(r) == post_head_json(h@),
    {
        let channels: usize = match read_size(h, "channels") {
            Some(n) => n,
            None => {
                return Err("post-stack head missing channels".to_owned());
            },
        };
        let out_channels: usize = match read_size(h, "out_channels") {
            Some(n) => n,
            None => {
                return Err("post-stack head missing out_channels".to_owned());
            },
        };
        let kernel_sizes: Vec<usize> = match h.get("kernel_sizes") {
            Some(Json::Array(vs)) => {
                let ghost v = Json::Array(*vs);
                assert(h@.get("kernel_sizes"@) == Some(v@));
                match read_wide_sizes(vs) {
                    Some(ks) => ks,
                    None => {
                        return Err("kernel_sizes entry not an int".to_owned());
                    },
                }
            },
            _ => {
                return Err("post-stack head missing kernel_sizes".to_owned());
            },
        };
        let activation: ActivationSpec = match h.get("activation") {
            Some(v) => ActivationSpec::from_json(v),
            None => ActivationSpec::from_json(&Json::Null),
        };
        Ok(PostStackHeadConfig { channels, out_channels, kernel_sizes, activation })
    }
}

/// A WaveNet config as a document writes it.
pub struct RawWaveNet {
    pub layers: Seq<RawArray>,
    pub head: Option<JsonTree>,
    pub head_scale: JsonNumber,
    pub in_channels: Option<usize>,
    pub condition_dsp: Option<JsonTree>,
}

/// A list of layer-arrays as a document writes them.
pub open spec fn raw_arrays(v: JsonTree) -> Seq<RawArray> {
    match v {
        JsonTree::Array(vs) => Seq::new(vs.len(), |i: int| raw_array(vs[i])->Ok_0),
        _ => Seq::empty(),
    }
}

/// A WaveNet config as a document writes it, or why it is none.
pub open spec fn raw_wavenet(t: JsonTree) -> Result<RawWaveNet, Seq<char>> {
    match shape_complaint(t, wavenet_record()) {
        Some(m) => Err(m),
        None => Ok(
            RawWaveNet {
                layers: raw_arrays(t.field("layers"@, 0)->Some_0),
                head: maybe_field(t, "head"@, 1),
                head_scale: t.field("head_scale"@, 2)->Some_0.as_number()->Some_0,
                in_channels: maybe_size_field(t, "in_channels"@, 3)->Some_0,
                condition_dsp: maybe_field(t, "condition_dsp"@, 4),
            },
        ),
    }
}

/// The first `k` layer-arrays, normalized, or the first complaint among them.
pub open spec fn arrays_normalized(layers: Seq<RawArray>, k: nat) -> Result<
    Seq<ArrayShape>,
    Seq<char>,
>
    decreases k,
{
    if k == 0 {
        Ok(Seq::empty())
    } else {
        match arrays_normalized(layers, (k - 1) as nat) {
            Err(m) => Err(m),
            Ok(before) => match layers[k - 1].normalized() {
                Ok(s) => Ok(before.push(s)),
                Err(m) => Err(m),
            },
        }
    }
}

/// A complaint of the contents.
pub open spec fn content<T>(m: Seq<char>) -> Result<T, JsonFailure> {
    Err(JsonFailure::Content(m))
}

/// A field of a document is smaller than the document.
pub proof fn lemma_field_smaller(t: JsonTree, key: Seq<char>, index: int)
    ensures
        t.field(key, index) matches Some(v) ==> decreases_to!(t => v),
{
    if t.field(key, index) is Some {
        match t {
            JsonTree::Object(ms) => {
                let i = lemma_lookup(ms, key);
                assert(decreases_to!(t => t->Object_0[i].1));
            },
            JsonTree::Array(vs) => {
                assert(decreases_to!(t => t->Array_0[index]));
            },
            _ => {},
        }
    }
}

/// The WaveNet config that a document holds, or what is wrong with it.
pub open spec fn wavenet_json(t: JsonTree) -> Result<WaveNetShape, JsonFailure>
    decreases t, 0nat,
{
    proof {
        lemma_field_smaller(t, "condition_dsp"@, 4);
    }
    match raw_wavenet(t) {
        Err(m) => Err(JsonFailure::Shape(m)),
        Ok(raw) => match arrays_normalized(raw.layers, raw.layers.len()) {
            Err(m) => content(m),
            Ok(layers) => {
                let head = match raw.head {
                    Some(h) => match post_head_json(h) {
                        Ok(x) => Ok(Some(x)),
                        Err(m) => Err(m),
                    },
                    None => Ok(None),
                };
                match head {
                    Err(m) => content(m),
                    Ok(post_stack_head) => match raw.condition_dsp {
                        None => Ok(
                            WaveNetShape {
                                layers,
                                post_stack_head,
                                head_scale: raw.head_scale,
                                in_channels: or_else(raw.in_channels, 1),
                                condition_dsp: None,
                            },
                        ),
                        Some(v) => match nam_json(v) {
                            Err(e) => Err(e),
                            Ok(m) => Ok(
                                WaveNetShape {
                                    layers,
                                    post_stack_head,
                                    head_scale: raw.head_scale,
                                    in_channels: or_else(raw.in_channels, 1),
                                    condition_dsp: Some(Box::new(m)),
                                },
                            ),
                        },
                    },
                }
            },
        },
    }
}

/// The LSTM config that a document holds, or why it holds none.
pub open spec fn lstm_json(t: JsonTree) -> Result<LstmConfig, Seq<char>> {
    match shape_complaint(t, lstm_record()) {
        Some(m) => Err(m),
        None => Ok(
            LstmConfig {
                input_size: size_field(t, "input_size"@, 0)->Some_0,
                hidden_size: size_field(t, "hidden_size"@, 1)->Some_0,
                num_layers: size_field(t, "num_layers"@, 2)->Some_0,
            },
        ),
    }
}

/// A submodel of a container, or what is wrong with it. What its model holds is looked
/// at before anything that is missing.
pub open spec fn submodel_json(t: JsonTree) -> Result<SubmodelShape, JsonFailure>
    decreases t, 0nat,
{
    proof {
        lemma_field_smaller(t, "model"@, 1);
    }
    match present_complaint(t, submodel_record()) {
        Some(m) => Err(JsonFailure::Shape(m)),
        None => match t.field("model"@, 1) {
            Some(v) => match nam_json(v) {
                Err(e) => Err(e),
                Ok(model) => match absent_complaint(t, submodel_record()) {
                    Some(m) => Err(JsonFailure::Shape(m)),
                    None => Ok(
                        SubmodelShape {
                            max_value: t.field("max_value"@, 0)->Some_0.as_number()->Some_0,
                            model,
                        },
                    ),
                },
            },
            None => Err(JsonFailure::Shape(absent_complaint(t, submodel_record())->Some_0)),
        },
    }
}

/// The first `k` submodels of a list, or what is wrong with the first bad one.
pub open spec fn submodels_json(items: Seq<JsonTree>, k: nat) -> Result<
    Seq<SubmodelShape>,
    JsonFailure,
>
    decreases items, k,
{
    if k == 0 || k > items.len() {
        Ok(Seq::empty())
    } else {
        match submodels_json(items, (k - 1) as nat) {
            Err(e) => Err(e),
            Ok(before) => match submodel_json(items[k - 1]) {
                Ok(s) => Ok(before.push(s)),
                Err(e) => Err(e),
            },
        }
    }
}

/// The container config that a document holds, or what is wrong with it.
pub open spec fn slimmable_json(t: JsonTree) -> Result<Seq<SubmodelShape>, JsonFailure>
    decreases t, 0nat,
{
    proof {
        lemma_field_smaller(t, "submodels"@, 0);
    }
    match present_complaint(t, slimmable_record()) {
        Some(m) => Err(JsonFailure::Shape(m)),
        None => match t.field("submodels"@, 0) {
            Some(JsonTree::Array(items)) => match submodels_json(items, items.len()) {
                Err(e) => Err(e),
                Ok(subs) => match absent_complaint(t, slimmable_record()) {
                    Some(m) => Err(JsonFailure::Shape(m)),
                    None => Ok(subs),
                },
            },
            _ => Err(JsonFailure::Shape(absent_complaint(t, slimmable_record())->Some_0)),
        },
    }
}

/// The config of a file of that architecture, or what is wrong with it.
pub open spec fn config_json(architecture: Seq<char>, t: JsonTree) -> Result<
    ConfigShape,
    JsonFailure,
>
    decreases t, 1nat,
{
    if architecture == "WaveNet"@ {
        match wavenet_json(t) {
            Ok(c) => Ok(ConfigShape::WaveNet(c)),
            Err(e) => Err(e),
        }
    } else if architecture == "LSTM"@ {
        match lstm_json(t) {
            Ok(c) => Ok(ConfigShape::Lstm(c)),
            Err(m) => Err(JsonFailure::Shape(m)),
        }
    } else if architecture == "SlimmableContainer"@ {
        match slimmable_json(t) {
            Ok(subs) => Ok(ConfigShape::Slimmable(subs)),
            Err(e) => Err(e),
        }
    } else {
        content("unsupported model architecture: "@ + debug_text(architecture))
    }
}

/// The file that a document holds, or what is wrong with it.
pub open spec fn nam_json(t: JsonTree) -> Result<NamShape, JsonFailure>
    decreases t, 0nat,
{
    proof {
        lemma_field_smaller(t, "config"@, 2);
    }
    match shape_complaint(t, nam_record()) {
        Some(m) => Err(JsonFailure::Shape(m)),
        None => {
            let architecture = t.field("architecture"@, 1)->Some_0.as_text()->Some_0;
            match t.field("config"@, 2) {
                None => Err(JsonFailure::Shape(missing("config"@))),
                Some(c) => match config_json(architecture, c) {
                    Err(e) => Err(e),
                    Ok(config) => Ok(
                        NamShape {
                            version: t.field("version"@, 0)->Some_0.as_text()->Some_0,
                            architecture,
                            config,
                            weights: numbers(t.field("weights"@, 3)->Some_0)->Some_0,
                            sample_rate: maybe_number_field(t, "sample_rate"@, 4)->Some_0,
                            metadata: maybe_field(t, "metadata"@, 5),
                        },
                    ),
                },
            }
        },
    }
}

/// On-disk shape of a WaveNet config.
#[derive(Debug)]
pub struct RawWaveNetConfig {
    layers: Vec<RawLayerArrayConfig>,
    head: Option<Json>,
    head_scale: JsonNumber,
    in_channels: Option<usize>,
    condition_dsp: Option<Json>,
}

/// The contents of a run of raw layer-arrays.
pub open spec fn raws_of(layers: Seq<RawLayerArrayConfig>) -> Seq<RawArray> {
    Seq::new(layers.len(), |i: int| layers[i]@)
}

/// The contents of an outcome with a raw WaveNet config.
pub open spec fn said_raw_wavenet(r: Result<RawWaveNetConfig, String>) -> Result<
    RawWaveNet,
    Seq<char>,
> {
    match r {
        Ok(x) => Ok(x@),
        Err(m) => Err(m@),
    }
}

/// The contents of an outcome with a WaveNet config.
pub open spec fn said_wavenet(r: Result<WaveNetConfig, JsonError>) -> Result<
    WaveNetShape,
    JsonFailure,
> {
    match r {
        Ok(x) => Ok(x@),
        Err(e) => Err(e@),
    }
}

/// The contents of an outcome with an LSTM config.
pub open spec fn said_lstm(r: Result<LstmConfig, String>) -> Result<LstmConfig, Seq<char>> {
    match r {
        Ok(x) => Ok(x),
        Err(m) => Err(m@),
    }
}

/// The contents of an outcome with a submodel.
pub open spec fn said_submodel(r: Result<SlimmableSubmodel, JsonError>) -> Result<
    SubmodelShape,
    JsonFailure,
> {
    match r {
        Ok(x) => Ok(x@),
        Err(e) => Err(e@),
    }
}

/// The contents of an outcome with a config.
pub open spec fn said_config(r: Result<ModelConfig, JsonError>) -> Result<
    ConfigShape,
    JsonFailure,
> {
    match r {
        Ok(x) => Ok(x@),
        Err(e) => Err(e@),
    }
}

/// The contents of an outcome with a file.
pub open spec fn said_nam(r: Result<NamModel, JsonError>) -> Result<NamShape, JsonFailure> {
    match r {
        Ok(x) => Ok(x@),
        Err(e) => Err(e@),
    }
}

/// A complaint among the first layer-arrays is the complaint of the whole list.
proof fn lemma_arrays_first(layers: Seq<RawArray>, k: nat, n: nat)
    requires
        k <= n,
        arrays_normalized(layers, k) is Err,
    ensures
        arrays_normalized(layers, n) == arrays_normalized(layers, k),
    decreases n - k,
{
    if k < n {
        lemma_arrays_first(layers, k + 1, n);
    }
}

fn read_raw_arrays(v: &Json) -> (r: Vec<RawLayerArrayConfig>)
    requires
        v@ is Array,
        kind_complaint(Kind::Layers, v@) is None,
    ensures
        raws_of(r@) == raw_arrays(v@),
{
    let mut out: Vec<RawLayerArrayConfig> = Vec::new();
    match v {
        Json::Array(vs) => {
            let ghost items = v@->Array_0;
            let mut i: usize = 0;
            while i < vs.len()
                invariant
                    *v == Json::Array(*vs),
                    items == v@->Array_0,
                    items.len() == vs@.len(),
                    items_complaint(Kind::Layers, items, items.len()) is None,
                    i <= vs@.len(),
                    out@.len() == i,
                    forall|q: int|
                        0 <= q < i ==> raw_array(#[trigger] items[q]) == Ok::<RawArray, Seq<char>>(
                            out@[q]@,
                        ),
                decreases vs@.len() - i,
            {
                assert(items[i as int] == vs@[i as int]@);
                proof {
                    lemma_items_fit(Kind::Layers, items, items.len(), i as int);
                }
                out.push(RawLayerArrayConfig::from_json(&vs[i]).unwrap());
                i += 1;
            }
            assert(raws_of(out@) =~= raw_arrays(v@));
        },
        _ => {},
    }
    out
}

fn normalize_arrays(layers: Vec<RawLayerArrayConfig>) -> (r: Result<
    Vec<LayerArrayConfig>,
    String,
>)
    ensures
        match r {
            Ok(out) => arrays_normalized(raws_of(layers@), layers@.len()) == Ok::<
                Seq<ArrayShape>,
                Seq<char>,
            >(array_shapes(out@)),
            Err(m) => arrays_normalized(raws_of(layers@), layers@.len()) == Err::<
                Seq<ArrayShape>,
                Seq<char>,
            >(m@),
        },
{
    let ghost raws = raws_of(layers@);
    let ghost n = layers@.len();
    let ghost all = layers@;
    let mut out: Vec<LayerArrayConfig> = Vec::new();
    assert(array_shapes(out@) =~= Seq::empty());
    for raw in it: layers
        invariant
            it.seq() == all,
            raws == raws_of(all),
            n == all.len(),
            arrays_normalized(raws, it.index() as nat) == Ok::<Seq<ArrayShape>, Seq<char>>(
                array_shapes(out@),
            ),
    {
        let ghost before = array_shapes(out@);
        assert(raws[it.index()] == raw@);
        match raw.normalize() {
            Ok(la) => {
                out.push(la);
                assert(array_shapes(out@) =~= before.push(la@));
            },
            Err(m) => {
                proof {
                    lemma_arrays_first(raws, (it.index() + 1) as nat, n);
                }
                return Err(m);
            },
        }
    }
    Ok(out)
}

impl RawWaveNetConfig {
    pub closed spec fn view(&self) -> RawWaveNet {
        RawWaveNet {
            layers: raws_of(self.layers@),
            head: tree_of(self.head),
            head_scale: self.head_scale,
            in_channels: self.in_channels,
            condition_dsp: tree_of(self.condition_dsp),
        }
    }

    /// Read a WaveNet config, or say why it is none.
    pub fn from_json(t: &Json) -> (r: Result<RawWaveNetConfig, String>)
        ensures
            said_raw_wavenet(r) == raw_wavenet(t@),
    {
        match complain(t, &wavenet()) {
            Some(m) => {
                return Err(m);
            },
            None => {},
        }
        proof {
            let rec = wavenet_record();
            lemma_field(t@, rec, 0, "layers"@, Kind::Layers);
            lemma_holds(t@, rec, 0);
            lemma_field(t@, rec, 2, "head_scale"@, Kind::Single);
            lemma_field(t@, rec, 3, "in_channels"@, Kind::MaybeSize);
        }
        let layers: Vec<RawLayerArrayConfig> = read_raw_arrays(t.field("layers", 0).unwrap());
        let head_scale: JsonNumber = t.field("head_scale", 2).unwrap().as_number().unwrap();
        let in_channels: Option<usize> = read_maybe_size(t, "in_channels", 3).unwrap();
        Ok(
            RawWaveNetConfig {
                layers,
                head: read_maybe(t, "head", 1),
                head_scale,
                in_channels,
                condition_dsp: read_maybe(t, "condition_dsp", 4),
            },
        )
    }

    /// Normalize every layer-array, read the post-stack head, and read the nested model.
    /// `t` is the document that the config was read from.
    fn normalize(self, Ghost(t): Ghost<JsonTree>) -> (r: Result<WaveNetConfig, JsonError>)
        requires
            raw_wavenet(t) == Ok::<RawWaveNet, Seq<char>>(self@),
        ensures
            said_wavenet(r) == wavenet_json(t),
        decreases t, 0nat,
    {
        proof {
            lemma_field_smaller(t, "condition_dsp"@, 4);
        }
        let layers: Vec<LayerArrayConfig> = match normalize_arrays(self.layers) {
            Ok(x) => x,
            Err(m) => {
                return Err(JsonError::Content(m));
            },
        };
        let post_stack_head: Option<PostStackHeadConfig> = match &self.head {
            Some(h) => match PostStackHeadConfig::from_json(h) {
                Ok(x) => Some(x),
                Err(m) => {
                    return Err(JsonError::Content(m));
                },
            },
            None => None,
        };
        let condition_dsp: Option<Box<NamModel>> = match &self.condition_dsp {
            Some(v) => match NamModel::from_json(v) {
                Ok(m) => Some(Box::new(m)),
                Err(e) => {
                    return Err(e);
                },
            },
            None => None,
        };
        let in_channels: usize = match self.in_channels {
            Some(n) => n,
            None => 1,
        };
        Ok(
            WaveNetConfig {
                layers,
                post_stack_head,
                head_scale: self.head_scale,
                in_channels,
                condition_dsp,
            },
        )
    }
}

impl LstmConfig {
    /// Read an LSTM config, or say why it is none.
    pub fn from_json(t: &Json) -> (r: Result<LstmConfig, String>)
        ensures
            said_lstm(r) == lstm_json(t@),
    {
        match complain(t, &lstm()) {
            Some(m) => {
                return Err(m);
            },
            None => {},
        }
        proof {
            let rec = lstm_record();
            lemma_field(t@, rec, 0, "input_size"@, Kind::Size);
            lemma_field(t@, rec, 1, "hidden_size"@, Kind::Size);
            lemma_field(t@, rec, 2, "num_layers"@, Kind::Size);
        }
        Ok(
            LstmConfig {
                input_size: read_size_field(t, "input_size", 0).unwrap(),
                hidden_size: read_size_field(t, "hidden_size", 1).unwrap(),
                num_layers: read_size_field(t, "num_layers", 2).unwrap(),
            },
        )
    }
}

/// Where nothing is missing from a submodel, its fields can be read.
proof fn lemma_submodel_fields(t: JsonTree)
    requires
        present_complaint(t, submodel_record()) is None,
    ensures
        absent_complaint(t, submodel_record()) is None ==> t.field("max_value"@, 0) is Some
            && t.field("max_value"@, 0)->Some_0 is Number,
        t.field("model"@, 1) is None ==> absent_complaint(t, submodel_record()) is Some,
{
    let rec = submodel_record();
    assert(rec.fields[0] == ("max_value"@, Kind::Single));
    assert(rec.fields[1] == ("model"@, Kind::Any));
    lemma_present(t, rec, 0);
    if absent_complaint(t, rec) is None {
        lemma_complete(t, rec, 0);
        lemma_complete(t, rec, 1);
    }
}

impl SlimmableSubmodel {
    /// Read a submodel of a container.
    pub fn from_json(t: &Json) -> (r: Result<SlimmableSubmodel, JsonError>)
        ensures
            said_submodel(r) == submodel_json(t@),
        decreases t@, 0nat,
    {
        let rec = submodel();
        match complain_of_present(t, &rec) {
            Some(m) => {
                return Err(JsonError::Shape(m));
            },
            None => {},
        }
        proof {
            lemma_field_smaller(t@, "model"@, 1);
            lemma_submodel_fields(t@);
        }
        let model: Option<NamModel> = match t.field("model", 1) {
            Some(v) => match NamModel::from_json(v) {
                Ok(model) => Some(model),
                Err(e) => {
                    return Err(e);
                },
            },
            None => None,
        };
        match complain_of_absent(t, &rec) {
            Some(m) => Err(JsonError::Shape(m)),
            None => Ok(
                SlimmableSubmodel {
                    max_value: t.field("max_value", 0).unwrap().as_number().unwrap(),
                    model: model.unwrap(),
                },
            ),
        }
    }
}

/// A complaint among the first submodels is the complaint of the whole list.
proof fn lemma_submodels_first(items: Seq<JsonTree>, k: nat)
    requires
        k <= items.len(),
        submodels_json(items, k) is Err,
    ensures
        submodels_json(items, items.len()) == submodels_json(items, k),
    decreases items.len() - k,
{
    if k < items.len() {
        lemma_submodels_first(items, k + 1);
    }
}

impl SlimmableConfig {
    /// Read a container config.
    pub fn from_json(t: &Json) -> (r: Result<SlimmableConfig, JsonError>)
        ensures
            match r {
                Ok(c) => slimmable_json(t@) == Ok::<Seq<SubmodelShape>, JsonFailure>(
                    ModelConfig::Slimmable(c)@->Slimmable_0,
                ),
                Err(e) => slimmable_json(t@) == Err::<Seq<SubmodelShape>, JsonFailure>(e@),
            },
        decreases t@, 0nat,
    {
        let rec = slimmable();
        match complain_of_present(t, &rec) {
            Some(m) => {
                return Err(JsonError::Shape(m));
            },
            None => {},
        }
        proof {
            lemma_field_smaller(t@, "submodels"@, 0);
            assert(rec@.fields[0] == ("submodels"@, Kind::List));
            lemma_present(t@, rec@, 0);
            if absent_complaint(t@, rec@) is None {
                lemma_complete(t@, rec@, 0);
            }
        }
        let mut submodels: Vec<SlimmableSubmodel> = Vec::new();
        match t.field("submodels", 0) {
            Some(v) => match v {
                Json::Array(vs) => {
                    let ghost items = v@->Array_0;
                    let mut i: usize = 0;
                    while i < vs.len()
                        invariant
                            *v == Json::Array(*vs),
                            items == v@->Array_0,
                            items.len() == vs@.len(),
                            decreases_to!(t@ => v@),
                            t@.field("submodels"@, 0) == Some(v@),
                            present_complaint(t@, slimmable_record()) is None,
                            i <= vs@.len(),
                            submodels@.len() == i,
                            submodels_json(items, i as nat) is Ok,
                            submodels_json(items, i as nat)->Ok_0.len() == i,
                            forall|q: int|
                                0 <= q < i ==> (#[trigger] submodels@[q])@ == submodels_json(
                                    items,
                                    i as nat,
                                )->Ok_0[q],
                        decreases vs@.len() - i,
                    {
                        assert(items[i as int] == vs@[i as int]@);
                        assert(decreases_to!(v@ => v@->Array_0[i as int]));
                        match SlimmableSubmodel::from_json(&vs[i]) {
                            Ok(x) => {
                                submodels.push(x);
                            },
                            Err(e) => {
                                proof {
                                    lemma_submodels_first(items, (i + 1) as nat);
                                }
                                return Err(e);
                            },
                        }
                        i += 1;
                    }
                },
                _ => {},
            },
            None => {},
        }
        match complain_of_absent(t, &rec) {
            Some(m) => Err(JsonError::Shape(m)),
            None => {
                let c = SlimmableConfig { submodels };
                proof {
                    let items = t@.field("submodels"@, 0)->Some_0->Array_0;
                    assert(ModelConfig::Slimmable(c)@->Slimmable_0 =~= submodels_json(
                        items,
                        items.len(),
                    )->Ok_0);
                }
                Ok(c)
            },
        }
    }
}

impl ModelConfig {
    /// Read the config of a file of that architecture.
    pub fn from_json(architecture: &str, t: &Json) -> (r: Result<ModelConfig, JsonError>)
        ensures
            said_config(r) == config_json(architecture@, t@),
        decreases t@, 1nat,
    {
        if same(architecture, "WaveNet") {
            match RawWaveNetConfig::from_json(t) {
                Ok(raw) => match raw.normalize(Ghost(t@)) {
                    Ok(c) => Ok(ModelConfig::WaveNet(c)),
                    Err(e) => Err(e),
                },
                Err(m) => Err(JsonError::Shape(m)),
            }
        } else if same(architecture, "LSTM") {
            match LstmConfig::from_json(t) {
                Ok(c) => Ok(ModelConfig::Lstm(c)),
                Err(m) => Err(JsonError::Shape(m)),
            }
        } else if same(architecture, "SlimmableContainer") {
            match SlimmableConfig::from_json(t) {
                Ok(c) => Ok(ModelConfig::Slimmable(c)),
                Err(e) => Err(e),
            }
        } else {
            let text = Text::new().and("unsupported model architecture: ").and_quoted(
                architecture,
            );
            assert(text@ =~= "unsupported model architecture: "@ + debug_text(architecture@));
            Err(JsonError::Content(text.done()))
        }
    }
}

impl NamModel {
    /// Read a `.nam` model from a document.
    pub fn from_json(t: &Json) -> (r: Result<NamModel, JsonError>)
        ensures
            said_nam(r) == nam_json(t@),
        decreases t@, 0nat,
    {
        match complain(t, &nam()) {
            Some(m) => {
                return Err(JsonError::Shape(m));
            },
            None => {},
        }
        proof {
            lemma_field_smaller(t@, "config"@, 2);
            let rec = nam_record();
            lemma_field(t@, rec, 0, "version"@, Kind::Text);
            lemma_field(t@, rec, 1, "architecture"@, Kind::Text);
            lemma_field(t@, rec, 2, "config"@, Kind::Any);
            lemma_field(t@, rec, 3, "weights"@, Kind::Singles);
            lemma_field(t@, rec, 4, "sample_rate"@, Kind::MaybeDouble);
        }
        let version: String = t.field("version", 0).unwrap().as_string().unwrap();
        let architecture: String = t.field("architecture", 1).unwrap().as_string().unwrap();
        let weights: Vec<JsonNumber> = read_numbers(t.field("weights", 3).unwrap()).unwrap();
        let sample_rate: Option<JsonNumber> = read_maybe_number(t, "sample_rate", 4).unwrap();
        let config: ModelConfig = match ModelConfig::from_json(
            architecture.as_str(),
            t.field("config", 2).unwrap(),
        ) {
            Ok(x) => x,
            Err(e) => {
                return Err(e);
            },
        };
        let metadata: Option<Json> = read_maybe(t, "metadata", 5);
        Ok(NamModel { version, architecture, config, weights, sample_rate, metadata })
    }

    /// Parse a `.nam` model from a JSON string already in memory.
    pub fn from_json_str(json: &str) -> (r: Result<NamModel, Error>)
        ensures
            match r {
                Ok(m) => file_reading(json@) == Ok::<NamShape, JsonFailure>(m@) && m@.wf(),
                Err(e) => match file_reading(json@) {
                    Err(f) => e@ == Failure::Json(f),
                    Ok(_) => false,
                },
            },
    {
        let (tree, rest) = match read_document(json) {
            Ok(x) => x,
            Err(e) => {
                return Err(Error::Json(e));
            },
        };
        match NamModel::from_json(&tree) {
            Ok(m) => {
                proof {
                    lemma_nam_wf(tree@);
                }
                match complain_of_trailing(json, rest) {
                    Some(e) => Err(Error::Json(e)),
                    None => Ok(m),
                }
            },
            Err(e) => Err(Error::Json(e)),
        }
    }
}

/// The model that the text of a file holds, or what is wrong with it: first with its
/// fields, then with its config, and last with what follows.
pub open spec fn file_reading(text: Seq<char>) -> Result<NamShape, JsonFailure> {
    match document(text) {
        Err(f) => Err(f),
        Ok((tree, rest)) => match nam_json(tree) {
            Err(f) => Err(f),
            Ok(m) => match trailing(text, rest) {
                Some(f) => Err(f),
                None => Ok(m),
            },
        },
    }
}

proof fn lemma_arrays_wf(layers: Seq<RawArray>, k: nat)
    ensures
        arrays_normalized(layers, k) matches Ok(out) ==> forall|i: int|
            0 <= i < out.len() ==> (#[trigger] out[i]).wf(),
    decreases k,
{
    if k > 0 {
        lemma_arrays_wf(layers, (k - 1) as nat);
        layers[k - 1].lemma_normalized_wf();
    }
}

proof fn lemma_submodels_wf(items: Seq<JsonTree>, k: nat)
    ensures
        submodels_json(items, k) matches Ok(subs) ==> forall|i: int|
            0 <= i < subs.len() ==> (#[trigger] subs[i]).model.wf(),
    decreases items, k,
{
    if 0 < k <= items.len() {
        lemma_submodels_wf(items, (k - 1) as nat);
        let t = items[k - 1];
        lemma_field_smaller(t, "model"@, 1);
        if submodels_json(items, k) is Ok {
            let before = submodels_json(items, (k - 1) as nat)->Ok_0;
            let last = submodel_json(t)->Ok_0;
            let v = t.field("model"@, 1)->Some_0;
            lemma_nam_wf(v);
            assert(last.model == nam_json(v)->Ok_0);
            assert(submodels_json(items, k)->Ok_0 == before.push(last));
            assert forall|i: int| 0 <= i < before.push(last).len() implies (
            #[trigger] before.push(last)[i]).model.wf() by {
                if i < before.len() {
                    assert(before[i].model.wf());
                }
            }
        }
    }
}

/// Every layer-array of a file that was read, and of the models nested in it, gives its
/// per-layer quantities for every layer.
pub proof fn lemma_nam_wf(t: JsonTree)
    ensures
        nam_json(t) matches Ok(m) ==> m.wf(),
    decreases t, 0nat,
{
    lemma_field_smaller(t, "config"@, 2);
    if nam_json(t) is Ok {
        let c = t.field("config"@, 2)->Some_0;
        lemma_field_smaller(c, "condition_dsp"@, 4);
        lemma_field_smaller(c, "submodels"@, 0);
        match raw_wavenet(c) {
            Ok(raw) => {
                lemma_arrays_wf(raw.layers, raw.layers.len());
                match raw.condition_dsp {
                    Some(v) => {
                        lemma_nam_wf(v);
                    },
                    None => {},
                }
            },
            Err(_) => {},
        }
        match c.field("submodels"@, 0) {
            Some(JsonTree::Array(items)) => {
                lemma_submodels_wf(items, items.len());
            },
            _ => {},
        }
    }
}

} // verus!
