//! What a config that was read has to do with the document it was read from.

use vstd::prelude::*;
use crate::error::JsonFailure;
use crate::json::{lookup, JsonNumber, JsonTree};
use crate::metadata::{
    bounded_field, cab_in, date_of, folded, has_token, lemma_letters_insignificant,
    lemma_padding_insignificant, metadata_of, number_entry, spelling, text_entry, token_at,
    trim_end, trim_start, white, Date, MetadataShape,
};
use crate::model::{
    ActivationChoice, ArrayShape, ConfigShape, FilmConfig, GatingMode, Head1x1Config,
    Layer1x1Config, LstmConfig, NamShape, PostHeadShape, SubmodelShape, WaveNetShape,
};
use crate::parser::fields::{
    lemma_field, maybe_field, maybe_flag_field, maybe_size_field, maybe_sizes_field, size_field,
    sizes, sizes_field,
};
use crate::parser::layers::{gatings_listed, raw_array, RawArray};
use crate::parser::options::{activation_of, film_of, flag, size};
use crate::parser::records::{
    array_record, lemma_holds, lemma_items_fit, lstm_record, nam_record, submodel_record,
    wavenet_record, Kind,
};
use crate::parser::{
    arrays_normalized, lstm_json, nam_json, post_head_json, raw_wavenet, slimmable_json,
    submodel_json, submodels_json, wavenet_json,
};

verus! {

// ---- Documents ----

/// Whether `v` stands in a record under a name, or in the place of the field of that name.
pub open spec fn stands(t: JsonTree, key: Seq<char>, place: int, v: JsonTree) -> bool {
    match t {
        JsonTree::Object(ms) => exists|i: int| 0 <= i < ms.len() && #[trigger] ms[i] == (key, v),
        JsonTree::Array(vs) => 0 <= place < vs.len() && vs[place] == v,
        _ => false,
    }
}

/// Whether nothing stands in a record under that name, or in its place, or only `null`.
pub open spec fn unset(t: JsonTree, key: Seq<char>, place: int) -> bool {
    ||| stands(t, key, place, JsonTree::Null)
    ||| match t {
        JsonTree::Object(ms) => forall|i: int| 0 <= i < ms.len() ==> (#[trigger] ms[i]).0 != key,
        JsonTree::Array(vs) => place >= vs.len(),
        _ => true,
    }
}

/// A size, as a document writes it.
pub open spec fn whole(n: usize) -> JsonTree {
    JsonTree::Number(JsonNumber::PosInt(n as u64))
}

/// Whether a value is the list of these sizes.
pub open spec fn lists(v: JsonTree, ns: Seq<usize>) -> bool {
    match v {
        JsonTree::Array(vs) => vs.len() == ns.len() && forall|i: int|
            0 <= i < vs.len() ==> #[trigger] vs[i] == whole(ns[i]),
        _ => false,
    }
}

/// Whether member `i` is the first of that name, and `x` its value.
pub open spec fn first_at(
    ms: Seq<(Seq<char>, JsonTree)>,
    key: Seq<char>,
    x: JsonTree,
    i: int,
) -> bool {
    &&& 0 <= i < ms.len()
    &&& ms[i] == (key, x)
    &&& forall|j: int| 0 <= j < i ==> (#[trigger] ms[j]).0 != key
}

/// Whether `x` is the first that stands in an object under that name.
pub open spec fn first(v: JsonTree, key: Seq<char>, x: JsonTree) -> bool {
    match v {
        JsonTree::Object(ms) => exists|i: int| #[trigger] first_at(ms, key, x, i),
        _ => false,
    }
}

/// Whether nothing stands in a value under that name.
pub open spec fn lacks(v: JsonTree, key: Seq<char>) -> bool {
    match v {
        JsonTree::Object(ms) => forall|i: int| 0 <= i < ms.len() ==> (#[trigger] ms[i]).0 != key,
        _ => true,
    }
}

/// A name is looked up at the first member that has it, which this gives, and not found where
/// none does.
pub proof fn lemma_lookup_at(ms: Seq<(Seq<char>, JsonTree)>, key: Seq<char>) -> (i: int)
    ensures
        0 <= i <= ms.len(),
        forall|j: int| 0 <= j < i ==> (#[trigger] ms[j]).0 != key,
        match lookup(ms, key) {
            Some(x) => i < ms.len() && ms[i] == (key, x),
            None => i == ms.len(),
        },
    decreases ms.len(),
{
    if ms.len() == 0 {
        0
    } else if ms[0].0 == key {
        0
    } else {
        let rest = ms.drop_first();
        let i = lemma_lookup_at(rest, key);
        assert forall|j: int| 0 <= j < i + 1 implies (#[trigger] ms[j]).0 != key by {
            if j > 0 {
                assert(rest[j - 1] == ms[j]);
            }
        }
        i + 1
    }
}

proof fn lemma_lookup_first(ms: Seq<(Seq<char>, JsonTree)>, key: Seq<char>)
    ensures
        match lookup(ms, key) {
            Some(x) => first(JsonTree::Object(ms), key, x),
            None => lacks(JsonTree::Object(ms), key),
        },
{
    let i = lemma_lookup_at(ms, key);
    let v = JsonTree::Object(ms);
    match lookup(ms, key) {
        Some(x) => {
            assert(first_at(v->Object_0, key, x, i));
            assert(first(v, key, x));
        },
        None => {
            assert(lacks(v, key));
        },
    }
}

/// What an object is asked for by name is the first that stands there under it.
pub proof fn lemma_get(v: JsonTree, key: Seq<char>)
    ensures
        match v.get(key) {
            Some(x) => first(v, key, x),
            None => lacks(v, key),
        },
{
    match v {
        JsonTree::Object(ms) => {
            lemma_lookup_first(ms, key);
        },
        _ => {},
    }
}

/// What a record is asked for is what stands there under the name, or in the place.
pub proof fn lemma_field_stands(t: JsonTree, key: Seq<char>, place: int)
    requires
        0 <= place,
    ensures
        match t.field(key, place) {
            Some(v) => stands(t, key, place, v),
            None => unset(t, key, place),
        },
{
    match t {
        JsonTree::Object(ms) => {
            lemma_lookup_first(ms, key);
        },
        _ => {},
    }
}

// ---- Sizes and flags ----

proof fn lemma_size(t: JsonTree, key: Seq<char>, place: int)
    requires
        0 <= place,
        size_field(t, key, place) is Some,
    ensures
        stands(t, key, place, whole(size_field(t, key, place)->Some_0)),
{
    lemma_field_stands(t, key, place);
}

proof fn lemma_maybe_size(t: JsonTree, key: Seq<char>, place: int)
    requires
        0 <= place,
        maybe_size_field(t, key, place) is Some,
    ensures
        match maybe_size_field(t, key, place)->Some_0 {
            Some(n) => stands(t, key, place, whole(n)),
            None => unset(t, key, place),
        },
{
    lemma_field_stands(t, key, place);
}

proof fn lemma_maybe_flag(t: JsonTree, key: Seq<char>, place: int)
    requires
        0 <= place,
        maybe_flag_field(t, key, place) is Some,
    ensures
        match maybe_flag_field(t, key, place)->Some_0 {
            Some(b) => stands(t, key, place, JsonTree::Bool(b)),
            None => unset(t, key, place),
        },
{
    lemma_field_stands(t, key, place);
}

proof fn lemma_lists(v: JsonTree)
    requires
        sizes(v) is Some,
    ensures
        lists(v, sizes(v)->Some_0),
{
    let vs = v->Array_0;
    let ns = sizes(v)->Some_0;
    assert forall|i: int| 0 <= i < vs.len() implies #[trigger] vs[i] == whole(ns[i]) by {
        assert(vs[i].as_usize() is Some);
    }
}

// ---- Activations ----

/// Whether a value by itself reads as that activation: a bare name, or an object with a
/// `type` and perhaps a number as `negative_slope`. Anything else is kept as it is.
pub open spec fn reads_as(v: JsonTree, a: ActivationChoice) -> bool {
    match a {
        ActivationChoice::Named { name, negative_slope } => {
            ||| v == JsonTree::String(name) && negative_slope is None
            ||| first(v, "type"@, JsonTree::String(name)) && match negative_slope {
                Some(n) => first(v, "negative_slope"@, JsonTree::Number(n)),
                None => lacks(v, "negative_slope"@) || first(
                    v,
                    "negative_slope"@,
                    JsonTree::Null,
                ),
            }
        },
        ActivationChoice::Unsupported(u) => u == v && !(v is String) && (v is Object ==> {
            ||| lacks(v, "type"@)
            ||| exists|x: JsonTree| #[trigger] first(v, "type"@, x) && !(x is String)
            ||| exists|x: JsonTree| #[trigger]
                first(v, "negative_slope"@, x) && !(x is Number) && x != JsonTree::Null
        }),
    }
}

proof fn lemma_reads(v: JsonTree)
    ensures
        reads_as(v, activation_of(v)),
{
    lemma_get(v, "type"@);
    lemma_get(v, "negative_slope"@);
}

/// The sigmoid by its name.
pub open spec fn sigmoid_by_name() -> ActivationChoice {
    ActivationChoice::Named { name: "Sigmoid"@, negative_slope: None }
}

/// Where the activation of a layer-array is a list, it has an entry for every layer, and
/// layer `i` has the activation that entry `i` reads as by itself; where it is anything
/// else, every layer has the activation that it reads as.
pub proof fn lemma_activations_by_layer(raw: RawArray, i: int)
    requires
        raw.normalized() is Ok,
        0 <= i < raw.dilations.len(),
    ensures
        raw.normalized()->Ok_0.activations.len() == raw.dilations.len(),
        match raw.activation {
            JsonTree::Array(items) => items.len() == raw.dilations.len() && reads_as(
                items[i],
                raw.normalized()->Ok_0.activations[i],
            ),
            v => reads_as(v, raw.normalized()->Ok_0.activations[i]),
        },
{
    match raw.activation {
        JsonTree::Array(items) => {
            lemma_reads(items[i]);
        },
        v => {
            lemma_reads(v);
        },
    }
}

/// A layer has from a list what it would have if its entry stood there for all layers.
pub proof fn lemma_list_against_entry(raw: RawArray, items: Seq<JsonTree>, i: int)
    requires
        raw.normalized() is Ok,
        raw.activation == JsonTree::Array(items),
        0 <= i < items.len(),
        !(items[i] is Array),
    ensures
        (RawArray { activation: items[i], ..raw }).normalized() is Ok,
        (RawArray { activation: items[i], ..raw }).normalized()->Ok_0.activations[i]
            == raw.normalized()->Ok_0.activations[i],
{
    let one = RawArray { activation: items[i], ..raw };
    assert(one.depth() == raw.depth());
    assert(one.kernels() == raw.kernels());
    assert(one.gatings() == raw.gatings());
    assert(one.secondaries() == raw.secondaries());
    assert(one.head_rechannel() == raw.head_rechannel());
}

/// Layer-arrays whose lists of activations differ in entry `i` only differ in layer `i`
/// only; and they do differ there, where one entry is a name and the other is not that
/// name.
pub proof fn lemma_entry_decides_its_layer(
    raw: RawArray,
    items: Seq<JsonTree>,
    i: int,
    v: JsonTree,
)
    requires
        raw.normalized() is Ok,
        raw.activation == JsonTree::Array(items),
        0 <= i < items.len(),
    ensures
        ({
            let other = RawArray { activation: JsonTree::Array(items.update(i, v)), ..raw };
            let a = raw.normalized()->Ok_0.activations;
            let b = other.normalized()->Ok_0.activations;
            &&& other.normalized() is Ok
            &&& forall|j: int| 0 <= j < items.len() && j != i ==> #[trigger] a[j] == b[j]
            &&& v is String && items[i] is String && v != items[i] ==> a[i] != b[i]
            &&& v == items[i] ==> a[i] == b[i]
        }),
{
    let other = RawArray { activation: JsonTree::Array(items.update(i, v)), ..raw };
    assert(other.depth() == raw.depth());
    assert(other.kernels() == raw.kernels());
    assert(other.gatings() == raw.gatings());
    assert(other.secondaries() == raw.secondaries());
    assert(other.head_rechannel() == raw.head_rechannel());
    assert(other.normalized() is Ok);
    assert forall|j: int| 0 <= j < items.len() && j != i implies #[trigger] raw.normalized()->Ok_0.activations[j]
        == other.normalized()->Ok_0.activations[j] by {
        assert(items.update(i, v)[j] == items[j]);
    }
}

/// The secondary activations: of a list, layer `i` has what entry `i` reads as, and the
/// sigmoid where that is `null`; anything else stands for every layer; and where a
/// layer-array names none, every layer has the sigmoid.
pub proof fn lemma_secondaries_by_layer(raw: RawArray, i: int)
    requires
        raw.normalized() is Ok,
        0 <= i < raw.dilations.len(),
    ensures
        ({
            let a = raw.normalized()->Ok_0.secondary_activations;
            &&& a.len() == raw.dilations.len()
            &&& match raw.secondary_activation {
                None => a[i] == sigmoid_by_name(),
                Some(JsonTree::Null) => a[i] == sigmoid_by_name(),
                Some(JsonTree::Array(items)) => items.len() == raw.dilations.len() && if items[i]
                    == JsonTree::Null {
                    a[i] == sigmoid_by_name()
                } else {
                    reads_as(items[i], a[i])
                },
                Some(v) => reads_as(v, a[i]),
            }
        }),
{
    match raw.secondary_activation {
        Some(JsonTree::Array(items)) => {
            lemma_reads(items[i]);
        },
        Some(v) => {
            lemma_reads(v);
        },
        None => {},
    }
}

// ---- Gating ----

/// The name of a gating mode.
pub open spec fn mode_name(g: GatingMode) -> Seq<char> {
    match g {
        GatingMode::Ungated => "none"@,
        GatingMode::Gated => "gated"@,
        GatingMode::Blended => "blended"@,
    }
}

proof fn lemma_gating_listed(items: Seq<JsonTree>, k: nat, i: int)
    requires
        gatings_listed(items, k) is Ok,
        0 <= i < k,
    ensures
        gatings_listed(items, k)->Ok_0.len() == k,
        items[i] == JsonTree::String(mode_name(gatings_listed(items, k)->Ok_0[i])),
    decreases k,
{
    lemma_gating_listed_len(items, (k - 1) as nat);
    if i < k - 1 {
        lemma_gating_listed(items, (k - 1) as nat, i);
    }
}

proof fn lemma_gating_listed_len(items: Seq<JsonTree>, k: nat)
    ensures
        gatings_listed(items, k) is Ok ==> gatings_listed(items, k)->Ok_0.len() == k,
    decreases k,
{
    if k > 0 {
        lemma_gating_listed_len(items, (k - 1) as nat);
    }
}

/// The gating modes: of a list, layer `i` has the mode that entry `i` names; a bare name
/// stands for every layer; and where a layer-array names none, every layer is gated where
/// it says `gated`, and none where it does not.
pub proof fn lemma_gating_by_layer(raw: RawArray, i: int)
    requires
        raw.normalized() is Ok,
        0 <= i < raw.dilations.len(),
    ensures
        ({
            let g = raw.normalized()->Ok_0.gating_modes;
            &&& g.len() == raw.dilations.len()
            &&& match raw.gating_mode {
                Some(JsonTree::Array(items)) => items.len() == raw.dilations.len() && items[i]
                    == JsonTree::String(mode_name(g[i])),
                Some(v) => v == JsonTree::String(mode_name(g[i])),
                None => g[i] == if raw.gated == Some(true) {
                    GatingMode::Gated
                } else {
                    GatingMode::Ungated
                },
            }
        }),
{
    match raw.gating_mode {
        Some(JsonTree::Array(items)) => {
            lemma_gating_listed(items, raw.depth(), i);
        },
        _ => {},
    }
}

// ---- Kernel sizes and heads ----

/// The kernel sizes: one for all layers, or a list with one for each; not both.
pub proof fn lemma_kernels_by_layer(raw: RawArray)
    requires
        raw.normalized() is Ok,
    ensures
        ({
            let s = raw.normalized()->Ok_0;
            &&& s.dilations == raw.dilations
            &&& s.dilations.len() > 0
            &&& s.kernel_sizes.len() == raw.dilations.len()
            &&& match raw.kernel_size {
                Some(k) => raw.kernel_sizes is None && forall|i: int|
                    0 <= i < s.kernel_sizes.len() ==> #[trigger] s.kernel_sizes[i] == k,
                None => raw.kernel_sizes == Some(s.kernel_sizes),
            }
        }),
{
}

/// Whether a flag of a block is `b`: as it stands there, or `default` where no flag does.
pub open spec fn flagged(v: JsonTree, key: Seq<char>, default: bool, b: bool) -> bool {
    ||| first(v, key, JsonTree::Bool(b))
    ||| b == default && forall|c: bool| !#[trigger] first(v, key, JsonTree::Bool(c))
}

/// There is one first.
pub proof fn lemma_first_once(v: JsonTree, key: Seq<char>, x: JsonTree, y: JsonTree)
    requires
        first(v, key, x),
        first(v, key, y),
    ensures
        x == y,
{
    let ms = v->Object_0;
    let i = choose|i: int| #[trigger] first_at(ms, key, x, i);
    let k = choose|k: int| #[trigger] first_at(ms, key, y, k);
    assert(ms[i].0 == key && ms[k].0 == key);
    assert(i == k);
}

/// What an object lacks does not stand in it.
pub proof fn lemma_lacks_none(v: JsonTree, key: Seq<char>, x: JsonTree)
    requires
        lacks(v, key),
    ensures
        !first(v, key, x),
{
    if first(v, key, x) {
        let ms = v->Object_0;
        let i = choose|i: int| #[trigger] first_at(ms, key, x, i);
        assert(ms[i].0 == key);
    }
}

proof fn lemma_flag(v: JsonTree, key: Seq<char>, default: bool)
    ensures
        flagged(v, key, default, flag(v, key, default)),
{
    lemma_get(v, key);
    match v.get(key) {
        Some(JsonTree::Bool(b)) => {},
        Some(x) => {
            assert forall|c: bool| !#[trigger] first(v, key, JsonTree::Bool(c)) by {
                if first(v, key, JsonTree::Bool(c)) {
                    lemma_first_once(v, key, x, JsonTree::Bool(c));
                }
            }
        },
        None => {
            assert forall|c: bool| !#[trigger] first(v, key, JsonTree::Bool(c)) by {
                lemma_lacks_none(v, key, JsonTree::Bool(c));
            }
        },
    }
}

/// Whether a size of a block is `n`.
pub open spec fn sized(v: JsonTree, key: Seq<char>, n: usize) -> bool {
    exists|u: u64| #[trigger]
        first(v, key, JsonTree::Number(JsonNumber::PosInt(u))) && n == u as usize
}

/// Whether a size of a block is not given.
pub open spec fn sizeless(v: JsonTree, key: Seq<char>) -> bool {
    forall|u: u64| !#[trigger] first(v, key, JsonTree::Number(JsonNumber::PosInt(u)))
}

/// A size of a block is what stands there, and not given where no integer from zero upwards
/// does.
pub proof fn lemma_block_size(v: JsonTree, key: Seq<char>)
    ensures
        match size(v, key) {
            Some(n) => sized(v, key, n),
            None => sizeless(v, key),
        },
{
    lemma_get(v, key);
    match v.get(key) {
        Some(JsonTree::Number(JsonNumber::PosInt(u))) => {
            assert(first(v, key, JsonTree::Number(JsonNumber::PosInt(u))));
        },
        Some(x) => {
            assert forall|u: u64| !#[trigger] first(
                v,
                key,
                JsonTree::Number(JsonNumber::PosInt(u)),
            ) by {
                if first(v, key, JsonTree::Number(JsonNumber::PosInt(u))) {
                    lemma_first_once(v, key, x, JsonTree::Number(JsonNumber::PosInt(u)));
                }
            }
        },
        None => {
            assert forall|u: u64| !#[trigger] first(
                v,
                key,
                JsonTree::Number(JsonNumber::PosInt(u)),
            ) by {
                lemma_lacks_none(v, key, JsonTree::Number(JsonNumber::PosInt(u)));
            }
        },
    }
}

/// Whether a count of groups is `n`: as it stands there, or one.
pub open spec fn grouped(v: JsonTree, n: usize) -> bool {
    ||| sized(v, "groups"@, n)
    ||| n == 1 && sizeless(v, "groups"@)
}

/// The head rechannel: width, kernel size and bias as the `head` block has them, with a
/// bias where it does not say; without such a block the `head_size`, a single tap, and a
/// bias where `head_bias` says so.
pub proof fn lemma_head_rechannel_read(raw: RawArray)
    requires
        raw.normalized() is Ok,
    ensures
        ({
            let s = raw.normalized()->Ok_0;
            match raw.head {
                Some(h) => {
                    &&& sized(h, "out_channels"@, s.head_size)
                    &&& sized(h, "kernel_size"@, s.head_kernel_size)
                    &&& flagged(h, "bias"@, true, s.head_bias)
                },
                None => {
                    &&& raw.head_size == Some(s.head_size)
                    &&& s.head_kernel_size == 1
                    &&& s.head_bias == (raw.head_bias == Some(true))
                },
            }
        }),
{
    match raw.head {
        Some(h) => {
            lemma_block_size(h, "out_channels"@);
            lemma_block_size(h, "kernel_size"@);
            lemma_flag(h, "bias"@, true);
        },
        None => {},
    }
}

/// Whether a residual 1x1 is what its block says: there and in one group where the block
/// does not say otherwise.
pub open spec fn layer1x1_read(v: Option<JsonTree>, c: Layer1x1Config) -> bool {
    match v {
        None => c.active && c.groups == 1,
        Some(o) => flagged(o, "active"@, true, c.active) && grouped(o, c.groups),
    }
}

/// Whether a head 1x1 is what its block says: not there where the block does not say so.
pub open spec fn head1x1_read(v: Option<JsonTree>, c: Head1x1Config) -> bool {
    match v {
        None => !c.active && c.out_channels is None && c.groups == 1,
        Some(o) => {
            &&& flagged(o, "active"@, false, c.active)
            &&& grouped(o, c.groups)
            &&& match c.out_channels {
                Some(n) => sized(o, "out_channels"@, n),
                None => sizeless(o, "out_channels"@),
            }
        },
    }
}

/// Whether a FiLM site is what its block says: not there without a block or where that is
/// `false`; with one it is active and shifts where the block does not say otherwise.
pub open spec fn film_read(v: Option<JsonTree>, c: FilmConfig) -> bool {
    match v {
        None => !c.active && !c.shift && c.groups == 1,
        Some(JsonTree::Bool(false)) => !c.active && !c.shift && c.groups == 1,
        Some(o) => {
            &&& flagged(o, "active"@, true, c.active)
            &&& flagged(o, "shift"@, true, c.shift)
            &&& grouped(o, c.groups)
        },
    }
}

proof fn lemma_film(v: Option<JsonTree>)
    ensures
        film_read(v, film_of(v)),
{
    match v {
        Some(o) => {
            lemma_flag(o, "active"@, true);
            lemma_flag(o, "shift"@, true);
            lemma_block_size(o, "groups"@);
        },
        None => {},
    }
}

/// The blocks of a layer: each 1x1 and each FiLM site is what the block of its own name
/// says.
pub proof fn lemma_blocks_read(raw: RawArray)
    requires
        raw.normalized() is Ok,
    ensures
        ({
            let s = raw.normalized()->Ok_0;
            &&& layer1x1_read(raw.layer1x1, s.layer1x1)
            &&& head1x1_read(raw.head1x1, s.head1x1)
            &&& film_read(raw.conv_pre_film, s.conv_pre_film)
            &&& film_read(raw.conv_post_film, s.conv_post_film)
            &&& film_read(raw.input_mixin_pre_film, s.input_mixin_pre_film)
            &&& film_read(raw.input_mixin_post_film, s.input_mixin_post_film)
            &&& film_read(raw.activation_pre_film, s.activation_pre_film)
            &&& film_read(raw.activation_post_film, s.activation_post_film)
            &&& film_read(raw.layer1x1_post_film, s.layer1x1_post_film)
            &&& film_read(raw.head1x1_post_film, s.head1x1_post_film)
        }),
{
    lemma_film(raw.conv_pre_film);
    lemma_film(raw.conv_post_film);
    lemma_film(raw.input_mixin_pre_film);
    lemma_film(raw.input_mixin_post_film);
    lemma_film(raw.activation_pre_film);
    lemma_film(raw.activation_post_film);
    lemma_film(raw.layer1x1_post_film);
    lemma_film(raw.head1x1_post_film);
    match raw.layer1x1 {
        Some(o) => {
            lemma_flag(o, "active"@, true);
            lemma_block_size(o, "groups"@);
        },
        None => {},
    }
    match raw.head1x1 {
        Some(o) => {
            lemma_flag(o, "active"@, false);
            lemma_block_size(o, "groups"@);
            lemma_block_size(o, "out_channels"@);
        },
        None => {},
    }
}

/// The widths of a layer-array, as they stand there; a bottleneck as wide as its channels
/// and a single group where it does not say otherwise.
pub proof fn lemma_widths_read(raw: RawArray)
    requires
        raw.normalized() is Ok,
    ensures
        ({
            let s = raw.normalized()->Ok_0;
            &&& s.input_size == raw.input_size
            &&& s.condition_size == raw.condition_size
            &&& s.channels == raw.channels
            &&& match raw.bottleneck {
                Some(n) => s.bottleneck == n,
                None => s.bottleneck == raw.channels,
            }
            &&& match raw.groups_input {
                Some(n) => s.groups_input == n,
                None => s.groups_input == 1,
            }
            &&& match raw.groups_input_mixin {
                Some(n) => s.groups_input_mixin == n,
                None => s.groups_input_mixin == 1,
            }
        }),
{
}

// ---- Layer-arrays ----

/// Whether a size is what stands there, and not given where nothing does.
pub open spec fn size_stands(t: JsonTree, key: Seq<char>, place: int, n: Option<usize>) -> bool {
    match n {
        Some(k) => stands(t, key, place, whole(k)),
        None => unset(t, key, place),
    }
}

/// Whether a flag is what stands there, and not given where nothing does.
pub open spec fn flag_stands(t: JsonTree, key: Seq<char>, place: int, b: Option<bool>) -> bool {
    match b {
        Some(c) => stands(t, key, place, JsonTree::Bool(c)),
        None => unset(t, key, place),
    }
}

/// Whether a block is what stands there, and not given where nothing does.
pub open spec fn block_stands(
    t: JsonTree,
    key: Seq<char>,
    place: int,
    v: Option<JsonTree>,
) -> bool {
    match v {
        Some(x) => x != JsonTree::Null && stands(t, key, place, x),
        None => unset(t, key, place),
    }
}

/// Whether a list of sizes stands there.
pub open spec fn list_stands(t: JsonTree, key: Seq<char>, place: int, ns: Seq<usize>) -> bool {
    exists|v: JsonTree| #[trigger] stands(t, key, place, v) && lists(v, ns)
}

proof fn lemma_block(t: JsonTree, key: Seq<char>, place: int)
    requires
        0 <= place,
    ensures
        block_stands(t, key, place, maybe_field(t, key, place)),
{
    lemma_field_stands(t, key, place);
}

proof fn lemma_list(t: JsonTree, key: Seq<char>, place: int)
    requires
        0 <= place,
        sizes_field(t, key, place) is Some,
    ensures
        list_stands(t, key, place, sizes_field(t, key, place)->Some_0),
{
    lemma_field_stands(t, key, place);
    lemma_lists(t.field(key, place)->Some_0);
}

proof fn lemma_maybe_list(t: JsonTree, key: Seq<char>, place: int)
    requires
        0 <= place,
        maybe_sizes_field(t, key, place) is Some,
    ensures
        match maybe_sizes_field(t, key, place)->Some_0 {
            Some(ns) => list_stands(t, key, place, ns),
            None => unset(t, key, place),
        },
{
    lemma_field_stands(t, key, place);
    match t.field(key, place) {
        Some(v) => {
            if v != JsonTree::Null {
                lemma_lists(v);
            }
        },
        None => {},
    }
}

/// Every field of a layer-array is what stands in the document under its own name, or in
/// its place among the fields.
pub proof fn lemma_array_fields_stand(t: JsonTree)
    requires
        raw_array(t) is Ok,
    ensures
        ({
            let r = raw_array(t)->Ok_0;
            &&& stands(t, "input_size"@, 0, whole(r.input_size))
            &&& stands(t, "condition_size"@, 1, whole(r.condition_size))
            &&& stands(t, "channels"@, 2, whole(r.channels))
            &&& size_stands(t, "bottleneck"@, 3, r.bottleneck)
            &&& list_stands(t, "dilations"@, 4, r.dilations)
            &&& size_stands(t, "kernel_size"@, 5, r.kernel_size)
            &&& match r.kernel_sizes {
                Some(ks) => list_stands(t, "kernel_sizes"@, 6, ks),
                None => unset(t, "kernel_sizes"@, 6),
            }
            &&& stands(t, "activation"@, 7, r.activation)
            &&& flag_stands(t, "gated"@, 9, r.gated)
            &&& size_stands(t, "groups_input"@, 11, r.groups_input)
            &&& size_stands(t, "groups_input_mixin"@, 12, r.groups_input_mixin)
            &&& size_stands(t, "head_size"@, 14, r.head_size)
            &&& flag_stands(t, "head_bias"@, 15, r.head_bias)
            &&& block_stands(t, "gating_mode"@, 8, r.gating_mode)
            &&& block_stands(t, "secondary_activation"@, 10, r.secondary_activation)
            &&& block_stands(t, "head"@, 13, r.head)
            &&& block_stands(t, "layer1x1"@, 16, r.layer1x1)
            &&& block_stands(t, "head1x1"@, 17, r.head1x1)
            &&& block_stands(t, "conv_pre_film"@, 18, r.conv_pre_film)
            &&& block_stands(t, "conv_post_film"@, 19, r.conv_post_film)
            &&& block_stands(t, "input_mixin_pre_film"@, 20, r.input_mixin_pre_film)
            &&& block_stands(t, "input_mixin_post_film"@, 21, r.input_mixin_post_film)
            &&& block_stands(t, "activation_pre_film"@, 22, r.activation_pre_film)
            &&& block_stands(t, "activation_post_film"@, 23, r.activation_post_film)
            &&& block_stands(t, "layer1x1_post_film"@, 24, r.layer1x1_post_film)
            &&& block_stands(t, "head1x1_post_film"@, 25, r.head1x1_post_film)
        }),
{
    let rec = array_record();
    lemma_field(t, rec, 0, "input_size"@, Kind::Size);
    lemma_field(t, rec, 1, "condition_size"@, Kind::Size);
    lemma_field(t, rec, 2, "channels"@, Kind::Size);
    lemma_field(t, rec, 3, "bottleneck"@, Kind::MaybeSize);
    lemma_field(t, rec, 4, "dilations"@, Kind::Sizes);
    lemma_field(t, rec, 5, "kernel_size"@, Kind::MaybeSize);
    lemma_field(t, rec, 6, "kernel_sizes"@, Kind::MaybeSizes);
    lemma_field(t, rec, 7, "activation"@, Kind::Any);
    lemma_field(t, rec, 9, "gated"@, Kind::MaybeFlag);
    lemma_field(t, rec, 11, "groups_input"@, Kind::MaybeSize);
    lemma_field(t, rec, 12, "groups_input_mixin"@, Kind::MaybeSize);
    lemma_field(t, rec, 14, "head_size"@, Kind::MaybeSize);
    lemma_field(t, rec, 15, "head_bias"@, Kind::MaybeFlag);
    lemma_size(t, "input_size"@, 0);
    lemma_size(t, "condition_size"@, 1);
    lemma_size(t, "channels"@, 2);
    lemma_maybe_size(t, "bottleneck"@, 3);
    lemma_list(t, "dilations"@, 4);
    lemma_maybe_size(t, "kernel_size"@, 5);
    lemma_maybe_list(t, "kernel_sizes"@, 6);
    lemma_field_stands(t, "activation"@, 7);
    lemma_maybe_flag(t, "gated"@, 9);
    lemma_maybe_size(t, "groups_input"@, 11);
    lemma_maybe_size(t, "groups_input_mixin"@, 12);
    lemma_maybe_size(t, "head_size"@, 14);
    lemma_maybe_flag(t, "head_bias"@, 15);
    lemma_block(t, "gating_mode"@, 8);
    lemma_block(t, "secondary_activation"@, 10);
    lemma_block(t, "head"@, 13);
    lemma_block(t, "layer1x1"@, 16);
    lemma_block(t, "head1x1"@, 17);
    lemma_block(t, "conv_pre_film"@, 18);
    lemma_block(t, "conv_post_film"@, 19);
    lemma_block(t, "input_mixin_pre_film"@, 20);
    lemma_block(t, "input_mixin_post_film"@, 21);
    lemma_block(t, "activation_pre_film"@, 22);
    lemma_block(t, "activation_post_film"@, 23);
    lemma_block(t, "layer1x1_post_film"@, 24);
    lemma_block(t, "head1x1_post_film"@, 25);
}

// ---- Configs ----

proof fn lemma_arrays_each(layers: Seq<RawArray>, k: nat, i: int)
    requires
        arrays_normalized(layers, k) is Ok,
        0 <= i < k,
    ensures
        arrays_normalized(layers, k)->Ok_0.len() == k,
        layers[i].normalized() == Ok::<ArrayShape, Seq<char>>(
            arrays_normalized(layers, k)->Ok_0[i],
        ),
    decreases k,
{
    lemma_arrays_len(layers, (k - 1) as nat);
    if i < k - 1 {
        lemma_arrays_each(layers, (k - 1) as nat, i);
    }
}

proof fn lemma_arrays_len(layers: Seq<RawArray>, k: nat)
    ensures
        arrays_normalized(layers, k) is Ok ==> arrays_normalized(layers, k)->Ok_0.len() == k,
    decreases k,
{
    if k > 0 {
        lemma_arrays_len(layers, (k - 1) as nat);
    }
}

/// Whether a value by itself reads as that layer-array.
pub open spec fn array_reads_as(v: JsonTree, s: ArrayShape) -> bool {
    raw_array(v) matches Ok(r) && r.normalized() == Ok::<ArrayShape, Seq<char>>(s)
}

/// Whether a value is an integer from zero upwards, which a size holds.
pub open spec fn counts(v: JsonTree, n: usize) -> bool {
    match v {
        JsonTree::Number(JsonNumber::PosInt(u)) => n == u as usize,
        _ => false,
    }
}

/// Whether a post-stack head is what its block says.
pub open spec fn post_head_reads_as(v: JsonTree, h: PostHeadShape) -> bool {
    &&& sized(v, "channels"@, h.channels)
    &&& sized(v, "out_channels"@, h.out_channels)
    &&& exists|ks: Seq<JsonTree>| #[trigger]
        first(v, "kernel_sizes"@, JsonTree::Array(ks)) && ks.len() == h.kernel_sizes.len()
            && forall|i: int|
            0 <= i < ks.len() ==> counts(#[trigger] ks[i], h.kernel_sizes[i])
    &&& if lacks(v, "activation"@) {
        h.activation == ActivationChoice::Unsupported(JsonTree::Null)
    } else {
        exists|x: JsonTree| #[trigger] first(v, "activation"@, x) && reads_as(x, h.activation)
    }
}

proof fn lemma_post_head(v: JsonTree)
    requires
        post_head_json(v) is Ok,
    ensures
        post_head_reads_as(v, post_head_json(v)->Ok_0),
{
    let h = post_head_json(v)->Ok_0;
    lemma_block_size(v, "channels"@);
    lemma_block_size(v, "out_channels"@);
    lemma_get(v, "kernel_sizes"@);
    lemma_get(v, "activation"@);
    let kernels = v.get("kernel_sizes"@)->Some_0;
    let ks = kernels->Array_0;
    assert(first(v, "kernel_sizes"@, JsonTree::Array(ks)));
    assert forall|i: int| 0 <= i < ks.len() implies counts(#[trigger] ks[i], h.kernel_sizes[i]) by {
        assert(ks[i].as_u64() is Some);
    }
    match v.get("activation"@) {
        Some(x) => {
            lemma_reads(x);
            if lacks(v, "activation"@) {
                lemma_lacks_none(v, "activation"@, x);
            }
        },
        None => {},
    }
}

/// A WaveNet config has a layer-array for every entry of its list, each what that entry
/// reads as by itself and in the order of the list; the post-stack head, the head scale,
/// the input channels and the nested model that stand there; one input channel, and no
/// head or nested model, where none does.
pub proof fn lemma_wavenet_fields_stand(t: JsonTree)
    requires
        wavenet_json(t) is Ok,
    ensures
        ({
            let c = wavenet_json(t)->Ok_0;
            &&& exists|items: Seq<JsonTree>| #[trigger]
                stands(t, "layers"@, 0, JsonTree::Array(items)) && items.len() == c.layers.len()
                    && forall|i: int|
                    0 <= i < items.len() ==> array_reads_as(#[trigger] items[i], c.layers[i])
            &&& match c.post_stack_head {
                Some(h) => exists|v: JsonTree| #[trigger]
                    stands(t, "head"@, 1, v) && post_head_reads_as(v, h),
                None => unset(t, "head"@, 1),
            }
            &&& stands(t, "head_scale"@, 2, JsonTree::Number(c.head_scale))
            &&& stands(t, "in_channels"@, 3, whole(c.in_channels)) || unset(t, "in_channels"@, 3)
                && c.in_channels == 1
            &&& match c.condition_dsp {
                Some(d) => exists|v: JsonTree| #[trigger]
                    stands(t, "condition_dsp"@, 4, v) && nam_json(v) == Ok::<NamShape, JsonFailure>(
                        *d,
                    ),
                None => unset(t, "condition_dsp"@, 4),
            }
        }),
{
    let c = wavenet_json(t)->Ok_0;
    let raw = raw_wavenet(t)->Ok_0;
    let rec = wavenet_record();
    lemma_field(t, rec, 0, "layers"@, Kind::Layers);
    lemma_field(t, rec, 2, "head_scale"@, Kind::Single);
    lemma_field(t, rec, 3, "in_channels"@, Kind::MaybeSize);
    lemma_field_stands(t, "layers"@, 0);
    lemma_field_stands(t, "head_scale"@, 2);
    lemma_maybe_size(t, "in_channels"@, 3);
    lemma_block(t, "head"@, 1);
    lemma_block(t, "condition_dsp"@, 4);
    let items = t.field("layers"@, 0)->Some_0->Array_0;
    assert(stands(t, "layers"@, 0, JsonTree::Array(items)));
    lemma_arrays_len(raw.layers, raw.layers.len());
    lemma_holds(t, rec, 0);
    assert forall|i: int| 0 <= i < items.len() implies array_reads_as(
        #[trigger] items[i],
        c.layers[i],
    ) by {
        lemma_items_fit(Kind::Layers, items, items.len(), i);
        lemma_arrays_each(raw.layers, raw.layers.len(), i);
        assert(raw.layers[i] == raw_array(items[i])->Ok_0);
    }
    match raw.head {
        Some(v) => {
            lemma_post_head(v);
        },
        None => {},
    }
}

/// An LSTM config has the sizes that stand there.
pub proof fn lemma_lstm_fields_stand(t: JsonTree)
    requires
        lstm_json(t) is Ok,
    ensures
        stands(t, "input_size"@, 0, whole(lstm_json(t)->Ok_0.input_size)),
        stands(t, "hidden_size"@, 1, whole(lstm_json(t)->Ok_0.hidden_size)),
        stands(t, "num_layers"@, 2, whole(lstm_json(t)->Ok_0.num_layers)),
{
    let rec = lstm_record();
    lemma_field(t, rec, 0, "input_size"@, Kind::Size);
    lemma_field(t, rec, 1, "hidden_size"@, Kind::Size);
    lemma_field(t, rec, 2, "num_layers"@, Kind::Size);
    lemma_size(t, "input_size"@, 0);
    lemma_size(t, "hidden_size"@, 1);
    lemma_size(t, "num_layers"@, 2);
}

/// Whether a value by itself reads as that submodel.
pub open spec fn submodel_reads_as(t: JsonTree, s: SubmodelShape) -> bool {
    &&& stands(t, "max_value"@, 0, JsonTree::Number(s.max_value))
    &&& exists|v: JsonTree| #[trigger]
        stands(t, "model"@, 1, v) && nam_json(v) == Ok::<NamShape, JsonFailure>(s.model)
}

proof fn lemma_submodel(t: JsonTree)
    requires
        submodel_json(t) is Ok,
    ensures
        submodel_reads_as(t, submodel_json(t)->Ok_0),
{
    let rec = submodel_record();
    lemma_field(t, rec, 0, "max_value"@, Kind::Single);
    lemma_field_stands(t, "max_value"@, 0);
    lemma_field_stands(t, "model"@, 1);
}

proof fn lemma_submodels_len(items: Seq<JsonTree>, k: nat)
    requires
        k <= items.len(),
    ensures
        submodels_json(items, k) is Ok ==> submodels_json(items, k)->Ok_0.len() == k,
    decreases k,
{
    if k > 0 {
        lemma_submodels_len(items, (k - 1) as nat);
    }
}

proof fn lemma_submodels_each(items: Seq<JsonTree>, k: nat, i: int)
    requires
        submodels_json(items, k) is Ok,
        0 <= i < k <= items.len(),
    ensures
        submodel_reads_as(items[i], submodels_json(items, k)->Ok_0[i]),
    decreases k,
{
    lemma_submodels_len(items, (k - 1) as nat);
    if i < k - 1 {
        lemma_submodels_each(items, (k - 1) as nat, i);
    } else {
        lemma_submodel(items[i]);
    }
}

/// A container has a submodel for every entry of its list, each what that entry reads as
/// by itself and in the order of the list.
pub proof fn lemma_submodels_stand(t: JsonTree)
    requires
        slimmable_json(t) is Ok,
    ensures
        exists|items: Seq<JsonTree>| #[trigger]
            stands(t, "submodels"@, 0, JsonTree::Array(items)) && items.len()
                == slimmable_json(t)->Ok_0.len() && forall|i: int|
                0 <= i < items.len() ==> submodel_reads_as(
                    #[trigger] items[i],
                    slimmable_json(t)->Ok_0[i],
                ),
{
    lemma_field_stands(t, "submodels"@, 0);
    let items = t.field("submodels"@, 0)->Some_0->Array_0;
    assert(stands(t, "submodels"@, 0, JsonTree::Array(items)));
    lemma_submodels_len(items, items.len());
    assert forall|i: int| 0 <= i < items.len() implies submodel_reads_as(
        #[trigger] items[i],
        slimmable_json(t)->Ok_0[i],
    ) by {
        lemma_submodels_each(items, items.len(), i);
    }
}

/// A file has the version, the weights in their order, the sample rate and the metadata
/// that stand there, and its config is what stands there read as its architecture says.
pub proof fn lemma_file_fields_stand(t: JsonTree)
    requires
        nam_json(t) is Ok,
    ensures
        ({
            let m = nam_json(t)->Ok_0;
            &&& stands(t, "version"@, 0, JsonTree::String(m.version))
            &&& stands(t, "architecture"@, 1, JsonTree::String(m.architecture))
            &&& exists|v: JsonTree| #[trigger]
                stands(t, "config"@, 2, v) && match m.config {
                    ConfigShape::WaveNet(c) => m.architecture == "WaveNet"@ && wavenet_json(v)
                        == Ok::<WaveNetShape, JsonFailure>(c),
                    ConfigShape::Lstm(c) => m.architecture == "LSTM"@ && lstm_json(v) == Ok::<
                        LstmConfig,
                        Seq<char>,
                    >(c),
                    ConfigShape::Slimmable(subs) => m.architecture == "SlimmableContainer"@
                        && slimmable_json(v) == Ok::<Seq<SubmodelShape>, JsonFailure>(subs),
                }
            &&& exists|ws: Seq<JsonTree>| #[trigger]
                stands(t, "weights"@, 3, JsonTree::Array(ws)) && ws.len() == m.weights.len()
                    && forall|i: int|
                    0 <= i < ws.len() ==> #[trigger] ws[i] == JsonTree::Number(m.weights[i])
            &&& match m.sample_rate {
                Some(n) => stands(t, "sample_rate"@, 4, JsonTree::Number(n)),
                None => unset(t, "sample_rate"@, 4),
            }
            &&& block_stands(t, "metadata"@, 5, m.metadata)
        }),
{
    let m = nam_json(t)->Ok_0;
    let rec = nam_record();
    lemma_field(t, rec, 0, "version"@, Kind::Text);
    lemma_field(t, rec, 1, "architecture"@, Kind::Text);
    lemma_field(t, rec, 3, "weights"@, Kind::Singles);
    lemma_field(t, rec, 4, "sample_rate"@, Kind::MaybeDouble);
    lemma_field_stands(t, "version"@, 0);
    lemma_field_stands(t, "architecture"@, 1);
    lemma_field_stands(t, "config"@, 2);
    lemma_field_stands(t, "weights"@, 3);
    lemma_field_stands(t, "sample_rate"@, 4);
    lemma_block(t, "metadata"@, 5);
    let v = t.field("weights"@, 3)->Some_0;
    let ws = v->Array_0;
    assert(stands(t, "weights"@, 3, JsonTree::Array(ws)));
    assert forall|i: int| 0 <= i < ws.len() implies #[trigger] ws[i] == JsonTree::Number(
        m.weights[i],
    ) by {
        assert(ws[i].as_number() is Some);
    }
}

// ---- Metadata ----

/// Whether a number of a block is what stands there, and not given where no number does.
pub open spec fn number_read(v: JsonTree, key: Seq<char>, n: Option<JsonNumber>) -> bool {
    match n {
        Some(x) => first(v, key, JsonTree::Number(x)),
        None => forall|x: JsonNumber| !#[trigger] first(v, key, JsonTree::Number(x)),
    }
}

/// Whether a text of a block is what stands there, and not given where no text does.
pub open spec fn text_read(v: JsonTree, key: Seq<char>, s: Option<Seq<char>>) -> bool {
    match s {
        Some(x) => first(v, key, JsonTree::String(x)),
        None => forall|x: Seq<char>| !#[trigger] first(v, key, JsonTree::String(x)),
    }
}

proof fn lemma_number_read(v: JsonTree, key: Seq<char>)
    ensures
        number_read(v, key, number_entry(Some(v), key)),
{
    lemma_get(v, key);
    if number_entry(Some(v), key) is None {
        assert forall|x: JsonNumber| !#[trigger] first(v, key, JsonTree::Number(x)) by {
            if first(v, key, JsonTree::Number(x)) {
                match v.get(key) {
                    Some(y) => {
                        lemma_first_once(v, key, y, JsonTree::Number(x));
                    },
                    None => {
                        lemma_lacks_none(v, key, JsonTree::Number(x));
                    },
                }
            }
        }
    }
}

proof fn lemma_text_read(v: JsonTree, key: Seq<char>)
    ensures
        text_read(v, key, text_entry(Some(v), key)),
{
    lemma_get(v, key);
    if text_entry(Some(v), key) is None {
        assert forall|x: Seq<char>| !#[trigger] first(v, key, JsonTree::String(x)) by {
            if first(v, key, JsonTree::String(x)) {
                match v.get(key) {
                    Some(y) => {
                        lemma_first_once(v, key, y, JsonTree::String(x));
                    },
                    None => {
                        lemma_lacks_none(v, key, JsonTree::String(x));
                    },
                }
            }
        }
    }
}

/// Whether an integer is what a record has under that name, or in that place.
pub open spec fn integer_read(t: JsonTree, key: Seq<char>, place: int, n: int) -> bool {
    exists|x: JsonTree| #[trigger]
        found(t, key, place, x) && match x {
            JsonTree::Number(JsonNumber::PosInt(u)) => u == n,
            JsonTree::Number(JsonNumber::NegInt(i)) => i == n,
            _ => false,
        }
}

/// Whether `x` is what a record has under that name, or in that place.
pub open spec fn found(t: JsonTree, key: Seq<char>, place: int, x: JsonTree) -> bool {
    match t {
        JsonTree::Object(_) => first(t, key, x),
        JsonTree::Array(vs) => 0 <= place < vs.len() && vs[place] == x,
        _ => false,
    }
}

/// Whether a value reads as that date: six integers, by their names or in their order.
pub open spec fn date_reads_as(t: JsonTree, d: Date) -> bool {
    &&& t is Object || t is Array && t->Array_0.len() <= 6
    &&& integer_read(t, "year"@, 0, d.year as int)
    &&& integer_read(t, "month"@, 1, d.month as int)
    &&& integer_read(t, "day"@, 2, d.day as int)
    &&& integer_read(t, "hour"@, 3, d.hour as int)
    &&& integer_read(t, "minute"@, 4, d.minute as int)
    &&& integer_read(t, "second"@, 5, d.second as int)
}

proof fn lemma_found(t: JsonTree, key: Seq<char>, place: int)
    requires
        0 <= place,
    ensures
        t.field(key, place) matches Some(x) ==> found(t, key, place, x),
        forall|x: JsonTree| #[trigger] found(t, key, place, x) ==> t.field(key, place) == Some(x),
{
    match t {
        JsonTree::Object(ms) => {
            lemma_lookup_first(ms, key);
            assert forall|x: JsonTree| #[trigger] found(t, key, place, x) implies t.field(
                key,
                place,
            ) == Some(x) by {
                match lookup(ms, key) {
                    Some(y) => {
                        lemma_first_once(t, key, x, y);
                    },
                    None => {
                        lemma_lacks_none(t, key, x);
                    },
                }
            }
        },
        _ => {},
    }
}

proof fn lemma_bounded(t: JsonTree, key: Seq<char>, place: int, low: int, high: int)
    requires
        0 <= place,
    ensures
        match bounded_field(t, key, place, low, high) {
            Some(n) => low <= n <= high && integer_read(t, key, place, n),
            None => forall|n: int| low <= n <= high ==> !#[trigger] integer_read(t, key, place, n),
        },
{
    lemma_found(t, key, place);
    match bounded_field(t, key, place, low, high) {
        Some(n) => {
            assert(found(t, key, place, t.field(key, place)->Some_0));
        },
        None => {
            assert forall|n: int| low <= n <= high implies !#[trigger] integer_read(
                t,
                key,
                place,
                n,
            ) by {
                if integer_read(t, key, place, n) {
                    let x = choose|x: JsonTree| #[trigger]
                        found(t, key, place, x) && match x {
                            JsonTree::Number(JsonNumber::PosInt(u)) => u == n,
                            JsonTree::Number(JsonNumber::NegInt(i)) => i == n,
                            _ => false,
                        };
                    assert(t.field(key, place) == Some(x));
                }
            }
        },
    }
}

/// A date is read where a value reads as one, and only there.
pub proof fn lemma_date_read(t: JsonTree)
    ensures
        match date_of(t) {
            Some(d) => date_reads_as(t, d),
            None => forall|d: Date| !#[trigger] date_reads_as(t, d),
        },
{
    lemma_bounded(t, "year"@, 0, i32::MIN as int, i32::MAX as int);
    lemma_bounded(t, "month"@, 1, 0, 255);
    lemma_bounded(t, "day"@, 2, 0, 255);
    lemma_bounded(t, "hour"@, 3, 0, 255);
    lemma_bounded(t, "minute"@, 4, 0, 255);
    lemma_bounded(t, "second"@, 5, 0, 255);
    if date_of(t) is None {
        assert forall|d: Date| !#[trigger] date_reads_as(t, d) by {
            if date_reads_as(t, d) {
                assert(integer_read(t, "year"@, 0, d.year as int));
                assert(integer_read(t, "month"@, 1, d.month as int));
                assert(integer_read(t, "day"@, 2, d.day as int));
                assert(integer_read(t, "hour"@, 3, d.hour as int));
                assert(integer_read(t, "minute"@, 4, d.minute as int));
                assert(integer_read(t, "second"@, 5, d.second as int));
            }
        }
    }
}

/// Every entry of the metadata is what stands in the block under its own name, where
/// that is of its type, and otherwise not given.
pub proof fn lemma_metadata_read(v: JsonTree)
    ensures
        ({
            let d = metadata_of(Some(v));
            &&& number_read(v, "loudness"@, d.loudness)
            &&& number_read(v, "gain"@, d.gain)
            &&& number_read(v, "input_level_dbu"@, d.input_level_dbu)
            &&& number_read(v, "output_level_dbu"@, d.output_level_dbu)
            &&& text_read(v, "name"@, d.name)
            &&& text_read(v, "modeled_by"@, d.modeled_by)
            &&& text_read(v, "gear_make"@, d.gear_make)
            &&& text_read(v, "gear_model"@, d.gear_model)
            &&& text_read(v, "gear_type"@, d.gear_type)
            &&& text_read(v, "tone_type"@, d.tone_type)
            &&& text_read(v, "trainer"@, d.trainer)
            &&& match d.date {
                Some(x) => exists|t: JsonTree| #[trigger]
                    first(v, "date"@, t) && date_reads_as(t, x),
                None => forall|t: JsonTree, x: Date| #[trigger]
                    first(v, "date"@, t) ==> !#[trigger] date_reads_as(t, x),
            }
            &&& match d.training {
                Some(t) => t != JsonTree::Null && first(v, "training"@, t),
                None => lacks(v, "training"@) || first(v, "training"@, JsonTree::Null),
            }
        }),
{
    lemma_number_read(v, "loudness"@);
    lemma_number_read(v, "gain"@);
    lemma_number_read(v, "input_level_dbu"@);
    lemma_number_read(v, "output_level_dbu"@);
    lemma_text_read(v, "name"@);
    lemma_text_read(v, "modeled_by"@);
    lemma_text_read(v, "gear_make"@);
    lemma_text_read(v, "gear_model"@);
    lemma_text_read(v, "gear_type"@);
    lemma_text_read(v, "tone_type"@);
    lemma_text_read(v, "trainer"@);
    lemma_get(v, "training"@);
    lemma_get(v, "date"@);
    match v.get("date"@) {
        Some(t) => {
            lemma_date_read(t);
            if date_of(t) is None {
                assert forall|u: JsonTree, x: Date| #[trigger]
                    first(v, "date"@, u) implies !#[trigger] date_reads_as(u, x) by {
                    lemma_first_once(v, "date"@, t, u);
                }
            }
        },
        None => {
            assert forall|u: JsonTree, x: Date| #[trigger] first(v, "date"@, u) implies !#[trigger] date_reads_as(
                u,
                x,
            ) by {
                lemma_lacks_none(v, "date"@, u);
            }
        },
    }
}

/// Without a metadata block nothing is given.
pub proof fn lemma_no_metadata()
    ensures
        metadata_of(None) == (MetadataShape {
            loudness: None,
            gain: None,
            input_level_dbu: None,
            output_level_dbu: None,
            name: None,
            modeled_by: None,
            gear_make: None,
            gear_model: None,
            gear_type: None,
            tone_type: None,
            trainer: None,
            date: None,
            training: None,
        }),
{
}

/// Whether a spelling is in lower case, with `_` for `-`, and without white space at its
/// ends.
pub open spec fn settled(s: Seq<char>) -> bool {
    &&& forall|i: int| 0 <= i < s.len() ==> !('A' <= #[trigger] s[i] <= 'Z') && s[i] != '-'
    &&& s.len() > 0 ==> !white(s[0]) && !white(s.last())
}

/// Whether a spelling has `cab` in it with nothing, or `_`, on either side.
pub open spec fn names_cab(s: Seq<char>) -> bool {
    exists|before: Seq<char>, after: Seq<char>| #[trigger] (before + "cab"@ + after) == s && (
    before.len() == 0 || before.last() == '_') && (after.len() == 0 || after[0] == '_')
}

/// A gear type, spelled plainly, has a cabinet where `cab` stands in it as a word of its
/// own and where it is a full rig or an impulse response; it has none where it is one of
/// the other known types; and of any other nothing is said.
pub proof fn lemma_cabinet(s: Seq<char>)
    requires
        settled(s),
    ensures
        cab_in(s) == Some(true) <==> names_cab(s) || s == "full_rig"@ || s == "ir"@,
        cab_in(s) == Some(false) <==> cab_in(s) != Some(true) && (s == "amp"@ || s == "preamp"@ || s
            == "pedal"@ || s == "pedal_amp"@ || s == "outboard"@ || s == "space"@),
{
    let word = "cab"@;
    assert(trim_start(s) == s);
    assert(trim_end(s) == s);
    assert(spelling(s) =~= s);
    if has_token(s, word) {
        let i = choose|i: int| #[trigger] token_at(s, word, i);
        let before = s.take(i);
        let after = s.skip(i + word.len());
        assert(before + word + after =~= s);
    }
    if names_cab(s) {
        let (before, after) = choose|before: Seq<char>, after: Seq<char>| #[trigger]
            (before + word + after) == s && (before.len() == 0 || before.last() == '_') && (
            after.len() == 0 || after[0] == '_');
        let i = before.len() as int;
        assert(s.subrange(i, i + word.len()) =~= word);
        assert(token_at(s, word, i));
    }
}

/// Whether `p` spells `a` plainly: capital letters in lower case, `-` as `_`, and any other
/// character as it is.
pub open spec fn plainly(a: Seq<char>, p: Seq<char>) -> bool {
    &&& a.len() == p.len()
    &&& forall|i: int|
        0 <= i < a.len() ==> if 'A' <= #[trigger] a[i] <= 'Z' {
            p[i] as int == a[i] as int + 32
        } else if a[i] == '-' {
            p[i] == '_'
        } else {
            p[i] == a[i]
        }
}

/// Whether a character is one of the white space of Unicode.
pub open spec fn is_space(c: char) -> bool {
    ||| c == '\u{9}' || c == '\u{A}' || c == '\u{B}' || c == '\u{C}' || c == '\u{D}'
    ||| c == ' ' || c == '\u{85}' || c == '\u{A0}' || c == '\u{1680}'
    ||| '\u{2000}' <= c <= '\u{200A}'
    ||| c == '\u{2028}' || c == '\u{2029}' || c == '\u{202F}' || c == '\u{205F}' || c
        == '\u{3000}'
}

/// A gear type has a cabinet or has none as its plain spelling does, and white space on
/// either side does not matter.
pub proof fn lemma_plain_spelling_decides(
    a: Seq<char>,
    p: Seq<char>,
    before: Seq<char>,
    after: Seq<char>,
)
    requires
        plainly(a, p),
        forall|i: int| 0 <= i < before.len() ==> is_space(#[trigger] before[i]),
        forall|i: int| 0 <= i < after.len() ==> is_space(#[trigger] after[i]),
    ensures
        cab_in(before + a + after) == cab_in(p),
{
    assert forall|i: int| 0 <= i < a.len() implies folded(#[trigger] a[i]) == folded(p[i]) by {}
    lemma_letters_insignificant(a, p);
    lemma_padding_insignificant(before, a, after);
}

/// A character is taken for white space where Unicode has it so, and only there.
pub proof fn lemma_white_space(c: char)
    ensures
        white(c) == is_space(c),
{
}

/// A file that names no sample rate is taken to be at 48 kHz; the levels by which it is
/// calibrated are those of its metadata.
pub proof fn lemma_calibration_read(m: NamShape)
    ensures
        m.calibration().sample_rate == match m.sample_rate {
            Some(r) => r,
            None => JsonNumber::PosInt(48000),
        },
        m.calibration().loudness == metadata_of(m.metadata).loudness,
        m.calibration().input_level_dbu == metadata_of(m.metadata).input_level_dbu,
        m.calibration().output_level_dbu == metadata_of(m.metadata).output_level_dbu,
{
}

} // verus!
