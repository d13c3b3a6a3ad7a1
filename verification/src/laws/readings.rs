//! Which documents can be read: what has to stand in a record, what may, and what each
//! field of it holds.

use vstd::prelude::*;
use crate::json::{lookup, JsonNumber, JsonTree};
use crate::laws::configs::{
    first, lemma_block_size, lemma_field_stands, lemma_first_once, lemma_get, lemma_lacks_none,
    lemma_lookup_at, mode_name, sizeless, stands, whole,
};
use crate::model::GatingMode;
use crate::parser::layers::{gatings_listed, raw_array, RawArray};
use crate::parser::options::{gating_named, size};
use crate::parser::records::{
    array_record, items_complaint, kind_complaint, lstm_record, member_complaint,
    members_complaint, missing_complaint, nam_record, places_complaint, repeated, shape_complaint,
    short_complaint, slimmable_record, submodel_record, wavenet_record, Kind, RecordShape,
};
use crate::parser::{
    arrays_normalized, config_json, lstm_json, nam_json, post_head_json, raw_wavenet,
    slimmable_json, submodel_json, submodels_json, wavenet_json,
};

verus! {

// ---- Records ----

/// Whether a value is an integer from zero upwards that a size can hold.
pub open spec fn is_whole(v: JsonTree) -> bool {
    exists|n: usize| v == #[trigger] whole(n)
}

/// Whether a value is a list of such integers.
pub open spec fn lists_wholes(v: JsonTree) -> bool {
    match v {
        JsonTree::Array(vs) => forall|i: int| 0 <= i < vs.len() ==> is_whole(#[trigger] vs[i]),
        _ => false,
    }
}

/// Whether a value is what a field of that kind holds.
pub open spec fn fits(kind: Kind, v: JsonTree) -> bool {
    match kind {
        Kind::Any | Kind::MaybeAny => true,
        Kind::Text => v is String,
        Kind::Single => v is Number,
        Kind::MaybeDouble => v is Number || v is Null,
        Kind::Size => is_whole(v),
        Kind::MaybeSize => is_whole(v) || v is Null,
        Kind::MaybeFlag => v is Bool || v is Null,
        Kind::Sizes => lists_wholes(v),
        Kind::MaybeSizes => lists_wholes(v) || v is Null,
        Kind::Singles => match v {
            JsonTree::Array(vs) => forall|i: int| 0 <= i < vs.len() ==> (#[trigger] vs[i]) is Number,
            _ => false,
        },
        Kind::Layers => match v {
            JsonTree::Array(vs) => forall|i: int|
                0 <= i < vs.len() ==> raw_array(#[trigger] vs[i]) is Ok,
            _ => false,
        },
        Kind::List => v is Array,
    }
}

/// Whether a record must have a field of that kind.
pub open spec fn required(kind: Kind) -> bool {
    match kind {
        Kind::MaybeAny | Kind::MaybeDouble | Kind::MaybeSize | Kind::MaybeSizes
        | Kind::MaybeFlag => false,
        _ => true,
    }
}

/// Whether member `i` of an object can stand there beside field `j`: where it has the name
/// of the field, it holds what the field does, and no member before it has that name.
pub open spec fn member_fits(
    ms: Seq<(Seq<char>, JsonTree)>,
    i: int,
    fields: Seq<(Seq<char>, Kind)>,
    j: int,
) -> bool {
    ms[i].0 == fields[j].0 ==> {
        &&& fits(fields[j].1, ms[i].1)
        &&& forall|k: int| 0 <= k < i ==> (#[trigger] ms[k]).0 != fields[j].0
    }
}

/// Whether an object has a member of that name.
pub open spec fn has(ms: Seq<(Seq<char>, JsonTree)>, name: Seq<char>) -> bool {
    exists|i: int| 0 <= i < ms.len() && (#[trigger] ms[i]).0 == name
}

/// Whether a value is a record of these fields: an object in which each field stands once at
/// most, and once where it is required, among members of other names; or a list of what the
/// fields hold, in their order, that may end before a field where no more is required.
pub open spec fn is_record(t: JsonTree, fields: Seq<(Seq<char>, Kind)>) -> bool {
    match t {
        JsonTree::Object(ms) => {
            &&& forall|i: int, j: int|
                0 <= i < ms.len() && 0 <= j < fields.len() ==> #[trigger] member_fits(
                    ms,
                    i,
                    fields,
                    j,
                )
            &&& forall|j: int|
                0 <= j < fields.len() && required((#[trigger] fields[j]).1) ==> has(
                    ms,
                    fields[j].0,
                )
        },
        JsonTree::Array(vs) => {
            &&& vs.len() <= fields.len()
            &&& forall|j: int|
                0 <= j < fields.len() ==> if j < vs.len() {
                    fits((#[trigger] fields[j]).1, vs[j])
                } else {
                    !required(fields[j].1)
                }
        },
        _ => false,
    }
}

spec fn item_fits(kind: Kind, v: JsonTree) -> bool {
    match kind {
        Kind::Singles => v is Number,
        Kind::Sizes | Kind::MaybeSizes => is_whole(v),
        Kind::Layers => raw_array(v) is Ok,
        _ => true,
    }
}

proof fn lemma_whole(v: JsonTree)
    ensures
        is_whole(v) == v.as_usize() is Some,
{
    if v.as_usize() is Some {
        assert(v == whole(v.as_usize()->Some_0));
    }
    if is_whole(v) {
        let n = choose|n: usize| v == #[trigger] whole(n);
        assert(v == whole(n));
    }
}

proof fn lemma_items(kind: Kind, items: Seq<JsonTree>, k: nat)
    requires
        k <= items.len(),
    ensures
        items_complaint(kind, items, k) is None == forall|i: int|
            0 <= i < k ==> item_fits(kind, #[trigger] items[i]),
    decreases k,
{
    if k > 0 {
        lemma_items(kind, items, (k - 1) as nat);
        lemma_whole(items[k - 1]);
        let here = item_fits(kind, items[k - 1]);
        assert(items_complaint(kind, items, k) is None == (items_complaint(
            kind,
            items,
            (k - 1) as nat,
        ) is None && here));
    }
}

proof fn lemma_kind(kind: Kind, v: JsonTree)
    ensures
        kind_complaint(kind, v) is None == fits(kind, v),
{
    lemma_whole(v);
    match v {
        JsonTree::Array(items) => {
            lemma_items(kind, items, items.len());
            let all = forall|i: int| 0 <= i < items.len() ==> item_fits(kind, #[trigger] items[i]);
            match kind {
                Kind::Singles => {
                    assert(all == forall|i: int|
                        0 <= i < items.len() ==> (#[trigger] items[i]) is Number);
                },
                Kind::Sizes | Kind::MaybeSizes => {
                    assert(all == forall|i: int|
                        0 <= i < items.len() ==> is_whole(#[trigger] items[i]));
                },
                Kind::Layers => {
                    assert(all == forall|i: int|
                        0 <= i < items.len() ==> raw_array(#[trigger] items[i]) is Ok);
                },
                _ => {},
            }
        },
        _ => {},
    }
}

proof fn lemma_member(
    ms: Seq<(Seq<char>, JsonTree)>,
    i: int,
    fields: Seq<(Seq<char>, Kind)>,
    n: nat,
)
    requires
        0 <= i < ms.len(),
        n <= fields.len(),
    ensures
        member_complaint(ms[i].0, ms[i].1, repeated(ms, i), fields, n) is None == forall|j: int|
            0 <= j < n ==> #[trigger] member_fits(ms, i, fields, j),
    decreases n,
{
    if n > 0 {
        lemma_member(ms, i, fields, (n - 1) as nat);
        lemma_kind(fields[n - 1].1, ms[i].1);
        let before = member_complaint(
            ms[i].0,
            ms[i].1,
            repeated(ms, i),
            fields,
            (n - 1) as nat,
        ) is None;
        assert(member_complaint(ms[i].0, ms[i].1, repeated(ms, i), fields, n) is None == (before
            && member_fits(ms, i, fields, n - 1)));
    }
}

proof fn lemma_members(ms: Seq<(Seq<char>, JsonTree)>, fields: Seq<(Seq<char>, Kind)>, k: nat)
    requires
        k <= ms.len(),
    ensures
        members_complaint(ms, fields, k) is None == forall|i: int, j: int|
            0 <= i < k && 0 <= j < fields.len() ==> #[trigger] member_fits(ms, i, fields, j),
    decreases k,
{
    if k > 0 {
        lemma_members(ms, fields, (k - 1) as nat);
        lemma_member(ms, k - 1, fields, fields.len());
    }
}

proof fn lemma_missing(ms: Seq<(Seq<char>, JsonTree)>, fields: Seq<(Seq<char>, Kind)>, n: nat)
    requires
        n <= fields.len(),
    ensures
        missing_complaint(ms, fields, n) is None == forall|j: int|
            0 <= j < n && required((#[trigger] fields[j]).1) ==> has(ms, fields[j].0),
    decreases n,
{
    if n > 0 {
        let name = fields[n - 1].0;
        lemma_missing(ms, fields, (n - 1) as nat);
        let i = lemma_lookup_at(ms, name);
        if lookup(ms, name) is Some {
            assert(ms[i].0 == name);
            assert(has(ms, name));
        } else if has(ms, name) {
            let k = choose|k: int| 0 <= k < ms.len() && (#[trigger] ms[k]).0 == name;
            assert(ms[k].0 != name);
        }
    }
}

proof fn lemma_places(vs: Seq<JsonTree>, fields: Seq<(Seq<char>, Kind)>, k: nat)
    requires
        k <= vs.len(),
        k <= fields.len(),
    ensures
        places_complaint(vs, fields, k) is None == forall|j: int|
            0 <= j < k ==> fits((#[trigger] fields[j]).1, vs[j]),
    decreases k,
{
    if k > 0 {
        lemma_places(vs, fields, (k - 1) as nat);
        lemma_kind(fields[k - 1].1, vs[k - 1]);
    }
}

proof fn lemma_short(len: nat, rec: RecordShape, n: nat)
    requires
        n <= rec.fields.len(),
    ensures
        short_complaint(len, rec, n) is None == forall|j: int|
            len <= j < n ==> !required((#[trigger] rec.fields[j]).1),
    decreases n,
{
    if n > 0 {
        lemma_short(len, rec, (n - 1) as nat);
    }
}

proof fn lemma_record(t: JsonTree, rec: RecordShape)
    ensures
        shape_complaint(t, rec) is None == is_record(t, rec.fields),
{
    match t {
        JsonTree::Object(ms) => {
            lemma_members(ms, rec.fields, ms.len());
            lemma_missing(ms, rec.fields, rec.fields.len());
        },
        JsonTree::Array(vs) => {
            let k = if vs.len() < rec.fields.len() {
                vs.len()
            } else {
                rec.fields.len()
            };
            lemma_places(vs, rec.fields, k);
            lemma_short(vs.len(), rec, rec.fields.len());
        },
        _ => {},
    }
}

// ---- LSTMs and layer-arrays ----

/// A document is an LSTM config where it has the three sizes of one.
pub proof fn lemma_which_lstms_read(t: JsonTree)
    ensures
        lstm_json(t) is Ok == is_record(
            t,
            seq![
                ("input_size"@, Kind::Size),
                ("hidden_size"@, Kind::Size),
                ("num_layers"@, Kind::Size),
            ],
        ),
{
    lemma_record(t, lstm_record());
}

/// The fields of a layer-array.
pub open spec fn array_fields() -> Seq<(Seq<char>, Kind)> {
    seq![
        ("input_size"@, Kind::Size),
        ("condition_size"@, Kind::Size),
        ("channels"@, Kind::Size),
        ("bottleneck"@, Kind::MaybeSize),
        ("dilations"@, Kind::Sizes),
        ("kernel_size"@, Kind::MaybeSize),
        ("kernel_sizes"@, Kind::MaybeSizes),
        ("activation"@, Kind::Any),
        ("gating_mode"@, Kind::MaybeAny),
        ("gated"@, Kind::MaybeFlag),
        ("secondary_activation"@, Kind::MaybeAny),
        ("groups_input"@, Kind::MaybeSize),
        ("groups_input_mixin"@, Kind::MaybeSize),
        ("head"@, Kind::MaybeAny),
        ("head_size"@, Kind::MaybeSize),
        ("head_bias"@, Kind::MaybeFlag),
        ("layer1x1"@, Kind::MaybeAny),
        ("head1x1"@, Kind::MaybeAny),
        ("conv_pre_film"@, Kind::MaybeAny),
        ("conv_post_film"@, Kind::MaybeAny),
        ("input_mixin_pre_film"@, Kind::MaybeAny),
        ("input_mixin_post_film"@, Kind::MaybeAny),
        ("activation_pre_film"@, Kind::MaybeAny),
        ("activation_post_film"@, Kind::MaybeAny),
        ("layer1x1_post_film"@, Kind::MaybeAny),
        ("head1x1_post_film"@, Kind::MaybeAny),
    ]
}

/// A document is a layer-array where it has the fields of one.
pub proof fn lemma_which_arrays_read(t: JsonTree)
    ensures
        raw_array(t) is Ok == is_record(t, array_fields()),
{
    lemma_record(t, array_record());
}

/// Whether a value names a gating mode.
pub open spec fn names_mode(v: JsonTree) -> bool {
    exists|g: GatingMode| v == JsonTree::String(#[trigger] mode_name(g))
}

proof fn lemma_mode_named(s: Seq<char>)
    ensures
        gating_named(s) is Ok == names_mode(JsonTree::String(s)),
{
    match gating_named(s) {
        Ok(g) => {
            assert(JsonTree::String(s) == JsonTree::String(mode_name(g)));
        },
        Err(_) => {
            if names_mode(JsonTree::String(s)) {
                let g = choose|g: GatingMode|
                    JsonTree::String(s) == JsonTree::String(#[trigger] mode_name(g));
                assert(s == mode_name(g));
            }
        },
    }
}

proof fn lemma_modes_listed(items: Seq<JsonTree>, k: nat)
    requires
        k <= items.len(),
    ensures
        gatings_listed(items, k) is Ok == forall|i: int|
            0 <= i < k ==> names_mode(#[trigger] items[i]),
    decreases k,
{
    if k > 0 {
        lemma_modes_listed(items, (k - 1) as nat);
        match items[k - 1] {
            JsonTree::String(s) => {
                lemma_mode_named(s);
            },
            _ => {},
        }
        assert(gatings_listed(items, k) is Ok == (gatings_listed(items, (k - 1) as nat) is Ok
            && names_mode(items[k - 1])));
    }
}

/// Whether a value stands for `n` layers: it is no list, or one with `n` entries.
pub open spec fn stands_for(v: JsonTree, n: nat) -> bool {
    match v {
        JsonTree::Array(items) => items.len() == n,
        _ => true,
    }
}

/// A layer-array makes sense where it has a layer; one kernel size or a list with one for
/// every layer; no list of activations of another length; gating modes by their names, one
/// or as many as layers, where it has any; and the width of its head, with the kernel size
/// where it is in a block of its own.
pub proof fn lemma_which_arrays_make_sense(raw: RawArray)
    ensures
        raw.normalized() is Ok <==> {
            &&& raw.dilations.len() > 0
            &&& raw.kernel_size is Some != raw.kernel_sizes is Some
            &&& raw.kernel_sizes matches Some(ks) ==> ks.len() == raw.dilations.len()
            &&& stands_for(raw.activation, raw.dilations.len())
            &&& raw.secondary_activation matches Some(v) ==> stands_for(v, raw.dilations.len())
            &&& raw.gating_mode matches Some(v) ==> {
                ||| names_mode(v)
                ||| v matches JsonTree::Array(items) && items.len() == raw.dilations.len() && forall|
                    i: int,
                | 0 <= i < items.len() ==> names_mode(#[trigger] items[i])
            }
            &&& match raw.head {
                Some(h) => !sizeless(h, "out_channels"@) && !sizeless(h, "kernel_size"@),
                None => raw.head_size is Some,
            }
        },
{
    match raw.gating_mode {
        Some(JsonTree::String(s)) => {
            lemma_mode_named(s);
        },
        Some(JsonTree::Array(items)) => {
            if items.len() == raw.depth() {
                lemma_modes_listed(items, raw.depth());
            }
        },
        _ => {},
    }
    match raw.head {
        Some(h) => {
            lemma_has_size(h, "out_channels"@);
            lemma_has_size(h, "kernel_size"@);
        },
        None => {},
    }
}

proof fn lemma_has_size(v: JsonTree, key: Seq<char>)
    ensures
        size(v, key) is None == sizeless(v, key),
{
    lemma_block_size(v, key);
    lemma_get(v, key);
}

// ---- WaveNets ----

/// What stands in a record under the name of a field, or in its place, is what is read.
proof fn lemma_field_read(t: JsonTree, fields: Seq<(Seq<char>, Kind)>, j: int, v: JsonTree)
    requires
        is_record(t, fields),
        0 <= j < fields.len(),
        stands(t, fields[j].0, j, v),
    ensures
        t.field(fields[j].0, j) == Some(v),
{
    let key = fields[j].0;
    match t {
        JsonTree::Object(ms) => {
            let k = choose|k: int| 0 <= k < ms.len() && #[trigger] ms[k] == (key, v);
            let i = lemma_lookup_at(ms, key);
            assert(member_fits(ms, k, fields, j));
            if i < k {
                assert(ms[i].0 != key);
            }
        },
        _ => {},
    }
}

/// A field that a record must have is read.
proof fn lemma_required_read(t: JsonTree, fields: Seq<(Seq<char>, Kind)>, j: int)
    requires
        is_record(t, fields),
        0 <= j < fields.len(),
        required(fields[j].1),
    ensures
        t.field(fields[j].0, j) is Some,
        fits(fields[j].1, t.field(fields[j].0, j)->Some_0),
{
    let key = fields[j].0;
    match t {
        JsonTree::Object(ms) => {
            assert(has(ms, key));
            let k = choose|k: int| 0 <= k < ms.len() && (#[trigger] ms[k]).0 == key;
            let i = lemma_lookup_at(ms, key);
            assert(ms[k].0 == key);
            assert(member_fits(ms, i, fields, j));
        },
        JsonTree::Array(vs) => {
            assert(required(fields[j].1));
        },
        _ => {},
    }
}

/// Whether a block is a post-stack head: it has widths and a list of kernel sizes.
pub open spec fn is_post_head(h: JsonTree) -> bool {
    &&& !sizeless(h, "channels"@)
    &&& !sizeless(h, "out_channels"@)
    &&& exists|ks: Seq<JsonTree>| #[trigger]
        first(h, "kernel_sizes"@, JsonTree::Array(ks)) && forall|i: int|
            0 <= i < ks.len() ==> counted(#[trigger] ks[i])
}

/// Whether a value is an integer from zero upwards.
pub open spec fn counted(v: JsonTree) -> bool {
    match v {
        JsonTree::Number(JsonNumber::PosInt(_)) => true,
        _ => false,
    }
}

proof fn lemma_post_head_read(h: JsonTree)
    ensures
        post_head_json(h) is Ok == is_post_head(h),
{
    lemma_has_size(h, "channels"@);
    lemma_has_size(h, "out_channels"@);
    lemma_get(h, "kernel_sizes"@);
    match h.get("kernel_sizes"@) {
        Some(v) => {
            if let JsonTree::Array(vs) = v {
                assert(first(h, "kernel_sizes"@, JsonTree::Array(vs)));
                assert forall|i: int| 0 <= i < vs.len() implies counted(#[trigger] vs[i])
                    == vs[i].as_u64() is Some by {}
            }
            if is_post_head(h) {
                let ks = choose|ks: Seq<JsonTree>| #[trigger]
                    first(h, "kernel_sizes"@, JsonTree::Array(ks)) && forall|i: int|
                        0 <= i < ks.len() ==> counted(#[trigger] ks[i]);
                lemma_first_once(h, "kernel_sizes"@, v, JsonTree::Array(ks));
            }
        },
        None => {
            if is_post_head(h) {
                let ks = choose|ks: Seq<JsonTree>| #[trigger]
                    first(h, "kernel_sizes"@, JsonTree::Array(ks)) && forall|i: int|
                        0 <= i < ks.len() ==> counted(#[trigger] ks[i]);
                lemma_lacks_none(h, "kernel_sizes"@, JsonTree::Array(ks));
            }
        },
    }
}

proof fn lemma_arrays_make_sense(layers: Seq<RawArray>, k: nat)
    requires
        k <= layers.len(),
    ensures
        arrays_normalized(layers, k) is Ok == forall|i: int|
            0 <= i < k ==> (#[trigger] layers[i]).normalized() is Ok,
    decreases k,
{
    if k > 0 {
        lemma_arrays_make_sense(layers, (k - 1) as nat);
        assert(arrays_normalized(layers, k) is Ok == (arrays_normalized(layers, (k - 1) as nat) is Ok
            && layers[k - 1].normalized() is Ok));
    }
}

/// The fields of a WaveNet config.
pub open spec fn wavenet_fields() -> Seq<(Seq<char>, Kind)> {
    seq![
        ("layers"@, Kind::Layers),
        ("head"@, Kind::MaybeAny),
        ("head_scale"@, Kind::Single),
        ("in_channels"@, Kind::MaybeSize),
        ("condition_dsp"@, Kind::MaybeAny),
    ]
}

/// Whether every entry of a list is a layer-array that makes sense.
pub open spec fn arrays_make_sense(v: JsonTree) -> bool {
    match v {
        JsonTree::Array(items) => forall|i: int|
            0 <= i < items.len() ==> raw_array(#[trigger] items[i]) is Ok && raw_array(
                items[i],
            )->Ok_0.normalized() is Ok,
        _ => false,
    }
}

/// A document is a WaveNet config where it has the fields of one, every layer-array makes
/// sense, the head is one where it is there, and the nested model can be read where it is
/// there.
pub proof fn lemma_which_wavenets_read(t: JsonTree)
    ensures
        wavenet_json(t) is Ok <==> {
            &&& is_record(t, wavenet_fields())
            &&& forall|v: JsonTree| #[trigger] stands(t, "layers"@, 0, v) ==> arrays_make_sense(v)
            &&& forall|v: JsonTree| #[trigger]
                stands(t, "head"@, 1, v) ==> v is Null || is_post_head(v)
            &&& forall|v: JsonTree| #[trigger]
                stands(t, "condition_dsp"@, 4, v) ==> v is Null || nam_json(v) is Ok
        },
{
    let fields = wavenet_fields();
    lemma_record(t, wavenet_record());
    assert(wavenet_record().fields =~= fields);
    if is_record(t, fields) {
        lemma_required_read(t, fields, 0);
        lemma_field_stands(t, "layers"@, 0);
        lemma_field_stands(t, "head"@, 1);
        lemma_field_stands(t, "condition_dsp"@, 4);
        let v = t.field("layers"@, 0)->Some_0;
        let items = v->Array_0;
        let raw = raw_wavenet(t)->Ok_0;
        lemma_arrays_make_sense(raw.layers, raw.layers.len());
        assert forall|x: JsonTree| #[trigger] stands(t, "layers"@, 0, x) implies x == v by {
            lemma_field_read(t, fields, 0, x);
        }
        assert forall|x: JsonTree| #[trigger] stands(t, "head"@, 1, x) implies t.field("head"@, 1)
            == Some(x) by {
            lemma_field_read(t, fields, 1, x);
        }
        assert forall|x: JsonTree| #[trigger] stands(t, "condition_dsp"@, 4, x) implies t.field(
            "condition_dsp"@,
            4,
        ) == Some(x) by {
            lemma_field_read(t, fields, 4, x);
        }
        assert(raw.layers.len() == items.len());
        assert forall|i: int| 0 <= i < items.len() implies #[trigger] raw.layers[i] == raw_array(
            items[i],
        )->Ok_0 by {}
        assert((forall|i: int|
            0 <= i < raw.layers.len() ==> (#[trigger] raw.layers[i]).normalized() is Ok)
            == arrays_make_sense(v)) by {
            if arrays_make_sense(v) {
                assert forall|i: int| 0 <= i < raw.layers.len() implies (
                #[trigger] raw.layers[i]).normalized() is Ok by {
                    assert(raw_array(items[i]) is Ok);
                }
            }
            if forall|i: int|
                0 <= i < raw.layers.len() ==> (#[trigger] raw.layers[i]).normalized() is Ok {
                assert forall|i: int| 0 <= i < items.len() implies raw_array(#[trigger] items[i]) is Ok
                    && raw_array(items[i])->Ok_0.normalized() is Ok by {
                    assert(raw.layers[i].normalized() is Ok);
                }
            }
        }
        match t.field("head"@, 1) {
            Some(h) => {
                lemma_post_head_read(h);
            },
            None => {},
        }
    }
}

// ---- Containers ----

/// The fields of a submodel.
pub open spec fn submodel_fields() -> Seq<(Seq<char>, Kind)> {
    seq![("max_value"@, Kind::Single), ("model"@, Kind::Any)]
}

/// A document is a submodel where it has a threshold and a model that can be read.
pub proof fn lemma_which_submodels_read(t: JsonTree)
    ensures
        submodel_json(t) is Ok <==> {
            &&& is_record(t, submodel_fields())
            &&& forall|v: JsonTree| #[trigger] stands(t, "model"@, 1, v) ==> nam_json(v) is Ok
        },
{
    let fields = submodel_fields();
    lemma_record(t, submodel_record());
    assert(submodel_record().fields =~= fields);
    if is_record(t, fields) {
        lemma_required_read(t, fields, 1);
        lemma_field_stands(t, "model"@, 1);
        assert forall|x: JsonTree| #[trigger] stands(t, "model"@, 1, x) implies t.field(
            "model"@,
            1,
        ) == Some(x) by {
            lemma_field_read(t, fields, 1, x);
        }
    }
}

#[verifier::opaque]
spec fn reads_submodel(v: JsonTree) -> bool {
    submodel_json(v) is Ok
}

#[verifier::opaque]
spec fn reads_submodels(items: Seq<JsonTree>, k: nat) -> bool {
    submodels_json(items, k) is Ok
}

proof fn lemma_submodels_step(items: Seq<JsonTree>, k: nat)
    requires
        0 < k <= items.len(),
    ensures
        reads_submodels(items, k) == (reads_submodels(items, (k - 1) as nat) && reads_submodel(
            items[k - 1],
        )),
{
    reveal(reads_submodel);
    reveal(reads_submodels);
}

proof fn lemma_submodels_read(items: Seq<JsonTree>, k: nat)
    requires
        k <= items.len(),
    ensures
        reads_submodels(items, k) == forall|i: int|
            0 <= i < k ==> reads_submodel(#[trigger] items[i]),
    decreases k,
{
    if k > 0 {
        lemma_submodels_read(items, (k - 1) as nat);
        lemma_submodels_step(items, k);
    } else {
        reveal(reads_submodels);
    }
}

/// Whether every entry of a list is a submodel.
pub open spec fn submodels_read(v: JsonTree) -> bool {
    match v {
        JsonTree::Array(items) => forall|i: int|
            0 <= i < items.len() ==> submodel_json(#[trigger] items[i]) is Ok,
        _ => false,
    }
}

/// A document is a container config where it has a list of submodels.
pub proof fn lemma_which_containers_read(t: JsonTree)
    ensures
        slimmable_json(t) is Ok <==> {
            &&& is_record(t, seq![("submodels"@, Kind::List)])
            &&& forall|v: JsonTree| #[trigger] stands(t, "submodels"@, 0, v) ==> submodels_read(v)
        },
{
    let fields = seq![("submodels"@, Kind::List)];
    lemma_record(t, slimmable_record());
    assert(slimmable_record().fields =~= fields);
    if is_record(t, fields) {
        lemma_required_read(t, fields, 0);
        lemma_field_stands(t, "submodels"@, 0);
        assert forall|x: JsonTree| #[trigger] stands(t, "submodels"@, 0, x) implies t.field(
            "submodels"@,
            0,
        ) == Some(x) by {
            lemma_field_read(t, fields, 0, x);
        }
        match t.field("submodels"@, 0) {
            Some(JsonTree::Array(items)) => {
                lemma_submodels_read(items, items.len());
                reveal(reads_submodels);
                assert(submodels_read(JsonTree::Array(items)) == forall|i: int|
                    0 <= i < items.len() ==> reads_submodel(#[trigger] items[i])) by {
                    reveal(reads_submodel);
                }
            },
            _ => {},
        }
    }
}

// ---- Files ----

/// The fields of a file.
pub open spec fn file_fields() -> Seq<(Seq<char>, Kind)> {
    seq![
        ("version"@, Kind::Text),
        ("architecture"@, Kind::Text),
        ("config"@, Kind::Any),
        ("weights"@, Kind::Singles),
        ("sample_rate"@, Kind::MaybeDouble),
        ("metadata"@, Kind::MaybeAny),
    ]
}

/// Whether a document is the config of that architecture, which is one of three.
pub open spec fn is_config_of(architecture: Seq<char>, c: JsonTree) -> bool {
    ||| architecture == "WaveNet"@ && wavenet_json(c) is Ok
    ||| architecture == "LSTM"@ && lstm_json(c) is Ok
    ||| architecture == "SlimmableContainer"@ && slimmable_json(c) is Ok
}

/// A document is a file where it has the fields of one, and its config is one of the
/// architecture that it names.
pub proof fn lemma_which_files_read(t: JsonTree)
    ensures
        nam_json(t) is Ok <==> {
            &&& is_record(t, file_fields())
            &&& forall|a: Seq<char>, c: JsonTree|
                #![trigger stands(t, "architecture"@, 1, JsonTree::String(a)), stands(t, "config"@, 2, c)]
                stands(t, "architecture"@, 1, JsonTree::String(a)) && stands(t, "config"@, 2, c)
                    ==> is_config_of(a, c)
        },
{
    let fields = file_fields();
    lemma_record(t, nam_record());
    assert(nam_record().fields =~= fields);
    lemma_architectures();
    if is_record(t, fields) {
        lemma_required_read(t, fields, 1);
        lemma_required_read(t, fields, 2);
        lemma_field_stands(t, "architecture"@, 1);
        lemma_field_stands(t, "config"@, 2);
        let a = t.field("architecture"@, 1)->Some_0->String_0;
        let c = t.field("config"@, 2)->Some_0;
        assert(stands(t, "architecture"@, 1, JsonTree::String(a)));
        assert(stands(t, "config"@, 2, c));
        assert forall|b: Seq<char>| #[trigger]
            stands(t, "architecture"@, 1, JsonTree::String(b)) implies b == a by {
            lemma_field_read(t, fields, 1, JsonTree::String(b));
        }
        assert forall|d: JsonTree| #[trigger] stands(t, "config"@, 2, d) implies d == c by {
            lemma_field_read(t, fields, 2, d);
        }
        assert(config_json(a, c) is Ok == is_config_of(a, c));
    }
}

proof fn lemma_architectures()
    ensures
        "WaveNet"@ != "LSTM"@,
        "WaveNet"@ != "SlimmableContainer"@,
        "LSTM"@ != "SlimmableContainer"@,
{
    reveal_strlit("WaveNet");
    reveal_strlit("LSTM");
    reveal_strlit("SlimmableContainer");
    assert("WaveNet"@.len() == 7);
    assert("LSTM"@.len() == 4);
    assert("SlimmableContainer"@.len() == 18);
}

} // verus!
