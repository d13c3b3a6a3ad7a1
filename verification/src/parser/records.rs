//! What a record must hold, and the words in which one that does not is refused.
//!
//! A record may be written as an object with named fields, or as an array with the
//! fields in their order. The members of an object are looked at one after another:
//! the first known one that stands there twice, or holds a value of the wrong type, is
//! complained of. After that, so is the first field that is missing.

use vstd::prelude::*;
use crate::json::{json_text, lookup, number_of, Json, JsonNumber, JsonTree};
use crate::text::{debug_text, decimal, same, Text};

verus! {

// ---- Values in words ----

/// What a value is, in words.
pub open spec fn described(v: JsonTree) -> Seq<char> {
    match v {
        JsonTree::Null => "null"@,
        JsonTree::Bool(true) => "boolean `true`"@,
        JsonTree::Bool(false) => "boolean `false`"@,
        JsonTree::Number(JsonNumber::Float(_)) => "floating point `"@ + json_text(v) + "`"@,
        JsonTree::Number(_) => "integer `"@ + json_text(v) + "`"@,
        JsonTree::String(s) => "string "@ + debug_text(s),
        JsonTree::Array(_) => "sequence"@,
        JsonTree::Object(_) => "map"@,
    }
}

/// The complaint that `v` is of another type than what is expected.
pub open spec fn wrong_type(v: JsonTree, what: Seq<char>) -> Seq<char> {
    "invalid type: "@ + described(v) + ", expected "@ + what
}

/// The complaint that the integer `v` is out of the range that is expected.
pub open spec fn wrong_value(v: JsonTree, what: Seq<char>) -> Seq<char> {
    "invalid value: "@ + described(v) + ", expected "@ + what
}

/// The complaint that the field of that name is missing.
pub open spec fn missing(name: Seq<char>) -> Seq<char> {
    "missing field `"@ + name + "`"@
}

/// The complaint that the field of that name stands there twice.
pub open spec fn twice(name: Seq<char>) -> Seq<char> {
    "duplicate field `"@ + name + "`"@
}

/// The contents of an optional text.
pub open spec fn text_of(m: Option<String>) -> Option<Seq<char>> {
    match m {
        Some(s) => Some(s@),
        None => None,
    }
}

fn describe(v: &Json) -> (r: String)
    ensures
        r@ == described(v@),
{
    match v {
        Json::Null => "null".to_owned(),
        Json::Bool(b) => if *b {
            "boolean `true`".to_owned()
        } else {
            "boolean `false`".to_owned()
        },
        Json::Number(n) => {
            let text = match number_of(n) {
                JsonNumber::Float(_) => Text::new().and("floating point `"),
                _ => Text::new().and("integer `"),
            };
            let r = text.and(v.to_text().as_str()).and("`").done();
            assert(v@.ordered() == v@);
            assert(r@ =~= described(v@));
            r
        },
        Json::String(s) => {
            let r = Text::new().and("string ").and_quoted(s.as_str()).done();
            assert(r@ =~= described(v@));
            r
        },
        Json::Array(_) => "sequence".to_owned(),
        Json::Object(_) => "map".to_owned(),
    }
}

pub(crate) fn refuse_type(v: &Json, what: &str) -> (r: String)
    ensures
        r@ == wrong_type(v@, what@),
{
    let r = Text::new().and("invalid type: ").and(describe(v).as_str()).and(", expected ").and(
        what,
    ).done();
    assert(r@ =~= wrong_type(v@, what@));
    r
}

fn refuse_value(v: &Json, what: &str) -> (r: String)
    ensures
        r@ == wrong_value(v@, what@),
{
    let r = Text::new().and("invalid value: ").and(describe(v).as_str()).and(", expected ").and(
        what,
    ).done();
    assert(r@ =~= wrong_value(v@, what@));
    r
}

/// `name` between backquotes, behind `before`.
pub(crate) fn backquoted(before: &str, name: &str) -> (r: String)
    ensures
        r@ == before@ + name@ + "`"@,
{
    let r = Text::new().and(before).and(name).and("`").done();
    assert(r@ =~= before@ + name@ + "`"@);
    r
}

// ---- Fields ----

/// What a field holds. One that may be absent may be `null` too.
#[derive(Debug, Clone, Copy, PartialEq, Eq, Structural)]
pub enum Kind {
    /// Any value.
    Any,
    /// Any value, or none.
    MaybeAny,
    /// A text.
    Text,
    /// A number in single precision.
    Single,
    /// A number in double precision, or none.
    MaybeDouble,
    /// A list of numbers in single precision.
    Singles,
    /// A size.
    Size,
    /// A size, or none.
    MaybeSize,
    /// A list of sizes.
    Sizes,
    /// A list of sizes, or none.
    MaybeSizes,
    /// A flag, or none.
    MaybeFlag,
    /// A list of layer-arrays.
    Layers,
    /// A list of anything.
    List,
}

impl Kind {
    /// Whether the field may be absent.
    pub open spec fn optional(self) -> bool {
        match self {
            Kind::MaybeAny | Kind::MaybeDouble | Kind::MaybeSize | Kind::MaybeSizes
            | Kind::MaybeFlag => true,
            _ => false,
        }
    }

    fn is_optional(self) -> (r: bool)
        ensures
            r == self.optional(),
    {
        match self {
            Kind::MaybeAny | Kind::MaybeDouble | Kind::MaybeSize | Kind::MaybeSizes
            | Kind::MaybeFlag => true,
            _ => false,
        }
    }
}

/// A record: its name and its fields in their order.
#[verifier::ext_equal]
pub struct RecordShape {
    pub name: Seq<char>,
    pub fields: Seq<(Seq<char>, Kind)>,
}

/// A record: its name and its fields in their order.
pub(crate) struct Record {
    pub(crate) name: &'static str,
    pub(crate) fields: Vec<(&'static str, Kind)>,
}

/// The names and kinds of a run of fields.
pub open spec fn fields_of(fields: Seq<(&'static str, Kind)>) -> Seq<(Seq<char>, Kind)> {
    Seq::new(fields.len(), |i: int| (fields[i].0@, fields[i].1))
}

impl Record {
    pub(crate) open spec fn view(&self) -> RecordShape {
        RecordShape { name: self.name@, fields: fields_of(self.fields@) }
    }
}

/// A layer-array as a document writes it.
pub open spec fn array_record() -> RecordShape {
    RecordShape {
        name: "RawLayerArrayConfig"@,
        fields: seq![
            ("input_size"@, Kind::Size),
            ("condition_size"@, Kind::Size),
            ("channels"@, Kind::Size),
            ("bottleneck"@, Kind::MaybeSize),
            ("dilations"@, Kind::Sizes),
            ("kernel_size"@, Kind::MaybeSize),
            ("kernel_sizes"@, Kind::MaybeSizes),
            ("activation"@, Kind::Any),
            ("gating_mode"@, Kind::MaybeAny),
            ("gated"@, Kind::MaybeFlag),
            ("secondary_activation"@, Kind::MaybeAny),
            ("groups_input"@, Kind::MaybeSize),
            ("groups_input_mixin"@, Kind::MaybeSize),
            ("head"@, Kind::MaybeAny),
            ("head_size"@, Kind::MaybeSize),
            ("head_bias"@, Kind::MaybeFlag),
            ("layer1x1"@, Kind::MaybeAny),
            ("head1x1"@, Kind::MaybeAny),
            ("conv_pre_film"@, Kind::MaybeAny),
            ("conv_post_film"@, Kind::MaybeAny),
            ("input_mixin_pre_film"@, Kind::MaybeAny),
            ("input_mixin_post_film"@, Kind::MaybeAny),
            ("activation_pre_film"@, Kind::MaybeAny),
            ("activation_post_film"@, Kind::MaybeAny),
            ("layer1x1_post_film"@, Kind::MaybeAny),
            ("head1x1_post_film"@, Kind::MaybeAny),
        ],
    }
}

pub(crate) fn layer_array() -> (r: Record)
    ensures
        r@ == array_record(),
{
    let r = Record {
        name: "RawLayerArrayConfig",
        fields: vec![
            ("input_size", Kind::Size),
            ("condition_size", Kind::Size),
            ("channels", Kind::Size),
            ("bottleneck", Kind::MaybeSize),
            ("dilations", Kind::Sizes),
            ("kernel_size", Kind::MaybeSize),
            ("kernel_sizes", Kind::MaybeSizes),
            ("activation", Kind::Any),
            ("gating_mode", Kind::MaybeAny),
            ("gated", Kind::MaybeFlag),
            ("secondary_activation", Kind::MaybeAny),
            ("groups_input", Kind::MaybeSize),
            ("groups_input_mixin", Kind::MaybeSize),
            ("head", Kind::MaybeAny),
            ("head_size", Kind::MaybeSize),
            ("head_bias", Kind::MaybeFlag),
            ("layer1x1", Kind::MaybeAny),
            ("head1x1", Kind::MaybeAny),
            ("conv_pre_film", Kind::MaybeAny),
            ("conv_post_film", Kind::MaybeAny),
            ("input_mixin_pre_film", Kind::MaybeAny),
            ("input_mixin_post_film", Kind::MaybeAny),
            ("activation_pre_film", Kind::MaybeAny),
            ("activation_post_film", Kind::MaybeAny),
            ("layer1x1_post_film", Kind::MaybeAny),
            ("head1x1_post_film", Kind::MaybeAny),
        ],
    };
    assert(r@.fields =~= array_record().fields);
    r
}

/// A WaveNet config as a document writes it.
pub open spec fn wavenet_record() -> RecordShape {
    RecordShape {
        name: "RawWaveNetConfig"@,
        fields: seq![
            ("layers"@, Kind::Layers),
            ("head"@, Kind::MaybeAny),
            ("head_scale"@, Kind::Single),
            ("in_channels"@, Kind::MaybeSize),
            ("condition_dsp"@, Kind::MaybeAny),
        ],
    }
}

pub(crate) fn wavenet() -> (r: Record)
    ensures
        r@ == wavenet_record(),
{
    let r = Record {
        name: "RawWaveNetConfig",
        fields: vec![
            ("layers", Kind::Layers),
            ("head", Kind::MaybeAny),
            ("head_scale", Kind::Single),
            ("in_channels", Kind::MaybeSize),
            ("condition_dsp", Kind::MaybeAny),
        ],
    };
    assert(r@.fields =~= wavenet_record().fields);
    r
}

/// An LSTM config.
pub open spec fn lstm_record() -> RecordShape {
    RecordShape {
        name: "LstmConfig"@,
        fields: seq![
            ("input_size"@, Kind::Size),
            ("hidden_size"@, Kind::Size),
            ("num_layers"@, Kind::Size),
        ],
    }
}

pub(crate) fn lstm() -> (r: Record)
    ensures
        r@ == lstm_record(),
{
    let r = Record {
        name: "LstmConfig",
        fields: vec![
            ("input_size", Kind::Size),
            ("hidden_size", Kind::Size),
            ("num_layers", Kind::Size),
        ],
    };
    assert(r@.fields =~= lstm_record().fields);
    r
}

/// A submodel of a container. What its model holds is another matter.
pub open spec fn submodel_record() -> RecordShape {
    RecordShape {
        name: "SlimmableSubmodel"@,
        fields: seq![("max_value"@, Kind::Single), ("model"@, Kind::Any)],
    }
}

pub(crate) fn submodel() -> (r: Record)
    ensures
        r@ == submodel_record(),
{
    let r = Record {
        name: "SlimmableSubmodel",
        fields: vec![("max_value", Kind::Single), ("model", Kind::Any)],
    };
    assert(r@.fields =~= submodel_record().fields);
    r
}

/// A container config. What its submodels hold is another matter.
pub open spec fn slimmable_record() -> RecordShape {
    RecordShape { name: "SlimmableConfig"@, fields: seq![("submodels"@, Kind::List)] }
}

pub(crate) fn slimmable() -> (r: Record)
    ensures
        r@ == slimmable_record(),
{
    let r = Record { name: "SlimmableConfig", fields: vec![("submodels", Kind::List)] };
    assert(r@.fields =~= slimmable_record().fields);
    r
}

/// A file.
pub open spec fn nam_record() -> RecordShape {
    RecordShape {
        name: "Raw"@,
        fields: seq![
            ("version"@, Kind::Text),
            ("architecture"@, Kind::Text),
            ("config"@, Kind::Any),
            ("weights"@, Kind::Singles),
            ("sample_rate"@, Kind::MaybeDouble),
            ("metadata"@, Kind::MaybeAny),
        ],
    }
}

pub(crate) fn nam() -> (r: Record)
    ensures
        r@ == nam_record(),
{
    let r = Record {
        name: "Raw",
        fields: vec![
            ("version", Kind::Text),
            ("architecture", Kind::Text),
            ("config", Kind::Any),
            ("weights", Kind::Singles),
            ("sample_rate", Kind::MaybeDouble),
            ("metadata", Kind::MaybeAny),
        ],
    };
    assert(r@.fields =~= nam_record().fields);
    r
}

// ---- Complaints ----

/// Why a value is no size, if so.
pub open spec fn size_complaint(v: JsonTree) -> Option<Seq<char>> {
    if v.as_usize() is Some {
        None
    } else {
        match v {
            JsonTree::Number(JsonNumber::Float(_)) => Some(wrong_type(v, "usize"@)),
            JsonTree::Number(_) => Some(wrong_value(v, "usize"@)),
            _ => Some(wrong_type(v, "usize"@)),
        }
    }
}

/// Why a value is no number of that precision, if so.
pub open spec fn number_complaint(v: JsonTree, precision: Seq<char>) -> Option<Seq<char>> {
    if v is Number {
        None
    } else {
        Some(wrong_type(v, precision))
    }
}

/// Why a value is not what a field of that kind holds, if so.
pub open spec fn kind_complaint(kind: Kind, v: JsonTree) -> Option<Seq<char>>
    decreases v, 0nat, 0nat,
{
    if kind.optional() && v == JsonTree::Null {
        None
    } else {
        match kind {
            Kind::Any | Kind::MaybeAny => None,
            Kind::Text => if v is String {
                None
            } else {
                Some(wrong_type(v, "a string"@))
            },
            Kind::Single => number_complaint(v, "f32"@),
            Kind::MaybeDouble => number_complaint(v, "f64"@),
            Kind::Size | Kind::MaybeSize => size_complaint(v),
            Kind::MaybeFlag => if v is Bool {
                None
            } else {
                Some(wrong_type(v, "a boolean"@))
            },
            Kind::Singles | Kind::Sizes | Kind::MaybeSizes | Kind::Layers | Kind::List => match v {
                JsonTree::Array(items) => items_complaint(kind, items, items.len()),
                _ => Some(wrong_type(v, "a sequence"@)),
            },
        }
    }
}

/// Why one of the first `k` items is not what a list of that kind holds, if so.
pub open spec fn items_complaint(kind: Kind, items: Seq<JsonTree>, k: nat) -> Option<Seq<char>>
    decreases items, 0nat, k,
{
    if k == 0 || k > items.len() {
        None
    } else if items_complaint(kind, items, (k - 1) as nat) is Some {
        items_complaint(kind, items, (k - 1) as nat)
    } else {
        match kind {
            Kind::Singles => number_complaint(items[k - 1], "f32"@),
            Kind::Sizes | Kind::MaybeSizes => size_complaint(items[k - 1]),
            Kind::Layers => shape_complaint(items[k - 1], array_record()),
            _ => None,
        }
    }
}

/// Why the member of that name is refused by one of the first `n` fields, if so. `again`
/// tells whether a member of that name stood before it.
pub open spec fn member_complaint(
    name: Seq<char>,
    v: JsonTree,
    again: bool,
    fields: Seq<(Seq<char>, Kind)>,
    n: nat,
) -> Option<Seq<char>>
    decreases v, 1nat, n,
{
    if n == 0 || n > fields.len() {
        None
    } else if member_complaint(name, v, again, fields, (n - 1) as nat) is Some {
        member_complaint(name, v, again, fields, (n - 1) as nat)
    } else if fields[n - 1].0 != name {
        None
    } else if again {
        Some(twice(name))
    } else {
        kind_complaint(fields[n - 1].1, v)
    }
}

/// Whether a member before member `i` has the same name.
pub open spec fn repeated(ms: Seq<(Seq<char>, JsonTree)>, i: int) -> bool {
    exists|j: int| 0 <= j < i && #[trigger] ms[j].0 == ms[i].0
}

/// Why one of the first `k` members is refused, if so.
pub open spec fn members_complaint(
    ms: Seq<(Seq<char>, JsonTree)>,
    fields: Seq<(Seq<char>, Kind)>,
    k: nat,
) -> Option<Seq<char>>
    decreases ms, 0nat, k,
{
    if k == 0 || k > ms.len() {
        None
    } else if members_complaint(ms, fields, (k - 1) as nat) is Some {
        members_complaint(ms, fields, (k - 1) as nat)
    } else {
        proof {
            assert(decreases_to!(ms => ms[k - 1]));
            assert(decreases_to!(ms[k - 1] => ms[k - 1].1));
        }
        member_complaint(ms[k - 1].0, ms[k - 1].1, repeated(ms, k - 1), fields, fields.len())
    }
}

/// Why one of the first `k` values is refused by the field in its place, if so.
pub open spec fn places_complaint(
    vs: Seq<JsonTree>,
    fields: Seq<(Seq<char>, Kind)>,
    k: nat,
) -> Option<Seq<char>>
    decreases vs, 0nat, k,
{
    if k == 0 || k > vs.len() || k > fields.len() {
        None
    } else if places_complaint(vs, fields, (k - 1) as nat) is Some {
        places_complaint(vs, fields, (k - 1) as nat)
    } else {
        kind_complaint(fields[k - 1].1, vs[k - 1])
    }
}

/// Why what stands in a document is no such record, if so.
pub open spec fn present_complaint(t: JsonTree, rec: RecordShape) -> Option<Seq<char>>
    decreases t, 1nat, 0nat,
{
    match t {
        JsonTree::Object(ms) => members_complaint(ms, rec.fields, ms.len()),
        JsonTree::Array(vs) => places_complaint(
            vs,
            rec.fields,
            if vs.len() < rec.fields.len() {
                vs.len()
            } else {
                rec.fields.len()
            },
        ),
        _ => Some(wrong_type(t, "struct "@ + rec.name)),
    }
}

/// Which of the first `n` fields is missing from an object, if one is.
pub open spec fn missing_complaint(
    ms: Seq<(Seq<char>, JsonTree)>,
    fields: Seq<(Seq<char>, Kind)>,
    n: nat,
) -> Option<Seq<char>>
    decreases n,
{
    if n == 0 || n > fields.len() {
        None
    } else if missing_complaint(ms, fields, (n - 1) as nat) is Some {
        missing_complaint(ms, fields, (n - 1) as nat)
    } else if !fields[n - 1].1.optional() && lookup(ms, fields[n - 1].0) is None {
        Some(missing(fields[n - 1].0))
    } else {
        None
    }
}

/// The complaint that an array has only `len` elements.
pub open spec fn too_short(len: nat, rec: RecordShape) -> Seq<char> {
    "invalid length "@ + decimal(len) + ", expected struct "@ + rec.name + " with "@ + decimal(
        rec.fields.len(),
    ) + if rec.fields.len() == 1 {
        " element"@
    } else {
        " elements"@
    }
}

/// The complaint that an array has as many as `len` elements.
pub open spec fn too_long(len: nat) -> Seq<char> {
    "invalid length "@ + decimal(len) + ", expected fewer elements in array"@
}

/// Which of the first `n` fields is missing from an array of `len` values, if one is.
pub open spec fn short_complaint(len: nat, rec: RecordShape, n: nat) -> Option<Seq<char>>
    decreases n,
{
    if n == 0 || n > rec.fields.len() {
        None
    } else if short_complaint(len, rec, (n - 1) as nat) is Some {
        short_complaint(len, rec, (n - 1) as nat)
    } else if n > len && !rec.fields[n - 1].1.optional() {
        Some(too_short((n - 1) as nat, rec))
    } else {
        None
    }
}

/// What a document lacks to be such a record, or has too much, if so.
pub open spec fn absent_complaint(t: JsonTree, rec: RecordShape) -> Option<Seq<char>> {
    match t {
        JsonTree::Object(ms) => missing_complaint(ms, rec.fields, rec.fields.len()),
        JsonTree::Array(vs) => if vs.len() > rec.fields.len() {
            Some(too_long(vs.len()))
        } else {
            short_complaint(vs.len(), rec, rec.fields.len())
        },
        _ => None,
    }
}

/// Why a document is no such record, if so.
pub open spec fn shape_complaint(t: JsonTree, rec: RecordShape) -> Option<Seq<char>>
    decreases t, 2nat, 0nat,
{
    match present_complaint(t, rec) {
        Some(m) => Some(m),
        None => absent_complaint(t, rec),
    }
}

/// Whether a name is none of the fields.
pub open spec fn unknown(name: Seq<char>, fields: Seq<(Seq<char>, Kind)>) -> bool {
    forall|i: int| 0 <= i < fields.len() ==> #[trigger] fields[i].0 != name
}

pub(crate) fn is_unknown(name: &str, rec: &Record) -> (r: bool)
    ensures
        r == unknown(name@, rec@.fields),
{
    let ghost fields = rec@.fields;
    let mut i: usize = 0;
    while i < rec.fields.len()
        invariant
            fields == rec@.fields,
            fields.len() == rec.fields@.len(),
            i <= rec.fields@.len(),
            forall|q: int| 0 <= q < i ==> #[trigger] fields[q].0 != name@,
        decreases rec.fields@.len() - i,
    {
        assert(fields[i as int].0 == rec.fields@[i as int].0@);
        if same(rec.fields[i].0, name) {
            return false;
        }
        i += 1;
    }
    true
}

/// What the field of that name holds, of the first `n` of a file; anything, where there
/// is none.
pub open spec fn kind_among(name: Seq<char>, n: nat) -> Kind
    decreases n,
{
    if n == 0 || n > nam_record().fields.len() {
        Kind::Any
    } else if nam_record().fields[n - 1].0 == name {
        nam_record().fields[n - 1].1
    } else {
        kind_among(name, (n - 1) as nat)
    }
}

/// What the field of that name of a file holds.
pub open spec fn kind_named(name: Seq<char>) -> Kind {
    kind_among(name, nam_record().fields.len())
}

pub(crate) fn kind_of(name: &str) -> (r: Kind)
    ensures
        r == kind_named(name@),
{
    let rec = nam();
    let ghost fields = nam_record().fields;
    let mut n: usize = rec.fields.len();
    while n > 0
        invariant
            rec@ == nam_record(),
            fields == nam_record().fields,
            n <= rec.fields@.len(),
            kind_among(name@, n as nat) == kind_named(name@),
        decreases n,
    {
        assert(fields[n - 1] == (rec.fields@[n - 1].0@, rec.fields@[n - 1].1));
        if same(rec.fields[n - 1].0, name) {
            return rec.fields[n - 1].1;
        }
        n -= 1;
    }
    Kind::Any
}

fn complain_of_size(v: &Json) -> (r: Option<String>)
    ensures
        text_of(r) == size_complaint(v@),
{
    if v.as_usize().is_some() {
        return None;
    }
    match v {
        Json::Number(n) => match number_of(n) {
            JsonNumber::Float(_) => Some(refuse_type(v, "usize")),
            _ => Some(refuse_value(v, "usize")),
        },
        _ => Some(refuse_type(v, "usize")),
    }
}

fn complain_of_number(v: &Json, precision: &str) -> (r: Option<String>)
    ensures
        text_of(r) == number_complaint(v@, precision@),
{
    match v {
        Json::Number(_) => None,
        _ => Some(refuse_type(v, precision)),
    }
}

/// A complaint of one of the first items is the complaint of the list.
proof fn lemma_items_first(kind: Kind, items: Seq<JsonTree>, k: nat)
    requires
        k <= items.len(),
        items_complaint(kind, items, k) is Some,
    ensures
        items_complaint(kind, items, items.len()) == items_complaint(kind, items, k),
    decreases items.len() - k,
{
    if k < items.len() {
        lemma_items_first(kind, items, k + 1);
    }
}

/// A complaint of one of the first fields is the complaint of the record.
proof fn lemma_member_first(
    name: Seq<char>,
    v: JsonTree,
    again: bool,
    fields: Seq<(Seq<char>, Kind)>,
    n: nat,
)
    requires
        n <= fields.len(),
        member_complaint(name, v, again, fields, n) is Some,
    ensures
        member_complaint(name, v, again, fields, fields.len()) == member_complaint(
            name,
            v,
            again,
            fields,
            n,
        ),
    decreases fields.len() - n,
{
    if n < fields.len() {
        lemma_member_first(name, v, again, fields, n + 1);
    }
}

/// A complaint of one of the first members is the complaint of the object.
proof fn lemma_members_first(
    ms: Seq<(Seq<char>, JsonTree)>,
    fields: Seq<(Seq<char>, Kind)>,
    k: nat,
)
    requires
        k <= ms.len(),
        members_complaint(ms, fields, k) is Some,
    ensures
        members_complaint(ms, fields, ms.len()) == members_complaint(ms, fields, k),
    decreases ms.len() - k,
{
    if k < ms.len() {
        lemma_members_first(ms, fields, k + 1);
    }
}

/// A complaint of one of the first values is the complaint of all.
proof fn lemma_places_first(vs: Seq<JsonTree>, fields: Seq<(Seq<char>, Kind)>, k: nat, n: nat)
    requires
        k <= n <= vs.len(),
        n <= fields.len(),
        places_complaint(vs, fields, k) is Some,
    ensures
        places_complaint(vs, fields, n) == places_complaint(vs, fields, k),
    decreases n - k,
{
    if k < n {
        lemma_places_first(vs, fields, k + 1, n);
    }
}

/// A missing field among the first is the complaint of the record.
proof fn lemma_missing_first(
    ms: Seq<(Seq<char>, JsonTree)>,
    fields: Seq<(Seq<char>, Kind)>,
    n: nat,
)
    requires
        n <= fields.len(),
        missing_complaint(ms, fields, n) is Some,
    ensures
        missing_complaint(ms, fields, fields.len()) == missing_complaint(ms, fields, n),
    decreases fields.len() - n,
{
    if n < fields.len() {
        lemma_missing_first(ms, fields, n + 1);
    }
}

/// A missing value among the first is the complaint of the record.
proof fn lemma_short_first(len: nat, rec: RecordShape, n: nat)
    requires
        n <= rec.fields.len(),
        short_complaint(len, rec, n) is Some,
    ensures
        short_complaint(len, rec, rec.fields.len()) == short_complaint(len, rec, n),
    decreases rec.fields.len() - n,
{
    if n < rec.fields.len() {
        lemma_short_first(len, rec, n + 1);
    }
}

pub(crate) fn complain_of_kind(kind: Kind, v: &Json) -> (r: Option<String>)
    ensures
        text_of(r) == kind_complaint(kind, v@),
    decreases v@, 0nat,
{
    if kind.is_optional() && v.is_null() {
        return None;
    }
    match kind {
        Kind::Any | Kind::MaybeAny => None,
        Kind::Text => match v {
            Json::String(_) => None,
            _ => Some(refuse_type(v, "a string")),
        },
        Kind::Single => complain_of_number(v, "f32"),
        Kind::MaybeDouble => complain_of_number(v, "f64"),
        Kind::Size | Kind::MaybeSize => complain_of_size(v),
        Kind::MaybeFlag => match v {
            Json::Bool(_) => None,
            _ => Some(refuse_type(v, "a boolean")),
        },
        Kind::Singles | Kind::Sizes | Kind::MaybeSizes | Kind::Layers | Kind::List => match v {
            Json::Array(vs) => {
                let ghost items = v@->Array_0;
                let mut i: usize = 0;
                while i < vs.len()
                    invariant
                        *v == Json::Array(*vs),
                        items == v@->Array_0,
                        items.len() == vs@.len(),
                        i <= vs@.len(),
                        kind_complaint(kind, v@) == items_complaint(kind, items, items.len()),
                        items_complaint(kind, items, i as nat) is None,
                    decreases vs@.len() - i,
                {
                    assert(items[i as int] == vs@[i as int]@);
                    assert(decreases_to!(v@ => v@->Array_0[i as int]));
                    let m: Option<String> = match kind {
                        Kind::Singles => complain_of_number(&vs[i], "f32"),
                        Kind::Sizes | Kind::MaybeSizes => complain_of_size(&vs[i]),
                        Kind::Layers => complain(&vs[i], &layer_array()),
                        _ => None,
                    };
                    assert(items_complaint(kind, items, (i + 1) as nat) == text_of(m));
                    if m.is_some() {
                        proof {
                            lemma_items_first(kind, items, (i + 1) as nat);
                        }
                        return m;
                    }
                    i += 1;
                }
                None
            },
            _ => Some(refuse_type(v, "a sequence")),
        },
    }
}

/// Whether a member before member `i` has the same name.
fn is_repeated(ms: &Vec<(String, Json)>, i: usize) -> (r: bool)
    requires
        i < ms@.len(),
    ensures
        forall|t: Json| #![trigger t@] t == Json::Object(*ms) ==> r == repeated(t@->Object_0, i as int),
{
    let ghost t = Json::Object(*ms);
    let ghost all = t@->Object_0;
    let mut j: usize = 0;
    while j < i
        invariant
            t == Json::Object(*ms),
            all == t@->Object_0,
            all.len() == ms@.len(),
            j <= i < ms@.len(),
            forall|q: int| 0 <= q < j ==> #[trigger] all[q].0 != all[i as int].0,
        decreases i - j,
    {
        assert(all[j as int].0 == ms@[j as int].0@);
        assert(all[i as int].0 == ms@[i as int].0@);
        if same(ms[j].0.as_str(), ms[i].0.as_str()) {
            return true;
        }
        j += 1;
    }
    false
}

fn complain_of_member(name: &str, v: &Json, again: bool, rec: &Record) -> (r: Option<String>)
    ensures
        text_of(r) == member_complaint(name@, v@, again, rec@.fields, rec@.fields.len()),
    decreases v@, 1nat,
{
    let ghost fields = rec@.fields;
    let mut n: usize = 0;
    while n < rec.fields.len()
        invariant
            fields == rec@.fields,
            fields.len() == rec.fields@.len(),
            n <= rec.fields@.len(),
            member_complaint(name@, v@, again, fields, n as nat) is None,
        decreases rec.fields@.len() - n,
    {
        assert(fields[n as int] == (rec.fields@[n as int].0@, rec.fields@[n as int].1));
        if same(rec.fields[n].0, name) {
            let m: Option<String> = if again {
                Some(backquoted("duplicate field `", name))
            } else {
                complain_of_kind(rec.fields[n].1, v)
            };
            assert(member_complaint(name@, v@, again, fields, (n + 1) as nat) == text_of(m));
            if m.is_some() {
                proof {
                    lemma_member_first(name@, v@, again, fields, (n + 1) as nat);
                }
                return m;
            }
        }
        n += 1;
    }
    None
}

/// Why what stands in a document is no such record, if so.
pub(crate) fn complain_of_present(t: &Json, rec: &Record) -> (r: Option<String>)
    ensures
        text_of(r) == present_complaint(t@, rec@),
    decreases t@, 1nat,
{
    let ghost fields = rec@.fields;
    match t {
        Json::Object(ms) => {
            let ghost all = t@->Object_0;
            let mut k: usize = 0;
            while k < ms.len()
                invariant
                    *t == Json::Object(*ms),
                    all == t@->Object_0,
                    all.len() == ms@.len(),
                    fields == rec@.fields,
                    present_complaint(t@, rec@) == members_complaint(all, fields, all.len()),
                    k <= ms@.len(),
                    members_complaint(all, fields, k as nat) is None,
                decreases ms@.len() - k,
            {
                assert(all[k as int] == (ms@[k as int].0@, ms@[k as int].1@));
                assert(decreases_to!(t@ => t@->Object_0[k as int].1));
                let again: bool = is_repeated(ms, k);
                assert(again == repeated(all, k as int));
                let m = complain_of_member(ms[k].0.as_str(), &ms[k].1, again, rec);
                assert(members_complaint(all, fields, (k + 1) as nat) == text_of(m));
                if m.is_some() {
                    proof {
                        lemma_members_first(all, fields, (k + 1) as nat);
                    }
                    return m;
                }
                k += 1;
            }
            None
        },
        Json::Array(vs) => {
            let ghost all = t@->Array_0;
            let n: usize = if vs.len() < rec.fields.len() {
                vs.len()
            } else {
                rec.fields.len()
            };
            let mut k: usize = 0;
            while k < n
                invariant
                    *t == Json::Array(*vs),
                    all == t@->Array_0,
                    all.len() == vs@.len(),
                    fields == rec@.fields,
                    fields.len() == rec.fields@.len(),
                    n <= vs@.len(),
                    n <= rec.fields@.len(),
                    present_complaint(t@, rec@) == places_complaint(all, fields, n as nat),
                    k <= n,
                    places_complaint(all, fields, k as nat) is None,
                decreases n - k,
            {
                assert(all[k as int] == vs@[k as int]@);
                assert(decreases_to!(t@ => t@->Array_0[k as int]));
                assert(fields[k as int] == (rec.fields@[k as int].0@, rec.fields@[k as int].1));
                let m = complain_of_kind(rec.fields[k].1, &vs[k]);
                assert(places_complaint(all, fields, (k + 1) as nat) == text_of(m));
                if m.is_some() {
                    proof {
                        lemma_places_first(all, fields, (k + 1) as nat, n as nat);
                    }
                    return m;
                }
                k += 1;
            }
            None
        },
        _ => {
            let what = Text::new().and("struct ").and(rec.name).done();
            assert(what@ =~= "struct "@ + rec.name@);
            Some(refuse_type(t, what.as_str()))
        },
    }
}

fn refuse_short(len: usize, rec: &Record) -> (r: String)
    ensures
        r@ == too_short(len as nat, rec@),
{
    let count: usize = rec.fields.len();
    let text = Text::new().and("invalid length ").and_number(len).and(", expected struct ").and(
        rec.name,
    ).and(" with ").and_number(count).and(
        if count == 1 {
            " element"
        } else {
            " elements"
        },
    );
    let r = text.done();
    assert(r@ =~= too_short(len as nat, rec@));
    r
}

fn refuse_long(len: usize) -> (r: String)
    ensures
        r@ == too_long(len as nat),
{
    let r = Text::new().and("invalid length ").and_number(len).and(
        ", expected fewer elements in array",
    ).done();
    assert(r@ =~= too_long(len as nat));
    r
}

/// What a document lacks to be such a record, or has too much, if so.
pub(crate) fn complain_of_absent(t: &Json, rec: &Record) -> (r: Option<String>)
    ensures
        text_of(r) == absent_complaint(t@, rec@),
{
    let ghost fields = rec@.fields;
    let count: usize = rec.fields.len();
    let mut n: usize = 0;
    match t {
        Json::Object(ms) => {
            let ghost all = t@->Object_0;
            while n < count
                invariant
                    *t == Json::Object(*ms),
                    all == t@->Object_0,
                    fields == rec@.fields,
                    count == fields.len(),
                    count == rec.fields@.len(),
                    n <= count,
                    missing_complaint(all, fields, n as nat) is None,
                decreases count - n,
            {
                assert(fields[n as int] == (rec.fields@[n as int].0@, rec.fields@[n as int].1));
                if !rec.fields[n].1.is_optional() && t.get(rec.fields[n].0).is_none() {
                    proof {
                        lemma_missing_first(all, fields, (n + 1) as nat);
                    }
                    return Some(backquoted("missing field `", rec.fields[n].0));
                }
                n += 1;
            }
            None
        },
        Json::Array(vs) => {
            if vs.len() > count {
                return Some(refuse_long(vs.len()));
            }
            while n < count
                invariant
                    *t == Json::Array(*vs),
                    t@->Array_0.len() == vs@.len(),
                    fields == rec@.fields,
                    count == fields.len(),
                    count == rec.fields@.len(),
                    n <= count,
                    short_complaint(vs@.len(), rec@, n as nat) is None,
                decreases count - n,
            {
                assert(fields[n as int] == (rec.fields@[n as int].0@, rec.fields@[n as int].1));
                if n >= vs.len() && !rec.fields[n].1.is_optional() {
                    proof {
                        lemma_short_first(vs@.len(), rec@, (n + 1) as nat);
                    }
                    return Some(refuse_short(n, rec));
                }
                n += 1;
            }
            None
        },
        _ => None,
    }
}

/// Why a document is no such record, if so.
pub(crate) fn complain(t: &Json, rec: &Record) -> (r: Option<String>)
    ensures
        text_of(r) == shape_complaint(t@, rec@),
    decreases t@, 2nat,
{
    match complain_of_present(t, rec) {
        Some(m) => Some(m),
        None => complain_of_absent(t, rec),
    }
}

// ---- Records without complaint ----

/// Whether a field that is there, or is not, is as a field of that kind may be.
pub open spec fn holds(kind: Kind, v: Option<JsonTree>) -> bool {
    match v {
        Some(x) => kind_complaint(kind, x) is None,
        None => kind.optional(),
    }
}

proof fn lemma_member_fits(
    name: Seq<char>,
    v: JsonTree,
    again: bool,
    fields: Seq<(Seq<char>, Kind)>,
    n: nat,
    i: int,
)
    requires
        member_complaint(name, v, again, fields, n) is None,
        0 <= i < n <= fields.len(),
        fields[i].0 == name,
    ensures
        kind_complaint(fields[i].1, v) is None,
    decreases n,
{
    if i < n - 1 {
        lemma_member_fits(name, v, again, fields, (n - 1) as nat, i);
    }
}

proof fn lemma_members_fit(
    ms: Seq<(Seq<char>, JsonTree)>,
    fields: Seq<(Seq<char>, Kind)>,
    k: nat,
    j: int,
)
    requires
        members_complaint(ms, fields, k) is None,
        0 <= j < k <= ms.len(),
    ensures
        member_complaint(ms[j].0, ms[j].1, repeated(ms, j), fields, fields.len()) is None,
    decreases k,
{
    if j < k - 1 {
        lemma_members_fit(ms, fields, (k - 1) as nat, j);
    }
}

proof fn lemma_places_fit(vs: Seq<JsonTree>, fields: Seq<(Seq<char>, Kind)>, k: nat, i: int)
    requires
        places_complaint(vs, fields, k) is None,
        0 <= i < k <= vs.len(),
        k <= fields.len(),
    ensures
        kind_complaint(fields[i].1, vs[i]) is None,
    decreases k,
{
    if i < k - 1 {
        lemma_places_fit(vs, fields, (k - 1) as nat, i);
    }
}

proof fn lemma_none_missing(
    ms: Seq<(Seq<char>, JsonTree)>,
    fields: Seq<(Seq<char>, Kind)>,
    n: nat,
    i: int,
)
    requires
        missing_complaint(ms, fields, n) is None,
        0 <= i < n <= fields.len(),
    ensures
        fields[i].1.optional() || lookup(ms, fields[i].0) is Some,
    decreases n,
{
    if i < n - 1 {
        lemma_none_missing(ms, fields, (n - 1) as nat, i);
    }
}

proof fn lemma_long_enough(len: nat, rec: RecordShape, n: nat, i: int)
    requires
        short_complaint(len, rec, n) is None,
        0 <= i < n <= rec.fields.len(),
    ensures
        rec.fields[i].1.optional() || i < len,
    decreases n,
{
    if i < n - 1 {
        lemma_long_enough(len, rec, (n - 1) as nat, i);
    }
}

/// A member that is found is one of the members.
pub proof fn lemma_lookup(ms: Seq<(Seq<char>, JsonTree)>, key: Seq<char>) -> (i: int)
    requires
        lookup(ms, key) is Some,
    ensures
        0 <= i < ms.len(),
        ms[i].0 == key,
        lookup(ms, key) == Some(ms[i].1),
    decreases ms.len(),
{
    if ms[0].0 == key {
        0
    } else {
        let j = lemma_lookup(ms.drop_first(), key);
        assert(ms.drop_first()[j] == ms[j + 1]);
        j + 1
    }
}

/// Where there is no complaint of what is there, each field that is there has its type.
pub proof fn lemma_present(t: JsonTree, rec: RecordShape, i: int)
    requires
        present_complaint(t, rec) is None,
        0 <= i < rec.fields.len(),
    ensures
        t.field(rec.fields[i].0, i) matches Some(v) ==> kind_complaint(rec.fields[i].1, v) is None,
{
    let fields = rec.fields;
    match t {
        JsonTree::Object(ms) => {
            if lookup(ms, fields[i].0) is Some {
                let j = lemma_lookup(ms, fields[i].0);
                lemma_members_fit(ms, fields, ms.len(), j);
                lemma_member_fits(
                    ms[j].0,
                    ms[j].1,
                    repeated(ms, j),
                    fields,
                    fields.len(),
                    i,
                );
            }
        },
        JsonTree::Array(vs) => {
            if i < vs.len() {
                let n = if vs.len() < fields.len() {
                    vs.len()
                } else {
                    fields.len()
                };
                lemma_places_fit(vs, fields, n, i);
            }
        },
        _ => {},
    }
}

/// Where there is no complaint of what is absent, every field that must be there is.
pub proof fn lemma_complete(t: JsonTree, rec: RecordShape, i: int)
    requires
        t is Object || t is Array,
        absent_complaint(t, rec) is None,
        0 <= i < rec.fields.len(),
    ensures
        rec.fields[i].1.optional() || t.field(rec.fields[i].0, i) is Some,
{
    match t {
        JsonTree::Object(ms) => {
            lemma_none_missing(ms, rec.fields, rec.fields.len(), i);
        },
        JsonTree::Array(vs) => {
            lemma_long_enough(vs.len(), rec, rec.fields.len(), i);
        },
        _ => {},
    }
}

/// In a record without complaint every field is as its kind says.
pub proof fn lemma_holds(t: JsonTree, rec: RecordShape, i: int)
    requires
        shape_complaint(t, rec) is None,
        0 <= i < rec.fields.len(),
    ensures
        holds(rec.fields[i].1, t.field(rec.fields[i].0, i)),
{
    lemma_present(t, rec, i);
    lemma_complete(t, rec, i);
}

/// In a list without complaint every item is without.
pub proof fn lemma_items_fit(kind: Kind, items: Seq<JsonTree>, k: nat, i: int)
    requires
        items_complaint(kind, items, k) is None,
        0 <= i < k <= items.len(),
    ensures
        kind == Kind::Singles ==> items[i] is Number,
        kind == Kind::Sizes || kind == Kind::MaybeSizes ==> items[i].as_usize() is Some,
        kind == Kind::Layers ==> shape_complaint(items[i], array_record()) is None,
    decreases k,
{
    if i < k - 1 {
        lemma_items_fit(kind, items, (k - 1) as nat, i);
    }
}

} // verus!
