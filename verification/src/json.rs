//! JSON documents as plain data.
//!
//! Text is read by `serde_json`; everything after that works on [`Json`], a tree
//! of ordinary values whose mathematical counterpart is [`JsonTree`].

use vstd::prelude::*;
use crate::text::same;

verus! {

/// A number exactly as a JSON document writes it.
///
/// Integers keep their value. Every other number is held as the bit pattern of
/// the IEEE 754 double it denotes, so no rounding happens here.
#[derive(Debug, Clone, Copy, PartialEq, Eq, Structural)]
pub enum JsonNumber {
    /// An integer from zero upwards.
    PosInt(u64),
    /// An integer below zero.
    NegInt(i64),
    /// The bit pattern of a double.
    Float(u64),
}

/// A JSON document.
#[derive(Debug, PartialEq)]
pub enum Json {
    Null,
    Bool(bool),
    /// A number, as `serde_json` holds it; [`number_of`] tells which.
    Number(serde_json::Number),
    String(String),
    Array(Vec<Json>),
    /// The members of an object.
    Object(Vec<(String, Json)>),
}

/// The mathematical content of a [`Json`].
pub enum JsonTree {
    Null,
    Bool(bool),
    Number(JsonNumber),
    String(Seq<char>),
    Array(Seq<JsonTree>),
    Object(Seq<(Seq<char>, JsonTree)>),
}

/// One level of a `serde_json::Value`.
enum Node {
    Null,
    Bool(bool),
    Number(serde_json::Number),
    String(String),
    Array(Vec<serde_json::Value>),
    Object(serde_json::Map<String, serde_json::Value>),
}

/// A document as `serde_json` holds it. Opaque: [`value_tree`] stands for its content.
#[verifier::external_type_specification]
#[verifier::external_body]
pub struct ExValue(serde_json::Value);

/// A number as `serde_json` holds it. Opaque: [`number_parts`] stands for its content.
#[verifier::external_type_specification]
#[verifier::external_body]
pub struct ExNumber(serde_json::Number);

/// The map that `serde_json` holds an object as. Opaque: [`map_members`] stands for its
/// content.
#[verifier::external_type_specification]
#[verifier::external_body]
#[verifier::reject_recursive_types(K)]
#[verifier::reject_recursive_types(V)]
pub struct ExMap<K, V>(serde_json::Map<K, V>);

/// What `serde_json::from_str` makes of a text: the document, or its complaint.
pub uninterp spec fn json_reading(text: Seq<char>) -> Result<JsonTree, Seq<char>>;

/// What `serde_json::from_str` complains of in a text that it skips, if it does.
pub uninterp spec fn skim_complaint(text: Seq<char>) -> Option<Seq<char>>;

/// The first value of a text, as `serde_json` takes it, with the blanks before it, and
/// the rest of the text. `None` where the text does not begin with a value.
pub uninterp spec fn first_value(text: Seq<char>) -> Option<(Seq<char>, Seq<char>)>;

/// The members of a `serde_json::Map` in the order in which it is walked.
pub uninterp spec fn map_members(m: serde_json::Map<String, serde_json::Value>) -> Seq<
    (Seq<char>, JsonTree),
>;

/// What a `serde_json::Value` holds; an object, the members of its map.
pub uninterp spec fn value_tree(v: serde_json::Value) -> JsonTree;

/// What a `serde_json::Number` holds: an integer from zero upwards, one below zero, or
/// a double.
pub uninterp spec fn number_parts(n: serde_json::Number) -> JsonNumber;

/// What `<serde_json::Value as Display>::fmt` writes for a document: compact JSON.
pub uninterp spec fn json_text(t: JsonTree) -> Seq<char>;

spec fn node_tree(n: Node) -> JsonTree {
    match n {
        Node::Null => JsonTree::Null,
        Node::Bool(b) => JsonTree::Bool(b),
        Node::Number(n) => JsonTree::Number(number_parts(n)),
        Node::String(s) => JsonTree::String(s@),
        Node::Array(vs) => JsonTree::Array(Seq::new(vs@.len(), |i: int| value_tree(vs@[i]))),
        Node::Object(ms) => JsonTree::Object(map_members(ms)),
    }
}

/// The names and contents of a run of members.
spec fn entries_of(ms: Seq<(String, serde_json::Value)>) -> Seq<(Seq<char>, JsonTree)> {
    Seq::new(ms.len(), |i: int| (ms[i].0@, value_tree(ms[i].1)))
}

/// Whether `a` comes before `b` in the order of texts.
pub open spec fn before(a: Seq<char>, b: Seq<char>) -> bool
    decreases a.len(),
{
    if b.len() == 0 {
        false
    } else if a.len() == 0 {
        true
    } else if a[0] != b[0] {
        a[0] < b[0]
    } else {
        before(a.drop_first(), b.drop_first())
    }
}

/// The members of an ordered map that had the members `ms` and was given one more. A
/// member of the same name is replaced.
pub open spec fn inserted(ms: Seq<(Seq<char>, JsonTree)>, m: (Seq<char>, JsonTree)) -> Seq<
    (Seq<char>, JsonTree),
>
    decreases ms.len(),
{
    if ms.len() == 0 {
        seq![m]
    } else if before(ms.last().0, m.0) {
        ms.push(m)
    } else if ms.last().0 == m.0 {
        ms.drop_last().push(m)
    } else {
        inserted(ms.drop_last(), m).push(ms.last())
    }
}

/// The members of an ordered map that was given these members one after another.
pub open spec fn gathered(ms: Seq<(Seq<char>, JsonTree)>) -> Seq<(Seq<char>, JsonTree)>
    decreases ms.len(),
{
    if ms.len() == 0 {
        ms
    } else {
        inserted(gathered(ms.drop_last()), ms.last())
    }
}

/// Calls `serde_json::from_str`. Whether it reads the text, the document it reads and
/// the complaint it makes are functions of the text alone, here called
/// [`json_reading`].
#[verifier::external_body]
fn read_value(text: &str) -> (r: Result<serde_json::Value, String>)
    ensures
        match r {
            Ok(v) => json_reading(text@) == Ok::<JsonTree, Seq<char>>(value_tree(v)),
            Err(m) => json_reading(text@) == Err::<JsonTree, Seq<char>>(m@),
        },
{
    match serde_json::from_str::<serde_json::Value>(text) {
        Ok(v) => Ok(v),
        Err(e) => Err(e.to_string()),
    }
}

/// Calls `serde_json::from_str` for a `serde::de::IgnoredAny`: the text is looked through,
/// and nothing of it kept. Whether that works and the complaint are functions of the text
/// alone, here called [`skim_complaint`].
#[verifier::external_body]
pub(crate) fn skim(text: &str) -> (r: Option<String>)
    ensures
        match r {
            Some(m) => skim_complaint(text@) == Some(m@),
            None => skim_complaint(text@) is None,
        },
{
    match serde_json::from_str::<serde::de::IgnoredAny>(text) {
        Ok(_) => None,
        Err(e) => Some(e.to_string()),
    }
}

/// Takes the first value of a text by `serde_json::StreamDeserializer::next`, which skips
/// it as a `serde::de::IgnoredAny`, and splits the text at the `byte_offset` behind it.
/// The two parts, the first of which holds a character at least, make up the text; they
/// are a function of the text alone, here called [`first_value`].
#[verifier::external_body]
pub(crate) fn split_value(text: &str) -> (r: Option<(&str, &str)>)
    ensures
        match r {
            Some((value, rest)) => {
                &&& first_value(text@) == Some((value@, rest@))
                &&& value@.len() > 0
                &&& value@ + rest@ == text@
            },
            None => first_value(text@) is None,
        },
{
    let reader = serde_json::Deserializer::from_str(text);
    let mut values = reader.into_iter::<serde::de::IgnoredAny>();
    match values.next() {
        Some(Ok(_)) => Some(text.split_at(values.byte_offset())),
        _ => None,
    }
}

/// Tells the variants of `serde_json::Value` apart. A value holds what its variant
/// holds.
#[verifier::external_body]
fn open_value(v: serde_json::Value) -> (r: Node)
    ensures
        node_tree(r) == value_tree(v),
{
    match v {
        serde_json::Value::Null => Node::Null,
        serde_json::Value::Bool(b) => Node::Bool(b),
        serde_json::Value::Number(n) => Node::Number(n),
        serde_json::Value::String(s) => Node::String(s),
        serde_json::Value::Array(vs) => Node::Array(vs),
        serde_json::Value::Object(ms) => Node::Object(ms),
    }
}

/// Makes a `serde_json::Value` of one variant. It holds what it was made of.
#[verifier::external_body]
fn close_value(n: Node) -> (r: serde_json::Value)
    ensures
        value_tree(r) == node_tree(n),
{
    match n {
        Node::Null => serde_json::Value::Null,
        Node::Bool(b) => serde_json::Value::Bool(b),
        Node::Number(n) => serde_json::Value::Number(n),
        Node::String(s) => serde_json::Value::String(s),
        Node::Array(vs) => serde_json::Value::Array(vs),
        Node::Object(ms) => serde_json::Value::Object(ms),
    }
}

/// Walks a map by `<serde_json::Map as IntoIterator>::into_iter`: every member, in the
/// order of [`map_members`].
#[verifier::external_body]
fn map_entries(m: serde_json::Map<String, serde_json::Value>) -> (r: Vec<
    (String, serde_json::Value),
>)
    ensures
        entries_of(r@) == map_members(m),
{
    m.into_iter().collect()
}

/// Calls `serde_json::Map::new`: a map without members.
#[verifier::external_body]
fn empty_map() -> (r: serde_json::Map<String, serde_json::Value>)
    ensures
        map_members(r) == Seq::<(Seq<char>, JsonTree)>::empty(),
{
    serde_json::Map::new()
}

/// Calls `serde_json::Map::insert`. The map is ordered by name; the value of a name that
/// it has already is replaced.
#[verifier::external_body]
fn put_member(
    m: &mut serde_json::Map<String, serde_json::Value>,
    name: String,
    value: serde_json::Value,
)
    ensures
        map_members(*final(m)) == inserted(map_members(*old(m)), (name@, value_tree(value))),
{
    m.insert(name, value);
}

/// Writes a document by `<serde_json::Value as Display>::fmt`, through `to_string`. The
/// text is a function of the document alone, here called [`json_text`].
#[verifier::external_body]
fn write_value(v: &serde_json::Value) -> (r: String)
    ensures
        r@ == json_text(value_tree(*v)),
{
    v.to_string()
}

/// Calls `<serde_json::Number as Clone>::clone`: the copy holds the same number.
#[verifier::external_body]
fn copy_number(n: &serde_json::Number) -> (r: serde_json::Number)
    ensures
        number_parts(r) == number_parts(*n),
{
    n.clone()
}

/// Calls `serde_json::Number::as_u64`, which gives out an integer from zero upwards and
/// nothing else.
#[verifier::external_body]
fn number_u64(n: &serde_json::Number) -> (r: Option<u64>)
    ensures
        r == match number_parts(*n) {
            JsonNumber::PosInt(u) => Some(u),
            _ => None,
        },
{
    n.as_u64()
}

/// Calls `serde_json::Number::as_i64`, which gives out an integer that an `i64` can
/// hold and nothing else.
#[verifier::external_body]
fn number_i64(n: &serde_json::Number) -> (r: Option<i64>)
    ensures
        r == match number_parts(*n) {
            JsonNumber::PosInt(u) => if u <= i64::MAX { Some(u as i64) } else { None },
            JsonNumber::NegInt(i) => Some(i),
            JsonNumber::Float(_) => None,
        },
{
    n.as_i64()
}

/// Calls `serde_json::Number::as_f64` and takes the bits of the double. There always is
/// one, and of a number that is a double it is that double. What double an integer is
/// turned into is not said.
#[verifier::external_body]
fn number_double(n: &serde_json::Number) -> (r: Option<u64>)
    ensures
        r is Some,
        number_parts(*n) matches JsonNumber::Float(bits) ==> r == Some(bits),
{
    n.as_f64().map(|x| x.to_bits())
}

/// What a number is.
pub fn number_of(n: &serde_json::Number) -> (r: JsonNumber)
    ensures
        r == number_parts(*n),
{
    if let Some(u) = number_u64(n) {
        return JsonNumber::PosInt(u);
    }
    if let Some(i) = number_i64(n) {
        return JsonNumber::NegInt(i);
    }
    match number_double(n) {
        Some(bits) => JsonNumber::Float(bits),
        None => JsonNumber::Float(0),
    }
}

/// Each of these documents as ordered maps hold it.
pub open spec fn ordered_items(vs: Seq<JsonTree>) -> Seq<JsonTree>
    decreases vs,
{
    if vs.len() == 0 {
        Seq::empty()
    } else {
        ordered_items(vs.drop_last()).push(vs.last().ordered())
    }
}

/// These members, each of their documents as ordered maps hold it.
pub open spec fn ordered_members(ms: Seq<(Seq<char>, JsonTree)>) -> Seq<(Seq<char>, JsonTree)>
    decreases ms,
{
    if ms.len() == 0 {
        Seq::empty()
    } else {
        ordered_members(ms.drop_last()).push((ms.last().0, ms.last().1.ordered()))
    }
}

impl JsonTree {
    /// The document as ordered maps hold it: the members of each object stand in the
    /// order of their names, each name once.
    pub open spec fn ordered(self) -> JsonTree
        decreases self,
    {
        match self {
            JsonTree::Array(vs) => JsonTree::Array(ordered_items(vs)),
            JsonTree::Object(ms) => JsonTree::Object(gathered(ordered_members(ms))),
            t => t,
        }
    }
}

impl Json {
    pub open spec fn view(&self) -> JsonTree
        decreases self,
    {
        match self {
            Json::Null => JsonTree::Null,
            Json::Bool(b) => JsonTree::Bool(*b),
            Json::Number(n) => JsonTree::Number(number_parts(*n)),
            Json::String(s) => JsonTree::String(s@),
            Json::Array(vs) => JsonTree::Array(
                Seq::new(
                    vs@.len(),
                    |i: int|
                        if 0 <= i < vs@.len() {
                            vs@[i].view()
                        } else {
                            JsonTree::Null
                        },
                ),
            ),
            Json::Object(ms) => JsonTree::Object(
                Seq::new(
                    ms@.len(),
                    |i: int|
                        if 0 <= i < ms@.len() {
                            (ms@[i].0@, ms@[i].1.view())
                        } else {
                            (Seq::empty(), JsonTree::Null)
                        },
                ),
            ),
        }
    }

    fn from_value(v: serde_json::Value) -> (r: Json)
        ensures
            r@ == value_tree(v),
        decreases value_tree(v),
    {
        let ghost tree = value_tree(v);
        match open_value(v) {
            Node::Null => Json::Null,
            Node::Bool(b) => Json::Bool(b),
            Node::Number(n) => Json::Number(n),
            Node::String(s) => Json::String(s),
            Node::Array(vs) => {
                let ghost items = vs@;
                let mut out: Vec<Json> = Vec::new();
                for x in it: vs
                    invariant
                        tree == value_tree(v),
                        tree == JsonTree::Array(
                            Seq::new(items.len(), |i: int| value_tree(items[i])),
                        ),
                        it.seq() == items,
                        out@.len() == it.index(),
                        forall|i: int|
                            0 <= i < it.index() ==> (#[trigger] out@[i])@ == value_tree(items[i]),
                {
                    assert(tree->Array_0[it.index()] == value_tree(x));
                    out.push(Json::from_value(x));
                }
                let r = Json::Array(out);
                assert(r@->Array_0 =~= tree->Array_0);
                r
            },
            Node::Object(m) => {
                let ms = map_entries(m);
                let ghost items = ms@;
                let mut out: Vec<(String, Json)> = Vec::new();
                for x in it: ms
                    invariant
                        tree == value_tree(v),
                        tree == JsonTree::Object(entries_of(items)),
                        it.seq() == items,
                        out@.len() == it.index(),
                        forall|i: int|
                            0 <= i < it.index() ==> (#[trigger] out@[i]).0@ == items[i].0@
                                && out@[i].1@ == value_tree(items[i].1),
                {
                    assert(tree->Object_0[it.index()].1 == value_tree(x.1));
                    out.push((x.0, Json::from_value(x.1)));
                }
                let r = Json::Object(out);
                assert(r@->Object_0 =~= tree->Object_0);
                r
            },
        }
    }

    /// Read a document.
    pub fn parse(text: &str) -> (r: Result<Json, String>)
        ensures
            match r {
                Ok(v) => json_reading(text@) == Ok::<JsonTree, Seq<char>>(v@),
                Err(m) => json_reading(text@) == Err::<JsonTree, Seq<char>>(m@),
            },
    {
        match read_value(text) {
            Ok(v) => Ok(Json::from_value(v)),
            Err(m) => Err(m),
        }
    }
}

/// The first member of that name.
pub open spec fn lookup(members: Seq<(Seq<char>, JsonTree)>, key: Seq<char>) -> Option<JsonTree>
    decreases members.len(),
{
    if members.len() == 0 {
        None
    } else if members[0].0 == key {
        Some(members[0].1)
    } else {
        lookup(members.drop_first(), key)
    }
}

impl JsonTree {
    /// The member of that name, of an object that has it.
    pub open spec fn get(self, key: Seq<char>) -> Option<JsonTree> {
        match self {
            JsonTree::Object(ms) => lookup(ms, key),
            _ => None,
        }
    }

    pub open spec fn as_bool(self) -> Option<bool> {
        match self {
            JsonTree::Bool(b) => Some(b),
            _ => None,
        }
    }

    pub open spec fn as_number(self) -> Option<JsonNumber> {
        match self {
            JsonTree::Number(n) => Some(n),
            _ => None,
        }
    }

    /// An integer from zero upwards.
    pub open spec fn as_u64(self) -> Option<u64> {
        match self {
            JsonTree::Number(JsonNumber::PosInt(u)) => Some(u),
            _ => None,
        }
    }

    /// An integer from zero upwards that a `usize` can hold.
    pub open spec fn as_usize(self) -> Option<usize> {
        match self {
            JsonTree::Number(JsonNumber::PosInt(u)) => if u <= usize::MAX {
                Some(u as usize)
            } else {
                None
            },
            _ => None,
        }
    }

    pub open spec fn as_text(self) -> Option<Seq<char>> {
        match self {
            JsonTree::String(s) => Some(s),
            _ => None,
        }
    }

    /// Field number `index` of a record, which is written as an object with the field
    /// under `key`, or as an array with the fields in their order.
    pub open spec fn field(self, key: Seq<char>, index: int) -> Option<JsonTree> {
        match self {
            JsonTree::Object(ms) => lookup(ms, key),
            JsonTree::Array(vs) => if 0 <= index < vs.len() {
                Some(vs[index])
            } else {
                None
            },
            _ => None,
        }
    }

    /// Whether this is a record of at most `fields` fields.
    pub open spec fn is_record(self, fields: nat) -> bool {
        match self {
            JsonTree::Object(_) => true,
            JsonTree::Array(vs) => vs.len() <= fields,
            _ => false,
        }
    }
}

/// The contents of an optional reference to a document.
pub open spec fn seen(v: Option<&Json>) -> Option<JsonTree> {
    match v {
        Some(j) => Some(j@),
        None => None,
    }
}

impl Clone for Json {
    fn clone(&self) -> (r: Json)
        ensures
            r@ == self@,
    {
        self.copy()
    }
}

impl Json {
    /// A copy of the document.
    fn copy(&self) -> (r: Json)
        ensures
            r@ == self@,
        decreases self@,
    {
        match self {
            Json::Null => Json::Null,
            Json::Bool(b) => Json::Bool(*b),
            Json::Number(n) => Json::Number(copy_number(n)),
            Json::String(s) => Json::String(s.clone()),
            Json::Array(vs) => {
                let mut out: Vec<Json> = Vec::new();
                let mut i: usize = 0;
                while i < vs.len()
                    invariant
                        *self == Json::Array(*vs),
                        i <= vs@.len(),
                        out@.len() == i,
                        forall|q: int| 0 <= q < i ==> (#[trigger] out@[q])@ == vs@[q]@,
                    decreases vs@.len() - i,
                {
                    assert(self@->Array_0[i as int] == vs@[i as int]@);
                    out.push(vs[i].copy());
                    i += 1;
                }
                let r = Json::Array(out);
                assert(r@->Array_0 =~= self@->Array_0);
                r
            },
            Json::Object(ms) => {
                let mut out: Vec<(String, Json)> = Vec::new();
                let mut i: usize = 0;
                while i < ms.len()
                    invariant
                        *self == Json::Object(*ms),
                        i <= ms@.len(),
                        out@.len() == i,
                        forall|q: int|
                            0 <= q < i ==> (#[trigger] out@[q]).0@ == ms@[q].0@ && out@[q].1@
                                == ms@[q].1@,
                    decreases ms@.len() - i,
                {
                    assert(self@->Object_0[i as int].1 == ms@[i as int].1@);
                    out.push((ms[i].0.clone(), ms[i].1.copy()));
                    i += 1;
                }
                let r = Json::Object(out);
                assert(r@->Object_0 =~= self@->Object_0);
                r
            },
        }
    }

    /// The document as a `serde_json::Value`.
    fn to_value(&self) -> (r: serde_json::Value)
        ensures
            value_tree(r) == self@.ordered(),
        decreases self@,
    {
        let node = match self {
            Json::Null => Node::Null,
            Json::Bool(b) => Node::Bool(*b),
            Json::Number(n) => Node::Number(copy_number(n)),
            Json::String(s) => Node::String(s.clone()),
            Json::Array(vs) => {
                let ghost all = self@->Array_0;
                let mut out: Vec<serde_json::Value> = Vec::new();
                let mut i: usize = 0;
                assert(all.take(0) =~= Seq::empty());
                while i < vs.len()
                    invariant
                        *self == Json::Array(*vs),
                        all == self@->Array_0,
                        all.len() == vs@.len(),
                        i <= vs@.len(),
                        node_tree(Node::Array(out))->Array_0 == ordered_items(all.take(i as int)),
                    decreases vs@.len() - i,
                {
                    assert(all[i as int] == vs@[i as int]@);
                    let ghost earlier = out;
                    out.push(vs[i].to_value());
                    i += 1;
                    assert(all.take(i as int).drop_last() =~= all.take(i - 1));
                    assert(node_tree(Node::Array(out))->Array_0 =~= node_tree(
                        Node::Array(earlier),
                    )->Array_0.push(all[i - 1].ordered()));
                }
                assert(all.take(i as int) =~= all);
                Node::Array(out)
            },
            Json::Object(ms) => {
                let ghost all = self@->Object_0;
                let mut out = empty_map();
                let mut i: usize = 0;
                assert(ordered_members(all.take(0)) =~= Seq::empty());
                while i < ms.len()
                    invariant
                        *self == Json::Object(*ms),
                        all == self@->Object_0,
                        all.len() == ms@.len(),
                        i <= ms@.len(),
                        map_members(out) == gathered(ordered_members(all.take(i as int))),
                    decreases ms@.len() - i,
                {
                    assert(all[i as int] == (ms@[i as int].0@, ms@[i as int].1@));
                    assert(self@->Object_0[i as int].1 == ms@[i as int].1@);
                    put_member(&mut out, ms[i].0.clone(), ms[i].1.to_value());
                    i += 1;
                    proof {
                        let before = ordered_members(all.take(i - 1));
                        let one = (all[i - 1].0, all[i - 1].1.ordered());
                        assert(all.take(i as int).drop_last() =~= all.take(i - 1));
                        assert(before.push(one).drop_last() =~= before);
                    }
                }
                assert(all.take(i as int) =~= all);
                Node::Object(out)
            },
        };
        close_value(node)
    }

    /// The document as compact JSON text.
    pub fn to_text(&self) -> (r: String)
        ensures
            r@ == json_text(self@.ordered()),
    {
        write_value(&self.to_value())
    }

    /// The member of that name, of an object that has it.
    pub fn get(&self, key: &str) -> (r: Option<&Json>)
        ensures
            seen(r) == self@.get(key@),
    {
        match self {
            Json::Object(ms) => {
                let ghost all = self@->Object_0;
                let mut i: usize = 0;
                assert(all.skip(0) =~= all);
                while i < ms.len()
                    invariant
                        *self == Json::Object(*ms),
                        all == self@->Object_0,
                        all.len() == ms@.len(),
                        i <= ms@.len(),
                        lookup(all, key@) == lookup(all.skip(i as int), key@),
                    decreases ms@.len() - i,
                {
                    assert(all.skip(i as int).drop_first() =~= all.skip(i + 1));
                    assert(all.skip(i as int)[0] == (ms@[i as int].0@, ms@[i as int].1@));
                    if same(ms[i].0.as_str(), key) {
                        return Some(&ms[i].1);
                    }
                    i += 1;
                }
                None
            },
            _ => None,
        }
    }

    /// Whether the document is `null`.
    pub fn is_null(&self) -> (r: bool)
        ensures
            r == (self@ == JsonTree::Null),
    {
        match self {
            Json::Null => true,
            _ => false,
        }
    }

    pub fn as_bool(&self) -> (r: Option<bool>)
        ensures
            r == self@.as_bool(),
    {
        match self {
            Json::Bool(b) => Some(*b),
            _ => None,
        }
    }

    pub fn as_number(&self) -> (r: Option<JsonNumber>)
        ensures
            r == self@.as_number(),
    {
        match self {
            Json::Number(n) => Some(number_of(n)),
            _ => None,
        }
    }

    /// An integer from zero upwards.
    pub fn as_u64(&self) -> (r: Option<u64>)
        ensures
            r == self@.as_u64(),
    {
        match self {
            Json::Number(n) => number_u64(n),
            _ => None,
        }
    }

    /// An integer from zero upwards that a `usize` can hold.
    pub fn as_usize(&self) -> (r: Option<usize>)
        ensures
            r == self@.as_usize(),
    {
        match self.as_u64() {
            Some(u) => if u <= usize::MAX as u64 {
                Some(u as usize)
            } else {
                None
            },
            None => None,
        }
    }

    /// A copy of a text.
    pub fn as_string(&self) -> (r: Option<String>)
        ensures
            match r {
                Some(s) => self@.as_text() == Some(s@),
                None => self@.as_text() is None,
            },
    {
        match self {
            Json::String(s) => Some(s.clone()),
            _ => None,
        }
    }

    /// Field number `index` of a record, which is written as an object with the field
    /// under `key`, or as an array with the fields in their order.
    pub fn field(&self, key: &str, index: usize) -> (r: Option<&Json>)
        ensures
            seen(r) == self@.field(key@, index as int),
    {
        match self {
            Json::Object(_) => self.get(key),
            Json::Array(vs) => if index < vs.len() {
                Some(&vs[index])
            } else {
                None
            },
            _ => None,
        }
    }

    /// Whether this is a record of at most `fields` fields.
    pub fn is_record(&self, fields: usize) -> (r: bool)
        ensures
            r == self@.is_record(fields as nat),
    {
        match self {
            Json::Object(_) => true,
            Json::Array(vs) => vs.len() <= fields,
            _ => false,
        }
    }
}

} // verus!
