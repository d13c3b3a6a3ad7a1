//! Reading the fields of a record.
//!
//! A record may be written as an object with named fields, or as an array with the
//! fields in their order.

use vstd::prelude::*;
use crate::json::{number_of, Json, JsonNumber, JsonTree};
use crate::model::tree_of;
use crate::parser::records::{
    items_complaint, lemma_holds, lemma_items_fit, shape_complaint, Kind, RecordShape,
};

verus! {

/// A size that must be there.
pub open spec fn size_field(t: JsonTree, key: Seq<char>, index: int) -> Option<usize> {
    match t.field(key, index) {
        Some(v) => v.as_usize(),
        None => None,
    }
}

/// A size that may be absent or `null`. `None` where it is neither that nor a size.
pub open spec fn maybe_size_field(t: JsonTree, key: Seq<char>, index: int) -> Option<
    Option<usize>,
> {
    match t.field(key, index) {
        None => Some(None),
        Some(JsonTree::Null) => Some(None),
        Some(v) => match v.as_usize() {
            Some(n) => Some(Some(n)),
            None => None,
        },
    }
}

/// A flag that may be absent or `null`. `None` where it is neither that nor a flag.
pub open spec fn maybe_flag_field(t: JsonTree, key: Seq<char>, index: int) -> Option<
    Option<bool>,
> {
    match t.field(key, index) {
        None => Some(None),
        Some(JsonTree::Null) => Some(None),
        Some(JsonTree::Bool(b)) => Some(Some(b)),
        Some(_) => None,
    }
}

/// A number that may be absent or `null`. `None` where it is neither that nor a number.
pub open spec fn maybe_number_field(t: JsonTree, key: Seq<char>, index: int) -> Option<
    Option<JsonNumber>,
> {
    match t.field(key, index) {
        None => Some(None),
        Some(JsonTree::Null) => Some(None),
        Some(JsonTree::Number(n)) => Some(Some(n)),
        Some(_) => None,
    }
}

/// A value that may be absent or `null`, which is the same.
pub open spec fn maybe_field(t: JsonTree, key: Seq<char>, index: int) -> Option<JsonTree> {
    match t.field(key, index) {
        Some(JsonTree::Null) => None,
        other => other,
    }
}

/// A list of sizes.
pub open spec fn sizes(v: JsonTree) -> Option<Seq<usize>> {
    match v {
        JsonTree::Array(vs) => if forall|i: int|
            0 <= i < vs.len() ==> (#[trigger] vs[i]).as_usize() is Some {
            Some(Seq::new(vs.len(), |i: int| vs[i].as_usize()->Some_0))
        } else {
            None
        },
        _ => None,
    }
}

/// A list of numbers.
pub open spec fn numbers(v: JsonTree) -> Option<Seq<JsonNumber>> {
    match v {
        JsonTree::Array(vs) => if forall|i: int|
            0 <= i < vs.len() ==> (#[trigger] vs[i]).as_number() is Some {
            Some(Seq::new(vs.len(), |i: int| vs[i].as_number()->Some_0))
        } else {
            None
        },
        _ => None,
    }
}

/// A list of sizes that must be there.
pub open spec fn sizes_field(t: JsonTree, key: Seq<char>, index: int) -> Option<Seq<usize>> {
    match t.field(key, index) {
        Some(v) => sizes(v),
        None => None,
    }
}

/// A list of sizes that may be absent or `null`. `None` where it is neither that nor a
/// list of sizes.
pub open spec fn maybe_sizes_field(t: JsonTree, key: Seq<char>, index: int) -> Option<
    Option<Seq<usize>>,
> {
    match t.field(key, index) {
        None => Some(None),
        Some(JsonTree::Null) => Some(None),
        Some(v) => match sizes(v) {
            Some(s) => Some(Some(s)),
            None => None,
        },
    }
}

/// The contents of an optional list.
pub open spec fn list_of<T>(v: Option<Vec<T>>) -> Option<Seq<T>> {
    match v {
        Some(x) => Some(x@),
        None => None,
    }
}

/// The contents of an optional list that may itself be absent.
pub open spec fn maybe_list_of<T>(v: Option<Option<Vec<T>>>) -> Option<Option<Seq<T>>> {
    match v {
        Some(x) => Some(list_of(x)),
        None => None,
    }
}

pub(crate) fn read_size_field(t: &Json, key: &str, index: usize) -> (r: Option<usize>)
    ensures
        r == size_field(t@, key@, index as int),
{
    match t.field(key, index) {
        Some(v) => v.as_usize(),
        None => None,
    }
}

pub(crate) fn read_maybe_size(t: &Json, key: &str, index: usize) -> (r: Option<Option<usize>>)
    ensures
        r == maybe_size_field(t@, key@, index as int),
{
    match t.field(key, index) {
        None => Some(None),
        Some(Json::Null) => Some(None),
        Some(v) => match v.as_usize() {
            Some(n) => Some(Some(n)),
            None => None,
        },
    }
}

pub(crate) fn read_maybe_flag(t: &Json, key: &str, index: usize) -> (r: Option<Option<bool>>)
    ensures
        r == maybe_flag_field(t@, key@, index as int),
{
    match t.field(key, index) {
        None => Some(None),
        Some(Json::Null) => Some(None),
        Some(Json::Bool(b)) => Some(Some(*b)),
        Some(_) => None,
    }
}

pub(crate) fn read_maybe_number(t: &Json, key: &str, index: usize) -> (r: Option<Option<JsonNumber>>)
    ensures
        r == maybe_number_field(t@, key@, index as int),
{
    match t.field(key, index) {
        None => Some(None),
        Some(Json::Null) => Some(None),
        Some(Json::Number(n)) => Some(Some(number_of(n))),
        Some(_) => None,
    }
}

pub(crate) fn read_maybe(t: &Json, key: &str, index: usize) -> (r: Option<Json>)
    ensures
        tree_of(r) == maybe_field(t@, key@, index as int),
{
    match t.field(key, index) {
        None => None,
        Some(Json::Null) => None,
        Some(v) => Some(v.clone()),
    }
}

pub(crate) fn read_sizes(v: &Json) -> (r: Option<Vec<usize>>)
    ensures
        list_of(r) == sizes(v@),
{
    match v {
        Json::Array(vs) => {
            let ghost items = v@->Array_0;
            let mut out: Vec<usize> = Vec::new();
            let mut i: usize = 0;
            while i < vs.len()
                invariant
                    *v == Json::Array(*vs),
                    items == v@->Array_0,
                    items.len() == vs@.len(),
                    i <= vs@.len(),
                    out@.len() == i,
                    forall|q: int| 0 <= q < i ==> (#[trigger] items[q]).as_usize() == Some(out@[q]),
                decreases vs@.len() - i,
            {
                assert(items[i as int] == vs@[i as int]@);
                match vs[i].as_usize() {
                    Some(n) => {
                        out.push(n);
                    },
                    None => {
                        return None;
                    },
                }
                i += 1;
            }
            assert(out@ =~= Seq::new(items.len(), |i: int| items[i].as_usize()->Some_0));
            Some(out)
        },
        _ => None,
    }
}

pub(crate) fn read_numbers(v: &Json) -> (r: Option<Vec<JsonNumber>>)
    ensures
        list_of(r) == numbers(v@),
{
    match v {
        Json::Array(vs) => {
            let ghost items = v@->Array_0;
            let mut out: Vec<JsonNumber> = Vec::new();
            let mut i: usize = 0;
            while i < vs.len()
                invariant
                    *v == Json::Array(*vs),
                    items == v@->Array_0,
                    items.len() == vs@.len(),
                    i <= vs@.len(),
                    out@.len() == i,
                    forall|q: int|
                        0 <= q < i ==> (#[trigger] items[q]).as_number() == Some(out@[q]),
                decreases vs@.len() - i,
            {
                assert(items[i as int] == vs@[i as int]@);
                match vs[i].as_number() {
                    Some(n) => {
                        out.push(n);
                    },
                    None => {
                        return None;
                    },
                }
                i += 1;
            }
            assert(out@ =~= Seq::new(items.len(), |i: int| items[i].as_number()->Some_0));
            Some(out)
        },
        _ => None,
    }
}

pub(crate) fn read_sizes_field(t: &Json, key: &str, index: usize) -> (r: Option<Vec<usize>>)
    ensures
        list_of(r) == sizes_field(t@, key@, index as int),
{
    match t.field(key, index) {
        Some(v) => read_sizes(v),
        None => None,
    }
}

pub(crate) fn read_maybe_sizes(t: &Json, key: &str, index: usize) -> (r: Option<Option<Vec<usize>>>)
    ensures
        maybe_list_of(r) == maybe_sizes_field(t@, key@, index as int),
{
    match t.field(key, index) {
        None => Some(None),
        Some(Json::Null) => Some(None),
        Some(v) => match read_sizes(v) {
            Some(s) => Some(Some(s)),
            None => None,
        },
    }
}

// ---- Fields of records without complaint ----

/// A value that is a list of sizes can be read as one.
pub proof fn lemma_sizes(kind: Kind, items: Seq<JsonTree>)
    requires
        kind == Kind::Sizes || kind == Kind::MaybeSizes,
        items_complaint(kind, items, items.len()) is None,
    ensures
        sizes(JsonTree::Array(items)) is Some,
{
    assert forall|i: int| 0 <= i < items.len() implies (
    #[trigger] items[i]).as_usize() is Some by {
        lemma_items_fit(kind, items, items.len(), i);
    }
}

/// A value that is a list of numbers can be read as one.
pub proof fn lemma_numbers(items: Seq<JsonTree>)
    requires
        items_complaint(Kind::Singles, items, items.len()) is None,
    ensures
        numbers(JsonTree::Array(items)) is Some,
{
    assert forall|i: int| 0 <= i < items.len() implies (
    #[trigger] items[i]).as_number() is Some by {
        lemma_items_fit(Kind::Singles, items, items.len(), i);
    }
}

/// A field of a record without complaint can be read as its kind says.
pub proof fn lemma_field(t: JsonTree, rec: RecordShape, i: int, key: Seq<char>, kind: Kind)
    requires
        shape_complaint(t, rec) is None,
        0 <= i < rec.fields.len(),
        rec.fields[i] == (key, kind),
    ensures
        !kind.optional() ==> t.field(key, i) is Some,
        kind == Kind::Text ==> t.field(key, i)->Some_0.as_text() is Some,
        kind == Kind::Single ==> t.field(key, i)->Some_0.as_number() is Some,
        kind == Kind::MaybeDouble ==> maybe_number_field(t, key, i) is Some,
        kind == Kind::Singles ==> numbers(t.field(key, i)->Some_0) is Some,
        kind == Kind::Size ==> size_field(t, key, i) is Some,
        kind == Kind::MaybeSize ==> maybe_size_field(t, key, i) is Some,
        kind == Kind::Sizes ==> sizes_field(t, key, i) is Some,
        kind == Kind::MaybeSizes ==> maybe_sizes_field(t, key, i) is Some,
        kind == Kind::MaybeFlag ==> maybe_flag_field(t, key, i) is Some,
        kind == Kind::Layers || kind == Kind::List ==> t.field(key, i)->Some_0 is Array,
{
    lemma_holds(t, rec, i);
    match t.field(key, i) {
        Some(JsonTree::Array(items)) => {
            if kind == Kind::Sizes || kind == Kind::MaybeSizes {
                lemma_sizes(kind, items);
            } else if kind == Kind::Singles {
                lemma_numbers(items);
            }
        },
        _ => {},
    }
}

} // verus!
