//! Reading the text of a `.nam` file.
//!
//! The members of the object that a file is are taken one after another, as the text
//! has them: the first of them that stands there twice, is of the wrong type or is no
//! JSON is complained of, with its place in the text. The value of a member that a file
//! does not know is skipped, whatever it holds: neither how large its numbers are nor how
//! deep it nests matters. `serde_json` tells where each value ends and reads it, and
//! finds the words for what is no JSON; what stands before that is hidden from it behind
//! blanks, so that it names the right place.

use vstd::prelude::*;
use vstd::utf8::encode_utf8;
use crate::error::{JsonError, JsonFailure};
use crate::json::{first_value, json_reading, skim, skim_complaint, split_value, Json, JsonTree};
use crate::parser::records::{
    absent_complaint, backquoted, complain_of_absent, complain_of_kind, is_unknown,
    kind_complaint, kind_named, kind_of, nam, nam_record, refuse_type, text_of, twice, unknown,
    wrong_type, Kind,
};
use crate::text::{decimal, same, strip, Text};

verus! {

// ---- Places ----

/// Whether a character may stand between the tokens of a text.
pub open spec fn blank(c: char) -> bool {
    c == ' ' || c == '\n' || c == '\t' || c == '\r'
}

/// A text without the blanks that it begins with.
pub open spec fn trimmed(text: Seq<char>) -> Seq<char>
    decreases text.len(),
{
    if text.len() > 0 && blank(text[0]) {
        trimmed(text.drop_first())
    } else {
        text
    }
}

/// Whether a text begins with `mark`.
pub open spec fn begins(text: Seq<char>, mark: char) -> bool {
    text.len() > 0 && text[0] == mark
}

/// What stands behind `mark`, of a text that begins with it.
pub open spec fn behind(text: Seq<char>, mark: char) -> Option<Seq<char>> {
    let t = trimmed(text);
    if begins(t, mark) {
        Some(t.drop_first())
    } else {
        None
    }
}

/// What a text holds before its end `rest`.
pub open spec fn upto(text: Seq<char>, rest: Seq<char>) -> Seq<char> {
    if rest.len() <= text.len() {
        text.take(text.len() - rest.len())
    } else {
        Seq::empty()
    }
}

/// How many lines end in a text.
pub open spec fn line_ends(text: Seq<char>) -> nat
    decreases text.len(),
{
    if text.len() == 0 {
        0
    } else {
        line_ends(text.drop_last()) + if text.last() == '\n' {
            1nat
        } else {
            0
        }
    }
}

/// The line in which a text ends.
pub open spec fn last_line(text: Seq<char>) -> Seq<char>
    decreases text.len(),
{
    if text.len() == 0 || text.last() == '\n' {
        Seq::empty()
    } else {
        last_line(text.drop_last()).push(text.last())
    }
}

/// The place in `text` at which its end `rest` begins, in words. A column counts the
/// bytes before it in its line.
pub open spec fn place(text: Seq<char>, rest: Seq<char>) -> Seq<char> {
    " at line "@ + decimal(line_ends(upto(text, rest)) + 1) + " column "@ + decimal(
        encode_utf8(last_line(upto(text, rest))).len(),
    )
}

/// A complaint, if there is one, with its place.
pub open spec fn placed(m: Option<Seq<char>>, text: Seq<char>, rest: Seq<char>) -> Option<
    Seq<char>,
> {
    match m {
        Some(words) => Some(words + place(text, rest)),
        None => None,
    }
}

// ---- Faults ----

/// A blank for each byte of a character; a line end stays.
pub open spec fn hidden(c: char) -> Seq<char> {
    if c == '\n' {
        "\n"@
    } else if (c as u32) < 0x80 {
        " "@
    } else if (c as u32) < 0x800 {
        "  "@
    } else if (c as u32) < 0x10000 {
        "   "@
    } else {
        "    "@
    }
}

/// A text behind blanks: what stands behind it keeps its place.
pub open spec fn blanked(text: Seq<char>) -> Seq<char>
    decreases text.len(),
{
    if text.len() == 0 {
        Seq::empty()
    } else {
        blanked(text.drop_last()) + hidden(text.last())
    }
}

/// A number in the place of a value.
pub open spec fn stood_in(value: Seq<char>) -> Seq<char> {
    if value.len() == 0 {
        Seq::empty()
    } else {
        "0"@ + blanked(value.drop_first())
    }
}

/// A text in which a number stands for all that comes before its end `rest`.
pub open spec fn finished(text: Seq<char>, rest: Seq<char>) -> Seq<char> {
    upto(text, trimmed(text)) + stood_in(upto(trimmed(text), rest)) + rest
}

/// A member of an object, or an element of an array, in the text that it stands in.
#[verifier::ext_equal]
pub struct Entry {
    /// The name of a member.
    pub name: Seq<char>,
    /// The text of the value, with the blanks before it.
    pub value: Seq<char>,
    /// The text from the name on; of an element, from the value on.
    pub start: Seq<char>,
    /// The text behind the name.
    pub named: Seq<char>,
    /// The text from the value on.
    pub at: Seq<char>,
    /// The text behind the value.
    pub after: Seq<char>,
}

/// The text with the first `k` entries but the last hidden, and a number for the value
/// of the last. `inner` is what stands behind the mark that opens the whole.
pub open spec fn masked(text: Seq<char>, inner: Seq<char>, es: Seq<Entry>, k: nat) -> Seq<char> {
    if k == 0 || k > es.len() {
        text
    } else {
        let e = es[k - 1];
        upto(text, inner) + blanked(upto(inner, e.start)) + upto(e.start, e.at) + stood_in(
            upto(e.at, e.after),
        ) + e.after
    }
}

/// The complaint that a text is no JSON.
pub open spec fn fault(text: Seq<char>) -> JsonFailure {
    JsonFailure::Syntax(
        match json_reading(text) {
            Err(complaint) => complaint,
            Ok(_) => Seq::empty(),
        },
    )
}

/// The complaint that a text is no JSON, where what it holds is skipped.
pub open spec fn skipped_fault(text: Seq<char>) -> JsonFailure {
    JsonFailure::Syntax(
        match skim_complaint(text) {
            Some(complaint) => complaint,
            None => Seq::empty(),
        },
    )
}

// ---- Entries ----

/// Whether a character ends a number or a word such as `null`.
pub open spec fn delimiter(c: char) -> bool {
    blank(c) || c == ',' || c == ':' || c == '[' || c == ']' || c == '{' || c == '}' || c == '"'
}

/// What a text holds before the first delimiter.
pub open spec fn word(text: Seq<char>) -> Seq<char>
    decreases text.len(),
{
    if text.len() == 0 || delimiter(text[0]) {
        Seq::empty()
    } else {
        seq![text[0]] + word(text.drop_first())
    }
}

/// The value that `at` begins with and the rest of it, where what stands behind the first
/// `n` characters at most is what `complaint` finds too much.
pub open spec fn cut(at: Seq<char>, complaint: Seq<char>, n: nat) -> Option<
    (Seq<char>, Seq<char>),
>
    decreases n,
{
    if n == 0 || n > at.len() {
        None
    } else if complaint == "trailing characters at line 1 column "@ + decimal(n + 1) {
        Some((at.take(n as int), at.skip(n as int)))
    } else {
        cut(at, complaint, (n - 1) as nat)
    }
}

/// The value that a text begins with, and the rest of it. A number, or a word such as
/// `null`, ends where something stands that it cannot go on with.
pub open spec fn leading_value(at: Seq<char>) -> Option<(Seq<char>, Seq<char>)> {
    match first_value(at) {
        Some(x) => Some(x),
        None => match json_reading(word(at)) {
            Err(complaint) => cut(at, complaint, word(at).len()),
            Ok(_) => None,
        },
    }
}

/// Where the entries of a text end.
pub enum End {
    /// The whole is closed; what stands behind.
    Closed(Seq<char>),
    /// Behind a name, of which no whole value follows; the name, and the text behind it.
    Name(Seq<char>, Seq<char>),
    /// Before a value, of which the whole does not follow; the text from there on.
    Value(Seq<char>),
    /// At something that does not belong there.
    Fault,
}

/// The members that stand in `text` up to the end of their object, and where they end.
pub open spec fn members(text: Seq<char>) -> (Seq<Entry>, End)
    decreases text.len(),
{
    match first_value(text) {
        None => (Seq::empty(), End::Fault),
        Some((key, named)) => match json_reading(key) {
            Ok(JsonTree::String(name)) => match behind(named, ':') {
                None => (Seq::empty(), End::Name(name, named)),
                Some(u) => match first_value(u) {
                    None => (Seq::empty(), End::Name(name, named)),
                    Some((value, after)) => {
                        let e = Entry { name, value, start: text, named, at: trimmed(u), after };
                        match (behind(after, '}'), behind(after, ',')) {
                            (Some(rest), _) => (seq![e], End::Closed(rest)),
                            (_, Some(next)) => if next.len() < text.len() {
                                (seq![e] + members(next).0, members(next).1)
                            } else {
                                (seq![e], End::Fault)
                            },
                            _ => (seq![e], End::Fault),
                        }
                    },
                },
            },
            _ => (Seq::empty(), End::Fault),
        },
    }
}

/// The members of the object whose opening mark stands before `inner`.
pub open spec fn all_members(inner: Seq<char>) -> (Seq<Entry>, End) {
    match behind(inner, '}') {
        Some(rest) => (Seq::empty(), End::Closed(rest)),
        None => members(inner),
    }
}

/// The elements that stand in `text` up to the end of their array, and where they end.
pub open spec fn elements(text: Seq<char>) -> (Seq<Entry>, End)
    decreases text.len(),
{
    let t = trimmed(text);
    match leading_value(t) {
        None => (Seq::empty(), End::Value(t)),
        Some((value, after)) => {
            let e = Entry { name: Seq::empty(), value, start: t, named: t, at: t, after };
            match (behind(after, ']'), behind(after, ',')) {
                (Some(rest), _) => (seq![e], End::Closed(rest)),
                (_, Some(next)) => if next.len() < text.len() && behind(next, ']') is None {
                    (seq![e] + elements(next).0, elements(next).1)
                } else {
                    (seq![e], End::Fault)
                },
                _ => (seq![e], End::Fault),
            }
        },
    }
}

/// The elements of the array whose opening mark stands before `inner`.
pub open spec fn all_elements(inner: Seq<char>) -> (Seq<Entry>, End) {
    match behind(inner, ']') {
        Some(rest) => (Seq::empty(), End::Closed(rest)),
        None => elements(inner),
    }
}

// ---- Values ----

/// Why the value at which `at` begins is not what a field of that kind holds, if so. Of
/// one in brackets the bracket decides; where the value is no JSON, there is nothing to
/// say of its kind.
pub open spec fn misfit(text: Seq<char>, kind: Kind, at: Seq<char>) -> Option<Seq<char>> {
    if begins(at, '[') {
        placed(kind_complaint(kind, JsonTree::Array(Seq::empty())), text, at)
    } else if begins(at, '{') {
        placed(kind_complaint(kind, JsonTree::Object(Seq::empty())), text, at)
    } else {
        match leading_value(at) {
            None => None,
            Some((value, after)) => match json_reading(value) {
                Ok(v) => placed(kind_complaint(kind, v), text, after),
                Err(_) => None,
            },
        }
    }
}

/// Why one of the elements that stand in `rest` up to the end of their array is no
/// number in single precision, if so.
pub open spec fn singles_misfit(text: Seq<char>, rest: Seq<char>) -> Option<Seq<char>>
    decreases rest.len(),
{
    let at = trimmed(rest);
    match misfit(text, Kind::Single, at) {
        Some(m) => Some(m),
        None => match first_value(at) {
            None => None,
            Some((_, after)) => match behind(after, ',') {
                Some(next) => if next.len() < rest.len() {
                    singles_misfit(text, next)
                } else {
                    None
                },
                None => None,
            },
        },
    }
}

/// Why the value at which `at` begins is not what a field of that kind holds, if so; of
/// a list of numbers, the first element that is none.
pub open spec fn value_misfit(text: Seq<char>, kind: Kind, at: Seq<char>) -> Option<Seq<char>> {
    if kind == Kind::Singles && begins(at, '[') {
        singles_misfit(text, at.drop_first())
    } else {
        misfit(text, kind, at)
    }
}

/// What is read of the text of a value inside an object or array, or the complaint of
/// it. The brackets stand for what it is inside: they count in how deep a document nests.
pub open spec fn value_reading(text: Seq<char>) -> Result<JsonTree, Seq<char>> {
    match json_reading("["@ + text + "]"@) {
        Ok(JsonTree::Array(vs)) => if vs.len() == 1 {
            Ok(vs[0])
        } else {
            Err(Seq::empty())
        },
        Ok(_) => Err(Seq::empty()),
        Err(complaint) => Err(complaint),
    }
}

// ---- Objects ----

/// Whether one of the members has that name.
pub open spec fn holds(ms: Seq<(Seq<char>, JsonTree)>, name: Seq<char>) -> bool {
    exists|i: int| 0 <= i < ms.len() && #[trigger] ms[i].0 == name
}

/// The complaint that a known name stands there again. `named` is the text behind it.
pub open spec fn again(text: Seq<char>, name: Seq<char>, named: Seq<char>) -> JsonFailure {
    let t = trimmed(named);
    JsonFailure::Shape(
        twice(name) + place(
            text,
            if begins(t, '}') {
                t.drop_first()
            } else {
                t
            },
        ),
    )
}

/// The known ones among the first `k` members, read, or the first complaint.
pub open spec fn members_reading(
    text: Seq<char>,
    inner: Seq<char>,
    es: Seq<Entry>,
    k: nat,
) -> Result<Seq<(Seq<char>, JsonTree)>, JsonFailure>
    decreases k,
{
    if k == 0 {
        Ok(Seq::empty())
    } else {
        let e = es[k - 1];
        match members_reading(text, inner, es, (k - 1) as nat) {
            Err(f) => Err(f),
            Ok(before) => if unknown(e.name, nam_record().fields) {
                Ok(before)
            } else if holds(before, e.name) {
                Err(again(text, e.name, e.named))
            } else {
                match value_misfit(text, kind_named(e.name), e.at) {
                    Some(m) => Err(JsonFailure::Shape(m)),
                    None => match value_reading(e.value) {
                        Ok(v) => Ok(before.push((e.name, v))),
                        Err(_) => Err(fault(masked(text, inner, es, (k - 1) as nat))),
                    },
                }
            },
        }
    }
}

/// What is wrong where a name is not followed by a whole value. `ms` are the members
/// before it, and `mask` is the text with them hidden.
pub open spec fn name_failure(
    text: Seq<char>,
    mask: Seq<char>,
    ms: Seq<(Seq<char>, JsonTree)>,
    name: Seq<char>,
    named: Seq<char>,
) -> JsonFailure {
    let known = !unknown(name, nam_record().fields);
    if known && holds(ms, name) {
        again(text, name, named)
    } else {
        match behind(named, ':') {
            None => fault(mask),
            Some(u) => if !known {
                skipped_fault(mask)
            } else {
                match value_misfit(text, kind_named(name), trimmed(u)) {
                    Some(m) => JsonFailure::Shape(m),
                    None => fault(mask),
                }
            },
        }
    }
}

/// The object whose opening mark stands before `inner`, its known members as they stand
/// there, and what follows it; or what is wrong with it.
pub open spec fn object_reading(text: Seq<char>, inner: Seq<char>) -> Result<
    (JsonTree, Seq<char>),
    JsonFailure,
> {
    let (es, end) = all_members(inner);
    match members_reading(text, inner, es, es.len()) {
        Err(f) => Err(f),
        Ok(ms) => match end {
            End::Closed(rest) => match absent_complaint(JsonTree::Object(ms), nam_record()) {
                Some(m) => Err(JsonFailure::Shape(m + place(text, rest))),
                None => Ok((JsonTree::Object(ms), rest)),
            },
            End::Name(name, named) => Err(
                name_failure(text, masked(text, inner, es, es.len()), ms, name, named),
            ),
            _ => Err(fault(masked(text, inner, es, es.len()))),
        },
    }
}

// ---- Arrays ----

/// The first `k` elements, each read as the field in its place, or the first complaint.
pub open spec fn elements_reading(
    text: Seq<char>,
    inner: Seq<char>,
    es: Seq<Entry>,
    k: nat,
) -> Result<Seq<JsonTree>, JsonFailure>
    decreases k,
{
    if k == 0 {
        Ok(Seq::empty())
    } else {
        let e = es[k - 1];
        match elements_reading(text, inner, es, (k - 1) as nat) {
            Err(f) => Err(f),
            Ok(before) => match value_misfit(text, nam_record().fields[k - 1].1, e.at) {
                Some(m) => Err(JsonFailure::Shape(m)),
                None => match value_reading(e.value) {
                    Ok(v) => Ok(before.push(v)),
                    Err(_) => Err(fault(masked(text, inner, es, (k - 1) as nat))),
                },
            },
        }
    }
}

/// What follows an array whose fields have all been read up to `after`, or what is wrong
/// there. `mask` is the text with the fields hidden.
pub open spec fn array_end(text: Seq<char>, mask: Seq<char>, after: Seq<char>) -> Result<
    Seq<char>,
    JsonFailure,
> {
    match (behind(after, ']'), behind(after, ',')) {
        (Some(rest), _) => Ok(rest),
        (_, Some(next)) => if trimmed(next).len() == 0 {
            Err(JsonFailure::Syntax("trailing characters"@ + place(text, trimmed(next))))
        } else if behind(next, ']') is Some {
            Err(fault(mask))
        } else {
            Err(fault(finished(text, next)))
        },
        _ => if trimmed(after).len() == 0 {
            Err(fault(mask))
        } else {
            Err(fault(finished(text, after)))
        },
    }
}

/// The array whose opening mark stands before `inner`, which holds the fields in their
/// order, and what follows it; or what is wrong with it.
pub open spec fn array_reading(text: Seq<char>, inner: Seq<char>) -> Result<
    (JsonTree, Seq<char>),
    JsonFailure,
> {
    let (es, end) = all_elements(inner);
    let n: nat = if es.len() < 6 {
        es.len()
    } else {
        6
    };
    match elements_reading(text, inner, es, n) {
        Err(f) => Err(f),
        Ok(vs) => if n == 6 {
            match array_end(text, masked(text, inner, es, 6), es[5].after) {
                Ok(rest) => Ok((JsonTree::Array(vs), rest)),
                Err(f) => Err(f),
            }
        } else {
            match end {
                End::Closed(rest) => match absent_complaint(JsonTree::Array(vs), nam_record()) {
                    Some(m) => Err(JsonFailure::Shape(m + place(text, rest))),
                    None => Ok((JsonTree::Array(vs), rest)),
                },
                End::Value(at) => match value_misfit(text, nam_record().fields[n as int].1, at) {
                    Some(m) => Err(JsonFailure::Shape(m)),
                    None => Err(fault(masked(text, inner, es, n))),
                },
                _ => Err(fault(masked(text, inner, es, n))),
            }
        },
    }
}

// ---- Files ----

/// The document that the text of a file begins with, of an object its known members as
/// they stand there, and what follows it; or what is wrong with it.
pub open spec fn document(text: Seq<char>) -> Result<(JsonTree, Seq<char>), JsonFailure> {
    match (behind(text, '{'), behind(text, '[')) {
        (Some(inner), _) => object_reading(text, inner),
        (_, Some(inner)) => array_reading(text, inner),
        _ => match leading_value(trimmed(text)) {
            None => Err(fault(text)),
            Some((value, after)) => match json_reading(value) {
                Ok(v) => Err(
                    JsonFailure::Shape(
                        wrong_type(v, "struct "@ + nam_record().name) + place(text, after),
                    ),
                ),
                Err(_) => Err(fault(text)),
            },
        },
    }
}

/// What is wrong with what follows a document, if so.
pub open spec fn trailing(text: Seq<char>, rest: Seq<char>) -> Option<JsonFailure> {
    if trimmed(rest).len() == 0 {
        None
    } else {
        Some(fault(finished(text, rest)))
    }
}

// ---- Texts ----

/// A text without the blank that it begins with.
fn strip_blank(text: &str) -> (r: Option<&str>)
    ensures
        match r {
            Some(rest) => text@.len() > 0 && blank(text@[0]) && rest@ == text@.drop_first(),
            None => text@.len() == 0 || !blank(text@[0]),
        },
{
    let r = strip(text, ' ');
    if r.is_some() {
        return r;
    }
    let r = strip(text, '\n');
    if r.is_some() {
        return r;
    }
    let r = strip(text, '\t');
    if r.is_some() {
        return r;
    }
    strip(text, '\r')
}

fn trim(text: &str) -> (r: &str)
    ensures
        r@ == trimmed(text@),
{
    let mut cur: &str = text;
    loop
        invariant
            trimmed(cur@) == trimmed(text@),
        decreases cur@.len(),
    {
        match strip_blank(cur) {
            Some(rest) => {
                cur = rest;
            },
            None => {
                return cur;
            },
        }
    }
}

fn skip_past(text: &str, mark: char) -> (r: Option<&str>)
    ensures
        match r {
            Some(rest) => behind(text@, mark) == Some(rest@),
            None => behind(text@, mark) is None,
        },
{
    strip(trim(text), mark)
}

fn begins_with(text: &str, mark: char) -> (r: bool)
    ensures
        r == begins(text@, mark),
{
    strip(text, mark).is_some()
}

fn front<'a>(text: &'a str, rest: &str) -> (r: &'a str)
    ensures
        r@ == upto(text@, rest@),
{
    let n: usize = text.unicode_len();
    let m: usize = rest.unicode_len();
    let k: usize = if m <= n {
        n - m
    } else {
        0
    };
    let r = text.substring_char(0, k);
    assert(r@ =~= upto(text@, rest@));
    r
}

/// The place in `text` at which its end `rest` begins, in words.
fn place_of(text: &str, rest: &str) -> (r: String)
    ensures
        r@ == place(text@, rest@),
{
    let p = front(text, rest);
    let len: usize = p.unicode_len();
    let mut lines: u128 = 0;
    let mut start: usize = 0;
    let mut i: usize = 0;
    assert(p@.take(0) =~= Seq::empty());
    assert(p@.subrange(0, 0) =~= Seq::empty());
    for c in it: p.chars()
        invariant
            it.seq() == p@,
            len == p@.len(),
            i == it.index(),
            start <= i,
            lines <= i,
            lines == line_ends(p@.take(i as int)),
            last_line(p@.take(i as int)) == p@.subrange(start as int, i as int),
    {
        assert(p@.take(i + 1).drop_last() =~= p@.take(i as int));
        assert(p@.take(i + 1).last() == c);
        if c == '\n' {
            lines += 1;
            start = i + 1;
            assert(p@.subrange(start as int, i + 1) =~= Seq::empty());
        } else {
            assert(p@.subrange(start as int, i + 1) =~= p@.subrange(start as int, i as int).push(
                c,
            ));
        }
        i += 1;
    }
    assert(p@.take(len as int) =~= p@);
    let line = p.substring_char(start, len);
    let column: usize = line.as_bytes().len();
    let r = Text::new().and(" at line ").and_long(lines + 1).and(" column ").and_number(
        column,
    ).done();
    assert(r@ =~= place(text@, rest@));
    r
}

/// A complaint, if there is one, with its place.
fn place_complaint(m: Option<String>, text: &str, rest: &str) -> (r: Option<String>)
    ensures
        text_of(r) == placed(text_of(m), text@, rest@),
{
    match m {
        Some(words) => {
            let r = Text::new().and(words.as_str()).and(place_of(text, rest).as_str()).done();
            assert(r@ =~= words@ + place(text@, rest@));
            Some(r)
        },
        None => None,
    }
}

/// A blank for each byte of a character; a line end stays.
fn blank_out(c: char) -> (r: &'static str)
    ensures
        r@ == hidden(c),
{
    let u: u32 = c as u32;
    if c == '\n' {
        "\n"
    } else if u < 0x80 {
        " "
    } else if u < 0x800 {
        "  "
    } else if u < 0x10000 {
        "   "
    } else {
        "    "
    }
}

/// `out`, followed by a text behind blanks.
fn and_blanked(out: Text, text: &str) -> (r: Text)
    ensures
        r@ == out@ + blanked(text@),
{
    let ghost first = out@;
    let mut out = out;
    let mut i: usize = 0;
    let len: usize = text.unicode_len();
    assert(text@.take(0) =~= Seq::empty());
    assert(first + blanked(text@.take(0)) =~= first);
    for c in it: text.chars()
        invariant
            it.seq() == text@,
            len == text@.len(),
            i == it.index(),
            out@ == first + blanked(text@.take(i as int)),
    {
        assert(text@.take(i + 1).drop_last() =~= text@.take(i as int));
        out = out.and(blank_out(c));
        assert(out@ =~= first + (blanked(text@.take(i as int)) + hidden(c)));
        i += 1;
    }
    assert(text@.take(len as int) =~= text@);
    out
}

/// `out`, followed by a number in the place of a value.
fn and_stood_in(out: Text, value: &str) -> (r: Text)
    ensures
        r@ == out@ + stood_in(value@),
{
    let len: usize = value.unicode_len();
    if len == 0 {
        assert(out@ + stood_in(value@) =~= out@);
        out
    } else {
        let tail = value.substring_char(1, len);
        assert(tail@ =~= value@.drop_first());
        let r = and_blanked(out.and("0"), tail);
        assert(r@ =~= out@ + stood_in(value@));
        r
    }
}

/// A text in which a number stands for all that comes before its end `rest`.
fn finish(text: &str, rest: &str) -> (r: String)
    ensures
        r@ == finished(text@, rest@),
{
    let t = trim(text);
    let r = and_stood_in(Text::new().and(front(text, t)), front(t, rest)).and(rest).done();
    assert(r@ =~= finished(text@, rest@));
    r
}

/// A member of an object, or an element of an array, in the text that it stands in.
struct Part<'a> {
    name: String,
    value: &'a str,
    start: &'a str,
    named: &'a str,
    at: &'a str,
    after: &'a str,
}

impl<'a> Part<'a> {
    spec fn view(&self) -> Entry {
        Entry {
            name: self.name@,
            value: self.value@,
            start: self.start@,
            named: self.named@,
            at: self.at@,
            after: self.after@,
        }
    }
}

/// Where the entries of a text end.
enum Stop<'a> {
    Closed(&'a str),
    Name(String, &'a str),
    Value(&'a str),
    Fault,
}

impl<'a> Stop<'a> {
    spec fn view(&self) -> End {
        match self {
            Stop::Closed(rest) => End::Closed(rest@),
            Stop::Name(name, named) => End::Name(name@, named@),
            Stop::Value(at) => End::Value(at@),
            Stop::Fault => End::Fault,
        }
    }
}

spec fn entries(parts: Seq<Part>) -> Seq<Entry> {
    Seq::new(parts.len(), |i: int| parts[i]@)
}

/// The text with the first `k` entries but the last hidden, and a number for the value
/// of the last.
fn mask(text: &str, inner: &str, parts: &Vec<Part>, k: usize) -> (r: String)
    ensures
        r@ == masked(text@, inner@, entries(parts@), k as nat),
{
    if k == 0 || k > parts.len() {
        return text.to_owned();
    }
    let e = &parts[k - 1];
    assert(entries(parts@)[k - 1] == e@);
    let out = and_blanked(Text::new().and(front(text, inner)), front(inner, e.start));
    let r = and_stood_in(out.and(front(e.start, e.at)), front(e.at, e.after)).and(e.after).done();
    assert(r@ =~= masked(text@, inner@, entries(parts@), k as nat));
    r
}

/// The complaint that a text is no JSON.
fn refuse_text(text: &str) -> (r: JsonError)
    ensures
        r@ == fault(text@),
{
    match Json::parse(text) {
        Err(m) => JsonError::Syntax(m),
        Ok(_) => {
            let none = Text::new().done();
            assert(none@ =~= Seq::empty());
            JsonError::Syntax(none)
        },
    }
}

/// The complaint that a text is no JSON, where what it holds is skipped.
fn refuse_skipped(text: &str) -> (r: JsonError)
    ensures
        r@ == skipped_fault(text@),
{
    match skim(text) {
        Some(m) => JsonError::Syntax(m),
        None => {
            let none = Text::new().done();
            assert(none@ =~= Seq::empty());
            JsonError::Syntax(none)
        },
    }
}

fn is_delimiter(c: char) -> (r: bool)
    ensures
        r == delimiter(c),
{
    c == ' ' || c == '\n' || c == '\t' || c == '\r' || c == ',' || c == ':' || c == '[' || c == ']'
        || c == '{' || c == '}' || c == '"'
}

/// What a text holds before the first delimiter.
fn first_word(text: &str) -> (r: &str)
    ensures
        r@ == word(text@),
        r@.len() <= text@.len(),
{
    let mut i: usize = 0;
    let len: usize = text.unicode_len();
    assert(text@.take(0) + word(text@.skip(0)) =~= word(text@)) by {
        assert(text@.skip(0) =~= text@);
    }
    for c in it: text.chars()
        invariant
            it.seq() == text@,
            len == text@.len(),
            i == it.index(),
            word(text@) == text@.take(i as int) + word(text@.skip(i as int)),
    {
        assert(text@.skip(i as int)[0] == c);
        if is_delimiter(c) {
            assert(text@.take(i as int) + Seq::<char>::empty() =~= text@.take(i as int));
            assert(text@.subrange(0, i as int) =~= text@.take(i as int));
            return text.substring_char(0, i);
        }
        assert(text@.skip(i as int).drop_first() =~= text@.skip(i + 1));
        assert(text@.take(i as int) + (seq![c] + word(text@.skip(i + 1))) =~= text@.take(i + 1)
            + word(text@.skip(i + 1)));
        i += 1;
    }
    assert(text@.take(len as int) + Seq::<char>::empty() =~= text@);
    text
}

/// The value that a text begins with, and the rest of it.
fn find_value(at: &str) -> (r: Option<(&str, &str)>)
    ensures
        match r {
            Some((value, rest)) => {
                &&& leading_value(at@) == Some((value@, rest@))
                &&& value@ + rest@ == at@
            },
            None => leading_value(at@) is None,
        },
{
    let whole = split_value(at);
    if whole.is_some() {
        return whole;
    }
    let w = first_word(at);
    let complaint: String = match Json::parse(w) {
        Err(m) => m,
        Ok(_) => {
            return None;
        },
    };
    let len: usize = at.unicode_len();
    let mut n: usize = w.unicode_len();
    while n > 0
        invariant
            len == at@.len(),
            n <= len,
            leading_value(at@) == cut(at@, complaint@, n as nat),
        decreases n,
    {
        let expected = Text::new().and("trailing characters at line 1 column ").and_long(
            n as u128 + 1,
        ).done();
        assert(expected@ =~= "trailing characters at line 1 column "@ + decimal((n + 1) as nat));
        if same(complaint.as_str(), expected.as_str()) {
            let value = at.substring_char(0, n);
            let rest = at.substring_char(n, len);
            assert(value@ =~= at@.take(n as int));
            assert(rest@ =~= at@.skip(n as int));
            return Some((value, rest));
        }
        n -= 1;
    }
    None
}

/// Trimming does not lengthen a text.
proof fn lemma_trimmed_len(text: Seq<char>)
    ensures
        trimmed(text).len() <= text.len(),
    decreases text.len(),
{
    if text.len() > 0 && blank(text[0]) {
        lemma_trimmed_len(text.drop_first());
    }
}

/// The members that stand in `text` up to the end of their object, and where they end.
fn list_members(text: &str) -> (r: (Vec<Part>, Stop))
    ensures
        members(text@) == (entries(r.0@), r.1@),
{
    let mut out: Vec<Part> = Vec::new();
    let mut cur: &str = text;
    assert(entries(out@) + members(text@).0 =~= members(text@).0);
    loop
        invariant
            members(text@) == (entries(out@) + members(cur@).0, members(cur@).1),
        decreases cur@.len(),
    {
        let ghost before = entries(out@);
        assert(before + Seq::<Entry>::empty() =~= before);
        let (key, named) = match split_value(cur) {
            Some(x) => x,
            None => {
                return (out, Stop::Fault);
            },
        };
        let name: String = match Json::parse(key) {
            Ok(Json::String(s)) => s,
            _ => {
                return (out, Stop::Fault);
            },
        };
        let u = match skip_past(named, ':') {
            Some(x) => x,
            None => {
                return (out, Stop::Name(name, named));
            },
        };
        let (value, after) = match split_value(u) {
            Some(x) => x,
            None => {
                return (out, Stop::Name(name, named));
            },
        };
        let part = Part { name, value, start: cur, named, at: trim(u), after };
        let ghost one = part@;
        out.push(part);
        assert(entries(out@) =~= before.push(one));
        assert(before + seq![one] =~= before.push(one));
        match skip_past(after, '}') {
            Some(rest) => {
                return (out, Stop::Closed(rest));
            },
            None => {},
        }
        match skip_past(after, ',') {
            Some(next) => {
                proof {
                    lemma_trimmed_len(named@);
                    lemma_trimmed_len(after@);
                    assert((key@ + named@).len() == cur@.len());
                    assert((value@ + after@).len() == u@.len());
                    assert(u@.len() < named@.len());
                    assert(next@.len() < after@.len());
                    let more = members(next@).0;
                    assert(before + (seq![one] + more) =~= before.push(one) + more);
                }
                cur = next;
            },
            None => {
                return (out, Stop::Fault);
            },
        }
    }
}

/// The members of the object whose opening mark stands before `inner`.
fn list_all_members(inner: &str) -> (r: (Vec<Part>, Stop))
    ensures
        all_members(inner@) == (entries(r.0@), r.1@),
{
    match skip_past(inner, '}') {
        Some(rest) => {
            let none: Vec<Part> = Vec::new();
            assert(entries(none@) =~= Seq::empty());
            (none, Stop::Closed(rest))
        },
        None => list_members(inner),
    }
}

/// The elements that stand in `text` up to the end of their array, and where they end.
fn list_elements(text: &str) -> (r: (Vec<Part>, Stop))
    ensures
        elements(text@) == (entries(r.0@), r.1@),
{
    let mut out: Vec<Part> = Vec::new();
    let mut cur: &str = text;
    assert(entries(out@) + elements(text@).0 =~= elements(text@).0);
    loop
        invariant
            elements(text@) == (entries(out@) + elements(cur@).0, elements(cur@).1),
        decreases cur@.len(),
    {
        let ghost before = entries(out@);
        assert(before + Seq::<Entry>::empty() =~= before);
        let t = trim(cur);
        let (value, after) = match find_value(t) {
            Some(x) => x,
            None => {
                return (out, Stop::Value(t));
            },
        };
        let name = Text::new().done();
        assert(name@ =~= Seq::empty());
        let part = Part { name, value, start: t, named: t, at: t, after };
        let ghost one = part@;
        out.push(part);
        assert(entries(out@) =~= before.push(one));
        assert(before + seq![one] =~= before.push(one));
        match skip_past(after, ']') {
            Some(rest) => {
                return (out, Stop::Closed(rest));
            },
            None => {},
        }
        match skip_past(after, ',') {
            Some(next) => {
                proof {
                    lemma_trimmed_len(cur@);
                    lemma_trimmed_len(after@);
                    assert((value@ + after@).len() == t@.len());
                    assert(next@.len() < after@.len());
                    let more = elements(next@).0;
                    assert(before + (seq![one] + more) =~= before.push(one) + more);
                }
                if skip_past(next, ']').is_some() {
                    return (out, Stop::Fault);
                }
                cur = next;
            },
            None => {
                return (out, Stop::Fault);
            },
        }
    }
}

/// The elements of the array whose opening mark stands before `inner`.
fn list_all_elements(inner: &str) -> (r: (Vec<Part>, Stop))
    ensures
        all_elements(inner@) == (entries(r.0@), r.1@),
{
    match skip_past(inner, ']') {
        Some(rest) => {
            let none: Vec<Part> = Vec::new();
            assert(entries(none@) =~= Seq::empty());
            (none, Stop::Closed(rest))
        },
        None => list_elements(inner),
    }
}

// ---- Reading ----

/// Why the value at which `at` begins is not what a field of that kind holds, if so.
fn complain_of_value(text: &str, kind: Kind, at: &str) -> (r: Option<String>)
    ensures
        text_of(r) == misfit(text@, kind, at@),
{
    if begins_with(at, '[') {
        let v = Json::Array(Vec::new());
        assert(v@->Array_0 =~= Seq::empty());
        place_complaint(complain_of_kind(kind, &v), text, at)
    } else if begins_with(at, '{') {
        let v = Json::Object(Vec::new());
        assert(v@->Object_0 =~= Seq::empty());
        place_complaint(complain_of_kind(kind, &v), text, at)
    } else {
        match find_value(at) {
            None => None,
            Some((value, after)) => match Json::parse(value) {
                Ok(v) => place_complaint(complain_of_kind(kind, &v), text, after),
                Err(_) => None,
            },
        }
    }
}

/// Why one of the elements that stand in `rest` is no number in single precision, if so.
fn complain_of_singles(text: &str, rest: &str) -> (r: Option<String>)
    ensures
        text_of(r) == singles_misfit(text@, rest@),
{
    let mut cur: &str = rest;
    loop
        invariant
            singles_misfit(text@, cur@) == singles_misfit(text@, rest@),
        decreases cur@.len(),
    {
        let at = trim(cur);
        let m = complain_of_value(text, Kind::Single, at);
        if m.is_some() {
            return m;
        }
        let (value, after) = match split_value(at) {
            Some(x) => x,
            None => {
                return None;
            },
        };
        match skip_past(after, ',') {
            Some(next) => {
                proof {
                    lemma_trimmed_len(cur@);
                    lemma_trimmed_len(after@);
                    assert((value@ + after@).len() == at@.len());
                    assert(next@.len() < after@.len());
                }
                cur = next;
            },
            None => {
                return None;
            },
        }
    }
}

/// Why the value at which `at` begins is not what a field of that kind holds, if so; of
/// a list of numbers, the first element that is none.
fn complain_of_field(text: &str, kind: Kind, at: &str) -> (r: Option<String>)
    ensures
        text_of(r) == value_misfit(text@, kind, at@),
{
    match (kind, strip(at, '[')) {
        (Kind::Singles, Some(rest)) => complain_of_singles(text, rest),
        _ => complain_of_value(text, kind, at),
    }
}

/// Read the text of a value inside an object or array.
fn read_member(text: &str) -> (r: Result<Json, String>)
    ensures
        match r {
            Ok(v) => value_reading(text@) == Ok::<JsonTree, Seq<char>>(v@),
            Err(m) => value_reading(text@) == Err::<JsonTree, Seq<char>>(m@),
        },
{
    let bracketed = Text::new().and("[").and(text).and("]").done();
    assert(bracketed@ =~= "["@ + text@ + "]"@);
    match Json::parse(bracketed.as_str()) {
        Ok(Json::Array(vs)) => {
            let ghost tree = Json::Array(vs)@;
            let mut vs = vs;
            if vs.len() == 1 {
                assert(tree->Array_0[0] == vs@[0]@);
                Ok(vs.pop().unwrap())
            } else {
                Err(String::new())
            }
        },
        Ok(_) => Err(String::new()),
        Err(m) => Err(m),
    }
}

/// The complaint that a known name stands there again.
fn refuse_again(text: &str, name: &str, named: &str) -> (r: JsonError)
    ensures
        r@ == again(text@, name@, named@),
{
    let t = trim(named);
    let rest = match strip(t, '}') {
        Some(x) => x,
        None => t,
    };
    let r = Text::new().and(backquoted("duplicate field `", name).as_str()).and(
        place_of(text, rest).as_str(),
    ).done();
    assert(r@ =~= twice(name@) + place(text@, rest@));
    JsonError::Shape(r)
}

/// The contents of a run of members.
spec fn read(ms: Seq<(String, Json)>) -> Seq<(Seq<char>, JsonTree)> {
    Seq::new(ms.len(), |i: int| (ms[i].0@, ms[i].1@))
}

/// Whether one of the members has that name.
fn has_member(ms: &Vec<(String, Json)>, name: &str) -> (r: bool)
    ensures
        r == holds(read(ms@), name@),
{
    let ghost all = read(ms@);
    let mut i: usize = 0;
    while i < ms.len()
        invariant
            all == read(ms@),
            i <= ms@.len(),
            forall|q: int| 0 <= q < i ==> #[trigger] all[q].0 != name@,
        decreases ms@.len() - i,
    {
        assert(all[i as int].0 == ms@[i as int].0@);
        if same(ms[i].0.as_str(), name) {
            return true;
        }
        i += 1;
    }
    false
}

/// A complaint among the first members is the complaint of all.
proof fn lemma_members_first(
    text: Seq<char>,
    inner: Seq<char>,
    es: Seq<Entry>,
    k: nat,
    n: nat,
)
    requires
        k <= n,
        members_reading(text, inner, es, k) is Err,
    ensures
        members_reading(text, inner, es, n) == members_reading(text, inner, es, k),
    decreases n - k,
{
    if k < n {
        lemma_members_first(text, inner, es, k + 1, n);
    }
}

/// A complaint among the first elements is the complaint of all.
proof fn lemma_elements_first(
    text: Seq<char>,
    inner: Seq<char>,
    es: Seq<Entry>,
    k: nat,
    n: nat,
)
    requires
        k <= n,
        elements_reading(text, inner, es, k) is Err,
    ensures
        elements_reading(text, inner, es, n) == elements_reading(text, inner, es, k),
    decreases n - k,
{
    if k < n {
        lemma_elements_first(text, inner, es, k + 1, n);
    }
}

/// Read the known ones among these members.
fn read_members(text: &str, inner: &str, parts: &Vec<Part>) -> (r: Result<
    Vec<(String, Json)>,
    JsonError,
>)
    ensures
        match r {
            Ok(ms) => members_reading(text@, inner@, entries(parts@), parts@.len()) == Ok::<
                Seq<(Seq<char>, JsonTree)>,
                JsonFailure,
            >(read(ms@)),
            Err(e) => members_reading(text@, inner@, entries(parts@), parts@.len()) == Err::<
                Seq<(Seq<char>, JsonTree)>,
                JsonFailure,
            >(e@),
        },
{
    let ghost es = entries(parts@);
    let ghost n = parts@.len();
    let rec = nam();
    let mut out: Vec<(String, Json)> = Vec::new();
    assert(read(out@) =~= Seq::empty());
    let mut k: usize = 0;
    while k < parts.len()
        invariant
            es == entries(parts@),
            n == parts@.len(),
            rec@ == nam_record(),
            k <= n,
            members_reading(text@, inner@, es, k as nat) == Ok::<
                Seq<(Seq<char>, JsonTree)>,
                JsonFailure,
            >(read(out@)),
        decreases n - k,
    {
        let e = &parts[k];
        assert(es[k as int] == e@);
        if !is_unknown(e.name.as_str(), &rec) {
            let failure: Option<JsonError> = if has_member(&out, e.name.as_str()) {
                Some(refuse_again(text, e.name.as_str(), e.named))
            } else {
                match complain_of_field(text, kind_of(e.name.as_str()), e.at) {
                    Some(m) => Some(JsonError::Shape(m)),
                    None => match read_member(e.value) {
                        Ok(v) => {
                            let ghost before = read(out@);
                            let ghost one = (e.name@, v@);
                            out.push((e.name.clone(), v));
                            assert(read(out@) =~= before.push(one));
                            None
                        },
                        Err(_) => Some(refuse_text(mask(text, inner, parts, k).as_str())),
                    },
                }
            };
            match failure {
                Some(f) => {
                    proof {
                        lemma_members_first(text@, inner@, es, (k + 1) as nat, n);
                    }
                    return Err(f);
                },
                None => {},
            }
        }
        k += 1;
    }
    Ok(out)
}

/// What is wrong where a name is not followed by a whole value.
fn refuse_name(
    text: &str,
    hidden_text: &str,
    ms: &Vec<(String, Json)>,
    name: &str,
    named: &str,
) -> (r: JsonError)
    ensures
        r@ == name_failure(text@, hidden_text@, read(ms@), name@, named@),
{
    let known: bool = !is_unknown(name, &nam());
    if known && has_member(ms, name) {
        return refuse_again(text, name, named);
    }
    match skip_past(named, ':') {
        None => refuse_text(hidden_text),
        Some(u) => if !known {
            refuse_skipped(hidden_text)
        } else {
            match complain_of_field(text, kind_of(name), trim(u)) {
                Some(m) => JsonError::Shape(m),
                None => refuse_text(hidden_text),
            }
        },
    }
}

/// The contents of what was read of a text, and of what follows.
pub open spec fn said(r: Result<(Json, &str), JsonError>) -> Result<
    (JsonTree, Seq<char>),
    JsonFailure,
> {
    match r {
        Ok((v, rest)) => Ok((v@, rest@)),
        Err(e) => Err(e@),
    }
}

/// `v` and `rest`, unless there is a complaint; it is of what comes before `rest`.
fn unless<'a>(m: Option<String>, v: Json, text: &str, rest: &'a str) -> (r: Result<
    (Json, &'a str),
    JsonError,
>)
    ensures
        match placed(text_of(m), text@, rest@) {
            Some(words) => said(r) == Err::<(JsonTree, Seq<char>), JsonFailure>(
                JsonFailure::Shape(words),
            ),
            None => said(r) == Ok::<(JsonTree, Seq<char>), JsonFailure>((v@, rest@)),
        },
{
    match place_complaint(m, text, rest) {
        Some(words) => Err(JsonError::Shape(words)),
        None => Ok((v, rest)),
    }
}

/// Read the object whose opening mark stands before `inner`.
fn read_object<'a>(text: &'a str, inner: &'a str) -> (r: Result<(Json, &'a str), JsonError>)
    ensures
        said(r) == object_reading(text@, inner@),
{
    let (parts, stop) = list_all_members(inner);
    let ms = match read_members(text, inner, &parts) {
        Ok(ms) => ms,
        Err(e) => {
            return Err(e);
        },
    };
    match stop {
        Stop::Closed(rest) => {
            let v = Json::Object(ms);
            assert(v@->Object_0 =~= read(ms@));
            unless(complain_of_absent(&v, &nam()), v, text, rest)
        },
        Stop::Name(name, named) => {
            let hidden_text = mask(text, inner, &parts, parts.len());
            Err(refuse_name(text, hidden_text.as_str(), &ms, name.as_str(), named))
        },
        _ => Err(refuse_text(mask(text, inner, &parts, parts.len()).as_str())),
    }
}

/// The contents of a run of values.
spec fn trees(vs: Seq<Json>) -> Seq<JsonTree> {
    Seq::new(vs.len(), |i: int| vs[i]@)
}

/// Read the first `n` elements, each as the field in its place.
fn read_elements(text: &str, inner: &str, parts: &Vec<Part>, n: usize) -> (r: Result<
    Vec<Json>,
    JsonError,
>)
    requires
        n <= parts@.len(),
        n <= 6,
    ensures
        match r {
            Ok(vs) => elements_reading(text@, inner@, entries(parts@), n as nat) == Ok::<
                Seq<JsonTree>,
                JsonFailure,
            >(trees(vs@)),
            Err(e) => elements_reading(text@, inner@, entries(parts@), n as nat) == Err::<
                Seq<JsonTree>,
                JsonFailure,
            >(e@),
        },
{
    let ghost es = entries(parts@);
    let rec = nam();
    let mut out: Vec<Json> = Vec::new();
    assert(trees(out@) =~= Seq::empty());
    let mut k: usize = 0;
    while k < n
        invariant
            es == entries(parts@),
            n <= parts@.len(),
            n <= 6,
            rec@ == nam_record(),
            k <= n,
            elements_reading(text@, inner@, es, k as nat) == Ok::<Seq<JsonTree>, JsonFailure>(
                trees(out@),
            ),
        decreases n - k,
    {
        let e = &parts[k];
        assert(es[k as int] == e@);
        assert(rec@.fields.len() == 6);
        assert(rec@.fields[k as int].1 == rec.fields@[k as int].1);
        let failure: Option<JsonError> = match complain_of_field(text, rec.fields[k].1, e.at) {
            Some(m) => Some(JsonError::Shape(m)),
            None => match read_member(e.value) {
                Ok(v) => {
                    let ghost before = trees(out@);
                    let ghost one = v@;
                    out.push(v);
                    assert(trees(out@) =~= before.push(one));
                    None
                },
                Err(_) => Some(refuse_text(mask(text, inner, parts, k).as_str())),
            },
        };
        match failure {
            Some(f) => {
                proof {
                    lemma_elements_first(text@, inner@, es, (k + 1) as nat, n as nat);
                }
                return Err(f);
            },
            None => {},
        }
        k += 1;
    }
    Ok(out)
}

/// What follows an array whose fields have all been read up to `after`.
fn end_array<'a>(text: &str, hidden_text: &str, after: &'a str) -> (r: Result<&'a str, JsonError>)
    ensures
        match r {
            Ok(rest) => array_end(text@, hidden_text@, after@) == Ok::<Seq<char>, JsonFailure>(
                rest@,
            ),
            Err(e) => array_end(text@, hidden_text@, after@) == Err::<Seq<char>, JsonFailure>(e@),
        },
{
    match skip_past(after, ']') {
        Some(rest) => {
            return Ok(rest);
        },
        None => {},
    }
    match skip_past(after, ',') {
        Some(next) => {
            let t = trim(next);
            if t.is_empty() {
                let m = Text::new().and("trailing characters").and(
                    place_of(text, t).as_str(),
                ).done();
                assert(m@ =~= "trailing characters"@ + place(text@, t@));
                Err(JsonError::Syntax(m))
            } else if begins_with(t, ']') {
                Err(refuse_text(hidden_text))
            } else {
                Err(refuse_text(finish(text, next).as_str()))
            }
        },
        None => if trim(after).is_empty() {
            Err(refuse_text(hidden_text))
        } else {
            Err(refuse_text(finish(text, after).as_str()))
        },
    }
}

/// Read the array whose opening mark stands before `inner`.
fn read_array<'a>(text: &'a str, inner: &'a str) -> (r: Result<(Json, &'a str), JsonError>)
    ensures
        said(r) == array_reading(text@, inner@),
{
    let (parts, stop) = list_all_elements(inner);
    let ghost es = entries(parts@);
    let n: usize = if parts.len() < 6 {
        parts.len()
    } else {
        6
    };
    let vs = match read_elements(text, inner, &parts, n) {
        Ok(vs) => vs,
        Err(e) => {
            return Err(e);
        },
    };
    let ghost ts = trees(vs@);
    let v = Json::Array(vs);
    assert(v@->Array_0 =~= ts);
    let hidden_text = mask(text, inner, &parts, n);
    if n == 6 {
        assert(es[5] == parts@[5]@);
        return match end_array(text, hidden_text.as_str(), parts[5].after) {
            Ok(rest) => Ok((v, rest)),
            Err(e) => Err(e),
        };
    }
    match stop {
        Stop::Closed(rest) => unless(complain_of_absent(&v, &nam()), v, text, rest),
        Stop::Value(at) => {
            let rec = nam();
            assert(rec@.fields.len() == 6);
            assert(rec@.fields[n as int].1 == rec.fields@[n as int].1);
            match complain_of_field(text, rec.fields[n].1, at) {
                Some(m) => Err(JsonError::Shape(m)),
                None => Err(refuse_text(hidden_text.as_str())),
            }
        },
        _ => Err(refuse_text(hidden_text.as_str())),
    }
}

/// Read the document that the text of a file begins with. What follows it is given back.
pub fn read_document(text: &str) -> (r: Result<(Json, &str), JsonError>)
    ensures
        said(r) == document(text@),
{
    match skip_past(text, '{') {
        Some(inner) => {
            return read_object(text, inner);
        },
        None => {},
    }
    match skip_past(text, '[') {
        Some(inner) => {
            return read_array(text, inner);
        },
        None => {},
    }
    match find_value(trim(text)) {
        None => Err(refuse_text(text)),
        Some((value, after)) => match Json::parse(value) {
            Ok(v) => {
                let what = Text::new().and("struct ").and(nam().name).done();
                assert(what@ =~= "struct "@ + nam_record().name);
                let m = Text::new().and(refuse_type(&v, what.as_str()).as_str()).and(
                    place_of(text, after).as_str(),
                ).done();
                assert(m@ =~= wrong_type(v@, what@) + place(text@, after@));
                Err(JsonError::Shape(m))
            },
            Err(_) => Err(refuse_text(text)),
        },
    }
}

/// What is wrong with what follows a document, if so.
pub fn complain_of_trailing(text: &str, rest: &str) -> (r: Option<JsonError>)
    ensures
        match r {
            Some(e) => trailing(text@, rest@) == Some(e@),
            None => trailing(text@, rest@) is None,
        },
{
    if trim(rest).is_empty() {
        None
    } else {
        Some(refuse_text(finish(text, rest).as_str()))
    }
}

} // verus!
