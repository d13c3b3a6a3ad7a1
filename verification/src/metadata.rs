//! Loudness, calibration and descriptive metadata of a `.nam` file.
//!
//! Every field is read on its own: a value of an unexpected shape costs that field
//! alone, and unknown keys are ignored.

use vstd::prelude::*;
use crate::json::{Json, JsonNumber, JsonTree};
use crate::model::{tree_of, NamModel, NamShape};

verus! {

/// When a model was trained.
#[derive(Debug, Clone, Copy, PartialEq, Eq, Structural)]
pub struct Date {
    pub year: i32,
    pub month: u8,
    pub day: u8,
    pub hour: u8,
    pub minute: u8,
    pub second: u8,
}

/// What NAM may write into `metadata`. All optional; older or minimal files omit them.
#[derive(Debug)]
pub struct Metadata {
    /// Output loudness, in dBFS RMS (not LUFS).
    pub loudness: Option<JsonNumber>,
    /// How much the model distorts, as NAM estimates it.
    pub gain: Option<JsonNumber>,
    /// Analog level (dBu) corresponding to 0 dBFS at the model input.
    pub input_level_dbu: Option<JsonNumber>,
    /// Analog level (dBu) corresponding to 0 dBFS at the model output.
    pub output_level_dbu: Option<JsonNumber>,
    pub name: Option<String>,
    pub modeled_by: Option<String>,
    pub gear_make: Option<String>,
    pub gear_model: Option<String>,
    /// Free text: files in the wild carry values outside NAM's own vocabulary.
    pub gear_type: Option<String>,
    /// Free text, like `gear_type`.
    pub tone_type: Option<String>,
    pub trainer: Option<String>,
    pub date: Option<Date>,
    /// The training block, as it stands.
    pub training: Option<Json>,
}

/// The mathematical content of a [`Metadata`].
#[verifier::ext_equal]
pub struct MetadataShape {
    pub loudness: Option<JsonNumber>,
    pub gain: Option<JsonNumber>,
    pub input_level_dbu: Option<JsonNumber>,
    pub output_level_dbu: Option<JsonNumber>,
    pub name: Option<Seq<char>>,
    pub modeled_by: Option<Seq<char>>,
    pub gear_make: Option<Seq<char>>,
    pub gear_model: Option<Seq<char>>,
    pub gear_type: Option<Seq<char>>,
    pub tone_type: Option<Seq<char>>,
    pub trainer: Option<Seq<char>>,
    pub date: Option<Date>,
    pub training: Option<JsonTree>,
}

/// The contents of an optional text.
pub open spec fn chars_of(s: Option<String>) -> Option<Seq<char>> {
    match s {
        Some(t) => Some(t@),
        None => None,
    }
}

impl Metadata {
    pub open spec fn view(&self) -> MetadataShape {
        MetadataShape {
            loudness: self.loudness,
            gain: self.gain,
            input_level_dbu: self.input_level_dbu,
            output_level_dbu: self.output_level_dbu,
            name: chars_of(self.name),
            modeled_by: chars_of(self.modeled_by),
            gear_make: chars_of(self.gear_make),
            gear_model: chars_of(self.gear_model),
            gear_type: chars_of(self.gear_type),
            tone_type: chars_of(self.tone_type),
            trainer: chars_of(self.trainer),
            date: self.date,
            training: tree_of(self.training),
        }
    }
}

impl Default for Metadata {
    fn default() -> (r: Metadata)
        ensures
            r@ == metadata_of(None),
    {
        Metadata {
            loudness: None,
            gain: None,
            input_level_dbu: None,
            output_level_dbu: None,
            name: None,
            modeled_by: None,
            gear_make: None,
            gear_model: None,
            gear_type: None,
            tone_type: None,
            trainer: None,
            date: None,
            training: None,
        }
    }
}

/// A member of the metadata block, if there is such a block and member.
pub open spec fn entry(block: Option<JsonTree>, key: Seq<char>) -> Option<JsonTree> {
    match block {
        Some(t) => t.get(key),
        None => None,
    }
}

/// A number of the metadata block; anything else is as good as absent.
pub open spec fn number_entry(block: Option<JsonTree>, key: Seq<char>) -> Option<JsonNumber> {
    match entry(block, key) {
        Some(v) => v.as_number(),
        None => None,
    }
}

/// A text of the metadata block; anything else is as good as absent.
pub open spec fn text_entry(block: Option<JsonTree>, key: Seq<char>) -> Option<Seq<char>> {
    match entry(block, key) {
        Some(v) => v.as_text(),
        None => None,
    }
}

/// An integer field of a record within bounds.
pub open spec fn bounded_field(
    t: JsonTree,
    key: Seq<char>,
    index: int,
    low: int,
    high: int,
) -> Option<int> {
    match t.field(key, index) {
        Some(JsonTree::Number(JsonNumber::PosInt(u))) => if low <= u <= high {
            Some(u as int)
        } else {
            None
        },
        Some(JsonTree::Number(JsonNumber::NegInt(i))) => if low <= i <= high {
            Some(i as int)
        } else {
            None
        },
        _ => None,
    }
}

/// A date written as a record of six integers in their ranges.
pub open spec fn date_of(t: JsonTree) -> Option<Date> {
    if !t.is_record(6) {
        None
    } else {
        match (
            bounded_field(t, "year"@, 0, i32::MIN as int, i32::MAX as int),
            bounded_field(t, "month"@, 1, 0, 255),
            bounded_field(t, "day"@, 2, 0, 255),
            bounded_field(t, "hour"@, 3, 0, 255),
            bounded_field(t, "minute"@, 4, 0, 255),
            bounded_field(t, "second"@, 5, 0, 255),
        ) {
            (
                Some(year),
                Some(month),
                Some(day),
                Some(hour),
                Some(minute),
                Some(second),
            ) => Some(
                Date {
                    year: year as i32,
                    month: month as u8,
                    day: day as u8,
                    hour: hour as u8,
                    minute: minute as u8,
                    second: second as u8,
                },
            ),
            _ => None,
        }
    }
}

/// What a metadata block says.
pub open spec fn metadata_of(block: Option<JsonTree>) -> MetadataShape {
    MetadataShape {
        loudness: number_entry(block, "loudness"@),
        gain: number_entry(block, "gain"@),
        input_level_dbu: number_entry(block, "input_level_dbu"@),
        output_level_dbu: number_entry(block, "output_level_dbu"@),
        name: text_entry(block, "name"@),
        modeled_by: text_entry(block, "modeled_by"@),
        gear_make: text_entry(block, "gear_make"@),
        gear_model: text_entry(block, "gear_model"@),
        gear_type: text_entry(block, "gear_type"@),
        tone_type: text_entry(block, "tone_type"@),
        trainer: text_entry(block, "trainer"@),
        date: match entry(block, "date"@) {
            Some(v) => date_of(v),
            None => None,
        },
        training: match entry(block, "training"@) {
            Some(v) => if v == JsonTree::Null {
                None
            } else {
                Some(v)
            },
            None => None,
        },
    }
}

fn read_number(block: &Json, key: &str) -> (r: Option<JsonNumber>)
    ensures
        r == number_entry(Some(block@), key@),
{
    match block.get(key) {
        Some(v) => v.as_number(),
        None => None,
    }
}

fn read_text(block: &Json, key: &str) -> (r: Option<String>)
    ensures
        chars_of(r) == text_entry(Some(block@), key@),
{
    match block.get(key) {
        Some(v) => v.as_string(),
        None => None,
    }
}

fn read_small(t: &Json, key: &str, index: usize) -> (r: Option<u8>)
    ensures
        match r {
            Some(v) => bounded_field(t@, key@, index as int, 0, 255) == Some(v as int),
            None => bounded_field(t@, key@, index as int, 0, 255) is None,
        },
{
    let n = match t.field(key, index) {
        Some(v) => v.as_number(),
        None => None,
    };
    match n {
        Some(JsonNumber::PosInt(u)) => if u <= 255 {
            Some(u as u8)
        } else {
            None
        },
        Some(JsonNumber::NegInt(i)) => if 0 <= i && i <= 255 {
            Some(i as u8)
        } else {
            None
        },
        _ => None,
    }
}

fn read_year(t: &Json) -> (r: Option<i32>)
    ensures
        match r {
            Some(v) => bounded_field(t@, "year"@, 0, i32::MIN as int, i32::MAX as int) == Some(
                v as int,
            ),
            None => bounded_field(t@, "year"@, 0, i32::MIN as int, i32::MAX as int) is None,
        },
{
    let n = match t.field("year", 0) {
        Some(v) => v.as_number(),
        None => None,
    };
    match n {
        Some(JsonNumber::PosInt(u)) => if u <= i32::MAX as u64 {
            Some(u as i32)
        } else {
            None
        },
        Some(JsonNumber::NegInt(i)) => if i32::MIN as i64 <= i && i <= i32::MAX as i64 {
            Some(i as i32)
        } else {
            None
        },
        _ => None,
    }
}

fn read_date(t: &Json) -> (r: Option<Date>)
    ensures
        r == date_of(t@),
{
    if !t.is_record(6) {
        return None;
    }
    match (
        read_year(t),
        read_small(t, "month", 1),
        read_small(t, "day", 2),
        read_small(t, "hour", 3),
        read_small(t, "minute", 4),
        read_small(t, "second", 5),
    ) {
        (Some(year), Some(month), Some(day), Some(hour), Some(minute), Some(second)) => Some(
            Date { year, month, day, hour, minute, second },
        ),
        _ => None,
    }
}

/// Whether `c` is white space, as Unicode has it.
pub open spec fn white(c: char) -> bool {
    let u = c as u32;
    ||| 0x9 <= u <= 0xD
    ||| u == 0x20
    ||| u == 0x85
    ||| u == 0xA0
    ||| u == 0x1680
    ||| 0x2000 <= u <= 0x200A
    ||| u == 0x2028
    ||| u == 0x2029
    ||| u == 0x202F
    ||| u == 0x205F
    ||| u == 0x3000
}

fn is_white(c: char) -> (r: bool)
    ensures
        r == white(c),
{
    let u: u32 = c as u32;
    (0x9 <= u && u <= 0xD) || u == 0x20 || u == 0x85 || u == 0xA0 || u == 0x1680 || (0x2000 <= u
        && u <= 0x200A) || u == 0x2028 || u == 0x2029 || u == 0x202F || u == 0x205F || u == 0x3000
}

/// `s` without leading white space.
pub open spec fn trim_start(s: Seq<char>) -> Seq<char>
    decreases s.len(),
{
    if s.len() > 0 && white(s[0]) {
        trim_start(s.drop_first())
    } else {
        s
    }
}

/// `s` without trailing white space.
pub open spec fn trim_end(s: Seq<char>) -> Seq<char>
    decreases s.len(),
{
    if s.len() > 0 && white(s.last()) {
        trim_end(s.drop_last())
    } else {
        s
    }
}

/// `c` in lower case (ASCII only), with `-` and `_` taken as the same.
pub open spec fn folded(c: char) -> char {
    if 'A' <= c && c <= 'Z' {
        ((c as u32) + 32) as char
    } else if c == '-' {
        '_'
    } else {
        c
    }
}

fn fold(c: char) -> (r: char)
    ensures
        r == folded(c),
{
    if 'A' <= c && c <= 'Z' {
        let u: u8 = c as u8;
        (u + 32) as char
    } else if c == '-' {
        '_'
    } else {
        c
    }
}

/// The spelling by which a gear type is classified: case, surrounding white space, and
/// `-` or `_` are not significant.
pub open spec fn spelling(gear: Seq<char>) -> Seq<char> {
    let t = trim_end(trim_start(gear));
    Seq::new(t.len(), |i: int| folded(t[i]))
}

/// Whether `word` stands in `s` from `i` on as a whole `_`-separated token.
pub open spec fn token_at(s: Seq<char>, word: Seq<char>, i: int) -> bool {
    &&& 0 <= i
    &&& i + word.len() <= s.len()
    &&& s.subrange(i, i + word.len()) == word
    &&& i == 0 || s[i - 1] == '_'
    &&& i + word.len() == s.len() || s[i + word.len()] == '_'
}

/// Whether `word` is one of the `_`-separated tokens of `s`.
pub open spec fn has_token(s: Seq<char>, word: Seq<char>) -> bool {
    exists|i: int| #[trigger] token_at(s, word, i)
}

/// Whether a gear type names a chain with a speaker cabinet in it: `cab` as a whole
/// token, or one of the known spellings. An unrecognised value is unknown, never a
/// guess.
pub open spec fn cab_in(gear: Seq<char>) -> Option<bool> {
    let s = spelling(gear);
    if has_token(s, "cab"@) || s == "full_rig"@ || s == "ir"@ {
        Some(true)
    } else if s == "amp"@ || s == "preamp"@ || s == "pedal"@ || s == "pedal_amp"@ || s
        == "outboard"@ || s == "space"@ {
        Some(false)
    } else {
        None
    }
}

fn letters(s: &str) -> (r: Vec<char>)
    ensures
        r@ == s@,
{
    let n: usize = s.unicode_len();
    let mut out: Vec<char> = Vec::new();
    let mut i: usize = 0;
    while i < n
        invariant
            n == s@.len(),
            i <= n,
            out@ == s@.take(i as int),
        decreases n - i,
    {
        out.push(s.get_char(i));
        i += 1;
        assert(out@ =~= s@.take(i as int));
    }
    assert(s@.take(n as int) =~= s@);
    out
}

/// Whether `v` holds `word` from `at` on.
fn holds_at(v: &Vec<char>, word: &Vec<char>, at: usize) -> (r: bool)
    requires
        at + word@.len() <= v@.len(),
    ensures
        r == (v@.subrange(at as int, at + word@.len()) == word@),
{
    let mut i: usize = 0;
    assert(v.len() == v@.len());
    while i < word.len()
        invariant
            at + word@.len() <= v@.len() <= usize::MAX,
            i <= word@.len(),
            forall|q: int| 0 <= q < i ==> v@[at + q] == #[trigger] word@[q],
        decreases word@.len() - i,
    {
        if v[at + i] != word[i] {
            assert(v@.subrange(at as int, at + word@.len())[i as int] != word@[i as int]);
            return false;
        }
        i += 1;
    }
    assert(v@.subrange(at as int, at + word@.len()) =~= word@);
    true
}

fn is_word(v: &Vec<char>, word: &str) -> (r: bool)
    ensures
        r == (v@ == word@),
{
    let w = letters(word);
    if v.len() != w.len() {
        return false;
    }
    assert(v@.subrange(0, v@.len() as int) =~= v@);
    holds_at(v, &w, 0)
}

fn any_token(v: &Vec<char>, word: &str) -> (r: bool)
    ensures
        r == has_token(v@, word@),
{
    let w = letters(word);
    if w.len() > v.len() {
        return false;
    }
    let last: usize = v.len() - w.len();
    let mut i: usize = 0;
    while i <= last
        invariant
            w@ == word@,
            last == v@.len() - w@.len(),
            v@.len() <= usize::MAX,
            i <= last + 1,
            forall|q: int| 0 <= q < i ==> !#[trigger] token_at(v@, word@, q),
        decreases last + 1 - i,
    {
        if holds_at(v, &w, i) && (i == 0 || v[i - 1] == '_') && (i + w.len() == v.len() || v[i
            + w.len()] == '_') {
            assert(token_at(v@, word@, i as int));
            return true;
        }
        assert(!token_at(v@, word@, i as int));
        if i == last {
            assert forall|q: int| !#[trigger] token_at(v@, word@, q) by {}
            return false;
        }
        i += 1;
    }
    false
}

fn spell(gear: &str) -> (r: Vec<char>)
    ensures
        r@ == spelling(gear@),
{
    let all = letters(gear);
    let n: usize = all.len();
    let ghost s = gear@;
    let mut lo: usize = 0;
    assert(s.skip(0) =~= s);
    while lo < n && is_white(all[lo])
        invariant
            all@ == s,
            n == s.len(),
            lo <= n,
            trim_start(s) == trim_start(s.skip(lo as int)),
        decreases n - lo,
    {
        assert(s.skip(lo as int).drop_first() =~= s.skip(lo + 1));
        lo += 1;
    }
    let ghost t = s.skip(lo as int);
    assert(trim_start(s) == t);
    let mut hi: usize = n;
    assert(t.take(n - lo) =~= t);
    while hi > lo && is_white(all[hi - 1])
        invariant
            all@ == s,
            n == s.len(),
            lo <= hi <= n,
            t == s.skip(lo as int),
            trim_end(t) == trim_end(t.take(hi - lo)),
        decreases hi - lo,
    {
        assert(t.take(hi - lo).drop_last() =~= t.take(hi - lo - 1));
        assert(t.take(hi - lo).last() == all@[hi - 1]);
        hi -= 1;
    }
    let ghost u = t.take(hi - lo);
    proof {
        if hi > lo {
            assert(u.last() == all@[hi - 1]);
        }
        assert(trim_end(t) == u);
    }
    let mut out: Vec<char> = Vec::new();
    let mut i: usize = lo;
    while i < hi
        invariant
            all@ == s,
            lo <= i <= hi <= n,
            n == s.len(),
            u == s.skip(lo as int).take(hi - lo),
            out@.len() == i - lo,
            forall|q: int| 0 <= q < i - lo ==> #[trigger] out@[q] == folded(u[q]),
        decreases hi - i,
    {
        assert(u[i - lo] == all@[i as int]);
        out.push(fold(all[i]));
        i += 1;
    }
    assert(out@ =~= spelling(s));
    out
}

fn classify(gear: &str) -> (r: Option<bool>)
    ensures
        r == cab_in(gear@),
{
    let s = spell(gear);
    if any_token(&s, "cab") || is_word(&s, "full_rig") || is_word(&s, "ir") {
        Some(true)
    } else if is_word(&s, "amp") || is_word(&s, "preamp") || is_word(&s, "pedal") || is_word(
        &s,
        "pedal_amp",
    ) || is_word(&s, "outboard") || is_word(&s, "space") {
        Some(false)
    } else {
        None
    }
}

impl MetadataShape {
    /// Whether the captured chain has a speaker cabinet in it, if the gear type says.
    pub open spec fn includes_cab(self) -> Option<bool> {
        match self.gear_type {
            Some(g) => cab_in(g),
            None => None,
        }
    }
}

impl Metadata {
    /// Whether the captured chain has a speaker cabinet in it, if the gear type says.
    ///
    /// `cab` is matched as a whole `_`-separated token, never a substring. An
    /// unrecognised or absent gear type is unknown, never a guess.
    #[must_use]
    pub fn includes_cab(&self) -> (r: Option<bool>)
        ensures
            r == self@.includes_cab(),
    {
        match &self.gear_type {
            Some(g) => classify(g.as_str()),
            None => None,
        }
    }
}

/// The numbers of a file by which a host calibrates levels and rate.
#[derive(Debug, Clone, Copy)]
pub struct Calibration {
    pub sample_rate: JsonNumber,
    pub loudness: Option<JsonNumber>,
    pub input_level_dbu: Option<JsonNumber>,
    pub output_level_dbu: Option<JsonNumber>,
}

impl NamShape {
    /// The metadata of the file.
    pub open spec fn typed(self) -> MetadataShape {
        metadata_of(self.metadata)
    }

    /// The numbers of the file by which a host calibrates levels and rate.
    pub open spec fn calibration(self) -> Calibration {
        Calibration {
            sample_rate: self.rate(),
            loudness: self.typed().loudness,
            input_level_dbu: self.typed().input_level_dbu,
            output_level_dbu: self.typed().output_level_dbu,
        }
    }
}

impl NamModel {
    /// The typed [`Metadata`], read from the raw `metadata` block in one go. All `None`
    /// when there is no such block; a field whose value has an unexpected shape is
    /// `None` without costing the others; unknown keys are ignored.
    #[must_use]
    pub fn metadata_typed(&self) -> (r: Metadata)
        ensures
            r@ == self@.typed(),
    {
        match &self.metadata {
            Some(block) => Metadata {
                loudness: read_number(block, "loudness"),
                gain: read_number(block, "gain"),
                input_level_dbu: read_number(block, "input_level_dbu"),
                output_level_dbu: read_number(block, "output_level_dbu"),
                name: read_text(block, "name"),
                modeled_by: read_text(block, "modeled_by"),
                gear_make: read_text(block, "gear_make"),
                gear_model: read_text(block, "gear_model"),
                gear_type: read_text(block, "gear_type"),
                tone_type: read_text(block, "tone_type"),
                trainer: read_text(block, "trainer"),
                date: match block.get("date") {
                    Some(v) => read_date(v),
                    None => None,
                },
                training: match block.get("training") {
                    Some(v) => if v.is_null() {
                        None
                    } else {
                        Some(v.clone())
                    },
                    None => None,
                },
            },
            None => Metadata::default(),
        }
    }

    /// Output loudness, if the file records it.
    #[must_use]
    pub fn loudness(&self) -> (r: Option<JsonNumber>)
        ensures
            r == self@.typed().loudness,
    {
        self.metadata_typed().loudness
    }

    /// Input calibration level in dBu (analog level at 0 dBFS in), if present.
    #[must_use]
    pub fn input_level_dbu(&self) -> (r: Option<JsonNumber>)
        ensures
            r == self@.typed().input_level_dbu,
    {
        self.metadata_typed().input_level_dbu
    }

    /// Output calibration level in dBu (analog level at 0 dBFS out), if present.
    #[must_use]
    pub fn output_level_dbu(&self) -> (r: Option<JsonNumber>)
        ensures
            r == self@.typed().output_level_dbu,
    {
        self.metadata_typed().output_level_dbu
    }

    /// Whether the captured chain has a speaker cabinet in it, if the file says.
    #[must_use]
    pub fn includes_cab(&self) -> (r: Option<bool>)
        ensures
            r == self@.typed().includes_cab(),
    {
        self.metadata_typed().includes_cab()
    }

    /// The numbers of the file by which a host calibrates levels and rate.
    pub fn calibration(&self) -> (r: Calibration)
        ensures
            r == self@.calibration(),
    {
        let md = self.metadata_typed();
        Calibration {
            sample_rate: self.expected_sample_rate(),
            loudness: md.loudness,
            input_level_dbu: md.input_level_dbu,
            output_level_dbu: md.output_level_dbu,
        }
    }
}

/// Reading is lenient field by field: two blocks that agree on one key agree on what
/// is read from it, whatever else they hold.
pub proof fn lemma_fields_stand_alone(a: Option<JsonTree>, b: Option<JsonTree>)
    ensures
        entry(a, "loudness"@) == entry(b, "loudness"@) ==> metadata_of(a).loudness == metadata_of(
            b,
        ).loudness,
        entry(a, "gain"@) == entry(b, "gain"@) ==> metadata_of(a).gain == metadata_of(b).gain,
        entry(a, "input_level_dbu"@) == entry(b, "input_level_dbu"@) ==> metadata_of(
            a,
        ).input_level_dbu == metadata_of(b).input_level_dbu,
        entry(a, "output_level_dbu"@) == entry(b, "output_level_dbu"@) ==> metadata_of(
            a,
        ).output_level_dbu == metadata_of(b).output_level_dbu,
        entry(a, "name"@) == entry(b, "name"@) ==> metadata_of(a).name == metadata_of(b).name,
        entry(a, "modeled_by"@) == entry(b, "modeled_by"@) ==> metadata_of(a).modeled_by
            == metadata_of(b).modeled_by,
        entry(a, "gear_make"@) == entry(b, "gear_make"@) ==> metadata_of(a).gear_make
            == metadata_of(b).gear_make,
        entry(a, "gear_model"@) == entry(b, "gear_model"@) ==> metadata_of(a).gear_model
            == metadata_of(b).gear_model,
        entry(a, "gear_type"@) == entry(b, "gear_type"@) ==> metadata_of(a).gear_type
            == metadata_of(b).gear_type,
        entry(a, "tone_type"@) == entry(b, "tone_type"@) ==> metadata_of(a).tone_type
            == metadata_of(b).tone_type,
        entry(a, "trainer"@) == entry(b, "trainer"@) ==> metadata_of(a).trainer == metadata_of(
            b,
        ).trainer,
        entry(a, "date"@) == entry(b, "date"@) ==> metadata_of(a).date == metadata_of(b).date,
        entry(a, "training"@) == entry(b, "training"@) ==> metadata_of(a).training == metadata_of(
            b,
        ).training,
{
}

/// Whether two texts differ only in case and in `-` against `_`.
pub open spec fn same_letters(a: Seq<char>, b: Seq<char>) -> bool {
    &&& a.len() == b.len()
    &&& forall|i: int| 0 <= i < a.len() ==> folded(#[trigger] a[i]) == folded(b[i])
}

/// Whether a text is nothing but white space.
pub open spec fn blank(s: Seq<char>) -> bool {
    forall|i: int| 0 <= i < s.len() ==> white(#[trigger] s[i])
}

proof fn lemma_white_folded(c: char)
    ensures
        white(folded(c)) == white(c),
{
}

proof fn lemma_trim_start_letters(a: Seq<char>, b: Seq<char>)
    requires
        same_letters(a, b),
    ensures
        same_letters(trim_start(a), trim_start(b)),
    decreases a.len(),
{
    if a.len() > 0 {
        lemma_white_folded(a[0]);
        lemma_white_folded(b[0]);
        if white(a[0]) {
            assert forall|i: int| 0 <= i < a.drop_first().len() implies folded(
                #[trigger] a.drop_first()[i],
            ) == folded(b.drop_first()[i]) by {
                assert(folded(a[i + 1]) == folded(b[i + 1]));
            }
            lemma_trim_start_letters(a.drop_first(), b.drop_first());
        }
    }
}

proof fn lemma_trim_end_letters(a: Seq<char>, b: Seq<char>)
    requires
        same_letters(a, b),
    ensures
        same_letters(trim_end(a), trim_end(b)),
    decreases a.len(),
{
    if a.len() > 0 {
        let k = a.len() - 1;
        assert(folded(a[k]) == folded(b[k]));
        lemma_white_folded(a.last());
        lemma_white_folded(b.last());
        if white(a.last()) {
            lemma_trim_end_letters(a.drop_last(), b.drop_last());
        }
    }
}

/// Case, and `-` against `_`, do not matter to how a gear type is classified.
pub proof fn lemma_letters_insignificant(a: Seq<char>, b: Seq<char>)
    requires
        same_letters(a, b),
    ensures
        cab_in(a) == cab_in(b),
{
    lemma_trim_start_letters(a, b);
    lemma_trim_end_letters(trim_start(a), trim_start(b));
    assert(spelling(a) =~= spelling(b));
}

proof fn lemma_trim_start_padded(w: Seq<char>, s: Seq<char>)
    requires
        blank(w),
    ensures
        trim_start(w + s) == trim_start(s),
    decreases w.len(),
{
    if w.len() == 0 {
        assert(w + s =~= s);
    } else {
        assert((w + s)[0] == w[0]);
        assert((w + s).drop_first() =~= w.drop_first() + s);
        lemma_trim_start_padded(w.drop_first(), s);
    }
}

proof fn lemma_trim_end_padded(s: Seq<char>, w: Seq<char>)
    requires
        blank(w),
    ensures
        trim_end(s + w) == trim_end(s),
    decreases w.len(),
{
    if w.len() == 0 {
        assert(s + w =~= s);
    } else {
        assert((s + w).last() == w.last());
        assert((s + w).drop_last() =~= s + w.drop_last());
        lemma_trim_end_padded(s, w.drop_last());
    }
}

/// What is in front of trailing white space is trimmed as if it stood alone.
proof fn lemma_trim_start_before(s: Seq<char>, w: Seq<char>)
    requires
        blank(w),
    ensures
        trim_end(trim_start(s + w)) == trim_end(trim_start(s)),
    decreases s.len(),
{
    if s.len() == 0 {
        assert(s + w =~= w + Seq::empty());
        lemma_trim_start_padded(w, Seq::empty());
        assert(s =~= Seq::empty());
    } else {
        assert((s + w)[0] == s[0]);
        if white(s[0]) {
            assert((s + w).drop_first() =~= s.drop_first() + w);
            lemma_trim_start_before(s.drop_first(), w);
        } else {
            lemma_trim_end_padded(s, w);
        }
    }
}

/// Surrounding white space does not matter to how a gear type is classified.
pub proof fn lemma_padding_insignificant(before: Seq<char>, gear: Seq<char>, after: Seq<char>)
    requires
        blank(before),
        blank(after),
    ensures
        cab_in(before + gear + after) == cab_in(gear),
{
    assert(before + gear + after =~= before + (gear + after));
    lemma_trim_start_padded(before, gear + after);
    lemma_trim_start_before(gear, after);
}

fn copied_text(s: &Option<String>) -> (r: Option<String>)
    ensures
        chars_of(r) == chars_of(*s),
{
    match s {
        Some(t) => Some(t.clone()),
        None => None,
    }
}

impl Clone for Metadata {
    fn clone(&self) -> (r: Metadata)
        ensures
            r@ == self@,
    {
        let training = match &self.training {
            Some(t) => Some(t.clone()),
            None => None,
        };
        Metadata {
            loudness: self.loudness,
            gain: self.gain,
            input_level_dbu: self.input_level_dbu,
            output_level_dbu: self.output_level_dbu,
            name: copied_text(&self.name),
            modeled_by: copied_text(&self.modeled_by),
            gear_make: copied_text(&self.gear_make),
            gear_model: copied_text(&self.gear_model),
            gear_type: copied_text(&self.gear_type),
            tone_type: copied_text(&self.tone_type),
            trainer: copied_text(&self.trainer),
            date: self.date,
            training,
        }
    }
}

} // verus!
