//! Small pieces of text.

use vstd::prelude::*;

verus! {

/// `n` in decimal.
pub open spec fn decimal(n: nat) -> Seq<char>
    decreases n,
{
    if n < 10 {
        seq![digit(n)]
    } else {
        decimal(n / 10).push(digit(n % 10))
    }
}

/// The character that stands for a number below ten.
pub open spec fn digit(n: nat) -> char {
    (('0' as u32) + n) as char
}

fn digit_text(n: usize) -> (r: &'static str)
    requires
        n < 10,
    ensures
        r@ == seq![digit(n as nat)],
{
    proof {
        reveal_strlit("0");
        reveal_strlit("1");
        reveal_strlit("2");
        reveal_strlit("3");
        reveal_strlit("4");
        reveal_strlit("5");
        reveal_strlit("6");
        reveal_strlit("7");
        reveal_strlit("8");
        reveal_strlit("9");
    }
    let r: &'static str = if n == 0 {
        "0"
    } else if n == 1 {
        "1"
    } else if n == 2 {
        "2"
    } else if n == 3 {
        "3"
    } else if n == 4 {
        "4"
    } else if n == 5 {
        "5"
    } else if n == 6 {
        "6"
    } else if n == 7 {
        "7"
    } else if n == 8 {
        "8"
    } else {
        "9"
    };
    assert(r@ =~= seq![digit(n as nat)]);
    r
}

/// A text that grows from left to right.
pub struct Text {
    buf: String,
}

impl Text {
    pub closed spec fn view(&self) -> Seq<char> {
        self.buf@
    }

    /// An empty text.
    pub fn new() -> (r: Text)
        ensures
            r@ == Seq::<char>::empty(),
    {
        let r = Text { buf: String::new() };
        assert(r@ =~= Seq::<char>::empty());
        r
    }

    /// `self` followed by `s`.
    pub fn and(self, s: &str) -> (r: Text)
        ensures
            r@ == self@ + s@,
    {
        let mut buf = self.buf;
        buf.append(s);
        Text { buf }
    }

    /// `self` followed by `n` in decimal.
    pub fn and_long(self, n: u128) -> (r: Text)
        ensures
            r@ == self@ + decimal(n as nat),
        decreases n,
    {
        if n < 10 {
            self.and(digit_text(n as usize))
        } else {
            let r = self.and_long(n / 10).and(digit_text((n % 10) as usize));
            assert(r@ =~= self@ + decimal(n as nat));
            r
        }
    }

    /// `self` followed by `n` in decimal.
    pub fn and_number(self, n: usize) -> (r: Text)
        ensures
            r@ == self@ + decimal(n as nat),
    {
        self.and_long(n as u128)
    }

    /// The text itself.
    pub fn done(self) -> (r: String)
        ensures
            r@ == self@,
    {
        self.buf
    }
}

/// Whether two texts are the same.
pub fn same(a: &str, b: &str) -> (r: bool)
    ensures
        r == (a@ == b@),
{
    a.to_owned() == b.to_owned()
}

/// Calls `str::strip_prefix` with a character: what stands behind it, of a text that
/// begins with it.
#[verifier::external_body]
pub(crate) fn strip(text: &str, mark: char) -> (r: Option<&str>)
    ensures
        match r {
            Some(rest) => text@.len() > 0 && text@[0] == mark && rest@ == text@.drop_first(),
            None => text@.len() == 0 || text@[0] != mark,
        },
{
    text.strip_prefix(mark)
}

/// How the standard library's `Debug` shows a text: quoted, with escapes.
pub uninterp spec fn debug_text(s: Seq<char>) -> Seq<char>;

/// Shows a text by `<str as Debug>::fmt`, through `format!("{:?}")`. The result is a
/// function of the text alone, here called [`debug_text`]; nothing else is said of it.
#[verifier::external_body]
fn show(s: &str) -> (r: String)
    ensures
        r@ == debug_text(s@),
{
    format!("{:?}", s)
}

impl Text {
    /// `self` followed by `s` as `Debug` shows it.
    pub fn and_quoted(self, s: &str) -> (r: Text)
        ensures
            r@ == self@ + debug_text(s@),
    {
        let shown = show(s);
        self.and(shown.as_str())
    }
}

} // verus!
