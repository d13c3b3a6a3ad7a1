//! What is read of the text of a file: its known members and elements in their order, and
//! the places that complaints name.

use vstd::prelude::*;
use crate::document::{
    blank, elements_reading, holds, last_line, line_ends, members_reading, trimmed, upto,
    value_reading, Entry,
};
use crate::json::JsonTree;
use crate::parser::records::{nam_record, unknown};

verus! {

// ---- Members ----

/// Whether a name is one of those that a file has a field for.
pub open spec fn in_file(name: Seq<char>) -> bool {
    name == "version"@ || name == "architecture"@ || name == "config"@ || name == "weights"@ || name
        == "sample_rate"@ || name == "metadata"@
}

/// How many of the first `k` members have such a name.
pub open spec fn in_file_before(es: Seq<Entry>, k: nat) -> nat
    decreases k,
{
    if k == 0 {
        0
    } else {
        in_file_before(es, (k - 1) as nat) + if in_file(es[k - 1].name) {
            1nat
        } else {
            0
        }
    }
}

proof fn lemma_in_file(name: Seq<char>)
    ensures
        in_file(name) == !unknown(name, nam_record().fields),
{
    let fields = nam_record().fields;
    if in_file(name) {
        assert(fields[0].0 == name || fields[1].0 == name || fields[2].0 == name || fields[3].0
            == name || fields[4].0 == name || fields[5].0 == name);
    }
}

proof fn lemma_before_grows(es: Seq<Entry>, i: nat, k: nat)
    requires
        i <= k,
    ensures
        in_file_before(es, i) <= in_file_before(es, k),
    decreases k,
{
    if i < k {
        lemma_before_grows(es, i, (k - 1) as nat);
    }
}

/// Of the members of a file those are read that it has a field for, and no others: each
/// under its name, as what its own text holds, and in the order in which they stand there.
pub proof fn lemma_members_are_read(
    text: Seq<char>,
    inner: Seq<char>,
    es: Seq<Entry>,
    k: nat,
    i: int,
)
    requires
        k <= es.len(),
        0 <= i < k,
        members_reading(text, inner, es, k) is Ok,
    ensures
        ({
            let ms = members_reading(text, inner, es, k)->Ok_0;
            &&& ms.len() == in_file_before(es, k)
            &&& in_file(es[i].name) ==> {
                let at = in_file_before(es, i as nat) as int;
                &&& at < ms.len()
                &&& ms[at].0 == es[i].name
                &&& value_reading(es[i].value) == Ok::<JsonTree, Seq<char>>(ms[at].1)
            }
        }),
    decreases k,
{
    lemma_in_file(es[k - 1].name);
    lemma_members_counted(text, inner, es, (k - 1) as nat);
    if i < k - 1 {
        lemma_members_are_read(text, inner, es, (k - 1) as nat, i);
        lemma_before_grows(es, (i + 1) as nat, (k - 1) as nat);
    }
}

proof fn lemma_members_counted(text: Seq<char>, inner: Seq<char>, es: Seq<Entry>, k: nat)
    requires
        k <= es.len(),
    ensures
        members_reading(text, inner, es, k) is Ok ==> members_reading(
            text,
            inner,
            es,
            k,
        )->Ok_0.len() == in_file_before(es, k),
    decreases k,
{
    if k > 0 {
        lemma_in_file(es[k - 1].name);
        lemma_members_counted(text, inner, es, (k - 1) as nat);
    }
}

/// No name is read twice: of a file that names a field again nothing is read.
pub proof fn lemma_members_stand_once(
    text: Seq<char>,
    inner: Seq<char>,
    es: Seq<Entry>,
    k: nat,
    i: int,
    j: int,
)
    requires
        k <= es.len(),
        0 <= i < j < k,
        es[i].name == es[j].name,
        in_file(es[i].name),
    ensures
        members_reading(text, inner, es, k) is Err,
    decreases k,
{
    if j < k - 1 {
        lemma_members_stand_once(text, inner, es, (k - 1) as nat, i, j);
    } else if members_reading(text, inner, es, k) is Ok {
        lemma_in_file(es[j].name);
        lemma_members_are_read(text, inner, es, (k - 1) as nat, i);
        let before = members_reading(text, inner, es, (k - 1) as nat)->Ok_0;
        assert(before[in_file_before(es, i as nat) as int].0 == es[j].name);
        assert(holds(before, es[j].name));
    }
}

/// The elements of a file that is a list are read each as what its own text holds, and in
/// the order in which they stand there.
pub proof fn lemma_elements_are_read(
    text: Seq<char>,
    inner: Seq<char>,
    es: Seq<Entry>,
    k: nat,
    i: int,
)
    requires
        k <= es.len(),
        0 <= i < k,
        elements_reading(text, inner, es, k) is Ok,
    ensures
        ({
            let vs = elements_reading(text, inner, es, k)->Ok_0;
            &&& vs.len() == k
            &&& value_reading(es[i].value) == Ok::<JsonTree, Seq<char>>(vs[i])
        }),
    decreases k,
{
    lemma_elements_counted(text, inner, es, (k - 1) as nat);
    if i < k - 1 {
        lemma_elements_are_read(text, inner, es, (k - 1) as nat, i);
    }
}

proof fn lemma_elements_counted(text: Seq<char>, inner: Seq<char>, es: Seq<Entry>, k: nat)
    ensures
        elements_reading(text, inner, es, k) is Ok ==> elements_reading(
            text,
            inner,
            es,
            k,
        )->Ok_0.len() == k,
    decreases k,
{
    if k > 0 {
        lemma_elements_counted(text, inner, es, (k - 1) as nat);
    }
}

// ---- Places ----

/// The blanks before a text are skipped, and nothing else.
pub proof fn lemma_blanks_skipped(blanks: Seq<char>, text: Seq<char>)
    requires
        forall|i: int|
            0 <= i < blanks.len() ==> #[trigger] blanks[i] == ' ' || blanks[i] == '\n' || blanks[i]
                == '\t' || blanks[i] == '\r',
        text.len() > 0 ==> text[0] != ' ' && text[0] != '\n' && text[0] != '\t' && text[0] != '\r',
    ensures
        trimmed(blanks + text) == text,
    decreases blanks.len(),
{
    if blanks.len() == 0 {
        assert(blanks + text =~= text);
    } else {
        assert(blank(blanks[0]));
        assert((blanks + text).drop_first() =~= blanks.drop_first() + text);
        lemma_blanks_skipped(blanks.drop_first(), text);
    }
}

/// The lines before a place are counted by their ends, in the text before it and in no
/// other.
pub proof fn lemma_lines_add_up(a: Seq<char>, b: Seq<char>)
    ensures
        line_ends(a + b) == line_ends(a) + line_ends(b),
        line_ends(seq!['\n']) == 1,
        (forall|i: int| 0 <= i < b.len() ==> #[trigger] b[i] != '\n') ==> line_ends(b) == 0,
        upto(a + b, b) == a,
    decreases b.len(),
{
    assert(upto(a + b, b) =~= a);
    assert(seq!['\n'].drop_last() =~= Seq::<char>::empty());
    reveal_with_fuel(line_ends, 2);
    if b.len() == 0 {
        assert(a + b =~= a);
    } else {
        lemma_lines_add_up(a, b.drop_last());
        assert((a + b).drop_last() =~= a + b.drop_last());
        if forall|i: int| 0 <= i < b.len() ==> #[trigger] b[i] != '\n' {
            assert forall|i: int| 0 <= i < b.drop_last().len() implies #[trigger] b.drop_last()[i]
                != '\n' by {
                assert(b.drop_last()[i] == b[i]);
            }
            assert(b[b.len() - 1] != '\n');
        }
    }
}

/// The line of a place is what stands behind the last line end before it, and all that
/// stands before it where there is none.
pub proof fn lemma_line_of_a_place(a: Seq<char>, line: Seq<char>)
    requires
        forall|i: int| 0 <= i < line.len() ==> #[trigger] line[i] != '\n',
    ensures
        last_line(a.push('\n') + line) == line,
        last_line(line) == line,
    decreases line.len(),
{
    if line.len() == 0 {
        assert(a.push('\n') + line =~= a.push('\n'));
        assert(last_line(line) =~= line);
        assert(last_line(a.push('\n')) =~= line);
    } else {
        let front = line.drop_last();
        assert forall|i: int| 0 <= i < front.len() implies #[trigger] front[i] != '\n' by {
            assert(front[i] == line[i]);
        }
        lemma_line_of_a_place(a, front);
        assert((a.push('\n') + line).drop_last() =~= a.push('\n') + front);
        assert(line[line.len() - 1] != '\n');
        assert(front.push(line.last()) =~= line);
    }
}

} // verus!
