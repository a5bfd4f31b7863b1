//! What the lines of the word list and of the comments give.
use crate::corpus::csv::Row;
use crate::corpus::field_laws::{social_records, taken};
use crate::corpus::fields::with_logical;
use crate::corpus::preparer::{all_runs, with_field, without_address, Prepared};
use crate::corpus::print_laws::{lemma_records_of_field, lemma_records_of_runs};
use crate::corpus::source::{
    message_column, message_head, with_list_line, with_row, with_rows, with_word_line,
    without_marks, SourceView,
};
use crate::corpus::types::lowered;
use crate::corpus::wiki_laws::without;
use crate::text::{lemma_first_place, trimmed, white};
use vstd::prelude::*;
use vstd::string::*;

verus! {

/// A text with no white space around it.
pub open spec fn bare(s: Seq<char>) -> bool {
    s.len() > 0 && !white(s[0]) && !white(s.last())
}

/// What is known of a word list between its back quotes, and behind them.
pub open spec fn list_at(x: SourceView, opened: bool, closed: bool) -> SourceView {
    SourceView { opened, closed, ..x }
}

/// Each line between the back quotes of the word list is taken with weight 20.
pub proof fn law_words_are_taken(
    x: SourceView,
    p: Prepared,
    source: Seq<char>,
    number: u64,
    words: Seq<char>,
)
    requires
        x.opened,
        !x.closed,
        bare(words),
        without(words, '`'),
    ensures
        with_list_line(x, p, source, number, words).0 == x,
        with_list_line(x, p, source, number, words).1.records == p.records + taken(words, 20),
{
    lemma_first_place(words, '`', words.len() as int);
    assert(trimmed(words) == words);
    lemma_records_of_field(with_logical(p), words, 20);
}

/// The word list begins at the first back quote and ends at the second. What stands before
/// the first is not taken, and what stands between them is.
pub proof fn law_word_list_stands_between_back_quotes(
    x: SourceView,
    p: Prepared,
    source: Seq<char>,
    number: u64,
    ahead: Seq<char>,
    words: Seq<char>,
    rest: Seq<char>,
)
    requires
        !x.opened,
        !x.closed,
        without(ahead, '`'),
        bare(words),
        without(words, '`'),
    ensures
        ({
            let (y, q) = with_list_line(x, p, source, number, ahead);
            y == x && q.records == p.records
        }),
        ({
            let (y, q) = with_list_line(x, p, source, number, ahead + seq!['`'] + words);
            y == list_at(x, true, false) && q.records == p.records + taken(words, 20)
        }),
        ({
            let (y, q) = with_list_line(
                x,
                p,
                source,
                number,
                ahead + seq!['`'] + words + seq!['`'] + rest,
            );
            y == list_at(x, true, true) && q.records == p.records + taken(words, 20)
        }),
        ({
            let (y, q) = with_list_line(
                list_at(x, true, false),
                p,
                source,
                number,
                words + seq!['`'] + rest,
            );
            y == list_at(x, true, true) && q.records == p.records + taken(words, 20)
        }),
{
    let n = ahead.len() as int;
    lemma_first_place(ahead, '`', n);
    let one = ahead + seq!['`'] + words;
    assert(forall|k: int| 0 <= k < n ==> one[k] == ahead[k]);
    lemma_first_place(one, '`', n);
    assert(one.skip(n + 1) =~= words);
    lemma_first_place(words, '`', words.len() as int);
    assert(trimmed(words) == words);
    lemma_records_of_field(with_logical(p), words, 20);
    let two = words + seq!['`'] + rest;
    let m = words.len() as int;
    assert(forall|k: int| 0 <= k < m ==> two[k] == words[k]);
    lemma_first_place(two, '`', m);
    assert(two.take(m) =~= words);
    let all = ahead + seq!['`'] + words + seq!['`'] + rest;
    assert(forall|k: int| 0 <= k < n ==> all[k] == ahead[k]);
    lemma_first_place(all, '`', n);
    assert(all.skip(n + 1) =~= two);
    lemma_ended(x, p, source, number, words, rest);
    lemma_ended(list_at(x, true, false), p, source, number, words, rest);
}

proof fn lemma_ended(
    x: SourceView,
    p: Prepared,
    source: Seq<char>,
    number: u64,
    words: Seq<char>,
    rest: Seq<char>,
)
    requires
        bare(words),
        without(words, '`'),
    ensures
        ({
            let (y, q) = with_word_line(x, p, source, number, words + seq!['`'] + rest);
            y == list_at(x, true, true) && q.records == p.records + taken(words, 20)
        }),
{
    let two = words + seq!['`'] + rest;
    let m = words.len() as int;
    assert(forall|k: int| 0 <= k < m ==> two[k] == words[k]);
    lemma_first_place(two, '`', m);
    assert(two.take(m) =~= words);
    assert(trimmed(words) == words);
    assert forall|o: Prepared| o.records == p.records implies #[trigger] with_field(
        with_logical(o),
        words,
        20,
        false,
    ).records == p.records + taken(words, 20) by {
        lemma_records_of_field(with_logical(o), words, 20);
    }
}

/// The head of the column with the messages, in whatever case, with a byte order mark
/// before it or not.
pub open spec fn names_messages(head: Seq<char>) -> bool {
    lowered(head) == "message"@ || head.len() > 0 && head[0] == '\u{FEFF}' && lowered(head.skip(1))
        == "message"@
}

proof fn lemma_names_messages(head: Seq<char>)
    requires
        names_messages(head),
    ensures
        message_head(head),
{
    reveal_strlit("message");
    let name = if lowered(head) == "message"@ {
        head
    } else {
        head.skip(1)
    };
    assert(lowered(name) == "message"@);
    assert(lowered(name).len() == name.len());
    assert(lowered(name)[0] == 'm' && lowered(name)[6] == 'e');
    assert(!white(name[0]) && !white(name.last()));
    assert(name[0] != '\u{FEFF}');
    assert(without_marks(name) == name);
    assert(without_marks(head) == name);
    assert(trimmed(name) == name);
}

proof fn lemma_column(row: Row, c: int)
    requires
        0 <= c < row.len(),
        message_head(row[c]),
        forall|i: int| 0 <= i < c ==> !message_head(#[trigger] row[i]),
    ensures
        message_column(row) == Some(c),
    decreases row.len(),
{
    if c > 0 {
        let rest = row.skip(1);
        assert(!message_head(row[0]));
        assert forall|i: int| 0 <= i < c - 1 implies !message_head(#[trigger] rest[i]) by {
            assert(rest[i] == row[i + 1]);
        }
        lemma_column(rest, c - 1);
    }
}

/// What the messages of rows give.
pub open spec fn message_records(rows: Seq<Row>, c: int) -> Seq<(Seq<char>, u64)>
    decreases rows.len(),
{
    if rows.len() == 0 {
        Seq::empty()
    } else {
        message_records(rows.drop_last(), c) + social_records(rows.last()[c])
    }
}

/// Of the rows of comments the first names the columns, and each of the others gives what
/// it has in the column of the messages, as a social text; the other columns give nothing.
pub proof fn law_rows_give_their_messages(
    x: SourceView,
    p: Prepared,
    source: Seq<char>,
    number: u64,
    head: Row,
    rows: Seq<Row>,
    c: int,
)
    requires
        x.column is None,
        0 <= c < head.len(),
        names_messages(head[c]),
        forall|i: int| 0 <= i < c ==> !message_head(#[trigger] head[i]),
        forall|i: int| 0 <= i < rows.len() ==> c < (#[trigger] rows[i]).len(),
    ensures
        ({
            let all = seq![head] + rows;
            let (y, q) = with_rows(x, p, source, number, all, all.len());
            q.records == p.records + message_records(rows, c)
        }),
{
    lemma_names_messages(head[c]);
    lemma_column(head, c);
    lemma_rows(x, p, source, number, head, rows, c, rows.len());
    assert(rows.take(rows.len() as int) =~= rows);
}

proof fn lemma_rows(
    x: SourceView,
    p: Prepared,
    source: Seq<char>,
    number: u64,
    head: Row,
    rows: Seq<Row>,
    c: int,
    n: nat,
)
    requires
        x.column is None,
        0 <= c,
        message_column(head) == Some(c),
        n <= rows.len(),
        forall|i: int| 0 <= i < rows.len() ==> c < (#[trigger] rows[i]).len(),
    ensures
        ({
            let (y, q) = with_rows(x, p, source, number, seq![head] + rows, n + 1);
            y.column == Some(c) && q.records == p.records + message_records(rows.take(n as int), c)
        }),
    decreases n,
{
    let all = seq![head] + rows;
    if n > 0 {
        lemma_rows(x, p, source, number, head, rows, c, (n - 1) as nat);
        let (y, q) = with_rows(x, p, source, number, all, n);
        assert(all[n as int] == rows[n - 1]);
        let text = rows[n - 1][c];
        let runs = all_runs(without_address(text), true);
        lemma_records_of_runs(with_logical(q), runs, 1);
        assert(with_field(with_logical(q), text, 1, true).records == q.records + social_records(
            text,
        ));
        assert(rows.take(n as int).drop_last() =~= rows.take(n - 1));
        assert(rows.take(n as int).last() == rows[n - 1]);
        assert(p.records + message_records(rows.take(n - 1), c) + social_records(text) =~= p.records
            + message_records(rows.take(n as int), c));
    } else {
        assert(with_rows(x, p, source, number, all, 0) == (x, p));
        assert(all[0] == head);
        assert(with_rows(x, p, source, number, all, 1) == with_row(x, p, source, number, head));
        assert(rows.take(0) =~= Seq::empty());
        assert(p.records + message_records(rows.take(0), c) =~= p.records);
    }
}

} // verus!
