//! How much there is to read of shards, and how much has been read.
use crate::index::merge_text::TextShard;
use crate::index::shard::raw_lines;
use crate::text::{lemma_utf8_size_push, utf8_size};
use vstd::prelude::*;

verus! {

/// A number as far as it can be counted.
pub open spec fn capped(n: nat) -> u64 {
    if n > u64::MAX {
        u64::MAX
    } else {
        n as u64
    }
}

/// The bytes of all lines.
pub open spec fn lines_size(lines: Seq<Seq<char>>) -> nat
    decreases lines.len(),
{
    if lines.len() == 0 {
        0
    } else {
        lines_size(lines.drop_last()) + utf8_size(lines.last())
    }
}

/// The bytes of all shards.
pub open spec fn shards_size(shards: Seq<TextShard>) -> nat
    decreases shards.len(),
{
    if shards.len() == 0 {
        0
    } else {
        shards_size(shards.drop_last()) + utf8_size(shards.last().text@)
    }
}

/// The bytes of the lines before a place of each of the first `n` shards.
pub open spec fn size_before(shards: Seq<TextShard>, at: Seq<usize>, n: nat) -> nat
    decreases n,
{
    if n == 0 {
        0
    } else {
        size_before(shards, at, (n - 1) as nat) + lines_size(
            raw_lines(shards[n - 1].text@).take(at[n - 1] as int),
        )
    }
}

pub proof fn lemma_lines_push(lines: Seq<Seq<char>>, line: Seq<char>)
    ensures
        lines_size(lines.push(line)) == lines_size(lines) + utf8_size(line),
{
    assert(lines.push(line).drop_last() =~= lines);
}

/// The lines of a text are the whole text.
pub proof fn lemma_raw_lines_size(s: Seq<char>)
    ensures
        lines_size(raw_lines(s)) == utf8_size(s),
        s.len() > 0 ==> raw_lines(s).len() > 0,
    decreases s.len(),
{
    if s.len() > 0 {
        let before = raw_lines(s.drop_last());
        lemma_raw_lines_size(s.drop_last());
        if s.len() > 1 && s[s.len() - 2] != '\n' {
            assert(s.drop_last().len() > 0);
            lemma_lines_push(before.drop_last(), before.last().push(s.last()));
            lemma_utf8_size_push(before.last(), s.last());
        } else {
            let none = Seq::<char>::empty();
            lemma_lines_push(before, seq![s.last()]);
            lemma_utf8_size_push(none, s.last());
            assert(none.push(s.last()) =~= seq![s.last()]);
        }
    }
}

/// One line more of one shard.
pub proof fn lemma_one_line(
    shards: Seq<TextShard>,
    a: Seq<usize>,
    b: Seq<usize>,
    i: int,
    n: nat,
)
    requires
        a.len() == b.len() == shards.len(),
        n <= shards.len(),
        0 <= i < shards.len(),
        forall|k: int| 0 <= k < shards.len() && k != i ==> a[k] == b[k],
        a[i] < raw_lines(shards[i].text@).len(),
        b[i] == a[i] + 1,
    ensures
        size_before(shards, b, n) == size_before(shards, a, n) + if i < n {
            utf8_size(raw_lines(shards[i].text@)[a[i] as int])
        } else {
            0
        },
    decreases n,
{
    if n > 0 {
        lemma_one_line(shards, a, b, i, (n - 1) as nat);
        if i == n - 1 {
            let lines = raw_lines(shards[i].text@);
            assert(lines.take(b[i] as int) =~= lines.take(a[i] as int).push(lines[a[i] as int]));
            lemma_lines_push(lines.take(a[i] as int), lines[a[i] as int]);
        }
    }
}

/// Before the first lines there is nothing.
pub proof fn lemma_nothing_before(shards: Seq<TextShard>, at: Seq<usize>, n: nat)
    requires
        at.len() == shards.len(),
        n <= shards.len(),
        forall|k: int| 0 <= k < n ==> #[trigger] at[k] == 0,
    ensures
        size_before(shards, at, n) == 0,
    decreases n,
{
    if n > 0 {
        lemma_nothing_before(shards, at, (n - 1) as nat);
        assert(at[n - 1] == 0);
        assert(raw_lines(shards[n - 1].text@).take(0) =~= Seq::empty());
    }
}

/// Where every line has been read, everything has been.
pub proof fn lemma_everything_before(shards: Seq<TextShard>, at: Seq<usize>, n: nat)
    requires
        at.len() == shards.len(),
        n <= shards.len(),
        forall|k: int| 0 <= k < n ==> #[trigger] at[k] == raw_lines(shards[k].text@).len(),
    ensures
        size_before(shards, at, n) == shards_size(shards.take(n as int)),
    decreases n,
{
    if n > 0 {
        lemma_everything_before(shards, at, (n - 1) as nat);
        let lines = raw_lines(shards[n - 1].text@);
        assert(at[n - 1] == lines.len());
        assert(lines.take(at[n - 1] as int) =~= lines);
        lemma_raw_lines_size(shards[n - 1].text@);
        assert(shards.take(n as int).drop_last() =~= shards.take(n - 1));
    } else {
        assert(shards.take(0) =~= Seq::empty());
    }
}

/// What stands before a place of each shard is within the shards.
pub proof fn lemma_size_within(shards: Seq<TextShard>, at: Seq<usize>, n: nat)
    requires
        at.len() == shards.len(),
        n <= shards.len(),
        forall|k: int| 0 <= k < n ==> (#[trigger] at[k]) <= raw_lines(shards[k].text@).len(),
    ensures
        size_before(shards, at, n) <= shards_size(shards.take(n as int)),
    decreases n,
{
    if n > 0 {
        lemma_size_within(shards, at, (n - 1) as nat);
        let lines = raw_lines(shards[n - 1].text@);
        assert(at[n - 1] <= lines.len());
        lemma_lines_within(lines, at[n - 1] as nat);
        lemma_raw_lines_size(shards[n - 1].text@);
        assert(shards.take(n as int).drop_last() =~= shards.take(n - 1));
    } else {
        assert(shards.take(0) =~= Seq::empty());
    }
}

proof fn lemma_lines_within(lines: Seq<Seq<char>>, n: nat)
    requires
        n <= lines.len(),
    ensures
        lines_size(lines.take(n as int)) <= lines_size(lines),
    decreases lines.len() - n,
{
    if n < lines.len() {
        lemma_lines_within(lines, n + 1);
        assert(lines.take(n as int + 1) =~= lines.take(n as int).push(lines[n as int]));
        lemma_lines_push(lines.take(n as int), lines[n as int]);
    } else {
        assert(lines.take(n as int) =~= lines);
    }
}

} // verus!
