//! What a built index holds.
use crate::index::builder::{all_chains, chains};
use crate::index::error::ErrorView;
use crate::index::laws::law_find_gives_what_was_pushed;
use crate::index::merge::{lemma_wsum_append, merged_index, same_sums};
use crate::index::mode::{mode_fault, IndexMode};
use crate::index::model::{
    exact, is_key, is_prefix, lemma_residual_of_all, lemma_wsum_mono, total, wsum, Log,
};
use crate::index::pending::log_ok;
use crate::index::node::NodeView;
use crate::index::reader::{find_key, open_index, ReaderView};
use crate::index::shard::strictly_ascending;
use crate::index::writer::{key_of, written_index, IndexWriteStats};
use crate::text::lemma_same_code_point;
use vstd::prelude::*;

verus! {

/// The key occurs in the text at this place.
pub open spec fn occurs_at(text: Seq<char>, key: Seq<char>, i: int) -> bool {
    0 <= i && i + key.len() <= text.len() && text.subrange(i, i + key.len()) == key
}

/// How often the key occurs in the text at the first `n` places.
pub open spec fn occurrences(text: Seq<char>, key: Seq<char>, n: nat) -> nat
    decreases n,
{
    if n == 0 {
        0
    } else {
        occurrences(text, key, (n - 1) as nat) + if occurs_at(text, key, n - 1) {
            1nat
        } else {
            0nat
        }
    }
}

/// How often the key occurs in the texts, each taken as often as its count says.
pub open spec fn weighted_occurrences(records: Seq<(Seq<char>, u64)>, key: Seq<char>) -> nat
    decreases records.len(),
{
    if records.len() == 0 {
        0
    } else {
        weighted_occurrences(records.drop_last(), key) + (records.last().1 as nat) * occurrences(
            records.last().0,
            key,
            records.last().0.len(),
        )
    }
}

/// The counts of the texts that are the key.
pub open spec fn count_of_text(records: Seq<(Seq<char>, u64)>, key: Seq<char>) -> nat
    decreases records.len(),
{
    if records.len() == 0 {
        0
    } else {
        count_of_text(records.drop_last(), key) + if records.last().0 == key {
            records.last().1 as nat
        } else {
            0
        }
    }
}

proof fn lemma_same_labels(a: Seq<char>, b: Seq<char>)
    ensures
        key_of(a) == key_of(b) <==> a == b,
{
    if key_of(a) == key_of(b) {
        assert(a.len() == key_of(a).len());
        assert forall|i: int| 0 <= i < a.len() implies a[i] == b[i] by {
            assert(key_of(a)[i] == key_of(b)[i]);
            lemma_same_code_point(a[i], b[i]);
        }
        assert(a =~= b);
    }
}

proof fn lemma_window_total(window: usize, text: Seq<char>, count: u64, key: Seq<char>, n: nat)
    requires
        n <= text.len(),
        0 < key.len() <= window,
    ensures
        total(
            chains(IndexMode::Ngrams { window_codepoints: window }, text, count).take(n as int),
            key_of(key),
        ) == count * occurrences(text, key, n),
    decreases n,
{
    let log = chains(IndexMode::Ngrams { window_codepoints: window }, text, count);
    let part = log.take(n as int);
    if n > 0 {
        lemma_window_total(window, text, count, key, (n - 1) as nat);
        assert(part.drop_last() =~= log.take(n - 1));
        let i = n - 1;
        let labels = key_of(text);
        let p = key_of(key);
        let chain = log[i].0;
        assert(part.last() == log[i]);
        if i + key.len() <= text.len() {
            lemma_same_labels(text.subrange(i, i + key.len()), key);
            assert(key_of(text.subrange(i, i + key.len())) =~= labels.subrange(
                i,
                i + key.len(),
            ));
            assert(chain.take(p.len() as int) =~= labels.subrange(i, i + key.len()));
        }
        assert(is_prefix(p, chain) == occurs_at(text, key, i));
        let before = occurrences(text, key, (n - 1) as nat);
        assert(count * (before + 1) == count * before + count) by (nonlinear_arith);
    } else {
        assert(part =~= Seq::empty());
        assert(count * 0 == 0) by (nonlinear_arith);
    }
}

/// The keys that begin with a key not longer than the window count how often
/// the key occurs.
pub proof fn law_windows_count_occurrences(
    window: usize,
    records: Seq<(Seq<char>, u64)>,
    key: Seq<char>,
)
    requires
        0 < key.len() <= window,
    ensures
        total(
            all_chains(IndexMode::Ngrams { window_codepoints: window }, records),
            key_of(key),
        ) == weighted_occurrences(records, key),
    decreases records.len(),
{
    let mode = IndexMode::Ngrams { window_codepoints: window };
    if records.len() > 0 {
        law_windows_count_occurrences(window, records.drop_last(), key);
        let (text, count) = records.last();
        let p = key_of(key);
        let added = chains(mode, text, count);
        lemma_window_total(window, text, count, key, text.len());
        assert(added.take(text.len() as int) =~= added);
        lemma_wsum_append(all_chains(mode, records.drop_last()), added, |k: Seq<u32>| is_prefix(p, k));
    }
}

/// The keys of whole texts count how often the text was given.
pub proof fn law_records_count_texts(records: Seq<(Seq<char>, u64)>, key: Seq<char>)
    requires
        key.len() > 0,
    ensures
        exact(all_chains(IndexMode::Records, records), key_of(key)) == count_of_text(
            records,
            key,
        ),
    decreases records.len(),
{
    let mode = IndexMode::Records;
    if records.len() > 0 {
        law_records_count_texts(records.drop_last(), key);
        let (text, count) = records.last();
        let p = key_of(key);
        let added = chains(mode, text, count);
        let f = |k: Seq<u32>| is_key(p, k);
        lemma_wsum_append(all_chains(mode, records.drop_last()), added, f);
        lemma_same_labels(text, key);
        if text.len() > 0 {
            assert(added.drop_last() =~= Seq::empty());
            assert(added.last() == (key_of(text), count));
            assert(wsum(added.drop_last(), f) == 0);
        } else {
            assert(added =~= Seq::empty());
            assert(wsum(added, f) == 0);
        }
    }
}

/// Finding a key in a built index gives the sum of the counts of all keys that
/// begin with it, and nothing where that is below the least count.
pub proof fn law_built_index_finds(
    mode: IndexMode,
    min: nat,
    records: Log,
    bytes: Seq<u8>,
    stats: IndexWriteStats,
    reader: ReaderView,
    key: Seq<char>,
)
    requires
        merged_index(mode, min, records, bytes, stats),
        open_index(bytes) == Ok::<ReaderView, ErrorView>(reader),
        mode_fault(mode) is None,
        mode is Records ==> min == 1,
    ensures
        if key.len() == 0 || total(records, key_of(key)) >= min {
            find_key(reader, key) matches Ok(Some(node)) && node.subtree == total(
                records,
                key_of(key),
            ) && (mode is Records && key.len() > 0 ==> node.terminal == exact(
                records,
                key_of(key),
            ))
        } else {
            find_key(reader, key) == Ok::<Option<NodeView>, ErrorView>(None)
        },
{
    let log = choose|log: Log|
        {
            &&& strictly_ascending(log)
            &&& log_ok(log)
            &&& same_sums(log, records)
            &&& #[trigger] written_index(mode, min, log, bytes, stats)
        };
    let p = key_of(key);
    law_find_gives_what_was_pushed(mode, min, log, bytes, stats, reader, key);
    let f = |k: Seq<u32>| is_prefix(p, k);
    let g = |k: Seq<u32>| is_key(p, k);
    assert(wsum(log, f) == wsum(records, f));
    assert(wsum(log, g) == wsum(records, g));
    if mode is Records {
        lemma_residual_of_all(log, p);
    }
}

/// An index of n-grams finds each key not longer than its window as often as it
/// occurs in the texts.
pub proof fn law_ngram_index_counts_occurrences(
    window: usize,
    min: nat,
    records: Seq<(Seq<char>, u64)>,
    bytes: Seq<u8>,
    stats: IndexWriteStats,
    reader: ReaderView,
    key: Seq<char>,
)
    requires
        merged_index(
            IndexMode::Ngrams { window_codepoints: window },
            min,
            all_chains(IndexMode::Ngrams { window_codepoints: window }, records),
            bytes,
            stats,
        ),
        open_index(bytes) == Ok::<ReaderView, ErrorView>(reader),
        mode_fault(IndexMode::Ngrams { window_codepoints: window }) is None,
        0 < key.len() <= window,
    ensures
        if weighted_occurrences(records, key) >= min {
            find_key(reader, key) matches Ok(Some(node)) && node.subtree == weighted_occurrences(
                records,
                key,
            )
        } else {
            find_key(reader, key) == Ok::<Option<NodeView>, ErrorView>(None)
        },
{
    let mode = IndexMode::Ngrams { window_codepoints: window };
    law_windows_count_occurrences(window, records, key);
    law_built_index_finds(mode, min, all_chains(mode, records), bytes, stats, reader, key);
}

/// An index of whole texts finds each text with the sum of its counts.
pub proof fn law_record_index_counts_texts(
    records: Seq<(Seq<char>, u64)>,
    bytes: Seq<u8>,
    stats: IndexWriteStats,
    reader: ReaderView,
    key: Seq<char>,
)
    requires
        merged_index(IndexMode::Records, 1, all_chains(IndexMode::Records, records), bytes, stats),
        open_index(bytes) == Ok::<ReaderView, ErrorView>(reader),
        key.len() > 0,
    ensures
        count_of_text(records, key) > 0 ==> (find_key(reader, key) matches Ok(Some(node))
            && node.terminal == count_of_text(records, key)),
        match find_key(reader, key) {
            Ok(Some(node)) => node.terminal == count_of_text(records, key),
            Ok(None) => count_of_text(records, key) == 0,
            Err(_) => false,
        },
{
    let log = all_chains(IndexMode::Records, records);
    let p = key_of(key);
    law_records_count_texts(records, key);
    law_built_index_finds(IndexMode::Records, 1, log, bytes, stats, reader, key);
    let f = |k: Seq<u32>| is_prefix(p, k);
    let g = |k: Seq<u32>| is_key(p, k);
    assert forall|k: Seq<u32>| #[trigger] g(k) implies f(k) by {
        assert(k.take(k.len() as int) =~= k);
    }
    lemma_wsum_mono(log, g, f);
}

} // verus!
