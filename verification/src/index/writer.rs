//! The streaming writer of an index.
use crate::index::codec::HEADER_LEN;
use crate::index::error::{ErrorView, IndexError};
use crate::index::header::{header_bytes, lemma_header_len, write_header, zeros, Header};
use crate::index::layout::{
    forest_bytes, forest_fits, kids_of, lemma_child_within, lemma_forest_push_all, trie_at,
    trie_bytes, trie_fits,
};
use crate::index::mode::{mode_fault, IndexMode};
use crate::index::model::{
    forest_freq, forest_nodes, freq, is_prefix, lemma_forest_freq_push, lemma_total_mono,
    lemma_total_push, lemma_wsum_mono, node_total, represents, total, Log, Trie,
};
use crate::index::node::{kids_total, node_bytes, write_node, WrittenChild};
use crate::index::pending::{
    held, lemma_fresh_prefix, lemma_label_below, lemma_level_closed, lemma_level_fresh,
    lemma_level_kept, lemma_level_open, lemma_level_pruned, lemma_level_push_key, lemma_placed_same,
    lemma_total_witness, lemma_written_within, level_ok, log_below, log_ok, open_at, path_ok,
    placed, scalars, written, PendingNode, Tries,
};
use crate::ordered::{lemma_lex_by_length, lemma_lex_total_order, lex_leq, slice_is_leq};
use crate::text::{chars_of, hexadecimal, hexadecimal_of, join3, scalar};
use vstd::prelude::*;

verus! {

/// What a writer has written.
#[derive(Clone, Copy, Debug, PartialEq, Eq, Structural)]
pub struct IndexWriteStats {
    pub node_count: u64,
    /// Number of trie nodes that were omitted for their small frequency.
    pub pruned_node_count: u64,
    /// Number of distinct keys supplied.
    pub key_count: u64,
    pub root_subtree: u64,
    pub bytes_written: u64,
}

impl Default for IndexWriteStats {
    fn default() -> (r: Self)
        ensures
            r == (IndexWriteStats {
                node_count: 0,
                pruned_node_count: 0,
                key_count: 0,
                root_subtree: 0,
                bytes_written: 0,
            }),
    {
        IndexWriteStats {
            node_count: 0,
            pruned_node_count: 0,
            key_count: 0,
            root_subtree: 0,
            bytes_written: 0,
        }
    }
}

/// How many labels two keys share at their start.
pub open spec fn shared(a: Seq<u32>, b: Seq<u32>) -> nat
    decreases a.len(),
{
    if a.len() == 0 || b.len() == 0 || a[0] != b[0] {
        0
    } else {
        1 + shared(a.skip(1), b.skip(1))
    }
}

/// The last key of a log.
pub open spec fn last_key(log: Log) -> Seq<u32> {
    if log.len() == 0 {
        Seq::empty()
    } else {
        log.last().0
    }
}

/// The number of distinct keys of a sorted log.
pub open spec fn distinct_keys(log: Log) -> nat
    decreases log.len(),
{
    if log.len() == 0 {
        0
    } else {
        distinct_keys(log.drop_last()) + if log.last().0 != last_key(log.drop_last()) {
            1nat
        } else {
            0
        }
    }
}

/// The number of distinct prefixes, the empty one left out, of the keys of a
/// sorted log.
pub open spec fn distinct_prefixes(log: Log) -> nat
    decreases log.len(),
{
    if log.len() == 0 {
        0
    } else {
        distinct_prefixes(log.drop_last()) + (log.last().0.len() - shared(
            last_key(log.drop_last()),
            log.last().0,
        )) as nat
    }
}

/// The keys of a log never descend.
pub open spec fn log_sorted(log: Log) -> bool {
    forall|i: int, j: int|
        0 <= i < j < log.len() ==> lex_leq::<u32>((#[trigger] log[i]).0, (#[trigger] log[j]).0)
}

/// The first number of the key that is no Unicode scalar value.
pub open spec fn first_non_scalar(key: Seq<u32>) -> Option<u32>
    decreases key.len(),
{
    if key.len() == 0 {
        None
    } else if !scalar(key[0] as int) {
        Some(key[0])
    } else {
        first_non_scalar(key.skip(1))
    }
}

/// Why a key cannot be pushed behind `last`, if it cannot.
pub open spec fn push_fault(last: Seq<u32>, key: Seq<u32>, count: u64) -> Option<ErrorView> {
    if key.len() == 0 {
        Some(ErrorView::InvalidArgument("empty index keys are not supported"@))
    } else if count == 0 {
        Some(ErrorView::InvalidArgument("index counts must be greater than zero"@))
    } else if count > i64::MAX {
        Some(ErrorView::InvalidArgument("index counts must fit in a signed 64-bit integer"@))
    } else if first_non_scalar(key) is Some {
        Some(
            ErrorView::InvalidArgument(
                "U+"@ + hexadecimal(first_non_scalar(key)->0 as nat)
                    + " is not a Unicode scalar value"@,
            ),
        )
    } else if last.len() > 0 && !lex_leq::<u32>(last, key) {
        Some(ErrorView::OutOfOrder)
    } else {
        None
    }
}

/// Why a writer cannot be made, if it cannot.
pub open spec fn writer_fault(output: Seq<u8>, mode: IndexMode, min: u64) -> Option<ErrorView> {
    if mode_fault(mode) is Some {
        mode_fault(mode)
    } else if min == 0 || min > i64::MAX {
        Some(
            ErrorView::InvalidArgument(
                "min_subtree_count must be between 1 and i64::MAX"@,
            ),
        )
    } else if min != 1 && !(mode is Ngrams) {
        Some(
            ErrorView::InvalidArgument(
                "subtree pruning is only supported for n-gram indexes"@,
            ),
        )
    } else if output.len() != 0 {
        Some(ErrorView::OutputNotEmpty)
    } else {
        None
    }
}

/// The bytes of the index of a trie.
pub open spec fn index_file(mode: IndexMode, t: Trie) -> Seq<u8> {
    let payload = trie_bytes(t, HEADER_LEN as int);
    header_bytes(
        Header {
            mode,
            length: (HEADER_LEN + payload.len()) as u64,
            root_offset: trie_at(t, HEADER_LEN as int) as u64,
            root_subtree: freq(t) as u64,
            node_count: node_total(t) as u64,
        },
    ) + payload
}

/// Streaming writer for sorted keys of Unicode scalar values.
pub struct TrieWriter {
    output: Vec<u8>,
    mode: IndexMode,
    min_subtree_count: u64,
    stack: Vec<PendingNode>,
    previous_key: Vec<u32>,
    node_count: u64,
    pruned_node_count: u64,
    key_count: u64,
    log: Ghost<Log>,
    tries: Ghost<Tries>,
}

pub proof fn lemma_shared(a: Seq<u32>, b: Seq<u32>)
    ensures
        shared(a, b) <= a.len(),
        shared(a, b) <= b.len(),
        a.take(shared(a, b) as int) == b.take(shared(a, b) as int),
        shared(a, b) < a.len() && shared(a, b) < b.len() ==> a[shared(a, b) as int] != b[shared(
            a,
            b,
        ) as int],
    decreases a.len(),
{
    if a.len() == 0 || b.len() == 0 || a[0] != b[0] {
        assert(a.take(0) =~= b.take(0));
    } else {
        lemma_shared(a.skip(1), b.skip(1));
        let n = shared(a.skip(1), b.skip(1)) as int;
        assert forall|i: int| 0 <= i < n + 1 implies a[i] == b[i] by {
            if i > 0 {
                assert(a.skip(1).take(n)[i - 1] == a[i]);
                assert(b.skip(1).take(n)[i - 1] == b[i]);
            }
        }
        assert(a.take(n + 1) =~= b.take(n + 1));
    }
}

proof fn lemma_shared_is(a: Seq<u32>, b: Seq<u32>, n: int)
    requires
        0 <= n <= a.len(),
        n <= b.len(),
        forall|i: int| 0 <= i < n ==> a[i] == b[i],
        n == a.len() || n == b.len() || a[n] != b[n],
    ensures
        shared(a, b) == n,
{
    lemma_shared(a, b);
    let s = shared(a, b) as int;
    if s < n {
        assert(a[s] == b[s]);
    } else if n < s {
        assert(a.take(s)[n] == a[n]);
        assert(b.take(s)[n] == b[n]);
    }
}

/// How many labels two keys share at their start.
fn common_prefix(a: &[u32], b: &[u32]) -> (r: usize)
    ensures
        r == shared(a@, b@),
        r <= a@.len(),
        r <= b@.len(),
{
    let mut i: usize = 0;
    while i < a.len() && i < b.len() && a[i] == b[i]
        invariant
            i <= a.len(),
            i <= b.len(),
            forall|k: int| 0 <= k < i ==> a@[k] == b@[k],
        decreases a.len() - i,
    {
        i += 1;
    }
    proof {
        lemma_shared_is(a@, b@, i as int);
    }
    i
}

/// The first number of the key that is no Unicode scalar value.
fn find_non_scalar(key: &[u32]) -> (r: Option<u32>)
    ensures
        r == first_non_scalar(key@),
        r is None ==> scalars(key@),
{
    let mut i: usize = 0;
    assert(key@.skip(0) =~= key@);
    while i < key.len()
        invariant
            i <= key.len(),
            first_non_scalar(key@) == first_non_scalar(key@.skip(i as int)),
            forall|k: int| 0 <= k < i ==> scalar(#[trigger] key@[k] as int),
        decreases key.len() - i,
    {
        assert(key@.skip(i as int)[0] == key@[i as int]);
        assert(key@.skip(i as int).skip(1) =~= key@.skip(i + 1));
        let x: u32 = key[i];
        if char::from_u32(x).is_none() {
            return Some(x);
        }
        i += 1;
    }
    assert(key@.skip(i as int).len() == 0);
    None
}

/// The frequency of a node: its own and that of its children, where it fits.
fn subtree_frequency(node: &PendingNode) -> (r: Result<u64, IndexError>)
    ensures
        match r {
            Ok(s) => s == node.terminal + kids_total(node.children@, node.children@.len()) && s
                <= i64::MAX,
            Err(e) => e@ == ErrorView::Overflow("subtree frequency"@) && node.terminal
                + kids_total(node.children@, node.children@.len()) > i64::MAX,
        },
{
    let mut subtree: u64 = node.terminal;
    let mut i: usize = 0;
    while i < node.children.len()
        invariant
            i <= node.children@.len(),
            subtree == node.terminal + kids_total(node.children@, i as nat),
        decreases node.children.len() - i,
    {
        proof {
            lemma_kids_total_le(node.children@, (i + 1) as nat, node.children@.len());
        }
        match subtree.checked_add(node.children[i].subtree) {
            Some(sum) => {
                subtree = sum;
            },
            None => {
                return Err(IndexError::Overflow("subtree frequency"));
            },
        }
        i += 1;
    }
    if subtree > i64::MAX as u64 {
        return Err(IndexError::Overflow("subtree frequency"));
    }
    Ok(subtree)
}

proof fn lemma_kids_total_le(kids: Seq<WrittenChild>, m: nat, n: nat)
    requires
        m <= n <= kids.len(),
    ensures
        kids_total(kids, m) <= kids_total(kids, n),
    decreases n,
{
    if m < n {
        lemma_kids_total_le(kids, m, (n - 1) as nat);
    }
}

proof fn lemma_kids_total_of(children: Seq<(u32, Trie)>, base: int, n: nat)
    requires
        n <= children.len(),
        forest_fits(children),
    ensures
        kids_total(kids_of(children, base), n) == forest_freq(children, n),
    decreases n,
{
    if n > 0 {
        lemma_kids_total_of(children, base, (n - 1) as nat);
        assert(trie_fits(children[n - 1].1));
    }
}

impl TrieWriter {
    /// The keys pushed so far, with their counts.
    pub closed spec fn log(&self) -> Log {
        self.log@
    }

    /// The mode of the index.
    pub closed spec fn mode(&self) -> IndexMode {
        self.mode
    }

    /// The smallest frequency that is kept.
    pub closed spec fn min(&self) -> u64 {
        self.min_subtree_count
    }

    /// The open path is `path`, and everything else has been written.
    spec fn state(&self, path: Seq<u32>) -> bool {
        let tries = self.tries@;
        &&& path_ok(self.stack@, tries, self.log@, self.min_subtree_count as nat, path)
        &&& self.output@ == placed(tries, tries.len())
        &&& self.node_count == written(tries, tries.len())
        &&& log_ok(self.log@)
        &&& log_below(self.log@, self.previous_key@)
        &&& 1 <= self.min_subtree_count <= i64::MAX
        &&& mode_fault(self.mode) is None
        &&& self.mode is Records ==> self.min_subtree_count == 1
        &&& scalars(self.previous_key@)
    }

    /// The writer is fit for further keys.
    pub closed spec fn wf(&self) -> bool {
        &&& self.state(self.previous_key@)
        &&& self.previous_key@ == last_key(self.log@)
        &&& distinct_prefixes(self.log@) == self.previous_key@.len() + self.node_count
            + self.pruned_node_count
        &&& self.key_count == distinct_keys(self.log@)
        &&& log_sorted(self.log@)
    }

    /// What holds of every writer that is fit for further keys.
    pub proof fn lemma_wf(&self)
        requires
            self.wf(),
        ensures
            log_ok(self.log()),
            log_sorted(self.log()),
            1 <= self.min() <= i64::MAX,
            mode_fault(self.mode()) is None,
            self.mode() is Records ==> self.min() == 1,
    {
    }

    /// A writer of an index that keeps every key.
    pub fn new(output: Vec<u8>, mode: IndexMode) -> (r: Result<Self, IndexError>)
        ensures
            match writer_fault(output@, mode, 1) {
                Some(e) => r matches Err(f) && f@ == e,
                None => r matches Ok(w) && w.wf() && w.log() == Log::empty() && w.mode() == mode
                    && w.min() == 1,
            },
    {
        Self::with_min_subtree_count(output, mode, 1)
    }

    /// A writer that omits the prefixes whose frequency is below
    /// `min_subtree_count`. What is omitted counts for the nearest kept
    /// prefix, so the frequency of every kept prefix stays exact.
    pub fn with_min_subtree_count(
        output: Vec<u8>,
        mode: IndexMode,
        min_subtree_count: u64,
    ) -> (r: Result<Self, IndexError>)
        ensures
            match writer_fault(output@, mode, min_subtree_count) {
                Some(e) => r matches Err(f) && f@ == e,
                None => r matches Ok(w) && w.wf() && w.log() == Log::empty() && w.mode() == mode
                    && w.min() == min_subtree_count,
            },
    {
        proof {
            reveal(level_ok);
        }
        if let Err(e) = mode.validate() {
            return Err(e);
        }
        if min_subtree_count == 0 || min_subtree_count > i64::MAX as u64 {
            return Err(IndexError::argument("min_subtree_count must be between 1 and i64::MAX"));
        }
        if min_subtree_count != 1 && !mode.implicit_prefixes() {
            return Err(
                IndexError::argument("subtree pruning is only supported for n-gram indexes"),
            );
        }
        if output.len() != 0 {
            return Err(IndexError::OutputNotEmpty);
        }
        let mut output = output;
        let mut i: usize = 0;
        assert(output@ =~= zeros(0));
        while i < HEADER_LEN
            invariant
                i <= HEADER_LEN,
                output@ == zeros(i as nat),
            decreases HEADER_LEN - i,
        {
            output.push(0);
            proof {
                assert(output@ =~= zeros((i + 1) as nat));
            }
            i += 1;
        }
        let none: Vec<WrittenChild> = Vec::new();
        let root = PendingNode { label_from_parent: None, terminal: 0, children: none };
        let stack: Vec<PendingNode> = vec![root];
        let previous_key: Vec<u32> = Vec::new();
        let ghost no_log: Log = Seq::empty();
        let ghost tries: Tries = seq![Seq::empty()];
        let w = TrieWriter {
            output,
            mode,
            min_subtree_count,
            stack,
            previous_key,
            node_count: 0,
            pruned_node_count: 0,
            key_count: 0,
            log: Ghost(no_log),
            tries: Ghost(tries),
        };
        proof {
            let path = Seq::<u32>::empty();
            assert(previous_key@ =~= path);
            assert(placed(tries, 0) == zeros(HEADER_LEN as nat));
            assert(forest_bytes(tries[0], 0, HEADER_LEN as int) =~= Seq::empty());
            assert(placed(tries, 1) =~= zeros(HEADER_LEN as nat));
            assert(written(tries, 1) == 0) by {
                assert(written(tries, 0) == 0);
                assert(forest_nodes(tries[0], 0) == 0);
            }
            lemma_level_fresh(no_log, min_subtree_count as nat, path, None, HEADER_LEN as int);
            assert(path.take(0) =~= path);
            assert(stack@[0].children@ =~= Seq::empty());
            assert(tries[0] =~= Seq::empty());
        }
        Ok(w)
    }

    /// Pushes the key that a string spells.
    pub fn push_str_sorted(&mut self, key: &str, count: u64) -> (r: Result<(), IndexError>)
        requires
            old(self).wf(),
        ensures
            pushed(*old(self), *final(self), key_of(key@), count, r),
    {
        let chars = chars_of(key);
        let mut scalars_of: Vec<u32> = Vec::new();
        let mut i: usize = 0;
        while i < chars.len()
            invariant
                i <= chars.len(),
                scalars_of@ == key_of(chars@.take(i as int)),
            decreases chars.len() - i,
        {
            scalars_of.push(chars[i] as u32);
            proof {
                assert(scalars_of@ =~= key_of(chars@.take(i + 1)));
            }
            i += 1;
        }
        proof {
            assert(chars@.take(i as int) =~= key@);
        }
        self.push_sorted(scalars_of.as_slice(), count)
    }

    /// Pushes a key behind the ones before it.
    #[verifier::rlimit(50)]
    pub fn push_sorted(&mut self, key: &[u32], count: u64) -> (r: Result<(), IndexError>)
        requires
            old(self).wf(),
        ensures
            pushed(*old(self), *final(self), key@, count, r),
    {
        proof {
            reveal(level_ok);
        }
        if key.len() == 0 {
            return Err(IndexError::argument("empty index keys are not supported"));
        }
        if count == 0 {
            return Err(IndexError::argument("index counts must be greater than zero"));
        }
        if count > i64::MAX as u64 {
            return Err(IndexError::argument("index counts must fit in a signed 64-bit integer"));
        }
        if let Some(bad) = find_non_scalar(key) {
            let shown = hexadecimal_of(bad);
            return Err(
                IndexError::InvalidArgument(
                    join3("U+", shown.as_str(), " is not a Unicode scalar value"),
                ),
            );
        }
        if self.previous_key.len() > 0 && !slice_is_leq(self.previous_key.as_slice(), key) {
            return Err(IndexError::OutOfOrder);
        }
        let ghost log = self.log@;
        let ghost last = self.previous_key@;
        let ghost min = self.min_subtree_count as nat;
        let ghost more = log.push((key@, count));
        proof {
            assert(more.drop_last() =~= log);
            lemma_shared(last, key@);
            lemma_total_push(log, key@, count, Seq::empty());
            if log.len() == 0 {
                assert(last =~= Seq::empty());
            } else {
                assert(log_ok(log));
                assert(log[log.len() - 1].0.len() > 0);
            }
        }
        let same: usize = common_prefix(self.previous_key.as_slice(), key);
        let ghost mut path = last;
        assert(last.take(last.len() as int) =~= last);
        while self.stack.len() - 1 > same
            invariant
                self.state(path),
                self.log@ == log,
                log_sorted(log),
                self.mode == old(self).mode,
                self.min_subtree_count == old(self).min_subtree_count,
                self.previous_key@ == last,
                self.key_count == old(self).key_count,
                same <= path.len() <= last.len(),
                path == last.take(path.len() as int),
                path.len() + self.node_count + self.pruned_node_count == distinct_prefixes(log),
                more == log.push((key@, count)),
                distinct_prefixes(log) <= distinct_prefixes(more),
                total(log, Seq::empty()) <= total(more, Seq::empty()),
                push_fault(last, key@, count) is None,
                last == last_key(log),
                same == shared(last, key@),
                forall|n: int|
                    path.len() < n <= last.len() ==> #[trigger] total(log, last.take(n))
                        <= i64::MAX,
                old(self).log@ == log,
                old(self).previous_key@ == last,
            decreases path.len() - same,
        {
            let closed = self.close_last_node(Ghost(path));
            if let Err(e) = closed {
                proof {
                    assert(last_key(old(self).log()) == last);
                    assert(total(log, last.take(path.len() as int)) == total(log, path));
                }
                return Err(e);
            }
            proof {
                path = path.drop_last();
                assert(path =~= last.take(path.len() as int));
            }
        }
        let mut i: usize = same;
        proof {
            assert(!closes_too_frequent(log, key@)) by {
                if closes_too_frequent(log, key@) {
                    let n = choose|n: int|
                        shared(last, key@) < n <= last.len() && #[trigger] total(
                            log,
                            last.take(n),
                        ) > i64::MAX;
                    assert(total(log, last.take(n)) <= i64::MAX);
                }
            }
            assert(path =~= key@.take(same as int)) by {
                assert(last.take(same as int) == key@.take(same as int));
            }
        }
        while i < key.len()
            invariant
                same <= i <= key@.len(),
                self.state(key@.take(i as int)),
                self.log@ == log,
                log_sorted(log),
                self.mode == old(self).mode,
                self.min_subtree_count == old(self).min_subtree_count,
                min == self.min_subtree_count,
                self.previous_key@ == last,
                self.key_count == old(self).key_count,
                self.node_count + self.pruned_node_count + same == distinct_prefixes(log),
                !closes_too_frequent(log, key@),
                scalars(key@),
                log.len() == 0 || lex_leq::<u32>(last, key@),
                same <= last.len(),
                last.take(same as int) == key@.take(same as int),
                same < last.len() && same < key@.len() ==> last[same as int] != key@[same as int],
            decreases key.len() - i,
        {
            proof {
                assert forall|q: Seq<u32>| is_prefix(key@.take(i + 1), q) implies total(log, q)
                    == 0 by {
                    assert(q.take(same + 1) =~= q.take(i + 1).take(same + 1));
                    assert(key@.take(i + 1).take(same + 1) =~= key@.take(same + 1));
                    lemma_fresh_prefix(log, last, key@, same as int, q);
                }
                assert(key@.take(i + 1).take(i + 1) =~= key@.take(i + 1));
                assert(key@.take(i + 1) =~= key@.take(i as int).push(key@[i as int]));
            }
            self.open_node(key[i], Ghost(key@.take(i as int)));
            i += 1;
        }
        assert(key@.take(i as int) =~= key@);
        let ghost stack = self.stack@;
        let ghost tries = self.tries@;
        let ghost top = stack.len() - 1;
        let mut node = self.stack.pop().unwrap();
        proof {
            // no key goes on from the new one, so nothing hangs from its end
            assert(stack[top] == node);
            assert(path_ok(stack, tries, log, min, key@));
            assert(level_ok(
                node.terminal as nat,
                node.children@,
                tries[top],
                log,
                min,
                key@.take(top),
                open_at(key@, top),
                placed(tries, top as nat).len() as int,
            ));
            assert(key@.take(top) =~= key@);
            lemma_nothing_hangs(log, last, key@, tries[top], min);
            assert forall|k: Seq<u32>| #[trigger] is_prefix(Seq::<u32>::empty(), k) by {
                assert(k.take(0) =~= Seq::empty());
            }
            lemma_wsum_mono(
                log,
                |k: Seq<u32>| held(log, key@, min, None, k),
                |k: Seq<u32>| is_prefix(Seq::<u32>::empty(), k),
            );
            lemma_total_push(log, key@, count, Seq::empty());
            assert(is_prefix(Seq::<u32>::empty(), key@));
            lemma_log_push(log, last, key@, count);
        }
        node.terminal =
        match node.terminal.checked_add(count) {
            Some(sum) => sum,
            None => {
                proof {
                    assert(total(more, Seq::empty()) > u64::MAX);
                }
                return Err(IndexError::Overflow("terminal frequency"));
            },
        };
        let ghost deeper = node;
        self.stack.push(node);
        let differs = self.previous_key.len() != key.len() || same != key.len();
        proof {
            assert(differs == (last != key@)) by {
                if !differs {
                    assert(last.take(same as int) =~= last);
                    assert(key@.take(same as int) =~= key@);
                }
                if last == key@ {
                    lemma_shared_is(last, key@, key@.len() as int);
                }
            }
        }
        if differs {
            self.key_count =
            match self.key_count.checked_add(1) {
                Some(n) => n,
                None => {
                    proof {
                        lemma_keys_have_prefixes(more);
                        assert(distinct_prefixes(more) > u64::MAX);
                    }
                    return Err(IndexError::Overflow("key count"));
                },
            };
        }
        let mut remembered: Vec<u32> = Vec::new();
        remembered.extend_from_slice(key);
        self.previous_key = remembered;
        self.log = Ghost(more);
        proof {
            assert(remembered@ =~= key@);
            assert(last_key(more) == key@);
            let now = self.stack@;
            assert(now =~= stack.update(top, deeper));
            assert forall|d: int| 0 <= d < now.len() implies level_ok(
                (#[trigger] now[d]).terminal as nat,
                now[d].children@,
                tries[d],
                more,
                min,
                key@.take(d),
                open_at(key@, d),
                placed(tries, d as nat).len() as int,
            ) by {
                assert(level_ok(
                    stack[d].terminal as nat,
                    stack[d].children@,
                    tries[d],
                    log,
                    min,
                    key@.take(d),
                    open_at(key@, d),
                    placed(tries, d as nat).len() as int,
                ));
                lemma_level_push_key(
                    stack[d].terminal as nat,
                    stack[d].children@,
                    tries[d],
                    log,
                    min,
                    key@,
                    count,
                    d,
                    placed(tries, d as nat).len() as int,
                );
            }
            assert forall|d: int| 1 <= d < now.len() implies (
            #[trigger] now[d]).label_from_parent == Some(key@[d - 1]) by {
                assert(stack[d].label_from_parent == Some(key@[d - 1]));
            }
            assert(self.state(key@));
            assert(distinct_prefixes(more) == distinct_prefixes(log) + key@.len() - same);
        }
        Ok(())
    }

    /// Opens a node below the open path.
    #[verifier::rlimit(50)]
    fn open_node(&mut self, label: u32, Ghost(path): Ghost<Seq<u32>>)
        requires
            old(self).state(path),
            scalar(label as int),
            forall|q: Seq<u32>|
                is_prefix(path.push(label), q) ==> total(old(self).log@, q) == 0,
        ensures
            final(self).state(path.push(label)),
            final(self).log@ == old(self).log@,
            final(self).mode == old(self).mode,
            final(self).min_subtree_count == old(self).min_subtree_count,
            final(self).previous_key@ == old(self).previous_key@,
            final(self).key_count == old(self).key_count,
            final(self).node_count == old(self).node_count,
            final(self).pruned_node_count == old(self).pruned_node_count,
    {
        proof {
            reveal(level_ok);
        }
        let ghost stack = self.stack@;
        let ghost tries = self.tries@;
        let ghost log = self.log@;
        let ghost min = self.min_subtree_count as nat;
        let ghost longer = path.push(label);
        let none: Vec<WrittenChild> = Vec::new();
        let child = PendingNode { label_from_parent: Some(label), terminal: 0, children: none };
        self.stack.push(child);
        let ghost more: Tries = tries.push(Seq::empty());
        self.tries = Ghost(more);
        proof {
            let now = self.stack@;
            let n = tries.len();
            lemma_placed_same(tries, more, n);
            assert(more[n as int] =~= Seq::<(u32, Trie)>::empty());
            assert(placed(more, n + 1) =~= placed(tries, n));
            assert(written(more, n + 1) == written(tries, n));
            assert(longer.take(longer.len() as int) =~= longer);
            assert(total(log, longer) == 0);
            lemma_level_fresh(log, min, longer, None, placed(more, n).len() as int);
            assert(none@ =~= Seq::empty());
            assert forall|d: int| 0 <= d < now.len() implies level_ok(
                (#[trigger] now[d]).terminal as nat,
                now[d].children@,
                more[d],
                log,
                min,
                longer.take(d),
                open_at(longer, d),
                placed(more, d as nat).len() as int,
            ) by {
                if d < stack.len() {
                    lemma_placed_same(tries, more, d as nat);
                    assert(longer.take(d) =~= path.take(d));
                    assert(now[d] == stack[d]);
                    assert(more[d] == tries[d]);
                    assert(level_ok(
                        stack[d].terminal as nat,
                        stack[d].children@,
                        tries[d],
                        log,
                        min,
                        path.take(d),
                        open_at(path, d),
                        placed(tries, d as nat).len() as int,
                    ));
                    if d == path.len() {
                        assert(path.take(d) =~= path);
                        lemma_level_open(
                            stack[d].terminal as nat,
                            stack[d].children@,
                            tries[d],
                            log,
                            min,
                            path,
                            label,
                            placed(tries, d as nat).len() as int,
                        );
                    }
                } else {
                    assert(longer.take(d) =~= longer);
                }
            }
            assert forall|d: int| 1 <= d < now.len() implies (
            #[trigger] now[d]).label_from_parent == Some(longer[d - 1]) by {
                if d < stack.len() {
                    assert(stack[d].label_from_parent == Some(path[d - 1]));
                }
            }
        }
    }

    /// Closes the last node of the open path: writes it where it is frequent
    /// enough, or leaves its frequency with its parent.
    #[verifier::rlimit(50)]
    fn close_last_node(&mut self, Ghost(path): Ghost<Seq<u32>>) -> (r: Result<(), IndexError>)
        requires
            old(self).state(path),
            path.len() > 0,
            is_prefix(path, old(self).previous_key@),
        ensures
            final(self).log@ == old(self).log@,
            final(self).mode == old(self).mode,
            final(self).min_subtree_count == old(self).min_subtree_count,
            final(self).previous_key@ == old(self).previous_key@,
            final(self).key_count == old(self).key_count,
            match r {
                Ok(()) => final(self).state(path.drop_last()) && final(self).node_count
                    + final(self).pruned_node_count == old(self).node_count
                    + old(self).pruned_node_count + 1 && total(old(self).log@, path) <= i64::MAX,
                Err(e) => {
                    &&& e@ is Overflow
                    &&& total(old(self).log@, Seq::empty()) > i64::MAX || old(
                        self,
                    ).pruned_node_count == u64::MAX
                    &&& total(old(self).log@, path) > i64::MAX || total(
                        old(self).log@,
                        Seq::empty(),
                    ) > u64::MAX || old(self).pruned_node_count == u64::MAX
                    &&& e@ == ErrorView::Overflow("subtree frequency"@) || total(
                        old(self).log@,
                        Seq::empty(),
                    ) > u64::MAX || old(self).pruned_node_count == u64::MAX
                },
            },
    {
        proof {
            reveal(level_ok);
        }
        let ghost stack = self.stack@;
        let ghost tries = self.tries@;
        let ghost log = self.log@;
        let ghost min = self.min_subtree_count as nat;
        let ghost top = stack.len() - 1;
        let ghost up = path.drop_last();
        let ghost base = placed(tries, top as nat).len() as int;
        let ghost label_g = path.last();
        let ghost kids_trie = tries[top];
        let node = self.stack.pop().unwrap();
        proof {
            assert(node == stack[top]);
            assert(path.take(top) =~= path);
            assert(level_ok(
                node.terminal as nat,
                node.children@,
                kids_trie,
                log,
                min,
                path,
                None,
                base,
            )) by {
                assert(open_at(path, top) == None::<u32>);
            }
            lemma_level_closed(
                node.terminal as nat,
                node.children@,
                kids_trie,
                log,
                min,
                path,
                base,
            );
            lemma_kids_total_of(kids_trie, base, kids_trie.len());
            assert(path.take(0) =~= Seq::empty());
            assert(is_prefix(Seq::<u32>::empty(), path));
            lemma_total_mono(log, Seq::empty(), path);
            assert(up.push(label_g) =~= path);
            assert(path.take(top - 1) =~= up);
        }
        let ghost t = Trie { terminal: node.terminal as nat, children: kids_trie };
        let label: u32 = node.label_from_parent.unwrap();
        let subtree: u64 = match subtree_frequency(&node) {
            Ok(s) => s,
            Err(e) => {
                return Err(e);
            },
        };
        let mut parent = self.stack.pop().unwrap();
        let ghost parent0 = parent;
        let ghost parent_base = placed(tries, (top - 1) as nat).len() as int;
        let ghost parent_trie = tries[top - 1];
        proof {
            assert(parent == stack[top - 1]);
            assert(label == label_g);
            assert(freq(t) == subtree);
            assert(total(log, path) == subtree);
            assert(level_ok(
                parent.terminal as nat,
                parent.children@,
                parent_trie,
                log,
                min,
                up,
                Some(label),
                parent_base,
            )) by {
                assert(open_at(path, top - 1) == Some(label));
            }
        }
        if subtree < self.min_subtree_count {
            self.pruned_node_count =
            match self.pruned_node_count.checked_add(1) {
                Some(n) => n,
                None => {
                    return Err(IndexError::Overflow("pruned node count"));
                },
            };
            proof {
                lemma_level_pruned(
                    parent.terminal as nat,
                    parent.children@,
                    parent_trie,
                    log,
                    min,
                    up,
                    label,
                    parent_base,
                );
                assert(is_prefix(Seq::<u32>::empty(), up)) by {
                    assert(up.take(0) =~= Seq::empty());
                }
                lemma_level_closed(
                    parent.terminal as nat + subtree as nat,
                    parent.children@,
                    parent_trie,
                    log,
                    min,
                    up,
                    parent_base,
                );
                lemma_total_mono(log, Seq::empty(), up);
                assert(kids_trie.len() == 0);
            }
            parent.terminal =
            match parent.terminal.checked_add(subtree) {
                Some(sum) => sum,
                None => {
                    return Err(IndexError::Overflow("frequency folded from a pruned subtree"));
                },
            };
            let ghost parent1 = parent;
            self.stack.push(parent);
            let ghost fewer = tries.drop_last();
            self.tries = Ghost(fewer);
            proof {
                lemma_placed_same(tries, fewer, top as nat);
                assert(forest_bytes(kids_trie, 0, base) =~= Seq::empty());
                assert(placed(tries, tries.len()) =~= placed(fewer, top as nat));
                assert(written(tries, tries.len()) == written(fewer, top as nat));
                let now = self.stack@;
                assert(now =~= stack.drop_last().update(top - 1, parent1));
                lemma_path_closed(stack, now, tries, fewer, log, min, path);
            }
            return Ok(());
        }
        let offset: u64 = self.output.len() as u64;
        proof {
            let whole = placed(tries, tries.len());
            let below = forest_bytes(kids_trie, kids_trie.len(), base);
            assert(whole == placed(tries, top as nat) + below);
            assert(offset == trie_at(t, base));
            assert forall|i: int| 0 <= i < node.children@.len() implies (
            #[trigger] node.children@[i]).offset <= self.output@.len() by {
                lemma_child_within(kids_trie, kids_trie.len(), i, base);
            }
            lemma_written_within(tries, tries.len());
        }
        let ghost before = self.output@;
        write_node(&mut self.output, node.terminal, subtree, &node.children);
        self.node_count = self.node_count + 1;
        let kid = WrittenChild { label, offset, subtree };
        parent.children.push(kid);
        let ghost parent1 = parent;
        self.stack.push(parent);
        let ghost fewer = tries.drop_last().update(top - 1, parent_trie.push((label, t)));
        self.tries = Ghost(fewer);
        proof {
            assert(scalar(label as int)) by {
                crate::index::model::lemma_prefix_at(path, self.previous_key@, top - 1);
                assert(self.previous_key@[top - 1] == label);
            }
            assert(trie_fits(t));
            assert(is_prefix(up, self.previous_key@)) by {
                assert(self.previous_key@.take(top - 1) =~= self.previous_key@.take(top).take(
                    top - 1,
                ));
            }
            crate::index::model::lemma_prefix_at(path, self.previous_key@, top - 1);
            lemma_level_kept(
                parent0.terminal as nat,
                parent0.children@,
                parent_trie,
                log,
                min,
                up,
                label,
                parent_base,
                t,
                self.previous_key@,
            );
            lemma_placed_same(tries, fewer, (top - 1) as nat);
            lemma_forest_push_all(parent_trie, (label, t), parent_base);
            lemma_forest_freq_push(parent_trie, (label, t), parent_trie.len());
            let below = forest_bytes(parent_trie, parent_trie.len(), parent_base);
            assert(placed(tries, top as nat) == placed(tries, (top - 1) as nat) + below);
            assert(base == parent_base + below.len());
            assert(fewer[top - 1] == parent_trie.push((label, t)));
            assert(placed(fewer, top as nat) == placed(tries, (top - 1) as nat) + forest_bytes(
                fewer[top - 1],
                fewer[top - 1].len(),
                parent_base,
            ));
            assert(placed(tries, (top - 1) as nat) + (below + trie_bytes(t, base)) =~= placed(
                tries,
                top as nat,
            ) + trie_bytes(t, base));
            let kids_below = forest_bytes(kids_trie, kids_trie.len(), base);
            let own = node_bytes(
                base + kids_below.len(),
                t.terminal,
                freq(t),
                kids_of(kids_trie, base),
            );
            assert(trie_bytes(t, base) == kids_below + own);
            assert(placed(tries, top as nat) + (kids_below + own) =~= placed(tries, top as nat)
                + kids_below + own);
            assert(self.output@ == before + own);
            assert(self.output@ == placed(fewer, fewer.len()));
            assert(written(fewer, top as nat) == written(tries, (top - 1) as nat) + forest_nodes(
                fewer[top - 1],
                fewer[top - 1].len(),
            ));
            assert(written(tries, tries.len()) == written(tries, top as nat) + forest_nodes(
                kids_trie,
                kids_trie.len(),
            ));
            assert(node_total(t) == 1 + forest_nodes(kids_trie, kids_trie.len()));
            let now = self.stack@;
            assert(now =~= stack.drop_last().update(top - 1, parent1));
            lemma_path_closed(stack, now, tries, fewer, log, min, path);
        }
        Ok(())
    }

    /// Writes what is left, with the header, and gives the bytes of the index.
    #[verifier::rlimit(50)]
    pub fn finish(self) -> (r: Result<(Vec<u8>, IndexWriteStats), IndexError>)
        requires
            self.wf(),
        ensures
            match r {
                Ok((bytes, stats)) => written_index(
                    self.mode(),
                    self.min() as nat,
                    self.log(),
                    bytes@,
                    stats,
                ),
                Err(e) => {
                    &&& e@ is Overflow
                    &&& total(self.log(), Seq::empty()) > i64::MAX || distinct_prefixes(self.log())
                        > u64::MAX
                    &&& e@ == ErrorView::Overflow("subtree frequency"@) || beyond_count(self.log())
                },
            },
    {
        proof {
            reveal(level_ok);
        }
        let ghost log = self.log@;
        let ghost min = self.min_subtree_count as nat;
        let ghost last = self.previous_key@;
        let ghost mut path = last;
        let mut w = self;
        assert(last.take(last.len() as int) =~= last);
        while w.stack.len() > 1
            invariant
                w.state(path),
                w.log@ == log,
                w.mode == self.mode,
                w.min_subtree_count == self.min_subtree_count,
                w.previous_key@ == last,
                w.key_count == self.key_count,
                path.len() <= last.len(),
                path == last.take(path.len() as int),
                path.len() + w.node_count + w.pruned_node_count == distinct_prefixes(log),
                log == self.log(),
            decreases path.len(),
        {
            let closed = w.close_last_node(Ghost(path));
            if let Err(e) = closed {
                return Err(e);
            }
            proof {
                path = path.drop_last();
                assert(path =~= last.take(path.len() as int));
            }
        }
        let ghost stack = w.stack@;
        let ghost tries = w.tries@;
        let ghost base = HEADER_LEN as int;
        let root = w.stack.pop().unwrap();
        let ghost t = Trie { terminal: root.terminal as nat, children: tries[0] };
        proof {
            assert(path =~= Seq::empty());
            assert(root == stack[0]);
            assert(path.take(0) =~= Seq::empty());
            assert(placed(tries, 0) == zeros(HEADER_LEN as nat));
            assert(level_ok(
                root.terminal as nat,
                root.children@,
                tries[0],
                log,
                min,
                Seq::empty(),
                None,
                base,
            )) by {
                assert(open_at(path, 0) == None::<u32>);
            }
            lemma_level_closed(
                root.terminal as nat,
                root.children@,
                tries[0],
                log,
                min,
                Seq::empty(),
                base,
            );
            lemma_kids_total_of(tries[0], base, tries[0].len());
        }
        let subtree: u64 = match subtree_frequency(&root) {
            Ok(s) => s,
            Err(e) => {
                return Err(e);
            },
        };
        let mut output = w.output;
        let root_offset: u64 = output.len() as u64;
        let ghost payload = trie_bytes(t, base);
        proof {
            let below = forest_bytes(tries[0], tries[0].len(), base);
            assert(output@ == placed(tries, 1));
            assert(placed(tries, 1) == zeros(HEADER_LEN as nat) + below);
            assert forall|i: int| 0 <= i < root.children@.len() implies (
            #[trigger] root.children@[i]).offset <= output@.len() by {
                lemma_child_within(tries[0], tries[0].len(), i, base);
            }
            lemma_written_within(tries, 1);
            assert(written(tries, 1) == written(tries, 0) + forest_nodes(tries[0], tries[0].len()));
            assert(written(tries, 0) == 0);
        }
        write_node(&mut output, root.terminal, subtree, &root.children);
        proof {
            assert(output@ =~= zeros(HEADER_LEN as nat) + payload);
            assert(output@.skip(HEADER_LEN as int) =~= payload);
            assert(freq(t) == subtree);
            assert(mode_fault(w.mode) is None);
        }
        let nodes: u64 = w.node_count + 1;
        let length: u64 = output.len() as u64;
        write_header(&mut output, w.mode, root_offset, subtree, nodes);
        let stats = IndexWriteStats {
            node_count: nodes,
            pruned_node_count: w.pruned_node_count,
            key_count: w.key_count,
            root_subtree: subtree,
            bytes_written: length,
        };
        proof {
            assert(node_total(t) == nodes);
            assert(output@ == index_file(self.mode, t));
            lemma_header_len(
                Header {
                    mode: w.mode,
                    length,
                    root_offset,
                    root_subtree: subtree,
                    node_count: nodes,
                },
            );
            assert(output@.len() == length);
            assert(represents(t, log, Seq::empty(), min) && trie_fits(t) && output@ == index_file(
                self.mode,
                t,
            ));
        }
        Ok((output, stats))
    }
}

/// The key that a string spells.
pub open spec fn key_of(s: Seq<char>) -> Seq<u32> {
    Seq::new(s.len(), |i: int| s[i] as u32)
}

/// A prefix that no further key can have once this one is pushed is more
/// frequent than an index can hold.
pub open spec fn closes_too_frequent(log: Log, key: Seq<u32>) -> bool {
    exists|n: int|
        shared(last_key(log), key) < n <= last_key(log).len() && #[trigger] total(
            log,
            last_key(log).take(n),
        ) > i64::MAX
}

/// The frequencies or the prefixes of a log are too many to be counted.
pub open spec fn beyond_count(log: Log) -> bool {
    total(log, Seq::empty()) > u64::MAX || distinct_prefixes(log) > u64::MAX
}

/// What pushing a key does to a writer.
pub open spec fn pushed(
    before: TrieWriter,
    after: TrieWriter,
    key: Seq<u32>,
    count: u64,
    r: Result<(), IndexError>,
) -> bool {
    match push_fault(last_key(before.log()), key, count) {
        Some(e) => (r matches Err(f) && f@ == e) && after == before,
        None => match r {
            Ok(()) => {
                &&& after.wf()
                &&& after.log() == before.log().push((key, count))
                &&& after.mode() == before.mode()
                &&& after.min() == before.min()
                &&& !closes_too_frequent(before.log(), key)
            },
            Err(e) => {
                let more = before.log().push((key, count));
                &&& e@ is Overflow
                &&& closes_too_frequent(before.log(), key) || beyond_count(more)
                &&& e@ == ErrorView::Overflow("subtree frequency"@) || beyond_count(more)
                &&& total(more, Seq::empty()) > i64::MAX || distinct_prefixes(more) > u64::MAX
            },
        },
    }
}

/// The bytes are the index of the log, with these statistics: the file of the
/// trie that holds every prefix that is frequent enough.
pub open spec fn written_index(
    mode: IndexMode,
    min: nat,
    log: Log,
    bytes: Seq<u8>,
    stats: IndexWriteStats,
) -> bool {
    exists|t: Trie|
        {
            &&& #[trigger] represents(t, log, Seq::empty(), min)
            &&& trie_fits(t)
            &&& bytes == index_file(mode, t)
            &&& bytes.len() <= usize::MAX
            &&& stats.node_count == node_total(t)
            &&& stats.pruned_node_count + stats.node_count == distinct_prefixes(log) + 1
            &&& stats.key_count == distinct_keys(log)
            &&& stats.root_subtree == total(log, Seq::empty())
            &&& stats.bytes_written == bytes.len()
        }
}

/// Nothing hangs from the end of a key that no key of the log goes on from.
proof fn lemma_nothing_hangs(
    log: Log,
    last: Seq<u32>,
    key: Seq<u32>,
    children: Seq<(u32, Trie)>,
    min: nat,
)
    requires
        min > 0,
        log_below(log, last),
        log.len() == 0 || lex_leq::<u32>(last, key),
        forall|label: u32| #[trigger]
            crate::index::model::has_label(children, label) <==> total(log, key.push(label)) >= min
                && None::<u32> != Some(label),
    ensures
        children.len() == 0,
{
    if children.len() > 0 {
        let label = children[0].0;
        assert(crate::index::model::has_label(children, label));
        let i = lemma_total_witness(log, key.push(label));
        let k = log[i].0;
        lemma_lex_total_order::<u32>(k, last, key);
        assert(key.take(key.len() as int) =~= key);
        lemma_label_below(k, key, key, label);
    }
}

/// Adding a key that does not come before the last one.
proof fn lemma_log_push(log: Log, last: Seq<u32>, key: Seq<u32>, count: u64)
    requires
        log_below(log, last),
        log.len() == 0 || lex_leq::<u32>(last, key),
        log_ok(log),
        log_sorted(log),
        key.len() > 0,
        0 < count <= i64::MAX,
        scalars(key),
    ensures
        log_ok(log.push((key, count))),
        log_below(log.push((key, count)), key),
        log_sorted(log.push((key, count))),
{
    let more = log.push((key, count));
    assert forall|i: int| 0 <= i < more.len() implies lex_leq::<u32>((#[trigger] more[i]).0, key) by {
        if i < log.len() {
            assert(more[i] == log[i]);
            lemma_lex_total_order::<u32>(log[i].0, last, key);
        } else {
            lemma_lex_total_order::<u32>(key, key, key);
        }
    }
    assert forall|i: int, j: int| 0 <= i < j < more.len() implies lex_leq::<u32>(
        (#[trigger] more[i]).0,
        (#[trigger] more[j]).0,
    ) by {
        if j < log.len() {
            assert(more[i] == log[i] && more[j] == log[j]);
        }
    }
    assert forall|i: int| 0 <= i < more.len() implies {
        &&& (#[trigger] more[i]).0.len() > 0
        &&& 0 < more[i].1 <= i64::MAX
        &&& scalars(more[i].0)
    } by {
        if i < log.len() {
            assert(more[i] == log[i]);
        }
    }
}

/// Every distinct key brings a prefix of its own.
proof fn lemma_keys_have_prefixes(log: Log)
    requires
        forall|i: int| 0 <= i < log.len() ==> (#[trigger] log[i]).0.len() > 0,
        log_sorted(log),
    ensures
        distinct_keys(log) <= distinct_prefixes(log),
    decreases log.len(),
{
    if log.len() > 0 {
        let init = log.drop_last();
        assert forall|i: int| 0 <= i < init.len() implies (#[trigger] init[i]).0.len() > 0 by {
            assert(init[i] == log[i]);
        }
        assert forall|i: int, j: int| 0 <= i < j < init.len() implies lex_leq::<u32>(
            (#[trigger] init[i]).0,
            (#[trigger] init[j]).0,
        ) by {
            assert(init[i] == log[i] && init[j] == log[j]);
        }
        lemma_keys_have_prefixes(init);
        let a = last_key(init);
        let b = log.last().0;
        lemma_shared(a, b);
        if a != b && shared(a, b) == b.len() {
            // then b is a proper prefix of a, and would come before it
            assert(b.take(b.len() as int) =~= b);
            assert forall|k: int| 0 <= k < a.len() && k < b.len() implies a[k] == b[k] by {
                assert(a.take(b.len() as int)[k] == a[k]);
            }
            lemma_lex_by_length::<u32>(a, b);
            if init.len() > 0 {
                assert(log[init.len() - 1].0 == a);
                assert(lex_leq::<u32>(log[init.len() - 1].0, log[log.len() - 1].0));
                assert(a.len() == b.len());
                assert(a.take(b.len() as int) =~= a);
            } else {
                assert(a.len() == 0);
                assert(log[0].0.len() > 0);
            }
        }
    }
}

/// The nodes above a closed one are as they were.
#[verifier::spinoff_prover]
#[verifier::rlimit(60)]
proof fn lemma_path_closed(
    stack: Seq<PendingNode>,
    now: Seq<PendingNode>,
    tries: Tries,
    fewer: Tries,
    log: Log,
    min: nat,
    path: Seq<u32>,
)
    requires
        path_ok(stack, tries, log, min, path),
        path.len() > 0,
        now.len() == path.len(),
        fewer.len() == path.len(),
        forall|d: int| 0 <= d < now.len() - 1 ==> now[d] == stack[d] && fewer[d] == tries[d],
        now[now.len() - 1].label_from_parent == stack[now.len() - 1].label_from_parent,
        level_ok(
            now[now.len() - 1].terminal as nat,
            now[now.len() - 1].children@,
            fewer[now.len() - 1],
            log,
            min,
            path.drop_last(),
            None,
            placed(tries, (now.len() - 1) as nat).len() as int,
        ),
    ensures
        path_ok(now, fewer, log, min, path.drop_last()),
{
    let up = path.drop_last();
    let top = now.len() - 1;
    assert forall|d: int| 0 <= d < now.len() implies level_ok(
        (#[trigger] now[d]).terminal as nat,
        now[d].children@,
        fewer[d],
        log,
        min,
        up.take(d),
        open_at(up, d),
        placed(fewer, d as nat).len() as int,
    ) by {
        lemma_placed_same(tries, fewer, d as nat);
        if d < top {
            assert(now[d] == stack[d]);
            assert(level_ok(
                stack[d].terminal as nat,
                stack[d].children@,
                tries[d],
                log,
                min,
                path.take(d),
                open_at(path, d),
                placed(tries, d as nat).len() as int,
            ));
            assert(up.take(d) =~= path.take(d));
            assert(open_at(up, d) == open_at(path, d));
        } else {
            assert(up.take(d) =~= up);
        }
    }
    assert forall|d: int| 1 <= d < now.len() implies (#[trigger] now[d]).label_from_parent == Some(
        up[d - 1],
    ) by {
        assert(stack[d].label_from_parent == Some(path[d - 1]));
    }
}

} // verus!
