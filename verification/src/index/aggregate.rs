//! Sorting keys and adding up their counts.
use crate::index::error::{ErrorView, IndexError};
use crate::index::merge::{
    label_count, lemma_add_to_last, lemma_ascending_more, lemma_label_push, lemma_sums_push,
    lemma_wsum_append, same_sums,
};
use crate::index::model::{
    exact, is_key, key_too_frequent, lemma_wsum_at_least, lemma_wsum_push, wsum, Log,
};
use crate::index::pending::{log_ok, scalars};
use crate::index::shard::{entries_log, strictly_ascending};
use crate::ordered::{
    lemma_lex_total_order, lemma_same_multiset_same_set, lex_leq, reverse, slice_is_leq, sort, views,
    Ordered,
};
use vstd::prelude::*;

verus! {

proof fn lemma_without(log: Log, i: int)
    requires
        0 <= i < log.len(),
    ensures
        label_count(log) == label_count(log.remove(i)) + log[i].0.len(),
        forall|f: spec_fn(Seq<u32>) -> bool| #[trigger]
            wsum(log, f) == wsum(log.remove(i), f) + if f(log[i].0) {
                log[i].1 as nat
            } else {
                0
            },
    decreases log.len(),
{
    if i == log.len() - 1 {
        assert(log.remove(i) =~= log.drop_last());
    } else {
        lemma_without(log.drop_last(), i);
        let rest = log.remove(i);
        assert(rest.drop_last() =~= log.drop_last().remove(i));
        assert(rest.last() == log.last());
        assert forall|f: spec_fn(Seq<u32>) -> bool| #[trigger]
            wsum(log, f) == wsum(log.remove(i), f) + if f(log[i].0) {
                log[i].1 as nat
            } else {
                0
            } by {
            assert(wsum(log.drop_last(), f) == wsum(log.drop_last().remove(i), f) + if f(
                log.drop_last()[i].0,
            ) {
                log.drop_last()[i].1 as nat
            } else {
                0
            });
        }
    }
}

/// The order of the records makes no difference to the sums.
pub proof fn lemma_sums_of_permutation(a: Log, b: Log)
    requires
        a.to_multiset() == b.to_multiset(),
    ensures
        same_sums(a, b),
        label_count(a) == label_count(b),
        a.len() == b.len(),
    decreases a.len(),
{
    broadcast use vstd::seq_lib::group_to_multiset_ensures;

    assert(a.len() == a.to_multiset().len());
    assert(b.len() == b.to_multiset().len());
    if a.len() == 0 {
        assert(a =~= b);
    } else {
        let n = a.len() - 1;
        let x = a[n];
        assert(a.contains(x));
        assert(a.to_multiset().count(x) > 0);
        assert(b.contains(x));
        let j = choose|j: int| 0 <= j < b.len() && b[j] == x;
        let a1 = a.remove(n);
        let b1 = b.remove(j);
        assert(a1.to_multiset() =~= a.to_multiset().remove(x));
        assert(b1.to_multiset() =~= b.to_multiset().remove(x));
        lemma_sums_of_permutation(a1, b1);
        lemma_without(a, n);
        lemma_without(b, j);
        assert forall|f: spec_fn(Seq<u32>) -> bool| #[trigger] wsum(a, f) == wsum(b, f) by {
            assert(wsum(a1, f) == wsum(b1, f));
            assert(wsum(b, f) == wsum(b1, f) + if f(b[j].0) {
                b[j].1 as nat
            } else {
                0
            });
        }
    }
}

/// The records sorted by key, equal keys in one with the sum of their counts;
/// an error where a sum is too large.
pub(crate) fn aggregate(entries: Vec<(Vec<u32>, u64)>) -> (r: Result<
    Vec<(Vec<u32>, u64)>,
    IndexError,
>)
    requires
        log_ok(entries_log(entries@)),
    ensures
        match r {
            Ok(made) => {
                let log = entries_log(made@);
                &&& strictly_ascending(log)
                &&& log_ok(log)
                &&& same_sums(log, entries_log(entries@))
                &&& label_count(log) <= label_count(entries_log(entries@))
                &&& log.len() <= entries@.len()
                &&& entries@.len() > 0 ==> log.len() > 0
            },
            Err(e) => e@ == ErrorView::Overflow("shard frequency"@),
        },
        r is Err <==> key_too_frequent(entries_log(entries@)),
{
    let ghost given = entries_log(entries@);
    proof {
        assert(views(entries@) =~= given);
    }
    let in_order = sort(entries);
    let ghost log = entries_log(in_order@);
    proof {
        assert(views(in_order@) =~= log);
        lemma_sums_of_permutation(log, given);
        lemma_same_multiset_same_set(log, given);
        assert forall|i: int| 0 <= i < log.len() implies {
            &&& (#[trigger] log[i]).0.len() > 0
            &&& 0 < log[i].1 <= i64::MAX
            &&& scalars(log[i].0)
        } by {
            assert(log.to_set().contains(log[i]));
            assert(given.to_set().contains(log[i]));
            let k = choose|k: int| 0 <= k < given.len() && given[k] == log[i];
            assert(given[k].0.len() > 0);
        }
    }
    let ghost ordered = in_order@;
    proof {
        let pairs = views(in_order@);
        assert forall|i: int| 0 < i < log.len() implies log[i - 1].0 == (#[trigger] log[i]).0
            || lex_leq::<u32>(log[i - 1].0, log[i].0) by {
            assert(<(Vec<u32>, u64) as Ordered>::leq(pairs[i - 1], pairs[i]));
            assert(pairs[i - 1] == log[i - 1] && pairs[i] == log[i]);
        }
    }
    let mut rest = reverse(in_order);
    let mut out: Vec<(Vec<u32>, u64)> = Vec::new();
    let ghost mut done: int = 0;
    proof {
        assert(log.take(0) =~= Seq::empty());
        assert(entries_log(out@) =~= Seq::empty());
        assert(rest@ =~= ordered.take(ordered.len() as int).reverse());
    }
    while rest.len() > 0
        invariant
            given == entries_log(entries@),
            log == entries_log(ordered),
            log_ok(log),
            forall|i: int|
                0 < i < log.len() ==> log[i - 1].0 == (#[trigger] log[i]).0 || lex_leq::<u32>(
                    log[i - 1].0,
                    log[i].0,
                ),
            same_sums(log, given),
            0 <= done <= ordered.len(),
            rest@ == ordered.skip(done).reverse(),
            strictly_ascending(entries_log(out@)),
            log_ok(entries_log(out@)),
            same_sums(entries_log(out@), log.take(done)),
            label_count(entries_log(out@)) <= label_count(log.take(done)),
            out@.len() <= done,
            done > 0 ==> out@.len() > 0 && out@.last().0@ == log[done - 1].0,
        decreases rest.len(),
    {
        let ghost made = entries_log(out@);
        let ghost part = log.take(done);
        let ghost more = log.take(done + 1);
        let ghost record = log[done];
        proof {
            assert(rest@.last() == ordered[done]);
            assert(more =~= part.push(record));
            assert(record.0.len() > 0 && 0 < record.1 <= i64::MAX && scalars(record.0));
            assert forall|f: spec_fn(Seq<u32>) -> bool| #[trigger]
                wsum(more, f) == wsum(part, f) + if f(record.0) {
                    record.1 as nat
                } else {
                    0
                } by {
                lemma_wsum_push(part, record.0, record.1, f);
            }
            lemma_label_push(part, record.0, record.1);
        }
        let (key, count) = match rest.pop() {
            Some(entry) => entry,
            None => {
                return Ok(out);
            },
        };
        proof {
            assert(rest@ =~= ordered.skip(done + 1).reverse());
            if done > 0 {
                assert(log[done - 1].0 == log[done].0 || lex_leq::<u32>(
                    log[done - 1].0,
                    log[done].0,
                ));
                lemma_lex_total_order::<u32>(key@, key@, key@);
            }
        }
        let n: usize = out.len();
        let same = n > 0 && slice_is_leq(key.as_slice(), out[n - 1].0.as_slice());
        if same {
            proof {
                lemma_lex_total_order::<u32>(out@[n - 1].0@, key@, key@);
                assert(out@[n - 1].0@ == key@);
            }
            let ghost base = made.drop_last();
            let ghost last = made.last();
            proof {
                assert(made =~= base.push(last));
                assert(made[n - 1] == last);
            }
            let (old_key, old_count) = match out.pop() {
                Some(entry) => entry,
                None => {
                    return Ok(out);
                },
            };
            let sum: u64 = match old_count.checked_add(count) {
                Some(sum) => sum,
                None => {
                    proof {
                        lemma_key_sum(made, part, more, record, n - 1);
                        lemma_first_exact(log, done + 1, given, record.0);
                    }
                    return Err(IndexError::Overflow("shard frequency"));
                },
            };
            if sum > i64::MAX as u64 {
                proof {
                    lemma_key_sum(made, part, more, record, n - 1);
                    lemma_first_exact(log, done + 1, given, record.0);
                }
                return Err(IndexError::Overflow("shard frequency"));
            }
            out.push((old_key, sum));
            proof {
                let now = entries_log(out@);
                assert(now =~= base.push((last.0, sum)));
                lemma_add_to_last(base, last, record, now);
                assert forall|f: spec_fn(Seq<u32>) -> bool| #[trigger] wsum(now, f) == wsum(
                    more,
                    f,
                ) by {
                    lemma_wsum_push(base, last.0, last.1, f);
                    lemma_wsum_push(base, last.0, sum, f);
                    assert(wsum(made, f) == wsum(part, f));
                }
                lemma_label_push(base, last.0, last.1);
                lemma_label_push(base, last.0, sum);
                done = done + 1;
            }
        } else {
            out.push((key, count));
            proof {
                let now = entries_log(out@);
                assert(now =~= made.push(record));
                lemma_sums_push(made, part, more, record.0, record.1);
                lemma_label_push(made, record.0, record.1);
                if n > 0 {
                    lemma_lex_total_order::<u32>(record.0, record.0, record.0);
                    assert(made.last() == (out@[n - 1].0@, out@[n - 1].1));
                    lemma_ascending_more(made, record.0, record.1);
                } else {
                    assert(now.len() == 1);
                }
                done = done + 1;
            }
        }
    }
    proof {
        assert(done == ordered.len()) by {
            assert(ordered.skip(done).reverse().len() == ordered.len() - done);
        }
        assert(log.take(done) =~= log);
        let now = entries_log(out@);
        assert forall|f: spec_fn(Seq<u32>) -> bool| #[trigger] wsum(now, f) == wsum(given, f) by {
            assert(wsum(now, f) == wsum(log, f));
        }
        assert forall|key: Seq<u32>| #[trigger] exact(given, key) <= i64::MAX by {
            lemma_exact_ascending(now, key);
            let f = |k: Seq<u32>| is_key(key, k);
            assert(wsum(now, f) == wsum(given, f));
        }
    }
    Ok(out)
}

/// The sum of a key counts a further record of it.
proof fn lemma_key_sum(made: Log, part: Log, more: Log, record: (Seq<u32>, u64), i: int)
    requires
        same_sums(made, part),
        0 <= i < made.len(),
        made[i].0 == record.0,
        forall|f: spec_fn(Seq<u32>) -> bool| #[trigger]
            wsum(more, f) == wsum(part, f) + if f(record.0) {
                record.1 as nat
            } else {
                0
            },
    ensures
        made[i].1 + record.1 <= exact(more, record.0),
{
    let key = record.0;
    let f = |k: Seq<u32>| is_key(key, k);
    lemma_wsum_at_least(made, f, i);
    assert(wsum(made, f) == wsum(part, f));
    assert(wsum(more, f) == exact(more, key));
}

/// A key is no less frequent in a whole log than in its beginning.
proof fn lemma_first_exact(log: Log, n: int, given: Log, key: Seq<u32>)
    requires
        0 <= n <= log.len(),
        same_sums(log, given),
    ensures
        exact(log.take(n), key) <= exact(given, key),
{
    let f = |k: Seq<u32>| is_key(key, k);
    assert(log =~= log.take(n) + log.skip(n));
    lemma_wsum_append(log.take(n), log.skip(n), f);
    assert(wsum(log, f) == wsum(given, f));
}

/// Where keys ascend, none is more frequent than its record says.
proof fn lemma_exact_ascending(log: Log, key: Seq<u32>)
    requires
        strictly_ascending(log),
        log_ok(log),
    ensures
        exact(log, key) <= i64::MAX,
        (forall|i: int| 0 <= i < log.len() ==> (#[trigger] log[i]).0 != key) ==> exact(log, key)
            == 0,
    decreases log.len(),
{
    if log.len() > 0 {
        let init = log.drop_last();
        assert forall|i: int, j: int| 0 <= i < j < init.len() implies lex_leq::<u32>(
            (#[trigger] init[i]).0,
            (#[trigger] init[j]).0,
        ) && init[i].0 != init[j].0 by {
            assert(init[i] == log[i] && init[j] == log[j]);
        }
        assert forall|i: int| 0 <= i < init.len() implies {
            &&& (#[trigger] init[i]).0.len() > 0
            &&& 0 < init[i].1 <= i64::MAX
            &&& scalars(init[i].0)
        } by {
            assert(init[i] == log[i]);
        }
        lemma_exact_ascending(init, key);
        let last = log[log.len() - 1];
        assert(last.1 <= i64::MAX);
        if last.0 == key {
            assert forall|i: int| 0 <= i < init.len() implies (#[trigger] init[i]).0 != key by {
                assert(init[i] == log[i]);
                assert(log[i].0 != last.0);
            }
        } else if forall|i: int| 0 <= i < log.len() ==> (#[trigger] log[i]).0 != key {
            assert forall|i: int| 0 <= i < init.len() implies (#[trigger] init[i]).0 != key by {
                assert(init[i] == log[i]);
            }
        }
    }
}

} // verus!
