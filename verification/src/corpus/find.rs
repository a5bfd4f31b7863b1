//! Looking for texts in texts.
use crate::corpus::json::stands_text;
use crate::corpus::types::{lower, lower_char, lowered};
use vstd::prelude::*;

verus! {

/// The first place from `at` on where a text that is not empty stands.
pub open spec fn find_from(s: Seq<char>, at: int, t: Seq<char>) -> Option<int>
    decreases s.len() - at,
{
    if at < 0 || t.len() == 0 || at + t.len() > s.len() {
        None
    } else if stands_text(s, at, t) {
        Some(at)
    } else {
        find_from(s, at + 1, t)
    }
}

/// Whether a text stands at a place.
pub(crate) fn is_text_at(s: &[char], at: usize, t: &[char]) -> (r: bool)
    requires
        at <= s@.len(),
    ensures
        r == stands_text(s@, at as int, t@),
{
    if s.len() - at < t.len() {
        return false;
    }
    let length: usize = s.len();
    let mut i: usize = 0;
    while i < t.len()
        invariant
            i <= t@.len(),
            length == s@.len(),
            at + t@.len() <= length,
            forall|k: int| 0 <= k < i ==> s@[at + k] == #[trigger] t@[k],
        decreases t.len() - i,
    {
        if s[at + i] != t[i] {
            proof {
                assert(s@.subrange(at as int, at + t@.len())[i as int] == s@[at + i]);
            }
            return false;
        }
        i += 1;
    }
    assert(s@.subrange(at as int, at + t@.len()) =~= t@);
    true
}

/// The first place from `at` on where a text stands.
pub(crate) fn find_text(s: &[char], at: usize, t: &[char]) -> (r: Option<usize>)
    requires
        at <= s@.len(),
        t@.len() > 0,
    ensures
        match r {
            Some(i) => find_from(s@, at as int, t@) == Some(i as int) && at <= i && i + t@.len()
                <= s@.len(),
            None => find_from(s@, at as int, t@) is None,
        },
{
    let mut i: usize = at;
    while s.len() - i >= t.len()
        invariant
            at <= i <= s@.len(),
            t@.len() > 0,
            find_from(s@, at as int, t@) == find_from(s@, i as int, t@),
        decreases s.len() - i,
    {
        if is_text_at(s, i, t) {
            return Some(i);
        }
        i += 1;
    }
    None
}

/// The first place from `at` on where a text stands in any case of its letters.
pub open spec fn find_lowered(s: Seq<char>, at: int, t: Seq<char>) -> Option<int> {
    find_from(lowered(s), at, t)
}

/// The first place from `at` on where a text in lower case stands in any case
/// of its letters.
pub(crate) fn find_lowered_text(s: &[char], at: usize, t: &[char]) -> (r: Option<usize>)
    requires
        at <= s@.len(),
        t@.len() > 0,
    ensures
        match r {
            Some(i) => find_lowered(s@, at as int, t@) == Some(i as int) && at <= i && i + t@.len()
                <= s@.len(),
            None => find_lowered(s@, at as int, t@) is None,
        },
{
    let mut i: usize = at;
    while s.len() - i >= t.len()
        invariant
            at <= i <= s@.len(),
            t@.len() > 0,
            find_lowered(s@, at as int, t@) == find_lowered(s@, i as int, t@),
        decreases s.len() - i,
    {
        if is_lowered_at(s, i, t) {
            return Some(i);
        }
        i += 1;
    }
    None
}

/// Whether a text stands at a place in any case of its letters.
fn is_lowered_at(s: &[char], at: usize, t: &[char]) -> (r: bool)
    requires
        at <= s@.len(),
    ensures
        r == stands_text(lowered(s@), at as int, t@),
{
    if s.len() - at < t.len() {
        return false;
    }
    let ghost low = lowered(s@);
    let length: usize = s.len();
    let mut i: usize = 0;
    while i < t.len()
        invariant
            i <= t@.len(),
            length == s@.len(),
            low == lowered(s@),
            at + t@.len() <= length,
            forall|k: int| 0 <= k < i ==> low[at + k] == #[trigger] t@[k],
        decreases t.len() - i,
    {
        if lower_char(s[at + i]) != t[i] {
            proof {
                assert(low.subrange(at as int, at + t@.len())[i as int] == low[at + i]);
            }
            return false;
        }
        i += 1;
    }
    assert(low.subrange(at as int, at + t@.len()) =~= t@);
    true
}

} // verus!
