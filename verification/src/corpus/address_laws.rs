//! What is left out of a social text before its records are taken.
use crate::corpus::preparer::{
    all_runs, begins, behind_address, behind_at, bracket_depth, colon, kept, lemma_first_such,
    runs_of, without_address,
};
use crate::text::{trimmed_start, white};
use vstd::prelude::*;
use vstd::string::*;

verus! {

/// The address of a reply.
pub struct Address {
    /// Whether the address begins with the word for a reply.
    pub reply: bool,
    pub name: Seq<char>,
    /// What ends the address: a colon or white space.
    pub end: char,
}

/// An address as it is written.
pub open spec fn address_written(a: Address) -> Seq<char> {
    (if a.reply {
        "回复"@
    } else {
        Seq::empty()
    }) + seq!['@'] + a.name + seq![a.end]
}

/// No colon stands in a text.
pub open spec fn no_colon(s: Seq<char>) -> bool {
    forall|i: int| 0 <= i < s.len() ==> (#[trigger] s[i]) != ':' && s[i] != '：'
}

/// An address that this can follow: a name without colons, up to a colon; or a name in one
/// word, up to white space, where no colon follows at all.
pub open spec fn addresses(a: Address, rest: Seq<char>) -> bool {
    &&& a.name.len() > 0
    &&& !white(a.name[0])
    &&& no_colon(a.name)
    &&& a.end == ':' || a.end == '：' || {
        &&& white(a.end)
        &&& no_colon(rest)
        &&& forall|i: int| 0 <= i < a.name.len() ==> !white(#[trigger] a.name[i])
    }
}

/// A text that begins with no address and no white space.
pub open spec fn unaddressed(s: Seq<char>) -> bool {
    s.len() > 0 ==> s[0] != '@' && !white(s[0]) && !(s.len() >= 2 && s[0] == '回' && s[1] == '复')
}

proof fn lemma_begins(s: Seq<char>)
    ensures
        begins(s, "回复"@) <==> s.len() >= 2 && s[0] == '回' && s[1] == '复',
        "回复"@.len() == 2,
        "回复"@ == seq!['回', '复'],
{
    reveal_strlit("回复");
    assert("回复"@ =~= seq!['回', '复']);
    if s.len() >= 2 {
        assert(s.take(2) =~= seq![s[0], s[1]]);
        if begins(s, "回复"@) {
            assert(s.take(2)[0] == '回' && s.take(2)[1] == '复');
        }
    }
}

proof fn lemma_address(a: Address, rest: Seq<char>)
    requires
        addresses(a, rest),
    ensures
        behind_address(address_written(a) + rest) == Some(trimmed_start(rest)),
        trimmed_start(address_written(a) + rest) == address_written(a) + rest,
{
    let s = address_written(a) + rest;
    lemma_begins(s);
    let tail = a.name + seq![a.end] + rest;
    let n = a.name.len() as int;
    if a.reply {
        assert(s[0] == '回' && s[1] == '复');
        let part = s.skip(2);
        assert(part[0] == '@');
        assert(trimmed_start(part) == part);
        assert(part.skip(1) =~= tail);
        assert(!white('回'));
    } else {
        assert(s[0] == '@');
        assert(!begins(s, "回复"@));
        assert(s.skip(1) =~= tail);
    }
    assert(tail[0] == a.name[0]);
    assert(trimmed_start(tail) == tail);
    assert(behind_at(s) == Some(tail));
    assert forall|i: int| 0 <= i < n implies (#[trigger] tail[i]) == a.name[i] by {}
    assert(tail[n] == a.end);
    assert(tail.skip(n + 1) =~= rest);
    let f = |c: char| colon(c);
    let g = |c: char| white(c);
    if colon(a.end) {
        lemma_first_such(tail, f, n);
    } else {
        assert forall|i: int| 0 <= i < tail.len() implies !colon(#[trigger] tail[i]) by {
            if i > n {
                assert(tail[i] == rest[i - n - 1]);
            }
        }
        lemma_first_such(tail, f, tail.len() as int);
        lemma_first_such(tail, g, n);
    }
}

proof fn lemma_unaddressed(s: Seq<char>)
    requires
        unaddressed(s),
    ensures
        behind_address(s) is None,
        trimmed_start(s) == s,
{
    lemma_begins(s);
}

/// A text that begins with no address stays as it is.
pub proof fn law_text_without_address_stays(s: Seq<char>)
    requires
        unaddressed(s),
    ensures
        without_address(s) == s,
{
    lemma_unaddressed(s);
}

/// The address before a text is left out, and the text stays as it is.
pub proof fn law_address_is_left_out(a: Address, text: Seq<char>)
    requires
        addresses(a, text),
        unaddressed(text),
    ensures
        without_address(address_written(a) + text) == text,
{
    lemma_address(a, text);
    lemma_unaddressed(text);
}

/// So are two addresses before a text.
pub proof fn law_two_addresses_are_left_out(a: Address, b: Address, text: Seq<char>)
    requires
        addresses(a, address_written(b) + text),
        addresses(b, text),
        unaddressed(text),
    ensures
        without_address(address_written(a) + (address_written(b) + text)) == text,
{
    lemma_address(a, address_written(b) + text);
    lemma_address(b, text);
    lemma_unaddressed(text);
}

/// No bracket stands in a text.
pub open spec fn no_brackets(s: Seq<char>) -> bool {
    forall|i: int| 0 <= i < s.len() ==> (#[trigger] s[i]) != '[' && s[i] != ']'
}

proof fn lemma_runs_ahead(a: Seq<char>, b: Seq<char>, n: nat)
    requires
        n <= a.len(),
    ensures
        bracket_depth(a + b, n) == bracket_depth(a, n),
        runs_of(a + b, true, n) == runs_of(a, true, n),
    decreases n,
{
    if n > 0 {
        lemma_runs_ahead(a, b, (n - 1) as nat);
        assert((a + b)[n - 1] == a[n - 1]);
    }
}

proof fn lemma_no_depth(a: Seq<char>, n: nat)
    requires
        n <= a.len(),
        no_brackets(a),
    ensures
        bracket_depth(a, n) == 0,
    decreases n,
{
    if n > 0 {
        lemma_no_depth(a, (n - 1) as nat);
        assert(a[n - 1] != '[' && a[n - 1] != ']');
    }
}

/// What stands in brackets adds to no run.
proof fn lemma_within(s: Seq<char>, at: nat, n: nat, ended: Seq<Seq<char>>)
    requires
        at + n <= s.len(),
        bracket_depth(s, at) == 1,
        runs_of(s, true, at) == (ended, Seq::<char>::empty()),
        forall|i: int| at <= i < at + n ==> (#[trigger] s[i]) != '[' && s[i] != ']',
    ensures
        bracket_depth(s, at + n) == 1,
        runs_of(s, true, at + n) == (ended, Seq::<char>::empty()),
    decreases n,
{
    if n > 0 {
        lemma_within(s, at, (n - 1) as nat, ended);
        assert(s[at + n - 1] != '[' && s[at + n - 1] != ']');
    }
}

proof fn lemma_runs_behind(p: Seq<char>, b: Seq<char>, n: nat, ended: Seq<Seq<char>>)
    requires
        n <= b.len(),
        bracket_depth(p + b, p.len()) == 0,
        runs_of(p + b, true, p.len()) == (ended, Seq::<char>::empty()),
    ensures
        bracket_depth(p + b, p.len() + n) == bracket_depth(b, n),
        runs_of(p + b, true, p.len() + n) == (
            ended + runs_of(b, true, n).0,
            runs_of(b, true, n).1,
        ),
    decreases n,
{
    if n > 0 {
        lemma_runs_behind(p, b, (n - 1) as nat, ended);
        assert((p + b)[p.len() + n - 1] == b[n - 1]);
        let r = runs_of(b, true, (n - 1) as nat);
        assert(ended + r.0.push(r.1) =~= (ended + r.0).push(r.1));
    } else {
        assert(ended + Seq::<Seq<char>>::empty() =~= ended);
    }
}

/// What stands in brackets in a social text gives no record, and parts what stands on
/// both sides of them.
pub proof fn law_bracketed_text_is_left_out(a: Seq<char>, inside: Seq<char>, b: Seq<char>)
    requires
        no_brackets(a),
        no_brackets(inside),
    ensures
        all_runs(a + seq!['['] + inside + seq![']'] + b, true) == all_runs(a, true) + all_runs(
            b,
            true,
        ),
{
    let p = a + seq!['['] + inside + seq![']'];
    let s = p + b;
    let n = a.len();
    let m = inside.len();
    assert(s =~= a + (seq!['['] + inside + seq![']'] + b));
    lemma_runs_ahead(a, seq!['['] + inside + seq![']'] + b, n);
    lemma_no_depth(a, n);
    assert(s[n as int] == '[');
    assert(!kept('[') && !kept(']'));
    let ended = all_runs(a, true);
    assert(runs_of(s, true, n + 1) == (ended, Seq::<char>::empty()));
    assert(bracket_depth(s, n + 1) == 1);
    assert forall|i: int| n + 1 <= i < n + 1 + m implies (#[trigger] s[i]) != '[' && s[i]
        != ']' by {
        assert(s[i] == inside[i - n - 1]);
    }
    lemma_within(s, n + 1, m, ended);
    assert(s[(n + 1 + m) as int] == ']');
    assert(p.len() == n + 1 + m + 1);
    assert(runs_of(s, true, p.len()) == (ended, Seq::<char>::empty()));
    assert(bracket_depth(s, p.len()) == 0);
    lemma_runs_behind(p, b, b.len(), ended);
    let r = runs_of(b, true, b.len());
    assert(ended + r.0.push(r.1) =~= (ended + r.0).push(r.1));
}

} // verus!
