//! Where groups come from: a query that names none has none.
use crate::chinese::data::DataView;
use crate::query::algebra::{lemma_same_elements, lemma_spliced_from};
use crate::query::expr::Re;
use crate::query::grammar::{
    copies, ends_concat, peek, read_alt, read_alternatives, read_anagram, read_atom, read_concat,
    read_conjuncts, read_counts, read_intersection, read_piece, read_property, read_quantifier,
    read_query, repeated, start_reading, Read, Reading,
};
use crate::query::laws::{all_group_free, group_free, law_matching_without_groups_is_exact};
use crate::query::normal::{
    in_alt, in_anagram, in_concat, in_intersect, lemma_sorted_list_exists,
    lemma_sorted_set_exists, re_alt, re_anagram, re_concat, re_intersect, re_star, sorted_list,
    sorted_set, spliced,
};
use crate::query::program::ProgramView;
use vstd::prelude::*;

verus! {

proof fn lemma_spliced_free(parts: Seq<Re>, open: spec_fn(Re) -> Seq<Re>)
    requires
        all_group_free(parts),
        forall|p: Re| group_free(p) ==> all_group_free(#[trigger] open(p)),
    ensures
        all_group_free(spliced(parts, open)),
{
    let flat = spliced(parts, open);
    assert forall|i: int| 0 <= i < flat.len() implies group_free(#[trigger] flat[i]) by {
        let x = flat[i];
        assert(flat.contains(x));
        lemma_spliced_from(parts, open, x);
        let k = choose|k: int| 0 <= k < parts.len() && open(#[trigger] parts[k]).contains(x);
        assert(group_free(parts[k]));
        let inside = open(parts[k]);
        let m = choose|m: int| 0 <= m < inside.len() && inside[m] == x;
        assert(group_free(inside[m]));
    }
}

proof fn lemma_elements_free(s: Seq<Re>, t: Seq<Re>)
    requires
        all_group_free(s),
        forall|x: Re| #[trigger] t.contains(x) ==> s.contains(x),
    ensures
        all_group_free(t),
        t.len() > 0 ==> group_free(t[0]),
{
    assert forall|i: int| 0 <= i < t.len() implies group_free(#[trigger] t[i]) by {
        assert(t.contains(t[i]));
        let k = choose|k: int| 0 <= k < s.len() && s[k] == t[i];
        assert(group_free(s[k]));
    }
}

/// The constructors bring in no group.
proof fn lemma_normal_free(parts: Seq<Re>)
    requires
        all_group_free(parts),
    ensures
        group_free(re_concat(parts)),
        group_free(re_alt(parts)),
        group_free(re_intersect(parts)),
        group_free(re_anagram(parts)),
{
    let c = spliced(parts, |p: Re| in_concat(p));
    lemma_spliced_free(parts, |p: Re| in_concat(p));
    if c.len() > 0 {
        assert(group_free(c[0]));
    }
    let a = spliced(parts, |p: Re| in_alt(p));
    lemma_spliced_free(parts, |p: Re| in_alt(p));
    lemma_sorted_set_exists(a);
    lemma_elements_free(a, sorted_set(a));
    let n = spliced(parts, |p: Re| in_intersect(p));
    lemma_spliced_free(parts, |p: Re| in_intersect(p));
    lemma_sorted_set_exists(n);
    lemma_elements_free(n, sorted_set(n));
    let g = spliced(parts, |p: Re| in_anagram(p));
    lemma_spliced_free(parts, |p: Re| in_anagram(p));
    lemma_sorted_list_exists(g);
    lemma_same_elements(sorted_list(g), g);
    lemma_elements_free(g, sorted_list(g));
}

proof fn lemma_star_free(inner: Re)
    requires
        group_free(inner),
    ensures
        group_free(re_star(inner)),
{
}

/// What is read forgets no group, and brings in none where no group has been met by
/// its end.
spec fn reads_groups(s: Reading, r: Read) -> bool {
    r matches Ok((re, next)) ==> {
        &&& s.groups.len() <= next.groups.len()
        &&& next.groups.len() == 0 ==> group_free(re)
    }
}

/// No group is among the parts where none has been met.
spec fn parts_free(s: Reading, parts: Seq<Re>) -> bool {
    s.groups.len() == 0 ==> all_group_free(parts)
}

#[verifier::spinoff_prover]
#[verifier::rlimit(40)]
proof fn lemma_property(q: Seq<char>, data: DataView, s: Reading, start: int)
    ensures
        reads_groups(s, read_property(q, data, s, start)),
{
}

proof fn lemma_copies_free(re: Re, n: nat)
    requires
        group_free(re),
    ensures
        all_group_free(copies(re, n)),
{
}

proof fn lemma_repeated_free(atom: Re, low: nat, high: Option<nat>)
    requires
        group_free(atom),
    ensures
        group_free(repeated(atom, low, high)),
{
    lemma_star_free(atom);
    lemma_copies_free(atom, low);
    let first = copies(atom, low);
    let pair = seq![Re::Epsilon, atom];
    assert(all_group_free(pair));
    lemma_normal_free(pair);
    match high {
        None => {
            let parts = first.push(re_star(atom));
            assert forall|i: int| 0 <= i < parts.len() implies group_free(#[trigger] parts[i]) by {
                if i < low {
                    assert(parts[i] == first[i]);
                }
            }
            lemma_normal_free(parts);
        },
        Some(h) => {
            let m = (h - low) as nat;
            let more = copies(re_alt(pair), m);
            let parts = first + more;
            assert forall|i: int| 0 <= i < parts.len() implies group_free(#[trigger] parts[i]) by {
                if i < low {
                    assert(parts[i] == first[i]);
                } else {
                    assert(parts[i] == more[i - low]);
                }
            }
            lemma_normal_free(parts);
        },
    }
}

#[verifier::spinoff_prover]
#[verifier::rlimit(40)]
proof fn lemma_quantifier(q: Seq<char>, s: Reading, atom: Re)
    requires
        s.groups.len() == 0 ==> group_free(atom),
    ensures
        reads_groups(s, read_quantifier(q, s, atom)),
{
    if s.groups.len() == 0 {
        let pair = seq![Re::Epsilon, atom];
        assert(all_group_free(pair));
        lemma_normal_free(pair);
        lemma_star_free(atom);
        let plus = seq![atom, re_star(atom)];
        assert(all_group_free(plus));
        lemma_normal_free(plus);
    }
    if let Ok((low, high, end)) = read_counts(q, s.at) {
        if s.groups.len() == 0 {
            lemma_repeated_free(atom, low, high);
        }
    }
}

proof fn lemma_part_pushed(s: Reading, next: Reading, parts: Seq<Re>, part: Re)
    requires
        parts_free(s, parts),
        s.groups.len() <= next.groups.len(),
        next.groups.len() == 0 ==> group_free(part),
    ensures
        parts_free(next, parts.push(part)),
{
    if next.groups.len() == 0 {
        let more = parts.push(part);
        assert forall|i: int| 0 <= i < more.len() implies group_free(#[trigger] more[i]) by {
            if i < parts.len() {
                assert(more[i] == parts[i]);
            }
        }
    }
}

#[verifier::spinoff_prover]
#[verifier::rlimit(40)]
proof fn lemma_alt(q: Seq<char>, data: DataView, s: Reading)
    ensures
        reads_groups(s, read_alt(q, data, s)),
    decreases q.len() - s.at, 9nat,
{
    lemma_intersection(q, data, s);
    if let Ok((first, next)) = read_intersection(q, data, s) {
        if s.at <= next.at <= q.len() {
            let none = Seq::<Re>::empty();
            lemma_part_pushed(s, next, none, first);
            assert(none.push(first) =~= seq![first]);
            lemma_alternatives(q, data, next, seq![first]);
            assert(read_alt(q, data, s) == read_alternatives(q, data, next, seq![first]));
        }
    }
}

#[verifier::spinoff_prover]
#[verifier::rlimit(40)]
proof fn lemma_alternatives(q: Seq<char>, data: DataView, s: Reading, parts: Seq<Re>)
    requires
        parts_free(s, parts),
    ensures
        reads_groups(s, read_alternatives(q, data, s, parts)),
    decreases q.len() - s.at, 8nat,
{
    if peek(q, s.at) != Some('|') {
        if s.groups.len() == 0 {
            lemma_normal_free(parts);
        }
    } else {
        let after = Reading { at: s.at + 1, ..s };
        lemma_intersection(q, data, after);
        if let Ok((part, next)) = read_intersection(q, data, after) {
            if s.at < next.at <= q.len() {
                lemma_part_pushed(s, next, parts, part);
                lemma_alternatives(q, data, next, parts.push(part));
            }
        }
    }
}

#[verifier::spinoff_prover]
#[verifier::rlimit(40)]
proof fn lemma_intersection(q: Seq<char>, data: DataView, s: Reading)
    ensures
        reads_groups(s, read_intersection(q, data, s)),
    decreases q.len() - s.at, 7nat,
{
    let none = Seq::<Re>::empty();
    lemma_concat(q, data, s, none);
    if let Ok((first, next)) = read_concat(q, data, s, none) {
        if s.at <= next.at <= q.len() {
            lemma_part_pushed(s, next, none, first);
            assert(none.push(first) =~= seq![first]);
            lemma_conjuncts(q, data, next, seq![first]);
            assert(read_intersection(q, data, s) == read_conjuncts(q, data, next, seq![first]));
        }
    }
}

#[verifier::spinoff_prover]
#[verifier::rlimit(40)]
proof fn lemma_conjuncts(q: Seq<char>, data: DataView, s: Reading, parts: Seq<Re>)
    requires
        parts_free(s, parts),
    ensures
        reads_groups(s, read_conjuncts(q, data, s, parts)),
    decreases q.len() - s.at, 6nat,
{
    if peek(q, s.at) != Some('&') {
        if s.groups.len() == 0 {
            lemma_normal_free(parts);
        }
    } else {
        let after = Reading { at: s.at + 1, ..s };
        lemma_concat(q, data, after, Seq::empty());
        if let Ok((part, next)) = read_concat(q, data, after, Seq::empty()) {
            if s.at < next.at <= q.len() {
                lemma_part_pushed(s, next, parts, part);
                lemma_conjuncts(q, data, next, parts.push(part));
            }
        }
    }
}

#[verifier::spinoff_prover]
#[verifier::rlimit(40)]
proof fn lemma_concat(q: Seq<char>, data: DataView, s: Reading, parts: Seq<Re>)
    requires
        parts_free(s, parts),
    ensures
        reads_groups(s, read_concat(q, data, s, parts)),
    decreases q.len() - s.at, 5nat,
{
    if peek(q, s.at) is None || ends_concat(q[s.at]) {
        if s.groups.len() == 0 {
            lemma_normal_free(parts);
        }
    } else {
        lemma_piece(q, data, s);
        if let Ok((part, next)) = read_piece(q, data, s) {
            if s.at < next.at <= q.len() {
                lemma_part_pushed(s, next, parts, part);
                lemma_concat(q, data, next, parts.push(part));
            }
        }
    }
}

#[verifier::spinoff_prover]
#[verifier::rlimit(40)]
proof fn lemma_piece(q: Seq<char>, data: DataView, s: Reading)
    ensures
        reads_groups(s, read_piece(q, data, s)),
    decreases q.len() - s.at, 4nat,
{
    lemma_atom(q, data, s);
    if let Ok((atom, next)) = read_atom(q, data, s) {
        lemma_quantifier(q, next, atom);
    }
}

#[verifier::spinoff_prover]
#[verifier::rlimit(40)]
proof fn lemma_anagram(
    q: Seq<char>,
    data: DataView,
    s: Reading,
    parts: Seq<Re>,
    start: int,
)
    requires
        parts_free(s, parts),
    ensures
        reads_groups(s, read_anagram(q, data, s, parts, start)),
    decreases q.len() - s.at, 5nat,
{
    if peek(q, s.at) is Some {
        if q[s.at] == '>' {
            if s.groups.len() == 0 {
                lemma_normal_free(parts);
            }
        } else {
            lemma_piece(q, data, s);
            if let Ok((part, next)) = read_piece(q, data, s) {
                if s.at < next.at <= q.len() {
                    lemma_part_pushed(s, next, parts, part);
                    lemma_anagram(q, data, next, parts.push(part), start);
                }
            }
        }
    }
}

#[verifier::spinoff_prover]
#[verifier::rlimit(40)]
proof fn lemma_atom(q: Seq<char>, data: DataView, s: Reading)
    ensures
        reads_groups(s, read_atom(q, data, s)),
    decreases q.len() - s.at, 3nat,
{
    let next = Reading { at: s.at + 1, ..s };
    if let Some(c) = peek(q, s.at) {
        if c == '(' {
            lemma_alt(q, data, next);
        } else if c == '<' {
            lemma_anagram(q, data, next, Seq::empty(), s.at);
        } else if c == '@' {
            lemma_property(q, data, next, s.at);
        }
    }
}

/// A query in which no group is met has an expression without groups.
pub proof fn lemma_query_groups(q: Seq<char>, data: DataView)
    ensures
        read_query(q, data) matches Ok((re, end)) ==> end.groups.len() == 0 ==> group_free(re),
{
    lemma_alt(q, data, start_reading());
}

/// A query that has no groups matches exactly where it matches approximately.
pub proof fn law_query_without_groups_is_exact(
    q: Seq<char>,
    data: DataView,
    program: ProgramView,
    w: Seq<char>,
)
    requires
        program.wf(),
        read_query(q, data) matches Ok((re, end)) && program.expr == re && program.classes
            == end.classes && program.capture_count == end.groups.len() as u32
            && end.groups.len() <= u32::MAX,
        program.capture_count == 0,
    ensures
        program.accepts(w) == program.accepts_approx(w),
{
    lemma_query_groups(q, data);
    law_matching_without_groups_is_exact(program, w);
}

} // verus!
