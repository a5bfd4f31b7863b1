//! What queries that are made of queries match.
use crate::chinese::data::DataView;
use crate::chinese::han::{all_han, han};
use crate::ordered::{sorted, Ordered};
use crate::query::class::{in_ranges, joined, lemma_joined, CharRange, ClassView};
use crate::query::context::{
    abreast, after_concat, after_meet, agree, alike, calm, fits, grown, lemma_alike_later,
    lemma_alt_alike, lemma_concat_alike, lemma_grown_twice, lemma_intersection_alike,
    lemma_langs_alike, lemma_parts_later, lemma_parts_push, lemma_piece_alike, parts_alike, sound,
};
use crate::query::expr::Re;
use crate::query::grammar::{
    class_member, class_members, ends_concat, first_index, intern, intern_group,
    lemma_first_index, past_letters, peek, read_alt, read_alternatives,
    read_anagram, read_atom, read_class, read_concat, read_conjuncts, read_counts, read_intersection,
    read_piece, read_property, read_quantifier, read_query, repeated, sorted_ranges,
    start_reading, Fault, Reading,
};
use crate::query::language::{
    lanagram, lcat, lemma_lanagram_single, lemma_lanagram_split, lemma_lanagram_step,
    lemma_lcat_append, lemma_lcat_pair, lemma_lcat_single, lmeet, lunion, Lang,
};
use crate::query::normal::{
    all_wf, lang, langs, lemma_alt_lang, lemma_anagram_lang, lemma_concat_lang,
    lemma_intersect_lang, lemma_langs, lemma_normal_wf, re_alt, re_anagram, re_concat, re_intersect, re_star, re_wf, Env,
};
use crate::query::meaning::{
    law_counts_bound_repetition, law_group_matches_its_character, law_optional_matches_nothing_or_once,
    law_plus_repeats_at_least_once, law_star_repeats, lemma_pieces, times,
};
use crate::query::phrases::{
    lemma_content_read, lemma_count_read, lemma_one_piece, lemma_repeated_wf, query_program,
};
use crate::text::{decimal, digit, lemma_decimal_read_back, letter, trimmed, white};
use vstd::prelude::*;

verus! {

/// The characters that groups stand for, in the order in which they were met.
pub open spec fn named(groups: Seq<Seq<char>>, a: spec_fn(Seq<char>) -> char) -> Seq<char> {
    Seq::new(groups.len(), |i: int| a(groups[i]))
}

/// The texts that an expression matches where it was read, with the characters that
/// are chosen for the names of groups.
pub open spec fn meaning(re: Re, s: Reading, a: spec_fn(Seq<char>) -> char) -> Lang {
    lang(re, s.classes, Env::Bound(named(s.groups, a)))
}

/// The query can be read and matches the text, where each group stands for the
/// character that is chosen for its name.
pub open spec fn matches_under(
    q: Seq<char>,
    data: DataView,
    a: spec_fn(Seq<char>) -> char,
    w: Seq<char>,
) -> bool {
    read_query(q, data) matches Ok((re, end)) && meaning(re, end, a).contains(w)
}

/// The query is no longer than its classes and groups can be numbered.
pub open spec fn short(q: Seq<char>) -> bool {
    q.len() + 1 <= u32::MAX
}

proof fn lemma_fits_self(s: Reading, a: spec_fn(Seq<char>) -> char)
    ensures
        fits(s.classes, named(s.groups, a), s, a),
{
    reveal(fits);
}

proof fn lemma_same_meaning(x: Re, s: Reading, y: Re, t: Reading, a: spec_fn(Seq<char>) -> char)
    requires
        alike(x, s, y, t, a),
    ensures
        meaning(x, s, a) == meaning(y, t, a),
        re_wf(x),
        re_wf(y),
{
    lemma_fits_self(s, a);
    lemma_fits_self(t, a);
    reveal(alike);
}

/// The texts that each of the parts matches.
spec fn meanings(xs: Seq<Re>, s: Reading, a: spec_fn(Seq<char>) -> char) -> Seq<Lang> {
    langs(xs, s.classes, Env::Bound(named(s.groups, a)))
}

proof fn lemma_same_meanings(
    xs: Seq<Re>,
    s: Reading,
    ys: Seq<Re>,
    t: Reading,
    a: spec_fn(Seq<char>) -> char,
)
    requires
        parts_alike(xs, s, ys, t, a),
    ensures
        meanings(xs, s, a) == meanings(ys, t, a),
        all_wf(xs),
        all_wf(ys),
{
    lemma_fits_self(s, a);
    lemma_fits_self(t, a);
    lemma_langs_alike(
        xs,
        s,
        ys,
        t,
        a,
        s.classes,
        named(s.groups, a),
        t.classes,
        named(t.groups, a),
    );
}

proof fn lemma_meanings_append(
    xs: Seq<Re>,
    ys: Seq<Re>,
    s: Reading,
    a: spec_fn(Seq<char>) -> char,
)
    ensures
        meanings(xs + ys, s, a) == meanings(xs, s, a) + meanings(ys, s, a),
{
    assert(meanings(xs + ys, s, a) =~= meanings(xs, s, a) + meanings(ys, s, a));
}

proof fn lemma_start(q: Seq<char>)
    requires
        short(q),
    ensures
        sound(q, start_reading()),
{
}

/// What ends a query has been read soundly.
proof fn lemma_end_is_sound(q: Seq<char>, data: DataView)
    requires
        short(q),
    ensures
        read_query(q, data) matches Ok((re, end)) ==> sound(q, end) && end.at == q.len()
            && re_wf(re),
{
    if let Ok((re, end)) = read_query(q, data) {
        let a = |name: Seq<char>| 'a';
        let s = start_reading();
        lemma_start(q);
        lemma_alt_alike(q, q, 0, data, s, s, a);
        let x = read_alt(q, data, s);
        assert(agree(q, q, 0, s, x, s, x, a));
        lemma_same_meaning(re, end, re, end, a);
    }
}

/// A query accepts a text exactly where there is one character for each name of a
/// group with which the text is matched: a group stands for the same character
/// wherever its name occurs, and any number of names may occur.
pub proof fn law_each_name_stands_for_one_character(q: Seq<char>, data: DataView, w: Seq<char>)
    requires
        short(q),
        query_program(q, data) is Some,
    ensures
        query_program(q, data)->Some_0.accepts(w) <==> all_han(w) && exists|
            a: spec_fn(Seq<char>) -> char,
        | #[trigger] matches_under(q, data, a, w),
{
    lemma_end_is_sound(q, data);
    let p = query_program(q, data)->Some_0;
    let (re, end) = read_query(q, data)->Ok_0;
    let groups = end.groups;
    if p.accepts(w) {
        let sigma = choose|sigma: Seq<char>|
            sigma.len() == p.capture_count && #[trigger] lang(
                p.expr,
                p.classes,
                Env::Bound(sigma),
            ).contains(w);
        let a = |name: Seq<char>| sigma[choose|i: int| 0 <= i < groups.len() && groups[i] == name];
        assert(named(groups, a) =~= sigma) by {
            assert forall|i: int| 0 <= i < groups.len() implies named(groups, a)[i] == sigma[i] by {
                let k = choose|k: int| 0 <= k < groups.len() && groups[k] == groups[i];
                assert(k == i);
            }
        }
        assert(matches_under(q, data, a, w));
    }
    if exists|a: spec_fn(Seq<char>) -> char| #[trigger] matches_under(q, data, a, w) {
        let a = choose|a: spec_fn(Seq<char>) -> char| #[trigger] matches_under(q, data, a, w);
        let sigma = named(groups, a);
        assert(lang(p.expr, p.classes, Env::Bound(sigma)).contains(w));
    }
}

/// Where no group is met, the names do not matter.
proof fn lemma_no_names(q: Seq<char>, data: DataView, a: spec_fn(Seq<char>) -> char, w: Seq<char>)
    requires
        short(q),
        query_program(q, data) matches Some(p) && p.capture_count == 0,
        all_han(w),
    ensures
        matches_under(q, data, a, w) <==> query_program(q, data)->Some_0.accepts(w),
{
    lemma_end_is_sound(q, data);
    law_each_name_stands_for_one_character(q, data, w);
    let (re, end) = read_query(q, data)->Ok_0;
    assert(end.groups.len() == 0);
    if exists|b: spec_fn(Seq<char>) -> char| #[trigger] matches_under(q, data, b, w) {
        let b = choose|b: spec_fn(Seq<char>) -> char| #[trigger] matches_under(q, data, b, w);
        assert(named(end.groups, a) =~= named(end.groups, b));
    }
}

/// Alternatives that are read to the end of a query are read in a longer one, and
/// more may follow there.
#[verifier::spinoff_prover]
#[verifier::rlimit(60)]
proof fn lemma_alt_chain(
    p: Seq<char>,
    q: Seq<char>,
    d: int,
    data: DataView,
    s: Reading,
    xs: Seq<Re>,
    t: Reading,
    before: Seq<Re>,
    ys: Seq<Re>,
    a: spec_fn(Seq<char>) -> char,
) -> (r: (Seq<Re>, Seq<Re>, Reading))
    requires
        abreast(p, q, d, s, t),
        parts_alike(xs, s, ys, t, a),
        read_alternatives(p, data, s, xs) matches Ok((_, n)) && n.at == p.len(),
        after_meet(peek(q, p.len() + d)),
    ensures
        read_alternatives(p, data, s, xs) matches Ok((re, n)) && {
            &&& re == re_alt(r.0)
            &&& abreast(p, q, d, n, r.2)
            &&& parts_alike(r.0, n, r.1, r.2, a)
            &&& grown(t, r.2)
            &&& read_alternatives(q, data, t, before + ys) == read_alternatives(
                q,
                data,
                r.2,
                before + r.1,
            )
        },
    decreases p.len() - s.at,
{
    if s.at == p.len() {
        assert(peek(p, s.at) is None);
        (xs, ys, t)
    } else {
        assert(p[s.at] == q[s.at + d]);
        assert(peek(p, s.at) == Some('|'));
        let (u, v) = (Reading { at: s.at + 1, ..s }, Reading { at: t.at + 1, ..t });
        let (part, n) = read_intersection(p, data, u)->Ok_0;
        lemma_intersection_alike(p, q, d, data, u, v, a);
        let (other, m) = read_intersection(q, data, v)->Ok_0;
        lemma_parts_push(xs, s, part, n, ys, t, other, m, a);
        assert((before + ys).push(other) =~= before + ys.push(other));
        assert(read_alternatives(p, data, s, xs) == read_alternatives(p, data, n, xs.push(part)));
        assert(read_alternatives(q, data, t, before + ys) == read_alternatives(
            q,
            data,
            m,
            before + ys.push(other),
        ));
        let r = lemma_alt_chain(
            p,
            q,
            d,
            data,
            n,
            xs.push(part),
            m,
            before,
            ys.push(other),
            a,
        );
        lemma_grown_twice(t, m, r.2);
        r
    }
}

/// How a whole query begins.
proof fn lemma_query_begins(p: Seq<char>, data: DataView)
    requires
        read_query(p, data) is Ok,
    ensures
        read_intersection(p, data, start_reading()) matches Ok((first, n)) && read_alternatives(
            p,
            data,
            n,
            seq![first],
        ) == read_query(p, data),
        read_query(p, data)->Ok_0.1.at == p.len(),
{
}

/// A whole query that stands in a longer one is read there as a list of alternatives
/// with the same meaning.
#[verifier::spinoff_prover]
#[verifier::rlimit(60)]
proof fn lemma_query_in(
    p: Seq<char>,
    q: Seq<char>,
    d: int,
    data: DataView,
    t: Reading,
    before: Seq<Re>,
    a: spec_fn(Seq<char>) -> char,
) -> (r: (Seq<Re>, Reading, Re, Reading))
    requires
        abreast(p, q, d, start_reading(), t),
        read_query(p, data) is Ok,
        after_meet(peek(q, p.len() + d)),
    ensures
        all_wf(r.0),
        r.1.at == p.len() + d,
        sound(q, r.1),
        grown(t, r.1),
        lunion(meanings(r.0, r.1, a)) == meaning(
            read_query(p, data)->Ok_0.0,
            read_query(p, data)->Ok_0.1,
            a,
        ),
        later_meanings(r.0, r.1, a),
        read_intersection(q, data, t) == Ok::<(Re, Reading), Fault>((r.2, r.3)),
        t.at <= r.3.at <= q.len(),
        read_alternatives(q, data, r.3, before.push(r.2)) == read_alternatives(
            q,
            data,
            r.1,
            before + r.0,
        ),
{
    let s = start_reading();
    lemma_query_begins(p, data);
    let (re, end) = read_query(p, data)->Ok_0;
    let (first, n) = read_intersection(p, data, s)->Ok_0;
    lemma_intersection_alike(p, q, d, data, s, t, a);
    let (other, m) = read_intersection(q, data, t)->Ok_0;
    let none = Seq::<Re>::empty();
    lemma_parts_push(none, s, first, n, none, t, other, m, a);
    assert(none.push(first) =~= seq![first]);
    assert(none.push(other) =~= seq![other]);
    let (xs, ys, e) = lemma_alt_chain(p, q, d, data, n, seq![first], m, before, seq![other], a);
    assert(before + seq![other] =~= before.push(other));
    lemma_grown_twice(t, m, e);
    lemma_same_meanings(xs, end, ys, e, a);
    lemma_alt_lang(xs, end.classes, Env::Bound(named(end.groups, a)));
    lemma_later_meanings(xs, end, ys, e, a);
    (ys, e, other, m)
}

/// The parts keep their meaning while reading goes on.
spec fn later_meanings(xs: Seq<Re>, s: Reading, a: spec_fn(Seq<char>) -> char) -> bool {
    forall|n: Reading| #[trigger] grown(s, n) ==> meanings(xs, n, a) == meanings(xs, s, a)
}

proof fn lemma_later_meanings(
    xs: Seq<Re>,
    s: Reading,
    ys: Seq<Re>,
    t: Reading,
    a: spec_fn(Seq<char>) -> char,
)
    requires
        parts_alike(xs, s, ys, t, a),
    ensures
        later_meanings(ys, t, a),
{
    assert forall|n: Reading| #[trigger] grown(t, n) implies meanings(ys, n, a) == meanings(
        ys,
        t,
        a,
    ) by {
        assert(grown(s, s));
        lemma_parts_later(xs, s, s, ys, t, n, a);
        lemma_same_meanings(xs, s, ys, t, a);
        lemma_same_meanings(xs, s, ys, n, a);
    }
}

/// A query of two queries with a bar between them matches what one of the two
/// matches.
#[verifier::spinoff_prover]
#[verifier::rlimit(60)]
pub proof fn law_bar_matches_either(
    x: Seq<char>,
    y: Seq<char>,
    data: DataView,
    a: spec_fn(Seq<char>) -> char,
    w: Seq<char>,
)
    requires
        short(x + seq!['|'] + y),
        query_program(x, data) is Some,
        query_program(y, data) is Some,
    ensures
        query_program(x + seq!['|'] + y, data) is Some,
        matches_under(x + seq!['|'] + y, data, a, w) <==> matches_under(x, data, a, w)
            || matches_under(y, data, a, w),
{
    let q = x + seq!['|'] + y;
    let s = start_reading();
    let none = Seq::<Re>::empty();
    let n = x.len() as int;
    lemma_start(q);
    assert(q[n] == '|');
    assert forall|i: int| 0 <= i < x.len() implies x[i] == q[i + 0] by {}
    let (xs, e, first, m) = lemma_query_in(x, q, 0, data, s, none, a);
    assert(none.push(first) =~= seq![first]);
    assert(none + xs =~= xs);
    assert(read_alt(q, data, s) == read_alternatives(q, data, e, xs));
    let t = Reading { at: n + 1, ..e };
    let d = n + 1;
    assert forall|i: int| 0 <= i < y.len() implies y[i] == q[i + d] by {}
    let (ys, f, other, k) = lemma_query_in(y, q, d, data, t, xs, a);
    assert(peek(q, e.at) == Some('|'));
    assert(read_alternatives(q, data, e, xs) == read_alternatives(q, data, k, xs.push(other))) by {
        assert(e.at < k.at <= q.len());
    }
    assert(peek(q, f.at) is None);
    let whole = re_alt(xs + ys);
    assert(read_alternatives(q, data, f, xs + ys) == Ok::<(Re, Reading), Fault>((whole, f)));
    assert(read_query(q, data) == Ok::<(Re, Reading), Fault>((whole, f)));
    lemma_alt_lang(xs + ys, f.classes, Env::Bound(named(f.groups, a)));
    lemma_meanings_append(xs, ys, f, a);
    assert(grown(e, f)) by {
        lemma_grown_twice(e, t, f);
    }
    assert(meanings(xs, f, a) == meanings(xs, e, a));
    lemma_union_append(meanings(xs, e, a), meanings(ys, f, a), w);
}

proof fn lemma_union_append(xs: Seq<Lang>, ys: Seq<Lang>, w: Seq<char>)
    ensures
        lunion(xs + ys).contains(w) <==> lunion(xs).contains(w) || lunion(ys).contains(w),
{
    let all = xs + ys;
    if lunion(all).contains(w) {
        let i = choose|i: int| 0 <= i < all.len() && (#[trigger] all[i]).contains(w);
        if i < xs.len() {
            assert(xs[i].contains(w));
        } else {
            assert(ys[i - xs.len()].contains(w));
        }
    }
    if lunion(xs).contains(w) {
        let i = choose|i: int| 0 <= i < xs.len() && (#[trigger] xs[i]).contains(w);
        assert(all[i].contains(w));
    }
    if lunion(ys).contains(w) {
        let i = choose|i: int| 0 <= i < ys.len() && (#[trigger] ys[i]).contains(w);
        assert(all[i + xs.len()].contains(w));
    }
}

/// The query can be read as one intersection: it has no bar outside of brackets.
pub open spec fn without_bar(q: Seq<char>, data: DataView) -> bool {
    &&& q.len() > 0
    &&& read_intersection(q, data, start_reading()) matches Ok((_, end)) && end.at == q.len()
}

/// Parts of an intersection that are read to the end of a query are read in a longer
/// one, and more may follow there.
#[verifier::spinoff_prover]
#[verifier::rlimit(60)]
proof fn lemma_meet_chain(
    p: Seq<char>,
    q: Seq<char>,
    d: int,
    data: DataView,
    s: Reading,
    xs: Seq<Re>,
    t: Reading,
    before: Seq<Re>,
    ys: Seq<Re>,
    a: spec_fn(Seq<char>) -> char,
) -> (r: (Seq<Re>, Seq<Re>, Reading))
    requires
        abreast(p, q, d, s, t),
        xs.len() > 0,
        parts_alike(xs, s, ys, t, a),
        read_conjuncts(p, data, s, xs) matches Ok((_, n)) && n.at == p.len(),
        after_concat(peek(q, p.len() + d)),
    ensures
        r.0.len() > 0,
        read_conjuncts(p, data, s, xs) matches Ok((re, n)) && {
            &&& re == re_intersect(r.0)
            &&& abreast(p, q, d, n, r.2)
            &&& parts_alike(r.0, n, r.1, r.2, a)
            &&& grown(t, r.2)
            &&& read_conjuncts(q, data, t, before + ys) == read_conjuncts(
                q,
                data,
                r.2,
                before + r.1,
            )
        },
    decreases p.len() - s.at,
{
    if s.at == p.len() {
        assert(peek(p, s.at) is None);
        (xs, ys, t)
    } else {
        assert(p[s.at] == q[s.at + d]);
        assert(peek(p, s.at) == Some('&'));
        let none = Seq::<Re>::empty();
        let (u, v) = (Reading { at: s.at + 1, ..s }, Reading { at: t.at + 1, ..t });
        let (part, n) = read_concat(p, data, u, none)->Ok_0;
        lemma_concat_alike(p, q, d, data, u, none, v, none, a);
        let (other, m) = read_concat(q, data, v, none)->Ok_0;
        lemma_parts_push(xs, s, part, n, ys, t, other, m, a);
        assert((before + ys).push(other) =~= before + ys.push(other));
        assert(read_conjuncts(p, data, s, xs) == read_conjuncts(p, data, n, xs.push(part)));
        assert(read_conjuncts(q, data, t, before + ys) == read_conjuncts(
            q,
            data,
            m,
            before + ys.push(other),
        ));
        let r = lemma_meet_chain(
            p,
            q,
            d,
            data,
            n,
            xs.push(part),
            m,
            before,
            ys.push(other),
            a,
        );
        lemma_grown_twice(t, m, r.2);
        r
    }
}

/// How a query without a bar begins, and what it means as a query.
#[verifier::spinoff_prover]
proof fn lemma_meet_begins(p: Seq<char>, data: DataView, a: spec_fn(Seq<char>) -> char)
    requires
        without_bar(p, data),
    ensures
        read_concat(p, data, start_reading(), Seq::empty()) matches Ok((first, n))
            && read_conjuncts(p, data, n, seq![first]) == read_intersection(
            p,
            data,
            start_reading(),
        ),
        read_query(p, data) matches Ok((re, end)) && end == read_intersection(
            p,
            data,
            start_reading(),
        )->Ok_0.1 && meaning(re, end, a) == meaning(
            read_intersection(p, data, start_reading())->Ok_0.0,
            end,
            a,
        ),
{
    let (re, end) = read_intersection(p, data, start_reading())->Ok_0;
    assert(peek(p, end.at) is None);
    assert(read_alternatives(p, data, end, seq![re]) == Ok::<(Re, Reading), Fault>(
        (re_alt(seq![re]), end),
    ));
    assert(read_query(p, data) == Ok::<(Re, Reading), Fault>((re_alt(seq![re]), end)));
    let env = Env::Bound(named(end.groups, a));
    lemma_alt_lang(seq![re], end.classes, env);
    lemma_langs(seq![re], end.classes, env, 0);
    let ls = langs(seq![re], end.classes, env);
    assert forall|w: Seq<char>| lunion(ls).contains(w) <==> #[trigger] lang(
        re,
        end.classes,
        env,
    ).contains(w) by {
        assert(ls[0] == lang(re, end.classes, env));
    }
    assert(lunion(ls) =~= lang(re, end.classes, env));
}

/// A query without a bar that stands in a longer one is read there as a list of parts
/// with the same meaning.
#[verifier::spinoff_prover]
#[verifier::rlimit(60)]
proof fn lemma_meet_in(
    p: Seq<char>,
    q: Seq<char>,
    d: int,
    data: DataView,
    t: Reading,
    before: Seq<Re>,
    a: spec_fn(Seq<char>) -> char,
) -> (r: (Seq<Re>, Reading, Re, Reading))
    requires
        abreast(p, q, d, start_reading(), t),
        without_bar(p, data),
        after_concat(peek(q, p.len() + d)),
    ensures
        r.0.len() > 0,
        all_wf(r.0),
        r.1.at == p.len() + d,
        sound(q, r.1),
        grown(t, r.1),
        read_query(p, data) is Ok,
        lmeet(meanings(r.0, r.1, a)) == meaning(
            read_query(p, data)->Ok_0.0,
            read_query(p, data)->Ok_0.1,
            a,
        ),
        later_meanings(r.0, r.1, a),
        read_concat(q, data, t, Seq::empty()) == Ok::<(Re, Reading), Fault>((r.2, r.3)),
        t.at <= r.3.at <= q.len(),
        read_conjuncts(q, data, r.3, before.push(r.2)) == read_conjuncts(
            q,
            data,
            r.1,
            before + r.0,
        ),
{
    let s = start_reading();
    let none = Seq::<Re>::empty();
    lemma_meet_begins(p, data, a);
    let (re, end) = read_intersection(p, data, s)->Ok_0;
    let (first, n) = read_concat(p, data, s, none)->Ok_0;
    lemma_concat_alike(p, q, d, data, s, none, t, none, a);
    let (other, m) = read_concat(q, data, t, none)->Ok_0;
    lemma_parts_push(none, s, first, n, none, t, other, m, a);
    assert(none.push(first) =~= seq![first]);
    assert(none.push(other) =~= seq![other]);
    let (xs, ys, e) = lemma_meet_chain(p, q, d, data, n, seq![first], m, before, seq![other], a);
    assert(before + seq![other] =~= before.push(other));
    lemma_grown_twice(t, m, e);
    lemma_same_meanings(xs, end, ys, e, a);
    lemma_intersect_lang(xs, end.classes, Env::Bound(named(end.groups, a)));
    lemma_later_meanings(xs, end, ys, e, a);
    (ys, e, other, m)
}

proof fn lemma_meet_append(xs: Seq<Lang>, ys: Seq<Lang>, w: Seq<char>)
    ensures
        lmeet(xs + ys).contains(w) <==> lmeet(xs).contains(w) && lmeet(ys).contains(w),
{
    let all = xs + ys;
    if lmeet(all).contains(w) {
        assert forall|i: int| 0 <= i < xs.len() implies (#[trigger] xs[i]).contains(w) by {
            assert(all[i].contains(w));
        }
        assert forall|i: int| 0 <= i < ys.len() implies (#[trigger] ys[i]).contains(w) by {
            assert(all[i + xs.len()].contains(w));
        }
    }
    if lmeet(xs).contains(w) && lmeet(ys).contains(w) {
        assert forall|i: int| 0 <= i < all.len() implies (#[trigger] all[i]).contains(w) by {
            if i < xs.len() {
                assert(xs[i].contains(w));
            } else {
                assert(ys[i - xs.len()].contains(w));
            }
        }
    }
}

/// A query of two queries with `&` between them matches what both of them match, the
/// whole of it: each of the two may itself be made with `&`, but has no bar outside of
/// brackets. Groups of one name stand for one character in both.
#[verifier::spinoff_prover]
#[verifier::rlimit(60)]
pub proof fn law_and_matches_both(
    x: Seq<char>,
    y: Seq<char>,
    data: DataView,
    a: spec_fn(Seq<char>) -> char,
    w: Seq<char>,
)
    requires
        short(x + seq!['&'] + y),
        without_bar(x, data),
        without_bar(y, data),
    ensures
        query_program(x, data) is Some,
        query_program(y, data) is Some,
        query_program(x + seq!['&'] + y, data) is Some,
        without_bar(x + seq!['&'] + y, data),
        matches_under(x + seq!['&'] + y, data, a, w) <==> matches_under(x, data, a, w)
            && matches_under(y, data, a, w),
{
    let q = x + seq!['&'] + y;
    let s = start_reading();
    let none = Seq::<Re>::empty();
    let n = x.len() as int;
    lemma_start(q);
    assert(q[n] == '&');
    assert forall|i: int| 0 <= i < x.len() implies x[i] == q[i + 0] by {}
    let (xs, e, first, m) = lemma_meet_in(x, q, 0, data, s, none, a);
    assert(none.push(first) =~= seq![first]);
    assert(none + xs =~= xs);
    assert(read_intersection(q, data, s) == read_conjuncts(q, data, e, xs));
    let t = Reading { at: n + 1, ..e };
    let d = n + 1;
    assert forall|i: int| 0 <= i < y.len() implies y[i] == q[i + d] by {}
    let (ys, f, other, k) = lemma_meet_in(y, q, d, data, t, xs, a);
    assert(peek(q, e.at) == Some('&'));
    assert(read_conjuncts(q, data, e, xs) == read_conjuncts(q, data, k, xs.push(other))) by {
        assert(e.at < k.at <= q.len());
    }
    assert(peek(q, f.at) is None);
    let whole = re_intersect(xs + ys);
    assert(read_conjuncts(q, data, f, xs + ys) == Ok::<(Re, Reading), Fault>((whole, f)));
    assert(read_intersection(q, data, s) == Ok::<(Re, Reading), Fault>((whole, f)));
    lemma_meet_begins(q, data, a);
    assert(all_wf(xs + ys)) by {
        assert forall|i: int| 0 <= i < (xs + ys).len() implies re_wf(#[trigger] (xs + ys)[i]) by {
            if i < xs.len() {
                assert((xs + ys)[i] == xs[i]);
            } else {
                assert((xs + ys)[i] == ys[i - xs.len()]);
            }
        }
    }
    lemma_intersect_lang(xs + ys, f.classes, Env::Bound(named(f.groups, a)));
    lemma_meanings_append(xs, ys, f, a);
    assert(grown(e, f)) by {
        lemma_grown_twice(e, t, f);
    }
    assert(meanings(xs, f, a) == meanings(xs, e, a));
    lemma_meet_append(meanings(xs, e, a), meanings(ys, f, a), w);
}

/// What a query with `&` accepts, where no group occurs: what both of its parts
/// accept.
pub proof fn law_and_accepts_what_both_accept(
    x: Seq<char>,
    y: Seq<char>,
    data: DataView,
    w: Seq<char>,
)
    requires
        short(x + seq!['&'] + y),
        without_bar(x, data),
        without_bar(y, data),
        query_program(x, data) matches Some(p) && p.capture_count == 0,
        query_program(y, data) matches Some(p) && p.capture_count == 0,
    ensures
        query_program(x + seq!['&'] + y, data) matches Some(both) && (both.accepts(w)
            <==> query_program(x, data)->Some_0.accepts(w) && query_program(
            y,
            data,
        )->Some_0.accepts(w)),
{
    let q = x + seq!['&'] + y;
    let some = |name: Seq<char>| 'a';
    law_and_matches_both(x, y, data, some, w);
    law_each_name_stands_for_one_character(q, data, w);
    law_each_name_stands_for_one_character(x, data, w);
    if all_han(w) {
        lemma_no_names(x, data, some, w);
        lemma_no_names(y, data, some, w);
        if exists|a: spec_fn(Seq<char>) -> char| #[trigger] matches_under(q, data, a, w) {
            let a = choose|a: spec_fn(Seq<char>) -> char| #[trigger] matches_under(q, data, a, w);
            law_and_matches_both(x, y, data, a, w);
            lemma_no_names(x, data, a, w);
            lemma_no_names(y, data, a, w);
        }
        if matches_under(x, data, some, w) && matches_under(y, data, some, w) {
            assert(matches_under(q, data, some, w));
        }
    }
}

/// What a query with a bar accepts: what one of its parts accepts.
pub proof fn law_bar_accepts_what_either_accepts(
    x: Seq<char>,
    y: Seq<char>,
    data: DataView,
    w: Seq<char>,
)
    requires
        short(x + seq!['|'] + y),
        query_program(x, data) is Some,
        query_program(y, data) is Some,
    ensures
        query_program(x + seq!['|'] + y, data) matches Some(both) && (both.accepts(w)
            <==> query_program(x, data)->Some_0.accepts(w) || query_program(
            y,
            data,
        )->Some_0.accepts(w)),
{
    let q = x + seq!['|'] + y;
    let some = |name: Seq<char>| 'a';
    law_bar_matches_either(x, y, data, some, w);
    law_each_name_stands_for_one_character(q, data, w);
    law_each_name_stands_for_one_character(x, data, w);
    law_each_name_stands_for_one_character(y, data, w);
    if exists|a: spec_fn(Seq<char>) -> char| #[trigger] matches_under(q, data, a, w) {
        let a = choose|a: spec_fn(Seq<char>) -> char| #[trigger] matches_under(q, data, a, w);
        law_bar_matches_either(x, y, data, a, w);
    }
    if exists|a: spec_fn(Seq<char>) -> char| #[trigger] matches_under(x, data, a, w) {
        let a = choose|a: spec_fn(Seq<char>) -> char| #[trigger] matches_under(x, data, a, w);
        law_bar_matches_either(x, y, data, a, w);
        assert(matches_under(q, data, a, w));
    }
    if exists|a: spec_fn(Seq<char>) -> char| #[trigger] matches_under(y, data, a, w) {
        let a = choose|a: spec_fn(Seq<char>) -> char| #[trigger] matches_under(y, data, a, w);
        law_bar_matches_either(x, y, data, a, w);
        assert(matches_under(q, data, a, w));
    }
}

/// The query can be read as one concatenation: it has neither a bar nor `&` outside of
/// brackets.
pub open spec fn of_pieces(q: Seq<char>, data: DataView) -> bool {
    &&& q.len() > 0
    &&& read_concat(q, data, start_reading(), Seq::empty()) matches Ok((_, end)) && end.at
        == q.len()
}

/// How a query of pieces begins.
proof fn lemma_pieces_begin(q: Seq<char>, data: DataView)
    requires
        of_pieces(q, data),
    ensures
        calm(Some(q[0])),
        !ends_concat(q[0]),
{
    let s = start_reading();
    assert(peek(q, 0) == Some(q[0]));
    if ends_concat(q[0]) {
        assert(read_concat(q, data, s, Seq::empty())->Ok_0.1 == s);
    } else {
        assert(read_piece(q, data, s) is Ok);
        assert(read_atom(q, data, s) is Ok);
        if digit(q[0]) {
            assert(!han(q[0]));
        }
    }
}

/// What a query of pieces means as a query.
#[verifier::spinoff_prover]
proof fn lemma_pieces_mean(p: Seq<char>, data: DataView, a: spec_fn(Seq<char>) -> char)
    requires
        of_pieces(p, data),
        re_wf(read_concat(p, data, start_reading(), Seq::empty())->Ok_0.0),
    ensures
        without_bar(p, data),
        read_query(p, data) matches Ok((re, end)) && end == read_concat(
            p,
            data,
            start_reading(),
            Seq::empty(),
        )->Ok_0.1 && meaning(re, end, a) == meaning(
            read_concat(p, data, start_reading(), Seq::empty())->Ok_0.0,
            end,
            a,
        ),
{
    let (re, end) = read_concat(p, data, start_reading(), Seq::empty())->Ok_0;
    assert(peek(p, end.at) is None);
    assert(read_conjuncts(p, data, end, seq![re]) == Ok::<(Re, Reading), Fault>(
        (re_intersect(seq![re]), end),
    ));
    assert(read_intersection(p, data, start_reading()) == Ok::<(Re, Reading), Fault>(
        (re_intersect(seq![re]), end),
    ));
    lemma_meet_begins(p, data, a);
    let env = Env::Bound(named(end.groups, a));
    assert(all_wf(seq![re]));
    lemma_intersect_lang(seq![re], end.classes, env);
    lemma_langs(seq![re], end.classes, env, 0);
    let ls = langs(seq![re], end.classes, env);
    assert(ls[0] == lang(re, end.classes, env));
    assert(lmeet(ls) =~= lang(re, end.classes, env));
}

/// Pieces that are read to the end of a query are read in a longer one, and more may
/// follow there.
#[verifier::spinoff_prover]
#[verifier::rlimit(60)]
proof fn lemma_piece_chain(
    p: Seq<char>,
    q: Seq<char>,
    d: int,
    data: DataView,
    s: Reading,
    xs: Seq<Re>,
    t: Reading,
    before: Seq<Re>,
    ys: Seq<Re>,
    a: spec_fn(Seq<char>) -> char,
) -> (r: (Seq<Re>, Seq<Re>, Reading))
    requires
        abreast(p, q, d, s, t),
        parts_alike(xs, s, ys, t, a),
        read_concat(p, data, s, xs) matches Ok((_, n)) && n.at == p.len(),
    ensures
        read_concat(p, data, s, xs) matches Ok((re, n)) && {
            &&& re == re_concat(r.0)
            &&& abreast(p, q, d, n, r.2)
            &&& parts_alike(r.0, n, r.1, r.2, a)
            &&& grown(t, r.2)
            &&& read_concat(q, data, t, before + ys) == read_concat(q, data, r.2, before + r.1)
        },
    decreases p.len() - s.at,
{
    if s.at == p.len() {
        assert(peek(p, s.at) is None);
        (xs, ys, t)
    } else {
        assert(p[s.at] == q[s.at + d]);
        assert(peek(p, s.at) == Some(p[s.at]));
        assert(!ends_concat(p[s.at]));
        let (part, n) = read_piece(p, data, s)->Ok_0;
        lemma_piece_alike(p, q, d, data, s, t, a);
        let (other, m) = read_piece(q, data, t)->Ok_0;
        lemma_parts_push(xs, s, part, n, ys, t, other, m, a);
        assert((before + ys).push(other) =~= before + ys.push(other));
        assert(read_concat(p, data, s, xs) == read_concat(p, data, n, xs.push(part)));
        assert(read_concat(q, data, t, before + ys) == read_concat(
            q,
            data,
            m,
            before + ys.push(other),
        ));
        let r = lemma_piece_chain(
            p,
            q,
            d,
            data,
            n,
            xs.push(part),
            m,
            before,
            ys.push(other),
            a,
        );
        lemma_grown_twice(t, m, r.2);
        r
    }
}

/// A query of pieces that stands in a longer one is read there as a list of pieces with
/// the same meaning.
#[verifier::spinoff_prover]
#[verifier::rlimit(60)]
proof fn lemma_pieces_in(
    p: Seq<char>,
    q: Seq<char>,
    d: int,
    data: DataView,
    t: Reading,
    before: Seq<Re>,
    a: spec_fn(Seq<char>) -> char,
) -> (r: (Seq<Re>, Reading))
    requires
        abreast(p, q, d, start_reading(), t),
        of_pieces(p, data),
    ensures
        all_wf(r.0),
        r.1.at == p.len() + d,
        sound(q, r.1),
        grown(t, r.1),
        without_bar(p, data),
        read_query(p, data) is Ok,
        lcat(meanings(r.0, r.1, a)) == meaning(
            read_query(p, data)->Ok_0.0,
            read_query(p, data)->Ok_0.1,
            a,
        ),
        later_meanings(r.0, r.1, a),
        read_concat(q, data, t, before) == read_concat(q, data, r.1, before + r.0),
{
    let s = start_reading();
    let none = Seq::<Re>::empty();
    let (re, end) = read_concat(p, data, s, none)->Ok_0;
    let (xs, ys, e) = lemma_piece_chain(p, q, d, data, s, none, t, before, none, a);
    assert(before + none =~= before);
    lemma_same_meanings(xs, end, ys, e, a);
    lemma_normal_wf(xs);
    lemma_concat_lang(xs, end.classes, Env::Bound(named(end.groups, a)));
    lemma_later_meanings(xs, end, ys, e, a);
    lemma_pieces_mean(p, data, a);
    (ys, e)
}

/// A query of two queries one behind the other, which have neither a bar nor `&`
/// outside of brackets, matches what is made of a text that the first one matches and
/// one that the second one matches.
#[verifier::spinoff_prover]
#[verifier::rlimit(60)]
pub proof fn law_queries_in_a_row_match_in_order(
    x: Seq<char>,
    y: Seq<char>,
    data: DataView,
    a: spec_fn(Seq<char>) -> char,
    w: Seq<char>,
)
    requires
        short(x + y),
        of_pieces(x, data),
        of_pieces(y, data),
    ensures
        query_program(x, data) is Some,
        query_program(y, data) is Some,
        query_program(x + y, data) is Some,
        of_pieces(x + y, data),
        matches_under(x + y, data, a, w) <==> exists|k: int|
            0 <= k <= w.len() && matches_under(x, data, a, #[trigger] w.take(k)) && matches_under(
                y,
                data,
                a,
                w.skip(k),
            ),
{
    let q = x + y;
    let s = start_reading();
    let none = Seq::<Re>::empty();
    let n = x.len() as int;
    lemma_start(q);
    lemma_pieces_begin(y, data);
    assert(q[n] == y[0]);
    assert forall|i: int| 0 <= i < x.len() implies x[i] == q[i + 0] by {}
    let (xs, e) = lemma_pieces_in(x, q, 0, data, s, none, a);
    assert(none + xs =~= xs);
    assert forall|i: int| 0 <= i < y.len() implies y[i] == q[i + n] by {}
    let (ys, f) = lemma_pieces_in(y, q, n, data, e, xs, a);
    assert(peek(q, f.at) is None);
    let whole = re_concat(xs + ys);
    assert(read_concat(q, data, f, xs + ys) == Ok::<(Re, Reading), Fault>((whole, f)));
    assert(all_wf(xs + ys)) by {
        assert forall|i: int| 0 <= i < (xs + ys).len() implies re_wf(#[trigger] (xs + ys)[i]) by {
            if i < xs.len() {
                assert((xs + ys)[i] == xs[i]);
            } else {
                assert((xs + ys)[i] == ys[i - xs.len()]);
            }
        }
    }
    lemma_normal_wf(xs + ys);
    lemma_pieces_mean(q, data, a);
    lemma_concat_lang(xs + ys, f.classes, Env::Bound(named(f.groups, a)));
    lemma_meanings_append(xs, ys, f, a);
    assert(meanings(xs, f, a) == meanings(xs, e, a));
    lemma_lcat_append(meanings(xs, e, a), meanings(ys, f, a));
    lemma_lcat_pair(lcat(meanings(xs, e, a)), lcat(meanings(ys, f, a)), w);
    assert(matches_under(q, data, a, w) <==> exists|k: int|
        0 <= k <= w.len() && lcat(meanings(xs, e, a)).contains(#[trigger] w.take(k)) && lcat(
            meanings(ys, f, a),
        ).contains(w.skip(k)));
}

/// A query in brackets with something behind them: the brackets are read as one atom
/// with the meaning of the query.
#[verifier::spinoff_prover]
#[verifier::rlimit(60)]
proof fn lemma_bracketed(
    x: Seq<char>,
    tail: Seq<char>,
    data: DataView,
    a: spec_fn(Seq<char>) -> char,
) -> (r: (Re, Reading))
    requires
        short(seq!['('] + x + seq![')'] + tail),
        query_program(x, data) is Some,
    ensures
        read_atom(seq!['('] + x + seq![')'] + tail, data, start_reading()) == Ok::<
            (Re, Reading),
            Fault,
        >(r),
        r.1.at == x.len() + 2,
        re_wf(r.0),
        meaning(r.0, r.1, a) == meaning(
            read_query(x, data)->Ok_0.0,
            read_query(x, data)->Ok_0.1,
            a,
        ),
        forall|n: Reading| #[trigger]
            grown(r.1, n) ==> meaning(r.0, n, a) == meaning(r.0, r.1, a),
{
    let q = seq!['('] + x + seq![')'] + tail;
    let s = start_reading();
    let t = Reading { at: 1, ..s };
    let n = x.len() as int;
    assert(q[0] == '(' && q[n + 1] == ')');
    assert forall|i: int| 0 <= i < x.len() implies x[i] == q[i + 1] by {}
    let (re, end) = read_query(x, data)->Ok_0;
    assert(read_alt(x, data, s) == Ok::<(Re, Reading), Fault>((re, end)));
    lemma_alt_alike(x, q, 1, data, s, t, a);
    let (inner, m) = read_alt(q, data, t)->Ok_0;
    let e = Reading { at: m.at + 1, ..m };
    assert(peek(q, 0) == Some('('));
    assert(peek(q, m.at) == Some(')'));
    assert(read_atom(q, data, s) == Ok::<(Re, Reading), Fault>((inner, e)));
    assert(grown(end, end));
    lemma_alike_later(re, end, end, inner, m, e, a);
    lemma_same_meaning(re, end, inner, e, a);
    assert forall|k: Reading| #[trigger] grown(e, k) implies meaning(inner, k, a) == meaning(
        inner,
        e,
        a,
    ) by {
        lemma_alike_later(re, end, end, inner, e, k, a);
        lemma_same_meaning(re, end, inner, k, a);
    }
    (inner, e)
}

/// A query in brackets matches what the query matches.
pub proof fn law_brackets_keep_the_meaning(
    x: Seq<char>,
    data: DataView,
    a: spec_fn(Seq<char>) -> char,
    w: Seq<char>,
)
    requires
        short(seq!['('] + x + seq![')']),
        query_program(x, data) is Some,
    ensures
        query_program(seq!['('] + x + seq![')'], data) is Some,
        matches_under(seq!['('] + x + seq![')'], data, a, w) <==> matches_under(x, data, a, w),
{
    let q = seq!['('] + x + seq![')'];
    let none = Seq::<char>::empty();
    assert(q + none =~= q);
    let (re, end) = lemma_bracketed(x, none, data, a);
    assert(peek(q, end.at) is None);
    assert(read_piece(q, data, start_reading()) == Ok::<(Re, Reading), Fault>((re, end)));
    assert(q[0] == '(');
    let whole = lemma_one_piece(q, data, re, end);
}

/// A way to write that what stands before it is repeated.
pub enum Repeat {
    /// `?`
    Optional,
    /// `*`
    Any,
    /// `+`
    OnceOrMore,
    /// `{low}`
    Exactly(nat),
    /// `{low,}`
    AtLeast(nat),
    /// `{low,high}`
    Between(nat, nat),
}

/// How a repetition is written.
pub open spec fn repeat_written(r: Repeat) -> Seq<char> {
    match r {
        Repeat::Optional => seq!['?'],
        Repeat::Any => seq!['*'],
        Repeat::OnceOrMore => seq!['+'],
        Repeat::Exactly(n) => seq!['{'] + decimal(n) + seq!['}'],
        Repeat::AtLeast(n) => seq!['{'] + decimal(n) + seq![',', '}'],
        Repeat::Between(m, n) => seq!['{'] + decimal(m) + seq![','] + decimal(n) + seq!['}'],
    }
}

/// Whether a number of repetitions is what is asked for.
pub open spec fn repeat_allows(r: Repeat, k: nat) -> bool {
    match r {
        Repeat::Optional => k <= 1,
        Repeat::Any => true,
        Repeat::OnceOrMore => k >= 1,
        Repeat::Exactly(n) => k == n,
        Repeat::AtLeast(n) => k >= n,
        Repeat::Between(m, n) => m <= k <= n,
    }
}

/// A repetition that can be written: of no more than 255, and upright.
pub open spec fn repeat_fine(r: Repeat) -> bool {
    match r {
        Repeat::Exactly(n) => n <= 255,
        Repeat::AtLeast(n) => n <= 255,
        Repeat::Between(m, n) => m <= n <= 255,
        _ => true,
    }
}

/// The expression for a repetition.
spec fn repeat_of(re: Re, r: Repeat) -> Re {
    match r {
        Repeat::Optional => re_alt(seq![Re::Epsilon, re]),
        Repeat::Any => re_star(re),
        Repeat::OnceOrMore => re_concat(seq![re, re_star(re)]),
        Repeat::Exactly(n) => repeated(re, n, Some(n)),
        Repeat::AtLeast(n) => repeated(re, n, None),
        Repeat::Between(m, n) => repeated(re, m, Some(n)),
    }
}

/// A repetition at the end of a query is read.
#[verifier::spinoff_prover]
#[verifier::rlimit(60)]
proof fn lemma_repeat_read(q: Seq<char>, s: Reading, re: Re, r: Repeat)
    requires
        repeat_fine(r),
        0 <= s.at,
        s.at + repeat_written(r).len() == q.len(),
        q.subrange(s.at, q.len() as int) == repeat_written(r),
    ensures
        read_quantifier(q, s, re) == Ok::<(Re, Reading), Fault>(
            (repeat_of(re, r), Reading { at: q.len() as int, ..s }),
        ),
{
    let text = repeat_written(r);
    let at = s.at;
    assert forall|i: int| 0 <= i < text.len() implies q[at + i] == #[trigger] text[i] by {
        assert(q.subrange(at, q.len() as int)[i] == q[at + i]);
    }
    assert(q[at + 0] == text[0]);
    assert(peek(q, at) == Some(q[at]));
    match r {
        Repeat::Exactly(n) => {
            let k = decimal(n).len() as int;
            assert(text.subrange(1, 1 + k) =~= decimal(n));
            lemma_number_at(q, at, text, 1, n);
            assert(text[k + 1] == '}');
            assert(q[at + (k + 1)] == '}');
            lemma_count_read(q, at + 1, n, at);
            assert(peek(q, at + 1 + k) == Some('}'));
            assert(read_counts(q, at) == Ok::<(nat, Option<nat>, int), Fault>(
                (n, Some(n), at + k + 2),
            ));
        },
        Repeat::AtLeast(n) => {
            let k = decimal(n).len() as int;
            assert(text.subrange(1, 1 + k) =~= decimal(n));
            lemma_number_at(q, at, text, 1, n);
            assert(text[k + 1] == ',' && text[k + 2] == '}');
            assert(q[at + (k + 1)] == ',' && q[at + (k + 2)] == '}');
            lemma_count_read(q, at + 1, n, at);
            assert(peek(q, at + 1 + k) == Some(','));
            assert(peek(q, at + 2 + k) == Some('}'));
            assert(read_counts(q, at) == Ok::<(nat, Option<nat>, int), Fault>(
                (n, None, at + k + 3),
            ));
        },
        Repeat::Between(m, n) => {
            let k = decimal(m).len() as int;
            let l = decimal(n).len() as int;
            lemma_decimal_read_back(n);
            assert(text.subrange(1, 1 + k) =~= decimal(m));
            lemma_number_at(q, at, text, 1, m);
            assert(text[k + 1] == ',');
            assert(q[at + (k + 1)] == ',');
            lemma_count_read(q, at + 1, m, at);
            assert(text.subrange(k + 2, k + 2 + l) =~= decimal(n));
            lemma_number_at(q, at, text, k + 2, n);
            assert(text[k + l + 2] == '}');
            assert(q[at + (k + l + 2)] == '}');
            lemma_count_read(q, at + k + 2, n, at);
            assert(peek(q, at + 1 + k) == Some(','));
            assert(peek(q, at + 2 + k) == Some(q[at + 2 + k]));
            assert(q[at + 2 + k] != '}');
            assert(peek(q, at + 2 + k + l) == Some('}'));
            assert(read_counts(q, at) == Ok::<(nat, Option<nat>, int), Fault>(
                (m, Some(n), at + k + l + 3),
            ));
        },
        _ => {},
    }
}

proof fn lemma_number_at(q: Seq<char>, at: int, text: Seq<char>, i: int, n: nat)
    requires
        0 <= at,
        0 <= i,
        i + decimal(n).len() <= text.len(),
        at + text.len() == q.len(),
        forall|j: int| 0 <= j < text.len() ==> q[at + j] == #[trigger] text[j],
        text.subrange(i, i + decimal(n).len()) == decimal(n),
    ensures
        q.subrange(at + i, at + i + decimal(n).len()) == decimal(n),
{
    let d = decimal(n);
    assert(q.subrange(at + i, at + i + d.len()) =~= d) by {
        assert forall|j: int| 0 <= j < d.len() implies q.subrange(at + i, at + i + d.len())[j]
            == d[j] by {
            assert(text.subrange(i, i + d.len())[j] == text[i + j]);
            assert(q[at + (i + j)] == text[i + j]);
        }
    }
}

/// So many texts, each of the language.
spec fn in_pieces(l: Lang, w: Seq<char>, r: Repeat) -> bool {
    exists|k: nat| repeat_allows(r, k) && #[trigger] times(l, k).contains(w)
}

proof fn lemma_repeat_lang(re: Re, r: Repeat, classes: Seq<ClassView>, env: Env, w: Seq<char>)
    requires
        repeat_fine(r),
    ensures
        lang(repeat_of(re, r), classes, env).contains(w) <==> in_pieces(
            lang(re, classes, env),
            w,
            r,
        ),
{
    let l = lang(re, classes, env);
    match r {
        Repeat::Optional => {
            law_optional_matches_nothing_or_once(re, classes, env, w);
            lemma_few_times(l, w);
            if in_pieces(l, w, r) {
                let k = choose|k: nat| repeat_allows(r, k) && #[trigger] times(l, k).contains(w);
                assert(k == 0 || k == 1);
            }
            if w.len() == 0 {
                assert(times(l, 0).contains(w));
            }
            if l.contains(w) {
                assert(times(l, 1).contains(w));
            }
        },
        Repeat::Any => {
            law_star_repeats(re, classes, env, w);
        },
        Repeat::OnceOrMore => {
            law_plus_repeats_at_least_once(re, classes, env, w);
        },
        Repeat::Exactly(n) => {
            law_counts_bound_repetition(re, n, Some(n), classes, env, w);
        },
        Repeat::AtLeast(n) => {
            law_counts_bound_repetition(re, n, None, classes, env, w);
        },
        Repeat::Between(m, n) => {
            law_counts_bound_repetition(re, m, Some(n), classes, env, w);
        },
    }
}

proof fn lemma_few_times(l: Lang, w: Seq<char>)
    ensures
        times(l, 0).contains(w) <==> w.len() == 0,
        times(l, 1).contains(w) <==> l.contains(w),
{
    lemma_lcat_single(l);
    assert(Seq::new(1, |i: int| l) =~= seq![l]);
    assert(Seq::new(0, |i: int| l) =~= Seq::<Lang>::empty());
}

/// A query in brackets with a repetition behind them matches what is made of so many
/// texts, one behind the other, each of which the query matches.
#[verifier::spinoff_prover]
#[verifier::rlimit(60)]
pub proof fn law_repetition_matches_so_many_in_a_row(
    x: Seq<char>,
    r: Repeat,
    data: DataView,
    a: spec_fn(Seq<char>) -> char,
    w: Seq<char>,
)
    requires
        short(seq!['('] + x + seq![')'] + repeat_written(r)),
        repeat_fine(r),
        query_program(x, data) is Some,
    ensures
        query_program(seq!['('] + x + seq![')'] + repeat_written(r), data) is Some,
        matches_under(seq!['('] + x + seq![')'] + repeat_written(r), data, a, w) <==> exists|
            pieces: Seq<Seq<char>>,
        | #[trigger]
            pieces.flatten() == w && repeat_allows(r, pieces.len()) && forall|i: int|
                0 <= i < pieces.len() ==> matches_under(x, data, a, #[trigger] pieces[i]),
{
    let tail = repeat_written(r);
    let q = seq!['('] + x + seq![')'] + tail;
    let (re, n) = lemma_bracketed(x, tail, data, a);
    assert(q.subrange(n.at, q.len() as int) =~= tail);
    lemma_repeat_read(q, n, re, r);
    let end = Reading { at: q.len() as int, ..n };
    let out = repeat_of(re, r);
    assert(read_piece(q, data, start_reading()) == Ok::<(Re, Reading), Fault>((out, end)));
    lemma_repeat_wf(re, r);
    assert(q[0] == '(');
    let whole = lemma_one_piece(q, data, out, end);
    let env = Env::Bound(named(end.groups, a));
    lemma_repeat_lang(re, r, end.classes, env, w);
    let l = meaning(re, n, a);
    assert(l == lang(re, end.classes, env));
    assert forall|v: Seq<char>| #[trigger] matches_under(x, data, a, v) <==> l.contains(v) by {}
    if in_pieces(l, w, r) {
        let k = choose|k: nat| repeat_allows(r, k) && #[trigger] times(l, k).contains(w);
        let ls = Seq::new(k, |i: int| l);
        lemma_pieces(ls, w);
        let pieces = choose|pieces: Seq<Seq<char>>| #[trigger]
            pieces.flatten() == w && pieces.len() == ls.len() && forall|i: int|
                0 <= i < ls.len() ==> (#[trigger] ls[i]).contains(pieces[i]);
        assert forall|i: int| 0 <= i < pieces.len() implies matches_under(
            x,
            data,
            a,
            #[trigger] pieces[i],
        ) by {
            assert(ls[i].contains(pieces[i]));
        }
        assert(pieces.flatten() == w);
    }
    if exists|pieces: Seq<Seq<char>>| #[trigger]
        pieces.flatten() == w && repeat_allows(r, pieces.len()) && forall|i: int|
            0 <= i < pieces.len() ==> matches_under(x, data, a, #[trigger] pieces[i]) {
        let pieces = choose|pieces: Seq<Seq<char>>| #[trigger]
            pieces.flatten() == w && repeat_allows(r, pieces.len()) && forall|i: int|
                0 <= i < pieces.len() ==> matches_under(x, data, a, #[trigger] pieces[i]);
        let k = pieces.len();
        let ls = Seq::new(k, |i: int| l);
        assert forall|i: int| 0 <= i < ls.len() implies (#[trigger] ls[i]).contains(pieces[i]) by {
            assert(matches_under(x, data, a, pieces[i]));
        }
        lemma_pieces(ls, w);
        assert(times(l, k).contains(w));
    }
}

proof fn lemma_repeat_wf(re: Re, r: Repeat)
    requires
        re_wf(re),
    ensures
        re_wf(repeat_of(re, r)),
{
    match r {
        Repeat::Optional => {
            assert(all_wf(seq![Re::Epsilon, re]));
            lemma_normal_wf(seq![Re::Epsilon, re]);
        },
        Repeat::Any => {},
        Repeat::OnceOrMore => {
            assert(all_wf(seq![re, re_star(re)]));
            lemma_normal_wf(seq![re, re_star(re)]);
        },
        Repeat::Exactly(n) => {
            lemma_repeated_wf(re, n, Some(n));
        },
        Repeat::AtLeast(n) => {
            lemma_repeated_wf(re, n, None);
        },
        Repeat::Between(m, n) => {
            lemma_repeated_wf(re, m, Some(n));
        },
    }
}

/// The query can be read as one piece.
pub open spec fn of_one_piece(q: Seq<char>, data: DataView) -> bool {
    &&& q.len() > 0
    &&& read_piece(q, data, start_reading()) matches Ok((_, end)) && end.at == q.len()
}

proof fn lemma_piece_begins(q: Seq<char>, data: DataView)
    requires
        of_one_piece(q, data),
    ensures
        calm(Some(q[0])),
        !ends_concat(q[0]),
{
    let s = start_reading();
    assert(peek(q, 0) == Some(q[0]));
    assert(read_atom(q, data, s) is Ok);
    if digit(q[0]) {
        assert(!han(q[0]));
    }
}

/// One piece that stands in a longer query is read there with the same meaning.
#[verifier::spinoff_prover]
proof fn lemma_piece_in(
    p: Seq<char>,
    q: Seq<char>,
    d: int,
    data: DataView,
    t: Reading,
    a: spec_fn(Seq<char>) -> char,
) -> (r: (Re, Reading))
    requires
        abreast(p, q, d, start_reading(), t),
        of_one_piece(p, data),
    ensures
        re_wf(r.0),
        read_piece(q, data, t) == Ok::<(Re, Reading), Fault>(r),
        r.1.at == p.len() + d,
        sound(q, r.1),
        grown(t, r.1),
        read_query(p, data) is Ok,
        forall|n: Reading| #[trigger]
            grown(r.1, n) ==> meaning(r.0, n, a) == meaning(
                read_query(p, data)->Ok_0.0,
                read_query(p, data)->Ok_0.1,
                a,
            ),
{
    let s = start_reading();
    lemma_piece_alike(p, q, d, data, s, t, a);
    let (re, end) = read_piece(p, data, s)->Ok_0;
    let (other, m) = read_piece(q, data, t)->Ok_0;
    lemma_same_meaning(re, end, other, m, a);
    lemma_piece_begins(p, data);
    let whole = lemma_one_piece(p, data, re, end);
    assert(meaning(whole, end, a) =~= meaning(re, end, a));
    assert forall|n: Reading| #[trigger] grown(m, n) implies meaning(other, n, a) == meaning(
        re,
        end,
        a,
    ) by {
        assert(grown(end, end));
        lemma_alike_later(re, end, end, other, m, n, a);
        lemma_same_meaning(re, end, other, n, a);
    }
    (other, m)
}

/// Two pieces and an angle bracket behind them.
proof fn lemma_two_pieces_read(
    q: Seq<char>,
    data: DataView,
    u: Reading,
    x: Re,
    e: Reading,
    y: Re,
    f: Reading,
)
    requires
        0 <= u.at < e.at < f.at < q.len(),
        q[u.at] != '>',
        q[e.at] != '>',
        q[f.at] == '>',
        read_piece(q, data, u) == Ok::<(Re, Reading), Fault>((x, e)),
        read_piece(q, data, e) == Ok::<(Re, Reading), Fault>((y, f)),
    ensures
        read_anagram(q, data, u, Seq::empty(), 0) == Ok::<(Re, Reading), Fault>(
            (re_anagram(seq![x, y]), Reading { at: f.at + 1, ..f }),
        ),
{
    let none = Seq::<Re>::empty();
    let both = seq![x, y];
    assert(none.push(x).push(y) =~= both);
    assert(peek(q, f.at) == Some('>'));
    assert(read_anagram(q, data, f, both, 0) == Ok::<(Re, Reading), Fault>(
        (re_anagram(both), Reading { at: f.at + 1, ..f }),
    ));
    assert(peek(q, e.at) == Some(q[e.at]));
    assert(read_anagram(q, data, e, none.push(x), 0) == read_anagram(q, data, f, both, 0));
    assert(peek(q, u.at) == Some(q[u.at]));
}

/// Two pieces in angle brackets are read as an anagram of what they mean.
#[verifier::spinoff_prover]
#[verifier::rlimit(60)]
proof fn lemma_angle_read(
    x: Seq<char>,
    y: Seq<char>,
    data: DataView,
    a: spec_fn(Seq<char>) -> char,
) -> (r: (Re, Re, Reading))
    requires
        short(seq!['<'] + x + y + seq!['>']),
        of_one_piece(x, data),
        of_one_piece(y, data),
    ensures
        read_query(x, data) is Ok,
        read_query(y, data) is Ok,
        re_wf(r.0),
        re_wf(r.1),
        r.2.at == (seq!['<'] + x + y + seq!['>']).len(),
        read_atom(seq!['<'] + x + y + seq!['>'], data, start_reading()) == Ok::<
            (Re, Reading),
            Fault,
        >((re_anagram(seq![r.0, r.1]), r.2)),
        meaning(r.0, r.2, a) == meaning(
            read_query(x, data)->Ok_0.0,
            read_query(x, data)->Ok_0.1,
            a,
        ),
        meaning(r.1, r.2, a) == meaning(
            read_query(y, data)->Ok_0.0,
            read_query(y, data)->Ok_0.1,
            a,
        ),
{
    let q = seq!['<'] + x + y + seq!['>'];
    let s = start_reading();
    let none = Seq::<Re>::empty();
    let n = x.len() as int;
    lemma_start(q);
    lemma_piece_begins(x, data);
    lemma_piece_begins(y, data);
    let u = Reading { at: 1, ..s };
    assert(q[n + 1] == y[0]);
    assert(q[1] == x[0]);
    assert forall|i: int| 0 <= i < x.len() implies x[i] == q[i + 1] by {}
    let (rx, e) = lemma_piece_in(x, q, 1, data, u, a);
    assert forall|i: int| 0 <= i < y.len() implies y[i] == q[i + (n + 1)] by {}
    assert(q[n + 1 + y.len()] == '>');
    let (ry, f) = lemma_piece_in(y, q, n + 1, data, e, a);
    let end = Reading { at: f.at + 1, ..f };
    assert(q[f.at] == '>');
    lemma_two_pieces_read(q, data, u, rx, e, ry, f);
    assert(q[0] == '<');
    assert(peek(q, 0) == Some('<'));
    assert(read_atom(q, data, s) == read_anagram(q, data, u, none, 0));
    assert(grown(f, end));
    assert(grown(e, end)) by {
        lemma_grown_twice(e, f, end);
    }
    (rx, ry, end)
}

/// Two languages in either order.
proof fn lemma_two_in_either_order(l: Lang, m: Lang, w: Seq<char>)
    ensures
        lanagram(seq![l, m]).contains(w) <==> exists|k: int|
            0 <= k <= w.len() && ((l.contains(#[trigger] w.take(k)) && m.contains(w.skip(k))) || (
            m.contains(w.take(k)) && l.contains(w.skip(k)))),
{
    let ls = seq![l, m];
    assert(ls.remove(0) =~= seq![m]);
    assert(ls.remove(1) =~= seq![l]);
    lemma_lanagram_single(l);
    lemma_lanagram_single(m);
    if lanagram(ls).contains(w) {
        let (j, k) = lemma_lanagram_split(ls, w);
        assert(ls[j].contains(w.take(k)));
    }
    if exists|k: int|
        0 <= k <= w.len() && ((l.contains(#[trigger] w.take(k)) && m.contains(w.skip(k))) || (
        m.contains(w.take(k)) && l.contains(w.skip(k)))) {
        let k = choose|k: int|
            0 <= k <= w.len() && ((l.contains(#[trigger] w.take(k)) && m.contains(w.skip(k))) || (
            m.contains(w.take(k)) && l.contains(w.skip(k))));
        if l.contains(w.take(k)) && m.contains(w.skip(k)) {
            lemma_lanagram_step(ls, w, 0, k);
        } else {
            lemma_lanagram_step(ls, w, 1, k);
        }
    }
}

/// Two pieces in angle brackets match a text of the one and a text of the other in
/// either order, each once.
#[verifier::spinoff_prover]
#[verifier::rlimit(60)]
pub proof fn law_angle_brackets_match_in_either_order(
    x: Seq<char>,
    y: Seq<char>,
    data: DataView,
    a: spec_fn(Seq<char>) -> char,
    w: Seq<char>,
)
    requires
        short(seq!['<'] + x + y + seq!['>']),
        of_one_piece(x, data),
        of_one_piece(y, data),
    ensures
        query_program(seq!['<'] + x + y + seq!['>'], data) is Some,
        matches_under(seq!['<'] + x + y + seq!['>'], data, a, w) <==> exists|k: int|
            0 <= k <= w.len() && either_order(x, y, data, a, #[trigger] w.take(k), w.skip(k)),
{
    let q = seq!['<'] + x + y + seq!['>'];
    let s = start_reading();
    let (rx, ry, end) = lemma_angle_read(x, y, data, a);
    let both = seq![rx, ry];
    assert(peek(q, end.at) is None);
    assert(read_piece(q, data, s) == Ok::<(Re, Reading), Fault>((re_anagram(both), end)));
    assert(all_wf(both));
    lemma_normal_wf(both);
    assert(q[0] == '<');
    let whole = lemma_one_piece(q, data, re_anagram(both), end);
    let env = Env::Bound(named(end.groups, a));
    lemma_anagram_lang(both, end.classes, env);
    lemma_langs(both, end.classes, env, 0);
    lemma_langs(both, end.classes, env, 1);
    let (l, m) = (meaning(rx, end, a), meaning(ry, end, a));
    assert(langs(both, end.classes, env) =~= seq![l, m]);
    lemma_two_in_either_order(l, m, w);
    if matches_under(q, data, a, w) {
        let k = choose|k: int|
            0 <= k <= w.len() && ((l.contains(#[trigger] w.take(k)) && m.contains(w.skip(k))) || (
            m.contains(w.take(k)) && l.contains(w.skip(k))));
        assert(either_order(x, y, data, a, w.take(k), w.skip(k)));
    }
    if exists|k: int|
        0 <= k <= w.len() && either_order(x, y, data, a, #[trigger] w.take(k), w.skip(k)) {
        let k = choose|k: int|
            0 <= k <= w.len() && either_order(x, y, data, a, #[trigger] w.take(k), w.skip(k));
        assert((l.contains(w.take(k)) && m.contains(w.skip(k))) || (m.contains(w.take(k))
            && l.contains(w.skip(k))));
    }
}

/// One of the texts is matched by the one query, and the other by the other.
pub open spec fn either_order(
    x: Seq<char>,
    y: Seq<char>,
    data: DataView,
    a: spec_fn(Seq<char>) -> char,
    u: Seq<char>,
    v: Seq<char>,
) -> bool {
    (matches_under(x, data, a, u) && matches_under(y, data, a, v)) || (matches_under(y, data, a, u)
        && matches_under(x, data, a, v))
}

/// A query of one group matches the one character that stands for its name.
#[verifier::spinoff_prover]
#[verifier::rlimit(40)]
pub proof fn law_group_matches_the_character_of_its_name(
    name: Seq<char>,
    data: DataView,
    a: spec_fn(Seq<char>) -> char,
    w: Seq<char>,
)
    requires
        name.len() > 0,
        letter(name[0]) || name[0] == '_',
        forall|i: int|
            1 <= i < name.len() ==> letter(#[trigger] name[i]) || digit(name[i]) || name[i] == '_',
    ensures
        of_one_piece(seq!['@', 't', '('] + name + seq![')'], data),
        matches_under(seq!['@', 't', '('] + name + seq![')'], data, a, w) <==> w == seq![a(name)]
            && han(a(name)),
{
    let q = seq!['@', 't', '('] + name + seq![')'];
    let s = start_reading();
    let u = Reading { at: 1, ..s };
    assert(q[0] == '@' && q[1] == 't' && q[2] == '(');
    assert(q[q.len() - 1] == ')');
    assert(past_letters(q, 2) == 2);
    assert(past_letters(q, 1) == 2);
    assert(q.subrange(1, 2) =~= "t"@) by {
        reveal_strlit("t");
    }
    assert forall|i: int| 0 <= i < name.len() implies letter(#[trigger] name[i]) || digit(name[i])
        || name[i] == '_' by {}
    assert forall|i: int| 3 <= i < q.len() - 1 implies (#[trigger] q[i]) != ')' && q[i] != '(' by {
        assert(q[i] == name[i - 3]);
    }
    lemma_content_read(q, 3, q.len() as int, 0, Seq::empty());
    assert(Seq::<char>::empty() + q.subrange(3, q.len() - 1) =~= name);
    lemma_name_is_trimmed(name);
    let end = Reading { at: q.len() as int, classes: s.classes, groups: seq![name] };
    assert(s.groups.push(name) =~= seq![name]);
    assert(first_index(s.groups, name) is None);
    reveal_strlit("b");
    reveal_strlit("h");
    reveal_strlit("p");
    assert("b"@[0] == 'b' && "h"@[0] == 'h' && "p"@[0] == 'p' && "t"@[0] == 't') by {
        reveal_strlit("t");
    }
    let re = Re::Capture { class: 0, group: 0 };
    assert(peek(q, 2) == Some('('));
    assert(intern_group(Reading { at: q.len() as int, ..s }, name) == (0u32, end));
    assert(read_property(q, data, u, 0) == Ok::<(Re, Reading), Fault>((re, end)));
    assert(peek(q, 0) == Some('@'));
    assert(read_atom(q, data, s) == Ok::<(Re, Reading), Fault>((re, end)));
    assert(peek(q, end.at) is None);
    assert(read_piece(q, data, s) == Ok::<(Re, Reading), Fault>((re, end)));
    let whole = lemma_one_piece(q, data, re, end);
    assert(named(end.groups, a)[0] == a(name));
    let chosen = named(end.groups, a);
    assert(meaning(whole, end, a).contains(w) <==> lang(
        re,
        end.classes,
        Env::Bound(chosen),
    ).contains(w));
    law_group_matches_its_character(0, 0, end.classes, chosen, w);
}

proof fn lemma_name_is_trimmed(name: Seq<char>)
    requires
        name.len() > 0,
        forall|i: int|
            0 <= i < name.len() ==> letter(#[trigger] name[i]) || digit(name[i]) || name[i] == '_',
    ensures
        trimmed(name) == name,
{
    assert(!white(name[0]));
    assert(name.last() == name[name.len() - 1]);
    assert(!white(name.last()));
}

/// A member of a character class: one character, or all from one to another.
pub struct Member {
    pub first: char,
    pub last: char,
}

/// How members are written: one character by itself, a range with a dash.
pub open spec fn members_written(ms: Seq<Member>) -> Seq<char>
    decreases ms.len(),
{
    if ms.len() == 0 {
        Seq::empty()
    } else {
        let m = ms.last();
        members_written(ms.drop_last()) + if m.first == m.last {
            seq![m.first]
        } else {
            seq![m.first, '-', m.last]
        }
    }
}

/// One of the members holds the character.
pub open spec fn among(ms: Seq<Member>, c: char) -> bool {
    exists|i: int| 0 <= i < ms.len() && (#[trigger] ms[i]).first <= c && c <= ms[i].last
}

/// The ranges of members.
spec fn member_ranges(ms: Seq<Member>) -> Seq<CharRange> {
    Seq::new(ms.len(), |i: int| CharRange { start: ms[i].first, end: ms[i].last })
}

/// Members are read one by one.
#[verifier::spinoff_prover]
#[verifier::rlimit(40)]
proof fn lemma_members_read(q: Seq<char>, at: int, ms: Seq<Member>, k: int, start: int)
    requires
        0 <= k <= ms.len(),
        0 <= at,
        forall|i: int|
            0 <= i < ms.len() ==> han((#[trigger] ms[i]).first) && han(ms[i].last) && ms[i].first
                <= ms[i].last,
        at + members_written(ms).len() < q.len(),
        q.subrange(at, at + members_written(ms).len()) == members_written(ms),
        q[at + members_written(ms).len()] == ']',
    ensures
        class_members(
            q,
            at + members_written(ms.take(k)).len(),
            start,
            member_ranges(ms.take(k)),
        ) == Ok::<(Seq<CharRange>, int), Fault>(
            (member_ranges(ms), at + members_written(ms).len()),
        ),
    decreases ms.len() - k,
{
    let text = members_written(ms);
    if k == ms.len() {
        assert(ms.take(k) =~= ms);
        assert(peek(q, at + text.len()) == Some(']'));
    } else {
        let here = members_written(ms.take(k));
        let next = members_written(ms.take(k + 1));
        let m = ms[k];
        assert(ms.take(k + 1).drop_last() =~= ms.take(k));
        assert(ms.take(k + 1).last() == m);
        lemma_members_prefix(ms, k + 1);
        let i = at + here.len();
        assert forall|j: int| 0 <= j < next.len() implies q[at + j] == #[trigger] next[j] by {
            assert(q.subrange(at, at + text.len())[j] == text[j]);
            assert(text[j] == next[j]);
        }
        assert(q[at + here.len()] == next[here.len() as int]);
        assert(next[here.len() as int] == m.first);
        assert(han(m.first) && han(m.last));
        assert(peek(q, i) == Some(m.first));
        let more = member_ranges(ms.take(k)).push(CharRange { start: m.first, end: m.last });
        assert(more =~= member_ranges(ms.take(k + 1)));
        assert(class_member(q, i, start) == Ok::<(char, int), Fault>((m.first, i + 1)));
        if m.first == m.last {
            assert(next.len() == here.len() + 1);
            assert(peek(q, i + 1) != Some('-')) by {
                lemma_not_a_dash(q, at, ms, k + 1);
            }
            assert(class_members(q, i, start, member_ranges(ms.take(k))) == class_members(
                q,
                i + 1,
                start,
                more,
            ));
        } else {
            assert(next.len() == here.len() + 3);
            assert(q[at + (here.len() + 1)] == next[here.len() as int + 1]);
            assert(q[at + (here.len() + 2)] == next[here.len() as int + 2]);
            assert(peek(q, i + 1) == Some('-'));
            assert(peek(q, i + 2) == Some(m.last));
            assert(class_member(q, i + 2, start) == Ok::<(char, int), Fault>((m.last, i + 3)));
            assert(class_members(q, i, start, member_ranges(ms.take(k))) == class_members(
                q,
                i + 3,
                start,
                more,
            ));
        }
        lemma_members_read(q, at, ms, k + 1, start);
    }
}

/// What follows a member is no dash.
proof fn lemma_not_a_dash(q: Seq<char>, at: int, ms: Seq<Member>, k: int)
    requires
        0 <= k <= ms.len(),
        0 <= at,
        forall|i: int| 0 <= i < ms.len() ==> han((#[trigger] ms[i]).first),
        at + members_written(ms).len() < q.len(),
        q.subrange(at, at + members_written(ms).len()) == members_written(ms),
        q[at + members_written(ms).len()] == ']',
    ensures
        q[at + members_written(ms.take(k)).len()] != '-',
{
    let text = members_written(ms);
    if k == ms.len() {
        assert(ms.take(k) =~= ms);
    } else {
        let here = members_written(ms.take(k));
        assert(ms.take(k + 1).drop_last() =~= ms.take(k));
        assert(ms.take(k + 1).last() == ms[k]);
        lemma_members_prefix(ms, k + 1);
        let next = members_written(ms.take(k + 1));
        assert(next[here.len() as int] == ms[k].first);
        assert(text[here.len() as int] == next[here.len() as int]);
        assert(q.subrange(at, at + text.len())[here.len() as int] == text[here.len() as int]);
        assert(han(ms[k].first));
    }
}

proof fn lemma_members_prefix(ms: Seq<Member>, k: int)
    requires
        0 <= k <= ms.len(),
    ensures
        members_written(ms.take(k)).len() <= members_written(ms).len(),
        forall|j: int|
            0 <= j < members_written(ms.take(k)).len() ==> #[trigger] members_written(ms.take(k))[j]
                == members_written(ms)[j],
    decreases ms.len(),
{
    if k < ms.len() {
        let fewer = ms.drop_last();
        assert(fewer.take(k) =~= ms.take(k));
        lemma_members_prefix(fewer, k);
    } else {
        assert(ms.take(k) =~= ms);
    }
}

/// The characters of a class are those of its ranges, in whatever order.
proof fn lemma_class_holds(ranges: Seq<CharRange>, c: char)
    ensures
        in_ranges(joined(sorted_ranges(ranges)), c) <==> in_ranges(ranges, c),
{
    broadcast use vstd::seq_lib::group_to_multiset_ensures;

    let chosen = sorted_ranges(ranges);
    lemma_sorted_exists(ranges);
    lemma_joined(chosen);
    if in_ranges(ranges, c) {
        let i = choose|i: int|
            0 <= i < ranges.len() && (#[trigger] ranges[i]).start <= c && c <= ranges[i].end;
        assert(ranges.contains(ranges[i]));
        assert(chosen.to_multiset().count(ranges[i]) > 0);
        assert(chosen.contains(ranges[i]));
        let j = choose|j: int| 0 <= j < chosen.len() && chosen[j] == ranges[i];
        assert(chosen[j].start <= c && c <= chosen[j].end);
    }
    if in_ranges(chosen, c) {
        let i = choose|i: int|
            0 <= i < chosen.len() && (#[trigger] chosen[i]).start <= c && c <= chosen[i].end;
        assert(chosen.contains(chosen[i]));
        assert(ranges.to_multiset().count(chosen[i]) > 0);
        assert(ranges.contains(chosen[i]));
        let j = choose|j: int| 0 <= j < ranges.len() && ranges[j] == chosen[i];
        assert(ranges[j].start <= c && c <= ranges[j].end);
    }
}

/// Ranges can be put in order.
proof fn lemma_sorted_exists(ranges: Seq<CharRange>)
    ensures
        sorted::<CharRange>(sorted_ranges(ranges)),
        sorted_ranges(ranges).to_multiset() == ranges.to_multiset(),
{
    let leq = |x: CharRange, y: CharRange| CharRange::leq(x, y);
    let t = ranges.sort_by(leq);
    assert(vstd::relations::total_ordering(leq)) by {
        assert forall|x: CharRange| #[trigger] leq(x, x) by {
            CharRange::leq_total_order(x, x, x);
        }
        assert forall|x: CharRange, y: CharRange| #[trigger] leq(x, y) && #[trigger] leq(
            y,
            x,
        ) implies x == y by {
            CharRange::leq_total_order(x, y, x);
        }
        assert forall|x: CharRange, y: CharRange, z: CharRange| #[trigger] leq(x, y)
            && #[trigger] leq(y, z) implies leq(x, z) by {
            CharRange::leq_total_order(x, y, z);
        }
        assert forall|x: CharRange, y: CharRange| #[trigger] leq(x, y) || #[trigger] leq(y, x) by {
            CharRange::leq_total_order(x, y, x);
        }
    }
    ranges.lemma_sort_by_ensures(leq);
    assert(sorted::<CharRange>(t)) by {
        assert forall|i: int, j: int| 0 <= i < j < t.len() implies CharRange::leq(
            #[trigger] t[i],
            #[trigger] t[j],
        ) by {
            assert(leq(t[i], t[j]));
        }
    }
    assert(sorted::<CharRange>(t) && t.to_multiset() == ranges.to_multiset());
}

/// A class in square brackets matches one Han character that is among its members; with
/// a hat before them, one that is not.
#[verifier::spinoff_prover]
#[verifier::rlimit(60)]
pub proof fn law_square_brackets_match_one_of_their_members(
    ms: Seq<Member>,
    negated: bool,
    data: DataView,
    a: spec_fn(Seq<char>) -> char,
    w: Seq<char>,
)
    requires
        ms.len() > 0,
        forall|i: int|
            0 <= i < ms.len() ==> han((#[trigger] ms[i]).first) && han(ms[i].last) && ms[i].first
                <= ms[i].last,
    ensures
        ({
            let q = if negated {
                seq!['[', '^'] + members_written(ms) + seq![']']
            } else {
                seq!['['] + members_written(ms) + seq![']']
            };
            &&& of_one_piece(q, data)
            &&& matches_under(q, data, a, w) <==> w.len() == 1 && han(w[0]) && among(ms, w[0])
                != negated
        }),
{
    let s = start_reading();
    let text = members_written(ms);
    let from: int = if negated {
        2
    } else {
        1
    };
    let q = if negated {
        seq!['[', '^'] + text + seq![']']
    } else {
        seq!['['] + text + seq![']']
    };
    assert(q[0] == '[');
    assert(q.subrange(from, from + text.len()) =~= text);
    assert(q[from + text.len()] == ']');
    lemma_members_read(q, from, ms, 0, 0);
    assert(ms.take(0) =~= Seq::empty());
    assert(member_ranges(ms.take(0)) =~= Seq::empty());
    assert(members_written(ms.take(0)).len() == 0);
    if negated {
        assert(q[1] == '^');
    } else {
        lemma_members_prefix(ms, 1);
        let one = ms.take(1);
        assert(one.drop_last() =~= Seq::empty());
        assert(one.last() == ms[0]);
        assert(members_written(one)[0] == ms[0].first);
        assert(text[0] == ms[0].first);
        assert(q.subrange(1, 1 + text.len() as int)[0] == q[1]);
        assert(han(q[1]));
    }
    assert(peek(q, 1) == Some(q[1]));
    let ranges = member_ranges(ms);
    let class = ClassView::Ranges { ranges: joined(sorted_ranges(ranges)), negated };
    let u = Reading { at: 1, ..s };
    let end = Reading { at: q.len() as int, classes: seq![ClassView::Han, class], groups: s.groups };
    assert(peek(q, from + text.len()) == Some(']'));
    assert(s.classes.push(class) =~= end.classes);
    lemma_first_index(s.classes, class, 1);
    assert(intern(Reading { at: q.len() as int, ..s }, class) == (1u32, end));
    let re = Re::Class(1);
    assert(read_class(q, u, 0) == Ok::<(Re, Reading), Fault>((re, end)));
    assert(peek(q, 0) == Some('['));
    assert(read_atom(q, data, s) == Ok::<(Re, Reading), Fault>((re, end)));
    assert(peek(q, end.at) is None);
    assert(read_piece(q, data, s) == Ok::<(Re, Reading), Fault>((re, end)));
    let whole = lemma_one_piece(q, data, re, end);
    let env = Env::Bound(named(end.groups, a));
    assert(meaning(whole, end, a).contains(w) <==> lang(re, end.classes, env).contains(w));
    assert(end.classes[1] == class);
    if w.len() == 1 {
        let c = w[0];
        lemma_class_holds(ranges, c);
        assert(in_ranges(ranges, c) <==> among(ms, c)) by {
            if in_ranges(ranges, c) {
                let i = choose|i: int|
                    0 <= i < ranges.len() && (#[trigger] ranges[i]).start <= c && c
                        <= ranges[i].end;
                assert(ms[i].first <= c && c <= ms[i].last);
            }
            if among(ms, c) {
                let i = choose|i: int|
                    0 <= i < ms.len() && (#[trigger] ms[i]).first <= c && c <= ms[i].last;
                assert(ranges[i].start <= c && c <= ranges[i].end);
            }
        }
    }
}

} // verus!



