//! What whole queries match.
use crate::chinese::data::{with_all, with_glob, DataView};
use crate::chinese::han::{all_han, han};
use crate::chinese::pinyin::glob_of;
use crate::chinese::words::template_fills;
use crate::query::class::{class_has, in_ranges, separated, upright, CharRange, ClassView};
use crate::query::expr::Re;
use crate::query::grammar::{
    copies, ends_concat, intern, past_digits, past_letters, peek, property_content, ranges_of,
    read_anagram, read_atom, read_concat, read_count, read_counts, read_named, read_piece,
    read_property, read_quantifier, read_query, read_set, repeated, start_reading, stroke_range,
    with_strokes, Fault, Reading, MAX_REPEAT,
};
use crate::query::language::{
    lanagram, lemma_lanagram_split, lemma_lanagram_step, lemma_lcat_single, lemma_lcat_split,
    lemma_lcat_step, Lang,
};
use crate::query::meaning::{
    holds_only, law_alternatives_match_either, law_counts_bound_repetition,
    law_dot_matches_one_han_character, law_intersection_matches_all,
    law_literal_query_matches_itself, law_optional_matches_nothing_or_once,
    law_plus_repeats_at_least_once, law_star_repeats, lemma_han_is_plain, lemma_index_is,
    lemma_literal_read, lemma_times_step, one_each, spelled, times,
};
use crate::query::normal::{
    all_wf, lang, langs, lemma_anagram_lang, lemma_concat_lang, lemma_langs, lemma_normal_wf,
    re_alt, re_anagram, re_concat, re_intersect, re_star, re_wf, Env,
};
use crate::query::program::ProgramView;
use crate::text::{
    decimal, digit, lemma_code_point, lemma_decimal_read_back, lemma_same_code_point, letter,
    scalar, trimmed, white,
};
use vstd::prelude::*;
use vstd::string::*;

verus! {

/// The program of a query, if it can be read.
pub open spec fn query_program(q: Seq<char>, data: DataView) -> Option<ProgramView> {
    match read_query(q, data) {
        Ok((re, end)) => Some(
            ProgramView {
                expr: re,
                classes: end.classes,
                capture_count: end.groups.len() as u32,
            },
        ),
        Err(_) => None,
    }
}

/// A query of one piece is read as that piece, and matches what it matches.
pub proof fn lemma_one_piece(q: Seq<char>, data: DataView, re: Re, end: Reading) -> (whole: Re)
    requires
        q.len() > 0,
        !ends_concat(q[0]),
        read_piece(q, data, start_reading()) == Ok::<(Re, Reading), Fault>((re, end)),
        end.at == q.len(),
        re_wf(re),
    ensures
        read_query(q, data) == Ok::<(Re, Reading), Fault>((whole, end)),
        forall|env: Env, w: Seq<char>| #[trigger]
            lang(whole, end.classes, env).contains(w) <==> lang(re, end.classes, env).contains(w),
{
    let s = start_reading();
    let none = Seq::<Re>::empty();
    let one = seq![re];
    assert(none.push(re) =~= one);
    assert(peek(q, end.at) is None);
    assert(read_concat(q, data, end, one) == Ok::<(Re, Reading), Fault>((re_concat(one), end)));
    assert(read_concat(q, data, s, none) == Ok::<(Re, Reading), Fault>((re_concat(one), end)));
    let first = re_concat(one);
    let both = re_intersect(seq![first]);
    let whole = re_alt(seq![both]);
    assert(read_query(q, data) == Ok::<(Re, Reading), Fault>((whole, end)));
    assert(all_wf(one));
    lemma_normal_wf(one);
    assert(all_wf(seq![first]));
    assert forall|env: Env, w: Seq<char>| #[trigger]
        lang(whole, end.classes, env).contains(w) <==> lang(re, end.classes, env).contains(w) by {
        law_alternatives_match_either(seq![both], end.classes, env, w);
        law_intersection_matches_all(seq![first], end.classes, env, w);
        assert(seq![both][0] == both && seq![first][0] == first);
        lemma_concat_lang(one, end.classes, env);
        assert(langs(one, end.classes, env) =~= seq![lang(re, end.classes, env)]) by {
            lemma_langs(one, end.classes, env, 0);
        }
        lemma_lcat_single(lang(re, end.classes, env));
    }
    whole
}

/// Where the groups make no difference, a program accepts what its expression
/// matches and is Han.
proof fn lemma_accepts(program: ProgramView, w: Seq<char>, expected: bool)
    requires
        forall|env: Env| #[trigger]
            lang(program.expr, program.classes, env).contains(w) <==> expected,
    ensures
        program.accepts(w) <==> all_han(w) && expected,
        program.accepts_approx(w) <==> expected,
{
    let sigma = Seq::new(program.capture_count as nat, |i: int| 'a');
    assert(lang(program.expr, program.classes, Env::Bound(sigma)).contains(w) <==> expected);
    assert(lang(program.expr, program.classes, Env::Free).contains(w) <==> expected);
    if program.accepts(w) {
        let other = choose|other: Seq<char>|
            other.len() == program.capture_count && #[trigger] lang(
                program.expr,
                program.classes,
                Env::Bound(other),
            ).contains(w);
        assert(lang(program.expr, program.classes, Env::Bound(other)).contains(w));
    }
}

/// A query of Han characters alone accepts that text and nothing else.
pub proof fn law_literal_query_accepts_itself(q: Seq<char>, data: DataView, w: Seq<char>)
    requires
        q.len() > 0,
        all_han(q),
    ensures
        query_program(q, data) matches Some(p) && (p.accepts(w) <==> w == q),
{
    let p = query_program(q, data);
    assert forall|env: Env| #[trigger]
        lang(p->Some_0.expr, p->Some_0.classes, env).contains(w) <==> w == q by {
        law_literal_query_matches_itself(q, data, env, w);
    }
    law_literal_query_matches_itself(q, data, Env::Free, w);
    lemma_accepts(p->Some_0, w, w == q);
}

/// The rest of a rearrangement of single characters is read to its end.
proof fn lemma_literal_anagram(
    q: Seq<char>,
    cs: Seq<char>,
    data: DataView,
    s: Reading,
    parts: Seq<Re>,
) -> (r: (Seq<Re>, Reading))
    requires
        q == seq!['<'] + cs + seq!['>'],
        all_han(cs),
        cs.len() > 0,
        s.at == parts.len() + 1,
        parts.len() <= cs.len(),
        one_each(s.classes),
        spelled(cs, s.classes, parts),
    ensures
        read_anagram(q, data, s, parts, 0) == Ok::<(Re, Reading), Fault>((re_anagram(r.0), r.1)),
        r.1.at == q.len(),
        r.0.len() == cs.len(),
        spelled(cs, r.1.classes, r.0),
    decreases cs.len() - parts.len(),
{
    if parts.len() == cs.len() {
        assert(q[s.at] == '>');
        (parts, Reading { at: s.at + 1, ..s })
    } else {
        let c = cs[parts.len() as int];
        assert(q[s.at] == c);
        lemma_han_is_plain(c);
        if parts.len() + 1 < cs.len() {
            assert(q[s.at + 1] == cs[parts.len() as int + 1]);
            lemma_han_is_plain(cs[parts.len() as int + 1]);
        } else {
            assert(q[s.at + 1] == '>');
        }
        let after = Reading { at: s.at + 1, ..s };
        lemma_literal_read(cs, after, parts, c);
        let (re, next) = read_set(after, set![c]);
        assert(peek(q, s.at) == Some(c));
        assert(read_atom(q, data, s) == Ok::<(Re, Reading), Fault>((re, next)));
        assert(read_quantifier(q, next, re) == Ok::<(Re, Reading), Fault>((re, next)));
        assert(read_piece(q, data, s) == Ok::<(Re, Reading), Fault>((re, next)));
        assert(read_anagram(q, data, s, parts, 0) == read_anagram(
            q,
            data,
            next,
            parts.push(re),
            0,
        ));
        lemma_literal_anagram(q, cs, data, next, parts.push(re))
    }
}

/// Languages of one character each, in any order, give the permutations of these
/// characters.
proof fn lemma_permutations(cs: Seq<char>, ls: Seq<Lang>, w: Seq<char>)
    requires
        ls.len() == cs.len(),
        forall|i: int, v: Seq<char>|
            0 <= i < cs.len() ==> (#[trigger] ls[i].contains(v) <==> v == seq![cs[i]]),
    ensures
        lanagram(ls).contains(w) <==> w.to_multiset() == cs.to_multiset(),
    decreases cs.len(),
{
    broadcast use vstd::seq_lib::group_to_multiset_ensures;

    assert(w.len() == w.to_multiset().len());
    assert(cs.len() == cs.to_multiset().len());
    if cs.len() == 0 {
        if w.len() == 0 {
            assert(w =~= cs);
        }
    } else {
        if lanagram(ls).contains(w) {
            let (j, k) = lemma_lanagram_split(ls, w);
            assert(ls[j].contains(w.take(k)));
            assert(w.take(k) == seq![cs[j]]);
            assert(k == 1);
            lemma_fewer(cs, ls, j);
            lemma_permutations(cs.remove(j), ls.remove(j), w.skip(1));
            assert(w =~= seq![cs[j]] + w.skip(1));
            lemma_first_char(cs[j], w.skip(1));
            assert(cs.contains(cs[j]));
            assert(w.to_multiset() =~= cs.to_multiset());
        }
        if w.to_multiset() == cs.to_multiset() {
            assert(w.contains(w[0]));
            assert(cs.to_multiset().count(w[0]) > 0);
            assert(cs.contains(w[0]));
            let j = choose|j: int| 0 <= j < cs.len() && cs[j] == w[0];
            assert(w =~= seq![cs[j]] + w.skip(1));
            lemma_first_char(cs[j], w.skip(1));
            assert(w.skip(1).to_multiset() =~= cs.remove(j).to_multiset());
            lemma_fewer(cs, ls, j);
            lemma_permutations(cs.remove(j), ls.remove(j), w.skip(1));
            assert(w.take(1) =~= seq![cs[j]]);
            assert(ls[j].contains(w.take(1)));
            lemma_lanagram_step(ls, w, j, 1);
        }
    }
}

proof fn lemma_fewer(cs: Seq<char>, ls: Seq<Lang>, j: int)
    requires
        ls.len() == cs.len(),
        0 <= j < cs.len(),
        forall|i: int, v: Seq<char>|
            0 <= i < cs.len() ==> (#[trigger] ls[i].contains(v) <==> v == seq![cs[i]]),
    ensures
        forall|i: int, v: Seq<char>|
            0 <= i < cs.remove(j).len() ==> (#[trigger] ls.remove(j)[i].contains(v) <==> v
                == seq![cs.remove(j)[i]]),
{
    assert forall|i: int, v: Seq<char>| 0 <= i < cs.remove(j).len() implies (
    #[trigger] ls.remove(j)[i].contains(v) <==> v == seq![cs.remove(j)[i]]) by {
        let k = if i < j {
            i
        } else {
            i + 1
        };
        assert(ls.remove(j)[i] == ls[k] && cs.remove(j)[i] == cs[k]);
        assert(ls[k].contains(v) <==> v == seq![cs[k]]);
    }
}

proof fn lemma_first_char(first: char, rest: Seq<char>)
    ensures
        (seq![first] + rest).to_multiset() == rest.to_multiset().insert(first),
{
    broadcast use vstd::seq_lib::group_to_multiset_ensures;

    vstd::seq_lib::lemma_multiset_commutative(seq![first], rest);
    assert(seq![first] =~= Seq::empty().push(first));
    assert((seq![first] + rest).to_multiset() =~= rest.to_multiset().insert(first));
}

/// The language of a class that holds one character.
proof fn lemma_class_lang(classes: Seq<ClassView>, id: u32, c: char, env: Env, v: Seq<char>)
    requires
        id < classes.len(),
        holds_only(classes[id as int], c),
    ensures
        lang(Re::Class(id), classes, env).contains(v) <==> v == seq![c],
{
    if v.len() == 1 {
        assert(class_has(classes[id as int], v[0]) <==> v[0] == c);
        assert(v[0] == c ==> v =~= seq![c]);
    }
}

/// A query of Han characters in angle brackets accepts exactly the texts that
/// have the same characters, each as often, in any order.
pub proof fn law_anagram_query_accepts_permutations(
    cs: Seq<char>,
    data: DataView,
    w: Seq<char>,
)
    requires
        cs.len() > 0,
        all_han(cs),
    ensures
        query_program(seq!['<'] + cs + seq!['>'], data) matches Some(p) && (p.accepts(w)
            <==> w.to_multiset() == cs.to_multiset()),
{
    let q = seq!['<'] + cs + seq!['>'];
    let s = start_reading();
    let after = Reading { at: 1, ..s };
    let none = Seq::<Re>::empty();
    let (parts, end) = lemma_literal_anagram(q, cs, data, after, none);
    let re = re_anagram(parts);
    assert(q[0] == '<');
    assert(peek(q, 0) == Some('<'));
    assert(read_atom(q, data, s) == Ok::<(Re, Reading), Fault>((re, end)));
    assert(peek(q, end.at) is None);
    assert(read_piece(q, data, s) == Ok::<(Re, Reading), Fault>((re, end)));
    assert(all_wf(parts)) by {
        assert forall|i: int| 0 <= i < parts.len() implies re_wf(#[trigger] parts[i]) by {
            assert(parts[i] is Class);
        }
    }
    lemma_normal_wf(parts);
    let whole = lemma_one_piece(q, data, re, end);
    let p = query_program(q, data)->Some_0;
    let expected = w.to_multiset() == cs.to_multiset();
    assert forall|env: Env| #[trigger]
        lang(p.expr, p.classes, env).contains(w) <==> expected by {
        lemma_anagram_lang(parts, end.classes, env);
        let ls = langs(parts, end.classes, env);
        assert forall|i: int, v: Seq<char>| 0 <= i < cs.len() implies (#[trigger] ls[i].contains(v)
            <==> v == seq![cs[i]]) by {
            lemma_langs(parts, end.classes, env, i);
            assert(parts[i] is Class && holds_only(
                end.classes[parts[i]->Class_0 as int],
                cs[i],
            ));
            lemma_class_lang(end.classes, parts[i]->Class_0, cs[i], env, v);
        }
        lemma_permutations(cs, ls, w);
    }
    lemma_accepts(p, w, expected);
    if expected {
        broadcast use vstd::seq_lib::group_to_multiset_ensures;

        assert forall|i: int| 0 <= i < w.len() implies han(#[trigger] w[i]) by {
            assert(w.contains(w[i]));
            assert(cs.to_multiset().count(w[i]) > 0);
            assert(cs.contains(w[i]));
            let k = choose|k: int| 0 <= k < cs.len() && cs[k] == w[i];
            assert(han(cs[k]));
        }
    }
}

/// One Han character, so many times.
proof fn lemma_times_han(l: Lang, n: nat, w: Seq<char>)
    requires
        forall|v: Seq<char>| #[trigger] l.contains(v) <==> v.len() == 1 && han(v[0]),
    ensures
        times(l, n).contains(w) <==> w.len() == n && all_han(w),
    decreases n,
{
    let ls = Seq::new(n, |i: int| l);
    if n > 0 {
        lemma_times_step(l, (n - 1) as nat);
        if times(l, n).contains(w) {
            let k = lemma_lcat_split(ls, w);
            assert(l.contains(w.take(k)));
            assert(k == 1);
            lemma_times_han(l, (n - 1) as nat, w.skip(1));
            assert forall|i: int| 0 <= i < w.len() implies han(#[trigger] w[i]) by {
                if i == 0 {
                    assert(w.take(1)[0] == w[0]);
                } else {
                    assert(w.skip(1)[i - 1] == w[i]);
                }
            }
        }
        if w.len() == n && all_han(w) {
            assert(all_han(w.skip(1))) by {
                assert forall|i: int| 0 <= i < w.skip(1).len() implies han(
                    #[trigger] w.skip(1)[i],
                ) by {
                    assert(w.skip(1)[i] == w[i + 1]);
                }
            }
            lemma_times_han(l, (n - 1) as nat, w.skip(1));
            assert(w.take(1)[0] == w[0]);
            assert(l.contains(w.take(1)));
            lemma_lcat_step(ls, w, 1);
        }
    }
}

/// A query that begins with a dot, which is quantified and ends there, is read
/// so.
proof fn lemma_dot_query(q: Seq<char>, data: DataView, re: Re) -> (whole: Re)
    requires
        q.len() > 0,
        q[0] == '.',
        read_quantifier(q, Reading { at: 1, ..start_reading() }, Re::Class(0)) == Ok::<
            (Re, Reading),
            Fault,
        >((re, Reading { at: q.len() as int, ..start_reading() })),
        re_wf(re),
    ensures
        query_program(q, data) == Some(
            ProgramView { expr: whole, classes: seq![ClassView::Han], capture_count: 0 },
        ),
        forall|env: Env, w: Seq<char>| #[trigger]
            lang(whole, seq![ClassView::Han], env).contains(w) <==> lang(
                re,
                seq![ClassView::Han],
                env,
            ).contains(w),
{
    let s = start_reading();
    assert(peek(q, 0) == Some('.'));
    assert(read_atom(q, data, s) == Ok::<(Re, Reading), Fault>(
        (Re::Class(0), Reading { at: 1, ..s }),
    ));
    lemma_one_piece(q, data, re, Reading { at: q.len() as int, ..s })
}

proof fn lemma_dot_times(env: Env, n: nat, w: Seq<char>)
    ensures
        times(lang(Re::Class(0), seq![ClassView::Han], env), n).contains(w) <==> w.len() == n
            && all_han(w),
{
    let classes = seq![ClassView::Han];
    let l = lang(Re::Class(0), classes, env);
    assert forall|v: Seq<char>| #[trigger] l.contains(v) <==> v.len() == 1 && han(v[0]) by {
        law_dot_matches_one_han_character(classes, env, v);
    }
    lemma_times_han(l, n, w);
}

proof fn lemma_dot_wf()
    ensures
        re_wf(re_star(Re::Class(0))),
        re_wf(re_concat(seq![Re::Class(0), re_star(Re::Class(0))])),
        re_wf(re_alt(seq![Re::Epsilon, Re::Class(0)])),
{
    let star = re_star(Re::Class(0));
    assert(star == Re::Star(Box::new(Re::Class(0))));
    assert(re_wf(Re::Class(0)));
    assert(re_wf(star));
    let plus = seq![Re::Class(0), star];
    assert forall|i: int| 0 <= i < plus.len() implies re_wf(#[trigger] plus[i]) by {}
    lemma_normal_wf(plus);
    assert(all_wf(seq![Re::Epsilon, Re::Class(0)]));
    lemma_normal_wf(seq![Re::Epsilon, Re::Class(0)]);
}

proof fn lemma_dot_star(data: DataView, w: Seq<char>)
    ensures
        query_program(seq!['.', '*'], data) matches Some(p) && (p.accepts(w) <==> all_han(w)),
{
    let dot = Re::Class(0);
    let classes = seq![ClassView::Han];
    let q = seq!['.', '*'];
    lemma_dot_wf();
    assert(q[0] == '.' && q[1] == '*');
    assert(peek(q, 1) == Some('*'));
    let whole = lemma_dot_query(q, data, re_star(dot));
    let p = query_program(q, data)->Some_0;
    assert forall|env: Env| #[trigger]
        lang(p.expr, p.classes, env).contains(w) <==> (all_han(w)) by {
        let l = lang(dot, classes, env);
        law_star_repeats(dot, classes, env, w);
        lemma_dot_times(env, w.len(), w);
        if exists|m: nat| #[trigger] times(l, m).contains(w) {
            let m = choose|m: nat| #[trigger] times(l, m).contains(w);
            lemma_dot_times(env, m, w);
        }
    }
    lemma_accepts(p, w, all_han(w));
}

proof fn lemma_dot_plus(data: DataView, w: Seq<char>)
    ensures
        query_program(seq!['.', '+'], data) matches Some(p) && (p.accepts(w) <==> all_han(w) && w.len() >= 1),
{
    let dot = Re::Class(0);
    let classes = seq![ClassView::Han];
    let q = seq!['.', '+'];
    lemma_dot_wf();
    assert(q[0] == '.' && q[1] == '+');
    assert(peek(q, 1) == Some('+'));
    let whole = lemma_dot_query(q, data, re_concat(seq![dot, re_star(dot)]));
    let p = query_program(q, data)->Some_0;
    assert forall|env: Env| #[trigger]
        lang(p.expr, p.classes, env).contains(w) <==> (all_han(w) && w.len() >= 1) by {
        let l = lang(dot, classes, env);
        law_plus_repeats_at_least_once(dot, classes, env, w);
        lemma_dot_times(env, w.len(), w);
        if exists|m: nat| m > 0 && #[trigger] times(l, m).contains(w) {
            let m = choose|m: nat| m > 0 && #[trigger] times(l, m).contains(w);
            lemma_dot_times(env, m, w);
        }
    }
    lemma_accepts(p, w, all_han(w) && w.len() >= 1);
}

proof fn lemma_dot_option(data: DataView, w: Seq<char>)
    ensures
        query_program(seq!['.', '?'], data) matches Some(p) && (p.accepts(w) <==> all_han(w) && w.len() <= 1),
{
    let dot = Re::Class(0);
    let classes = seq![ClassView::Han];
    let q = seq!['.', '?'];
    lemma_dot_wf();
    assert(q[0] == '.' && q[1] == '?');
    assert(peek(q, 1) == Some('?'));
    let whole = lemma_dot_query(q, data, re_alt(seq![Re::Epsilon, dot]));
    let p = query_program(q, data)->Some_0;
    assert forall|env: Env| #[trigger]
        lang(p.expr, p.classes, env).contains(w) <==> (all_han(w) && w.len() <= 1) by {
        law_optional_matches_nothing_or_once(dot, classes, env, w);
        law_dot_matches_one_han_character(classes, env, w);
    }
    lemma_accepts(p, w, all_han(w) && w.len() <= 1);
}

/// The query `.*` accepts every Han text, `.+` every one that is not empty, and
/// `.?` those of one character at most.
pub proof fn law_dot_queries_accept_by_length(data: DataView, w: Seq<char>)
    ensures
        query_program(seq!['.', '*'], data) matches Some(p) && (p.accepts(w) <==> all_han(w)),
        query_program(seq!['.', '+'], data) matches Some(p) && (p.accepts(w) <==> all_han(w)
            && w.len() >= 1),
        query_program(seq!['.', '?'], data) matches Some(p) && (p.accepts(w) <==> all_han(w)
            && w.len() <= 1),
{
    lemma_dot_star(data, w);
    lemma_dot_plus(data, w);
    lemma_dot_option(data, w);
}

/// A run of digits is read to its end.
proof fn lemma_digits_end(q: Seq<char>, at: int, end: int)
    requires
        0 <= at <= end < q.len(),
        forall|i: int| at <= i < end ==> digit(#[trigger] q[i]),
        !digit(q[end]),
    ensures
        past_digits(q, at) == end,
    decreases end - at,
{
    if at < end {
        assert(digit(q[at]));
        lemma_digits_end(q, at + 1, end);
    }
}

/// A number in a query is read.
pub proof fn lemma_count_read(q: Seq<char>, at: int, n: nat, start: int)
    requires
        0 <= at,
        n <= MAX_REPEAT,
        at + decimal(n).len() < q.len(),
        q.subrange(at, at + decimal(n).len()) == decimal(n),
        !digit(q[at + decimal(n).len()]),
    ensures
        read_count(q, at, start) == Ok::<(nat, int), Fault>((n, at + decimal(n).len())),
        digit(q[at]),
{
    let d = decimal(n);
    lemma_decimal_read_back(n);
    assert forall|i: int| at <= i < at + d.len() implies digit(#[trigger] q[i]) by {
        assert(q.subrange(at, at + d.len())[i - at] == q[i]);
        assert(digit(d[i - at]));
    }
    lemma_digits_end(q, at, at + d.len());
}

/// The query of a dot that is repeated so often, at least and at most.
pub open spec fn dots(low: nat, high: Option<nat>) -> Seq<char> {
    seq!['.', '{'] + decimal(low) + seq![','] + (match high {
        Some(h) => decimal(h),
        None => Seq::empty(),
    }) + seq!['}']
}

/// The query `.{a,b}` accepts the Han texts of at least `a` and at most `b`
/// characters, and `.{a,}` those of at least `a`.
pub proof fn law_counted_dots_accept_by_length(
    low: nat,
    high: Option<nat>,
    data: DataView,
    w: Seq<char>,
)
    requires
        low <= MAX_REPEAT,
        high matches Some(h) ==> low <= h <= MAX_REPEAT,
    ensures
        query_program(dots(low, high), data) matches Some(p) && (p.accepts(w) <==> all_han(w)
            && low <= w.len() && (high matches Some(h) ==> w.len() <= h)),
{
    let q = dots(low, high);
    let a = decimal(low);
    let n = a.len() as int;
    let s = Reading { at: 1, ..start_reading() };
    let dot = Re::Class(0);
    assert(q[0] == '.' && q[1] == '{');
    assert(q.subrange(2, 2 + n) =~= a);
    assert(q[2 + n] == ',');
    lemma_count_read(q, 2, low, 1);
    assert(peek(q, 2 + n) == Some(','));
    match high {
        None => {
            assert(q[3 + n] == '}');
            assert(q.len() == n + 4);
            assert(read_counts(q, 1) == Ok::<(nat, Option<nat>, int), Fault>((low, None, n + 4)));
        },
        Some(h) => {
            let b = decimal(h);
            let m = b.len() as int;
            lemma_decimal_read_back(h);
            assert(q.subrange(3 + n, 3 + n + m) =~= b);
            assert(q[3 + n + m] == '}');
            assert(q.len() == n + m + 4);
            lemma_count_read(q, 3 + n, h, 1);
            assert(q[3 + n] != '}');
            assert(read_counts(q, 1) == Ok::<(nat, Option<nat>, int), Fault>(
                (low, Some(h), n + m + 4),
            ));
        },
    }
    let re = repeated(dot, low, high);
    assert(read_quantifier(q, s, dot) == Ok::<(Re, Reading), Fault>(
        (re, Reading { at: q.len() as int, ..s }),
    ));
    lemma_repeated_wf(dot, low, high);
    let whole = lemma_dot_query(q, data, re);
    let classes = seq![ClassView::Han];
    let expected = all_han(w) && low <= w.len() && (high matches Some(h) ==> w.len() <= h);
    assert forall|env: Env| #[trigger] lang(whole, classes, env).contains(w) <==> expected by {
        law_counts_bound_repetition(dot, low, high, classes, env, w);
        let l = lang(dot, classes, env);
        lemma_dot_times(env, w.len(), w);
        if exists|k: nat|
            low <= k && (high matches Some(h) ==> k <= h) && #[trigger] times(l, k).contains(w) {
            let k = choose|k: nat|
                low <= k && (high matches Some(h) ==> k <= h) && #[trigger] times(l, k).contains(w);
            lemma_dot_times(env, k, w);
        }
    }
    lemma_accepts(query_program(q, data)->Some_0, w, expected);
}

pub proof fn lemma_repeated_wf(atom: Re, low: nat, high: Option<nat>)
    requires
        re_wf(atom),
    ensures
        re_wf(repeated(atom, low, high)),
{
    let first = copies(atom, low);
    let pair = seq![Re::Epsilon, atom];
    assert(all_wf(pair));
    lemma_normal_wf(pair);
    match high {
        None => {
            let parts = first.push(re_star(atom));
            assert forall|i: int| 0 <= i < parts.len() implies re_wf(#[trigger] parts[i]) by {
                if i < low {
                    assert(parts[i] == first[i]);
                }
            }
            lemma_normal_wf(parts);
        },
        Some(h) => {
            let more = copies(re_alt(pair), (h - low) as nat);
            let parts = first + more;
            assert forall|i: int| 0 <= i < parts.len() implies re_wf(#[trigger] parts[i]) by {
                if i < low {
                    assert(parts[i] == first[i]);
                } else {
                    assert(parts[i] == more[i - low]);
                }
            }
            lemma_normal_wf(parts);
        },
    }
}

/// The ranges are those of the characters of a set, in the repertoire, with code
/// points below `n`.
spec fn ranges_below(ranges: Seq<CharRange>, set: Set<char>, n: int) -> bool {
    &&& separated(ranges)
    &&& upright(ranges)
    &&& forall|c: char| #[trigger]
        in_ranges(ranges, c) == (han(c) && set.contains(c) && (c as int) < n)
}

/// Any set of characters has ranges.
proof fn lemma_ranges_below(set: Set<char>, n: nat) -> (ranges: Seq<CharRange>)
    requires
        n <= 0x11_0000,
    ensures
        ranges_below(ranges, set, n as int),
        forall|i: int| 0 <= i < ranges.len() ==> ((#[trigger] ranges[i]).end as int) < n,
    decreases n,
{
    if n == 0 {
        let ranges = Seq::<CharRange>::empty();
        assert forall|c: char| #[trigger] in_ranges(ranges, c) == (han(c) && set.contains(c) && (
        c as int) < 0) by {}
        ranges
    } else {
        let k = (n - 1) as u32;
        let before = lemma_ranges_below(set, (n - 1) as nat);
        let x = k as char;
        if scalar(k as int) && han(x) && set.contains(x) {
            assert(x as int == k);
            let m = before.len() as int;
            let after = if m > 0 && before[m - 1].end as int + 1 == k {
                before.update(m - 1, CharRange { start: before[m - 1].start, end: x })
            } else {
                before.push(CharRange { start: x, end: x })
            };
            assert forall|i: int| 0 <= i < after.len() implies ((#[trigger] after[i]).end as int)
                < n by {
                if i < m {
                    assert((before[i].end as int) < n - 1);
                }
            }
            assert(upright(after)) by {
                assert forall|i: int| 0 <= i < after.len() implies (#[trigger] after[i]).start
                    <= after[i].end by {
                    if i < m {
                        assert(before[i].start <= before[i].end);
                    }
                }
            }
            assert(separated(after)) by {
                assert forall|i: int, j: int| 0 <= i < j < after.len() implies (
                #[trigger] after[i]).start <= (#[trigger] after[j]).start && after[i].end as int + 1
                    < after[j].start as int by {
                    assert((before[i].end as int) < n - 1);
                    assert(before[i].start <= before[i].end);
                    if j < m {
                        assert(before[i].start <= before[j].start);
                    } else {
                        if i < m - 1 {
                            assert(before[i].start <= before[m - 1].start);
                            assert(before[m - 1].start <= before[m - 1].end);
                            assert((before[m - 1].end as int) < n - 1);
                        }
                    }
                }
            }
            assert forall|c: char| #[trigger] in_ranges(after, c) == (han(c) && set.contains(c) && (
            c as int) < n) by {
                lemma_code_point(c);
                assert(in_ranges(before, c) == (han(c) && set.contains(c) && (c as int) < n - 1));
                if c as int == k {
                    assert(c == x) by {
                        lemma_same_code_point(c, x);
                    }
                    let last = after.len() - 1;
                    if m > 0 && before[m - 1].end as int + 1 == k {
                        assert(before[m - 1].start <= before[m - 1].end);
                    }
                    assert(after[last].start <= c && c <= after[last].end);
                }
                if in_ranges(before, c) {
                    let i = choose|i: int|
                        0 <= i < before.len() && (#[trigger] before[i]).start <= c && c
                            <= before[i].end;
                    assert((before[i].end as int) < n - 1);
                    assert(after[i].start <= c && c <= after[i].end);
                }
                if in_ranges(after, c) && c as int != k {
                    let i = choose|i: int|
                        0 <= i < after.len() && (#[trigger] after[i]).start <= c && c
                            <= after[i].end;
                    assert(i < m);
                    assert(before[i].start <= c && c <= before[i].end);
                }
            }
            after
        } else {
            assert forall|c: char| #[trigger] in_ranges(before, c) == (han(c) && set.contains(c)
                && (c as int) < n) by {
                lemma_code_point(c);
                if c as int == k {
                    assert(c == x) by {
                        lemma_same_code_point(c, x);
                    }
                }
            }
            assert forall|i: int| 0 <= i < before.len() implies ((#[trigger] before[i]).end as int)
                < n by {
                assert((before[i].end as int) < n - 1);
            }
            before
        }
    }
}

proof fn lemma_ranges_of(set: Set<char>, c: char)
    ensures
        in_ranges(ranges_of(set), c) == (han(c) && set.contains(c)),
        ranges_of(set).len() == 0 ==> !in_ranges(ranges_of(set), c),
{
    let some = lemma_ranges_below(set, 0x11_0000);
    assert forall|d: char| #[trigger] in_ranges(some, d) == (han(d) && set.contains(d)) by {
        lemma_code_point(d);
        assert(in_ranges(some, d) == (han(d) && set.contains(d) && (d as int) < 0x11_0000));
    }
    let ranges = ranges_of(set);
    assert(in_ranges(ranges, c) == (han(c) && set.contains(c)));
}

/// What is read for a set of characters matches one character of it.
proof fn lemma_set_lang(s: Reading, set: Set<char>, env: Env, w: Seq<char>)
    requires
        s.classes.len() < u32::MAX,
    ensures
        ({
            let (re, next) = read_set(s, set);
            &&& re_wf(re)
            &&& next.at == s.at
            &&& lang(re, next.classes, env).contains(w) <==> w.len() == 1 && han(w[0])
                && set.contains(w[0])
        }),
{
    let ranges = ranges_of(set);
    if w.len() == 1 {
        lemma_ranges_of(set, w[0]);
    }
    if ranges.len() > 0 {
        let class = ClassView::Ranges { ranges, negated: false };
        let (id, next) = intern(s, class);
        lemma_index_is(s.classes, class);
        assert(next.classes[id as int] == class);
    }
}

/// The characters that a property stands for, where it stands for any.
pub open spec fn property_set(data: DataView, name: Seq<char>, content: Seq<char>) -> Option<
    Set<char>,
> {
    if name == "b"@ {
        if content.len() > 0 && forall|i: int|
            0 <= i < content.len() ==> (#[trigger] content[i] as u32) >= 128 && !white(
                content[i],
            ) {
            Some(with_all(data, content))
        } else {
            None
        }
    } else if name == "h"@ {
        match stroke_range(content) {
            Ok((low, high)) => Some(with_strokes(data, low as int, high as int)),
            Err(_) => None,
        }
    } else if name == "p"@ {
        match glob_of(content) {
            Ok(glob) => Some(with_glob(data, glob)),
            Err(_) => None,
        }
    } else if name == "z"@ {
        match template_fills(data.words, content) {
            Ok(set) => Some(set),
            Err(_) => None,
        }
    } else {
        None
    }
}

/// A property that stands for characters is read as their set.
proof fn lemma_named_read(
    data: DataView,
    s: Reading,
    name: Seq<char>,
    content: Seq<char>,
    start: int,
)
    requires
        property_set(data, name, content) is Some,
    ensures
        read_named(data, s, name, content, start) == Ok::<(Re, Reading), Fault>(
            read_set(s, property_set(data, name, content)->Some_0),
        ),
        name.len() == 1,
        letter(name[0]),
{
    reveal_strlit("b");
    reveal_strlit("h");
    reveal_strlit("p");
    reveal_strlit("t");
    reveal_strlit("z");
    assert(name[0] == 'b' || name[0] == 'h' || name[0] == 'p' || name[0] == 'z');
    assert("t"@[0] == 't');
}

/// The content of a property without brackets is read to its end.
pub proof fn lemma_content_read(q: Seq<char>, at: int, end: int, start: int, so_far: Seq<char>)
    requires
        0 <= at < end <= q.len(),
        q[end - 1] == ')',
        forall|i: int| at <= i < end - 1 ==> (#[trigger] q[i]) != ')' && q[i] != '(',
    ensures
        property_content(q, at, start, so_far) == Ok::<(Seq<char>, int), Fault>(
            (so_far + q.subrange(at, end - 1), end),
        ),
    decreases end - at,
{
    if at == end - 1 {
        assert(so_far + q.subrange(at, end - 1) =~= so_far);
    } else {
        assert(q[at] != ')');
        lemma_content_read(q, at + 1, end, start, so_far.push(q[at]));
        assert(so_far.push(q[at]) + q.subrange(at + 1, end - 1) =~= so_far + q.subrange(
            at,
            end - 1,
        ));
    }
}

/// A query of one property.
pub open spec fn property_query(name: Seq<char>, content: Seq<char>) -> Seq<char> {
    seq!['@'] + name + seq!['('] + content + seq![')']
}

/// A property with this name and content stands behind its sign.
pub open spec fn property_at(
    q: Seq<char>,
    at: int,
    name: Seq<char>,
    content: Seq<char>,
) -> bool {
    let written = name + seq!['('] + content + seq![')'];
    &&& 0 <= at
    &&& at + written.len() <= q.len()
    &&& q.subrange(at, at + written.len()) == written
    &&& forall|i: int|
        0 <= i < content.len() ==> (#[trigger] content[i]) != ')' && content[i] != '('
}

/// A property is read, wherever it stands behind its sign, as the set of the
/// characters that it stands for: as nothing where no character of the repertoire
/// is among them, else as a class that holds exactly these.
pub proof fn law_property_is_read_as_its_set(
    q: Seq<char>,
    data: DataView,
    s: Reading,
    start: int,
    name: Seq<char>,
    content: Seq<char>,
)
    requires
        property_at(q, s.at, name, content),
        property_set(data, name, trimmed(content)) is Some,
        s.classes.len() < u32::MAX,
    ensures
        ({
            let set = property_set(data, name, trimmed(content))->Some_0;
            &&& read_property(q, data, s, start) matches Ok((re, next)) && {
                &&& next.at == s.at + name.len() + content.len() + 2
                &&& next.groups == s.groups
                &&& if exists|c: char| han(c) && #[trigger] set.contains(c) {
                    re matches Re::Class(id) && id < next.classes.len() && forall|c: char|
                        #[trigger]
                        class_has(next.classes[id as int], c) <==> han(c) && set.contains(c)
                } else {
                    re == Re::Empty
                }
            }
        }),
{
    let set = property_set(data, name, trimmed(content))->Some_0;
    let end = s.at + name.len() + content.len() + 2;
    let at_end = Reading { at: end, ..s };
    lemma_property_read(q, data, s, start, name, content);
    let ranges = ranges_of(set);
    let class = ClassView::Ranges { ranges, negated: false };
    assert forall|c: char| #[trigger] class_has(class, c) <==> han(c) && set.contains(c) by {
        lemma_ranges_of(set, c);
    }
    if ranges.len() == 0 {
        if exists|c: char| han(c) && #[trigger] set.contains(c) {
            let c = choose|c: char| han(c) && #[trigger] set.contains(c);
            assert(class_has(class, c));
        }
    } else {
        let (id, next) = intern(at_end, class);
        lemma_index_is(s.classes, class);
        assert(next.classes[id as int] == class);
        let c = ranges[0].start;
        lemma_ranges_of(set, c);
        lemma_ranges_upright(set);
        assert(ranges[0].start <= c && c <= ranges[0].end);
        assert(set.contains(c));
    }
}

/// The ranges of a set are upright.
proof fn lemma_ranges_upright(set: Set<char>)
    ensures
        upright(ranges_of(set)),
{
    let some = lemma_ranges_below(set, 0x11_0000);
    assert forall|d: char| #[trigger] in_ranges(some, d) == (han(d) && set.contains(d)) by {
        lemma_code_point(d);
        assert(in_ranges(some, d) == (han(d) && set.contains(d) && (d as int) < 0x11_0000));
    }
}

/// A property is read as the set of its characters.
proof fn lemma_property_read(
    q: Seq<char>,
    data: DataView,
    s: Reading,
    start: int,
    name: Seq<char>,
    content: Seq<char>,
)
    requires
        property_at(q, s.at, name, content),
        property_set(data, name, trimmed(content)) is Some,
    ensures
        read_property(q, data, s, start) == Ok::<(Re, Reading), Fault>(
            read_set(
                Reading { at: s.at + name.len() + content.len() + 2, ..s },
                property_set(data, name, trimmed(content))->Some_0,
            ),
        ),
{
    let written = name + seq!['('] + content + seq![')'];
    let at = s.at;
    let end = at + written.len();
    let at_end = Reading { at: end, ..s };
    lemma_named_read(data, at_end, name, trimmed(content), start);
    assert forall|i: int| 0 <= i < written.len() implies q[at + i] == #[trigger] written[i] by {
        assert(q.subrange(at, at + written.len())[i] == q[at + i]);
    }
    assert(written[0] == name[0] && written[1] == '(');
    assert(q[at + 0] == name[0] && q[at + 1] == '(');
    assert(past_letters(q, at + 1) == at + 1);
    assert(past_letters(q, at) == at + 1);
    assert(q.subrange(at, at + 1) =~= name);
    assert forall|i: int| at + 2 <= i < end - 1 implies (#[trigger] q[i]) != ')' && q[i]
        != '(' by {
        assert(q[at + (i - at)] == written[i - at]);
        assert(written[i - at] == content[i - at - 2]);
    }
    assert(written[written.len() - 1] == ')');
    assert(q[at + (written.len() - 1)] == ')');
    lemma_content_read(q, at + 2, end, start, Seq::empty());
    assert(q.subrange(at + 2, end - 1) =~= content) by {
        assert forall|i: int| 0 <= i < content.len() implies q.subrange(at + 2, end - 1)[i]
            == content[i] by {
            assert(q[at + (i + 2)] == written[i + 2]);
        }
    }
    assert(Seq::<char>::empty() + content =~= content);
}

/// An atom that is read to the end of a query is the whole of its piece.
proof fn lemma_set_piece(q: Seq<char>, data: DataView, set: Set<char>)
    requires
        q.len() > 0,
        q[0] == '@',
        read_property(q, data, Reading { at: 1, ..start_reading() }, 0) == Ok::<
            (Re, Reading),
            Fault,
        >(read_set(Reading { at: q.len() as int, ..start_reading() }, set)),
    ensures
        read_piece(q, data, start_reading()) == Ok::<(Re, Reading), Fault>(
            read_set(Reading { at: q.len() as int, ..start_reading() }, set),
        ),
{
    let s = start_reading();
    let at_end = Reading { at: q.len() as int, ..s };
    let (re, end) = read_set(at_end, set);
    assert(peek(q, 0) == Some('@'));
    assert(read_atom(q, data, s) == Ok::<(Re, Reading), Fault>((re, end)));
    assert(end.at == q.len());
    assert(peek(q, end.at) is None);
}

/// A query of one property, by components, strokes, pronunciation or words,
/// accepts exactly the texts of one character that has it.
pub proof fn law_property_query_accepts_one_character(
    name: Seq<char>,
    content: Seq<char>,
    data: DataView,
    w: Seq<char>,
)
    requires
        property_set(data, name, trimmed(content)) is Some,
        forall|i: int| 0 <= i < content.len() ==> (#[trigger] content[i]) != ')' && content[i]
            != '(',
    ensures
        query_program(property_query(name, content), data) matches Some(p) && (p.accepts(w)
            <==> w.len() == 1 && han(w[0]) && property_set(
            data,
            name,
            trimmed(content),
        )->Some_0.contains(w[0])),
{
    let q = property_query(name, content);
    let set = property_set(data, name, trimmed(content))->Some_0;
    let at_end = Reading { at: q.len() as int, ..start_reading() };
    let written = name + seq!['('] + content + seq![')'];
    assert(q.subrange(1, 1 + written.len() as int) =~= written);
    assert(q.len() == 1 + written.len());
    lemma_property_read(q, data, Reading { at: 1, ..start_reading() }, 0, name, content);
    assert(q[0] == '@');
    lemma_set_piece(q, data, set);
    lemma_set_query(q, data, set, w);
}

/// A query that is read as a set of characters accepts one character of it.
proof fn lemma_set_query(q: Seq<char>, data: DataView, set: Set<char>, w: Seq<char>)
    requires
        q.len() > 0,
        q[0] == '@',
        read_piece(q, data, start_reading()) == Ok::<(Re, Reading), Fault>(
            read_set(Reading { at: q.len() as int, ..start_reading() }, set),
        ),
    ensures
        query_program(q, data) matches Some(p) && (p.accepts(w) <==> w.len() == 1 && han(w[0])
            && set.contains(w[0])),
{
    let at_end = Reading { at: q.len() as int, ..start_reading() };
    let (re, end) = read_set(at_end, set);
    lemma_set_lang(at_end, set, Env::Free, w);
    let whole = lemma_one_piece(q, data, re, end);
    let expected = w.len() == 1 && han(w[0]) && set.contains(w[0]);
    let p = query_program(q, data)->Some_0;
    assert forall|env: Env| #[trigger] lang(p.expr, p.classes, env).contains(w) <==> expected by {
        lemma_set_lang(at_end, set, env, w);
    }
    lemma_accepts(p, w, expected);
}

} // verus!
