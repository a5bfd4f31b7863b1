//! How the constructors of expressions go together.
use crate::ordered::{ascending, lemma_same_multiset_same_set, sorted};
use crate::query::class::ClassView;
use crate::query::expr::{Expr, Re};
use crate::query::language::{lemma_lanagram_nil, lemma_lcat_nil, lunion};
use crate::query::normal::{
    in_alt, in_anagram, in_concat, in_intersect, langs, lemma_alt_lang, lemma_anagram_lang,
    lemma_concat_lang, lemma_langs, lemma_nullable_lang, lemma_sorted_list_exists,
    lemma_sorted_set, lemma_sorted_set_exists, re_alt, re_anagram, re_concat, re_intersect,
    re_nullable, re_star, sorted_list, sorted_set, spliced, Env,
};
use vstd::prelude::*;

verus! {

/// The expression has the outer form that the constructors give.
pub open spec fn re_tidy(re: Re) -> bool {
    match re {
        Re::Concat(s) => s.len() >= 2 && forall|i: int|
            0 <= i < s.len() ==> !((#[trigger] s[i]) is Empty) && !(s[i] is Epsilon)
                && !(s[i] is Concat),
        Re::Alt(s) => s.len() >= 2 && ascending::<Expr>(s) && forall|i: int|
            0 <= i < s.len() ==> !((#[trigger] s[i]) is Empty) && !(s[i] is Alt),
        Re::Intersect(s) => s.len() >= 2 && ascending::<Expr>(s) && forall|i: int|
            0 <= i < s.len() ==> !((#[trigger] s[i]) is Empty) && !(s[i] is Intersect),
        Re::Star(inner) => !(*inner is Empty) && !(*inner is Epsilon) && !(*inner is Star),
        Re::Anagram(s) => s.len() >= 2 && sorted::<Expr>(s) && forall|i: int|
            0 <= i < s.len() ==> !((#[trigger] s[i]) is Empty) && !(s[i] is Epsilon),
        _ => true,
    }
}

/// Every part has the outer form that the constructors give.
pub open spec fn all_tidy(parts: Seq<Re>) -> bool {
    forall|i: int| 0 <= i < parts.len() ==> re_tidy(#[trigger] parts[i])
}

/// What the parts contribute is what one of them does.
pub proof fn lemma_spliced_from(parts: Seq<Re>, open: spec_fn(Re) -> Seq<Re>, x: Re)
    ensures
        spliced(parts, open).contains(x) <==> exists|i: int|
            0 <= i < parts.len() && open(#[trigger] parts[i]).contains(x),
    decreases parts.len(),
{
    if parts.len() > 0 {
        let init = parts.drop_last();
        let n = parts.len() - 1;
        let a = spliced(init, open);
        let b = open(parts.last());
        lemma_spliced_from(init, open, x);
        if spliced(parts, open).contains(x) {
            let k = choose|k: int| 0 <= k < (a + b).len() && (a + b)[k] == x;
            if k < a.len() {
                assert(a[k] == x);
                let i = choose|i: int| 0 <= i < init.len() && open(#[trigger] init[i]).contains(x);
                assert(parts[i] == init[i]);
            } else {
                assert(b[k - a.len()] == x);
                assert(open(parts[n]).contains(x));
            }
        }
        if exists|i: int| 0 <= i < parts.len() && open(#[trigger] parts[i]).contains(x) {
            let i = choose|i: int| 0 <= i < parts.len() && open(#[trigger] parts[i]).contains(x);
            if i < n {
                assert(init[i] == parts[i]);
                let k = choose|k: int| 0 <= k < a.len() && a[k] == x;
                assert((a + b)[k] == x);
            } else {
                let k = choose|k: int| 0 <= k < b.len() && b[k] == x;
                assert((a + b)[a.len() + k] == x);
            }
        }
    }
}

proof fn lemma_spliced_append(a: Seq<Re>, b: Seq<Re>, open: spec_fn(Re) -> Seq<Re>)
    ensures
        spliced(a + b, open) == spliced(a, open) + spliced(b, open),
    decreases b.len(),
{
    if b.len() == 0 {
        assert(a + b =~= a);
        assert(spliced(a, open) + spliced(b, open) =~= spliced(a, open));
    } else {
        assert((a + b).drop_last() =~= a + b.drop_last());
        assert((a + b).last() == b.last());
        lemma_spliced_append(a, b.drop_last(), open);
        assert(spliced(a, open) + spliced(b.drop_last(), open) + open(b.last()) =~= spliced(a, open)
            + (spliced(b.drop_last(), open) + open(b.last())));
    }
}

/// A part that contributes nothing may be put in anywhere.
proof fn lemma_spliced_insert(parts: Seq<Re>, i: int, p: Re, open: spec_fn(Re) -> Seq<Re>)
    requires
        0 <= i <= parts.len(),
        open(p).len() == 0,
    ensures
        spliced(parts.insert(i, p), open) == spliced(parts, open),
{
    let a = parts.take(i);
    let b = parts.skip(i);
    assert(parts.insert(i, p) =~= a.push(p) + b);
    assert(parts =~= a + b);
    lemma_spliced_append(a.push(p), b, open);
    lemma_spliced_append(a, b, open);
    assert(a.push(p).drop_last() =~= a);
    assert(spliced(a, open) + open(p) =~= spliced(a, open));
}

proof fn lemma_insert_contains(parts: Seq<Re>, i: int, p: Re, x: Re)
    requires
        0 <= i <= parts.len(),
    ensures
        parts.insert(i, p).contains(x) <==> parts.contains(x) || x == p,
{
    let more = parts.insert(i, p);
    if parts.contains(x) {
        let k = choose|k: int| 0 <= k < parts.len() && parts[k] == x;
        assert(more[if k < i {
            k
        } else {
            k + 1
        }] == x);
    }
    if x == p {
        assert(more[i] == x);
    }
    if more.contains(x) && x != p {
        let k = choose|k: int| 0 <= k < more.len() && more[k] == x;
        assert(parts[if k < i {
            k
        } else {
            k - 1
        }] == x);
    }
}

/// What the parts of a concatenation contribute is none of what is left out.
proof fn lemma_flat_concat(parts: Seq<Re>)
    requires
        all_tidy(parts),
        !parts.contains(Re::Empty),
    ensures
        ({
            let flat = spliced(parts, |p: Re| in_concat(p));
            forall|i: int|
                0 <= i < flat.len() ==> !((#[trigger] flat[i]) is Empty) && !(flat[i] is Epsilon)
                    && !(flat[i] is Concat)
        }),
{
    let open = |p: Re| in_concat(p);
    let flat = spliced(parts, open);
    assert forall|i: int| 0 <= i < flat.len() implies !((#[trigger] flat[i]) is Empty) && !(
    flat[i] is Epsilon) && !(flat[i] is Concat) by {
        let x = flat[i];
        assert(flat.contains(x));
        lemma_spliced_from(parts, open, x);
        let k = choose|k: int| 0 <= k < parts.len() && open(#[trigger] parts[k]).contains(x);
        assert(re_tidy(parts[k]));
        assert(parts.contains(parts[k]));
        assert(in_concat(parts[k]).contains(x));
        match parts[k] {
            Re::Concat(s) => {
                let m = choose|m: int| 0 <= m < s.len() && s[m] == x;
                assert(!(s[m] is Empty));
            },
            _ => {
                assert(in_concat(parts[k]).len() <= 1);
                assert(x == parts[k]);
            },
        }
    }
}

/// What a normal concatenation contributes to another is what its parts do.
proof fn lemma_concat_opens(parts: Seq<Re>)
    requires
        all_tidy(parts),
        !parts.contains(Re::Empty),
    ensures
        !(re_concat(parts) is Empty),
        in_concat(re_concat(parts)) == spliced(parts, |p: Re| in_concat(p)),
{
    let flat = spliced(parts, |p: Re| in_concat(p));
    lemma_flat_concat(parts);
    if flat.len() == 0 {
        assert(in_concat(re_concat(parts)) =~= flat);
    } else if flat.len() == 1 {
        assert(!(flat[0] is Epsilon));
        assert(in_concat(re_concat(parts)) =~= flat);
    }
}

/// A concatenation of concatenations is the concatenation of all their parts.
pub proof fn law_concat_associates(a: Seq<Re>, b: Seq<Re>)
    requires
        all_tidy(a),
        all_tidy(b),
    ensures
        re_concat(seq![re_concat(a), re_concat(b)]) == re_concat(a + b),
{
    let both = seq![re_concat(a), re_concat(b)];
    let open = |p: Re| in_concat(p);
    if a.contains(Re::Empty) {
        let i = choose|i: int| 0 <= i < a.len() && a[i] == Re::Empty;
        assert((a + b)[i] == Re::Empty);
        assert(both[0] == Re::Empty);
    } else if b.contains(Re::Empty) {
        let i = choose|i: int| 0 <= i < b.len() && b[i] == Re::Empty;
        assert((a + b)[a.len() + i] == Re::Empty);
        assert(both[1] == Re::Empty);
    } else {
        lemma_concat_opens(a);
        lemma_concat_opens(b);
        assert(!both.contains(Re::Empty));
        assert(!(a + b).contains(Re::Empty)) by {
            if (a + b).contains(Re::Empty) {
                let i = choose|i: int| 0 <= i < (a + b).len() && (a + b)[i] == Re::Empty;
                if i < a.len() {
                    assert(a[i] == Re::Empty);
                } else {
                    assert(b[i - a.len()] == Re::Empty);
                }
            }
        }
        lemma_spliced_append(a, b, open);
        lemma_spliced_append(seq![both[0]], seq![both[1]], open);
        assert(both =~= seq![both[0]] + seq![both[1]]);
        lemma_spliced_one(both[0], open);
        lemma_spliced_one(both[1], open);
    }
}

proof fn lemma_spliced_one(p: Re, open: spec_fn(Re) -> Seq<Re>)
    ensures
        spliced(seq![p], open) == open(p),
{
    assert(seq![p].drop_last() =~= Seq::empty());
    assert(spliced(seq![p].drop_last(), open) + open(p) =~= open(p));
}

/// A concatenation of nothing is the empty string, which may be put in anywhere;
/// and what never matches makes the whole never match.
pub proof fn law_concat_has_a_unit_and_a_zero(parts: Seq<Re>, i: int)
    requires
        0 <= i <= parts.len(),
    ensures
        re_concat(Seq::empty()) == Re::Epsilon,
        re_concat(parts.insert(i, Re::Epsilon)) == re_concat(parts),
        re_concat(parts.insert(i, Re::Empty)) == Re::Empty,
        parts.contains(Re::Empty) ==> re_concat(parts) == Re::Empty,
{
    lemma_spliced_insert(parts, i, Re::Epsilon, |p: Re| in_concat(p));
    lemma_insert_contains(parts, i, Re::Epsilon, Re::Empty);
    lemma_insert_contains(parts, i, Re::Empty, Re::Empty);
}

/// Two lists with the same elements sort into the same set.
proof fn lemma_sets_same(s: Seq<Re>, t: Seq<Re>)
    requires
        forall|x: Re| s.contains(x) <==> t.contains(x),
    ensures
        sorted_set(s) == sorted_set(t),
{
    lemma_sorted_set_exists(t);
    assert(sorted_set(t).to_set() =~= s.to_set()) by {
        assert forall|x: Re| sorted_set(t).to_set().contains(x) == s.to_set().contains(x) by {
            assert(sorted_set(t).to_set().contains(x) == t.contains(x));
            assert(s.to_set().contains(x) == s.contains(x));
            assert(s.contains(x) <==> t.contains(x));
        }
    }
    lemma_sorted_set(s, sorted_set(t));
}

/// An alternation is made by the set of its parts, without those that never
/// match.
pub proof fn law_alt_depends_on_its_set_of_parts(v: Seq<Re>, w: Seq<Re>)
    requires
        forall|x: Re| !(x is Empty) ==> (#[trigger] v.contains(x) <==> w.contains(x)),
    ensures
        re_alt(v) == re_alt(w),
{
    let open = |p: Re| in_alt(p);
    assert forall|x: Re| spliced(v, open).contains(x) <==> spliced(w, open).contains(x) by {
        lemma_alt_shared(v, w, x);
        lemma_alt_shared(w, v, x);
    }
    lemma_sets_same(spliced(v, open), spliced(w, open));
}

proof fn lemma_alt_shared(v: Seq<Re>, w: Seq<Re>, x: Re)
    requires
        forall|x: Re| !(x is Empty) ==> (#[trigger] v.contains(x) <==> w.contains(x)),
    ensures
        spliced(v, |p: Re| in_alt(p)).contains(x) ==> spliced(w, |p: Re| in_alt(p)).contains(x),
{
    let open = |p: Re| in_alt(p);
    lemma_spliced_from(v, open, x);
    lemma_spliced_from(w, open, x);
    if spliced(v, open).contains(x) {
        let i = choose|i: int| 0 <= i < v.len() && open(#[trigger] v[i]).contains(x);
        assert(!(v[i] is Empty));
        assert(v.contains(v[i]));
        let k = choose|k: int| 0 <= k < w.len() && w[k] == v[i];
        assert(open(w[k]).contains(x));
    }
}

/// The order of alternatives does not matter, nor does repeating them, nor does
/// putting in what never matches; and no alternative never matches.
pub proof fn law_alt_ignores_order_and_repetition(v: Seq<Re>, w: Seq<Re>, i: int)
    requires
        v.to_multiset() == w.to_multiset(),
        0 <= i <= v.len(),
    ensures
        re_alt(v) == re_alt(w),
        re_alt(v + v) == re_alt(v),
        re_alt(v.insert(i, Re::Empty)) == re_alt(v),
        re_alt(Seq::empty()) == Re::Empty,
{
    lemma_same_elements(v, w);
    law_alt_depends_on_its_set_of_parts(v, w);
    assert forall|x: Re| !(x is Empty) implies (#[trigger] (v + v).contains(x) <==> v.contains(
        x,
    )) by {
        lemma_doubled(v, x);
    }
    law_alt_depends_on_its_set_of_parts(v + v, v);
    let more = v.insert(i, Re::Empty);
    assert forall|x: Re| !(x is Empty) implies (#[trigger] more.contains(x) <==> v.contains(x)) by {
        lemma_insert_contains(v, i, Re::Empty, x);
    }
    law_alt_depends_on_its_set_of_parts(more, v);
    let none = Seq::<Re>::empty();
    assert(spliced(none, |p: Re| in_alt(p)) =~= none);
    lemma_sorted_set_exists(none);
    if sorted_set(none).len() > 0 {
        assert(sorted_set(none).contains(sorted_set(none)[0]));
        assert(none.contains(sorted_set(none)[0]));
    }
}

pub proof fn lemma_same_elements(v: Seq<Re>, w: Seq<Re>)
    requires
        v.to_multiset() == w.to_multiset(),
    ensures
        forall|x: Re|
            #![trigger v.contains(x)]
            #![trigger w.contains(x)]
            v.contains(x) <==> w.contains(x),
{
    lemma_same_multiset_same_set(v, w);
    assert forall|x: Re| v.contains(x) <==> w.contains(x) by {
        assert(v.to_set().contains(x) == v.contains(x));
        assert(w.to_set().contains(x) == w.contains(x));
    }
}

proof fn lemma_doubled(v: Seq<Re>, x: Re)
    ensures
        (v + v).contains(x) <==> v.contains(x),
{
    if v.contains(x) {
        let i = choose|i: int| 0 <= i < v.len() && v[i] == x;
        assert((v + v)[i] == x);
    }
    if (v + v).contains(x) {
        let i = choose|i: int| 0 <= i < (v + v).len() && (v + v)[i] == x;
        if i < v.len() {
            assert(v[i] == x);
        } else {
            assert(v[i - v.len()] == x);
        }
    }
}

/// An intersection is made by the set of its parts.
pub proof fn law_intersection_depends_on_its_set_of_parts(v: Seq<Re>, w: Seq<Re>)
    requires
        forall|x: Re| #[trigger] v.contains(x) <==> w.contains(x),
    ensures
        re_intersect(v) == re_intersect(w),
{
    let open = |p: Re| in_intersect(p);
    assert(v.contains(Re::Empty) <==> w.contains(Re::Empty));
    assert forall|x: Re| spliced(v, open).contains(x) <==> spliced(w, open).contains(x) by {
        lemma_intersect_shared(v, w, x);
        lemma_intersect_shared(w, v, x);
    }
    lemma_sets_same(spliced(v, open), spliced(w, open));
}

proof fn lemma_intersect_shared(v: Seq<Re>, w: Seq<Re>, x: Re)
    requires
        forall|x: Re| #[trigger] v.contains(x) <==> w.contains(x),
    ensures
        spliced(v, |p: Re| in_intersect(p)).contains(x) ==> spliced(
            w,
            |p: Re| in_intersect(p),
        ).contains(x),
{
    let open = |p: Re| in_intersect(p);
    lemma_spliced_from(v, open, x);
    lemma_spliced_from(w, open, x);
    if spliced(v, open).contains(x) {
        let i = choose|i: int| 0 <= i < v.len() && open(#[trigger] v[i]).contains(x);
        assert(v.contains(v[i]));
        let k = choose|k: int| 0 <= k < w.len() && w[k] == v[i];
        assert(open(w[k]).contains(x));
    }
}

/// The order of the parts of an intersection does not matter, nor does repeating
/// them; what never matches makes the whole never match.
pub proof fn law_intersection_ignores_order_and_repetition(v: Seq<Re>, w: Seq<Re>)
    requires
        v.to_multiset() == w.to_multiset(),
    ensures
        re_intersect(v) == re_intersect(w),
        re_intersect(v + v) == re_intersect(v),
        v.contains(Re::Empty) ==> re_intersect(v) == Re::Empty,
{
    lemma_same_elements(v, w);
    law_intersection_depends_on_its_set_of_parts(v, w);
    assert forall|x: Re| #[trigger] (v + v).contains(x) <==> v.contains(x) by {
        lemma_doubled(v, x);
    }
    law_intersection_depends_on_its_set_of_parts(v + v, v);
}

/// An intersection of one part is that part.
pub proof fn law_intersection_of_one_is_that_one(x: Re)
    requires
        re_tidy(x),
    ensures
        re_intersect(seq![x]) == x,
{
    let open = |p: Re| in_intersect(p);
    let one = seq![x];
    lemma_spliced_one(x, open);
    if x is Empty {
        assert(one[0] == Re::Empty);
    } else {
        assert(!one.contains(Re::Empty));
        let flat = spliced(one, open);
        match x {
            Re::Intersect(s) => {
                assert(flat == s);
            },
            _ => {
                assert(flat =~= one);
            },
        }
        assert(ascending::<Expr>(flat));
        lemma_sorted_set(flat, flat);
    }
}

/// An intersection of two parts that differ keeps both, the empty string too.
pub proof fn law_intersection_keeps_both(x: Re, y: Re)
    requires
        x != y,
        !(x is Empty) && !(x is Intersect),
        !(y is Empty) && !(y is Intersect),
    ensures
        re_intersect(seq![x, y]) matches Re::Intersect(s) && s.len() == 2 && s.contains(x)
            && s.contains(y),
{
    let open = |p: Re| in_intersect(p);
    let both = seq![x, y];
    lemma_spliced_append(seq![x], seq![y], open);
    lemma_spliced_one(x, open);
    lemma_spliced_one(y, open);
    assert(both =~= seq![x] + seq![y]);
    let flat = spliced(both, open);
    assert(flat =~= both);
    assert(!both.contains(Re::Empty));
    lemma_sorted_set_exists(flat);
    let t = sorted_set(flat);
    assert(flat[0] == x && flat[1] == y);
    assert(t.contains(x) && t.contains(y));
    assert(t.no_duplicates());
    flat.unique_seq_to_set();
    t.unique_seq_to_set();
}

/// The order of the parts of a rearrangement does not matter, nor does putting in
/// the empty string; what never matches makes the whole never match.
pub proof fn law_anagram_ignores_order(v: Seq<Re>, w: Seq<Re>, i: int)
    requires
        v.to_multiset() == w.to_multiset(),
        0 <= i <= v.len(),
    ensures
        re_anagram(v) == re_anagram(w),
        re_anagram(v.insert(i, Re::Epsilon)) == re_anagram(v),
        v.contains(Re::Empty) ==> re_anagram(v) == Re::Empty,
{
    lemma_same_elements(v, w);
    lemma_anagram_flat(v, w);
    lemma_spliced_insert(v, i, Re::Epsilon, |p: Re| in_anagram(p));
    lemma_insert_contains(v, i, Re::Epsilon, Re::Empty);
}

/// The contributions to a rearrangement, as a multiset, follow from the parts as
/// a multiset.
proof fn lemma_anagram_flat(v: Seq<Re>, w: Seq<Re>)
    requires
        v.to_multiset() == w.to_multiset(),
    ensures
        spliced(v, |p: Re| in_anagram(p)).to_multiset() == spliced(
            w,
            |p: Re| in_anagram(p),
        ).to_multiset(),
{
    let a = spliced(v, |p: Re| in_anagram(p));
    let b = spliced(w, |p: Re| in_anagram(p));
    assert(a.to_multiset() =~= b.to_multiset()) by {
        assert forall|x: Re| a.to_multiset().count(x) == b.to_multiset().count(x) by {
            lemma_anagram_count(v, x);
            lemma_anagram_count(w, x);
        }
    }
}

proof fn lemma_anagram_count(v: Seq<Re>, x: Re)
    ensures
        spliced(v, |p: Re| in_anagram(p)).to_multiset().count(x) == if x is Epsilon {
            0
        } else {
            v.to_multiset().count(x)
        },
    decreases v.len(),
{
    broadcast use vstd::seq_lib::group_to_multiset_ensures;

    let open = |p: Re| in_anagram(p);
    if v.len() == 0 {
        assert(spliced(v, open) =~= Seq::empty());
    } else {
        let init = v.drop_last();
        let last = v.last();
        lemma_anagram_count(init, x);
        assert(v =~= init.push(last));
        let a = spliced(init, open);
        if last is Epsilon {
            assert(a + open(last) =~= a);
        } else {
            assert(a + open(last) =~= a.push(last));
        }
    }
}

/// A rearrangement keeps every part, equal ones too: each is used exactly once.
pub proof fn law_anagram_keeps_every_part(v: Seq<Re>)
    requires
        v.len() >= 2,
        !v.contains(Re::Empty),
        !v.contains(Re::Epsilon),
    ensures
        re_anagram(v) matches Re::Anagram(s) && sorted::<Expr>(s) && s.to_multiset()
            == v.to_multiset(),
{
    broadcast use vstd::seq_lib::group_to_multiset_ensures;

    let flat = spliced(v, |p: Re| in_anagram(p));
    assert(flat.to_multiset() =~= v.to_multiset()) by {
        assert forall|x: Re| flat.to_multiset().count(x) == v.to_multiset().count(x) by {
            lemma_anagram_count(v, x);
            assert(v.contains(x) <==> v.to_multiset().count(x) > 0);
        }
    }
    lemma_sorted_list_exists(flat);
    assert(sorted_list(flat).len() == sorted_list(flat).to_multiset().len());
    assert(v.len() == v.to_multiset().len());
}

/// A concatenation, an intersection or a rearrangement matches the empty string
/// where every part does, an alternation where one does, and a repetition always.
pub proof fn law_nullable_of_the_constructors(v: Seq<Re>, inner: Re)
    ensures
        re_nullable(re_concat(v)) <==> forall|i: int|
            0 <= i < v.len() ==> re_nullable(#[trigger] v[i]),
        re_nullable(re_intersect(v)) <==> forall|i: int|
            0 <= i < v.len() ==> re_nullable(#[trigger] v[i]),
        re_nullable(re_anagram(v)) <==> forall|i: int|
            0 <= i < v.len() ==> re_nullable(#[trigger] v[i]),
        re_nullable(re_alt(v)) <==> exists|i: int|
            0 <= i < v.len() && re_nullable(#[trigger] v[i]),
        re_nullable(re_star(inner)),
        re_nullable(Re::Epsilon),
        !re_nullable(Re::Empty),
        forall|id: u32| !(#[trigger] re_nullable(Re::Class(id))),
        forall|class: u32, group: u32| !(#[trigger] re_nullable(Re::Capture { class, group })),
{
    let classes = Seq::<ClassView>::empty();
    let e = Seq::<char>::empty();
    let ls = langs(v, classes, Env::Free);
    assert forall|i: int| 0 <= i < v.len() implies re_nullable(#[trigger] v[i])
        == ls[i].contains(e) by {
        lemma_langs(v, classes, Env::Free, i);
        lemma_nullable_lang(v[i], classes, Env::Free);
    }
    lemma_nullable_lang(re_concat(v), classes, Env::Free);
    lemma_concat_lang(v, classes, Env::Free);
    lemma_lcat_nil(ls);
    lemma_nullable_lang(re_anagram(v), classes, Env::Free);
    lemma_anagram_lang(v, classes, Env::Free);
    lemma_lanagram_nil(ls);
    lemma_nullable_lang(re_alt(v), classes, Env::Free);
    lemma_alt_lang(v, classes, Env::Free);
    if forall|i: int| 0 <= i < v.len() ==> re_nullable(#[trigger] v[i]) {
        assert forall|i: int| 0 <= i < ls.len() implies (#[trigger] ls[i]).contains(e) by {
            assert(re_nullable(v[i]));
        }
    }
    if forall|i: int| 0 <= i < ls.len() ==> (#[trigger] ls[i]).contains(e) {
        assert forall|i: int| 0 <= i < v.len() implies re_nullable(#[trigger] v[i]) by {
            assert(ls[i].contains(e));
        }
    }
    if lunion(ls).contains(e) {
        let i = choose|i: int| 0 <= i < ls.len() && (#[trigger] ls[i]).contains(e);
        assert(re_nullable(v[i]));
    }
    if exists|i: int| 0 <= i < v.len() && re_nullable(#[trigger] v[i]) {
        let i = choose|i: int| 0 <= i < v.len() && re_nullable(#[trigger] v[i]);
        assert(ls[i].contains(e));
    }
    lemma_intersect_nullable(v);
}

proof fn lemma_intersect_nullable(v: Seq<Re>)
    ensures
        re_nullable(re_intersect(v)) <==> forall|i: int|
            0 <= i < v.len() ==> re_nullable(#[trigger] v[i]),
{
    let open = |p: Re| in_intersect(p);
    let all = spliced(v, open);
    let flat = sorted_set(all);
    lemma_sorted_set_exists(all);
    if v.contains(Re::Empty) {
        let i = choose|i: int| 0 <= i < v.len() && v[i] == Re::Empty;
        assert(!re_nullable(v[i]));
    } else {
        if re_nullable(re_intersect(v)) {
            assert forall|i: int| 0 <= i < flat.len() implies re_nullable(#[trigger] flat[i]) by {}
            assert forall|i: int| 0 <= i < v.len() implies re_nullable(#[trigger] v[i]) by {
                let inside = in_intersect(v[i]);
                assert forall|k: int| 0 <= k < inside.len() implies re_nullable(
                    #[trigger] inside[k],
                ) by {
                    assert(inside.contains(inside[k]));
                    assert(open(v[i]).contains(inside[k]));
                    lemma_spliced_from(v, open, inside[k]);
                    assert(flat.contains(inside[k]));
                    let m = choose|m: int| 0 <= m < flat.len() && flat[m] == inside[k];
                    assert(re_nullable(flat[m]));
                }
                match v[i] {
                    Re::Intersect(s) => {},
                    _ => {
                        assert(inside[0] == v[i]);
                    },
                }
            }
        }
        if forall|i: int| 0 <= i < v.len() ==> re_nullable(#[trigger] v[i]) {
            assert forall|i: int| 0 <= i < flat.len() implies re_nullable(#[trigger] flat[i]) by {
                let x = flat[i];
                assert(flat.contains(x));
                assert(all.contains(x));
                lemma_spliced_from(v, open, x);
                let k = choose|k: int| 0 <= k < v.len() && open(#[trigger] v[k]).contains(x);
                assert(re_nullable(v[k]));
                match v[k] {
                    Re::Intersect(s) => {
                        let m = choose|m: int| 0 <= m < s.len() && s[m] == x;
                        assert(re_nullable(s[m]));
                    },
                    _ => {
                        assert(x == v[k]);
                    },
                }
            }
        }
    }
}

/// What two members of an ascending list differ in, its set has twice.
proof fn lemma_two_in_set(s: Seq<Re>, all: Seq<Re>)
    requires
        ascending::<Expr>(s),
        s.len() >= 2,
        forall|k: int| 0 <= k < s.len() ==> all.contains(#[trigger] s[k]),
    ensures
        sorted_set(all).len() >= 2,
{
    lemma_sorted_set_exists(all);
    let t = sorted_set(all);
    assert(all.contains(s[0]) && all.contains(s[1]));
    assert(t.contains(s[0]) && t.contains(s[1]));
    let i = choose|i: int| 0 <= i < t.len() && t[i] == s[0];
    let j = choose|j: int| 0 <= j < t.len() && t[j] == s[1];
    assert(s[0] != s[1]);
}

/// What the constructors give of parts that they gave has their outer form: no
/// nested part of the same kind, nothing that could be left out, and the parts of
/// alternations, intersections and rearrangements in order.
pub proof fn law_constructors_give_tidy_forms(parts: Seq<Re>, inner: Re)
    requires
        all_tidy(parts),
        re_tidy(inner),
    ensures
        re_tidy(re_concat(parts)),
        re_tidy(re_alt(parts)),
        re_tidy(re_intersect(parts)),
        re_tidy(re_anagram(parts)),
        re_tidy(re_star(inner)),
{
    lemma_tidy_concat(parts);
    lemma_tidy_alt(parts);
    lemma_tidy_intersect(parts);
    lemma_tidy_anagram(parts);
}

proof fn lemma_tidy_concat(parts: Seq<Re>)
    requires
        all_tidy(parts),
    ensures
        re_tidy(re_concat(parts)),
{
    let open = |p: Re| in_concat(p);
    let flat = spliced(parts, open);
    if !parts.contains(Re::Empty) {
        lemma_flat_concat(parts);
        if flat.len() == 1 {
            let x = flat[0];
            assert(flat.contains(x));
            lemma_spliced_from(parts, open, x);
            let k = choose|k: int| 0 <= k < parts.len() && open(#[trigger] parts[k]).contains(x);
            assert(re_tidy(parts[k]));
            match parts[k] {
                Re::Concat(s) => {
                    let a = parts.take(k);
                    let b = parts.skip(k + 1);
                    assert(parts =~= a + seq![parts[k]] + b);
                    lemma_spliced_append(a + seq![parts[k]], b, open);
                    lemma_spliced_append(a, seq![parts[k]], open);
                    lemma_spliced_one(parts[k], open);
                    assert(flat.len() >= s.len());
                },
                _ => {
                    assert(x == parts[k]);
                },
            }
        }
    }
}

proof fn lemma_tidy_alt(parts: Seq<Re>)
    requires
        all_tidy(parts),
    ensures
        re_tidy(re_alt(parts)),
{
    let open = |p: Re| in_alt(p);
    let all = spliced(parts, open);
    let flat = sorted_set(all);
    lemma_sorted_set_exists(all);
    assert forall|i: int| 0 <= i < flat.len() implies !((#[trigger] flat[i]) is Empty) && !(
    flat[i] is Alt) && (flat.len() == 1 ==> re_tidy(flat[i])) by {
        let x = flat[i];
        assert(flat.contains(x));
        assert(all.contains(x));
        lemma_spliced_from(parts, open, x);
        let k = choose|k: int| 0 <= k < parts.len() && open(#[trigger] parts[k]).contains(x);
        assert(re_tidy(parts[k]));
        match parts[k] {
            Re::Alt(s) => {
                let m = choose|m: int| 0 <= m < s.len() && s[m] == x;
                assert(!(s[m] is Empty));
                assert forall|j: int| 0 <= j < s.len() implies all.contains(#[trigger] s[j]) by {
                    assert(open(parts[k]).contains(s[j]));
                    lemma_spliced_from(parts, open, s[j]);
                }
                lemma_two_in_set(s, all);
            },
            _ => {
                assert(x == parts[k]);
            },
        }
    }
}

proof fn lemma_tidy_intersect(parts: Seq<Re>)
    requires
        all_tidy(parts),
    ensures
        re_tidy(re_intersect(parts)),
{
    let open = |p: Re| in_intersect(p);
    let all = spliced(parts, open);
    let flat = sorted_set(all);
    lemma_sorted_set_exists(all);
    if !parts.contains(Re::Empty) {
        assert forall|i: int| 0 <= i < flat.len() implies !((#[trigger] flat[i]) is Empty) && !(
        flat[i] is Intersect) && (flat.len() == 1 ==> re_tidy(flat[i])) by {
            let x = flat[i];
            assert(flat.contains(x));
            assert(all.contains(x));
            lemma_spliced_from(parts, open, x);
            let k = choose|k: int| 0 <= k < parts.len() && open(#[trigger] parts[k]).contains(x);
            assert(re_tidy(parts[k]));
            assert(parts.contains(parts[k]));
            match parts[k] {
                Re::Intersect(s) => {
                    let m = choose|m: int| 0 <= m < s.len() && s[m] == x;
                    assert(!(s[m] is Empty));
                    assert forall|j: int| 0 <= j < s.len() implies all.contains(
                        #[trigger] s[j],
                    ) by {
                        assert(open(parts[k]).contains(s[j]));
                        lemma_spliced_from(parts, open, s[j]);
                    }
                    lemma_two_in_set(s, all);
                },
                _ => {
                    assert(x == parts[k]);
                },
            }
        }
    }
}

proof fn lemma_tidy_anagram(parts: Seq<Re>)
    requires
        all_tidy(parts),
    ensures
        re_tidy(re_anagram(parts)),
{
    let open = |p: Re| in_anagram(p);
    let all = spliced(parts, open);
    let flat = sorted_list(all);
    lemma_sorted_list_exists(all);
    lemma_same_elements(flat, all);
    if !parts.contains(Re::Empty) {
        assert forall|i: int| 0 <= i < flat.len() implies !((#[trigger] flat[i]) is Empty) && !(
        flat[i] is Epsilon) && re_tidy(flat[i]) by {
            let x = flat[i];
            assert(flat.contains(x));
            assert(all.contains(x));
            lemma_spliced_from(parts, open, x);
            let k = choose|k: int| 0 <= k < parts.len() && open(#[trigger] parts[k]).contains(x);
            assert(re_tidy(parts[k]));
            assert(parts.contains(parts[k]));
            assert(in_anagram(parts[k]).len() <= 1);
            assert(x == parts[k]);
        }
    }
}

} // verus!
