//! What a part of a query means does not depend on where it stands: a query that is
//! part of a longer one is read there as it is on its own.
use crate::chinese::data::{with_all, with_glob, DataView};
use crate::chinese::pinyin::glob_of;
use crate::chinese::words::template_fills;
use crate::query::class::{joined, CharRange, ClassView};
use crate::query::expr::Re;
use crate::query::grammar::{
    class_member, class_members, copies, ends_concat, first_index, group_name, intern,
    intern_group, past_digits, past_letters, peek, property_content, ranges_of, read_alt,
    read_alternatives, read_anagram, read_atom, read_class, read_concat, read_conjuncts,
    read_count, read_counts, read_intersection, read_literal, read_named, read_piece,
    read_property, read_quantifier, read_repeat, read_set, repeated, sorted_ranges, stroke_range,
    with_strokes, Fault, Read, Reading,
};
use crate::query::meaning::lemma_index_is;
use crate::query::normal::{
    all_wf, lang, langs, lemma_alt_lang, lemma_anagram_lang, lemma_concat_lang,
    lemma_intersect_lang, lemma_langs, lemma_normal_wf, lemma_star_lang, re_alt, re_anagram,
    re_concat, re_intersect, re_star, re_wf, Env,
};
use crate::text::{digit, trimmed};
use vstd::prelude::*;

verus! {

/// The first list begins the second one.
pub open spec fn begins<A>(a: Seq<A>, b: Seq<A>) -> bool {
    a.len() <= b.len() && forall|i: int|
        #![trigger a[i]]
        #![trigger b[i]]
        0 <= i < a.len() ==> a[i] == b[i]
}

/// These classes and characters go on from what has been met: each group that has
/// been met stands for the character that is chosen for its name.
#[verifier::opaque]
pub open spec fn fits(
    classes: Seq<ClassView>,
    chosen: Seq<char>,
    s: Reading,
    a: spec_fn(Seq<char>) -> char,
) -> bool {
    &&& begins(s.classes, classes)
    &&& s.groups.len() <= chosen.len()
    &&& forall|i: int|
        #![trigger chosen[i]]
        #![trigger s.groups[i]]
        0 <= i < s.groups.len() ==> chosen[i] == a(s.groups[i])
}

/// Two expressions, each with what has been met where it was read, match the same
/// texts, where groups of one name stand for one character.
#[verifier::opaque]
pub open spec fn alike(
    x: Re,
    s: Reading,
    y: Re,
    t: Reading,
    a: spec_fn(Seq<char>) -> char,
) -> bool {
    &&& re_wf(x)
    &&& re_wf(y)
    &&& forall|c: Seq<ClassView>, g: Seq<char>, d: Seq<ClassView>, h: Seq<char>| #[trigger]
        fits(c, g, s, a) && #[trigger] fits(d, h, t, a) ==> lang(x, c, Env::Bound(g)) == lang(
            y,
            d,
            Env::Bound(h),
        )
}

/// A reading within a query, short enough that classes and groups can be numbered.
pub open spec fn sound(q: Seq<char>, s: Reading) -> bool {
    &&& 0 <= s.at <= q.len()
    &&& s.classes.len() > 0
    &&& s.classes[0] == ClassView::Han
    &&& s.groups.no_duplicates()
    &&& s.classes.len() + (q.len() - s.at) <= u32::MAX
    &&& s.groups.len() + (q.len() - s.at) <= u32::MAX
}

/// A later reading keeps the classes and groups of an earlier one.
pub open spec fn grown(s: Reading, n: Reading) -> bool {
    s.at <= n.at && begins(s.classes, n.classes) && begins(s.groups, n.groups)
}

/// What may stand behind a piece without belonging to it.
pub open spec fn calm(c: Option<char>) -> bool {
    c matches Some(x) ==> x != '?' && x != '*' && x != '+' && x != '{' && !digit(x)
}

/// What ends a concatenation.
pub open spec fn after_concat(c: Option<char>) -> bool {
    c matches Some(x) ==> ends_concat(x)
}

/// What ends an intersection.
pub open spec fn after_meet(c: Option<char>) -> bool {
    after_concat(c) && c != Some('&')
}

/// What ends an alternation.
pub open spec fn after_alt(c: Option<char>) -> bool {
    after_meet(c) && c != Some('|')
}

/// The first query, from the reading on, stands in the second one, `d` places
/// further on, and what follows it there does not belong to its last piece.
pub open spec fn abreast(p: Seq<char>, q: Seq<char>, d: int, s: Reading, t: Reading) -> bool {
    &&& sound(p, s)
    &&& sound(q, t)
    &&& t.at == s.at + d
    &&& p.len() + d <= q.len()
    &&& forall|i: int| #![trigger p[i]] s.at <= i < p.len() ==> p[i] == q[i + d]
    &&& calm(peek(q, p.len() + d))
}

/// Both readings succeed, as far, with the same meaning.
pub open spec fn agree(
    p: Seq<char>,
    q: Seq<char>,
    d: int,
    s: Reading,
    x: Read,
    t: Reading,
    y: Read,
    a: spec_fn(Seq<char>) -> char,
) -> bool {
    x matches Ok((re, n)) && y matches Ok((other, m)) && {
        &&& abreast(p, q, d, n, m)
        &&& grown(s, n)
        &&& grown(t, m)
        &&& alike(re, n, other, m, a)
    }
}

proof fn lemma_peek(p: Seq<char>, q: Seq<char>, d: int, s: Reading, t: Reading, i: int)
    requires
        abreast(p, q, d, s, t),
        s.at <= i < p.len(),
    ensures
        peek(q, i + d) == peek(p, i),
        peek(p, i) == Some(p[i]),
        p[i] == q[i + d],
{
    assert(p[i] == q[i + d]);
}

proof fn lemma_fits_earlier(
    c: Seq<ClassView>,
    g: Seq<char>,
    s: Reading,
    n: Reading,
    a: spec_fn(Seq<char>) -> char,
)
    requires
        grown(s, n),
        fits(c, g, n, a),
    ensures
        fits(c, g, s, a),
{
    reveal(fits);
    assert forall|i: int| 0 <= i < s.classes.len() implies s.classes[i] == c[i] by {
        assert(n.classes[i] == c[i]);
    }
    assert forall|i: int| 0 <= i < s.groups.len() implies g[i] == a(s.groups[i]) by {
        assert(n.groups[i] == s.groups[i]);
        assert(g[i] == a(n.groups[i]));
    }
}

/// What has been read keeps its meaning while reading goes on.
pub proof fn lemma_alike_later(
    x: Re,
    s: Reading,
    n: Reading,
    y: Re,
    t: Reading,
    m: Reading,
    a: spec_fn(Seq<char>) -> char,
)
    requires
        alike(x, s, y, t, a),
        grown(s, n),
        grown(t, m),
    ensures
        alike(x, n, y, m, a),
{
    reveal(alike);
    assert forall|c: Seq<ClassView>, g: Seq<char>, e: Seq<ClassView>, h: Seq<char>| #[trigger]
        fits(c, g, n, a) && #[trigger] fits(e, h, m, a) implies lang(x, c, Env::Bound(g)) == lang(
        y,
        e,
        Env::Bound(h),
    ) by {
        lemma_fits_earlier(c, g, s, n, a);
        lemma_fits_earlier(e, h, t, m, a);
    }
}

pub proof fn lemma_grown_twice(s: Reading, n: Reading, m: Reading)
    requires
        grown(s, n),
        grown(n, m),
    ensures
        grown(s, m),
{
    assert forall|i: int| 0 <= i < s.classes.len() implies s.classes[i] == m.classes[i] by {
        assert(s.classes[i] == n.classes[i]);
    }
    assert forall|i: int| 0 <= i < s.groups.len() implies s.groups[i] == m.groups[i] by {
        assert(s.groups[i] == n.groups[i]);
    }
}

/// The parts match alike, one by one.
pub open spec fn parts_alike(
    xs: Seq<Re>,
    s: Reading,
    ys: Seq<Re>,
    t: Reading,
    a: spec_fn(Seq<char>) -> char,
) -> bool {
    xs.len() == ys.len() && forall|i: int|
        #![trigger xs[i]]
        #![trigger ys[i]]
        0 <= i < xs.len() ==> alike(xs[i], s, ys[i], t, a)
}

pub proof fn lemma_parts_later(
    xs: Seq<Re>,
    s: Reading,
    n: Reading,
    ys: Seq<Re>,
    t: Reading,
    m: Reading,
    a: spec_fn(Seq<char>) -> char,
)
    requires
        parts_alike(xs, s, ys, t, a),
        grown(s, n),
        grown(t, m),
    ensures
        parts_alike(xs, n, ys, m, a),
{
    assert forall|i: int| 0 <= i < xs.len() implies alike(#[trigger] xs[i], n, ys[i], m, a) by {
        lemma_alike_later(xs[i], s, n, ys[i], t, m, a);
    }
}

/// One more part.
pub proof fn lemma_parts_push(
    xs: Seq<Re>,
    s: Reading,
    x: Re,
    n: Reading,
    ys: Seq<Re>,
    t: Reading,
    y: Re,
    m: Reading,
    a: spec_fn(Seq<char>) -> char,
)
    requires
        parts_alike(xs, s, ys, t, a),
        grown(s, n),
        grown(t, m),
        alike(x, n, y, m, a),
    ensures
        parts_alike(xs.push(x), n, ys.push(y), m, a),
{
    lemma_parts_later(xs, s, n, ys, t, m, a);
    assert forall|i: int| 0 <= i < xs.push(x).len() implies alike(
        #[trigger] xs.push(x)[i],
        n,
        ys.push(y)[i],
        m,
        a,
    ) by {
        if i < xs.len() {
            assert(xs.push(x)[i] == xs[i] && ys.push(y)[i] == ys[i]);
        }
    }
}

pub proof fn lemma_langs_alike(
    xs: Seq<Re>,
    s: Reading,
    ys: Seq<Re>,
    t: Reading,
    a: spec_fn(Seq<char>) -> char,
    c: Seq<ClassView>,
    g: Seq<char>,
    e: Seq<ClassView>,
    h: Seq<char>,
)
    requires
        parts_alike(xs, s, ys, t, a),
        fits(c, g, s, a),
        fits(e, h, t, a),
    ensures
        langs(xs, c, Env::Bound(g)) == langs(ys, e, Env::Bound(h)),
        all_wf(xs),
        all_wf(ys),
{
    reveal(alike);
    assert(langs(xs, c, Env::Bound(g)) =~= langs(ys, e, Env::Bound(h))) by {
        assert forall|i: int| 0 <= i < xs.len() implies langs(xs, c, Env::Bound(g))[i] == langs(
            ys,
            e,
            Env::Bound(h),
        )[i] by {
            assert(alike(xs[i], s, ys[i], t, a));
            lemma_langs(xs, c, Env::Bound(g), i);
            lemma_langs(ys, e, Env::Bound(h), i);
        }
    }
    assert forall|i: int| 0 <= i < xs.len() implies re_wf(#[trigger] xs[i]) by {
        assert(alike(xs[i], s, ys[i], t, a));
    }
    assert forall|i: int| 0 <= i < ys.len() implies re_wf(#[trigger] ys[i]) by {
        assert(alike(xs[i], s, ys[i], t, a));
    }
}

proof fn lemma_parts_wf(
    xs: Seq<Re>,
    s: Reading,
    ys: Seq<Re>,
    t: Reading,
    a: spec_fn(Seq<char>) -> char,
)
    requires
        parts_alike(xs, s, ys, t, a),
    ensures
        all_wf(xs),
        all_wf(ys),
{
    reveal(alike);
    assert forall|i: int| 0 <= i < xs.len() implies re_wf(#[trigger] xs[i]) by {
        assert(alike(xs[i], s, ys[i], t, a));
    }
    assert forall|i: int| 0 <= i < ys.len() implies re_wf(#[trigger] ys[i]) by {
        assert(alike(xs[i], s, ys[i], t, a));
    }
}

/// The constructors keep what matches alike.
pub proof fn lemma_made_alike(
    xs: Seq<Re>,
    s: Reading,
    ys: Seq<Re>,
    t: Reading,
    a: spec_fn(Seq<char>) -> char,
)
    requires
        parts_alike(xs, s, ys, t, a),
    ensures
        alike(re_concat(xs), s, re_concat(ys), t, a),
        alike(re_alt(xs), s, re_alt(ys), t, a),
        alike(re_anagram(xs), s, re_anagram(ys), t, a),
        xs.len() > 0 ==> alike(re_intersect(xs), s, re_intersect(ys), t, a),
{
    lemma_parts_wf(xs, s, ys, t, a);
    lemma_normal_wf(xs);
    lemma_normal_wf(ys);
    assert forall|c: Seq<ClassView>, g: Seq<char>, e: Seq<ClassView>, h: Seq<char>|
        #![trigger fits(c, g, s, a), fits(e, h, t, a)]
        fits(c, g, s, a) && fits(e, h, t, a) implies {
        &&& lang(re_concat(xs), c, Env::Bound(g)) == lang(re_concat(ys), e, Env::Bound(h))
        &&& lang(re_alt(xs), c, Env::Bound(g)) == lang(re_alt(ys), e, Env::Bound(h))
        &&& lang(re_anagram(xs), c, Env::Bound(g)) == lang(re_anagram(ys), e, Env::Bound(h))
        &&& xs.len() > 0 ==> lang(re_intersect(xs), c, Env::Bound(g)) == lang(
            re_intersect(ys),
            e,
            Env::Bound(h),
        )
    } by {
        lemma_langs_alike(xs, s, ys, t, a, c, g, e, h);
        lemma_concat_lang(xs, c, Env::Bound(g));
        lemma_concat_lang(ys, e, Env::Bound(h));
        lemma_alt_lang(xs, c, Env::Bound(g));
        lemma_alt_lang(ys, e, Env::Bound(h));
        lemma_anagram_lang(xs, c, Env::Bound(g));
        lemma_anagram_lang(ys, e, Env::Bound(h));
        if xs.len() > 0 {
            lemma_intersect_lang(xs, c, Env::Bound(g));
            lemma_intersect_lang(ys, e, Env::Bound(h));
        }
    }
    reveal(alike);
}

pub proof fn lemma_star_alike(x: Re, s: Reading, y: Re, t: Reading, a: spec_fn(Seq<char>) -> char)
    requires
        alike(x, s, y, t, a),
    ensures
        alike(re_star(x), s, re_star(y), t, a),
{
    reveal(alike);
    assert forall|c: Seq<ClassView>, g: Seq<char>, e: Seq<ClassView>, h: Seq<char>| #[trigger]
        fits(c, g, s, a) && #[trigger] fits(e, h, t, a) implies lang(re_star(x), c, Env::Bound(g))
        == lang(re_star(y), e, Env::Bound(h)) by {
        lemma_star_lang(x, c, Env::Bound(g));
        lemma_star_lang(y, e, Env::Bound(h));
    }
}

/// What needs no classes and groups is alike everywhere.
pub proof fn lemma_fixed_alike(s: Reading, t: Reading, a: spec_fn(Seq<char>) -> char)
    ensures
        alike(Re::Epsilon, s, Re::Epsilon, t, a),
        alike(Re::Empty, s, Re::Empty, t, a),
{
    reveal(alike);
}

/// Two classes that hold the same are alike.
proof fn lemma_class_alike(
    i: u32,
    s: Reading,
    j: u32,
    t: Reading,
    a: spec_fn(Seq<char>) -> char,
)
    requires
        i < s.classes.len(),
        j < t.classes.len(),
        s.classes[i as int] == t.classes[j as int],
    ensures
        alike(Re::Class(i), s, Re::Class(j), t, a),
{
    reveal(alike);
    reveal(fits);
    assert forall|c: Seq<ClassView>, g: Seq<char>, e: Seq<ClassView>, h: Seq<char>| #[trigger]
        fits(c, g, s, a) && #[trigger] fits(e, h, t, a) implies lang(
        Re::Class(i),
        c,
        Env::Bound(g),
    ) == lang(Re::Class(j), e, Env::Bound(h)) by {
        assert(s.classes[i as int] == c[i as int]);
        assert(t.classes[j as int] == e[j as int]);
        assert(lang(Re::Class(i), c, Env::Bound(g)) =~= lang(Re::Class(j), e, Env::Bound(h)));
    }
}

/// Two groups of one name are alike.
proof fn lemma_group_alike(
    i: u32,
    s: Reading,
    j: u32,
    t: Reading,
    a: spec_fn(Seq<char>) -> char,
)
    requires
        i < s.groups.len(),
        j < t.groups.len(),
        s.groups[i as int] == t.groups[j as int],
        s.classes.len() > 0,
        t.classes.len() > 0,
        s.classes[0] == t.classes[0],
    ensures
        alike(
            Re::Capture { class: 0, group: i },
            s,
            Re::Capture { class: 0, group: j },
            t,
            a,
        ),
{
    reveal(alike);
    reveal(fits);
    let x = Re::Capture { class: 0, group: i };
    let y = Re::Capture { class: 0, group: j };
    assert forall|c: Seq<ClassView>, g: Seq<char>, e: Seq<ClassView>, h: Seq<char>| #[trigger]
        fits(c, g, s, a) && #[trigger] fits(e, h, t, a) implies lang(x, c, Env::Bound(g)) == lang(
        y,
        e,
        Env::Bound(h),
    ) by {
        assert(s.classes[0] == c[0]);
        assert(t.classes[0] == e[0]);
        assert(g[i as int] == a(s.groups[i as int]));
        assert(h[j as int] == a(t.groups[j as int]));
        assert(lang(x, c, Env::Bound(g)) =~= lang(y, e, Env::Bound(h)));
    }
}

/// A class that is met behind a place further on.
proof fn lemma_intern(q: Seq<char>, s: Reading, e: int, class: ClassView)
    requires
        sound(q, s),
        s.at < e <= q.len(),
    ensures
        ({
            let (id, n) = intern(Reading { at: e, ..s }, class);
            &&& id < n.classes.len()
            &&& n.classes[id as int] == class
            &&& n.at == e
            &&& sound(q, n)
            &&& grown(s, n)
        }),
{
    lemma_index_is(s.classes, class);
}

/// A group that is met behind a place further on.
proof fn lemma_intern_group(q: Seq<char>, s: Reading, e: int, name: Seq<char>)
    requires
        sound(q, s),
        s.at < e <= q.len(),
    ensures
        ({
            let (id, n) = intern_group(Reading { at: e, ..s }, name);
            &&& id < n.groups.len()
            &&& n.groups[id as int] == name
            &&& n.at == e
            &&& sound(q, n)
            &&& grown(s, n)
        }),
{
    lemma_index_is(s.groups, name);
    let (id, n) = intern_group(Reading { at: e, ..s }, name);
    if first_index(s.groups, name) is None {
        assert forall|i: int, j: int|
            0 <= i < n.groups.len() && 0 <= j < n.groups.len() && i != j implies n.groups[i]
            != n.groups[j] by {
            if i < s.groups.len() {
                assert(s.groups.contains(s.groups[i]));
            }
            if j < s.groups.len() {
                assert(s.groups.contains(s.groups[j]));
            }
        }
    }
}

/// A class is read alike.
proof fn lemma_one_class(
    p: Seq<char>,
    q: Seq<char>,
    d: int,
    s: Reading,
    t: Reading,
    e: int,
    class: ClassView,
    a: spec_fn(Seq<char>) -> char,
)
    requires
        abreast(p, q, d, s, t),
        s.at < e <= p.len(),
    ensures
        ({
            let (i, n) = intern(Reading { at: e, ..s }, class);
            let (j, m) = intern(Reading { at: e + d, ..t }, class);
            agree(
                p,
                q,
                d,
                s,
                Ok::<(Re, Reading), Fault>((Re::Class(i), n)),
                t,
                Ok::<(Re, Reading), Fault>((Re::Class(j), m)),
                a,
            )
        }),
{
    lemma_intern(p, s, e, class);
    lemma_intern(q, t, e + d, class);
    let (i, n) = intern(Reading { at: e, ..s }, class);
    let (j, m) = intern(Reading { at: e + d, ..t }, class);
    lemma_class_alike(i, n, j, m, a);
}

/// A set of characters is read alike.
proof fn lemma_one_set(
    p: Seq<char>,
    q: Seq<char>,
    d: int,
    s: Reading,
    t: Reading,
    e: int,
    set: Set<char>,
    a: spec_fn(Seq<char>) -> char,
)
    requires
        abreast(p, q, d, s, t),
        s.at < e <= p.len(),
    ensures
        agree(
            p,
            q,
            d,
            s,
            Ok::<(Re, Reading), Fault>(read_set(Reading { at: e, ..s }, set)),
            t,
            Ok::<(Re, Reading), Fault>(read_set(Reading { at: e + d, ..t }, set)),
            a,
        ),
{
    let ranges = ranges_of(set);
    if ranges.len() == 0 {
        lemma_fixed_alike(Reading { at: e, ..s }, Reading { at: e + d, ..t }, a);
    } else {
        lemma_one_class(p, q, d, s, t, e, ClassView::Ranges { ranges, negated: false }, a);
    }
}

/// A property is read alike.
#[verifier::spinoff_prover]
#[verifier::rlimit(40)]
proof fn lemma_named_alike(
    p: Seq<char>,
    q: Seq<char>,
    d: int,
    data: DataView,
    s: Reading,
    t: Reading,
    e: int,
    name: Seq<char>,
    content: Seq<char>,
    start: int,
    other: int,
    a: spec_fn(Seq<char>) -> char,
)
    requires
        abreast(p, q, d, s, t),
        s.at < e <= p.len(),
        read_named(data, Reading { at: e, ..s }, name, content, start) is Ok,
    ensures
        agree(
            p,
            q,
            d,
            s,
            read_named(data, Reading { at: e, ..s }, name, content, start),
            t,
            read_named(data, Reading { at: e + d, ..t }, name, content, other),
            a,
        ),
{
    if name == "b"@ {
        lemma_one_set(p, q, d, s, t, e, with_all(data, content), a);
    } else if name == "h"@ {
        if let Ok((low, high)) = stroke_range(content) {
            lemma_one_set(p, q, d, s, t, e, with_strokes(data, low as int, high as int), a);
        }
    } else if name == "p"@ {
        if let Ok(glob) = glob_of(content) {
            lemma_one_set(p, q, d, s, t, e, with_glob(data, glob), a);
        }
    } else if name == "t"@ {
        if group_name(content) {
            lemma_intern_group(p, s, e, content);
            lemma_intern_group(q, t, e + d, content);
            let (i, n) = intern_group(Reading { at: e, ..s }, content);
            let (j, m) = intern_group(Reading { at: e + d, ..t }, content);
            lemma_group_alike(i, n, j, m, a);
        }
    } else if name == "z"@ {
        if let Ok(set) = template_fills(data.words, content) {
            lemma_one_set(p, q, d, s, t, e, set, a);
        }
    }
}

proof fn lemma_past_letters(p: Seq<char>, q: Seq<char>, d: int, s: Reading, t: Reading, at: int)
    requires
        abreast(p, q, d, s, t),
        s.at <= at <= p.len(),
    ensures
        at <= past_letters(p, at) <= p.len(),
        past_letters(p, at) < p.len() ==> past_letters(q, at + d) == past_letters(p, at) + d,
    decreases p.len() - at,
{
    if at < p.len() {
        lemma_peek(p, q, d, s, t, at);
        if crate::text::letter(p[at]) {
            lemma_past_letters(p, q, d, s, t, at + 1);
        }
    }
}

proof fn lemma_past_digits(p: Seq<char>, q: Seq<char>, d: int, s: Reading, t: Reading, at: int)
    requires
        abreast(p, q, d, s, t),
        s.at <= at <= p.len(),
    ensures
        at <= past_digits(p, at) <= p.len(),
        past_digits(p, at) < p.len() ==> past_digits(q, at + d) == past_digits(p, at) + d,
    decreases p.len() - at,
{
    if at < p.len() {
        lemma_peek(p, q, d, s, t, at);
        if digit(p[at]) {
            lemma_past_digits(p, q, d, s, t, at + 1);
        }
    }
}

proof fn lemma_content(
    p: Seq<char>,
    q: Seq<char>,
    d: int,
    s: Reading,
    t: Reading,
    at: int,
    start: int,
    other: int,
    so_far: Seq<char>,
)
    requires
        abreast(p, q, d, s, t),
        s.at <= at <= p.len(),
    ensures
        property_content(p, at, start, so_far) matches Ok((content, next)) ==> at < next <= p.len()
            && property_content(q, at + d, other, so_far) == Ok::<(Seq<char>, int), Fault>(
            (content, next + d),
        ),
    decreases p.len() - at,
{
    if at < p.len() {
        lemma_peek(p, q, d, s, t, at);
        if p[at] != ')' && p[at] != '(' {
            lemma_content(p, q, d, s, t, at + 1, start, other, so_far.push(p[at]));
        }
    }
}

#[verifier::spinoff_prover]
proof fn lemma_property_alike(
    p: Seq<char>,
    q: Seq<char>,
    d: int,
    data: DataView,
    s: Reading,
    t: Reading,
    a: spec_fn(Seq<char>) -> char,
)
    requires
        abreast(p, q, d, s, t),
        s.at < p.len(),
        read_property(p, data, Reading { at: s.at + 1, ..s }, s.at) is Ok,
    ensures
        agree(
            p,
            q,
            d,
            s,
            read_property(p, data, Reading { at: s.at + 1, ..s }, s.at),
            t,
            read_property(q, data, Reading { at: t.at + 1, ..t }, t.at),
            a,
        ),
        read_property(p, data, Reading { at: s.at + 1, ..s }, s.at)->Ok_0.1.at > s.at,
{
    let at = s.at + 1;
    let end = past_letters(p, at);
    lemma_past_letters(p, q, d, s, t, at);
    assert(peek(p, end) == Some('('));
    lemma_peek(p, q, d, s, t, end);
    lemma_content(p, q, d, s, t, end + 1, s.at, t.at, Seq::empty());
    let (content, next) = property_content(p, end + 1, s.at, Seq::empty())->Ok_0;
    assert(p.subrange(at, end) =~= q.subrange(at + d, end + d)) by {
        assert forall|i: int| 0 <= i < end - at implies p.subrange(at, end)[i] == q.subrange(
            at + d,
            end + d,
        )[i] by {
            assert(p[at + i] == q[at + i + d]);
        }
    }
    lemma_named_alike(
        p,
        q,
        d,
        data,
        s,
        t,
        next,
        p.subrange(at, end),
        trimmed(content),
        s.at,
        t.at,
        a,
    );
}

proof fn lemma_member(
    p: Seq<char>,
    q: Seq<char>,
    d: int,
    s: Reading,
    t: Reading,
    at: int,
    start: int,
    other: int,
)
    requires
        abreast(p, q, d, s, t),
        s.at <= at <= p.len(),
    ensures
        class_member(p, at, start) matches Ok((c, next)) ==> at < next <= p.len() && class_member(
            q,
            at + d,
            other,
        ) == Ok::<(char, int), Fault>((c, next + d)),
{
    if at < p.len() {
        lemma_peek(p, q, d, s, t, at);
        if at + 1 < p.len() {
            lemma_peek(p, q, d, s, t, at + 1);
        }
    }
}

proof fn lemma_members(
    p: Seq<char>,
    q: Seq<char>,
    d: int,
    s: Reading,
    t: Reading,
    at: int,
    start: int,
    other: int,
    ranges: Seq<CharRange>,
)
    requires
        abreast(p, q, d, s, t),
        s.at <= at <= p.len(),
        class_members(p, at, start, ranges) matches Ok((_, end)) && peek(p, end) == Some(']'),
    ensures
        class_members(p, at, start, ranges) matches Ok((found, end)) && at <= end < p.len()
            && class_members(q, at + d, other, ranges) == Ok::<
            (Seq<CharRange>, int),
            Fault,
        >((found, end + d)),
    decreases p.len() - at,
{
    if at < p.len() {
        lemma_peek(p, q, d, s, t, at);
        if p[at] != ']' {
            lemma_member(p, q, d, s, t, at, start, other);
            let (first, next) = class_member(p, at, start)->Ok_0;
            if next == p.len() {
                let one = ranges.push(CharRange { start: first, end: first });
                assert(peek(p, next) is None);
                assert(class_members(p, next, start, one) == Ok::<(Seq<CharRange>, int), Fault>(
                    (one, next),
                ));
                assert(class_members(p, at, start, ranges) == class_members(p, next, start, one));
            }
            lemma_peek(p, q, d, s, t, next);
            if p[next] == '-' {
                lemma_member(p, q, d, s, t, next + 1, start, other);
                assert(next + 1 < p.len());
                lemma_peek(p, q, d, s, t, next + 1);
                if p[next + 1] != ']' {
                    let (last, end) = class_member(p, next + 1, start)->Ok_0;
                    let more = ranges.push(
                        CharRange { start: first, end: last },
                    );
                    lemma_members(p, q, d, s, t, end, start, other, more);
                } else {
                    let more = ranges.push(
                        CharRange { start: first, end: first },
                    );
                    lemma_members(p, q, d, s, t, next, start, other, more);
                }
            } else {
                let more = ranges.push(
                    CharRange { start: first, end: first },
                );
                lemma_members(p, q, d, s, t, next, start, other, more);
            }
        }
    }
}

#[verifier::spinoff_prover]
proof fn lemma_class_read_alike(
    p: Seq<char>,
    q: Seq<char>,
    d: int,
    s: Reading,
    t: Reading,
    a: spec_fn(Seq<char>) -> char,
)
    requires
        abreast(p, q, d, s, t),
        s.at < p.len(),
        read_class(p, Reading { at: s.at + 1, ..s }, s.at) is Ok,
    ensures
        agree(
            p,
            q,
            d,
            s,
            read_class(p, Reading { at: s.at + 1, ..s }, s.at),
            t,
            read_class(q, Reading { at: t.at + 1, ..t }, t.at),
            a,
        ),
        read_class(p, Reading { at: s.at + 1, ..s }, s.at)->Ok_0.1.at > s.at,
{
    let at = s.at + 1;
    let negated = peek(p, at) == Some('^');
    let from = if negated {
        at + 1
    } else {
        at
    };
    let (ranges, end) = class_members(p, from, s.at, Seq::empty())->Ok_0;
    if at == p.len() {
        assert(peek(p, at) is None);
        assert(class_members(p, at, s.at, Seq::empty()) == Ok::<(Seq<CharRange>, int), Fault>(
            (Seq::empty(), at),
        ));
    }
    lemma_peek(p, q, d, s, t, at);
    lemma_members(p, q, d, s, t, from, s.at, t.at, Seq::empty());
    lemma_peek(p, q, d, s, t, end);
    let class = ClassView::Ranges { ranges: joined(sorted_ranges(ranges)), negated };
    lemma_one_class(p, q, d, s, t, end + 1, class, a);
}

proof fn lemma_count(
    p: Seq<char>,
    q: Seq<char>,
    d: int,
    s: Reading,
    t: Reading,
    at: int,
    start: int,
    other: int,
)
    requires
        abreast(p, q, d, s, t),
        s.at <= at <= p.len(),
    ensures
        read_count(p, at, start) matches Ok((n, end)) ==> at < end <= p.len() && (end < p.len()
            ==> read_count(q, at + d, other) == Ok::<(nat, int), Fault>((n, end + d))),
{
    let end = past_digits(p, at);
    lemma_past_digits(p, q, d, s, t, at);
    if end < p.len() {
        assert(p.subrange(at, end) =~= q.subrange(at + d, end + d)) by {
            assert forall|i: int| 0 <= i < end - at implies p.subrange(at, end)[i] == q.subrange(
                at + d,
                end + d,
            )[i] by {
                assert(p[at + i] == q[at + i + d]);
            }
        }
    }
}

proof fn lemma_counts(p: Seq<char>, q: Seq<char>, d: int, s: Reading, t: Reading)
    requires
        abreast(p, q, d, s, t),
        s.at < p.len(),
    ensures
        read_counts(p, s.at) matches Ok((low, high, end)) ==> s.at < end <= p.len() && read_counts(
            q,
            t.at,
        ) == Ok::<(nat, Option<nat>, int), Fault>((low, high, end + d)),
{
    if read_counts(p, s.at) is Ok {
        lemma_count(p, q, d, s, t, s.at + 1, s.at, t.at);
        let (low, at) = read_count(p, s.at + 1, s.at)->Ok_0;
        assert(at < p.len());
        lemma_peek(p, q, d, s, t, at);
        if p[at] == ',' {
            if at + 1 < p.len() {
                lemma_peek(p, q, d, s, t, at + 1);
            }
            lemma_count(p, q, d, s, t, at + 1, s.at, t.at);
            if peek(p, at + 1) != Some('}') {
                let (high, end) = read_count(p, at + 1, s.at)->Ok_0;
                assert(peek(p, end) == Some('}'));
                lemma_peek(p, q, d, s, t, end);
                assert(at + 1 < p.len());
            }
        }
    }
}

proof fn lemma_copies_alike(
    x: Re,
    s: Reading,
    y: Re,
    t: Reading,
    n: nat,
    a: spec_fn(Seq<char>) -> char,
)
    requires
        alike(x, s, y, t, a),
    ensures
        parts_alike(copies(x, n), s, copies(y, n), t, a),
{
}

proof fn lemma_repeated_alike(
    x: Re,
    s: Reading,
    y: Re,
    t: Reading,
    low: nat,
    high: Option<nat>,
    a: spec_fn(Seq<char>) -> char,
)
    requires
        alike(x, s, y, t, a),
    ensures
        alike(repeated(x, low, high), s, repeated(y, low, high), t, a),
{
    lemma_copies_alike(x, s, y, t, low, a);
    lemma_star_alike(x, s, y, t, a);
    lemma_pair_alike(Re::Epsilon, x, s, Re::Epsilon, y, t, a);
    lemma_made_alike(seq![Re::Epsilon, x], s, seq![Re::Epsilon, y], t, a);
    match high {
        None => {
            let (xs, ys) = (copies(x, low).push(re_star(x)), copies(y, low).push(re_star(y)));
            assert(grown(s, s) && grown(t, t));
            lemma_parts_push(copies(x, low), s, re_star(x), s, copies(y, low), t, re_star(y), t, a);
            lemma_made_alike(xs, s, ys, t, a);
        },
        Some(h) => {
            let m = (h - low) as nat;
            let (o, r) = (re_alt(seq![Re::Epsilon, x]), re_alt(seq![Re::Epsilon, y]));
            lemma_copies_alike(o, s, r, t, m, a);
            let (xs, ys) = (copies(x, low) + copies(o, m), copies(y, low) + copies(r, m));
            assert forall|i: int| 0 <= i < xs.len() implies alike(#[trigger] xs[i], s, ys[i], t, a) by {
                if i < low {
                    assert(xs[i] == x && ys[i] == y);
                } else {
                    assert(xs[i] == o && ys[i] == r);
                }
            }
            lemma_made_alike(xs, s, ys, t, a);
        },
    }
}

proof fn lemma_pair_alike(
    x: Re,
    y: Re,
    s: Reading,
    u: Re,
    v: Re,
    t: Reading,
    a: spec_fn(Seq<char>) -> char,
)
    requires
        x == Re::Epsilon && u == Re::Epsilon || alike(x, s, u, t, a),
        alike(y, s, v, t, a),
    ensures
        parts_alike(seq![x, y], s, seq![u, v], t, a),
{
    lemma_fixed_alike(s, t, a);
    let (xs, ys) = (seq![x, y], seq![u, v]);
    assert forall|i: int| 0 <= i < xs.len() implies alike(#[trigger] xs[i], s, ys[i], t, a) by {
        if i == 0 {
            assert(xs[i] == x && ys[i] == u);
        } else {
            assert(xs[i] == y && ys[i] == v);
        }
    }
}

#[verifier::spinoff_prover]
#[verifier::rlimit(40)]
proof fn lemma_quantifier_alike(
    p: Seq<char>,
    q: Seq<char>,
    d: int,
    s: Reading,
    x: Re,
    t: Reading,
    y: Re,
    a: spec_fn(Seq<char>) -> char,
)
    requires
        abreast(p, q, d, s, t),
        alike(x, s, y, t, a),
        read_quantifier(p, s, x) is Ok,
    ensures
        agree(p, q, d, s, read_quantifier(p, s, x), t, read_quantifier(q, t, y), a),
{
    lemma_pair_alike(Re::Epsilon, x, s, Re::Epsilon, y, t, a);
    lemma_made_alike(seq![Re::Epsilon, x], s, seq![Re::Epsilon, y], t, a);
    lemma_star_alike(x, s, y, t, a);
    lemma_pair_alike(x, re_star(x), s, y, re_star(y), t, a);
    lemma_made_alike(seq![x, re_star(x)], s, seq![y, re_star(y)], t, a);
    if s.at == p.len() {
        assert(peek(p, s.at) is None);
        assert(read_quantifier(q, t, y) == Ok::<(Re, Reading), Fault>((y, t)));
    } else {
        let c = p[s.at];
        lemma_peek(p, q, d, s, t, s.at);
        let (n, m) = (Reading { at: s.at + 1, ..s }, Reading { at: t.at + 1, ..t });
        if c == '?' || c == '*' || c == '+' {
            lemma_alike_later(re_alt(seq![Re::Epsilon, x]), s, n, re_alt(seq![Re::Epsilon, y]), t, m, a);
            lemma_alike_later(re_star(x), s, n, re_star(y), t, m, a);
            lemma_alike_later(
                re_concat(seq![x, re_star(x)]),
                s,
                n,
                re_concat(seq![y, re_star(y)]),
                t,
                m,
                a,
            );
        } else if c == '{' {
            if s.at + 1 < p.len() {
                lemma_peek(p, q, d, s, t, s.at + 1);
                if digit(p[s.at + 1]) {
                    lemma_counts(p, q, d, s, t);
                    let (low, high, end) = read_counts(p, s.at)->Ok_0;
                    let (n, m) = (Reading { at: end, ..s }, Reading { at: end + d, ..t });
                    lemma_repeated_alike(x, s, y, t, low, high, a);
                    lemma_alike_later(repeated(x, low, high), s, n, repeated(y, low, high), t, m, a);
                    assert(read_repeat(p, s, x) == Ok::<(Re, Reading), Fault>(
                        (repeated(x, low, high), n),
                    ));
                    assert(read_repeat(q, t, y) == Ok::<(Re, Reading), Fault>(
                        (repeated(y, low, high), m),
                    ));
                }
            } else {
                assert(peek(p, s.at + 1) is None);
                assert(calm(peek(q, t.at + 1)));
                assert(read_quantifier(q, t, y) == Ok::<(Re, Reading), Fault>((y, t)));
            }
        }
    }
}

/// An alternation is read alike, where what follows it ends it too.
#[verifier::spinoff_prover]
#[verifier::rlimit(100)]
pub proof fn lemma_alt_alike(
    p: Seq<char>,
    q: Seq<char>,
    d: int,
    data: DataView,
    s: Reading,
    t: Reading,
    a: spec_fn(Seq<char>) -> char,
)
    requires
        abreast(p, q, d, s, t),
        read_alt(p, data, s) matches Ok((_, n)) && (n.at == p.len() ==> after_alt(
            peek(q, p.len() + d),
        )),
    ensures
        agree(p, q, d, s, read_alt(p, data, s), t, read_alt(q, data, t), a),
    decreases p.len() - s.at, 9nat,
{
    let x = read_intersection(p, data, s);
    let (first, n) = x->Ok_0;
    assert(x is Ok && (n.at == p.len() ==> after_meet(peek(q, p.len() + d)))) by {
        assert(x is Ok);
        if n.at == p.len() {
            assert(peek(p, n.at) is None);
            assert(read_alternatives(p, data, n, seq![first])->Ok_0.1 == n);
            assert(read_alt(p, data, s) == read_alternatives(p, data, n, seq![first]));
        }
    }
    lemma_intersection_alike(p, q, d, data, s, t, a);
    let (other, m) = read_intersection(q, data, t)->Ok_0;
    let none = Seq::<Re>::empty();
    lemma_parts_push(none, s, first, n, none, t, other, m, a);
    assert(none.push(first) =~= seq![first]);
    assert(none.push(other) =~= seq![other]);
    assert(read_alt(p, data, s) == read_alternatives(p, data, n, seq![first]));
    assert(read_alt(q, data, t) == read_alternatives(q, data, m, seq![other]));
    let (e, f) = (read_alt(p, data, s)->Ok_0.1, read_alt(q, data, t)->Ok_0.1);
    lemma_alternatives_alike(p, q, d, data, n, seq![first], m, seq![other], a);
    lemma_grown_twice(s, n, e);
    lemma_grown_twice(t, m, f);
}

#[verifier::spinoff_prover]
#[verifier::rlimit(40)]
proof fn lemma_alternatives_alike(
    p: Seq<char>,
    q: Seq<char>,
    d: int,
    data: DataView,
    s: Reading,
    xs: Seq<Re>,
    t: Reading,
    ys: Seq<Re>,
    a: spec_fn(Seq<char>) -> char,
)
    requires
        abreast(p, q, d, s, t),
        parts_alike(xs, s, ys, t, a),
        read_alternatives(p, data, s, xs) matches Ok((_, n)) && (n.at == p.len() ==> after_alt(
            peek(q, p.len() + d),
        )),
    ensures
        agree(
            p,
            q,
            d,
            s,
            read_alternatives(p, data, s, xs),
            t,
            read_alternatives(q, data, t, ys),
            a,
        ),
    decreases p.len() - s.at, 8nat,
{
    lemma_made_alike(xs, s, ys, t, a);
    if s.at < p.len() {
        lemma_peek(p, q, d, s, t, s.at);
    }
    if peek(p, s.at) == Some('|') {
        let (u, v) = (Reading { at: s.at + 1, ..s }, Reading { at: t.at + 1, ..t });
        let (part, n) = read_intersection(p, data, u)->Ok_0;
        if n.at == p.len() {
            assert(peek(p, n.at) is None);
            assert(read_alternatives(p, data, n, xs.push(part))->Ok_0.1 == n);
        }
        lemma_intersection_alike(p, q, d, data, u, v, a);
        let (other, m) = read_intersection(q, data, v)->Ok_0;
        lemma_parts_push(xs, s, part, n, ys, t, other, m, a);
        assert(read_alternatives(p, data, s, xs) == read_alternatives(
            p,
            data,
            n,
            xs.push(part),
        ));
        assert(read_alternatives(q, data, t, ys) == read_alternatives(
            q,
            data,
            m,
            ys.push(other),
        ));
        lemma_alternatives_alike(p, q, d, data, n, xs.push(part), m, ys.push(other), a);
        lemma_grown_twice(s, n, read_alternatives(p, data, s, xs)->Ok_0.1);
        lemma_grown_twice(t, m, read_alternatives(q, data, t, ys)->Ok_0.1);
    }
}

/// An intersection is read alike, where what follows it ends it too.
#[verifier::spinoff_prover]
#[verifier::rlimit(40)]
pub proof fn lemma_intersection_alike(
    p: Seq<char>,
    q: Seq<char>,
    d: int,
    data: DataView,
    s: Reading,
    t: Reading,
    a: spec_fn(Seq<char>) -> char,
)
    requires
        abreast(p, q, d, s, t),
        read_intersection(p, data, s) matches Ok((_, n)) && (n.at == p.len() ==> after_meet(
            peek(q, p.len() + d),
        )),
    ensures
        agree(p, q, d, s, read_intersection(p, data, s), t, read_intersection(q, data, t), a),
    decreases p.len() - s.at, 7nat,
{
    let none = Seq::<Re>::empty();
    let (first, n) = read_concat(p, data, s, none)->Ok_0;
    if n.at == p.len() {
        assert(peek(p, n.at) is None);
        assert(read_conjuncts(p, data, n, seq![first])->Ok_0.1 == n);
    }
    lemma_concat_alike(p, q, d, data, s, none, t, none, a);
    let (other, m) = read_concat(q, data, t, none)->Ok_0;
    lemma_parts_push(none, s, first, n, none, t, other, m, a);
    assert(none.push(first) =~= seq![first]);
    assert(none.push(other) =~= seq![other]);
    assert(read_intersection(p, data, s) == read_conjuncts(p, data, n, seq![first]));
    assert(read_intersection(q, data, t) == read_conjuncts(q, data, m, seq![other]));
    lemma_conjuncts_alike(p, q, d, data, n, seq![first], m, seq![other], a);
    lemma_grown_twice(s, n, read_intersection(p, data, s)->Ok_0.1);
    lemma_grown_twice(t, m, read_intersection(q, data, t)->Ok_0.1);
}

#[verifier::spinoff_prover]
#[verifier::rlimit(40)]
proof fn lemma_conjuncts_alike(
    p: Seq<char>,
    q: Seq<char>,
    d: int,
    data: DataView,
    s: Reading,
    xs: Seq<Re>,
    t: Reading,
    ys: Seq<Re>,
    a: spec_fn(Seq<char>) -> char,
)
    requires
        abreast(p, q, d, s, t),
        xs.len() > 0,
        parts_alike(xs, s, ys, t, a),
        read_conjuncts(p, data, s, xs) matches Ok((_, n)) && (n.at == p.len() ==> after_meet(
            peek(q, p.len() + d),
        )),
    ensures
        agree(p, q, d, s, read_conjuncts(p, data, s, xs), t, read_conjuncts(q, data, t, ys), a),
    decreases p.len() - s.at, 6nat,
{
    lemma_made_alike(xs, s, ys, t, a);
    if s.at < p.len() {
        lemma_peek(p, q, d, s, t, s.at);
    }
    if peek(p, s.at) == Some('&') {
        let none = Seq::<Re>::empty();
        let (u, v) = (Reading { at: s.at + 1, ..s }, Reading { at: t.at + 1, ..t });
        let (part, n) = read_concat(p, data, u, none)->Ok_0;
        if n.at == p.len() {
            assert(peek(p, n.at) is None);
            assert(read_conjuncts(p, data, n, xs.push(part))->Ok_0.1 == n);
        }
        lemma_concat_alike(p, q, d, data, u, none, v, none, a);
        let (other, m) = read_concat(q, data, v, none)->Ok_0;
        lemma_parts_push(xs, s, part, n, ys, t, other, m, a);
        assert(read_conjuncts(p, data, s, xs) == read_conjuncts(p, data, n, xs.push(part)));
        assert(read_conjuncts(q, data, t, ys) == read_conjuncts(q, data, m, ys.push(other)));
        lemma_conjuncts_alike(p, q, d, data, n, xs.push(part), m, ys.push(other), a);
        lemma_grown_twice(s, n, read_conjuncts(p, data, s, xs)->Ok_0.1);
        lemma_grown_twice(t, m, read_conjuncts(q, data, t, ys)->Ok_0.1);
    }
}

/// A concatenation is read alike, where what follows it ends it too.
#[verifier::spinoff_prover]
#[verifier::rlimit(40)]
pub proof fn lemma_concat_alike(
    p: Seq<char>,
    q: Seq<char>,
    d: int,
    data: DataView,
    s: Reading,
    xs: Seq<Re>,
    t: Reading,
    ys: Seq<Re>,
    a: spec_fn(Seq<char>) -> char,
)
    requires
        abreast(p, q, d, s, t),
        parts_alike(xs, s, ys, t, a),
        read_concat(p, data, s, xs) matches Ok((_, n)) && (n.at == p.len() ==> after_concat(
            peek(q, p.len() + d),
        )),
    ensures
        agree(p, q, d, s, read_concat(p, data, s, xs), t, read_concat(q, data, t, ys), a),
    decreases p.len() - s.at, 5nat,
{
    lemma_made_alike(xs, s, ys, t, a);
    if s.at < p.len() {
        lemma_peek(p, q, d, s, t, s.at);
        if !ends_concat(p[s.at]) {
            let (part, n) = read_piece(p, data, s)->Ok_0;
            lemma_piece_alike(p, q, d, data, s, t, a);
            let (other, m) = read_piece(q, data, t)->Ok_0;
            lemma_parts_push(xs, s, part, n, ys, t, other, m, a);
            assert(read_concat(p, data, s, xs) == read_concat(p, data, n, xs.push(part)));
            assert(read_concat(q, data, t, ys) == read_concat(q, data, m, ys.push(other)));
            lemma_concat_alike(p, q, d, data, n, xs.push(part), m, ys.push(other), a);
            lemma_grown_twice(s, n, read_concat(p, data, s, xs)->Ok_0.1);
            lemma_grown_twice(t, m, read_concat(q, data, t, ys)->Ok_0.1);
        }
    } else {
        assert(peek(p, s.at) is None);
        assert(after_concat(peek(q, t.at)));
    }
}

/// A piece is read alike.
#[verifier::spinoff_prover]
#[verifier::rlimit(40)]
pub proof fn lemma_piece_alike(
    p: Seq<char>,
    q: Seq<char>,
    d: int,
    data: DataView,
    s: Reading,
    t: Reading,
    a: spec_fn(Seq<char>) -> char,
)
    requires
        abreast(p, q, d, s, t),
        read_piece(p, data, s) is Ok,
    ensures
        agree(p, q, d, s, read_piece(p, data, s), t, read_piece(q, data, t), a),
        read_piece(p, data, s)->Ok_0.1.at > s.at,
    decreases p.len() - s.at, 4nat,
{
    let (atom, n) = read_atom(p, data, s)->Ok_0;
    lemma_atom_alike(p, q, d, data, s, t, a);
    let (other, m) = read_atom(q, data, t)->Ok_0;
    lemma_quantifier_alike(p, q, d, n, atom, m, other, a);
    lemma_grown_twice(s, n, read_piece(p, data, s)->Ok_0.1);
    lemma_grown_twice(t, m, read_piece(q, data, t)->Ok_0.1);
}

#[verifier::spinoff_prover]
#[verifier::rlimit(40)]
pub proof fn lemma_anagram_alike(
    p: Seq<char>,
    q: Seq<char>,
    d: int,
    data: DataView,
    s: Reading,
    xs: Seq<Re>,
    t: Reading,
    ys: Seq<Re>,
    start: int,
    other_start: int,
    a: spec_fn(Seq<char>) -> char,
)
    requires
        abreast(p, q, d, s, t),
        parts_alike(xs, s, ys, t, a),
        read_anagram(p, data, s, xs, start) is Ok,
    ensures
        agree(
            p,
            q,
            d,
            s,
            read_anagram(p, data, s, xs, start),
            t,
            read_anagram(q, data, t, ys, other_start),
            a,
        ),
    decreases p.len() - s.at, 5nat,
{
    lemma_made_alike(xs, s, ys, t, a);
    assert(s.at < p.len());
    lemma_peek(p, q, d, s, t, s.at);
    if p[s.at] == '>' {
        let (n, m) = (Reading { at: s.at + 1, ..s }, Reading { at: t.at + 1, ..t });
        lemma_alike_later(re_anagram(xs), s, n, re_anagram(ys), t, m, a);
    } else {
        let (part, n) = read_piece(p, data, s)->Ok_0;
        lemma_piece_alike(p, q, d, data, s, t, a);
        let (other, m) = read_piece(q, data, t)->Ok_0;
        lemma_parts_push(xs, s, part, n, ys, t, other, m, a);
        assert(read_anagram(p, data, s, xs, start) == read_anagram(
            p,
            data,
            n,
            xs.push(part),
            start,
        ));
        assert(read_anagram(q, data, t, ys, other_start) == read_anagram(
            q,
            data,
            m,
            ys.push(other),
            other_start,
        ));
        lemma_anagram_alike(
            p,
            q,
            d,
            data,
            n,
            xs.push(part),
            m,
            ys.push(other),
            start,
            other_start,
            a,
        );
        lemma_grown_twice(s, n, read_anagram(p, data, s, xs, start)->Ok_0.1);
        lemma_grown_twice(t, m, read_anagram(q, data, t, ys, other_start)->Ok_0.1);
    }
}

/// An atom is read alike.
#[verifier::spinoff_prover]
#[verifier::rlimit(60)]
proof fn lemma_atom_alike(
    p: Seq<char>,
    q: Seq<char>,
    d: int,
    data: DataView,
    s: Reading,
    t: Reading,
    a: spec_fn(Seq<char>) -> char,
)
    requires
        abreast(p, q, d, s, t),
        read_atom(p, data, s) is Ok,
    ensures
        agree(p, q, d, s, read_atom(p, data, s), t, read_atom(q, data, t), a),
        read_atom(p, data, s)->Ok_0.1.at > s.at,
    decreases p.len() - s.at, 3nat,
{
    assert(s.at < p.len());
    lemma_peek(p, q, d, s, t, s.at);
    let c = p[s.at];
    let (u, v) = (Reading { at: s.at + 1, ..s }, Reading { at: t.at + 1, ..t });
    assert(abreast(p, q, d, u, v));
    if c == '.' {
        lemma_class_alike(0, u, 0, v, a);
    } else if c == '(' {
        let (inner, n) = read_alt(p, data, u)->Ok_0;
        assert(peek(p, n.at) == Some(')'));
        lemma_alt_alike(p, q, d, data, u, v, a);
        let (other, m) = read_alt(q, data, v)->Ok_0;
        lemma_peek(p, q, d, n, m, n.at);
        let (e, f) = (Reading { at: n.at + 1, ..n }, Reading { at: m.at + 1, ..m });
        lemma_alike_later(inner, n, e, other, m, f, a);
        lemma_grown_twice(s, n, e);
        lemma_grown_twice(t, m, f);
    } else if c == '[' {
        lemma_class_read_alike(p, q, d, s, t, a);
    } else if c == '<' {
        let none = Seq::<Re>::empty();
        lemma_anagram_alike(p, q, d, data, u, none, v, none, s.at, t.at, a);
        let n = read_anagram(p, data, u, none, s.at)->Ok_0.1;
        let m = read_anagram(q, data, v, none, t.at)->Ok_0.1;
        lemma_grown_twice(s, u, n);
        lemma_grown_twice(t, v, m);
    } else if c == '@' {
        lemma_property_alike(p, q, d, data, s, t, a);
    } else if c == '\\' {
        let escaped = peek(p, s.at + 1)->Some_0;
        lemma_peek(p, q, d, s, t, s.at + 1);
        assert(read_literal(Reading { at: s.at + 2, ..s }, escaped, s.at) is Ok);
        lemma_one_set(p, q, d, s, t, s.at + 2, set![escaped], a);
    } else {
        assert(read_literal(u, c, s.at) is Ok);
        lemma_one_set(p, q, d, s, t, s.at + 1, set![c], a);
    }
}

} // verus!
