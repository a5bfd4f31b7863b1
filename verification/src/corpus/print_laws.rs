//! What fingerprints tell apart, and what that means for poems.
use crate::chinese::han::han;
use crate::corpus::poetry::{with_body, with_fields};
use crate::corpus::preparer::{all_runs, bumped, with_field, with_records, Prepared};
use crate::corpus::prints::{
    empty_print, print_all, print_behind, print_of, print_with, turned, BodyPrint,
};
use vstd::arithmetic::div_mod::{
    lemma_mod_multiples_vanish, lemma_mul_mod_noop_left, lemma_small_mod,
};
use vstd::arithmetic::mul::{lemma_mul_is_associative, lemma_mul_is_distributive_add};
use vstd::prelude::*;
use vstd::wrapping::u64_specs::{wrapping_add, wrapping_mul};

verus! {

/// Multiplying by a number that has an inverse loses nothing.
proof fn lemma_mul_undone(x: u64, m: u64, back: u64, k: nat)
    requires
        m as nat * back as nat == k * 0x1_0000_0000_0000_0000 + 1,
    ensures
        (wrapping_mul(x, m) as int * back as int) % 0x1_0000_0000_0000_0000 == x,
{
    let range = 0x1_0000_0000_0000_0000int;
    let (a, b, c) = (x as int, m as int, back as int);
    assert(wrapping_mul(x, m) as int == (a * b) % range);
    lemma_mul_mod_noop_left(a * b, c, range);
    lemma_mul_is_associative(a, b, c);
    lemma_mul_is_distributive_add(a, k * range, 1);
    assert(a * (k * range + 1) == (a * k) * range + a) by (nonlinear_arith);
    lemma_mod_multiples_vanish(a * k, a, range);
    assert(range * (a * k) + a == (a * k) * range + a) by (nonlinear_arith);
    lemma_small_mod(x as nat, range as nat);
}

proof fn lemma_same_factor_a(x: u64, y: u64)
    requires
        wrapping_mul(x, 0x0000_0100_0000_01b3) == wrapping_mul(y, 0x0000_0100_0000_01b3),
    ensures
        x == y,
{
    let m = 0x0000_0100_0000_01b3u64;
    let back = 0xce96_5057_aff6_957bu64;
    lemma_mul_undone(x, m, back, 0xce_9650_590f);
    lemma_mul_undone(y, m, back, 0xce_9650_590f);
}

proof fn lemma_same_factor_b(x: u64, y: u64)
    requires
        wrapping_mul(x, 0x94d0_49bb_1331_11eb) == wrapping_mul(y, 0x94d0_49bb_1331_11eb),
    ensures
        x == y,
{
    let m = 0x94d0_49bb_1331_11ebu64;
    let back = 0x3196_42b2_d24d_8ec3u64;
    lemma_mul_undone(x, m, back, 0x1cd3_36ed_a85f_1453);
    lemma_mul_undone(y, m, back, 0x1cd3_36ed_a85f_1453);
}

/// A further character does not make the hashes of two fingerprints the same: a
/// fingerprint depends on everything that came before its last character.
pub proof fn law_print_depends_on_what_came_before(p: BodyPrint, q: BodyPrint, c: char)
    ensures
        print_with(p, c).hash_a == print_with(q, c).hash_a <==> p.hash_a == q.hash_a,
        print_with(p, c).hash_b == print_with(q, c).hash_b <==> p.hash_b == q.hash_b,
{
    let x = c as u64;
    let y = wrapping_add(x, 0x517c_c1b7_2722_0a95);
    let (a, b) = (p.hash_a, q.hash_a);
    let (d, e) = (p.hash_b, q.hash_b);
    if print_with(p, c).hash_a == print_with(q, c).hash_a {
        lemma_same_factor_a(a ^ x, b ^ x);
        assert(a ^ x == b ^ x ==> a == b) by (bit_vector);
    }
    if print_with(p, c).hash_b == print_with(q, c).hash_b {
        lemma_same_factor_b(turned(d ^ y), turned(e ^ y));
        lemma_turned(d ^ y, e ^ y);
        assert(d ^ y == e ^ y ==> d == e) by (bit_vector);
    }
}

proof fn lemma_turned(x: u64, y: u64)
    ensures
        turned(x) == turned(y) ==> x == y,
{
    assert(((x << 27u64) | (x >> 37u64)) == ((y << 27u64) | (y >> 37u64)) ==> x == y)
        by (bit_vector);
}

/// Two characters behind the same beginning give different hashes.
pub proof fn law_print_tells_characters_apart(p: BodyPrint, c: char, d: char)
    requires
        c != d,
    ensures
        print_with(p, c).hash_a != print_with(p, d).hash_a,
        print_with(p, c).hash_b != print_with(p, d).hash_b,
{
    let (x, y) = (c as u64, d as u64);
    let (a, b) = (p.hash_a, p.hash_b);
    let (s, t) = (
        wrapping_add(x, 0x517c_c1b7_2722_0a95),
        wrapping_add(y, 0x517c_c1b7_2722_0a95),
    );
    assert(x != y) by {
        if x == y {
            crate::text::lemma_same_code_point(c, d);
        }
    }
    if print_with(p, c).hash_a == print_with(p, d).hash_a {
        lemma_same_factor_a(a ^ x, a ^ y);
        assert(a ^ x == a ^ y ==> x == y) by (bit_vector);
    }
    if print_with(p, c).hash_b == print_with(p, d).hash_b {
        lemma_same_factor_b(turned(b ^ s), turned(b ^ t));
        lemma_turned(b ^ s, b ^ t);
        assert(b ^ s == b ^ t ==> s == t) by (bit_vector);
    }
}

/// Fingerprints stay apart behind any text.
proof fn lemma_apart_behind(p: BodyPrint, q: BodyPrint, s: Seq<char>)
    requires
        p.hash_a != q.hash_a,
        p.hash_b != q.hash_b,
    ensures
        print_behind(p, s).hash_a != print_behind(q, s).hash_a,
        print_behind(p, s).hash_b != print_behind(q, s).hash_b,
    decreases s.len(),
{
    if s.len() > 0 {
        lemma_apart_behind(p, q, s.drop_last());
        law_print_depends_on_what_came_before(
            print_behind(p, s.drop_last()),
            print_behind(q, s.drop_last()),
            s.last(),
        );
    }
}

/// A fingerprint of one text behind another.
pub proof fn lemma_print_append(p: BodyPrint, s: Seq<char>, t: Seq<char>)
    ensures
        print_behind(p, s + t) == print_behind(print_behind(p, s), t),
    decreases t.len(),
{
    if t.len() == 0 {
        assert(s + t =~= s);
    } else {
        assert((s + t).drop_last() =~= s + t.drop_last());
        assert((s + t).last() == t.last());
        lemma_print_append(p, s, t.drop_last());
    }
}

/// The texts, one behind the other.
pub open spec fn in_one(texts: Seq<Seq<char>>) -> Seq<char>
    decreases texts.len(),
{
    if texts.len() == 0 {
        Seq::empty()
    } else {
        in_one(texts.drop_last()) + texts.last()
    }
}

/// The Han characters of a text.
pub open spec fn han_of(s: Seq<char>) -> Seq<char>
    decreases s.len(),
{
    if s.len() == 0 {
        Seq::empty()
    } else if han(s.last()) {
        han_of(s.drop_last()).push(s.last())
    } else {
        han_of(s.drop_last())
    }
}

/// The fingerprint is that of the Han characters of all texts.
proof fn lemma_print_of_han(p: BodyPrint, s: Seq<char>)
    ensures
        print_behind(p, s) == print_behind(p, han_of(s)),
    decreases s.len(),
{
    if s.len() > 0 {
        lemma_print_of_han(p, s.drop_last());
        if han(s.last()) {
            assert(han_of(s).drop_last() =~= han_of(s.drop_last()));
        } else {
            assert(s.last() as int != '〇' as int);
        }
    }
}

proof fn lemma_print_in_one(texts: Seq<Seq<char>>)
    ensures
        print_all(texts) == print_behind(empty_print(), in_one(texts)),
    decreases texts.len(),
{
    if texts.len() > 0 {
        lemma_print_in_one(texts.drop_last());
        lemma_print_append(empty_print(), in_one(texts.drop_last()), texts.last());
    }
}

/// The number of Han characters, as far as it can be counted.
proof fn lemma_print_counts(p: BodyPrint, s: Seq<char>)
    ensures
        print_behind(p, s).han_chars == bumped(p.han_chars, han_of(s).len()),
    decreases s.len(),
{
    if s.len() > 0 {
        lemma_print_counts(p, s.drop_last());
        if !han(s.last()) {
            assert(s.last() as int != '〇' as int);
        }
    }
}

/// Editions that have the same Han characters, however they are divided into
/// lines and whatever else stands between them, have the same fingerprint; it
/// counts these characters, and there is none where there are none.
pub proof fn law_editions_have_one_print(a: Seq<Seq<char>>, b: Seq<Seq<char>>)
    requires
        han_of(in_one(a)) == han_of(in_one(b)),
    ensures
        print_of(a) == print_of(b),
        print_of(a) is None <==> han_of(in_one(a)).len() == 0,
        print_of(a) matches Some(print) ==> print.han_chars == bumped(0, han_of(in_one(a)).len()),
{
    lemma_print_in_one(a);
    lemma_print_in_one(b);
    lemma_print_of_han(empty_print(), in_one(a));
    lemma_print_of_han(empty_print(), in_one(b));
    lemma_print_counts(empty_print(), in_one(a));
}

/// The Han characters of two bodies are the same but for one place.
pub open spec fn differ_in_one(a: Seq<Seq<char>>, b: Seq<Seq<char>>) -> bool {
    let (s, t) = (han_of(in_one(a)), han_of(in_one(b)));
    s.len() == t.len() && exists|i: int|
        0 <= i < s.len() && s[i] != t[i] && #[trigger] s.take(i) == t.take(i) && s.skip(i + 1)
            == t.skip(i + 1)
}

/// Bodies whose Han characters differ in one place only have different
/// fingerprints, wherever that place is.
pub proof fn law_one_character_changes_the_print(a: Seq<Seq<char>>, b: Seq<Seq<char>>)
    requires
        differ_in_one(a, b),
    ensures
        print_of(a) is Some,
        print_of(b) is Some,
        print_of(a) != print_of(b),
{
    let (s, t) = (han_of(in_one(a)), han_of(in_one(b)));
    let i = choose|i: int|
        0 <= i < s.len() && s[i] != t[i] && #[trigger] s.take(i) == t.take(i) && s.skip(i + 1)
            == t.skip(i + 1);
    law_editions_have_one_print(a, a);
    law_editions_have_one_print(b, b);
    lemma_print_in_one(a);
    lemma_print_in_one(b);
    lemma_print_of_han(empty_print(), in_one(a));
    lemma_print_of_han(empty_print(), in_one(b));
    let first = print_behind(empty_print(), s.take(i));
    lemma_han_of_is_han(in_one(a));
    lemma_han_of_is_han(in_one(b));
    assert(han(s[i]) && han(t[i]));
    assert(s.take(i + 1).drop_last() =~= s.take(i));
    assert(t.take(i + 1).drop_last() =~= t.take(i));
    assert(print_behind(empty_print(), s.take(i + 1)) == print_with(first, s[i]));
    assert(print_behind(empty_print(), t.take(i + 1)) == print_with(first, t[i]));
    law_print_tells_characters_apart(first, s[i], t[i]);
    lemma_apart_behind(print_with(first, s[i]), print_with(first, t[i]), s.skip(i + 1));
    lemma_print_append(empty_print(), s.take(i + 1), s.skip(i + 1));
    lemma_print_append(empty_print(), t.take(i + 1), t.skip(i + 1));
    assert(s.take(i + 1) + s.skip(i + 1) =~= s);
    assert(t.take(i + 1) + t.skip(i + 1) =~= t);
}

proof fn lemma_han_of_is_han(s: Seq<char>)
    ensures
        forall|i: int| 0 <= i < han_of(s).len() ==> han(#[trigger] han_of(s)[i]),
    decreases s.len(),
{
    if s.len() > 0 {
        let before = han_of(s.drop_last());
        lemma_han_of_is_han(s.drop_last());
        assert forall|i: int| 0 <= i < han_of(s).len() implies han(#[trigger] han_of(s)[i]) by {
            if i < before.len() {
                assert(han_of(s)[i] == before[i]);
            }
        }
    }
}

/// The records of texts, each run of each text with this weight.
pub open spec fn records_in(texts: Seq<Seq<char>>, weight: u64) -> Seq<(Seq<char>, u64)>
    decreases texts.len(),
{
    if texts.len() == 0 {
        Seq::empty()
    } else {
        let runs = all_runs(texts.last(), false);
        records_in(texts.drop_last(), weight) + Seq::new(runs.len(), |i: int| (runs[i], weight))
    }
}

/// Each run adds a record.
pub proof fn lemma_records_of_runs(p: Prepared, runs: Seq<Seq<char>>, weight: u64)
    ensures
        with_records(p, runs, weight).records == p.records + Seq::new(
            runs.len(),
            |i: int| (runs[i], weight),
        ),
        with_records(p, runs, weight).bodies == p.bodies,
        with_records(p, runs, weight).titles == p.titles,
    decreases runs.len(),
{
    let all = Seq::new(runs.len(), |i: int| (runs[i], weight));
    if runs.len() == 0 {
        assert(p.records + all =~= p.records);
    } else {
        let fewer = runs.drop_last();
        lemma_records_of_runs(p, fewer, weight);
        let before = Seq::new(fewer.len(), |i: int| (fewer[i], weight));
        assert(all =~= before.push((runs.last(), weight)));
        assert((p.records + before).push((runs.last(), weight)) =~= p.records + all);
    }
}

proof fn lemma_records_of_fields(p: Prepared, texts: Seq<Seq<char>>, n: nat, weight: u64)
    requires
        n <= texts.len(),
    ensures
        with_fields(p, texts, n, weight).records == p.records + records_in(
            texts.take(n as int),
            weight,
        ),
        with_fields(p, texts, n, weight).bodies == p.bodies,
        with_fields(p, texts, n, weight).titles == p.titles,
    decreases n,
{
    if n == 0 {
        assert(p.records + records_in(texts.take(0), weight) =~= p.records);
    } else {
        lemma_records_of_fields(p, texts, (n - 1) as nat, weight);
        let q = with_fields(p, texts, (n - 1) as nat, weight);
        let runs = all_runs(texts[n - 1], false);
        lemma_records_of_runs(q, runs, weight);
        let here = texts.take(n as int);
        assert(here.drop_last() =~= texts.take(n - 1));
        assert(here.last() == texts[n - 1]);
        assert(with_field(q, texts[n - 1], weight, false).records == with_records(
            q,
            runs,
            weight,
        ).records);
        assert(p.records + records_in(texts.take(n - 1), weight) + Seq::new(
            runs.len(),
            |i: int| (runs[i], weight),
        ) =~= p.records + records_in(here, weight));
    }
}

/// A field adds a record for each of its runs.
pub proof fn lemma_records_of_field(p: Prepared, text: Seq<char>, weight: u64)
    ensures
        with_field(p, text, weight, false).records == p.records + records_in(seq![text], weight),
{
    let runs = all_runs(text, false);
    lemma_records_of_runs(p, runs, weight);
    let one = seq![text];
    assert(one.drop_last() =~= Seq::empty());
    assert(records_in(one.drop_last(), weight) =~= Seq::empty());
    assert(records_in(one, weight) =~= Seq::new(runs.len(), |i: int| (runs[i], weight)));
}

/// What a body adds: where its fingerprint is new, a record of weight 10 for each
/// run of each of its lines; otherwise nothing.
pub proof fn law_new_body_gives_all_its_records(p: Prepared, texts: Seq<Seq<char>>)
    ensures
        print_of(texts) matches Some(print) ==> with_body(p, texts).bodies == p.bodies.insert(
            print,
        ),
        print_of(texts) matches Some(print) && !p.bodies.contains(print) ==> with_body(
            p,
            texts,
        ).records == p.records + records_in(texts, 10),
        print_of(texts) matches Some(print) && p.bodies.contains(print) ==> with_body(p, texts)
            == p,
        print_of(texts) is None ==> with_body(p, texts) == p,
{
    if let Some(print) = print_of(texts) {
        let seen = Prepared { bodies: p.bodies.insert(print), ..p };
        lemma_records_of_fields(seen, texts, texts.len(), 10);
        assert(texts.take(texts.len() as int) =~= texts);
        if p.bodies.contains(print) {
            assert(p.bodies.insert(print) =~= p.bodies);
        }
    }
}

/// Bodies, one after the other.
pub open spec fn with_bodies(p: Prepared, bodies: Seq<Seq<Seq<char>>>) -> Prepared
    decreases bodies.len(),
{
    if bodies.len() == 0 {
        p
    } else {
        with_body(with_bodies(p, bodies.drop_last()), bodies.last())
    }
}

proof fn lemma_seen_bodies(p: Prepared, bodies: Seq<Seq<Seq<char>>>, print: BodyPrint)
    requires
        p.bodies == Set::<BodyPrint>::empty(),
    ensures
        with_bodies(p, bodies).bodies.contains(print) ==> exists|i: int|
            0 <= i < bodies.len() && print_of(#[trigger] bodies[i]) == Some(print),
    decreases bodies.len(),
{
    if bodies.len() > 0 {
        let before = with_bodies(p, bodies.drop_last());
        lemma_seen_bodies(p, bodies.drop_last(), print);
        law_new_body_gives_all_its_records(before, bodies.last());
        if with_bodies(p, bodies).bodies.contains(print) {
            if before.bodies.contains(print) {
                let i = choose|i: int|
                    0 <= i < bodies.drop_last().len() && print_of(
                        #[trigger] bodies.drop_last()[i],
                    ) == Some(print);
                assert(print_of(bodies[i]) == Some(print));
            } else {
                assert(print_of(bodies[bodies.len() - 1]) == Some(print));
            }
        }
    }
}

/// A poem that differs from each one before it in one character gives a record
/// for every run of every line.
pub proof fn law_poem_that_differs_gives_all_its_records(
    p: Prepared,
    seen: Seq<Seq<Seq<char>>>,
    poem: Seq<Seq<char>>,
)
    requires
        p.bodies == Set::<BodyPrint>::empty(),
        han_of(in_one(poem)).len() > 0,
        forall|i: int| 0 <= i < seen.len() ==> differ_in_one(#[trigger] seen[i], poem),
    ensures
        with_body(with_bodies(p, seen), poem).records == with_bodies(p, seen).records + records_in(
            poem,
            10,
        ),
{
    law_editions_have_one_print(poem, poem);
    let print = print_of(poem)->Some_0;
    let before = with_bodies(p, seen);
    lemma_seen_bodies(p, seen, print);
    if before.bodies.contains(print) {
        let i = choose|i: int|
            0 <= i < seen.len() && print_of(#[trigger] seen[i]) == Some(print);
        law_one_character_changes_the_print(seen[i], poem);
    }
    law_new_body_gives_all_its_records(before, poem);
}

} // verus!
