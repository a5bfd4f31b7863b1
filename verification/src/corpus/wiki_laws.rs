//! What is shown of a page whose markup is stripped.
use crate::corpus::find::{find_from, find_lowered};
use crate::corpus::json::stands_text;
use crate::corpus::preparer::bumped;
use crate::corpus::types::lowered;
use crate::corpus::wiki::{
    end_tag, hidden_tag, link_text, name_part, parting_tag, tag_end, tag_of, up_to, wiki_feed,
    wiki_from, wiki_start, without_slashes, Tag, WikiState,
};
use crate::text::{
    digit, first_place, last_place, lemma_first_place, letter, trimmed, trimmed_start, white,
};
use vstd::prelude::*;
use vstd::string::*;

verus! {

proof fn lemma_stands_behind(p: Seq<char>, b: Seq<char>, k: int, t: Seq<char>)
    requires
        0 <= k,
    ensures
        stands_text(p + b, p.len() + k, t) == stands_text(b, k, t),
{
    if k + t.len() <= b.len() {
        assert((p + b).subrange(p.len() + k, p.len() + k + t.len()) =~= b.subrange(
            k,
            k + t.len(),
        ));
    }
}

/// A place in a text, seen from before what stands before it.
spec fn moved(at: Option<int>, by: int) -> Option<int> {
    match at {
        Some(i) => Some(i + by),
        None => None,
    }
}

proof fn lemma_find_behind(p: Seq<char>, b: Seq<char>, k: int, t: Seq<char>)
    requires
        0 <= k,
    ensures
        find_from(p + b, p.len() + k, t) == moved(find_from(b, k, t), p.len() as int),
    decreases b.len() - k,
{
    lemma_stands_behind(p, b, k, t);
    if t.len() > 0 && k + t.len() <= b.len() && !stands_text(b, k, t) {
        lemma_find_behind(p, b, k + 1, t);
    }
}

proof fn lemma_found(s: Seq<char>, at: int, t: Seq<char>)
    ensures
        find_from(s, at, t) matches Some(i) ==> at <= i && i + t.len() <= s.len(),
    decreases s.len() - at,
{
    if at >= 0 && t.len() > 0 && at + t.len() <= s.len() && !stands_text(s, at, t) {
        lemma_found(s, at + 1, t);
    }
}

proof fn lemma_lowered_behind(p: Seq<char>, b: Seq<char>, k: int, t: Seq<char>)
    requires
        0 <= k,
    ensures
        find_lowered(p + b, p.len() + k, t) == moved(find_lowered(b, k, t), p.len() as int),
{
    assert(lowered(p + b) =~= lowered(p) + lowered(b));
    lemma_find_behind(lowered(p), lowered(b), k, t);
}

proof fn lemma_tag_end_behind(p: Seq<char>, b: Seq<char>, k: int, quote: Option<char>)
    requires
        0 <= k,
    ensures
        tag_end(p + b, p.len() + k, quote) == moved(tag_end(b, k, quote), p.len() as int),
    decreases b.len() - k,
{
    if k < b.len() {
        assert((p + b)[p.len() + k] == b[k]);
        let next = match quote {
            Some(q) => if b[k] == q {
                None
            } else {
                quote
            },
            None => if b[k] == '"' || b[k] == '\'' {
                Some(b[k])
            } else {
                None
            },
        };
        lemma_tag_end_behind(p, b, k + 1, next);
    }
}

/// Stripping goes by what stands ahead alone: what stands before a place, and what
/// has been shown before it, does not change what is shown from there on.
#[verifier::spinoff_prover]
#[verifier::rlimit(100)]
proof fn lemma_from_behind(
    w: WikiState,
    p: Seq<char>,
    b: Seq<char>,
    k: int,
    before: Seq<char>,
    out: Seq<char>,
)
    requires
        0 <= k,
    ensures
        ({
            let r = wiki_from(w, b, k, out);
            wiki_from(w, p + b, p.len() + k, before + out) == (r.0, before + r.1)
        }),
    decreases b.len() - k, 1nat,
{
    reveal_strlit("<!--");
    reveal_strlit("{{");
    reveal_strlit("}}");
    reveal_strlit("{|");
    reveal_strlit("|}");
    reveal_strlit("[[");
    let s = p + b;
    let n = p.len() as int;
    let at = n + k;
    let all = before + out;
    assert(forall|c: char| #[trigger] all.push(c) =~= before + out.push(c));
    if k < b.len() {
        assert(s[at] == b[k]);
        if w.in_comment {
            lemma_find_behind(p, b, k, "-->"@);
            if let Some(e) = find_from(b, k, "-->"@) {
                if k <= e && e + 3 <= b.len() {
                    let open = WikiState { in_comment: false, ..w };
                    lemma_from_behind(open, p, b, e + 3, before, out.push(' '));
                }
            }
        } else if w.suppressed is Some {
            let t = end_tag(w.suppressed->0);
            lemma_lowered_behind(p, b, k, t);
            if let Some(start) = find_lowered(b, k, t) {
                lemma_found(lowered(b), k, t);
                lemma_tag_end_behind(p, b, start + 1, None);
                if let Some(e) = tag_end(b, start + 1, None) {
                    if k <= e < b.len() {
                        let open = WikiState { suppressed: None, ..w };
                        lemma_from_behind(open, p, b, e + 1, before, out.push(' '));
                    }
                }
            }
        } else if w.template_depth != 0 {
            lemma_stands_behind(p, b, k, "{{"@);
            lemma_stands_behind(p, b, k, "}}"@);
            let deeper = WikiState { template_depth: bumped(w.template_depth, 1), ..w };
            let higher = WikiState { template_depth: (w.template_depth - 1) as u64, ..w };
            let shown = if w.template_depth == 1 {
                out.push(' ')
            } else {
                out
            };
            lemma_from_behind(w, p, b, k + 1, before, out);
            if k + 2 <= b.len() {
                lemma_from_behind(deeper, p, b, k + 2, before, out);
                lemma_from_behind(higher, p, b, k + 2, before, shown);
            }
        } else if w.table_depth != 0 {
            lemma_stands_behind(p, b, k, "{|"@);
            lemma_stands_behind(p, b, k, "|}"@);
            let deeper = WikiState { table_depth: bumped(w.table_depth, 1), ..w };
            let higher = WikiState { table_depth: (w.table_depth - 1) as u64, ..w };
            let shown = if w.table_depth == 1 {
                out.push(' ')
            } else {
                out
            };
            lemma_from_behind(w, p, b, k + 1, before, out);
            if k + 2 <= b.len() {
                lemma_from_behind(deeper, p, b, k + 2, before, out);
                lemma_from_behind(higher, p, b, k + 2, before, shown);
            }
        } else {
            lemma_stands_behind(p, b, k, "<!--"@);
            lemma_stands_behind(p, b, k, "{{"@);
            lemma_stands_behind(p, b, k, "{|"@);
            lemma_stands_behind(p, b, k, "[["@);
            if stands_text(b, k, "<!--"@) && k + 4 <= b.len() {
                lemma_from_behind(WikiState { in_comment: true, ..w }, p, b, k + 4, before, out);
            } else if stands_text(b, k, "{{"@) && k + 2 <= b.len() {
                lemma_from_behind(WikiState { template_depth: 1, ..w }, p, b, k + 2, before, out);
            } else if stands_text(b, k, "{|"@) && k + 2 <= b.len() {
                lemma_from_behind(WikiState { table_depth: 1, ..w }, p, b, k + 2, before, out);
            } else if stands_text(b, k, "[["@) && k + 2 <= b.len() {
                lemma_link_behind(w, p, b, k, before, out);
            } else if b[k] == '<' {
                lemma_tag_behind(w, p, b, k, before, out);
            } else {
                lemma_from_behind(w, p, b, k + 1, before, out.push(b[k]));
            }
        }
    }
}

/// The same of a place where a link begins.
#[verifier::spinoff_prover]
#[verifier::rlimit(60)]
proof fn lemma_link_behind(
    w: WikiState,
    p: Seq<char>,
    b: Seq<char>,
    k: int,
    before: Seq<char>,
    out: Seq<char>,
)
    requires
        0 <= k,
        k + 2 <= b.len(),
    ensures
        ({
            let s = p + b;
            let at = p.len() + k;
            &&& find_from(s, at + 2, "]]"@) == moved(find_from(b, k + 2, "]]"@), p.len() as int)
            &&& s.skip(at + 2) == b.skip(k + 2)
            &&& find_from(b, k + 2, "]]"@) matches Some(e) ==> k + 2 <= e && e + 2 <= b.len() && {
                let more = out + link_text(b.subrange(k + 2, e));
                let r = wiki_from(w, b, e + 2, more);
                &&& s.subrange(at + 2, e + p.len()) == b.subrange(k + 2, e)
                &&& before + out + link_text(b.subrange(k + 2, e)) == before + more
                &&& wiki_from(w, s, e + p.len() + 2, before + more) == (r.0, before + r.1)
            }
        }),
    decreases b.len() - k, 0nat,
{
    let s = p + b;
    let at = p.len() + k;
    reveal_strlit("]]");
    lemma_find_behind(p, b, k + 2, "]]"@);
    lemma_found(b, k + 2, "]]"@);
    assert(s.skip(at + 2) =~= b.skip(k + 2));
    if let Some(e) = find_from(b, k + 2, "]]"@) {
        let more = out + link_text(b.subrange(k + 2, e));
        assert(s.subrange(at + 2, e + p.len()) =~= b.subrange(k + 2, e));
        assert(before + out + link_text(b.subrange(k + 2, e)) =~= before + more);
        lemma_from_behind(w, p, b, e + 2, before, more);
    }
}

/// The same of a place where a tag begins.
#[verifier::spinoff_prover]
#[verifier::rlimit(60)]
proof fn lemma_tag_behind(
    w: WikiState,
    p: Seq<char>,
    b: Seq<char>,
    k: int,
    before: Seq<char>,
    out: Seq<char>,
)
    requires
        0 <= k < b.len(),
        b[k] == '<',
        !stands_text(b, k, "<!--"@),
        !w.in_comment,
        w.suppressed is None,
        w.template_depth == 0,
        w.table_depth == 0,
        !stands_text(b, k, "{{"@),
        !stands_text(b, k, "{|"@),
        !stands_text(b, k, "[["@),
    ensures
        ({
            let r = wiki_from(w, b, k, out);
            wiki_from(w, p + b, p.len() + k, before + out) == (r.0, before + r.1)
        }),
    decreases b.len() - k, 0nat,
{
    let s = p + b;
    let n = p.len() as int;
    let at = n + k;
    let all = before + out;
    assert(all.push(' ') =~= before + out.push(' '));
    assert(s[at] == b[k]);
    lemma_stands_behind(p, b, k, "<!--"@);
    lemma_stands_behind(p, b, k, "{{"@);
    lemma_stands_behind(p, b, k, "{|"@);
    lemma_stands_behind(p, b, k, "[["@);
    lemma_tag_end_behind(p, b, k + 1, None);
    if let Some(e) = tag_end(b, k + 1, None) {
        if k < e < b.len() {
            assert(s.subrange(at + 1, n + e) =~= b.subrange(k + 1, e));
            let tag = tag_of(b.subrange(k + 1, e));
            if !tag.closing && !tag.self_closing && hidden_tag(tag.name) {
                let t = end_tag(tag.name);
                lemma_lowered_behind(p, b, e + 1, t);
                if let Some(start) = find_lowered(b, e + 1, t) {
                    lemma_found(lowered(b), e + 1, t);
                    lemma_tag_end_behind(p, b, start + 1, None);
                    if let Some(f) = tag_end(b, start + 1, None) {
                        if e < f < b.len() {
                            lemma_from_behind(w, p, b, f + 1, before, out.push(' '));
                        }
                    }
                }
            } else {
                let shown = if parting_tag(tag.name) {
                    out.push(' ')
                } else {
                    out
                };
                lemma_from_behind(w, p, b, e + 1, before, shown);
            }
        }
    }
}

/// Text without any sign that markup begins with.
pub open spec fn plain(s: Seq<char>) -> bool {
    forall|i: int|
        0 <= i < s.len() ==> (#[trigger] s[i]) != '<' && s[i] != '{' && s[i] != '['
}

/// A character does not occur in a text.
pub open spec fn without(s: Seq<char>, c: char) -> bool {
    forall|i: int| 0 <= i < s.len() ==> (#[trigger] s[i]) != c
}

/// A piece of markup behind plain text shows this: of a page that begins with the
/// plain text and the markup, the plain text is shown, then this, and then what is
/// shown of the rest of the page on its own.
pub open spec fn shows(text: Seq<char>, markup: Seq<char>, shown: Seq<char>, rest: Seq<char>) -> bool {
    let (open, seen) = wiki_feed(wiki_start(), rest);
    wiki_feed(wiki_start(), text + markup + rest) == (open, text + shown + seen)
}

proof fn lemma_not_at(s: Seq<char>, at: int, t: Seq<char>, i: int)
    requires
        0 <= i < t.len(),
        0 <= at,
        at + i < s.len() ==> s[at + i] != t[i],
    ensures
        !stands_text(s, at, t),
{
    if at + t.len() <= s.len() {
        assert(s.subrange(at, at + t.len())[i] == s[at + i]);
    }
}

/// Plain text is shown as it is.
proof fn lemma_plain_from(s: Seq<char>, at: int, n: int, out: Seq<char>)
    requires
        0 <= at <= n <= s.len(),
        plain(s.subrange(at, n)),
    ensures
        wiki_from(wiki_start(), s, at, out) == wiki_from(
            wiki_start(),
            s,
            n,
            out + s.subrange(at, n),
        ),
    decreases n - at,
{
    reveal_strlit("<!--");
    reveal_strlit("{{");
    reveal_strlit("{|");
    reveal_strlit("[[");
    if at < n {
        assert(s.subrange(at, n)[0] == s[at]);
        lemma_not_at(s, at, "<!--"@, 0);
        lemma_not_at(s, at, "{{"@, 0);
        lemma_not_at(s, at, "{|"@, 0);
        lemma_not_at(s, at, "[["@, 0);
        assert forall|i: int| 0 <= i < s.subrange(at + 1, n).len() implies (#[trigger] s.subrange(
            at + 1,
            n,
        )[i]) != '<' && s.subrange(at + 1, n)[i] != '{' && s.subrange(at + 1, n)[i] != '[' by {
            assert(s.subrange(at, n)[i + 1] == s.subrange(at + 1, n)[i]);
        }
        lemma_plain_from(s, at + 1, n, out.push(s[at]));
        assert(out.push(s[at]) + s.subrange(at + 1, n) =~= out + s.subrange(at, n));
    } else {
        assert(out + s.subrange(at, n) =~= out);
    }
}

/// What is shown of a page, where it is known what is shown of its markup.
proof fn lemma_shows(text: Seq<char>, markup: Seq<char>, shown: Seq<char>, rest: Seq<char>)
    requires
        plain(text),
        ({
            let s = text + markup + rest;
            wiki_from(wiki_start(), s, text.len() as int, text) == wiki_from(
                wiki_start(),
                s,
                (text + markup).len() as int,
                text + shown,
            )
        }),
    ensures
        shows(text, markup, shown, rest),
{
    let s = text + markup + rest;
    let none = Seq::<char>::empty();
    assert(s.subrange(0, text.len() as int) =~= text);
    lemma_plain_from(s, 0, text.len() as int, none);
    assert(none + text =~= text);
    lemma_from_behind(wiki_start(), text + markup, rest, 0, text + shown, none);
    assert(text + shown + none =~= text + shown);
}

/// Plain text is shown as it is, whatever follows.
pub proof fn law_plain_text_is_shown(text: Seq<char>, rest: Seq<char>)
    requires
        plain(text),
    ensures
        shows(text, Seq::empty(), Seq::empty(), rest),
{
    let none = Seq::<char>::empty();
    assert(text + none =~= text);
    lemma_shows(text, none, none, rest);
}

/// The first of a text is where it stands, and its sign nowhere before.
pub proof fn lemma_find_at(s: Seq<char>, at: int, t: Seq<char>, e: int, i: int)
    requires
        0 <= at <= e,
        0 <= i < t.len(),
        stands_text(s, e, t),
        forall|j: int| at + i <= j < e + i ==> (#[trigger] s[j]) != t[i],
    ensures
        find_from(s, at, t) == Some(e),
    decreases e - at,
{
    if at < e {
        assert(s[at + i] != t[i]);
        lemma_not_at(s, at, t, i);
        lemma_find_at(s, at + 1, t, e, i);
    }
}

proof fn lemma_link_from(s: Seq<char>, at: int, content: Seq<char>, out: Seq<char>)
    requires
        0 <= at,
        without(content, ']'),
        at + content.len() + 4 <= s.len(),
        s.subrange(at, at + content.len() + 4) == seq!['[', '['] + content + seq![']', ']'],
    ensures
        wiki_from(wiki_start(), s, at, out) == wiki_from(
            wiki_start(),
            s,
            at + content.len() + 4,
            out + link_text(content),
        ),
{
    reveal_strlit("<!--");
    reveal_strlit("{{");
    reveal_strlit("{|");
    reveal_strlit("[[");
    reveal_strlit("]]");
    let m = seq!['[', '['] + content + seq![']', ']'];
    let e = at + 2 + content.len();
    assert forall|i: int| 0 <= i < m.len() implies s[at + i] == #[trigger] m[i] by {
        assert(s.subrange(at, at + m.len())[i] == s[at + i]);
    }
    assert(m[0] == '[' && m[1] == '[');
    assert(s[at + 0] == '[' && s[at + 1] == '[');
    lemma_not_at(s, at, "<!--"@, 0);
    lemma_not_at(s, at, "{{"@, 0);
    lemma_not_at(s, at, "{|"@, 0);
    assert(s.subrange(at, at + 2) =~= "[["@);
    assert(s[at + (content.len() + 2)] == m[content.len() as int + 2]);
    assert(s[at + (content.len() + 3)] == m[content.len() as int + 3]);
    assert(s.subrange(e, e + 2) =~= "]]"@);
    assert forall|j: int| at + 2 <= j < e implies (#[trigger] s[j]) != ']' by {
        assert(s[at + (j - at)] == m[j - at]);
        assert(m[j - at] == content[j - at - 2]);
    }
    lemma_find_at(s, at + 2, "]]"@, e, 0);
    assert(s.subrange(at + 2, e) =~= content) by {
        assert forall|i: int| 0 <= i < content.len() implies s.subrange(at + 2, e)[i]
            == content[i] by {
            assert(s[at + (i + 2)] == m[i + 2]);
        }
    }
}

proof fn lemma_link_shows(text: Seq<char>, content: Seq<char>, rest: Seq<char>)
    requires
        plain(text),
        without(content, ']'),
    ensures
        shows(text, seq!['[', '['] + content + seq![']', ']'], link_text(content), rest),
{
    let m = seq!['[', '['] + content + seq![']', ']'];
    let s = text + m + rest;
    assert(s.subrange(text.len() as int, (text.len() + m.len()) as int) =~= m);
    lemma_link_from(s, text.len() as int, content, text);
    lemma_shows(text, m, link_text(content), rest);
}

proof fn lemma_nowhere(s: Seq<char>, c: char)
    requires
        without(s, c),
    ensures
        first_place(s, c) is None,
        last_place(s, c) is None,
    decreases s.len(),
{
    lemma_first_place(s, c, s.len() as int);
    if s.len() > 0 {
        assert(s.last() == s[s.len() - 1]);
        assert forall|i: int| 0 <= i < s.drop_last().len() implies (#[trigger] s.drop_last()[i])
            != c by {
            assert(s.drop_last()[i] == s[i]);
        }
        lemma_nowhere(s.drop_last(), c);
    }
}

proof fn lemma_last_at(a: Seq<char>, c: char, b: Seq<char>)
    requires
        without(b, c),
    ensures
        last_place(a + seq![c] + b, c) == Some(a.len() as int),
    decreases b.len(),
{
    let s = a + seq![c] + b;
    if b.len() == 0 {
        assert(s.last() == c);
    } else {
        assert(s.last() == b[b.len() - 1]);
        assert(s.drop_last() =~= a + seq![c] + b.drop_last());
        assert forall|i: int| 0 <= i < b.drop_last().len() implies (#[trigger] b.drop_last()[i])
            != c by {
            assert(b.drop_last()[i] == b[i]);
        }
        lemma_last_at(a, c, b.drop_last());
    }
}

/// A link without a bar shows its target.
pub proof fn law_link_shows_its_target(text: Seq<char>, target: Seq<char>, rest: Seq<char>)
    requires
        plain(text),
        without(target, ']'),
        without(target, '|'),
        without(target, ':'),
    ensures
        shows(text, seq!['[', '['] + target + seq![']', ']'], target, rest),
{
    lemma_nowhere(target, '|');
    lemma_nowhere(target, ':');
    lemma_link_shows(text, target, rest);
}

/// A link with a bar shows what stands behind its last bar.
pub proof fn law_link_shows_its_label(
    text: Seq<char>,
    target: Seq<char>,
    label: Seq<char>,
    rest: Seq<char>,
)
    requires
        plain(text),
        without(target, ']'),
        without(target, ':'),
        without(label, ']'),
        without(label, '|'),
    ensures
        shows(text, seq!['[', '['] + (target + seq!['|'] + label) + seq![']', ']'], label, rest),
{
    let content = target + seq!['|'] + label;
    lemma_last_at(target, '|', label);
    assert(content.skip(target.len() as int + 1) =~= label);
    assert(without(content, ']')) by {
        assert forall|i: int| 0 <= i < content.len() implies (#[trigger] content[i]) != ']' by {
            if i < target.len() {
                assert(content[i] == target[i]);
            } else if i > target.len() {
                assert(content[i] == label[i - target.len() - 1]);
            }
        }
    }
    let named = up_to(content, '|');
    assert(without(named, ':')) by {
        lemma_up_to(content, '|', target.len() as int);
        assert forall|i: int| 0 <= i < named.len() implies (#[trigger] named[i]) != ':' by {
            assert(named[i] == target[i]);
        }
    }
    lemma_nowhere(named, ':');
    lemma_link_shows(text, content, rest);
}

proof fn lemma_up_to(s: Seq<char>, c: char, k: int)
    requires
        0 <= k < s.len(),
        s[k] == c,
    ensures
        up_to(s, c).len() <= k,
        forall|i: int| 0 <= i < up_to(s, c).len() ==> #[trigger] up_to(s, c)[i] == s[i],
    decreases s.len(),
{
    if s[0] != c {
        lemma_up_to(s.skip(1), c, k - 1);
        assert(first_place(s.skip(1), c) is Some) by {
            lemma_somewhere(s.skip(1), c, k - 1);
        }
    }
    lemma_somewhere(s, c, k);
}

proof fn lemma_somewhere(s: Seq<char>, c: char, k: int)
    requires
        0 <= k < s.len(),
        s[k] == c,
    ensures
        first_place(s, c) matches Some(i) && 0 <= i <= k,
    decreases s.len(),
{
    if s[0] != c {
        assert(s.skip(1)[k - 1] == c);
        lemma_somewhere(s.skip(1), c, k - 1);
    }
}

/// The names of links that are left out, in lower case.
pub open spec fn left_out(name: Seq<char>) -> bool {
    name == "file"@ || name == "image"@ || name == "category"@ || name == "文件"@ || name
        == "图像"@ || name == "分类"@
}

/// A link to a file, an image or a category shows a blank; any other link with a
/// colon shows itself, or what stands behind its last bar.
pub proof fn law_links_to_files_are_left_out(
    text: Seq<char>,
    name: Seq<char>,
    target: Seq<char>,
    rest: Seq<char>,
)
    requires
        plain(text),
        without(name, ']'),
        without(name, '|'),
        without(name, ':'),
        without(target, ']'),
    ensures
        left_out(lowered(trimmed(name))) ==> shows(
            text,
            seq!['[', '['] + (name + seq![':'] + target) + seq![']', ']'],
            seq![' '],
            rest,
        ),
        !left_out(lowered(trimmed(name))) && without(target, '|') ==> shows(
            text,
            seq!['[', '['] + (name + seq![':'] + target) + seq![']', ']'],
            name + seq![':'] + target,
            rest,
        ),
{
    let content = name + seq![':'] + target;
    let n = name.len() as int;
    assert(without(content, ']')) by {
        assert forall|i: int| 0 <= i < content.len() implies (#[trigger] content[i]) != ']' by {
            if i < n {
                assert(content[i] == name[i]);
            } else if i > n {
                assert(content[i] == target[i - n - 1]);
            }
        }
    }
    let named = up_to(content, '|');
    assert(named.len() > n && named.take(n) == name && named[n] == ':') by {
        if exists|k: int| 0 <= k < content.len() && content[k] == '|' {
            lemma_first_bar(content, n);
        } else {
            lemma_nowhere(content, '|');
        }
        assert(named.take(n) =~= name) by {
            assert forall|i: int| 0 <= i < n implies named[i] == name[i] by {
                assert(content[i] == name[i]);
            }
        }
    }
    assert forall|k: int| 0 <= k < n implies named[k] != ':' by {
        assert(named.take(n)[k] == name[k]);
    }
    lemma_first_place(named, ':', n);
    assert(up_to(named, ':') == name);
    if without(target, '|') {
        assert(without(content, '|')) by {
            assert forall|i: int| 0 <= i < content.len() implies (#[trigger] content[i]) != '|' by {
                if i < n {
                    assert(content[i] == name[i]);
                } else if i > n {
                    assert(content[i] == target[i - n - 1]);
                }
            }
        }
        lemma_nowhere(content, '|');
    }
    lemma_link_shows(text, content, rest);
}

/// The first bar of a text that has none in its beginning.
proof fn lemma_first_bar(s: Seq<char>, n: int)
    requires
        0 <= n < s.len(),
        s[n] == ':',
        forall|k: int| 0 <= k < n ==> (#[trigger] s[k]) != '|',
        exists|k: int| 0 <= k < s.len() && s[k] == '|',
    ensures
        up_to(s, '|').len() > n,
        forall|i: int| 0 <= i < up_to(s, '|').len() ==> #[trigger] up_to(s, '|')[i] == s[i],
    decreases s.len(),
{
    let k = choose|k: int| 0 <= k < s.len() && s[k] == '|';
    lemma_up_to(s, '|', k);
    lemma_somewhere(s, '|', k);
    lemma_place_of(s, '|');
}

proof fn lemma_place_of(s: Seq<char>, c: char)
    ensures
        first_place(s, c) matches Some(i) ==> 0 <= i < s.len() && s[i] == c,
    decreases s.len(),
{
    if s.len() > 0 && s[0] != c {
        lemma_place_of(s.skip(1), c);
    }
}

/// A link that is not closed in a piece goes on in the next one.
pub proof fn law_link_goes_on_in_the_next_piece(
    text: Seq<char>,
    first: Seq<char>,
    second: Seq<char>,
    rest: Seq<char>,
)
    requires
        plain(text),
        without(first, ']'),
        without(first + second, ']'),
        without(first + second, '|'),
        without(first + second, ':'),
    ensures
        ({
            let (open, shown) = wiki_feed(wiki_start(), text + seq!['[', '['] + first);
            let (last, seen) = wiki_feed(open, second + seq![']', ']'] + rest);
            let (end, others) = wiki_feed(wiki_start(), rest);
            &&& shown == text
            &&& last == end
            &&& seen == first + second + others
        }),
{
    reveal_strlit("<!--");
    reveal_strlit("{{");
    reveal_strlit("{|");
    reveal_strlit("[[");
    reveal_strlit("]]");
    let none = Seq::<char>::empty();
    let s = text + seq!['[', '['] + first;
    let n = text.len() as int;
    assert(s.subrange(0, n) =~= text);
    lemma_plain_from(s, 0, n, none);
    assert(none + text =~= text);
    assert(s[n] == '[');
    lemma_not_at(s, n, "<!--"@, 0);
    lemma_not_at(s, n, "{{"@, 0);
    lemma_not_at(s, n, "{|"@, 0);
    assert(s.subrange(n, n + 2) =~= "[["@);
    assert forall|j: int| n + 2 <= j < s.len() implies (#[trigger] s[j]) != ']' by {
        assert(s[j] == first[j - n - 2]);
    }
    lemma_not_found(s, n + 2);
    assert(s.skip(n + 2) =~= first);
    let open = WikiState { link: Some(first), ..wiki_start() };
    assert(wiki_feed(wiki_start(), s) == (open, text));
    let t = second + seq![']', ']'] + rest;
    let m = second.len() as int;
    assert(t.subrange(m, m + 2) =~= "]]"@);
    assert forall|j: int| 0 <= j < m implies (#[trigger] t[j]) != ']' by {
        assert(t[j] == second[j]);
        assert((first + second)[first.len() + j] == second[j]);
    }
    lemma_find_at(t, 0, "]]"@, m, 0);
    assert(t.take(m) =~= second);
    lemma_nowhere(first + second, '|');
    lemma_nowhere(first + second, ':');
    let p = second + seq![']', ']'];
    lemma_from_behind(wiki_start(), p, rest, 0, first + second, none);
    assert(first + second + none =~= first + second);
    assert(WikiState { link: None, ..open } == wiki_start());
}

proof fn lemma_not_found(s: Seq<char>, at: int)
    requires
        0 <= at <= s.len(),
        forall|j: int| at <= j < s.len() ==> (#[trigger] s[j]) != ']',
    ensures
        find_from(s, at, "]]"@) is None,
    decreases s.len() - at,
{
    reveal_strlit("]]");
    if at + 2 <= s.len() {
        lemma_not_at(s, at, "]]"@, 0);
        lemma_not_found(s, at + 1);
    }
}

/// A comment shows a blank.
pub proof fn law_comments_are_left_out(text: Seq<char>, comment: Seq<char>, rest: Seq<char>)
    requires
        plain(text),
        without(comment, '>'),
    ensures
        shows(text, seq!['<', '!', '-', '-'] + comment + seq!['-', '-', '>'], seq![' '], rest),
{
    reveal_strlit("<!--");
    reveal_strlit("-->");
    let m = seq!['<', '!', '-', '-'] + comment + seq!['-', '-', '>'];
    let s = text + m + rest;
    let n = text.len() as int;
    let e = n + 4 + comment.len();
    assert(s.subrange(n, n + 4) =~= "<!--"@);
    assert(s.subrange(e, e + 3) =~= "-->"@);
    assert forall|j: int| n + 4 + 2 <= j < e + 2 implies (#[trigger] s[j]) != '>' by {
        if j < e {
            assert(s[j] == comment[j - n - 4]);
        }
    }
    lemma_find_at(s, n + 4, "-->"@, e, 2);
    assert(text.push(' ') =~= text + seq![' ']);
    let inside = WikiState { in_comment: true, ..wiki_start() };
    assert(WikiState { in_comment: false, ..inside } == wiki_start());
    assert(wiki_from(wiki_start(), s, n, text) == wiki_from(inside, s, n + 4, text));
    assert(wiki_from(inside, s, n + 4, text) == wiki_from(
        wiki_start(),
        s,
        e + 3,
        text.push(' '),
    ));
    lemma_shows(text, m, seq![' '], rest);
}

/// Inside a template nothing is shown.
proof fn lemma_in_template(w: WikiState, s: Seq<char>, at: int, n: int, out: Seq<char>)
    requires
        !w.in_comment,
        w.suppressed is None,
        w.template_depth != 0,
        0 <= at <= n <= s.len(),
        forall|j: int| at <= j < n ==> (#[trigger] s[j]) != '{' && s[j] != '}',
    ensures
        wiki_from(w, s, at, out) == wiki_from(w, s, n, out),
    decreases n - at,
{
    reveal_strlit("{{");
    reveal_strlit("}}");
    if at < n {
        assert(s[at] != '{');
        lemma_not_at(s, at, "{{"@, 0);
        lemma_not_at(s, at, "}}"@, 0);
        lemma_in_template(w, s, at + 1, n, out);
    }
}

/// A template shows a blank, and so does one with another inside it.
pub proof fn law_templates_are_left_out(
    text: Seq<char>,
    a: Seq<char>,
    b: Seq<char>,
    c: Seq<char>,
    rest: Seq<char>,
)
    requires
        plain(text),
        without(a, '{') && without(a, '}'),
        without(b, '{') && without(b, '}'),
        without(c, '{') && without(c, '}'),
    ensures
        shows(text, seq!['{', '{'] + a + seq!['}', '}'], seq![' '], rest),
        shows(
            text,
            seq!['{', '{'] + a + seq!['{', '{'] + b + seq!['}', '}'] + c + seq!['}', '}'],
            seq![' '],
            rest,
        ),
{
    reveal_strlit("<!--");
    reveal_strlit("{{");
    reveal_strlit("}}");
    let n = text.len() as int;
    let one = WikiState { template_depth: 1, ..wiki_start() };
    let two = WikiState { template_depth: 2, ..wiki_start() };
    assert(text.push(' ') =~= text + seq![' ']);
    assert(WikiState { template_depth: (one.template_depth - 1) as u64, ..one } == wiki_start());
    {
        let m = seq!['{', '{'] + a + seq!['}', '}'];
        let s = text + m + rest;
        let e = n + 2 + a.len();
        lemma_not_at(s, n, "<!--"@, 0);
        assert(s.subrange(n, n + 2) =~= "{{"@);
        assert forall|j: int| n + 2 <= j < e implies (#[trigger] s[j]) != '{' && s[j] != '}' by {
            assert(s[j] == a[j - n - 2]);
        }
        lemma_in_template(one, s, n + 2, e, text);
        assert(s[e] == '}');
        lemma_not_at(s, e, "{{"@, 0);
        assert(s.subrange(e, e + 2) =~= "}}"@);
        lemma_shows(text, m, seq![' '], rest);
    }
    let m = seq!['{', '{'] + a + seq!['{', '{'] + b + seq!['}', '}'] + c + seq!['}', '}'];
    let s = text + m + rest;
    let i = n + 2 + a.len();
    let j = i + 2 + b.len();
    let k = j + 2 + c.len();
    lemma_not_at(s, n, "<!--"@, 0);
    assert(s.subrange(n, n + 2) =~= "{{"@);
    assert forall|x: int| n + 2 <= x < i implies (#[trigger] s[x]) != '{' && s[x] != '}' by {
        assert(s[x] == a[x - n - 2]);
    }
    lemma_in_template(one, s, n + 2, i, text);
    assert(s.subrange(i, i + 2) =~= "{{"@);
    assert(wiki_from(one, s, i, text) == wiki_from(two, s, i + 2, text));
    assert forall|x: int| i + 2 <= x < j implies (#[trigger] s[x]) != '{' && s[x] != '}' by {
        assert(s[x] == b[x - i - 2]);
    }
    lemma_in_template(two, s, i + 2, j, text);
    assert(s[j] == '}');
    lemma_not_at(s, j, "{{"@, 0);
    assert(s.subrange(j, j + 2) =~= "}}"@);
    assert(wiki_from(two, s, j, text) == wiki_from(one, s, j + 2, text));
    assert forall|x: int| j + 2 <= x < k implies (#[trigger] s[x]) != '{' && s[x] != '}' by {
        assert(s[x] == c[x - j - 2]);
    }
    lemma_in_template(one, s, j + 2, k, text);
    assert(s[k] == '}');
    lemma_not_at(s, k, "{{"@, 0);
    assert(s.subrange(k, k + 2) =~= "}}"@);
    assert(wiki_from(one, s, k, text) == wiki_from(wiki_start(), s, k + 2, text.push(' ')));
    lemma_shows(text, m, seq![' '], rest);
}

/// Inside a table nothing is shown.
proof fn lemma_in_table(w: WikiState, s: Seq<char>, at: int, n: int, out: Seq<char>)
    requires
        !w.in_comment,
        w.suppressed is None,
        w.template_depth == 0,
        w.table_depth != 0,
        0 <= at <= n < s.len(),
        s[n] != '}',
        forall|j: int| at <= j < n ==> (#[trigger] s[j]) != '{' && s[j] != '}',
    ensures
        wiki_from(w, s, at, out) == wiki_from(w, s, n, out),
    decreases n - at,
{
    reveal_strlit("{|");
    reveal_strlit("|}");
    if at < n {
        assert(s[at] != '{');
        if at + 1 < n {
            assert(s[at + 1] != '}');
        }
        lemma_not_at(s, at, "{|"@, 0);
        lemma_not_at(s, at, "|}"@, 1);
        lemma_in_table(w, s, at + 1, n, out);
    }
}

/// A table shows a blank.
pub proof fn law_tables_are_left_out(text: Seq<char>, table: Seq<char>, rest: Seq<char>)
    requires
        plain(text),
        without(table, '{'),
        without(table, '}'),
    ensures
        shows(text, seq!['{', '|'] + table + seq!['|', '}'], seq![' '], rest),
{
    reveal_strlit("<!--");
    reveal_strlit("{{");
    reveal_strlit("{|");
    reveal_strlit("|}");
    let m = seq!['{', '|'] + table + seq!['|', '}'];
    let s = text + m + rest;
    let n = text.len() as int;
    let e = n + 2 + table.len();
    let one = WikiState { table_depth: 1, ..wiki_start() };
    assert(text.push(' ') =~= text + seq![' ']);
    assert(WikiState { table_depth: (one.table_depth - 1) as u64, ..one } == wiki_start());
    lemma_not_at(s, n, "<!--"@, 0);
    assert(s[n + 1] == '|');
    lemma_not_at(s, n, "{{"@, 1);
    assert(s.subrange(n, n + 2) =~= "{|"@);
    assert forall|j: int| n + 2 <= j < e implies (#[trigger] s[j]) != '{' && s[j] != '}' by {
        assert(s[j] == table[j - n - 2]);
    }
    assert(s[e] == '|');
    lemma_in_table(one, s, n + 2, e, text);
    lemma_not_at(s, e, "{|"@, 0);
    assert(s.subrange(e, e + 2) =~= "|}"@);
    lemma_shows(text, m, seq![' '], rest);
}

/// The name of a tag: letters and digits.
pub open spec fn tag_name(name: Seq<char>) -> bool {
    name.len() > 0 && forall|i: int|
        0 <= i < name.len() ==> letter(#[trigger] name[i]) || digit(name[i])
}

/// What stands between the angle brackets of a tag.
pub open spec fn tag_written(closing: bool, name: Seq<char>) -> Seq<char> {
    if closing {
        seq!['/'] + name
    } else {
        name
    }
}

proof fn lemma_name_part(name: Seq<char>)
    requires
        forall|i: int| 0 <= i < name.len() ==> letter(#[trigger] name[i]) || digit(name[i]),
    ensures
        name_part(name) == name,
    decreases name.len(),
{
    if name.len() > 0 {
        assert(letter(name[0]) || digit(name[0]));
        let rest = name.skip(1);
        assert forall|i: int| 0 <= i < rest.len() implies letter(#[trigger] rest[i]) || digit(
            rest[i],
        ) by {
            assert(rest[i] == name[i + 1]);
        }
        lemma_name_part(rest);
        assert(seq![name[0]] + rest =~= name);
    } else {
        assert(name =~= Seq::empty());
    }
}

/// What a plain tag says.
pub proof fn lemma_plain_tag(closing: bool, name: Seq<char>)
    requires
        tag_name(name),
    ensures
        tag_of(tag_written(closing, name)) == (Tag {
            closing,
            name: lowered(name),
            self_closing: false,
        }),
{
    let t = tag_written(closing, name);
    assert(letter(name[0]) || digit(name[0]));
    let last = name[name.len() - 1];
    assert(letter(last) || digit(last));
    assert(t.last() == last);
    assert(!white(t[0]) && !white(t.last()));
    assert(trimmed_start(t) == t);
    assert(trimmed(t) == t);
    if closing {
        assert(t.skip(1) =~= name);
        assert(without_slashes(name) == name);
    }
    assert(without_slashes(t) == name);
    lemma_name_part(name);
}

/// A tag ends at the first angle bracket, where it has no quotes.
pub proof fn lemma_tag_ends(s: Seq<char>, at: int, e: int)
    requires
        0 <= at <= e < s.len(),
        s[e] == '>',
        forall|i: int|
            at <= i < e ==> (#[trigger] s[i]) != '>' && s[i] != '"' && s[i] != '\'',
    ensures
        tag_end(s, at, None) == Some(e),
    decreases e - at,
{
    if at < e {
        assert(s[at] != '>');
        lemma_tag_ends(s, at + 1, e);
    }
}

/// A tag that stands at a place is found.
proof fn lemma_tag_at(s: Seq<char>, at: int, closing: bool, name: Seq<char>)
    requires
        0 <= at,
        tag_name(name),
        at + tag_written(closing, name).len() + 2 <= s.len(),
        s.subrange(at, at + tag_written(closing, name).len() + 2) == seq!['<'] + tag_written(
            closing,
            name,
        ) + seq!['>'],
    ensures
        s[at] == '<',
        s[at + 1] != '!',
        tag_end(s, at + 1, None) == Some(at + 1 + tag_written(closing, name).len() as int),
        s.subrange(at + 1, at + 1 + tag_written(closing, name).len()) == tag_written(closing, name),
{
    let inner = tag_written(closing, name);
    let m = seq!['<'] + inner + seq!['>'];
    let e = at + 1 + inner.len();
    assert forall|i: int| 0 <= i < m.len() implies s[at + i] == #[trigger] m[i] by {
        assert(s.subrange(at, at + m.len())[i] == s[at + i]);
    }
    assert(m[0] == '<' && m[inner.len() as int + 1] == '>');
    assert(s[at + 0] == '<');
    assert(s[at + (inner.len() + 1)] == '>');
    assert forall|i: int| 0 <= i < inner.len() implies (#[trigger] inner[i]) != '>' && inner[i]
        != '"' && inner[i] != '\'' && inner[i] != '!' by {
        if closing {
            if i > 0 {
                assert(inner[i] == name[i - 1]);
            }
        } else {
            assert(inner[i] == name[i]);
        }
    }
    assert forall|i: int| at + 1 <= i < e implies (#[trigger] s[i]) != '>' && s[i] != '"' && s[i]
        != '\'' by {
        assert(s[at + (i - at)] == m[i - at]);
        assert(m[i - at] == inner[i - at - 1]);
    }
    assert(s[at + 1] == m[1] && m[1] == inner[0]);
    lemma_tag_ends(s, at + 1, e);
    assert(s.subrange(at + 1, e) =~= inner) by {
        assert forall|i: int| 0 <= i < inner.len() implies s.subrange(at + 1, e)[i] == inner[i] by {
            assert(s[at + (i + 1)] == m[i + 1]);
        }
    }
}

/// The names of tags that part texts, in lower case.
pub open spec fn parts_texts(name: Seq<char>) -> bool {
    name == "br"@ || name == "p"@ || name == "div"@ || name == "li"@ || name == "tr"@ || name
        == "td"@ || name == "th"@ || name == "h1"@ || name == "h2"@ || name == "h3"@ || name
        == "h4"@ || name == "h5"@ || name == "h6"@
}

/// The names of tags whose content is left out, in lower case.
pub open spec fn hides_content(name: Seq<char>) -> bool {
    name == "ref"@ || name == "gallery"@ || name == "imagemap"@
}

/// A tag shows nothing, so that what stands on both sides of it is joined; but a blank
/// where it parts texts, as a line break or a paragraph does.
pub proof fn law_tags_show_nothing_or_a_blank(
    text: Seq<char>,
    closing: bool,
    name: Seq<char>,
    rest: Seq<char>,
)
    requires
        plain(text),
        tag_name(name),
        closing || !hides_content(lowered(name)),
    ensures
        shows(
            text,
            seq!['<'] + tag_written(closing, name) + seq!['>'],
            if parts_texts(lowered(name)) {
                seq![' ']
            } else {
                Seq::empty()
            },
            rest,
        ),
{
    let inner = tag_written(closing, name);
    let m = seq!['<'] + inner + seq!['>'];
    let s = text + m + rest;
    let n = text.len() as int;
    reveal_strlit("<!--");
    reveal_strlit("{{");
    reveal_strlit("{|");
    reveal_strlit("[[");
    assert(s.subrange(n, n + m.len()) =~= m);
    lemma_tag_at(s, n, closing, name);
    lemma_plain_tag(closing, name);
    lemma_not_at(s, n, "<!--"@, 1);
    lemma_not_at(s, n, "{{"@, 0);
    lemma_not_at(s, n, "{|"@, 0);
    lemma_not_at(s, n, "[["@, 0);
    let shown = if parts_texts(lowered(name)) {
        seq![' ']
    } else {
        Seq::<char>::empty()
    };
    assert(text.push(' ') =~= text + seq![' ']);
    assert(text + Seq::<char>::empty() =~= text);
    assert(wiki_from(wiki_start(), s, n, text) == wiki_from(
        wiki_start(),
        s,
        n + m.len(),
        text + shown,
    ));
    lemma_shows(text, m, shown, rest);
}

/// What a reference, a gallery or a map of an image holds is left out, up to the tag that
/// closes it, in whatever case it is written.
#[verifier::rlimit(40)]
pub proof fn law_references_are_left_out(
    text: Seq<char>,
    name: Seq<char>,
    content: Seq<char>,
    again: Seq<char>,
    rest: Seq<char>,
)
    requires
        plain(text),
        tag_name(name),
        tag_name(again),
        hides_content(lowered(name)),
        lowered(again) == lowered(name),
        without(content, '<'),
    ensures
        shows(
            text,
            seq!['<'] + name + seq!['>'] + content + seq!['<', '/'] + again + seq!['>'],
            seq![' '],
            rest,
        ),
{
    reveal_strlit("<!--");
    reveal_strlit("{{");
    reveal_strlit("{|");
    reveal_strlit("[[");
    reveal_strlit("</");
    let open = seq!['<'] + name + seq!['>'];
    let close = seq!['<', '/'] + again + seq!['>'];
    let m = seq!['<'] + name + seq!['>'] + content + seq!['<', '/'] + again + seq!['>'];
    let s = text + m + rest;
    let n = text.len() as int;
    let e = n + 1 + name.len();
    let c = e + 1 + content.len();
    assert(s.subrange(n, n + open.len()) =~= open);
    assert(tag_written(false, name) == name);
    lemma_tag_at(s, n, false, name);
    lemma_plain_tag(false, name);
    lemma_not_at(s, n, "<!--"@, 1);
    lemma_not_at(s, n, "{{"@, 0);
    lemma_not_at(s, n, "{|"@, 0);
    lemma_not_at(s, n, "[["@, 0);
    let inner = tag_written(true, again);
    assert(seq!['<'] + inner + seq!['>'] =~= close);
    assert(s.subrange(c, c + close.len()) =~= close);
    lemma_tag_at(s, c, true, again);
    let t = end_tag(lowered(name));
    assert(t[0] == '<');
    let low = lowered(s);
    assert(low.subrange(c, c + t.len()) =~= t) by {
        assert forall|i: int| 0 <= i < t.len() implies low.subrange(c, c + t.len())[i] == t[i] by {
            assert(s.subrange(c, c + close.len())[i] == s[c + i]);
            if i >= 2 {
                assert(close[i] == again[i - 2]);
                assert(lowered(again)[i - 2] == lowered(name)[i - 2]);
            }
        }
    }
    assert forall|j: int| e + 1 <= j < c implies (#[trigger] low[j]) != '<' by {
        assert(s[j] == content[j - e - 1]);
    }
    lemma_find_at(low, e + 1, t, c, 0);
    let f = c + 1 + inner.len();
    assert(text.push(' ') =~= text + seq![' ']);
    assert(wiki_from(wiki_start(), s, n, text) == wiki_from(
        wiki_start(),
        s,
        f + 1,
        text.push(' '),
    ));
    assert(f + 1 == n + m.len());
    lemma_shows(text, m, seq![' '], rest);
}

} // verus!


