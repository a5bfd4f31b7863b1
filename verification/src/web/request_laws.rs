//! How what comes from outside is read: the arguments of a command, and the
//! first line of a request.
use crate::chinese::source_laws::{lemma_split_join, lemma_split_plain};
use crate::corpus::json::stands_text;
use crate::text::{lemma_first_place, split_on, white};
use crate::web::http::{
    all_words, chunk_of, hex_bytes_of, route_of, served_version, target_route, words_of, Page,
    RouteView,
};
use crate::web::laws::law_plain_url_stands_for_itself;
use crate::web::options::{
    no_options, option_parts, options_from, text_of, value_of, OptionsView, ValueView,
};
use crate::web::url::{hex_byte, parameters_of, query_parameters, value_named, Parameter};
use vstd::prelude::*;
use vstd::string::*;
use vstd::utf8::encode_utf8;

verus! {

/// The number that hexadecimal digits write.
pub open spec fn hex_number(s: Seq<u8>) -> Option<nat>
    decreases s.len(),
{
    if s.len() == 0 {
        Some(0)
    } else {
        match (hex_number(s.drop_last()), hex_byte(s.last())) {
            (Some(high), Some(low)) => Some((high * 16 + low) as nat),
            _ => None,
        }
    }
}

proof fn lemma_hex_number(n: nat)
    ensures
        hex_number(hex_bytes_of(n)) == Some(n),
        hex_bytes_of(n).len() > 0,
    decreases n,
{
    let s = hex_bytes_of(n);
    if n < 16 {
        assert(s.drop_last() =~= Seq::empty());
        assert(hex_number(s.drop_last()) == Some(0nat));
    } else {
        lemma_hex_number(n / 16);
        assert(s.drop_last() =~= hex_bytes_of(n / 16));
    }
}

/// A bit of an answer begins with its length, in hexadecimal digits on a line of their
/// own, and then holds the body, which a line end closes.
pub proof fn law_chunk_tells_its_length(body: Seq<u8>)
    ensures
        exists|digits: Seq<u8>|
            digits.len() > 0 && #[trigger] hex_number(digits) == Some(body.len()) && chunk_of(body)
                == digits + seq![13u8, 10u8] + body + seq![13u8, 10u8],
{
    lemma_hex_number(body.len());
}

/// A word: no white space stands in it.
pub open spec fn one_word(s: Seq<char>) -> bool {
    s.len() > 0 && forall|i: int| 0 <= i < s.len() ==> !white(#[trigger] s[i])
}

proof fn lemma_word(s: Seq<char>, at: nat, word: Seq<char>, k: nat, ended: Seq<Seq<char>>)
    requires
        k <= word.len(),
        at + word.len() <= s.len(),
        one_word(word),
        words_of(s, at) == (ended, Seq::<char>::empty()),
        s.subrange(at as int, (at + word.len()) as int) == word,
    ensures
        words_of(s, at + k) == (ended, word.take(k as int)),
    decreases k,
{
    if k > 0 {
        lemma_word(s, at, word, (k - 1) as nat, ended);
        assert(s[at + k - 1] == s.subrange(at as int, (at + word.len()) as int)[k - 1]);
        assert(!white(word[k - 1]));
        assert(word.take(k - 1).push(word[k - 1]) =~= word.take(k as int));
    } else {
        assert(word.take(0) =~= Seq::empty());
    }
}

proof fn lemma_word_ended(s: Seq<char>, at: nat, word: Seq<char>, ended: Seq<Seq<char>>)
    requires
        at + word.len() < s.len(),
        one_word(word),
        words_of(s, at) == (ended, Seq::<char>::empty()),
        s.subrange(at as int, (at + word.len()) as int) == word,
        white(s[(at + word.len()) as int]),
    ensures
        words_of(s, at + word.len() + 1) == (ended.push(word), Seq::<char>::empty()),
{
    lemma_word(s, at, word, word.len(), ended);
    assert(word.take(word.len() as int) =~= word);
}

/// The first line of a request.
pub open spec fn request_line(method: Seq<char>, target: Seq<char>, version: Seq<char>) -> Seq<char> {
    method + seq![' '] + target + seq![' '] + version + seq!['\r']
}

proof fn lemma_three_words(method: Seq<char>, target: Seq<char>, version: Seq<char>)
    requires
        one_word(method),
        one_word(target),
        one_word(version),
    ensures
        all_words(request_line(method, target, version)) == seq![method, target, version],
{
    let s = request_line(method, target, version);
    let none = Seq::<Seq<char>>::empty();
    assert(white(' ') && white('\r'));
    assert(words_of(s, 0) == (none, Seq::<char>::empty()));
    let a = method.len() + 1;
    assert(s.subrange(0, method.len() as int) =~= method);
    assert(s[method.len() as int] == ' ');
    lemma_word_ended(s, 0, method, none);
    let b = a + target.len() + 1;
    assert(s.subrange(a as int, (a + target.len()) as int) =~= target);
    assert(s[(a + target.len()) as int] == ' ');
    lemma_word_ended(s, a, target, none.push(method));
    assert(s.subrange(b as int, (b + version.len()) as int) =~= version);
    assert(s[(b + version.len()) as int] == '\r');
    lemma_word_ended(s, b, version, none.push(method).push(target));
    assert(s.len() == b + version.len() + 1);
    assert(none.push(method).push(target).push(version) =~= seq![method, target, version]);
}

/// A request is served by its target, if its method is one of two and its version is of
/// the first kind; with the one method in full, with the other without a body.
pub proof fn law_request_is_served_by_its_target(
    method: Seq<char>,
    target: Seq<char>,
    minor: Seq<char>,
    rest: Seq<char>,
)
    requires
        one_word(method),
        one_word(target),
        one_word("HTTP/1."@ + minor),
    ensures
        route_of(request_line(method, target, "HTTP/1."@ + minor) + seq!['\n'] + rest) == (
            method == "HEAD"@,
            if method == "GET"@ || method == "HEAD"@ {
                target_route(target)
            } else {
                RouteView::Refused
            },
        ),
{
    let version = "HTTP/1."@ + minor;
    let line = request_line(method, target, version);
    let s = line + seq!['\n'] + rest;
    let n = line.len() as int;
    assert(white('\n'));
    assert forall|k: int| 0 <= k < n implies s[k] != '\n' by {
        assert(s[k] == line[k]);
        let a = method.len() as int;
        let b = a + 1 + target.len();
        if k < a {
            assert(line[k] == method[k]);
        } else if a < k < b {
            assert(line[k] == target[k - a - 1]);
        } else if b < k < n - 1 {
            assert(line[k] == version[k - b - 1]);
        }
    }
    lemma_first_place(s, '\n', n);
    assert(s.take(n) =~= line);
    lemma_three_words(method, target, version);
    reveal_strlit("HTTP/1.");
    assert(version.take(7) =~= "HTTP/1."@);
}

/// Another version is refused.
pub proof fn law_other_versions_are_refused(
    method: Seq<char>,
    target: Seq<char>,
    version: Seq<char>,
)
    requires
        one_word(method),
        one_word(target),
        one_word(version),
        forall|minor: Seq<char>| version != #[trigger] ("HTTP/1."@ + minor),
    ensures
        route_of(request_line(method, target, version) + seq!['\n']).1 == RouteView::Refused,
{
    let line = request_line(method, target, version);
    let s = line + seq!['\n'];
    let n = line.len() as int;
    assert(white('\n'));
    assert forall|k: int| 0 <= k < n implies s[k] != '\n' by {
        assert(s[k] == line[k]);
        let a = method.len() as int;
        let b = a + 1 + target.len();
        if k < a {
            assert(line[k] == method[k]);
        } else if a < k < b {
            assert(line[k] == target[k - a - 1]);
        } else if b < k < n - 1 {
            assert(line[k] == version[k - b - 1]);
        }
    }
    lemma_first_place(s, '\n', n);
    assert(s.take(n) =~= line);
    lemma_three_words(method, target, version);
    reveal_strlit("HTTP/1.");
    if served_version(version) {
        assert("HTTP/1."@ + version.skip(7) =~= version);
    }
}

/// No question mark stands in a text.
pub open spec fn no_question(s: Seq<char>) -> bool {
    forall|i: int| 0 <= i < s.len() ==> (#[trigger] s[i]) != '?'
}

proof fn lemma_target(path: Seq<char>, query: Seq<char>)
    requires
        no_question(path),
    ensures
        target_route(path + seq!['?'] + query) == (if path == "/api/search/stream"@ {
            RouteView::Stream(query)
        } else if path == "/api/search"@ {
            RouteView::Search(query)
        } else {
            target_route(path)
        }),
{
    let target = path + seq!['?'] + query;
    let n = path.len() as int;
    assert(forall|k: int| 0 <= k < n ==> target[k] == path[k]);
    lemma_first_place(target, '?', n);
    lemma_first_place(path, '?', n);
    assert(target.take(n) =~= path);
    assert(target.skip(n + 1) =~= query);
}

/// A search is asked for at one path, and a search that is answered bit by bit at
/// another: the query is what stands behind the question mark.
pub proof fn law_searches_are_asked_for_by_query(query: Seq<char>)
    ensures
        target_route("/api/search?"@ + query) == RouteView::Search(query),
        target_route("/api/search/stream?"@ + query) == RouteView::Stream(query),
{
    reveal_strlit("/api/search?");
    reveal_strlit("/api/search/stream?");
    reveal_strlit("/api/search");
    reveal_strlit("/api/search/stream");
    assert("/api/search"@ + seq!['?'] =~= "/api/search?"@);
    assert("/api/search/stream"@ + seq!['?'] =~= "/api/search/stream?"@);
    assert(no_question("/api/search"@));
    assert(no_question("/api/search/stream"@));
    assert("/api/search"@.len() != "/api/search/stream"@.len());
    lemma_target("/api/search"@, query);
    lemma_target("/api/search/stream"@, query);
}

/// Where a page is served.
pub open spec fn serves(path: Seq<char>, page: Page) -> bool {
    match page {
        Page::Home => path == "/"@ || path == "/index.html"@,
        Page::Usage => path == "/usage.html"@,
        Page::Style => path == "/style.css"@,
        Page::Script => path == "/app.js"@,
        Page::Robots => path == "/robots.txt"@,
        Page::Icon => path == "/favicon.ico"@,
        Page::Picture => path == "/nutritea-small.jpg"@,
    }
}

/// A page is served at its own paths, whatever query stands behind them, and at no
/// others.
pub proof fn law_pages_are_served_at_their_paths(path: Seq<char>, page: Page, query: Seq<char>)
    requires
        no_question(path),
    ensures
        serves(path, page) <==> target_route(path) == RouteView::Page(page),
        serves(path, page) <==> target_route(path + seq!['?'] + query) == RouteView::Page(page),
{
    reveal_strlit("/");
    reveal_strlit("/index.html");
    reveal_strlit("/usage.html");
    reveal_strlit("/style.css");
    reveal_strlit("/app.js");
    reveal_strlit("/robots.txt");
    reveal_strlit("/favicon.ico");
    reveal_strlit("/nutritea-small.jpg");
    reveal_strlit("/api/search");
    reveal_strlit("/api/search/stream");
    reveal_strlit("/healthz");
    assert("/index.html"@[1] == 'i' && "/usage.html"@[1] == 'u' && "/style.css"@[1] == 's'
        && "/app.js"@[1] == 'a' && "/robots.txt"@[1] == 'r' && "/favicon.ico"@[1] == 'f'
        && "/nutritea-small.jpg"@[1] == 'n' && "/api/search"@[2] == 'p'
        && "/api/search/stream"@[2] == 'p' && "/healthz"@[1] == 'h');
    assert("/app.js"@.len() == 7 && "/api/search"@.len() == 11 && "/api/search/stream"@.len() == 18);
    lemma_target(path, query);
    lemma_first_place(path, '?', path.len() as int);
}

/// Something given on a command line.
pub enum Given {
    /// A value, behind an equals sign.
    Joined(Seq<char>, Seq<char>),
    /// A value, as the next argument.
    Next(Seq<char>, Seq<char>),
    Flag(Seq<char>),
    Plain(Seq<char>),
}

/// What is given, as arguments.
pub open spec fn argument_texts(given: Given) -> Seq<Option<Seq<char>>> {
    match given {
        Given::Joined(name, text) => seq![Some("--"@ + name + seq!['='] + text)],
        Given::Next(name, text) => seq![Some("--"@ + name), Some(text)],
        Given::Flag(name) => seq![Some("--"@ + name)],
        Given::Plain(text) => seq![Some(text)],
    }
}

/// All that is given, as arguments.
pub open spec fn all_arguments(all: Seq<Given>) -> Seq<Option<Seq<char>>>
    decreases all.len(),
{
    if all.len() == 0 {
        Seq::empty()
    } else {
        all_arguments(all.drop_last()) + argument_texts(all.last())
    }
}

/// The name of an option: it is not empty, and has no equals sign.
pub open spec fn option_name(name: Seq<char>) -> bool {
    name.len() > 0 && forall|i: int| 0 <= i < name.len() ==> (#[trigger] name[i]) != '='
}

/// What is given is known.
pub open spec fn is_known(given: Given, value_names: Seq<Seq<char>>, flag_names: Seq<Seq<char>>) -> bool {
    match given {
        Given::Joined(name, _) | Given::Next(name, _) => option_name(name) && value_names.contains(
            name,
        ),
        Given::Flag(name) => option_name(name) && flag_names.contains(name)
            && !value_names.contains(name),
        Given::Plain(text) => !stands_text(text, 0, "--"@),
    }
}

/// The name of the option that is given.
pub open spec fn name_of(given: Given) -> Option<Seq<char>> {
    match given {
        Given::Joined(name, _) | Given::Next(name, _) | Given::Flag(name) => Some(name),
        Given::Plain(_) => None,
    }
}

/// No option is given twice.
pub open spec fn given_once(all: Seq<Given>) -> bool {
    forall|i: int, j: int|
        0 <= i < j < all.len() && name_of(#[trigger] all[i]) is Some ==> name_of(all[i]) != name_of(
            #[trigger] all[j],
        )
}

/// The options agree with what is given, and hold nothing else.
pub open spec fn options_agree(
    o: OptionsView,
    arguments: Seq<Option<Seq<char>>>,
    all: Seq<Given>,
) -> bool {
    &&& forall|i: int|
        0 <= i < all.len() ==> match #[trigger] all[i] {
            Given::Joined(name, text) | Given::Next(name, text) => text_of(o, arguments, name) == Ok::<
                Option<Seq<char>>,
                Seq<char>,
            >(Some(text)),
            Given::Flag(name) => o.flags.contains(name),
            Given::Plain(text) => exists|k: int|
                0 <= k < o.positional.len() && 0 <= #[trigger] o.positional[k] < arguments.len()
                    && arguments[o.positional[k]] == Some(text),
        }
    &&& forall|k: int|
        0 <= k < o.values.len() ==> exists|i: int|
            0 <= i < all.len() && name_of(#[trigger] all[i]) == Some((#[trigger] o.values[k]).0)
    &&& forall|k: int|
        0 <= k < o.flags.len() ==> exists|i: int|
            0 <= i < all.len() && name_of(#[trigger] all[i]) == Some(#[trigger] o.flags[k])
}

proof fn lemma_parts(name: Seq<char>, text: Seq<char>)
    requires
        option_name(name),
    ensures
        option_parts("--"@ + name) == (name, None::<Seq<char>>),
        option_parts("--"@ + name + seq!['='] + text) == (name, Some(text)),
        stands_text("--"@ + name, 0, "--"@),
        stands_text("--"@ + name + seq!['='] + text, 0, "--"@),
        "--"@ + name != "--"@,
        "--"@ + name + seq!['='] + text != "--"@,
{
    reveal_strlit("--");
    let a = "--"@ + name;
    let b = a + seq!['='] + text;
    let n = name.len() as int;
    assert(a.skip(2) =~= name);
    lemma_first_place(name, '=', n);
    let rest = b.skip(2);
    assert(rest =~= name + seq!['='] + text);
    assert(forall|k: int| 0 <= k < n ==> rest[k] == name[k]);
    lemma_first_place(rest, '=', n);
    assert(rest.take(n) =~= name);
    assert(rest.skip(n + 1) =~= text);
    assert(a.subrange(0, 2) =~= "--"@);
    assert(b.subrange(0, 2) =~= "--"@);
    assert(a.len() > 2 && b.len() > 2);
}

proof fn lemma_value_pushed(values: Seq<(Seq<char>, ValueView)>, name: Seq<char>, v: ValueView, other: Seq<char>)
    ensures
        value_of(values.push((name, v)), other) == (match value_of(values, other) {
            Some(found) => Some(found),
            None => if other == name {
                Some(v)
            } else {
                None
            },
        }),
    decreases values.len(),
{
    let more = values.push((name, v));
    if values.len() == 0 {
        assert(more[0] == (name, v));
        assert(more.skip(1) =~= Seq::empty());
        assert(value_of(more.skip(1), other) is None);
    } else {
        assert(more[0] == values[0]);
        assert(more.skip(1) =~= values.skip(1).push((name, v)));
        lemma_value_pushed(values.skip(1), name, v, other);
    }
}

proof fn lemma_value_found(values: Seq<(Seq<char>, ValueView)>, name: Seq<char>)
    ensures
        value_of(values, name) is Some ==> exists|k: int|
            0 <= k < values.len() && (#[trigger] values[k]).0 == name,
    decreases values.len(),
{
    if values.len() > 0 {
        if values[0].0 != name {
            lemma_value_found(values.skip(1), name);
            if value_of(values.skip(1), name) is Some {
                let k = choose|k: int|
                    0 <= k < values.skip(1).len() && (#[trigger] values.skip(1)[k]).0 == name;
                assert(values[k + 1].0 == name);
            }
        }
    }
}

proof fn lemma_arguments_begin(all: Seq<Given>, n: int)
    requires
        0 <= n <= all.len(),
    ensures
        all_arguments(all.take(n)).len() <= all_arguments(all).len(),
        all_arguments(all.take(n)) == all_arguments(all).take(
            all_arguments(all.take(n)).len() as int,
        ),
    decreases all.len(),
{
    let part = all_arguments(all.take(n));
    let whole = all_arguments(all);
    if n == all.len() {
        assert(all.take(n) =~= all);
        assert(whole.take(whole.len() as int) =~= whole);
    } else {
        let most = all.drop_last();
        lemma_arguments_begin(most, n);
        assert(most.take(n) =~= all.take(n));
        assert(whole.take(part.len() as int) =~= all_arguments(most).take(part.len() as int));
    }
}

/// The arguments of what is given stand behind those of what is given before it.
proof fn lemma_arguments_at(all: Seq<Given>, n: int)
    requires
        0 <= n < all.len(),
    ensures
        ({
            let at = all_arguments(all.take(n)).len() as int;
            let here = argument_texts(all[n]);
            let args = all_arguments(all);
            &&& at + here.len() <= args.len()
            &&& all_arguments(all.take(n + 1)).len() == at + here.len()
            &&& forall|i: int| 0 <= i < here.len() ==> args[at + i] == #[trigger] here[i]
        }),
{
    let at = all_arguments(all.take(n)).len() as int;
    let here = argument_texts(all[n]);
    let next = all.take(n + 1);
    assert(next.drop_last() =~= all.take(n));
    assert(next.last() == all[n]);
    let part = all_arguments(next);
    assert(part == all_arguments(all.take(n)) + here);
    lemma_arguments_begin(all, n + 1);
    let args = all_arguments(all);
    assert forall|i: int| 0 <= i < here.len() implies args[at + i] == #[trigger] here[i] by {
        assert(part[at + i] == here[i]);
        assert(args.take(part.len() as int)[at + i] == args[at + i]);
    }
}

/// One more thing that is given.
#[verifier::spinoff_prover]
#[verifier::rlimit(60)]
proof fn lemma_agree_more(
    o: OptionsView,
    more: OptionsView,
    args: Seq<Option<Seq<char>>>,
    all: Seq<Given>,
    at: int,
    given: Given,
)
    requires
        options_agree(o, args, all),
        given_once(all.push(given)),
        0 <= at < args.len(),
        match given {
            Given::Joined(name, text) => more == (OptionsView {
                values: o.values.push((name, ValueView::Inline(text))),
                ..o
            }),
            Given::Next(name, text) => at + 1 < args.len() && args[at + 1] == Some(text) && more == (
            OptionsView { values: o.values.push((name, ValueView::Argument(at + 1))), ..o }),
            Given::Flag(name) => more == (OptionsView { flags: o.flags.push(name), ..o }),
            Given::Plain(text) => args[at] == Some(text) && more == (OptionsView {
                positional: o.positional.push(at),
                ..o
            }),
        },
    ensures
        options_agree(more, args, all.push(given)),
{
    let now = all.push(given);
    let n = all.len() as int;
    assert(now[n] == given);
    if name_of(given) is Some {
        lemma_not_given(o, args, all, given);
    }
    assert forall|name: Seq<char>| #[trigger] value_of(o.values, name) is Some implies value_of(
        more.values,
        name,
    ) == value_of(o.values, name) by {
        match given {
            Given::Joined(here, text) => {
                lemma_value_pushed(o.values, here, ValueView::Inline(text), name);
            },
            Given::Next(here, text) => {
                lemma_value_pushed(o.values, here, ValueView::Argument(at + 1), name);
            },
            _ => {},
        }
    }
    assert forall|i: int| 0 <= i < now.len() implies match #[trigger] now[i] {
        Given::Joined(name, text) | Given::Next(name, text) => text_of(more, args, name) == Ok::<
            Option<Seq<char>>,
            Seq<char>,
        >(Some(text)),
        Given::Flag(name) => more.flags.contains(name),
        Given::Plain(text) => exists|k: int|
            0 <= k < more.positional.len() && 0 <= #[trigger] more.positional[k] < args.len()
                && args[more.positional[k]] == Some(text),
    } by {
        if i < n {
            assert(now[i] == all[i]);
            match all[i] {
                Given::Joined(name, text) | Given::Next(name, text) => {
                    assert(text_of(o, args, name) == Ok::<Option<Seq<char>>, Seq<char>>(Some(text)));
                    assert(value_of(o.values, name) is Some);
                },
                Given::Flag(name) => {
                    assert(o.flags.contains(name));
                    let k = choose|k: int| 0 <= k < o.flags.len() && o.flags[k] == name;
                    assert(more.flags[k] == name);
                },
                Given::Plain(text) => {
                    let k = choose|k: int|
                        0 <= k < o.positional.len() && 0 <= #[trigger] o.positional[k] < args.len()
                            && args[o.positional[k]] == Some(text);
                    assert(more.positional[k] == o.positional[k]);
                },
            }
        } else {
            match given {
                Given::Joined(name, text) => {
                    lemma_value_pushed(o.values, name, ValueView::Inline(text), name);
                },
                Given::Next(name, text) => {
                    lemma_value_pushed(o.values, name, ValueView::Argument(at + 1), name);
                },
                Given::Flag(name) => {
                    assert(more.flags[o.flags.len() as int] == name);
                },
                Given::Plain(text) => {
                    assert(more.positional[o.positional.len() as int] == at);
                },
            }
        }
    }
    assert forall|k: int| 0 <= k < more.values.len() implies exists|i: int|
        0 <= i < now.len() && name_of(#[trigger] now[i]) == Some((#[trigger] more.values[k]).0) by {
        if k < o.values.len() {
            assert(more.values[k] == o.values[k]);
            let i = choose|i: int|
                0 <= i < all.len() && name_of(#[trigger] all[i]) == Some(o.values[k].0);
            assert(now[i] == all[i]);
        } else {
            assert(name_of(now[n]) == Some(more.values[k].0));
        }
    }
    assert forall|k: int| 0 <= k < more.flags.len() implies exists|i: int|
        0 <= i < now.len() && name_of(#[trigger] now[i]) == Some(#[trigger] more.flags[k]) by {
        if k < o.flags.len() {
            assert(more.flags[k] == o.flags[k]);
            let i = choose|i: int|
                0 <= i < all.len() && name_of(#[trigger] all[i]) == Some(o.flags[k]);
            assert(now[i] == all[i]);
        } else {
            assert(name_of(now[n]) == Some(more.flags[k]));
        }
    }
}

/// An option that comes now has not been given.
proof fn lemma_not_given(o: OptionsView, args: Seq<Option<Seq<char>>>, all: Seq<Given>, given: Given)
    requires
        options_agree(o, args, all),
        given_once(all.push(given)),
        name_of(given) is Some,
    ensures
        value_of(o.values, name_of(given)->0) is None,
        !o.flags.contains(name_of(given)->0),
{
    let name = name_of(given)->0;
    let now = all.push(given);
    let n = all.len() as int;
    assert(now[n] == given);
    if value_of(o.values, name) is Some {
        lemma_value_found(o.values, name);
        let k = choose|k: int| 0 <= k < o.values.len() && (#[trigger] o.values[k]).0 == name;
        let i = choose|i: int|
            0 <= i < all.len() && name_of(#[trigger] all[i]) == Some(o.values[k].0);
        assert(now[i] == all[i]);
    }
    if o.flags.contains(name) {
        let k = choose|k: int| 0 <= k < o.flags.len() && o.flags[k] == name;
        let i = choose|i: int|
            0 <= i < all.len() && name_of(#[trigger] all[i]) == Some(#[trigger] o.flags[k]);
        assert(now[i] == all[i]);
    }
}

proof fn lemma_options(
    all: Seq<Given>,
    n: nat,
    value_names: Seq<Seq<char>>,
    flag_names: Seq<Seq<char>>,
) -> (o: OptionsView)
    requires
        n <= all.len(),
        given_once(all),
        forall|i: int|
            0 <= i < all.len() ==> is_known(#[trigger] all[i], value_names, flag_names),
    ensures
        options_from(all_arguments(all), 0, false, value_names, flag_names, no_options())
            == options_from(
            all_arguments(all),
            all_arguments(all.take(n as int)).len() as int,
            false,
            value_names,
            flag_names,
            o,
        ),
        options_agree(o, all_arguments(all), all.take(n as int)),
    decreases n,
{
    let args = all_arguments(all);
    if n == 0 {
        assert(all.take(0) =~= Seq::empty());
        no_options()
    } else {
        let m = n - 1;
        let o = lemma_options(all, m as nat, value_names, flag_names);
        lemma_arguments_at(all, m);
        let at = all_arguments(all.take(m)).len() as int;
        let given = all[m];
        let here = argument_texts(given);
        assert(is_known(given, value_names, flag_names));
        assert(args[at + 0] == here[0]);
        let before = all.take(m);
        assert(before.push(given) =~= all.take(n as int));
        assert(given_once(before.push(given))) by {
            let now = before.push(given);
            assert forall|i: int, j: int|
                0 <= i < j < now.len() && name_of(#[trigger] now[i]) is Some implies name_of(now[i])
                != name_of(#[trigger] now[j]) by {
                assert(now[i] == all[i] && now[j] == all[j]);
            }
        }
        let more = match given {
            Given::Joined(name, text) => OptionsView {
                values: o.values.push((name, ValueView::Inline(text))),
                ..o
            },
            Given::Next(name, text) => OptionsView {
                values: o.values.push((name, ValueView::Argument(at + 1))),
                ..o
            },
            Given::Flag(name) => OptionsView { flags: o.flags.push(name), ..o },
            Given::Plain(text) => OptionsView { positional: o.positional.push(at), ..o },
        };
        match given {
            Given::Joined(name, text) => {
                lemma_parts(name, text);
                lemma_not_given(o, args, before, given);
            },
            Given::Next(name, text) => {
                lemma_parts(name, text);
                lemma_not_given(o, args, before, given);
                assert(args[at + 1] == here[1]);
            },
            Given::Flag(name) => {
                lemma_parts(name, Seq::empty());
                lemma_not_given(o, args, before, given);
            },
            Given::Plain(text) => {},
        }
        lemma_agree_more(o, more, args, before, at, given);
        more
    }
}

/// Options that are known and given once each are read as they were given: the text of
/// each value, whether it stands behind an equals sign or as the next argument; each flag;
/// and each other argument, wherever it stands among them.
pub proof fn law_options_read_back(
    all: Seq<Given>,
    value_names: Seq<Seq<char>>,
    flag_names: Seq<Seq<char>>,
)
    requires
        given_once(all),
        forall|i: int|
            0 <= i < all.len() ==> is_known(#[trigger] all[i], value_names, flag_names),
    ensures
        options_from(all_arguments(all), 0, false, value_names, flag_names, no_options()) matches Ok(
            o,
        ) && options_agree(o, all_arguments(all), all),
{
    let o = lemma_options(all, all.len(), value_names, flag_names);
    assert(all.take(all.len() as int) =~= all);
}

/// A part of a query string that stands for itself.
pub open spec fn plain_part(s: Seq<char>) -> bool {
    &&& forall|i: int| 0 <= i < s.len() ==> (#[trigger] s[i]) != '&' && s[i] != '='
    &&& forall|i: int|
        0 <= i < encode_utf8(s).len() ==> encode_utf8(s)[i] != 43 && encode_utf8(s)[i] != 37
}

/// Names and values as a query string: an equals sign between a name and its value, an
/// ampersand between two fields.
pub open spec fn parameters_written(parameters: Seq<Parameter>) -> Seq<char>
    decreases parameters.len(),
{
    if parameters.len() == 0 {
        Seq::empty()
    } else {
        let (name, value) = parameters.last();
        let field = name + seq!['='] + value;
        if parameters.len() == 1 {
            field
        } else {
            parameters_written(parameters.drop_last()) + seq!['&'] + field
        }
    }
}

spec fn parameter_fields(parameters: Seq<Parameter>) -> Seq<Seq<char>> {
    Seq::new(parameters.len(), |i: int| parameters[i].0 + seq!['='] + parameters[i].1)
}

proof fn lemma_split_parameters(parameters: Seq<Parameter>)
    requires
        parameters.len() > 0,
        forall|i: int|
            0 <= i < parameters.len() ==> plain_part((#[trigger] parameters[i]).0) && plain_part(
                parameters[i].1,
            ),
    ensures
        split_on(parameters_written(parameters), '&') == parameter_fields(parameters),
        parameters_written(parameters).len() > 0,
    decreases parameters.len(),
{
    let last = parameters[parameters.len() - 1];
    let field = last.0 + seq!['='] + last.1;
    assert(plain_part(last.0) && plain_part(last.1));
    assert forall|i: int| 0 <= i < field.len() implies (#[trigger] field[i]) != '&' by {
        if i < last.0.len() {
            assert(field[i] == last.0[i]);
        } else if i > last.0.len() {
            assert(field[i] == last.1[i - last.0.len() - 1]);
        }
    }
    lemma_split_plain(field, '&');
    if parameters.len() == 1 {
        assert(parameter_fields(parameters) =~= seq![field]);
    } else {
        let most = parameters.drop_last();
        assert forall|i: int| 0 <= i < most.len() implies plain_part((#[trigger] most[i]).0)
            && plain_part(most[i].1) by {
            assert(most[i] == parameters[i]);
        }
        lemma_split_parameters(most);
        lemma_split_join(parameters_written(most), '&', field);
        assert(parameter_fields(most) + seq![field] =~= parameter_fields(parameters));
    }
}

proof fn lemma_parameters(parameters: Seq<Parameter>, n: nat)
    requires
        n <= parameters.len(),
        forall|i: int|
            0 <= i < parameters.len() ==> plain_part((#[trigger] parameters[i]).0) && plain_part(
                parameters[i].1,
            ),
    ensures
        parameters_of(parameter_fields(parameters), n) == Ok::<Seq<Parameter>, Seq<char>>(
            parameters.take(n as int),
        ),
    decreases n,
{
    let fields = parameter_fields(parameters);
    if n > 0 {
        lemma_parameters(parameters, (n - 1) as nat);
        let (name, value) = parameters[n - 1];
        assert(plain_part(parameters[n - 1].0) && plain_part(parameters[n - 1].1));
        let field = fields[n - 1];
        let k = name.len() as int;
        assert(forall|i: int| 0 <= i < k ==> field[i] == name[i]);
        lemma_first_place(field, '=', k);
        assert(field.take(k) =~= name);
        assert(field.skip(k + 1) =~= value);
        law_plain_url_stands_for_itself(name);
        law_plain_url_stands_for_itself(value);
        assert(parameters.take(n - 1).push((name, value)) =~= parameters.take(n as int));
    } else {
        assert(parameters.take(0) =~= Seq::empty());
    }
}

/// Names and values that are written as a query string read back as they were.
pub proof fn law_query_string_reads_back(parameters: Seq<Parameter>)
    requires
        forall|i: int|
            0 <= i < parameters.len() ==> plain_part((#[trigger] parameters[i]).0) && plain_part(
                parameters[i].1,
            ),
    ensures
        query_parameters(parameters_written(parameters)) == Ok::<Seq<Parameter>, Seq<char>>(
            parameters,
        ),
{
    if parameters.len() > 0 {
        lemma_split_parameters(parameters);
        lemma_parameters(parameters, parameters.len());
        assert(parameters.take(parameters.len() as int) =~= parameters);
    } else {
        assert(parameters =~= Seq::empty());
    }
}

/// Of the values that are given under a name the last counts.
pub proof fn law_last_value_counts(parameters: Seq<Parameter>, i: int)
    requires
        0 <= i < parameters.len(),
        forall|j: int| i < j < parameters.len() ==> (#[trigger] parameters[j]).0 != parameters[i].0,
    ensures
        value_named(parameters, parameters[i].0) == Some(parameters[i].1),
    decreases parameters.len(),
{
    let last = parameters.len() - 1;
    if i < last {
        assert(parameters[last].0 != parameters[i].0);
        let most = parameters.drop_last();
        assert forall|j: int| i < j < most.len() implies (#[trigger] most[j]).0 != most[i].0 by {
            assert(most[j] == parameters[j]);
        }
        law_last_value_counts(most, i);
    }
}

} // verus!
