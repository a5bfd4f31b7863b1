//! The options of a command line.
use crate::corpus::json::stands_text;
use crate::ordered::views;
use crate::search::types::SearchOptions;
use crate::text::{
    chars_of, copy_range, find_char, first_place, join2, join3, parse_unsigned, same_chars,
    string_of, unsigned_value,
};
use vstd::prelude::*;
use vstd::string::*;

verus! {

/// What was given for an option.
#[derive(Clone, Debug, PartialEq, Eq)]
pub enum OptionValue {
    /// A text behind the name and an equals sign.
    Inline(String),
    /// The argument with this number.
    Argument(usize),
}

/// The mathematical content of an [`OptionValue`].
pub enum ValueView {
    Inline(Seq<char>),
    Argument(int),
}

impl View for OptionValue {
    type V = ValueView;

    open spec fn view(&self) -> ValueView {
        match *self {
            OptionValue::Inline(text) => ValueView::Inline(text@),
            OptionValue::Argument(i) => ValueView::Argument(i as int),
        }
    }
}

/// The options and the other arguments. An argument stands by its number, so
/// that one that is no Unicode text is kept as it is.
#[derive(Clone, Debug, PartialEq, Eq)]
pub struct ParsedOptions {
    pub values: Vec<(String, OptionValue)>,
    pub flags: Vec<String>,
    pub positional: Vec<usize>,
}

/// The mathematical content of [`ParsedOptions`].
pub struct OptionsView {
    pub values: Seq<(Seq<char>, ValueView)>,
    pub flags: Seq<Seq<char>>,
    pub positional: Seq<int>,
}

impl View for ParsedOptions {
    type V = OptionsView;

    open spec fn view(&self) -> OptionsView {
        OptionsView {
            values: views(self.values@),
            flags: views(self.flags@),
            positional: Seq::new(self.positional@.len(), |i: int| self.positional@[i] as int),
        }
    }
}

/// No options.
pub open spec fn no_options() -> OptionsView {
    OptionsView { values: Seq::empty(), flags: Seq::empty(), positional: Seq::empty() }
}

/// The arguments: texts, or none for one that is no Unicode text.
pub open spec fn arguments_of(arguments: Seq<Option<String>>) -> Seq<Option<Seq<char>>> {
    Seq::new(
        arguments.len(),
        |i: int|
            match arguments[i] {
                Some(text) => Some(text@),
                None => None,
            },
    )
}

/// What was given for an option.
pub open spec fn value_of(values: Seq<(Seq<char>, ValueView)>, name: Seq<char>) -> Option<ValueView>
    decreases values.len(),
{
    if values.len() == 0 {
        None
    } else if values[0].0 == name {
        Some(values[0].1)
    } else {
        value_of(values.skip(1), name)
    }
}

/// The name of an option, and what stands behind an equals sign.
pub open spec fn option_parts(argument: Seq<char>) -> (Seq<char>, Option<Seq<char>>) {
    let option = argument.skip(2);
    match first_place(option, '=') {
        Some(i) => (option.take(i), Some(option.skip(i + 1))),
        None => (option, None),
    }
}

/// What the arguments from a place on give, behind those before them.
pub open spec fn options_from(
    arguments: Seq<Option<Seq<char>>>,
    at: int,
    only_positional: bool,
    value_names: Seq<Seq<char>>,
    flag_names: Seq<Seq<char>>,
    known: OptionsView,
) -> Result<OptionsView, Seq<char>>
    decreases arguments.len() - at,
{
    if at < 0 || at >= arguments.len() {
        Ok(known)
    } else if only_positional || arguments[at] is None || !stands_text(
        arguments[at]->0,
        0,
        "--"@,
    ) {
        options_from(
            arguments,
            at + 1,
            only_positional,
            value_names,
            flag_names,
            OptionsView { positional: known.positional.push(at), ..known },
        )
    } else if arguments[at]->0 == "--"@ {
        options_from(arguments, at + 1, true, value_names, flag_names, known)
    } else {
        let (name, inline) = option_parts(arguments[at]->0);
        if value_names.contains(name) {
            if value_of(known.values, name) is Some {
                Err("选项 --"@ + name + " 重复"@)
            } else {
                match inline {
                    Some(text) => options_from(
                        arguments,
                        at + 1,
                        false,
                        value_names,
                        flag_names,
                        OptionsView {
                            values: known.values.push((name, ValueView::Inline(text))),
                            ..known
                        },
                    ),
                    None => if at + 1 >= arguments.len() {
                        Err("选项 --"@ + name + " 缺少值"@)
                    } else {
                        options_from(
                            arguments,
                            at + 2,
                            false,
                            value_names,
                            flag_names,
                            OptionsView {
                                values: known.values.push((name, ValueView::Argument(at + 1))),
                                ..known
                            },
                        )
                    },
                }
            }
        } else if flag_names.contains(name) && inline is None {
            if known.flags.contains(name) {
                Err("选项 --"@ + name + " 重复"@)
            } else {
                options_from(
                    arguments,
                    at + 1,
                    false,
                    value_names,
                    flag_names,
                    OptionsView { flags: known.flags.push(name), ..known },
                )
            }
        } else {
            Err("未知选项 --"@ + name)
        }
    }
}

/// Whether a name is among others.
fn is_among(names: &Vec<&str>, name: &[char]) -> (r: bool)
    ensures
        r == views_of(names@).contains(name@),
{
    let ghost all = views_of(names@);
    let mut i: usize = 0;
    while i < names.len()
        invariant
            i <= names@.len(),
            all == views_of(names@),
            forall|k: int| 0 <= k < i ==> all[k] != name@,
        decreases names.len() - i,
    {
        let here = chars_of(names[i]);
        assert(all[i as int] == here@);
        if same_chars(here.as_slice(), name) {
            return true;
        }
        i += 1;
    }
    false
}

/// The names, as sequences.
pub open spec fn views_of(names: Seq<&str>) -> Seq<Seq<char>> {
    Seq::new(names.len(), |i: int| names[i]@)
}

/// Whether a flag has been given.
fn is_flag_given(flags: &Vec<String>, name: &[char]) -> (r: bool)
    ensures
        r == views(flags@).contains(name@),
{
    let ghost all = views(flags@);
    let mut i: usize = 0;
    while i < flags.len()
        invariant
            i <= flags@.len(),
            all == views(flags@),
            forall|k: int| 0 <= k < i ==> all[k] != name@,
        decreases flags.len() - i,
    {
        let here = chars_of(flags[i].as_str());
        assert(all[i as int] == here@);
        if same_chars(here.as_slice(), name) {
            return true;
        }
        i += 1;
    }
    false
}

/// What was given for an option.
fn find_value<'a>(values: &'a Vec<(String, OptionValue)>, name: &[char]) -> (r: Option<
    &'a OptionValue,
>)
    ensures
        match (r, value_of(views(values@), name@)) {
            (Some(v), Some(expected)) => v@ == expected,
            (None, None) => true,
            _ => false,
        },
{
    let ghost all = views(values@);
    let mut i: usize = 0;
    assert(all.skip(0) =~= all);
    while i < values.len()
        invariant
            i <= values@.len(),
            all == views(values@),
            value_of(all, name@) == value_of(all.skip(i as int), name@),
        decreases values.len() - i,
    {
        let here = chars_of(values[i].0.as_str());
        proof {
            assert(all.skip(i as int)[0] == all[i as int]);
            assert(all.skip(i as int).skip(1) =~= all.skip(i + 1));
        }
        if same_chars(here.as_slice(), name) {
            return Some(&values[i].1);
        }
        i += 1;
    }
    None
}

fn option_message(name: &[char], message: &str) -> (r: String)
    ensures
        r@ == "选项 --"@ + name@ + message@,
{
    let name = string_of(name);
    join3("选项 --", name.as_str(), message)
}

/// Reads the arguments of a command.
#[verifier::rlimit(60)]
pub fn parse_options(
    arguments: &Vec<Option<String>>,
    value_names: &Vec<&str>,
    flag_names: &Vec<&str>,
) -> (r: Result<ParsedOptions, String>)
    ensures
        match (
            r,
            options_from(
                arguments_of(arguments@),
                0,
                false,
                views_of(value_names@),
                views_of(flag_names@),
                no_options(),
            ),
        ) {
            (Ok(options), Ok(expected)) => options@ == expected,
            (Err(message), Err(expected)) => message@ == expected,
            _ => false,
        },
{
    let ghost all = arguments_of(arguments@);
    let ghost wanted = options_from(
        all,
        0,
        false,
        views_of(value_names@),
        views_of(flag_names@),
        no_options(),
    );
    let mut out = ParsedOptions { values: Vec::new(), flags: Vec::new(), positional: Vec::new() };
    proof {
        reveal_strlit("--");
        assert(out@.values =~= Seq::empty());
        assert(out@.flags =~= Seq::empty());
        assert(out@.positional =~= Seq::empty());
    }
    let n: usize = arguments.len();
    let mut only_positional = false;
    let mut at: usize = 0;
    while at < n
        invariant
            at <= n,
            n == arguments@.len(),
            all == arguments_of(arguments@),
            "--"@.len() == 2,
            "--"@[0] == '-' && "--"@[1] == '-',
            wanted == options_from(
                arguments_of(arguments@),
                0,
                false,
                views_of(value_names@),
                views_of(flag_names@),
                no_options(),
            ),
            wanted == options_from(
                all,
                at as int,
                only_positional,
                views_of(value_names@),
                views_of(flag_names@),
                out@,
            ),
        decreases n - at,
    {
        let ghost before = out@;
        let text = match &arguments[at] {
            Some(text) => chars_of(text.as_str()),
            None => Vec::new(),
        };
        let length: usize = text.len();
        let is_option = arguments[at].is_some() && length >= 2 && text[0] == '-' && text[1] == '-';
        proof {
            if let Some(given) = arguments@[at as int] {
                assert(all[at as int] == Some(text@));
                if length >= 2 {
                    assert(text@.subrange(0, 2)[0] == text@[0]);
                    assert(text@.subrange(0, 2)[1] == text@[1]);
                    if text@[0] == '-' && text@[1] == '-' {
                        assert(text@.subrange(0, 2) =~= "--"@);
                    }
                }
                assert(is_option == stands_text(text@, 0, "--"@));
            }
        }
        if only_positional || !is_option {
            out.positional.push(at);
            proof {
                assert(out@.positional =~= before.positional.push(at as int));
            }
            at = at + 1;
            continue;
        }
        if length == 2 {
            proof {
                assert(text@ =~= "--"@);
            }
            only_positional = true;
            at = at + 1;
            continue;
        }
        proof {
            assert(text@ != "--"@);
        }
        let option = copy_range(text.as_slice(), 2, length);
        proof {
            assert(option@ =~= text@.skip(2));
        }
        let m: usize = option.len();
        let mut end: usize = m;
        let mut inline: Option<String> = None;
        if let Some(i) = find_char(option.as_slice(), '=') {
            end = i;
            let behind = copy_range(option.as_slice(), i + 1, m);
            proof {
                assert(behind@ =~= option@.skip(i + 1));
            }
            inline = Some(string_of(behind.as_slice()));
        }
        let name = copy_range(option.as_slice(), 0, end);
        let ghost parts = option_parts(text@);
        proof {
            assert(end == m ==> name@ =~= option@);
            assert(name@ =~= option@.take(end as int));
            assert(parts.0 == name@);
        }
        if is_among(value_names, name.as_slice()) {
            if find_value(&out.values, name.as_slice()).is_some() {
                return Err(option_message(name.as_slice(), " 重复"));
            }
            match inline {
                Some(text) => {
                    let ghost seen = (name@, ValueView::Inline(text@));
                    out.values.push((string_of(name.as_slice()), OptionValue::Inline(text)));
                    proof {
                        assert(out@.values =~= before.values.push(seen));
                    }
                    at = at + 1;
                },
                None => {
                    if n - at < 2 {
                        return Err(option_message(name.as_slice(), " 缺少值"));
                    }
                    let ghost seen = (name@, ValueView::Argument(at + 1));
                    out.values.push((string_of(name.as_slice()), OptionValue::Argument(at + 1)));
                    proof {
                        assert(out@.values =~= before.values.push(seen));
                    }
                    at = at + 2;
                },
            }
        } else if is_among(flag_names, name.as_slice()) && inline.is_none() {
            if is_flag_given(&out.flags, name.as_slice()) {
                return Err(option_message(name.as_slice(), " 重复"));
            }
            out.flags.push(string_of(name.as_slice()));
            proof {
                assert(out@.flags =~= before.flags.push(name@));
            }
            at = at + 1;
        } else {
            let name = string_of(name.as_slice());
            return Err(join2("未知选项 --", name.as_str()));
        }
    }
    Ok(out)
}

/// The text that was given for an option; or that what was given is no text.
pub open spec fn text_of(o: OptionsView, arguments: Seq<Option<Seq<char>>>, name: Seq<char>) -> Result<
    Option<Seq<char>>,
    Seq<char>,
> {
    match value_of(o.values, name) {
        None => Ok(None),
        Some(ValueView::Inline(text)) => Ok(Some(text)),
        Some(ValueView::Argument(i)) => if 0 <= i < arguments.len() && arguments[i] is Some {
            Ok(Some(arguments[i]->0))
        } else {
            Err("--"@ + name + " 的值必须是 Unicode 文本"@)
        },
    }
}

/// The number that was given for an option.
pub open spec fn number_of(
    o: OptionsView,
    arguments: Seq<Option<Seq<char>>>,
    name: Seq<char>,
) -> Result<Option<u64>, Seq<char>> {
    match text_of(o, arguments, name) {
        Err(e) => Err(e),
        Ok(None) => Ok(None),
        Ok(Some(text)) => match unsigned_value(text, 10) {
            Some(n) => if n <= u64::MAX {
                Ok(Some(n as u64))
            } else {
                Err("--"@ + name + " 不是有效非负整数"@)
            },
            None => Err("--"@ + name + " 不是有效非负整数"@),
        },
    }
}

impl ParsedOptions {
    /// What was given for an option.
    pub fn value(&self, name: &str) -> (r: Option<&OptionValue>)
        ensures
            match (r, value_of(self@.values, name@)) {
                (Some(v), Some(expected)) => v@ == expected,
                (None, None) => true,
                _ => false,
            },
    {
        let wanted = chars_of(name);
        find_value(&self.values, wanted.as_slice())
    }

    /// What was given for an option that must be given.
    pub fn required(&self, name: &str) -> (r: Result<&OptionValue, String>)
        ensures
            match (r, value_of(self@.values, name@)) {
                (Ok(v), Some(expected)) => v@ == expected,
                (Err(message), None) => message@ == "缺少必需选项 --"@ + name@,
                _ => false,
            },
    {
        match self.value(name) {
            Some(v) => Ok(v),
            None => Err(join2("缺少必需选项 --", name)),
        }
    }

    /// Whether a flag was given.
    pub fn flag(&self, name: &str) -> (r: bool)
        ensures
            r == self@.flags.contains(name@),
    {
        let wanted = chars_of(name);
        is_flag_given(&self.flags, wanted.as_slice())
    }

    /// The text that was given for an option.
    pub fn text(&self, arguments: &Vec<Option<String>>, name: &str) -> (r: Result<
        Option<String>,
        String,
    >)
        ensures
            match (r, text_of(self@, arguments_of(arguments@), name@)) {
                (Ok(Some(text)), Ok(Some(expected))) => text@ == expected,
                (Ok(None), Ok(None)) => true,
                (Err(message), Err(expected)) => message@ == expected,
                _ => false,
            },
    {
        let ghost all = arguments_of(arguments@);
        match self.value(name) {
            None => Ok(None),
            Some(OptionValue::Inline(text)) => Ok(Some(text.as_str().to_owned())),
            Some(OptionValue::Argument(i)) => {
                if *i < arguments.len() {
                    if let Some(text) = &arguments[*i] {
                        proof {
                            assert(all[*i as int] == Some(text@));
                        }
                        return Ok(Some(text.as_str().to_owned()));
                    }
                    proof {
                        assert(all[*i as int] is None);
                    }
                }
                Err(join3("--", name, " 的值必须是 Unicode 文本"))
            },
        }
    }

    /// The number that was given for an option.
    pub fn number(&self, arguments: &Vec<Option<String>>, name: &str) -> (r: Result<
        Option<u64>,
        String,
    >)
        ensures
            match (r, number_of(self@, arguments_of(arguments@), name@)) {
                (Ok(n), Ok(expected)) => n == expected,
                (Err(message), Err(expected)) => message@ == expected,
                _ => false,
            },
    {
        match self.text(arguments, name) {
            Err(e) => Err(e),
            Ok(None) => Ok(None),
            Ok(Some(text)) => {
                let digits = chars_of(text.as_str());
                match parse_unsigned(digits.as_slice(), 10, u64::MAX) {
                    Some(n) => Ok(Some(n)),
                    None => Err(join3("--", name, " 不是有效非负整数")),
                }
            },
        }
    }

    /// The number that was given for an option, of the size of an index.
    pub fn size(&self, arguments: &Vec<Option<String>>, name: &str) -> (r: Result<
        Option<usize>,
        String,
    >)
        ensures
            match (r, number_of(self@, arguments_of(arguments@), name@)) {
                (Ok(Some(n)), Ok(Some(expected))) => n == expected,
                (Ok(None), Ok(None)) => true,
                (Err(message), Ok(Some(expected))) => expected > usize::MAX && message@ == "--"@
                    + name@ + " 不是有效非负整数"@,
                (Err(message), Err(expected)) => message@ == expected,
                _ => false,
            },
    {
        match self.number(arguments, name) {
            Err(e) => Err(e),
            Ok(None) => Ok(None),
            Ok(Some(n)) => {
                if n <= usize::MAX as u64 {
                    Ok(Some(n as usize))
                } else {
                    Err(join3("--", name, " 不是有效非负整数"))
                }
            },
        }
    }
}

/// A number that was given for an option, or what stands for it.
pub open spec fn number_or(
    o: OptionsView,
    arguments: Seq<Option<Seq<char>>>,
    name: Seq<char>,
    max: int,
    default: int,
) -> Result<int, Seq<char>> {
    match number_of(o, arguments, name) {
        Err(e) => Err(e),
        Ok(None) => Ok(default),
        Ok(Some(n)) => if n <= max {
            Ok(n as int)
        } else {
            Err("--"@ + name + " 不是有效非负整数"@)
        },
    }
}

/// The options of a search.
pub fn search_options_from_cli(options: &ParsedOptions, arguments: &Vec<Option<String>>) -> (r:
    Result<SearchOptions, String>)
    ensures
        ({
            let all = arguments_of(arguments@);
            let limit = number_or(options@, all, "limit"@, usize::MAX as int, 100);
            let nodes = number_or(options@, all, "max-nodes"@, u64::MAX as int, 1_000_000);
            let states = number_or(options@, all, "max-states"@, usize::MAX as int, 20_000);
            match (limit, nodes, states) {
                (Ok(limit), Ok(nodes), Ok(states)) => r == Ok::<SearchOptions, String>(
                    SearchOptions {
                        limit: limit as usize,
                        max_nodes: nodes as u64,
                        max_states: states as usize,
                    },
                ),
                (Err(e), _, _) => r matches Err(message) && message@ == e,
                (_, Err(e), _) => r matches Err(message) && message@ == e,
                (_, _, Err(e)) => r matches Err(message) && message@ == e,
            }
        }),
{
    let defaults = SearchOptions::default();
    let limit: usize = match options.size(arguments, "limit") {
        Err(e) => {
            return Err(e);
        },
        Ok(Some(n)) => n,
        Ok(None) => defaults.limit,
    };
    let max_nodes: u64 = match options.number(arguments, "max-nodes") {
        Err(e) => {
            return Err(e);
        },
        Ok(Some(n)) => n,
        Ok(None) => defaults.max_nodes,
    };
    let max_states: usize = match options.size(arguments, "max-states") {
        Err(e) => {
            return Err(e);
        },
        Ok(Some(n)) => n,
        Ok(None) => defaults.max_states,
    };
    Ok(SearchOptions { limit, max_nodes, max_states })
}

/// How an index is built.
#[derive(Clone, Debug, PartialEq, Eq)]
pub struct IndexSettings {
    pub window: usize,
    pub shard_prefix: String,
    pub min_count: u64,
    pub max_entries: usize,
}

/// How an index is built, as the options say.
pub fn index_settings_from_cli(options: &ParsedOptions, arguments: &Vec<Option<String>>) -> (r:
    Result<IndexSettings, String>)
    ensures
        ({
            let all = arguments_of(arguments@);
            let window = number_or(options@, all, "window"@, usize::MAX as int, 20);
            let prefix = text_of(options@, all, "shard-prefix"@);
            let min = number_or(options@, all, "min-count"@, u64::MAX as int, 5);
            let entries = number_or(options@, all, "max-entries"@, usize::MAX as int, 1_000_000);
            match (window, prefix, min, entries) {
                (Ok(window), Ok(prefix), Ok(min), Ok(entries)) => r matches Ok(s) && s.window
                    == window && s.min_count == min && s.max_entries == entries
                    && s.shard_prefix@ == (match prefix {
                    Some(text) => text,
                    None => "nutrimatic-zh"@,
                }),
                (Err(e), _, _, _) => r matches Err(message) && message@ == e,
                (_, Err(e), _, _) => r matches Err(message) && message@ == e,
                (_, _, Err(e), _) => r matches Err(message) && message@ == e,
                (_, _, _, Err(e)) => r matches Err(message) && message@ == e,
            }
        }),
{
    let window: usize = match options.size(arguments, "window") {
        Err(e) => {
            return Err(e);
        },
        Ok(Some(n)) => n,
        Ok(None) => 20,
    };
    let shard_prefix = match options.text(arguments, "shard-prefix") {
        Err(e) => {
            return Err(e);
        },
        Ok(Some(text)) => text,
        Ok(None) => "nutrimatic-zh".to_owned(),
    };
    let min_count: u64 = match options.number(arguments, "min-count") {
        Err(e) => {
            return Err(e);
        },
        Ok(Some(n)) => n,
        Ok(None) => 5,
    };
    let max_entries: usize = match options.size(arguments, "max-entries") {
        Err(e) => {
            return Err(e);
        },
        Ok(Some(n)) => n,
        Ok(None) => 1_000_000,
    };
    Ok(IndexSettings { window, shard_prefix, min_count, max_entries })
}

} // verus!
