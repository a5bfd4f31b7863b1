//! Query strings of URLs.
use crate::ordered::views;
use crate::text::{
    chars_of, copy_range, find_char, first_place, same_chars, split_chars, split_on, string_of,
    utf8_text,
};
use vstd::prelude::*;
use vstd::string::*;
use vstd::utf8::{decode_utf8, encode_utf8, valid_utf8};

verus! {

/// The value of a hexadecimal digit.
pub open spec fn hex_byte(b: u8) -> Option<u8> {
    if 48 <= b <= 57 {
        Some((b - 48) as u8)
    } else if 97 <= b <= 102 {
        Some((b - 97 + 10) as u8)
    } else if 65 <= b <= 70 {
        Some((b - 65 + 10) as u8)
    } else {
        None
    }
}

/// The bytes that a part of a URL stands for from a place on, behind those
/// before it: a plus sign for a blank, and escapes for any byte.
pub open spec fn url_bytes(s: Seq<u8>, at: int, out: Seq<u8>) -> Result<Seq<u8>, Seq<char>>
    decreases s.len() - at,
{
    if at < 0 || at >= s.len() {
        Ok(out)
    } else if s[at] == 43 {
        url_bytes(s, at + 1, out.push(32))
    } else if s[at] == 37 {
        if at + 3 > s.len() {
            Err("不完整的 URL 百分号转义"@)
        } else {
            match (hex_byte(s[at + 1]), hex_byte(s[at + 2])) {
                (Some(high), Some(low)) => url_bytes(s, at + 3, out.push((high * 16 + low) as u8)),
                _ => Err("URL 百分号转义含非十六进制字符"@),
            }
        }
    } else {
        url_bytes(s, at + 1, out.push(s[at]))
    }
}

/// The text that a part of a URL stands for.
pub open spec fn url_decoded(s: Seq<char>) -> Result<Seq<char>, Seq<char>> {
    match url_bytes(encode_utf8(s), 0, Seq::empty()) {
        Err(e) => Err(e),
        Ok(bytes) => if valid_utf8(bytes) {
            Ok(decode_utf8(bytes))
        } else {
            Err("URL 参数不是 UTF-8"@)
        },
    }
}

fn hex_value(b: u8) -> (r: Option<u8>)
    ensures
        r == hex_byte(b),
        r matches Some(v) ==> v < 16,
{
    if 48 <= b && b <= 57 {
        Some(b - 48)
    } else if 97 <= b && b <= 102 {
        Some(b - 97 + 10)
    } else if 65 <= b && b <= 70 {
        Some(b - 65 + 10)
    } else {
        None
    }
}

/// The text that a part of a URL stands for.
pub fn percent_decode(input: &str) -> (r: Result<String, &'static str>)
    ensures
        match (r, url_decoded(input@)) {
            (Ok(text), Ok(expected)) => text@ == expected,
            (Err(e), Err(expected)) => e@ == expected,
            _ => false,
        },
{
    let bytes = input.as_bytes();
    let n: usize = bytes.len();
    let mut output: Vec<u8> = Vec::new();
    let mut at: usize = 0;
    assert(output@ =~= Seq::empty());
    while at < n
        invariant
            at <= n,
            n == bytes@.len(),
            bytes@ == encode_utf8(input@),
            url_bytes(bytes@, 0, Seq::empty()) == url_bytes(bytes@, at as int, output@),
        decreases n - at,
    {
        let b: u8 = bytes[at];
        if b == 43 {
            output.push(32);
            at = at + 1;
        } else if b == 37 {
            if n - at < 3 {
                return Err("不完整的 URL 百分号转义");
            }
            match (hex_value(bytes[at + 1]), hex_value(bytes[at + 2])) {
                (Some(high), Some(low)) => {
                    output.push(high * 16 + low);
                },
                _ => {
                    return Err("URL 百分号转义含非十六进制字符");
                },
            }
            at = at + 3;
        } else {
            output.push(b);
            at = at + 1;
        }
    }
    match utf8_text(output.as_slice()) {
        Some(text) => Ok(text),
        None => Err("URL 参数不是 UTF-8"),
    }
}

/// A name and a value.
pub type Parameter = (Seq<char>, Seq<char>);

/// The name and the value that a field of a query string gives.
pub open spec fn parameter_of(field: Seq<char>) -> Result<Parameter, Seq<char>> {
    let (name, value) = match first_place(field, '=') {
        Some(i) => (field.take(i), field.skip(i + 1)),
        None => (field, Seq::empty()),
    };
    match (url_decoded(name), url_decoded(value)) {
        (Ok(n), Ok(v)) => Ok((n, v)),
        (Err(e), _) => Err(e),
        (_, Err(e)) => Err(e),
    }
}

/// The names and values that the first `n` fields give.
pub open spec fn parameters_of(fields: Seq<Seq<char>>, n: nat) -> Result<Seq<Parameter>, Seq<char>>
    decreases n,
{
    if n == 0 || n > fields.len() {
        Ok(Seq::empty())
    } else {
        match parameters_of(fields, (n - 1) as nat) {
            Err(e) => Err(e),
            Ok(known) => match parameter_of(fields[n - 1]) {
                Err(e) => Err(e),
                Ok(parameter) => Ok(known.push(parameter)),
            },
        }
    }
}

/// The names and values of a query string.
pub open spec fn query_parameters(s: Seq<char>) -> Result<Seq<Parameter>, Seq<char>> {
    if s.len() == 0 {
        Ok(Seq::empty())
    } else {
        parameters_of(split_on(s, '&'), split_on(s, '&').len())
    }
}

/// The last value with a name.
pub open spec fn value_named(parameters: Seq<Parameter>, name: Seq<char>) -> Option<Seq<char>>
    decreases parameters.len(),
{
    if parameters.len() == 0 {
        None
    } else if parameters.last().0 == name {
        Some(parameters.last().1)
    } else {
        value_named(parameters.drop_last(), name)
    }
}

/// The name and the value that a field gives.
fn parse_parameter(field: &Vec<char>) -> (r: Result<(String, String), &'static str>)
    ensures
        match (r, parameter_of(field@)) {
            (Ok((name, value)), Ok(expected)) => (name@, value@) == expected,
            (Err(e), Err(expected)) => e@ == expected,
            _ => false,
        },
{
    let n: usize = field.len();
    let (name, value) = match find_char(field.as_slice(), '=') {
        Some(i) => {
            let name = copy_range(field.as_slice(), 0, i);
            let value = copy_range(field.as_slice(), i + 1, n);
            proof {
                assert(name@ =~= field@.take(i as int));
                assert(value@ =~= field@.skip(i + 1));
            }
            (name, value)
        },
        None => {
            let name = copy_range(field.as_slice(), 0, n);
            let value: Vec<char> = Vec::new();
            proof {
                assert(name@ =~= field@);
                assert(value@ =~= Seq::empty());
            }
            (name, value)
        },
    };
    let name = string_of(name.as_slice());
    let value = string_of(value.as_slice());
    match percent_decode(name.as_str()) {
        Err(e) => Err(e),
        Ok(name) => match percent_decode(value.as_str()) {
            Err(e) => Err(e),
            Ok(value) => Ok((name, value)),
        },
    }
}

/// The names and values of a query string.
pub fn parse_query_string(input: &str) -> (r: Result<Vec<(String, String)>, &'static str>)
    ensures
        match (r, query_parameters(input@)) {
            (Ok(found), Ok(expected)) => views(found@) == expected,
            (Err(e), Err(expected)) => e@ == expected,
            _ => false,
        },
{
    let chars = chars_of(input);
    let mut output: Vec<(String, String)> = Vec::new();
    assert(views(output@) =~= Seq::empty());
    if chars.len() == 0 {
        return Ok(output);
    }
    let fields = split_chars(chars.as_slice(), '&');
    let ghost all = split_on(input@, '&');
    assert(views(fields@) == all);
    let mut i: usize = 0;
    while i < fields.len()
        invariant
            i <= fields@.len(),
            views(fields@) == all,
            input@.len() > 0,
            all == split_on(input@, '&'),
            parameters_of(all, i as nat) == Ok::<Seq<Parameter>, Seq<char>>(views(output@)),
        decreases fields.len() - i,
    {
        let ghost known = views(output@);
        assert(all[i as int] == fields@[i as int]@);
        match parse_parameter(&fields[i]) {
            Err(e) => {
                proof {
                    lemma_fault_stays(all, (i + 1) as nat, all.len());
                }
                return Err(e);
            },
            Ok(parameter) => {
                let ghost seen = (parameter.0@, parameter.1@);
                output.push(parameter);
                proof {
                    assert(views(output@) =~= known.push(seen));
                }
            },
        }
        i += 1;
    }
    Ok(output)
}

proof fn lemma_fault_stays(fields: Seq<Seq<char>>, m: nat, n: nat)
    requires
        m <= n <= fields.len(),
        parameters_of(fields, m) is Err,
    ensures
        parameters_of(fields, n) == parameters_of(fields, m),
    decreases n,
{
    if m < n {
        lemma_fault_stays(fields, m, (n - 1) as nat);
    }
}

/// The last value with a name.
pub fn find_parameter<'a>(parameters: &'a Vec<(String, String)>, name: &str) -> (r: Option<&'a str>)
    ensures
        match (r, value_named(views(parameters@), name@)) {
            (Some(value), Some(expected)) => value@ == expected,
            (None, None) => true,
            _ => false,
        },
{
    let ghost all = views(parameters@);
    let wanted = chars_of(name);
    let mut i: usize = parameters.len();
    assert(all.take(i as int) =~= all);
    while i > 0
        invariant
            i <= parameters@.len(),
            all == views(parameters@),
            wanted@ == name@,
            value_named(all, name@) == value_named(all.take(i as int), name@),
        decreases i,
    {
        proof {
            assert(all.take(i as int).last() == all[i - 1]);
            assert(all.take(i as int).drop_last() =~= all.take(i - 1));
        }
        i -= 1;
        let here = chars_of(parameters[i].0.as_str());
        if same_chars(here.as_slice(), wanted.as_slice()) {
            return Some(parameters[i].1.as_str());
        }
    }
    None
}

} // verus!
