//! Requests for a search.
use crate::chinese::data::{ChineseData, DataView};
use crate::query::grammar::{byte_of, read_query};
use crate::query::parser::parse_error_text;
use crate::query::program::Program;
use crate::search::types::SearchOptions;
use crate::text::{chars_of, lemma_utf8_size, parse_unsigned, unsigned_value, utf8_size};
use crate::web::http::{encodes, json_error, StaticResponse};
use crate::web::output::error_json;
use crate::web::url::{find_parameter, parse_query_string, query_parameters, value_named};
use vstd::prelude::*;
use vstd::string::*;

verus! {

/// How many bytes a query may have.
pub const QUERY_LIMIT: usize = 2048;

/// How many results a request may ask for.
pub const RESULT_LIMIT: usize = 500;

/// A search that is asked for.
pub struct SearchRequest {
    pub query: String,
    pub program: Program,
    pub options: SearchOptions,
}

/// A request that cannot be served, with the query as far as it is known.
#[derive(Clone, Debug, PartialEq, Eq)]
pub struct RefusedSearch {
    pub query: Option<String>,
    pub message: String,
    pub response: StaticResponse,
}

/// The number of results that a request asks for.
pub open spec fn limit_of(s: Seq<char>) -> Option<nat> {
    match unsigned_value(s, 10) {
        Some(n) => if 1 <= n <= RESULT_LIMIT {
            Some(n)
        } else {
            None
        },
        None => None,
    }
}

/// The query and the options that a request asks for; or the query, if it is
/// known, and what is wrong.
pub open spec fn request_of(s: Seq<char>, base: SearchOptions, data: DataView) -> Result<
    (Seq<char>, SearchOptions),
    (Option<Seq<char>>, Seq<char>),
> {
    match query_parameters(s) {
        Err(message) => Err((None, message)),
        Ok(parameters) => match value_named(parameters, "q"@) {
            None => Err((None, "缺少查询参数 q"@)),
            Some(query) => if query.len() == 0 || utf8_size(query) > QUERY_LIMIT {
                Err((Some(query), "查询不能为空且不得超过 2048 个 UTF-8 字节"@))
            } else {
                match value_named(parameters, "limit"@) {
                    None => query_of(query, base, data),
                    Some(limit) => match limit_of(limit) {
                        None => Err((Some(query), "limit 必须在 1..=500 范围内"@)),
                        Some(n) => query_of(
                            query,
                            SearchOptions { limit: n as usize, ..base },
                            data,
                        ),
                    },
                }
            },
        },
    }
}

/// The query with its options, unless it cannot be read.
pub open spec fn query_of(query: Seq<char>, options: SearchOptions, data: DataView) -> Result<
    (Seq<char>, SearchOptions),
    (Option<Seq<char>>, Seq<char>),
> {
    match read_query(query, data) {
        Ok(_) => Ok((query, options)),
        Err(fault) => Err(
            (Some(query), parse_error_text(byte_of(query, fault.at), fault.message)),
        ),
    }
}

/// The program is that of the query.
pub open spec fn program_of(program: Program, query: Seq<char>, data: DataView) -> bool {
    read_query(query, data) matches Ok((re, end)) && program@.wf() && program@.expr == re
        && program@.classes == end.classes && program@.capture_count == end.groups.len() as u32
}

/// The answer to a request that cannot be served.
fn refuse(query: Option<&str>, message: &str) -> (r: RefusedSearch)
    ensures
        r.message@ == message@,
        match (query, r.query) {
            (Some(given), Some(kept)) => given@ == kept@,
            (None, None) => true,
            _ => false,
        },
        r.response.status == 400,
        r.response.content_type@ == "application/json; charset=utf-8"@,
        r.response.cache_control@ == "no-store"@,
        encodes(r.response.body@, error_json(message@)),
{
    RefusedSearch {
        query: match query {
            Some(query) => Some(query.to_owned()),
            None => None,
        },
        message: message.to_owned(),
        response: json_error(400, message),
    }
}

/// The search that a query string asks for.
pub fn parse_search_request(
    query_string: &str,
    base: &SearchOptions,
    data: &ChineseData,
) -> (r: Result<SearchRequest, RefusedSearch>)
    requires
        data.wf(),
    ensures
        match (r, request_of(query_string@, *base, data@)) {
            (Ok(request), Ok((query, options))) => {
                &&& request.query@ == query
                &&& request.options == options
                &&& program_of(request.program, query, data@)
            },
            (Err(refused), Err((query, message))) => {
                &&& refused.message@ == message
                &&& match (refused.query, query) {
                    (Some(given), Some(expected)) => given@ == expected,
                    (None, None) => true,
                    _ => false,
                }
                &&& refused.response.status == 400
                &&& refused.response.content_type@ == "application/json; charset=utf-8"@
                &&& refused.response.cache_control@ == "no-store"@
                &&& encodes(refused.response.body@, error_json(message))
            },
            _ => false,
        },
{
    let parameters = match parse_query_string(query_string) {
        Ok(parameters) => parameters,
        Err(message) => {
            return Err(refuse(None, message));
        },
    };
    let query = match find_parameter(&parameters, "q") {
        Some(query) => query,
        None => {
            return Err(refuse(None, "缺少查询参数 q"));
        },
    };
    let size: usize = query.as_bytes().len();
    let chars = chars_of(query);
    proof {
        lemma_utf8_size(query@);
    }
    if chars.len() == 0 || size > QUERY_LIMIT {
        return Err(refuse(Some(query), "查询不能为空且不得超过 2048 个 UTF-8 字节"));
    }
    let mut options = *base;
    if let Some(limit) = find_parameter(&parameters, "limit") {
        let digits = chars_of(limit);
        match parse_unsigned(digits.as_slice(), 10, RESULT_LIMIT as u64) {
            Some(n) => {
                if n == 0 {
                    return Err(refuse(Some(query), "limit 必须在 1..=500 范围内"));
                }
                options.limit = n as usize;
            },
            None => {
                return Err(refuse(Some(query), "limit 必须在 1..=500 范围内"));
            },
        }
    }
    match Program::parse(query, data) {
        Ok(program) => Ok(SearchRequest { query: query.to_owned(), program, options }),
        Err(e) => {
            let message = e.to_text();
            Err(refuse(Some(query), message.as_str()))
        },
    }
}

} // verus!
