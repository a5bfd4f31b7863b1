//! What is answered to a search.
use crate::search::types::{search_error_text, SearchError, SearchReport};
use crate::web::http::{
    encodes, json_error, says_disconnected, ConnectionError, StaticResponse,
};
use crate::web::output::{
    error_event, error_event_line, error_json, queued_event, queued_event_line, report_json,
    search_event_line, search_report_json,
};
use vstd::prelude::*;
use vstd::string::*;

verus! {

/// What is said where the queue is full.
pub open spec fn queue_full_text() -> Seq<char> {
    "搜索队列已满，请稍后重试"@
}

/// The answer to a search that was done.
pub fn search_answer(result: &Result<SearchReport, SearchError>) -> (r: StaticResponse)
    ensures
        r.content_type@ == "application/json; charset=utf-8"@,
        r.cache_control@ == "no-store"@,
        match *result {
            Ok(report) => r.status == 200 && encodes(r.body@, report_json(None, report)),
            Err(e) => r.status == 422 && encodes(r.body@, error_json(search_error_text(e@))),
        },
{
    match result {
        Ok(report) => {
            let text = search_report_json(report);
            StaticResponse::json(200, text.as_str())
        },
        Err(e) => {
            let message = e.to_text();
            json_error(422, message.as_str())
        },
    }
}

/// The answer where the queue is full.
pub fn queue_full_answer() -> (r: StaticResponse)
    ensures
        r.status == 429,
        r.content_type@ == "application/json; charset=utf-8"@,
        r.cache_control@ == "no-store"@,
        encodes(r.body@, error_json(queue_full_text())),
{
    json_error(429, "搜索队列已满，请稍后重试")
}

/// How a stream of events begins, when the search has asked for its place.
#[derive(Clone, Debug, PartialEq, Eq)]
pub enum StreamOpening {
    /// The queue is full: this line is sent, and the stream ends.
    Full(String),
    /// Others are before it: this line is sent, and the search waits.
    Queued(String),
    /// Nothing is before it.
    Ready,
}

/// How a stream begins for a search with so many before it, or with no place in
/// the queue.
pub fn open_stream(ahead: Option<usize>) -> (r: StreamOpening)
    ensures
        match ahead {
            None => r matches StreamOpening::Full(line) && line@ == error_event(queue_full_text()),
            Some(n) => if n > 0 {
                r matches StreamOpening::Queued(line) && line@ == queued_event(n as nat)
            } else {
                r is Ready
            },
        },
{
    match ahead {
        None => StreamOpening::Full(error_event_line("搜索队列已满，请稍后重试")),
        Some(n) => {
            if n > 0 {
                StreamOpening::Queued(queued_event_line(n))
            } else {
                StreamOpening::Ready
            }
        },
    }
}

/// What becomes of a stream when a line could not be sent.
#[derive(Clone, Copy, Debug, PartialEq, Eq, Structural)]
pub enum StreamLoss {
    /// The other side has left: nothing more is done.
    Left,
    /// The error is one of the server.
    Fault,
}

/// What becomes of a stream when a line could not be sent.
pub fn stream_loss(e: ConnectionError) -> (r: StreamLoss)
    ensures
        r == (if says_disconnected(e) {
            StreamLoss::Left
        } else {
            StreamLoss::Fault
        }),
{
    if crate::web::http::is_disconnect_io_error(e) {
        StreamLoss::Left
    } else {
        StreamLoss::Fault
    }
}

/// The last line of a stream.
pub fn close_stream(result: &Result<SearchReport, SearchError>) -> (r: String)
    ensures
        match *result {
            Ok(report) => r@ == report_json(Some("complete"@), report).push('\n'),
            Err(e) => r@ == error_event(search_error_text(e@)),
        },
{
    match result {
        Ok(report) => search_event_line("complete", report),
        Err(e) => {
            let message = e.to_text();
            error_event_line(message.as_str())
        },
    }
}

} // verus!
