//! Requests and responses.
use crate::text::{
    chars_of, decimal, decimal_of, find_char, first_place, is_white, spells, string_of, utf8_text,
    white,
};
use crate::web::output::{error_json, error_message_json};
use vstd::prelude::*;
use vstd::string::*;
use vstd::utf8::{decode_utf8, encode_utf8, valid_utf8};

verus! {

/// How long a request may be.
pub const REQUEST_LIMIT: usize = 16384;

/// How many searches may wait.
pub const MAX_QUEUED_SEARCHES: usize = 32;

/// The bytes are those of a text.
pub open spec fn encodes(bytes: Seq<u8>, text: Seq<char>) -> bool {
    bytes == encode_utf8(text)
}

/// The bytes of a text.
pub(crate) fn bytes_of(text: &str) -> (r: Vec<u8>)
    ensures
        encodes(r@, text@),
{
    let bytes = text.as_bytes();
    let mut out: Vec<u8> = Vec::new();
    out.extend_from_slice(bytes);
    proof {
        assert(out@ =~= bytes@);
    }
    out
}

/// Two bytes or four stand at a place.
pub open spec fn blank_line_at(data: Seq<u8>, i: int) -> bool {
    (i + 1 < data.len() && data[i] == 10 && data[i + 1] == 10) || (i + 3 < data.len() && data[i]
        == 13 && data[i + 1] == 10 && data[i + 2] == 13 && data[i + 3] == 10)
}

/// A request has come to its blank line.
pub open spec fn has_blank_line(data: Seq<u8>) -> bool {
    exists|i: int| 0 <= i < data.len() && #[trigger] blank_line_at(data, i)
}

/// What is to be done with what has been read of a request.
#[derive(Clone, Copy, Debug, PartialEq, Eq, Structural)]
pub enum RequestState {
    Complete,
    TooLong,
    More,
}

/// The text of a request; or what is wrong where it is none.
pub fn request_text(data: &[u8]) -> (r: Result<String, &'static str>)
    ensures
        match r {
            Ok(text) => valid_utf8(data@) && text@ == decode_utf8(data@),
            Err(message) => !valid_utf8(data@) && message@ == "HTTP 请求头不是 UTF-8"@,
        },
{
    match utf8_text(data) {
        Some(text) => Ok(text),
        None => Err("HTTP 请求头不是 UTF-8"),
    }
}

/// What is to be done with what has been read of a request.
pub fn request_state(data: &[u8]) -> (r: RequestState)
    ensures
        r == (if has_blank_line(data@) {
            RequestState::Complete
        } else if data@.len() > REQUEST_LIMIT {
            RequestState::TooLong
        } else {
            RequestState::More
        }),
{
    let n: usize = data.len();
    let mut i: usize = 0;
    while i < n
        invariant
            i <= n,
            n == data@.len(),
            forall|k: int| 0 <= k < i ==> !#[trigger] blank_line_at(data@, k),
        decreases n - i,
    {
        if (n - i > 1 && data[i] == 10 && data[i + 1] == 10) || (n - i > 3 && data[i] == 13
            && data[i + 1] == 10 && data[i + 2] == 13 && data[i + 3] == 10) {
            proof {
                assert(blank_line_at(data@, i as int));
            }
            return RequestState::Complete;
        }
        i += 1;
    }
    if n > REQUEST_LIMIT {
        RequestState::TooLong
    } else {
        RequestState::More
    }
}

/// The words that end within the first `n` characters, and the one that does
/// not.
pub open spec fn words_of(s: Seq<char>, n: nat) -> (Seq<Seq<char>>, Seq<char>)
    decreases n,
{
    if n == 0 || n > s.len() {
        (Seq::empty(), Seq::empty())
    } else {
        let (ended, open) = words_of(s, (n - 1) as nat);
        if !white(s[n - 1]) {
            (ended, open.push(s[n - 1]))
        } else if open.len() > 0 {
            (ended.push(open), Seq::empty())
        } else {
            (ended, open)
        }
    }
}

/// The words of a text.
pub open spec fn all_words(s: Seq<char>) -> Seq<Seq<char>> {
    let (ended, open) = words_of(s, s.len());
    if open.len() > 0 {
        ended.push(open)
    } else {
        ended
    }
}

/// A word, or nothing where there are fewer.
pub open spec fn word_at(words: Seq<Seq<char>>, i: int) -> Seq<char> {
    if 0 <= i < words.len() {
        words[i]
    } else {
        Seq::empty()
    }
}

/// The words of a text.
fn split_words(s: &[char]) -> (r: Vec<Vec<char>>)
    ensures
        crate::ordered::views(r@) == all_words(s@),
{
    let mut words: Vec<Vec<char>> = Vec::new();
    let mut open: Vec<char> = Vec::new();
    let mut i: usize = 0;
    assert(crate::ordered::views(words@) =~= words_of(s@, 0).0);
    assert(open@ =~= words_of(s@, 0).1);
    while i < s.len()
        invariant
            i <= s@.len(),
            crate::ordered::views(words@) == words_of(s@, i as nat).0,
            open@ == words_of(s@, i as nat).1,
        decreases s.len() - i,
    {
        let ghost ended = crate::ordered::views(words@);
        let ghost part = open@;
        if !is_white(s[i]) {
            open.push(s[i]);
        } else if open.len() > 0 {
            words.push(open);
            open = Vec::new();
            proof {
                assert(crate::ordered::views(words@) =~= ended.push(part));
                assert(open@ =~= Seq::empty());
            }
        }
        i += 1;
    }
    if open.len() > 0 {
        let ghost ended = crate::ordered::views(words@);
        let ghost part = open@;
        words.push(open);
        proof {
            assert(crate::ordered::views(words@) =~= ended.push(part));
        }
    }
    words
}

/// A page that does not change.
#[derive(Clone, Copy, Debug, PartialEq, Eq, Structural)]
pub enum Page {
    Home,
    Usage,
    Style,
    Script,
    Robots,
    Icon,
    Picture,
}

/// What a request asks for.
#[derive(Clone, Debug, PartialEq, Eq)]
pub enum Route {
    /// The method or the version is not served.
    Refused,
    Page(Page),
    Health,
    /// A search, answered at once.
    Search(String),
    /// A search, answered bit by bit.
    Stream(String),
    NotFound,
}

/// The mathematical content of a [`Route`].
pub enum RouteView {
    Refused,
    Page(Page),
    Health,
    Search(Seq<char>),
    Stream(Seq<char>),
    NotFound,
}

impl View for Route {
    type V = RouteView;

    open spec fn view(&self) -> RouteView {
        match *self {
            Route::Refused => RouteView::Refused,
            Route::Page(page) => RouteView::Page(page),
            Route::Health => RouteView::Health,
            Route::Search(query) => RouteView::Search(query@),
            Route::Stream(query) => RouteView::Stream(query@),
            Route::NotFound => RouteView::NotFound,
        }
    }
}

/// The text begins with the name of a version that is served.
pub open spec fn served_version(version: Seq<char>) -> bool {
    version.len() >= 7 && version.take(7) == "HTTP/1."@
}

/// The page at a path.
pub open spec fn page_at(path: Seq<char>) -> Option<Page> {
    if path == "/"@ || path == "/index.html"@ {
        Some(Page::Home)
    } else if path == "/usage.html"@ {
        Some(Page::Usage)
    } else if path == "/style.css"@ {
        Some(Page::Style)
    } else if path == "/app.js"@ {
        Some(Page::Script)
    } else if path == "/robots.txt"@ {
        Some(Page::Robots)
    } else if path == "/favicon.ico"@ {
        Some(Page::Icon)
    } else if path == "/nutritea-small.jpg"@ {
        Some(Page::Picture)
    } else {
        None
    }
}

/// What a target asks for.
pub open spec fn target_route(target: Seq<char>) -> RouteView {
    let (path, query) = match first_place(target, '?') {
        Some(i) => (target.take(i), target.skip(i + 1)),
        None => (target, Seq::empty()),
    };
    if path == "/api/search/stream"@ {
        RouteView::Stream(query)
    } else if path == "/api/search"@ {
        RouteView::Search(query)
    } else if path == "/healthz"@ {
        RouteView::Health
    } else {
        match page_at(path) {
            Some(page) => RouteView::Page(page),
            None => RouteView::NotFound,
        }
    }
}

/// The first line of a text.
pub open spec fn first_line(s: Seq<char>) -> Seq<char> {
    match first_place(s, '\n') {
        Some(i) => s.take(i),
        None => s,
    }
}

/// What a request asks for, and whether only the head of the answer is sent.
pub open spec fn route_of(request: Seq<char>) -> (bool, RouteView) {
    let words = all_words(first_line(request));
    let method = word_at(words, 0);
    let head = method == "HEAD"@;
    if (method == "GET"@ || head) && served_version(word_at(words, 2)) {
        (head, target_route(word_at(words, 1)))
    } else {
        (head, RouteView::Refused)
    }
}

fn is_served_version(version: &[char]) -> (r: bool)
    ensures
        r == served_version(version@),
{
    if version.len() < 7 {
        return false;
    }
    proof {
        assert(version@.subrange(0, 7) =~= version@.take(7));
    }
    spells(&version[0..7], "HTTP/1.")
}

fn find_page(path: &[char]) -> (r: Option<Page>)
    ensures
        r == page_at(path@),
{
    if spells(path, "/") || spells(path, "/index.html") {
        Some(Page::Home)
    } else if spells(path, "/usage.html") {
        Some(Page::Usage)
    } else if spells(path, "/style.css") {
        Some(Page::Style)
    } else if spells(path, "/app.js") {
        Some(Page::Script)
    } else if spells(path, "/robots.txt") {
        Some(Page::Robots)
    } else if spells(path, "/favicon.ico") {
        Some(Page::Icon)
    } else if spells(path, "/nutritea-small.jpg") {
        Some(Page::Picture)
    } else {
        None
    }
}

fn route_target(target: &[char]) -> (r: Route)
    ensures
        r@ == target_route(target@),
{
    let n: usize = target.len();
    let mut end: usize = n;
    let mut from: usize = n;
    proof {
        assert(target@.subrange(0, n as int) =~= target@);
        assert(target@.subrange(n as int, n as int) =~= Seq::empty());
    }
    if let Some(i) = find_char(target, '?') {
        end = i;
        from = i + 1;
        proof {
            assert(target@.subrange(0, i as int) =~= target@.take(i as int));
            assert(target@.subrange(i + 1, n as int) =~= target@.skip(i + 1));
        }
    }
    let path = &target[0..end];
    let query = &target[from..n];
    if spells(path, "/api/search/stream") {
        Route::Stream(string_of(query))
    } else if spells(path, "/api/search") {
        Route::Search(string_of(query))
    } else if spells(path, "/healthz") {
        Route::Health
    } else {
        match find_page(path) {
            Some(page) => Route::Page(page),
            None => Route::NotFound,
        }
    }
}

/// What a request asks for, and whether only the head of the answer is sent.
pub fn route_request(request: &str) -> (r: (bool, Route))
    ensures
        (r.0, r.1@) == route_of(request@),
{
    let chars = chars_of(request);
    let n: usize = chars.len();
    let mut end: usize = n;
    proof {
        assert(chars@.subrange(0, n as int) =~= chars@);
    }
    if let Some(i) = find_char(chars.as_slice(), '\n') {
        end = i;
        proof {
            assert(chars@.subrange(0, i as int) =~= chars@.take(i as int));
        }
    }
    let words = split_words(&chars[0..end]);
    let ghost all = all_words(first_line(request@));
    let nothing: Vec<char> = Vec::new();
    proof {
        assert(nothing@ =~= Seq::empty());
    }
    let method = if words.len() > 0 {
        assert(all[0] == words@[0]@);
        words[0].as_slice()
    } else {
        nothing.as_slice()
    };
    let target = if words.len() > 1 {
        assert(all[1] == words@[1]@);
        words[1].as_slice()
    } else {
        nothing.as_slice()
    };
    let version = if words.len() > 2 {
        assert(all[2] == words@[2]@);
        words[2].as_slice()
    } else {
        nothing.as_slice()
    };
    let head = spells(method, "HEAD");
    if (spells(method, "GET") || head) && is_served_version(version) {
        (head, route_target(target))
    } else {
        (head, Route::Refused)
    }
}

/// A response with all of its body.
#[derive(Clone, Debug, PartialEq, Eq)]
pub struct StaticResponse {
    pub status: u16,
    pub content_type: &'static str,
    pub body: Vec<u8>,
    pub cache_control: &'static str,
}

/// The content type of a page.
pub open spec fn page_type(page: Page) -> Seq<char> {
    match page {
        Page::Home => "text/html; charset=utf-8"@,
        Page::Usage => "text/html; charset=utf-8"@,
        Page::Style => "text/css; charset=utf-8"@,
        Page::Script => "text/javascript; charset=utf-8"@,
        Page::Robots => "text/plain; charset=utf-8"@,
        Page::Icon => "image/x-icon"@,
        Page::Picture => "image/jpg"@,
    }
}

impl StaticResponse {
    /// A page.
    pub fn page(page: Page, body: &[u8]) -> (r: Self)
        ensures
            r.status == 200,
            r.content_type@ == page_type(page),
            r.body@ == body@,
            r.cache_control@ == "public, max-age=300"@,
    {
        let content_type = match page {
            Page::Home => "text/html; charset=utf-8",
            Page::Usage => "text/html; charset=utf-8",
            Page::Style => "text/css; charset=utf-8",
            Page::Script => "text/javascript; charset=utf-8",
            Page::Robots => "text/plain; charset=utf-8",
            Page::Icon => "image/x-icon",
            Page::Picture => "image/jpg",
        };
        let mut copy: Vec<u8> = Vec::new();
        copy.extend_from_slice(body);
        proof {
            assert(copy@ =~= body@);
        }
        StaticResponse {
            status: 200,
            content_type,
            body: copy,
            cache_control: "public, max-age=300",
        }
    }

    /// JSON.
    pub fn json(status: u16, text: &str) -> (r: Self)
        ensures
            r.status == status,
            r.content_type@ == "application/json; charset=utf-8"@,
            encodes(r.body@, text@),
            r.cache_control@ == "no-store"@,
    {
        StaticResponse {
            status,
            content_type: "application/json; charset=utf-8",
            body: bytes_of(text),
            cache_control: "no-store",
        }
    }

    /// Plain text.
    fn plain(status: u16, text: &str) -> (r: Self)
        ensures
            r.status == status,
            r.content_type@ == "text/plain; charset=utf-8"@,
            encodes(r.body@, text@),
            r.cache_control@ == "no-store"@,
    {
        StaticResponse {
            status,
            content_type: "text/plain; charset=utf-8",
            body: bytes_of(text),
            cache_control: "no-store",
        }
    }

    /// The answer where the method or the version is not served.
    pub fn refused() -> (r: Self)
        ensures
            r.status == 405,
            r.content_type@ == "text/plain; charset=utf-8"@,
            encodes(r.body@, "Method Not Allowed\n"@),
            r.cache_control@ == "no-store"@,
    {
        StaticResponse::plain(405, "Method Not Allowed\n")
    }

    /// The answer where nothing is at the path.
    pub fn not_found() -> (r: Self)
        ensures
            r.status == 404,
            r.content_type@ == "text/plain; charset=utf-8"@,
            encodes(r.body@, "Not Found\n"@),
            r.cache_control@ == "no-store"@,
    {
        StaticResponse::plain(404, "Not Found\n")
    }

    /// The answer that the server runs.
    pub fn health() -> (r: Self)
        ensures
            r.status == 200,
            r.content_type@ == "application/json; charset=utf-8"@,
            encodes(r.body@, "{\"ok\":true}"@),
            r.cache_control@ == "no-store"@,
    {
        StaticResponse::json(200, "{\"ok\":true}")
    }
}

/// The answer with a message of an error.
pub fn json_error(status: u16, message: &str) -> (r: StaticResponse)
    ensures
        r.status == status,
        r.content_type@ == "application/json; charset=utf-8"@,
        encodes(r.body@, error_json(message@)),
        r.cache_control@ == "no-store"@,
{
    let text = error_message_json(message);
    StaticResponse::json(status, text.as_str())
}

/// The words for a status.
pub open spec fn reason_of(status: u16) -> Seq<char> {
    if status == 200 {
        "OK"@
    } else if status == 400 {
        "Bad Request"@
    } else if status == 404 {
        "Not Found"@
    } else if status == 405 {
        "Method Not Allowed"@
    } else if status == 429 {
        "Too Many Requests"@
    } else if status == 422 {
        "Unprocessable Content"@
    } else {
        "Error"@
    }
}

fn reason(status: u16) -> (r: &'static str)
    ensures
        r@ == reason_of(status),
{
    if status == 200 {
        "OK"
    } else if status == 400 {
        "Bad Request"
    } else if status == 404 {
        "Not Found"
    } else if status == 405 {
        "Method Not Allowed"
    } else if status == 429 {
        "Too Many Requests"
    } else if status == 422 {
        "Unprocessable Content"
    } else {
        "Error"
    }
}

/// The headers that every answer ends with.
pub open spec fn last_headers() -> Seq<char> {
    "X-Content-Type-Options: nosniff\r\nReferrer-Policy: no-referrer\r\nContent-Security-Policy: default-src 'self'; img-src 'self'; style-src 'self'; script-src 'self'; connect-src 'self'\r\nConnection: close\r\n\r\n"@
}

/// The head of an answer.
pub open spec fn head_of(status: u16, content_type: Seq<char>, length: nat, cache: Seq<char>) -> Seq<
    char,
> {
    "HTTP/1.1 "@ + decimal(status as nat) + " "@ + reason_of(status) + "\r\nContent-Type: "@
        + content_type + "\r\nContent-Length: "@ + decimal(length) + "\r\nCache-Control: "@ + cache
        + "\r\n"@ + last_headers()
}

/// The head of an answer.
pub fn response_head(response: &StaticResponse) -> (r: String)
    ensures
        r@ == head_of(
            response.status,
            response.content_type@,
            response.body@.len(),
            response.cache_control@,
        ),
{
    let mut out = "HTTP/1.1 ".to_owned();
    out.append(decimal_of(response.status as u64).as_str());
    out.append(" ");
    out.append(reason(response.status));
    out.append("\r\nContent-Type: ");
    out.append(response.content_type);
    out.append("\r\nContent-Length: ");
    out.append(decimal_of(response.body.len() as u64).as_str());
    out.append("\r\nCache-Control: ");
    out.append(response.cache_control);
    out.append("\r\n");
    out.append(
        "X-Content-Type-Options: nosniff\r\nReferrer-Policy: no-referrer\r\nContent-Security-Policy: default-src 'self'; img-src 'self'; style-src 'self'; script-src 'self'; connect-src 'self'\r\nConnection: close\r\n\r\n",
    );
    out
}

/// The head of an answer that comes bit by bit.
pub open spec fn stream_head_text() -> Seq<char> {
    "HTTP/1.1 200 OK\r\nContent-Type: application/x-ndjson; charset=utf-8\r\nTransfer-Encoding: chunked\r\nCache-Control: no-store, no-transform\r\nX-Accel-Buffering: no\r\n"@
        + last_headers()
}

/// The head of an answer that comes bit by bit.
pub fn stream_head() -> (r: String)
    ensures
        r@ == stream_head_text(),
{
    let mut out =
        "HTTP/1.1 200 OK\r\nContent-Type: application/x-ndjson; charset=utf-8\r\nTransfer-Encoding: chunked\r\nCache-Control: no-store, no-transform\r\nX-Accel-Buffering: no\r\n".to_owned();
    out.append(
        "X-Content-Type-Options: nosniff\r\nReferrer-Policy: no-referrer\r\nContent-Security-Policy: default-src 'self'; img-src 'self'; style-src 'self'; script-src 'self'; connect-src 'self'\r\nConnection: close\r\n\r\n",
    );
    out
}

/// A hexadecimal digit as a byte, in capitals.
pub open spec fn hex_digit_byte(d: int) -> u8 {
    if d < 10 {
        (48 + d) as u8
    } else {
        (55 + d) as u8
    }
}

/// A number in hexadecimal as bytes, in capitals, without leading zeros.
pub open spec fn hex_bytes_of(n: nat) -> Seq<u8>
    decreases n,
{
    if n < 16 {
        seq![hex_digit_byte(n as int)]
    } else {
        hex_bytes_of(n / 16).push(hex_digit_byte((n % 16) as int))
    }
}

/// The bytes of a number in hexadecimal.
fn hex_length(n: usize) -> (r: Vec<u8>)
    ensures
        r@ == hex_bytes_of(n as nat),
    decreases n,
{
    let d: u8 = (n % 16) as u8;
    let digit: u8 = if d < 10 {
        48 + d
    } else {
        55 + d
    };
    if n < 16 {
        let mut out: Vec<u8> = Vec::new();
        out.push(digit);
        proof {
            assert(out@ =~= seq![hex_digit_byte(n as int)]);
        }
        out
    } else {
        let mut out = hex_length(n / 16);
        out.push(digit);
        out
    }
}

/// A bit of an answer, with its length before it.
pub open spec fn chunk_of(body: Seq<u8>) -> Seq<u8> {
    hex_bytes_of(body.len()) + seq![13u8, 10u8] + body + seq![13u8, 10u8]
}

/// A bit of an answer, with its length before it.
pub fn http_chunk(body: &[u8]) -> (r: Vec<u8>)
    ensures
        r@ == chunk_of(body@),
{
    let mut out = hex_length(body.len());
    out.push(13);
    out.push(10);
    out.extend_from_slice(body);
    out.push(13);
    out.push(10);
    proof {
        assert(out@ =~= chunk_of(body@));
    }
    out
}

/// The end of an answer that comes bit by bit.
pub fn last_chunk() -> (r: Vec<u8>)
    ensures
        r@ == seq![48u8, 13u8, 10u8, 13u8, 10u8],
{
    let mut out: Vec<u8> = Vec::new();
    out.push(48);
    out.push(13);
    out.push(10);
    out.push(13);
    out.push(10);
    proof {
        assert(out@ =~= seq![48u8, 13u8, 10u8, 13u8, 10u8]);
    }
    out
}

/// How many searches there are with a further one, of so many that wait or run;
/// none where the queue is full.
pub fn admit_search(in_system: usize) -> (r: Option<usize>)
    ensures
        r == (if in_system >= MAX_QUEUED_SEARCHES + 1 {
            None
        } else {
            Some((in_system + 1) as usize)
        }),
{
    if in_system >= MAX_QUEUED_SEARCHES + 1 {
        None
    } else {
        Some(in_system + 1)
    }
}

/// What kind of error a connection gave.
#[derive(Clone, Copy, Debug, PartialEq, Eq, Structural)]
pub enum ConnectionError {
    BrokenPipe,
    ConnectionAborted,
    ConnectionReset,
    NotConnected,
    UnexpectedEof,
    /// Any other error of input or output.
    Other,
    /// An error of another kind.
    Foreign,
}

/// The error says that the other side has left.
pub open spec fn says_disconnected(e: ConnectionError) -> bool {
    !(e is Other) && !(e is Foreign)
}

/// Whether the error says that the other side has left.
pub fn is_disconnect_io_error(e: ConnectionError) -> (r: bool)
    ensures
        r == says_disconnected(e),
{
    match e {
        ConnectionError::Other => false,
        ConnectionError::Foreign => false,
        _ => true,
    }
}

/// Whether an error, or one of those that led to it, says that the other side
/// has left.
pub fn is_client_disconnect(chain: &Vec<ConnectionError>) -> (r: bool)
    ensures
        r == (exists|i: int| 0 <= i < chain@.len() && says_disconnected(#[trigger] chain@[i])),
{
    let mut i: usize = 0;
    while i < chain.len()
        invariant
            i <= chain@.len(),
            forall|k: int| 0 <= k < i ==> !says_disconnected(#[trigger] chain@[k]),
        decreases chain.len() - i,
    {
        if is_disconnect_io_error(chain[i]) {
            return true;
        }
        i += 1;
    }
    false
}

} // verus!
