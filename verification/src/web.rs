//! The HTTP endpoint for Kubernetes-style probes and the Prometheus lifecycle
//! API.
//!
//! Serves exactly what an agent deployment needs and nothing more - no web
//! UI, no TSDB endpoints, no TLS:
//!
//! - `GET /metrics`   - the agent's own metrics
//! - `GET /-/healthy` - liveness, always 200 while the process runs
//! - `GET /-/ready`   - readiness, 200 once scraping has started
//! - `POST /-/reload` - config reload (403 unless `--web.enable-lifecycle`)
//! - `POST /-/quit`   - graceful shutdown (403 unless lifecycle is enabled)
//!
//! The protocol is hand-rolled: probe traffic is a handful of tiny GET
//! requests per second, not worth an HTTP framework dependency.

use crate::text;
use crate::text::{chars_of, joined, string_between, text_eq, u64_text};
use vstd::prelude::*;
use vstd::string::*;
use vstd::utf8::*;

verus! {

/// Readiness; set by the main loop.
#[derive(Debug, Clone, Copy)]
pub struct WebState {
    pub ready: bool,
}

impl Default for WebState {
    fn default() -> (r: Self)
        ensures
            !r.ready,
    {
        WebState { ready: false }
    }
}

/// What the lifecycle API asks of the main loop.
#[derive(Debug, Clone, Copy, PartialEq, Eq, Structural)]
pub enum LifecycleCommand {
    Reload,
    Quit,
}

// --- reading a request ---
/// Whether the bytes from `i` on start with the blank line that ends headers.
pub open spec fn blank_line_at(bytes: Seq<u8>, i: int) -> bool {
    0 <= i && i + 4 <= bytes.len() && bytes[i] == 0x0d && bytes[i + 1] == 0x0a && bytes[i + 2]
        == 0x0d && bytes[i + 3] == 0x0a
}

/// Whether a request is read far enough: to the end of its headers, or past
/// 8192 bytes. Probe requests have no meaningful body.
pub fn request_complete(request: &[u8]) -> (r: bool)
    ensures
        r == ((exists|i: int| #[trigger] blank_line_at(request@, i)) || request@.len() > 8192),
{
    if request.len() > 8192 {
        return true;
    }
    let mut i: usize = 0;
    while i + 4 <= request.len()
        invariant
            i <= request@.len() <= 8192,
            forall|k: int| 0 <= k < i ==> !#[trigger] blank_line_at(request@, k),
        decreases request@.len() - i,
    {
        if request[i] == 0x0d && request[i + 1] == 0x0a && request[i + 2] == 0x0d && request[i + 3]
            == 0x0a {
            assert(blank_line_at(request@, i as int));
            return true;
        }
        i += 1;
    }
    false
}

/// The position of a character from `i` on, or the length.
pub open spec fn char_position(s: Seq<char>, c: char, i: int) -> int
    decreases s.len() - i,
{
    if i >= s.len() {
        s.len() as int
    } else if s[i] == c {
        i
    } else {
        char_position(s, c, i + 1)
    }
}

/// The end of the word that starts at `i`: the next white space, or the end.
pub open spec fn word_end(s: Seq<char>, i: int) -> int
    decreases s.len() - i,
{
    if i >= s.len() {
        s.len() as int
    } else if text::whitespace(s[i]) {
        i
    } else {
        word_end(s, i + 1)
    }
}

/// The first line of a text, without its line ending.
pub open spec fn first_line(s: Seq<char>) -> Seq<char> {
    let end = char_position(s, '\n', 0);
    if end < s.len() && end > 0 && s[end - 1] == '\r' {
        s.take(end - 1)
    } else {
        s.take(end)
    }
}

/// Where the first word of a line starts.
pub open spec fn first_word_start(line: Seq<char>) -> int {
    text::skip_white(line, 0)
}

/// Where the second word of a line starts.
pub open spec fn second_word_start(line: Seq<char>) -> int {
    text::skip_white(line, word_end(line, first_word_start(line)))
}

/// The method of a request: the first word of its first line, empty where
/// there is none.
pub open spec fn method_of(line: Seq<char>) -> Seq<char> {
    line.subrange(first_word_start(line), word_end(line, first_word_start(line)))
}

/// The path of a request: the second word of its first line, up to the query.
pub open spec fn path_of(line: Seq<char>) -> Seq<char> {
    let word = line.subrange(second_word_start(line), word_end(line, second_word_start(line)));
    word.take(char_position(word, '?', 0))
}

/// The text of a request, empty where its bytes are no text.
pub open spec fn request_text(bytes: Seq<u8>) -> Seq<char> {
    if valid_utf8(bytes) {
        decode_utf8(bytes)
    } else {
        Seq::empty()
    }
}

/// Trusted: `std::str::from_utf8` gives the text that the bytes encode, and
/// fails where they encode none.
#[verifier::external_body]
fn text_of(bytes: &[u8]) -> (r: Option<&str>)
    ensures
        match r {
            Some(s) => valid_utf8(bytes@) && s@ == decode_utf8(bytes@),
            None => !valid_utf8(bytes@),
        },
{
    std::str::from_utf8(bytes).ok()
}

/// Finds a character from `start` on.
fn find_char(v: &[char], c: char, start: usize, end: usize) -> (r: usize)
    requires
        start <= end <= v@.len(),
    ensures
        start <= r <= end,
        r == char_position(v@.take(end as int), c, start as int),
{
    let mut i: usize = start;
    let ghost s = v@.take(end as int);
    while i < end && v[i] != c
        invariant
            start <= i <= end <= v@.len(),
            s == v@.take(end as int),
            char_position(s, c, start as int) == char_position(s, c, i as int),
        decreases end - i,
    {
        i += 1;
    }
    i
}

/// Skips white space from `start` on.
fn find_word(v: &[char], start: usize, end: usize) -> (r: usize)
    requires
        start <= end <= v@.len(),
    ensures
        start <= r <= end,
        r == text::skip_white(v@.take(end as int), start as int),
{
    let mut i: usize = start;
    let ghost s = v@.take(end as int);
    while i < end && v[i].is_whitespace()
        invariant
            start <= i <= end <= v@.len(),
            s == v@.take(end as int),
            text::skip_white(s, start as int) == text::skip_white(s, i as int),
        decreases end - i,
    {
        i += 1;
    }
    i
}

/// Finds the end of the word at `start`.
fn find_word_end(v: &[char], start: usize, end: usize) -> (r: usize)
    requires
        start <= end <= v@.len(),
    ensures
        start <= r <= end,
        r == word_end(v@.take(end as int), start as int),
{
    let mut i: usize = start;
    let ghost s = v@.take(end as int);
    while i < end && !v[i].is_whitespace()
        invariant
            start <= i <= end <= v@.len(),
            s == v@.take(end as int),
            word_end(s, start as int) == word_end(s, i as int),
        decreases end - i,
    {
        i += 1;
    }
    i
}

/// The method and the path of a request.
pub fn request_target(request: &[u8]) -> (r: (String, String))
    ensures
        r.0@ == method_of(first_line(request_text(request@))),
        r.1@ == path_of(first_line(request_text(request@))),
{
    let v = match text_of(request) {
        Some(s) => chars_of(s),
        None => Vec::new(),
    };
    let ghost all = v@;
    assert(all =~= request_text(request@));
    assert(all.take(all.len() as int) =~= all);
    let newline: usize = find_char(v.as_slice(), '\n', 0, v.len());
    let mut end: usize = newline;
    if newline < v.len() && newline > 0 && v[newline - 1] == '\r' {
        end = newline - 1;
    }
    let ghost line = first_line(all);
    assert(line =~= v@.take(end as int));
    let method_start: usize = find_word(v.as_slice(), 0, end);
    let method_end: usize = find_word_end(v.as_slice(), method_start, end);
    let word_start: usize = find_word(v.as_slice(), method_end, end);
    let word_stop: usize = find_word_end(v.as_slice(), word_start, end);
    let method = string_between(v.as_slice(), method_start, method_end);
    let word = chars_of(string_between(v.as_slice(), word_start, word_stop).as_str());
    assert(word@.take(word@.len() as int) =~= word@);
    let query: usize = find_char(word.as_slice(), '?', 0, word.len());
    let path = string_between(word.as_slice(), 0, query);
    proof {
        assert(method@ =~= method_of(line));
        assert(word@ =~= line.subrange(second_word_start(line), word_end(
            line,
            second_word_start(line),
        )));
        assert(path@ =~= path_of(line));
    }
    (method, path)
}

// --- answering it ---
/// The status of a response.
#[derive(Debug, Clone, Copy, PartialEq, Eq, Structural)]
pub enum Status {
    Success,
    Forbidden,
    NotFound,
    MethodNotAllowed,
    InternalServerError,
    ServiceUnavailable,
}

/// A status as it stands in the status line.
pub open spec fn status_text(status: Status) -> Seq<char> {
    match status {
        Status::Success => "200 OK"@,
        Status::Forbidden => "403 Forbidden"@,
        Status::NotFound => "404 Not Found"@,
        Status::MethodNotAllowed => "405 Method Not Allowed"@,
        Status::InternalServerError => "500 Internal Server Error"@,
        Status::ServiceUnavailable => "503 Service Unavailable"@,
    }
}

impl Status {
    /// The status as it stands in the status line.
    pub fn text(&self) -> (r: &'static str)
        ensures
            r@ == status_text(*self),
    {
        match self {
            Status::Success => "200 OK",
            Status::Forbidden => "403 Forbidden",
            Status::NotFound => "404 Not Found",
            Status::MethodNotAllowed => "405 Method Not Allowed",
            Status::InternalServerError => "500 Internal Server Error",
            Status::ServiceUnavailable => "503 Service Unavailable",
        }
    }
}

/// A response.
#[derive(Debug)]
pub struct Response {
    pub status: Status,
    pub body: String,
}

/// What a response holds.
pub struct ResponseView {
    pub status: Status,
    pub body: Seq<char>,
}

impl DeepView for Response {
    type V = ResponseView;

    open spec fn deep_view(&self) -> ResponseView {
        ResponseView { status: self.status, body: self.body@ }
    }
}

/// What to do about a request.
#[derive(Debug)]
pub enum Route {
    /// Answer with the agent's own metrics.
    Metrics,
    /// Answer with this.
    Reply(Response),
    /// Ask the main loop, and answer with the outcome.
    Lifecycle(LifecycleCommand),
}

/// What a route holds.
pub enum RouteView {
    Metrics,
    Reply(ResponseView),
    Lifecycle(LifecycleCommand),
}

impl DeepView for Route {
    type V = RouteView;

    open spec fn deep_view(&self) -> RouteView {
        match *self {
            Route::Metrics => RouteView::Metrics,
            Route::Reply(response) => RouteView::Reply(response.deep_view()),
            Route::Lifecycle(command) => RouteView::Lifecycle(command),
        }
    }
}

/// Whether a method only reads.
pub open spec fn reads(method: Seq<char>) -> bool {
    method == "GET"@ || method == "HEAD"@
}

/// Whether a method changes something.
pub open spec fn writes(method: Seq<char>) -> bool {
    method == "POST"@ || method == "PUT"@
}

/// An answer with a fixed body.
pub open spec fn reply(status: Status, body: Seq<char>) -> RouteView {
    RouteView::Reply(ResponseView { status, body })
}

/// What to do about a lifecycle request.
pub open spec fn lifecycle_route(enabled: bool, command: LifecycleCommand) -> RouteView {
    if enabled {
        RouteView::Lifecycle(command)
    } else {
        reply(
            Status::Forbidden,
            "Lifecycle API is not enabled. Pass --web.enable-lifecycle.\n"@,
        )
    }
}

/// What to do about a request.
pub open spec fn routed(
    method: Seq<char>,
    path: Seq<char>,
    ready: bool,
    lifecycle: bool,
) -> RouteView {
    if reads(method) && path == "/metrics"@ {
        RouteView::Metrics
    } else if reads(method) && path == "/-/healthy"@ {
        reply(Status::Success, "Healthy.\n"@)
    } else if reads(method) && path == "/-/ready"@ {
        if ready {
            reply(Status::Success, "Ready.\n"@)
        } else {
            reply(Status::ServiceUnavailable, "Not ready.\n"@)
        }
    } else if writes(method) && path == "/-/reload"@ {
        lifecycle_route(lifecycle, LifecycleCommand::Reload)
    } else if writes(method) && path == "/-/quit"@ {
        lifecycle_route(lifecycle, LifecycleCommand::Quit)
    } else if reads(method) && (path == "/-/reload"@ || path == "/-/quit"@) {
        reply(Status::MethodNotAllowed, "Only POST or PUT requests allowed.\n"@)
    } else {
        reply(
            Status::NotFound,
            "404 - this agent serves no web UI; probe endpoints are /-/healthy and /-/ready\n"@,
        )
    }
}

/// Answers with a fixed body.
fn reply_with(status: Status, body: &str) -> (r: Route)
    ensures
        r.deep_view() == reply(status, body@),
{
    Route::Reply(Response { status, body: body.to_owned() })
}

/// Passes a lifecycle request on, where the API is enabled.
fn lifecycle_request(enabled: bool, command: LifecycleCommand) -> (r: Route)
    ensures
        r.deep_view() == lifecycle_route(enabled, command),
{
    if enabled {
        Route::Lifecycle(command)
    } else {
        reply_with(
            Status::Forbidden,
            "Lifecycle API is not enabled. Pass --web.enable-lifecycle.\n",
        )
    }
}

/// Decides what to do about a request.
pub fn route(method: &str, path: &str, state: &WebState, lifecycle: bool) -> (r: Route)
    ensures
        r.deep_view() == routed(method@, path@, state.ready, lifecycle),
{
    let read: bool = text_eq(method, "GET") || text_eq(method, "HEAD");
    let write: bool = text_eq(method, "POST") || text_eq(method, "PUT");
    if read && text_eq(path, "/metrics") {
        Route::Metrics
    } else if read && text_eq(path, "/-/healthy") {
        reply_with(Status::Success, "Healthy.\n")
    } else if read && text_eq(path, "/-/ready") {
        if state.ready {
            reply_with(Status::Success, "Ready.\n")
        } else {
            reply_with(Status::ServiceUnavailable, "Not ready.\n")
        }
    } else if write && text_eq(path, "/-/reload") {
        lifecycle_request(lifecycle, LifecycleCommand::Reload)
    } else if write && text_eq(path, "/-/quit") {
        lifecycle_request(lifecycle, LifecycleCommand::Quit)
    } else if read && (text_eq(path, "/-/reload") || text_eq(path, "/-/quit")) {
        reply_with(Status::MethodNotAllowed, "Only POST or PUT requests allowed.\n")
    } else {
        reply_with(
            Status::NotFound,
            "404 - this agent serves no web UI; probe endpoints are /-/healthy and /-/ready\n",
        )
    }
}

/// What became of a lifecycle request.
#[derive(Debug)]
pub enum LifecycleOutcome {
    /// The main loop no longer takes requests.
    Gone,
    /// The main loop gave no answer.
    Unanswered,
    /// It was done.
    Done,
    /// It failed, with a message.
    Failed(String),
}

/// The answer to a lifecycle request.
pub open spec fn outcome_reply(
    command: LifecycleCommand,
    outcome: LifecycleOutcome,
) -> ResponseView {
    match outcome {
        LifecycleOutcome::Gone => ResponseView {
            status: Status::InternalServerError,
            body: "lifecycle handler is gone\n"@,
        },
        LifecycleOutcome::Unanswered => ResponseView {
            status: Status::InternalServerError,
            body: "lifecycle handler dropped the request\n"@,
        },
        LifecycleOutcome::Done => ResponseView {
            status: Status::Success,
            body: match command {
                LifecycleCommand::Reload => "Configuration reloaded.\n"@,
                LifecycleCommand::Quit => "Requesting termination.\n"@,
            },
        },
        LifecycleOutcome::Failed(message) => ResponseView {
            status: Status::InternalServerError,
            body: message@ + "\n"@,
        },
    }
}

/// Answers a lifecycle request: the status reflects the actual outcome.
pub fn lifecycle_reply(command: LifecycleCommand, outcome: LifecycleOutcome) -> (r: Response)
    ensures
        r.deep_view() == outcome_reply(command, outcome),
{
    match outcome {
        LifecycleOutcome::Gone => Response {
            status: Status::InternalServerError,
            body: "lifecycle handler is gone\n".to_owned(),
        },
        LifecycleOutcome::Unanswered => Response {
            status: Status::InternalServerError,
            body: "lifecycle handler dropped the request\n".to_owned(),
        },
        LifecycleOutcome::Done => Response {
            status: Status::Success,
            body: match command {
                LifecycleCommand::Reload => "Configuration reloaded.\n".to_owned(),
                LifecycleCommand::Quit => "Requesting termination.\n".to_owned(),
            },
        },
        LifecycleOutcome::Failed(message) => Response {
            status: Status::InternalServerError,
            body: joined(message.as_str(), "\n"),
        },
    }
}

/// A response as it goes over the wire.
pub open spec fn response_text(response: ResponseView) -> Seq<char> {
    "HTTP/1.1 "@ + status_text(response.status)
        + "\r\ncontent-type: text/plain; charset=utf-8\r\ncontent-length: "@ + text::decimal(
        encode_utf8(response.body).len(),
    ) + "\r\nconnection: close\r\n\r\n"@ + response.body
}

impl Response {
    /// The response as it goes over the wire.
    pub fn to_text(&self) -> (r: String)
        ensures
            r@ == response_text(self.deep_view()),
    {
        let mut r = joined("HTTP/1.1 ", self.status.text());
        r.append("\r\ncontent-type: text/plain; charset=utf-8\r\ncontent-length: ");
        r.append(u64_text(self.body.as_str().as_bytes().len() as u64).as_str());
        r.append("\r\nconnection: close\r\n\r\n");
        r.append(self.body.as_str());
        r
    }
}

// --- what holds of all requests ---
/// The main loop is asked only where the lifecycle API is enabled, and only by
/// a method that changes something.
pub proof fn lemma_lifecycle_guarded(
    method: Seq<char>,
    path: Seq<char>,
    ready: bool,
    lifecycle: bool,
)
    ensures
        routed(method, path, ready, lifecycle) is Lifecycle ==> lifecycle && writes(method),
        !lifecycle && writes(method) && (path == "/-/reload"@ || path == "/-/quit"@) ==> (routed(
            method,
            path,
            ready,
            lifecycle,
        ) matches RouteView::Reply(response) && response.status == Status::Forbidden),
{
    lemma_names_differ();
}

/// Liveness does not depend on anything, and readiness is the state's.
pub proof fn lemma_probes(method: Seq<char>, ready: bool, lifecycle: bool)
    requires
        reads(method),
    ensures
        routed(method, "/-/healthy"@, ready, lifecycle) == reply(Status::Success, "Healthy.\n"@),
        routed(method, "/-/ready"@, ready, lifecycle) matches RouteView::Reply(response)
            && response.status == if ready {
            Status::Success
        } else {
            Status::ServiceUnavailable
        },
{
    lemma_names_differ();
}

/// A path that is none of the five is not found, whatever the method.
pub proof fn lemma_unknown_path(method: Seq<char>, path: Seq<char>, ready: bool, lifecycle: bool)
    requires
        path != "/metrics"@,
        path != "/-/healthy"@,
        path != "/-/ready"@,
        path != "/-/reload"@,
        path != "/-/quit"@,
    ensures
        routed(method, path, ready, lifecycle) matches RouteView::Reply(response)
            && response.status == Status::NotFound,
{
}

/// The paths are all different, and no method both reads and writes.
proof fn lemma_names_differ()
    ensures
        "/metrics"@ != "/-/healthy"@,
        "/metrics"@ != "/-/ready"@,
        "/metrics"@ != "/-/reload"@,
        "/metrics"@ != "/-/quit"@,
        "/-/healthy"@ != "/-/ready"@,
        "/-/healthy"@ != "/-/reload"@,
        "/-/healthy"@ != "/-/quit"@,
        "/-/ready"@ != "/-/reload"@,
        "/-/ready"@ != "/-/quit"@,
        "/-/reload"@ != "/-/quit"@,
        forall|m: Seq<char>| !(#[trigger] reads(m) && writes(m)),
{
    reveal_strlit("/metrics");
    reveal_strlit("/-/healthy");
    reveal_strlit("/-/ready");
    reveal_strlit("/-/reload");
    reveal_strlit("/-/quit");
    reveal_strlit("GET");
    reveal_strlit("HEAD");
    reveal_strlit("POST");
    reveal_strlit("PUT");
    assert("/metrics"@[1] == 'm');
    assert("/-/ready"@[5] == 'a');
    assert("/-/reload"@[5] == 'l');
    assert("GET"@[0] == 'G');
    assert("HEAD"@[0] == 'H');
    assert("POST"@[0] == 'P');
    assert("PUT"@[0] == 'P');
    assert("/-/healthy"@[3] == 'h');
    assert("/-/ready"@[3] == 'r');
    assert("/-/reload"@[3] == 'r');
    assert("/-/quit"@[3] == 'q');
    assert("/-/healthy"@[1] == '-');
    assert("/-/ready"@[1] == '-');
    assert("/-/reload"@[1] == '-');
    assert("/-/quit"@[1] == '-');
}

} // verus!
