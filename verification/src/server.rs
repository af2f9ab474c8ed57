//! The decisions of the gdapi HTTP server: what a connection is answered at
//! each step (read, authorisation, hand-over to the editor, waiting for the
//! answer), how answers from the editor are checked, which ports are tried,
//! and the bookkeeping of requests that wait for the editor. Sockets, the
//! async runtime, channels and timers are run by the caller.

use vstd::prelude::*;
use vstd::utf8::encode_utf8;
use crate::http::{
    has_cr_or_lf, pairs_view, parse_request, parse_request_spec, request_error_text,
    validate_response_header, ParsedRequest, RequestError, MAX_HEADER_BYTES,
};
use crate::frame::crlfcrlf_at;
use crate::queue::{shutdown_response_v, unexpired, HttpResponse, PendingMap, ResponseV};
use crate::text::{
    chars_of, contains_chars, contains_sub, decimal, decimal_u64, eq_ignore_ascii_case,
    eq_ignore_ascii_case_exec, parse_unsigned, parse_unsigned_exec, push_chars, push_str,
};

verus! {

/// Handler timeout when none (or an unusable one) is configured, in ms.
pub const DEFAULT_TIMEOUT_MS: u64 = 30000;

/// The shortest handler timeout accepted, in ms.
pub const MIN_HANDLER_TIMEOUT_MS: u64 = 100;

/// The longest handler timeout accepted, in ms.
pub const MAX_HANDLER_TIMEOUT_MS: u64 = 300000;

/// How many ports are tried, starting at the requested one.
pub const PORT_PROBE_LIMIT: u16 = 64;

/// The handler timeout for the configured text (`GDAPI_HANDLER_TIMEOUT_MS`):
/// a number of milliseconds between the limits, else the default.
pub open spec fn handler_timeout_spec(raw: Option<Seq<char>>) -> u64 {
    match raw {
        Some(s) => match parse_unsigned(s, u64::MAX as nat) {
            Some(v) => if MIN_HANDLER_TIMEOUT_MS <= v <= MAX_HANDLER_TIMEOUT_MS { v as u64 } else { DEFAULT_TIMEOUT_MS },
            None => DEFAULT_TIMEOUT_MS,
        },
        None => DEFAULT_TIMEOUT_MS,
    }
}

pub fn handler_timeout(raw: Option<&str>) -> (r: u64)
    ensures
        r == handler_timeout_spec(match raw { Some(s) => Some(s@), None => None }),
{
    match raw {
        Some(s) => {
            let cs = chars_of(s);
            match parse_unsigned_exec(cs.as_slice(), u64::MAX) {
                Some(v) => if MIN_HANDLER_TIMEOUT_MS <= v && v <= MAX_HANDLER_TIMEOUT_MS { v } else { DEFAULT_TIMEOUT_MS },
                None => DEFAULT_TIMEOUT_MS,
            }
        },
        None => DEFAULT_TIMEOUT_MS,
    }
}

/// The ports tried for a requested one: it and the following ones, at most
/// `PORT_PROBE_LIMIT` of them and none above 65535.
pub open spec fn probe_ports_spec(hint: u16) -> Seq<u16> {
    let n = if 65536 - hint < PORT_PROBE_LIMIT { 65536 - hint } else { PORT_PROBE_LIMIT as int };
    Seq::new(n as nat, |i: int| (hint + i) as u16)
}

pub fn probe_ports(hint: u16) -> (r: Vec<u16>)
    ensures
        r@ == probe_ports_spec(hint),
{
    let n: u16 = if hint > 65472 { 65535 - hint + 1 } else { PORT_PROBE_LIMIT };
    let mut out: Vec<u16> = Vec::new();
    let mut i: u16 = 0;
    while i < n
        invariant
            i <= n,
            n == (if 65536 - hint < PORT_PROBE_LIMIT { 65536 - hint } else { PORT_PROBE_LIMIT as int }),
            hint + n <= 65536,
            out@.len() == i,
            forall|j: int| 0 <= j < i ==> #[trigger] out@[j] == (hint + j) as u16,
        decreases n - i,
    {
        out.push(hint + i);
        i = i + 1;
    }
    assert(out@ =~= probe_ports_spec(hint));
    out
}

/// The handler timeout is always within its limits.
pub proof fn law_timeout_in_limits(raw: Option<Seq<char>>)
    ensures
        MIN_HANDLER_TIMEOUT_MS <= handler_timeout_spec(raw) <= MAX_HANDLER_TIMEOUT_MS,
{
}

/// Port probing never wraps around: every port tried is the requested one
/// or above it, each is tried once, in increasing order, at most
/// `PORT_PROBE_LIMIT` of them, and the requested one first.
pub proof fn law_probe_no_wrap(hint: u16)
    ensures
        probe_ports_spec(hint).len() >= 1,
        probe_ports_spec(hint).len() <= PORT_PROBE_LIMIT,
        probe_ports_spec(hint)[0] == hint,
        forall|i: int, j: int| 0 <= i < j < probe_ports_spec(hint).len()
            ==> hint <= #[trigger] probe_ports_spec(hint)[i] < #[trigger] probe_ports_spec(hint)[j],
{
}

/// The port number reported to the editor: the listening port, or -1 when
/// the server does not run.
pub fn port_number(actual: Option<u16>) -> (r: i32)
    ensures
        r == match actual { Some(p) => p as i32, None => -1i32 },
{
    match actual {
        Some(p) => p as i32,
        None => -1,
    }
}

/// Why an answer from the editor cannot be sent, if it cannot.
pub open spec fn response_problem(status: u16, headers: Seq<(Seq<char>, Seq<char>)>) -> Option<Seq<char>>
    decreases headers.len(),
{
    if !(100 <= status <= 599) {
        Some("invalid HTTP status: "@ + decimal(status as nat))
    } else {
        header_problem(headers)
    }
}

/// The first header with CR or LF in its name or value, reported as
/// `validate_response_header` does.
pub open spec fn header_problem(headers: Seq<(Seq<char>, Seq<char>)>) -> Option<Seq<char>>
    decreases headers.len(),
{
    if headers.len() == 0 {
        None
    } else if has_cr_or_lf(headers[0].0) {
        Some("header name contains CR/LF"@)
    } else if has_cr_or_lf(headers[0].1) {
        Some("header value contains CR/LF"@)
    } else {
        header_problem(headers.drop_first())
    }
}

/// Checks an answer before it is sent: the status must be in 100..=599 and
/// no header may hold CR or LF.
pub fn check_response(status: u16, headers: &[(String, String)]) -> (r: Result<(), String>)
    ensures
        match response_problem(status, pairs_view(headers@)) {
            Some(m) => r matches Err(e) && e@ == m,
            None => r is Ok,
        },
{
    if !(100 <= status && status <= 599) {
        let mut m = String::from_str("invalid HTTP status: ");
        let d = decimal_u64(status as u64);
        push_chars(&mut m, d.as_slice());
        return Err(m);
    }
    let ghost hv = pairs_view(headers@);
    let mut i: usize = 0;
    assert(hv.skip(0) =~= hv);
    while i < headers.len()
        invariant
            i <= headers@.len(),
            100 <= status <= 599,
            hv == pairs_view(headers@),
            header_problem(hv) == header_problem(hv.skip(i as int)),
        decreases headers.len() - i,
    {
        assert(hv.skip(i as int)[0] == (headers@[i as int].0@, headers@[i as int].1@));
        match validate_response_header(headers[i].0.as_str(), headers[i].1.as_str()) {
            Err(e) => {
                assert(header_problem(hv.skip(i as int)) == Some(e@));
                assert(response_problem(status, hv) == Some(e@));
                return Err(e);
            },
            Ok(()) => {},
        }
        assert(hv.skip(i as int).drop_first() =~= hv.skip(i + 1));
        i = i + 1;
    }
    Ok(())
}

/// An answer with no headers and a UTF-8 text body.
pub open spec fn plain_response(status: u16, body: Seq<char>) -> ResponseV {
    ResponseV { status, headers: Seq::empty(), body: encode_utf8(body) }
}

fn make_plain(status: u16, body: &str) -> (r: HttpResponse)
    ensures
        r@ == plain_response(status, body@),
{
    let r = HttpResponse { status, headers: Vec::new(), body: body.as_bytes_vec() };
    assert(r@.headers =~= Seq::<(Seq<char>, Seq<char>)>::empty());
    r
}

/// How `{:?}` writes a string: quoted, with Rust's debug escapes.
pub uninterp spec fn debug_str_text(s: Seq<char>) -> Seq<char>;

/// `format!("{:?}", s)` for a string slice.
#[verifier::external_body]
fn debug_str(s: &str) -> (r: String)
    ensures
        r@ == debug_str_text(s@),
{
    format!("{:?}", s)
}

/// The answer to a request that cannot be read: 413 when the message is
/// about the 16 MiB body limit, 400 otherwise, with the message as a JSON
/// error.
pub open spec fn bad_request_response(message: Seq<char>) -> ResponseV {
    let status: u16 = if contains_sub(message, "16 MiB"@) { 413 } else { 400 };
    plain_response(status, "{\"error\":"@ + debug_str_text(message) + "}"@)
}

pub fn bad_request(message: &str) -> (r: HttpResponse)
    ensures
        r@ == bad_request_response(message@),
{
    let cs = chars_of(message);
    let limit = chars_of("16 MiB");
    let status: u16 = if contains_chars(cs.as_slice(), limit.as_slice()) { 413 } else { 400 };
    let mut body = String::from_str("{\"error\":");
    let d = debug_str(message);
    push_str(&mut body, d.as_str());
    push_str(&mut body, "}");
    make_plain(status, body.as_str())
}

/// What reading a request gives so far.
pub enum ReadProgress {
    /// The whole request is there.
    Complete,
    /// More bytes are needed.
    NeedMore,
    /// The request cannot be read; the text says why.
    Failed(String),
}

/// After each chunk: a head longer than `MAX_HEADER_BYTES` without its end
/// fails, otherwise the parser decides.
pub open spec fn read_progress_spec(buf: Seq<u8>) -> Result<bool, Seq<char>> {
    if buf.len() > MAX_HEADER_BYTES && !(exists|i: int| #[trigger] crlfcrlf_at(buf, i)) {
        Err("HTTP headers exceed 32 KiB"@)
    } else {
        match parse_request_spec(buf) {
            Ok(Some(_)) => Ok(true),
            Ok(None) => Ok(false),
            Err(e) => Err(request_error_text(e)),
        }
    }
}

fn has_crlfcrlf(buf: &[u8]) -> (r: bool)
    ensures
        r == exists|i: int| #[trigger] crlfcrlf_at(buf@, i),
{
    if buf.len() < 4 {
        assert forall|i: int| !#[trigger] crlfcrlf_at(buf@, i) by {}
        return false;
    }
    let mut i: usize = 0;
    while i < buf.len() - 3
        invariant
            buf.len() >= 4,
            i <= buf.len() - 3,
            forall|j: int| 0 <= j < i ==> !#[trigger] crlfcrlf_at(buf@, j),
        decreases buf.len() - i,
    {
        if buf[i] == 13 && buf[i + 1] == 10 && buf[i + 2] == 13 && buf[i + 3] == 10 {
            assert(crlfcrlf_at(buf@, i as int));
            return true;
        }
        i = i + 1;
    }
    assert forall|j: int| !#[trigger] crlfcrlf_at(buf@, j) by {
        if 0 <= j < i {
        }
    }
    false
}

pub fn read_progress(buf: &[u8]) -> (r: ReadProgress)
    ensures
        match read_progress_spec(buf@) {
            Ok(true) => r is Complete,
            Ok(false) => r is NeedMore,
            Err(m) => r matches ReadProgress::Failed(e) && e@ == m,
        },
{
    if buf.len() > MAX_HEADER_BYTES && !has_crlfcrlf(buf) {
        return ReadProgress::Failed(String::from_str("HTTP headers exceed 32 KiB"));
    }
    match parse_request(buf) {
        Ok(Some(_)) => ReadProgress::Complete,
        Ok(None) => ReadProgress::NeedMore,
        Err(e) => ReadProgress::Failed(e.message()),
    }
}

/// How the reading of a request ended.
pub enum ReadEnd {
    /// Nothing complete arrived in time.
    TimedOut,
    /// Reading stopped (complete request or end of stream).
    Finished,
    /// Reading failed; the text says why.
    Failed(String),
}

/// The next step of a connection after reading.
pub enum ConnectionStep {
    /// Answer this and close.
    Respond(HttpResponse),
    /// Hand the request to the editor.
    Dispatch(ParsedRequest),
}

/// The `Authorization` header of a request: the value of the first header
/// whose name is `authorization` in any case.
pub open spec fn authorization_of(headers: Seq<(Seq<char>, Seq<char>)>) -> Option<Seq<char>>
    decreases headers.len(),
{
    if headers.len() == 0 {
        None
    } else if eq_ignore_ascii_case(headers[0].0, "authorization"@) {
        Some(headers[0].1)
    } else {
        authorization_of(headers.drop_first())
    }
}

/// A request may pass: no token is expected, or it carries `Bearer <token>`.
pub open spec fn authorized_spec(headers: Seq<(Seq<char>, Seq<char>)>, expected: Option<Seq<char>>) -> bool {
    match expected {
        None => true,
        Some(t) => authorization_of(headers) == Some("Bearer "@ + t),
    }
}

pub fn authorized(headers: &[(String, String)], expected: Option<&str>) -> (r: bool)
    ensures
        r == authorized_spec(pairs_view(headers@), match expected { Some(t) => Some(t@), None => None }),
{
    let t = match expected {
        None => return true,
        Some(t) => t,
    };
    let ghost hv = pairs_view(headers@);
    let name = chars_of("authorization");
    let mut want = String::from_str("Bearer ");
    push_str(&mut want, t);
    let mut i: usize = 0;
    assert(hv.skip(0) =~= hv);
    while i < headers.len()
        invariant
            i <= headers@.len(),
            expected == Some(t),
            hv == pairs_view(headers@),
            name@ == "authorization"@,
            want@ == "Bearer "@ + t@,
            authorization_of(hv) == authorization_of(hv.skip(i as int)),
        decreases headers.len() - i,
    {
        assert(hv.skip(i as int)[0] == (headers@[i as int].0@, headers@[i as int].1@));
        let k = chars_of(headers[i].0.as_str());
        if eq_ignore_ascii_case_exec(k.as_slice(), name.as_slice()) {
            let v = chars_of(headers[i].1.as_str());
            let w = chars_of(want.as_str());
            assert(authorization_of(hv.skip(i as int)) == Some(headers@[i as int].1@));
            assert(authorization_of(hv) == Some(v@));
            let same = crate::text::eq_chars(v.as_slice(), w.as_slice());
            assert(same == (authorization_of(hv) == Some("Bearer "@ + t@)));
            return same;
        }
        assert(hv.skip(i as int).drop_first() =~= hv.skip(i + 1));
        i = i + 1;
    }
    false
}

/// `{"error":"read timeout"}` with 400.
pub open spec fn read_timeout_response() -> ResponseV {
    plain_response(400, "{\"error\":\"read timeout\"}"@)
}

/// `{"error":"incomplete request"}` with 400.
pub open spec fn incomplete_response() -> ResponseV {
    plain_response(400, "{\"error\":\"incomplete request\"}"@)
}

/// `{"error":"unauthorized"}` with 401.
pub open spec fn unauthorized_response() -> ResponseV {
    plain_response(401, "{\"error\":\"unauthorized\"}"@)
}

/// What a connection does once reading has ended, for the bytes read and
/// the token the server expects: the request goes to the editor, or the
/// answer given here.
pub open spec fn after_read_spec(end: Result<bool, Seq<char>>, buf: Seq<u8>, expected: Option<Seq<char>>)
    -> Result<(Seq<char>, Seq<char>, Seq<(Seq<char>, Seq<char>)>, Seq<u8>), ResponseV>
{
    match end {
        Ok(false) => Err(read_timeout_response()),
        Err(m) => Err(bad_request_response(m)),
        Ok(true) => match parse_request_spec(buf) {
            Ok(None) => Err(incomplete_response()),
            Err(e) => Err(bad_request_response(request_error_text(e))),
            Ok(Some((method, path, headers, body))) => if authorized_spec(headers, expected) {
                Ok((method, path, headers, body))
            } else {
                Err(unauthorized_response())
            },
        },
    }
}

pub open spec fn read_end_view(e: ReadEnd) -> Result<bool, Seq<char>> {
    match e {
        ReadEnd::TimedOut => Ok(false),
        ReadEnd::Finished => Ok(true),
        ReadEnd::Failed(m) => Err(m@),
    }
}

pub fn after_read(end: ReadEnd, buf: &[u8], expected: Option<&str>) -> (r: ConnectionStep)
    ensures
        match after_read_spec(read_end_view(end), buf@, match expected { Some(t) => Some(t@), None => None }) {
            Ok((m, p, hs, b)) => r matches ConnectionStep::Dispatch(req) && req.method@ == m && req.path@ == p
                && pairs_view(req.headers@) == hs && req.body@ == b,
            Err(resp) => r matches ConnectionStep::Respond(x) && x@ == resp,
        },
{
    match end {
        ReadEnd::TimedOut => ConnectionStep::Respond(make_plain(400, "{\"error\":\"read timeout\"}")),
        ReadEnd::Failed(m) => ConnectionStep::Respond(bad_request(m.as_str())),
        ReadEnd::Finished => match parse_request(buf) {
            Ok(None) => ConnectionStep::Respond(make_plain(400, "{\"error\":\"incomplete request\"}")),
            Err(e) => {
                let m = e.message();
                ConnectionStep::Respond(bad_request(m.as_str()))
            },
            Ok(Some(req)) => {
                if authorized(req.headers.as_slice(), expected) {
                    ConnectionStep::Dispatch(req)
                } else {
                    ConnectionStep::Respond(make_plain(401, "{\"error\":\"unauthorized\"}"))
                }
            },
        },
    }
}

/// The answer when the request cannot be handed to the editor (its queue
/// is closed or full): 503 `{"error":"server shutting down"}`, no headers.
pub fn queue_refused_response() -> (r: HttpResponse)
    ensures
        r@ == plain_response(503, "{\"error\":\"server shutting down\"}"@),
{
    make_plain(503, "{\"error\":\"server shutting down\"}")
}

/// The answer when too many connections are open: 503, no headers.
pub fn too_many_connections_response() -> (r: HttpResponse)
    ensures
        r@ == plain_response(503, "{\"error\":\"too many connections\"}"@),
{
    make_plain(503, "{\"error\":\"too many connections\"}")
}

/// How waiting for the editor's answer ended.
pub enum WaitEnd {
    /// The editor answered.
    Answered(HttpResponse),
    /// The answer channel was dropped without an answer.
    Dropped,
    /// No answer came within the handler timeout.
    TimedOut,
}

/// The answer written back for the end of the wait.
pub open spec fn waited_response(w: WaitEnd) -> ResponseV {
    match w {
        WaitEnd::Answered(r) => r@,
        WaitEnd::Dropped => plain_response(503, "{\"error\":\"server dropped\"}"@),
        WaitEnd::TimedOut => ResponseV {
            status: 504,
            headers: seq![("content-type"@, "application/json"@)],
            body: encode_utf8("{\"error\":\"handler timeout\"}"@),
        },
    }
}

pub fn after_wait(w: WaitEnd) -> (r: HttpResponse)
    ensures
        r@ == waited_response(w),
{
    match w {
        WaitEnd::Answered(r) => r,
        WaitEnd::Dropped => make_plain(503, "{\"error\":\"server dropped\"}"),
        WaitEnd::TimedOut => {
            let mut headers: Vec<(String, String)> = Vec::new();
            headers.push((String::from_str("content-type"), String::from_str("application/json")));
            let r = HttpResponse {
                status: 504,
                headers,
                body: "{\"error\":\"handler timeout\"}".as_bytes_vec(),
            };
            assert(r@.headers =~= seq![("content-type"@, "application/json"@)]);
            r
        },
    }
}

/// A request on its way to the editor, with the channel its answer goes
/// back on.
pub struct PendingRequest<T> {
    pub id: u64,
    pub method: String,
    pub path: String,
    pub headers: Vec<(String, String)>,
    pub body: Vec<u8>,
    pub resp_tx: T,
}

/// What the editor sees of a request.
pub struct RequestView {
    pub id: u64,
    pub method: String,
    pub path: String,
    pub headers: Vec<(String, String)>,
    pub body: Vec<u8>,
}

/// The server's own state between the editor's calls: whether it runs, the
/// port, the expected token, the handler timeout and the requests that wait
/// for the editor's answer (`T` is the channel an answer goes back on).
pub struct ServerState<T> {
    running: bool,
    actual_port: Option<u16>,
    expected_token: Option<String>,
    handler_timeout_ms: u64,
    pending: PendingMap<T>,
}

impl<T> ServerState<T> {
    pub closed spec fn wf(&self) -> bool {
        self.pending.wf()
    }

    pub closed spec fn is_running_spec(&self) -> bool {
        self.running
    }

    pub closed spec fn port_spec(&self) -> Option<u16> {
        self.actual_port
    }

    pub closed spec fn token_spec(&self) -> Option<Seq<char>> {
        match self.expected_token {
            Some(t) => Some(t@),
            None => None,
        }
    }

    pub closed spec fn timeout_spec(&self) -> u64 {
        self.handler_timeout_ms
    }

    pub closed spec fn pending_spec(&self) -> Map<u64, (T, u64)> {
        self.pending@
    }

    /// A server that does not run yet.
    pub fn new() -> (r: Self)
        ensures
            r.wf(),
            !r.is_running_spec(),
            r.port_spec() is None,
            r.token_spec() is None,
            r.timeout_spec() == DEFAULT_TIMEOUT_MS,
            r.pending_spec() == Map::<u64, (T, u64)>::empty(),
    {
        ServerState {
            running: false,
            actual_port: None,
            expected_token: None,
            handler_timeout_ms: DEFAULT_TIMEOUT_MS,
            pending: PendingMap::new(),
        }
    }

    pub fn is_running(&self) -> (r: bool)
        ensures
            r == self.is_running_spec(),
    {
        self.running
    }

    /// The listening port, or -1 when the server does not run.
    pub fn port(&self) -> (r: i32)
        ensures
            r == match self.port_spec() { Some(p) => p as i32, None => -1i32 },
    {
        port_number(self.actual_port)
    }

    /// The token requests must carry, if any.
    pub fn expected_token(&self) -> (r: Option<&str>)
        ensures
            match r { Some(t) => self.token_spec() == Some(t@), None => self.token_spec() is None },
    {
        match &self.expected_token {
            Some(t) => Some(t.as_str()),
            None => None,
        }
    }

    pub fn handler_timeout_ms(&self) -> (r: u64)
        ensures
            r == self.timeout_spec(),
    {
        self.handler_timeout_ms
    }

    /// Refuses to start a server that already runs; otherwise records the
    /// token (the caller then binds a port and starts the runtime).
    pub fn begin_start(&mut self, token: Option<String>) -> (r: Result<(), String>)
        requires
            old(self).wf(),
        ensures
            final(self).wf(),
            old(self).is_running_spec() ==> (r matches Err(e) && e@ == "already running"@
                && *final(self) == *old(self)),
            !old(self).is_running_spec() ==> (r is Ok
                && final(self).token_spec() == match token { Some(t) => Some(t@), None => None }
                && final(self).is_running_spec() == old(self).is_running_spec()
                && final(self).port_spec() == old(self).port_spec()
                && final(self).timeout_spec() == old(self).timeout_spec()
                && final(self).pending_spec() == old(self).pending_spec()),
    {
        if self.running {
            return Err(String::from_str("already running"));
        }
        self.expected_token = token;
        Ok(())
    }

    /// Records a started server: its port and its handler timeout.
    pub fn mark_started(&mut self, port: u16, timeout_ms: u64)
        requires
            old(self).wf(),
        ensures
            final(self).wf(),
            final(self).is_running_spec(),
            final(self).port_spec() == Some(port),
            final(self).timeout_spec() == timeout_ms,
            final(self).token_spec() == old(self).token_spec(),
            final(self).pending_spec() == old(self).pending_spec(),
    {
        self.running = true;
        self.actual_port = Some(port);
        self.handler_timeout_ms = timeout_ms;
    }

    /// Stops: every waiting request is handed out with its 503 answer and the
    /// server no longer runs nor has a port.
    pub fn stop(&mut self) -> (r: Vec<(T, HttpResponse)>)
        requires
            old(self).wf(),
        ensures
            final(self).wf(),
            !final(self).is_running_spec(),
            final(self).port_spec() is None,
            final(self).pending_spec() == Map::<u64, (T, u64)>::empty(),
            final(self).token_spec() == old(self).token_spec(),
            final(self).timeout_spec() == old(self).timeout_spec(),
            r@.len() == old(self).pending_spec().len(),
            forall|i: int| 0 <= i < r@.len() ==> (#[trigger] r@[i]).1@ == shutdown_response_v(),
            crate::queue::lists_senders(old(self).pending_spec(), Seq::new(r@.len(), |i: int| r@[i].0)),
    {
        let out = self.pending.drain_503();
        self.running = false;
        self.actual_port = None;
        out
    }

    /// Drops the requests whose deadline has passed at `now` and says how
    /// many still wait.
    pub fn pending_len(&mut self, now: u64) -> (r: usize)
        requires
            old(self).wf(),
        ensures
            final(self).wf(),
            final(self).pending_spec() == unexpired(old(self).pending_spec(), now),
            r == final(self).pending_spec().len(),
            final(self).is_running_spec() == old(self).is_running_spec(),
            final(self).port_spec() == old(self).port_spec(),
            final(self).token_spec() == old(self).token_spec(),
            final(self).timeout_spec() == old(self).timeout_spec(),
    {
        let _ = self.pending.remove_expired(now);
        self.pending.len()
    }

    /// Records a request handed to the editor at `now`: it waits until
    /// `now` plus the handler timeout. Expired requests are dropped first.
    pub fn register(&mut self, id: u64, tx: T, now: u64)
        requires
            old(self).wf(),
            now + old(self).timeout_spec() <= u64::MAX,
        ensures
            final(self).wf(),
            final(self).pending_spec() == unexpired(old(self).pending_spec(), now).insert(
                id, (tx, (now + old(self).timeout_spec()) as u64)),
            final(self).is_running_spec() == old(self).is_running_spec(),
            final(self).port_spec() == old(self).port_spec(),
            final(self).token_spec() == old(self).token_spec(),
            final(self).timeout_spec() == old(self).timeout_spec(),
    {
        let _ = self.pending.remove_expired(now);
        let deadline = now + self.handler_timeout_ms;
        self.pending.insert(id, tx, deadline);
    }

    /// Takes the editor's answer to request `id` at `now`: expired requests
    /// are dropped, then the answer is checked; when it is sound and the
    /// request still waits, its channel is handed out with the answer.
    pub fn send_response_raw(&mut self, id: u64, status: u16, headers: Vec<(String, String)>, body: Vec<u8>, now: u64)
        -> (r: Result<Option<(T, HttpResponse)>, String>)
        requires
            old(self).wf(),
        ensures
            final(self).wf(),
            final(self).is_running_spec() == old(self).is_running_spec(),
            final(self).port_spec() == old(self).port_spec(),
            final(self).token_spec() == old(self).token_spec(),
            final(self).timeout_spec() == old(self).timeout_spec(),
            ({
                let live = unexpired(old(self).pending_spec(), now);
                match response_problem(status, pairs_view(headers@)) {
                    Some(m) => r matches Err(e) && e@ == m && final(self).pending_spec() == live,
                    None => final(self).pending_spec() == live.remove(id) && match r {
                        Ok(Some((tx, resp))) => live.contains_key(id) && tx == live[id].0
                            && resp@ == (ResponseV { status, headers: pairs_view(headers@), body: body@ }),
                        Ok(None) => !live.contains_key(id),
                        Err(_) => false,
                    },
                }
            }),
    {
        let _ = self.pending.remove_expired(now);
        match check_response(status, headers.as_slice()) {
            Err(e) => return Err(e),
            Ok(()) => {},
        }
        match self.pending.take(id) {
            Some(tx) => {
                let resp = HttpResponse { status, headers, body };
                Ok(Some((tx, resp)))
            },
            None => Ok(None),
        }
    }

    /// Hands a request from the connections to the editor at `now`: expired
    /// requests are dropped, and when a request came its channel waits
    /// (until `now` plus the handler timeout) and the editor gets its data.
    pub fn poll_for_godot(&mut self, incoming: Option<PendingRequest<T>>, now: u64) -> (r: Option<RequestView>)
        requires
            old(self).wf(),
            now + old(self).timeout_spec() <= u64::MAX,
        ensures
            final(self).wf(),
            final(self).is_running_spec() == old(self).is_running_spec(),
            final(self).port_spec() == old(self).port_spec(),
            final(self).token_spec() == old(self).token_spec(),
            final(self).timeout_spec() == old(self).timeout_spec(),
            match incoming {
                None => r is None && final(self).pending_spec() == unexpired(old(self).pending_spec(), now),
                Some(req) => r matches Some(v) && v.id == req.id && v.method@ == req.method@
                    && v.path@ == req.path@ && pairs_view(v.headers@) == pairs_view(req.headers@)
                    && v.body@ == req.body@
                    && final(self).pending_spec() == unexpired(old(self).pending_spec(), now).insert(
                        req.id, (req.resp_tx, (now + old(self).timeout_spec()) as u64)),
            },
    {
        let _ = self.pending.remove_expired(now);
        let req = match incoming {
            Some(r) => r,
            None => return None,
        };
        let deadline = now + self.handler_timeout_ms;
        self.pending.insert(req.id, req.resp_tx, deadline);
        Some(RequestView { id: req.id, method: req.method, path: req.path, headers: req.headers, body: req.body })
    }
}

/// An answer reaches the request it is for, once: a request handed to the
/// editor at `now` (recorded with its deadline) still waits at any `later`
/// moment before that deadline, with its own channel, and once its answer
/// is taken it no longer waits.
pub proof fn law_answer_reaches_waiting_request<T>(
    m: Map<u64, (T, u64)>,
    id: u64,
    tx: T,
    now: u64,
    deadline: u64,
    later: u64,
)
    requires
        later < deadline,
    ensures
        ({
            let waiting = unexpired(unexpired(m, now).insert(id, (tx, deadline)), later);
            &&& waiting.contains_key(id)
            &&& waiting[id].0 == tx
            &&& !waiting.remove(id).contains_key(id)
        }),
{
}

} // verus!
