//! HTTP/1.1 for the gdapi server: request parsing on top of `httparse`
//! (Content-Length bodies only, header names lower-cased, bodies up to
//! 16 MiB) and response serialisation.

use vstd::prelude::*;
use vstd::utf8::{decode_utf8, encode_utf8, valid_utf8};
use httparse::{Request, Status, EMPTY_HEADER};
use crate::text::{
    ascii_lower, ascii_lower_exec, chars_of, decimal, decimal_u64, parse_unsigned,
    parse_unsigned_exec, push_chars, push_str, string_of, trim, trim_chars, utf8_string,
};

verus! {

/// The largest request body accepted.
pub const MAX_BODY: usize = 16 * 1024 * 1024;

/// The most header bytes read without finding the end of the header.
pub const MAX_HEADER_BYTES: usize = 32 * 1024;

/// The most headers a request may have.
pub const MAX_HEADERS: usize = 64;

/// A parsed request.
#[derive(Debug, PartialEq)]
pub struct ParsedRequest {
    /// The method (GET, POST, ...).
    pub method: String,
    /// The path, query string included.
    pub path: String,
    /// The headers, names lower-cased.
    pub headers: Vec<(String, String)>,
    /// The body.
    pub body: Vec<u8>,
}

/// Why a request cannot be parsed.
#[derive(Debug, PartialEq)]
pub enum RequestError {
    /// The request is malformed; the text says how.
    Malformed(String),
    /// The announced body exceeds `MAX_BODY`.
    TooLarge,
}

impl RequestError {
    /// The error's text.
    pub fn message(&self) -> (r: String)
        ensures
            r@ == request_error_text(self.view_err()),
    {
        match self {
            RequestError::Malformed(m) => m.clone(),
            RequestError::TooLarge => String::from_str("Content-Length exceeds 16 MiB"),
        }
    }

    pub open spec fn view_err(&self) -> Option<Seq<char>> {
        match self {
            RequestError::Malformed(m) => Some(m@),
            RequestError::TooLarge => None,
        }
    }
}

/// The text of an error: the malformation, or the size limit when `None`.
pub open spec fn request_error_text(e: Option<Seq<char>>) -> Seq<char> {
    match e {
        Some(m) => m,
        None => "Content-Length exceeds 16 MiB"@,
    }
}

/// What `httparse` makes of the head of a request: an error text, `None`
/// while the head is incomplete, or the head's length with the method, the
/// path and the headers (names as text, values as bytes).
pub type HeadSpec = Result<Option<(nat, Option<Seq<char>>, Option<Seq<char>>, Seq<(Seq<char>, Seq<u8>)>)>, Seq<char>>;

/// `httparse::Request::parse` with room for `max_headers` headers; an error
/// is the `Debug` text of httparse's error.
pub uninterp spec fn http_head(buf: Seq<u8>, max_headers: usize) -> HeadSpec;

/// The outcome of `httparse::Request::parse`, with the borrowed parts copied out.
pub enum HeadParse {
    Invalid(String),
    Partial,
    Complete { head_len: usize, method: Option<String>, path: Option<String>, headers: Vec<(String, Vec<u8>)> },
}

pub open spec fn opt_view(o: Option<String>) -> Option<Seq<char>> {
    match o {
        Some(s) => Some(s@),
        None => None,
    }
}

pub open spec fn raw_headers_view(hs: Seq<(String, Vec<u8>)>) -> Seq<(Seq<char>, Seq<u8>)> {
    hs.map_values(|h: (String, Vec<u8>)| (h.0@, h.1@))
}

pub open spec fn head_view(h: HeadParse) -> HeadSpec {
    match h {
        HeadParse::Invalid(e) => Err(e@),
        HeadParse::Partial => Ok(None),
        HeadParse::Complete { head_len, method, path, headers } =>
            Ok(Some((head_len as nat, opt_view(method), opt_view(path), raw_headers_view(headers@)))),
    }
}

/// Parses the head with `httparse`, with `max_headers` header slots. On
/// `Complete` the crate's source sets the method and the path and reports an
/// offset inside the buffer; an error is given as its `Debug` text. The
/// parser reads the bytes in order and stops at the blank line that ends the
/// head, so a complete head parses the same whatever follows it.
#[verifier::external_body]
fn parse_head(buf: &[u8], max_headers: usize) -> (r: HeadParse)
    ensures
        head_view(r) == http_head(buf@, max_headers),
        r matches HeadParse::Complete { head_len, method, path, .. } ==> head_len <= buf@.len() && method is Some && path is Some,
        r matches HeadParse::Complete { .. } ==> forall|extra: Seq<u8>| #[trigger] http_head(buf@ + extra, max_headers) == head_view(r),
{
    let mut slots = vec![EMPTY_HEADER; max_headers];
    let mut req = Request::new(&mut slots);
    match req.parse(buf) {
        Err(e) => HeadParse::Invalid(format!("{:?}", e)),
        Ok(Status::Partial) => HeadParse::Partial,
        Ok(Status::Complete(n)) => HeadParse::Complete {
            head_len: n,
            method: req.method.map(String::from),
            path: req.path.map(String::from),
            headers: req.headers.iter().map(|h| (h.name.into(), h.value.into())).collect(),
        },
    }
}

pub open spec fn lower(s: Seq<char>) -> Seq<char> {
    s.map_values(|c: char| ascii_lower(c))
}

/// Lower-casing twice is lower-casing once.
pub proof fn lemma_lower_idempotent(s: Seq<char>)
    ensures
        lower(lower(s)) == lower(s),
{
    assert(lower(lower(s)) =~= lower(s));
}

/// Header processing so far: the headers kept (name lower-cased, value as
/// text) and the body length, or the text of the first error.
pub open spec fn process_headers(hs: Seq<(Seq<char>, Seq<u8>)>) -> Result<(Seq<(Seq<char>, Seq<char>)>, nat), Seq<char>>
    decreases hs.len(),
{
    if hs.len() == 0 {
        Ok((Seq::empty(), 0))
    } else {
        match process_headers(hs.drop_last()) {
            Err(e) => Err(e),
            Ok((kept, cl)) => {
                let name = lower(hs.last().0);
                let raw = hs.last().1;
                if !valid_utf8(raw) {
                    Err("non-utf8 header"@)
                } else {
                    let value = decode_utf8(raw);
                    if name == "content-length"@ {
                        match parse_unsigned(trim(value), usize::MAX as nat) {
                            None => Err("invalid Content-Length"@),
                            Some(n) => if cl != 0 && n != cl {
                                Err("conflicting Content-Length values"@)
                            } else {
                                Ok((kept.push((name, value)), n))
                            },
                        }
                    } else {
                        Ok((kept.push((name, value)), cl))
                    }
                }
            },
        }
    }
}

/// The parse of a request: `Ok(None)` while more bytes are needed, the
/// request once the head and the whole body are there, or an error
/// (`None` inside `Err` meaning the body is too large).
pub open spec fn parse_request_spec(buf: Seq<u8>)
    -> Result<Option<(Seq<char>, Seq<char>, Seq<(Seq<char>, Seq<char>)>, Seq<u8>)>, Option<Seq<char>>>
{
    match http_head(buf, MAX_HEADERS) {
        Err(e) => Err(Some("http parse: "@ + e)),
        Ok(None) => Ok(None),
        Ok(Some((head_len, method, path, raw))) => {
            if method is None {
                Err(Some("missing method"@))
            } else if path is None {
                Err(Some("missing path"@))
            } else {
                match process_headers(raw) {
                    Err(e) => Err(Some(e)),
                    Ok((kept, cl)) => {
                        if cl > MAX_BODY {
                            Err(None)
                        } else if buf.len() < head_len + cl {
                            Ok(None)
                        } else {
                            Ok(Some((method->0, path->0, kept, buf.subrange(head_len as int, (head_len + cl) as int))))
                        }
                    },
                }
            }
        },
    }
}

/// Once a prefix of the headers fails, the whole list fails the same way.
pub proof fn lemma_process_error_persists(hs: Seq<(Seq<char>, Seq<u8>)>, k: int)
    requires
        0 <= k <= hs.len(),
        process_headers(hs.take(k)) is Err,
    ensures
        process_headers(hs) == process_headers(hs.take(k)),
    decreases hs.len() - k,
{
    if k < hs.len() {
        assert(hs.take(k + 1).drop_last() =~= hs.take(k));
        lemma_process_error_persists(hs, k + 1);
    } else {
        assert(hs.take(k) =~= hs);
    }
}

pub open spec fn pairs_view(hs: Seq<(String, String)>) -> Seq<(Seq<char>, Seq<char>)> {
    hs.map_values(|h: (String, String)| (h.0@, h.1@))
}

fn lower_string(s: &str) -> (r: String)
    ensures
        r@ == lower(s@),
{
    let cs = chars_of(s);
    let mut out: Vec<char> = Vec::new();
    let mut i: usize = 0;
    while i < cs.len()
        invariant
            i <= cs.len(),
            out@ == lower(cs@.take(i as int)),
        decreases cs.len() - i,
    {
        out.push(ascii_lower_exec(cs[i]));
        assert(out@ =~= lower(cs@.take(i + 1)));
        i = i + 1;
    }
    assert(cs@.take(cs.len() as int) =~= cs@);
    string_of(&out)
}

fn copy_bytes(b: &[u8]) -> (r: Vec<u8>)
    ensures
        r@ == b@,
{
    let mut out: Vec<u8> = Vec::new();
    let mut i: usize = 0;
    while i < b.len()
        invariant
            i <= b.len(),
            out@ == b@.take(i as int),
        decreases b.len() - i,
    {
        out.push(b[i]);
        assert(out@ =~= b@.take(i + 1));
        i = i + 1;
    }
    assert(b@.take(b.len() as int) =~= b@);
    out
}

/// Parses an HTTP/1.1 request. `Ok(None)`: more bytes are needed;
/// `Ok(Some(r))`: the request; `Err(e)`: it cannot be served (answer 400,
/// or 413 for `TooLarge`).
pub fn parse_request(buf: &[u8]) -> (r: Result<Option<ParsedRequest>, RequestError>)
    ensures
        match parse_request_spec(buf@) {
            Ok(None) => r matches Ok(None),
            Ok(Some((m, p, hs, body))) => r matches Ok(Some(req)) && req.method@ == m && req.path@ == p
                && pairs_view(req.headers@) == hs && req.body@ == body,
            Err(e) => r matches Err(err) && err.view_err() == e,
        },
        r matches Ok(Some(_)) ==> forall|extra: Seq<u8>| #[trigger] parse_request_spec(buf@ + extra) == parse_request_spec(buf@),
        r matches Ok(Some(req)) ==> forall|i: int| 0 <= i < req.headers@.len()
            ==> lower(#[trigger] req.headers@[i].0@) == req.headers@[i].0@,
{
    let head = parse_head(buf, MAX_HEADERS);
    let ghost hv = head_view(head);
    let ghost complete = head is Complete;
    let (head_len, method, path, raw) = match head {
        HeadParse::Invalid(e) => {
            let mut m = String::from_str("http parse: ");
            push_str(&mut m, e.as_str());
            return Err(RequestError::Malformed(m));
        },
        HeadParse::Partial => return Ok(None),
        HeadParse::Complete { head_len, method, path, headers } => (head_len, method, path, headers),
    };
    let method = match method {
        Some(m) => m,
        None => return Err(RequestError::Malformed(String::from_str("missing method"))),
    };
    let path = match path {
        Some(p) => p,
        None => return Err(RequestError::Malformed(String::from_str("missing path"))),
    };
    let ghost rawv = raw_headers_view(raw@);
    let mut kept: Vec<(String, String)> = Vec::new();
    let mut content_length: usize = 0;
    let mut i: usize = 0;
    assert(rawv.take(0) =~= Seq::<(Seq<char>, Seq<u8>)>::empty());
    assert(pairs_view(kept@) =~= Seq::<(Seq<char>, Seq<char>)>::empty());
    while i < raw.len()
        invariant
            i <= raw.len(),
            rawv == raw_headers_view(raw@),
            http_head(buf@, MAX_HEADERS) == Ok::<Option<(nat, Option<Seq<char>>, Option<Seq<char>>, Seq<(Seq<char>, Seq<u8>)>)>, Seq<char>>(
                Some((head_len as nat, Some(method@), Some(path@), rawv))),
            process_headers(rawv.take(i as int)) == Ok::<(Seq<(Seq<char>, Seq<char>)>, nat), Seq<char>>(
                (pairs_view(kept@), content_length as nat)),
            forall|j: int| 0 <= j < kept@.len() ==> lower(#[trigger] kept@[j].0@) == kept@[j].0@,
        decreases raw.len() - i,
    {
        let ghost next = rawv.take(i + 1);
        assert(next.drop_last() =~= rawv.take(i as int));
        assert(next.last() == (raw@[i as int].0@, raw@[i as int].1@));
        let name_lc = lower_string(raw[i].0.as_str());
        let value = match utf8_string(raw[i].1.as_slice()) {
            Some(v) => v,
            None => {
                proof { lemma_process_error_persists(rawv, i + 1); }
                return Err(RequestError::Malformed(String::from_str("non-utf8 header")));
            },
        };
        let ghost old_kept = kept@;
        let is_cl = name_lc.eq(&String::from_str("content-length"));
        if is_cl {
            let t = trim_chars(&chars_of(value.as_str()));
            let new_cl = match parse_unsigned_exec(&t, usize::MAX as u64) {
                Some(v) => v as usize,
                None => {
                    proof { lemma_process_error_persists(rawv, i + 1); }
                    return Err(RequestError::Malformed(String::from_str("invalid Content-Length")));
                },
            };
            if content_length != 0 && new_cl != content_length {
                proof { lemma_process_error_persists(rawv, i + 1); }
                return Err(RequestError::Malformed(String::from_str("conflicting Content-Length values")));
            }
            content_length = new_cl;
        }
        proof { lemma_lower_idempotent(raw@[i as int].0@); }
        kept.push((name_lc, value));
        assert(pairs_view(kept@) =~= pairs_view(old_kept).push((kept@.last().0@, kept@.last().1@)));
        i = i + 1;
    }
    assert(rawv.take(raw.len() as int) =~= rawv);
    if content_length > MAX_BODY {
        return Err(RequestError::TooLarge);
    }
    if content_length > buf.len() - head_len {
        return Ok(None);
    }
    let total = head_len + content_length;
    let body = copy_bytes(&buf[head_len..total]);
    proof {
        assert(complete);
        assert forall|extra: Seq<u8>| #[trigger] parse_request_spec(buf@ + extra) == parse_request_spec(buf@) by {
            assert(http_head(buf@ + extra, MAX_HEADERS) == hv);
            assert((buf@ + extra).subrange(head_len as int, total as int)
                =~= buf@.subrange(head_len as int, total as int));
        }
    }
    Ok(Some(ParsedRequest { method, path, headers: kept, body }))
}

/// The reason phrase sent with a status code (empty when unknown).
pub open spec fn reason(s: u16) -> Seq<char> {
    if s == 200 { "OK"@ }
    else if s == 400 { "Bad Request"@ }
    else if s == 404 { "Not Found"@ }
    else if s == 405 { "Method Not Allowed"@ }
    else if s == 413 { "Payload Too Large"@ }
    else if s == 500 { "Internal Server Error"@ }
    else if s == 503 { "Service Unavailable"@ }
    else if s == 504 { "Gateway Timeout"@ }
    else { ""@ }
}

/// The reason phrase sent with a status code (empty when unknown).
pub fn reason_phrase(s: u16) -> (r: &'static str)
    ensures
        r@ == reason(s),
{
    match s {
        200 => "OK",
        400 => "Bad Request",
        404 => "Not Found",
        405 => "Method Not Allowed",
        413 => "Payload Too Large",
        500 => "Internal Server Error",
        503 => "Service Unavailable",
        504 => "Gateway Timeout",
        _ => "",
    }
}

pub open spec fn has_cr_or_lf(s: Seq<char>) -> bool {
    s.contains('\r') || s.contains('\n')
}

/// The header lines, each `name: value\r\n`.
pub open spec fn header_block(hs: Seq<(Seq<char>, Seq<char>)>) -> Seq<char>
    decreases hs.len(),
{
    if hs.len() == 0 {
        Seq::empty()
    } else {
        header_block(hs.drop_last()) + hs.last().0 + ": "@ + hs.last().1 + "\r\n"@
    }
}

/// The text of a response head.
pub open spec fn response_head(status: u16, hs: Seq<(Seq<char>, Seq<char>)>, body_len: nat) -> Seq<char> {
    "HTTP/1.1 "@ + decimal(status as nat) + " "@ + reason(status) + "\r\n"@ + header_block(hs)
        + "content-length: "@ + decimal(body_len) + "\r\n"@ + "connection: close\r\n"@ + "\r\n"@
}

/// The bytes of a response.
pub open spec fn response_bytes(status: u16, hs: Seq<(Seq<char>, Seq<char>)>, body: Seq<u8>) -> Seq<u8> {
    encode_utf8(response_head(status, hs, body.len())) + body
}

/// Serialises a response, adding `content-length` and `connection: close`.
/// Header names and values must not hold CR or LF (that would inject headers).
pub fn write_response(status: u16, headers: &[(String, String)], body: &[u8]) -> (r: Vec<u8>)
    requires
        forall|i: int| 0 <= i < headers@.len() ==> !has_cr_or_lf(#[trigger] headers@[i].0@) && !has_cr_or_lf(headers@[i].1@),
    ensures
        r@ == response_bytes(status, pairs_view(headers@), body@),
{
    let mut head = String::from_str("HTTP/1.1 ");
    push_chars(&mut head, &decimal_u64(status as u64));
    push_str(&mut head, " ");
    push_str(&mut head, reason_phrase(status));
    push_str(&mut head, "\r\n");
    let ghost start = head@;
    let mut i: usize = 0;
    while i < headers.len()
        invariant
            i <= headers.len(),
            head@ == start + header_block(pairs_view(headers@).take(i as int)),
        decreases headers.len() - i,
    {
        assert(pairs_view(headers@).take(i + 1).drop_last() =~= pairs_view(headers@).take(i as int));
        push_str(&mut head, headers[i].0.as_str());
        push_str(&mut head, ": ");
        push_str(&mut head, headers[i].1.as_str());
        push_str(&mut head, "\r\n");
        i = i + 1;
    }
    assert(pairs_view(headers@).take(headers.len() as int) =~= pairs_view(headers@));
    push_str(&mut head, "content-length: ");
    push_chars(&mut head, &decimal_u64(body.len() as u64));
    push_str(&mut head, "\r\n");
    push_str(&mut head, "connection: close\r\n");
    push_str(&mut head, "\r\n");
    assert(head@ =~= response_head(status, pairs_view(headers@), body@.len()));
    let hb = head.as_str().as_bytes();
    let mut out = copy_bytes(hb);
    let mut j: usize = 0;
    while j < body.len()
        invariant
            j <= body.len(),
            out@ == hb@ + body@.take(j as int),
        decreases body.len() - j,
    {
        out.push(body[j]);
        assert(out@ =~= hb@ + body@.take(j + 1));
        j = j + 1;
    }
    assert(body@.take(body.len() as int) =~= body@);
    out
}

/// Why a response header cannot be sent: CR or LF in its name or value.
pub fn validate_response_header(name: &str, value: &str) -> (r: Result<(), String>)
    ensures
        r is Ok <==> !has_cr_or_lf(name@) && !has_cr_or_lf(value@),
        has_cr_or_lf(name@) ==> (r matches Err(e) && e@ == "header name contains CR/LF"@),
        !has_cr_or_lf(name@) && has_cr_or_lf(value@) ==> (r matches Err(e) && e@ == "header value contains CR/LF"@),
{
    if has_cr_lf_exec(name) {
        return Err(String::from_str("header name contains CR/LF"));
    }
    if has_cr_lf_exec(value) {
        return Err(String::from_str("header value contains CR/LF"));
    }
    Ok(())
}

fn has_cr_lf_exec(s: &str) -> (r: bool)
    ensures
        r == has_cr_or_lf(s@),
{
    let cs = chars_of(s);
    let mut i: usize = 0;
    while i < cs.len()
        invariant
            i <= cs.len(),
            cs@ == s@,
            forall|j: int| 0 <= j < i ==> cs@[j] != '\r' && cs@[j] != '\n',
        decreases cs.len() - i,
    {
        if cs[i] == '\r' || cs[i] == '\n' {
            assert(s@.contains(cs@[i as int]));
            return true;
        }
        i = i + 1;
    }
    false
}

} // verus!
