//! JSON-RPC framing over a byte stream: `Content-Length: N\r\n\r\n` followed by
//! `N` bytes of UTF-8 body. `MessageBuffer` collects the bytes read from the
//! socket and hands out one complete body at a time.

use vstd::prelude::*;
use vstd::utf8::{decode_utf8, encode_utf8, valid_utf8};
use bytes::BytesMut;
use crate::text::{
    chars_of, eq_ignore_ascii_case, eq_ignore_ascii_case_exec, find_char, first_index_of,
    parse_unsigned, parse_unsigned_exec, split_once, trim, trim_chars, utf8_string,
};

verus! {

#[verifier::external_type_specification]
#[verifier::external_body]
pub struct ExBytesMut(BytesMut);

/// The bytes that a `BytesMut` holds.
pub uninterp spec fn bytes_held(b: BytesMut) -> Seq<u8>;

/// `BytesMut::new`: an empty buffer.
#[verifier::external_body]
fn bytes_new() -> (r: BytesMut)
    ensures
        bytes_held(r) == Seq::<u8>::empty(),
{
    BytesMut::new()
}

/// `BytesMut::extend_from_slice`: the chunk is appended at the end.
#[verifier::external_body]
fn bytes_extend(b: &mut BytesMut, chunk: &[u8])
    ensures
        bytes_held(*final(b)) == bytes_held(*old(b)) + chunk@,
{
    b.extend_from_slice(chunk)
}

/// The held bytes as a slice (`BytesMut` dereferences to `[u8]`).
#[verifier::external_body]
fn bytes_slice(b: &BytesMut) -> (r: &[u8])
    ensures
        r@ == bytes_held(*b),
{
    &b[..]
}

/// `BytesMut::split_to(at)`, with the front part dropped: what is left are
/// the bytes from `at` on. It panics when `at` exceeds the length.
#[verifier::external_body]
fn bytes_drop_front(b: &mut BytesMut, at: usize)
    requires
        at <= bytes_held(*old(b)).len(),
    ensures
        bytes_held(*final(b)) == bytes_held(*old(b)).skip(at as int),
{
    let _ = b.split_to(at);
}

/// Why a buffered frame cannot be read.
#[derive(Debug, Clone, Copy, PartialEq, Eq)]
pub enum FrameError {
    /// The header bytes are not UTF-8.
    InvalidHeader,
    /// No header line gives a usable `Content-Length`.
    MissingContentLength,
    /// The body bytes are not UTF-8.
    InvalidBody,
}

/// The text of a framing error.
pub open spec fn frame_error_text(e: FrameError) -> Seq<char> {
    match e {
        FrameError::InvalidHeader => "invalid header bytes"@,
        FrameError::MissingContentLength => "missing Content-Length"@,
        FrameError::InvalidBody => "invalid body utf-8"@,
    }
}

impl FrameError {
    /// The error's text.
    pub fn message(&self) -> (r: String)
        ensures
            r@ == frame_error_text(*self),
    {
        match self {
            FrameError::InvalidHeader => String::from_str("invalid header bytes"),
            FrameError::MissingContentLength => String::from_str("missing Content-Length"),
            FrameError::InvalidBody => String::from_str("invalid body utf-8"),
        }
    }
}

pub open spec fn crlfcrlf_at(s: Seq<u8>, i: int) -> bool {
    &&& 0 <= i
    &&& i + 4 <= s.len()
    &&& s[i] == 13u8
    &&& s[i + 1] == 10u8
    &&& s[i + 2] == 13u8
    &&& s[i + 3] == 10u8
}

/// The first position at or after `i` where `\r\n\r\n` starts.
pub open spec fn find_crlfcrlf_from(s: Seq<u8>, i: int) -> Option<int>
    decreases s.len() - i,
{
    if i < 0 || i + 4 > s.len() {
        None
    } else if crlfcrlf_at(s, i) {
        Some(i)
    } else {
        find_crlfcrlf_from(s, i + 1)
    }
}

/// Where the header ends: the first `\r\n\r\n`.
pub open spec fn find_crlfcrlf(s: Seq<u8>) -> Option<int> {
    find_crlfcrlf_from(s, 0)
}

/// `str::split("\r\n")`, scanning from `i` with the current piece starting at `start`.
pub open spec fn lines_from(s: Seq<char>, start: int, i: int) -> Seq<Seq<char>>
    decreases s.len() - i,
{
    if i < 0 || i + 1 >= s.len() {
        seq![s.subrange(start, s.len() as int)]
    } else if s[i] == '\r' && s[i + 1] == '\n' {
        seq![s.subrange(start, i)] + lines_from(s, i + 2, i + 2)
    } else {
        lines_from(s, start, i + 1)
    }
}

/// The header lines: the header text split at each `\r\n`.
pub open spec fn header_lines(s: Seq<char>) -> Seq<Seq<char>> {
    lines_from(s, 0, 0)
}

/// What one header line says of the length: nothing when it is not a
/// `Content-Length` line; otherwise the parsed value, or none when the value
/// does not parse.
pub open spec fn line_length(line: Seq<char>) -> Option<Option<nat>> {
    match split_once(line, ':') {
        Some(kv) => if eq_ignore_ascii_case(kv.0, "Content-Length"@) {
            Some(parse_unsigned(trim(kv.1), usize::MAX as nat))
        } else {
            None
        },
        None => None,
    }
}

/// The length that the header lines give: the last `Content-Length` line decides.
pub open spec fn content_length(lines: Seq<Seq<char>>) -> Option<nat>
    decreases lines.len(),
{
    if lines.len() == 0 {
        None
    } else {
        match line_length(lines.last()) {
            Some(v) => v,
            None => content_length(lines.drop_last()),
        }
    }
}

/// What reading one frame from the buffered bytes gives: not enough bytes
/// yet, an error, or the body with the number of bytes the frame took.
pub open spec fn read_frame(buf: Seq<u8>) -> Result<Option<(Seq<char>, nat)>, FrameError> {
    match find_crlfcrlf(buf) {
        None => Ok(None),
        Some(sep) => {
            let hb = buf.take(sep);
            if !valid_utf8(hb) {
                Err(FrameError::InvalidHeader)
            } else {
                match content_length(header_lines(decode_utf8(hb))) {
                    None => Err(FrameError::MissingContentLength),
                    Some(len) => {
                        if sep + 4 + len > buf.len() {
                            Ok(None)
                        } else {
                            let bb = buf.subrange(sep + 4, sep + 4 + len);
                            if !valid_utf8(bb) {
                                Err(FrameError::InvalidBody)
                            } else {
                                Ok(Some((decode_utf8(bb), (sep + 4 + len) as nat)))
                            }
                        }
                    },
                }
            }
        },
    }
}

/// The header that announces a body of `n` bytes.
pub open spec fn frame_header(n: nat) -> Seq<char> {
    "Content-Length: "@ + crate::text::decimal(n) + "\r\n\r\n"@
}

/// A body with its header in front.
pub open spec fn frame_bytes(body: Seq<u8>) -> Seq<u8> {
    encode_utf8(frame_header(body.len())) + body
}

/// The first `\r\n\r\n` in the bytes (the header's end).
pub fn find_double_crlf(buf: &[u8]) -> (r: Option<usize>)
    ensures
        r matches Some(k) ==> find_crlfcrlf(buf@) == Some(k as int) && k + 4 <= buf@.len(),
        r is None ==> find_crlfcrlf(buf@) is None,
{
    if buf.len() < 4 {
        return None;
    }
    let mut i: usize = 0;
    while i < buf.len() - 3
        invariant
            buf.len() >= 4,
            i <= buf.len() - 3,
            find_crlfcrlf(buf@) == find_crlfcrlf_from(buf@, i as int),
        decreases buf.len() - i,
    {
        if buf[i] == 13u8 && buf[i + 1] == 10u8 && buf[i + 2] == 13u8 && buf[i + 3] == 10u8 {
            assert(crlfcrlf_at(buf@, i as int));
            return Some(i);
        }
        i = i + 1;
    }
    None
}

pub open spec fn opt_nat(o: Option<usize>) -> Option<nat> {
    match o {
        Some(v) => Some(v as nat),
        None => None,
    }
}

/// What one header line says of the length (see `line_length`).
fn line_content_length(line: &[char]) -> (r: Option<Option<usize>>)
    ensures
        match line_length(line@) {
            None => r is None,
            Some(v) => r matches Some(x) && opt_nat(x) == v,
        },
{
    proof { crate::text::lemma_first_index_of(line@, ':'); }
    let c = match find_char(line, ':') {
        Some(c) => c,
        None => return None,
    };
    let n = line.len();
    assert(c < n);
    let key = &line[0..c];
    let value = &line[c + 1..n];
    assert(key@ =~= line@.take(c as int));
    assert(value@ =~= line@.skip(c + 1));
    let target = chars_of("Content-Length");
    if eq_ignore_ascii_case_exec(key, &target) {
        let t = trim_chars(value);
        match parse_unsigned_exec(&t, usize::MAX as u64) {
            Some(v) => Some(Some(v as usize)),
            None => Some(None),
        }
    } else {
        None
    }
}

/// The length that the header text gives (see `content_length`).
fn header_content_length(h: &[char]) -> (r: Option<usize>)
    ensures
        opt_nat(r) == content_length(header_lines(h@)),
{
    let n = h.len();
    let mut start: usize = 0;
    let mut i: usize = 0;
    let mut cl: Option<usize> = None;
    let ghost mut done: Seq<Seq<char>> = Seq::empty();
    while n > 0 && i < n - 1
        invariant
            start <= i <= n,
            n == h@.len(),
            header_lines(h@) == done + lines_from(h@, start as int, i as int),
            opt_nat(cl) == content_length(done),
        decreases n - i,
    {
        if h[i] == '\r' && h[i + 1] == '\n' {
            let line = &h[start..i];
            let ghost l = h@.subrange(start as int, i as int);
            assert(line@ == l);
            match line_content_length(line) {
                Some(v) => { cl = v; },
                None => {},
            }
            proof {
                assert(done.push(l).drop_last() =~= done);
                assert(done.push(l) + lines_from(h@, i + 2, i + 2) =~= done + lines_from(h@, start as int, i as int));
                done = done.push(l);
            }
            start = i + 2;
            i = i + 2;
        } else {
            i = i + 1;
        }
    }
    let line = &h[start..n];
    let ghost l = h@.subrange(start as int, n as int);
    assert(line@ == l);
    match line_content_length(line) {
        Some(v) => { cl = v; },
        None => {},
    }
    proof {
        assert(lines_from(h@, start as int, i as int) == seq![l]);
        assert(done.push(l).drop_last() =~= done);
        assert(header_lines(h@) =~= done.push(l));
    }
    cl
}

/// Collects the bytes read from a stream and cuts complete frames off its front.
pub struct MessageBuffer {
    buf: BytesMut,
}

impl MessageBuffer {
    /// The bytes collected and not yet handed out.
    pub closed spec fn pending(&self) -> Seq<u8> {
        bytes_held(self.buf)
    }

    /// An empty buffer.
    pub fn new() -> (r: MessageBuffer)
        ensures
            r.pending() == Seq::<u8>::empty(),
    {
        MessageBuffer { buf: bytes_new() }
    }

    /// Adds bytes read from the stream.
    pub fn append(&mut self, chunk: &[u8])
        ensures
            final(self).pending() == old(self).pending() + chunk@,
    {
        bytes_extend(&mut self.buf, chunk);
    }

    /// Hands out the body of the first complete frame, if there is one, and
    /// drops that frame from the buffer. `Ok(None)` means more bytes are
    /// needed; on an error nothing is dropped.
    pub fn try_read_message(&mut self) -> (r: Result<Option<String>, FrameError>)
        ensures
            match read_frame(old(self).pending()) {
                Ok(Some((body, used))) => r matches Ok(Some(s)) && s@ == body
                    && final(self).pending() == old(self).pending().skip(used as int),
                Ok(None) => r == Ok::<Option<String>, FrameError>(None) && final(self).pending() == old(self).pending(),
                Err(e) => r == Err::<Option<String>, FrameError>(e) && final(self).pending() == old(self).pending(),
            },
    {
        let ghost buf = bytes_held(self.buf);
        let data = bytes_slice(&self.buf);
        let dlen = data.len();
        let sep = match find_double_crlf(data) {
            Some(i) => i,
            None => return Ok(None),
        };
        assert(sep + 4 <= dlen);
        proof { lemma_find_from_bounds(buf, 0); }
        assert(find_crlfcrlf(buf) == Some(sep as int));
        assert(crlfcrlf_at(buf, sep as int));
        let header = match utf8_string(&data[0..sep]) {
            Some(h) => h,
            None => {
                assert(data@.subrange(0, sep as int) =~= buf.take(sep as int));
                return Err(FrameError::InvalidHeader);
            },
        };
        assert(data@.subrange(0, sep as int) =~= buf.take(sep as int));
        let hc = chars_of(header.as_str());
        let len = match header_content_length(&hc) {
            Some(l) => l,
            None => return Err(FrameError::MissingContentLength),
        };
        let body_start = sep + 4;
        if len > dlen - body_start {
            return Ok(None);
        }
        let total = body_start + len;
        let body = match utf8_string(&data[body_start..total]) {
            Some(b) => b,
            None => return Err(FrameError::InvalidBody),
        };
        bytes_drop_front(&mut self.buf, total);
        Ok(Some(body))
    }
}

pub proof fn lemma_find_from_bounds(s: Seq<u8>, i: int)
    ensures
        find_crlfcrlf_from(s, i) matches Some(j) ==> i <= j && crlfcrlf_at(s, j),
    decreases s.len() - i,
{
    if !(i < 0 || i + 4 > s.len()) && !crlfcrlf_at(s, i) {
        lemma_find_from_bounds(s, i + 1);
    }
}

/// The bytes of a frame: the header announcing the body's length, then the body.
pub fn frame_message(body: &[u8]) -> (r: Vec<u8>)
    ensures
        r@ == frame_bytes(body@),
{
    let mut header = String::from_str("Content-Length: ");
    let digits = crate::text::decimal_u64(body.len() as u64);
    crate::text::push_chars(&mut header, &digits);
    crate::text::push_str(&mut header, "\r\n\r\n");
    assert(header@ == frame_header(body@.len()));
    let hb = header.as_str().as_bytes();
    let mut out: Vec<u8> = Vec::new();
    let mut i: usize = 0;
    while i < hb.len()
        invariant
            i <= hb.len(),
            out@ == hb@.take(i as int),
        decreases hb.len() - i,
    {
        out.push(hb[i]);
        assert(out@ =~= hb@.take(i + 1));
        i = i + 1;
    }
    assert(hb@.take(hb.len() as int) =~= hb@);
    let mut j: usize = 0;
    while j < body.len()
        invariant
            j <= body.len(),
            out@ == hb@ + body@.take(j as int),
        decreases body.len() - j,
    {
        out.push(body[j]);
        assert(out@ =~= hb@ + body@.take(j + 1));
        j = j + 1;
    }
    assert(body@.take(body.len() as int) =~= body@);
    out
}

proof fn lemma_find_first(s: Seq<u8>, j: int, p: int)
    requires
        0 <= j <= p,
        crlfcrlf_at(s, p),
        forall|k: int| j <= k < p ==> !crlfcrlf_at(s, k),
    ensures
        find_crlfcrlf_from(s, j) == Some(p),
    decreases p - j,
{
    if j < p {
        lemma_find_first(s, j + 1, p);
    }
}

proof fn lemma_lines_without_cr(s: Seq<char>, i: int)
    requires
        0 <= i,
        forall|k: int| 0 <= k < s.len() ==> s[k] != '\r',
    ensures
        lines_from(s, 0, i) == seq![s],
    decreases s.len() - i,
{
    if i + 1 < s.len() {
        lemma_lines_without_cr(s, i + 1);
    }
    assert(s.subrange(0, s.len() as int) =~= s);
}

/// A frame reads back as its body: whatever follows it in the buffer, reading
/// gives the body and uses exactly the frame's bytes.
pub proof fn law_frame_roundtrip(body: Seq<u8>, rest: Seq<u8>)
    requires
        valid_utf8(body),
        body.len() <= usize::MAX,
    ensures
        read_frame(frame_bytes(body) + rest)
            == Ok::<Option<(Seq<char>, nat)>, FrameError>(Some((decode_utf8(body), frame_bytes(body).len()))),
{
    reveal_strlit("Content-Length: ");
    reveal_strlit("\r\n\r\n");
    reveal_strlit("Content-Length");
    let n = body.len();
    let d = crate::text::decimal(n);
    crate::text::lemma_decimal_digits(n);
    let hh = "Content-Length: "@ + d;
    let h = frame_header(n);
    assert(h =~= hh + "\r\n\r\n"@);
    assert forall|k: int| 0 <= k < d.len() implies '0' <= #[trigger] d[k] <= '9' by {
        assert(crate::text::is_digit(d[k]));
    }
    assert(vstd::utf8::is_ascii_chars(h));
    assert(vstd::utf8::is_ascii_chars(hh));
    vstd::utf8::is_ascii_chars_encode_utf8(h);
    vstd::utf8::is_ascii_chars_encode_utf8(hh);
    let eh = encode_utf8(h);
    let buf = frame_bytes(body) + rest;
    assert(buf =~= eh + body + rest);
    let sep = hh.len() as int;
    assert(sep == 16 + d.len());
    // The header text holds no carriage return before the blank line.
    assert forall|k: int| 0 <= k < hh.len() implies hh[k] != '\r' by {
        if k >= 16 {
            assert(hh[k] == d[k - 16]);
            assert(crate::text::is_digit(d[k - 16]));
        }
    }
    assert forall|k: int| 0 <= k < sep implies !crlfcrlf_at(buf, k) by {
        assert(buf[k] == eh[k]);
        assert(eh[k] == h[k] as u8);
        assert(h[k] == hh[k]);
        assert(hh[k] != '\r');
        vstd::utf8::is_ascii_chars_nat_bound(h);
    }
    assert(crlfcrlf_at(buf, sep)) by {
        assert(buf[sep] == eh[sep]);
        assert(buf[sep + 1] == eh[sep + 1]);
        assert(buf[sep + 2] == eh[sep + 2]);
        assert(buf[sep + 3] == eh[sep + 3]);
    }
    lemma_find_first(buf, 0, sep);
    let hb = buf.take(sep);
    assert(hb =~= encode_utf8(hh)) by {
        assert forall|k: int| 0 <= k < sep implies hb[k] == encode_utf8(hh)[k] by {
            assert(buf[k] == eh[k]);
            assert(h[k] == hh[k]);
        }
    }
    vstd::utf8::encode_utf8_valid_utf8(hh);
    vstd::utf8::encode_utf8_decode_utf8(hh);
    lemma_lines_without_cr(hh, 0);
    let lines = header_lines(hh);
    assert(lines == seq![hh]);
    // The only line is `Content-Length: n`.
    crate::text::lemma_first_index_of(hh, ':');
    assert(hh[14] == ':');
    assert(first_index_of(hh, ':') == Some(14int)) by {
        match first_index_of(hh, ':') {
            Some(i) => {
                if i < 14 { assert(hh[i] != ':'); }
                if i > 14 { assert(hh[14] != ':'); }
            },
            None => { assert(hh[14] != ':'); },
        }
    }
    let key = hh.take(14);
    let value = hh.skip(15);
    assert(key =~= "Content-Length"@);
    assert(value =~= seq![' '] + d);
    assert(value.drop_first() =~= d);
    assert(crate::text::trim_start(value) == crate::text::trim_start(d));
    assert(!crate::text::is_whitespace(d[0])) by {
        assert(crate::text::is_digit(d[0]));
    }
    assert(crate::text::trim_start(d) == d);
    assert(!crate::text::is_whitespace(d.last())) by {
        assert(crate::text::is_digit(d[d.len() - 1]));
    }
    assert(crate::text::trim_end(d) == d);
    assert(trim(value) == d);
    crate::text::lemma_parse_decimal(n, usize::MAX as nat);
    assert(eq_ignore_ascii_case(key, "Content-Length"@));
    assert(line_length(hh) == Some(Some(n)));
    assert(lines.last() == hh);
    assert(content_length(lines) == Some(n));
    assert(sep + 4 == h.len());
    let bb = buf.subrange(sep + 4, sep + 4 + n);
    assert(bb =~= body);
}

proof fn lemma_find_is_first(s: Seq<u8>, j: int)
    ensures
        find_crlfcrlf_from(s, j) matches Some(p) ==> crlfcrlf_at(s, p)
            && forall|i: int| j <= i < p ==> !#[trigger] crlfcrlf_at(s, i),
    decreases s.len() - j,
{
    if !(j < 0 || j + 4 > s.len()) && !crlfcrlf_at(s, j) {
        lemma_find_is_first(s, j + 1);
    }
}

proof fn lemma_find_none(s: Seq<u8>, j: int)
    requires
        0 <= j,
        forall|i: int| j <= i ==> !#[trigger] crlfcrlf_at(s, i),
    ensures
        find_crlfcrlf_from(s, j) is None,
    decreases s.len() - j,
{
    if j + 4 <= s.len() {
        lemma_find_none(s, j + 1);
    }
}

/// A frame that arrives in two pieces: the first piece alone (any strict
/// prefix of the frame) reads as "not enough bytes yet", so nothing is
/// taken from the buffer; with the rest appended the body reads back and
/// the whole frame is used, leaving nothing to read.
pub proof fn law_frame_in_pieces(body: Seq<u8>, k: int)
    requires
        valid_utf8(body),
        body.len() <= usize::MAX,
        0 <= k < frame_bytes(body).len(),
    ensures
        read_frame(frame_bytes(body).take(k)) == Ok::<Option<(Seq<char>, nat)>, FrameError>(None),
        read_frame(frame_bytes(body).take(k) + frame_bytes(body).skip(k))
            == Ok::<Option<(Seq<char>, nat)>, FrameError>(Some((decode_utf8(body), frame_bytes(body).len()))),
        (frame_bytes(body).take(k) + frame_bytes(body).skip(k)).skip(frame_bytes(body).len() as int)
            == Seq::<u8>::empty(),
        read_frame(Seq::<u8>::empty()) == Ok::<Option<(Seq<char>, nat)>, FrameError>(None),
{
    let f = frame_bytes(body);
    law_frame_roundtrip(body, Seq::empty());
    assert(f + Seq::<u8>::empty() =~= f);
    assert(f.take(k) + f.skip(k) =~= f);
    assert((f.take(k) + f.skip(k)).skip(f.len() as int) =~= Seq::<u8>::empty());
    let sep = find_crlfcrlf(f)->0;
    lemma_find_is_first(f, 0);
    let len = content_length(header_lines(decode_utf8(f.take(sep))))->0;
    assert(sep + 4 + len == f.len());
    let p = f.take(k);
    assert forall|i: int| i + 4 <= k implies (#[trigger] crlfcrlf_at(p, i) <==> crlfcrlf_at(f, i)) by {}
    if k < sep + 4 {
        assert forall|i: int| 0 <= i implies !#[trigger] crlfcrlf_at(p, i) by {
            if crlfcrlf_at(p, i) {
                assert(crlfcrlf_at(f, i));
            }
        }
        lemma_find_none(p, 0);
    } else {
        assert(crlfcrlf_at(p, sep));
        assert forall|i: int| 0 <= i < sep implies !#[trigger] crlfcrlf_at(p, i) by {
            assert(!crlfcrlf_at(f, i));
        }
        lemma_find_first(p, 0, sep);
        assert(p.take(sep) =~= f.take(sep));
    }
    assert(find_crlfcrlf_from(Seq::<u8>::empty(), 0) is None);
}

/// Every header line is consulted: a `Content-Length` line with a valid
/// number decides the length whatever lines that are not `Content-Length`
/// lines follow it (a `Content-Type` line, say).
pub proof fn law_length_from_any_line(lines: Seq<Seq<char>>, j: int, n: nat)
    requires
        0 <= j < lines.len(),
        line_length(lines[j]) == Some(Some(n)),
        forall|q: int| j < q < lines.len() ==> line_length(#[trigger] lines[q]) is None,
    ensures
        content_length(lines) == Some(n),
    decreases lines.len(),
{
    if j < lines.len() - 1 {
        let d = lines.drop_last();
        assert(line_length(lines[lines.len() - 1]) is None);
        assert forall|q: int| j < q < d.len() implies line_length(#[trigger] d[q]) is None by {
            assert(d[q] == lines[q]);
        }
        law_length_from_any_line(d, j, n);
    }
}

/// A frame whose header has a valid `Content-Length: n` line, followed by
/// any lines that are not `Content-Length` lines, reads as the `n` bytes
/// after the blank line once they are all there.
pub proof fn law_frame_with_more_headers(buf: Seq<u8>, sep: int, j: int, n: nat)
    requires
        find_crlfcrlf(buf) == Some(sep),
        valid_utf8(buf.take(sep)),
        0 <= j < header_lines(decode_utf8(buf.take(sep))).len(),
        line_length(header_lines(decode_utf8(buf.take(sep)))[j]) == Some(Some(n)),
        forall|q: int| j < q < header_lines(decode_utf8(buf.take(sep))).len()
            ==> line_length(#[trigger] header_lines(decode_utf8(buf.take(sep)))[q]) is None,
        sep + 4 + n <= buf.len(),
        valid_utf8(buf.subrange(sep + 4, sep + 4 + n)),
    ensures
        read_frame(buf) == Ok::<Option<(Seq<char>, nat)>, FrameError>(
            Some((decode_utf8(buf.subrange(sep + 4, sep + 4 + n)), (sep + 4 + n) as nat)),
        ),
{
    law_length_from_any_line(header_lines(decode_utf8(buf.take(sep))), j, n);
}

} // verus!
