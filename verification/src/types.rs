//! Language server data: positions, ranges, locations, edits and
//! diagnostics; `file:///` URIs; and the human-readable forms the command
//! line prints for them.

use vstd::prelude::*;
use vstd::utf8::{decode_utf8, encode_utf8, valid_utf8};
use crate::json::{jget, json_view, ju64, jstr, lemma_view_parts, entries_view, items_view, Json, JsonV};
use crate::text::{
    chars_of, decimal, decimal_u64, push_char, push_chars, push_str, starts_with, starts_with_chars,
    string_of,
};

verus! {

/// A position in a document, 0-based.
#[derive(Debug, Clone, Copy, PartialEq, Eq, Structural)]
pub struct Position {
    pub line: u32,
    pub character: u32,
}

/// A range between two positions.
#[derive(Debug, Clone, Copy, PartialEq, Eq, Structural)]
pub struct Range {
    pub start: Position,
    pub end: Position,
}

/// A range in the document a URI names.
#[derive(Debug, Clone)]
pub struct Location {
    pub uri: String,
    pub range: Range,
}

/// Text replacing a range.
#[derive(Debug, Clone)]
pub struct TextEdit {
    pub range: Range,
    pub new_text: String,
}

/// The changes a rename asks for: edits per document URI, or the
/// server's `documentChanges` as they came.
#[derive(Debug)]
pub struct WorkspaceEdit {
    pub changes: Option<Vec<(String, Vec<TextEdit>)>>,
    pub document_changes: Option<Json>,
}

/// A message about a range of a document.
#[derive(Debug)]
pub struct Diagnostic {
    pub range: Range,
    pub severity: Option<u32>,
    pub code: Option<Json>,
    pub message: String,
    pub source: Option<String>,
}

/// The names of the symbol kinds, by number.
pub open spec fn symbol_kinds() -> Seq<Seq<char>> {
    seq![
        "Unknown"@, "File"@, "Module"@, "Namespace"@, "Package"@, "Class"@,
        "Method"@, "Property"@, "Field"@, "Constructor"@, "Enum"@,
        "Interface"@, "Function"@, "Variable"@, "Constant"@,
        "String"@, "Number"@, "Boolean"@, "Array"@, "Object"@,
        "Key"@, "Null"@, "EnumMember"@, "Struct"@, "Event"@,
        "Operator"@, "TypeParameter"@,
    ]
}

/// The name of a symbol kind, or `Unknown(<n>)` past the known ones.
pub open spec fn symbol_kind_text(kind: u32) -> Seq<char> {
    if kind < 27 { symbol_kinds()[kind as int] } else { "Unknown("@ + decimal(kind as nat) + ")"@ }
}

fn kind_str(kind: u32) -> (r: &'static str)
    requires
        kind < 27,
    ensures
        r@ == symbol_kinds()[kind as int],
{
    match kind {
        0 => "Unknown",
        1 => "File",
        2 => "Module",
        3 => "Namespace",
        4 => "Package",
        5 => "Class",
        6 => "Method",
        7 => "Property",
        8 => "Field",
        9 => "Constructor",
        10 => "Enum",
        11 => "Interface",
        12 => "Function",
        13 => "Variable",
        14 => "Constant",
        15 => "String",
        16 => "Number",
        17 => "Boolean",
        18 => "Array",
        19 => "Object",
        20 => "Key",
        21 => "Null",
        22 => "EnumMember",
        23 => "Struct",
        24 => "Event",
        25 => "Operator",
        _ => "TypeParameter",
    }
}

pub fn symbol_kind_name(kind: u32) -> (r: String)
    ensures
        r@ == symbol_kind_text(kind),
{
    if kind < 27 {
        String::from_str(kind_str(kind))
    } else {
        let mut s = String::from_str("Unknown(");
        let d = decimal_u64(kind as u64);
        push_chars(&mut s, d.as_slice());
        push_str(&mut s, ")");
        s
    }
}

/// `start_line:start_col-end_line:end_col`
pub open spec fn range_text(r: Range) -> Seq<char> {
    decimal(r.start.line as nat) + ":"@ + decimal(r.start.character as nat) + "-"@
        + decimal(r.end.line as nat) + ":"@ + decimal(r.end.character as nat)
}

pub fn format_range(r: &Range) -> (s: String)
    ensures
        s@ == range_text(*r),
{
    let mut s = String::new();
    let a = decimal_u64(r.start.line as u64);
    push_chars(&mut s, a.as_slice());
    push_str(&mut s, ":");
    let b = decimal_u64(r.start.character as u64);
    push_chars(&mut s, b.as_slice());
    push_str(&mut s, "-");
    let c = decimal_u64(r.end.line as u64);
    push_chars(&mut s, c.as_slice());
    push_str(&mut s, ":");
    let d = decimal_u64(r.end.character as u64);
    push_chars(&mut s, d.as_slice());
    assert(s@ =~= range_text(*r));
    s
}

/// The name of a severity; a missing one counts as an error.
pub open spec fn severity_text(s: Option<u32>) -> Seq<char> {
    let v = match s { Some(v) => v, None => 1 };
    if v == 1 { "error"@ } else if v == 2 { "warning"@ } else if v == 3 { "info"@ } else if v == 4 { "hint"@ } else { ""@ }
}

pub fn severity_name(s: Option<u32>) -> (r: &'static str)
    ensures
        r@ == severity_text(s),
{
    let v = match s { Some(v) => v, None => 1 };
    if v == 1 { "error" } else if v == 2 { "warning" } else if v == 3 { "info" } else if v == 4 { "hint" } else { "" }
}

/// `  [<severity>] <range>: <message>`
pub open spec fn diagnostic_text(severity: Option<u32>, range: Range, message: Seq<char>) -> Seq<char> {
    "  ["@ + severity_text(severity) + "] "@ + range_text(range) + ": "@ + message
}

pub fn format_diagnostic(d: &Diagnostic) -> (r: String)
    ensures
        r@ == diagnostic_text(d.severity, d.range, d.message@),
{
    let mut s = String::from_str("  [");
    push_str(&mut s, severity_name(d.severity));
    push_str(&mut s, "] ");
    let r = format_range(&d.range);
    push_str(&mut s, r.as_str());
    push_str(&mut s, ": ");
    push_str(&mut s, d.message.as_str());
    s
}

/// Bytes a `file:///` URI writes as `%XX`: controls, non-ASCII bytes,
/// space and `"<>\^`{|}`.
pub open spec fn must_encode(b: u8) -> bool {
    b < 0x20 || b >= 0x7f || b == 0x20 || b == 0x22 || b == 0x3c || b == 0x3e || b == 0x5c || b == 0x5e
        || b == 0x60 || b == 0x7b || b == 0x7c || b == 0x7d
}

pub open spec fn hex_digit(d: u8) -> char {
    if d < 10 { ((d + 48) as u8) as char } else { ((d + 55) as u8) as char }
}

/// How one byte is written in a URI: `%XX` (upper-case hexadecimal) when it
/// must be encoded, else the ASCII character it is.
pub open spec fn encoded_byte(x: u8) -> Seq<char> {
    if must_encode(x) {
        seq!['%', hex_digit(x / 16), hex_digit(x % 16)]
    } else {
        seq![x as char]
    }
}

/// The text for some bytes, each written as `encoded_byte` says.
pub open spec fn percent_encoded(b: Seq<u8>) -> Seq<char>
    decreases b.len(),
{
    if b.len() == 0 {
        Seq::empty()
    } else {
        encoded_byte(b[0]) + percent_encoded(b.skip(1))
    }
}

proof fn lemma_percent_encoded_push(b: Seq<u8>, x: u8)
    ensures
        percent_encoded(b.push(x)) == percent_encoded(b) + encoded_byte(x),
    decreases b.len(),
{
    if b.len() == 0 {
        assert(b.push(x).skip(1) =~= Seq::<u8>::empty());
        assert(percent_encoded(Seq::<u8>::empty()) == Seq::<char>::empty());
        assert(percent_encoded(b.push(x)) == encoded_byte(x) + percent_encoded(b.push(x).skip(1)));
        assert(percent_encoded(b.push(x)) =~= encoded_byte(x));
    } else {
        assert(b.push(x).skip(1) =~= b.skip(1).push(x));
        lemma_percent_encoded_push(b.skip(1), x);
        assert(percent_encoded(b.push(x)) =~= percent_encoded(b) + encoded_byte(x));
    }
}

/// A path with `\` written as `/`.
pub open spec fn forward_slashes(s: Seq<char>) -> Seq<char> {
    s.map_values(|c: char| if c == '\\' { '/' } else { c })
}

/// The path without its leading `/` characters.
pub open spec fn trim_slashes(s: Seq<char>) -> Seq<char>
    decreases s.len(),
{
    if s.len() > 0 && s[0] == '/' { trim_slashes(s.drop_first()) } else { s }
}

/// The `file:///` URI of an absolute path.
pub open spec fn uri_of_path(path: Seq<char>) -> Seq<char> {
    "file:///"@ + percent_encoded(encode_utf8(trim_slashes(forward_slashes(path))))
}

fn hex_digit_exec(d: u8) -> (c: char)
    requires
        d < 16,
    ensures
        c == hex_digit(d),
{
    if d < 10 { (d + 48) as char } else { (d + 55) as char }
}

/// The `file:///` URI for an absolute path: `\` becomes `/`, leading `/`
/// are dropped and the UTF-8 bytes that need it are percent-encoded.
pub fn path_to_uri(path: &str) -> (r: String)
    ensures
        r@ == uri_of_path(path@),
{
    let cs = chars_of(path);
    let mut fixed: Vec<char> = Vec::new();
    let mut i: usize = 0;
    while i < cs.len()
        invariant
            i <= cs@.len(),
            fixed@ == forward_slashes(cs@.take(i as int)),
        decreases cs.len() - i,
    {
        let c = if cs[i] == '\\' { '/' } else { cs[i] };
        fixed.push(c);
        assert(fixed@ =~= forward_slashes(cs@.take(i + 1)));
        i = i + 1;
    }
    assert(cs@.take(cs@.len() as int) =~= cs@);
    let mut a: usize = 0;
    assert(fixed@.skip(0) =~= fixed@);
    while a < fixed.len() && fixed[a] == '/'
        invariant
            a <= fixed@.len(),
            trim_slashes(fixed@) == trim_slashes(fixed@.skip(a as int)),
        decreases fixed.len() - a,
    {
        assert(fixed@.skip(a as int).drop_first() =~= fixed@.skip(a + 1));
        a = a + 1;
    }
    let mut rest: Vec<char> = Vec::new();
    let mut k = a;
    while k < fixed.len()
        invariant
            a <= k <= fixed@.len(),
            rest@ == fixed@.subrange(a as int, k as int),
        decreases fixed.len() - k,
    {
        rest.push(fixed[k]);
        assert(rest@ =~= fixed@.subrange(a as int, k + 1));
        k = k + 1;
    }
    assert(rest@ =~= fixed@.skip(a as int));
    let trimmed = string_of(rest.as_slice());
    let bytes = trimmed.as_str().as_bytes_vec();
    let mut out = String::from_str("file:///");
    let ghost head = out@;
    let mut j: usize = 0;
    while j < bytes.len()
        invariant
            j <= bytes@.len(),
            out@ == head + percent_encoded(bytes@.take(j as int)),
        decreases bytes.len() - j,
    {
        let b = bytes[j];
        proof {
            assert(bytes@.take(j + 1) =~= bytes@.take(j as int).push(b));
            lemma_percent_encoded_push(bytes@.take(j as int), b);
        }
        if b < 0x20 || b >= 0x7f || b == 0x20 || b == 0x22 || b == 0x3c || b == 0x3e || b == 0x5c
            || b == 0x5e || b == 0x60 || b == 0x7b || b == 0x7c || b == 0x7d {
            push_char(&mut out, '%');
            push_char(&mut out, hex_digit_exec(b / 16));
            push_char(&mut out, hex_digit_exec(b % 16));
        } else {
            push_char(&mut out, b as char);
        }
        assert(out@ =~= head + percent_encoded(bytes@.take(j + 1)));
        j = j + 1;
    }
    assert(bytes@.take(bytes@.len() as int) =~= bytes@);
    out
}

pub open spec fn hex_value(b: u8) -> Option<u8> {
    if 48 <= b <= 57 { Some((b - 48) as u8) }
    else if 65 <= b <= 70 { Some((b - 55) as u8) }
    else if 97 <= b <= 102 { Some((b - 87) as u8) }
    else { None }
}

/// The bytes with every `%` followed by two hexadecimal digits replaced by
/// the byte they write.
pub open spec fn percent_decoded(b: Seq<u8>) -> Seq<u8>
    decreases b.len(),
{
    if b.len() == 0 {
        Seq::empty()
    } else if b[0] == 37 && b.len() >= 3 && hex_value(b[1]) is Some && hex_value(b[2]) is Some {
        seq![(hex_value(b[1])->0 * 16 + hex_value(b[2])->0) as u8] + percent_decoded(b.skip(3))
    } else {
        seq![b[0]] + percent_decoded(b.skip(1))
    }
}

/// The text `String::from_utf8_lossy` makes of bytes that are not valid
/// UTF-8 (invalid sequences become U+FFFD).
pub uninterp spec fn utf8_lossy(b: Seq<u8>) -> Seq<char>;

/// Bytes read as UTF-8: exactly when they are valid, with replacement
/// characters otherwise.
pub open spec fn lossy_text(b: Seq<u8>) -> Seq<char> {
    if valid_utf8(b) { decode_utf8(b) } else { utf8_lossy(b) }
}

/// `percent_encoding::percent_decode_str(s).decode_utf8_lossy()`. Trusted:
/// the bytes are decoded as `percent_decoded` states (the crate's
/// `after_percent_sign`), then read as UTF-8: valid bytes give exactly the
/// text they encode (`String::from_utf8_lossy`), other bytes the named text.
#[verifier::external_body]
fn percent_decode_lossy(s: &str) -> (r: String)
    ensures
        valid_utf8(percent_decoded(encode_utf8(s@))) ==> r@ == decode_utf8(percent_decoded(encode_utf8(s@))),
        !valid_utf8(percent_decoded(encode_utf8(s@))) ==> r@ == utf8_lossy(percent_decoded(encode_utf8(s@))),
{
    percent_encoding::percent_decode_str(s).decode_utf8_lossy().to_string()
}

/// The local path a URI names: without `file:///`, percent-decoded.
pub open spec fn file_of_uri(uri: Seq<char>) -> Seq<char> {
    let rest = if starts_with(uri, "file:///"@) { uri.skip(8) } else { uri };
    lossy_text(percent_decoded(encode_utf8(rest)))
}

pub fn uri_to_file(uri: &str) -> (r: String)
    ensures
        r@ == file_of_uri(uri@),
{
    let cs = chars_of(uri);
    let prefix = chars_of("file:///");
    proof { reveal_strlit("file:///"); }
    if starts_with_chars(cs.as_slice(), prefix.as_slice()) {
        let mut rest: Vec<char> = Vec::new();
        let mut k: usize = 8;
        while k < cs.len()
            invariant
                8 <= k <= cs@.len(),
                rest@ == cs@.subrange(8, k as int),
            decreases cs.len() - k,
        {
            rest.push(cs[k]);
            assert(rest@ =~= cs@.subrange(8, k + 1));
            k = k + 1;
        }
        assert(rest@ =~= uri@.skip(8));
        let s = string_of(rest.as_slice());
        percent_decode_lossy(s.as_str())
    } else {
        percent_decode_lossy(uri)
    }
}

proof fn lemma_encode_utf8_append(a: Seq<char>, b: Seq<char>)
    ensures
        encode_utf8(a + b) == encode_utf8(a) + encode_utf8(b),
    decreases a.len(),
{
    if a.len() > 0 {
        assert((a + b).drop_first() =~= a.drop_first() + b);
        lemma_encode_utf8_append(a.drop_first(), b);
        assert(encode_utf8(a + b) =~= encode_utf8(a) + encode_utf8(b));
    } else {
        assert(a + b =~= b);
    }
}

proof fn lemma_encode_ascii(c: char)
    requires
        (c as u32) < 0x80,
    ensures
        encode_utf8(seq![c]) == seq![(c as u32) as u8],
{
    let v = c as u32;
    assert(v & 0x7F == v) by (bit_vector)
        requires v < 0x80;
    assert(seq![c].drop_first() =~= Seq::<char>::empty());
    assert(encode_utf8(Seq::<char>::empty()) == Seq::<u8>::empty());
    assert(vstd::utf8::has_width_1_encoding(v));
    assert(vstd::utf8::encode_scalar(v) == seq![vstd::utf8::leading_byte_width_1(v)]);
    assert(vstd::utf8::leading_byte_width_1(v) == v as u8);
    assert(encode_utf8(seq![c]) == vstd::utf8::encode_scalar(v) + encode_utf8(seq![c].drop_first()));
    assert(encode_utf8(seq![c]) =~= seq![(c as u32) as u8]);
}

proof fn lemma_hex_digit(d: u8)
    requires
        d < 16,
    ensures
        (hex_digit(d) as u32) < 0x80,
        hex_value(((hex_digit(d) as u32) as u8)) == Some(d),
{
}

/// Bytes of a scalar's encoding: the scalar itself when it is ASCII, and
/// bytes from 0x80 up otherwise.
proof fn lemma_encode_scalar_bytes(v: u32)
    requires
        vstd::utf8::is_scalar(v),
    ensures
        v < 0x80 ==> vstd::utf8::encode_scalar(v) == seq![v as u8],
        v >= 0x80 ==> forall|i: int| 0 <= i < vstd::utf8::encode_scalar(v).len()
            ==> #[trigger] vstd::utf8::encode_scalar(v)[i] >= 0x80,
{
    if v < 0x80 {
        assert(v & 0x7F == v) by (bit_vector)
            requires v < 0x80;
    } else {
        assert(0xC0 | ((v >> 6) & 0x1F) as u8 >= 0x80) by (bit_vector);
        assert(0xE0 | ((v >> 12) & 0x0F) as u8 >= 0x80) by (bit_vector);
        assert(0xF0 | ((v >> 18) & 0x7) as u8 >= 0x80) by (bit_vector);
        assert(0x80 | (v & 0x3F) as u8 >= 0x80) by (bit_vector);
        assert(0x80 | ((v >> 6) & 0x3F) as u8 >= 0x80) by (bit_vector);
        assert(0x80 | ((v >> 12) & 0x3F) as u8 >= 0x80) by (bit_vector);
    }
}

/// Text without `%` has no `%` byte in its encoding.
proof fn lemma_no_percent_byte(t: Seq<char>)
    requires
        !t.contains('%'),
    ensures
        forall|i: int| 0 <= i < encode_utf8(t).len() ==> #[trigger] encode_utf8(t)[i] != 37,
    decreases t.len(),
{
    if t.len() > 0 {
        let c = t[0];
        vstd::utf8::char_is_scalar(c);
        lemma_encode_scalar_bytes(c as u32);
        assert(!t.drop_first().contains('%')) by {
            if t.drop_first().contains('%') {
                let k = choose|k: int| 0 <= k < t.drop_first().len() && t.drop_first()[k] == '%';
                assert(t[k + 1] == '%');
            }
        }
        lemma_no_percent_byte(t.drop_first());
        let head = vstd::utf8::encode_scalar(c as u32);
        let rest = encode_utf8(t.drop_first());
        assert(encode_utf8(t) == head + rest);
        if (c as u32) < 0x80 {
            assert(c != '%');
            if (c as u32) == 37 {
                vstd::utf8::char_u32_cast(c, c as u32);
                vstd::utf8::char_u32_cast('%', '%' as u32);
                assert(('%' as u32) == 37);
            }
            assert((c as u32) != 37);
        }
        assert forall|i: int| 0 <= i < encode_utf8(t).len() implies #[trigger] encode_utf8(t)[i] != 37 by {
            if i < head.len() {
                assert(encode_utf8(t)[i] == head[i]);
            } else {
                assert(encode_utf8(t)[i] == rest[i - head.len()]);
            }
        }
    }
}

/// Decoding undoes encoding, for bytes with no `%`.
proof fn lemma_decode_encoded(b: Seq<u8>)
    requires
        forall|i: int| 0 <= i < b.len() ==> #[trigger] b[i] != 37,
    ensures
        percent_decoded(encode_utf8(percent_encoded(b))) == b,
    decreases b.len(),
{
    if b.len() > 0 {
        let x = b[0];
        let rest = b.skip(1);
        assert forall|i: int| 0 <= i < rest.len() implies #[trigger] rest[i] != 37 by {
            assert(rest[i] == b[i + 1]);
        }
        lemma_decode_encoded(rest);
        let piece = encoded_byte(x);
        let er = encode_utf8(percent_encoded(rest));
        lemma_encode_utf8_append(piece, percent_encoded(rest));
        if must_encode(x) {
            let h = hex_digit(x / 16);
            let l = hex_digit(x % 16);
            lemma_hex_digit(x / 16);
            lemma_hex_digit(x % 16);
            assert(piece =~= seq!['%'] + (seq![h] + seq![l]));
            lemma_encode_utf8_append(seq!['%'], seq![h] + seq![l]);
            lemma_encode_utf8_append(seq![h], seq![l]);
            lemma_encode_ascii('%');
            lemma_encode_ascii(h);
            lemma_encode_ascii(l);
            let hb = (h as u32) as u8;
            let lb = (l as u32) as u8;
            assert(encode_utf8(piece) =~= seq![37u8, hb, lb]);
            let e = seq![37u8, hb, lb] + er;
            assert(e.skip(3) =~= er);
            assert(percent_decoded(e) =~= seq![((x / 16) * 16 + x % 16) as u8] + b.skip(1));
            assert(b =~= seq![x] + b.skip(1));
        } else {
            assert((x as char) as u32 == x as u32);
            lemma_encode_ascii(x as char);
            assert(encode_utf8(piece) =~= seq![x]);
            let e = seq![x] + er;
            assert(e.skip(1) =~= er);
            assert(b =~= seq![x] + b.skip(1));
        }
    }
}

/// A path without `%` comes back from its URI: `uri_to_file` of
/// `path_to_uri(p)` is `p` with `\` written as `/` and without leading `/`.
pub proof fn law_uri_roundtrip(path: Seq<char>)
    requires
        !path.contains('%'),
    ensures
        file_of_uri(uri_of_path(path)) == trim_slashes(forward_slashes(path)),
{
    let f = forward_slashes(path);
    let t = trim_slashes(f);
    assert(!f.contains('%')) by {
        if f.contains('%') {
            let k = choose|k: int| 0 <= k < f.len() && f[k] == '%';
            assert(path[k] == '%');
        }
    }
    lemma_trim_slashes_suffix(f);
    assert(!t.contains('%')) by {
        if t.contains('%') {
            let k = choose|k: int| 0 <= k < t.len() && t[k] == '%';
            let d = (f.len() - t.len()) as int;
            assert(f[k + d] == t[k]);
        }
    }
    let b = encode_utf8(t);
    lemma_no_percent_byte(t);
    lemma_decode_encoded(b);
    let uri = uri_of_path(path);
    reveal_strlit("file:///");
    assert(uri.take(8) =~= "file:///"@);
    assert(uri.skip(8) =~= percent_encoded(b));
    vstd::utf8::encode_utf8_valid_utf8(t);
    vstd::utf8::encode_utf8_decode_utf8(t);
}

/// Trimming leading `/` keeps a suffix.
proof fn lemma_trim_slashes_suffix(s: Seq<char>)
    ensures
        trim_slashes(s).len() <= s.len(),
        forall|k: int| 0 <= k < trim_slashes(s).len()
            ==> #[trigger] trim_slashes(s)[k] == s[k + s.len() - trim_slashes(s).len()],
    decreases s.len(),
{
    if s.len() > 0 && s[0] == '/' {
        lemma_trim_slashes_suffix(s.drop_first());
    }
}

/// A `u32` read from a JSON member the way `serde` reads one: a
/// non-negative integer no larger than `u32::MAX`.
pub open spec fn json_u32(v: Option<JsonV>) -> Option<u32> {
    match ju64(v) {
        Some(n) => if n <= u32::MAX { Some(n as u32) } else { None },
        None => None,
    }
}

/// A `Position` read from JSON the way `serde` reads the struct: an object
/// with `line` and `character`, or an array of exactly those two.
pub open spec fn position_of(v: JsonV) -> Option<Position> {
    match v {
        JsonV::Obj(_) => match (json_u32(jget(v, "line"@)), json_u32(jget(v, "character"@))) {
            (Some(l), Some(c)) => Some(Position { line: l, character: c }),
            _ => None,
        },
        JsonV::Arr(a) => if a.len() == 2 {
            match (json_u32(Some(a[0])), json_u32(Some(a[1]))) {
                (Some(l), Some(c)) => Some(Position { line: l, character: c }),
                _ => None,
            }
        } else {
            None
        },
        _ => None,
    }
}

/// A `Range` read from JSON: an object with `start` and `end` positions,
/// or an array of exactly those two.
pub open spec fn range_of(v: JsonV) -> Option<Range> {
    let parts = match v {
        JsonV::Obj(_) => match (jget(v, "start"@), jget(v, "end"@)) {
            (Some(s), Some(e)) => Some((s, e)),
            _ => None,
        },
        JsonV::Arr(a) => if a.len() == 2 { Some((a[0], a[1])) } else { None },
        _ => None,
    };
    match parts {
        Some((s, e)) => match (position_of(s), position_of(e)) {
            (Some(a), Some(b)) => Some(Range { start: a, end: b }),
            _ => None,
        },
        None => None,
    }
}

fn u32_of(x: Option<&Json>) -> (r: Option<u32>)
    ensures
        r == json_u32(crate::json::opt_view(x)),
{
    match x {
        Some(x) => match x.as_u64() {
            Some(n) => if n <= 4294967295u64 { Some(n as u32) } else { None },
            None => None,
        },
        None => None,
    }
}

pub fn position_from_json(v: &Json) -> (r: Option<Position>)
    ensures
        r == position_of(v@),
{
    proof { lemma_view_parts(*v); }
    match v {
        Json::Object(_) => match (u32_of(v.get("line")), u32_of(v.get("character"))) {
            (Some(l), Some(c)) => Some(Position { line: l, character: c }),
            _ => None,
        },
        Json::Array(a) => {
            if a.len() == 2 {
                assert(items_view(a@)[0] == a@[0]@);
                assert(items_view(a@)[1] == a@[1]@);
                match (u32_of(Some(&a[0])), u32_of(Some(&a[1]))) {
                    (Some(l), Some(c)) => Some(Position { line: l, character: c }),
                    _ => None,
                }
            } else {
                None
            }
        },
        _ => None,
    }
}

/// Reads a range from JSON (as `serde` deserialises a `Range`).
pub fn range_from_json(v: &Json) -> (r: Option<Range>)
    ensures
        r == range_of(v@),
{
    proof { lemma_view_parts(*v); }
    let parts: Option<(&Json, &Json)> = match v {
        Json::Object(_) => match (v.get("start"), v.get("end")) {
            (Some(s), Some(e)) => Some((s, e)),
            _ => None,
        },
        Json::Array(a) => {
            if a.len() == 2 {
                assert(items_view(a@)[0] == a@[0]@);
                assert(items_view(a@)[1] == a@[1]@);
                Some((&a[0], &a[1]))
            } else {
                None
            }
        },
        _ => None,
    };
    match parts {
        Some((s, e)) => match (position_from_json(s), position_from_json(e)) {
            (Some(a), Some(b)) => Some(Range { start: a, end: b }),
            _ => None,
        },
        None => None,
    }
}

/// `path:line:col` for a JSON location (0-based numbers as the server sent
/// them), when it has a URI and a start position.
pub open spec fn location_text(loc: JsonV) -> Option<Seq<char>> {
    match jstr(jget(loc, "uri"@)) {
        None => None,
        Some(uri) => match jget(loc, "range"@) {
            None => None,
            Some(range) => match jget(range, "start"@) {
                None => None,
                Some(start) => match (ju64(jget(start, "line"@)), ju64(jget(start, "character"@))) {
                    (Some(line), Some(col)) => Some(file_of_uri(uri) + ":"@ + decimal(line as nat) + ":"@ + decimal(col as nat)),
                    _ => None,
                },
            },
        },
    }
}

pub fn format_location_value(loc: &Json) -> (r: Option<String>)
    ensures
        match location_text(loc@) {
            Some(t) => r matches Some(s) && s@ == t,
            None => r is None,
        },
{
    let uri = match loc.get("uri") {
        Some(u) => match u.as_str() { Some(s) => s, None => return None },
        None => return None,
    };
    let range = match loc.get("range") { Some(r) => r, None => return None };
    let start = match range.get("start") { Some(s) => s, None => return None };
    let line = match start.get("line") {
        Some(l) => match l.as_u64() { Some(n) => n, None => return None },
        None => return None,
    };
    let col = match start.get("character") {
        Some(c) => match c.as_u64() { Some(n) => n, None => return None },
        None => return None,
    };
    let mut s = uri_to_file(uri);
    push_str(&mut s, ":");
    let a = decimal_u64(line);
    push_chars(&mut s, a.as_slice());
    push_str(&mut s, ":");
    let b = decimal_u64(col);
    push_chars(&mut s, b.as_slice());
    Some(s)
}

/// The text of a hover answer: its `contents` when that is a string, the
/// `value` of `contents` when that is an object with a string `value`.
pub open spec fn hover_text_spec(v: JsonV) -> Option<Seq<char>> {
    if v is Null {
        None
    } else {
        match jget(v, "contents"@) {
            Some(JsonV::Str(s)) => Some(s),
            Some(JsonV::Obj(m)) => jstr(jget(JsonV::Obj(m), "value"@)),
            _ => None,
        }
    }
}

pub fn hover_text(v: &Json) -> (r: Option<String>)
    ensures
        match hover_text_spec(v@) {
            Some(t) => r matches Some(s) && s@ == t,
            None => r is None,
        },
{
    if v.is_null() {
        return None;
    }
    match v.get("contents") {
        Some(c) => {
            proof { lemma_view_parts(*c); }
            match c {
                Json::Str(s) => Some(s.clone()),
                Json::Object(_) => match crate::json::get_str(c, "value") {
                    Some(t) => Some(String::from_str(t)),
                    None => None,
                },
                _ => None,
            }
        },
        None => None,
    }
}

/// Strings starting with `file:///`, and object keys that do, replaced by
/// the paths they name, everywhere in a value. When two keys become the
/// same, the later value takes the earlier key's place.
pub open spec fn decode_uris_v(v: JsonV) -> JsonV
    decreases v,
{
    match v {
        JsonV::Str(s) => if starts_with(s, "file:///"@) { JsonV::Str(file_of_uri(s)) } else { v },
        JsonV::Arr(a) => JsonV::Arr(decoded_items(a)),
        JsonV::Obj(m) => JsonV::Obj(insert_all(Seq::empty(), decoded_entries(m))),
        _ => v,
    }
}

pub open spec fn decoded_items(a: Seq<JsonV>) -> Seq<JsonV>
    decreases a,
{
    Seq::new(a.len(), |i: int|
        if 0 <= i < a.len() {
            proof { assert(decreases_to!(a => a[i])); }
            decode_uris_v(a[i])
        } else {
            JsonV::Null
        })
}

pub open spec fn decoded_key(k: Seq<char>) -> Seq<char> {
    if starts_with(k, "file:///"@) { file_of_uri(k) } else { k }
}

pub open spec fn decoded_entries(m: Seq<(Seq<char>, JsonV)>) -> Seq<(Seq<char>, JsonV)>
    decreases m,
{
    Seq::new(m.len(), |i: int|
        if 0 <= i < m.len() {
            proof { assert(decreases_to!(m => m[i].1)); }
            (decoded_key(m[i].0), decode_uris_v(m[i].1))
        } else {
            (Seq::<char>::empty(), JsonV::Null)
        })
}

/// Index of the entry with key `k`, if any.
pub open spec fn key_index(m: Seq<(Seq<char>, JsonV)>, k: Seq<char>) -> Option<int>
    decreases m.len(),
{
    if m.len() == 0 {
        None
    } else if m.last().0 == k {
        Some(m.len() - 1)
    } else {
        key_index(m.drop_last(), k)
    }
}

/// Inserting into an ordered map: a present key keeps its place and gets
/// the new value, a new key goes last.
pub open spec fn insert_entry(m: Seq<(Seq<char>, JsonV)>, e: (Seq<char>, JsonV)) -> Seq<(Seq<char>, JsonV)> {
    match key_index(m, e.0) {
        Some(i) => m.update(i, e),
        None => m.push(e),
    }
}

pub open spec fn insert_all(m: Seq<(Seq<char>, JsonV)>, es: Seq<(Seq<char>, JsonV)>) -> Seq<(Seq<char>, JsonV)>
    decreases es.len(),
{
    if es.len() == 0 { m } else { insert_entry(insert_all(m, es.drop_last()), es.last()) }
}

fn find_entry(m: &Vec<(String, Json)>, k: &str) -> (r: Option<usize>)
    ensures
        match r {
            Some(i) => key_index(entries_view(m@), k@) == Some(i as int) && i < m@.len(),
            None => key_index(entries_view(m@), k@) is None,
        },
{
    let ghost mv = entries_view(m@);
    let mut i = m.len();
    assert(mv.take(m.len() as int) =~= mv);
    while i > 0
        invariant
            i <= m@.len(),
            mv == entries_view(m@),
            key_index(mv, k@) == key_index(mv.take(i as int), k@),
        decreases i,
    {
        assert(mv.take(i as int).last() == mv[i - 1]);
        if crate::json::str_equal(m[i - 1].0.as_str(), k) {
            return Some(i - 1);
        }
        assert(mv.take(i as int).drop_last() =~= mv.take(i - 1));
        i = i - 1;
    }
    assert(mv.take(0) =~= Seq::<(Seq<char>, JsonV)>::empty());
    None
}

/// Replaces `file:///` URIs by local paths throughout a value.
#[verifier::loop_isolation(false)]
pub fn decode_uris(v: &Json) -> (r: Json)
    ensures
        r@ == decode_uris_v(v@),
    decreases v,
{
    proof { lemma_view_parts(*v); }
    match v {
        Json::Str(s) => {
            let cs = chars_of(s.as_str());
            let prefix = chars_of("file:///");
            if starts_with_chars(cs.as_slice(), prefix.as_slice()) {
                Json::Str(uri_to_file(s.as_str()))
            } else {
                Json::Str(s.clone())
            }
        },
        Json::Array(a) => {
            let ghost av = items_view(a@);
            let mut out: Vec<Json> = Vec::new();
            let mut i: usize = 0;
            while i < a.len()
                invariant
                    i <= a.len(),
                    av == items_view(a@),
                    out@.len() == i,
                    items_view(out@) == decoded_items(av).take(i as int),
                decreases a.len() - i,
            {
                proof { assert(decreases_to!(*v => a@[i as int])); }
                let c = decode_uris(&a[i]);
                out.push(c);
                assert(items_view(out@) =~= decoded_items(av).take(i + 1));
                i = i + 1;
            }
            assert(decoded_items(av).take(a.len() as int) =~= decoded_items(av));
            let r = Json::Array(out);
            proof { lemma_view_parts(r); }
            r
        },
        Json::Object(m) => {
            let ghost mv = entries_view(m@);
            let ghost dv = decoded_entries(mv);
            let mut out: Vec<(String, Json)> = Vec::new();
            let mut i: usize = 0;
            assert(dv.take(0) =~= Seq::<(Seq<char>, JsonV)>::empty());
            while i < m.len()
                invariant
                    i <= m.len(),
                    mv == entries_view(m@),
                    dv == decoded_entries(mv),
                    entries_view(out@) == insert_all(Seq::empty(), dv.take(i as int)),
                decreases m.len() - i,
            {
                proof { assert(decreases_to!(*v => m@[i as int].1)); }
                let kc = chars_of(m[i].0.as_str());
                let prefix = chars_of("file:///");
                let key = if starts_with_chars(kc.as_slice(), prefix.as_slice()) {
                    uri_to_file(m[i].0.as_str())
                } else {
                    m[i].0.clone()
                };
                let val = decode_uris(&m[i].1);
                assert(dv.take(i + 1).drop_last() =~= dv.take(i as int));
                assert(dv.take(i + 1).last() == (key@, val@));
                let ghost prev = entries_view(out@);
                match find_entry(&out, key.as_str()) {
                    Some(j) => {
                        out.set(j, (key, val));
                        assert(entries_view(out@) =~= prev.update(j as int, dv[i as int]));
                    },
                    None => {
                        out.push((key, val));
                        assert(entries_view(out@) =~= prev.push(dv[i as int]));
                    },
                }
                i = i + 1;
            }
            assert(dv.take(m.len() as int) =~= dv);
            let r = Json::Object(out);
            proof { lemma_view_parts(r); }
            r
        },
        _ => v.deep_clone(),
    }
}

} // verus!
