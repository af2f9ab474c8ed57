//! JSON-RPC messages of the language server connection: the messages sent
//! for requests and notifications, and what an incoming message means (the
//! answer to a request, an error, or a notification).

use vstd::prelude::*;
use crate::json::{jget, ji64, jstr, lemma_view_parts, or_empty, opt_view, parse_json, json_parse, Json, JsonNumber, JsonV};
use crate::text::{decimal_i64, decimal_signed, push_chars, push_str};

verus! {

/// An error answer from the server.
#[derive(Debug, Clone)]
pub struct LspError {
    pub code: i64,
    pub message: String,
}

impl LspError {
    /// `LSP error <code>: <message>`
    pub fn to_message(&self) -> (r: String)
        ensures
            r@ == "LSP error "@ + decimal_signed(self.code as int) + ": "@ + self.message@,
    {
        let mut s = String::from_str("LSP error ");
        let d = decimal_i64(self.code);
        push_chars(&mut s, d.as_slice());
        push_str(&mut s, ": ");
        push_str(&mut s, self.message.as_str());
        s
    }
}

/// The error every waiting request gets when the connection closes.
pub fn connection_closed_error() -> (r: LspError)
    ensures
        r.code == -1,
        r.message@ == "Connection closed"@,
{
    LspError { code: -1, message: String::from_str("Connection closed") }
}

/// A message from the server that is not an answer.
#[derive(Debug)]
pub struct Notification {
    pub method: String,
    pub params: Json,
}

/// What an incoming message says.
pub struct Incoming {
    /// The request id it answers, when it has an integer `id`.
    pub id: Option<i64>,
    /// The answer: the `error` object's code and message when there is an
    /// `error` member, else the `result` (null when missing).
    pub outcome: Result<Json, LspError>,
    /// The notification, when it has a string `method`.
    pub notification: Option<Notification>,
}

/// The answer a message carries, as (code, message) for an error.
pub open spec fn outcome_spec(v: JsonV) -> Result<JsonV, (i64, Seq<char>)> {
    match jget(v, "error"@) {
        Some(err) => Err((
            match ji64(jget(err, "code"@)) { Some(c) => c, None => -1i64 },
            match jstr(jget(err, "message"@)) { Some(m) => m, None => "unknown"@ },
        )),
        None => Ok(match jget(v, "result"@) { Some(r) => r, None => JsonV::Null }),
    }
}

/// The notification a message carries.
pub open spec fn notification_spec(v: JsonV) -> Option<(Seq<char>, JsonV)> {
    match jstr(jget(v, "method"@)) {
        Some(m) => Some((m, match jget(v, "params"@) { Some(p) => p, None => JsonV::Null })),
        None => None,
    }
}

fn member_or_null(v: &Json, key: &str) -> (r: Json)
    ensures
        r@ == match jget(v@, key@) { Some(x) => x, None => JsonV::Null },
{
    match v.get(key) {
        Some(x) => x.deep_clone(),
        None => Json::Null,
    }
}

/// Reads an incoming message; `None` when the body is not JSON (it is
/// then ignored).
pub fn read_incoming(body: &str) -> (r: Option<Incoming>)
    ensures
        match json_parse(body@) {
            None => r is None,
            Some(v) => r matches Some(inc) && inc.id == ji64(jget(v, "id"@))
                && match (outcome_spec(v), inc.outcome) {
                    (Ok(x), Ok(y)) => y@ == x,
                    (Err((c, m)), Err(e)) => e.code == c && e.message@ == m,
                    _ => false,
                }
                && match (notification_spec(v), inc.notification) {
                    (Some((m, p)), Some(n)) => n.method@ == m && n.params@ == p,
                    (None, None) => true,
                    _ => false,
                },
        },
{
    let v = match parse_json(body) {
        Some(v) => v,
        None => return None,
    };
    let id = match v.get("id") {
        Some(x) => x.as_i64(),
        None => None,
    };
    let outcome = match v.get("error") {
        Some(err) => {
            let code = match err.get("code") {
                Some(c) => match c.as_i64() { Some(n) => n, None => -1 },
                None => -1,
            };
            let message = match crate::json::get_str(err, "message") {
                Some(m) => String::from_str(m),
                None => String::from_str("unknown"),
            };
            Err(LspError { code, message })
        },
        None => Ok(member_or_null(&v, "result")),
    };
    let notification = match crate::json::get_str(&v, "method") {
        Some(m) => Some(Notification { method: String::from_str(m), params: member_or_null(&v, "params") }),
        None => None,
    };
    Some(Incoming { id, outcome, notification })
}

/// The JSON of an `i64`.
pub open spec fn int_json(n: i64) -> JsonV {
    if n >= 0 { JsonV::Num(JsonNumber::PosInt(n as u64)) } else { JsonV::Num(JsonNumber::NegInt(n)) }
}

fn int_value(n: i64) -> (r: Json)
    ensures
        r@ == int_json(n),
{
    if n >= 0 { Json::Number(JsonNumber::PosInt(n as u64)) } else { Json::Number(JsonNumber::NegInt(n)) }
}

/// `{"jsonrpc":"2.0","id":<id>,"method":<method>,"params":<params>}`
pub open spec fn request_spec(id: i64, method: Seq<char>, params: JsonV) -> JsonV {
    JsonV::Obj(seq![
        ("jsonrpc"@, JsonV::Str("2.0"@)),
        ("id"@, int_json(id)),
        ("method"@, JsonV::Str(method)),
        ("params"@, params),
    ])
}

/// `{"jsonrpc":"2.0","method":<method>,"params":<params>}`
pub open spec fn notification_message_spec(method: Seq<char>, params: JsonV) -> JsonV {
    JsonV::Obj(seq![
        ("jsonrpc"@, JsonV::Str("2.0"@)),
        ("method"@, JsonV::Str(method)),
        ("params"@, params),
    ])
}

/// The message of a request.
pub fn request_message(id: i64, method: &str, params: Json) -> (r: Json)
    ensures
        r@ == request_spec(id, method@, params@),
{
    let ghost pv = params@;
    let mut m: Vec<(String, Json)> = Vec::new();
    m.push((String::from_str("jsonrpc"), Json::Str(String::from_str("2.0"))));
    m.push((String::from_str("id"), int_value(id)));
    m.push((String::from_str("method"), Json::Str(String::from_str(method))));
    m.push((String::from_str("params"), params));
    assert(crate::json::entries_view(m@) =~= request_spec(id, method@, pv)->Obj_0);
    let r = Json::Object(m);
    proof { lemma_view_parts(r); }
    r
}

/// The message of a notification.
pub fn notification_message(method: &str, params: Json) -> (r: Json)
    ensures
        r@ == notification_message_spec(method@, params@),
{
    let ghost pv = params@;
    let mut m: Vec<(String, Json)> = Vec::new();
    m.push((String::from_str("jsonrpc"), Json::Str(String::from_str("2.0"))));
    m.push((String::from_str("method"), Json::Str(String::from_str(method))));
    m.push((String::from_str("params"), params));
    assert(crate::json::entries_view(m@) =~= notification_message_spec(method@, pv)->Obj_0);
    let r = Json::Object(m);
    proof { lemma_view_parts(r); }
    r
}

} // verus!
