//! Rendering of gdapi answer bodies for the terminal: JSON answers are
//! reshaped (see `normalize`) and written as TOON with a `|` delimiter and
//! two-space indentation; with `--json` only the `ok` member is moved first.
//! Bodies that are not JSON are shown as they are.

use vstd::prelude::*;
use crate::json::{
    entries_view, json_parse, json_text, lemma_view_parts, parse_json, to_json_text, to_value, Json, JsonV,
};
use crate::json::str_equal;
use crate::normalize::{
    find_key, has_key, lemma_obj_get_at, lemma_obj_get_none, normalize, normalize_v, ok_first, without_key,
};

verus! {

/// The separator TOON puts between the cells of a table row.
#[derive(Debug, Clone, Copy, PartialEq, Eq, Structural)]
pub enum ToonDelimiter {
    Comma,
    Tab,
    Pipe,
}

/// The TOON text `toon_format::encode` writes for a value with a delimiter
/// and an indentation of `indent` spaces, or nothing when it refuses it.
pub uninterp spec fn toon_text(v: JsonV, delimiter: ToonDelimiter, indent: usize) -> Option<Seq<char>>;

/// `toon_format::encode` with the given delimiter and `Indent::Spaces`.
/// Trusted: the text is `toon_text` of the value and the options, and an
/// error (the crate's message) comes exactly when that is nothing.
#[verifier::external_body]
fn toon_encode(value: &Json, delimiter: ToonDelimiter, indent: usize) -> (r: Result<String, String>)
    ensures
        match r {
            Ok(s) => toon_text(value@, delimiter, indent) == Some(s@),
            Err(_) => toon_text(value@, delimiter, indent) is None,
        },
{
    let d = match delimiter {
        ToonDelimiter::Comma => toon_format::Delimiter::Comma,
        ToonDelimiter::Tab => toon_format::Delimiter::Tab,
        ToonDelimiter::Pipe => toon_format::Delimiter::Pipe,
    };
    let opts = toon_format::EncodeOptions::new().with_delimiter(d).with_spaces(indent);
    toon_format::encode(&to_value(value), &opts).map_err(|e| e.to_string())
}

/// A value as TOON with the given delimiter and indentation; when the
/// encoder refuses the value, its message after `toon encode failed: `.
pub fn encode(value: &Json, delimiter: ToonDelimiter, indent: usize) -> (r: Result<String, String>)
    ensures
        match r {
            Ok(s) => toon_text(value@, delimiter, indent) == Some(s@),
            Err(m) => toon_text(value@, delimiter, indent) is None
                && crate::text::starts_with(m@, "toon encode failed: "@),
        },
{
    match toon_encode(value, delimiter, indent) {
        Ok(s) => Ok(s),
        Err(e) => {
            let mut m = String::from_str("toon encode failed: ");
            crate::text::push_str(&mut m, e.as_str());
            proof {
                assert(m@.take("toon encode failed: "@.len() as int) =~= "toon encode failed: "@);
            }
            Err(m)
        },
    }
}

/// What `render_exec_body` shows for an answer body.
pub open spec fn exec_body_text(body: Seq<char>) -> Seq<char> {
    match json_parse(body) {
        Some(v) => match toon_text(normalize_v(v), ToonDelimiter::Pipe, 2) {
            Some(t) => t,
            None => body,
        },
        None => body,
    }
}

/// Renders an answer body as TOON; a body that is not JSON, or that the
/// encoder refuses, is returned as it is.
pub fn render_exec_body(body: &str) -> (r: String)
    ensures
        r@ == exec_body_text(body@),
{
    match parse_json(body) {
        Some(value) => {
            let normalized = normalize(value);
            match encode(&normalized, ToonDelimiter::Pipe, 2) {
                Ok(s) => s,
                Err(_) => String::from_str(body),
            }
        },
        None => String::from_str(body),
    }
}

/// What `reorder_ok_json` shows for an answer body: for a JSON object with
/// an `ok` member, the object with `ok` moved first and every other member,
/// and every value, as parsed, written compactly; any other body as it is.
pub open spec fn reordered_text(body: Seq<char>) -> Seq<char> {
    match json_parse(body) {
        Some(JsonV::Obj(m)) => if has_key(m, "ok"@) {
            json_text(JsonV::Obj(ok_first(m)))
        } else {
            body
        },
        _ => body,
    }
}

/// The members of an object with the `ok` member first and the others after
/// it in their order, values unchanged.
pub fn ok_first_entries(m: &Vec<(String, Json)>) -> (r: Vec<(String, Json)>)
    ensures
        entries_view(r@) == ok_first(entries_view(m@)),
{
    let ghost mv = entries_view(m@);
    let mut out: Vec<(String, Json)> = Vec::new();
    let ghost mut head: Seq<(Seq<char>, JsonV)> = Seq::empty();
    match find_key(m, "ok") {
        Some(k) => {
            proof { lemma_obj_get_at(mv, "ok"@, k as int); }
            let c = m[k].1.deep_clone();
            out.push((String::from_str("ok"), c));
            proof { head = seq![("ok"@, mv[k as int].1)]; }
            assert(entries_view(out@) =~= head);
        },
        None => {
            proof { lemma_obj_get_none(mv, "ok"@); }
        },
    }
    assert(without_key(mv.take(0), "ok"@) =~= Seq::<(Seq<char>, JsonV)>::empty());
    assert(head + without_key(mv.take(0), "ok"@) =~= head);
    let mut i: usize = 0;
    while i < m.len()
        invariant
            i <= m.len(),
            mv == entries_view(m@),
            entries_view(out@) == head + without_key(mv.take(i as int), "ok"@),
        decreases m.len() - i,
    {
        assert(mv.take(i + 1).drop_last() =~= mv.take(i as int));
        assert(mv.take(i + 1).last() == mv[i as int]);
        if !str_equal(m[i].0.as_str(), "ok") {
            let k = m[i].0.clone();
            let c = m[i].1.deep_clone();
            let ghost prev = out@;
            out.push((k, c));
            assert(entries_view(out@) =~= entries_view(prev).push(mv[i as int]));
            assert(without_key(mv.take(i + 1), "ok"@)
                == without_key(mv.take(i as int), "ok"@).push(mv[i as int]));
            assert(entries_view(out@) =~= head + without_key(mv.take(i + 1), "ok"@));
        } else {
            assert(without_key(mv.take(i + 1), "ok"@) == without_key(mv.take(i as int), "ok"@));
        }
        i = i + 1;
    }
    assert(mv.take(m.len() as int) =~= mv);
    out
}

/// For `--json` output: a JSON object with an `ok` member is written
/// compactly with `ok` moved first and nothing else changed; anything else
/// is returned as it is.
pub fn reorder_ok_json(body: &str) -> (r: String)
    ensures
        r@ == reordered_text(body@),
{
    match parse_json(body) {
        Some(value) => {
            proof { lemma_view_parts(value); }
            match &value {
                Json::Object(m) => {
                    if value.get("ok").is_some() {
                        let reordered = Json::Object(ok_first_entries(m));
                        proof { lemma_view_parts(reordered); }
                        to_json_text(&reordered)
                    } else {
                        String::from_str(body)
                    }
                },
                _ => String::from_str(body),
            }
        },
        None => String::from_str(body),
    }
}

} // verus!
