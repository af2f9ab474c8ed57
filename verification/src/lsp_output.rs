//! What the language server commands print: the human-readable lines (for
//! locations, references, renames, diagnostics, hover text, native symbols,
//! symbol trees and the connection status) and the JSON written for commands
//! on symbol paths.

use vstd::prelude::*;
use crate::json::{
    entries_view, get_array, get_str, items_view, jarr, jget, jstr, json_pretty_text, ju64, lemma_view_parts, obj_get,
    to_json_pretty, Json, JsonNumber, JsonV,
};
use crate::text::{decimal, decimal_u64, push_chars, push_str, string_views};
use crate::types::{
    diagnostic_text, file_of_uri, format_diagnostic, format_location_value, format_range, location_text,
    range_from_json, range_of, range_text, symbol_kind_name, symbol_kind_text, uri_to_file, Diagnostic,
    Location, Position, Range, TextEdit, WorkspaceEdit,
};

verus! {

/// The locations an answer holds (one object or an array of them), each
/// as `path:line:col`; the given message when there are none.
pub open spec fn location_lines_spec(v: JsonV, empty_msg: Seq<char>) -> Seq<Seq<char>> {
    if v is Null {
        seq![empty_msg]
    } else {
        let arr = match v { JsonV::Arr(a) => a, _ => seq![v] };
        if arr.len() == 0 {
            seq![empty_msg]
        } else {
            located(arr)
        }
    }
}

/// The texts of the locations that have one, in order.
pub open spec fn located(arr: Seq<JsonV>) -> Seq<Seq<char>>
    decreases arr.len(),
{
    if arr.len() == 0 {
        Seq::empty()
    } else {
        let r = located(arr.drop_last());
        match location_text(arr.last()) {
            Some(t) => r.push(t),
            None => r,
        }
    }
}

fn located_exec(arr: &[Json]) -> (r: Vec<String>)
    ensures
        string_views(r@) == located(items_view(arr@)),
{
    let ghost av = items_view(arr@);
    let mut out: Vec<String> = Vec::new();
    let mut i: usize = 0;
    while i < arr.len()
        invariant
            i <= arr@.len(),
            av == items_view(arr@),
            string_views(out@) == located(av.take(i as int)),
        decreases arr.len() - i,
    {
        assert(av.take(i + 1).drop_last() =~= av.take(i as int));
        assert(av.take(i + 1).last() == arr@[i as int]@);
        let ghost prev = out@;
        match format_location_value(&arr[i]) {
            Some(s) => {
                out.push(s);
                assert(string_views(out@) =~= string_views(prev).push(out@.last()@));
            },
            None => {},
        }
        i = i + 1;
    }
    assert(av.take(arr.len() as int) =~= av);
    out
}

pub fn location_lines(v: &Json, empty_msg: &str) -> (r: Vec<String>)
    ensures
        string_views(r@) == location_lines_spec(v@, empty_msg@),
{
    if v.is_null() {
        let mut out: Vec<String> = Vec::new();
        out.push(String::from_str(empty_msg));
        assert(string_views(out@) =~= seq![empty_msg@]);
        return out;
    }
    match v.as_array() {
        Some(a) => {
            if a.len() == 0 {
                let mut out: Vec<String> = Vec::new();
                out.push(String::from_str(empty_msg));
                assert(string_views(out@) =~= seq![empty_msg@]);
                return out;
            }
            located_exec(a.as_slice())
        },
        None => {
            let one = v.deep_clone();
            let mut arr: Vec<Json> = Vec::new();
            arr.push(one);
            assert(items_view(arr@) =~= seq![v@]);
            located_exec(arr.as_slice())
        },
    }
}

pub open spec fn diagnostics_view(ds: Seq<Diagnostic>) -> Seq<Seq<char>> {
    Seq::new(ds.len(), |i: int| diagnostic_text(ds[i].severity, ds[i].range, ds[i].message@))
}

fn diagnostic_texts(ds: &[Diagnostic], out: &mut Vec<String>)
    ensures
        string_views(final(out)@) == string_views(old(out)@) + diagnostics_view(ds@),
{
    let ghost start = string_views(out@);
    let mut i: usize = 0;
    while i < ds.len()
        invariant
            i <= ds@.len(),
            string_views(out@) == start + diagnostics_view(ds@).take(i as int),
        decreases ds.len() - i,
    {
        let ghost prev = out@;
        out.push(format_diagnostic(&ds[i]));
        assert(string_views(out@) =~= string_views(prev).push(diagnostics_view(ds@)[i as int]));
        assert(string_views(out@) =~= start + diagnostics_view(ds@).take(i + 1));
        i = i + 1;
    }
    assert(diagnostics_view(ds@).take(ds@.len() as int) =~= diagnostics_view(ds@));
}

/// The diagnostics of one file, one line each.
pub fn diagnostic_lines(ds: &[Diagnostic]) -> (r: Vec<String>)
    ensures
        string_views(r@) == if ds@.len() == 0 {
            seq!["No diagnostics for this file."@]
        } else {
            diagnostics_view(ds@)
        },
{
    let mut out: Vec<String> = Vec::new();
    if ds.len() == 0 {
        out.push(String::from_str("No diagnostics for this file."));
        assert(string_views(out@) =~= seq!["No diagnostics for this file."@]);
        return out;
    }
    assert(string_views(out@) =~= Seq::<Seq<char>>::empty());
    diagnostic_texts(ds, &mut out);
    assert(string_views(out@) =~= diagnostics_view(ds@));
    out
}

/// The diagnostics of every file: the file's path and a colon, then its
/// diagnostics.
pub open spec fn all_diagnostics_lines(files: Seq<(String, Vec<Diagnostic>)>) -> Seq<Seq<char>>
    decreases files.len(),
{
    if files.len() == 0 {
        Seq::empty()
    } else {
        all_diagnostics_lines(files.drop_last()) + seq![file_of_uri(files.last().0@) + ":"@]
            + diagnostics_view(files.last().1@)
    }
}

pub fn all_diagnostic_lines(files: &[(String, Vec<Diagnostic>)]) -> (r: Vec<String>)
    ensures
        string_views(r@) == if files@.len() == 0 {
            seq!["No diagnostics."@]
        } else {
            all_diagnostics_lines(files@)
        },
{
    let mut out: Vec<String> = Vec::new();
    if files.len() == 0 {
        out.push(String::from_str("No diagnostics."));
        assert(string_views(out@) =~= seq!["No diagnostics."@]);
        return out;
    }
    let mut i: usize = 0;
    assert(string_views(out@) =~= all_diagnostics_lines(files@.take(0)));
    while i < files.len()
        invariant
            i <= files@.len(),
            string_views(out@) == all_diagnostics_lines(files@.take(i as int)),
        decreases files.len() - i,
    {
        assert(files@.take(i + 1).drop_last() =~= files@.take(i as int));
        assert(files@.take(i + 1).last() == files@[i as int]);
        let ghost before = string_views(out@);
        let mut head = uri_to_file(files[i].0.as_str());
        push_str(&mut head, ":");
        out.push(head);
        assert(string_views(out@) =~= before + seq![file_of_uri(files@[i as int].0@) + ":"@]);
        diagnostic_texts(files[i].1.as_slice(), &mut out);
        assert(string_views(out@) =~= all_diagnostics_lines(files@.take(i + 1)));
        i = i + 1;
    }
    assert(files@.take(files.len() as int) =~= files@);
    out
}

/// `  <range> → "<new text>"`
pub open spec fn edit_text(e: TextEdit) -> Seq<char> {
    "  "@ + range_text(e.range) + " → \""@ + e.new_text@ + "\""@
}

pub open spec fn edits_lines(changes: Seq<(String, Vec<TextEdit>)>) -> Seq<Seq<char>>
    decreases changes.len(),
{
    if changes.len() == 0 {
        Seq::empty()
    } else {
        edits_lines(changes.drop_last()) + seq![file_of_uri(changes.last().0@) + ":"@]
            + Seq::new(changes.last().1@.len(), |k: int| edit_text(changes.last().1@[k]))
    }
}

/// The text `serde_json::to_string_pretty` writes, after URIs are decoded,
/// for the server's `documentChanges`.
pub open spec fn rename_lines_spec(result: Option<WorkspaceEdit>) -> Seq<Seq<char>> {
    match result {
        Some(we) => match we.changes {
            Some(ch) => edits_lines(ch@),
            None => match we.document_changes {
                Some(d) => seq![crate::json::json_pretty_text(crate::types::decode_uris_v(d@))],
                None => seq!["No changes returned. Symbol may not support rename."@],
            },
        },
        None => seq!["No changes returned. Symbol may not support rename."@],
    }
}

/// How many edits the files of a rename carry in all.
pub open spec fn total_edits(changes: Seq<(String, Vec<TextEdit>)>) -> nat
    decreases changes.len(),
{
    if changes.len() == 0 {
        0
    } else {
        total_edits(changes.drop_last()) + changes.last().1@.len()
    }
}

proof fn lemma_edits_lines_len(changes: Seq<(String, Vec<TextEdit>)>)
    ensures
        edits_lines(changes).len() == changes.len() + total_edits(changes),
    decreases changes.len(),
{
    if changes.len() > 0 {
        lemma_edits_lines_len(changes.drop_last());
    }
}

proof fn lemma_edits_lines_prefix(changes: Seq<(String, Vec<TextEdit>)>, m: int)
    requires
        0 <= m <= changes.len(),
    ensures
        edits_lines(changes.take(m)).len() <= edits_lines(changes).len(),
        edits_lines(changes).take(edits_lines(changes.take(m)).len() as int) == edits_lines(changes.take(m)),
    decreases changes.len(),
{
    if m == changes.len() {
        assert(changes.take(m) =~= changes);
        assert(edits_lines(changes).take(edits_lines(changes).len() as int) =~= edits_lines(changes));
    } else {
        let d = changes.drop_last();
        lemma_edits_lines_prefix(d, m);
        assert(d.take(m) =~= changes.take(m));
        let a = edits_lines(d);
        let b = edits_lines(changes.take(m));
        let tail = seq![file_of_uri(changes.last().0@) + ":"@]
            + Seq::new(changes.last().1@.len(), |k: int| edit_text(changes.last().1@[k]));
        assert(edits_lines(changes) =~= a + tail);
        assert((a + tail).take(b.len() as int) =~= a.take(b.len() as int));
    }
}

/// A rename's edits are printed whole: one header line per file and one line
/// per edit, so the number of lines is the number of files plus the number
/// of edits.
pub proof fn law_rename_line_count(we: WorkspaceEdit)
    requires
        we.changes is Some,
    ensures
        rename_lines_spec(Some(we)).len() == we.changes->0@.len() + total_edits(we.changes->0@),
{
    lemma_edits_lines_len(we.changes->0@);
}

/// File `f` of a rename is printed as its header line followed, in order, by
/// the line of each of its edits; the files before it take the lines before.
pub proof fn law_rename_file_block(we: WorkspaceEdit, f: int)
    requires
        we.changes is Some,
        0 <= f < we.changes->0@.len(),
    ensures
        ({
            let ch = we.changes->0@;
            let at = f + total_edits(ch.take(f));
            let out = rename_lines_spec(Some(we));
            &&& at + 1 + ch[f].1@.len() <= out.len()
            &&& out[at] == file_of_uri(ch[f].0@) + ":"@
            &&& forall|k: int| 0 <= k < ch[f].1@.len()
                ==> out[at + 1 + k] == edit_text(#[trigger] ch[f].1@[k])
        }),
{
    let ch = we.changes->0@;
    let out = edits_lines(ch);
    let pre = edits_lines(ch.take(f));
    let c1 = ch.take(f + 1);
    assert(c1.drop_last() =~= ch.take(f));
    assert(c1.last() == ch[f]);
    let cur = edits_lines(c1);
    let tail = seq![file_of_uri(ch[f].0@) + ":"@]
        + Seq::new(ch[f].1@.len(), |k: int| edit_text(ch[f].1@[k]));
    assert(cur =~= pre + tail);
    lemma_edits_lines_len(ch.take(f));
    lemma_edits_lines_prefix(ch, f + 1);
    let at = f + total_edits(ch.take(f));
    assert(pre.len() == at);
    assert forall|j: int| 0 <= j < tail.len() implies out[at + j] == #[trigger] tail[j] by {
        assert(out[at + j] == out.take(cur.len() as int)[at + j]);
        assert(cur[at + j] == tail[j]);
    }
    assert(out[at] == tail[0]);
    assert forall|k: int| 0 <= k < ch[f].1@.len()
        implies out[at + 1 + k] == edit_text(#[trigger] ch[f].1@[k]) by {
        assert(tail[1 + k] == edit_text(ch[f].1@[k]));
    }
}

pub fn rename_lines(result: &Option<WorkspaceEdit>) -> (r: Vec<String>)
    ensures
        string_views(r@) == rename_lines_spec(*result),
{
    let mut out: Vec<String> = Vec::new();
    match result {
        Some(we) => match &we.changes {
            Some(ch) => {
                let mut i: usize = 0;
                assert(string_views(out@) =~= edits_lines(ch@.take(0)));
                while i < ch.len()
                    invariant
                        i <= ch@.len(),
                        string_views(out@) == edits_lines(ch@.take(i as int)),
                    decreases ch.len() - i,
                {
                    assert(ch@.take(i + 1).drop_last() =~= ch@.take(i as int));
                    assert(ch@.take(i + 1).last() == ch@[i as int]);
                    let ghost before = string_views(out@);
                    let mut head = uri_to_file(ch[i].0.as_str());
                    push_str(&mut head, ":");
                    out.push(head);
                    let ghost mid = string_views(out@);
                    let edits = &ch[i].1;
                    let mut k: usize = 0;
                    while k < edits.len()
                        invariant
                            k <= edits@.len(),
                            string_views(out@) == mid + Seq::new(edits@.len(), |q: int| edit_text(edits@[q])).take(k as int),
                        decreases edits.len() - k,
                    {
                        let ghost prev = out@;
                        let mut line = String::from_str("  ");
                        let rt = format_range(&edits[k].range);
                        push_str(&mut line, rt.as_str());
                        push_str(&mut line, " → \"");
                        push_str(&mut line, edits[k].new_text.as_str());
                        push_str(&mut line, "\"");
                        out.push(line);
                        assert(string_views(out@) =~= string_views(prev).push(edit_text(edits@[k as int])));
                        assert(string_views(out@) =~= mid + Seq::new(edits@.len(), |q: int| edit_text(edits@[q])).take(k + 1));
                        k = k + 1;
                    }
                    assert(Seq::new(edits@.len(), |q: int| edit_text(edits@[q])).take(edits@.len() as int)
                        =~= Seq::new(edits@.len(), |q: int| edit_text(edits@[q])));
                    assert(string_views(out@) =~= edits_lines(ch@.take(i + 1)));
                    i = i + 1;
                }
                assert(ch@.take(ch@.len() as int) =~= ch@);
            },
            None => match &we.document_changes {
                Some(d) => {
                    let decoded = crate::types::decode_uris(d);
                    out.push(crate::json::to_json_pretty(&decoded));
                    assert(string_views(out@) =~= rename_lines_spec(*result));
                },
                None => {
                    out.push(String::from_str("No changes returned. Symbol may not support rename."));
                    assert(string_views(out@) =~= rename_lines_spec(*result));
                },
            },
        },
        None => {
            out.push(String::from_str("No changes returned. Symbol may not support rename."));
            assert(string_views(out@) =~= rename_lines_spec(*result));
        },
    }
    out
}

/// `path:line:col` of a location's start.
pub open spec fn reference_text(l: Location) -> Seq<char> {
    file_of_uri(l.uri@) + ":"@ + decimal(l.range.start.line as nat) + ":"@ + decimal(l.range.start.character as nat)
}

pub open spec fn reference_lines_spec(ls: Seq<Location>) -> Seq<Seq<char>> {
    if ls.len() == 0 {
        seq!["No references found."@]
    } else {
        seq!["Found "@ + decimal(ls.len()) + " reference(s):"@]
            + Seq::new(ls.len(), |i: int| "  "@ + reference_text(ls[i]))
    }
}

pub fn reference_lines(ls: &[Location]) -> (r: Vec<String>)
    ensures
        string_views(r@) == reference_lines_spec(ls@),
{
    let mut out: Vec<String> = Vec::new();
    if ls.len() == 0 {
        out.push(String::from_str("No references found."));
        assert(string_views(out@) =~= reference_lines_spec(ls@));
        return out;
    }
    let mut head = String::from_str("Found ");
    let n = decimal_u64(ls.len() as u64);
    push_chars(&mut head, n.as_slice());
    push_str(&mut head, " reference(s):");
    out.push(head);
    let ghost body = Seq::new(ls@.len(), |i: int| "  "@ + reference_text(ls@[i]));
    let mut i: usize = 0;
    while i < ls.len()
        invariant
            i <= ls@.len(),
            body == Seq::new(ls@.len(), |i: int| "  "@ + reference_text(ls@[i])),
            string_views(out@) == seq!["Found "@ + decimal(ls@.len()) + " reference(s):"@] + body.take(i as int),
        decreases ls.len() - i,
    {
        let ghost prev = out@;
        let mut line = String::from_str("  ");
        let mut p = uri_to_file(ls[i].uri.as_str());
        push_str(&mut p, ":");
        let a = decimal_u64(ls[i].range.start.line as u64);
        push_chars(&mut p, a.as_slice());
        push_str(&mut p, ":");
        let b = decimal_u64(ls[i].range.start.character as u64);
        push_chars(&mut p, b.as_slice());
        push_str(&mut line, p.as_str());
        out.push(line);
        assert(string_views(out@) =~= string_views(prev).push(body[i as int]));
        assert(string_views(out@) =~= seq!["Found "@ + decimal(ls@.len()) + " reference(s):"@] + body.take(i + 1));
        i = i + 1;
    }
    assert(body.take(ls@.len() as int) =~= body);
    out
}

/// The lines for the documentation of a native class or member.
pub open spec fn native_lines_spec(v: JsonV, member: Option<Seq<char>>) -> Seq<Seq<char>> {
    if v is Null {
        seq!["No documentation found."@]
    } else {
        let name = match jstr(jget(v, "name"@)) { Some(n) => n, None => "?"@ };
        let head = match jstr(jget(v, "detail"@)) {
            Some(d) => seq![name + " — "@ + d],
            None => seq![name],
        };
        let docs = match jstr(jget(v, "documentation"@)) {
            Some(d) => seq![Seq::<char>::empty(), d],
            None => Seq::empty(),
        };
        let members = match (jarr(jget(v, "children"@)), member) {
            (Some(c), None) => seq![Seq::<char>::empty(), "Members: "@ + decimal(c.len())],
            _ => Seq::empty(),
        };
        head + docs + members
    }
}

pub fn native_symbol_lines(v: &Json, member: Option<&str>) -> (r: Vec<String>)
    ensures
        string_views(r@) == native_lines_spec(v@, match member { Some(m) => Some(m@), None => None }),
{
    let mut out: Vec<String> = Vec::new();
    if v.is_null() {
        out.push(String::from_str("No documentation found."));
        assert(string_views(out@) =~= seq!["No documentation found."@]);
        return out;
    }
    let name = match get_str(v, "name") { Some(n) => n, None => "?" };
    match get_str(v, "detail") {
        Some(d) => {
            let mut s = String::from_str(name);
            push_str(&mut s, " — ");
            push_str(&mut s, d);
            out.push(s);
        },
        None => {
            out.push(String::from_str(name));
        },
    }
    let ghost h = string_views(out@);
    match get_str(v, "documentation") {
        Some(d) => {
            out.push(String::new());
            out.push(String::from_str(d));
        },
        None => {},
    }
    let ghost hd = string_views(out@);
    match (get_array(v, "children"), member) {
        (Some(c), None) => {
            out.push(String::new());
            let mut s = String::from_str("Members: ");
            let n = decimal_u64(c.len() as u64);
            push_chars(&mut s, n.as_slice());
            out.push(s);
        },
        _ => {},
    }
    assert(string_views(out@) =~= native_lines_spec(v@, match member { Some(m) => Some(m@), None => None }));
    out
}

/// What the hover command prints.
pub fn hover_output(result: Option<String>) -> (r: String)
    ensures
        r@ == match result { Some(t) => t@, None => "No hover info available."@ },
{
    match result {
        Some(t) => t,
        None => String::from_str("No hover info available."),
    }
}

/// Two spaces per level.
pub open spec fn indent_text(n: nat) -> Seq<char> {
    Seq::new(2 * n, |i: int| ' ')
}

/// The range a symbol reports, or the empty range at 0:0 when it is not
/// one.
pub open spec fn range_or_zero(v: Option<JsonV>) -> Range {
    let zero = Range { start: Position { line: 0, character: 0 }, end: Position { line: 0, character: 0 } };
    match v {
        Some(r) => match range_of(r) { Some(x) => x, None => zero },
        None => match range_of(JsonV::Null) { Some(x) => x, None => zero },
    }
}

/// The line printed for one symbol of a document's symbol tree: its kind,
/// name and range (a document symbol) or location (a symbol information);
/// nothing when it has neither.
pub open spec fn symbol_line_spec(sym: JsonV, indent: nat) -> Option<Seq<char>> {
    let kind = match ju64(jget(sym, "kind"@)) { Some(k) => k as u32, None => 0u32 };
    let name = match jstr(jget(sym, "name"@)) { Some(n) => n, None => "?"@ };
    if jget(sym, "range"@) is Some && jget(sym, "selectionRange"@) is Some {
        Some(indent_text(indent) + symbol_kind_text(kind) + " "@ + name + " ["@
            + range_text(range_or_zero(jget(sym, "range"@))) + "]"@)
    } else {
        match jget(sym, "location"@) {
            Some(loc) => Some(indent_text(indent) + symbol_kind_text(kind) + " "@ + name + " "@
                + match location_text(loc) { Some(t) => t, None => "?"@ }),
            None => None,
        }
    }
}

pub fn symbol_line(sym: &Json, indent: usize) -> (r: Option<String>)
    requires
        indent <= usize::MAX / 2,
    ensures
        match symbol_line_spec(sym@, indent as nat) {
            Some(t) => r matches Some(s) && s@ == t,
            None => r is None,
        },
{
    let kind: u32 = match sym.get("kind") {
        Some(k) => match k.as_u64() { Some(n) => n as u32, None => 0 },
        None => 0,
    };
    let name = match get_str(sym, "name") { Some(n) => n, None => "?" };
    let mut prefix = String::new();
    let mut i: usize = 0;
    while i < 2 * indent
        invariant
            i <= 2 * indent,
            indent <= usize::MAX / 2,
            prefix@ == Seq::new(i as nat, |q: int| ' '),
        decreases 2 * indent - i,
    {
        crate::text::push_char(&mut prefix, ' ');
        assert(prefix@ =~= Seq::new((i + 1) as nat, |q: int| ' '));
        i = i + 1;
    }
    if sym.get("range").is_some() && sym.get("selectionRange").is_some() {
        let rg = match sym.get("range") {
            Some(r) => match range_from_json(r) {
                Some(x) => x,
                None => Range { start: Position { line: 0, character: 0 }, end: Position { line: 0, character: 0 } },
            },
            None => Range { start: Position { line: 0, character: 0 }, end: Position { line: 0, character: 0 } },
        };
        let mut s = prefix;
        let k = symbol_kind_name(kind);
        push_str(&mut s, k.as_str());
        push_str(&mut s, " ");
        push_str(&mut s, name);
        push_str(&mut s, " [");
        let rt = format_range(&rg);
        push_str(&mut s, rt.as_str());
        push_str(&mut s, "]");
        return Some(s);
    }
    match sym.get("location") {
        Some(loc) => {
            let mut s = prefix;
            let k = symbol_kind_name(kind);
            push_str(&mut s, k.as_str());
            push_str(&mut s, " ");
            push_str(&mut s, name);
            push_str(&mut s, " ");
            match format_location_value(loc) {
                Some(t) => push_str(&mut s, t.as_str()),
                None => push_str(&mut s, "?"),
            }
            Some(s)
        },
        None => None,
    }
}

/// The children a document symbol lists under it (printed one level
/// deeper), when it is printed with a range and has a `children` array.
pub fn symbol_children(sym: &Json) -> (r: Option<&Vec<Json>>)
    ensures
        match r {
            Some(c) => jget(sym@, "range"@) is Some && jget(sym@, "selectionRange"@) is Some
                && jarr(jget(sym@, "children"@)) == Some(items_view(c@)),
            None => !(jget(sym@, "range"@) is Some && jget(sym@, "selectionRange"@) is Some
                && jarr(jget(sym@, "children"@)) is Some),
        },
{
    if sym.get("range").is_some() && sym.get("selectionRange").is_some() {
        get_array(sym, "children")
    } else {
        None
    }
}

/// What `status` prints: the lines for stdout and the lines for stderr.
/// `status` reports a failed connection and still ends successfully.
pub struct StatusReport {
    pub stdout: Vec<String>,
    pub stderr: Vec<String>,
}

/// The JSON `status --json` prints: whether the connection succeeded, the
/// host and port, and the project (connected) or the error (not).
pub open spec fn status_json_v(host: Seq<char>, port: u16, project: Option<Seq<char>>, error: Option<Seq<char>>) -> JsonV {
    let base = seq![
        ("connected"@, JsonV::Bool(error is None)),
        ("host"@, JsonV::Str(host)),
        ("port"@, JsonV::Num(JsonNumber::PosInt(port as u64))),
    ];
    match error {
        None => JsonV::Obj(base.push(("project"@, match project { Some(p) => JsonV::Str(p), None => JsonV::Null }))),
        Some(e) => JsonV::Obj(base.push(("error"@, JsonV::Str(e)))),
    }
}

/// `<host>:<port>`
pub open spec fn address_text(host: Seq<char>, port: u16) -> Seq<char> {
    host + ":"@ + decimal(port as nat)
}

/// The two lines printed when the language server cannot be reached.
pub open spec fn connection_failure_spec(host: Seq<char>, port: u16) -> Seq<Seq<char>> {
    seq![
        "Failed to connect to Godot LSP at "@ + address_text(host, port),
        "Make sure Godot is running with: godot --editor --headless --lsp-port "@ + decimal(port as nat)
            + " --path /your/project"@,
    ]
}

/// The report of `status`: `error` is why connecting failed, if it did.
pub open spec fn status_spec(host: Seq<char>, port: u16, project: Option<Seq<char>>, error: Option<Seq<char>>, json_mode: bool)
    -> (Seq<Seq<char>>, Seq<Seq<char>>)
{
    if json_mode {
        (seq![json_pretty_text(status_json_v(host, port, project, error))], Seq::empty())
    } else {
        match error {
            None => (
                seq!["Connected to Godot LSP at "@ + address_text(host, port)]
                    + match project { Some(p) => seq!["Project: "@ + p], None => Seq::empty() },
                Seq::empty(),
            ),
            Some(e) => (
                Seq::empty(),
                seq![connection_failure_spec(host, port)[0], "Error: "@ + e, connection_failure_spec(host, port)[1]],
            ),
        }
    }
}

fn status_json(host: &str, port: u16, project: Option<&str>, error: Option<&str>) -> (r: Json)
    ensures
        r@ == status_json_v(host@, port, match project { Some(p) => Some(p@), None => None },
            match error { Some(e) => Some(e@), None => None }),
{
    let mut e: Vec<(String, Json)> = Vec::new();
    e.push((String::from_str("connected"), Json::Bool(error.is_none())));
    e.push((String::from_str("host"), Json::Str(host.to_string())));
    e.push((String::from_str("port"), Json::Number(JsonNumber::PosInt(port as u64))));
    match error {
        None => {
            let p = match project { Some(p) => Json::Str(p.to_string()), None => Json::Null };
            e.push((String::from_str("project"), p));
        },
        Some(m) => {
            e.push((String::from_str("error"), Json::Str(m.to_string())));
        },
    }
    assert(entries_view(e@) =~= status_json_v(host@, port, match project { Some(p) => Some(p@), None => None },
        match error { Some(e) => Some(e@), None => None })->Obj_0);
    let r = Json::Object(e);
    proof { lemma_view_parts(r); }
    r
}

fn address(host: &str, port: u16) -> (r: String)
    ensures
        r@ == address_text(host@, port),
{
    let mut s = host.to_string();
    push_str(&mut s, ":");
    let d = decimal_u64(port as u64);
    push_chars(&mut s, d.as_slice());
    s
}

/// The lines printed when the language server cannot be reached.
pub fn connection_failure_lines(host: &str, port: u16) -> (r: Vec<String>)
    ensures
        string_views(r@) == connection_failure_spec(host@, port),
{
    let mut l = String::from_str("Failed to connect to Godot LSP at ");
    let a = address(host, port);
    push_str(&mut l, a.as_str());
    let mut l2 = String::from_str("Make sure Godot is running with: godot --editor --headless --lsp-port ");
    let d = decimal_u64(port as u64);
    push_chars(&mut l2, d.as_slice());
    push_str(&mut l2, " --path /your/project");
    let mut out: Vec<String> = Vec::new();
    out.push(l);
    out.push(l2);
    assert(string_views(out@) =~= connection_failure_spec(host@, port));
    out
}

pub fn status_report(host: &str, port: u16, project: Option<&str>, error: Option<&str>, json_mode: bool) -> (r: StatusReport)
    ensures
        ({
            let (o, e) = status_spec(host@, port, match project { Some(p) => Some(p@), None => None },
                match error { Some(e) => Some(e@), None => None }, json_mode);
            string_views(r.stdout@) == o && string_views(r.stderr@) == e
        }),
{
    let mut stdout: Vec<String> = Vec::new();
    let mut stderr: Vec<String> = Vec::new();
    if json_mode {
        let j = status_json(host, port, project, error);
        stdout.push(to_json_pretty(&j));
    } else {
        match error {
            None => {
                let mut l = String::from_str("Connected to Godot LSP at ");
                let a = address(host, port);
                push_str(&mut l, a.as_str());
                stdout.push(l);
                match project {
                    Some(p) => {
                        let mut l2 = String::from_str("Project: ");
                        push_str(&mut l2, p);
                        stdout.push(l2);
                    },
                    None => {},
                }
            },
            Some(m) => {
                let mut hint = connection_failure_lines(host, port);
                let ghost hv = string_views(hint@);
                assert(hv.len() == 2);
                let mut l2 = String::from_str("Error: ");
                push_str(&mut l2, m);
                let b = hint.remove(1);
                let a = hint.remove(0);
                assert(a@ == hv[0] && b@ == hv[1]);
                stderr.push(a);
                stderr.push(l2);
                stderr.push(b);
            },
        }
    }
    let ghost want = status_spec(host@, port, match project { Some(p) => Some(p@), None => None },
        match error { Some(e) => Some(e@), None => None }, json_mode);
    assert(string_views(stdout@) =~= want.0);
    assert(string_views(stderr@) =~= want.1);
    StatusReport { stdout, stderr }
}

/// The JSON a command on a symbol path prints: the symbol's name, its
/// position and the command's result under `key`.
pub open spec fn symbol_result_v(name: Seq<char>, pos: Position, key: Seq<char>, value: JsonV) -> JsonV {
    JsonV::Obj(seq![
        ("symbol"@, JsonV::Str(name)),
        ("position"@, JsonV::Obj(seq![
            ("line"@, JsonV::Num(JsonNumber::PosInt(pos.line as u64))),
            ("character"@, JsonV::Num(JsonNumber::PosInt(pos.character as u64))),
        ])),
        (key, value),
    ])
}

pub fn symbol_result_json(name: &str, pos: Position, key: &str, value: Json) -> (r: Json)
    ensures
        r@ == symbol_result_v(name@, pos, key@, value@),
{
    let ghost vv = value@;
    let mut p: Vec<(String, Json)> = Vec::new();
    p.push((String::from_str("line"), Json::Number(JsonNumber::PosInt(pos.line as u64))));
    p.push((String::from_str("character"), Json::Number(JsonNumber::PosInt(pos.character as u64))));
    assert(entries_view(p@) =~= symbol_result_v(name@, pos, key@, vv)->Obj_0[1].1->Obj_0);
    let pj = Json::Object(p);
    proof { lemma_view_parts(pj); }
    let mut e: Vec<(String, Json)> = Vec::new();
    e.push((String::from_str("symbol"), Json::Str(name.to_string())));
    e.push((String::from_str("position"), pj));
    e.push((key.to_string(), value));
    assert(entries_view(e@) =~= symbol_result_v(name@, pos, key@, vv)->Obj_0);
    let r = Json::Object(e);
    proof { lemma_view_parts(r); }
    r
}

/// `<what> symbol '<name>' at <line>:<character>`, the line printed before
/// the result of a command on a symbol path.
pub open spec fn symbol_heading_text(what: Seq<char>, name: Seq<char>, pos: Position) -> Seq<char> {
    what + " symbol '"@ + name + "' at "@ + decimal(pos.line as nat) + ":"@ + decimal(pos.character as nat)
}

pub fn symbol_heading(what: &str, name: &str, pos: Position) -> (r: String)
    ensures
        r@ == symbol_heading_text(what@, name@, pos),
{
    let mut s = what.to_string();
    push_str(&mut s, " symbol '");
    push_str(&mut s, name);
    push_str(&mut s, "' at ");
    let l = decimal_u64(pos.line as u64);
    push_chars(&mut s, l.as_slice());
    push_str(&mut s, ":");
    let c = decimal_u64(pos.character as u64);
    push_chars(&mut s, c.as_slice());
    s
}

/// A member of an object is one of its entries' values.
pub proof fn lemma_obj_get_entry(m: Seq<(Seq<char>, JsonV)>, k: Seq<char>)
    ensures
        obj_get(m, k) matches Some(v) ==> exists|j: int| 0 <= j < m.len() && #[trigger] m[j].1 == v,
    decreases m.len(),
{
    if m.len() > 0 && m[0].0 != k {
        lemma_obj_get_entry(m.drop_first(), k);
        if let Some(v) = obj_get(m, k) {
            let j = choose|j: int| 0 <= j < m.drop_first().len() && #[trigger] m.drop_first()[j].1 == v;
            assert(m[j + 1].1 == v);
        }
    }
}

/// An array held by a member of a value is smaller than the value.
pub proof fn lemma_member_array_smaller(s: JsonV, k: Seq<char>)
    ensures
        jarr(jget(s, k)) matches Some(c) ==> decreases_to!(s => c),
{
    if let JsonV::Obj(m) = s {
        lemma_obj_get_entry(m, k);
        if let Some(JsonV::Arr(c)) = obj_get(m, k) {
            let j = choose|j: int| 0 <= j < m.len() && #[trigger] m[j].1 == JsonV::Arr(c);
            assert(decreases_to!(s => m));
            assert(decreases_to!(m => m[j]));
            assert(decreases_to!(m[j] => m[j].1));
            assert(decreases_to!(m[j].1 => c));
        }
    }
}

/// The children printed under a document symbol: its `children` array,
/// when it has a range and a selection range.
pub open spec fn children_of(s: JsonV) -> Option<Seq<JsonV>> {
    if jget(s, "range"@) is Some && jget(s, "selectionRange"@) is Some {
        jarr(jget(s, "children"@))
    } else {
        None
    }
}

/// The lines `symbols` prints for a list of symbols at an indent: each
/// symbol's line, followed by its children one level deeper.
pub open spec fn tree_lines(syms: Seq<JsonV>, indent: nat) -> Seq<Seq<char>>
    decreases syms,
{
    if syms.len() == 0 {
        Seq::empty()
    } else {
        symbol_lines(syms[0], indent) + tree_lines(syms.subrange(1, syms.len() as int), indent)
    }
}

/// The lines of one symbol and, below it, of its children.
pub open spec fn symbol_lines(s: JsonV, indent: nat) -> Seq<Seq<char>>
    decreases s,
{
    let own = match symbol_line_spec(s, indent) {
        Some(l) => seq![l],
        None => Seq::empty(),
    };
    match children_of(s) {
        Some(c) => {
            proof { lemma_member_array_smaller(s, "children"@); }
            own + tree_lines(c, indent + 1)
        },
        None => own,
    }
}

/// How many levels of children a list of symbols has below it.
pub open spec fn tree_depth(syms: Seq<JsonV>) -> nat
    decreases syms,
{
    if syms.len() == 0 {
        0
    } else {
        let a = symbol_depth(syms[0]);
        let b = tree_depth(syms.subrange(1, syms.len() as int));
        if a >= b { a } else { b }
    }
}

pub open spec fn symbol_depth(s: JsonV) -> nat
    decreases s,
{
    match children_of(s) {
        Some(c) => {
            proof { lemma_member_array_smaller(s, "children"@); }
            1 + tree_depth(c)
        },
        None => 0,
    }
}

pub proof fn lemma_depth_of_rest(syms: Seq<JsonV>)
    requires
        syms.len() > 0,
    ensures
        symbol_depth(syms[0]) <= tree_depth(syms),
        tree_depth(syms.subrange(1, syms.len() as int)) <= tree_depth(syms),
{
}

/// The lines `symbols` prints for the symbols of a document, at an indent;
/// the indentation of the deepest symbol must fit in memory.
pub fn symbol_tree_lines(symbols: &[Json], indent: usize) -> (r: Vec<String>)
    requires
        indent + tree_depth(items_view(symbols@)) <= usize::MAX / 2,
    ensures
        string_views(r@) == tree_lines(items_view(symbols@), indent as nat),
    decreases items_view(symbols@),
{
    let ghost av = items_view(symbols@);
    let mut out: Vec<String> = Vec::new();
    let mut i: usize = 0;
    assert(av.subrange(0, av.len() as int) =~= av);
    while i < symbols.len()
        invariant
            i <= symbols@.len(),
            av == items_view(symbols@),
            indent + tree_depth(av) <= usize::MAX / 2,
            indent + tree_depth(av.subrange(i as int, av.len() as int)) <= usize::MAX / 2,
            string_views(out@) + tree_lines(av.subrange(i as int, av.len() as int), indent as nat)
                == tree_lines(av, indent as nat),
        decreases symbols.len() - i,
    {
        let ghost rest = av.subrange(i as int, av.len() as int);
        let ghost s = av[i as int];
        assert(rest[0] == s);
        assert(rest.subrange(1, rest.len() as int) =~= av.subrange(i + 1, av.len() as int));
        proof { lemma_depth_of_rest(rest); }
        let ghost before = out@;
        match symbol_line(&symbols[i], indent) {
            Some(l) => {
                out.push(l);
            },
            None => {},
        }
        let ghost own = match symbol_line_spec(s, indent as nat) { Some(l) => seq![l], None => Seq::<Seq<char>>::empty() };
        assert(string_views(out@) =~= string_views(before) + own);
        match symbol_children(&symbols[i]) {
            Some(c) => {
                proof {
                    lemma_member_array_smaller(s, "children"@);
                    assert(decreases_to!(av => s));
                }
                let mut sub = symbol_tree_lines(c.as_slice(), indent + 1);
                let ghost mid = out@;
                let ghost subv = sub@;
                out.append(&mut sub);
                assert(string_views(out@) =~= string_views(mid) + string_views(subv));
                assert(symbol_lines(s, indent as nat) == own + tree_lines(items_view(c@), (indent + 1) as nat));
            },
            None => {
                assert(symbol_lines(s, indent as nat) == own);
            },
        }
        assert(tree_lines(rest, indent as nat) == symbol_lines(s, indent as nat)
            + tree_lines(av.subrange(i + 1, av.len() as int), indent as nat));
        i = i + 1;
    }
    assert(av.subrange(i as int, av.len() as int) =~= Seq::<JsonV>::empty());
    out
}

/// Whether the symbols have at most `limit` levels of children below them.
pub fn depth_at_most(symbols: &[Json], limit: usize) -> (r: bool)
    ensures
        r == (tree_depth(items_view(symbols@)) <= limit),
    decreases items_view(symbols@),
{
    let ghost av = items_view(symbols@);
    let mut i: usize = 0;
    assert(av.subrange(0, av.len() as int) =~= av);
    while i < symbols.len()
        invariant
            i <= symbols@.len(),
            av == items_view(symbols@),
            (tree_depth(av) <= limit) == (tree_depth(av.subrange(i as int, av.len() as int)) <= limit),
        decreases symbols.len() - i,
    {
        let ghost rest = av.subrange(i as int, av.len() as int);
        let ghost s = av[i as int];
        assert(rest[0] == s);
        assert(rest.subrange(1, rest.len() as int) =~= av.subrange(i + 1, av.len() as int));
        let ghost next = av.subrange(i + 1, av.len() as int);
        assert(tree_depth(rest) == if symbol_depth(s) >= tree_depth(next) { symbol_depth(s) } else { tree_depth(next) });
        match symbol_children(&symbols[i]) {
            Some(c) => {
                proof {
                    lemma_member_array_smaller(s, "children"@);
                    assert(decreases_to!(av => s));
                }
                assert(symbol_depth(s) == 1 + tree_depth(items_view(c@)));
                if limit == 0 {
                    return false;
                }
                if !depth_at_most(c.as_slice(), limit - 1) {
                    return false;
                }
            },
            None => {
                assert(symbol_depth(s) == 0);
            },
        }
        i = i + 1;
    }
    assert(av.subrange(i as int, av.len() as int) =~= Seq::<JsonV>::empty());
    true
}

/// What `symbols` prints for a document's symbols: their tree, or
/// `No symbols found.` when the answer is not a list or the list is empty.
pub open spec fn symbols_output_spec(v: JsonV) -> Seq<Seq<char>> {
    match v {
        JsonV::Arr(a) => if a.len() == 0 { seq!["No symbols found."@] } else { tree_lines(a, 0) },
        _ => seq!["No symbols found."@],
    }
}

pub fn symbols_output(v: &Json) -> (r: Vec<String>)
    requires
        jarr(Some(v@)) matches Some(a) ==> tree_depth(a) <= usize::MAX / 2,
    ensures
        string_views(r@) == symbols_output_spec(v@),
{
    match v.as_array() {
        Some(a) => {
            if a.len() == 0 {
                let mut out: Vec<String> = Vec::new();
                out.push(String::from_str("No symbols found."));
                assert(string_views(out@) =~= seq!["No symbols found."@]);
                out
            } else {
                symbol_tree_lines(a.as_slice(), 0)
            }
        },
        None => {
            let mut out: Vec<String> = Vec::new();
            out.push(String::from_str("No symbols found."));
            assert(string_views(out@) =~= seq!["No symbols found."@]);
            out
        },
    }
}

/// `{"hover": <text or null>}`, what `hover --json` prints for a position.
pub open spec fn hover_json_v(text: Option<Seq<char>>) -> JsonV {
    JsonV::Obj(seq![("hover"@, match text { Some(t) => JsonV::Str(t), None => JsonV::Null })])
}

pub fn hover_json(text: Option<&str>) -> (r: Json)
    ensures
        r@ == hover_json_v(match text { Some(t) => Some(t@), None => None }),
{
    let v = match text {
        Some(t) => Json::Str(t.to_string()),
        None => Json::Null,
    };
    let mut e: Vec<(String, Json)> = Vec::new();
    e.push((String::from_str("hover"), v));
    assert(entries_view(e@) =~= hover_json_v(match text { Some(t) => Some(t@), None => None })->Obj_0);
    let r = Json::Object(e);
    proof { lemma_view_parts(r); }
    r
}

} // verus!
