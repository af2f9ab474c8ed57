//! The parameters of the requests and notifications the LSP client sends:
//! `initialize` with the client's capabilities, `didOpen`, and the
//! position, rename, references, document-symbol and native-symbol
//! requests.

use vstd::prelude::*;
use crate::json::{entries_view, lemma_view_parts, Json, JsonNumber, JsonV};

verus! {

pub open spec fn str_v(s: Seq<char>) -> JsonV {
    JsonV::Str(s)
}

pub open spec fn u32_v(n: u32) -> JsonV {
    JsonV::Num(JsonNumber::PosInt(n as u64))
}

pub open spec fn obj_v(m: Seq<(Seq<char>, JsonV)>) -> JsonV {
    JsonV::Obj(m)
}

pub open spec fn empty_obj_v() -> JsonV {
    JsonV::Obj(Seq::empty())
}

fn object(entries: Vec<(String, Json)>) -> (r: Json)
    ensures
        r@ == JsonV::Obj(entries_view(entries@)),
{
    let r = Json::Object(entries);
    proof { lemma_view_parts(r); }
    r
}

fn empty_object() -> (r: Json)
    ensures
        r@ == empty_obj_v(),
{
    let e: Vec<(String, Json)> = Vec::new();
    assert(entries_view(e@) =~= Seq::<(Seq<char>, JsonV)>::empty());
    object(e)
}

fn string_value(s: &str) -> (r: Json)
    ensures
        r@ == str_v(s@),
{
    Json::Str(s.to_string())
}

fn u32_value(n: u32) -> (r: Json)
    ensures
        r@ == u32_v(n),
{
    Json::Number(JsonNumber::PosInt(n as u64))
}

fn key(k: &str) -> (r: String)
    ensures
        r@ == k@,
{
    k.to_string()
}

/// `{"uri": <uri>}`
pub open spec fn text_document_v(uri: Seq<char>) -> JsonV {
    obj_v(seq![("uri"@, str_v(uri))])
}

fn text_document(uri: &str) -> (r: Json)
    ensures
        r@ == text_document_v(uri@),
{
    let mut e: Vec<(String, Json)> = Vec::new();
    e.push((key("uri"), string_value(uri)));
    assert(entries_view(e@) =~= seq![("uri"@, str_v(uri@))]);
    object(e)
}

/// `{"line": <line>, "character": <character>}`
pub open spec fn position_v(line: u32, character: u32) -> JsonV {
    obj_v(seq![("line"@, u32_v(line)), ("character"@, u32_v(character))])
}

fn position(line: u32, character: u32) -> (r: Json)
    ensures
        r@ == position_v(line, character),
{
    let mut e: Vec<(String, Json)> = Vec::new();
    e.push((key("line"), u32_value(line)));
    e.push((key("character"), u32_value(character)));
    assert(entries_view(e@) =~= seq![("line"@, u32_v(line)), ("character"@, u32_v(character))]);
    object(e)
}

/// The parameters of a request at a position of a document (definition,
/// declaration, hover): `{"textDocument": {"uri"}, "position": {...}}`.
pub open spec fn position_params_v(uri: Seq<char>, line: u32, character: u32) -> JsonV {
    obj_v(seq![("textDocument"@, text_document_v(uri)), ("position"@, position_v(line, character))])
}

pub fn position_params(uri: &str, line: u32, character: u32) -> (r: Json)
    ensures
        r@ == position_params_v(uri@, line, character),
{
    let mut e: Vec<(String, Json)> = Vec::new();
    e.push((key("textDocument"), text_document(uri)));
    e.push((key("position"), position(line, character)));
    assert(entries_view(e@) =~= seq![
        ("textDocument"@, text_document_v(uri@)),
        ("position"@, position_v(line, character)),
    ]);
    object(e)
}

/// The parameters of `textDocument/rename`: the position and `newName`.
pub open spec fn rename_params_v(uri: Seq<char>, line: u32, character: u32, new_name: Seq<char>) -> JsonV {
    obj_v(seq![
        ("textDocument"@, text_document_v(uri)),
        ("position"@, position_v(line, character)),
        ("newName"@, str_v(new_name)),
    ])
}

pub fn rename_params(uri: &str, line: u32, character: u32, new_name: &str) -> (r: Json)
    ensures
        r@ == rename_params_v(uri@, line, character, new_name@),
{
    let mut e: Vec<(String, Json)> = Vec::new();
    e.push((key("textDocument"), text_document(uri)));
    e.push((key("position"), position(line, character)));
    e.push((key("newName"), string_value(new_name)));
    assert(entries_view(e@) =~= seq![
        ("textDocument"@, text_document_v(uri@)),
        ("position"@, position_v(line, character)),
        ("newName"@, str_v(new_name@)),
    ]);
    object(e)
}

/// The parameters of `textDocument/references`: the position, and the
/// declaration included.
pub open spec fn references_params_v(uri: Seq<char>, line: u32, character: u32) -> JsonV {
    obj_v(seq![
        ("textDocument"@, text_document_v(uri)),
        ("position"@, position_v(line, character)),
        ("context"@, obj_v(seq![("includeDeclaration"@, JsonV::Bool(true))])),
    ])
}

pub fn references_params(uri: &str, line: u32, character: u32) -> (r: Json)
    ensures
        r@ == references_params_v(uri@, line, character),
{
    let mut c: Vec<(String, Json)> = Vec::new();
    c.push((key("includeDeclaration"), Json::Bool(true)));
    assert(entries_view(c@) =~= seq![("includeDeclaration"@, JsonV::Bool(true))]);
    let context = object(c);
    let mut e: Vec<(String, Json)> = Vec::new();
    e.push((key("textDocument"), text_document(uri)));
    e.push((key("position"), position(line, character)));
    e.push((key("context"), context));
    assert(entries_view(e@) =~= seq![
        ("textDocument"@, text_document_v(uri@)),
        ("position"@, position_v(line, character)),
        ("context"@, obj_v(seq![("includeDeclaration"@, JsonV::Bool(true))])),
    ]);
    object(e)
}

/// The parameters of `textDocument/documentSymbol`.
pub open spec fn document_symbol_params_v(uri: Seq<char>) -> JsonV {
    obj_v(seq![("textDocument"@, text_document_v(uri))])
}

pub fn document_symbol_params(uri: &str) -> (r: Json)
    ensures
        r@ == document_symbol_params_v(uri@),
{
    let mut e: Vec<(String, Json)> = Vec::new();
    e.push((key("textDocument"), text_document(uri)));
    assert(entries_view(e@) =~= seq![("textDocument"@, text_document_v(uri@))]);
    object(e)
}

/// The parameters of Godot's `textDocument/nativeSymbol`: the class, and
/// the member asked for (the class itself when none is).
pub open spec fn native_symbol_params_v(native_class: Seq<char>, member: Option<Seq<char>>) -> JsonV {
    obj_v(seq![
        ("native_class"@, str_v(native_class)),
        ("symbol_name"@, str_v(match member { Some(m) => m, None => native_class })),
    ])
}

pub fn native_symbol_params(native_class: &str, member: Option<&str>) -> (r: Json)
    ensures
        r@ == native_symbol_params_v(native_class@, match member { Some(m) => Some(m@), None => None }),
{
    let name = match member {
        Some(m) => m,
        None => native_class,
    };
    let ghost want = native_symbol_params_v(native_class@, match member { Some(m) => Some(m@), None => None });
    assert(str_v(name@) == want->Obj_0[1].1);
    let mut e: Vec<(String, Json)> = Vec::new();
    e.push((key("native_class"), string_value(native_class)));
    e.push((key("symbol_name"), string_value(name)));
    assert(entries_view(e@) =~= seq![
        ("native_class"@, str_v(native_class@)),
        ("symbol_name"@, str_v(name@)),
    ]);
    assert(entries_view(e@) =~= want->Obj_0);
    object(e)
}

/// The parameters of `textDocument/didOpen` for a GDScript document at
/// version 1.
pub open spec fn did_open_params_v(uri: Seq<char>, text: Seq<char>) -> JsonV {
    obj_v(seq![("textDocument"@, obj_v(seq![
        ("uri"@, str_v(uri)),
        ("languageId"@, str_v("gdscript"@)),
        ("version"@, u32_v(1)),
        ("text"@, str_v(text)),
    ]))])
}

pub fn did_open_params(uri: &str, text: &str) -> (r: Json)
    ensures
        r@ == did_open_params_v(uri@, text@),
{
    let mut d: Vec<(String, Json)> = Vec::new();
    d.push((key("uri"), string_value(uri)));
    d.push((key("languageId"), string_value("gdscript")));
    d.push((key("version"), u32_value(1)));
    d.push((key("text"), string_value(text)));
    let ghost dv = seq![
        ("uri"@, str_v(uri@)),
        ("languageId"@, str_v("gdscript"@)),
        ("version"@, u32_v(1)),
        ("text"@, str_v(text@)),
    ];
    assert(entries_view(d@) =~= dv);
    let doc = object(d);
    let mut e: Vec<(String, Json)> = Vec::new();
    e.push((key("textDocument"), doc));
    assert(entries_view(e@) =~= seq![("textDocument"@, obj_v(dv))]);
    object(e)
}

/// The text-document capabilities the client announces.
pub open spec fn text_document_caps_v() -> JsonV {
    obj_v(seq![
        ("synchronization"@, obj_v(seq![
            ("didSave"@, JsonV::Bool(true)),
            ("willSave"@, JsonV::Bool(false)),
            ("willSaveWaitUntil"@, JsonV::Bool(false)),
        ])),
        ("rename"@, obj_v(seq![("prepareSupport"@, JsonV::Bool(true))])),
        ("references"@, empty_obj_v()),
        ("definition"@, empty_obj_v()),
        ("documentSymbol"@, obj_v(seq![("hierarchicalDocumentSymbolSupport"@, JsonV::Bool(true))])),
        ("publishDiagnostics"@, empty_obj_v()),
        ("hover"@, obj_v(seq![("contentFormat"@, JsonV::Arr(seq![str_v("plaintext"@), str_v("markdown"@)]))])),
    ])
}

/// The workspace capabilities the client announces.
pub open spec fn workspace_caps_v() -> JsonV {
    obj_v(seq![
        ("workspaceEdit"@, obj_v(seq![("documentChanges"@, JsonV::Bool(true))])),
        ("symbol"@, empty_obj_v()),
    ])
}

fn single(k: &str, v: Json) -> (r: Json)
    ensures
        r@ == obj_v(seq![(k@, v@)]),
{
    let ghost vv = v@;
    let mut e: Vec<(String, Json)> = Vec::new();
    e.push((key(k), v));
    assert(entries_view(e@) =~= seq![(k@, vv)]);
    object(e)
}

fn text_document_caps() -> (r: Json)
    ensures
        r@ == text_document_caps_v(),
{
    let mut s: Vec<(String, Json)> = Vec::new();
    s.push((key("didSave"), Json::Bool(true)));
    s.push((key("willSave"), Json::Bool(false)));
    s.push((key("willSaveWaitUntil"), Json::Bool(false)));
    let ghost sv = seq![
        ("didSave"@, JsonV::Bool(true)),
        ("willSave"@, JsonV::Bool(false)),
        ("willSaveWaitUntil"@, JsonV::Bool(false)),
    ];
    assert(entries_view(s@) =~= sv);
    let sync = object(s);
    let mut formats: Vec<Json> = Vec::new();
    formats.push(string_value("plaintext"));
    formats.push(string_value("markdown"));
    let ghost fv = seq![str_v("plaintext"@), str_v("markdown"@)];
    let fa = Json::Array(formats);
    proof {
        lemma_view_parts(fa);
        assert(crate::json::items_view(formats@) =~= fv);
    }
    let mut e: Vec<(String, Json)> = Vec::new();
    e.push((key("synchronization"), sync));
    e.push((key("rename"), single("prepareSupport", Json::Bool(true))));
    e.push((key("references"), empty_object()));
    e.push((key("definition"), empty_object()));
    e.push((key("documentSymbol"), single("hierarchicalDocumentSymbolSupport", Json::Bool(true))));
    e.push((key("publishDiagnostics"), empty_object()));
    e.push((key("hover"), single("contentFormat", fa)));
    assert(entries_view(e@) =~= text_document_caps_v()->Obj_0);
    object(e)
}

fn workspace_caps() -> (r: Json)
    ensures
        r@ == workspace_caps_v(),
{
    let mut e: Vec<(String, Json)> = Vec::new();
    e.push((key("workspaceEdit"), single("documentChanges", Json::Bool(true))));
    e.push((key("symbol"), empty_object()));
    assert(entries_view(e@) =~= workspace_caps_v()->Obj_0);
    object(e)
}

/// The parameters of `initialize`: the process id, the capabilities, and
/// the project's root as a URI and as a path (null without a project).
pub open spec fn initialize_params_v(process_id: u32, root: Option<(Seq<char>, Seq<char>)>) -> JsonV {
    obj_v(seq![
        ("processId"@, u32_v(process_id)),
        ("capabilities"@, obj_v(seq![
            ("textDocument"@, text_document_caps_v()),
            ("workspace"@, workspace_caps_v()),
        ])),
        ("rootUri"@, match root { Some((u, _)) => str_v(u), None => JsonV::Null }),
        ("rootPath"@, match root { Some((_, p)) => str_v(p), None => JsonV::Null }),
    ])
}

pub fn initialize_params(process_id: u32, root: Option<(&str, &str)>) -> (r: Json)
    ensures
        r@ == initialize_params_v(process_id, match root { Some((u, p)) => Some((u@, p@)), None => None }),
{
    let mut c: Vec<(String, Json)> = Vec::new();
    c.push((key("textDocument"), text_document_caps()));
    c.push((key("workspace"), workspace_caps()));
    let ghost cv = seq![
        ("textDocument"@, text_document_caps_v()),
        ("workspace"@, workspace_caps_v()),
    ];
    assert(entries_view(c@) =~= cv);
    let caps = object(c);
    let (root_uri, root_path) = match root {
        Some((u, p)) => (string_value(u), string_value(p)),
        None => (Json::Null, Json::Null),
    };
    let mut e: Vec<(String, Json)> = Vec::new();
    e.push((key("processId"), u32_value(process_id)));
    e.push((key("capabilities"), caps));
    e.push((key("rootUri"), root_uri));
    e.push((key("rootPath"), root_path));
    assert(entries_view(e@) =~= initialize_params_v(
        process_id, match root { Some((u, p)) => Some((u@, p@)), None => None })->Obj_0);
    object(e)
}

} // verus!
