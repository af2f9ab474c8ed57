//! The decisions of `gdcli exec`: which body a command sends, where the
//! request goes, which exit code an HTTP status gives and what is printed.
//! Reading stdin or a file named by `--data @path`, and the HTTP exchange
//! itself, are left to the caller.

use vstd::prelude::*;
use crate::clap_style::{render_command_help, render_commands, render_commands_text, render_help_text};
use crate::format::{exec_body_text, render_exec_body, reorder_ok_json, reordered_text};
use crate::json::{entries_view, json_parse, json_text, lemma_view_parts, parse_json, str_equal, to_json_text, Json, JsonV};
use crate::text::{
    chars_of, decimal, decimal_u64, is_whitespace, is_whitespace_exec, push_char, push_chars, push_str,
    string_views, trim_end, trim_end_string,
};

verus! {

/// What `{:?}` writes for a list of strings: `["a", "b"]`, each string
/// quoted with Rust's debug escapes.
pub uninterp spec fn debug_list_text(items: Seq<Seq<char>>) -> Seq<char>;

/// `format!("{:?}", items)` for a slice of strings.
#[verifier::external_body]
fn debug_list(items: &[String]) -> (r: String)
    ensures
        r@ == debug_list_text(string_views(items@)),
{
    format!("{:?}", items)
}

/// What the request body will be, or why there is none.
pub enum BuildBodyOutcome {
    /// The JSON text to send.
    Body(String),
    /// The arguments do not fit the command; the message says why.
    Reject(String),
    /// `--data -`: the body is what stdin holds.
    FromStdin,
    /// `--data @path`: the body is what the file at `path` holds.
    FromFile(String),
}

/// The mathematical form of a `BuildBodyOutcome`.
pub enum BodyPlan {
    Body(Seq<char>),
    Reject(Seq<char>),
    FromStdin,
    FromFile(Seq<char>),
}

impl View for BuildBodyOutcome {
    type V = BodyPlan;

    open spec fn view(&self) -> BodyPlan {
        match self {
            BuildBodyOutcome::Body(s) => BodyPlan::Body(s@),
            BuildBodyOutcome::Reject(s) => BodyPlan::Reject(s@),
            BuildBodyOutcome::FromStdin => BodyPlan::FromStdin,
            BuildBodyOutcome::FromFile(s) => BodyPlan::FromFile(s@),
        }
    }
}

/// Where `--data` takes the body from: `-` is stdin, `@path` a file, any
/// other text is the body itself; without `--data` the body is `{}`.
pub open spec fn data_plan(data: Option<Seq<char>>) -> BodyPlan {
    match data {
        None => BodyPlan::Body("{}"@),
        Some(d) => if d == "-"@ {
            BodyPlan::FromStdin
        } else if d.len() > 0 && d[0] == '@' {
            BodyPlan::FromFile(d.skip(1))
        } else {
            BodyPlan::Body(d)
        },
    }
}

/// The body `command/doc` sends for a route: `{"command":<route>}`.
pub open spec fn doc_request(route: Seq<char>) -> Seq<char> {
    json_text(JsonV::Obj(seq![("command"@, JsonV::Str(route))]))
}

/// The body for a command, its positional arguments and `--data`.
pub open spec fn body_plan(command: Seq<char>, args: Seq<Seq<char>>, data: Option<Seq<char>>) -> BodyPlan {
    if command == "command/list"@ {
        if args.len() > 0 {
            BodyPlan::Reject("'command/list' does not accept arguments, got "@ + debug_list_text(args))
        } else if data is Some {
            BodyPlan::Reject("'command/list' does not accept --data"@)
        } else {
            BodyPlan::Body("{}"@)
        }
    } else if command == "command/doc"@ {
        if data is Some {
            BodyPlan::Reject("'command/doc' does not accept --data; use positional argument instead"@)
        } else if args.len() != 1 {
            BodyPlan::Reject("'command/doc' requires exactly one argument (command path), got "@
                + decimal(args.len()) + ": "@ + debug_list_text(args))
        } else {
            BodyPlan::Body(doc_request(args[0]))
        }
    } else if args.len() > 0 {
        BodyPlan::Reject("unexpected positional arguments for '"@ + command + "': "@ + debug_list_text(args))
    } else {
        data_plan(data)
    }
}

pub open spec fn opt_str_view(o: Option<&str>) -> Option<Seq<char>> {
    match o {
        Some(s) => Some(s@),
        None => None,
    }
}

fn plan_for_data(d: &str) -> (r: BuildBodyOutcome)
    ensures
        r@ == data_plan(Some(d@)),
{
    if str_equal(d, "-") {
        return BuildBodyOutcome::FromStdin;
    }
    let cs = chars_of(d);
    if cs.len() > 0 && cs[0] == '@' {
        let mut path = String::new();
        let mut i: usize = 1;
        while i < cs.len()
            invariant
                1 <= i <= cs@.len(),
                cs@ == d@,
                path@ == cs@.subrange(1, i as int),
            decreases cs.len() - i,
        {
            push_char(&mut path, cs[i]);
            assert(path@ =~= cs@.subrange(1, i + 1));
            i = i + 1;
        }
        assert(cs@.subrange(1, cs@.len() as int) =~= d@.skip(1));
        return BuildBodyOutcome::FromFile(path);
    }
    BuildBodyOutcome::Body(String::from_str(d))
}

/// Decides the request body of `gdcli exec`.
pub fn build_body(command: &str, args: &[String], data: Option<&str>) -> (r: BuildBodyOutcome)
    ensures
        r@ == body_plan(command@, string_views(args@), opt_str_view(data)),
{
    let ghost av = string_views(args@);
    if str_equal(command, "command/list") {
        if args.len() > 0 {
            let mut m = String::from_str("'command/list' does not accept arguments, got ");
            let d = debug_list(args);
            push_str(&mut m, d.as_str());
            return BuildBodyOutcome::Reject(m);
        }
        if data.is_some() {
            return BuildBodyOutcome::Reject(String::from_str("'command/list' does not accept --data"));
        }
        return BuildBodyOutcome::Body(String::from_str("{}"));
    }
    if str_equal(command, "command/doc") {
        if data.is_some() {
            return BuildBodyOutcome::Reject(
                String::from_str("'command/doc' does not accept --data; use positional argument instead"),
            );
        }
        if args.len() != 1 {
            let mut m = String::from_str("'command/doc' requires exactly one argument (command path), got ");
            let n = decimal_u64(args.len() as u64);
            push_chars(&mut m, n.as_slice());
            push_str(&mut m, ": ");
            let d = debug_list(args);
            push_str(&mut m, d.as_str());
            return BuildBodyOutcome::Reject(m);
        }
        let mut entries: Vec<(String, Json)> = Vec::new();
        let route = Json::Str(args[0].clone());
        assert(route@ == JsonV::Str(av[0]));
        entries.push((String::from_str("command"), route));
        assert(entries_view(entries@) =~= seq![("command"@, JsonV::Str(av[0]))]);
        let j = Json::Object(entries);
        proof {
            lemma_view_parts(j);
            assert(j@ == JsonV::Obj(seq![("command"@, JsonV::Str(av[0]))]));
        }
        return BuildBodyOutcome::Body(to_json_text(&j));
    }
    if args.len() > 0 {
        let mut m = String::from_str("unexpected positional arguments for '");
        push_str(&mut m, command);
        push_str(&mut m, "': ");
        let d = debug_list(args);
        push_str(&mut m, d.as_str());
        return BuildBodyOutcome::Reject(m);
    }
    match data {
        Some(d) => plan_for_data(d),
        None => BuildBodyOutcome::Body(String::from_str("{}")),
    }
}

/// Whether a request body is JSON at all (checked before it is sent).
pub fn body_is_json(body: &str) -> (r: bool)
    ensures
        r == (json_parse(body@) is Some),
{
    parse_json(body).is_some()
}

/// Exit code for an answer: 0 for a 2xx answer that is not an error, 2 for
/// a 4xx answer, 1 for anything else.
pub open spec fn exit_code(status: u16, is_error: bool) -> i32 {
    if !is_error && 200 <= status < 300 {
        0
    } else if 400 <= status < 500 {
        2
    } else {
        1
    }
}

pub fn map_status_to_exit(status: u16, is_error: bool) -> (r: i32)
    ensures
        r == exit_code(status, is_error),
{
    if !is_error && 200 <= status && status < 300 {
        0
    } else if 400 <= status && status < 500 {
        2
    } else {
        1
    }
}

/// The text without its leading `/` characters (`trim_start_matches('/')`).
pub open spec fn trim_leading_slashes(s: Seq<char>) -> Seq<char>
    decreases s.len(),
{
    if s.len() > 0 && s[0] == '/' { trim_leading_slashes(s.drop_first()) } else { s }
}

/// The address a command is posted to.
pub open spec fn command_url(port: u16, command: Seq<char>) -> Seq<char> {
    "http://127.0.0.1:"@ + decimal(port as nat) + "/"@ + trim_leading_slashes(command)
}

pub fn request_url(port: u16, command: &str) -> (r: String)
    ensures
        r@ == command_url(port, command@),
{
    let mut url = String::from_str("http://127.0.0.1:");
    let p = decimal_u64(port as u64);
    push_chars(&mut url, p.as_slice());
    push_str(&mut url, "/");
    let cs = chars_of(command);
    let mut a: usize = 0;
    assert(cs@.skip(0) =~= cs@);
    while a < cs.len() && cs[a] == '/'
        invariant
            a <= cs@.len(),
            cs@ == command@,
            trim_leading_slashes(command@) == trim_leading_slashes(cs@.skip(a as int)),
        decreases cs.len() - a,
    {
        assert(cs@.skip(a as int).drop_first() =~= cs@.skip(a + 1));
        a = a + 1;
    }
    let ghost head = url@;
    let mut k = a;
    while k < cs.len()
        invariant
            a <= k <= cs@.len(),
            url@ == head + cs@.subrange(a as int, k as int),
        decreases cs.len() - k,
    {
        push_char(&mut url, cs[k]);
        assert(url@ =~= head + cs@.subrange(a as int, k + 1));
        k = k + 1;
    }
    assert(cs@.subrange(a as int, cs@.len() as int) =~= cs@.skip(a as int));
    url
}

/// The `Authorization` header value: `Bearer <token>` when a token that is
/// not empty is known.
pub fn bearer_header(token: Option<&str>) -> (r: Option<String>)
    ensures
        match token {
            Some(t) => if t@.len() > 0 {
                r matches Some(h) && h@ == "Bearer "@ + t@
            } else {
                r is None
            },
            None => r is None,
        },
{
    match token {
        Some(t) => {
            if t.is_empty() {
                None
            } else {
                let mut h = String::from_str("Bearer ");
                push_str(&mut h, t);
                Some(h)
            }
        },
        None => None,
    }
}

/// How a successful answer is rendered for a command.
pub open spec fn rendered_for(command: Seq<char>, body: Seq<char>) -> Seq<char> {
    if command == "command/list"@ {
        render_commands_text(body)
    } else if command == "command/doc"@ {
        render_help_text(body)
    } else {
        exec_body_text(body)
    }
}

/// What is printed for a successful answer: with `--json` the reordered
/// JSON as it is, otherwise the rendering, ended by a line break.
pub open spec fn success_text(command: Seq<char>, body: Seq<char>, json_mode: bool) -> Seq<char> {
    if json_mode {
        reordered_text(body)
    } else {
        let r = rendered_for(command, body);
        if r.len() > 0 && r.last() == '\n' { r } else { r.push('\n') }
    }
}

pub fn success_output(command: &str, body: &str, json_mode: bool) -> (r: String)
    ensures
        r@ == success_text(command@, body@, json_mode),
{
    if json_mode {
        return reorder_ok_json(body);
    }
    let mut rendered = if str_equal(command, "command/list") {
        render_commands(body)
    } else if str_equal(command, "command/doc") {
        render_command_help(body)
    } else {
        render_exec_body(body)
    };
    let cs = chars_of(rendered.as_str());
    if !(cs.len() > 0 && cs[cs.len() - 1] == '\n') {
        push_char(&mut rendered, '\n');
    }
    rendered
}

/// The message for an answer with an error status: `Error (<code>): ` and
/// the rendered body without trailing white space.
pub open spec fn status_error_text(code: u16, body: Seq<char>, json_mode: bool) -> Seq<char> {
    let rendered = if json_mode { reordered_text(body) } else { exec_body_text(body) };
    "Error ("@ + decimal(code as nat) + "): "@ + trim_end(rendered)
}

pub fn status_error_output(code: u16, body: &str, json_mode: bool) -> (r: String)
    ensures
        r@ == status_error_text(code, body@, json_mode),
{
    let rendered = if json_mode { reorder_ok_json(body) } else { render_exec_body(body) };
    let mut m = String::from_str("Error (");
    let c = decimal_u64(code as u64);
    push_chars(&mut m, c.as_slice());
    push_str(&mut m, "): ");
    let t = trim_end_string(rendered.as_str());
    push_str(&mut m, t.as_str());
    m
}

} // verus!
