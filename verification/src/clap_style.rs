//! clap-style help text for the gdapi command catalogue: `command/list`
//! answers become an aligned command list, `command/doc` answers a full help
//! page. Anything that does not have the expected shape is passed through.

use vstd::prelude::*;
use vstd::utf8::encode_utf8;
use crate::json::{
    get_array, get_bool, get_object, get_str, items_view, entries_view, jarr, jbool, jget, jobj,
    jstr, json_parse, or_empty, parse_json, Json, JsonV,
};
use crate::text::{push_str, push_char, utf8_len};

verus! {

pub open spec fn spaces(n: nat) -> Seq<char> {
    Seq::new(n, |i: int| ' ')
}

/// Byte length of a text in UTF-8 (what `str::len` gives).
pub open spec fn byte_len(s: Seq<char>) -> nat {
    encode_utf8(s).len()
}

/// The width a command's path takes in the list (0 when it has none).
pub open spec fn path_width(c: JsonV) -> nat {
    match jstr(jget(c, "path"@)) {
        Some(p) => byte_len(p),
        None => 0,
    }
}

/// The widest path among the commands.
pub open spec fn max_path_width(cmds: Seq<JsonV>) -> nat
    decreases cmds.len(),
{
    if cmds.len() == 0 {
        0
    } else {
        let w = max_path_width(cmds.drop_last());
        if path_width(cmds.last()) > w { path_width(cmds.last()) } else { w }
    }
}

/// One list line: two spaces, the path padded to `w` plus two, the summary.
pub open spec fn command_line(c: JsonV, w: nat) -> Seq<char> {
    match jstr(jget(c, "path"@)) {
        Some(p) => "  "@ + p + spaces((w - byte_len(p) + 2) as nat) + or_empty(jstr(jget(c, "summary"@))) + "\n"@,
        None => Seq::empty(),
    }
}

pub open spec fn command_lines(cmds: Seq<JsonV>, w: nat) -> Seq<char>
    decreases cmds.len(),
{
    if cmds.len() == 0 {
        Seq::empty()
    } else {
        command_lines(cmds.drop_last(), w) + command_line(cmds.last(), w)
    }
}

/// The list for a parsed `command/list` answer, or nothing when it does not
/// have the expected shape (an object with `ok: true` and a `commands` array).
pub open spec fn commands_text(v: JsonV) -> Option<Seq<char>> {
    if !(v is Obj) || jbool(jget(v, "ok"@)) != Some(true) {
        None
    } else {
        match jarr(jget(v, "commands"@)) {
            None => None,
            Some(cmds) => if cmds.len() == 0 {
                Some("Commands:\n"@)
            } else {
                Some("Commands:\n"@ + command_lines(cmds, max_path_width(cmds)))
            },
        }
    }
}

/// What `render_commands` prints for an answer body.
pub open spec fn render_commands_text(body: Seq<char>) -> Seq<char> {
    match json_parse(body) {
        Some(v) => match commands_text(v) {
            Some(t) => t,
            None => body,
        },
        None => body,
    }
}

pub proof fn lemma_max_path_width(cmds: Seq<JsonV>, i: int)
    requires
        0 <= i < cmds.len(),
    ensures
        path_width(cmds[i]) <= max_path_width(cmds),
    decreases cmds.len(),
{
    if i < cmds.len() - 1 {
        lemma_max_path_width(cmds.drop_last(), i);
        assert(cmds.drop_last()[i] == cmds[i]);
    }
}

fn push_spaces(s: &mut String, n: usize)
    ensures
        final(s)@ == old(s)@ + spaces(n as nat),
{
    let mut k: usize = 0;
    while k < n
        invariant
            k <= n,
            s@ == old(s)@ + spaces(k as nat),
        decreases n - k,
    {
        push_char(s, ' ');
        assert(s@ =~= old(s)@ + spaces((k + 1) as nat));
        k = k + 1;
    }
}

/// Renders a `command/list` answer as clap's subcommand list; bodies of any
/// other shape are returned as they are.
pub fn render_commands(body: &str) -> (r: String)
    ensures
        r@ == render_commands_text(body@),
{
    let value = match parse_json(body) {
        Some(v) => v,
        None => return String::from_str(body),
    };
    if value.as_object().is_none() {
        return String::from_str(body);
    }
    let ok = match get_bool(&value, "ok") {
        Some(b) => b,
        None => false,
    };
    if !ok {
        return String::from_str(body);
    }
    let commands = match get_array(&value, "commands") {
        Some(c) => c,
        None => return String::from_str(body),
    };
    let ghost cmds = items_view(commands@);
    if commands.len() == 0 {
        return String::from_str("Commands:\n");
    }
    let mut w: usize = 0;
    let mut i: usize = 0;
    while i < commands.len()
        invariant
            i <= commands.len(),
            cmds == items_view(commands@),
            w as nat == max_path_width(cmds.take(i as int)),
        decreases commands.len() - i,
    {
        assert(cmds.take(i + 1).drop_last() =~= cmds.take(i as int));
        assert(cmds[i as int] == commands@[i as int]@);
        match get_str(&commands[i], "path") {
            Some(p) => {
                let pl = utf8_len(p);
                if pl > w {
                    w = pl;
                }
            },
            None => {},
        }
        i = i + 1;
    }
    assert(cmds.take(commands.len() as int) =~= cmds);
    let mut out = String::from_str("Commands:\n");
    let ghost head = out@;
    let mut j: usize = 0;
    while j < commands.len()
        invariant
            j <= commands.len(),
            cmds == items_view(commands@),
            w as nat == max_path_width(cmds),
            out@ == head + command_lines(cmds.take(j as int), w as nat),
        decreases commands.len() - j,
    {
        assert(cmds.take(j + 1).drop_last() =~= cmds.take(j as int));
        assert(cmds[j as int] == commands@[j as int]@);
        match get_str(&commands[j], "path") {
            Some(p) => {
                proof { lemma_max_path_width(cmds, j as int); }
                let summary = match get_str(&commands[j], "summary") {
                    Some(s) => s,
                    None => "",
                };
                push_str(&mut out, "  ");
                push_str(&mut out, p);
                let pl = utf8_len(p);
                push_spaces(&mut out, w - pl);
                push_str(&mut out, "  ");
                push_str(&mut out, summary);
                push_str(&mut out, "\n");
                proof {
                    reveal_strlit("");
                    assert(summary@ == or_empty(jstr(jget(cmds[j as int], "summary"@))));
                    assert(cmds.take(j + 1).last() == cmds[j as int]);
                    assert(spaces((w - pl) as nat) + "  "@ =~= spaces((w - byte_len(p@) + 2) as nat)) by {
                        reveal_strlit("  ");
                    }
                    assert(out@ =~= head + command_lines(cmds.take(j + 1), w as nat));
                }
            },
            None => {
                assert(out@ =~= head + command_lines(cmds.take(j + 1), w as nat));
            },
        }
        j = j + 1;
    }
    assert(cmds.take(commands.len() as int) =~= cmds);
    out
}

/// Rust's `str::to_uppercase` (full Unicode case mapping).
pub uninterp spec fn upper_case(s: Seq<char>) -> Seq<char>;

/// `str::to_uppercase`.
#[verifier::external_body]
fn to_upper(s: &str) -> (r: String)
    ensures
        r@ == upper_case(s@),
{
    s.to_uppercase()
}

/// A parameter's line in the DATA block: `"name": "NAME", // (required type)  desc`.
pub open spec fn param_line(p: JsonV, i: int, n: int) -> Seq<char> {
    if !(p is Obj) {
        Seq::empty()
    } else {
        let name = or_empty(jstr(jget(p, "name"@)));
        let desc = match jget(p, "desc"@) {
            Some(d) => or_empty(jstr(Some(d))),
            None => or_empty(jstr(jget(p, "description"@))),
        };
        let ty = or_empty(jstr(jget(p, "type"@)));
        let mark = if jbool(jget(p, "required"@)) == Some(true) { "required"@ } else { "optional"@ };
        let comma = if i < n - 1 { ","@ } else { Seq::empty() };
        let type_mark = if ty.len() > 0 { " "@ + ty } else { Seq::empty() };
        "  \""@ + name + "\": \""@ + upper_case(name) + "\""@ + comma + " // ("@ + mark + type_mark
            + ")  "@ + desc + "\n"@
    }
}

pub open spec fn param_lines(ps: Seq<JsonV>, k: int) -> Seq<char>
    decreases k,
{
    if k <= 0 {
        Seq::empty()
    } else {
        param_lines(ps, k - 1) + param_line(ps[k - 1], k - 1, ps.len() as int)
    }
}

/// A key left-aligned in 20 columns (`{:<20}`).
pub open spec fn pad20(k: Seq<char>) -> Seq<char> {
    if k.len() < 20 { k + spaces((20 - k.len()) as nat) } else { k }
}

/// One line of the "Return Fields" block.
pub open spec fn field_line(e: (Seq<char>, JsonV)) -> Seq<char> {
    "  "@ + pad20(e.0) + " "@ + or_empty(jstr(Some(e.1))) + "\n"@
}

pub open spec fn field_lines(fs: Seq<(Seq<char>, JsonV)>) -> Seq<char>
    decreases fs.len(),
{
    if fs.len() == 0 {
        Seq::empty()
    } else {
        field_lines(fs.drop_last()) + field_line(fs.last())
    }
}

/// One line of the "Examples" block; entries that are not strings give none.
pub open spec fn example_line(x: JsonV) -> Seq<char> {
    match x {
        JsonV::Str(e) => "  "@ + e + "\n"@,
        _ => Seq::empty(),
    }
}

pub open spec fn example_lines(xs: Seq<JsonV>) -> Seq<char>
    decreases xs.len(),
{
    if xs.len() == 0 {
        Seq::empty()
    } else {
        example_lines(xs.drop_last()) + example_line(xs.last())
    }
}

pub open spec fn usage_text(doc: JsonV) -> Seq<char> {
    let path = or_empty(jstr(jget(doc, "path"@)));
    if has_params(doc) {
        "\nUsage: gdcli exec "@ + path + " --data {DATA}\n"@
    } else {
        "\nUsage: gdcli exec "@ + path + "\n"@
    }
}

pub open spec fn has_params(doc: JsonV) -> bool {
    jarr(jget(doc, "params"@)) matches Some(ps) && ps.len() > 0
}

pub open spec fn data_text(doc: JsonV) -> Seq<char> {
    match jarr(jget(doc, "params"@)) {
        Some(ps) => if ps.len() > 0 {
            "\nDATA:\n{\n"@ + param_lines(ps, ps.len() as int) + "}\n"@
        } else {
            Seq::empty()
        },
        None => Seq::empty(),
    }
}

pub open spec fn description_text(doc: JsonV) -> Seq<char> {
    match jstr(jget(doc, "description"@)) {
        Some(d) => if d.len() > 0 { "\nDescription:\n  "@ + d + "\n"@ } else { Seq::empty() },
        None => Seq::empty(),
    }
}

pub open spec fn return_fields_text(ret: JsonV) -> Seq<char> {
    match jobj(jget(ret, "fields"@)) {
        Some(f) => if f.len() > 0 { "\nReturn Fields:\n"@ + field_lines(f) } else { Seq::empty() },
        None => Seq::empty(),
    }
}

pub open spec fn returns_text(doc: JsonV) -> Seq<char> {
    match jget(doc, "returns"@) {
        Some(JsonV::Str(s)) => if s.len() > 0 { "\nReturns:\n  "@ + s + "\n"@ } else { Seq::empty() },
        Some(JsonV::Obj(o)) => {
            let rd = or_empty(jstr(jget(JsonV::Obj(o), "description"@)));
            let head = if rd.len() > 0 { "\nReturns:\n  "@ + rd + "\n"@ } else { Seq::empty() };
            head + return_fields_text(JsonV::Obj(o))
        },
        _ => Seq::empty(),
    }
}

pub open spec fn examples_text(doc: JsonV) -> Seq<char> {
    match jstr(jget(doc, "example"@)) {
        Some(e) => if e.len() > 0 { "\nExample:\n  "@ + e + "\n"@ } else { Seq::empty() },
        None => match jarr(jget(doc, "examples"@)) {
            Some(xs) => if xs.len() > 0 { "\nExamples:\n"@ + example_lines(xs) } else { Seq::empty() },
            None => Seq::empty(),
        },
    }
}

/// The help page for a command's documentation object.
pub open spec fn doc_text(doc: JsonV) -> Seq<char> {
    or_empty(jstr(jget(doc, "summary"@))) + "\n"@ + usage_text(doc) + data_text(doc)
        + description_text(doc) + returns_text(doc) + examples_text(doc)
}

/// The help page for a parsed `command/doc` answer, or nothing when it does
/// not have the expected shape (an object with `ok: true` and a `doc` object).
pub open spec fn help_text(v: JsonV) -> Option<Seq<char>> {
    if !(v is Obj) || jbool(jget(v, "ok"@)) != Some(true) {
        None
    } else {
        match jget(v, "doc"@) {
            Some(JsonV::Obj(m)) => Some(doc_text(JsonV::Obj(m))),
            _ => None,
        }
    }
}

/// What `render_command_help` prints for an answer body.
pub open spec fn render_help_text(body: Seq<char>) -> Seq<char> {
    match json_parse(body) {
        Some(v) => match help_text(v) {
            Some(t) => t,
            None => body,
        },
        None => body,
    }
}

proof fn lemma_param_lines_prefix(ps: Seq<JsonV>, k: int, m: int)
    requires
        0 <= k <= m,
    ensures
        param_lines(ps, k).len() <= param_lines(ps, m).len(),
        param_lines(ps, m).take(param_lines(ps, k).len() as int) == param_lines(ps, k),
    decreases m - k,
{
    if k < m {
        lemma_param_lines_prefix(ps, k, m - 1);
        let a = param_lines(ps, m - 1);
        let b = param_lines(ps, k);
        assert(param_lines(ps, m) == a + param_line(ps[m - 1], m - 1, ps.len() as int));
        assert((a + param_line(ps[m - 1], m - 1, ps.len() as int)).take(b.len() as int) =~= a.take(b.len() as int));
    } else {
        assert(param_lines(ps, m).take(param_lines(ps, m).len() as int) =~= param_lines(ps, m));
    }
}

/// In the DATA block the parameter lines come in order, each opening with
/// `"name": "NAME"`; every line but the last has a comma right after its
/// placeholder and the last has none, so the block reads as a JSON object.
pub proof fn law_data_commas(doc: JsonV, ps: Seq<JsonV>, i: int)
    requires
        jarr(jget(doc, "params"@)) == Some(ps),
        0 <= i < ps.len(),
        ps[i] is Obj,
    ensures
        ({
            let nm = or_empty(jstr(jget(ps[i], "name"@)));
            let entry = "  \""@ + nm + "\": \""@ + upper_case(nm) + "\""@;
            let at = 9 + param_lines(ps, i).len() as int;
            let d = data_text(doc);
            &&& d.subrange(at, at + entry.len() as int) == entry
            &&& i < ps.len() - 1 ==> d.subrange(at + entry.len() as int, at + entry.len() as int + 6) == ", // ("@
            &&& i == ps.len() - 1 ==> d.subrange(at + entry.len() as int, at + entry.len() as int + 5) == " // ("@
        }),
{
    reveal_strlit("\nDATA:\n{\n");
    reveal_strlit(", // (");
    reveal_strlit(" // (");
    reveal_strlit(",");
    let n = ps.len() as int;
    let nm = or_empty(jstr(jget(ps[i], "name"@)));
    let entry = "  \""@ + nm + "\": \""@ + upper_case(nm) + "\""@;
    let pre = param_lines(ps, i);
    let line = param_line(ps[i], i, n);
    let all = param_lines(ps, n);
    let d = data_text(doc);
    let at = 9 + pre.len() as int;
    lemma_param_lines_prefix(ps, i + 1, n);
    assert(param_lines(ps, i + 1) == pre + line);
    assert(d == "\nDATA:\n{\n"@ + all + "}\n"@);
    assert forall|t: int| 0 <= t < line.len() implies d[at + t] == #[trigger] line[t] by {
        assert(d[at + t] == all[pre.len() + t]);
        assert(all[pre.len() + t] == all.take((pre + line).len() as int)[pre.len() + t]);
        assert((pre + line)[pre.len() + t] == line[t]);
    }
    let comma: Seq<char> = if i < n - 1 { ","@ } else { Seq::empty() };
    let ty = or_empty(jstr(jget(ps[i], "type"@)));
    let desc = match jget(ps[i], "desc"@) {
        Some(dd) => or_empty(jstr(Some(dd))),
        None => or_empty(jstr(jget(ps[i], "description"@))),
    };
    let mark = if jbool(jget(ps[i], "required"@)) == Some(true) { "required"@ } else { "optional"@ };
    let type_mark = if ty.len() > 0 { " "@ + ty } else { Seq::<char>::empty() };
    let tail = mark + type_mark + ")  "@ + desc + "\n"@;
    assert(line =~= entry + (comma + " // ("@) + tail);
    assert(d.subrange(at, at + entry.len() as int) =~= entry) by {
        assert forall|t: int| 0 <= t < entry.len() implies d.subrange(at, at + entry.len() as int)[t] == entry[t] by {
            assert(line[t] == entry[t]);
        }
    }
    let e = entry.len() as int;
    let mid = comma + " // ("@;
    assert forall|t: int| 0 <= t < mid.len() implies d[at + e + t] == #[trigger] mid[t] by {
        assert(line[e + t] == mid[t]);
    }
    if i < n - 1 {
        assert(mid =~= ", // ("@);
        assert(d.subrange(at + e, at + e + 6) =~= ", // ("@) by {
            assert forall|t: int| 0 <= t < 6 implies d.subrange(at + e, at + e + 6)[t] == mid[t] by {}
        }
    } else {
        assert(mid =~= " // ("@);
        assert(d.subrange(at + e, at + e + 5) =~= " // ("@) by {
            assert forall|t: int| 0 <= t < 5 implies d.subrange(at + e, at + e + 5)[t] == mid[t] by {}
        }
    }
}

fn param_line_string(p: &Json, i: usize, n: usize) -> (line: String)
    requires
        i < n,
        p@ is Obj,
    ensures
        line@ == param_line(p@, i as int, n as int),
{
    proof { reveal_strlit(""); }
    let name = match get_str(p, "name") { Some(s) => s, None => "" };
    let desc = match p.get("desc") {
        Some(d) => match d.as_str() { Some(s) => s, None => "" },
        None => match get_str(p, "description") { Some(s) => s, None => "" },
    };
    let ty = match get_str(p, "type") { Some(s) => s, None => "" };
    let required = match get_bool(p, "required") { Some(b) => b, None => false };
    let mark = if required { "required" } else { "optional" };
    let upper = to_upper(name);
    let mut line = String::from_str("  \"");
    push_str(&mut line, name);
    push_str(&mut line, "\": \"");
    push_str(&mut line, upper.as_str());
    push_str(&mut line, "\"");
    let ghost l1 = line@;
    let ghost comma: Seq<char> = if i < n - 1 { ","@ } else { Seq::empty() };
    if i < n - 1 {
        push_str(&mut line, ",");
    }
    assert(line@ =~= l1 + comma);
    push_str(&mut line, " // (");
    push_str(&mut line, mark);
    let ghost l2 = line@;
    let ghost type_mark: Seq<char> = if ty@.len() > 0 { " "@ + ty@ } else { Seq::empty() };
    if !ty.is_empty() {
        push_str(&mut line, " ");
        push_str(&mut line, ty);
    }
    assert(line@ =~= l2 + type_mark);
    push_str(&mut line, ")  ");
    push_str(&mut line, desc);
    push_str(&mut line, "\n");
    proof {
        let pv = p@;
        assert(name@ == or_empty(jstr(jget(pv, "name"@))));
        assert(ty@ == or_empty(jstr(jget(pv, "type"@))));
        assert(desc@ == (match jget(pv, "desc"@) {
            Some(d) => or_empty(jstr(Some(d))),
            None => or_empty(jstr(jget(pv, "description"@))),
        }));
        assert(mark@ == (if jbool(jget(pv, "required"@)) == Some(true) { "required"@ } else { "optional"@ }));
        assert(upper@ == upper_case(name@));
    }
    line
}

fn push_data(out: &mut String, ps: &Vec<Json>)
    requires
        ps.len() > 0,
    ensures
        final(out)@ == old(out)@ + "\nDATA:\n{\n"@ + param_lines(items_view(ps@), ps@.len() as int) + "}\n"@,
{
    let ghost pv = items_view(ps@);
    push_str(out, "\nDATA:\n{\n");
    let ghost start = out@;
    let n = ps.len();
    let mut i: usize = 0;
    while i < n
        invariant
            i <= n,
            n == ps@.len(),
            pv == items_view(ps@),
            out@ == start + param_lines(pv, i as int),
        decreases n - i,
    {
        assert(pv[i as int] == ps@[i as int]@);
        let ghost prev = out@;
        if ps[i].as_object().is_some() {
            let line = param_line_string(&ps[i], i, n);
            push_str(out, line.as_str());
        }
        assert(out@ =~= prev + param_line(pv[i as int], i as int, n as int));
        i = i + 1;
    }
    push_str(out, "}\n");
}

fn push_pad20(out: &mut String, k: &str)
    ensures
        final(out)@ == old(out)@ + pad20(k@),
{
    let n = k.unicode_len();
    push_str(out, k);
    if n < 20 {
        push_spaces(out, 20 - n);
    }
    assert(final(out)@ =~= old(out)@ + pad20(k@));
}

fn push_field_line(out: &mut String, key: &str, value: &Json)
    ensures
        final(out)@ == old(out)@ + field_line((key@, value@)),
{
    proof { reveal_strlit(""); }
    let mut line = String::from_str("  ");
    push_pad20(&mut line, key);
    push_str(&mut line, " ");
    let fd = match value.as_str() { Some(s) => s, None => "" };
    push_str(&mut line, fd);
    push_str(&mut line, "\n");
    push_str(out, line.as_str());
}

fn push_return_fields(out: &mut String, fields: &Vec<(String, Json)>)
    requires
        fields.len() > 0,
    ensures
        final(out)@ == old(out)@ + "\nReturn Fields:\n"@ + field_lines(entries_view(fields@)),
{
    let ghost fv = entries_view(fields@);
    push_str(out, "\nReturn Fields:\n");
    let ghost start = out@;
    let mut k: usize = 0;
    while k < fields.len()
        invariant
            k <= fields.len(),
            fv == entries_view(fields@),
            out@ == start + field_lines(fv.take(k as int)),
        decreases fields.len() - k,
    {
        assert(fv.take(k + 1).drop_last() =~= fv.take(k as int));
        push_field_line(out, fields[k].0.as_str(), &fields[k].1);
        assert(fv.take(k + 1).last() == (fields@[k as int].0@, fields@[k as int].1@));
        k = k + 1;
    }
    assert(fv.take(fields.len() as int) =~= fv);
}

fn push_description(out: &mut String, doc: &Json)
    ensures
        final(out)@ == old(out)@ + description_text(doc@),
{
    match get_str(doc, "description") {
        Some(d) => {
            if !d.is_empty() {
                push_str(out, "\nDescription:\n  ");
                push_str(out, d);
                push_str(out, "\n");
            }
        },
        None => {},
    }
    assert(final(out)@ =~= old(out)@ + description_text(doc@));
}

fn push_returns(out: &mut String, doc: &Json)
    ensures
        final(out)@ == old(out)@ + returns_text(doc@),
{
    proof { reveal_strlit(""); }
    match doc.get("returns") {
        Some(ret) => {
            match ret {
                Json::Str(s) => {
                    if !s.as_str().is_empty() {
                        push_str(out, "\nReturns:\n  ");
                        push_str(out, s.as_str());
                        push_str(out, "\n");
                    }
                },
                Json::Object(_) => {
                    let rd = match get_str(ret, "description") { Some(s) => s, None => "" };
                    if !rd.is_empty() {
                        push_str(out, "\nReturns:\n  ");
                        push_str(out, rd);
                        push_str(out, "\n");
                    }
                    let ghost mid = out@;
                    match get_object(ret, "fields") {
                        Some(fields) => {
                            if fields.len() > 0 {
                                push_return_fields(out, fields);
                            }
                        },
                        None => {},
                    }
                    assert(out@ =~= mid + return_fields_text(ret@));
                },
                _ => {},
            }
        },
        None => {},
    }
    assert(final(out)@ =~= old(out)@ + returns_text(doc@));
}

fn push_example_list(out: &mut String, xs: &Vec<Json>)
    requires
        xs.len() > 0,
    ensures
        final(out)@ == old(out)@ + "\nExamples:\n"@ + example_lines(items_view(xs@)),
{
    let ghost xv = items_view(xs@);
    push_str(out, "\nExamples:\n");
    let ghost start = out@;
    let mut k: usize = 0;
    while k < xs.len()
        invariant
            k <= xs.len(),
            xv == items_view(xs@),
            out@ == start + example_lines(xv.take(k as int)),
        decreases xs.len() - k,
    {
        assert(xv.take(k + 1).drop_last() =~= xv.take(k as int));
        assert(xv[k as int] == xs@[k as int]@);
        let ghost prev = out@;
        match xs[k].as_str() {
            Some(s) => {
                push_str(out, "  ");
                push_str(out, s);
                push_str(out, "\n");
            },
            None => {},
        }
        assert(out@ =~= prev + example_line(xv[k as int]));
        k = k + 1;
    }
    assert(xv.take(xs.len() as int) =~= xv);
}

fn push_examples(out: &mut String, doc: &Json)
    ensures
        final(out)@ == old(out)@ + examples_text(doc@),
{
    match get_str(doc, "example") {
        Some(e) => {
            if !e.is_empty() {
                push_str(out, "\nExample:\n  ");
                push_str(out, e);
                push_str(out, "\n");
            }
        },
        None => {
            match get_array(doc, "examples") {
                Some(xs) => {
                    if xs.len() > 0 {
                        push_example_list(out, xs);
                    }
                },
                None => {},
            }
        },
    }
    assert(final(out)@ =~= old(out)@ + examples_text(doc@));
}

fn doc_page(doc: &Json) -> (out: String)
    requires
        doc@ is Obj,
    ensures
        out@ == doc_text(doc@),
{
    proof { reveal_strlit(""); }
    let summary = match get_str(doc, "summary") { Some(s) => s, None => "" };
    let path = match get_str(doc, "path") { Some(s) => s, None => "" };
    let params = get_array(doc, "params");
    let has = match params { Some(ps) => ps.len() > 0, None => false };
    let mut out = String::from_str(summary);
    push_str(&mut out, "\n");
    let ghost head = out@;
    push_str(&mut out, "\nUsage: gdcli exec ");
    push_str(&mut out, path);
    if has {
        push_str(&mut out, " --data {DATA}\n");
    } else {
        push_str(&mut out, "\n");
    }
    assert(out@ =~= head + usage_text(doc@));
    let ghost before_data = out@;
    match params {
        Some(ps) => {
            if ps.len() > 0 {
                push_data(&mut out, ps);
            }
        },
        None => {},
    }
    assert(out@ =~= before_data + data_text(doc@));
    push_description(&mut out, doc);
    push_returns(&mut out, doc);
    push_examples(&mut out, doc);
    out
}

/// Renders a `command/doc` answer as a clap-style help page; bodies of any
/// other shape are returned as they are.
pub fn render_command_help(body: &str) -> (r: String)
    ensures
        r@ == render_help_text(body@),
{
    let value = match parse_json(body) {
        Some(v) => v,
        None => return String::from_str(body),
    };
    if value.as_object().is_none() {
        return String::from_str(body);
    }
    let ok = match get_bool(&value, "ok") { Some(b) => b, None => false };
    if !ok {
        return String::from_str(body);
    }
    let doc = match value.get("doc") {
        Some(d) => d,
        None => return String::from_str(body),
    };
    if doc.as_object().is_none() {
        return String::from_str(body);
    }
    doc_page(doc)
}

} // verus!
