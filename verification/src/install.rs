//! The text work of `gdcli install`: the version an installed `plugin.cfg`
//! declares, the `plugin.cfg` written for a version, and the change to
//! `project.godot` that lists the plugin under `[editor_plugins]`.

use vstd::prelude::*;
use crate::text::{
    chars_of, contains_chars, contains_sub, copy_chars, eq_chars, join_lines, join_sep, push_chars,
    push_str, split_lines, starts_with, starts_with_chars, string_of, text_lines, trim, trim_chars,
    trim_end, trim_end_string, vecs_view,
};

verus! {

/// The arguments of `gdcli install`.
pub struct InstallArgs {
    /// The project's root directory.
    pub project_root: String,
    /// Replace an installed plugin.
    pub force: bool,
    /// Leave `project.godot` as it is.
    pub no_enable: bool,
}

/// What the plugin is listed as in `project.godot`.
pub open spec fn plugin_entry() -> Seq<char> {
    "res://addons/gdapi/plugin.cfg"@
}

/// The `enabled=` line that lists only the plugin.
pub open spec fn enabled_line() -> Seq<char> {
    "enabled=PackedStringArray(\"res://addons/gdapi/plugin.cfg\")"@
}

pub open spec fn section_header() -> Seq<char> {
    "[editor_plugins]"@
}

/// Index of the first `enabled=` line inside an `[editor_plugins]` section,
/// scanning from line `i` with `in_section` telling whether line `i` is
/// inside such a section.
pub open spec fn first_enabled(lines: Seq<Seq<char>>, i: int, in_section: bool) -> Option<int>
    decreases lines.len() - i,
{
    if i < 0 || i >= lines.len() {
        None
    } else {
        let t = trim(lines[i]);
        if t == section_header() {
            first_enabled(lines, i + 1, true)
        } else {
            let inside = in_section && !(t.len() > 0 && t[0] == '[');
            if inside && starts_with(lines[i], "enabled="@) {
                Some(i)
            } else {
                first_enabled(lines, i + 1, inside)
            }
        }
    }
}

/// An `enabled=` line with the plugin added: an empty list is replaced, a
/// list closed by `)` gets the plugin appended, anything else is replaced.
pub open spec fn patched_line(line: Seq<char>) -> Seq<char> {
    if trim(line) == "enabled=PackedStringArray()"@ {
        enabled_line()
    } else if line.len() > 0 && line.last() == ')' {
        line.drop_last() + ",\""@ + plugin_entry() + "\""@ + ")"@
    } else {
        enabled_line()
    }
}

/// The lines with the plugin's `enabled=` line after every section header.
pub open spec fn with_enabled_lines(lines: Seq<Seq<char>>) -> Seq<Seq<char>>
    decreases lines.len(),
{
    if lines.len() == 0 {
        Seq::empty()
    } else {
        let r = with_enabled_lines(lines.drop_last());
        if trim(lines.last()) == section_header() {
            r.push(lines.last()).push(enabled_line())
        } else {
            r.push(lines.last())
        }
    }
}

pub open spec fn has_section(lines: Seq<Seq<char>>) -> bool {
    exists|k: int| 0 <= k < lines.len() && trim(#[trigger] lines[k]) == section_header()
}

/// The line ending a `project.godot` uses: `\r\n` when it has one anywhere.
pub open spec fn line_ending(content: Seq<char>) -> Seq<char> {
    if contains_sub(content, "\r\n"@) { "\r\n"@ } else { "\n"@ }
}

/// The new `project.godot` text with the plugin enabled, or nothing when the
/// plugin is already mentioned (then the file is left alone).
pub open spec fn enabled_content(content: Seq<char>) -> Option<Seq<char>> {
    if contains_sub(content, plugin_entry()) {
        None
    } else {
        let le = line_ending(content);
        let lines = text_lines(content);
        if has_section(lines) {
            match first_enabled(lines, 0, false) {
                Some(k) => Some(join_sep(lines.update(k, patched_line(lines[k])), le)),
                None => Some(join_sep(with_enabled_lines(lines), le)),
            }
        } else {
            Some(trim_end(content) + le + le + section_header() + le + le + enabled_line() + le)
        }
    }
}

fn find_enabled(lines: &Vec<Vec<char>>) -> (r: Option<usize>)
    ensures
        match r {
            Some(k) => first_enabled(vecs_view(lines@), 0, false) == Some(k as int) && k < lines@.len(),
            None => first_enabled(vecs_view(lines@), 0, false) is None,
        },
{
    let ghost lv = vecs_view(lines@);
    let header = chars_of("[editor_plugins]");
    let prefix = chars_of("enabled=");
    let mut in_section = false;
    let mut i: usize = 0;
    while i < lines.len()
        invariant
            i <= lines@.len(),
            lv == vecs_view(lines@),
            header@ == section_header(),
            prefix@ == "enabled="@,
            first_enabled(lv, 0, false) == first_enabled(lv, i as int, in_section),
        decreases lines.len() - i,
    {
        let t = trim_chars(lines[i].as_slice());
        assert(lv[i as int] == lines@[i as int]@);
        if eq_chars(t.as_slice(), header.as_slice()) {
            in_section = true;
        } else {
            let inside = in_section && !(t.len() > 0 && t[0] == '[');
            if inside && starts_with_chars(lines[i].as_slice(), prefix.as_slice()) {
                return Some(i);
            }
            in_section = inside;
        }
        i = i + 1;
    }
    None
}

fn patch_line(line: &Vec<char>) -> (r: Vec<char>)
    ensures
        r@ == patched_line(line@),
{
    let t = trim_chars(line.as_slice());
    let empty_list = chars_of("enabled=PackedStringArray()");
    if eq_chars(t.as_slice(), empty_list.as_slice()) {
        return chars_of("enabled=PackedStringArray(\"res://addons/gdapi/plugin.cfg\")");
    }
    if line.len() > 0 && line[line.len() - 1] == ')' {
        let mut r: Vec<char> = Vec::new();
        let mut i: usize = 0;
        while i < line.len() - 1
            invariant
                i <= line@.len() - 1,
                line@.len() > 0,
                r@ == line@.take(i as int),
            decreases line.len() - 1 - i,
        {
            r.push(line[i]);
            assert(r@ =~= line@.take(i + 1));
            i = i + 1;
        }
        let mut s = string_of(r.as_slice());
        push_str(&mut s, ",\"");
        push_str(&mut s, "res://addons/gdapi/plugin.cfg");
        push_str(&mut s, "\"");
        push_str(&mut s, ")");
        assert(line@.take(line@.len() - 1) =~= line@.drop_last());
        return chars_of(s.as_str());
    }
    chars_of("enabled=PackedStringArray(\"res://addons/gdapi/plugin.cfg\")")
}

fn insert_enabled_lines(lines: &Vec<Vec<char>>) -> (r: Vec<Vec<char>>)
    ensures
        vecs_view(r@) == with_enabled_lines(vecs_view(lines@)),
{
    let ghost lv = vecs_view(lines@);
    let header = chars_of("[editor_plugins]");
    let mut out: Vec<Vec<char>> = Vec::new();
    let mut i: usize = 0;
    while i < lines.len()
        invariant
            i <= lines@.len(),
            lv == vecs_view(lines@),
            header@ == section_header(),
            vecs_view(out@) == with_enabled_lines(lv.take(i as int)),
        decreases lines.len() - i,
    {
        assert(lv.take(i + 1).drop_last() =~= lv.take(i as int));
        assert(lv.take(i + 1).last() == lines@[i as int]@);
        let ghost prev = out@;
        out.push(copy_chars(lines[i].as_slice()));
        let t = trim_chars(lines[i].as_slice());
        if eq_chars(t.as_slice(), header.as_slice()) {
            out.push(chars_of("enabled=PackedStringArray(\"res://addons/gdapi/plugin.cfg\")"));
            assert(vecs_view(out@) =~= vecs_view(prev).push(lines@[i as int]@).push(enabled_line()));
        } else {
            assert(vecs_view(out@) =~= vecs_view(prev).push(lines@[i as int]@));
        }
        i = i + 1;
    }
    assert(lv.take(lines.len() as int) =~= lv);
    out
}

/// The lines with line `k` replaced.
fn replace_line(lines: &Vec<Vec<char>>, k: usize, new_line: Vec<char>) -> (r: Vec<Vec<char>>)
    requires
        k < lines@.len(),
    ensures
        vecs_view(r@) == vecs_view(lines@).update(k as int, new_line@),
{
    let ghost target = vecs_view(lines@).update(k as int, new_line@);
    let mut out: Vec<Vec<char>> = Vec::new();
    let mut i: usize = 0;
    while i < k
        invariant
            i <= k < lines@.len(),
            target == vecs_view(lines@).update(k as int, new_line@),
            vecs_view(out@) == target.take(i as int),
        decreases k - i,
    {
        let ghost prev = out@;
        out.push(copy_chars(lines[i].as_slice()));
        assert(vecs_view(out@) =~= vecs_view(prev).push(lines@[i as int]@));
        assert(vecs_view(out@) =~= target.take(i + 1));
        i = i + 1;
    }
    let ghost prev = out@;
    out.push(new_line);
    assert(vecs_view(out@) =~= vecs_view(prev).push(new_line@));
    assert(vecs_view(out@) =~= target.take(k + 1));
    assert(k < lines.len());
    let mut i: usize = k + 1;
    while i < lines.len()
        invariant
            k < i <= lines@.len(),
            target == vecs_view(lines@).update(k as int, new_line@),
            vecs_view(out@) == target.take(i as int),
        decreases lines.len() - i,
    {
        let ghost prev = out@;
        out.push(copy_chars(lines[i].as_slice()));
        assert(vecs_view(out@) =~= vecs_view(prev).push(lines@[i as int]@));
        assert(vecs_view(out@) =~= target.take(i + 1));
        i = i + 1;
    }
    assert(target.take(lines.len() as int) =~= target);
    out
}

/// The new `project.godot` text with the gdapi plugin enabled, or `None`
/// when the file already mentions the plugin.
pub fn enable_plugin_content(content: &str) -> (r: Option<String>)
    ensures
        match r {
            Some(s) => enabled_content(content@) == Some(s@),
            None => enabled_content(content@) is None,
        },
{
    let cs = chars_of(content);
    let entry = chars_of("res://addons/gdapi/plugin.cfg");
    if contains_chars(cs.as_slice(), entry.as_slice()) {
        return None;
    }
    let crlf = chars_of("\r\n");
    let le = if contains_chars(cs.as_slice(), crlf.as_slice()) { crlf } else { chars_of("\n") };
    assert(le@ == line_ending(content@));
    let lines = split_lines(cs.as_slice());
    let ghost lv = vecs_view(lines@);
    let header = chars_of("[editor_plugins]");
    let mut found = false;
    let mut j: usize = 0;
    while j < lines.len() && !found
        invariant
            j <= lines@.len(),
            lv == vecs_view(lines@),
            header@ == section_header(),
            found ==> j < lines@.len() && trim(lv[j as int]) == section_header(),
            !found ==> forall|q: int| 0 <= q < j ==> trim(#[trigger] lv[q]) != section_header(),
        decreases lines.len() - j, if found { 0int } else { 1int },
    {
        let t = trim_chars(lines[j].as_slice());
        assert(lv[j as int] == lines@[j as int]@);
        if eq_chars(t.as_slice(), header.as_slice()) {
            found = true;
        } else {
            j = j + 1;
        }
    }
    if found {
        assert(has_section(lv));
        match find_enabled(&lines) {
            Some(k) => {
                let patched = patch_line(&lines[k]);
                assert(lv[k as int] == lines@[k as int]@);
                let new_lines = replace_line(&lines, k, patched);
                let joined = join_lines(&new_lines, le.as_slice());
                Some(string_of(joined.as_slice()))
            },
            None => {
                let new_lines = insert_enabled_lines(&lines);
                let joined = join_lines(&new_lines, le.as_slice());
                Some(string_of(joined.as_slice()))
            },
        }
    } else {
        assert(!has_section(lv));
        let mut out = trim_end_string(content);
        push_chars(&mut out, le.as_slice());
        push_chars(&mut out, le.as_slice());
        push_str(&mut out, "[editor_plugins]");
        push_chars(&mut out, le.as_slice());
        push_chars(&mut out, le.as_slice());
        push_str(&mut out, "enabled=PackedStringArray(\"res://addons/gdapi/plugin.cfg\")");
        push_chars(&mut out, le.as_slice());
        Some(out)
    }
}

proof fn lemma_contains_left(a: Seq<char>, b: Seq<char>, t: Seq<char>)
    requires
        contains_sub(a, t),
    ensures
        contains_sub(a + b, t),
{
    let i = choose|i: int| crate::text::contains_at(a, t, i);
    assert((a + b).subrange(i, i + t.len()) =~= a.subrange(i, i + t.len()));
    assert(crate::text::contains_at(a + b, t, i));
}

proof fn lemma_contains_right(a: Seq<char>, b: Seq<char>, t: Seq<char>)
    requires
        contains_sub(b, t),
    ensures
        contains_sub(a + b, t),
{
    let i = choose|i: int| crate::text::contains_at(b, t, i);
    assert((a + b).subrange(a.len() + i, a.len() + i + t.len()) =~= b.subrange(i, i + t.len()));
    assert(crate::text::contains_at(a + b, t, a.len() + i));
}

proof fn lemma_enabled_line_mentions_plugin()
    ensures
        contains_sub(enabled_line(), plugin_entry()),
{
    reveal_strlit("enabled=PackedStringArray(\"res://addons/gdapi/plugin.cfg\")");
    reveal_strlit("res://addons/gdapi/plugin.cfg");
    assert(enabled_line().subrange(27, 27 + plugin_entry().len() as int) =~= plugin_entry());
    assert(crate::text::contains_at(enabled_line(), plugin_entry(), 27));
}

proof fn lemma_patched_mentions_plugin(line: Seq<char>)
    ensures
        contains_sub(patched_line(line), plugin_entry()),
{
    lemma_enabled_line_mentions_plugin();
    if !(trim(line) == "enabled=PackedStringArray()"@) && line.len() > 0 && line.last() == ')' {
        let t = plugin_entry();
        assert(crate::text::contains_at(t, t, 0)) by {
            assert(t.subrange(0, t.len() as int) =~= t);
        }
        lemma_contains_right(line.drop_last() + ",\""@, t, t);
        lemma_contains_left(line.drop_last() + ",\""@ + t, "\""@, t);
        lemma_contains_left(line.drop_last() + ",\""@ + t + "\""@, ")"@, t);
    }
}

proof fn lemma_join_contains_part(parts: Seq<Seq<char>>, sep: Seq<char>, k: int, t: Seq<char>)
    requires
        0 <= k < parts.len(),
        contains_sub(parts[k], t),
    ensures
        contains_sub(join_sep(parts, sep), t),
    decreases parts.len(),
{
    if parts.len() > 1 {
        let d = parts.drop_last();
        if k < parts.len() - 1 {
            assert(d[k] == parts[k]);
            lemma_join_contains_part(d, sep, k, t);
            lemma_contains_left(join_sep(d, sep), sep, t);
            lemma_contains_left(join_sep(d, sep) + sep, parts.last(), t);
        } else {
            lemma_contains_right(join_sep(d, sep) + sep, parts.last(), t);
        }
    }
}

proof fn lemma_with_enabled_lines_has_entry(lines: Seq<Seq<char>>)
    requires
        has_section(lines),
    ensures
        with_enabled_lines(lines).contains(enabled_line()),
    decreases lines.len(),
{
    let r = with_enabled_lines(lines.drop_last());
    if trim(lines.last()) == section_header() {
        let w = r.push(lines.last()).push(enabled_line());
        assert(w[w.len() - 1] == enabled_line());
    } else {
        let k = choose|k: int| 0 <= k < lines.len() && trim(#[trigger] lines[k]) == section_header();
        assert(k < lines.len() - 1);
        assert(lines.drop_last()[k] == lines[k]);
        assert(has_section(lines.drop_last()));
        lemma_with_enabled_lines_has_entry(lines.drop_last());
        let j = choose|j: int| 0 <= j < r.len() && r[j] == enabled_line();
        assert(r.push(lines.last())[j] == enabled_line());
    }
}

/// Enabling the plugin twice changes nothing the second time: the text it
/// writes the first time already mentions the plugin.
pub proof fn law_enable_idempotent(content: Seq<char>)
    requires
        enabled_content(content) is Some,
    ensures
        contains_sub(enabled_content(content)->0, plugin_entry()),
        enabled_content(enabled_content(content)->0) is None,
{
    let le = line_ending(content);
    let lines = text_lines(content);
    lemma_enabled_line_mentions_plugin();
    if has_section(lines) {
        match first_enabled(lines, 0, false) {
            Some(k) => {
                lemma_first_enabled_bounds(lines, 0, false);
                let u = lines.update(k, patched_line(lines[k]));
                lemma_patched_mentions_plugin(lines[k]);
                lemma_join_contains_part(u, le, k, plugin_entry());
            },
            None => {
                lemma_with_enabled_lines_has_entry(lines);
                let w = with_enabled_lines(lines);
                let j = choose|j: int| 0 <= j < w.len() && w[j] == enabled_line();
                lemma_join_contains_part(w, le, j, plugin_entry());
            },
        }
    } else {
        let a = trim_end(content) + le + le + section_header() + le + le;
        lemma_contains_right(a, enabled_line(), plugin_entry());
        lemma_contains_left(a + enabled_line(), le, plugin_entry());
    }
}

proof fn lemma_first_enabled_bounds(lines: Seq<Seq<char>>, i: int, in_section: bool)
    ensures
        first_enabled(lines, i, in_section) matches Some(k) ==> 0 <= k < lines.len(),
    decreases lines.len() - i,
{
    if 0 <= i < lines.len() {
        let t = trim(lines[i]);
        if t == section_header() {
            lemma_first_enabled_bounds(lines, i + 1, true);
        } else {
            let inside = in_section && !(t.len() > 0 && t[0] == '[');
            lemma_first_enabled_bounds(lines, i + 1, inside);
        }
    }
}

/// The text with every leading and trailing `"` removed (`trim_matches('"')`).
pub open spec fn trim_quotes(s: Seq<char>) -> Seq<char>
    decreases s.len(),
{
    if s.len() > 0 && s[0] == '"' {
        trim_quotes(s.drop_first())
    } else if s.len() > 0 && s.last() == '"' {
        trim_quotes(s.drop_last())
    } else {
        s
    }
}

/// The version the first `version=` line of a `plugin.cfg` gives.
pub open spec fn version_in(lines: Seq<Seq<char>>) -> Option<Seq<char>>
    decreases lines.len(),
{
    if lines.len() == 0 {
        None
    } else if starts_with(lines[0], "version="@) {
        Some(trim_quotes(trim(lines[0].skip(8))))
    } else {
        version_in(lines.drop_first())
    }
}

fn trim_quote_chars(s: &[char]) -> (r: Vec<char>)
    ensures
        r@ == trim_quotes(s@),
{
    let mut a: usize = 0;
    let mut b: usize = s.len();
    assert(s@.subrange(0, s@.len() as int) =~= s@);
    while a < b && (s[a] == '"' || s[b - 1] == '"')
        invariant
            a <= b <= s@.len(),
            trim_quotes(s@) == trim_quotes(s@.subrange(a as int, b as int)),
        decreases b - a,
    {
        if s[a] == '"' {
            assert(s@.subrange(a as int, b as int).drop_first() =~= s@.subrange(a + 1, b as int));
            a = a + 1;
        } else {
            assert(s@.subrange(a as int, b as int).drop_last() =~= s@.subrange(a as int, b - 1));
            b = b - 1;
        }
    }
    let mut r: Vec<char> = Vec::new();
    let mut k = a;
    while k < b
        invariant
            a <= k <= b <= s@.len(),
            r@ == s@.subrange(a as int, k as int),
        decreases b - k,
    {
        r.push(s[k]);
        assert(r@ =~= s@.subrange(a as int, k + 1));
        k = k + 1;
    }
    r
}

/// The version an installed `plugin.cfg` declares, if any.
pub fn installed_version(content: &str) -> (r: Option<String>)
    ensures
        match r {
            Some(v) => version_in(text_lines(content@)) == Some(v@),
            None => version_in(text_lines(content@)) is None,
        },
{
    let cs = chars_of(content);
    let lines = split_lines(cs.as_slice());
    let ghost lv = vecs_view(lines@);
    let prefix = chars_of("version=");
    proof { reveal_strlit("version="); }
    let mut i: usize = 0;
    assert(lv.skip(0) =~= lv);
    while i < lines.len()
        invariant
            i <= lines@.len(),
            lv == vecs_view(lines@),
            lv == text_lines(content@),
            prefix@ == "version="@,
            version_in(lv) == version_in(lv.skip(i as int)),
        decreases lines.len() - i,
    {
        assert(lv.skip(i as int)[0] == lines@[i as int]@);
        if starts_with_chars(lines[i].as_slice(), prefix.as_slice()) {
            let line = &lines[i];
            proof { reveal_strlit("version="); }
            assert(line@.subrange(8, 8) =~= Seq::<char>::empty());
            let mut rest: Vec<char> = Vec::new();
            let mut k: usize = 8;
            while k < line.len()
                invariant
                    8 <= k <= line@.len(),
                    rest@ == line@.subrange(8, k as int),
                decreases line.len() - k,
            {
                rest.push(line[k]);
                assert(rest@ =~= line@.subrange(8, k + 1));
                k = k + 1;
            }
            assert(rest@ =~= line@.skip(8));
            let t = trim_chars(rest.as_slice());
            let v = trim_quote_chars(t.as_slice());
            return Some(string_of(v.as_slice()));
        }
        assert(lv.skip(i as int).drop_first() =~= lv.skip(i + 1));
        i = i + 1;
    }
    None
}

/// The `plugin.cfg` written for a version of the plugin.
pub open spec fn plugin_cfg_text(version: Seq<char>) -> Seq<char> {
    "[plugin]\n\nname=\"gdapi\"\ndescription=\"HTTP API for gdcli to control this Godot editor instance\"\nauthor=\"gdcli\"\nversion=\""@
        + version + "\"\nscript=\"plugin.gd\"\n"@
}

pub fn plugin_cfg(version: &str) -> (r: String)
    ensures
        r@ == plugin_cfg_text(version@),
{
    let mut s = String::from_str(
        "[plugin]\n\nname=\"gdapi\"\ndescription=\"HTTP API for gdcli to control this Godot editor instance\"\nauthor=\"gdcli\"\nversion=\"",
    );
    push_str(&mut s, version);
    push_str(&mut s, "\"\nscript=\"plugin.gd\"\n");
    s
}

/// The refusal when the plugin is already installed and `--force` is not
/// given; `version` is what its `plugin.cfg` declares, `target` where it is.
pub open spec fn already_installed_text(version: Option<Seq<char>>, target: Seq<char>) -> Seq<char> {
    match version {
        Some(v) => "gdapi "@ + v + " is already installed at "@ + target + ". Use --force to overwrite."@,
        None => "gdapi is already installed at "@ + target + ". Use --force to overwrite."@,
    }
}

pub fn already_installed_message(version: Option<&str>, target: &str) -> (r: String)
    ensures
        r@ == already_installed_text(
            match version { Some(v) => Some(v@), None => None },
            target@,
        ),
{
    let mut s = match version {
        Some(v) => {
            let mut s = String::from_str("gdapi ");
            push_str(&mut s, v);
            push_str(&mut s, " is already installed at ");
            s
        },
        None => String::from_str("gdapi is already installed at "),
    };
    push_str(&mut s, target);
    push_str(&mut s, ". Use --force to overwrite.");
    s
}

/// `t` occurs in `s` at `p` and nowhere else.
pub open spec fn occurs_once_at(s: Seq<char>, t: Seq<char>, p: int) -> bool {
    forall|i: int| #[trigger] crate::text::contains_at(s, t, i) <==> i == p
}

/// No character of `t` is `c`.
pub open spec fn avoids(t: Seq<char>, c: char) -> bool {
    forall|k: int| 0 <= k < t.len() ==> #[trigger] t[k] != c
}

/// A piece of a text that does not hold `t` does not hold it either.
proof fn lemma_free_subrange(s: Seq<char>, a: int, b: int, t: Seq<char>)
    requires
        !contains_sub(s, t),
        0 <= a <= b <= s.len(),
    ensures
        !contains_sub(s.subrange(a, b), t),
{
    if contains_sub(s.subrange(a, b), t) {
        let i = choose|i: int| crate::text::contains_at(s.subrange(a, b), t, i);
        assert(s.subrange(a + i, a + i + t.len()) =~= s.subrange(a, b).subrange(i, i + t.len()));
        assert(crate::text::contains_at(s, t, a + i));
    }
}

/// The pieces `split` cuts a text into are ranges of it; the last one runs
/// to the end.
proof fn lemma_split_pieces(s: Seq<char>, c: char)
    ensures
        forall|j: int| 0 <= j < crate::text::split_on(s, c).len() ==> exists|a: int, b: int|
            0 <= a <= b <= s.len() && #[trigger] crate::text::split_on(s, c)[j] == s.subrange(a, b),
        exists|a: int| 0 <= a <= s.len()
            && crate::text::split_on(s, c)[crate::text::split_on(s, c).len() - 1] == s.subrange(a, s.len() as int),
    decreases s.len(),
{
    crate::text::lemma_split_nonempty(s, c);
    if s.len() == 0 {
        assert(crate::text::split_on(s, c)[0] =~= s.subrange(0, 0));
    } else {
        let d = s.drop_last();
        lemma_split_pieces(d, c);
        crate::text::lemma_split_nonempty(d, c);
        let prev = crate::text::split_on(d, c);
        let cur = crate::text::split_on(s, c);
        assert forall|j: int| 0 <= j < prev.len() - 1 implies exists|a: int, b: int|
            0 <= a <= b <= s.len() && #[trigger] cur[j] == s.subrange(a, b) by {
            let (a, b) = choose|a: int, b: int| 0 <= a <= b <= d.len() && prev[j] == d.subrange(a, b);
            assert(d.subrange(a, b) =~= s.subrange(a, b));
        }
        let a0 = choose|a: int| 0 <= a <= d.len() && prev[prev.len() - 1] == d.subrange(a, d.len() as int);
        if s.last() == c {
            assert(d.subrange(a0, d.len() as int) =~= s.subrange(a0, d.len() as int));
            assert(cur[prev.len() - 1] == s.subrange(a0, d.len() as int));
            assert(cur[cur.len() - 1] =~= s.subrange(s.len() as int, s.len() as int));
        } else {
            assert(cur[cur.len() - 1] =~= s.subrange(a0, s.len() as int));
        }
    }
}

/// The lines of a text that does not hold `t` do not hold it.
proof fn lemma_lines_free(s: Seq<char>, t: Seq<char>)
    requires
        !contains_sub(s, t),
    ensures
        forall|j: int| 0 <= j < text_lines(s).len() ==> !contains_sub(#[trigger] text_lines(s)[j], t),
{
    lemma_split_pieces(s, '\n');
    crate::text::lemma_split_nonempty(s, '\n');
    let p = crate::text::split_on(s, '\n');
    assert forall|j: int| 0 <= j < p.len() implies !contains_sub(#[trigger] p[j], t) by {
        let (a, b) = choose|a: int, b: int| 0 <= a <= b <= s.len() && p[j] == s.subrange(a, b);
        lemma_free_subrange(s, a, b, t);
    }
    assert forall|j: int| 0 <= j < text_lines(s).len() implies !contains_sub(#[trigger] text_lines(s)[j], t) by {
        if j < p.len() - 1 {
            let l = p[j];
            assert(text_lines(s)[j] == crate::text::strip_cr(l));
            if l.len() > 0 && l.last() == '\r' {
                assert(l.drop_last() =~= l.subrange(0, l.len() - 1));
                lemma_free_subrange(l, 0, l.len() - 1, t);
            }
        } else {
            assert(text_lines(s)[j] == p[p.len() - 1]);
        }
    }
}

/// Where a text `t` that has none of the separator's characters occurs in
/// `x + sep + y`: where it occurs in `x`, or in `y` shifted past `x + sep`.
proof fn lemma_occurs_around(x: Seq<char>, sep: Seq<char>, y: Seq<char>, t: Seq<char>)
    requires
        t.len() > 0,
        sep.len() > 0,
        forall|q: int| 0 <= q < sep.len() ==> avoids(t, #[trigger] sep[q]),
    ensures
        forall|i: int| #[trigger] crate::text::contains_at(x + sep + y, t, i) <==>
            (crate::text::contains_at(x, t, i)
                || crate::text::contains_at(y, t, i - x.len() - sep.len())),
{
    let s = x + sep + y;
    let n = x.len() + sep.len();
    assert forall|i: int| #[trigger] crate::text::contains_at(s, t, i) <==>
        (crate::text::contains_at(x, t, i) || crate::text::contains_at(y, t, i - n)) by {
        if crate::text::contains_at(s, t, i) {
            if i + t.len() <= x.len() {
                assert(x.subrange(i, i + t.len()) =~= s.subrange(i, i + t.len()));
            } else if i >= n {
                assert(y.subrange(i - n, i - n + t.len()) =~= s.subrange(i, i + t.len()));
            } else {
                let q = if i > x.len() { i } else { x.len() as int };
                assert(s.subrange(i, i + t.len())[q - i] == s[q]);
                assert(s[q] == sep[q - x.len()]);
                assert(avoids(t, sep[q - x.len()]));
                assert(t[q - i] != sep[q - x.len()]);
            }
        }
        if crate::text::contains_at(x, t, i) {
            assert(x.subrange(i, i + t.len()) =~= s.subrange(i, i + t.len()));
        }
        if crate::text::contains_at(y, t, i - n) {
            assert(y.subrange(i - n, i - n + t.len()) =~= s.subrange(i, i + t.len()));
        }
    }
}

/// Joined parts that hold no `t` hold no `t`, when `t` shares no character
/// with the separator.
proof fn lemma_join_free(parts: Seq<Seq<char>>, sep: Seq<char>, t: Seq<char>)
    requires
        t.len() > 0,
        sep.len() > 0,
        forall|q: int| 0 <= q < sep.len() ==> avoids(t, #[trigger] sep[q]),
        forall|j: int| 0 <= j < parts.len() ==> !contains_sub(#[trigger] parts[j], t),
    ensures
        !contains_sub(join_sep(parts, sep), t),
    decreases parts.len(),
{
    if parts.len() == 1 {
        assert(!contains_sub(parts[0], t));
    } else if parts.len() > 1 {
        let d = parts.drop_last();
        assert forall|j: int| 0 <= j < d.len() implies !contains_sub(#[trigger] d[j], t) by {
            assert(d[j] == parts[j]);
        }
        lemma_join_free(d, sep, t);
        lemma_occurs_around(join_sep(d, sep), sep, parts.last(), t);
        assert(!contains_sub(parts[parts.len() - 1], t));
        if contains_sub(join_sep(parts, sep), t) {
            let i = choose|i: int| crate::text::contains_at(join_sep(parts, sep), t, i);
            assert(!crate::text::contains_at(join_sep(d, sep), t, i));
            assert(!crate::text::contains_at(parts.last(), t, i - join_sep(d, sep).len() - sep.len()));
        }
    }
}

/// Joined parts hold `t` exactly once when one part holds it exactly once
/// and the others not at all.
proof fn lemma_join_once(parts: Seq<Seq<char>>, sep: Seq<char>, t: Seq<char>, k: int, p: int)
    requires
        t.len() > 0,
        sep.len() > 0,
        forall|q: int| 0 <= q < sep.len() ==> avoids(t, #[trigger] sep[q]),
        0 <= k < parts.len(),
        occurs_once_at(parts[k], t, p),
        forall|j: int| 0 <= j < parts.len() && j != k ==> !contains_sub(#[trigger] parts[j], t),
    ensures
        exists|q: int| occurs_once_at(join_sep(parts, sep), t, q),
    decreases parts.len(),
{
    if parts.len() == 1 {
        assert(occurs_once_at(join_sep(parts, sep), t, p));
    } else {
        let d = parts.drop_last();
        let x = join_sep(d, sep);
        let y = parts.last();
        lemma_occurs_around(x, sep, y, t);
        if k == parts.len() - 1 {
            assert forall|j: int| 0 <= j < d.len() implies !contains_sub(#[trigger] d[j], t) by {
                assert(d[j] == parts[j]);
            }
            lemma_join_free(d, sep, t);
            let q = x.len() + sep.len() + p;
            assert forall|i: int| #[trigger] crate::text::contains_at(join_sep(parts, sep), t, i) <==> i == q by {
                if crate::text::contains_at(x, t, i) {
                    assert(contains_sub(x, t));
                }
            }
            assert(occurs_once_at(join_sep(parts, sep), t, q));
        } else {
            assert forall|j: int| 0 <= j < d.len() && j != k implies !contains_sub(#[trigger] d[j], t) by {
                assert(d[j] == parts[j]);
            }
            assert(d[k] == parts[k]);
            lemma_join_once(d, sep, t, k, p);
            let q = choose|q: int| occurs_once_at(x, t, q);
            assert(!contains_sub(y, t));
            assert forall|i: int| #[trigger] crate::text::contains_at(join_sep(parts, sep), t, i) <==> i == q by {
                if crate::text::contains_at(y, t, i - x.len() - sep.len()) {
                    assert(contains_sub(y, t));
                }
                assert(crate::text::contains_at(x, t, i) <==> i == q);
            }
            assert(occurs_once_at(join_sep(parts, sep), t, q));
        }
    }
}

/// The plugin entry is 29 characters of letters, `:`, `/` and `.`.
proof fn lemma_entry_chars()
    ensures
        plugin_entry().len() == 29,
        avoids(plugin_entry(), '\n'),
        avoids(plugin_entry(), '\r'),
        avoids(plugin_entry(), '"'),
        avoids(plugin_entry(), ','),
{
    reveal_strlit("res://addons/gdapi/plugin.cfg");
    let t = plugin_entry();
    assert forall|k: int| 0 <= k < t.len() implies
        t[k] != '\n' && t[k] != '\r' && t[k] != '"' && t[k] != ',' by {
        if k == 0 {} else if k == 1 {} else if k == 2 {} else if k == 3 {} else if k == 4 {} else if k == 5 {} else if k == 6 {} else if k == 7 {} else if k == 8 {} else if k == 9 {} else if k == 10 {} else if k == 11 {} else if k == 12 {} else if k == 13 {} else if k == 14 {} else if k == 15 {} else if k == 16 {} else if k == 17 {} else if k == 18 {} else if k == 19 {} else if k == 20 {} else if k == 21 {} else if k == 22 {} else if k == 23 {} else if k == 24 {} else if k == 25 {} else if k == 26 {} else if k == 27 {} else if k == 28 {}
    }
}

/// The plugin's own `enabled=` line names the plugin once.
proof fn lemma_enabled_line_once()
    ensures
        occurs_once_at(enabled_line(), plugin_entry(), 27),
{
    lemma_entry_chars();
    lemma_enabled_line_mentions_plugin();
    reveal_strlit("enabled=PackedStringArray(\"res://addons/gdapi/plugin.cfg\")");
    reveal_strlit("res://addons/gdapi/plugin.cfg");
    let e = enabled_line();
    let t = plugin_entry();
    assert(e.len() == 58);
    assert(e[26] == '"');
    assert(e[56] == '"');
    assert(e.subrange(27, 56) =~= t);
    assert forall|i: int| #[trigger] crate::text::contains_at(e, t, i) <==> i == 27 by {
        if crate::text::contains_at(e, t, i) && i != 27 {
            if i <= 26 {
                assert(e.subrange(i, i + 29)[26 - i] == e[26]);
                assert(t[26 - i] == e[26]);
            } else {
                assert(e.subrange(i, i + 29)[56 - i] == e[56]);
                assert(t[56 - i] == e[56]);
            }
        }
    }
}

/// A patched `enabled=` line names the plugin once when the line did not.
proof fn lemma_patched_once(line: Seq<char>)
    requires
        !contains_sub(line, plugin_entry()),
    ensures
        exists|p: int| occurs_once_at(patched_line(line), plugin_entry(), p),
{
    lemma_entry_chars();
    lemma_enabled_line_once();
    if !(trim(line) == "enabled=PackedStringArray()"@) && line.len() > 0 && line.last() == ')' {
        reveal_strlit(",\"");
        reveal_strlit("\"");
        reveal_strlit(")");
        let t = plugin_entry();
        let ld = line.drop_last();
        let n = ld.len() as int;
        let pl = patched_line(line);
        assert(ld =~= line.subrange(0, n));
        lemma_free_subrange(line, 0, n, t);
        assert(pl == ld + ",\""@ + t + "\""@ + ")"@);
        assert(pl.len() == n + 33);
        assert(pl[n] == ',');
        assert(pl[n + 1] == '"');
        assert(pl[n + 31] == '"');
        assert(pl.subrange(n + 2, n + 31) =~= t);
        assert forall|i: int| #[trigger] crate::text::contains_at(pl, t, i) <==> i == n + 2 by {
            if crate::text::contains_at(pl, t, i) && i != n + 2 {
                if i + 29 <= n {
                    assert(ld.subrange(i, i + 29) =~= pl.subrange(i, i + 29));
                    assert(crate::text::contains_at(ld, t, i));
                } else if i <= n {
                    assert(pl.subrange(i, i + 29)[n - i] == pl[n]);
                } else if i == n + 1 {
                    assert(pl.subrange(i, i + 29)[0] == pl[n + 1]);
                } else {
                    assert(pl.subrange(i, i + 29)[n + 31 - i] == pl[n + 31]);
                }
            }
        }
        assert(occurs_once_at(pl, t, n + 2));
    } else {
        assert(occurs_once_at(patched_line(line), plugin_entry(), 27));
    }
}

proof fn lemma_trim_end_prefix(s: Seq<char>)
    ensures
        exists|n: int| 0 <= n <= s.len() && trim_end(s) == s.subrange(0, n),
    decreases s.len(),
{
    if s.len() > 0 && crate::text::is_whitespace(s.last()) {
        lemma_trim_end_prefix(s.drop_last());
        let n = choose|n: int| 0 <= n <= s.drop_last().len() && trim_end(s.drop_last()) == s.drop_last().subrange(0, n);
        assert(s.drop_last().subrange(0, n) =~= s.subrange(0, n));
    } else {
        assert(s.subrange(0, s.len() as int) =~= s);
    }
}

proof fn lemma_with_enabled_no_section(lines: Seq<Seq<char>>)
    requires
        !has_section(lines),
    ensures
        with_enabled_lines(lines) == lines,
    decreases lines.len(),
{
    if lines.len() > 0 {
        let d = lines.drop_last();
        assert(!has_section(d)) by {
            if has_section(d) {
                let k = choose|k: int| 0 <= k < d.len() && trim(#[trigger] d[k]) == section_header();
                assert(lines[k] == d[k]);
            }
        }
        lemma_with_enabled_no_section(d);
        assert(trim(lines[lines.len() - 1]) != section_header());
        assert(d.push(lines.last()) =~= lines);
    }
}

proof fn lemma_with_enabled_len(lines: Seq<Seq<char>>)
    ensures
        with_enabled_lines(lines).len() >= lines.len(),
    decreases lines.len(),
{
    if lines.len() > 0 {
        lemma_with_enabled_len(lines.drop_last());
    }
}

/// With one section header among lines that do not name the plugin, the
/// lines with the plugin's `enabled=` line added name it once.
proof fn lemma_with_enabled_once(lines: Seq<Seq<char>>, le: Seq<char>)
    requires
        le.len() > 0,
        forall|q: int| 0 <= q < le.len() ==> avoids(plugin_entry(), #[trigger] le[q]),
        has_section(lines),
        forall|a: int, b: int| 0 <= a < lines.len() && 0 <= b < lines.len()
            && trim(#[trigger] lines[a]) == section_header() && trim(#[trigger] lines[b]) == section_header() ==> a == b,
        forall|j: int| 0 <= j < lines.len() ==> !contains_sub(#[trigger] lines[j], plugin_entry()),
    ensures
        exists|q: int| occurs_once_at(join_sep(with_enabled_lines(lines), le), plugin_entry(), q),
    decreases lines.len(),
{
    let t = plugin_entry();
    lemma_entry_chars();
    lemma_enabled_line_once();
    let d = lines.drop_last();
    let last = lines.last();
    let r = with_enabled_lines(d);
    if trim(last) == section_header() {
        assert(!has_section(d)) by {
            if has_section(d) {
                let k = choose|k: int| 0 <= k < d.len() && trim(#[trigger] d[k]) == section_header();
                assert(lines[k] == d[k]);
                assert(trim(lines[k]) == section_header() && trim(lines[lines.len() - 1]) == section_header());
            }
        }
        lemma_with_enabled_no_section(d);
        let w = r.push(last).push(enabled_line());
        assert(d.push(last) =~= lines);
        assert(w.drop_last() == lines);
        lemma_join_free(lines, le, t);
        lemma_occurs_around(join_sep(lines, le), le, enabled_line(), t);
        let q: int = (join_sep(lines, le).len() + le.len() + 27) as int;
        assert forall|i: int| #[trigger] crate::text::contains_at(join_sep(w, le), t, i) <==> i == q by {
            if crate::text::contains_at(join_sep(lines, le), t, i) {
                assert(contains_sub(join_sep(lines, le), t));
            }
        }
        assert(occurs_once_at(join_sep(w, le), t, q));
        assert(with_enabled_lines(lines) == w);
    } else {
        let k = choose|k: int| 0 <= k < lines.len() && trim(#[trigger] lines[k]) == section_header();
        assert(k < lines.len() - 1);
        assert(d[k] == lines[k]);
        assert(has_section(d));
        assert forall|a: int, b: int| 0 <= a < d.len() && 0 <= b < d.len()
            && trim(#[trigger] d[a]) == section_header() && trim(#[trigger] d[b]) == section_header() implies a == b by {
            assert(d[a] == lines[a] && d[b] == lines[b]);
        }
        assert forall|j: int| 0 <= j < d.len() implies !contains_sub(#[trigger] d[j], t) by {
            assert(d[j] == lines[j]);
        }
        lemma_with_enabled_once(d, le);
        lemma_with_enabled_len(d);
        let x = join_sep(r, le);
        let q = choose|q: int| occurs_once_at(x, t, q);
        let w = r.push(last);
        assert(w.drop_last() =~= r);
        assert(w.len() > 1);
        assert(join_sep(w, le) == x + le + last);
        lemma_occurs_around(x, le, last, t);
        assert(!contains_sub(lines[lines.len() - 1], t));
        assert forall|i: int| #[trigger] crate::text::contains_at(join_sep(w, le), t, i) <==> i == q by {
            if crate::text::contains_at(last, t, i - x.len() - le.len()) {
                assert(contains_sub(last, t));
            }
            assert(crate::text::contains_at(x, t, i) <==> i == q);
        }
        assert(occurs_once_at(join_sep(w, le), t, q));
        assert(with_enabled_lines(lines) == w);
    }
}

proof fn lemma_around_free(x: Seq<char>, sep: Seq<char>, y: Seq<char>, t: Seq<char>)
    requires
        t.len() > 0,
        sep.len() > 0,
        forall|q: int| 0 <= q < sep.len() ==> avoids(t, #[trigger] sep[q]),
        !contains_sub(x, t),
        !contains_sub(y, t),
    ensures
        !contains_sub(x + sep + y, t),
{
    lemma_occurs_around(x, sep, y, t);
    if contains_sub(x + sep + y, t) {
        let i = choose|i: int| crate::text::contains_at(x + sep + y, t, i);
        assert(!crate::text::contains_at(x, t, i));
        assert(!crate::text::contains_at(y, t, i - x.len() - sep.len()));
    }
}

proof fn lemma_around_once_right(x: Seq<char>, sep: Seq<char>, y: Seq<char>, t: Seq<char>, p: int)
    requires
        t.len() > 0,
        sep.len() > 0,
        forall|q: int| 0 <= q < sep.len() ==> avoids(t, #[trigger] sep[q]),
        !contains_sub(x, t),
        occurs_once_at(y, t, p),
    ensures
        occurs_once_at(x + sep + y, t, x.len() + sep.len() + p),
{
    lemma_occurs_around(x, sep, y, t);
    assert forall|i: int| #[trigger] crate::text::contains_at(x + sep + y, t, i)
        <==> i == x.len() + sep.len() + p by {
        if crate::text::contains_at(x, t, i) {
            assert(contains_sub(x, t));
        }
    }
}

proof fn lemma_around_once_left(x: Seq<char>, sep: Seq<char>, y: Seq<char>, t: Seq<char>, p: int)
    requires
        t.len() > 0,
        sep.len() > 0,
        forall|q: int| 0 <= q < sep.len() ==> avoids(t, #[trigger] sep[q]),
        occurs_once_at(x, t, p),
        !contains_sub(y, t),
    ensures
        occurs_once_at(x + sep + y, t, p),
{
    lemma_occurs_around(x, sep, y, t);
    assert forall|i: int| #[trigger] crate::text::contains_at(x + sep + y, t, i) <==> i == p by {
        if crate::text::contains_at(y, t, i - x.len() - sep.len()) {
            assert(contains_sub(y, t));
        }
        assert(crate::text::contains_at(x, t, i) <==> i == p);
    }
}

/// Splitting at `c` a text that ends in `c` followed by a piece free of `c`
/// gives the pieces before it and then that piece.
proof fn lemma_split_after_sep(x: Seq<char>, c: char, y: Seq<char>)
    requires
        avoids(y, c),
    ensures
        crate::text::split_on(x + seq![c] + y, c) == crate::text::split_on(x, c).push(y),
    decreases y.len(),
{
    let s = x + seq![c] + y;
    if y.len() == 0 {
        assert(s.drop_last() =~= x);
        assert(s.last() == c);
        assert(crate::text::split_on(s, c) == crate::text::split_on(x, c).push(Seq::<char>::empty()));
        assert(y =~= Seq::<char>::empty());
    } else {
        let yd = y.drop_last();
        assert(avoids(yd, c)) by {
            assert forall|k: int| 0 <= k < yd.len() implies #[trigger] yd[k] != c by {
                assert(yd[k] == y[k]);
            }
        }
        lemma_split_after_sep(x, c, yd);
        assert(s.drop_last() =~= x + seq![c] + yd);
        assert(s.last() == y[y.len() - 1]);
        let prev = crate::text::split_on(x, c).push(yd);
        assert(s.last() != c);
        assert(crate::text::split_on(s, c) == prev.update(prev.len() - 1, prev.last().push(s.last())));
        assert(prev.update(prev.len() - 1, prev.last().push(s.last()))
            =~= crate::text::split_on(x, c).push(y)) by {
            assert(yd.push(y.last()) =~= y);
        }
    }
}

/// The plugin entry in double quotes, as it stands in a `PackedStringArray`.
pub open spec fn quoted_entry() -> Seq<char> {
    seq!['"'] + plugin_entry() + seq!['"']
}

/// Adding the plugin to an `enabled=` list closed by `)` that is not the
/// empty list keeps every entry already listed and appends the quoted
/// plugin entry as one more comma-separated entry before the `)`.
pub proof fn law_patch_appends_entry(line: Seq<char>)
    requires
        line.len() > 0,
        line.last() == ')',
        trim(line) != "enabled=PackedStringArray()"@,
    ensures
        patched_line(line).len() > 0,
        patched_line(line).last() == ')',
        patched_line(line).drop_last().take(line.len() - 1) == line.drop_last(),
        crate::text::split_on(patched_line(line).drop_last(), ',')
            == crate::text::split_on(line.drop_last(), ',').push(quoted_entry()),
{
    reveal_strlit(",\"");
    reveal_strlit("\"");
    reveal_strlit(")");
    lemma_entry_chars();
    let ld = line.drop_last();
    let q = quoted_entry();
    let pl = patched_line(line);
    assert(pl == ld + ",\""@ + plugin_entry() + "\""@ + ")"@);
    assert(pl.drop_last() =~= ld + seq![','] + q);
    assert(pl.drop_last().take(ld.len() as int) =~= ld);
    assert(avoids(q, ',')) by {
        assert forall|k: int| 0 <= k < q.len() implies #[trigger] q[k] != ',' by {
            if 0 < k < q.len() - 1 {
                assert(q[k] == plugin_entry()[k - 1]);
            }
        }
    }
    lemma_split_after_sep(ld, ',', q);
}

/// Enabling the plugin in a file whose `[editor_plugins]` section already
/// has an `enabled=` list closed by `)` (and not empty) changes only that
/// line, and the new line lists the old entries followed by the plugin.
pub proof fn law_enable_appends_to_list(content: Seq<char>, k: int)
    requires
        !contains_sub(content, plugin_entry()),
        has_section(text_lines(content)),
        first_enabled(text_lines(content), 0, false) == Some(k),
        text_lines(content)[k].len() > 0,
        text_lines(content)[k].last() == ')',
        trim(text_lines(content)[k]) != "enabled=PackedStringArray()"@,
    ensures
        exists|nl: Seq<char>| {
            &&& enabled_content(content)
                == Some(join_sep(text_lines(content).update(k, nl), line_ending(content)))
            &&& nl.len() > 0
            &&& nl.last() == ')'
            &&& crate::text::split_on(nl.drop_last(), ',')
                == crate::text::split_on(text_lines(content)[k].drop_last(), ',').push(quoted_entry())
        },
{
    let line = text_lines(content)[k];
    law_patch_appends_entry(line);
    let nl = patched_line(line);
    assert(enabled_content(content)
        == Some(join_sep(text_lines(content).update(k, nl), line_ending(content))));
}

/// Enabling the plugin in a `project.godot` with at most one
/// `[editor_plugins]` line: a file that names the plugin is left alone;
/// otherwise the new text names the plugin exactly once, and enabling it
/// again leaves that text alone.
pub proof fn law_enable_entry_once(content: Seq<char>)
    requires
        forall|a: int, b: int| 0 <= a < text_lines(content).len() && 0 <= b < text_lines(content).len()
            && trim(#[trigger] text_lines(content)[a]) == section_header()
            && trim(#[trigger] text_lines(content)[b]) == section_header() ==> a == b,
    ensures
        contains_sub(content, plugin_entry()) ==> enabled_content(content) is None,
        !contains_sub(content, plugin_entry()) ==> {
            &&& enabled_content(content) is Some
            &&& exists|p: int| occurs_once_at(enabled_content(content)->0, plugin_entry(), p)
            &&& enabled_content(enabled_content(content)->0) is None
        },
{
    if !contains_sub(content, plugin_entry()) {
        let t = plugin_entry();
        let le = line_ending(content);
        let lines = text_lines(content);
        lemma_entry_chars();
        reveal_strlit("\r\n");
        reveal_strlit("\n");
        assert(le.len() > 0);
        assert forall|q: int| 0 <= q < le.len() implies avoids(t, #[trigger] le[q]) by {
            assert(le[q] == '\r' || le[q] == '\n');
        }
        lemma_lines_free(content, t);
        law_enable_idempotent(content);
        if has_section(lines) {
            match first_enabled(lines, 0, false) {
                Some(k) => {
                    lemma_first_enabled_bounds(lines, 0, false);
                    lemma_patched_once(lines[k]);
                    let parts = lines.update(k, patched_line(lines[k]));
                    let p = choose|p: int| occurs_once_at(patched_line(lines[k]), t, p);
                    assert forall|j: int| 0 <= j < parts.len() && j != k
                        implies !contains_sub(#[trigger] parts[j], t) by {
                        assert(parts[j] == lines[j]);
                    }
                    lemma_join_once(parts, le, t, k, p);
                },
                None => {
                    lemma_with_enabled_once(lines, le);
                },
            }
        } else {
            reveal_strlit("[editor_plugins]");
            let a = trim_end(content);
            lemma_trim_end_prefix(content);
            let n = choose|n: int| 0 <= n <= content.len() && trim_end(content) == content.subrange(0, n);
            lemma_free_subrange(content, 0, n, t);
            let h = section_header();
            assert(!contains_sub(h, t)) by {
                assert(h.len() == 16);
            }
            let e = enabled_line();
            let empty = Seq::<char>::empty();
            assert(!contains_sub(empty, t));
            lemma_enabled_line_once();
            let s1 = a + le + empty;
            lemma_around_free(a, le, empty, t);
            let s2 = s1 + le + h;
            lemma_around_free(s1, le, h, t);
            let s3 = s2 + le + empty;
            lemma_around_free(s2, le, empty, t);
            let s4 = s3 + le + e;
            lemma_around_once_right(s3, le, e, t, 27);
            let q: int = (s3.len() + le.len() + 27) as int;
            let s5 = s4 + le + empty;
            lemma_around_once_left(s4, le, empty, t, q);
            assert(enabled_content(content)->0 =~= s5);
        }
    }
}

} // verus!
