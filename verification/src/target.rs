//! Targets on the command line: `file:line:col` (1-based, as editors show
//! them) or `file:Class.member` (a symbol path), and the small choices made
//! before a command talks to Godot.

use vstd::prelude::*;
use crate::symbol_path::{parse_spec, SymbolPath};
use crate::text::{
    chars_of, decimal, join_lines, join_sep, parse_unsigned, parse_unsigned_exec, push_chars, push_str,
    split_chars, split_on, starts_with, starts_with_chars, string_of, string_views, vecs_view,
};

verus! {

/// Where a command should act.
pub enum TargetMode {
    /// A position in a file, 0-based as the language server counts.
    Position { file: String, line: u32, col: u32 },
    /// A symbol named by its path.
    SymbolPath { symbol_path: SymbolPath },
}

/// The mathematical form of a target.
pub enum TargetV {
    Position(Seq<char>, u32, u32),
    Symbol(Seq<char>, Seq<Seq<char>>),
}

/// The path without a leading `res://`.
pub open spec fn strip_res(s: Seq<char>) -> Seq<char> {
    if starts_with(s, "res://"@) { s.skip(6) } else { s }
}

/// `file:line:col` read from the last two `:`-separated pieces, when both
/// are `u32` numbers; the file is everything before them.
pub open spec fn position_parts(t: Seq<char>) -> Option<(Seq<char>, nat, nat)> {
    let parts = split_on(t, ':');
    let n = parts.len();
    if n >= 3 {
        match (parse_unsigned(parts[n - 2], u32::MAX as nat), parse_unsigned(parts[n - 1], u32::MAX as nat)) {
            (Some(line), Some(col)) => Some((strip_res(join_sep(parts.take(n - 2), ":"@)), line, col)),
            _ => None,
        }
    } else {
        None
    }
}

pub open spec fn one_based_msg(line: nat, col: nat) -> Seq<char> {
    "Line and column numbers are 1-based and must be >= 1, got "@ + decimal(line) + ":"@ + decimal(col)
}

pub open spec fn invalid_target_msg() -> Seq<char> {
    "Invalid target format. Expected 'file:line:col' or 'file:SymbolPath'"@
}

/// What a target string means.
pub open spec fn target_spec(t: Seq<char>) -> Result<TargetV, Seq<char>> {
    match position_parts(t) {
        Some((file, line, col)) => if line == 0 || col == 0 {
            Err(one_based_msg(line, col))
        } else {
            Ok(TargetV::Position(file, (line - 1) as u32, (col - 1) as u32))
        },
        None => match parse_spec(t) {
            Ok((file, segments)) => Ok(TargetV::Symbol(file, segments)),
            Err(_) => Err(invalid_target_msg()),
        },
    }
}

fn strip_res_chars(s: &[char]) -> (r: String)
    ensures
        r@ == strip_res(s@),
{
    let prefix = chars_of("res://");
    proof { reveal_strlit("res://"); }
    let start: usize = if starts_with_chars(s, prefix.as_slice()) { 6 } else { 0 };
    let mut r = String::new();
    let mut i = start;
    while i < s.len()
        invariant
            start <= i <= s@.len(),
            start <= s@.len(),
            r@ == s@.subrange(start as int, i as int),
        decreases s.len() - i,
    {
        crate::text::push_char(&mut r, s[i]);
        assert(r@ =~= s@.subrange(start as int, i + 1));
        i = i + 1;
    }
    assert(s@.subrange(start as int, s@.len() as int) =~= s@.skip(start as int));
    r
}

/// A file path given on the command line, without a leading `res://`.
pub fn strip_res_prefix(file: &str) -> (r: String)
    ensures
        r@ == strip_res(file@),
{
    let cs = chars_of(file);
    strip_res_chars(cs.as_slice())
}

/// Reads a target: a position when the last two `:`-separated pieces are
/// numbers (converted from 1-based to 0-based), otherwise a symbol path.
pub fn parse_target(target: &str, _project: Option<&str>) -> (r: Result<TargetMode, String>)
    ensures
        match r {
            Ok(TargetMode::Position { file, line, col }) =>
                target_spec(target@) == Ok::<TargetV, Seq<char>>(TargetV::Position(file@, line, col)),
            Ok(TargetMode::SymbolPath { symbol_path }) =>
                target_spec(target@) == Ok::<TargetV, Seq<char>>(
                    TargetV::Symbol(symbol_path.file@, string_views(symbol_path.segments@))),
            Err(e) => target_spec(target@) == Err::<TargetV, Seq<char>>(e@),
        },
{
    let cs = chars_of(target);
    let parts = split_chars(cs.as_slice(), ':');
    let ghost pv = vecs_view(parts@);
    let n = parts.len();
    if n >= 3 {
        assert(pv[n - 2] == parts@[n - 2]@);
        assert(pv[n - 1] == parts@[n - 1]@);
        let line = parse_unsigned_exec(parts[n - 2].as_slice(), 4294967295u64);
        let col = parse_unsigned_exec(parts[n - 1].as_slice(), 4294967295u64);
        match (line, col) {
            (Some(line), Some(col)) => {
                let mut head: Vec<Vec<char>> = Vec::new();
                let mut i: usize = 0;
                while i < n - 2
                    invariant
                        i <= n - 2,
                        n == parts@.len(),
                        pv == vecs_view(parts@),
                        vecs_view(head@) == pv.take(i as int),
                    decreases n - 2 - i,
                {
                    let ghost prev = head@;
                    head.push(crate::text::copy_chars(parts[i].as_slice()));
                    assert(vecs_view(head@) =~= vecs_view(prev).push(parts@[i as int]@));
                    assert(vecs_view(head@) =~= pv.take(i + 1));
                    i = i + 1;
                }
                let sep = chars_of(":");
                let joined = join_lines(&head, sep.as_slice());
                let file = strip_res_chars(joined.as_slice());
                if line == 0 || col == 0 {
                    let mut m = String::from_str("Line and column numbers are 1-based and must be >= 1, got ");
                    let l = crate::text::decimal_u64(line);
                    push_chars(&mut m, l.as_slice());
                    push_str(&mut m, ":");
                    let c = crate::text::decimal_u64(col);
                    push_chars(&mut m, c.as_slice());
                    return Err(m);
                }
                return Ok(TargetMode::Position { file, line: (line - 1) as u32, col: (col - 1) as u32 });
            },
            _ => {},
        }
    }
    assert(position_parts(target@) is None);
    match SymbolPath::parse(target) {
        Ok(sp) => Ok(TargetMode::SymbolPath { symbol_path: sp }),
        Err(_) => Err(String::from_str("Invalid target format. Expected 'file:line:col' or 'file:SymbolPath'")),
    }
}

/// The language server port: the one given with `--port`, else the one the
/// gdapi metadata file records, else 6005.
pub fn discover_lsp_port(explicit_port: Option<u16>, meta_lsp_port: Option<u16>) -> (r: u16)
    ensures
        r == match explicit_port {
            Some(p) => p,
            None => match meta_lsp_port {
                Some(p) => p,
                None => 6005u16,
            },
        },
{
    match explicit_port {
        Some(p) => p,
        None => match meta_lsp_port {
            Some(p) => p,
            None => 6005,
        },
    }
}

/// `base` joined with the relative path `rel` as a path is extended: a
/// `/` between them unless `base` is empty or already ends with one.
pub open spec fn join_path(base: Seq<char>, rel: Seq<char>) -> Seq<char> {
    if base.len() == 0 || base.last() == '/' { base + rel } else { base + "/"@ + rel }
}

/// The file a command acts on: without a leading `res://`; kept when
/// absolute, else taken relative to the project, else to the working
/// directory (`cwd`, when it is known).
pub open spec fn resolve_file_spec(file: Seq<char>, project: Option<Seq<char>>, cwd: Option<Seq<char>>) -> Seq<char> {
    let f = strip_res(file);
    if starts_with(f, "/"@) {
        f
    } else {
        match project {
            Some(p) => join_path(p, f),
            None => match cwd {
                Some(c) => join_path(c, f),
                None => f,
            },
        }
    }
}

fn join_path_exec(base: &str, rel: &str) -> (r: String)
    ensures
        r@ == join_path(base@, rel@),
{
    let b = chars_of(base);
    let mut s = base.to_string();
    if b.len() > 0 && b[b.len() - 1] != '/' {
        push_str(&mut s, "/");
    }
    push_str(&mut s, rel);
    s
}

pub fn resolve_file(file: &str, project: Option<&str>, cwd: Option<&str>) -> (r: String)
    ensures
        r@ == resolve_file_spec(file@,
            match project { Some(p) => Some(p@), None => None },
            match cwd { Some(c) => Some(c@), None => None }),
{
    let f = strip_res_prefix(file);
    let fc = chars_of(f.as_str());
    let slash = chars_of("/");
    proof { reveal_strlit("/"); }
    if starts_with_chars(fc.as_slice(), slash.as_slice()) {
        return f;
    }
    match project {
        Some(p) => join_path_exec(p, f.as_str()),
        None => match cwd {
            Some(c) => join_path_exec(c, f.as_str()),
            None => f,
        },
    }
}

} // verus!
