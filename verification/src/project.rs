//! Finding a Godot project's root: the first directory, from the start
//! directory upwards, that holds `project.godot`. The caller walks the file
//! system and reports, for each directory from the start upwards, its path
//! and whether `project.godot` is a file in it.

use vstd::prelude::*;
use crate::text::{decimal, decimal_u64, push_chars, push_str};

verus! {

/// How many levels above the start directory are searched.
pub const MAX_DEPTH: usize = 5;

/// The index of the first level, among the first `MAX_DEPTH + 1`, whose
/// directory holds `project.godot`, searching from level `i`.
pub open spec fn root_level_from(levels: Seq<(Seq<char>, bool)>, i: int) -> Option<int>
    decreases levels.len() - i,
{
    if i < 0 || i >= levels.len() || i > MAX_DEPTH {
        None
    } else if levels[i].1 {
        Some(i)
    } else {
        root_level_from(levels, i + 1)
    }
}

pub open spec fn levels_view(levels: Seq<(String, bool)>) -> Seq<(Seq<char>, bool)> {
    levels.map_values(|l: (String, bool)| (l.0@, l.1))
}

/// The project root among `levels`: the start directory and then its
/// parents, each with whether it holds `project.godot`.
pub open spec fn find_root_spec(levels: Seq<(Seq<char>, bool)>) -> Option<Seq<char>> {
    match root_level_from(levels, 0) {
        Some(i) => Some(levels[i].0),
        None => None,
    }
}

pub fn find_root(levels: &[(String, bool)]) -> (r: Option<String>)
    ensures
        match r {
            Some(d) => find_root_spec(levels_view(levels@)) == Some(d@),
            None => find_root_spec(levels_view(levels@)) is None,
        },
{
    let ghost lv = levels_view(levels@);
    let mut i: usize = 0;
    while i < levels.len() && i <= MAX_DEPTH
        invariant
            i <= levels@.len(),
            i <= MAX_DEPTH + 1,
            lv == levels_view(levels@),
            root_level_from(lv, 0) == root_level_from(lv, i as int),
        decreases levels.len() - i,
    {
        if levels[i].1 {
            return Some(levels[i].0.clone());
        }
        i = i + 1;
    }
    None
}

/// The refusal of a `--project` directory without `project.godot`.
pub open spec fn not_a_project_text(dir: Seq<char>) -> Seq<char> {
    "not a Godot project (no project.godot in "@ + dir + ")"@
}

/// The refusal when no project is found above the working directory.
pub open spec fn no_project_text(cwd: Seq<char>) -> Seq<char> {
    "no Godot project found from "@ + cwd + " (searched up "@ + decimal(MAX_DEPTH as nat)
        + " levels). Use --project <path> or run from within a Godot project."@
}

/// The project root for `--project` (its absolute path and whether it holds
/// `project.godot`), or else the one found from the working directory
/// `cwd`, whose levels are given.
pub open spec fn resolve_spec(
    explicit: Option<(Seq<char>, bool)>,
    cwd: Seq<char>,
    levels: Seq<(Seq<char>, bool)>,
) -> Result<Seq<char>, Seq<char>> {
    match explicit {
        Some((dir, has)) => if has { Ok(dir) } else { Err(not_a_project_text(dir)) },
        None => match find_root_spec(levels) {
            Some(d) => Ok(d),
            None => Err(no_project_text(cwd)),
        },
    }
}

pub fn resolve_project_root(explicit: Option<(&str, bool)>, cwd: &str, levels: &[(String, bool)])
    -> (r: Result<String, String>)
    ensures
        match r {
            Ok(d) => resolve_spec(
                match explicit { Some((p, h)) => Some((p@, h)), None => None },
                cwd@, levels_view(levels@)) == Ok::<Seq<char>, Seq<char>>(d@),
            Err(e) => resolve_spec(
                match explicit { Some((p, h)) => Some((p@, h)), None => None },
                cwd@, levels_view(levels@)) == Err::<Seq<char>, Seq<char>>(e@),
        },
{
    match explicit {
        Some((dir, has)) => {
            if has {
                Ok(dir.to_string())
            } else {
                let mut m = String::from_str("not a Godot project (no project.godot in ");
                push_str(&mut m, dir);
                push_str(&mut m, ")");
                Err(m)
            }
        },
        None => match find_root(levels) {
            Some(d) => Ok(d),
            None => {
                let mut m = String::from_str("no Godot project found from ");
                push_str(&mut m, cwd);
                push_str(&mut m, " (searched up ");
                let n = decimal_u64(MAX_DEPTH as u64);
                push_chars(&mut m, n.as_slice());
                push_str(&mut m, " levels). Use --project <path> or run from within a Godot project.");
                Err(m)
            },
        },
    }
}

} // verus!
