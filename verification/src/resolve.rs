//! Finding a symbol path (`Player.health`) in the symbol tree a language
//! server reports for a document, with suggestions when a name is missing.

use vstd::prelude::*;
use crate::json::{items_view, jarr, jget, jstr, or_empty, get_array, get_str, Json, JsonV};
use crate::similar::{find_similar, join_strings, suggestions};
use crate::text::{decimal, decimal_u64, join_sep, push_chars, push_str, string_views};
use crate::types::{range_from_json, range_of, Position, Range};

verus! {

/// A symbol's name, empty when it has none.
pub open spec fn sym_name(sym: JsonV) -> Seq<char> {
    or_empty(jstr(jget(sym, "name"@)))
}

/// A symbol's children, none when it has no `children` array.
pub open spec fn children_of(sym: JsonV) -> Seq<JsonV> {
    match jarr(jget(sym, "children"@)) {
        Some(a) => a,
        None => Seq::empty(),
    }
}

/// The index of the first symbol with the name, scanning from `i`.
pub open spec fn first_named(symbols: Seq<JsonV>, name: Seq<char>, i: int) -> Option<int>
    decreases symbols.len() - i,
{
    if i < 0 || i >= symbols.len() {
        None
    } else if sym_name(symbols[i]) == name {
        Some(i)
    } else {
        first_named(symbols, name, i + 1)
    }
}

/// Where the first symbol with the name starts (its `selectionRange`
/// start), when that symbol has a valid `selectionRange`.
pub open spec fn find_in_list_spec(symbols: Seq<JsonV>, name: Seq<char>) -> Option<(Position, Seq<char>)> {
    match first_named(symbols, name, 0) {
        Some(i) => match jget(symbols[i], "selectionRange"@) {
            Some(r) => match range_of(r) {
                Some(rg) => Some((rg.start, name)),
                None => None,
            },
            None => None,
        },
        None => None,
    }
}

fn name_of(sym: &Json) -> (r: &str)
    ensures
        r@ == sym_name(sym@),
{
    proof { reveal_strlit(""); }
    match get_str(sym, "name") {
        Some(s) => s,
        None => "",
    }
}

fn first_named_exec(symbols: &[Json], name: &str) -> (r: Option<usize>)
    ensures
        match r {
            Some(i) => first_named(items_view(symbols@), name@, 0) == Some(i as int) && i < symbols@.len(),
            None => first_named(items_view(symbols@), name@, 0) is None,
        },
{
    let ghost sv = items_view(symbols@);
    let mut i: usize = 0;
    while i < symbols.len()
        invariant
            i <= symbols@.len(),
            sv == items_view(symbols@),
            first_named(sv, name@, 0) == first_named(sv, name@, i as int),
        decreases symbols.len() - i,
    {
        assert(sv[i as int] == symbols@[i as int]@);
        if crate::json::str_equal(name_of(&symbols[i]), name) {
            return Some(i);
        }
        i = i + 1;
    }
    None
}

/// The position of the first symbol with this name in the list.
pub fn find_symbol_in_list(symbols: &[Json], name: &str) -> (r: Option<(Position, String)>)
    ensures
        match find_in_list_spec(items_view(symbols@), name@) {
            Some((p, n)) => r matches Some((q, m)) && q == p && m@ == n,
            None => r is None,
        },
{
    let i = match first_named_exec(symbols, name) {
        Some(i) => i,
        None => return None,
    };
    assert(items_view(symbols@)[i as int] == symbols@[i as int]@);
    let sel = match symbols[i].get("selectionRange") {
        Some(s) => s,
        None => return None,
    };
    match range_from_json(sel) {
        Some(rg) => Some((rg.start, String::from_str(name))),
        None => None,
    }
}

/// The names of the symbols, in order.
pub open spec fn names_of(symbols: Seq<JsonV>) -> Seq<Seq<char>> {
    Seq::new(symbols.len(), |i: int| sym_name(symbols[i]))
}

fn names_exec(symbols: &[Json]) -> (r: Vec<String>)
    ensures
        string_views(r@) == names_of(items_view(symbols@)),
{
    let ghost sv = items_view(symbols@);
    let mut out: Vec<String> = Vec::new();
    let mut i: usize = 0;
    while i < symbols.len()
        invariant
            i <= symbols@.len(),
            sv == items_view(symbols@),
            string_views(out@) == names_of(sv).take(i as int),
        decreases symbols.len() - i,
    {
        assert(sv[i as int] == symbols@[i as int]@);
        let ghost prev = out@;
        out.push(String::from_str(name_of(&symbols[i])));
        assert(string_views(out@) =~= string_views(prev).push(sym_name(sv[i as int])));
        assert(string_views(out@) =~= names_of(sv).take(i + 1));
        i = i + 1;
    }
    assert(names_of(sv).take(symbols.len() as int) =~= names_of(sv));
    out
}

/// The message when a name is not found among `candidates`.
pub open spec fn not_found_text(segment: Seq<char>, candidates: Seq<Seq<char>>) -> Seq<char> {
    let s = suggestions(segment, candidates);
    if s.len() == 0 {
        "Symbol '"@ + segment + "' not found. Available symbols: "@ + join_sep(candidates, ", "@)
    } else {
        "Symbol '"@ + segment + "' not found. Did you mean: "@ + join_sep(s, ", "@) + "?"@
    }
}

fn not_found_message(segment: &str, candidates: &[String]) -> (r: String)
    ensures
        r@ == not_found_text(segment@, string_views(candidates@)),
{
    let s = find_similar(segment, candidates);
    let mut m = String::from_str("Symbol '");
    push_str(&mut m, segment);
    if s.len() == 0 {
        push_str(&mut m, "' not found. Available symbols: ");
        let j = join_strings(candidates, ", ");
        push_str(&mut m, j.as_str());
    } else {
        push_str(&mut m, "' not found. Did you mean: ");
        let j = join_strings(s.as_slice(), ", ");
        push_str(&mut m, j.as_str());
        push_str(&mut m, "?");
    }
    m
}

/// The symbol with this name at one level of a path, or why there is none.
pub open spec fn with_candidates_spec(symbols: Seq<JsonV>, segment: Seq<char>, level: nat)
    -> Result<(JsonV, Seq<char>), Seq<char>>
{
    match first_named(symbols, segment, 0) {
        Some(i) => Ok((symbols[i], segment)),
        None => if symbols.len() == 0 {
            Err("No symbols found at level "@ + decimal(level))
        } else {
            Err(not_found_text(segment, names_of(symbols)))
        },
    }
}

/// The first symbol with this name (cloned) and its name, or the message
/// saying that the level is empty or what the name might have been.
pub fn find_symbol_with_candidates(symbols: &[Json], segment: &str, level: usize) -> (r: Result<(Json, String), String>)
    ensures
        match with_candidates_spec(items_view(symbols@), segment@, level as nat) {
            Ok((s, n)) => r matches Ok((x, m)) && x@ == s && m@ == n,
            Err(e) => r matches Err(m) && m@ == e,
        },
{
    match first_named_exec(symbols, segment) {
        Some(i) => {
            assert(items_view(symbols@)[i as int] == symbols@[i as int]@);
            Ok((symbols[i].deep_clone(), String::from_str(segment)))
        },
        None => {
            if symbols.len() == 0 {
                let mut m = String::from_str("No symbols found at level ");
                let d = decimal_u64(level as u64);
                push_chars(&mut m, d.as_slice());
                Err(m)
            } else {
                let names = names_exec(symbols);
                Err(not_found_message(segment, names.as_slice()))
            }
        },
    }
}

/// Every symbol's name followed by its children's names.
pub open spec fn all_names(symbols: Seq<JsonV>) -> Seq<Seq<char>>
    decreases symbols.len(),
{
    if symbols.len() == 0 {
        Seq::empty()
    } else {
        all_names(symbols.drop_last()) + seq![sym_name(symbols.last())] + names_of(children_of(symbols.last()))
    }
}

fn children_exec(sym: &Json) -> (r: &[Json])
    ensures
        items_view(r@) == children_of(sym@),
{
    match get_array(sym, "children") {
        Some(c) => c.as_slice(),
        None => {
            let e: &[Json] = &[];
            assert(items_view(e@) =~= Seq::<JsonV>::empty());
            e
        },
    }
}

/// The names of the symbols and of their children.
pub fn collect_all_symbol_names(symbols: &[Json]) -> (r: Vec<String>)
    ensures
        string_views(r@) == all_names(items_view(symbols@)),
{
    let ghost sv = items_view(symbols@);
    let mut out: Vec<String> = Vec::new();
    let mut i: usize = 0;
    while i < symbols.len()
        invariant
            i <= symbols@.len(),
            sv == items_view(symbols@),
            string_views(out@) == all_names(sv.take(i as int)),
        decreases symbols.len() - i,
    {
        assert(sv.take(i + 1).drop_last() =~= sv.take(i as int));
        assert(sv.take(i + 1).last() == symbols@[i as int]@);
        let ghost before = string_views(out@);
        let ghost p0 = out@;
        out.push(String::from_str(name_of(&symbols[i])));
        assert(string_views(out@) =~= before + seq![sym_name(sv[i as int])]);
        let children = children_exec(&symbols[i]);
        let ghost cv = items_view(children@);
        let ghost mid = string_views(out@);
        let mut k: usize = 0;
        while k < children.len()
            invariant
                k <= children@.len(),
                cv == items_view(children@),
                string_views(out@) == mid + names_of(cv).take(k as int),
            decreases children.len() - k,
        {
            assert(cv[k as int] == children@[k as int]@);
            let ghost prev = out@;
            out.push(String::from_str(name_of(&children[k])));
            assert(string_views(out@) =~= string_views(prev).push(sym_name(cv[k as int])));
            assert(string_views(out@) =~= mid + names_of(cv).take(k + 1));
            k = k + 1;
        }
        assert(names_of(cv).take(children.len() as int) =~= names_of(cv));
        assert(string_views(out@) =~= all_names(sv.take(i + 1)));
        i = i + 1;
    }
    assert(sv.take(symbols.len() as int) =~= sv);
    out
}

/// The first symbol among the children of the top-level symbols (in order)
/// that `find_in_list_spec` finds.
pub open spec fn find_in_children(symbols: Seq<JsonV>, name: Seq<char>, i: int) -> Option<(Position, Seq<char>)>
    decreases symbols.len() - i,
{
    if i < 0 || i >= symbols.len() {
        None
    } else {
        match find_in_list_spec(children_of(symbols[i]), name) {
            Some(r) => Some(r),
            None => find_in_children(symbols, name, i + 1),
        }
    }
}

/// A one-segment path: a top-level symbol, else a child of one, else a
/// message with suggestions taken from all top-level and child names.
pub open spec fn single_segment_spec(symbols: Seq<JsonV>, segment: Seq<char>) -> Result<(Position, Seq<char>), Seq<char>> {
    match find_in_list_spec(symbols, segment) {
        Some(r) => Ok(r),
        None => match find_in_children(symbols, segment, 0) {
            Some(r) => Ok(r),
            None => Err(not_found_text(segment, all_names(symbols))),
        },
    }
}

pub fn resolve_single_segment_path(symbols: &[Json], segment: &str) -> (r: Result<(Position, String), String>)
    ensures
        match single_segment_spec(items_view(symbols@), segment@) {
            Ok((p, n)) => r matches Ok((q, m)) && q == p && m@ == n,
            Err(e) => r matches Err(m) && m@ == e,
        },
{
    let ghost sv = items_view(symbols@);
    match find_symbol_in_list(symbols, segment) {
        Some(r) => return Ok(r),
        None => {},
    }
    let mut i: usize = 0;
    while i < symbols.len()
        invariant
            i <= symbols@.len(),
            sv == items_view(symbols@),
            find_in_list_spec(sv, segment@) is None,
            find_in_children(sv, segment@, 0) == find_in_children(sv, segment@, i as int),
        decreases symbols.len() - i,
    {
        assert(sv[i as int] == symbols@[i as int]@);
        let children = children_exec(&symbols[i]);
        match find_symbol_in_list(children, segment) {
            Some(r) => return Ok(r),
            None => {},
        }
        i = i + 1;
    }
    let names = collect_all_symbol_names(symbols);
    Err(not_found_message(segment, names.as_slice()))
}

pub open spec fn no_selection_text(segment: Seq<char>) -> Seq<char> {
    "Symbol '"@ + segment + "' has no selectionRange"@
}

pub open spec fn bad_selection_text(segment: Seq<char>) -> Seq<char> {
    "Symbol '"@ + segment + "' has an invalid selectionRange"@
}

/// A path of several segments, followed level by level through children.
pub open spec fn multi_segment_spec(current: Seq<JsonV>, segments: Seq<Seq<char>>, i: int)
    -> Result<(Position, Seq<char>), Seq<char>>
    decreases segments.len() - i,
{
    if i < 0 || i >= segments.len() {
        Err("Unexpected end of symbol path"@)
    } else {
        match with_candidates_spec(current, segments[i], i as nat) {
            Err(e) => Err(e),
            Ok((sym, name)) => if i < segments.len() - 1 {
                multi_segment_spec(children_of(sym), segments, i + 1)
            } else {
                match jget(sym, "selectionRange"@) {
                    None => Err(no_selection_text(segments[i])),
                    Some(r) => match range_of(r) {
                        Some(rg) => Ok((rg.start, name)),
                        None => Err(bad_selection_text(segments[i])),
                    },
                }
            },
        }
    }
}

fn copy_items(v: &[Json]) -> (r: Vec<Json>)
    ensures
        items_view(r@) == items_view(v@),
{
    let mut out: Vec<Json> = Vec::new();
    let mut i: usize = 0;
    while i < v.len()
        invariant
            i <= v@.len(),
            out@.len() == i,
            items_view(out@) == items_view(v@).take(i as int),
        decreases v.len() - i,
    {
        out.push(v[i].deep_clone());
        assert(items_view(out@) =~= items_view(v@).take(i + 1));
        i = i + 1;
    }
    assert(items_view(v@).take(v.len() as int) =~= items_view(v@));
    out
}

pub fn resolve_multi_segment_path(symbols: &[Json], segments: &[String]) -> (r: Result<(Position, String), String>)
    ensures
        match multi_segment_spec(items_view(symbols@), string_views(segments@), 0) {
            Ok((p, n)) => r matches Ok((q, m)) && q == p && m@ == n,
            Err(e) => r matches Err(m) && m@ == e,
        },
{
    let ghost segs = string_views(segments@);
    let mut current = copy_items(symbols);
    let mut i: usize = 0;
    while i < segments.len()
        invariant
            i <= segments@.len(),
            segs == string_views(segments@),
            multi_segment_spec(items_view(symbols@), segs, 0) == multi_segment_spec(items_view(current@), segs, i as int),
        decreases segments.len() - i,
    {
        let seg = segments[i].as_str();
        assert(segs[i as int] == seg@);
        let (sym, name) = match find_symbol_with_candidates(current.as_slice(), seg, i) {
            Ok(found) => found,
            Err(e) => return Err(e),
        };
        if i < segments.len() - 1 {
            let children = children_exec(&sym);
            current = copy_items(children);
        } else {
            let sel = match sym.get("selectionRange") {
                Some(s) => s,
                None => {
                    let mut m = String::from_str("Symbol '");
                    push_str(&mut m, seg);
                    push_str(&mut m, "' has no selectionRange");
                    return Err(m);
                },
            };
            return match range_from_json(sel) {
                Some(rg) => Ok((rg.start, name)),
                None => {
                    let mut m = String::from_str("Symbol '");
                    push_str(&mut m, seg);
                    push_str(&mut m, "' has an invalid selectionRange");
                    Err(m)
                },
            };
        }
        i = i + 1;
    }
    Err(String::from_str("Unexpected end of symbol path"))
}

/// The symbols searched at level `j` of a path: the top-level symbols, then
/// the children of the symbol found one level up.
pub open spec fn level_list(symbols: Seq<JsonV>, chain: Seq<JsonV>, j: int) -> Seq<JsonV> {
    if j == 0 { symbols } else { children_of(chain[j - 1]) }
}

/// `chain[j]` is the first symbol named `segments[j]` among those searched at
/// level `j`, found at position `idx[j]`, for every level of the path.
pub open spec fn follows_path(symbols: Seq<JsonV>, segments: Seq<Seq<char>>, chain: Seq<JsonV>, idx: Seq<int>) -> bool {
    &&& segments.len() >= 1
    &&& chain.len() == segments.len()
    &&& idx.len() == segments.len()
    &&& forall|j: int| 0 <= j < segments.len() ==> {
        &&& 0 <= #[trigger] idx[j] < level_list(symbols, chain, j).len()
        &&& level_list(symbols, chain, j)[idx[j]] == chain[j]
        &&& sym_name(chain[j]) == segments[j]
        &&& forall|q: int| 0 <= q < idx[j] ==> sym_name(#[trigger] level_list(symbols, chain, j)[q]) != segments[j]
    }
}

proof fn lemma_first_named_at(list: Seq<JsonV>, name: Seq<char>, k: int, i: int)
    requires
        0 <= i <= k < list.len(),
        sym_name(list[k]) == name,
        forall|q: int| 0 <= q < k ==> sym_name(#[trigger] list[q]) != name,
    ensures
        first_named(list, name, i) == Some(k),
    decreases k - i,
{
    if i < k {
        lemma_first_named_at(list, name, k, i + 1);
    }
}

proof fn lemma_multi_follows(
    symbols: Seq<JsonV>,
    segments: Seq<Seq<char>>,
    chain: Seq<JsonV>,
    idx: Seq<int>,
    i: int,
    rg: Range,
)
    requires
        follows_path(symbols, segments, chain, idx),
        0 <= i < segments.len(),
        jget(chain.last(), "selectionRange"@) matches Some(r) && range_of(r) == Some(rg),
    ensures
        multi_segment_spec(level_list(symbols, chain, i), segments, i)
            == Ok::<(Position, Seq<char>), Seq<char>>((rg.start, segments.last())),
    decreases segments.len() - i,
{
    let list = level_list(symbols, chain, i);
    assert(0 <= idx[i] < list.len());
    lemma_first_named_at(list, segments[i], idx[i], 0);
    if i < segments.len() - 1 {
        lemma_multi_follows(symbols, segments, chain, idx, i + 1, rg);
        assert(level_list(symbols, chain, i + 1) == children_of(chain[i]));
    }
}

/// A path is followed level by level: when every segment names a symbol
/// among the children of the symbol the previous segment named (the first
/// segment among the top-level symbols), resolving the path gives the start
/// of the last symbol's `selectionRange`, under the last segment's name.
pub proof fn law_path_follows_children(
    symbols: Seq<JsonV>,
    segments: Seq<Seq<char>>,
    chain: Seq<JsonV>,
    idx: Seq<int>,
    rg: Range,
)
    requires
        follows_path(symbols, segments, chain, idx),
        jget(chain.last(), "selectionRange"@) matches Some(r) && range_of(r) == Some(rg),
    ensures
        resolve_spec(JsonV::Arr(symbols), segments)
            == Ok::<(Position, Seq<char>), Seq<char>>((rg.start, segments.last())),
{
    assert(0 <= idx[0] < level_list(symbols, chain, 0).len());
    if segments.len() == 1 {
        lemma_first_named_at(symbols, segments[0], idx[0], 0);
    } else {
        lemma_multi_follows(symbols, segments, chain, idx, 0, rg);
    }
}

proof fn lemma_multi_shift(current: Seq<JsonV>, segments: Seq<Seq<char>>, i: int)
    requires
        1 <= i,
        segments.len() >= 2,
    ensures
        ({
            let long = multi_segment_spec(current, segments, i);
            let short = multi_segment_spec(current, segments.drop_first(), i - 1);
            (long is Ok || short is Ok) ==> long == short
        }),
    decreases segments.len() - i,
{
    let t = segments.drop_first();
    if i < segments.len() {
        assert(t[i - 1] == segments[i]);
        match first_named(current, segments[i], 0) {
            Some(k) => {
                if i < segments.len() - 1 {
                    lemma_multi_shift(children_of(current[k]), segments, i + 1);
                }
            },
            None => {},
        }
    }
}

/// Each segment after the first is looked up among the children of the
/// symbol the segment before it named: when the first segment names a
/// top-level symbol, the path resolves as the rest of the path does among
/// that symbol's children (the same position and name whenever either one
/// resolves).
pub proof fn law_path_descends(symbols: Seq<JsonV>, segments: Seq<Seq<char>>, k: int)
    requires
        segments.len() >= 2,
        first_named(symbols, segments[0], 0) == Some(k),
    ensures
        ({
            let long = multi_segment_spec(symbols, segments, 0);
            let short = multi_segment_spec(children_of(symbols[k]), segments.drop_first(), 0);
            (long is Ok || short is Ok) ==> long == short
        }),
{
    lemma_multi_shift(children_of(symbols[k]), segments, 1);
}

/// A symbol path against the answer to a `documentSymbol` request.
pub open spec fn resolve_spec(symbols: JsonV, segments: Seq<Seq<char>>) -> Result<(Position, Seq<char>), Seq<char>> {
    let arr = match symbols { JsonV::Arr(a) => a, _ => Seq::empty() };
    if arr.len() == 0 {
        Err("No symbols found in file"@)
    } else if segments.len() == 1 {
        single_segment_spec(arr, segments[0])
    } else {
        multi_segment_spec(arr, segments, 0)
    }
}

/// Resolves a symbol path to the position of its last segment.
pub fn resolve_symbol_in(symbols: &Json, segments: &[String]) -> (r: Result<(Position, String), String>)
    ensures
        match resolve_spec(symbols@, string_views(segments@)) {
            Ok((p, n)) => r matches Ok((q, m)) && q == p && m@ == n,
            Err(e) => r matches Err(m) && m@ == e,
        },
{
    let arr: &[Json] = match symbols.as_array() {
        Some(a) => a.as_slice(),
        None => {
            let e: &[Json] = &[];
            assert(items_view(e@) =~= Seq::<JsonV>::empty());
            e
        },
    };
    if arr.len() == 0 {
        return Err(String::from_str("No symbols found in file"));
    }
    if segments.len() == 1 {
        resolve_single_segment_path(arr, segments[0].as_str())
    } else {
        resolve_multi_segment_path(arr, segments)
    }
}

} // verus!
