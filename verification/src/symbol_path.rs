//! Symbol paths: `file:Class.member` names a symbol without line numbers.
//! The file part ends at the last `:` (so `res://` prefixes survive) and the
//! symbol part is split on `.`.

use vstd::prelude::*;
use crate::text::{chars_of, last_index_of, lemma_last_index_of, lemma_split_nonempty, split_on, string_of, string_views};

verus! {

/// A parsed `file:symbol.path`.
#[derive(Debug, Clone, PartialEq, Eq)]
pub struct SymbolPath {
    /// The part before the last `:`.
    pub file: String,
    /// The part after the last `:`, split on `.`.
    pub segments: Vec<String>,
}

pub open spec fn missing_separator_msg() -> Seq<char> {
    "missing ':' separator"@
}

pub open spec fn empty_file_msg() -> Seq<char> {
    "empty file path"@
}

pub open spec fn empty_symbol_msg() -> Seq<char> {
    "empty symbol path"@
}

pub open spec fn empty_segment_msg() -> Seq<char> {
    "empty segment in symbol path"@
}

/// What parsing gives: the file part and the segments, or the message of the
/// first rule that the input breaks.
pub open spec fn parse_spec(input: Seq<char>) -> Result<(Seq<char>, Seq<Seq<char>>), Seq<char>> {
    match last_index_of(input, ':') {
        None => Err(missing_separator_msg()),
        Some(p) => {
            let file = input.take(p);
            let sym = input.skip(p + 1);
            if file.len() == 0 {
                Err(empty_file_msg())
            } else if sym.len() == 0 {
                Err(empty_symbol_msg())
            } else if exists|i: int| 0 <= i < split_on(sym, '.').len() && #[trigger] split_on(sym, '.')[i].len() == 0 {
                Err(empty_segment_msg())
            } else {
                Ok((file, split_on(sym, '.')))
            }
        },
    }
}

impl SymbolPath {
    /// Parses `file:symbol.path`, splitting at the last `:`.
    pub fn parse(input: &str) -> (r: Result<SymbolPath, String>)
        ensures
            match r {
                Ok(sp) => parse_spec(input@) == Ok::<(Seq<char>, Seq<Seq<char>>), Seq<char>>((sp.file@, string_views(sp.segments@))),
                Err(e) => parse_spec(input@) == Err::<(Seq<char>, Seq<Seq<char>>), Seq<char>>(e@),
            },
    {
        let cs = chars_of(input);
        let n = cs.len();
        let mut i = n;
        let mut colon: Option<usize> = None;
        assert(cs@.take(n as int) =~= cs@);
        while i > 0
            invariant_except_break
                colon is None,
            invariant
                i <= n,
                n == cs@.len(),
                last_index_of(cs@.take(i as int), ':') == last_index_of(cs@, ':'),
            ensures
                colon is None ==> i == 0 && last_index_of(cs@.take(i as int), ':') == last_index_of(cs@, ':'),
                colon matches Some(q) ==> last_index_of(cs@, ':') == Some(q as int),
            decreases i,
        {
            assert(cs@.take(i as int).drop_last() =~= cs@.take(i - 1));
            if cs[i - 1] == ':' {
                colon = Some(i - 1);
                break;
            }
            i = i - 1;
        }
        let p = match colon {
            None => {
                assert(cs@.take(0) =~= Seq::<char>::empty());
                return Err(String::from_str("missing ':' separator"));
            },
            Some(p) => p,
        };
        assert(last_index_of(cs@, ':') == Some(p as int));
        if p == 0 {
            return Err(String::from_str("empty file path"));
        }
        proof { lemma_last_index_of(cs@, ':'); }
        if p + 1 == n {
            return Err(String::from_str("empty symbol path"));
        }
        let ghost sym = cs@.skip(p + 1);
        assert(sym.len() > 0);
        let file = string_of(&cs.as_slice()[0..p]);
        assert(file@ =~= cs@.take(p as int));
        let mut segments: Vec<String> = Vec::new();
        let mut cur: Vec<char> = Vec::new();
        let mut k = p + 1;
        while k < n
            invariant
                p + 1 <= k <= n,
                n == cs@.len(),
                sym == cs@.skip(p + 1),
                string_views(segments@).push(cur@) == split_on(sym.take(k - (p + 1)), '.'),
            decreases n - k,
        {
            let ghost before = sym.take(k - (p + 1));
            assert(sym.take(k + 1 - (p + 1)).drop_last() =~= before);
            assert(sym.take(k + 1 - (p + 1)).last() == cs@[k as int]);
            proof { lemma_split_nonempty(before, '.'); }
            if cs[k] == '.' {
                let s = string_of(&cur);
                segments.push(s);
                cur = Vec::new();
                assert(string_views(segments@).push(cur@) =~= split_on(before, '.').push(Seq::<char>::empty()));
            } else {
                let ghost old_cur = cur@;
                cur.push(cs[k]);
                assert(string_views(segments@).push(cur@) =~= split_on(before, '.').update(
                    split_on(before, '.').len() - 1, old_cur.push(cs@[k as int])));
            }
            k = k + 1;
        }
        let last = string_of(&cur);
        segments.push(last);
        assert(sym.take(n - (p + 1)) =~= sym);
        assert(string_views(segments@) =~= split_on(sym, '.'));
        let mut j: usize = 0;
        while j < segments.len()
            invariant
                j <= segments.len(),
                string_views(segments@) == split_on(sym, '.'),
                cs@ == input@,
                last_index_of(cs@, ':') == Some(p as int),
                0 < p,
                p < cs@.len(),
                sym == cs@.skip(p + 1),
                sym.len() > 0,
                file@ == cs@.take(p as int),
                forall|t: int| 0 <= t < j ==> (#[trigger] split_on(sym, '.')[t]).len() > 0,
            decreases segments.len() - j,
        {
            assert(segments@[j as int]@ == split_on(sym, '.')[j as int]);
            if segments[j].as_str().is_empty() {
                assert(split_on(sym, '.')[j as int].len() == 0);
                assert(exists|t: int| 0 <= t < split_on(sym, '.').len() && #[trigger] split_on(sym, '.')[t].len() == 0);
                assert(input@.skip(p + 1) == sym);
                assert(input@.take(p as int).len() != 0);
                assert(parse_spec(input@) == Err::<(Seq<char>, Seq<Seq<char>>), Seq<char>>(empty_segment_msg()));
                return Err(String::from_str("empty segment in symbol path"));
            }
            j = j + 1;
        }
        Ok(SymbolPath { file, segments })
    }

    /// Whether the input parses as a symbol path.
    pub fn is_symbol_path(input: &str) -> (r: bool)
        ensures
            r == parse_spec(input@) is Ok,
    {
        Self::parse(input).is_ok()
    }

    /// The first segment, when there is more than one.
    pub fn class_name(&self) -> (r: Option<&str>)
        ensures
            self.segments@.len() > 1 ==> (r matches Some(c) && c@ == self.segments@[0]@),
            self.segments@.len() <= 1 ==> r is None,
    {
        if self.segments.len() > 1 {
            Some(self.segments[0].as_str())
        } else {
            None
        }
    }

    /// The segments after the class name, or all of them when there is only one.
    pub fn member_path(&self) -> (r: &[String])
        ensures
            self.segments@.len() > 1 ==> r@ == self.segments@.skip(1),
            self.segments@.len() <= 1 ==> r@ == self.segments@,
    {
        let n = self.segments.len();
        if n > 1 {
            let r = &self.segments.as_slice()[1..n];
            assert(r@ =~= self.segments@.skip(1));
            r
        } else {
            self.segments.as_slice()
        }
    }
}

/// A parsed symbol path gives back its text: the file, `:`, and the
/// segments joined with `.`.
pub proof fn law_parse_rebuilds(input: Seq<char>)
    requires
        parse_spec(input) is Ok,
    ensures
        ({
            let (file, segments) = parse_spec(input)->Ok_0;
            file + seq![':'] + crate::text::join_with(segments, '.') == input
        }),
{
    lemma_last_index_of(input, ':');
    let p = last_index_of(input, ':')->0;
    let sym = input.skip(p + 1);
    crate::text::lemma_join_split(sym, '.');
    assert(input =~= input.take(p) + seq![':'] + sym);
}

} // verus!
