//! Suggestions for a misspelt symbol name: the edit distance between two
//! texts, the order texts are sorted in, and the selection of up to three
//! candidates that look like the name.

use vstd::prelude::*;
use vstd::relations::{sorted_by, total_ordering};
use vstd::utf8::encode_utf8;
use crate::text::{chars_of, contains_chars, contains_sub, push_str, string_views, utf8_len};

verus! {

/// The Levenshtein distance: the fewest single-character insertions,
/// deletions and substitutions that turn `a` into `b`.
pub open spec fn lev(a: Seq<char>, b: Seq<char>) -> nat
    decreases a.len() + b.len(),
{
    if a.len() == 0 {
        b.len()
    } else if b.len() == 0 {
        a.len()
    } else {
        let del = lev(a.drop_last(), b) + 1;
        let ins = lev(a, b.drop_last()) + 1;
        let sub = lev(a.drop_last(), b.drop_last()) + if a.last() == b.last() { 0nat } else { 1nat };
        let m = if del <= ins { del } else { ins };
        if m <= sub { m } else { sub }
    }
}

/// The distance is at most the longer length.
pub proof fn lemma_lev_bound(a: Seq<char>, b: Seq<char>)
    ensures
        lev(a, b) <= if a.len() >= b.len() { a.len() } else { b.len() },
    decreases a.len() + b.len(),
{
    if a.len() > 0 && b.len() > 0 {
        lemma_lev_bound(a.drop_last(), b.drop_last());
    }
}

/// The edit distance between two strings, counted in characters.
pub fn levenshtein_distance(s1: &str, s2: &str) -> (r: usize)
    ensures
        r == lev(s1@, s2@),
{
    let a = chars_of(s1);
    let b = chars_of(s2);
    let n1 = a.len();
    let n2 = b.len();
    let mut prev: Vec<usize> = Vec::new();
    prev.push(0);
    assert(a@.take(0).len() == 0);
    assert(b@.take(0).len() == 0);
    let mut j: usize = 0;
    while j < n2
        invariant
            j <= n2,
            n2 == b@.len(),
            prev@.len() == j + 1,
            forall|q: int| 0 <= q <= j ==> #[trigger] prev@[q] == lev(a@.take(0), b@.take(q)),
        decreases n2 - j,
    {
        j = j + 1;
        prev.push(j);
        assert(a@.take(0).len() == 0);
        assert(b@.take(j as int).len() == j);
    }
    assert(prev@.len() == n2 + 1);
    let mut i: usize = 0;
    while i < n1
        invariant
            i <= n1,
            n1 == a@.len(),
            n2 == b@.len(),
            prev@.len() == n2 + 1,
            forall|q: int| 0 <= q <= n2 ==> #[trigger] prev@[q] == lev(a@.take(i as int), b@.take(q)),
        decreases n1 - i,
    {
        let ghost ai = a@.take(i as int);
        let ghost ai1 = a@.take(i + 1);
        assert(ai1.drop_last() =~= ai);
        assert(ai1.last() == a@[i as int]);
        let mut cur: Vec<usize> = Vec::new();
        cur.push(i + 1);
        assert(b@.take(0).len() == 0);
        let mut k: usize = 0;
        while k < n2
            invariant
                k <= n2,
                i < n1,
                n1 == a@.len(),
                n2 == b@.len(),
                ai == a@.take(i as int),
                ai1 == a@.take(i + 1),
                ai1.drop_last() == ai,
                ai1.last() == a@[i as int],
                prev@.len() == n2 + 1,
                forall|q: int| 0 <= q <= n2 ==> #[trigger] prev@[q] == lev(ai, b@.take(q)),
                cur@.len() == k + 1,
                forall|q: int| 0 <= q <= k ==> #[trigger] cur@[q] == lev(ai1, b@.take(q)),
            decreases n2 - k,
        {
            let ghost bk = b@.take(k as int);
            let ghost bk1 = b@.take(k + 1);
            assert(bk1.drop_last() =~= bk);
            assert(bk1.last() == b@[k as int]);
            proof {
                lemma_lev_bound(ai, bk);
            }
            let x = prev[k + 1];
            let y = cur[k];
            let z = prev[k];
            let del = if x < usize::MAX { x + 1 } else { usize::MAX };
            let ins = if y < usize::MAX { y + 1 } else { usize::MAX };
            let sub = if a[i] == b[k] { z } else { z + 1 };
            let m = if del <= ins { del } else { ins };
            let v = if m <= sub { m } else { sub };
            assert(v == lev(ai1, bk1));
            cur.push(v);
            k = k + 1;
        }
        prev = cur;
        i = i + 1;
    }
    assert(a@.take(n1 as int) =~= a@);
    assert(b@.take(n2 as int) =~= b@);
    prev[n2]
}

/// Lexicographic order of texts by code point (the order `sort` gives
/// strings, since UTF-8 keeps code point order).
pub open spec fn str_le(a: Seq<char>, b: Seq<char>) -> bool
    decreases a.len(),
{
    if a.len() == 0 {
        true
    } else if b.len() == 0 {
        false
    } else if a[0] != b[0] {
        a[0] < b[0]
    } else {
        str_le(a.drop_first(), b.drop_first())
    }
}

pub open spec fn text_order() -> spec_fn(Seq<char>, Seq<char>) -> bool {
    |a: Seq<char>, b: Seq<char>| str_le(a, b)
}

proof fn lemma_str_le_refl(a: Seq<char>)
    ensures
        str_le(a, a),
    decreases a.len(),
{
    if a.len() > 0 {
        lemma_str_le_refl(a.drop_first());
    }
}

proof fn lemma_str_le_antisym(a: Seq<char>, b: Seq<char>)
    requires
        str_le(a, b),
        str_le(b, a),
    ensures
        a == b,
    decreases a.len(),
{
    if a.len() > 0 && b.len() > 0 {
        if a[0] == b[0] {
            lemma_str_le_antisym(a.drop_first(), b.drop_first());
            assert(a =~= seq![a[0]] + a.drop_first());
            assert(b =~= seq![b[0]] + b.drop_first());
        }
    } else if a.len() == 0 && b.len() == 0 {
        assert(a =~= b);
    }
}

proof fn lemma_str_le_trans(a: Seq<char>, b: Seq<char>, c: Seq<char>)
    requires
        str_le(a, b),
        str_le(b, c),
    ensures
        str_le(a, c),
    decreases a.len(),
{
    if a.len() > 0 && b.len() > 0 && c.len() > 0 {
        if a[0] == b[0] && b[0] == c[0] {
            lemma_str_le_trans(a.drop_first(), b.drop_first(), c.drop_first());
        }
    }
}

proof fn lemma_str_le_total(a: Seq<char>, b: Seq<char>)
    ensures
        str_le(a, b) || str_le(b, a),
    decreases a.len(),
{
    if a.len() > 0 && b.len() > 0 && a[0] == b[0] {
        lemma_str_le_total(a.drop_first(), b.drop_first());
    }
}

/// The text order is a total order.
pub proof fn lemma_text_order_total()
    ensures
        total_ordering(text_order()),
{
    let r = text_order();
    assert forall|x: Seq<char>| #[trigger] r(x, x) by {
        lemma_str_le_refl(x);
    }
    assert forall|x: Seq<char>, y: Seq<char>| #[trigger] r(x, y) && #[trigger] r(y, x) implies x == y by {
        lemma_str_le_antisym(x, y);
    }
    assert forall|x: Seq<char>, y: Seq<char>, z: Seq<char>| #[trigger] r(x, y) && #[trigger] r(y, z) implies r(x, z) by {
        lemma_str_le_trans(x, y, z);
    }
    assert forall|x: Seq<char>, y: Seq<char>| #[trigger] r(x, y) || #[trigger] r(y, x) by {
        lemma_str_le_total(x, y);
    }
}

/// Whether `a` comes before or equals `b` in the text order.
pub fn text_le(a: &str, b: &str) -> (r: bool)
    ensures
        r == str_le(a@, b@),
{
    let x = chars_of(a);
    let y = chars_of(b);
    let mut i: usize = 0;
    assert(x@.skip(0) =~= x@);
    assert(y@.skip(0) =~= y@);
    while i < x.len() && i < y.len() && x[i] == y[i]
        invariant
            i <= x@.len(),
            i <= y@.len(),
            str_le(a@, b@) == str_le(x@.skip(i as int), y@.skip(i as int)),
        decreases x.len() - i,
    {
        assert(x@.skip(i as int).drop_first() =~= x@.skip(i + 1));
        assert(y@.skip(i as int).drop_first() =~= y@.skip(i + 1));
        i = i + 1;
    }
    if i == x.len() {
        return true;
    }
    if i == y.len() {
        return false;
    }
    x[i] < y[i]
}

/// Unicode lower case of a text (`str::to_lowercase`).
pub uninterp spec fn lower_case(s: Seq<char>) -> Seq<char>;

/// `str::to_lowercase`.
#[verifier::external_body]
fn to_lower(s: &str) -> (r: String)
    ensures
        r@ == lower_case(s@),
{
    s.to_lowercase()
}

/// A candidate looks like the target when, case aside, one contains the
/// other, or their edit distance is at most 40% of the longer one's length
/// in bytes.
pub open spec fn is_similar(target: Seq<char>, cand: Seq<char>) -> bool {
    let t = lower_case(target);
    let c = lower_case(cand);
    let m = if encode_utf8(target).len() >= encode_utf8(cand).len() {
        encode_utf8(target).len()
    } else {
        encode_utf8(cand).len()
    };
    contains_sub(c, t) || contains_sub(t, c) || (m > 0 && 5 * lev(t, c) <= 2 * m)
}

/// The candidates that look like the target, in their order.
pub open spec fn similar_of(target: Seq<char>, cands: Seq<Seq<char>>) -> Seq<Seq<char>>
    decreases cands.len(),
{
    if cands.len() == 0 {
        Seq::empty()
    } else {
        let r = similar_of(target, cands.drop_last());
        if is_similar(target, cands.last()) { r.push(cands.last()) } else { r }
    }
}

/// At most three of the similar candidates, the first in text order.
pub open spec fn suggestions(target: Seq<char>, cands: Seq<Seq<char>>) -> Seq<Seq<char>> {
    let s = similar_of(target, cands).sort_by(text_order());
    if s.len() <= 3 { s } else { s.take(3) }
}

fn similar(target: &str, target_lower: &str, cand: &str) -> (r: bool)
    requires
        target_lower@ == lower_case(target@),
    ensures
        r == is_similar(target@, cand@),
{
    let cl = to_lower(cand);
    let t = chars_of(target_lower);
    let c = chars_of(cl.as_str());
    if contains_chars(c.as_slice(), t.as_slice()) || contains_chars(t.as_slice(), c.as_slice()) {
        return true;
    }
    let d = levenshtein_distance(target_lower, cl.as_str());
    let lt = utf8_len(target);
    let lc = utf8_len(cand);
    let m = if lt >= lc { lt } else { lc };
    m > 0 && 5 * (d as u128) <= 2 * (m as u128)
}

/// Inserts `x` into a sorted vector, keeping it sorted.
fn insert_sorted(v: &mut Vec<String>, x: String)
    requires
        sorted_by(string_views(old(v)@), text_order()),
    ensures
        sorted_by(string_views(final(v)@), text_order()),
        string_views(final(v)@).to_multiset() == string_views(old(v)@).to_multiset().insert(x@),
{
    proof { lemma_text_order_total(); }
    let ghost sv = string_views(v@);
    let mut k: usize = 0;
    while k < v.len() && text_le(v[k].as_str(), x.as_str())
        invariant
            k <= v@.len(),
            sv == string_views(v@),
            forall|q: int| 0 <= q < k ==> str_le(#[trigger] sv[q], x@),
        decreases v.len() - k,
    {
        k = k + 1;
    }
    let ghost xv = x@;
    v.insert(k, x);
    proof {
        let nv = string_views(v@);
        assert(nv =~= sv.insert(k as int, xv));
        let r = text_order();
        assert(k < sv.len() ==> !str_le(sv[k as int], xv));
        assert forall|i: int, j: int| 0 <= i < j < nv.len() implies #[trigger] r(nv[i], nv[j]) by {
            if j < k {
                assert(r(sv[i], sv[j]));
            } else if j == k {
                assert(str_le(sv[i], xv));
            } else if i == k {
                lemma_str_le_total(sv[k as int], xv);
                assert(str_le(xv, sv[k as int]));
                if j - 1 > k {
                    assert(r(sv[k as int], sv[j - 1]));
                    lemma_str_le_trans(xv, sv[k as int], sv[j - 1]);
                }
            } else if i < k {
                assert(r(sv[i], sv[j - 1]));
            } else {
                assert(r(sv[i - 1], sv[j - 1]));
            }
        }
        vstd::seq_lib::to_multiset_insert(sv, k as int, xv);
    }
}

/// Up to three candidates that look like the target, the first ones in
/// text order.
pub fn find_similar(target: &str, candidates: &[String]) -> (r: Vec<String>)
    ensures
        string_views(r@) == suggestions(target@, string_views(candidates@)),
{
    proof { lemma_text_order_total(); }
    let ghost cv = string_views(candidates@);
    let tl = to_lower(target);
    let mut sorted: Vec<String> = Vec::new();
    let ghost mut picked: Seq<Seq<char>> = Seq::empty();
    let mut i: usize = 0;
    assert(string_views(sorted@) =~= picked);
    assert(cv.take(0) =~= Seq::<Seq<char>>::empty());
    while i < candidates.len()
        invariant
            i <= candidates@.len(),
            cv == string_views(candidates@),
            tl@ == lower_case(target@),
            picked == similar_of(target@, cv.take(i as int)),
            sorted_by(string_views(sorted@), text_order()),
            string_views(sorted@).to_multiset() == picked.to_multiset(),
        decreases candidates.len() - i,
    {
        assert(cv.take(i + 1).drop_last() =~= cv.take(i as int));
        assert(cv.take(i + 1).last() == candidates@[i as int]@);
        if similar(target, tl.as_str(), candidates[i].as_str()) {
            let c = candidates[i].clone();
            proof {
                vstd::seq_lib::to_multiset_build(picked, c@);
                picked = picked.push(c@);
            }
            insert_sorted(&mut sorted, c);
        }
        i = i + 1;
    }
    assert(cv.take(candidates.len() as int) =~= cv);
    proof {
        let sel = similar_of(target@, cv);
        sel.lemma_sort_by_ensures(text_order());
        vstd::seq_lib::lemma_sorted_unique(string_views(sorted@), sel.sort_by(text_order()), text_order());
    }
    let mut out: Vec<String> = Vec::new();
    let mut j: usize = 0;
    while j < sorted.len() && j < 3
        invariant
            j <= sorted@.len(),
            j <= 3,
            string_views(out@) == string_views(sorted@).take(j as int),
        decreases sorted.len() - j,
    {
        let ghost prev = out@;
        let c = sorted[j].clone();
        assert(c@ == sorted@[j as int]@);
        out.push(c);
        assert(string_views(out@) =~= string_views(prev).push(sorted@[j as int]@));
        assert(string_views(out@) =~= string_views(sorted@).take(j + 1));
        j = j + 1;
    }
    proof {
        let s = string_views(sorted@);
        if s.len() <= 3 {
            assert(s.take(j as int) =~= s);
        }
    }
    out
}

/// The texts joined with a separator (`[String]::join`).
pub fn join_strings(parts: &[String], sep: &str) -> (r: String)
    ensures
        r@ == crate::text::join_sep(string_views(parts@), sep@),
{
    let ghost pv = string_views(parts@);
    let mut r = String::new();
    let mut i: usize = 0;
    while i < parts.len()
        invariant
            i <= parts@.len(),
            pv == string_views(parts@),
            r@ == crate::text::join_sep(pv.take(i as int), sep@),
        decreases parts.len() - i,
    {
        assert(pv.take(i + 1).drop_last() =~= pv.take(i as int));
        assert(pv.take(i + 1).last() == parts@[i as int]@);
        if i > 0 {
            push_str(&mut r, sep);
        }
        push_str(&mut r, parts[i].as_str());
        assert(r@ =~= crate::text::join_sep(pv.take(i + 1), sep@));
        i = i + 1;
    }
    assert(pv.take(parts.len() as int) =~= pv);
    r
}

/// A text is at distance 0 from itself.
pub proof fn law_lev_identity(a: Seq<char>)
    ensures
        lev(a, a) == 0,
    decreases a.len(),
{
    if a.len() > 0 {
        law_lev_identity(a.drop_last());
    }
}

/// The distance does not depend on the order of the two texts.
pub proof fn law_lev_symmetric(a: Seq<char>, b: Seq<char>)
    ensures
        lev(a, b) == lev(b, a),
    decreases a.len() + b.len(),
{
    if a.len() > 0 && b.len() > 0 {
        law_lev_symmetric(a.drop_last(), b);
        law_lev_symmetric(a, b.drop_last());
        law_lev_symmetric(a.drop_last(), b.drop_last());
    }
}

/// Suggestions are at most three, each a candidate that looks like the
/// target, in text order.
pub proof fn law_suggestions_bounded(target: Seq<char>, cands: Seq<Seq<char>>)
    ensures
        suggestions(target, cands).len() <= 3,
        sorted_by(suggestions(target, cands), text_order()),
        forall|i: int| 0 <= i < suggestions(target, cands).len() ==> {
            let s = #[trigger] suggestions(target, cands)[i];
            cands.contains(s) && is_similar(target, s)
        },
{
    lemma_text_order_total();
    let sel = similar_of(target, cands);
    sel.lemma_sort_by_ensures(text_order());
    lemma_similar_of(target, cands);
    let sorted = sel.sort_by(text_order());
    let r = suggestions(target, cands);
    assert forall|i: int| 0 <= i < r.len() implies {
        let s = #[trigger] r[i];
        cands.contains(s) && is_similar(target, s)
    } by {
        assert(r[i] == sorted[i]);
        assert(sorted.contains(sorted[i]));
        assert(sel.contains(sorted[i]));
    }
    assert forall|i: int, j: int| 0 <= i < j < r.len() implies #[trigger] (text_order())(r[i], r[j]) by {
        assert(r[i] == sorted[i] && r[j] == sorted[j]);
    }
}

proof fn lemma_similar_of(target: Seq<char>, cands: Seq<Seq<char>>)
    ensures
        forall|s: Seq<char>| #[trigger] similar_of(target, cands).contains(s) ==> cands.contains(s) && is_similar(target, s),
    decreases cands.len(),
{
    if cands.len() > 0 {
        let d = cands.drop_last();
        lemma_similar_of(target, d);
        assert forall|s: Seq<char>| #[trigger] similar_of(target, cands).contains(s) implies cands.contains(s) && is_similar(target, s) by {
            let r = similar_of(target, d);
            if r.contains(s) {
                let k = choose|k: int| 0 <= k < d.len() && d[k] == s;
                assert(cands[k] == s);
            } else {
                let k = choose|k: int| 0 <= k < similar_of(target, cands).len() && similar_of(target, cands)[k] == s;
                assert(k == r.len());
                assert(cands[cands.len() - 1] == s);
            }
        }
    }
}

/// The distance is at least the difference of the lengths.
pub proof fn lemma_lev_lower_bound(a: Seq<char>, b: Seq<char>)
    ensures
        lev(a, b) >= if a.len() >= b.len() { a.len() - b.len() } else { b.len() - a.len() },
    decreases a.len() + b.len(),
{
    if a.len() > 0 && b.len() > 0 {
        lemma_lev_lower_bound(a.drop_last(), b);
        lemma_lev_lower_bound(a, b.drop_last());
        lemma_lev_lower_bound(a.drop_last(), b.drop_last());
    }
}

/// Only equal texts are at distance 0.
pub proof fn lemma_lev_zero(a: Seq<char>, b: Seq<char>)
    requires
        lev(a, b) == 0,
    ensures
        a == b,
    decreases a.len() + b.len(),
{
    if a.len() == 0 || b.len() == 0 {
        assert(a =~= b);
    } else {
        lemma_lev_zero(a.drop_last(), b.drop_last());
        assert(a =~= a.drop_last().push(a.last()));
        assert(b =~= b.drop_last().push(b.last()));
    }
}

/// The edit distance is a distance on texts: it does not depend on their
/// order, it is 0 exactly for equal texts, and it lies between the
/// difference of the lengths (in characters) and the longer length.
pub proof fn law_lev_distance(a: Seq<char>, b: Seq<char>)
    ensures
        lev(a, b) == lev(b, a),
        lev(a, b) == 0 <==> a == b,
        (if a.len() >= b.len() { a.len() - b.len() } else { b.len() - a.len() }) <= lev(a, b),
        lev(a, b) <= if a.len() >= b.len() { a.len() } else { b.len() },
{
    law_lev_symmetric(a, b);
    lemma_lev_lower_bound(a, b);
    lemma_lev_bound(a, b);
    if a == b {
        law_lev_identity(a);
    }
    if lev(a, b) == 0 {
        lemma_lev_zero(a, b);
    }
}

} // verus!
