//! Reshaping of a JSON answer before it is written out: every object gets its
//! `ok` member first, and an array of objects that all have the same keys and
//! only primitive (or nearly primitive) values has its one-element and empty
//! arrays flattened, so that an encoder can print it as a table.

use vstd::prelude::*;
use crate::json::{entries_view, items_view, lemma_view_parts, obj_get, str_equal, Json, JsonV};
use crate::text::push_str;

verus! {

/// Neither an object nor an array.
pub open spec fn is_primitive_v(v: JsonV) -> bool {
    !(v is Obj) && !(v is Arr)
}

/// A primitive, an empty array, or an array of one primitive.
pub open spec fn is_coercible_v(v: JsonV) -> bool {
    is_primitive_v(v) || match v {
        JsonV::Arr(a) => a.len() == 0 || (a.len() == 1 && is_primitive_v(a[0])),
        _ => false,
    }
}

/// An empty array becomes the empty string, an array of one primitive that
/// primitive; anything else stays.
pub open spec fn coerced_v(v: JsonV) -> JsonV {
    match v {
        JsonV::Arr(a) => if a.len() == 0 {
            JsonV::Str(Seq::empty())
        } else if a.len() == 1 && is_primitive_v(a[0]) {
            a[0]
        } else {
            v
        },
        _ => v,
    }
}

pub open spec fn has_key(m: Seq<(Seq<char>, JsonV)>, k: Seq<char>) -> bool {
    obj_get(m, k) is Some
}

/// `v` is an object with as many entries as `first` and every key of `first`.
pub open spec fn same_keys(first: Seq<(Seq<char>, JsonV)>, v: JsonV) -> bool {
    match v {
        JsonV::Obj(o) => o.len() == first.len() && forall|j: int|
            0 <= j < first.len() ==> has_key(o, #[trigger] first[j].0),
        _ => false,
    }
}

/// `v` is an object whose values are all coercible.
pub open spec fn values_coercible(v: JsonV) -> bool {
    match v {
        JsonV::Obj(o) => forall|j: int| 0 <= j < o.len() ==> is_coercible_v(#[trigger] o[j].1),
        _ => false,
    }
}

/// When the flattening applies to an array.
pub open spec fn r1_applies(arr: Seq<JsonV>) -> bool {
    &&& arr.len() > 0
    &&& arr[0] is Obj
    &&& forall|i: int| 0 <= i < arr.len() ==> same_keys(arr[0]->Obj_0, #[trigger] arr[i])
    &&& forall|i: int| 0 <= i < arr.len() ==> values_coercible(#[trigger] arr[i])
}

pub open spec fn coerce_entries(o: Seq<(Seq<char>, JsonV)>) -> Seq<(Seq<char>, JsonV)> {
    Seq::new(o.len(), |j: int| (o[j].0, coerced_v(o[j].1)))
}

pub open spec fn coerce_all(arr: Seq<JsonV>) -> Seq<JsonV> {
    Seq::new(arr.len(), |i: int| JsonV::Obj(coerce_entries(arr[i]->Obj_0)))
}

/// The entries whose key is not `k`, in order.
pub open spec fn without_key(m: Seq<(Seq<char>, JsonV)>, k: Seq<char>) -> Seq<(Seq<char>, JsonV)>
    decreases m.len(),
{
    if m.len() == 0 {
        Seq::empty()
    } else {
        let r = without_key(m.drop_last(), k);
        if m.last().0 == k { r } else { r.push(m.last()) }
    }
}

/// The `ok` entry first (when there is one), then the others in order.
pub open spec fn ok_first(m: Seq<(Seq<char>, JsonV)>) -> Seq<(Seq<char>, JsonV)> {
    match obj_get(m, "ok"@) {
        Some(x) => seq![("ok"@, x)] + without_key(m, "ok"@),
        None => without_key(m, "ok"@),
    }
}

/// The normalised form of a JSON value.
pub open spec fn normalize_v(v: JsonV) -> JsonV
    decreases v,
{
    match v {
        JsonV::Arr(a) => {
            let na = normalized_items(a);
            JsonV::Arr(if r1_applies(na) { coerce_all(na) } else { na })
        },
        JsonV::Obj(m) => JsonV::Obj(ok_first(normalized_entries(m))),
        _ => v,
    }
}

/// The items of an array, each normalised.
pub open spec fn normalized_items(a: Seq<JsonV>) -> Seq<JsonV>
    decreases a,
{
    Seq::new(a.len(), |i: int|
        if 0 <= i < a.len() {
            proof { assert(decreases_to!(a => a[i])); }
            normalize_v(a[i])
        } else {
            JsonV::Null
        })
}

/// The entries of an object with their values normalised.
pub open spec fn normalized_entries(m: Seq<(Seq<char>, JsonV)>) -> Seq<(Seq<char>, JsonV)>
    decreases m,
{
    Seq::new(m.len(), |i: int|
        if 0 <= i < m.len() {
            proof { assert(decreases_to!(m => m[i].1)); }
            (m[i].0, normalize_v(m[i].1))
        } else {
            (Seq::<char>::empty(), JsonV::Null)
        })
}

/// The first entry with key `k` is the one `obj_get` finds.
pub proof fn lemma_obj_get_at(m: Seq<(Seq<char>, JsonV)>, k: Seq<char>, i: int)
    requires
        0 <= i < m.len(),
        m[i].0 == k,
        forall|j: int| 0 <= j < i ==> m[j].0 != k,
    ensures
        obj_get(m, k) == Some(m[i].1),
    decreases i,
{
    if i > 0 {
        lemma_obj_get_at(m.drop_first(), k, i - 1);
    }
}

pub proof fn lemma_obj_get_none(m: Seq<(Seq<char>, JsonV)>, k: Seq<char>)
    requires
        forall|j: int| 0 <= j < m.len() ==> m[j].0 != k,
    ensures
        obj_get(m, k) is None,
    decreases m.len(),
{
    if m.len() > 0 {
        lemma_obj_get_none(m.drop_first(), k);
    }
}

/// Index of the first entry with key `k`.
pub fn find_key(m: &Vec<(String, Json)>, k: &str) -> (r: Option<usize>)
    ensures
        match r {
            Some(i) => i < m@.len() && m@[i as int].0@ == k@
                && forall|j: int| 0 <= j < i ==> m@[j].0@ != k@,
            None => forall|j: int| 0 <= j < m@.len() ==> m@[j].0@ != k@,
        },
{
    let mut i: usize = 0;
    while i < m.len()
        invariant
            i <= m@.len(),
            forall|j: int| 0 <= j < i ==> m@[j].0@ != k@,
        decreases m.len() - i,
    {
        if str_equal(m[i].0.as_str(), k) {
            return Some(i);
        }
        i = i + 1;
    }
    None
}

pub fn is_primitive(v: &Json) -> (r: bool)
    ensures
        r == is_primitive_v(v@),
{
    proof { lemma_view_parts(*v); }
    match v {
        Json::Object(_) => false,
        Json::Array(_) => false,
        _ => true,
    }
}

pub fn is_primitive_or_coercible(v: &Json) -> (r: bool)
    ensures
        r == is_coercible_v(v@),
{
    proof { lemma_view_parts(*v); }
    if is_primitive(v) {
        return true;
    }
    match v {
        Json::Array(inner) => {
            if inner.len() == 0 {
                return true;
            }
            if inner.len() == 1 && is_primitive(&inner[0]) {
                return true;
            }
            false
        },
        _ => false,
    }
}

pub fn coerce_value(v: &Json) -> (r: Json)
    ensures
        r@ == coerced_v(v@),
{
    proof { lemma_view_parts(*v); }
    match v {
        Json::Array(inner) => {
            if inner.len() == 0 {
                Json::Str(String::new())
            } else if inner.len() == 1 && is_primitive(&inner[0]) {
                inner[0].deep_clone()
            } else {
                v.deep_clone()
            }
        },
        _ => v.deep_clone(),
    }
}

fn coerce_object(o: &Vec<(String, Json)>) -> (r: Vec<(String, Json)>)
    ensures
        entries_view(r@) == coerce_entries(entries_view(o@)),
{
    let ghost ov = entries_view(o@);
    let mut out: Vec<(String, Json)> = Vec::new();
    let mut j: usize = 0;
    while j < o.len()
        invariant
            j <= o.len(),
            ov == entries_view(o@),
            out@.len() == j,
            entries_view(out@) == coerce_entries(ov).take(j as int),
        decreases o.len() - j,
    {
        let k = o[j].0.clone();
        let c = coerce_value(&o[j].1);
        out.push((k, c));
        assert(out@[j as int].0@ == o@[j as int].0@);
        assert(out@[j as int].1@ == coerced_v(ov[j as int].1));
        assert(entries_view(out@) =~= coerce_entries(ov).take(j + 1));
        j = j + 1;
    }
    assert(coerce_entries(ov).take(o.len() as int) =~= coerce_entries(ov));
    out
}

fn keys_cover(first: &Vec<(String, Json)>, v: &Json) -> (r: bool)
    ensures
        r == same_keys(entries_view(first@), v@),
{
    let ghost fv = entries_view(first@);
    match v.as_object() {
        None => false,
        Some(o) => {
            if o.len() != first.len() {
                return false;
            }
            let mut j: usize = 0;
            while j < first.len()
                invariant
                    j <= first.len(),
                    fv == entries_view(first@),
                    v@ is Obj,
                    forall|q: int| 0 <= q < j ==> has_key(v@->Obj_0, #[trigger] fv[q].0),
                decreases first.len() - j,
            {
                if v.get(first[j].0.as_str()).is_none() {
                    assert(!has_key(v@->Obj_0, fv[j as int].0));
                    return false;
                }
                j = j + 1;
            }
            true
        },
    }
}

fn all_values_coercible(v: &Json) -> (r: bool)
    ensures
        r == values_coercible(v@),
{
    match v.as_object() {
        None => false,
        Some(o) => {
            let ghost ov = entries_view(o@);
            let mut j: usize = 0;
            while j < o.len()
                invariant
                    j <= o.len(),
                    ov == entries_view(o@),
                    ov == v@->Obj_0,
                    v@ is Obj,
                    forall|q: int| 0 <= q < j ==> is_coercible_v(#[trigger] ov[q].1),
                decreases o.len() - j,
            {
                if !is_primitive_or_coercible(&o[j].1) {
                    assert(!is_coercible_v(ov[j as int].1));
                    return false;
                }
                j = j + 1;
            }
            true
        },
    }
}

/// The flattened array when the flattening applies, nothing otherwise.
pub fn try_coerce_with_r1(arr: &Vec<Json>) -> (r: Option<Vec<Json>>)
    ensures
        match r {
            Some(c) => r1_applies(items_view(arr@)) && items_view(c@) == coerce_all(items_view(arr@)),
            None => !r1_applies(items_view(arr@)),
        },
{
    let ghost av = items_view(arr@);
    if arr.len() == 0 {
        return None;
    }
    assert(av[0] == arr@[0]@);
    let first = match arr[0].as_object() {
        Some(o) => o,
        None => return None,
    };
    let ghost fv = entries_view(first@);
    let mut i: usize = 0;
    while i < arr.len()
        invariant
            i <= arr.len(),
            av == items_view(arr@),
            fv == av[0]->Obj_0,
            fv == entries_view(first@),
            forall|q: int| 0 <= q < i ==> same_keys(fv, #[trigger] av[q]),
        decreases arr.len() - i,
    {
        assert(av[i as int] == arr@[i as int]@);
        if !keys_cover(first, &arr[i]) {
            return None;
        }
        i = i + 1;
    }
    let mut i: usize = 0;
    while i < arr.len()
        invariant
            i <= arr.len(),
            av == items_view(arr@),
            forall|q: int| 0 <= q < i ==> values_coercible(#[trigger] av[q]),
        decreases arr.len() - i,
    {
        assert(av[i as int] == arr@[i as int]@);
        if !all_values_coercible(&arr[i]) {
            return None;
        }
        i = i + 1;
    }
    assert(r1_applies(av));
    let mut out: Vec<Json> = Vec::new();
    let mut i: usize = 0;
    while i < arr.len()
        invariant
            i <= arr.len(),
            av == items_view(arr@),
            r1_applies(av),
            out@.len() == i,
            items_view(out@) == coerce_all(av).take(i as int),
        decreases arr.len() - i,
    {
        assert(av[i as int] == arr@[i as int]@);
        assert(values_coercible(av[i as int]));
        let o = match arr[i].as_object() {
            Some(o) => o,
            None => { assert(false); return None; },
        };
        let c = coerce_object(o);
        let item = Json::Object(c);
        proof { lemma_view_parts(item); }
        assert(item@ == JsonV::Obj(coerce_entries(av[i as int]->Obj_0)));
        out.push(item);
        assert(items_view(out@) =~= coerce_all(av).take(i + 1));
        i = i + 1;
    }
    assert(coerce_all(av).take(arr.len() as int) =~= coerce_all(av));
    Some(out)
}

/// The normalised copy of a value.
#[verifier::loop_isolation(false)]
pub fn normalize_ref(v: &Json) -> (r: Json)
    ensures
        r@ == normalize_v(v@),
    decreases v,
{
    proof { lemma_view_parts(*v); }
    match v {
        Json::Array(a) => {
            let ghost av = items_view(a@);
            let ghost na = normalized_items(av);
            let mut out: Vec<Json> = Vec::new();
            let mut i: usize = 0;
            while i < a.len()
                invariant
                    i <= a.len(),
                    av == items_view(a@),
                    na == normalized_items(av),
                    items_view(out@) == na.take(i as int),
                decreases a.len() - i,
            {
                proof { assert(decreases_to!(*v => a@[i as int])); }
                let c = normalize_ref(&a[i]);
                out.push(c);
                assert(items_view(out@) =~= na.take(i + 1));
                i = i + 1;
            }
            assert(na.take(a.len() as int) =~= na);
            match try_coerce_with_r1(&out) {
                Some(c) => {
                    let r = Json::Array(c);
                    proof { lemma_view_parts(r); }
                    r
                },
                None => {
                    let r = Json::Array(out);
                    proof { lemma_view_parts(r); }
                    r
                },
            }
        },
        Json::Object(m) => {
            let ghost mv = entries_view(m@);
            let ghost nm = normalized_entries(mv);
            let mut out: Vec<(String, Json)> = Vec::new();
            let ghost mut head: Seq<(Seq<char>, JsonV)> = Seq::empty();
            match find_key(m, "ok") {
                Some(k) => {
                    proof {
                        assert(decreases_to!(*v => m@[k as int].1));
                        lemma_obj_get_at(nm, "ok"@, k as int);
                    }
                    let c = normalize_ref(&m[k].1);
                    out.push((String::from_str("ok"), c));
                    proof { head = seq![("ok"@, nm[k as int].1)]; }
                    assert(entries_view(out@) =~= head);
                },
                None => {
                    proof { lemma_obj_get_none(nm, "ok"@); }
                },
            }
            assert(entries_view(out@) == head);
            assert(without_key(nm.take(0), "ok"@) =~= Seq::<(Seq<char>, JsonV)>::empty());
            assert(head + without_key(nm.take(0), "ok"@) =~= head);
            let mut i: usize = 0;
            while i < m.len()
                invariant
                    i <= m.len(),
                    mv == entries_view(m@),
                    nm == normalized_entries(mv),
                    entries_view(out@) == head + without_key(nm.take(i as int), "ok"@),
                decreases m.len() - i,
            {
                assert(nm.take(i + 1).drop_last() =~= nm.take(i as int));
                if !str_equal(m[i].0.as_str(), "ok") {
                    proof { assert(decreases_to!(*v => m@[i as int].1)); }
                    let k = m[i].0.clone();
                    let c = normalize_ref(&m[i].1);
                    let ghost prev = out@;
                    out.push((k, c));
                    assert(entries_view(out@) =~= entries_view(prev).push(nm[i as int]));
                    assert(out@[out@.len() - 1].0@ == nm[i as int].0);
                    assert(out@[out@.len() - 1].1@ == nm[i as int].1);
                    assert(nm.take(i + 1).last() == nm[i as int]);
                    assert(without_key(nm.take(i + 1), "ok"@)
                        == without_key(nm.take(i as int), "ok"@).push(nm[i as int]));
                    assert(entries_view(out@) =~= head + without_key(nm.take(i + 1), "ok"@));
                } else {
                    assert(nm.take(i + 1).last() == nm[i as int]);
                    assert(without_key(nm.take(i + 1), "ok"@) == without_key(nm.take(i as int), "ok"@));
                }
                i = i + 1;
            }
            assert(nm.take(m.len() as int) =~= nm);
            let r = Json::Object(out);
            proof { lemma_view_parts(r); }
            r
        },
        _ => v.deep_clone(),
    }
}

/// Applies the reshaping to a whole value.
pub fn normalize(v: Json) -> (r: Json)
    ensures
        r@ == normalize_v(v@),
{
    normalize_ref(&v)
}

/// Normalising an object that has an `ok` member puts `ok` first, with its
/// value normalised.
pub proof fn law_ok_first(m: Seq<(Seq<char>, JsonV)>)
    requires
        has_key(m, "ok"@),
    ensures
        normalize_v(JsonV::Obj(m)) is Obj,
        normalize_v(JsonV::Obj(m))->Obj_0.len() > 0,
        normalize_v(JsonV::Obj(m))->Obj_0[0] == ("ok"@, normalize_v(obj_get(m, "ok"@)->0)),
{
    lemma_obj_get_normalized(m, "ok"@);
}

/// Looking a key up among normalised entries finds the normalised value.
proof fn lemma_obj_get_normalized(m: Seq<(Seq<char>, JsonV)>, k: Seq<char>)
    ensures
        obj_get(normalized_entries(m), k) == match obj_get(m, k) {
            Some(x) => Some(normalize_v(x)),
            None => None,
        },
    decreases m.len(),
{
    if m.len() > 0 {
        let nm = normalized_entries(m);
        assert(nm[0] == (m[0].0, normalize_v(m[0].1)));
        assert(nm.drop_first() =~= normalized_entries(m.drop_first()));
        lemma_obj_get_normalized(m.drop_first(), k);
    }
}

/// No entry has key `k`.
pub open spec fn no_key(s: Seq<(Seq<char>, JsonV)>, k: Seq<char>) -> bool {
    forall|j: int| 0 <= j < s.len() ==> #[trigger] s[j].0 != k
}

/// The shape `ok_first` leaves: no `ok` entry, or one, in front.
pub open spec fn ok_in_front(s: Seq<(Seq<char>, JsonV)>) -> bool {
    no_key(s, "ok"@) || (s.len() > 0 && s[0].0 == "ok"@ && no_key(s.drop_first(), "ok"@))
}

/// A value that normalising leaves as it is.
pub open spec fn is_normal(v: JsonV) -> bool {
    normalize_v(v) == v
}

proof fn lemma_without_key_none(s: Seq<(Seq<char>, JsonV)>, k: Seq<char>)
    requires
        no_key(s, k),
    ensures
        without_key(s, k) == s,
    decreases s.len(),
{
    if s.len() > 0 {
        lemma_without_key_none(s.drop_last(), k);
        assert(s.drop_last().push(s.last()) =~= s);
    }
}

proof fn lemma_without_key_concat(p: Seq<(Seq<char>, JsonV)>, s: Seq<(Seq<char>, JsonV)>, k: Seq<char>)
    ensures
        without_key(p + s, k) == without_key(p, k) + without_key(s, k),
    decreases s.len(),
{
    if s.len() == 0 {
        assert(p + s =~= p);
        assert(without_key(p, k) + without_key(s, k) =~= without_key(p, k));
    } else {
        lemma_without_key_concat(p, s.drop_last(), k);
        assert((p + s).drop_last() =~= p + s.drop_last());
        assert((p + s).last() == s.last());
        if s.last().0 != k {
            assert(without_key(p, k) + without_key(s.drop_last(), k).push(s.last())
                =~= (without_key(p, k) + without_key(s.drop_last(), k)).push(s.last()));
        }
    }
}

proof fn lemma_without_key_removes(s: Seq<(Seq<char>, JsonV)>, k: Seq<char>)
    ensures
        no_key(without_key(s, k), k),
        forall|i: int| 0 <= i < without_key(s, k).len()
            ==> exists|j: int| 0 <= j < s.len() && #[trigger] without_key(s, k)[i] == s[j],
    decreases s.len(),
{
    if s.len() > 0 {
        lemma_without_key_removes(s.drop_last(), k);
        let r = without_key(s.drop_last(), k);
        if s.last().0 != k {
            assert forall|i: int| 0 <= i < without_key(s, k).len()
                implies exists|j: int| 0 <= j < s.len() && #[trigger] without_key(s, k)[i] == s[j] by {
                if i < r.len() {
                    let j = choose|j: int| 0 <= j < s.drop_last().len() && r[i] == s.drop_last()[j];
                    assert(without_key(s, k)[i] == s[j]);
                } else {
                    assert(without_key(s, k)[i] == s[s.len() - 1]);
                }
            }
        } else {
            assert forall|i: int| 0 <= i < without_key(s, k).len()
                implies exists|j: int| 0 <= j < s.len() && #[trigger] without_key(s, k)[i] == s[j] by {
                let j = choose|j: int| 0 <= j < s.drop_last().len() && r[i] == s.drop_last()[j];
                assert(without_key(s, k)[i] == s[j]);
            }
        }
    }
}

proof fn lemma_obj_get_from(m: Seq<(Seq<char>, JsonV)>, k: Seq<char>)
    ensures
        obj_get(m, k) matches Some(v) ==> exists|j: int| 0 <= j < m.len() && #[trigger] m[j].1 == v,
    decreases m.len(),
{
    if m.len() > 0 && m[0].0 != k {
        lemma_obj_get_from(m.drop_first(), k);
        if let Some(v) = obj_get(m, k) {
            let j = choose|j: int| 0 <= j < m.drop_first().len() && #[trigger] m.drop_first()[j].1 == v;
            assert(m[j + 1].1 == v);
        }
    }
}

/// `ok_first` leaves its result as it is.
proof fn lemma_ok_first_fixed(e: Seq<(Seq<char>, JsonV)>)
    requires
        ok_in_front(e),
    ensures
        ok_first(e) == e,
{
    if no_key(e, "ok"@) {
        lemma_obj_get_none(e, "ok"@);
        lemma_without_key_none(e, "ok"@);
    } else {
        lemma_obj_get_at(e, "ok"@, 0);
        let t = e.drop_first();
        assert(e =~= seq![e[0]] + t);
        lemma_without_key_concat(seq![e[0]], t, "ok"@);
        assert(e[0].0 == "ok"@);
        let one = seq![e[0]];
        assert(one.drop_last() =~= Seq::<(Seq<char>, JsonV)>::empty());
        assert(without_key(one.drop_last(), "ok"@) =~= Seq::<(Seq<char>, JsonV)>::empty());
        assert(one.last() == e[0]);
        assert(without_key(one, "ok"@) =~= Seq::<(Seq<char>, JsonV)>::empty());
        lemma_without_key_none(t, "ok"@);
        assert(ok_first(e) =~= e);
    }
}

/// What `ok_first` gives has the `ok` entry, if any, in front only, and its
/// values are values of the entries it was given.
proof fn lemma_ok_first_shape(m: Seq<(Seq<char>, JsonV)>)
    ensures
        ok_in_front(ok_first(m)),
        forall|i: int| 0 <= i < ok_first(m).len()
            ==> exists|j: int| 0 <= j < m.len() && #[trigger] ok_first(m)[i].1 == m[j].1,
{
    lemma_without_key_removes(m, "ok"@);
    lemma_obj_get_from(m, "ok"@);
    let w = without_key(m, "ok"@);
    match obj_get(m, "ok"@) {
        Some(x) => {
            assert(ok_first(m).drop_first() =~= w);
            assert forall|i: int| 0 <= i < ok_first(m).len()
                implies exists|j: int| 0 <= j < m.len() && #[trigger] ok_first(m)[i].1 == m[j].1 by {
                if i > 0 {
                    assert(ok_first(m)[i] == w[i - 1]);
                    let j = choose|j: int| 0 <= j < m.len() && #[trigger] w[i - 1] == m[j];
                    assert(ok_first(m)[i].1 == m[j].1);
                }
            }
        },
        None => {
            assert forall|i: int| 0 <= i < ok_first(m).len()
                implies exists|j: int| 0 <= j < m.len() && #[trigger] ok_first(m)[i].1 == m[j].1 by {
                let j = choose|j: int| 0 <= j < m.len() && #[trigger] w[i] == m[j];
                assert(ok_first(m)[i].1 == m[j].1);
            }
        },
    }
}

proof fn lemma_obj_get_coerced(o: Seq<(Seq<char>, JsonV)>, k: Seq<char>)
    ensures
        obj_get(coerce_entries(o), k) == match obj_get(o, k) {
            Some(x) => Some(coerced_v(x)),
            None => None,
        },
    decreases o.len(),
{
    if o.len() > 0 {
        assert(coerce_entries(o).drop_first() =~= coerce_entries(o.drop_first()));
        lemma_obj_get_coerced(o.drop_first(), k);
    }
}

/// Entries whose values are all primitive normalise to themselves, once
/// `ok`, if present, is in front.
proof fn lemma_primitive_entries_normal(e: Seq<(Seq<char>, JsonV)>)
    requires
        ok_in_front(e),
        forall|j: int| 0 <= j < e.len() ==> is_primitive_v(#[trigger] e[j].1),
    ensures
        is_normal(JsonV::Obj(e)),
{
    assert(normalized_entries(e) =~= e);
    lemma_ok_first_fixed(e);
}

/// The coerced objects of a flattened array normalise to themselves.
proof fn lemma_coerced_normal(o: Seq<(Seq<char>, JsonV)>)
    requires
        ok_in_front(o),
        values_coercible(JsonV::Obj(o)),
    ensures
        is_normal(JsonV::Obj(coerce_entries(o))),
        values_coercible(JsonV::Obj(coerce_entries(o))),
        coerce_entries(coerce_entries(o)) == coerce_entries(o),
        forall|j: int| 0 <= j < o.len() ==> is_primitive_v(#[trigger] coerce_entries(o)[j].1),
{
    let ce = coerce_entries(o);
    assert forall|j: int| 0 <= j < o.len() implies is_primitive_v(#[trigger] ce[j].1) by {
        let ov = JsonV::Obj(o);
        assert(ov->Obj_0 == o);
        assert(is_coercible_v(ov->Obj_0[j].1));
    }
    if o.len() > 0 {
        assert(ce.drop_first() =~= coerce_entries(o.drop_first()));
    }
    assert(ok_in_front(ce));
    lemma_primitive_entries_normal(ce);
    assert(coerce_entries(ce) =~= ce);
}

/// Normalising twice gives what normalising once gives.
pub proof fn law_normalize_idempotent(v: JsonV)
    ensures
        normalize_v(normalize_v(v)) == normalize_v(v),
    decreases v,
{
    match v {
        JsonV::Arr(a) => {
            let na = normalized_items(a);
            assert forall|i: int| 0 <= i < a.len() implies normalize_v(#[trigger] na[i]) == na[i] by {
                assert(decreases_to!(v => a[i]));
                law_normalize_idempotent(a[i]);
            }
            assert(normalized_items(na) =~= na);
            if r1_applies(na) {
                let c = coerce_all(na);
                let o0 = na[0]->Obj_0;
                assert forall|i: int| #![trigger c[i]] 0 <= i < na.len() implies
                    normalize_v(c[i]) == c[i]
                    && values_coercible(c[i])
                    && coerce_entries(c[i]->Obj_0) == c[i]->Obj_0
                    && same_keys(c[0]->Obj_0, c[i])
                by {
                    assert(same_keys(o0, na[i]));
                    assert(values_coercible(na[i]));
                    let oi = na[i]->Obj_0;
                    assert(a[i] is Obj);
                    lemma_ok_first_shape(normalized_entries(a[i]->Obj_0));
                    lemma_coerced_normal(oi);
                    assert(c[0]->Obj_0 == coerce_entries(o0));
                    assert forall|j: int| 0 <= j < coerce_entries(o0).len()
                        implies has_key(coerce_entries(oi), #[trigger] coerce_entries(o0)[j].0) by {
                        assert(has_key(oi, o0[j].0));
                        lemma_obj_get_coerced(oi, o0[j].0);
                    }
                }
                assert(normalized_items(c) =~= c);
                assert(r1_applies(c));
                assert(coerce_all(c) =~= c);
            }
        },
        JsonV::Obj(m) => {
            let nm = normalized_entries(m);
            assert forall|j: int| 0 <= j < nm.len() implies #[trigger] is_normal(nm[j].1) by {
                assert(decreases_to!(v => m[j].1));
                law_normalize_idempotent(m[j].1);
            }
            let e = ok_first(nm);
            lemma_ok_first_shape(nm);
            assert forall|i: int| 0 <= i < e.len() implies normalize_v(#[trigger] e[i].1) == e[i].1 by {
                let j = choose|j: int| 0 <= j < nm.len() && #[trigger] e[i].1 == nm[j].1;
                assert(is_normal(nm[j].1));
            }
            assert(normalized_entries(e) =~= e);
            lemma_ok_first_fixed(e);
        },
        _ => {},
    }
}

} // verus!
