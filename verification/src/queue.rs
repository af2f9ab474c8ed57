//! Requests handed to the editor that still wait for their answer: each
//! request id maps to the channel its answer goes back on and to the moment
//! (in milliseconds of a clock the caller chooses) after which nobody waits
//! for it any more.

use vstd::prelude::*;

verus! {

/// An HTTP answer.
pub struct HttpResponse {
    /// The status code.
    pub status: u16,
    /// The headers, in order.
    pub headers: Vec<(String, String)>,
    /// The body.
    pub body: Vec<u8>,
}

/// The mathematical form of an answer.
pub struct ResponseV {
    pub status: u16,
    pub headers: Seq<(Seq<char>, Seq<char>)>,
    pub body: Seq<u8>,
}

impl View for HttpResponse {
    type V = ResponseV;

    open spec fn view(&self) -> ResponseV {
        ResponseV {
            status: self.status,
            headers: self.headers@.map_values(|h: (String, String)| (h.0@, h.1@)),
            body: self.body@,
        }
    }
}

/// `{"error":"server shutting down"}`
pub open spec fn shutting_down_body() -> Seq<u8> {
    seq![123u8, 34, 101, 114, 114, 111, 114, 34, 58, 34, 115, 101, 114, 118, 101, 114, 32, 115, 104, 117,
        116, 116, 105, 110, 103, 32, 100, 111, 119, 110, 34, 125]
}

/// The answer every waiting request gets when the server stops: 503 with a
/// JSON error.
pub open spec fn shutdown_response_v() -> ResponseV {
    ResponseV {
        status: 503,
        headers: seq![("content-type"@, "application/json"@)],
        body: shutting_down_body(),
    }
}

pub fn shutdown_response() -> (r: HttpResponse)
    ensures
        r@ == shutdown_response_v(),
{
    let mut headers: Vec<(String, String)> = Vec::new();
    headers.push((String::from_str("content-type"), String::from_str("application/json")));
    let body: Vec<u8> = vec![123u8, 34, 101, 114, 114, 111, 114, 34, 58, 34, 115, 101, 114, 118, 101, 114, 32,
        115, 104, 117, 116, 116, 105, 110, 103, 32, 100, 111, 119, 110, 34, 125];
    let r = HttpResponse { status: 503, headers, body };
    assert(r@.headers =~= seq![("content-type"@, "application/json"@)]);
    assert(r@.body =~= shutting_down_body());
    r
}

/// The waiting requests. `T` is whatever the answer is sent through.
pub struct PendingMap<T> {
    entries: Vec<(u64, T, u64)>,
}

/// No id occurs twice.
pub open spec fn ids_unique<T>(s: Seq<(u64, T, u64)>) -> bool {
    forall|i: int, j: int| 0 <= i < j < s.len() ==> s[i].0 != s[j].0
}

/// Some entry among the first `n` has id `k` and a deadline after `now`.
pub open spec fn live_in_prefix<T>(s: Seq<(u64, T, u64)>, n: int, k: u64, now: u64) -> bool {
    exists|p: int| 0 <= p < n && #[trigger] s[p].0 == k && s[p].2 > now
}

/// Some entry has id `k`.
pub open spec fn has_id<T>(s: Seq<(u64, T, u64)>, k: u64) -> bool {
    exists|q: int| 0 <= q < s.len() && #[trigger] s[q].0 == k
}

/// The map from id to (channel, deadline) that a list of entries holds.
pub open spec fn entries_map<T>(s: Seq<(u64, T, u64)>) -> Map<u64, (T, u64)>
    decreases s.len(),
{
    if s.len() == 0 {
        Map::empty()
    } else {
        entries_map(s.drop_last()).insert(s.last().0, (s.last().1, s.last().2))
    }
}

/// With distinct ids, the map has exactly the listed ids, each with its entry.
pub proof fn lemma_entries_map<T>(s: Seq<(u64, T, u64)>)
    requires
        ids_unique(s),
    ensures
        forall|k: u64| entries_map(s).contains_key(k) <==> exists|i: int| 0 <= i < s.len() && #[trigger] s[i].0 == k,
        forall|i: int| 0 <= i < s.len() ==> #[trigger] entries_map(s)[s[i].0] == (s[i].1, s[i].2),
        entries_map(s).dom().finite(),
        entries_map(s).len() == s.len(),
    decreases s.len(),
{
    if s.len() > 0 {
        let d = s.drop_last();
        assert(ids_unique(d));
        lemma_entries_map(d);
        assert forall|k: u64| entries_map(s).contains_key(k) <==> exists|i: int| 0 <= i < s.len() && #[trigger] s[i].0 == k by {
            if entries_map(s).contains_key(k) && k != s.last().0 {
                let i = choose|i: int| 0 <= i < d.len() && #[trigger] d[i].0 == k;
                assert(s[i].0 == k);
            }
            if exists|i: int| 0 <= i < s.len() && #[trigger] s[i].0 == k {
                let i = choose|i: int| 0 <= i < s.len() && #[trigger] s[i].0 == k;
                if i < s.len() - 1 {
                    assert(d[i].0 == k);
                }
            }
        }
        assert forall|i: int| 0 <= i < s.len() implies #[trigger] entries_map(s)[s[i].0] == (s[i].1, s[i].2) by {
            if i < s.len() - 1 {
                assert(d[i] == s[i]);
                assert(s[i].0 != s.last().0);
            }
        }
        assert(!entries_map(d).contains_key(s.last().0)) by {
            if entries_map(d).contains_key(s.last().0) {
                let i = choose|i: int| 0 <= i < d.len() && #[trigger] d[i].0 == s.last().0;
                assert(s[i].0 == s[s.len() - 1].0);
            }
        }
    }
}

/// Two entry lists with distinct ids and the same entries hold the same map.
proof fn lemma_map_ext<T>(s: Seq<(u64, T, u64)>, m: Map<u64, (T, u64)>)
    requires
        ids_unique(s),
        forall|k: u64| m.contains_key(k) <==> exists|i: int| 0 <= i < s.len() && #[trigger] s[i].0 == k,
        forall|i: int| 0 <= i < s.len() ==> #[trigger] m[s[i].0] == (s[i].1, s[i].2),
    ensures
        entries_map(s) == m,
{
    lemma_entries_map(s);
    assert forall|k: u64| #[trigger] entries_map(s).contains_key(k) implies entries_map(s)[k] == m[k] by {
        let i = choose|i: int| 0 <= i < s.len() && #[trigger] s[i].0 == k;
    }
    assert(entries_map(s) =~= m);
}

/// `s` lists the channels of `m`: each listed one belongs to some entry and
/// every entry's channel is listed.
pub open spec fn lists_senders<T>(m: Map<u64, (T, u64)>, s: Seq<T>) -> bool {
    &&& forall|i: int| 0 <= i < s.len() ==> #[trigger] sender_in(m, s[i])
    &&& forall|k: u64| #[trigger] m.contains_key(k) ==> s.contains(m[k].0)
}

/// `t` is the channel of some entry of `m`.
pub open spec fn sender_in<T>(m: Map<u64, (T, u64)>, t: T) -> bool {
    exists|k: u64| m.contains_key(k) && #[trigger] m[k] == (t, m[k].1)
}

/// The channels of a list of entries, in order.
pub open spec fn senders<T>(s: Seq<(u64, T, u64)>) -> Seq<T> {
    Seq::new(s.len(), |q: int| s[q].1)
}

proof fn lemma_lists_senders<T>(before: Seq<(u64, T, u64)>)
    requires
        ids_unique(before),
    ensures
        lists_senders(entries_map(before), senders(before)),
{
    lemma_entries_map(before);
    let m = entries_map(before);
    let s = senders(before);
    assert forall|i: int| 0 <= i < s.len() implies #[trigger] sender_in(m, s[i]) by {
        assert(m[before[i].0] == (before[i].1, before[i].2));
        assert(m.contains_key(before[i].0));
    }
    assert forall|k: u64| #[trigger] m.contains_key(k) implies s.contains(m[k].0) by {
        let p = choose|p: int| 0 <= p < before.len() && #[trigger] before[p].0 == k;
        assert(m[before[p].0] == (before[p].1, before[p].2));
        assert(s[p] == m[k].0);
    }
    assert(lists_senders(m, s));
}

impl<T> View for PendingMap<T> {
    type V = Map<u64, (T, u64)>;

    closed spec fn view(&self) -> Map<u64, (T, u64)> {
        entries_map(self.entries@)
    }
}

/// The entries whose deadline is after `now`.
pub open spec fn unexpired<T>(m: Map<u64, (T, u64)>, now: u64) -> Map<u64, (T, u64)> {
    m.restrict(m.dom().filter(|k: u64| m[k].1 > now))
}

impl<T> PendingMap<T> {
    /// The invariant: no id occurs twice.
    pub closed spec fn wf(&self) -> bool {
        ids_unique(self.entries@)
    }

    /// An empty map.
    pub fn new() -> (r: Self)
        ensures
            r.wf(),
            r@ == Map::<u64, (T, u64)>::empty(),
    {
        PendingMap { entries: Vec::new() }
    }

    fn position(&self, id: u64) -> (r: Option<usize>)
        requires
            self.wf(),
        ensures
            match r {
                Some(i) => i < self.entries@.len() && self.entries@[i as int].0 == id,
                None => !self@.contains_key(id),
            },
    {
        proof { lemma_entries_map(self.entries@); }
        let mut i: usize = 0;
        while i < self.entries.len()
            invariant
                i <= self.entries@.len(),
                forall|j: int| 0 <= j < i ==> self.entries@[j].0 != id,
            decreases self.entries.len() - i,
        {
            if self.entries[i].0 == id {
                return Some(i);
            }
            i = i + 1;
        }
        None
    }

    /// Records a request; an entry with the same id is replaced.
    pub fn insert(&mut self, id: u64, tx: T, deadline: u64)
        requires
            old(self).wf(),
        ensures
            final(self).wf(),
            final(self)@ == old(self)@.insert(id, (tx, deadline)),
    {
        proof { lemma_entries_map(self.entries@); }
        let ghost before = self.entries@;
        match self.position(id) {
            Some(i) => {
                let ghost entry = (id, tx, deadline);
                self.entries.set(i, (id, tx, deadline));
                let ghost after = self.entries@;
                assert(after =~= before.update(i as int, entry));
                assert(ids_unique(after)) by {
                    assert forall|a: int, b: int| 0 <= a < b < after.len() implies after[a].0 != after[b].0 by {
                        assert(after[a].0 == before[a].0);
                        assert(after[b].0 == before[b].0);
                    }
                }
                proof {
                    let target = entries_map(before).insert(id, (entry.1, entry.2));
                    assert forall|k: u64| target.contains_key(k) <==> exists|q: int| 0 <= q < after.len() && #[trigger] after[q].0 == k by {
                        if target.contains_key(k) {
                            if k == id {
                                assert(after[i as int].0 == k);
                            } else {
                                let p = choose|p: int| 0 <= p < before.len() && #[trigger] before[p].0 == k;
                                assert(after[p].0 == k);
                            }
                        }
                        if exists|q: int| 0 <= q < after.len() && #[trigger] after[q].0 == k {
                            let q = choose|q: int| 0 <= q < after.len() && #[trigger] after[q].0 == k;
                            if q != i {
                                assert(after[q] == before[q]);
                            }
                        }
                    }
                    assert forall|q: int| 0 <= q < after.len() implies #[trigger] target[after[q].0] == (after[q].1, after[q].2) by {
                        if q != i {
                            assert(after[q] == before[q]);
                            assert(before[q].0 != before[i as int].0);
                        }
                    }
                    lemma_map_ext(after, target);
                }
            },
            None => {
                self.entries.push((id, tx, deadline));
                assert(self.entries@.drop_last() =~= before);
                assert(ids_unique(self.entries@)) by {
                    assert forall|a: int, b: int| 0 <= a < b < self.entries@.len()
                        implies self.entries@[a].0 != self.entries@[b].0 by {
                        if b == self.entries@.len() - 1 {
                            assert(before[a].0 != id) by {
                                if before[a].0 == id {
                                    assert(entries_map(before).contains_key(id));
                                }
                            }
                        }
                    }
                }
            },
        }
    }

    /// Removes a request and gives back its channel, if it was there.
    pub fn take(&mut self, id: u64) -> (r: Option<T>)
        requires
            old(self).wf(),
        ensures
            final(self).wf(),
            final(self)@ == old(self)@.remove(id),
            match r {
                Some(tx) => old(self)@.contains_key(id) && tx == old(self)@[id].0,
                None => !old(self)@.contains_key(id),
            },
    {
        proof { lemma_entries_map(self.entries@); }
        let ghost before = self.entries@;
        match self.position(id) {
            Some(i) => {
                let (_, tx, _) = self.entries.remove(i);
                let ghost after = self.entries@;
                assert(after =~= before.remove(i as int));
                assert(ids_unique(after)) by {
                    assert forall|a: int, b: int| 0 <= a < b < after.len() implies after[a].0 != after[b].0 by {
                        let a0 = if a < i { a } else { a + 1 };
                        let b0 = if b < i { b } else { b + 1 };
                        assert(after[a] == before[a0]);
                        assert(after[b] == before[b0]);
                    }
                }
                proof {
                    let target = entries_map(before).remove(id);
                    assert forall|k: u64| target.contains_key(k) <==> exists|q: int| 0 <= q < after.len() && #[trigger] after[q].0 == k by {
                        if target.contains_key(k) {
                            let p = choose|p: int| 0 <= p < before.len() && #[trigger] before[p].0 == k;
                            let q = if p < i { p } else { p - 1 };
                            assert(after[q] == before[p]);
                        }
                        if exists|q: int| 0 <= q < after.len() && #[trigger] after[q].0 == k {
                            let q = choose|q: int| 0 <= q < after.len() && #[trigger] after[q].0 == k;
                            let p = if q < i { q } else { q + 1 };
                            assert(after[q] == before[p]);
                            assert(before[p].0 != id);
                        }
                    }
                    assert forall|q: int| 0 <= q < after.len() implies #[trigger] target[after[q].0] == (after[q].1, after[q].2) by {
                        let p = if q < i { q } else { q + 1 };
                        assert(after[q] == before[p]);
                    }
                    lemma_map_ext(after, target);
                }
                Some(tx)
            },
            None => {
                assert(entries_map(before).remove(id) =~= entries_map(before));
                None
            },
        }
    }

    /// Drops the requests whose deadline is not after `now` (nobody waits for
    /// their answer any more) and says how many there were.
    pub fn remove_expired(&mut self, now: u64) -> (r: usize)
        requires
            old(self).wf(),
        ensures
            final(self).wf(),
            final(self)@ == unexpired(old(self)@, now),
            r == old(self)@.len() - final(self)@.len(),
    {
        proof { lemma_entries_map(self.entries@); }
        let ghost before = self.entries@;
        let ghost target = unexpired(entries_map(before), now);
        assert(before.skip(0) =~= before);
        let mut rest: Vec<(u64, T, u64)> = Vec::new();
        std::mem::swap(&mut rest, &mut self.entries);
        let n = rest.len();
        let mut kept: Vec<(u64, T, u64)> = Vec::new();
        let mut removed: usize = 0;
        let mut i: usize = 0;
        while i < n
            invariant
                i <= n,
                n == before.len(),
                rest@ == before.skip(i as int),
                ids_unique(before),
                ids_unique(kept@),
                removed + kept@.len() == i,
                forall|q: int| 0 <= q < kept@.len() ==> #[trigger] kept@[q].2 > now,
                forall|k: u64| #[trigger] has_id(kept@, k) <==> live_in_prefix(before, i as int, k, now),
                forall|q: int| #![trigger kept@[q]] 0 <= q < kept@.len() ==> exists|p: int| 0 <= p < i && #[trigger] before[p] == kept@[q],
            decreases n - i,
        {
            let e = rest.remove(0);
            assert(e == before[i as int]);
            assert(rest@ =~= before.skip(i + 1));
            if e.2 > now {
                let ghost prev = kept@;
                kept.push(e);
                assert(ids_unique(kept@)) by {
                    assert forall|a: int, b: int| 0 <= a < b < kept@.len() implies kept@[a].0 != kept@[b].0 by {
                        if b == kept@.len() - 1 {
                            let p = choose|p: int| 0 <= p < i && #[trigger] before[p] == prev[a];
                            assert(before[p].0 != before[i as int].0);
                        }
                    }
                }
                assert forall|k: u64| #[trigger] has_id(kept@, k) <==> live_in_prefix(before, i + 1, k, now) by {
                    assert(has_id(prev, k) <==> live_in_prefix(before, i as int, k, now));
                    if has_id(kept@, k) {
                        let q = choose|q: int| 0 <= q < kept@.len() && #[trigger] kept@[q].0 == k;
                        if q < prev.len() {
                            assert(prev[q].0 == k);
                        } else {
                            assert(before[i as int].0 == k);
                        }
                    }
                    if live_in_prefix(before, i + 1, k, now) {
                        let p = choose|p: int| 0 <= p < i + 1 && #[trigger] before[p].0 == k && before[p].2 > now;
                        if p < i {
                            let q = choose|q: int| 0 <= q < prev.len() && #[trigger] prev[q].0 == k;
                            assert(kept@[q].0 == k);
                        } else {
                            assert(kept@[kept@.len() - 1].0 == k);
                        }
                    }
                }
                assert forall|q: int| #![trigger kept@[q]] 0 <= q < kept@.len() implies exists|p: int| 0 <= p < i + 1 && #[trigger] before[p] == kept@[q] by {
                    if q < prev.len() {
                        let p = choose|p: int| 0 <= p < i && #[trigger] before[p] == prev[q];
                        assert(before[p] == kept@[q]);
                    } else {
                        assert(before[i as int] == kept@[q]);
                    }
                }
            } else {
                removed = removed + 1;
                assert forall|k: u64| #[trigger] has_id(kept@, k) <==> live_in_prefix(before, i + 1, k, now) by {
                    assert(has_id(kept@, k) <==> live_in_prefix(before, i as int, k, now));
                    if live_in_prefix(before, i + 1, k, now) {
                        let p = choose|p: int| 0 <= p < i + 1 && #[trigger] before[p].0 == k && before[p].2 > now;
                        assert(p != i);
                    }
                }
            }
            i = i + 1;
        }
        proof {
            lemma_entries_map(kept@);
            let bm = entries_map(before);
            assert forall|k: u64| target.contains_key(k) <==> exists|q: int| 0 <= q < kept@.len() && #[trigger] kept@[q].0 == k by {
                if target.contains_key(k) {
                    let p = choose|p: int| 0 <= p < before.len() && #[trigger] before[p].0 == k;
                    assert(bm[before[p].0] == (before[p].1, before[p].2));
                    assert(live_in_prefix(before, i as int, k, now));
                    assert(has_id(kept@, k));
                }
                if exists|q: int| 0 <= q < kept@.len() && #[trigger] kept@[q].0 == k {
                    assert(has_id(kept@, k));
                    let p = choose|p: int| 0 <= p < i && #[trigger] before[p].0 == k && before[p].2 > now;
                    assert(bm[before[p].0] == (before[p].1, before[p].2));
                }
            }
            assert forall|q: int| 0 <= q < kept@.len() implies #[trigger] target[kept@[q].0] == (kept@[q].1, kept@[q].2) by {
                let p = choose|p: int| 0 <= p < i && #[trigger] before[p] == kept@[q];
                assert(bm[before[p].0] == (before[p].1, before[p].2));
            }
            lemma_map_ext(kept@, target);
        }
        self.entries = kept;
        removed
    }

    /// How many requests wait.
    pub fn len(&self) -> (r: usize)
        requires
            self.wf(),
        ensures
            r == self@.len(),
    {
        proof { lemma_entries_map(self.entries@); }
        self.entries.len()
    }

    /// Empties the map and hands out every waiting channel together with the
    /// 503 answer it is owed because the server is stopping.
    pub fn drain_503(&mut self) -> (r: Vec<(T, HttpResponse)>)
        requires
            old(self).wf(),
        ensures
            final(self).wf(),
            final(self)@ == Map::<u64, (T, u64)>::empty(),
            r@.len() == old(self)@.len(),
            forall|i: int| 0 <= i < r@.len() ==> (#[trigger] r@[i]).1@ == shutdown_response_v(),
            lists_senders(old(self)@, Seq::new(r@.len(), |i: int| r@[i].0)),
    {
        proof { lemma_entries_map(self.entries@); }
        let ghost before = self.entries@;
        assert(before.skip(0) =~= before);
        let mut rest: Vec<(u64, T, u64)> = Vec::new();
        std::mem::swap(&mut rest, &mut self.entries);
        let n = rest.len();
        let mut out: Vec<(T, HttpResponse)> = Vec::new();
        let mut i: usize = 0;
        while i < n
            invariant
                i <= n,
                n == before.len(),
                rest@ == before.skip(i as int),
                out@.len() == i,
                forall|q: int| 0 <= q < i ==> (#[trigger] out@[q]).0 == before[q].1,
                forall|q: int| 0 <= q < i ==> (#[trigger] out@[q]).1@ == shutdown_response_v(),
            decreases n - i,
        {
            let e = rest.remove(0);
            assert(e == before[i as int]);
            assert(rest@ =~= before.skip(i + 1));
            out.push((e.1, shutdown_response()));
            i = i + 1;
        }
        proof {
            lemma_lists_senders(before);
            assert(Seq::new(out@.len(), |q: int| out@[q].0) =~= senders(before));
            assert(entries_map(self.entries@) =~= Map::<u64, (T, u64)>::empty());
        }
        out
    }
}

/// A request recorded with `insert` is what `take` gives back for its id,
/// and taking it leaves what was there before, without that id.
pub proof fn law_take_after_insert<T>(m: Map<u64, (T, u64)>, id: u64, tx: T, deadline: u64)
    ensures
        m.insert(id, (tx, deadline)).contains_key(id),
        m.insert(id, (tx, deadline))[id].0 == tx,
        m.insert(id, (tx, deadline)).remove(id) == m.remove(id),
{
    assert(m.insert(id, (tx, deadline)).remove(id) =~= m.remove(id));
}

/// After dropping expired requests, every request left has a deadline
/// after `now`, and nothing that had one was dropped.
pub proof fn law_remove_expired_keeps_live<T>(m: Map<u64, (T, u64)>, now: u64)
    ensures
        forall|k: u64| #[trigger] unexpired(m, now).contains_key(k) ==> unexpired(m, now)[k].1 > now,
        forall|k: u64| m.contains_key(k) && m[k].1 > now ==> #[trigger] unexpired(m, now).contains_key(k)
            && unexpired(m, now)[k] == m[k],
{
}

} // verus!
