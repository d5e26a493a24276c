use vstd::prelude::*;

verus! {

/// An event arriving from the transport: who sent it, its text, and when it
/// was seen. Transient: never stored beyond correlation matching.
pub struct InboundEvent {
    pub sender_identity: i64,
    pub text: String,
    pub received_at: u64,
}

/// Bookkeeping for a sent-but-unanswered request, alive from the moment a
/// send succeeds until it is matched, times out, or is cancelled.
#[derive(Clone, Copy, Debug, PartialEq, Eq, Structural)]
pub struct PendingEntry {
    pub request_id: u64,
    pub identity: i64,
    pub sent_at: u64,
    pub deadline: u64,
}

/// No two pending entries belong to the same request.
pub open spec fn distinct_pending(s: Seq<PendingEntry>) -> bool {
    forall|i: int, j: int| 0 <= i < j < s.len() ==> s[i].request_id != s[j].request_id
}

/// Some entry belongs to the request `id`.
pub open spec fn contains_id(s: Seq<PendingEntry>, id: u64) -> bool {
    exists|i: int| 0 <= i < s.len() && s[i].request_id == id
}

/// The request ids of the entries, in order.
pub open spec fn ids_of(s: Seq<PendingEntry>) -> Seq<u64> {
    s.map_values(|e: PendingEntry| e.request_id)
}

/// Index of the oldest entry whose awaited identity equals `who`, or -1
/// when no entry matches.
pub open spec fn first_match(s: Seq<PendingEntry>, who: i64) -> int
    decreases s.len(),
{
    if s.len() == 0 {
        -1
    } else if s[0].identity == who {
        0
    } else if first_match(s.drop_first(), who) == -1 {
        -1
    } else {
        1 + first_match(s.drop_first(), who)
    }
}

/// The entries whose deadline has not yet passed at `now`, in registration
/// order.
pub open spec fn live_entries(s: Seq<PendingEntry>, now: u64) -> Seq<PendingEntry>
    decreases s.len(),
{
    if s.len() == 0 {
        Seq::empty()
    } else {
        let rest = live_entries(s.drop_last(), now);
        if s.last().deadline > now {
            rest.push(s.last())
        } else {
            rest
        }
    }
}

/// The entries whose deadline has passed at `now`, in registration order.
pub open spec fn expired_entries(s: Seq<PendingEntry>, now: u64) -> Seq<PendingEntry>
    decreases s.len(),
{
    if s.len() == 0 {
        Seq::empty()
    } else {
        let rest = expired_entries(s.drop_last(), now);
        if s.last().deadline <= now {
            rest.push(s.last())
        } else {
            rest
        }
    }
}

/// Matches inbound events to outstanding sent requests and enforces their
/// deadlines. Entries are held in registration order, oldest first, so the
/// oldest outstanding await for an identity is resolved first.
pub struct ResponseCorrelator {
    pub pending: Vec<PendingEntry>,
}

impl View for ResponseCorrelator {
    type V = Seq<PendingEntry>;

    open spec fn view(&self) -> Seq<PendingEntry> {
        self.pending@
    }
}

impl ResponseCorrelator {
    /// Well-formedness: at most one pending entry per request.
    pub open spec fn inv(self) -> bool {
        distinct_pending(self.pending@)
    }

    pub fn new() -> (c: Self)
        ensures
            c.inv(),
            c@ == Seq::<PendingEntry>::empty(),
    {
        ResponseCorrelator { pending: Vec::new() }
    }

    /// How many requests are awaiting a reply.
    pub fn len(&self) -> (n: usize)
        ensures
            n == self@.len(),
    {
        self.pending.len()
    }

    /// Is some entry awaiting a reply for the request `id`?
    pub fn is_pending(&self, id: u64) -> (b: bool)
        ensures
            b == contains_id(self@, id),
    {
        let n = self.pending.len();
        let mut i: usize = 0;
        while i < n
            invariant
                i <= n,
                n == self.pending@.len(),
                forall|j: int| 0 <= j < i ==> (#[trigger] self.pending@[j]).request_id != id,
            decreases n - i,
        {
            if self.pending[i].request_id == id {
                return true;
            }
            i = i + 1;
        }
        false
    }

    /// Arms an await for a freshly sent request: registers an entry whose
    /// deadline is exactly `now + timeout`. A request that is already
    /// pending is refused, so at most one entry per in-flight dispatch
    /// exists.
    pub fn register(&mut self, request_id: u64, identity: i64, now: u64, timeout: u64) -> (armed:
        bool)
        requires
            old(self).inv(),
            now + timeout <= u64::MAX,
        ensures
            final(self).inv(),
            armed == !contains_id(old(self)@, request_id),
            armed ==> final(self)@ == old(self)@.push(
                PendingEntry { request_id, identity, sent_at: now, deadline: (now + timeout) as u64 },
            ),
            !armed ==> final(self)@ == old(self)@,
    {
        let n = self.pending.len();
        let mut i: usize = 0;
        while i < n
            invariant
                i <= n,
                n == self.pending@.len(),
                self == old(self),
                old(self).inv(),
                forall|j: int|
                    0 <= j < i ==> (#[trigger] self.pending@[j]).request_id != request_id,
            decreases n - i,
        {
            if self.pending[i].request_id == request_id {
                return false;
            }
            i = i + 1;
        }
        let entry = PendingEntry { request_id, identity, sent_at: now, deadline: now + timeout };
        self.pending.push(entry);
        true
    }

    /// Correlates an inbound event: resolves the oldest pending entry whose
    /// awaited identity equals the event's sender, removing exactly that
    /// entry and returning its request id. An event that matches nothing is
    /// unsolicited and is dropped.
    pub fn feed(&mut self, event: &InboundEvent) -> (r: Option<u64>)
        requires
            old(self).inv(),
        ensures
            final(self).inv(),
            first_match(old(self)@, event.sender_identity) == -1 ==> r is None && final(self)@
                == old(self)@,
            first_match(old(self)@, event.sender_identity) != -1 ==> {
                let k = first_match(old(self)@, event.sender_identity);
                &&& r == Some(old(self)@[k].request_id)
                &&& final(self)@ == old(self)@.remove(k)
            },
    {
        let n = self.pending.len();
        let mut i: usize = 0;
        while i < n
            invariant
                i <= n,
                n == self.pending@.len(),
                self == old(self),
                old(self).inv(),
                forall|j: int|
                    0 <= j < i ==> (#[trigger] self.pending@[j]).identity
                        != event.sender_identity,
            decreases n - i,
        {
            if self.pending[i].identity == event.sender_identity {
                proof {
                    lemma_first_match_at(self.pending@, event.sender_identity, i as int);
                    lemma_remove_keeps_distinct(self.pending@, i as int);
                }
                let e = self.pending.remove(i);
                return Some(e.request_id);
            }
            i = i + 1;
        }
        proof {
            lemma_first_match_at(self.pending@, event.sender_identity, n as int);
        }
        None
    }

    /// Fires timeouts: removes every entry whose deadline has passed at
    /// `now` and returns their request ids in registration order. Entries
    /// still within their deadline stay, in order.
    pub fn expire(&mut self, now: u64) -> (fired: Vec<u64>)
        requires
            old(self).inv(),
        ensures
            final(self).inv(),
            final(self)@ == live_entries(old(self)@, now),
            fired@ == ids_of(expired_entries(old(self)@, now)),
    {
        let n = self.pending.len();
        let mut kept: Vec<PendingEntry> = Vec::new();
        let mut fired: Vec<u64> = Vec::new();
        let mut i: usize = 0;
        while i < n
            invariant
                i <= n,
                n == self.pending@.len(),
                self == old(self),
                kept@ == live_entries(self.pending@.subrange(0, i as int), now),
                fired@ == ids_of(expired_entries(self.pending@.subrange(0, i as int), now)),
            decreases n - i,
        {
            let e = self.pending[i];
            proof {
                let pre = self.pending@.subrange(0, i as int);
                let cur = self.pending@.subrange(0, i as int + 1);
                assert(cur.drop_last() =~= pre);
                assert(cur.last() == self.pending@[i as int]);
                assert(ids_of(expired_entries(pre, now).push(self.pending@[i as int])) =~= ids_of(
                    expired_entries(pre, now),
                ).push(self.pending@[i as int].request_id));
            }
            if e.deadline > now {
                kept.push(e);
            } else {
                fired.push(e.request_id);
            }
            i = i + 1;
        }
        proof {
            assert(self.pending@.subrange(0, n as int) =~= self.pending@);
            lemma_live_expired_partition(self.pending@, now);
        }
        self.pending = kept;
        fired
    }

    /// Shutdown: resolves every outstanding await at once, returning all
    /// pending request ids in registration order and leaving nothing
    /// pending.
    pub fn cancel_all(&mut self) -> (ids: Vec<u64>)
        requires
            old(self).inv(),
        ensures
            final(self).inv(),
            final(self)@ == Seq::<PendingEntry>::empty(),
            ids@ == ids_of(old(self)@),
    {
        let n = self.pending.len();
        let mut ids: Vec<u64> = Vec::new();
        let mut i: usize = 0;
        while i < n
            invariant
                i <= n,
                n == self.pending@.len(),
                self == old(self),
                ids@ == ids_of(self.pending@.subrange(0, i as int)),
            decreases n - i,
        {
            proof {
                let pre = self.pending@.subrange(0, i as int);
                let cur = self.pending@.subrange(0, i as int + 1);
                assert(cur =~= pre.push(self.pending@[i as int]));
                assert(ids_of(pre.push(self.pending@[i as int])) =~= ids_of(pre).push(
                    self.pending@[i as int].request_id,
                ));
            }
            ids.push(self.pending[i].request_id);
            i = i + 1;
        }
        proof {
            assert(self.pending@.subrange(0, n as int) =~= self.pending@);
        }
        self.pending.clear();
        ids
    }
}

/// A prefix of entries that do not match, stopped either at the end or at a
/// matching entry, pins down `first_match`.
proof fn lemma_first_match_at(s: Seq<PendingEntry>, who: i64, i: int)
    requires
        0 <= i <= s.len(),
        forall|j: int| 0 <= j < i ==> (#[trigger] s[j]).identity != who,
        i < s.len() ==> s[i].identity == who,
    ensures
        i == s.len() ==> first_match(s, who) == -1,
        i < s.len() ==> first_match(s, who) == i,
    decreases i,
{
    if s.len() == 0 {
    } else if i == 0 {
    } else {
        assert(forall|j: int| 0 <= j < i - 1 ==> s.drop_first()[j] == #[trigger] s[j + 1]);
        lemma_first_match_at(s.drop_first(), who, i - 1);
    }
}

/// Removing one entry keeps request ids distinct, and every surviving entry
/// was already there.
proof fn lemma_remove_keeps_distinct(s: Seq<PendingEntry>, k: int)
    requires
        distinct_pending(s),
        0 <= k < s.len(),
    ensures
        distinct_pending(s.remove(k)),
    {
    s.remove_ensures(k);
    let t = s.remove(k);
    assert forall|i: int, j: int| 0 <= i < j < t.len() implies t[i].request_id
        != t[j].request_id by {
        if i < k {
            assert(t[i] == s[i]);
        } else {
            assert(t[i] == s[i + 1]);
        }
        if j < k {
            assert(t[j] == s[j]);
        } else {
            assert(t[j] == s[j + 1]);
        }
    }
}

/// Firing timeouts splits the pending entries in two: the still-live ones
/// and the expired ones. Each side keeps distinct request ids, each side's
/// entries all come from the table before the split, and no request id sits
/// on both sides.
pub proof fn lemma_live_expired_partition(s: Seq<PendingEntry>, now: u64)
    requires
        distinct_pending(s),
    ensures
        distinct_pending(live_entries(s, now)),
        distinct_pending(expired_entries(s, now)),
        forall|i: int|
            0 <= i < live_entries(s, now).len() ==> contains_id(
                s,
                (#[trigger] live_entries(s, now)[i]).request_id,
            ),
        forall|i: int|
            0 <= i < expired_entries(s, now).len() ==> contains_id(
                s,
                (#[trigger] expired_entries(s, now)[i]).request_id,
            ),
        forall|id: u64| !(contains_id(live_entries(s, now), id) && contains_id(
            expired_entries(s, now),
            id,
        )),
    decreases s.len(),
{
    if s.len() == 0 {
    } else {
        let d = s.drop_last();
        let last = s.last();
        assert(forall|j: int| 0 <= j < d.len() ==> d[j] == #[trigger] s[j]);
        assert(distinct_pending(d));
        lemma_live_expired_partition(d, now);
        assert forall|j: int| 0 <= j < d.len() implies (#[trigger] d[j]).request_id
            != last.request_id by {
            assert(s[j] == d[j]);
            assert(s[s.len() - 1] == last);
        }
        let lv = live_entries(s, now);
        let ex = expired_entries(s, now);
        let lvd = live_entries(d, now);
        let exd = expired_entries(d, now);
        if last.deadline > now {
            assert(lv == lvd.push(last));
            assert(ex == exd);
            assert forall|i: int, j: int| 0 <= i < j < lv.len() implies lv[i].request_id
                != lv[j].request_id by {
                if j < lv.len() - 1 {
                    assert(lv[i] == lvd[i] && lv[j] == lvd[j]);
                } else {
                    assert(lv[j] == last);
                    assert(lv[i] == lvd[i]);
                    assert(contains_id(d, lvd[i].request_id));
                }
            }
            assert forall|i: int|
                0 <= i < lv.len() implies contains_id(s, (#[trigger] lv[i]).request_id) by {
                if i < lv.len() - 1 {
                    assert(lv[i] == lvd[i]);
                    let w = choose|w: int| 0 <= w < d.len() && d[w].request_id
                        == lvd[i].request_id;
                    assert(s[w].request_id == lv[i].request_id);
                } else {
                    assert(lv[i] == last);
                    assert(s[s.len() - 1].request_id == lv[i].request_id);
                }
            }
            assert forall|i: int|
                0 <= i < ex.len() implies contains_id(s, (#[trigger] ex[i]).request_id) by {
                assert(ex[i] == exd[i]);
                let w = choose|w: int| 0 <= w < d.len() && d[w].request_id == exd[i].request_id;
                assert(s[w].request_id == ex[i].request_id);
            }
            assert forall|id: u64| !(contains_id(lv, id) && contains_id(ex, id)) by {
                if contains_id(lv, id) && contains_id(ex, id) {
                    let i = choose|i: int| 0 <= i < lv.len() && lv[i].request_id == id;
                    let j = choose|j: int| 0 <= j < ex.len() && ex[j].request_id == id;
                    if i < lv.len() - 1 {
                        assert(lv[i] == lvd[i]);
                        assert(contains_id(lvd, id));
                        assert(contains_id(exd, id));
                    } else {
                        assert(lv[i] == last);
                        assert(ex[j] == exd[j]);
                        assert(contains_id(d, exd[j].request_id));
                    }
                }
            }
        } else {
            assert(ex == exd.push(last));
            assert(lv == lvd);
            assert forall|i: int, j: int| 0 <= i < j < ex.len() implies ex[i].request_id
                != ex[j].request_id by {
                if j < ex.len() - 1 {
                    assert(ex[i] == exd[i] && ex[j] == exd[j]);
                } else {
                    assert(ex[j] == last);
                    assert(ex[i] == exd[i]);
                    assert(contains_id(d, exd[i].request_id));
                }
            }
            assert forall|i: int|
                0 <= i < ex.len() implies contains_id(s, (#[trigger] ex[i]).request_id) by {
                if i < ex.len() - 1 {
                    assert(ex[i] == exd[i]);
                    let w = choose|w: int| 0 <= w < d.len() && d[w].request_id
                        == exd[i].request_id;
                    assert(s[w].request_id == ex[i].request_id);
                } else {
                    assert(ex[i] == last);
                    assert(s[s.len() - 1].request_id == ex[i].request_id);
                }
            }
            assert forall|i: int|
                0 <= i < lv.len() implies contains_id(s, (#[trigger] lv[i]).request_id) by {
                assert(lv[i] == lvd[i]);
                let w = choose|w: int| 0 <= w < d.len() && d[w].request_id == lvd[i].request_id;
                assert(s[w].request_id == lv[i].request_id);
            }
            assert forall|id: u64| !(contains_id(lv, id) && contains_id(ex, id)) by {
                if contains_id(lv, id) && contains_id(ex, id) {
                    let i = choose|i: int| 0 <= i < lv.len() && lv[i].request_id == id;
                    let j = choose|j: int| 0 <= j < ex.len() && ex[j].request_id == id;
                    if j < ex.len() - 1 {
                        assert(ex[j] == exd[j]);
                        assert(contains_id(exd, id));
                        assert(contains_id(lvd, id));
                    } else {
                        assert(ex[j] == last);
                        assert(lv[i] == lvd[i]);
                        assert(contains_id(d, lvd[i].request_id));
                    }
                }
            }
        }
    }
}

/// Resolving is exact: the oldest matching await and nothing else. When
/// `first_match` finds an index, that entry matches the sender and every
/// older entry does not; when it finds none, no entry matches at all.
pub proof fn lemma_feed_resolves_oldest(s: Seq<PendingEntry>, who: i64)
    ensures
        first_match(s, who) == -1 ==> forall|i: int|
            0 <= i < s.len() ==> (#[trigger] s[i]).identity != who,
        first_match(s, who) != -1 ==> {
            let k = first_match(s, who);
            &&& 0 <= k < s.len()
            &&& s[k].identity == who
            &&& forall|i: int| 0 <= i < k ==> (#[trigger] s[i]).identity != who
        },
    decreases s.len(),
{
    if s.len() == 0 {
    } else if s[0].identity == who {
    } else {
        let sub = s.drop_first();
        lemma_feed_resolves_oldest(sub, who);
        assert(forall|j: int| 0 <= j < sub.len() ==> #[trigger] sub[j] == s[j + 1]);
        if first_match(sub, who) == -1 {
            assert(first_match(s, who) == -1);
            assert forall|i: int| 0 <= i < s.len() implies (#[trigger] s[i]).identity != who by {
                if i > 0 {
                    assert(sub[i - 1] == s[i]);
                }
            }
        } else {
            let kd = first_match(sub, who);
            assert(first_match(s, who) == 1 + kd);
            assert(s[1 + kd] == sub[kd]);
            assert forall|i: int| 0 <= i < 1 + kd implies (#[trigger] s[i]).identity != who by {
                if i > 0 {
                    assert(sub[i - 1] == s[i]);
                }
            }
        }
    }
}

/// A fired timeout removes its pending entry for good: once a request's
/// entry has expired at `now`, no entry for that request survives, so a
/// late matching event cannot resolve it again.
pub proof fn lemma_late_event_dropped(s: Seq<PendingEntry>, now: u64, id: u64)
    requires
        distinct_pending(s),
        contains_id(expired_entries(s, now), id),
    ensures
        !contains_id(live_entries(s, now), id),
{
    lemma_live_expired_partition(s, now);
}

} // verus!
