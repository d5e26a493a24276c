use vstd::prelude::*;
use vstd::seq_lib::group_to_multiset_ensures;
use crate::error::SubmitError;

verus! {

/// Priority tier of a request: a totally ordered ordinal, highest served
/// first. All ordering code goes through `level_spec`, so further tiers can
/// be added without touching the queue's ordering logic.
#[derive(Clone, Copy, Debug, PartialEq, Eq, Structural)]
pub enum RequestPriority {
    Low,
    Normal,
    High,
    Emergency,
}

impl RequestPriority {
    /// The ordinal rank of this tier.
    pub open spec fn level_spec(self) -> int {
        match self {
            RequestPriority::Low => 0,
            RequestPriority::Normal => 1,
            RequestPriority::High => 2,
            RequestPriority::Emergency => 3,
        }
    }

    /// Executable ordinal rank.
    pub fn level(self) -> (n: u32)
        ensures
            n as int == self.level_spec(),
    {
        match self {
            RequestPriority::Low => 0,
            RequestPriority::Normal => 1,
            RequestPriority::High => 2,
            RequestPriority::Emergency => 3,
        }
    }
}

/// A request admitted to the queue. `id` is assigned at admission from a
/// monotonically increasing counter and doubles as the tie-break sequence
/// number among equal priorities; it is unique within one queue. A request
/// is immutable once admitted.
pub struct Request {
    pub id: u64,
    pub payload: String,
    pub priority: RequestPriority,
    pub submitted_at: u64,
}

/// `a` is served strictly before `b`: higher tier first, and among equal
/// tiers the smaller (older) admission number first.
pub open spec fn beats(a: Request, b: Request) -> bool {
    ||| a.priority.level_spec() > b.priority.level_spec()
    ||| (a.priority.level_spec() == b.priority.level_spec() && a.id < b.id)
}

/// Sorted by the dispatch key: priority descending, ties by admission order.
pub open spec fn ordered(s: Seq<Request>) -> bool {
    forall|i: int, j: int| 0 <= i < j < s.len() ==> beats(s[i], s[j])
}

/// No two entries carry the same admission number.
pub open spec fn distinct_ids(s: Seq<Request>) -> bool {
    forall|i: int, j: int| 0 <= i < j < s.len() ==> s[i].id != s[j].id
}

/// Where a newly admitted request lands: directly after every entry that
/// beats it, so equal priorities keep their admission order.
pub open spec fn insert_pos(s: Seq<Request>, r: Request) -> int
    decreases s.len(),
{
    if s.len() == 0 {
        0
    } else if beats(s[0], r) {
        1 + insert_pos(s.drop_first(), r)
    } else {
        0
    }
}

/// Ordered container of pending requests. The backing vector is kept sorted
/// by the dispatch key, which is what makes repeated `pop` drain requests in
/// priority order with first-in-first-out ties.
pub struct PriorityQueue {
    pub items: Vec<Request>,
    pub next_seq: u64,
    pub capacity: Option<usize>,
}

impl View for PriorityQueue {
    type V = Seq<Request>;

    open spec fn view(&self) -> Seq<Request> {
        self.items@
    }
}

impl PriorityQueue {
    /// Well-formedness: sorted by the dispatch key, admission numbers unique
    /// and all below the counter that the next admission will use.
    pub open spec fn inv(self) -> bool {
        &&& ordered(self.items@)
        &&& distinct_ids(self.items@)
        &&& forall|i: int|
            0 <= i < self.items@.len() ==> (#[trigger] self.items@[i]).id < self.next_seq
    }

    /// An unbounded queue.
    pub fn new() -> (q: Self)
        ensures
            q.inv(),
            q@ == Seq::<Request>::empty(),
            q.next_seq == 0,
            q.capacity is None,
    {
        PriorityQueue { items: Vec::new(), next_seq: 0, capacity: None }
    }

    /// A queue that rejects admissions with `QueueFull` once it holds
    /// `bound` requests.
    pub fn with_capacity(bound: usize) -> (q: Self)
        ensures
            q.inv(),
            q@ == Seq::<Request>::empty(),
            q.next_seq == 0,
            q.capacity == Some(bound),
    {
        PriorityQueue { items: Vec::new(), next_seq: 0, capacity: Some(bound) }
    }

    /// How many requests are pending. Observability only.
    pub fn len(&self) -> (n: usize)
        ensures
            n == self@.len(),
    {
        self.items.len()
    }

    /// Admits a request: assigns it the next admission number and places it
    /// after every entry that beats it. Fails only when a configured
    /// capacity bound is reached.
    pub fn push(&mut self, payload: String, priority: RequestPriority, now: u64) -> (r: Result<
        u64,
        SubmitError,
    >)
        requires
            old(self).inv(),
            old(self).next_seq < u64::MAX,
        ensures
            final(self).inv(),
            final(self).capacity == old(self).capacity,
            match r {
                Ok(id) => {
                    let req = Request {
                        id: old(self).next_seq,
                        payload: payload,
                        priority: priority,
                        submitted_at: now,
                    };
                    &&& (old(self).capacity matches Some(c) ==> old(self)@.len() < c)
                    &&& id == old(self).next_seq
                    &&& final(self).next_seq == old(self).next_seq + 1
                    &&& final(self)@ == old(self)@.insert(insert_pos(old(self)@, req), req)
                },
                Err(e) => {
                    &&& e == SubmitError::QueueFull
                    &&& old(self).capacity matches Some(c) && old(self)@.len() >= c
                    &&& *final(self) == *old(self)
                },
            },
    {
        if let Some(c) = self.capacity {
            if self.items.len() >= c {
                return Err(SubmitError::QueueFull);
            }
        }
        let id = self.next_seq;
        let req = Request { id, payload, priority, submitted_at: now };
        let ghost greq = req;
        let mut i: usize = 0;
        while i < self.items.len() && entry_beats(&self.items, i, &req)
            invariant
                i <= self.items@.len(),
                self == old(self),
                req == greq,
                forall|j: int| 0 <= j < i ==> beats(#[trigger] self.items@[j], greq),
            decreases self.items@.len() - i,
        {
            i = i + 1;
        }
        proof {
            lemma_insert_pos_at(self.items@, greq, i as int);
            lemma_insert_keeps_inv(self.items@, greq, i as int);
        }
        self.items.insert(i, req);
        self.next_seq = self.next_seq + 1;
        Ok(id)
    }

    /// Removes and returns the highest-priority, oldest-among-equal request;
    /// `None` means the queue is empty, which callers must distinguish from
    /// an error.
    pub fn pop(&mut self) -> (r: Option<Request>)
        requires
            old(self).inv(),
        ensures
            final(self).inv(),
            final(self).next_seq == old(self).next_seq,
            final(self).capacity == old(self).capacity,
            match r {
                None => old(self)@.len() == 0 && *final(self) == *old(self),
                Some(req) => {
                    &&& old(self)@.len() > 0
                    &&& req == old(self)@[0]
                    &&& final(self)@ == old(self)@.drop_first()
                    &&& forall|i: int|
                        0 <= i < final(self)@.len() ==> beats(req, #[trigger] final(self)@[i])
                },
            },
    {
        if self.items.len() == 0 {
            None
        } else {
            let req = self.items.remove(0);
            proof {
                assert(old(self)@.remove(0) =~= old(self)@.drop_first());
                old(self)@.remove_ensures(0);
            }
            Some(req)
        }
    }
}

/// Does the entry at `i` beat `r` in dispatch order?
fn entry_beats(items: &Vec<Request>, i: usize, r: &Request) -> (b: bool)
    requires
        i < items@.len(),
    ensures
        b == beats(items@[i as int], *r),
{
    let cl = items[i].priority.level();
    let rl = r.priority.level();
    cl > rl || (cl == rl && items[i].id < r.id)
}

/// A prefix of entries that all beat `r`, stopped at the first that does
/// not, pins down `insert_pos`.
proof fn lemma_insert_pos_at(s: Seq<Request>, r: Request, i: int)
    requires
        0 <= i <= s.len(),
        forall|j: int| 0 <= j < i ==> beats(#[trigger] s[j], r),
        i < s.len() ==> !beats(s[i], r),
    ensures
        insert_pos(s, r) == i,
    decreases i,
{
    if s.len() == 0 {
    } else if i == 0 {
    } else {
        assert(beats(s[0], r));
        assert(forall|j: int| 0 <= j < i - 1 ==> s.drop_first()[j] == #[trigger] s[j + 1]);
        lemma_insert_pos_at(s.drop_first(), r, i - 1);
    }
}

/// Inserting a fresh request (admission number above every entry's) at the
/// boundary found by the scan keeps the queue sorted, keeps admission
/// numbers distinct, and bounds every number by the fresh one.
proof fn lemma_insert_keeps_inv(s: Seq<Request>, r: Request, k: int)
    requires
        ordered(s),
        distinct_ids(s),
        forall|i: int| 0 <= i < s.len() ==> (#[trigger] s[i]).id < r.id,
        0 <= k <= s.len(),
        forall|j: int| 0 <= j < k ==> beats(#[trigger] s[j], r),
        k < s.len() ==> !beats(s[k], r),
    ensures
        ordered(s.insert(k, r)),
        distinct_ids(s.insert(k, r)),
        forall|i: int| 0 <= i < s.insert(k, r).len() ==> (#[trigger] s.insert(k, r)[i]).id <= r.id,
    decreases s.len(),
{
    s.insert_ensures(k, r);
    let t = s.insert(k, r);
    assert forall|j: int| k <= j < s.len() implies beats(r, #[trigger] s[j]) by {
        assert(!beats(s[k], r));
        assert(s[k].id < r.id);
        assert(s[k].priority.level_spec() < r.priority.level_spec());
        if j > k {
            assert(beats(s[k], s[j]));
        }
    }
    assert forall|i: int, j: int| 0 <= i < j < t.len() implies beats(t[i], t[j]) by {
        if i < k {
            assert(t[i] == s[i]);
        } else if i == k {
            assert(t[i] == r);
        } else {
            assert(t[i] == s[i - 1]);
        }
        if j < k {
            assert(t[j] == s[j]);
        } else if j == k {
            assert(t[j] == r);
        } else {
            assert(t[j] == s[j - 1]);
        }
    }
    assert forall|i: int, j: int| 0 <= i < j < t.len() implies t[i].id != t[j].id by {
        if i < k {
            assert(t[i] == s[i]);
        } else if i == k {
            assert(t[i] == r);
        } else {
            assert(t[i] == s[i - 1]);
        }
        if j < k {
            assert(t[j] == s[j]);
        } else if j == k {
            assert(t[j] == r);
        } else {
            assert(t[j] == s[j - 1]);
        }
    }
    assert forall|i: int| 0 <= i < t.len() implies (#[trigger] t[i]).id <= r.id by {
        if i < k {
            assert(t[i] == s[i]);
        } else if i == k {
            assert(t[i] == r);
        } else {
            assert(t[i] == s[i - 1]);
        }
    }
}

/// Repeated extraction yields a stably sorted drain: in a well-formed queue
/// every earlier entry beats every later one, so popping until empty returns
/// priorities in non-increasing order with equal priorities served in
/// admission order.
pub proof fn lemma_pop_sequence_sorted(q: PriorityQueue)
    requires
        q.inv(),
    ensures
        forall|i: int, j: int| 0 <= i < j < q@.len() ==> beats(q@[i], q@[j]),
{
}

/// No loss and no duplication: admitting a request adds exactly that one
/// request to the queue's contents, and extraction removes exactly the
/// returned one, so any run of admissions followed by as many extractions
/// hands back exactly the admitted requests.
pub proof fn lemma_no_loss_no_duplication(s: Seq<Request>, r: Request, k: int)
    requires
        0 <= k <= s.len(),
    ensures
        s.insert(k, r).to_multiset() =~= s.to_multiset().insert(r),
        s.len() > 0 ==> s.to_multiset() =~= s.drop_first().to_multiset().insert(s[0]),
{
    broadcast use group_to_multiset_ensures;

    s.insert_ensures(k, r);
    let t = s.insert(k, r);
    assert(t.remove(k) =~= s);
    assert(t.remove(k).to_multiset() =~= t.to_multiset().remove(t[k]));
    assert(t.contains(r)) by {
        assert(t[k] == r);
    }
    assert(t.to_multiset().count(r) > 0);
    assert forall|x: Request| t.to_multiset().count(x) == s.to_multiset().insert(r).count(
        x,
    ) by {
        if x == r {
            assert(s.to_multiset().count(r) == t.to_multiset().remove(r).count(r));
        } else {
            assert(s.to_multiset().count(x) == t.to_multiset().remove(r).count(x));
        }
    }
    assert(t.to_multiset() =~= s.to_multiset().insert(r));
    if s.len() > 0 {
        assert(s.remove(0) =~= s.drop_first());
        assert(s.remove(0).to_multiset() =~= s.to_multiset().remove(s[0]));
        assert(s.contains(s[0]));
        assert(s.to_multiset().count(s[0]) > 0);
        assert forall|x: Request|
            s.to_multiset().count(x) == s.drop_first().to_multiset().insert(s[0]).count(x) by {
            if x == s[0] {
                assert(s.drop_first().to_multiset().count(x) == s.to_multiset().remove(s[0]).count(
                    x,
                ));
            } else {
                assert(s.drop_first().to_multiset().count(x) == s.to_multiset().remove(s[0]).count(
                    x,
                ));
            }
        }
        assert(s.to_multiset() =~= s.drop_first().to_multiset().insert(s[0]));
    }
}

} // verus!
