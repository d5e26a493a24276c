use vstd::prelude::*;
use crate::correlate::contains_id;
use crate::correlate::expired_entries;
use crate::correlate::first_match;
use crate::correlate::ids_of;
use crate::correlate::lemma_live_expired_partition;
use crate::correlate::live_entries;
use crate::correlate::InboundEvent;
use crate::correlate::PendingEntry;
use crate::correlate::ResponseCorrelator;
use crate::error::SubmitError;
use crate::queue::beats;
use crate::queue::insert_pos;
use crate::queue::PriorityQueue;
use crate::queue::Request;
use crate::queue::RequestPriority;

verus! {

/// The terminal outcome of one request: matched to a reply, timed out
/// waiting for one, cancelled by shutdown, or refused by the transport at
/// send time. A request reaches at most one of these, exactly once.
#[derive(Clone, Copy, Debug, PartialEq, Eq, Structural)]
pub enum Outcome {
    Matched,
    TimedOut,
    Cancelled,
    SendFailed,
}

/// A recorded terminal outcome for one request.
#[derive(Clone, Copy, Debug, PartialEq, Eq, Structural)]
pub struct Completion {
    pub request_id: u64,
    pub outcome: Outcome,
}

/// What the dispatch loop should do next.
pub enum DispatchAction {
    /// Send this payload to the fixed destination, then report back through
    /// `send_succeeded` or `send_failed`.
    Send { request_id: u64, payload: String },
    /// Nothing is queued: suspend until a submission or a stop arrives.
    Idle,
    /// The supervisor is stopped: leave the loop.
    Stopped,
}

/// What feeding one inbound event did.
#[derive(Clone, Copy, Debug, PartialEq, Eq, Structural)]
pub enum FeedResult {
    Matched { request_id: u64 },
    Unsolicited,
}

/// No two recorded outcomes belong to the same request.
pub open spec fn distinct_completions(s: Seq<Completion>) -> bool {
    forall|i: int, j: int| 0 <= i < j < s.len() ==> s[i].request_id != s[j].request_id
}

/// The request `id` already has a recorded outcome.
pub open spec fn completed(s: Seq<Completion>, id: u64) -> bool {
    exists|i: int| 0 <= i < s.len() && s[i].request_id == id
}

/// The outcomes recorded when these entries are cancelled, in order.
pub open spec fn cancellations(s: Seq<PendingEntry>) -> Seq<Completion> {
    s.map_values(
        |e: PendingEntry| Completion { request_id: e.request_id, outcome: Outcome::Cancelled },
    )
}

/// The outcomes recorded when these entries time out, in order.
pub open spec fn timeouts(s: Seq<PendingEntry>) -> Seq<Completion> {
    s.map_values(
        |e: PendingEntry| Completion { request_id: e.request_id, outcome: Outcome::TimedOut },
    )
}

/// Owns the queue, the correlator and the stop flag; wires submission to
/// dispatch to correlation, and records each request's terminal outcome.
/// Time enters as an explicit argument to every deadline decision, so
/// contracts about deadlines are exact. The surrounding application runs
/// the loops: it asks `next_action` what to do, performs the send, and
/// reports back; a second loop hands every inbound event to `feed`.
pub struct Supervisor {
    pub queue: PriorityQueue,
    pub correlator: ResponseCorrelator,
    pub running: bool,
    pub destination: i64,
    pub default_timeout: u64,
    pub completions: Vec<Completion>,
}

impl Supervisor {
    /// Well-formedness: both components are well-formed, each request has
    /// at most one recorded outcome, and no request is simultaneously
    /// awaiting a reply and already resolved. Together these make the
    /// request lifecycle one-way: queued, sent, then exactly one outcome.
    pub open spec fn inv(self) -> bool {
        &&& self.queue.inv()
        &&& self.correlator.inv()
        &&& distinct_completions(self.completions@)
        &&& forall|i: int, j: int|
            0 <= i < self.correlator@.len() && 0 <= j < self.completions@.len() ==> (
            #[trigger] self.correlator@[i]).request_id != (
            #[trigger] self.completions@[j]).request_id
    }

    /// A supervisor dispatching to `destination`, waiting `default_timeout`
    /// ticks for each reply, with an optional admission capacity bound.
    pub fn new(destination: i64, default_timeout: u64, capacity: Option<usize>) -> (s: Self)
        ensures
            s.inv(),
            s.queue@ == Seq::<Request>::empty(),
            s.queue.next_seq == 0,
            s.queue.capacity == capacity,
            s.correlator@ == Seq::<PendingEntry>::empty(),
            !s.running,
            s.destination == destination,
            s.default_timeout == default_timeout,
            s.completions@ == Seq::<Completion>::empty(),
    {
        let queue = match capacity {
            Some(c) => PriorityQueue::with_capacity(c),
            None => PriorityQueue::new(),
        };
        Supervisor {
            queue,
            correlator: ResponseCorrelator::new(),
            running: false,
            destination,
            default_timeout,
            completions: Vec::new(),
        }
    }

    /// Starts dispatching. Idempotent: starting a running supervisor
    /// changes nothing and reports `false`, so loops are never duplicated.
    pub fn start(&mut self) -> (started: bool)
        requires
            old(self).inv(),
        ensures
            final(self).inv(),
            started == !old(self).running,
            final(self).running,
            final(self).queue == old(self).queue,
            final(self).correlator@ == old(self).correlator@,
            final(self).destination == old(self).destination,
            final(self).default_timeout == old(self).default_timeout,
            final(self).completions@ == old(self).completions@,
    {
        let started = !self.running;
        self.running = true;
        started
    }

    /// Admits a request: a non-empty payload is pushed and its fresh id
    /// returned at once, without waiting for dispatch; an empty payload is
    /// rejected, and so is any payload when a configured capacity bound is
    /// reached.
    pub fn submit(&mut self, payload: String, priority: RequestPriority, now: u64) -> (r: Result<
        u64,
        SubmitError,
    >)
        requires
            old(self).inv(),
            old(self).queue.next_seq < u64::MAX,
        ensures
            final(self).inv(),
            final(self).correlator@ == old(self).correlator@,
            final(self).running == old(self).running,
            final(self).destination == old(self).destination,
            final(self).default_timeout == old(self).default_timeout,
            final(self).completions@ == old(self).completions@,
            final(self).queue.capacity == old(self).queue.capacity,
            payload@.len() == 0 ==> r == Err::<u64, SubmitError>(SubmitError::EmptyPayload)
                && final(self).queue == old(self).queue,
            payload@.len() > 0 ==> match r {
                Ok(id) => {
                    let req = Request {
                        id: old(self).queue.next_seq,
                        payload: payload,
                        priority: priority,
                        submitted_at: now,
                    };
                    &&& (old(self).queue.capacity matches Some(c) ==> old(self).queue@.len() < c)
                    &&& id == old(self).queue.next_seq
                    &&& final(self).queue.next_seq == old(self).queue.next_seq + 1
                    &&& final(self).queue@ == old(self).queue@.insert(
                        insert_pos(old(self).queue@, req),
                        req,
                    )
                },
                Err(e) => {
                    &&& e == SubmitError::QueueFull
                    &&& old(self).queue.capacity matches Some(c) && old(self).queue@.len() >= c
                    &&& final(self).queue == old(self).queue
                },
            },
    {
        if payload.as_str().is_empty() {
            return Err(SubmitError::EmptyPayload);
        }
        self.queue.push(payload, priority, now)
    }

    /// One dispatch decision. A stopped supervisor says so; an empty queue
    /// asks the loop to suspend until something is submitted; otherwise the
    /// highest-priority, oldest-among-equal request leaves the queue and is
    /// handed out for sending. A request handed out is never preempted.
    pub fn next_action(&mut self) -> (a: DispatchAction)
        requires
            old(self).inv(),
        ensures
            final(self).inv(),
            final(self).correlator@ == old(self).correlator@,
            final(self).running == old(self).running,
            final(self).destination == old(self).destination,
            final(self).default_timeout == old(self).default_timeout,
            final(self).completions@ == old(self).completions@,
            final(self).queue.capacity == old(self).queue.capacity,
            final(self).queue.next_seq == old(self).queue.next_seq,
            !old(self).running ==> a == DispatchAction::Stopped && final(self).queue == old(
                self,
            ).queue,
            old(self).running && old(self).queue@.len() == 0 ==> a == DispatchAction::Idle
                && final(self).queue == old(self).queue,
            old(self).running && old(self).queue@.len() > 0 ==> {
                let req = old(self).queue@[0];
                &&& a == (DispatchAction::Send { request_id: req.id, payload: req.payload })
                &&& final(self).queue@ == old(self).queue@.drop_first()
                &&& forall|i: int|
                    0 <= i < final(self).queue@.len() ==> beats(
                        req,
                        #[trigger] final(self).queue@[i],
                    )
            },
    {
        if !self.running {
            return DispatchAction::Stopped;
        }
        match self.queue.pop() {
            None => DispatchAction::Idle,
            Some(req) => DispatchAction::Send { request_id: req.id, payload: req.payload },
        }
    }

    /// To be called by the dispatch loop once the transport has accepted a
    /// send: arms the await for the reply, with the deadline exactly
    /// `now + timeout` ticks. A request that is already awaiting a reply or
    /// already has an outcome is refused, which keeps the lifecycle one-way.
    pub fn send_succeeded(&mut self, request_id: u64, now: u64, timeout: u64) -> (armed: bool)
        requires
            old(self).inv(),
            now + timeout <= u64::MAX,
        ensures
            final(self).inv(),
            final(self).queue == old(self).queue,
            final(self).running == old(self).running,
            final(self).destination == old(self).destination,
            final(self).default_timeout == old(self).default_timeout,
            final(self).completions@ == old(self).completions@,
            armed == (!contains_id(old(self).correlator@, request_id) && !completed(
                old(self).completions@,
                request_id,
            )),
            armed ==> final(self).correlator@ == old(self).correlator@.push(
                PendingEntry {
                    request_id,
                    identity: old(self).destination,
                    sent_at: now,
                    deadline: (now + timeout) as u64,
                },
            ),
            !armed ==> final(self).correlator@ == old(self).correlator@,
    {
        if completed_exec(&self.completions, request_id) {
            return false;
        }
        self.correlator.register(request_id, self.destination, now, timeout)
    }

    /// Arms the await with the supervisor's default timeout; otherwise
    /// exactly `send_succeeded`.
    pub fn send_succeeded_default(&mut self, request_id: u64, now: u64) -> (armed: bool)
        requires
            old(self).inv(),
            now + old(self).default_timeout <= u64::MAX,
        ensures
            final(self).inv(),
            final(self).queue == old(self).queue,
            final(self).running == old(self).running,
            final(self).destination == old(self).destination,
            final(self).default_timeout == old(self).default_timeout,
            final(self).completions@ == old(self).completions@,
            armed == (!contains_id(old(self).correlator@, request_id) && !completed(
                old(self).completions@,
                request_id,
            )),
            armed ==> final(self).correlator@ == old(self).correlator@.push(
                PendingEntry {
                    request_id,
                    identity: old(self).destination,
                    sent_at: now,
                    deadline: (now + old(self).default_timeout) as u64,
                },
            ),
            !armed ==> final(self).correlator@ == old(self).correlator@,
    {
        let timeout = self.default_timeout;
        self.send_succeeded(request_id, now, timeout)
    }

    /// To be called by the dispatch loop when the transport refused a send:
    /// records the terminal `SendFailed` outcome for that request. The
    /// queue is untouched, so the next dispatch decision simply proceeds to
    /// the following request.
    pub fn send_failed(&mut self, request_id: u64) -> (recorded: bool)
        requires
            old(self).inv(),
        ensures
            final(self).inv(),
            final(self).queue == old(self).queue,
            final(self).correlator@ == old(self).correlator@,
            final(self).running == old(self).running,
            final(self).destination == old(self).destination,
            final(self).default_timeout == old(self).default_timeout,
            recorded == (!contains_id(old(self).correlator@, request_id) && !completed(
                old(self).completions@,
                request_id,
            )),
            recorded ==> final(self).completions@ == old(self).completions@.push(
                Completion { request_id, outcome: Outcome::SendFailed },
            ),
            !recorded ==> final(self).completions@ == old(self).completions@,
    {
        if completed_exec(&self.completions, request_id) {
            return false;
        }
        if self.correlator.is_pending(request_id) {
            return false;
        }
        self.completions.push(Completion { request_id, outcome: Outcome::SendFailed });
        true
    }

    /// Hands one inbound event to the correlator. A match resolves the
    /// oldest outstanding await for the sender's identity and records its
    /// `Matched` outcome; an event that matches nothing is unsolicited and
    /// is dropped without any effect.
    pub fn feed(&mut self, event: &InboundEvent) -> (r: FeedResult)
        requires
            old(self).inv(),
        ensures
            final(self).inv(),
            final(self).queue == old(self).queue,
            final(self).running == old(self).running,
            final(self).destination == old(self).destination,
            final(self).default_timeout == old(self).default_timeout,
            first_match(old(self).correlator@, event.sender_identity) == -1 ==> r
                == FeedResult::Unsolicited && final(self).correlator@ == old(self).correlator@
                && final(self).completions@ == old(self).completions@,
            first_match(old(self).correlator@, event.sender_identity) != -1 ==> {
                let k = first_match(old(self).correlator@, event.sender_identity);
                let id = old(self).correlator@[k].request_id;
                &&& r == (FeedResult::Matched { request_id: id })
                &&& final(self).correlator@ == old(self).correlator@.remove(k)
                &&& final(self).completions@ == old(self).completions@.push(
                    Completion { request_id: id, outcome: Outcome::Matched },
                )
            },
    {
        let matched = self.correlator.feed(event);
        match matched {
            Some(id) => {
                proof {
                    let s = old(self).correlator@;
                    let k = first_match(s, event.sender_identity);
                    crate::correlate::lemma_feed_resolves_oldest(s, event.sender_identity);
                    s.remove_ensures(k);
                    assert forall|i: int, j: int|
                        0 <= i < self.correlator@.len() && 0 <= j
                            < self.completions@.push(
                            Completion { request_id: id, outcome: Outcome::Matched },
                        ).len() implies (#[trigger] self.correlator@[i]).request_id != (
                    #[trigger] self.completions@.push(
                        Completion { request_id: id, outcome: Outcome::Matched },
                    )[j]).request_id by {
                        if i < k {
                            assert(self.correlator@[i] == s[i]);
                        } else {
                            assert(self.correlator@[i] == s[i + 1]);
                        }
                        if j < self.completions@.len() {
                        } else {
                            assert(self.completions@.push(
                                Completion { request_id: id, outcome: Outcome::Matched },
                            )[j].request_id == s[k].request_id);
                        }
                    }
                    assert(!completed(old(self).completions@, id));
                }
                self.completions.push(Completion { request_id: id, outcome: Outcome::Matched });
                FeedResult::Matched { request_id: id }
            },
            None => FeedResult::Unsolicited,
        }
    }

    /// Fires every await whose deadline has passed at `now`: each such
    /// request's entry is removed and its `TimedOut` outcome recorded, in
    /// registration order; awaits still within their deadline are left
    /// armed. Returns the timed-out request ids.
    #[verifier::loop_isolation(false)]
    pub fn tick(&mut self, now: u64) -> (fired: Vec<u64>)
        requires
            old(self).inv(),
        ensures
            final(self).inv(),
            final(self).queue == old(self).queue,
            final(self).running == old(self).running,
            final(self).destination == old(self).destination,
            final(self).default_timeout == old(self).default_timeout,
            final(self).correlator@ == live_entries(old(self).correlator@, now),
            fired@ == ids_of(expired_entries(old(self).correlator@, now)),
            final(self).completions@ == old(self).completions@ + timeouts(
                expired_entries(old(self).correlator@, now),
            ),
    {
        proof {
            lemma_live_expired_partition(old(self).correlator@, now);
        }
        let ghost ex = expired_entries(old(self).correlator@, now);
        let fired = self.correlator.expire(now);
        let n = fired.len();
        let mut k: usize = 0;
        while k < n
            invariant
                k <= n,
                self.queue == old(self).queue,
                self.correlator@ == live_entries(old(self).correlator@, now),
                self.running == old(self).running,
                self.destination == old(self).destination,
                self.default_timeout == old(self).default_timeout,
                self.completions@ == old(self).completions@ + timeouts(ex).subrange(0, k as int),
            decreases n - k,
        {
            proof {
                assert(ids_of(ex)[k as int] == ex[k as int].request_id);
                assert(timeouts(ex)[k as int] == (Completion {
                    request_id: ex[k as int].request_id,
                    outcome: Outcome::TimedOut,
                }));
                assert(timeouts(ex).subrange(0, k as int + 1) =~= timeouts(ex).subrange(
                    0,
                    k as int,
                ).push(timeouts(ex)[k as int]));
            }
            let id = fired[k];
            self.completions.push(Completion { request_id: id, outcome: Outcome::TimedOut });
            k = k + 1;
        }
        proof {
            assert(timeouts(ex).subrange(0, n as int) =~= timeouts(ex));
            lemma_outcomes_after_split(
                old(self).correlator@,
                now,
                old(self).completions@,
                timeouts(ex),
                self.correlator@,
            );
        }
        fired
    }

    /// Shutdown of dispatching: clears the running flag, so the loops see
    /// `Stopped` and exit, and cancels every armed await at once, recording
    /// `Cancelled` — not `TimedOut` — for each, in registration order. The
    /// queue keeps its contents; nothing further is dispatched until a new
    /// start.
    #[verifier::loop_isolation(false)]
    pub fn stop(&mut self) -> (cancelled: Vec<u64>)
        requires
            old(self).inv(),
        ensures
            final(self).inv(),
            !final(self).running,
            final(self).queue == old(self).queue,
            final(self).destination == old(self).destination,
            final(self).default_timeout == old(self).default_timeout,
            final(self).correlator@ == Seq::<PendingEntry>::empty(),
            cancelled@ == ids_of(old(self).correlator@),
            final(self).completions@ == old(self).completions@ + cancellations(
                old(self).correlator@,
            ),
    {
        self.running = false;
        let ghost pend = old(self).correlator@;
        let cancelled = self.correlator.cancel_all();
        let n = cancelled.len();
        let mut k: usize = 0;
        while k < n
            invariant
                k <= n,
                self.queue == old(self).queue,
                self.correlator@ == Seq::<PendingEntry>::empty(),
                !self.running,
                self.destination == old(self).destination,
                self.default_timeout == old(self).default_timeout,
                self.completions@ == old(self).completions@ + cancellations(pend).subrange(
                    0,
                    k as int,
                ),
            decreases n - k,
        {
            proof {
                assert(ids_of(pend)[k as int] == pend[k as int].request_id);
                assert(cancellations(pend)[k as int] == (Completion {
                    request_id: pend[k as int].request_id,
                    outcome: Outcome::Cancelled,
                }));
                assert(cancellations(pend).subrange(0, k as int + 1) =~= cancellations(
                    pend,
                ).subrange(0, k as int).push(cancellations(pend)[k as int]));
            }
            let id = cancelled[k];
            self.completions.push(Completion { request_id: id, outcome: Outcome::Cancelled });
            k = k + 1;
        }
        proof {
            assert(cancellations(pend).subrange(0, n as int) =~= cancellations(pend));
            assert forall|i: int, j: int|
                0 <= i < j < self.completions@.len() implies self.completions@[i].request_id
                != self.completions@[j].request_id by {
                let base = old(self).completions@.len() as int;
                if j >= base {
                    assert(self.completions@[j] == cancellations(pend)[j - base]);
                    assert(self.completions@[j].request_id == pend[j - base].request_id);
                }
                if i >= base {
                    assert(self.completions@[i] == cancellations(pend)[i - base]);
                    assert(self.completions@[i].request_id == pend[i - base].request_id);
                }
            }
        }
        cancelled
    }

    /// How many requests are waiting in the queue.
    pub fn queue_len(&self) -> (n: usize)
        ensures
            n == self.queue@.len(),
    {
        self.queue.len()
    }

    /// How many requests are awaiting a reply.
    pub fn pending_len(&self) -> (n: usize)
        ensures
            n == self.correlator@.len(),
    {
        self.correlator.len()
    }

    /// Whether the loops should be running.
    pub fn is_running(&self) -> (b: bool)
        ensures
            b == self.running,
    {
        self.running
    }

    /// How many terminal outcomes have been recorded.
    pub fn completions_len(&self) -> (n: usize)
        ensures
            n == self.completions@.len(),
    {
        self.completions.len()
    }

    /// The `i`-th recorded outcome, in recording order.
    pub fn completion_at(&self, i: usize) -> (c: Completion)
        requires
            i < self.completions@.len(),
        ensures
            c == self.completions@[i as int],
    {
        self.completions[i]
    }
}

/// Is an outcome already recorded for `id`?
fn completed_exec(completions: &Vec<Completion>, id: u64) -> (b: bool)
    ensures
        b == completed(completions@, id),
{
    let n = completions.len();
    let mut i: usize = 0;
    while i < n
        invariant
            i <= n,
            n == completions@.len(),
            forall|j: int| 0 <= j < i ==> (#[trigger] completions@[j]).request_id != id,
        decreases n - i,
    {
        if completions[i].request_id == id {
            return true;
        }
        i = i + 1;
    }
    false
}

/// After timeouts fire, the supervisor's books still balance: outcomes stay
/// one per request and no surviving await is already resolved.
proof fn lemma_outcomes_after_split(
    s: Seq<PendingEntry>,
    now: u64,
    comps: Seq<Completion>,
    added: Seq<Completion>,
    lv: Seq<PendingEntry>,
)
    requires
        crate::correlate::distinct_pending(s),
        distinct_completions(comps),
        forall|i: int, j: int|
            0 <= i < s.len() && 0 <= j < comps.len() ==> (#[trigger] s[i]).request_id != (
            #[trigger] comps[j]).request_id,
        added == timeouts(expired_entries(s, now)),
        lv == live_entries(s, now),
    ensures
        distinct_completions(comps + added),
        forall|i: int, j: int|
            0 <= i < lv.len() && 0 <= j < (comps + added).len() ==> (#[trigger] lv[i]).request_id
                != (#[trigger] (comps + added)[j]).request_id,
{
    lemma_live_expired_partition(s, now);
    let ex = expired_entries(s, now);
    let all = comps + added;
    let base = comps.len() as int;
    assert forall|i: int, j: int| 0 <= i < j < all.len() implies all[i].request_id
        != all[j].request_id by {
        if i >= base {
            assert(all[i] == added[i - base]);
            assert(all[i].request_id == ex[i - base].request_id);
        }
        if j >= base {
            assert(all[j] == added[j - base]);
            assert(all[j].request_id == ex[j - base].request_id);
        }
        if i < base && j >= base {
            assert(contains_id(s, ex[j - base].request_id));
            let w = choose|w: int| 0 <= w < s.len() && s[w].request_id == ex[j - base].request_id;
            assert(s[w].request_id != comps[i].request_id);
        }
        if i >= base && j >= base {
            assert(ex[i - base].request_id != ex[j - base].request_id);
        }
    }
    assert forall|i: int, j: int|
        0 <= i < lv.len() && 0 <= j < all.len() implies (#[trigger] lv[i]).request_id != (
    #[trigger] all[j]).request_id by {
        assert(contains_id(s, lv[i].request_id));
        let w = choose|w: int| 0 <= w < s.len() && s[w].request_id == lv[i].request_id;
        if j < base {
            assert(s[w].request_id != comps[j].request_id);
        } else {
            assert(all[j] == added[j - base]);
            assert(all[j].request_id == ex[j - base].request_id);
            assert(contains_id(ex, ex[j - base].request_id));
            if lv[i].request_id == ex[j - base].request_id {
                assert(contains_id(lv, lv[i].request_id));
            }
        }
    }
}

} // verus!
