//! Open-loop load generator.
//!
//! Requests are dispatched on a fixed timeline, whatever the service does. A
//! generator that waits for one request before it sends the next gives an
//! overloaded service less load, and its tail looks healthy.
//!
//! The clock and the sockets are the caller's. What is decided here: when to
//! dispatch and how late that is, what each reply is worth, and what the run
//! as a whole comes to.

use std::collections::HashSet;
use vstd::prelude::*;

use crate::binary64::Binary64;
use crate::clock::elapsed;
use crate::clock::ns_since;
use crate::clock::ns_to_ms;
use crate::clock::saturating_since;
use crate::clock::wrap;
use crate::clock::wrapped;
use crate::clock::THOUSAND;
use crate::config::Config;
use crate::conversion::duration_from_secs;
use crate::conversion::from_u64;
use crate::conversion::is_time;
use crate::conversion::nanoseconds;
use crate::conversion::whole;
use crate::lateness::lemma_omission_by_share;
use crate::oracle::Oracle;
use crate::protocol::ProgramReply;
use crate::seconds::lemma_ns_to_ms_monotone;
use crate::seconds::LONGEST;
use crate::record::Outcome;
use crate::record::RequestRecord;
use crate::sort::arrange;
use crate::sort::before;
use crate::sort::lemma_order_complete;
use crate::sort::lemma_some_order;
use crate::sort::named;
use crate::sort::sorted_order;
use crate::sort::stable_order;
use crate::sort::stably_sorted;
use crate::span::CallSpan;
use crate::timeline::ScheduledRequest;
use crate::timeline::Timeline;

verus! {

/// A dispatch later than this counts as late: one millisecond.
pub const LATE_DISPATCH_THRESHOLD: u128 = 1_000_000;

/// The share of requests after the warmup that may be dispatched late before
/// the run counts as failed: 0.001.
pub const MAX_LATE_DISPATCH_FRAC: u64 = 0x3F50_624D_D2F1_A9FC;

/// One second, in nanoseconds.
pub const GRACE: u128 = 1_000_000_000;

/// What a run came to.
#[derive(Debug)]
pub struct RunOutcome {
    pub records: Vec<RequestRecord>,
    pub late_dispatches: usize,
    pub coordinated_omission_failure: bool,
}

/// How much time a request has, in nanoseconds.
pub open spec fn budget_of(cfg: Config) -> nat {
    nanoseconds(cfg.slo.budget_ms.over(Binary64 { bits: THOUSAND }))
}

/// How much time a request has, in nanoseconds.
pub fn budget(cfg: &Config) -> (r: u128)
    requires
        is_time(cfg.slo.budget_ms.over(Binary64 { bits: THOUSAND })),
    ensures
        r == budget_of(*cfg),
        r < 0x1_0000_0000_0000_0000 * 1_000_000_000,
{
    duration_from_secs(cfg.slo.budget_ms.div(Binary64::from_bits(THOUSAND)))
}

/// The dispatches of a run so far.
#[derive(Clone, Copy, Debug, PartialEq, Eq, Structural)]
pub struct Tally {
    /// Where the warmup ends, in nanoseconds.
    pub warmup: u128,
    pub dispatched: usize,
    pub late_dispatches: usize,
    pub post_warmup: usize,
    pub late_post_warmup: usize,
}

/// When to dispatch a request, and how late that is.
#[derive(Clone, Copy, Debug, PartialEq, Eq, Structural)]
pub struct Turn {
    pub lateness: u128,
    /// When to wake up, where the time has not come yet.
    pub sleep_until: Option<u128>,
}

impl Tally {
    /// No count exceeds the one it is a part of.
    pub open spec fn well_formed(self) -> bool {
        &&& self.late_dispatches <= self.dispatched
        &&& self.post_warmup <= self.dispatched
        &&& self.late_post_warmup <= self.post_warmup
        &&& self.late_post_warmup <= self.late_dispatches
    }

    /// The tally after a request due at `offset` was reached at `now`.
    pub open spec fn after(self, offset: u128, now: u128) -> Tally {
        let late = elapsed(offset as nat, now as nat) > LATE_DISPATCH_THRESHOLD;
        let counted = offset >= self.warmup;
        Tally {
            warmup: self.warmup,
            dispatched: (self.dispatched + 1) as usize,
            late_dispatches: (self.late_dispatches + if late {
                1int
            } else {
                0
            }) as usize,
            post_warmup: (self.post_warmup + if counted {
                1int
            } else {
                0
            }) as usize,
            late_post_warmup: (self.late_post_warmup + if late && counted {
                1int
            } else {
                0
            }) as usize,
        }
    }

    /// The start of a run.
    pub fn new(cfg: &Config) -> (r: Self)
        requires
            is_time(cfg.scenario.warmup_s),
        ensures
            r.well_formed(),
            r == (Tally {
                warmup: nanoseconds(cfg.scenario.warmup_s) as u128,
                dispatched: 0,
                late_dispatches: 0,
                post_warmup: 0,
                late_post_warmup: 0,
            }),
    {
        Tally {
            warmup: duration_from_secs(cfg.scenario.warmup_s),
            dispatched: 0,
            late_dispatches: 0,
            post_warmup: 0,
            late_post_warmup: 0,
        }
    }

    /// Takes up a request due at `offset`, at the time `now`, both counted
    /// from the start of the run. Nothing that the service does enters.
    pub fn dispatch(&mut self, offset: u128, now: u128) -> (r: Turn)
        requires
            old(self).well_formed(),
            old(self).dispatched < usize::MAX,
        ensures
            final(self).well_formed(),
            *final(self) == old(self).after(offset, now),
            r.lateness == elapsed(offset as nat, now as nat),
            r.sleep_until == (if now < offset {
                Some(offset)
            } else {
                None
            }),
    {
        let lateness: u128 = saturating_since(offset, now);
        let counted: bool = offset >= self.warmup;
        self.dispatched = self.dispatched + 1;
        if counted {
            self.post_warmup = self.post_warmup + 1;
        }
        if lateness > LATE_DISPATCH_THRESHOLD {
            self.late_dispatches = self.late_dispatches + 1;
            if counted {
                self.late_post_warmup = self.late_post_warmup + 1;
            }
        }
        let sleep_until: Option<u128> = if now < offset {
            Some(offset)
        } else {
            None
        };
        Turn { lateness, sleep_until }
    }

    /// Too many of the requests that count were dispatched late.
    pub open spec fn omits(self) -> bool {
        self.post_warmup > 0 && (Binary64 { bits: MAX_LATE_DISPATCH_FRAC }).less(
            whole(self.late_post_warmup as nat).over(whole(self.post_warmup as nat)),
        )
    }

    /// Whether too many of the requests that count were dispatched late.
    pub fn coordinated_omission(&self) -> (r: bool)
        ensures
            r == self.omits(),
            self.well_formed() && 0 < self.post_warmup <= 0x100_0000_0000 ==> (r <==> 1000
                * self.late_post_warmup > self.post_warmup),
    {
        proof {
            if self.well_formed() && 0 < self.post_warmup <= 0x100_0000_0000 {
                lemma_omission_by_share(*self);
            }
        }
        if self.post_warmup == 0 {
            false
        } else {
            let share: Binary64 = from_u64(self.late_post_warmup as u64).div(
                from_u64(self.post_warmup as u64),
            );
            Binary64::from_bits(MAX_LATE_DISPATCH_FRAC).lt(share)
        }
    }
}

/// When the wait for outstanding requests ends.
pub open spec fn drained(duration: u128, budget: u128) -> nat {
    duration as nat + budget as nat + GRACE as nat
}

/// When the wait for outstanding requests ends: their own deadline, and a
/// second more.
pub fn drain_until(timeline: &Timeline, budget: u128) -> (r: u128)
    requires
        timeline.duration + budget + GRACE <= u128::MAX,
    ensures
        r == timeline.duration + budget + 1_000_000_000,
        r == drained(timeline.duration, budget),
{
    timeline.duration + budget + GRACE
}

/// The deadline of a request due at `offset`, counted from its intended
/// dispatch.
pub open spec fn deadline_of(offset: u128, budget: u128) -> nat {
    wrapped(offset as nat) + wrapped(budget as nat)
}

/// The record of a request that was answered, or whose call failed.
pub open spec fn is_record_of<E>(
    r: RequestRecord,
    req: ScheduledRequest,
    oracle: Oracle,
    resp: Result<ProgramReply, E>,
    start: u128,
    actual: u128,
    done: u128,
    budget: u128,
    lateness: u128,
) -> bool {
    let deadline_ns = deadline_of(req.offset, budget) as u64;
    let completion_ns = wrapped(elapsed(start as nat, done as nat)) as u64;
    let (outcome, digest_ok, met) = match resp {
        Ok(reply) => oracle.verdict(req, reply, completion_ns, deadline_ns),
        Err(_) => Oracle::verdict_on_failure(completion_ns, deadline_ns),
    };
    &&& r.request_id == req.request_id
    &&& r.class == req.class
    &&& r.intended_dispatch_ns == wrapped(req.offset as nat)
    &&& r.actual_dispatch_ns == wrapped(elapsed(start as nat, actual as nat))
    &&& r.deadline_ns == deadline_ns
    &&& r.first_byte_ns is None
    &&& r.completion_ns == Some(completion_ns)
    &&& r.outcome == outcome
    &&& r.expired == (completion_ns > deadline_ns)
    &&& r.offered_load_rps == req.offered_load_rps
    &&& r.response_digest == (match resp {
        Ok(reply) => reply.digest,
        Err(_) => None,
    })
    &&& r.digest_ok == digest_ok
    &&& r.required_calls_met == met
    &&& r.spans@ == (match resp {
        Ok(reply) => reply.spans@,
        Err(_) => Seq::<CallSpan>::empty(),
    })
    &&& r.late_dispatch_ns == wrapped(lateness as nat)
}

/// Records one request. `start`, `actual` and `done` are readings of one
/// clock: the start of the run, the dispatch and the reply.
pub fn build_record<E>(
    req: &ScheduledRequest,
    oracle: &Oracle,
    resp: Result<ProgramReply, E>,
    start: u128,
    actual: u128,
    done: u128,
    budget: u128,
    lateness: u128,
) -> (r: RequestRecord)
    requires
        oracle.well_formed(),
        deadline_of(req.offset, budget) <= u64::MAX,
    ensures
        is_record_of(r, *req, *oracle, resp, start, actual, done, budget, lateness),
{
    let intended_ns: u64 = wrap(req.offset);
    let deadline_ns: u64 = intended_ns + wrap(budget);
    let completion_ns: u64 = ns_since(start, done);
    let (outcome, digest_ok, calls_met): (Outcome, Option<bool>, bool) = oracle.classify(
        req,
        &resp,
        completion_ns,
        deadline_ns,
    );
    let (digest, spans): (Option<u64>, Vec<CallSpan>) = match resp {
        Ok(reply) => (reply.digest, reply.spans),
        Err(_) => (None, Vec::new()),
    };
    RequestRecord {
        request_id: req.request_id,
        class: req.class.clone(),
        intended_dispatch_ns: intended_ns,
        actual_dispatch_ns: ns_since(start, actual),
        deadline_ns,
        first_byte_ns: None,
        completion_ns: Some(completion_ns),
        outcome,
        expired: completion_ns > deadline_ns,
        offered_load_rps: req.offered_load_rps,
        response_digest: digest,
        digest_ok,
        required_calls_met: calls_met,
        spans,
        late_dispatch_ns: wrap(lateness),
    }
}

/// The record of a request that nothing came back for.
pub open spec fn is_never_served(r: RequestRecord, req: ScheduledRequest, budget: u128) -> bool {
    &&& r.request_id == req.request_id
    &&& r.class == req.class
    &&& r.intended_dispatch_ns == wrapped(req.offset as nat)
    &&& r.actual_dispatch_ns == wrapped(req.offset as nat)
    &&& r.deadline_ns == deadline_of(req.offset, budget)
    &&& r.first_byte_ns is None
    &&& r.completion_ns is None
    &&& r.outcome == Outcome::NeverServed
    &&& r.expired
    &&& r.offered_load_rps == req.offered_load_rps
    &&& r.response_digest is None
    &&& r.digest_ok is None
    &&& !r.required_calls_met
    &&& r.spans@ == Seq::<CallSpan>::empty()
    &&& r.late_dispatch_ns == 0
}

/// Records a request that nothing came back for.
pub fn never_served(req: &ScheduledRequest, budget: u128) -> (r: RequestRecord)
    requires
        deadline_of(req.offset, budget) <= u64::MAX,
    ensures
        is_never_served(r, *req, budget),
{
    let intended_ns: u64 = wrap(req.offset);
    RequestRecord {
        request_id: req.request_id,
        class: req.class.clone(),
        intended_dispatch_ns: intended_ns,
        actual_dispatch_ns: intended_ns,
        deadline_ns: intended_ns + wrap(budget),
        first_byte_ns: None,
        completion_ns: None,
        outcome: Outcome::NeverServed,
        expired: true,
        offered_load_rps: req.offered_load_rps,
        response_digest: None,
        digest_ok: None,
        required_calls_met: false,
        spans: Vec::new(),
        late_dispatch_ns: 0,
    }
}

/// A record of this request is there.
pub open spec fn recorded(records: Seq<RequestRecord>, id: u64) -> bool {
    exists|k: int| 0 <= k < records.len() && (#[trigger] records[k]).request_id == id
}

/// The positions, among the first `n` requests, of those without a record.
pub open spec fn unrecorded(
    records: Seq<RequestRecord>,
    requests: Seq<ScheduledRequest>,
    n: nat,
) -> Seq<int>
    decreases n,
{
    if n == 0 {
        Seq::empty()
    } else {
        let rest = unrecorded(records, requests, (n - 1) as nat);
        if recorded(records, requests[n - 1].request_id) {
            rest
        } else {
            rest.push(n - 1)
        }
    }
}

/// The request ids of the records.
pub open spec fn ids_of(records: Seq<RequestRecord>) -> Seq<u64> {
    Seq::new(records.len(), |i: int| records[i].request_id)
}

/// `fillers` record the requests that `records` leaves out.
pub open spec fn fills(
    fillers: Seq<RequestRecord>,
    records: Seq<RequestRecord>,
    requests: Seq<ScheduledRequest>,
    budget: u128,
) -> bool {
    let missing = unrecorded(records, requests, requests.len());
    &&& fillers.len() == missing.len()
    &&& forall|i: int|
        0 <= i < fillers.len() ==> is_never_served(
            #[trigger] fillers[i],
            requests[missing[i]],
            budget,
        )
}

/// `out` is `records` and `fillers`, by request id; records of one id stay in
/// the order in which they came.
pub open spec fn completes(
    out: Seq<RequestRecord>,
    records: Seq<RequestRecord>,
    fillers: Seq<RequestRecord>,
) -> bool {
    out == stably_sorted(records + fillers, ids_of(records + fillers))
}

/// Ends a run: every request without a record gets one, and the records are
/// put in order.
pub fn finish(
    tally: &Tally,
    timeline: &Timeline,
    records: Vec<RequestRecord>,
    budget: u128,
) -> (r: RunOutcome)
    requires
        forall|i: int|
            0 <= i < timeline.requests.len() ==> deadline_of(
                (#[trigger] timeline.requests[i]).offset,
                budget,
            ) <= u64::MAX,
        records.len() + timeline.requests.len() <= usize::MAX,
    ensures
        exists|fillers: Seq<RequestRecord>|
            fills(fillers, records@, timeline.requests@, budget) && #[trigger] completes(
                r.records@,
                records@,
                fillers,
            ),
        r.late_dispatches == tally.late_dispatches,
        r.coordinated_omission_failure == tally.omits(),
{
    broadcast use vstd::std_specs::hash::group_hash_axioms;

    let ghost given = records@;
    let mut all: Vec<RequestRecord> = records;
    let mut seen: HashSet<u64> = HashSet::new();
    let mut k: usize = 0;
    while k < all.len()
        invariant
            k <= all.len(),
            all@ == given,
            forall|id: u64| #[trigger] seen@.contains(id) <==> recorded(given.take(k as int), id),
        decreases all.len() - k,
    {
        let ghost had = seen@;
        let id: u64 = all[k].request_id;
        seen.insert(id);
        proof {
            let before = given.take(k as int);
            let next = given.take(k + 1);
            assert forall|x: u64| #[trigger] seen@.contains(x) <==> recorded(next, x) by {
                if recorded(before, x) {
                    let j = choose|j: int|
                        0 <= j < before.len() && (#[trigger] before[j]).request_id == x;
                    assert(next[j].request_id == x);
                }
                if recorded(next, x) && x != id {
                    let j = choose|j: int|
                        0 <= j < next.len() && (#[trigger] next[j]).request_id == x;
                    assert(before[j].request_id == x);
                }
                if x == id {
                    assert(next[k as int].request_id == x);
                }
                assert(had.contains(x) <==> recorded(before, x));
            }
        }
        k = k + 1;
    }
    assert(given.take(k as int) =~= given);
    let ghost mut fillers: Seq<RequestRecord> = Seq::empty();
    let mut i: usize = 0;
    while i < timeline.requests.len()
        invariant
            i <= timeline.requests.len(),
            forall|j: int|
                0 <= j < timeline.requests.len() ==> deadline_of(
                    (#[trigger] timeline.requests[j]).offset,
                    budget,
                ) <= u64::MAX,
            forall|id: u64| #[trigger] seen@.contains(id) <==> recorded(given, id),
            all@ == given + fillers,
            fillers.len() == unrecorded(given, timeline.requests@, i as nat).len(),
            forall|j: int|
                0 <= j < fillers.len() ==> is_never_served(
                    #[trigger] fillers[j],
                    timeline.requests[unrecorded(given, timeline.requests@, i as nat)[j]],
                    budget,
                ),
        decreases timeline.requests.len() - i,
    {
        let req: &ScheduledRequest = &timeline.requests[i];
        let known: bool = seen.contains(&req.request_id);
        if !known {
            let filler: RequestRecord = never_served(req, budget);
            proof {
                fillers = fillers.push(filler);
            }
            all.push(filler);
            assert(all@ =~= given + fillers);
        }
        i = i + 1;
    }
    let mut keys: Vec<u64> = Vec::new();
    let mut j: usize = 0;
    while j < all.len()
        invariant
            j <= all.len(),
            keys@ == ids_of(all@).take(j as int),
        decreases all.len() - j,
    {
        keys.push(all[j].request_id);
        j = j + 1;
        assert(keys@ =~= ids_of(all@).take(j as int));
    }
    assert(keys@ =~= ids_of(all@));
    let order: Vec<usize> = sorted_order(&keys);
    let sorted: Vec<RequestRecord> = arrange(all, Ghost(keys@), &order);
    assert(fills(fillers, given, timeline.requests@, budget));
    let r = RunOutcome {
        records: sorted,
        late_dispatches: tally.late_dispatches,
        coordinated_omission_failure: tally.coordinated_omission(),
    };
    assert(completes(r.records@, records@, fillers));
    r
}

/// A dispatch that lags changes neither the deadline nor the latency nor
/// the outcome. All three count from the intended dispatch.
pub proof fn lemma_lag_gives_nothing<E>(
    a: RequestRecord,
    b: RequestRecord,
    req: ScheduledRequest,
    oracle: Oracle,
    resp: Result<ProgramReply, E>,
    start: u128,
    done: u128,
    budget: u128,
    actual_a: u128,
    lateness_a: u128,
    actual_b: u128,
    lateness_b: u128,
)
    requires
        is_record_of(a, req, oracle, resp, start, actual_a, done, budget, lateness_a),
        is_record_of(b, req, oracle, resp, start, actual_b, done, budget, lateness_b),
    ensures
        a.deadline_ns == b.deadline_ns,
        a.latency() == b.latency(),
        a.outcome == b.outcome,
        a.expired == b.expired,
{
}

/// What a record says of a request, as long as the times fit in 64 bits: it was
/// due at its offset, and has the budget from there on; it took from when it
/// was due to the reply; it is late past its deadline, and only then.
pub proof fn lemma_record_measures<E>(
    r: RequestRecord,
    req: ScheduledRequest,
    oracle: Oracle,
    resp: Result<ProgramReply, E>,
    start: u128,
    actual: u128,
    done: u128,
    budget: u128,
    lateness: u128,
)
    requires
        is_record_of(r, req, oracle, resp, start, actual, done, budget, lateness),
        req.offset + budget <= u64::MAX,
        start <= actual <= start + u64::MAX,
        start <= done <= start + u64::MAX,
        lateness <= u64::MAX,
    ensures
        r.request_id == req.request_id,
        r.class == req.class,
        r.offered_load_rps == req.offered_load_rps,
        r.intended_dispatch_ns == req.offset,
        r.deadline_ns == req.offset + budget,
        r.actual_dispatch_ns == actual - start,
        r.completion_ns == Some((done - start) as u64),
        r.latency() == Some(
            (if done - start > req.offset {
                done - start - req.offset
            } else {
                0
            }) as nat,
        ),
        r.late_dispatch_ns == lateness,
        r.expired <==> done - start > req.offset + budget,
        r.outcome == Outcome::Expired <==> done - start > req.offset + budget,
        r.outcome == Outcome::Success ==> resp is Ok,
        r.outcome != Outcome::Dropped && r.outcome != Outcome::NeverServed,
        r.outcome == Outcome::Success ==> r.digest_ok == Some(true) && r.required_calls_met,
        r.first_byte_ns is None,
        match resp {
            Ok(reply) => r.response_digest == reply.digest && r.spans@ == reply.spans@,
            Err(_) => r.response_digest is None && r.spans.len() == 0 && !r.required_calls_met
                && r.digest_ok is None,
        },
{
}

/// A success took no longer than the budget.
pub proof fn lemma_success_within_budget<E>(
    r: RequestRecord,
    req: ScheduledRequest,
    oracle: Oracle,
    resp: Result<ProgramReply, E>,
    start: u128,
    actual: u128,
    done: u128,
    budget: u128,
    lateness: u128,
)
    requires
        is_record_of(r, req, oracle, resp, start, actual, done, budget, lateness),
        deadline_of(req.offset, budget) <= u64::MAX,
        r.outcome == Outcome::Success,
    ensures
        r.latency() matches Some(ns) && ns <= wrapped(budget as nat),
{
}

/// Giving up never pays: where the penalty exceeds the budget, every success
/// scores less than every failure.
pub proof fn lemma_success_beats_failure(
    good: RequestRecord,
    bad: RequestRecord,
    budget_ns: nat,
    penalty_ms: Binary64,
)
    requires
        good.outcome == Outcome::Success,
        good.latency() matches Some(ns) && ns <= budget_ns,
        bad.outcome != Outcome::Success,
        budget_ns <= LONGEST,
        ns_to_ms(budget_ns).less(penalty_ms),
    ensures
        good.scored(penalty_ms).less(bad.scored(penalty_ms)),
{
    lemma_ns_to_ms_monotone(good.latency()->0, budget_ns);
}

proof fn lemma_distinct_ids(
    records: Seq<RequestRecord>,
    requests: Seq<ScheduledRequest>,
    n: nat,
)
    requires
        n <= requests.len(),
    ensures
        forall|i: int|
            0 <= i < unrecorded(records, requests, n).len() ==> 0 <= #[trigger] unrecorded(
                records,
                requests,
                n,
            )[i] < n && !recorded(
                records,
                requests[unrecorded(records, requests, n)[i]].request_id,
            ),
        forall|i: int, j: int|
            0 <= i < j < unrecorded(records, requests, n).len() ==> unrecorded(
                records,
                requests,
                n,
            )[i] < unrecorded(records, requests, n)[j],
        forall|k: int|
            0 <= k < n && !recorded(records, (#[trigger] requests[k]).request_id) ==> unrecorded(
                records,
                requests,
                n,
            ).contains(k),
    decreases n,
{
    if n > 0 {
        lemma_distinct_ids(records, requests, (n - 1) as nat);
        let rest = unrecorded(records, requests, (n - 1) as nat);
        let full = unrecorded(records, requests, n);
        assert forall|k: int|
            0 <= k < n && !recorded(
                records,
                (#[trigger] requests[k]).request_id,
            ) implies full.contains(k) by {
            if k < n - 1 {
                let i = choose|i: int| 0 <= i < rest.len() && rest[i] == k;
                assert(full[i] == k);
            } else {
                assert(full[full.len() - 1] == k);
            }
        }
    }
}

/// Every scheduled request has exactly one record, whatever came back: where
/// the requests are numbered from 0 and no two replies answer the same one,
/// record `i` of the run is that of request `i`.
pub proof fn lemma_every_request_recorded(
    out: Seq<RequestRecord>,
    records: Seq<RequestRecord>,
    requests: Seq<ScheduledRequest>,
    budget: u128,
    fillers: Seq<RequestRecord>,
)
    requires
        fills(fillers, records, requests, budget),
        completes(out, records, fillers),
        requests.len() <= u64::MAX,
        records.len() + fillers.len() <= usize::MAX,
        forall|i: int| 0 <= i < requests.len() ==> (#[trigger] requests[i]).request_id == i,
        forall|i: int|
            0 <= i < records.len() ==> (#[trigger] records[i]).request_id < requests.len(),
        forall|i: int, j: int|
            0 <= i < j < records.len() ==> (#[trigger] records[i]).request_id != (
            #[trigger] records[j]).request_id,
    ensures
        out.len() == requests.len(),
        forall|i: int| 0 <= i < out.len() ==> (#[trigger] out[i]).request_id == i,
{
    let n = requests.len();
    let all = records + fillers;
    let keys = ids_of(all);
    let missing = unrecorded(records, requests, n);
    lemma_distinct_ids(records, requests, n);
    lemma_some_order(keys);
    let order = stable_order(keys);
    lemma_order_complete(keys, order);
    assert forall|i: int| 0 <= i < all.len() implies (#[trigger] keys[i]) < n by {
        if i >= records.len() {
            let f = fillers[i - records.len()];
            assert(is_never_served(f, requests[missing[i - records.len()]], budget));
        }
    }
    // No two records share an id.
    assert forall|i: int, j: int| 0 <= i < j < all.len() implies keys[i] != keys[j] by {
        if j >= records.len() {
            let b = missing[j - records.len()];
            assert(is_never_served(fillers[j - records.len()], requests[b], budget));
            if i < records.len() {
                assert(records[i].request_id == keys[i]);
                assert(!recorded(records, requests[b].request_id));
            } else {
                let a = missing[i - records.len()];
                assert(is_never_served(fillers[i - records.len()], requests[a], budget));
                assert(a < b);
            }
        }
    }
    // Every id occurs.
    assert forall|v: int| 0 <= v < n implies #[trigger] occurs(out, v) by {
        assert(requests[v].request_id == v);
        let p = if recorded(records, v as u64) {
            choose|k: int| 0 <= k < records.len() && (#[trigger] records[k]).request_id == v as u64
        } else {
            assert(missing.contains(v));
            let m = choose|m: int| 0 <= m < missing.len() && missing[m] == v;
            assert(is_never_served(fillers[m], requests[missing[m]], budget));
            records.len() + m
        };
        assert(keys[p] == v);
        assert(named(order, p));
        let q = choose|q: int| 0 <= q < order.len() && #[trigger] order[q] == p;
        assert(out[q].request_id == v);
    }
    // The ids grow along the records.
    assert forall|i: int, j: int| 0 <= i < j < out.len() implies (#[trigger] out[i]).request_id < (
    #[trigger] out[j]).request_id by {
        assert(before(keys, order[i], order[j]));
        assert(out[i].request_id == keys[order[i] as int]);
        assert(out[j].request_id == keys[order[j] as int]);
        if keys[order[i] as int] == keys[order[j] as int] {
            assert(order[i] != order[j]);
        }
    }
    assert forall|i: int| 0 <= i < out.len() implies (#[trigger] out[i]).request_id < n by {
        assert(keys[order[i] as int] < n);
    }
    lemma_numbered(out, n, n);
    if out.len() > n {
        assert(out[n as int].request_id < n);
        if n > 0 {
            assert(out[n - 1].request_id < out[n as int].request_id);
        }
    }
}

/// A request that nothing came back for is recorded as such, with its own
/// deadline and as never completed.
pub open spec fn unanswered(r: RequestRecord, req: ScheduledRequest, budget: u128) -> bool {
    &&& r.request_id == req.request_id
    &&& r.class == req.class
    &&& r.outcome == Outcome::NeverServed
    &&& r.completion_ns is None
    &&& r.expired
    &&& !r.required_calls_met
    &&& r.spans.len() == 0
    &&& r.response_digest is None
    &&& r.digest_ok is None
    &&& r.first_byte_ns is None
    &&& r.late_dispatch_ns == 0
    &&& r.offered_load_rps == req.offered_load_rps
    &&& req.offset + budget <= u64::MAX ==> r.intended_dispatch_ns == req.offset
        && r.actual_dispatch_ns == req.offset && r.deadline_ns == req.offset + budget
}

/// The records of a run are those that came back, each of them, and beside them
/// only such as stand for requests without one.
pub proof fn lemma_nothing_made_up(
    out: Seq<RequestRecord>,
    records: Seq<RequestRecord>,
    requests: Seq<ScheduledRequest>,
    budget: u128,
    fillers: Seq<RequestRecord>,
)
    requires
        fills(fillers, records, requests, budget),
        completes(out, records, fillers),
        records.len() + fillers.len() <= usize::MAX,
    ensures
        out.len() == records.len() + fillers.len(),
        forall|j: int| 0 <= j < records.len() ==> out.contains(#[trigger] records[j]),
        forall|i: int|
            0 <= i < out.len() ==> records.contains(#[trigger] out[i]) || exists|k: int|
                0 <= k < requests.len() && !recorded(
                    records,
                    (#[trigger] requests[k]).request_id,
                ) && unanswered(out[i], requests[k], budget),
{
    let all = records + fillers;
    let keys = ids_of(all);
    let missing = unrecorded(records, requests, requests.len());
    lemma_distinct_ids(records, requests, requests.len());
    lemma_some_order(keys);
    let order = stable_order(keys);
    lemma_order_complete(keys, order);
    assert forall|j: int| 0 <= j < records.len() implies out.contains(#[trigger] records[j]) by {
        assert(named(order, j));
        let q = choose|q: int| 0 <= q < order.len() && #[trigger] order[q] == j;
        assert(out[q] == all[j]);
    }
    assert forall|i: int| 0 <= i < out.len() implies records.contains(#[trigger] out[i])
        || exists|k: int|
        0 <= k < requests.len() && !recorded(records, (#[trigger] requests[k]).request_id)
            && unanswered(out[i], requests[k], budget) by {
        let p = order[i] as int;
        assert(out[i] == all[p]);
        if p >= records.len() {
            let m = p - records.len();
            assert(is_never_served(fillers[m], requests[missing[m]], budget));
            assert(unanswered(out[i], requests[missing[m]], budget));
        } else {
            assert(records[p] == out[i]);
        }
    }
}

/// Every request of the schedule has its whole budget, and a second more, before
/// the wait for it ends.
pub proof fn lemma_every_deadline_passes(duration: u128, budget: u128, offset: u128)
    requires
        offset <= duration,
        duration + budget <= u64::MAX,
    ensures
        deadline_of(offset, budget) == offset + budget,
        deadline_of(offset, budget) + 1_000_000_000 <= drained(duration, budget),
        offset == duration ==> deadline_of(offset, budget) + 1_000_000_000 == drained(
            duration,
            budget,
        ),
{
}

/// A record of this id is there.
spec fn occurs(records: Seq<RequestRecord>, v: int) -> bool {
    exists|i: int| 0 <= i < records.len() && (#[trigger] records[i]).request_id == v
}

/// Growing numbers among which each of `0 .. n` occurs start with these.
proof fn lemma_numbered(out: Seq<RequestRecord>, n: nat, k: nat)
    requires
        k <= n,
        forall|i: int, j: int|
            0 <= i < j < out.len() ==> (#[trigger] out[i]).request_id < (
            #[trigger] out[j]).request_id,
        forall|v: int| 0 <= v < n ==> #[trigger] occurs(out, v),
    ensures
        out.len() >= k,
        forall|i: int| 0 <= i < k ==> (#[trigger] out[i]).request_id == i,
    decreases k,
{
    if k > 0 {
        lemma_numbered(out, n, (k - 1) as nat);
        assert(occurs(out, k - 1));
        let p = choose|p: int| 0 <= p < out.len() && (#[trigger] out[p]).request_id == k - 1;
        if p < k - 1 {
            assert(out[p].request_id == p);
        }
        if p > k - 1 {
            assert(out[k - 1].request_id < out[p].request_id);
            if k > 1 {
                assert(out[k - 2].request_id < out[k - 1].request_id);
            }
        }
    }
}

} // verus!
