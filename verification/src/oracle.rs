//! What counts as success. The program under test must not reach this module.

use vstd::prelude::*;

use crate::call::CallCtx;
use crate::call::CallReply;
use crate::config::Config;
use crate::config::DownstreamCfg;
use crate::digest::fold_digest;
use crate::digest::folded;
use crate::digest::lemma_fold_order_independent;
use crate::program::answered;
use crate::program::digests_of;
use crate::program::report_first;
use crate::protocol::ProgramReply;
use crate::record::Outcome;
use crate::rng::call_digest;
use crate::rng::digest_of_call;
use crate::span::CallOutcome;
use crate::span::CallSpan;
use crate::timeline::ScheduledRequest;

verus! {

pub struct Oracle {
    seed: u64,
    downstream_index: Vec<(String, u16)>,
}

/// The ids of the downstreams, in order.
pub open spec fn ids(downstreams: Seq<DownstreamCfg>) -> Seq<Seq<char>> {
    Seq::new(downstreams.len(), |i: int| downstreams[i].id@)
}

/// The index of the first id, from the `i`th on, that is `id`, as 16 bits.
pub open spec fn index_from(names: Seq<Seq<char>>, id: Seq<char>, i: int) -> Option<u16>
    decreases names.len() - i,
{
    if i >= names.len() {
        None
    } else if names[i] == id {
        Some((i % 0x1_0000) as u16)
    } else {
        index_from(names, id, i + 1)
    }
}

/// What the required downstreams return for a request. Names that no
/// downstream has are passed over.
pub open spec fn required_digests(
    seed: u64,
    names: Seq<Seq<char>>,
    request_id: u64,
    required: Seq<String>,
) -> Seq<u64>
    decreases required.len(),
{
    if required.len() == 0 {
        Seq::empty()
    } else {
        let rest = required_digests(seed, names, request_id, required.drop_last());
        match index_from(names, required.last()@, 0) {
            Some(index) => rest.push(digest_of_call(seed, request_id, index)),
            None => rest,
        }
    }
}

/// A call to this downstream succeeded.
pub open spec fn served(spans: Seq<CallSpan>, id: Seq<char>) -> bool {
    exists|k: int|
        0 <= k < spans.len() && (#[trigger] spans[k]).outcome == CallOutcome::Success
            && spans[k].downstream_id@ == id
}

/// Every required downstream has at least one successful call. A minimum:
/// extra calls are fine, and so is any order.
pub open spec fn all_served(required: Seq<String>, spans: Seq<CallSpan>) -> bool {
    forall|i: int| 0 <= i < required.len() ==> served(spans, (#[trigger] required[i])@)
}

impl Oracle {
    pub closed spec fn seed(self) -> u64 {
        self.seed
    }

    /// The ids of the downstreams, in order.
    pub closed spec fn names(self) -> Seq<Seq<char>> {
        Seq::new(self.downstream_index@.len(), |i: int| self.downstream_index[i].0@)
    }

    /// Each id carries its own index.
    pub closed spec fn well_formed(self) -> bool {
        forall|i: int|
            0 <= i < self.downstream_index.len() ==> (#[trigger] self.downstream_index[i]).1 == i
                % 0x1_0000
    }

    pub fn new(cfg: &Config) -> (r: Self)
        ensures
            r.well_formed(),
            r.seed() == cfg.scenario.seed,
            r.names() == ids(cfg.downstreams@),
    {
        let mut downstream_index: Vec<(String, u16)> = Vec::new();
        let mut i: usize = 0;
        while i < cfg.downstreams.len()
            invariant
                i <= cfg.downstreams.len(),
                downstream_index.len() == i,
                forall|j: int|
                    0 <= j < i ==> (#[trigger] downstream_index[j]).1 == j % 0x1_0000
                        && downstream_index[j].0@ == cfg.downstreams[j].id@,
            decreases cfg.downstreams.len() - i,
        {
            downstream_index.push((cfg.downstreams[i].id.clone(), (i % 0x1_0000) as u16));
            i = i + 1;
        }
        let r = Oracle { seed: cfg.scenario.seed, downstream_index };
        assert(r.names() =~= ids(cfg.downstreams@));
        r
    }

    /// The index of a downstream.
    pub fn index_of(&self, id: &str) -> (r: Option<u16>)
        requires
            self.well_formed(),
        ensures
            r == index_from(self.names(), id@, 0),
    {
        let wanted: String = id.to_owned();
        let mut i: usize = 0;
        while i < self.downstream_index.len()
            invariant
                i <= self.downstream_index.len(),
                wanted@ == id@,
                self.well_formed(),
                index_from(self.names(), id@, 0) == index_from(self.names(), id@, i as int),
            decreases self.downstream_index.len() - i,
        {
            if self.downstream_index[i].0 == wanted {
                return Some(self.downstream_index[i].1);
            }
            i = i + 1;
        }
        None
    }

    /// The digest that a correct service produces for a request.
    pub open spec fn expected(self, req: ScheduledRequest) -> u64 {
        folded(
            req.nonce,
            required_digests(self.seed(), self.names(), req.request_id, req.required@),
        )
    }

    /// The digest that a correct service must produce. Known without the
    /// service: what it is folded from can be had only by making the calls.
    pub fn expected_digest(&self, req: &ScheduledRequest) -> (r: u64)
        requires
            self.well_formed(),
        ensures
            r == self.expected(*req),
    {
        let mut digests: Vec<u64> = Vec::new();
        let mut i: usize = 0;
        while i < req.required.len()
            invariant
                i <= req.required.len(),
                self.well_formed(),
                digests@ == required_digests(
                    self.seed(),
                    self.names(),
                    req.request_id,
                    req.required@.take(i as int),
                ),
            decreases req.required.len() - i,
        {
            proof {
                let next = req.required@.take(i + 1);
                assert(next.drop_last() =~= req.required@.take(i as int));
            }
            if let Some(index) = self.index_of(req.required[i].as_str()) {
                digests.push(call_digest(self.seed, req.request_id, index));
            }
            i = i + 1;
        }
        assert(req.required@.take(i as int) =~= req.required@);
        fold_digest(req.nonce, &mut digests)
    }

    /// Whether a call to this downstream succeeded.
    fn is_served(spans: &Vec<CallSpan>, id: &String) -> (r: bool)
        ensures
            r == served(spans@, id@),
    {
        let mut k: usize = 0;
        while k < spans.len()
            invariant
                k <= spans.len(),
                forall|j: int|
                    0 <= j < k ==> !((#[trigger] spans[j]).outcome == CallOutcome::Success
                        && spans[j].downstream_id@ == id@),
            decreases spans.len() - k,
        {
            if spans[k].outcome == CallOutcome::Success && spans[k].downstream_id == *id {
                return true;
            }
            k = k + 1;
        }
        false
    }

    /// Whether every required downstream had a successful call.
    pub fn required_calls_met(&self, req: &ScheduledRequest, spans: &Vec<CallSpan>) -> (r: bool)
        ensures
            r == all_served(req.required@, spans@),
    {
        let mut i: usize = 0;
        while i < req.required.len()
            invariant
                i <= req.required.len(),
                forall|j: int| 0 <= j < i ==> served(spans@, (#[trigger] req.required[j])@),
            decreases req.required.len() - i,
        {
            if !Self::is_served(spans, &req.required[i]) {
                return false;
            }
            i = i + 1;
        }
        true
    }

    /// The verdict on a reply: the outcome, whether the digest matched, and
    /// whether the required calls were made. The deadline comes first: past it
    /// a response has no value, correct or not, and an error counts no less as
    /// late.
    pub open spec fn verdict(
        self,
        req: ScheduledRequest,
        reply: ProgramReply,
        completion_ns: u64,
        deadline_ns: u64,
    ) -> (Outcome, Option<bool>, bool) {
        let met = all_served(req.required@, reply.spans@);
        let digest_ok = match reply.digest {
            Some(d) => Some(d == self.expected(req)),
            None => None,
        };
        if completion_ns > deadline_ns {
            (Outcome::Expired, digest_ok, met)
        } else if reply.error is Some {
            (Outcome::Error, None, false)
        } else if !met || digest_ok != Some(true) {
            (Outcome::Incorrect, digest_ok, met)
        } else {
            (Outcome::Success, digest_ok, met)
        }
    }

    /// The verdict on a call that failed altogether: expired past the deadline,
    /// an error before it.
    pub open spec fn verdict_on_failure(completion_ns: u64, deadline_ns: u64) -> (
        Outcome,
        Option<bool>,
        bool,
    ) {
        if completion_ns > deadline_ns {
            (Outcome::Expired, None, false)
        } else {
            (Outcome::Error, None, false)
        }
    }

    /// Classifies one request.
    pub fn classify<E>(
        &self,
        req: &ScheduledRequest,
        resp: &Result<ProgramReply, E>,
        completion_ns: u64,
        deadline_ns: u64,
    ) -> (r: (Outcome, Option<bool>, bool))
        requires
            self.well_formed(),
        ensures
            r == (match *resp {
                Ok(reply) => self.verdict(*req, reply, completion_ns, deadline_ns),
                Err(_) => Self::verdict_on_failure(completion_ns, deadline_ns),
            }),
    {
        let late: bool = completion_ns > deadline_ns;
        match resp {
            Err(_) => {
                if late {
                    (Outcome::Expired, None, false)
                } else {
                    (Outcome::Error, None, false)
                }
            },
            Ok(reply) => {
                let met: bool = self.required_calls_met(req, &reply.spans);
                let digest_ok: Option<bool> = match reply.digest {
                    Some(d) => Some(d == self.expected_digest(req)),
                    None => None,
                };
                if late {
                    return (Outcome::Expired, digest_ok, met);
                }
                if reply.error.is_some() {
                    return (Outcome::Error, None, false);
                }
                let matched: bool = match digest_ok {
                    Some(m) => m,
                    None => false,
                };
                if !met || !matched {
                    return (Outcome::Incorrect, digest_ok, met);
                }
                (Outcome::Success, digest_ok, met)
            },
        }
    }
}

/// A request succeeds exactly when the reply carries no error, comes by the
/// deadline, reports every required call and folds to the expected digest.
pub proof fn lemma_success(
    o: Oracle,
    req: ScheduledRequest,
    reply: ProgramReply,
    completion_ns: u64,
    deadline_ns: u64,
)
    ensures
        o.verdict(req, reply, completion_ns, deadline_ns).0 == Outcome::Success <==> {
            &&& reply.error is None
            &&& completion_ns <= deadline_ns
            &&& all_served(req.required@, reply.spans@)
            &&& reply.digest == Some(o.expected(req))
        },
{
}

/// The successful calls to one downstream.
pub open spec fn successful_calls(spans: Seq<CallSpan>, id: Seq<char>) -> Seq<CallSpan> {
    spans.filter(|c: CallSpan| c.outcome == CallOutcome::Success && c.downstream_id@ == id)
}

/// What is required is made only by successful calls: a call that timed out or
/// failed counts for nothing, and one to another downstream neither.
pub proof fn lemma_required_calls(required: Seq<String>, spans: Seq<CallSpan>)
    ensures
        all_served(required, spans) <==> forall|i: int|
            0 <= i < required.len() ==> successful_calls(spans, (#[trigger] required[i])@).len()
                > 0,
{
    assert forall|i: int| 0 <= i < required.len() implies (served(
        spans,
        (#[trigger] required[i])@,
    ) <==> successful_calls(spans, required[i]@).len() > 0) by {
        lemma_served_by_success(spans, required[i]@);
    }
    if all_served(required, spans) {
        assert forall|i: int| 0 <= i < required.len() implies successful_calls(
            spans,
            (#[trigger] required[i])@,
        ).len() > 0 by {
            assert(served(spans, required[i]@));
        }
    }
}

proof fn lemma_served_by_success(spans: Seq<CallSpan>, id: Seq<char>)
    ensures
        served(spans, id) <==> successful_calls(spans, id).len() > 0,
    decreases spans.len(),
{
    reveal(Seq::filter);
    if spans.len() > 0 {
        let rest = spans.drop_last();
        lemma_served_by_success(rest, id);
        if served(spans, id) {
            let k = choose|k: int|
                0 <= k < spans.len() && (#[trigger] spans[k]).outcome == CallOutcome::Success
                    && spans[k].downstream_id@ == id;
            if k < rest.len() {
                assert(rest[k].outcome == CallOutcome::Success);
            }
        }
        if served(rest, id) {
            let k = choose|k: int|
                0 <= k < rest.len() && (#[trigger] rest[k]).outcome == CallOutcome::Success
                    && rest[k].downstream_id@ == id;
            assert(spans[k].outcome == CallOutcome::Success);
        }
        if spans.last().outcome == CallOutcome::Success && spans.last().downstream_id@ == id {
            assert(spans[spans.len() - 1].outcome == CallOutcome::Success);
        }
    }
}

/// A reply on time is an error if it carries one; without one it is incorrect
/// as soon as a required call is missing or the digest is not the expected one.
/// A call that failed on time is an error.
pub proof fn lemma_verdict_on_time(
    o: Oracle,
    req: ScheduledRequest,
    reply: ProgramReply,
    completion_ns: u64,
    deadline_ns: u64,
)
    requires
        completion_ns <= deadline_ns,
    ensures
        ({
            let verdict = o.verdict(req, reply, completion_ns, deadline_ns);
            let met = all_served(req.required@, reply.spans@);
            let right = reply.digest == Some(o.expected(req));
            &&& verdict.0 == Outcome::Error <==> reply.error is Some
            &&& verdict.0 == Outcome::Incorrect <==> reply.error is None && !(met && right)
            &&& verdict.0 == Outcome::Success <==> reply.error is None && met && right
            &&& reply.error is None ==> verdict.2 == met
            &&& reply.error is None && reply.digest is Some ==> verdict.1 == Some(right)
            &&& reply.digest is None ==> verdict.1 is None
            &&& reply.error is Some ==> verdict.1 is None && !verdict.2
        }),
        Oracle::verdict_on_failure(completion_ns, deadline_ns) == (
            Outcome::Error,
            None::<bool>,
            false,
        ),
{
}

/// Whatever comes after the deadline is expired, correct or not: a right
/// answer, a wrong one, an error, or a call that failed.
pub proof fn lemma_late_expires(
    o: Oracle,
    req: ScheduledRequest,
    reply: ProgramReply,
    completion_ns: u64,
    deadline_ns: u64,
)
    requires
        completion_ns > deadline_ns,
    ensures
        o.verdict(req, reply, completion_ns, deadline_ns).0 == Outcome::Expired,
        Oracle::verdict_on_failure(completion_ns, deadline_ns).0 == Outcome::Expired,
{
}

/// Calls may be made, and their values folded, in any order: what counts is
/// which values there are.
pub proof fn lemma_call_order_free(
    o: Oracle,
    req: ScheduledRequest,
    reply: ProgramReply,
    digests: Seq<u64>,
    completion_ns: u64,
    deadline_ns: u64,
)
    requires
        reply.error is None,
        completion_ns <= deadline_ns,
        all_served(req.required@, reply.spans@),
        reply.digest == Some(folded(req.nonce, digests)),
        digests.to_multiset() == required_digests(
            o.seed(),
            o.names(),
            req.request_id,
            req.required@,
        ).to_multiset(),
    ensures
        o.verdict(req, reply, completion_ns, deadline_ns).0 == Outcome::Success,
{
    lemma_fold_order_independent(
        req.nonce,
        digests,
        required_digests(o.seed(), o.names(), req.request_id, req.required@),
    );
}

/// Extra calls never hurt, and neither does the order: whoever made the calls
/// of `a` and perhaps more, in whatever order, has made what is required.
pub proof fn lemma_extra_calls_allowed(required: Seq<String>, a: Seq<CallSpan>, b: Seq<CallSpan>)
    requires
        all_served(required, a),
        forall|k: int| 0 <= k < a.len() ==> b.contains(#[trigger] a[k]),
    ensures
        all_served(required, b),
{
    assert forall|i: int| 0 <= i < required.len() implies served(b, (#[trigger] required[i])@) by {
        assert(served(a, required[i]@));
        let k = choose|k: int|
            0 <= k < a.len() && (#[trigger] a[k]).outcome == CallOutcome::Success
                && a[k].downstream_id@ == required[i]@;
        assert(b.contains(a[k]));
        let m = choose|m: int| 0 <= m < b.len() && b[m] == a[k];
        assert(b[m].outcome == CallOutcome::Success);
    }
}

/// The calls that a request requires, each answered with the value that its
/// downstream returns.
pub open spec fn honest(
    o: Oracle,
    req: ScheduledRequest,
    results: Seq<(String, Result<CallReply, String>)>,
) -> bool {
    &&& results.len() == req.required.len()
    &&& forall|i: int|
        0 <= i < results.len() ==> {
            &&& (#[trigger] results[i]).0@ == req.required[i]@
            &&& index_from(o.names(), req.required[i]@, 0) is Some
            &&& results[i].1 matches Ok(reply) && reply.outcome == CallOutcome::Success
                && reply.digest == Some(
                digest_of_call(
                    o.seed(),
                    req.request_id,
                    index_from(o.names(), req.required[i]@, 0)->0,
                ),
            )
        }
}

proof fn lemma_all_answered<E>(results: Seq<(String, Result<CallReply, E>)>, i: int)
    requires
        0 <= i <= results.len(),
        forall|j: int| 0 <= j < results.len() ==> (#[trigger] results[j]).1 is Ok,
    ensures
        answered(results, i) == results.len(),
    decreases results.len() - i,
{
    if i < results.len() {
        lemma_all_answered(results, i + 1);
    }
}

proof fn lemma_honest_digests(
    o: Oracle,
    req: ScheduledRequest,
    results: Seq<(String, Result<CallReply, String>)>,
    n: nat,
)
    requires
        honest(o, req, results),
        n <= results.len(),
    ensures
        digests_of(results, n) == required_digests(
            o.seed(),
            o.names(),
            req.request_id,
            req.required@.take(n as int),
        ),
    decreases n,
{
    let prefix = req.required@.take(n as int);
    if n > 0 {
        lemma_honest_digests(o, req, results, (n - 1) as nat);
        assert(prefix.drop_last() =~= req.required@.take(n - 1));
        assert(prefix.last() == req.required[n - 1]);
        assert(results[n - 1].0@ == req.required[n - 1]@);
    }
}

/// A program that makes the required calls and folds what they return is
/// scored a success, as long as it is on time.
pub proof fn lemma_honest_work_succeeds(
    o: Oracle,
    req: ScheduledRequest,
    results: Seq<(String, Result<CallReply, String>)>,
    reply: ProgramReply,
    completion_ns: u64,
    deadline_ns: u64,
)
    requires
        honest(o, req, results),
        reply.error is None,
        reply.digest == Some(folded(req.nonce, digests_of(results, results.len()))),
        report_first(
            reply.spans@,
            (CallCtx { request_id: req.request_id, attempt: 0 }),
            results,
            results.len() as int,
        ),
        completion_ns <= deadline_ns,
    ensures
        answered(results, 0) == results.len(),
        o.verdict(req, reply, completion_ns, deadline_ns) == (Outcome::Success, Some(true), true),
{
    lemma_all_answered(results, 0);
    lemma_honest_digests(o, req, results, results.len());
    assert(req.required@.take(results.len() as int) =~= req.required@);
    assert forall|i: int| 0 <= i < req.required.len() implies served(
        reply.spans@,
        (#[trigger] req.required[i])@,
    ) by {
        assert(results[i].0@ == req.required[i]@);
        assert(reply.spans[i].outcome == CallOutcome::Success);
    }
}

/// The expected digest is folded from one value for each required downstream,
/// each by its own position among the downstreams.
pub proof fn lemma_expected_values(
    o: Oracle,
    request_id: u64,
    required: Seq<String>,
    positions: Seq<int>,
)
    requires
        o.names().len() <= 0x1_0000,
        forall|i: int, j: int|
            0 <= i < j < o.names().len() ==> #[trigger] o.names()[i] != #[trigger] o.names()[j],
        positions.len() == required.len(),
        forall|i: int|
            0 <= i < required.len() ==> 0 <= #[trigger] positions[i] < o.names().len()
                && o.names()[positions[i]] == required[i]@,
    ensures
        required_digests(o.seed(), o.names(), request_id, required) == Seq::new(
            required.len(),
            |i: int| digest_of_call(o.seed(), request_id, positions[i] as u16),
        ),
    decreases required.len(),
{
    let f = |i: int| digest_of_call(o.seed(), request_id, positions[i] as u16);
    if required.len() > 0 {
        let n = required.len() - 1;
        let rest = required.drop_last();
        let fewer = positions.drop_last();
        assert forall|i: int| 0 <= i < rest.len() implies 0 <= #[trigger] fewer[i] < o.names().len()
            && o.names()[fewer[i]] == rest[i]@ by {
            assert(fewer[i] == positions[i]);
        }
        lemma_expected_values(o, request_id, rest, fewer);
        let p = positions[n];
        lemma_index_at(o.names(), required[n]@, 0, p);
        assert(Seq::new(
            rest.len(),
            |i: int| digest_of_call(o.seed(), request_id, fewer[i] as u16),
        ).push(digest_of_call(o.seed(), request_id, p as u16)) =~= Seq::new(required.len(), f));
    } else {
        assert(Seq::new(required.len(), f) =~= Seq::<u64>::empty());
    }
}

proof fn lemma_index_at(names: Seq<Seq<char>>, id: Seq<char>, i: int, p: int)
    requires
        0 <= i <= p < names.len() <= 0x1_0000,
        names[p] == id,
        forall|j: int, k: int| 0 <= j < k < names.len() ==> #[trigger] names[j] != #[trigger] names[k],
    ensures
        index_from(names, id, i) == Some(p as u16),
    decreases p - i,
{
    if i < p {
        assert(names[i] != names[p]);
        lemma_index_at(names, id, i + 1, p);
    }
}

} // verus!
