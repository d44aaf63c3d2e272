//! What a request is answered from.

use vstd::prelude::*;

use crate::call::CallCtx;
use crate::call::CallReply;
use crate::program::answered;
use crate::program::digests_of;
use crate::program::report_first;
use crate::program::reports;
use crate::span::CallSpan;

verus! {

proof fn lemma_answered_from<E>(results: Seq<(String, Result<CallReply, E>)>, i: int)
    requires
        0 <= i <= results.len(),
    ensures
        i <= answered(results, i) <= results.len(),
        forall|j: int| i <= j < answered(results, i) ==> (#[trigger] results[j]).1 is Ok,
        answered(results, i) < results.len() ==> results[answered(results, i)].1 is Err,
    decreases results.len() - i,
{
    if i < results.len() && results[i].1 is Ok {
        lemma_answered_from(results, i + 1);
    }
}

/// A request is answered from all of its calls or from none: it fails with the
/// first call that did, and only if one did.
pub proof fn lemma_first_failure<E>(results: Seq<(String, Result<CallReply, E>)>)
    ensures
        ({
            let k = answered(results, 0);
            &&& 0 <= k <= results.len()
            &&& forall|j: int| 0 <= j < k ==> (#[trigger] results[j]).1 is Ok
            &&& k < results.len() ==> results[k].1 is Err
            &&& k == results.len() <==> forall|j: int|
                0 <= j < results.len() ==> (#[trigger] results[j]).1 is Ok
        }),
{
    lemma_answered_from(results, 0);
}

/// Where every call returned a value, the digest is folded from all of these,
/// in the order of the calls.
pub proof fn lemma_every_value_folded<E>(results: Seq<(String, Result<CallReply, E>)>, n: nat)
    requires
        n <= results.len(),
        forall|j: int|
            0 <= j < n ==> ((#[trigger] results[j]).1 matches Ok(reply) && reply.digest is Some),
    ensures
        digests_of(results, n) == Seq::new(n, |j: int| results[j].1->Ok_0.digest->0),
    decreases n,
{
    if n > 0 {
        lemma_every_value_folded(results, (n - 1) as nat);
        assert(results[n - 1].1 is Ok);
        assert(Seq::new((n - 1) as nat, |j: int| results[j].1->Ok_0.digest->0).push(
            results[n - 1].1->Ok_0.digest->0,
        ) =~= Seq::new(n, |j: int| results[j].1->Ok_0.digest->0));
    }
}

/// A call without a value, such as one that timed out, adds nothing to the
/// digest.
pub proof fn lemma_no_value_no_digest<E>(results: Seq<(String, Result<CallReply, E>)>, n: nat)
    requires
        0 < n <= results.len(),
        results[n - 1].1 matches Ok(reply) ==> reply.digest is None,
    ensures
        digests_of(results, n) == digests_of(results, (n - 1) as nat),
{
}

/// A request reports its calls as they went: one span for each, in order, with
/// the downstream, the time in the queue, the time it was served, and how it
/// ended.
pub proof fn lemma_calls_reported<E>(
    spans: Seq<CallSpan>,
    ctx: CallCtx,
    results: Seq<(String, Result<CallReply, E>)>,
    n: int,
    i: int,
)
    requires
        report_first(spans, ctx, results, n),
        0 <= i < n <= results.len(),
        results[i].1 is Ok,
    ensures
        spans.len() == n,
        ({
            let reply = results[i].1->Ok_0;
            &&& spans[i].downstream_id@ == results[i].0@
            &&& spans[i].attempt == ctx.attempt
            &&& spans[i].queue_wait_ns == reply.queue_wait_ns
            &&& spans[i].service_ns == reply.service_ns
            &&& spans[i].outcome == reply.outcome
        }),
{
    assert(reports(spans[i], results[i].0@, ctx, results[i].1->Ok_0));
}

} // verus!
