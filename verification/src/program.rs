//! The program under test, in its correct and fault-free form: every required
//! call made at once, the replies folded into a digest.
//!
//! It sees the messages, the calls and the fold, and nothing that scores it.

use vstd::prelude::*;
use vstd::string::StringExecFns;

use crate::call::span_of;
use crate::call::CallCtx;
use crate::call::CallReply;
use crate::digest::fold_digest;
use crate::digest::folded;
use crate::protocol::ProgramReply;
use crate::protocol::ProgramRequest;
use crate::protocol::ServiceReply;
use crate::span::CallSpan;

verus! {

/// The replies of one request, up to the first call that failed.
pub struct Gathered<E> {
    pub spans: Vec<CallSpan>,
    pub digests: Vec<u64>,
    pub failed: Option<(String, E)>,
}

/// How many calls come before the first that failed.
pub open spec fn answered<E>(results: Seq<(String, Result<CallReply, E>)>, i: int) -> int
    decreases results.len() - i,
{
    if 0 <= i < results.len() && results[i].1 is Ok {
        answered(results, i + 1)
    } else {
        i
    }
}

/// The digests that the first `n` replies carry.
pub open spec fn digests_of<E>(results: Seq<(String, Result<CallReply, E>)>, n: nat) -> Seq<u64>
    decreases n,
{
    if n == 0 {
        Seq::empty()
    } else {
        let rest = digests_of(results, (n - 1) as nat);
        match results[n - 1].1 {
            Ok(reply) => match reply.digest {
                Some(d) => rest.push(d),
                None => rest,
            },
            Err(_) => rest,
        }
    }
}

/// `span` reports this reply.
pub open spec fn reports(span: CallSpan, name: Seq<char>, ctx: CallCtx, reply: CallReply) -> bool {
    &&& span.downstream_id@ == name
    &&& span.attempt == ctx.attempt
    &&& span.queue_wait_ns == reply.queue_wait_ns
    &&& span.service_ns == reply.service_ns
    &&& span.outcome == reply.outcome
}

/// `spans` report the first `n` replies, one each, in order.
pub open spec fn report_first<E>(
    spans: Seq<CallSpan>,
    ctx: CallCtx,
    results: Seq<(String, Result<CallReply, E>)>,
    n: int,
) -> bool {
    &&& spans.len() == n
    &&& forall|i: int|
        0 <= i < n ==> reports(
            #[trigger] spans[i],
            results[i].0@,
            ctx,
            results[i].1->Ok_0,
        )
}

/// The calls that a request asks for: each required downstream, first attempt.
pub fn plan(req: &ProgramRequest) -> (r: (CallCtx, Vec<String>))
    ensures
        r.0 == (CallCtx { request_id: req.request_id, attempt: 0 }),
        r.1@ == req.required@,
{
    let names: Vec<String> = req.required.clone();
    assert(names@ =~= req.required@);
    (CallCtx { request_id: req.request_id, attempt: 0 }, names)
}

/// Collects the replies in order, up to the first call that failed.
pub fn gather<E>(ctx: CallCtx, results: Vec<(String, Result<CallReply, E>)>) -> (r: Gathered<E>)
    ensures
        report_first(r.spans@, ctx, results@, answered(results@, 0)),
        r.digests@ == digests_of(results@, answered(results@, 0) as nat),
        match r.failed {
            Some((name, e)) => {
                &&& answered(results@, 0) < results.len()
                &&& results[answered(results@, 0)] == (name, Err::<CallReply, E>(e))
            },
            None => answered(results@, 0) == results.len(),
        },
{
    let ghost all = results@;
    let mut calls: Vec<(String, Result<CallReply, E>)> = results;
    let mut spans: Vec<CallSpan> = Vec::new();
    let mut digests: Vec<u64> = Vec::new();
    let mut i: usize = 0;
    while i < calls.len()
        invariant
            i <= calls.len(),
            calls@ == all,
            all == results@,
            answered(all, 0) == answered(all, i as int),
            report_first(spans@, ctx, all, i as int),
            digests@ == digests_of(all, i as nat),
        decreases calls.len() - i,
    {
        if calls[i].1.is_err() {
            let (name, reply): (String, Result<CallReply, E>) = calls.swap_remove(i);
            match reply {
                Err(e) => {
                    return Gathered { spans, digests, failed: Some((name, e)) };
                },
                Ok(_) => {},
            }
            return Gathered { spans, digests, failed: None };
        }
        if let Ok(reply) = &calls[i].1 {
            spans.push(span_of(calls[i].0.as_str(), ctx, reply));
            if let Some(d) = reply.digest {
                digests.push(d);
            }
        }
        i = i + 1;
    }
    Gathered { spans, digests, failed: None }
}

/// Answers a request from the replies to its calls. `results` holds, for each
/// call, the downstream and either its reply or why there is none.
pub fn handle(req: &ProgramRequest, results: Vec<(String, Result<CallReply, String>)>) -> (r:
    ProgramReply)
    ensures
        r.tag == req.tag,
        report_first(
            r.spans@,
            (CallCtx { request_id: req.request_id, attempt: 0 }),
            results@,
            answered(results@, 0),
        ),
        answered(results@, 0) == results.len() ==> r.error is None && r.digest == Some(
            folded(req.nonce, digests_of(results@, results.len() as nat)),
        ),
        answered(results@, 0) < results.len() ==> {
            let (name, reply) = results[answered(results@, 0)];
            &&& r.digest is None
            &&& r.error matches Some(text) && text@ == name@ + ": "@ + reply->Err_0@
        },
{
    let ctx = CallCtx { request_id: req.request_id, attempt: 0 };
    let mut gathered: Gathered<String> = gather(ctx, results);
    match gathered.failed {
        Some((name, e)) => {
            let mut text: String = name;
            text.append(": ");
            text.append(e.as_str());
            ServiceReply {
                tag: req.tag,
                digest: None,
                spans: gathered.spans,
                error: Some(text),
            }
        },
        None => {
            let digest: u64 = fold_digest(req.nonce, &mut gathered.digests);
            ServiceReply {
                tag: req.tag,
                digest: Some(digest),
                spans: gathered.spans,
                error: None,
            }
        },
    }
}

} // verus!
