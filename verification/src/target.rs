//! Targets that answer within the harness itself, to check it against.

use vstd::prelude::*;

use crate::call::CallCtx;
use crate::call::CallReply;
use crate::digest::fold_digest;
use crate::digest::folded;
use crate::program::answered;
use crate::program::digests_of;
use crate::program::gather;
use crate::program::report_first;
use crate::program::Gathered;
use crate::record::Outcome;
use crate::span::CallSpan;
use crate::timeline::ScheduledRequest;

verus! {

/// What a target hands back for one request.
#[derive(Debug)]
pub struct Response {
    pub digest: Option<u64>,
    pub spans: Vec<CallSpan>,
    /// Set only when the service itself failed or refused.
    pub failure: Option<Outcome>,
}

/// Answers a scheduled request within the harness itself. The first call that
/// failed is the result.
pub fn fanout_response<E>(
    req: &ScheduledRequest,
    results: Vec<(String, Result<CallReply, E>)>,
) -> (r: Result<Response, E>)
    ensures
        match r {
            Ok(response) => {
                &&& answered(results@, 0) == results.len()
                &&& response.digest == Some(
                    folded(req.nonce, digests_of(results@, results.len() as nat)),
                )
                &&& report_first(
                    response.spans@,
                    (CallCtx { request_id: req.request_id, attempt: 0 }),
                    results@,
                    results.len() as int,
                )
                &&& response.failure is None
            },
            Err(e) => {
                &&& answered(results@, 0) < results.len()
                &&& results[answered(results@, 0)].1 == Err::<CallReply, E>(e)
            },
        },
{
    let ctx = CallCtx { request_id: req.request_id, attempt: 0 };
    let mut gathered: Gathered<E> = gather(ctx, results);
    match gathered.failed {
        Some((_name, e)) => Err(e),
        None => {
            let digest: u64 = fold_digest(req.nonce, &mut gathered.digests);
            Ok(Response { digest: Some(digest), spans: gathered.spans, failure: None })
        },
    }
}

/// The answer of a target that makes no calls.
pub fn synthetic_response(req: &ScheduledRequest) -> (r: Response)
    ensures
        r.digest == Some(folded(req.nonce, Seq::<u64>::empty())),
        r.spans@ == Seq::<CallSpan>::empty(),
        r.failure is None,
{
    let mut none: Vec<u64> = Vec::new();
    Response { digest: Some(fold_digest(req.nonce, &mut none)), spans: Vec::new(), failure: None }
}

} // verus!
