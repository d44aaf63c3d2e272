//! The load generator's side of the connection to the program.

use vstd::prelude::*;

use crate::protocol::ProgramRequest;
use crate::protocol::ServiceRequest;
use crate::timeline::ScheduledRequest;

verus! {

/// The message that asks for a scheduled request to be served.
pub fn request_message(req: &ScheduledRequest, tag: u64) -> (r: ProgramRequest)
    ensures
        r.tag == tag,
        r.request_id == req.request_id,
        r.required@ == req.required@,
        r.nonce == req.nonce,
{
    let required: Vec<String> = req.required.clone();
    assert(required@ =~= req.required@);
    ServiceRequest { tag, request_id: req.request_id, required, nonce: req.nonce }
}

} // verus!
