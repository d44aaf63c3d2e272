//! The messages between the load generator and the program under test.
//!
//! The program receives the work it must do and returns what it did. It never
//! sees deadlines or scores.

use vstd::prelude::*;

use crate::span::CallSpan;

verus! {

#[derive(Clone, Debug)]
pub struct ServiceRequest {
    pub tag: u64,
    pub request_id: u64,
    /// Downstreams that this request must call, in any order.
    pub required: Vec<String>,
    /// Unique per request, so that an answer kept from another fails.
    pub nonce: u64,
}

#[derive(Clone, Debug)]
pub struct ServiceReply {
    pub tag: u64,
    pub digest: Option<u64>,
    pub spans: Vec<CallSpan>,
    pub error: Option<String>,
}

pub type ProgramRequest = ServiceRequest;

pub type ProgramReply = ServiceReply;

} // verus!
