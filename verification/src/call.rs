//! Calls to the downstream cluster: the messages, and matching replies to the
//! calls that wait for them.

use std::collections::HashMap;
use vstd::prelude::*;

use crate::span::CallOutcome;
use crate::span::CallSpan;

verus! {

#[derive(Clone, Copy, Debug, PartialEq, Eq, Structural)]
pub struct CallCtx {
    pub request_id: u64,
    pub attempt: u32,
}

#[derive(Clone, Copy, Debug, PartialEq, Eq, Structural)]
pub struct CallReply {
    pub digest: Option<u64>,
    pub queue_wait_ns: u64,
    pub service_ns: u64,
    pub outcome: CallOutcome,
}

#[derive(Clone, Debug)]
pub struct CallRequest {
    /// Correlation id. Calls on one connection are handled concurrently, so
    /// replies are matched by it and not by their order.
    pub tag: u64,
    pub downstream: String,
    pub ctx: CallCtx,
}

#[derive(Clone, Copy, Debug, PartialEq, Eq, Structural)]
pub struct TaggedReply {
    pub tag: u64,
    pub reply: CallReply,
}

/// Turns a reply into the span that the record carries.
pub fn span_of(name: &str, ctx: CallCtx, reply: &CallReply) -> (r: CallSpan)
    ensures
        r.downstream_id@ == name@,
        r.attempt == ctx.attempt,
        r.queue_wait_ns == reply.queue_wait_ns,
        r.service_ns == reply.service_ns,
        r.outcome == reply.outcome,
{
    CallSpan {
        downstream_id: name.to_owned(),
        attempt: ctx.attempt,
        queue_wait_ns: reply.queue_wait_ns,
        service_ns: reply.service_ns,
        outcome: reply.outcome,
    }
}

/// The calls of one connection that wait for a reply, by tag.
pub struct Pending<T> {
    waiting: HashMap<u64, T>,
    next_tag: u64,
}

impl<T> Pending<T> {
    /// Who waits under which tag.
    pub closed spec fn waiting(self) -> Map<u64, T> {
        self.waiting@
    }

    /// The tag of the next call.
    pub closed spec fn next_tag(self) -> u64 {
        self.next_tag
    }

    pub fn new() -> (r: Self)
        ensures
            r.waiting() == Map::<u64, T>::empty(),
            r.next_tag() == 0,
    {
        Pending { waiting: HashMap::new(), next_tag: 0 }
    }

    /// Lets `waiter` wait under a tag of its own. Tags count up, and start
    /// over after the last.
    pub fn register(&mut self, waiter: T) -> (tag: u64)
        ensures
            tag == old(self).next_tag(),
            final(self).next_tag() == (if tag == u64::MAX {
                0
            } else {
                tag + 1
            }),
            final(self).waiting() == old(self).waiting().insert(tag, waiter),
    {
        broadcast use vstd::std_specs::hash::group_hash_axioms;

        let tag: u64 = self.next_tag;
        self.next_tag = tag.wrapping_add(1);
        self.waiting.insert(tag, waiter);
        tag
    }

    /// Takes out whoever waits under `tag`: a reply is delivered once, and one
    /// that nobody waits for to nobody.
    pub fn complete(&mut self, tag: u64) -> (r: Option<T>)
        ensures
            final(self).next_tag() == old(self).next_tag(),
            final(self).waiting() == old(self).waiting().remove(tag),
            r == (if old(self).waiting().dom().contains(tag) {
                Some(old(self).waiting()[tag])
            } else {
                None
            }),
    {
        broadcast use vstd::std_specs::hash::group_hash_axioms;

        self.waiting.remove(&tag)
    }
}

/// Replies may come in any order: whoever waits under a tag is still there,
/// however many others came and went under other tags.
pub proof fn lemma_replies_in_any_order<T>(waiting: Map<u64, T>, tag: u64, waiter: T, other: u64, late: T)
    requires
        other != tag,
    ensures
        ({
            let registered = waiting.insert(tag, waiter);
            &&& registered.insert(other, late).dom().contains(tag)
            &&& registered.insert(other, late)[tag] == waiter
            &&& registered.remove(other).dom().contains(tag)
            &&& registered.remove(other)[tag] == waiter
        }),
{
}

} // verus!
