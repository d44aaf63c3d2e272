//! The mock downstream cluster.
//!
//! Deterministic given the seed and the call site, and independent of the wall
//! clock and of the order in which calls arrive. Waiting for a capacity permit
//! and sleeping through the service time are the caller's; what the waits
//! amount to is decided here.

use rand_chacha::ChaCha8Rng;
use vstd::prelude::*;

use crate::call::CallCtx;
use crate::call::CallReply;
use crate::clock::ms_to_duration;
use crate::clock::ms_to_ns;
use crate::clock::wrap;
use crate::clock::wrapped;
use crate::config::Config;
use crate::config::DownstreamCfg;
use crate::distributions::Distribution;
use crate::distributions::Draw;
use crate::oracle::ids;
use crate::oracle::index_from;
use crate::rng::call_digest;
use crate::rng::call_rng;
use crate::rng::call_seed;
use crate::rng::chacha8_words;
use crate::rng::digest_of_call;
use crate::span::CallOutcome;

verus! {

/// The downstreams of a scenario.
#[derive(Debug)]
pub struct DownstreamCluster {
    downstreams: Vec<DownstreamCfg>,
    seed: u64,
}

/// The position of the first downstream of this id, from the `i`th on.
pub open spec fn slot_from(names: Seq<Seq<char>>, id: Seq<char>, i: int) -> Option<int>
    decreases names.len() - i,
{
    if i >= names.len() {
        None
    } else if names[i] == id {
        Some(i)
    } else {
        slot_from(names, id, i + 1)
    }
}

/// A distribution has something to draw from.
pub open spec fn drawable(d: Distribution) -> bool {
    d matches Distribution::Empirical { samples_ms } ==> samples_ms.len() > 0
}

/// What is left to do for a call that holds its permit.
#[derive(Clone, Copy, Debug, PartialEq, Eq, Structural)]
pub enum Permitted {
    /// It waited too long already: this is the reply.
    Done { reply: CallReply },
    /// It is to be served for as long as `draw` comes to.
    Serve { draw: Draw },
}

/// How long to serve a call, and the reply to it.
#[derive(Clone, Copy, Debug, PartialEq, Eq, Structural)]
pub struct Service {
    pub served_ns: u128,
    pub reply: CallReply,
}

impl DownstreamCluster {
    pub closed spec fn downstreams(self) -> Seq<DownstreamCfg> {
        self.downstreams@
    }

    pub closed spec fn seed(self) -> u64 {
        self.seed
    }

    pub fn new(cfg: Config) -> (r: Self)
        ensures
            r.downstreams() == cfg.downstreams@,
            r.seed() == cfg.scenario.seed,
    {
        DownstreamCluster { downstreams: cfg.downstreams, seed: cfg.scenario.seed }
    }

    /// The position of a downstream. `None` for an id that no downstream has.
    pub fn slot(&self, name: &str) -> (r: Option<usize>)
        ensures
            match r {
                Some(i) => slot_from(ids(self.downstreams()), name@, 0) == Some(i as int) && i
                    < self.downstreams().len(),
                None => slot_from(ids(self.downstreams()), name@, 0) is None,
            },
    {
        let wanted: String = name.to_owned();
        let mut i: usize = 0;
        while i < self.downstreams.len()
            invariant
                i <= self.downstreams.len(),
                wanted@ == name@,
                slot_from(ids(self.downstreams()), name@, 0) == slot_from(
                    ids(self.downstreams()),
                    name@,
                    i as int,
                ),
            decreases self.downstreams.len() - i,
        {
            if self.downstreams[i].id == wanted {
                return Some(i);
            }
            i = i + 1;
        }
        None
    }

    /// How many calls a downstream serves at once.
    pub fn capacity(&self, slot: usize) -> (r: usize)
        requires
            slot < self.downstreams().len(),
        ensures
            r == self.downstreams()[slot as int].capacity,
    {
        self.downstreams[slot].capacity
    }

    /// The number of downstreams.
    pub fn len(&self) -> (r: usize)
        ensures
            r == self.downstreams().len(),
    {
        self.downstreams.len()
    }

    /// How long a call may take, queueing included.
    pub open spec fn timeout(self, slot: int) -> nat {
        ms_to_ns(self.downstreams()[slot].timeout_ms)
    }

    /// The reply to a call that ran out of time, after waiting and being
    /// served this long.
    pub open spec fn timed_out(queue_wait: u128, served: nat) -> CallReply {
        CallReply {
            digest: None,
            queue_wait_ns: wrapped(queue_wait as nat) as u64,
            service_ns: served as u64,
            outcome: CallOutcome::Timeout,
        }
    }

    /// What is left to do for a call that waited for `queue_wait` nanoseconds:
    /// nothing, where its time is up; else its draw, from the generator of the
    /// call site alone.
    pub open spec fn after_queue(self, slot: int, ctx: CallCtx, queue_wait: u128) -> Permitted {
        if queue_wait >= self.timeout(slot) {
            Permitted::Done { reply: Self::timed_out(queue_wait, 0) }
        } else {
            Permitted::Serve {
                draw: self.downstreams()[slot].distribution.drawn(
                    chacha8_words(
                        call_seed(
                            self.seed(),
                            ctx.request_id,
                            (slot % 0x1_0000) as u16,
                            ctx.attempt,
                        ),
                    ),
                ),
            }
        }
    }

    /// How long a call is served whose draw came to `service` nanoseconds, and
    /// the reply to it.
    pub open spec fn after_service(
        self,
        slot: int,
        ctx: CallCtx,
        queue_wait: u128,
        service: u64,
    ) -> Service {
        if queue_wait + service >= self.timeout(slot) {
            let left = (self.timeout(slot) - queue_wait) as nat;
            Service { served_ns: left as u128, reply: Self::timed_out(queue_wait, left) }
        } else {
            Service {
                served_ns: service as u128,
                reply: CallReply {
                    digest: Some(
                        digest_of_call(self.seed(), ctx.request_id, (slot % 0x1_0000) as u16),
                    ),
                    queue_wait_ns: queue_wait as u64,
                    service_ns: service,
                    outcome: CallOutcome::Success,
                },
            }
        }
    }

    /// A call has its permit, after waiting for `queue_wait` nanoseconds. One
    /// that has used up its time in the queue is not served at all. The draw
    /// comes from the generator of the call site alone.
    pub fn permitted(&self, slot: usize, ctx: CallCtx, queue_wait: u128) -> (r: Permitted)
        requires
            slot < self.downstreams().len(),
            drawable(self.downstreams()[slot as int].distribution),
        ensures
            r == self.after_queue(slot as int, ctx, queue_wait),
            r matches Permitted::Serve { draw } ==> {
                let d = self.downstreams()[slot as int].distribution;
                d.fault() is None ==> d.supports(draw)
            },
    {
        let d: &DownstreamCfg = &self.downstreams[slot];
        let timeout: u128 = ms_to_duration(d.timeout_ms) as u128;
        if queue_wait >= timeout {
            return Permitted::Done {
                reply: CallReply {
                    digest: None,
                    queue_wait_ns: wrap(queue_wait),
                    service_ns: 0,
                    outcome: CallOutcome::Timeout,
                },
            };
        }
        let mut rng: ChaCha8Rng = call_rng(
            self.seed,
            ctx.request_id,
            (slot % 0x1_0000) as u16,
            ctx.attempt,
        );
        Permitted::Serve { draw: d.distribution.sample_ms(&mut rng) }
    }

    /// Serves a call that waited for `queue_wait` nanoseconds and whose draw
    /// came to `service` nanoseconds. The timeout covers both: a call that
    /// spent most of its time in the queue has little left to be served in.
    pub fn serve(&self, slot: usize, ctx: CallCtx, queue_wait: u128, service: u64) -> (r: Service)
        requires
            slot < self.downstreams().len(),
            queue_wait < self.timeout(slot as int),
        ensures
            queue_wait + r.served_ns <= self.timeout(slot as int),
            r.reply.outcome == CallOutcome::Success <==> queue_wait + service < self.timeout(
                slot as int,
            ),
            r == self.after_service(slot as int, ctx, queue_wait, service),
    {
        let timeout: u64 = ms_to_duration(self.downstreams[slot].timeout_ms);
        let waited: u64 = queue_wait as u64;
        let remaining: u64 = timeout - waited;
        if service >= remaining {
            Service {
                served_ns: remaining as u128,
                reply: CallReply {
                    digest: None,
                    queue_wait_ns: waited,
                    service_ns: remaining,
                    outcome: CallOutcome::Timeout,
                },
            }
        } else {
            Service {
                served_ns: service as u128,
                reply: CallReply {
                    digest: Some(
                        call_digest(self.seed, ctx.request_id, (slot % 0x1_0000) as u16),
                    ),
                    queue_wait_ns: waited,
                    service_ns: service,
                    outcome: CallOutcome::Success,
                },
            }
        }
    }
}

/// The call that measures the transport itself for the `i`th time. Its request
/// id counts down from the largest, far from those of a run.
pub fn probe_ctx(i: usize) -> (r: CallCtx)
    ensures
        r.request_id == u64::MAX - i,
        r.attempt == 0,
{
    CallCtx { request_id: u64::MAX - i as u64, attempt: 0 }
}

/// The cluster and the scorer number the downstreams alike, so the value that
/// a call returns is the one that the scorer expects.
pub proof fn lemma_slots_agree(names: Seq<Seq<char>>, id: Seq<char>, i: int)
    requires
        0 <= i,
    ensures
        index_from(names, id, i) == (match slot_from(names, id, i) {
            Some(slot) => Some((slot % 0x1_0000) as u16),
            None => None,
        }),
    decreases names.len() - i,
{
    if i < names.len() && names[i] != id {
        lemma_slots_agree(names, id, i + 1);
    }
}

/// A downstream is found by its id: the first that has it, and none only where
/// none has.
pub proof fn lemma_slot_is_first(names: Seq<Seq<char>>, id: Seq<char>, i: int)
    requires
        0 <= i <= names.len(),
    ensures
        match slot_from(names, id, i) {
            Some(slot) => {
                &&& i <= slot < names.len()
                &&& names[slot] == id
                &&& forall|j: int| i <= j < slot ==> #[trigger] names[j] != id
            },
            None => forall|j: int| i <= j < names.len() ==> #[trigger] names[j] != id,
        },
    decreases names.len() - i,
{
    if i < names.len() && names[i] != id {
        lemma_slot_is_first(names, id, i + 1);
    }
}

/// A call that ran out of time carries no value, and says how long it waited
/// and was served.
pub proof fn lemma_timed_out(queue_wait: u128, served: nat)
    requires
        queue_wait <= u64::MAX,
        served <= u64::MAX,
    ensures
        ({
            let reply = DownstreamCluster::timed_out(queue_wait, served);
            &&& reply.digest is None
            &&& reply.outcome == CallOutcome::Timeout
            &&& reply.queue_wait_ns == queue_wait
            &&& reply.service_ns == served
        }),
{
}

/// A call is served only while some of its time is left, and for no longer than
/// that. Waiting and service together decide whether it succeeds; only then has
/// it a value, that of its own call site.
pub proof fn lemma_queue_counts(
    cluster: DownstreamCluster,
    slot: int,
    ctx: CallCtx,
    queue_wait: u128,
    service: u64,
)
    requires
        0 <= slot < cluster.downstreams().len(),
        slot < 0x1_0000,
    ensures
        cluster.after_queue(slot, ctx, queue_wait) is Serve <==> queue_wait < cluster.timeout(slot),
        cluster.after_queue(slot, ctx, queue_wait) matches Permitted::Done { reply } ==> {
            &&& reply.outcome == CallOutcome::Timeout
            &&& reply.digest is None
            &&& reply.service_ns == 0
            &&& queue_wait <= u64::MAX ==> reply.queue_wait_ns == queue_wait
        },
        queue_wait < cluster.timeout(slot) ==> {
            let s = cluster.after_service(slot, ctx, queue_wait, service);
            &&& s.served_ns <= service
            &&& queue_wait + s.served_ns <= cluster.timeout(slot)
            &&& s.served_ns == service || queue_wait + s.served_ns == cluster.timeout(slot)
            &&& s.reply.queue_wait_ns == queue_wait
            &&& s.reply.service_ns == s.served_ns
            &&& s.reply.outcome == CallOutcome::Success <==> queue_wait + service
                < cluster.timeout(slot)
            &&& s.reply.outcome == CallOutcome::Timeout <==> queue_wait + service
                >= cluster.timeout(slot)
            &&& s.reply.digest == (if queue_wait + service < cluster.timeout(slot) {
                Some(digest_of_call(cluster.seed(), ctx.request_id, slot as u16))
            } else {
                None
            })
        },
{
    assert(cluster.timeout(slot) <= u64::MAX);
}

/// The draw of a call depends on the seed and the call site, and on nothing
/// else: not on how long it waited.
pub proof fn lemma_draw_by_call_site(
    a: DownstreamCluster,
    b: DownstreamCluster,
    slot: int,
    ctx: CallCtx,
    wait_a: u128,
    wait_b: u128,
)
    requires
        0 <= slot < 0x1_0000,
        a.seed() == b.seed(),
        a.downstreams()[slot].distribution == b.downstreams()[slot].distribution,
        wait_a < a.timeout(slot),
        wait_b < b.timeout(slot),
    ensures
        a.after_queue(slot, ctx, wait_a) == b.after_queue(slot, ctx, wait_b),
        a.after_queue(slot, ctx, wait_a) == (Permitted::Serve {
            draw: a.downstreams()[slot].distribution.drawn(
                chacha8_words(call_seed(a.seed(), ctx.request_id, slot as u16, ctx.attempt)),
            ),
        }),
{
    assert(slot % 0x1_0000 == slot);
    let seed = call_seed(a.seed(), ctx.request_id, slot as u16, ctx.attempt);
    let draw = a.downstreams()[slot].distribution.drawn(chacha8_words(seed));
    assert(a.after_queue(slot, ctx, wait_a) == (Permitted::Serve { draw }));
    assert(b.after_queue(slot, ctx, wait_b) == (Permitted::Serve { draw }));
}

} // verus!
