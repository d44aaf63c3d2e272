//! The program under test must not reach the harness.
//!
//! The program must never compute an expected digest or read the scoring rule.
//! If it can, it fabricates answers instead of calling downstreams, and every
//! score is meaningless. What it is made of is checked as text.

/// Harness modules, each with the reason it is off limits.
const FORBIDDEN_MODULES: &[(&str, &str)] = &[
    ("oracle", "it could read the scoring rule"),
    ("config", "it holds the seed every digest derives from"),
    ("report", "it is the scoring output, not an input"),
    ("timeline", "it is post-hoc analysis of the run being measured"),
    ("load_generator", "it schedules the requests being served"),
    ("loadgen_client", "it is the other end of the connection"),
    ("distributions", "it is the latency the downstreams draw from"),
];

/// The seeded entry points. `fold_digest` is absent: folding digests obtained
/// by actually calling downstreams is the program's job.
const FORBIDDEN_RNG: &[(&str, &str)] = &[
    ("call_digest", "it is the expected answer, computable from the seed alone"),
    ("call_rng", "it draws the latencies the program is being timed against"),
    ("payload_nonce", "with call_digest it works backward toward the seed"),
    ("arrival_rng", "it is the arrival schedule the program is served"),
    ("class_rng", "it is the request mix the program is served"),
];

/// Does `needle` appear as a whole identifier, not as part of a longer one?
fn mentions_identifier(haystack: &str, needle: &str) -> bool {
    let is_ident = |c: char| c.is_alphanumeric() || c == '_';
    haystack.match_indices(needle).any(|(i, _)| {
        let before_ok = haystack[..i].chars().next_back().map_or(true, |c| !is_ident(c));
        let after_ok = haystack[i + needle.len()..]
            .chars()
            .next()
            .map_or(true, |c| !is_ident(c));
        before_ok && after_ok
    })
}

/// The text with `//` comments stripped, line by line.
fn code_only(src: &str) -> String {
    src.lines()
        .map(|l| match l.find("//") {
            Some(i) => &l[..i],
            None => l,
        })
        .collect::<Vec<_>>()
        .join("\n")
}

/// A module is reached by naming it in a path or a `use`, not by mentioning it
/// in prose. Within the library a path starts at `crate`, elsewhere at the
/// library's name.
fn reaches_module(code: &str, module: &str) -> bool {
    let qualified = format!("tailbench::{module}");
    let own = format!("crate::{module}");
    let path = format!("{module}::");
    code.lines().any(|line| {
        line.contains(&qualified)
            || line.contains(&own)
            || (line.contains(&path) && mentions_identifier(line, module))
            || (line.trim_start().starts_with("use ") && mentions_identifier(line, module))
    })
}

#[test]
fn program_does_not_reach_harness_modules() {
    for text in [PROGRAM, PROGRAM_PROCESS] {
        let code = code_only(text);
        for (module, why) in FORBIDDEN_MODULES {
            assert!(
                !reaches_module(&code, module),
                "program.rs must not reach `{module}`: {why}"
            );
        }
    }
}

#[test]
fn program_does_not_use_seeded_rng() {
    for text in [PROGRAM, PROGRAM_PROCESS] {
        let code = code_only(text);
        for (func, why) in FORBIDDEN_RNG {
            assert!(
                !mentions_identifier(&code, func),
                "program.rs must not use `{func}`: {why}"
            );
        }
    }
}

/// The checks above are only worth anything if they fire on the real thing and
/// stay quiet on its lookalikes.
#[test]
fn matching_is_neither_too_loose_nor_too_tight() {
    // Still present, so the counterexample below is a live one.
    assert!(
        mentions_identifier(PROGRAM, "fold_digest"),
        "program.rs no longer uses fold_digest: the matching above lost its counterexample"
    );

    // Not too loose: near-misses and prose must not trip the checks.
    assert!(!mentions_identifier("fold_digest(nonce, &mut d)", "call_digest"));
    assert!(!mentions_identifier("recall_rng(seed)", "call_rng"));
    assert!(!reaches_module("let configure = 1;", "config"));
    assert!(!reaches_module("//! the library carries the oracle", "oracle"));

    // Not too tight: every form a real reach would take is caught.
    assert!(reaches_module("use tailbench::oracle::Oracle;", "oracle"));
    assert!(reaches_module("use tailbench::{config, ready};", "config"));
    assert!(reaches_module("    let c = oracle::Oracle::new();", "oracle"));
    assert!(mentions_identifier("use tailbench::rng::call_digest;", "call_digest"));
}

/// The library's `program` module.
const PROGRAM: &str = r##"//! The program under test, in its correct and fault-free form: every required
//! call made at once, the replies folded into a digest.
//!
//! It sees the messages, the calls and the fold, and nothing that scores it.

use vstd::prelude::*;
use vstd::string::StringExecFns;

use crate::call::span_of;
use crate::call::CallCtx;
use crate::call::CallReply;
use crate::digest::fold_digest;
use crate::digest::folded;
use crate::protocol::ProgramReply;
use crate::protocol::ProgramRequest;
use crate::protocol::ServiceReply;
use crate::span::CallSpan;

verus! {

/// The replies of one request, up to the first call that failed.
pub struct Gathered<E> {
    pub spans: Vec<CallSpan>,
    pub digests: Vec<u64>,
    pub failed: Option<(String, E)>,
}

/// How many calls come before the first that failed.
pub open spec fn answered<E>(results: Seq<(String, Result<CallReply, E>)>, i: int) -> int
    decreases results.len() - i,
{
    if 0 <= i < results.len() && results[i].1 is Ok {
        answered(results, i + 1)
    } else {
        i
    }
}

/// The digests that the first `n` replies carry.
pub open spec fn digests_of<E>(results: Seq<(String, Result<CallReply, E>)>, n: nat) -> Seq<u64>
    decreases n,
{
    if n == 0 {
        Seq::empty()
    } else {
        let rest = digests_of(results, (n - 1) as nat);
        match results[n - 1].1 {
            Ok(reply) => match reply.digest {
                Some(d) => rest.push(d),
                None => rest,
            },
            Err(_) => rest,
        }
    }
}

/// `span` reports this reply.
pub open spec fn reports(span: CallSpan, name: Seq<char>, ctx: CallCtx, reply: CallReply) -> bool {
    &&& span.downstream_id@ == name
    &&& span.attempt == ctx.attempt
    &&& span.queue_wait_ns == reply.queue_wait_ns
    &&& span.service_ns == reply.service_ns
    &&& span.outcome == reply.outcome
}

/// `spans` report the first `n` replies, one each, in order.
pub open spec fn report_first<E>(
    spans: Seq<CallSpan>,
    ctx: CallCtx,
    results: Seq<(String, Result<CallReply, E>)>,
    n: int,
) -> bool {
    &&& spans.len() == n
    &&& forall|i: int|
        0 <= i < n ==> reports(
            #[trigger] spans[i],
            results[i].0@,
            ctx,
            results[i].1->Ok_0,
        )
}

/// The calls that a request asks for: each required downstream, first attempt.
pub fn plan(req: &ProgramRequest) -> (r: (CallCtx, Vec<String>))
    ensures
        r.0 == (CallCtx { request_id: req.request_id, attempt: 0 }),
        r.1@ == req.required@,
{
    let names: Vec<String> = req.required.clone();
    assert(names@ =~= req.required@);
    (CallCtx { request_id: req.request_id, attempt: 0 }, names)
}

/// Collects the replies in order, up to the first call that failed.
pub fn gather<E>(ctx: CallCtx, results: Vec<(String, Result<CallReply, E>)>) -> (r: Gathered<E>)
    ensures
        report_first(r.spans@, ctx, results@, answered(results@, 0)),
        r.digests@ == digests_of(results@, answered(results@, 0) as nat),
        match r.failed {
            Some((name, e)) => {
                &&& answered(results@, 0) < results.len()
                &&& results[answered(results@, 0)] == (name, Err::<CallReply, E>(e))
            },
            None => answered(results@, 0) == results.len(),
        },
{
    let ghost all = results@;
    let mut calls: Vec<(String, Result<CallReply, E>)> = results;
    let mut spans: Vec<CallSpan> = Vec::new();
    let mut digests: Vec<u64> = Vec::new();
    let mut i: usize = 0;
    while i < calls.len()
        invariant
            i <= calls.len(),
            calls@ == all,
            all == results@,
            answered(all, 0) == answered(all, i as int),
            report_first(spans@, ctx, all, i as int),
            digests@ == digests_of(all, i as nat),
        decreases calls.len() - i,
    {
        if calls[i].1.is_err() {
            let (name, reply): (String, Result<CallReply, E>) = calls.swap_remove(i);
            match reply {
                Err(e) => {
                    return Gathered { spans, digests, failed: Some((name, e)) };
                },
                Ok(_) => {},
            }
            return Gathered { spans, digests, failed: None };
        }
        if let Ok(reply) = &calls[i].1 {
            spans.push(span_of(calls[i].0.as_str(), ctx, reply));
            if let Some(d) = reply.digest {
                digests.push(d);
            }
        }
        i = i + 1;
    }
    Gathered { spans, digests, failed: None }
}

/// Answers a request from the replies to its calls. `results` holds, for each
/// call, the downstream and either its reply or why there is none.
pub fn handle(req: &ProgramRequest, results: Vec<(String, Result<CallReply, String>)>) -> (r:
    ProgramReply)
    ensures
        r.tag == req.tag,
        report_first(
            r.spans@,
            (CallCtx { request_id: req.request_id, attempt: 0 }),
            results@,
            answered(results@, 0),
        ),
        answered(results@, 0) == results.len() ==> r.error is None && r.digest == Some(
            folded(req.nonce, digests_of(results@, results.len() as nat)),
        ),
        answered(results@, 0) < results.len() ==> {
            let (name, reply) = results[answered(results@, 0)];
            &&& r.digest is None
            &&& r.error matches Some(text) && text@ == name@ + ": "@ + reply->Err_0@
        },
{
    let ctx = CallCtx { request_id: req.request_id, attempt: 0 };
    let mut gathered: Gathered<String> = gather(ctx, results);
    match gathered.failed {
        Some((name, e)) => {
            let mut text: String = name;
            text.append(": ");
            text.append(e.as_str());
            ServiceReply {
                tag: req.tag,
                digest: None,
                spans: gathered.spans,
                error: Some(text),
            }
        },
        None => {
            let digest: u64 = fold_digest(req.nonce, &mut gathered.digests);
            ServiceReply {
                tag: req.tag,
                digest: Some(digest),
                spans: gathered.spans,
                error: None,
            }
        },
    }
}

} // verus!
"##;

/// The process that runs it.
const PROGRAM_PROCESS: &str = r##"//! The program under test as a process.
//!
//! It receives a request from the load generator, calls the downstreams that
//! the request requires, and returns the digest folded from their replies.

use anyhow::Result;
use std::path::Path;
use std::sync::Arc;
use tokio::net::UnixStream;

use tailbench::program::{handle, plan};
use tailbench::protocol::{ProgramReply, ProgramRequest};

use crate::client::{Downstream, UdsClient};
use crate::messages::{ServiceReplyMsg, ServiceRequestMsg};
use crate::readiness;
use crate::transport::{read_msg, write_msg};

pub async fn main(listen: &Path, downstreams: &Path, verbose: bool) -> Result<()> {
    readiness::wait_for(downstreams).await?;
    let client = UdsClient::connect(downstreams).await?;
    eprintln!("program: connected to downstreams at {}", downstreams.display());

    let listener = readiness::bind(listen)?;
    eprintln!("program: listening on {}", listen.display());

    loop {
        let (stream, _) = listener.accept().await?;
        let client = client.clone();
        tokio::spawn(async move {
            if let Err(e) = serve(stream, client, verbose).await {
                if !readiness::peer_gone(&e) {
                    eprintln!("program: connection error: {e}");
                }
            }
        });
    }
}

/// One load-generator connection. Requests are handled concurrently and
/// replies are written by a single writer task: handling inline would
/// serialize every request behind the one before it.
async fn serve<D: Downstream>(
    stream: UnixStream,
    downstreams: Arc<D>,
    verbose: bool,
) -> Result<()> {
    let (mut rd, mut wr) = tokio::io::split(stream);
    let (tx, mut rx) = tokio::sync::mpsc::channel::<ProgramReply>(4096);

    let writer = tokio::spawn(async move {
        while let Some(reply) = rx.recv().await {
            if write_msg(&mut wr, &ServiceReplyMsg::from(reply)).await.is_err() {
                break;
            }
        }
    });

    let result = async {
        loop {
            let msg: ServiceRequestMsg = read_msg(&mut rd).await?;
            let downstreams = downstreams.clone();
            let tx = tx.clone();
            tokio::spawn(async move {
                let reply = answer(msg.into(), &*downstreams, verbose).await;
                let _ = tx.send(reply).await;
            });
        }
    }
    .await;

    drop(tx);
    let _ = writer.await;
    result
}

async fn answer<D: Downstream>(
    req: ProgramRequest,
    downstreams: &D,
    verbose: bool,
) -> ProgramReply {
    let (ctx, names) = plan(&req);
    let calls = names.into_iter().map(|name| async move {
        let reply = downstreams.call(&name, ctx).await.map_err(|e| e.to_string());
        (name, reply)
    });
    let results = futures::future::join_all(calls).await;
    let reply = handle(&req, results);
    if verbose && reply.error.is_none() {
        eprintln!(
            "program: request {} -> {:?} ({} calls)",
            req.request_id,
            req.required,
            reply.spans.len()
        );
    }
    reply
}
"##;
