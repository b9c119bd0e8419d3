//! The session admission controller: the decision taken for each DATA
//! command, from sequencing through per-session limits, loop detection and
//! quota reservation to header stamping.
//!
//! Every rejection path leaves the quota buckets in the exact logical
//! state they would have been in had the rejected message never been
//! attempted.

use vstd::prelude::*;

use crate::expr::{Context, ContextView, Rule, data_ctx, eval_spec, lemma_complete_evaluates,
    eval_rules, rules_complete};
use crate::headers::{HeaderPolicy, StampInfo, apply_headers, headers_model, stamped_models};
use crate::message::{hop_count, loop_suspected};
use crate::quota::{Bucket, Candidate, QuotaDef, QuotaStore, first_violation, msgs_at, bytes_at,
    quota_plan, tok_msgs_at, tok_bytes_at, tokens_model};

verus! {

/// Why a candidate was not admitted. Temporary rejections are retryable
/// by the peer; permanent ones are not.
#[derive(Clone, Copy, PartialEq, Eq, Structural, Debug)]
pub enum Rejection {
    /// DATA before any successful RCPT: a sequencing error, permanent.
    Sequencing,
    /// The per-session message cap is reached: temporary.
    LimitExceeded,
    /// The message could not be decoded: permanent, rejected before any
    /// reservation is attempted.
    Malformed,
    /// Too many hop headers: temporary (the condition may be transient).
    LoopSuspected,
    /// A quota bucket would overflow: temporary, naming the quota.
    QuotaExceeded { quota: usize },
}

pub open spec fn is_temporary_spec(r: Rejection) -> bool {
    match r {
        Rejection::Sequencing => false,
        Rejection::LimitExceeded => true,
        Rejection::Malformed => false,
        Rejection::LoopSuspected => true,
        Rejection::QuotaExceeded { .. } => true,
    }
}

impl Rejection {
    /// Whether the peer may retry later.
    pub fn is_temporary(&self) -> (r: bool)
        ensures
            r == is_temporary_spec(*self),
    {
        match self {
            Rejection::Sequencing => false,
            Rejection::LimitExceeded => true,
            Rejection::Malformed => false,
            Rejection::LoopSuspected => true,
            Rejection::QuotaExceeded { .. } => true,
        }
    }

    /// The SMTP status and enhanced status code reported to the peer.
    pub fn status_line(&self) -> (s: &'static str)
        ensures
            s@ == status_spec(*self),
    {
        match self {
            Rejection::Sequencing => "503 5.5.1",
            Rejection::LimitExceeded => "452 4.4.5",
            Rejection::Malformed => "550 5.7.7",
            Rejection::LoopSuspected => "450 4.4.6",
            Rejection::QuotaExceeded { .. } => "452 4.3.1",
        }
    }
}

pub open spec fn status_spec(r: Rejection) -> Seq<char> {
    match r {
        Rejection::Sequencing => "503 5.5.1"@,
        Rejection::LimitExceeded => "452 4.4.5"@,
        Rejection::Malformed => "550 5.7.7"@,
        Rejection::LoopSuspected => "450 4.4.6"@,
        Rejection::QuotaExceeded { .. } => "452 4.3.1"@,
    }
}

/// The configuration the controller consults, loaded once and read-only.
pub struct SessionConfig {
    /// Per-session message cap, selected by rule.
    pub max_messages: Vec<Rule<u64>>,
    /// Loop-detection ceiling on prior hop headers.
    pub received_headers_limit: usize,
    /// The designated hop-tracking header name.
    pub hop_header: String,
    /// Which headers to synthesize, selected by rule.
    pub add_headers: HeaderPolicy,
    /// The configured quotas.
    pub quotas: Vec<QuotaDef>,
}

impl SessionConfig {
    pub open spec fn wf(self) -> bool {
        &&& rules_complete(self.max_messages@)
        &&& self.add_headers.wf()
    }
}

/// One connection's mutable state: where it comes from and how many
/// messages it has had accepted.
pub struct Session {
    pub remote_ip: String,
    pub messages_accepted: u64,
}

/// The per-session message cap a configuration assigns to a context.
pub open spec fn session_limit(cfg: SessionConfig, ctx: ContextView) -> u64 {
    match eval_spec(cfg.max_messages@, ctx) {
        Some(v) => v,
        None => 0,
    }
}

/// The admission decision, as a function of configuration, session,
/// bucket state and candidate: the state machine run for one DATA
/// command. Checks run in order — sequencing, session cap, decode, loop
/// detection, quota — and the first failure decides.
pub open spec fn decide(
    cfg: SessionConfig,
    session: Session,
    bs: Seq<Bucket>,
    cand: Candidate,
    well_formed: bool,
) -> Result<(), Rejection> {
    let ctx = data_ctx(session.remote_ip@, cand.sender@);
    if cand.rcpts@.len() == 0 {
        Err(Rejection::Sequencing)
    } else if session.messages_accepted >= session_limit(cfg, ctx) {
        Err(Rejection::LimitExceeded)
    } else if !well_formed {
        Err(Rejection::Malformed)
    } else if hop_count(cand.headers@, cfg.hop_header@) >= cfg.received_headers_limit {
        Err(Rejection::LoopSuspected)
    } else {
        match first_violation(
            bs,
            cfg.quotas@,
            quota_plan(cfg.quotas@, session.remote_ip@, cand.sender@, cand.rcpts@, cand.size),
        ) {
            Some(k) => Err(
                Rejection::QuotaExceeded {
                    quota: quota_plan(
                        cfg.quotas@,
                        session.remote_ip@,
                        cand.sender@,
                        cand.rcpts@,
                        cand.size,
                    )[k].quota_id as usize,
                },
            ),
            None => Ok(()),
        }
    }
}

/// Loop detection dominates quota state: a candidate that clears
/// sequencing, the session cap and decoding but already carries at least
/// the configured number of hop headers is rejected as a suspected loop —
/// a temporary failure — whatever the buckets hold and whatever quotas are
/// configured.
pub proof fn lemma_loop_rejection(
    cfg: SessionConfig,
    session: Session,
    bs: Seq<Bucket>,
    cand: Candidate,
)
    requires
        cand.rcpts@.len() > 0,
        session.messages_accepted < session_limit(
            cfg,
            data_ctx(session.remote_ip@, cand.sender@),
        ),
        hop_count(cand.headers@, cfg.hop_header@) >= cfg.received_headers_limit,
    ensures
        decide(cfg, session, bs, cand, true) == Err::<(), Rejection>(Rejection::LoopSuspected),
        is_temporary_spec(Rejection::LoopSuspected),
{
}

/// Admits or rejects one candidate, as [`decide`] says.
///
/// On admission the matched quotas are reserved and recorded on the
/// candidate, the enabled headers are stamped, and the session's accepted
/// count moves up by one. On any rejection the session, the candidate's
/// headers and the quota counts are exactly as before the call: no
/// partial reservation leaks.
pub fn admit_message(
    cfg: &SessionConfig,
    session: &mut Session,
    store: &mut QuotaStore,
    cand: &mut Candidate,
    well_formed: bool,
    stamp: &StampInfo,
) -> (r: Result<(), Rejection>)
    requires
        cfg.wf(),
        old(store).wf(),
        old(cand).tokens@.len() == 0,
    ensures
        final(store).wf(),
        r == decide(*cfg, *old(session), old(store).buckets@, *old(cand), well_formed),
        final(cand).sender == old(cand).sender,
        final(cand).rcpts == old(cand).rcpts,
        final(cand).size == old(cand).size,
        r is Err ==> {
            &&& *final(session) == *old(session)
            &&& final(cand).headers == old(cand).headers
            &&& final(cand).tokens@.len() == 0
            &&& forall|id: int, key: Seq<char>| #[trigger]
                msgs_at(final(store).buckets@, id, key) == msgs_at(old(store).buckets@, id, key)
            &&& forall|id: int, key: Seq<char>| #[trigger]
                bytes_at(final(store).buckets@, id, key) == bytes_at(old(store).buckets@, id, key)
        },
        r is Ok ==> {
            let plan = quota_plan(
                cfg.quotas@,
                old(session).remote_ip@,
                old(cand).sender@,
                old(cand).rcpts@,
                old(cand).size,
            );
            &&& final(session).remote_ip == old(session).remote_ip
            &&& final(session).messages_accepted == old(session).messages_accepted + 1
            &&& tokens_model(final(cand).tokens@) == plan
            &&& forall|id: int, key: Seq<char>| #[trigger]
                msgs_at(final(store).buckets@, id, key) == msgs_at(old(store).buckets@, id, key)
                    + tok_msgs_at(plan, id, key)
            &&& forall|id: int, key: Seq<char>| #[trigger]
                bytes_at(final(store).buckets@, id, key) == bytes_at(old(store).buckets@, id, key)
                    + tok_bytes_at(plan, id, key)
            &&& headers_model(final(cand).headers@) == stamped_models(
                cfg.add_headers,
                data_ctx(old(session).remote_ip@, old(cand).sender@),
                old(cand).sender@,
                *stamp,
                headers_model(old(cand).headers@),
            )
        },
{
    if cand.rcpts.len() == 0 {
        return Err(Rejection::Sequencing);
    }
    let ctx = Context {
        remote_ip: session.remote_ip.clone(),
        sender: cand.sender.clone(),
        rcpt: String::new(),
        rcpt_domain: String::new(),
    };
    proof {
        assert(ctx.vw() == data_ctx(session.remote_ip@, cand.sender@));
        lemma_complete_evaluates(cfg.max_messages@, ctx.vw());
    }
    let limit = match eval_rules(&cfg.max_messages, &ctx) {
        Some(v) => v,
        None => 0,
    };
    if session.messages_accepted >= limit {
        return Err(Rejection::LimitExceeded);
    }
    if !well_formed {
        return Err(Rejection::Malformed);
    }
    if loop_suspected(&cand.headers, &cfg.hop_header, cfg.received_headers_limit) {
        return Err(Rejection::LoopSuspected);
    }
    match store.reserve(&cfg.quotas, &session.remote_ip, cand) {
        Err(e) => Err(Rejection::QuotaExceeded { quota: e.quota }),
        Ok(()) => {
            apply_headers(&cfg.add_headers, &ctx, stamp, cand);
            session.messages_accepted = session.messages_accepted + 1;
            Ok(())
        },
    }
}

} // verus!
