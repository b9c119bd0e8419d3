//! Header policy: decides, per header kind, whether to synthesize and
//! prepend the header, and formats it from message and session data.
//!
//! The Received family is stamped first, so the newest hop markers end up
//! on top of the header block, matching standard mail header stacking.

use vstd::prelude::*;

use crate::expr::{Context, ContextView, Rule, eval_spec, lemma_complete_evaluates, eval_rules,
    rules_complete};
use crate::message::Header;
use crate::quota::Candidate;

verus! {

/// One ordered rule list per header kind the policy can synthesize.
pub struct HeaderPolicy {
    pub received: Vec<Rule<bool>>,
    pub received_spf: Vec<Rule<bool>>,
    pub auth_results: Vec<Rule<bool>>,
    pub message_id: Vec<Rule<bool>>,
    pub date: Vec<Rule<bool>>,
    pub return_path: Vec<Rule<bool>>,
}

impl HeaderPolicy {
    /// Every rule list ends in an unconditional default, as loaded
    /// configuration does.
    pub open spec fn wf(self) -> bool {
        &&& rules_complete(self.received@)
        &&& rules_complete(self.received_spf@)
        &&& rules_complete(self.auth_results@)
        &&& rules_complete(self.message_id@)
        &&& rules_complete(self.date@)
        &&& rules_complete(self.return_path@)
    }
}

/// Session and environment data the synthesized headers are formatted
/// from; the values that only outside collaborators can compute (the
/// current date, the generated message id, authentication results) are
/// handed in as plain strings.
pub struct StampInfo {
    pub hostname: String,
    pub helo: String,
    pub date: String,
    pub message_id: String,
    pub spf_result: String,
    pub auth_results: String,
}

/// The boolean a rule list selects for a context; an incomplete list that
/// selects nothing stamps nothing.
pub open spec fn flag_of(rules: Seq<Rule<bool>>, ctx: ContextView) -> bool {
    match eval_spec(rules, ctx) {
        Some(b) => b,
        None => false,
    }
}

/// The ghost image of a header line: its name and value.
pub open spec fn header_model(h: Header) -> (Seq<char>, Seq<char>) {
    (h.name@, h.value@)
}

pub open spec fn headers_model(hs: Seq<Header>) -> Seq<(Seq<char>, Seq<char>)> {
    hs.map_values(|h: Header| header_model(h))
}

/// The value of a synthesized Received header.
pub open spec fn received_value(
    helo: Seq<char>,
    remote_ip: Seq<char>,
    hostname: Seq<char>,
    date: Seq<char>,
) -> Seq<char> {
    "from "@ + helo + " ("@ + remote_ip + ") by "@ + hostname + "; "@ + date
}

/// An address in angle brackets.
pub open spec fn angled(addr: Seq<char>) -> Seq<char> {
    "<"@ + addr + ">"@
}

/// The header block after stamping: the headers the policy enables, in
/// stamping order, in front of the untouched original block.
pub open spec fn stamped_models(
    p: HeaderPolicy,
    ctx: ContextView,
    sender: Seq<char>,
    stamp: StampInfo,
    old_hs: Seq<(Seq<char>, Seq<char>)>,
) -> Seq<(Seq<char>, Seq<char>)> {
    (if flag_of(p.received@, ctx) {
        seq![("Received"@, received_value(stamp.helo@, ctx.remote_ip, stamp.hostname@, stamp.date@))]
    } else {
        Seq::empty()
    }) + (if flag_of(p.received_spf@, ctx) {
        seq![("Received-SPF"@, stamp.spf_result@)]
    } else {
        Seq::empty()
    }) + (if flag_of(p.auth_results@, ctx) {
        seq![("Authentication-Results"@, stamp.auth_results@)]
    } else {
        Seq::empty()
    }) + (if flag_of(p.message_id@, ctx) {
        seq![("Message-ID"@, angled(stamp.message_id@))]
    } else {
        Seq::empty()
    }) + (if flag_of(p.date@, ctx) {
        seq![("Date"@, stamp.date@)]
    } else {
        Seq::empty()
    }) + (if flag_of(p.return_path@, ctx) {
        seq![("Return-Path"@, angled(sender))]
    } else {
        Seq::empty()
    }) + old_hs
}

/// The boolean a complete rule list selects for a context.
fn eval_flag(rules: &Vec<Rule<bool>>, ctx: &Context) -> (r: bool)
    requires
        rules_complete(rules@),
    ensures
        r == flag_of(rules@, ctx.vw()),
{
    proof {
        lemma_complete_evaluates(rules@, ctx.vw());
    }
    match eval_rules(rules, ctx) {
        Some(b) => b,
        None => false,
    }
}

/// Formats the value of a synthesized Received header.
fn format_received(stamp: &StampInfo, remote_ip: &String) -> (v: String)
    ensures
        v@ == received_value(stamp.helo@, remote_ip@, stamp.hostname@, stamp.date@),
{
    let mut v = String::new();
    v.append("from ");
    v.append(stamp.helo.as_str());
    v.append(" (");
    v.append(remote_ip.as_str());
    v.append(") by ");
    v.append(stamp.hostname.as_str());
    v.append("; ");
    v.append(stamp.date.as_str());
    proof {
        assert(v@ =~= received_value(stamp.helo@, remote_ip@, stamp.hostname@, stamp.date@));
    }
    v
}

/// Formats an address in angle brackets.
fn format_angled(addr: &String) -> (v: String)
    ensures
        v@ == angled(addr@),
{
    let mut v = String::new();
    v.append("<");
    v.append(addr.as_str());
    v.append(">");
    proof {
        assert(v@ =~= angled(addr@));
    }
    v
}

/// Builds one header line.
fn make_header(name: &str, value: String) -> (h: Header)
    ensures
        h.name@ == name@,
        h.value == value,
{
    Header { name: name.to_owned(), value }
}

/// Evaluates the policy for the session's context and prepends every
/// enabled header to the candidate's block; nothing else of the candidate
/// changes. No quota interaction.
#[verifier::rlimit(100)]
pub fn apply_headers(policy: &HeaderPolicy, ctx: &Context, stamp: &StampInfo, cand: &mut Candidate)
    requires
        policy.wf(),
    ensures
        headers_model(final(cand).headers@) == stamped_models(
            *policy,
            ctx.vw(),
            old(cand).sender@,
            *stamp,
            headers_model(old(cand).headers@),
        ),
        final(cand).sender == old(cand).sender,
        final(cand).rcpts == old(cand).rcpts,
        final(cand).size == old(cand).size,
        final(cand).tokens == old(cand).tokens,
{
    let mut hs: Vec<Header> = Vec::new();
    let ghost m0 = headers_model(hs@);
    proof {
        assert(m0 =~= Seq::<(Seq<char>, Seq<char>)>::empty());
    }
    if eval_flag(&policy.received, ctx) {
        let ghost before = hs@;
        hs.push(make_header("Received", format_received(stamp, &ctx.remote_ip)));
        proof {
            assert(headers_model(hs@) =~= headers_model(before).push(header_model(hs@.last())));
        }
    }
    if eval_flag(&policy.received_spf, ctx) {
        let ghost before = hs@;
        hs.push(make_header("Received-SPF", stamp.spf_result.clone()));
        proof {
            assert(headers_model(hs@) =~= headers_model(before).push(header_model(hs@.last())));
        }
    }
    if eval_flag(&policy.auth_results, ctx) {
        let ghost before = hs@;
        hs.push(make_header("Authentication-Results", stamp.auth_results.clone()));
        proof {
            assert(headers_model(hs@) =~= headers_model(before).push(header_model(hs@.last())));
        }
    }
    if eval_flag(&policy.message_id, ctx) {
        let ghost before = hs@;
        hs.push(make_header("Message-ID", format_angled(&stamp.message_id)));
        proof {
            assert(headers_model(hs@) =~= headers_model(before).push(header_model(hs@.last())));
        }
    }
    if eval_flag(&policy.date, ctx) {
        let ghost before = hs@;
        hs.push(make_header("Date", stamp.date.clone()));
        proof {
            assert(headers_model(hs@) =~= headers_model(before).push(header_model(hs@.last())));
        }
    }
    if eval_flag(&policy.return_path, ctx) {
        let ghost before = hs@;
        hs.push(make_header("Return-Path", format_angled(&cand.sender)));
        proof {
            assert(headers_model(hs@) =~= headers_model(before).push(header_model(hs@.last())));
        }
    }
    let ghost added = hs@;
    hs.append(&mut cand.headers);
    cand.headers = hs;
    proof {
        assert(headers_model(cand.headers@) =~= headers_model(added) + headers_model(
            old(cand).headers@,
        ));
        assert(headers_model(cand.headers@) =~= stamped_models(
            *policy,
            ctx.vw(),
            old(cand).sender@,
            *stamp,
            headers_model(old(cand).headers@),
        ));
    }
}

} // verus!
