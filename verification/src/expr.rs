//! Declarative predicate language evaluated against a session's context.
//!
//! Policy is expressed as an ordered list of rules `{predicate, value}`; the
//! last rule of a well-formed list carries no predicate and acts as the
//! default. Evaluation returns the value of the first rule whose predicate
//! matches; declaration order is significant (specific rules come before
//! general ones).

use vstd::prelude::*;

verus! {

/// The connection-context field a predicate inspects.
#[derive(Clone, Copy, PartialEq, Eq, Structural, Debug)]
pub enum Field {
    RemoteIp,
    Sender,
    Rcpt,
    RcptDomain,
}

/// Per-connection evaluation context: the values the predicate fields
/// resolve to. For rules evaluated outside any particular recipient the
/// recipient fields are empty strings.
pub struct Context {
    pub remote_ip: String,
    pub sender: String,
    pub rcpt: String,
    pub rcpt_domain: String,
}

/// The mathematical image of a [`Context`]: the four field values as
/// character sequences.
pub struct ContextView {
    pub remote_ip: Seq<char>,
    pub sender: Seq<char>,
    pub rcpt: Seq<char>,
    pub rcpt_domain: Seq<char>,
}

impl Context {
    pub open spec fn vw(self) -> ContextView {
        ContextView {
            remote_ip: self.remote_ip@,
            sender: self.sender@,
            rcpt: self.rcpt@,
            rcpt_domain: self.rcpt_domain@,
        }
    }
}

/// A context for policy evaluated outside any particular recipient.
pub open spec fn data_ctx(remote_ip: Seq<char>, sender: Seq<char>) -> ContextView {
    ContextView { remote_ip, sender, rcpt: Seq::empty(), rcpt_domain: Seq::empty() }
}

/// An equality test of one context field against a literal.
pub struct Predicate {
    pub field: Field,
    pub literal: String,
}

/// One policy rule: an optional predicate and the value selected when it
/// matches. A rule without a predicate always matches (the `else` arm).
pub struct Rule<V> {
    pub cond: Option<Predicate>,
    pub value: V,
}

/// The value a context assigns to a predicate field.
pub open spec fn field_of(ctx: ContextView, f: Field) -> Seq<char> {
    match f {
        Field::RemoteIp => ctx.remote_ip,
        Field::Sender => ctx.sender,
        Field::Rcpt => ctx.rcpt,
        Field::RcptDomain => ctx.rcpt_domain,
    }
}

pub open spec fn pred_matches(p: Predicate, ctx: ContextView) -> bool {
    field_of(ctx, p.field) == p.literal@
}

pub open spec fn rule_matches<V>(r: Rule<V>, ctx: ContextView) -> bool {
    match r.cond {
        None => true,
        Some(p) => pred_matches(p, ctx),
    }
}

/// First-match-or-default evaluation: the value of the first rule whose
/// predicate matches the context, `None` when no rule matches.
pub open spec fn eval_spec<V>(rules: Seq<Rule<V>>, ctx: ContextView) -> Option<V>
    decreases rules.len(),
{
    if rules.len() == 0 {
        None
    } else if rule_matches(rules[0], ctx) {
        Some(rules[0].value)
    } else {
        eval_spec(rules.drop_first(), ctx)
    }
}

/// A rule list is complete when some rule is an unconditional default.
pub open spec fn rules_complete<V>(rules: Seq<Rule<V>>) -> bool {
    exists|i: int| 0 <= i < rules.len() && rules[i].cond is None
}

/// A complete rule list always selects a value.
pub proof fn lemma_complete_evaluates<V>(rules: Seq<Rule<V>>, ctx: ContextView)
    requires
        rules_complete(rules),
    ensures
        eval_spec(rules, ctx) is Some,
    decreases rules.len(),
{
    let i = choose|i: int| 0 <= i < rules.len() && rules[i].cond is None;
    if !rule_matches(rules[0], ctx) {
        assert(rules.drop_first()[i - 1] == rules[i]);
        assert(rules_complete(rules.drop_first()));
        lemma_complete_evaluates(rules.drop_first(), ctx);
    }
}

impl Predicate {
    /// Whether this predicate holds of the given context.
    pub fn eval(&self, ctx: &Context) -> (r: bool)
        ensures
            r == pred_matches(*self, ctx.vw()),
    {
        let field: &String = match self.field {
            Field::RemoteIp => &ctx.remote_ip,
            Field::Sender => &ctx.sender,
            Field::Rcpt => &ctx.rcpt,
            Field::RcptDomain => &ctx.rcpt_domain,
        };
        field.eq(&self.literal)
    }
}

/// Evaluates an ordered rule list against a context: the value of the first
/// rule whose predicate matches, or `None` when no rule matches (an
/// incomplete configuration).
pub fn eval_rules<V: Copy>(rules: &Vec<Rule<V>>, ctx: &Context) -> (r: Option<V>)
    ensures
        r == eval_spec(rules@, ctx.vw()),
{
    let n = rules.len();
    let mut i: usize = 0;
    proof {
        assert(rules@.skip(0) =~= rules@);
    }
    while i < n
        invariant
            n == rules@.len(),
            i <= n,
            eval_spec(rules@, ctx.vw()) == eval_spec(rules@.skip(i as int), ctx.vw()),
        decreases n - i,
    {
        let rule = &rules[i];
        let matched = match &rule.cond {
            None => true,
            Some(p) => p.eval(ctx),
        };
        proof {
            assert(rules@.skip(i as int)[0] == rules@[i as int]);
        }
        if matched {
            return Some(rule.value);
        }
        proof {
            assert(rules@.skip(i as int).drop_first() =~= rules@.skip(i as int + 1));
        }
        i = i + 1;
    }
    proof {
        assert(rules@.skip(n as int) =~= Seq::<Rule<V>>::empty());
    }
    None
}

/// The evaluator's failure: no rule matched and no default exists in the
/// list. A well-formed configuration cannot produce it.
#[derive(Clone, Copy, PartialEq, Eq, Structural, Debug)]
pub struct ConfigurationError;

/// Evaluates an ordered rule list against a context: the value of the
/// first rule whose predicate matches, the default if none does, and a
/// configuration error when no rule matches and no default exists.
pub fn evaluate<V: Copy>(rules: &Vec<Rule<V>>, ctx: &Context) -> (r: Result<V, ConfigurationError>)
    ensures
        match eval_spec(rules@, ctx.vw()) {
            Some(v) => r == Ok::<V, ConfigurationError>(v),
            None => r == Err::<V, ConfigurationError>(ConfigurationError),
        },
{
    match eval_rules(rules, ctx) {
        Some(v) => Ok(v),
        None => Err(ConfigurationError),
    }
}

} // verus!
