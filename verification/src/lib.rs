//! Inbound-message admission for a mail transfer agent.
//!
//! The crate decides, at the DATA phase of a mail session, whether an
//! incoming message may be accepted into the delivery queue, which headers
//! must be stamped onto it, and how sessions share finite capacity
//! (message counts and byte quotas) without leaking reserved capacity on
//! any rejection path.
//!
//! - [`expr`] evaluates the declarative rule lists policy is written in.
//! - [`message`] holds header lines, recipients and the loop detector.
//! - [`quota`] is the concurrency-critical core: keyed buckets with
//!   all-or-nothing reserve and idempotent release.
//! - [`headers`] stamps the configured headers onto admitted messages.
//! - [`session`] runs the whole admission decision for one DATA command.
//! - [`capability`] decodes the protocol's ENABLE capability names.
//! - [`blob`] holds the byte-range arithmetic of the queue store's reads.

pub mod blob;
pub mod capability;
pub mod expr;
pub mod headers;
pub mod message;
pub mod quota;
pub mod session;
