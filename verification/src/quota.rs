//! Quota enforcement: shared counters keyed by a derived identity
//! (sender, recipient, or recipient domain), each with an independent
//! message-count and byte-size ceiling, reserved and released atomically.
//!
//! The store is modelled by the two count functions [`msgs_at`] and
//! [`bytes_at`]: the number of messages and bytes currently reserved under
//! a `(quota, key)` pair. A bucket whose counters are zero is logically
//! absent, so every contract speaks of the counts, never of the bucket
//! vector's layout.
//!
//! The store is the only state shared across sessions. Each reserve or
//! release call is one atomic step of whatever serialization the process
//! wiring provides for a key; the contracts here state what each such
//! step does to the counts, for any interleaving of steps.

use vstd::prelude::*;

use crate::expr::{Field, Predicate};
use crate::message::{Header, Recipient};

verus! {

/// An envelope field a quota key is derived from.
#[derive(Clone, Copy, PartialEq, Eq, Structural, Debug)]
pub enum KeyField {
    Sender,
    Rcpt,
    RcptDomain,
}

/// One configured quota: an optional match predicate, the fields its
/// bucket key is derived from, the optional ceilings, and whether it is
/// enabled. A quota with neither ceiling never rejects (it matches for
/// observability only).
pub struct QuotaDef {
    pub cond: Option<Predicate>,
    pub key_fields: Vec<KeyField>,
    pub max_messages: Option<u64>,
    pub max_bytes: Option<u64>,
    /// When set, several recipients of one message that derive the same
    /// bucket key (for example one domain shared by many recipients)
    /// contribute only one reservation; otherwise each matching recipient
    /// contributes its own.
    pub dedupe_keys: bool,
    pub enabled: bool,
}

/// A reservation token: the record that a candidate has incremented the
/// bucket of quota `quota_id` under `key` by `msgs` messages and `bytes`
/// bytes. Required for the matching release.
pub struct Token {
    pub quota_id: usize,
    pub key: String,
    pub msgs: u64,
    pub bytes: u64,
}

/// One shared counter pair: what is currently reserved under a
/// `(quota, key)` identity.
pub struct Bucket {
    pub quota_id: usize,
    pub key: String,
    pub messages: u64,
    pub bytes: u64,
}

/// The runtime bucket table, shared by all sessions.
pub struct QuotaStore {
    pub buckets: Vec<Bucket>,
}

/// A candidate message: envelope, size, header block, and the reservation
/// tokens it currently holds.
pub struct Candidate {
    pub sender: String,
    pub rcpts: Vec<Recipient>,
    pub size: u64,
    pub headers: Vec<Header>,
    pub tokens: Vec<Token>,
}

/// The ghost image of a reservation token.
pub struct TokenModel {
    pub quota_id: int,
    pub key: Seq<char>,
    pub msgs: int,
    pub bytes: int,
}

pub open spec fn token_model(t: Token) -> TokenModel {
    TokenModel { quota_id: t.quota_id as int, key: t.key@, msgs: t.msgs as int, bytes: t.bytes as int }
}

pub open spec fn tokens_model(ts: Seq<Token>) -> Seq<TokenModel> {
    ts.map_values(|t: Token| token_model(t))
}

pub open spec fn bucket_matches(b: Bucket, id: int, key: Seq<char>) -> bool {
    b.quota_id == id && b.key@ == key
}

/// Messages currently reserved under `(id, key)`: the sum over every
/// bucket with that identity.
pub open spec fn msgs_at(bs: Seq<Bucket>, id: int, key: Seq<char>) -> int
    decreases bs.len(),
{
    if bs.len() == 0 {
        0
    } else {
        (if bucket_matches(bs[0], id, key) {
            bs[0].messages as int
        } else {
            0int
        }) + msgs_at(bs.drop_first(), id, key)
    }
}

/// Bytes currently reserved under `(id, key)`.
pub open spec fn bytes_at(bs: Seq<Bucket>, id: int, key: Seq<char>) -> int
    decreases bs.len(),
{
    if bs.len() == 0 {
        0
    } else {
        (if bucket_matches(bs[0], id, key) {
            bs[0].bytes as int
        } else {
            0int
        }) + bytes_at(bs.drop_first(), id, key)
    }
}

/// Well-formedness of the bucket table: no two buckets share an identity.
pub open spec fn buckets_wf(bs: Seq<Bucket>) -> bool {
    forall|i: int, j: int|
        0 <= i < j < bs.len() ==> !bucket_matches(
            bs[j],
            bs[i].quota_id as int,
            bs[i].key@,
        )
}

pub proof fn lemma_counts_nonneg(bs: Seq<Bucket>, id: int, key: Seq<char>)
    ensures
        msgs_at(bs, id, key) >= 0,
        bytes_at(bs, id, key) >= 0,
    decreases bs.len(),
{
    if bs.len() > 0 {
        lemma_counts_nonneg(bs.drop_first(), id, key);
    }
}

/// In a table where no bucket matches `(id, key)`, the counts are zero.
pub proof fn lemma_counts_absent(bs: Seq<Bucket>, id: int, key: Seq<char>)
    requires
        forall|j: int| 0 <= j < bs.len() ==> !bucket_matches(bs[j], id, key),
    ensures
        msgs_at(bs, id, key) == 0,
        bytes_at(bs, id, key) == 0,
    decreases bs.len(),
{
    if bs.len() > 0 {
        assert forall|j: int| 0 <= j < bs.drop_first().len() implies !bucket_matches(
            bs.drop_first()[j],
            id,
            key,
        ) by {
            assert(bs.drop_first()[j] == bs[j + 1]);
        }
        lemma_counts_absent(bs.drop_first(), id, key);
    }
}

/// In a well-formed table the counts at an identity are exactly the
/// matching bucket's counters.
pub proof fn lemma_counts_unique(bs: Seq<Bucket>, i: int, id: int, key: Seq<char>)
    requires
        buckets_wf(bs),
        0 <= i < bs.len(),
        bucket_matches(bs[i], id, key),
    ensures
        msgs_at(bs, id, key) == bs[i].messages,
        bytes_at(bs, id, key) == bs[i].bytes,
    decreases bs.len(),
{
    if i == 0 {
        assert forall|j: int| 0 <= j < bs.drop_first().len() implies !bucket_matches(
            bs.drop_first()[j],
            id,
            key,
        ) by {
            assert(bs.drop_first()[j] == bs[j + 1]);
        }
        lemma_counts_absent(bs.drop_first(), id, key);
    } else {
        assert(!bucket_matches(bs[0], id, key));
        assert(buckets_wf(bs.drop_first())) by {
            assert forall|p: int, q: int|
                0 <= p < q < bs.drop_first().len() implies !bucket_matches(
                bs.drop_first()[q],
                bs.drop_first()[p].quota_id as int,
                bs.drop_first()[p].key@,
            ) by {
                assert(bs.drop_first()[p] == bs[p + 1]);
                assert(bs.drop_first()[q] == bs[q + 1]);
            }
        }
        assert(bs.drop_first()[i - 1] == bs[i]);
        lemma_counts_unique(bs.drop_first(), i - 1, id, key);
    }
}

/// Appending a bucket adds its counters at its own identity and nothing
/// anywhere else.
pub proof fn lemma_counts_push(bs: Seq<Bucket>, b: Bucket, id: int, key: Seq<char>)
    ensures
        msgs_at(bs.push(b), id, key) == msgs_at(bs, id, key) + (if bucket_matches(b, id, key) {
            b.messages as int
        } else {
            0int
        }),
        bytes_at(bs.push(b), id, key) == bytes_at(bs, id, key) + (if bucket_matches(b, id, key) {
            b.bytes as int
        } else {
            0int
        }),
    decreases bs.len(),
{
    if bs.len() == 0 {
        assert(bs.push(b)[0] == b);
        assert(bs.push(b).drop_first() =~= Seq::<Bucket>::empty());
        assert(msgs_at(bs.push(b).drop_first(), id, key) == 0);
        assert(bytes_at(bs.push(b).drop_first(), id, key) == 0);
    } else {
        assert(bs.push(b)[0] == bs[0]);
        assert(bs.push(b).drop_first() =~= bs.drop_first().push(b));
        lemma_counts_push(bs.drop_first(), b, id, key);
        assert(msgs_at(bs.push(b).drop_first(), id, key) == msgs_at(bs.drop_first(), id, key)
            + (if bucket_matches(b, id, key) {
                b.messages as int
            } else {
                0int
            }));
        assert(bytes_at(bs.push(b).drop_first(), id, key) == bytes_at(bs.drop_first(), id, key)
            + (if bucket_matches(b, id, key) {
                b.bytes as int
            } else {
                0int
            }));
    }
}

/// Replacing bucket `i` shifts the counts by the difference of the two
/// buckets' contributions.
pub proof fn lemma_counts_update(bs: Seq<Bucket>, i: int, b: Bucket, id: int, key: Seq<char>)
    requires
        0 <= i < bs.len(),
    ensures
        msgs_at(bs.update(i, b), id, key) == msgs_at(bs, id, key) - (if bucket_matches(
            bs[i],
            id,
            key,
        ) {
            bs[i].messages as int
        } else {
            0int
        }) + (if bucket_matches(b, id, key) {
            b.messages as int
        } else {
            0int
        }),
        bytes_at(bs.update(i, b), id, key) == bytes_at(bs, id, key) - (if bucket_matches(
            bs[i],
            id,
            key,
        ) {
            bs[i].bytes as int
        } else {
            0int
        }) + (if bucket_matches(b, id, key) {
            b.bytes as int
        } else {
            0int
        }),
    decreases bs.len(),
{
    if i == 0 {
        assert(bs.update(0, b).drop_first() =~= bs.drop_first());
    } else {
        assert(bs.update(i, b).drop_first() =~= bs.drop_first().update(i - 1, b));
        assert(bs.drop_first()[i - 1] == bs[i]);
        lemma_counts_update(bs.drop_first(), i - 1, b, id, key);
    }
}

/// Messages a token sequence reserves under `(id, key)`.
pub open spec fn tok_msgs_at(ts: Seq<TokenModel>, id: int, key: Seq<char>) -> int
    decreases ts.len(),
{
    if ts.len() == 0 {
        0
    } else {
        (if ts[0].quota_id == id && ts[0].key == key {
            ts[0].msgs
        } else {
            0int
        }) + tok_msgs_at(ts.drop_first(), id, key)
    }
}

/// Bytes a token sequence reserves under `(id, key)`.
pub open spec fn tok_bytes_at(ts: Seq<TokenModel>, id: int, key: Seq<char>) -> int
    decreases ts.len(),
{
    if ts.len() == 0 {
        0
    } else {
        (if ts[0].quota_id == id && ts[0].key == key {
            ts[0].bytes
        } else {
            0int
        }) + tok_bytes_at(ts.drop_first(), id, key)
    }
}

pub proof fn lemma_tok_nonneg(ts: Seq<TokenModel>, id: int, key: Seq<char>)
    requires
        forall|k: int| 0 <= k < ts.len() ==> ts[k].msgs >= 0 && ts[k].bytes >= 0,
    ensures
        tok_msgs_at(ts, id, key) >= 0,
        tok_bytes_at(ts, id, key) >= 0,
    decreases ts.len(),
{
    if ts.len() > 0 {
        assert forall|k: int| 0 <= k < ts.drop_first().len() implies ts.drop_first()[k].msgs >= 0
            && ts.drop_first()[k].bytes >= 0 by {
            assert(ts.drop_first()[k] == ts[k + 1]);
        }
        lemma_tok_nonneg(ts.drop_first(), id, key);
    }
}

pub proof fn lemma_tok_push(ts: Seq<TokenModel>, t: TokenModel, id: int, key: Seq<char>)
    ensures
        tok_msgs_at(ts.push(t), id, key) == tok_msgs_at(ts, id, key) + (if t.quota_id == id
            && t.key == key {
            t.msgs
        } else {
            0int
        }),
        tok_bytes_at(ts.push(t), id, key) == tok_bytes_at(ts, id, key) + (if t.quota_id == id
            && t.key == key {
            t.bytes
        } else {
            0int
        }),
    decreases ts.len(),
{
    if ts.len() == 0 {
        assert(ts.push(t)[0] == t);
        assert(ts.push(t).drop_first() =~= Seq::<TokenModel>::empty());
        assert(tok_msgs_at(ts.push(t).drop_first(), id, key) == 0);
        assert(tok_bytes_at(ts.push(t).drop_first(), id, key) == 0);
    } else {
        assert(ts.push(t)[0] == ts[0]);
        assert(ts.push(t).drop_first() =~= ts.drop_first().push(t));
        lemma_tok_push(ts.drop_first(), t, id, key);
        assert(tok_msgs_at(ts.push(t).drop_first(), id, key) == tok_msgs_at(
            ts.drop_first(),
            id,
            key,
        ) + (if t.quota_id == id && t.key == key {
            t.msgs
        } else {
            0int
        }));
        assert(tok_bytes_at(ts.push(t).drop_first(), id, key) == tok_bytes_at(
            ts.drop_first(),
            id,
            key,
        ) + (if t.quota_id == id && t.key == key {
            t.bytes
        } else {
            0int
        }));
    }
}

/// The two count functions moved from `a` to `b` by `dm` messages and
/// `db` bytes at `(id, key)` and are untouched at every other identity.
pub open spec fn counts_shifted(
    a: Seq<Bucket>,
    b: Seq<Bucket>,
    id: int,
    key: Seq<char>,
    dm: int,
    db: int,
) -> bool {
    &&& msgs_at(b, id, key) == msgs_at(a, id, key) + dm
    &&& bytes_at(b, id, key) == bytes_at(a, id, key) + db
    &&& forall|id2: int, key2: Seq<char>|
        !(id2 == id && key2 == key) ==> #[trigger] msgs_at(b, id2, key2) == msgs_at(a, id2, key2)
    &&& forall|id2: int, key2: Seq<char>|
        !(id2 == id && key2 == key) ==> #[trigger] bytes_at(b, id2, key2) == bytes_at(a, id2, key2)
}

/// Whether reserving `msgs` messages and `bytes` bytes under `(id, key)`
/// stays within the given ceilings.
pub open spec fn fits(
    bs: Seq<Bucket>,
    id: int,
    key: Seq<char>,
    msgs: int,
    bytes: int,
    max_messages: Option<u64>,
    max_bytes: Option<u64>,
) -> bool {
    &&& (match max_messages {
        Some(m) => msgs_at(bs, id, key) + msgs <= m,
        None => true,
    })
    &&& (match max_bytes {
        Some(mb) => bytes_at(bs, id, key) + bytes <= mb,
        None => true,
    })
}

impl QuotaStore {
    pub open spec fn wf(self) -> bool {
        buckets_wf(self.buckets@)
    }

    pub open spec fn msgs(self, id: int, key: Seq<char>) -> int {
        msgs_at(self.buckets@, id, key)
    }

    pub open spec fn bytes(self, id: int, key: Seq<char>) -> int {
        bytes_at(self.buckets@, id, key)
    }

    /// An empty store: nothing reserved anywhere.
    pub fn new() -> (s: QuotaStore)
        ensures
            s.wf(),
            forall|id: int, key: Seq<char>| #[trigger] s.msgs(id, key) == 0,
            forall|id: int, key: Seq<char>| #[trigger] s.bytes(id, key) == 0,
    {
        let s = QuotaStore { buckets: Vec::new() };
        s
    }

    /// The index of the bucket with identity `(quota_id, key)`, if any.
    fn find_bucket(&self, quota_id: usize, key: &String) -> (r: Option<usize>)
        ensures
            match r {
                Some(i) => i < self.buckets@.len() && bucket_matches(
                    self.buckets@[i as int],
                    quota_id as int,
                    key@,
                ),
                None => forall|j: int|
                    0 <= j < self.buckets@.len() ==> !bucket_matches(
                        self.buckets@[j],
                        quota_id as int,
                        key@,
                    ),
            },
    {
        let len = self.buckets.len();
        let mut i: usize = 0;
        while i < len
            invariant
                len == self.buckets@.len(),
                i <= len,
                forall|j: int|
                    0 <= j < i ==> !bucket_matches(self.buckets@[j], quota_id as int, key@),
            decreases len - i,
        {
            let b = &self.buckets[i];
            if b.quota_id == quota_id && b.key.eq(key) {
                return Some(i);
            }
            i = i + 1;
        }
        None
    }

    /// The atomic check-and-increment on one bucket: succeeds, and applies
    /// the token's amounts, exactly when both ceilings allow them; on
    /// refusal the store is untouched.
    fn reserve_at(
        &mut self,
        t: &Token,
        max_messages: Option<u64>,
        max_bytes: Option<u64>,
    ) -> (ok: bool)
        requires
            old(self).wf(),
            max_messages is None ==> t.msgs == 0,
            max_bytes is None ==> t.bytes == 0,
        ensures
            final(self).wf(),
            ok == fits(
                old(self).buckets@,
                t.quota_id as int,
                t.key@,
                t.msgs as int,
                t.bytes as int,
                max_messages,
                max_bytes,
            ),
            ok ==> counts_shifted(
                old(self).buckets@,
                final(self).buckets@,
                t.quota_id as int,
                t.key@,
                t.msgs as int,
                t.bytes as int,
            ),
            !ok ==> *final(self) == *old(self),
    {
        let ghost id = t.quota_id as int;
        let ghost key = t.key@;
        match self.find_bucket(t.quota_id, &t.key) {
            Some(i) => {
                proof {
                    lemma_counts_unique(self.buckets@, i as int, id, key);
                }
                let cur_m = self.buckets[i].messages;
                let cur_b = self.buckets[i].bytes;
                let ok_m = match max_messages {
                    Some(m) => cur_m <= m && t.msgs <= m - cur_m,
                    None => true,
                };
                let ok_b = match max_bytes {
                    Some(mb) => cur_b <= mb && t.bytes <= mb - cur_b,
                    None => true,
                };
                if ok_m && ok_b {
                    let nb = Bucket {
                        quota_id: t.quota_id,
                        key: t.key.clone(),
                        messages: cur_m + t.msgs,
                        bytes: cur_b + t.bytes,
                    };
                    let ghost bs0 = self.buckets@;
                    self.buckets.set(i, nb);
                    proof {
                        assert forall|p: int, q: int|
                            0 <= p < q < self.buckets@.len() implies !bucket_matches(
                            self.buckets@[q],
                            self.buckets@[p].quota_id as int,
                            self.buckets@[p].key@,
                        ) by {
                            assert(bucket_matches(self.buckets@[p], bs0[p].quota_id as int, bs0[p].key@));
                            assert(bucket_matches(self.buckets@[q], bs0[q].quota_id as int, bs0[q].key@));
                        }
                        lemma_counts_update(bs0, i as int, nb, id, key);
                        assert forall|id2: int, key2: Seq<char>|
                            !(id2 == id && key2 == key) implies #[trigger] msgs_at(
                            self.buckets@,
                            id2,
                            key2,
                        ) == msgs_at(bs0, id2, key2) by {
                            lemma_counts_update(bs0, i as int, nb, id2, key2);
                        }
                        assert forall|id2: int, key2: Seq<char>|
                            !(id2 == id && key2 == key) implies #[trigger] bytes_at(
                            self.buckets@,
                            id2,
                            key2,
                        ) == bytes_at(bs0, id2, key2) by {
                            lemma_counts_update(bs0, i as int, nb, id2, key2);
                        }
                    }
                    true
                } else {
                    false
                }
            },
            None => {
                proof {
                    lemma_counts_absent(self.buckets@, id, key);
                }
                let ok_m = match max_messages {
                    Some(m) => t.msgs <= m,
                    None => true,
                };
                let ok_b = match max_bytes {
                    Some(mb) => t.bytes <= mb,
                    None => true,
                };
                if ok_m && ok_b {
                    let nb = Bucket {
                        quota_id: t.quota_id,
                        key: t.key.clone(),
                        messages: t.msgs,
                        bytes: t.bytes,
                    };
                    let ghost bs0 = self.buckets@;
                    self.buckets.push(nb);
                    proof {
                        assert forall|p: int, q: int|
                            0 <= p < q < self.buckets@.len() implies !bucket_matches(
                            self.buckets@[q],
                            self.buckets@[p].quota_id as int,
                            self.buckets@[p].key@,
                        ) by {
                            assert(self.buckets@[p] == bs0[p]);
                            if q < bs0.len() {
                                assert(self.buckets@[q] == bs0[q]);
                            } else {
                                assert(self.buckets@[q] == nb);
                                assert(!bucket_matches(bs0[p], id, key));
                            }
                        }
                        lemma_counts_push(bs0, nb, id, key);
                        assert forall|id2: int, key2: Seq<char>|
                            !(id2 == id && key2 == key) implies #[trigger] msgs_at(
                            self.buckets@,
                            id2,
                            key2,
                        ) == msgs_at(bs0, id2, key2) by {
                            lemma_counts_push(bs0, nb, id2, key2);
                        }
                        assert forall|id2: int, key2: Seq<char>|
                            !(id2 == id && key2 == key) implies #[trigger] bytes_at(
                            self.buckets@,
                            id2,
                            key2,
                        ) == bytes_at(bs0, id2, key2) by {
                            lemma_counts_push(bs0, nb, id2, key2);
                        }
                    }
                    true
                } else {
                    false
                }
            },
        }
    }

    /// The atomic decrement on one bucket, undoing exactly what the token
    /// reserved. The token must be backed by the store's counts.
    fn release_at(&mut self, t: &Token)
        requires
            old(self).wf(),
            t.msgs as int <= msgs_at(old(self).buckets@, t.quota_id as int, t.key@),
            t.bytes as int <= bytes_at(old(self).buckets@, t.quota_id as int, t.key@),
        ensures
            final(self).wf(),
            counts_shifted(
                old(self).buckets@,
                final(self).buckets@,
                t.quota_id as int,
                t.key@,
                -(t.msgs as int),
                -(t.bytes as int),
            ),
    {
        let ghost id = t.quota_id as int;
        let ghost key = t.key@;
        match self.find_bucket(t.quota_id, &t.key) {
            Some(i) => {
                proof {
                    lemma_counts_unique(self.buckets@, i as int, id, key);
                }
                let cur_m = self.buckets[i].messages;
                let cur_b = self.buckets[i].bytes;
                let nb = Bucket {
                    quota_id: t.quota_id,
                    key: t.key.clone(),
                    messages: cur_m - t.msgs,
                    bytes: cur_b - t.bytes,
                };
                let ghost bs0 = self.buckets@;
                self.buckets.set(i, nb);
                proof {
                    assert forall|p: int, q: int|
                        0 <= p < q < self.buckets@.len() implies !bucket_matches(
                        self.buckets@[q],
                        self.buckets@[p].quota_id as int,
                        self.buckets@[p].key@,
                    ) by {
                        assert(bucket_matches(self.buckets@[p], bs0[p].quota_id as int, bs0[p].key@));
                        assert(bucket_matches(self.buckets@[q], bs0[q].quota_id as int, bs0[q].key@));
                    }
                    lemma_counts_update(bs0, i as int, nb, id, key);
                    assert forall|id2: int, key2: Seq<char>|
                        !(id2 == id && key2 == key) implies #[trigger] msgs_at(
                        self.buckets@,
                        id2,
                        key2,
                    ) == msgs_at(bs0, id2, key2) by {
                        lemma_counts_update(bs0, i as int, nb, id2, key2);
                    }
                    assert forall|id2: int, key2: Seq<char>|
                        !(id2 == id && key2 == key) implies #[trigger] bytes_at(
                        self.buckets@,
                        id2,
                        key2,
                    ) == bytes_at(bs0, id2, key2) by {
                        lemma_counts_update(bs0, i as int, nb, id2, key2);
                    }
                }
            },
            None => {
                proof {
                    lemma_counts_absent(self.buckets@, id, key);
                }
            },
        }
    }
}

/// The rejection a failed reservation returns: which configured quota was
/// exhausted. Quota exhaustion is a temporary condition, expected to clear
/// once in-flight messages complete or expire.
#[derive(Clone, Copy, PartialEq, Eq, Structural, Debug)]
pub struct QuotaExceeded {
    pub quota: usize,
}

/// The envelope value a key field selects.
pub open spec fn key_field_of(f: KeyField, sender: Seq<char>, rcpt: Seq<char>, dom: Seq<char>) -> Seq<char> {
    match f {
        KeyField::Sender => sender,
        KeyField::Rcpt => rcpt,
        KeyField::RcptDomain => dom,
    }
}

/// The bucket key of a quota: the selected envelope values in key-field
/// order, each terminated by a newline.
pub open spec fn derived_key(
    fields: Seq<KeyField>,
    sender: Seq<char>,
    rcpt: Seq<char>,
    dom: Seq<char>,
) -> Seq<char>
    decreases fields.len(),
{
    if fields.len() == 0 {
        Seq::empty()
    } else {
        key_field_of(fields[0], sender, rcpt, dom) + "\n"@ + derived_key(
            fields.drop_first(),
            sender,
            rcpt,
            dom,
        )
    }
}

/// Whether a quota's predicate admits the given envelope values. A quota
/// without a predicate matches everything.
pub open spec fn quota_pred_ok(
    cond: Option<Predicate>,
    remote_ip: Seq<char>,
    sender: Seq<char>,
    rcpt: Seq<char>,
    dom: Seq<char>,
) -> bool {
    match cond {
        None => true,
        Some(p) => (match p.field {
            Field::RemoteIp => remote_ip,
            Field::Sender => sender,
            Field::Rcpt => rcpt,
            Field::RcptDomain => dom,
        }) == p.literal@,
    }
}

/// A quota keyed on (or matched against) a recipient field is applied once
/// per recipient; any other quota is applied once per message.
pub open spec fn def_is_per_rcpt(d: QuotaDef) -> bool {
    (exists|i: int|
        0 <= i < d.key_fields@.len() && (d.key_fields@[i] is Rcpt || d.key_fields@[i] is RcptDomain))
        || (match d.cond {
        Some(p) => p.field is Rcpt || p.field is RcptDomain,
        None => false,
    })
}

/// Messages one reservation against this quota consumes: one if a message
/// ceiling is configured, none otherwise.
pub open spec fn def_msgs(d: QuotaDef) -> int {
    if d.max_messages is Some {
        1
    } else {
        0
    }
}

/// Bytes one reservation against this quota consumes: the candidate's size
/// if a byte ceiling is configured, none otherwise.
pub open spec fn def_bytes(d: QuotaDef, size: u64) -> int {
    if d.max_bytes is Some {
        size as int
    } else {
        0
    }
}

pub open spec fn def_token(
    d: QuotaDef,
    id: int,
    sender: Seq<char>,
    rcpt: Seq<char>,
    dom: Seq<char>,
    size: u64,
) -> TokenModel {
    TokenModel {
        quota_id: id,
        key: derived_key(d.key_fields@, sender, rcpt, dom),
        msgs: def_msgs(d),
        bytes: def_bytes(d, size),
    }
}

/// Whether quota `d`'s predicate admits recipient `j`.
pub open spec fn rcpt_matches(
    d: QuotaDef,
    remote_ip: Seq<char>,
    sender: Seq<char>,
    rcpts: Seq<Recipient>,
    j: int,
) -> bool {
    quota_pred_ok(d.cond, remote_ip, sender, rcpts[j].address@, rcpts[j].domain@)
}

/// The bucket key recipient `j` derives for quota `d`.
pub open spec fn rcpt_key(d: QuotaDef, sender: Seq<char>, rcpts: Seq<Recipient>, j: int) -> Seq<
    char,
> {
    derived_key(d.key_fields@, sender, rcpts[j].address@, rcpts[j].domain@)
}

/// Whether some admitted recipient before `upto` derives the same key as
/// recipient `j`.
pub open spec fn dup_before(
    d: QuotaDef,
    remote_ip: Seq<char>,
    sender: Seq<char>,
    rcpts: Seq<Recipient>,
    j: int,
    upto: int,
) -> bool {
    exists|i: int|
        0 <= i < upto && #[trigger] rcpt_matches(d, remote_ip, sender, rcpts, i) && rcpt_key(
            d,
            sender,
            rcpts,
            i,
        ) == rcpt_key(d, sender, rcpts, j)
}

/// Whether recipient `j` contributes a reservation for quota `d`: its
/// predicate must admit it, and under `dedupe_keys` no earlier admitted
/// recipient may have derived the same key.
pub open spec fn rcpt_contributes(
    d: QuotaDef,
    remote_ip: Seq<char>,
    sender: Seq<char>,
    rcpts: Seq<Recipient>,
    j: int,
) -> bool {
    rcpt_matches(d, remote_ip, sender, rcpts, j) && (d.dedupe_keys ==> !dup_before(
        d,
        remote_ip,
        sender,
        rcpts,
        j,
        j,
    ))
}

proof fn lemma_dup_step(
    d: QuotaDef,
    remote_ip: Seq<char>,
    sender: Seq<char>,
    rcpts: Seq<Recipient>,
    j: int,
    upto: int,
)
    requires
        0 <= upto,
    ensures
        dup_before(d, remote_ip, sender, rcpts, j, upto + 1) == (dup_before(
            d,
            remote_ip,
            sender,
            rcpts,
            j,
            upto,
        ) || (rcpt_matches(d, remote_ip, sender, rcpts, upto) && rcpt_key(d, sender, rcpts, upto)
            == rcpt_key(d, sender, rcpts, j))),
{
    if dup_before(d, remote_ip, sender, rcpts, j, upto + 1) {
        let i = choose|i: int|
            0 <= i < upto + 1 && #[trigger] rcpt_matches(d, remote_ip, sender, rcpts, i)
                && rcpt_key(d, sender, rcpts, i) == rcpt_key(d, sender, rcpts, j);
        if i < upto {
            assert(dup_before(d, remote_ip, sender, rcpts, j, upto));
        }
    }
    if dup_before(d, remote_ip, sender, rcpts, j, upto) {
        let i = choose|i: int|
            0 <= i < upto && #[trigger] rcpt_matches(d, remote_ip, sender, rcpts, i) && rcpt_key(
                d,
                sender,
                rcpts,
                i,
            ) == rcpt_key(d, sender, rcpts, j);
        assert(dup_before(d, remote_ip, sender, rcpts, j, upto + 1));
    }
}

/// The reservations one per-recipient quota makes against a candidate,
/// starting from recipient `j`: one token per contributing recipient, in
/// envelope order. Without `dedupe_keys` several recipients sharing a
/// domain each contribute their own token to a per-domain quota.
pub open spec fn rcpt_plan_from(
    d: QuotaDef,
    id: int,
    remote_ip: Seq<char>,
    sender: Seq<char>,
    rcpts: Seq<Recipient>,
    size: u64,
    j: int,
) -> Seq<TokenModel>
    decreases rcpts.len() - j,
{
    if j >= rcpts.len() {
        Seq::empty()
    } else {
        (if rcpt_contributes(d, remote_ip, sender, rcpts, j) {
            seq![def_token(d, id, sender, rcpts[j].address@, rcpts[j].domain@, size)]
        } else {
            Seq::empty()
        }) + rcpt_plan_from(d, id, remote_ip, sender, rcpts, size, j + 1)
    }
}

/// The reservations one quota makes against a candidate. For rules
/// evaluated outside any recipient the recipient fields are empty.
pub open spec fn def_plan(
    d: QuotaDef,
    id: int,
    remote_ip: Seq<char>,
    sender: Seq<char>,
    rcpts: Seq<Recipient>,
    size: u64,
) -> Seq<TokenModel> {
    if !d.enabled {
        Seq::empty()
    } else if def_is_per_rcpt(d) {
        rcpt_plan_from(d, id, remote_ip, sender, rcpts, size, 0)
    } else if quota_pred_ok(d.cond, remote_ip, sender, Seq::empty(), Seq::empty()) {
        seq![def_token(d, id, sender, Seq::empty(), Seq::empty(), size)]
    } else {
        Seq::empty()
    }
}

pub open spec fn plan_with_base(
    defs: Seq<QuotaDef>,
    base: int,
    remote_ip: Seq<char>,
    sender: Seq<char>,
    rcpts: Seq<Recipient>,
    size: u64,
) -> Seq<TokenModel>
    decreases defs.len(),
{
    if defs.len() == 0 {
        Seq::empty()
    } else {
        def_plan(defs[0], base, remote_ip, sender, rcpts, size) + plan_with_base(
            defs.drop_first(),
            base + 1,
            remote_ip,
            sender,
            rcpts,
            size,
        )
    }
}

/// Every reservation a candidate requires: one token per enabled, matching
/// `(quota, key)` pair, in configuration order (recipients in envelope
/// order within each per-recipient quota).
pub open spec fn quota_plan(
    defs: Seq<QuotaDef>,
    remote_ip: Seq<char>,
    sender: Seq<char>,
    rcpts: Seq<Recipient>,
    size: u64,
) -> Seq<TokenModel> {
    plan_with_base(defs, 0, remote_ip, sender, rcpts, size)
}

/// A token is consistent with the quota table it was derived from.
pub open spec fn token_def_ok(t: Token, defs: Seq<QuotaDef>, size: u64) -> bool {
    &&& (t.quota_id as int) < defs.len()
    &&& t.msgs as int == def_msgs(defs[t.quota_id as int])
    &&& t.bytes as int == def_bytes(defs[t.quota_id as int], size)
}

/// Whether a quota is applied per recipient rather than per message.
fn def_per_rcpt(d: &QuotaDef) -> (r: bool)
    ensures
        r == def_is_per_rcpt(*d),
{
    let from_cond = match &d.cond {
        Some(p) => match p.field {
            Field::Rcpt => true,
            Field::RcptDomain => true,
            _ => false,
        },
        None => false,
    };
    if from_cond {
        return true;
    }
    let len = d.key_fields.len();
    let mut i: usize = 0;
    while i < len
        invariant
            len == d.key_fields@.len(),
            i <= len,
            forall|j: int|
                0 <= j < i ==> !(d.key_fields@[j] is Rcpt || d.key_fields@[j] is RcptDomain),
        decreases len - i,
    {
        match d.key_fields[i] {
            KeyField::Rcpt => {
                return true;
            },
            KeyField::RcptDomain => {
                return true;
            },
            KeyField::Sender => {},
        }
        i = i + 1;
    }
    false
}

/// Whether a quota's predicate admits the given envelope values.
fn quota_pred_eval(
    cond: &Option<Predicate>,
    remote_ip: &String,
    sender: &String,
    rcpt: &String,
    dom: &String,
) -> (r: bool)
    ensures
        r == quota_pred_ok(*cond, remote_ip@, sender@, rcpt@, dom@),
{
    match cond {
        None => true,
        Some(p) => {
            let field: &String = match p.field {
                Field::RemoteIp => remote_ip,
                Field::Sender => sender,
                Field::Rcpt => rcpt,
                Field::RcptDomain => dom,
            };
            field.eq(&p.literal)
        },
    }
}

/// Derives a quota's bucket key from the envelope values.
fn build_key(fields: &Vec<KeyField>, sender: &String, rcpt: &String, dom: &String) -> (k: String)
    ensures
        k@ == derived_key(fields@, sender@, rcpt@, dom@),
{
    let mut k = String::new();
    let len = fields.len();
    let mut i: usize = 0;
    proof {
        assert(fields@.skip(0) =~= fields@);
        assert(k@ + derived_key(fields@, sender@, rcpt@, dom@) =~= derived_key(
            fields@,
            sender@,
            rcpt@,
            dom@,
        ));
    }
    while i < len
        invariant
            len == fields@.len(),
            i <= len,
            k@ + derived_key(fields@.skip(i as int), sender@, rcpt@, dom@) == derived_key(
                fields@,
                sender@,
                rcpt@,
                dom@,
            ),
        decreases len - i,
    {
        let ghost k0 = k@;
        let ghost rest = fields@.skip(i as int);
        proof {
            assert(rest[0] == fields@[i as int]);
            assert(rest.drop_first() =~= fields@.skip(i as int + 1));
        }
        let v: &String = match fields[i] {
            KeyField::Sender => sender,
            KeyField::Rcpt => rcpt,
            KeyField::RcptDomain => dom,
        };
        k.append(v.as_str());
        k.append("\n");
        proof {
            assert(k@ =~= k0 + key_field_of(fields@[i as int], sender@, rcpt@, dom@) + "\n"@);
            assert(k@ + derived_key(fields@.skip(i as int + 1), sender@, rcpt@, dom@) =~= k0
                + derived_key(rest, sender@, rcpt@, dom@));
        }
        i = i + 1;
    }
    proof {
        assert(fields@.skip(len as int) =~= Seq::<KeyField>::empty());
        assert(k@ + Seq::<char>::empty() =~= k@);
    }
    k
}

/// Builds the token a matching quota reserves for the given envelope
/// values.
fn build_token(d: &QuotaDef, id: usize, sender: &String, rcpt: &String, dom: &String, size: u64) -> (t: Token)
    ensures
        token_model(t) == def_token(*d, id as int, sender@, rcpt@, dom@, size),
        t.quota_id == id,
        t.msgs as int == def_msgs(*d),
        t.bytes as int == def_bytes(*d, size),
{
    let key = build_key(&d.key_fields, sender, rcpt, dom);
    let msgs: u64 = if d.max_messages.is_some() {
        1
    } else {
        0
    };
    let bytes: u64 = if d.max_bytes.is_some() {
        size
    } else {
        0
    };
    Token { quota_id: id, key, msgs, bytes }
}

/// Computes every reservation the enabled, matching quotas require for a
/// candidate, in configuration order.
fn build_plan(
    defs: &Vec<QuotaDef>,
    remote_ip: &String,
    sender: &String,
    rcpts: &Vec<Recipient>,
    size: u64,
) -> (ts: Vec<Token>)
    ensures
        tokens_model(ts@) == quota_plan(defs@, remote_ip@, sender@, rcpts@, size),
        forall|j: int| 0 <= j < ts@.len() ==> token_def_ok(#[trigger] ts@[j], defs@, size),
{
    let empty = String::new();
    let mut out: Vec<Token> = Vec::new();
    let ghost goal = quota_plan(defs@, remote_ip@, sender@, rcpts@, size);
    let n = defs.len();
    let mut i: usize = 0;
    proof {
        assert(defs@.skip(0) =~= defs@);
        assert(tokens_model(out@) =~= Seq::<TokenModel>::empty());
        assert(tokens_model(out@) + plan_with_base(defs@, 0, remote_ip@, sender@, rcpts@, size)
            =~= goal);
    }
    while i < n
        invariant
            n == defs@.len(),
            i <= n,
            empty@ == Seq::<char>::empty(),
            goal == quota_plan(defs@, remote_ip@, sender@, rcpts@, size),
            tokens_model(out@) + plan_with_base(
                defs@.skip(i as int),
                i as int,
                remote_ip@,
                sender@,
                rcpts@,
                size,
            ) == goal,
            forall|j: int| 0 <= j < out@.len() ==> token_def_ok(#[trigger] out@[j], defs@, size),
        decreases n - i,
    {
        let ghost rest = defs@.skip(i as int);
        proof {
            assert(rest[0] == defs@[i as int]);
            assert(rest.drop_first() =~= defs@.skip(i as int + 1));
        }
        let ghost dplan = def_plan(defs@[i as int], i as int, remote_ip@, sender@, rcpts@, size);
        let ghost tail = plan_with_base(
            defs@.skip(i as int + 1),
            i as int + 1,
            remote_ip@,
            sender@,
            rcpts@,
            size,
        );
        proof {
            assert(plan_with_base(rest, i as int, remote_ip@, sender@, rcpts@, size) == dplan
                + tail);
            assert(tokens_model(out@) + (dplan + tail) =~= (tokens_model(out@) + dplan) + tail);
        }
        let d = &defs[i];
        if d.enabled {
            if def_per_rcpt(d) {
                let m = rcpts.len();
                let mut k: usize = 0;
                while k < m
                    invariant
                        n == defs@.len(),
                        i < n,
                        m == rcpts@.len(),
                        k <= m,
                        *d == defs@[i as int],
                        d.enabled,
                        def_is_per_rcpt(*d),
                        dplan == def_plan(defs@[i as int], i as int, remote_ip@, sender@, rcpts@, size),
                        (tokens_model(out@) + rcpt_plan_from(
                            *d,
                            i as int,
                            remote_ip@,
                            sender@,
                            rcpts@,
                            size,
                            k as int,
                        )) + tail == goal,
                        forall|j: int|
                            0 <= j < out@.len() ==> token_def_ok(#[trigger] out@[j], defs@, size),
                    decreases m - k,
                {
                    let rc = &rcpts[k];
                    let matched = quota_pred_eval(&d.cond, remote_ip, sender, &rc.address, &rc.domain);
                    let mut contribute = matched;
                    if matched && d.dedupe_keys {
                        let key_k = build_key(&d.key_fields, sender, &rc.address, &rc.domain);
                        let mut dup = false;
                        let mut i2: usize = 0;
                        proof {
                            assert(key_k@ == rcpt_key(*d, sender@, rcpts@, k as int));
                        }
                        while i2 < k
                            invariant
                                m == rcpts@.len(),
                                k < m,
                                i2 <= k,
                                key_k@ == rcpt_key(*d, sender@, rcpts@, k as int),
                                dup == dup_before(*d, remote_ip@, sender@, rcpts@, k as int, i2 as int),
                            decreases k - i2,
                        {
                            let rc2 = &rcpts[i2];
                            let m2 = quota_pred_eval(&d.cond, remote_ip, sender, &rc2.address, &rc2.domain);
                            if m2 {
                                let key2 = build_key(&d.key_fields, sender, &rc2.address, &rc2.domain);
                                if key2.eq(&key_k) {
                                    dup = true;
                                }
                            }
                            proof {
                                lemma_dup_step(*d, remote_ip@, sender@, rcpts@, k as int, i2 as int);
                            }
                            i2 = i2 + 1;
                        }
                        contribute = !dup;
                    }
                    proof {
                        assert(contribute == rcpt_contributes(*d, remote_ip@, sender@, rcpts@, k as int));
                    }
                    if contribute {
                        let ghost out0 = out@;
                        let t = build_token(d, i, sender, &rc.address, &rc.domain, size);
                        out.push(t);
                        proof {
                            assert(tokens_model(out@) =~= tokens_model(out0).push(token_model(t)));
                            assert(rcpt_plan_from(
                                *d,
                                i as int,
                                remote_ip@,
                                sender@,
                                rcpts@,
                                size,
                                k as int,
                            ) =~= seq![token_model(t)] + rcpt_plan_from(
                                *d,
                                i as int,
                                remote_ip@,
                                sender@,
                                rcpts@,
                                size,
                                k as int + 1,
                            ));
                            assert((tokens_model(out@) + rcpt_plan_from(
                                *d,
                                i as int,
                                remote_ip@,
                                sender@,
                                rcpts@,
                                size,
                                k as int + 1,
                            )) =~= (tokens_model(out0) + rcpt_plan_from(
                                *d,
                                i as int,
                                remote_ip@,
                                sender@,
                                rcpts@,
                                size,
                                k as int,
                            )));
                            assert forall|j: int| 0 <= j < out@.len() implies token_def_ok(
                                #[trigger] out@[j],
                                defs@,
                                size,
                            ) by {
                                if j < out0.len() {
                                    assert(out@[j] == out0[j]);
                                } else {
                                    assert(out@[j] == t);
                                }
                            }
                        }
                    } else {
                        proof {
                            assert(rcpt_plan_from(
                                *d,
                                i as int,
                                remote_ip@,
                                sender@,
                                rcpts@,
                                size,
                                k as int,
                            ) =~= rcpt_plan_from(
                                *d,
                                i as int,
                                remote_ip@,
                                sender@,
                                rcpts@,
                                size,
                                k as int + 1,
                            ));
                        }
                    }
                    k = k + 1;
                }
                proof {
                    assert(rcpt_plan_from(*d, i as int, remote_ip@, sender@, rcpts@, size, m as int)
                        =~= Seq::<TokenModel>::empty());
                    assert(tokens_model(out@) + Seq::<TokenModel>::empty() =~= tokens_model(out@));
                    assert(tokens_model(out@) + tail == goal);
                }
            } else {
                if quota_pred_eval(&d.cond, remote_ip, sender, &empty, &empty) {
                    let ghost out0 = out@;
                    let t = build_token(d, i, sender, &empty, &empty, size);
                    out.push(t);
                    proof {
                        assert(tokens_model(out@) =~= tokens_model(out0).push(token_model(t)));
                        assert(dplan =~= seq![token_model(t)]);
                        assert(tokens_model(out@) =~= tokens_model(out0) + dplan);
                        assert forall|j: int| 0 <= j < out@.len() implies token_def_ok(
                            #[trigger] out@[j],
                            defs@,
                            size,
                        ) by {
                            if j < out0.len() {
                                assert(out@[j] == out0[j]);
                            } else {
                                assert(out@[j] == t);
                            }
                        }
                    }
                } else {
                    proof {
                        assert(dplan =~= Seq::<TokenModel>::empty());
                        assert(tokens_model(out@) + dplan =~= tokens_model(out@));
                    }
                }
            }
        } else {
            proof {
                assert(dplan =~= Seq::<TokenModel>::empty());
                assert(tokens_model(out@) + dplan =~= tokens_model(out@));
            }
        }
        i = i + 1;
    }
    proof {
        assert(defs@.skip(n as int) =~= Seq::<QuotaDef>::empty());
        assert(plan_with_base(defs@.skip(n as int), n as int, remote_ip@, sender@, rcpts@, size)
            =~= Seq::<TokenModel>::empty());
        assert(tokens_model(out@) + Seq::<TokenModel>::empty() =~= tokens_model(out@));
    }
    out
}

/// Whether the `i`-th token of a plan stays within its quota's ceilings,
/// counting what the store already holds plus what the earlier tokens of
/// the same plan reserve under the same identity.
pub open spec fn plan_fits_at(
    bs: Seq<Bucket>,
    defs: Seq<QuotaDef>,
    ts: Seq<TokenModel>,
    i: int,
) -> bool {
    let t = ts[i];
    let d = defs[t.quota_id];
    &&& (match d.max_messages {
        Some(m) => msgs_at(bs, t.quota_id, t.key) + tok_msgs_at(ts.take(i), t.quota_id, t.key)
            + t.msgs <= m,
        None => true,
    })
    &&& (match d.max_bytes {
        Some(mb) => bytes_at(bs, t.quota_id, t.key) + tok_bytes_at(ts.take(i), t.quota_id, t.key)
            + t.bytes <= mb,
        None => true,
    })
}

pub open spec fn first_violation_from(
    bs: Seq<Bucket>,
    defs: Seq<QuotaDef>,
    ts: Seq<TokenModel>,
    i: int,
) -> Option<int>
    decreases ts.len() - i,
{
    if i >= ts.len() {
        None
    } else if !plan_fits_at(bs, defs, ts, i) {
        Some(i)
    } else {
        first_violation_from(bs, defs, ts, i + 1)
    }
}

/// The first token of a plan that would exceed its quota, if any. A plan
/// without a violation can be reserved in full against the store.
pub open spec fn first_violation(bs: Seq<Bucket>, defs: Seq<QuotaDef>, ts: Seq<TokenModel>) -> Option<
    int,
> {
    first_violation_from(bs, defs, ts, 0)
}

proof fn lemma_violation_prefix(bs: Seq<Bucket>, defs: Seq<QuotaDef>, ts: Seq<TokenModel>, i: int)
    requires
        0 <= i <= ts.len(),
        forall|j: int| 0 <= j < i ==> plan_fits_at(bs, defs, ts, j),
    ensures
        first_violation_from(bs, defs, ts, 0) == first_violation_from(bs, defs, ts, i),
    decreases i,
{
    if i > 0 {
        lemma_violation_prefix(bs, defs, ts, i - 1);
        assert(plan_fits_at(bs, defs, ts, i - 1));
    }
}

impl QuotaStore {
    /// Reserves capacity for a candidate against every enabled quota whose
    /// predicate it matches, all or nothing.
    ///
    /// On success every bucket of the plan is incremented and the applied
    /// tokens are recorded on the candidate. If any single pair would
    /// exceed its ceiling, the attempt fails naming the offending quota,
    /// every increment already applied is rolled back, and the counts are
    /// exactly as if the candidate had never been attempted.
    pub fn reserve(
        &mut self,
        defs: &Vec<QuotaDef>,
        remote_ip: &String,
        cand: &mut Candidate,
    ) -> (r: Result<(), QuotaExceeded>)
        requires
            old(self).wf(),
            old(cand).tokens@.len() == 0,
        ensures
            final(self).wf(),
            final(cand).sender == old(cand).sender,
            final(cand).rcpts == old(cand).rcpts,
            final(cand).size == old(cand).size,
            final(cand).headers == old(cand).headers,
            ({
                let plan = quota_plan(
                    defs@,
                    remote_ip@,
                    old(cand).sender@,
                    old(cand).rcpts@,
                    old(cand).size,
                );
                match first_violation(old(self).buckets@, defs@, plan) {
                    None => {
                        &&& r is Ok
                        &&& tokens_model(final(cand).tokens@) == plan
                        &&& forall|id: int, key: Seq<char>| #[trigger]
                            msgs_at(final(self).buckets@, id, key) == msgs_at(
                                old(self).buckets@,
                                id,
                                key,
                            ) + tok_msgs_at(plan, id, key)
                        &&& forall|id: int, key: Seq<char>| #[trigger]
                            bytes_at(final(self).buckets@, id, key) == bytes_at(
                                old(self).buckets@,
                                id,
                                key,
                            ) + tok_bytes_at(plan, id, key)
                    },
                    Some(k) => {
                        &&& r matches Err(e) && e.quota == plan[k].quota_id
                        &&& final(cand).tokens@.len() == 0
                        &&& forall|id: int, key: Seq<char>| #[trigger]
                            msgs_at(final(self).buckets@, id, key) == msgs_at(
                                old(self).buckets@,
                                id,
                                key,
                            )
                        &&& forall|id: int, key: Seq<char>| #[trigger]
                            bytes_at(final(self).buckets@, id, key) == bytes_at(
                                old(self).buckets@,
                                id,
                                key,
                            )
                    },
                }
            }),
    {
        let size = cand.size;
        let plan = build_plan(defs, remote_ip, &cand.sender, &cand.rcpts, size);
        let ghost pm = tokens_model(plan@);
        let ghost bs0 = self.buckets@;
        let len = plan.len();
        let mut i: usize = 0;
        proof {
            assert(pm.take(0) =~= Seq::<TokenModel>::empty());
        }
        while i < len
            invariant
                self.wf(),
                len == plan@.len(),
                i <= len,
                pm == tokens_model(plan@),
                pm == quota_plan(
                    defs@,
                    remote_ip@,
                    old(cand).sender@,
                    old(cand).rcpts@,
                    old(cand).size,
                ),
                *cand == *old(cand),
                bs0 == old(self).buckets@,
                old(cand).tokens@.len() == 0,
                size == old(cand).size,
                pm.len() == len,
                forall|j: int| 0 <= j < plan@.len() ==> token_def_ok(#[trigger] plan@[j], defs@, size),
                forall|id: int, key: Seq<char>| #[trigger]
                    msgs_at(self.buckets@, id, key) == msgs_at(bs0, id, key) + tok_msgs_at(
                        pm.take(i as int),
                        id,
                        key,
                    ),
                forall|id: int, key: Seq<char>| #[trigger]
                    bytes_at(self.buckets@, id, key) == bytes_at(bs0, id, key) + tok_bytes_at(
                        pm.take(i as int),
                        id,
                        key,
                    ),
                forall|j: int| 0 <= j < i ==> plan_fits_at(bs0, defs@, pm, j),
            decreases len - i,
        {
            let t = &plan[i];
            proof {
                assert(token_def_ok(plan@[i as int], defs@, size));
                assert(pm[i as int] == token_model(plan@[i as int]));
            }
            let d = &defs[t.quota_id];
            let ghost cur = self.buckets@;
            let ok = self.reserve_at(t, d.max_messages, d.max_bytes);
            if ok {
                proof {
                    assert(pm.take(i as int + 1) =~= pm.take(i as int).push(pm[i as int]));
                    assert forall|id: int, key: Seq<char>| #[trigger]
                        msgs_at(self.buckets@, id, key) == msgs_at(bs0, id, key) + tok_msgs_at(
                            pm.take(i as int + 1),
                            id,
                            key,
                        ) by {
                        lemma_tok_push(pm.take(i as int), pm[i as int], id, key);
                    }
                    assert forall|id: int, key: Seq<char>| #[trigger]
                        bytes_at(self.buckets@, id, key) == bytes_at(bs0, id, key) + tok_bytes_at(
                            pm.take(i as int + 1),
                            id,
                            key,
                        ) by {
                        lemma_tok_push(pm.take(i as int), pm[i as int], id, key);
                    }
                    assert(plan_fits_at(bs0, defs@, pm, i as int));
                }
                i = i + 1;
            } else {
                proof {
                    assert(!plan_fits_at(bs0, defs@, pm, i as int));
                }
                let mut j: usize = 0;
                proof {
                    assert(pm.subrange(0, i as int) =~= pm.take(i as int));
                }
                while j < i
                    invariant
                        self.wf(),
                        j <= i <= len,
                        len == plan@.len(),
                        pm == tokens_model(plan@),
                        pm.len() == len,
                        forall|id: int, key: Seq<char>| #[trigger]
                            msgs_at(self.buckets@, id, key) == msgs_at(bs0, id, key) + tok_msgs_at(
                                pm.subrange(j as int, i as int),
                                id,
                                key,
                            ),
                        forall|id: int, key: Seq<char>| #[trigger]
                            bytes_at(self.buckets@, id, key) == bytes_at(bs0, id, key)
                            + tok_bytes_at(pm.subrange(j as int, i as int), id, key),
                    decreases i - j,
                {
                    let t2 = &plan[j];
                    let ghost seg = pm.subrange(j as int, i as int);
                    let ghost seg2 = pm.subrange(j as int + 1, i as int);
                    proof {
                        assert(seg[0] == pm[j as int]);
                        assert(seg.drop_first() =~= seg2);
                        assert(pm[j as int] == token_model(plan@[j as int]));
                        assert forall|k2: int| 0 <= k2 < seg2.len() implies seg2[k2].msgs >= 0
                            && seg2[k2].bytes >= 0 by {
                            assert(seg2[k2] == pm[j as int + 1 + k2]);
                            assert(pm[j as int + 1 + k2] == token_model(plan@[j as int + 1 + k2]));
                        }
                        lemma_tok_nonneg(seg2, t2.quota_id as int, t2.key@);
                        lemma_counts_nonneg(bs0, t2.quota_id as int, t2.key@);
                        assert(tok_msgs_at(seg, t2.quota_id as int, t2.key@) == pm[j as int].msgs
                            + tok_msgs_at(seg2, t2.quota_id as int, t2.key@));
                    }
                    self.release_at(t2);
                    proof {
                        assert forall|id: int, key: Seq<char>| #[trigger]
                            msgs_at(self.buckets@, id, key) == msgs_at(bs0, id, key) + tok_msgs_at(
                                seg2,
                                id,
                                key,
                            ) by {
                            assert(tok_msgs_at(seg, id, key) == (if pm[j as int].quota_id == id
                                && pm[j as int].key == key {
                                pm[j as int].msgs
                            } else {
                                0int
                            }) + tok_msgs_at(seg2, id, key));
                        }
                        assert forall|id: int, key: Seq<char>| #[trigger]
                            bytes_at(self.buckets@, id, key) == bytes_at(bs0, id, key)
                            + tok_bytes_at(seg2, id, key) by {
                            assert(tok_bytes_at(seg, id, key) == (if pm[j as int].quota_id == id
                                && pm[j as int].key == key {
                                pm[j as int].bytes
                            } else {
                                0int
                            }) + tok_bytes_at(seg2, id, key));
                        }
                    }
                    j = j + 1;
                }
                proof {
                    assert(pm.subrange(i as int, i as int) =~= Seq::<TokenModel>::empty());
                    lemma_violation_prefix(bs0, defs@, pm, i as int);
                    assert(first_violation(bs0, defs@, pm) == Some(i as int));
                    assert forall|id: int, key: Seq<char>| #[trigger]
                        msgs_at(self.buckets@, id, key) == msgs_at(bs0, id, key) by {
                        assert(tok_msgs_at(Seq::<TokenModel>::empty(), id, key) == 0);
                    }
                    assert forall|id: int, key: Seq<char>| #[trigger]
                        bytes_at(self.buckets@, id, key) == bytes_at(bs0, id, key) by {
                        assert(tok_bytes_at(Seq::<TokenModel>::empty(), id, key) == 0);
                    }
                }
                return Err(QuotaExceeded { quota: t.quota_id });
            }
        }
        proof {
            assert(pm.take(len as int) =~= pm);
            lemma_violation_prefix(bs0, defs@, pm, len as int);
        }
        cand.tokens = plan;
        Ok(())
    }

    /// Releases every reservation recorded on the candidate, decrementing
    /// each bucket by exactly the amounts previously reserved, and clears
    /// the candidate's tokens.
    ///
    /// Because the tokens are cleared, releasing the same candidate again
    /// changes nothing: bucket state moves only once.
    pub fn release(&mut self, cand: &mut Candidate)
        requires
            old(self).wf(),
            tokens_covered(old(self).buckets@, tokens_model(old(cand).tokens@)),
        ensures
            final(self).wf(),
            final(cand).sender == old(cand).sender,
            final(cand).rcpts == old(cand).rcpts,
            final(cand).size == old(cand).size,
            final(cand).headers == old(cand).headers,
            final(cand).tokens@.len() == 0,
            forall|id: int, key: Seq<char>| #[trigger]
                msgs_at(final(self).buckets@, id, key) == msgs_at(old(self).buckets@, id, key)
                    - tok_msgs_at(tokens_model(old(cand).tokens@), id, key),
            forall|id: int, key: Seq<char>| #[trigger]
                bytes_at(final(self).buckets@, id, key) == bytes_at(old(self).buckets@, id, key)
                    - tok_bytes_at(tokens_model(old(cand).tokens@), id, key),
            old(cand).tokens@.len() == 0 ==> *final(self) == *old(self),
    {
        let ghost pm = tokens_model(cand.tokens@);
        let ghost bs0 = self.buckets@;
        let len = cand.tokens.len();
        if len == 0 {
            proof {
                assert(pm =~= Seq::<TokenModel>::empty());
                assert forall|id: int, key: Seq<char>| #[trigger]
                    tok_msgs_at(pm, id, key) == 0 && #[trigger] tok_bytes_at(pm, id, key)
                    == 0 by {
                    assert(tok_msgs_at(Seq::<TokenModel>::empty(), id, key) == 0);
                    assert(tok_bytes_at(Seq::<TokenModel>::empty(), id, key) == 0);
                }
            }
            cand.tokens.clear();
            return ;
        }
        let mut j: usize = 0;
        proof {
            assert(pm.skip(0) =~= pm);
        }
        while j < len
            invariant
                self.wf(),
                j <= len,
                len == cand.tokens@.len(),
                *cand == *old(cand),
                pm == tokens_model(cand.tokens@),
                pm.len() == len,
                bs0 == old(self).buckets@,
                forall|id: int, key: Seq<char>| #[trigger]
                    msgs_at(self.buckets@, id, key) == msgs_at(bs0, id, key) - tok_msgs_at(
                        pm,
                        id,
                        key,
                    ) + tok_msgs_at(pm.skip(j as int), id, key),
                forall|id: int, key: Seq<char>| #[trigger]
                    bytes_at(self.buckets@, id, key) == bytes_at(bs0, id, key) - tok_bytes_at(
                        pm,
                        id,
                        key,
                    ) + tok_bytes_at(pm.skip(j as int), id, key),
                forall|id: int, key: Seq<char>| #[trigger]
                    tok_msgs_at(pm.skip(j as int), id, key) <= msgs_at(self.buckets@, id, key),
                forall|id: int, key: Seq<char>| #[trigger]
                    tok_bytes_at(pm.skip(j as int), id, key) <= bytes_at(self.buckets@, id, key),
            decreases len - j,
        {
            let t = &cand.tokens[j];
            let ghost seg = pm.skip(j as int);
            let ghost seg2 = pm.skip(j as int + 1);
            proof {
                assert(seg[0] == pm[j as int]);
                assert(seg.drop_first() =~= seg2);
                assert(pm[j as int] == token_model(cand.tokens@[j as int]));
                assert forall|k2: int| 0 <= k2 < seg2.len() implies seg2[k2].msgs >= 0
                    && seg2[k2].bytes >= 0 by {
                    assert(seg2[k2] == pm[j as int + 1 + k2]);
                    assert(pm[j as int + 1 + k2] == token_model(cand.tokens@[j as int + 1 + k2]));
                }
                lemma_tok_nonneg(seg2, t.quota_id as int, t.key@);
                assert(tok_msgs_at(seg, t.quota_id as int, t.key@) == pm[j as int].msgs
                    + tok_msgs_at(seg2, t.quota_id as int, t.key@));
                assert(tok_bytes_at(seg, t.quota_id as int, t.key@) == pm[j as int].bytes
                    + tok_bytes_at(seg2, t.quota_id as int, t.key@));
            }
            self.release_at(t);
            proof {
                assert forall|id: int, key: Seq<char>| #[trigger]
                    msgs_at(self.buckets@, id, key) == msgs_at(bs0, id, key) - tok_msgs_at(
                        pm,
                        id,
                        key,
                    ) + tok_msgs_at(seg2, id, key) by {
                    assert(tok_msgs_at(seg, id, key) == (if pm[j as int].quota_id == id
                        && pm[j as int].key == key {
                        pm[j as int].msgs
                    } else {
                        0int
                    }) + tok_msgs_at(seg2, id, key));
                }
                assert forall|id: int, key: Seq<char>| #[trigger]
                    bytes_at(self.buckets@, id, key) == bytes_at(bs0, id, key) - tok_bytes_at(
                        pm,
                        id,
                        key,
                    ) + tok_bytes_at(seg2, id, key) by {
                    assert(tok_bytes_at(seg, id, key) == (if pm[j as int].quota_id == id
                        && pm[j as int].key == key {
                        pm[j as int].bytes
                    } else {
                        0int
                    }) + tok_bytes_at(seg2, id, key));
                }
                assert forall|id: int, key: Seq<char>| #[trigger]
                    tok_msgs_at(seg2, id, key) <= msgs_at(self.buckets@, id, key) by {
                    assert(tok_msgs_at(seg, id, key) == (if pm[j as int].quota_id == id
                        && pm[j as int].key == key {
                        pm[j as int].msgs
                    } else {
                        0int
                    }) + tok_msgs_at(seg2, id, key));
                }
                assert forall|id: int, key: Seq<char>| #[trigger]
                    tok_bytes_at(seg2, id, key) <= bytes_at(self.buckets@, id, key) by {
                    assert(tok_bytes_at(seg, id, key) == (if pm[j as int].quota_id == id
                        && pm[j as int].key == key {
                        pm[j as int].bytes
                    } else {
                        0int
                    }) + tok_bytes_at(seg2, id, key));
                }
            }
            j = j + 1;
        }
        proof {
            assert(pm.skip(len as int) =~= Seq::<TokenModel>::empty());
            assert forall|id: int, key: Seq<char>| #[trigger]
                msgs_at(self.buckets@, id, key) == msgs_at(bs0, id, key) - tok_msgs_at(
                    pm,
                    id,
                    key,
                ) by {
                assert(tok_msgs_at(Seq::<TokenModel>::empty(), id, key) == 0);
            }
            assert forall|id: int, key: Seq<char>| #[trigger]
                bytes_at(self.buckets@, id, key) == bytes_at(bs0, id, key) - tok_bytes_at(
                    pm,
                    id,
                    key,
                ) by {
                assert(tok_bytes_at(Seq::<TokenModel>::empty(), id, key) == 0);
            }
        }
        cand.tokens.clear();
    }
}

/// What a successful reservation added, a release may take back: the
/// store that just absorbed a token sequence covers it.
pub proof fn lemma_reservation_covered(bs0: Seq<Bucket>, bs1: Seq<Bucket>, ts: Seq<TokenModel>)
    requires
        forall|id: int, key: Seq<char>| #[trigger]
            msgs_at(bs1, id, key) == msgs_at(bs0, id, key) + tok_msgs_at(ts, id, key),
        forall|id: int, key: Seq<char>| #[trigger]
            bytes_at(bs1, id, key) == bytes_at(bs0, id, key) + tok_bytes_at(ts, id, key),
    ensures
        tokens_covered(bs1, ts),
{
    assert forall|id: int, key: Seq<char>| #[trigger]
        tok_msgs_at(ts, id, key) <= msgs_at(bs1, id, key) by {
        lemma_counts_nonneg(bs0, id, key);
    }
    assert forall|id: int, key: Seq<char>| #[trigger]
        tok_bytes_at(ts, id, key) <= bytes_at(bs1, id, key) by {
        lemma_counts_nonneg(bs0, id, key);
    }
}

/// The ghost image of one operation against a single bucket: a
/// reservation adds its amounts, a release removes them.
pub enum BucketOp {
    Reserve { msgs: nat, bytes: nat },
    Release { msgs: nat, bytes: nat },
}

pub open spec fn op_msgs_delta(op: BucketOp) -> int {
    match op {
        BucketOp::Reserve { msgs, .. } => msgs as int,
        BucketOp::Release { msgs, .. } => -(msgs as int),
    }
}

pub open spec fn op_bytes_delta(op: BucketOp) -> int {
    match op {
        BucketOp::Reserve { bytes, .. } => bytes as int,
        BucketOp::Release { bytes, .. } => -(bytes as int),
    }
}

/// The bucket's counters after a sequence of operations.
pub open spec fn run_msgs(init: int, ops: Seq<BucketOp>) -> int
    decreases ops.len(),
{
    if ops.len() == 0 {
        init
    } else {
        run_msgs(init + op_msgs_delta(ops[0]), ops.drop_first())
    }
}

pub open spec fn run_bytes(init: int, ops: Seq<BucketOp>) -> int
    decreases ops.len(),
{
    if ops.len() == 0 {
        init
    } else {
        run_bytes(init + op_bytes_delta(ops[0]), ops.drop_first())
    }
}

pub open spec fn reserved_msgs(ops: Seq<BucketOp>) -> int
    decreases ops.len(),
{
    if ops.len() == 0 {
        0
    } else {
        (match ops[0] {
            BucketOp::Reserve { msgs, .. } => msgs as int,
            BucketOp::Release { .. } => 0int,
        }) + reserved_msgs(ops.drop_first())
    }
}

pub open spec fn released_msgs(ops: Seq<BucketOp>) -> int
    decreases ops.len(),
{
    if ops.len() == 0 {
        0
    } else {
        (match ops[0] {
            BucketOp::Release { msgs, .. } => msgs as int,
            BucketOp::Reserve { .. } => 0int,
        }) + released_msgs(ops.drop_first())
    }
}

pub open spec fn reserved_bytes(ops: Seq<BucketOp>) -> int
    decreases ops.len(),
{
    if ops.len() == 0 {
        0
    } else {
        (match ops[0] {
            BucketOp::Reserve { bytes, .. } => bytes as int,
            BucketOp::Release { .. } => 0int,
        }) + reserved_bytes(ops.drop_first())
    }
}

pub open spec fn released_bytes(ops: Seq<BucketOp>) -> int
    decreases ops.len(),
{
    if ops.len() == 0 {
        0
    } else {
        (match ops[0] {
            BucketOp::Release { bytes, .. } => bytes as int,
            BucketOp::Reserve { .. } => 0int,
        }) + released_bytes(ops.drop_first())
    }
}

/// Every release in the sequence is backed by what the bucket holds when
/// it happens — the precondition [`QuotaStore::release`] imposes on each
/// call.
pub open spec fn ops_backed(init_m: int, init_b: int, ops: Seq<BucketOp>) -> bool
    decreases ops.len(),
{
    if ops.len() == 0 {
        true
    } else {
        (match ops[0] {
            BucketOp::Release { msgs, bytes } => msgs as int <= init_m && bytes as int <= init_b,
            BucketOp::Reserve { .. } => true,
        }) && ops_backed(init_m + op_msgs_delta(ops[0]), init_b + op_bytes_delta(ops[0]), ops.drop_first())
    }
}

/// Quota additivity: across any sequence of reserve and release
/// operations against one bucket, the counters end up equal to what they
/// started from plus the sum of the reservations minus the sum of the
/// releases, and they never go negative.
pub proof fn lemma_quota_additivity(init_m: int, init_b: int, ops: Seq<BucketOp>)
    requires
        init_m >= 0,
        init_b >= 0,
        ops_backed(init_m, init_b, ops),
    ensures
        run_msgs(init_m, ops) == init_m + reserved_msgs(ops) - released_msgs(ops),
        run_bytes(init_b, ops) == init_b + reserved_bytes(ops) - released_bytes(ops),
        run_msgs(init_m, ops) >= 0,
        run_bytes(init_b, ops) >= 0,
    decreases ops.len(),
{
    if ops.len() > 0 {
        lemma_quota_additivity(
            init_m + op_msgs_delta(ops[0]),
            init_b + op_bytes_delta(ops[0]),
            ops.drop_first(),
        );
    }
}

/// Every amount a token sequence would release is backed by the store's
/// counts: nothing can be released that was not reserved.
pub open spec fn tokens_covered(bs: Seq<Bucket>, ts: Seq<TokenModel>) -> bool {
    &&& forall|id: int, key: Seq<char>| #[trigger] tok_msgs_at(ts, id, key) <= msgs_at(bs, id, key)
    &&& forall|id: int, key: Seq<char>| #[trigger] tok_bytes_at(ts, id, key) <= bytes_at(
        bs,
        id,
        key,
    )
}

} // verus!
