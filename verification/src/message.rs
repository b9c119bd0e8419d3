//! Message data: header lines, envelope recipients, and the hop-count
//! inspection used for loop detection.

use vstd::prelude::*;

verus! {

/// One header line of a message, split into its name and value.
pub struct Header {
    pub name: String,
    pub value: String,
}

/// One envelope recipient: the full address and the domain part the
/// session decoded from it.
pub struct Recipient {
    pub address: String,
    pub domain: String,
}

/// How many headers of `hs` carry exactly the name `hop`.
pub open spec fn hop_count(hs: Seq<Header>, hop: Seq<char>) -> int
    decreases hs.len(),
{
    if hs.len() == 0 {
        0
    } else {
        (if hs[0].name@ == hop {
            1int
        } else {
            0int
        }) + hop_count(hs.drop_first(), hop)
    }
}

pub proof fn lemma_hop_count_bounds(hs: Seq<Header>, hop: Seq<char>)
    ensures
        0 <= hop_count(hs, hop) <= hs.len(),
    decreases hs.len(),
{
    if hs.len() > 0 {
        lemma_hop_count_bounds(hs.drop_first(), hop);
    }
}

/// Counts the headers named `hop` (the designated hop-tracking header).
pub fn count_hop_headers(headers: &Vec<Header>, hop: &String) -> (n: usize)
    ensures
        n == hop_count(headers@, hop@),
{
    let len = headers.len();
    let mut n: usize = 0;
    let mut i: usize = 0;
    proof {
        assert(headers@.skip(0) =~= headers@);
    }
    while i < len
        invariant
            len == headers@.len(),
            i <= len,
            n <= i,
            hop_count(headers@, hop@) == n + hop_count(headers@.skip(i as int), hop@),
        decreases len - i,
    {
        proof {
            assert(headers@.skip(i as int)[0] == headers@[i as int]);
            assert(headers@.skip(i as int).drop_first() =~= headers@.skip(i as int + 1));
        }
        if headers[i].name.eq(hop) {
            n = n + 1;
        }
        i = i + 1;
    }
    proof {
        assert(headers@.skip(len as int) =~= Seq::<Header>::empty());
    }
    n
}

/// The loop detector: a message already carrying at least `limit` hop
/// headers is suspected of looping and must be rejected with a temporary
/// failure (the condition may be transient).
pub fn loop_suspected(headers: &Vec<Header>, hop: &String, limit: usize) -> (r: bool)
    ensures
        r == (hop_count(headers@, hop@) >= limit),
{
    let n = count_hop_headers(headers, hop);
    n >= limit
}

} // verus!
