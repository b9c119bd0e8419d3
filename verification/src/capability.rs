//! Decode of the capability names the protocol's ENABLE command carries:
//! a fixed table of names matched case-insensitively.

use vstd::prelude::*;
use vstd::slice::slice_to_vec;
use vstd::string::StringSliceAdditionalSpecFns;

verus! {

/// A capability the ENABLE command can name.
#[derive(Clone, Copy, PartialEq, Eq, Structural, Debug)]
pub enum Capability {
    IMAP4rev2,
    StartTLS,
    LoginDisabled,
    CondStore,
    QResync,
    Utf8Accept,
}

/// ASCII case folding of one byte.
pub open spec fn lower_byte(b: u8) -> u8 {
    if 65 <= b && b <= 90 {
        (b + 32) as u8
    } else {
        b
    }
}

pub open spec fn folded(s: Seq<u8>) -> Seq<u8> {
    s.map_values(|b: u8| lower_byte(b))
}

/// Case-insensitive equality of a byte sequence with a name's bytes.
pub open spec fn matches_ci(s: Seq<u8>, name: &str) -> bool {
    folded(s) == folded(name.spec_bytes())
}

/// The capability a byte sequence names, if any.
pub open spec fn capability_of(s: Seq<u8>) -> Option<Capability> {
    if matches_ci(s, "IMAP4rev2") {
        Some(Capability::IMAP4rev2)
    } else if matches_ci(s, "STARTTLS") {
        Some(Capability::StartTLS)
    } else if matches_ci(s, "LOGINDISABLED") {
        Some(Capability::LoginDisabled)
    } else if matches_ci(s, "CONDSTORE") {
        Some(Capability::CondStore)
    } else if matches_ci(s, "QRESYNC") {
        Some(Capability::QResync)
    } else if matches_ci(s, "UTF8=ACCEPT") {
        Some(Capability::Utf8Accept)
    } else {
        None
    }
}

/// An unsupported capability name, carried back verbatim.
#[derive(Debug)]
pub struct CapabilityError {
    pub value: Vec<u8>,
}

fn lower_exec(b: u8) -> (r: u8)
    ensures
        r == lower_byte(b),
{
    if b >= 65 && b <= 90 {
        b + 32
    } else {
        b
    }
}

/// Case-insensitive comparison of two byte slices.
fn eq_ignore_case(a: &[u8], b: &[u8]) -> (r: bool)
    ensures
        r == (folded(a@) == folded(b@)),
{
    let n = a.len();
    if n != b.len() {
        proof {
            assert(folded(a@).len() != folded(b@).len());
        }
        return false;
    }
    let mut i: usize = 0;
    while i < n
        invariant
            n == a@.len(),
            n == b@.len(),
            i <= n,
            forall|j: int| 0 <= j < i ==> folded(a@)[j] == folded(b@)[j],
        decreases n - i,
    {
        let ca = lower_exec(*vstd::slice::slice_index_get(a, i));
        let cb = lower_exec(*vstd::slice::slice_index_get(b, i));
        if ca != cb {
            proof {
                assert(folded(a@)[i as int] != folded(b@)[i as int]);
            }
            return false;
        }
        i = i + 1;
    }
    proof {
        assert(folded(a@) =~= folded(b@));
    }
    true
}

impl Capability {
    /// Decodes a capability name, case-insensitively; an unknown name is
    /// returned in the error unchanged.
    pub fn parse(value: &[u8]) -> (r: Result<Capability, CapabilityError>)
        ensures
            match capability_of(value@) {
                Some(c) => r == Ok::<Capability, CapabilityError>(c),
                None => r matches Err(e) && e.value@ == value@,
            },
    {
        if eq_ignore_case(value, "IMAP4rev2".as_bytes()) {
            Ok(Capability::IMAP4rev2)
        } else if eq_ignore_case(value, "STARTTLS".as_bytes()) {
            Ok(Capability::StartTLS)
        } else if eq_ignore_case(value, "LOGINDISABLED".as_bytes()) {
            Ok(Capability::LoginDisabled)
        } else if eq_ignore_case(value, "CONDSTORE".as_bytes()) {
            Ok(Capability::CondStore)
        } else if eq_ignore_case(value, "QRESYNC".as_bytes()) {
            Ok(Capability::QResync)
        } else if eq_ignore_case(value, "UTF8=ACCEPT".as_bytes()) {
            Ok(Capability::Utf8Accept)
        } else {
            Err(CapabilityError { value: slice_to_vec(value) })
        }
    }
}

/// A decoded ENABLE request: its tag and the raw argument tokens.
pub struct Request {
    pub tag: String,
    pub tokens: Vec<Vec<u8>>,
}

/// The arguments of a well-formed ENABLE request.
#[derive(Debug)]
pub struct Arguments {
    pub tag: String,
    pub capabilities: Vec<Capability>,
}

/// Why an ENABLE request was refused.
#[derive(Debug)]
pub enum RequestError {
    /// The command carried no arguments.
    MissingArguments { tag: String },
    /// An argument named no supported capability; it is carried back
    /// verbatim.
    UnsupportedCapability { tag: String, value: Vec<u8> },
}

/// The first token that names no capability, if any.
pub open spec fn first_unsupported_from(toks: Seq<Seq<u8>>, i: int) -> Option<int>
    decreases toks.len() - i,
{
    if i >= toks.len() {
        None
    } else if capability_of(toks[i]) is None {
        Some(i)
    } else {
        first_unsupported_from(toks, i + 1)
    }
}

proof fn lemma_unsupported_prefix(toks: Seq<Seq<u8>>, i: int)
    requires
        0 <= i <= toks.len(),
        forall|j: int| 0 <= j < i ==> capability_of(#[trigger] toks[j]) is Some,
    ensures
        first_unsupported_from(toks, 0) == first_unsupported_from(toks, i),
    decreases i,
{
    if i > 0 {
        lemma_unsupported_prefix(toks, i - 1);
    }
}

impl Request {
    /// Decodes the request's tokens into capabilities: all of them on
    /// success, the first unsupported one as the error, and a missing-
    /// arguments error when there are no tokens at all.
    pub fn parse_enable(self) -> (r: Result<Arguments, RequestError>)
        ensures
            ({
                let toks = self.tokens.deep_view();
                if toks.len() == 0 {
                    r matches Err(RequestError::MissingArguments { tag }) && tag@ == self.tag@
                } else {
                    match first_unsupported_from(toks, 0) {
                        Some(k) => r matches Err(
                            RequestError::UnsupportedCapability { tag, value },
                        ) && tag@ == self.tag@ && value@ == toks[k],
                        None => r matches Ok(a) && a.tag@ == self.tag@ && a.capabilities@.len()
                            == toks.len() && forall|i: int|
                            0 <= i < toks.len() ==> Some(#[trigger] a.capabilities@[i])
                                == capability_of(toks[i]),
                    }
                }
            }),
    {
        let ghost toks = self.tokens.deep_view();
        let len = self.tokens.len();
        if len == 0 {
            return Err(RequestError::MissingArguments { tag: self.tag });
        }
        let mut capabilities: Vec<Capability> = Vec::with_capacity(len);
        let mut i: usize = 0;
        while i < len
            invariant
                len == self.tokens@.len(),
                len > 0,
                toks == self.tokens.deep_view(),
                toks.len() == len,
                i <= len,
                capabilities@.len() == i,
                forall|j: int|
                    0 <= j < i ==> Some(#[trigger] capabilities@[j]) == capability_of(toks[j]),
            decreases len - i,
        {
            proof {
                assert(toks[i as int] == self.tokens@[i as int]@);
            }
            let tok = &self.tokens[i];
            match Capability::parse(tok.as_slice()) {
                Ok(c) => {
                    capabilities.push(c);
                },
                Err(e) => {
                    proof {
                        assert forall|j: int| 0 <= j < i implies capability_of(
                            #[trigger] toks[j],
                        ) is Some by {
                            assert(Some(capabilities@[j]) == capability_of(toks[j]));
                        }
                        lemma_unsupported_prefix(toks, i as int);
                    }
                    return Err(
                        RequestError::UnsupportedCapability { tag: self.tag, value: e.value },
                    );
                },
            }
            i = i + 1;
        }
        proof {
            assert forall|j: int| 0 <= j < len implies capability_of(#[trigger] toks[j]) is Some by {
                assert(Some(capabilities@[j]) == capability_of(toks[j]));
            }
            lemma_unsupported_prefix(toks, len as int);
        }
        Ok(Arguments { tag: self.tag, capabilities })
    }
}

impl PartialEq for Arguments {
    fn eq(&self, other: &Self) -> (r: bool) {
        if !self.tag.eq(&other.tag) {
            proof {
                assert(self.tag@ != other.tag@);
            }
            return false;
        }
        let n = self.capabilities.len();
        if n != other.capabilities.len() {
            return false;
        }
        let mut i: usize = 0;
        while i < n
            invariant
                n == self.capabilities@.len(),
                n == other.capabilities@.len(),
                i <= n,
                forall|j: int| 0 <= j < i ==> self.capabilities@[j] == other.capabilities@[j],
            decreases n - i,
        {
            if self.capabilities[i] != other.capabilities[i] {
                proof {
                    assert(self.capabilities@[i as int] != other.capabilities@[i as int]);
                }
                return false;
            }
            i = i + 1;
        }
        proof {
            assert(self.capabilities@ =~= other.capabilities@);
        }
        true
    }
}

impl vstd::std_specs::cmp::PartialEqSpecImpl for Arguments {
    open spec fn obeys_eq_spec() -> bool {
        true
    }

    open spec fn eq_spec(&self, other: &Arguments) -> bool {
        self.tag@ == other.tag@ && self.capabilities@ == other.capabilities@
    }
}

} // verus!
