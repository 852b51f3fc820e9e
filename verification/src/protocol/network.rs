//! The messages that travel between peers. The transport itself is left to
//! the caller; the engine only fixes the message vocabulary.

use vstd::prelude::*;
use crate::protocol::{CirId, NodeId};
use crate::field::Fp;
use crate::shares::{Commitment, CommitmentProof, Elem, Share};

verus! {

/// A peer-to-peer wire message.
#[derive(Debug)]
pub enum Msg {
    /// The sender opens its share for a circuit node.
    OpenShare(CirId, Share),
    /// The variable owner broadcasts x - r for its input.
    OpenVariable(CirId, Elem),
    /// The sender commits to its audit value for a circuit node.
    Commit(CirId, Commitment),
    /// The sender opens its audit commitment for a circuit node.
    Proof(CirId, CommitmentProof),
    /// The sender accepted the audit of a circuit node.
    ProofValid(CirId),
    /// The sender rejected the audit of a circuit node.
    ProofInvalid(CirId),
}

/// A message on the wire, tagged with the sending party.
pub type NetworkMessage = (NodeId, Msg);

/// The value content of a message: every payload by value, strings and
/// salts by their character and byte sequences.
pub open spec fn msg_view(m: Msg) -> (int, Seq<char>, Share, Elem, Seq<u8>, (Seq<u8>, Elem, Seq<u8>)) {
    match m {
        Msg::OpenShare(c, s) => (0, c@, s, Fp { l0: 0, l1: 0, l2: 0, l3: 0 }, Seq::empty(), (Seq::empty(), Fp { l0: 0, l1: 0, l2: 0, l3: 0 }, Seq::empty())),
        Msg::OpenVariable(c, e) => (1, c@, (Fp { l0: 0, l1: 0, l2: 0, l3: 0 }, Fp { l0: 0, l1: 0, l2: 0, l3: 0 }), e, Seq::empty(), (Seq::empty(), Fp { l0: 0, l1: 0, l2: 0, l3: 0 }, Seq::empty())),
        Msg::Commit(c, h) => (2, c@, (Fp { l0: 0, l1: 0, l2: 0, l3: 0 }, Fp { l0: 0, l1: 0, l2: 0, l3: 0 }), Fp { l0: 0, l1: 0, l2: 0, l3: 0 }, h@, (Seq::empty(), Fp { l0: 0, l1: 0, l2: 0, l3: 0 }, Seq::empty())),
        Msg::Proof(c, p) => (3, c@, (Fp { l0: 0, l1: 0, l2: 0, l3: 0 }, Fp { l0: 0, l1: 0, l2: 0, l3: 0 }), Fp { l0: 0, l1: 0, l2: 0, l3: 0 }, Seq::empty(), (p.0@, p.1, p.2@)),
        Msg::ProofValid(c) => (4, c@, (Fp { l0: 0, l1: 0, l2: 0, l3: 0 }, Fp { l0: 0, l1: 0, l2: 0, l3: 0 }), Fp { l0: 0, l1: 0, l2: 0, l3: 0 }, Seq::empty(), (Seq::empty(), Fp { l0: 0, l1: 0, l2: 0, l3: 0 }, Seq::empty())),
        Msg::ProofInvalid(c) => (5, c@, (Fp { l0: 0, l1: 0, l2: 0, l3: 0 }, Fp { l0: 0, l1: 0, l2: 0, l3: 0 }), Fp { l0: 0, l1: 0, l2: 0, l3: 0 }, Seq::empty(), (Seq::empty(), Fp { l0: 0, l1: 0, l2: 0, l3: 0 }, Seq::empty())),
    }
}

/// Copies a message, for delivering one broadcast to several peers.
pub fn clone_msg(m: &Msg) -> (r: Msg)
    ensures
        msg_view(r) == msg_view(*m),
{
    match m {
        Msg::OpenShare(c, s) => Msg::OpenShare(c.clone(), *s),
        Msg::OpenVariable(c, e) => Msg::OpenVariable(c.clone(), *e),
        Msg::Commit(c, h) => Msg::Commit(c.clone(), *h),
        Msg::Proof(c, p) => {
            let mut salt: Vec<u8> = Vec::new();
            let n = p.2.len();
            let mut i: usize = 0;
            while i < n
                invariant
                    i <= n,
                    n == p.2@.len(),
                    salt@ == p.2@.take(i as int),
                decreases n - i,
            {
                salt.push(p.2[i]);
                proof {
                    assert(p.2@.take(i + 1) =~= p.2@.take(i as int).push(p.2@[i as int]));
                }
                i = i + 1;
            }
            proof {
                assert(p.2@.take(n as int) =~= p.2@);
            }
            Msg::Proof(c.clone(), (p.0, p.1, salt))
        },
        Msg::ProofValid(c) => Msg::ProofValid(c.clone()),
        Msg::ProofInvalid(c) => Msg::ProofInvalid(c.clone()),
    }
}

} // verus!
