//! The shared vocabulary of the protocol: identifiers, the messages that
//! flow between node, party and dealer, and the provider of fresh
//! circuit-node identifiers.

use vstd::prelude::*;
use vstd::hash_map::StringHashMap;
use crate::shares::{BeaverShare, Commitment, CommitmentProof, Elem, Share, Shares};
use crate::field::Fp;
use crate::strutil::{dec_digits, push_char, push_str, u64_to_string};

pub mod arithmetics;
pub mod dealer;
pub mod expression;
pub mod network;
pub mod node;
pub mod party;

verus! {

/// The identifier of a party (and of its node task).
pub type NodeId = u64;

/// The name of an input variable.
pub type VarId = String;

/// The stable identifier of a node in the circuit.
pub type CirId = String;

/// Derives a dependent identifier, `id`-`name`.
pub fn sub_id(id: &CirId, name: &CirId) -> (r: CirId)
    ensures
        r@ == id@ + seq!['-'] + name@,
{
    let mut s = String::new();
    push_str(&mut s, id.as_str());
    push_char(&mut s, '-');
    push_str(&mut s, name.as_str());
    proof {
        assert(s@ =~= id@ + seq!['-'] + name@);
    }
    s
}

/// What the dealer sends a party.
#[derive(Debug)]
pub enum DealerEvents {
    /// r and [r] for sharing the variable of the receiving node, which owns
    /// it.
    NodeSelfVariable(CirId, Elem, Share),
    /// The share [r] of the mask of another node's variable.
    NodeVariableShared(CirId, Share),
    /// The receiving party's Beaver share for one multiplication node.
    BeaverSharesFor(CirId, BeaverShare),
    /// The receiving party's share of the global MAC key.
    Alpha(Elem),
}

/// What a party asks of the dealer.
#[derive(Debug)]
pub enum DealerCommands {
    /// The node wants to secretly share its variable.
    NodeOpenSelfInput(CirId),
    /// The node needs a Beaver triple for a circuit node.
    BeaverFor(CirId),
    /// The node needs its share of the MAC key.
    NeedAlpha,
}

/// What a node asks its party to do.
#[derive(Debug)]
pub enum NodeCommands {
    /// Open the node's share for a circuit node.
    OpenShare(Share, CirId),
    /// Open the node's (x - r) for its own variable.
    OpenSelfShare(Elem, CirId),
    /// Ask the dealer to share the node's variable.
    OpenSelfInput(CirId),
    /// Ask the dealer for a Beaver triple.
    NeedBeaver(CirId),
    /// Ask the dealer for the MAC key share.
    NeedAlpha,
    /// Broadcast a commitment for a circuit node.
    CommitmentFor(CirId, Commitment),
    /// Broadcast an opened commitment for a circuit node.
    ProofFor(CirId, CommitmentProof),
    /// Broadcast that the audit accepted a circuit node.
    ProofVerified(CirId),
    /// Broadcast that the audit rejected a circuit node.
    ProofInvalid(CirId),
}

/// What a party surfaces to its node.
#[derive(Debug)]
pub enum NodeEvents {
    /// All parties' shares for a circuit node are in.
    CirReady(CirId, Shares),
    /// The two parts (r, [r]) for sharing the node's own variable are ready.
    SelfVariableReady(CirId, Elem, Share),
    /// The broadcast (x - r) for a variable is ready.
    NodeVariableReady(CirId, Elem),
    /// The dealer's share [r] for a variable is ready.
    NodeVariableShareReady(CirId, Share),
    /// The Beaver share for a multiplication node is ready.
    BeaverFor(CirId, BeaverShare),
    /// All parties' commitments for a circuit node are in.
    CommitmentsFor(CirId, Vec<(NodeId, Commitment)>),
    /// All parties' opened commitments for a circuit node are in.
    ProofsFor(CirId, Vec<(NodeId, CommitmentProof)>),
    /// Every party accepted the audit of a circuit node.
    ProofValid(CirId),
    /// Some party rejected the audit of a circuit node.
    ProofInvalid(CirId),
}

/// The map that a list of (name, owner) pairs builds, later pairs winning.
pub open spec fn owner_map_of(pairs: Seq<(String, NodeId)>) -> Map<Seq<char>, NodeId>
    decreases pairs.len(),
{
    if pairs.len() == 0 {
        Map::empty()
    } else {
        owner_map_of(pairs.drop_last()).insert(pairs.last().0@, pairs.last().1)
    }
}

/// Builds the variable-ownership map from (name, owner) pairs.
pub fn owner_map(pairs: Vec<(String, NodeId)>) -> (r: StringHashMap<NodeId>)
    ensures
        r@ == owner_map_of(pairs@),
{
    let mut m: StringHashMap<NodeId> = StringHashMap::new();
    let n = pairs.len();
    let mut i: usize = 0;
    while i < n
        invariant
            i <= n,
            n == pairs@.len(),
            m@ == owner_map_of(pairs@.take(i as int)),
        decreases n - i,
    {
        let (name, owner) = (pairs[i].0.clone(), pairs[i].1);
        m.insert(name, owner);
        proof {
            assert(pairs@.take(i + 1).drop_last() =~= pairs@.take(i as int));
        }
        i = i + 1;
    }
    proof {
        assert(pairs@.take(n as int) =~= pairs@);
    }
    m
}

/// The map that a list of (name, element) pairs builds, later pairs
/// winning.
pub open spec fn elem_map_of(pairs: Seq<(String, Elem)>) -> Map<Seq<char>, Elem>
    decreases pairs.len(),
{
    if pairs.len() == 0 {
        Map::empty()
    } else {
        elem_map_of(pairs.drop_last()).insert(pairs.last().0@, pairs.last().1)
    }
}

/// Builds a variable-value map from (name, element) pairs.
pub fn elem_map(pairs: Vec<(String, Elem)>) -> (r: StringHashMap<Elem>)
    ensures
        r@ == elem_map_of(pairs@),
        (forall|i: int| 0 <= i < pairs@.len() ==> (#[trigger] pairs@[i]).1.wf()) ==> forall|
            k: Seq<char>,
        | r@.contains_key(k) ==> (#[trigger] r@[k]).wf(),
    {
    let mut m: StringHashMap<Elem> = StringHashMap::new();
    let n = pairs.len();
    let mut i: usize = 0;
    while i < n
        invariant
            i <= n,
            n == pairs@.len(),
            m@ == elem_map_of(pairs@.take(i as int)),
        decreases n - i,
    {
        let (name, v) = (pairs[i].0.clone(), pairs[i].1);
        m.insert(name, v);
        proof {
            assert(pairs@.take(i + 1).drop_last() =~= pairs@.take(i as int));
        }
        i = i + 1;
    }
    proof {
        assert(pairs@.take(n as int) =~= pairs@);
        lemma_elem_map_wf(pairs@);
    }
    m
}

/// Every value of a map built from well-formed pairs is well-formed.
proof fn lemma_elem_map_wf(pairs: Seq<(String, Elem)>)
    ensures
        (forall|i: int| 0 <= i < pairs.len() ==> (#[trigger] pairs[i]).1.wf()) ==> forall|
            k: Seq<char>,
        | elem_map_of(pairs).contains_key(k) ==> (#[trigger] elem_map_of(pairs)[k]).wf(),
    decreases pairs.len(),
{
    if pairs.len() > 0 {
        lemma_elem_map_wf(pairs.drop_last());
        if forall|i: int| 0 <= i < pairs.len() ==> (#[trigger] pairs[i]).1.wf() {
            assert forall|i: int|
                0 <= i < pairs.drop_last().len() implies (#[trigger] pairs.drop_last()[i]).1.wf()
                by {
                assert(pairs.drop_last()[i] == pairs[i]);
            }
            assert forall|k: Seq<char>|
                elem_map_of(pairs).contains_key(k) implies (#[trigger] elem_map_of(
                pairs,
            )[k]).wf() by {
                if k == pairs.last().0@ {
                    assert(pairs[pairs.len() - 1].1.wf());
                } else {
                    assert(elem_map_of(pairs)[k] == elem_map_of(pairs.drop_last())[k]);
                }
            }
        }
    }
}

/// The MAC key share, delivered once at startup.
#[derive(Debug)]
pub struct Alpha(pub Elem);

/// Hands out fresh circuit-node identifiers from a monotonic counter, and
/// knows which node owns each variable name.
pub struct Provider {
    /// The last identifier handed out.
    pub id: u64,
    /// Variable name to owning node.
    pub var_to_node: StringHashMap<NodeId>,
}

impl Provider {
    /// A provider starting from the given counter, over the given ownership
    /// map.
    pub fn new(id: u64, var_to_node: StringHashMap<NodeId>) -> (r: Provider)
        ensures
            r.id == id,
            r.var_to_node@ == var_to_node@,
    {
        Provider { id, var_to_node }
    }

    /// The next fresh identifier: the counter advances, then is rendered in
    /// decimal.
    pub fn next(&mut self) -> (r: CirId)
        requires
            old(self).id < u64::MAX,
        ensures
            final(self).id == old(self).id + 1,
            final(self).var_to_node@ == old(self).var_to_node@,
            r@ == dec_digits((old(self).id + 1) as nat),
    {
        self.id = self.id + 1;
        u64_to_string(self.id)
    }

    /// The node that owns a variable name, if any.
    pub fn var_to_node(&self, name: String) -> (r: Option<NodeId>)
        ensures
            match r {
                Some(n) => self.var_to_node@.contains_key(name@) && n == self.var_to_node@[name@],
                None => !self.var_to_node@.contains_key(name@),
            },
    {
        match self.var_to_node.get(name.as_str()) {
            Some(n) => Some(*n),
            None => None,
        }
    }
}

} // verus!
