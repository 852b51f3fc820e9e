//! The per-party message router: it aggregates inbound network messages
//! per circuit node, detects duplicates, surfaces completed aggregates to
//! the node as events, and translates node commands into network or dealer
//! actions.
//!
//! The transport itself is left to the caller: every handler is a pure
//! state transition that returns what should be sent on.

use vstd::prelude::*;
use vstd::hash_map::StringHashMap;
use crate::protocol::network::Msg;
use crate::protocol::{Alpha, CirId, DealerCommands, DealerEvents, NodeCommands, NodeEvents, NodeId};
use crate::shares::{Commitment, CommitmentProof, Share, Shares};
use crate::field::Fp;

verus! {

/// The sender list recorded under a key, empty when the key is absent.
pub open spec fn senders_at(m: Map<Seq<char>, Vec<NodeId>>, key: Seq<char>) -> Seq<NodeId> {
    if m.contains_key(key) {
        m[key]@
    } else {
        Seq::empty()
    }
}

/// The aggregate recorded under a key, empty when the key is absent.
pub open spec fn agg_at<T>(m: Map<Seq<char>, Vec<T>>, key: Seq<char>) -> Seq<T> {
    if m.contains_key(key) {
        m[key]@
    } else {
        Seq::empty()
    }
}

/// The status count recorded under a key, zero when the key is absent.
pub open spec fn count_at(m: Map<Seq<char>, u8>, key: Seq<char>) -> nat {
    if m.contains_key(key) {
        m[key] as nat
    } else {
        0
    }
}

/// The value content of an opened commitment: hash bytes, element, salt
/// bytes.
pub open spec fn proof_view(p: CommitmentProof) -> (Seq<u8>, Fp, Seq<u8>) {
    (p.0@, p.1, p.2@)
}

/// The value content of a tagged opened-commitment aggregate.
pub open spec fn proofs_view(s: Seq<(NodeId, CommitmentProof)>) -> Seq<
    (NodeId, (Seq<u8>, Fp, Seq<u8>)),
> {
    s.map_values(|p: (NodeId, CommitmentProof)| (p.0, proof_view(p.1)))
}

/// What a party does with one node command: broadcast a message to every
/// peer, or send a tagged command to the dealer.
pub enum PartyAction {
    /// Broadcast the message to every peer.
    Broadcast(Msg),
    /// Send the command to the dealer, tagged with this party's id.
    ToDealer(NodeId, DealerCommands),
}

/// What a party does with one dealer event: surface a node event, or
/// deliver the MAC key share on its dedicated channel.
pub enum DealerDispatch {
    /// Surface this event to the node.
    Event(NodeEvents),
    /// Deliver the MAC key share.
    Key(Alpha),
}

/// The router state of one party.
pub struct Party {
    /// This party's id.
    pub id: NodeId,
    /// How many parties take part.
    pub n_parties: u8,
    /// Shares collected per circuit node.
    pub shares_per: StringHashMap<Shares>,
    /// Which senders already opened a share, per circuit node.
    pub opened_shares: StringHashMap<Vec<NodeId>>,
    /// Commitments collected per circuit node.
    pub commitments_per: StringHashMap<Vec<(NodeId, Commitment)>>,
    /// Which senders already committed, per circuit node.
    pub node_commitments: StringHashMap<Vec<NodeId>>,
    /// Opened commitments collected per circuit node.
    pub proofs_per: StringHashMap<Vec<(NodeId, CommitmentProof)>>,
    /// Which senders already opened their commitment, per circuit node.
    pub node_proofs: StringHashMap<Vec<NodeId>>,
    /// How many parties accepted the audit, per circuit node.
    pub status_per: StringHashMap<u8>,
    /// Which senders already reported a status, per circuit node.
    pub node_statuses: StringHashMap<Vec<NodeId>>,
}

/// Whether a vector of node ids holds the given id.
fn ids_contain(v: &Vec<NodeId>, x: NodeId) -> (r: bool)
    ensures
        r == v@.contains(x),
{
    let n = v.len();
    let mut i: usize = 0;
    while i < n
        invariant
            i <= n,
            n == v@.len(),
            forall|j: int| 0 <= j < i ==> v@[j] != x,
        decreases n - i,
    {
        if v[i] == x {
            return true;
        }
        i = i + 1;
    }
    proof {
        assert(!v@.contains(x));
    }
    false
}

impl Party {
    /// A fresh router for the given party among n.
    pub fn new(id: NodeId, n_parties: u8) -> (r: Party)
        ensures
            r.id == id,
            r.n_parties == n_parties,
            r.shares_per@ == Map::<Seq<char>, Shares>::empty(),
            r.opened_shares@ == Map::<Seq<char>, Vec<NodeId>>::empty(),
            r.commitments_per@ == Map::<Seq<char>, Vec<(NodeId, Commitment)>>::empty(),
            r.node_commitments@ == Map::<Seq<char>, Vec<NodeId>>::empty(),
            r.proofs_per@ == Map::<Seq<char>, Vec<(NodeId, CommitmentProof)>>::empty(),
            r.node_proofs@ == Map::<Seq<char>, Vec<NodeId>>::empty(),
            r.status_per@ == Map::<Seq<char>, u8>::empty(),
            r.node_statuses@ == Map::<Seq<char>, Vec<NodeId>>::empty(),
    {
        Party {
            id,
            n_parties,
            shares_per: StringHashMap::new(),
            opened_shares: StringHashMap::new(),
            commitments_per: StringHashMap::new(),
            node_commitments: StringHashMap::new(),
            proofs_per: StringHashMap::new(),
            node_proofs: StringHashMap::new(),
            status_per: StringHashMap::new(),
            node_statuses: StringHashMap::new(),
        }
    }

    /// The shares collected so far for a circuit node.
    pub open spec fn spec_shares_at(self, key: Seq<char>) -> Seq<Share> {
        agg_at(self.shares_per@, key)
    }

    /// The commitments collected so far for a circuit node.
    pub open spec fn spec_commitments_at(self, key: Seq<char>) -> Seq<(NodeId, Commitment)> {
        agg_at(self.commitments_per@, key)
    }

    /// The opened commitments collected so far for a circuit node.
    pub open spec fn spec_proofs_at(self, key: Seq<char>) -> Seq<(NodeId, CommitmentProof)> {
        agg_at(self.proofs_per@, key)
    }

    /// Records a share from one sender for one circuit node, dropping a
    /// repeat from the same sender; true exactly when this share completes
    /// the aggregate.
    fn collect_share(&mut self, from: NodeId, share: Share, cid: CirId) -> (r: bool)
        ensures
            collect_outcome(
                senders_at(old(self).opened_shares@, cid@),
                senders_at(final(self).opened_shares@, cid@),
                agg_at(old(self).shares_per@, cid@),
                agg_at(final(self).shares_per@, cid@),
                from,
                share,
                old(self).n_parties as nat,
                r,
            ),
            unchanged_but(*old(self), *final(self), cid@, KIND_SHARE),
            senders_at(old(self).opened_shares@, cid@).contains(from)
                ==> final(self).shares_per@ == old(self).shares_per@
                && final(self).opened_shares@ == old(self).opened_shares@,
    {
        let dup = match self.opened_shares.get(cid.as_str()) {
            Some(v) => ids_contain(v, from),
            None => false,
        };
        if dup {
            return false;
        }
        let mut seen = match self.opened_shares.get(cid.as_str()) {
            Some(v) => clone_ids(v),
            None => Vec::new(),
        };
        seen.push(from);
        self.opened_shares.insert(cid.clone(), seen);
        let mut shares = match self.shares_per.get(cid.as_str()) {
            Some(v) => clone_shares(v),
            None => Vec::new(),
        };
        shares.push(share);
        let full = shares.len() == self.n_parties as usize;
        self.shares_per.insert(cid, shares);
        full
    }

    /// Records a commitment from one sender for one circuit node, dropping
    /// a repeat; true exactly when it completes the aggregate.
    fn collect_commitment(&mut self, from: NodeId, comm: Commitment, cid: CirId) -> (r: bool)
        ensures
            collect_outcome(
                senders_at(old(self).node_commitments@, cid@),
                senders_at(final(self).node_commitments@, cid@),
                agg_at(old(self).commitments_per@, cid@),
                agg_at(final(self).commitments_per@, cid@),
                from,
                (from, comm),
                old(self).n_parties as nat,
                r,
            ),
            unchanged_but(*old(self), *final(self), cid@, KIND_COMMIT),
            senders_at(old(self).node_commitments@, cid@).contains(from)
                ==> final(self).commitments_per@ == old(self).commitments_per@
                && final(self).node_commitments@ == old(self).node_commitments@,
    {
        let dup = match self.node_commitments.get(cid.as_str()) {
            Some(v) => ids_contain(v, from),
            None => false,
        };
        if dup {
            return false;
        }
        let mut seen = match self.node_commitments.get(cid.as_str()) {
            Some(v) => clone_ids(v),
            None => Vec::new(),
        };
        seen.push(from);
        self.node_commitments.insert(cid.clone(), seen);
        let mut comms = match self.commitments_per.get(cid.as_str()) {
            Some(v) => clone_commitments(v),
            None => Vec::new(),
        };
        comms.push((from, comm));
        let full = comms.len() == self.n_parties as usize;
        self.commitments_per.insert(cid, comms);
        full
    }

    /// Records an opened commitment from one sender for one circuit node,
    /// dropping a repeat; true exactly when it completes the aggregate.
    fn collect_proof(&mut self, from: NodeId, proof: CommitmentProof, cid: CirId) -> (r: bool)
        ensures
            collect_outcome(
                senders_at(old(self).node_proofs@, cid@),
                senders_at(final(self).node_proofs@, cid@),
                proofs_view(agg_at(old(self).proofs_per@, cid@)),
                proofs_view(agg_at(final(self).proofs_per@, cid@)),
                from,
                (from, proof_view(proof)),
                old(self).n_parties as nat,
                r,
            ),
            unchanged_but(*old(self), *final(self), cid@, KIND_PROOF),
            senders_at(old(self).node_proofs@, cid@).contains(from) ==> final(self).proofs_per@
                == old(self).proofs_per@ && final(self).node_proofs@ == old(self).node_proofs@,
    {
        let dup = match self.node_proofs.get(cid.as_str()) {
            Some(v) => ids_contain(v, from),
            None => false,
        };
        if dup {
            return false;
        }
        let mut seen = match self.node_proofs.get(cid.as_str()) {
            Some(v) => clone_ids(v),
            None => Vec::new(),
        };
        seen.push(from);
        self.node_proofs.insert(cid.clone(), seen);
        let mut proofs = match self.proofs_per.get(cid.as_str()) {
            Some(v) => clone_proofs(v),
            None => Vec::new(),
        };
        let ghost pv = proof_view(proof);
        let ghost before = proofs@;
        proofs.push((from, proof));
        proof {
            assert(proofs_view(proofs@) =~= proofs_view(before).push((from, pv)));
            assert(proofs_view(before) =~= proofs_view(
                agg_at(old(self).proofs_per@, cid@),
            ));
        }
        let full = proofs.len() == self.n_parties as usize;
        self.proofs_per.insert(cid, proofs);
        full
    }

    /// Records one audit verdict from a sender. A repeat from the same
    /// sender is dropped. An invalid verdict is surfaced at once; a valid
    /// one only when every party has accepted.
    fn collect_status(&mut self, from: NodeId, valid: bool, cid: CirId) -> (r: bool)
        requires
            valid ==> count_at(old(self).status_per@, cid@) < 255,
        ensures
            unchanged_but(*old(self), *final(self), cid@, KIND_STATUS),
            status_outcome(*old(self), *final(self), cid@, from, valid, r),
    {
        let dup = match self.node_statuses.get(cid.as_str()) {
            Some(v) => ids_contain(v, from),
            None => false,
        };
        if dup {
            return false;
        }
        let mut seen = match self.node_statuses.get(cid.as_str()) {
            Some(v) => clone_ids(v),
            None => Vec::new(),
        };
        seen.push(from);
        self.node_statuses.insert(cid.clone(), seen);
        if !valid {
            return true;
        }
        let count = match self.status_per.get(cid.as_str()) {
            Some(c) => *c,
            None => 0,
        };
        let count = count + 1;
        self.status_per.insert(cid, count);
        count == self.n_parties
    }
}

/// What one status-collect call does: a repeated sender changes nothing; a
/// fresh invalid verdict is surfaced at once; a fresh valid verdict raises
/// the count and is surfaced when all parties have accepted.
pub open spec fn status_outcome(
    a: Party,
    b: Party,
    key: Seq<char>,
    from: NodeId,
    valid: bool,
    r: bool,
) -> bool {
    if senders_at(a.node_statuses@, key).contains(from) {
        &&& r == false
        &&& b.node_statuses@ == a.node_statuses@
        &&& b.status_per@ == a.status_per@
    } else {
        &&& senders_at(b.node_statuses@, key) == senders_at(a.node_statuses@, key).push(from)
        &&& (!valid ==> r == true && count_at(b.status_per@, key) == count_at(a.status_per@, key))
        &&& (valid ==> count_at(b.status_per@, key) == count_at(a.status_per@, key) + 1 && r == (
        count_at(b.status_per@, key) == a.n_parties as nat))
    }
}

/// Whether one more share from this sender would complete the aggregate.
pub open spec fn share_completes(p: Party, from: NodeId, key: Seq<char>) -> bool {
    !senders_at(p.opened_shares@, key).contains(from) && agg_at(p.shares_per@, key).len() + 1
        == p.n_parties
}

/// Whether one more commitment from this sender would complete the
/// aggregate.
pub open spec fn commit_completes(p: Party, from: NodeId, key: Seq<char>) -> bool {
    !senders_at(p.node_commitments@, key).contains(from) && agg_at(p.commitments_per@, key).len()
        + 1 == p.n_parties
}

/// Whether one more opened commitment from this sender would complete the
/// aggregate.
pub open spec fn proof_completes(p: Party, from: NodeId, key: Seq<char>) -> bool {
    !senders_at(p.node_proofs@, key).contains(from) && agg_at(p.proofs_per@, key).len() + 1
        == p.n_parties
}

/// Whether one more acceptance from this sender makes the verdict
/// unanimous.
pub open spec fn status_completes(p: Party, from: NodeId, key: Seq<char>) -> bool {
    !senders_at(p.node_statuses@, key).contains(from) && count_at(p.status_per@, key) + 1
        == p.n_parties
}

/// The two parties hold the same aggregates, id and party count.
pub open spec fn party_unchanged(a: Party, b: Party) -> bool {
    &&& b.id == a.id
    &&& b.n_parties == a.n_parties
    &&& b.shares_per@ == a.shares_per@
    &&& b.opened_shares@ == a.opened_shares@
    &&& b.commitments_per@ == a.commitments_per@
    &&& b.node_commitments@ == a.node_commitments@
    &&& b.proofs_per@ == a.proofs_per@
    &&& b.node_proofs@ == a.node_proofs@
    &&& b.status_per@ == a.status_per@
    &&& b.node_statuses@ == a.node_statuses@
}

impl Party {
    /// Routes one inbound network message from the given sender: records
    /// it in the aggregate of its kind, drops duplicates silently, and
    /// surfaces an event to the node exactly when the aggregate completes
    /// (at once for an opened variable or an invalid verdict).
    pub fn handle_network_msg(&mut self, from: NodeId, msg: Msg) -> (r: Vec<NodeEvents>)
        requires
            (msg matches Msg::ProofValid(cid) ==> count_at(old(self).status_per@, cid@) < 255),
        ensures
            match msg {
                Msg::OpenShare(cid, share) => {
                    &&& (share_completes(*old(self), from, cid@) ==> r@.len() == 1 && (r@[0]
                        matches NodeEvents::CirReady(c, s) && c@ == cid@ && s@ == agg_at(
                        old(self).shares_per@,
                        cid@,
                    ).push(share)) && !final(self).shares_per@.contains_key(cid@))
                    &&& (!share_completes(*old(self), from, cid@) ==> r@.len() == 0)
                    &&& (!senders_at(old(self).opened_shares@, cid@).contains(from) ==> senders_at(
                        final(self).opened_shares@,
                        cid@,
                    ) == senders_at(old(self).opened_shares@, cid@).push(from))
                    &&& (!senders_at(old(self).opened_shares@, cid@).contains(from)
                        && !share_completes(*old(self), from, cid@) ==> agg_at(
                        final(self).shares_per@,
                        cid@,
                    ) == agg_at(old(self).shares_per@, cid@).push(share))
                    &&& (senders_at(old(self).opened_shares@, cid@).contains(from)
                        ==> party_unchanged(*old(self), *final(self)))
                },
                Msg::OpenVariable(cid, elem) => r@.len() == 1 && (r@[0]
                    matches NodeEvents::NodeVariableReady(c, e) && c@ == cid@ && e == elem)
                    && party_unchanged(*old(self), *final(self)),
                Msg::Commit(cid, comm) => {
                    &&& (commit_completes(*old(self), from, cid@) ==> r@.len() == 1 && (r@[0]
                        matches NodeEvents::CommitmentsFor(c, s) && c@ == cid@ && s@ == agg_at(
                        old(self).commitments_per@,
                        cid@,
                    ).push((from, comm))) && !final(self).commitments_per@.contains_key(cid@))
                    &&& (!commit_completes(*old(self), from, cid@) ==> r@.len() == 0)
                    &&& (!senders_at(old(self).node_commitments@, cid@).contains(from)
                        ==> senders_at(final(self).node_commitments@, cid@) == senders_at(
                        old(self).node_commitments@,
                        cid@,
                    ).push(from))
                    &&& (!senders_at(old(self).node_commitments@, cid@).contains(from)
                        && !commit_completes(*old(self), from, cid@) ==> agg_at(
                        final(self).commitments_per@,
                        cid@,
                    ) == agg_at(old(self).commitments_per@, cid@).push((from, comm)))
                    &&& (senders_at(old(self).node_commitments@, cid@).contains(from)
                        ==> party_unchanged(*old(self), *final(self)))
                },
                Msg::Proof(cid, proof) => {
                    &&& (proof_completes(*old(self), from, cid@) ==> r@.len() == 1 && (r@[0]
                        matches NodeEvents::ProofsFor(c, s) && c@ == cid@ && proofs_view(s@)
                        == proofs_view(agg_at(old(self).proofs_per@, cid@)).push(
                        (from, proof_view(proof)),
                    )) && !final(self).proofs_per@.contains_key(cid@))
                    &&& (!proof_completes(*old(self), from, cid@) ==> r@.len() == 0)
                    &&& (!senders_at(old(self).node_proofs@, cid@).contains(from) ==> senders_at(
                        final(self).node_proofs@,
                        cid@,
                    ) == senders_at(old(self).node_proofs@, cid@).push(from))
                    &&& (!senders_at(old(self).node_proofs@, cid@).contains(from)
                        && !proof_completes(*old(self), from, cid@) ==> proofs_view(
                        agg_at(final(self).proofs_per@, cid@),
                    ) == proofs_view(agg_at(old(self).proofs_per@, cid@)).push(
                        (from, proof_view(proof)),
                    ))
                    &&& (senders_at(old(self).node_proofs@, cid@).contains(from)
                        ==> party_unchanged(*old(self), *final(self)))
                },
                Msg::ProofValid(cid) => {
                    &&& (status_completes(*old(self), from, cid@) ==> r@.len() == 1 && (r@[0]
                        matches NodeEvents::ProofValid(c) && c@ == cid@))
                    &&& (!status_completes(*old(self), from, cid@) ==> r@.len() == 0)
                    &&& (!senders_at(old(self).node_statuses@, cid@).contains(from) ==> senders_at(
                        final(self).node_statuses@,
                        cid@,
                    ) == senders_at(old(self).node_statuses@, cid@).push(from) && count_at(
                        final(self).status_per@,
                        cid@,
                    ) == count_at(old(self).status_per@, cid@) + 1)
                    &&& (senders_at(old(self).node_statuses@, cid@).contains(from)
                        ==> party_unchanged(*old(self), *final(self)))
                },
                Msg::ProofInvalid(cid) => {
                    &&& (!senders_at(old(self).node_statuses@, cid@).contains(from) ==> r@.len()
                        == 1 && (r@[0] matches NodeEvents::ProofInvalid(c) && c@ == cid@)
                        && senders_at(final(self).node_statuses@, cid@) == senders_at(
                        old(self).node_statuses@,
                        cid@,
                    ).push(from) && count_at(final(self).status_per@, cid@) == count_at(
                        old(self).status_per@,
                        cid@,
                    ))
                    &&& (senders_at(old(self).node_statuses@, cid@).contains(from) ==> r@.len()
                        == 0 && party_unchanged(*old(self), *final(self)))
                },
            },
    {
        let mut events: Vec<NodeEvents> = Vec::new();
        match msg {
            Msg::OpenShare(cid, share) => {
                if self.collect_share(from, share, cid.clone()) {
                    let collected = match self.shares_per.get(cid.as_str()) {
                        Some(v) => clone_shares(v),
                        None => Vec::new(),
                    };
                    self.shares_per.remove(cid.as_str());
                    events.push(NodeEvents::CirReady(cid, collected));
                }
            },
            Msg::OpenVariable(cid, elem) => {
                events.push(NodeEvents::NodeVariableReady(cid, elem));
            },
            Msg::Commit(cid, comm) => {
                if self.collect_commitment(from, comm, cid.clone()) {
                    let collected = match self.commitments_per.get(cid.as_str()) {
                        Some(v) => clone_commitments(v),
                        None => Vec::new(),
                    };
                    self.commitments_per.remove(cid.as_str());
                    events.push(NodeEvents::CommitmentsFor(cid, collected));
                }
            },
            Msg::Proof(cid, proof) => {
                if self.collect_proof(from, proof, cid.clone()) {
                    let collected = match self.proofs_per.get(cid.as_str()) {
                        Some(v) => clone_proofs(v),
                        None => Vec::new(),
                    };
                    self.proofs_per.remove(cid.as_str());
                    events.push(NodeEvents::ProofsFor(cid, collected));
                }
            },
            Msg::ProofInvalid(cid) => {
                if self.collect_status(from, false, cid.clone()) {
                    events.push(NodeEvents::ProofInvalid(cid));
                }
            },
            Msg::ProofValid(cid) => {
                if self.collect_status(from, true, cid.clone()) {
                    events.push(NodeEvents::ProofValid(cid));
                }
            },
        }
        events
    }

    /// Translates one node command into the action the party performs for
    /// it: a broadcast to every peer, or a tagged dealer request.
    pub fn handle_node_command(&self, cmd: NodeCommands) -> (r: PartyAction)
        ensures
            command_action(self.id, cmd, r),
    {
        match cmd {
            NodeCommands::OpenShare(share, cir_id) => PartyAction::Broadcast(
                Msg::OpenShare(cir_id, share),
            ),
            NodeCommands::OpenSelfInput(v_id) => PartyAction::ToDealer(
                self.id,
                DealerCommands::NodeOpenSelfInput(v_id),
            ),
            NodeCommands::NeedBeaver(cir_id) => PartyAction::ToDealer(
                self.id,
                DealerCommands::BeaverFor(cir_id),
            ),
            NodeCommands::OpenSelfShare(s, cir_id) => PartyAction::Broadcast(
                Msg::OpenVariable(cir_id, s),
            ),
            NodeCommands::NeedAlpha => PartyAction::ToDealer(self.id, DealerCommands::NeedAlpha),
            NodeCommands::CommitmentFor(cir_id, comm) => PartyAction::Broadcast(
                Msg::Commit(cir_id, comm),
            ),
            NodeCommands::ProofFor(cir_id, proof) => PartyAction::Broadcast(
                Msg::Proof(cir_id, proof),
            ),
            NodeCommands::ProofVerified(cir_id) => PartyAction::Broadcast(
                Msg::ProofValid(cir_id),
            ),
            NodeCommands::ProofInvalid(cir_id) => PartyAction::Broadcast(
                Msg::ProofInvalid(cir_id),
            ),
        }
    }

    /// Forwards one dealer event to the node, or delivers the MAC key
    /// share on its own channel.
    pub fn handle_dealer_event(&self, dealer_event: DealerEvents) -> (r: DealerDispatch)
        ensures
            dealer_dispatch(dealer_event, r),
    {
        match dealer_event {
            DealerEvents::NodeSelfVariable(var_id, rr, r_share) => DealerDispatch::Event(
                NodeEvents::SelfVariableReady(var_id, rr, r_share),
            ),
            DealerEvents::NodeVariableShared(var_id, r_share) => DealerDispatch::Event(
                NodeEvents::NodeVariableShareReady(var_id, r_share),
            ),
            DealerEvents::BeaverSharesFor(cir_id, beaver_shares) => DealerDispatch::Event(
                NodeEvents::BeaverFor(cir_id, beaver_shares),
            ),
            DealerEvents::Alpha(alpha) => DealerDispatch::Key(Alpha(alpha)),
        }
    }
}

/// The action a party takes for each node command.
pub open spec fn command_action(id: NodeId, cmd: NodeCommands, r: PartyAction) -> bool {
    match cmd {
        NodeCommands::OpenShare(share, cir_id) => r == PartyAction::Broadcast(
            Msg::OpenShare(cir_id, share),
        ),
        NodeCommands::OpenSelfInput(v_id) => r == PartyAction::ToDealer(
            id,
            DealerCommands::NodeOpenSelfInput(v_id),
        ),
        NodeCommands::NeedBeaver(cir_id) => r == PartyAction::ToDealer(
            id,
            DealerCommands::BeaverFor(cir_id),
        ),
        NodeCommands::OpenSelfShare(s, cir_id) => r == PartyAction::Broadcast(
            Msg::OpenVariable(cir_id, s),
        ),
        NodeCommands::NeedAlpha => r == PartyAction::ToDealer(id, DealerCommands::NeedAlpha),
        NodeCommands::CommitmentFor(cir_id, comm) => r == PartyAction::Broadcast(
            Msg::Commit(cir_id, comm),
        ),
        NodeCommands::ProofFor(cir_id, proof) => r == PartyAction::Broadcast(
            Msg::Proof(cir_id, proof),
        ),
        NodeCommands::ProofVerified(cir_id) => r == PartyAction::Broadcast(
            Msg::ProofValid(cir_id),
        ),
        NodeCommands::ProofInvalid(cir_id) => r == PartyAction::Broadcast(
            Msg::ProofInvalid(cir_id),
        ),
    }
}

/// The dispatch a party makes for each dealer event.
pub open spec fn dealer_dispatch(ev: DealerEvents, r: DealerDispatch) -> bool {
    match ev {
        DealerEvents::NodeSelfVariable(var_id, rr, r_share) => r == DealerDispatch::Event(
            NodeEvents::SelfVariableReady(var_id, rr, r_share),
        ),
        DealerEvents::NodeVariableShared(var_id, r_share) => r == DealerDispatch::Event(
            NodeEvents::NodeVariableShareReady(var_id, r_share),
        ),
        DealerEvents::BeaverSharesFor(cir_id, beaver_shares) => r == DealerDispatch::Event(
            NodeEvents::BeaverFor(cir_id, beaver_shares),
        ),
        DealerEvents::Alpha(alpha) => r == DealerDispatch::Key(Alpha(alpha)),
    }
}

/// Which aggregate a collect call touches.
pub type CollectKind = u8;

/// The share aggregate.
pub const KIND_SHARE: CollectKind = 0;

/// The commitment aggregate.
pub const KIND_COMMIT: CollectKind = 1;

/// The opened-commitment aggregate.
pub const KIND_PROOF: CollectKind = 2;

/// The status aggregate.
pub const KIND_STATUS: CollectKind = 3;

/// What one collect call does to its own sender record and aggregate: a
/// repeated sender changes nothing and reports false; a fresh sender is
/// recorded, its item appended, and the call reports completion exactly
/// when the aggregate reaches the party count.
pub open spec fn collect_outcome<T>(
    seen_old: Seq<NodeId>,
    seen_new: Seq<NodeId>,
    agg_old: Seq<T>,
    agg_new: Seq<T>,
    from: NodeId,
    item: T,
    n_parties: nat,
    r: bool,
) -> bool {
    if seen_old.contains(from) {
        seen_new == seen_old && agg_new == agg_old && r == false
    } else {
        seen_new == seen_old.push(from) && agg_new == agg_old.push(item) && r == (agg_new.len()
            == n_parties)
    }
}

/// Every aggregate of another kind, and every key but the given one of the
/// touched kind, is untouched; id and party count never change.
pub open spec fn unchanged_but(a: Party, b: Party, key: Seq<char>, kind: CollectKind) -> bool {
    &&& b.id == a.id
    &&& b.n_parties == a.n_parties
    &&& (kind != KIND_SHARE ==> b.shares_per@ == a.shares_per@ && b.opened_shares@
        == a.opened_shares@)
    &&& (kind != KIND_COMMIT ==> b.commitments_per@ == a.commitments_per@ && b.node_commitments@
        == a.node_commitments@)
    &&& (kind != KIND_PROOF ==> b.proofs_per@ == a.proofs_per@ && b.node_proofs@
        == a.node_proofs@)
    &&& (kind != KIND_STATUS ==> b.status_per@ == a.status_per@ && b.node_statuses@
        == a.node_statuses@)
    &&& (forall|k: Seq<char>|
        k != key ==> senders_at(b.opened_shares@, k) == senders_at(a.opened_shares@, k) && agg_at(
            b.shares_per@,
            k,
        ) == agg_at(a.shares_per@, k))
    &&& (forall|k: Seq<char>|
        k != key ==> senders_at(b.node_commitments@, k) == senders_at(a.node_commitments@, k)
            && agg_at(b.commitments_per@, k) == agg_at(a.commitments_per@, k))
    &&& (forall|k: Seq<char>|
        k != key ==> senders_at(b.node_proofs@, k) == senders_at(a.node_proofs@, k)
            && proofs_view(agg_at(b.proofs_per@, k)) == proofs_view(agg_at(a.proofs_per@, k)))
    &&& (forall|k: Seq<char>|
        k != key ==> senders_at(b.node_statuses@, k) == senders_at(a.node_statuses@, k)
            && count_at(b.status_per@, k) == count_at(a.status_per@, k))
}

/// Copies a vector of node ids.
fn clone_ids(v: &Vec<NodeId>) -> (r: Vec<NodeId>)
    ensures
        r@ == v@,
{
    let mut out: Vec<NodeId> = Vec::new();
    let n = v.len();
    let mut i: usize = 0;
    while i < n
        invariant
            i <= n,
            n == v@.len(),
            out@ == v@.take(i as int),
        decreases n - i,
    {
        out.push(v[i]);
        proof {
            assert(v@.take(i + 1) =~= v@.take(i as int).push(v@[i as int]));
        }
        i = i + 1;
    }
    proof {
        assert(v@.take(n as int) =~= v@);
    }
    out
}

/// Copies a vector of shares.
fn clone_shares(v: &Vec<Share>) -> (r: Vec<Share>)
    ensures
        r@ == v@,
{
    let mut out: Vec<Share> = Vec::new();
    let n = v.len();
    let mut i: usize = 0;
    while i < n
        invariant
            i <= n,
            n == v@.len(),
            out@ == v@.take(i as int),
        decreases n - i,
    {
        out.push(v[i]);
        proof {
            assert(v@.take(i + 1) =~= v@.take(i as int).push(v@[i as int]));
        }
        i = i + 1;
    }
    proof {
        assert(v@.take(n as int) =~= v@);
    }
    out
}

/// Copies a vector of tagged commitments.
fn clone_commitments(v: &Vec<(NodeId, Commitment)>) -> (r: Vec<(NodeId, Commitment)>)
    ensures
        r@ == v@,
{
    let mut out: Vec<(NodeId, Commitment)> = Vec::new();
    let n = v.len();
    let mut i: usize = 0;
    while i < n
        invariant
            i <= n,
            n == v@.len(),
            out@ == v@.take(i as int),
        decreases n - i,
    {
        out.push(v[i]);
        proof {
            assert(v@.take(i + 1) =~= v@.take(i as int).push(v@[i as int]));
        }
        i = i + 1;
    }
    proof {
        assert(v@.take(n as int) =~= v@);
    }
    out
}

/// Copies a vector of tagged opened commitments, value for value.
fn clone_proofs(v: &Vec<(NodeId, CommitmentProof)>) -> (r: Vec<(NodeId, CommitmentProof)>)
    ensures
        proofs_view(r@) == proofs_view(v@),
{
    let mut out: Vec<(NodeId, CommitmentProof)> = Vec::new();
    let n = v.len();
    let mut i: usize = 0;
    while i < n
        invariant
            i <= n,
            n == v@.len(),
            out@.len() == i,
            forall|j: int|
                0 <= j < i ==> #[trigger] out@[j].0 == v@[j].0 && proof_view(out@[j].1)
                    == proof_view(v@[j].1),
        decreases n - i,
    {
        let p = &v[i];
        let salt = clone_bytes(&p.1.2);
        out.push((p.0, (p.1.0, p.1.1, salt)));
        i = i + 1;
    }
    proof {
        assert(proofs_view(out@) =~= proofs_view(v@));
    }
    out
}

/// Copies a byte vector.
fn clone_bytes(v: &Vec<u8>) -> (r: Vec<u8>)
    ensures
        r@ == v@,
{
    let mut out: Vec<u8> = Vec::new();
    let n = v.len();
    let mut i: usize = 0;
    while i < n
        invariant
            i <= n,
            n == v@.len(),
            out@ == v@.take(i as int),
        decreases n - i,
    {
        out.push(v[i]);
        proof {
            assert(v@.take(i + 1) =~= v@.take(i as int).push(v@[i as int]));
        }
        i = i + 1;
    }
    proof {
        assert(v@.take(n as int) =~= v@);
    }
    out
}

} // verus!
