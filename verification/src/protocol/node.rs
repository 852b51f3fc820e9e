//! The per-party protocol driver. It walks the schedule, requests dealer
//! material, opens shares, assembles input variables, performs the Beaver
//! exchange for every multiplication, and runs the commit-then-open audit.
//!
//! The node holds no channels: every handler is a state transition that
//! returns the commands its party should perform, and the caller delivers
//! events back. The caller aborts the evaluation when a handler reports an
//! audit failure.

use vstd::prelude::*;
use vstd::hash_map::StringHashMap;
use vstd::multiset::Multiset;
use vstd::hash_set::StringHashSet;
use crate::field::{addp, mulp, subp, Fp};
use crate::protocol::arithmetics::Calculator;
use crate::protocol::expression::MidEvalExpression;
use crate::protocol::{CirId, NodeCommands, NodeEvents, NodeId};
use crate::shares::{BeaverShare, Commitment, CommitmentProof, Elem, Share, Shares};

verus! {

/// The evaluation state of a node between schedule steps.
#[derive(Debug)]
pub enum NodeState {
    /// The next scheduled step may be taken.
    Proceed,
    /// A variable step waits for its two parts to combine.
    WaitForVariable(CirId),
    /// A multiplication waits for its Beaver triple.
    WaitForBeaver(CirId, Share, Share),
    /// The openings of x - a and y - b are in flight.
    WaitForShares(CirId, CirId, CirId, BeaverShare),
    /// The triple arrived; the two openings may be issued.
    HaveBeaver(CirId, Share, Share),
    /// Both openings are complete; the product may be computed.
    HaveShares(CirId, CirId, CirId, BeaverShare),
    /// The audit commitments for the two openings are awaited.
    WaitForCommitments(CirId, CirId),
}

/// Field marks for stating which parts of a node one step may touch.
pub type NodeField = u8;

/// The evaluated map.
pub const F_EVALUATED: NodeField = 0;

/// The fully-open map.
pub const F_FULLY_OPEN: NodeField = 1;

/// The beavers map.
pub const F_BEAVERS: NodeField = 2;

/// The variable-shares map.
pub const F_VAR_SHARES: NodeField = 3;

/// The variable-salts map.
pub const F_VAR_SALTS: NodeField = 4;

/// The own-proofs map.
pub const F_MY_PROOFS: NodeField = 5;

/// The proofs map.
pub const F_PROOFS: NodeField = 6;

/// The commitments map.
pub const F_COMMITMENTS: NodeField = 7;

/// The valid-proofs set.
pub const F_VALID: NodeField = 8;

/// The invalid-proofs set.
pub const F_INVALID: NodeField = 9;

/// The original-shares map.
pub const F_ORIGINAL: NodeField = 10;

/// The audit id list.
pub const F_AUDIT: NodeField = 11;

/// One party's protocol driver.
pub struct Node {
    /// This node's party id.
    pub id: NodeId,
    /// The local calculator, present once the MAC key share arrived.
    pub calculator: Option<Calculator>,
    /// Completed circuit nodes and their shares.
    pub evaluated: StringHashMap<Share>,
    /// The per-party contributions of completed openings.
    pub fully_open: StringHashMap<Shares>,
    /// The plain values of this node's own input variables.
    pub variables: StringHashMap<Elem>,
    /// Beaver triples delivered by the dealer.
    pub beavers: StringHashMap<BeaverShare>,
    /// The [r] mask shares of input variables.
    pub variable_shares: StringHashMap<Share>,
    /// The broadcast x - r values of input variables.
    pub variable_salts: StringHashMap<Elem>,
    /// This node's own opened commitments, by circuit node.
    pub my_proofs: StringHashMap<CommitmentProof>,
    /// Everyone's opened commitments, by circuit node.
    pub proofs: StringHashMap<Vec<(NodeId, CommitmentProof)>>,
    /// Everyone's commitments, by circuit node.
    pub commitments: StringHashMap<Vec<(NodeId, Commitment)>>,
    /// Circuit nodes whose audit every party accepted.
    pub valid_proofs: StringHashSet,
    /// Circuit nodes whose audit some party rejected.
    pub invalid_proofs: StringHashSet,
    /// The shares whose openings this node must audit.
    pub original_shares: StringHashMap<Share>,
    /// The circuit nodes with an own commitment outstanding, in the order
    /// they were made.
    pub audit_ids: Vec<CirId>,
}

/// Every field not marked touched is unchanged, and id and calculator
/// never change.
pub open spec fn node_unchanged_except(a: Node, b: Node, touched: Set<NodeField>) -> bool {
    &&& b.id == a.id
    &&& b.variables@ == a.variables@
    &&& (!touched.contains(F_EVALUATED) ==> b.evaluated@ == a.evaluated@)
    &&& (!touched.contains(F_FULLY_OPEN) ==> b.fully_open@ == a.fully_open@)
    &&& (!touched.contains(F_BEAVERS) ==> b.beavers@ == a.beavers@)
    &&& (!touched.contains(F_VAR_SHARES) ==> b.variable_shares@ == a.variable_shares@)
    &&& (!touched.contains(F_VAR_SALTS) ==> b.variable_salts@ == a.variable_salts@)
    &&& (!touched.contains(F_MY_PROOFS) ==> b.my_proofs@ == a.my_proofs@)
    &&& (!touched.contains(F_PROOFS) ==> b.proofs@ == a.proofs@)
    &&& (!touched.contains(F_COMMITMENTS) ==> b.commitments@ == a.commitments@)
    &&& (!touched.contains(F_VALID) ==> b.valid_proofs@ == a.valid_proofs@)
    &&& (!touched.contains(F_INVALID) ==> b.invalid_proofs@ == a.invalid_proofs@)
    &&& (!touched.contains(F_ORIGINAL) ==> b.original_shares@ == a.original_shares@)
    &&& (!touched.contains(F_AUDIT) ==> b.audit_ids@ == a.audit_ids@)
}

/// The node's stored field elements are all in canonical form, and the
/// calculator's key share is too once it arrived.
pub open spec fn node_wf(n: Node) -> bool {
    &&& (n.calculator matches Some(c) ==> c.wf() && c.id == n.id)
    &&& (forall|k: Seq<char>|
        n.evaluated@.contains_key(k) ==> (#[trigger] n.evaluated@[k]).0.wf()
            && n.evaluated@[k].1.wf())
    &&& (forall|k: Seq<char>|
        n.variables@.contains_key(k) ==> (#[trigger] n.variables@[k]).wf())
    &&& (forall|k: Seq<char>|
        n.beavers@.contains_key(k) ==> {
            let t = #[trigger] n.beavers@[k];
            t.0.0.wf() && t.0.1.wf() && t.1.0.wf() && t.1.1.wf() && t.2.0.wf() && t.2.1.wf()
        })
    &&& (forall|k: Seq<char>|
        n.variable_shares@.contains_key(k) ==> (#[trigger] n.variable_shares@[k]).0.wf()
            && n.variable_shares@[k].1.wf())
    &&& (forall|k: Seq<char>|
        n.variable_salts@.contains_key(k) ==> (#[trigger] n.variable_salts@[k]).wf())
    &&& (forall|k: Seq<char>|
        n.fully_open@.contains_key(k) ==> crate::shares::all_shares_wf(
            (#[trigger] n.fully_open@[k])@,
        ))
    &&& (forall|k: Seq<char>|
        n.original_shares@.contains_key(k) ==> (#[trigger] n.original_shares@[k]).0.wf()
            && n.original_shares@[k].1.wf())
}

/// The value assembled for a variable from its mask share and broadcast
/// offset: the owner-side and receiver-side paths both land here.
pub open spec fn combined_share(c: Calculator, r_share: Share, salt: Elem) -> (nat, nat) {
    (
        if c.id == 0 {
            addp(r_share.0.as_nat(), salt.as_nat())
        } else {
            r_share.0.as_nat()
        },
        addp(mulp(c.alpha_share.as_nat(), salt.as_nat()), r_share.1.as_nat()),
    )
}

impl Node {
    /// A fresh node for the given party, with the plain values of its own
    /// input variables.
    pub fn new(id: NodeId, variables: StringHashMap<Elem>) -> (r: Node)
        requires
            forall|k: Seq<char>| variables@.contains_key(k) ==> (#[trigger] variables@[k]).wf(),
        ensures
            node_wf(r),
            r.id == id,
            r.calculator is None,
            r.variables@ == variables@,
            r.evaluated@ == Map::<Seq<char>, Share>::empty(),
            r.fully_open@ == Map::<Seq<char>, Shares>::empty(),
            r.beavers@ == Map::<Seq<char>, BeaverShare>::empty(),
            r.variable_shares@ == Map::<Seq<char>, Share>::empty(),
            r.variable_salts@ == Map::<Seq<char>, Elem>::empty(),
            r.my_proofs@ == Map::<Seq<char>, CommitmentProof>::empty(),
            r.proofs@ == Map::<Seq<char>, Vec<(NodeId, CommitmentProof)>>::empty(),
            r.commitments@ == Map::<Seq<char>, Vec<(NodeId, Commitment)>>::empty(),
            r.valid_proofs@ == Set::<Seq<char>>::empty(),
            r.invalid_proofs@ == Set::<Seq<char>>::empty(),
            r.original_shares@ == Map::<Seq<char>, Share>::empty(),
            r.audit_ids@.len() == 0,
    {
        Node {
            id,
            calculator: None,
            evaluated: StringHashMap::new(),
            fully_open: StringHashMap::new(),
            variables,
            beavers: StringHashMap::new(),
            variable_shares: StringHashMap::new(),
            variable_salts: StringHashMap::new(),
            my_proofs: StringHashMap::new(),
            proofs: StringHashMap::new(),
            commitments: StringHashMap::new(),
            valid_proofs: StringHashSet::new(),
            invalid_proofs: StringHashSet::new(),
            original_shares: StringHashMap::new(),
            audit_ids: Vec::new(),
        }
    }

    /// Installs the MAC key share: from here on the node can compute.
    pub fn set_alpha(&mut self, alpha: Elem)
        requires
            alpha.wf(),
            node_wf(*old(self)),
        ensures
            node_wf(*final(self)),
            final(self).calculator == Some(
                Calculator { id: old(self).id, alpha_share: alpha },
            ),
            node_unchanged_except(*old(self), *final(self), Set::empty()),
    {
        self.calculator = Some(Calculator::new(self.id, alpha));
    }

    /// Combines x - r and [r] into the variable's evaluated share once
    /// both are present, consuming them.
    fn combine_variable_if_full(&mut self, var_node: CirId)
        requires
            node_wf(*old(self)),
            old(self).calculator is Some,
        ensures
            node_wf(*final(self)),
            combine_outcome(*old(self), *final(self), var_node@),
    {
        let has_salt = self.variable_salts.contains_key(var_node.as_str());
        let has_share = self.variable_shares.contains_key(var_node.as_str());
        if !has_salt || !has_share {
            return ;
        }
        let s1 = match self.variable_shares.get(var_node.as_str()) {
            Some(s) => *s,
            None => unreached(),
        };
        let s2 = match self.variable_salts.get(var_node.as_str()) {
            Some(s) => *s,
            None => unreached(),
        };
        self.variable_shares.remove(var_node.as_str());
        self.variable_salts.remove(var_node.as_str());
        let calc = match &self.calculator {
            Some(c) => c,
            None => unreached(),
        };
        let v = calc.add_const(s1, s2);
        self.evaluated.insert(var_node, v);
    }
}

/// What delivering the broadcast x - r does: a duplicate changes nothing;
/// a first delivery is recorded, and combines into the evaluated share when
/// the mask share is already present.
pub open spec fn deliver_salt_outcome(pre: Node, post: Node, key: Seq<char>, s: Elem) -> bool {
    &&& post.calculator == pre.calculator
    &&& (pre.variable_salts@.contains_key(key) ==> node_unchanged_except(pre, post, Set::empty()))
    &&& (!pre.variable_salts@.contains_key(key) && !pre.variable_shares@.contains_key(key)
        ==> post.variable_salts@ == pre.variable_salts@.insert(key, s) && node_unchanged_except(
        pre,
        post,
        set![F_VAR_SALTS],
    ))
    &&& (!pre.variable_salts@.contains_key(key) && pre.variable_shares@.contains_key(key) ==> {
        &&& post.variable_salts@ == pre.variable_salts@
        &&& post.variable_shares@ == pre.variable_shares@.remove(key)
        &&& post.evaluated@.contains_key(key)
        &&& post.evaluated@ == pre.evaluated@.insert(key, post.evaluated@[key])
        &&& ({
            let v = post.evaluated@[key];
            (v.0.as_nat(), v.1.as_nat()) == combined_share(
                pre.calculator->0,
                pre.variable_shares@[key],
                s,
            )
        })
        &&& node_unchanged_except(pre, post, set![F_EVALUATED, F_VAR_SHARES, F_VAR_SALTS])
    })
}

/// What delivering the dealer's mask share does: a duplicate changes
/// nothing; a first delivery is recorded, and combines into the evaluated
/// share when the broadcast offset is already present.
pub open spec fn deliver_share_outcome(pre: Node, post: Node, key: Seq<char>, s: Share) -> bool {
    &&& post.calculator == pre.calculator
    &&& (pre.variable_shares@.contains_key(key) ==> node_unchanged_except(pre, post, Set::empty()))
    &&& (!pre.variable_shares@.contains_key(key) && !pre.variable_salts@.contains_key(key)
        ==> post.variable_shares@ == pre.variable_shares@.insert(key, s) && node_unchanged_except(
        pre,
        post,
        set![F_VAR_SHARES],
    ))
    &&& (!pre.variable_shares@.contains_key(key) && pre.variable_salts@.contains_key(key) ==> {
        &&& post.variable_shares@ == pre.variable_shares@
        &&& post.variable_salts@ == pre.variable_salts@.remove(key)
        &&& post.evaluated@.contains_key(key)
        &&& post.evaluated@ == pre.evaluated@.insert(key, post.evaluated@[key])
        &&& ({
            let v = post.evaluated@[key];
            (v.0.as_nat(), v.1.as_nat()) == combined_share(pre.calculator->0, s, pre.variable_salts@[key])
        })
        &&& node_unchanged_except(pre, post, set![F_EVALUATED, F_VAR_SHARES, F_VAR_SALTS])
    })
}

/// The values an event carries are canonical field elements.
pub open spec fn event_wf(event: NodeEvents) -> bool {
    match event {
        NodeEvents::CirReady(_, s) => crate::shares::all_shares_wf(s@),
        NodeEvents::SelfVariableReady(_, r, r_share) => r.wf() && r_share.0.wf() && r_share.1.wf(),
        NodeEvents::NodeVariableReady(_, s) => s.wf(),
        NodeEvents::NodeVariableShareReady(_, s) => s.0.wf() && s.1.wf(),
        NodeEvents::BeaverFor(_, b) => b.0.0.wf() && b.0.1.wf() && b.1.0.wf() && b.1.1.wf()
            && b.2.0.wf() && b.2.1.wf(),
        NodeEvents::CommitmentsFor(_, _) => true,
        NodeEvents::ProofsFor(_, _) => true,
        NodeEvents::ProofValid(_) => true,
        NodeEvents::ProofInvalid(_) => true,
    }
}

impl Node {
    /// Handles one event from the party: records the delivered material,
    /// drops a duplicate for an already-filled slot, assembles a variable
    /// once both its parts are present, and for the node's own variable
    /// computes and broadcasts x - r.
    pub fn handle_event(&mut self, event: NodeEvents) -> (r: Vec<NodeCommands>)
        requires
            node_wf(*old(self)),
            old(self).calculator is Some,
            event_wf(event),
        ensures
            node_wf(*final(self)),
            final(self).calculator == old(self).calculator,
            match event {
                NodeEvents::CirReady(c_id, s) => {
                    &&& r@.len() == 0
                    &&& (!old(self).fully_open@.contains_key(c_id@) ==> final(self).fully_open@
                        == old(self).fully_open@.insert(c_id@, s))
                    &&& (old(self).fully_open@.contains_key(c_id@) ==> final(self).fully_open@
                        == old(self).fully_open@)
                    &&& node_unchanged_except(*old(self), *final(self), set![F_FULLY_OPEN])
                },
                _ => true,
            },
            match event {
                NodeEvents::SelfVariableReady(c_id, rr, r_share) => {
                    &&& (!old(self).variables@.contains_key(c_id@) ==> r@.len() == 0
                        && node_unchanged_except(*old(self), *final(self), Set::empty()))
                    &&& (old(self).variables@.contains_key(c_id@) ==> {
                        let xr = subp(old(self).variables@[c_id@].as_nat(), rr.as_nat());
                        let c = old(self).calculator->0;
                        &&& r@.len() == 1
                        &&& (r@[0] matches NodeCommands::OpenSelfShare(e, cc) && cc@ == c_id@
                            && e.as_nat() == xr)
                        &&& final(self).evaluated@.contains_key(c_id@)
                        &&& final(self).evaluated@ == old(self).evaluated@.insert(
                            c_id@,
                            final(self).evaluated@[c_id@],
                        )
                        &&& ({
                            let v = final(self).evaluated@[c_id@];
                            &&& v.0.as_nat() == if c.id == 0 {
                                addp(r_share.0.as_nat(), xr)
                            } else {
                                r_share.0.as_nat()
                            }
                            &&& v.1.as_nat() == addp(
                                mulp(c.alpha_share.as_nat(), xr),
                                r_share.1.as_nat(),
                            )
                        })
                        &&& node_unchanged_except(*old(self), *final(self), set![F_EVALUATED])
                    })
                },
                _ => true,
            },
            match event {
                NodeEvents::NodeVariableReady(c_id, s) => r@.len() == 0 && deliver_salt_outcome(
                    *old(self),
                    *final(self),
                    c_id@,
                    s,
                ),
                _ => true,
            },
            match event {
                NodeEvents::NodeVariableShareReady(c_id, s) => r@.len() == 0
                    && deliver_share_outcome(*old(self), *final(self), c_id@, s),
                _ => true,
            },
            match event {
                NodeEvents::BeaverFor(c_id, beaver) => {
                    &&& r@.len() == 0
                    &&& (old(self).beavers@.contains_key(c_id@) ==> node_unchanged_except(
                        *old(self),
                        *final(self),
                        Set::empty(),
                    ))
                    &&& (!old(self).beavers@.contains_key(c_id@) ==> final(self).beavers@ == old(self).beavers@.insert(c_id@, beaver) && node_unchanged_except(
                        *old(self),
                        *final(self),
                        set![F_BEAVERS],
                    ))
                },
                _ => true,
            },
            match event {
                NodeEvents::CommitmentsFor(cir_id, comms) => {
                    &&& r@.len() == 0
                    &&& (old(self).commitments@.contains_key(cir_id@) ==> node_unchanged_except(
                        *old(self),
                        *final(self),
                        Set::empty(),
                    ))
                    &&& (!old(self).commitments@.contains_key(cir_id@) ==> final(self).commitments@ == old(self).commitments@.insert(cir_id@, comms)
                        && node_unchanged_except(*old(self), *final(self), set![F_COMMITMENTS]))
                },
                _ => true,
            },
            match event {
                NodeEvents::ProofsFor(cir_id, proofs) => {
                    &&& r@.len() == 0
                    &&& (old(self).proofs@.contains_key(cir_id@) ==> node_unchanged_except(
                        *old(self),
                        *final(self),
                        Set::empty(),
                    ))
                    &&& (!old(self).proofs@.contains_key(cir_id@) ==> final(self).proofs@ == old(self).proofs@.insert(cir_id@, proofs) && node_unchanged_except(
                        *old(self),
                        *final(self),
                        set![F_PROOFS],
                    ))
                },
                _ => true,
            },
            match event {
                NodeEvents::ProofValid(cir_id) => {
                    &&& r@.len() == 0
                    &&& final(self).valid_proofs@ == old(self).valid_proofs@.insert(cir_id@)
                    &&& node_unchanged_except(*old(self), *final(self), set![F_VALID])
                },
                _ => true,
            },
            match event {
                NodeEvents::ProofInvalid(cir_id) => {
                    &&& r@.len() == 0
                    &&& final(self).invalid_proofs@ == old(self).invalid_proofs@.insert(cir_id@)
                    &&& node_unchanged_except(*old(self), *final(self), set![F_INVALID])
                },
                _ => true,
            },
    {
        let mut out: Vec<NodeCommands> = Vec::new();
        match event {
            NodeEvents::CirReady(c_id, s) => {
                if !self.fully_open.contains_key(c_id.as_str()) {
                    self.fully_open.insert(c_id, s);
                }
            },
            NodeEvents::SelfVariableReady(c_id, rr, r_share) => {
                let ghost key = c_id@;
                if self.variables.contains_key(c_id.as_str()) {
                    let x = match self.variables.get(c_id.as_str()) {
                        Some(x) => *x,
                        None => unreached(),
                    };
                    let xr = x.sub(rr);
                    out.push(NodeCommands::OpenSelfShare(xr, c_id.clone()));
                    let calc = match &self.calculator {
                        Some(c) => c,
                        None => unreached(),
                    };
                    let v = calc.add_const(r_share, xr);
                    self.evaluated.insert(c_id, v);
                    proof {
                        assert(self.evaluated@ == old(self).evaluated@.insert(key, v));
                    }
                }
            },
            NodeEvents::NodeVariableReady(c_id, s) => {
                let ghost key = c_id@;
                let ghost sv = s;
                if !self.variable_salts.contains_key(c_id.as_str()) {
                    self.variable_salts.insert(c_id.clone(), s);
                    self.combine_variable_if_full(c_id);
                    proof {
                        if old(self).variable_shares@.contains_key(key) {
                            assert(self.variable_salts@ =~= old(self).variable_salts@);
                            assert(self.evaluated@ =~= old(self).evaluated@.insert(
                                key,
                                self.evaluated@[key],
                            ));
                        }
                        assert(deliver_salt_outcome(*old(self), *self, key, sv));
                    }
                }
            },
            NodeEvents::NodeVariableShareReady(c_id, s) => {
                let ghost key = c_id@;
                let ghost sv = s;
                if !self.variable_shares.contains_key(c_id.as_str()) {
                    self.variable_shares.insert(c_id.clone(), s);
                    self.combine_variable_if_full(c_id);
                    proof {
                        if old(self).variable_salts@.contains_key(key) {
                            assert(self.variable_shares@ =~= old(self).variable_shares@);
                            assert(self.evaluated@ =~= old(self).evaluated@.insert(
                                key,
                                self.evaluated@[key],
                            ));
                        }
                        assert(deliver_share_outcome(*old(self), *self, key, sv));
                    }
                }
            },
            NodeEvents::BeaverFor(c_id, beaver) => {
                if !self.beavers.contains_key(c_id.as_str()) {
                    self.beavers.insert(c_id, beaver);
                }
            },
            NodeEvents::CommitmentsFor(cir_id, comms) => {
                if !self.commitments.contains_key(cir_id.as_str()) {
                    self.commitments.insert(cir_id, comms);
                }
            },
            NodeEvents::ProofsFor(cir_id, proofs) => {
                if !self.proofs.contains_key(cir_id.as_str()) {
                    self.proofs.insert(cir_id, proofs);
                }
            },
            NodeEvents::ProofValid(cir_id) => {
                self.valid_proofs.insert(cir_id);
            },
            NodeEvents::ProofInvalid(cir_id) => {
                self.invalid_proofs.insert(cir_id);
            },
        }
        out
    }
}

/// The constants a scheduled step carries are canonical field elements,
/// and a two-operand step names two distinct operands.
pub open spec fn step_wf(m: MidEvalExpression) -> bool {
    match m {
        MidEvalExpression::AddConstant(sc, _, _) => sc.wf(),
        MidEvalExpression::MulConstant(sc, _, _) => sc.wf(),
        MidEvalExpression::Add(a, b, _) => a@ != b@,
        MidEvalExpression::Mul(a, b, _) => a@ != b@,
        MidEvalExpression::Var(_) => true,
    }
}

/// Variable assembly is order-independent: delivering the dealer's mask
/// share before the broadcast offset, or the other way round, leaves the
/// same evaluated share for the variable.
pub proof fn lemma_variable_assembly_commutes(
    pre: Node,
    mid1: Node,
    post1: Node,
    mid2: Node,
    post2: Node,
    key: Seq<char>,
    s: Share,
    salt: Elem,
)
    requires
        pre.calculator is Some,
        !pre.variable_shares@.contains_key(key),
        !pre.variable_salts@.contains_key(key),
        deliver_share_outcome(pre, mid1, key, s),
        deliver_salt_outcome(mid1, post1, key, salt),
        deliver_salt_outcome(pre, mid2, key, salt),
        deliver_share_outcome(mid2, post2, key, s),
    ensures
        post1.evaluated@.contains_key(key),
        post2.evaluated@.contains_key(key),
        ({
            let v1 = post1.evaluated@[key];
            let v2 = post2.evaluated@[key];
            (v1.0.as_nat(), v1.1.as_nat()) == (v2.0.as_nat(), v2.1.as_nat())
        }),
        post1.evaluated@[key].0.as_nat() == combined_share(pre.calculator->0, s, salt).0,
        post1.evaluated@[key].1.as_nat() == combined_share(pre.calculator->0, s, salt).1,
{
    let c = pre.calculator->0;
    assert(mid1.variable_shares@[key] == s);
    assert((post1.evaluated@[key].0.as_nat(), post1.evaluated@[key].1.as_nat())
        == combined_share(c, s, salt));
    assert(mid2.variable_salts@[key] == salt);
    assert((post2.evaluated@[key].0.as_nat(), post2.evaluated@[key].1.as_nat())
        == combined_share(c, s, salt));
}

/// The scheduled step's operands are already evaluated.
pub open spec fn operands_ready(n: Node, m: MidEvalExpression) -> bool {
    match m {
        MidEvalExpression::AddConstant(_, src, _) => n.evaluated@.contains_key(src@),
        MidEvalExpression::Add(a, b, _) => n.evaluated@.contains_key(a@)
            && n.evaluated@.contains_key(b@),
        MidEvalExpression::MulConstant(_, src, _) => n.evaluated@.contains_key(src@),
        MidEvalExpression::Mul(a, b, _) => n.evaluated@.contains_key(a@)
            && n.evaluated@.contains_key(b@),
        MidEvalExpression::Var(_) => true,
    }
}

impl Node {
    /// Whether the state lets the next scheduled step be taken.
    pub fn can_proceed(&self, state: &NodeState) -> (r: bool)
        ensures
            r == (state is Proceed),
    {
        match state {
            NodeState::Proceed => true,
            _ => false,
        }
    }

    /// Advances a waiting state once the material it waits for arrived;
    /// any other state is returned unchanged.
    pub fn state_transition(&self, state: NodeState) -> (r: NodeState)
        ensures
            match state {
                NodeState::WaitForVariable(cir_id) => if self.evaluated@.contains_key(cir_id@) {
                    r is Proceed
                } else {
                    r == NodeState::WaitForVariable(cir_id)
                },
                NodeState::WaitForBeaver(cir_id, s1, s2) => if self.beavers@.contains_key(
                    cir_id@,
                ) {
                    r == NodeState::HaveBeaver(cir_id, s1, s2)
                } else {
                    r == NodeState::WaitForBeaver(cir_id, s1, s2)
                },
                NodeState::WaitForShares(c, e, f, beaver) => if self.fully_open@.contains_key(e@)
                    && self.fully_open@.contains_key(f@) {
                    r == NodeState::HaveShares(c, e, f, beaver)
                } else {
                    r == NodeState::WaitForShares(c, e, f, beaver)
                },
                NodeState::WaitForCommitments(c1, c2) => if self.commitments@.contains_key(c1@)
                    && self.commitments@.contains_key(c2@) {
                    r is Proceed
                } else {
                    r == NodeState::WaitForCommitments(c1, c2)
                },
                _ => r == state,
            },
    {
        match state {
            NodeState::WaitForVariable(cir_id) => {
                if self.evaluated.contains_key(cir_id.as_str()) {
                    NodeState::Proceed
                } else {
                    NodeState::WaitForVariable(cir_id)
                }
            },
            NodeState::WaitForBeaver(cir_id, s1, s2) => {
                if self.beavers.contains_key(cir_id.as_str()) {
                    NodeState::HaveBeaver(cir_id, s1, s2)
                } else {
                    NodeState::WaitForBeaver(cir_id, s1, s2)
                }
            },
            NodeState::WaitForShares(c, e, f, beaver) => {
                if self.fully_open.contains_key(e.as_str()) && self.fully_open.contains_key(
                    f.as_str(),
                ) {
                    NodeState::HaveShares(c, e, f, beaver)
                } else {
                    NodeState::WaitForShares(c, e, f, beaver)
                }
            },
            NodeState::WaitForCommitments(c1, c2) => {
                if self.commitments.contains_key(c1.as_str()) && self.commitments.contains_key(
                    c2.as_str(),
                ) {
                    NodeState::Proceed
                } else {
                    NodeState::WaitForCommitments(c1, c2)
                }
            },
            s => s,
        }
    }

    /// Takes one scheduled step. Linear steps compute at once and proceed;
    /// a multiplication hands its operands over to the Beaver exchange; a
    /// variable step waits until the variable was assembled.
    pub fn try_proceed(&mut self, evaluating: &MidEvalExpression) -> (r: NodeState)
        requires
            node_wf(*old(self)),
            old(self).calculator is Some,
            operands_ready(*old(self), *evaluating),
            step_wf(*evaluating),
        ensures
            node_wf(*final(self)),
            final(self).calculator == old(self).calculator,
            match *evaluating {
                MidEvalExpression::AddConstant(sc, src, cid) => {
                    let ev = old(self).evaluated@[src@];
                    let c = old(self).calculator->0;
                    &&& r is Proceed
                    &&& final(self).evaluated@.contains_key(cid@)
                    &&& final(self).evaluated@ == old(self).evaluated@.remove(src@).insert(
                        cid@,
                        final(self).evaluated@[cid@],
                    )
                    &&& ({
                        let v = final(self).evaluated@[cid@];
                        &&& v.0.as_nat() == if c.id == 0 {
                            addp(ev.0.as_nat(), sc.as_nat())
                        } else {
                            ev.0.as_nat()
                        }
                        &&& v.1.as_nat() == addp(
                            mulp(c.alpha_share.as_nat(), sc.as_nat()),
                            ev.1.as_nat(),
                        )
                    })
                    &&& node_unchanged_except(*old(self), *final(self), set![F_EVALUATED])
                },
                MidEvalExpression::Add(e1, e2, cid) => {
                    let ev1 = old(self).evaluated@[e1@];
                    let ev2 = old(self).evaluated@[e2@];
                    &&& r is Proceed
                    &&& final(self).evaluated@.contains_key(cid@)
                    &&& final(self).evaluated@ == old(self).evaluated@.remove(e1@).remove(
                        e2@,
                    ).insert(cid@, final(self).evaluated@[cid@])
                    &&& ({
                        let v = final(self).evaluated@[cid@];
                        &&& v.0.as_nat() == addp(ev1.0.as_nat(), ev2.0.as_nat())
                        &&& v.1.as_nat() == addp(ev1.1.as_nat(), ev2.1.as_nat())
                    })
                    &&& node_unchanged_except(*old(self), *final(self), set![F_EVALUATED])
                },
                MidEvalExpression::MulConstant(sc, src, cid) => {
                    let ev = old(self).evaluated@[src@];
                    &&& r is Proceed
                    &&& final(self).evaluated@.contains_key(cid@)
                    &&& final(self).evaluated@ == old(self).evaluated@.remove(src@).insert(
                        cid@,
                        final(self).evaluated@[cid@],
                    )
                    &&& ({
                        let v = final(self).evaluated@[cid@];
                        &&& v.0.as_nat() == mulp(ev.0.as_nat(), sc.as_nat())
                        &&& v.1.as_nat() == mulp(ev.1.as_nat(), sc.as_nat())
                    })
                    &&& node_unchanged_except(*old(self), *final(self), set![F_EVALUATED])
                },
                MidEvalExpression::Mul(e1, e2, cid) => {
                    &&& (r matches NodeState::WaitForBeaver(c, s1, s2) && c@ == cid@ && s1 == old(self).evaluated@[e1@] && s2 == old(self).evaluated@[e2@])
                    &&& final(self).evaluated@ == old(self).evaluated@.remove(e1@).remove(e2@)
                    &&& node_unchanged_except(*old(self), *final(self), set![F_EVALUATED])
                },
                MidEvalExpression::Var(cid) => {
                    &&& (old(self).evaluated@.contains_key(cid@) ==> r is Proceed)
                    &&& (!old(self).evaluated@.contains_key(cid@) ==> (r
                        matches NodeState::WaitForVariable(c) && c@ == cid@))
                    &&& node_unchanged_except(*old(self), *final(self), Set::empty())
                },
            },
    {
        match evaluating {
            MidEvalExpression::AddConstant(s, evaluated_node, cir_id) => {
                let ev = match self.evaluated.get(evaluated_node.as_str()) {
                    Some(v) => *v,
                    None => unreached(),
                };
                self.evaluated.remove(evaluated_node.as_str());
                let calc = match &self.calculator {
                    Some(c) => c,
                    None => unreached(),
                };
                let v = calc.add_const(ev, *s);
                self.evaluated.insert(cir_id.clone(), v);
                NodeState::Proceed
            },
            MidEvalExpression::Add(e1, e2, cir_id) => {
                let ev1 = match self.evaluated.get(e1.as_str()) {
                    Some(v) => *v,
                    None => unreached(),
                };
                self.evaluated.remove(e1.as_str());
                let ev2 = match self.evaluated.get(e2.as_str()) {
                    Some(v) => *v,
                    None => unreached(),
                };
                self.evaluated.remove(e2.as_str());
                let calc = match &self.calculator {
                    Some(c) => c,
                    None => unreached(),
                };
                let v = calc.add(ev1, ev2);
                self.evaluated.insert(cir_id.clone(), v);
                NodeState::Proceed
            },
            MidEvalExpression::MulConstant(s, evaluated_node, cir_id) => {
                let ev = match self.evaluated.get(evaluated_node.as_str()) {
                    Some(v) => *v,
                    None => unreached(),
                };
                self.evaluated.remove(evaluated_node.as_str());
                let calc = match &self.calculator {
                    Some(c) => c,
                    None => unreached(),
                };
                let v = calc.mul_by_const(ev, *s);
                self.evaluated.insert(cir_id.clone(), v);
                NodeState::Proceed
            },
            MidEvalExpression::Mul(e1, e2, cir_id) => {
                let ev1 = match self.evaluated.get(e1.as_str()) {
                    Some(v) => *v,
                    None => unreached(),
                };
                self.evaluated.remove(e1.as_str());
                let ev2 = match self.evaluated.get(e2.as_str()) {
                    Some(v) => *v,
                    None => unreached(),
                };
                self.evaluated.remove(e2.as_str());
                NodeState::WaitForBeaver(cir_id.clone(), ev1, ev2)
            },
            MidEvalExpression::Var(cir_id) => {
                if !self.evaluated.contains_key(cir_id.as_str()) {
                    NodeState::WaitForVariable(cir_id.clone())
                } else {
                    NodeState::Proceed
                }
            },
        }
    }

    /// The commands issued at startup: the key-share request, one Beaver
    /// request per multiplication node, and one self-input request per
    /// variable this node owns.
    pub fn startup_commands(&self, exp: &crate::protocol::expression::DecoratedExpression) -> (r:
        Vec<NodeCommands>)
        ensures
            ({
                let muls = crate::protocol::expression::spec_mul_ids(*exp);
                let vars = crate::protocol::expression::spec_var_ids(*exp, Some(self.id));
                &&& r@.len() == 1 + muls.len() + vars.len()
                &&& r@[0] is NeedAlpha
                &&& (forall|j: int|
                    0 <= j < muls.len() ==> (#[trigger] r@[1 + j]
                        matches NodeCommands::NeedBeaver(c) && c@ == muls[j]))
                &&& (forall|j: int|
                    0 <= j < vars.len() ==> (#[trigger] r@[1 + muls.len() + j]
                        matches NodeCommands::OpenSelfInput(c) && c@ == vars[j].0))
            }),
    {
        let mut out: Vec<NodeCommands> = Vec::new();
        out.push(NodeCommands::NeedAlpha);
        let muls = exp.mul_ids();
        let ghost muls_v = crate::protocol::expression::spec_mul_ids(*exp);
        let n = muls.len();
        let mut i: usize = 0;
        while i < n
            invariant
                i <= n,
                n == muls@.len(),
                muls@.map_values(|s: CirId| s@) == muls_v,
                out@.len() == 1 + i,
                out@[0] is NeedAlpha,
                forall|j: int|
                    0 <= j < i ==> (#[trigger] out@[1 + j] matches NodeCommands::NeedBeaver(c)
                        && c@ == muls_v[j]),
            decreases n - i,
        {
            let id = muls[i].clone();
            proof {
                assert(id@ == muls_v[i as int]);
            }
            out.push(NodeCommands::NeedBeaver(id));
            i = i + 1;
        }
        let vars = exp.self_var_ids(Some(self.id));
        let ghost vars_v = crate::protocol::expression::spec_var_ids(*exp, Some(self.id));
        let m = vars.len();
        let mut k: usize = 0;
        while k < m
            invariant
                k <= m,
                m == vars@.len(),
                vars@.map_values(|p: (CirId, crate::protocol::VarId)| (p.0@, p.1@)) == vars_v,
                out@.len() == 1 + n + k,
                n == muls_v.len(),
                out@[0] is NeedAlpha,
                forall|j: int|
                    0 <= j < n ==> (#[trigger] out@[1 + j] matches NodeCommands::NeedBeaver(c)
                        && c@ == muls_v[j]),
                forall|j: int|
                    0 <= j < k ==> (#[trigger] out@[1 + n + j]
                        matches NodeCommands::OpenSelfInput(c) && c@ == vars_v[j].0),
            decreases m - k,
        {
            let id = vars[k].0.clone();
            proof {
                assert(id@ == vars_v[k as int].0);
            }
            out.push(NodeCommands::OpenSelfInput(id));
            k = k + 1;
        }
        out
    }
}

/// The identifier under which the first multiplication opening travels.
pub open spec fn e_open_id(cid: Seq<char>) -> Seq<char> {
    cid + seq!['-', 'e']
}

/// The identifier under which the second multiplication opening travels.
pub open spec fn f_open_id(cid: Seq<char>) -> Seq<char> {
    cid + seq!['-', 'f']
}

impl Node {
    /// Starts the Beaver exchange for one multiplication: consumes the
    /// triple, computes the shares of x - a and y - b, remembers them for
    /// the audit, and opens both.
    pub fn handle_beaver(&mut self, cir_id: CirId, ev1: Share, ev2: Share) -> (r: (
        Vec<NodeCommands>,
        NodeState,
    ))
        requires
            node_wf(*old(self)),
            old(self).calculator is Some,
            old(self).beavers@.contains_key(cir_id@),
            ev1.0.wf() && ev1.1.wf() && ev2.0.wf() && ev2.1.wf(),
        ensures
            node_wf(*final(self)),
            final(self).calculator == old(self).calculator,
            ({
                let bv = old(self).beavers@[cir_id@];
                let eid = e_open_id(cir_id@);
                let fid = f_open_id(cir_id@);
                &&& final(self).beavers@ == old(self).beavers@.remove(cir_id@)
                &&& final(self).original_shares@.contains_key(eid)
                &&& final(self).original_shares@.contains_key(fid)
                &&& final(self).original_shares@ == old(self).original_shares@.insert(
                    eid,
                    final(self).original_shares@[eid],
                ).insert(fid, final(self).original_shares@[fid])
                &&& ({
                    let e = final(self).original_shares@[eid];
                    let f = final(self).original_shares@[fid];
                    &&& e.0.as_nat() == subp(ev1.0.as_nat(), bv.0.0.as_nat())
                    &&& e.1.as_nat() == subp(ev1.1.as_nat(), bv.0.1.as_nat())
                    &&& f.0.as_nat() == subp(ev2.0.as_nat(), bv.1.0.as_nat())
                    &&& f.1.as_nat() == subp(ev2.1.as_nat(), bv.1.1.as_nat())
                    &&& r.0@.len() == 2
                    &&& (r.0@[0] matches NodeCommands::OpenShare(s, c) && s == e && c@ == eid)
                    &&& (r.0@[1] matches NodeCommands::OpenShare(s, c) && s == f && c@ == fid)
                })
                &&& (r.1 matches NodeState::WaitForShares(c, e, f, b) && c@ == cir_id@ && e@
                    == eid && f@ == fid && b == bv)
                &&& node_unchanged_except(
                    *old(self),
                    *final(self),
                    set![F_BEAVERS, F_ORIGINAL],
                )
            }),
    {
        let beaver = match self.beavers.get(cir_id.as_str()) {
            Some(b) => *b,
            None => unreached(),
        };
        self.beavers.remove(cir_id.as_str());
        let calc = match &self.calculator {
            Some(c) => c,
            None => unreached(),
        };
        let (e, f) = calc.mul_prepare(ev1, ev2, beaver);
        let e_name = "e".to_owned();
        let f_name = "f".to_owned();
        let e_id = crate::protocol::sub_id(&cir_id, &e_name);
        let f_id = crate::protocol::sub_id(&cir_id, &f_name);
        proof {
            reveal_strlit("e");
            reveal_strlit("f");
            assert(e_id@ =~= e_open_id(cir_id@));
            assert(f_id@ =~= f_open_id(cir_id@));
            assert(e_open_id(cir_id@) != f_open_id(cir_id@)) by {
                assert(e_open_id(cir_id@)[cir_id@.len() as int + 1] == 'e');
                assert(f_open_id(cir_id@)[cir_id@.len() as int + 1] == 'f');
            };
        }
        self.original_shares.insert(e_id.clone(), e);
        self.original_shares.insert(f_id.clone(), f);
        let mut cmds: Vec<NodeCommands> = Vec::new();
        cmds.push(NodeCommands::OpenShare(e, e_id.clone()));
        cmds.push(NodeCommands::OpenShare(f, f_id.clone()));
        (cmds, NodeState::WaitForShares(cir_id, e_id, f_id, beaver))
    }

    /// Completes one multiplication: sums the opened contributions to E and
    /// F, computes the product share, and commits to the two audit values
    /// d = alpha*E - m(E) and alpha*F - m(F).
    pub fn handle_shares(
        &mut self,
        cir_id: CirId,
        e_id: CirId,
        f_id: CirId,
        beaver: BeaverShare,
    ) -> (r: (Vec<NodeCommands>, NodeState))
        requires
            node_wf(*old(self)),
            old(self).calculator is Some,
            old(self).fully_open@.contains_key(e_id@),
            old(self).fully_open@.contains_key(f_id@),
            old(self).original_shares@.contains_key(e_id@),
            old(self).original_shares@.contains_key(f_id@),
            e_id@ != f_id@,
            beaver.0.0.wf() && beaver.0.1.wf() && beaver.1.0.wf() && beaver.1.1.wf()
                && beaver.2.0.wf() && beaver.2.1.wf(),
        ensures
            node_wf(*final(self)),
            final(self).calculator == old(self).calculator,
            ({
                let c = old(self).calculator->0;
                let al = c.alpha_share.as_nat();
                let ee = crate::shares::sum_fst(old(self).fully_open@[e_id@]@)
                    % crate::field::prime();
                let fe = crate::shares::sum_fst(old(self).fully_open@[f_id@]@)
                    % crate::field::prime();
                &&& final(self).fully_open@ == old(self).fully_open@.remove(e_id@).remove(f_id@)
                &&& final(self).original_shares@ == old(self).original_shares@.remove(
                    e_id@,
                ).remove(f_id@)
                &&& final(self).evaluated@.contains_key(cir_id@)
                &&& final(self).evaluated@ == old(self).evaluated@.insert(
                    cir_id@,
                    final(self).evaluated@[cir_id@],
                )
                &&& ({
                    let v = final(self).evaluated@[cir_id@];
                    &&& v.0.as_nat() == crate::protocol::arithmetics::beaver_mul_fst(
                        c.id,
                        beaver.0.0.as_nat(),
                        beaver.1.0.as_nat(),
                        beaver.2.0.as_nat(),
                        ee,
                        fe,
                    )
                    &&& v.1.as_nat() == crate::protocol::arithmetics::beaver_mul_snd(
                        al,
                        beaver.0.1.as_nat(),
                        beaver.1.1.as_nat(),
                        beaver.2.1.as_nat(),
                        ee,
                        fe,
                    )
                })
                &&& final(self).my_proofs@.contains_key(e_id@)
                &&& final(self).my_proofs@.contains_key(f_id@)
                &&& final(self).my_proofs@ == old(self).my_proofs@.insert(
                    e_id@,
                    final(self).my_proofs@[e_id@],
                ).insert(f_id@, final(self).my_proofs@[f_id@])
                &&& audit_proof_ok(
                    final(self).my_proofs@[e_id@],
                    al,
                    ee,
                    old(self).original_shares@[e_id@].1.as_nat(),
                )
                &&& audit_proof_ok(
                    final(self).my_proofs@[f_id@],
                    al,
                    fe,
                    old(self).original_shares@[f_id@].1.as_nat(),
                )
                &&& r.0@.len() == 2
                &&& (r.0@[0] matches NodeCommands::CommitmentFor(c1, h1) && c1@ == e_id@ && h1@
                    == final(self).my_proofs@[e_id@].0@)
                &&& (r.0@[1] matches NodeCommands::CommitmentFor(c2, h2) && c2@ == f_id@ && h2@
                    == final(self).my_proofs@[f_id@].0@)
                &&& (r.1 matches NodeState::WaitForCommitments(a, b) && a@ == e_id@ && b@
                    == f_id@)
                &&& final(self).audit_ids@.len() == old(self).audit_ids@.len() + 2
                &&& final(self).audit_ids@[final(self).audit_ids@.len() - 2]@ == e_id@
                &&& final(self).audit_ids@[final(self).audit_ids@.len() - 1]@ == f_id@
                &&& (forall|j: int|
                    0 <= j < old(self).audit_ids@.len() ==> final(self).audit_ids@[j] == old(self).audit_ids@[j])
                &&& node_unchanged_except(
                    *old(self),
                    *final(self),
                    set![F_EVALUATED, F_FULLY_OPEN, F_MY_PROOFS, F_ORIGINAL, F_AUDIT],
                )
            }),
    {
        let e_shares = match self.fully_open.get(e_id.as_str()) {
            Some(v) => clone_share_vec(v),
            None => unreached(),
        };
        self.fully_open.remove(e_id.as_str());
        let f_shares = match self.fully_open.get(f_id.as_str()) {
            Some(v) => clone_share_vec(v),
            None => unreached(),
        };
        self.fully_open.remove(f_id.as_str());
        let e_elem = sum_opened(&e_shares);
        let f_elem = sum_opened(&f_shares);
        let orig_e = match self.original_shares.get(e_id.as_str()) {
            Some(s) => *s,
            None => unreached(),
        };
        self.original_shares.remove(e_id.as_str());
        let orig_f = match self.original_shares.get(f_id.as_str()) {
            Some(s) => *s,
            None => unreached(),
        };
        self.original_shares.remove(f_id.as_str());
        let calc = match &self.calculator {
            Some(c) => c,
            None => unreached(),
        };
        let e_x = calc.generate_commitment_share(e_elem, orig_e);
        let f_x = calc.generate_commitment_share(f_elem, orig_f);
        let (e_hash, e_salt) = Calculator::generate_commitment(&e_x);
        let (f_hash, f_salt) = Calculator::generate_commitment(&f_x);
        let e_proof = (e_hash, e_x, e_salt);
        let f_proof = (f_hash, f_x, f_salt);
        self.my_proofs.insert(e_id.clone(), e_proof);
        self.my_proofs.insert(f_id.clone(), f_proof);
        self.audit_ids.push(e_id.clone());
        self.audit_ids.push(f_id.clone());
        let mut cmds: Vec<NodeCommands> = Vec::new();
        cmds.push(NodeCommands::CommitmentFor(e_id.clone(), e_hash));
        cmds.push(NodeCommands::CommitmentFor(f_id.clone(), f_hash));
        let v = calc.mul(beaver, e_elem, f_elem);
        self.evaluated.insert(cir_id, v);
        (cmds, NodeState::WaitForCommitments(e_id, f_id))
    }

    /// Runs the step of the multiplication exchange the state calls for;
    /// any other state is returned unchanged with no commands.
    pub fn try_proceed_with_mul(&mut self, state: NodeState) -> (r: (Vec<NodeCommands>, NodeState))
        requires
            node_wf(*old(self)),
            old(self).calculator is Some,
            (state matches NodeState::HaveBeaver(c, s1, s2) ==> old(self).beavers@.contains_key(
                c@,
            ) && s1.0.wf() && s1.1.wf() && s2.0.wf() && s2.1.wf()),
            (state matches NodeState::HaveShares(c, e, f, b) ==> old(self).fully_open@.contains_key(e@) && old(self).fully_open@.contains_key(f@) && old(self).original_shares@.contains_key(e@) && old(self).original_shares@.contains_key(f@)
                && e@ != f@ && b.0.0.wf() && b.0.1.wf() && b.1.0.wf() && b.1.1.wf() && b.2.0.wf()
                && b.2.1.wf()),
        ensures
            node_wf(*final(self)),
            final(self).calculator == old(self).calculator,
            !(state is HaveBeaver) && !(state is HaveShares) ==> r.1 == state && r.0@.len() == 0
                && node_unchanged_except(*old(self), *final(self), Set::empty()),
    {
        match state {
            NodeState::HaveBeaver(cir_id, ev1, ev2) => self.handle_beaver(cir_id, ev1, ev2),
            NodeState::HaveShares(cir_id, e_id, f_id, beaver) => self.handle_shares(
                cir_id,
                e_id,
                f_id,
                beaver,
            ),
            s => (Vec::new(), s),
        }
    }
}

/// A well-formed audit commitment: the value is d = alpha*opened - mac,
/// the salt is fresh 32 bytes, and the hash commits to value and salt.
pub open spec fn audit_proof_ok(p: CommitmentProof, alpha: nat, opened: nat, mac: nat) -> bool {
    &&& p.1.wf()
    &&& p.1.as_nat() == subp(mulp(alpha, opened), mac)
    &&& p.2@.len() == 32
    &&& p.0@ == crate::shares::sha3_of(crate::shares::commit_input(p.1, p.2@))
}

/// Copies a vector of shares.
fn clone_share_vec(v: &Vec<Share>) -> (r: Vec<Share>)
    ensures
        r@ == v@,
{
    let mut out: Vec<Share> = Vec::new();
    let n = v.len();
    let mut i: usize = 0;
    while i < n
        invariant
            i <= n,
            n == v@.len(),
            out@ == v@.take(i as int),
        decreases n - i,
    {
        out.push(v[i]);
        proof {
            assert(v@.take(i + 1) =~= v@.take(i as int).push(v@[i as int]));
        }
        i = i + 1;
    }
    proof {
        assert(v@.take(n as int) =~= v@);
    }
    out
}

/// Sums the element components of an opening's collected shares.
fn sum_opened(shares: &Vec<Share>) -> (r: Elem)
    requires
        crate::shares::all_shares_wf(shares@),
    ensures
        r.wf(),
        r.as_nat() == crate::shares::sum_fst(shares@) % crate::field::prime(),
{
    let mut elems: Vec<Elem> = Vec::new();
    let n = shares.len();
    let mut i: usize = 0;
    while i < n
        invariant
            i <= n,
            n == shares@.len(),
            crate::shares::all_shares_wf(shares@),
            elems@.len() == i,
            forall|j: int| 0 <= j < i ==> elems@[j] == (#[trigger] shares@[j]).0,
        decreases n - i,
    {
        elems.push(shares[i].0);
        i = i + 1;
    }
    proof {
        assert forall|j: int| 0 <= j < elems@.len() implies (#[trigger] elems@[j]).wf() by {
            assert(shares@[j].0.wf());
        }
    }
    let r = crate::shares::sum_elems(&elems);
    proof {
        crate::shares::lemma_sum_fst_matches(shares@, elems@);
    }
    r
}

/// The sequence is ordered by party id.
pub open spec fn sorted_by_node<T>(s: Seq<(NodeId, T)>) -> bool {
    forall|i: int, j: int| 0 <= i < j < s.len() ==> (#[trigger] s[i]).0 <= (#[trigger] s[j]).0
}

/// Sorts tagged items by party id, by repeated selection of a minimal
/// element; the result holds exactly the input items.
fn sort_by_node<T>(v: Vec<(NodeId, T)>) -> (r: Vec<(NodeId, T)>)
    ensures
        r@.len() == v@.len(),
        sorted_by_node(r@),
        r@.to_multiset() == v@.to_multiset(),
{
    broadcast use vstd::seq_lib::group_to_multiset_ensures;

    let mut rest = v;
    let mut out: Vec<(NodeId, T)> = Vec::new();
    let ghost orig = rest@;
    while rest.len() > 0
        invariant
            out@.len() + rest@.len() == orig.len(),
            sorted_by_node(out@),
            out@.to_multiset().add(rest@.to_multiset()) =~= orig.to_multiset(),
            forall|i: int, j: int|
                0 <= i < out@.len() && 0 <= j < rest@.len() ==> (#[trigger] out@[i]).0
                    <= (#[trigger] rest@[j]).0,
        decreases rest@.len(),
    {
        let mut min_idx: usize = 0;
        let mut t: usize = 1;
        while t < rest.len()
            invariant
                min_idx < t,
                t <= rest@.len(),
                rest@.len() > 0,
                forall|j: int| 0 <= j < t ==> (#[trigger] rest@[j]).0 >= rest@[min_idx as int].0,
            decreases rest@.len() - t,
        {
            if rest[t].0 < rest[min_idx].0 {
                min_idx = t;
            }
            t = t + 1;
        }
        let ghost rest_before = rest@;
        let item = rest.remove(min_idx);
        let ghost out_before = out@;
        out.push(item);
        proof {
            rest_before.to_multiset_ensures();
            out_before.to_multiset_ensures();
            assert(item == rest_before[min_idx as int]);
            assert(rest_before.remove(min_idx as int).to_multiset() =~= rest_before.to_multiset()
                .remove(item));
            assert(out_before.push(item).to_multiset() =~= out_before.to_multiset().insert(item));
            assert(out@.to_multiset().add(rest@.to_multiset()) =~= orig.to_multiset());
            assert forall|j: int| 0 <= j < rest@.len() implies item.0 <= (#[trigger] rest@[j]).0
                by {
                if j < min_idx {
                    assert(rest@[j] == rest_before[j]);
                } else {
                    assert(rest@[j] == rest_before[j + 1]);
                }
            }
        }
    }
    proof {
        assert(out@.to_multiset() =~= orig.to_multiset()) by {
            assert(rest@.to_multiset() =~= Multiset::<(NodeId, T)>::empty());
        };
        out@.to_multiset_ensures();
        orig.to_multiset_ensures();
    }
    out
}

/// Some sorted arrangement of the collected proofs pairs them with the
/// sorted commitments so that party ids agree position by position, every
/// opened hash equals the broadcast one and recommits to its value and
/// salt, and the opened values sum to zero: the audit accepts.
pub open spec fn audit_accepted(
    ps: Seq<(NodeId, CommitmentProof)>,
    cs: Seq<(NodeId, Commitment)>,
) -> bool {
    exists|sp: Seq<(NodeId, CommitmentProof)>, sc: Seq<(NodeId, Commitment)>|
        {
            &&& crate::protocol::party::proofs_view(sp).to_multiset()
                == crate::protocol::party::proofs_view(ps).to_multiset()
            &&& sc.to_multiset() == cs.to_multiset()
            &&& sorted_by_node(sp)
            &&& sorted_by_node(sc)
            &&& (forall|i: int|
                0 <= i < sp.len() && i < sc.len() ==> (#[trigger] sp[i]).0 == sc[i].0
                    && sp[i].1.0@ == sc[i].1@)
            &&& (forall|i: int|
                0 <= i < sp.len() ==> (#[trigger] sp[i]).1.0@ == crate::shares::sha3_of(
                    crate::shares::commit_input(sp[i].1.1, sp[i].1.2@),
                ))
            &&& crate::protocol::arithmetics::sum_elems_nat_of_proofs(
                sp.map_values(|p: (NodeId, CommitmentProof)| p.1),
            ) % crate::field::prime() == 0
        }
}

/// A value-level permutation maps to a view-level permutation.
proof fn lemma_map_multiset<A, B>(a: Seq<A>, b: Seq<A>, f: spec_fn(A) -> B)
    requires
        a.to_multiset() == b.to_multiset(),
    ensures
        a.map_values(f).to_multiset() == b.map_values(f).to_multiset(),
    decreases a.len(),
{
    broadcast use vstd::seq_lib::group_to_multiset_ensures;

    a.to_multiset_ensures();
    b.to_multiset_ensures();
    if a.len() == 0 {
        assert(b.len() == 0);
        assert(a.map_values(f) =~= b.map_values(f));
    } else {
        let x = a.last();
        assert(a.to_multiset().count(x) > 0) by {
            assert(a.contains(x));
        };
        assert(b.contains(x));
        let k = choose|k: int| 0 <= k < b.len() && b[k] == x;
        assert(a.remove(a.len() - 1).to_multiset() =~= a.to_multiset().remove(x));
        assert(b.remove(k).to_multiset() =~= b.to_multiset().remove(x));
        assert(a.remove(a.len() - 1) =~= a.drop_last());
        lemma_map_multiset(a.drop_last(), b.remove(k), f);
        assert(a.map_values(f) =~= a.drop_last().map_values(f).push(f(x)));
        assert(a.map_values(f).to_multiset() =~= a.drop_last().map_values(f).to_multiset().insert(
            f(x),
        ));
        assert(b.remove(k).map_values(f) =~= b.map_values(f).remove(k));
        assert(b.map_values(f).remove(k).to_multiset() =~= b.map_values(f).to_multiset().remove(
            f(x),
        )) by {
            b.map_values(f).to_multiset_ensures();
            assert(b.map_values(f)[k] == f(x));
        };
        assert(b.map_values(f).to_multiset().count(f(x)) > 0) by {
            b.map_values(f).to_multiset_ensures();
            assert(b.map_values(f)[k] == f(x));
            assert(b.map_values(f).contains(f(x)));
        };
        assert(a.map_values(f).to_multiset() =~= b.map_values(f).to_multiset());
    }
}

/// The party ids of a tagged sequence never repeat.
pub open spec fn party_ids_distinct<T>(s: Seq<(NodeId, T)>) -> bool {
    forall|i: int, j: int|
        0 <= i < j < s.len() ==> (#[trigger] s[i]).0 != (#[trigger] s[j]).0
}

/// A permutation keeps party ids distinct.
proof fn lemma_distinct_ids_perm<T>(a: Seq<(NodeId, T)>, b: Seq<(NodeId, T)>)
    requires
        a.to_multiset() == b.to_multiset(),
        party_ids_distinct(a),
    ensures
        party_ids_distinct(b),
{
    broadcast use vstd::seq_lib::group_to_multiset_ensures;

    a.to_multiset_ensures();
    b.to_multiset_ensures();
    assert forall|i: int, j: int| 0 <= i < j < b.len() implies (#[trigger] b[i]).0 != (
    #[trigger] b[j]).0 by {
        if b[i].0 == b[j].0 {
            if b[i] == b[j] {
                // the shared item occurs twice in b, so twice in a
                assert(b.remove(i).to_multiset() =~= b.to_multiset().remove(b[i]));
                b.remove(i).to_multiset_ensures();
                assert(b.remove(i)[j - 1] == b[j]);
                assert(b.remove(i).contains(b[j]));
                assert(b.remove(i).to_multiset().count(b[i]) > 0);
                assert(b.to_multiset().remove(b[i]).count(b[i]) == b.to_multiset().count(b[i])
                    - 1);
                assert(a.to_multiset().count(b[i]) >= 2);
                assert(a.contains(b[i]));
                let l1 = choose|l: int| 0 <= l < a.len() && a[l] == b[i];
                assert(a.remove(l1).to_multiset() =~= a.to_multiset().remove(a[l1]));
                a.remove(l1).to_multiset_ensures();
                assert(a.to_multiset().remove(a[l1]).count(b[i]) == a.to_multiset().count(b[i])
                    - 1);
                assert(a.remove(l1).to_multiset().count(b[i]) > 0);
                assert(a.remove(l1).contains(b[i]));
                let l2r = choose|l: int| 0 <= l < a.remove(l1).len() && a.remove(l1)[l] == b[i];
                let l2 = if l2r < l1 {
                    l2r
                } else {
                    l2r + 1
                };
                assert(a[l2] == b[i]);
                assert(l1 != l2 && a[l1].0 == a[l2].0);
            } else {
                assert(b.contains(b[i]));
                assert(b.contains(b[j]));
                assert(b.to_multiset().count(b[i]) > 0);
                assert(b.to_multiset().count(b[j]) > 0);
                assert(a.to_multiset().count(b[i]) > 0);
                assert(a.to_multiset().count(b[j]) > 0);
                assert(a.contains(b[i]));
                assert(a.contains(b[j]));
                let l1 = choose|l: int| 0 <= l < a.len() && a[l] == b[i];
                let l2 = choose|l: int| 0 <= l < a.len() && a[l] == b[j];
                assert(l1 != l2 && a[l1].0 == a[l2].0);
            }
        }
    }
}

/// Two orderings by party id of the same items agree outright when no
/// party id repeats.
proof fn lemma_sorted_distinct_unique<T>(a: Seq<(NodeId, T)>, b: Seq<(NodeId, T)>)
    requires
        a.to_multiset() == b.to_multiset(),
        sorted_by_node(a),
        sorted_by_node(b),
        party_ids_distinct(a),
    ensures
        a == b,
    decreases a.len(),
{
    broadcast use vstd::seq_lib::group_to_multiset_ensures;

    a.to_multiset_ensures();
    b.to_multiset_ensures();
    if a.len() == 0 {
        assert(a =~= b);
    } else {
        assert(a.contains(a[0]));
        assert(a.to_multiset().count(a[0]) > 0);
        assert(b.to_multiset().count(a[0]) > 0);
        assert(b.contains(a[0]));
        let k = choose|k: int| 0 <= k < b.len() && b[k] == a[0];
        assert(b.contains(b[0]));
        assert(b.to_multiset().count(b[0]) > 0);
        assert(a.to_multiset().count(b[0]) > 0);
        assert(a.contains(b[0]));
        let l = choose|l: int| 0 <= l < a.len() && a[l] == b[0];
        assert(b[0].0 <= b[k].0);
        assert(a[0].0 <= a[l].0);
        assert(a[0].0 == b[0].0);
        if a[0] != b[0] {
            assert(l != 0);
            assert(a[0].0 != a[l].0);
            assert(false);
        }
        assert(a.remove(0).to_multiset() =~= a.to_multiset().remove(a[0]));
        assert(b.remove(0).to_multiset() =~= b.to_multiset().remove(b[0]));
        assert forall|i: int, j: int|
            0 <= i < j < a.remove(0).len() implies (#[trigger] a.remove(0)[i]).0 != (
        #[trigger] a.remove(0)[j]).0 by {
            assert(a.remove(0)[i] == a[i + 1]);
            assert(a.remove(0)[j] == a[j + 1]);
        }
        assert forall|i: int, j: int|
            0 <= i < j < a.remove(0).len() implies (#[trigger] a.remove(0)[i]).0 <= (
        #[trigger] a.remove(0)[j]).0 by {
            assert(a.remove(0)[i] == a[i + 1]);
            assert(a.remove(0)[j] == a[j + 1]);
        }
        assert forall|i: int, j: int|
            0 <= i < j < b.remove(0).len() implies (#[trigger] b.remove(0)[i]).0 <= (
        #[trigger] b.remove(0)[j]).0 by {
            assert(b.remove(0)[i] == b[i + 1]);
            assert(b.remove(0)[j] == b[j + 1]);
        }
        lemma_sorted_distinct_unique(a.remove(0), b.remove(0));
        assert forall|i: int| 0 <= i < a.len() implies a[i] == b[i] by {
            if i > 0 {
                assert(a.remove(0)[i - 1] == a[i]);
                assert(b.remove(0)[i - 1] == b[i]);
            }
        }
        assert(a =~= b);
    }
}

/// The aggregates pair up: equal counts, no repeated sender on either
/// side, every opened value in canonical form, and some ordering by party
/// id aligns the two sender lists position by position.
pub open spec fn audit_pairable(
    ps: Seq<(NodeId, CommitmentProof)>,
    cs: Seq<(NodeId, Commitment)>,
) -> bool {
    &&& ps.len() == cs.len()
    &&& party_ids_distinct(ps)
    &&& party_ids_distinct(cs)
    &&& (forall|i: int| 0 <= i < ps.len() ==> (#[trigger] ps[i]).1.1.wf())
    &&& exists|sp: Seq<(NodeId, CommitmentProof)>, sc: Seq<(NodeId, Commitment)>|
        {
            &&& crate::protocol::party::proofs_view(sp).to_multiset()
                == crate::protocol::party::proofs_view(ps).to_multiset()
            &&& sc.to_multiset() == cs.to_multiset()
            &&& sorted_by_node(sp)
            &&& sorted_by_node(sc)
            &&& (forall|i: int|
                0 <= i < sp.len() && i < sc.len() ==> (#[trigger] sp[i]).0 == sc[i].0)
        }
}

/// An honest aggregate: well paired, and passing the audit.
pub open spec fn audit_honest(
    ps: Seq<(NodeId, CommitmentProof)>,
    cs: Seq<(NodeId, Commitment)>,
) -> bool {
    audit_pairable(ps, cs) && audit_accepted(ps, cs)
}

/// Every audited circuit node holds honest aggregates.
pub open spec fn all_audits_honest(pre: Node) -> bool {
    forall|i: int|
        0 <= i < pre.audit_ids@.len() ==> audit_honest(
            pre.proofs@[(#[trigger] pre.audit_ids@[i])@]@,
            pre.commitments@[pre.audit_ids@[i]@]@,
        )
}

/// Equal opened values give equal sums.
proof fn lemma_sum_proofs_pointwise(a: Seq<CommitmentProof>, b: Seq<CommitmentProof>)
    requires
        a.len() == b.len(),
        forall|i: int| 0 <= i < a.len() ==> (#[trigger] a[i]).1 == b[i].1,
    ensures
        crate::protocol::arithmetics::sum_elems_nat_of_proofs(a)
            == crate::protocol::arithmetics::sum_elems_nat_of_proofs(b),
    decreases a.len(),
{
    if a.len() > 0 {
        assert forall|i: int|
            0 <= i < a.drop_last().len() implies (#[trigger] a.drop_last()[i]).1
            == b.drop_last()[i].1 by {
            assert(a.drop_last()[i] == a[i]);
            assert(b.drop_last()[i] == b[i]);
        }
        lemma_sum_proofs_pointwise(a.drop_last(), b.drop_last());
        assert(a.last().1 == b.last().1);
    }
}

/// What the sorted copies the audit works on inherit from well-paired
/// aggregates: matching lengths, canonical values, and sender lists that
/// agree position by position; from aggregates that also pass the audit,
/// matching hashes, self-consistent proofs, and the zero sum.
proof fn lemma_exec_matches_witness(
    ps: Seq<(NodeId, CommitmentProof)>,
    cs: Seq<(NodeId, Commitment)>,
    spv: Seq<(NodeId, CommitmentProof)>,
    scv: Seq<(NodeId, Commitment)>,
)
    requires
        crate::protocol::party::proofs_view(spv).to_multiset()
            == crate::protocol::party::proofs_view(ps).to_multiset(),
        scv.to_multiset() == cs.to_multiset(),
        sorted_by_node(spv),
        sorted_by_node(scv),
        audit_pairable(ps, cs),
    ensures
        spv.len() == ps.len(),
        scv.len() == cs.len(),
        forall|i: int| 0 <= i < spv.len() && i < scv.len() ==> (#[trigger] spv[i]).0 == scv[i].0,
        forall|i: int| 0 <= i < spv.len() ==> (#[trigger] spv[i]).1.1.wf(),
        audit_accepted(ps, cs) ==> {
            &&& (forall|i: int|
                0 <= i < spv.len() && i < scv.len() ==> (#[trigger] spv[i]).1.0@ == scv[i].1@)
            &&& (forall|i: int|
                0 <= i < spv.len() ==> (#[trigger] spv[i]).1.0@ == crate::shares::sha3_of(
                    crate::shares::commit_input(spv[i].1.1, spv[i].1.2@),
                ))
            &&& crate::protocol::arithmetics::sum_elems_nat_of_proofs(
                spv.map_values(|p: (NodeId, CommitmentProof)| p.1),
            ) % crate::field::prime() == 0
        },
{
    broadcast use vstd::seq_lib::group_to_multiset_ensures;

    let pv = crate::protocol::party::proofs_view(spv);
    let pw = crate::protocol::party::proofs_view(ps);
    pv.to_multiset_ensures();
    pw.to_multiset_ensures();
    scv.to_multiset_ensures();
    cs.to_multiset_ensures();
    assert(pv.len() == pw.len());
    assert(spv.len() == ps.len());
    assert(scv.len() == cs.len());
    assert forall|i: int, j: int|
        0 <= i < j < pw.len() implies (#[trigger] pw[i]).0 != (#[trigger] pw[j]).0 by {
        assert(pw[i].0 == ps[i].0);
        assert(pw[j].0 == ps[j].0);
    }
    lemma_distinct_ids_perm(pw, pv);
    lemma_distinct_ids_perm(cs, scv);
    assert(sorted_by_node(pv)) by {
        assert forall|i: int, j: int|
            0 <= i < j < pv.len() implies (#[trigger] pv[i]).0 <= (#[trigger] pv[j]).0 by {
            assert(pv[i].0 == spv[i].0);
            assert(pv[j].0 == spv[j].0);
        }
    };
    let (sp0, sc0) = choose|sp0: Seq<(NodeId, CommitmentProof)>, sc0: Seq<(NodeId, Commitment)>|
        {
            &&& crate::protocol::party::proofs_view(sp0).to_multiset()
                == crate::protocol::party::proofs_view(ps).to_multiset()
            &&& sc0.to_multiset() == cs.to_multiset()
            &&& sorted_by_node(sp0)
            &&& sorted_by_node(sc0)
            &&& (forall|i: int|
                0 <= i < sp0.len() && i < sc0.len() ==> (#[trigger] sp0[i]).0 == sc0[i].0)
        };
    let pv0 = crate::protocol::party::proofs_view(sp0);
    assert(sorted_by_node(pv0)) by {
        assert forall|i: int, j: int|
            0 <= i < j < pv0.len() implies (#[trigger] pv0[i]).0 <= (#[trigger] pv0[j]).0 by {
            assert(pv0[i].0 == sp0[i].0);
            assert(pv0[j].0 == sp0[j].0);
        }
    };
    lemma_sorted_distinct_unique(pv, pv0);
    lemma_sorted_distinct_unique(scv, sc0);
    assert forall|i: int|
        0 <= i < spv.len() && i < scv.len() implies (#[trigger] spv[i]).0 == scv[i].0 by {
        assert(pv[i].0 == spv[i].0);
        assert(pv0[i].0 == sp0[i].0);
        assert(sp0[i].0 == sc0[i].0);
    }
    assert forall|i: int| 0 <= i < spv.len() implies (#[trigger] spv[i]).1.1.wf() by {
        assert(pv[i] == (spv[i].0, crate::protocol::party::proof_view(spv[i].1)));
        assert(pv.contains(pv[i]));
        assert(pv.to_multiset().count(pv[i]) > 0);
        assert(pw.to_multiset().count(pv[i]) > 0);
        assert(pw.contains(pv[i]));
        let j = choose|j: int| 0 <= j < pw.len() && pw[j] == pv[i];
        assert(pw[j] == (ps[j].0, crate::protocol::party::proof_view(ps[j].1)));
        assert(ps[j].1.1 == spv[i].1.1);
        assert(ps[j].1.1.wf());
    }
    if audit_accepted(ps, cs) {
        let (sp1, sc1) = choose|
            sp1: Seq<(NodeId, CommitmentProof)>,
            sc1: Seq<(NodeId, Commitment)>,
        |
            {
                &&& crate::protocol::party::proofs_view(sp1).to_multiset()
                    == crate::protocol::party::proofs_view(ps).to_multiset()
                &&& sc1.to_multiset() == cs.to_multiset()
                &&& sorted_by_node(sp1)
                &&& sorted_by_node(sc1)
                &&& (forall|i: int|
                    0 <= i < sp1.len() && i < sc1.len() ==> (#[trigger] sp1[i]).0 == sc1[i].0
                        && sp1[i].1.0@ == sc1[i].1@)
                &&& (forall|i: int|
                    0 <= i < sp1.len() ==> (#[trigger] sp1[i]).1.0@ == crate::shares::sha3_of(
                        crate::shares::commit_input(sp1[i].1.1, sp1[i].1.2@),
                    ))
                &&& crate::protocol::arithmetics::sum_elems_nat_of_proofs(
                    sp1.map_values(|p: (NodeId, CommitmentProof)| p.1),
                ) % crate::field::prime() == 0
            };
        let pv1 = crate::protocol::party::proofs_view(sp1);
        assert(sorted_by_node(pv1)) by {
            assert forall|i: int, j: int|
                0 <= i < j < pv1.len() implies (#[trigger] pv1[i]).0 <= (#[trigger] pv1[j]).0
                by {
                assert(pv1[i].0 == sp1[i].0);
                assert(pv1[j].0 == sp1[j].0);
            }
        };
        lemma_sorted_distinct_unique(pv, pv1);
        lemma_sorted_distinct_unique(scv, sc1);
        assert forall|i: int|
            0 <= i < spv.len() && i < scv.len() implies (#[trigger] spv[i]).1.0@ == scv[i].1@
            by {
            assert(pv[i] == (spv[i].0, crate::protocol::party::proof_view(spv[i].1)));
            assert(pv1[i] == (sp1[i].0, crate::protocol::party::proof_view(sp1[i].1)));
            assert(spv[i].1.0@ == sp1[i].1.0@);
            assert(sp1[i].1.0@ == sc1[i].1@);
            assert(scv[i] == sc1[i]);
        }
        assert forall|i: int|
            0 <= i < spv.len() implies (#[trigger] spv[i]).1.0@ == crate::shares::sha3_of(
            crate::shares::commit_input(spv[i].1.1, spv[i].1.2@),
        ) by {
            assert(pv[i] == (spv[i].0, crate::protocol::party::proof_view(spv[i].1)));
            assert(pv1[i] == (sp1[i].0, crate::protocol::party::proof_view(sp1[i].1)));
            assert(spv[i].1.0@ == sp1[i].1.0@);
            assert(spv[i].1.1 == sp1[i].1.1);
            assert(spv[i].1.2@ == sp1[i].1.2@);
        }
        let pa = spv.map_values(|p: (NodeId, CommitmentProof)| p.1);
        let pb = sp1.map_values(|p: (NodeId, CommitmentProof)| p.1);
        assert forall|i: int| 0 <= i < pa.len() implies (#[trigger] pa[i]).1 == pb[i].1 by {
            assert(pv[i] == (spv[i].0, crate::protocol::party::proof_view(spv[i].1)));
            assert(pv1[i] == (sp1[i].0, crate::protocol::party::proof_view(sp1[i].1)));
            assert(pa[i] == spv[i].1);
            assert(pb[i] == sp1[i].1);
        }
        lemma_sum_proofs_pointwise(pa, pb);
    }
}

/// The views of a list of circuit-node identifiers.
pub open spec fn id_views(s: Seq<CirId>) -> Seq<Seq<char>> {
    s.map_values(|c: CirId| c@)
}

/// The commands and verdict a failed audit leaves behind: the circuit
/// nodes before the failing one were verified and announced in order; the
/// failing one is named in the verdict; and a ProofInvalid broadcast for
/// it closes the command list, except when the aggregates were not even
/// well paired (a malformed sender set), which aborts silently.
pub open spec fn audit_abort_shape(pre: Node, cmds: Seq<NodeCommands>, cid: CirId) -> bool {
    let audit = pre.audit_ids@;
    if cmds.len() > 0 && (cmds.last() matches NodeCommands::ProofInvalid(c) && c@ == cid@) {
        let m = cmds.len() - 1;
        &&& m < audit.len()
        &&& cid@ == audit[m]@
        &&& (forall|j: int|
            0 <= j < m ==> (#[trigger] cmds[j] matches NodeCommands::ProofVerified(c2) && c2@
                == audit[j]@))
        &&& (forall|j: int|
            0 <= j < m ==> audit_accepted(
                pre.proofs@[(#[trigger] audit[j])@]@,
                pre.commitments@[audit[j]@]@,
            ))
    } else {
        let m = cmds.len() as int;
        &&& m < audit.len()
        &&& cid@ == audit[m]@
        &&& (forall|j: int|
            0 <= j < m ==> (#[trigger] cmds[j] matches NodeCommands::ProofVerified(c2) && c2@
                == audit[j]@))
        &&& (forall|j: int|
            0 <= j < m ==> audit_accepted(
                pre.proofs@[(#[trigger] audit[j])@]@,
                pre.commitments@[audit[j]@]@,
            ))
        &&& !audit_pairable(pre.proofs@[audit[m]@]@, pre.commitments@[audit[m]@]@)
    }
}

impl Node {
    /// Audits every opening this node committed to: for each audited
    /// circuit node, sorts the collected proofs and commitments by party
    /// id, rejects on any id or hash disagreement, on a value in
    /// non-canonical form, or a nonzero sum, and otherwise reports the
    /// node verified. Honest aggregates are always accepted. The first
    /// rejection aborts with that circuit node's identifier, after a
    /// ProofInvalid broadcast for it unless its sender sets were
    /// malformed.
    pub fn check_proofs(&mut self) -> (r: (Vec<NodeCommands>, Result<Vec<CirId>, CirId>))
        requires
            node_wf(*old(self)),
            forall|i: int|
                0 <= i < old(self).audit_ids@.len() ==> old(self).proofs@.contains_key(
                    (#[trigger] old(self).audit_ids@[i])@,
                ) && old(self).commitments@.contains_key(old(self).audit_ids@[i]@),
            forall|i: int, j: int|
                0 <= i < j < old(self).audit_ids@.len() ==> (#[trigger] old(self).audit_ids@[i])@
                    != (#[trigger] old(self).audit_ids@[j])@,
        ensures
            node_wf(*final(self)),
            final(self).calculator == old(self).calculator,
            final(self).audit_ids@ == old(self).audit_ids@,
            node_unchanged_except(*old(self), *final(self), set![F_PROOFS, F_COMMITMENTS]),
            all_audits_honest(*old(self)) ==> r.1 is Ok,
            r.1 matches Ok(ch) ==> {
                &&& ch@.len() == old(self).audit_ids@.len()
                &&& (forall|i: int| 0 <= i < ch@.len() ==> (#[trigger] ch@[i])@ == old(self).audit_ids@[i]@)
                &&& r.0@.len() == ch@.len()
                &&& (forall|i: int|
                    0 <= i < r.0@.len() ==> (#[trigger] r.0@[i]
                        matches NodeCommands::ProofVerified(c) && c@ == old(self).audit_ids@[i]@))
                &&& (forall|i: int|
                    0 <= i < old(self).audit_ids@.len() ==> audit_accepted(
                        old(self).proofs@[(#[trigger] old(self).audit_ids@[i])@]@,
                        old(self).commitments@[old(self).audit_ids@[i]@]@,
                    ))
                &&& (forall|i: int|
                    0 <= i < old(self).audit_ids@.len() ==> !final(self).proofs@.contains_key(
                        (#[trigger] old(self).audit_ids@[i])@,
                    ) && !final(self).commitments@.contains_key(old(self).audit_ids@[i]@))
            },
            r.1 matches Err(cid) ==> id_views(old(self).audit_ids@).contains(cid@)
                && audit_abort_shape(*old(self), r.0@, cid),
            forall|k: Seq<char>|
                #![trigger old(self).proofs@.contains_key(k)]
                #![trigger old(self).commitments@.contains_key(k)]
                !id_views(old(self).audit_ids@).contains(k) ==> final(self).proofs@.contains_key(k) == old(self).proofs@.contains_key(k) && (old(self).proofs@.contains_key(k) ==> final(self).proofs@[k] == old(self).proofs@[k])
                    && final(self).commitments@.contains_key(k) == old(self).commitments@.contains_key(k) && (old(self).commitments@.contains_key(k)
                    ==> final(self).commitments@[k] == old(self).commitments@[k]),
    {
        let n = self.audit_ids.len();
        let mut cmds: Vec<NodeCommands> = Vec::new();
        let mut checked: Vec<CirId> = Vec::new();
        let mut idx: usize = 0;
        while idx < n
            invariant
                idx <= n,
                n == self.audit_ids@.len(),
                node_wf(*self),
                self.calculator == old(self).calculator,
                self.audit_ids@ == old(self).audit_ids@,
                node_unchanged_except(*old(self), *self, set![F_PROOFS, F_COMMITMENTS]),
                forall|i: int|
                    idx <= i < n ==> self.proofs@.contains_key(
                        (#[trigger] self.audit_ids@[i])@,
                    ) && self.commitments@.contains_key(self.audit_ids@[i]@),
                forall|i: int, j: int|
                    0 <= i < j < n ==> (#[trigger] self.audit_ids@[i])@ != (
                    #[trigger] self.audit_ids@[j])@,
                forall|i: int|
                    idx <= i < n ==> self.proofs@[(#[trigger] self.audit_ids@[i])@] == old(self).proofs@[self.audit_ids@[i]@] && self.commitments@[self.audit_ids@[i]@]
                        == old(self).commitments@[self.audit_ids@[i]@],
                forall|i: int|
                    0 <= i < idx ==> !self.proofs@.contains_key(
                        (#[trigger] self.audit_ids@[i])@,
                    ) && !self.commitments@.contains_key(self.audit_ids@[i]@),
                forall|k: Seq<char>|
                    #![trigger old(self).proofs@.contains_key(k)]
                    #![trigger old(self).commitments@.contains_key(k)]
                    !id_views(old(self).audit_ids@).contains(k) ==> self.proofs@.contains_key(k)
                        == old(self).proofs@.contains_key(k) && (old(self).proofs@.contains_key(k) ==> self.proofs@[k] == old(self).proofs@[k])
                        && self.commitments@.contains_key(k) == old(self).commitments@.contains_key(k) && (old(self).commitments@.contains_key(k)
                        ==> self.commitments@[k] == old(self).commitments@[k]),
                checked@.len() == idx,
                forall|i: int|
                    0 <= i < idx ==> (#[trigger] checked@[i])@ == self.audit_ids@[i]@,
                cmds@.len() == idx,
                forall|i: int|
                    0 <= i < idx ==> (#[trigger] cmds@[i] matches NodeCommands::ProofVerified(c)
                        && c@ == self.audit_ids@[i]@),
                forall|i: int|
                    0 <= i < idx ==> audit_accepted(
                        old(self).proofs@[(#[trigger] self.audit_ids@[i])@]@,
                        old(self).commitments@[self.audit_ids@[i]@]@,
                    ),
            decreases n - idx,
        {
            let cid = self.audit_ids[idx].clone();
            let ghost ps_orig = self.proofs@[cid@]@;
            let ghost cs_orig = self.commitments@[cid@]@;
            proof {
                assert(ps_orig == old(self).proofs@[(old(self).audit_ids@[idx as int])@]@);
                assert(cs_orig == old(self).commitments@[old(self).audit_ids@[idx as int]@]@);
                assert(id_views(self.audit_ids@)[idx as int] == cid@);
                assert(id_views(old(self).audit_ids@).contains(cid@));
            }
            let ghost pmap0 = self.proofs@;
            let ghost cmap0 = self.commitments@;
            let proofs_list = match self.proofs.get(cid.as_str()) {
                Some(v) => clone_proof_vec(v),
                None => unreached(),
            };
            self.proofs.remove(cid.as_str());
            let commits = match self.commitments.get(cid.as_str()) {
                Some(v) => clone_commit_vec(v),
                None => unreached(),
            };
            self.commitments.remove(cid.as_str());
            proof {
                assert(self.proofs@ == pmap0.remove(cid@));
                assert(self.commitments@ == cmap0.remove(cid@));
                assert forall|k: Seq<char>|
                    !id_views(old(self).audit_ids@).contains(k) implies self.proofs@.contains_key(
                    k,
                ) == old(self).proofs@.contains_key(k) && (old(self).proofs@.contains_key(k)
                    ==> self.proofs@[k] == old(self).proofs@[k])
                    && self.commitments@.contains_key(k) == old(self).commitments@.contains_key(k)
                    && (old(self).commitments@.contains_key(k) ==> self.commitments@[k] == old(
                    self,
                ).commitments@[k]) by {
                    assert(id_views(old(self).audit_ids@)[idx as int] == cid@);
                    assert(k != cid@);
                    assert(!id_views(old(self).audit_ids@).contains(k));
                    assert(pmap0.contains_key(k) == old(self).proofs@.contains_key(k));
                    assert(self.proofs@.contains_key(k) == pmap0.contains_key(k));
                    assert(self.commitments@.contains_key(k) == cmap0.contains_key(k));
                    assert(pmap0.contains_key(k) ==> self.proofs@[k] == pmap0[k]);
                    assert(cmap0.contains_key(k) ==> self.commitments@[k] == cmap0[k]);
                }
                assert forall|q: int|
                    0 <= q <= idx && q < n implies !self.proofs@.contains_key(
                    (#[trigger] self.audit_ids@[q])@,
                ) && !self.commitments@.contains_key(self.audit_ids@[q]@) by {
                    if q < idx {
                        assert(!pmap0.contains_key(self.audit_ids@[q]@));
                        assert(!cmap0.contains_key(self.audit_ids@[q]@));
                    }
                }
            }
            let ghost clone_v = proofs_list@;
            let sp = sort_by_node(proofs_list);
            let sc = sort_by_node(commits);
            let ghost spv = sp@;
            let ghost scv = sc@;
            proof {
                lemma_map_multiset(
                    spv,
                    clone_v,
                    |p: (NodeId, CommitmentProof)|
                        (p.0, crate::protocol::party::proof_view(p.1)),
                );
                assert(crate::protocol::party::proofs_view(spv).to_multiset()
                    == crate::protocol::party::proofs_view(ps_orig).to_multiset());
            }
            let pn = sp.len();
            let cn = sc.len();
            let limit = if pn < cn {
                pn
            } else {
                cn
            };
            let mut i: usize = 0;
            while i < limit
                invariant
                    i <= limit,
                    limit <= sp@.len(),
                    limit <= sc@.len(),
                    sp@ == spv,
                    sc@ == scv,
                    node_wf(*self),
                    self.calculator == old(self).calculator,
                    self.audit_ids@ == old(self).audit_ids@,
                    node_unchanged_except(*old(self), *self, set![F_PROOFS, F_COMMITMENTS]),
                    id_views(old(self).audit_ids@).contains(cid@),
                    cmds@.len() == idx,
                    checked@.len() == idx,
                    idx < n,
                    n == self.audit_ids@.len(),
                    cid@ == old(self).audit_ids@[idx as int]@,
                    ps_orig == old(self).proofs@[(old(self).audit_ids@[idx as int])@]@,
                    cs_orig == old(self).commitments@[old(self).audit_ids@[idx as int]@]@,
                    crate::protocol::party::proofs_view(spv).to_multiset()
                        == crate::protocol::party::proofs_view(ps_orig).to_multiset(),
                    scv.to_multiset() == cs_orig.to_multiset(),
                    sorted_by_node(spv),
                    sorted_by_node(scv),
                    forall|q: int|
                        0 <= q < idx ==> (#[trigger] checked@[q])@ == self.audit_ids@[q]@,
                    forall|q: int|
                        0 <= q < idx ==> (#[trigger] cmds@[q]
                            matches NodeCommands::ProofVerified(c) && c@ == self.audit_ids@[q]@),
                    forall|q: int|
                        0 <= q < idx ==> audit_accepted(
                            old(self).proofs@[(#[trigger] self.audit_ids@[q])@]@,
                            old(self).commitments@[self.audit_ids@[q]@]@,
                        ),
                    forall|q: int|
                        0 <= q <= idx && q < n ==> !self.proofs@.contains_key(
                            (#[trigger] self.audit_ids@[q])@,
                        ) && !self.commitments@.contains_key(self.audit_ids@[q]@),
                    forall|k: Seq<char>|
                        #![trigger old(self).proofs@.contains_key(k)]
                        #![trigger old(self).commitments@.contains_key(k)]
                        !id_views(old(self).audit_ids@).contains(k)
                            ==> self.proofs@.contains_key(k) == old(self).proofs@.contains_key(k)
                            && (old(self).proofs@.contains_key(k) ==> self.proofs@[k] == old(self).proofs@[k]) && self.commitments@.contains_key(k) == old(self).commitments@.contains_key(k) && (old(self).commitments@.contains_key(k)
                            ==> self.commitments@[k] == old(self).commitments@[k]),
                    forall|j: int|
                        0 <= j < i ==> (#[trigger] spv[j]).0 == scv[j].0 && spv[j].1.0@
                            == scv[j].1@,
                decreases limit - i,
            {
                if sp[i].0 != sc[i].0 {
                    proof {
                        if audit_pairable(ps_orig, cs_orig) {
                            lemma_exec_matches_witness(ps_orig, cs_orig, spv, scv);
                            assert(false);
                        }
                        lemma_refute_honest(*old(self), idx as int, ps_orig, cs_orig);
                        assert(audit_abort_shape(*old(self), cmds@, cid)) by {
                            if idx > 0 {
                                assert(cmds@.last() matches NodeCommands::ProofVerified(c) && c@
                                    == old(self).audit_ids@[idx - 1]@);
                            }
                        };
                    }
                    return (cmds, Err(cid));
                }
                if !crate::shares::hash_eq(&sp[i].1.0, &sc[i].1) {
                    proof {
                        if audit_honest(ps_orig, cs_orig) {
                            lemma_exec_matches_witness(ps_orig, cs_orig, spv, scv);
                            assert(spv[i as int].1.0@ == scv[i as int].1@);
                            assert(false);
                        }
                        lemma_refute_honest(*old(self), idx as int, ps_orig, cs_orig);
                    }
                    let ghost cmds0 = cmds@;
                    cmds.push(NodeCommands::ProofInvalid(cid.clone()));
                    proof {
                        assert(cmds@.last() matches NodeCommands::ProofInvalid(c) && c@ == cid@);
                        assert(forall|j: int| 0 <= j < cmds0.len() ==> cmds@[j] == cmds0[j]);
                        assert(audit_abort_shape(*old(self), cmds@, cid));
                    }
                    return (cmds, Err(cid));
                }
                i = i + 1;
            }
            let mut plist: Vec<CommitmentProof> = Vec::new();
            let mut sp_rest = sp;
            while sp_rest.len() > 0
                invariant
                    plist@.len() + sp_rest@.len() == spv.len(),
                    sp_rest@ == spv.skip(plist@.len() as int),
                    plist@ == spv.take(plist@.len() as int).map_values(
                        |p: (NodeId, CommitmentProof)| p.1,
                    ),
                    node_wf(*self),
                    self.calculator == old(self).calculator,
                    self.audit_ids@ == old(self).audit_ids@,
                    node_unchanged_except(*old(self), *self, set![F_PROOFS, F_COMMITMENTS]),
                    id_views(old(self).audit_ids@).contains(cid@),
                    cmds@.len() == idx,
                    checked@.len() == idx,
                    idx < n,
                    n == self.audit_ids@.len(),
                    cid@ == old(self).audit_ids@[idx as int]@,
                    ps_orig == old(self).proofs@[(old(self).audit_ids@[idx as int])@]@,
                    cs_orig == old(self).commitments@[old(self).audit_ids@[idx as int]@]@,
                    crate::protocol::party::proofs_view(spv).to_multiset()
                        == crate::protocol::party::proofs_view(ps_orig).to_multiset(),
                    scv.to_multiset() == cs_orig.to_multiset(),
                    sorted_by_node(spv),
                    sorted_by_node(scv),
                    forall|q: int|
                        0 <= q < idx ==> (#[trigger] checked@[q])@ == self.audit_ids@[q]@,
                    forall|q: int|
                        0 <= q < idx ==> (#[trigger] cmds@[q]
                            matches NodeCommands::ProofVerified(c) && c@ == self.audit_ids@[q]@),
                    forall|q: int|
                        0 <= q < idx ==> audit_accepted(
                            old(self).proofs@[(#[trigger] self.audit_ids@[q])@]@,
                            old(self).commitments@[self.audit_ids@[q]@]@,
                        ),
                    forall|q: int|
                        0 <= q <= idx && q < n ==> !self.proofs@.contains_key(
                            (#[trigger] self.audit_ids@[q])@,
                        ) && !self.commitments@.contains_key(self.audit_ids@[q]@),
                    forall|k: Seq<char>|
                        #![trigger old(self).proofs@.contains_key(k)]
                        #![trigger old(self).commitments@.contains_key(k)]
                        !id_views(old(self).audit_ids@).contains(k)
                            ==> self.proofs@.contains_key(k) == old(self).proofs@.contains_key(k)
                            && (old(self).proofs@.contains_key(k) ==> self.proofs@[k] == old(self).proofs@[k]) && self.commitments@.contains_key(k) == old(self).commitments@.contains_key(k) && (old(self).commitments@.contains_key(k)
                            ==> self.commitments@[k] == old(self).commitments@[k]),
                    forall|j: int|
                        0 <= j < plist@.len() ==> (#[trigger] plist@[j]).1.wf(),
                decreases sp_rest@.len(),
            {
                let ghost done = plist@.len() as int;
                let p = sp_rest.remove(0);
                proof {
                    assert(p == spv[done]);
                    assert(sp_rest@ =~= spv.skip(done + 1));
                }
                if !p.1.1.is_canonical() {
                    proof {
                        if audit_pairable(ps_orig, cs_orig) {
                            lemma_exec_matches_witness(ps_orig, cs_orig, spv, scv);
                            assert(spv[done].1.1.wf());
                            assert(false);
                        }
                        lemma_refute_honest(*old(self), idx as int, ps_orig, cs_orig);
                    }
                    let ghost cmds0 = cmds@;
                    cmds.push(NodeCommands::ProofInvalid(cid.clone()));
                    proof {
                        assert(cmds@.last() matches NodeCommands::ProofInvalid(c) && c@ == cid@);
                        assert(forall|j: int| 0 <= j < cmds0.len() ==> cmds@[j] == cmds0[j]);
                        assert(audit_abort_shape(*old(self), cmds@, cid));
                    }
                    return (cmds, Err(cid));
                }
                plist.push(p.1);
                proof {
                    assert(plist@ =~= spv.take(done + 1).map_values(
                        |q: (NodeId, CommitmentProof)| q.1,
                    ));
                }
            }
            proof {
                assert(spv.take(spv.len() as int) =~= spv);
            }
            if !crate::protocol::arithmetics::verify_commitments(&plist) {
                proof {
                    if audit_honest(ps_orig, cs_orig) {
                        lemma_exec_matches_witness(ps_orig, cs_orig, spv, scv);
                        let pf = |p: (NodeId, CommitmentProof)| p.1;
                        assert(plist@ == spv.map_values(pf));
                        assert forall|j: int|
                            0 <= j < plist@.len() implies (#[trigger] plist@[j]).0@
                            == crate::shares::sha3_of(
                            crate::shares::commit_input(plist@[j].1, plist@[j].2@),
                        ) by {
                            assert(plist@[j] == spv[j].1);
                        }
                        assert(crate::protocol::arithmetics::sum_elems_nat_of_proofs(plist@)
                            % crate::field::prime() == 0) by {
                            assert(spv.map_values(pf) == plist@);
                        };
                        assert(false);
                    }
                    lemma_refute_honest(*old(self), idx as int, ps_orig, cs_orig);
                }
                let ghost cmds0 = cmds@;
                cmds.push(NodeCommands::ProofInvalid(cid.clone()));
                proof {
                    assert(cmds@.last() matches NodeCommands::ProofInvalid(c) && c@ == cid@);
                    assert(forall|j: int| 0 <= j < cmds0.len() ==> cmds@[j] == cmds0[j]);
                    assert(audit_abort_shape(*old(self), cmds@, cid));
                }
                return (cmds, Err(cid));
            }
            proof {
                let pf = |p: (NodeId, CommitmentProof)| p.1;
                assert(plist@ == spv.map_values(pf));
                assert forall|j: int|
                    0 <= j < spv.len() implies (#[trigger] spv[j]).1.0@ == crate::shares::sha3_of(
                    crate::shares::commit_input(spv[j].1.1, spv[j].1.2@),
                ) by {
                    assert(plist@[j] == spv[j].1);
                }
                assert(crate::protocol::arithmetics::sum_elems_nat_of_proofs(
                    spv.map_values(|p: (NodeId, CommitmentProof)| p.1),
                ) % crate::field::prime() == 0) by {
                    assert(spv.map_values(|p: (NodeId, CommitmentProof)| p.1) == plist@);
                };
                assert(audit_accepted(ps_orig, cs_orig));
            }
            cmds.push(NodeCommands::ProofVerified(cid.clone()));
            checked.push(cid);
            idx = idx + 1;
        }
        (cmds, Ok(checked))
    }
}

/// An aggregate that is not honest refutes the blanket honesty of a node's
/// audits.
proof fn lemma_refute_honest(
    pre: Node,
    m: int,
    ps: Seq<(NodeId, CommitmentProof)>,
    cs: Seq<(NodeId, Commitment)>,
)
    requires
        0 <= m < pre.audit_ids@.len(),
        ps == pre.proofs@[(pre.audit_ids@[m])@]@,
        cs == pre.commitments@[pre.audit_ids@[m]@]@,
        !audit_honest(ps, cs),
    ensures
        !all_audits_honest(pre),
{
    if all_audits_honest(pre) {
        assert(audit_honest(
            pre.proofs@[(pre.audit_ids@[m])@]@,
            pre.commitments@[pre.audit_ids@[m]@]@,
        ));
    }
}

/// Copies a vector of tagged opened commitments, value for value.
fn clone_proof_vec(v: &Vec<(NodeId, CommitmentProof)>) -> (r: Vec<(NodeId, CommitmentProof)>)
    ensures
        r@.len() == v@.len(),
        crate::protocol::party::proofs_view(r@) == crate::protocol::party::proofs_view(v@),
{
    let mut out: Vec<(NodeId, CommitmentProof)> = Vec::new();
    let n = v.len();
    let mut i: usize = 0;
    while i < n
        invariant
            i <= n,
            n == v@.len(),
            out@.len() == i,
            forall|j: int|
                0 <= j < i ==> (#[trigger] out@[j]).0 == v@[j].0
                    && crate::protocol::party::proof_view(out@[j].1)
                    == crate::protocol::party::proof_view(v@[j].1),
        decreases n - i,
    {
        let p = &v[i];
        let mut salt: Vec<u8> = Vec::new();
        let m = p.1.2.len();
        let mut k: usize = 0;
        while k < m
            invariant
                k <= m,
                m == p.1.2@.len(),
                salt@ == p.1.2@.take(k as int),
            decreases m - k,
        {
            salt.push(p.1.2[k]);
            proof {
                assert(p.1.2@.take(k + 1) =~= p.1.2@.take(k as int).push(p.1.2@[k as int]));
            }
            k = k + 1;
        }
        proof {
            assert(p.1.2@.take(m as int) =~= p.1.2@);
        }
        out.push((p.0, (p.1.0, p.1.1, salt)));
        i = i + 1;
    }
    proof {
        assert(crate::protocol::party::proofs_view(out@) =~= crate::protocol::party::proofs_view(
            v@,
        ));
    }
    out
}

/// Copies a vector of tagged commitments.
fn clone_commit_vec(v: &Vec<(NodeId, Commitment)>) -> (r: Vec<(NodeId, Commitment)>)
    ensures
        r@ == v@,
{
    let mut out: Vec<(NodeId, Commitment)> = Vec::new();
    let n = v.len();
    let mut i: usize = 0;
    while i < n
        invariant
            i <= n,
            n == v@.len(),
            out@ == v@.take(i as int),
        decreases n - i,
    {
        out.push(v[i]);
        proof {
            assert(v@.take(i + 1) =~= v@.take(i as int).push(v@[i as int]));
        }
        i = i + 1;
    }
    proof {
        assert(v@.take(n as int) =~= v@);
    }
    out
}

impl Node {
    /// Opens the final share: moves the evaluated result under the audit's
    /// eye and broadcasts it.
    pub fn open_final(&mut self, last_id: &CirId) -> (r: Vec<NodeCommands>)
        requires
            node_wf(*old(self)),
            old(self).evaluated@.contains_key(last_id@),
        ensures
            node_wf(*final(self)),
            final(self).calculator == old(self).calculator,
            final(self).evaluated@ == old(self).evaluated@.remove(last_id@),
            final(self).original_shares@ == old(self).original_shares@.insert(
                last_id@,
                old(self).evaluated@[last_id@],
            ),
            r@.len() == 1,
            r@[0] matches NodeCommands::OpenShare(s, c) && s == old(self).evaluated@[last_id@]
                && c@ == last_id@,
            node_unchanged_except(*old(self), *final(self), set![F_EVALUATED, F_ORIGINAL]),
    {
        let ev = match self.evaluated.get(last_id.as_str()) {
            Some(v) => *v,
            None => unreached(),
        };
        self.evaluated.remove(last_id.as_str());
        self.original_shares.insert(last_id.clone(), ev);
        let mut out: Vec<NodeCommands> = Vec::new();
        out.push(NodeCommands::OpenShare(ev, last_id.clone()));
        out
    }

    /// Concludes the final opening: sums the collected shares to the
    /// result, reads it as a machine integer when it fits, and starts the
    /// second audit round by committing to d = alpha*result - m(result).
    /// Own proofs of the first round are cleared; the final opening is the
    /// only circuit node the second round audits.
    pub fn compute_final(&mut self, last_id: &CirId) -> (r: (
        Vec<NodeCommands>,
        Option<u64>,
    ))
        requires
            node_wf(*old(self)),
            old(self).calculator is Some,
            old(self).fully_open@.contains_key(last_id@),
            old(self).original_shares@.contains_key(last_id@),
        ensures
            node_wf(*final(self)),
            final(self).calculator == old(self).calculator,
            ({
                let c = old(self).calculator->0;
                let total = crate::shares::sum_fst(old(self).fully_open@[last_id@]@)
                    % crate::field::prime();
                &&& (r.1 matches Some(v) ==> total == v)
                &&& (r.1 is None ==> total >= crate::field::b64())
                &&& final(self).fully_open@ == old(self).fully_open@.remove(last_id@)
                &&& final(self).original_shares@ == old(self).original_shares@.remove(last_id@)
                &&& final(self).my_proofs@.contains_key(last_id@)
                &&& audit_proof_ok(
                    final(self).my_proofs@[last_id@],
                    c.alpha_share.as_nat(),
                    total,
                    old(self).original_shares@[last_id@].1.as_nat(),
                )
                &&& final(self).audit_ids@.len() == 1
                &&& final(self).audit_ids@[0]@ == last_id@
                &&& r.0@.len() == 1
                &&& (r.0@[0] matches NodeCommands::CommitmentFor(cc, h) && cc@ == last_id@ && h@
                    == final(self).my_proofs@[last_id@].0@)
            }),
    {
        let shares = match self.fully_open.get(last_id.as_str()) {
            Some(v) => clone_share_vec(v),
            None => unreached(),
        };
        self.fully_open.remove(last_id.as_str());
        let ev_elem = sum_opened(&shares);
        let n = ev_elem.try_as_u64();
        let orig = match self.original_shares.get(last_id.as_str()) {
            Some(s) => *s,
            None => unreached(),
        };
        self.original_shares.remove(last_id.as_str());
        let calc = match &self.calculator {
            Some(c) => c,
            None => unreached(),
        };
        let ev_x = calc.generate_commitment_share(ev_elem, orig);
        let (ev_hash, ev_salt) = Calculator::generate_commitment(&ev_x);
        let ev_proof = (ev_hash, ev_x, ev_salt);
        self.my_proofs.clear();
        self.my_proofs.insert(last_id.clone(), ev_proof);
        self.audit_ids = Vec::new();
        self.audit_ids.push(last_id.clone());
        let mut out: Vec<NodeCommands> = Vec::new();
        out.push(NodeCommands::CommitmentFor(last_id.clone(), ev_hash));
        (out, n)
    }

    /// The broadcast of every own proof, in audit order.
    pub fn proofs_to_send(&self) -> (r: Vec<NodeCommands>)
        requires
            forall|i: int|
                0 <= i < self.audit_ids@.len() ==> self.my_proofs@.contains_key(
                    (#[trigger] self.audit_ids@[i])@,
                ),
        ensures
            r@.len() == self.audit_ids@.len(),
            forall|i: int|
                0 <= i < r@.len() ==> (#[trigger] r@[i] matches NodeCommands::ProofFor(c, p)
                    && c@ == self.audit_ids@[i]@ && crate::protocol::party::proof_view(p)
                    == crate::protocol::party::proof_view(
                    self.my_proofs@[self.audit_ids@[i]@],
                )),
    {
        let mut out: Vec<NodeCommands> = Vec::new();
        let n = self.audit_ids.len();
        let mut i: usize = 0;
        while i < n
            invariant
                i <= n,
                n == self.audit_ids@.len(),
                forall|j: int|
                    0 <= j < n ==> self.my_proofs@.contains_key(
                        (#[trigger] self.audit_ids@[j])@,
                    ),
                out@.len() == i,
                forall|j: int|
                    0 <= j < i ==> (#[trigger] out@[j] matches NodeCommands::ProofFor(c, p) && c@
                        == self.audit_ids@[j]@ && crate::protocol::party::proof_view(p)
                        == crate::protocol::party::proof_view(
                        self.my_proofs@[self.audit_ids@[j]@],
                    )),
            decreases n - i,
        {
            let cid = self.audit_ids[i].clone();
            let p = match self.my_proofs.get(cid.as_str()) {
                Some(p) => p,
                None => unreached(),
            };
            let mut salt: Vec<u8> = Vec::new();
            let m = p.2.len();
            let mut k: usize = 0;
            while k < m
                invariant
                    k <= m,
                    m == p.2@.len(),
                    salt@ == p.2@.take(k as int),
                decreases m - k,
            {
                salt.push(p.2[k]);
                proof {
                    assert(p.2@.take(k + 1) =~= p.2@.take(k as int).push(p.2@[k as int]));
                }
                k = k + 1;
            }
            proof {
                assert(p.2@.take(m as int) =~= p.2@);
            }
            let copy = (p.0, p.1, salt);
            out.push(NodeCommands::ProofFor(cid, copy));
            i = i + 1;
        }
        out
    }

    /// Whether every audited circuit node has everyone's proofs and
    /// commitments in.
    pub fn audit_ready(&self) -> (r: bool)
        ensures
            r == forall|i: int|
                0 <= i < self.audit_ids@.len() ==> self.proofs@.contains_key(
                    (#[trigger] self.audit_ids@[i])@,
                ) && self.commitments@.contains_key(self.audit_ids@[i]@),
    {
        let n = self.audit_ids.len();
        let mut i: usize = 0;
        while i < n
            invariant
                i <= n,
                n == self.audit_ids@.len(),
                forall|j: int|
                    0 <= j < i ==> self.proofs@.contains_key((#[trigger] self.audit_ids@[j])@)
                        && self.commitments@.contains_key(self.audit_ids@[j]@),
            decreases n - i,
        {
            if !self.proofs.contains_key(self.audit_ids[i].as_str()) {
                return false;
            }
            if !self.commitments.contains_key(self.audit_ids[i].as_str()) {
                return false;
            }
            i = i + 1;
        }
        true
    }

    /// Whether an opening's shares are all in.
    pub fn has_fully_open(&self, cid: &CirId) -> (r: bool)
        ensures
            r == self.fully_open@.contains_key(cid@),
    {
        self.fully_open.contains_key(cid.as_str())
    }

    /// Whether a circuit node's commitments are all in.
    pub fn has_commitments(&self, cid: &CirId) -> (r: bool)
        ensures
            r == self.commitments@.contains_key(cid@),
    {
        self.commitments.contains_key(cid.as_str())
    }

    /// Whether some party rejected any audit.
    pub fn saw_invalid(&self) -> (r: bool)
        ensures
            r == !self.invalid_proofs@.is_empty(),
    {
        !self.invalid_proofs.is_empty()
    }

    /// Whether every listed circuit node was accepted by all parties.
    pub fn all_valid(&self, ids: &Vec<CirId>) -> (r: bool)
        ensures
            r == forall|i: int|
                0 <= i < ids@.len() ==> self.valid_proofs@.contains((#[trigger] ids@[i])@),
    {
        let n = ids.len();
        let mut i: usize = 0;
        while i < n
            invariant
                i <= n,
                n == ids@.len(),
                forall|j: int|
                    0 <= j < i ==> self.valid_proofs@.contains((#[trigger] ids@[j])@),
            decreases n - i,
        {
            if !self.valid_proofs.contains(ids[i].as_str()) {
                return false;
            }
            i = i + 1;
        }
        true
    }
}

/// What combining a variable does: with both parts present they are
/// consumed and the evaluated share appears; with either missing nothing
/// changes.
pub open spec fn combine_outcome(pre: Node, post: Node, key: Seq<char>) -> bool {
    &&& post.calculator == pre.calculator
    &&& if pre.variable_salts@.contains_key(key) && pre.variable_shares@.contains_key(key) {
        &&& post.variable_shares@ == pre.variable_shares@.remove(key)
        &&& post.variable_salts@ == pre.variable_salts@.remove(key)
        &&& post.evaluated@.contains_key(key)
        &&& post.evaluated@ == pre.evaluated@.insert(key, post.evaluated@[key])
        &&& ({
            let v = post.evaluated@[key];
            let c = pre.calculator->0;
            (v.0.as_nat(), v.1.as_nat()) == combined_share(
                c,
                pre.variable_shares@[key],
                pre.variable_salts@[key],
            )
        })
        &&& node_unchanged_except(
            pre,
            post,
            set![F_EVALUATED, F_VAR_SHARES, F_VAR_SALTS],
        )
    } else {
        node_unchanged_except(pre, post, Set::empty())
    }
}

} // verus!
