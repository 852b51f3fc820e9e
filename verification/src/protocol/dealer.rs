//! The trusted dealer: the single source of the MAC key shares, of Beaver
//! triples keyed by circuit node, and of the masks that share input
//! variables.
//!
//! The dealer holds no channels itself; each command handler returns the
//! events to deliver, tagged with their recipients.

use vstd::prelude::*;
use vstd::hash_map::StringHashMap;
use vstd::hash_set::StringHashSet;
use crate::field::{mulp, prime, Fp};
use crate::protocol::{DealerCommands, DealerEvents, NodeId};
use crate::shares::{
    all_wf, beaver_wf, elems_from_secret, random_beaver, shares_from_secret, sum_elems_nat,
    sum_fst, sum_snd, BeaverShare, Elem, Elems, Share,
};

verus! {

/// A consistent batch of per-party Beaver shares under the given alpha
/// shares: the element sums hide a, b and a*b, and each component's MAC
/// shares sum to alpha times it.
pub open spec fn beaver_batch_ok(bv: Seq<BeaverShare>, alpha: Seq<Elem>, n: nat) -> bool {
    let a = crate::protocol::arithmetics::beaver_a(bv);
    let b = crate::protocol::arithmetics::beaver_b(bv);
    let c = crate::protocol::arithmetics::beaver_c(bv);
    &&& bv.len() == n
    &&& beaver_wf(bv)
    &&& (sum_fst(a) % prime()) * (sum_fst(b) % prime()) % prime() == sum_fst(c) % prime()
    &&& sum_snd(a) % prime() == (sum_elems_nat(alpha) * (sum_fst(a) % prime())) % prime()
    &&& sum_snd(b) % prime() == (sum_elems_nat(alpha) * (sum_fst(b) % prime())) % prime()
    &&& sum_snd(c) % prime() == (sum_elems_nat(alpha) * (sum_fst(c) % prime())) % prime()
}

/// The trusted dealer's state.
pub struct TrustedDealer {
    /// How many parties take part.
    pub n_parties: u8,
    /// The MAC key and its per-party shares.
    pub alpha: (Elem, Elems),
    /// The cached Beaver batch of each multiplication node.
    pub beavers: StringHashMap<Vec<BeaverShare>>,
    /// The circuit nodes whose input mask was already dealt.
    pub variables_owned: StringHashSet,
}

impl TrustedDealer {
    /// The dealer's data is consistent: the alpha shares sum to the key,
    /// and every cached batch is a consistent triple sharing.
    pub open spec fn wf(self) -> bool {
        &&& self.n_parties >= 1
        &&& self.alpha.0.wf()
        &&& self.alpha.1@.len() == self.n_parties
        &&& all_wf(self.alpha.1@)
        &&& sum_elems_nat(self.alpha.1@) % prime() == self.alpha.0.as_nat()
        &&& (forall|k: Seq<char>|
            self.beavers@.contains_key(k) ==> beaver_batch_ok(
                (#[trigger] self.beavers@[k])@,
                self.alpha.1@,
                self.n_parties as nat,
            ))
    }

    /// A fresh dealer for n parties: it samples the MAC key and splits it
    /// into additive shares.
    pub fn new(n_parties: u8) -> (r: TrustedDealer)
        requires
            n_parties >= 1,
        ensures
            r.wf(),
            r.n_parties == n_parties,
            r.beavers@ == Map::<Seq<char>, Vec<BeaverShare>>::empty(),
            r.variables_owned@ == Set::<Seq<char>>::empty(),
    {
        let a = Fp::random();
        let shares = elems_from_secret(&a, n_parties);
        TrustedDealer {
            n_parties,
            alpha: (a, shares),
            beavers: StringHashMap::new(),
            variables_owned: StringHashSet::new(),
        }
    }

    /// Handles one command from the party of the given node.
    ///
    /// A Beaver request draws and caches one batch per circuit node and
    /// always answers from the cache, so repeated requests from any party
    /// see the same triple. An alpha request is answered with the
    /// requester's share. A self-input request is honored only for its
    /// first requester: the mask r is sampled and shared, every other
    /// party gets its share of [r], the owner gets r and its own share.
    pub fn handle_command(&mut self, node_id: NodeId, cmd: DealerCommands) -> (r: Vec<
        (NodeId, DealerEvents),
    >)
        requires
            old(self).wf(),
            node_id < old(self).n_parties,
        ensures
            final(self).wf(),
            final(self).n_parties == old(self).n_parties,
            final(self).alpha == old(self).alpha,
            match cmd {
                DealerCommands::BeaverFor(cid) => {
                    &&& final(self).variables_owned@ == old(self).variables_owned@
                    &&& (old(self).beavers@.contains_key(cid@) ==> final(self).beavers@ == old(self).beavers@)
                    &&& final(self).beavers@.contains_key(cid@)
                    &&& (forall|k: Seq<char>|
                        k != cid@ ==> old(self).beavers@.contains_key(k) == final(self).beavers@.contains_key(k) && (old(self).beavers@.contains_key(k)
                            ==> old(self).beavers@[k] == final(self).beavers@[k]))
                    &&& r@.len() == 1
                    &&& (r@[0].0 == node_id && (r@[0].1 matches DealerEvents::BeaverSharesFor(
                        c,
                        b,
                    ) && c@ == cid@ && b == final(self).beavers@[cid@]@[node_id as int]))
                },
                DealerCommands::NeedAlpha => {
                    &&& final(self).beavers@ == old(self).beavers@
                    &&& final(self).variables_owned@ == old(self).variables_owned@
                    &&& r@.len() == 1
                    &&& (r@[0].0 == node_id && (r@[0].1 matches DealerEvents::Alpha(e) && e == old(self).alpha.1@[node_id as int]))
                },
                DealerCommands::NodeOpenSelfInput(cid) => {
                    &&& final(self).beavers@ == old(self).beavers@
                    &&& (old(self).variables_owned@.contains(cid@) ==> r@.len() == 0 && final(self).variables_owned@ == old(self).variables_owned@)
                    &&& (!old(self).variables_owned@.contains(cid@) ==> final(self).variables_owned@ == old(self).variables_owned@.insert(cid@)
                        && mask_events_ok(
                        r@,
                        cid@,
                        node_id,
                        old(self).n_parties as nat,
                        old(self).alpha.1@,
                    ))
                },
            },
    {
        match cmd {
            DealerCommands::BeaverFor(cid) => {
                if !self.beavers.contains_key(cid.as_str()) {
                    let batch = random_beaver(&self.alpha.1, self.n_parties);
                    self.beavers.insert(cid.clone(), batch);
                }
                let batch = match self.beavers.get(cid.as_str()) {
                    Some(b) => b,
                    None => unreached(),
                };
                let triple = batch[node_id as usize];
                let mut out: Vec<(NodeId, DealerEvents)> = Vec::new();
                out.push((node_id, DealerEvents::BeaverSharesFor(cid, triple)));
                out
            },
            DealerCommands::NeedAlpha => {
                let share = self.alpha.1[node_id as usize];
                let mut out: Vec<(NodeId, DealerEvents)> = Vec::new();
                out.push((node_id, DealerEvents::Alpha(share)));
                out
            },
            DealerCommands::NodeOpenSelfInput(cid) => {
                let mut out: Vec<(NodeId, DealerEvents)> = Vec::new();
                if self.variables_owned.contains(cid.as_str()) {
                    return out;
                }
                self.variables_owned.insert(cid.clone());
                let rr = Fp::random();
                let shares = shares_from_secret(&rr, &self.alpha.1, self.n_parties);
                let n = self.n_parties;
                let mut i: u8 = 0;
                while i < n
                    invariant
                        i <= n,
                        n >= 1,
                        node_id < n,
                        shares@.len() == n,
                        out@.len() == if i <= node_id {
                            i as int
                        } else {
                            i - 1
                        },
                        forall|j: int|
                            0 <= j < out@.len() ==> {
                                let rec = nonowner_at(j, node_id);
                                (#[trigger] out@[j]).0 == rec && (out@[j].1
                                    matches DealerEvents::NodeVariableShared(c, s) && c@ == cid@
                                    && s == shares@[rec as int])
                            },
                    decreases n - i,
                {
                    if i as u64 != node_id {
                        out.push((i as u64, DealerEvents::NodeVariableShared(cid.clone(), shares[i as usize])));
                    }
                    i = i + 1;
                }
                out.push((node_id, DealerEvents::NodeSelfVariable(cid, rr, shares[node_id as usize])));
                proof {
                    lemma_mask_events(
                        out@,
                        cid@,
                        node_id,
                        self.n_parties as nat,
                        self.alpha.1@,
                        shares@,
                        rr,
                    );
                }
                out
            },
        }
    }
}

/// The recipient of the j-th non-owner event: the parties in order,
/// skipping the owner.
pub open spec fn nonowner_at(j: int, owner: NodeId) -> NodeId {
    if j < owner {
        j as NodeId
    } else {
        (j + 1) as NodeId
    }
}

/// The events that deal one input mask: every party other than the owner
/// receives its share of [r], in order of party id, and the owner receives
/// last the mask r together with its own share. The shares split some
/// well-formed mask r under the given alpha shares.
pub open spec fn mask_events_ok(
    r: Seq<(NodeId, DealerEvents)>,
    key: Seq<char>,
    owner: NodeId,
    n: nat,
    alpha: Seq<Elem>,
) -> bool {
    exists|sh: Seq<Share>, rv: Elem|
        {
            &&& sh.len() == n
            &&& crate::shares::all_shares_wf(sh)
            &&& rv.wf()
            &&& sum_fst(sh) % prime() == rv.as_nat()
            &&& (forall|i: int|
                0 <= i < n ==> (#[trigger] sh[i]).1.as_nat() == mulp(
                    alpha[i].as_nat(),
                    rv.as_nat(),
                ))
            &&& r.len() == n
            &&& (forall|j: int|
                0 <= j < n - 1 ==> {
                    let rec = nonowner_at(j, owner);
                    (#[trigger] r[j]).0 == rec && (r[j].1
                        matches DealerEvents::NodeVariableShared(c, s) && c@ == key && s == sh[rec as int])
                })
            &&& (r[r.len() - 1].0 == owner && (r[r.len() - 1].1
                matches DealerEvents::NodeSelfVariable(c, m, s) && c@ == key && m == rv && s == sh[owner as int]))
        }
}

/// Packages the dealt events under the existential the contract states.
proof fn lemma_mask_events(
    r: Seq<(NodeId, DealerEvents)>,
    key: Seq<char>,
    owner: NodeId,
    n: nat,
    alpha: Seq<Elem>,
    sh: Seq<Share>,
    rv: Elem,
)
    requires
        sh.len() == n,
        n >= 1,
        owner < n,
        alpha.len() == n,
        crate::shares::all_shares_wf(sh),
        rv.wf(),
        sum_fst(sh) % prime() == rv.as_nat(),
        forall|i: int|
            0 <= i < n ==> (#[trigger] sh[i]).1.as_nat() == (alpha[i].as_nat() * rv.as_nat())
                % prime(),
        r.len() == n,
        forall|j: int|
            0 <= j < n - 1 ==> {
                let rec = nonowner_at(j, owner);
                (#[trigger] r[j]).0 == rec && (r[j].1
                    matches DealerEvents::NodeVariableShared(c, s) && c@ == key && s == sh[rec as int])
            },
        r[r.len() - 1].0 == owner,
        r[r.len() - 1].1 matches DealerEvents::NodeSelfVariable(c, m, s) && c@ == key && m == rv
            && s == sh[owner as int],
    ensures
        mask_events_ok(r, key, owner, n, alpha),
{
    assert(forall|i: int|
        0 <= i < n ==> (#[trigger] sh[i]).1.as_nat() == mulp(alpha[i].as_nat(), rv.as_nat()));
}

} // verus!
