//! The local share algebra of one party, and the laws that tie the
//! per-party results to the shared secrets.
//!
//! Every operation is a pure function of the party's own shares, its party
//! id, and its share of the MAC key alpha. The proof functions at the end
//! state the additive invariant: summed over the parties, each operation's
//! results still share the expected secret and its MAC.

use vstd::prelude::*;
use vstd::arithmetic::div_mod::{
    lemma_add_mod_noop, lemma_add_mod_noop_right, lemma_mod_twice, lemma_mul_mod_noop_general,
    lemma_mul_mod_noop_left, lemma_mul_mod_noop_right, lemma_small_mod,
};
use vstd::arithmetic::mul::lemma_mul_is_distributive_add_other_way;
use crate::field::{addp, mulp, prime, subp, Fp};
use crate::protocol::NodeId;
use crate::shares::{
    commit_input, compute_commitment, hash_eq, random_salt, sha3_of, sum_fst, sum_snd,
    BeaverShare, CommitmentProof, Elem, Salt, Share,
};

verus! {

/// One party's calculator: its id and its share of the MAC key.
pub struct Calculator {
    /// The id of the party this calculator computes for.
    pub id: NodeId,
    /// The party's share of the global MAC key.
    pub alpha_share: Elem,
}

impl Calculator {
    /// A calculator for the node with the given id and alpha share.
    pub fn new(id: NodeId, alpha: Elem) -> (r: Calculator)
        requires
            alpha.wf(),
        ensures
            r.id == id,
            r.alpha_share == alpha,
            r.wf(),
    {
        Calculator { id, alpha_share: alpha }
    }

    /// The alpha share is a field element.
    pub open spec fn wf(self) -> bool {
        self.alpha_share.wf()
    }

    /// The sum of two shares: a share of x + y.
    pub fn add(&self, share_1: Share, share_2: Share) -> (r: Share)
        requires
            share_1.0.wf() && share_1.1.wf() && share_2.0.wf() && share_2.1.wf(),
        ensures
            r.0.wf() && r.1.wf(),
            r.0.as_nat() == addp(share_1.0.as_nat(), share_2.0.as_nat()),
            r.1.as_nat() == addp(share_1.1.as_nat(), share_2.1.as_nat()),
    {
        (share_1.0.add(share_2.0), share_1.1.add(share_2.1))
    }

    /// The difference of two shares: a share of x - y.
    pub fn sub(&self, share_1: Share, share_2: Share) -> (r: Share)
        requires
            share_1.0.wf() && share_1.1.wf() && share_2.0.wf() && share_2.1.wf(),
        ensures
            r.0.wf() && r.1.wf(),
            r.0.as_nat() == subp(share_1.0.as_nat(), share_2.0.as_nat()),
            r.1.as_nat() == subp(share_1.1.as_nat(), share_2.1.as_nat()),
    {
        (share_1.0.sub(share_2.0), share_1.1.sub(share_2.1))
    }

    /// The two shares, [x - a] and [y - b], that are opened for a
    /// multiplication.
    pub fn mul_prepare(&self, share_1: Share, share_2: Share, beaver: BeaverShare) -> (r: (
        Share,
        Share,
    ))
        requires
            share_1.0.wf() && share_1.1.wf() && share_2.0.wf() && share_2.1.wf(),
            beaver.0.0.wf() && beaver.0.1.wf() && beaver.1.0.wf() && beaver.1.1.wf(),
        ensures
            r.0.0.wf() && r.0.1.wf() && r.1.0.wf() && r.1.1.wf(),
            r.0.0.as_nat() == subp(share_1.0.as_nat(), beaver.0.0.as_nat()),
            r.0.1.as_nat() == subp(share_1.1.as_nat(), beaver.0.1.as_nat()),
            r.1.0.as_nat() == subp(share_2.0.as_nat(), beaver.1.0.as_nat()),
            r.1.1.as_nat() == subp(share_2.1.as_nat(), beaver.1.1.as_nat()),
    {
        (self.sub(share_1, beaver.0), self.sub(share_2, beaver.1))
    }

    /// Completes a multiplication from the Beaver share and the two opened
    /// values E = x - a and F = y - b.
    pub fn mul(&self, beaver: BeaverShare, opened_1: Elem, opened_2: Elem) -> (r: Share)
        requires
            self.wf(),
            beaver.0.0.wf() && beaver.0.1.wf() && beaver.1.0.wf() && beaver.1.1.wf()
                && beaver.2.0.wf() && beaver.2.1.wf(),
            opened_1.wf(),
            opened_2.wf(),
        ensures
            r.0.wf() && r.1.wf(),
            r.0.as_nat() == beaver_mul_fst(
                self.id,
                beaver.0.0.as_nat(),
                beaver.1.0.as_nat(),
                beaver.2.0.as_nat(),
                opened_1.as_nat(),
                opened_2.as_nat(),
            ),
            r.1.as_nat() == beaver_mul_snd(
                self.alpha_share.as_nat(),
                beaver.0.1.as_nat(),
                beaver.1.1.as_nat(),
                beaver.2.1.as_nat(),
                opened_1.as_nat(),
                opened_2.as_nat(),
            ),
    {
        let mac_1 = self.mul_by_const(beaver.0, opened_2);
        let mac_2 = self.mul_by_const(beaver.1, opened_1);
        let opened = opened_1.mul(opened_2);
        let result = self.add(mac_1, mac_2);
        let result = self.add(result, beaver.2);
        self.add_const(result, opened)
    }

    /// Adds a public constant to a share: only party 0 shifts its element
    /// share, every party shifts its MAC share by alpha_i * k.
    pub fn add_const(&self, share: Share, constant: Elem) -> (r: Share)
        requires
            self.wf(),
            share.0.wf() && share.1.wf(),
            constant.wf(),
        ensures
            r.0.wf() && r.1.wf(),
            r.0.as_nat() == if self.id == 0 {
                addp(share.0.as_nat(), constant.as_nat())
            } else {
                share.0.as_nat()
            },
            r.1.as_nat() == addp(
                mulp(self.alpha_share.as_nat(), constant.as_nat()),
                share.1.as_nat(),
            ),
    {
        (
            if self.id == 0 {
                share.0.add(constant)
            } else {
                share.0
            },
            self.alpha_share.mul(constant).add(share.1),
        )
    }

    /// Multiplies a share by a public constant, component-wise.
    pub fn mul_by_const(&self, share: Share, constant: Elem) -> (r: Share)
        requires
            share.0.wf() && share.1.wf(),
            constant.wf(),
        ensures
            r.0.wf() && r.1.wf(),
            r.0.as_nat() == mulp(share.0.as_nat(), constant.as_nat()),
            r.1.as_nat() == mulp(share.1.as_nat(), constant.as_nat()),
    {
        (share.0.mul(constant), share.1.mul(constant))
    }

    /// A fresh commitment to an element: its hash under a random salt, and
    /// the salt.
    pub fn generate_commitment(elem: &Elem) -> (r: (crate::shares::Hash, Salt))
        ensures
            r.0@ == sha3_of(commit_input(*elem, r.1@)),
            r.1@.len() == 32,
    {
        let salt = random_salt();
        (compute_commitment(elem, &salt), salt)
    }

    /// The value this party commits to for an opened x': d_i = alpha_i * x'
    /// - m(x)_i. Summed over all parties it is zero iff the opening was
    /// consistent.
    pub fn generate_commitment_share(&self, opened: Elem, share: Share) -> (r: Elem)
        requires
            self.wf(),
            opened.wf(),
            share.1.wf(),
        ensures
            r.wf(),
            r.as_nat() == subp(mulp(self.alpha_share.as_nat(), opened.as_nat()), share.1.as_nat()),
    {
        self.alpha_share.mul(opened).sub(share.1)
    }
}

/// The element share of a completed Beaver multiplication at one party:
/// a_i*F + b_i*E + c_i, plus E*F at party 0 alone.
pub open spec fn beaver_mul_fst(id: NodeId, a0: nat, b0: nat, c0: nat, e: nat, f: nat) -> nat {
    let base = addp(addp(mulp(a0, f), mulp(b0, e)), c0);
    if id == 0 {
        addp(base, mulp(e, f))
    } else {
        base
    }
}

/// The MAC share of a completed Beaver multiplication at one party:
/// alpha_i*E*F + (a-mac_i*F + b-mac_i*E + c-mac_i).
pub open spec fn beaver_mul_snd(alpha: nat, a1: nat, b1: nat, c1: nat, e: nat, f: nat) -> nat {
    addp(mulp(alpha, mulp(e, f)), addp(addp(mulp(a1, f), mulp(b1, e)), c1))
}

/// Checks a vector of opened commitments: every hash must match its value
/// and salt, and the committed values must sum to zero in the field.
pub fn verify_commitments(commitments: &Vec<CommitmentProof>) -> (r: bool)
    requires
        forall|i: int|
            0 <= i < commitments@.len() ==> (#[trigger] commitments@[i]).1.wf(),
    ensures
        r <==> (forall|i: int|
            0 <= i < commitments@.len() ==> (#[trigger] commitments@[i]).0@ == sha3_of(
                commit_input(commitments@[i].1, commitments@[i].2@),
            )) && sum_elems_nat_of_proofs(commitments@) % prime() == 0,
{
    let n = commitments.len();
    let mut i: usize = 0;
    while i < n
        invariant
            i <= n,
            n == commitments@.len(),
            forall|j: int| 0 <= j < commitments@.len() ==> (#[trigger] commitments@[j]).1.wf(),
            forall|j: int|
                0 <= j < i ==> (#[trigger] commitments@[j]).0@ == sha3_of(
                    commit_input(commitments@[j].1, commitments@[j].2@),
                ),
        decreases n - i,
    {
        let c = compute_commitment(&commitments[i].1, &commitments[i].2);
        if !hash_eq(&commitments[i].0, &c) {
            return false;
        }
        i = i + 1;
    }
    let acc = sum_proof_values(commitments);
    acc.l0 == 0 && acc.l1 == 0 && acc.l2 == 0 && acc.l3 == 0
}

/// Sums the committed values of a vector of opened commitments in the
/// field.
fn sum_proof_values(commitments: &Vec<CommitmentProof>) -> (r: Elem)
    requires
        forall|i: int|
            0 <= i < commitments@.len() ==> (#[trigger] commitments@[i]).1.wf(),
    ensures
        r.wf(),
        r.as_nat() == sum_elems_nat_of_proofs(commitments@) % prime(),
{
    let n = commitments.len();
    let mut acc = Fp::zero();
    proof {
        lemma_small_mod(0, prime());
        assert(commitments@.take(0) =~= Seq::<CommitmentProof>::empty());
    }
    let mut k: usize = 0;
    while k < n
        invariant
            k <= n,
            n == commitments@.len(),
            forall|j: int| 0 <= j < commitments@.len() ==> (#[trigger] commitments@[j]).1.wf(),
            acc.wf(),
            acc.as_nat() == sum_elems_nat_of_proofs(commitments@.take(k as int)) % prime(),
        decreases n - k,
    {
        let ghost pre = commitments@.take(k as int);
        acc = acc.add(commitments[k].1);
        proof {
            assert(commitments@.take(k + 1).drop_last() =~= pre);
            assert(commitments@.take(k + 1).last() == commitments@[k as int]);
            lemma_add_mod_noop_right(
                sum_elems_nat_of_proofs(pre) as int,
                commitments@[k as int].1.as_nat() as int,
                prime() as int,
            );
        }
        k = k + 1;
    }
    proof {
        assert(commitments@.take(n as int) =~= commitments@);
    }
    acc
}

/// The sum of the committed values of a vector of opened commitments.
pub open spec fn sum_elems_nat_of_proofs(s: Seq<CommitmentProof>) -> nat
    decreases s.len(),
{
    if s.len() == 0 {
        0
    } else {
        sum_elems_nat_of_proofs(s.drop_last()) + s.last().1.as_nat()
    }
}

/// The plain integer sum of a sequence of naturals.
pub open spec fn sum_nats(s: Seq<nat>) -> nat
    decreases s.len(),
{
    if s.len() == 0 {
        0
    } else {
        sum_nats(s.drop_last()) + s.last()
    }
}

/// The element-share values of a sequence of shares.
pub open spec fn fst_nats(s: Seq<Share>) -> Seq<nat> {
    s.map_values(|sh: Share| sh.0.as_nat())
}

/// The MAC-share values of a sequence of shares.
pub open spec fn snd_nats(s: Seq<Share>) -> Seq<nat> {
    s.map_values(|sh: Share| sh.1.as_nat())
}

/// The two sum views of a sequence of shares agree.
pub proof fn lemma_sum_views(s: Seq<Share>)
    ensures
        sum_fst(s) == sum_nats(fst_nats(s)),
        sum_snd(s) == sum_nats(snd_nats(s)),
    decreases s.len(),
{
    if s.len() > 0 {
        lemma_sum_views(s.drop_last());
        assert(fst_nats(s.drop_last()) =~= fst_nats(s).drop_last());
        assert(snd_nats(s.drop_last()) =~= snd_nats(s).drop_last());
    }
}

/// Summing pointwise field additions adds the sums, modulo p.
pub proof fn lemma_sum_add(x: Seq<nat>, y: Seq<nat>, z: Seq<nat>)
    requires
        x.len() == y.len(),
        y.len() == z.len(),
        forall|i: int| 0 <= i < z.len() ==> z[i] == addp(#[trigger] x[i], y[i]),
    ensures
        sum_nats(z) % prime() == (sum_nats(x) + sum_nats(y)) % prime(),
    decreases z.len(),
{
    let p = prime() as int;
    if z.len() > 0 {
        lemma_sum_add(x.drop_last(), y.drop_last(), z.drop_last());
        let sx = sum_nats(x.drop_last()) as int;
        let sy = sum_nats(y.drop_last()) as int;
        let lx = x.last() as int;
        let ly = y.last() as int;
        // (sz' + (lx + ly) % p) % p == (sz' + lx + ly) % p == (sx + sy + lx + ly) % p
        lemma_add_mod_noop_right(sum_nats(z.drop_last()) as int, lx + ly, p);
        lemma_add_mod_noop(sum_nats(z.drop_last()) as int, lx + ly, p);
        lemma_add_mod_noop(sx + sy, lx + ly, p);
        lemma_mod_twice(sx + sy, p);
        lemma_mod_twice(sum_nats(z.drop_last()) as int, p);
    }
}

/// Summing pointwise field subtractions subtracts the sums, modulo p.
pub proof fn lemma_sum_sub(x: Seq<nat>, y: Seq<nat>, z: Seq<nat>)
    requires
        x.len() == y.len(),
        y.len() == z.len(),
        forall|i: int| 0 <= i < z.len() ==> z[i] == subp(#[trigger] x[i], y[i]),
    ensures
        sum_nats(z) % prime() == (sum_nats(x) - sum_nats(y)) % (prime() as int),
    decreases z.len(),
{
    let p = prime() as int;
    if z.len() > 0 {
        lemma_sum_sub(x.drop_last(), y.drop_last(), z.drop_last());
        let sx = sum_nats(x.drop_last()) as int;
        let sy = sum_nats(y.drop_last()) as int;
        let lx = x.last() as int;
        let ly = y.last() as int;
        lemma_add_mod_noop_right(sum_nats(z.drop_last()) as int, lx - ly, p);
        lemma_add_mod_noop(sum_nats(z.drop_last()) as int, lx - ly, p);
        lemma_add_mod_noop(sx - sy, lx - ly, p);
        lemma_mod_twice(sx - sy, p);
        lemma_mod_twice(sum_nats(z.drop_last()) as int, p);
    }
}

/// Summing pointwise products with one constant scales the sum, modulo p.
pub proof fn lemma_sum_scale(x: Seq<nat>, z: Seq<nat>, k: nat)
    requires
        x.len() == z.len(),
        forall|i: int| 0 <= i < z.len() ==> z[i] == mulp(#[trigger] x[i], k),
    ensures
        sum_nats(z) % prime() == (sum_nats(x) * k) % prime(),
    decreases z.len(),
{
    let p = prime() as int;
    if z.len() == 0 {
        assert(sum_nats(x) * k == 0) by (nonlinear_arith)
            requires
                sum_nats(x) == 0,
        ;
    } else {
        lemma_sum_scale(x.drop_last(), z.drop_last(), k);
        let sx = sum_nats(x.drop_last()) as int;
        let lx = x.last() as int;
        let ki = k as int;
        lemma_add_mod_noop_right(sum_nats(z.drop_last()) as int, lx * ki, p);
        lemma_add_mod_noop(sum_nats(z.drop_last()) as int, lx * ki, p);
        lemma_add_mod_noop(sx * ki, lx * ki, p);
        lemma_mod_twice(sx * ki, p);
        lemma_mod_twice(sum_nats(z.drop_last()) as int, p);
        lemma_mul_is_distributive_add_other_way(ki, sx, lx);
    }
}

/// Additive invariant under add: when each party adds its shares of x and
/// y, the results share x + y, and their MACs alpha*(x + y).
pub proof fn lemma_add_preserves_sharing(a: Seq<Share>, b: Seq<Share>, r: Seq<Share>)
    requires
        a.len() == b.len(),
        b.len() == r.len(),
        forall|i: int|
            0 <= i < r.len() ==> (#[trigger] r[i]).0.as_nat() == addp(
                a[i].0.as_nat(),
                b[i].0.as_nat(),
            ) && r[i].1.as_nat() == addp(a[i].1.as_nat(), b[i].1.as_nat()),
    ensures
        sum_fst(r) % prime() == (sum_fst(a) + sum_fst(b)) % prime(),
        sum_snd(r) % prime() == (sum_snd(a) + sum_snd(b)) % prime(),
{
    lemma_sum_views(a);
    lemma_sum_views(b);
    lemma_sum_views(r);
    lemma_sum_add(fst_nats(a), fst_nats(b), fst_nats(r));
    lemma_sum_add(snd_nats(a), snd_nats(b), snd_nats(r));
}

/// Additive invariant under sub: when each party subtracts its shares, the
/// results share x - y, and their MACs alpha*(x - y).
pub proof fn lemma_sub_preserves_sharing(a: Seq<Share>, b: Seq<Share>, r: Seq<Share>)
    requires
        a.len() == b.len(),
        b.len() == r.len(),
        forall|i: int|
            0 <= i < r.len() ==> (#[trigger] r[i]).0.as_nat() == subp(
                a[i].0.as_nat(),
                b[i].0.as_nat(),
            ) && r[i].1.as_nat() == subp(a[i].1.as_nat(), b[i].1.as_nat()),
    ensures
        sum_fst(r) % prime() == (sum_fst(a) - sum_fst(b)) % (prime() as int),
        sum_snd(r) % prime() == (sum_snd(a) - sum_snd(b)) % (prime() as int),
{
    lemma_sum_views(a);
    lemma_sum_views(b);
    lemma_sum_views(r);
    lemma_sum_sub(fst_nats(a), fst_nats(b), fst_nats(r));
    lemma_sum_sub(snd_nats(a), snd_nats(b), snd_nats(r));
}

/// Additive invariant under mul_by_const: when each party multiplies its
/// share by the public k, the results share k*x, and their MACs
/// alpha*k*x.
pub proof fn lemma_mul_by_const_preserves_sharing(a: Seq<Share>, r: Seq<Share>, k: nat)
    requires
        a.len() == r.len(),
        forall|i: int|
            0 <= i < r.len() ==> (#[trigger] r[i]).0.as_nat() == mulp(a[i].0.as_nat(), k)
                && r[i].1.as_nat() == mulp(a[i].1.as_nat(), k),
    ensures
        sum_fst(r) % prime() == (sum_fst(a) * k) % prime(),
        sum_snd(r) % prime() == (sum_snd(a) * k) % prime(),
{
    lemma_sum_views(a);
    lemma_sum_views(r);
    lemma_sum_scale(fst_nats(a), fst_nats(r), k);
    lemma_sum_scale(snd_nats(a), snd_nats(r), k);
}

/// Additive invariant under add_const: party 0 alone absorbs the public k
/// into its element share, and every party shifts its MAC share by
/// alpha_i*k; the results share x + k, with MACs alpha*(x + k).
pub proof fn lemma_add_const_preserves_sharing(
    a: Seq<Share>,
    r: Seq<Share>,
    alpha: Seq<Elem>,
    k: nat,
)
    requires
        a.len() == r.len(),
        alpha.len() == r.len(),
        r.len() >= 1,
        r[0].0.as_nat() == addp(a[0].0.as_nat(), k),
        forall|i: int| 1 <= i < r.len() ==> (#[trigger] r[i]).0.as_nat() == a[i].0.as_nat(),
        forall|i: int|
            0 <= i < r.len() ==> (#[trigger] r[i]).1.as_nat() == addp(
                mulp(alpha[i].as_nat(), k),
                a[i].1.as_nat(),
            ),
    ensures
        sum_fst(r) % prime() == (sum_fst(a) + k) % prime(),
        sum_snd(r) % prime() == (sum_snd(a) + crate::shares::sum_elems_nat(alpha) * k)
            % prime(),
{
    let p = prime() as int;
    lemma_sum_views(a);
    lemma_sum_views(r);
    lemma_sum_add_const(fst_nats(a), fst_nats(r), k);
    let n = r.len();
    let alv = Seq::new(n, |i: int| alpha[i].as_nat());
    let m = Seq::new(n, |i: int| mulp(alv[i], k));
    assert(sum_nats(alv) == crate::shares::sum_elems_nat(alpha)) by {
        lemma_sum_elems_view(alpha);
    };
    lemma_sum_scale(alv, m, k);
    lemma_sum_add(m, snd_nats(a), snd_nats(r));
    let sal = sum_nats(alv) as int;
    let sm = sum_nats(m) as int;
    let sa = sum_nats(snd_nats(a)) as int;
    lemma_add_mod_congruent(sm, sa, sal * (k as int), sa, p);
    lemma_mod_twice(sm + sa, p);
    lemma_mod_twice(sal * (k as int) + sa, p);
}

/// The audit values d_i = alpha_i*opened - m_i sum to the total MAC key
/// times the opened value, minus the MAC sum, modulo p.
pub proof fn lemma_audit_sum(ds: Seq<Elem>, shares: Seq<Share>, alpha: Seq<Elem>, opened: nat)
    requires
        ds.len() == shares.len(),
        alpha.len() == shares.len(),
        forall|i: int|
            0 <= i < ds.len() ==> (#[trigger] ds[i]).as_nat() == subp(
                mulp(alpha[i].as_nat(), opened),
                shares[i].1.as_nat(),
            ),
    ensures
        crate::shares::sum_elems_nat(ds) % prime() == (crate::shares::sum_elems_nat(alpha)
            * opened - sum_snd(shares)) % (prime() as int),
{
    let p = prime() as int;
    let n = ds.len();
    let alv = Seq::new(n, |i: int| alpha[i].as_nat());
    let w = Seq::new(n, |i: int| mulp(alv[i], opened));
    let m = snd_nats(shares);
    let dv = Seq::new(n, |i: int| ds[i].as_nat());
    assert(forall|i: int| 0 <= i < n ==> #[trigger] dv[i] == subp(w[i], m[i]));
    assert(sum_nats(alv) == crate::shares::sum_elems_nat(alpha)) by {
        lemma_sum_elems_view(alpha);
    };
    assert(sum_nats(dv) == crate::shares::sum_elems_nat(ds)) by {
        lemma_sum_elems_view(ds);
        assert(Seq::new(ds.len(), |i: int| ds[i].as_nat()) =~= dv);
    };
    lemma_sum_views(shares);
    lemma_sum_scale(alv, w, opened);
    lemma_sum_sub(w, m, dv);
    let sw = sum_nats(w) as int;
    let sm = sum_nats(m) as int;
    let sa = sum_nats(alv) as int;
    // (sw - sm) % p == (sa*opened - sm) % p, since sw == sa*opened (mod p)
    lemma_add_mod_congruent(sw, -sm, sa * (opened as int), -sm, p);
    lemma_mod_twice(sw, p);
    lemma_mod_twice(sum_nats(dv) as int, p);
    lemma_mod_twice(sw - sm, p);
}

/// Commitment correctness of an honest opening: when the MAC shares indeed
/// authenticate the opened value, the audit values sum to zero, so the
/// zero-sum check accepts.
pub proof fn lemma_audit_accepts_honest(
    ds: Seq<Elem>,
    shares: Seq<Share>,
    alpha: Seq<Elem>,
    opened: nat,
)
    requires
        ds.len() == shares.len(),
        alpha.len() == shares.len(),
        sum_snd(shares) % prime() == mulp(crate::shares::sum_elems_nat(alpha), opened),
        forall|i: int|
            0 <= i < ds.len() ==> (#[trigger] ds[i]).as_nat() == subp(
                mulp(alpha[i].as_nat(), opened),
                shares[i].1.as_nat(),
            ),
    ensures
        crate::shares::sum_elems_nat(ds) % prime() == 0,
{
    let p = prime() as int;
    lemma_audit_sum(ds, shares, alpha, opened);
    let sa = crate::shares::sum_elems_nat(alpha) as int;
    let sm = sum_snd(shares) as int;
    let o = opened as int;
    lemma_add_mod_congruent(sa * o, -sm, sa * o, -(sa * o), p);
    lemma_mod_twice(sm, p);
    lemma_mod_twice(sa * o, p);
    assert((sa * o - sa * o) % p == 0);
}

/// What a tampered opening leaves behind: against MAC shares that
/// authenticate x, the audit values for an opened value x' sum to
/// alpha*(x' - x) modulo p. The check accepts only when that product
/// vanishes; adding any offset that alpha does not annihilate is caught.
pub proof fn lemma_audit_sum_of_tampered(
    ds: Seq<Elem>,
    shares: Seq<Share>,
    alpha: Seq<Elem>,
    opened: nat,
    x: nat,
)
    requires
        ds.len() == shares.len(),
        alpha.len() == shares.len(),
        sum_snd(shares) % prime() == mulp(crate::shares::sum_elems_nat(alpha), x),
        forall|i: int|
            0 <= i < ds.len() ==> (#[trigger] ds[i]).as_nat() == subp(
                mulp(alpha[i].as_nat(), opened),
                shares[i].1.as_nat(),
            ),
    ensures
        crate::shares::sum_elems_nat(ds) % prime() == (crate::shares::sum_elems_nat(alpha) * (
        opened - x)) % (prime() as int),
{
    let p = prime() as int;
    lemma_audit_sum(ds, shares, alpha, opened);
    let sa = crate::shares::sum_elems_nat(alpha) as int;
    let sm = sum_snd(shares) as int;
    let o = opened as int;
    let xi = x as int;
    lemma_add_mod_congruent(sa * o, -sm, sa * o, -(sa * xi), p);
    lemma_mod_twice(sm, p);
    lemma_mod_twice(sa * xi, p);
    assert(sa * o - sa * xi == sa * (o - xi)) by (nonlinear_arith);
}

/// Two sums of pairwise congruent terms are congruent.
proof fn lemma_add_mod_congruent(a: int, b: int, a2: int, b2: int, m: int)
    requires
        m > 0,
        a % m == a2 % m,
        b % m == b2 % m,
    ensures
        (a + b) % m == (a2 + b2) % m,
{
    lemma_add_mod_noop(a, b, m);
    lemma_add_mod_noop(a2, b2, m);
}

/// The element shares of the triple's first component.
pub open spec fn beaver_a(s: Seq<BeaverShare>) -> Seq<Share> {
    s.map_values(|t: BeaverShare| t.0)
}

/// The element shares of the triple's second component.
pub open spec fn beaver_b(s: Seq<BeaverShare>) -> Seq<Share> {
    s.map_values(|t: BeaverShare| t.1)
}

/// The element shares of the triple's third component.
pub open spec fn beaver_c(s: Seq<BeaverShare>) -> Seq<Share> {
    s.map_values(|t: BeaverShare| t.2)
}

/// Beaver correctness, element-share side.
#[verifier::rlimit(100)]
proof fn lemma_beaver_fst(r: Seq<Share>, bv: Seq<BeaverShare>, e: nat, f: nat, x: nat, y: nat)
    requires
        bv.len() == r.len(),
        r.len() >= 1,
        r.len() <= 0xffffffffffffffff,
        e == subp(x, sum_fst(beaver_a(bv))),
        f == subp(y, sum_fst(beaver_b(bv))),
        sum_fst(beaver_c(bv)) % prime() == mulp(sum_fst(beaver_a(bv)), sum_fst(beaver_b(bv))),
        forall|i: int|
            0 <= i < r.len() ==> (#[trigger] r[i]).0.as_nat() == beaver_mul_fst(
                i as NodeId,
                bv[i].0.0.as_nat(),
                bv[i].1.0.as_nat(),
                bv[i].2.0.as_nat(),
                e,
                f,
            ),
    ensures
        sum_fst(r) % prime() == mulp(x, y),
{
    let p = prime() as int;
    let n = r.len() as int;
    let aa = sum_fst(beaver_a(bv)) as int;
    let bb = sum_fst(beaver_b(bv)) as int;
    let cc = sum_fst(beaver_c(bv)) as int;
    let xi = x as int;
    let yi = y as int;
    let ei = e as int;
    let fi = f as int;
    let efp = mulp(e, f) as int;

    // --- the element-share side ---
    let a0 = Seq::new(n as nat, |i: int| bv[i].0.0.as_nat());
    let b0 = Seq::new(n as nat, |i: int| bv[i].1.0.as_nat());
    let c0 = Seq::new(n as nat, |i: int| bv[i].2.0.as_nat());
    let m1 = Seq::new(n as nat, |i: int| mulp(a0[i], f));
    let m2 = Seq::new(n as nat, |i: int| mulp(b0[i], e));
    let s1 = Seq::new(n as nat, |i: int| addp(m1[i], m2[i]));
    let s2 = Seq::new(n as nat, |i: int| addp(s1[i], c0[i]));
    let z = fst_nats(r);
    assert(sum_nats(a0) == sum_fst(beaver_a(bv))) by {
        lemma_sum_views(beaver_a(bv));
        assert(fst_nats(beaver_a(bv)) =~= a0);
    };
    assert(sum_nats(b0) == sum_fst(beaver_b(bv))) by {
        lemma_sum_views(beaver_b(bv));
        assert(fst_nats(beaver_b(bv)) =~= b0);
    };
    assert(sum_nats(c0) == sum_fst(beaver_c(bv))) by {
        lemma_sum_views(beaver_c(bv));
        assert(fst_nats(beaver_c(bv)) =~= c0);
    };
    lemma_sum_scale(a0, m1, f);
    lemma_sum_scale(b0, m2, e);
    lemma_sum_add(m1, m2, s1);
    lemma_sum_add(s1, c0, s2);
    assert(forall|i: int| 1 <= i < n ==> #[trigger] z[i] == s2[i]);
    assert(z[0] == addp(s2[0], mulp(e, f)));
    lemma_sum_add_const(s2, z, mulp(e, f));
    lemma_sum_views(r);

    // fold the congruences into one four-term sum
    let sm1 = sum_nats(m1) as int;
    let sm2 = sum_nats(m2) as int;
    let ss1 = sum_nats(s1) as int;
    let ss2 = sum_nats(s2) as int;
    assert(ss1 % p == (aa * fi + bb * ei) % p) by {
        lemma_add_mod_congruent(sm1, sm2, aa * fi, bb * ei, p);
        lemma_mod_twice(sm1 + sm2, p);
    };
    assert(ss2 % p == (aa * fi + bb * ei + cc) % p) by {
        lemma_add_mod_congruent(ss1, cc, aa * fi + bb * ei, cc, p);
        lemma_mod_twice(ss1 + cc, p);
    };
    assert((sum_nats(z) as int) % p == (aa * fi + bb * ei + cc + efp) % p) by {
        lemma_add_mod_congruent(ss2, efp, aa * fi + bb * ei + cc, efp, p);
        lemma_mod_twice(ss2 + efp, p);
    };

    // replace each term by its unreduced form
    assert((aa * fi) % p == (aa * (yi - bb)) % p) by {
        lemma_mul_mod_noop_right(aa, yi - bb, p);
    };
    assert((bb * ei) % p == (bb * (xi - aa)) % p) by {
        lemma_mul_mod_noop_right(bb, xi - aa, p);
    };
    assert(efp % p == ((xi - aa) * (yi - bb)) % p) by {
        lemma_mul_mod_noop_general(xi - aa, yi - bb, p);
        lemma_mod_twice(((xi - aa) % p) * ((yi - bb) % p), p);
    };
    assert(cc % p == (aa * bb) % p) by {
        lemma_mod_twice(aa * bb, p);
    };
    assert((aa * fi + bb * ei + cc + efp) % p == (aa * (yi - bb) + bb * (xi - aa) + aa * bb + (xi
        - aa) * (yi - bb)) % p) by {
        lemma_add_mod_congruent(aa * fi, bb * ei, aa * (yi - bb), bb * (xi - aa), p);
        lemma_add_mod_congruent(
            aa * fi + bb * ei,
            cc,
            aa * (yi - bb) + bb * (xi - aa),
            aa * bb,
            p,
        );
        lemma_add_mod_congruent(
            aa * fi + bb * ei + cc,
            efp,
            aa * (yi - bb) + bb * (xi - aa) + aa * bb,
            (xi - aa) * (yi - bb),
            p,
        );
    };
    assert(aa * (yi - bb) + bb * (xi - aa) + aa * bb + (xi - aa) * (yi - bb) == xi * yi)
        by (nonlinear_arith);
    assert(mulp(x, y) == (xi * yi) % p);

}

/// Beaver correctness, MAC side.
#[verifier::rlimit(100)]
proof fn lemma_beaver_snd(
    r: Seq<Share>,
    bv: Seq<BeaverShare>,
    alpha: Seq<Elem>,
    e: nat,
    f: nat,
    x: nat,
    y: nat,
)
    requires
        bv.len() == r.len(),
        alpha.len() == r.len(),
        r.len() >= 1,
        e == subp(x, sum_fst(beaver_a(bv))),
        f == subp(y, sum_fst(beaver_b(bv))),
        sum_fst(beaver_c(bv)) % prime() == mulp(sum_fst(beaver_a(bv)), sum_fst(beaver_b(bv))),
        sum_snd(beaver_a(bv)) % prime() == mulp(
            crate::shares::sum_elems_nat(alpha),
            sum_fst(beaver_a(bv)),
        ),
        sum_snd(beaver_b(bv)) % prime() == mulp(
            crate::shares::sum_elems_nat(alpha),
            sum_fst(beaver_b(bv)),
        ),
        sum_snd(beaver_c(bv)) % prime() == mulp(
            crate::shares::sum_elems_nat(alpha),
            sum_fst(beaver_c(bv)),
        ),
        forall|i: int|
            0 <= i < r.len() ==> (#[trigger] r[i]).1.as_nat() == beaver_mul_snd(
                alpha[i].as_nat(),
                bv[i].0.1.as_nat(),
                bv[i].1.1.as_nat(),
                bv[i].2.1.as_nat(),
                e,
                f,
            ),
    ensures
        sum_snd(r) % prime() == mulp(crate::shares::sum_elems_nat(alpha), mulp(x, y)),
{
    let p = prime() as int;
    let n = r.len() as int;
    let al = crate::shares::sum_elems_nat(alpha) as int;
    let aa = sum_fst(beaver_a(bv)) as int;
    let bb = sum_fst(beaver_b(bv)) as int;
    let cc = sum_fst(beaver_c(bv)) as int;
    let xi = x as int;
    let yi = y as int;
    let ei = e as int;
    let fi = f as int;
    let efp = mulp(e, f) as int;

    // --- the MAC side ---
    let a1 = Seq::new(n as nat, |i: int| bv[i].0.1.as_nat());
    let b1 = Seq::new(n as nat, |i: int| bv[i].1.1.as_nat());
    let c1 = Seq::new(n as nat, |i: int| bv[i].2.1.as_nat());
    let alv = Seq::new(n as nat, |i: int| alpha[i].as_nat());
    let q = Seq::new(n as nat, |i: int| mulp(alv[i], mulp(e, f)));
    let w1 = Seq::new(n as nat, |i: int| mulp(a1[i], f));
    let w2 = Seq::new(n as nat, |i: int| mulp(b1[i], e));
    let t1 = Seq::new(n as nat, |i: int| addp(w1[i], w2[i]));
    let t2 = Seq::new(n as nat, |i: int| addp(t1[i], c1[i]));
    let zm = snd_nats(r);
    assert(forall|i: int| 0 <= i < n ==> #[trigger] zm[i] == addp(q[i], t2[i]));
    assert(sum_nats(a1) == sum_snd(beaver_a(bv))) by {
        lemma_sum_views(beaver_a(bv));
        assert(snd_nats(beaver_a(bv)) =~= a1);
    };
    assert(sum_nats(b1) == sum_snd(beaver_b(bv))) by {
        lemma_sum_views(beaver_b(bv));
        assert(snd_nats(beaver_b(bv)) =~= b1);
    };
    assert(sum_nats(c1) == sum_snd(beaver_c(bv))) by {
        lemma_sum_views(beaver_c(bv));
        assert(snd_nats(beaver_c(bv)) =~= c1);
    };
    assert(sum_nats(alv) == crate::shares::sum_elems_nat(alpha)) by {
        lemma_sum_elems_view(alpha);
    };
    lemma_sum_scale(a1, w1, f);
    lemma_sum_scale(b1, w2, e);
    lemma_sum_add(w1, w2, t1);
    lemma_sum_add(t1, c1, t2);
    lemma_sum_scale(alv, q, mulp(e, f));
    lemma_sum_add(q, t2, zm);
    lemma_sum_views(r);

    let sa1 = sum_nats(a1) as int;
    let sb1 = sum_nats(b1) as int;
    let sc1 = sum_nats(c1) as int;
    let sw1 = sum_nats(w1) as int;
    let sw2 = sum_nats(w2) as int;
    let st1 = sum_nats(t1) as int;
    let st2 = sum_nats(t2) as int;
    let sq = sum_nats(q) as int;
    lemma_mac_terms(
        al,
        aa,
        bb,
        cc,
        sa1,
        sb1,
        sc1,
        sw1,
        sw2,
        st1,
        st2,
        sq,
        sum_nats(zm) as int,
        xi,
        yi,
        ei,
        fi,
        efp,
    );
    assert(mulp(crate::shares::sum_elems_nat(alpha), mulp(x, y)) == (al * (xi * yi)) % p) by {
        lemma_mul_mod_noop_right(al, xi * yi, p);
    };
}

/// The scalar algebra of the MAC audit sum: from the congruences that the
/// per-term sums satisfy, the whole sum is alpha times x*y, modulo p.
#[verifier::rlimit(100)]
proof fn lemma_mac_terms(
    al: int,
    aa: int,
    bb: int,
    cc: int,
    sa1: int,
    sb1: int,
    sc1: int,
    sw1: int,
    sw2: int,
    st1: int,
    st2: int,
    sq: int,
    szm: int,
    xi: int,
    yi: int,
    ei: int,
    fi: int,
    efp: int,
)
    requires
        xi >= 0 && yi >= 0,
        ei == (xi - aa) % (prime() as int),
        fi == (yi - bb) % (prime() as int),
        efp == (ei * fi) % (prime() as int),
        cc % (prime() as int) == (aa * bb) % (prime() as int),
        sa1 % (prime() as int) == (al * aa) % (prime() as int),
        sb1 % (prime() as int) == (al * bb) % (prime() as int),
        sc1 % (prime() as int) == (al * cc) % (prime() as int),
        sw1 % (prime() as int) == (sa1 * fi) % (prime() as int),
        sw2 % (prime() as int) == (sb1 * ei) % (prime() as int),
        st1 % (prime() as int) == (sw1 + sw2) % (prime() as int),
        st2 % (prime() as int) == (st1 + sc1) % (prime() as int),
        sq % (prime() as int) == (al * efp) % (prime() as int),
        szm % (prime() as int) == (sq + st2) % (prime() as int),
    ensures
        szm % (prime() as int) == (al * (xi * yi)) % (prime() as int),
{
    let p = prime() as int;

    // (sum of a-MACs) * f  ==  al * a * f  (mod p), and so on
    assert(sw1 % p == (al * aa * (yi - bb)) % p) by {
        lemma_mod_twice(sa1 * fi, p);
        lemma_mul_mod_noop_left(sa1, fi, p);
        lemma_mul_mod_noop_left(al * aa, fi, p);
        lemma_mul_mod_noop_right(al * aa, yi - bb, p);
    };
    assert(sw2 % p == (al * bb * (xi - aa)) % p) by {
        lemma_mod_twice(sb1 * ei, p);
        lemma_mul_mod_noop_left(sb1, ei, p);
        lemma_mul_mod_noop_left(al * bb, ei, p);
        lemma_mul_mod_noop_right(al * bb, xi - aa, p);
    };
    assert(sc1 % p == (al * (aa * bb)) % p) by {
        lemma_mul_mod_noop_right(al, cc, p);
        lemma_mul_mod_noop_right(al, aa * bb, p);
    };
    assert(sq % p == (al * ((xi - aa) * (yi - bb))) % p) by {
        lemma_mod_twice(al * efp, p);
        lemma_mul_mod_noop_right(al, (xi - aa) * (yi - bb), p);
        lemma_mul_mod_noop_general(xi - aa, yi - bb, p);
        lemma_mod_twice(((xi - aa) % p) * ((yi - bb) % p), p);
        lemma_mul_mod_noop_right(al, efp, p);
    };
    assert(st1 % p == (al * aa * (yi - bb) + al * bb * (xi - aa)) % p) by {
        lemma_add_mod_congruent(sw1, sw2, al * aa * (yi - bb), al * bb * (xi - aa), p);
        lemma_mod_twice(sw1 + sw2, p);
    };
    assert(st2 % p == (al * aa * (yi - bb) + al * bb * (xi - aa) + al * (aa * bb)) % p) by {
        lemma_add_mod_congruent(
            st1,
            sc1,
            al * aa * (yi - bb) + al * bb * (xi - aa),
            al * (aa * bb),
            p,
        );
        lemma_mod_twice(st1 + sc1, p);
    };
    assert(szm % p == (al * ((xi - aa) * (yi - bb)) + (al * aa * (yi - bb) + al * bb * (xi
        - aa) + al * (aa * bb))) % p) by {
        lemma_add_mod_congruent(
            sq,
            st2,
            al * ((xi - aa) * (yi - bb)),
            al * aa * (yi - bb) + al * bb * (xi - aa) + al * (aa * bb),
            p,
        );
        lemma_mod_twice(sq + st2, p);
    };
    let u1 = (xi - aa) * (yi - bb);
    let u2 = aa * (yi - bb);
    let u3 = bb * (xi - aa);
    let u4 = aa * bb;
    assert(u1 + u2 + u3 + u4 == xi * yi) by (nonlinear_arith)
        requires
            u1 == (xi - aa) * (yi - bb),
            u2 == aa * (yi - bb),
            u3 == bb * (xi - aa),
            u4 == aa * bb,
    ;
    assert(al * aa * (yi - bb) == al * u2) by (nonlinear_arith)
        requires
            u2 == aa * (yi - bb),
    ;
    assert(al * bb * (xi - aa) == al * u3) by (nonlinear_arith)
        requires
            u3 == bb * (xi - aa),
    ;
    assert(al * u1 + al * u2 + al * u3 + al * u4 == al * (u1 + u2 + u3 + u4))
        by (nonlinear_arith);
    assert(al * ((xi - aa) * (yi - bb)) + (al * aa * (yi - bb) + al * bb * (xi - aa) + al * (aa
        * bb)) == al * (xi * yi));
}

/// Beaver correctness: when each party completes one multiplication from
/// its triple share and the two opened values E = x - a, F = y - b, the
/// parties' results share x*y, with MAC alpha*x*y, whatever values a and b
/// masked.
///
/// The triple is assumed shaped as the dealer makes it: c = a*b, and each
/// component's MAC shares sum to alpha times it.
pub proof fn lemma_beaver_multiplication(
    r: Seq<Share>,
    bv: Seq<BeaverShare>,
    alpha: Seq<Elem>,
    e: nat,
    f: nat,
    x: nat,
    y: nat,
)
    requires
        bv.len() == r.len(),
        alpha.len() == r.len(),
        r.len() >= 1,
        r.len() <= 0xffffffffffffffff,
        e == subp(x, sum_fst(beaver_a(bv))),
        f == subp(y, sum_fst(beaver_b(bv))),
        sum_fst(beaver_c(bv)) % prime() == mulp(sum_fst(beaver_a(bv)), sum_fst(beaver_b(bv))),
        sum_snd(beaver_a(bv)) % prime() == mulp(
            crate::shares::sum_elems_nat(alpha),
            sum_fst(beaver_a(bv)),
        ),
        sum_snd(beaver_b(bv)) % prime() == mulp(
            crate::shares::sum_elems_nat(alpha),
            sum_fst(beaver_b(bv)),
        ),
        sum_snd(beaver_c(bv)) % prime() == mulp(
            crate::shares::sum_elems_nat(alpha),
            sum_fst(beaver_c(bv)),
        ),
        forall|i: int|
            0 <= i < r.len() ==> (#[trigger] r[i]).0.as_nat() == beaver_mul_fst(
                i as NodeId,
                bv[i].0.0.as_nat(),
                bv[i].1.0.as_nat(),
                bv[i].2.0.as_nat(),
                e,
                f,
            ),
        forall|i: int|
            0 <= i < r.len() ==> (#[trigger] r[i]).1.as_nat() == beaver_mul_snd(
                alpha[i].as_nat(),
                bv[i].0.1.as_nat(),
                bv[i].1.1.as_nat(),
                bv[i].2.1.as_nat(),
                e,
                f,
            ),
    ensures
        sum_fst(r) % prime() == mulp(x, y),
        sum_snd(r) % prime() == mulp(crate::shares::sum_elems_nat(alpha), mulp(x, y)),
{
    lemma_beaver_fst(r, bv, e, f, x, y);
    lemma_beaver_snd(r, bv, alpha, e, f, x, y);
}

/// The element values of a sequence of field elements.
proof fn lemma_sum_elems_view(s: Seq<Elem>)
    ensures
        crate::shares::sum_elems_nat(s) == sum_nats(Seq::new(s.len(), |i: int| s[i].as_nat())),
    decreases s.len(),
{
    if s.len() > 0 {
        lemma_sum_elems_view(s.drop_last());
        assert(Seq::new(s.drop_last().len(), |i: int| s.drop_last()[i].as_nat()) =~= Seq::new(
            s.len(),
            |i: int| s[i].as_nat(),
        ).drop_last());
    }
}

/// Adding a public constant into the first summand alone shifts the sum by
/// that constant, modulo p.
pub proof fn lemma_sum_add_const(x: Seq<nat>, z: Seq<nat>, k: nat)
    requires
        x.len() == z.len(),
        z.len() >= 1,
        z[0] == addp(x[0], k),
        forall|i: int| 1 <= i < z.len() ==> z[i] == #[trigger] x[i],
    ensures
        sum_nats(z) % prime() == (sum_nats(x) + k) % prime(),
    decreases z.len(),
{
    let p = prime() as int;
    if z.len() == 1 {
        assert(z.drop_last().len() == 0);
        assert(x.drop_last().len() == 0);
        assert(sum_nats(z.drop_last()) == 0);
        assert(sum_nats(x.drop_last()) == 0);
        assert(sum_nats(z) == z[0]);
        assert(sum_nats(x) == x[0]);
        lemma_mod_twice((x[0] + k) as int, p);
    } else {
        lemma_sum_add_const(x.drop_last(), z.drop_last(), k);
        let sx = sum_nats(x.drop_last()) as int;
        let lx = x.last() as int;
        lemma_add_mod_noop_right(sum_nats(z.drop_last()) as int, lx, p);
        lemma_add_mod_noop(sum_nats(z.drop_last()) as int, lx, p);
        lemma_add_mod_noop(sx + k, lx, p);
        lemma_mod_twice(sx + k, p);
        lemma_mod_twice(sum_nats(z.drop_last()) as int, p);
    }
}

} // verus!
