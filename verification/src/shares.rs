//! Additive secret sharing with MAC authentication, and the hash
//! commitments used by the audit.
//!
//! A secret x is split into n elements that sum to x modulo p. An
//! authenticated share carries beside its element share a MAC share; the MAC
//! shares of x sum to alpha * x, where alpha is the global MAC key.

use vstd::prelude::*;
use sha3::Digest;
use vstd::arithmetic::div_mod::{
    lemma_add_mod_noop, lemma_add_mod_noop_right, lemma_small_mod,
};
use vstd::arithmetic::mul::lemma_mul_is_distributive_add_other_way;
use crate::field::{prime, Fp};

verus! {

/// A field element.
pub type Elem = Fp;

/// A vector of field elements.
pub type Elems = Vec<Elem>;

/// One party's authenticated share: (element share, MAC share).
pub type Share = (Elem, Elem);

/// A vector of authenticated shares.
pub type Shares = Vec<Share>;

/// One party's share of a Beaver triple (a, b, c) with a*b = c.
pub type BeaverShare = (Share, Share, Share);

/// A 32-byte SHA3-256 digest.
pub type Hash = [u8; 32];

/// The random salt of a commitment.
pub type Salt = Vec<u8>;

/// A broadcast commitment: the hash of a value and its salt.
pub type Commitment = Hash;

/// An opened commitment: (hash, value, salt).
pub type CommitmentProof = (Commitment, Elem, Salt);

/// Every element of the sequence is a well-formed field element.
pub open spec fn all_wf(s: Seq<Elem>) -> bool {
    forall|i: int| 0 <= i < s.len() ==> (#[trigger] s[i]).wf()
}

/// Every share of the sequence has well-formed components.
pub open spec fn all_shares_wf(s: Seq<Share>) -> bool {
    forall|i: int| 0 <= i < s.len() ==> (#[trigger] s[i]).0.wf() && s[i].1.wf()
}

/// The plain integer sum of a sequence of field elements.
pub open spec fn sum_elems_nat(s: Seq<Elem>) -> nat
    decreases s.len(),
{
    if s.len() == 0 {
        0
    } else {
        sum_elems_nat(s.drop_last()) + s.last().as_nat()
    }
}

/// The sum of the element shares of a sequence of shares.
pub open spec fn sum_fst(s: Seq<Share>) -> nat
    decreases s.len(),
{
    if s.len() == 0 {
        0
    } else {
        sum_fst(s.drop_last()) + s.last().0.as_nat()
    }
}

/// The sum of the MAC shares of a sequence of shares.
pub open spec fn sum_snd(s: Seq<Share>) -> nat
    decreases s.len(),
{
    if s.len() == 0 {
        0
    } else {
        sum_snd(s.drop_last()) + s.last().1.as_nat()
    }
}

/// Sums a vector of elements in the field.
pub fn sum_elems(elems: &Elems) -> (r: Elem)
    requires
        all_wf(elems@),
    ensures
        r.wf(),
        r.as_nat() == sum_elems_nat(elems@) % prime(),
{
    let mut acc = Fp::zero();
    proof {
        lemma_small_mod(0, prime());
        assert(elems@.take(0) =~= Seq::<Elem>::empty());
    }
    let n = elems.len();
    let mut i: usize = 0;
    while i < n
        invariant
            i <= n,
            n == elems@.len(),
            all_wf(elems@),
            acc.wf(),
            acc.as_nat() == sum_elems_nat(elems@.take(i as int)) % prime(),
        decreases n - i,
    {
        let ghost pre = elems@.take(i as int);
        acc = acc.add(elems[i]);
        proof {
            assert(elems@.take(i + 1).drop_last() =~= pre);
            assert(elems@.take(i + 1).last() == elems@[i as int]);
            lemma_add_mod_noop_right(
                sum_elems_nat(pre) as int,
                elems@[i as int].as_nat() as int,
                prime() as int,
            );
        }
        i = i + 1;
    }
    proof {
        assert(elems@.take(n as int) =~= elems@);
    }
    acc
}

/// A vector of uniformly random elements, one per party.
pub fn random_shares(n_parties: u8) -> (r: Elems)
    ensures
        r@.len() == n_parties,
        all_wf(r@),
{
    let mut v: Elems = Vec::new();
    let mut i: u8 = 0;
    while i < n_parties
        invariant
            i <= n_parties,
            v@.len() == i,
            all_wf(v@),
        decreases n_parties - i,
    {
        v.push(Fp::random());
        i = i + 1;
    }
    v
}

/// Splits a secret into additive element shares: n - 1 uniform elements,
/// and one chosen so that all of them sum to the secret modulo p.
pub fn elems_from_secret(secret: &Elem, n_parties: u8) -> (r: Elems)
    requires
        secret.wf(),
        n_parties >= 1,
    ensures
        r@.len() == n_parties,
        all_wf(r@),
        sum_elems_nat(r@) % prime() == secret.as_nat(),
{
    let mut shares = random_shares(n_parties - 1);
    let sum = sum_elems(&shares);
    let last = secret.sub(sum);
    let ghost pre = shares@;
    shares.push(last);
    proof {
        assert(shares@.drop_last() =~= pre);
        let s = sum_elems_nat(pre) as int;
        let p = prime() as int;
        // sum + (secret - sum % p) % p  ==  secret  (mod p)
        lemma_add_mod_noop_right(s, (secret.as_nat() - s % p) % p, p);
        lemma_add_mod_noop_right(s, secret.as_nat() - s % p, p);
        assert((s + (secret.as_nat() - s % p)) % p == (s % p + (secret.as_nat() - s % p)) % p)
            by {
            lemma_add_mod_noop(s, secret.as_nat() - s % p, p);
            lemma_add_mod_noop(s % p, secret.as_nat() - s % p, p);
            vstd::arithmetic::div_mod::lemma_mod_twice(s, p);
        };
        lemma_small_mod(secret.as_nat(), prime());
    }
    shares
}

/// Splits a secret into authenticated shares: the element shares sum to the
/// secret, and party i's MAC share is its alpha share times the secret.
pub fn shares_from_secret(secret: &Elem, alpha: &Elems, n_parties: u8) -> (r: Shares)
    requires
        secret.wf(),
        all_wf(alpha@),
        alpha@.len() == n_parties,
        n_parties >= 1,
    ensures
        r@.len() == n_parties,
        all_shares_wf(r@),
        sum_fst(r@) % prime() == secret.as_nat(),
        forall|i: int|
            0 <= i < r@.len() ==> (#[trigger] r@[i]).1.as_nat() == (alpha@[i].as_nat()
                * secret.as_nat()) % prime(),
        forall|i: int| 0 <= i < r@.len() ==> (#[trigger] r@[i]).0 == elem_shares_of(r@)[i],
{
    let elems = elems_from_secret(secret, n_parties);
    let mut shares: Shares = Vec::new();
    let n = elems.len();
    let mut i: usize = 0;
    while i < n
        invariant
            i <= n,
            n == elems@.len(),
            all_wf(elems@),
            secret.wf(),
            all_wf(alpha@),
            alpha@.len() == n,
            shares@.len() == i,
            all_shares_wf(shares@),
            forall|j: int| 0 <= j < i ==> (#[trigger] shares@[j]).0 == elems@[j],
            forall|j: int|
                0 <= j < i ==> (#[trigger] shares@[j]).1.as_nat() == (alpha@[j].as_nat()
                    * secret.as_nat()) % prime(),
        decreases n - i,
    {
        let mac = alpha[i].mul(*secret);
        shares.push((elems[i], mac));
        i = i + 1;
    }
    proof {
        lemma_sum_fst_matches(shares@, elems@);
    }
    shares
}

/// The element-share components of a sequence of shares.
pub open spec fn elem_shares_of(s: Seq<Share>) -> Seq<Elem> {
    s.map_values(|sh: Share| sh.0)
}

/// If the element shares of `s` are the elements of `e` pointwise, the two
/// sums agree.
pub proof fn lemma_sum_fst_matches(s: Seq<Share>, e: Seq<Elem>)
    requires
        s.len() == e.len(),
        forall|j: int| 0 <= j < s.len() ==> (#[trigger] s[j]).0 == e[j],
    ensures
        sum_fst(s) == sum_elems_nat(e),
    decreases s.len(),
{
    if s.len() > 0 {
        lemma_sum_fst_matches(s.drop_last(), e.drop_last());
    }
}

/// If each MAC share is the matching alpha share times x, the MAC shares sum
/// to (the sum of the alpha shares) times x, modulo p.
pub proof fn lemma_mac_sum(s: Seq<Share>, alpha: Seq<Elem>, x: nat)
    requires
        s.len() == alpha.len(),
        forall|i: int|
            0 <= i < s.len() ==> (#[trigger] s[i]).1.as_nat() == (alpha[i].as_nat() * x)
                % prime(),
    ensures
        sum_snd(s) % prime() == (sum_elems_nat(alpha) * x) % prime(),
    decreases s.len(),
{
    let p = prime() as int;
    if s.len() == 0 {
        assert(sum_elems_nat(alpha) * x == 0) by (nonlinear_arith)
            requires
                sum_elems_nat(alpha) == 0,
        ;
    } else {
        lemma_mac_sum(s.drop_last(), alpha.drop_last(), x);
        let s0 = sum_snd(s.drop_last()) as int;
        let a0 = sum_elems_nat(alpha.drop_last()) as int;
        let al = alpha.last().as_nat() as int;
        let xi = x as int;
        // (s0 + (al*x % p)) % p == (s0 + al*x) % p == (a0*x + al*x) % p
        lemma_add_mod_noop_right(s0, al * xi, p);
        lemma_add_mod_noop(s0, al * xi, p);
        lemma_add_mod_noop(a0 * xi, al * xi, p);
        vstd::arithmetic::div_mod::lemma_mod_twice(s0, p);
        vstd::arithmetic::div_mod::lemma_mod_twice(a0 * xi, p);
        lemma_mul_is_distributive_add_other_way(xi, a0, al);
        assert(sum_elems_nat(alpha) == a0 + al);
    }
}

/// Hashes a byte slice with SHA3-256.
///
/// Relies on sha3::Sha3_256::digest: the 32-byte digest is a function of the
/// input bytes alone.
#[verifier::external_body]
pub fn hash(x: &[u8]) -> (r: Hash)
    ensures
        r@ == sha3_of(x@),
        r@.len() == 32,
{
    sha3::Sha3_256::digest(x).into()
}

/// The SHA3-256 digest of a byte sequence.
pub uninterp spec fn sha3_of(input: Seq<u8>) -> Seq<u8>;

/// The bytes a commitment to an element under a salt is computed over.
pub open spec fn commit_input(elem: Elem, salt: Seq<u8>) -> Seq<u8> {
    crate::field::fp_bytes(elem) + salt
}

/// Computes the commitment hash H(elem || salt).
pub fn compute_commitment(elem: &Elem, salt: &Salt) -> (r: Hash)
    ensures
        r@ == sha3_of(commit_input(*elem, salt@)),
{
    let mut buf = elem.to_le_bytes();
    let mut i: usize = 0;
    let n = salt.len();
    while i < n
        invariant
            i <= n,
            n == salt@.len(),
            buf@ == crate::field::fp_bytes(*elem) + salt@.take(i as int),
        decreases n - i,
    {
        buf.push(salt[i]);
        proof {
            assert(crate::field::fp_bytes(*elem) + salt@.take(i + 1) =~= (crate::field::fp_bytes(
                *elem,
            ) + salt@.take(i as int)).push(salt@[i as int]));
        }
        i = i + 1;
    }
    proof {
        assert(salt@.take(n as int) =~= salt@);
        assert(buf@ =~= commit_input(*elem, salt@));
    }
    hash(buf.as_slice())
}

/// A fresh 32-byte random salt.
///
/// Relies on rand::random: 32 bytes from the thread-local generator;
/// nothing is assumed of their values.
#[verifier::external_body]
pub fn random_salt() -> (r: Salt)
    ensures
        r@.len() == 32,
{
    let bytes: [u8; 32] = rand::random();
    bytes.to_vec()
}

/// Whether two digests hold the same bytes.
pub fn hash_eq(a: &Hash, b: &Hash) -> (r: bool)
    ensures
        r <==> a@ == b@,
{
    let mut i: usize = 0;
    while i < 32
        invariant
            i <= 32,
            forall|j: int| 0 <= j < i ==> a@[j] == b@[j],
        decreases 32 - i,
    {
        if a[i] != b[i] {
            return false;
        }
        i = i + 1;
    }
    proof {
        assert(a@ =~= b@);
    }
    true
}

/// Generates the per-party authenticated shares of a fresh Beaver triple:
/// uniform a and b, c = a*b, each shared under the given alpha shares.
pub fn random_beaver(alpha: &Elems, n_parties: u8) -> (r: Vec<BeaverShare>)
    requires
        all_wf(alpha@),
        alpha@.len() == n_parties,
        n_parties >= 1,
    ensures
        r@.len() == n_parties,
        beaver_wf(r@),
        (sum_fst(r@.map_values(|t: BeaverShare| t.0)) % prime()) * (sum_fst(
            r@.map_values(|t: BeaverShare| t.1),
        ) % prime()) % prime() == sum_fst(r@.map_values(|t: BeaverShare| t.2)) % prime(),
        sum_snd(r@.map_values(|t: BeaverShare| t.0)) % prime() == (sum_elems_nat(alpha@)
            * (sum_fst(r@.map_values(|t: BeaverShare| t.0)) % prime())) % prime(),
        sum_snd(r@.map_values(|t: BeaverShare| t.1)) % prime() == (sum_elems_nat(alpha@)
            * (sum_fst(r@.map_values(|t: BeaverShare| t.1)) % prime())) % prime(),
        sum_snd(r@.map_values(|t: BeaverShare| t.2)) % prime() == (sum_elems_nat(alpha@)
            * (sum_fst(r@.map_values(|t: BeaverShare| t.2)) % prime())) % prime(),
{
    let a = Fp::random();
    let b = Fp::random();
    let c = a.mul(b);
    let sa = shares_from_secret(&a, alpha, n_parties);
    let sb = shares_from_secret(&b, alpha, n_parties);
    let sc = shares_from_secret(&c, alpha, n_parties);
    let mut r: Vec<BeaverShare> = Vec::new();
    let mut i: usize = 0;
    let n = n_parties as usize;
    while i < n
        invariant
            i <= n,
            sa@.len() == n,
            sb@.len() == n,
            sc@.len() == n,
            all_shares_wf(sa@),
            all_shares_wf(sb@),
            all_shares_wf(sc@),
            r@.len() == i,
            forall|j: int| 0 <= j < i ==> (#[trigger] r@[j]) == (sa@[j], sb@[j], sc@[j]),
        decreases n - i,
    {
        r.push((sa[i], sb[i], sc[i]));
        i = i + 1;
    }
    proof {
        assert(r@.map_values(|t: BeaverShare| t.0) =~= sa@);
        assert(r@.map_values(|t: BeaverShare| t.1) =~= sb@);
        assert(r@.map_values(|t: BeaverShare| t.2) =~= sc@);
        lemma_mac_sum(sa@, alpha@, a.as_nat());
        lemma_mac_sum(sb@, alpha@, b.as_nat());
        lemma_mac_sum(sc@, alpha@, c.as_nat());
    }
    r
}

/// Every component of every Beaver share is well-formed.
pub open spec fn beaver_wf(s: Seq<BeaverShare>) -> bool {
    forall|i: int|
        0 <= i < s.len() ==> {
            let t = #[trigger] s[i];
            t.0.0.wf() && t.0.1.wf() && t.1.0.wf() && t.1.1.wf() && t.2.0.wf() && t.2.1.wf()
        }
}

} // verus!
