//! Arithmetic in the prime field Fp of order
//! p = 52435875175126190479447740508185965837690552500527637822603658699938581184513.
//!
//! An element is held as four 64-bit little-endian limbs whose value is kept
//! below p, so every field value has exactly one representation and the
//! derived equality coincides with equality of values.

use vstd::prelude::*;
use vstd::arithmetic::div_mod::{
    lemma_add_mod_noop, lemma_div_denominator, lemma_fundamental_div_mod,
    lemma_mod_add_multiples_vanish, lemma_mul_mod_noop_left, lemma_small_mod,
};
use vstd::arithmetic::mul::lemma_mul_is_distributive_add;
use vstd::arithmetic::power2::{lemma2_to64, pow2};

verus! {

/// Low limb of p.
pub const P0: u64 = 0xffffffff00000001;
/// Second limb of p.
pub const P1: u64 = 0x53bda402fffe5bfe;
/// Third limb of p.
pub const P2: u64 = 0x3339d80809a1d805;
/// High limb of p.
pub const P3: u64 = 0x73eda753299d7d48;

/// 2^64 as a u128, the limb radix.
pub const RADIX: u128 = 0x10000000000000000;

/// The field order p.
pub open spec fn prime() -> nat {
    52435875175126190479447740508185965837690552500527637822603658699938581184513nat
}

/// 2^64.
pub open spec fn b64() -> nat {
    0x10000000000000000nat
}

/// 2^128.
pub open spec fn b128() -> nat {
    0x100000000000000000000000000000000nat
}

/// 2^192.
pub open spec fn b192() -> nat {
    0x1000000000000000000000000000000000000000000000000nat
}

/// 2^256.
pub open spec fn b256() -> nat {
    0x10000000000000000000000000000000000000000000000000000000000000000nat
}

/// Addition in the field: the sum reduced modulo p.
pub open spec fn addp(a: nat, b: nat) -> nat {
    (a + b) % prime()
}

/// Subtraction in the field: the difference reduced modulo p, in [0, p).
pub open spec fn subp(a: nat, b: nat) -> nat {
    ((a - b) % (prime() as int)) as nat
}

/// Multiplication in the field: the product reduced modulo p.
pub open spec fn mulp(a: nat, b: nat) -> nat {
    (a * b) % prime()
}

/// The value of four little-endian 64-bit limbs.
pub open spec fn nat_of_limbs(l0: u64, l1: u64, l2: u64, l3: u64) -> nat {
    (l0 + l1 * b64() + l2 * b128() + l3 * b192()) as nat
}

/// An element of the prime field, as four little-endian 64-bit limbs.
#[derive(Clone, Copy, PartialEq, Eq, Structural, Debug)]
pub struct Fp {
    pub l0: u64,
    pub l1: u64,
    pub l2: u64,
    pub l3: u64,
}

impl Fp {
    /// The integer this element stands for.
    pub open spec fn as_nat(self) -> nat {
        nat_of_limbs(self.l0, self.l1, self.l2, self.l3)
    }

    /// Well-formed: the representation is the canonical one, below p.
    pub open spec fn wf(self) -> bool {
        self.as_nat() < prime()
    }

    /// The additive identity.
    pub fn zero() -> (r: Fp)
        ensures
            r.wf(),
            r.as_nat() == 0,
    {
        Fp { l0: 0, l1: 0, l2: 0, l3: 0 }
    }

    /// Embeds a machine integer into the field; every u64 is below p.
    pub fn from_u64(n: u64) -> (r: Fp)
        ensures
            r.wf(),
            r.as_nat() == n,
    {
        Fp { l0: n, l1: 0, l2: 0, l3: 0 }
    }

    /// Whether the value is at least p (meaningful on raw limb vectors
    /// that a carry-free addition produced).
    fn ge_prime(self) -> (r: bool)
        ensures
            r <==> self.as_nat() >= prime(),
    {
        proof {
            lemma_limb_order(self);
        }
        if self.l3 != P3 {
            self.l3 > P3
        } else if self.l2 != P2 {
            self.l2 > P2
        } else if self.l1 != P1 {
            self.l1 > P1
        } else {
            self.l0 >= P0
        }
    }

    /// Subtracts p from a value known to be at least p.
    fn sub_prime(self) -> (r: Fp)
        requires
            self.as_nat() >= prime(),
        ensures
            r.as_nat() == self.as_nat() - prime(),
    {
        sub_limbs(self, Fp { l0: P0, l1: P1, l2: P2, l3: P3 })
    }

    /// Whether the representation is the canonical one, below p.
    pub fn is_canonical(&self) -> (r: bool)
        ensures
            r == self.wf(),
    {
        !self.ge_prime()
    }

    /// Field addition: the sum of the two values, reduced modulo p.
    pub fn add(self, other: Fp) -> (r: Fp)
        requires
            self.wf(),
            other.wf(),
        ensures
            r.wf(),
            r.as_nat() == (self.as_nat() + other.as_nat()) % prime(),
    {
        let raw = add_limbs(self, other);
        let r = if raw.ge_prime() {
            raw.sub_prime()
        } else {
            raw
        };
        proof {
            if raw.as_nat() >= prime() {
                lemma_mod_add_multiples_vanish(r.as_nat() as int, prime() as int);
            }
            lemma_small_mod(r.as_nat(), prime());
        }
        r
    }

    /// Field subtraction: the difference of the two values, modulo p.
    pub fn sub(self, other: Fp) -> (r: Fp)
        requires
            self.wf(),
            other.wf(),
        ensures
            r.wf(),
            r.as_nat() == (self.as_nat() - other.as_nat()) % (prime() as int),
    {
        let ge = ge_limbs(self, other);
        let r = if ge {
            sub_limbs(self, other)
        } else {
            // self < other: compute self + (p - other), which stays below p.
            let p_minus = sub_limbs(Fp { l0: P0, l1: P1, l2: P2, l3: P3 }, other);
            add_limbs(self, p_minus)
        };
        proof {
            let d = self.as_nat() - other.as_nat();
            if ge {
                lemma_small_mod(d as nat, prime());
            } else {
                lemma_mod_add_multiples_vanish(d, prime() as int);
                lemma_small_mod((d + prime()) as nat, prime());
            }
        }
        r
    }
}

impl Fp {
    /// Doubles the value 64 times, multiplying it by 2^64 modulo p.
    fn shift_limb(self) -> (r: Fp)
        requires
            self.wf(),
        ensures
            r.wf(),
            r.as_nat() == (self.as_nat() * b64()) % prime(),
    {
        let mut r = self;
        proof {
            lemma2_to64();
            lemma_small_mod(self.as_nat(), prime());
        }
        let mut i: u64 = 0;
        while i < 64
            invariant
                i <= 64,
                r.wf(),
                r.as_nat() == (self.as_nat() * pow2(i as nat)) % prime(),
            decreases 64 - i,
        {
            let ghost y = self.as_nat() * pow2(i as nat);
            r = r.add(r);
            proof {
                lemma_add_mod_noop(y as int, y as int, prime() as int);
                lemma2_to64();
                vstd::arithmetic::power2::lemma_pow2_adds(1, i as nat);
                assert(self.as_nat() * pow2((i + 1) as nat) == y + y) by (nonlinear_arith)
                    requires
                        pow2((i + 1) as nat) == 2 * pow2(i as nat),
                        y == self.as_nat() * pow2(i as nat),
                ;
            }
            i = i + 1;
        }
        proof {
            lemma2_to64();
        }
        r
    }

    /// Multiplies by a 64-bit scalar modulo p, by binary double-and-add.
    fn scalar_mul(self, s: u64) -> (r: Fp)
        requires
            self.wf(),
        ensures
            r.wf(),
            r.as_nat() == (self.as_nat() * (s as nat)) % prime(),
    {
        let mut res = Fp::zero();
        let mut cur = self;
        let mut x: u64 = s;
        let ghost mut done: nat = 0;
        let ghost mut mult: nat = 1;
        proof {
            lemma_small_mod(0, prime());
            lemma_small_mod(self.as_nat(), prime());
        }
        while x != 0
            invariant
                self.wf(),
                res.wf(),
                cur.wf(),
                res.as_nat() == (self.as_nat() * done) % prime(),
                cur.as_nat() == (self.as_nat() * mult) % prime(),
                done + x * mult == s,
            decreases x,
        {
            let ghost done0 = done;
            let ghost mult0 = mult;
            let ghost x0 = x;
            if x % 2 == 1 {
                let ghost yd = self.as_nat() * done;
                let ghost ym = self.as_nat() * mult;
                res = res.add(cur);
                proof {
                    lemma_add_mod_noop(yd as int, ym as int, prime() as int);
                    lemma_mul_is_distributive_add(
                        self.as_nat() as int,
                        done as int,
                        mult as int,
                    );
                    done = done + mult;
                }
            }
            let ghost ym = self.as_nat() * mult;
            cur = cur.add(cur);
            proof {
                lemma_add_mod_noop(ym as int, ym as int, prime() as int);
                assert(self.as_nat() * (2 * mult0) == ym + ym) by (nonlinear_arith)
                    requires
                        ym == self.as_nat() * mult0,
                ;
                mult = 2 * mult0;
            }
            x = x / 2;
            proof {
                assert(done + x * mult == s) by (nonlinear_arith)
                    requires
                        done == done0 + (x0 % 2) * mult0,
                        mult == 2 * mult0,
                        x == x0 / 2,
                        done0 + x0 * mult0 == s,
                ;
            }
        }
        res
    }

    /// Field multiplication: the product of the two values, reduced modulo p.
    ///
    /// The product is formed limb by limb from the top: shift the accumulator
    /// by one limb, then add the next scalar product.
    pub fn mul(self, other: Fp) -> (r: Fp)
        requires
            self.wf(),
            other.wf(),
        ensures
            r.wf(),
            r.as_nat() == (self.as_nat() * other.as_nat()) % prime(),
    {
        let a = self;
        let ghost av = a.as_nat() as int;
        let mut r = a.scalar_mul(other.l3);
        let ghost h3 = other.l3 as int;
        r = r.shift_limb();
        let t2 = a.scalar_mul(other.l2);
        r = r.add(t2);
        proof {
            lemma_shift_add(av, h3, other.l2 as int, prime() as int);
        }
        let ghost h2 = h3 * b64() as int + other.l2 as int;
        r = r.shift_limb();
        let t1 = a.scalar_mul(other.l1);
        r = r.add(t1);
        proof {
            lemma_shift_add(av, h2, other.l1 as int, prime() as int);
        }
        let ghost h1 = h2 * b64() as int + other.l1 as int;
        r = r.shift_limb();
        let t0 = a.scalar_mul(other.l0);
        r = r.add(t0);
        proof {
            lemma_shift_add(av, h1, other.l0 as int, prime() as int);
            let h0 = h1 * b64() as int + other.l0 as int;
            assert(h0 == other.as_nat()) by (nonlinear_arith)
                requires
                    h1 == (other.l3 as int * b64() as int + other.l2 as int) * b64() as int
                        + other.l1 as int,
                    h0 == h1 * b64() as int + other.l0 as int,
                    other.as_nat() == other.l0 + other.l1 * b64() + other.l2 * b128()
                        + other.l3 * b192(),
            ;
        }
        r
    }
}

/// After a shift by one limb and an add of the next scalar product, the
/// accumulator holds `a` times the longer Horner prefix, modulo m.
proof fn lemma_shift_add(a: int, h: int, d: int, m: int)
    requires
        m > 0,
    ensures
        ((((a * h) % m) * b64()) % m + (a * d) % m) % m == (a * (h * b64() + d)) % m,
{
    lemma_mul_mod_noop_left(a * h, b64() as int, m);
    lemma_add_mod_noop(a * h * b64(), a * d, m);
    assert(a * h * b64() + a * d == a * (h * b64() + d)) by (nonlinear_arith);
}

/// 256 to the power k: the place value of the k-th byte of a little-endian
/// encoding.
pub open spec fn p256(k: nat) -> nat
    decreases k,
{
    if k == 0 {
        1
    } else {
        256 * p256((k - 1) as nat)
    }
}

/// The k-th byte of the little-endian encoding of a 64-bit limb.
pub open spec fn limb_byte(l: u64, k: nat) -> u8 {
    (((l as nat) / p256(k)) % 256) as u8
}

/// The 8-byte little-endian encoding of a 64-bit limb.
pub open spec fn limb_bytes(l: u64) -> Seq<u8> {
    Seq::new(8, |k: int| limb_byte(l, k as nat))
}

/// The canonical 32-byte little-endian encoding of a field element.
pub open spec fn fp_bytes(e: Fp) -> Seq<u8> {
    limb_bytes(e.l0) + limb_bytes(e.l1) + limb_bytes(e.l2) + limb_bytes(e.l3)
}

/// Appends the 8 little-endian bytes of one limb.
fn push_limb_bytes(v: &mut Vec<u8>, l: u64)
    ensures
        final(v)@ == old(v)@ + limb_bytes(l),
{
    let ghost orig = v@;
    let mut cur: u64 = l;
    let mut k: usize = 0;
    proof {
        assert(p256(0) == 1);
        assert(l as nat / 1 == l as nat);
    }
    while k < 8
        invariant
            k <= 8,
            cur as nat == (l as nat) / p256(k as nat),
            v@.len() == orig.len() + k,
            forall|j: int| 0 <= j < orig.len() ==> v@[j] == orig[j],
            forall|j: int|
                0 <= j < k ==> #[trigger] v@[orig.len() + j] == limb_byte(l, j as nat),
        decreases 8 - k,
    {
        v.push((cur % 256) as u8);
        proof {
            lemma_p256_pos(k as nat);
            lemma_div_denominator(l as int, p256(k as nat) as int, 256);
            assert(p256((k + 1) as nat) == p256(k as nat) * 256) by {
                assert(256 * p256(k as nat) == p256(k as nat) * 256) by (nonlinear_arith);
            };
        }
        cur = cur / 256;
        k = k + 1;
    }
    proof {
        assert forall|i: int| 0 <= i < v@.len() implies v@[i] == (orig + limb_bytes(l))[i] by {
            if i >= orig.len() {
                let j = i - orig.len();
                assert(v@[orig.len() + j] == limb_byte(l, j as nat));
            }
        }
        assert(v@ =~= orig + limb_bytes(l));
    }
}

/// Every power of 256 is positive.
proof fn lemma_p256_pos(k: nat)
    ensures
        p256(k) >= 1,
    decreases k,
{
    if k > 0 {
        lemma_p256_pos((k - 1) as nat);
    }
}

impl Fp {
    /// The canonical 32-byte little-endian representation.
    pub fn to_le_bytes(&self) -> (r: Vec<u8>)
        ensures
            r@ == fp_bytes(*self),
            r@.len() == 32,
    {
        let mut v: Vec<u8> = Vec::new();
        push_limb_bytes(&mut v, self.l0);
        push_limb_bytes(&mut v, self.l1);
        push_limb_bytes(&mut v, self.l2);
        push_limb_bytes(&mut v, self.l3);
        proof {
            assert(v@ =~= fp_bytes(*self));
        }
        v
    }

    /// Reads the value as a machine integer, when it fits; the canonical
    /// little-endian form interpreted as a number.
    pub fn try_as_u64(&self) -> (r: Option<u64>)
        ensures
            match r {
                Some(n) => self.as_nat() == n,
                None => self.as_nat() >= b64(),
            },
    {
        if self.l1 == 0 && self.l2 == 0 && self.l3 == 0 {
            Some(self.l0)
        } else {
            proof {
                if self.l1 >= 1 {
                    assert(self.l1 * b64() >= b64());
                }
                if self.l2 >= 1 {
                    assert(self.l2 * b128() >= b128());
                }
                if self.l3 >= 1 {
                    assert(self.l3 * b192() >= b192());
                }
            }
            None
        }
    }

    /// A field element drawn from the thread-local random generator.
    pub fn random() -> (r: Fp)
        ensures
            r.wf(),
    {
        let (a0, a1, a2, a3) = random_limbs();
        // Clearing the top bit leaves a value below 2^255 < 2p, so at most
        // one subtraction of p is needed.
        let c = Fp { l0: a0, l1: a1, l2: a2, l3: a3 % 0x8000000000000000 };
        proof {
            assert((a3 % 0x8000000000000000) * b192() <= 0x7fffffffffffffff * b192());
        }
        if c.ge_prime() {
            c.sub_prime()
        } else {
            c
        }
    }
}

/// Relies on rand::random: four machine words from the thread-local
/// generator; nothing is assumed of their values.
#[verifier::external_body]
fn random_limbs() -> (r: (u64, u64, u64, u64)) {
    let x: [u64; 4] = rand::random();
    (x[0], x[1], x[2], x[3])
}

/// If the limbs compare lexicographically from the top, so do the values.
proof fn lemma_limb_cmp(a: Fp, b: Fp)
    ensures
        a.l3 > b.l3 ==> a.as_nat() > b.as_nat(),
        a.l3 == b.l3 && a.l2 > b.l2 ==> a.as_nat() > b.as_nat(),
        a.l3 == b.l3 && a.l2 == b.l2 && a.l1 > b.l1 ==> a.as_nat() > b.as_nat(),
        a.l3 == b.l3 && a.l2 == b.l2 && a.l1 == b.l1 ==> a.as_nat() - b.as_nat() == a.l0 - b.l0,
{
}

/// Lexicographic comparison against the limbs of p.
proof fn lemma_limb_order(a: Fp)
    ensures
        a.l3 > P3 ==> a.as_nat() > prime(),
        a.l3 < P3 ==> a.as_nat() < prime(),
        a.l3 == P3 && a.l2 > P2 ==> a.as_nat() > prime(),
        a.l3 == P3 && a.l2 < P2 ==> a.as_nat() < prime(),
        a.l3 == P3 && a.l2 == P2 && a.l1 > P1 ==> a.as_nat() > prime(),
        a.l3 == P3 && a.l2 == P2 && a.l1 < P1 ==> a.as_nat() < prime(),
        a.l3 == P3 && a.l2 == P2 && a.l1 == P1 ==> (a.as_nat() >= prime() <==> a.l0 >= P0),
{
    let p = Fp { l0: P0, l1: P1, l2: P2, l3: P3 };
    assert(p.as_nat() == prime());
    lemma_limb_cmp(a, p);
    lemma_limb_cmp(p, a);
}

/// Whether `a >= b` as values.
fn ge_limbs(a: Fp, b: Fp) -> (r: bool)
    ensures
        r <==> a.as_nat() >= b.as_nat(),
{
    proof {
        lemma_limb_cmp(a, b);
        lemma_limb_cmp(b, a);
    }
    if a.l3 != b.l3 {
        a.l3 > b.l3
    } else if a.l2 != b.l2 {
        a.l2 > b.l2
    } else if a.l1 != b.l1 {
        a.l1 > b.l1
    } else {
        a.l0 >= b.l0
    }
}

/// Adds two limb vectors whose values sum below 2^256, so no carry leaves.
fn add_limbs(a: Fp, b: Fp) -> (r: Fp)
    requires
        a.as_nat() + b.as_nat() < b256(),
    ensures
        r.as_nat() == a.as_nat() + b.as_nat(),
{
    let t0: u128 = a.l0 as u128 + b.l0 as u128;
    let r0: u64 = (t0 % RADIX) as u64;
    let c0: u64 = (t0 / RADIX) as u64;
    let t1: u128 = a.l1 as u128 + b.l1 as u128 + c0 as u128;
    let r1: u64 = (t1 % RADIX) as u64;
    let c1: u64 = (t1 / RADIX) as u64;
    let t2: u128 = a.l2 as u128 + b.l2 as u128 + c1 as u128;
    let r2: u64 = (t2 % RADIX) as u64;
    let c2: u64 = (t2 / RADIX) as u64;
    let t3: u128 = a.l3 as u128 + b.l3 as u128 + c2 as u128;
    let r3: u64 = (t3 % RADIX) as u64;
    let c3: u64 = (t3 / RADIX) as u64;
    proof {
        lemma_fundamental_div_mod(t0 as int, RADIX as int);
        lemma_fundamental_div_mod(t1 as int, RADIX as int);
        lemma_fundamental_div_mod(t2 as int, RADIX as int);
        lemma_fundamental_div_mod(t3 as int, RADIX as int);
        assert(c3 == 0) by {
            assert(nat_of_limbs(r0, r1, r2, r3) + c3 * b256() == a.as_nat() + b.as_nat());
        };
    }
    Fp { l0: r0, l1: r1, l2: r2, l3: r3 }
}

/// Subtracts limb vectors, `a - b`, for `a >= b`.
fn sub_limbs(a: Fp, b: Fp) -> (r: Fp)
    requires
        a.as_nat() >= b.as_nat(),
    ensures
        r.as_nat() == a.as_nat() - b.as_nat(),
{
    let t0: u128 = RADIX + a.l0 as u128 - b.l0 as u128;
    let r0: u64 = (t0 % RADIX) as u64;
    let w0: u64 = 1 - (t0 / RADIX) as u64;
    let t1: u128 = RADIX + a.l1 as u128 - b.l1 as u128 - w0 as u128;
    let r1: u64 = (t1 % RADIX) as u64;
    let w1: u64 = 1 - (t1 / RADIX) as u64;
    let t2: u128 = RADIX + a.l2 as u128 - b.l2 as u128 - w1 as u128;
    let r2: u64 = (t2 % RADIX) as u64;
    let w2: u64 = 1 - (t2 / RADIX) as u64;
    let t3: u128 = RADIX + a.l3 as u128 - b.l3 as u128 - w2 as u128;
    let r3: u64 = (t3 % RADIX) as u64;
    let w3: u64 = 1 - (t3 / RADIX) as u64;
    proof {
        lemma_fundamental_div_mod(t0 as int, RADIX as int);
        lemma_fundamental_div_mod(t1 as int, RADIX as int);
        lemma_fundamental_div_mod(t2 as int, RADIX as int);
        lemma_fundamental_div_mod(t3 as int, RADIX as int);
        assert(w3 == 0) by {
            assert(nat_of_limbs(r0, r1, r2, r3) == a.as_nat() - b.as_nat() + w3 * b256());
        };
    }
    Fp { l0: r0, l1: r1, l2: r2, l3: r3 }
}

} // verus!
