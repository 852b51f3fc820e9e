//! Secret sharing, commitments and field arithmetic, exercised on
//! concrete values.

use priv_ins::field::Fp;
use priv_ins::shares::{
    compute_commitment, elems_from_secret, hash, random_beaver, random_salt, shares_from_secret,
    sum_elems,
};

#[test]
fn generate_elems_correctly() {
    let n_parties = 100;
    let alpha = elems_from_secret(&Fp::from_u64(420), n_parties);

    assert_eq!(n_parties as usize, alpha.len());
    assert_eq!(Fp::from_u64(420), sum_elems(&alpha));
}

#[test]
fn generate_shares_correctly() {
    let n_parties = 100;
    let alpha = elems_from_secret(&Fp::from_u64(420), n_parties);
    let shares = shares_from_secret(&Fp::from_u64(42), &alpha, n_parties);

    assert_eq!(n_parties as usize, shares.len());
    assert_eq!(
        Fp::from_u64(42),
        sum_elems(&shares.iter().map(|s| s.0).collect())
    );
    assert_eq!(
        Fp::from_u64(42 * 420),
        sum_elems(&shares.iter().map(|s| s.1).collect())
    );
}

#[test]
fn generate_beaver_correctly() {
    let n_parties = 100;
    let alpha = elems_from_secret(&Fp::from_u64(420), n_parties);
    let beaver_shares = random_beaver(&alpha, 100);

    assert_eq!(n_parties as usize, beaver_shares.len());
    assert_eq!(
        sum_elems(&beaver_shares.iter().map(|(a, _, _)| a.0).collect())
            .mul(sum_elems(&beaver_shares.iter().map(|(_, b, _)| b.0).collect())),
        sum_elems(&beaver_shares.iter().map(|(_, _, c)| c.0).collect()),
    );
    assert_eq!(
        sum_elems(&beaver_shares.iter().map(|(a, _, _)| a.1).collect())
            .mul(sum_elems(&beaver_shares.iter().map(|(_, b, _)| b.1).collect())),
        Fp::from_u64(420).mul(sum_elems(&beaver_shares.iter().map(|(_, _, c)| c.1).collect())),
    );
}

#[test]
fn field_arithmetic_exact_values() {
    let three = Fp::from_u64(3);
    let four = Fp::from_u64(4);
    assert_eq!(Fp::from_u64(7), three.add(four));
    assert_eq!(Fp::from_u64(12), three.mul(four));
    assert_eq!(Fp::from_u64(1), four.sub(three));
    // wraps around the field order: (0 - 1) + 1 == 0
    let minus_one = Fp::zero().sub(Fp::from_u64(1));
    assert_ne!(Fp::zero(), minus_one);
    assert_eq!(Fp::zero(), minus_one.add(Fp::from_u64(1)));
    assert_eq!(Fp::from_u64(1), minus_one.mul(minus_one));
}

#[test]
fn field_u64_round_trip() {
    let x = Fp::from_u64(16809);
    assert_eq!(Some(16809), x.try_as_u64());
    let big = Fp::zero().sub(Fp::from_u64(1));
    assert_eq!(None, big.try_as_u64());
}

#[test]
fn field_bytes_little_endian() {
    let x = Fp::from_u64(0x0102030405060708);
    let bytes = x.to_le_bytes();
    assert_eq!(32, bytes.len());
    assert_eq!(0x08, bytes[0]);
    assert_eq!(0x01, bytes[7]);
    for i in 8..32 {
        assert_eq!(0, bytes[i]);
    }
}

#[test]
fn commitment_round_trip() {
    let elem = Fp::from_u64(2137);
    let salt = random_salt();
    assert_eq!(32, salt.len());
    let h = compute_commitment(&elem, &salt);
    // recomputing with the same value and salt matches
    assert_eq!(h, compute_commitment(&elem, &salt));
    // a different value yields a different hash
    let h2 = compute_commitment(&Fp::from_u64(2138), &salt);
    assert_ne!(h, h2);
}

#[test]
fn hash_depends_on_input() {
    let a = hash(&[1, 2, 3]);
    let b = hash(&[1, 2, 3]);
    let c = hash(&[1, 2, 4]);
    assert_eq!(a, b);
    assert_ne!(a, c);
    // the digest is not the input handed back
    assert_ne!(&a[..3], &[1u8, 2, 3][..]);
}
