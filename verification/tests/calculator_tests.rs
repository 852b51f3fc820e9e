//! The per-party share algebra, summed over all parties on concrete
//! values: each operation preserves the additive and MAC invariants.

use priv_ins::field::Fp;
use priv_ins::protocol::arithmetics::{verify_commitments, Calculator};
use priv_ins::shares::{self, Elem};

fn calculators(alpha_shares: &Vec<Elem>) -> Vec<Calculator> {
    alpha_shares
        .iter()
        .enumerate()
        .map(|(id, a)| Calculator {
            id: id as u64,
            alpha_share: *a,
        })
        .collect()
}

#[test]
fn test_add() {
    let alpha = Fp::from_u64(69);
    let a = Fp::from_u64(2137);
    let b = Fp::from_u64(420);
    let n_parties = 5;
    let alpha_shares = shares::elems_from_secret(&alpha, n_parties);
    let a_shares = shares::shares_from_secret(&a, &alpha_shares, n_parties);
    let b_shares = shares::shares_from_secret(&b, &alpha_shares, n_parties);

    let calcs = calculators(&alpha_shares);

    let macs: Vec<_> = a_shares
        .iter()
        .zip(b_shares.iter())
        .zip(calcs.iter())
        .map(|((m_a, m_b), c)| c.add(*m_a, *m_b))
        .collect();
    let shared = macs.iter().fold(Fp::zero(), |x, &y| x.add(y.0));
    let shared_alpha = macs.iter().fold(Fp::zero(), |x, &y| x.add(y.1));

    assert_eq!(shared, a.add(b));
    assert_eq!(shared_alpha, alpha.mul(a.add(b)));
}

#[test]
fn test_sub() {
    let alpha = Fp::from_u64(69);
    let a = Fp::from_u64(2137);
    let b = Fp::from_u64(420);
    let n_parties = 5;
    let alpha_shares = shares::elems_from_secret(&alpha, n_parties);
    let a_shares = shares::shares_from_secret(&a, &alpha_shares, n_parties);
    let b_shares = shares::shares_from_secret(&b, &alpha_shares, n_parties);

    let calcs = calculators(&alpha_shares);

    let macs: Vec<_> = a_shares
        .iter()
        .zip(b_shares.iter())
        .zip(calcs.iter())
        .map(|((m_a, m_b), c)| c.sub(*m_a, *m_b))
        .collect();
    let shared = macs.iter().fold(Fp::zero(), |x, &y| x.add(y.0));
    let shared_alpha = macs.iter().fold(Fp::zero(), |x, &y| x.add(y.1));

    assert_eq!(shared, a.sub(b));
    assert_eq!(shared_alpha, alpha.mul(a.sub(b)));
}

#[test]
fn test_add_const() {
    let alpha = Fp::from_u64(69);
    let a = Fp::from_u64(2137);
    let b = Fp::from_u64(420);
    let n_parties = 5;
    let alpha_shares = shares::elems_from_secret(&alpha, n_parties);
    let a_shares = shares::shares_from_secret(&a, &alpha_shares, n_parties);

    let calcs = calculators(&alpha_shares);

    let macs: Vec<_> = a_shares
        .iter()
        .zip(calcs.iter())
        .map(|(m_a, c)| c.add_const(*m_a, b))
        .collect();
    let shared = macs.iter().fold(Fp::zero(), |x, &y| x.add(y.0));
    let shared_alpha = macs.iter().fold(Fp::zero(), |x, &y| x.add(y.1));

    assert_eq!(shared, a.add(b));
    assert_eq!(shared_alpha, alpha.mul(a.add(b)));
}

#[test]
fn test_mul_by_const() {
    let alpha = Fp::from_u64(69);
    let a = Fp::from_u64(2137);
    let b = Fp::from_u64(420);
    let n_parties = 5;
    let alpha_shares = shares::elems_from_secret(&alpha, n_parties);
    let a_shares = shares::shares_from_secret(&a, &alpha_shares, n_parties);

    let calcs = calculators(&alpha_shares);

    let macs: Vec<_> = a_shares
        .iter()
        .zip(calcs.iter())
        .map(|(m_a, c)| c.mul_by_const(*m_a, b))
        .collect();
    let shared = macs.iter().fold(Fp::zero(), |x, &y| x.add(y.0));
    let shared_alpha = macs.iter().fold(Fp::zero(), |x, &y| x.add(y.1));

    assert_eq!(shared, a.mul(b));
    assert_eq!(shared_alpha, alpha.mul(a.mul(b)));
}

#[test]
fn test_mul_prepare() {
    let alpha = Fp::from_u64(69);
    let a = Fp::from_u64(2137);
    let b = Fp::from_u64(420);
    let n_parties = 5;
    let alpha_shares = shares::elems_from_secret(&alpha, n_parties);
    let a_shares = shares::shares_from_secret(&a, &alpha_shares, n_parties);
    let b_shares = shares::shares_from_secret(&b, &alpha_shares, n_parties);

    let calcs = calculators(&alpha_shares);
    let beaver_shares = shares::random_beaver(&alpha_shares, n_parties);

    let macs: Vec<_> = a_shares
        .iter()
        .zip(b_shares.iter())
        .zip(calcs.iter())
        .zip(beaver_shares.iter())
        .map(|(((m_a, m_b), c), bv)| c.mul_prepare(*m_a, *m_b, *bv))
        .collect();

    let shared = macs.iter().fold((Fp::zero(), Fp::zero()), |x, &y| {
        (x.0.add(y.0 .0), x.1.add(y.1 .0))
    });
    let shared_alpha = macs.iter().fold((Fp::zero(), Fp::zero()), |x, &y| {
        (x.0.add(y.0 .1), x.1.add(y.1 .1))
    });

    let beaver_a = shares::sum_elems(&beaver_shares.iter().map(|bv| bv.0 .0).collect());
    let beaver_b = shares::sum_elems(&beaver_shares.iter().map(|bv| bv.1 .0).collect());

    assert_eq!(shared.0, a.sub(beaver_a));
    assert_eq!(shared.1, b.sub(beaver_b));

    assert_eq!(shared_alpha.0, alpha.mul(a.sub(beaver_a)));
    assert_eq!(shared_alpha.1, alpha.mul(b.sub(beaver_b)));
}

#[test]
fn test_mul() {
    let alpha = Fp::from_u64(69);
    let a = Fp::from_u64(2137);
    let b = Fp::from_u64(420);
    let n_parties = 5;
    let alpha_shares = shares::elems_from_secret(&alpha, n_parties);

    let calcs = calculators(&alpha_shares);
    let beaver_shares = shares::random_beaver(&alpha_shares, n_parties);

    let beaver_a = shares::sum_elems(&beaver_shares.iter().map(|bv| bv.0 .0).collect());
    let beaver_b = shares::sum_elems(&beaver_shares.iter().map(|bv| bv.1 .0).collect());

    let macs: Vec<_> = calcs
        .iter()
        .zip(beaver_shares.iter())
        .map(|(c, beaver)| c.mul(*beaver, a.sub(beaver_a), b.sub(beaver_b)))
        .collect();

    let shared = macs.iter().fold(Fp::zero(), |x, &y| x.add(y.0));
    let shared_alpha = macs.iter().fold(Fp::zero(), |x, &y| x.add(y.1));

    assert_eq!(shared, a.mul(b));
    assert_eq!(shared_alpha, alpha.mul(a).mul(b));
}

#[test]
fn commitment_audit_accepts_zero_sum() {
    // three committed values that sum to zero in the field
    let v1 = Fp::from_u64(5);
    let v2 = Fp::from_u64(7);
    let v3 = Fp::zero().sub(Fp::from_u64(12));
    let mut proofs = Vec::new();
    for v in [v1, v2, v3] {
        let (h, salt) = Calculator::generate_commitment(&v);
        proofs.push((h, v, salt));
    }
    assert!(verify_commitments(&proofs));
}

#[test]
fn commitment_audit_rejects_nonzero_sum() {
    let v1 = Fp::from_u64(5);
    let v2 = Fp::from_u64(7);
    let v3 = Fp::zero().sub(Fp::from_u64(13));
    let mut proofs = Vec::new();
    for v in [v1, v2, v3] {
        let (h, salt) = Calculator::generate_commitment(&v);
        proofs.push((h, v, salt));
    }
    assert!(!verify_commitments(&proofs));
}

#[test]
fn commitment_audit_rejects_wrong_hash() {
    let v1 = Fp::from_u64(5);
    let v2 = Fp::zero().sub(Fp::from_u64(5));
    let (h1, salt1) = Calculator::generate_commitment(&v1);
    let (_, salt2) = Calculator::generate_commitment(&v2);
    let (wrong, _) = Calculator::generate_commitment(&Fp::from_u64(6));
    let proofs = vec![(h1, v1, salt1), (wrong, v2, salt2)];
    assert!(!verify_commitments(&proofs));
}

#[test]
fn commitment_share_sums_to_zero_for_honest_opening() {
    // parties share x, open it honestly, then their audit values
    // d_i = alpha_i * x - m_i sum to zero
    let alpha = Fp::from_u64(31);
    let x = Fp::from_u64(77);
    let n_parties = 4;
    let alpha_shares = shares::elems_from_secret(&alpha, n_parties);
    let x_shares = shares::shares_from_secret(&x, &alpha_shares, n_parties);
    let calcs = calculators(&alpha_shares);
    let opened = shares::sum_elems(&x_shares.iter().map(|s| s.0).collect());
    assert_eq!(x, opened);
    let ds: Vec<_> = calcs
        .iter()
        .zip(x_shares.iter())
        .map(|(c, s)| c.generate_commitment_share(opened, *s))
        .collect();
    let total = ds.iter().fold(Fp::zero(), |acc, &d| acc.add(d));
    assert_eq!(Fp::zero(), total);
}
