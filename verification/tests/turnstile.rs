use zkas_shielded::turnstile::{
    accumulate, commit, reconcile, zero_trapdoor, SupplyLedger, TurnstileViolation,
    ValueCommitmentAccumulator,
};
use zkas_shielded::value::{ValueCommitTrapdoor, ValueCommitment};

fn trapdoor(seed: u8) -> ValueCommitTrapdoor {
    let mut b = [0u8; 32];
    b[0] = seed;
    ValueCommitTrapdoor::from_bytes(b).expect("canonical scalar")
}

#[test]
fn ledger_tracks_pool_value() {
    let mut l = SupplyLedger::new();
    l.mint_coinbase(100).unwrap();
    l.collect_fees(30).unwrap();
    assert_eq!(l.pool_value().unwrap(), 70);
    assert!(l.check().is_ok());
}

#[test]
fn ledger_rejects_spending_more_than_issued() {
    let mut l = SupplyLedger::new();
    l.mint_coinbase(100).unwrap();
    l.collect_fees(100).unwrap();
    assert_eq!(l.pool_value().unwrap(), 0);
    l.collect_fees(1).unwrap();
    assert_eq!(l.check(), Err(TurnstileViolation::PoolUnderflow { coinbase: 100, fees: 101 }));
}

#[test]
fn ledger_refuses_to_overflow() {
    let mut l = SupplyLedger::from_totals(u128::MAX, u128::MAX - 1);
    assert_eq!(l.mint_coinbase(1), Err(TurnstileViolation::Overflow));
    assert_eq!(l.collect_fees(2), Err(TurnstileViolation::Overflow));
    assert_eq!(l.cumulative_coinbase(), u128::MAX);
    assert_eq!(l.cumulative_fees(), u128::MAX - 1);
    assert_eq!(l.pool_value(), Ok(1));
}

#[test]
fn value_commitments_are_homomorphic() {
    let r1 = trapdoor(7);
    let r2 = trapdoor(9);
    let lhs = commit(40, trapdoor(7)).add(&commit(25, trapdoor(9)));
    let rhs = commit(65, r1.add(&r2));
    assert_eq!(lhs.to_bytes(), rhs.to_bytes());
}

#[test]
fn reconcile_detects_inflation() {
    let pool_gain: i64 = 40;
    let sum_cv = commit(-pool_gain, trapdoor(5));
    assert!(reconcile(&sum_cv, pool_gain, trapdoor(5)).is_ok());
    assert_eq!(
        reconcile(&sum_cv, pool_gain + 1, trapdoor(5)),
        Err(TurnstileViolation::CommitmentMismatch)
    );
    assert_eq!(
        reconcile(&sum_cv, pool_gain, trapdoor(6)),
        Err(TurnstileViolation::CommitmentMismatch)
    );
}

#[test]
fn accumulator_sums_commitments() {
    let mut acc = ValueCommitmentAccumulator::new();
    acc.add(&commit(10, trapdoor(1)));
    acc.add(&commit(-3, trapdoor(2)));
    let expected = commit(7, trapdoor(1).add(&trapdoor(2)));
    assert_eq!(acc.total().to_bytes(), expected.to_bytes());
    let all = accumulate(&[10, -3], &[trapdoor(1), trapdoor(2)]);
    assert_eq!(all.total().to_bytes(), expected.to_bytes());
}

#[test]
fn subtracting_a_commitment_undoes_adding_it() {
    let a = commit(12, trapdoor(3));
    let b = commit(i64::MIN, trapdoor(4));
    assert_eq!(a.add(&b).sub(&b).to_bytes(), a.to_bytes());
    assert_ne!(a.add(&b).to_bytes(), a.to_bytes());
    assert_eq!(commit(0, zero_trapdoor()).to_bytes(), [0u8; 32]);
    assert!(ValueCommitment::from_bytes(&[0u8; 32]).is_some());
    assert!(ValueCommitment::from_bytes(&[0xff; 32]).is_none());
    assert!(ValueCommitTrapdoor::from_bytes([0xff; 32]).is_none());
}
