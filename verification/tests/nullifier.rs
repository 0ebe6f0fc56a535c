use zkas_shielded::field::Nullifier;
use zkas_shielded::nullifier::{
    key, MemNullifierSet, NullifierBytes, NullifierConflict, NullifierConflictResolver,
    NullifierSet,
};

fn nf(n: u8) -> NullifierBytes {
    let mut b = [0u8; 32];
    b[0] = n;
    b
}

#[test]
fn distinct_transactions_all_accepted() {
    let finalized = MemNullifierSet::new();
    let mut r = NullifierConflictResolver::new(&finalized);
    assert!(r.try_accept(&[nf(1), nf(2)]).is_ok());
    assert!(r.try_accept(&[nf(3)]).is_ok());
    assert_eq!(r.accepted(), &[nf(1), nf(2), nf(3)]);
}

#[test]
fn reused_nullifier_across_txs_is_dropped_first_wins() {
    let finalized = MemNullifierSet::new();
    let mut r = NullifierConflictResolver::new(&finalized);
    assert!(r.try_accept(&[nf(7)]).is_ok());
    // A later tx reusing nf(7) is rejected; first occurrence wins.
    assert_eq!(r.try_accept(&[nf(7)]), Err(NullifierConflict::AlreadySpent(nf(7))));
    // Rejection records nothing.
    assert_eq!(r.accepted(), &[nf(7)]);
}

#[test]
fn rejection_is_all_or_nothing() {
    let finalized = MemNullifierSet::new();
    let mut r = NullifierConflictResolver::new(&finalized);
    r.try_accept(&[nf(1)]).unwrap();
    assert!(r.try_accept(&[nf(9), nf(1)]).is_err());
    assert_eq!(r.accepted(), &[nf(1)]);
    assert!(!r.conflicts(&nf(9)));
}

#[test]
fn conflict_with_finalized_set() {
    let mut finalized = MemNullifierSet::new();
    finalized.insert(nf(5));
    let mut r = NullifierConflictResolver::new(&finalized);
    assert_eq!(r.try_accept(&[nf(5)]), Err(NullifierConflict::AlreadySpent(nf(5))));
}

#[test]
fn duplicate_within_tx_rejected() {
    let finalized = MemNullifierSet::new();
    let mut r = NullifierConflictResolver::new(&finalized);
    assert_eq!(
        r.try_accept(&[nf(4), nf(4)]),
        Err(NullifierConflict::DuplicateWithinTx(nf(4)))
    );
}

#[test]
fn parallel_double_spend_exactly_one_survives() {
    let finalized = MemNullifierSet::new();
    let mut r = NullifierConflictResolver::new(&finalized);

    let x_ok = r.try_accept(&[nf(42)]).is_ok();
    let y_ok = r.try_accept(&[nf(42)]).is_ok();

    assert!(x_ok, "first occurrence in accepted order wins");
    assert!(!y_ok, "second is rejected as a double-spend");
    assert_eq!(r.accepted(), &[nf(42)]);

    let accepted = r.into_accepted();
    let mut finalized = finalized;
    finalized.extend(&accepted);
    assert_eq!(finalized.len(), 1);
    assert!(finalized.contains(&nf(42)));
}

#[test]
fn duplicate_is_reported_before_an_earlier_spend_of_the_same_nullifier() {
    let mut finalized = MemNullifierSet::new();
    finalized.insert(nf(2));
    let mut r = NullifierConflictResolver::new(&finalized);
    // Position 1 is the first conflict, and it is an earlier spend.
    assert_eq!(
        r.try_accept(&[nf(1), nf(2), nf(2)]),
        Err(NullifierConflict::AlreadySpent(nf(2)))
    );
    assert_eq!(
        r.try_accept(&[nf(1), nf(1), nf(2)]),
        Err(NullifierConflict::DuplicateWithinTx(nf(1)))
    );
}

#[test]
fn set_holds_each_nullifier_once_whatever_the_order() {
    let mut s = MemNullifierSet::new();
    assert!(s.is_empty());
    for n in [9u8, 3, 7, 3, 1, 9, 200] {
        s.insert(nf(n));
    }
    assert_eq!(s.len(), 5);
    assert!(!s.insert(nf(7)));
    assert!(s.insert(nf(8)));
    assert!(!s.is_empty());
    let sorted = s.items();
    assert!(sorted.windows(2).all(|w| w[0] < w[1]));
    assert!(!s.contains(&nf(2)));
}

#[test]
fn decoded_nullifiers_are_accepted_by_their_bytes() {
    let finalized = MemNullifierSet::new();
    let mut r = NullifierConflictResolver::new(&finalized);
    let a = Nullifier::from_bytes(&nf(1)).unwrap();
    let b = Nullifier::from_bytes(&nf(2)).unwrap();
    assert_eq!(key(&a), nf(1));
    assert!(Nullifier::from_bytes(&[0xff; 32]).is_none());
    r.try_accept_nullifiers(&[a, b]).unwrap();
    assert_eq!(r.accepted(), &[nf(1), nf(2)]);
    assert!(r.try_accept_nullifiers(&[b]).is_err());
}
