use zkas_shielded::bundle::{sizes, ActionWire, ShieldedBundle};
use zkas_shielded::field::ExtractedNoteCommitment;
use zkas_shielded::nullifier::{NullifierBytes, NullifierSet};
use zkas_shielded::state::{
    BundleExtractError, CoinbaseMint, CoinbaseNote, ShieldedState, ShieldedStateError, ShieldedTx,
};
use zkas_shielded::tree::NoteCommitmentTree;
use zkas_shielded::turnstile::{SupplyLedger, TurnstileViolation};

fn cmx(n: u32) -> ExtractedNoteCommitment {
    let mut b = [0u8; 32];
    b[0..4].copy_from_slice(&n.to_le_bytes());
    ExtractedNoteCommitment::from_bytes(&b).expect("canonical")
}

fn nf(n: u8) -> NullifierBytes {
    let mut b = [0u8; 32];
    b[0] = n;
    b
}

fn tx(nfs: &[u8], cmxs: &[u32], fee: u64) -> ShieldedTx {
    ShieldedTx {
        nullifiers: nfs.iter().map(|&n| nf(n)).collect(),
        commitments: cmxs.iter().map(|&c| cmx(c)).collect(),
        fee,
        anchor: [0u8; 32],
    }
}

#[test]
fn parallel_double_spend_one_survives_identical_anchor_no_inflation() {
    let build = || {
        let mut st = ShieldedState::new();
        let out_x = st
            .apply_chain_block(
                Some(&CoinbaseMint::new(vec![CoinbaseNote { value: 50, commitment: cmx(10) }])),
                &[tx(&[1], &[100], 5)],
            )
            .unwrap();
        assert_eq!(out_x.accepted, vec![0], "X's spend is the first occurrence -> accepted");

        let out_y = st
            .apply_chain_block(
                Some(&CoinbaseMint::new(vec![CoinbaseNote { value: 50, commitment: cmx(20) }])),
                &[tx(&[1], &[200], 5)],
            )
            .unwrap();
        assert!(out_y.accepted.is_empty(), "Y's spend reuses nf(1) -> dropped as a double-spend");
        st
    };

    let node_a = build();
    let node_b = build();
    assert_eq!(node_a.anchor().to_bytes(), node_b.anchor().to_bytes());
    assert_eq!(node_a.nullifiers.len(), 1);
    assert!(node_a.nullifiers.contains(&nf(1)));
    assert_eq!(node_a.supply.pool_value().unwrap(), 100 - 5);
    assert_eq!(node_a.tree.size(), 3);
}

#[test]
fn distinct_parallel_spends_all_survive() {
    let mut st = ShieldedState::new();
    let a = st.apply_chain_block(None, &[tx(&[1], &[100], 0)]).unwrap();
    assert_eq!(a.accepted, vec![0]);
    let b = st.apply_chain_block(None, &[tx(&[2], &[200], 0)]).unwrap();
    assert_eq!(b.accepted, vec![0]);
    assert_eq!(st.nullifiers.len(), 2);
    assert_eq!(st.tree.size(), 2);
}

#[test]
fn dropped_double_spend_does_not_affect_anchor() {
    let mut with_conflict = ShieldedState::new();
    with_conflict.apply_chain_block(None, &[tx(&[1], &[100], 0)]).unwrap();
    with_conflict.apply_chain_block(None, &[tx(&[1], &[200], 0)]).unwrap(); // dropped

    let mut without = ShieldedState::new();
    without.apply_chain_block(None, &[tx(&[1], &[100], 0)]).unwrap();
    without.apply_chain_block(None, &[]).unwrap();

    assert_eq!(with_conflict.anchor().to_bytes(), without.anchor().to_bytes());
    assert_eq!(with_conflict.tree.size(), without.tree.size());
}

fn action(nf_seed: u8, cmx_n: u32) -> ActionWire {
    let mut cmxb = [0u8; 32];
    cmxb[0..4].copy_from_slice(&cmx_n.to_le_bytes());
    ActionWire {
        nullifier: nf(nf_seed),
        rk: [0; 32],
        cmx: cmxb,
        cv_net: [0; 32],
        ephemeral_key: [0; 32],
        enc_ciphertext: [0; sizes::ENC_CIPHERTEXT],
        out_ciphertext: [0; sizes::OUT_CIPHERTEXT],
        spend_auth_sig: [0; sizes::SIG],
    }
}

#[test]
fn extract_shielded_tx_from_bundle() {
    let bundle = ShieldedBundle {
        actions: vec![action(1, 100), action(2, 101)],
        flags: 0b11,
        value_balance: 7,
        anchor: [0; 32],
        proof: vec![],
        binding_sig: [0; 64],
    };
    let stx = ShieldedTx::from_bundle(&bundle).unwrap();
    assert_eq!(stx.nullifiers, vec![nf(1), nf(2)]);
    assert_eq!(stx.commitments.len(), 2);
    assert_eq!(stx.fee, 7);
}

#[test]
fn extract_rejects_minting_value_balance() {
    let bundle = ShieldedBundle {
        actions: vec![],
        flags: 0,
        value_balance: -1,
        anchor: [0; 32],
        proof: vec![],
        binding_sig: [0; 64],
    };
    assert!(matches!(
        ShieldedTx::from_bundle(&bundle),
        Err(BundleExtractError::MintingValueBalance)
    ));
}

#[test]
fn extract_rejects_non_canonical_commitment() {
    let mut bad = action(1, 0);
    bad.cmx = [0xff; 32]; // not a canonical Pallas base-field element
    let bundle = ShieldedBundle {
        actions: vec![bad],
        flags: 0,
        value_balance: 0,
        anchor: [0; 32],
        proof: vec![],
        binding_sig: [0; 64],
    };
    assert!(matches!(
        ShieldedTx::from_bundle(&bundle),
        Err(BundleExtractError::NonCanonicalCommitment)
    ));
}

#[test]
fn turnstile_rejects_overspend_and_preserves_state() {
    let mut st = ShieldedState::new();
    st.apply_chain_block(
        Some(&CoinbaseMint::new(vec![CoinbaseNote { value: 10, commitment: cmx(1) }])),
        &[],
    )
    .unwrap();
    let anchor_before = st.anchor().to_bytes();

    let err = st.apply_chain_block(None, &[tx(&[5], &[2], 11)]).unwrap_err();
    assert_eq!(
        err,
        ShieldedStateError::Turnstile(TurnstileViolation::PoolUnderflow { coinbase: 10, fees: 11 })
    );

    assert_eq!(st.anchor().to_bytes(), anchor_before);
    assert!(!st.nullifiers.contains(&nf(5)));
    assert_eq!(st.tree.size(), 1);
}

#[test]
fn totals_beyond_64_bits_are_an_overflow() {
    let mut st = ShieldedState::new();
    let note = CoinbaseNote { value: u64::MAX, commitment: cmx(1) };
    let mint = CoinbaseMint::new(vec![note, note]);
    assert_eq!(mint.total_value(), 2 * u64::MAX as u128);
    assert_eq!(
        st.apply_chain_block(Some(&mint), &[]).unwrap_err(),
        ShieldedStateError::Turnstile(TurnstileViolation::Overflow)
    );
    st.supply = SupplyLedger::from_totals(u128::MAX, 0);
    let one = CoinbaseMint::new(vec![CoinbaseNote { value: 1, commitment: cmx(1) }]);
    assert_eq!(
        st.apply_chain_block(Some(&one), &[]).unwrap_err(),
        ShieldedStateError::Turnstile(TurnstileViolation::Overflow)
    );
    assert_eq!(st.tree.size(), 0);
}

#[test]
fn block_outcome_lists_coinbase_leaves_first() {
    let mut st = ShieldedState::new();
    let mint = CoinbaseMint::new(vec![CoinbaseNote { value: 50, commitment: cmx(1) }]);
    let out = st
        .apply_chain_block(
            Some(&mint),
            &[tx(&[1, 2], &[10, 11], 3), tx(&[2], &[12], 4), tx(&[3], &[13], 5)],
        )
        .unwrap();
    assert_eq!(out.accepted, vec![0, 2]);
    assert_eq!(out.new_nullifiers, vec![nf(1), nf(2), nf(3)]);
    let leaves: Vec<_> = out.subtree.commitments().iter().map(|c| c.to_bytes()).collect();
    assert_eq!(
        leaves,
        [1u32, 10, 11, 13].iter().map(|n| cmx(*n).to_bytes()).collect::<Vec<_>>()
    );
    assert_eq!(out.anchor.to_bytes(), st.anchor().to_bytes());
    assert_eq!(st.supply.pool_value(), Ok(42));
}
