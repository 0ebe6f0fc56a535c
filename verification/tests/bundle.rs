use zkas_shielded::bundle::{
    sizes, ActionWire, BundleDecodeError, ShieldedBundle, Writer, MAX_ACTIONS_PER_BUNDLE,
};

fn sample_action(seed: u8) -> ActionWire {
    ActionWire {
        nullifier: [seed; sizes::FIELD],
        rk: [seed.wrapping_add(1); sizes::FIELD],
        cmx: [seed.wrapping_add(2); sizes::FIELD],
        cv_net: [seed.wrapping_add(3); sizes::FIELD],
        ephemeral_key: [seed.wrapping_add(4); sizes::FIELD],
        enc_ciphertext: [seed.wrapping_add(5); sizes::ENC_CIPHERTEXT],
        out_ciphertext: [seed.wrapping_add(6); sizes::OUT_CIPHERTEXT],
        spend_auth_sig: [seed.wrapping_add(7); sizes::SIG],
    }
}

fn sample_bundle(n: u8) -> ShieldedBundle {
    ShieldedBundle {
        actions: (0..n).map(sample_action).collect(),
        flags: 0b11,
        value_balance: -123_456,
        anchor: [9u8; sizes::FIELD],
        proof: vec![0xab; 1000],
        binding_sig: [0xcd; sizes::SIG],
    }
}

#[test]
fn round_trips() {
    for n in [0u8, 1, 2, 5] {
        let b = sample_bundle(n);
        let bytes = b.to_bytes();
        let decoded = ShieldedBundle::from_bytes(&bytes).expect("decode");
        assert_eq!(b, decoded);
        // Canonical: re-encoding the decoded value is identical.
        assert_eq!(bytes, decoded.to_bytes());
    }
}

#[test]
fn rejects_trailing_bytes() {
    let mut bytes = sample_bundle(1).to_bytes();
    bytes.push(0);
    assert_eq!(ShieldedBundle::from_bytes(&bytes), Err(BundleDecodeError::TrailingBytes));
}

#[test]
fn rejects_truncated() {
    let bytes = sample_bundle(2).to_bytes();
    assert_eq!(
        ShieldedBundle::from_bytes(&bytes[..bytes.len() - 10]),
        Err(BundleDecodeError::UnexpectedEof)
    );
}

#[test]
fn rejects_every_truncation() {
    let bytes = sample_bundle(1).to_bytes();
    for k in 0..bytes.len() {
        assert_eq!(
            ShieldedBundle::from_bytes(&bytes[..k]),
            Err(BundleDecodeError::UnexpectedEof)
        );
    }
}

#[test]
fn rejects_hostile_action_count() {
    // flags + value_balance + anchor + binding_sig(len-prefixed) + huge count
    let mut w = Writer::new();
    w.u8(0);
    w.i64(0);
    w.bytes(&[0u8; sizes::FIELD]);
    w.var(&[0u8; sizes::SIG]);
    w.u32(u32::MAX); // claims 4 billion actions
    assert_eq!(ShieldedBundle::from_bytes(&w.buf), Err(BundleDecodeError::TooManyActions));
}

#[test]
fn rejects_action_count_over_cap() {
    let mut w = Writer::new();
    w.u8(0);
    w.i64(0);
    w.bytes(&[0u8; sizes::FIELD]);
    w.var(&[0u8; sizes::SIG]);
    w.u32(MAX_ACTIONS_PER_BUNDLE as u32 + 1);
    assert_eq!(ShieldedBundle::from_bytes(&w.buf), Err(BundleDecodeError::TooManyActions));

    // A real bundle at exactly the cap round-trips (the cap is inclusive).
    let at_cap = ShieldedBundle {
        actions: (0..MAX_ACTIONS_PER_BUNDLE).map(|i| sample_action(i as u8)).collect(),
        flags: 0b11,
        value_balance: 0,
        anchor: [0u8; sizes::FIELD],
        proof: vec![],
        binding_sig: [0u8; sizes::SIG],
    };
    assert_eq!(
        ShieldedBundle::from_bytes(&at_cap.to_bytes()).map(|b| b.actions.len()),
        Ok(MAX_ACTIONS_PER_BUNDLE)
    );
}

#[test]
fn rejects_binding_signature_of_wrong_length() {
    let mut w = Writer::new();
    w.u8(0);
    w.i64(0);
    w.bytes(&[0u8; sizes::FIELD]);
    w.var(&[0u8; 63]);
    w.u32(0);
    w.var(&[]);
    assert_eq!(ShieldedBundle::from_bytes(&w.buf), Err(BundleDecodeError::UnexpectedEof));
}

#[test]
fn layout_is_big_endian_in_field_order() {
    let b = sample_bundle(1);
    let bytes = b.to_bytes();
    assert_eq!(bytes[0], 0b11);
    assert_eq!(bytes[1..9], (-123_456i64).to_be_bytes());
    assert_eq!(bytes[9..41], [9u8; 32]);
    assert_eq!(bytes[41..45], [0, 0, 0, 64]);
    assert_eq!(bytes[45..109], [0xcd; 64]);
    assert_eq!(bytes[109..113], [0, 0, 0, 1]);
    assert_eq!(bytes[113..145], [0u8; 32]);
    assert_eq!(bytes.len(), 113 + ActionWire::SERIALIZED_LEN + 4 + 1000);
}

#[test]
fn nullifiers_iter_in_order() {
    let b = sample_bundle(3);
    let nfs: Vec<_> = b.nullifiers();
    assert_eq!(nfs, vec![[0u8; 32], [1u8; 32], [2u8; 32]]);
}
