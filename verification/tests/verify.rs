use zkas_shielded::bundle::{sizes, ActionWire, ShieldedBundle};
use zkas_shielded::verify::{
    check_encoding, network_sighash, sighash, verification_verdict, BundleVerifyError,
};

fn action(seed: u8) -> ActionWire {
    ActionWire {
        nullifier: [seed; sizes::FIELD],
        rk: [seed.wrapping_add(1); sizes::FIELD],
        cmx: [seed.wrapping_add(2); sizes::FIELD],
        cv_net: [seed.wrapping_add(3); sizes::FIELD],
        ephemeral_key: [seed.wrapping_add(4); sizes::FIELD],
        enc_ciphertext: [seed.wrapping_add(5); sizes::ENC_CIPHERTEXT],
        out_ciphertext: [seed.wrapping_add(6); sizes::OUT_CIPHERTEXT],
        spend_auth_sig: [seed.wrapping_add(7); sizes::SIG],
    }
}

fn bundle(n: u8) -> ShieldedBundle {
    ShieldedBundle {
        actions: (0..n).map(action).collect(),
        flags: 0b11,
        value_balance: 7,
        anchor: [1u8; 32],
        proof: vec![0u8; 100],
        binding_sig: [0u8; 64],
    }
}

#[test]
fn sighash_is_deterministic_and_effect_sensitive() {
    let b = bundle(2);
    let s1 = sighash(&b, b"ctx");
    let s2 = sighash(&b, b"ctx");
    assert_eq!(s1, s2, "sighash is deterministic");

    let mut b2 = b.clone();
    b2.value_balance += 1;
    assert_ne!(sighash(&b2, b"ctx"), s1);

    let mut b3 = b.clone();
    b3.actions[0].cmx[0] ^= 1;
    assert_ne!(sighash(&b3, b"ctx"), s1);

    assert_ne!(sighash(&b, b"other"), s1);
}

#[test]
fn sighash_excludes_authorizing_data() {
    let b = bundle(1);
    let s = sighash(&b, b"");
    let mut b2 = b.clone();
    b2.actions[0].spend_auth_sig[0] ^= 1;
    b2.binding_sig[0] ^= 1;
    b2.proof[0] ^= 1;
    assert_eq!(sighash(&b2, b""), s, "sighash must not cover proof/signatures");
}

#[test]
fn networks_have_sighashes_of_their_own() {
    let b = bundle(1);
    assert_ne!(network_sighash(&b, &[1; 32], b"c"), network_sighash(&b, &[2; 32], b"c"));
    let mut joined = vec![1u8; 32];
    joined.extend_from_slice(b"c");
    assert_eq!(network_sighash(&b, &[1; 32], b"c"), sighash(&b, &joined));
}

/// A bundle whose fields all decode: the identity's neighbours come from real keys.
fn decodable() -> ShieldedBundle {
    let keys = zkas_shielded::keys::FullViewingKey::from_seed(&[7; 32]).unwrap();
    let point: [u8; 32] = keys.to_bytes()[..32].try_into().unwrap();
    let mut a = action(0);
    a.nullifier = [0; 32];
    a.cmx = [0; 32];
    a.cv_net = point;
    a.rk = point;
    a.ephemeral_key = point;
    ShieldedBundle {
        actions: vec![a],
        flags: 3,
        value_balance: 0,
        anchor: [0; 32],
        proof: vec![0; 2720 + 2272],
        binding_sig: [0; 64],
    }
}

#[test]
fn each_encoding_fault_is_told() {
    assert_eq!(check_encoding(&decodable()), Ok(()));
    let mut b = decodable();
    b.actions.clear();
    assert_eq!(check_encoding(&b), Err(BundleVerifyError::NoActions));
    let mut b = decodable();
    b.anchor = [0xff; 32];
    assert_eq!(check_encoding(&b), Err(BundleVerifyError::NonCanonicalField("anchor")));
    let mut b = decodable();
    b.flags = 4;
    assert_eq!(check_encoding(&b), Err(BundleVerifyError::NonCanonicalFlags));
    let mut b = decodable();
    b.actions[0].nullifier = [0xff; 32];
    assert_eq!(check_encoding(&b), Err(BundleVerifyError::NonCanonicalField("nullifier")));
    let mut b = decodable();
    b.actions[0].cmx = [0xff; 32];
    assert_eq!(check_encoding(&b), Err(BundleVerifyError::NonCanonicalField("cmx")));
    let mut b = decodable();
    b.actions[0].cv_net = [0xff; 32];
    assert_eq!(check_encoding(&b), Err(BundleVerifyError::NonCanonicalField("cv_net")));
    let mut b = decodable();
    b.actions[0].rk = [0xff; 32];
    assert_eq!(check_encoding(&b), Err(BundleVerifyError::NonCanonicalField("rk")));
    let mut b = decodable();
    b.actions[0].rk = [0; 32];
    assert_eq!(check_encoding(&b), Err(BundleVerifyError::IdentityRk));
    let mut b = decodable();
    b.actions[0].ephemeral_key = [0xff; 32];
    assert_eq!(check_encoding(&b), Err(BundleVerifyError::NonCanonicalField("epk")));
    let mut b = decodable();
    b.actions[0].ephemeral_key = [0; 32];
    assert_eq!(check_encoding(&b), Err(BundleVerifyError::IdentityEpk));
    let mut b = decodable();
    b.proof.pop();
    assert_eq!(
        check_encoding(&b),
        Err(BundleVerifyError::BadProofLength { expected: 4992, got: 4991 })
    );
}

#[test]
fn the_first_failed_check_decides() {
    assert_eq!(verification_verdict(true, true, &[true, true]), Ok(()));
    assert_eq!(
        verification_verdict(false, false, &[false]),
        Err(BundleVerifyError::ProofInvalid)
    );
    assert_eq!(
        verification_verdict(true, false, &[false]),
        Err(BundleVerifyError::BindingSigInvalid)
    );
    assert_eq!(
        verification_verdict(true, true, &[true, false, false]),
        Err(BundleVerifyError::SpendAuthSigInvalid(1))
    );
}
