use orchard::keys::{SpendAuthorizingKey, SpendValidatingKey, SpendingKey};
use orchard::primitives::redpallas::{Signature, SpendAuth};
use zkas_shielded::message::{
    fvk_bytes_from_seed, message_digest, sign_message, sign_spend_auth_from_seed,
    signature_verdict, verify_message, VerifyError, FVK_LEN,
};

fn seed(b: u8) -> [u8; 32] {
    [b; 32]
}

#[test]
fn sign_then_verify_roundtrips() {
    let signed = sign_message(seed(7), b"zkas-mainnet", b"i own this address").unwrap();
    assert_eq!(
        verify_message(&signed.address, b"zkas-mainnet", b"i own this address", &signed.fvk, &signed.sig),
        Ok(())
    );
}

#[test]
fn wrong_message_fails() {
    let signed = sign_message(seed(7), b"zkas-mainnet", b"i own this address").unwrap();
    assert_eq!(
        verify_message(&signed.address, b"zkas-mainnet", b"a different message", &signed.fvk, &signed.sig),
        Err(VerifyError::BadSignature)
    );
}

#[test]
fn wrong_network_fails() {
    let signed = sign_message(seed(7), b"zkas-mainnet", b"msg").unwrap();
    assert_eq!(
        verify_message(&signed.address, b"zkas-devnet", b"msg", &signed.fvk, &signed.sig),
        Err(VerifyError::BadSignature)
    );
}

#[test]
fn claiming_another_address_fails() {
    let attacker = sign_message(seed(9), b"net", b"msg").unwrap();
    let victim = sign_message(seed(3), b"net", b"msg").unwrap();
    assert_ne!(attacker.address, victim.address);
    assert_eq!(
        verify_message(&victim.address, b"net", b"msg", &attacker.fvk, &attacker.sig),
        Err(VerifyError::AddressMismatch)
    );
}

#[test]
fn forged_fvk_for_victim_address_fails() {
    let victim = sign_message(seed(3), b"net", b"msg").unwrap();
    let attacker = sign_message(seed(9), b"net", b"msg").unwrap();
    assert_eq!(
        verify_message(&victim.address, b"net", b"msg", &victim.fvk, &attacker.sig),
        Err(VerifyError::BadSignature)
    );
}

#[test]
fn tampered_signature_fails() {
    let mut signed = sign_message(seed(1), b"net", b"msg").unwrap();
    signed.sig[0] ^= 0x01;
    assert!(verify_message(&signed.address, b"net", b"msg", &signed.fvk, &signed.sig).is_err());
}

#[test]
fn garbage_fvk_rejected() {
    let signed = sign_message(seed(1), b"net", b"msg").unwrap();
    let bad = [0xffu8; FVK_LEN];
    let r = verify_message(&signed.address, b"net", b"msg", &bad, &signed.sig);
    assert!(matches!(r, Err(VerifyError::BadFvk) | Err(VerifyError::AddressMismatch)));
}

#[test]
fn digest_is_length_prefixed() {
    let addr = [5u8; 43];
    let mut input = Vec::new();
    input.extend_from_slice(&3u64.to_le_bytes());
    input.extend_from_slice(b"net");
    input.extend_from_slice(&addr);
    input.extend_from_slice(&2u64.to_le_bytes());
    input.extend_from_slice(b"hi");
    let want = blake2b_simd::Params::new().hash_length(32).personal(b"zkas_msg_sig_v01").hash(&input);
    assert_eq!(message_digest(b"net", &addr, b"hi"), want.as_bytes());
    assert_ne!(message_digest(b"neth", &addr, b"i"), message_digest(b"net", &addr, b"hi"));
}

#[test]
fn verdict_from_its_parts() {
    let a = [1u8; 43];
    let b = [2u8; 43];
    assert_eq!(signature_verdict(None, &a, true, true), Err(VerifyError::BadFvk));
    assert_eq!(signature_verdict(Some(b), &a, true, true), Err(VerifyError::AddressMismatch));
    assert_eq!(signature_verdict(Some(a), &a, false, true), Err(VerifyError::BadKey));
    assert_eq!(signature_verdict(Some(a), &a, true, false), Err(VerifyError::BadSignature));
    assert_eq!(signature_verdict(Some(a), &a, true, true), Ok(()));
}

#[test]
fn spend_authorization_needs_a_canonical_randomizer() {
    let mut alpha = [0u8; 32];
    alpha[0] = 9;
    let sig = sign_spend_auth_from_seed(seed(4), alpha, [8; 32]).unwrap();
    let sk = SpendingKey::from_bytes(seed(4)).unwrap();
    let ak = SpendValidatingKey::from(&SpendAuthorizingKey::from(&sk));
    let scalar = pasta_curves::pallas::Scalar::from(9u64);
    let rk = ak.randomize(&scalar);
    assert!(rk.verify(&[8; 32], &Signature::<SpendAuth>::from(sig)).is_ok());
    assert!(sign_spend_auth_from_seed(seed(4), [0xff; 32], [8; 32]).is_none());
    let fvk = fvk_bytes_from_seed(seed(4)).unwrap();
    assert_eq!(fvk, orchard::keys::FullViewingKey::from(&sk).to_bytes());
}
