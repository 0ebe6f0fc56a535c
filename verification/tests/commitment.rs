use zkas_shielded::commitment::shielded_state_root;

const A: [u8; 32] = [0x11; 32];
const N: [u8; 32] = [0x22; 32];

#[test]
fn deterministic() {
    assert_eq!(shielded_state_root(&A, &N, 7, 3), shielded_state_root(&A, &N, 7, 3));
}

#[test]
fn sensitive_to_every_field() {
    let base = shielded_state_root(&A, &N, 7, 3);
    assert_ne!(base, shielded_state_root(&[0x12; 32], &N, 7, 3), "anchor must matter");
    assert_ne!(base, shielded_state_root(&A, &[0x23; 32], 7, 3), "nullifier root must matter");
    assert_ne!(base, shielded_state_root(&A, &N, 8, 3), "cumulative coinbase must matter");
    assert_ne!(base, shielded_state_root(&A, &N, 7, 4), "cumulative fees must matter");
}

#[test]
fn coinbase_and_fees_are_not_interchangeable() {
    assert_ne!(shielded_state_root(&A, &N, 5, 9), shielded_state_root(&A, &N, 9, 5));
}

#[test]
fn root_is_a_personalized_digest_of_the_four_parts() {
    let mut input = Vec::new();
    input.extend_from_slice(&A);
    input.extend_from_slice(&N);
    input.extend_from_slice(&7u128.to_le_bytes());
    input.extend_from_slice(&3u128.to_le_bytes());
    let want = blake2b_simd::Params::new().hash_length(32).personal(b"firecash_shldrt0").hash(&input);
    assert_eq!(shielded_state_root(&A, &N, 7, 3), want.as_bytes());
}
