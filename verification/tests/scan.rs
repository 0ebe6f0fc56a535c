use orchard::keys::{FullViewingKey as Fvk, Scope, SpendingKey};
use orchard::note::{RandomSeed, Rho};
use zkas_shielded::bundle::{sizes, ActionWire, ShieldedBundle};
use zkas_shielded::keys::{FullViewingKey, IncomingViewingKey};
use zkas_shielded::note::Note;
use zkas_shielded::wallet::scan::{collect_received, CompactActionRecord};
use zkas_shielded::wallet::{
    address_bytes_from_seed, ivk_from_seed, scan_bundle, scan_compact, trim_memo,
};

#[test]
fn memos_lose_trailing_zeros_and_the_marker_of_absence() {
    assert_eq!(trim_memo(b"hello\0\0\0"), b"hello");
    assert_eq!(trim_memo(&[0u8; 512]), b"");
    let mut marker = [0u8; 512];
    marker[0] = 0xf6;
    assert_eq!(trim_memo(&marker), b"");
    marker[1] = 1;
    assert_eq!(trim_memo(&marker), &[0xf6, 1]);
    assert_eq!(trim_memo(&[0, 0, 7, 0]), &[0, 0, 7]);
}

#[test]
fn compact_records_round_trip() {
    let a = ActionWire {
        nullifier: [1; 32],
        rk: [2; 32],
        cmx: [3; 32],
        cv_net: [4; 32],
        ephemeral_key: [5; 32],
        enc_ciphertext: core::array::from_fn(|i| i as u8),
        out_ciphertext: [6; sizes::OUT_CIPHERTEXT],
        spend_auth_sig: [7; sizes::SIG],
    };
    let r = CompactActionRecord::from_wire(&a);
    assert_eq!(r.enc_ciphertext[..], a.enc_ciphertext[..52]);
    let bytes = r.to_bytes();
    assert_eq!(bytes.len(), CompactActionRecord::SERIALIZED_LEN);
    assert_eq!(bytes[0..32], [1; 32]);
    assert_eq!(bytes[32..64], [3; 32]);
    assert_eq!(bytes[64..96], [5; 32]);
    assert_eq!(CompactActionRecord::from_bytes(&bytes), Some(r));
    assert!(CompactActionRecord::from_bytes(&bytes[..147]).is_none());
    assert!(CompactActionRecord::from_bytes(&[0u8; 149]).is_none());
}

#[test]
fn keys_of_a_seed_are_orchards() {
    let sk = SpendingKey::from_bytes([7; 32]).unwrap();
    let fvk = Fvk::from(&sk);
    assert_eq!(
        address_bytes_from_seed([7; 32]).unwrap(),
        fvk.address_at(0u32, Scope::External).to_raw_address_bytes()
    );
    let ivk = ivk_from_seed([7; 32]).unwrap();
    assert_eq!(ivk.to_bytes(), fvk.to_ivk(Scope::External).to_bytes());
    assert!(IncomingViewingKey::from_bytes(&ivk.to_bytes()).is_some());
    assert!(IncomingViewingKey::from_bytes(&[0xff; 64]).is_none());
    let ours = FullViewingKey::from_bytes(&fvk.to_bytes()).unwrap();
    assert_eq!(ours.to_bytes(), fvk.to_bytes());
    assert!(FullViewingKey::from_bytes(&[0xff; 96]).is_none());
}

#[test]
fn a_note_has_orchards_nullifier() {
    let sk = SpendingKey::from_bytes([7; 32]).unwrap();
    let fvk = Fvk::from(&sk);
    let address = fvk.address_at(0u32, Scope::External);
    let mut rho = [0u8; 32];
    rho[0] = 1;
    let mut rseed = [0u8; 32];
    rseed[0] = 2;
    let r = Rho::from_bytes(&rho).unwrap();
    let theirs = orchard::Note::from_parts(
        address,
        orchard::value::NoteValue::from_raw(99),
        r,
        RandomSeed::from_bytes(rseed, &r).unwrap(),
    )
    .unwrap();
    let ours = Note::from_parts(&address.to_raw_address_bytes(), 99, &rho, &rseed).unwrap();
    let key = FullViewingKey::from_seed(&[7; 32]).unwrap();
    assert_eq!(ours.nullifier(&key), theirs.nullifier(&fvk).to_bytes());
    assert_eq!(ours.value(), 99);
}

#[test]
fn garbage_actions_carry_no_note() {
    let a = ActionWire {
        nullifier: [9; 32],
        rk: [1; 32],
        cmx: [2; 32],
        cv_net: [3; 32],
        ephemeral_key: [4; 32],
        enc_ciphertext: [5; sizes::ENC_CIPHERTEXT],
        out_ciphertext: [6; sizes::OUT_CIPHERTEXT],
        spend_auth_sig: [7; sizes::SIG],
    };
    let record = CompactActionRecord::from_wire(&a);
    let b = ShieldedBundle {
        actions: vec![a],
        flags: 3,
        value_balance: 0,
        anchor: [0; 32],
        proof: vec![],
        binding_sig: [0; 64],
    };
    let ivk = ivk_from_seed([7; 32]).unwrap();
    assert!(scan_bundle(&ivk, &b).is_empty());
    assert!(scan_compact(&ivk, &[record]).is_empty());
}

#[test]
fn hits_keep_the_index_of_their_action() {
    let address = address_bytes_from_seed([7; 32]).unwrap();
    let mut rho = [0u8; 32];
    rho[0] = 1;
    let note = Note::from_parts(&address, 5, &rho, &[3; 32]).unwrap();
    let mut memo = [0u8; 512];
    memo[0] = b'x';
    let found = collect_received(&[2, 4, 9], &[None, Some((note, memo)), Some((note, [0; 512]))]);
    assert_eq!(found.len(), 2);
    assert_eq!(found[0].action_index, 4);
    assert_eq!(found[0].memo, b"x");
    assert_eq!(found[1].action_index, 9);
    assert_eq!(found[1].memo, b"");
    assert_eq!(found[1].value(), 5);
}
