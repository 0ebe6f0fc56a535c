use orchard::builder::{Builder, BundleType};
use orchard::value::NoteValue;
use zkas_shielded::account::ShieldedAccount;
use zkas_shielded::address::Prefix;
use zkas_shielded::bundle::{ActionWire, ShieldedBundle};
use zkas_shielded::coinbase::{coinbase_mint, derive_coinbase_note_desc, CoinbaseNoteDesc};
use zkas_shielded::keys::{FullViewingKey, OrchardAddress};
use zkas_shielded::note::Note;
use zkas_shielded::payment_check::{
    check_commitments, check_prepared_payment, check_totals, PaymentCheckError,
};
use zkas_shielded::state::{ShieldedState, ShieldedTx};
use zkas_shielded::verify::network_sighash;
use zkas_shielded::wallet::payment::{change_of, coinbase_note_seed, to_wire};
use zkas_shielded::wallet::prepared::{disclose, draft_payment};
use zkas_shielded::wallet::scan::CompactActionRecord;
use zkas_shielded::wallet::{
    finalize_payment, ivk_from_seed, scan_bundle, scan_compact, sign_spend_auth, BuildError,
    ShieldedKeys,
};
use zkas_shielded::walletdb::WalletDb;
use zkas_shielded::witness::MerklePath;

fn canon(seed: u8) -> [u8; 32] {
    let mut b = [0u8; 32];
    b[0] = seed;
    b
}

fn owned_note(keys: &ShieldedKeys, value: u64, rho: u8, rseed: u8) -> Note {
    let to = keys.address().to_raw_address_bytes();
    Note::from_parts(&to, value, &canon(rho), &canon(rseed)).unwrap()
}

fn raw(seed: u8) -> [u8; 43] {
    ShieldedKeys::from_seed([seed; 32]).unwrap().address().to_raw_address_bytes()
}

/// The guard against blind signing: a prover that pays someone else, lies about an amount or
/// a recipient, inflates the fee or drops the payment is found out.
#[test]
fn device_refuses_a_payment_it_did_not_ask_for() {
    let keys = ShieldedKeys::from_seed([12u8; 32]).unwrap();
    let fvk = keys.full_viewing_key();
    let net = [0x66u8; 32];
    let ctx = b"zkas-blind-sign";
    let note = owned_note(&keys, 10_000, 5, 6);
    let intended = raw(13);
    let attacker = raw(66);

    let evil = draft_payment(
        &fvk,
        vec![(note, MerklePath::lone())],
        attacker,
        6_000,
        1_000,
        &net,
        ctx,
        true,
        [0u8; 512],
    )
    .unwrap();
    let outcome =
        check_prepared_payment(&evil.effects, &evil.disclosure, &fvk, &intended, 6_000, 1_000);
    assert!(
        matches!(outcome, Err(PaymentCheckError::UnexpectedRecipient(_))),
        "device must refuse to pay the attacker"
    );

    let good = draft_payment(
        &fvk,
        vec![(note, MerklePath::lone())],
        intended,
        6_000,
        1_000,
        &net,
        ctx,
        true,
        [0u8; 512],
    )
    .unwrap();
    check_prepared_payment(&good.effects, &good.disclosure, &fvk, &intended, 6_000, 1_000)
        .expect("the payment the user asked for must verify");

    for i in 0..good.disclosure.len() {
        let mut lying = good.disclosure.clone();
        lying[i].out_value = lying[i].out_value.wrapping_add(1);
        assert!(
            matches!(
                check_prepared_payment(&good.effects, &lying, &fvk, &intended, 6_000, 1_000),
                Err(PaymentCheckError::CommitmentMismatch(_)) | Err(PaymentCheckError::Malformed(_))
            ),
            "a lie about an amount must break the note commitment (action {i})"
        );

        let mut lying = good.disclosure.clone();
        lying[i].out_recipient = attacker;
        assert!(
            matches!(
                check_prepared_payment(&good.effects, &lying, &fvk, &intended, 6_000, 1_000),
                Err(PaymentCheckError::CommitmentMismatch(_))
            ),
            "a lie about a recipient must break the note commitment (action {i})"
        );

        let mut lying = good.disclosure.clone();
        lying[i].spend_value += 1;
        assert_eq!(
            check_prepared_payment(&good.effects, &lying, &fvk, &intended, 6_000, 1_000),
            Err(PaymentCheckError::ValueCommitmentMismatch(i))
        );
    }

    assert!(matches!(
        check_prepared_payment(&good.effects, &good.disclosure, &fvk, &intended, 6_000, 999),
        Err(PaymentCheckError::FeeMismatch { .. })
    ));

    let other = raw(77);
    assert!(matches!(
        check_prepared_payment(&good.effects, &good.disclosure, &fvk, &other, 6_000, 1_000),
        Err(PaymentCheckError::UnexpectedRecipient(_))
    ));

    assert_eq!(
        check_prepared_payment(&good.effects, &good.disclosure[1..], &fvk, &intended, 6_000, 1_000),
        Err(PaymentCheckError::ActionCountMismatch)
    );
}

#[test]
fn a_draft_asks_for_one_signature_per_spend() {
    let keys = ShieldedKeys::from_seed([7u8; 32]).unwrap();
    let net = [0x55u8; 32];
    let ctx = b"zkas-nc-api";
    let note = owned_note(&keys, 10_000, 3, 4);
    let draft = || {
        draft_payment(
            &keys.full_viewing_key(),
            vec![(note, MerklePath::lone())],
            raw(8),
            6_000,
            1_000,
            &net,
            ctx,
            true,
            [0u8; 512],
        )
        .unwrap()
    };
    let prepared = draft();
    assert_eq!(prepared.value_balance, 1_000);
    assert_eq!(prepared.effects.value_balance, 1_000);
    assert_eq!(prepared.effects.flags, 3);
    assert_eq!(prepared.effects.actions.len(), 2);
    assert_eq!(
        prepared.effects.anchor,
        MerklePath::lone().root(&note.commitment()).to_bytes()
    );
    assert_eq!(prepared.sighash, network_sighash(&prepared.effects, &net, ctx));
    assert_eq!(prepared.spend_auth_requests.len(), 1, "exactly one real spend to authorize");
    assert_eq!(prepared.disclosure.len(), 2);
    assert_eq!(prepared.disclosure.iter().map(|d| d.spend_value).sum::<u64>(), 10_000);
    assert_eq!(prepared.disclosure.iter().map(|d| d.out_value).sum::<u64>(), 9_000);
    let (at, alpha) = prepared.spend_auth_requests[0];
    assert_eq!(prepared.effects.actions[at].nullifier, note.nullifier(&keys.full_viewing_key()));

    // A signature that fits is taken; what is then missing is the proof.
    let sig = sign_spend_auth(&keys, alpha, prepared.sighash).unwrap();
    match finalize_payment(prepared, vec![(at, sig)]) {
        Err(BuildError::Proof(e)) => assert_eq!(e, "MissingProof"),
        other => panic!("{other:?}"),
    }
    // Without it the spend is not authorized.
    match finalize_payment(draft(), vec![]) {
        Err(BuildError::Proof(e)) => assert_eq!(e, "MissingSpendAuthSig"),
        other => panic!("{other:?}"),
    }
    // Another key's signature is refused.
    let prepared = draft();
    let (at, alpha) = prepared.spend_auth_requests[0];
    let thief = ShieldedKeys::from_seed([9u8; 32]).unwrap();
    let sig = sign_spend_auth(&thief, alpha, prepared.sighash).unwrap();
    match finalize_payment(prepared, vec![(at, sig)]) {
        Err(BuildError::Proof(e)) => assert_eq!(e, "InvalidExternalSignature"),
        other => panic!("{other:?}"),
    }
    assert!(sign_spend_auth(&keys, [0xff; 32], [0; 32]).is_none());
}

#[test]
fn every_input_of_a_draft_is_asked_for() {
    let keys = ShieldedKeys::from_seed([7u8; 32]).unwrap();
    let fvk = keys.full_viewing_key();
    let notes = [owned_note(&keys, 10_000, 3, 4), owned_note(&keys, 0, 5, 6)];
    let inputs = notes.iter().map(|n| (*n, MerklePath::lone())).collect();
    let p = draft_payment(&fvk, inputs, raw(8), 9_000, 1_000, &[1; 32], b"c", true, [0u8; 512])
        .unwrap();
    assert_eq!(p.spend_auth_requests.len(), 2);
    let asked: Vec<[u8; 32]> =
        p.spend_auth_requests.iter().map(|(at, _)| p.effects.actions[*at].nullifier).collect();
    for note in &notes {
        assert!(asked.contains(&note.nullifier(&fvk)));
    }
    assert_eq!(p.disclosure.iter().map(|d| d.spend_value).sum::<u64>(), 10_000);
    assert_eq!(p.disclosure.iter().map(|d| d.out_value).sum::<u64>(), 9_000);
    let sigs: Vec<(usize, [u8; 64])> = p
        .spend_auth_requests
        .iter()
        .map(|(at, alpha)| (*at, sign_spend_auth(&keys, *alpha, p.sighash).unwrap()))
        .collect();
    match finalize_payment(p, sigs) {
        Err(BuildError::Proof(e)) => assert_eq!(e, "MissingProof"),
        other => panic!("{other:?}"),
    }
}

#[test]
fn drafts_reach_their_recipients() {
    let keys = ShieldedKeys::from_seed([3u8; 32]).unwrap();
    let note = owned_note(&keys, 10_000, 1, 2);
    let mut memo = [0u8; 512];
    memo[..5].copy_from_slice(b"hello");
    let p = draft_payment(
        &keys.full_viewing_key(),
        vec![(note, MerklePath::lone())],
        raw(2),
        4_242,
        58,
        &[0x33; 32],
        b"ctx",
        false,
        memo,
    )
    .unwrap();
    let ivk = ivk_from_seed([2u8; 32]).unwrap();
    let full = scan_bundle(&ivk, &p.effects);
    assert_eq!(full.len(), 1);
    assert_eq!(full[0].value(), 4_242);
    assert_eq!(full[0].memo, b"hello");

    let change = scan_bundle(&ivk_from_seed([3u8; 32]).unwrap(), &p.effects);
    assert_eq!(change.len(), 1);
    assert_eq!(change[0].value(), 5_700);

    let compact: Vec<CompactActionRecord> =
        p.effects.actions.iter().map(CompactActionRecord::from_wire).collect();
    let via_compact = scan_compact(&ivk, &compact);
    assert_eq!(via_compact.len(), 1);
    assert_eq!(via_compact[0].action_index, full[0].action_index);
    assert_eq!(via_compact[0].value(), 4_242);
    assert_eq!(
        via_compact[0].note.commitment().to_bytes(),
        compact[via_compact[0].action_index].cmx
    );

    let stranger = ivk_from_seed([9u8; 32]).unwrap();
    assert!(scan_bundle(&stranger, &p.effects).is_empty());
    assert!(scan_compact(&stranger, &compact).is_empty());
}

/// A bundle that pays one output and spends nothing, as the builder makes it, before its
/// proof and its signatures.
fn output_only(recipient: [u8; 43], value: u64) -> ShieldedBundle {
    let to = orchard::Address::from_raw_address_bytes(&recipient).unwrap();
    let mut builder = Builder::new(BundleType::DEFAULT, orchard::Anchor::empty_tree());
    builder.add_output(None, to, NoteValue::from_raw(value), [0u8; 512]).unwrap();
    let (bundle, _) = builder.build::<i64>(rand::rngs::OsRng).unwrap().unwrap();
    ShieldedBundle {
        actions: bundle
            .actions()
            .iter()
            .map(|a| ActionWire {
                nullifier: a.nullifier().to_bytes(),
                rk: a.rk().into(),
                cmx: a.cmx().to_bytes(),
                cv_net: a.cv_net().to_bytes(),
                ephemeral_key: a.encrypted_note().epk_bytes,
                enc_ciphertext: a.encrypted_note().enc_ciphertext,
                out_ciphertext: a.encrypted_note().out_ciphertext,
                spend_auth_sig: [0u8; 64],
            })
            .collect(),
        flags: bundle.flags().to_byte(),
        value_balance: *bundle.value_balance(),
        anchor: bundle.anchor().to_bytes(),
        proof: vec![],
        binding_sig: [0u8; 64],
    }
}

/// A note sent to a recipient's address is recovered by that recipient's incoming viewing key,
/// and by no one else's.
#[test]
fn scan_recovers_sent_note() {
    let wire = output_only(raw(2), 4242);
    assert_eq!(wire.value_balance, -4242);

    let ivk = ivk_from_seed([2u8; 32]).unwrap();
    let received = scan_bundle(&ivk, &wire);
    assert_eq!(received.len(), 1, "recipient recovers exactly the note sent to it");
    assert_eq!(received[0].value(), 4242);

    let stranger = ivk_from_seed([9u8; 32]).unwrap();
    assert!(scan_bundle(&stranger, &wire).is_empty());
}

/// Scanning the compact records recovers the note that scanning the full bundle recovers.
#[test]
fn compact_scan_matches_full_scan() {
    let wire = output_only(raw(2), 4242);
    let ivk = ivk_from_seed([2u8; 32]).unwrap();
    let full = scan_bundle(&ivk, &wire);
    assert_eq!(full.len(), 1, "full scan recovers the note");

    let compact: Vec<CompactActionRecord> =
        wire.actions.iter().map(CompactActionRecord::from_wire).collect();
    for rec in &compact {
        assert_eq!(rec.to_bytes().len(), CompactActionRecord::SERIALIZED_LEN);
        assert_eq!(CompactActionRecord::from_bytes(&rec.to_bytes()), Some(*rec));
    }

    let via_compact = scan_compact(&ivk, &compact);
    assert_eq!(via_compact.len(), 1, "compact scan recovers exactly the note");
    assert_eq!(via_compact[0].action_index, full[0].action_index, "same action position");
    assert_eq!(via_compact[0].value(), full[0].value(), "compact recovers the same value");
    assert_eq!(via_compact[0].value(), 4242);

    let cmx = via_compact[0].note.commitment();
    assert_eq!(
        cmx.to_bytes(),
        compact[via_compact[0].action_index].cmx,
        "recovered note commits to the archived cmx"
    );

    let stranger = ivk_from_seed([9u8; 32]).unwrap();
    assert!(scan_compact(&stranger, &compact).is_empty());
}

fn minted(seed: u8, tag: &[u8], value: u64) -> (CoinbaseNoteDesc, u64) {
    (derive_coinbase_note_desc(raw(seed), tag), value)
}

/// A payment between two wallets through the chain's rules, but for its proof.
#[test]
fn what_one_wallet_pays_another_receives() {
    let mut alice = ShieldedAccount::from_seed([1u8; 32]).unwrap();
    let mut bob = ShieldedAccount::from_seed([2u8; 32]).unwrap();
    let coinbase = [minted(1, b"blk1||0", 1_000_000)];
    let mut state = ShieldedState::new();
    state.apply_chain_block(Some(&coinbase_mint(&coinbase).unwrap()), &[]).unwrap();
    alice.ingest_block(&coinbase, &[]);
    assert_eq!(alice.balance(), 1_000_000);
    assert_eq!(alice.db().anchor(), state.anchor().to_bytes());

    let note = alice.db().notes()[0];
    let path = alice.db().witness_path(note.position).unwrap();
    let paid = draft_payment(
        alice.db().fvk(),
        vec![(note.note, path)],
        bob.receiving_address(Prefix::Mainnet).payload.try_into().unwrap(),
        600_000,
        10_000,
        &[0x9a; 32],
        b"firecash-payment-context",
        false,
        [0u8; 512],
    )
    .unwrap();
    assert_eq!(paid.effects.anchor, state.anchor().to_bytes(), "spends against the chain's anchor");
    let tx = ShieldedTx::from_bundle(&paid.effects).unwrap();
    assert_eq!(tx.fee, 10_000);
    let out = state.apply_chain_block(None, std::slice::from_ref(&tx)).unwrap();
    assert_eq!(out.accepted, vec![0]);
    bob.ingest_block(&[], &[&paid.effects]);
    alice.ingest_block(&[], &[&paid.effects]);
    assert_eq!((bob.balance(), alice.balance()), (600_000, 390_000));
    assert_eq!(state.supply.pool_value().unwrap(), 990_000);
    assert!(state.apply_chain_block(None, &[tx]).unwrap().accepted.is_empty(), "spent once");
}

/// Two notes behind a stranger's pay together, and the change comes back.
#[test]
fn several_notes_pay_together_and_leave_change() {
    let mut db = WalletDb::from_seed([31u8; 32]).unwrap();
    let coinbase =
        [minted(99, b"blk1||x", 1), minted(31, b"blk1||0", 4_000), minted(31, b"blk1||1", 4_000)];
    db.ingest_block(&coinbase, &[]);
    assert_eq!(db.notes().iter().map(|n| n.position).collect::<Vec<_>>(), vec![1, 2]);
    let inputs: Vec<_> =
        db.notes().iter().map(|n| (n.note, db.witness_path(n.position).unwrap())).collect();
    let paid = draft_payment(
        db.fvk(),
        inputs,
        raw(42),
        5_000,
        1_000,
        &[0x5a; 32],
        b"firecash-walletdb-multi",
        false,
        [0u8; 512],
    )
    .unwrap();
    assert_eq!(paid.effects.anchor, db.anchor());
    assert_eq!(paid.effects.value_balance, 1_000);
    db.ingest_block(&[], &[&paid.effects]);
    assert!(!db.notes().iter().any(|n| n.position <= 2), "spent input notes dropped by nullifier");
    assert_eq!(db.notes().len(), 1, "only the recovered change note remains");
    assert_eq!(db.balance(), 2_000);

    // The change was found by decryption, and can be spent in its turn.
    let change = db.notes()[0];
    let path = db.witness_path(change.position).unwrap();
    let again = draft_payment(
        db.fvk(),
        vec![(change.note, path)],
        raw(42),
        1_900,
        100,
        &[0x5a; 32],
        b"again",
        true,
        [0u8; 512],
    )
    .unwrap();
    assert_eq!(again.effects.value_balance, 100);
}

#[test]
fn drafts_that_cannot_be_are_refused() {
    let keys = ShieldedKeys::from_seed([3u8; 32]).unwrap();
    let fvk = keys.full_viewing_key();
    let note = owned_note(&keys, 100, 1, 2);
    let try_it = |fvk: &FullViewingKey, inputs, to, amount, fee| {
        draft_payment(fvk, inputs, to, amount, fee, &[0; 32], b"", false, [0; 512])
    };
    let input = || vec![(note, MerklePath::lone())];
    assert!(matches!(try_it(&fvk, vec![], raw(2), 1, 1), Err(BuildError::Empty)));
    assert!(matches!(try_it(&fvk, input(), [0xff; 43], 1, 1), Err(BuildError::Empty)));
    assert!(matches!(try_it(&fvk, input(), raw(2), 99, 2), Err(BuildError::Empty)));
    // Without change there is no change output, but the padding keeps two actions.
    let all = try_it(&fvk, input(), raw(2), 99, 1).unwrap();
    assert_eq!(all.effects.actions.len(), 2);
    assert!(scan_bundle(&ivk_from_seed([3; 32]).unwrap(), &all.effects).is_empty());
    // Another wallet's key does not own the note.
    let other = ShieldedKeys::from_seed([4u8; 32]).unwrap().full_viewing_key();
    match try_it(&other, input(), raw(2), 1, 1) {
        Err(BuildError::Builder(e)) => assert_eq!(e, "FvkMismatch"),
        _ => panic!(),
    }
    // Two inputs that are proven against different anchors do not go together.
    let second = owned_note(&keys, 100, 3, 4);
    match try_it(&fvk, vec![(note, MerklePath::lone()), (second, MerklePath::lone())], raw(2), 1, 1)
    {
        Err(BuildError::Builder(e)) => assert_eq!(e, "AnchorMismatch"),
        _ => panic!(),
    }
}

#[test]
fn changes_are_what_is_left() {
    assert_eq!(change_of(10, 6, 1), Some(3));
    assert_eq!(change_of(10, 9, 1), Some(0));
    assert_eq!(change_of(10, 10, 1), None);
    assert_eq!(change_of(u64::MAX, u64::MAX, 1), None);
}

#[test]
fn disclosures_need_every_field() {
    let d = disclose(None, Some(1), Some([2; 43]), Some([3; 32]), Some([4; 32])).unwrap();
    assert_eq!((d.spend_value, d.out_value), (0, 1));
    assert_eq!((d.out_recipient, d.out_rseed, d.rcv), ([2; 43], [3; 32], [4; 32]));
    assert!(disclose(Some(1), None, Some([2; 43]), Some([3; 32]), Some([4; 32])).is_err());
    assert!(disclose(Some(1), Some(1), None, Some([3; 32]), Some([4; 32])).is_err());
    assert!(disclose(Some(1), Some(1), Some([2; 43]), None, Some([4; 32])).is_err());
    assert!(disclose(Some(1), Some(1), Some([2; 43]), Some([3; 32]), None).is_err());
}

#[test]
fn wires_carry_their_authorizations() {
    let keys = ShieldedKeys::from_seed([3u8; 32]).unwrap();
    let note = owned_note(&keys, 100, 1, 2);
    let p = draft_payment(
        &keys.full_viewing_key(),
        vec![(note, MerklePath::lone())],
        raw(2),
        10,
        1,
        &[0; 32],
        b"",
        false,
        [0; 512],
    )
    .unwrap();
    let wire = to_wire(&p.effects, &[[1; 64], [2; 64]], vec![9, 9], [3; 64]);
    assert_eq!(wire.actions[0].spend_auth_sig, [1; 64]);
    assert_eq!(wire.actions[1].spend_auth_sig, [2; 64]);
    assert_eq!(wire.proof, vec![9, 9]);
    assert_eq!(wire.binding_sig, [3; 64]);
    assert_eq!(wire.actions[1].cmx, p.effects.actions[1].cmx);
    assert_eq!(wire.anchor, p.effects.anchor);
}

#[test]
fn single_checks_tell_their_fault() {
    let (a, b) = ([1; 32], [2; 32]);
    assert_eq!(check_commitments(0, Some(a), Some(b), &a, &b), Ok(()));
    assert_eq!(check_commitments(4, None, Some(b), &a, &b), Err(PaymentCheckError::Malformed(4)));
    assert_eq!(
        check_commitments(4, Some(b), Some(b), &a, &b),
        Err(PaymentCheckError::CommitmentMismatch(4))
    );
    assert_eq!(check_commitments(4, Some(a), None, &a, &b), Err(PaymentCheckError::Malformed(4)));
    assert_eq!(
        check_commitments(4, Some(a), Some(a), &a, &b),
        Err(PaymentCheckError::ValueCommitmentMismatch(4))
    );
    assert_eq!(check_totals(10, 9, true, 1, 1), Ok(()));
    assert_eq!(check_totals(10, 9, true, 2, 2), Err(PaymentCheckError::ValueImbalance));
    assert_eq!(check_totals(9, 10, true, -1, 1), Err(PaymentCheckError::FeeMismatch { got: -1, want: 1 }));
    assert_eq!(check_totals(10, 9, false, 1, 1), Err(PaymentCheckError::RecipientNotPaid));
    assert_eq!(
        PaymentCheckError::FeeMismatch { got: -5, want: 7 }.message(),
        "bundle pays a fee of -5, not the 7 agreed"
    );
}

#[test]
fn coinbase_seeds_are_id_and_index() {
    let seed = coinbase_note_seed(&[7; 32], 0x01020304);
    assert_eq!(seed[..32], [7; 32]);
    assert_eq!(seed[32..], [4, 3, 2, 1]);
}

#[test]
fn addresses_decode_or_do_not() {
    assert!(OrchardAddress::from_raw_address_bytes(&[0xff; 43]).is_none());
    let a = OrchardAddress::from_raw_address_bytes(&raw(5)).unwrap();
    assert_eq!(a.to_raw_address_bytes(), raw(5));
    assert!(ShieldedKeys::from_seed([5; 32]).is_some());
}

#[test]
fn lone_paths_lead_to_the_root_of_one_leaf() {
    let keys = ShieldedKeys::from_seed([3u8; 32]).unwrap();
    let note = owned_note(&keys, 100, 1, 2);
    let mut tree = zkas_shielded::tree::GlobalTree::new();
    zkas_shielded::tree::NoteCommitmentTree::append(&mut tree, note.commitment()).unwrap();
    let root = zkas_shielded::tree::NoteCommitmentTree::anchor(&tree);
    assert_eq!(MerklePath::lone().root(&note.commitment()).to_bytes(), root.to_bytes());
    assert_eq!(MerklePath::lone().position(), 0);
    assert_eq!(MerklePath::lone().auth_path().len(), 32);
}
