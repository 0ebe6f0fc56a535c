use zkas_shielded::account::{select_note, PaymentError, ShieldedAccount};
use zkas_shielded::address::{orchard_recipient_bytes, Address, Prefix, Version};
use zkas_shielded::bundle::{sizes, ActionWire, ShieldedBundle};
use zkas_shielded::coinbase::coinbase_mint;
use zkas_shielded::effects::{
    block_effects, coinbase_note_descs, ingest_block_effects, shielded_bundle,
    BlockShieldedEffects, EffectsError,
};
use zkas_shielded::state::ShieldedState;
use zkas_shielded::tx::{
    payment_tx, payment_tx_context, Transaction, TransactionOutput, TX_VERSION_SHIELDED,
};
use zkas_shielded::wallet::address_bytes_from_seed;

const NATIVE: [u8; 20] = [0; 20];
const COINBASE: [u8; 20] = [1, 0, 0, 0, 0, 0, 0, 0, 0, 0, 0, 0, 0, 0, 0, 0, 0, 0, 0, 0];

fn tx(version: u16, outputs: Vec<TransactionOutput>, subnetwork_id: [u8; 20], payload: Vec<u8>) -> Transaction {
    Transaction { version, inputs: vec![], outputs, lock_time: 0, subnetwork_id, gas: 0, payload }
}

fn coinbase_tx(recipients: &[([u8; 43], u64)]) -> Transaction {
    let outputs =
        recipients.iter().map(|(r, v)| TransactionOutput { value: *v, script: r.to_vec() }).collect();
    tx(1, outputs, COINBASE, vec![])
}

fn raw_addr(seed: u8) -> [u8; 43] {
    [seed; 43]
}

#[test]
fn payment_tx_has_the_canonical_shielded_shape() {
    let tx = payment_tx(vec![7, 8, 9]);
    assert_eq!(tx.version, TX_VERSION_SHIELDED);
    assert!(tx.is_shielded(), "version-2, non-coinbase => shielded");
    assert!(tx.inputs.is_empty() && tx.outputs.is_empty(), "no transparent value");
    assert_eq!(tx.subnetwork_id, NATIVE);
    assert_eq!(tx.lock_time, 0);
    assert_eq!(tx.gas, 0);
    assert_eq!(tx.payload, vec![7, 8, 9]);
}

#[test]
fn context_is_payload_independent() {
    let ctx = payment_tx_context();
    let finished = payment_tx(vec![0xab; 900]);
    assert_eq!(ctx, finished.shielded_sighash_context());
}

#[test]
fn context_matches_the_pinned_signer_constant() {
    let mut pinned = [0u8; 38];
    pinned[0] = 2; // shielded tx version, LE u16; the rest of the envelope is zero
    assert_eq!(payment_tx_context(), pinned.to_vec(), "update PAYMENT_TX_CONTEXT in zkas-signer");
}

#[test]
fn contexts_hold_every_part() {
    let t = Transaction {
        version: 0x0102,
        inputs: vec![],
        outputs: vec![],
        lock_time: 0x0102030405060708,
        subnetwork_id: COINBASE,
        gas: 9,
        payload: vec![],
    };
    let c = t.shielded_sighash_context();
    assert_eq!(c[..2], [2, 1]);
    assert_eq!(c[2..22], COINBASE);
    assert_eq!(c[22..30], [8, 7, 6, 5, 4, 3, 2, 1]);
    assert_eq!(c[30..], [9, 0, 0, 0, 0, 0, 0, 0]);
    assert!(t.is_coinbase());
}

#[test]
fn coinbase_descs_are_deterministic_and_per_output_unique() {
    let tx = coinbase_tx(&[(raw_addr(7), 500), (raw_addr(7), 500)]);
    let a = coinbase_note_descs(&[3; 32], &tx).unwrap();
    assert_eq!(a.len(), 2);
    assert_ne!(a[0].0, a[1].0, "per-output seed makes each coinbase note unique");
    assert_eq!(a[0].1, 500);
    assert_eq!(coinbase_note_descs(&[3; 32], &tx).unwrap(), a);
    assert_ne!(coinbase_note_descs(&[4; 32], &tx).unwrap(), a);
}

#[test]
fn short_coinbase_script_is_rejected() {
    let t = tx(1, vec![TransactionOutput { value: 10, script: vec![1u8; 20] }], COINBASE, vec![]);
    assert_eq!(
        coinbase_note_descs(&[0; 32], &t),
        Err(EffectsError::ShortCoinbaseScript { output_index: 0, len: 20 })
    );
}

#[test]
fn shielded_bundle_ignores_transparent_txs() {
    let transparent = tx(1, vec![], NATIVE, vec![1, 2, 3]);
    assert!(shielded_bundle(&transparent).is_none());

    let bad = tx(TX_VERSION_SHIELDED, vec![], NATIVE, vec![0xff; 8]);
    assert!(bad.is_shielded());
    assert!(shielded_bundle(&bad).is_none());
}

fn wire() -> ShieldedBundle {
    ShieldedBundle {
        actions: vec![ActionWire {
            nullifier: [1; 32],
            rk: [2; 32],
            cmx: [3; 32],
            cv_net: [4; 32],
            ephemeral_key: [5; 32],
            enc_ciphertext: [6; sizes::ENC_CIPHERTEXT],
            out_ciphertext: [7; sizes::OUT_CIPHERTEXT],
            spend_auth_sig: [8; sizes::SIG],
        }],
        flags: 3,
        value_balance: 5,
        anchor: [9; 32],
        proof: vec![1, 2, 3],
        binding_sig: [10; sizes::SIG],
    }
}

#[test]
fn a_payment_carries_its_bundle() {
    let b = wire();
    let t = payment_tx(b.to_bytes());
    assert_eq!(shielded_bundle(&t), Some(b));
}

#[test]
fn blocks_mint_and_accept_in_order() {
    let alice_seed = [1u8; 32];
    let mut alice = ShieldedAccount::from_seed(alice_seed).unwrap();
    let raw = address_bytes_from_seed(alice_seed).unwrap();
    let cb = coinbase_tx(&[(raw, 1_000_000), (address_bytes_from_seed([2; 32]).unwrap(), 7)]);
    let other = tx(1, vec![], NATIVE, vec![]);
    let pay = payment_tx(wire().to_bytes());
    let eff = block_effects(&[5; 32], &cb, &[&other, &pay]).unwrap();
    assert_eq!(eff.coinbase.len(), 2);
    assert_eq!(eff.bundles, vec![wire()]);

    let mut state = ShieldedState::new();
    state.apply_chain_block(Some(&coinbase_mint(&eff.coinbase).unwrap()), &[]).unwrap();
    let only = BlockShieldedEffects { coinbase: eff.coinbase.clone(), bundles: vec![] };
    ingest_block_effects(&mut alice, &only);
    assert_eq!(alice.balance(), 1_000_000);
    assert_eq!(alice.db().anchor(), state.anchor().to_bytes());

    let nothing = block_effects(&[6; 32], &coinbase_tx(&[]), &[]).unwrap();
    assert!(nothing.coinbase.is_empty() && nothing.bundles.is_empty());
    let empty = BlockShieldedEffects::default();
    assert!(empty.coinbase.is_empty() && empty.bundles.is_empty());
}

#[test]
fn an_account_has_a_shielded_address() {
    let acct = ShieldedAccount::from_seed([11u8; 32]).unwrap();
    let addr = acct.receiving_address(Prefix::Mainnet);
    assert_eq!(addr.version, Version::ShieldedOrchard);
    assert_eq!(addr.payload.as_slice().len(), 43);
    assert_eq!(
        orchard_recipient_bytes(&addr).unwrap(),
        address_bytes_from_seed([11u8; 32]).unwrap()
    );
    assert_eq!(acct.receiving_address(Prefix::Devnet).prefix, Prefix::Devnet);
}

#[test]
fn recipient_decode_rejects_transparent_address() {
    let transparent = Address::new(Prefix::Mainnet, Version::PubKey, &[0u8; 32]);
    assert_eq!(orchard_recipient_bytes(&transparent), None);
    let short = Address::new(Prefix::Mainnet, Version::ShieldedOrchard, &[0u8; 42]);
    assert_eq!(orchard_recipient_bytes(&short), None);
}

#[test]
fn the_smallest_note_that_covers_is_selected() {
    let seed = [4u8; 32];
    let mut a = ShieldedAccount::from_seed(seed).unwrap();
    let raw = address_bytes_from_seed(seed).unwrap();
    let cb = coinbase_tx(&[(raw, 50), (raw, 20), (raw, 30), (raw, 20)]);
    let eff = block_effects(&[1; 32], &cb, &[]).unwrap();
    ingest_block_effects(&mut a, &eff);
    let notes = a.db().notes();
    assert_eq!(select_note(notes, 20), Some(1));
    assert_eq!(select_note(notes, 21), Some(2));
    assert_eq!(select_note(notes, 31), Some(0));
    assert_eq!(select_note(notes, 51), None);
    let e = PaymentError::Build("Empty".to_string());
    assert_ne!(e, PaymentError::NoWitness);
}
