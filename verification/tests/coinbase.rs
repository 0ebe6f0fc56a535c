use group::ff::{FromUniformBytes, PrimeField};
use orchard::keys::{FullViewingKey, Scope, SpendingKey};
use orchard::note::{ExtractedNoteCommitment, Note, RandomSeed, Rho};
use orchard::value::NoteValue;
use orchard::Address;
use zkas_shielded::coinbase::{
    coinbase_mint, coinbase_note, coinbase_note_commitment, derive_coinbase_note_desc,
    try_derive_coinbase_note_desc, CoinbaseNoteDesc, CoinbaseNoteError,
};

fn canon32(seed: u8) -> [u8; 32] {
    let mut b = [0u8; 32];
    b[0] = seed;
    b
}

fn test_recipient() -> Address {
    let sk = Option::<SpendingKey>::from(SpendingKey::from_bytes([9u8; 32])).expect("valid sk");
    FullViewingKey::from(&sk).address_at(0u32, Scope::External)
}

#[test]
fn matches_orchard_note_commitment() {
    let recipient = test_recipient();
    let rho: Rho = Option::from(Rho::from_bytes(&canon32(1))).unwrap();
    let rseed: RandomSeed = Option::from(RandomSeed::from_bytes(canon32(2), &rho)).unwrap();
    let subsidy = 5_000_000_000u64;

    let note: Note =
        Option::from(Note::from_parts(recipient, NoteValue::from_raw(subsidy), rho, rseed)).unwrap();
    let expected = ExtractedNoteCommitment::from(note.commitment());

    let desc = CoinbaseNoteDesc {
        recipient: recipient.to_raw_address_bytes(),
        rho: canon32(1),
        rseed: canon32(2),
    };
    let got = coinbase_note_commitment(&desc, subsidy).unwrap();
    assert_eq!(got.to_bytes(), expected.to_bytes());
}

#[test]
fn deterministic_and_binds_value() {
    let desc = CoinbaseNoteDesc {
        recipient: test_recipient().to_raw_address_bytes(),
        rho: canon32(1),
        rseed: canon32(2),
    };
    let a = coinbase_note_commitment(&desc, 100).unwrap();
    let b = coinbase_note_commitment(&desc, 100).unwrap();
    assert_eq!(a.to_bytes(), b.to_bytes(), "deterministic");
    let c = coinbase_note_commitment(&desc, 101).unwrap();
    assert_ne!(a.to_bytes(), c.to_bytes(), "commitment binds the public value");
}

#[test]
fn derived_coinbase_note_is_canonical_spendable_and_deterministic() {
    let recipient = test_recipient();
    let raw = recipient.to_raw_address_bytes();
    let value = 5_000_000_000u64;

    let desc = derive_coinbase_note_desc(raw, b"coinbase-txid||0");
    assert_eq!(derive_coinbase_note_desc(raw, b"coinbase-txid||0"), desc);
    assert_eq!(try_derive_coinbase_note_desc(raw, b"coinbase-txid||0"), Some(desc));
    assert_ne!(derive_coinbase_note_desc(raw, b"coinbase-txid||1"), desc);

    let rho: Rho = Option::from(Rho::from_bytes(&desc.rho)).unwrap();
    let rseed: RandomSeed = Option::from(RandomSeed::from_bytes(desc.rseed, &rho)).unwrap();
    let note: Note =
        Option::from(Note::from_parts(recipient, NoteValue::from_raw(value), rho, rseed)).unwrap();
    assert_eq!(
        coinbase_note_commitment(&desc, value).unwrap().to_bytes(),
        ExtractedNoteCommitment::from(note.commitment()).to_bytes()
    );
}

#[test]
fn derivation_hashes_and_reduces_the_seed() {
    let seed = b"some seed";
    let desc = derive_coinbase_note_desc([7; 43], seed);
    let wide = blake2b_simd::Params::new().hash_length(64).personal(b"kaspriv_cb_rho01").hash(seed);
    let rho = pasta_curves::pallas::Base::from_uniform_bytes(wide.as_array());
    assert_eq!(desc.rho, rho.to_repr());
    let mut input = seed.to_vec();
    input.extend_from_slice(&0u32.to_le_bytes());
    let first = blake2b_simd::Params::new().hash_length(32).personal(b"kaspriv_cb_seed1").hash(&input);
    assert_eq!(desc.rseed, first.as_bytes());
    assert_eq!(desc.recipient, [7; 43]);
}

#[test]
fn rejects_bad_recipient() {
    let desc = CoinbaseNoteDesc { recipient: [0xff; 43], rho: canon32(1), rseed: canon32(2) };
    assert!(matches!(coinbase_note_commitment(&desc, 100), Err(CoinbaseNoteError::BadRecipient)));
}

#[test]
fn rejects_bad_rho() {
    let desc = CoinbaseNoteDesc {
        recipient: test_recipient().to_raw_address_bytes(),
        rho: [0xff; 32],
        rseed: canon32(2),
    };
    assert_eq!(coinbase_note_commitment(&desc, 100).unwrap_err(), CoinbaseNoteError::BadRho);
    assert_eq!(coinbase_note(&desc, 100).unwrap_err(), CoinbaseNoteError::BadRho);
    let good = CoinbaseNoteDesc { rho: canon32(1), ..desc };
    assert_eq!(
        coinbase_mint(&[(good, 1), (desc, 2)]).unwrap_err(),
        CoinbaseNoteError::BadRho
    );
}

#[test]
fn coinbase_mint_carries_note_values() {
    let r = test_recipient().to_raw_address_bytes();
    let d1 = CoinbaseNoteDesc { recipient: r, rho: canon32(3), rseed: canon32(4) };
    let d2 = CoinbaseNoteDesc { recipient: r, rho: canon32(5), rseed: canon32(6) };
    let mint = coinbase_mint(&[(d1, 12_345), (d2, 678)]).unwrap();
    assert_eq!(mint.notes.len(), 2);
    assert_eq!(mint.notes[0].value, 12_345);
    assert_eq!(mint.notes[1].value, 678);
    assert_eq!(mint.total_value(), 13_023);
}
