//! Coinbase note issuance.
//!
//! A coinbase note is a note with a publicly stated value. Its recipient and randomness
//! are stated publicly too, so every node recomputes the same commitment from them, and
//! the commitment binds the value.

use crate::bytes::{copy, le_bytes, le_value, push_le};
use crate::field::{base_modulus, canonical_base, ExtractedNoteCommitment};
use crate::hash::{blake2b, blake2b_256, blake2b_512};
use crate::note::{note_verdict, rseed_decodes, rseed_fits, Note, NoteV};
use crate::state::{CoinbaseMint, CoinbaseNote};
use vstd::prelude::*;

verus! {

/// The public description of a coinbase note: all but its value.
#[derive(Clone, Copy, Debug, PartialEq, Eq)]
pub struct CoinbaseNoteDesc {
    /// Raw Orchard address of the reward recipient.
    pub recipient: [u8; 43],
    /// The note's `rho`.
    pub rho: [u8; 32],
    /// The note's random seed.
    pub rseed: [u8; 32],
}

impl CoinbaseNoteDesc {
    /// The note that the description and a value make.
    pub open spec fn note(self, value: u64) -> NoteV {
        NoteV { recipient: self.recipient@, value, rho: self.rho@, rseed: self.rseed@ }
    }
}

/// Why a coinbase note description could not be turned into a commitment.
#[derive(Debug, Clone, Copy, PartialEq, Eq)]
pub enum CoinbaseNoteError {
    /// The recipient is not an Orchard address.
    BadRecipient,
    /// `rho` is not a canonical encoding.
    BadRho,
    /// The random seed is not valid for this `rho`.
    BadRseed,
    /// The resulting note has no valid commitment.
    BadNote,
}

/// Personalization of the digest that `rho` is reduced from.
pub open spec fn rho_personal() -> Seq<u8> {
    seq![
        0x6bu8, 0x61, 0x73, 0x70, 0x72, 0x69, 0x76, 0x5f, 0x63, 0x62, 0x5f, 0x72, 0x68, 0x6f, 0x30,
        0x31,
    ]
}

/// Personalization of the candidates for the random seed.
pub open spec fn rseed_personal() -> Seq<u8> {
    seq![
        0x6bu8, 0x61, 0x73, 0x70, 0x72, 0x69, 0x76, 0x5f, 0x63, 0x62, 0x5f, 0x73, 0x65, 0x65, 0x64,
        0x31,
    ]
}

/// `rho` of the coinbase note with this seed: a digest of the seed, reduced into the
/// base field.
pub open spec fn coinbase_rho(seed: Seq<u8>) -> Seq<u8> {
    le_bytes(le_value(blake2b(rho_personal(), 64, seed)) % base_modulus(), 32)
}

/// The candidate for the random seed at a counter.
pub open spec fn rseed_candidate(seed: Seq<u8>, ctr: nat) -> Seq<u8> {
    blake2b(rseed_personal(), 32, seed + le_bytes(ctr, 4))
}

/// The candidate at this counter is valid for the note's `rho`.
pub open spec fn candidate_fits(seed: Seq<u8>, ctr: nat) -> bool {
    rseed_fits(rseed_candidate(seed, ctr), coinbase_rho(seed))
}

/// `ctr` is the first counter whose candidate is valid.
pub open spec fn first_fit(seed: Seq<u8>, ctr: nat) -> bool {
    &&& ctr <= u32::MAX
    &&& candidate_fits(seed, ctr)
    &&& forall|j: nat| j < ctr ==> !#[trigger] candidate_fits(seed, j)
}

/// Some counter gives a valid candidate.
pub open spec fn derivable(seed: Seq<u8>) -> bool {
    exists|ctr: nat| first_fit(seed, ctr)
}

/// The description follows from the recipient and the seed: `rho` from the digest, and
/// the random seed from the first counter that fits.
pub open spec fn derived_from(desc: CoinbaseNoteDesc, recipient: Seq<u8>, seed: Seq<u8>) -> bool {
    &&& desc.recipient@ == recipient
    &&& desc.rho@ == coinbase_rho(seed)
    &&& exists|ctr: nat| #[trigger]
        first_fit(seed, ctr) && desc.rseed@ == rseed_candidate(seed, ctr)
}

/// `FromUniformBytes::from_uniform_bytes` on the Pallas base field: the element that the
/// little-endian number is congruent to, in its canonical encoding.
#[verifier::external_body]
fn reduce_to_base(wide: &[u8; 64]) -> (r: [u8; 32])
    ensures
        r@ == le_bytes(le_value(wide@) % base_modulus(), 32),
        canonical_base(r@),
{
    let element: pasta_curves::pallas::Base = group::ff::FromUniformBytes::from_uniform_bytes(wide);
    group::ff::PrimeField::to_repr(&element)
}

/// The `rho` of a coinbase note, and the random seed that the first counter which gives a
/// valid one gives.
fn search(seed: &[u8]) -> (r: ([u8; 32], Option<[u8; 32]>))
    ensures
        r.0@ == coinbase_rho(seed@),
        canonical_base(r.0@),
        r.1 is Some <==> derivable(seed@),
        r.1 matches Some(rseed) ==> rseed_fits(rseed@, r.0@) && exists|i: nat| #[trigger]
            first_fit(seed@, i) && rseed@ == rseed_candidate(seed@, i),
{
    let rho_tag: [u8; 16] = [
        0x6b, 0x61, 0x73, 0x70, 0x72, 0x69, 0x76, 0x5f, 0x63, 0x62, 0x5f, 0x72, 0x68, 0x6f, 0x30,
        0x31,
    ];
    let rseed_tag: [u8; 16] = [
        0x6b, 0x61, 0x73, 0x70, 0x72, 0x69, 0x76, 0x5f, 0x63, 0x62, 0x5f, 0x73, 0x65, 0x65, 0x64,
        0x31,
    ];
    proof {
        assert(rho_tag@ =~= rho_personal());
        assert(rseed_tag@ =~= rseed_personal());
    }
    let rho: [u8; 32] = reduce_to_base(&blake2b_512(&rho_tag, seed));
    let mut ctr: u64 = 0;
    while ctr <= 0xffff_ffff
        invariant
            0 <= ctr <= 0x1_0000_0000,
            rseed_tag@ == rseed_personal(),
            rho@ == coinbase_rho(seed@),
            canonical_base(rho@),
            forall|j: nat| j < ctr ==> !#[trigger] candidate_fits(seed@, j),
        decreases 0x1_0000_0000 - ctr,
    {
        let mut input: Vec<u8> = copy(seed);
        push_le(&mut input, ctr as u128, 4);
        let candidate: [u8; 32] = blake2b_256(&rseed_tag, input.as_slice());
        assert(candidate@ == rseed_candidate(seed@, ctr as nat));
        if rseed_decodes(&candidate, &rho) {
            assert(candidate_fits(seed@, ctr as nat));
            assert(first_fit(seed@, ctr as nat));
            return (rho, Some(candidate));
        }
        assert(!candidate_fits(seed@, ctr as nat));
        ctr = ctr + 1;
    }
    (rho, None)
}

/// Derives the coinbase note description for `recipient` from a unique seed (the
/// coinbase transaction id and the index of the output).
pub fn derive_coinbase_note_desc(recipient: [u8; 43], seed: &[u8]) -> (desc: CoinbaseNoteDesc)
    requires
        derivable(seed@),
    ensures
        derived_from(desc, recipient@, seed@),
        canonical_base(desc.rho@),
        rseed_fits(desc.rseed@, desc.rho@),
{
    let (rho, rseed) = search(seed);
    CoinbaseNoteDesc { recipient, rho, rseed: rseed.unwrap() }
}

/// [`derive_coinbase_note_desc`] where some counter gives a valid random seed; `None` where
/// none does.
pub fn try_derive_coinbase_note_desc(recipient: [u8; 43], seed: &[u8]) -> (r: Option<
    CoinbaseNoteDesc,
>)
    ensures
        r is Some <==> derivable(seed@),
        r matches Some(desc) ==> derived_from(desc, recipient@, seed@) && canonical_base(desc.rho@)
            && rseed_fits(desc.rseed@, desc.rho@),
{
    if search(seed).1.is_some() {
        Some(derive_coinbase_note_desc(recipient, seed))
    } else {
        None
    }
}

/// The commitment of the note with a description and a value, or what is at fault.
pub fn coinbase_note_commitment(desc: &CoinbaseNoteDesc, value: u64) -> (r: Result<
    ExtractedNoteCommitment,
    CoinbaseNoteError,
>)
    ensures
        match (r, note_verdict(desc.note(value))) {
            (Ok(c), Ok(())) => c@ == desc.note(value).commitment(),
            (Err(e), Err(f)) => e == f,
            _ => false,
        },
{
    match Note::from_parts(&desc.recipient, value, &desc.rho, &desc.rseed) {
        Ok(note) => Ok(note.commitment()),
        Err(e) => Err(e),
    }
}

/// A coinbase note (value and commitment) from its description and value.
pub fn coinbase_note(desc: &CoinbaseNoteDesc, value: u64) -> (r: Result<
    CoinbaseNote,
    CoinbaseNoteError,
>)
    ensures
        match (r, note_verdict(desc.note(value))) {
            (Ok(n), Ok(())) => n.value == value && n.commitment@ == desc.note(value).commitment(),
            (Err(e), Err(f)) => e == f,
            _ => false,
        },
{
    match coinbase_note_commitment(desc, value) {
        Ok(commitment) => Ok(CoinbaseNote { value, commitment }),
        Err(e) => Err(e),
    }
}

/// `i` is the first description of the list that makes no note.
pub open spec fn first_bad_note(notes: Seq<(CoinbaseNoteDesc, u64)>, i: int) -> bool {
    &&& 0 <= i < notes.len()
    &&& note_verdict(notes[i].0.note(notes[i].1)) is Err
    &&& forall|j: int|
        0 <= j < i ==> note_verdict((#[trigger] notes[j]).0.note(notes[j].1)) is Ok
}

/// The mint of a coinbase transaction's descriptions and values: one note for each, or
/// what is at fault with the first that makes none.
pub fn coinbase_mint(notes: &[(CoinbaseNoteDesc, u64)]) -> (r: Result<
    CoinbaseMint,
    CoinbaseNoteError,
>)
    ensures
        match r {
            Ok(m) => {
                &&& m.notes@.len() == notes@.len()
                &&& forall|j: int|
                    0 <= j < notes@.len() ==> {
                        let n = #[trigger] notes@[j];
                        &&& note_verdict(n.0.note(n.1)) is Ok
                        &&& m.notes@[j].value == n.1
                        &&& m.notes@[j].commitment@ == n.0.note(n.1).commitment()
                    }
            },
            Err(e) => exists|i: int| #[trigger]
                first_bad_note(notes@, i) && note_verdict(notes@[i].0.note(notes@[i].1)) == Err::<
                    (),
                    CoinbaseNoteError,
                >(e),
        },
{
    let mut out: Vec<CoinbaseNote> = Vec::new();
    let mut i: usize = 0;
    while i < notes.len()
        invariant
            0 <= i <= notes@.len(),
            out@.len() == i,
            forall|j: int|
                0 <= j < i ==> {
                    let n = #[trigger] notes@[j];
                    &&& note_verdict(n.0.note(n.1)) is Ok
                    &&& out@[j].value == n.1
                    &&& out@[j].commitment@ == n.0.note(n.1).commitment()
                },
        decreases notes@.len() - i,
    {
        match coinbase_note(&notes[i].0, notes[i].1) {
            Ok(note) => {
                out.push(note);
            },
            Err(e) => {
                assert(first_bad_note(notes@, i as int));
                return Err(e);
            },
        }
        i = i + 1;
    }
    Ok(CoinbaseMint::new(out))
}

/// A derived description is fixed by the recipient and the seed, so consensus and the
/// recipient's wallet arrive at the same note.
pub proof fn derivation_is_deterministic(
    a: CoinbaseNoteDesc,
    b: CoinbaseNoteDesc,
    recipient: Seq<u8>,
    seed: Seq<u8>,
)
    requires
        derived_from(a, recipient, seed),
        derived_from(b, recipient, seed),
    ensures
        a.recipient@ == b.recipient@,
        a.rho@ == b.rho@,
        a.rseed@ == b.rseed@,
{
    let i = choose|i: nat| #[trigger] first_fit(seed, i) && a.rseed@ == rseed_candidate(seed, i);
    let j = choose|j: nat| #[trigger] first_fit(seed, j) && b.rseed@ == rseed_candidate(seed, j);
    if i < j {
        assert(!candidate_fits(seed, i));
    } else if j < i {
        assert(!candidate_fits(seed, j));
    }
}

/// What is derived for a coinbase note has a canonical `rho` and a random seed that fits it,
/// whatever the seed, and pays the recipient.
pub proof fn derived_notes_fit_together(desc: CoinbaseNoteDesc, recipient: Seq<u8>, seed: Seq<u8>)
    requires
        derived_from(desc, recipient, seed),
    ensures
        desc.recipient@ == recipient,
        canonical_base(desc.rho@),
        rseed_fits(desc.rseed@, desc.rho@),
{
    let ctr = choose|ctr: nat| #[trigger]
        first_fit(seed, ctr) && desc.rseed@ == rseed_candidate(seed, ctr);
    assert(candidate_fits(seed, ctr));
    let n = le_value(blake2b(rho_personal(), 64, seed)) % base_modulus();
    assert(base_modulus() <= crate::bytes::pow256(32)) by {
        reveal_with_fuel(crate::bytes::pow256, 33);
    }
    crate::bytes::lemma_le_bytes_len(n, 32);
    crate::bytes::lemma_le_value_of_bytes(n, 32);
}

} // verus!
