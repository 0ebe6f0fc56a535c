//! Notes: who they pay, what they are worth, and the randomness that fixes their
//! commitment and their nullifier.

use crate::coinbase::CoinbaseNoteError;
use crate::field::{canonical_base, ExtractedNoteCommitment};
use crate::keys::{address_decodes, orchard_address, viewing_key, FullViewingKey};
use orchard::note::{ExtractedNoteCommitment as OrchardCommitment, Note as OrchardNote};
use orchard::note::{RandomSeed, Rho};
use orchard::value::NoteValue;
use orchard::Address;
use vstd::prelude::*;

verus! {

/// The random seed is valid for a note with this `rho`.
pub uninterp spec fn rseed_fits(rseed: Seq<u8>, rho: Seq<u8>) -> bool;

/// The extracted commitment of the note with these parts; none where the parts have no
/// valid commitment.
pub uninterp spec fn note_commitment(
    recipient: Seq<u8>,
    value: u64,
    rho: Seq<u8>,
    rseed: Seq<u8>,
) -> Option<Seq<u8>>;

/// The nullifier that spending the note with these parts reveals, under a full viewing
/// key.
pub uninterp spec fn note_nullifier(
    fvk: Seq<u8>,
    recipient: Seq<u8>,
    value: u64,
    rho: Seq<u8>,
    rseed: Seq<u8>,
) -> Seq<u8>;

/// `Rho::from_bytes` decodes exactly the canonical encodings of a base field element.
#[verifier::external_body]
fn rho_decodes(rho: &[u8; 32]) -> (r: bool)
    ensures
        r == canonical_base(rho@),
{
    Rho::from_bytes(rho).is_some().into()
}

/// `RandomSeed::from_bytes` takes the seed for this `rho`.
#[verifier::external_body]
pub(crate) fn rseed_decodes(rseed: &[u8; 32], rho: &[u8; 32]) -> (r: bool)
    requires
        canonical_base(rho@),
    ensures
        r == rseed_fits(rseed@, rho@),
{
    RandomSeed::from_bytes(*rseed, &Rho::from_bytes(rho).unwrap()).is_some().into()
}

/// `Note::from_parts` and `Note::commitment`, extracted: the commitment of the note, a
/// canonical base field element, where the parts make a note.
#[verifier::external_body]
fn commitment_of(recipient: &[u8; 43], value: u64, rho: &[u8; 32], rseed: &[u8; 32]) -> (r: Option<
    [u8; 32],
>)
    requires
        orchard_address(recipient@),
        canonical_base(rho@),
        rseed_fits(rseed@, rho@),
    ensures
        match r {
            Some(c) => note_commitment(recipient@, value, rho@, rseed@) == Some(c@)
                && canonical_base(c@),
            None => note_commitment(recipient@, value, rho@, rseed@) is None,
        },
{
    let rho = Rho::from_bytes(rho).unwrap();
    let rseed = RandomSeed::from_bytes(*rseed, &rho).unwrap();
    let recipient = Address::from_raw_address_bytes(recipient).unwrap();
    let note: Option<OrchardNote> =
        OrchardNote::from_parts(recipient, NoteValue::from_raw(value), rho, rseed).into();
    Some(OrchardCommitment::from(note?.commitment()).to_bytes())
}

/// `Note::nullifier`: the nullifier of the note under a full viewing key.
#[verifier::external_body]
fn nullifier_of(
    fvk: &[u8; 96],
    recipient: &[u8; 43],
    value: u64,
    rho: &[u8; 32],
    rseed: &[u8; 32],
) -> (r: [u8; 32])
    requires
        viewing_key(fvk@),
        note_valid(NoteV { recipient: recipient@, value, rho: rho@, rseed: rseed@ }),
    ensures
        r@ == note_nullifier(fvk@, recipient@, value, rho@, rseed@),
        canonical_base(r@),
{
    let fvk = orchard::keys::FullViewingKey::from_bytes(fvk).unwrap();
    let rho = Rho::from_bytes(rho).unwrap();
    let rseed = RandomSeed::from_bytes(*rseed, &rho).unwrap();
    let recipient = Address::from_raw_address_bytes(recipient).unwrap();
    let note = OrchardNote::from_parts(recipient, NoteValue::from_raw(value), rho, rseed).unwrap();
    note.nullifier(&fvk).to_bytes()
}

/// What a [`Note`] holds.
pub struct NoteV {
    pub recipient: Seq<u8>,
    pub value: u64,
    pub rho: Seq<u8>,
    pub rseed: Seq<u8>,
}

/// Whether the parts make a note, or which of them is the first at fault.
pub open spec fn note_verdict(n: NoteV) -> Result<(), CoinbaseNoteError> {
    if !orchard_address(n.recipient) {
        Err(CoinbaseNoteError::BadRecipient)
    } else if !canonical_base(n.rho) {
        Err(CoinbaseNoteError::BadRho)
    } else if !rseed_fits(n.rseed, n.rho) {
        Err(CoinbaseNoteError::BadRseed)
    } else if note_commitment(n.recipient, n.value, n.rho, n.rseed) is None {
        Err(CoinbaseNoteError::BadNote)
    } else {
        Ok(())
    }
}

/// The parts make a note.
pub open spec fn note_valid(n: NoteV) -> bool {
    note_verdict(n) is Ok
}

impl NoteV {
    /// The note's extracted commitment: its leaf in the tree.
    pub open spec fn commitment(self) -> Seq<u8> {
        note_commitment(self.recipient, self.value, self.rho, self.rseed)->Some_0
    }

    /// The nullifier that spending the note reveals.
    pub open spec fn nullifier(self, fvk: Seq<u8>) -> Seq<u8> {
        note_nullifier(fvk, self.recipient, self.value, self.rho, self.rseed)
    }
}

/// A note that can be spent by the holder of its recipient's key.
#[derive(Clone, Copy, Debug, PartialEq, Eq)]
pub struct Note {
    recipient: [u8; 43],
    value: u64,
    rho: [u8; 32],
    rseed: [u8; 32],
}

impl View for Note {
    type V = NoteV;

    closed spec fn view(&self) -> NoteV {
        NoteV {
            recipient: self.recipient@,
            value: self.value,
            rho: self.rho@,
            rseed: self.rseed@,
        }
    }
}

impl Note {
    #[verifier::type_invariant]
    spec fn inv(&self) -> bool {
        note_valid(self@)
    }

    /// The note with these parts, and its commitment; else the first part at fault.
    fn make(recipient: &[u8; 43], value: u64, rho: &[u8; 32], rseed: &[u8; 32]) -> (r: Result<
        (Self, [u8; 32]),
        CoinbaseNoteError,
    >)
        ensures
            ({
                let v = NoteV { recipient: recipient@, value, rho: rho@, rseed: rseed@ };
                match (r, note_verdict(v)) {
                    (Ok((n, c)), Ok(())) => n@ == v && c@ == v.commitment() && canonical_base(c@),
                    (Err(e), Err(f)) => e == f,
                    _ => false,
                }
            }),
    {
        if !address_decodes(recipient) {
            return Err(CoinbaseNoteError::BadRecipient);
        }
        if !rho_decodes(rho) {
            return Err(CoinbaseNoteError::BadRho);
        }
        if !rseed_decodes(rseed, rho) {
            return Err(CoinbaseNoteError::BadRseed);
        }
        match commitment_of(recipient, value, rho, rseed) {
            Some(c) => Ok(
                (Note { recipient: *recipient, value, rho: *rho, rseed: *rseed }, c),
            ),
            None => Err(CoinbaseNoteError::BadNote),
        }
    }

    /// The note with these parts, or the first part at fault.
    pub fn from_parts(recipient: &[u8; 43], value: u64, rho: &[u8; 32], rseed: &[u8; 32]) -> (r: Result<
        Self,
        CoinbaseNoteError,
    >)
        ensures
            ({
                let v = NoteV { recipient: recipient@, value, rho: rho@, rseed: rseed@ };
                match (r, note_verdict(v)) {
                    (Ok(n), Ok(())) => n@ == v,
                    (Err(e), Err(f)) => e == f,
                    _ => false,
                }
            }),
    {
        match Note::make(recipient, value, rho, rseed) {
            Ok((n, _c)) => Ok(n),
            Err(e) => Err(e),
        }
    }

    /// A note from parts that are known to make one.
    pub(crate) fn from_valid_parts(
        recipient: [u8; 43],
        value: u64,
        rho: [u8; 32],
        rseed: [u8; 32],
    ) -> (n: Self)
        requires
            note_valid(NoteV { recipient: recipient@, value, rho: rho@, rseed: rseed@ }),
        ensures
            n@ == (NoteV { recipient: recipient@, value, rho: rho@, rseed: rseed@ }),
    {
        Note { recipient, value, rho, rseed }
    }

    /// The raw address that the note pays.
    pub fn recipient(&self) -> (a: [u8; 43])
        ensures
            a@ == self@.recipient,
            note_valid(self@),
    {
        proof {
            use_type_invariant(self);
        }
        self.recipient
    }

    /// The note's value.
    pub fn value(&self) -> (v: u64)
        ensures
            v == self@.value,
    {
        self.value
    }

    /// The note's `rho`.
    pub fn rho(&self) -> (b: [u8; 32])
        ensures
            b@ == self@.rho,
    {
        self.rho
    }

    /// The note's random seed.
    pub fn rseed(&self) -> (b: [u8; 32])
        ensures
            b@ == self@.rseed,
    {
        self.rseed
    }

    /// The note's extracted commitment.
    pub fn commitment(&self) -> (c: ExtractedNoteCommitment)
        ensures
            c@ == self@.commitment(),
    {
        proof {
            use_type_invariant(self);
        }
        let c: Option<[u8; 32]> = commitment_of(
            &self.recipient,
            self.value,
            &self.rho,
            &self.rseed,
        );
        ExtractedNoteCommitment::from_bytes(&c.unwrap()).unwrap()
    }

    /// The nullifier that spending the note reveals.
    pub fn nullifier(&self, fvk: &FullViewingKey) -> (b: [u8; 32])
        ensures
            b@ == self@.nullifier(fvk@),
            canonical_base(b@),
    {
        proof {
            use_type_invariant(self);
        }
        let key: [u8; 96] = fvk.to_bytes();
        nullifier_of(&key, &self.recipient, self.value, &self.rho, &self.rseed)
    }
}

/// Parts make a note exactly where the address is one, `rho` is canonical, the random seed fits
/// it, and the parts have a commitment.
pub proof fn notes_are_made_of_valid_parts(n: NoteV)
    ensures
        note_valid(n) <==> orchard_address(n.recipient) && canonical_base(n.rho) && rseed_fits(
            n.rseed,
            n.rho,
        ) && note_commitment(n.recipient, n.value, n.rho, n.rseed) is Some,
        note_valid(n) ==> note_commitment(n.recipient, n.value, n.rho, n.rseed) == Some(
            n.commitment(),
        ),
{
}

} // verus!
