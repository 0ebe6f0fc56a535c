//! Encodings of Pallas field elements: what a nullifier, a note commitment and an
//! anchor are on the wire, and when 32 bytes are one.

use crate::bytes::le_value;
use vstd::prelude::*;

verus! {

/// The modulus of the Pallas base field.
pub open spec fn base_modulus() -> nat {
    0x4000_0000_0000_0000_0000_0000_0000_0000 * 0x1_0000_0000_0000_0000 * 0x1_0000_0000_0000_0000
        + 0x2246_98fc_094c_f91b_992d_30ed_0000_0001
}

/// The modulus of the Pallas scalar field.
pub open spec fn scalar_modulus() -> nat {
    0x4000_0000_0000_0000_0000_0000_0000_0000 * 0x1_0000_0000_0000_0000 * 0x1_0000_0000_0000_0000
        + 0x2246_98fc_0994_a8dd_8c46_eb21_0000_0001
}

/// 32 bytes that are the canonical encoding of a base field element: the
/// little-endian number they denote is below the modulus.
pub open spec fn canonical_base(s: Seq<u8>) -> bool {
    s.len() == 32 && le_value(s) < base_modulus()
}

/// 32 bytes that are the canonical encoding of a scalar.
pub open spec fn canonical_scalar(s: Seq<u8>) -> bool {
    s.len() == 32 && le_value(s) < scalar_modulus()
}

/// `orchard::note::Nullifier::from_bytes` gives a nullifier for exactly the canonical
/// encodings of a base field element.
#[verifier::external_body]
fn nullifier_decodes(b: &[u8; 32]) -> (r: bool)
    ensures
        r == canonical_base(b@),
{
    orchard::note::Nullifier::from_bytes(b).is_some().into()
}

/// `orchard::note::ExtractedNoteCommitment::from_bytes` gives a commitment for exactly
/// the canonical encodings of a base field element.
#[verifier::external_body]
fn commitment_decodes(b: &[u8; 32]) -> (r: bool)
    ensures
        r == canonical_base(b@),
{
    orchard::note::ExtractedNoteCommitment::from_bytes(b).is_some().into()
}

/// `orchard::tree::Anchor::from_bytes` gives an anchor for exactly the canonical
/// encodings of a base field element.
#[verifier::external_body]
fn anchor_decodes(b: &[u8; 32]) -> (r: bool)
    ensures
        r == canonical_base(b@),
{
    orchard::tree::Anchor::from_bytes(*b).is_some().into()
}

/// The nullifier of a spent note.
#[derive(Clone, Copy, Debug, PartialEq, Eq)]
pub struct Nullifier {
    bytes: [u8; 32],
}

impl View for Nullifier {
    type V = Seq<u8>;

    closed spec fn view(&self) -> Seq<u8> {
        self.bytes@
    }
}

impl Nullifier {
    #[verifier::type_invariant]
    spec fn inv(&self) -> bool {
        canonical_base(self.bytes@)
    }

    /// The nullifier with this encoding.
    pub fn from_bytes(bytes: &[u8; 32]) -> (r: Option<Self>)
        ensures
            r is Some <==> canonical_base(bytes@),
            r matches Some(n) ==> n@ == bytes@,
    {
        if nullifier_decodes(bytes) {
            Some(Nullifier { bytes: *bytes })
        } else {
            None
        }
    }

    /// The canonical encoding.
    pub fn to_bytes(&self) -> (b: [u8; 32])
        ensures
            b@ == self@,
            canonical_base(self@),
    {
        proof {
            use_type_invariant(self);
        }
        self.bytes
    }
}

/// The extracted commitment of a note: a leaf of the note-commitment tree.
#[derive(Clone, Copy, Debug, PartialEq, Eq)]
pub struct ExtractedNoteCommitment {
    bytes: [u8; 32],
}

impl View for ExtractedNoteCommitment {
    type V = Seq<u8>;

    closed spec fn view(&self) -> Seq<u8> {
        self.bytes@
    }
}

impl ExtractedNoteCommitment {
    #[verifier::type_invariant]
    spec fn inv(&self) -> bool {
        canonical_base(self.bytes@)
    }

    /// The commitment with this encoding.
    pub fn from_bytes(bytes: &[u8; 32]) -> (r: Option<Self>)
        ensures
            r is Some <==> canonical_base(bytes@),
            r matches Some(c) ==> c@ == bytes@,
    {
        if commitment_decodes(bytes) {
            Some(ExtractedNoteCommitment { bytes: *bytes })
        } else {
            None
        }
    }

    /// The canonical encoding.
    pub fn to_bytes(&self) -> (b: [u8; 32])
        ensures
            b@ == self@,
            canonical_base(self@),
    {
        proof {
            use_type_invariant(self);
        }
        self.bytes
    }
}

/// The root of a note-commitment tree.
#[derive(Clone, Copy, Debug, PartialEq, Eq)]
pub struct Anchor {
    bytes: [u8; 32],
}

impl View for Anchor {
    type V = Seq<u8>;

    closed spec fn view(&self) -> Seq<u8> {
        self.bytes@
    }
}

impl Anchor {
    #[verifier::type_invariant]
    spec fn inv(&self) -> bool {
        canonical_base(self.bytes@)
    }

    /// The anchor with this encoding.
    pub fn from_bytes(bytes: &[u8; 32]) -> (r: Option<Self>)
        ensures
            r is Some <==> canonical_base(bytes@),
            r matches Some(c) ==> c@ == bytes@,
    {
        if anchor_decodes(bytes) {
            Some(Anchor { bytes: *bytes })
        } else {
            None
        }
    }

    /// The canonical encoding.
    pub fn to_bytes(&self) -> (b: [u8; 32])
        ensures
            b@ == self@,
            canonical_base(self@),
    {
        proof {
            use_type_invariant(self);
        }
        self.bytes
    }
}

/// What a list of commitments holds.
pub open spec fn commitment_views(list: Seq<ExtractedNoteCommitment>) -> Seq<Seq<u8>> {
    Seq::new(list.len(), |i: int| list[i]@)
}

} // verus!
