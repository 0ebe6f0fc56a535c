//! Pedersen value commitments on the Pallas curve and their blinding factors.

use crate::bytes::{
    le_bytes, le_value, lemma_le_bytes_len, lemma_le_bytes_of_value, lemma_le_value_of_bytes, pow256,
};
use crate::field::{canonical_scalar, scalar_modulus};
use vstd::prelude::*;

verus! {

/// 32 bytes that encode a point of the Pallas curve.
pub uninterp spec fn pallas_point(s: Seq<u8>) -> bool;

/// The encoding of the commitment `[v]V + [rcv]R` to the value `v` under the blinding
/// factor encoded by `rcv`.
pub uninterp spec fn value_commit(v: int, rcv: Seq<u8>) -> Seq<u8>;

/// The encoding of the sum of two encoded points.
pub uninterp spec fn point_sum(a: Seq<u8>, b: Seq<u8>) -> Seq<u8>;

/// The encoding of the difference of two encoded points.
pub uninterp spec fn point_difference(a: Seq<u8>, b: Seq<u8>) -> Seq<u8>;

/// The encoding of the sum of two encoded scalars.
pub open spec fn scalar_sum(a: Seq<u8>, b: Seq<u8>) -> Seq<u8> {
    le_bytes((le_value(a) + le_value(b)) % scalar_modulus(), 32)
}

/// The encoding of the difference of two encoded scalars.
pub open spec fn scalar_difference(a: Seq<u8>, b: Seq<u8>) -> Seq<u8> {
    le_bytes(((le_value(a) - le_value(b)) % (scalar_modulus() as int)) as nat, 32)
}

/// The encoding of the identity point: all zero. It is the only one.
pub open spec fn is_identity(s: Seq<u8>) -> bool {
    s == Seq::new(32, |i: int| 0u8)
}

/// `pallas::Point::from_bytes` decodes the byte string. (`ValueCommitment::from_bytes`
/// and the decoding of a RedPallas verification key are this same decoding.) The
/// all-zero string decodes, to the identity.
#[verifier::external_body]
pub(crate) fn point_decodes(b: &[u8; 32]) -> (r: bool)
    ensures
        r == pallas_point(b@),
        is_identity(b@) ==> r,
{
    let p: Option<pasta_curves::pallas::Point> = group::GroupEncoding::from_bytes(b).into();
    p.is_some()
}

/// `ValueCommitTrapdoor::from_bytes` decodes exactly the canonical encodings of a scalar.
#[verifier::external_body]
fn trapdoor_decodes(b: &[u8; 32]) -> (r: bool)
    ensures
        r == canonical_scalar(b@),
{
    orchard::value::ValueCommitTrapdoor::from_bytes(*b).is_some().into()
}

/// `ValueCommitTrapdoor + &ValueCommitTrapdoor`: the sum modulo the scalar field's
/// modulus.
#[verifier::external_body]
fn trapdoor_sum(a: &[u8; 32], b: &[u8; 32]) -> (r: [u8; 32])
    requires
        canonical_scalar(a@),
        canonical_scalar(b@),
    ensures
        r@ == scalar_sum(a@, b@),
        canonical_scalar(r@),
{
    let x = orchard::value::ValueCommitTrapdoor::from_bytes(*a).unwrap();
    let y = orchard::value::ValueCommitTrapdoor::from_bytes(*b).unwrap();
    (x + &y).to_bytes()
}

/// `ValueCommitment::derive` on the difference of two `NoteValue`s: the commitment to
/// that difference.
#[verifier::external_body]
fn derive_commitment(plus: u64, minus: u64, rcv: &[u8; 32]) -> (r: [u8; 32])
    requires
        canonical_scalar(rcv@),
    ensures
        r@ == value_commit(plus - minus, rcv@),
        pallas_point(r@),
{
    let v = orchard::value::NoteValue::from_raw(plus) - orchard::value::NoteValue::from_raw(minus);
    let rcv = orchard::value::ValueCommitTrapdoor::from_bytes(*rcv).unwrap();
    orchard::value::ValueCommitment::derive(v, rcv).to_bytes()
}

/// `ValueCommitment + &ValueCommitment`: point addition, so commitments add up value by
/// value and blinding factor by blinding factor.
#[verifier::external_body]
fn commitment_sum(a: &[u8; 32], b: &[u8; 32]) -> (r: [u8; 32])
    requires
        pallas_point(a@),
        pallas_point(b@),
    ensures
        r@ == point_sum(a@, b@),
        pallas_point(r@),
        forall|v: int, x: Seq<u8>, w: int, y: Seq<u8>|
            canonical_scalar(x) && canonical_scalar(y) && a@ == #[trigger] value_commit(v, x) && b@
                == #[trigger] value_commit(w, y) ==> r@ == value_commit(v + w, scalar_sum(x, y)),
{
    let x = orchard::value::ValueCommitment::from_bytes(a).unwrap();
    let y = orchard::value::ValueCommitment::from_bytes(b).unwrap();
    (x + &y).to_bytes()
}

/// `ValueCommitment - ValueCommitment`: point subtraction, so commitments are taken off value
/// by value and blinding factor by blinding factor.
#[verifier::external_body]
fn commitment_difference(a: &[u8; 32], b: &[u8; 32]) -> (r: [u8; 32])
    requires
        pallas_point(a@),
        pallas_point(b@),
    ensures
        r@ == point_difference(a@, b@),
        pallas_point(r@),
        forall|v: int, x: Seq<u8>, w: int, y: Seq<u8>|
            canonical_scalar(x) && canonical_scalar(y) && a@ == #[trigger] value_commit(v, x) && b@
                == #[trigger] value_commit(w, y) ==> r@ == value_commit(
                v - w,
                scalar_difference(x, y),
            ),
{
    let x = orchard::value::ValueCommitment::from_bytes(a).unwrap();
    let y = orchard::value::ValueCommitment::from_bytes(b).unwrap();
    (x - y).to_bytes()
}

/// The blinding factor of a value commitment.
#[derive(Clone, Copy, Debug, PartialEq, Eq)]
pub struct ValueCommitTrapdoor {
    bytes: [u8; 32],
}

impl View for ValueCommitTrapdoor {
    type V = Seq<u8>;

    closed spec fn view(&self) -> Seq<u8> {
        self.bytes@
    }
}

impl ValueCommitTrapdoor {
    #[verifier::type_invariant]
    spec fn inv(&self) -> bool {
        canonical_scalar(self.bytes@)
    }

    /// The blinding factor with this encoding.
    pub fn from_bytes(bytes: [u8; 32]) -> (r: Option<Self>)
        ensures
            r is Some <==> canonical_scalar(bytes@),
            r matches Some(t) ==> t@ == bytes@,
    {
        if trapdoor_decodes(&bytes) {
            Some(ValueCommitTrapdoor { bytes })
        } else {
            None
        }
    }

    /// The canonical encoding.
    pub fn to_bytes(&self) -> (b: [u8; 32])
        ensures
            b@ == self@,
            canonical_scalar(self@),
    {
        proof {
            use_type_invariant(self);
        }
        self.bytes
    }

    /// The sum of two blinding factors.
    pub fn add(&self, other: &Self) -> (r: Self)
        ensures
            r@ == scalar_sum(self@, other@),
    {
        proof {
            use_type_invariant(self);
            use_type_invariant(other);
        }
        ValueCommitTrapdoor { bytes: trapdoor_sum(&self.bytes, &other.bytes) }
    }
}

/// A commitment to a signed value.
#[derive(Clone, Copy, Debug, PartialEq, Eq)]
pub struct ValueCommitment {
    bytes: [u8; 32],
}

impl View for ValueCommitment {
    type V = Seq<u8>;

    closed spec fn view(&self) -> Seq<u8> {
        self.bytes@
    }
}

impl ValueCommitment {
    #[verifier::type_invariant]
    spec fn inv(&self) -> bool {
        pallas_point(self.bytes@)
    }

    /// The commitment with this encoding.
    pub fn from_bytes(bytes: &[u8; 32]) -> (r: Option<Self>)
        ensures
            r is Some <==> pallas_point(bytes@),
            r matches Some(t) ==> t@ == bytes@,
    {
        if point_decodes(bytes) {
            Some(ValueCommitment { bytes: *bytes })
        } else {
            None
        }
    }

    /// The canonical encoding.
    pub fn to_bytes(&self) -> (b: [u8; 32])
        ensures
            b@ == self@,
            pallas_point(self@),
    {
        proof {
            use_type_invariant(self);
        }
        self.bytes
    }

    /// The commitment to `plus - minus` under `rcv`.
    pub fn derive(plus: u64, minus: u64, rcv: &ValueCommitTrapdoor) -> (r: Self)
        ensures
            r@ == value_commit(plus - minus, rcv@),
    {
        proof {
            use_type_invariant(rcv);
        }
        ValueCommitment { bytes: derive_commitment(plus, minus, &rcv.bytes) }
    }

    /// The sum of two commitments: it commits to the sum of the values under the sum of
    /// the blinding factors.
    pub fn add(&self, other: &Self) -> (r: Self)
        ensures
            r@ == point_sum(self@, other@),
            forall|v: int, x: Seq<u8>, w: int, y: Seq<u8>|
                canonical_scalar(x) && canonical_scalar(y) && self@ == #[trigger] value_commit(v, x)
                    && other@ == #[trigger] value_commit(w, y) ==> r@ == value_commit(
                    v + w,
                    scalar_sum(x, y),
                ),
    {
        proof {
            use_type_invariant(self);
            use_type_invariant(other);
        }
        ValueCommitment { bytes: commitment_sum(&self.bytes, &other.bytes) }
    }

    /// The difference of two commitments: it commits to the difference of the values under
    /// the difference of the blinding factors.
    pub fn sub(&self, other: &Self) -> (r: Self)
        ensures
            r@ == point_difference(self@, other@),
            forall|v: int, x: Seq<u8>, w: int, y: Seq<u8>|
                canonical_scalar(x) && canonical_scalar(y) && self@ == #[trigger] value_commit(v, x)
                    && other@ == #[trigger] value_commit(w, y) ==> r@ == value_commit(
                    v - w,
                    scalar_difference(x, y),
                ),
    {
        proof {
            use_type_invariant(self);
            use_type_invariant(other);
        }
        ValueCommitment { bytes: commitment_difference(&self.bytes, &other.bytes) }
    }
}

/// A sum of canonical scalars is canonical.
pub proof fn lemma_scalar_sum_canonical(a: Seq<u8>, b: Seq<u8>)
    ensures
        canonical_scalar(scalar_sum(a, b)),
{
    let n = (le_value(a) + le_value(b)) % scalar_modulus();
    lemma_le_bytes_len(n, 32);
    assert(scalar_modulus() <= crate::bytes::pow256(32)) by {
        reveal_with_fuel(crate::bytes::pow256, 33);
    }
    crate::bytes::lemma_le_value_of_bytes(n, 32);
}

/// Scalars add up as a group: zero changes nothing, and what was added can be taken off.
pub proof fn scalars_add_up(a: Seq<u8>, b: Seq<u8>, zero: Seq<u8>)
    requires
        canonical_scalar(a),
        canonical_scalar(b),
        le_value(zero) == 0,
    ensures
        scalar_sum(zero, a) == a,
        scalar_sum(a, zero) == a,
        scalar_difference(a, zero) == a,
        scalar_sum(a, b) == scalar_sum(b, a),
        scalar_difference(scalar_sum(a, b), b) == a,
{
    let m = scalar_modulus() as int;
    let x = le_value(a) as int;
    let y = le_value(b) as int;
    lemma_le_bytes_of_value(a);
    assert(x % m == x) by (nonlinear_arith)
        requires
            0 <= x < m,
    ;
    let n = ((x + y) % m) as nat;
    assert(0 <= (x + y) % m < m) by (nonlinear_arith)
        requires
            m > 0,
    ;
    assert(m <= pow256(32)) by {
        reveal_with_fuel(pow256, 33);
    }
    lemma_le_value_of_bytes(n, 32);
    if x + y < m {
        assert((x + y) % m == x + y) by (nonlinear_arith)
            requires
                0 <= x + y < m,
        ;
    } else {
        assert((x + y) % m == x + y - m) by (nonlinear_arith)
            requires
                0 <= x + y - m < m,
        ;
        assert((x - m) % m == x) by (nonlinear_arith)
            requires
                0 <= x < m,
        ;
    }
}

} // verus!
