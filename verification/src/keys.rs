//! Orchard viewing keys in their raw encodings, as derived from a wallet seed.

use crate::value::pallas_point;
use vstd::prelude::*;

verus! {

/// Raw Orchard address length: an 11-byte diversifier and a 32-byte transmission key.
pub const ADDRESS_LEN: usize = 43;

/// The raw full viewing key of a seed; none where the seed is no spending key.
pub uninterp spec fn fvk_of_seed(seed: Seq<u8>) -> Option<Seq<u8>>;

/// 96 bytes that are a raw full viewing key.
pub uninterp spec fn viewing_key(fvk: Seq<u8>) -> bool;

/// The raw external default address of a raw full viewing key.
pub uninterp spec fn address_of_fvk(fvk: Seq<u8>) -> Seq<u8>;

/// The raw external incoming viewing key of a raw full viewing key.
pub uninterp spec fn ivk_of_fvk(fvk: Seq<u8>) -> Seq<u8>;

/// The full viewing key sees the address as its own, in either of its scopes.
pub uninterp spec fn owned_address(fvk: Seq<u8>, address: Seq<u8>) -> bool;

/// 64 bytes that are a raw incoming viewing key.
pub uninterp spec fn incoming_key(ivk: Seq<u8>) -> bool;

/// 43 bytes that are a raw Orchard address.
pub uninterp spec fn orchard_address(address: Seq<u8>) -> bool;

/// `SpendingKey::from_bytes`, `FullViewingKey::from` and `FullViewingKey::to_bytes`: the
/// raw full viewing key of a seed that is a spending key, which decodes.
#[verifier::external_body]
fn derive_fvk(seed: &[u8; 32]) -> (r: Option<[u8; 96]>)
    ensures
        match r {
            Some(b) => fvk_of_seed(seed@) == Some(b@) && viewing_key(b@),
            None => fvk_of_seed(seed@) is None,
        },
{
    let sk: Option<orchard::keys::SpendingKey> =
        orchard::keys::SpendingKey::from_bytes(*seed).into();
    Some(orchard::keys::FullViewingKey::from(&sk?).to_bytes())
}

/// `FullViewingKey::from_bytes` decodes the key. Its first 32 bytes, the spend validating
/// key, are then a curve point.
#[verifier::external_body]
fn fvk_decodes(fvk: &[u8; 96]) -> (r: bool)
    ensures
        r == viewing_key(fvk@),
        r ==> pallas_point(fvk@.take(32)),
{
    orchard::keys::FullViewingKey::from_bytes(fvk).is_some()
}

/// `FullViewingKey::address_at` at index zero of the external scope, as raw bytes, which
/// decode. The key sees the address as its own, as `FullViewingKey::scope_for_address` tells.
#[verifier::external_body]
fn fvk_address(fvk: &[u8; 96]) -> (r: [u8; 43])
    requires
        viewing_key(fvk@),
    ensures
        r@ == address_of_fvk(fvk@),
        orchard_address(r@),
        owned_address(fvk@, r@),
{
    let fvk = orchard::keys::FullViewingKey::from_bytes(fvk).unwrap();
    fvk.address_at(0u32, orchard::keys::Scope::External).to_raw_address_bytes()
}

/// `FullViewingKey::to_ivk` of the external scope, as raw bytes, which decode.
#[verifier::external_body]
fn fvk_to_ivk(fvk: &[u8; 96]) -> (r: [u8; 64])
    requires
        viewing_key(fvk@),
    ensures
        r@ == ivk_of_fvk(fvk@),
        incoming_key(r@),
{
    let fvk = orchard::keys::FullViewingKey::from_bytes(fvk).unwrap();
    fvk.to_ivk(orchard::keys::Scope::External).to_bytes()
}

/// `IncomingViewingKey::from_bytes` decodes the key.
#[verifier::external_body]
fn ivk_decodes(ivk: &[u8; 64]) -> (r: bool)
    ensures
        r == incoming_key(ivk@),
{
    orchard::keys::IncomingViewingKey::from_bytes(ivk).is_some().into()
}

/// `Address::from_raw_address_bytes` decodes the address.
#[verifier::external_body]
pub(crate) fn address_decodes(address: &[u8; 43]) -> (r: bool)
    ensures
        r == orchard_address(address@),
{
    orchard::Address::from_raw_address_bytes(address).is_some().into()
}

/// A full viewing key: it sees a wallet's notes and their spends, and cannot spend.
#[derive(Clone, Copy, Debug, PartialEq, Eq)]
pub struct FullViewingKey {
    bytes: [u8; 96],
}

impl View for FullViewingKey {
    type V = Seq<u8>;

    closed spec fn view(&self) -> Seq<u8> {
        self.bytes@
    }
}

impl FullViewingKey {
    #[verifier::type_invariant]
    spec fn inv(&self) -> bool {
        viewing_key(self.bytes@)
    }

    /// The viewing key of a seed.
    pub fn from_seed(seed: &[u8; 32]) -> (r: Option<Self>)
        ensures
            match r {
                Some(k) => fvk_of_seed(seed@) == Some(k@),
                None => fvk_of_seed(seed@) is None,
            },
    {
        match derive_fvk(seed) {
            Some(bytes) => Some(FullViewingKey { bytes }),
            None => None,
        }
    }

    /// The viewing key with this raw encoding.
    pub fn from_bytes(bytes: &[u8; 96]) -> (r: Option<Self>)
        ensures
            r is Some <==> viewing_key(bytes@),
            r matches Some(k) ==> k@ == bytes@ && pallas_point(k@.take(32)),
    {
        if fvk_decodes(bytes) {
            Some(FullViewingKey { bytes: *bytes })
        } else {
            None
        }
    }

    /// The raw encoding.
    pub fn to_bytes(&self) -> (b: [u8; 96])
        ensures
            b@ == self@,
            viewing_key(self@),
    {
        proof {
            use_type_invariant(self);
        }
        self.bytes
    }

    /// The raw default external address.
    pub fn address(&self) -> (a: [u8; 43])
        ensures
            a@ == address_of_fvk(self@),
            orchard_address(a@),
            viewing_key(self@),
            owned_address(self@, a@),
    {
        proof {
            use_type_invariant(self);
        }
        fvk_address(&self.bytes)
    }

    /// The external incoming viewing key.
    pub fn to_ivk(&self) -> (k: IncomingViewingKey)
        ensures
            k@ == ivk_of_fvk(self@),
    {
        proof {
            use_type_invariant(self);
        }
        IncomingViewingKey { bytes: fvk_to_ivk(&self.bytes) }
    }
}

/// An incoming viewing key: it recovers the notes sent to a wallet.
#[derive(Clone, Copy, Debug, PartialEq, Eq)]
pub struct IncomingViewingKey {
    bytes: [u8; 64],
}

impl View for IncomingViewingKey {
    type V = Seq<u8>;

    closed spec fn view(&self) -> Seq<u8> {
        self.bytes@
    }
}

impl IncomingViewingKey {
    #[verifier::type_invariant]
    spec fn inv(&self) -> bool {
        incoming_key(self.bytes@)
    }

    /// The incoming viewing key with this raw encoding.
    pub fn from_bytes(bytes: &[u8; 64]) -> (r: Option<Self>)
        ensures
            r is Some <==> incoming_key(bytes@),
            r matches Some(k) ==> k@ == bytes@,
    {
        if ivk_decodes(bytes) {
            Some(IncomingViewingKey { bytes: *bytes })
        } else {
            None
        }
    }

    /// The raw encoding.
    pub fn to_bytes(&self) -> (b: [u8; 64])
        ensures
            b@ == self@,
            incoming_key(self@),
    {
        proof {
            use_type_invariant(self);
        }
        self.bytes
    }
}

/// A raw address that decodes: a payment can be made to it.
#[derive(Clone, Copy, Debug, PartialEq, Eq)]
pub struct OrchardAddress {
    bytes: [u8; 43],
}

impl View for OrchardAddress {
    type V = Seq<u8>;

    closed spec fn view(&self) -> Seq<u8> {
        self.bytes@
    }
}

impl OrchardAddress {
    #[verifier::type_invariant]
    spec fn inv(&self) -> bool {
        orchard_address(self.bytes@)
    }

    /// The address with this raw encoding.
    pub fn from_raw_address_bytes(bytes: &[u8; 43]) -> (r: Option<Self>)
        ensures
            r is Some <==> orchard_address(bytes@),
            r matches Some(a) ==> a@ == bytes@,
    {
        if address_decodes(bytes) {
            Some(OrchardAddress { bytes: *bytes })
        } else {
            None
        }
    }

    /// The raw encoding.
    pub fn to_raw_address_bytes(&self) -> (b: [u8; 43])
        ensures
            b@ == self@,
            orchard_address(self@),
    {
        proof {
            use_type_invariant(self);
        }
        self.bytes
    }
}

} // verus!
