//! Receiving addresses, as the parts that their text form carries.

use crate::bytes::to_array;
use vstd::prelude::*;

verus! {

/// The network that an address belongs to.
#[derive(Debug, Clone, Copy, PartialEq, Eq, Structural)]
pub enum Prefix {
    Mainnet,
    Testnet,
    Simnet,
    Devnet,
}

/// What the payload of an address is.
#[derive(Debug, Clone, Copy, PartialEq, Eq, Structural)]
pub enum Version {
    PubKey,
    PubKeyEcdsa,
    ScriptHash,
    ShieldedOrchard,
}

/// An address.
#[derive(Debug, Clone, PartialEq, Eq)]
pub struct Address {
    pub prefix: Prefix,
    pub version: Version,
    pub payload: Vec<u8>,
}

impl Address {
    /// The address with these parts.
    pub fn new(prefix: Prefix, version: Version, payload: &[u8]) -> (a: Self)
        ensures
            a.prefix == prefix,
            a.version == version,
            a.payload@ == payload@,
    {
        let mut bytes: Vec<u8> = Vec::new();
        crate::bytes::push_all(&mut bytes, payload);
        assert(bytes@ =~= payload@);
        Address { prefix, version, payload: bytes }
    }

    /// The address carries a raw shielded recipient.
    pub open spec fn shielded(&self) -> bool {
        self.version == Version::ShieldedOrchard && self.payload@.len() == 43
    }
}

/// The 43-byte raw recipient that a shielded address carries; `None` for any other
/// address, and for one of another length.
pub fn orchard_recipient_bytes(address: &Address) -> (r: Option<[u8; 43]>)
    ensures
        r is Some <==> address.shielded(),
        r matches Some(raw) ==> raw@ == address.payload@,
{
    if address.version != Version::ShieldedOrchard {
        return None;
    }
    if address.payload.len() != 43 {
        return None;
    }
    let raw: [u8; 43] = to_array(address.payload.as_slice());
    Some(raw)
}

} // verus!
