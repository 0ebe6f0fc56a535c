//! Fixed sizes of the cryptographic components of an Orchard action, in bytes.

use vstd::prelude::*;

verus! {

/// A Pallas field element or group element.
pub const FIELD: usize = 32;

/// The note ciphertext for the receiver.
pub const ENC_CIPHERTEXT: usize = 580;

/// The ciphertext recoverable with the outgoing viewing key.
pub const OUT_CIPHERTEXT: usize = 80;

/// A RedPallas signature (spend authorization and binding).
pub const SIG: usize = 64;

} // verus!
