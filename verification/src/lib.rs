//! Shielded value for a block graph: bundles, nullifiers, the note tree, the
//! supply ledger, and the wallet that follows them.

pub mod account;
pub mod address;
pub mod bundle;
pub mod bytes;
pub mod coinbase;
pub mod commitment;
pub mod daemon;
pub mod effects;
pub mod field;
pub mod hash;
pub mod keys;
pub mod message;
pub mod note;
pub mod nullifier;
pub mod order;
pub mod payer;
pub mod payment_check;
pub mod seen;
pub mod state;
pub mod sums;
pub mod text;
pub mod tree;
pub mod turnstile;
pub mod tx;
pub mod value;
pub mod verify;
pub mod wallet;
pub mod walletdb;
pub mod witness;
