//! Transactions, as far as shielded value concerns them, and the one that carries a payment.
//!
//! A shielded transaction carries a bundle's encoding as its payload. The bundle's
//! signatures commit to the transaction's sighash context, which is made of its version,
//! subnetwork, lock time and gas and so does not depend on the payload: a wallet knows the
//! context before it builds the bundle.

use crate::bundle::{bundle_round_trips, decode_bundle, BundleDecodeError, BundleV};
use crate::bytes::{
    le_bytes, lemma_concat_injective, lemma_le_bytes_len, lemma_le_value_of_bytes, lemma_pow256, pow256,
    push_all, push_le, same,
};
use vstd::prelude::*;

verus! {

/// The version of a shielded transaction.
pub const TX_VERSION_SHIELDED: u16 = 2;

/// The subnetwork of ordinary transactions.
pub open spec fn native_subnetwork() -> Seq<u8> {
    Seq::new(20, |i: int| 0u8)
}

/// The subnetwork of coinbase transactions.
pub open spec fn coinbase_subnetwork() -> Seq<u8> {
    Seq::new(20, |i: int| if i == 0 { 1u8 } else { 0u8 })
}

/// What a transaction spends in the open.
#[derive(Debug, Clone, PartialEq, Eq)]
pub struct TransactionInput {
    pub previous_id: [u8; 32],
    pub previous_index: u32,
    pub signature_script: Vec<u8>,
    pub sequence: u64,
}

/// What a transaction pays in the open.
#[derive(Debug, Clone, PartialEq, Eq)]
pub struct TransactionOutput {
    pub value: u64,
    pub script: Vec<u8>,
}

/// A transaction.
#[derive(Debug, Clone, PartialEq, Eq)]
pub struct Transaction {
    pub version: u16,
    pub inputs: Vec<TransactionInput>,
    pub outputs: Vec<TransactionOutput>,
    pub lock_time: u64,
    pub subnetwork_id: [u8; 20],
    pub gas: u64,
    pub payload: Vec<u8>,
}

/// The sighash context of a transaction with these parts.
pub open spec fn sighash_context(
    version: u16,
    subnetwork_id: Seq<u8>,
    lock_time: u64,
    gas: u64,
) -> Seq<u8> {
    le_bytes(version as nat, 2) + subnetwork_id + le_bytes(lock_time as nat, 8) + le_bytes(
        gas as nat,
        8,
    )
}

impl Transaction {
    /// A coinbase transaction.
    pub open spec fn coinbase(&self) -> bool {
        self.subnetwork_id@ == coinbase_subnetwork()
    }

    /// A shielded transaction.
    pub open spec fn shielded(&self) -> bool {
        self.version == TX_VERSION_SHIELDED && !self.coinbase()
    }

    /// The transaction's sighash context.
    pub open spec fn context(&self) -> Seq<u8> {
        sighash_context(self.version, self.subnetwork_id@, self.lock_time, self.gas)
    }

    /// Whether this is a coinbase transaction.
    pub fn is_coinbase(&self) -> (r: bool)
        ensures
            r == self.coinbase(),
    {
        let id: [u8; 20] = [1, 0, 0, 0, 0, 0, 0, 0, 0, 0, 0, 0, 0, 0, 0, 0, 0, 0, 0, 0];
        assert(id@ =~= coinbase_subnetwork());
        same(&self.subnetwork_id, &id)
    }

    /// Whether this is a shielded transaction: one of the shielded version that is no
    /// coinbase.
    pub fn is_shielded(&self) -> (r: bool)
        ensures
            r == self.shielded(),
    {
        self.version == TX_VERSION_SHIELDED && !self.is_coinbase()
    }

    /// What a bundle in the transaction's payload must commit to.
    pub fn shielded_sighash_context(&self) -> (c: Vec<u8>)
        ensures
            c@ == self.context(),
            c@.len() == 38,
    {
        let mut c: Vec<u8> = Vec::new();
        push_le(&mut c, self.version as u128, 2);
        push_all(&mut c, &self.subnetwork_id);
        push_le(&mut c, self.lock_time as u128, 8);
        push_le(&mut c, self.gas as u128, 8);
        proof {
            crate::bytes::lemma_le_bytes_len(self.version as nat, 2);
            crate::bytes::lemma_le_bytes_len(self.lock_time as nat, 8);
            crate::bytes::lemma_le_bytes_len(self.gas as nat, 8);
            assert(c@ =~= self.context());
        }
        c
    }
}

/// The transaction is the canonical one for a payload.
pub open spec fn carries_payment(tx: Transaction, payload: Seq<u8>) -> bool {
    &&& tx.version == TX_VERSION_SHIELDED
    &&& tx.inputs@.len() == 0
    &&& tx.outputs@.len() == 0
    &&& tx.lock_time == 0
    &&& tx.subnetwork_id@ == native_subnetwork()
    &&& tx.gas == 0
    &&& tx.payload@ == payload
}

/// The sighash context of a payment.
pub open spec fn payment_context() -> Seq<u8> {
    sighash_context(TX_VERSION_SHIELDED, native_subnetwork(), 0, 0)
}

/// The canonical shielded transaction that carries a payment's bundle: native subnetwork,
/// nothing spent or paid in the open, zero lock time and gas.
pub fn payment_tx(payload: Vec<u8>) -> (tx: Transaction)
    ensures
        carries_payment(tx, payload@),
        tx.shielded(),
        tx.context() == payment_context(),
{
    let tx: Transaction = Transaction {
        version: TX_VERSION_SHIELDED,
        inputs: Vec::new(),
        outputs: Vec::new(),
        lock_time: 0,
        subnetwork_id: [0u8; 20],
        gas: 0,
        payload,
    };
    proof {
        assert(tx.subnetwork_id@ =~= native_subnetwork());
        assert(native_subnetwork()[0] != coinbase_subnetwork()[0]);
    }
    tx
}

/// The context that a payment's bundle must commit to, before there is a bundle.
pub fn payment_tx_context() -> (c: Vec<u8>)
    ensures
        c@ == payment_context(),
{
    payment_tx(Vec::new()).shielded_sighash_context()
}

/// Whatever it carries, a payment's transaction has the context that the wallet proved
/// against.
pub proof fn context_does_not_depend_on_the_payload(
    a: Transaction,
    x: Seq<u8>,
    b: Transaction,
    y: Seq<u8>,
)
    requires
        carries_payment(a, x),
        carries_payment(b, y),
    ensures
        a.context() == b.context(),
        a.context() == payment_context(),
{
}

/// The payload of a payment's transaction decodes to the bundle that it was made from.
pub proof fn payments_carry_their_bundle(tx: Transaction, b: BundleV)
    requires
        carries_payment(tx, b.encoded()),
        b.carriable(),
        b.encoded().len() <= usize::MAX,
    ensures
        tx.shielded(),
        decode_bundle(tx.payload@) == Ok::<BundleV, BundleDecodeError>(b),
{
    assert(native_subnetwork()[0] != coinbase_subnetwork()[0]);
    bundle_round_trips(b);
}

/// The sighash context tells transactions apart that differ in version, subnetwork, lock time
/// or gas: a signature for one is none for another.
pub proof fn contexts_tell_transactions_apart(a: Transaction, b: Transaction)
    requires
        a.context() == b.context(),
    ensures
        a.version == b.version,
        a.subnetwork_id@ == b.subnetwork_id@,
        a.lock_time == b.lock_time,
        a.gas == b.gas,
{
    let (va, vb) = (le_bytes(a.version as nat, 2), le_bytes(b.version as nat, 2));
    let (la, lb) = (le_bytes(a.lock_time as nat, 8), le_bytes(b.lock_time as nat, 8));
    let (ga, gb) = (le_bytes(a.gas as nat, 8), le_bytes(b.gas as nat, 8));
    lemma_le_bytes_len(a.version as nat, 2);
    lemma_le_bytes_len(b.version as nat, 2);
    lemma_le_bytes_len(a.lock_time as nat, 8);
    lemma_le_bytes_len(b.lock_time as nat, 8);
    lemma_concat_injective(va + a.subnetwork_id@ + la, ga, vb + b.subnetwork_id@ + lb, gb);
    lemma_concat_injective(va + a.subnetwork_id@, la, vb + b.subnetwork_id@, lb);
    lemma_concat_injective(va, a.subnetwork_id@, vb, b.subnetwork_id@);
    lemma_pow256();
    assert(pow256(2) == 0x1_0000) by {
        reveal_with_fuel(pow256, 3);
    }
    lemma_le_value_of_bytes(a.version as nat, 2);
    lemma_le_value_of_bytes(b.version as nat, 2);
    lemma_le_value_of_bytes(a.lock_time as nat, 8);
    lemma_le_value_of_bytes(b.lock_time as nat, 8);
    lemma_le_value_of_bytes(a.gas as nat, 8);
    lemma_le_value_of_bytes(b.gas as nat, 8);
}

/// A transaction is shielded exactly where it has the shielded version and is no coinbase, so
/// no coinbase is, and every payment is.
pub proof fn shielded_transactions_are_no_coinbase(tx: Transaction, payload: Seq<u8>)
    ensures
        tx.shielded() ==> tx.version == 2 && tx.subnetwork_id@ != Seq::new(
            20,
            |i: int| if i == 0 { 1u8 } else { 0u8 },
        ),
        tx.version == 2 && tx.subnetwork_id@[0] != 1 ==> tx.shielded(),
        carries_payment(tx, payload) ==> tx.shielded(),
{
    assert(native_subnetwork()[0] != coinbase_subnetwork()[0]);
    assert(coinbase_subnetwork()[0] == 1);
}

} // verus!
