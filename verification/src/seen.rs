//! What contracts see of lists and of their items: every item, in its place, with each of its
//! fields.

use crate::bundle::{action_views, ActionWire, ShieldedBundle};
use crate::bytes::views32;
use crate::daemon::history::{entry_views, HistoryEntry};
use crate::daemon::parked::{parked_views, Parked};
use crate::effects::held_views;
use crate::field::{commitment_views, ExtractedNoteCommitment};
use crate::note::Note;
use crate::payer::payload_views;
use crate::state::{tx_views, ShieldedTx};
use crate::wallet::payment::{output_views, sig_views, spend_views, PaymentOutput};
use crate::wallet::prepared::request_views;
use crate::wallet::scan::{received_views, ReceivedNote};
use crate::walletdb::{bundle_views, owned_views, OwnedNote};
use crate::witness::MerklePath;
use vstd::prelude::*;

verus! {

/// A bundle is seen with each of its fields, and its actions one by one.
pub proof fn bundles_are_seen_in_full(b: ShieldedBundle, i: int)
    requires
        0 <= i < b.actions@.len(),
    ensures
        b@.actions.len() == b.actions@.len(),
        b@.actions[i].nullifier == b.actions@[i].nullifier@,
        b@.actions[i].rk == b.actions@[i].rk@,
        b@.actions[i].cmx == b.actions@[i].cmx@,
        b@.actions[i].cv_net == b.actions@[i].cv_net@,
        b@.actions[i].ephemeral_key == b.actions@[i].ephemeral_key@,
        b@.actions[i].enc_ciphertext == b.actions@[i].enc_ciphertext@,
        b@.actions[i].out_ciphertext == b.actions@[i].out_ciphertext@,
        b@.actions[i].spend_auth_sig == b.actions@[i].spend_auth_sig@,
        b@.flags == b.flags,
        b@.value_balance == b.value_balance,
        b@.anchor == b.anchor@,
        b@.proof == b.proof@,
        b@.binding_sig == b.binding_sig@,
        b@.nullifiers().len() == b.actions@.len(),
        b@.nullifiers()[i] == b.actions@[i].nullifier@,
{
}

/// Lists of bundles and of actions are seen item by item.
pub proof fn bundle_lists_are_seen_in_full(
    held: Seq<ShieldedBundle>,
    refs: Seq<&ShieldedBundle>,
    actions: Seq<ActionWire>,
    i: int,
)
    ensures
        held_views(held).len() == held.len(),
        0 <= i < held.len() ==> held_views(held)[i] == held[i]@,
        bundle_views(refs).len() == refs.len(),
        0 <= i < refs.len() ==> bundle_views(refs)[i] == refs[i]@,
        action_views(actions).len() == actions.len(),
        0 <= i < actions.len() ==> action_views(actions)[i] == actions[i]@,
{
}

/// Transactions are seen one by one, each with all nullifiers and commitments and its fee.
pub proof fn transactions_are_seen_in_full(txs: Seq<ShieldedTx>, i: int, j: int)
    requires
        0 <= i < txs.len(),
    ensures
        tx_views(txs).len() == txs.len(),
        tx_views(txs)[i].fee == txs[i].fee,
        tx_views(txs)[i].anchor == txs[i].anchor@,
        tx_views(txs)[i].nullifiers.len() == txs[i].nullifiers@.len(),
        0 <= j < txs[i].nullifiers@.len() ==> tx_views(txs)[i].nullifiers[j]
            == txs[i].nullifiers@[j]@,
        tx_views(txs)[i].commitments.len() == txs[i].commitments@.len(),
        0 <= j < txs[i].commitments@.len() ==> tx_views(txs)[i].commitments[j]
            == txs[i].commitments@[j]@,
{
}

/// Notes are seen one by one: those that a wallet holds, those that were received and those
/// that are parked.
pub proof fn notes_are_seen_in_full(
    owned: Seq<OwnedNote>,
    received: Seq<ReceivedNote>,
    parked: Seq<Parked>,
    i: int,
)
    ensures
        owned_views(owned).len() == owned.len(),
        0 <= i < owned.len() ==> owned_views(owned)[i].note == owned[i].note@ && owned_views(
            owned,
        )[i].position == owned[i].position && owned_views(owned)[i].nullifier
            == owned[i].nullifier@,
        received_views(received).len() == received.len(),
        0 <= i < received.len() ==> received_views(received)[i].note == received[i].note@
            && received_views(received)[i].action_index == received[i].action_index
            && received_views(received)[i].memo == received[i].memo@,
        parked_views(parked).len() == parked.len(),
        0 <= i < parked.len() ==> parked_views(parked)[i].txid == parked[i].txid@ && parked_views(
            parked,
        )[i].note == parked[i].note@ && parked_views(parked)[i].submitted == parked[i].submitted,
{
}

/// The history is seen entry by entry, each with all of its fields.
pub proof fn histories_are_seen_in_full(entries: Seq<HistoryEntry>, i: int)
    requires
        0 <= i < entries.len(),
    ensures
        entry_views(entries).len() == entries.len(),
        entry_views(entries)[i].kind == entries[i].kind,
        entry_views(entries)[i].txid == entries[i].txid@,
        entry_views(entries)[i].daa_score == entries[i].daa_score,
        entry_views(entries)[i].timestamp_ms == entries[i].timestamp_ms,
        entry_views(entries)[i].amount == entries[i].amount,
        entry_views(entries)[i].fee == entries[i].fee,
        entry_views(entries)[i].recipient is Some <==> entries[i].recipient is Some,
        entries[i].recipient matches Some(a) ==> entry_views(entries)[i].recipient == Some(a@),
        entry_views(entries)[i].memo == entries[i].memo@,
{
}

/// What a payment spends and makes is seen one by one.
pub proof fn payments_are_seen_in_full(
    fvk: Seq<u8>,
    inputs: Seq<(Note, MerklePath)>,
    outputs: Seq<PaymentOutput>,
    i: int,
)
    ensures
        spend_views(fvk, inputs).len() == inputs.len(),
        0 <= i < inputs.len() ==> spend_views(fvk, inputs)[i].fvk == fvk && spend_views(
            fvk,
            inputs,
        )[i].note == inputs[i].0@ && spend_views(fvk, inputs)[i].path == inputs[i].1@,
        output_views(fvk, outputs).len() == outputs.len(),
        0 <= i < outputs.len() ==> {
            let o = output_views(fvk, outputs)[i];
            &&& o.recipient == outputs[i].recipient@
            &&& o.value == outputs[i].value
            &&& o.memo == outputs[i].memo@
            &&& outputs[i].recoverable <==> o.sender == Some(fvk)
            &&& !outputs[i].recoverable <==> o.sender is None
        },
{
}

/// Lists of byte strings are seen item by item.
pub proof fn byte_lists_are_seen_in_full(
    list: Seq<[u8; 32]>,
    commitments: Seq<ExtractedNoteCommitment>,
    sigs: Seq<[u8; 64]>,
    payloads: Seq<Vec<u8>>,
    requests: Seq<(usize, [u8; 32])>,
    i: int,
)
    ensures
        views32(list).len() == list.len(),
        0 <= i < list.len() ==> views32(list)[i] == list[i]@,
        commitment_views(commitments).len() == commitments.len(),
        0 <= i < commitments.len() ==> commitment_views(commitments)[i] == commitments[i]@,
        sig_views(sigs).len() == sigs.len(),
        0 <= i < sigs.len() ==> sig_views(sigs)[i] == sigs[i]@,
        payload_views(payloads).len() == payloads.len(),
        0 <= i < payloads.len() ==> payload_views(payloads)[i] == payloads[i]@,
        request_views(requests).len() == requests.len(),
        0 <= i < requests.len() ==> request_views(requests)[i] == (
            requests[i].0 as int,
            requests[i].1@,
        ),
{
}

} // verus!
