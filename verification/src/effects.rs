//! What an accepted block does to shielded value, taken from its transactions: the coinbase
//! notes that it mints and the bundles that it accepts, in the order in which the chain
//! applies them.

use crate::account::ShieldedAccount;
use crate::bundle::{
    bundle_round_trips, decode_bundle, BundleDecodeError, BundleV, ShieldedBundle,
};
use crate::bytes::{low_u32, to_array};
use crate::coinbase::{
    coinbase_rho, derivable, derived_from, try_derive_coinbase_note_desc, CoinbaseNoteDesc,
};
use crate::tx::{Transaction, TransactionOutput};
use crate::wallet::laws::coinbase_seeds_are_apart;
use crate::wallet::payment::{coinbase_note_seed, coinbase_seed};
use crate::walletdb::{action_count, bundle_views};
use vstd::prelude::*;

verus! {

/// Length of the raw address that a coinbase output's script starts with.
pub const ORCHARD_ADDRESS_LEN: usize = 43;

/// Why a block's shielded effects could not be extracted.
#[derive(Debug, Clone, PartialEq, Eq)]
pub enum EffectsError {
    /// A coinbase output's script is too short for a raw address.
    ShortCoinbaseScript { output_index: usize, len: usize },
    /// No note can be derived for a coinbase output.
    Underivable { output_index: usize },
}

/// The seed of the note that output `i` of a coinbase transaction mints.
pub open spec fn output_seed(txid: Seq<u8>, i: int) -> Seq<u8> {
    coinbase_seed(txid, (i % 0x1_0000_0000) as nat)
}

/// Output `i` mints a note.
pub open spec fn mints(txid: Seq<u8>, outputs: Seq<TransactionOutput>, i: int) -> bool {
    outputs[i].script@.len() >= ORCHARD_ADDRESS_LEN && derivable(output_seed(txid, i))
}

/// The note that output `i` mints, to the address that its script starts with.
pub open spec fn minted(
    txid: Seq<u8>,
    outputs: Seq<TransactionOutput>,
    i: int,
    note: (CoinbaseNoteDesc, u64),
) -> bool {
    &&& derived_from(note.0, outputs[i].script@.take(43), output_seed(txid, i))
    &&& note.1 == outputs[i].value
}

/// What extracting the coinbase notes gives: one for each output in order, or the fault of
/// the first output that mints none.
pub open spec fn descs_outcome(
    r: Result<Vec<(CoinbaseNoteDesc, u64)>, EffectsError>,
    txid: Seq<u8>,
    outputs: Seq<TransactionOutput>,
) -> bool {
    match r {
        Ok(notes) => {
            &&& notes@.len() == outputs.len()
            &&& forall|i: int|
                0 <= i < outputs.len() ==> #[trigger] mints(txid, outputs, i) && minted(
                    txid,
                    outputs,
                    i,
                    notes@[i],
                )
        },
        Err(EffectsError::ShortCoinbaseScript { output_index, len }) => {
            &&& output_index < outputs.len()
            &&& outputs[output_index as int].script@.len() == len
            &&& len < ORCHARD_ADDRESS_LEN
            &&& forall|i: int| 0 <= i < output_index ==> #[trigger] mints(txid, outputs, i)
        },
        Err(EffectsError::Underivable { output_index }) => {
            &&& output_index < outputs.len()
            &&& outputs[output_index as int].script@.len() >= ORCHARD_ADDRESS_LEN
            &&& !derivable(output_seed(txid, output_index as int))
            &&& forall|i: int| 0 <= i < output_index ==> #[trigger] mints(txid, outputs, i)
        },
    }
}

/// The coinbase notes that a coinbase transaction with this id mints: for each output the
/// note derived from the id and the output's index, to the address that its script starts
/// with, and the output's value.
pub fn coinbase_note_descs(txid: &[u8; 32], coinbase_tx: &Transaction) -> (r: Result<
    Vec<(CoinbaseNoteDesc, u64)>,
    EffectsError,
>)
    ensures
        descs_outcome(r, txid@, coinbase_tx.outputs@),
{
    let ghost outputs = coinbase_tx.outputs@;
    let mut notes: Vec<(CoinbaseNoteDesc, u64)> = Vec::new();
    let mut i: usize = 0;
    while i < coinbase_tx.outputs.len()
        invariant
            0 <= i <= outputs.len(),
            outputs == coinbase_tx.outputs@,
            notes@.len() == i,
            forall|j: int|
                0 <= j < i ==> #[trigger] mints(txid@, outputs, j) && minted(
                    txid@,
                    outputs,
                    j,
                    notes@[j],
                ),
        decreases outputs.len() - i,
    {
        let output: &TransactionOutput = &coinbase_tx.outputs[i];
        if output.script.len() < ORCHARD_ADDRESS_LEN {
            return Err(
                EffectsError::ShortCoinbaseScript { output_index: i, len: output.script.len() },
            );
        }
        let head: &[u8] = vstd::slice::slice_subrange(output.script.as_slice(), 0, 43);
        assert(head@ =~= output.script@.take(43));
        let recipient: [u8; 43] = to_array(head);
        let seed: Vec<u8> = coinbase_note_seed(txid, low_u32(i));
        match try_derive_coinbase_note_desc(recipient, seed.as_slice()) {
            None => {
                return Err(EffectsError::Underivable { output_index: i });
            },
            Some(desc) => notes.push((desc, output.value)),
        }
        i = i + 1;
    }
    Ok(notes)
}

/// The bundle that a transaction carries, where it is a shielded one with a well-formed
/// payload.
pub open spec fn carried(tx: Transaction) -> Option<BundleV> {
    if !tx.shielded() {
        None
    } else {
        match decode_bundle(tx.payload@) {
            Ok(b) => Some(b),
            Err(_) => None,
        }
    }
}

/// What an optional bundle holds.
pub open spec fn bundle_view(b: Option<ShieldedBundle>) -> Option<BundleV> {
    match b {
        Some(b) => Some(b@),
        None => None,
    }
}

/// The bundle that a shielded transaction carries; `None` where the transaction is not
/// shielded or its payload is no bundle.
pub fn shielded_bundle(tx: &Transaction) -> (r: Option<ShieldedBundle>)
    ensures
        bundle_view(r) == carried(*tx),
{
    if !tx.is_shielded() {
        return None;
    }
    match ShieldedBundle::from_bytes(tx.payload.as_slice()) {
        Ok(b) => Some(b),
        Err(_) => None,
    }
}

/// One accepted block's shielded effects.
#[derive(Debug, Clone)]
pub struct BlockShieldedEffects {
    /// The coinbase notes that the block mints: description and public value.
    pub coinbase: Vec<(CoinbaseNoteDesc, u64)>,
    /// The bundles that the block accepts, in order.
    pub bundles: Vec<ShieldedBundle>,
}

/// What a list of bundles holds.
pub open spec fn held_views(list: Seq<ShieldedBundle>) -> Seq<BundleV> {
    Seq::new(list.len(), |i: int| list[i]@)
}

impl BlockShieldedEffects {
    /// The bundles by reference.
    pub fn bundle_refs(&self) -> (refs: Vec<&ShieldedBundle>)
        ensures
            bundle_views(refs@) == held_views(self.bundles@),
    {
        refs_of(&self.bundles)
    }
}

/// The bundles by reference.
pub(crate) fn refs_of(list: &Vec<ShieldedBundle>) -> (refs: Vec<&ShieldedBundle>)
    ensures
        bundle_views(refs@) == held_views(list@),
{
    let mut refs: Vec<&ShieldedBundle> = Vec::new();
    let mut i: usize = 0;
    while i < list.len()
        invariant
            0 <= i <= list@.len(),
            refs@.len() == i,
            forall|j: int| 0 <= j < i ==> (#[trigger] refs@[j])@ == list@[j]@,
        decreases list@.len() - i,
    {
        refs.push(&list[i]);
        i = i + 1;
    }
    assert(bundle_views(refs@) =~= held_views(list@));
    refs
}

impl Default for BlockShieldedEffects {
    fn default() -> (e: Self)
        ensures
            e.coinbase@.len() == 0,
            e.bundles@.len() == 0,
    {
        BlockShieldedEffects { coinbase: Vec::new(), bundles: Vec::new() }
    }
}

/// The bundles that the transactions carry, in order; a transaction that carries none is
/// passed over.
pub open spec fn carried_all(txs: Seq<&Transaction>) -> Seq<BundleV>
    decreases txs.len(),
{
    if txs.len() == 0 {
        Seq::empty()
    } else {
        match carried(*txs.last()) {
            Some(b) => carried_all(txs.drop_last()).push(b),
            None => carried_all(txs.drop_last()),
        }
    }
}

/// The bundles that the transactions carry, in order.
pub fn carried_bundles(txs: &[&Transaction]) -> (out: Vec<ShieldedBundle>)
    ensures
        held_views(out@) == carried_all(txs@),
{
    let mut out: Vec<ShieldedBundle> = Vec::new();
    let mut i: usize = 0;
    assert(txs@.take(0) =~= Seq::<&Transaction>::empty());
    assert(held_views(out@) =~= Seq::<BundleV>::empty());
    while i < txs.len()
        invariant
            0 <= i <= txs@.len(),
            held_views(out@) == carried_all(txs@.take(i as int)),
        decreases txs@.len() - i,
    {
        let ghost before = out@;
        proof {
            assert(txs@.take(i + 1).drop_last() =~= txs@.take(i as int));
            assert(txs@.take(i + 1).last() == txs@[i as int]);
        }
        match shielded_bundle(txs[i]) {
            Some(b) => {
                out.push(b);
                assert(held_views(out@) =~= held_views(before).push(b@));
            },
            None => {},
        }
        i = i + 1;
    }
    assert(txs@.take(i as int) =~= txs@);
    out
}

/// One accepted block's shielded effects, from its coinbase transaction and its accepted
/// transactions in the order in which the chain applies them.
pub fn block_effects(
    coinbase_txid: &[u8; 32],
    coinbase_tx: &Transaction,
    accepted_txs: &[&Transaction],
) -> (r: Result<BlockShieldedEffects, EffectsError>)
    ensures
        match r {
            Ok(e) => descs_outcome(Ok(e.coinbase), coinbase_txid@, coinbase_tx.outputs@)
                && held_views(e.bundles@) == carried_all(accepted_txs@),
            Err(e) => descs_outcome(Err(e), coinbase_txid@, coinbase_tx.outputs@),
        },
{
    match coinbase_note_descs(coinbase_txid, coinbase_tx) {
        Ok(coinbase) => Ok(BlockShieldedEffects { coinbase, bundles: carried_bundles(accepted_txs) }),
        Err(e) => Err(e),
    }
}

/// Feeds one accepted block's effects into an account.
pub fn ingest_block_effects(account: &mut ShieldedAccount, effects: &BlockShieldedEffects)
    requires
        old(account).wf(),
        old(account)@.size() + effects.coinbase@.len() + action_count(held_views(effects.bundles@))
            <= u64::MAX,
    ensures
        final(account).wf(),
        final(account).seed() == old(account).seed(),
        final(account)@ == old(account)@.coinbase(effects.coinbase@).bundles(
            held_views(effects.bundles@),
        ),
{
    let refs: Vec<&ShieldedBundle> = effects.bundle_refs();
    account.ingest_block(effects.coinbase.as_slice(), refs.as_slice());
}

/// Every transaction that carries a bundle contributes it, in order: one alone gives its
/// bundle, and what two runs of transactions carry is what the first carries and then what
/// the second carries.
pub proof fn bundles_keep_their_order(a: Seq<&Transaction>, b: Seq<&Transaction>, tx: &Transaction)
    ensures
        carried_all(a + b) == carried_all(a) + carried_all(b),
        carried_all(seq![tx]) == (match carried(*tx) {
            Some(bundle) => seq![bundle],
            None => Seq::empty(),
        }),
    decreases b.len(),
{
    let one = seq![tx];
    assert(one.drop_last() =~= Seq::<&Transaction>::empty());
    assert(one.last() == tx);
    assert(carried_all(one.drop_last()) =~= Seq::<BundleV>::empty());
    match carried(*tx) {
        Some(bundle) => {
            assert(carried_all(one) =~= seq![bundle]);
        },
        None => {
            assert(carried_all(one) =~= Seq::<BundleV>::empty());
        },
    }
    if b.len() == 0 {
        assert(a + b =~= a);
        assert(carried_all(a) + carried_all(b) =~= carried_all(a));
    } else {
        bundles_keep_their_order(a, b.drop_last(), tx);
        assert((a + b).drop_last() =~= a + b.drop_last());
        assert((a + b).last() == b.last());
        assert(carried_all(a + b) =~= carried_all(a) + carried_all(b));
    }
}

/// There are as many bundles as transactions that carry one, and the bundle of such a
/// transaction stands at the place that counts those before it.
pub proof fn no_bundle_is_lost(txs: Seq<&Transaction>, k: int)
    requires
        0 <= k < txs.len(),
    ensures
        carried_all(txs).len() == txs.filter(|tx: &Transaction| carried(*tx) is Some).len(),
        carried(*txs[k]) matches Some(bundle) ==> {
            let place = txs.take(k).filter(|tx: &Transaction| carried(*tx) is Some).len();
            place < carried_all(txs).len() && carried_all(txs)[place as int] == bundle
        },
{
    let (head, tail) = (txs.take(k), txs.skip(k + 1));
    lemma_carried_count(txs);
    lemma_carried_count(head);
    assert(txs =~= head + (seq![txs[k]] + tail));
    bundles_keep_their_order(head, seq![txs[k]] + tail, txs[k]);
    bundles_keep_their_order(seq![txs[k]], tail, txs[k]);
}

proof fn lemma_carried_count(txs: Seq<&Transaction>)
    ensures
        carried_all(txs).len() == txs.filter(|tx: &Transaction| carried(*tx) is Some).len(),
    decreases txs.len(),
{
    reveal(Seq::filter);
    if txs.len() > 0 {
        lemma_carried_count(txs.drop_last());
    }
}

/// Each output of a coinbase has a seed of its own.
pub proof fn output_seeds_are_apart(txid: Seq<u8>, other: Seq<u8>, i: int, j: int)
    requires
        txid.len() == 32,
        other.len() == 32,
        0 <= i < 0x1_0000_0000,
        0 <= j < 0x1_0000_0000,
        output_seed(txid, i) == output_seed(other, j),
    ensures
        txid == other,
        i == j,
{
    coinbase_seeds_are_apart(txid, i as nat, other, j as nat);
}

/// Every output of a coinbase becomes the note that pays its value to the address that its
/// script starts with, none is left out, and the whole coinbase is refused where one cannot.
pub proof fn coinbase_outputs_become_notes(
    notes: Vec<(CoinbaseNoteDesc, u64)>,
    txid: Seq<u8>,
    outputs: Seq<TransactionOutput>,
    i: int,
)
    requires
        descs_outcome(Ok(notes), txid, outputs),
        0 <= i < outputs.len(),
    ensures
        notes@.len() == outputs.len(),
        notes@[i].1 == outputs[i].value,
        outputs[i].script@.len() >= 43,
        notes@[i].0.recipient@ == outputs[i].script@.take(43),
        notes@[i].0.note(notes@[i].1).value == outputs[i].value,
        notes@[i].0.rho@ == coinbase_rho(coinbase_seed(txid, (i % 0x1_0000_0000) as nat)),
{
    assert(mints(txid, outputs, i));
}

/// A transaction carries a bundle exactly where it is shielded and its payload decodes, and
/// then it carries the one that the payload encodes.
pub proof fn shielded_payloads_are_carried(tx: Transaction, b: BundleV)
    ensures
        carried(tx) == Some(b) <==> tx.shielded() && decode_bundle(tx.payload@) == Ok::<
            BundleV,
            BundleDecodeError,
        >(b),
        b.carriable() && b.encoded().len() <= usize::MAX && tx.shielded() && tx.payload@
            == b.encoded() ==> carried(tx) == Some(b),
{
    if b.carriable() && b.encoded().len() <= usize::MAX {
        bundle_round_trips(b);
    }
}

} // verus!
