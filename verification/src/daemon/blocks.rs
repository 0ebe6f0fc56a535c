//! Chain blocks as the node serves them, and what a wallet takes from them.
//!
//! A block is decoded once for all wallets: the bundles that it accepts and the coinbase
//! notes that it mints do not depend on a wallet's key.

use crate::bundle::{decode_bundle, BundleV, ShieldedBundle};
use crate::bytes::{low_u32, to_array};
use crate::coinbase::{
    coinbase_note_commitment, coinbase_rho, derivable, derived_from, first_fit, rseed_candidate,
    try_derive_coinbase_note_desc, CoinbaseNoteDesc,
};
use crate::effects::{held_views, output_seed, refs_of, ORCHARD_ADDRESS_LEN};
use crate::field::ExtractedNoteCommitment;
use crate::note::{note_valid, NoteV};
use crate::tree::FrontierState;
use crate::tx::TransactionOutput;
use crate::wallet::payment::coinbase_note_seed;
use crate::walletdb::{action_count, true_commitments, WalletDb, WalletV};
use vstd::prelude::*;

verus! {

/// A chain block as the node serves it: what the chain applied to shielded value, in order.
#[derive(Debug, Clone)]
pub struct ChainBlock {
    pub hash: [u8; 32],
    pub blue_score: u64,
    pub daa_score: u64,
    pub coinbase_txid: [u8; 32],
    /// What the coinbase transaction pays.
    pub coinbase_outputs: Vec<TransactionOutput>,
    /// The payloads of the accepted shielded transactions.
    pub accepted_bundles: Vec<Vec<u8>>,
    /// The ids of those transactions; an older node leaves them out.
    pub accepted_txids: Vec<[u8; 32]>,
    /// The header's time in milliseconds; an older node says 0.
    pub timestamp: u64,
}

/// A chain block, decoded.
#[derive(Debug, Clone)]
pub struct DecodedBlock {
    pub hash: [u8; 32],
    pub blue_score: u64,
    pub daa_score: u64,
    /// The coinbase notes that the block mints, with their commitments.
    pub coinbase: Vec<(CoinbaseNoteDesc, u64, ExtractedNoteCommitment)>,
    /// The bundles that the block accepts.
    pub bundles: Vec<ShieldedBundle>,
    /// The id of each bundle's transaction.
    pub txids: Vec<[u8; 32]>,
    pub coinbase_txid: [u8; 32],
    pub timestamp: u64,
}

/// The note that a coinbase output mints.
pub open spec fn coinbase_note_of(recipient: Seq<u8>, seed: Seq<u8>, value: u64) -> NoteV {
    NoteV {
        recipient,
        value,
        rho: coinbase_rho(seed),
        rseed: rseed_candidate(seed, choose|ctr: nat| first_fit(seed, ctr)),
    }
}

proof fn lemma_derived_note(desc: CoinbaseNoteDesc, recipient: Seq<u8>, seed: Seq<u8>, value: u64)
    requires
        derived_from(desc, recipient, seed),
    ensures
        desc.note(value) == coinbase_note_of(recipient, seed, value),
        derivable(seed),
{
    let a = choose|ctr: nat| #[trigger]
        first_fit(seed, ctr) && desc.rseed@ == rseed_candidate(seed, ctr);
    let b = choose|ctr: nat| first_fit(seed, ctr);
    assert(first_fit(seed, a) && first_fit(seed, b));
    if a < b {
        assert(!crate::coinbase::candidate_fits(seed, a));
    } else if b < a {
        assert(!crate::coinbase::candidate_fits(seed, b));
    }
}

/// The notes that the first `k` outputs of a coinbase transaction mint: those whose script
/// starts with an address, and whose parts make a note.
pub open spec fn minted_notes(txid: Seq<u8>, outputs: Seq<TransactionOutput>, k: int) -> Seq<NoteV>
    decreases k,
{
    if k <= 0 {
        Seq::empty()
    } else {
        let before = minted_notes(txid, outputs, k - 1);
        let o = outputs[k - 1];
        let seed = output_seed(txid, k - 1);
        let note = coinbase_note_of(o.script@.take(43), seed, o.value);
        if o.script@.len() >= ORCHARD_ADDRESS_LEN && derivable(seed) && note_valid(note) {
            before.push(note)
        } else {
            before
        }
    }
}

/// The list is that of the notes, with their commitments.
pub open spec fn lists_notes(
    list: Seq<(CoinbaseNoteDesc, u64, ExtractedNoteCommitment)>,
    notes: Seq<NoteV>,
) -> bool {
    &&& list.len() == notes.len()
    &&& forall|i: int|
        0 <= i < list.len() ==> {
            &&& (#[trigger] list[i]).0.note(list[i].1) == notes[i]
            &&& list[i].2@ == notes[i].commitment()
            &&& note_valid(notes[i])
        }
}

/// The bundles among the first `k` payloads; a payload that is none is passed over.
pub open spec fn accepted(payloads: Seq<Vec<u8>>, k: int) -> Seq<BundleV>
    decreases k,
{
    if k <= 0 {
        Seq::empty()
    } else {
        match decode_bundle(payloads[k - 1]@) {
            Ok(b) => accepted(payloads, k - 1).push(b),
            Err(_) => accepted(payloads, k - 1),
        }
    }
}

/// The ids that stand beside those bundles; zeros where the node gave none.
pub open spec fn accepted_ids(payloads: Seq<Vec<u8>>, ids: Seq<[u8; 32]>, k: int) -> Seq<Seq<u8>>
    decreases k,
{
    if k <= 0 {
        Seq::empty()
    } else {
        let before = accepted_ids(payloads, ids, k - 1);
        match decode_bundle(payloads[k - 1]@) {
            Ok(_) => before.push(
                if k - 1 < ids.len() {
                    ids[k - 1]@
                } else {
                    Seq::new(32, |i: int| 0u8)
                },
            ),
            Err(_) => before,
        }
    }
}

impl ChainBlock {
    /// The notes that the block mints.
    pub open spec fn notes(&self) -> Seq<NoteV> {
        minted_notes(
            self.coinbase_txid@,
            self.coinbase_outputs@,
            self.coinbase_outputs@.len() as int,
        )
    }

    /// The bundles that the block accepts.
    pub open spec fn bundles(&self) -> Seq<BundleV> {
        accepted(self.accepted_bundles@, self.accepted_bundles@.len() as int)
    }
}

/// The decoded block is what the block holds.
pub open spec fn decodes(d: DecodedBlock, b: ChainBlock) -> bool {
    &&& d.hash@ == b.hash@
    &&& d.blue_score == b.blue_score
    &&& d.daa_score == b.daa_score
    &&& d.coinbase_txid@ == b.coinbase_txid@
    &&& d.timestamp == b.timestamp
    &&& lists_notes(d.coinbase@, b.notes())
    &&& held_views(d.bundles@) == b.bundles()
    &&& crate::bytes::views32(d.txids@) == accepted_ids(
        b.accepted_bundles@,
        b.accepted_txids@,
        b.accepted_bundles@.len() as int,
    )
}

/// The coinbase notes of a block, with their commitments.
fn decode_coinbase(b: &ChainBlock) -> (list: Vec<(CoinbaseNoteDesc, u64, ExtractedNoteCommitment)>)
    ensures
        lists_notes(list@, b.notes()),
{
    let ghost outputs = b.coinbase_outputs@;
    let mut list: Vec<(CoinbaseNoteDesc, u64, ExtractedNoteCommitment)> = Vec::new();
    let mut i: usize = 0;
    while i < b.coinbase_outputs.len()
        invariant
            0 <= i <= outputs.len(),
            outputs == b.coinbase_outputs@,
            lists_notes(list@, minted_notes(b.coinbase_txid@, outputs, i as int)),
        decreases outputs.len() - i,
    {
        let o: &TransactionOutput = &b.coinbase_outputs[i];
        let ghost before = list@;
        let ghost notes = minted_notes(b.coinbase_txid@, outputs, i as int);
        if o.script.len() >= ORCHARD_ADDRESS_LEN {
            let head: &[u8] = vstd::slice::slice_subrange(o.script.as_slice(), 0, 43);
            assert(head@ =~= o.script@.take(43));
            let recipient: [u8; 43] = to_array(head);
            let seed: Vec<u8> = coinbase_note_seed(&b.coinbase_txid, low_u32(i));
            assert(seed@ == output_seed(b.coinbase_txid@, i as int));
            match try_derive_coinbase_note_desc(recipient, seed.as_slice()) {
                Some(desc) => {
                    proof {
                        lemma_derived_note(desc, head@, seed@, o.value);
                    }
                    match coinbase_note_commitment(&desc, o.value) {
                        Ok(cmx) => {
                            list.push((desc, o.value, cmx));
                            proof {
                                let now = notes.push(desc.note(o.value));
                                assert forall|j: int| 0 <= j < list@.len() implies {
                                    &&& (#[trigger] list@[j]).0.note(list@[j].1) == now[j]
                                    &&& list@[j].2@ == now[j].commitment()
                                    &&& note_valid(now[j])
                                } by {
                                    if j < before.len() {
                                        assert(list@[j] == before[j]);
                                    }
                                }
                            }
                        },
                        Err(_) => {},
                    }
                },
                None => {},
            }
        }
        i = i + 1;
    }
    list
}

/// Decodes a block.
pub fn decode_block(b: &ChainBlock) -> (d: DecodedBlock)
    ensures
        decodes(d, *b),
        true_commitments(d.coinbase@),
{
    let coinbase: Vec<(CoinbaseNoteDesc, u64, ExtractedNoteCommitment)> = decode_coinbase(b);
    let ghost payloads = b.accepted_bundles@;
    let mut bundles: Vec<ShieldedBundle> = Vec::new();
    let mut txids: Vec<[u8; 32]> = Vec::new();
    let mut i: usize = 0;
    proof {
        assert(held_views(bundles@) =~= Seq::<BundleV>::empty());
        assert(crate::bytes::views32(txids@) =~= Seq::<Seq<u8>>::empty());
    }
    while i < b.accepted_bundles.len()
        invariant
            0 <= i <= payloads.len(),
            payloads == b.accepted_bundles@,
            held_views(bundles@) == accepted(payloads, i as int),
            crate::bytes::views32(txids@) == accepted_ids(payloads, b.accepted_txids@, i as int),
        decreases payloads.len() - i,
    {
        let ghost before = bundles@;
        let ghost ids = txids@;
        match ShieldedBundle::from_bytes(b.accepted_bundles[i].as_slice()) {
            Ok(bundle) => {
                bundles.push(bundle);
                let id: [u8; 32] = if i < b.accepted_txids.len() {
                    b.accepted_txids[i]
                } else {
                    [0u8; 32]
                };
                txids.push(id);
                proof {
                    assert(held_views(bundles@) =~= held_views(before).push(bundle@));
                    crate::bytes::lemma_views32_push(ids, id);
                    if i >= b.accepted_txids@.len() {
                        assert(id@ =~= Seq::new(32, |i: int| 0u8));
                    }
                }
            },
            Err(_) => {},
        }
        i = i + 1;
    }
    DecodedBlock {
        hash: b.hash,
        blue_score: b.blue_score,
        daa_score: b.daa_score,
        coinbase,
        bundles,
        txids,
        coinbase_txid: b.coinbase_txid,
        timestamp: b.timestamp,
    }
}

impl WalletV {
    /// Coinbase notes that a block mints.
    pub open spec fn mint(self, notes: Seq<NoteV>) -> WalletV
        decreases notes.len(),
    {
        if notes.len() == 0 {
            self
        } else {
            let note = notes.last();
            self.mint(notes.drop_last()).append_leaf(
                note.commitment(),
                if note.recipient == self.address() {
                    Some(note)
                } else {
                    None
                },
            )
        }
    }

    /// One chain block: the notes that it mints, then the bundles that it accepts.
    pub open spec fn block(self, b: ChainBlock) -> WalletV {
        self.mint(b.notes()).bundles(b.bundles())
    }
}

/// Following notes with their commitments at hand is following the notes.
pub proof fn commitments_at_hand_change_nothing(
    w: WalletV,
    list: Seq<(CoinbaseNoteDesc, u64, ExtractedNoteCommitment)>,
    notes: Seq<NoteV>,
)
    requires
        lists_notes(list, notes),
    ensures
        w.coinbase_precomputed(list) == w.mint(notes),
    decreases notes.len(),
{
    if notes.len() > 0 {
        let k = list.len() - 1;
        assert(list[k].0.note(list[k].1) == notes[k]);
        assert(lists_notes(list.drop_last(), notes.drop_last())) by {
            assert forall|i: int| 0 <= i < list.drop_last().len() implies {
                &&& (#[trigger] list.drop_last()[i]).0.note(list.drop_last()[i].1)
                    == notes.drop_last()[i]
                &&& list.drop_last()[i].2@ == notes.drop_last()[i].commitment()
                &&& note_valid(notes.drop_last()[i])
            } by {
                assert(list[i].0.note(list[i].1) == notes[i]);
            }
        }
        commitments_at_hand_change_nothing(w, list.drop_last(), notes.drop_last());
    }
}

/// Feeds one chain block into a wallet: the notes that it mints first, then the bundles that
/// it accepts.
pub fn ingest_shielded_chain_block(db: &mut WalletDb, b: &ChainBlock)
    requires
        old(db).wf(),
        old(db)@.size() + b.notes().len() + action_count(b.bundles()) <= u64::MAX,
    ensures
        final(db).wf(),
        final(db)@ == old(db)@.block(*b),
        old(db)@.tidy() ==> final(db)@.tidy(),
{
    let d: DecodedBlock = decode_block(b);
    let refs: Vec<&ShieldedBundle> = refs_of(&d.bundles);
    proof {
        commitments_at_hand_change_nothing(db@, d.coinbase@, b.notes());
    }
    db.ingest_block_precomputed(d.coinbase.as_slice(), refs.as_slice());
}

/// The frontier that a node reports: there is a leaf where the tree has any.
pub fn frontier_state(size: u64, leaf: [u8; 32], ommers: Vec<[u8; 32]>) -> (fs: FrontierState)
    ensures
        fs.size == size,
        fs.leaf == (if size > 0 {
            Some(leaf)
        } else {
            None
        }),
        fs.ommers@ == ommers@,
{
    let leaf: Option<[u8; 32]> = if size > 0 {
        Some(leaf)
    } else {
        None
    };
    FrontierState { size, leaf, ommers }
}

} // verus!
