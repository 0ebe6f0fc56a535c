//! Following the chain: what a page of blocks does to a wallet.
//!
//! A wallet's tree is append-only, so a block enters it only once it is settled, a margin
//! below the sink. What is less deep is previewed, and so is what waits in the mempool. The
//! last block boundaries are kept, so that a spend finds an anchor that is deep enough.

use crate::bundle::{BundleV, ShieldedBundle};
use crate::coinbase::CoinbaseNoteDesc;
use crate::daemon::blocks::DecodedBlock;
use crate::daemon::history::{
    all_held, block_entries, entry_views, record_block, EntryV, HistoryEntry,
};
use crate::daemon::parked::{all_takable, lemma_still_takable, parked_views, Parked};
use crate::daemon::request::{cursor_gone, says_gone};
use crate::daemon::vault::WalletKey;
use crate::effects::{held_views, refs_of};
use crate::field::ExtractedNoteCommitment;
use crate::nullifier::{MemNullifierSet, NullifierSet};
use crate::walletdb::previews::{reveals_in, shows};
use crate::walletdb::{
    action_count, bundle_views, true_commitments, Preview, WalletDb, WalletV,
};
use vstd::prelude::*;
use vstd::string::*;

verus! {

/// How deep below the sink, in blue score, an anchor must be for a spend.
pub const DEFAULT_ANCHOR_DEPTH: u64 = 600;

/// How much deeper the wallet picks its anchors, so that they stay deep enough while a
/// transaction waits.
pub const ANCHOR_SLACK: u64 = 30;

/// How far below the sink a block must be before it enters the tree.
pub const SYNC_TIP_MARGIN: u64 = 200;

/// How many passes in a row must find the cursor off the chain before the wallet is scanned
/// again.
pub const REORG_STRIKES: u32 = 3;

/// How many block boundaries are kept.
pub const MATURED_RING: usize = 694;

/// Why the last pass failed.
#[derive(Debug, Clone, PartialEq, Eq)]
pub enum SyncError {
    /// The node did not answer in time.
    TimedOut,
    /// The cursor is gone from the node.
    CursorGone,
    /// The cursor is off the selected chain.
    Reorged,
    /// The node failed to answer, which says nothing of the cursor.
    Node(String),
    /// The wallet's tree is not the node's at the cursor.
    Diverged,
    /// The user asked for a new scan.
    Rescanning,
}

impl SyncError {
    /// The text of [`message`](Self::message).
    pub open spec fn text(self) -> Seq<char> {
        match self {
            SyncError::TimedOut => "node is slow to answer; retrying"@,
            SyncError::CursorGone => "wallet cursor no longer usable on the node; rescanning"@,
            SyncError::Reorged => "chain reorged below the wallet cursor; retrying"@,
            SyncError::Node(e) => "get_shielded_blocks failed: "@ + e@,
            SyncError::Diverged =>
                "wallet checkpoint diverged from canonical shielded state; repairing from chain"@,
            SyncError::Rescanning => "rescanning from birthday"@,
        }
    }

    /// The message for people.
    pub fn message(&self) -> (s: String)
        ensures
            s@ == self.text(),
    {
        match self {
            SyncError::TimedOut => String::from_str("node is slow to answer; retrying"),
            SyncError::CursorGone => String::from_str(
                "wallet cursor no longer usable on the node; rescanning",
            ),
            SyncError::Reorged => String::from_str(
                "chain reorged below the wallet cursor; retrying",
            ),
            SyncError::Node(e) => {
                let mut s: String = String::from_str("get_shielded_blocks failed: ");
                s.append(e.as_str());
                s
            },
            SyncError::Diverged => String::from_str(
                "wallet checkpoint diverged from canonical shielded state; repairing from chain",
            ),
            SyncError::Rescanning => String::from_str("rescanning from birthday"),
        }
    }
}

/// A page of decoded blocks.
pub struct DecodedPage {
    /// The cursor is off the selected chain.
    pub reorged: bool,
    pub sink_blue_score: u64,
    /// The blocks behind the cursor, in order.
    pub blocks: Vec<DecodedBlock>,
}

impl DecodedPage {
    /// The coinbase commitments of the blocks are those of their notes, as decoding gives
    /// them.
    pub open spec fn truthful(&self) -> bool {
        forall|b: int|
            0 <= b < self.blocks@.len() ==> true_commitments(
                (#[trigger] self.blocks@[b]).coinbase@,
            )
    }
}

/// A wallet that follows the chain.
pub struct WalletEntry {
    pub key: WalletKey,
    /// The user wants a readable history.
    pub recoverable_history: bool,
    pub db: WalletDb,
    pub genesis: [u8; 32],
    /// The last chain block in the tree.
    pub low: [u8; 32],
    pub caught_up: bool,
    /// The height of that block.
    pub scanned: u64,
    /// The height of the chain.
    pub chain_len: u64,
    pub updated_unix: u64,
    pub error: Option<SyncError>,
    /// The height at the last checkpoint.
    pub saved_scanned: u64,
    /// Blue score and leaf count after each of the last blocks, oldest first.
    pub ring: Vec<(u64, u64)>,
    pub sink_blue: u64,
    /// How many passes in a row found the cursor off the chain.
    pub strikes: u32,
    /// What the blocks that are not settled do to the balance.
    pub preview: Preview,
    /// What the mempool does to the balance.
    pub mempool: Preview,
    /// The nullifiers that the blocks that are not settled reveal.
    pub unsettled: MemNullifierSet,
    /// The witnesses have caught up once.
    pub witnesses_warm: bool,
    /// A checkpoint is due at once.
    pub force_checkpoint: bool,
    /// Below which leaf the view is blind; 0 for a complete view.
    pub blind_below: u64,
    /// The notes of payments that are under way.
    pub parked: Vec<Parked>,
    /// What was recorded of the blocks, oldest first.
    pub history: Vec<HistoryEntry>,
}

impl WalletEntry {
    /// No pass has been made yet: nothing is pending, and nothing has failed.
    pub open spec fn untried(&self) -> bool {
        &&& !self.caught_up
        &&& self.chain_len == 0
        &&& self.updated_unix == 0
        &&& self.error is None
        &&& self.strikes == 0
        &&& self.preview.incoming == 0
        &&& self.preview.outgoing == 0
        &&& self.mempool.incoming == 0
        &&& self.mempool.outgoing == 0
        &&& self.unsettled@ == Set::<Seq<u8>>::empty()
        &&& !self.witnesses_warm
        &&& !self.force_checkpoint
        &&& self.parked@.len() == 0
        &&& self.history@.len() == 0
    }

    /// A wallet that resumes behind a cursor.
    pub fn from_parts(
        key: WalletKey,
        recoverable_history: bool,
        db: WalletDb,
        genesis: [u8; 32],
        low: [u8; 32],
        scanned: u64,
        ring: Vec<(u64, u64)>,
        sink_blue: u64,
    ) -> (e: Self)
        ensures
            e.key == key,
            e.recoverable_history == recoverable_history,
            e.db == db,
            e.genesis == genesis,
            e.low == low,
            e.scanned == scanned,
            e.saved_scanned == scanned,
            e.ring == ring,
            e.sink_blue == sink_blue,
            e.untried(),
            e.blind_below == 0,
    {
        WalletEntry {
            key,
            recoverable_history,
            db,
            genesis,
            low,
            caught_up: false,
            scanned,
            chain_len: 0,
            updated_unix: 0,
            error: None,
            saved_scanned: scanned,
            ring,
            sink_blue,
            strikes: 0,
            preview: Preview::default(),
            mempool: Preview::default(),
            unsettled: MemNullifierSet::new(),
            witnesses_warm: false,
            force_checkpoint: false,
            blind_below: 0,
            parked: Vec::new(),
            history: Vec::new(),
        }
    }
}

/// What a block weighs: an upper bound of the leaves that it appends.
pub open spec fn weight(b: DecodedBlock) -> nat {
    b.coinbase@.len() + action_count(held_views(b.bundles@))
}

/// What blocks weigh together.
pub open spec fn total_weight(blocks: Seq<DecodedBlock>) -> nat
    decreases blocks.len(),
{
    if blocks.len() == 0 {
        0
    } else {
        total_weight(blocks.drop_last()) + weight(blocks.last())
    }
}

/// The wallet behind one block.
pub open spec fn after_block(w: WalletV, b: DecodedBlock) -> WalletV {
    w.coinbase_precomputed(b.coinbase@).bundles(held_views(b.bundles@))
}

/// The wallet behind the first `k` blocks.
pub open spec fn after_blocks(w: WalletV, blocks: Seq<DecodedBlock>, k: int) -> WalletV
    decreases k,
{
    if k <= 0 {
        w
    } else {
        after_block(after_blocks(w, blocks, k - 1), blocks[k - 1])
    }
}

/// One more boundary; the oldest goes where there are too many.
pub open spec fn ring_push(ring: Seq<(u64, u64)>, e: (u64, u64)) -> Seq<(u64, u64)> {
    let r = ring.push(e);
    if r.len() > MATURED_RING {
        r.skip(1)
    } else {
        r
    }
}

/// The boundaries behind the first `k` blocks.
pub open spec fn ring_after(
    ring: Seq<(u64, u64)>,
    w: WalletV,
    blocks: Seq<DecodedBlock>,
    k: int,
) -> Seq<(u64, u64)>
    decreases k,
{
    if k <= 0 {
        ring
    } else {
        ring_push(
            ring_after(ring, w, blocks, k - 1),
            (blocks[k - 1].blue_score, after_blocks(w, blocks, k).size() as u64),
        )
    }
}

/// The first `k` blocks are settled, and they are all that are.
pub open spec fn settles(blocks: Seq<DecodedBlock>, settled: u64, k: int) -> bool {
    &&& 0 <= k <= blocks.len()
    &&& forall|j: int| 0 <= j < k ==> (#[trigger] blocks[j]).blue_score <= settled
    &&& k < blocks.len() ==> blocks[k].blue_score > settled
}

/// The blue score up to which blocks are settled.
pub open spec fn settled_below(sink: u64) -> u64 {
    if sink >= SYNC_TIP_MARGIN {
        (sink - SYNC_TIP_MARGIN) as u64
    } else {
        0
    }
}

/// Descriptions and values alone.
pub open spec fn pairs_of(
    list: Seq<(CoinbaseNoteDesc, u64, ExtractedNoteCommitment)>,
) -> Seq<(CoinbaseNoteDesc, u64)> {
    Seq::new(list.len(), |i: int| (list[i].0, list[i].1))
}

/// What blocks would pay the wallet.
pub open spec fn blocks_incoming(w: WalletV, blocks: Seq<DecodedBlock>) -> nat
    decreases blocks.len(),
{
    if blocks.len() == 0 {
        0
    } else {
        blocks_incoming(w, blocks.drop_last()) + w.coinbase_incoming(
            pairs_of(blocks.last().coinbase@),
        ) + w.bundles_incoming(held_views(blocks.last().bundles@))
    }
}

/// What blocks would spend of the wallet.
pub open spec fn blocks_outgoing(w: WalletV, blocks: Seq<DecodedBlock>) -> nat
    decreases blocks.len(),
{
    if blocks.len() == 0 {
        0
    } else {
        blocks_outgoing(w, blocks.drop_last()) + w.bundles_outgoing(
            held_views(blocks.last().bundles@),
        )
    }
}

/// The nullifiers that bundles reveal.
pub open spec fn revealed_by(bundles: Seq<BundleV>) -> Set<Seq<u8>>
    decreases bundles.len(),
{
    if bundles.len() == 0 {
        Set::empty()
    } else {
        revealed_by(bundles.drop_last()).union(bundles.last().nullifiers().to_set())
    }
}

/// The nullifiers that blocks reveal.
pub open spec fn revealed_in(blocks: Seq<DecodedBlock>) -> Set<Seq<u8>>
    decreases blocks.len(),
{
    if blocks.len() == 0 {
        Set::empty()
    } else {
        revealed_in(blocks.drop_last()).union(revealed_by(held_views(blocks.last().bundles@)))
    }
}

proof fn lemma_total_weight(blocks: Seq<DecodedBlock>, k: int)
    requires
        0 <= k < blocks.len(),
    ensures
        total_weight(blocks.take(k + 1)) == total_weight(blocks.take(k)) + weight(blocks[k]),
        total_weight(blocks.take(k + 1)) <= total_weight(blocks),
    decreases blocks.len() - k,
{
    assert(blocks.take(k + 1).drop_last() =~= blocks.take(k));
    if k + 1 < blocks.len() {
        lemma_total_weight(blocks, k + 1);
    } else {
        assert(blocks.take(k + 1) =~= blocks);
    }
}

proof fn lemma_weight_splits(blocks: Seq<DecodedBlock>, k: int, n: int)
    requires
        0 <= k <= n <= blocks.len(),
    ensures
        total_weight(blocks.take(n)) == total_weight(blocks.take(k)) + total_weight(
            blocks.subrange(k, n),
        ),
    decreases n - k,
{
    if n == k {
        assert(blocks.subrange(k, n) =~= Seq::<DecodedBlock>::empty());
    } else {
        lemma_weight_splits(blocks, k, n - 1);
        assert(blocks.take(n).drop_last() =~= blocks.take(n - 1));
        assert(blocks.subrange(k, n).drop_last() =~= blocks.subrange(k, n - 1));
    }
}

proof fn lemma_actions_size(w: WalletV, actions: Seq<crate::bundle::ActionV>, k: int)
    requires
        0 <= k <= actions.len(),
    ensures
        w.actions(actions, k).size() <= w.size() + k,
        w.actions(actions, k).base == w.base,
        w.actions(actions, k).leaves.len() >= w.leaves.len(),
    decreases k,
{
    if k > 0 {
        lemma_actions_size(w, actions, k - 1);
    }
}

/// Bundles append at most as many leaves as they have actions.
pub proof fn bundles_append_at_most_their_actions(w: WalletV, bundles: Seq<BundleV>)
    ensures
        w.bundles(bundles).size() <= w.size() + action_count(bundles),
        w.bundles(bundles).base == w.base,
    decreases bundles.len(),
{
    if bundles.len() > 0 {
        bundles_append_at_most_their_actions(w, bundles.drop_last());
        let b = bundles.last();
        lemma_actions_size(w.bundles(bundles.drop_last()), b.actions, b.actions.len() as int);
    }
}

proof fn lemma_coinbase_size(
    w: WalletV,
    list: Seq<(CoinbaseNoteDesc, u64, ExtractedNoteCommitment)>,
)
    ensures
        w.coinbase_precomputed(list).size() == w.size() + list.len(),
        w.coinbase_precomputed(list).base == w.base,
    decreases list.len(),
{
    if list.len() > 0 {
        lemma_coinbase_size(w, list.drop_last());
    }
}

/// A block appends at most as many leaves as it weighs.
pub proof fn blocks_append_at_most_their_weight(w: WalletV, b: DecodedBlock)
    ensures
        after_block(w, b).size() <= w.size() + weight(b),
{
    lemma_coinbase_size(w, b.coinbase@);
    bundles_append_at_most_their_actions(w.coinbase_precomputed(b.coinbase@), held_views(b.bundles@));
}

fn pairs(list: &[(CoinbaseNoteDesc, u64, ExtractedNoteCommitment)]) -> (out: Vec<
    (CoinbaseNoteDesc, u64),
>)
    ensures
        out@ == pairs_of(list@),
{
    let mut out: Vec<(CoinbaseNoteDesc, u64)> = Vec::new();
    let mut i: usize = 0;
    while i < list.len()
        invariant
            0 <= i <= list@.len(),
            out@.len() == i,
            forall|j: int| 0 <= j < i ==> #[trigger] out@[j] == (list@[j].0, list@[j].1),
        decreases list@.len() - i,
    {
        out.push((list[i].0, list[i].1));
        i = i + 1;
    }
    assert(out@ =~= pairs_of(list@));
    out
}

fn add_revealed(set: &mut MemNullifierSet, bundles: &Vec<ShieldedBundle>)
    ensures
        final(set)@ == old(set)@.union(revealed_by(held_views(bundles@))),
{
    let ghost all = held_views(bundles@);
    let mut i: usize = 0;
    proof {
        assert(all.take(0) =~= Seq::<BundleV>::empty());
        assert(set@.union(Set::empty()) =~= set@);
    }
    while i < bundles.len()
        invariant
            0 <= i <= bundles@.len(),
            all == held_views(bundles@),
            set@ == old(set)@.union(revealed_by(all.take(i as int))),
        decreases bundles@.len() - i,
    {
        let ghost before = set@;
        let nfs: Vec<[u8; 32]> = bundles[i].nullifiers();
        set.extend(nfs.as_slice());
        proof {
            assert(all.take(i + 1).drop_last() =~= all.take(i as int));
            assert(all.take(i + 1).last() == bundles@[i as int]@);
            assert(set@ =~= old(set)@.union(revealed_by(all.take(i + 1))));
        }
        i = i + 1;
    }
    assert(all.take(i as int) =~= all);
}

proof fn lemma_values(a: int, b: int)
    requires
        0 <= a,
        0 <= b,
        a + b <= u64::MAX,
    ensures
        a * 0xffff_ffff_ffff_ffff + b * 0xffff_ffff_ffff_ffff == (a + b) * 0xffff_ffff_ffff_ffff,
        (a + b) * 0xffff_ffff_ffff_ffff <= 0xffff_ffff_ffff_ffff * 0xffff_ffff_ffff_ffff,
        b * 0xffff_ffff_ffff_ffff >= 0,
        a * 0xffff_ffff_ffff_ffff >= 0,
{
    assert((a + b) * 0xffff_ffff_ffff_ffff <= 0xffff_ffff_ffff_ffff * 0xffff_ffff_ffff_ffff)
        by (nonlinear_arith)
        requires
            a + b <= 0xffff_ffff_ffff_ffff,
    ;
    assert(a * 0xffff_ffff_ffff_ffff + b * 0xffff_ffff_ffff_ffff == (a + b)
        * 0xffff_ffff_ffff_ffff) by (nonlinear_arith);
}

/// What a page comes to.
#[derive(Debug, Clone, Copy, PartialEq, Eq, Structural)]
pub enum PageOutcome {
    /// The cursor is off the chain.
    Reorged,
    /// There is nothing settled behind this page.
    CaughtUp,
    /// There may be more.
    More,
}

/// Previews the blocks of a page from `k` on: what they would pay and spend, and which
/// nullifiers they reveal.
fn preview_rest(db: &WalletDb, blocks: &Vec<DecodedBlock>, k: usize) -> (r: (
    Preview,
    MemNullifierSet,
))
    requires
        db.wf(),
        k <= blocks@.len(),
        total_weight(blocks@) <= u64::MAX,
    ensures
        r.0.incoming == blocks_incoming(db@, blocks@.skip(k as int)),
        r.0.outgoing == blocks_outgoing(db@, blocks@.skip(k as int)),
        r.1@ == revealed_in(blocks@.skip(k as int)),
{
    let ghost rest = blocks@.skip(k as int);
    proof {
        lemma_weight_splits(blocks@, k as int, blocks@.len() as int);
        assert(blocks@.take(blocks@.len() as int) =~= blocks@);
        assert(blocks@.subrange(k as int, blocks@.len() as int) =~= rest);
        assert(rest.take(0) =~= Seq::<DecodedBlock>::empty());
    }
    let mut preview: Preview = Preview::default();
    let mut nulls: MemNullifierSet = MemNullifierSet::new();
    let mut i: usize = k;
    while i < blocks.len()
        invariant
            k <= i <= blocks@.len(),
            db.wf(),
            rest == blocks@.skip(k as int),
            total_weight(rest) <= u64::MAX,
            preview.incoming == blocks_incoming(db@, rest.take(i - k)),
            preview.outgoing == blocks_outgoing(db@, rest.take(i - k)),
            preview.incoming <= total_weight(rest.take(i - k)) * 0xffff_ffff_ffff_ffff,
            preview.outgoing <= total_weight(rest.take(i - k)) * 0xffff_ffff_ffff_ffff,
            nulls@ == revealed_in(rest.take(i - k)),
        decreases blocks@.len() - i,
    {
        let b: &DecodedBlock = &blocks[i];
        proof {
            lemma_total_weight(rest, i - k);
            assert(rest.take(i - k + 1).drop_last() =~= rest.take(i - k));
            assert(rest.take(i - k + 1).last() == b);
            lemma_values(
                total_weight(rest.take(i - k)) as int,
                weight(*b) as int,
            );
            assert(action_count(held_views(b.bundles@)) * 0xffff_ffff_ffff_ffff <= weight(*b)
                * 0xffff_ffff_ffff_ffff) by (nonlinear_arith)
                requires
                    action_count(held_views(b.bundles@)) <= weight(*b),
            ;
        }
        let refs: Vec<&ShieldedBundle> = refs_of(&b.bundles);
        let coinbase: Vec<(CoinbaseNoteDesc, u64)> = pairs(b.coinbase.as_slice());
        let p: Preview = db.preview_block(coinbase.as_slice(), refs.as_slice());
        preview.add(p);
        add_revealed(&mut nulls, &b.bundles);
        i = i + 1;
    }
    assert(rest.take(i - k) =~= rest);
    (preview, nulls)
}

/// What the node said of the block at the cursor.
#[derive(Debug, Clone, PartialEq, Eq)]
pub enum Probe {
    /// It has the block.
    Found,
    /// It answered with an error.
    Failed(String),
    /// It did not answer in time.
    TimedOut,
}

/// The cursor is gone: the page error says so itself, or the node is alive and says so of
/// the block.
pub open spec fn gone(page_error: Seq<char>, probe: Probe, node_alive: bool) -> bool {
    says_gone(page_error) || (node_alive && (probe matches Probe::Failed(e) && says_gone(e@)))
}

/// Whether a page error shows that the cursor is gone. Where it says nothing of the cursor,
/// the block was asked for too; only a verdict of a live node counts.
pub fn cursor_verdict(page_error: &str, probe: &Probe, node_alive: bool) -> (r: bool)
    ensures
        r == gone(page_error@, *probe, node_alive),
{
    if cursor_gone(page_error) {
        return true;
    }
    match probe {
        Probe::Failed(e) => node_alive && cursor_gone(e.as_str()),
        _ => false,
    }
}

proof fn lemma_history_frame(e: WalletEntry, f: WalletEntry, blocks: Seq<DecodedBlock>, k: int)
    requires
        e.db == f.db,
        e.parked == f.parked,
        e.history == f.history,
        e.recoverable_history == f.recoverable_history,
    ensures
        history_after(e, blocks, k) == history_after(f, blocks, k),
    decreases k,
{
    if k > 0 {
        lemma_history_frame(e, f, blocks, k - 1);
    }
}

/// The history after the first `k` blocks; nothing is recorded where the user does not want it.
pub open spec fn history_after(e: WalletEntry, blocks: Seq<DecodedBlock>, k: int) -> Seq<EntryV>
    decreases k,
{
    if k <= 0 {
        entry_views(e.history@)
    } else {
        let before = history_after(e, blocks, k - 1);
        let w = after_blocks(e.db@, blocks, k - 1);
        if e.recoverable_history {
            before + block_entries(
                w,
                all_held(w.notes, parked_views(e.parked@)),
                blocks[k - 1],
            )
        } else {
            before
        }
    }
}

/// What a settled page did to a wallet: `k` blocks entered the tree, the cursor and the
/// boundaries followed, and the rest is previewed.
pub open spec fn followed(
    old_entry: WalletEntry,
    new_entry: WalletEntry,
    page: DecodedPage,
    k: int,
    outcome: PageOutcome,
) -> bool {
    let blocks = page.blocks@;
    let w = after_blocks(old_entry.db@, blocks, k);
    &&& new_entry.db@ == w
    &&& new_entry.ring@ == ring_after(old_entry.ring@, old_entry.db@, blocks, k)
    &&& new_entry.low == (if k > 0 {
        blocks[k - 1].hash
    } else {
        old_entry.low
    })
    &&& new_entry.scanned == (if k > 0 {
        blocks[k - 1].daa_score
    } else {
        old_entry.scanned
    })
    &&& new_entry.sink_blue == page.sink_blue_score
    &&& new_entry.strikes == 0
    &&& entry_views(new_entry.history@) == history_after(old_entry, blocks, k)
    &&& new_entry.preview.incoming == blocks_incoming(w, blocks.skip(k))
    &&& new_entry.preview.outgoing == blocks_outgoing(w, blocks.skip(k))
    &&& new_entry.unsettled@ == revealed_in(blocks.skip(k))
    &&& outcome == (if k == 0 || k < blocks.len() {
        PageOutcome::CaughtUp
    } else {
        PageOutcome::More
    })
    &&& new_entry.caught_up == (old_entry.caught_up || outcome == PageOutcome::CaughtUp)
}

/// Nothing that a page cannot touch differs.
pub open spec fn untouched(old_entry: WalletEntry, new_entry: WalletEntry) -> bool {
    &&& new_entry.key == old_entry.key
    &&& new_entry.recoverable_history == old_entry.recoverable_history
    &&& new_entry.genesis == old_entry.genesis
    &&& new_entry.chain_len == old_entry.chain_len
    &&& new_entry.updated_unix == old_entry.updated_unix
    &&& new_entry.saved_scanned == old_entry.saved_scanned
    &&& new_entry.mempool == old_entry.mempool
    &&& new_entry.witnesses_warm == old_entry.witnesses_warm
    &&& new_entry.force_checkpoint == old_entry.force_checkpoint
    &&& new_entry.blind_below == old_entry.blind_below
    &&& new_entry.parked == old_entry.parked
}

impl WalletEntry {
    /// The node did not answer in time: nothing changes but the error.
    pub fn page_timed_out(&mut self)
        ensures
            *final(self) == (WalletEntry { error: Some(SyncError::TimedOut), ..*old(self) }),
    {
        self.error = Some(SyncError::TimedOut);
    }

    /// The node answered with an error. Where it shows that the cursor is gone that is a
    /// strike; else it says nothing of the wallet.
    pub fn page_failed(&mut self, is_gone: bool, e: &str)
        requires
            old(self).strikes < u32::MAX,
        ensures
            is_gone ==> *final(self) == (WalletEntry {
                strikes: (old(self).strikes + 1) as u32,
                error: Some(SyncError::CursorGone),
                ..*old(self)
            }),
            !is_gone ==> *final(self) == (WalletEntry { error: final(self).error, ..*old(self) })
                && (final(self).error matches Some(SyncError::Node(s)) && s@ == e@),
    {
        if is_gone {
            self.strikes = self.strikes + 1;
            self.error = Some(SyncError::CursorGone);
        } else {
            self.error = Some(SyncError::Node(String::from_str(e)));
        }
    }

    /// Follows one page. Off the chain it is a strike and nothing else; else the settled
    /// blocks enter the tree, the rest is previewed, and the strikes are forgotten.
    pub fn follow_page(&mut self, page: &DecodedPage) -> (outcome: PageOutcome)
        requires
            old(self).db.wf(),
            old(self).strikes < u32::MAX,
            old(self).db@.size() + total_weight(page.blocks@) <= u64::MAX,
        ensures
            final(self).db.wf(),
            old(self).db@.tidy() && page.truthful() ==> final(self).db@.tidy(),
            all_takable(old(self).db@, parked_views(old(self).parked@)) ==> all_takable(
                final(self).db@,
                parked_views(final(self).parked@),
            ),
            old(self).ring@.len() <= MATURED_RING ==> final(self).ring@.len() <= MATURED_RING,
            untouched(*old(self), *final(self)),
            page.reorged ==> outcome == PageOutcome::Reorged && *final(self) == (WalletEntry {
                strikes: (old(self).strikes + 1) as u32,
                error: Some(SyncError::Reorged),
                ..*old(self)
            }),
            !page.reorged ==> final(self).error == old(self).error && exists|k: int| #[trigger]
                settles(page.blocks@, settled_below(page.sink_blue_score), k) && followed(
                    *old(self),
                    *final(self),
                    *page,
                    k,
                    outcome,
                ),
    {
        if page.reorged {
            self.strikes = self.strikes + 1;
            self.error = Some(SyncError::Reorged);
            return PageOutcome::Reorged;
        }
        self.strikes = 0;
        self.sink_blue = page.sink_blue_score;
        let settled: u64 = if page.sink_blue_score >= SYNC_TIP_MARGIN {
            page.sink_blue_score - SYNC_TIP_MARGIN
        } else {
            0
        };
        let ghost blocks = page.blocks@;
        let ghost start = *self;
        let mut i: usize = 0;
        assert(blocks.take(0) =~= Seq::<DecodedBlock>::empty());
        while i < page.blocks.len() && page.blocks[i].blue_score <= settled
            invariant
                0 <= i <= blocks.len(),
                blocks == page.blocks@,
                self.db.wf(),
                start.db@.tidy() && page.truthful() ==> self.db@.tidy(),
                self.db@.went_on_from(start.db@),
                start.ring@.len() <= MATURED_RING ==> self.ring@.len() <= MATURED_RING,
                start.db@.size() + total_weight(blocks) <= u64::MAX,
                self.db@ == after_blocks(start.db@, blocks, i as int),
                self.db@.size() <= start.db@.size() + total_weight(blocks.take(i as int)),
                self.ring@ == ring_after(start.ring@, start.db@, blocks, i as int),
                entry_views(self.history@) == history_after(start, blocks, i as int),
                self.low == (if i > 0 {
                    blocks[i - 1].hash
                } else {
                    start.low
                }),
                self.scanned == (if i > 0 {
                    blocks[i - 1].daa_score
                } else {
                    start.scanned
                }),
                *self == (WalletEntry {
                    db: self.db,
                    ring: self.ring,
                    low: self.low,
                    scanned: self.scanned,
                    history: self.history,
                    ..start
                }),
                forall|j: int| 0 <= j < i ==> (#[trigger] blocks[j]).blue_score <= settled,
            decreases blocks.len() - i,
        {
            let b: &DecodedBlock = &page.blocks[i];
            let refs: Vec<&ShieldedBundle> = refs_of(&b.bundles);
            proof {
                lemma_total_weight(blocks, i as int);
                blocks_append_at_most_their_weight(self.db@, *b);
            }
            if self.recoverable_history {
                let ghost before = self.history@;
                let mut fresh: Vec<HistoryEntry> = record_block(
                    &self.db,
                    self.parked.as_slice(),
                    b,
                );
                let ghost more = fresh@;
                self.history.append(&mut fresh);
                proof {
                    assert(self.history@ =~= before + more);
                    assert(entry_views(self.history@) =~= entry_views(before) + entry_views(more));
                }
            }
            self.db.ingest_block_precomputed(b.coinbase.as_slice(), refs.as_slice());
            self.low = b.hash;
            self.scanned = b.daa_score;
            let leaves: u64 = self.db.size();
            push_boundary(&mut self.ring, (b.blue_score, leaves));
            i = i + 1;
        }
        assert(settles(blocks, settled, i as int));
        proof {
            lemma_weight_splits(blocks, 0, blocks.len() as int);
            assert(blocks.take(blocks.len() as int) =~= blocks);
        }
        let (preview, unsettled) = preview_rest(&self.db, &page.blocks, i);
        self.preview = preview;
        self.unsettled = unsettled;
        let outcome: PageOutcome = if i == 0 || i < page.blocks.len() {
            self.caught_up = true;
            PageOutcome::CaughtUp
        } else {
            PageOutcome::More
        };
        proof {
            assert(settled == settled_below(page.sink_blue_score));
            assert(start.db == old(self).db && start.ring == old(self).ring);
            lemma_history_frame(start, *old(self), blocks, i as int);
            assert(followed(*old(self), *self, *page, i as int, outcome));
            if all_takable(start.db@, parked_views(start.parked@)) {
                lemma_still_takable(start.db@, self.db@, parked_views(start.parked@));
            }
        }
        outcome
    }

    /// The pass is over: nothing is wrong, and the wallet is as of now.
    pub fn finish_pass(&mut self, now: u64)
        ensures
            *final(self) == (WalletEntry { error: None, updated_unix: now, ..*old(self) }),
    {
        self.error = None;
        self.updated_unix = now;
    }
}

fn push_boundary(ring: &mut Vec<(u64, u64)>, e: (u64, u64))
    ensures
        final(ring)@ == ring_push(old(ring)@, e),
        old(ring)@.len() <= MATURED_RING ==> final(ring)@.len() <= MATURED_RING,
{
    let ghost before = ring@;
    ring.push(e);
    if ring.len() > MATURED_RING {
        ring.remove(0);
        assert(ring@ =~= before.push(e).skip(1));
    }
}

/// Entry `i` of the ring is the newest that is deep enough.
pub open spec fn newest_deep(ring: Seq<(u64, u64)>, cutoff: u64, i: int) -> bool {
    &&& 0 <= i < ring.len()
    &&& ring[i].0 <= cutoff
    &&& forall|j: int| i < j < ring.len() ==> (#[trigger] ring[j]).0 > cutoff
}

/// The blue score that an anchor may have at most.
pub open spec fn anchor_cutoff(sink: u64) -> u64 {
    if sink >= DEFAULT_ANCHOR_DEPTH + ANCHOR_SLACK {
        (sink - DEFAULT_ANCHOR_DEPTH - ANCHOR_SLACK) as u64
    } else {
        0
    }
}

/// The leaf count of the newest boundary that is deep enough, if there is one.
pub open spec fn matured(ring: Seq<(u64, u64)>, sink: u64) -> Option<u64> {
    if exists|i: int| newest_deep(ring, anchor_cutoff(sink), i) {
        let i = choose|i: int| newest_deep(ring, anchor_cutoff(sink), i);
        Some(ring[i].1)
    } else {
        None
    }
}

/// The leaf count of the newest boundary that is deep enough to anchor a spend.
pub fn matured_in(ring: &[(u64, u64)], sink: u64) -> (r: Option<u64>)
    ensures
        r == matured(ring@, sink),
{
    let cutoff: u64 = if sink >= DEFAULT_ANCHOR_DEPTH + ANCHOR_SLACK {
        sink - DEFAULT_ANCHOR_DEPTH - ANCHOR_SLACK
    } else {
        0
    };
    let mut i: usize = ring.len();
    while i > 0
        invariant
            0 <= i <= ring@.len(),
            cutoff == anchor_cutoff(sink),
            forall|j: int| i <= j < ring@.len() ==> (#[trigger] ring@[j]).0 > cutoff,
        decreases i,
    {
        i = i - 1;
        if ring[i].0 <= cutoff {
            proof {
                assert(newest_deep(ring@, cutoff, i as int));
                let k = choose|k: int| newest_deep(ring@, cutoff, k);
                if k < i {
                    assert(ring@[i as int].0 > cutoff);
                } else if i < k {
                    assert(ring@[k].0 > cutoff);
                }
            }
            return Some(ring[i].1);
        }
    }
    None
}

impl WalletEntry {
    /// The leaf count of the newest boundary that is deep enough to anchor a spend.
    pub fn matured_leaves(&self) -> (r: Option<u64>)
        ensures
            r == matured(self.ring@, self.sink_blue),
    {
        matured_in(self.ring.as_slice(), self.sink_blue)
    }
}

/// A bundle shares a nullifier with the set.
pub open spec fn meets(b: BundleV, set: Set<Seq<u8>>) -> bool {
    exists|i: int| 0 <= i < b.actions.len() && set.contains((#[trigger] b.actions[i]).nullifier)
}

/// The bundles that share no nullifier with the set.
pub open spec fn fresh(bundles: Seq<BundleV>, set: Set<Seq<u8>>) -> Seq<BundleV>
    decreases bundles.len(),
{
    if bundles.len() == 0 {
        Seq::empty()
    } else if meets(bundles.last(), set) {
        fresh(bundles.drop_last(), set)
    } else {
        fresh(bundles.drop_last(), set).push(bundles.last())
    }
}

fn reveals_any(b: &ShieldedBundle, set: &MemNullifierSet) -> (r: bool)
    ensures
        r == meets(b@, set@),
{
    broadcast use MemNullifierSet::lemma_spent;

    let ghost spent = set@;
    let mut i: usize = 0;
    while i < b.actions.len()
        invariant
            0 <= i <= b.actions@.len(),
            spent == set@,
            set.spent() == set@,
            forall|j: int| 0 <= j < i ==> !spent.contains((#[trigger] b@.actions[j]).nullifier),
        decreases b.actions@.len() - i,
    {
        if set.contains(&b.actions[i].nullifier) {
            assert(spent.contains(b@.actions[i as int].nullifier));
            return true;
        }
        i = i + 1;
    }
    false
}

proof fn lemma_fresh_count(bundles: Seq<BundleV>, set: Set<Seq<u8>>)
    ensures
        action_count(fresh(bundles, set)) <= action_count(bundles),
    decreases bundles.len(),
{
    if bundles.len() > 0 {
        lemma_fresh_count(bundles.drop_last(), set);
        let f = fresh(bundles.drop_last(), set);
        assert(f.push(bundles.last()).drop_last() =~= f);
    }
}

impl WalletEntry {
    /// Previews what waits in the mempool. A bundle that the blocks which are not settled
    /// hold already is not counted again.
    pub fn scan_mempool(&mut self, bundles: &Vec<ShieldedBundle>)
        requires
            old(self).db.wf(),
            action_count(held_views(bundles@)) <= u64::MAX,
        ensures
            *final(self) == (WalletEntry { mempool: final(self).mempool, ..*old(self) }),
            ({
                let seen = fresh(held_views(bundles@), old(self).unsettled@);
                &&& final(self).mempool.incoming == old(self).db@.bundles_incoming(seen)
                &&& final(self).mempool.outgoing == old(self).db@.bundles_outgoing(seen)
            }),
    {
        let ghost all = held_views(bundles@);
        let ghost set = self.unsettled@;
        let mut refs: Vec<&ShieldedBundle> = Vec::new();
        let mut i: usize = 0;
        proof {
            assert(all.take(0) =~= Seq::<BundleV>::empty());
            assert(bundle_views(refs@) =~= Seq::<BundleV>::empty());
        }
        while i < bundles.len()
            invariant
                0 <= i <= bundles@.len(),
                all == held_views(bundles@),
                set == self.unsettled@,
                bundle_views(refs@) == fresh(all.take(i as int), set),
            decreases bundles@.len() - i,
        {
            let ghost before = refs@;
            proof {
                assert(all.take(i + 1).drop_last() =~= all.take(i as int));
                assert(all.take(i + 1).last() == bundles@[i as int]@);
            }
            if !reveals_any(&bundles[i], &self.unsettled) {
                refs.push(&bundles[i]);
                assert(bundle_views(refs@) =~= bundle_views(before).push(bundles@[i as int]@));
            }
            i = i + 1;
        }
        proof {
            assert(all.take(i as int) =~= all);
            lemma_fresh_count(all, set);
            assert(self.db@.coinbase_incoming(Seq::empty()) == 0);
        }
        let none: Vec<(CoinbaseNoteDesc, u64)> = Vec::new();
        assert(none@ =~= Seq::<(CoinbaseNoteDesc, u64)>::empty());
        let preview: Preview = self.db.preview_block(none.as_slice(), refs.as_slice());
        self.mempool = preview;
    }
}

proof fn lemma_after_blocks_prefix(w: WalletV, a: Seq<DecodedBlock>, b: Seq<DecodedBlock>, k: int)
    requires
        0 <= k <= a.len(),
    ensures
        after_blocks(w, a + b, k) == after_blocks(w, a, k),
    decreases k,
{
    if k > 0 {
        lemma_after_blocks_prefix(w, a, b, k - 1);
        assert((a + b)[k - 1] == a[k - 1]);
    }
}

/// How the chain is cut into pages does not matter: following one page and then another is
/// following the two as one.
pub proof fn pages_follow_as_one(w: WalletV, a: Seq<DecodedBlock>, b: Seq<DecodedBlock>, k: int)
    requires
        0 <= k <= b.len(),
    ensures
        after_blocks(w, a + b, a.len() + k) == after_blocks(
            after_blocks(w, a, a.len() as int),
            b,
            k,
        ),
    decreases k,
{
    if k > 0 {
        pages_follow_as_one(w, a, b, k - 1);
        assert((a + b)[a.len() + k - 1] == b[k - 1]);
    } else {
        lemma_after_blocks_prefix(w, a, b, a.len() as int);
    }
}

/// No boundary is past the end of the tree.
pub open spec fn ring_within(ring: Seq<(u64, u64)>, w: WalletV) -> bool {
    forall|i: int| 0 <= i < ring.len() ==> (#[trigger] ring[i]).1 <= w.size()
}

proof fn lemma_bundles_grow(w: WalletV, bundles: Seq<BundleV>)
    ensures
        w.bundles(bundles).size() >= w.size(),
    decreases bundles.len(),
{
    if bundles.len() > 0 {
        lemma_bundles_grow(w, bundles.drop_last());
        let v = w.bundles(bundles.drop_last());
        let b = bundles.last();
        lemma_actions_size(v, b.actions, b.actions.len() as int);
    }
}

proof fn lemma_block_grows(w: WalletV, b: DecodedBlock)
    ensures
        after_block(w, b).size() >= w.size(),
{
    lemma_coinbase_size(w, b.coinbase@);
    lemma_bundles_grow(w.coinbase_precomputed(b.coinbase@), held_views(b.bundles@));
}

/// Boundaries stay within the tree: a spend never gets an anchor that the wallet's tree does
/// not reach.
pub proof fn boundaries_stay_within_the_tree(
    ring: Seq<(u64, u64)>,
    w: WalletV,
    blocks: Seq<DecodedBlock>,
    k: int,
    sink: u64,
)
    requires
        0 <= k <= blocks.len(),
        ring_within(ring, w),
        w.size() + total_weight(blocks) <= u64::MAX,
    ensures
        ring_within(ring_after(ring, w, blocks, k), after_blocks(w, blocks, k)),
        matured(ring_after(ring, w, blocks, k), sink) matches Some(leaves) ==> leaves
            <= after_blocks(w, blocks, k).size(),
    decreases k,
{
    lemma_after_blocks_size(w, blocks, k);
    if k > 0 {
        boundaries_stay_within_the_tree(ring, w, blocks, k - 1, sink);
        let v = after_blocks(w, blocks, k - 1);
        lemma_block_grows(v, blocks[k - 1]);
        let before = ring_after(ring, w, blocks, k - 1);
        let e = (blocks[k - 1].blue_score, after_blocks(w, blocks, k).size() as u64);
        let now = ring_push(before, e);
        assert forall|i: int| 0 <= i < now.len() implies (#[trigger] now[i]).1 <= after_blocks(
            w,
            blocks,
            k,
        ).size() by {
            let r = before.push(e);
            let j = if r.len() > MATURED_RING {
                i + 1
            } else {
                i
            };
            assert(now[i] == r[j]);
            if j < before.len() {
                assert(before[j].1 <= v.size());
            }
        }
    }
    let all = ring_after(ring, w, blocks, k);
    if exists|i: int| newest_deep(all, anchor_cutoff(sink), i) {
        let i = choose|i: int| newest_deep(all, anchor_cutoff(sink), i);
        assert(all[i].1 <= after_blocks(w, blocks, k).size());
    }
}

proof fn lemma_after_blocks_size(w: WalletV, blocks: Seq<DecodedBlock>, k: int)
    requires
        0 <= k <= blocks.len(),
    ensures
        after_blocks(w, blocks, k).size() <= w.size() + total_weight(blocks.take(k)),
        total_weight(blocks.take(k)) <= total_weight(blocks),
    decreases k,
{
    if k > 0 {
        lemma_after_blocks_size(w, blocks, k - 1);
        lemma_total_weight(blocks, k - 1);
        blocks_append_at_most_their_weight(after_blocks(w, blocks, k - 1), blocks[k - 1]);
    } else {
        assert(blocks.take(0) =~= Seq::<DecodedBlock>::empty());
    }
}

/// What the mempool preview counts reveals no nullifier that the blocks which are not
/// settled reveal, so nothing is counted from both.
pub proof fn the_mempool_is_not_counted_twice(bundles: Seq<BundleV>, set: Set<Seq<u8>>, i: int)
    requires
        0 <= i < fresh(bundles, set).len(),
    ensures
        !meets(fresh(bundles, set)[i], set),
    decreases bundles.len(),
{
    let before = fresh(bundles.drop_last(), set);
    if i < before.len() {
        the_mempool_is_not_counted_twice(bundles.drop_last(), set, i);
    }
}

/// Previews add up: what two runs of blocks pay and spend is what each of them does, one
/// block alone pays what its coinbase and its bundles pay, and spends what its bundles spend.
pub proof fn previews_add_up(
    w: WalletV,
    a: Seq<DecodedBlock>,
    b: Seq<DecodedBlock>,
    block: DecodedBlock,
)
    ensures
        blocks_incoming(w, a + b) == blocks_incoming(w, a) + blocks_incoming(w, b),
        blocks_outgoing(w, a + b) == blocks_outgoing(w, a) + blocks_outgoing(w, b),
        blocks_incoming(w, seq![block]) == w.coinbase_incoming(pairs_of(block.coinbase@))
            + w.bundles_incoming(held_views(block.bundles@)),
        blocks_outgoing(w, seq![block]) == w.bundles_outgoing(held_views(block.bundles@)),
    decreases b.len(),
{
    let one = seq![block];
    assert(one.drop_last() =~= Seq::<DecodedBlock>::empty());
    assert(one.last() == block);
    assert(blocks_incoming(w, one.drop_last()) == 0);
    assert(blocks_outgoing(w, one.drop_last()) == 0);
    if b.len() == 0 {
        assert(a + b =~= a);
    } else {
        previews_add_up(w, a, b.drop_last(), block);
        assert((a + b).drop_last() =~= a + b.drop_last());
        assert((a + b).last() == b.last());
    }
}

/// A nullifier counts as revealed exactly where some action of some bundle of some block
/// reveals it.
pub proof fn revealed_means_shown(blocks: Seq<DecodedBlock>, nf: Seq<u8>)
    ensures
        revealed_in(blocks).contains(nf) <==> exists|b: int|
            0 <= b < blocks.len() && reveals_in(held_views((#[trigger] blocks[b]).bundles@), nf),
    decreases blocks.len(),
{
    if blocks.len() > 0 {
        let front = blocks.drop_last();
        let last = blocks.len() - 1;
        revealed_means_shown(front, nf);
        lemma_revealed_by(held_views(blocks.last().bundles@), nf);
        if revealed_in(front).contains(nf) {
            let b = choose|b: int|
                0 <= b < front.len() && reveals_in(held_views((#[trigger] front[b]).bundles@), nf);
            assert(blocks[b] == front[b]);
        }
        if exists|b: int|
            0 <= b < blocks.len() && reveals_in(held_views((#[trigger] blocks[b]).bundles@), nf) {
            let b = choose|b: int|
                0 <= b < blocks.len() && reveals_in(held_views((#[trigger] blocks[b]).bundles@), nf);
            if b < last {
                assert(front[b] == blocks[b]);
            }
        }
        if revealed_by(held_views(blocks.last().bundles@)).contains(nf) {
            assert(reveals_in(held_views(blocks[last].bundles@), nf));
        }
    }
}

proof fn lemma_revealed_by(bundles: Seq<BundleV>, nf: Seq<u8>)
    ensures
        revealed_by(bundles).contains(nf) <==> reveals_in(bundles, nf),
    decreases bundles.len(),
{
    if bundles.len() > 0 {
        let front = bundles.drop_last();
        let last = bundles.len() - 1;
        let nfs = bundles.last().nullifiers();
        lemma_revealed_by(front, nf);
        if revealed_by(front).contains(nf) {
            let b = choose|b: int| 0 <= b < front.len() && shows((#[trigger] front[b]).actions, nf);
            assert(shows(bundles[b].actions, nf));
        }
        if nfs.contains(nf) {
            let i = choose|i: int| 0 <= i < nfs.len() && nfs[i] == nf;
            assert(bundles[last].actions[i].nullifier == nf);
            assert(shows(bundles[last].actions, nf));
        }
        if reveals_in(bundles, nf) {
            let b = choose|b: int|
                0 <= b < bundles.len() && shows((#[trigger] bundles[b]).actions, nf);
            let actions = bundles[b].actions;
            let i = choose|i: int|
                0 <= i < actions.len() && (#[trigger] actions[i]).nullifier == nf;
            if b < last {
                assert(shows(front[b].actions, nf));
            } else {
                assert(nfs[i] == nf);
            }
        }
    }
}

/// A block enters the tree exactly where it is deep enough: the settled ones are a margin
/// below the sink (or at the very start), and the first that is not settled is not.
pub proof fn settled_blocks_are_deep(blocks: Seq<DecodedBlock>, sink: u64, k: int, j: int)
    requires
        settles(blocks, settled_below(sink), k),
        0 <= j < k,
    ensures
        blocks[j].blue_score + 200 <= sink || blocks[j].blue_score == 0,
        k < blocks.len() ==> blocks[k].blue_score + 200 > sink && blocks[k].blue_score > 0,
{
}

/// How many blocks of a page are settled is determined.
pub proof fn settling_is_determined(blocks: Seq<DecodedBlock>, settled: u64, a: int, b: int)
    requires
        settles(blocks, settled, a),
        settles(blocks, settled, b),
    ensures
        a == b,
{
    if a < b {
        assert(blocks[a].blue_score <= settled);
    } else if b < a {
        assert(blocks[b].blue_score <= settled);
    }
}

/// An anchor is the leaf count at a boundary that is deep enough, and at the newest of those;
/// there is none exactly where no boundary is deep enough.
pub proof fn anchors_are_deep_enough(ring: Seq<(u64, u64)>, sink: u64)
    ensures
        matured(ring, sink) matches Some(leaves) ==> exists|i: int|
            0 <= i < ring.len() && (#[trigger] ring[i]).1 == leaves && (ring[i].0 + 630 <= sink
                || ring[i].0 == 0) && forall|j: int|
                i < j < ring.len() ==> (#[trigger] ring[j]).0 + 630 > sink && ring[j].0 > 0,
        matured(ring, sink) is None ==> forall|j: int|
            0 <= j < ring.len() ==> (#[trigger] ring[j]).0 + 630 > sink && ring[j].0 > 0,
{
    let cutoff = anchor_cutoff(sink);
    if matured(ring, sink) is None {
        lemma_none_deep(ring, cutoff, ring.len() as int);
    } else {
        let i = choose|i: int| newest_deep(ring, cutoff, i);
        assert(ring[i].1 == matured(ring, sink)->Some_0);
    }
}

proof fn lemma_none_deep(ring: Seq<(u64, u64)>, cutoff: u64, n: int)
    requires
        0 <= n <= ring.len(),
        forall|i: int| !newest_deep(ring, cutoff, i),
        forall|j: int| n <= j < ring.len() ==> (#[trigger] ring[j]).0 > cutoff,
    ensures
        forall|j: int| 0 <= j < ring.len() ==> (#[trigger] ring[j]).0 > cutoff,
    decreases n,
{
    if n > 0 {
        assert(!newest_deep(ring, cutoff, n - 1));
        lemma_none_deep(ring, cutoff, n - 1);
    }
}

/// The boundaries of the last blocks are at hand: each of the last few has its blue score and
/// the leaf count behind it in the ring, in order, and what stood there before makes room
/// only when the ring is full.
pub proof fn the_latest_boundaries_are_kept(
    ring: Seq<(u64, u64)>,
    w: WalletV,
    blocks: Seq<DecodedBlock>,
    k: int,
)
    requires
        0 <= k <= blocks.len(),
        ring.len() <= MATURED_RING,
    ensures
        ({
            let after = ring_after(ring, w, blocks, k);
            let n = after.len() as int;
            &&& n == (if ring.len() + k <= MATURED_RING {
                ring.len() + k
            } else {
                MATURED_RING as int
            })
            &&& forall|j: int|
                0 <= j < k && k - j <= n ==> #[trigger] after[n - (k - j)] == (
                    blocks[j].blue_score,
                    after_blocks(w, blocks, j + 1).size() as u64,
                )
            &&& forall|j: int|
                0 <= j < ring.len() && ring.len() - j + k <= n ==> #[trigger] after[n - (ring.len()
                    - j + k)] == ring[j]
        }),
    decreases k,
{
    if k > 0 {
        the_latest_boundaries_are_kept(ring, w, blocks, k - 1);
        let before = ring_after(ring, w, blocks, k - 1);
        let after = ring_after(ring, w, blocks, k);
        let m = before.len() as int;
        let n = after.len() as int;
        assert forall|j: int| 0 <= j < k && k - j <= n implies #[trigger] after[n - (k - j)] == (
            blocks[j].blue_score,
            after_blocks(w, blocks, j + 1).size() as u64,
        ) by {
            if j < k - 1 {
                assert(before[m - (k - 1 - j)] == after[n - (k - j)]);
            }
        }
        assert forall|j: int| 0 <= j < ring.len() && ring.len() - j + k <= n implies #[trigger]
            after[n - (ring.len() - j + k)] == ring[j] by {
            assert(before[m - (ring.len() - j + (k - 1))] == after[n - (ring.len() - j + k)]);
        }
    }
}

/// A bundle of the mempool is previewed exactly where it shares no nullifier with the blocks
/// that are not settled; the others keep their order.
pub proof fn fresh_bundles_are_previewed(
    a: Seq<BundleV>,
    b: Seq<BundleV>,
    one: BundleV,
    set: Set<Seq<u8>>,
)
    ensures
        fresh(a + b, set) == fresh(a, set) + fresh(b, set),
        fresh(seq![one], set) == (if exists|nf: Seq<u8>| #[trigger]
            one.nullifiers().contains(nf) && set.contains(nf) {
            Seq::empty()
        } else {
            seq![one]
        }),
    decreases b.len(),
{
    let single = seq![one];
    assert(single.drop_last() =~= Seq::<BundleV>::empty());
    assert(fresh(single.drop_last(), set) =~= Seq::<BundleV>::empty());
    assert(Seq::<BundleV>::empty().push(one) =~= single);
    if meets(one, set) {
        let i = choose|i: int|
            0 <= i < one.actions.len() && set.contains((#[trigger] one.actions[i]).nullifier);
        assert(one.nullifiers()[i] == one.actions[i].nullifier);
        assert(one.nullifiers().contains(one.actions[i].nullifier));
    }
    if exists|nf: Seq<u8>| #[trigger] one.nullifiers().contains(nf) && set.contains(nf) {
        let nf = choose|nf: Seq<u8>| #[trigger]
            one.nullifiers().contains(nf) && set.contains(nf);
        let i = choose|i: int| 0 <= i < one.nullifiers().len() && one.nullifiers()[i] == nf;
        assert(one.actions[i].nullifier == nf);
    }
    if b.len() == 0 {
        assert(a + b =~= a);
        assert(fresh(a, set) + fresh(b, set) =~= fresh(a, set));
    } else {
        fresh_bundles_are_previewed(a, b.drop_last(), one, set);
        assert((a + b).drop_last() =~= a + b.drop_last());
        assert((a + b).last() == b.last());
        assert(fresh(a + b, set) =~= fresh(a, set) + fresh(b, set));
    }
}

/// Behind a page the cursor stands at the last block that entered the tree, the newest
/// boundary is that block's with the wallet's own leaf count, and a page of which nothing is
/// settled moves nothing.
pub proof fn cursors_stand_at_the_last_settled_block(
    before: WalletEntry,
    after: WalletEntry,
    page: DecodedPage,
    k: int,
    outcome: PageOutcome,
)
    requires
        settles(page.blocks@, settled_below(page.sink_blue_score), k),
        followed(before, after, page, k, outcome),
        before.ring@.len() <= MATURED_RING,
    ensures
        k > 0 ==> after.low == page.blocks@[k - 1].hash,
        k > 0 ==> after.scanned == page.blocks@[k - 1].daa_score,
        k > 0 ==> after.ring@.last() == (page.blocks@[k - 1].blue_score, after.db@.size() as u64),
        k == 0 ==> after.low == before.low && after.scanned == before.scanned && after.ring@
            == before.ring@ && after.db@ == before.db@,
        after.sink_blue == page.sink_blue_score,
        outcome == PageOutcome::More ==> k == page.blocks@.len() && k > 0,
        k < page.blocks@.len() ==> outcome == PageOutcome::CaughtUp && after.caught_up,
{
    the_latest_boundaries_are_kept(before.ring@, before.db@, page.blocks@, k);
    if k > 0 {
        let n = after.ring@.len() as int;
        assert(after.ring@[n - (k - (k - 1))] == (
            page.blocks@[k - 1].blue_score,
            after_blocks(before.db@, page.blocks@, k).size() as u64,
        ));
    }
}

/// The history only grows, at its end, by what the settled blocks say; it stays as it is where
/// the user does not want one.
pub proof fn histories_only_grow(e: WalletEntry, blocks: Seq<DecodedBlock>, j: int, k: int)
    requires
        0 <= j <= k <= blocks.len(),
    ensures
        history_after(e, blocks, j).len() <= history_after(e, blocks, k).len(),
        history_after(e, blocks, k).take(history_after(e, blocks, j).len() as int)
            == history_after(e, blocks, j),
        history_after(e, blocks, 0) == entry_views(e.history@),
        !e.recoverable_history ==> history_after(e, blocks, k) == entry_views(e.history@),
        e.recoverable_history && j < k ==> forall|x: EntryV| #[trigger]
            block_entries(
                after_blocks(e.db@, blocks, j),
                all_held(after_blocks(e.db@, blocks, j).notes, parked_views(e.parked@)),
                blocks[j],
            ).contains(x) ==> history_after(e, blocks, k).contains(x),
    decreases k,
{
    let old_len = history_after(e, blocks, j).len() as int;
    let w = after_blocks(e.db@, blocks, j);
    let said = block_entries(w, all_held(w.notes, parked_views(e.parked@)), blocks[j]);
    if j == k {
        assert(history_after(e, blocks, k).take(old_len) =~= history_after(e, blocks, j));
        if k > 0 {
            histories_only_grow(e, blocks, k - 1, k - 1);
        }
    } else {
        histories_only_grow(e, blocks, j, k - 1);
        let front = history_after(e, blocks, k - 1);
        let now = history_after(e, blocks, k);
        assert(now.take(front.len() as int) =~= front);
        assert(now.take(old_len) =~= front.take(old_len));
        if e.recoverable_history {
            assert forall|x: EntryV| #[trigger] said.contains(x) implies now.contains(x) by {
                if j == k - 1 {
                    let i = choose|i: int| 0 <= i < said.len() && said[i] == x;
                    assert(now[front.len() + i] == x);
                } else {
                    assert(front.contains(x));
                    let i = choose|i: int| 0 <= i < front.len() && front[i] == x;
                    assert(now[i] == x);
                }
            }
        }
    }
}

} // verus!
