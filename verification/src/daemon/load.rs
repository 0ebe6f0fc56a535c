//! How a wallet gets into memory: resumed from its checkpoint, started at a block near its
//! birthday, or scanned in full; and what a pass of the sync loop leaves to do.

use crate::daemon::blocks::{ingest_shielded_chain_block, ChainBlock};
use crate::daemon::parked::{all_takable, parked_views, reclaims};
use crate::daemon::scanfile::{
    agrees, check_tip, checkpoint_cursor, cursor_of, load_checkpoint, resumable, ScanV,
};
use crate::daemon::sync::{
    anchor_cutoff, SyncError, WalletEntry, ANCHOR_SLACK, DEFAULT_ANCHOR_DEPTH, REORG_STRIKES,
};
use crate::daemon::vault::{KeyV, WalletKey};
use crate::bytes::same;
use crate::tree::{FrontierState, GlobalTree};
use crate::walletdb::{action_count, WalletDb, WalletV};
use vstd::prelude::*;

verus! {

/// After how many new blocks a checkpoint is written.
pub const CHECKPOINT_EVERY: u64 = 1000;

/// How many blocks a page of the birthday walk has.
pub const WALK_PAGE: u64 = 2000;

/// What a wallet's checkpoint gives.
pub enum Resume {
    /// The wallet resumes.
    Entry(WalletEntry),
    /// The wallet must be scanned. A checkpoint that the node's tree refutes is kept aside
    /// first.
    Scan { quarantine: bool },
}

/// What a file resumes on this chain.
pub open spec fn resumable_here(
    scan: Option<&[u8]>,
    key: KeyV,
    genesis: Seq<u8>,
    tip: Option<&FrontierState>,
) -> Option<(ScanV, WalletV)> {
    match scan {
        None => None,
        Some(s) => match resumable(s@, key, tip) {
            Some((p, w)) => if p.genesis == genesis {
                Some((p, w))
            } else {
                None
            },
            None => None,
        },
    }
}

/// The entry is what the checkpoint resumes.
pub open spec fn resumes(e: WalletEntry, p: ScanV, w: WalletV) -> bool {
    &&& e.db@ == w
    &&& e.low@ == p.low
    &&& e.scanned == p.scanned
    &&& e.saved_scanned == p.scanned
    &&& e.ring@ == p.ring
    &&& e.sink_blue == p.sink_blue
    &&& e.blind_below == p.blind_below
    &&& e.untried()
}

/// Resumes a wallet from its checkpoint, given the node's tree at the checkpoint's cursor.
pub fn resume(
    scan: Option<&[u8]>,
    key: WalletKey,
    recoverable_history: bool,
    genesis: [u8; 32],
    tip: Option<&FrontierState>,
) -> (r: Resume)
    ensures
        match r {
            Resume::Entry(e) => {
                &&& resumable_here(scan, key@, genesis@, tip) is Some
                &&& e.db.wf()
                &&& e.key == key
                &&& e.recoverable_history == recoverable_history
                &&& e.genesis == genesis
                &&& resumes(
                    e,
                    resumable_here(scan, key@, genesis@, tip)->Some_0.0,
                    resumable_here(scan, key@, genesis@, tip)->Some_0.1,
                )
            },
            Resume::Scan { quarantine } => {
                &&& resumable_here(scan, key@, genesis@, tip) is None
                &&& quarantine == (tip is Some && scan is Some && cursor_of(
                    scan->Some_0@,
                    genesis@,
                ) is Some)
            },
        },
{
    match scan {
        None => Resume::Scan { quarantine: false },
        Some(s) => match load_checkpoint(s, &key, &genesis, tip) {
            Some((p, db)) => {
                let mut e: WalletEntry = WalletEntry::from_parts(
                    key,
                    recoverable_history,
                    db,
                    genesis,
                    p.low,
                    p.scanned,
                    p.ring,
                    p.sink_blue,
                );
                e.blind_below = p.blind_below;
                Resume::Entry(e)
            },
            None => Resume::Scan {
                quarantine: tip.is_some() && checkpoint_cursor(s, &genesis).is_some(),
            },
        },
    }
}

/// Whether a wallet may start at the node's checkpoint: only one born at or after it misses
/// nothing.
pub fn fast_sync_applies(birthday: u64, checkpoint_daa: u64) -> (r: bool)
    ensures
        r == (birthday >= checkpoint_daa),
{
    birthday >= checkpoint_daa
}

/// A wallet that starts at a block, with the node's tree there.
pub fn entry_at(
    key: WalletKey,
    recoverable_history: bool,
    genesis: [u8; 32],
    start: [u8; 32],
    daa_score: u64,
    fs: &FrontierState,
) -> (r: Option<WalletEntry>)
    ensures
        r is Some <==> key@.viewing() is Some && fs.consistent(),
        r matches Some(e) ==> {
            &&& e.db.wf()
            &&& e.db@.tidy()
            &&& e.db@ == WalletV::fresh(key@.viewing()->Some_0).rebased(fs.tree())
            &&& e.key == key
            &&& e.recoverable_history == recoverable_history
            &&& e.genesis == genesis
            &&& e.low == start
            &&& e.scanned == daa_score
            &&& e.saved_scanned == daa_score
            &&& e.ring@.len() == 0
            &&& e.sink_blue == 0
            &&& e.untried()
            &&& e.blind_below == 0
        },
{
    match key.db_from_frontier(fs) {
        Some(db) => Some(
            WalletEntry::from_parts(
                key,
                recoverable_history,
                db,
                genesis,
                start,
                daa_score,
                Vec::new(),
                0,
            ),
        ),
        None => None,
    }
}

/// Below which leaf a wallet that is scanned from the pruning point is blind: a wallet that
/// is older than that point may hold notes that the node no longer serves.
pub open spec fn blind_at(birthday: u64, daa_score: u64, size: u64) -> u64 {
    if size > 0 && birthday < daa_score {
        size
    } else {
        0
    }
}

/// A wallet that is scanned from the pruning point on. The node must have answered for that
/// very block.
pub fn full_scan_entry(
    key: WalletKey,
    recoverable_history: bool,
    genesis: [u8; 32],
    birthday: u64,
    pruning_point: [u8; 32],
    answered: [u8; 32],
    daa_score: u64,
    fs: &FrontierState,
) -> (r: Option<WalletEntry>)
    ensures
        r is Some <==> answered@ == pruning_point@ && key@.viewing() is Some && fs.consistent(),
        r matches Some(e) ==> {
            &&& e.db.wf()
            &&& e.db@.tidy()
            &&& e.db@ == WalletV::fresh(key@.viewing()->Some_0).rebased(fs.tree())
            &&& e.key == key
            &&& e.recoverable_history == recoverable_history
            &&& e.genesis == genesis
            &&& e.low == pruning_point
            &&& e.scanned == daa_score
            &&& e.saved_scanned == daa_score
            &&& e.ring@.len() == 0
            &&& e.sink_blue == 0
            &&& e.untried()
            &&& e.blind_below == blind_at(birthday, daa_score, fs.size)
        },
{
    if !same(&answered, &pruning_point) {
        return None;
    }
    match entry_at(key, recoverable_history, genesis, pruning_point, daa_score, fs) {
        Some(mut e) => {
            if fs.size > 0 && birthday < daa_score {
                e.blind_below = fs.size;
            }
            Some(e)
        },
        None => None,
    }
}

/// What the birthday walk does next.
#[derive(Debug, Clone, Copy, PartialEq, Eq)]
pub enum WalkStep {
    /// Fetch the page behind this block.
    Fetch([u8; 32]),
    /// Start at this block.
    StartAt([u8; 32]),
    /// Start at the checkpoint.
    GiveUp,
}

/// The first block of the page that is not older than the birthday.
pub open spec fn first_born(page: Seq<([u8; 32], u64)>, birthday: u64, i: int) -> bool {
    &&& 0 <= i < page.len()
    &&& page[i].1 >= birthday
    &&& forall|j: int| 0 <= j < i ==> (#[trigger] page[j]).1 < birthday
}

/// What a page says: where it reaches the birthday, the wallet starts at the last block
/// before, so that the birthday's own block is scanned; a short page is the end of the chain,
/// and the wallet starts there.
pub open spec fn walk_next(
    reorged: bool,
    page: Seq<([u8; 32], u64)>,
    base: Option<[u8; 32]>,
    birthday: u64,
) -> WalkStep {
    if reorged || page.len() == 0 {
        WalkStep::GiveUp
    } else if page.last().1 >= birthday {
        let i = choose|i: int| first_born(page, birthday, i);
        if i > 0 {
            WalkStep::StartAt(page[i - 1].0)
        } else {
            match base {
                Some(b) => WalkStep::StartAt(b),
                None => WalkStep::GiveUp,
            }
        }
    } else if page.len() < WALK_PAGE {
        WalkStep::StartAt(page.last().0)
    } else {
        WalkStep::Fetch(page.last().0)
    }
}

/// One step of the walk along the selected chain to a wallet's birthday: `page` has hash and
/// height of each block behind the last, `base` the last block of the pages before.
pub fn walk_step(
    reorged: bool,
    page: &[([u8; 32], u64)],
    base: Option<[u8; 32]>,
    birthday: u64,
) -> (step: WalkStep)
    ensures
        step == walk_next(reorged, page@, base, birthday),
{
    if reorged || page.len() == 0 {
        return WalkStep::GiveUp;
    }
    let last: ([u8; 32], u64) = page[page.len() - 1];
    if last.1 < birthday {
        return if (page.len() as u64) < WALK_PAGE {
            WalkStep::StartAt(last.0)
        } else {
            WalkStep::Fetch(last.0)
        };
    }
    let mut i: usize = 0;
    while page[i].1 < birthday
        invariant
            0 <= i < page@.len(),
            page@.last().1 >= birthday,
            forall|j: int| 0 <= j < i ==> (#[trigger] page@[j]).1 < birthday,
        decreases page@.len() - i,
    {
        i = i + 1;
    }
    proof {
        assert(first_born(page@, birthday, i as int));
        let k = choose|k: int| first_born(page@, birthday, k);
        if k < i {
            assert(page@[k].1 < birthday);
        } else if i < k {
            assert(page@[i as int].1 < birthday);
        }
    }
    if i > 0 {
        WalkStep::StartAt(page[i - 1].0)
    } else {
        match base {
            Some(b) => WalkStep::StartAt(b),
            None => WalkStep::GiveUp,
        }
    }
}

/// What a pass leaves to do.
#[derive(Debug, Clone, Copy, PartialEq, Eq, Structural)]
pub enum SyncOutcome {
    /// The cursor is gone: put the checkpoint aside and load the wallet anew.
    Retired,
    /// There is more to follow.
    Behind,
    /// The wallet is at the tip.
    Idle,
}

/// A checkpoint is due: enough new blocks, the tip reached for the first time, or one was
/// asked for; never while something is wrong.
pub open spec fn checkpoint_due(e: WalletEntry, was_caught_up: bool) -> bool {
    &&& e.error is None
    &&& e.scanned >= e.saved_scanned + CHECKPOINT_EVERY || (e.caught_up && !was_caught_up
        && e.scanned > e.saved_scanned) || e.force_checkpoint
}

/// What a pass over a wallet comes to, and whether a checkpoint is due.
pub open spec fn settled_pass(e: WalletEntry, was_caught_up: bool) -> (SyncOutcome, bool) {
    if e.strikes >= REORG_STRIKES {
        (SyncOutcome::Retired, false)
    } else if e.strikes > 0 {
        (SyncOutcome::Behind, false)
    } else {
        (
            if e.caught_up {
                SyncOutcome::Idle
            } else {
                SyncOutcome::Behind
            },
            checkpoint_due(e, was_caught_up),
        )
    }
}

/// What a pass leaves to do, and whether a checkpoint is due. A wallet whose cursor is in
/// doubt writes none.
pub fn settle_pass(e: &WalletEntry, was_caught_up: bool) -> (r: (SyncOutcome, bool))
    ensures
        r == settled_pass(*e, was_caught_up),
{
    if e.strikes >= REORG_STRIKES {
        return (SyncOutcome::Retired, false);
    }
    if e.strikes > 0 {
        return (SyncOutcome::Behind, false);
    }
    let advanced: u64 = if e.scanned >= e.saved_scanned {
        e.scanned - e.saved_scanned
    } else {
        0
    };
    let due: bool = e.error.is_none() && (advanced >= CHECKPOINT_EVERY || (e.caught_up
        && !was_caught_up && advanced > 0) || e.force_checkpoint);
    if e.caught_up {
        (SyncOutcome::Idle, due)
    } else {
        (SyncOutcome::Behind, due)
    }
}

/// Ends a pass over a wallet: one whose cursor is not in doubt gets the notes of lost payments
/// back, before it is settled what to do next. Returns that, whether a checkpoint is due, and
/// the payments that were lost.
pub fn close_pass(e: &mut WalletEntry, was_caught_up: bool) -> (r: (
    SyncOutcome,
    bool,
    Vec<([u8; 32], u64)>,
))
    requires
        old(e).db.wf(),
    ensures
        final(e).db.wf(),
        old(e).db@.tidy() && all_takable(old(e).db@, parked_views(old(e).parked@))
            ==> final(e).db@.tidy() && all_takable(final(e).db@, parked_views(final(e).parked@)),
        old(e).strikes > 0 ==> *final(e) == *old(e) && r.2@.len() == 0,
        old(e).strikes == 0 ==> reclaims(*old(e), *final(e), r.2@),
        (r.0, r.1) == settled_pass(*final(e), was_caught_up),
{
    let lost: Vec<([u8; 32], u64)> = if e.strikes == 0 {
        e.reclaim_expired()
    } else {
        Vec::new()
    };
    let (outcome, due) = settle_pass(e, was_caught_up);
    (outcome, due, lost)
}

impl WalletEntry {
    /// A checkpoint was written.
    pub fn mark_saved(&mut self)
        ensures
            *final(self) == (WalletEntry {
                saved_scanned: old(self).scanned,
                force_checkpoint: false,
                ..*old(self)
            }),
    {
        self.saved_scanned = self.scanned;
        self.force_checkpoint = false;
    }
}

/// The birthday to keep when a viewing key is registered again that is registered already
/// and has a checkpoint to resume: the earlier one, so that no later load skips notes.
pub fn kept_birthday(
    existing: Option<(WalletKey, u64)>,
    fvk: &[u8; 96],
    has_checkpoint: bool,
    birthday: u64,
) -> (r: Option<u64>)
    ensures
        r == (match existing {
            Some((key, stored)) => if key@ == KeyV::Fvk(fvk@) && has_checkpoint {
                Some(
                    if stored <= birthday {
                        stored
                    } else {
                        birthday
                    },
                )
            } else {
                None
            },
            None => None,
        }),
{
    match existing {
        Some((WalletKey::Fvk(f), stored)) => if same(&f, fvk) && has_checkpoint {
            if stored <= birthday {
                Some(stored)
            } else {
                Some(birthday)
            }
        } else {
            None
        },
        _ => None,
    }
}

/// The wallet behind the first `k` blocks.
pub open spec fn replayed(w: WalletV, blocks: Seq<ChainBlock>, k: int) -> WalletV
    decreases k,
{
    if k <= 0 {
        w
    } else {
        replayed(w, blocks, k - 1).block(blocks[k - 1])
    }
}

/// What blocks weigh together.
pub open spec fn chain_weight(blocks: Seq<ChainBlock>) -> nat
    decreases blocks.len(),
{
    if blocks.len() == 0 {
        0
    } else {
        chain_weight(blocks.drop_last()) + blocks.last().notes().len() + action_count(
            blocks.last().bundles(),
        )
    }
}

/// The first `k` blocks are deep enough to anchor a spend, and they are all that are.
pub open spec fn deep_prefix(blocks: Seq<ChainBlock>, cutoff: u64, k: int) -> bool {
    &&& 0 <= k <= blocks.len()
    &&& forall|j: int| 0 <= j < k ==> (#[trigger] blocks[j]).blue_score <= cutoff
    &&& k < blocks.len() ==> blocks[k].blue_score > cutoff
}

/// What a page of a replay comes to.
#[derive(Debug, Clone, Copy, PartialEq, Eq)]
pub enum ReplayStep {
    /// The chain changed below the cursor.
    Reorged,
    /// All that is deep enough was replayed.
    Done,
    /// Fetch the page behind this block.
    Fetch([u8; 32]),
}

proof fn lemma_chain_weight(blocks: Seq<ChainBlock>, k: int)
    requires
        0 <= k < blocks.len(),
    ensures
        chain_weight(blocks.take(k + 1)) == chain_weight(blocks.take(k)) + blocks[k].notes().len()
            + action_count(blocks[k].bundles()),
        chain_weight(blocks.take(k + 1)) <= chain_weight(blocks),
    decreases blocks.len() - k,
{
    assert(blocks.take(k + 1).drop_last() =~= blocks.take(k));
    if k + 1 < blocks.len() {
        lemma_chain_weight(blocks, k + 1);
    } else {
        assert(blocks.take(k + 1) =~= blocks);
    }
}

proof fn lemma_mint_size(w: WalletV, notes: Seq<crate::note::NoteV>)
    ensures
        w.mint(notes).size() == w.size() + notes.len(),
        w.mint(notes).base == w.base,
    decreases notes.len(),
{
    if notes.len() > 0 {
        lemma_mint_size(w, notes.drop_last());
    }
}

/// A block appends at most as many leaves as it mints notes and accepts actions.
pub proof fn chain_blocks_append_at_most_their_weight(w: WalletV, b: ChainBlock)
    ensures
        w.block(b).size() <= w.size() + b.notes().len() + action_count(b.bundles()),
{
    lemma_mint_size(w, b.notes());
    crate::daemon::sync::bundles_append_at_most_their_actions(w.mint(b.notes()), b.bundles());
}

/// Replays one page into a wallet, as far as its blocks are deep enough to anchor a spend.
pub fn replay_page(
    db: &mut WalletDb,
    reorged: bool,
    sink_blue: u64,
    blocks: &Vec<ChainBlock>,
) -> (step: ReplayStep)
    requires
        old(db).wf(),
        old(db)@.size() + chain_weight(blocks@) <= u64::MAX,
    ensures
        final(db).wf(),
        old(db)@.tidy() ==> final(db)@.tidy(),
        reorged ==> step == ReplayStep::Reorged && final(db)@ == old(db)@,
        !reorged ==> exists|k: int| #[trigger]
            deep_prefix(blocks@, anchor_cutoff(sink_blue), k) && {
                &&& final(db)@ == replayed(old(db)@, blocks@, k)
                &&& step == (if k < blocks@.len() || k == 0 {
                    ReplayStep::Done
                } else {
                    ReplayStep::Fetch(blocks@[k - 1].hash)
                })
            },
{
    if reorged {
        return ReplayStep::Reorged;
    }
    let cutoff: u64 = if sink_blue >= DEFAULT_ANCHOR_DEPTH + ANCHOR_SLACK {
        sink_blue - DEFAULT_ANCHOR_DEPTH - ANCHOR_SLACK
    } else {
        0
    };
    let ghost start = db@;
    let ghost all = blocks@;
    let mut i: usize = 0;
    assert(all.take(0) =~= Seq::<ChainBlock>::empty());
    while i < blocks.len() && blocks[i].blue_score <= cutoff
        invariant
            0 <= i <= all.len(),
            all == blocks@,
            db.wf(),
            start.tidy() ==> db@.tidy(),
            start.size() + chain_weight(all) <= u64::MAX,
            db@ == replayed(start, all, i as int),
            db@.size() <= start.size() + chain_weight(all.take(i as int)),
            forall|j: int| 0 <= j < i ==> (#[trigger] all[j]).blue_score <= cutoff,
        decreases all.len() - i,
    {
        proof {
            lemma_chain_weight(all, i as int);
            chain_blocks_append_at_most_their_weight(db@, all[i as int]);
        }
        ingest_shielded_chain_block(db, &blocks[i]);
        i = i + 1;
    }
    assert(deep_prefix(all, anchor_cutoff(sink_blue), i as int));
    if i < blocks.len() || i == 0 {
        ReplayStep::Done
    } else {
        ReplayStep::Fetch(blocks[i - 1].hash)
    }
}

/// What checking a wallet against the node's tree at its cursor comes to.
#[derive(Debug, Clone, Copy, PartialEq, Eq, Structural)]
pub enum Canonical {
    /// The wallet's tree is the node's.
    Yes,
    /// It is not; the wallet is marked for a new scan.
    Diverged,
    /// The node's answer is no tree.
    BadFrontier,
}

impl WalletEntry {
    /// Checks the wallet's tree against the node's at the wallet's cursor. How far the wallet
    /// has come does not settle that: it may have followed what the chain dropped.
    pub fn ensure_canonical(&mut self, fs: &FrontierState) -> (r: Canonical)
        requires
            old(self).db.wf(),
        ensures
            final(self).db.wf(),
            !fs.consistent() ==> r == Canonical::BadFrontier && *final(self) == *old(self),
            fs.consistent() && agrees(old(self).db@, Some(fs)) ==> r == Canonical::Yes
                && *final(self) == *old(self),
            fs.consistent() && !agrees(old(self).db@, Some(fs)) ==> r == Canonical::Diverged
                && *final(self) == (WalletEntry {
                strikes: REORG_STRIKES,
                error: Some(SyncError::Diverged),
                ..*old(self)
            }),
    {
        if GlobalTree::from_state(fs).is_err() {
            return Canonical::BadFrontier;
        }
        if check_tip(&self.db, Some(fs)) {
            Canonical::Yes
        } else {
            self.strikes = REORG_STRIKES;
            self.error = Some(SyncError::Diverged);
            Canonical::Diverged
        }
    }

    /// The user asked for a new scan: no checkpoint is written any more.
    pub fn poison(&mut self)
        ensures
            *final(self) == (WalletEntry { error: Some(SyncError::Rescanning), ..*old(self) }),
    {
        self.error = Some(SyncError::Rescanning);
    }
}

/// A wallet resumes only from a checkpoint of its own key and chain, and, where the node's tree
/// at the cursor is known, only where leaf count and root are the node's.
pub proof fn resumed_wallets_agree_with_the_node(
    scan: &[u8],
    key: KeyV,
    genesis: Seq<u8>,
    tip: Option<&FrontierState>,
    p: ScanV,
    w: WalletV,
)
    requires
        resumable_here(Some(scan), key, genesis, tip) == Some((p, w)),
    ensures
        p.genesis == genesis,
        key.viewing() == Some(w.fvk),
        tip matches Some(fs) ==> fs.consistent() && w.size() == fs.size && w.tip.root()
            == fs.tree().root(),
{
}

/// A wallet that is scanned from the pruning point misses notes exactly where it is older than
/// that point and the tree has leaves there; it is then blind below all of them.
pub proof fn younger_wallets_miss_nothing(birthday: u64, daa_score: u64, size: u64)
    ensures
        birthday >= daa_score ==> blind_at(birthday, daa_score, size) == 0,
        birthday < daa_score ==> blind_at(birthday, daa_score, size) == size,
{
}

} // verus!
