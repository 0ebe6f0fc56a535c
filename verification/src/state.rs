//! The shielded state transition.
//!
//! One accepted chain block updates the nullifier set, the note-commitment tree and the
//! supply ledger: conflicting transactions are dropped (the first in accepted order
//! wins), the surviving nullifiers are inserted, the block's commitments are appended
//! (the coinbase's first), and the turnstile invariant is checked. A block that fails
//! changes nothing.

use crate::bundle::{ActionV, BundleV, ShieldedBundle};
use crate::bytes::views32;
use crate::field::{canonical_base, commitment_views, Anchor, ExtractedNoteCommitment};
use crate::nullifier::{
    acceptable, conflict_at, repeats, resolution, MemNullifierSet, NullifierBytes,
    NullifierConflictResolver, NullifierSet,
};
use crate::sums::{total, totals_add_up};
use crate::tree::{ChainBlockSubtree, GlobalTree, NoteCommitmentTree, TreeFull, TreeV, TREE_CAPACITY};
use crate::turnstile::{LedgerV, SupplyLedger, TurnstileViolation};
use vstd::prelude::*;

verus! {

/// A transaction's shielded effects.
#[derive(Clone, Debug)]
pub struct ShieldedTx {
    /// Nullifiers revealed by the transaction's actions.
    pub nullifiers: Vec<NullifierBytes>,
    /// Note commitments created by the transaction's actions.
    pub commitments: Vec<ExtractedNoteCommitment>,
    /// Public fee: value leaving the shielded pool.
    pub fee: u64,
    /// The anchor that the spends prove against.
    pub anchor: [u8; 32],
}

/// What a [`ShieldedTx`] holds.
pub struct TxV {
    pub nullifiers: Seq<Seq<u8>>,
    pub commitments: Seq<Seq<u8>>,
    pub fee: nat,
    pub anchor: Seq<u8>,
}

impl View for ShieldedTx {
    type V = TxV;

    open spec fn view(&self) -> TxV {
        TxV {
            nullifiers: views32(self.nullifiers@),
            commitments: commitment_views(self.commitments@),
            fee: self.fee as nat,
            anchor: self.anchor@,
        }
    }
}

/// What a list of transactions holds.
pub open spec fn tx_views(txs: Seq<ShieldedTx>) -> Seq<TxV> {
    Seq::new(txs.len(), |i: int| txs[i]@)
}

/// Why no [`ShieldedTx`] could be extracted from a bundle.
#[derive(Debug, Clone, Copy, PartialEq, Eq)]
pub enum BundleExtractError {
    /// A note commitment was not a canonical field element.
    NonCanonicalCommitment,
    /// The bundle declared a negative value balance: it claims to mint value.
    MintingValueBalance,
}

/// Every action's commitment is a canonical field element.
pub open spec fn commitments_canonical(actions: Seq<ActionV>) -> bool {
    forall|i: int| 0 <= i < actions.len() ==> canonical_base((#[trigger] actions[i]).cmx)
}

/// The effects of a bundle, or why it has none.
pub open spec fn extract(b: BundleV) -> Result<TxV, BundleExtractError> {
    if !commitments_canonical(b.actions) {
        Err(BundleExtractError::NonCanonicalCommitment)
    } else if b.value_balance < 0 {
        Err(BundleExtractError::MintingValueBalance)
    } else {
        Ok(
            TxV {
                nullifiers: b.nullifiers(),
                commitments: Seq::new(b.actions.len(), |i: int| b.actions[i].cmx),
                fee: b.value_balance as nat,
                anchor: b.anchor,
            },
        )
    }
}

impl ShieldedTx {
    /// Extracts the effects of a parsed bundle. Proof and signatures are not looked at.
    pub fn from_bundle(bundle: &ShieldedBundle) -> (r: Result<Self, BundleExtractError>)
        ensures
            match (r, extract(bundle@)) {
                (Ok(tx), Ok(v)) => tx@ == v,
                (Err(e), Err(f)) => e == f,
                _ => false,
            },
    {
        let mut commitments: Vec<ExtractedNoteCommitment> = Vec::new();
        let mut i: usize = 0;
        while i < bundle.actions.len()
            invariant
                0 <= i <= bundle.actions@.len(),
                commitments@.len() == i,
                forall|j: int|
                    0 <= j < i ==> (#[trigger] commitments@[j])@ == bundle.actions@[j].cmx@
                        && canonical_base(bundle.actions@[j].cmx@),
            decreases bundle.actions@.len() - i,
        {
            match ExtractedNoteCommitment::from_bytes(&bundle.actions[i].cmx) {
                Some(cmx) => {
                    commitments.push(cmx);
                },
                None => {
                    assert(!canonical_base(bundle@.actions[i as int].cmx));
                    return Err(BundleExtractError::NonCanonicalCommitment);
                },
            }
            i = i + 1;
        }
        proof {
            assert forall|j: int| 0 <= j < bundle@.actions.len() implies canonical_base(
                (#[trigger] bundle@.actions[j]).cmx,
            ) by {
                assert(commitments@[j]@ == bundle.actions@[j].cmx@);
            }
        }
        let nullifiers: Vec<NullifierBytes> = bundle.nullifiers();
        if bundle.value_balance < 0 {
            return Err(BundleExtractError::MintingValueBalance);
        }
        let tx: ShieldedTx = ShieldedTx {
            nullifiers,
            commitments,
            fee: bundle.value_balance as u64,
            anchor: bundle.anchor,
        };
        assert(tx@.commitments =~= Seq::new(bundle@.actions.len(), |i: int| bundle@.actions[i].cmx));
        Ok(tx)
    }
}

/// A coinbase note minted into the pool: a public value and the note's commitment.
#[derive(Clone, Copy, Debug, PartialEq, Eq)]
pub struct CoinbaseNote {
    /// The note's public value: the rewarded block's subsidy plus its fees.
    pub value: u64,
    /// The note commitment.
    pub commitment: ExtractedNoteCommitment,
}

/// The notes that a block's coinbase mints, one for each rewarded block.
#[derive(Clone, Debug)]
pub struct CoinbaseMint {
    pub notes: Vec<CoinbaseNote>,
}

/// The values of a list of coinbase notes.
pub open spec fn note_total(notes: Seq<CoinbaseNote>) -> nat
    decreases notes.len(),
{
    if notes.len() == 0 {
        0
    } else {
        note_total(notes.drop_last()) + notes.last().value as nat
    }
}

/// The commitments of a list of coinbase notes.
pub open spec fn note_leaves(notes: Seq<CoinbaseNote>) -> Seq<Seq<u8>> {
    Seq::new(notes.len(), |i: int| notes[i].commitment@)
}

proof fn lemma_note_total_bound(notes: Seq<CoinbaseNote>)
    ensures
        note_total(notes) <= notes.len() * 0xffff_ffff_ffff_ffff,
    decreases notes.len(),
{
    if notes.len() > 0 {
        lemma_note_total_bound(notes.drop_last());
    }
}

impl CoinbaseMint {
    /// A coinbase mint of the given notes.
    pub fn new(notes: Vec<CoinbaseNote>) -> (m: Self)
        ensures
            m.notes == notes,
    {
        CoinbaseMint { notes }
    }

    /// The total value minted by this coinbase.
    pub fn total_value(&self) -> (t: u128)
        ensures
            t == note_total(self.notes@),
    {
        let mut t: u128 = 0;
        let mut i: usize = 0;
        assert(self.notes@.take(0) =~= Seq::<CoinbaseNote>::empty());
        while i < self.notes.len()
            invariant
                0 <= i <= self.notes@.len(),
                t == note_total(self.notes@.take(i as int)),
            decreases self.notes@.len() - i,
        {
            proof {
                lemma_note_total_bound(self.notes@.take(i as int));
                lemma_count_bound(i, 0xffff_ffff_ffff_ffff);
                assert(self.notes@.take(i + 1).drop_last() =~= self.notes@.take(i as int));
            }
            t = t + self.notes[i].value as u128;
            i = i + 1;
        }
        assert(self.notes@.take(i as int) =~= self.notes@);
        t
    }
}

/// As many 64-bit values as a list can hold, and one more, add up within 128 bits.
pub proof fn lemma_count_bound(i: usize, v: u64)
    ensures
        i * 0xffff_ffff_ffff_ffff + v <= u128::MAX,
{
    assert(i * 0xffff_ffff_ffff_ffff <= 0xffff_ffff_ffff_ffff * 0xffff_ffff_ffff_ffff) by (nonlinear_arith)
        requires
            i <= 0xffff_ffff_ffff_ffff,
    ;
}

/// Why a shielded state transition was rejected.
#[derive(Debug, Clone, Copy, PartialEq, Eq)]
pub enum ShieldedStateError {
    /// The turnstile supply invariant was violated.
    Turnstile(TurnstileViolation),
    /// The note-commitment tree is full.
    TreeFull,
}

impl From<TurnstileViolation> for ShieldedStateError {
    fn from(v: TurnstileViolation) -> (e: Self) {
        ShieldedStateError::Turnstile(v)
    }
}

impl vstd::std_specs::convert::FromSpecImpl<TurnstileViolation> for ShieldedStateError {
    open spec fn obeys_from_spec() -> bool {
        true
    }

    open spec fn from_spec(v: TurnstileViolation) -> ShieldedStateError {
        ShieldedStateError::Turnstile(v)
    }
}

impl From<TreeFull> for ShieldedStateError {
    fn from(_full: TreeFull) -> (e: Self) {
        ShieldedStateError::TreeFull
    }
}

impl vstd::std_specs::convert::FromSpecImpl<TreeFull> for ShieldedStateError {
    open spec fn obeys_from_spec() -> bool {
        true
    }

    open spec fn from_spec(v: TreeFull) -> ShieldedStateError {
        ShieldedStateError::TreeFull
    }
}

/// The outcome of applying one chain block's shielded transactions.
#[derive(Clone, Debug)]
pub struct BlockShieldedOutcome {
    /// Indices of the transactions that survived conflict resolution.
    pub accepted: Vec<usize>,
    /// Nullifiers to insert into the finalized set, in acceptance order.
    pub new_nullifiers: Vec<NullifierBytes>,
    /// The commitments appended to the tree, the coinbase's first.
    pub subtree: ChainBlockSubtree,
    /// The anchor after appending them.
    pub anchor: Anchor,
}

/// What walking transactions in accepted order gathers.
pub struct WalkV {
    pub accepted: Seq<int>,
    pub nullifiers: Seq<Seq<u8>>,
    pub leaves: Seq<Seq<u8>>,
    pub fees: nat,
}

/// Walks transactions in order over a set of spent nullifiers: one that is free of
/// conflicts is accepted and its nullifiers count as spent from then on; any other is
/// dropped.
pub open spec fn walk(spent: Set<Seq<u8>>, txs: Seq<TxV>) -> WalkV
    decreases txs.len(),
{
    if txs.len() == 0 {
        WalkV { accepted: Seq::empty(), nullifiers: Seq::empty(), leaves: Seq::empty(), fees: 0 }
    } else {
        let w = walk(spent, txs.drop_last());
        let tx = txs.last();
        if acceptable(spent.union(w.nullifiers.to_set()), tx.nullifiers) {
            WalkV {
                accepted: w.accepted.push(txs.len() - 1),
                nullifiers: w.nullifiers + tx.nullifiers,
                leaves: w.leaves + tx.commitments,
                fees: w.fees + tx.fee,
            }
        } else {
            w
        }
    }
}

/// A total is added to a ledger entry; a zero total is not looked at.
pub open spec fn added(entry: nat, total: nat) -> Result<nat, TurnstileViolation> {
    if total == 0 {
        Ok(entry)
    } else if total > u64::MAX || entry + total > u128::MAX {
        Err(TurnstileViolation::Overflow)
    } else {
        Ok(entry + total)
    }
}

/// What a chain block does to the state.
pub struct BlockV {
    pub walk: WalkV,
    pub leaves: Seq<Seq<u8>>,
    pub tree: TreeV,
    pub supply: LedgerV,
}

/// The notes that a coinbase mints; none where there is no coinbase.
pub open spec fn minted(coinbase: Option<&CoinbaseMint>) -> Seq<CoinbaseNote> {
    match coinbase {
        Some(cb) => cb.notes@,
        None => Seq::empty(),
    }
}

/// The state transition of one chain block, or why the block is rejected.
pub open spec fn transition(
    spent: Set<Seq<u8>>,
    tree: TreeV,
    supply: LedgerV,
    notes: Seq<CoinbaseNote>,
    txs: Seq<TxV>,
) -> Result<BlockV, ShieldedStateError> {
    let w = walk(spent, txs);
    let leaves = note_leaves(notes) + w.leaves;
    match added(supply.coinbase, note_total(notes)) {
        Err(v) => Err(ShieldedStateError::Turnstile(v)),
        Ok(coinbase) => match added(supply.fees, w.fees) {
            Err(v) => Err(ShieldedStateError::Turnstile(v)),
            Ok(fees) => if tree.size + leaves.len() > TREE_CAPACITY {
                Err(ShieldedStateError::TreeFull)
            } else if coinbase < fees {
                Err(
                    ShieldedStateError::Turnstile(
                        TurnstileViolation::PoolUnderflow {
                            coinbase: coinbase as u128,
                            fees: fees as u128,
                        },
                    ),
                )
            } else {
                Ok(
                    BlockV {
                        walk: w,
                        leaves,
                        tree: tree.extend(leaves),
                        supply: LedgerV { coinbase, fees },
                    },
                )
            },
        },
    }
}

/// The outcome reports the block's effects.
pub open spec fn reports(out: BlockShieldedOutcome, b: BlockV) -> bool {
    &&& out.accepted@.len() == b.walk.accepted.len()
    &&& forall|i: int| 0 <= i < out.accepted@.len() ==> #[trigger] out.accepted@[i]
        == b.walk.accepted[i]
    &&& views32(out.new_nullifiers@) == b.walk.nullifiers
    &&& out.subtree@ == b.leaves
    &&& out.anchor@ == b.tree.root()
}

/// The fees of the transactions that an outcome accepts.
pub open spec fn accepted_fees(out: BlockShieldedOutcome, txs: Seq<ShieldedTx>) -> Seq<nat> {
    Seq::new(out.accepted@.len(), |i: int| txs[out.accepted@[i] as int].fee as nat)
}

/// The ledger books what the block mints and the fees of the transactions it accepts.
pub open spec fn books(
    out: BlockShieldedOutcome,
    before: LedgerV,
    after: LedgerV,
    notes: Seq<CoinbaseNote>,
    txs: Seq<ShieldedTx>,
) -> bool {
    &&& forall|i: int| 0 <= i < out.accepted@.len() ==> #[trigger] out.accepted@[i] < txs.len()
    &&& after.coinbase == before.coinbase + total(note_values(notes))
    &&& after.fees == before.fees + total(accepted_fees(out, txs))
}

/// The mutable shielded consensus state, advanced in accepted order.
#[derive(Clone)]
pub struct ShieldedState {
    /// Spent-nullifier set.
    pub nullifiers: MemNullifierSet,
    /// Global note-commitment tree.
    pub tree: GlobalTree,
    /// Turnstile supply ledger.
    pub supply: SupplyLedger,
}

impl Default for ShieldedState {
    fn default() -> (s: Self)
        ensures
            s.nullifiers@ == Set::<Seq<u8>>::empty(),
            s.tree@ == TreeV::empty(),
            s.supply@ == (LedgerV { coinbase: 0, fees: 0 }),
    {
        ShieldedState::new()
    }
}

impl ShieldedState {
    /// The genesis (empty) shielded state.
    pub fn new() -> (s: Self)
        ensures
            s.nullifiers@ == Set::<Seq<u8>>::empty(),
            s.tree@ == TreeV::empty(),
            s.supply@ == (LedgerV { coinbase: 0, fees: 0 }),
    {
        ShieldedState {
            nullifiers: MemNullifierSet::new(),
            tree: GlobalTree::new(),
            supply: SupplyLedger::new(),
        }
    }

    /// The current anchor.
    pub fn anchor(&self) -> (a: Anchor)
        ensures
            a@ == self.tree@.root(),
    {
        broadcast use GlobalTree::lemma_tree;
        self.tree.anchor()
    }

    /// Applies one accepted chain block: its coinbase, if any, and its shielded
    /// transactions in accepted order.
    pub fn apply_chain_block(
        &mut self,
        coinbase: Option<&CoinbaseMint>,
        txs: &[ShieldedTx],
    ) -> (r: Result<BlockShieldedOutcome, ShieldedStateError>)
        ensures
            match (
                r,
                transition(
                    old(self).nullifiers@,
                    old(self).tree@,
                    old(self).supply@,
                    minted(coinbase),
                    tx_views(txs@),
                ),
            ) {
                (Ok(out), Ok(b)) => {
                    &&& reports(out, b)
                    &&& books(out, old(self).supply@, final(self).supply@, minted(coinbase), txs@)
                    &&& final(self).tree@ == b.tree
                    &&& final(self).supply@ == b.supply
                    &&& final(self).nullifiers@ == old(self).nullifiers@.union(
                        b.walk.nullifiers.to_set(),
                    )
                },
                (Err(e), Err(f)) => e == f && *final(self) == *old(self),
                _ => false,
            },
    {
        broadcast use MemNullifierSet::lemma_spent;
        match apply_chain_block_to(
            &self.nullifiers,
            &mut self.tree,
            &mut self.supply,
            coinbase,
            txs,
        ) {
            Ok(outcome) => {
                self.nullifiers.extend(outcome.new_nullifiers.as_slice());
                Ok(outcome)
            },
            Err(e) => Err(e),
        }
    }
}

/// A block's total as an amount, where it is one.
fn fits_u64(total: u128) -> (r: Result<u64, TurnstileViolation>)
    ensures
        total <= u64::MAX ==> r == Ok::<u64, TurnstileViolation>(total as u64),
        total > u64::MAX ==> r == Err::<u64, _>(TurnstileViolation::Overflow),
{
    if total <= u64::MAX as u128 {
        Ok(total as u64)
    } else {
        Err(TurnstileViolation::Overflow)
    }
}

proof fn lemma_fees_bound(spent: Set<Seq<u8>>, txs: Seq<ShieldedTx>)
    ensures
        walk(spent, tx_views(txs)).fees <= txs.len() * 0xffff_ffff_ffff_ffff,
    decreases txs.len(),
{
    if txs.len() > 0 {
        assert(tx_views(txs).drop_last() =~= tx_views(txs.drop_last()));
        lemma_fees_bound(spent, txs.drop_last());
    }
}

/// Applies one accepted chain block against an arbitrary finalized nullifier set. The
/// tree and the ledger are advanced only on success; the caller inserts the outcome's
/// new nullifiers into the finalized set.
pub fn apply_chain_block_to<S: NullifierSet>(
    finalized: &S,
    tree: &mut GlobalTree,
    supply: &mut SupplyLedger,
    coinbase: Option<&CoinbaseMint>,
    txs: &[ShieldedTx],
) -> (r: Result<BlockShieldedOutcome, ShieldedStateError>)
    ensures
        match (
            r,
            transition(
                finalized.spent(),
                old(tree)@,
                old(supply)@,
                minted(coinbase),
                tx_views(txs@),
            ),
        ) {
            (Ok(out), Ok(b)) => {
                &&& reports(out, b)
                &&& books(out, old(supply)@, final(supply)@, minted(coinbase), txs@)
                &&& final(tree)@ == b.tree
                &&& final(supply)@ == b.supply
            },
            (Err(e), Err(f)) => e == f && *final(tree) == *old(tree) && *final(supply) == *old(supply),
            _ => false,
        },
{
    broadcast use GlobalTree::lemma_tree;
    let ghost notes = minted(coinbase);
    let ghost views = tx_views(txs@);
    let ghost spent = finalized.spent();
    let mut resolver: NullifierConflictResolver<S> = NullifierConflictResolver::new(finalized);
    let mut subtree: ChainBlockSubtree = ChainBlockSubtree::new();
    let mut accepted: Vec<usize> = Vec::new();
    let mut total_fees: u128 = 0;
    let mut total_mint: u128 = 0;
    assert(note_leaves(notes.take(0)) =~= Seq::<Seq<u8>>::empty());
    match coinbase {
        Some(cb) => {
            let mut k: usize = 0;
            while k < cb.notes.len()
                invariant
                    0 <= k <= cb.notes@.len(),
                    notes == cb.notes@,
                    total_mint == note_total(notes.take(k as int)),
                    subtree@ == note_leaves(notes.take(k as int)),
                decreases cb.notes@.len() - k,
            {
                proof {
                    lemma_note_total_bound(notes.take(k as int));
                    lemma_count_bound(k, 0xffff_ffff_ffff_ffff);
                    assert(notes.take(k + 1).drop_last() =~= notes.take(k as int));
                    assert(note_leaves(notes.take(k + 1)) =~= note_leaves(notes.take(k as int)).push(
                        notes[k as int].commitment@,
                    ));
                }
                total_mint = total_mint + cb.notes[k].value as u128;
                subtree.push(cb.notes[k].commitment);
                k = k + 1;
            }
            assert(notes.take(k as int) =~= notes);
        },
        None => {
            assert(notes.take(0) =~= notes);
        },
    }
    let mut i: usize = 0;
    proof {
        assert(note_leaves(notes) + walk(spent, views.take(0)).leaves =~= note_leaves(notes));
        assert(resolver.taken() =~= walk(spent, views.take(0)).nullifiers);
    }
    while i < txs.len()
        invariant
            0 <= i <= txs@.len(),
            views == tx_views(txs@),
            spent == finalized.spent(),
            resolver.wf(),
            resolver.base() == spent,
            resolver.taken() == walk(spent, views.take(i as int)).nullifiers,
            subtree@ == note_leaves(notes) + walk(spent, views.take(i as int)).leaves,
            total_fees == walk(spent, views.take(i as int)).fees,
            accepted@.len() == walk(spent, views.take(i as int)).accepted.len(),
            forall|j: int|
                0 <= j < accepted@.len() ==> #[trigger] accepted@[j] == walk(
                    spent,
                    views.take(i as int),
                ).accepted[j],
        decreases txs@.len() - i,
    {
        let tx: &ShieldedTx = &txs[i];
        let ghost w = walk(spent, views.take(i as int));
        proof {
            assert(views.take(i + 1).drop_last() =~= views.take(i as int));
            assert(views.take(i + 1).last() == tx@);
            assert(views.take(i as int) =~= tx_views(txs@.take(i as int)));
            lemma_fees_bound(spent, txs@.take(i as int));
            lemma_count_bound(i, 0xffff_ffff_ffff_ffff);
        }
        let verdict = resolver.try_accept(tx.nullifiers.as_slice());
        match verdict {
            Ok(()) => {
                let ghost before = subtree@;
                let mut c: usize = 0;
                assert(before + tx@.commitments.take(0) =~= before);
                while c < tx.commitments.len()
                    invariant
                        0 <= c <= tx.commitments@.len(),
                        subtree@ == before + tx@.commitments.take(c as int),
                    decreases tx.commitments@.len() - c,
                {
                    subtree.push(tx.commitments[c]);
                    proof {
                        assert(tx@.commitments.take(c + 1) =~= tx@.commitments.take(c as int).push(
                            tx.commitments@[c as int]@,
                        ));
                        assert(subtree@ =~= before + tx@.commitments.take(c + 1));
                    }
                    c = c + 1;
                }
                proof {
                    assert(tx@.commitments.take(c as int) =~= tx@.commitments);
                    assert(subtree@ =~= note_leaves(notes) + (w.leaves + tx@.commitments));
                }
                total_fees = total_fees + tx.fee as u128;
                accepted.push(i);
            },
            Err(_) => {
                proof {
                    assert(!acceptable(spent.union(w.nullifiers.to_set()), tx@.nullifiers));
                }
            },
        }
        i = i + 1;
    }
    assert(views.take(i as int) =~= views);
    let new_nullifiers: Vec<NullifierBytes> = resolver.into_accepted();

    let mut new_tree: GlobalTree = tree.clone();
    let mut new_supply: SupplyLedger = *supply;
    if total_mint > 0 {
        let subsidy: u64 = match fits_u64(total_mint) {
            Ok(v) => v,
            Err(e) => {
                return Err(ShieldedStateError::from(e));
            },
        };
        match new_supply.mint_coinbase(subsidy) {
            Ok(()) => {},
            Err(e) => {
                return Err(ShieldedStateError::from(e));
            },
        }
    }
    if total_fees > 0 {
        let fee: u64 = match fits_u64(total_fees) {
            Ok(v) => v,
            Err(e) => {
                return Err(ShieldedStateError::from(e));
            },
        };
        match new_supply.collect_fees(fee) {
            Ok(()) => {},
            Err(e) => {
                return Err(ShieldedStateError::from(e));
            },
        }
    }
    match new_tree.append_subtree(&subtree) {
        Ok(()) => {},
        Err(e) => {
            return Err(ShieldedStateError::from(e));
        },
    }
    let anchor: Anchor = new_tree.anchor();
    match new_supply.check() {
        Ok(()) => {},
        Err(e) => {
            return Err(ShieldedStateError::from(e));
        },
    }
    *tree = new_tree;
    *supply = new_supply;
    let outcome: BlockShieldedOutcome = BlockShieldedOutcome {
        accepted,
        new_nullifiers,
        subtree,
        anchor,
    };
    proof {
        let w = walk(spent, views);
        accepted_transactions_count_in_full(spent, views);
        accepted_indices_ascend(spent, views);
        coinbase_notes_count_in_full(notes);
        assert(accepted_fees(outcome, txs@) =~= fees_at(views, w.accepted));
    }
    Ok(outcome)
}

/// A dropped transaction leaves no trace: what a walk gathers is what it gathers
/// without that transaction, wherever it stood.
pub proof fn dropped_transactions_leave_no_trace(
    spent: Set<Seq<u8>>,
    before: Seq<TxV>,
    dropped: TxV,
    after: Seq<TxV>,
)
    requires
        !acceptable(
            spent.union(walk(spent, before).nullifiers.to_set()),
            dropped.nullifiers,
        ),
    ensures
        ({
            let with = walk(spent, before.push(dropped) + after);
            let without = walk(spent, before + after);
            &&& with.nullifiers == without.nullifiers
            &&& with.leaves == without.leaves
            &&& with.fees == without.fees
        }),
    decreases after.len(),
{
    if after.len() == 0 {
        assert(before.push(dropped) + after =~= before.push(dropped));
        assert(before.push(dropped).drop_last() =~= before);
        assert(before + after =~= before);
    } else {
        dropped_transactions_leave_no_trace(spent, before, dropped, after.drop_last());
        assert((before.push(dropped) + after).drop_last() =~= before.push(dropped)
            + after.drop_last());
        assert((before + after).drop_last() =~= before + after.drop_last());
    }
}

/// A block with a double-spend ends in the same tree and the same supply as the block
/// without it.
pub proof fn double_spends_do_not_change_the_state(
    spent: Set<Seq<u8>>,
    tree: TreeV,
    supply: LedgerV,
    notes: Seq<CoinbaseNote>,
    before: Seq<TxV>,
    dropped: TxV,
    after: Seq<TxV>,
)
    requires
        !acceptable(
            spent.union(walk(spent, before).nullifiers.to_set()),
            dropped.nullifiers,
        ),
    ensures
        match (
            transition(spent, tree, supply, notes, before.push(dropped) + after),
            transition(spent, tree, supply, notes, before + after),
        ) {
            (Ok(x), Ok(y)) => x.tree == y.tree && x.supply == y.supply && x.walk.nullifiers
                == y.walk.nullifiers,
            (Err(e), Err(f)) => e == f,
            _ => false,
        },
{
    dropped_transactions_leave_no_trace(spent, before, dropped, after);
}

/// Every accepted transaction's nullifiers are new: the nullifiers that a walk accepts
/// are pairwise distinct, and none of them was spent before.
pub proof fn nullifiers_are_spent_once(spent: Set<Seq<u8>>, txs: Seq<TxV>)
    ensures
        walk(spent, txs).nullifiers.no_duplicates(),
        spent.disjoint(walk(spent, txs).nullifiers.to_set()),
    decreases txs.len(),
{
    if txs.len() > 0 {
        nullifiers_are_spent_once(spent, txs.drop_last());
        let w = walk(spent, txs.drop_last());
        let nfs = txs.last().nullifiers;
        let now = spent.union(w.nullifiers.to_set());
        if acceptable(now, nfs) {
            let all = w.nullifiers + nfs;
            assert forall|i: int, j: int| 0 <= i < j < all.len() implies all[i] != all[j] by {
                let n = w.nullifiers.len();
                if j >= n {
                    assert(!conflict_at(now, nfs, j - n));
                    if i < n {
                        assert(w.nullifiers.to_set().contains(w.nullifiers[i]));
                    } else {
                        assert(nfs.take(j - n)[i - n] == nfs[i - n]);
                    }
                }
            }
            assert forall|x: Seq<u8>| all.to_set().contains(x) implies !spent.contains(x) by {
                let i = choose|i: int| 0 <= i < all.len() && all[i] == x;
                let n = w.nullifiers.len();
                if i < n {
                    assert(w.nullifiers.to_set().contains(x));
                } else {
                    assert(!conflict_at(now, nfs, i - n));
                }
            }
        }
    }
}

/// What is spent stays spent: no walk accepts a transaction that reveals a nullifier of
/// the set it started from.
pub proof fn replays_are_dropped(spent: Set<Seq<u8>>, txs: Seq<TxV>, k: int)
    requires
        walk(spent, txs).accepted.contains(k),
    ensures
        0 <= k < txs.len(),
        forall|nf: Seq<u8>| txs[k].nullifiers.contains(nf) ==> !spent.contains(nf),
    decreases txs.len(),
{
    if txs.len() > 0 {
        let w = walk(spent, txs.drop_last());
        let last = txs.len() - 1;
        let now = spent.union(w.nullifiers.to_set());
        if w.accepted.contains(k) {
            replays_are_dropped(spent, txs.drop_last(), k);
        } else {
            assert(acceptable(now, txs.last().nullifiers));
            let i = choose|i: int| 0 <= i < w.accepted.push(last).len() && w.accepted.push(last)[i] == k;
            if i < w.accepted.len() {
                assert(w.accepted[i] == k);
            }
            assert(k == last);
            assert forall|nf: Seq<u8>| txs[k].nullifiers.contains(nf) implies !spent.contains(nf) by {
                let j = choose|j: int| 0 <= j < txs[k].nullifiers.len() && txs[k].nullifiers[j] == nf;
                assert(!conflict_at(now, txs[k].nullifiers, j));
            }
        }
    }
}

/// The fees of the transactions with these indices.
pub open spec fn fees_at(txs: Seq<TxV>, which: Seq<int>) -> Seq<nat> {
    Seq::new(which.len(), |i: int| txs[which[i]].fee)
}

/// The nullifiers of the transactions with these indices, one list for each.
pub open spec fn nullifiers_at(txs: Seq<TxV>, which: Seq<int>) -> Seq<Seq<Seq<u8>>> {
    Seq::new(which.len(), |i: int| txs[which[i]].nullifiers)
}

/// The commitments of the transactions with these indices, one list for each.
pub open spec fn commitments_at(txs: Seq<TxV>, which: Seq<int>) -> Seq<Seq<Seq<u8>>> {
    Seq::new(which.len(), |i: int| txs[which[i]].commitments)
}

/// The values of coinbase notes.
pub open spec fn note_values(notes: Seq<CoinbaseNote>) -> Seq<nat> {
    Seq::new(notes.len(), |i: int| notes[i].value as nat)
}

/// Concatenating one list more appends its items.
pub proof fn lemma_flatten_push<A>(lists: Seq<Seq<A>>, list: Seq<A>)
    ensures
        lists.push(list).flatten() == lists.flatten() + list,
{
    lists.push(list).lemma_flatten_and_flatten_alt_are_equivalent();
    lists.lemma_flatten_and_flatten_alt_are_equivalent();
    assert(lists.push(list).drop_last() =~= lists);
    assert(lists.push(list).flatten() =~= lists.flatten() + list);
}

/// The indices that a walk accepts are indices of its transactions, in ascending order.
pub proof fn accepted_indices_ascend(spent: Set<Seq<u8>>, txs: Seq<TxV>)
    ensures
        forall|i: int|
            0 <= i < walk(spent, txs).accepted.len() ==> 0 <= #[trigger] walk(spent, txs).accepted[i]
                < txs.len(),
        forall|i: int, j: int|
            0 <= i < j < walk(spent, txs).accepted.len() ==> #[trigger] walk(spent, txs).accepted[i]
                < #[trigger] walk(spent, txs).accepted[j],
    decreases txs.len(),
{
    if txs.len() > 0 {
        let w = walk(spent, txs.drop_last());
        let now = walk(spent, txs);
        accepted_indices_ascend(spent, txs.drop_last());
        if now.accepted.len() > w.accepted.len() {
            assert(forall|i: int| 0 <= i < w.accepted.len() ==> now.accepted[i] == w.accepted[i]);
            assert(now.accepted.last() == txs.len() - 1);
        }
    }
}

/// A block takes out of the pool what its accepted transactions pay in fees, inserts the
/// nullifiers that they reveal and appends the commitments that they create, in order:
/// nothing of any of them is left out, and nothing else is added.
pub proof fn accepted_transactions_count_in_full(spent: Set<Seq<u8>>, txs: Seq<TxV>)
    ensures
        ({
            let w = walk(spent, txs);
            &&& w.fees == total(fees_at(txs, w.accepted))
            &&& w.nullifiers == nullifiers_at(txs, w.accepted).flatten()
            &&& w.leaves == commitments_at(txs, w.accepted).flatten()
        }),
    decreases txs.len(),
{
    let w = walk(spent, txs);
    if txs.len() == 0 {
        assert(w.nullifiers =~= nullifiers_at(txs, w.accepted).flatten());
        assert(w.leaves =~= commitments_at(txs, w.accepted).flatten());
    } else {
        let rest = txs.drop_last();
        let tx = txs.last();
        let before = walk(spent, rest);
        accepted_transactions_count_in_full(spent, rest);
        accepted_indices_ascend(spent, rest);
        assert(fees_at(txs, before.accepted) =~= fees_at(rest, before.accepted));
        assert(nullifiers_at(txs, before.accepted) =~= nullifiers_at(rest, before.accepted));
        assert(commitments_at(txs, before.accepted) =~= commitments_at(rest, before.accepted));
        if acceptable(spent.union(before.nullifiers.to_set()), tx.nullifiers) {
            assert(fees_at(txs, w.accepted) =~= fees_at(txs, before.accepted).push(tx.fee));
            totals_add_up(fees_at(txs, before.accepted), Seq::empty(), tx.fee);
            assert(nullifiers_at(txs, w.accepted) =~= nullifiers_at(txs, before.accepted).push(
                tx.nullifiers,
            ));
            lemma_flatten_push(nullifiers_at(txs, before.accepted), tx.nullifiers);
            assert(commitments_at(txs, w.accepted) =~= commitments_at(txs, before.accepted).push(
                tx.commitments,
            ));
            lemma_flatten_push(commitments_at(txs, before.accepted), tx.commitments);
        }
    }
}

/// What a walk has accepted by some transaction does not depend on those that follow.
proof fn lemma_walk_prefix(spent: Set<Seq<u8>>, txs: Seq<TxV>, n: int)
    requires
        0 <= n <= txs.len(),
    ensures
        forall|k: int|
            k < n ==> (#[trigger] walk(spent, txs).accepted.contains(k) <==> walk(
                spent,
                txs.take(n),
            ).accepted.contains(k)),
    decreases txs.len(),
{
    if n == txs.len() {
        assert(txs.take(n) =~= txs);
    } else {
        let rest = txs.drop_last();
        lemma_walk_prefix(spent, rest, n);
        assert(rest.take(n) =~= txs.take(n));
        let w = walk(spent, rest);
        let last = txs.len() - 1;
        assert forall|k: int| k < n implies (#[trigger] walk(spent, txs).accepted.contains(k)
            <==> walk(spent, txs.take(n)).accepted.contains(k)) by {
            if acceptable(spent.union(w.nullifiers.to_set()), txs.last().nullifiers) {
                let all = w.accepted.push(last);
                assert(walk(spent, txs).accepted == all);
                if all.contains(k) {
                    let i = choose|i: int| 0 <= i < all.len() && all[i] == k;
                    assert(w.accepted[i] == k);
                }
                if w.accepted.contains(k) {
                    let i = choose|i: int| 0 <= i < w.accepted.len() && w.accepted[i] == k;
                    assert(all[i] == k);
                }
            }
        }
    }
}

/// The nullifiers of a walk are those that its accepted transactions reveal.
proof fn lemma_walk_reveals(spent: Set<Seq<u8>>, txs: Seq<TxV>, nf: Seq<u8>)
    ensures
        walk(spent, txs).nullifiers.contains(nf) <==> exists|j: int| #[trigger]
            walk(spent, txs).accepted.contains(j) && txs[j].nullifiers.contains(nf),
    decreases txs.len(),
{
    let now = walk(spent, txs);
    if txs.len() > 0 {
        let rest = txs.drop_last();
        let last = txs.len() - 1;
        let w = walk(spent, rest);
        lemma_walk_reveals(spent, rest, nf);
        accepted_indices_ascend(spent, rest);
        if acceptable(spent.union(w.nullifiers.to_set()), txs.last().nullifiers) {
            assert(now.accepted[now.accepted.len() - 1] == last);
            assert(now.accepted.contains(last));
            if now.nullifiers.contains(nf) {
                let i = choose|i: int| 0 <= i < now.nullifiers.len() && now.nullifiers[i] == nf;
                if i < w.nullifiers.len() {
                    assert(w.nullifiers[i] == nf);
                    let j = choose|j: int| #[trigger]
                        w.accepted.contains(j) && rest[j].nullifiers.contains(nf);
                    let at = choose|at: int| 0 <= at < w.accepted.len() && w.accepted[at] == j;
                    assert(now.accepted[at] == j);
                    assert(now.accepted.contains(j) && txs[j].nullifiers.contains(nf));
                } else {
                    assert(txs.last().nullifiers[i - w.nullifiers.len()] == nf);
                    assert(now.accepted.contains(last) && txs[last].nullifiers.contains(nf));
                }
            }
            if exists|j: int| #[trigger] now.accepted.contains(j) && txs[j].nullifiers.contains(nf) {
                let j = choose|j: int| #[trigger]
                    now.accepted.contains(j) && txs[j].nullifiers.contains(nf);
                let at = choose|at: int| 0 <= at < now.accepted.len() && now.accepted[at] == j;
                if at < w.accepted.len() {
                    assert(w.accepted[at] == j);
                    assert(w.accepted.contains(j) && rest[j].nullifiers.contains(nf));
                    let i = choose|i: int| 0 <= i < w.nullifiers.len() && w.nullifiers[i] == nf;
                    assert(now.nullifiers[i] == nf);
                } else {
                    let i = choose|i: int|
                        0 <= i < txs.last().nullifiers.len() && txs.last().nullifiers[i] == nf;
                    assert(now.nullifiers[w.nullifiers.len() + i] == nf);
                }
            }
        } else {
            if exists|j: int| #[trigger] now.accepted.contains(j) && txs[j].nullifiers.contains(nf) {
                let j = choose|j: int| #[trigger]
                    now.accepted.contains(j) && txs[j].nullifiers.contains(nf);
                assert(w.accepted.contains(j) && rest[j].nullifiers.contains(nf));
            }
            if w.nullifiers.contains(nf) {
                let j = choose|j: int| #[trigger]
                    w.accepted.contains(j) && rest[j].nullifiers.contains(nf);
                assert(now.accepted.contains(j) && txs[j].nullifiers.contains(nf));
            }
        }
    }
}

/// The first in accepted order wins, and it always does: a transaction is accepted exactly
/// where it reveals no nullifier twice, none that was spent before the block, and none that
/// an earlier accepted transaction of the block reveals.
pub proof fn accepted_exactly_without_conflict(spent: Set<Seq<u8>>, txs: Seq<TxV>, k: int)
    requires
        0 <= k < txs.len(),
    ensures
        walk(spent, txs).accepted.contains(k) <==> {
            &&& txs[k].nullifiers.no_duplicates()
            &&& forall|nf: Seq<u8>| #[trigger]
                txs[k].nullifiers.contains(nf) ==> !spent.contains(nf)
            &&& forall|j: int, nf: Seq<u8>|
                j < k && #[trigger] walk(spent, txs).accepted.contains(j)
                    && #[trigger] txs[k].nullifiers.contains(nf) ==> !txs[j].nullifiers.contains(nf)
        },
{
    let nfs = txs[k].nullifiers;
    let w = walk(spent, txs.take(k));
    let now = spent.union(w.nullifiers.to_set());
    let all = walk(spent, txs).accepted;
    lemma_walk_prefix(spent, txs, k + 1);
    lemma_walk_prefix(spent, txs, k);
    accepted_indices_ascend(spent, txs.take(k));
    assert(txs.take(k + 1).drop_last() =~= txs.take(k));
    assert(txs.take(k + 1).last() == txs[k]);
    let next = walk(spent, txs.take(k + 1)).accepted;
    if acceptable(now, nfs) {
        assert(next[next.len() - 1] == k);
    }
    assert(all.contains(k) <==> acceptable(now, nfs));
    if acceptable(now, nfs) {
        assert forall|i: int, j: int| 0 <= i < j < nfs.len() implies nfs[i] != nfs[j] by {
            assert(!conflict_at(now, nfs, j));
            assert(nfs.take(j)[i] == nfs[i]);
        }
        assert forall|nf: Seq<u8>| #[trigger] nfs.contains(nf) implies !spent.contains(nf) by {
            let i = choose|i: int| 0 <= i < nfs.len() && nfs[i] == nf;
            assert(!conflict_at(now, nfs, i));
        }
        assert forall|j: int, nf: Seq<u8>| j < k && #[trigger] all.contains(j)
            && #[trigger] nfs.contains(nf) implies !txs[j].nullifiers.contains(nf) by {
            let i = choose|i: int| 0 <= i < nfs.len() && nfs[i] == nf;
            assert(!conflict_at(now, nfs, i));
            assert(w.accepted.contains(j));
            lemma_walk_reveals(spent, txs.take(k), nf);
            assert(txs.take(k)[j] == txs[j]);
        }
    } else {
        let i = choose|i: int| 0 <= i < nfs.len() && conflict_at(now, nfs, i);
        assert(nfs.contains(nfs[i]));
        if repeats(nfs, i) {
            let e = choose|e: int| 0 <= e < nfs.take(i).len() && nfs.take(i)[e] == nfs[i];
            assert(nfs[e] == nfs[i]);
        } else if !spent.contains(nfs[i]) {
            assert(w.nullifiers.contains(nfs[i]));
            lemma_walk_reveals(spent, txs.take(k), nfs[i]);
            let j = choose|j: int| #[trigger]
                w.accepted.contains(j) && txs.take(k)[j].nullifiers.contains(nfs[i]);
            let at = choose|at: int| 0 <= at < w.accepted.len() && w.accepted[at] == j;
            assert(0 <= w.accepted[at] < k);
            assert(all.contains(j));
            assert(txs.take(k)[j] == txs[j]);
        }
    }
}

/// A coinbase mints what its notes are worth together.
pub proof fn coinbase_notes_count_in_full(notes: Seq<CoinbaseNote>)
    ensures
        note_total(notes) == total(note_values(notes)),
    decreases notes.len(),
{
    if notes.len() > 0 {
        coinbase_notes_count_in_full(notes.drop_last());
        assert(note_values(notes).drop_last() =~= note_values(notes.drop_last()));
    }
}

/// No inflation: an accepted block changes the pool by exactly the values of the notes that
/// its coinbase mints minus the fees of the transactions it accepts, books both in the
/// ledger, and leaves the pool non-negative.
pub proof fn no_inflation(
    spent: Set<Seq<u8>>,
    tree: TreeV,
    supply: LedgerV,
    notes: Seq<CoinbaseNote>,
    txs: Seq<TxV>,
    b: BlockV,
)
    requires
        transition(spent, tree, supply, notes, txs) == Ok::<BlockV, ShieldedStateError>(b),
    ensures
        b.walk.accepted == walk(spent, txs).accepted,
        b.supply.coinbase == supply.coinbase + total(note_values(notes)),
        b.supply.fees == supply.fees + total(fees_at(txs, b.walk.accepted)),
        b.supply.pool() == supply.pool() + total(note_values(notes)) - total(
            fees_at(txs, b.walk.accepted),
        ),
        b.supply.pool() >= 0,
{
    accepted_transactions_count_in_full(spent, txs);
    coinbase_notes_count_in_full(notes);
}

/// A block is refused for nothing but its amounts and the room in the tree: it is accepted
/// exactly where what it mints and the fees it accepts are 64-bit amounts, both fit the
/// ledger, the pool stays non-negative and the tree has room for the block's commitments.
pub proof fn blocks_are_accepted_where_they_add_up(
    spent: Set<Seq<u8>>,
    tree: TreeV,
    supply: LedgerV,
    notes: Seq<CoinbaseNote>,
    txs: Seq<TxV>,
)
    requires
        supply.coinbase <= u128::MAX,
        supply.fees <= u128::MAX,
    ensures
        transition(spent, tree, supply, notes, txs) is Ok <==> {
            let accepted = walk(spent, txs).accepted;
            let minted = total(note_values(notes));
            let fees = total(fees_at(txs, accepted));
            &&& minted <= u64::MAX
            &&& fees <= u64::MAX
            &&& supply.coinbase + minted <= u128::MAX
            &&& supply.fees + fees <= u128::MAX
            &&& supply.fees + fees <= supply.coinbase + minted
            &&& tree.size + notes.len() + commitments_at(txs, accepted).flatten().len()
                <= TREE_CAPACITY
        },
{
    accepted_transactions_count_in_full(spent, txs);
    coinbase_notes_count_in_full(notes);
}

/// A block appends the commitments of its coinbase notes and behind them those of the
/// transactions it accepts, and ends at the anchor of the tree that holds them.
pub proof fn blocks_append_their_commitments(
    spent: Set<Seq<u8>>,
    tree: TreeV,
    supply: LedgerV,
    notes: Seq<CoinbaseNote>,
    txs: Seq<TxV>,
    b: BlockV,
)
    requires
        transition(spent, tree, supply, notes, txs) == Ok::<BlockV, ShieldedStateError>(b),
    ensures
        b.leaves.len() == notes.len() + commitments_at(txs, b.walk.accepted).flatten().len(),
        forall|i: int|
            0 <= i < notes.len() ==> #[trigger] b.leaves[i] == notes[i].commitment@,
        b.leaves.skip(notes.len() as int) == commitments_at(txs, b.walk.accepted).flatten(),
        b.tree == tree.extend(b.leaves),
        b.tree.size == tree.size + b.leaves.len(),
{
    accepted_transactions_count_in_full(spent, txs);
    assert(b.leaves.skip(notes.len() as int) =~= b.walk.leaves);
    crate::tree::lemma_extend_size(tree, b.leaves);
}

/// A bundle's effects are extracted exactly where every commitment is canonical and the value
/// balance does not mint; they are the nullifier and the commitment of each action in order,
/// and the whole balance as the fee.
pub proof fn bundles_are_extracted_in_full(b: BundleV)
    ensures
        extract(b) is Ok <==> b.value_balance >= 0 && forall|i: int|
            0 <= i < b.actions.len() ==> canonical_base((#[trigger] b.actions[i]).cmx),
        extract(b) matches Ok(tx) ==> {
            &&& tx.nullifiers.len() == b.actions.len()
            &&& tx.commitments.len() == b.actions.len()
            &&& forall|i: int|
                0 <= i < b.actions.len() ==> #[trigger] tx.nullifiers[i] == b.actions[i].nullifier
                    && tx.commitments[i] == b.actions[i].cmx
            &&& tx.fee == b.value_balance
            &&& tx.anchor == b.anchor
        },
        extract(b) == Err::<TxV, _>(BundleExtractError::MintingValueBalance) ==> b.value_balance < 0,
{
}

/// A refusal says what is wrong: an overflow where a total is no 64-bit amount or does not fit
/// the ledger, a full tree where the commitments do not fit, and an underflow, with the totals
/// that would be booked, where the pool would hold less than nothing.
pub proof fn refusals_say_what_is_wrong(
    spent: Set<Seq<u8>>,
    tree: TreeV,
    supply: LedgerV,
    notes: Seq<CoinbaseNote>,
    txs: Seq<TxV>,
)
    requires
        supply.coinbase <= u128::MAX,
        supply.fees <= u128::MAX,
    ensures
        ({
            let accepted = walk(spent, txs).accepted;
            let minted = total(note_values(notes));
            let fees = total(fees_at(txs, accepted));
            let leaves = notes.len() + commitments_at(txs, accepted).flatten().len();
            match transition(spent, tree, supply, notes, txs) {
                Ok(_) => true,
                Err(ShieldedStateError::TreeFull) => tree.size + leaves > 0x1_0000_0000,
                Err(ShieldedStateError::Turnstile(TurnstileViolation::Overflow)) => {
                    ||| minted > u64::MAX
                    ||| fees > u64::MAX
                    ||| supply.coinbase + minted > u128::MAX
                    ||| supply.fees + fees > u128::MAX
                },
                Err(
                    ShieldedStateError::Turnstile(
                        TurnstileViolation::PoolUnderflow { coinbase, fees: f },
                    ),
                ) => {
                    &&& coinbase == supply.coinbase + minted
                    &&& f == supply.fees + fees
                    &&& coinbase < f
                },
                Err(ShieldedStateError::Turnstile(TurnstileViolation::CommitmentMismatch)) => false,
            }
        }),
{
    accepted_transactions_count_in_full(spent, txs);
    coinbase_notes_count_in_full(notes);
}

} // verus!
