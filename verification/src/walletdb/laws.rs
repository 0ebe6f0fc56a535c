//! What holds of a wallet as it follows the chain.

use super::{hit, WalletV};
use crate::bundle::{ActionV, BundleV};
use crate::coinbase::CoinbaseNoteDesc;
use crate::field::{canonical_base, ExtractedNoteCommitment};
use crate::note::note_valid;
use crate::nullifier::{acceptable, conflict_at, lemma_push_to_set, repeats};
use crate::state::{
    extract, note_leaves, transition, walk, BlockV, BundleExtractError, CoinbaseNote,
    ShieldedStateError, TxV,
};
use crate::tree::{all_canonical, batches_append_as_their_leaves, lemma_extend_size, TREE_CAPACITY};
use crate::turnstile::LedgerV;
use vstd::prelude::*;

verus! {

/// The list holds exactly the notes that make one, in order, each with its commitment.
pub open spec fn precomputes(
    notes: Seq<(CoinbaseNoteDesc, u64)>,
    list: Seq<(CoinbaseNoteDesc, u64, ExtractedNoteCommitment)>,
) -> bool
    decreases notes.len(),
{
    if notes.len() == 0 {
        list.len() == 0
    } else {
        let (desc, value) = notes.last();
        if note_valid(desc.note(value)) {
            &&& list.len() > 0
            &&& list.last().0 == desc
            &&& list.last().1 == value
            &&& list.last().2@ == desc.note(value).commitment()
            &&& precomputes(notes.drop_last(), list.drop_last())
        } else {
            precomputes(notes.drop_last(), list)
        }
    }
}

/// Ingesting coinbase notes with commitments that were computed once, for many wallets, is
/// ingesting them.
pub proof fn precomputed_ingest_matches(
    v: WalletV,
    notes: Seq<(CoinbaseNoteDesc, u64)>,
    list: Seq<(CoinbaseNoteDesc, u64, ExtractedNoteCommitment)>,
)
    requires
        precomputes(notes, list),
    ensures
        v.coinbase_precomputed(list) == v.coinbase(notes),
    decreases notes.len(),
{
    if notes.len() > 0 {
        let (desc, value) = notes.last();
        if note_valid(desc.note(value)) {
            precomputed_ingest_matches(v, notes.drop_last(), list.drop_last());
        } else {
            precomputed_ingest_matches(v, notes.drop_last(), list);
        }
    }
}

/// The nullifiers of the first `k` actions.
pub open spec fn nullifiers_of(actions: Seq<ActionV>, k: int) -> Seq<Seq<u8>> {
    Seq::new(k as nat, |i: int| actions[i].nullifier)
}

/// The commitments of the first `k` actions.
pub open spec fn commitments_of(actions: Seq<ActionV>, k: int) -> Seq<Seq<u8>> {
    Seq::new(k as nat, |i: int| actions[i].cmx)
}

/// What the actions of a bundle do to the spent set.
pub(crate) proof fn lemma_actions_spend(v: WalletV, actions: Seq<ActionV>, k: int)
    requires
        0 <= k <= actions.len(),
    ensures
        v.actions(actions, k).spent == v.spent.union(nullifiers_of(actions, k).to_set()),
        v.actions(actions, k).fvk == v.fvk,
        v.actions(actions, k).base == v.base,
    decreases k,
{
    if k > 0 {
        lemma_actions_spend(v, actions, k - 1);
        let nf = actions[k - 1].nullifier;
        assert(nullifiers_of(actions, k) =~= nullifiers_of(actions, k - 1).push(nf));
        lemma_push_to_set(nullifiers_of(actions, k - 1), nf);
        assert(v.actions(actions, k).spent =~= v.spent.union(nullifiers_of(actions, k).to_set()));
    } else {
        assert(nullifiers_of(actions, 0).to_set() =~= Set::<Seq<u8>>::empty());
        assert(v.spent =~= v.spent.union(Set::empty()));
    }
}

/// What the actions of a bundle with canonical commitments do to the stream.
proof fn lemma_actions_append(v: WalletV, actions: Seq<ActionV>, k: int)
    requires
        0 <= k <= actions.len(),
        forall|i: int| 0 <= i < k ==> canonical_base((#[trigger] actions[i]).cmx),
    ensures
        v.actions(actions, k).leaves == v.leaves + commitments_of(actions, k),
        v.actions(actions, k).tip == v.tip.extend(commitments_of(actions, k)),
    decreases k,
{
    if k > 0 {
        lemma_actions_append(v, actions, k - 1);
        let cs = commitments_of(actions, k);
        assert(cs.drop_last() =~= commitments_of(actions, k - 1));
        assert(canonical_base(actions[k - 1].cmx));
        assert(v.actions(actions, k).leaves =~= v.leaves + cs);
    } else {
        assert(v.leaves + commitments_of(actions, 0) =~= v.leaves);
        assert(commitments_of(actions, 0).len() == 0);
    }
}

/// A bundle that is accepted twice is applied once: the second time changes nothing.
pub proof fn double_accepted_bundles_are_applied_once(v: WalletV, b: BundleV)
    requires
        b.actions.len() > 0,
    ensures
        v.bundle(b).bundle(b) == v.bundle(b),
{
    if !v.drops(b) {
        let n = b.actions.len() as int;
        lemma_actions_spend(v, b.actions, n);
        let nfs = nullifiers_of(b.actions, n);
        assert(nfs[0] == b.actions[0].nullifier);
        assert(nfs.to_set().contains(nfs[0]));
        assert(v.bundle(b).spent.contains(b.actions[0].nullifier));
    }
}

/// Every nullifier that a wallet has seen stays seen.
pub proof fn spent_nullifiers_only_grow(v: WalletV, list: Seq<BundleV>)
    ensures
        v.spent.subset_of(v.bundles(list).spent),
    decreases list.len(),
{
    if list.len() > 0 {
        spent_nullifiers_only_grow(v, list.drop_last());
        let w = v.bundles(list.drop_last());
        if !w.drops(list.last()) {
            lemma_actions_spend(w, list.last().actions, list.last().actions.len() as int);
        }
    }
}

/// The transactions are those of the bundles, and none reveals a nullifier twice.
pub open spec fn extracted(list: Seq<BundleV>, txs: Seq<TxV>) -> bool {
    &&& list.len() == txs.len()
    &&& forall|i: int|
        0 <= i < list.len() ==> extract(#[trigger] list[i]) == Ok::<TxV, BundleExtractError>(
            txs[i],
        )
    &&& forall|i: int|
        0 <= i < list.len() ==> (#[trigger] list[i]).nullifiers().no_duplicates()
}

/// A wallet that has seen the same nullifiers as consensus drops the bundles that consensus
/// drops, and appends the leaves that consensus appends.
pub proof fn bundles_mirror_consensus(v: WalletV, list: Seq<BundleV>, txs: Seq<TxV>)
    requires
        extracted(list, txs),
    ensures
        ({
            let w = walk(v.spent, txs);
            &&& v.bundles(list).leaves == v.leaves + w.leaves
            &&& v.bundles(list).tip == v.tip.extend(w.leaves)
            &&& v.bundles(list).spent == v.spent.union(w.nullifiers.to_set())
        }),
    decreases list.len(),
{
    if list.len() == 0 {
        assert(v.leaves + walk(v.spent, txs).leaves =~= v.leaves);
        assert(walk(v.spent, txs).nullifiers.to_set() =~= Set::<Seq<u8>>::empty());
        assert(v.spent =~= v.spent.union(Set::empty()));
    } else {
        let front = list.drop_last();
        assert forall|i: int| 0 <= i < front.len() implies extract(#[trigger] front[i]) == Ok::<
            TxV,
            BundleExtractError,
        >(txs.drop_last()[i]) by {
            assert(front[i] == list[i]);
        }
        assert forall|i: int| 0 <= i < front.len() implies (#[trigger] front[i]).nullifiers().no_duplicates() by {
            assert(front[i] == list[i]);
        }
        bundles_mirror_consensus(v, front, txs.drop_last());
        let w = walk(v.spent, txs.drop_last());
        let u = v.bundles(front);
        let b = list.last();
        let tx = txs.last();
        let n = b.actions.len() as int;
        assert(list[list.len() - 1] == b);
        assert(extract(b) == Ok::<TxV, BundleExtractError>(tx));
        assert(b.nullifiers() =~= nullifiers_of(b.actions, n));
        assert(tx.commitments =~= commitments_of(b.actions, n));
        lemma_drop_rules_agree(u, b);
        if !u.drops(b) {
            lemma_actions_spend(u, b.actions, n);
            lemma_actions_append(u, b.actions, n);
            assert(v.leaves + w.leaves + tx.commitments =~= v.leaves + (w.leaves + tx.commitments));
            batches_append_as_their_leaves(v.tip, w.leaves, tx.commitments);
            let all = w.nullifiers + tx.nullifiers;
            assert(v.spent.union(w.nullifiers.to_set()).union(tx.nullifiers.to_set())
                =~= v.spent.union(all.to_set())) by {
                assert forall|x: Seq<u8>| all.to_set().contains(x) == (w.nullifiers.to_set().contains(x)
                    || tx.nullifiers.to_set().contains(x)) by {
                    if w.nullifiers.contains(x) {
                        let i = choose|i: int| 0 <= i < w.nullifiers.len() && w.nullifiers[i] == x;
                        assert(all[i] == x);
                    }
                    if tx.nullifiers.contains(x) {
                        let i = choose|i: int| 0 <= i < tx.nullifiers.len() && tx.nullifiers[i] == x;
                        assert(all[w.nullifiers.len() + i] == x);
                    }
                }
            }
        }
    }
}

proof fn lemma_drop_rules_agree(v: WalletV, b: BundleV)
    requires
        b.nullifiers().no_duplicates(),
    ensures
        v.drops(b) <==> !acceptable(v.spent, b.nullifiers()),
{
    let nfs = b.nullifiers();
    if v.drops(b) {
        let i = choose|i: int|
            0 <= i < b.actions.len() && v.spent.contains((#[trigger] b.actions[i]).nullifier);
        assert(nfs[i] == b.actions[i].nullifier);
        assert(conflict_at(v.spent, nfs, i));
    } else {
        assert forall|i: int| 0 <= i < nfs.len() implies !#[trigger] conflict_at(v.spent, nfs, i) by {
            assert(!v.spent.contains(b.actions[i].nullifier));
            if repeats(nfs, i) {
                let j = choose|j: int| 0 <= j < nfs.take(i).len() && nfs.take(i)[j] == nfs[i];
                assert(nfs[j] == nfs[i]);
            }
        }
    }
}

/// The coinbase notes of a block are the notes of a coinbase's descriptions.
pub open spec fn minted_from(
    descs: Seq<(CoinbaseNoteDesc, u64)>,
    notes: Seq<CoinbaseNote>,
) -> bool {
    &&& descs.len() == notes.len()
    &&& forall|i: int|
        0 <= i < descs.len() ==> {
            let d = #[trigger] descs[i];
            &&& note_valid(d.0.note(d.1))
            &&& notes[i].commitment@ == d.0.note(d.1).commitment()
        }
}

proof fn lemma_coinbase_appends(
    v: WalletV,
    descs: Seq<(CoinbaseNoteDesc, u64)>,
    notes: Seq<CoinbaseNote>,
)
    requires
        minted_from(descs, notes),
    ensures
        v.coinbase(descs).leaves == v.leaves + note_leaves(notes),
        v.coinbase(descs).tip == v.tip.extend(note_leaves(notes)),
        v.coinbase(descs).spent == v.spent,
    decreases descs.len(),
{
    let leaves = note_leaves(notes);
    if descs.len() == 0 {
        assert(v.leaves + leaves =~= v.leaves);
    } else {
        let (d1, n1) = (descs.drop_last(), notes.drop_last());
        assert forall|i: int| 0 <= i < d1.len() implies {
            let d = #[trigger] d1[i];
            &&& note_valid(d.0.note(d.1))
            &&& n1[i].commitment@ == d.0.note(d.1).commitment()
        } by {
            assert(d1[i] == descs[i]);
        }
        lemma_coinbase_appends(v, d1, n1);
        assert(leaves.drop_last() =~= note_leaves(n1));
        let last = descs[descs.len() - 1];
        assert(note_valid(last.0.note(last.1)));
        assert(v.coinbase(descs).leaves =~= v.leaves + leaves);
    }
}

/// A wallet that has followed consensus so far arrives, after one more accepted block, at
/// the same tree, hence the same anchor, and at the same spent nullifiers.
pub proof fn wallets_mirror_consensus(
    v: WalletV,
    supply: LedgerV,
    descs: Seq<(CoinbaseNoteDesc, u64)>,
    notes: Seq<CoinbaseNote>,
    list: Seq<BundleV>,
    txs: Seq<TxV>,
    b: BlockV,
)
    requires
        minted_from(descs, notes),
        extracted(list, txs),
        transition(v.spent, v.tip, supply, notes, txs) == Ok::<BlockV, ShieldedStateError>(b),
    ensures
        ({
            let w = v.coinbase(descs).bundles(list);
            &&& w.tip == b.tree
            &&& w.tip.root() == b.tree.root()
            &&& w.spent == v.spent.union(b.walk.nullifiers.to_set())
            &&& w.leaves == v.leaves + b.leaves
        }),
{
    lemma_coinbase_appends(v, descs, notes);
    let u = v.coinbase(descs);
    bundles_mirror_consensus(u, list, txs);
    let w = walk(v.spent, txs);
    batches_append_as_their_leaves(v.tip, note_leaves(notes), w.leaves);
    assert(v.leaves + note_leaves(notes) + w.leaves =~= v.leaves + (note_leaves(notes) + w.leaves));
}

// ---------------------------------------------------------------------------
// Starting from a checkpoint frontier.

/// `w` follows the stream of `v` from leaf `k` on: it starts from the tree of the leaves
/// before, and holds what `v` holds.
pub open spec fn follows_from(v: WalletV, w: WalletV, k: int) -> bool {
    &&& 0 <= k <= v.leaves.len()
    &&& w.fvk == v.fvk
    &&& w.base == v.base.extend(v.leaves.take(k))
    &&& w.base.size == v.base.size + k
    &&& w.leaves == v.leaves.skip(k)
    &&& w.notes == v.notes
    &&& w.tip == v.tip
}

proof fn lemma_follows_append(v: WalletV, w: WalletV, k: int, cmx: Seq<u8>, owned: Option<crate::note::NoteV>)
    requires
        follows_from(v, w, k),
    ensures
        follows_from(v.append_leaf(cmx, owned), w.append_leaf(cmx, owned), k),
{
    assert(v.leaves.push(cmx).take(k) =~= v.leaves.take(k));
    assert(v.leaves.push(cmx).skip(k) =~= v.leaves.skip(k).push(cmx));
}

proof fn lemma_follows_actions(v: WalletV, w: WalletV, k: int, actions: Seq<ActionV>, n: int)
    requires
        follows_from(v, w, k),
        0 <= n <= actions.len(),
    ensures
        follows_from(v.actions(actions, n), w.actions(actions, n), k),
    decreases n,
{
    if n > 0 {
        lemma_follows_actions(v, w, k, actions, n - 1);
        let a = actions[n - 1];
        let (x, y) = (
            v.actions(actions, n - 1).revealed(a.nullifier),
            w.actions(actions, n - 1).revealed(a.nullifier),
        );
        if canonical_base(a.cmx) {
            lemma_follows_append(x, y, k, a.cmx, hit(v.ivk(), a));
        }
    }
}

/// A wallet that starts from a checkpoint frontier keeps up with one that scanned
/// everything: after each further block (of bundles that neither or both would drop) it
/// holds the same notes at the same positions and is at the same tree.
pub proof fn fast_sync_keeps_up(
    v: WalletV,
    w: WalletV,
    k: int,
    notes: Seq<(CoinbaseNoteDesc, u64)>,
    b: BundleV,
)
    requires
        follows_from(v, w, k),
        v.drops(b) <==> w.drops(b),
    ensures
        follows_from(v.coinbase(notes), w.coinbase(notes), k),
        follows_from(v.bundle(b), w.bundle(b), k),
    decreases notes.len(),
{
    if notes.len() > 0 {
        fast_sync_keeps_up(v, w, k, notes.drop_last(), b);
        let (desc, value) = notes.last();
        if note_valid(desc.note(value)) {
            lemma_follows_append(
                v.coinbase(notes.drop_last()),
                w.coinbase(notes.drop_last()),
                k,
                desc.note(value).commitment(),
                v.recover(desc, value),
            );
        }
    }
    lemma_follows_actions(v, w, k, b.actions, b.actions.len() as int);
}

/// A wallet that starts from a checkpoint frontier builds the same authentication paths as
/// one that scanned everything, for every note behind the frontier.
pub proof fn fast_sync_builds_the_same_paths(
    v: WalletV,
    w: WalletV,
    k: int,
    position: nat,
    matured: nat,
)
    requires
        follows_from(v, w, k),
        all_canonical(v.leaves),
        position >= w.base.size,
    ensures
        w.rebuilt_path(position, matured) == v.rebuilt_path(position, matured),
{
    assert forall|i: int| 0 <= i < w.leaves.len() implies canonical_base(#[trigger] w.leaves[i]) by {
        assert(w.leaves[i] == v.leaves[i + k]);
    }
    let rel = position - v.base.size;
    let end = matured - v.base.size;
    if rel < end && end <= v.leaves.len() {
        batches_append_as_their_leaves(
            v.base,
            v.leaves.take(k),
            w.leaves.take(rel - k + 1),
        );
        assert(v.leaves.take(k) + w.leaves.take(rel - k + 1) =~= v.leaves.take(rel + 1));
        assert(w.leaves.subrange(rel - k + 1, end - k) =~= v.leaves.subrange(rel + 1, end));
    }
}

/// A wallet that was rebased onto the tree of another one's stream follows that stream from
/// its end, where the other one holds no notes yet.
pub proof fn rebasing_follows(v: WalletV)
    requires
        v.notes.len() == 0,
        v.tip == v.base.extend(v.leaves),
        v.base.size + v.leaves.len() <= TREE_CAPACITY,
    ensures
        follows_from(v, WalletV::fresh(v.fvk).rebased(v.tip), v.leaves.len() as int),
{
    let w = WalletV::fresh(v.fvk).rebased(v.tip);
    let n = v.leaves.len() as int;
    assert(v.leaves.take(n) =~= v.leaves);
    assert(v.leaves.skip(n) =~= Seq::<Seq<u8>>::empty());
    assert(w.notes =~= v.notes);
    lemma_extend_size(v.base, v.leaves);
}

proof fn lemma_coinbase_keeps_key(v: WalletV, coinbase: Seq<(CoinbaseNoteDesc, u64)>)
    ensures
        v.coinbase(coinbase).fvk == v.fvk,
        v.coinbase(coinbase).base == v.base,
    decreases coinbase.len(),
{
    if coinbase.len() > 0 {
        lemma_coinbase_keeps_key(v, coinbase.drop_last());
    }
}

proof fn lemma_bundles_keep_key(v: WalletV, bundles: Seq<BundleV>)
    ensures
        v.bundles(bundles).fvk == v.fvk,
        v.bundles(bundles).base == v.base,
    decreases bundles.len(),
{
    if bundles.len() > 0 {
        let w = v.bundles(bundles.drop_last());
        let b = bundles.last();
        lemma_bundles_keep_key(v, bundles.drop_last());
        lemma_actions_spend(w, b.actions, b.actions.len() as int);
    }
}

/// Following a block changes neither the wallet's key nor where its stream starts.
pub proof fn blocks_keep_the_key(
    v: WalletV,
    coinbase: Seq<(CoinbaseNoteDesc, u64)>,
    bundles: Seq<BundleV>,
)
    ensures
        v.coinbase(coinbase).bundles(bundles).fvk == v.fvk,
        v.coinbase(coinbase).bundles(bundles).base == v.base,
{
    lemma_coinbase_keeps_key(v, coinbase);
    lemma_bundles_keep_key(v.coinbase(coinbase), bundles);
}

} // verus!
