//! What the preview of the blocks that are not settled says of the balance to come.

use crate::coinbase::CoinbaseNoteDesc;
use crate::daemon::blocks::DecodedBlock;
use crate::daemon::sync::{after_blocks, blocks_incoming, blocks_outgoing, pairs_of};
use crate::effects::held_views;
use crate::field::ExtractedNoteCommitment;
use crate::walletdb::previews::{
    apart, bundles_create, coinbase_creates, each_once, held_value, lemma_bundles_worth,
    lemma_push_worth, reveals_in,
};
use crate::walletdb::{worth, OwnedV, WalletV};
use vstd::prelude::*;

verus! {

/// The block reveals the nullifier.
pub open spec fn block_reveals(b: DecodedBlock, nf: Seq<u8>) -> bool {
    reveals_in(held_views(b.bundles@), nf)
}

/// The block pays the wallet a note with this nullifier.
pub open spec fn block_creates(w: WalletV, b: DecodedBlock, nf: Seq<u8>) -> bool {
    coinbase_creates(w, pairs_of(b.coinbase@), nf) || bundles_create(w, held_views(b.bundles@), nf)
}

/// The blocks reveal no nullifier twice.
pub open spec fn revealed_once(blocks: Seq<DecodedBlock>) -> bool {
    &&& forall|b: int| 0 <= b < blocks.len() ==> each_once(held_views((#[trigger] blocks[b]).bundles@))
    &&& forall|b: int, c: int, nf: Seq<u8>|
        0 <= b < c < blocks.len() && #[trigger] block_reveals(blocks[b], nf) ==> !(
        #[trigger] block_reveals(blocks[c], nf))
}

/// No block spends a note that one of the blocks pays the wallet.
pub open spec fn spends_nothing_ahead(w: WalletV, blocks: Seq<DecodedBlock>) -> bool {
    forall|b: int, c: int, nf: Seq<u8>|
        0 <= b < blocks.len() && 0 <= c < blocks.len() && #[trigger] block_reveals(blocks[b], nf)
            ==> !(#[trigger] block_creates(w, blocks[c], nf))
}

/// Some of the first `n` blocks reveals the nullifier.
spec fn reveals_before(blocks: Seq<DecodedBlock>, n: int, nf: Seq<u8>) -> bool {
    exists|b: int| 0 <= b < n && block_reveals(#[trigger] blocks[b], nf)
}

/// Some of the first `n` blocks pays the wallet a note with this nullifier.
spec fn creates_before(w: WalletV, blocks: Seq<DecodedBlock>, n: int, nf: Seq<u8>) -> bool {
    exists|b: int| 0 <= b < n && block_creates(w, #[trigger] blocks[b], nf)
}

/// What a block's coinbase does to what the wallet holds, with the commitments at hand.
proof fn lemma_precomputed_worth(
    v: WalletV,
    list: Seq<(CoinbaseNoteDesc, u64, ExtractedNoteCommitment)>,
)
    ensures
        worth(v.coinbase_precomputed(list).notes) == worth(v.notes) + v.coinbase_incoming(
            pairs_of(list),
        ),
        v.coinbase_precomputed(list).fvk == v.fvk,
        v.coinbase_precomputed(list).spent == v.spent,
        forall|nf: Seq<u8>|
            !coinbase_creates(v, pairs_of(list), nf) ==> #[trigger] held_value(
                v.coinbase_precomputed(list).notes,
                nf,
            ) == held_value(v.notes, nf),
    decreases list.len(),
{
    if list.len() > 0 {
        let front = list.drop_last();
        let all = pairs_of(list);
        let x = v.coinbase_precomputed(front);
        let (desc, value, _cmx) = list.last();
        lemma_precomputed_worth(v, front);
        assert(all.drop_last() =~= pairs_of(front));
        assert(all.last() == (desc, value));
        let found = v.recover(desc, value);
        if found is Some {
            let n = OwnedV {
                note: found->Some_0,
                position: x.size(),
                nullifier: found->Some_0.nullifier(x.fvk),
            };
            lemma_push_worth(x.notes, n);
        }
        assert forall|nf: Seq<u8>| !coinbase_creates(v, all, nf) implies #[trigger] held_value(
            v.coinbase_precomputed(list).notes,
            nf,
        ) == held_value(v.notes, nf) by {
            if coinbase_creates(v, pairs_of(front), nf) {
                let i = choose|i: int|
                    0 <= i < pairs_of(front).len() && (v.recover(
                        (#[trigger] pairs_of(front)[i]).0,
                        pairs_of(front)[i].1,
                    ) matches Some(n) && n.nullifier(v.fvk) == nf);
                assert(all[i] == pairs_of(front)[i]);
            }
            assert(held_value(x.notes, nf) == held_value(v.notes, nf));
            assert(all[all.len() - 1] == all.last());
        }
    }
}

/// What the coinbase pays depends on the wallet's key alone.
proof fn lemma_incoming_frame(v: WalletV, w: WalletV, notes: Seq<(CoinbaseNoteDesc, u64)>)
    requires
        v.fvk == w.fvk,
    ensures
        v.coinbase_incoming(notes) == w.coinbase_incoming(notes),
    decreases notes.len(),
{
    if notes.len() > 0 {
        lemma_incoming_frame(v, w, notes.drop_last());
    }
}

/// What the first `n` blocks do to what the wallet holds.
proof fn lemma_blocks_worth(w: WalletV, blocks: Seq<DecodedBlock>, n: int)
    requires
        0 <= n <= blocks.len(),
        apart(w.notes),
        revealed_once(blocks),
        spends_nothing_ahead(w, blocks),
    ensures
        ({
            let v = after_blocks(w, blocks, n);
            &&& worth(v.notes) + blocks_outgoing(w, blocks.take(n)) == worth(w.notes)
                + blocks_incoming(w, blocks.take(n))
            &&& v.fvk == w.fvk
            &&& w.spent.subset_of(v.spent)
            &&& forall|nf: Seq<u8>| #[trigger]
                v.spent.contains(nf) ==> w.spent.contains(nf) || reveals_before(blocks, n, nf)
            &&& forall|nf: Seq<u8>|
                !reveals_before(blocks, n, nf) && !creates_before(w, blocks, n, nf)
                    ==> #[trigger] held_value(v.notes, nf) == held_value(w.notes, nf)
        }),
    decreases n,
{
    if n == 0 {
        assert(blocks.take(0) =~= Seq::<DecodedBlock>::empty());
    } else {
        let j = n - 1;
        let b = blocks[j];
        let cb = pairs_of(b.coinbase@);
        let list = held_views(b.bundles@);
        let v = after_blocks(w, blocks, j);
        lemma_blocks_worth(w, blocks, j);
        lemma_precomputed_worth(v, b.coinbase@);
        lemma_incoming_frame(v, w, cb);
        let x = v.coinbase_precomputed(b.coinbase@);
        assert(blocks.take(n).drop_last() =~= blocks.take(j));
        assert(blocks.take(n).last() == b);
        assert(forall|nf: Seq<u8>| coinbase_creates(v, cb, nf) == coinbase_creates(w, cb, nf));
        assert(each_once(list));
        assert forall|nf: Seq<u8>| #[trigger] reveals_in(list, nf) implies !bundles_create(
            w,
            list,
            nf,
        ) && !reveals_before(blocks, j, nf) && !creates_before(w, blocks, j, nf)
            && !coinbase_creates(w, cb, nf) by {
            assert(block_reveals(blocks[j], nf));
            assert(!block_creates(w, blocks[j], nf));
            if reveals_before(blocks, j, nf) {
                let c = choose|c: int| 0 <= c < j && block_reveals(#[trigger] blocks[c], nf);
                assert(block_reveals(blocks[c], nf));
            }
            if creates_before(w, blocks, j, nf) {
                let c = choose|c: int| 0 <= c < j && block_creates(w, #[trigger] blocks[c], nf);
                assert(block_creates(w, blocks[c], nf));
            }
        }
        assert forall|nf: Seq<u8>| #[trigger] reveals_in(list, nf) implies held_value(x.notes, nf)
            == held_value(w.notes, nf) by {
            assert(held_value(x.notes, nf) == held_value(v.notes, nf));
            assert(held_value(v.notes, nf) == held_value(w.notes, nf));
        }
        assert forall|nf: Seq<u8>| #[trigger] reveals_in(list, nf) && x.spent.contains(
            nf,
        ) implies w.spent.contains(nf) by {
            assert(v.spent.contains(nf));
        }
        let m = list.len() as int;
        assert(list.take(m) =~= list);
        lemma_bundles_worth(w, x, list, m);
        let after = after_blocks(w, blocks, n);
        assert(after == x.bundles(list));
        assert forall|nf: Seq<u8>| #[trigger] after.spent.contains(nf) implies w.spent.contains(nf)
            || reveals_before(blocks, n, nf) by {
            if reveals_in(list, nf) {
                assert(block_reveals(blocks[j], nf));
            } else {
                assert(v.spent.contains(nf));
                if reveals_before(blocks, j, nf) {
                    let c = choose|c: int| 0 <= c < j && block_reveals(#[trigger] blocks[c], nf);
                    assert(block_reveals(blocks[c], nf));
                }
            }
        }
        assert forall|nf: Seq<u8>| !reveals_before(blocks, n, nf) && !creates_before(
            w,
            blocks,
            n,
            nf,
        ) implies #[trigger] held_value(after.notes, nf) == held_value(w.notes, nf) by {
            if reveals_before(blocks, j, nf) {
                let c = choose|c: int| 0 <= c < j && block_reveals(#[trigger] blocks[c], nf);
                assert(block_reveals(blocks[c], nf));
            }
            if creates_before(w, blocks, j, nf) {
                let c = choose|c: int| 0 <= c < j && block_creates(w, #[trigger] blocks[c], nf);
                assert(block_creates(w, blocks[c], nf));
            }
            assert(!block_reveals(blocks[j], nf));
            assert(!block_creates(w, blocks[j], nf));
            assert(held_value(after.notes, nf) == held_value(x.notes, nf));
            assert(held_value(x.notes, nf) == held_value(v.notes, nf));
            assert(held_value(v.notes, nf) == held_value(w.notes, nf));
        }
    }
}

/// The preview of the blocks that are not settled comes true: once all of them have entered
/// the tree, the balance has gained what the preview says comes in and lost what it says goes
/// out.
pub proof fn pending_balances_come_true(w: WalletV, blocks: Seq<DecodedBlock>)
    requires
        apart(w.notes),
        revealed_once(blocks),
        spends_nothing_ahead(w, blocks),
    ensures
        worth(after_blocks(w, blocks, blocks.len() as int).notes) + blocks_outgoing(w, blocks)
            == worth(w.notes) + blocks_incoming(w, blocks),
{
    lemma_blocks_worth(w, blocks, blocks.len() as int);
    assert(blocks.take(blocks.len() as int) =~= blocks);
}

} // verus!
