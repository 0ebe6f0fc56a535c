//! What a preview of a block says of the balance behind it.

use super::laws::{lemma_actions_spend, nullifiers_of};
use super::{
    first_value, hit, spent_value, total_received, unspent, worth, OwnedV, WalletV,
};
use crate::bundle::{ActionV, BundleV};
use crate::coinbase::CoinbaseNoteDesc;
use crate::wallet::scan::scanned;
use vstd::prelude::*;

verus! {

/// The value of all notes that a nullifier spends.
pub(crate) open spec fn held_value(notes: Seq<OwnedV>, nf: Seq<u8>) -> nat
    decreases notes.len(),
{
    if notes.len() == 0 {
        0
    } else {
        held_value(notes.drop_last(), nf) + if notes.last().nullifier == nf {
            notes.last().note.value as nat
        } else {
            0
        }
    }
}

/// No two notes have one nullifier.
pub open spec fn apart(notes: Seq<OwnedV>) -> bool {
    forall|i: int, j: int|
        0 <= i < j < notes.len() ==> (#[trigger] notes[i]).nullifier != (
        #[trigger] notes[j]).nullifier
}

/// Some action reveals the nullifier.
pub open spec fn shows(actions: Seq<ActionV>, nf: Seq<u8>) -> bool {
    exists|i: int| 0 <= i < actions.len() && (#[trigger] actions[i]).nullifier == nf
}

/// Some bundle reveals the nullifier.
pub open spec fn reveals_in(list: Seq<BundleV>, nf: Seq<u8>) -> bool {
    exists|b: int| 0 <= b < list.len() && shows((#[trigger] list[b]).actions, nf)
}

/// The bundles reveal no nullifier twice.
pub open spec fn each_once(list: Seq<BundleV>) -> bool {
    &&& forall|b: int|
        0 <= b < list.len() ==> (#[trigger] list[b]).nullifiers().no_duplicates()
    &&& forall|b: int, c: int, nf: Seq<u8>|
        0 <= b < c < list.len() && #[trigger] shows(list[b].actions, nf) ==> !(
        #[trigger] shows(list[c].actions, nf))
}

/// The nullifier is that of a note which the block's coinbase pays the wallet.
pub open spec fn coinbase_creates(
    w: WalletV,
    notes: Seq<(CoinbaseNoteDesc, u64)>,
    nf: Seq<u8>,
) -> bool {
    exists|i: int|
        0 <= i < notes.len() && (w.recover((#[trigger] notes[i]).0, notes[i].1) matches Some(n)
            && n.nullifier(w.fvk) == nf)
}

/// The nullifier is that of a note which the actions send the wallet.
pub open spec fn actions_create(w: WalletV, actions: Seq<ActionV>, nf: Seq<u8>) -> bool {
    exists|i: int|
        0 <= i < actions.len() && (hit(w.ivk(), #[trigger] actions[i]) matches Some(n)
            && n.nullifier(w.fvk) == nf)
}

/// The nullifier is that of a note which the bundles send the wallet.
pub open spec fn bundles_create(w: WalletV, list: Seq<BundleV>, nf: Seq<u8>) -> bool {
    exists|b: int| 0 <= b < list.len() && actions_create(w, (#[trigger] list[b]).actions, nf)
}

/// No bundle of the block spends a note that the block creates.
pub open spec fn spends_nothing_new(
    w: WalletV,
    coinbase: Seq<(CoinbaseNoteDesc, u64)>,
    list: Seq<BundleV>,
) -> bool {
    forall|nf: Seq<u8>| #[trigger]
        reveals_in(list, nf) ==> !coinbase_creates(w, coinbase, nf) && !bundles_create(w, list, nf)
}

proof fn lemma_held_front(notes: Seq<OwnedV>, nf: Seq<u8>)
    requires
        notes.len() > 0,
    ensures
        held_value(notes, nf) == held_value(notes.skip(1), nf) + if notes[0].nullifier == nf {
            notes[0].note.value as nat
        } else {
            0
        },
    decreases notes.len(),
{
    if notes.len() == 1 {
        assert(notes.skip(1) =~= Seq::<OwnedV>::empty());
        assert(notes.drop_last() =~= Seq::<OwnedV>::empty());
    } else {
        lemma_held_front(notes.drop_last(), nf);
        assert(notes.drop_last().skip(1) =~= notes.skip(1).drop_last());
    }
}

pub(crate) proof fn lemma_held_none(notes: Seq<OwnedV>, nf: Seq<u8>)
    requires
        forall|i: int| 0 <= i < notes.len() ==> (#[trigger] notes[i]).nullifier != nf,
    ensures
        held_value(notes, nf) == 0,
    decreases notes.len(),
{
    if notes.len() > 0 {
        assert(notes[notes.len() - 1].nullifier != nf);
        lemma_held_none(notes.drop_last(), nf);
    }
}

/// Where nullifiers differ, a nullifier spends the one note that it spends.
pub(crate) proof fn lemma_held_is_first(notes: Seq<OwnedV>, nf: Seq<u8>)
    requires
        apart(notes),
    ensures
        held_value(notes, nf) == first_value(notes, nf),
    decreases notes.len(),
{
    if notes.len() > 0 {
        let rest = notes.skip(1);
        lemma_held_front(notes, nf);
        assert forall|i: int, j: int| 0 <= i < j < rest.len() implies (
        #[trigger] rest[i]).nullifier != (#[trigger] rest[j]).nullifier by {
            assert(notes[i + 1].nullifier != notes[j + 1].nullifier);
        }
        if notes[0].nullifier == nf {
            assert forall|i: int| 0 <= i < rest.len() implies (#[trigger] rest[i]).nullifier
                != nf by {
                assert(notes[0].nullifier != notes[i + 1].nullifier);
            }
            lemma_held_none(rest, nf);
        } else {
            lemma_held_is_first(rest, nf);
        }
    }
}

/// Dropping what a nullifier spends takes its value off, and leaves what others spend.
proof fn lemma_unspent_worth(notes: Seq<OwnedV>, nf: Seq<u8>)
    ensures
        worth(unspent(notes, nf)) + held_value(notes, nf) == worth(notes),
        forall|other: Seq<u8>|
            other != nf ==> #[trigger] held_value(unspent(notes, nf), other) == held_value(
                notes,
                other,
            ),
    decreases notes.len(),
{
    if notes.len() > 0 {
        let front = unspent(notes.drop_last(), nf);
        lemma_unspent_worth(notes.drop_last(), nf);
        assert(front.push(notes.last()).drop_last() =~= front);
        assert forall|other: Seq<u8>| other != nf implies #[trigger] held_value(
            unspent(notes, nf),
            other,
        ) == held_value(notes, other) by {
            assert(held_value(front, other) == held_value(notes.drop_last(), other));
        }
    }
}

pub(crate) proof fn lemma_push_worth(notes: Seq<OwnedV>, n: OwnedV)
    ensures
        worth(notes.push(n)) == worth(notes) + n.note.value,
        forall|nf: Seq<u8>|
            n.nullifier != nf ==> #[trigger] held_value(notes.push(n), nf) == held_value(notes, nf),
{
    assert(notes.push(n).drop_last() =~= notes);
}

/// What the first `k` actions do to what the wallet holds.
proof fn lemma_actions_worth(w: WalletV, held: Seq<OwnedV>, actions: Seq<ActionV>, k: int)
    requires
        0 <= k <= actions.len(),
        Seq::new(actions.len(), |i: int| actions[i].nullifier).no_duplicates(),
        forall|nf: Seq<u8>| #[trigger] shows(actions, nf) ==> !actions_create(w, actions, nf),
        forall|nf: Seq<u8>| #[trigger]
            shows(actions, nf) ==> held_value(w.notes, nf) == first_value(held, nf),
    ensures
        worth(w.actions(actions, k).notes) + spent_value(held, actions.take(k)) == worth(w.notes)
            + total_received(scanned(w.ivk(), actions.take(k))),
        forall|nf: Seq<u8>|
            !shows(actions.take(k), nf) && !actions_create(w, actions.take(k), nf)
                ==> #[trigger] held_value(w.actions(actions, k).notes, nf) == held_value(
                w.notes,
                nf,
            ),
    decreases k,
{
    if k == 0 {
        assert(actions.take(0) =~= Seq::<ActionV>::empty());
    } else {
        let j = k - 1;
        let a = actions[j];
        let x = w.actions(actions, j);
        let before = actions.take(j);
        let now = actions.take(k);
        let nfs = Seq::new(actions.len(), |i: int| actions[i].nullifier);
        lemma_actions_worth(w, held, actions, j);
        lemma_actions_spend(w, actions, j);
        assert(now.drop_last() =~= before);
        assert(now.last() == a);
        assert(shows(actions, a.nullifier));
        assert(!shows(before, a.nullifier)) by {
            if shows(before, a.nullifier) {
                let i = choose|i: int|
                    0 <= i < before.len() && (#[trigger] before[i]).nullifier == a.nullifier;
                assert(nfs[i] == nfs[j]);
            }
        }
        assert(!actions_create(w, before, a.nullifier)) by {
            if actions_create(w, before, a.nullifier) {
                let i = choose|i: int|
                    0 <= i < before.len() && (hit(w.ivk(), #[trigger] before[i]) matches Some(n)
                        && n.nullifier(w.fvk) == a.nullifier);
                assert(actions[i] == before[i]);
                assert(actions_create(w, actions, a.nullifier));
            }
        }
        assert(held_value(x.notes, a.nullifier) == first_value(held, a.nullifier));
        lemma_unspent_worth(x.notes, a.nullifier);
        let y = x.revealed(a.nullifier);
        let found = hit(w.ivk(), a);
        let front = scanned(w.ivk(), before);
        if found is Some {
            let n = OwnedV {
                note: found->Some_0,
                position: y.size(),
                nullifier: found->Some_0.nullifier(y.fvk),
            };
            lemma_push_worth(y.notes, n);
            assert(scanned(w.ivk(), now).drop_last() =~= front);
        }
        assert forall|nf: Seq<u8>| !shows(now, nf) && !actions_create(
            w,
            now,
            nf,
        ) implies #[trigger] held_value(w.actions(actions, k).notes, nf) == held_value(
            w.notes,
            nf,
        ) by {
            assert(!shows(before, nf)) by {
                if shows(before, nf) {
                    let i = choose|i: int|
                        0 <= i < before.len() && (#[trigger] before[i]).nullifier == nf;
                    assert(now[i].nullifier == nf);
                }
            }
            assert(!actions_create(w, before, nf)) by {
                if actions_create(w, before, nf) {
                    let i = choose|i: int|
                        0 <= i < before.len() && (hit(w.ivk(), #[trigger] before[i]) matches Some(n)
                            && n.nullifier(w.fvk) == nf);
                    assert(now[i] == before[i]);
                }
            }
            assert(now[j].nullifier != nf);
            assert(held_value(x.notes, nf) == held_value(w.notes, nf));
            assert(held_value(y.notes, nf) == held_value(x.notes, nf));
            assert(hit(w.ivk(), now[j]) == found);
        }
    }
}

/// What a block's coinbase does to what the wallet holds.
proof fn lemma_coinbase_worth(w: WalletV, notes: Seq<(CoinbaseNoteDesc, u64)>)
    ensures
        worth(w.coinbase(notes).notes) == worth(w.notes) + w.coinbase_incoming(notes),
        w.coinbase(notes).fvk == w.fvk,
        w.coinbase(notes).spent == w.spent,
        forall|nf: Seq<u8>|
            !coinbase_creates(w, notes, nf) ==> #[trigger] held_value(w.coinbase(notes).notes, nf)
                == held_value(w.notes, nf),
    decreases notes.len(),
{
    if notes.len() > 0 {
        let front = notes.drop_last();
        let x = w.coinbase(front);
        let (desc, value) = notes.last();
        lemma_coinbase_worth(w, front);
        let found = w.recover(desc, value);
        if found is Some {
            let n = OwnedV {
                note: found->Some_0,
                position: x.size(),
                nullifier: found->Some_0.nullifier(x.fvk),
            };
            lemma_push_worth(x.notes, n);
        }
        assert forall|nf: Seq<u8>| !coinbase_creates(w, notes, nf) implies #[trigger] held_value(
            w.coinbase(notes).notes,
            nf,
        ) == held_value(w.notes, nf) by {
            if coinbase_creates(w, front, nf) {
                let i = choose|i: int|
                    0 <= i < front.len() && (w.recover((#[trigger] front[i]).0, front[i].1) matches Some(n)
                        && n.nullifier(w.fvk) == nf);
                assert(notes[i] == front[i]);
            }
            assert(held_value(x.notes, nf) == held_value(w.notes, nf));
            assert(notes[notes.len() - 1] == notes.last());
        }
    }
}

/// What the first `m` bundles do to what the wallet holds.
pub(crate) proof fn lemma_bundles_worth(w: WalletV, v: WalletV, list: Seq<BundleV>, m: int)
    requires
        0 <= m <= list.len(),
        v.fvk == w.fvk,
        w.spent.subset_of(v.spent),
        forall|nf: Seq<u8>| #[trigger]
            reveals_in(list, nf) && v.spent.contains(nf) ==> w.spent.contains(nf),
        apart(w.notes),
        each_once(list),
        forall|nf: Seq<u8>| #[trigger] reveals_in(list, nf) ==> !bundles_create(w, list, nf),
        forall|nf: Seq<u8>| #[trigger]
            reveals_in(list, nf) ==> held_value(v.notes, nf) == held_value(w.notes, nf),
    ensures
        worth(v.bundles(list.take(m)).notes) + w.bundles_outgoing(list.take(m)) == worth(v.notes)
            + w.bundles_incoming(list.take(m)),
        v.bundles(list.take(m)).fvk == w.fvk,
        forall|nf: Seq<u8>| #[trigger]
            v.bundles(list.take(m)).spent.contains(nf) ==> v.spent.contains(nf) || reveals_in(
                list.take(m),
                nf,
            ),
        w.spent.subset_of(v.bundles(list.take(m)).spent),
        forall|nf: Seq<u8>|
            !reveals_in(list.take(m), nf) && !bundles_create(w, list.take(m), nf)
                ==> #[trigger] held_value(v.bundles(list.take(m)).notes, nf) == held_value(
                v.notes,
                nf,
            ),
    decreases m,
{
    if m == 0 {
        assert(list.take(0) =~= Seq::<BundleV>::empty());
    } else {
        let j = m - 1;
        let before = list.take(j);
        let now = list.take(m);
        let b = list[j];
        let x = v.bundles(before);
        lemma_bundles_worth(w, v, list, j);
        assert(now.drop_last() =~= before);
        assert(now.last() == b);
        let n = b.actions.len() as int;
        assert(b.actions.take(n) =~= b.actions);
        lemma_actions_spend(x, b.actions, n);
        let nfs = nullifiers_of(b.actions, n);
        assert(nfs =~= b.nullifiers());
        assert(x.drops(b) == w.drops(b)) by {
            if w.drops(b) {
                let i = choose|i: int|
                    0 <= i < n && w.spent.contains((#[trigger] b.actions[i]).nullifier);
                assert(x.spent.contains(b.actions[i].nullifier));
            }
            if x.drops(b) && !w.drops(b) {
                let i = choose|i: int|
                    0 <= i < n && x.spent.contains((#[trigger] b.actions[i]).nullifier);
                let nf = b.actions[i].nullifier;
                assert(shows(list[j].actions, nf));
                assert(reveals_in(list, nf));
                assert(reveals_in(before, nf));
                let c = choose|c: int| 0 <= c < before.len() && shows((#[trigger] before[c]).actions, nf);
                assert(shows(list[c].actions, nf));
                assert(shows(list[j].actions, nf));
            }
        }
        assert forall|nf: Seq<u8>| #[trigger] shows(b.actions, nf) implies !actions_create(
            x,
            b.actions,
            nf,
        ) && held_value(x.notes, nf) == first_value(w.notes, nf) by {
            assert(shows(list[j].actions, nf));
            assert(reveals_in(list, nf));
            assert(actions_create(x, b.actions, nf) == actions_create(w, b.actions, nf));
            if actions_create(w, list[j].actions, nf) {
                assert(bundles_create(w, list, nf));
            }
            if reveals_in(before, nf) {
                let c = choose|c: int| 0 <= c < before.len() && shows((#[trigger] before[c]).actions, nf);
                assert(shows(list[c].actions, nf));
            }
            if bundles_create(w, before, nf) {
                let c = choose|c: int|
                    0 <= c < before.len() && actions_create(w, (#[trigger] before[c]).actions, nf);
                assert(actions_create(w, list[c].actions, nf));
            }
            lemma_held_is_first(w.notes, nf);
        }
        assert(list[j].nullifiers().no_duplicates());
        assert(Seq::new(b.actions.len(), |i: int| b.actions[i].nullifier) =~= b.nullifiers());
        lemma_actions_worth(x, w.notes, b.actions, n);
        assert forall|nf: Seq<u8>| #[trigger] v.bundles(now).spent.contains(nf) implies v.spent.contains(
            nf,
        ) || reveals_in(now, nf) by {
            if x.spent.contains(nf) {
                if !v.spent.contains(nf) {
                    let c = choose|c: int|
                        0 <= c < before.len() && shows((#[trigger] before[c]).actions, nf);
                    assert(shows(now[c].actions, nf));
                }
            } else {
                assert(nfs.to_set().contains(nf));
                let i = choose|i: int| 0 <= i < nfs.len() && nfs[i] == nf;
                assert(b.actions[i].nullifier == nf);
                assert(shows(now[j].actions, nf));
            }
        }
        assert forall|nf: Seq<u8>| !reveals_in(now, nf) && !bundles_create(
            w,
            now,
            nf,
        ) implies #[trigger] held_value(v.bundles(now).notes, nf) == held_value(v.notes, nf) by {
            if reveals_in(before, nf) {
                let c = choose|c: int| 0 <= c < before.len() && shows((#[trigger] before[c]).actions, nf);
                assert(shows(now[c].actions, nf));
            }
            if bundles_create(w, before, nf) {
                let c = choose|c: int|
                    0 <= c < before.len() && actions_create(w, (#[trigger] before[c]).actions, nf);
                assert(actions_create(w, now[c].actions, nf));
            }
            assert(!shows(now[j].actions, nf));
            assert(!actions_create(w, now[j].actions, nf));
            assert(actions_create(x, b.actions, nf) == actions_create(w, b.actions, nf));
            assert(held_value(x.notes, nf) == held_value(v.notes, nf));
            assert(held_value(x.actions(b.actions, n).notes, nf) == held_value(x.notes, nf));
        }
    }
}

/// A preview tells what a block will do to the balance: following the block adds what the
/// preview says comes in, and takes off what it says goes out.
pub proof fn previews_come_true(
    w: WalletV,
    coinbase: Seq<(CoinbaseNoteDesc, u64)>,
    list: Seq<BundleV>,
)
    requires
        apart(w.notes),
        each_once(list),
        spends_nothing_new(w, coinbase, list),
    ensures
        worth(w.coinbase(coinbase).bundles(list).notes) + w.bundles_outgoing(list) == worth(w.notes)
            + w.coinbase_incoming(coinbase) + w.bundles_incoming(list),
{
    lemma_coinbase_worth(w, coinbase);
    lemma_bundles_worth(w, w.coinbase(coinbase), list, list.len() as int);
    assert(list.take(list.len() as int) =~= list);
}

} // verus!
