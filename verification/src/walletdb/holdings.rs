//! What a wallet holds behind a block, note by note.

use super::graft::witnessed_at;
use super::{
    elsewhere, first_path, first_value, held_at, hit, spent_value, still_held, total_received,
    unspent, worth, OwnedV, WalletV, MAX_LIVE_WITNESSES,
};
use crate::bundle::{ActionV, BundleV};
use crate::coinbase::CoinbaseNoteDesc;
use crate::field::canonical_base;
use crate::note::note_valid;
use crate::sums::{total, totals_add_up};
use crate::tree::{all_canonical, TREE_CAPACITY};
use crate::wallet::scan::scanned;
use crate::witness::WitnessV;
use vstd::prelude::*;

verus! {

/// A list holds what stands before its last item, and that item.
pub(crate) proof fn lemma_contains_last<A>(s: Seq<A>, x: A)
    requires
        s.len() > 0,
    ensures
        s.contains(x) <==> s.drop_last().contains(x) || s.last() == x,
{
    if s.contains(x) {
        let i = choose|i: int| 0 <= i < s.len() && s[i] == x;
        if i < s.len() - 1 {
            assert(s.drop_last()[i] == x);
        }
    }
    if s.drop_last().contains(x) {
        let i = choose|i: int| 0 <= i < s.drop_last().len() && s.drop_last()[i] == x;
        assert(s[i] == x);
    }
    assert(s[s.len() - 1] == s.last());
}

/// A list with one item more holds that item and what it held.
pub(crate) proof fn lemma_contains_push<A>(s: Seq<A>, y: A, x: A)
    ensures
        s.push(y).contains(x) <==> s.contains(x) || y == x,
{
    lemma_contains_last(s.push(y), x);
    assert(s.push(y).drop_last() =~= s);
}

/// A revealed nullifier takes exactly the notes that it spends, and a position exactly the
/// note that stands there.
pub proof fn only_what_is_spent_goes(notes: Seq<OwnedV>, nf: Seq<u8>, position: nat, n: OwnedV)
    ensures
        unspent(notes, nf).contains(n) <==> notes.contains(n) && n.nullifier != nf,
        elsewhere(notes, position).contains(n) <==> notes.contains(n) && n.position != position,
    decreases notes.len(),
{
    if notes.len() > 0 {
        let front = notes.drop_last();
        only_what_is_spent_goes(front, nf, position, n);
        lemma_contains_last(notes, n);
        lemma_contains_push(unspent(front, nf), notes.last(), n);
        lemma_contains_push(elsewhere(front, position), notes.last(), n);
    }
}

/// A balance is the sum of the values of the notes.
pub proof fn balances_are_sums(notes: Seq<OwnedV>)
    ensures
        worth(notes) == total(Seq::new(notes.len(), |i: int| notes[i].note.value as nat)),
    decreases notes.len(),
{
    let values = Seq::new(notes.len(), |i: int| notes[i].note.value as nat);
    if notes.len() > 0 {
        let front = notes.drop_last();
        balances_are_sums(front);
        assert(values.drop_last() =~= Seq::new(
            front.len(),
            |i: int| front[i].note.value as nat,
        ));
    }
}

/// None of the actions from `from` on and before `to` reveals the nullifier.
pub open spec fn unrevealed(actions: Seq<ActionV>, from: int, to: int, nf: Seq<u8>) -> bool {
    forall|j: int| from <= j < to ==> (#[trigger] actions[j]).nullifier != nf
}

/// Action `i` brings the wallet the note.
pub open spec fn brings(v: WalletV, actions: Seq<ActionV>, i: int, n: OwnedV) -> bool {
    &&& hit(v.ivk(), actions[i]) == Some(n.note)
    &&& n.position == v.size() + i
    &&& n.nullifier == n.note.nullifier(v.fvk)
}

/// Behind a bundle a wallet holds exactly the notes that it held and that the bundle does not
/// spend, and those that an action sends it and no later one spends, each at its leaf.
pub proof fn bundles_bring_and_take_notes(v: WalletV, actions: Seq<ActionV>, k: int, n: OwnedV)
    requires
        0 <= k <= actions.len(),
        forall|i: int| 0 <= i < actions.len() ==> canonical_base((#[trigger] actions[i]).cmx),
    ensures
        v.actions(actions, k).size() == v.size() + k,
        v.actions(actions, k).notes.contains(n) <==> {
            ||| v.notes.contains(n) && unrevealed(actions, 0, k, n.nullifier)
            ||| exists|i: int|
                0 <= i < k && #[trigger] brings(v, actions, i, n) && unrevealed(
                    actions,
                    i + 1,
                    k,
                    n.nullifier,
                )
        },
    decreases k,
{
    if k > 0 {
        let j = k - 1;
        let a = actions[j];
        let x = v.actions(actions, j);
        let y = x.revealed(a.nullifier);
        bundles_bring_and_take_notes(v, actions, j, n);
        super::laws::lemma_actions_spend(v, actions, j);
        only_what_is_spent_goes(x.notes, a.nullifier, 0, n);
        let found = hit(v.ivk(), a);
        if found is Some {
            let m = OwnedV {
                note: found->Some_0,
                position: y.size(),
                nullifier: found->Some_0.nullifier(y.fvk),
            };
            lemma_contains_push(y.notes, m, n);
            assert(v.actions(actions, k).notes == y.notes.push(m));
            assert(m == n <==> brings(v, actions, j, n));
        }
        if y.notes.contains(n) {
            if v.notes.contains(n) && unrevealed(actions, 0, j, n.nullifier) {
                assert(unrevealed(actions, 0, k, n.nullifier));
            } else {
                let i = choose|i: int|
                    0 <= i < j && #[trigger] brings(v, actions, i, n) && unrevealed(
                        actions,
                        i + 1,
                        j,
                        n.nullifier,
                    );
                assert(unrevealed(actions, i + 1, k, n.nullifier));
            }
        }
        if brings(v, actions, j, n) {
            assert(unrevealed(actions, j + 1, k, n.nullifier));
        }
        if v.notes.contains(n) && unrevealed(actions, 0, k, n.nullifier) {
            assert(actions[j].nullifier != n.nullifier);
            assert(unrevealed(actions, 0, j, n.nullifier));
            assert(y.notes.contains(n));
        }
        assert forall|i: int| 0 <= i < j && #[trigger] brings(v, actions, i, n) && unrevealed(
            actions,
            i + 1,
            k,
            n.nullifier,
        ) implies y.notes.contains(n) by {
            assert(actions[j].nullifier != n.nullifier);
            assert(unrevealed(actions, i + 1, j, n.nullifier));
        }
    }
}

/// Output `i` of a coinbase pays the wallet the note.
pub open spec fn coinbase_brings(
    v: WalletV,
    notes: Seq<(CoinbaseNoteDesc, u64)>,
    i: int,
    n: OwnedV,
) -> bool {
    &&& notes[i].0.recipient@ == v.address()
    &&& n.note == notes[i].0.note(notes[i].1)
    &&& n.position == v.size() + i
    &&& n.nullifier == n.note.nullifier(v.fvk)
}

/// Behind a coinbase a wallet holds what it held, and exactly the notes that are paid to its
/// address, each at its leaf.
pub proof fn coinbase_payments_arrive(v: WalletV, notes: Seq<(CoinbaseNoteDesc, u64)>, n: OwnedV)
    requires
        forall|i: int| 0 <= i < notes.len() ==> note_valid((#[trigger] notes[i]).0.note(notes[i].1)),
    ensures
        v.coinbase(notes).size() == v.size() + notes.len(),
        v.coinbase(notes).fvk == v.fvk,
        v.coinbase(notes).notes.contains(n) <==> v.notes.contains(n) || exists|i: int|
            0 <= i < notes.len() && #[trigger] coinbase_brings(v, notes, i, n),
    decreases notes.len(),
{
    if notes.len() > 0 {
        let front = notes.drop_last();
        let last = notes.len() - 1;
        let (desc, value) = notes.last();
        let x = v.coinbase(front);
        assert forall|i: int| 0 <= i < front.len() implies note_valid(
            (#[trigger] front[i]).0.note(front[i].1),
        ) by {
            assert(notes[i] == front[i]);
        }
        coinbase_payments_arrive(v, front, n);
        assert(notes[last] == notes.last());
        assert(note_valid(desc.note(value)));
        let found = v.recover(desc, value);
        if found is Some {
            let m = OwnedV {
                note: found->Some_0,
                position: x.size(),
                nullifier: found->Some_0.nullifier(x.fvk),
            };
            lemma_contains_push(x.notes, m, n);
            assert(v.coinbase(notes).notes == x.notes.push(m));
            assert(m == n <==> coinbase_brings(v, notes, last, n));
        }
        assert forall|i: int| 0 <= i < last implies coinbase_brings(v, front, i, n)
            == #[trigger] coinbase_brings(v, notes, i, n) by {
            assert(notes[i] == front[i]);
        }
        if exists|i: int| 0 <= i < front.len() && #[trigger] coinbase_brings(v, front, i, n) {
            let i = choose|i: int|
                0 <= i < front.len() && #[trigger] coinbase_brings(v, front, i, n);
            assert(coinbase_brings(v, notes, i, n));
        }
        if exists|i: int| 0 <= i < notes.len() && #[trigger] coinbase_brings(v, notes, i, n) {
            let i = choose|i: int|
                0 <= i < notes.len() && #[trigger] coinbase_brings(v, notes, i, n);
            if i < last {
                assert(coinbase_brings(v, front, i, n));
            }
        }
    }
}

/// Bundles and coinbase notes are taken in one after the other: two runs of them do what the
/// first and then the second does.
pub proof fn blocks_are_taken_in_order(
    v: WalletV,
    a: Seq<BundleV>,
    b: Seq<BundleV>,
    x: Seq<(CoinbaseNoteDesc, u64)>,
    y: Seq<(CoinbaseNoteDesc, u64)>,
)
    ensures
        v.bundles(a + b) == v.bundles(a).bundles(b),
        v.coinbase(x + y) == v.coinbase(x).coinbase(y),
    decreases b.len() + y.len(),
{
    if b.len() > 0 {
        blocks_are_taken_in_order(v, a, b.drop_last(), x, y);
        assert((a + b).drop_last() =~= a + b.drop_last());
        assert((a + b).last() == b.last());
    } else {
        assert(a + b =~= a);
        if y.len() > 0 {
            blocks_are_taken_in_order(v, a, b, x, y.drop_last());
        }
    }
    if y.len() > 0 {
        if b.len() > 0 {
            blocks_are_taken_in_order(v, a, b, x, y.drop_last());
        }
        assert((x + y).drop_last() =~= x + y.drop_last());
        assert((x + y).last() == y.last());
        lemma_coinbase_key(v, x);
    } else {
        assert(x + y =~= x);
    }
}

proof fn lemma_coinbase_key(v: WalletV, x: Seq<(CoinbaseNoteDesc, u64)>)
    ensures
        v.coinbase(x).fvk == v.fvk,
    decreases x.len(),
{
    if x.len() > 0 {
        lemma_coinbase_key(v, x.drop_last());
    }
}

/// What each action sends the wallet.
pub open spec fn sent_by(v: WalletV, actions: Seq<ActionV>) -> Seq<nat> {
    Seq::new(
        actions.len(),
        |i: int|
            match hit(v.ivk(), actions[i]) {
                Some(note) => note.value as nat,
                None => 0,
            },
    )
}

/// What each action spends of the wallet's.
pub open spec fn taken_by(v: WalletV, actions: Seq<ActionV>) -> Seq<nat> {
    Seq::new(actions.len(), |i: int| first_value(v.notes, actions[i].nullifier) as nat)
}

/// What each coinbase output pays the wallet.
pub open spec fn paid_by(v: WalletV, notes: Seq<(CoinbaseNoteDesc, u64)>) -> Seq<nat> {
    Seq::new(
        notes.len(),
        |i: int|
            if notes[i].0.recipient@ == v.address() && note_valid(notes[i].0.note(notes[i].1)) {
                notes[i].1 as nat
            } else {
                0
            },
    )
}

/// A preview counts each coinbase output that pays the wallet and each action that does, and
/// each note that an action spends.
pub proof fn previews_count_in_full(
    v: WalletV,
    notes: Seq<(CoinbaseNoteDesc, u64)>,
    actions: Seq<ActionV>,
)
    ensures
        v.coinbase_incoming(notes) == total(paid_by(v, notes)),
        total_received(scanned(v.ivk(), actions)) == total(sent_by(v, actions)),
        spent_value(v.notes, actions) == total(taken_by(v, actions)),
    decreases notes.len() + actions.len(),
{
    if notes.len() > 0 {
        previews_count_in_full(v, notes.drop_last(), actions);
        assert(paid_by(v, notes).drop_last() =~= paid_by(v, notes.drop_last()));
    }
    if actions.len() > 0 {
        let front = actions.drop_last();
        previews_count_in_full(v, notes, front);
        assert(sent_by(v, actions).drop_last() =~= sent_by(v, front));
        assert(taken_by(v, actions).drop_last() =~= taken_by(v, front));
        let s = scanned(v.ivk(), front);
        if hit(v.ivk(), actions.last()) is Some {
            assert(scanned(v.ivk(), actions).drop_last() =~= s);
        }
    }
}

/// Previews of bundles add up; one alone counts unless it spends again what is spent.
pub proof fn bundle_previews_add_up(v: WalletV, a: Seq<BundleV>, b: Seq<BundleV>, one: BundleV)
    ensures
        v.bundles_incoming(a + b) == v.bundles_incoming(a) + v.bundles_incoming(b),
        v.bundles_outgoing(a + b) == v.bundles_outgoing(a) + v.bundles_outgoing(b),
        (forall|nf: Seq<u8>| #[trigger] one.nullifiers().contains(nf) ==> !v.spent.contains(nf))
            ==> v.bundles_incoming(seq![one]) == total(sent_by(v, one.actions))
            && v.bundles_outgoing(seq![one]) == total(taken_by(v, one.actions)),
        (exists|nf: Seq<u8>| #[trigger] one.nullifiers().contains(nf) && v.spent.contains(nf))
            ==> v.bundles_incoming(seq![one]) == 0 && v.bundles_outgoing(seq![one]) == 0,
    decreases b.len(),
{
    let single = seq![one];
    assert(single.drop_last() =~= Seq::<BundleV>::empty());
    assert(single.last() == one);
    assert(v.bundles_incoming(single.drop_last()) == 0);
    assert(v.bundles_outgoing(single.drop_last()) == 0);
    previews_count_in_full(v, Seq::empty(), one.actions);
    if v.drops(one) {
        let i = choose|i: int|
            0 <= i < one.actions.len() && v.spent.contains((#[trigger] one.actions[i]).nullifier);
        assert(one.nullifiers()[i] == one.actions[i].nullifier);
        assert(one.nullifiers().contains(one.actions[i].nullifier));
    }
    if exists|nf: Seq<u8>| #[trigger] one.nullifiers().contains(nf) && v.spent.contains(nf) {
        let nf = choose|nf: Seq<u8>| #[trigger]
            one.nullifiers().contains(nf) && v.spent.contains(nf);
        let i = choose|i: int| 0 <= i < one.nullifiers().len() && one.nullifiers()[i] == nf;
        assert(one.actions[i].nullifier == nf);
    }
    if b.len() == 0 {
        assert(a + b =~= a);
    } else {
        bundle_previews_add_up(v, a, b.drop_last(), one);
        assert((a + b).drop_last() =~= a + b.drop_last());
        assert((a + b).last() == b.last());
    }
}

/// What a nullifier spends is the value of a note that it spends, and nothing where it spends
/// none.
pub proof fn spent_values_are_those_of_notes(notes: Seq<OwnedV>, nf: Seq<u8>)
    ensures
        (exists|i: int|
            0 <= i < notes.len() && (#[trigger] notes[i]).nullifier == nf && notes[i].note.value
                == first_value(notes, nf)) || (first_value(notes, nf) == 0 && forall|i: int|
            0 <= i < notes.len() ==> (#[trigger] notes[i]).nullifier != nf),
    decreases notes.len(),
{
    if notes.len() > 0 {
        let rest = notes.skip(1);
        if notes[0].nullifier != nf {
            spent_values_are_those_of_notes(rest, nf);
            if exists|i: int|
                0 <= i < rest.len() && (#[trigger] rest[i]).nullifier == nf && rest[i].note.value
                    == first_value(rest, nf) {
                let i = choose|i: int|
                    0 <= i < rest.len() && (#[trigger] rest[i]).nullifier == nf
                        && rest[i].note.value == first_value(rest, nf);
                assert(notes[i + 1] == rest[i]);
            } else {
                assert forall|i: int| 0 <= i < notes.len() implies (#[trigger] notes[i]).nullifier
                    != nf by {
                    if i > 0 {
                        assert(rest[i - 1] == notes[i]);
                    }
                }
            }
        }
    }
}

/// A live witness is kept exactly where a note is held.
pub proof fn held_notes_keep_their_witness(
    ws: Seq<(nat, WitnessV)>,
    notes: Seq<OwnedV>,
    w: (nat, WitnessV),
)
    ensures
        still_held(ws, notes).contains(w) <==> ws.contains(w) && exists|i: int|
            0 <= i < notes.len() && (#[trigger] notes[i]).position == w.0,
        still_held(ws, notes).len() <= ws.len(),
    decreases ws.len(),
{
    if ws.len() > 0 {
        let front = ws.drop_last();
        held_notes_keep_their_witness(front, notes, w);
        lemma_contains_last(ws, w);
        lemma_contains_push(still_held(front, notes), ws.last(), w);
    }
}

/// There is a path at hand exactly where a live witness is held, and it is that of one.
pub proof fn live_paths_come_from_a_witness(ws: Seq<(nat, WitnessV)>, position: nat)
    ensures
        first_path(ws, position) is Some <==> witnessed_at(ws, position),
        first_path(ws, position) matches Some(p) ==> exists|i: int|
            0 <= i < ws.len() && (#[trigger] ws[i]).0 == position && p.path == ws[i].1.path()
                && p.position == (ws[i].1.base.size - 1) as u32,
    decreases ws.len(),
{
    if ws.len() > 0 {
        let rest = ws.skip(1);
        if ws[0].0 != position {
            live_paths_come_from_a_witness(rest, position);
            if witnessed_at(rest, position) {
                let i = choose|i: int| 0 <= i < rest.len() && (#[trigger] rest[i]).0 == position;
                assert(ws[i + 1].0 == position);
                let j = choose|j: int|
                    0 <= j < rest.len() && (#[trigger] rest[j]).0 == position && first_path(
                        rest,
                        position,
                    )->Some_0.path == rest[j].1.path() && first_path(rest, position)->Some_0.position
                        == (rest[j].1.base.size - 1) as u32;
                assert(ws[j + 1] == rest[j]);
            }
            if witnessed_at(ws, position) {
                let i = choose|i: int| 0 <= i < ws.len() && (#[trigger] ws[i]).0 == position;
                assert(rest[i - 1].0 == position);
            }
        }
    }
}

/// A path that is at hand is the path that rebuilding from the stream would give.
pub proof fn live_paths_are_the_rebuilt_ones(v: WalletV, position: nat)
    requires
        v.in_step(),
        all_canonical(v.leaves),
        v.upto <= TREE_CAPACITY,
        v.live_path(position, v.upto) is Some,
    ensures
        v.live_path(position, v.upto) == v.rebuilt_path(position, v.upto),
{
    live_paths_come_from_a_witness(v.witnesses, position);
    let p = first_path(v.witnesses, position)->Some_0;
    let i = choose|i: int|
        0 <= i < v.witnesses.len() && (#[trigger] v.witnesses[i]).0 == position && p.path
            == v.witnesses[i].1.path() && p.position == (v.witnesses[i].1.base.size - 1) as u32;
    assert(v.witnesses[i].1 == v.witness_at(position, v.upto));
}

/// One step of the live witnesses goes towards the target by at most its bound, never back,
/// never past the target, and all the way where the bound allows; it leaves the stream and the
/// notes alone.
pub proof fn witness_steps_go_forward(v: WalletV, target: nat, cap: nat)
    requires
        v.base.size <= v.upto <= v.size(),
    ensures
        ({
            let w = v.advanced(target, cap);
            &&& v.upto <= w.upto
            &&& w.upto <= v.upto + cap
            &&& w.upto <= target || w.upto == v.upto
            &&& target <= v.size() && v.upto <= target && target - v.upto <= cap ==> w.upto == target
            &&& target <= v.size() && target - v.upto > cap ==> w.upto == v.upto + cap
            &&& w.notes == v.notes
            &&& w.leaves == v.leaves
            &&& w.base == v.base
            &&& w.tip == v.tip
            &&& w.spent == v.spent
            &&& w.fvk == v.fvk
        }),
{
    let start = v.behind_from();
    let to = v.reach(target, cap);
    if to > start {
        lemma_see_range_frame(v.pruned(), start, (to - start) as nat);
    }
}

proof fn lemma_see_range_frame(v: WalletV, start: nat, n: nat)
    ensures
        ({
            let w = v.see_range(start, n);
            &&& w.notes == v.notes
            &&& w.leaves == v.leaves
            &&& w.base == v.base
            &&& w.tip == v.tip
            &&& w.spent == v.spent
            &&& w.fvk == v.fvk
            &&& v.witnesses.len() <= w.witnesses.len() <= v.witnesses.len() + n
            &&& forall|i: int|
                0 <= i < v.witnesses.len() ==> (#[trigger] w.witnesses[i]).0 == v.witnesses[i].0
        }),
    decreases n,
{
    if n > 0 {
        lemma_see_range_frame(v, start, (n - 1) as nat);
        let x = v.see_range(start, (n - 1) as nat);
        let w = v.see_range(start, n);
        assert forall|i: int| 0 <= i < v.witnesses.len() implies (#[trigger] w.witnesses[i]).0
            == v.witnesses[i].0 by {
            assert(x.witnesses[i].0 == v.witnesses[i].0);
        }
    }
}

proof fn lemma_seen_notes_are_witnessed(v: WalletV, start: nat, n: nat, position: nat)
    requires
        all_canonical(v.leaves),
        held_at(v.notes, position),
        start <= position < start + n,
        v.base.size <= start,
        start + n <= v.size(),
        v.witnesses.len() + n <= MAX_LIVE_WITNESSES,
    ensures
        witnessed_at(v.see_range(start, n).witnesses, position),
    decreases n,
{
    let x = v.see_range(start, (n - 1) as nat);
    let w = v.see_range(start, n);
    let at = (start + n - 1) as nat;
    lemma_see_range_frame(v, start, (n - 1) as nat);
    assert(x.decoded() == v.leaves);
    if position == at {
        assert(w.witnesses[x.witnesses.len() as int].0 == at);
    } else {
        lemma_seen_notes_are_witnessed(v, start, (n - 1) as nat, position);
        let i = choose|i: int|
            0 <= i < x.witnesses.len() && (#[trigger] x.witnesses[i]).0 == position;
        assert(w.witnesses[i].0 == position);
    }
}

/// Where there is room for them, every held note whose leaf a step reaches has a live witness
/// behind it, and a held note that had one keeps it.
pub proof fn held_notes_get_their_witness(v: WalletV, target: nat, cap: nat, position: nat)
    requires
        v.base.size <= v.upto <= v.size(),
        all_canonical(v.leaves),
        held_at(v.notes, position),
    ensures
        witnessed_at(v.witnesses, position) ==> witnessed_at(
            v.advanced(target, cap).witnesses,
            position,
        ),
        v.upto <= position < v.advanced(target, cap).upto && v.witnesses.len() + cap
            <= MAX_LIVE_WITNESSES ==> witnessed_at(v.advanced(target, cap).witnesses, position),
{
    let start = v.behind_from();
    let to = v.reach(target, cap);
    if to > start {
        let p = v.pruned();
        let n = (to - start) as nat;
        let w = p.see_range(start, n);
        lemma_see_range_frame(p, start, n);
        if witnessed_at(v.witnesses, position) {
            let i = choose|i: int|
                0 <= i < v.witnesses.len() && (#[trigger] v.witnesses[i]).0 == position;
            let x = v.witnesses[i];
            held_notes_keep_their_witness(v.witnesses, v.notes, x);
            assert(v.witnesses.contains(x));
            let j = choose|j: int| 0 <= j < p.witnesses.len() && p.witnesses[j] == x;
            assert(w.witnesses[j].0 == position);
        }
        if v.upto <= position < to && v.witnesses.len() + cap <= MAX_LIVE_WITNESSES {
            if v.witnesses.len() > 0 {
                held_notes_keep_their_witness(v.witnesses, v.notes, v.witnesses[0]);
            }
            lemma_seen_notes_are_witnessed(p, start, n, position);
        }
    }
}

} // verus!
