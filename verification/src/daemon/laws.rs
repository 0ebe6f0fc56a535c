//! What the daemon's choices amount to: which notes a payment takes, what it pays and leaves,
//! and which notes wait, come back or are gone.

use crate::bundle::decode_bundle;
use crate::coinbase::derivable;
use crate::daemon::blocks::{accepted, accepted_ids, coinbase_note_of, minted_notes, ChainBlock};
use crate::daemon::fees::{
    covers, next_chunk, notes_in, paid_in, pays_off, runs_out, sum_of, takes, Chunk, FeeSchedule,
};
use crate::daemon::load::{
    chain_weight, first_born, replayed, settled_pass, walk_next, WalkStep,
};
use crate::daemon::parked::{
    lists, lost, parked_from, waiting, with_parked, ParkedV,
};
use crate::daemon::spend::{
    arranged, arranged_by, candidates, candidates_among, merges, settled, stale, values_of,
    ConsolidateError, PlannedTx, PrepareError,
};
use crate::daemon::submit::{away_from, paid_by};
use crate::daemon::sync::WalletEntry;
use crate::effects::output_seed;
use crate::note::{note_valid, NoteV};
use crate::sums::{total, totals_add_up};
use crate::tx::TransactionOutput;
use crate::walletdb::holdings::{
    lemma_contains_last, lemma_contains_push, only_what_is_spent_goes,
};
use crate::walletdb::taken_back::with_note;
use crate::walletdb::{action_count, OwnedV, WalletV};
use vstd::prelude::*;

verus! {

/// Amounts as plain numbers.
pub open spec fn amounts(values: Seq<u64>) -> Seq<nat> {
    Seq::new(values.len(), |i: int| values[i] as nat)
}

/// The first values add up to the sum of each of them.
pub proof fn sums_count_each_value(values: Seq<u64>, n: int)
    requires
        0 <= n <= values.len(),
    ensures
        sum_of(values, n) == total(amounts(values.take(n))),
    decreases n,
{
    if n > 0 {
        sums_count_each_value(values, n - 1);
        assert(amounts(values.take(n)) =~= amounts(values.take(n - 1)).push(
            values[n - 1] as nat,
        ));
        totals_add_up(amounts(values.take(n - 1)), Seq::empty(), values[n - 1] as nat);
    }
}

/// A fee is never below what the caller offers, nor below what the node asks for that number
/// of spends, and it is no more than the greater of the two. More spends than the node lists
/// cost what the last entry says.
pub proof fn fees_meet_what_is_asked(f: FeeSchedule, n: int)
    requires
        n >= 1,
    ensures
        f.fee_of(n) >= f.base,
        n <= f.least@.len() ==> f.fee_of(n) >= f.least@[n - 1],
        n <= f.least@.len() ==> f.fee_of(n) == f.base || f.fee_of(n) == f.least@[n - 1],
        0 < f.least@.len() < n ==> f.fee_of(n) == f.fee_of(f.least@.len() as int),
        f.least@.len() == 0 ==> f.fee_of(n) == f.base,
{
}

/// A transaction takes the fewest notes that cover the amount and their fee: no shorter run of
/// the notes does, and where some run within the limit does, the one taken does. How many it
/// takes is determined.
pub proof fn payments_take_the_fewest_notes(
    values: Seq<u64>,
    amount: nat,
    fees: FeeSchedule,
    max_per: int,
    n: int,
    m: int,
)
    requires
        takes(values, amount, fees, max_per, n),
    ensures
        0 <= n <= values.len(),
        max_per >= 0 ==> n <= max_per,
        0 < m < n ==> total(amounts(values.take(m))) < amount + fees.fee_of(m),
        0 < m <= values.len() && m <= max_per && total(amounts(values.take(m))) >= amount
            + fees.fee_of(m) ==> n <= m && total(amounts(values.take(n))) >= amount + fees.fee_of(n),
        takes(values, amount, fees, max_per, m) ==> m == n,
{
    if 0 < m <= values.len() {
        sums_count_each_value(values, m);
        if m < n {
            assert(!covers(values, m, amount, fees));
        }
        if m <= max_per && covers(values, m, amount, fees) && n > m {
            assert(!covers(values, m, amount, fees));
        }
    }
    sums_count_each_value(values, n);
    if takes(values, amount, fees, max_per, m) {
        if m < n && m > 0 {
            assert(!covers(values, m, amount, fees));
        }
        if n < m && n > 0 {
            assert(!covers(values, n, amount, fees));
        }
    }
}

/// The chunks of a payment pay and spend the sums of what each of them pays and spends.
pub proof fn chunks_add_up(chunks: Seq<Chunk>)
    ensures
        paid_in(chunks) == total(Seq::new(chunks.len(), |i: int| chunks[i].pay as nat)),
        notes_in(chunks) == total(Seq::new(chunks.len(), |i: int| chunks[i].notes as nat)),
    decreases chunks.len(),
{
    if chunks.len() > 0 {
        let rest = chunks.skip(1);
        let pays = Seq::new(chunks.len(), |i: int| chunks[i].pay as nat);
        let counts = Seq::new(chunks.len(), |i: int| chunks[i].notes as nat);
        chunks_add_up(rest);
        let later_pays = Seq::new(rest.len(), |i: int| rest[i].pay as nat);
        let later_counts = Seq::new(rest.len(), |i: int| rest[i].notes as nat);
        assert(pays =~= seq![chunks[0].pay as nat] + later_pays);
        assert(counts =~= seq![chunks[0].notes as nat] + later_counts);
        totals_add_up(seq![chunks[0].pay as nat], later_pays, chunks[0].pay as nat);
        totals_add_up(seq![chunks[0].notes as nat], later_counts, chunks[0].notes as nat);
    }
}

/// The chunks from place `i` on, and the notes before them.
proof fn lemma_chunk_at(
    values: Seq<u64>,
    owed: nat,
    fees: FeeSchedule,
    max_per: int,
    chunks: Seq<Chunk>,
    i: int,
)
    requires
        pays_off(values, owed, fees, max_per, chunks),
        0 <= i < chunks.len(),
    ensures
        ({
            let from = notes_in(chunks.take(i)) as int;
            let upto = from + chunks[i].notes;
            let held = total(amounts(values.subrange(from, upto)));
            &&& upto <= values.len()
            &&& held >= chunks[i].pay + chunks[i].fee
            &&& i + 1 < chunks.len() ==> held == chunks[i].pay + chunks[i].fee
            &&& chunks[i].fee == fees.fee_of(chunks[i].notes as int)
            &&& chunks[i].pay > 0
        }),
    decreases chunks.len(),
{
    let c = chunks[0];
    let n = c.notes as int;
    let rest = values.skip(n);
    let left = (owed - c.pay) as nat;
    assert(next_chunk(values, owed, fees, max_per, c));
    if i == 0 {
        assert(chunks.take(0) =~= Seq::<Chunk>::empty());
        sums_count_each_value(values, n);
        assert(values.subrange(0, n) =~= values.take(n));
        if chunks.len() > 1 {
            assert(pays_off(rest, left, fees, max_per, chunks.skip(1)));
            assert(chunks.skip(1).len() > 0);
            assert(left > 0);
        }
    } else {
        lemma_chunk_at(rest, left, fees, max_per, chunks.skip(1), i - 1);
        assert(chunks.skip(1)[i - 1] == chunks[i]);
        assert(chunks.take(i).skip(1) =~= chunks.skip(1).take(i - 1));
        assert(chunks.take(i)[0] == c);
        let from = notes_in(chunks.skip(1).take(i - 1)) as int;
        let upto = from + chunks[i].notes;
        assert(rest.subrange(from, upto) =~= values.subrange(n + from, n + upto));
    }
}

/// Each transaction of a payment spends a run of notes of its own, behind that of the one
/// before. What they hold covers what it pays and its fee, to the last unit except in the last
/// transaction, which may leave change.
pub proof fn chunks_spend_their_own_notes(
    values: Seq<u64>,
    owed: nat,
    fees: FeeSchedule,
    max_per: int,
    chunks: Seq<Chunk>,
    i: int,
)
    requires
        pays_off(values, owed, fees, max_per, chunks),
        0 <= i < chunks.len(),
    ensures
        ({
            let from = total(Seq::new(i as nat, |j: int| chunks[j].notes as nat)) as int;
            let upto = from + chunks[i].notes;
            let held = total(amounts(values.subrange(from, upto)));
            &&& upto <= values.len()
            &&& held >= chunks[i].pay + chunks[i].fee
            &&& i + 1 < chunks.len() ==> held == chunks[i].pay + chunks[i].fee
            &&& chunks[i].fee == fees.fee_of(chunks[i].notes as int)
            &&& chunks[i].pay > 0
        }),
{
    lemma_chunk_at(values, owed, fees, max_per, chunks, i);
    chunks_add_up(chunks.take(i));
    assert(Seq::new(i as nat, |j: int| chunks[j].notes as nat) =~= Seq::new(
        chunks.take(i).len(),
        |j: int| chunks.take(i)[j].notes as nat,
    ));
}

/// A spend may take a note exactly where its position is before the anchor and it is not
/// stranded.
pub proof fn candidates_are_all_that_can_be_spent(w: WalletV, leaves: nat, n: OwnedV)
    ensures
        candidates(w, leaves).contains(n) <==> w.notes.contains(n) && n.position < leaves
            && !w.strands(n.position),
{
    lemma_candidates_hold(w, w.notes, leaves, n);
}

proof fn lemma_candidates_hold(w: WalletV, notes: Seq<OwnedV>, leaves: nat, n: OwnedV)
    ensures
        candidates_among(w, notes, leaves).contains(n) <==> notes.contains(n) && n.position < leaves
            && !w.strands(n.position),
    decreases notes.len(),
{
    if notes.len() > 0 {
        let front = notes.drop_last();
        lemma_candidates_hold(w, front, leaves, n);
        lemma_contains_last(notes, n);
        lemma_contains_push(candidates_among(w, front, leaves), notes.last(), n);
    }
}

/// Putting notes in order keeps every one of them, and the values then stand in order.
pub proof fn arranging_keeps_every_note(
    out: Seq<OwnedV>,
    notes: Seq<OwnedV>,
    descending: bool,
    n: OwnedV,
)
    requires
        arranged(out, notes, descending),
    ensures
        out.len() == notes.len(),
        out.contains(n) <==> notes.contains(n),
        forall|a: int, b: int|
            0 <= a < b < out.len() && descending ==> (#[trigger] out[a]).note.value >= (
            #[trigger] out[b]).note.value,
        forall|a: int, b: int|
            0 <= a < b < out.len() && !descending ==> (#[trigger] out[a]).note.value <= (
            #[trigger] out[b]).note.value,
{
    let order = choose|order: Seq<usize>| #[trigger] arranged_by(out, notes, descending, order);
    let len = notes.len() as int;
    if out.contains(n) {
        let k = choose|k: int| 0 <= k < out.len() && out[k] == n;
        assert(notes[order[k] as int] == n);
    }
    if notes.contains(n) {
        let i = choose|i: int| 0 <= i < notes.len() && notes[i] == n;
        lemma_every_place(order, len, i);
        let k = choose|k: int| 0 <= k < len && order[k] == i;
        assert(out[k] == n);
    }
    assert forall|a: int, b: int| 0 <= a < b < out.len() implies if descending {
        (#[trigger] out[a]).note.value >= (#[trigger] out[b]).note.value
    } else {
        out[a].note.value <= out[b].note.value
    } by {
        let (x, y) = (
            values_of(notes)[order[a] as int],
            values_of(notes)[order[b] as int],
        );
        assert(x == out[a].note.value && y == out[b].note.value);
    }
}

/// As many different places below `len` as there are hold each of them.
proof fn lemma_every_place(order: Seq<usize>, len: int, i: int)
    requires
        order.len() == len,
        forall|a: int| 0 <= a < len ==> (#[trigger] order[a]) < len,
        forall|a: int, b: int| 0 <= a < b < len ==> #[trigger] order[a] != #[trigger] order[b],
        0 <= i < len,
    ensures
        exists|k: int| 0 <= k < len && order[k] == i,
{
    let ints = Seq::new(order.len(), |k: int| order[k] as int);
    let all = vstd::set_lib::set_int_range(0, len);
    vstd::set_lib::lemma_int_range(0, len);
    ints.unique_seq_to_set();
    assert(ints.to_set().subset_of(all));
    vstd::set_lib::lemma_subset_equality(ints.to_set(), all);
    assert(ints.to_set().contains(i));
    let k = choose|k: int| 0 <= k < ints.len() && ints[k] == i;
    assert(order[k] == i);
}

/// What is paid and what remains owed make up the request. What is paid is covered with its
/// fee by the notes that were selected; something remains only where parts were asked for,
/// and then nothing of those notes is left over.
pub proof fn parts_make_up_the_request(
    requested: u64,
    fee: u64,
    selected: u128,
    have: u128,
    parts: bool,
    max_per: usize,
)
    requires
        requested + fee <= u64::MAX,
        selected <= have,
    ensures
        match settled(requested, fee, selected, have, parts, max_per) {
            Ok((pay, owed)) => {
                &&& pay + owed == requested
                &&& pay + fee <= selected
                &&& owed > 0 ==> parts && pay > 0 && pay + fee == selected
                &&& have >= requested + fee
            },
            Err(PrepareError::Insufficient { have: h, need }) => {
                &&& have < requested + fee
                &&& h == have
                &&& need == requested + fee
            },
            Err(PrepareError::TooManyNotes { max_per: m, capacity }) => {
                &&& have >= requested + fee
                &&& selected < requested + fee
                &&& m == max_per
                &&& !parts || selected <= fee
                &&& selected >= fee ==> capacity + fee == selected
            },
        },
        selected >= requested + fee ==> settled(requested, fee, selected, have, parts, max_per)
            == Ok::<(u64, u64), PrepareError>((requested, 0)),
{
}

/// A wallet that has nothing against it sends at the tip; falling further behind never makes
/// it ready again, nor does a strike.
pub proof fn readiness_is_lost_by_falling_behind(
    scanned: u64,
    earlier: u64,
    node_tip: u64,
    later_tip: u64,
    strikes: u32,
)
    requires
        earlier <= scanned,
        node_tip <= later_tip,
    ensures
        node_tip > 0 ==> !stale(node_tip, node_tip, 0),
        node_tip > 0 && node_tip - scanned <= 264 ==> !stale(scanned, node_tip, 0),
        node_tip > 0 && stale(scanned, node_tip, strikes) ==> stale(earlier, later_tip, strikes),
        strikes > 0 ==> stale(scanned, node_tip, strikes),
        node_tip - scanned > 264 ==> stale(scanned, node_tip, strikes),
        stale(scanned, 0, strikes),
{
}

/// Merging loses nothing but the fee: what the merged note holds and the fee make up the notes
/// that go into it, the smallest ones, as many as one transaction may spend.
pub proof fn merging_loses_only_the_fee(
    tx: PlannedTx,
    sorted: Seq<OwnedV>,
    w: WalletV,
    leaves: nat,
    fees: FeeSchedule,
    max_per: int,
)
    requires
        merges(Ok::<PlannedTx, ConsolidateError>(tx), sorted, w, leaves, fees, max_per),
    ensures
        ({
            let n = tx.positions@.len() as int;
            &&& 2 <= n <= sorted.len()
            &&& n <= max_per
            &&& n == sorted.len() || n == max_per
            &&& tx.pay + tx.fee == total(amounts(values_of(sorted).take(n)))
            &&& tx.pay > 0
            &&& tx.fee == fees.fee_of(n)
        }),
{
    let n = tx.positions@.len() as int;
    sums_count_each_value(values_of(sorted), n);
}

/// Marking notes as sent takes exactly those at the given positions.
pub proof fn only_marked_notes_go(notes: Seq<OwnedV>, positions: Seq<u64>, k: int, n: OwnedV)
    requires
        0 <= k <= positions.len(),
    ensures
        away_from(notes, positions, k).contains(n) <==> notes.contains(n) && forall|i: int|
            0 <= i < k ==> #[trigger] positions[i] != n.position,
    decreases k,
{
    if k > 0 {
        only_marked_notes_go(notes, positions, k - 1, n);
        only_what_is_spent_goes(
            away_from(notes, positions, k - 1),
            Seq::empty(),
            positions[k - 1] as nat,
            n,
        );
    }
}

/// Transactions pay the sum of what each of them pays.
pub proof fn sent_transactions_add_up(txs: Seq<PlannedTx>)
    ensures
        paid_by(txs) == total(Seq::new(txs.len(), |i: int| txs[i].pay as nat)),
    decreases txs.len(),
{
    if txs.len() > 0 {
        let rest = txs.skip(1);
        let later = Seq::new(rest.len(), |i: int| rest[i].pay as nat);
        sent_transactions_add_up(rest);
        assert(Seq::new(txs.len(), |i: int| txs[i].pay as nat) =~= seq![txs[0].pay as nat] + later);
        totals_add_up(seq![txs[0].pay as nat], later, txs[0].pay as nat);
    }
}

/// The notes of a sent transaction are parked, each under the transaction's id and height, and
/// no other note is.
pub proof fn sent_notes_are_parked(
    notes: Seq<OwnedV>,
    positions: Seq<u64>,
    txid: Seq<u8>,
    submitted: u64,
    p: ParkedV,
)
    ensures
        parked_from(notes, positions, txid, submitted).contains(p) <==> {
            &&& notes.contains(p.note)
            &&& exists|i: int| 0 <= i < positions.len() && #[trigger] positions[i] == p.note.position
            &&& p.txid == txid
            &&& p.submitted == submitted
        },
    decreases notes.len(),
{
    if notes.len() > 0 {
        let front = notes.drop_last();
        let last = notes.last();
        sent_notes_are_parked(front, positions, txid, submitted, p);
        lemma_contains_last(notes, p.note);
        lemma_contains_push(
            parked_from(front, positions, txid, submitted),
            ParkedV { txid, note: last, submitted },
            p,
        );
        assert(lists(positions, p.note.position) == exists|i: int|
            0 <= i < positions.len() && #[trigger] positions[i] == p.note.position);
    }
}

/// A parked note has one fate: it is settled once its nullifier is on chain, whatever the
/// height; else it is lost from an hour behind its sending on, and waits until then.
pub proof fn parked_notes_have_one_fate(
    list: Seq<ParkedV>,
    spent: Set<Seq<u8>>,
    now: u64,
    p: ParkedV,
)
    ensures
        lost(list, spent, now).contains(p) <==> list.contains(p) && !spent.contains(
            p.note.nullifier,
        ) && now - p.submitted >= 3600,
        waiting(list, spent, now).contains(p) <==> list.contains(p) && !spent.contains(
            p.note.nullifier,
        ) && now - p.submitted < 3600,
        lost(list, spent, now).len() + waiting(list, spent, now).len() <= list.len(),
    decreases list.len(),
{
    if list.len() > 0 {
        let front = list.drop_last();
        parked_notes_have_one_fate(front, spent, now, p);
        lemma_contains_last(list, p);
        lemma_contains_push(lost(front, spent, now), list.last(), p);
        lemma_contains_push(waiting(front, spent, now), list.last(), p);
    }
}

/// Taking a note in adds it, unless some note stands at its position, and keeps the others.
proof fn lemma_with_note(notes: Seq<OwnedV>, n: OwnedV, x: OwnedV)
    requires
        forall|i: int, j: int|
            0 <= i < j < notes.len() ==> (#[trigger] notes[i]).position < (
            #[trigger] notes[j]).position,
    ensures
        with_note(notes, n).contains(x) <==> notes.contains(x) || (x == n && forall|i: int|
            0 <= i < notes.len() ==> (#[trigger] notes[i]).position != n.position),
        forall|i: int, j: int|
            0 <= i < j < with_note(notes, n).len() ==> (#[trigger] with_note(
                notes,
                n,
            )[i]).position < (#[trigger] with_note(notes, n)[j]).position,
        forall|i: int|
            0 <= i < with_note(notes, n).len() ==> (#[trigger] with_note(notes, n)[i]).position
                == n.position || exists|j: int|
                0 <= j < notes.len() && (#[trigger] notes[j]).position == with_note(
                    notes,
                    n,
                )[i].position,
    decreases notes.len(),
{
    let r = with_note(notes, n);
    if notes.len() == 0 {
        assert(r[0] == n);
        if r.contains(x) {
            assert(r[0] == x);
        }
    } else if notes.last().position < n.position {
        lemma_contains_push(notes, n, x);
        assert forall|i: int| 0 <= i < notes.len() implies (#[trigger] notes[i]).position
            != n.position by {
            if i < notes.len() - 1 {
                assert(notes[i].position < notes[notes.len() - 1].position);
            }
        }
        assert forall|i: int| 0 <= i < r.len() implies (#[trigger] r[i]).position == n.position
            || exists|j: int|
            0 <= j < notes.len() && (#[trigger] notes[j]).position == r[i].position by {
            if i < notes.len() {
                assert(notes[i] == r[i]);
            }
        }
        assert forall|i: int, j: int| 0 <= i < j < r.len() implies (#[trigger] r[i]).position < (
        #[trigger] r[j]).position by {
            let last = notes.len() - 1;
            if j <= last {
                assert(notes[i].position < notes[j].position);
            } else if i < last {
                assert(notes[i].position < notes[last].position);
            }
        }
    } else if notes.last().position == n.position {
        assert(notes[notes.len() - 1].position == n.position);
        assert forall|i: int| 0 <= i < r.len() implies (#[trigger] r[i]).position == n.position
            || exists|j: int|
            0 <= j < notes.len() && (#[trigger] notes[j]).position == r[i].position by {
            assert(notes[i] == r[i]);
        }
    } else {
        let front = notes.drop_last();
        let last = notes.len() - 1;
        let f = with_note(front, n);
        assert forall|i: int, j: int| 0 <= i < j < front.len() implies (
        #[trigger] front[i]).position < (#[trigger] front[j]).position by {
            assert(notes[i].position < notes[j].position);
        }
        lemma_with_note(front, n, x);
        lemma_contains_last(notes, x);
        lemma_contains_push(f, notes.last(), x);
        if forall|i: int| 0 <= i < front.len() ==> (#[trigger] front[i]).position != n.position {
            assert forall|i: int| 0 <= i < notes.len() implies (#[trigger] notes[i]).position
                != n.position by {
                if i < last {
                    assert(front[i] == notes[i]);
                }
            }
        } else {
            let i = choose|i: int|
                0 <= i < front.len() && (#[trigger] front[i]).position == n.position;
            assert(notes[i].position == n.position);
        }
        assert forall|i: int| 0 <= i < f.len() implies (#[trigger] f[i]).position
            < notes.last().position by {
            if f[i].position != n.position {
                let j = choose|j: int|
                    0 <= j < front.len() && (#[trigger] front[j]).position == f[i].position;
                assert(notes[j].position < notes[last].position);
            }
        }
        assert forall|i: int| 0 <= i < r.len() implies (#[trigger] r[i]).position == n.position
            || exists|j: int|
            0 <= j < notes.len() && (#[trigger] notes[j]).position == r[i].position by {
            if i < f.len() {
                assert(r[i] == f[i]);
                if f[i].position != n.position {
                    let j = choose|j: int|
                        0 <= j < front.len() && (#[trigger] front[j]).position == f[i].position;
                    assert(notes[j].position == r[i].position);
                }
            } else {
                assert(notes[last].position == r[i].position);
            }
        }
        assert forall|i: int, j: int| 0 <= i < j < r.len() implies (#[trigger] r[i]).position < (
        #[trigger] r[j]).position by {
            assert(r[i] == f[i]);
            if j < f.len() {
                assert(r[j] == f[j]);
            }
        }
    }
}

/// A note that is taken in again stands among the others at its place, once; the others stay,
/// and nothing else comes.
pub proof fn notes_come_back_once(notes: Seq<OwnedV>, n: OwnedV, x: OwnedV)
    requires
        forall|i: int, j: int|
            0 <= i < j < notes.len() ==> (#[trigger] notes[i]).position < (
            #[trigger] notes[j]).position,
    ensures
        with_note(notes, n).contains(x) <==> notes.contains(x) || (x == n && forall|i: int|
            0 <= i < notes.len() ==> (#[trigger] notes[i]).position != n.position),
        forall|i: int, j: int|
            0 <= i < j < with_note(notes, n).len() ==> (#[trigger] with_note(
                notes,
                n,
            )[i]).position < (#[trigger] with_note(notes, n)[j]).position,
{
    lemma_with_note(notes, n, x);
}

/// Only notes that were there or that were parked are there once parked ones are taken in.
pub proof fn nothing_else_comes_back(notes: Seq<OwnedV>, list: Seq<ParkedV>, x: OwnedV)
    requires
        forall|i: int, j: int|
            0 <= i < j < notes.len() ==> (#[trigger] notes[i]).position < (
            #[trigger] notes[j]).position,
    ensures
        with_parked(notes, list).contains(x) ==> notes.contains(x) || exists|i: int|
            0 <= i < list.len() && (#[trigger] list[i]).note == x,
        notes.contains(x) ==> with_parked(notes, list).contains(x),
        forall|i: int, j: int|
            0 <= i < j < with_parked(notes, list).len() ==> (#[trigger] with_parked(
                notes,
                list,
            )[i]).position < (#[trigger] with_parked(notes, list)[j]).position,
    decreases list.len(),
{
    if list.len() > 0 {
        let front = list.drop_last();
        nothing_else_comes_back(notes, front, x);
        lemma_with_note(with_parked(notes, front), list.last().note, x);
        if exists|i: int| 0 <= i < front.len() && (#[trigger] front[i]).note == x {
            let i = choose|i: int| 0 <= i < front.len() && (#[trigger] front[i]).note == x;
            assert(list[i] == front[i]);
        }
        assert(list[list.len() - 1] == list.last());
    }
}

/// The payloads that decode give their bundles in order, none left out, and each bundle has
/// the id that stands beside its payload.
pub proof fn accepted_bundles_keep_their_ids(
    payloads: Seq<Vec<u8>>,
    ids: Seq<[u8; 32]>,
    n: int,
    k: int,
)
    requires
        0 <= k < n <= payloads.len(),
    ensures
        accepted(payloads, n).len() == accepted_ids(payloads, ids, n).len(),
        decode_bundle(payloads[k]@) matches Ok(b) ==> ({
            let place = accepted(payloads, k).len() as int;
            &&& place < accepted(payloads, n).len()
            &&& accepted(payloads, n)[place] == b
            &&& k < ids.len() ==> accepted_ids(payloads, ids, n)[place] == ids[k]@
        }),
        accepted(payloads, n).len() <= n,
        (forall|i: int| 0 <= i < n ==> decode_bundle((#[trigger] payloads[i])@) is Ok) ==> accepted(
            payloads,
            n,
        ).len() == n,
        decode_bundle(payloads[k]@) is Err ==> accepted(payloads, k + 1) == accepted(payloads, k),
    decreases n,
{
    lemma_accepted_ids(payloads, ids, k);
    lemma_accepted_ids(payloads, ids, n - 1);
    if k < n - 1 {
        accepted_bundles_keep_their_ids(payloads, ids, n - 1, k);
    }
    if forall|i: int| 0 <= i < n ==> decode_bundle((#[trigger] payloads[i])@) is Ok {
        assert(decode_bundle(payloads[n - 1]@) is Ok);
    }
}

proof fn lemma_accepted_ids(payloads: Seq<Vec<u8>>, ids: Seq<[u8; 32]>, n: int)
    requires
        0 <= n <= payloads.len(),
    ensures
        accepted(payloads, n).len() == accepted_ids(payloads, ids, n).len(),
        accepted(payloads, n).len() <= n,
        (forall|i: int| 0 <= i < n ==> decode_bundle((#[trigger] payloads[i])@) is Ok) ==> accepted(
            payloads,
            n,
        ).len() == n,
    decreases n,
{
    if n > 0 {
        lemma_accepted_ids(payloads, ids, n - 1);
        if forall|i: int| 0 <= i < n ==> decode_bundle((#[trigger] payloads[i])@) is Ok {
            assert(decode_bundle(payloads[n - 1]@) is Ok);
        }
    }
}

/// Output `k` of a coinbase mints a note.
pub open spec fn output_mints(txid: Seq<u8>, outputs: Seq<TransactionOutput>, k: int) -> bool {
    &&& outputs[k].script@.len() >= 43
    &&& derivable(output_seed(txid, k))
    &&& note_valid(
        coinbase_note_of(outputs[k].script@.take(43), output_seed(txid, k), outputs[k].value),
    )
}

/// Every output of a coinbase that can mint a note does, with its value and to its address, in
/// order; where all can, there are as many notes as outputs.
pub proof fn coinbase_outputs_mint_their_notes(
    txid: Seq<u8>,
    outputs: Seq<TransactionOutput>,
    n: int,
    k: int,
)
    requires
        0 <= k < n <= outputs.len(),
    ensures
        output_mints(txid, outputs, k) ==> ({
            let place = minted_notes(txid, outputs, k).len() as int;
            &&& place < minted_notes(txid, outputs, n).len()
            &&& minted_notes(txid, outputs, n)[place].value == outputs[k].value
            &&& minted_notes(txid, outputs, n)[place].recipient == outputs[k].script@.take(43)
            &&& minted_notes(txid, outputs, n)[place] == coinbase_note_of(
                outputs[k].script@.take(43),
                output_seed(txid, k),
                outputs[k].value,
            )
        }),
        !output_mints(txid, outputs, k) ==> minted_notes(txid, outputs, k + 1) == minted_notes(
            txid,
            outputs,
            k,
        ),
        (forall|i: int| 0 <= i < n ==> #[trigger] output_mints(txid, outputs, i)) ==> minted_notes(
            txid,
            outputs,
            n,
        ).len() == n,
    decreases n,
{
    lemma_minted_len(txid, outputs, n);
    if k < n - 1 {
        coinbase_outputs_mint_their_notes(txid, outputs, n - 1, k);
    }
}

proof fn lemma_minted_len(txid: Seq<u8>, outputs: Seq<TransactionOutput>, n: int)
    requires
        0 <= n <= outputs.len(),
    ensures
        (forall|i: int| 0 <= i < n ==> #[trigger] output_mints(txid, outputs, i)) ==> minted_notes(
            txid,
            outputs,
            n,
        ).len() == n,
    decreases n,
{
    if n > 0 {
        lemma_minted_len(txid, outputs, n - 1);
        if forall|i: int| 0 <= i < n ==> #[trigger] output_mints(txid, outputs, i) {
            assert(output_mints(txid, outputs, n - 1));
        }
    }
}

/// A minted note is appended as a leaf whoever it is paid to, and is the wallet's exactly where
/// it is paid to the wallet's address.
pub proof fn minted_notes_are_found(v: WalletV, notes: Seq<NoteV>, n: OwnedV)
    ensures
        v.mint(notes).fvk == v.fvk,
        v.mint(notes).size() == v.size() + notes.len(),
        v.mint(notes).leaves == v.leaves + Seq::new(notes.len(), |i: int| notes[i].commitment()),
        v.mint(notes).notes.contains(n) <==> v.notes.contains(n) || exists|i: int|
            0 <= i < notes.len() && (#[trigger] notes[i]).recipient == v.address() && n == (OwnedV {
                note: notes[i],
                position: (v.size() + i) as nat,
                nullifier: notes[i].nullifier(v.fvk),
            }),
    decreases notes.len(),
{
    let commitments = Seq::new(notes.len(), |i: int| notes[i].commitment());
    if notes.len() == 0 {
        assert(v.mint(notes).leaves =~= v.leaves + commitments);
    } else {
        let front = notes.drop_last();
        let last = notes.len() - 1;
        let note = notes.last();
        let x = v.mint(front);
        minted_notes_are_found(v, front, n);
        assert(v.mint(notes).leaves =~= v.leaves + commitments);
        if note.recipient == v.address() {
            let m = OwnedV { note, position: x.size(), nullifier: note.nullifier(x.fvk) };
            lemma_contains_push(x.notes, m, n);
            assert(notes[last] == note);
        }
        if x.notes.contains(n) && !v.notes.contains(n) {
            let i = choose|i: int|
                0 <= i < front.len() && (#[trigger] front[i]).recipient == v.address() && n == (
                OwnedV {
                    note: front[i],
                    position: (v.size() + i) as nat,
                    nullifier: front[i].nullifier(v.fvk),
                });
            assert(notes[i] == front[i]);
        }
        if exists|i: int|
            0 <= i < notes.len() && (#[trigger] notes[i]).recipient == v.address() && n == (OwnedV {
                note: notes[i],
                position: (v.size() + i) as nat,
                nullifier: notes[i].nullifier(v.fvk),
            }) {
            let i = choose|i: int|
                0 <= i < notes.len() && (#[trigger] notes[i]).recipient == v.address() && n == (
                OwnedV {
                    note: notes[i],
                    position: (v.size() + i) as nat,
                    nullifier: notes[i].nullifier(v.fvk),
                });
            if i < last {
                assert(front[i] == notes[i]);
            }
        }
    }
}

/// Replaying blocks in two runs is replaying them in one, and one block brings the notes that
/// it mints and then the bundles that it accepts.
pub proof fn replays_follow_as_one(w: WalletV, a: Seq<ChainBlock>, b: Seq<ChainBlock>, k: int)
    requires
        0 <= k <= b.len(),
    ensures
        replayed(w, a + b, a.len() + k) == replayed(replayed(w, a, a.len() as int), b, k),
        b.len() == 1 ==> replayed(w, b, 1) == w.mint(b[0].notes()).bundles(b[0].bundles()),
        chain_weight(a + b) == chain_weight(a) + chain_weight(b),
        b.len() == 1 ==> chain_weight(b) == b[0].notes().len() + action_count(b[0].bundles()),
{
    lemma_replay_prefix(w, a, b, a.len() as int);
    lemma_replay_rest(w, a, b, k);
    lemma_chain_weight(a, b);
    if b.len() == 1 {
        assert(replayed(w, b, 0) == w);
        assert(b.drop_last() =~= Seq::<ChainBlock>::empty());
        assert(chain_weight(b.drop_last()) == 0);
    }
}

proof fn lemma_chain_weight(a: Seq<ChainBlock>, b: Seq<ChainBlock>)
    ensures
        chain_weight(a + b) == chain_weight(a) + chain_weight(b),
    decreases b.len(),
{
    if b.len() == 0 {
        assert(a + b =~= a);
    } else {
        lemma_chain_weight(a, b.drop_last());
        assert((a + b).drop_last() =~= a + b.drop_last());
        assert((a + b).last() == b.last());
    }
}

proof fn lemma_replay_prefix(w: WalletV, a: Seq<ChainBlock>, b: Seq<ChainBlock>, k: int)
    requires
        0 <= k <= a.len(),
    ensures
        replayed(w, a + b, k) == replayed(w, a, k),
    decreases k,
{
    if k > 0 {
        lemma_replay_prefix(w, a, b, k - 1);
        assert((a + b)[k - 1] == a[k - 1]);
    }
}

proof fn lemma_replay_rest(w: WalletV, a: Seq<ChainBlock>, b: Seq<ChainBlock>, k: int)
    requires
        0 <= k <= b.len(),
    ensures
        replayed(w, a + b, a.len() + k) == replayed(replayed(w, a, a.len() as int), b, k),
    decreases k,
{
    if k == 0 {
        lemma_replay_prefix(w, a, b, a.len() as int);
    } else {
        lemma_replay_rest(w, a, b, k - 1);
        assert((a + b)[a.len() + k - 1] == b[k - 1]);
    }
}

/// A wallet starts from a block before its birthday, the last such block of the page that
/// reaches it, so that nothing from the birthday on is passed over: where the walk starts at
/// a block of the page, that block and all before it are older than the birthday, and the next
/// one, where there is one, is not.
pub proof fn walks_start_before_the_birthday(
    page: Seq<([u8; 32], u64)>,
    base: Option<[u8; 32]>,
    birthday: u64,
)
    requires
        page.len() > 0,
    ensures
        match walk_next(false, page, base, birthday) {
            WalkStep::StartAt(h) => {
                ||| base == Some(h) && page[0].1 >= birthday
                ||| exists|i: int|
                    0 <= i < page.len() && (#[trigger] page[i]).0 == h && page[i].1 < birthday && (i
                        + 1 < page.len() ==> page[i + 1].1 >= birthday && forall|j: int|
                        0 <= j <= i ==> (#[trigger] page[j]).1 < birthday)
            },
            WalkStep::Fetch(h) => page.last().1 < birthday && page.len() >= 2000 && h
                == page.last().0,
            WalkStep::GiveUp => page[0].1 >= birthday && base is None,
        },
        walk_next(true, page, base, birthday) is GiveUp,
        walk_next(false, Seq::empty(), base, birthday) is GiveUp,
{
    if page.last().1 >= birthday {
        lemma_first_born(page, birthday, 0);
        let i = choose|i: int| first_born(page, birthday, i);
        assert(first_born(page, birthday, i));
        if i > 0 {
            assert(page[i - 1].1 < birthday);
        }
    } else {
        let last = page.len() - 1;
        assert(page[last] == page.last());
    }
}

proof fn lemma_first_born(page: Seq<([u8; 32], u64)>, birthday: u64, n: int)
    requires
        0 <= n < page.len(),
        page.last().1 >= birthday,
        forall|j: int| 0 <= j < n ==> (#[trigger] page[j]).1 < birthday,
    ensures
        exists|i: int| first_born(page, birthday, i),
    decreases page.len() - n,
{
    if page[n].1 >= birthday {
        assert(first_born(page, birthday, n));
    } else if n + 1 < page.len() {
        lemma_first_born(page, birthday, n + 1);
    }
}

/// A checkpoint is never written while something is wrong or a strike stands; where all is
/// well it is written at the latest after a thousand blocks, and whenever it was asked for. A
/// wallet is given up from the third strike on and not before.
pub proof fn checkpoints_keep_up(e: WalletEntry, was_caught_up: bool)
    ensures
        settled_pass(e, was_caught_up).0 is Retired <==> e.strikes >= 3,
        settled_pass(e, was_caught_up).0 is Idle <==> e.strikes == 0 && e.caught_up,
        settled_pass(e, was_caught_up).1 ==> e.strikes == 0 && e.error is None,
        e.strikes == 0 && e.error is None && e.scanned - e.saved_scanned >= 1000 ==> settled_pass(
            e,
            was_caught_up,
        ).1,
        e.strikes == 0 && e.error is None && e.force_checkpoint ==> settled_pass(
            e,
            was_caught_up,
        ).1,
        e.strikes == 0 && e.error is None && e.caught_up && !was_caught_up && e.scanned
            > e.saved_scanned ==> settled_pass(e, was_caught_up).1,
        settled_pass(e, was_caught_up).1 && !e.force_checkpoint ==> e.scanned > e.saved_scanned,
{
}

/// A payment for which one transaction suffices is made in one: it does not fall short, and a
/// plan for it has that transaction alone, which pays the whole amount.
pub proof fn small_payments_take_one_transaction(
    values: Seq<u64>,
    amount: nat,
    fees: FeeSchedule,
    max_per: int,
    m: int,
    chunks: Seq<Chunk>,
)
    requires
        amount > 0,
        0 < m <= values.len(),
        m <= max_per,
        total(amounts(values.take(m))) >= amount + fees.fee_of(m),
    ensures
        !runs_out(values, amount, fees, max_per),
        pays_off(values, amount, fees, max_per, chunks) ==> chunks.len() == 1 && chunks[0].pay
            == amount && chunks[0].notes <= m,
{
    assert forall|n: int| #[trigger] takes(values, amount, fees, max_per, n) implies 0 < n <= m
        && sum_of(values, n) >= amount + fees.fee_of(n) by {
        payments_take_the_fewest_notes(values, amount, fees, max_per, n, m);
        sums_count_each_value(values, n);
    }
    if pays_off(values, amount, fees, max_per, chunks) {
        let c = chunks[0];
        assert(takes(values, amount, fees, max_per, c.notes as int));
        assert(pays_off(values.skip(c.notes as int), 0, fees, max_per, chunks.skip(1)));
        assert(chunks.skip(1).len() == 0);
    }
}

/// A payment that one transaction does not cover goes on behind it with what is then owed,
/// wherever the notes that it takes hold more than their fee: it falls short exactly where the
/// rest does, and it falls short at once where they hold no more.
pub proof fn payments_go_on_while_notes_hold(
    values: Seq<u64>,
    owed: nat,
    fees: FeeSchedule,
    max_per: int,
    n: int,
)
    requires
        owed > 0,
        takes(values, owed, fees, max_per, n),
        0 <= n <= values.len(),
        total(amounts(values.take(n))) < owed + fees.fee_of(n),
    ensures
        n > 0 && total(amounts(values.take(n))) > fees.fee_of(n) ==> (runs_out(
            values,
            owed,
            fees,
            max_per,
        ) <==> runs_out(
            values.skip(n),
            (owed + fees.fee_of(n) - total(amounts(values.take(n)))) as nat,
            fees,
            max_per,
        )),
        n == 0 || total(amounts(values.take(n))) <= fees.fee_of(n) ==> runs_out(
            values,
            owed,
            fees,
            max_per,
        ),
{
    sums_count_each_value(values, n);
    assert forall|k: int| #[trigger] takes(values, owed, fees, max_per, k) implies k == n by {
        payments_take_the_fewest_notes(values, owed, fees, max_per, n, k);
    }
}

} // verus!
