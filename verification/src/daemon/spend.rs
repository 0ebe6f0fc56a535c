//! What a payment spends: the notes that are deep enough, in which order, with which paths.

use crate::bytes::{same, to_array};
use crate::daemon::fees::{
    notes_in, pays_off, plan_chunks, runs_out, sum_of, take_notes, takes, Chunk, FeeSchedule,
};
use crate::daemon::request::{coin_text, fmt_fc};
use crate::daemon::status::SYNC_MARGIN;
use crate::daemon::sync::{matured, WalletEntry, SYNC_TIP_MARGIN};
use crate::keys::owned_address;
use crate::note::Note;
use crate::text::{decimal_text, push_decimal};
use crate::tree::{all_canonical, TREE_CAPACITY};
use crate::wallet::payment::{paths_wf, spend_views, transfer_plan};
use crate::wallet::plan::OutputV;
use crate::walletdb::graft::other_notes_have_a_path;
use crate::walletdb::paths::leads_to_root;
use crate::walletdb::{owned_views, worth, OwnedNote, OwnedV, WalletDb, WalletV};
use crate::witness::MerklePath;
use vstd::prelude::*;
use vstd::string::*;

verus! {

/// A list of places puts these values in order: the greater first, or the smaller, and equal
/// ones as they stand.
pub open spec fn ordered(values: Seq<u64>, order: Seq<usize>, descending: bool) -> bool {
    forall|a: int, b: int|
        0 <= a < b < order.len() ==> {
            let (x, y) = (values[#[trigger] order[a] as int], values[#[trigger] order[b] as int]);
            ||| descending && x > y
            ||| !descending && x < y
            ||| x == y && order[a] < order[b]
        }
}

/// The list holds each of the first `n` places once.
pub open spec fn places(order: Seq<usize>, n: int) -> bool {
    &&& order.len() == n
    &&& forall|a: int| 0 <= a < n ==> (#[trigger] order[a]) < n
    &&& forall|a: int, b: int| 0 <= a < b < n ==> #[trigger] order[a] != #[trigger] order[b]
}

/// Where a value goes among those that are in order already.
fn slot(values: &[u64], order: &Vec<usize>, i: usize, descending: bool) -> (p: usize)
    requires
        i < values@.len(),
        places(order@, i as int),
    ensures
        p <= order@.len(),
        forall|a: int|
            p <= a < order@.len() ==> if descending {
                values@[#[trigger] order@[a] as int] < values@[i as int]
            } else {
                values@[order@[a] as int] > values@[i as int]
            },
        p > 0 ==> if descending {
            values@[order@[p - 1] as int] >= values@[i as int]
        } else {
            values@[order@[p - 1] as int] <= values@[i as int]
        },
{
    let mut p: usize = order.len();
    while p > 0 && ((descending && values[order[p - 1]] < values[i]) || (!descending
        && values[order[p - 1]] > values[i]))
        invariant
            p <= order@.len(),
            i < values@.len(),
            places(order@, i as int),
            forall|a: int|
                p <= a < order@.len() ==> if descending {
                    values@[#[trigger] order@[a] as int] < values@[i as int]
                } else {
                    values@[order@[a] as int] > values@[i as int]
                },
        decreases p,
    {
        p = p - 1;
    }
    p
}

/// The values at these places.
pub open spec fn at_places(values: Seq<u64>, order: Seq<usize>) -> Seq<u64> {
    Seq::new(order.len(), |k: int| values[order[k] as int])
}

proof fn lemma_sum_insert(s: Seq<u64>, p: int, v: u64, n: int)
    requires
        0 <= p <= s.len(),
        p <= n <= s.len(),
    ensures
        sum_of(s.insert(p, v), n + 1) == sum_of(s, n) + v,
    decreases n - p,
{
    let t = s.insert(p, v);
    if n == p {
        lemma_sum_prefix(s, t, p);
        assert(t[p] == v);
    } else {
        lemma_sum_insert(s, p, v, n - 1);
        assert(t[n] == s[n - 1]);
    }
}

proof fn lemma_sum_prefix(values: Seq<u64>, front: Seq<u64>, n: int)
    requires
        0 <= n <= front.len(),
        n <= values.len(),
        forall|i: int| 0 <= i < n ==> #[trigger] front[i] == values[i],
    ensures
        sum_of(front, n) == sum_of(values, n),
    decreases n,
{
    if n > 0 {
        lemma_sum_prefix(values, front, n - 1);
        assert(front[n - 1] == values[n - 1]);
    }
}

/// Puts values in order, equal ones as they stand: the list of their places.
pub fn order_by_value(values: &[u64], descending: bool) -> (order: Vec<usize>)
    ensures
        places(order@, values@.len() as int),
        ordered(values@, order@, descending),
        sum_of(at_places(values@, order@), values@.len() as int) == sum_of(
            values@,
            values@.len() as int,
        ),
{
    let mut order: Vec<usize> = Vec::new();
    let mut i: usize = 0;
    while i < values.len()
        invariant
            0 <= i <= values@.len(),
            places(order@, i as int),
            ordered(values@, order@, descending),
            sum_of(at_places(values@, order@), i as int) == sum_of(values@, i as int),
        decreases values@.len() - i,
    {
        let ghost before = order@;
        let p: usize = slot(values, &order, i, descending);
        order.insert(p, i);
        proof {
            assert(order@ =~= before.insert(p as int, i));
            assert(at_places(values@, order@) =~= at_places(values@, before).insert(
                p as int,
                values@[i as int],
            ));
            lemma_sum_insert(at_places(values@, before), p as int, values@[i as int], i as int);
            assert forall|a: int| 0 <= a < i + 1 implies (#[trigger] order@[a]) < i + 1 by {
                if a < p {
                    assert(order@[a] == before[a]);
                } else if a > p {
                    assert(order@[a] == before[a - 1]);
                }
            }
            assert forall|a: int, b: int| 0 <= a < b < i + 1 implies #[trigger] order@[a]
                != #[trigger] order@[b] by {
                let x = if a < p {
                    a
                } else {
                    a - 1
                };
                let y = if b < p {
                    b
                } else {
                    b - 1
                };
                if a != p {
                    assert(order@[a] == before[x]);
                }
                if b != p {
                    assert(order@[b] == before[y]);
                }
            }
            assert forall|a: int, b: int| 0 <= a < b < order@.len() implies {
                let (x, y) = (
                    values@[#[trigger] order@[a] as int],
                    values@[#[trigger] order@[b] as int],
                );
                ||| descending && x > y
                ||| !descending && x < y
                ||| x == y && order@[a] < order@[b]
            } by {
                if b < p {
                    assert(order@[a] == before[a] && order@[b] == before[b]);
                } else if a > p {
                    assert(order@[a] == before[a - 1] && order@[b] == before[b - 1]);
                } else if b == p {
                    assert(order@[a] == before[a]);
                    if a < p - 1 {
                        let m = before[p - 1];
                        assert(before[a] != m);
                    }
                } else if a == p {
                    assert(order@[b] == before[b - 1]);
                } else {
                    assert(order@[a] == before[a] && order@[b] == before[b - 1]);
                }
            }
        }
        i = i + 1;
    }
    order
}

/// The values of notes.
pub open spec fn values_of(notes: Seq<OwnedV>) -> Seq<u64> {
    Seq::new(notes.len(), |i: int| notes[i].note.value)
}

/// Those notes that a spend may take: the ones before the anchor that are not stranded.
pub open spec fn candidates_among(w: WalletV, notes: Seq<OwnedV>, leaves: nat) -> Seq<OwnedV>
    decreases notes.len(),
{
    if notes.len() == 0 {
        Seq::empty()
    } else {
        let before = candidates_among(w, notes.drop_last(), leaves);
        let n = notes.last();
        if n.position < leaves && !w.strands(n.position) {
            before.push(n)
        } else {
            before
        }
    }
}

/// The notes of a wallet that a spend may take.
pub open spec fn candidates(w: WalletV, leaves: nat) -> Seq<OwnedV> {
    candidates_among(w, w.notes, leaves)
}

/// The notes that a spend at this anchor may take, and what the stranded ones are worth. A
/// stranded note, whose path can no longer be had, would fail the whole payment and is
/// passed over.
pub fn matured_candidates(db: &WalletDb, leaves: u64) -> (r: (Vec<OwnedNote>, u128))
    requires
        db.wf(),
    ensures
        owned_views(r.0@) == candidates(db@, leaves as nat),
        r.1 == worth(db@.stranded()),
{
    let notes: &[OwnedNote] = db.notes();
    let ghost all = owned_views(notes@);
    let mut out: Vec<OwnedNote> = Vec::new();
    let mut i: usize = 0;
    proof {
        assert(all.take(0) =~= Seq::<OwnedV>::empty());
        assert(owned_views(out@) =~= Seq::<OwnedV>::empty());
    }
    while i < notes.len()
        invariant
            0 <= i <= notes@.len(),
            db.wf(),
            all == owned_views(notes@),
            owned_views(out@) == candidates_among(db@, all.take(i as int), leaves as nat),
        decreases notes@.len() - i,
    {
        let n: OwnedNote = notes[i];
        let ghost before = out@;
        proof {
            assert(all.take(i + 1).drop_last() =~= all.take(i as int));
            assert(all.take(i + 1).last() == n@);
        }
        if n.position < leaves && !db.is_stranded(n.position) {
            out.push(n);
            assert(owned_views(out@) =~= owned_views(before).push(n@));
        }
        i = i + 1;
    }
    assert(all.take(i as int) =~= all);
    let stranded: Vec<OwnedNote> = db.stranded_notes();
    let values: Vec<u64> = note_values(stranded.as_slice());
    let lost: u128 = add_up(values.as_slice());
    proof {
        lemma_worth_is_sum(owned_views(stranded@));
    }
    (out, lost)
}

/// The notes, put in order by value; equal ones as they stand.
pub open spec fn arranged(out: Seq<OwnedV>, notes: Seq<OwnedV>, descending: bool) -> bool {
    exists|order: Seq<usize>| #[trigger] arranged_by(out, notes, descending, order)
}

/// The notes, put in order by this list of their places.
pub open spec fn arranged_by(
    out: Seq<OwnedV>,
    notes: Seq<OwnedV>,
    descending: bool,
    order: Seq<usize>,
) -> bool {
    &&& places(order, notes.len() as int)
    &&& ordered(values_of(notes), order, descending)
    &&& out == Seq::new(notes.len(), |k: int| notes[order[k] as int])
}

/// Puts notes in order by value.
pub fn arrange(notes: &[OwnedNote], descending: bool) -> (out: Vec<OwnedNote>)
    ensures
        arranged(owned_views(out@), owned_views(notes@), descending),
        out@.len() == notes@.len(),
        sum_of(values_of(owned_views(out@)), notes@.len() as int) == sum_of(
            values_of(owned_views(notes@)),
            notes@.len() as int,
        ),
{
    let ghost all = owned_views(notes@);
    let values: Vec<u64> = note_values(notes);
    let order: Vec<usize> = order_by_value(values.as_slice(), descending);
    let mut out: Vec<OwnedNote> = Vec::new();
    let mut k: usize = 0;
    while k < order.len()
        invariant
            0 <= k <= order@.len(),
            all == owned_views(notes@),
            places(order@, notes@.len() as int),
            out@.len() == k,
            forall|j: int| 0 <= j < k ==> (#[trigger] out@[j])@ == all[order@[j] as int],
        decreases order@.len() - k,
    {
        assert(order@[k as int] < notes@.len());
        out.push(notes[order[k]]);
        k = k + 1;
    }
    proof {
        let want = Seq::new(all.len(), |k: int| all[order@[k] as int]);
        assert(owned_views(out@) =~= want);
        assert(values_of(owned_views(out@)) =~= at_places(values@, order@));
        assert(arranged_by(owned_views(out@), all, descending, order@));
    }
    out
}

fn note_values(notes: &[OwnedNote]) -> (out: Vec<u64>)
    ensures
        out@ == values_of(owned_views(notes@)),
{
    let mut out: Vec<u64> = Vec::new();
    let mut i: usize = 0;
    while i < notes.len()
        invariant
            0 <= i <= notes@.len(),
            out@.len() == i,
            forall|j: int| 0 <= j < i ==> #[trigger] out@[j] == notes@[j]@.note.value,
        decreases notes@.len() - i,
    {
        out.push(notes[i].value());
        i = i + 1;
    }
    assert(out@ =~= values_of(owned_views(notes@)));
    out
}

/// The inputs are these notes, each with its path, which leads from the note's leaf to the
/// anchor after `leaves` leaves.
pub open spec fn inputs_from(
    inputs: Seq<(Note, MerklePath)>,
    notes: Seq<OwnedV>,
    w: WalletV,
    leaves: nat,
) -> bool {
    &&& inputs.len() == notes.len()
    &&& forall|i: int|
        0 <= i < notes.len() ==> {
            &&& (#[trigger] inputs[i]).0@ == notes[i].note
            &&& inputs[i].1.wf()
            &&& w.path_at(notes[i].position, leaves) == Some(inputs[i].1@)
            &&& leaves <= TREE_CAPACITY ==> leads_to_root(
                w,
                inputs[i].1,
                notes[i].position,
                leaves,
            )
        }
}

/// Some of the notes has no path to the anchor after `leaves` leaves.
pub open spec fn pathless(notes: Seq<OwnedV>, w: WalletV, leaves: nat) -> bool {
    exists|i: int|
        0 <= i < notes.len() && w.path_at((#[trigger] notes[i]).position, leaves) is None
}

/// The notes with their paths; `None` where one has none.
pub fn inputs_at(db: &WalletDb, notes: &[OwnedNote], leaves: u64) -> (r: Option<
    Vec<(Note, MerklePath)>,
>)
    requires
        db.wf(),
    ensures
        match r {
            Some(inputs) => inputs_from(inputs@, owned_views(notes@), db@, leaves as nat)
                && paths_wf(inputs@),
            None => pathless(owned_views(notes@), db@, leaves as nat),
        },
{
    let ghost all = owned_views(notes@);
    let mut inputs: Vec<(Note, MerklePath)> = Vec::new();
    let mut i: usize = 0;
    while i < notes.len()
        invariant
            0 <= i <= notes@.len(),
            db.wf(),
            all == owned_views(notes@),
            inputs@.len() == i,
            forall|j: int|
                0 <= j < i ==> {
                    &&& (#[trigger] inputs@[j]).0@ == all[j].note
                    &&& inputs@[j].1.wf()
                    &&& db@.path_at(all[j].position, leaves as nat) == Some(inputs@[j].1@)
                    &&& leaves <= TREE_CAPACITY ==> leads_to_root(
                        db@,
                        inputs@[j].1,
                        all[j].position,
                        leaves as nat,
                    )
                },
        decreases notes@.len() - i,
    {
        match db.witness_path_at(notes[i].position, leaves) {
            None => {
                assert(db@.path_at(all[i as int].position, leaves as nat) is None);
                return None;
            },
            Some(path) => inputs.push((notes[i].note, path)),
        }
        i = i + 1;
    }
    Some(inputs)
}

/// One transaction, ready to be proven.
pub struct PlannedTx {
    pub inputs: Vec<(Note, MerklePath)>,
    pub pay: u64,
    pub fee: u64,
    /// The positions of the notes that it spends.
    pub positions: Vec<u64>,
}

/// The transaction spends these notes and pays what the chunk says.
pub open spec fn plans(
    tx: PlannedTx,
    chunk: Chunk,
    notes: Seq<OwnedV>,
    w: WalletV,
    leaves: nat,
) -> bool {
    &&& tx.pay == chunk.pay
    &&& tx.fee == chunk.fee
    &&& inputs_from(tx.inputs@, notes, w, leaves)
    &&& paths_wf(tx.inputs@)
    &&& tx.positions@.len() == notes.len()
    &&& forall|i: int| 0 <= i < notes.len() ==> (#[trigger] tx.positions@[i]) == notes[i].position
}

/// The transactions carry the chunks out, each on the notes behind those of the one before.
pub open spec fn carried_out(
    txs: Seq<PlannedTx>,
    chunks: Seq<Chunk>,
    notes: Seq<OwnedV>,
    w: WalletV,
    leaves: nat,
) -> bool
    decreases chunks.len(),
{
    &&& txs.len() == chunks.len()
    &&& chunks.len() > 0 ==> {
        &&& chunks[0].notes <= notes.len()
        &&& plans(txs[0], chunks[0], notes.take(chunks[0].notes as int), w, leaves)
        &&& carried_out(
            txs.skip(1),
            chunks.skip(1),
            notes.skip(chunks[0].notes as int),
            w,
            leaves,
        )
    }
}

fn plan_tx(db: &WalletDb, notes: &[OwnedNote], chunk: Chunk, leaves: u64) -> (r: Option<PlannedTx>)
    requires
        db.wf(),
    ensures
        match r {
            Some(tx) => plans(tx, chunk, owned_views(notes@), db@, leaves as nat),
            None => pathless(owned_views(notes@), db@, leaves as nat),
        },
{
    let inputs: Vec<(Note, MerklePath)> = match inputs_at(db, notes, leaves) {
        Some(inputs) => inputs,
        None => {
            return None;
        },
    };
    let mut positions: Vec<u64> = Vec::new();
    let mut i: usize = 0;
    while i < notes.len()
        invariant
            0 <= i <= notes@.len(),
            positions@.len() == i,
            forall|j: int|
                0 <= j < i ==> (#[trigger] positions@[j]) == owned_views(notes@)[j].position,
        decreases notes@.len() - i,
    {
        positions.push(notes[i].position);
        i = i + 1;
    }
    Some(PlannedTx { inputs, pay: chunk.pay, fee: chunk.fee, positions })
}

fn plan_txs(db: &WalletDb, notes: &[OwnedNote], chunks: &[Chunk], leaves: u64) -> (r: Option<
    Vec<PlannedTx>,
>)
    requires
        db.wf(),
        notes_in(chunks@) <= notes@.len(),
    ensures
        match r {
            Some(txs) => carried_out(txs@, chunks@, owned_views(notes@), db@, leaves as nat),
            None => pathless(
                owned_views(notes@).take(notes_in(chunks@) as int),
                db@,
                leaves as nat,
            ),
        },
    decreases chunks@.len(),
{
    if chunks.len() == 0 {
        return Some(Vec::new());
    }
    let first: Chunk = chunks[0];
    let ghost all = owned_views(notes@);
    let front: &[OwnedNote] = vstd::slice::slice_subrange(notes, 0, first.notes);
    let back: &[OwnedNote] = vstd::slice::slice_subrange(notes, first.notes, notes.len());
    let rest: &[Chunk] = vstd::slice::slice_subrange(chunks, 1, chunks.len());
    proof {
        assert(owned_views(front@) =~= all.take(first.notes as int));
        assert(owned_views(back@) =~= all.skip(first.notes as int));
        assert(rest@ =~= chunks@.skip(1));
    }
    let ghost taken = all.take(notes_in(chunks@) as int);
    let tx: PlannedTx = match plan_tx(db, front, first, leaves) {
        Some(tx) => tx,
        None => {
            proof {
                let i = choose|i: int|
                    0 <= i < all.take(first.notes as int).len() && db@.path_at(
                        (#[trigger] all.take(first.notes as int)[i]).position,
                        leaves as nat,
                    ) is None;
                assert(taken[i] == all.take(first.notes as int)[i]);
            }
            return None;
        },
    };
    match plan_txs(db, back, rest, leaves) {
        None => {
            proof {
                let later = all.skip(first.notes as int).take(notes_in(rest@) as int);
                let i = choose|i: int|
                    0 <= i < later.len() && db@.path_at(
                        (#[trigger] later[i]).position,
                        leaves as nat,
                    ) is None;
                assert(taken[i + first.notes] == later[i]);
            }
            None
        },
        Some(mut txs) => {
            let ghost tail = txs@;
            txs.insert(0, tx);
            assert(txs@ =~= seq![tx] + tail);
            assert(txs@.skip(1) =~= tail);
            Some(txs)
        },
    }
}

/// What planning a payment comes to.
pub enum SendPlan {
    /// These transactions.
    Ready(Vec<PlannedTx>),
    /// The notes do not suffice.
    Short { have: u128 },
    /// A note has no path.
    NoPath,
}

/// What planning a payment from these notes comes to, in an order of them by value.
pub open spec fn plan_outcome(
    r: SendPlan,
    notes: Seq<OwnedV>,
    w: WalletV,
    leaves: nat,
    amount: u64,
    fees: FeeSchedule,
    max_per: int,
) -> bool {
    exists|sorted: Seq<OwnedV>| #[trigger]
        arranged(sorted, notes, true) && plan_outcome_of(
            r,
            sorted,
            w,
            leaves,
            amount,
            fees,
            max_per,
        )
}

/// What planning a payment from notes in this order comes to.
pub open spec fn plan_outcome_of(
    r: SendPlan,
    sorted: Seq<OwnedV>,
    w: WalletV,
    leaves: nat,
    amount: u64,
    fees: FeeSchedule,
    max_per: int,
) -> bool {
    let values = values_of(sorted);
    match r {
        SendPlan::Short { have } => runs_out(values, amount as nat, fees, max_per) && have
            == sum_of(values, values.len() as int),
        SendPlan::NoPath => exists|chunks: Seq<Chunk>| #[trigger]
            pays_off(values, amount as nat, fees, max_per, chunks) && pathless(
                sorted.take(notes_in(chunks) as int),
                w,
                leaves,
            ),
        SendPlan::Ready(txs) => exists|chunks: Seq<Chunk>| #[trigger]
            pays_off(values, amount as nat, fees, max_per, chunks) && carried_out(
                txs@,
                chunks,
                sorted,
                w,
                leaves,
            ),
    }
}

fn add_up(values: &[u64]) -> (t: u128)
    ensures
        t == sum_of(values@, values@.len() as int),
{
    let mut t: u128 = 0;
    let mut i: usize = 0;
    while i < values.len()
        invariant
            0 <= i <= values@.len(),
            t == sum_of(values@, i as int),
            t <= i * 0xffff_ffff_ffff_ffff,
        decreases values@.len() - i,
    {
        proof {
            crate::state::lemma_count_bound(i, 0xffff_ffff_ffff_ffff);
            assert((i + 1) * 0xffff_ffff_ffff_ffff == i * 0xffff_ffff_ffff_ffff
                + 0xffff_ffff_ffff_ffff) by (nonlinear_arith);
        }
        t = t + values[i] as u128;
        i = i + 1;
    }
    t
}

/// Plans a payment from these notes, at the anchor after `leaves` leaves: the most valuable
/// notes first, in as many transactions as it takes, all with their paths.
pub fn plan_send(
    db: &WalletDb,
    notes: &[OwnedNote],
    leaves: u64,
    amount: u64,
    fees: &FeeSchedule,
    max_per: usize,
) -> (r: SendPlan)
    requires
        db.wf(),
    ensures
        plan_outcome(
            r,
            owned_views(notes@),
            db@,
            leaves as nat,
            amount,
            *fees,
            max_per as int,
        ),
{
    let sorted: Vec<OwnedNote> = arrange(notes, true);
    let values: Vec<u64> = note_values(sorted.as_slice());
    let ghost s = owned_views(sorted@);
    assert(arranged(s, owned_views(notes@), true));
    match plan_chunks(values.as_slice(), amount, fees, max_per) {
        None => {
            let r: SendPlan = SendPlan::Short { have: add_up(values.as_slice()) };
            assert(plan_outcome_of(r, s, db@, leaves as nat, amount, *fees, max_per as int));
            r
        },
        Some(chunks) => {
            proof {
                crate::daemon::fees::plans_pay_the_amount(
                    values@,
                    amount as nat,
                    *fees,
                    max_per as int,
                    chunks@,
                );
                assert(pays_off(values_of(s), amount as nat, *fees, max_per as int, chunks@));
            }
            let r: SendPlan = match plan_txs(db, sorted.as_slice(), chunks.as_slice(), leaves) {
                Some(txs) => SendPlan::Ready(txs),
                None => SendPlan::NoPath,
            };
            assert(plan_outcome_of(r, s, db@, leaves as nat, amount, *fees, max_per as int));
            r
        },
    }
}

/// What a wallet does with a request to send, from what it has at hand.
pub enum SendStep {
    /// Prove and submit these transactions.
    Go(Vec<PlannedTx>),
    /// The notes do not suffice, and the wallet knows all of them; so much is stranded.
    Refuse { have: u128, stranded: u128 },
    /// The wallet is behind, or knows no anchor: replay the chain first.
    Replay,
    /// A note has no path.
    NoPath,
}

/// Plans a payment from what the wallet has at hand.
pub fn wallet_send_step(
    e: &WalletEntry,
    amount: u64,
    fees: &FeeSchedule,
    max_per: usize,
) -> (r: SendStep)
    requires
        e.db.wf(),
        amount > 0,
    ensures
        match matured(e.ring@, e.sink_blue) {
            None => r is Replay,
            Some(leaves) => {
                let notes = candidates(e.db@, leaves as nat);
                match r {
                    SendStep::Go(txs) => plan_outcome(
                        SendPlan::Ready(txs),
                        notes,
                        e.db@,
                        leaves as nat,
                        amount,
                        *fees,
                        max_per as int,
                    ),
                    SendStep::Refuse { have, stranded } => e.caught_up && stranded == worth(
                        e.db@.stranded(),
                    ) && plan_outcome(
                        SendPlan::Short { have },
                        notes,
                        e.db@,
                        leaves as nat,
                        amount,
                        *fees,
                        max_per as int,
                    ),
                    SendStep::Replay => !e.caught_up && exists|have: u128|
                        plan_outcome(
                            #[trigger] short_of(have),
                            notes,
                            e.db@,
                            leaves as nat,
                            amount,
                            *fees,
                            max_per as int,
                        ),
                    SendStep::NoPath => plan_outcome(
                        SendPlan::NoPath,
                        notes,
                        e.db@,
                        leaves as nat,
                        amount,
                        *fees,
                        max_per as int,
                    ),
                }
            },
        },
{
    let leaves: u64 = match e.matured_leaves() {
        Some(leaves) => leaves,
        None => {
            return SendStep::Replay;
        },
    };
    let (notes, stranded): (Vec<OwnedNote>, u128) = matured_candidates(&e.db, leaves);
    match plan_send(&e.db, notes.as_slice(), leaves, amount, fees, max_per) {
        SendPlan::Ready(txs) => SendStep::Go(txs),
        SendPlan::NoPath => SendStep::NoPath,
        SendPlan::Short { have } => {
            assert(plan_outcome(
                short_of(have),
                owned_views(notes@),
                e.db@,
                leaves as nat,
                amount,
                *fees,
                max_per as int,
            ));
            if e.caught_up {
                SendStep::Refuse { have, stranded }
            } else {
                SendStep::Replay
            }
        },
    }
}

/// A plan that falls short.
pub open spec fn short_of(have: u128) -> SendPlan {
    SendPlan::Short { have }
}

/// The wallet is too far behind the node, or its cursor is in doubt.
pub open spec fn stale(scanned: u64, node_tip: u64, strikes: u32) -> bool {
    ||| node_tip == 0
    ||| scanned + SYNC_TIP_MARGIN + 2 * SYNC_MARGIN < node_tip
    ||| strikes > 0
}

/// The refusal to spend from a stale wallet.
#[derive(Debug, Clone, Copy, PartialEq, Eq)]
pub struct Stale {
    pub scanned: u64,
    pub node_tip: u64,
}

impl Stale {
    /// The text of [`message`](Self::message).
    pub open spec fn text(self) -> Seq<char> {
        "wallet is still updating its canonical chain view (wallet DAA "@ + decimal_text(
            self.scanned as nat,
        ) + ", node DAA "@ + decimal_text(self.node_tip as nat)
            + "); wait for sync before sending"@
    }

    /// The message for people.
    pub fn message(&self) -> (s: String)
        ensures
            s@ == self.text(),
    {
        let mut s: String = String::from_str(
            "wallet is still updating its canonical chain view (wallet DAA ",
        );
        push_decimal(&mut s, self.scanned as u128);
        s.append(", node DAA ");
        push_decimal(&mut s, self.node_tip as u128);
        s.append("); wait for sync before sending");
        s
    }
}

/// Whether a wallet is fit to spend. It trails the tip by the settling margin always; that
/// and two polls more are no staleness.
pub fn check_fresh(scanned: u64, node_tip: u64, strikes: u32) -> (r: Result<(), Stale>)
    ensures
        r == (if stale(scanned, node_tip, strikes) {
            Err::<(), Stale>(Stale { scanned, node_tip })
        } else {
            Ok(())
        }),
{
    let lag: u64 = SYNC_TIP_MARGIN + 2 * SYNC_MARGIN;
    let behind: bool = node_tip > scanned && node_tip - scanned > lag;
    if node_tip == 0 || behind || strikes > 0 {
        Err(Stale { scanned, node_tip })
    } else {
        Ok(())
    }
}

/// A memo that does not fit.
#[derive(Debug, Clone, Copy, PartialEq, Eq, Structural)]
pub struct MemoTooLong;

impl MemoTooLong {
    /// The message for people.
    pub fn message(&self) -> (s: &'static str)
        ensures
            s@ == "memo too long (max 512 bytes)"@,
    {
        "memo too long (max 512 bytes)"
    }
}

/// The bytes of an optional memo.
pub open spec fn memo_text(m: Option<&str>) -> Seq<u8> {
    match m {
        Some(m) => m.spec_bytes(),
        None => Seq::empty(),
    }
}

/// Packs a memo into the field of a note: its bytes, and zeros behind.
pub fn memo_bytes(m: Option<&str>) -> (r: Result<[u8; 512], MemoTooLong>)
    ensures
        r is Err <==> memo_text(m).len() > 512,
        r matches Ok(field) ==> field@ == memo_text(m) + Seq::new(
            (512 - memo_text(m).len()) as nat,
            |i: int| 0u8,
        ),
{
    let mut out: Vec<u8> = Vec::new();
    match m {
        Some(m) => {
            let b: &[u8] = m.as_bytes();
            if b.len() > 512 {
                return Err(MemoTooLong);
            }
            crate::bytes::push_all(&mut out, b);
        },
        None => {},
    }
    let ghost text = memo_text(m);
    assert(out@ =~= text);
    while out.len() < 512
        invariant
            text.len() <= out@.len() <= 512,
            out@ == text + Seq::new((out@.len() - text.len()) as nat, |i: int| 0u8),
        decreases 512 - out@.len(),
    {
        let ghost n = out@.len();
        out.push(0);
        assert(out@ =~= text + Seq::new((n + 1 - text.len()) as nat, |i: int| 0u8));
    }
    let field: [u8; 512] = to_array(out.as_slice());
    Ok(field)
}

/// The text that tells of stranded value, where there is any.
pub open spec fn stranded_text(stranded: u128) -> Seq<char> {
    if stranded == 0 {
        Seq::empty()
    } else {
        "; note: "@ + coin_text(stranded as nat)
            + " ZKAS of this wallet is temporarily unspendable (stranded by an old state bug — contact support to recover it)"@
    }
}

/// One line of honesty behind a refusal, when part of the balance is stranded.
pub fn stranded_hint(stranded: u128) -> (s: String)
    ensures
        s@ == stranded_text(stranded),
{
    if stranded == 0 {
        let s: String = String::new();
        assert(s@ =~= Seq::<char>::empty());
        s
    } else {
        let mut s: String = String::from_str("; note: ");
        let coins: String = fmt_fc(stranded);
        s.append(coins.as_str());
        s.append(
            " ZKAS of this wallet is temporarily unspendable (stranded by an old state bug — contact support to recover it)",
        );
        s
    }
}

/// The refusal of a payment that the notes do not suffice for.
pub open spec fn insufficient_text(have: nat, amount: u64, fee: u64, stranded: u128) -> Seq<char> {
    "insufficient matured funds: have "@ + decimal_text(have) + ", need "@ + decimal_text(
        (amount + fee) as nat,
    ) + "+ (amount "@ + decimal_text(amount as nat) + " + a "@ + decimal_text(fee as nat)
        + " fee per tx; funds must be ~10 min old to spend)"@ + stranded_text(stranded)
}

/// The message of that refusal.
pub fn insufficient_message(have: u128, amount: u64, fee: u64, stranded: u128) -> (s: String)
    ensures
        s@ == insufficient_text(have as nat, amount, fee, stranded),
{
    let mut s: String = String::from_str("insufficient matured funds: have ");
    push_decimal(&mut s, have);
    s.append(", need ");
    push_decimal(&mut s, amount as u128 + fee as u128);
    s.append("+ (amount ");
    push_decimal(&mut s, amount as u128);
    s.append(" + a ");
    push_decimal(&mut s, fee as u128);
    s.append(" fee per tx; funds must be ~10 min old to spend)");
    let hint: String = stranded_hint(stranded);
    s.append(hint.as_str());
    s
}

/// What a prepared payment will spend.
pub struct Selection {
    pub inputs: Vec<(Note, MerklePath)>,
    pub positions: Vec<u64>,
    /// What the inputs are worth together.
    pub selected: u128,
    /// What all candidates are worth together.
    pub have: u128,
    pub fee: u64,
}

/// The selection is what one transaction for the amount takes of the notes in this order.
pub open spec fn selects(
    s: Selection,
    sorted: Seq<OwnedV>,
    w: WalletV,
    leaves: nat,
    amount: u64,
    fees: FeeSchedule,
    max_per: int,
) -> bool {
    let values = values_of(sorted);
    let n = s.inputs@.len() as int;
    &&& takes(values, amount as nat, fees, max_per, n)
    &&& n <= sorted.len()
    &&& inputs_from(s.inputs@, sorted.take(n), w, leaves)
    &&& paths_wf(s.inputs@)
    &&& s.positions@.len() == n
    &&& forall|i: int| 0 <= i < n ==> (#[trigger] s.positions@[i]) == sorted[i].position
    &&& s.selected == sum_of(values, n)
    &&& s.have == sum_of(values, values.len() as int)
    &&& s.fee == fees.fee_of(n)
}

/// One of the notes that one transaction for the amount takes has no path.
pub open spec fn selects_pathless(
    sorted: Seq<OwnedV>,
    w: WalletV,
    leaves: nat,
    amount: u64,
    fees: FeeSchedule,
    max_per: int,
) -> bool {
    exists|n: int| #[trigger]
        takes(values_of(sorted), amount as nat, fees, max_per, n) && pathless(
            sorted.take(n),
            w,
            leaves,
        )
}

/// Selects what one transaction for the amount spends, the most valuable notes first, with
/// their paths; `None` where one of them has none.
pub fn select_spends(
    db: &WalletDb,
    notes: &[OwnedNote],
    leaves: u64,
    amount: u64,
    fees: &FeeSchedule,
    max_per: usize,
) -> (r: Option<Selection>)
    requires
        db.wf(),
    ensures
        exists|sorted: Seq<OwnedV>| #[trigger]
            arranged(sorted, owned_views(notes@), true) && match r {
                Some(s) => selects(
                    s,
                    sorted,
                    db@,
                    leaves as nat,
                    amount,
                    *fees,
                    max_per as int,
                ),
                None => selects_pathless(
                    sorted,
                    db@,
                    leaves as nat,
                    amount,
                    *fees,
                    max_per as int,
                ),
            },
{
    let sorted: Vec<OwnedNote> = arrange(notes, true);
    let values: Vec<u64> = note_values(sorted.as_slice());
    let ghost all = owned_views(sorted@);
    assert(arranged(all, owned_views(notes@), true));
    let (n, selected) = take_notes(values.as_slice(), amount, fees, max_per);
    let fee: u64 = fees.chunk_fee(n);
    let chosen: &[OwnedNote] = vstd::slice::slice_subrange(sorted.as_slice(), 0, n);
    assert(owned_views(chosen@) =~= all.take(n as int));
    match plan_tx(db, chosen, Chunk { notes: n, pay: amount, fee }, leaves) {
        None => {
            assert(takes(values_of(all), amount as nat, *fees, max_per as int, n as int));
            None
        },
        Some(tx) => {
            let s: Selection = Selection {
                inputs: tx.inputs,
                positions: tx.positions,
                selected,
                have: add_up(values.as_slice()),
                fee,
            };
            proof {
                assert forall|i: int| 0 <= i < n implies (#[trigger] s.positions@[i])
                    == all[i].position by {
                    assert(all.take(n as int)[i] == all[i]);
                }
                assert(selects(s, all, db@, leaves as nat, amount, *fees, max_per as int));
            }
            Some(s)
        },
    }
}

/// Why a payment was not prepared.
#[derive(Debug, Clone, Copy, PartialEq, Eq)]
pub enum PrepareError {
    /// The notes exist, and do not fit one transaction.
    TooManyNotes { max_per: usize, capacity: u128 },
    /// The notes do not suffice.
    Insufficient { have: u128, need: u64 },
}

impl PrepareError {
    /// The text of [`message`](Self::message).
    pub open spec fn text(self) -> Seq<char> {
        match self {
            PrepareError::TooManyNotes { max_per, capacity } => "amount needs more than "@
                + decimal_text(max_per as nat)
                + " input notes (standard tx size cap): max sendable in one tx is "@
                + decimal_text(capacity as nat) + " sompi; send in smaller chunks"@,
            PrepareError::Insufficient { have, need } => "insufficient matured funds: have "@
                + decimal_text(have as nat) + ", need amount+fee="@ + decimal_text(need as nat)
                + " (funds must be ~10 min old to spend)"@,
        }
    }

    /// The message for people.
    pub fn message(&self) -> (s: String)
        ensures
            s@ == self.text(),
    {
        match *self {
            PrepareError::TooManyNotes { max_per, capacity } => {
                let mut s: String = String::from_str("amount needs more than ");
                push_decimal(&mut s, max_per as u128);
                s.append(" input notes (standard tx size cap): max sendable in one tx is ");
                push_decimal(&mut s, capacity);
                s.append(" sompi; send in smaller chunks");
                s
            },
            PrepareError::Insufficient { have, need } => {
                let mut s: String = String::from_str("insufficient matured funds: have ");
                push_decimal(&mut s, have);
                s.append(", need amount+fee=");
                push_decimal(&mut s, need as u128);
                s.append(" (funds must be ~10 min old to spend)");
                s
            },
        }
    }
}

/// Amount and fee, as far as the numbers go.
pub open spec fn needed(amount: u64, fee: u64) -> u64 {
    if amount + fee <= u64::MAX {
        (amount + fee) as u64
    } else {
        u64::MAX
    }
}

/// What can be paid out of what was selected.
pub open spec fn capacity_of(selected: u128, fee: u64) -> u128 {
    if selected >= fee {
        (selected - fee) as u128
    } else {
        0
    }
}

/// What a transaction pays, and what remains owed: all of the amount where the selection
/// covers it. Else, where the caller asked for parts, the wallet can remember what is spent
/// and its notes suffice in all, it pays all that it can, and there is no change.
pub open spec fn settled(
    requested: u64,
    fee: u64,
    selected: u128,
    have: u128,
    parts: bool,
    max_per: usize,
) -> Result<(u64, u64), PrepareError> {
    let need = needed(requested, fee);
    let capacity = capacity_of(selected, fee);
    if selected >= need {
        Ok((requested, 0))
    } else if have < need {
        Err(PrepareError::Insufficient { have, need })
    } else if parts && capacity > 0 {
        Ok((capacity as u64, (requested - capacity) as u64))
    } else {
        Err(PrepareError::TooManyNotes { max_per, capacity })
    }
}

/// Settles what a prepared payment pays.
pub fn settle_amount(
    requested: u64,
    fee: u64,
    selected: u128,
    have: u128,
    parts: bool,
    max_per: usize,
) -> (r: Result<(u64, u64), PrepareError>)
    ensures
        r == settled(requested, fee, selected, have, parts, max_per),
        r matches Ok((pay, owed)) ==> pay + owed == requested,
        requested + fee <= u64::MAX ==> (r matches Ok((pay, owed)) ==> pay + fee <= selected),
{
    let need: u64 = if requested <= u64::MAX - fee {
        requested + fee
    } else {
        u64::MAX
    };
    if selected >= need as u128 {
        return Ok((requested, 0));
    }
    if have < need as u128 {
        return Err(PrepareError::Insufficient { have, need });
    }
    let capacity: u128 = if selected >= fee as u128 {
        selected - fee as u128
    } else {
        0
    };
    if parts && capacity > 0 {
        let pay: u64 = capacity as u64;
        Ok((pay, requested - pay))
    } else {
        Err(PrepareError::TooManyNotes { max_per, capacity })
    }
}

/// Why notes were not merged.
#[derive(Debug, Clone, Copy, PartialEq, Eq)]
pub enum ConsolidateError {
    /// The wallet knows no anchor yet.
    Syncing,
    /// There are fewer than two notes to merge.
    TooFew,
    /// The notes hold no more than the fee.
    TooSmall { sum: u128, fee: u64 },
    /// The notes hold more than an amount can be.
    TooLarge { sum: u128 },
    /// A note has no path.
    NoPath,
}

impl ConsolidateError {
    /// The text of [`message`](Self::message).
    pub open spec fn text(self) -> Seq<char> {
        match self {
            ConsolidateError::Syncing =>
                "wallet is still syncing the maturity window; try again shortly"@,
            ConsolidateError::TooFew => "nothing to consolidate: fewer than 2 matured notes"@,
            ConsolidateError::TooSmall { sum, fee } => "smallest notes sum to "@ + decimal_text(
                sum as nat,
            ) + ", not more than the "@ + decimal_text(fee as nat) + " fee"@,
            ConsolidateError::TooLarge { sum } => "smallest notes sum to "@ + decimal_text(
                sum as nat,
            ) + ", more than one payment can carry"@,
            ConsolidateError::NoPath => "matured note has no witness path"@,
        }
    }

    /// The message for people.
    pub fn message(&self) -> (s: String)
        ensures
            s@ == self.text(),
    {
        match *self {
            ConsolidateError::Syncing => String::from_str(
                "wallet is still syncing the maturity window; try again shortly",
            ),
            ConsolidateError::TooFew => String::from_str(
                "nothing to consolidate: fewer than 2 matured notes",
            ),
            ConsolidateError::TooSmall { sum, fee } => {
                let mut s: String = String::from_str("smallest notes sum to ");
                push_decimal(&mut s, sum);
                s.append(", not more than the ");
                push_decimal(&mut s, fee as u128);
                s.append(" fee");
                s
            },
            ConsolidateError::TooLarge { sum } => {
                let mut s: String = String::from_str("smallest notes sum to ");
                push_decimal(&mut s, sum);
                s.append(", more than one payment can carry");
                s
            },
            ConsolidateError::NoPath => String::from_str("matured note has no witness path"),
        }
    }
}

/// How many notes are merged: as many as there are, and as one transaction may spend.
pub open spec fn merged(count: nat, max_per: int) -> int {
    if count < max_per {
        count as int
    } else {
        max_per
    }
}

/// What merging the notes in this order comes to: the smallest, as many as one transaction
/// spends, into one note of what they hold but the fee.
pub open spec fn merges(
    r: Result<PlannedTx, ConsolidateError>,
    sorted: Seq<OwnedV>,
    w: WalletV,
    leaves: nat,
    fees: FeeSchedule,
    max_per: int,
) -> bool {
    let n = merged(sorted.len(), max_per);
    let sum = sum_of(values_of(sorted), n);
    let fee = fees.fee_of(n);
    if n < 2 {
        r == Err::<PlannedTx, _>(ConsolidateError::TooFew)
    } else if sum > u64::MAX {
        r matches Err(ConsolidateError::TooLarge { sum: s }) && s == sum
    } else if sum <= fee {
        r matches Err(ConsolidateError::TooSmall { sum: s, fee: f }) && s == sum && f == fee
    } else {
        match r {
            Ok(tx) => {
                &&& tx.pay == sum - fee
                &&& tx.fee == fee
                &&& inputs_from(tx.inputs@, sorted.take(n), w, leaves)
                &&& paths_wf(tx.inputs@)
                &&& tx.positions@.len() == n
                &&& forall|i: int| 0 <= i < n ==> (#[trigger] tx.positions@[i]) == sorted[i].position
            },
            Err(e) => e is NoPath && pathless(sorted.take(n), w, leaves),
        }
    }
}

/// Merges a wallet's smallest notes into one note of its own.
pub fn consolidate(
    e: &WalletEntry,
    fees: &FeeSchedule,
    max_per: usize,
) -> (r: Result<PlannedTx, ConsolidateError>)
    requires
        e.db.wf(),
    ensures
        match matured(e.ring@, e.sink_blue) {
            None => r == Err::<PlannedTx, _>(ConsolidateError::Syncing),
            Some(leaves) => exists|sorted: Seq<OwnedV>| #[trigger]
                arranged(sorted, candidates(e.db@, leaves as nat), false)
                    && merges(r, sorted, e.db@, leaves as nat, *fees, max_per as int),
        },
{
    let leaves: u64 = match e.matured_leaves() {
        Some(leaves) => leaves,
        None => {
            return Err(ConsolidateError::Syncing);
        },
    };
    let (notes, _): (Vec<OwnedNote>, u128) = matured_candidates(&e.db, leaves);
    let sorted: Vec<OwnedNote> = arrange(notes.as_slice(), false);
    let ghost all = owned_views(sorted@);
    let n: usize = if sorted.len() < max_per {
        sorted.len()
    } else {
        max_per
    };
    let chosen: &[OwnedNote] = vstd::slice::slice_subrange(sorted.as_slice(), 0, n);
    let values: Vec<u64> = note_values(chosen);
    let sum: u128 = add_up(values.as_slice());
    proof {
        assert(arranged(all, owned_views(notes@), false));
        assert(owned_views(chosen@) =~= all.take(n as int));
        lemma_sum_prefix(values_of(all), values@, n as int);
    }
    if n < 2 {
        let r: Result<PlannedTx, ConsolidateError> = Err(ConsolidateError::TooFew);
        assert(merges(r, all, e.db@, leaves as nat, *fees, max_per as int));
        return r;
    }
    if sum > 0xffff_ffff_ffff_ffff {
        let r: Result<PlannedTx, ConsolidateError> = Err(ConsolidateError::TooLarge { sum });
        assert(merges(r, all, e.db@, leaves as nat, *fees, max_per as int));
        return r;
    }
    let fee: u64 = fees.chunk_fee(n);
    if sum <= fee as u128 {
        let r: Result<PlannedTx, ConsolidateError> = Err(ConsolidateError::TooSmall { sum, fee });
        assert(merges(r, all, e.db@, leaves as nat, *fees, max_per as int));
        return r;
    }
    let pay: u64 = (sum - fee as u128) as u64;
    match plan_tx(&e.db, chosen, Chunk { notes: n, pay, fee }, leaves) {
        None => {
            let r: Result<PlannedTx, ConsolidateError> = Err(ConsolidateError::NoPath);
            assert(merges(r, all, e.db@, leaves as nat, *fees, max_per as int));
            r
        },
        Some(tx) => {
            proof {
                assert forall|i: int| 0 <= i < n implies (#[trigger] tx.positions@[i])
                    == all[i].position by {
                    assert(all.take(n as int)[i] == all[i]);
                }
                assert(merges(Ok(tx), all, e.db@, leaves as nat, *fees, max_per as int));
            }
            Ok(tx)
        },
    }
}

proof fn lemma_worth_is_sum(notes: Seq<OwnedV>)
    ensures
        sum_of(values_of(notes), notes.len() as int) == worth(notes),
    decreases notes.len(),
{
    if notes.len() > 0 {
        let front = notes.drop_last();
        lemma_worth_is_sum(front);
        lemma_sum_prefix(values_of(notes), values_of(front), front.len() as int);
    }
}

/// What a request to prepare a payment comes to.
pub enum PrepareStep {
    /// Prove a payment of `pay` from this selection; `owed` remains of what was asked for.
    Go { selection: Selection, pay: u64, owed: u64 },
    /// The payment is refused.
    Refuse(PrepareError),
    /// The wallet is too far behind.
    Wait(Stale),
    /// The wallet is another's, or knows no anchor: replay the chain first.
    Replay,
    /// A note has no path.
    NoPath,
}

/// What preparing a payment from notes in this order comes to.
pub open spec fn prepares(
    r: PrepareStep,
    sorted: Seq<OwnedV>,
    w: WalletV,
    leaves: nat,
    requested: u64,
    fees: FeeSchedule,
    max_per: usize,
    parts: bool,
) -> bool {
    match r {
        PrepareStep::Go { selection: s, pay, owed } => {
            &&& selects(s, sorted, w, leaves, requested, fees, max_per as int)
            &&& settled(requested, s.fee, s.selected, s.have, parts, max_per) == Ok::<
                (u64, u64),
                PrepareError,
            >((pay, owed))
        },
        PrepareStep::Refuse(e) => exists|s: Selection| #[trigger]
            selects(s, sorted, w, leaves, requested, fees, max_per as int) && settled(
                requested,
                s.fee,
                s.selected,
                s.have,
                parts,
                max_per,
            ) == Err::<(u64, u64), PrepareError>(e),
        PrepareStep::NoPath => selects_pathless(
            sorted,
            w,
            leaves,
            requested,
            fees,
            max_per as int,
        ),
        PrepareStep::Wait(_) => false,
        PrepareStep::Replay => false,
    }
}

/// Prepares a payment from these notes, at the anchor after `leaves` leaves, in one
/// transaction.
pub fn prepare_from(
    db: &WalletDb,
    notes: &[OwnedNote],
    leaves: u64,
    requested: u64,
    fees: &FeeSchedule,
    max_per: usize,
    parts: bool,
) -> (r: PrepareStep)
    requires
        db.wf(),
    ensures
        exists|sorted: Seq<OwnedV>| #[trigger]
            arranged(sorted, owned_views(notes@), true) && prepares(
                r,
                sorted,
                db@,
                leaves as nat,
                requested,
                *fees,
                max_per,
                parts,
            ),
{
    match select_spends(db, notes, leaves, requested, fees, max_per) {
        None => PrepareStep::NoPath,
        Some(s) => {
            let ghost sorted = choose|sorted: Seq<OwnedV>| #[trigger]
                arranged(sorted, owned_views(notes@), true) && selects(
                    s,
                    sorted,
                    db@,
                    leaves as nat,
                    requested,
                    *fees,
                    max_per as int,
                );
            assert(selects(s, sorted, db@, leaves as nat, requested, *fees, max_per as int));
            let r: PrepareStep = match settle_amount(
                requested,
                s.fee,
                s.selected,
                s.have,
                parts,
                max_per,
            ) {
                Ok((pay, owed)) => PrepareStep::Go { selection: s, pay, owed },
                Err(e) => PrepareStep::Refuse(e),
            };
            assert(prepares(
                r,
                sorted,
                db@,
                leaves as nat,
                requested,
                *fees,
                max_per,
                parts,
            ));
            r
        },
    }
}

/// Prepares a payment from what the wallet has at hand. Only a wallet that is registered
/// under the viewing key, and is not stale, is drawn on; only there can what is spent be
/// remembered, so only there may a payment be made in parts.
pub fn wallet_prepare_step(
    e: &WalletEntry,
    fvk: &[u8; 96],
    node_tip: u64,
    requested: u64,
    fees: &FeeSchedule,
    max_per: usize,
    allow_partial: bool,
) -> (r: PrepareStep)
    requires
        e.db.wf(),
    ensures
        if e.db@.fvk != fvk@ {
            r is Replay
        } else if stale(e.scanned, node_tip, e.strikes) {
            r == PrepareStep::Wait(Stale { scanned: e.scanned, node_tip })
        } else {
            match matured(e.ring@, e.sink_blue) {
                None => r is Replay,
                Some(leaves) => exists|sorted: Seq<OwnedV>| #[trigger]
                    arranged(sorted, candidates(e.db@, leaves as nat), true)
                        && prepares(
                        r,
                        sorted,
                        e.db@,
                        leaves as nat,
                        requested,
                        *fees,
                        max_per,
                        allow_partial,
                    ),
            }
        },
{
    let own: [u8; 96] = e.db.fvk().to_bytes();
    if !same(&own, fvk) {
        return PrepareStep::Replay;
    }
    match check_fresh(e.scanned, node_tip, e.strikes) {
        Ok(()) => {},
        Err(s) => {
            return PrepareStep::Wait(s);
        },
    }
    let leaves: u64 = match e.matured_leaves() {
        Some(leaves) => leaves,
        None => {
            return PrepareStep::Replay;
        },
    };
    let (notes, _): (Vec<OwnedNote>, u128) = matured_candidates(&e.db, leaves);
    prepare_from(&e.db, notes.as_slice(), leaves, requested, fees, max_per, allow_partial)
}

/// The note's leaf is its commitment.
pub open spec fn stands(w: WalletV, n: OwnedV) -> bool {
    &&& w.base.size <= n.position < w.size()
    &&& w.leaves[n.position - w.base.size] == n.note.commitment()
}

/// The inputs of one payment are all proven against one anchor: that of the wallet's tree
/// after `leaves` leaves.
pub proof fn inputs_share_one_anchor(
    inputs: Seq<(Note, MerklePath)>,
    notes: Seq<OwnedV>,
    w: WalletV,
    leaves: nat,
    fvk: Seq<u8>,
    i: int,
)
    requires
        inputs_from(inputs, notes, w, leaves),
        leaves <= TREE_CAPACITY,
        0 <= i < notes.len(),
        stands(w, notes[i]),
    ensures
        spend_views(fvk, inputs)[i].root() == w.base.extend(
            w.leaves.take(leaves - w.base.size),
        ).root(),
{
    assert(inputs[i].0@ == notes[i].note);
    assert(leads_to_root(w, inputs[i].1, notes[i].position, leaves));
}

proof fn lemma_candidate(w: WalletV, notes: Seq<OwnedV>, leaves: nat, i: int)
    requires
        0 <= i < candidates_among(w, notes, leaves).len(),
    ensures
        notes.contains(candidates_among(w, notes, leaves)[i]),
        candidates_among(w, notes, leaves)[i].position < leaves,
        !w.strands(candidates_among(w, notes, leaves)[i].position),
    decreases notes.len(),
{
    let before = candidates_among(w, notes.drop_last(), leaves);
    if i < before.len() {
        lemma_candidate(w, notes.drop_last(), leaves, i);
        let x = before[i];
        let k = choose|k: int| 0 <= k < notes.drop_last().len() && notes.drop_last()[k] == x;
        assert(notes[k] == x);
    } else {
        assert(notes[notes.len() - 1] == notes.last());
    }
}

/// A note that a spend may take has a path: with the stranded notes passed over, none of the
/// others fails a payment.
pub proof fn candidates_have_paths(w: WalletV, leaves: nat, i: int)
    requires
        w.in_step(),
        all_canonical(w.leaves),
        w.upto <= TREE_CAPACITY,
        leaves <= w.size(),
        leaves <= TREE_CAPACITY,
        0 <= i < candidates(w, leaves).len(),
    ensures
        w.notes.contains(candidates(w, leaves)[i]),
        w.path_at(candidates(w, leaves)[i].position, leaves) is Some,
{
    lemma_candidate(w, w.notes, leaves, i);
    other_notes_have_a_path(w, candidates(w, leaves)[i].position, leaves);
}

/// A wallet can spend what it holds: whichever of its notes a payment takes, with their paths
/// to one anchor, the builder refuses none of them.
pub proof fn wallets_can_spend_their_notes(
    w: WalletV,
    leaves: nat,
    notes: Seq<OwnedV>,
    inputs: Seq<(Note, MerklePath)>,
    outputs: Seq<OutputV>,
)
    requires
        w.tidy(),
        leaves <= TREE_CAPACITY,
        notes.len() > 0,
        inputs_from(inputs, notes, w, leaves),
        forall|i: int| 0 <= i < notes.len() ==> w.notes.contains(#[trigger] notes[i]),
    ensures
        transfer_plan(w.fvk, inputs, outputs).spendable(),
{
    let plan = transfer_plan(w.fvk, inputs, outputs);
    assert forall|i: int| 0 <= i < notes.len() implies stands(w, #[trigger] notes[i])
        && owned_address(w.fvk, notes[i].note.recipient) by {
        assert(w.notes.contains(notes[i]));
        let k = choose|k: int| 0 <= k < w.notes.len() && w.notes[k] == notes[i];
        assert(w.keeps(w.notes[k]));
    }
    assert(stands(w, notes[0]));
    inputs_share_one_anchor(inputs, notes, w, leaves, w.fvk, 0);
    assert forall|i: int| 0 <= i < plan.spends.len() implies (#[trigger] plan.spends[i]).fits(
        plan.anchor,
    ) by {
        assert(stands(w, notes[i]));
        assert(inputs[i].0@ == notes[i].note);
        inputs_share_one_anchor(inputs, notes, w, leaves, w.fvk, i);
    }
}

} // verus!
