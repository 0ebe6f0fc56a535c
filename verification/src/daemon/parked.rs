//! Notes of payments that are under way: they leave the wallet when a payment is submitted,
//! and come back where the chain never shows it.

use crate::daemon::submit::{away_from, mark_all_spent};
use crate::daemon::sync::WalletEntry;
use crate::walletdb::taken_back::with_note;
use crate::walletdb::{held_at, owned_views, OwnedNote, OwnedV, WalletV};
use vstd::prelude::*;

verus! {

/// How long, in DAA score, a submitted payment may stay unseen on the chain before it counts
/// as lost.
pub const PENDING_SPEND_EXPIRY_DAA: u64 = 3_600;

/// A note that a submitted payment spends.
#[derive(Clone, Copy)]
pub struct Parked {
    /// The payment's transaction.
    pub txid: [u8; 32],
    pub note: OwnedNote,
    /// The wallet's height when it was submitted.
    pub submitted: u64,
}

/// What a [`Parked`] note holds.
pub struct ParkedV {
    pub txid: Seq<u8>,
    pub note: OwnedV,
    pub submitted: u64,
}

impl View for Parked {
    type V = ParkedV;

    open spec fn view(&self) -> ParkedV {
        ParkedV { txid: self.txid@, note: self.note@, submitted: self.submitted }
    }
}

/// What a list of parked notes holds.
pub open spec fn parked_views(list: Seq<Parked>) -> Seq<ParkedV> {
    Seq::new(list.len(), |i: int| list[i]@)
}

/// The position is listed.
pub open spec fn lists(positions: Seq<u64>, p: nat) -> bool {
    exists|i: int| 0 <= i < positions.len() && #[trigger] positions[i] == p
}

/// The notes at these positions, parked for a transaction.
pub open spec fn parked_from(
    notes: Seq<OwnedV>,
    positions: Seq<u64>,
    txid: Seq<u8>,
    submitted: u64,
) -> Seq<ParkedV>
    decreases notes.len(),
{
    if notes.len() == 0 {
        Seq::empty()
    } else {
        let before = parked_from(notes.drop_last(), positions, txid, submitted);
        if lists(positions, notes.last().position) {
            before.push(ParkedV { txid, note: notes.last(), submitted })
        } else {
            before
        }
    }
}

fn is_listed(positions: &[u64], p: u64) -> (r: bool)
    ensures
        r == lists(positions@, p as nat),
{
    let mut i: usize = 0;
    while i < positions.len()
        invariant
            0 <= i <= positions@.len(),
            forall|j: int| 0 <= j < i ==> #[trigger] positions@[j] != p,
        decreases positions@.len() - i,
    {
        if positions[i] == p {
            assert(positions@[i as int] == p);
            return true;
        }
        i = i + 1;
    }
    false
}

/// The wallet could take every one of the parked notes in again.
pub open spec fn all_takable(w: WalletV, list: Seq<ParkedV>) -> bool {
    forall|i: int| 0 <= i < list.len() ==> w.can_take((#[trigger] list[i]).note)
}

/// What becomes of a parked note.
pub enum Fate {
    /// The chain shows that it is spent.
    Settled,
    /// The payment is lost.
    Lost,
    /// The payment may still come.
    Waiting,
}

/// What becomes of a parked note, by what the chain has revealed and by the height.
pub open spec fn fate(p: ParkedV, spent: Set<Seq<u8>>, now: u64) -> Fate {
    if spent.contains(p.note.nullifier) {
        Fate::Settled
    } else if now >= p.submitted + PENDING_SPEND_EXPIRY_DAA {
        Fate::Lost
    } else {
        Fate::Waiting
    }
}

/// The parked notes whose payments are lost.
pub open spec fn lost(list: Seq<ParkedV>, spent: Set<Seq<u8>>, now: u64) -> Seq<ParkedV>
    decreases list.len(),
{
    if list.len() == 0 {
        Seq::empty()
    } else if fate(list.last(), spent, now) is Lost {
        lost(list.drop_last(), spent, now).push(list.last())
    } else {
        lost(list.drop_last(), spent, now)
    }
}

/// The parked notes whose payments may still come.
pub open spec fn waiting(list: Seq<ParkedV>, spent: Set<Seq<u8>>, now: u64) -> Seq<ParkedV>
    decreases list.len(),
{
    if list.len() == 0 {
        Seq::empty()
    } else if fate(list.last(), spent, now) is Waiting {
        waiting(list.drop_last(), spent, now).push(list.last())
    } else {
        waiting(list.drop_last(), spent, now)
    }
}

/// The notes with parked ones taken in again.
pub open spec fn with_parked(notes: Seq<OwnedV>, list: Seq<ParkedV>) -> Seq<OwnedV>
    decreases list.len(),
{
    if list.len() == 0 {
        notes
    } else {
        with_note(with_parked(notes, list.drop_last()), list.last().note)
    }
}

/// What giving the notes of lost payments back does to an entry: nothing before it is caught
/// up; then the lost ones are back, and the settled ones gone.
pub open spec fn reclaims(
    old_entry: WalletEntry,
    new_entry: WalletEntry,
    out: Seq<([u8; 32], u64)>,
) -> bool {
    &&& new_entry == (WalletEntry {
        db: new_entry.db,
        parked: new_entry.parked,
        force_checkpoint: new_entry.force_checkpoint,
        ..old_entry
    })
    &&& !old_entry.caught_up ==> new_entry == old_entry && out.len() == 0
    &&& old_entry.caught_up ==> {
        let list = parked_views(old_entry.parked@);
        let spent = old_entry.db@.spent;
        let back = lost(list, spent, old_entry.scanned);
        &&& parked_views(new_entry.parked@) == waiting(list, spent, old_entry.scanned)
        &&& new_entry.db@ == (WalletV {
            notes: with_parked(old_entry.db@.notes, back),
            ..old_entry.db@
        })
        &&& out.len() == back.len()
        &&& forall|i: int|
            0 <= i < out.len() ==> (#[trigger] out[i]).0@ == back[i].txid && out[i].1
                == back[i].note.note.value
        &&& new_entry.force_checkpoint == (old_entry.force_checkpoint || back.len() > 0)
    }
}

proof fn lemma_parked_takable(
    w: WalletV,
    notes: Seq<OwnedV>,
    positions: Seq<u64>,
    txid: Seq<u8>,
    submitted: u64,
)
    requires
        forall|i: int| 0 <= i < notes.len() ==> w.can_take(#[trigger] notes[i]),
    ensures
        all_takable(w, parked_from(notes, positions, txid, submitted)),
    decreases notes.len(),
{
    if notes.len() > 0 {
        let front = notes.drop_last();
        assert forall|i: int| 0 <= i < front.len() implies w.can_take(#[trigger] front[i]) by {
            assert(w.can_take(notes[i]));
        }
        lemma_parked_takable(w, front, positions, txid, submitted);
        assert(w.can_take(notes[notes.len() - 1]));
    }
}

/// Where a wallet went on, it can still take what it could take.
pub proof fn lemma_still_takable(old_w: WalletV, w: WalletV, list: Seq<ParkedV>)
    requires
        w.went_on_from(old_w),
        all_takable(old_w, list),
    ensures
        all_takable(w, list),
{
    assert forall|i: int| 0 <= i < list.len() implies w.can_take((#[trigger] list[i]).note) by {
        assert(old_w.can_take(list[i].note));
        let k = list[i].note.position - old_w.base.size;
        assert(w.leaves[k] == old_w.leaves[k]);
    }
}

impl WalletEntry {
    /// A payment was accepted: the notes that it spends leave the wallet, and are kept aside
    /// until the chain shows that they are spent.
    pub fn park(&mut self, txid: &[u8; 32], positions: &[u64])
        requires
            old(self).db.wf(),
        ensures
            final(self).db.wf(),
            parked_views(final(self).parked@) == parked_views(old(self).parked@) + parked_from(
                old(self).db@.notes,
                positions@,
                txid@,
                old(self).scanned,
            ),
            final(self).db@ == (WalletV {
                notes: away_from(old(self).db@.notes, positions@, positions@.len() as int),
                ..old(self).db@
            }),
            *final(self) == (WalletEntry {
                db: final(self).db,
                parked: final(self).parked,
                ..*old(self)
            }),
            old(self).db@.tidy() ==> final(self).db@.tidy(),
            old(self).db@.tidy() && all_takable(old(self).db@, parked_views(old(self).parked@))
                ==> all_takable(final(self).db@, parked_views(final(self).parked@)),
    {
        let ghost start = parked_views(self.parked@);
        let ghost w = self.db@;
        let ghost all = self.db@.notes;
        let submitted: u64 = self.scanned;
        let mut fresh: Vec<Parked> = Vec::new();
        let mut i: usize = 0;
        assert(all.take(0) =~= Seq::<OwnedV>::empty());
        assert(parked_views(fresh@) =~= Seq::<ParkedV>::empty());
        while i < self.db.notes().len()
            invariant
                0 <= i <= all.len(),
                all == self.db@.notes,
                parked_views(fresh@) == parked_from(
                    all.take(i as int),
                    positions@,
                    txid@,
                    submitted,
                ),
            decreases all.len() - i,
        {
            let notes: &[OwnedNote] = self.db.notes();
            let n: OwnedNote = notes[i];
            let ghost before = fresh@;
            proof {
                assert(owned_views(notes@)[i as int] == n@);
                assert(all.take(i + 1).drop_last() =~= all.take(i as int));
                assert(all.take(i + 1).last() == n@);
            }
            if is_listed(positions, n.position) {
                let p: Parked = Parked { txid: *txid, note: n, submitted };
                fresh.push(p);
                assert(parked_views(fresh@) =~= parked_views(before).push(p@));
            }
            i = i + 1;
        }
        assert(all.take(i as int) =~= all);
        let ghost more = fresh@;
        let ghost had = self.parked@;
        self.parked.append(&mut fresh);
        mark_all_spent(&mut self.db, positions);
        proof {
            assert(self.parked@ =~= had + more);
            assert(parked_views(self.parked@) =~= start + parked_views(more));
            if w.tidy() && all_takable(w, start) {
                assert forall|k: int| 0 <= k < all.len() implies w.can_take(#[trigger] all[k]) by {
                    assert(w.keeps(w.notes[k]));
                }
                lemma_parked_takable(w, all, positions@, txid@, submitted);
                let list = parked_views(self.parked@);
                assert forall|k: int| 0 <= k < list.len() implies self.db@.can_take(
                    (#[trigger] list[k]).note,
                ) by {
                    if k < start.len() {
                        assert(list[k] == start[k]);
                        assert(w.can_take(start[k].note));
                    } else {
                        assert(list[k] == parked_views(more)[k - start.len()]);
                        assert(w.can_take(parked_views(more)[k - start.len()].note));
                    }
                }
            }
        }
    }

    /// Gives the notes of lost payments back, once the wallet is caught up, so that what it has
    /// not seen is not there; a checkpoint is then due. Returns each with its transaction and
    /// its value. Notes that the chain shows as spent are no longer kept aside.
    pub fn reclaim_expired(&mut self) -> (out: Vec<([u8; 32], u64)>)
        requires
            old(self).db.wf(),
        ensures
            final(self).db.wf(),
            reclaims(*old(self), *final(self), out@),
            old(self).db@.tidy() && all_takable(old(self).db@, parked_views(old(self).parked@))
                ==> final(self).db@.tidy() && all_takable(
                final(self).db@,
                parked_views(final(self).parked@),
            ),
    {
        let mut out: Vec<([u8; 32], u64)> = Vec::new();
        if !self.caught_up {
            return out;
        }
        let ghost list = parked_views(self.parked@);
        let ghost w = self.db@;
        let now: u64 = self.scanned;
        let mut left: Vec<Parked> = Vec::new();
        let mut i: usize = 0;
        assert(list.take(0) =~= Seq::<ParkedV>::empty());
        assert(parked_views(left@) =~= Seq::<ParkedV>::empty());
        while i < self.parked.len()
            invariant
                0 <= i <= self.parked@.len(),
                list == parked_views(self.parked@),
                self.db.wf(),
                now == self.scanned,
                *self == (WalletEntry { db: self.db, ..*old(self) }),
                w == old(self).db@,
                self.db@ == (WalletV {
                    notes: with_parked(w.notes, lost(list.take(i as int), w.spent, now)),
                    ..w
                }),
                parked_views(left@) == waiting(list.take(i as int), w.spent, now),
                ({
                    let back = lost(list.take(i as int), w.spent, now);
                    &&& out@.len() == back.len()
                    &&& forall|j: int|
                        0 <= j < out@.len() ==> (#[trigger] out@[j]).0@ == back[j].txid
                            && out@[j].1 == back[j].note.note.value
                }),
                w.tidy() && all_takable(w, list) ==> self.db@.tidy() && all_takable(
                    self.db@,
                    parked_views(left@),
                ),
            decreases self.parked@.len() - i,
        {
            let p: Parked = self.parked[i];
            let ghost before = left@;
            let ghost back = lost(list.take(i as int), w.spent, now);
            proof {
                assert(list.take(i + 1).drop_last() =~= list.take(i as int));
                assert(list.take(i + 1).last() == p@);
                assert(list[i as int] == p@);
            }
            if !self.db.has_seen(&p.note.nullifier) {
                if now >= PENDING_SPEND_EXPIRY_DAA && now - PENDING_SPEND_EXPIRY_DAA
                    >= p.submitted {
                    proof {
                        if all_takable(w, list) {
                            assert(w.can_take(list[i as int].note));
                            assert(self.db@.can_take(p.note@));
                        }
                    }
                    let ghost held = self.db@;
                    self.db.take_back(p.note);
                    out.push((p.txid, p.note.value()));
                    assert(back.push(p@).drop_last() =~= back);
                    proof {
                        if w.tidy() && all_takable(w, list) {
                            assert forall|k: int| 0 <= k < left@.len() implies self.db@.can_take(
                                (#[trigger] parked_views(left@)[k]).note,
                            ) by {
                                assert(held.can_take(parked_views(left@)[k].note));
                            }
                        }
                    }
                } else {
                    left.push(p);
                    assert(parked_views(left@) =~= parked_views(before).push(p@));
                    proof {
                        if w.tidy() && all_takable(w, list) {
                            assert(w.can_take(list[i as int].note));
                            assert forall|k: int| 0 <= k < left@.len() implies self.db@.can_take(
                                (#[trigger] parked_views(left@)[k]).note,
                            ) by {
                                if k < before.len() {
                                    assert(self.db@.can_take(parked_views(before)[k].note));
                                }
                            }
                        }
                    }
                }
            }
            i = i + 1;
        }
        assert(list.take(i as int) =~= list);
        self.parked = left;
        if out.len() > 0 {
            self.force_checkpoint = true;
        }
        out
    }
}

proof fn lemma_with_note_holds(notes: Seq<OwnedV>, n: OwnedV, p: nat)
    ensures
        held_at(with_note(notes, n), n.position),
        held_at(notes, p) ==> held_at(with_note(notes, n), p),
    decreases notes.len(),
{
    let all = with_note(notes, n);
    if notes.len() == 0 {
        assert(all[0].position == n.position);
    } else {
        let front = notes.drop_last();
        let m = notes.len() - 1;
        if notes.last().position > n.position {
            lemma_with_note_holds(front, n, p);
            let f = with_note(front, n);
            let i = choose|i: int| 0 <= i < f.len() && (#[trigger] f[i]).position == n.position;
            assert(all[i].position == n.position);
            if held_at(notes, p) {
                let j = choose|j: int| 0 <= j < notes.len() && (#[trigger] notes[j]).position == p;
                if j < m {
                    assert(front[j].position == p);
                    let k = choose|k: int| 0 <= k < f.len() && (#[trigger] f[k]).position == p;
                    assert(all[k].position == p);
                } else {
                    assert(all[all.len() - 1].position == p);
                }
            }
        } else {
            if notes.last().position == n.position {
                assert(all[m].position == n.position);
            } else {
                assert(all[m + 1].position == n.position);
            }
            if held_at(notes, p) {
                let j = choose|j: int| 0 <= j < notes.len() && (#[trigger] notes[j]).position == p;
                assert(all[j].position == p);
            }
        }
    }
}

proof fn lemma_with_parked_holds(notes: Seq<OwnedV>, list: Seq<ParkedV>, p: nat)
    ensures
        held_at(notes, p) ==> held_at(with_parked(notes, list), p),
        forall|i: int|
            0 <= i < list.len() ==> held_at(
                with_parked(notes, list),
                (#[trigger] list[i]).note.position,
            ),
    decreases list.len(),
{
    if list.len() > 0 {
        let front = list.drop_last();
        let held = with_parked(notes, front);
        lemma_with_parked_holds(notes, front, p);
        lemma_with_note_holds(held, list.last().note, p);
        assert forall|i: int| 0 <= i < list.len() implies held_at(
            with_parked(notes, list),
            (#[trigger] list[i]).note.position,
        ) by {
            if i < front.len() {
                assert(held_at(held, front[i].note.position));
                lemma_with_note_holds(held, list.last().note, list[i].note.position);
            }
        }
    }
}

proof fn lemma_lost_has(list: Seq<ParkedV>, spent: Set<Seq<u8>>, now: u64, i: int)
    requires
        0 <= i < list.len(),
        fate(list[i], spent, now) is Lost,
    ensures
        lost(list, spent, now).contains(list[i]),
    decreases list.len(),
{
    let all = lost(list, spent, now);
    if i < list.len() - 1 {
        let front = lost(list.drop_last(), spent, now);
        lemma_lost_has(list.drop_last(), spent, now, i);
        let j = choose|j: int| 0 <= j < front.len() && front[j] == list[i];
        assert(all[j] == list[i]);
    } else {
        assert(all.last() == list[i]);
    }
}

/// A payment that never reaches the chain costs nothing: what it would have spent is in the
/// wallet again, and nothing else has left it.
pub proof fn lost_payments_give_their_notes_back(
    notes: Seq<OwnedV>,
    list: Seq<ParkedV>,
    spent: Set<Seq<u8>>,
    now: u64,
    i: int,
    p: nat,
)
    requires
        0 <= i < list.len(),
        fate(list[i], spent, now) is Lost,
    ensures
        held_at(with_parked(notes, lost(list, spent, now)), list[i].note.position),
        held_at(notes, p) ==> held_at(with_parked(notes, lost(list, spent, now)), p),
{
    let back = lost(list, spent, now);
    lemma_lost_has(list, spent, now, i);
    let j = choose|j: int| 0 <= j < back.len() && back[j] == list[i];
    lemma_with_parked_holds(notes, back, p);
    assert(held_at(with_parked(notes, back), back[j].note.position));
}

/// No parked note is lost sight of: behind a pass of a wallet that has caught up each is spent
/// on chain, still waits, or is held again; what is held stays held, and before the wallet has
/// caught up nothing changes.
pub proof fn parked_notes_are_accounted_for(
    before: WalletEntry,
    after: WalletEntry,
    out: Seq<([u8; 32], u64)>,
    i: int,
    p: nat,
)
    requires
        reclaims(before, after, out),
        0 <= i < before.parked@.len(),
    ensures
        !before.caught_up ==> after == before && out.len() == 0,
        before.caught_up ==> {
            let n = before.parked@[i]@;
            ||| before.db@.spent.contains(n.note.nullifier)
            ||| parked_views(after.parked@).contains(n)
            ||| held_at(after.db@.notes, n.note.position)
        },
        held_at(before.db@.notes, p) ==> held_at(after.db@.notes, p),
        after.db@.spent == before.db@.spent,
        after.db@.leaves == before.db@.leaves,
{
    if before.caught_up {
        let list = parked_views(before.parked@);
        let spent = before.db@.spent;
        let now = before.scanned;
        let n = list[i];
        lemma_with_parked_holds(before.db@.notes, lost(list, spent, now), p);
        match fate(n, spent, now) {
            Fate::Lost => {
                lost_payments_give_their_notes_back(before.db@.notes, list, spent, now, i, p);
            },
            Fate::Waiting => {
                lemma_waiting_has(list, spent, now, i);
            },
            Fate::Settled => {},
        }
    }
}

proof fn lemma_waiting_has(list: Seq<ParkedV>, spent: Set<Seq<u8>>, now: u64, i: int)
    requires
        0 <= i < list.len(),
        fate(list[i], spent, now) is Waiting,
    ensures
        waiting(list, spent, now).contains(list[i]),
    decreases list.len(),
{
    let all = waiting(list, spent, now);
    let front = list.drop_last();
    let before = waiting(front, spent, now);
    if i == list.len() - 1 {
        assert(all[all.len() - 1] == list[i]);
    } else {
        assert(front[i] == list[i]);
        lemma_waiting_has(front, spent, now, i);
        let k = choose|k: int| 0 <= k < before.len() && before[k] == list[i];
        assert(all[k] == list[i]);
    }
}

} // verus!
