//! A payment in several transactions, one by one: what each one carries, what becomes of it,
//! and what the wallet remembers of it.

use crate::daemon::fees::{paid_in, Chunk};
use crate::daemon::spend::{carried_out, PlannedTx};
use crate::text::{decimal_text, push_decimal};
use crate::wallet::plan::no_memo;
use crate::walletdb::{elsewhere, held_at, OwnedV, WalletDb, WalletV};
use vstd::prelude::*;
use vstd::string::*;

verus! {

/// What has come of a payment so far.
pub struct SendState {
    /// How many transactions there are.
    pub total: usize,
    /// The ids of those that the node accepted, in order.
    pub txids: Vec<String>,
    /// What they pay together.
    pub sent: u64,
    /// What they cost together.
    pub fees: u64,
}

impl SendState {
    /// The ids of the accepted transactions.
    pub open spec fn ids(&self) -> Seq<Seq<char>> {
        Seq::new(self.txids@.len(), |i: int| self.txids@[i]@)
    }

    /// Nothing has been submitted yet.
    pub fn new(total: usize) -> (s: Self)
        ensures
            s.total == total,
            s.ids() == Seq::<Seq<char>>::empty(),
            s.txids@.len() == 0,
            s.sent == 0,
            s.fees == 0,
    {
        let s: SendState = SendState { total, txids: Vec::new(), sent: 0, fees: 0 };
        assert(s.ids() =~= Seq::<Seq<char>>::empty());
        s
    }
}

/// The memo that a transaction of a payment carries: the payment's on the first, and none on
/// the others.
pub open spec fn memo_at(memo: Seq<u8>, index: int) -> Seq<u8> {
    if index == 0 {
        memo
    } else {
        no_memo()
    }
}

/// The memo of the transaction at this place of a payment.
pub fn chunk_memo(memo: &[u8; 512], index: usize) -> (m: [u8; 512])
    ensures
        m@ == memo_at(memo@, index as int),
{
    if index == 0 {
        *memo
    } else {
        let m: [u8; 512] = [0; 512];
        assert(m@ =~= no_memo());
        m
    }
}

/// What to do once the node has answered.
pub enum SubmitStep {
    /// The transaction is on its way: mark the notes at these positions as spent.
    Mark(Vec<u64>),
    /// The node took none of the payment.
    Rejected,
    /// The node took so many of the transactions, and then no more.
    Partial { accepted: usize, total: usize },
}

/// What the node's answer to one transaction comes to: an accepted one counts, and the notes
/// that it spends are to be marked; a refused one changes nothing and ends the payment.
pub fn settle_submission(s: &mut SendState, tx: &PlannedTx, accepted: Option<&str>) -> (next:
    SubmitStep)
    requires
        old(s).sent + tx.pay <= u64::MAX,
        old(s).fees + tx.fee <= u64::MAX,
    ensures
        match accepted {
            Some(id) => {
                &&& final(s).ids() == old(s).ids().push(id@)
                &&& final(s).sent == old(s).sent + tx.pay
                &&& final(s).fees == old(s).fees + tx.fee
                &&& final(s).total == old(s).total
                &&& next matches SubmitStep::Mark(positions) && positions@ == tx.positions@
            },
            None => {
                &&& *final(s) == *old(s)
                &&& if old(s).txids@.len() == 0 {
                    next is Rejected
                } else {
                    next matches SubmitStep::Partial { accepted: n, total } && n
                        == old(s).txids@.len() && total == old(s).total
                }
            },
        },
{
    match accepted {
        Some(id) => {
            let ghost before = s.ids();
            s.txids.push(String::from_str(id));
            s.sent = s.sent + tx.pay;
            s.fees = s.fees + tx.fee;
            assert(s.ids() =~= before.push(id@));
            let mut positions: Vec<u64> = Vec::new();
            positions.extend_from_slice(tx.positions.as_slice());
            assert(positions@ =~= tx.positions@);
            SubmitStep::Mark(positions)
        },
        None => if s.txids.len() == 0 {
            SubmitStep::Rejected
        } else {
            SubmitStep::Partial { accepted: s.txids.len(), total: s.total }
        },
    }
}

impl SubmitStep {
    /// The text of [`message`](Self::message).
    pub open spec fn text(self, error: Seq<char>) -> Seq<char> {
        match self {
            SubmitStep::Mark(_) => Seq::empty(),
            SubmitStep::Rejected => "node rejected the payment: "@ + error,
            SubmitStep::Partial { accepted, total } => "payment partially sent: "@ + decimal_text(
                accepted as nat,
            ) + "/"@ + decimal_text(total as nat) + " txs accepted, then the node rejected: "@
                + error,
        }
    }

    /// What the user is told where the node refused, with what the node said.
    pub fn message(&self, error: &str) -> (s: String)
        ensures
            s@ == self.text(error@),
    {
        match self {
            SubmitStep::Mark(_) => {
                let s: String = String::new();
                assert(s@ =~= Seq::<char>::empty());
                s
            },
            SubmitStep::Rejected => {
                let mut s: String = String::from_str("node rejected the payment: ");
                s.append(error);
                s
            },
            SubmitStep::Partial { accepted, total } => {
                let mut s: String = String::from_str("payment partially sent: ");
                push_decimal(&mut s, *accepted as u128);
                s.append("/");
                push_decimal(&mut s, *total as u128);
                s.append(" txs accepted, then the node rejected: ");
                s.append(error);
                s
            },
        }
    }
}

/// The notes that are at none of the first `k` positions.
pub open spec fn away_from(notes: Seq<OwnedV>, positions: Seq<u64>, k: int) -> Seq<OwnedV>
    decreases k,
{
    if k <= 0 {
        notes
    } else {
        elsewhere(away_from(notes, positions, k - 1), positions[k - 1] as nat)
    }
}

/// Marks the notes at these positions as spent, so that no later payment selects them before
/// the chain shows that they are.
pub fn mark_all_spent(db: &mut WalletDb, positions: &[u64])
    requires
        old(db).wf(),
    ensures
        final(db).wf(),
        final(db)@ == (WalletV {
            notes: away_from(old(db)@.notes, positions@, positions@.len() as int),
            ..old(db)@
        }),
        old(db)@.tidy() ==> final(db)@.tidy(),
{
    let mut i: usize = 0;
    while i < positions.len()
        invariant
            0 <= i <= positions@.len(),
            db.wf(),
            db@ == (WalletV {
                notes: away_from(old(db)@.notes, positions@, i as int),
                ..old(db)@
            }),
            old(db)@.tidy() ==> db@.tidy(),
        decreases positions@.len() - i,
    {
        db.mark_spent(positions[i]);
        i = i + 1;
    }
}

proof fn lemma_elsewhere_holds(notes: Seq<OwnedV>, position: nat, p: nat)
    ensures
        held_at(elsewhere(notes, position), p) <==> held_at(notes, p) && p != position,
    decreases notes.len(),
{
    let all = elsewhere(notes, position);
    if notes.len() > 0 {
        let front = notes.drop_last();
        let n = notes.last();
        lemma_elsewhere_holds(front, position, p);
        if held_at(all, p) {
            let i = choose|i: int| 0 <= i < all.len() && (#[trigger] all[i]).position == p;
            if i < elsewhere(front, position).len() {
                assert(elsewhere(front, position)[i].position == p);
                let j = choose|j: int| 0 <= j < front.len() && (#[trigger] front[j]).position == p;
                assert(notes[j].position == p);
            } else {
                assert(notes[notes.len() - 1].position == p);
            }
        }
        if held_at(notes, p) && p != position {
            let j = choose|j: int| 0 <= j < notes.len() && (#[trigger] notes[j]).position == p;
            if j < front.len() {
                assert(front[j].position == p);
                let e = elsewhere(front, position);
                let i = choose|i: int| 0 <= i < e.len() && (#[trigger] e[i]).position == p;
                assert(all[i].position == p);
            } else {
                assert(all[all.len() - 1].position == p);
            }
        }
    }
}

/// Once marked, a note is gone from the wallet, and every other stays.
pub proof fn marked_notes_are_gone(notes: Seq<OwnedV>, positions: Seq<u64>, k: int, p: nat)
    requires
        0 <= k <= positions.len(),
    ensures
        held_at(away_from(notes, positions, k), p) <==> held_at(notes, p) && !(exists|i: int|
            0 <= i < k && #[trigger] positions[i] == p),
    decreases k,
{
    if k > 0 {
        marked_notes_are_gone(notes, positions, k - 1, p);
        lemma_elsewhere_holds(
            away_from(notes, positions, k - 1),
            positions[k - 1] as nat,
            p,
        );
    }
}

/// What the transactions pay, in all.
pub open spec fn paid_by(txs: Seq<PlannedTx>) -> nat
    decreases txs.len(),
{
    if txs.len() == 0 {
        0
    } else {
        txs[0].pay as nat + paid_by(txs.skip(1))
    }
}

/// A payment whose transactions are all accepted has sent what its plan pays.
pub proof fn accepted_plans_are_paid(
    txs: Seq<PlannedTx>,
    chunks: Seq<Chunk>,
    notes: Seq<OwnedV>,
    w: WalletV,
    leaves: nat,
)
    requires
        carried_out(txs, chunks, notes, w, leaves),
    ensures
        paid_by(txs) == paid_in(chunks),
    decreases chunks.len(),
{
    if chunks.len() > 0 {
        accepted_plans_are_paid(
            txs.skip(1),
            chunks.skip(1),
            notes.skip(chunks[0].notes as int),
            w,
            leaves,
        );
    }
}

} // verus!
