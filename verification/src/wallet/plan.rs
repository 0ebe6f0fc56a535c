//! What a payment plan is, and what it means that a bundle carries one out.
//!
//! A bundle is built from spends and outputs, but shows neither: each action joins a spend
//! with an output, padding fills the rest, and the order is random. A bundle carries a plan
//! out where every planned spend reveals its nullifier in an action of its own, and every
//! planned output is created, and readable by whom it pays, in an action of its own.

use crate::bundle::{ActionV, BundleV};
use crate::keys::{address_of_fvk, ivk_of_fvk, owned_address, viewing_key};
use crate::note::{note_valid, NoteV};
use crate::verify::{action_fault, bundle_verdict, sighash_of};
use crate::wallet::scan::{
    decrypt_action, decrypt_output, recover_action, recovered, scanned, trimmed_memo, ReceivedV,
};
use crate::witness::{path_root, PathV};
use vstd::prelude::*;

verus! {

/// A note to spend, with the key that sees it and its path in the tree.
pub struct SpendV {
    pub fvk: Seq<u8>,
    pub note: NoteV,
    pub path: PathV,
}

impl SpendV {
    /// The anchor that the note's path leads to.
    pub open spec fn root(self) -> Seq<u8> {
        path_root(self.path.position, self.path.path, self.note.commitment())
    }

    /// The spend can stand in a bundle at this anchor: the key owns the note, and the note
    /// is in the tree there. A note of no value need not be in it.
    pub open spec fn fits(self, anchor: Seq<u8>) -> bool {
        owned_address(self.fvk, self.note.recipient) && (self.note.value == 0 || self.root()
            == anchor)
    }
}

/// A note to create. Where there is a sender, the details are encrypted to that full
/// viewing key's external outgoing key too.
pub struct OutputV {
    pub sender: Option<Seq<u8>>,
    pub recipient: Seq<u8>,
    pub value: u64,
    pub memo: Seq<u8>,
}

/// A memo that says nothing.
pub open spec fn no_memo() -> Seq<u8> {
    Seq::new(512, |i: int| 0u8)
}

/// What a bundle is to do.
pub struct PlanV {
    pub anchor: Seq<u8>,
    pub spends: Seq<SpendV>,
    pub outputs: Seq<OutputV>,
}

/// The values of the spends together.
pub open spec fn spent_total(spends: Seq<SpendV>) -> nat
    decreases spends.len(),
{
    if spends.len() == 0 {
        0
    } else {
        spent_total(spends.drop_last()) + spends.last().note.value as nat
    }
}

/// The values of the outputs together.
pub open spec fn paid_total(outputs: Seq<OutputV>) -> nat
    decreases outputs.len(),
{
    if outputs.len() == 0 {
        0
    } else {
        paid_total(outputs.drop_last()) + outputs.last().value as nat
    }
}

impl PlanV {
    /// What leaves the shielded pool: all that is spent and not paid out.
    pub open spec fn balance(self) -> int {
        spent_total(self.spends) - paid_total(self.outputs)
    }

    /// The balance can be written down.
    pub open spec fn representable(self) -> bool {
        i64::MIN <= self.balance() <= i64::MAX
    }

    /// Every spend can stand at the plan's anchor.
    pub open spec fn spendable(self) -> bool {
        forall|k: int| 0 <= k < self.spends.len() ==> (#[trigger] self.spends[k]).fits(self.anchor)
    }

    /// Every spend is of a note at the spender's own default address, and in the tree at the
    /// plan's anchor.
    pub open spec fn own_spends(self) -> bool {
        forall|k: int|
            0 <= k < self.spends.len() ==> {
                let s = #[trigger] self.spends[k];
                s.note.recipient == address_of_fvk(s.fvk) && s.root() == self.anchor
            }
    }

    /// One action for each spend and for each output, and never fewer than two.
    pub open spec fn action_count(self) -> nat {
        let most = if self.spends.len() < self.outputs.len() {
            self.outputs.len()
        } else {
            self.spends.len()
        };
        if most == 0 {
            0
        } else if most < 2 {
            2
        } else {
            most
        }
    }
}

/// The positions are different ones among the first `n`.
pub open spec fn distinct_below(at: Seq<int>, n: nat) -> bool {
    &&& at.no_duplicates()
    &&& forall|k: int| 0 <= k < at.len() ==> 0 <= #[trigger] at[k] < n
}

/// The action reveals the nullifier of the spent note.
pub open spec fn reveals(a: ActionV, s: SpendV) -> bool {
    a.nullifier == s.note.nullifier(s.fvk)
}

/// The note that the action creates for the output, from its random seed.
pub open spec fn created(a: ActionV, o: OutputV, rseed: Seq<u8>) -> NoteV {
    NoteV { recipient: o.recipient, value: o.value, rho: a.nullifier, rseed }
}

/// The action creates the output's note from this random seed, and the holder of the
/// address that it pays reads the note and the memo. So does the sender, where there is one.
pub open spec fn delivers(a: ActionV, o: OutputV, rseed: Seq<u8>) -> bool {
    let note = created(a, o, rseed);
    &&& note_valid(note)
    &&& note.commitment() == a.cmx
    &&& forall|fvk: Seq<u8>|
        viewing_key(fvk) && #[trigger] address_of_fvk(fvk) == o.recipient ==> decrypt_output(
            ivk_of_fvk(fvk),
            a.nullifier,
            a.cmx,
            a.ephemeral_key,
            a.enc_ciphertext,
        ) == Some((note, o.memo))
    &&& o.sender matches Some(fvk) ==> recover_action(fvk, a) == Some((note, o.memo))
}

/// The spends stand at these positions.
pub open spec fn spends_at(actions: Seq<ActionV>, spends: Seq<SpendV>, at: Seq<int>) -> bool {
    &&& at.len() == spends.len()
    &&& distinct_below(at, actions.len())
    &&& forall|k: int| 0 <= k < at.len() ==> reveals(actions[#[trigger] at[k]], spends[k])
}

/// The outputs stand at these positions, created from these random seeds.
pub open spec fn outputs_at(
    actions: Seq<ActionV>,
    outputs: Seq<OutputV>,
    at: Seq<int>,
    rseeds: Seq<Seq<u8>>,
) -> bool {
    &&& at.len() == outputs.len()
    &&& rseeds.len() == outputs.len()
    &&& distinct_below(at, actions.len())
    &&& forall|k: int|
        0 <= k < at.len() ==> delivers(actions[#[trigger] at[k]], outputs[k], rseeds[k])
}

/// The actions carry the plan out.
pub open spec fn carries(actions: Seq<ActionV>, plan: PlanV) -> bool {
    &&& actions.len() == plan.action_count()
    &&& forall|i: int| 0 <= i < actions.len() ==> action_fault(#[trigger] actions[i]) is None
    &&& exists|at: Seq<int>| spends_at(actions, plan.spends, at)
    &&& exists|at: Seq<int>, rseeds: Seq<Seq<u8>>| outputs_at(actions, plan.outputs, at, rseeds)
}

/// The bundle carries the plan out in the open: its actions, its balance and its anchor
/// are the plan's, and both flags are set.
pub open spec fn bundle_carries(b: BundleV, plan: PlanV) -> bool {
    &&& carries(b.actions, plan)
    &&& b.flags == 3
    &&& b.value_balance == plan.balance()
    &&& b.anchor == plan.anchor
}

/// The bundle carries the plan out, and verifies in its context.
pub open spec fn built(b: BundleV, plan: PlanV, context: Seq<u8>) -> bool {
    &&& bundle_carries(b, plan)
    &&& bundle_verdict(b, sighash_of(b, context)) == Ok::<(), crate::verify::FaultV>(())
}

proof fn lemma_decrypted_is_scanned(ivk: Seq<u8>, actions: Seq<ActionV>, i: int)
    requires
        0 <= i < actions.len(),
        decrypt_action(ivk, actions[i]) is Some,
        action_fault(actions[i]) is None,
    ensures
        scanned(ivk, actions).contains(
            ReceivedV {
                action_index: i,
                note: decrypt_action(ivk, actions[i])->Some_0.0,
                memo: trimmed_memo(decrypt_action(ivk, actions[i])->Some_0.1),
            },
        ),
    decreases actions.len(),
{
    let front = scanned(ivk, actions.drop_last());
    let all = scanned(ivk, actions);
    let want = ReceivedV {
        action_index: i,
        note: decrypt_action(ivk, actions[i])->Some_0.0,
        memo: trimmed_memo(decrypt_action(ivk, actions[i])->Some_0.1),
    };
    if i < actions.len() - 1 {
        lemma_decrypted_is_scanned(ivk, actions.drop_last(), i);
        let j = choose|j: int| 0 <= j < front.len() && front[j] == want;
        assert(all[j] == want);
    } else {
        assert(all.last() == want);
    }
}

/// The received note is the output, with its value and memo.
pub open spec fn receives(r: ReceivedV, o: OutputV) -> bool {
    &&& r.note.recipient == o.recipient
    &&& r.note.value == o.value
    &&& r.memo == trimmed_memo(o.memo)
}

/// What is sent arrives: whoever holds the viewing key of an address that a bundle pays finds
/// the note, its value and its memo by scanning the bundle.
pub proof fn what_is_sent_arrives(b: BundleV, plan: PlanV, fvk: Seq<u8>, k: int)
    requires
        bundle_carries(b, plan),
        viewing_key(fvk),
        0 <= k < plan.outputs.len(),
        plan.outputs[k].recipient == address_of_fvk(fvk),
    ensures
        exists|j: int|
            0 <= j < scanned(ivk_of_fvk(fvk), b.actions).len() && receives(
                #[trigger] scanned(ivk_of_fvk(fvk), b.actions)[j],
                plan.outputs[k],
            ),
{
    let (at, rseeds) = choose|at: Seq<int>, rseeds: Seq<Seq<u8>>|
        outputs_at(b.actions, plan.outputs, at, rseeds);
    let o = plan.outputs[k];
    let i = at[k];
    let a = b.actions[i];
    let note = created(a, o, rseeds[k]);
    assert(delivers(b.actions[at[k]], plan.outputs[k], rseeds[k]));
    assert(address_of_fvk(fvk) == o.recipient);
    assert(decrypt_action(ivk_of_fvk(fvk), a) == Some((note, o.memo)));
    assert(action_fault(b.actions[i]) is None);
    lemma_decrypted_is_scanned(ivk_of_fvk(fvk), b.actions, i);
    let want = ReceivedV { action_index: i, note, memo: trimmed_memo(o.memo) };
    let all = scanned(ivk_of_fvk(fvk), b.actions);
    let j = choose|j: int| 0 <= j < all.len() && all[j] == want;
    assert(receives(all[j], o));
}

/// What is spent is revealed: every note that a bundle spends has its nullifier among those
/// that the bundle reveals, so that no chain accepts a second spend of it.
pub proof fn what_is_spent_is_revealed(b: BundleV, plan: PlanV, k: int)
    requires
        bundle_carries(b, plan),
        0 <= k < plan.spends.len(),
    ensures
        b.nullifiers().contains(plan.spends[k].note.nullifier(plan.spends[k].fvk)),
{
    let at = choose|at: Seq<int>| spends_at(b.actions, plan.spends, at);
    assert(reveals(b.actions[at[k]], plan.spends[k]));
    assert(b.nullifiers()[at[k]] == plan.spends[k].note.nullifier(plan.spends[k].fvk));
}

proof fn lemma_recovered_is_read(fvk: Seq<u8>, actions: Seq<ActionV>, i: int)
    requires
        0 <= i < actions.len(),
        recover_action(fvk, actions[i]) is Some,
        action_fault(actions[i]) is None,
    ensures
        recovered(fvk, actions).contains(
            ReceivedV {
                action_index: i,
                note: recover_action(fvk, actions[i])->Some_0.0,
                memo: trimmed_memo(recover_action(fvk, actions[i])->Some_0.1),
            },
        ),
    decreases actions.len(),
{
    let front = recovered(fvk, actions.drop_last());
    let all = recovered(fvk, actions);
    let want = ReceivedV {
        action_index: i,
        note: recover_action(fvk, actions[i])->Some_0.0,
        memo: trimmed_memo(recover_action(fvk, actions[i])->Some_0.1),
    };
    if i < actions.len() - 1 {
        lemma_recovered_is_read(fvk, actions.drop_last(), i);
        let j = choose|j: int| 0 <= j < front.len() && front[j] == want;
        assert(all[j] == want);
    } else {
        assert(all.last() == want);
    }
}

/// A recoverable payment can be read back: whoever holds the viewing key that an output names
/// as its sender finds whom the output paid, its value and its memo.
pub proof fn senders_read_their_payments_back(b: BundleV, plan: PlanV, fvk: Seq<u8>, k: int)
    requires
        bundle_carries(b, plan),
        0 <= k < plan.outputs.len(),
        plan.outputs[k].sender == Some(fvk),
    ensures
        exists|j: int|
            0 <= j < recovered(fvk, b.actions).len() && receives(
                #[trigger] recovered(fvk, b.actions)[j],
                plan.outputs[k],
            ),
{
    let (at, rseeds) = choose|at: Seq<int>, rseeds: Seq<Seq<u8>>|
        outputs_at(b.actions, plan.outputs, at, rseeds);
    let o = plan.outputs[k];
    let i = at[k];
    let a = b.actions[i];
    let note = created(a, o, rseeds[k]);
    assert(delivers(b.actions[at[k]], plan.outputs[k], rseeds[k]));
    assert(recover_action(fvk, a) == Some((note, o.memo)));
    assert(action_fault(b.actions[i]) is None);
    lemma_recovered_is_read(fvk, b.actions, i);
    let want = ReceivedV { action_index: i, note, memo: trimmed_memo(o.memo) };
    let all = recovered(fvk, b.actions);
    let j = choose|j: int| 0 <= j < all.len() && all[j] == want;
    assert(receives(all[j], o));
}

} // verus!
