//! Keeping spend witnesses warm, so that a payment finds its paths instead of rebuilding
//! them.

use crate::daemon::status::EAGER_WARM_MAX_NOTES;
use crate::daemon::sync::{matured, WalletEntry};
use crate::walletdb::{owned_views, OwnedNote};
use vstd::prelude::*;

verus! {

/// How many witnesses a wallet of many notes keeps.
pub const SPENDABLE_WITNESS_BUDGET: u64 = 12;

/// What one step of warming may cost, in leaves times witnesses.
pub const COLD_WARM_BUDGET: u64 = 32768;

/// Most leaves of one step of warming.
pub const COLD_WARM_STEP: u64 = 16384;

/// Most leaves of one step of a warm wallet.
pub const WITNESS_ADVANCE_CAP: u64 = 4000;

/// Fewest leaves of a step.
pub const WITNESS_MIN_STEP: u64 = 32;

/// Longest climb that a wallet of many notes makes when it spends.
pub const SPEND_CLIMB_INLINE_MAX: u64 = 512;

/// How many witnesses a wallet keeps: all, where it has few notes.
pub open spec fn budget_of(notes: nat) -> nat {
    if notes > EAGER_WARM_MAX_NOTES {
        SPENDABLE_WITNESS_BUDGET as nat
    } else if notes == 0 {
        1
    } else {
        notes
    }
}

/// How many witnesses a wallet keeps.
pub fn witness_budget(notes: usize) -> (n: u64)
    ensures
        n == budget_of(notes as nat),
        0 < n <= EAGER_WARM_MAX_NOTES,
{
    let notes: u64 = if notes as u128 > EAGER_WARM_MAX_NOTES as u128 {
        return SPENDABLE_WITNESS_BUDGET;
    } else {
        notes as u64
    };
    if notes == 0 {
        1
    } else {
        notes
    }
}

/// How many leaves one step climbs: as many as the budget allows, within bounds.
pub open spec fn step_of(budget: u64, most: u64) -> u64 {
    let fair = COLD_WARM_BUDGET / budget;
    if fair < WITNESS_MIN_STEP {
        WITNESS_MIN_STEP
    } else if fair > most {
        most
    } else {
        fair
    }
}

/// How many leaves one step climbs, so that a step costs a wallet of many notes no more than
/// one of few.
pub fn witness_step(budget: u64, most: u64) -> (n: u64)
    requires
        budget > 0,
        WITNESS_MIN_STEP <= most,
    ensures
        n == step_of(budget, most),
        WITNESS_MIN_STEP <= n <= most,
{
    let fair: u64 = COLD_WARM_BUDGET / budget;
    if fair < WITNESS_MIN_STEP {
        WITNESS_MIN_STEP
    } else if fair > most {
        most
    } else {
        fair
    }
}

/// The wallet climbs to the anchor before it spends: one of few notes always does, one of
/// many only a short way, since the notes that it selects can have their paths rebuilt.
pub open spec fn climbs(e: WalletEntry) -> bool {
    match matured(e.ring@, e.sink_blue) {
        Some(leaves) => e.db@.notes.len() <= EAGER_WARM_MAX_NOTES || leaves
            <= e.db@.upto + SPEND_CLIMB_INLINE_MAX,
        None => false,
    }
}

impl WalletEntry {
    /// Brings the witnesses to the anchor before a spend, where that is cheap.
    pub fn advance_spend_witnesses_bounded(&mut self)
        requires
            old(self).db.wf(),
        ensures
            final(self).db.wf(),
            old(self).db@.tidy() ==> final(self).db@.tidy(),
            *final(self) == (WalletEntry { db: final(self).db, ..*old(self) }),
            !climbs(*old(self)) ==> final(self).db == old(self).db,
            climbs(*old(self)) ==> final(self).db@ == old(self).db@.advanced(
                matured(old(self).ring@, old(self).sink_blue)->Some_0 as nat,
                u64::MAX as nat,
            ),
    {
        let leaves: u64 = match self.matured_leaves() {
            Some(leaves) => leaves,
            None => {
                return;
            },
        };
        let notes: &[OwnedNote] = self.db.notes();
        let count: usize = notes.len();
        assert(owned_views(notes@).len() == count);
        let upto: u64 = self.db.witnessed_upto();
        let near: bool = leaves <= upto || leaves - upto <= SPEND_CLIMB_INLINE_MAX;
        if count as u128 <= EAGER_WARM_MAX_NOTES as u128 || near {
            self.db.advance_witnesses(leaves);
        }
    }
}

/// Most leaves of one step, cold or warm.
pub open spec fn longest_step(cold: bool) -> u64 {
    if cold {
        COLD_WARM_STEP
    } else {
        WITNESS_ADVANCE_CAP
    }
}

/// How far one step of a wallet of so many notes goes.
pub open spec fn stride(notes: nat, cold: bool) -> u64 {
    step_of(budget_of(notes) as u64, longest_step(cold))
}

/// A step is taken: there is an anchor to climb to, and the wallet is warm or being warmed.
pub open spec fn steps(e: WalletEntry, cold: bool) -> bool {
    matured(e.ring@, e.sink_blue) is Some && (cold || e.witnesses_warm)
}

impl WalletEntry {
    /// One step of the live witnesses towards the newest anchor. A cold step, which warms a
    /// wallet up, makes it warm once nothing is left to climb, and a checkpoint due; a warm
    /// wallet that is left behind by its step is cold again, and a wallet that waits to be
    /// warmed takes no other step. Returns whether more is left.
    pub fn warm_step(&mut self, cold: bool) -> (more: bool)
        requires
            old(self).db.wf(),
        ensures
            final(self).db.wf(),
            old(self).db@.tidy() ==> final(self).db@.tidy(),
            *final(self) == (WalletEntry {
                db: final(self).db,
                witnesses_warm: final(self).witnesses_warm,
                force_checkpoint: final(self).force_checkpoint,
                ..*old(self)
            }),
            !steps(*old(self), cold) ==> !more && *final(self) == *old(self),
            steps(*old(self), cold) ==> {
                let w = old(self).db@;
                let target = matured(old(self).ring@, old(self).sink_blue)->Some_0 as nat;
                let cap = stride(w.notes.len(), cold) as nat;
                &&& final(self).db@ == w.advanced(target, cap)
                &&& more == (w.reach(target, cap) < w.available(target) && w.behind_from()
                    < w.available(target))
                &&& final(self).witnesses_warm == (if cold {
                    old(self).witnesses_warm || !more
                } else {
                    !more
                })
                &&& final(self).force_checkpoint == (old(self).force_checkpoint || (cold && !more))
            },
    {
        let target: u64 = match self.matured_leaves() {
            Some(leaves) => leaves,
            None => {
                return false;
            },
        };
        if !cold && !self.witnesses_warm {
            return false;
        }
        let longest: u64 = if cold {
            COLD_WARM_STEP
        } else {
            WITNESS_ADVANCE_CAP
        };
        let budget: u64 = witness_budget(self.db.notes().len());
        let cap: u64 = witness_step(budget, longest);
        let more: bool = self.db.advance_witnesses_capped(target, cap);
        if cold {
            if !more {
                self.witnesses_warm = true;
                self.force_checkpoint = true;
            }
        } else {
            self.witnesses_warm = !more;
        }
        more
    }
}

} // verus!
