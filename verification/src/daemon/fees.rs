//! Choosing the notes of a payment.
//!
//! A transaction spends a bounded number of notes and its least fee grows with their number.
//! Notes are taken from the most valuable down; a payment that needs more of them than one
//! transaction can spend is cut into several.

use vstd::prelude::*;

verus! {

/// Most notes that a standard transaction spends.
pub const MAX_SPENDS_PER_TX: usize = 6;

/// What a caller offers who names no fee.
pub const DEFAULT_FEE_SOMPI: u64 = 3_000_000;

/// What the first `n` values add up to.
pub open spec fn sum_of(values: Seq<u64>, n: int) -> nat
    decreases n,
{
    if n <= 0 {
        0
    } else {
        sum_of(values, n - 1) + values[n - 1] as nat
    }
}

/// The fee of a transaction that spends `n` notes: at least what the caller offers, and at
/// least what the node asks for that number.
#[derive(Debug, Clone)]
pub struct FeeSchedule {
    /// What the caller offers.
    pub base: u64,
    /// What the node asks for a transaction of `n + 1` spends, at place `n`; the last entry
    /// holds for any more. With no entries it asks nothing.
    pub least: Vec<u64>,
}

impl FeeSchedule {
    /// What the node asks for `n` spends.
    pub open spec fn asked(&self, n: int) -> u64 {
        if self.least@.len() == 0 {
            0
        } else if n <= 1 {
            self.least@[0]
        } else if n <= self.least@.len() {
            self.least@[n - 1]
        } else {
            self.least@.last()
        }
    }

    /// The fee of `n` spends.
    pub open spec fn fee_of(&self, n: int) -> u64 {
        if self.asked(n) > self.base {
            self.asked(n)
        } else {
            self.base
        }
    }

    /// The fee of a transaction that spends `n` notes.
    pub fn chunk_fee(&self, n: usize) -> (fee: u64)
        ensures
            fee == self.fee_of(n as int),
    {
        let asked: u64 = if self.least.len() == 0 {
            0
        } else if n <= 1 {
            self.least[0]
        } else if n <= self.least.len() {
            self.least[n - 1]
        } else {
            self.least[self.least.len() - 1]
        };
        if asked > self.base {
            asked
        } else {
            self.base
        }
    }
}

/// `n` notes cover the amount and their fee.
pub open spec fn covers(values: Seq<u64>, n: int, amount: nat, fees: FeeSchedule) -> bool {
    sum_of(values, n) >= amount + fees.fee_of(n)
}

/// `n` is how many notes a transaction for the amount takes: the fewest that cover it with
/// their fee, and where none do, as many as it may.
pub open spec fn takes(
    values: Seq<u64>,
    amount: nat,
    fees: FeeSchedule,
    max_per: int,
    n: int,
) -> bool {
    let most = if values.len() < max_per {
        values.len() as int
    } else {
        max_per
    };
    &&& 0 <= n <= most
    &&& forall|k: int| 0 < k < n ==> !#[trigger] covers(values, k, amount, fees)
    &&& n == most || (n > 0 && covers(values, n, amount, fees))
    &&& most > 0 ==> n > 0
}

proof fn lemma_sum_bound(values: Seq<u64>, n: int)
    requires
        0 <= n <= values.len(),
    ensures
        sum_of(values, n) <= n * 0xffff_ffff_ffff_ffff,
    decreases n,
{
    if n > 0 {
        lemma_sum_bound(values, n - 1);
        assert(n * 0xffff_ffff_ffff_ffff == (n - 1) * 0xffff_ffff_ffff_ffff + 0xffff_ffff_ffff_ffff)
            by (nonlinear_arith);
    }
}

/// How many notes a transaction for the amount takes, and what they are worth together.
pub fn take_notes(values: &[u64], amount: u64, fees: &FeeSchedule, max_per: usize) -> (r: (
    usize,
    u128,
))
    ensures
        takes(values@, amount as nat, *fees, max_per as int, r.0 as int),
        r.1 == sum_of(values@, r.0 as int),
{
    let most: usize = if values.len() < max_per {
        values.len()
    } else {
        max_per
    };
    let mut n: usize = 0;
    let mut sum: u128 = 0;
    while n < most
        invariant
            0 <= n <= most,
            most <= values@.len(),
            most == (if values@.len() < max_per {
                values@.len()
            } else {
                max_per as nat
            }),
            sum == sum_of(values@, n as int),
            forall|k: int| 0 < k <= n ==> !#[trigger] covers(values@, k, amount as nat, *fees),
        decreases most - n,
    {
        proof {
            lemma_sum_bound(values@, n as int);
            crate::state::lemma_count_bound(n, 0xffff_ffff_ffff_ffff);
        }
        sum = sum + values[n] as u128;
        n = n + 1;
        if sum >= amount as u128 + fees.chunk_fee(n) as u128 {
            assert(covers(values@, n as int, amount as nat, *fees));
            return (n, sum);
        }
    }
    (n, sum)
}

/// One transaction of a payment: how many notes it spends, what it pays and its fee.
#[derive(Debug, Clone, Copy, PartialEq, Eq)]
pub struct Chunk {
    pub notes: usize,
    pub pay: u64,
    pub fee: u64,
}

/// Chunk `c` is the next transaction for what is owed: it takes the notes that a transaction
/// for it takes, and pays what is owed, or all that they hold but the fee.
pub open spec fn next_chunk(
    values: Seq<u64>,
    owed: nat,
    fees: FeeSchedule,
    max_per: int,
    c: Chunk,
) -> bool {
    let sum = sum_of(values, c.notes as int);
    &&& takes(values, owed, fees, max_per, c.notes as int)
    &&& c.notes > 0
    &&& c.fee == fees.fee_of(c.notes as int)
    &&& sum > c.fee
    &&& c.pay == (if owed <= sum - c.fee {
        owed as int
    } else {
        sum - c.fee
    })
}

/// The chunks pay the amount off, each from the notes behind those of the one before.
pub open spec fn pays_off(
    values: Seq<u64>,
    owed: nat,
    fees: FeeSchedule,
    max_per: int,
    chunks: Seq<Chunk>,
) -> bool
    decreases chunks.len(),
{
    if owed == 0 {
        chunks.len() == 0
    } else {
        &&& chunks.len() > 0
        &&& next_chunk(values, owed, fees, max_per, chunks[0])
        &&& chunks[0].notes <= values.len()
        &&& pays_off(
            values.skip(chunks[0].notes as int),
            (owed - chunks[0].pay) as nat,
            fees,
            max_per,
            chunks.skip(1),
        )
    }
}

/// The notes run out before the amount is paid off: at some point those that the next
/// transaction takes hold no more than its fee.
pub open spec fn runs_out(values: Seq<u64>, owed: nat, fees: FeeSchedule, max_per: int) -> bool
    decreases values.len(),
{
    owed > 0 && exists|n: int| #[trigger]
        takes(values, owed, fees, max_per, n) && 0 <= n <= values.len() && {
            let sum = sum_of(values, n);
            let fee = fees.fee_of(n);
            if n == 0 || sum <= fee {
                true
            } else if owed <= sum - fee {
                false
            } else {
                runs_out(values.skip(n), (owed - (sum - fee)) as nat, fees, max_per)
            }
        }
}

proof fn lemma_takes_unique(
    values: Seq<u64>,
    amount: nat,
    fees: FeeSchedule,
    max_per: int,
    a: int,
    b: int,
)
    requires
        takes(values, amount, fees, max_per, a),
        takes(values, amount, fees, max_per, b),
    ensures
        a == b,
{
    if a < b {
        if a > 0 {
            assert(!covers(values, a, amount, fees));
        }
    } else if b < a {
        if b > 0 {
            assert(!covers(values, b, amount, fees));
        }
    }
}

/// Plans the transactions of a payment over notes from the most valuable down. `None` where
/// the notes run out before the amount is paid.
pub fn plan_chunks(values: &[u64], amount: u64, fees: &FeeSchedule, max_per: usize) -> (r: Option<
    Vec<Chunk>,
>)
    ensures
        match r {
            Some(plan) => pays_off(values@, amount as nat, *fees, max_per as int, plan@),
            None => runs_out(values@, amount as nat, *fees, max_per as int),
        },
    decreases values@.len(),
{
    if amount == 0 {
        return Some(Vec::new());
    }
    let (n, sum) = take_notes(values, amount, fees, max_per);
    let fee: u64 = fees.chunk_fee(n);
    if n == 0 || sum <= fee as u128 {
        assert(takes(values@, amount as nat, *fees, max_per as int, n as int));
        return None;
    }
    let room: u128 = sum - fee as u128;
    let pay: u64 = if amount as u128 <= room {
        amount
    } else {
        room as u64
    };
    let rest: &[u64] = vstd::slice::slice_subrange(values, n, values.len());
    assert(rest@ =~= values@.skip(n as int));
    let first: Chunk = Chunk { notes: n, pay, fee };
    match plan_chunks(rest, amount - pay, fees, max_per) {
        None => {
            assert(takes(values@, amount as nat, *fees, max_per as int, n as int));
            None
        },
        Some(tail) => {
            let mut plan: Vec<Chunk> = Vec::new();
            plan.push(first);
            let mut i: usize = 0;
            while i < tail.len()
                invariant
                    0 <= i <= tail@.len(),
                    plan@ == seq![first] + tail@.take(i as int),
                decreases tail@.len() - i,
            {
                plan.push(tail[i]);
                assert(plan@ =~= seq![first] + tail@.take(i + 1));
                i = i + 1;
            }
            proof {
                assert(tail@.take(i as int) =~= tail@);
                assert(plan@.skip(1) =~= tail@);
            }
            Some(plan)
        },
    }
}

/// What the chunks pay together.
pub open spec fn paid_in(chunks: Seq<Chunk>) -> nat
    decreases chunks.len(),
{
    if chunks.len() == 0 {
        0
    } else {
        chunks[0].pay as nat + paid_in(chunks.skip(1))
    }
}

/// How many notes the chunks spend together.
pub open spec fn notes_in(chunks: Seq<Chunk>) -> nat
    decreases chunks.len(),
{
    if chunks.len() == 0 {
        0
    } else {
        chunks[0].notes as nat + notes_in(chunks.skip(1))
    }
}

/// A plan pays exactly the amount, from notes that there are, and no transaction spends more
/// of them than it may.
pub proof fn plans_pay_the_amount(
    values: Seq<u64>,
    owed: nat,
    fees: FeeSchedule,
    max_per: int,
    chunks: Seq<Chunk>,
)
    requires
        pays_off(values, owed, fees, max_per, chunks),
    ensures
        paid_in(chunks) == owed,
        notes_in(chunks) <= values.len(),
        forall|i: int| 0 <= i < chunks.len() ==> 0 < (#[trigger] chunks[i]).notes <= max_per,
    decreases chunks.len(),
{
    if owed > 0 {
        let c = chunks[0];
        plans_pay_the_amount(
            values.skip(c.notes as int),
            (owed - c.pay) as nat,
            fees,
            max_per,
            chunks.skip(1),
        );
        assert forall|i: int| 0 <= i < chunks.len() implies 0 < (#[trigger] chunks[i]).notes
            <= max_per by {
            if i > 0 {
                assert(chunks.skip(1)[i - 1] == chunks[i]);
            }
        }
    }
}

/// Where there is a plan the notes do not run out, so a payment that is refused could not
/// have been planned.
pub proof fn planned_payments_do_not_run_out(
    values: Seq<u64>,
    owed: nat,
    fees: FeeSchedule,
    max_per: int,
    chunks: Seq<Chunk>,
)
    requires
        pays_off(values, owed, fees, max_per, chunks),
    ensures
        !runs_out(values, owed, fees, max_per),
    decreases chunks.len(),
{
    if owed > 0 {
        let c = chunks[0];
        planned_payments_do_not_run_out(
            values.skip(c.notes as int),
            (owed - c.pay) as nat,
            fees,
            max_per,
            chunks.skip(1),
        );
        assert forall|n: int| #[trigger] takes(values, owed, fees, max_per, n) implies n
            == c.notes by {
            lemma_takes_unique(values, owed, fees, max_per, n, c.notes as int);
        }
    }
}

} // verus!
