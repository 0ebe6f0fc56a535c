//! The turnstile supply invariant.
//!
//! In an all-shielded chain there is no transparent ledger to cross-check, so the
//! supply invariant is the safety mechanism against inflation: the value in the
//! shielded pool equals the coinbase value issued minus the fees paid, and is never
//! negative. Beside the public ledger, each bundle's binding signature pins the
//! bundle's public value balance to its value commitments; [`reconcile`] shows the
//! homomorphism that it rests on.

use crate::bytes::{le_value, lemma_le_value_of_bytes, pow256, same};
use crate::field::{canonical_scalar, scalar_modulus};
use crate::sums::total;
use crate::value::{
    lemma_scalar_sum_canonical, point_sum, scalar_sum, value_commit, ValueCommitTrapdoor,
    ValueCommitment,
};
use vstd::prelude::*;

verus! {

/// Why the turnstile invariant was violated.
#[derive(Debug, Clone, Copy, PartialEq, Eq)]
pub enum TurnstileViolation {
    /// Cumulative fees exceeded cumulative coinbase: the pool would hold negative value.
    PoolUnderflow { coinbase: u128, fees: u128 },
    /// An accumulation overflowed.
    Overflow,
    /// A sum of value commitments did not open to the claimed net value.
    CommitmentMismatch,
}

/// The public supply ledger: value minted into the shielded pool and fees removed from
/// it.
#[derive(Debug, Clone, Copy, PartialEq, Eq)]
pub struct SupplyLedger {
    cumulative_coinbase: u128,
    cumulative_fees: u128,
}

/// What a [`SupplyLedger`] records.
pub struct LedgerV {
    pub coinbase: nat,
    pub fees: nat,
}

impl LedgerV {
    /// The value of the shielded pool; negative in an invalid state.
    pub open spec fn pool(self) -> int {
        self.coinbase - self.fees
    }
}

impl View for SupplyLedger {
    type V = LedgerV;

    closed spec fn view(&self) -> LedgerV {
        LedgerV { coinbase: self.cumulative_coinbase as nat, fees: self.cumulative_fees as nat }
    }
}

impl Default for SupplyLedger {
    fn default() -> (l: Self)
        ensures
            l@ == (LedgerV { coinbase: 0, fees: 0 }),
    {
        SupplyLedger { cumulative_coinbase: 0, cumulative_fees: 0 }
    }
}

impl SupplyLedger {
    /// A fresh ledger: nothing minted, nothing spent.
    pub fn new() -> (l: Self)
        ensures
            l@ == (LedgerV { coinbase: 0, fees: 0 }),
    {
        SupplyLedger { cumulative_coinbase: 0, cumulative_fees: 0 }
    }

    /// A ledger with these cumulative totals.
    pub fn from_totals(cumulative_coinbase: u128, cumulative_fees: u128) -> (l: Self)
        ensures
            l@ == (LedgerV { coinbase: cumulative_coinbase as nat, fees: cumulative_fees as nat }),
    {
        SupplyLedger { cumulative_coinbase, cumulative_fees }
    }

    /// Mints a coinbase subsidy into the pool.
    pub fn mint_coinbase(&mut self, subsidy: u64) -> (r: Result<(), TurnstileViolation>)
        ensures
            old(self)@.coinbase + subsidy <= u128::MAX ==> r == Ok::<(), TurnstileViolation>(())
                && final(self)@ == (LedgerV {
                coinbase: old(self)@.coinbase + subsidy as nat,
                fees: old(self)@.fees,
            }),
            old(self)@.coinbase + subsidy > u128::MAX ==> r == Err::<(), _>(
                TurnstileViolation::Overflow,
            ) && *final(self) == *old(self),
    {
        match self.cumulative_coinbase.checked_add(subsidy as u128) {
            Some(total) => {
                self.cumulative_coinbase = total;
                Ok(())
            },
            None => Err(TurnstileViolation::Overflow),
        }
    }

    /// Removes fees from the pool.
    pub fn collect_fees(&mut self, fee: u64) -> (r: Result<(), TurnstileViolation>)
        ensures
            old(self)@.fees + fee <= u128::MAX ==> r == Ok::<(), TurnstileViolation>(()) && final(self)@ == (LedgerV {
                coinbase: old(self)@.coinbase,
                fees: old(self)@.fees + fee as nat,
            }),
            old(self)@.fees + fee > u128::MAX ==> r == Err::<(), _>(TurnstileViolation::Overflow)
                && *final(self) == *old(self),
    {
        match self.cumulative_fees.checked_add(fee as u128) {
            Some(total) => {
                self.cumulative_fees = total;
                Ok(())
            },
            None => Err(TurnstileViolation::Overflow),
        }
    }

    /// Total subsidy ever minted into the pool.
    pub fn cumulative_coinbase(&self) -> (n: u128)
        ensures
            n == self@.coinbase,
    {
        self.cumulative_coinbase
    }

    /// Total fees ever removed from the pool.
    pub fn cumulative_fees(&self) -> (n: u128)
        ensures
            n == self@.fees,
    {
        self.cumulative_fees
    }

    /// The current value of the shielded pool.
    pub fn pool_value(&self) -> (r: Result<u128, TurnstileViolation>)
        ensures
            self@.pool() >= 0 ==> r == Ok::<u128, TurnstileViolation>(self@.pool() as u128),
            self@.pool() < 0 ==> r == Err::<u128, _>(
                TurnstileViolation::PoolUnderflow {
                    coinbase: self@.coinbase as u128,
                    fees: self@.fees as u128,
                },
            ),
    {
        if self.cumulative_coinbase >= self.cumulative_fees {
            Ok(self.cumulative_coinbase - self.cumulative_fees)
        } else {
            Err(
                TurnstileViolation::PoolUnderflow {
                    coinbase: self.cumulative_coinbase,
                    fees: self.cumulative_fees,
                },
            )
        }
    }

    /// The consensus check: the pool must not be negative.
    pub fn check(&self) -> (r: Result<(), TurnstileViolation>)
        ensures
            self@.pool() >= 0 ==> r == Ok::<(), TurnstileViolation>(()),
            self@.pool() < 0 ==> r == Err::<(), _>(
                TurnstileViolation::PoolUnderflow {
                    coinbase: self@.coinbase as u128,
                    fees: self@.fees as u128,
                },
            ),
    {
        match self.pool_value() {
            Ok(_) => Ok(()),
            Err(e) => Err(e),
        }
    }
}

/// The encoding of the zero scalar.
pub open spec fn zero_scalar() -> Seq<u8> {
    Seq::new(32, |i: int| 0u8)
}

proof fn lemma_zeros_denote_zero(s: Seq<u8>)
    requires
        forall|i: int| 0 <= i < s.len() ==> s[i] == 0,
    ensures
        le_value(s) == 0,
    decreases s.len(),
{
    if s.len() > 0 {
        lemma_zeros_denote_zero(s.skip(1));
    }
}

/// The zero scalar denotes zero.
pub proof fn lemma_zero_scalar()
    ensures
        canonical_scalar(zero_scalar()),
        le_value(zero_scalar()) == 0,
{
    lemma_zeros_denote_zero(zero_scalar());
}

/// The zero (no-blinding) value-commitment trapdoor.
pub fn zero_trapdoor() -> (t: ValueCommitTrapdoor)
    ensures
        t@ == zero_scalar(),
{
    let zero: [u8; 32] = [0u8; 32];
    proof {
        lemma_zeros_denote_zero(zero@);
        assert(zero@ =~= zero_scalar());
    }
    ValueCommitTrapdoor::from_bytes(zero).unwrap()
}

/// A signed value as a difference of two unsigned ones, one of which is zero.
fn value_sum(v: i64) -> (r: (u64, u64))
    ensures
        r.0 - r.1 == v,
        r.0 == 0 || r.1 == 0,
{
    if v >= 0 {
        (v as u64, 0)
    } else {
        (0, (-(v as i128)) as u64)
    }
}

/// Pedersen commitment to a signed value under a trapdoor.
pub fn commit(value: i64, rcv: ValueCommitTrapdoor) -> (c: ValueCommitment)
    ensures
        c@ == value_commit(value as int, rcv@),
{
    let (plus, minus): (u64, u64) = value_sum(value);
    ValueCommitment::derive(plus, minus, &rcv)
}

/// Running homomorphic sum of net value commitments.
#[derive(Clone, Debug)]
pub struct ValueCommitmentAccumulator {
    sum: ValueCommitment,
}

impl View for ValueCommitmentAccumulator {
    type V = Seq<u8>;

    closed spec fn view(&self) -> Seq<u8> {
        self.sum@
    }
}

impl Default for ValueCommitmentAccumulator {
    fn default() -> (a: Self)
        ensures
            a@ == value_commit(0, zero_scalar()),
    {
        ValueCommitmentAccumulator::new()
    }
}

impl ValueCommitmentAccumulator {
    /// An empty accumulator: the commitment to zero with no blinding.
    pub fn new() -> (a: Self)
        ensures
            a@ == value_commit(0, zero_scalar()),
    {
        ValueCommitmentAccumulator { sum: commit(0, zero_trapdoor()) }
    }

    /// Adds one action's net value commitment: values and blinding factors add up.
    pub fn add(&mut self, cv: &ValueCommitment)
        ensures
            final(self)@ == point_sum(old(self)@, cv@),
            forall|v: int, x: Seq<u8>, w: int, y: Seq<u8>|
                canonical_scalar(x) && canonical_scalar(y) && old(self)@ == #[trigger] value_commit(
                    v,
                    x,
                ) && cv@ == #[trigger] value_commit(w, y) ==> final(self)@ == value_commit(
                    v + w,
                    scalar_sum(x, y),
                ),
    {
        self.sum = self.sum.add(cv);
    }

    /// The accumulated sum.
    pub fn total(&self) -> (t: &ValueCommitment)
        ensures
            t@ == self@,
    {
        &self.sum
    }
}

/// Checks that a sum of net value commitments opens to `-pool_value` under a known
/// aggregate trapdoor.
pub fn reconcile(
    sum_cv: &ValueCommitment,
    pool_value: i64,
    aggregate_trapdoor: ValueCommitTrapdoor,
) -> (r: Result<(), TurnstileViolation>)
    requires
        pool_value != i64::MIN,
    ensures
        r == if sum_cv@ == value_commit(-pool_value, aggregate_trapdoor@) {
            Ok::<(), TurnstileViolation>(())
        } else {
            Err(TurnstileViolation::CommitmentMismatch)
        },
{
    let expected: ValueCommitment = commit(-pool_value, aggregate_trapdoor);
    if same(&sum_cv.to_bytes(), &expected.to_bytes()) {
        Ok(())
    } else {
        Err(TurnstileViolation::CommitmentMismatch)
    }
}

/// Value and blinding factor that a list of openings sums up to.
pub open spec fn opening_sum(openings: Seq<(int, Seq<u8>)>) -> (int, Seq<u8>)
    decreases openings.len(),
{
    if openings.len() == 0 {
        (0, zero_scalar())
    } else {
        let front = opening_sum(openings.drop_last());
        (front.0 + openings.last().0, scalar_sum(front.1, openings.last().1))
    }
}

/// The values of openings add up as numbers: two lists to what each of them adds up to.
pub proof fn openings_add_up(a: Seq<(int, Seq<u8>)>, b: Seq<(int, Seq<u8>)>)
    ensures
        opening_sum(a + b).0 == opening_sum(a).0 + opening_sum(b).0,
        a.len() == 1 ==> opening_sum(a).0 == a[0].0,
    decreases b.len(),
{
    if a.len() == 1 {
        assert(a.drop_last() =~= Seq::<(int, Seq<u8>)>::empty());
        assert(opening_sum(a.drop_last()) == (0int, zero_scalar()));
    }
    if b.len() == 0 {
        assert(a + b =~= a);
    } else {
        openings_add_up(a, b.drop_last());
        assert((a + b).drop_last() =~= a + b.drop_last());
    }
}

/// The blinding factor of a sum of openings is the sum of the blinding factors, modulo the
/// scalar field's modulus.
pub proof fn blinding_factors_add_up(openings: Seq<(int, Seq<u8>)>)
    ensures
        canonical_scalar(opening_sum(openings).1),
        le_value(opening_sum(openings).1) == total(
            Seq::new(openings.len(), |i: int| le_value(openings[i].1)),
        ) % scalar_modulus(),
    decreases openings.len(),
{
    let values = Seq::new(openings.len(), |i: int| le_value(openings[i].1));
    let m = scalar_modulus() as int;
    lemma_zero_scalar();
    if openings.len() == 0 {
        assert(0int % m == 0) by (nonlinear_arith)
            requires
                m > 0,
        ;
    } else {
        let front = openings.drop_last();
        let front_values = Seq::new(front.len(), |i: int| le_value(front[i].1));
        let x = le_value(opening_sum(front).1) as int;
        let y = le_value(openings.last().1) as int;
        let t = total(front_values) as int;
        blinding_factors_add_up(front);
        assert(values.drop_last() =~= front_values);
        lemma_scalar_sum_canonical(opening_sum(front).1, openings.last().1);
        assert(m <= pow256(32)) by {
            reveal_with_fuel(pow256, 33);
        }
        assert(0 <= (x + y) % m < m) by (nonlinear_arith)
            requires
                m > 0,
        ;
        lemma_le_value_of_bytes(((x + y) % m) as nat, 32);
        assert((t % m + y) % m == (t + y) % m) by {
            vstd::arithmetic::div_mod::lemma_add_mod_noop(t, y, m);
            vstd::arithmetic::div_mod::lemma_add_mod_noop(t % m, y, m);
            vstd::arithmetic::div_mod::lemma_mod_twice(t, m);
        }
    }
}

/// Adds up the commitments to a list of values: the total commits to the sum of the
/// values under the sum of the blinding factors.
pub fn accumulate(values: &[i64], trapdoors: &[ValueCommitTrapdoor]) -> (acc: ValueCommitmentAccumulator)
    requires
        values@.len() == trapdoors@.len(),
    ensures
        ({
            let total = opening_sum(
                Seq::new(values@.len(), |i: int| (values@[i] as int, trapdoors@[i]@)),
            );
            acc@ == value_commit(total.0, total.1)
        }),
{
    let ghost all = Seq::new(values@.len(), |i: int| (values@[i] as int, trapdoors@[i]@));
    let mut acc: ValueCommitmentAccumulator = ValueCommitmentAccumulator::new();
    let mut i: usize = 0;
    proof {
        assert(all.take(0) =~= Seq::<(int, Seq<u8>)>::empty());
        lemma_zeros_denote_zero(zero_scalar());
    }
    while i < values.len()
        invariant
            0 <= i <= values@.len(),
            values@.len() == trapdoors@.len(),
            all == Seq::new(values@.len(), |i: int| (values@[i] as int, trapdoors@[i]@)),
            acc@ == value_commit(opening_sum(all.take(i as int)).0, opening_sum(all.take(i as int)).1),
            canonical_scalar(opening_sum(all.take(i as int)).1),
        decreases values@.len() - i,
    {
        let rcv: ValueCommitTrapdoor = trapdoors[i];
        let _bytes: [u8; 32] = rcv.to_bytes();
        let cv: ValueCommitment = commit(values[i], rcv);
        acc.add(&cv);
        proof {
            assert(all.take(i + 1).drop_last() =~= all.take(i as int));
            lemma_scalar_sum_canonical(opening_sum(all.take(i as int)).1, trapdoors@[i as int]@);
        }
        i = i + 1;
    }
    assert(all.take(i as int) =~= all);
    acc
}

/// The pool holds what was minted and not paid out in fees: nothing at first, one unit more
/// for each that is minted, and one less for each that is paid.
pub proof fn pools_hold_what_was_minted(l: LedgerV, minted: nat, paid: nat)
    ensures
        (LedgerV { coinbase: 0, fees: 0 }).pool() == 0,
        (LedgerV { coinbase: l.coinbase + minted, fees: l.fees + paid }).pool() == l.pool() + minted
            - paid,
{
}

} // verus!
