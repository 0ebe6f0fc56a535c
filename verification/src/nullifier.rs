//! The nullifier set and first-in-accepted-order conflict resolution.
//!
//! A nullifier is the unique tag revealed when a shielded note is spent. The set of
//! all nullifiers ever spent only grows, and a repeat is a double-spend. While
//! transactions are walked in accepted order, the first one to reveal a nullifier
//! wins and any later one that reuses it is dropped, so every node that walks the
//! same order accepts the same set.

use crate::bytes::{copy32, lemma_views32_push, views32};
use crate::field::Nullifier;
use crate::order::{
    ascending, lemma_ascending_distinct, lemma_less_asymmetric, lemma_less_transitive, lex_less,
    place, Place,
};
use vstd::prelude::*;

verus! {

/// A nullifier in its 32-byte encoding, the key for set membership.
pub type NullifierBytes = [u8; 32];

/// The byte key of a nullifier.
pub fn key(nf: &Nullifier) -> (k: NullifierBytes)
    ensures
        k@ == nf@,
{
    nf.to_bytes()
}

/// Read access to an append-only set of spent nullifiers.
pub trait NullifierSet {
    /// The nullifiers in the set.
    spec fn spent(&self) -> Set<Seq<u8>>;

    /// Whether this nullifier has already been spent.
    fn contains(&self, nf: &NullifierBytes) -> (r: bool)
        ensures
            r == self.spent().contains(nf@),
    ;
}

/// An in-memory nullifier set: an ascending list.
#[derive(Debug)]
pub struct MemNullifierSet {
    items: Vec<NullifierBytes>,
}

impl View for MemNullifierSet {
    type V = Set<Seq<u8>>;

    closed spec fn view(&self) -> Set<Seq<u8>> {
        views32(self.items@).to_set()
    }
}

impl NullifierSet for MemNullifierSet {
    closed spec fn spent(&self) -> Set<Seq<u8>> {
        self@
    }

    fn contains(&self, nf: &NullifierBytes) -> (r: bool) {
        proof {
            use_type_invariant(self);
        }
        let (found, _at): (bool, usize) = self.find(nf);
        found
    }
}

impl Clone for MemNullifierSet {
    fn clone(&self) -> (s: Self)
        ensures
            s@ == self@,
    {
        proof {
            use_type_invariant(self);
        }
        MemNullifierSet { items: copy32(self.items.as_slice()) }
    }
}

impl Default for MemNullifierSet {
    fn default() -> (s: Self)
        ensures
            s@ == Set::<Seq<u8>>::empty(),
    {
        MemNullifierSet::new()
    }
}

impl MemNullifierSet {
    #[verifier::type_invariant]
    spec fn inv(&self) -> bool {
        ascending(views32(self.items@))
    }

    /// What the set holds, as its trait tells it.
    pub broadcast proof fn lemma_spent(&self)
        ensures
            #[trigger] self.spent() == self@,
    {
    }

    /// The members in ascending order.
    pub closed spec fn sorted(&self) -> Seq<Seq<u8>> {
        views32(self.items@)
    }

    /// A fresh, empty set.
    pub fn new() -> (s: Self)
        ensures
            s@ == Set::<Seq<u8>>::empty(),
    {
        let s: MemNullifierSet = MemNullifierSet { items: Vec::new() };
        assert(s@ =~= Set::<Seq<u8>>::empty());
        s
    }

    /// Where `nf` stands in the list, or where it would.
    fn find(&self, nf: &NullifierBytes) -> (r: (bool, usize))
        ensures
            r.1 <= self.items@.len(),
            r.0 == self@.contains(nf@),
            r.0 ==> r.1 < self.items@.len() && self.items@[r.1 as int]@ == nf@,
            !r.0 ==> forall|j: int| 0 <= j < r.1 ==> lex_less(#[trigger] views32(self.items@)[j], nf@),
            !r.0 ==> forall|j: int|
                r.1 <= j < self.items@.len() ==> lex_less(nf@, #[trigger] views32(self.items@)[j]),
    {
        proof {
            use_type_invariant(self);
        }
        let ghost s = views32(self.items@);
        let mut lo: usize = 0;
        let mut hi: usize = self.items.len();
        while lo < hi
            invariant
                0 <= lo <= hi <= self.items@.len(),
                s == views32(self.items@),
                ascending(s),
                forall|j: int| 0 <= j < lo ==> lex_less(#[trigger] s[j], nf@),
                forall|j: int| hi <= j < s.len() ==> lex_less(nf@, #[trigger] s[j]),
            decreases hi - lo,
        {
            let mid: usize = lo + (hi - lo) / 2;
            let item: NullifierBytes = self.items[mid];
            assert(s[mid as int] == item@);
            match place(&item, nf) {
                Place::Before => {
                    proof {
                        assert forall|j: int| 0 <= j < mid + 1 implies lex_less(#[trigger] s[j], nf@) by {
                            if j < mid {
                                lemma_less_transitive(s[j], s[mid as int], nf@);
                            }
                        }
                    }
                    lo = mid + 1;
                },
                Place::Same => {
                    assert(s.to_set().contains(s[mid as int]));
                    return (true, mid);
                },
                Place::After => {
                    proof {
                        assert forall|j: int| mid <= j < s.len() implies lex_less(nf@, #[trigger] s[j]) by {
                            if j > mid {
                                lemma_less_transitive(nf@, s[mid as int], s[j]);
                            }
                        }
                    }
                    hi = mid;
                },
            }
        }
        proof {
            if s.contains(nf@) {
                let j = choose|j: int| 0 <= j < s.len() && s[j] == nf@;
                if j < lo {
                    lemma_less_asymmetric(s[j], nf@);
                } else {
                    lemma_less_asymmetric(nf@, s[j]);
                }
            }
        }
        (false, lo)
    }

    /// Inserts a nullifier. Returns whether it is new to the set.
    pub fn insert(&mut self, nf: NullifierBytes) -> (fresh: bool)
        ensures
            fresh == !old(self)@.contains(nf@),
            final(self)@ == old(self)@.insert(nf@),
    {
        proof {
            use_type_invariant(&*self);
        }
        let ghost before = views32(self.items@);
        let (found, at): (bool, usize) = self.find(&nf);
        if found {
            assert(self@.insert(nf@) =~= self@);
            return false;
        }
        let mut items: Vec<NullifierBytes> = Vec::new();
        let ghost olds = self.items@;
        std::mem::swap(&mut items, &mut self.items);
        items.insert(at, nf);
        proof {
            let after = views32(items@);
            assert(after =~= before.insert(at as int, nf@));
            assert(ascending(after)) by {
                assert forall|i: int, j: int| 0 <= i < j < after.len() implies lex_less(
                    #[trigger] after[i],
                    #[trigger] after[j],
                ) by {
                    if i < at && j < at {
                        assert(after[i] == before[i] && after[j] == before[j]);
                    } else if i < at && j > at {
                        assert(after[i] == before[i] && after[j] == before[j - 1]);
                    } else if i > at {
                        assert(after[i] == before[i - 1] && after[j] == before[j - 1]);
                    } else if i == at {
                        assert(after[j] == before[j - 1]);
                    } else {
                        assert(after[i] == before[i]);
                    }
                }
            }
            assert(after.to_set() =~= before.to_set().insert(nf@)) by {
                assert forall|x: Seq<u8>| after.to_set().contains(x) == before.to_set().insert(nf@).contains(x) by {
                    if after.contains(x) {
                        let i = choose|i: int| 0 <= i < after.len() && after[i] == x;
                        if i < at {
                            assert(before[i] == x);
                        } else if i > at {
                            assert(before[i - 1] == x);
                        }
                    }
                    if before.contains(x) {
                        let i = choose|i: int| 0 <= i < before.len() && before[i] == x;
                        if i < at {
                            assert(after[i] == x);
                        } else {
                            assert(after[i + 1] == x);
                        }
                    }
                    if x == nf@ {
                        assert(after[at as int] == x);
                    }
                }
            }
        }
        self.items = items;
        true
    }

    /// Inserts all nullifiers of a list.
    pub fn extend(&mut self, nfs: &[NullifierBytes])
        ensures
            final(self)@ == old(self)@.union(views32(nfs@).to_set()),
    {
        let mut i: usize = 0;
        let ghost all = views32(nfs@);
        assert(self@.union(all.take(0).to_set()) =~= self@);
        while i < nfs.len()
            invariant
                0 <= i <= nfs@.len(),
                all == views32(nfs@),
                self@ == old(self)@.union(all.take(i as int).to_set()),
            decreases nfs@.len() - i,
        {
            self.insert(nfs[i]);
            proof {
                let x = nfs@[i as int]@;
                assert(all.take(i + 1) =~= all.take(i as int).push(x));
                crate::nullifier::lemma_push_to_set(all.take(i as int), x);
                assert(self@ =~= old(self)@.union(all.take(i + 1).to_set()));
            }
            i = i + 1;
        }
        assert(all.take(i as int) =~= all);
    }

    /// Number of spent nullifiers.
    pub fn len(&self) -> (n: usize)
        ensures
            n == self@.len(),
            self@.finite(),
    {
        proof {
            use_type_invariant(self);
            lemma_ascending_distinct(views32(self.items@));
            views32(self.items@).unique_seq_to_set();
        }
        self.items.len()
    }

    /// Whether the set is empty.
    pub fn is_empty(&self) -> (r: bool)
        ensures
            r == (self@ == Set::<Seq<u8>>::empty()),
    {
        proof {
            let s = views32(self.items@);
            if s.len() > 0 {
                assert(s.to_set().contains(s[0]));
            } else {
                assert(s.to_set() =~= Set::<Seq<u8>>::empty());
            }
        }
        self.items.len() == 0
    }

    /// The members in ascending order.
    pub fn items(&self) -> (out: &Vec<NullifierBytes>)
        ensures
            views32(out@) == self.sorted(),
            ascending(self.sorted()),
            self.sorted().to_set() == self@,
    {
        proof {
            use_type_invariant(self);
        }
        &self.items
    }
}

pub proof fn lemma_push_to_set(s: Seq<Seq<u8>>, x: Seq<u8>)
    ensures
        s.push(x).to_set() == s.to_set().insert(x),
{
    assert forall|y: Seq<u8>| s.push(x).to_set().contains(y) == s.to_set().insert(x).contains(y) by {
        if s.push(x).contains(y) {
            let i = choose|i: int| 0 <= i < s.push(x).len() && s.push(x)[i] == y;
            if i < s.len() {
                assert(s[i] == y);
            }
        }
        if s.contains(y) {
            let i = choose|i: int| 0 <= i < s.len() && s[i] == y;
            assert(s.push(x)[i] == y);
        }
        assert(s.push(x)[s.len() as int] == x);
    }
    assert(s.push(x).to_set() =~= s.to_set().insert(x));
}

/// Why a transaction was rejected during nullifier conflict resolution.
#[derive(Debug, Clone, Copy, PartialEq, Eq)]
pub enum NullifierConflict {
    /// The nullifier is already in the finalized set, or was accepted by an earlier
    /// transaction of the batch.
    AlreadySpent(NullifierBytes),
    /// The nullifier appears more than once within the transaction.
    DuplicateWithinTx(NullifierBytes),
}

/// The nullifier at `i` repeats an earlier one of the same transaction.
pub open spec fn repeats(nfs: Seq<Seq<u8>>, i: int) -> bool {
    nfs.take(i).contains(nfs[i])
}

/// The nullifier at `i` may not be spent.
pub open spec fn conflict_at(spent: Set<Seq<u8>>, nfs: Seq<Seq<u8>>, i: int) -> bool {
    repeats(nfs, i) || spent.contains(nfs[i])
}

/// The transaction that spends `nfs` is free of conflicts.
pub open spec fn acceptable(spent: Set<Seq<u8>>, nfs: Seq<Seq<u8>>) -> bool {
    forall|i: int| 0 <= i < nfs.len() ==> !#[trigger] conflict_at(spent, nfs, i)
}

/// `i` is the first position at which the transaction has a conflict.
pub open spec fn first_conflict(spent: Set<Seq<u8>>, nfs: Seq<Seq<u8>>, i: int) -> bool {
    &&& 0 <= i < nfs.len()
    &&& conflict_at(spent, nfs, i)
    &&& forall|j: int| 0 <= j < i ==> !#[trigger] conflict_at(spent, nfs, j)
}

/// The outcome `r` of trying to spend `nfs` where `spent` is spent: success where
/// there is no conflict, and else the first conflict, by its kind.
pub open spec fn resolution(
    spent: Set<Seq<u8>>,
    nfs: Seq<Seq<u8>>,
    r: Result<(), NullifierConflict>,
) -> bool {
    match r {
        Ok(()) => acceptable(spent, nfs),
        Err(NullifierConflict::DuplicateWithinTx(nf)) => exists|i: int|
            first_conflict(spent, nfs, i) && repeats(nfs, i) && nfs[i] == nf@,
        Err(NullifierConflict::AlreadySpent(nf)) => exists|i: int|
            first_conflict(spent, nfs, i) && !repeats(nfs, i) && nfs[i] == nf@,
    }
}

/// Resolves nullifier conflicts while transactions are processed in accepted order.
pub struct NullifierConflictResolver<'a, S: NullifierSet> {
    finalized: &'a S,
    seen: MemNullifierSet,
    accepted: Vec<NullifierBytes>,
}

impl<'a, S: NullifierSet> NullifierConflictResolver<'a, S> {
    /// The finalized nullifiers that resolution started from.
    pub closed spec fn base(&self) -> Set<Seq<u8>> {
        self.finalized.spent()
    }

    /// The nullifiers accepted so far, in acceptance order.
    pub closed spec fn taken(&self) -> Seq<Seq<u8>> {
        views32(self.accepted@)
    }

    /// Everything that counts as spent by now.
    pub open spec fn spent(&self) -> Set<Seq<u8>> {
        self.base().union(self.taken().to_set())
    }

    /// The accepted nullifiers are pairwise distinct and were not spent before.
    pub closed spec fn wf(&self) -> bool {
        &&& self.seen@ == self.taken().to_set()
        &&& self.taken().no_duplicates()
        &&& self.base().disjoint(self.taken().to_set())
    }

    /// What [`wf`](Self::wf) says of the accepted nullifiers.
    pub proof fn lemma_wf(&self)
        requires
            self.wf(),
        ensures
            self.taken().no_duplicates(),
            self.base().disjoint(self.taken().to_set()),
    {
    }

    /// Begins resolution against the given finalized set.
    pub fn new(finalized: &'a S) -> (r: Self)
        ensures
            r.wf(),
            r.base() == finalized.spent(),
            r.taken() == Seq::<Seq<u8>>::empty(),
            r.spent() == finalized.spent(),
    {
        let r: NullifierConflictResolver<'a, S> = NullifierConflictResolver {
            finalized,
            seen: MemNullifierSet::new(),
            accepted: Vec::new(),
        };
        proof {
            assert(r.taken() =~= Seq::<Seq<u8>>::empty());
            assert(r.taken().to_set() =~= Set::<Seq<u8>>::empty());
            assert(r.spent() =~= finalized.spent());
        }
        r
    }

    /// Whether `nf` would conflict if a transaction tried to spend it now.
    pub fn conflicts(&self, nf: &NullifierBytes) -> (r: bool)
        requires
            self.wf(),
        ensures
            r == self.spent().contains(nf@),
    {
        broadcast use MemNullifierSet::lemma_spent;
        self.finalized.contains(nf) || self.seen.contains(nf)
    }

    /// Tries to accept a transaction given its nullifiers: all of them are recorded as
    /// spent, or, where any of them conflicts, none.
    pub fn try_accept(&mut self, tx_nullifiers: &[NullifierBytes]) -> (r: Result<
        (),
        NullifierConflict,
    >)
        requires
            old(self).wf(),
        ensures
            final(self).wf(),
            final(self).base() == old(self).base(),
            resolution(old(self).spent(), views32(tx_nullifiers@), r),
            r is Ok ==> final(self).taken() == old(self).taken() + views32(tx_nullifiers@),
            r is Err ==> final(self).taken() == old(self).taken(),
    {
        let ghost nfs = views32(tx_nullifiers@);
        let ghost spent = self.spent();
        let mut within: MemNullifierSet = MemNullifierSet::new();
        let mut i: usize = 0;
        assert(nfs.take(0).to_set() =~= Set::<Seq<u8>>::empty());
        while i < tx_nullifiers.len()
            invariant
                0 <= i <= tx_nullifiers@.len(),
                nfs == views32(tx_nullifiers@),
                spent == self.spent(),
                self.wf(),
                *self == *old(self),
                within@ == nfs.take(i as int).to_set(),
                forall|j: int| 0 <= j < i ==> !#[trigger] conflict_at(spent, nfs, j),
            decreases tx_nullifiers@.len() - i,
        {
            let nf: NullifierBytes = tx_nullifiers[i];
            assert(nfs[i as int] == nf@);
            if !within.insert(nf) {
                assert(repeats(nfs, i as int));
                assert(first_conflict(spent, nfs, i as int));
                return Err(NullifierConflict::DuplicateWithinTx(nf));
            }
            if self.conflicts(&nf) {
                assert(!repeats(nfs, i as int));
                assert(first_conflict(spent, nfs, i as int));
                return Err(NullifierConflict::AlreadySpent(nf));
            }
            proof {
                assert(nfs.take(i + 1) =~= nfs.take(i as int).push(nf@));
                lemma_push_to_set(nfs.take(i as int), nf@);
            }
            i = i + 1;
        }
        let mut k: usize = 0;
        assert(self.taken() + nfs.take(0) =~= self.taken());
        while k < tx_nullifiers.len()
            invariant
                0 <= k <= tx_nullifiers@.len(),
                nfs == views32(tx_nullifiers@),
                spent == old(self).spent(),
                acceptable(spent, nfs),
                self.wf(),
                self.base() == old(self).base(),
                self.taken() == old(self).taken() + nfs.take(k as int),
            decreases tx_nullifiers@.len() - k,
        {
            let nf: NullifierBytes = tx_nullifiers[k];
            let ghost taken = self.taken();
            proof {
                assert(nfs[k as int] == nf@);
                assert(!conflict_at(spent, nfs, k as int));
                assert(!taken.contains(nf@)) by {
                    if taken.contains(nf@) {
                        let j = choose|j: int| 0 <= j < taken.len() && taken[j] == nf@;
                        let n = old(self).taken().len();
                        if j < n {
                            assert(old(self).taken()[j] == nf@);
                            assert(spent.contains(nf@));
                        } else {
                            assert(nfs.take(k as int)[j - n] == nf@);
                        }
                    }
                }
                assert(!self.base().contains(nf@));
            }
            self.seen.insert(nf);
            self.accepted.push(nf);
            proof {
                lemma_views32_push(old(self).accepted@, nf);
                assert(self.taken() =~= taken.push(nf@));
                lemma_push_to_set(taken, nf@);
                assert(nfs.take(k + 1) =~= nfs.take(k as int).push(nf@));
                assert(self.taken() =~= old(self).taken() + nfs.take(k + 1));
            }
            k = k + 1;
        }
        assert(nfs.take(k as int) =~= nfs);
        Ok(())
    }

    /// [`try_accept`](Self::try_accept) for decoded nullifiers.
    pub fn try_accept_nullifiers(&mut self, tx_nullifiers: &[Nullifier]) -> (r: Result<
        (),
        NullifierConflict,
    >)
        requires
            old(self).wf(),
        ensures
            final(self).wf(),
            final(self).base() == old(self).base(),
            resolution(old(self).spent(), nullifier_views(tx_nullifiers@), r),
            r is Ok ==> final(self).taken() == old(self).taken() + nullifier_views(tx_nullifiers@),
            r is Err ==> final(self).taken() == old(self).taken(),
    {
        let mut keys: Vec<NullifierBytes> = Vec::new();
        let mut i: usize = 0;
        while i < tx_nullifiers.len()
            invariant
                0 <= i <= tx_nullifiers@.len(),
                keys@.len() == i,
                forall|j: int| 0 <= j < i ==> (#[trigger] keys@[j])@ == tx_nullifiers@[j]@,
            decreases tx_nullifiers@.len() - i,
        {
            keys.push(key(&tx_nullifiers[i]));
            i = i + 1;
        }
        assert(views32(keys@) =~= nullifier_views(tx_nullifiers@));
        self.try_accept(keys.as_slice())
    }

    /// The nullifiers accepted so far, in acceptance order.
    pub fn accepted(&self) -> (out: &[NullifierBytes])
        ensures
            views32(out@) == self.taken(),
    {
        self.accepted.as_slice()
    }

    /// Consumes the resolver, yielding the accepted nullifiers in acceptance order.
    pub fn into_accepted(self) -> (out: Vec<NullifierBytes>)
        ensures
            views32(out@) == self.taken(),
    {
        self.accepted
    }
}

/// The encodings of a list of nullifiers.
pub open spec fn nullifier_views(nfs: Seq<Nullifier>) -> Seq<Seq<u8>> {
    Seq::new(nfs.len(), |i: int| nfs[i]@)
}

/// The first transaction to spend a nullifier wins: once it is accepted, no
/// transaction that shares a nullifier with it is acceptable any more.
pub proof fn first_spender_wins(
    spent: Set<Seq<u8>>,
    first: Seq<Seq<u8>>,
    later: Seq<Seq<u8>>,
    nf: Seq<u8>,
)
    requires
        first.contains(nf),
        later.contains(nf),
    ensures
        !acceptable(spent.union(first.to_set()), later),
{
    let i = choose|i: int| 0 <= i < later.len() && later[i] == nf;
    assert(conflict_at(spent.union(first.to_set()), later, i));
}

/// What conflict resolution decides is fixed by the spent set and the transaction:
/// two resolvers that agree on the spent set give the same answer.
pub proof fn resolution_is_determined(
    spent: Set<Seq<u8>>,
    nfs: Seq<Seq<u8>>,
    a: Result<(), NullifierConflict>,
    b: Result<(), NullifierConflict>,
)
    requires
        resolution(spent, nfs, a),
        resolution(spent, nfs, b),
    ensures
        match (a, b) {
            (Ok(()), Ok(())) => true,
            (
                Err(NullifierConflict::AlreadySpent(x)),
                Err(NullifierConflict::AlreadySpent(y)),
            ) => x@ == y@,
            (
                Err(NullifierConflict::DuplicateWithinTx(x)),
                Err(NullifierConflict::DuplicateWithinTx(y)),
            ) => x@ == y@,
            _ => false,
        },
{
    if a is Err {
        let i = choose|i: int| first_conflict(spent, nfs, i);
        assert(conflict_at(spent, nfs, i));
        assert(forall|j: int| first_conflict(spent, nfs, j) ==> j == i);
    }
    if b is Err {
        let i = choose|i: int| first_conflict(spent, nfs, i);
        assert(conflict_at(spent, nfs, i));
        assert(forall|j: int| first_conflict(spent, nfs, j) ==> j == i);
    }
}

/// A refusal names a nullifier of the transaction that is at fault: one that is spent, or one
/// that the transaction reveals twice; a transaction without either is accepted.
pub proof fn conflicts_are_named(
    spent: Set<Seq<u8>>,
    nfs: Seq<Seq<u8>>,
    r: Result<(), NullifierConflict>,
)
    requires
        resolution(spent, nfs, r),
    ensures
        r is Ok <==> nfs.no_duplicates() && forall|nf: Seq<u8>| #[trigger]
            nfs.contains(nf) ==> !spent.contains(nf),
        r matches Err(NullifierConflict::AlreadySpent(nf)) ==> nfs.contains(nf@) && spent.contains(
            nf@,
        ),
        r matches Err(NullifierConflict::DuplicateWithinTx(nf)) ==> exists|i: int, j: int|
            0 <= i < j < nfs.len() && #[trigger] nfs[i] == nf@ && #[trigger] nfs[j] == nf@,
{
    match r {
        Ok(()) => {
            assert forall|i: int, j: int| 0 <= i < j < nfs.len() implies nfs[i] != nfs[j] by {
                assert(!conflict_at(spent, nfs, j));
                assert(nfs.take(j)[i] == nfs[i]);
            }
            assert forall|nf: Seq<u8>| #[trigger] nfs.contains(nf) implies !spent.contains(nf) by {
                let i = choose|i: int| 0 <= i < nfs.len() && nfs[i] == nf;
                assert(!conflict_at(spent, nfs, i));
            }
        },
        Err(NullifierConflict::AlreadySpent(nf)) => {
            let i = choose|i: int|
                first_conflict(spent, nfs, i) && !repeats(nfs, i) && nfs[i] == nf@;
            assert(nfs.contains(nfs[i]));
        },
        Err(NullifierConflict::DuplicateWithinTx(nf)) => {
            let j = choose|j: int|
                first_conflict(spent, nfs, j) && repeats(nfs, j) && nfs[j] == nf@;
            let i = choose|i: int| 0 <= i < nfs.take(j).len() && nfs.take(j)[i] == nfs[j];
            assert(nfs[i] == nf@ && nfs[j] == nf@);
        },
    }
}

} // verus!
