//! The authentication paths of a wallet's notes: kept live as the tree grows, or rebuilt
//! from the stream.

use super::{
    first_path, held_at, still_held, witness_views, OwnedV, WalletDb, WalletV,
    MAX_LIVE_WITNESSES,
};
use crate::bytes::views32;
use crate::field::{canonical_base, ExtractedNoteCommitment};
use crate::tree::{all_canonical, batches_append_as_their_leaves, lemma_extend_size, TREE_CAPACITY};
use crate::witness::{
    mirror_append, mirror_clone, mirror_from_frontier, mirrored, path_of, path_root,
    witness_append, witness_from_tree, witnessed, MerklePath, NoteTree, NoteWitness, PathV,
    WitnessV,
};
use vstd::prelude::*;

verus! {

/// What a path holds, where there is one.
pub open spec fn path_view(r: Option<MerklePath>) -> Option<PathV> {
    match r {
        Some(p) => Some(p@),
        None => None,
    }
}

impl WalletV {
    /// What [`WalletDb::witness_path_at`] gives: a live witness where one is held at
    /// exactly this leaf count, and else the rebuilt path.
    pub open spec fn path_at(self, position: nat, matured: nat) -> Option<PathV> {
        match self.live_path(position, matured) {
            Some(p) => Some(p),
            None => self.rebuilt_path(position, matured),
        }
    }

    /// The live witnesses are in step at a leaf count.
    pub open spec fn in_step_at(self, at: nat) -> bool {
        WalletV { upto: at, ..self }.in_step()
    }
}

impl WalletDb {
    /// Brings the live witnesses to exactly `target_leaves` leaves, as far as the stream
    /// has them.
    pub fn advance_witnesses(&mut self, target_leaves: u64)
        requires
            old(self).wf(),
        ensures
            final(self).wf(),
            final(self)@ == old(self)@.advanced(target_leaves as nat, u64::MAX as nat),
            same_stream(old(self)@, final(self)@),
            old(self)@.tidy() ==> final(self)@.tidy(),
    {
        self.advance_witnesses_capped(target_leaves, u64::MAX);
    }

    /// [`advance_witnesses`](Self::advance_witnesses) by at most `max_leaves` leaves.
    /// Returns whether more is left to do.
    pub fn advance_witnesses_capped(&mut self, target_leaves: u64, max_leaves: u64) -> (more: bool)
        requires
            old(self).wf(),
        ensures
            final(self).wf(),
            final(self)@ == old(self)@.advanced(target_leaves as nat, max_leaves as nat),
            same_stream(old(self)@, final(self)@),
            old(self)@.tidy() ==> final(self)@.tidy(),
            more == (old(self)@.reach(target_leaves as nat, max_leaves as nat) < old(self)@.available(target_leaves as nat) && old(self)@.behind_from() < old(self)@.available(
                target_leaves as nat,
            )),
    {
        let full_target: u64 = if target_leaves <= self.size {
            target_leaves
        } else {
            self.size
        };
        let start: u64 = if self.witnessed_upto >= self.base_size {
            self.witnessed_upto
        } else {
            self.base_size
        };
        if full_target <= start {
            return false;
        }
        let target: u64 = if full_target - start <= max_leaves {
            full_target
        } else {
            start + max_leaves
        };
        if start < target {
            self.advance_witnesses_range(start, target);
        }
        target < full_target
    }

    /// Whether a note is held at a position.
    fn holds(&self, position: u64) -> (r: bool)
        ensures
            r == held_at(self@.notes, position as nat),
    {
        let ghost all = self@.notes;
        let mut i: usize = 0;
        while i < self.notes.len()
            invariant
                0 <= i <= self.notes@.len(),
                all == super::owned_views(self.notes@),
                forall|j: int| 0 <= j < i ==> (#[trigger] all[j]).position != position,
            decreases self.notes@.len() - i,
        {
            assert(all[i as int] == self.notes@[i as int]@);
            if self.notes[i].position == position {
                return true;
            }
            i = i + 1;
        }
        false
    }

    /// Whether every leaf of the stream is a tree node.
    fn leaves_decode(&self) -> (r: bool)
        ensures
            r == all_canonical(self@.leaves),
    {
        let ghost all = self@.leaves;
        let mut i: usize = 0;
        while i < self.leaves.len()
            invariant
                0 <= i <= self.leaves@.len(),
                all == views32(self.leaves@),
                forall|j: int| 0 <= j < i ==> canonical_base(#[trigger] all[j]),
            decreases self.leaves@.len() - i,
        {
            assert(all[i as int] == self.leaves@[i as int]@);
            if ExtractedNoteCommitment::from_bytes(&self.leaves[i]).is_none() {
                return false;
            }
            i = i + 1;
        }
        true
    }

    /// Looks through the leaf stream ahead of a spend, and says whether paths can be
    /// rebuilt from it.
    pub fn warm_leaves(&self) -> (r: bool)
        ensures
            r == all_canonical(self@.leaves),
    {
        self.leaves_decode()
    }

    fn advance_witnesses_range(&mut self, start: u64, target: u64)
        requires
            old(self).wf(),
            start == old(self)@.behind_from(),
            start < target <= old(self)@.size(),
        ensures
            final(self).wf(),
            final(self)@ == (WalletV {
                upto: target as nat,
                ..old(self)@.pruned().see_range(start as nat, (target - start) as nat)
            }),
            same_stream(old(self)@, final(self)@),
    {
        let ghost v0 = self@;
        let ghost v1 = v0.pruned();
        let mut olds: Vec<(u64, NoteWitness)> = Vec::new();
        std::mem::swap(&mut olds, &mut self.witnesses);
        let ghost all = witness_views(olds@);
        let mut ws: Vec<(u64, NoteWitness)> = Vec::new();
        assert(all == v0.witnesses);
        assert(all.take(0) =~= Seq::<(nat, WitnessV)>::empty());
        assert(witness_views(ws@) =~= Seq::<(nat, WitnessV)>::empty());
        let mut done: Ghost<int> = Ghost(0);
        while olds.len() > 0
            invariant
                0 <= done@ <= all.len(),
                witness_views(olds@) == all.skip(done@),
                witness_views(ws@) == still_held(all.take(done@), self@.notes),
            decreases olds@.len(),
        {
            let ghost before = witness_views(olds@);
            let w: (u64, NoteWitness) = olds.remove(0);
            proof {
                let d = done@;
                assert(before.len() > 0);
                assert(before[0] == all[d]);
                assert(all.take(d + 1).drop_last() =~= all.take(d));
                assert(all.take(d + 1).last() == (w.0 as nat, witnessed(w.1)));
                assert(witness_views(olds@) =~= before.skip(1));
                assert(all.skip(d).skip(1) =~= all.skip(d + 1));
            }
            if self.holds(w.0) {
                let ghost kept = ws@;
                ws.push(w);
                assert(witness_views(ws@) =~= witness_views(kept).push(
                    (w.0 as nat, witnessed(w.1)),
                ));
            }
            done = Ghost(done@ + 1);
        }
        proof {
            assert(witness_views(olds@).len() == 0);
            assert(done@ == all.len());
            assert(all.take(done@) =~= all);
            lemma_pruned_in_step(v0);
        }
        let decodes: bool = self.leaves_decode();
        let mut lag: NoteTree = mirror_clone(&self.lag_tree);
        let count: usize = self.leaves.len();
        let mut at: u64 = start;
        while at < target
            invariant
                start <= at <= target,
                start == v1.base.size || start == v0.upto,
                start >= v1.base.size,
                target <= v1.size(),
                v1.size() <= u64::MAX,
                self.base_size == v1.base.size,
                views32(self.leaves@) == v1.leaves,
                count == v1.leaves.len(),
                self@.notes == v1.notes,
                decodes == all_canonical(v1.leaves),
                mirrored(lag) == v1.see_range(start as nat, (at - start) as nat).lag,
                witness_views(ws@) == v1.see_range(start as nat, (at - start) as nat).witnesses,
                v1.see_range(start as nat, (at - start) as nat).in_step_at(at as nat),
                same_stream(v1, v1.see_range(start as nat, (at - start) as nat)),
            decreases target - at,
        {
            let ghost cur = v1.see_range(start as nat, (at - start) as nat);
            proof {
                lemma_see_in_step(cur, at as nat);
                assert(v1.see_range(start as nat, (at + 1 - start) as nat) == cur.see(at as nat));
            }
            if decodes {
                let leaf: [u8; 32] = self.leaves[(at - self.base_size) as usize];
                proof {
                    assert(v1.leaves[at - v1.base.size] == leaf@);
                    assert(canonical_base(v1.leaves[at - v1.base.size]));
                }
                let ghost views = witness_views(ws@);
                let mut i: usize = 0;
                while i < ws.len()
                    invariant
                        0 <= i <= ws@.len(),
                        ws@.len() == views.len(),
                        canonical_base(leaf@),
                        forall|j: int|
                            0 <= j < i ==> #[trigger] witness_views(ws@)[j] == (
                                views[j].0,
                                views[j].1.push(leaf@),
                            ),
                        forall|j: int|
                            i <= j < ws@.len() ==> #[trigger] witness_views(ws@)[j] == views[j],
                    decreases ws@.len() - i,
                {
                    let ghost held = ws@;
                    assert(witness_views(ws@)[i as int] == views[i as int]);
                    witness_append(&mut ws[i].1, &leaf);
                    proof {
                        assert forall|j: int| 0 <= j < ws@.len() && j != i implies
                            #[trigger] witness_views(ws@)[j] == witness_views(held)[j] by {
                            assert(ws@[j] == held[j]);
                        }
                        assert(witness_views(ws@)[i as int].1 == views[i as int].1.push(leaf@));
                    }
                    i = i + 1;
                }
                mirror_append(&mut lag, &leaf);
                let ghost grown = Seq::new(
                    cur.witnesses.len(),
                    |i: int| (cur.witnesses[i].0, cur.witnesses[i].1.push(leaf@)),
                );
                assert(witness_views(ws@) =~= grown);
                if self.holds(at) && ws.len() < MAX_LIVE_WITNESSES {
                    match witness_from_tree(mirror_clone(&lag)) {
                        Some(w) => {
                            let ghost kept = ws@;
                            ws.push((at, w));
                            assert(witness_views(ws@) =~= witness_views(kept).push(
                                (at as nat, witnessed(w)),
                            ));
                        },
                        None => {},
                    }
                }
            }
            at = at + 1;
        }
        self.witnesses = ws;
        self.lag_tree = lag;
        self.witnessed_upto = target;
    }

    /// The path of a live witness for `position`, where one is held at exactly
    /// `matured_leaves` leaves.
    fn live_witness_path(&self, position: u64, matured_leaves: u64) -> (r: Option<MerklePath>)
        requires
            self.wf(),
        ensures
            path_view(r) == self@.live_path(position as nat, matured_leaves as nat),
            r matches Some(p) ==> p.wf() && exists|i: int|
                0 <= i < self@.witnesses.len() && (#[trigger] self@.witnesses[i]).0 == position
                    && path_root(
                    p@.position,
                    p@.path,
                    self@.witnesses[i].1.base.nodes[0],
                ) == self@.witnesses[i].1.base.extend(self@.witnesses[i].1.later).root() && p@ == (
                PathV {
                    position: (self@.witnesses[i].1.base.size - 1) as u32,
                    path: self@.witnesses[i].1.path(),
                }),
    {
        if self.witnessed_upto != matured_leaves {
            return None;
        }
        let ghost all = self@.witnesses;
        let mut i: usize = 0;
        assert(all.skip(0) =~= all);
        while i < self.witnesses.len()
            invariant
                0 <= i <= self.witnesses@.len(),
                self.wf(),
                all == self@.witnesses,
                all == witness_views(self.witnesses@),
                self@.upto == matured_leaves,
                first_path(all, position as nat) == first_path(all.skip(i as int), position as nat),
            decreases self.witnesses@.len() - i,
        {
            proof {
                assert(all.skip(i as int)[0] == all[i as int]);
                assert(all[i as int] == (
                    self.witnesses@[i as int].0 as nat,
                    witnessed(self.witnesses@[i as int].1),
                ));
                assert(all.skip(i as int).skip(1) =~= all.skip(i + 1));
                assert(self@.witnesses[i as int].1.base.size > 0);
            }
            if self.witnesses[i].0 == position {
                return path_of(&self.witnesses[i].1);
            }
            i = i + 1;
        }
        None
    }

    /// The path of the note at `position` to the current anchor.
    pub fn witness_path(&self, position: u64) -> (r: Option<MerklePath>)
        requires
            self.wf(),
        ensures
            path_view(r) == self@.path_at(position as nat, self@.size()),
            r matches Some(p) ==> p.wf(),
            self@.size() <= TREE_CAPACITY ==> path_view(r) == self@.rebuilt_path(
                position as nat,
                self@.size(),
            ),
            self@.size() <= TREE_CAPACITY && r is Some ==> leads_to_root(
                self@,
                r->Some_0,
                position as nat,
                self@.size(),
            ),
            all_canonical(self@.leaves) && self@.base.size <= position < self@.size()
                && self@.size() <= TREE_CAPACITY ==> r is Some,
    {
        self.witness_path_at(position, self.size)
    }

    /// The path of the note at `position` to the anchor after exactly `matured_leaves`
    /// leaves; `None` where the note is not within them, or the stream does not hold
    /// them. A live witness and a rebuild give the same path, and the path leads from the
    /// leaf to that anchor.
    pub fn witness_path_at(&self, position: u64, matured_leaves: u64) -> (r: Option<MerklePath>)
        requires
            self.wf(),
        ensures
            path_view(r) == self@.path_at(position as nat, matured_leaves as nat),
            r matches Some(p) ==> p.wf(),
            matured_leaves <= TREE_CAPACITY ==> path_view(r) == self@.rebuilt_path(
                position as nat,
                matured_leaves as nat,
            ),
            matured_leaves <= TREE_CAPACITY && r is Some ==> leads_to_root(
                self@,
                r->Some_0,
                position as nat,
                matured_leaves as nat,
            ),
            all_canonical(self@.leaves) && self@.base.size <= position < matured_leaves
                && matured_leaves <= self@.size() && matured_leaves <= TREE_CAPACITY ==> r is Some,
    {
        match self.live_witness_path(position, matured_leaves) {
            Some(path) => {
                proof {
                    if matured_leaves <= TREE_CAPACITY {
                        let i = choose|i: int|
                            0 <= i < self@.witnesses.len() && (#[trigger] self@.witnesses[i]).0
                                == position && path_root(
                                path@.position,
                                path@.path,
                                self@.witnesses[i].1.base.nodes[0],
                            ) == self@.witnesses[i].1.base.extend(
                                self@.witnesses[i].1.later,
                            ).root() && path@ == (PathV {
                                position: (self@.witnesses[i].1.base.size - 1) as u32,
                                path: self@.witnesses[i].1.path(),
                            });
                        let w = self@.witnesses[i];
                        assert(w.1 == self@.witness_at(w.0, self@.upto));
                        lemma_witness_root(self@, position as nat, matured_leaves as nat);
                    }
                }
                return Some(path);
            },
            None => {},
        }
        if position < self.base_size || matured_leaves < self.base_size {
            return None;
        }
        let rel: u64 = position - self.base_size;
        let end: u64 = matured_leaves - self.base_size;
        let count: usize = self.leaves.len();
        if rel >= end || !self.leaves_decode() || end > count as u64 {
            return None;
        }
        let first_later: usize = (rel as usize) + 1;
        let stop: usize = end as usize;
        let ghost leaves = self@.leaves;
        let ghost base = self@.base;
        let mut tree: NoteTree = mirror_from_frontier(&self.base_frontier);
        let mut i: usize = 0;
        assert(leaves.take(0) =~= Seq::<Seq<u8>>::empty());
        while i < first_later
            invariant
                0 <= i <= first_later,
                first_later == rel + 1,
                rel < end <= leaves.len(),
                leaves == views32(self.leaves@),
                all_canonical(leaves),
                base.size <= TREE_CAPACITY,
                base.size + end == matured_leaves,
                self@.decoded() == leaves,
                self@.leaves == leaves,
                self@.base == base,
                self@.base.size + rel == position,
                self@.live_path(position as nat, matured_leaves as nat) is None,
                mirrored(tree) == base.extend(leaves.take(i as int)),
                mirrored(tree).size == base.size + i,
                base.size + i <= TREE_CAPACITY,
            decreases rel + 1 - i,
        {
            proof {
                assert(leaves[i as int] == self.leaves@[i as int]@);
                assert(canonical_base(leaves[i as int]));
                assert(leaves.take(i + 1).drop_last() =~= leaves.take(i as int));
            }
            if !mirror_append(&mut tree, &self.leaves[i]) {
                return None;
            }
            i = i + 1;
        }
        let mut witness: NoteWitness = match witness_from_tree(tree) {
            Some(w) => w,
            None => {
                return None;
            },
        };
        let mut k: usize = first_later;
        assert(leaves.subrange(rel + 1, rel + 1) =~= Seq::<Seq<u8>>::empty());
        while k < stop
            invariant
                rel + 1 <= k <= end,
                stop == end,
                rel < end <= leaves.len(),
                leaves == views32(self.leaves@),
                all_canonical(leaves),
                base.size + end == matured_leaves,
                self@.decoded() == leaves,
                self@.leaves == leaves,
                self@.base == base,
                self@.base.size + rel == position,
                self@.live_path(position as nat, matured_leaves as nat) is None,
                witnessed(witness).base == base.extend(leaves.take(rel + 1)),
                witnessed(witness).base.size == base.size + rel + 1,
                witnessed(witness).later == leaves.subrange(rel + 1, k as int),
                base.size + k <= TREE_CAPACITY,
            decreases end - k,
        {
            proof {
                assert(leaves[k as int] == self.leaves@[k as int]@);
                assert(canonical_base(leaves[k as int]));
                assert(leaves.subrange(rel + 1, k + 1) =~= leaves.subrange(rel + 1, k as int).push(
                    leaves[k as int],
                ));
            }
            if !witness_append(&mut witness, &self.leaves[k]) {
                return None;
            }
            k = k + 1;
        }
        proof {
            assert(witnessed(witness) == self@.witness_at(position as nat, matured_leaves as nat));
            lemma_witness_root(self@, position as nat, matured_leaves as nat);
        }
        path_of(&witness)
    }
}

/// The path is the path of the leaf at a position, and leads from that leaf to the root of
/// the tree of the first `matured` leaves.
pub open spec fn leads_to_root(v: WalletV, p: MerklePath, position: nat, matured: nat) -> bool {
    &&& p.wf()
    &&& p@.position == position
    &&& path_root(p@.position, p@.path, v.leaves[position - v.base.size]) == v.base.extend(
        v.leaves.take(matured - v.base.size),
    ).root()
}

/// Nothing of the stream and the notes differs.
pub open spec fn same_stream(v: WalletV, w: WalletV) -> bool {
    &&& w.fvk == v.fvk
    &&& w.base == v.base
    &&& w.leaves == v.leaves
    &&& w.notes == v.notes
    &&& w.tip == v.tip
    &&& w.spent == v.spent
}

/// The witness of a leaf ends in that leaf, and leads to the tree of the leaves it saw.
proof fn lemma_witness_root(v: WalletV, position: nat, matured: nat)
    requires
        v.base.size <= position < matured <= TREE_CAPACITY,
        matured - v.base.size <= v.leaves.len(),
    ensures
        ({
            let w = v.witness_at(position, matured);
            &&& w.base.size == position + 1
            &&& w.base.nodes[0] == v.leaves[position - v.base.size]
            &&& w.base.extend(w.later) == v.base.extend(v.leaves.take(matured - v.base.size))
        }),
{
    let rel = position - v.base.size;
    let end = matured - v.base.size;
    lemma_extend_size(v.base, v.leaves.take(rel));
    lemma_extend_size(v.base, v.leaves.take(rel + 1));
    assert(v.leaves.take(rel + 1).drop_last() =~= v.leaves.take(rel));
    batches_append_as_their_leaves(
        v.base,
        v.leaves.take(rel + 1),
        v.leaves.subrange(rel + 1, end),
    );
    assert(v.leaves.take(rel + 1) + v.leaves.subrange(rel + 1, end) =~= v.leaves.take(end));
}

proof fn lemma_still_held_among(ws: Seq<(nat, WitnessV)>, notes: Seq<OwnedV>, i: int)
    requires
        0 <= i < still_held(ws, notes).len(),
    ensures
        ws.contains(still_held(ws, notes)[i]),
        still_held(ws, notes).len() <= ws.len(),
    decreases ws.len(),
{
    if ws.len() > 0 {
        let front = ws.drop_last();
        lemma_still_held_len(front, notes);
        if i < still_held(front, notes).len() {
            lemma_still_held_among(front, notes, i);
            let x = still_held(front, notes)[i];
            let k = choose|k: int| 0 <= k < front.len() && front[k] == x;
            assert(ws[k] == x);
        } else {
            assert(ws[ws.len() - 1] == ws.last());
        }
    }
}

proof fn lemma_still_held_len(ws: Seq<(nat, WitnessV)>, notes: Seq<OwnedV>)
    ensures
        still_held(ws, notes).len() <= ws.len(),
    decreases ws.len(),
{
    if ws.len() > 0 {
        lemma_still_held_len(ws.drop_last(), notes);
    }
}

/// Dropping the witnesses of spent notes keeps the others in step.
proof fn lemma_pruned_in_step(v: WalletV)
    requires
        v.in_step(),
    ensures
        v.pruned().in_step(),
{
    let p = v.pruned();
    lemma_still_held_len(v.witnesses, v.notes);
    assert forall|i: int| 0 <= i < p.witnesses.len() implies v.witnesses.contains(
        #[trigger] p.witnesses[i],
    ) by {
        lemma_still_held_among(v.witnesses, v.notes, i);
    }
    if all_canonical(p.leaves) && p.upto <= TREE_CAPACITY {
        assert forall|i: int| 0 <= i < p.witnesses.len() implies {
            let w = #[trigger] p.witnesses[i];
            &&& p.base.size <= w.0 < p.upto
            &&& w.1 == p.witness_at(w.0, p.upto)
        } by {
            assert(v.witnesses.contains(p.witnesses[i]));
            let k = choose|k: int| 0 <= k < v.witnesses.len() && v.witnesses[k] == p.witnesses[i];
            assert(v.witnesses[k].1 == v.witness_at(v.witnesses[k].0, v.upto));
        }
    }
    assert forall|i: int| 0 <= i < p.witnesses.len() implies (#[trigger] p.witnesses[i]).1.base.size
        > 0 by {
        assert(v.witnesses.contains(p.witnesses[i]));
        let k = choose|k: int| 0 <= k < v.witnesses.len() && v.witnesses[k] == p.witnesses[i];
        assert(v.witnesses[k].1.base.size > 0);
    }
}

/// Seeing the next leaf keeps the live witnesses in step.
proof fn lemma_see_in_step(v: WalletV, at: nat)
    requires
        v.in_step_at(at),
        at < v.size(),
    ensures
        v.see(at).in_step_at(at + 1),
        same_stream(v, v.see(at)),
{
    let w = v.see(at);
    let k = at - v.base.size;
    let here = WalletV { upto: at, ..v };
    let next = WalletV { upto: at + 1, ..w };
    if all_canonical(v.leaves) {
        let leaf = v.leaves[k];
        assert(v.leaves.take(k + 1).drop_last() =~= v.leaves.take(k));
        assert(next.lag == next.base.extend(next.leaves.take(k + 1)));
        assert(here.lag.push(leaf).size > 0);
        if at + 1 <= TREE_CAPACITY {
            assert forall|i: int| 0 <= i < next.witnesses.len() implies {
                let x = #[trigger] next.witnesses[i];
                &&& next.base.size <= x.0 < next.upto
                &&& x.1 == next.witness_at(x.0, next.upto)
            } by {
                if i < v.witnesses.len() {
                    let x = here.witnesses[i];
                    let rel = x.0 - v.base.size;
                    assert(x.1 == here.witness_at(x.0, at));
                    lemma_extend_size(v.base, v.leaves.take(rel + 1));
                    assert(v.leaves.subrange(rel + 1, k + 1) =~= v.leaves.subrange(rel + 1, k).push(
                        leaf,
                    ));
                } else {
                    assert(v.leaves.subrange(k + 1, k + 1) =~= Seq::<Seq<u8>>::empty());
                }
            }
        }
        assert forall|i: int| 0 <= i < next.witnesses.len() implies (#[trigger] next.witnesses[i]).1.base.size
            > 0 by {
            if i < v.witnesses.len() {
                assert(here.witnesses[i].1.base.size > 0);
            }
        }
    } else {
        assert(w == v);
    }
}

} // verus!
