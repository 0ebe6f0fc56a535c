//! Notes below the start of a wallet's stream, and how an older view of the same wallet
//! brings them back within reach.

use super::{first_path, owned_views, OwnedNote, OwnedV, WalletDb, WalletV};
use crate::bytes::{same, views32};
use crate::field::{canonical_base, ExtractedNoteCommitment};
use crate::tree::{
    all_canonical, batches_append_as_their_leaves, frontier_append, frontier_clone,
    frontier_nodes, frontier_tree_size, frontier_value, tree_of, NoteFrontier, TREE_CAPACITY,
};
use crate::witness::WitnessV;
use super::holdings::{lemma_contains_last, lemma_contains_push};
use vstd::prelude::*;
use vstd::string::*;

verus! {

/// Why an older view cannot be grafted.
#[derive(Clone, Copy, Debug, PartialEq, Eq, Structural)]
pub enum GraftError {
    /// It is a view of another wallet.
    OtherWallet,
    /// Its stream starts no earlier.
    NothingBelow,
    /// Its stream ends before this one starts.
    Gap,
    /// The two streams differ where they meet.
    Disagree,
}

impl GraftError {
    /// The text of [`message`](Self::message).
    pub open spec fn text(self) -> Seq<char> {
        match self {
            GraftError::OtherWallet => "older snapshot is of another wallet"@,
            GraftError::NothingBelow => "older snapshot holds no leaf below the base"@,
            GraftError::Gap => "older snapshot ends below the base"@,
            GraftError::Disagree => "the leaf streams disagree"@,
        }
    }

    /// The reason in words.
    pub fn message(&self) -> (s: String)
        ensures
            s@ == self.text(),
    {
        match self {
            GraftError::OtherWallet => String::from_str("older snapshot is of another wallet"),
            GraftError::NothingBelow => String::from_str(
                "older snapshot holds no leaf below the base",
            ),
            GraftError::Gap => String::from_str("older snapshot ends below the base"),
            GraftError::Disagree => String::from_str("the leaf streams disagree"),
        }
    }
}

/// A live witness is held for a position.
pub open spec fn witnessed_at(ws: Seq<(nat, WitnessV)>, position: nat) -> bool {
    exists|i: int| 0 <= i < ws.len() && (#[trigger] ws[i]).0 == position
}

/// Those notes that are stranded in a wallet.
pub open spec fn stranded_among(w: WalletV, notes: Seq<OwnedV>) -> Seq<OwnedV>
    decreases notes.len(),
{
    if notes.len() == 0 {
        Seq::empty()
    } else {
        let before = stranded_among(w, notes.drop_last());
        if w.strands(notes.last().position) {
            before.push(notes.last())
        } else {
            before
        }
    }
}

impl WalletV {
    /// A note at this position is stranded: its leaf lies below the stream, and no live
    /// witness is held for it.
    pub open spec fn strands(self, position: nat) -> bool {
        position < self.base.size && !witnessed_at(self.witnesses, position)
    }

    /// The stranded notes.
    pub open spec fn stranded(self) -> Seq<OwnedV> {
        stranded_among(self, self.notes)
    }

    /// The leaves of an older view from its start to the start of this one.
    pub open spec fn missing(self, older: WalletV) -> Seq<Seq<u8>> {
        older.leaves.take(self.base.size - older.base.size)
    }

    /// The streams agree: the older one leads to the tree that this one starts from, and
    /// where both go on, they go on alike.
    pub open spec fn continues(self, older: WalletV) -> bool {
        &&& all_canonical(self.missing(older))
        &&& older.base.extend(self.missing(older)) == self.base
        &&& forall|i: int|
            0 <= i < self.leaves.len() && self.base.size + i < older.size()
                ==> #[trigger] self.leaves[i] == older.leaves[self.base.size - older.base.size + i]
    }

    /// Why an older view cannot be grafted.
    pub open spec fn graft_fault(self, older: WalletV) -> Option<GraftError> {
        if older.fvk != self.fvk {
            Some(GraftError::OtherWallet)
        } else if older.base.size >= self.base.size {
            Some(GraftError::NothingBelow)
        } else if older.size() < self.base.size {
            Some(GraftError::Gap)
        } else if !self.continues(older) {
            Some(GraftError::Disagree)
        } else {
            None
        }
    }

    /// The wallet whose stream starts where an older view's does.
    pub open spec fn grafted(self, older: WalletV) -> WalletV {
        WalletV { base: older.base, leaves: self.missing(older) + self.leaves, ..self }
    }
}

/// Whether two frontiers stand for one tree.
fn same_tree(a: &NoteFrontier, b: &NoteFrontier) -> (r: bool)
    ensures
        r == (tree_of(*a) == tree_of(*b)),
{
    if frontier_tree_size(a) != frontier_tree_size(b) {
        return false;
    }
    match (frontier_value(a), frontier_value(b)) {
        (None, None) => true,
        (Some((x, xs)), Some((y, ys))) => {
            proof {
                assert(frontier_nodes(*a)[0] == x@);
                assert(frontier_nodes(*b)[0] == y@);
                assert(frontier_nodes(*a).len() == xs@.len() + 1);
                assert(frontier_nodes(*b).len() == ys@.len() + 1);
            }
            if !same(&x, &y) || xs.len() != ys.len() {
                return false;
            }
            let mut i: usize = 0;
            while i < xs.len()
                invariant
                    0 <= i <= xs@.len(),
                    xs@.len() == ys@.len(),
                    frontier_nodes(*a) == seq![x@] + views32(xs@),
                    frontier_nodes(*b) == seq![y@] + views32(ys@),
                    forall|j: int| 0 <= j < i ==> (#[trigger] xs@[j])@ == ys@[j]@,
                decreases xs@.len() - i,
            {
                if !same(&xs[i], &ys[i]) {
                    assert(frontier_nodes(*a)[i + 1] == xs@[i as int]@);
                    assert(frontier_nodes(*b)[i + 1] == ys@[i as int]@);
                    return false;
                }
                i = i + 1;
            }
            assert(views32(xs@) =~= views32(ys@));
            true
        },
        _ => false,
    }
}

impl WalletDb {
    /// Whether a note at this position is stranded.
    pub fn is_stranded(&self, position: u64) -> (r: bool)
        requires
            self.wf(),
        ensures
            r == self@.strands(position as nat),
    {
        if position >= self.base_size {
            return false;
        }
        let ghost all = self@.witnesses;
        let mut i: usize = 0;
        while i < self.witnesses.len()
            invariant
                0 <= i <= self.witnesses@.len(),
                all == super::witness_views(self.witnesses@),
                all == self@.witnesses,
                forall|j: int| 0 <= j < i ==> (#[trigger] all[j]).0 != position,
            decreases self.witnesses@.len() - i,
        {
            assert(all[i as int].0 == self.witnesses@[i as int].0);
            if self.witnesses[i].0 == position {
                return false;
            }
            i = i + 1;
        }
        true
    }

    /// The notes that the wallet owns and cannot prove: their leaves lie below its stream,
    /// and no live witness is held for them.
    pub fn stranded_notes(&self) -> (out: Vec<OwnedNote>)
        requires
            self.wf(),
        ensures
            owned_views(out@) == self@.stranded(),
    {
        let ghost all = self@.notes;
        let mut out: Vec<OwnedNote> = Vec::new();
        let mut i: usize = 0;
        proof {
            assert(all.take(0) =~= Seq::<OwnedV>::empty());
            assert(owned_views(out@) =~= Seq::<OwnedV>::empty());
        }
        while i < self.notes.len()
            invariant
                0 <= i <= self.notes@.len(),
                self.wf(),
                all == owned_views(self.notes@),
                owned_views(out@) == stranded_among(self@, all.take(i as int)),
            decreases self.notes@.len() - i,
        {
            let n: OwnedNote = self.notes[i];
            let ghost before = out@;
            proof {
                assert(all.take(i + 1).drop_last() =~= all.take(i as int));
                assert(all.take(i + 1).last() == n@);
            }
            if self.is_stranded(n.position) {
                out.push(n);
                assert(owned_views(out@) =~= owned_views(before).push(n@));
            }
            i = i + 1;
        }
        assert(all.take(i as int) =~= all);
        out
    }

    /// Whether the first `count` leaves of an older stream lead to this wallet's base.
    fn leads_to_base(&self, older: &WalletDb, count: usize) -> (r: bool)
        requires
            self.wf(),
            older.wf(),
            older@.base.size + count == self@.base.size,
            count <= older@.leaves.len(),
        ensures
            r == (all_canonical(older@.leaves.take(count as int)) && older@.base.extend(
                older@.leaves.take(count as int),
            ) == self@.base),
    {
        let ghost all = older@.leaves;
        let ghost part = all.take(count as int);
        let mut f: NoteFrontier = frontier_clone(&older.base_frontier);
        let mut i: usize = 0;
        assert(part.take(0) =~= Seq::<Seq<u8>>::empty());
        while i < count
            invariant
                0 <= i <= count,
                count <= all.len(),
                all == views32(older.leaves@),
                part == all.take(count as int),
                older@.base.size + count == self@.base.size,
                self@.base.size <= TREE_CAPACITY,
                tree_of(f) == older@.base.extend(part.take(i as int)),
                tree_of(f).size == older@.base.size + i,
                all_canonical(part.take(i as int)),
            decreases count - i,
        {
            proof {
                assert(part[i as int] == older.leaves@[i as int]@);
                assert(part.take(i + 1).drop_last() =~= part.take(i as int));
            }
            if ExtractedNoteCommitment::from_bytes(&older.leaves[i]).is_none() {
                assert(!canonical_base(part[i as int]));
                return false;
            }
            frontier_append(&mut f, &older.leaves[i]);
            proof {
                assert forall|j: int| 0 <= j < i + 1 implies canonical_base(
                    #[trigger] part.take(i + 1)[j],
                ) by {
                    if j < i {
                        assert(part.take(i as int)[j] == part[j]);
                    }
                }
            }
            i = i + 1;
        }
        assert(part.take(count as int) =~= part);
        same_tree(&f, &self.base_frontier)
    }

    /// Whether an older stream, behind its first `count` leaves, goes on as this one does.
    fn goes_on_alike(&self, older: &WalletDb, count: usize) -> (r: bool)
        requires
            count <= older@.leaves.len(),
        ensures
            r == forall|i: int|
                0 <= i < self@.leaves.len() && count + i < older@.leaves.len()
                    ==> #[trigger] self@.leaves[i] == older@.leaves[count + i],
    {
        let mut i: usize = 0;
        while i < self.leaves.len() && i < older.leaves.len() - count
            invariant
                0 <= i <= self.leaves@.len(),
                count + i <= older.leaves@.len(),
                self@.leaves == views32(self.leaves@),
                older@.leaves == views32(older.leaves@),
                forall|j: int|
                    0 <= j < i ==> #[trigger] self@.leaves[j] == older@.leaves[count + j],
            decreases self.leaves@.len() - i,
        {
            if !same(&self.leaves[i], &older.leaves[count + i]) {
                assert(self@.leaves[i as int] == self.leaves@[i as int]@);
                assert(older@.leaves[count + i] == older.leaves@[count + i]@);
                return false;
            }
            assert(self@.leaves[i as int] == self.leaves@[i as int]@);
            assert(older@.leaves[count + i] == older.leaves@[count + i]@);
            i = i + 1;
        }
        true
    }

    /// Puts the leaves of an older view of the same wallet back in front of the stream,
    /// once the two streams are seen to agree; a refusal changes nothing. Returns how many
    /// leaves came back.
    pub fn graft_history(&mut self, older: &WalletDb) -> (r: Result<u64, GraftError>)
        requires
            old(self).wf(),
            older.wf(),
        ensures
            final(self).wf(),
            match old(self)@.graft_fault(older@) {
                Some(e) => r == Err::<u64, GraftError>(e) && *final(self) == *old(self),
                None => {
                    &&& r matches Ok(n) && n == old(self)@.base.size - older@.base.size
                    &&& final(self)@ == old(self)@.grafted(older@)
                },
            },
            old(self)@.tidy() ==> final(self)@.tidy(),
    {
        let ghost v = self@;
        let ghost o = older@;
        let own: [u8; 96] = self.fvk.to_bytes();
        let theirs: [u8; 96] = older.fvk.to_bytes();
        if !same(&own, &theirs) {
            return Err(GraftError::OtherWallet);
        }
        if older.base_size >= self.base_size {
            return Err(GraftError::NothingBelow);
        }
        let restored: u64 = self.base_size - older.base_size;
        let held: usize = older.leaves.len();
        if restored > held as u64 {
            return Err(GraftError::Gap);
        }
        let count: usize = restored as usize;
        if !self.leads_to_base(older, count) || !self.goes_on_alike(older, count) {
            return Err(GraftError::Disagree);
        }
        let mut leaves: Vec<[u8; 32]> = Vec::new();
        let mut i: usize = 0;
        assert(views32(leaves@) =~= o.leaves.take(0));
        while i < count
            invariant
                0 <= i <= count,
                count <= o.leaves.len(),
                o.leaves == views32(older.leaves@),
                views32(leaves@) == o.leaves.take(i as int),
            decreases count - i,
        {
            let ghost before = leaves@;
            leaves.push(older.leaves[i]);
            proof {
                assert(o.leaves[i as int] == older.leaves@[i as int]@);
                assert(views32(leaves@) =~= views32(before).push(older.leaves@[i as int]@));
                assert(o.leaves.take(i + 1) =~= o.leaves.take(i as int).push(o.leaves[i as int]));
            }
            i = i + 1;
        }
        let mut k: usize = 0;
        assert(views32(leaves@) =~= v.missing(o) + v.leaves.take(0));
        while k < self.leaves.len()
            invariant
                0 <= k <= self.leaves@.len(),
                v.leaves == views32(self.leaves@),
                views32(leaves@) == v.missing(o) + v.leaves.take(k as int),
            decreases self.leaves@.len() - k,
        {
            let ghost before = leaves@;
            leaves.push(self.leaves[k]);
            proof {
                assert(v.leaves[k as int] == self.leaves@[k as int]@);
                assert(views32(leaves@) =~= views32(before).push(self.leaves@[k as int]@));
                assert(v.missing(o) + v.leaves.take(k + 1) =~= (v.missing(o) + v.leaves.take(
                    k as int,
                )).push(v.leaves[k as int]));
            }
            k = k + 1;
        }
        assert(v.leaves.take(k as int) =~= v.leaves);
        self.leaves = leaves;
        self.base_frontier = frontier_clone(&older.base_frontier);
        self.base_size = older.base_size;
        proof {
            assert(self@ == v.grafted(o));
            lemma_grafted_in_step(v, o);
            lemma_grafted_tree(v, o, v.leaves.len() as int);
            assert(v.leaves.take(v.leaves.len() as int) =~= v.leaves);
            assert(self@.leaves.take(self@.leaves.len() as int) =~= self@.leaves);
        }
        Ok(restored)
    }
}

/// The grafted stream holds what the two streams held.
proof fn lemma_grafted_stream(v: WalletV, o: WalletV)
    requires
        v.graft_fault(o) is None,
    ensures
        v.grafted(o).size() == v.size(),
        all_canonical(v.grafted(o).leaves) == all_canonical(v.leaves),
{
    let g = v.grafted(o);
    let k = v.missing(o).len();
    assert forall|i: int| 0 <= i < v.leaves.len() implies #[trigger] v.leaves[i] == g.leaves[k
        + i] by {}
    if all_canonical(v.leaves) {
        assert forall|i: int| 0 <= i < g.leaves.len() implies canonical_base(
            #[trigger] g.leaves[i],
        ) by {
            if i < k {
                assert(g.leaves[i] == v.missing(o)[i]);
            } else {
                assert(g.leaves[i] == v.leaves[i - k]);
            }
        }
    }
}

/// The tree after any number of leaves from this stream's start on is what it was.
proof fn lemma_grafted_tree(v: WalletV, o: WalletV, n: int)
    requires
        v.graft_fault(o) is None,
        0 <= n <= v.leaves.len(),
    ensures
        v.grafted(o).base.extend(v.grafted(o).leaves.take(v.missing(o).len() + n))
            == v.base.extend(v.leaves.take(n)),
{
    let k = v.missing(o).len();
    batches_append_as_their_leaves(o.base, v.missing(o), v.leaves.take(n));
    assert(v.grafted(o).leaves.take(k + n) =~= v.missing(o) + v.leaves.take(n));
}

/// Witnesses of leaves that this stream holds stay what they were.
proof fn lemma_grafted_witness(v: WalletV, o: WalletV, position: nat, matured: nat)
    requires
        v.graft_fault(o) is None,
        v.base.size <= position < matured <= v.size(),
    ensures
        v.grafted(o).witness_at(position, matured) == v.witness_at(position, matured),
{
    let k = v.missing(o).len();
    let rel = position - v.base.size;
    let end = matured - v.base.size;
    lemma_grafted_tree(v, o, rel + 1);
    assert(v.grafted(o).leaves.subrange(k + rel + 1, k + end) =~= v.leaves.subrange(rel + 1, end));
}

proof fn lemma_grafted_in_step(v: WalletV, o: WalletV)
    requires
        v.in_step(),
        v.graft_fault(o) is None,
    ensures
        v.grafted(o).in_step(),
        v.grafted(o).size() == v.size(),
        all_canonical(v.grafted(o).leaves) == all_canonical(v.leaves),
{
    let g = v.grafted(o);
    lemma_grafted_stream(v, o);
    if all_canonical(v.leaves) {
        lemma_grafted_tree(v, o, v.upto - v.base.size);
        if v.upto <= TREE_CAPACITY {
            assert forall|i: int| 0 <= i < g.witnesses.len() implies {
                let w = #[trigger] g.witnesses[i];
                &&& g.base.size <= w.0 < g.upto
                &&& w.1 == g.witness_at(w.0, g.upto)
            } by {
                let w = v.witnesses[i];
                assert(w.1 == v.witness_at(w.0, v.upto));
                lemma_grafted_witness(v, o, w.0, v.upto);
            }
        }
    }
}

proof fn lemma_no_live_path(ws: Seq<(nat, WitnessV)>, position: nat)
    requires
        !witnessed_at(ws, position),
    ensures
        first_path(ws, position) is None,
    decreases ws.len(),
{
    if ws.len() > 0 {
        assert(ws[0].0 != position);
        assert forall|i: int| 0 <= i < ws.skip(1).len() implies (#[trigger] ws.skip(1)[i]).0
            != position by {
            assert(ws.skip(1)[i] == ws[i + 1]);
        }
        lemma_no_live_path(ws.skip(1), position);
    }
}

/// A stranded note has no path to any anchor.
pub proof fn stranded_notes_have_no_path(w: WalletV, position: nat, matured: nat)
    requires
        w.strands(position),
    ensures
        w.path_at(position, matured) is None,
{
    lemma_no_live_path(w.witnesses, position);
}

/// A note that is not stranded has a path to every anchor behind it that the stream reaches.
pub proof fn other_notes_have_a_path(w: WalletV, position: nat, matured: nat)
    requires
        w.in_step(),
        all_canonical(w.leaves),
        w.upto <= TREE_CAPACITY,
        !w.strands(position),
        position < matured <= w.size(),
        matured <= TREE_CAPACITY,
    ensures
        w.path_at(position, matured) is Some,
{
    if position < w.base.size {
        let i = choose|i: int| 0 <= i < w.witnesses.len() && (#[trigger] w.witnesses[i]).0
            == position;
        assert(w.base.size <= w.witnesses[i].0);
    }
}

/// Grafting takes nothing away: what the wallet owns, its anchor and every path that it could
/// rebuild stay what they were.
pub proof fn grafting_keeps_what_there_was(w: WalletV, older: WalletV, position: nat, matured: nat)
    requires
        w.graft_fault(older) is None,
        w.base.size <= position,
    ensures
        w.grafted(older).notes == w.notes,
        w.grafted(older).tip == w.tip,
        w.grafted(older).size() == w.size(),
        w.grafted(older).rebuilt_path(position, matured) == w.rebuilt_path(position, matured),
{
    lemma_grafted_stream(w, older);
    if position < matured <= w.size() {
        lemma_grafted_witness(w, older, position, matured);
    }
}

/// Grafting brings stranded notes back: no note is stranded that was not, and none whose leaf
/// the older stream holds.
pub proof fn grafting_brings_notes_back(w: WalletV, older: WalletV, position: nat)
    requires
        w.graft_fault(older) is None,
    ensures
        w.grafted(older).strands(position) ==> w.strands(position),
        older.base.size <= position ==> !w.grafted(older).strands(position),
{
}

/// A note is stranded exactly where its leaf lies before the stream and no live witness is
/// held for it.
pub proof fn stranded_notes_are_told(w: WalletV, n: OwnedV)
    ensures
        w.stranded().contains(n) <==> w.notes.contains(n) && n.position < w.base.size
            && !(exists|i: int| 0 <= i < w.witnesses.len() && (#[trigger] w.witnesses[i]).0
            == n.position),
{
    lemma_stranded_hold(w, w.notes, n);
}

proof fn lemma_stranded_hold(w: WalletV, notes: Seq<OwnedV>, n: OwnedV)
    ensures
        stranded_among(w, notes).contains(n) <==> notes.contains(n) && w.strands(n.position),
    decreases notes.len(),
{
    if notes.len() > 0 {
        let front = notes.drop_last();
        lemma_stranded_hold(w, front, n);
        lemma_contains_last(notes, n);
        lemma_contains_push(stranded_among(w, front), notes.last(), n);
    }
}

/// An older view is grafted exactly where it is of the same key, starts before this one,
/// reaches it without a gap, leads to the tree that this one starts from, and has the leaves
/// that this one has where both go on.
pub proof fn views_are_grafted_where_they_meet(w: WalletV, older: WalletV)
    requires
        older.size() == older.base.size + older.leaves.len(),
    ensures
        w.graft_fault(older) is None <==> {
            let gap = w.base.size - older.base.size;
            &&& older.fvk == w.fvk
            &&& 0 < gap <= older.leaves.len()
            &&& all_canonical(older.leaves.take(gap))
            &&& older.base.extend(older.leaves.take(gap)) == w.base
            &&& forall|i: int|
                0 <= i < w.leaves.len() && gap + i < older.leaves.len()
                    ==> #[trigger] w.leaves[i] == older.leaves[gap + i]
        },
        w.graft_fault(older) is None ==> w.grafted(older).base == older.base && w.grafted(
            older,
        ).size() == w.size() && w.grafted(older).notes == w.notes,
{
}

} // verus!
