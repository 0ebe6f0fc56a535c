//! Checkpoints: a wallet's scanned state in bytes, so that a restart resumes instead of
//! scanning the chain again.
//!
//! No key is written, so a checkpoint restores under a seed and under its viewing key
//! alike. The layout is little-endian: a version byte; the base leaf count and the base
//! frontier; the leaf count; the counted leaves, notes and spent nullifiers (ascending);
//! and the tip frontier. The version before this one lacks the tip frontier and is still
//! read: the tip tree is then taken from the caller or replayed from the leaves.

use super::{owned_views, OwnedNote, OwnedV, WalletDb, WalletV};
use crate::bundle::BundleV;
use crate::bytes::{
    le_bytes, le_of, le_value, lemma_le_bytes_len, lemma_le_value_bound,
    lemma_le_value_of_bytes, lemma_pow256, lemma_views32_push, push_all, push_le, to_array,
    views32,
};
use crate::field::{canonical_base, ExtractedNoteCommitment};
use crate::keys::{fvk_of_seed, viewing_key};
use crate::note::{note_valid, Note, NoteV};
use crate::nullifier::MemNullifierSet;
use crate::order::{ascending, lemma_listed, listed};
use crate::tree::{
    all_canonical, frontier_clone, frontier_empty, frontier_parts_fit, frontier_tree_size,
    frontier_value, lemma_extend_size, tree_of, FrontierState, GlobalTree, NoteCommitmentTree,
    NoteFrontier, TreeV, TREE_CAPACITY,
};
use crate::witness::{
    mirror_append, mirror_from_frontier, mirror_to_frontier, mirrored, NoteTree, WitnessV,
};
use vstd::prelude::*;

verus! {

/// The version that is written.
pub const CHECKPOINT_VERSION: u8 = 4;

/// The version before, without the tip frontier.
pub const CHECKPOINT_VERSION_V3: u8 = 3;

// ---------------------------------------------------------------------------
// Writing.

/// Byte strings one after the other.
pub open spec fn cat(parts: Seq<Seq<u8>>) -> Seq<u8>
    decreases parts.len(),
{
    if parts.len() == 0 {
        Seq::empty()
    } else {
        parts[0] + cat(parts.skip(1))
    }
}

/// A frontier in bytes: a zero for the empty one, and else a one, the last leaf and the
/// counted past siblings.
pub open spec fn frontier_bytes(t: TreeV) -> Seq<u8> {
    if t.size == 0 {
        seq![0u8]
    } else {
        seq![1u8] + (t.nodes[0] + (le_bytes((t.nodes.len() - 1) as nat, 8) + cat(t.nodes.skip(1))))
    }
}

/// An owned note in bytes.
pub open spec fn note_bytes(n: OwnedV) -> Seq<u8> {
    le_bytes(n.position, 8) + (n.nullifier + (n.note.recipient + (le_bytes(n.note.value as nat, 8) + (
    n.note.rho + n.note.rseed))))
}

/// Owned notes one after the other.
pub open spec fn notes_bytes(notes: Seq<OwnedV>) -> Seq<u8>
    decreases notes.len(),
{
    if notes.len() == 0 {
        Seq::empty()
    } else {
        note_bytes(notes[0]) + notes_bytes(notes.skip(1))
    }
}

/// What follows the leaves.
pub open spec fn ledger_bytes(notes: Seq<OwnedV>, nullifiers: Seq<Seq<u8>>) -> Seq<u8> {
    le_bytes(notes.len(), 8) + (notes_bytes(notes) + (le_bytes(nullifiers.len(), 8) + cat(
        nullifiers,
    )))
}

/// A wallet in bytes without the version and the tip frontier.
pub open spec fn body_bytes(v: WalletV) -> Seq<u8> {
    le_bytes(v.base.size, 8) + (frontier_bytes(v.base) + (le_bytes(v.size(), 8) + (le_bytes(
        v.leaves.len(),
        8,
    ) + (cat(v.leaves) + ledger_bytes(v.notes, listed(v.spent))))))
}

/// A wallet's checkpoint.
pub open spec fn checkpoint_bytes(v: WalletV) -> Seq<u8> {
    seq![CHECKPOINT_VERSION] + (body_bytes(v) + frontier_bytes(v.tip))
}

/// A wallet's checkpoint in the version before.
pub open spec fn checkpoint_bytes_v3(v: WalletV) -> Seq<u8> {
    seq![CHECKPOINT_VERSION_V3] + body_bytes(v)
}

// ---------------------------------------------------------------------------
// Reading: each reader gives what it read and what is left.

/// The first `n` bytes.
pub open spec fn get(s: Seq<u8>, n: int) -> Option<(Seq<u8>, Seq<u8>)> {
    if n <= s.len() {
        Some((s.take(n), s.skip(n)))
    } else {
        None
    }
}

/// An eight-byte number.
pub open spec fn get_u64(s: Seq<u8>) -> Option<(nat, Seq<u8>)> {
    match get(s, 8) {
        Some((b, rest)) => Some((le_value(b), rest)),
        None => None,
    }
}

/// `n` strings of 32 bytes.
pub open spec fn get_list(s: Seq<u8>, n: nat) -> Option<(Seq<Seq<u8>>, Seq<u8>)>
    decreases n,
{
    if n == 0 {
        Some((Seq::empty(), s))
    } else {
        match get(s, 32) {
            None => None,
            Some((x, rest)) => match get_list(rest, (n - 1) as nat) {
                None => None,
                Some((xs, left)) => Some((seq![x] + xs, left)),
            },
        }
    }
}

/// A frontier of a tree with `size` leaves.
#[verifier::opaque]
pub open spec fn get_frontier(s: Seq<u8>, size: nat) -> Option<(TreeV, Seq<u8>)> {
    match get(s, 1) {
        None => None,
        Some((tag, rest)) => if tag[0] == 0 {
            if size == 0 {
                Some((TreeV::empty(), rest))
            } else {
                None
            }
        } else if tag[0] == 1 {
            match get(rest, 32) {
                None => None,
                Some((leaf, rest)) => match get_u64(rest) {
                    None => None,
                    Some((n, rest)) => match get_list(rest, n) {
                        None => None,
                        Some((ommers, left)) => if size > 0 && frontier_parts_fit(
                            (size - 1) as nat,
                            leaf,
                            ommers,
                        ) {
                            Some((TreeV { size, nodes: seq![leaf] + ommers }, left))
                        } else {
                            None
                        },
                    },
                },
            }
        } else {
            None
        },
    }
}

/// An owned note, whose parts must make a note.
#[verifier::opaque]
pub open spec fn get_note(s: Seq<u8>) -> Option<(OwnedV, Seq<u8>)> {
    match get_u64(s) {
        None => None,
        Some((position, s1)) => match get(s1, 32) {
            None => None,
            Some((nullifier, s2)) => match get(s2, 43) {
                None => None,
                Some((recipient, s3)) => match get_u64(s3) {
                    None => None,
                    Some((value, s4)) => match get(s4, 32) {
                        None => None,
                        Some((rho, s5)) => match get(s5, 32) {
                            None => None,
                            Some((rseed, left)) => {
                                let note = NoteV { recipient, value: value as u64, rho, rseed };
                                if note_valid(note) {
                                    Some((OwnedV { note, position, nullifier }, left))
                                } else {
                                    None
                                }
                            },
                        },
                    },
                },
            },
        },
    }
}

/// `n` owned notes.
pub open spec fn get_notes(s: Seq<u8>, n: nat) -> Option<(Seq<OwnedV>, Seq<u8>)>
    decreases n,
{
    if n == 0 {
        Some((Seq::empty(), s))
    } else {
        match get_note(s) {
            None => None,
            Some((x, rest)) => match get_notes(rest, (n - 1) as nat) {
                None => None,
                Some((xs, left)) => Some((seq![x] + xs, left)),
            },
        }
    }
}

/// What a checkpoint says.
pub struct SavedV {
    pub base: TreeV,
    pub leaves: Seq<Seq<u8>>,
    pub notes: Seq<OwnedV>,
    pub nullifiers: Seq<Seq<u8>>,
}

/// The notes and the spent nullifiers.
#[verifier::opaque]
pub open spec fn get_ledger(s: Seq<u8>) -> Option<((Seq<OwnedV>, Seq<Seq<u8>>), Seq<u8>)> {
    match get_u64(s) {
        None => None,
        Some((n_notes, s1)) => match get_notes(s1, n_notes) {
            None => None,
            Some((notes, s2)) => match get_u64(s2) {
                None => None,
                Some((n_nfs, s3)) => match get_list(s3, n_nfs) {
                    None => None,
                    Some((nullifiers, left)) => Some(((notes, nullifiers), left)),
                },
            },
        },
    }
}

/// Everything between the version and the tip frontier. The stated leaf count must be that
/// of the base and the leaves.
pub open spec fn get_body(s: Seq<u8>) -> Option<(SavedV, Seq<u8>)> {
    match get_u64(s) {
        None => None,
        Some((base_size, s1)) => match get_frontier(s1, base_size) {
            None => None,
            Some((base, s2)) => match get_u64(s2) {
                None => None,
                Some((size, s3)) => match get_u64(s3) {
                    None => None,
                    Some((n, s4)) => match get_list(s4, n) {
                        None => None,
                        Some((leaves, s5)) => match get_ledger(s5) {
                            None => None,
                            Some((ledger, left)) => if size == base_size + n {
                                Some(
                                    (
                                        SavedV {
                                            base,
                                            leaves,
                                            notes: ledger.0,
                                            nullifiers: ledger.1,
                                        },
                                        left,
                                    ),
                                )
                            } else {
                                None
                            },
                        },
                    },
                },
            },
        },
    }
}

impl SavedV {
    /// The leaf count.
    pub open spec fn size(self) -> nat {
        self.base.size + self.leaves.len()
    }

    /// The wallet that resumes from here with a tip tree; it holds no live witnesses yet.
    pub open spec fn resumed(self, fvk: Seq<u8>, tip: TreeV) -> WalletV {
        WalletV {
            fvk,
            base: self.base,
            leaves: self.leaves,
            notes: self.notes,
            tip,
            spent: self.nullifiers.to_set(),
            lag: self.base,
            upto: self.base.size,
            witnesses: Seq::empty(),
        }
    }

    /// The tip tree for a checkpoint without one: the caller's where it has the right leaf
    /// count, and else the replayed leaves (none of them where one is not canonical).
    pub open spec fn tip_for(self, tip: Option<FrontierState>) -> Option<TreeV> {
        match tip {
            Some(fs) if fs.size == self.size() => if fs.consistent() {
                Some(fs.tree())
            } else {
                None
            },
            _ => Some(
                self.base.extend(
                    if all_canonical(self.leaves) {
                        self.leaves
                    } else {
                        Seq::empty()
                    },
                ),
            ),
        }
    }
}

/// The wallet that a checkpoint restores under a viewing key; none where the bytes are no
/// checkpoint of a known version, or some are left over.
pub open spec fn restored(fvk: Seq<u8>, s: Seq<u8>, tip: Option<FrontierState>) -> Option<WalletV> {
    match get(s, 1) {
        None => None,
        Some((version, rest)) => if version[0] != CHECKPOINT_VERSION && version[0]
            != CHECKPOINT_VERSION_V3 {
            None
        } else {
            match get_body(rest) {
                None => None,
                Some((saved, left)) => if version[0] == CHECKPOINT_VERSION {
                    match get_frontier(left, saved.size()) {
                        Some((t, end)) if end.len() == 0 => Some(saved.resumed(fvk, t)),
                        _ => None,
                    }
                } else {
                    match saved.tip_for(tip) {
                        Some(t) if left.len() == 0 => Some(saved.resumed(fvk, t)),
                        _ => None,
                    }
                },
            }
        },
    }
}

/// A forward byte reader: every read is checked and gives `None` past the end.
pub struct Cursor<'a> {
    pub buf: &'a [u8],
    pub pos: usize,
}

impl<'a> Cursor<'a> {
    /// What is left to read.
    pub open spec fn rest(&self) -> Seq<u8> {
        self.buf@.skip(self.pos as int)
    }

    /// The position is within the input.
    pub open spec fn wf(&self) -> bool {
        self.pos <= self.buf@.len()
    }

    /// Takes the next `n` bytes.
    pub fn take(&mut self, n: usize) -> (r: Option<&'a [u8]>)
        requires
            old(self).wf(),
        ensures
            final(self).wf(),
            match (r, get(old(self).rest(), n as int)) {
                (Some(b), Some((x, left))) => b@ == x && final(self).rest() == left,
                (None, None) => true,
                _ => false,
            },
    {
        if n > self.buf.len() - self.pos {
            return None;
        }
        let end: usize = self.pos + n;
        let s: &'a [u8] = &self.buf[self.pos..end];
        self.pos = end;
        proof {
            assert(s@ =~= old(self).rest().take(n as int));
            assert(self.rest() =~= old(self).rest().skip(n as int));
        }
        Some(s)
    }

    /// Takes one byte.
    pub fn u8(&mut self) -> (r: Option<u8>)
        requires
            old(self).wf(),
        ensures
            final(self).wf(),
            match (r, get(old(self).rest(), 1)) {
                (Some(b), Some((x, left))) => b == x[0] && final(self).rest() == left,
                (None, None) => true,
                _ => false,
            },
    {
        let s: &'a [u8] = self.take(1)?;
        Some(s[0])
    }

    /// Takes an eight-byte number.
    pub fn u64(&mut self) -> (r: Option<u64>)
        requires
            old(self).wf(),
        ensures
            final(self).wf(),
            match (r, get_u64(old(self).rest())) {
                (Some(n), Some((x, left))) => n == x && final(self).rest() == left,
                (None, None) => true,
                _ => false,
            },
    {
        let s: &'a [u8] = self.take(8)?;
        proof {
            lemma_le_value_bound(s@);
            lemma_pow256();
        }
        Some(le_of(s) as u64)
    }

    /// Takes the next `N` bytes into an array.
    pub fn arr<const N: usize>(&mut self) -> (r: Option<[u8; N]>)
        requires
            old(self).wf(),
        ensures
            final(self).wf(),
            match (r, get(old(self).rest(), N as int)) {
                (Some(b), Some((x, left))) => b@ == x && final(self).rest() == left,
                (None, None) => true,
                _ => false,
            },
    {
        let s: &'a [u8] = self.take(N)?;
        Some(to_array::<N>(s))
    }

    /// Whether nothing is left to read.
    pub fn done(&self) -> (r: bool)
        requires
            self.wf(),
        ensures
            r == (self.rest().len() == 0),
    {
        self.pos == self.buf.len()
    }

    /// Takes `n` strings of 32 bytes.
    fn list(&mut self, n: u64) -> (r: Option<Vec<[u8; 32]>>)
        requires
            old(self).wf(),
        ensures
            final(self).wf(),
            match (r, get_list(old(self).rest(), n as nat)) {
                (Some(v), Some((xs, left))) => views32(v@) == xs && final(self).rest() == left
                    && v@.len() == n,
                (None, None) => true,
                _ => false,
            },
    {
        let ghost whole = get_list(self.rest(), n as nat);
        let mut out: Vec<[u8; 32]> = Vec::new();
        let mut i: u64 = 0;
        proof {
            assert(views32(out@) =~= Seq::<Seq<u8>>::empty());
            if whole is Some {
                assert(views32(out@) + whole->Some_0.0 =~= whole->Some_0.0);
            }
        }
        while i < n
            invariant
                0 <= i <= n,
                self.wf(),
                out@.len() == i,
                match get_list(self.rest(), (n - i) as nat) {
                    Some((xs, left)) => whole == Some((views32(out@) + xs, left)),
                    None => whole is None,
                },
                whole == get_list(old(self).rest(), n as nat),
            decreases n - i,
        {
            let ghost here = self.rest();
            let x: [u8; 32] = match self.arr::<32>() {
                Some(x) => x,
                None => {
                    return None;
                },
            };
            let ghost before = out@;
            out.push(x);
            proof {
                lemma_views32_push(before, x);
                match get_list(self.rest(), (n - i - 1) as nat) {
                    Some((xs, left)) => {
                        assert(views32(before) + (seq![x@] + xs) =~= views32(out@) + xs);
                    },
                    None => {},
                }
            }
            i = i + 1;
        }
        assert(views32(out@) + Seq::<Seq<u8>>::empty() =~= views32(out@));
        Some(out)
    }

    /// Takes an owned note.
    fn note(&mut self) -> (r: Option<OwnedNote>)
        requires
            old(self).wf(),
        ensures
            final(self).wf(),
            match (r, get_note(old(self).rest())) {
                (Some(n), Some((x, left))) => n@ == x && final(self).rest() == left,
                (None, None) => true,
                _ => false,
            },
    {
        proof {
            reveal(get_note);
        }
        let position: u64 = self.u64()?;
        let nullifier: [u8; 32] = self.arr::<32>()?;
        let recipient: [u8; 43] = self.arr::<43>()?;
        let value: u64 = self.u64()?;
        let rho: [u8; 32] = self.arr::<32>()?;
        let rseed: [u8; 32] = self.arr::<32>()?;
        match Note::from_parts(&recipient, value, &rho, &rseed) {
            Ok(note) => Some(OwnedNote { note, position, nullifier }),
            Err(_) => None,
        }
    }

    /// Takes `n` owned notes.
    fn notes(&mut self, n: u64) -> (r: Option<Vec<OwnedNote>>)
        requires
            old(self).wf(),
        ensures
            final(self).wf(),
            match (r, get_notes(old(self).rest(), n as nat)) {
                (Some(v), Some((xs, left))) => owned_views(v@) == xs && final(self).rest() == left,
                (None, None) => true,
                _ => false,
            },
    {
        let ghost whole = get_notes(self.rest(), n as nat);
        let mut out: Vec<OwnedNote> = Vec::new();
        let mut i: u64 = 0;
        proof {
            assert(owned_views(out@) =~= Seq::<OwnedV>::empty());
            if whole is Some {
                assert(owned_views(out@) + whole->Some_0.0 =~= whole->Some_0.0);
            }
        }
        while i < n
            invariant
                0 <= i <= n,
                self.wf(),
                match get_notes(self.rest(), (n - i) as nat) {
                    Some((xs, left)) => whole == Some((owned_views(out@) + xs, left)),
                    None => whole is None,
                },
                whole == get_notes(old(self).rest(), n as nat),
            decreases n - i,
        {
            let x: OwnedNote = match self.note() {
                Some(x) => x,
                None => {
                    return None;
                },
            };
            let ghost before = out@;
            out.push(x);
            proof {
                assert(owned_views(out@) =~= owned_views(before).push(x@));
                match get_notes(self.rest(), (n - i - 1) as nat) {
                    Some((xs, left)) => {
                        assert(owned_views(before) + (seq![x@] + xs) =~= owned_views(out@) + xs);
                    },
                    None => {},
                }
            }
            i = i + 1;
        }
        assert(owned_views(out@) + Seq::<OwnedV>::empty() =~= owned_views(out@));
        Some(out)
    }
}

/// Reads a frontier of a tree with `size` leaves.
fn read_frontier(r: &mut Cursor<'_>, size: u64) -> (f: Option<NoteFrontier>)
    requires
        old(r).wf(),
    ensures
        final(r).wf(),
        match (f, get_frontier(old(r).rest(), size as nat)) {
            (Some(f), Some((t, left))) => tree_of(f) == t && final(r).rest() == left,
            (None, None) => true,
            _ => false,
        },
{
    proof {
        reveal(get_frontier);
    }
    let tag: u8 = r.u8()?;
    if tag == 0 {
        if size == 0 {
            return Some(frontier_empty());
        }
        return None;
    }
    if tag != 1 {
        return None;
    }
    let leaf: [u8; 32] = r.arr::<32>()?;
    let n: u64 = r.u64()?;
    let ommers: Vec<[u8; 32]> = r.list(n)?;
    let state: FrontierState = FrontierState { size, leaf: Some(leaf), ommers };
    match GlobalTree::from_state(&state) {
        Ok(gt) => Some(frontier_clone(gt.frontier())),
        Err(_) => None,
    }
}

/// Writes 32-byte strings one after the other.
fn write_list(out: &mut Vec<u8>, list: &[[u8; 32]])
    ensures
        final(out)@ == old(out)@ + cat(views32(list@)),
{
    let ghost all = views32(list@);
    let mut i: usize = 0;
    assert(all.skip(0) =~= all);
    while i < list.len()
        invariant
            0 <= i <= list@.len(),
            all == views32(list@),
            out@ + cat(all.skip(i as int)) == old(out)@ + cat(all),
        decreases list@.len() - i,
    {
        let ghost before = out@;
        push_all(out, &list[i]);
        proof {
            let tail = all.skip(i as int);
            assert(tail[0] == list@[i as int]@);
            assert(tail.skip(1) =~= all.skip(i + 1));
            assert(before + (tail[0] + cat(tail.skip(1))) =~= out@ + cat(all.skip(i + 1)));
        }
        i = i + 1;
    }
    assert(all.skip(i as int) =~= Seq::<Seq<u8>>::empty());
    assert(out@ + Seq::<u8>::empty() =~= out@);
}

/// Writes a frontier, whose parts fit together.
fn write_frontier(out: &mut Vec<u8>, f: &NoteFrontier)
    ensures
        final(out)@ == old(out)@ + frontier_bytes(tree_of(*f)),
        frontier_tree(tree_of(*f)),
{
    match frontier_value(f) {
        None => {
            out.push(0);
            assert(out@ =~= old(out)@ + seq![0u8]);
        },
        Some((leaf, ommers)) => {
            out.push(1);
            push_all(out, &leaf);
            push_le(out, ommers.len() as u128, 8);
            write_list(out, ommers.as_slice());
            proof {
                let t = tree_of(*f);
                assert(t.nodes.skip(1) =~= views32(ommers@));
                assert(out@ =~= old(out)@ + frontier_bytes(t));
            }
        },
    }
}

/// The tree is empty, or its nodes are those of a frontier at its last leaf.
pub open spec fn frontier_tree(t: TreeV) -> bool {
    ||| t == TreeV::empty()
    ||| t.size > 0 && t.nodes.len() > 0 && frontier_parts_fit(
        (t.size - 1) as nat,
        t.nodes[0],
        t.nodes.skip(1),
    )
}

/// A number below a power of two has at most as many ones as the exponent.
proof fn lemma_ones_bound(n: nat, bits: nat)
    requires
        n < vstd::arithmetic::power2::pow2(bits),
    ensures
        crate::tree::ones(n) <= bits,
    decreases bits,
{
    if bits == 0 {
        vstd::arithmetic::power2::lemma2_to64();
    } else if n > 0 {
        vstd::arithmetic::power2::lemma_pow2_unfold(bits);
        lemma_ones_bound(n / 2, (bits - 1) as nat);
    }
}

impl WalletDb {
    /// Writes the wallet's scanned state. What it writes restores to the same state, as
    /// long as the stream's leaves are canonical and within the tree.
    pub fn to_checkpoint(&self) -> (out: Vec<u8>)
        requires
            self.wf(),
        ensures
            out@ == checkpoint_bytes(self@),
            all_canonical(self@.leaves) && self@.size() <= TREE_CAPACITY ==> storable(self@)
                && restored(self@.fvk, out@, None) == Some(without_witnesses(self@)),
    {
        let ghost v = self@;
        let mut out: Vec<u8> = Vec::new();
        out.push(CHECKPOINT_VERSION);
        push_le(&mut out, self.base_size as u128, 8);
        write_frontier(&mut out, &self.base_frontier);
        push_le(&mut out, self.size as u128, 8);
        push_le(&mut out, self.leaves.len() as u128, 8);
        write_list(&mut out, self.leaves.as_slice());
        let ghost head = out@;
        push_le(&mut out, self.notes.len() as u128, 8);
        self.write_notes(&mut out);
        let nfs: &Vec<[u8; 32]> = self.spent_nullifiers.items();
        push_le(&mut out, nfs.len() as u128, 8);
        write_list(&mut out, nfs.as_slice());
        proof {
            lemma_listed(self.spent_nullifiers.sorted());
            let l = listed(v.spent);
            assert(views32(nfs@) == l);
            assert(out@ =~= head + ledger_bytes(v.notes, l));
            assert(head =~= seq![CHECKPOINT_VERSION] + le_bytes(v.base.size, 8) + frontier_bytes(v.base)
                + le_bytes(v.size(), 8) + le_bytes(v.leaves.len(), 8) + cat(v.leaves));
            lemma_assoc(
                seq![CHECKPOINT_VERSION],
                le_bytes(v.base.size, 8),
                frontier_bytes(v.base),
                le_bytes(v.size(), 8),
                le_bytes(v.leaves.len(), 8),
                cat(v.leaves),
                ledger_bytes(v.notes, l),
            );
            assert(out@ == seq![CHECKPOINT_VERSION] + body_bytes(v));
        }
        let tip: NoteFrontier = mirror_to_frontier(&self.tree);
        write_frontier(&mut out, &tip);
        proof {
            assert(tree_of(tip) == v.tip);
            assert(out@ =~= checkpoint_bytes(v));
            assert forall|i: int| 0 <= i < v.leaves.len() implies (#[trigger] v.leaves[i]).len() == 32 by {}
            assert forall|i: int| 0 <= i < listed(v.spent).len() implies (#[trigger] listed(v.spent)[i]).len() == 32 by {
                assert(listed(v.spent)[i] == nfs@[i]@);
            }
            if storable(v) {
                checkpoints_round_trip(v, None);
            }
        }
        out
    }

    /// Writes the owned notes, each of which is a valid note.
    fn write_notes(&self, out: &mut Vec<u8>)
        ensures
            final(out)@ == old(out)@ + notes_bytes(self@.notes),
            forall|i: int| 0 <= i < self@.notes.len() ==> note_storable(#[trigger] self@.notes[i]),
    {
        let ghost all = self@.notes;
        let mut i: usize = 0;
        assert(all.skip(0) =~= all);
        while i < self.notes.len()
            invariant
                0 <= i <= self.notes@.len(),
                all == owned_views(self.notes@),
                out@ + notes_bytes(all.skip(i as int)) == old(out)@ + notes_bytes(all),
                forall|j: int| 0 <= j < i ==> note_storable(#[trigger] all[j]),
            decreases self.notes@.len() - i,
        {
            let n: OwnedNote = self.notes[i];
            let ghost before = out@;
            push_le(out, n.position as u128, 8);
            push_all(out, &n.nullifier);
            push_all(out, &n.note.recipient());
            push_le(out, n.note.value() as u128, 8);
            push_all(out, &n.note.rho());
            push_all(out, &n.note.rseed());
            proof {
                let tail = all.skip(i as int);
                assert(tail[0] == n@);
                assert(tail.skip(1) =~= all.skip(i + 1));
                assert(out@ =~= before + note_bytes(n@));
                assert(before + (note_bytes(tail[0]) + notes_bytes(tail.skip(1))) =~= out@
                    + notes_bytes(all.skip(i + 1)));
                assert(all[i as int] == n@);
            }
            i = i + 1;
        }
        assert(all.skip(i as int) =~= Seq::<OwnedV>::empty());
        assert(out@ + Seq::<u8>::empty() =~= out@);
    }

    /// Rebuilds a wallet from its seed and a checkpoint. `None` where the seed is no
    /// spending key or the bytes are no checkpoint.
    pub fn from_checkpoint(seed: [u8; 32], bytes: &[u8]) -> (r: Option<Self>)
        ensures
            r is Some ==> r->Some_0.wf(),
            wallet_view(r) == (match fvk_of_seed(seed@) {
                Some(fvk) => restored(fvk, bytes@, None),
                None => None,
            }),
    {
        match WalletDb::from_seed(seed) {
            Some(db) => WalletDb::restore(db, bytes, None),
            None => None,
        }
    }

    /// [`from_checkpoint`](Self::from_checkpoint) with the tip tree supplied by the caller,
    /// for a checkpoint that has none.
    pub fn from_checkpoint_with_tip(seed: [u8; 32], bytes: &[u8], tip: &FrontierState) -> (r: Option<
        Self,
    >)
        ensures
            r is Some ==> r->Some_0.wf(),
            wallet_view(r) == (match fvk_of_seed(seed@) {
                Some(fvk) => restored(fvk, bytes@, Some(*tip)),
                None => None,
            }),
    {
        match WalletDb::from_seed(seed) {
            Some(db) => WalletDb::restore(db, bytes, Some(tip)),
            None => None,
        }
    }

    /// [`from_checkpoint_with_tip`](Self::from_checkpoint_with_tip) for a watch-only wallet.
    pub fn from_checkpoint_fvk_with_tip(
        fvk_bytes: &[u8; 96],
        bytes: &[u8],
        tip: &FrontierState,
    ) -> (r: Option<Self>)
        ensures
            r is Some ==> r->Some_0.wf(),
            wallet_view(r) == (if viewing_key(fvk_bytes@) {
                restored(fvk_bytes@, bytes@, Some(*tip))
            } else {
                None
            }),
    {
        match WalletDb::from_fvk(fvk_bytes) {
            Some(db) => WalletDb::restore(db, bytes, Some(tip)),
            None => None,
        }
    }

    /// [`from_checkpoint`](Self::from_checkpoint) for a watch-only wallet.
    pub fn from_checkpoint_fvk(fvk_bytes: &[u8; 96], bytes: &[u8]) -> (r: Option<Self>)
        ensures
            r is Some ==> r->Some_0.wf(),
            wallet_view(r) == (if viewing_key(fvk_bytes@) {
                restored(fvk_bytes@, bytes@, None)
            } else {
                None
            }),
    {
        match WalletDb::from_fvk(fvk_bytes) {
            Some(db) => WalletDb::restore(db, bytes, None),
            None => None,
        }
    }

    fn restore(mut db: Self, bytes: &[u8], tip: Option<&FrontierState>) -> (r: Option<Self>)
        requires
            db.wf(),
            db@ == WalletV::fresh(db@.fvk),
        ensures
            r is Some ==> r->Some_0.wf(),
            wallet_view(r) == restored(
                db@.fvk,
                bytes@,
                match tip {
                    Some(fs) => Some(*fs),
                    None => None,
                },
            ),
    {
        let ghost fvk = db@.fvk;
        let mut r: Cursor = Cursor { buf: bytes, pos: 0 };
        assert(r.rest() =~= bytes@);
        let version: u8 = r.u8()?;
        if version != CHECKPOINT_VERSION && version != CHECKPOINT_VERSION_V3 {
            return None;
        }
        let base_size: u64 = r.u64()?;
        let base_frontier: NoteFrontier = read_frontier(&mut r, base_size)?;
        let size: u64 = r.u64()?;
        let n_leaves: u64 = r.u64()?;
        let leaves: Vec<[u8; 32]> = r.list(n_leaves)?;
        proof {
            reveal(get_ledger);
        }
        let n_notes: u64 = r.u64()?;
        let notes: Vec<OwnedNote> = r.notes(n_notes)?;
        let n_nfs: u64 = r.u64()?;
        let nfs: Vec<[u8; 32]> = r.list(n_nfs)?;
        if size < base_size || size - base_size != n_leaves {
            return None;
        }
        let ghost saved = SavedV {
            base: tree_of(base_frontier),
            leaves: views32(leaves@),
            notes: owned_views(notes@),
            nullifiers: views32(nfs@),
        };
        proof {
            reveal(get_frontier);
        }
        let size_checked: u64 = frontier_tree_size(&base_frontier);
        assert(size_checked == base_size);
        let mut spent: MemNullifierSet = MemNullifierSet::new();
        spent.extend(nfs.as_slice());
        assert(spent@ =~= saved.nullifiers.to_set());
        let decodes: bool = all_decode(leaves.as_slice());
        let tree: NoteTree = if version == CHECKPOINT_VERSION {
            let tip_frontier: NoteFrontier = read_frontier(&mut r, size)?;
            mirror_from_frontier(&tip_frontier)
        } else {
            match tip {
                Some(fs) if fs.size == size => {
                    let gt: GlobalTree = match GlobalTree::from_state(fs) {
                        Ok(gt) => gt,
                        Err(_) => {
                            return None;
                        },
                    };
                    mirror_from_frontier(gt.frontier())
                },
                _ => replay(&base_frontier, leaves.as_slice(), decodes),
            }
        };
        if !r.done() {
            return None;
        }
        let lag_tree: NoteTree = mirror_from_frontier(&base_frontier);
        db.base_frontier = base_frontier;
        db.base_size = base_size;
        db.lag_tree = lag_tree;
        db.witnessed_upto = base_size;
        db.witnesses.clear();
        db.leaves = leaves;
        db.notes = notes;
        db.spent_nullifiers = spent;
        db.tree = tree;
        db.size = size;
        proof {
            assert(db@.witnesses =~= Seq::<(nat, WitnessV)>::empty());
            assert(db@ == saved.resumed(fvk, mirrored(tree)));
            assert(db@.leaves.take(0) =~= Seq::<Seq<u8>>::empty());
            if all_canonical(saved.leaves) && saved.size() <= TREE_CAPACITY {
                lemma_extend_size(saved.base, saved.leaves);
            }
            assert(db.wf());
        }
        Some(db)
    }
}

/// What a restored wallet holds.
pub open spec fn wallet_view(r: Option<WalletDb>) -> Option<WalletV> {
    match r {
        Some(db) => Some(db@),
        None => None,
    }
}

/// Whether every string is a tree node.
fn all_decode(list: &[[u8; 32]]) -> (r: bool)
    ensures
        r == all_canonical(views32(list@)),
{
    let ghost all = views32(list@);
    let mut i: usize = 0;
    while i < list.len()
        invariant
            0 <= i <= list@.len(),
            all == views32(list@),
            forall|j: int| 0 <= j < i ==> canonical_base(#[trigger] all[j]),
        decreases list@.len() - i,
    {
        assert(all[i as int] == list@[i as int]@);
        if ExtractedNoteCommitment::from_bytes(&list[i]).is_none() {
            return false;
        }
        i = i + 1;
    }
    true
}

/// The tree of a frontier with leaves appended, where they are tree nodes.
fn replay(base: &NoteFrontier, leaves: &[[u8; 32]], decodes: bool) -> (t: NoteTree)
    requires
        decodes == all_canonical(views32(leaves@)),
    ensures
        mirrored(t) == tree_of(*base).extend(
            if decodes {
                views32(leaves@)
            } else {
                Seq::empty()
            },
        ),
{
    let mut t: NoteTree = mirror_from_frontier(base);
    if !decodes {
        return t;
    }
    let ghost all = views32(leaves@);
    let mut i: usize = 0;
    assert(all.take(0) =~= Seq::<Seq<u8>>::empty());
    while i < leaves.len()
        invariant
            0 <= i <= leaves@.len(),
            all == views32(leaves@),
            all_canonical(all),
            mirrored(t) == tree_of(*base).extend(all.take(i as int)),
        decreases leaves@.len() - i,
    {
        proof {
            assert(all[i as int] == leaves@[i as int]@);
            assert(canonical_base(all[i as int]));
            assert(all.take(i + 1).drop_last() =~= all.take(i as int));
        }
        mirror_append(&mut t, &leaves[i]);
        i = i + 1;
    }
    assert(all.take(i as int) =~= all);
    t
}

proof fn lemma_assoc(
    a: Seq<u8>,
    b: Seq<u8>,
    c: Seq<u8>,
    d: Seq<u8>,
    e: Seq<u8>,
    f: Seq<u8>,
    g: Seq<u8>,
)
    ensures
        a + b + c + d + e + f + g == a + (b + (c + (d + (e + (f + g))))),
{
    assert(a + b + c + d + e + f + g =~= a + (b + (c + (d + (e + (f + g))))));
}

// ---------------------------------------------------------------------------
// Reading gives back what was written.

/// An owned note can be stored: its parts are sized and make a note.
pub open spec fn note_storable(n: OwnedV) -> bool {
    &&& n.position <= u64::MAX
    &&& n.nullifier.len() == 32
    &&& n.note.recipient.len() == 43
    &&& n.note.rho.len() == 32
    &&& n.note.rseed.len() == 32
    &&& note_valid(n.note)
}

/// A wallet can be stored: its trees are those of frontiers, the tip has all its leaves,
/// and everything that is written has its size.
pub open spec fn storable(v: WalletV) -> bool {
    &&& frontier_tree(v.base)
    &&& frontier_tree(v.tip)
    &&& v.tip.size == v.size()
    &&& v.size() <= u64::MAX
    &&& v.notes.len() <= u64::MAX
    &&& listed(v.spent).len() <= u64::MAX
    &&& listed(v.spent).to_set() == v.spent
    &&& forall|i: int| 0 <= i < v.leaves.len() ==> (#[trigger] v.leaves[i]).len() == 32
    &&& forall|i: int| 0 <= i < v.notes.len() ==> note_storable(#[trigger] v.notes[i])
    &&& forall|i: int|
        0 <= i < listed(v.spent).len() ==> (#[trigger] listed(v.spent)[i]).len() == 32
}

/// What a wallet resumes with: everything but its live witnesses.
pub open spec fn without_witnesses(v: WalletV) -> WalletV {
    WalletV { lag: v.base, upto: v.base.size, witnesses: Seq::empty(), ..v }
}

pub(crate) proof fn lemma_get(x: Seq<u8>, rest: Seq<u8>)
    ensures
        get(x + rest, x.len() as int) == Some((x, rest)),
{
    assert((x + rest).take(x.len() as int) =~= x);
    assert((x + rest).skip(x.len() as int) =~= rest);
}

pub(crate) proof fn lemma_get_u64(n: nat, rest: Seq<u8>)
    requires
        n <= u64::MAX,
    ensures
        get_u64(le_bytes(n, 8) + rest) == Some((n, rest)),
{
    lemma_le_bytes_len(n, 8);
    lemma_pow256();
    lemma_le_value_of_bytes(n, 8);
    lemma_get(le_bytes(n, 8), rest);
}

proof fn lemma_get_list(list: Seq<Seq<u8>>, rest: Seq<u8>)
    requires
        forall|i: int| 0 <= i < list.len() ==> (#[trigger] list[i]).len() == 32,
    ensures
        get_list(cat(list) + rest, list.len()) == Some((list, rest)),
    decreases list.len(),
{
    if list.len() == 0 {
        assert(cat(list) + rest =~= rest);
        assert(list =~= Seq::<Seq<u8>>::empty());
    } else {
        let tail = list.skip(1);
        assert(list[0].len() == 32);
        assert forall|i: int| 0 <= i < tail.len() implies (#[trigger] tail[i]).len() == 32 by {
            assert(tail[i] == list[i + 1]);
        }
        lemma_get_list(tail, rest);
        assert(cat(list) + rest =~= list[0] + (cat(tail) + rest));
        lemma_get(list[0], cat(tail) + rest);
        assert(seq![list[0]] + tail =~= list);
    }
}

proof fn lemma_get_frontier(t: TreeV, rest: Seq<u8>)
    requires
        frontier_tree(t),
    ensures
        get_frontier(frontier_bytes(t) + rest, t.size) == Some((t, rest)),
{
    reveal(get_frontier);
    if t.size == 0 {
        lemma_get(seq![0u8], rest);
        assert(t == TreeV::empty());
    } else {
        let leaf = t.nodes[0];
        let ommers = t.nodes.skip(1);
        let n = ommers.len();
        vstd::arithmetic::power2::lemma2_to64();
        lemma_ones_bound((t.size - 1) as nat, 32);
        let r3 = cat(ommers) + rest;
        let r2 = le_bytes(n, 8) + r3;
        let r1 = leaf + r2;
        assert(frontier_bytes(t) + rest =~= seq![1u8] + r1);
        lemma_get(seq![1u8], r1);
        assert(seq![1u8].len() == 1);
        lemma_get(leaf, r2);
        lemma_get_u64(n, r3);
        assert forall|i: int| 0 <= i < ommers.len() implies (#[trigger] ommers[i]).len() == 32 by {
            assert(canonical_base(ommers[i]));
        }
        lemma_get_list(ommers, rest);
        assert(seq![leaf] + ommers =~= t.nodes);
    }
}

proof fn lemma_get_note(n: OwnedV, rest: Seq<u8>)
    requires
        note_storable(n),
    ensures
        get_note(note_bytes(n) + rest) == Some((n, rest)),
{
    reveal(get_note);
    let r5 = n.note.rseed + rest;
    let r4 = n.note.rho + r5;
    let r3 = le_bytes(n.note.value as nat, 8) + r4;
    let r2 = n.note.recipient + r3;
    let r1 = n.nullifier + r2;
    assert(note_bytes(n) + rest =~= le_bytes(n.position, 8) + r1);
    lemma_get_u64(n.position, r1);
    lemma_get(n.nullifier, r2);
    lemma_get(n.note.recipient, r3);
    lemma_get_u64(n.note.value as nat, r4);
    lemma_get(n.note.rho, r5);
    lemma_get(n.note.rseed, rest);
}

proof fn lemma_get_notes(notes: Seq<OwnedV>, rest: Seq<u8>)
    requires
        forall|i: int| 0 <= i < notes.len() ==> note_storable(#[trigger] notes[i]),
    ensures
        get_notes(notes_bytes(notes) + rest, notes.len()) == Some((notes, rest)),
    decreases notes.len(),
{
    if notes.len() == 0 {
        assert(notes_bytes(notes) + rest =~= rest);
        assert(notes =~= Seq::<OwnedV>::empty());
    } else {
        let tail = notes.skip(1);
        assert(note_storable(notes[0]));
        assert forall|i: int| 0 <= i < tail.len() implies note_storable(#[trigger] tail[i]) by {
            assert(tail[i] == notes[i + 1]);
        }
        lemma_get_notes(tail, rest);
        lemma_assoc3(note_bytes(notes[0]), notes_bytes(tail), rest);
        lemma_get_note(notes[0], notes_bytes(tail) + rest);
        assert(seq![notes[0]] + tail =~= notes);
    }
}

proof fn lemma_assoc3(a: Seq<u8>, b: Seq<u8>, c: Seq<u8>)
    ensures
        (a + b) + c == a + (b + c),
{
    assert((a + b) + c =~= a + (b + c));
}

proof fn lemma_get_ledger(notes: Seq<OwnedV>, l: Seq<Seq<u8>>, rest: Seq<u8>)
    requires
        notes.len() <= u64::MAX,
        l.len() <= u64::MAX,
        forall|i: int| 0 <= i < notes.len() ==> note_storable(#[trigger] notes[i]),
        forall|i: int| 0 <= i < l.len() ==> (#[trigger] l[i]).len() == 32,
    ensures
        get_ledger(ledger_bytes(notes, l) + rest) == Some(((notes, l), rest)),
{
    reveal(get_ledger);
    let a = le_bytes(notes.len(), 8);
    let b = notes_bytes(notes);
    let c = le_bytes(l.len(), 8);
    let d = cat(l);
    lemma_assoc3(a, b + (c + d), rest);
    lemma_assoc3(b, c + d, rest);
    lemma_assoc3(c, d, rest);
    lemma_get_u64(notes.len(), b + (c + (d + rest)));
    lemma_get_notes(notes, c + (d + rest));
    lemma_get_u64(l.len(), d + rest);
    lemma_get_list(l, rest);
}

proof fn lemma_get_body(v: WalletV, rest: Seq<u8>)
    requires
        storable(v),
    ensures
        get_body(body_bytes(v) + rest) == Some(
            (
                SavedV {
                    base: v.base,
                    leaves: v.leaves,
                    notes: v.notes,
                    nullifiers: listed(v.spent),
                },
                rest,
            ),
        ),
{
    let l = listed(v.spent);
    let a = le_bytes(v.base.size, 8);
    let b = frontier_bytes(v.base);
    let c = le_bytes(v.size(), 8);
    let d = le_bytes(v.leaves.len(), 8);
    let e = cat(v.leaves);
    let f = ledger_bytes(v.notes, l);
    lemma_assoc3(a, b + (c + (d + (e + f))), rest);
    lemma_assoc3(b, c + (d + (e + f)), rest);
    lemma_assoc3(c, d + (e + f), rest);
    lemma_assoc3(d, e + f, rest);
    lemma_assoc3(e, f, rest);
    lemma_get_u64(v.base.size, b + (c + (d + (e + (f + rest)))));
    lemma_get_frontier(v.base, c + (d + (e + (f + rest))));
    lemma_get_u64(v.size(), d + (e + (f + rest)));
    lemma_get_u64(v.leaves.len(), e + (f + rest));
    lemma_get_list(v.leaves, f + rest);
    lemma_get_ledger(v.notes, l, rest);
}

/// A checkpoint restores what was saved: the wallet comes back with the same stream, notes,
/// trees and spent nullifiers, under whichever form of its key. Only the live witnesses
/// start anew.
pub proof fn checkpoints_round_trip(v: WalletV, tip: Option<FrontierState>)
    requires
        storable(v),
    ensures
        restored(v.fvk, checkpoint_bytes(v), tip) == Some(without_witnesses(v)),
{
    lemma_get(seq![CHECKPOINT_VERSION], body_bytes(v) + frontier_bytes(v.tip));
    lemma_get_body(v, frontier_bytes(v.tip));
    assert(frontier_bytes(v.tip) + Seq::<u8>::empty() =~= frontier_bytes(v.tip));
    lemma_get_frontier(v.tip, Seq::empty());
}

/// A checkpoint of the version before restores to the same wallet as one of this version,
/// where the tip tree is the tree of the stream.
pub proof fn older_checkpoints_restore_alike(v: WalletV)
    requires
        storable(v),
        all_canonical(v.leaves),
        v.tip == v.base.extend(v.leaves),
    ensures
        restored(v.fvk, checkpoint_bytes_v3(v), None) == restored(
            v.fvk,
            checkpoint_bytes(v),
            None,
        ),
{
    checkpoints_round_trip(v, None);
    assert(body_bytes(v) + Seq::<u8>::empty() =~= body_bytes(v));
    lemma_get(seq![CHECKPOINT_VERSION_V3], body_bytes(v));
    lemma_get_body(v, Seq::empty());
}

/// A checkpoint with anything behind it is refused.
pub proof fn checkpoints_with_trailing_bytes_are_refused(
    v: WalletV,
    extra: Seq<u8>,
    tip: Option<FrontierState>,
)
    requires
        storable(v),
        extra.len() > 0,
    ensures
        restored(v.fvk, checkpoint_bytes(v) + extra, tip) is None,
{
    let rest = body_bytes(v) + (frontier_bytes(v.tip) + extra);
    assert(checkpoint_bytes(v) + extra =~= seq![CHECKPOINT_VERSION] + rest);
    lemma_get(seq![CHECKPOINT_VERSION], rest);
    lemma_get_body(v, frontier_bytes(v.tip) + extra);
    lemma_get_frontier(v.tip, extra);
}

proof fn lemma_get_more(s: Seq<u8>, n: int, t: Seq<u8>)
    requires
        0 <= n,
        get(s, n) is Some,
    ensures
        get(s + t, n) == Some((get(s, n)->Some_0.0, get(s, n)->Some_0.1 + t)),
{
    assert((s + t).take(n) =~= s.take(n));
    assert((s + t).skip(n) =~= s.skip(n) + t);
}

proof fn lemma_get_list_more(s: Seq<u8>, n: nat, t: Seq<u8>)
    requires
        get_list(s, n) is Some,
    ensures
        get_list(s + t, n) == Some((get_list(s, n)->Some_0.0, get_list(s, n)->Some_0.1 + t)),
    decreases n,
{
    if n > 0 {
        lemma_get_more(s, 32, t);
        lemma_get_list_more(get(s, 32)->Some_0.1, (n - 1) as nat, t);
    }
}

proof fn lemma_get_frontier_more(s: Seq<u8>, size: nat, t: Seq<u8>)
    requires
        get_frontier(s, size) is Some,
    ensures
        get_frontier(s + t, size) == Some(
            (get_frontier(s, size)->Some_0.0, get_frontier(s, size)->Some_0.1 + t),
        ),
{
    reveal(get_frontier);
    lemma_get_more(s, 1, t);
    let (tag, s1) = get(s, 1)->Some_0;
    if tag[0] != 0 {
        lemma_get_more(s1, 32, t);
        let s2 = get(s1, 32)->Some_0.1;
        lemma_get_more(s2, 8, t);
        let (n, s3) = get_u64(s2)->Some_0;
        lemma_get_list_more(s3, n, t);
    }
}

proof fn lemma_get_note_more(s: Seq<u8>, t: Seq<u8>)
    requires
        get_note(s) is Some,
    ensures
        get_note(s + t) == Some((get_note(s)->Some_0.0, get_note(s)->Some_0.1 + t)),
{
    reveal(get_note);
    lemma_get_more(s, 8, t);
    let s1 = get(s, 8)->Some_0.1;
    lemma_get_more(s1, 32, t);
    let s2 = get(s1, 32)->Some_0.1;
    lemma_get_more(s2, 43, t);
    let s3 = get(s2, 43)->Some_0.1;
    lemma_get_more(s3, 8, t);
    let s4 = get(s3, 8)->Some_0.1;
    lemma_get_more(s4, 32, t);
    let s5 = get(s4, 32)->Some_0.1;
    lemma_get_more(s5, 32, t);
}

proof fn lemma_get_notes_more(s: Seq<u8>, n: nat, t: Seq<u8>)
    requires
        get_notes(s, n) is Some,
    ensures
        get_notes(s + t, n) == Some((get_notes(s, n)->Some_0.0, get_notes(s, n)->Some_0.1 + t)),
    decreases n,
{
    if n > 0 {
        lemma_get_note_more(s, t);
        lemma_get_notes_more(get_note(s)->Some_0.1, (n - 1) as nat, t);
    }
}

proof fn lemma_get_ledger_more(s: Seq<u8>, t: Seq<u8>)
    requires
        get_ledger(s) is Some,
    ensures
        get_ledger(s + t) == Some((get_ledger(s)->Some_0.0, get_ledger(s)->Some_0.1 + t)),
{
    reveal(get_ledger);
    lemma_get_more(s, 8, t);
    let (n, s1) = get_u64(s)->Some_0;
    lemma_get_notes_more(s1, n, t);
    let s2 = get_notes(s1, n)->Some_0.1;
    lemma_get_more(s2, 8, t);
    let (m, s3) = get_u64(s2)->Some_0;
    lemma_get_list_more(s3, m, t);
}

/// Reading takes no notice of what is left over.
proof fn lemma_get_body_more(s: Seq<u8>, t: Seq<u8>)
    requires
        get_body(s) is Some,
    ensures
        get_body(s + t) == Some((get_body(s)->Some_0.0, get_body(s)->Some_0.1 + t)),
{
    lemma_get_more(s, 8, t);
    let (base_size, s1) = get_u64(s)->Some_0;
    lemma_get_frontier_more(s1, base_size, t);
    let s2 = get_frontier(s1, base_size)->Some_0.1;
    lemma_get_more(s2, 8, t);
    let s3 = get_u64(s2)->Some_0.1;
    lemma_get_more(s3, 8, t);
    let (n, s4) = get_u64(s3)->Some_0;
    lemma_get_list_more(s4, n, t);
    let s5 = get_list(s4, n)->Some_0.1;
    lemma_get_ledger_more(s5, t);
}

/// A checkpoint that is cut short is refused, wherever it is cut.
pub proof fn truncated_checkpoints_are_refused(
    v: WalletV,
    len: int,
    fvk: Seq<u8>,
    tip: Option<FrontierState>,
)
    requires
        storable(v),
        0 <= len < checkpoint_bytes(v).len(),
    ensures
        restored(fvk, checkpoint_bytes(v).take(len), tip) is None,
{
    let whole = checkpoint_bytes(v);
    let s = whole.take(len);
    if len > 0 {
        let cut = whole.skip(len);
        let rest = s.skip(1);
        assert(s.take(1)[0] == CHECKPOINT_VERSION);
        assert(rest + cut =~= body_bytes(v) + frontier_bytes(v.tip));
        if get_body(rest) is Some {
            let (saved, left) = get_body(rest)->Some_0;
            lemma_get_body_more(rest, cut);
            lemma_get_body(v, frontier_bytes(v.tip));
            if get_frontier(left, saved.size()) is Some {
                lemma_get_frontier_more(left, saved.size(), cut);
                assert(frontier_bytes(v.tip) + Seq::<u8>::empty() =~= frontier_bytes(v.tip));
                lemma_get_frontier(v.tip, Seq::empty());
                assert(get_frontier(left, saved.size())->Some_0.1 + cut == Seq::<u8>::empty());
                assert((get_frontier(left, saved.size())->Some_0.1 + cut).len() >= cut.len());
            }
        }
    }
}

/// A checkpoint under another version is refused.
pub proof fn checkpoints_of_another_version_are_refused(
    v: WalletV,
    version: u8,
    fvk: Seq<u8>,
    tip: Option<FrontierState>,
)
    requires
        storable(v),
        version != CHECKPOINT_VERSION,
    ensures
        restored(fvk, checkpoint_bytes(v).update(0, version), tip) is None,
{
    let rest = body_bytes(v) + frontier_bytes(v.tip);
    assert(checkpoint_bytes(v).update(0, version) =~= seq![version] + rest);
    lemma_get(seq![version], rest);
    assert(seq![version].len() == 1);
    lemma_get_body(v, frontier_bytes(v.tip));
}

/// What resumes from a checkpoint of a wallet is as good as the wallet: it holds the same
/// notes and is as tidy, its counts, its anchor and the paths that it rebuilds are the same,
/// and it drops the bundles that the wallet would drop.
pub proof fn resumed_wallets_carry_on(
    v: WalletV,
    tip: Option<FrontierState>,
    position: nat,
    matured: nat,
    b: BundleV,
)
    requires
        storable(v),
    ensures
        restored(v.fvk, checkpoint_bytes(v), tip) matches Some(w) && {
            &&& w.notes == v.notes
            &&& w.base == v.base
            &&& w.size() == v.size()
            &&& w.tip == v.tip
            &&& w.tidy() == v.tidy()
            &&& w.rebuilt_path(position, matured) == v.rebuilt_path(position, matured)
            &&& w.drops(b) == v.drops(b)
        },
{
    checkpoints_round_trip(v, tip);
    let w = without_witnesses(v);
    assert(w.decoded() == v.decoded());
    assert(w.witness_at(position, matured) == v.witness_at(position, matured));
}

} // verus!
