//! Membership witnesses: the full tree that a wallet mirrors, the authentication path of
//! a leaf, and the witness that follows the tree as it grows.

use crate::bytes::views32;
use crate::field::{canonical_base, Anchor, ExtractedNoteCommitment};
use crate::tree::{
    all_canonical, appended_siblings, frontier_nodes, frontier_root, frontier_size, NoteFrontier,
    TreeV, TREE_CAPACITY,
};
use incrementalmerkletree::frontier::{CommitmentTree, Frontier};
use incrementalmerkletree::witness::IncrementalWitness;
use incrementalmerkletree::{Hashable, Level};
use orchard::tree::MerkleHashOrchard;
use vstd::prelude::*;

verus! {

#[verifier::external_type_specification]
#[verifier::external_body]
#[verifier::reject_recursive_types(H)]
pub struct ExCommitmentTree<H, const DEPTH: u8>(
    incrementalmerkletree::frontier::CommitmentTree<H, DEPTH>,
);

#[verifier::external_type_specification]
#[verifier::external_body]
#[verifier::reject_recursive_types(H)]
pub struct ExIncrementalWitness<H, const DEPTH: u8>(
    incrementalmerkletree::witness::IncrementalWitness<H, DEPTH>,
);

/// The tree that a wallet mirrors.
pub type NoteTree = CommitmentTree<MerkleHashOrchard, 32>;

/// A witness for one leaf of the tree.
pub type NoteWitness = IncrementalWitness<MerkleHashOrchard, 32>;

/// The number of leaves of a mirrored tree.
pub uninterp spec fn mirror_size(t: CommitmentTree<MerkleHashOrchard, 32>) -> nat;

/// The nodes of the frontier of a mirrored tree.
pub uninterp spec fn mirror_nodes(t: CommitmentTree<MerkleHashOrchard, 32>) -> Seq<Seq<u8>>;

/// The number of leaves of the tree whose last leaf a witness is for.
pub uninterp spec fn witness_size(w: IncrementalWitness<MerkleHashOrchard, 32>) -> nat;

/// The nodes of the frontier of the tree whose last leaf a witness is for.
pub uninterp spec fn witness_nodes(w: IncrementalWitness<MerkleHashOrchard, 32>) -> Seq<Seq<u8>>;

/// The leaves that were appended behind the witnessed one.
pub uninterp spec fn witness_later(w: IncrementalWitness<MerkleHashOrchard, 32>) -> Seq<Seq<u8>>;

/// The authentication path of the last leaf of the tree whose frontier has this size and
/// these nodes, after the later leaves.
pub uninterp spec fn authentication_path(
    size: nat,
    nodes: Seq<Seq<u8>>,
    later: Seq<Seq<u8>>,
) -> Seq<Seq<u8>>;

/// The root that an authentication path leads to from a leaf at a position.
pub uninterp spec fn path_root(position: u32, path: Seq<Seq<u8>>, leaf: Seq<u8>) -> Seq<u8>;

/// The tree that a mirror holds.
pub open spec fn mirrored(t: NoteTree) -> TreeV {
    TreeV { size: mirror_size(t), nodes: mirror_nodes(t) }
}

/// What a witness holds: the tree that ended in the witnessed leaf, and the leaves since.
pub struct WitnessV {
    pub base: TreeV,
    pub later: Seq<Seq<u8>>,
}

/// What a witness holds.
pub open spec fn witnessed(w: NoteWitness) -> WitnessV {
    WitnessV {
        base: TreeV { size: witness_size(w), nodes: witness_nodes(w) },
        later: witness_later(w),
    }
}

impl WitnessV {
    /// The witness after one more leaf, or unchanged where the tree is full.
    pub open spec fn push(self, leaf: Seq<u8>) -> WitnessV {
        if self.base.size + self.later.len() < TREE_CAPACITY {
            WitnessV { base: self.base, later: self.later.push(leaf) }
        } else {
            self
        }
    }

    /// The authentication path of the witnessed leaf.
    pub open spec fn path(self) -> Seq<Seq<u8>> {
        authentication_path(self.base.size, self.base.nodes, self.later)
    }
}

/// `CommitmentTree::empty`: a tree of no leaves.
#[verifier::external_body]
pub(crate) fn mirror_empty() -> (t: NoteTree)
    ensures
        mirror_size(t) == 0,
        mirror_nodes(t) == Seq::<Seq<u8>>::empty(),
{
    CommitmentTree::empty()
}

/// `CommitmentTree::clone`: the same tree.
#[verifier::external_body]
pub(crate) fn mirror_clone(t: &NoteTree) -> (r: NoteTree)
    ensures
        mirror_size(r) == mirror_size(*t),
        mirror_nodes(r) == mirror_nodes(*t),
{
    t.clone()
}

/// `CommitmentTree::from_frontier`: the tree that the frontier stands for.
#[verifier::external_body]
pub(crate) fn mirror_from_frontier(f: &NoteFrontier) -> (t: NoteTree)
    ensures
        mirror_size(t) == frontier_size(*f),
        mirror_nodes(t) == frontier_nodes(*f),
{
    CommitmentTree::from_frontier(f)
}

/// `CommitmentTree::to_frontier`: the frontier of the tree.
#[verifier::external_body]
pub(crate) fn mirror_to_frontier(t: &NoteTree) -> (f: NoteFrontier)
    ensures
        frontier_size(f) == mirror_size(*t),
        frontier_nodes(f) == mirror_nodes(*t),
{
    t.to_frontier()
}

/// `CommitmentTree::append`: appends the leaf as `Frontier::append` does to the tree's
/// frontier, unless the tree is full; then it changes nothing and says so.
#[verifier::external_body]
pub(crate) fn mirror_append(t: &mut NoteTree, leaf: &[u8; 32]) -> (r: bool)
    requires
        canonical_base(leaf@),
    ensures
        r == (mirror_size(*old(t)) < TREE_CAPACITY),
        r ==> mirror_size(*final(t)) == mirror_size(*old(t)) + 1,
        r ==> mirror_nodes(*final(t)) == seq![leaf@] + appended_siblings(
            mirror_size(*old(t)),
            mirror_nodes(*old(t)),
            leaf@,
        ),
        !r ==> *final(t) == *old(t),
{
    t.append(MerkleHashOrchard::from_bytes(leaf).unwrap()).is_ok()
}

/// `CommitmentTree::root`: the root that the tree's frontier has, a canonical field
/// element.
#[verifier::external_body]
pub(crate) fn mirror_root(t: &NoteTree) -> (r: [u8; 32])
    ensures
        r@ == frontier_root(mirror_size(*t), mirror_nodes(*t)),
        canonical_base(r@),
{
    t.root().to_bytes()
}

/// `IncrementalWitness::from_tree`: a witness for the last leaf of a tree that has one.
#[verifier::external_body]
pub(crate) fn witness_from_tree(t: NoteTree) -> (r: Option<NoteWitness>)
    ensures
        r is Some <==> mirror_size(t) > 0,
        r matches Some(w) ==> {
            &&& witness_size(w) == mirror_size(t)
            &&& witness_nodes(w) == mirror_nodes(t)
            &&& witness_later(w) == Seq::<Seq<u8>>::empty()
        },
{
    IncrementalWitness::from_tree(t)
}

/// `IncrementalWitness::append`: the witness sees one more leaf, unless the tree is full;
/// then nothing of it changes.
#[verifier::external_body]
pub(crate) fn witness_append(w: &mut NoteWitness, leaf: &[u8; 32]) -> (r: bool)
    requires
        canonical_base(leaf@),
    ensures
        r == (witness_size(*old(w)) + witness_later(*old(w)).len() < TREE_CAPACITY),
        witness_size(*final(w)) == witness_size(*old(w)),
        witness_nodes(*final(w)) == witness_nodes(*old(w)),
        r ==> witness_later(*final(w)) == witness_later(*old(w)).push(leaf@),
        !r ==> witness_later(*final(w)) == witness_later(*old(w)),
{
    w.append(MerkleHashOrchard::from_bytes(leaf).unwrap()).is_ok()
}

/// `IncrementalWitness::path`: the position of the witnessed leaf and its authentication
/// path, which leads from that leaf to the root of the tree with the later leaves.
#[verifier::external_body]
pub(crate) fn witness_path_of(w: &NoteWitness) -> (r: Option<(u64, Vec<[u8; 32]>)>)
    requires
        witness_size(*w) > 0,
    ensures
        r is Some,
        r->Some_0.0 == witness_size(*w) - 1,
        r->Some_0.0 < TREE_CAPACITY,
        views32(r->Some_0.1@) == authentication_path(
            witness_size(*w),
            witness_nodes(*w),
            witness_later(*w),
        ),
        r->Some_0.1@.len() == 32,
        all_canonical(views32(r->Some_0.1@)),
        path_root(r->Some_0.0 as u32, views32(r->Some_0.1@), witness_nodes(*w)[0]) == witnessed(
            *w,
        ).base.extend(witness_later(*w)).root(),
{
    let path = w.path()?;
    Some((path.position().into(), path.path_elems().iter().map(|e| e.to_bytes()).collect()))
}

/// The root of a subtree without leaves, by its level: 0 for a leaf.
pub uninterp spec fn empty_root(level: nat) -> Seq<u8>;

/// The siblings of the only leaf of a tree, which stands at position 0.
pub open spec fn lone_path() -> Seq<Seq<u8>> {
    Seq::new(32, |i: int| empty_root(i as nat))
}

/// `MerkleHashOrchard::empty_root`: the root of a subtree without leaves, a canonical field
/// element.
#[verifier::external_body]
fn empty_subtree_root(level: u8) -> (r: [u8; 32])
    requires
        level <= 32,
    ensures
        r@ == empty_root(level as nat),
        canonical_base(r@),
{
    <MerkleHashOrchard as Hashable>::empty_root(Level::from(level)).to_bytes()
}

/// `orchard::tree::MerklePath::root`: the root that the path leads to, a canonical field
/// element. From position 0 and empty siblings that is the root of the tree whose only leaf
/// it starts at.
#[verifier::external_body]
fn merkle_path_root(position: u32, path: &Vec<[u8; 32]>, leaf: &[u8; 32]) -> (r: [u8; 32])
    requires
        path@.len() == 32,
        all_canonical(views32(path@)),
        canonical_base(leaf@),
    ensures
        r@ == path_root(position, views32(path@), leaf@),
        canonical_base(r@),
        position == 0 && views32(path@) == lone_path() ==> r@ == TreeV::empty().push(leaf@).root(),
{
    let elems: Vec<_> = path.iter().map(|e| MerkleHashOrchard::from_bytes(e).unwrap()).collect();
    let path = orchard::tree::MerklePath::from_parts(position, elems.try_into().unwrap());
    let leaf = orchard::note::ExtractedNoteCommitment::from_bytes(leaf).unwrap();
    path.root(leaf).to_bytes()
}

/// The authentication path of a leaf.
#[derive(Clone, Debug, PartialEq, Eq)]
pub struct MerklePath {
    position: u32,
    auth_path: Vec<[u8; 32]>,
}

/// What a [`MerklePath`] holds.
pub struct PathV {
    pub position: u32,
    pub path: Seq<Seq<u8>>,
}

impl View for MerklePath {
    type V = PathV;

    closed spec fn view(&self) -> PathV {
        PathV { position: self.position, path: views32(self.auth_path@) }
    }
}

impl MerklePath {
    /// The path has the depth of the tree, and every sibling is canonical.
    pub closed spec fn wf(&self) -> bool {
        self.auth_path@.len() == 32 && all_canonical(views32(self.auth_path@))
    }

    /// What [`wf`](Self::wf) says.
    pub proof fn lemma_wf(&self)
        ensures
            self.wf() <==> self@.path.len() == 32 && all_canonical(self@.path),
    {
    }

    /// The path of the leaf at a position, with these siblings from the leaf up; `None`
    /// where they are not as many as the tree is deep, or one is not canonical.
    pub fn from_parts(position: u32, auth_path: Vec<[u8; 32]>) -> (r: Option<Self>)
        ensures
            r is Some <==> auth_path@.len() == 32 && all_canonical(views32(auth_path@)),
            r matches Some(p) ==> p.wf() && p@ == (PathV { position, path: views32(auth_path@) }),
    {
        if auth_path.len() != 32 {
            return None;
        }
        let mut i: usize = 0;
        while i < auth_path.len()
            invariant
                0 <= i <= auth_path@.len(),
                forall|j: int| 0 <= j < i ==> canonical_base(#[trigger] views32(auth_path@)[j]),
            decreases auth_path@.len() - i,
        {
            if ExtractedNoteCommitment::from_bytes(&auth_path[i]).is_none() {
                assert(!canonical_base(views32(auth_path@)[i as int]));
                return None;
            }
            i = i + 1;
        }
        Some(MerklePath { position, auth_path })
    }

    /// The path of the only leaf of a tree.
    pub fn lone() -> (p: Self)
        ensures
            p.wf(),
            p@ == (PathV { position: 0, path: lone_path() }),
    {
        let mut auth_path: Vec<[u8; 32]> = Vec::new();
        let mut level: u8 = 0;
        while level < 32
            invariant
                0 <= level <= 32,
                auth_path@.len() == level,
                forall|i: int|
                    0 <= i < level ==> (#[trigger] auth_path@[i])@ == empty_root(i as nat)
                        && canonical_base(auth_path@[i]@),
            decreases 32 - level,
        {
            auth_path.push(empty_subtree_root(level));
            level = level + 1;
        }
        assert(views32(auth_path@) =~= lone_path());
        MerklePath { position: 0, auth_path }
    }

    /// The position of the leaf.
    pub fn position(&self) -> (p: u32)
        ensures
            p == self@.position,
    {
        self.position
    }

    /// The siblings, from the leaf up.
    pub fn auth_path(&self) -> (p: &Vec<[u8; 32]>)
        ensures
            views32(p@) == self@.path,
    {
        &self.auth_path
    }

    /// The root that the path leads to from a leaf.
    pub fn root(&self, cmx: &ExtractedNoteCommitment) -> (a: Anchor)
        requires
            self.wf(),
        ensures
            a@ == path_root(self@.position, self@.path, cmx@),
            self@ == (PathV { position: 0, path: lone_path() }) ==> a@ == TreeV::empty().push(
                cmx@,
            ).root(),
    {
        let leaf: [u8; 32] = cmx.to_bytes();
        let root: [u8; 32] = merkle_path_root(self.position, &self.auth_path, &leaf);
        Anchor::from_bytes(&root).unwrap()
    }
}

/// The path of a witnessed leaf.
pub(crate) fn path_of(w: &NoteWitness) -> (r: Option<MerklePath>)
    requires
        witnessed(*w).base.size > 0,
    ensures
        r matches Some(p) && {
            &&& p.wf()
            &&& p@ == (PathV {
                position: (witnessed(*w).base.size - 1) as u32,
                path: witnessed(*w).path(),
            })
            &&& witnessed(*w).base.size <= TREE_CAPACITY
            &&& path_root(p@.position, p@.path, witnessed(*w).base.nodes[0]) == witnessed(
                *w,
            ).base.extend(witnessed(*w).later).root()
        },
{
    match witness_path_of(w) {
        Some((position, elems)) => {
            assert(witness_nodes(*w) == witnessed(*w).base.nodes);
            Some(MerklePath { position: position as u32, auth_path: elems })
        },
        None => None,
    }
}

} // verus!
