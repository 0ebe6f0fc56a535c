//! The note-commitment tree.
//!
//! The global tree is the depth-32 Orchard note-commitment tree over extracted note
//! commitments, of which only the append-only frontier is retained. It is advanced
//! only by appending whole chain-block batches in accepted order; because that order
//! is the same everywhere, every node computes the same anchor.

use crate::bytes::views32;
use crate::field::{canonical_base, commitment_views, Anchor, ExtractedNoteCommitment};
use incrementalmerkletree::frontier::Frontier;
use orchard::tree::MerkleHashOrchard;
use vstd::prelude::*;

verus! {

/// Depth of the Orchard note-commitment tree.
pub const TREE_DEPTH: u8 = 32;

/// How many leaves a tree holds at most.
pub const TREE_CAPACITY: u64 = 0x1_0000_0000;

#[verifier::external_type_specification]
#[verifier::external_body]
pub struct ExMerkleHashOrchard(orchard::tree::MerkleHashOrchard);

#[verifier::external_type_specification]
#[verifier::external_body]
#[verifier::reject_recursive_types(H)]
pub struct ExFrontier<H, const DEPTH: u8>(incrementalmerkletree::frontier::Frontier<H, DEPTH>);

/// The frontier of a note-commitment tree.
pub type NoteFrontier = Frontier<MerkleHashOrchard, 32>;

/// The number of leaves of the tree that a frontier stands for.
pub uninterp spec fn frontier_size(f: Frontier<MerkleHashOrchard, 32>) -> nat;

/// The nodes that a frontier holds: none in an empty tree, else the last leaf and
/// behind it the past sibling hashes, from the leaf up.
pub uninterp spec fn frontier_nodes(f: Frontier<MerkleHashOrchard, 32>) -> Seq<Seq<u8>>;

/// The past siblings of a leaf that was appended to a frontier of this size and with these
/// nodes.
pub uninterp spec fn appended_siblings(size: nat, nodes: Seq<Seq<u8>>, leaf: Seq<u8>) -> Seq<
    Seq<u8>,
>;

/// The depth-32 root of the tree whose frontier has this size and these nodes.
pub uninterp spec fn frontier_root(size: nat, nodes: Seq<Seq<u8>>) -> Seq<u8>;

/// A note-commitment tree, as far as its frontier tells it.
pub struct TreeV {
    pub size: nat,
    pub nodes: Seq<Seq<u8>>,
}

/// The tree that a frontier stands for.
pub open spec fn tree_of(f: NoteFrontier) -> TreeV {
    TreeV { size: frontier_size(f), nodes: frontier_nodes(f) }
}

impl TreeV {
    /// The tree without leaves.
    pub open spec fn empty() -> TreeV {
        TreeV { size: 0, nodes: Seq::empty() }
    }

    /// The tree with one more leaf, or unchanged where it holds all that it can.
    pub open spec fn push(self, leaf: Seq<u8>) -> TreeV {
        if self.size < TREE_CAPACITY {
            TreeV {
                size: self.size + 1,
                nodes: seq![leaf] + appended_siblings(self.size, self.nodes, leaf),
            }
        } else {
            self
        }
    }

    /// The tree with these leaves appended in order, as far as they fit.
    pub open spec fn extend(self, leaves: Seq<Seq<u8>>) -> TreeV
        decreases leaves.len(),
    {
        if leaves.len() == 0 {
            self
        } else {
            self.extend(leaves.drop_last()).push(leaves.last())
        }
    }

    /// The anchor.
    pub open spec fn root(self) -> Seq<u8> {
        frontier_root(self.size, self.nodes)
    }
}

/// How many ones the binary notation of `n` has.
pub open spec fn ones(n: nat) -> nat
    decreases n,
{
    if n == 0 {
        0
    } else {
        n % 2 + ones(n / 2)
    }
}

/// Every string of the list encodes a field element.
pub open spec fn all_canonical(nodes: Seq<Seq<u8>>) -> bool {
    forall|i: int| 0 <= i < nodes.len() ==> canonical_base(#[trigger] nodes[i])
}

/// The parts of a frontier fit together: a canonical leaf at a position within the
/// tree, and as many canonical past siblings as the position has ones.
pub open spec fn frontier_parts_fit(position: nat, leaf: Seq<u8>, ommers: Seq<Seq<u8>>) -> bool {
    &&& position < TREE_CAPACITY
    &&& canonical_base(leaf)
    &&& all_canonical(ommers)
    &&& ommers.len() == ones(position)
}

/// `Frontier::empty`: a frontier of no leaves.
#[verifier::external_body]
pub(crate) fn frontier_empty() -> (f: NoteFrontier)
    ensures
        frontier_size(f) == 0,
        frontier_nodes(f) == Seq::<Seq<u8>>::empty(),
{
    Frontier::empty()
}

/// `Frontier::clone`: a frontier of the same tree.
#[verifier::external_body]
pub(crate) fn frontier_clone(f: &NoteFrontier) -> (r: NoteFrontier)
    ensures
        frontier_size(r) == frontier_size(*f),
        frontier_nodes(r) == frontier_nodes(*f),
{
    f.clone()
}

/// `Frontier::append`: appends the leaf, unless the tree has all the leaves that its
/// depth allows; then it changes nothing and says so.
#[verifier::external_body]
pub(crate) fn frontier_append(f: &mut NoteFrontier, leaf: &[u8; 32]) -> (r: bool)
    requires
        canonical_base(leaf@),
    ensures
        r == (frontier_size(*old(f)) < TREE_CAPACITY),
        r ==> frontier_size(*final(f)) == frontier_size(*old(f)) + 1,
        r ==> frontier_nodes(*final(f)) == seq![leaf@] + appended_siblings(
            frontier_size(*old(f)),
            frontier_nodes(*old(f)),
            leaf@,
        ),
        !r ==> *final(f) == *old(f),
{
    f.append(MerkleHashOrchard::from_bytes(leaf).unwrap())
}

/// `Frontier::root`: the root, a canonical field element.
#[verifier::external_body]
pub(crate) fn frontier_root_bytes(f: &NoteFrontier) -> (r: [u8; 32])
    ensures
        r@ == frontier_root(frontier_size(*f), frontier_nodes(*f)),
        canonical_base(r@),
{
    f.root().to_bytes()
}

/// `Frontier::tree_size`: the number of leaves, which the depth bounds.
#[verifier::external_body]
pub(crate) fn frontier_tree_size(f: &NoteFrontier) -> (n: u64)
    ensures
        n == frontier_size(*f),
        n <= TREE_CAPACITY,
{
    f.tree_size()
}

/// `Frontier::value`: nothing for an empty tree, and else the last leaf and the past
/// siblings, which fit the position of the leaf.
#[verifier::external_body]
pub(crate) fn frontier_value(f: &NoteFrontier) -> (r: Option<([u8; 32], Vec<[u8; 32]>)>)
    ensures
        match r {
            None => frontier_size(*f) == 0 && frontier_nodes(*f) == Seq::<Seq<u8>>::empty(),
            Some((leaf, ommers)) => {
                &&& frontier_size(*f) > 0
                &&& frontier_nodes(*f) == seq![leaf@] + views32(ommers@)
                &&& frontier_parts_fit((frontier_size(*f) - 1) as nat, leaf@, views32(ommers@))
            },
        },
{
    let v = f.value()?;
    Some((v.leaf().to_bytes(), v.ommers().iter().map(|o| o.to_bytes()).collect()))
}

/// `Frontier::from_parts`: the frontier with this last leaf at this position and these
/// past siblings, where they fit together.
#[verifier::external_body]
pub(crate) fn frontier_from_parts(position: u64, leaf: &[u8; 32], ommers: &[[u8; 32]]) -> (r: Option<
    NoteFrontier,
>)
    ensures
        r is Some <==> frontier_parts_fit(position as nat, leaf@, views32(ommers@)),
        r matches Some(f) ==> frontier_size(f) == position + 1 && frontier_nodes(f) == seq![leaf@]
            + views32(ommers@),
{
    let leaf = Option::from(MerkleHashOrchard::from_bytes(leaf))?;
    let ommers: Option<Vec<MerkleHashOrchard>> =
        ommers.iter().map(|o| MerkleHashOrchard::from_bytes(o).into()).collect();
    Frontier::from_parts(position.into(), leaf, ommers?).ok()
}

/// `Anchor::empty_tree`: the root of the tree without leaves.
#[verifier::external_body]
fn empty_tree_anchor() -> (r: [u8; 32])
    ensures
        r@ == frontier_root(0, Seq::<Seq<u8>>::empty()),
        canonical_base(r@),
{
    orchard::tree::Anchor::empty_tree().to_bytes()
}

/// Error returned when appending to a tree that already holds `2^32` leaves.
#[derive(Debug, Clone, Copy, PartialEq, Eq)]
pub struct TreeFull;

impl TreeFull {
    /// The message for people.
    pub fn message(&self) -> (s: &'static str)
        ensures
            s@ == "note commitment tree is full (2^32 leaves)"@,
    {
        "note commitment tree is full (2^32 leaves)"
    }
}

/// A node's tree at some block in plain bytes: its leaf count, its last leaf and the
/// past siblings of that leaf.
#[derive(Clone, Debug, PartialEq, Eq)]
pub struct FrontierState {
    /// Number of leaves.
    pub size: u64,
    /// The last leaf, where there is one.
    pub leaf: Option<[u8; 32]>,
    /// The past siblings of the last leaf, from the leaf up.
    pub ommers: Vec<[u8; 32]>,
}

impl FrontierState {
    /// The state describes a tree.
    pub open spec fn consistent(self) -> bool {
        match self.leaf {
            None => self.size == 0 && self.ommers@.len() == 0,
            Some(leaf) => self.size > 0 && frontier_parts_fit(
                (self.size - 1) as nat,
                leaf@,
                views32(self.ommers@),
            ),
        }
    }

    /// The tree that the state describes.
    pub open spec fn tree(self) -> TreeV {
        match self.leaf {
            None => TreeV::empty(),
            Some(leaf) => TreeV {
                size: self.size as nat,
                nodes: seq![leaf@] + views32(self.ommers@),
            },
        }
    }
}

/// A [`FrontierState`] that describes no tree.
#[derive(Debug, Clone, Copy, PartialEq, Eq)]
pub struct InvalidFrontier;

/// The note-commitment accumulator.
pub trait NoteCommitmentTree {
    /// The tree accumulated so far.
    spec fn tree(&self) -> TreeV;

    /// Appends a note commitment as the next leaf.
    fn append(&mut self, cmx: ExtractedNoteCommitment) -> (r: Result<(), TreeFull>)
        ensures
            r is Ok <==> old(self).tree().size < TREE_CAPACITY,
            final(self).tree() == old(self).tree().push(cmx@),
    ;

    /// The current anchor of the tree.
    fn anchor(&self) -> (r: Anchor)
        ensures
            r@ == self.tree().root(),
    ;

    /// Number of leaves appended so far.
    fn size(&self) -> (n: u64)
        ensures
            n == self.tree().size,
            n <= TREE_CAPACITY,
    ;
}

/// A chain block's note commitments in block-local order.
#[derive(Clone, Debug, PartialEq, Eq)]
pub struct ChainBlockSubtree {
    commitments: Vec<ExtractedNoteCommitment>,
}

impl View for ChainBlockSubtree {
    type V = Seq<Seq<u8>>;

    closed spec fn view(&self) -> Seq<Seq<u8>> {
        commitment_views(self.commitments@)
    }
}

impl Default for ChainBlockSubtree {
    fn default() -> (s: Self)
        ensures
            s@ == Seq::<Seq<u8>>::empty(),
    {
        ChainBlockSubtree::new()
    }
}

impl ChainBlockSubtree {
    /// An empty subtree.
    pub fn new() -> (s: Self)
        ensures
            s@ == Seq::<Seq<u8>>::empty(),
    {
        let s: ChainBlockSubtree = ChainBlockSubtree { commitments: Vec::new() };
        assert(s@ =~= Seq::<Seq<u8>>::empty());
        s
    }

    /// Appends a note commitment to this block's batch.
    pub fn push(&mut self, cmx: ExtractedNoteCommitment)
        ensures
            final(self)@ == old(self)@.push(cmx@),
    {
        self.commitments.push(cmx);
        assert(self@ =~= old(self)@.push(cmx@));
    }

    /// The commitments carried by this block, in block-local order.
    pub fn commitments(&self) -> (s: &[ExtractedNoteCommitment])
        ensures
            commitment_views(s@) == self@,
    {
        self.commitments.as_slice()
    }

    /// Number of commitments in this subtree.
    pub fn len(&self) -> (n: usize)
        ensures
            n == self@.len(),
    {
        self.commitments.len()
    }

    /// Whether this subtree carries no commitments.
    pub fn is_empty(&self) -> (r: bool)
        ensures
            r == (self@.len() == 0),
    {
        self.commitments.len() == 0
    }
}

/// The global note-commitment tree, of which only the frontier is retained.
pub struct GlobalTree {
    frontier: NoteFrontier,
}

impl View for GlobalTree {
    type V = TreeV;

    closed spec fn view(&self) -> TreeV {
        tree_of(self.frontier)
    }
}

impl Clone for GlobalTree {
    fn clone(&self) -> (t: Self)
        ensures
            t@ == self@,
    {
        GlobalTree { frontier: frontier_clone(&self.frontier) }
    }
}

impl Default for GlobalTree {
    fn default() -> (t: Self)
        ensures
            t@ == TreeV::empty(),
    {
        GlobalTree::new()
    }
}

impl GlobalTree {
    /// A fresh, empty global tree.
    pub fn new() -> (t: Self)
        ensures
            t@ == TreeV::empty(),
    {
        GlobalTree { frontier: frontier_empty() }
    }

    /// What the tree holds, as its trait tells it.
    pub broadcast proof fn lemma_tree(&self)
        ensures
            #[trigger] self.tree() == self@,
    {
    }

    /// Appends an entire chain-block subtree. Where the tree has no room for all of
    /// it, the leaves that do fit are appended.
    pub fn append_subtree(&mut self, subtree: &ChainBlockSubtree) -> (r: Result<(), TreeFull>)
        ensures
            r is Ok <==> old(self)@.size + subtree@.len() <= TREE_CAPACITY,
            final(self)@ == old(self)@.extend(subtree@),
    {
        broadcast use GlobalTree::lemma_tree;
        let ghost all = subtree@;
        let leaves: &[ExtractedNoteCommitment] = subtree.commitments();
        let start: u64 = self.size();
        let mut i: usize = 0;
        assert(all.take(0) =~= Seq::<Seq<u8>>::empty());
        while i < leaves.len()
            invariant
                0 <= i <= leaves@.len(),
                all == subtree@,
                all == commitment_views(leaves@),
                start == old(self)@.size,
                start + i <= TREE_CAPACITY,
                self@.size == start + i,
                self@ == old(self)@.extend(all.take(i as int)),
            decreases leaves@.len() - i,
        {
            match self.append(leaves[i]) {
                Ok(()) => {},
                Err(e) => {
                    proof {
                        lemma_full_stays(old(self)@, all, i as int);
                    }
                    return Err(e);
                },
            }
            proof {
                assert(all.take(i + 1).drop_last() =~= all.take(i as int));
                assert(all.take(i + 1).last() == leaves@[i as int]@);
            }
            i = i + 1;
        }
        assert(all.take(i as int) =~= all);
        Ok(())
    }

    /// The tree in plain bytes.
    pub fn to_state(&self) -> (s: FrontierState)
        ensures
            s.consistent(),
            s.tree() == self@,
    {
        let size: u64 = frontier_tree_size(&self.frontier);
        match frontier_value(&self.frontier) {
            None => FrontierState { size, leaf: None, ommers: Vec::new() },
            Some((leaf, ommers)) => FrontierState { size, leaf: Some(leaf), ommers },
        }
    }

    /// The tree that a state in plain bytes describes.
    pub fn from_state(state: &FrontierState) -> (r: Result<Self, InvalidFrontier>)
        ensures
            r is Ok <==> state.consistent(),
            r matches Ok(t) ==> t@ == state.tree(),
    {
        match state.leaf {
            None => {
                if state.size == 0 && state.ommers.len() == 0 {
                    Ok(GlobalTree::new())
                } else {
                    Err(InvalidFrontier)
                }
            },
            Some(leaf) => {
                if state.size == 0 {
                    return Err(InvalidFrontier);
                }
                match frontier_from_parts(state.size - 1, &leaf, state.ommers.as_slice()) {
                    Some(frontier) => Ok(GlobalTree { frontier }),
                    None => Err(InvalidFrontier),
                }
            },
        }
    }

    /// The retained frontier.
    pub fn frontier(&self) -> (f: &NoteFrontier)
        ensures
            tree_of(*f) == self@,
    {
        &self.frontier
    }
}

impl NoteCommitmentTree for GlobalTree {
    closed spec fn tree(&self) -> TreeV {
        self@
    }

    fn append(&mut self, cmx: ExtractedNoteCommitment) -> (r: Result<(), TreeFull>) {
        let leaf: [u8; 32] = cmx.to_bytes();
        if frontier_append(&mut self.frontier, &leaf) {
            Ok(())
        } else {
            Err(TreeFull)
        }
    }

    fn anchor(&self) -> (r: Anchor) {
        match frontier_value(&self.frontier) {
            None => Anchor::from_bytes(&empty_tree_anchor()).unwrap(),
            Some(_) => Anchor::from_bytes(&frontier_root_bytes(&self.frontier)).unwrap(),
        }
    }

    fn size(&self) -> (n: u64) {
        frontier_tree_size(&self.frontier)
    }
}

pub proof fn lemma_extend_size(t: TreeV, leaves: Seq<Seq<u8>>)
    requires
        t.size + leaves.len() <= TREE_CAPACITY,
    ensures
        t.extend(leaves).size == t.size + leaves.len(),
    decreases leaves.len(),
{
    if leaves.len() > 0 {
        lemma_extend_size(t, leaves.drop_last());
    }
}

/// A tree that is full after `i` leaves takes none of the later ones.
proof fn lemma_full_stays(t: TreeV, leaves: Seq<Seq<u8>>, i: int)
    requires
        0 <= i <= leaves.len(),
        t.extend(leaves.take(i)).size >= TREE_CAPACITY,
    ensures
        t.extend(leaves) == t.extend(leaves.take(i)),
    decreases leaves.len(),
{
    if i == leaves.len() {
        assert(leaves.take(i) =~= leaves);
    } else {
        assert(leaves.drop_last().take(i) =~= leaves.take(i));
        lemma_full_stays(t, leaves.drop_last(), i);
    }
}

/// Only the order of the leaves counts: appending two batches one after the other is
/// appending their leaves in order, however they were assembled.
pub proof fn batches_append_as_their_leaves(t: TreeV, first: Seq<Seq<u8>>, second: Seq<Seq<u8>>)
    ensures
        t.extend(first).extend(second) == t.extend(first + second),
    decreases second.len(),
{
    if second.len() == 0 {
        assert(first + second =~= first);
    } else {
        batches_append_as_their_leaves(t, first, second.drop_last());
        assert((first + second).drop_last() =~= first + second.drop_last());
        assert((first + second).last() == second.last());
    }
}

/// Appending one leaf as a batch is appending it.
pub proof fn one_leaf_is_a_batch(t: TreeV, leaf: Seq<u8>)
    ensures
        t.extend(seq![leaf]) == t.push(leaf),
        t.extend(Seq::empty()) == t,
        t.size < TREE_CAPACITY ==> t.push(leaf).size == t.size + 1 && t.push(leaf).nodes[0] == leaf,
{
    assert(seq![leaf].drop_last() =~= Seq::<Seq<u8>>::empty());
    assert(t.extend(seq![leaf].drop_last()) == t);
}

} // verus!
