//! Wallet note tracking: the receive-and-remember side of a wallet.
//!
//! A node keeps only the frontier of the note-commitment tree, so wallets hold their own
//! witnesses. A [`WalletDb`] consumes the stream of note commitments in the order in
//! which consensus appends them (per block, the coinbase notes first and then each
//! accepted bundle's actions), recognises its own notes in it, drops them again when
//! their nullifiers appear, and builds the authentication path of a note on demand or
//! keeps it up to date as the tree grows.

use crate::bundle::{action_views, ActionV, ActionWire, BundleV, ShieldedBundle};
use crate::bytes::{same, views32};
use crate::coinbase::CoinbaseNoteDesc;
use crate::field::{canonical_base, ExtractedNoteCommitment};
use crate::keys::{
    address_of_fvk, fvk_of_seed, ivk_of_fvk, owned_address, viewing_key, FullViewingKey,
    IncomingViewingKey,
};
use crate::note::{note_valid, Note, NoteV};
use crate::nullifier::{MemNullifierSet, NullifierSet};
use crate::tree::{
    all_canonical, frontier_clone, frontier_empty, tree_of, FrontierState, GlobalTree,
    NoteCommitmentTree, NoteFrontier, TreeV, TREE_CAPACITY,
};
use crate::verify::action_fault;
use crate::wallet::scan::{
    actions_hold_up, decrypt_action, received_views, scan_bundle, scanned, ReceivedNote,
    ReceivedV,
};
use crate::witness::{
    mirror_append, mirror_empty, mirror_from_frontier, mirror_root, mirrored, witnessed,
    NoteTree, NoteWitness, PathV, WitnessV,
};
use vstd::prelude::*;

pub mod checkpoint;
pub mod graft;
pub mod holdings;
pub mod laws;
pub mod paths;
pub mod previews;
pub mod taken_back;

verus! {

/// How many owned notes keep a live witness; the others' paths are rebuilt on demand.
pub const MAX_LIVE_WITNESSES: usize = 256;

/// A note the wallet owns and can spend.
#[derive(Clone, Copy, Debug)]
pub struct OwnedNote {
    /// The note.
    pub note: Note,
    /// The note's leaf position in the tree.
    pub position: u64,
    /// The nullifier that marks the note as spent when it appears.
    pub nullifier: [u8; 32],
}

/// What an [`OwnedNote`] holds.
pub struct OwnedV {
    pub note: NoteV,
    pub position: nat,
    pub nullifier: Seq<u8>,
}

impl View for OwnedNote {
    type V = OwnedV;

    open spec fn view(&self) -> OwnedV {
        OwnedV {
            note: self.note@,
            position: self.position as nat,
            nullifier: self.nullifier@,
        }
    }
}

/// What a list of owned notes holds.
pub open spec fn owned_views(list: Seq<OwnedNote>) -> Seq<OwnedV> {
    Seq::new(list.len(), |i: int| list[i]@)
}

impl OwnedNote {
    /// The note's value.
    pub fn value(&self) -> (v: u64)
        ensures
            v == self@.note.value,
    {
        self.note.value()
    }
}

/// The balance effect of blocks too close to the tip to be ingested.
#[derive(Clone, Copy, Debug, PartialEq, Eq)]
pub struct Preview {
    pub incoming: u128,
    pub outgoing: u128,
}

impl Default for Preview {
    fn default() -> (p: Self)
        ensures
            p.incoming == 0,
            p.outgoing == 0,
    {
        Preview { incoming: 0, outgoing: 0 }
    }
}

impl Preview {
    /// Folds another block's preview into this one.
    pub fn add(&mut self, other: Preview)
        requires
            old(self).incoming + other.incoming <= u128::MAX,
            old(self).outgoing + other.outgoing <= u128::MAX,
        ensures
            final(self).incoming == old(self).incoming + other.incoming,
            final(self).outgoing == old(self).outgoing + other.outgoing,
    {
        self.incoming = self.incoming + other.incoming;
        self.outgoing = self.outgoing + other.outgoing;
    }

    /// Whether nothing is pending.
    pub fn is_zero(&self) -> (r: bool)
        ensures
            r == (self.incoming == 0 && self.outgoing == 0),
    {
        self.incoming == 0 && self.outgoing == 0
    }
}

// ---------------------------------------------------------------------------
// The model.

/// What a wallet holds.
pub struct WalletV {
    /// Its raw full viewing key.
    pub fvk: Seq<u8>,
    /// The tree that its stream starts from.
    pub base: TreeV,
    /// The leaves of its stream.
    pub leaves: Seq<Seq<u8>>,
    /// Its unspent notes.
    pub notes: Seq<OwnedV>,
    /// The tree at the end of the stream.
    pub tip: TreeV,
    /// Every nullifier that the stream revealed.
    pub spent: Set<Seq<u8>>,
    /// The tree that the live witnesses are at.
    pub lag: TreeV,
    /// The leaf count that the live witnesses are at.
    pub upto: nat,
    /// The live witnesses by position.
    pub witnesses: Seq<(nat, WitnessV)>,
}

/// The notes that are not spent by a nullifier.
pub open spec fn unspent(notes: Seq<OwnedV>, nf: Seq<u8>) -> Seq<OwnedV>
    decreases notes.len(),
{
    if notes.len() == 0 {
        Seq::empty()
    } else if notes.last().nullifier != nf {
        unspent(notes.drop_last(), nf).push(notes.last())
    } else {
        unspent(notes.drop_last(), nf)
    }
}

/// The notes that are not at a position.
pub open spec fn elsewhere(notes: Seq<OwnedV>, position: nat) -> Seq<OwnedV>
    decreases notes.len(),
{
    if notes.len() == 0 {
        Seq::empty()
    } else if notes.last().position != position {
        elsewhere(notes.drop_last(), position).push(notes.last())
    } else {
        elsewhere(notes.drop_last(), position)
    }
}

/// The notes stand at ascending positions from `from` on and before `to`.
pub open spec fn ascend(notes: Seq<OwnedV>, from: nat, to: nat) -> bool {
    &&& forall|i: int| 0 <= i < notes.len() ==> from <= (#[trigger] notes[i]).position < to
    &&& forall|i: int, j: int|
        0 <= i < j < notes.len() ==> (#[trigger] notes[i]).position < (
        #[trigger] notes[j]).position
}

/// What the notes are worth together.
pub open spec fn worth(notes: Seq<OwnedV>) -> nat
    decreases notes.len(),
{
    if notes.len() == 0 {
        0
    } else {
        worth(notes.drop_last()) + notes.last().note.value as nat
    }
}

/// Some note is at the position.
pub open spec fn held_at(notes: Seq<OwnedV>, position: nat) -> bool {
    exists|i: int| 0 <= i < notes.len() && (#[trigger] notes[i]).position == position
}

/// Each commitment is that of the note which its description and value make, where they make
/// one.
pub open spec fn true_commitments(
    list: Seq<(CoinbaseNoteDesc, u64, ExtractedNoteCommitment)>,
) -> bool {
    forall|i: int|
        0 <= i < list.len() && note_valid((#[trigger] list[i]).0.note(list[i].1)) ==> list[i].2@
            == list[i].0.note(list[i].1).commitment()
}

/// The note that an action sends to the holder of an incoming viewing key.
pub open spec fn hit(ivk: Seq<u8>, a: ActionV) -> Option<NoteV> {
    if action_fault(a) is None {
        match decrypt_action(ivk, a) {
            Some((note, _)) => Some(note),
            None => None,
        }
    } else {
        None
    }
}

impl WalletV {
    /// A wallet that has seen nothing.
    pub open spec fn fresh(fvk: Seq<u8>) -> WalletV {
        WalletV {
            fvk,
            base: TreeV::empty(),
            leaves: Seq::empty(),
            notes: Seq::empty(),
            tip: TreeV::empty(),
            spent: Set::empty(),
            lag: TreeV::empty(),
            upto: 0,
            witnesses: Seq::empty(),
        }
    }

    /// A wallet whose stream starts from a tree.
    pub open spec fn rebased(self, base: TreeV) -> WalletV {
        WalletV { base, tip: base, lag: base, upto: base.size, witnesses: Seq::empty(), ..self }
    }

    /// The incoming viewing key.
    pub open spec fn ivk(self) -> Seq<u8> {
        ivk_of_fvk(self.fvk)
    }

    /// The wallet's raw address.
    pub open spec fn address(self) -> Seq<u8> {
        address_of_fvk(self.fvk)
    }

    /// The number of leaves before the next one.
    pub open spec fn size(self) -> nat {
        self.base.size + self.leaves.len()
    }

    /// The note is the wallet's to spend: its leaf is its commitment, its nullifier is the
    /// one that the wallet's key gives it, and the key sees its address as its own.
    pub open spec fn keeps(self, n: OwnedV) -> bool {
        &&& self.leaves[n.position - self.base.size] == n.note.commitment()
        &&& n.nullifier == n.note.nullifier(self.fvk)
        &&& owned_address(self.fvk, n.note.recipient)
    }

    /// The wallet went on from an earlier one: its key and the start of its stream are the
    /// same, and its leaves go on where the earlier ones ended.
    pub open spec fn went_on_from(self, old: WalletV) -> bool {
        &&& self.fvk == old.fvk
        &&& self.base == old.base
        &&& self.leaves.len() >= old.leaves.len()
        &&& forall|i: int|
            0 <= i < old.leaves.len() ==> #[trigger] self.leaves[i] == old.leaves[i]
    }

    /// What holds of a wallet that came by following the chain from a tree on: the leaves are
    /// tree nodes, the tip is the tree that they lead to, and the notes stand at ascending
    /// positions within the stream and are the wallet's to spend.
    pub open spec fn tidy(self) -> bool {
        &&& all_canonical(self.leaves)
        &&& self.tip == self.base.extend(self.leaves)
        &&& ascend(self.notes, self.base.size, self.size())
        &&& forall|i: int| 0 <= i < self.notes.len() ==> self.keeps(#[trigger] self.notes[i])
    }

    /// One more leaf, and the note behind it where the wallet owns it.
    pub open spec fn append_leaf(self, cmx: Seq<u8>, owned: Option<NoteV>) -> WalletV {
        WalletV {
            leaves: self.leaves.push(cmx),
            tip: self.tip.push(cmx),
            notes: match owned {
                Some(note) => self.notes.push(
                    OwnedV { note, position: self.size(), nullifier: note.nullifier(self.fvk) },
                ),
                None => self.notes,
            },
            ..self
        }
    }

    /// A nullifier appeared.
    pub open spec fn revealed(self, nf: Seq<u8>) -> WalletV {
        WalletV { notes: unspent(self.notes, nf), spent: self.spent.insert(nf), ..self }
    }

    /// The note that a coinbase description and a value make, where it is paid to this
    /// wallet.
    pub open spec fn recover(self, desc: CoinbaseNoteDesc, value: u64) -> Option<NoteV> {
        if desc.recipient@ == self.address() && note_valid(desc.note(value)) {
            Some(desc.note(value))
        } else {
            None
        }
    }

    /// A block's coinbase notes; one that makes no note is skipped.
    pub open spec fn coinbase(self, notes: Seq<(CoinbaseNoteDesc, u64)>) -> WalletV
        decreases notes.len(),
    {
        if notes.len() == 0 {
            self
        } else {
            let w = self.coinbase(notes.drop_last());
            let (desc, value) = notes.last();
            if note_valid(desc.note(value)) {
                w.append_leaf(desc.note(value).commitment(), self.recover(desc, value))
            } else {
                w
            }
        }
    }

    /// A block's coinbase notes with commitments that the caller computed.
    pub open spec fn coinbase_precomputed(
        self,
        notes: Seq<(CoinbaseNoteDesc, u64, ExtractedNoteCommitment)>,
    ) -> WalletV
        decreases notes.len(),
    {
        if notes.len() == 0 {
            self
        } else {
            let w = self.coinbase_precomputed(notes.drop_last());
            let (desc, value, cmx) = notes.last();
            w.append_leaf(cmx@, self.recover(desc, value))
        }
    }

    /// The first `k` actions of a bundle: each reveals a nullifier, and appends its
    /// commitment where that is canonical.
    pub open spec fn actions(self, actions: Seq<ActionV>, k: int) -> WalletV
        decreases k,
    {
        if k <= 0 {
            self
        } else {
            let a = actions[k - 1];
            let w = self.actions(actions, k - 1).revealed(a.nullifier);
            if canonical_base(a.cmx) {
                w.append_leaf(a.cmx, hit(self.ivk(), a))
            } else {
                w
            }
        }
    }

    /// The bundle reveals a nullifier that the stream revealed before.
    pub open spec fn drops(self, b: BundleV) -> bool {
        exists|i: int|
            0 <= i < b.actions.len() && self.spent.contains((#[trigger] b.actions[i]).nullifier)
    }

    /// A bundle; one that would spend again what is spent is dropped whole.
    pub open spec fn bundle(self, b: BundleV) -> WalletV {
        if self.drops(b) {
            self
        } else {
            self.actions(b.actions, b.actions.len() as int)
        }
    }

    /// Bundles in order.
    pub open spec fn bundles(self, list: Seq<BundleV>) -> WalletV
        decreases list.len(),
    {
        if list.len() == 0 {
            self
        } else {
            self.bundles(list.drop_last()).bundle(list.last())
        }
    }

    /// The leaves as tree nodes: all of them, or none where one is not canonical.
    pub open spec fn decoded(self) -> Seq<Seq<u8>> {
        if all_canonical(self.leaves) {
            self.leaves
        } else {
            Seq::empty()
        }
    }

    /// The live witnesses of notes that are still held.
    pub open spec fn pruned(self) -> WalletV {
        WalletV { witnesses: still_held(self.witnesses, self.notes), ..self }
    }

    /// The live witnesses and their tree see the leaf at a position, and a witness is
    /// opened for it where a note is held there.
    pub open spec fn see(self, at: nat) -> WalletV {
        let k = at - self.base.size;
        if 0 <= k < self.decoded().len() {
            let leaf = self.decoded()[k];
            let lag = self.lag.push(leaf);
            let grown = Seq::new(
                self.witnesses.len(),
                |i: int| (self.witnesses[i].0, self.witnesses[i].1.push(leaf)),
            );
            WalletV {
                lag,
                witnesses: if held_at(self.notes, at) && grown.len() < MAX_LIVE_WITNESSES {
                    grown.push((at, WitnessV { base: lag, later: Seq::empty() }))
                } else {
                    grown
                },
                ..self
            }
        } else {
            self
        }
    }

    /// The live witnesses see the `n` leaves from a position on.
    pub open spec fn see_range(self, start: nat, n: nat) -> WalletV
        decreases n,
    {
        if n == 0 {
            self
        } else {
            self.see_range(start, (n - 1) as nat).see((start + n - 1) as nat)
        }
    }

    /// Where the live witnesses start to catch up from.
    pub open spec fn behind_from(self) -> nat {
        if self.upto >= self.base.size {
            self.upto
        } else {
            self.base.size
        }
    }

    /// A leaf count, as far as the stream has it.
    pub open spec fn available(self, target: nat) -> nat {
        if target <= self.size() {
            target
        } else {
            self.size()
        }
    }

    /// How far one step of at most `cap` leaves takes the live witnesses.
    pub open spec fn reach(self, target: nat, cap: nat) -> nat {
        if self.available(target) <= self.behind_from() + cap {
            self.available(target)
        } else {
            self.behind_from() + cap
        }
    }

    /// One step of at most `cap` leaves of the live witnesses towards a leaf count.
    pub open spec fn advanced(self, target: nat, cap: nat) -> WalletV {
        let start = self.behind_from();
        let to = self.reach(target, cap);
        if to <= start {
            self
        } else {
            let w = self.pruned().see_range(start, (to - start) as nat);
            WalletV { upto: to, ..w }
        }
    }

    /// The path of the note at a position from a live witness that is at a leaf count.
    pub open spec fn live_path(self, position: nat, matured: nat) -> Option<PathV> {
        if self.upto != matured {
            None
        } else {
            first_path(self.witnesses, position)
        }
    }

    /// The path of the leaf at a position in the tree of the first `matured` leaves,
    /// rebuilt from the stream.
    pub open spec fn rebuilt_path(self, position: nat, matured: nat) -> Option<PathV> {
        let rel = position - self.base.size;
        let end = matured - self.base.size;
        if rel < 0 || end < 0 || rel >= end || end > self.decoded().len() || matured
            > TREE_CAPACITY {
            None
        } else {
            let w = self.witness_at(position, matured);
            Some(PathV { position: (w.base.size - 1) as u32, path: w.path() })
        }
    }

    /// The witness of the leaf at a position in the tree of the first `matured` leaves.
    pub open spec fn witness_at(self, position: nat, matured: nat) -> WitnessV {
        let rel = position - self.base.size;
        let end = matured - self.base.size;
        WitnessV {
            base: self.base.extend(self.leaves.take(rel + 1)),
            later: self.leaves.subrange(rel + 1, end),
        }
    }

    /// The live witnesses are what rebuilding would give: the lagging tree is the tree of
    /// the first `upto` leaves, and each witness is the witness of its position there.
    pub open spec fn in_step(self) -> bool {
        &&& self.base.size <= self.upto <= self.size()
        &&& !all_canonical(self.leaves) ==> self.witnesses.len() == 0
        &&& all_canonical(self.leaves) ==> self.lag == self.base.extend(
            self.leaves.take(self.upto - self.base.size),
        )
        &&& all_canonical(self.leaves) && self.upto <= TREE_CAPACITY ==> forall|i: int|
            0 <= i < self.witnesses.len() ==> {
                let w = #[trigger] self.witnesses[i];
                &&& self.base.size <= w.0 < self.upto
                &&& w.1 == self.witness_at(w.0, self.upto)
            }
        &&& forall|i: int|
            0 <= i < self.witnesses.len() ==> (#[trigger] self.witnesses[i]).1.base.size > 0
    }
}

/// The witnesses at positions where a note is held.
pub open spec fn still_held(ws: Seq<(nat, WitnessV)>, notes: Seq<OwnedV>) -> Seq<(nat, WitnessV)>
    decreases ws.len(),
{
    if ws.len() == 0 {
        Seq::empty()
    } else if held_at(notes, ws.last().0) {
        still_held(ws.drop_last(), notes).push(ws.last())
    } else {
        still_held(ws.drop_last(), notes)
    }
}

/// The path of the first witness for a position.
pub open spec fn first_path(ws: Seq<(nat, WitnessV)>, position: nat) -> Option<PathV>
    decreases ws.len(),
{
    if ws.len() == 0 {
        None
    } else if ws[0].0 == position {
        Some(PathV { position: (ws[0].1.base.size - 1) as u32, path: ws[0].1.path() })
    } else {
        first_path(ws.skip(1), position)
    }
}

/// What a list of bundles holds.
pub open spec fn bundle_views(list: Seq<&ShieldedBundle>) -> Seq<BundleV> {
    Seq::new(list.len(), |i: int| list[i]@)
}

/// How many actions a list of bundles has.
pub open spec fn action_count(list: Seq<BundleV>) -> nat
    decreases list.len(),
{
    if list.len() == 0 {
        0
    } else {
        action_count(list.drop_last()) + list.last().actions.len()
    }
}

// ---------------------------------------------------------------------------
// The wallet.

/// A wallet's running view of the note-commitment tree: it walks the commitment stream,
/// recognises its own notes, and can prove each of them to be in the tree.
pub struct WalletDb {
    fvk: FullViewingKey,
    ivk: IncomingViewingKey,
    my_address: [u8; 43],
    tree: NoteTree,
    base_frontier: NoteFrontier,
    base_size: u64,
    leaves: Vec<[u8; 32]>,
    notes: Vec<OwnedNote>,
    size: u64,
    witnesses: Vec<(u64, NoteWitness)>,
    lag_tree: NoteTree,
    witnessed_upto: u64,
    spent_nullifiers: MemNullifierSet,
}

/// What a list of live witnesses holds.
pub open spec fn witness_views(ws: Seq<(u64, NoteWitness)>) -> Seq<(nat, WitnessV)> {
    Seq::new(ws.len(), |i: int| (ws[i].0 as nat, witnessed(ws[i].1)))
}

impl View for WalletDb {
    type V = WalletV;

    closed spec fn view(&self) -> WalletV {
        WalletV {
            fvk: self.fvk@,
            base: tree_of(self.base_frontier),
            leaves: views32(self.leaves@),
            notes: owned_views(self.notes@),
            tip: mirrored(self.tree),
            spent: self.spent_nullifiers@,
            lag: mirrored(self.lag_tree),
            upto: self.witnessed_upto as nat,
            witnesses: witness_views(self.witnesses@),
        }
    }
}

impl WalletDb {
    /// The keys belong together, the counts agree, an empty stream has an empty tree, and
    /// the live witnesses are what rebuilding would give.
    pub closed spec fn wf(&self) -> bool {
        &&& self.ivk@ == self@.ivk()
        &&& self.my_address@ == self@.address()
        &&& viewing_key(self@.fvk)
        &&& owned_address(self@.fvk, self@.address())
        &&& self.base_size == self@.base.size
        &&& self.size == self@.size()
        &&& self@.base.size <= TREE_CAPACITY
        &&& self@.size() == 0 ==> self@.tip == TreeV::empty()
        &&& all_canonical(self@.leaves) && self@.size() <= TREE_CAPACITY ==> self@.tip.size
            == self@.size()
        &&& self@.in_step()
    }

    /// What [`wf`](Self::wf) says of what the wallet holds.
    pub proof fn lemma_wf(&self)
        requires
            self.wf(),
        ensures
            self@.size() <= u64::MAX,
            self@.base.size <= TREE_CAPACITY,
            self@.size() == 0 ==> self@.tip == TreeV::empty(),
            all_canonical(self@.leaves) && self@.size() <= TREE_CAPACITY ==> self@.tip.size
                == self@.size(),
            self@.in_step(),
    {
    }

    /// A wallet that has seen nothing.
    fn fresh(fvk: FullViewingKey) -> (db: Self)
        ensures
            db.wf(),
            db@ == WalletV::fresh(fvk@),
    {
        let db: WalletDb = WalletDb {
            fvk,
            ivk: fvk.to_ivk(),
            my_address: fvk.address(),
            tree: mirror_empty(),
            base_frontier: frontier_empty(),
            base_size: 0,
            leaves: Vec::new(),
            notes: Vec::new(),
            size: 0,
            witnesses: Vec::new(),
            lag_tree: mirror_empty(),
            witnessed_upto: 0,
            spent_nullifiers: MemNullifierSet::new(),
        };
        proof {
            assert(db@.leaves =~= Seq::<Seq<u8>>::empty());
            assert(db@.notes =~= Seq::<OwnedV>::empty());
            assert(db@.witnesses =~= Seq::<(nat, WitnessV)>::empty());
            assert(db@.leaves.take(0) =~= Seq::<Seq<u8>>::empty());
        }
        db
    }

    /// A wallet view from a 32-byte seed; `None` where the seed is no spending key.
    pub fn from_seed(seed: [u8; 32]) -> (r: Option<Self>)
        ensures
            r is Some <==> fvk_of_seed(seed@) is Some,
            r matches Some(db) ==> db.wf() && db@.tidy() && db@ == WalletV::fresh(
                fvk_of_seed(seed@)->Some_0,
            ),
    {
        match FullViewingKey::from_seed(&seed) {
            Some(fvk) => Some(WalletDb::fresh(fvk)),
            None => None,
        }
    }

    /// A watch-only wallet view from a serialized full viewing key: it sees what the seed
    /// wallet sees, and holds no authority to spend. `None` where the bytes are no key.
    pub fn from_fvk(fvk_bytes: &[u8; 96]) -> (r: Option<Self>)
        ensures
            r is Some <==> viewing_key(fvk_bytes@),
            r matches Some(db) ==> db.wf() && db@.tidy() && db@ == WalletV::fresh(fvk_bytes@),
    {
        match FullViewingKey::from_bytes(fvk_bytes) {
            Some(fvk) => Some(WalletDb::fresh(fvk)),
            None => None,
        }
    }

    /// The wallet's full viewing key.
    pub fn fvk(&self) -> (k: &FullViewingKey)
        ensures
            k@ == self@.fvk,
    {
        &self.fvk
    }

    /// The wallet's raw address.
    pub fn my_address_bytes(&self) -> (a: [u8; 43])
        requires
            self.wf(),
        ensures
            a@ == self@.address(),
    {
        self.my_address
    }

    /// A wallet that starts from a checkpoint frontier: only leaves behind it are scanned.
    /// `None` on a bad seed or an inconsistent frontier.
    pub fn from_frontier(seed: [u8; 32], checkpoint: &FrontierState) -> (r: Option<Self>)
        ensures
            r is Some <==> fvk_of_seed(seed@) is Some && checkpoint.consistent(),
            r matches Some(db) ==> db.wf() && db@.tidy() && db@ == WalletV::fresh(
                fvk_of_seed(seed@)->Some_0,
            ).rebased(checkpoint.tree()),
    {
        match WalletDb::from_seed(seed) {
            Some(mut db) => match db.apply_frontier(checkpoint) {
                Some(()) => Some(db),
                None => None,
            },
            None => None,
        }
    }

    /// Rebases a wallet that has ingested nothing onto a checkpoint frontier. `None`, and
    /// no change, where the frontier is inconsistent, or leaves were ingested or the
    /// wallet was rebased before.
    pub fn apply_frontier(&mut self, checkpoint: &FrontierState) -> (r: Option<()>)
        requires
            old(self).wf(),
        ensures
            final(self).wf(),
            r is Some <==> old(self)@.leaves.len() == 0 && old(self)@.base.size == 0
                && checkpoint.consistent(),
            r is Some ==> final(self)@ == old(self)@.rebased(checkpoint.tree()),
            r is None ==> *final(self) == *old(self),
            old(self)@.tidy() ==> final(self)@.tidy(),
    {
        broadcast use GlobalTree::lemma_tree;
        if self.leaves.len() != 0 || self.base_size != 0 {
            return None;
        }
        let gt: GlobalTree = match GlobalTree::from_state(checkpoint) {
            Ok(gt) => gt,
            Err(_) => {
                return None;
            },
        };
        self.base_frontier = frontier_clone(gt.frontier());
        self.base_size = gt.size();
        self.tree = mirror_from_frontier(&self.base_frontier);
        self.lag_tree = mirror_from_frontier(&self.base_frontier);
        self.witnessed_upto = self.base_size;
        self.witnesses.clear();
        self.size = self.base_size;
        proof {
            assert(self@.leaves == old(self)@.leaves);
            assert(self@.witnesses =~= Seq::<(nat, WitnessV)>::empty());
            assert(self@.leaves.take(0) =~= Seq::<Seq<u8>>::empty());
            assert(self@ == old(self)@.rebased(checkpoint.tree()));
            if old(self)@.tidy() && old(self)@.notes.len() > 0 {
                assert(old(self)@.notes[0].position < old(self)@.size());
            }
        }
        Some(())
    }

    /// The wallet's unspent notes.
    pub fn notes(&self) -> (s: &[OwnedNote])
        ensures
            owned_views(s@) == self@.notes,
    {
        self.notes.as_slice()
    }

    /// The leaf count that the stream starts from.
    pub fn base_size(&self) -> (n: u64)
        requires
            self.wf(),
        ensures
            n == self@.base.size,
    {
        self.base_size
    }

    /// Number of leaves in the stream.
    pub fn leaf_count(&self) -> (n: usize)
        ensures
            n == self@.leaves.len(),
    {
        self.leaves.len()
    }

    /// The leaf count at the end of the stream: the next leaf's position.
    pub fn size(&self) -> (n: u64)
        requires
            self.wf(),
        ensures
            n == self@.size(),
    {
        self.size
    }

    /// The leaf count that the live witnesses are at.
    pub fn witnessed_upto(&self) -> (n: u64)
        ensures
            n == self@.upto,
    {
        self.witnessed_upto
    }

    /// Total value of the unspent notes.
    pub fn balance(&self) -> (t: u128)
        ensures
            t == worth(self@.notes),
    {
        let ghost all = self@.notes;
        let mut t: u128 = 0;
        let mut i: usize = 0;
        assert(all.take(0) =~= Seq::<OwnedV>::empty());
        while i < self.notes.len()
            invariant
                0 <= i <= self.notes@.len(),
                all == owned_views(self.notes@),
                t == worth(all.take(i as int)),
                t <= i * 0xffff_ffff_ffff_ffff,
            decreases self.notes@.len() - i,
        {
            proof {
                assert(all.take(i + 1).drop_last() =~= all.take(i as int));
                crate::state::lemma_count_bound(i, 0xffff_ffff_ffff_ffff);
                assert((i + 1) * 0xffff_ffff_ffff_ffff == i * 0xffff_ffff_ffff_ffff
                    + 0xffff_ffff_ffff_ffff) by (nonlinear_arith);
            }
            t = t + self.notes[i].value() as u128;
            i = i + 1;
        }
        assert(all.take(i as int) =~= all);
        t
    }

    /// The anchor at the end of the stream.
    pub fn anchor(&self) -> (a: [u8; 32])
        requires
            self.wf(),
        ensures
            a@ == self@.tip.root(),
    {
        broadcast use GlobalTree::lemma_tree;
        if self.size == 0 {
            GlobalTree::new().anchor().to_bytes()
        } else {
            mirror_root(&self.tree)
        }
    }

    /// One more leaf, and the note behind it where the wallet owns it.
    fn append_leaf(&mut self, cmx: &[u8; 32], owned: Option<Note>)
        requires
            old(self).wf(),
            canonical_base(cmx@),
            old(self)@.size() < u64::MAX,
        ensures
            final(self).wf(),
            final(self)@ == old(self)@.append_leaf(
                cmx@,
                match owned {
                    Some(note) => Some(note@),
                    None => None,
                },
            ),
            old(self)@.tidy() && (owned matches Some(note) ==> note@.commitment() == cmx@
                && owned_address(old(self)@.fvk, note@.recipient)) ==> final(self)@.tidy(),
            final(self)@.went_on_from(old(self)@),
    {
        let ghost old_v = self@;
        self.leaves.push(*cmx);
        mirror_append(&mut self.tree, cmx);
        match owned {
            Some(note) => {
                let nullifier: [u8; 32] = note.nullifier(&self.fvk);
                let entry: OwnedNote = OwnedNote { note, position: self.size, nullifier };
                self.notes.push(entry);
                assert(self@.notes =~= old_v.notes.push(entry@));
            },
            None => {},
        }
        self.size = self.size + 1;
        proof {
            assert(self@.leaves =~= old_v.leaves.push(cmx@));
            assert(self@.tip == old_v.tip.push(cmx@));
            let n = old_v.leaves.len() as int;
            assert(self@.leaves.take(n) =~= old_v.leaves);
            assert forall|i: int| 0 <= i < n && all_canonical(self@.leaves) implies canonical_base(
                #[trigger] old_v.leaves[i],
            ) by {
                assert(self@.leaves[i] == old_v.leaves[i]);
            }
            lemma_in_step_grows(old_v, self@);
            if old_v.tidy() {
                assert forall|i: int| 0 <= i < self@.leaves.len() implies canonical_base(
                    #[trigger] self@.leaves[i],
                ) by {
                    if i < n {
                        assert(self@.leaves[i] == old_v.leaves[i]);
                    }
                }
                assert(self@.leaves.drop_last() =~= old_v.leaves);
                if owned matches Some(note) ==> note@.commitment() == cmx@ && owned_address(
                    old_v.fvk,
                    note@.recipient,
                ) {
                    assert forall|i: int| 0 <= i < self@.notes.len() implies self@.keeps(
                        #[trigger] self@.notes[i],
                    ) by {
                        if i < old_v.notes.len() {
                            assert(self@.notes[i] == old_v.notes[i]);
                            assert(old_v.keeps(old_v.notes[i]));
                            let k = old_v.notes[i].position - old_v.base.size;
                            assert(self@.leaves[k] == old_v.leaves[k]);
                        }
                    }
                }
            }
        }
    }

    /// The coinbase note that a description and a value make, where it is paid to this
    /// wallet.
    pub(crate) fn recover_coinbase_note(&self, desc: &CoinbaseNoteDesc, value: u64) -> (r: Option<Note>)
        requires
            self.wf(),
        ensures
            match r {
                Some(note) => self@.recover(*desc, value) == Some(note@),
                None => self@.recover(*desc, value) is None,
            },
    {
        if !same(&desc.recipient, &self.my_address) {
            return None;
        }
        match Note::from_parts(&desc.recipient, value, &desc.rho, &desc.rseed) {
            Ok(note) => Some(note),
            Err(_) => None,
        }
    }

    /// Ingests one accepted chain block in the order in which consensus appends its
    /// commitments: the coinbase notes, then each accepted bundle's actions. A coinbase
    /// description that makes no note is skipped, and a bundle that reveals a nullifier a
    /// second time is dropped.
    pub fn ingest_block(&mut self, coinbase: &[(CoinbaseNoteDesc, u64)], txs: &[&ShieldedBundle])
        requires
            old(self).wf(),
            old(self)@.size() + coinbase@.len() + action_count(bundle_views(txs@)) <= u64::MAX,
        ensures
            final(self).wf(),
            final(self)@ == old(self)@.coinbase(coinbase@).bundles(bundle_views(txs@)),
            final(self)@.went_on_from(old(self)@),
            old(self)@.tidy() ==> final(self)@.tidy(),
    {
        let mut i: usize = 0;
        assert(coinbase@.take(0) =~= Seq::<(CoinbaseNoteDesc, u64)>::empty());
        while i < coinbase.len()
            invariant
                0 <= i <= coinbase@.len(),
                self.wf(),
                self@ == old(self)@.coinbase(coinbase@.take(i as int)),
                self@.went_on_from(old(self)@),
                old(self)@.tidy() ==> self@.tidy(),
                self@.fvk == old(self)@.fvk,
                self@.size() <= old(self)@.size() + i,
                old(self)@.size() + coinbase@.len() + action_count(bundle_views(txs@)) <= u64::MAX,
            decreases coinbase@.len() - i,
        {
            proof {
                assert(coinbase@.take(i + 1).drop_last() =~= coinbase@.take(i as int));
                assert(coinbase@.take(i + 1).last() == coinbase@[i as int]);
            }
            let desc: CoinbaseNoteDesc = coinbase[i].0;
            let value: u64 = coinbase[i].1;
            match crate::coinbase::coinbase_note_commitment(&desc, value) {
                Ok(cmx) => {
                    let owned: Option<Note> = self.recover_coinbase_note(&desc, value);
                    self.append_leaf(&cmx.to_bytes(), owned);
                },
                Err(_) => {},
            }
            i = i + 1;
        }
        assert(coinbase@.take(i as int) =~= coinbase@);
        self.ingest_bundles(txs);
    }

    /// [`ingest_block`](Self::ingest_block) with the coinbase commitments computed by the
    /// caller, who passes exactly the notes that make one.
    pub fn ingest_block_precomputed(
        &mut self,
        coinbase: &[(CoinbaseNoteDesc, u64, ExtractedNoteCommitment)],
        txs: &[&ShieldedBundle],
    )
        requires
            old(self).wf(),
            old(self)@.size() + coinbase@.len() + action_count(bundle_views(txs@)) <= u64::MAX,
        ensures
            final(self).wf(),
            final(self)@ == old(self)@.coinbase_precomputed(coinbase@).bundles(
                bundle_views(txs@),
            ),
            old(self)@.tidy() && true_commitments(coinbase@) ==> final(self)@.tidy(),
            final(self)@.went_on_from(old(self)@),
    {
        let mut i: usize = 0;
        assert(coinbase@.take(0) =~= Seq::<(CoinbaseNoteDesc, u64, ExtractedNoteCommitment)>::empty());
        while i < coinbase.len()
            invariant
                0 <= i <= coinbase@.len(),
                self.wf(),
                self@ == old(self)@.coinbase_precomputed(coinbase@.take(i as int)),
                self@.went_on_from(old(self)@),
                old(self)@.tidy() && true_commitments(coinbase@) ==> self@.tidy(),
                self@.fvk == old(self)@.fvk,
                self@.size() <= old(self)@.size() + i,
                old(self)@.size() + coinbase@.len() + action_count(bundle_views(txs@)) <= u64::MAX,
            decreases coinbase@.len() - i,
        {
            proof {
                assert(coinbase@.take(i + 1).drop_last() =~= coinbase@.take(i as int));
                assert(coinbase@.take(i + 1).last() == coinbase@[i as int]);
            }
            let owned: Option<Note> = self.recover_coinbase_note(&coinbase[i].0, coinbase[i].1);
            self.append_leaf(&coinbase[i].2.to_bytes(), owned);
            i = i + 1;
        }
        assert(coinbase@.take(i as int) =~= coinbase@);
        self.ingest_bundles(txs);
    }

    /// Whether a bundle reveals a nullifier that the stream revealed before.
    fn is_dropped(&self, bundle: &ShieldedBundle) -> (r: bool)
        ensures
            r == self@.drops(bundle@),
    {
        proof {
            self.spent_nullifiers.lemma_spent();
        }
        let mut i: usize = 0;
        while i < bundle.actions.len()
            invariant
                0 <= i <= bundle.actions@.len(),
                self.spent_nullifiers.spent() == self@.spent,
                forall|j: int|
                    0 <= j < i ==> !self@.spent.contains((#[trigger] bundle@.actions[j]).nullifier),
            decreases bundle.actions@.len() - i,
        {
            if self.spent_nullifiers.contains(&bundle.actions[i].nullifier) {
                assert(self@.spent.contains(bundle@.actions[i as int].nullifier));
                return true;
            }
            i = i + 1;
        }
        false
    }

    /// Drops the notes that a nullifier spends, and remembers the nullifier.
    fn reveal_nullifier(&mut self, nf: &[u8; 32])
        requires
            old(self).wf(),
        ensures
            final(self).wf(),
            final(self)@ == old(self)@.revealed(nf@),
            final(self)@.went_on_from(old(self)@),
            old(self)@.tidy() ==> final(self)@.tidy(),
    {
        let ghost all = self@.notes;
        let mut kept: Vec<OwnedNote> = Vec::new();
        let mut i: usize = 0;
        assert(all.take(0) =~= Seq::<OwnedV>::empty());
        assert(owned_views(kept@) =~= Seq::<OwnedV>::empty());
        while i < self.notes.len()
            invariant
                0 <= i <= self.notes@.len(),
                all == owned_views(self.notes@),
                owned_views(kept@) == unspent(all.take(i as int), nf@),
            decreases self.notes@.len() - i,
        {
            let n: OwnedNote = self.notes[i];
            proof {
                assert(all.take(i + 1).drop_last() =~= all.take(i as int));
                assert(all.take(i + 1).last() == n@);
            }
            if !same(&n.nullifier, nf) {
                let ghost before = kept@;
                kept.push(n);
                assert(owned_views(kept@) =~= owned_views(before).push(n@));
            }
            i = i + 1;
        }
        assert(all.take(i as int) =~= all);
        self.notes = kept;
        self.spent_nullifiers.insert(*nf);
        assert(self@ == old(self)@.revealed(nf@));
        proof {
            lemma_unspent_ascend(all, nf@, self@.base.size, self@.size());
            assert forall|i: int| 0 <= i < self@.notes.len() implies all.contains(
                #[trigger] self@.notes[i],
            ) by {
                lemma_unspent_among(all, nf@, i);
            }
        }
    }

    /// Ingests accepted bundles in order.
    fn ingest_bundles(&mut self, txs: &[&ShieldedBundle])
        requires
            old(self).wf(),
            old(self)@.size() + action_count(bundle_views(txs@)) <= u64::MAX,
        ensures
            final(self).wf(),
            final(self)@ == old(self)@.bundles(bundle_views(txs@)),
            final(self)@.went_on_from(old(self)@),
            old(self)@.tidy() ==> final(self)@.tidy(),
    {
        let ghost views = bundle_views(txs@);
        let mut i: usize = 0;
        assert(views.take(0) =~= Seq::<BundleV>::empty());
        while i < txs.len()
            invariant
                0 <= i <= txs@.len(),
                views == bundle_views(txs@),
                self.wf(),
                self@ == old(self)@.bundles(views.take(i as int)),
                self@.went_on_from(old(self)@),
                old(self)@.tidy() ==> self@.tidy(),
                self@.size() <= old(self)@.size() + action_count(views.take(i as int)),
                old(self)@.size() + action_count(views) <= u64::MAX,
            decreases txs@.len() - i,
        {
            proof {
                assert(views.take(i + 1).drop_last() =~= views.take(i as int));
                assert(views.take(i + 1).last() == txs@[i as int]@);
                lemma_action_count_prefix(views, i + 1);
            }
            self.ingest_bundle(txs[i]);
            i = i + 1;
        }
        assert(views.take(i as int) =~= views);
    }

    /// Ingests one accepted bundle.
    fn ingest_bundle(&mut self, bundle: &ShieldedBundle)
        requires
            old(self).wf(),
            old(self)@.size() + bundle@.actions.len() <= u64::MAX,
        ensures
            final(self).wf(),
            final(self)@ == old(self)@.bundle(bundle@),
            final(self)@.size() <= old(self)@.size() + bundle@.actions.len(),
            final(self)@.went_on_from(old(self)@),
            old(self)@.tidy() ==> final(self)@.tidy(),
    {
        if self.is_dropped(bundle) {
            return;
        }
        let ghost all = bundle@.actions;
        let ghost ivk = self@.ivk();
        let received: Vec<ReceivedNote> = scan_bundle(&self.ivk, bundle);
        let mut i: usize = 0;
        while i < bundle.actions.len()
            invariant
                0 <= i <= bundle.actions@.len(),
                all == action_views(bundle.actions@),
                ivk == old(self)@.ivk(),
                received_views(received@) == scanned(ivk, all),
                actions_hold_up(ivk, all),
                self.wf(),
                self@ == old(self)@.actions(all, i as int),
                self@.went_on_from(old(self)@),
                old(self)@.tidy() ==> self@.tidy(),
                self@.size() <= old(self)@.size() + i,
                self@.fvk == old(self)@.fvk,
                old(self)@.size() + all.len() <= u64::MAX,
            decreases bundle.actions@.len() - i,
        {
            let action: &ActionWire = &bundle.actions[i];
            assert(all[i as int] == action@);
            assert(hit(ivk, all[i as int]) matches Some(note) ==> note.commitment() == action.cmx@
                && owned_address(self@.fvk, note.recipient)) by {
                assert(ivk_of_fvk(self@.fvk) == ivk);
            }
            self.reveal_nullifier(&action.nullifier);
            match ExtractedNoteCommitment::from_bytes(&action.cmx) {
                Some(cmx) => {
                    let owned: Option<Note> = note_of_action(
                        received.as_slice(),
                        i,
                        Ghost(ivk),
                        Ghost(all),
                    );
                    self.append_leaf(&cmx.to_bytes(), owned);
                },
                None => {},
            }
            i = i + 1;
        }
    }

    /// What an unsettled block would do to the balance, without touching any state.
    pub fn preview_block(&self, coinbase: &[(CoinbaseNoteDesc, u64)], txs: &[&ShieldedBundle]) -> (p:
        Preview)
        requires
            self.wf(),
            coinbase@.len() + action_count(bundle_views(txs@)) <= u64::MAX,
        ensures
            p.incoming == self@.coinbase_incoming(coinbase@) + self@.bundles_incoming(
                bundle_views(txs@),
            ),
            p.outgoing == self@.bundles_outgoing(bundle_views(txs@)),
            p.incoming <= (coinbase@.len() + action_count(bundle_views(txs@)))
                * 0xffff_ffff_ffff_ffff,
            p.outgoing <= action_count(bundle_views(txs@)) * 0xffff_ffff_ffff_ffff,
    {
        let ghost views = bundle_views(txs@);
        let mut p: Preview = Preview::default();
        let mut i: usize = 0;
        assert(coinbase@.take(0) =~= Seq::<(CoinbaseNoteDesc, u64)>::empty());
        while i < coinbase.len()
            invariant
                0 <= i <= coinbase@.len(),
                self.wf(),
                p.outgoing == 0,
                p.incoming == self@.coinbase_incoming(coinbase@.take(i as int)),
                p.incoming <= i * 0xffff_ffff_ffff_ffff,
            decreases coinbase@.len() - i,
        {
            proof {
                assert(coinbase@.take(i + 1).drop_last() =~= coinbase@.take(i as int));
                assert(coinbase@.take(i + 1).last() == coinbase@[i as int]);
                lemma_values_fit(i as int, 0xffff_ffff_ffff_ffff);
            }
            if self.recover_coinbase_note(&coinbase[i].0, coinbase[i].1).is_some() {
                p.incoming = p.incoming + coinbase[i].1 as u128;
            }
            i = i + 1;
        }
        assert(coinbase@.take(i as int) =~= coinbase@);
        let mut k: usize = 0;
        assert(views.take(0) =~= Seq::<BundleV>::empty());
        while k < txs.len()
            invariant
                0 <= k <= txs@.len(),
                self.wf(),
                views == bundle_views(txs@),
                coinbase@.len() + action_count(views) <= u64::MAX,
                p.incoming == self@.coinbase_incoming(coinbase@) + self@.bundles_incoming(
                    views.take(k as int),
                ),
                p.outgoing == self@.bundles_outgoing(views.take(k as int)),
                p.incoming <= (coinbase@.len() + action_count(views.take(k as int)))
                    * 0xffff_ffff_ffff_ffff,
                p.outgoing <= action_count(views.take(k as int)) * 0xffff_ffff_ffff_ffff,
            decreases txs@.len() - k,
        {
            let bundle: &ShieldedBundle = txs[k];
            proof {
                assert(views.take(k + 1).drop_last() =~= views.take(k as int));
                assert(views.take(k + 1).last() == bundle@);
                lemma_action_count_prefix(views, k + 1);
            }
            if !self.is_dropped(bundle) {
                let ghost n = action_count(views.take(k as int)) as int;
                proof {
                    lemma_values_add(coinbase@.len() + n, bundle@.actions.len() as int);
                    lemma_values_add(n, bundle@.actions.len() as int);
                    lemma_values_fit(coinbase@.len() + n + bundle@.actions.len(), 0);
                    lemma_values_fit(n + bundle@.actions.len(), 0);
                }
                let out: u128 = self.outgoing_of(bundle);
                let received: Vec<ReceivedNote> = scan_bundle(&self.ivk, bundle);
                proof {
                    lemma_scanned_at(self@.ivk(), bundle@.actions, 0);
                }
                let inc: u128 = received_value(received.as_slice());
                p.outgoing = p.outgoing + out;
                p.incoming = p.incoming + inc;
            } else {
                proof {
                    lemma_values_add(
                        (coinbase@.len() + action_count(views.take(k as int))) as int,
                        bundle@.actions.len() as int,
                    );
                    lemma_values_add(
                        action_count(views.take(k as int)) as int,
                        bundle@.actions.len() as int,
                    );
                }
            }
            k = k + 1;
        }
        assert(views.take(k as int) =~= views);
        p
    }

    /// The value of owned notes that a bundle spends.
    fn outgoing_of(&self, bundle: &ShieldedBundle) -> (t: u128)
        requires
            bundle@.actions.len() <= u64::MAX,
        ensures
            t == spent_value(self@.notes, bundle@.actions),
            t <= bundle@.actions.len() * 0xffff_ffff_ffff_ffff,
    {
        let ghost all = bundle@.actions;
        let mut t: u128 = 0;
        let mut i: usize = 0;
        assert(all.take(0) =~= Seq::<ActionV>::empty());
        while i < bundle.actions.len()
            invariant
                0 <= i <= bundle.actions@.len(),
                all == action_views(bundle.actions@),
                t == spent_value(self@.notes, all.take(i as int)),
                t <= i * 0xffff_ffff_ffff_ffff,
            decreases bundle.actions@.len() - i,
        {
            proof {
                assert(all.take(i + 1).drop_last() =~= all.take(i as int));
                assert(all.take(i + 1).last() == bundle.actions@[i as int]@);
                lemma_values_fit(i as int, 0xffff_ffff_ffff_ffff);
            }
            t = t + self.value_spent_by(&bundle.actions[i].nullifier) as u128;
            i = i + 1;
        }
        assert(all.take(i as int) =~= all);
        t
    }

    /// The value of the first note that a nullifier spends.
    fn value_spent_by(&self, nf: &[u8; 32]) -> (v: u64)
        ensures
            v == first_value(self@.notes, nf@),
    {
        let ghost all = self@.notes;
        let mut i: usize = 0;
        assert(all.skip(0) =~= all);
        while i < self.notes.len()
            invariant
                0 <= i <= self.notes@.len(),
                all == owned_views(self.notes@),
                first_value(all, nf@) == first_value(all.skip(i as int), nf@),
            decreases self.notes@.len() - i,
        {
            proof {
                assert(all.skip(i as int)[0] == self.notes@[i as int]@);
                assert(all.skip(i as int).skip(1) =~= all.skip(i + 1));
            }
            if same(&self.notes[i].nullifier, nf) {
                return self.notes[i].value();
            }
            i = i + 1;
        }
        0
    }

    /// Drops the notes at a position, which the wallet has spent.
    pub fn mark_spent(&mut self, position: u64)
        requires
            old(self).wf(),
        ensures
            final(self).wf(),
            final(self)@ == (WalletV {
                notes: elsewhere(old(self)@.notes, position as nat),
                ..old(self)@
            }),
            old(self)@.tidy() ==> final(self)@.tidy(),
    {
        let ghost all = self@.notes;
        let mut kept: Vec<OwnedNote> = Vec::new();
        let mut i: usize = 0;
        assert(all.take(0) =~= Seq::<OwnedV>::empty());
        assert(owned_views(kept@) =~= Seq::<OwnedV>::empty());
        while i < self.notes.len()
            invariant
                0 <= i <= self.notes@.len(),
                all == owned_views(self.notes@),
                owned_views(kept@) == elsewhere(all.take(i as int), position as nat),
            decreases self.notes@.len() - i,
        {
            let n: OwnedNote = self.notes[i];
            proof {
                assert(all.take(i + 1).drop_last() =~= all.take(i as int));
                assert(all.take(i + 1).last() == n@);
            }
            if n.position != position {
                let ghost before = kept@;
                kept.push(n);
                assert(owned_views(kept@) =~= owned_views(before).push(n@));
            }
            i = i + 1;
        }
        assert(all.take(i as int) =~= all);
        self.notes = kept;
        proof {
            lemma_elsewhere_ascend(all, position as nat, self@.base.size, self@.size());
            assert forall|i: int| 0 <= i < self@.notes.len() implies all.contains(
                #[trigger] self@.notes[i],
            ) by {
                lemma_elsewhere_among(all, position as nat, i);
            }
        }
    }
}

proof fn lemma_ascend_push(notes: Seq<OwnedV>, n: OwnedV, from: nat, to: nat)
    requires
        ascend(notes, from, n.position),
        from <= n.position < to,
    ensures
        ascend(notes.push(n), from, to),
{
}

proof fn lemma_ascend_front(notes: Seq<OwnedV>, from: nat, to: nat)
    requires
        ascend(notes, from, to),
        notes.len() > 0,
    ensures
        ascend(notes.drop_last(), from, notes.last().position),
        from <= notes.last().position < to,
{
    assert(notes[notes.len() - 1] == notes.last());
    assert forall|i: int| 0 <= i < notes.drop_last().len() implies from <= (
    #[trigger] notes.drop_last()[i]).position < notes.last().position by {
        assert(notes[i].position < notes[notes.len() - 1].position);
    }
    assert forall|i: int, j: int| 0 <= i < j < notes.drop_last().len() implies (
    #[trigger] notes.drop_last()[i]).position < (#[trigger] notes.drop_last()[j]).position by {
        assert(notes[i].position < notes[j].position);
    }
}

proof fn lemma_unspent_among(notes: Seq<OwnedV>, nf: Seq<u8>, i: int)
    requires
        0 <= i < unspent(notes, nf).len(),
    ensures
        notes.contains(unspent(notes, nf)[i]),
    decreases notes.len(),
{
    let front = notes.drop_last();
    if i < unspent(front, nf).len() {
        lemma_unspent_among(front, nf, i);
        let x = unspent(front, nf)[i];
        let k = choose|k: int| 0 <= k < front.len() && front[k] == x;
        assert(notes[k] == x);
    } else {
        assert(notes[notes.len() - 1] == notes.last());
    }
}

proof fn lemma_elsewhere_among(notes: Seq<OwnedV>, position: nat, i: int)
    requires
        0 <= i < elsewhere(notes, position).len(),
    ensures
        notes.contains(elsewhere(notes, position)[i]),
    decreases notes.len(),
{
    let front = notes.drop_last();
    if i < elsewhere(front, position).len() {
        lemma_elsewhere_among(front, position, i);
        let x = elsewhere(front, position)[i];
        let k = choose|k: int| 0 <= k < front.len() && front[k] == x;
        assert(notes[k] == x);
    } else {
        assert(notes[notes.len() - 1] == notes.last());
    }
}

/// Dropping the notes that a nullifier spends keeps the others in order.
proof fn lemma_unspent_ascend(notes: Seq<OwnedV>, nf: Seq<u8>, from: nat, to: nat)
    ensures
        ascend(notes, from, to) ==> ascend(unspent(notes, nf), from, to),
    decreases notes.len(),
{
    if ascend(notes, from, to) && notes.len() > 0 {
        lemma_ascend_front(notes, from, to);
        lemma_unspent_ascend(notes.drop_last(), nf, from, notes.last().position);
        if notes.last().nullifier != nf {
            lemma_ascend_push(unspent(notes.drop_last(), nf), notes.last(), from, to);
        }
    }
}

proof fn lemma_elsewhere_all(notes: Seq<OwnedV>, position: nat)
    requires
        !held_at(notes, position),
    ensures
        elsewhere(notes, position) == notes,
    decreases notes.len(),
{
    if notes.len() > 0 {
        assert(notes[notes.len() - 1].position != position);
        assert forall|i: int| 0 <= i < notes.drop_last().len() implies (
        #[trigger] notes.drop_last()[i]).position != position by {
            assert(notes[i].position != position);
        }
        lemma_elsewhere_all(notes.drop_last(), position);
        assert(notes.drop_last().push(notes.last()) =~= notes);
    } else {
        assert(elsewhere(notes, position) =~= notes);
    }
}

/// Where positions ascend, dropping the notes at a note's position drops that note alone.
pub proof fn lemma_elsewhere_removes(notes: Seq<OwnedV>, i: int, from: nat, to: nat)
    requires
        ascend(notes, from, to),
        0 <= i < notes.len(),
    ensures
        elsewhere(notes, notes[i].position) == notes.remove(i),
    decreases notes.len(),
{
    let p = notes[i].position;
    let front = notes.drop_last();
    lemma_ascend_front(notes, from, to);
    if i == notes.len() - 1 {
        assert(!held_at(front, p)) by {
            if held_at(front, p) {
                let j = choose|j: int| 0 <= j < front.len() && (#[trigger] front[j]).position == p;
                assert(notes[j].position < notes[i].position);
            }
        }
        lemma_elsewhere_all(front, p);
        assert(notes.remove(i) =~= front);
    } else {
        lemma_elsewhere_removes(front, i, from, notes.last().position);
        assert(notes[i].position < notes[notes.len() - 1].position);
        assert(notes.remove(i) =~= front.remove(i).push(notes.last()));
    }
}

/// Dropping the notes at a position keeps the others in order.
proof fn lemma_elsewhere_ascend(notes: Seq<OwnedV>, position: nat, from: nat, to: nat)
    ensures
        ascend(notes, from, to) ==> ascend(elsewhere(notes, position), from, to),
    decreases notes.len(),
{
    if ascend(notes, from, to) && notes.len() > 0 {
        lemma_ascend_front(notes, from, to);
        lemma_elsewhere_ascend(notes.drop_last(), position, from, notes.last().position);
        if notes.last().position != position {
            lemma_ascend_push(elsewhere(notes.drop_last(), position), notes.last(), from, to);
        }
    }
}

impl WalletV {
    /// The value that a block's coinbase pays this wallet.
    pub open spec fn coinbase_incoming(self, notes: Seq<(CoinbaseNoteDesc, u64)>) -> nat
        decreases notes.len(),
    {
        if notes.len() == 0 {
            0
        } else {
            self.coinbase_incoming(notes.drop_last()) + if self.recover(
                notes.last().0,
                notes.last().1,
            ) is Some {
                notes.last().1 as nat
            } else {
                0
            }
        }
    }

    /// The value that bundles pay this wallet, those that would be dropped aside.
    pub open spec fn bundles_incoming(self, list: Seq<BundleV>) -> nat
        decreases list.len(),
    {
        if list.len() == 0 {
            0
        } else {
            self.bundles_incoming(list.drop_last()) + if self.drops(list.last()) {
                0
            } else {
                total_received(scanned(self.ivk(), list.last().actions))
            }
        }
    }

    /// The value of owned notes that bundles spend, those that would be dropped aside.
    pub open spec fn bundles_outgoing(self, list: Seq<BundleV>) -> nat
        decreases list.len(),
    {
        if list.len() == 0 {
            0
        } else {
            self.bundles_outgoing(list.drop_last()) + if self.drops(list.last()) {
                0
            } else {
                spent_value(self.notes, list.last().actions)
            }
        }
    }
}

/// What recovered notes are worth together.
pub open spec fn total_received(list: Seq<ReceivedV>) -> nat
    decreases list.len(),
{
    if list.len() == 0 {
        0
    } else {
        total_received(list.drop_last()) + list.last().note.value as nat
    }
}

/// The value of the first note that a nullifier spends; zero where it spends none.
pub open spec fn first_value(notes: Seq<OwnedV>, nf: Seq<u8>) -> u64
    decreases notes.len(),
{
    if notes.len() == 0 {
        0
    } else if notes[0].nullifier == nf {
        notes[0].note.value
    } else {
        first_value(notes.skip(1), nf)
    }
}

/// The value of the notes that actions spend.
pub open spec fn spent_value(notes: Seq<OwnedV>, actions: Seq<ActionV>) -> nat
    decreases actions.len(),
{
    if actions.len() == 0 {
        0
    } else {
        spent_value(notes, actions.drop_last()) + first_value(notes, actions.last().nullifier) as nat
    }
}

/// What recovered notes are worth together.
fn received_value(list: &[ReceivedNote]) -> (t: u128)
    ensures
        t == total_received(received_views(list@)),
        t <= list@.len() * 0xffff_ffff_ffff_ffff,
{
    let ghost all = received_views(list@);
    let mut t: u128 = 0;
    let mut i: usize = 0;
    assert(all.take(0) =~= Seq::<ReceivedV>::empty());
    while i < list.len()
        invariant
            0 <= i <= list@.len(),
            all == received_views(list@),
            t == total_received(all.take(i as int)),
            t <= i * 0xffff_ffff_ffff_ffff,
        decreases list@.len() - i,
    {
        proof {
            assert(all.take(i + 1).drop_last() =~= all.take(i as int));
            assert(all.take(i + 1).last() == list@[i as int]@);
            lemma_values_fit(i as int, 0xffff_ffff_ffff_ffff);
        }
        t = t + list[i].value() as u128;
        i = i + 1;
    }
    assert(all.take(i as int) =~= all);
    t
}

/// The note that trial decryption found in an action.
fn note_of_action(
    received: &[ReceivedNote],
    index: usize,
    Ghost(ivk): Ghost<Seq<u8>>,
    Ghost(actions): Ghost<Seq<ActionV>>,
) -> (r: Option<Note>)
    requires
        received_views(received@) == scanned(ivk, actions),
        index < actions.len(),
    ensures
        match r {
            Some(note) => hit(ivk, actions[index as int]) == Some(note@),
            None => hit(ivk, actions[index as int]) is None,
        },
{
    let ghost views = scanned(ivk, actions);
    proof {
        lemma_scanned_at(ivk, actions, index as int);
    }
    let mut k: usize = 0;
    while k < received.len()
        invariant
            0 <= k <= received@.len(),
            views == received_views(received@),
            forall|j: int| 0 <= j < k ==> (#[trigger] views[j]).action_index != index,
            forall|j: int|
                0 <= j < views.len() && (#[trigger] views[j]).action_index == index ==> hit(
                    ivk,
                    actions[index as int],
                ) == Some(views[j].note),
        decreases received@.len() - k,
    {
        assert(views[k as int] == received@[k as int]@);
        if received[k].action_index == index {
            return Some(received[k].note);
        }
        k = k + 1;
    }
    None
}

/// What a scan found at an index is what the action there sends.
pub proof fn lemma_scanned_at(ivk: Seq<u8>, actions: Seq<ActionV>, index: int)
    ensures
        scanned(ivk, actions).len() <= actions.len(),
        forall|j: int|
            0 <= j < scanned(ivk, actions).len() ==> 0 <= (#[trigger] scanned(
                ivk,
                actions,
            )[j]).action_index < actions.len(),
        0 <= index < actions.len() ==> forall|j: int|
            0 <= j < scanned(ivk, actions).len() && (#[trigger] scanned(ivk, actions)[j]).action_index
                == index ==> hit(ivk, actions[index]) == Some(scanned(ivk, actions)[j].note),
        0 <= index < actions.len() && hit(ivk, actions[index]) is Some ==> exists|j: int|
            0 <= j < scanned(ivk, actions).len() && (#[trigger] scanned(ivk, actions)[j]).action_index
                == index,
    decreases actions.len(),
{
    if actions.len() > 0 {
        lemma_scanned_at(ivk, actions.drop_last(), index);
        let front = scanned(ivk, actions.drop_last());
        let whole = scanned(ivk, actions);
        let n = actions.len() - 1;
        assert forall|j: int| 0 <= j < whole.len() implies 0 <= (#[trigger] whole[j]).action_index
            < actions.len() by {
            if j < front.len() {
                assert(whole[j] == front[j]);
            }
        }
        if 0 <= index < actions.len() {
            assert forall|j: int| 0 <= j < whole.len() && (#[trigger] whole[j]).action_index
                == index implies hit(ivk, actions[index]) == Some(whole[j].note) by {
                if j < front.len() {
                    assert(whole[j] == front[j]);
                    assert(index < n);
                    assert(actions.drop_last()[index] == actions[index]);
                }
            }
            if hit(ivk, actions[index]) is Some {
                if index < n {
                    assert(actions.drop_last()[index] == actions[index]);
                    let j = choose|j: int|
                        0 <= j < front.len() && (#[trigger] front[j]).action_index == index;
                    assert(whole[j] == front[j]);
                } else {
                    assert(whole[front.len() as int].action_index == index);
                }
            }
        }
    }
}

proof fn lemma_action_count_prefix(list: Seq<BundleV>, k: int)
    requires
        0 <= k <= list.len(),
    ensures
        action_count(list.take(k)) <= action_count(list),
    decreases list.len(),
{
    if k == list.len() {
        assert(list.take(k) =~= list);
    } else {
        assert(list.drop_last().take(k) =~= list.take(k));
        lemma_action_count_prefix(list.drop_last(), k);
    }
}

/// At most as many 64-bit values as 64 bits count, and one more, add up within 128 bits.
proof fn lemma_values_fit(n: int, v: int)
    requires
        0 <= n <= 0xffff_ffff_ffff_ffff,
        0 <= v <= 0xffff_ffff_ffff_ffff,
    ensures
        n * 0xffff_ffff_ffff_ffff + v <= u128::MAX,
        (n + 1) * 0xffff_ffff_ffff_ffff == n * 0xffff_ffff_ffff_ffff + 0xffff_ffff_ffff_ffff,
{
    assert(n * 0xffff_ffff_ffff_ffff <= 0xffff_ffff_ffff_ffff * 0xffff_ffff_ffff_ffff) by (nonlinear_arith)
        requires
            0 <= n <= 0xffff_ffff_ffff_ffff,
    ;
    assert((n + 1) * 0xffff_ffff_ffff_ffff == n * 0xffff_ffff_ffff_ffff + 0xffff_ffff_ffff_ffff) by (nonlinear_arith);
}

proof fn lemma_values_add(a: int, b: int)
    requires
        0 <= a,
        0 <= b,
    ensures
        (a + b) * 0xffff_ffff_ffff_ffff == a * 0xffff_ffff_ffff_ffff + b * 0xffff_ffff_ffff_ffff,
        0 <= b * 0xffff_ffff_ffff_ffff,
{
    assert((a + b) * 0xffff_ffff_ffff_ffff == a * 0xffff_ffff_ffff_ffff + b * 0xffff_ffff_ffff_ffff) by (nonlinear_arith);
}

/// A stream that only grows keeps its live witnesses in step.
proof fn lemma_in_step_grows(v: WalletV, w: WalletV)
    requires
        v.in_step(),
        w.base == v.base,
        w.lag == v.lag,
        w.upto == v.upto,
        w.witnesses == v.witnesses,
        w.leaves.len() >= v.leaves.len(),
        w.leaves.take(v.leaves.len() as int) == v.leaves,
        all_canonical(w.leaves) ==> all_canonical(v.leaves),
        !all_canonical(v.leaves) || all_canonical(w.leaves),
    ensures
        w.in_step(),
{
    let k = v.upto - v.base.size;
    assert(w.leaves.take(k) =~= v.leaves.take(k));
    if all_canonical(w.leaves) && w.upto <= TREE_CAPACITY {
        assert forall|i: int| 0 <= i < w.witnesses.len() implies {
            let x = #[trigger] w.witnesses[i];
            &&& w.base.size <= x.0 < w.upto
            &&& x.1 == w.witness_at(x.0, w.upto)
        } by {
            let x = v.witnesses[i];
            let rel = x.0 - v.base.size;
            assert(w.leaves.take(rel + 1) =~= v.leaves.take(rel + 1));
            assert(w.leaves.subrange(rel + 1, k) =~= v.leaves.subrange(rel + 1, k));
        }
    }
}

} // verus!
