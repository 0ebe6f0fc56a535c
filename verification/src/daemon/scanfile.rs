//! The scan checkpoint of a wallet: how far the chain was followed, and what was found.
//!
//! A file starts with a header: marker, version, the network's genesis, the cursor and the
//! height scanned. The wallet's own checkpoint follows with its length, then the ring of
//! block boundaries, the blue score of the sink, and, in the current version, below which
//! leaf the view is blind.

use crate::bytes::{
    le_bytes, le_of, le_value, lemma_le_bytes_len, lemma_le_value_bound, lemma_le_value_of_bytes,
    lemma_pow256, low_u32, push_all, push_le, same, to_array,
};
use crate::daemon::vault::{resumed_by, KeyV, WalletKey};
use crate::tree::{FrontierState, GlobalTree, NoteCommitmentTree};
use crate::walletdb::checkpoint::{get, get_u64, lemma_get, lemma_get_u64, Cursor};
use crate::walletdb::{WalletDb, WalletV};
use vstd::prelude::*;

verus! {

/// The current version of the file.
pub const SCAN_VERSION: u8 = 4;

/// The version before, which does not say below which leaf the view is blind.
pub const SCAN_VERSION_PREV: u8 = 3;

/// Length of the header.
pub const SCAN_HEADER_LEN: usize = 77;

/// The marker of the file.
pub open spec fn scan_magic() -> Seq<u8> {
    seq![0x46u8, 0x43, 0x57, 0x53]
}

/// What a scan checkpoint holds, with the wallet's own checkpoint as bytes.
pub struct ScanV {
    pub genesis: Seq<u8>,
    pub low: Seq<u8>,
    pub scanned: nat,
    pub blob: Seq<u8>,
    pub ring: Seq<(u64, u64)>,
    pub sink_blue: nat,
    pub blind_below: nat,
}

/// The boundaries: blue score and leaf count of each.
pub open spec fn ring_bytes(ring: Seq<(u64, u64)>) -> Seq<u8>
    decreases ring.len(),
{
    if ring.len() == 0 {
        Seq::empty()
    } else {
        le_bytes(ring[0].0 as nat, 8) + (le_bytes(ring[0].1 as nat, 8) + ring_bytes(ring.skip(1)))
    }
}

/// What follows the header of a file of the current version.
pub open spec fn scan_body(v: ScanV) -> Seq<u8> {
    le_bytes(v.blob.len(), 8) + (v.blob + (le_bytes(
        (v.ring.len() % 0x1_0000_0000) as nat,
        4,
    ) + (ring_bytes(v.ring) + (le_bytes(v.sink_blue, 8) + le_bytes(v.blind_below, 8)))))
}

/// The file of a scan checkpoint.
pub open spec fn scan_bytes(v: ScanV) -> Seq<u8> {
    scan_magic() + seq![SCAN_VERSION] + v.genesis + v.low + le_bytes(v.scanned, 8) + scan_body(v)
}

/// A four-byte number.
pub open spec fn get_u32(s: Seq<u8>) -> Option<(nat, Seq<u8>)> {
    match get(s, 4) {
        Some((b, rest)) => Some((le_value(b), rest)),
        None => None,
    }
}

/// `n` boundaries.
pub open spec fn get_ring(s: Seq<u8>, n: nat) -> Option<(Seq<(u64, u64)>, Seq<u8>)>
    decreases n,
{
    if n == 0 {
        Some((Seq::empty(), s))
    } else {
        match get_u64(s) {
            None => None,
            Some((blue, s1)) => match get_u64(s1) {
                None => None,
                Some((leaves, s2)) => match get_ring(s2, (n - 1) as nat) {
                    None => None,
                    Some((ring, left)) => Some(
                        (seq![(blue as u64, leaves as u64)] + ring, left),
                    ),
                },
            },
        }
    }
}

/// What the end of a file says: below which leaf the view is blind, in the current version.
pub open spec fn get_blind(s: Seq<u8>, version: u8) -> Option<nat> {
    if version == SCAN_VERSION {
        match get_u64(s) {
            Some((blind, left)) => if left.len() == 0 {
                Some(blind)
            } else {
                None
            },
            None => None,
        }
    } else if s.len() == 0 {
        Some(0nat)
    } else {
        None
    }
}

/// The header says that this is a scan checkpoint of a version that can be read.
pub open spec fn scan_header(s: Seq<u8>) -> bool {
    &&& s.len() >= SCAN_HEADER_LEN
    &&& s.take(4) == scan_magic()
    &&& s[4] == SCAN_VERSION || s[4] == SCAN_VERSION_PREV
}

/// The boundaries with their number before them.
#[verifier::opaque]
pub open spec fn get_boundaries(s: Seq<u8>) -> Option<(Seq<(u64, u64)>, Seq<u8>)> {
    match get_u32(s) {
        None => None,
        Some((n, rest)) => get_ring(rest, n),
    }
}

/// The wallet's own checkpoint with its length before it.
#[verifier::opaque]
pub open spec fn get_blob(s: Seq<u8>) -> Option<(Seq<u8>, Seq<u8>)> {
    match get_u64(s) {
        None => None,
        Some((len, rest)) => get(rest, len as int),
    }
}

/// What a file holds, if it is a scan checkpoint.
pub open spec fn scan_parts(s: Seq<u8>) -> Option<ScanV> {
    if !scan_header(s) {
        None
    } else {
        match get_blob(s.skip(77)) {
            None => None,
            Some((blob, s1)) => match get_boundaries(s1) {
                None => None,
                Some((ring, s2)) => match get_u64(s2) {
                    None => None,
                    Some((sink_blue, s3)) => match get_blind(s3, s[4]) {
                        None => None,
                        Some(blind_below) => Some(
                            ScanV {
                                genesis: s.subrange(5, 37),
                                low: s.subrange(37, 69),
                                scanned: le_value(s.subrange(69, 77)),
                                blob,
                                ring,
                                sink_blue,
                                blind_below,
                            },
                        ),
                    },
                },
            },
        }
    }
}

/// The parts of a scan checkpoint.
pub struct ScanParts<'a> {
    pub genesis: [u8; 32],
    /// The last chain block that was followed.
    pub low: [u8; 32],
    /// The height of that block.
    pub scanned: u64,
    /// The wallet's own checkpoint.
    pub blob: &'a [u8],
    /// Blue score and leaf count after each of the last blocks, oldest first.
    pub ring: Vec<(u64, u64)>,
    /// The blue score of the sink when the file was written.
    pub sink_blue: u64,
    /// Below which leaf the view is blind; 0 for a complete view.
    pub blind_below: u64,
}

impl<'a> View for ScanParts<'a> {
    type V = ScanV;

    open spec fn view(&self) -> ScanV {
        ScanV {
            genesis: self.genesis@,
            low: self.low@,
            scanned: self.scanned as nat,
            blob: self.blob@,
            ring: self.ring@,
            sink_blue: self.sink_blue as nat,
            blind_below: self.blind_below as nat,
        }
    }
}

/// Writes a scan checkpoint.
#[verifier::rlimit(60)]
pub fn write_scan(
    genesis: &[u8; 32],
    low: &[u8; 32],
    scanned: u64,
    blob: &[u8],
    ring: &[(u64, u64)],
    sink_blue: u64,
    blind_below: u64,
) -> (out: Vec<u8>)
    ensures
        out@ == scan_bytes(
            ScanV {
                genesis: genesis@,
                low: low@,
                scanned: scanned as nat,
                blob: blob@,
                ring: ring@,
                sink_blue: sink_blue as nat,
                blind_below: blind_below as nat,
            },
        ),
{
    let mut out: Vec<u8> = Vec::new();
    let magic: [u8; 4] = [0x46, 0x43, 0x57, 0x53];
    assert(magic@ =~= scan_magic());
    push_all(&mut out, &magic);
    out.push(SCAN_VERSION);
    push_all(&mut out, genesis);
    push_all(&mut out, low);
    push_le(&mut out, scanned as u128, 8);
    let ghost head = out@;
    assert(head =~= scan_magic() + seq![SCAN_VERSION] + genesis@ + low@ + le_bytes(
        scanned as nat,
        8,
    ));
    push_le(&mut out, blob.len() as u128, 8);
    push_all(&mut out, blob);
    push_le(&mut out, low_u32(ring.len()) as u128, 4);
    let ghost front = out@;
    let mut i: usize = 0;
    assert(ring@.skip(0) =~= ring@);
    while i < ring.len()
        invariant
            0 <= i <= ring@.len(),
            out@ + ring_bytes(ring@.skip(i as int)) == front + ring_bytes(ring@),
        decreases ring@.len() - i,
    {
        let ghost here = out@;
        proof {
            assert(ring@.skip(i as int).skip(1) =~= ring@.skip(i + 1));
            assert(ring@.skip(i as int)[0] == ring@[i as int]);
        }
        push_le(&mut out, ring[i].0 as u128, 8);
        push_le(&mut out, ring[i].1 as u128, 8);
        assert(out@ + ring_bytes(ring@.skip(i + 1)) =~= here + ring_bytes(ring@.skip(i as int)));
        i = i + 1;
    }
    proof {
        assert(ring@.skip(i as int) =~= Seq::<(u64, u64)>::empty());
        assert(out@ + Seq::<u8>::empty() =~= out@);
        assert(out@ =~= front + ring_bytes(ring@));
    }
    push_le(&mut out, sink_blue as u128, 8);
    push_le(&mut out, blind_below as u128, 8);
    proof {
        let v = ScanV {
            genesis: genesis@,
            low: low@,
            scanned: scanned as nat,
            blob: blob@,
            ring: ring@,
            sink_blue: sink_blue as nat,
            blind_below: blind_below as nat,
        };
        assert(out@ =~= head + scan_body(v));
    }
    out
}

/// What optional parts hold.
pub open spec fn parts_view(p: Option<ScanParts>) -> Option<ScanV> {
    match p {
        Some(p) => Some(p@),
        None => None,
    }
}

fn reads_header(buf: &[u8]) -> (r: bool)
    ensures
        r == scan_header(buf@),
{
    if buf.len() < SCAN_HEADER_LEN {
        return false;
    }
    let magic: [u8; 4] = [0x46, 0x43, 0x57, 0x53];
    proof {
        assert(magic@ =~= scan_magic());
        assert(buf@.subrange(0, 4) =~= buf@.take(4));
    }
    same(vstd::slice::slice_subrange(buf, 0, 4), &magic) && (buf[4] == SCAN_VERSION || buf[4]
        == SCAN_VERSION_PREV)
}

fn read_ring<'a>(r: &mut Cursor<'a>, n: u32) -> (out: Option<Vec<(u64, u64)>>)
    requires
        old(r).wf(),
    ensures
        final(r).wf(),
        match (out, get_ring(old(r).rest(), n as nat)) {
            (Some(v), Some((ring, left))) => v@ == ring && final(r).rest() == left,
            (None, None) => true,
            _ => false,
        },
{
    let ghost whole = get_ring(r.rest(), n as nat);
    let mut out: Vec<(u64, u64)> = Vec::new();
    let mut i: u32 = 0;
    proof {
        if whole is Some {
            assert(out@ + whole->Some_0.0 =~= whole->Some_0.0);
        }
    }
    while i < n
        invariant
            0 <= i <= n,
            r.wf(),
            whole == get_ring(old(r).rest(), n as nat),
            match get_ring(r.rest(), (n - i) as nat) {
                Some((ring, left)) => whole == Some((out@ + ring, left)),
                None => whole is None,
            },
        decreases n - i,
    {
        let ghost before = out@;
        let blue: u64 = match r.u64() {
            Some(x) => x,
            None => {
                return None;
            },
        };
        let leaves: u64 = match r.u64() {
            Some(x) => x,
            None => {
                return None;
            },
        };
        out.push((blue, leaves));
        proof {
            match get_ring(r.rest(), (n - i - 1) as nat) {
                Some((ring, left)) => {
                    assert(before + (seq![(blue, leaves)] + ring) =~= out@ + ring);
                },
                None => {},
            }
        }
        i = i + 1;
    }
    assert(out@ + Seq::<(u64, u64)>::empty() =~= out@);
    Some(out)
}

/// Reads a scan checkpoint into its parts.
#[verifier::rlimit(60)]
pub fn read_scan(buf: &[u8]) -> (r: Option<ScanParts<'_>>)
    ensures
        parts_view(r) == scan_parts(buf@),
{
    if !reads_header(buf) {
        return None;
    }
    let genesis: [u8; 32] = to_array(vstd::slice::slice_subrange(buf, 5, 37));
    let low: [u8; 32] = to_array(vstd::slice::slice_subrange(buf, 37, 69));
    let height: &[u8] = vstd::slice::slice_subrange(buf, 69, 77);
    proof {
        lemma_le_value_bound(height@);
        lemma_pow256();
    }
    let scanned: u64 = le_of(height) as u64;
    let mut r: Cursor = Cursor { buf, pos: SCAN_HEADER_LEN };
    proof {
        reveal(get_blob);
        reveal(get_boundaries);
    }
    let len: u64 = r.u64()?;
    if len > buf.len() as u64 {
        return None;
    }
    let blob: &[u8] = r.take(len as usize)?;
    let count: &[u8] = r.take(4)?;
    proof {
        lemma_le_value_bound(count@);
        lemma_pow256();
    }
    let n: u32 = le_of(count) as u32;
    let ring: Vec<(u64, u64)> = read_ring(&mut r, n)?;
    let sink_blue: u64 = r.u64()?;
    let blind_below: u64 = if buf[4] == SCAN_VERSION {
        r.u64()?
    } else {
        0
    };
    if !r.done() {
        return None;
    }
    Some(ScanParts { genesis, low, scanned, blob, ring, sink_blue, blind_below })
}

/// The wallet is the one that the node's tree at the cursor says: its leaf count and its
/// root are the node's.
pub open spec fn agrees(w: WalletV, tip: Option<&FrontierState>) -> bool {
    match tip {
        Some(fs) => fs.consistent() && w.size() == fs.size && w.tip.root() == fs.tree().root(),
        None => true,
    }
}

/// What a file resumes for a key: the wallet must agree with the node's tree at the cursor,
/// where that is known.
pub open spec fn resumable(s: Seq<u8>, key: KeyV, tip: Option<&FrontierState>) -> Option<
    (ScanV, WalletV),
> {
    match scan_parts(s) {
        None => None,
        Some(p) => match resumed_by(key, p.blob, tip) {
            None => None,
            Some(w) => if agrees(w, tip) {
                Some((p, w))
            } else {
                None
            },
        },
    }
}

/// What an optional resumed wallet holds.
pub open spec fn resumed_view(r: Option<(ScanParts, WalletDb)>) -> Option<(ScanV, WalletV)> {
    match r {
        Some((p, db)) => Some((p@, db@)),
        None => None,
    }
}

/// Whether a wallet agrees with the node's tree.
pub fn check_tip(db: &WalletDb, tip: Option<&FrontierState>) -> (r: bool)
    requires
        db.wf(),
    ensures
        r == agrees(db@, tip),
{
    broadcast use GlobalTree::lemma_tree;

    match tip {
        None => true,
        Some(fs) => match GlobalTree::from_state(fs) {
            Err(_) => false,
            Ok(tree) => {
                let expected: [u8; 32] = tree.anchor().to_bytes();
                db.size() == fs.size && same(&db.anchor(), &expected)
            },
        },
    }
}

/// Reads a scan checkpoint and resumes its wallet. A file that does not read, or whose
/// wallet differs from the node's tree at its cursor, gives nothing: the caller then scans
/// again, so a stale file never gives a wrong tree.
pub fn parse_scan_bytes<'a>(buf: &'a [u8], key: &WalletKey, tip: Option<&FrontierState>) -> (r:
    Option<(ScanParts<'a>, WalletDb)>)
    ensures
        resumed_view(r) == resumable(buf@, key@, tip),
        r is Some ==> r->Some_0.1.wf(),
{
    match read_scan(buf) {
        None => None,
        Some(p) => match key.db_from_checkpoint(p.blob, tip) {
            None => None,
            Some(db) => if check_tip(&db, tip) {
                Some((p, db))
            } else {
                None
            },
        },
    }
}

/// [`parse_scan_bytes`], for the current chain alone.
pub fn load_checkpoint<'a>(
    buf: &'a [u8],
    key: &WalletKey,
    current_genesis: &[u8; 32],
    tip: Option<&FrontierState>,
) -> (r: Option<(ScanParts<'a>, WalletDb)>)
    ensures
        r is Some ==> r->Some_0.1.wf(),
        resumed_view(r) == (match resumable(buf@, key@, tip) {
            Some((p, w)) => if p.genesis == current_genesis@ {
                Some((p, w))
            } else {
                None
            },
            None => None,
        }),
{
    match parse_scan_bytes(buf, key, tip) {
        Some((p, db)) => if same(&p.genesis, current_genesis) {
            Some((p, db))
        } else {
            None
        },
        None => None,
    }
}

/// The cursor of a file, from its header alone.
pub open spec fn cursor_of(s: Seq<u8>, genesis: Seq<u8>) -> Option<Seq<u8>> {
    if scan_header(s) && s.subrange(5, 37) == genesis {
        Some(s.subrange(37, 69))
    } else {
        None
    }
}

/// The cursor that a file resumes from, from its header alone: the node must be asked for
/// its tree there before the file is read.
pub fn checkpoint_cursor(buf: &[u8], current_genesis: &[u8; 32]) -> (r: Option<[u8; 32]>)
    ensures
        match r {
            Some(low) => cursor_of(buf@, current_genesis@) == Some(low@),
            None => cursor_of(buf@, current_genesis@) is None,
        },
{
    if !reads_header(buf) {
        return None;
    }
    if !same(vstd::slice::slice_subrange(buf, 5, 37), current_genesis) {
        return None;
    }
    let low: [u8; 32] = to_array(vstd::slice::slice_subrange(buf, 37, 69));
    Some(low)
}

/// Below which leaf a file's view is blind, from its ends alone.
pub open spec fn blind_of(s: Seq<u8>) -> Option<nat> {
    if s.len() < SCAN_HEADER_LEN + 8 || s.take(4) != scan_magic() {
        None
    } else if s[4] == SCAN_VERSION {
        Some(le_value(s.skip(s.len() - 8)))
    } else if s[4] == SCAN_VERSION_PREV {
        Some(0nat)
    } else {
        None
    }
}

/// Below which leaf a file's view is blind, read without the wallet's key.
pub fn checkpoint_blind_below(buf: &[u8]) -> (r: Option<u64>)
    ensures
        match r {
            Some(n) => blind_of(buf@) == Some(n as nat),
            None => blind_of(buf@) is None,
        },
{
    if buf.len() < SCAN_HEADER_LEN + 8 || !reads_header(buf) {
        return None;
    }
    if buf[4] == SCAN_VERSION {
        let end: &[u8] = vstd::slice::slice_subrange(buf, buf.len() - 8, buf.len());
        proof {
            assert(end@ =~= buf@.skip(buf@.len() - 8));
            lemma_le_value_bound(end@);
            lemma_pow256();
        }
        Some(le_of(end) as u64)
    } else {
        Some(0)
    }
}

proof fn lemma_get_u32(n: nat, rest: Seq<u8>)
    requires
        n <= u32::MAX,
    ensures
        get_u32(le_bytes(n, 4) + rest) == Some((n, rest)),
{
    lemma_le_bytes_len(n, 4);
    lemma_pow256();
    lemma_le_value_of_bytes(n, 4);
    lemma_get(le_bytes(n, 4), rest);
}

proof fn lemma_get_ring(ring: Seq<(u64, u64)>, rest: Seq<u8>)
    ensures
        get_ring(ring_bytes(ring) + rest, ring.len()) == Some((ring, rest)),
    decreases ring.len(),
{
    if ring.len() == 0 {
        assert(ring_bytes(ring) + rest =~= rest);
        assert(ring =~= Seq::<(u64, u64)>::empty());
    } else {
        let tail = ring.skip(1);
        let s2 = ring_bytes(tail) + rest;
        let s1 = le_bytes(ring[0].1 as nat, 8) + s2;
        assert(ring_bytes(ring) + rest =~= le_bytes(ring[0].0 as nat, 8) + s1);
        lemma_get_u64(ring[0].0 as nat, s1);
        lemma_get_u64(ring[0].1 as nat, s2);
        lemma_get_ring(tail, rest);
        assert(seq![ring[0]] + tail =~= ring);
    }
}

/// A scan checkpoint that fits its fields.
pub open spec fn scan_sized(v: ScanV) -> bool {
    &&& v.genesis.len() == 32
    &&& v.low.len() == 32
    &&& v.scanned <= u64::MAX
    &&& v.blob.len() <= u64::MAX
    &&& v.ring.len() <= u32::MAX
    &&& v.sink_blue <= u64::MAX
    &&& v.blind_below <= u64::MAX
}

#[verifier::rlimit(60)]
proof fn lemma_scan_header(v: ScanV)
    requires
        scan_sized(v),
    ensures
        ({
            let s = scan_bytes(v);
            &&& scan_header(s)
            &&& s[4] == SCAN_VERSION
            &&& s.subrange(5, 37) == v.genesis
            &&& s.subrange(37, 69) == v.low
            &&& le_value(s.subrange(69, 77)) == v.scanned
            &&& s.skip(77) == scan_body(v)
        }),
{
    let s = scan_bytes(v);
    lemma_le_bytes_len(v.scanned, 8);
    lemma_pow256();
    lemma_le_value_of_bytes(v.scanned, 8);
    assert(s.take(4) =~= scan_magic());
    assert(s.subrange(5, 37) =~= v.genesis);
    assert(s.subrange(37, 69) =~= v.low);
    assert(s.subrange(69, 77) =~= le_bytes(v.scanned, 8));
    assert(s.skip(77) =~= scan_body(v));
}

proof fn lemma_get_blob(blob: Seq<u8>, rest: Seq<u8>)
    requires
        blob.len() <= u64::MAX,
    ensures
        get_blob(le_bytes(blob.len(), 8) + (blob + rest)) == Some((blob, rest)),
{
    reveal(get_blob);
    lemma_get_u64(blob.len(), blob + rest);
    lemma_get(blob, rest);
}

proof fn lemma_get_boundaries(ring: Seq<(u64, u64)>, rest: Seq<u8>)
    requires
        ring.len() <= u32::MAX,
    ensures
        get_boundaries(le_bytes(ring.len(), 4) + (ring_bytes(ring) + rest)) == Some((ring, rest)),
{
    reveal(get_boundaries);
    lemma_get_u32(ring.len(), ring_bytes(ring) + rest);
    lemma_get_ring(ring, rest);
}

proof fn lemma_get_blind(blind: nat)
    requires
        blind <= u64::MAX,
    ensures
        get_blind(le_bytes(blind, 8), SCAN_VERSION) == Some(blind),
{
    assert(le_bytes(blind, 8) + Seq::<u8>::empty() =~= le_bytes(blind, 8));
    lemma_get_u64(blind, Seq::empty());
}

/// A scan checkpoint reads back as it was written.
pub proof fn scan_files_round_trip(v: ScanV)
    requires
        scan_sized(v),
    ensures
        scan_parts(scan_bytes(v)) == Some(v),
{
    let s = scan_bytes(v);
    lemma_scan_header(v);
    let t3 = le_bytes(v.blind_below, 8);
    let t2 = le_bytes(v.sink_blue, 8) + t3;
    let t1 = le_bytes(v.ring.len(), 4) + (ring_bytes(v.ring) + t2);
    lemma_get_blob(v.blob, t1);
    lemma_get_boundaries(v.ring, t2);
    lemma_get_u64(v.sink_blue, t3);
    lemma_get_blind(v.blind_below);
    assert(s.skip(77) == le_bytes(v.blob.len(), 8) + (v.blob + t1));
}

/// What is read off the ends of a written file is what reading all of it gives: its cursor,
/// for the chain that it was written for, and below which leaf it is blind.
#[verifier::rlimit(60)]
pub proof fn file_ends_agree_with_the_file(v: ScanV, genesis: Seq<u8>)
    requires
        scan_sized(v),
    ensures
        cursor_of(scan_bytes(v), genesis) == (if genesis == v.genesis {
            Some(v.low)
        } else {
            None
        }),
        blind_of(scan_bytes(v)) == Some(v.blind_below),
{
    let s = scan_bytes(v);
    lemma_scan_header(v);
    lemma_le_bytes_len(v.blind_below, 8);
    lemma_le_bytes_len(v.sink_blue, 8);
    lemma_pow256();
    lemma_le_value_of_bytes(v.blind_below, 8);
    assert(s.len() == 77 + scan_body(v).len());
    assert(scan_body(v).len() >= 16);
    let t = scan_body(v);
    assert(t.skip(t.len() - 8) =~= le_bytes(v.blind_below, 8));
    assert(s.skip(s.len() - 8) =~= s.skip(77).skip(t.len() - 8));
}

} // verus!
