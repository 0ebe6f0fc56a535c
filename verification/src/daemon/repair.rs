//! Offline repair: what is wrong with a wallet's file, and grafting an older file onto it.

use crate::bytes::same;
use crate::daemon::scanfile::{
    parse_scan_bytes, resumable, scan_bytes, scan_files_round_trip, scan_sized, write_scan, ScanV,
};
use crate::daemon::spend::matured_candidates;
use crate::daemon::status::Diagnosis;
use crate::daemon::vault::{KeyV, WalletKey};
use crate::text::{decimal_text, push_decimal};
use crate::walletdb::checkpoint::{
    checkpoint_bytes, checkpoints_round_trip, storable, without_witnesses,
};
use crate::walletdb::graft::GraftError;
use crate::walletdb::{owned_views, worth, OwnedNote, OwnedV, WalletDb, WalletV};
use vstd::prelude::*;
use vstd::string::*;

verus! {

/// The positions of notes.
pub open spec fn positions_of(notes: Seq<OwnedV>) -> Seq<u64> {
    Seq::new(notes.len(), |i: int| notes[i].position as u64)
}

/// What is reported of a wallet that was scanned up to a height.
pub fn diagnose(db: &WalletDb, scanned: u64) -> (d: Diagnosis)
    requires
        db.wf(),
    ensures
        d.notes == db@.notes.len(),
        d.balance == worth(db@.notes),
        d.scanned == scanned,
        d.base == db@.base.size,
        d.size == db@.size(),
        d.stranded@ == positions_of(db@.stranded()),
        d.stranded_value == worth(db@.stranded()),
{
    let lost: Vec<OwnedNote> = db.stranded_notes();
    let (_, stranded_value): (Vec<OwnedNote>, u128) = matured_candidates(db, 0);
    let ghost all = owned_views(lost@);
    let mut stranded: Vec<u64> = Vec::new();
    let mut i: usize = 0;
    while i < lost.len()
        invariant
            0 <= i <= lost@.len(),
            all == owned_views(lost@),
            stranded@.len() == i,
            forall|j: int| 0 <= j < i ==> #[trigger] stranded@[j] == all[j].position,
        decreases lost@.len() - i,
    {
        assert(all[i as int] == lost@[i as int]@);
        stranded.push(lost[i].position);
        i = i + 1;
    }
    assert(stranded@ =~= positions_of(all));
    Diagnosis {
        notes: db.notes().len(),
        balance: db.balance(),
        scanned,
        base: db.base_size(),
        size: db.size(),
        stranded,
        stranded_value,
    }
}

/// Why a file is not repaired.
#[derive(Clone, Copy, Debug, PartialEq, Eq, Structural)]
pub enum RepairError {
    /// The wallet's file does not read, or not under its key.
    Current,
    /// The older file does not.
    Older,
    /// The older file is of another chain.
    OtherChain,
    /// The older view does not fit.
    Graft(GraftError),
}

impl RepairError {
    /// The text of [`message`](Self::message).
    pub open spec fn text(self) -> Seq<char> {
        match self {
            RepairError::Current => "current scan checkpoint does not parse"@,
            RepairError::Older => "older snapshot does not parse"@,
            RepairError::OtherChain => {
                "older snapshot is from a different chain (genesis mismatch)"@
            },
            RepairError::Graft(e) => e.text(),
        }
    }

    /// The reason in words.
    pub fn message(&self) -> (s: String)
        ensures
            s@ == self.text(),
    {
        match self {
            RepairError::Current => String::from_str("current scan checkpoint does not parse"),
            RepairError::Older => String::from_str("older snapshot does not parse"),
            RepairError::OtherChain => String::from_str(
                "older snapshot is from a different chain (genesis mismatch)",
            ),
            RepairError::Graft(e) => e.message(),
        }
    }
}

/// A repaired file, and what the repair did.
pub struct Repair {
    /// The file to write in place of the wallet's.
    pub scan: Vec<u8>,
    /// How many leaves came back.
    pub restored: u64,
    /// Where the stream starts now.
    pub base: u64,
    /// How many notes were stranded.
    pub before: usize,
    /// How many still are.
    pub after: usize,
}

impl Repair {
    /// The text of [`report`](Self::report).
    pub open spec fn text(self) -> Seq<char> {
        "grafted "@ + decimal_text(self.restored as nat) + " leaves back (base now "@
            + decimal_text(self.base as nat) + "); stranded notes "@ + decimal_text(
            self.before as nat,
        ) + " -> "@ + decimal_text(self.after as nat)
    }

    /// What the repair did, in words.
    pub fn report(&self) -> (s: String)
        ensures
            s@ == self.text(),
    {
        let mut s: String = String::from_str("grafted ");
        push_decimal(&mut s, self.restored as u128);
        s.append(" leaves back (base now ");
        push_decimal(&mut s, self.base as u128);
        s.append("); stranded notes ");
        push_decimal(&mut s, self.before as u128);
        s.append(" -> ");
        push_decimal(&mut s, self.after as u128);
        s
    }
}

/// Why an older file cannot be grafted onto a wallet's, for the wallet's key.
pub open spec fn repair_fault(current: Seq<u8>, older: Seq<u8>, key: KeyV) -> Option<RepairError> {
    match (resumable(current, key, None), resumable(older, key, None)) {
        (None, _) => Some(RepairError::Current),
        (_, None) => Some(RepairError::Older),
        (Some((p, w)), Some((q, o))) => if q.genesis != p.genesis {
            Some(RepairError::OtherChain)
        } else {
            match w.graft_fault(o) {
                Some(e) => Some(RepairError::Graft(e)),
                None => None,
            }
        },
    }
}

/// The wallet's file and the wallet that it resumes, with those of the older file.
pub open spec fn repaired(r: Repair, current: (ScanV, WalletV), older: WalletV) -> bool {
    let (p, w) = current;
    &&& r.scan@ == scan_bytes(ScanV { blob: checkpoint_bytes(w.grafted(older)), ..p })
    &&& r.restored == w.base.size - older.base.size
    &&& r.base == older.base.size
    &&& r.before == w.stranded().len()
    &&& r.after == w.grafted(older).stranded().len()
}

/// Repairs a wallet with stranded notes: puts back the leaves in front of its stream from an
/// older file of the same wallet, once the two are seen to agree. What the file says of the
/// chain stays.
pub fn graft_wallet(current: &[u8], older: &[u8], key: &WalletKey) -> (r: Result<
    Repair,
    RepairError,
>)
    ensures
        match repair_fault(current@, older@, key@) {
            Some(e) => r == Err::<Repair, RepairError>(e),
            None => r is Ok && repaired(
                r->Ok_0,
                resumable(current@, key@, None)->Some_0,
                resumable(older@, key@, None)->Some_0.1,
            ),
        },
{
    match parse_scan_bytes(current, key, None) {
        None => Err(RepairError::Current),
        Some((p, mut db)) => match parse_scan_bytes(older, key, None) {
            None => Err(RepairError::Older),
            Some((q, old_db)) => {
                if !same(&q.genesis, &p.genesis) {
                    return Err(RepairError::OtherChain);
                }
                let lost: Vec<OwnedNote> = db.stranded_notes();
                let before: usize = lost.len();
                assert(owned_views(lost@).len() == lost@.len());
                match db.graft_history(&old_db) {
                    Err(e) => Err(RepairError::Graft(e)),
                    Ok(restored) => {
                        let left: Vec<OwnedNote> = db.stranded_notes();
                        assert(owned_views(left@).len() == left@.len());
                        let blob: Vec<u8> = db.to_checkpoint();
                        let scan: Vec<u8> = write_scan(
                            &p.genesis,
                            &p.low,
                            p.scanned,
                            blob.as_slice(),
                            p.ring.as_slice(),
                            p.sink_blue,
                            p.blind_below,
                        );
                        let base: u64 = db.base_size();
                        Ok(Repair { scan, restored, base, before, after: left.len() })
                    },
                }
            },
        },
    }
}

/// A repaired file resumes the repaired wallet, at the place in the chain that the file was at.
pub proof fn repaired_files_resume(
    r: Repair,
    p: ScanV,
    w: WalletV,
    older: WalletV,
    key: KeyV,
)
    requires
        repaired(r, (p, w), older),
        key.viewing() == Some(w.fvk),
        storable(w.grafted(older)),
        scan_sized(ScanV { blob: checkpoint_bytes(w.grafted(older)), ..p }),
    ensures
        resumable(r.scan@, key, None) == Some(
            (
                ScanV { blob: checkpoint_bytes(w.grafted(older)), ..p },
                without_witnesses(w.grafted(older)),
            ),
        ),
{
    scan_files_round_trip(ScanV { blob: checkpoint_bytes(w.grafted(older)), ..p });
    checkpoints_round_trip(w.grafted(older), None);
}

} // verus!
