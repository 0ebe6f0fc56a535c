//! A wallet's history: what is recorded of each block that the wallet follows, and how its user
//! sees it, newest first and in pages.

use crate::bundle::{ActionV, BundleV, ShieldedBundle};
use crate::bytes::same;
use crate::coinbase::CoinbaseNoteDesc;
use crate::daemon::blocks::DecodedBlock;
use crate::daemon::parked::{parked_views, Parked, ParkedV};
use crate::daemon::request::history_window;
use crate::field::ExtractedNoteCommitment;
use crate::note::Note;
use crate::text::{decimal, decimal_text, hex, hex_text};
use crate::wallet::scan::{
    received_views, recover_sent, recovered, scan_bundle, scanned, ReceivedNote, ReceivedV,
};
use crate::walletdb::{
    first_value, owned_views, spent_value, total_received, OwnedNote, OwnedV, WalletDb, WalletV,
};
use vstd::prelude::*;
use vstd::string::*;

verus! {

/// What an entry of the history was.
#[derive(Clone, Copy, Debug, PartialEq, Eq, Structural)]
pub enum HistoryKind {
    Coinbase,
    Received,
    Sent,
}

impl HistoryKind {
    /// The text of [`name`](Self::name).
    pub open spec fn text(self) -> Seq<char> {
        match self {
            HistoryKind::Coinbase => "coinbase"@,
            HistoryKind::Received => "received"@,
            HistoryKind::Sent => "sent"@,
        }
    }

    /// The kind in a word.
    pub fn name(&self) -> (s: String)
        ensures
            s@ == self.text(),
    {
        match self {
            HistoryKind::Coinbase => String::from_str("coinbase"),
            HistoryKind::Received => String::from_str("received"),
            HistoryKind::Sent => String::from_str("sent"),
        }
    }
}

/// One entry of a wallet's history.
pub struct HistoryEntry {
    pub kind: HistoryKind,
    pub txid: [u8; 32],
    pub daa_score: u64,
    pub timestamp_ms: u64,
    pub amount: u64,
    pub fee: u64,
    /// Where a payment went, if that is known.
    pub recipient: Option<[u8; 43]>,
    /// The memo; empty where there is none.
    pub memo: Vec<u8>,
}

/// What a [`HistoryEntry`] holds.
pub struct EntryV {
    pub kind: HistoryKind,
    pub txid: Seq<u8>,
    pub daa_score: u64,
    pub timestamp_ms: u64,
    pub amount: u64,
    pub fee: u64,
    pub recipient: Option<Seq<u8>>,
    pub memo: Seq<u8>,
}

impl View for HistoryEntry {
    type V = EntryV;

    open spec fn view(&self) -> EntryV {
        EntryV {
            kind: self.kind,
            txid: self.txid@,
            daa_score: self.daa_score,
            timestamp_ms: self.timestamp_ms,
            amount: self.amount,
            fee: self.fee,
            recipient: match self.recipient {
                Some(a) => Some(a@),
                None => None,
            },
            memo: self.memo@,
        }
    }
}

/// What a list of entries holds.
pub open spec fn entry_views(list: Seq<HistoryEntry>) -> Seq<EntryV> {
    Seq::new(list.len(), |i: int| list[i]@)
}

/// When a transaction happened: its id, and the block's score and time.
pub struct WhenV {
    pub txid: Seq<u8>,
    pub daa_score: u64,
    pub timestamp_ms: u64,
}

/// The notes that a spend of the wallet's own may spend: those that it holds, and those of
/// payments that are under way.
pub open spec fn all_held(notes: Seq<OwnedV>, parked: Seq<ParkedV>) -> Seq<OwnedV> {
    notes + Seq::new(parked.len(), |i: int| parked[i].note)
}

/// A total as an amount, as far as amounts go.
pub open spec fn capped(n: int) -> u64 {
    if n < 0 {
        0
    } else if n > u64::MAX {
        u64::MAX
    } else {
        n as u64
    }
}

/// The public fee of a bundle.
pub open spec fn fee_of(value_balance: i64) -> u64 {
    if value_balance > 0 {
        value_balance as u64
    } else {
        0
    }
}

/// The first output that pays someone else.
pub open spec fn first_foreign(list: Seq<ReceivedV>, own: Seq<u8>) -> Option<ReceivedV>
    decreases list.len(),
{
    if list.len() == 0 {
        None
    } else if list[0].note.recipient != own {
        Some(list[0])
    } else {
        first_foreign(list.skip(1), own)
    }
}

/// What a coinbase note says to the wallet: an entry where it pays the wallet.
pub open spec fn coinbase_entry(
    w: WalletV,
    desc: CoinbaseNoteDesc,
    value: u64,
    at: WhenV,
) -> Option<EntryV> {
    if w.recover(desc, value) is Some {
        Some(
            EntryV {
                kind: HistoryKind::Coinbase,
                txid: at.txid,
                daa_score: at.daa_score,
                timestamp_ms: at.timestamp_ms,
                amount: value,
                fee: 0,
                recipient: None,
                memo: Seq::empty(),
            },
        )
    } else {
        None
    }
}

/// What a bundle says to the wallet. Where it spends the wallet's notes it is a payment, of
/// what it spends but the fee and what comes back; whom it pays, and with which memo, is told
/// where the wallet can read that back. Where it spends none and pays the wallet, it is
/// received. A bundle that is dropped says nothing.
pub open spec fn bundle_entry(
    w: WalletV,
    held: Seq<OwnedV>,
    b: BundleV,
    at: WhenV,
) -> Option<EntryV> {
    let spent = spent_value(held, b.actions);
    let found = scanned(w.ivk(), b.actions);
    let got = total_received(found);
    if w.drops(b) {
        None
    } else if spent > 0 {
        let paid = first_foreign(recovered(w.fvk, b.actions), w.address());
        Some(
            EntryV {
                kind: HistoryKind::Sent,
                txid: at.txid,
                daa_score: at.daa_score,
                timestamp_ms: at.timestamp_ms,
                amount: capped(spent - got - fee_of(b.value_balance)),
                fee: fee_of(b.value_balance),
                recipient: match paid {
                    Some(p) => Some(p.note.recipient),
                    None => None,
                },
                memo: match paid {
                    Some(p) => p.memo,
                    None => Seq::empty(),
                },
            },
        )
    } else if got > 0 {
        Some(
            EntryV {
                kind: HistoryKind::Received,
                txid: at.txid,
                daa_score: at.daa_score,
                timestamp_ms: at.timestamp_ms,
                amount: capped(got as int),
                fee: 0,
                recipient: None,
                memo: found[0].memo,
            },
        )
    } else {
        None
    }
}

/// The list with one more entry, where there is one.
pub open spec fn with_entry(list: Seq<EntryV>, e: Option<EntryV>) -> Seq<EntryV> {
    match e {
        Some(e) => list.push(e),
        None => list,
    }
}

/// The entries of the first `k` coinbase notes of a block.
pub open spec fn coinbase_entries(w: WalletV, b: DecodedBlock, k: int) -> Seq<EntryV>
    decreases k,
{
    if k <= 0 {
        Seq::empty()
    } else {
        with_entry(
            coinbase_entries(w, b, k - 1),
            coinbase_entry(
                w,
                b.coinbase@[k - 1].0,
                b.coinbase@[k - 1].1,
                WhenV {
                    txid: b.coinbase_txid@,
                    daa_score: b.daa_score,
                    timestamp_ms: b.timestamp,
                },
            ),
        )
    }
}

/// The entries of the first `k` bundles of a block, behind those of its coinbase.
pub open spec fn bundle_entries(
    w: WalletV,
    held: Seq<OwnedV>,
    b: DecodedBlock,
    k: int,
) -> Seq<EntryV>
    decreases k,
{
    if k <= 0 {
        coinbase_entries(w, b, b.coinbase@.len() as int)
    } else {
        with_entry(
            bundle_entries(w, held, b, k - 1),
            bundle_entry(
                w,
                held,
                b.bundles@[k - 1]@,
                WhenV {
                    txid: b.txids@[k - 1]@,
                    daa_score: b.daa_score,
                    timestamp_ms: b.timestamp,
                },
            ),
        )
    }
}

/// The block says when it was, and which transactions it holds. An older node leaves that out.
pub open spec fn dated(b: DecodedBlock) -> bool {
    b.timestamp > 0 && b.txids@.len() == b.bundles@.len()
}

/// What is recorded of a block, as the wallet is before it.
pub open spec fn block_entries(w: WalletV, held: Seq<OwnedV>, b: DecodedBlock) -> Seq<EntryV> {
    if dated(b) {
        bundle_entries(w, held, b, b.bundles@.len() as int)
    } else {
        Seq::empty()
    }
}

proof fn lemma_first_value_skip(notes: Seq<OwnedV>, nf: Seq<u8>, i: int)
    requires
        0 <= i <= notes.len(),
        forall|j: int| 0 <= j < i ==> (#[trigger] notes[j]).nullifier != nf,
    ensures
        first_value(notes, nf) == first_value(notes.skip(i), nf),
    decreases i,
{
    if i > 0 {
        lemma_first_value_skip(notes, nf, i - 1);
        assert(notes.skip(i - 1)[0] == notes[i - 1]);
        assert(notes.skip(i - 1).skip(1) =~= notes.skip(i));
    } else {
        assert(notes.skip(0) =~= notes);
    }
}

fn value_of(notes: &[OwnedNote], nf: &[u8; 32]) -> (v: u64)
    ensures
        v == first_value(owned_views(notes@), nf@),
{
    let ghost all = owned_views(notes@);
    let mut i: usize = 0;
    while i < notes.len()
        invariant
            0 <= i <= notes@.len(),
            all == owned_views(notes@),
            forall|j: int| 0 <= j < i ==> (#[trigger] all[j]).nullifier != nf@,
        decreases notes@.len() - i,
    {
        assert(all[i as int] == notes@[i as int]@);
        if same(&notes[i].nullifier, nf) {
            proof {
                lemma_first_value_skip(all, nf@, i as int);
                assert(all.skip(i as int)[0] == all[i as int]);
            }
            return notes[i].value();
        }
        i = i + 1;
    }
    proof {
        lemma_first_value_skip(all, nf@, i as int);
    }
    0
}

fn held_notes(db: &WalletDb, parked: &[Parked]) -> (held: Vec<OwnedNote>)
    ensures
        owned_views(held@) == all_held(db@.notes, parked_views(parked@)),
{
    let mut held: Vec<OwnedNote> = Vec::new();
    let notes: &[OwnedNote] = db.notes();
    held.extend_from_slice(notes);
    assert(held@ =~= notes@);
    let mut i: usize = 0;
    while i < parked.len()
        invariant
            0 <= i <= parked@.len(),
            held@.len() == notes@.len() + i,
            forall|j: int| 0 <= j < notes@.len() ==> (#[trigger] held@[j]) == notes@[j],
            forall|j: int|
                notes@.len() <= j < held@.len() ==> (#[trigger] held@[j]) == parked@[j
                    - notes@.len()].note,
        decreases parked@.len() - i,
    {
        held.push(parked[i].note);
        i = i + 1;
    }
    assert(owned_views(held@) =~= all_held(owned_views(notes@), parked_views(parked@)));
    held
}

fn spent_by(held: &[OwnedNote], bundle: &ShieldedBundle) -> (t: u128)
    ensures
        t == spent_value(owned_views(held@), bundle@.actions),
{
    let ghost all = bundle@.actions;
    let mut t: u128 = 0;
    let mut i: usize = 0;
    assert(all.take(0) =~= Seq::<ActionV>::empty());
    while i < bundle.actions.len()
        invariant
            0 <= i <= bundle.actions@.len(),
            all == crate::bundle::action_views(bundle.actions@),
            t == spent_value(owned_views(held@), all.take(i as int)),
            t <= i * 0xffff_ffff_ffff_ffff,
        decreases bundle.actions@.len() - i,
    {
        proof {
            assert(all.take(i + 1).drop_last() =~= all.take(i as int));
            assert(all.take(i + 1).last() == bundle.actions@[i as int]@);
            crate::state::lemma_count_bound(i, 0xffff_ffff_ffff_ffff);
            assert((i + 1) * 0xffff_ffff_ffff_ffff == i * 0xffff_ffff_ffff_ffff
                + 0xffff_ffff_ffff_ffff) by (nonlinear_arith);
        }
        t = t + value_of(held, &bundle.actions[i].nullifier) as u128;
        i = i + 1;
    }
    assert(all.take(i as int) =~= all);
    t
}

fn got_by(found: &[ReceivedNote]) -> (t: u128)
    ensures
        t == total_received(received_views(found@)),
{
    let ghost all = received_views(found@);
    let mut t: u128 = 0;
    let mut i: usize = 0;
    assert(all.take(0) =~= Seq::<ReceivedV>::empty());
    while i < found.len()
        invariant
            0 <= i <= found@.len(),
            all == received_views(found@),
            t == total_received(all.take(i as int)),
            t <= i * 0xffff_ffff_ffff_ffff,
        decreases found@.len() - i,
    {
        proof {
            assert(all.take(i + 1).drop_last() =~= all.take(i as int));
            assert(all.take(i + 1).last() == found@[i as int]@);
            crate::state::lemma_count_bound(i, 0xffff_ffff_ffff_ffff);
            assert((i + 1) * 0xffff_ffff_ffff_ffff == i * 0xffff_ffff_ffff_ffff
                + 0xffff_ffff_ffff_ffff) by (nonlinear_arith);
        }
        t = t + found[i].value() as u128;
        i = i + 1;
    }
    assert(all.take(i as int) =~= all);
    t
}

fn drops(db: &WalletDb, bundle: &ShieldedBundle) -> (r: bool)
    ensures
        r == db@.drops(bundle@),
{
    let mut i: usize = 0;
    while i < bundle.actions.len()
        invariant
            0 <= i <= bundle.actions@.len(),
            forall|j: int|
                0 <= j < i ==> !db@.spent.contains((#[trigger] bundle@.actions[j]).nullifier),
        decreases bundle.actions@.len() - i,
    {
        if db.has_seen(&bundle.actions[i].nullifier) {
            assert(db@.spent.contains(bundle@.actions[i as int].nullifier));
            return true;
        }
        i = i + 1;
    }
    false
}

fn foreign(list: &[ReceivedNote], own: &[u8; 43]) -> (r: Option<usize>)
    ensures
        match r {
            Some(i) => i < list@.len() && first_foreign(received_views(list@), own@) == Some(
                list@[i as int]@,
            ),
            None => first_foreign(received_views(list@), own@) is None,
        },
{
    let ghost all = received_views(list@);
    let mut i: usize = 0;
    assert(all.skip(0) =~= all);
    while i < list.len()
        invariant
            0 <= i <= list@.len(),
            all == received_views(list@),
            first_foreign(all, own@) == first_foreign(all.skip(i as int), own@),
        decreases list@.len() - i,
    {
        proof {
            assert(all.skip(i as int)[0] == list@[i as int]@);
            assert(all.skip(i as int).skip(1) =~= all.skip(i + 1));
        }
        if !same(&list[i].note.recipient(), own) {
            return Some(i);
        }
        i = i + 1;
    }
    None
}

fn cap(n: u128) -> (r: u64)
    ensures
        r == capped(n as int),
{
    if n > 0xffff_ffff_ffff_ffff {
        u64::MAX
    } else {
        n as u64
    }
}

fn copy_bytes(s: &[u8]) -> (out: Vec<u8>)
    ensures
        out@ == s@,
{
    let mut out: Vec<u8> = Vec::new();
    crate::bytes::push_all(&mut out, s);
    assert(out@ =~= s@);
    out
}

/// What an optional entry holds.
pub open spec fn entry_view(e: Option<HistoryEntry>) -> Option<EntryV> {
    match e {
        Some(e) => Some(e@),
        None => None,
    }
}

fn entry_of_bundle(
    db: &WalletDb,
    held: &[OwnedNote],
    bundle: &ShieldedBundle,
    txid: &[u8; 32],
    daa_score: u64,
    timestamp_ms: u64,
) -> (r: Option<HistoryEntry>)
    requires
        db.wf(),
    ensures
        entry_view(r) == bundle_entry(
            db@,
            owned_views(held@),
            bundle@,
            WhenV { txid: txid@, daa_score, timestamp_ms },
        ),
{
    if drops(db, bundle) {
        return None;
    }
    let spent: u128 = spent_by(held, bundle);
    let found: Vec<ReceivedNote> = scan_bundle(&db.fvk().to_ivk(), bundle);
    let got: u128 = got_by(found.as_slice());
    if spent > 0 {
        let fee: u64 = if bundle.value_balance > 0 {
            bundle.value_balance as u64
        } else {
            0
        };
        let left: u128 = if got <= spent {
            spent - got
        } else {
            0
        };
        let amount: u128 = if fee as u128 <= left {
            left - fee as u128
        } else {
            0
        };
        let sent: Vec<ReceivedNote> = recover_sent(db.fvk(), bundle);
        let (recipient, memo): (Option<[u8; 43]>, Vec<u8>) = match foreign(
            sent.as_slice(),
            &db.my_address_bytes(),
        ) {
            Some(i) => (Some(sent[i].note.recipient()), copy_bytes(sent[i].memo.as_slice())),
            None => (None, Vec::new()),
        };
        assert(recipient is None ==> memo@ =~= Seq::<u8>::empty());
        Some(
            HistoryEntry {
                kind: HistoryKind::Sent,
                txid: *txid,
                daa_score,
                timestamp_ms,
                amount: cap(amount),
                fee,
                recipient,
                memo,
            },
        )
    } else if got > 0 {
        assert(found@.len() > 0) by {
            if found@.len() == 0 {
                assert(received_views(found@) =~= Seq::<ReceivedV>::empty());
            }
        }
        assert(received_views(found@)[0] == found@[0]@);
        Some(
            HistoryEntry {
                kind: HistoryKind::Received,
                txid: *txid,
                daa_score,
                timestamp_ms,
                amount: cap(got),
                fee: 0,
                recipient: None,
                memo: copy_bytes(found[0].memo.as_slice()),
            },
        )
    } else {
        None
    }
}

fn entry_of_coinbase(
    db: &WalletDb,
    note: &(CoinbaseNoteDesc, u64, ExtractedNoteCommitment),
    txid: &[u8; 32],
    daa_score: u64,
    timestamp_ms: u64,
) -> (r: Option<HistoryEntry>)
    requires
        db.wf(),
    ensures
        entry_view(r) == coinbase_entry(
            db@,
            note.0,
            note.1,
            WhenV { txid: txid@, daa_score, timestamp_ms },
        ),
{
    let found: Option<Note> = db.recover_coinbase_note(&note.0, note.1);
    if found.is_some() {
        let memo: Vec<u8> = Vec::new();
        assert(memo@ =~= Seq::<u8>::empty());
        Some(
            HistoryEntry {
                kind: HistoryKind::Coinbase,
                txid: *txid,
                daa_score,
                timestamp_ms,
                amount: note.1,
                fee: 0,
                recipient: None,
                memo,
            },
        )
    } else {
        None
    }
}

fn push_entry(out: &mut Vec<HistoryEntry>, e: Option<HistoryEntry>)
    ensures
        entry_views(final(out)@) == with_entry(entry_views(old(out)@), entry_view(e)),
{
    match e {
        Some(e) => {
            out.push(e);
            assert(entry_views(out@) =~= entry_views(old(out)@).push(e@));
        },
        None => {},
    }
}

/// Records a block, before the wallet follows it.
pub fn record_block(db: &WalletDb, parked: &[Parked], b: &DecodedBlock) -> (out: Vec<
    HistoryEntry,
>)
    requires
        db.wf(),
    ensures
        entry_views(out@) == block_entries(
            db@,
            all_held(db@.notes, parked_views(parked@)),
            *b,
        ),
{
    let mut out: Vec<HistoryEntry> = Vec::new();
    assert(entry_views(out@) =~= Seq::<EntryV>::empty());
    if b.timestamp == 0 || b.txids.len() != b.bundles.len() {
        return out;
    }
    let held: Vec<OwnedNote> = held_notes(db, parked);
    let mut i: usize = 0;
    while i < b.coinbase.len()
        invariant
            0 <= i <= b.coinbase@.len(),
            db.wf(),
            entry_views(out@) == coinbase_entries(db@, *b, i as int),
        decreases b.coinbase@.len() - i,
    {
        let e: Option<HistoryEntry> = entry_of_coinbase(
            db,
            &b.coinbase[i],
            &b.coinbase_txid,
            b.daa_score,
            b.timestamp,
        );
        push_entry(&mut out, e);
        i = i + 1;
    }
    let mut k: usize = 0;
    while k < b.bundles.len()
        invariant
            0 <= k <= b.bundles@.len(),
            b.txids@.len() == b.bundles@.len(),
            db.wf(),
            entry_views(out@) == bundle_entries(db@, owned_views(held@), *b, k as int),
        decreases b.bundles@.len() - k,
    {
        let e: Option<HistoryEntry> = entry_of_bundle(
            db,
            held.as_slice(),
            &b.bundles[k],
            &b.txids[k],
            b.daa_score,
            b.timestamp,
        );
        push_entry(&mut out, e);
        k = k + 1;
    }
    out
}

/// An entry as it is shown.
pub struct HistoryRow {
    pub kind: String,
    pub txid: String,
    pub daa_score: u64,
    pub timestamp: u64,
    pub amount_sompi: u64,
    pub amount_sompi_exact: String,
    pub fee_sompi: u64,
    pub fee_sompi_exact: String,
    pub recipient: Option<[u8; 43]>,
    pub memo: Option<Vec<u8>>,
}

impl HistoryRow {
    /// The row shows an entry: amounts as decimals too, and a memo only where there is one.
    pub open spec fn shows(self, e: HistoryEntry) -> bool {
        &&& self.kind@ == e.kind.text()
        &&& self.txid@ == hex_text(e.txid@)
        &&& self.daa_score == e.daa_score
        &&& self.timestamp == e.timestamp_ms
        &&& self.amount_sompi == e.amount
        &&& self.amount_sompi_exact@ == decimal_text(e.amount as nat)
        &&& self.fee_sompi == e.fee
        &&& self.fee_sompi_exact@ == decimal_text(e.fee as nat)
        &&& self.recipient == e.recipient
        &&& match self.memo {
            Some(m) => m@ == e.memo@ && m@.len() > 0,
            None => e.memo@.len() == 0,
        }
    }
}

fn row_of(e: &HistoryEntry) -> (r: HistoryRow)
    ensures
        r.shows(*e),
{
    let memo: Option<Vec<u8>> = if e.memo.len() == 0 {
        None
    } else {
        let mut m: Vec<u8> = Vec::new();
        crate::bytes::push_all(&mut m, e.memo.as_slice());
        assert(m@ =~= e.memo@);
        Some(m)
    };
    HistoryRow {
        kind: e.kind.name(),
        txid: hex(&e.txid),
        daa_score: e.daa_score,
        timestamp: e.timestamp_ms,
        amount_sompi: e.amount,
        amount_sompi_exact: decimal(e.amount as u128),
        fee_sompi: e.fee,
        fee_sompi_exact: decimal(e.fee as u128),
        recipient: e.recipient,
        memo,
    }
}

/// One page of a history.
pub struct HistoryPage {
    /// How many entries the whole history has.
    pub total: usize,
    /// How many newer entries the page leaves out.
    pub offset: usize,
    /// How many rows the page may have.
    pub limit: usize,
    pub rows: Vec<HistoryRow>,
}

/// How many rows are left of `total` behind `offset`, at most `limit`.
pub open spec fn page_len(total: nat, offset: nat, limit: nat) -> nat {
    if offset >= total {
        0
    } else if total - offset <= limit {
        (total - offset) as nat
    } else {
        limit
    }
}

/// The page of a history, oldest entry first, that a request asks for: the newest entries
/// but the first `offset`, newest first.
pub fn history_page(entries: &[HistoryEntry], limit: Option<usize>, offset: Option<usize>) -> (r:
    HistoryPage)
    ensures
        r.total == entries@.len(),
        r.limit == (match limit {
            None => 500,
            Some(n) => if n < 1 {
                1
            } else if n > 5000 {
                5000
            } else {
                n as int
            },
        }),
        r.offset == (match offset {
            None => 0,
            Some(n) => n as int,
        }),
        r.rows@.len() == page_len(entries@.len(), r.offset as nat, r.limit as nat),
        forall|i: int|
            0 <= i < r.rows@.len() ==> (#[trigger] r.rows@[i]).shows(
                entries@[entries@.len() - 1 - r.offset - i],
            ),
{
    let (limit, offset): (usize, usize) = history_window(limit, offset);
    let total: usize = entries.len();
    let mut rows: Vec<HistoryRow> = Vec::new();
    if offset < total {
        let left: usize = total - offset;
        let count: usize = if left <= limit {
            left
        } else {
            limit
        };
        let mut i: usize = 0;
        while i < count
            invariant
                0 <= i <= count <= left,
                left == total - offset,
                total == entries@.len(),
                rows@.len() == i,
                forall|j: int|
                    0 <= j < i ==> (#[trigger] rows@[j]).shows(entries@[total - 1 - offset - j]),
            decreases count - i,
        {
            rows.push(row_of(&entries[left - 1 - i]));
            i = i + 1;
        }
    }
    HistoryPage { total, offset, limit, rows }
}

} // verus!
