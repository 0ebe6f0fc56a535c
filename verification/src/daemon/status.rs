//! What the daemon says of a wallet.

use crate::daemon::request::{coin_text, decimal_notation_reads_back, digits_value, fmt_fc};
use crate::daemon::spend::{candidates, candidates_among};
use crate::daemon::sync::{matured, SyncError, WalletEntry};
use crate::sums::total;
use crate::text::{decimal, decimal_text, push_decimal};
use crate::walletdb::holdings::lemma_contains_last;
use crate::walletdb::{owned_views, worth, OwnedNote, OwnedV, WalletV};
use vstd::prelude::*;
use vstd::string::*;

verus! {

/// How near the tip a wallet must be to count as synced.
pub const SYNC_MARGIN: u64 = 32;

/// Up to how many notes a wallet's witnesses are all kept warm.
pub const EAGER_WARM_MAX_NOTES: u64 = 32;

/// What is known of a wallet at one moment.
#[derive(Clone)]
pub struct StatusSnap {
    pub address: String,
    pub watch_only: bool,
    pub synced: bool,
    pub scanned: u64,
    pub chain_len: u64,
    pub balance_sompi: u128,
    pub spendable_sompi: u128,
    pub maturing_sompi: u128,
    pub pending_in: u128,
    pub pending_out: u128,
    pub note_count: usize,
    pub updated_unix: u64,
    pub error: Option<String>,
    pub warming: bool,
    pub missing_history: bool,
}

/// The notes that stand before a leaf count.
pub open spec fn below(notes: Seq<OwnedV>, leaves: nat) -> Seq<OwnedV>
    decreases notes.len(),
{
    if notes.len() == 0 {
        Seq::empty()
    } else if notes.last().position < leaves {
        below(notes.drop_last(), leaves).push(notes.last())
    } else {
        below(notes.drop_last(), leaves)
    }
}

/// What a spend could draw on: the notes before the newest anchor that is deep enough.
pub open spec fn spendable(notes: Seq<OwnedV>, anchor: Option<u64>) -> nat {
    match anchor {
        Some(leaves) => worth(below(notes, leaves as nat)),
        None => 0,
    }
}

proof fn lemma_below_worth(notes: Seq<OwnedV>, leaves: nat)
    ensures
        worth(below(notes, leaves)) <= worth(notes),
    decreases notes.len(),
{
    if notes.len() > 0 {
        lemma_below_worth(notes.drop_last(), leaves);
        let b = below(notes.drop_last(), leaves);
        assert(b.push(notes.last()).drop_last() =~= b);
    }
}

/// What is spendable is part of the balance.
pub proof fn spendable_is_part_of_the_balance(notes: Seq<OwnedV>, anchor: Option<u64>)
    ensures
        spendable(notes, anchor) <= worth(notes),
{
    match anchor {
        Some(leaves) => {
            lemma_below_worth(notes, leaves as nat);
        },
        None => {},
    }
}

/// Adds up the notes that stand before a leaf count.
pub fn spendable_value(notes: &[OwnedNote], anchor: Option<u64>) -> (t: u128)
    ensures
        t == spendable(owned_views(notes@), anchor),
{
    let leaves: u64 = match anchor {
        Some(leaves) => leaves,
        None => {
            return 0;
        },
    };
    let ghost all = owned_views(notes@);
    let mut t: u128 = 0;
    let mut i: usize = 0;
    assert(all.take(0) =~= Seq::<OwnedV>::empty());
    while i < notes.len()
        invariant
            0 <= i <= notes@.len(),
            all == owned_views(notes@),
            t == worth(below(all.take(i as int), leaves as nat)),
            t <= i * 0xffff_ffff_ffff_ffff,
        decreases notes@.len() - i,
    {
        proof {
            assert(all.take(i + 1).drop_last() =~= all.take(i as int));
            assert(all.take(i + 1).last() == notes@[i as int]@);
            let b = below(all.take(i as int), leaves as nat);
            assert(b.push(notes@[i as int]@).drop_last() =~= b);
            crate::state::lemma_count_bound(i, 0xffff_ffff_ffff_ffff);
            assert((i + 1) * 0xffff_ffff_ffff_ffff == i * 0xffff_ffff_ffff_ffff
                + 0xffff_ffff_ffff_ffff) by (nonlinear_arith);
        }
        if notes[i].position < leaves {
            t = t + notes[i].value() as u128;
        }
        i = i + 1;
    }
    assert(all.take(i as int) =~= all);
    t
}

/// A wallet counts as synced: the tip is known, and the wallet is at it or near.
pub open spec fn counts_as_synced(e: WalletEntry, tip: u64) -> bool {
    tip > 0 && (e.caught_up || e.scanned + SYNC_MARGIN >= tip)
}

/// The text of a wallet's error.
pub open spec fn error_text(e: Option<SyncError>) -> Option<Seq<char>> {
    match e {
        Some(e) => Some(e.text()),
        None => None,
    }
}

/// The characters of an optional text.
pub open spec fn text_view(s: Option<String>) -> Option<Seq<char>> {
    match s {
        Some(s) => Some(s@),
        None => None,
    }
}

fn note_error(e: &Option<SyncError>) -> (s: Option<String>)
    ensures
        text_view(s) == error_text(*e),
{
    match e {
        Some(e) => Some(e.message()),
        None => None,
    }
}

/// What is known of a wallet now, with the height that the node reports.
pub fn snap_from_entry(address: String, e: &WalletEntry, daa_score: u64) -> (s: StatusSnap)
    requires
        e.preview.incoming + e.mempool.incoming <= u128::MAX,
        e.preview.outgoing + e.mempool.outgoing <= u128::MAX,
    ensures
        s.address == address,
        s.watch_only == (e.key@ is Fvk),
        s.chain_len == (if e.chain_len >= daa_score {
            e.chain_len
        } else {
            daa_score
        }),
        s.synced == counts_as_synced(*e, s.chain_len),
        s.scanned == e.scanned,
        s.balance_sompi == worth(e.db@.notes),
        s.spendable_sompi == spendable(e.db@.notes, matured(e.ring@, e.sink_blue)),
        s.spendable_sompi + s.maturing_sompi == s.balance_sompi,
        s.pending_in == e.preview.incoming + e.mempool.incoming,
        s.pending_out == e.preview.outgoing + e.mempool.outgoing,
        s.note_count == e.db@.notes.len(),
        s.updated_unix == e.updated_unix,
        text_view(s.error) == error_text(e.error),
        s.warming == (e.caught_up && !e.witnesses_warm && e.db@.notes.len()
            <= EAGER_WARM_MAX_NOTES),
        s.missing_history == (e.blind_below > 0),
{
    let tip: u64 = if e.chain_len >= daa_score {
        e.chain_len
    } else {
        daa_score
    };
    let total: u128 = e.db.balance();
    let anchor: Option<u64> = e.matured_leaves();
    let notes: &[OwnedNote] = e.db.notes();
    let free: u128 = spendable_value(notes, anchor);
    proof {
        spendable_is_part_of_the_balance(e.db@.notes, anchor);
        assert(owned_views(notes@).len() == notes@.len());
    }
    let near: bool = e.scanned >= tip || tip - e.scanned <= SYNC_MARGIN;
    StatusSnap {
        address,
        watch_only: e.key.is_watch_only(),
        synced: tip > 0 && (e.caught_up || near),
        scanned: e.scanned,
        chain_len: tip,
        balance_sompi: total,
        spendable_sompi: free,
        maturing_sompi: total - free,
        pending_in: e.preview.incoming + e.mempool.incoming,
        pending_out: e.preview.outgoing + e.mempool.outgoing,
        note_count: notes.len(),
        updated_unix: e.updated_unix,
        error: note_error(&e.error),
        warming: e.caught_up && !e.witnesses_warm && notes.len() as u64 <= EAGER_WARM_MAX_NOTES,
        missing_history: e.blind_below > 0,
    }
}

/// The answer to a request for a wallet's status.
pub struct StatusReport {
    pub has_wallet: bool,
    pub address: Option<String>,
    pub network: String,
    pub node_connected: bool,
    pub daa_score: u64,
    pub synced: bool,
    pub warming: bool,
    pub scanned_blocks: u64,
    pub chain_len: u64,
    pub balance_sompi: String,
    pub balance_fc: String,
    pub spendable_sompi: String,
    pub spendable_fc: String,
    pub maturing_sompi: String,
    pub maturing_fc: String,
    pub pending_in_sompi: String,
    pub pending_in_fc: String,
    pub pending_out_sompi: String,
    pub pending_out_fc: String,
    pub note_count: usize,
    pub updated_unix: u64,
    pub error: Option<String>,
    pub watch_only: bool,
    pub missing_history: bool,
}

/// The two texts tell an amount, in base units and in coins.
pub open spec fn tells_amount(sompi: String, fc: String, amount: nat) -> bool {
    sompi@ == decimal_text(amount) && fc@ == coin_text(amount)
}

/// The report tells the amounts.
pub open spec fn tells_amounts(
    r: StatusReport,
    balance: nat,
    free: nat,
    maturing: nat,
    incoming: nat,
    outgoing: nat,
) -> bool {
    &&& tells_amount(r.balance_sompi, r.balance_fc, balance)
    &&& tells_amount(r.spendable_sompi, r.spendable_fc, free)
    &&& tells_amount(r.maturing_sompi, r.maturing_fc, maturing)
    &&& tells_amount(r.pending_in_sompi, r.pending_in_fc, incoming)
    &&& tells_amount(r.pending_out_sompi, r.pending_out_fc, outgoing)
}

/// The report tells what the snapshot knows, error aside.
pub open spec fn reports(r: StatusReport, s: StatusSnap) -> bool {
    &&& r.has_wallet
    &&& r.address == Some(s.address)
    &&& r.synced == s.synced
    &&& r.warming == s.warming
    &&& r.scanned_blocks == s.scanned
    &&& r.chain_len == s.chain_len
    &&& tells_amounts(
        r,
        s.balance_sompi as nat,
        s.spendable_sompi as nat,
        s.maturing_sompi as nat,
        s.pending_in as nat,
        s.pending_out as nat,
    )
    &&& r.note_count == s.note_count
    &&& r.updated_unix == s.updated_unix
    &&& r.watch_only == s.watch_only
    &&& r.missing_history == s.missing_history
}

/// The report says nothing of a wallet.
pub open spec fn blank(r: StatusReport) -> bool {
    &&& r.address is None
    &&& !r.synced
    &&& !r.warming
    &&& r.scanned_blocks == 0
    &&& r.chain_len == r.daa_score
    &&& tells_amounts(r, 0, 0, 0, 0, 0)
    &&& r.note_count == 0
    &&& r.updated_unix == 0
    &&& !r.watch_only
    &&& !r.missing_history
}

/// The report of a wallet of which nothing is known yet.
pub fn empty_report(network: String, node_connected: bool, daa_score: u64, has_wallet: bool, error: Option<
    String,
>) -> (r: StatusReport)
    ensures
        r.has_wallet == has_wallet,
        r.network == network,
        r.node_connected == node_connected,
        r.daa_score == daa_score,
        r.error == error,
        blank(r),
{
    StatusReport {
        has_wallet,
        address: None,
        network,
        node_connected,
        daa_score,
        synced: false,
        warming: false,
        scanned_blocks: 0,
        chain_len: daa_score,
        balance_sompi: decimal(0),
        balance_fc: fmt_fc(0),
        spendable_sompi: decimal(0),
        spendable_fc: fmt_fc(0),
        maturing_sompi: decimal(0),
        maturing_fc: fmt_fc(0),
        pending_in_sompi: decimal(0),
        pending_in_fc: fmt_fc(0),
        pending_out_sompi: decimal(0),
        pending_out_fc: fmt_fc(0),
        note_count: 0,
        updated_unix: 0,
        error,
        watch_only: false,
        missing_history: false,
    }
}

/// The report that a snapshot gives.
pub fn report_from_snap(s: StatusSnap, network: String, node_connected: bool, daa_score: u64) -> (r:
    StatusReport)
    ensures
        reports(r, s),
        r.error == s.error,
        r.network == network,
        r.node_connected == node_connected,
        r.daa_score == daa_score,
{
    StatusReport {
        has_wallet: true,
        network,
        node_connected,
        daa_score,
        synced: s.synced,
        warming: s.warming,
        scanned_blocks: s.scanned,
        chain_len: s.chain_len,
        balance_sompi: decimal(s.balance_sompi),
        balance_fc: fmt_fc(s.balance_sompi),
        spendable_sompi: decimal(s.spendable_sompi),
        spendable_fc: fmt_fc(s.spendable_sompi),
        maturing_sompi: decimal(s.maturing_sompi),
        maturing_fc: fmt_fc(s.maturing_sompi),
        pending_in_sompi: decimal(s.pending_in),
        pending_in_fc: fmt_fc(s.pending_in),
        pending_out_sompi: decimal(s.pending_out),
        pending_out_fc: fmt_fc(s.pending_out),
        note_count: s.note_count,
        updated_unix: s.updated_unix,
        error: s.error,
        watch_only: s.watch_only,
        missing_history: s.missing_history,
        address: Some(s.address),
    }
}

/// What the daemon has of a wallet when its status is asked for.
pub enum StatusSource {
    /// A snapshot made just now.
    Fresh(StatusSnap),
    /// The last snapshot, while the wallet is busy.
    Last(StatusSnap),
    /// A wallet without a snapshot yet.
    Unseen,
    /// A wallet that is not in memory yet.
    OnDisk,
    /// No wallet.
    Nothing,
}

/// Answers a request for a wallet's status.
pub fn status(source: StatusSource, network: String, node_connected: bool, daa_score: u64) -> (r:
    StatusReport)
    ensures
        r.network == network,
        r.node_connected == node_connected,
        r.daa_score == daa_score,
        match source {
            StatusSource::Fresh(s) => reports(r, s) && r.error == s.error,
            StatusSource::Last(s) => reports(r, s) && text_view(r.error) == Some(
                match s.error {
                    Some(e) => e@,
                    None => "updating…"@,
                },
            ),
            StatusSource::Unseen => r.has_wallet && text_view(r.error) == Some("updating…"@)
                && blank(r),
            StatusSource::OnDisk => r.has_wallet && text_view(r.error) == Some("loading…"@)
                && blank(r),
            StatusSource::Nothing => !r.has_wallet && r.error is None && blank(r),
        },
{
    match source {
        StatusSource::Fresh(s) => report_from_snap(s, network, node_connected, daa_score),
        StatusSource::Last(s) => {
            let mut r: StatusReport = report_from_snap(s, network, node_connected, daa_score);
            if r.error.is_none() {
                r.error = Some(String::from_str("updating…"));
            }
            r
        },
        StatusSource::Unseen => empty_report(
            network,
            node_connected,
            daa_score,
            true,
            Some(String::from_str("updating…")),
        ),
        StatusSource::OnDisk => empty_report(
            network,
            node_connected,
            daa_score,
            true,
            Some(String::from_str("loading…")),
        ),
        StatusSource::Nothing => empty_report(network, node_connected, daa_score, false, None),
    }
}

/// Numbers in brackets, with commas between.
pub open spec fn list_text(list: Seq<u64>) -> Seq<char> {
    "["@ + items_text(list) + "]"@
}

/// Numbers with commas between.
pub open spec fn items_text(list: Seq<u64>) -> Seq<char>
    decreases list.len(),
{
    if list.len() == 0 {
        Seq::empty()
    } else if list.len() == 1 {
        decimal_text(list[0] as nat)
    } else {
        items_text(list.drop_last()) + ", "@ + decimal_text(list.last() as nat)
    }
}

/// What is reported of a wallet's file offline.
pub struct Diagnosis {
    pub notes: usize,
    pub balance: u128,
    pub scanned: u64,
    pub base: u64,
    pub size: u64,
    /// The positions of stranded notes.
    pub stranded: Vec<u64>,
    /// What they are worth together.
    pub stranded_value: u128,
}

impl Diagnosis {
    /// The line of a wallet.
    pub open spec fn text(self, token: Seq<char>) -> Seq<char> {
        token + ": notes="@ + decimal_text(self.notes as nat) + " balance="@ + coin_text(
            self.balance as nat,
        ) + " scanned="@ + decimal_text(self.scanned as nat) + " base="@ + decimal_text(
            self.base as nat,
        ) + " size="@ + decimal_text(self.size as nat) + " stranded="@ + decimal_text(
            self.stranded@.len(),
        ) + " stranded_value="@ + coin_text(self.stranded_value as nat)
            + (if self.stranded@.len() == 0 {
            Seq::empty()
        } else {
            " positions="@ + list_text(self.stranded@)
        }) + "\n"@
    }

    /// The line of a wallet.
    pub fn line(&self, token: &str) -> (s: String)
        ensures
            s@ == self.text(token@),
    {
        let mut s: String = String::from_str(token);
        s.append(": notes=");
        push_decimal(&mut s, self.notes as u128);
        s.append(" balance=");
        let balance: String = fmt_fc(self.balance);
        s.append(balance.as_str());
        s.append(" scanned=");
        push_decimal(&mut s, self.scanned as u128);
        s.append(" base=");
        push_decimal(&mut s, self.base as u128);
        s.append(" size=");
        push_decimal(&mut s, self.size as u128);
        s.append(" stranded=");
        push_decimal(&mut s, self.stranded.len() as u128);
        s.append(" stranded_value=");
        let value: String = fmt_fc(self.stranded_value);
        s.append(value.as_str());
        if self.stranded.len() > 0 {
            s.append(" positions=");
            push_list(&mut s, self.stranded.as_slice());
        }
        s.append("\n");
        assert(s@ =~= self.text(token@));
        s
    }
}

fn push_list(s: &mut String, list: &[u64])
    ensures
        final(s)@ == old(s)@ + list_text(list@),
{
    let ghost start = s@;
    s.append("[");
    let mut i: usize = 0;
    proof {
        assert(list@.take(0) =~= Seq::<u64>::empty());
        assert(s@ =~= start + "["@ + items_text(list@.take(0)));
    }
    while i < list.len()
        invariant
            0 <= i <= list@.len(),
            s@ == start + "["@ + items_text(list@.take(i as int)),
        decreases list@.len() - i,
    {
        proof {
            assert(list@.take(i + 1).drop_last() =~= list@.take(i as int));
            assert(list@.take(i + 1).last() == list@[i as int]);
        }
        if i > 0 {
            s.append(", ");
        }
        push_decimal(s, list[i] as u128);
        assert(s@ =~= start + "["@ + items_text(list@.take(i + 1)));
        i = i + 1;
    }
    assert(list@.take(i as int) =~= list@);
    s.append("]");
    assert(s@ =~= start + list_text(list@));
}

/// A note counts as spendable exactly where its position is before the matured leaf count.
pub proof fn spendable_notes_stand_before_the_anchor(notes: Seq<OwnedV>, leaves: nat, n: OwnedV)
    ensures
        below(notes, leaves).contains(n) <==> notes.contains(n) && n.position < leaves,
    decreases notes.len(),
{
    if notes.len() > 0 {
        let front = notes.drop_last();
        let kept = below(front, leaves);
        let last = notes.last();
        spendable_notes_stand_before_the_anchor(front, leaves, n);
        lemma_contains_last(notes, n);
        if last.position < leaves {
            lemma_contains_last(kept.push(last), n);
            assert(kept.push(last).drop_last() =~= kept);
        }
    }
}

/// The values of the notes that stand before a leaf count, and nothing for the others.
pub open spec fn values_before(notes: Seq<OwnedV>, leaves: nat) -> Seq<nat> {
    Seq::new(
        notes.len(),
        |i: int|
            if notes[i].position < leaves {
                notes[i].note.value as nat
            } else {
                0
            },
    )
}

/// What is spendable is what the notes before the anchor are worth, each counted once, and
/// what is maturing is what the others are worth; without an anchor all of it is maturing.
pub proof fn balances_split_at_the_anchor(notes: Seq<OwnedV>, leaves: u64)
    ensures
        spendable(notes, Some(leaves)) == total(values_before(notes, leaves as nat)),
        spendable(notes, None) == 0,
        worth(notes) - spendable(notes, Some(leaves)) == total(
            Seq::new(
                notes.len(),
                |i: int|
                    if notes[i].position < leaves {
                        0nat
                    } else {
                        notes[i].note.value as nat
                    },
            ),
        ),
    decreases notes.len(),
{
    let later = Seq::new(
        notes.len(),
        |i: int|
            if notes[i].position < leaves {
                0nat
            } else {
                notes[i].note.value as nat
            },
    );
    if notes.len() > 0 {
        let front = notes.drop_last();
        let kept = below(front, leaves as nat);
        balances_split_at_the_anchor(front, leaves);
        assert(kept.push(notes.last()).drop_last() =~= kept);
        assert(values_before(notes, leaves as nat).drop_last() =~= values_before(
            front,
            leaves as nat,
        ));
        assert(later.drop_last() =~= Seq::new(
            front.len(),
            |i: int|
                if front[i].position < leaves {
                    0nat
                } else {
                    front[i].note.value as nat
                },
        ));
    }
}

/// What the status calls spendable is what a send may draw on, where no note before the
/// anchor is stranded.
pub proof fn spendable_is_what_a_send_draws_on(w: WalletV, leaves: u64)
    requires
        forall|i: int|
            0 <= i < w.notes.len() && w.notes[i].position < leaves ==> !w.strands(
                (#[trigger] w.notes[i]).position,
            ),
    ensures
        spendable(w.notes, Some(leaves)) == worth(candidates(w, leaves as nat)),
{
    lemma_candidates_below(w, w.notes, leaves as nat);
}

proof fn lemma_candidates_below(w: WalletV, notes: Seq<OwnedV>, leaves: nat)
    requires
        forall|i: int|
            0 <= i < notes.len() && notes[i].position < leaves ==> !w.strands(
                (#[trigger] notes[i]).position,
            ),
    ensures
        candidates_among(w, notes, leaves) == below(notes, leaves),
    decreases notes.len(),
{
    if notes.len() > 0 {
        assert(notes[notes.len() - 1] == notes.last());
        assert forall|i: int| 0 <= i < notes.drop_last().len() && notes.drop_last()[i].position
            < leaves implies !w.strands((#[trigger] notes.drop_last()[i]).position) by {
            assert(notes[i] == notes.drop_last()[i]);
        }
        lemma_candidates_below(w, notes.drop_last(), leaves);
    }
}

/// A wallet counts as synced from the margin on: with a known tip, wherever it stands no more
/// than the margin below it, and not before unless it has caught up.
pub proof fn wallets_are_synced_near_the_tip(e: WalletEntry, tip: u64)
    ensures
        counts_as_synced(e, 0) == false,
        tip > 0 && tip - e.scanned <= 32 ==> counts_as_synced(e, tip),
        tip > 0 && tip - e.scanned > 32 ==> counts_as_synced(e, tip) == e.caught_up,
{
}

/// The texts of a report spell the amounts that the snapshot knows, each in its own place.
pub proof fn reports_spell_the_amounts(r: StatusReport, s: StatusSnap)
    requires
        reports(r, s),
    ensures
        digits_value(r.balance_sompi@) == Some(s.balance_sompi as nat),
        digits_value(r.spendable_sompi@) == Some(s.spendable_sompi as nat),
        digits_value(r.maturing_sompi@) == Some(s.maturing_sompi as nat),
        digits_value(r.pending_in_sompi@) == Some(s.pending_in as nat),
        digits_value(r.pending_out_sompi@) == Some(s.pending_out as nat),
        r.balance_fc@ == coin_text(s.balance_sompi as nat),
        r.spendable_fc@ == coin_text(s.spendable_sompi as nat),
        r.maturing_fc@ == coin_text(s.maturing_sompi as nat),
        r.pending_in_fc@ == coin_text(s.pending_in as nat),
        r.pending_out_fc@ == coin_text(s.pending_out as nat),
        r.synced == s.synced,
        r.scanned_blocks == s.scanned,
        r.chain_len == s.chain_len,
        r.note_count == s.note_count,
{
    decimal_notation_reads_back(s.balance_sompi as nat);
    decimal_notation_reads_back(s.spendable_sompi as nat);
    decimal_notation_reads_back(s.maturing_sompi as nat);
    decimal_notation_reads_back(s.pending_in as nat);
    decimal_notation_reads_back(s.pending_out as nat);
}

} // verus!
