//! What the daemon tells of a wallet's payments, and how it goes about following the chain.

use crate::bundle::BundleV;
use crate::daemon::adopt::{best_donor, Donor};
use crate::daemon::blocks::{ChainBlock, DecodedBlock};
use crate::daemon::history::{
    all_held, block_entries, bundle_entries, bundle_entry, coinbase_entries, coinbase_entry,
    first_foreign, page_len, EntryV, HistoryEntry, HistoryRow, WhenV,
};
use crate::daemon::load::deep_prefix;
use crate::daemon::parked::ParkedV;
use crate::daemon::request::{decimal_notation_reads_back, digits_value, says_gone};
use crate::daemon::submit::memo_at;
use crate::daemon::sync::{anchor_cutoff, gone, matured, Probe, WalletEntry};
use crate::daemon::warm::{budget_of, climbs, longest_step, stride};
use crate::sums::total;
use crate::text::{hex_round_trips, unhex_bytes};
use crate::wallet::laws::memos_read_back;
use crate::wallet::plan::no_memo;
use crate::wallet::scan::{recovered, scanned, trimmed_memo, ReceivedV};
use crate::walletdb::holdings::{
    lemma_contains_push, previews_count_in_full, sent_by, taken_by,
};
use crate::walletdb::{OwnedV, WalletV};
use vstd::prelude::*;

verus! {

/// The history of a bundle accounts for every unit: where it spends notes of the wallet, the
/// amount, the fee and what comes back make up what was spent; where it spends none, the
/// amount is what the wallet got. A bundle that is dropped, or that neither spends nor pays
/// the wallet's, leaves no entry.
pub proof fn entries_account_for_every_unit(
    w: WalletV,
    held: Seq<OwnedV>,
    b: BundleV,
    at: WhenV,
)
    ensures
        ({
            let spent = total(taken_by(WalletV { notes: held, ..w }, b.actions));
            let got = total(sent_by(w, b.actions));
            match bundle_entry(w, held, b, at) {
                Some(e) => {
                    &&& !w.drops(b)
                    &&& e.txid == at.txid
                    &&& e.daa_score == at.daa_score
                    &&& e.timestamp_ms == at.timestamp_ms
                    &&& e.kind is Sent <==> spent > 0
                    &&& spent > 0 ==> e.fee == (if b.value_balance > 0 {
                        b.value_balance as int
                    } else {
                        0
                    })
                    &&& spent > 0 && spent >= got + e.fee && spent - got - e.fee <= u64::MAX
                        ==> e.amount + e.fee + got == spent
                    &&& spent == 0 ==> e.kind is Received && got > 0 && e.fee == 0 && (got
                        <= u64::MAX ==> e.amount == got)
                },
                None => w.drops(b) || (spent == 0 && got == 0),
            }
        }),
{
    let v = WalletV { notes: held, ..w };
    previews_count_in_full(v, Seq::empty(), b.actions);
    previews_count_in_full(w, Seq::empty(), b.actions);
}

/// Whom a payment is told to pay is the first of its readable outputs that does not go back to
/// the wallet; nobody is told exactly where all of them do.
pub proof fn the_first_foreign_output_is_told(list: Seq<ReceivedV>, own: Seq<u8>)
    ensures
        match first_foreign(list, own) {
            Some(r) => exists|i: int|
                0 <= i < list.len() && #[trigger] list[i] == r && r.note.recipient != own
                    && forall|j: int| 0 <= j < i ==> (#[trigger] list[j]).note.recipient == own,
            None => forall|j: int| 0 <= j < list.len() ==> (#[trigger] list[j]).note.recipient
                == own,
        },
    decreases list.len(),
{
    if list.len() > 0 {
        let rest = list.skip(1);
        if list[0].note.recipient == own {
            the_first_foreign_output_is_told(rest, own);
            match first_foreign(rest, own) {
                Some(r) => {
                    let i = choose|i: int|
                        0 <= i < rest.len() && #[trigger] rest[i] == r && r.note.recipient != own
                            && forall|j: int|
                            0 <= j < i ==> (#[trigger] rest[j]).note.recipient == own;
                    assert(list[i + 1] == r);
                    assert forall|j: int| 0 <= j < i + 1 implies (#[trigger] list[j]).note.recipient
                        == own by {
                        if j > 0 {
                            assert(rest[j - 1] == list[j]);
                        }
                    }
                },
                None => {
                    assert forall|j: int| 0 <= j < list.len() implies (
                    #[trigger] list[j]).note.recipient == own by {
                        if j > 0 {
                            assert(rest[j - 1] == list[j]);
                        }
                    }
                },
            }
        } else {
            assert(list[0] == first_foreign(list, own)->Some_0);
        }
    }
}

/// The entry of coinbase note `k` of a block.
pub open spec fn entry_of_coinbase(w: WalletV, b: DecodedBlock, k: int) -> Option<EntryV> {
    coinbase_entry(
        w,
        b.coinbase@[k].0,
        b.coinbase@[k].1,
        WhenV { txid: b.coinbase_txid@, daa_score: b.daa_score, timestamp_ms: b.timestamp },
    )
}

/// The entry of bundle `k` of a block.
pub open spec fn entry_of_bundle(
    w: WalletV,
    held: Seq<OwnedV>,
    b: DecodedBlock,
    k: int,
) -> Option<EntryV> {
    bundle_entry(
        w,
        held,
        b.bundles@[k]@,
        WhenV { txid: b.txids@[k]@, daa_score: b.daa_score, timestamp_ms: b.timestamp },
    )
}

proof fn lemma_coinbase_entries(w: WalletV, b: DecodedBlock, n: int, e: EntryV)
    requires
        0 <= n,
    ensures
        coinbase_entries(w, b, n).contains(e) <==> exists|k: int|
            0 <= k < n && #[trigger] entry_of_coinbase(w, b, k) == Some(e),
    decreases n,
{
    if n > 0 {
        lemma_coinbase_entries(w, b, n - 1, e);
        let before = coinbase_entries(w, b, n - 1);
        match entry_of_coinbase(w, b, n - 1) {
            Some(x) => {
                lemma_contains_push(before, x, e);
            },
            None => {},
        }
    }
}

proof fn lemma_bundle_entries(
    w: WalletV,
    held: Seq<OwnedV>,
    b: DecodedBlock,
    n: int,
    e: EntryV,
)
    requires
        0 <= n,
    ensures
        bundle_entries(w, held, b, n).contains(e) <==> coinbase_entries(
            w,
            b,
            b.coinbase@.len() as int,
        ).contains(e) || exists|k: int|
            0 <= k < n && #[trigger] entry_of_bundle(w, held, b, k) == Some(e),
    decreases n,
{
    if n > 0 {
        lemma_bundle_entries(w, held, b, n - 1, e);
        let before = bundle_entries(w, held, b, n - 1);
        match entry_of_bundle(w, held, b, n - 1) {
            Some(x) => {
                lemma_contains_push(before, x, e);
            },
            None => {},
        }
    }
}

/// Of a block that says when it was and names its transactions everything is recorded that one
/// of its coinbase notes or one of its bundles says to the wallet, and nothing else; of any
/// other block nothing is.
pub proof fn blocks_are_recorded_in_full(
    w: WalletV,
    held: Seq<OwnedV>,
    b: DecodedBlock,
    e: EntryV,
)
    ensures
        block_entries(w, held, b).contains(e) <==> b.timestamp > 0 && b.txids@.len()
            == b.bundles@.len() && {
            ||| exists|k: int|
                0 <= k < b.coinbase@.len() && #[trigger] entry_of_coinbase(w, b, k) == Some(e)
            ||| exists|k: int|
                0 <= k < b.bundles@.len() && #[trigger] entry_of_bundle(w, held, b, k) == Some(e)
        },
{
    lemma_coinbase_entries(w, b, b.coinbase@.len() as int, e);
    lemma_bundle_entries(w, held, b, b.bundles@.len() as int, e);
}

/// A coinbase payment is recorded with its value and without a fee, exactly where it pays the
/// wallet.
pub proof fn coinbase_payments_are_recorded(w: WalletV, b: DecodedBlock, k: int)
    ensures
        entry_of_coinbase(w, b, k) is Some <==> w.recover(b.coinbase@[k].0, b.coinbase@[k].1)
            is Some,
        entry_of_coinbase(w, b, k) matches Some(e) ==> e.kind is Coinbase && e.amount
            == b.coinbase@[k].1 && e.fee == 0 && e.txid == b.coinbase_txid@ && e.recipient is None,
{
}

/// A page of rows stays within its limit and within the rows that there are, and is cut short
/// only by the end of them.
pub proof fn pages_are_full(rows: nat, offset: nat, limit: nat)
    ensures
        page_len(rows, offset, limit) <= limit,
        offset <= rows ==> offset + page_len(rows, offset, limit) <= rows,
        page_len(rows, offset, limit) < limit && offset <= rows ==> offset + page_len(
            rows,
            offset,
            limit,
        ) == rows,
        offset > rows ==> page_len(rows, offset, limit) == 0,
{
}

/// A step of the witnesses shares the budget out: together the witnesses climb no more leaves
/// than it holds, unless each climbs the least step; and no step is shorter than the least or
/// longer than allowed.
pub proof fn steps_share_the_budget(notes: nat, cold: bool)
    ensures
        1 <= budget_of(notes) <= 32,
        notes <= 32 ==> budget_of(notes) >= notes,
        32 <= stride(notes, cold) <= longest_step(cold),
        stride(notes, cold) * budget_of(notes) <= 32768 || stride(notes, cold) == 32,
        stride(notes, false) <= stride(notes, true),
        notes == 1 ==> stride(notes, cold) == longest_step(cold),
{
    let n = budget_of(notes) as int;
    let fair = 32768int / n;
    assert(fair * n <= 32768 && fair >= 1024) by (nonlinear_arith)
        requires
            1 <= n <= 32,
            fair == 32768int / n,
    ;
    if notes == 1 {
        assert(n == 1);
        assert(fair == 32768) by (nonlinear_arith)
            requires
                n == 1,
                fair == 32768int / n,
        ;
        assert(budget_of(notes) as u64 == 1u64);
    }
    let s = stride(notes, cold) as int;
    assert(s * n <= fair * n) by (nonlinear_arith)
        requires
            s <= fair,
            1 <= n,
    ;
}

/// The donor that a registration takes its checkpoint from is determined, and none that serves
/// was written later.
pub proof fn the_freshest_donor_is_taken(
    donors: Seq<Donor>,
    token: Seq<char>,
    fvk: Seq<u8>,
    birthday: u64,
    genesis: Seq<u8>,
    secret: Option<&str>,
    i: int,
    j: int,
)
    requires
        best_donor(donors, token, fvk, birthday, genesis, secret, i),
        best_donor(donors, token, fvk, birthday, genesis, secret, j),
    ensures
        i == j,
{
    assert(crate::daemon::adopt::serves(donors[i], token, fvk, birthday, genesis, secret));
    assert(crate::daemon::adopt::serves(donors[j], token, fvk, birthday, genesis, secret));
}

/// A payment tells whom it pays and with which memo, where the wallet can read it back, and a
/// receipt tells the memo of the first note that came.
pub proof fn entries_tell_whom_and_why(w: WalletV, held: Seq<OwnedV>, b: BundleV, at: WhenV)
    ensures
        bundle_entry(w, held, b, at) matches Some(e) ==> {
            let read = recovered(w.fvk, b.actions);
            &&& e.kind is Sent && e.recipient is Some ==> exists|i: int|
                0 <= i < read.len() && (#[trigger] read[i]).note.recipient != w.address()
                    && e.recipient == Some(read[i].note.recipient) && e.memo == read[i].memo
                    && forall|j: int|
                    0 <= j < i ==> (#[trigger] read[j]).note.recipient == w.address()
            &&& e.kind is Sent && e.recipient is None ==> e.memo.len() == 0 && forall|i: int|
                0 <= i < read.len() ==> (#[trigger] read[i]).note.recipient == w.address()
            &&& e.kind is Received ==> e.recipient is None && e.memo == scanned(
                w.ivk(),
                b.actions,
            )[0].memo
        },
{
    the_first_foreign_output_is_told(recovered(w.fvk, b.actions), w.address());
}

/// A wallet of few notes climbs to any anchor before it spends; one of many climbs only where
/// the anchor is near. Without an anchor none climbs.
pub proof fn small_wallets_always_climb(e: WalletEntry)
    ensures
        climbs(e) ==> matured(e.ring@, e.sink_blue) is Some,
        matured(e.ring@, e.sink_blue) is Some && e.db@.notes.len() <= 32 ==> climbs(e),
        matured(e.ring@, e.sink_blue) matches Some(leaves) ==> (leaves - e.db@.upto <= 512
            ==> climbs(e)) && (leaves - e.db@.upto > 512 && e.db@.notes.len() > 32 ==> !climbs(e)),
{
}

/// A row of the history spells the entry that it shows.
pub proof fn rows_spell_their_entry(row: HistoryRow, e: HistoryEntry)
    requires
        row.shows(e),
    ensures
        digits_value(row.amount_sompi_exact@) == Some(e.amount as nat),
        digits_value(row.fee_sompi_exact@) == Some(e.fee as nat),
        row.amount_sompi == e.amount,
        row.fee_sompi == e.fee,
        unhex_bytes(row.txid@) == Some(e.txid@),
        row.memo matches Some(m) ==> m@ == e.memo@,
        row.memo is None ==> e.memo@.len() == 0,
        row.recipient == e.recipient,
{
    decimal_notation_reads_back(e.amount as nat);
    decimal_notation_reads_back(e.fee as nat);
    hex_round_trips(e.txid@);
}

/// A cursor is given up only on a verdict that says it is gone: the page's own error, or the
/// block's from a node that is alive. Silence and other errors say nothing.
pub proof fn only_verdicts_retire_a_cursor(page_error: Seq<char>, probe: Probe, node_alive: bool)
    ensures
        gone(page_error, probe, node_alive) && !says_gone(page_error) ==> node_alive && (
        probe matches Probe::Failed(e) && says_gone(e@)),
        says_gone(page_error) ==> gone(page_error, probe, node_alive),
        !says_gone(page_error) && !(probe is Failed) ==> !gone(page_error, probe, node_alive),
        node_alive && (probe matches Probe::Failed(e) && says_gone(e@)) ==> gone(
            page_error,
            probe,
            node_alive,
        ),
{
}

/// Only the first transaction of a payment carries the memo; the others read as empty.
pub proof fn memos_are_sent_once(memo: Seq<u8>, index: int)
    ensures
        memo_at(memo, 0) == memo,
        index > 0 ==> trimmed_memo(memo_at(memo, index)) == Seq::<u8>::empty() && memo_at(
            memo,
            index,
        ).len() == 512,
{
    memos_read_back(Seq::empty(), no_memo());
    assert(Seq::<u8>::empty() + no_memo() =~= no_memo());
    assert(Seq::<u8>::empty().len() == 0);
    assert(Seq::<u8>::empty() != seq![0xf6u8]) by {
        assert(seq![0xf6u8].len() == 1);
    }
}

/// Exactly the blocks that are deep enough for an anchor are replayed, up to the first that is
/// not, and how many is determined.
pub proof fn replays_stop_at_the_anchor_depth(
    blocks: Seq<ChainBlock>,
    sink: u64,
    k: int,
    j: int,
)
    requires
        deep_prefix(blocks, anchor_cutoff(sink), k),
    ensures
        0 <= k <= blocks.len(),
        0 <= j < k ==> blocks[j].blue_score + 630 <= sink || blocks[j].blue_score == 0,
        k < blocks.len() ==> blocks[k].blue_score + 630 > sink && blocks[k].blue_score > 0,
        deep_prefix(blocks, anchor_cutoff(sink), j) ==> j == k,
{
    if deep_prefix(blocks, anchor_cutoff(sink), j) {
        if j < k {
            assert(blocks[j].blue_score <= anchor_cutoff(sink));
        } else if k < j {
            assert(blocks[k].blue_score <= anchor_cutoff(sink));
        }
    }
}

/// The history looks at every note that a payment may spend: those that are held, and those of
/// payments under way.
pub proof fn payments_under_way_are_recognised(
    notes: Seq<OwnedV>,
    parked: Seq<ParkedV>,
    n: OwnedV,
)
    ensures
        all_held(notes, parked).contains(n) <==> notes.contains(n) || exists|i: int|
            0 <= i < parked.len() && (#[trigger] parked[i]).note == n,
{
    let all = all_held(notes, parked);
    if all.contains(n) {
        let i = choose|i: int| 0 <= i < all.len() && all[i] == n;
        if i < notes.len() {
            assert(notes[i] == n);
        } else {
            assert(parked[i - notes.len()].note == n);
        }
    }
    if notes.contains(n) {
        let i = choose|i: int| 0 <= i < notes.len() && notes[i] == n;
        assert(all[i] == n);
    }
    if exists|i: int| 0 <= i < parked.len() && (#[trigger] parked[i]).note == n {
        let i = choose|i: int| 0 <= i < parked.len() && (#[trigger] parked[i]).note == n;
        assert(all[notes.len() + i] == n);
    }
}

} // verus!
