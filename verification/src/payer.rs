//! A payer that keeps no state: it replays the chain, and pays from what it finds.

use crate::bytes::{copy, same};
use crate::daemon::blocks::{ingest_shielded_chain_block, ChainBlock};
use crate::daemon::fees::sum_of;
use crate::daemon::laws::{amounts, sums_count_each_value};
use crate::daemon::load::{chain_weight, replayed};
use crate::daemon::spend::{arrange, arranged, inputs_at, inputs_from, pathless, values_of};
use crate::note::Note;
use crate::sums::total;
use crate::text::{decimal_text, push_decimal};
use crate::tx::{Transaction, TransactionOutput, TX_VERSION_SHIELDED};
use crate::wallet::payment::paths_wf;
use crate::walletdb::{action_count, owned_views, OwnedNote, OwnedV, WalletDb, WalletV};
use crate::witness::MerklePath;
use vstd::prelude::*;
use vstd::string::*;

verus! {

/// How much deeper than an anchor must be the payer stays.
pub const MARGIN: u64 = 2;

/// A block with its transactions, the coinbase first.
pub struct FullBlock {
    pub hash: [u8; 32],
    /// Id and transaction.
    pub transactions: Vec<([u8; 32], Transaction)>,
}

/// The payloads of the shielded transactions among the first `k`, the coinbase aside.
pub open spec fn shielded_payloads(
    txs: Seq<([u8; 32], Transaction)>,
    k: int,
) -> Seq<Seq<u8>>
    decreases k,
{
    if k <= 1 {
        Seq::empty()
    } else {
        let before = shielded_payloads(txs, k - 1);
        if txs[k - 1].1.version == TX_VERSION_SHIELDED {
            before.push(txs[k - 1].1.payload@)
        } else {
            before
        }
    }
}

/// What a list of payloads holds.
pub open spec fn payload_views(list: Seq<Vec<u8>>) -> Seq<Seq<u8>> {
    Seq::new(list.len(), |i: int| list[i]@)
}

/// What a list of outputs holds.
pub open spec fn output_views(list: Seq<TransactionOutput>) -> Seq<(u64, Seq<u8>)> {
    Seq::new(list.len(), |i: int| (list[i].value, list[i].script@))
}

/// The chain block is what the full block does to shielded value.
pub open spec fn distils(c: ChainBlock, b: FullBlock) -> bool {
    &&& c.hash@ == b.hash@
    &&& payload_views(c.accepted_bundles@) == shielded_payloads(
        b.transactions@,
        b.transactions@.len() as int,
    )
    &&& c.blue_score == 0
    &&& c.daa_score == 0
    &&& c.timestamp == 0
    &&& c.accepted_txids@.len() == 0
    &&& b.transactions@.len() == 0 ==> c.coinbase_outputs@.len() == 0
    &&& b.transactions@.len() > 0 ==> {
        &&& c.coinbase_txid@ == b.transactions@[0].0@
        &&& output_views(c.coinbase_outputs@) == output_views(b.transactions@[0].1.outputs@)
    }
}

fn copy_outputs(list: &Vec<TransactionOutput>) -> (out: Vec<TransactionOutput>)
    ensures
        output_views(out@) == output_views(list@),
{
    let mut out: Vec<TransactionOutput> = Vec::new();
    let mut i: usize = 0;
    while i < list.len()
        invariant
            0 <= i <= list@.len(),
            out@.len() == i,
            forall|j: int|
                0 <= j < i ==> (#[trigger] out@[j]).value == list@[j].value && out@[j].script@
                    == list@[j].script@,
        decreases list@.len() - i,
    {
        out.push(
            TransactionOutput { value: list[i].value, script: copy(list[i].script.as_slice()) },
        );
        i = i + 1;
    }
    assert(output_views(out@) =~= output_views(list@));
    out
}

/// What a full block does to shielded value: the coinbase outputs, and the payloads of its
/// shielded transactions in order.
pub fn distil(b: &FullBlock) -> (c: ChainBlock)
    ensures
        distils(c, *b),
{
    let ghost txs = b.transactions@;
    let mut payloads: Vec<Vec<u8>> = Vec::new();
    let mut i: usize = 1;
    assert(payload_views(payloads@) =~= Seq::<Seq<u8>>::empty());
    while i < b.transactions.len()
        invariant
            1 <= i,
            txs == b.transactions@,
            i <= txs.len() || i == 1,
            payload_views(payloads@) == shielded_payloads(txs, i as int),
        decreases txs.len() - i,
    {
        let ghost before = payloads@;
        if b.transactions[i].1.version == TX_VERSION_SHIELDED {
            payloads.push(copy(b.transactions[i].1.payload.as_slice()));
            assert(payload_views(payloads@) =~= payload_views(before).push(
                txs[i as int].1.payload@,
            ));
        }
        i = i + 1;
    }
    let (coinbase_txid, coinbase_outputs) = if b.transactions.len() > 0 {
        (b.transactions[0].0, copy_outputs(&b.transactions[0].1.outputs))
    } else {
        ([0u8; 32], Vec::new())
    };
    ChainBlock {
        hash: b.hash,
        blue_score: 0,
        daa_score: 0,
        coinbase_txid,
        coinbase_outputs,
        accepted_bundles: payloads,
        accepted_txids: Vec::new(),
        timestamp: 0,
    }
}

/// How many blocks to replay so that the anchor is deep enough: all but the newest
/// `anchor_depth` and a margin. `None` where the chain is not that long.
pub fn ingest_limit(chain_len: u64, anchor_depth: u64) -> (r: Option<u64>)
    ensures
        match r {
            Some(n) => n > 0 && n == chain_len - anchor_depth - MARGIN,
            None => chain_len <= anchor_depth + MARGIN,
        },
{
    if anchor_depth <= chain_len && chain_len - anchor_depth > MARGIN {
        Some(chain_len - anchor_depth - MARGIN)
    } else {
        None
    }
}

/// What is left of a page once the block that it starts behind and the genesis are passed
/// over, as far as the limit goes.
pub open spec fn page_blocks(
    page: Seq<ChainBlock>,
    low: Seq<u8>,
    genesis: Seq<u8>,
    room: nat,
) -> Seq<ChainBlock>
    decreases page.len(),
{
    if page.len() == 0 {
        Seq::empty()
    } else {
        let before = page_blocks(page.drop_last(), low, genesis, room);
        let b = page.last();
        if b.hash@ == low || b.hash@ == genesis || before.len() >= room {
            before
        } else {
            before.push(b)
        }
    }
}

proof fn lemma_chain_weight_push(blocks: Seq<ChainBlock>, b: ChainBlock)
    ensures
        chain_weight(blocks.push(b)) == chain_weight(blocks) + b.notes().len() + action_count(
            b.bundles(),
        ),
{
    assert(blocks.push(b).drop_last() =~= blocks);
}

proof fn lemma_page_weight(page: Seq<ChainBlock>, low: Seq<u8>, genesis: Seq<u8>, room: nat)
    ensures
        chain_weight(page_blocks(page, low, genesis, room)) <= chain_weight(page),
        page_blocks(page, low, genesis, room).len() <= room,
    decreases page.len(),
{
    if page.len() > 0 {
        lemma_page_weight(page.drop_last(), low, genesis, room);
        lemma_chain_weight_push(page_blocks(page.drop_last(), low, genesis, room), page.last());
    }
}

/// What a page of the replay leaves to do.
#[derive(Debug, Clone, Copy, PartialEq, Eq)]
pub enum ScanStep {
    /// Fetch the page that starts at this block.
    Fetch([u8; 32]),
    /// All of the chain was replayed, or as much as was asked for.
    Done,
}

proof fn lemma_replayed_push(w: WalletV, blocks: Seq<ChainBlock>, b: ChainBlock, k: int)
    requires
        0 <= k <= blocks.len(),
    ensures
        replayed(w, blocks.push(b), k) == replayed(w, blocks, k),
    decreases k,
{
    if k > 0 {
        lemma_replayed_push(w, blocks, b, k - 1);
        assert(blocks.push(b)[k - 1] == blocks[k - 1]);
    }
}

/// Replays one page into a wallet: `count` blocks were replayed before, and at most `limit`
/// are. Gives the new count, and what is left to do.
pub fn scan_page(
    db: &mut WalletDb,
    page: &Vec<ChainBlock>,
    low: &[u8; 32],
    genesis: &[u8; 32],
    count: u64,
    limit: u64,
) -> (r: (u64, ScanStep))
    requires
        old(db).wf(),
        count <= limit,
        old(db)@.size() + chain_weight(page@) <= u64::MAX,
    ensures
        final(db).wf(),
        old(db)@.tidy() ==> final(db)@.tidy(),
        ({
            let fed = page_blocks(page@, low@, genesis@, (limit - count) as nat);
            &&& final(db)@ == replayed(old(db)@, fed, fed.len() as int)
            &&& r.0 == count + fed.len()
            &&& r.1 == (if fed.len() > 0 && page@.last().hash@ != low@ && r.0 < limit {
                ScanStep::Fetch(page@.last().hash)
            } else {
                ScanStep::Done
            })
        }),
{
    let ghost start = db@;
    let ghost all = page@;
    let ghost room = (limit - count) as nat;
    let mut n: u64 = count;
    let mut i: usize = 0;
    proof {
        assert(all.take(0) =~= Seq::<ChainBlock>::empty());
    }
    while i < page.len()
        invariant
            0 <= i <= all.len(),
            all == page@,
            db.wf(),
            start.tidy() ==> db@.tidy(),
            count <= limit,
            room == limit - count,
            start.size() + chain_weight(all) <= u64::MAX,
            count <= n <= limit,
            ({
                let fed = page_blocks(all.take(i as int), low@, genesis@, room);
                &&& n == count + fed.len()
                &&& db@ == replayed(start, fed, fed.len() as int)
                &&& db@.size() <= start.size() + chain_weight(fed)
            }),
        decreases all.len() - i,
    {
        let ghost fed = page_blocks(all.take(i as int), low@, genesis@, room);
        proof {
            assert(all.take(i + 1).drop_last() =~= all.take(i as int));
            assert(all.take(i + 1).last() == all[i as int]);
        }
        if !same(&page[i].hash, low) && !same(&page[i].hash, genesis) && n < limit {
            proof {
                let b = all[i as int];
                lemma_page_weight(all.take(i + 1), low@, genesis@, room);
                lemma_take_weight(all, i + 1);
                lemma_chain_weight_push(fed, b);
                lemma_replayed_push(start, fed, b, fed.len() as int);
                crate::daemon::load::chain_blocks_append_at_most_their_weight(db@, b);
            }
            ingest_shielded_chain_block(db, &page[i]);
            n = n + 1;
        }
        i = i + 1;
    }
    assert(all.take(i as int) =~= all);
    let step: ScanStep = if n > count && n < limit && !same(&page[page.len() - 1].hash, low) {
        ScanStep::Fetch(page[page.len() - 1].hash)
    } else {
        ScanStep::Done
    };
    (n, step)
}

proof fn lemma_take_weight(page: Seq<ChainBlock>, k: int)
    requires
        0 <= k <= page.len(),
    ensures
        chain_weight(page.take(k)) <= chain_weight(page),
    decreases page.len() - k,
{
    if k < page.len() {
        lemma_take_weight(page, k + 1);
        assert(page.take(k + 1).drop_last() =~= page.take(k));
    } else {
        assert(page.take(k) =~= page);
    }
}

/// Output `i` is the first that carries a shielded recipient and nothing else.
pub open spec fn first_shielded(outputs: Seq<TransactionOutput>, i: int) -> bool {
    &&& 0 <= i < outputs.len()
    &&& outputs[i].script@.len() == 43
    &&& forall|j: int| 0 <= j < i ==> (#[trigger] outputs[j]).script@.len() != 43
}

/// The first note that a coinbase transaction mints: the output's index and value.
pub fn first_note(outputs: &Vec<TransactionOutput>) -> (r: Option<(usize, u64)>)
    ensures
        match r {
            Some((i, value)) => first_shielded(outputs@, i as int) && value
                == outputs@[i as int].value,
            None => forall|j: int|
                0 <= j < outputs@.len() ==> (#[trigger] outputs@[j]).script@.len() != 43,
        },
{
    let mut i: usize = 0;
    while i < outputs.len()
        invariant
            0 <= i <= outputs@.len(),
            forall|j: int| 0 <= j < i ==> (#[trigger] outputs@[j]).script@.len() != 43,
        decreases outputs@.len() - i,
    {
        if outputs[i].script.len() == 43 {
            return Some((i, outputs[i].value));
        }
        i = i + 1;
    }
    None
}

/// `n` is the fewest values that reach what is needed, or all of them where they do not.
pub open spec fn reaches(values: Seq<u64>, need: nat, n: int) -> bool {
    &&& 0 <= n <= values.len()
    &&& forall|k: int| 0 <= k < n ==> #[trigger] sum_of(values, k) < need
    &&& sum_of(values, n) >= need || n == values.len()
}

/// What a payment draws on.
pub enum Draw {
    /// These inputs, worth this much together.
    Inputs { inputs: Vec<(Note, MerklePath)>, selected: u128 },
    /// All notes together hold too little.
    Short { selected: u128, count: usize },
    /// A note has no path.
    NoPath,
}

/// What drawing on notes in this order comes to.
pub open spec fn draws(r: Draw, sorted: Seq<OwnedV>, w: WalletV, need: u64) -> bool {
    let values = values_of(sorted);
    exists|n: int| #[trigger] reaches(values, need as nat, n) && match r {
        Draw::Inputs { inputs, selected } => {
            &&& selected == sum_of(values, n)
            &&& selected >= need
            &&& inputs_from(inputs@, sorted.take(n), w, w.size())
            &&& paths_wf(inputs@)
        },
        Draw::Short { selected, count } => {
            &&& selected == sum_of(values, n)
            &&& selected < need
            &&& count == n
        },
        Draw::NoPath => pathless(sorted.take(n), w, w.size()),
    }
}

/// Draws on a replayed wallet's notes, the most valuable first, until they reach what is
/// needed.
pub fn draw(db: &WalletDb, need: u64) -> (r: Draw)
    requires
        db.wf(),
    ensures
        exists|sorted: Seq<OwnedV>| #[trigger]
            arranged(sorted, db@.notes, true) && draws(r, sorted, db@, need),
{
    let sorted: Vec<OwnedNote> = arrange(db.notes(), true);
    let ghost all = owned_views(sorted@);
    let ghost values = values_of(all);
    let mut n: usize = 0;
    let mut selected: u128 = 0;
    while n < sorted.len() && selected < need as u128
        invariant
            0 <= n <= sorted@.len(),
            all == owned_views(sorted@),
            values == values_of(all),
            selected == sum_of(values, n as int),
            selected < need + 0x1_0000_0000_0000_0000,
            forall|k: int| 0 <= k < n ==> #[trigger] sum_of(values, k) < need,
        decreases sorted@.len() - n,
    {
        assert(sum_of(values, n as int) < need);
        selected = selected + sorted[n].value() as u128;
        n = n + 1;
    }
    proof {
        assert(reaches(values, need as nat, n as int));
        assert(arranged(all, db@.notes, true));
    }
    let chosen: &[OwnedNote] = vstd::slice::slice_subrange(sorted.as_slice(), 0, n);
    assert(owned_views(chosen@) =~= all.take(n as int));
    let size: u64 = db.size();
    match inputs_at(db, chosen, size) {
        None => {
            assert(draws(Draw::NoPath, all, db@, need));
            Draw::NoPath
        },
        Some(inputs) => {
            let r: Draw = if selected < need as u128 {
                Draw::Short { selected, count: n }
            } else {
                Draw::Inputs { inputs, selected }
            };
            assert(draws(r, all, db@, need));
            r
        },
    }
}

/// The text of a refusal for want of funds.
pub open spec fn short_text(selected: nat, count: nat, need: nat, balance: nat) -> Seq<char> {
    "insufficient matured funds: have "@ + decimal_text(selected) + " across "@ + decimal_text(
        count,
    ) + " matured note(s), need amount+fee="@ + decimal_text(need) + " (total balance "@
        + decimal_text(balance) + ")"@
}

/// The message of a refusal for want of funds.
pub fn short_message(selected: u128, count: usize, need: u64, balance: u128) -> (s: String)
    ensures
        s@ == short_text(selected as nat, count as nat, need as nat, balance as nat),
{
    let mut s: String = String::from_str("insufficient matured funds: have ");
    push_decimal(&mut s, selected);
    s.append(" across ");
    push_decimal(&mut s, count as u128);
    s.append(" matured note(s), need amount+fee=");
    push_decimal(&mut s, need as u128);
    s.append(" (total balance ");
    push_decimal(&mut s, balance);
    s.append(")");
    s
}

/// The shielded transactions of a block give their payloads in order; the first transaction,
/// the coinbase, and those of another version give none.
pub proof fn shielded_payloads_are_all_taken(txs: Seq<([u8; 32], Transaction)>, n: int, k: int)
    requires
        1 <= k < n <= txs.len(),
    ensures
        txs[k].1.version == TX_VERSION_SHIELDED ==> ({
            let place = shielded_payloads(txs, k).len() as int;
            place < shielded_payloads(txs, n).len() && shielded_payloads(txs, n)[place]
                == txs[k].1.payload@
        }),
        txs[k].1.version != TX_VERSION_SHIELDED ==> shielded_payloads(txs, k + 1)
            == shielded_payloads(txs, k),
        shielded_payloads(txs, 1).len() == 0,
        shielded_payloads(txs, n).len() <= n - 1,
        (forall|i: int| 1 <= i < n ==> (#[trigger] txs[i]).1.version == TX_VERSION_SHIELDED)
            ==> shielded_payloads(txs, n).len() == n - 1,
    decreases n,
{
    lemma_payload_count(txs, n);
    if k < n - 1 {
        shielded_payloads_are_all_taken(txs, n - 1, k);
    }
}

proof fn lemma_payload_count(txs: Seq<([u8; 32], Transaction)>, n: int)
    requires
        1 <= n <= txs.len(),
    ensures
        shielded_payloads(txs, n).len() <= n - 1,
        (forall|i: int| 1 <= i < n ==> (#[trigger] txs[i]).1.version == TX_VERSION_SHIELDED)
            ==> shielded_payloads(txs, n).len() == n - 1,
    decreases n,
{
    if n > 1 {
        lemma_payload_count(txs, n - 1);
        if forall|i: int| 1 <= i < n ==> (#[trigger] txs[i]).1.version == TX_VERSION_SHIELDED {
            assert(txs[n - 1].1.version == TX_VERSION_SHIELDED);
        }
    }
}

/// What a page leaves to be scanned is every block of it but the one that it starts behind and
/// the genesis, in order, up to the limit: none is passed over while there is room.
pub proof fn pages_are_scanned_in_full(
    page: Seq<ChainBlock>,
    low: Seq<u8>,
    genesis: Seq<u8>,
    room: nat,
)
    ensures
        ({
            let all = page.filter(|b: ChainBlock| b.hash@ != low && b.hash@ != genesis);
            page_blocks(page, low, genesis, room) == (if all.len() <= room {
                all
            } else {
                all.take(room as int)
            })
        }),
    decreases page.len(),
{
    reveal(Seq::filter);
    let keep = |b: ChainBlock| b.hash@ != low && b.hash@ != genesis;
    let all = page.filter(keep);
    if page.len() > 0 {
        let front = page.drop_last();
        let before = front.filter(keep);
        pages_are_scanned_in_full(front, low, genesis, room);
        if keep(page.last()) {
            assert(all == before.push(page.last()));
            if before.len() == room {
                assert(all.take(room as int) =~= before);
            } else if before.len() > room {
                assert(all.take(room as int) =~= before.take(room as int));
            }
        }
    }
}

/// A draw takes the fewest notes that reach what is needed, and how many is determined; it
/// falls short exactly where all notes together do.
pub proof fn draws_take_the_fewest_notes(values: Seq<u64>, need: nat, n: int, m: int)
    requires
        reaches(values, need, n),
        0 <= m <= values.len(),
    ensures
        m < n ==> total(amounts(values.take(m))) < need,
        total(amounts(values)) >= need ==> total(amounts(values.take(n))) >= need,
        total(amounts(values)) < need ==> n == values.len(),
        reaches(values, need, m) ==> m == n,
{
    sums_count_each_value(values, m);
    sums_count_each_value(values, n);
    sums_count_each_value(values, values.len() as int);
    assert(values.take(values.len() as int) =~= values);
    lemma_sum_grows(values, n, values.len() as int);
    if m < n {
        assert(sum_of(values, m) < need);
    }
    if reaches(values, need, m) && n < m {
        assert(sum_of(values, n) < need);
    }
}

proof fn lemma_sum_grows(values: Seq<u64>, n: int, m: int)
    requires
        0 <= n <= m <= values.len(),
    ensures
        sum_of(values, n) <= sum_of(values, m),
    decreases m - n,
{
    if n < m {
        lemma_sum_grows(values, n, m - 1);
    }
}

} // verus!
