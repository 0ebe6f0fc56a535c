//! What scanning finds, action by action, and what payments pay, output by output.

use super::payment::{coinbase_seed, inputs_total, payment_plan, wallet_plan};
use super::pending::PendingActionV;
use super::plan::{paid_total, spent_total, OutputV, PlanV, SpendV};
use super::prepared::{requests, told_paid, told_spent};
use super::scan::{
    collected, decodable, decrypt_action, decrypt_record, recover_action, recovered, scanned, scanned_compact,
    trimmed_memo, without_trailing_zeros, CompactActionRecord, ReceivedV,
};
use crate::bundle::ActionV;
use crate::bytes::{le_bytes, lemma_concat_injective, lemma_le_value_of_bytes, lemma_pow256};
use crate::keys::address_of_fvk;
use crate::note::{Note, NoteV};
use crate::payment_check::ActionDisclosure;
use crate::sums::{total, totals_add_up};
use crate::verify::action_fault;
use crate::walletdb::holdings::{lemma_contains_last, lemma_contains_push};
use crate::witness::{MerklePath, PathV};
use vstd::prelude::*;

verus! {

/// A scan finds exactly the notes that trial decryption finds in the actions that decode, each
/// with the index of its action and its memo, in the order of the actions.
pub proof fn scans_find_every_note(ivk: Seq<u8>, actions: Seq<ActionV>, r: ReceivedV)
    ensures
        scanned(ivk, actions).contains(r) <==> {
            &&& 0 <= r.action_index < actions.len()
            &&& action_fault(actions[r.action_index]) is None
            &&& decrypt_action(ivk, actions[r.action_index]) matches Some((note, memo))
                && r.note == note && r.memo == trimmed_memo(memo)
        },
        forall|i: int, j: int|
            0 <= i < j < scanned(ivk, actions).len() ==> (#[trigger] scanned(
                ivk,
                actions,
            )[i]).action_index < (#[trigger] scanned(ivk, actions)[j]).action_index,
        forall|i: int|
            0 <= i < scanned(ivk, actions).len() ==> (#[trigger] scanned(
                ivk,
                actions,
            )[i]).action_index < actions.len(),
    decreases actions.len(),
{
    if actions.len() > 0 {
        let front = actions.drop_last();
        let last = actions.len() - 1;
        let found = scanned(ivk, front);
        let now = scanned(ivk, actions);
        scans_find_every_note(ivk, front, r);
        if now.len() > found.len() {
            lemma_contains_push(found, now.last(), r);
            assert(now =~= found.push(now.last()));
        } else {
            assert(now == found);
        }
        assert(forall|i: int| 0 <= i < found.len() ==> #[trigger] now[i] == found[i]);
        if r.action_index != last {
            if 0 <= r.action_index < last {
                assert(front[r.action_index] == actions[r.action_index]);
            }
        } else if found.contains(r) {
            let i = choose|i: int| 0 <= i < found.len() && found[i] == r;
            assert(found[i].action_index < last);
        }
    }
}

/// Reading back finds exactly the notes that the sender's outgoing key recovers from the
/// actions that decode, each with the index of its action and its memo.
pub proof fn senders_find_every_note(fvk: Seq<u8>, actions: Seq<ActionV>, r: ReceivedV)
    ensures
        recovered(fvk, actions).contains(r) <==> {
            &&& 0 <= r.action_index < actions.len()
            &&& action_fault(actions[r.action_index]) is None
            &&& recover_action(fvk, actions[r.action_index]) matches Some((note, memo))
                && r.note == note && r.memo == trimmed_memo(memo)
        },
        forall|i: int, j: int|
            0 <= i < j < recovered(fvk, actions).len() ==> (#[trigger] recovered(
                fvk,
                actions,
            )[i]).action_index < (#[trigger] recovered(fvk, actions)[j]).action_index,
        forall|i: int|
            0 <= i < recovered(fvk, actions).len() ==> (#[trigger] recovered(
                fvk,
                actions,
            )[i]).action_index < actions.len(),
    decreases actions.len(),
{
    if actions.len() > 0 {
        let front = actions.drop_last();
        let last = actions.len() - 1;
        let found = recovered(fvk, front);
        let now = recovered(fvk, actions);
        senders_find_every_note(fvk, front, r);
        if now.len() > found.len() {
            lemma_contains_push(found, now.last(), r);
            assert(now =~= found.push(now.last()));
        } else {
            assert(now == found);
        }
        assert(forall|i: int| 0 <= i < found.len() ==> #[trigger] now[i] == found[i]);
        if r.action_index != last {
            if 0 <= r.action_index < last {
                assert(front[r.action_index] == actions[r.action_index]);
            }
        } else if found.contains(r) {
            let i = choose|i: int| 0 <= i < found.len() && found[i] == r;
            assert(found[i].action_index < last);
        }
    }
}

/// A compact scan finds exactly the notes that trial decryption finds in the records that
/// decode, each with the index of its record and no memo.
pub proof fn compact_scans_find_every_note(
    ivk: Seq<u8>,
    records: Seq<CompactActionRecord>,
    r: ReceivedV,
)
    ensures
        scanned_compact(ivk, records).contains(r) <==> {
            &&& 0 <= r.action_index < records.len()
            &&& records[r.action_index].decodes()
            &&& decrypt_record(ivk, records[r.action_index]) == Some(r.note)
            &&& r.memo == Seq::<u8>::empty()
        },
        forall|i: int|
            0 <= i < scanned_compact(ivk, records).len() ==> (#[trigger] scanned_compact(
                ivk,
                records,
            )[i]).action_index < records.len(),
    decreases records.len(),
{
    if records.len() > 0 {
        let front = records.drop_last();
        let last = records.len() - 1;
        let found = scanned_compact(ivk, front);
        let now = scanned_compact(ivk, records);
        compact_scans_find_every_note(ivk, front, r);
        if now.len() > found.len() {
            lemma_contains_push(found, now.last(), r);
            assert(now =~= found.push(now.last()));
        } else {
            assert(now == found);
        }
        assert(forall|i: int| 0 <= i < found.len() ==> #[trigger] now[i] == found[i]);
        if r.action_index != last {
            if 0 <= r.action_index < last {
                assert(front[r.action_index] == records[r.action_index]);
            }
        } else if found.contains(r) {
            let i = choose|i: int| 0 <= i < found.len() && found[i] == r;
            assert(found[i].action_index < last);
        }
    }
}

/// The actions that trial decryption looks at are exactly those that decode.
pub proof fn every_decodable_action_is_tried(actions: Seq<ActionV>, i: int)
    ensures
        decodable(actions).contains(i) <==> 0 <= i < actions.len() && action_fault(actions[i])
            is None,
    decreases actions.len(),
{
    if actions.len() > 0 {
        let front = actions.drop_last();
        every_decodable_action_is_tried(front, i);
        lemma_contains_push(decodable(front), actions.len() - 1, i);
        if 0 <= i < front.len() {
            assert(front[i] == actions[i]);
        }
    }
}

/// Trimming a memo takes zeros off its end and nothing else, and leaves no zero there.
pub proof fn trimming_takes_zeros_only(memo: Seq<u8>)
    ensures
        ({
            let s = without_trailing_zeros(memo);
            &&& s.len() <= memo.len()
            &&& s == memo.take(s.len() as int)
            &&& forall|i: int| s.len() <= i < memo.len() ==> #[trigger] memo[i] == 0
            &&& s.len() > 0 ==> s.last() != 0
        }),
    decreases memo.len(),
{
    if memo.len() > 0 && memo.last() == 0 {
        let front = memo.drop_last();
        trimming_takes_zeros_only(front);
        let s = without_trailing_zeros(front);
        assert(front.take(s.len() as int) =~= memo.take(s.len() as int));
        assert forall|i: int| s.len() <= i < memo.len() implies #[trigger] memo[i] == 0 by {
            if i < front.len() {
                assert(front[i] == memo[i]);
            }
        }
    } else {
        assert(memo.take(memo.len() as int) =~= memo);
    }
}

/// A text that does not end in a zero reads back from a memo that is filled up with zeros,
/// unless it is the one byte that marks an absent memo, which reads as empty.
pub proof fn memos_read_back(text: Seq<u8>, zeros: Seq<u8>)
    requires
        text.len() > 0 ==> text.last() != 0,
        forall|i: int| 0 <= i < zeros.len() ==> #[trigger] zeros[i] == 0,
    ensures
        text != seq![0xf6u8] ==> trimmed_memo(text + zeros) == text,
        text == seq![0xf6u8] ==> trimmed_memo(text + zeros) == Seq::<u8>::empty(),
{
    let memo = text + zeros;
    let s = without_trailing_zeros(memo);
    trimming_takes_zeros_only(memo);
    if s.len() > text.len() {
        assert(s.last() == memo[s.len() - 1]);
        assert(zeros[s.len() - 1 - text.len()] == 0);
    } else if s.len() < text.len() {
        assert(memo[text.len() - 1] == text.last());
    }
    assert(s =~= text);
}

/// A plan spends and pays out the sums of its notes' and its outputs' values, and what it does
/// not pay out leaves the pool.
pub proof fn plans_balance(plan: PlanV)
    ensures
        spent_total(plan.spends) == total(
            Seq::new(plan.spends.len(), |i: int| plan.spends[i].note.value as nat),
        ),
        paid_total(plan.outputs) == total(
            Seq::new(plan.outputs.len(), |i: int| plan.outputs[i].value as nat),
        ),
        plan.balance() == total(
            Seq::new(plan.spends.len(), |i: int| plan.spends[i].note.value as nat),
        ) - total(Seq::new(plan.outputs.len(), |i: int| plan.outputs[i].value as nat)),
{
    lemma_spent_total(plan.spends);
    lemma_paid_total(plan.outputs);
}

proof fn lemma_spent_total(spends: Seq<SpendV>)
    ensures
        spent_total(spends) == total(
            Seq::new(spends.len(), |i: int| spends[i].note.value as nat),
        ),
    decreases spends.len(),
{
    if spends.len() > 0 {
        let front = spends.drop_last();
        lemma_spent_total(front);
        assert(Seq::new(spends.len(), |i: int| spends[i].note.value as nat).drop_last()
            =~= Seq::new(front.len(), |i: int| front[i].note.value as nat));
    }
}

proof fn lemma_paid_total(outputs: Seq<OutputV>)
    ensures
        paid_total(outputs) == total(
            Seq::new(outputs.len(), |i: int| outputs[i].value as nat),
        ),
    decreases outputs.len(),
{
    if outputs.len() > 0 {
        let front = outputs.drop_last();
        lemma_paid_total(front);
        assert(Seq::new(outputs.len(), |i: int| outputs[i].value as nat).drop_last()
            =~= Seq::new(front.len(), |i: int| front[i].value as nat));
    }
}

/// What each output pays an address.
pub open spec fn paid_at(outputs: Seq<OutputV>, address: Seq<u8>) -> Seq<nat> {
    Seq::new(
        outputs.len(),
        |i: int|
            if outputs[i].recipient == address {
                outputs[i].value as nat
            } else {
                0
            },
    )
}

proof fn lemma_two(x: nat, y: nat)
    ensures
        total(seq![x]) == x,
        total(seq![x, y]) == x + y,
{
    totals_add_up(seq![x], Seq::empty(), y);
    totals_add_up(Seq::empty(), Seq::empty(), x);
    assert(seq![x, y] =~= seq![x].push(y));
}

/// A payment with change spends its one note, pays the recipient the amount, and gives the
/// change address all the rest but the fee.
pub proof fn payments_reach_their_recipient(
    fvk: Seq<u8>,
    note: NoteV,
    path: PathV,
    recipient: Seq<u8>,
    amount: u64,
    change_addr: Seq<u8>,
    fee: u64,
)
    requires
        amount + fee <= note.value,
    ensures
        ({
            let plan = payment_plan(fvk, note, path, recipient, amount, change_addr, fee);
            &&& plan.spends.len() == 1
            &&& plan.spends[0] == (SpendV { fvk, note, path })
            &&& plan.anchor == plan.spends[0].root()
            &&& recipient != change_addr ==> total(paid_at(plan.outputs, recipient)) == amount
            &&& recipient != change_addr ==> total(paid_at(plan.outputs, change_addr)) + amount + fee
                == note.value
            &&& forall|a: Seq<u8>|
                a != recipient && a != change_addr ==> #[trigger] total(paid_at(plan.outputs, a)) == 0
        }),
{
    let plan = payment_plan(fvk, note, path, recipient, amount, change_addr, fee);
    let rest = (note.value - amount - fee) as nat;
    if recipient != change_addr {
        assert(paid_at(plan.outputs, recipient) =~= seq![amount as nat, 0]);
        assert(paid_at(plan.outputs, change_addr) =~= seq![0, rest]);
        lemma_two(amount as nat, 0);
        lemma_two(0, rest);
    }
    assert forall|a: Seq<u8>| a != recipient && a != change_addr implies #[trigger] total(
        paid_at(plan.outputs, a),
    ) == 0 by {
        assert(paid_at(plan.outputs, a) =~= seq![0, 0]);
        lemma_two(0, 0);
    }
}

/// A wallet's payment spends exactly its inputs, at one anchor; it pays the recipient the
/// amount, with the memo, gives the wallet all the rest but the fee, and nobody else anything.
/// The wallet can read it back exactly where that was asked for.
pub proof fn wallet_payments_reach_their_recipient(
    fvk: Seq<u8>,
    inputs: Seq<(Note, MerklePath)>,
    recipient: Seq<u8>,
    amount: u64,
    fee: u64,
    recoverable: bool,
    memo: Seq<u8>,
    always_change: bool,
)
    requires
        inputs.len() > 0,
        amount + fee <= inputs_total(inputs) <= u64::MAX,
    ensures
        inputs_total(inputs) == total(
            Seq::new(inputs.len(), |i: int| inputs[i].0@.value as nat),
        ),
        ({
            let plan = wallet_plan(
                fvk,
                inputs,
                recipient,
                amount,
                fee,
                recoverable,
                memo,
                always_change,
            );
            let mine = address_of_fvk(fvk);
            &&& plan.spends.len() == inputs.len()
            &&& forall|i: int|
                0 <= i < inputs.len() ==> #[trigger] plan.spends[i] == (SpendV {
                    fvk,
                    note: inputs[i].0@,
                    path: inputs[i].1@,
                })
            &&& plan.anchor == plan.spends[0].root()
            &&& plan.outputs[0].recipient == recipient
            &&& plan.outputs[0].value == amount
            &&& plan.outputs[0].memo == memo
            &&& recipient != mine ==> total(paid_at(plan.outputs, recipient)) == amount
            &&& recipient != mine ==> total(paid_at(plan.outputs, mine)) + amount + fee
                == inputs_total(inputs)
            &&& forall|a: Seq<u8>|
                a != recipient && a != mine ==> #[trigger] total(paid_at(plan.outputs, a)) == 0
            &&& forall|i: int|
                0 <= i < plan.outputs.len() ==> (#[trigger] plan.outputs[i]).sender == (
                if recoverable {
                    Some(fvk)
                } else {
                    None
                })
            &&& always_change ==> plan.outputs.len() == 2
            &&& plan.outputs.len() == 1 ==> amount + fee == inputs_total(inputs)
        }),
{
    let plan = wallet_plan(fvk, inputs, recipient, amount, fee, recoverable, memo, always_change);
    let mine = address_of_fvk(fvk);
    let rest = (inputs_total(inputs) - amount - fee) as nat;
    lemma_inputs_sum(inputs);
    lemma_two(amount as nat, 0);
    lemma_two(0, rest);
    lemma_two(0, 0);
    if recipient != mine {
        if plan.outputs.len() == 2 {
            assert(paid_at(plan.outputs, recipient) =~= seq![amount as nat, 0]);
            assert(paid_at(plan.outputs, mine) =~= seq![0, rest]);
        } else {
            assert(paid_at(plan.outputs, recipient) =~= seq![amount as nat]);
            assert(paid_at(plan.outputs, mine) =~= seq![0nat]);
        }
    }
    assert forall|a: Seq<u8>| a != recipient && a != mine implies #[trigger] total(
        paid_at(plan.outputs, a),
    ) == 0 by {
        if plan.outputs.len() == 2 {
            assert(paid_at(plan.outputs, a) =~= seq![0, 0]);
        } else {
            assert(paid_at(plan.outputs, a) =~= seq![0nat]);
        }
    }
}

proof fn lemma_inputs_sum(inputs: Seq<(Note, MerklePath)>)
    ensures
        inputs_total(inputs) == total(
            Seq::new(inputs.len(), |i: int| inputs[i].0@.value as nat),
        ),
    decreases inputs.len(),
{
    if inputs.len() > 0 {
        let front = inputs.drop_last();
        lemma_inputs_sum(front);
        assert(Seq::new(inputs.len(), |i: int| inputs[i].0@.value as nat).drop_last() =~= Seq::new(
            front.len(),
            |i: int| front[i].0@.value as nat,
        ));
    }
}

/// What a disclosure tells of is the sum of what it tells of each action.
pub proof fn disclosures_add_up(d: Seq<ActionDisclosure>)
    ensures
        told_spent(d) == total(Seq::new(d.len(), |i: int| d[i].spend_value as nat)),
        told_paid(d) == total(Seq::new(d.len(), |i: int| d[i].out_value as nat)),
    decreases d.len(),
{
    if d.len() > 0 {
        let front = d.drop_last();
        disclosures_add_up(front);
        assert(Seq::new(d.len(), |i: int| d[i].spend_value as nat).drop_last() =~= Seq::new(
            front.len(),
            |i: int| front[i].spend_value as nat,
        ));
        assert(Seq::new(d.len(), |i: int| d[i].out_value as nat).drop_last() =~= Seq::new(
            front.len(),
            |i: int| front[i].out_value as nat,
        ));
    }
}

/// A device is asked for exactly the actions that are no padding and have a randomizer, each
/// with its own.
pub proof fn requests_are_for_the_spends(actions: Seq<PendingActionV>, r: (int, Seq<u8>))
    ensures
        requests(actions).contains(r) <==> {
            &&& 0 <= r.0 < actions.len()
            &&& !actions[r.0].padding
            &&& actions[r.0].alpha == Some(r.1)
        },
    decreases actions.len(),
{
    if actions.len() > 0 {
        let front = actions.drop_last();
        let last = actions.len() - 1;
        requests_are_for_the_spends(front, r);
        if !actions.last().padding && actions.last().alpha is Some {
            lemma_contains_push(requests(front), (last, actions.last().alpha->Some_0), r);
        }
        if 0 <= r.0 < last {
            assert(front[r.0] == actions[r.0]);
        }
    }
}

/// Every output of a coinbase has a seed of its own: outputs of different transactions, and
/// different outputs of one, have different seeds.
pub proof fn coinbase_seeds_are_apart(a: Seq<u8>, i: nat, b: Seq<u8>, j: nat)
    requires
        a.len() == 32,
        b.len() == 32,
        i < 0x1_0000_0000,
        j < 0x1_0000_0000,
        coinbase_seed(a, i) == coinbase_seed(b, j),
    ensures
        a == b,
        i == j,
{
    lemma_concat_injective(a, le_bytes(i, 4), b, le_bytes(j, 4));
    lemma_pow256();
    lemma_le_value_of_bytes(i, 4);
    lemma_le_value_of_bytes(j, 4);
}

/// What trial decryption found is gathered in full: each note that it found has an entry with
/// the index of its action and its memo, and there is no other entry.
pub proof fn found_notes_are_gathered(
    indices: Seq<int>,
    results: Seq<Option<(NoteV, Seq<u8>)>>,
    r: ReceivedV,
)
    ensures
        collected(indices, results).contains(r) <==> exists|k: int|
            0 <= k < results.len() && indices[k] == r.action_index && (
            #[trigger] results[k] matches Some((note, memo)) && note == r.note && trimmed_memo(memo)
                == r.memo),
    decreases results.len(),
{
    if results.len() > 0 {
        let front = results.drop_last();
        let last = results.len() - 1;
        found_notes_are_gathered(indices, front, r);
        match results.last() {
            Some((note, memo)) => {
                let e = ReceivedV {
                    action_index: indices[last],
                    note,
                    memo: trimmed_memo(memo),
                };
                lemma_contains_push(collected(indices, front), e, r);
            },
            None => {},
        }
        assert(results[last] == results.last());
        assert forall|k: int| 0 <= k < last implies front[k] == #[trigger] results[k] by {}
        if collected(indices, front).contains(r) {
            let k = choose|k: int|
                0 <= k < front.len() && indices[k] == r.action_index && (
                #[trigger] front[k] matches Some((note, memo)) && note == r.note && trimmed_memo(
                    memo,
                ) == r.memo);
            assert(results[k] == front[k]);
        }
        if exists|k: int|
            0 <= k < results.len() && indices[k] == r.action_index && (
            #[trigger] results[k] matches Some((note, memo)) && note == r.note && trimmed_memo(memo)
                == r.memo) {
            let k = choose|k: int|
                0 <= k < results.len() && indices[k] == r.action_index && (
                #[trigger] results[k] matches Some((note, memo)) && note == r.note && trimmed_memo(
                    memo,
                ) == r.memo);
            if k < last {
                assert(front[k] == results[k]);
            }
        }
    }
}

} // verus!
