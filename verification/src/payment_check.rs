//! Device-side payment verification: the guard against a prover that lies.
//!
//! A daemon builds and proves a payment from a wallet's viewing key and asks the device
//! to sign it. The device checks, from the daemon's disclosure and the unsigned bundle,
//! that the payment is the one the user asked for, before it signs anything.

use crate::bundle::{action_views, ActionV, ActionWire, BundleV, ShieldedBundle};
use crate::bytes::same;
use crate::field::canonical_scalar;
use crate::keys::{address_of_fvk, FullViewingKey};
use crate::note::{note_valid, Note, NoteV};
use crate::state::lemma_count_bound;
use crate::sums::total;
use crate::text::{decimal_text, push_decimal};
use crate::value::{value_commit, ValueCommitTrapdoor, ValueCommitment};
use vstd::prelude::*;
use vstd::string::*;

verus! {

/// What the prover discloses about one action, so that the device can recompute the
/// action's note commitment and value commitment.
#[derive(Clone, Copy, Debug)]
pub struct ActionDisclosure {
    /// Value of the note this action spends (0 for padding).
    pub spend_value: u64,
    /// Value of the note this action creates.
    pub out_value: u64,
    /// Raw address the created note pays.
    pub out_recipient: [u8; 43],
    /// The created note's random seed.
    pub out_rseed: [u8; 32],
    /// Value-commitment trapdoor.
    pub rcv: [u8; 32],
}

impl ActionDisclosure {
    /// The note that the action creates according to the disclosure: its `rho` is the
    /// nullifier that the action itself reveals.
    pub open spec fn note(self, a: ActionV) -> NoteV {
        NoteV {
            recipient: self.out_recipient@,
            value: self.out_value,
            rho: a.nullifier,
            rseed: self.out_rseed@,
        }
    }
}

/// Why a device refused to sign a prepared payment.
#[derive(Debug, PartialEq, Eq)]
pub enum PaymentCheckError {
    /// The disclosure does not cover every action in the bundle.
    ActionCountMismatch,
    /// An action's note commitment does not match the disclosure.
    CommitmentMismatch(usize),
    /// An action's value commitment does not match the disclosed values.
    ValueCommitmentMismatch(usize),
    /// Spends minus outputs does not equal the bundle's public value balance.
    ValueImbalance,
    /// The public value balance is not the fee the user agreed to.
    FeeMismatch { got: i64, want: u64 },
    /// No action pays the intended recipient the intended amount.
    RecipientNotPaid,
    /// The bundle pays someone it should not: neither the recipient (once) nor this
    /// wallet.
    UnexpectedRecipient(usize),
    /// A disclosed field is not valid.
    Malformed(usize),
}

/// The decimal notation of a signed number.
pub open spec fn signed_text(v: i64) -> Seq<char> {
    if v < 0 {
        "-"@ + decimal_text((-v) as nat)
    } else {
        decimal_text(v as nat)
    }
}

impl PaymentCheckError {
    /// The text of [`message`](Self::message).
    pub open spec fn text(self) -> Seq<char> {
        match self {
            PaymentCheckError::ActionCountMismatch =>
                "prover disclosed the wrong number of actions"@,
            PaymentCheckError::CommitmentMismatch(i) => "action "@ + decimal_text(i as nat)
                + ": the note it creates is not the one disclosed"@,
            PaymentCheckError::ValueCommitmentMismatch(i) => "action "@ + decimal_text(i as nat)
                + ": value commitment does not match the disclosed amounts"@,
            PaymentCheckError::ValueImbalance =>
                "spends minus outputs does not equal the bundle's value balance"@,
            PaymentCheckError::FeeMismatch { got, want } => "bundle pays a fee of "@ + signed_text(
                got,
            ) + ", not the "@ + decimal_text(want as nat) + " agreed"@,
            PaymentCheckError::RecipientNotPaid =>
                "no output pays the intended recipient the intended amount"@,
            PaymentCheckError::UnexpectedRecipient(i) => "action "@ + decimal_text(i as nat)
                + " pays an address that is neither the recipient nor this wallet"@,
            PaymentCheckError::Malformed(i) => "action "@ + decimal_text(i as nat)
                + ": disclosed note fields are not valid"@,
        }
    }

    /// The message for people.
    pub fn message(&self) -> (s: String)
        ensures
            s@ == self.text(),
    {
        match *self {
            PaymentCheckError::ActionCountMismatch =>
                String::from_str("prover disclosed the wrong number of actions"),
            PaymentCheckError::CommitmentMismatch(i) =>
                about_action(i, ": the note it creates is not the one disclosed"),
            PaymentCheckError::ValueCommitmentMismatch(i) =>
                about_action(i, ": value commitment does not match the disclosed amounts"),
            PaymentCheckError::ValueImbalance =>
                String::from_str("spends minus outputs does not equal the bundle's value balance"),
            PaymentCheckError::FeeMismatch { got, want } => {
                let mut s: String = String::from_str("bundle pays a fee of ");
                if got < 0 {
                    s.append("-");
                    push_decimal(&mut s, (-(got as i128)) as u128);
                } else {
                    push_decimal(&mut s, got as u128);
                }
                assert(s@ =~= "bundle pays a fee of "@ + signed_text(got));
                s.append(", not the ");
                push_decimal(&mut s, want as u128);
                s.append(" agreed");
                s
            },
            PaymentCheckError::RecipientNotPaid =>
                String::from_str("no output pays the intended recipient the intended amount"),
            PaymentCheckError::UnexpectedRecipient(i) =>
                about_action(i, " pays an address that is neither the recipient nor this wallet"),
            PaymentCheckError::Malformed(i) =>
                about_action(i, ": disclosed note fields are not valid"),
        }
    }
}

fn about_action(i: usize, rest: &str) -> (s: String)
    ensures
        s@ == "action "@ + decimal_text(i as nat) + rest@,
{
    let mut s: String = String::from_str("action ");
    push_decimal(&mut s, i as u128);
    s.append(rest);
    s
}

/// What checking the actions in order adds up.
pub struct TallyV {
    pub spent: nat,
    pub out: nat,
    pub paid: bool,
}

/// Checks one action against its disclosure, behind a tally of the earlier ones.
pub open spec fn tally_step(
    t: TallyV,
    i: usize,
    a: ActionV,
    d: ActionDisclosure,
    mine: Seq<u8>,
    to: Seq<u8>,
    amount: u64,
) -> Result<TallyV, PaymentCheckError> {
    if !note_valid(d.note(a)) {
        Err(PaymentCheckError::Malformed(i))
    } else if d.note(a).commitment() != a.cmx {
        Err(PaymentCheckError::CommitmentMismatch(i))
    } else if !canonical_scalar(d.rcv@) {
        Err(PaymentCheckError::Malformed(i))
    } else if value_commit(d.spend_value - d.out_value, d.rcv@) != a.cv_net {
        Err(PaymentCheckError::ValueCommitmentMismatch(i))
    } else {
        let pays = d.out_recipient@ == to && d.out_value == amount && !t.paid;
        if !pays && d.out_recipient@ != mine && d.out_value != 0 {
            Err(PaymentCheckError::UnexpectedRecipient(i))
        } else {
            Ok(
                TallyV {
                    spent: t.spent + d.spend_value as nat,
                    out: t.out + d.out_value as nat,
                    paid: t.paid || pays,
                },
            )
        }
    }
}

/// Checks the actions in order.
pub open spec fn tally(
    actions: Seq<ActionV>,
    disclosure: Seq<ActionDisclosure>,
    mine: Seq<u8>,
    to: Seq<u8>,
    amount: u64,
) -> Result<TallyV, PaymentCheckError>
    decreases actions.len(),
{
    if actions.len() == 0 {
        Ok(TallyV { spent: 0, out: 0, paid: false })
    } else {
        match tally(actions.drop_last(), disclosure, mine, to, amount) {
            Err(e) => Err(e),
            Ok(t) => tally_step(
                t,
                (actions.len() - 1) as usize,
                actions.last(),
                disclosure[actions.len() - 1],
                mine,
                to,
                amount,
            ),
        }
    }
}

/// The verdict from the totals: the declared values make up the public balance, the
/// balance is the agreed fee, and the recipient is paid.
pub open spec fn totals_verdict(t: TallyV, value_balance: i64, fee: u64) -> Result<
    (),
    PaymentCheckError,
> {
    if t.spent - t.out != value_balance {
        Err(PaymentCheckError::ValueImbalance)
    } else if value_balance != fee {
        Err(PaymentCheckError::FeeMismatch { got: value_balance, want: fee })
    } else if !t.paid {
        Err(PaymentCheckError::RecipientNotPaid)
    } else {
        Ok(())
    }
}

/// The verdict on a prepared payment.
pub open spec fn payment_verdict(
    wire: BundleV,
    disclosure: Seq<ActionDisclosure>,
    fvk: Seq<u8>,
    to: Seq<u8>,
    amount: u64,
    fee: u64,
) -> Result<(), PaymentCheckError> {
    if disclosure.len() != wire.actions.len() {
        Err(PaymentCheckError::ActionCountMismatch)
    } else {
        match tally(wire.actions, disclosure, address_of_fvk(fvk), to, amount) {
            Err(e) => Err(e),
            Ok(t) => totals_verdict(t, wire.value_balance, fee),
        }
    }
}

/// Checks one action from what its disclosure recomputes to: the note commitment and the
/// value commitment, each missing where the disclosed fields are not valid.
pub fn check_commitments(
    i: usize,
    note_commitment: Option<[u8; 32]>,
    value_commitment: Option<[u8; 32]>,
    cmx: &[u8; 32],
    cv_net: &[u8; 32],
) -> (r: Result<(), PaymentCheckError>)
    ensures
        r == (match note_commitment {
            None => Err::<(), PaymentCheckError>(PaymentCheckError::Malformed(i)),
            Some(c) => if c@ != cmx@ {
                Err(PaymentCheckError::CommitmentMismatch(i))
            } else {
                match value_commitment {
                    None => Err(PaymentCheckError::Malformed(i)),
                    Some(v) => if v@ != cv_net@ {
                        Err(PaymentCheckError::ValueCommitmentMismatch(i))
                    } else {
                        Ok(())
                    },
                }
            },
        }),
{
    match note_commitment {
        None => Err(PaymentCheckError::Malformed(i)),
        Some(c) => if !same(&c, cmx) {
            Err(PaymentCheckError::CommitmentMismatch(i))
        } else {
            match value_commitment {
                None => Err(PaymentCheckError::Malformed(i)),
                Some(v) => if !same(&v, cv_net) {
                    Err(PaymentCheckError::ValueCommitmentMismatch(i))
                } else {
                    Ok(())
                },
            }
        },
    }
}

/// The verdict from the totals.
pub fn check_totals(spent: u128, out: u128, paid: bool, value_balance: i64, fee: u64) -> (r: Result<
    (),
    PaymentCheckError,
>)
    ensures
        r == totals_verdict(
            TallyV { spent: spent as nat, out: out as nat, paid },
            value_balance,
            fee,
        ),
{
    let balanced: bool = if value_balance >= 0 {
        spent >= out && spent - out == value_balance as u128
    } else {
        out >= spent && out - spent == (-(value_balance as i128)) as u128
    };
    if !balanced {
        return Err(PaymentCheckError::ValueImbalance);
    }
    if value_balance as i128 != fee as i128 {
        return Err(PaymentCheckError::FeeMismatch { got: value_balance, want: fee });
    }
    if !paid {
        return Err(PaymentCheckError::RecipientNotPaid);
    }
    Ok(())
}

proof fn lemma_tally_fails(
    actions: Seq<ActionV>,
    disclosure: Seq<ActionDisclosure>,
    mine: Seq<u8>,
    to: Seq<u8>,
    amount: u64,
    k: int,
)
    requires
        0 <= k <= actions.len(),
        tally(actions.take(k), disclosure, mine, to, amount) is Err,
    ensures
        tally(actions, disclosure, mine, to, amount) == tally(
            actions.take(k),
            disclosure,
            mine,
            to,
            amount,
        ),
    decreases actions.len(),
{
    if k == actions.len() {
        assert(actions.take(k) =~= actions);
    } else {
        assert(actions.drop_last().take(k) =~= actions.take(k));
        lemma_tally_fails(actions.drop_last(), disclosure, mine, to, amount, k);
    }
}

/// Verifies that `wire`, the unsigned bundle that a daemon prepared, is the payment the
/// user asked for: every note it creates is the disclosed one, pays the recipient exactly
/// `amount` exactly once, or this wallet, or nothing; the values balance; and the public
/// balance is the agreed fee. Only then may the sighash, recomputed from `wire`, be
/// signed.
pub fn check_prepared_payment(
    wire: &ShieldedBundle,
    disclosure: &[ActionDisclosure],
    fvk: &FullViewingKey,
    to: &[u8; 43],
    amount: u64,
    fee: u64,
) -> (r: Result<(), PaymentCheckError>)
    ensures
        r == payment_verdict(wire@, disclosure@, fvk@, to@, amount, fee),
{
    if disclosure.len() != wire.actions.len() {
        return Err(PaymentCheckError::ActionCountMismatch);
    }
    let mine: [u8; 43] = fvk.address();
    let ghost all = wire@.actions;
    let mut spent: u128 = 0;
    let mut out: u128 = 0;
    let mut paid: bool = false;
    let mut i: usize = 0;
    assert(all.take(0) =~= Seq::<ActionV>::empty());
    while i < wire.actions.len()
        invariant
            0 <= i <= wire.actions@.len(),
            disclosure@.len() == wire.actions@.len(),
            all == action_views(wire.actions@),
            mine@ == address_of_fvk(fvk@),
            spent <= i * 0xffff_ffff_ffff_ffff,
            out <= i * 0xffff_ffff_ffff_ffff,
            tally(all.take(i as int), disclosure@, mine@, to@, amount) == Ok::<
                TallyV,
                PaymentCheckError,
            >(TallyV { spent: spent as nat, out: out as nat, paid }),
        decreases wire.actions@.len() - i,
    {
        let act: &ActionWire = &wire.actions[i];
        let d: ActionDisclosure = disclosure[i];
        proof {
            assert(all.take(i + 1).drop_last() =~= all.take(i as int));
            assert(all.take(i + 1).last() == act@);
            lemma_count_bound(i, 0xffff_ffff_ffff_ffff);
            if tally(all.take(i + 1), disclosure@, mine@, to@, amount) is Err {
                lemma_tally_fails(all, disclosure@, mine@, to@, amount, i + 1);
            }
            assert((i + 1) * 0xffff_ffff_ffff_ffff == i * 0xffff_ffff_ffff_ffff
                + 0xffff_ffff_ffff_ffff) by (nonlinear_arith);
        }
        let note_commitment: Option<[u8; 32]> = match Note::from_parts(
            &d.out_recipient,
            d.out_value,
            &act.nullifier,
            &d.out_rseed,
        ) {
            Ok(note) => Some(note.commitment().to_bytes()),
            Err(_) => None,
        };
        let value_commitment: Option<[u8; 32]> = match ValueCommitTrapdoor::from_bytes(d.rcv) {
            Some(rcv) => Some(ValueCommitment::derive(d.spend_value, d.out_value, &rcv).to_bytes()),
            None => None,
        };
        match check_commitments(i, note_commitment, value_commitment, &act.cmx, &act.cv_net) {
            Ok(()) => {},
            Err(e) => {
                return Err(e);
            },
        }
        if same(&d.out_recipient, to) && d.out_value == amount && !paid {
            paid = true;
        } else if !same(&d.out_recipient, &mine) && d.out_value != 0 {
            return Err(PaymentCheckError::UnexpectedRecipient(i));
        }
        spent = spent + d.spend_value as u128;
        out = out + d.out_value as u128;
        i = i + 1;
    }
    assert(all.take(i as int) =~= all);
    check_totals(spent, out, paid, wire.value_balance, fee)
}

/// How much the created notes pay an address, in all.
pub open spec fn paid_to(disclosure: Seq<ActionDisclosure>, address: Seq<u8>) -> nat
    decreases disclosure.len(),
{
    if disclosure.len() == 0 {
        0
    } else {
        paid_to(disclosure.drop_last(), address) + if disclosure.last().out_recipient@ == address {
            disclosure.last().out_value as nat
        } else {
            0
        }
    }
}

proof fn lemma_tally_pays(
    actions: Seq<ActionV>,
    disclosure: Seq<ActionDisclosure>,
    mine: Seq<u8>,
    to: Seq<u8>,
    amount: u64,
    t: TallyV,
)
    requires
        to != mine,
        actions.len() == disclosure.len(),
        tally(actions, disclosure, mine, to, amount) == Ok::<TallyV, PaymentCheckError>(t),
    ensures
        paid_to(disclosure, to) == (if t.paid {
            amount as nat
        } else {
            0
        }),
        paid_to(disclosure, to) + paid_to(disclosure, mine) == t.out,
    decreases actions.len(),
{
    if actions.len() > 0 {
        let n = actions.len() - 1;
        lemma_tally_frame(actions.drop_last(), disclosure, disclosure.drop_last(), mine, to, amount);
        let u = tally(actions.drop_last(), disclosure, mine, to, amount)->Ok_0;
        lemma_tally_pays(actions.drop_last(), disclosure.drop_last(), mine, to, amount, u);
        assert(disclosure[n] == disclosure.last());
    }
}

proof fn lemma_tally_frame(
    actions: Seq<ActionV>,
    d1: Seq<ActionDisclosure>,
    d2: Seq<ActionDisclosure>,
    mine: Seq<u8>,
    to: Seq<u8>,
    amount: u64,
)
    requires
        actions.len() <= d1.len(),
        actions.len() <= d2.len(),
        forall|i: int| 0 <= i < actions.len() ==> d1[i] == d2[i],
    ensures
        tally(actions, d1, mine, to, amount) == tally(actions, d2, mine, to, amount),
    decreases actions.len(),
{
    if actions.len() > 0 {
        lemma_tally_frame(actions.drop_last(), d1, d2, mine, to, amount);
    }
}

/// A payment that passes the check pays what was agreed and nothing else: the recipient
/// receives exactly the amount, this wallet keeps the rest, and what leaves the pool is
/// exactly the fee.
pub proof fn checked_payments_pay_only_what_was_agreed(
    wire: BundleV,
    disclosure: Seq<ActionDisclosure>,
    fvk: Seq<u8>,
    to: Seq<u8>,
    amount: u64,
    fee: u64,
)
    requires
        to != address_of_fvk(fvk),
        payment_verdict(wire, disclosure, fvk, to, amount, fee) is Ok,
    ensures
        ({
            let t = tally(wire.actions, disclosure, address_of_fvk(fvk), to, amount)->Ok_0;
            &&& paid_to(disclosure, to) == amount
            &&& t.spent == amount + paid_to(disclosure, address_of_fvk(fvk)) + fee
        }),
        wire.value_balance == fee,
{
    let mine = address_of_fvk(fvk);
    let t = tally(wire.actions, disclosure, mine, to, amount)->Ok_0;
    lemma_tally_pays(wire.actions, disclosure, mine, to, amount, t);
}

/// Action `i` is what is disclosed of it: a valid note of which its commitment is the
/// commitment, and a value commitment to the declared amounts.
pub open spec fn truly_disclosed(a: ActionV, d: ActionDisclosure) -> bool {
    &&& note_valid(d.note(a))
    &&& d.note(a).commitment() == a.cmx
    &&& canonical_scalar(d.rcv@)
    &&& a.cv_net == value_commit(d.spend_value - d.out_value, d.rcv@)
}

/// The created note is the agreed payment.
pub open spec fn agreed(d: ActionDisclosure, to: Seq<u8>, amount: u64) -> bool {
    d.out_recipient@ == to && d.out_value == amount
}

/// Some of the first `n` created notes is the agreed payment.
pub open spec fn agreed_before(
    disclosure: Seq<ActionDisclosure>,
    to: Seq<u8>,
    amount: u64,
    n: int,
) -> bool {
    exists|i: int| 0 <= i < n && agreed(#[trigger] disclosure[i], to, amount)
}

/// Created note `i` is in order: it is the agreed payment and the first such, it goes back to
/// the wallet, or it holds nothing.
pub open spec fn in_order(
    disclosure: Seq<ActionDisclosure>,
    mine: Seq<u8>,
    to: Seq<u8>,
    amount: u64,
    i: int,
) -> bool {
    let d = disclosure[i];
    ||| agreed(d, to, amount) && !agreed_before(disclosure, to, amount, i)
    ||| d.out_recipient@ == mine
    ||| d.out_value == 0
}

/// The values that the first `n` actions spend.
pub open spec fn spend_values(disclosure: Seq<ActionDisclosure>, n: int) -> Seq<nat> {
    Seq::new(n as nat, |i: int| disclosure[i].spend_value as nat)
}

/// The values that the first `n` actions create.
pub open spec fn out_values(disclosure: Seq<ActionDisclosure>, n: int) -> Seq<nat> {
    Seq::new(n as nat, |i: int| disclosure[i].out_value as nat)
}

/// Action `i` is what is disclosed of it, and the note that it creates is in order.
pub open spec fn passes(
    actions: Seq<ActionV>,
    disclosure: Seq<ActionDisclosure>,
    mine: Seq<u8>,
    to: Seq<u8>,
    amount: u64,
    i: int,
) -> bool {
    truly_disclosed(actions[i], disclosure[i]) && in_order(disclosure, mine, to, amount, i)
}

proof fn lemma_tally_holds(
    actions: Seq<ActionV>,
    disclosure: Seq<ActionDisclosure>,
    mine: Seq<u8>,
    to: Seq<u8>,
    amount: u64,
)
    requires
        actions.len() <= disclosure.len(),
    ensures
        tally(actions, disclosure, mine, to, amount) is Ok <==> forall|i: int|
            0 <= i < actions.len() ==> #[trigger] passes(actions, disclosure, mine, to, amount, i),
        tally(actions, disclosure, mine, to, amount) matches Ok(t) ==> {
            &&& t.spent == total(spend_values(disclosure, actions.len() as int))
            &&& t.out == total(out_values(disclosure, actions.len() as int))
            &&& t.paid == agreed_before(disclosure, to, amount, actions.len() as int)
        },
    decreases actions.len(),
{
    let n = actions.len() as int;
    let whole = tally(actions, disclosure, mine, to, amount);
    if n == 0 {
        assert(total(spend_values(disclosure, 0)) == 0);
        assert(total(out_values(disclosure, 0)) == 0);
    } else {
        let front = actions.drop_last();
        let last = n - 1;
        let before = tally(front, disclosure, mine, to, amount);
        lemma_tally_holds(front, disclosure, mine, to, amount);
        assert(spend_values(disclosure, n).drop_last() =~= spend_values(disclosure, last));
        assert(out_values(disclosure, n).drop_last() =~= out_values(disclosure, last));
        assert(agreed_before(disclosure, to, amount, n) <==> agreed_before(
            disclosure,
            to,
            amount,
            last,
        ) || agreed(disclosure[last], to, amount));
        assert forall|i: int| 0 <= i < last implies passes(front, disclosure, mine, to, amount, i)
            == #[trigger] passes(actions, disclosure, mine, to, amount, i) by {
            assert(front[i] == actions[i]);
        }
        if before is Ok {
            assert(whole is Ok <==> passes(actions, disclosure, mine, to, amount, last));
        } else {
            let i = choose|i: int|
                0 <= i < front.len() && !#[trigger] passes(front, disclosure, mine, to, amount, i);
            assert(!passes(actions, disclosure, mine, to, amount, i));
        }
        if whole is Ok {
            assert forall|i: int| 0 <= i < n implies #[trigger] passes(
                actions,
                disclosure,
                mine,
                to,
                amount,
                i,
            ) by {
                if i < last {
                    assert(passes(front, disclosure, mine, to, amount, i));
                }
            }
        }
    }
}

/// A payment passes the check exactly where every action is what is disclosed of it, one
/// created note is the agreed payment, every other goes back to the wallet or holds nothing,
/// and what is spent exceeds what is created by the agreed fee, which is the bundle's public
/// value balance.
pub proof fn payments_pass_exactly_as_agreed(
    wire: BundleV,
    disclosure: Seq<ActionDisclosure>,
    fvk: Seq<u8>,
    to: Seq<u8>,
    amount: u64,
    fee: u64,
)
    ensures
        payment_verdict(wire, disclosure, fvk, to, amount, fee) is Ok <==> {
            let n = wire.actions.len() as int;
            &&& disclosure.len() == n
            &&& forall|i: int|
                0 <= i < n ==> #[trigger] passes(
                    wire.actions,
                    disclosure,
                    address_of_fvk(fvk),
                    to,
                    amount,
                    i,
                )
            &&& exists|i: int| 0 <= i < n && agreed(#[trigger] disclosure[i], to, amount)
            &&& total(spend_values(disclosure, n)) == total(out_values(disclosure, n)) + fee
            &&& wire.value_balance == fee
        },
{
    if disclosure.len() == wire.actions.len() {
        lemma_tally_holds(wire.actions, disclosure, address_of_fvk(fvk), to, amount);
    }
}

/// What an address is paid is the sum of the values of the notes that are created for it.
pub proof fn payments_to_an_address_add_up(disclosure: Seq<ActionDisclosure>, address: Seq<u8>)
    ensures
        paid_to(disclosure, address) == total(
            Seq::new(
                disclosure.len(),
                |i: int|
                    if disclosure[i].out_recipient@ == address {
                        disclosure[i].out_value as nat
                    } else {
                        0
                    },
            ),
        ),
    decreases disclosure.len(),
{
    if disclosure.len() > 0 {
        let front = disclosure.drop_last();
        payments_to_an_address_add_up(front, address);
        assert(Seq::new(
            disclosure.len(),
            |i: int|
                if disclosure[i].out_recipient@ == address {
                    disclosure[i].out_value as nat
                } else {
                    0
                },
        ).drop_last() =~= Seq::new(
            front.len(),
            |i: int|
                if front[i].out_recipient@ == address {
                    front[i].out_value as nat
                } else {
                    0
                },
        ));
    }
}

} // verus!
