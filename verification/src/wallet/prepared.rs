//! Payments that are proven in one place and authorized in another.
//!
//! A server that holds only the viewing key prepares a payment: it builds the bundle, makes
//! the proof and signs the padding, but cannot authorize the spends. The device that holds
//! the spend key checks what it is asked to sign, signs one randomizer for each spend, and
//! the server puts the signatures in place.

use crate::bundle::{ActionV, BundleV, ShieldedBundle};
use crate::field::{canonical_base, canonical_scalar, Anchor};
use crate::keys::{address_of_fvk, orchard_address, FullViewingKey, OrchardAddress};
use crate::message::randomized_key;
use crate::note::Note;
use crate::payment_check::{payment_verdict, tally, ActionDisclosure, PaymentCheckError};
use crate::verify::{
    action_fault, bundle_verdict, network_context, network_sighash, same_effects,
    sighash_excludes_authorization, sighash_of, spend_auth_verifies, FaultV,
};
use crate::wallet::builder::{builder_plan, no_signature, proves, ActionProvingKey, BuildError};
use crate::wallet::payment::{
    assemble, authorized, change_of, first_anchor, inputs_total, lemma_authorized_verifies, lemma_inputs_total,
    output_views, paths_wf, sig_views, to_wire, total_value, transfer_plan, wallet_outputs,
    wallet_payments_leave_the_fee, wallet_plan, PaymentOutput, ShieldedKeys,
};
use crate::wallet::pending::{
    apply_spend_auth, build_pending, complete, disclosed, disclosed_paid, disclosed_spent,
    finish_pending, pending_actions, pending_effects, pending_output, pending_outputs_at,
    pending_spend, pending_spends_at, pending_view, pends, prove_pending, shown, sign_padding,
    sound, PendingActionV, PendingV,
};
use crate::wallet::plan::{
    bundle_carries, built, carries, delivers, distinct_below, outputs_at, paid_total, reveals,
    spends_at, spent_total, OutputV, PlanV, SpendV,
};
use crate::witness::MerklePath;
use orchard::builder::Builder;
use orchard::pczt;
use vstd::prelude::*;

verus! {

/// The spends that a device must authorize: position and randomizer of each action that is
/// no padding, in order.
pub open spec fn requests(actions: Seq<PendingActionV>) -> Seq<(int, Seq<u8>)>
    decreases actions.len(),
{
    if actions.len() == 0 {
        Seq::empty()
    } else {
        let before = requests(actions.drop_last());
        let last = actions.last();
        if !last.padding && last.alpha is Some {
            before.push((actions.len() - 1, last.alpha->Some_0))
        } else {
            before
        }
    }
}

/// What a list of requests holds.
pub open spec fn request_views(list: Seq<(usize, [u8; 32])>) -> Seq<(int, Seq<u8>)> {
    Seq::new(list.len(), |i: int| (list[i].0 as int, list[i].1@))
}

/// The actions differ at most in their signatures.
pub open spec fn alike(a: Seq<PendingActionV>, b: Seq<PendingActionV>) -> bool {
    &&& a.len() == b.len()
    &&& forall|i: int|
        0 <= i < a.len() ==> (#[trigger] a[i]) == (PendingActionV {
            signature: a[i].signature,
            ..b[i]
        })
}

/// The disclosure tells what is known of the actions.
pub open spec fn tells(d: Seq<ActionDisclosure>, actions: Seq<PendingActionV>) -> bool {
    &&& d.len() == actions.len()
    &&& forall|i: int| 0 <= i < d.len() ==> tells_one(#[trigger] d[i], actions[i])
}

/// The disclosure tells what is known of the action.
pub open spec fn tells_one(d: ActionDisclosure, p: PendingActionV) -> bool {
    &&& d.spend_value == match p.spend_value {
        Some(v) => v,
        None => 0,
    }
    &&& p.out_value == Some(d.out_value)
    &&& p.out_recipient == Some(d.out_recipient@)
    &&& p.out_rseed == Some(d.out_rseed@)
    &&& p.rcv == Some(d.rcv@)
}

/// A bundle that waits for signatures.
pub struct PendingBundle {
    inner: pczt::Bundle,
}

impl View for PendingBundle {
    type V = PendingV;

    closed spec fn view(&self) -> PendingV {
        pending_view(self.inner)
    }
}

impl PendingBundle {
    #[verifier::type_invariant]
    spec fn inv(&self) -> bool {
        well_built(pending_view(self.inner))
    }
}

/// A payment that waits for the device's signatures.
pub struct PreparedPayment {
    /// The bundle with its proof.
    pub bundle: PendingBundle,
    /// The sighash that the device signs.
    pub sighash: [u8; 32],
    /// What the bundle shows, without its proof and signatures. The device recomputes the
    /// sighash from it and never trusts one that it is handed.
    pub effects: ShieldedBundle,
    /// What each action does in plain, so that the device can check what it authorizes.
    pub disclosure: Vec<ActionDisclosure>,
    /// The public fee.
    pub value_balance: i64,
    /// Position and randomizer of each spend that the device must authorize.
    pub spend_auth_requests: Vec<(usize, [u8; 32])>,
}

impl PreparedPayment {
    /// The bundle that waits.
    pub open spec fn pending(&self) -> PendingV {
        self.bundle@
    }
}

/// What the actions spend, in all, as the disclosure tells it.
pub open spec fn told_spent(d: Seq<ActionDisclosure>) -> nat
    decreases d.len(),
{
    if d.len() == 0 {
        0
    } else {
        told_spent(d.drop_last()) + d.last().spend_value as nat
    }
}

/// What the actions pay out, in all, as the disclosure tells it.
pub open spec fn told_paid(d: Seq<ActionDisclosure>) -> nat
    decreases d.len(),
{
    if d.len() == 0 {
        0
    } else {
        told_paid(d.drop_last()) + d.last().out_value as nat
    }
}

/// The bundle that waits is well encoded.
pub open spec fn well_encoded(p: PendingV) -> bool {
    &&& canonical_base(p.anchor)
    &&& forall|i: int|
        0 <= i < p.actions.len() ==> action_fault((#[trigger] p.actions[i]).action) is None
}

/// The bundle that waits carries out the plan that it was built from.
pub open spec fn well_built(p: PendingV) -> bool {
    &&& well_encoded(p)
    &&& p.actions.len() > 0
    &&& carries(shown(p.actions), p.plan)
    &&& p.plan.spendable()
    &&& p.anchor == p.plan.anchor
    &&& sound(p)
}

/// The bundle that waits has a proof, which verifies.
pub open spec fn proven(p: PendingV) -> bool {
    p.proof_bytes is Some && proves(p.proof_bytes->Some_0, p.anchor, shown(p.actions))
}

/// The disclosure of one action, from what is known of it; a spend of unknown value counts
/// as padding.
pub fn disclose(
    spend_value: Option<u64>,
    out_value: Option<u64>,
    out_recipient: Option<[u8; 43]>,
    out_rseed: Option<[u8; 32]>,
    rcv: Option<[u8; 32]>,
) -> (r: Result<ActionDisclosure, BuildError>)
    ensures
        match r {
            Ok(d) => {
                &&& d.spend_value == match spend_value {
                    Some(v) => v,
                    None => 0,
                }
                &&& out_value == Some(d.out_value)
                &&& out_recipient matches Some(a) && d.out_recipient@ == a@
                &&& out_rseed matches Some(s) && d.out_rseed@ == s@
                &&& rcv matches Some(t) && d.rcv@ == t@
            },
            Err(e) => e is Empty && (out_value is None || out_recipient is None || out_rseed is None
                || rcv is None),
        },
{
    let spend_value: u64 = match spend_value {
        Some(v) => v,
        None => 0,
    };
    match (out_value, out_recipient, out_rseed, rcv) {
        (Some(out_value), Some(out_recipient), Some(out_rseed), Some(rcv)) => Ok(
            ActionDisclosure { spend_value, out_value, out_recipient, out_rseed, rcv },
        ),
        _ => Err(BuildError::Empty),
    }
}

/// What the pending bundle shows, on the wire.
fn wire_effects(pending: &pczt::Bundle) -> (r: Result<ShieldedBundle, BuildError>)
    requires
        well_encoded(pending_view(*pending)),
    ensures
        match r {
            Ok(b) => pending_actions(*pending).len() > 0 && i64::MIN <= pending_view(
                *pending,
            ).balance <= i64::MAX && b@ == pending_view(*pending).effects(),
            Err(BuildError::Empty) => pending_actions(*pending).len() == 0,
            Err(BuildError::Proof(_)) => pending_actions(*pending).len() > 0 && !(i64::MIN
                <= pending_view(*pending).balance <= i64::MAX),
            Err(BuildError::Builder(_)) => false,
        },
{
    match pending_effects(pending) {
        Err(e) => Err(e),
        Ok(None) => Err(BuildError::Empty),
        Ok(Some((actions, flags, value_balance, anchor))) => {
            let b: ShieldedBundle = ShieldedBundle {
                actions,
                flags,
                value_balance,
                anchor,
                proof: Vec::new(),
                binding_sig: [0u8; 64],
            };
            proof {
                assert(b@.proof =~= Seq::<u8>::empty());
                assert(b@.binding_sig =~= no_signature());
            }
            Ok(b)
        },
    }
}

/// The disclosure of each action.
fn disclose_all(pending: &pczt::Bundle, n: usize) -> (r: Result<Vec<ActionDisclosure>, BuildError>)
    requires
        n == pending_actions(*pending).len(),
        forall|i: int| 0 <= i < n ==> disclosed(#[trigger] pending_actions(*pending)[i]),
    ensures
        r matches Ok(d) && tells(d@, pending_actions(*pending)),
{
    let mut out: Vec<ActionDisclosure> = Vec::new();
    let mut i: usize = 0;
    while i < n
        invariant
            0 <= i <= n,
            n == pending_actions(*pending).len(),
            forall|j: int| 0 <= j < n ==> disclosed(#[trigger] pending_actions(*pending)[j]),
            out@.len() == i,
            forall|j: int|
                0 <= j < i ==> tells_one(#[trigger] out@[j], pending_actions(*pending)[j]),
        decreases n - i,
    {
        assert(disclosed(pending_actions(*pending)[i as int]));
        let (_, _, spend_value) = pending_spend(pending, i);
        let (out_value, out_recipient, out_rseed, rcv) = pending_output(pending, i);
        match disclose(spend_value, out_value, out_recipient, out_rseed, rcv) {
            Ok(d) => out.push(d),
            Err(e) => {
                return Err(e);
            },
        }
        i = i + 1;
    }
    Ok(out)
}

/// Signs the padding, and lists the spends that the device must authorize.
fn sign_paddings(pending: &mut pczt::Bundle, n: usize, message: &[u8; 32]) -> (r: Result<
    Vec<(usize, [u8; 32])>,
    BuildError,
>)
    requires
        n == pending_actions(*old(pending)).len(),
        sound(pending_view(*old(pending))),
    ensures
        r is Ok,
        alike(pending_actions(*final(pending)), pending_actions(*old(pending))),
        pending_view(*final(pending)) == (PendingV {
            actions: pending_actions(*final(pending)),
            ..pending_view(*old(pending))
        }),
        forall|i: int|
            0 <= i < n && !(#[trigger] pending_actions(*old(pending))[i]).padding
                ==> pending_actions(*final(pending))[i] == pending_actions(*old(pending))[i],
        r matches Ok(list) ==> request_views(list@) == requests(pending_actions(*old(pending))),
{
    let ghost start = pending_view(*pending);
    let mut list: Vec<(usize, [u8; 32])> = Vec::new();
    let mut i: usize = 0;
    proof {
        assert(start.actions.take(0) =~= Seq::<PendingActionV>::empty());
        assert(request_views(list@) =~= Seq::<(int, Seq<u8>)>::empty());
    }
    while i < n
        invariant
            0 <= i <= n,
            n == start.actions.len(),
            sound(start),
            start == pending_view(*old(pending)),
            alike(pending_actions(*pending), start.actions),
            pending_view(*pending) == (PendingV { actions: pending_actions(*pending), ..start }),
            forall|j: int|
                0 <= j < n && !(#[trigger] start.actions[j]).padding ==> pending_actions(
                    *pending,
                )[j] == start.actions[j],
            request_views(list@) == requests(start.actions.take(i as int)),
        decreases n - i,
    {
        let ghost now = pending_actions(*pending)[i as int];
        let ghost before = list@;
        proof {
            assert(now == (PendingActionV {
                signature: now.signature,
                ..start.actions[i as int]
            }));
            assert(start.actions.take(i + 1).drop_last() =~= start.actions.take(i as int));
            assert(start.actions.take(i + 1).last() == start.actions[i as int]);
        }
        let (padding, alpha, _) = pending_spend(pending, i);
        if padding {
            let ghost held = pending_view(*pending);
            let signed: Result<(), BuildError> = sign_padding(pending, i, message);
            proof {
                if signed is Err {
                    assert(pending_view(*pending).actions == held.actions);
                } else {
                    let sig = choose|sig: Seq<u8>|
                        pending_view(*pending) == held.with_signature(i as int, sig)
                            && #[trigger] spend_auth_verifies(now.action.rk, message@, sig);
                    assert(pending_view(*pending).actions == held.with_signature(
                        i as int,
                        sig,
                    ).actions);
                    assert forall|j: int| 0 <= j < start.actions.len() implies (
                    #[trigger] pending_actions(*pending)[j]) == (PendingActionV {
                        signature: pending_actions(*pending)[j].signature,
                        ..start.actions[j]
                    }) by {
                        assert(held.actions[j] == (PendingActionV {
                            signature: held.actions[j].signature,
                            ..start.actions[j]
                        }));
                    }
                }
            }
            match signed {
                Ok(()) => {},
                Err(e) => {
                    return Err(e);
                },
            }
        } else {
            match alpha {
                Some(alpha) => {
                    list.push((i, alpha));
                    assert(request_views(list@) =~= request_views(before).push((i as int, alpha@)));
                },
                None => {},
            }
        }
        i = i + 1;
    }
    assert(start.actions.take(i as int) =~= start.actions);
    Ok(list)
}

/// Action `i` pays the amount to the recipient according to the disclosure.
spec fn pays_at(d: Seq<ActionDisclosure>, i: int, to: Seq<u8>, amount: u64) -> bool {
    d[i].out_recipient@ == to && d[i].out_value == amount
}

proof fn lemma_honest_tally(
    actions: Seq<PendingActionV>,
    d: Seq<ActionDisclosure>,
    outputs: Seq<OutputV>,
    at: Seq<int>,
    mine: Seq<u8>,
    to: Seq<u8>,
    amount: u64,
    k: int,
)
    requires
        0 <= k <= actions.len(),
        forall|i: int| 0 <= i < actions.len() ==> disclosed(#[trigger] actions[i]),
        tells(d, actions),
        pending_outputs_at(actions, outputs, at),
        1 <= outputs.len() <= 2,
        outputs[0].recipient == to,
        outputs[0].value == amount,
        outputs.len() == 2 ==> outputs[1].recipient == mine,
    ensures
        tally(shown(actions).take(k), d, mine, to, amount) matches Ok(t) && {
            &&& t.spent == disclosed_spent(actions.take(k))
            &&& t.out == disclosed_paid(actions.take(k))
            &&& t.paid <==> exists|i: int| 0 <= i < k && #[trigger] pays_at(d, i, to, amount)
        },
    decreases k,
{
    let all = shown(actions);
    if k == 0 {
        assert(all.take(0) =~= Seq::<ActionV>::empty());
        assert(actions.take(0) =~= Seq::<PendingActionV>::empty());
    } else {
        let j = k - 1;
        lemma_honest_tally(actions, d, outputs, at, mine, to, amount, j);
        assert(all.take(k).drop_last() =~= all.take(j));
        assert(actions.take(k).drop_last() =~= actions.take(j));
        assert(all.take(k).last() == actions[j].action);
        assert(actions.take(k).last() == actions[j]);
        let t = tally(all.take(j), d, mine, to, amount)->Ok_0;
        let p = actions[j];
        assert(disclosed(p));
        assert(tells_one(d[j], p));
        assert(d[j].note(p.action) == crate::wallet::pending::disclosed_note(p));
        let pays = pays_at(d, j, to, amount) && !t.paid;
        assert(pays || d[j].out_recipient@ == mine || d[j].out_value == 0) by {
            if !at.contains(j) {
                assert(actions[j].out_value == Some(0u64));
            } else {
                let q = choose|q: int| 0 <= q < at.len() && at[q] == j;
                assert(actions[at[q]].out_value == Some(outputs[q].value));
                if q == 0 && t.paid && to != mine && amount != 0 {
                    let i = choose|i: int| 0 <= i < j && #[trigger] pays_at(d, i, to, amount);
                    assert(tells_one(d[i], actions[i]));
                    if !at.contains(i) {
                        assert(actions[i].out_value == Some(0u64));
                    } else {
                        let s = choose|s: int| 0 <= s < at.len() && at[s] == i;
                        assert(actions[at[s]].out_recipient == Some(outputs[s].recipient));
                    }
                }
            }
        }
        if pays {
            assert(pays_at(d, j, to, amount));
        }
        assert((t.paid || pays) <==> exists|i: int|
            0 <= i < k && #[trigger] pays_at(d, i, to, amount)) by {
            if exists|i: int| 0 <= i < k && #[trigger] pays_at(d, i, to, amount) {
                let i = choose|i: int| 0 <= i < k && #[trigger] pays_at(d, i, to, amount);
                if i < j {
                    assert(t.paid);
                }
            }
        }
    }
}

/// A payment that was prepared as it was asked for passes the device's check: whatever the
/// order and the padding, the disclosure agrees with the commitments, pays the recipient the
/// amount, returns the change, and leaves the fee.
pub proof fn honest_payments_pass_the_device_check(
    actions: Seq<PendingActionV>,
    d: Seq<ActionDisclosure>,
    effects: BundleV,
    fvk: Seq<u8>,
    inputs: Seq<(Note, MerklePath)>,
    recipient: Seq<u8>,
    amount: u64,
    fee: u64,
    recoverable: bool,
    memo: Seq<u8>,
)
    requires
        pends(
            actions,
            wallet_plan(fvk, inputs, recipient, amount, fee, recoverable, memo, false),
        ),
        tells(d, actions),
        effects.actions == shown(actions),
        effects.value_balance == fee,
        amount + fee <= inputs_total(inputs) <= u64::MAX,
    ensures
        payment_verdict(effects, d, fvk, recipient, amount, fee) == Ok::<(), PaymentCheckError>(()),
{
    let plan = wallet_plan(fvk, inputs, recipient, amount, fee, recoverable, memo, false);
    wallet_payments_leave_the_fee(fvk, inputs, recipient, amount, fee, recoverable, memo, false);
    let at = choose|at: Seq<int>| pending_outputs_at(actions, plan.outputs, at);
    let mine = address_of_fvk(fvk);
    let n = actions.len() as int;
    lemma_honest_tally(actions, d, plan.outputs, at, mine, recipient, amount, n);
    assert(shown(actions).take(n) =~= effects.actions);
    assert(actions.take(n) =~= actions);
    assert(0 <= at[0] < n);
    assert(actions[at[0]].out_value == Some(amount));
    assert(tells_one(d[at[0]], actions[at[0]]));
    assert(pays_at(d, at[0], recipient, amount));
}

/// The sum of a list.
spec fn sum(v: Seq<nat>) -> nat
    decreases v.len(),
{
    if v.len() == 0 {
        0
    } else {
        sum(v.drop_last()) + v.last()
    }
}

proof fn lemma_sum_update(v: Seq<nat>, i: int, x: nat)
    requires
        0 <= i < v.len(),
    ensures
        sum(v.update(i, x)) + v[i] == sum(v) + x,
    decreases v.len(),
{
    let u = v.update(i, x);
    if i < v.len() - 1 {
        lemma_sum_update(v.drop_last(), i, x);
        assert(u.drop_last() =~= v.drop_last().update(i, x));
    } else {
        assert(u.drop_last() =~= v.drop_last());
    }
}

proof fn lemma_sum_zero(v: Seq<nat>)
    requires
        forall|i: int| 0 <= i < v.len() ==> #[trigger] v[i] == 0,
    ensures
        sum(v) == 0,
    decreases v.len(),
{
    if v.len() > 0 {
        lemma_sum_zero(v.drop_last());
    }
}

/// Scattering a list among zeros keeps its sum.
proof fn lemma_scattered_sum(v: Seq<nat>, w: Seq<nat>, at: Seq<int>)
    requires
        at.len() == w.len(),
        distinct_below(at, v.len()),
        forall|k: int| 0 <= k < at.len() ==> v[#[trigger] at[k]] == w[k],
        forall|i: int| 0 <= i < v.len() && !at.contains(i) ==> #[trigger] v[i] == 0,
    ensures
        sum(v) == sum(w),
    decreases w.len(),
{
    if w.len() == 0 {
        lemma_sum_zero(v);
    } else {
        let i = at.last();
        let u = v.update(i, 0);
        let rest = at.drop_last();
        assert(0 <= at[at.len() - 1] < v.len());
        lemma_sum_update(v, i, 0);
        assert forall|k: int| 0 <= k < rest.len() implies u[#[trigger] rest[k]]
            == w.drop_last()[k] by {
            assert(at[k] == rest[k]);
            assert(at[k] != at[at.len() - 1]);
        }
        assert(rest.no_duplicates());
        assert forall|k: int| 0 <= k < rest.len() implies 0 <= #[trigger] rest[k] < u.len() by {
            assert(at[k] == rest[k]);
        }
        assert forall|j: int| 0 <= j < u.len() && !rest.contains(j) implies #[trigger] u[j] == 0 by {
            if j != i {
                if at.contains(j) {
                    let k = choose|k: int| 0 <= k < at.len() && at[k] == j;
                    assert(rest[k] == j);
                }
                assert(v[j] == 0);
            }
        }
        lemma_scattered_sum(u, w.drop_last(), rest);
        assert(v[at[at.len() - 1]] == w[at.len() - 1]);
    }
}

/// One for each action that is no padding.
spec fn spend_marks(actions: Seq<PendingActionV>) -> Seq<nat> {
    Seq::new(
        actions.len(),
        |i: int| if actions[i].padding {
            0nat
        } else {
            1nat
        },
    )
}

proof fn lemma_marks(actions: Seq<PendingActionV>)
    requires
        forall|i: int| 0 <= i < actions.len() ==> disclosed(#[trigger] actions[i]),
    ensures
        requests(actions).len() == sum(spend_marks(actions)),
    decreases actions.len(),
{
    if actions.len() > 0 {
        let front = actions.drop_last();
        assert forall|i: int| 0 <= i < front.len() implies disclosed(#[trigger] front[i]) by {
            assert(disclosed(actions[i]));
        }
        lemma_marks(front);
        assert(disclosed(actions[actions.len() - 1]));
        assert(spend_marks(actions).drop_last() =~= spend_marks(front));
    }
}

proof fn lemma_ones(n: nat)
    ensures
        sum(Seq::new(n, |k: int| 1nat)) == n,
    decreases n,
{
    if n > 0 {
        let v = Seq::new(n, |k: int| 1nat);
        lemma_ones((n - 1) as nat);
        assert(v.drop_last() =~= Seq::new((n - 1) as nat, |k: int| 1nat));
    }
}

/// There are as many requests as spends.
proof fn lemma_request_count(actions: Seq<PendingActionV>, spends: Seq<SpendV>, at: Seq<int>)
    requires
        forall|i: int| 0 <= i < actions.len() ==> disclosed(#[trigger] actions[i]),
        pending_spends_at(actions, spends, at),
    ensures
        requests(actions).len() == spends.len(),
{
    let v = spend_marks(actions);
    let w = Seq::new(spends.len(), |k: int| 1nat);
    assert forall|k: int| 0 <= k < at.len() implies v[#[trigger] at[k]] == w[k] by {
        assert(at.contains(at[k]));
        assert(actions[at[k]].padding == !at.contains(at[k]));
    }
    assert forall|i: int| 0 <= i < v.len() && !at.contains(i) implies #[trigger] v[i] == 0 by {
        assert(actions[i].padding);
    }
    lemma_scattered_sum(v, w, at);
    lemma_marks(actions);
    lemma_ones(spends.len());
}

proof fn lemma_paid_values(actions: Seq<PendingActionV>)
    ensures
        disclosed_paid(actions) == sum(
            Seq::new(actions.len(), |i: int| actions[i].out_value->Some_0 as nat),
        ),
    decreases actions.len(),
{
    if actions.len() > 0 {
        let v = Seq::new(actions.len(), |i: int| actions[i].out_value->Some_0 as nat);
        let front = actions.drop_last();
        lemma_paid_values(front);
        assert(v.drop_last() =~= Seq::new(
            front.len(),
            |i: int| front[i].out_value->Some_0 as nat,
        ));
    }
}

proof fn lemma_output_values(outputs: Seq<OutputV>)
    ensures
        paid_total(outputs) == sum(Seq::new(outputs.len(), |k: int| outputs[k].value as nat)),
    decreases outputs.len(),
{
    if outputs.len() > 0 {
        let w = Seq::new(outputs.len(), |k: int| outputs[k].value as nat);
        let front = outputs.drop_last();
        lemma_output_values(front);
        assert(w.drop_last() =~= Seq::new(front.len(), |k: int| front[k].value as nat));
    }
}

/// The actions pay out what the outputs say.
proof fn lemma_paid(actions: Seq<PendingActionV>, outputs: Seq<OutputV>, at: Seq<int>)
    requires
        pending_outputs_at(actions, outputs, at),
    ensures
        disclosed_paid(actions) == paid_total(outputs),
{
    let v = Seq::new(actions.len(), |i: int| actions[i].out_value->Some_0 as nat);
    let w = Seq::new(outputs.len(), |k: int| outputs[k].value as nat);
    assert forall|k: int| 0 <= k < at.len() implies v[#[trigger] at[k]] == w[k] by {
        assert(actions[at[k]].out_value == Some(outputs[k].value));
    }
    assert forall|i: int| 0 <= i < v.len() && !at.contains(i) implies #[trigger] v[i] == 0 by {
        assert(actions[i].out_value == Some(0u64));
    }
    lemma_scattered_sum(v, w, at);
    lemma_paid_values(actions);
    lemma_output_values(outputs);
}

/// The disclosure tells the sums that the actions have.
proof fn lemma_told(d: Seq<ActionDisclosure>, actions: Seq<PendingActionV>)
    requires
        tells(d, actions),
        forall|i: int| 0 <= i < actions.len() ==> disclosed(#[trigger] actions[i]),
    ensures
        told_spent(d) == disclosed_spent(actions),
        told_paid(d) == disclosed_paid(actions),
    decreases d.len(),
{
    if d.len() > 0 {
        let front = actions.drop_last();
        assert forall|i: int| 0 <= i < front.len() implies disclosed(#[trigger] front[i]) by {
            assert(disclosed(actions[i]));
        }
        assert forall|i: int| 0 <= i < d.drop_last().len() implies tells_one(
            #[trigger] d.drop_last()[i],
            front[i],
        ) by {
            assert(tells_one(d[i], actions[i]));
        }
        lemma_told(d.drop_last(), front);
        assert(tells_one(d[d.len() - 1], actions[d.len() - 1]));
        assert(disclosed(actions[d.len() - 1]));
    }
}

/// The requests are those of the spends, each with the randomizer under which its action's
/// key is the spender's.
proof fn lemma_requests(actions: Seq<PendingActionV>)
    requires
        forall|i: int| 0 <= i < actions.len() ==> disclosed(#[trigger] actions[i]),
    ensures
        forall|k: int|
            0 <= k < requests(actions).len() ==> {
                let (i, alpha) = #[trigger] requests(actions)[k];
                0 <= i < actions.len() && !actions[i].padding && actions[i].alpha == Some(alpha)
            },
        forall|i: int|
            0 <= i < actions.len() && !(#[trigger] actions[i]).padding ==> requests(
                actions,
            ).contains((i, actions[i].alpha->Some_0)),
    decreases actions.len(),
{
    if actions.len() > 0 {
        let front = actions.drop_last();
        assert forall|i: int| 0 <= i < front.len() implies disclosed(#[trigger] front[i]) by {
            assert(disclosed(actions[i]));
        }
        lemma_requests(front);
        let before = requests(front);
        let all = requests(actions);
        assert(disclosed(actions.last()));
        assert forall|k: int| 0 <= k < all.len() implies {
            let (i, alpha) = #[trigger] all[k];
            0 <= i < actions.len() && !actions[i].padding && actions[i].alpha == Some(alpha)
        } by {
            if k < before.len() {
                assert(all[k] == before[k]);
            }
        }
        assert forall|i: int| 0 <= i < actions.len() && !(#[trigger] actions[i]).padding implies all.contains(
            (i, actions[i].alpha->Some_0),
        ) by {
            if i < front.len() {
                assert(front[i] == actions[i]);
                let e = (i, front[i].alpha->Some_0);
                assert(before.contains(e));
                let q = choose|q: int| 0 <= q < before.len() && before[q] == e;
                assert(all[q] == e);
            } else {
                assert(all.last() == (i, actions[i].alpha->Some_0));
            }
        }
    }
}

/// The request asks for the authorization of one of the sender's spends: its action's key
/// is the sender's under the request's randomizer.
pub open spec fn asks_for_a_spend(effects: BundleV, fvk: Seq<u8>, request: (int, Seq<u8>)) -> bool {
    &&& 0 <= request.0 < effects.actions.len()
    &&& canonical_scalar(request.1)
    &&& effects.actions[request.0].rk == randomized_key(fvk, request.1)
}

/// What preparing a payment gives, where it gives one.
pub open spec fn prepared_well(
    p: PreparedPayment,
    plan: PlanV,
    fvk: Seq<u8>,
    recipient: Seq<u8>,
    amount: u64,
    fee: u64,
    context: Seq<u8>,
) -> bool {
    &&& p.pending().plan == plan
    &&& bundle_carries(p.effects@, plan)
    &&& p.effects@ == p.pending().effects()
    &&& p.sighash@ == sighash_of(p.effects@, context)
    &&& sound(p.pending())
    &&& p.pending().balance == fee
    &&& p.value_balance == fee
    &&& payment_verdict(p.effects@, p.disclosure@, fvk, recipient, amount, fee) == Ok::<
        (),
        PaymentCheckError,
    >(())
    &&& told_spent(p.disclosure@) == spent_total(plan.spends)
    &&& told_paid(p.disclosure@) == paid_total(plan.outputs)
    &&& p.spend_auth_requests@.len() == plan.spends.len()
    &&& forall|i: int|
        0 <= i < p.pending().actions.len() && !(#[trigger] p.pending().actions[i]).padding
            ==> p.pending().actions[i].signature is None
    &&& request_views(p.spend_auth_requests@) == requests(p.pending().actions)
    &&& forall|k: int|
        0 <= k < p.spend_auth_requests@.len() ==> asks_for_a_spend(
            p.effects@,
            fvk,
            #[trigger] request_views(p.spend_auth_requests@)[k],
        )
}

/// The disclosure adds up: it tells of all that the inputs hold, and of all but the fee paid
/// out again; and there is one request for each input.
pub open spec fn told_inputs(p: PreparedPayment, inputs: Seq<(Note, MerklePath)>, fee: u64) -> bool {
    &&& told_spent(p.disclosure@) == inputs_total(inputs)
    &&& told_paid(p.disclosure@) == inputs_total(inputs) - fee
    &&& p.spend_auth_requests@.len() == inputs.len()
    &&& p.disclosure@.len() == p.effects@.actions.len()
}

/// The server's part without the proof: builds a payment, signs its padding, and says what
/// the device must check and sign. There is a change output only where there is change.
pub fn draft_payment(
    fvk: &FullViewingKey,
    inputs: Vec<(Note, MerklePath)>,
    recipient_addr: [u8; 43],
    amount: u64,
    fee: u64,
    network_domain: &[u8; 32],
    tx_context: &[u8],
    recoverable: bool,
    memo: [u8; 512],
) -> (r: Result<PreparedPayment, BuildError>)
    requires
        paths_wf(inputs@),
        inputs_total(inputs@) <= u64::MAX,
    ensures
        r matches Err(BuildError::Empty) <==> inputs@.len() == 0 || !orchard_address(
            recipient_addr@,
        ) || inputs_total(inputs@) < amount + fee,
        ({
            let plan = wallet_plan(
                fvk@,
                inputs@,
                recipient_addr@,
                amount,
                fee,
                recoverable,
                memo@,
                false,
            );
            match r {
                Err(BuildError::Empty) => true,
                Err(BuildError::Builder(_)) => !plan.spendable() && !plan.own_spends(),
                Err(BuildError::Proof(_)) => plan.spendable() && !plan.representable(),
                Ok(p) => plan.spendable() && plan.representable() && prepared_well(
                    p,
                    plan,
                    fvk@,
                    recipient_addr@,
                    amount,
                    fee,
                    network_context(network_domain@, tx_context@),
                ) && told_inputs(p, inputs@, fee),
            }
        }),
{
    if inputs.len() == 0 {
        return Err(BuildError::Empty);
    }
    let recipient: OrchardAddress = match OrchardAddress::from_raw_address_bytes(&recipient_addr) {
        Some(recipient) => recipient,
        None => {
            return Err(BuildError::Empty);
        },
    };
    let change: u64 = match change_of(total_value(inputs.as_slice()), amount, fee) {
        Some(change) => change,
        None => {
            return Err(BuildError::Empty);
        },
    };
    let own: OrchardAddress = OrchardAddress::from_raw_address_bytes(&fvk.address()).unwrap();
    let outputs: Vec<PaymentOutput> = wallet_outputs(
        &recipient,
        amount,
        &own,
        change,
        recoverable,
        &memo,
        false,
    );
    let anchor: Anchor = first_anchor(inputs.as_slice(), Ghost(fvk@));
    let ghost plan = wallet_plan(
        fvk@,
        inputs@,
        recipient_addr@,
        amount,
        fee,
        recoverable,
        memo@,
        false,
    );
    proof {
        wallet_payments_leave_the_fee(
            fvk@,
            inputs@,
            recipient_addr@,
            amount,
            fee,
            recoverable,
            memo@,
            false,
        );
        assert(plan == transfer_plan(fvk@, inputs@, output_views(fvk@, outputs@)));
    }
    let builder: Builder = match assemble(&anchor, fvk, inputs.as_slice(), outputs.as_slice()) {
        Ok(builder) => builder,
        Err(e) => {
            return Err(e);
        },
    };
    assert(builder_plan(builder) == plan);
    let mut pending: pczt::Bundle = match build_pending(builder) {
        Ok(pending) => pending,
        Err(e) => {
            return Err(e);
        },
    };
    let ghost first = pending_actions(pending);
    proof {
        assert forall|i: int| 0 <= i < first.len() implies action_fault(
            (#[trigger] first[i]).action,
        ) is None by {
            assert(action_fault(shown(first)[i]) is None);
        }
        assert(shown(first).len() > 0);
    }
    let effects: ShieldedBundle = match wire_effects(&pending) {
        Ok(effects) => effects,
        Err(e) => {
            return Err(e);
        },
    };
    let sighash: [u8; 32] = network_sighash(&effects, network_domain, tx_context);
    let n: usize = effects.actions.len();
    assert(effects@.actions.len() == n);
    let spend_auth_requests: Vec<(usize, [u8; 32])> = match sign_paddings(
        &mut pending,
        n,
        &sighash,
    ) {
        Ok(list) => list,
        Err(e) => {
            return Err(e);
        },
    };
    let ghost last = pending_actions(pending);
    proof {
        assert forall|i: int| 0 <= i < last.len() implies disclosed(#[trigger] last[i]) by {
            assert(disclosed(first[i]));
            assert(last[i] == (PendingActionV { signature: last[i].signature, ..first[i] }));
        }
        lemma_alike(last, first);
        assert forall|i: int| 0 <= i < last.len() implies action_fault(
            (#[trigger] last[i]).action,
        ) is None by {
            assert(action_fault(shown(first)[i]) is None);
            assert(shown(last)[i] == shown(first)[i]);
        }
    }
    let disclosure: Vec<ActionDisclosure> = match disclose_all(&pending, n) {
        Ok(disclosure) => disclosure,
        Err(e) => {
            return Err(e);
        },
    };
    let p: PreparedPayment = PreparedPayment {
        bundle: PendingBundle { inner: pending },
        sighash,
        value_balance: effects.value_balance,
        effects,
        disclosure,
        spend_auth_requests,
    };
    proof {
        assert(tells(disclosure@, first)) by {
            assert forall|i: int| 0 <= i < disclosure@.len() implies tells_one(
                #[trigger] disclosure@[i],
                first[i],
            ) by {
                assert(last[i] == (PendingActionV { signature: last[i].signature, ..first[i] }));
            }
        }
        honest_payments_pass_the_device_check(
            first,
            disclosure@,
            effects@,
            fvk@,
            inputs@,
            recipient_addr@,
            amount,
            fee,
            recoverable,
            memo@,
        );
        lemma_requests(first);
        let at = choose|at: Seq<int>| pending_spends_at(first, plan.spends, at);
        lemma_request_count(first, plan.spends, at);
        lemma_paid(
            first,
            plan.outputs,
            choose|at: Seq<int>| pending_outputs_at(first, plan.outputs, at),
        );
        lemma_told(disclosure@, first);
        lemma_inputs_total(fvk@, inputs@);
        lemma_alike_sound(p.pending(), PendingV { actions: first, ..p.pending() });
        assert forall|i: int| 0 <= i < last.len() && !(#[trigger] last[i]).padding implies last[i].signature is None by {
            assert(last[i] == (PendingActionV { signature: last[i].signature, ..first[i] }));
            assert(!first[i].padding);
        }
        assert forall|k: int| 0 <= k < spend_auth_requests@.len() implies asks_for_a_spend(
            effects@,
            fvk@,
            #[trigger] request_views(spend_auth_requests@)[k],
        ) by {
            let (i, alpha) = requests(first)[k];
            assert(disclosed(first[i]));
            assert(first[i].padding == !at.contains(i));
            let q = choose|q: int| 0 <= q < at.len() && at[q] == i;
            assert(first[at[q]].action.rk == randomized_key(
                plan.spends[q].fvk,
                first[at[q]].alpha->Some_0,
            ));
        }
        assert(shown(last) =~= shown(first));
        assert(well_encoded(p.pending()));
    }
    Ok(p)
}

/// Proves a payment.
pub fn prove_payment(draft: PreparedPayment, pk: &ActionProvingKey) -> (r: Result<
    PreparedPayment,
    BuildError,
>)
    ensures
        match r {
            Ok(p) => {
                &&& p == (PreparedPayment { bundle: p.bundle, ..draft })
                &&& p.pending() == (PendingV {
                    proof_bytes: p.pending().proof_bytes,
                    ..draft.pending()
                })
                &&& proven(p.pending())
            },
            Err(e) => e is Proof,
        },
{
    proof {
        use_type_invariant(&draft.bundle);
    }
    let mut inner: pczt::Bundle = draft.bundle.inner;
    match prove_pending(&mut inner, pk) {
        Err(e) => Err(e),
        Ok(()) => Ok(
            PreparedPayment {
                bundle: PendingBundle { inner },
                sighash: draft.sighash,
                effects: draft.effects,
                disclosure: draft.disclosure,
                value_balance: draft.value_balance,
                spend_auth_requests: draft.spend_auth_requests,
            },
        ),
    }
}

/// The server's part, with the viewing key and the proving key only: builds and proves a
/// payment, signs its padding, and says what the device must check and sign.
pub fn prepare_payment(
    pk: &ActionProvingKey,
    fvk: &FullViewingKey,
    inputs: Vec<(Note, MerklePath)>,
    recipient_addr: [u8; 43],
    amount: u64,
    fee: u64,
    network_domain: &[u8; 32],
    tx_context: &[u8],
    recoverable: bool,
    memo: [u8; 512],
) -> (r: Result<PreparedPayment, BuildError>)
    requires
        paths_wf(inputs@),
        inputs_total(inputs@) <= u64::MAX,
    ensures
        r matches Err(BuildError::Empty) <==> inputs@.len() == 0 || !orchard_address(
            recipient_addr@,
        ) || inputs_total(inputs@) < amount + fee,
        ({
            let plan = wallet_plan(
                fvk@,
                inputs@,
                recipient_addr@,
                amount,
                fee,
                recoverable,
                memo@,
                false,
            );
            match r {
                Err(BuildError::Empty) => true,
                Err(BuildError::Builder(_)) => !plan.spendable() && !plan.own_spends(),
                Err(BuildError::Proof(_)) => plan.spendable(),
                Ok(p) => plan.spendable() && plan.representable() && prepared_well(
                    p,
                    plan,
                    fvk@,
                    recipient_addr@,
                    amount,
                    fee,
                    network_context(network_domain@, tx_context@),
                ) && told_inputs(p, inputs@, fee) && proven(p.pending()),
            }
        }),
{
    match draft_payment(
        fvk,
        inputs,
        recipient_addr,
        amount,
        fee,
        network_domain,
        tx_context,
        recoverable,
        memo,
    ) {
        Ok(draft) => prove_payment(draft, pk),
        Err(e) => Err(e),
    }
}

proof fn lemma_alike(a: Seq<PendingActionV>, b: Seq<PendingActionV>)
    requires
        alike(a, b),
    ensures
        shown(a) == shown(b),
        requests(a) == requests(b),
        disclosed_spent(a) == disclosed_spent(b),
        disclosed_paid(a) == disclosed_paid(b),
    decreases a.len(),
{
    assert forall|i: int| 0 <= i < a.len() implies shown(a)[i] == shown(b)[i] by {
        assert(a[i] == (PendingActionV { signature: a[i].signature, ..b[i] }));
    }
    assert(shown(a) =~= shown(b));
    if a.len() > 0 {
        let j = a.len() - 1;
        assert(a[j] == (PendingActionV { signature: a[j].signature, ..b[j] }));
        assert forall|i: int| 0 <= i < a.drop_last().len() implies (#[trigger] a.drop_last()[i])
            == (PendingActionV { signature: a.drop_last()[i].signature, ..b.drop_last()[i] }) by {
            assert(a[i] == (PendingActionV { signature: a[i].signature, ..b[i] }));
        }
        lemma_alike(a.drop_last(), b.drop_last());
    }
}

/// The bundle stays sound whatever signatures it waits with.
proof fn lemma_alike_sound(a: PendingV, b: PendingV)
    requires
        alike(a.actions, b.actions),
        a.balance == b.balance,
        sound(b),
    ensures
        sound(a),
{
    lemma_alike(a.actions, b.actions);
    assert forall|i: int| 0 <= i < a.actions.len() implies disclosed(#[trigger] a.actions[i]) && (
    a.actions[i].padding ==> a.actions[i].signable) by {
        assert(disclosed(b.actions[i]));
        assert(a.actions[i] == (PendingActionV {
            signature: a.actions[i].signature,
            ..b.actions[i]
        }));
    }
}

/// The device's part: the spend-authorization signature for one spend, from its randomizer
/// and the payment's sighash. `None` where the randomizer is no canonical scalar.
pub fn sign_spend_auth(keys: &ShieldedKeys, alpha: [u8; 32], sighash: [u8; 32]) -> (r: Option<
    [u8; 64],
>)
    ensures
        r is Some <==> canonical_scalar(alpha@),
        r matches Some(sig) ==> spend_auth_verifies(
            randomized_key(keys.viewing(), alpha@),
            sighash@,
            sig@,
        ),
{
    keys.sign_randomized(alpha, sighash)
}

/// The signature is that of one of the bundle's actions: it verifies under the action's key.
pub open spec fn signature_fits(p: PendingV, message: Seq<u8>, sig: (usize, [u8; 64])) -> bool {
    spend_auth_verifies(p.actions[sig.0 as int].action.rk, message, sig.1@)
}

/// The device's signatures verify, and every action that is no padding has one.
pub open spec fn signed_off(p: PendingV, message: Seq<u8>, sigs: Seq<(usize, [u8; 64])>) -> bool {
    &&& forall|k: int| 0 <= k < sigs.len() ==> signature_fits(p, message, #[trigger] sigs[k])
    &&& forall|i: int|
        0 <= i < p.actions.len() && !(#[trigger] p.actions[i]).padding ==> answered(sigs, i)
}

/// An action waits with a signature that verifies.
spec fn verifies_at(actions: Seq<PendingActionV>, i: int, message: Seq<u8>) -> bool {
    actions[i].signature is Some && spend_auth_verifies(
        actions[i].action.rk,
        message,
        actions[i].signature->Some_0,
    )
}

/// One of the signatures is for an action.
pub open spec fn answered(sigs: Seq<(usize, [u8; 64])>, i: int) -> bool {
    exists|k: int| 0 <= k < sigs.len() && (#[trigger] sigs[k]).0 == i
}

/// What finalizing a payment comes to. A bundle that comes out has the effects that were
/// prepared and the payment's proof, and its signatures verify; where the proof is good the
/// bundle verifies. A signature that does not fit, and a spend that is left without one, is
/// refused; a payment that is proven and signed off is not.
pub open spec fn finalize_outcome(
    r: Result<ShieldedBundle, BuildError>,
    p: PendingV,
    message: Seq<u8>,
    sigs: Seq<(usize, [u8; 64])>,
) -> bool {
    &&& match r {
        Ok(b) => {
            &&& same_effects(p.effects(), b@)
            &&& p.proof_bytes == Some(b@.proof)
            &&& forall|i: int|
                0 <= i < b@.actions.len() ==> spend_auth_verifies(
                    (#[trigger] b@.actions[i]).rk,
                    message,
                    b@.actions[i].spend_auth_sig,
                )
            &&& proven(p) ==> bundle_verdict(b@, message) == Ok::<(), FaultV>(())
        },
        Err(e) => e is Proof,
    }
    &&& (exists|k: int| 0 <= k < sigs.len() && !signature_fits(p, message, #[trigger] sigs[k]))
        ==> r is Err
    &&& (exists|i: int|
        0 <= i < p.actions.len() && !(#[trigger] p.actions[i]).padding
            && p.actions[i].signature is None && !answered(sigs, i)) ==> r is Err
    &&& proven(p) && i64::MIN <= p.balance <= i64::MAX && signed_off(p, message, sigs) ==> r is Ok
}

/// The server's part again: puts the device's signatures in place, binds the bundle, and
/// gives it out. Every signature must verify, else the payment is refused; a bundle that
/// comes out has the effects that were prepared, its signatures verify under the payment's
/// sighash, and where the payment's proof was good the bundle verifies.
pub fn finalize_payment(prepared: PreparedPayment, device_sigs: Vec<(usize, [u8; 64])>) -> (r: Result<
    ShieldedBundle,
    BuildError,
>)
    requires
        forall|k: int|
            0 <= k < device_sigs@.len() ==> (#[trigger] device_sigs@[k]).0
                < prepared.pending().actions.len(),
    ensures
        finalize_outcome(r, prepared.pending(), prepared.sighash@, device_sigs@),
{
    proof {
        use_type_invariant(&prepared.bundle);
    }
    let ghost start = prepared.pending();
    let sighash: [u8; 32] = prepared.sighash;
    let mut pending: pczt::Bundle = prepared.bundle.inner;
    let mut k: usize = 0;
    while k < device_sigs.len()
        invariant
            0 <= k <= device_sigs@.len(),
            sighash@ == prepared.sighash@,
            start == prepared.pending(),
            alike(pending_actions(pending), start.actions),
            pending_view(pending) == (PendingV { actions: pending_actions(pending), ..start }),
            forall|j: int|
                0 <= j < device_sigs@.len() ==> (#[trigger] device_sigs@[j]).0
                    < start.actions.len(),
            forall|j: int|
                0 <= j < k ==> signature_fits(start, sighash@, #[trigger] device_sigs@[j]),
            forall|i: int|
                0 <= i < start.actions.len() && #[trigger] answered(device_sigs@.take(k as int), i)
                    ==> verifies_at(pending_actions(pending), i, sighash@),
            forall|i: int|
                0 <= i < start.actions.len() && (#[trigger] start.actions[i]).signature is None && (
                forall|j: int| 0 <= j < k ==> (#[trigger] device_sigs@[j]).0 != i)
                    ==> pending_actions(pending)[i].signature is None,
        decreases device_sigs@.len() - k,
    {
        let (i, sig) = device_sigs[k];
        let ghost held = pending_view(pending);
        let applied: Result<(), BuildError> = apply_spend_auth(&mut pending, i, &sighash, &sig);
        proof {
            assert(held.actions[i as int] == (PendingActionV {
                signature: held.actions[i as int].signature,
                ..start.actions[i as int]
            }));
            assert(applied is Ok <==> signature_fits(start, sighash@, device_sigs@[k as int]));
        }
        match applied {
            Ok(()) => {},
            Err(e) => {
                return Err(e);
            },
        }
        proof {
            let now = pending_view(pending);
            assert(now.actions == held.with_signature(i as int, sig@).actions);
            assert forall|j: int| 0 <= j < start.actions.len() implies (
            #[trigger] pending_actions(pending)[j]) == (PendingActionV {
                signature: pending_actions(pending)[j].signature,
                ..start.actions[j]
            }) by {
                assert(held.actions[j] == (PendingActionV {
                    signature: held.actions[j].signature,
                    ..start.actions[j]
                }));
            }
            assert forall|j: int|
                0 <= j < start.actions.len() && #[trigger] answered(
                    device_sigs@.take(k + 1),
                    j,
                ) implies verifies_at(pending_actions(pending), j, sighash@) by {
                let q = choose|q: int|
                    0 <= q < device_sigs@.take(k + 1).len() && (
                    #[trigger] device_sigs@.take(k + 1)[q]).0 == j;
                if j != i {
                    assert(device_sigs@.take(k as int)[q].0 == j);
                    assert(answered(device_sigs@.take(k as int), j));
                }
            }
            assert forall|j: int|
                0 <= j < start.actions.len() && (#[trigger] start.actions[j]).signature is None && (
                forall|q: int| 0 <= q < k + 1 ==> (#[trigger] device_sigs@[q]).0 != j) implies
                pending_actions(pending)[j].signature is None by {
                assert(device_sigs@[k as int].0 != j);
                assert(forall|q: int| 0 <= q < k ==> (#[trigger] device_sigs@[q]).0 != j);
            }
        }
        k = k + 1;
    }
    let ghost last = pending_view(pending);
    proof {
        lemma_alike(last.actions, start.actions);
        assert forall|i: int| 0 <= i < last.actions.len() implies action_fault(
            (#[trigger] last.actions[i]).action,
        ) is None by {
            assert(action_fault(start.actions[i].action) is None);
        }
        assert(last.effects() == start.effects());
        lemma_alike_sound(last, start);
        assert(device_sigs@.take(k as int) =~= device_sigs@);
        if proven(start) && i64::MIN <= start.balance <= i64::MAX && signed_off(
            start,
            sighash@,
            device_sigs@,
        ) {
            assert forall|i: int| 0 <= i < last.actions.len() implies action_fault(
                (#[trigger] last.actions[i]).action,
            ) is None && (last.actions[i].padding || verifies_at(last.actions, i, sighash@)) by {
                assert(last.actions[i] == (PendingActionV {
                    signature: last.actions[i].signature,
                    ..start.actions[i]
                }));
            }
            assert(complete(last, sighash@));
        }
    }
    let effects: ShieldedBundle = match wire_effects(&pending) {
        Ok(effects) => effects,
        Err(e) => {
            return Err(e);
        },
    };
    match finish_pending(pending, &sighash) {
        Err(e) => Err(e),
        Ok(None) => Err(BuildError::Empty),
        Ok(Some((sigs, proof_bytes, binding_sig))) => {
            let ghost views = sig_views(sigs@);
            let b: ShieldedBundle = to_wire(&effects, sigs.as_slice(), proof_bytes, binding_sig);
            proof {
                assert forall|i: int| 0 <= i < views.len() implies spend_auth_verifies(
                    effects@.actions[i].rk,
                    sighash@,
                    #[trigger] views[i],
                ) by {
                    assert(spend_auth_verifies(last.actions[i].action.rk, sighash@, sigs@[i]@));
                }
                assert(same_effects(start.effects(), b@));
                if proven(start) {
                    assert forall|i: int| 0 <= i < effects@.actions.len() implies action_fault(
                        #[trigger] effects@.actions[i],
                    ) is None by {
                        assert(action_fault(start.actions[i].action) is None);
                    }
                    lemma_authorized_verifies(
                        effects@,
                        views,
                        b@.proof,
                        b@.binding_sig,
                        sighash@,
                    );
                }
                assert forall|i: int| 0 <= i < b@.actions.len() implies spend_auth_verifies(
                    (#[trigger] b@.actions[i]).rk,
                    sighash@,
                    b@.actions[i].spend_auth_sig,
                ) by {
                    assert(spend_auth_verifies(effects@.actions[i].rk, sighash@, views[i]));
                }
                assert forall|i: int|
                    0 <= i < start.actions.len() && !(#[trigger] start.actions[i]).padding
                        && start.actions[i].signature is None implies exists|q: int|
                    0 <= q < device_sigs@.len() && (#[trigger] device_sigs@[q]).0 == i by {
                    assert(last.actions[i] == (PendingActionV {
                        signature: last.actions[i].signature,
                        ..start.actions[i]
                    }));
                    assert(spend_auth_verifies(last.actions[i].action.rk, sighash@, sigs@[i]@));
                    assert(last.actions[i].signature is Some);
                }
            }
            Ok(b)
        },
    }
}

/// The device's signatures fit: what the holder of the viewing key's spend authority signs
/// for a request of a prepared payment is taken for the action that it was asked for.
pub proof fn device_signatures_fit(
    p: PendingV,
    effects: BundleV,
    fvk: Seq<u8>,
    request: (int, Seq<u8>),
    message: Seq<u8>,
    sig: (usize, [u8; 64]),
)
    requires
        effects == p.effects(),
        asks_for_a_spend(effects, fvk, request),
        sig.0 == request.0,
        spend_auth_verifies(randomized_key(fvk, request.1), message, sig.1@),
    ensures
        sig.0 < p.actions.len(),
        signature_fits(p, message, sig),
{
    assert(effects.actions[request.0] == p.actions[request.0].action);
}

/// Every spend is asked for: an action of a prepared payment that is no padding has its
/// request.
pub proof fn every_spend_is_asked_for(actions: Seq<PendingActionV>, i: int)
    requires
        forall|j: int| 0 <= j < actions.len() ==> disclosed(#[trigger] actions[j]),
        0 <= i < actions.len(),
        !actions[i].padding,
    ensures
        requests(actions).contains((i, actions[i].alpha->Some_0)),
{
    lemma_requests(actions);
}

/// A device that signs every request leaves nothing unsigned.
pub proof fn signing_every_request_signs_off(
    p: PendingV,
    fvk: Seq<u8>,
    message: Seq<u8>,
    sigs: Seq<(usize, [u8; 64])>,
)
    requires
        sound(p),
        sigs.len() == requests(p.actions).len(),
        forall|k: int|
            0 <= k < sigs.len() ==> asks_for_a_spend(
                p.effects(),
                fvk,
                #[trigger] requests(p.actions)[k],
            ),
        forall|k: int|
            0 <= k < sigs.len() ==> (#[trigger] sigs[k]).0 == requests(p.actions)[k].0
                && spend_auth_verifies(
                randomized_key(fvk, requests(p.actions)[k].1),
                message,
                sigs[k].1@,
            ),
    ensures
        signed_off(p, message, sigs),
{
    assert forall|k: int| 0 <= k < sigs.len() implies signature_fits(
        p,
        message,
        #[trigger] sigs[k],
    ) by {
        device_signatures_fit(p, p.effects(), fvk, requests(p.actions)[k], message, sigs[k]);
    }
    assert forall|i: int| 0 <= i < p.actions.len() && !(#[trigger] p.actions[i]).padding implies answered(
        sigs,
        i,
    ) by {
        every_spend_is_asked_for(p.actions, i);
        let k = choose|k: int|
            0 <= k < requests(p.actions).len() && requests(p.actions)[k] == (
                i,
                p.actions[i].alpha->Some_0,
            );
        assert(sigs[k].0 == i);
    }
}

/// A bundle with the same effects carries the same plan out.
proof fn lemma_same_effects_carry(a: BundleV, b: BundleV, plan: PlanV)
    requires
        same_effects(a, b),
        bundle_carries(a, plan),
    ensures
        bundle_carries(b, plan),
{
    assert forall|i: int| 0 <= i < b.actions.len() implies action_fault(#[trigger] b.actions[i]) is None by {
        assert(action_fault(a.actions[i]) is None);
    }
    let at = choose|at: Seq<int>| spends_at(a.actions, plan.spends, at);
    assert forall|k: int| 0 <= k < at.len() implies reveals(
        b.actions[#[trigger] at[k]],
        plan.spends[k],
    ) by {
        assert(reveals(a.actions[at[k]], plan.spends[k]));
    }
    assert(spends_at(b.actions, plan.spends, at));
    let (to, rseeds) = choose|to: Seq<int>, rseeds: Seq<Seq<u8>>|
        outputs_at(a.actions, plan.outputs, to, rseeds);
    assert forall|k: int| 0 <= k < to.len() implies delivers(
        b.actions[#[trigger] to[k]],
        plan.outputs[k],
        rseeds[k],
    ) by {
        assert(delivers(a.actions[to[k]], plan.outputs[k], rseeds[k]));
    }
    assert(outputs_at(b.actions, plan.outputs, to, rseeds));
}

/// The device answered: it signed every request of a payment, in order, with the key of the
/// viewing key.
pub open spec fn device_answers(
    p: PreparedPayment,
    fvk: Seq<u8>,
    sigs: Seq<(usize, [u8; 64])>,
) -> bool {
    &&& sigs.len() == p.spend_auth_requests@.len()
    &&& forall|k: int|
        0 <= k < sigs.len() ==> (#[trigger] sigs[k]).0 == p.spend_auth_requests@[k].0
            && spend_auth_verifies(
            randomized_key(fvk, p.spend_auth_requests@[k].1@),
            p.sighash@,
            sigs[k].1@,
        )
}

/// What a device answers to a prepared payment can be put in place, and leaves nothing
/// unsigned.
pub proof fn answers_sign_payments_off(
    p: PreparedPayment,
    plan: PlanV,
    fvk: Seq<u8>,
    recipient: Seq<u8>,
    amount: u64,
    fee: u64,
    context: Seq<u8>,
    sigs: Seq<(usize, [u8; 64])>,
)
    requires
        prepared_well(p, plan, fvk, recipient, amount, fee, context),
        device_answers(p, fvk, sigs),
    ensures
        forall|k: int|
            0 <= k < sigs.len() ==> (#[trigger] sigs[k]).0 < p.pending().actions.len(),
        signed_off(p.pending(), p.sighash@, sigs),
{
    let asked = request_views(p.spend_auth_requests@);
    assert forall|k: int| 0 <= k < sigs.len() implies (#[trigger] sigs[k]).0
        < p.pending().actions.len() by {
        assert(asks_for_a_spend(p.effects@, fvk, asked[k]));
    }
    assert forall|k: int| 0 <= k < sigs.len() implies asks_for_a_spend(
        p.pending().effects(),
        fvk,
        #[trigger] requests(p.pending().actions)[k],
    ) by {
        assert(asks_for_a_spend(p.effects@, fvk, asked[k]));
    }
    signing_every_request_signs_off(p.pending(), fvk, p.sighash@, sigs);
}

/// The round trip between the server and the device: a payment that was prepared and proven,
/// and whose every request the device signed, is finalized into a bundle that carries the
/// plan out and verifies in its context.
pub proof fn payments_complete_once_signed(
    p: PreparedPayment,
    plan: PlanV,
    fvk: Seq<u8>,
    recipient: Seq<u8>,
    amount: u64,
    fee: u64,
    context: Seq<u8>,
    sigs: Seq<(usize, [u8; 64])>,
    r: Result<ShieldedBundle, BuildError>,
)
    requires
        prepared_well(p, plan, fvk, recipient, amount, fee, context),
        proven(p.pending()),
        device_answers(p, fvk, sigs),
        finalize_outcome(r, p.pending(), p.sighash@, sigs),
    ensures
        r matches Ok(b) && built(b@, plan, context),
{
    answers_sign_payments_off(p, plan, fvk, recipient, amount, fee, context, sigs);
    let b = r->Ok_0@;
    lemma_same_effects_carry(p.effects@, b, plan);
    sighash_excludes_authorization(p.effects@, b, context);
}

/// A payment that lacks the signature of one of its spends is not finalized.
pub proof fn unanswered_requests_are_refused(
    p: PreparedPayment,
    plan: PlanV,
    fvk: Seq<u8>,
    recipient: Seq<u8>,
    amount: u64,
    fee: u64,
    context: Seq<u8>,
    sigs: Seq<(usize, [u8; 64])>,
    k: int,
    r: Result<ShieldedBundle, BuildError>,
)
    requires
        prepared_well(p, plan, fvk, recipient, amount, fee, context),
        0 <= k < p.spend_auth_requests@.len(),
        !answered(sigs, p.spend_auth_requests@[k].0 as int),
        finalize_outcome(r, p.pending(), p.sighash@, sigs),
    ensures
        r is Err,
{
    lemma_requests(p.pending().actions);
    let asked = request_views(p.spend_auth_requests@);
    assert(asked[k] == requests(p.pending().actions)[k]);
    let i = asked[k].0;
    assert(!p.pending().actions[i].padding);
}

} // verus!
