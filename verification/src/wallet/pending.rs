//! The outside form of a bundle that is proven in one place and signed in another.

use crate::bundle::{action_views, ActionV, ActionWire, BundleV};
use crate::field::canonical_scalar;
use crate::message::randomized_key;
use crate::note::{note_valid, NoteV};
use crate::value::value_commit;
use crate::verify::{action_fault, binding_key, binding_verifies, spend_auth_verifies};
use crate::wallet::builder::{
    builder_plan, no_signature, proves, within_64_bits, ActionProvingKey, BuildError,
};
use crate::wallet::plan::{carries, distinct_below, OutputV, PlanV, SpendV};
use group::ff::PrimeField;
use orchard::builder::Builder;
use orchard::keys::SpendAuthorizingKey;
use orchard::pczt;
use orchard::primitives::redpallas::{Signature, SpendAuth};
use rand::rngs::OsRng;
use vstd::prelude::*;

verus! {

#[verifier::external_type_specification]
#[verifier::external_body]
pub struct ExPcztBundle(orchard::pczt::Bundle);

/// An action that waits for its signature, with what its builder knows of it.
pub struct PendingActionV {
    /// What the action shows, with 64 zero bytes for its signature.
    pub action: ActionV,
    /// The spend is padding, and its key at hand.
    pub padding: bool,
    /// The key of the padding, randomized, is the one that the action shows.
    pub signable: bool,
    /// The randomizer of the spend-authorization key.
    pub alpha: Option<Seq<u8>>,
    /// The value of the spent note.
    pub spend_value: Option<u64>,
    /// The value of the created note.
    pub out_value: Option<u64>,
    /// The address that the created note pays.
    pub out_recipient: Option<Seq<u8>>,
    /// The random seed of the created note.
    pub out_rseed: Option<Seq<u8>>,
    /// The trapdoor of the value commitment.
    pub rcv: Option<Seq<u8>>,
    /// The spend-authorization signature.
    pub signature: Option<Seq<u8>>,
}

/// The actions of a pending bundle.
pub uninterp spec fn pending_actions(b: pczt::Bundle) -> Seq<PendingActionV>;

/// What is spent minus what is paid out in a pending bundle.
pub uninterp spec fn pending_balance(b: pczt::Bundle) -> int;

/// The anchor of a pending bundle.
pub uninterp spec fn pending_anchor(b: pczt::Bundle) -> Seq<u8>;

/// The plan that a pending bundle was built from.
pub uninterp spec fn pending_plan(b: pczt::Bundle) -> PlanV;

/// The proof of a pending bundle.
pub uninterp spec fn pending_proof(b: pczt::Bundle) -> Option<Seq<u8>>;

/// What a pending bundle holds.
pub struct PendingV {
    pub actions: Seq<PendingActionV>,
    pub balance: int,
    pub anchor: Seq<u8>,
    pub plan: PlanV,
    pub proof_bytes: Option<Seq<u8>>,
}

/// What a pending bundle holds.
pub open spec fn pending_view(b: pczt::Bundle) -> PendingV {
    PendingV {
        actions: pending_actions(b),
        balance: pending_balance(b),
        anchor: pending_anchor(b),
        plan: pending_plan(b),
        proof_bytes: pending_proof(b),
    }
}

/// What the actions show.
pub open spec fn shown(actions: Seq<PendingActionV>) -> Seq<ActionV> {
    Seq::new(actions.len(), |i: int| actions[i].action)
}

impl PendingV {
    /// What the bundle shows, without its proof and signatures.
    pub open spec fn effects(self) -> BundleV {
        BundleV {
            actions: shown(self.actions),
            flags: 3,
            value_balance: self.balance as i64,
            anchor: self.anchor,
            proof: Seq::empty(),
            binding_sig: no_signature(),
        }
    }

    /// The bundle with another signature at one action.
    pub open spec fn with_signature(self, i: int, sig: Seq<u8>) -> PendingV {
        PendingV {
            actions: self.actions.update(
                i,
                PendingActionV { signature: Some(sig), ..self.actions[i] },
            ),
            ..self
        }
    }
}

/// What the actions spend, in all.
pub open spec fn disclosed_spent(actions: Seq<PendingActionV>) -> nat
    decreases actions.len(),
{
    if actions.len() == 0 {
        0
    } else {
        disclosed_spent(actions.drop_last()) + actions.last().spend_value->Some_0 as nat
    }
}

/// What the actions pay out, in all.
pub open spec fn disclosed_paid(actions: Seq<PendingActionV>) -> nat
    decreases actions.len(),
{
    if actions.len() == 0 {
        0
    } else {
        disclosed_paid(actions.drop_last()) + actions.last().out_value->Some_0 as nat
    }
}

/// The note that the action creates.
pub open spec fn disclosed_note(p: PendingActionV) -> NoteV {
    NoteV {
        recipient: p.out_recipient->Some_0,
        value: p.out_value->Some_0,
        rho: p.action.nullifier,
        rseed: p.out_rseed->Some_0,
    }
}

/// All of the action is known, and what is known of it is what its commitments hold.
pub open spec fn disclosed(p: PendingActionV) -> bool {
    &&& p.alpha is Some && canonical_scalar(p.alpha->Some_0)
    &&& p.spend_value is Some
    &&& p.out_value is Some
    &&& p.out_recipient is Some
    &&& p.out_rseed is Some
    &&& p.rcv is Some && canonical_scalar(p.rcv->Some_0)
    &&& note_valid(disclosed_note(p))
    &&& disclosed_note(p).commitment() == p.action.cmx
    &&& value_commit(p.spend_value->Some_0 - p.out_value->Some_0, p.rcv->Some_0) == p.action.cv_net
}

/// The spends stand at these positions, each under its key's randomization; the rest is
/// padding.
pub open spec fn pending_spends_at(
    actions: Seq<PendingActionV>,
    spends: Seq<SpendV>,
    at: Seq<int>,
) -> bool {
    &&& at.len() == spends.len()
    &&& distinct_below(at, actions.len())
    &&& forall|i: int|
        0 <= i < actions.len() ==> (#[trigger] actions[i]).padding == !at.contains(i)
    &&& forall|k: int|
        0 <= k < at.len() ==> {
            let p = actions[#[trigger] at[k]];
            &&& p.action.nullifier == spends[k].note.nullifier(spends[k].fvk)
            &&& p.spend_value == Some(spends[k].note.value)
            &&& p.action.rk == randomized_key(spends[k].fvk, p.alpha->Some_0)
        }
}

/// The outputs stand at these positions; the rest pays nothing.
pub open spec fn pending_outputs_at(
    actions: Seq<PendingActionV>,
    outputs: Seq<OutputV>,
    at: Seq<int>,
) -> bool {
    &&& at.len() == outputs.len()
    &&& distinct_below(at, actions.len())
    &&& forall|i: int|
        0 <= i < actions.len() && !at.contains(i) ==> (#[trigger] actions[i]).out_value == Some(
            0u64,
        )
    &&& forall|k: int|
        0 <= k < at.len() ==> {
            let p = actions[#[trigger] at[k]];
            &&& p.out_value == Some(outputs[k].value)
            &&& p.out_recipient == Some(outputs[k].recipient)
        }
}

/// The actions carry the plan out, wait for their signatures, and hide nothing.
pub open spec fn pends(actions: Seq<PendingActionV>, plan: PlanV) -> bool {
    &&& carries(shown(actions), plan)
    &&& forall|i: int|
        0 <= i < actions.len() ==> disclosed(#[trigger] actions[i]) && (actions[i].padding
            ==> actions[i].signable) && actions[i].signature is None
    &&& exists|at: Seq<int>| pending_spends_at(actions, plan.spends, at)
    &&& exists|at: Seq<int>| pending_outputs_at(actions, plan.outputs, at)
    &&& disclosed_spent(actions) - disclosed_paid(actions) == plan.balance()
}

/// Nothing about the bundle is hidden or contradicts itself: what is known of the actions is
/// what their commitments hold, it adds up to the balance, and the padding's keys are its own.
pub open spec fn sound(p: PendingV) -> bool {
    &&& forall|i: int|
        0 <= i < p.actions.len() ==> disclosed(#[trigger] p.actions[i]) && (p.actions[i].padding
            ==> p.actions[i].signable)
    &&& disclosed_spent(p.actions) - disclosed_paid(p.actions) == p.balance
}

/// Nothing is missing but the binding signature and those of the padding: the proof has its
/// one length, and every spend a signature that verifies.
pub open spec fn complete(p: PendingV, message: Seq<u8>) -> bool {
    &&& p.actions.len() > 0
    &&& i64::MIN <= p.balance <= i64::MAX
    &&& p.proof_bytes is Some && p.proof_bytes->Some_0.len() == 2720 + 2272 * p.actions.len()
    &&& forall|i: int|
        0 <= i < p.actions.len() ==> {
            let a = #[trigger] p.actions[i];
            &&& action_fault(a.action) is None
            &&& a.padding || (a.signature is Some && spend_auth_verifies(
                a.action.rk,
                message,
                a.signature->Some_0,
            ))
        }
}

/// `Builder::build_for_pczt` with the operating system's randomness: the bundle that carries
/// the builder's plan out, without a proof and without signatures. Where each side's total
/// fits in 64 bits the builder refuses nothing. Padding has keys of its own. Padding, order
/// and blinding are random.
#[verifier::external_body]
pub(crate) fn build_pending(b: Builder) -> (r: Result<pczt::Bundle, BuildError>)
    ensures
        within_64_bits(builder_plan(b)) ==> r is Ok,
        r matches Err(e) ==> e is Builder,
        r matches Ok(p) ==> {
            &&& pends(pending_actions(p), builder_plan(b))
            &&& pending_balance(p) == builder_plan(b).balance()
            &&& pending_anchor(p) == builder_plan(b).anchor
            &&& pending_plan(p) == builder_plan(b)
            &&& pending_proof(p) is None
        },
{
    match b.build_for_pczt(OsRng) {
        Ok((pending, _)) => Ok(pending),
        Err(e) => Err(BuildError::Builder(format!("{e:?}"))),
    }
}

/// `pczt::Bundle::create_proof` with the operating system's randomness, on a bundle that the
/// builder made: puts the proof in place, which verifies, and changes nothing else. It may
/// fail, and nothing is said of when; a failure changes nothing.
#[verifier::external_body]
pub(crate) fn prove_pending(b: &mut pczt::Bundle, pk: &ActionProvingKey) -> (r: Result<
    (),
    BuildError,
>)
    requires
        pending_actions(*old(b)).len() > 0,
        carries(shown(pending_actions(*old(b))), pending_plan(*old(b))),
        pending_plan(*old(b)).spendable(),
        pending_anchor(*old(b)) == pending_plan(*old(b)).anchor,
    ensures
        r matches Err(e) ==> e is Proof && pending_view(*final(b)) == pending_view(*old(b)),
        r is Ok ==> pending_view(*final(b)) == (PendingV {
            proof_bytes: pending_proof(*final(b)),
            ..pending_view(*old(b))
        }),
        r is Ok ==> pending_proof(*final(b)) is Some && proves(
            pending_proof(*final(b))->Some_0,
            pending_anchor(*old(b)),
            shown(pending_actions(*old(b))),
        ),
{
    b.create_proof(&pk.key, OsRng).map_err(|e| BuildError::Proof(format!("{e:?}")))
}

/// The parts of a pending bundle's effects are these.
pub open spec fn effect_parts(
    effects: BundleV,
    actions: Seq<ActionWire>,
    flags: u8,
    value_balance: i64,
    anchor: Seq<u8>,
) -> bool {
    &&& effects.actions == action_views(actions)
    &&& effects.flags == flags
    &&& effects.value_balance == value_balance
    &&& effects.anchor == anchor
}

/// `pczt::Bundle::extract_effects`: what the bundle shows, as its actions, flags, balance
/// and anchor; nothing where it has no actions, and an error where the balance is no `i64`.
#[verifier::external_body]
pub(crate) fn pending_effects(b: &pczt::Bundle) -> (r: Result<
    Option<(Vec<ActionWire>, u8, i64, [u8; 32])>,
    BuildError,
>)
    requires
        forall|i: int|
            0 <= i < pending_actions(*b).len() ==> action_fault(
                (#[trigger] pending_actions(*b)[i]).action,
            ) is None,
    ensures
        match r {
            Ok(None) => pending_actions(*b).len() == 0,
            Ok(Some((actions, flags, value_balance, anchor))) => {
                &&& pending_actions(*b).len() > 0
                &&& i64::MIN <= pending_balance(*b) <= i64::MAX
                &&& effect_parts(
                    pending_view(*b).effects(),
                    actions@,
                    flags,
                    value_balance,
                    anchor@,
                )
            },
            Err(e) => e is Proof && pending_actions(*b).len() > 0 && !(i64::MIN <= pending_balance(
                *b,
            ) <= i64::MAX),
        },
{
    let b = b.extract_effects::<i64>().map_err(|e| BuildError::Proof(format!("{e:?}")))?;
    Ok(b.map(|b| (b.actions().iter().map(|a| ActionWire {
        nullifier: a.nullifier().to_bytes(),
        rk: a.rk().into(),
        cmx: a.cmx().to_bytes(),
        cv_net: a.cv_net().to_bytes(),
        ephemeral_key: a.encrypted_note().epk_bytes,
        enc_ciphertext: a.encrypted_note().enc_ciphertext,
        out_ciphertext: a.encrypted_note().out_ciphertext,
        spend_auth_sig: [0u8; 64],
    }).collect(), b.flags().to_byte(), *b.value_balance(), b.anchor().to_bytes())))
}

/// The bytes of an optional array.
pub open spec fn opt32(b: Option<[u8; 32]>) -> Option<Seq<u8>> {
    match b {
        Some(b) => Some(b@),
        None => None,
    }
}

/// The bytes of an optional address.
pub open spec fn opt43(b: Option<[u8; 43]>) -> Option<Seq<u8>> {
    match b {
        Some(b) => Some(b@),
        None => None,
    }
}

/// The accessors of `pczt::Spend`: whether the spend is padding, its randomizer and its
/// value.
#[verifier::external_body]
pub(crate) fn pending_spend(b: &pczt::Bundle, i: usize) -> (r: (
    bool,
    Option<[u8; 32]>,
    Option<u64>,
))
    requires
        i < pending_actions(*b).len(),
    ensures
        r.0 == pending_actions(*b)[i as int].padding,
        opt32(r.1) == pending_actions(*b)[i as int].alpha,
        r.2 == pending_actions(*b)[i as int].spend_value,
{
    let spend = b.actions()[i].spend();
    let alpha = spend.alpha().as_ref().map(|a| a.to_repr());
    (spend.dummy_sk().is_some(), alpha, spend.value().as_ref().map(|v| v.inner()))
}

/// The accessors of `pczt::Output` and of `pczt::Action`'s trapdoor: the created note's
/// value, recipient and random seed, and the trapdoor of the value commitment.
#[verifier::external_body]
pub(crate) fn pending_output(b: &pczt::Bundle, i: usize) -> (r: (
    Option<u64>,
    Option<[u8; 43]>,
    Option<[u8; 32]>,
    Option<[u8; 32]>,
))
    requires
        i < pending_actions(*b).len(),
    ensures
        r.0 == pending_actions(*b)[i as int].out_value,
        opt43(r.1) == pending_actions(*b)[i as int].out_recipient,
        opt32(r.2) == pending_actions(*b)[i as int].out_rseed,
        opt32(r.3) == pending_actions(*b)[i as int].rcv,
{
    let out = b.actions()[i].output();
    let recipient = out.recipient().as_ref().map(|a| a.to_raw_address_bytes());
    let rseed = out.rseed().as_ref().map(|s| *s.as_bytes());
    let rcv = b.actions()[i].rcv().as_ref().map(|t| t.to_bytes());
    (out.value().as_ref().map(|v| v.inner()), recipient, rseed, rcv)
}

/// `pczt::Action::sign` of a padding spend with its own key and the operating system's
/// randomness: a signature that verifies under the action's randomized key. It fails just
/// where the key, randomized, is not the one that the action shows; a failure changes nothing.
#[verifier::external_body]
pub(crate) fn sign_padding(b: &mut pczt::Bundle, i: usize, message: &[u8; 32]) -> (r: Result<
    (),
    BuildError,
>)
    requires
        i < pending_actions(*old(b)).len(),
        pending_actions(*old(b))[i as int].padding,
        pending_actions(*old(b))[i as int].alpha is Some,
    ensures
        r is Ok <==> pending_actions(*old(b))[i as int].signable,
        r matches Err(e) ==> e is Proof && pending_view(*final(b)) == pending_view(*old(b)),
        r is Ok ==> exists|sig: Seq<u8>|
            pending_view(*final(b)) == pending_view(*old(b)).with_signature(i as int, sig)
                && #[trigger] spend_auth_verifies(
                pending_actions(*old(b))[i as int].action.rk,
                message@,
                sig,
            ),
{
    let action = &mut b.actions_mut()[i];
    let ask = SpendAuthorizingKey::from(action.spend().dummy_sk().as_ref().unwrap());
    action.sign(*message, &ask, OsRng).map_err(|e| BuildError::Proof(format!("{e:?}")))
}

/// `pczt::Action::apply_signature`: takes the signature where it verifies under the action's
/// randomized key; else refuses it and changes nothing.
#[verifier::external_body]
pub(crate) fn apply_spend_auth(
    b: &mut pczt::Bundle,
    i: usize,
    message: &[u8; 32],
    sig: &[u8; 64],
) -> (r: Result<(), BuildError>)
    requires
        i < pending_actions(*old(b)).len(),
    ensures
        r is Ok <==> spend_auth_verifies(
            pending_actions(*old(b))[i as int].action.rk,
            message@,
            sig@,
        ),
        r is Ok ==> pending_view(*final(b)) == pending_view(*old(b)).with_signature(i as int, sig@),
        r matches Err(e) ==> e is Proof && pending_view(*final(b)) == pending_view(*old(b)),
{
    let sig = Signature::<SpendAuth>::from(*sig);
    let applied = b.actions_mut()[i].apply_signature(*message, sig);
    applied.map_err(|e| BuildError::Proof(format!("{e:?}")))
}

/// `pczt::Bundle::finalize_io`, `extract` and `apply_binding_signature` with the operating
/// system's randomness: signs the padding, and gives the signature of each action, the proof
/// and the binding signature. All signatures verify, that of an action which is no padding is
/// the one that it waited with. It fails where such an action waits without one, and succeeds
/// where the bundle is sound and complete; there is nothing where there are no actions.
#[verifier::external_body]
pub(crate) fn finish_pending(b: pczt::Bundle, message: &[u8; 32]) -> (r: Result<
    Option<(Vec<[u8; 64]>, Vec<u8>, [u8; 64])>,
    BuildError,
>)
    ensures
        match r {
            Err(e) => e is Proof,
            Ok(None) => pending_actions(b).len() == 0,
            Ok(Some((sigs, proof_bytes, binding))) => {
                &&& sigs@.len() == pending_actions(b).len()
                &&& forall|i: int|
                    0 <= i < sigs@.len() ==> {
                        let p = pending_actions(b)[i];
                        &&& spend_auth_verifies(p.action.rk, message@, (#[trigger] sigs@[i])@)
                        &&& !p.padding ==> p.signature == Some(sigs@[i]@)
                    }
                &&& pending_proof(b) == Some(proof_bytes@)
                &&& binding_verifies(binding_key(pending_view(b).effects()), message@, binding@)
            },
        },
        sound(pending_view(b)) && complete(pending_view(b), message@) ==> r is Ok
            && r->Ok_0 is Some,
{
    let mut b = b;
    b.finalize_io(*message, OsRng).map_err(|e| BuildError::Proof(format!("{e:?}")))?;
    let unbound = b.extract::<i64>().map_err(|e| BuildError::Proof(format!("{e:?}")))?;
    let Some(unbound) = unbound else { return Ok(None) };
    let bound = unbound.apply_binding_signature(*message, OsRng);
    let bound = bound.ok_or_else(|| BuildError::Proof("binding".into()))?;
    let sigs = bound.actions().iter().map(|a| a.authorization().into()).collect();
    let proof = bound.authorization().proof().as_ref().to_vec();
    Ok(Some((sigs, proof, bound.authorization().binding_signature().into())))
}

} // verus!
