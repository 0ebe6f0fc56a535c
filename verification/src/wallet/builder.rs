//! The outside bundle builder, its proof and its signatures.

use crate::bundle::{ActionV, ActionWire, BundleV, ShieldedBundle};
use crate::bytes::views32;
use crate::field::canonical_base;
use crate::keys::{address_of_fvk, fvk_of_seed, orchard_address, owned_address, viewing_key};
use crate::note::{note_valid, NoteV};
use crate::tree::all_canonical;
use crate::verify::{
    binding_key, binding_verifies, proof_verifies, public_inputs, spend_auth_verifies,
};
use crate::wallet::plan::{
    carries, paid_total, spent_total, OutputV, PlanV, SpendV,
};
use crate::witness::{path_root, PathV};
use orchard::builder::{Builder, BundleType, InProgress, Unauthorized};
use orchard::keys::{FullViewingKey, Scope, SpendAuthorizingKey, SpendingKey};
use orchard::note::{RandomSeed, Rho};
use orchard::tree::{Anchor, MerkleHashOrchard, MerklePath};
use orchard::value::NoteValue;
use orchard::{Address, Note};
use rand::rngs::OsRng;
use vstd::prelude::*;

verus! {

/// Errors building a shielded bundle.
#[derive(Debug)]
pub enum BuildError {
    /// The bundle builder refused a part, or the value balance.
    Builder(String),
    /// Creating the proof or a signature failed.
    Proof(String),
    /// There is nothing to build: no input, no such key or address, or too little value.
    Empty,
}

#[verifier::external_type_specification]
#[verifier::external_body]
pub struct ExBuilder(orchard::builder::Builder);

#[verifier::external_type_specification]
#[verifier::external_body]
pub struct ExProvingKey(orchard::circuit::ProvingKey);

/// The actions of a bundle with its proof, and without signatures: an `orchard::Bundle`.
#[verifier::external_body]
pub struct ProvenBundle {
    inner: orchard::Bundle<InProgress<orchard::Proof, Unauthorized>, i64>,
}

/// The proving key of the current action circuit. There is one such key; building it is
/// expensive.
pub struct ActionProvingKey {
    pub(crate) key: orchard::circuit::ProvingKey,
}

/// The anchor that a builder was made with.
pub uninterp spec fn builder_anchor(b: Builder) -> Seq<u8>;

/// The spends that a builder holds, in the order in which they were added.
pub uninterp spec fn builder_spends(b: Builder) -> Seq<SpendV>;

/// The outputs that a builder holds, in the order in which they were added.
pub uninterp spec fn builder_outputs(b: Builder) -> Seq<OutputV>;

/// The actions of a proven bundle, each with 64 zero bytes for its signature.
pub uninterp spec fn proven_actions(b: ProvenBundle) -> Seq<ActionV>;

/// The value balance of a proven bundle.
pub uninterp spec fn proven_balance(b: ProvenBundle) -> i64;

/// The anchor of a proven bundle.
pub uninterp spec fn proven_anchor(b: ProvenBundle) -> Seq<u8>;

/// The proof of a proven bundle.
pub uninterp spec fn proven_proof(b: ProvenBundle) -> Seq<u8>;

/// The plan that a proven bundle was built from.
pub uninterp spec fn proven_plan(b: ProvenBundle) -> PlanV;

/// The plan that a builder holds.
pub open spec fn builder_plan(b: Builder) -> PlanV {
    PlanV {
        anchor: builder_anchor(b),
        spends: builder_spends(b),
        outputs: builder_outputs(b),
    }
}

/// What is spent and what is paid each fit in 64 bits.
pub open spec fn within_64_bits(plan: PlanV) -> bool {
    spent_total(plan.spends) <= u64::MAX && paid_total(plan.outputs) <= u64::MAX
}

/// The note with these parts.
pub open spec fn note_view(recipient: &[u8; 43], value: u64, rho: &[u8; 32], rseed: &[u8; 32]) -> NoteV {
    NoteV { recipient: recipient@, value, rho: rho@, rseed: rseed@ }
}

/// A signature that is not there yet.
pub open spec fn no_signature() -> Seq<u8> {
    Seq::new(64, |i: int| 0u8)
}

/// What a proven bundle shows, without its proof and signatures.
pub open spec fn proven_view(b: ProvenBundle) -> BundleV {
    BundleV {
        actions: proven_actions(b),
        flags: 3,
        value_balance: proven_balance(b),
        anchor: proven_anchor(b),
        proof: Seq::empty(),
        binding_sig: no_signature(),
    }
}

/// A proof for these actions at this anchor, with both flags set: it has the one length
/// that such a proof has, and verifies.
pub open spec fn proves(proof: Seq<u8>, anchor: Seq<u8>, actions: Seq<ActionV>) -> bool {
    &&& proof.len() == 2720 + 2272 * actions.len()
    &&& proof_verifies(proof, anchor, true, true, public_inputs(actions))
}

/// The proven bundle carries the plan out that it was built from, and its proof is good.
pub open spec fn well_proven(b: ProvenBundle) -> bool {
    &&& carries(proven_actions(b), proven_plan(b))
    &&& proven_actions(b).len() > 0
    &&& proven_balance(b) == proven_plan(b).balance()
    &&& proven_anchor(b) == proven_plan(b).anchor
    &&& canonical_base(proven_anchor(b))
    &&& proves(proven_proof(b), proven_anchor(b), proven_actions(b))
}

/// The seed has the spend authority over every spend of the plan. Without a seed there is
/// nothing to authorize.
pub open spec fn authority_over(seed: Option<Seq<u8>>, plan: PlanV) -> bool {
    forall|k: int|
        0 <= k < plan.spends.len() ==> (seed matches Some(s) && fvk_of_seed(s) == Some(
            (#[trigger] plan.spends[k]).fvk,
        ))
}

/// What an optional seed holds.
pub open spec fn seed_view(seed: Option<&[u8; 32]>) -> Option<Seq<u8>> {
    match seed {
        Some(s) => Some(s@),
        None => None,
    }
}

/// `orchard::circuit::ProvingKey::build`: the key of the current circuit. Nothing is said
/// of it here.
#[verifier::external_body]
pub(crate) fn build_proving_key() -> (pk: ActionProvingKey) {
    ActionProvingKey { key: orchard::circuit::ProvingKey::build() }
}

/// `Builder::new` for the default bundle type: a builder at this anchor that holds nothing.
#[verifier::external_body]
pub(crate) fn builder_new(anchor: &[u8; 32]) -> (b: Builder)
    requires
        canonical_base(anchor@),
    ensures
        builder_anchor(b) == anchor@,
        builder_spends(b) == Seq::<SpendV>::empty(),
        builder_outputs(b) == Seq::<OutputV>::empty(),
{
    Builder::new(BundleType::DEFAULT, Anchor::from_bytes(*anchor).unwrap())
}

/// `Builder::add_spend`: adds the spend where the key owns the note's address in one of its
/// scopes, as `FullViewingKey::scope_for_address` finds it, and the path leads from the
/// note's commitment to the builder's anchor or the note is worth nothing. Else it refuses
/// and leaves the builder as it was. A key owns its own default address.
#[verifier::external_body]
pub(crate) fn builder_add_spend(
    b: &mut Builder,
    fvk: &[u8; 96],
    recipient: &[u8; 43],
    value: u64,
    rho: &[u8; 32],
    rseed: &[u8; 32],
    position: u32,
    path: &Vec<[u8; 32]>,
) -> (r: Result<(), BuildError>)
    requires
        viewing_key(fvk@),
        note_valid(note_view(recipient, value, rho, rseed)),
        path@.len() == 32,
        all_canonical(views32(path@)),
    ensures
        r is Ok <==> owned_address(fvk@, recipient@) && (value == 0 || path_root(
            position,
            views32(path@),
            note_view(recipient, value, rho, rseed).commitment(),
        ) == builder_anchor(*old(b))),
        recipient@ == address_of_fvk(fvk@) && (value == 0 || path_root(
            position,
            views32(path@),
            note_view(recipient, value, rho, rseed).commitment(),
        ) == builder_anchor(*old(b))) ==> r is Ok,
        r matches Err(e) ==> e is Builder,
        builder_anchor(*final(b)) == builder_anchor(*old(b)),
        builder_outputs(*final(b)) == builder_outputs(*old(b)),
        r is Err ==> builder_spends(*final(b)) == builder_spends(*old(b)),
        r is Ok ==> builder_spends(*final(b)) == builder_spends(*old(b)).push(
            SpendV {
                fvk: fvk@,
                note: note_view(recipient, value, rho, rseed),
                path: PathV { position, path: views32(path@) },
            },
        ),
{
    let fvk = FullViewingKey::from_bytes(fvk).unwrap();
    let rho = Rho::from_bytes(rho).unwrap();
    let rseed = RandomSeed::from_bytes(*rseed, &rho).unwrap();
    let to = Address::from_raw_address_bytes(recipient).unwrap();
    let note = Note::from_parts(to, NoteValue::from_raw(value), rho, rseed).unwrap();
    let path: Vec<_> = path.iter().map(|e| MerkleHashOrchard::from_bytes(e).unwrap()).collect();
    let path = MerklePath::from_parts(position, path.try_into().unwrap());
    b.add_spend(fvk, note, path).map_err(|e| BuildError::Builder(format!("{e:?}")))
}

/// `Builder::add_output`: adds the output, encrypted to the sender's external outgoing key
/// too where a sender is given. The default bundle type refuses no output.
#[verifier::external_body]
pub(crate) fn builder_add_output(
    b: &mut Builder,
    sender: Option<&[u8; 96]>,
    recipient: &[u8; 43],
    value: u64,
    memo: &[u8; 512],
)
    requires
        sender matches Some(fvk) ==> viewing_key(fvk@),
        orchard_address(recipient@),
    ensures
        builder_anchor(*final(b)) == builder_anchor(*old(b)),
        builder_spends(*final(b)) == builder_spends(*old(b)),
        builder_outputs(*final(b)) == builder_outputs(*old(b)).push(
            OutputV {
                sender: match sender {
                    Some(fvk) => Some(fvk@),
                    None => None,
                },
                recipient: recipient@,
                value,
                memo: memo@,
            },
        ),
{
    let ovk = sender.map(|k| FullViewingKey::from_bytes(k).unwrap().to_ovk(Scope::External));
    let to = Address::from_raw_address_bytes(recipient).unwrap();
    b.add_output(ovk, to, NoteValue::from_raw(value), *memo).unwrap()
}

/// `Builder::build` and `Bundle::create_proof` with the operating system's randomness:
/// the bundle that carries the builder's plan out, with its proof. Where each side's total
/// fits in 64 bits the builder refuses just those plans whose balance is no `i64`; it makes
/// no bundle just where it holds nothing. Creating the proof may fail, and nothing is said
/// of when; a proof that it makes verifies, and the actions decode. Padding, order and
/// blinding are random.
#[verifier::external_body]
pub(crate) fn build_proven(b: Builder, pk: &ActionProvingKey) -> (r: Result<
    Option<ProvenBundle>,
    BuildError,
>)
    ensures
        (r matches Ok(None)) == (builder_plan(b).spends.len() == 0 && builder_plan(b).outputs.len()
            == 0),
        r matches Err(e) ==> !(e is Empty),
        within_64_bits(builder_plan(b)) ==> (r matches Err(BuildError::Builder(_)))
            == !builder_plan(b).representable(),
        r matches Ok(Some(p)) ==> {
            &&& proven_plan(p) == builder_plan(b)
            &&& carries(proven_actions(p), builder_plan(b))
            &&& proven_balance(p) == builder_plan(b).balance()
            &&& proven_anchor(p) == builder_plan(b).anchor
            &&& proves(proven_proof(p), proven_anchor(p), proven_actions(p))
        },
{
    match b.build::<i64>(OsRng).map_err(|e| BuildError::Builder(format!("{e:?}")))? {
        Some((bundle, _)) => match bundle.create_proof(&pk.key, OsRng) {
            Ok(inner) => Ok(Some(ProvenBundle { inner })),
            Err(e) => Err(BuildError::Proof(format!("{e:?}"))),
        },
        None => Ok(None),
    }
}

/// What a proven bundle shows, by the accessors of `orchard::Bundle` and
/// `orchard::Action`, with empty authorizing fields.
#[verifier::external_body]
pub(crate) fn proven_effects(b: &ProvenBundle) -> (r: ShieldedBundle)
    ensures
        r@ == proven_view(*b),
{
    let b = &b.inner;
    let actions = b.actions().iter().map(|a| ActionWire {
        nullifier: a.nullifier().to_bytes(),
        rk: a.rk().into(),
        cmx: a.cmx().to_bytes(),
        cv_net: a.cv_net().to_bytes(),
        ephemeral_key: a.encrypted_note().epk_bytes,
        enc_ciphertext: a.encrypted_note().enc_ciphertext,
        out_ciphertext: a.encrypted_note().out_ciphertext,
        spend_auth_sig: [0u8; 64],
    }).collect();
    let (flags, value_balance) = (b.flags().to_byte(), *b.value_balance());
    let (anchor, proof) = (b.anchor().to_bytes(), Vec::new());
    ShieldedBundle { actions, flags, value_balance, anchor, proof, binding_sig: [0u8; 64] }
}

/// `Bundle::apply_signatures` with the spend authority of a seed, where one is given, and
/// the operating system's randomness: a signature for each action that verifies under its
/// randomized key, the bundle's proof, and a binding signature that verifies under the
/// bundle's binding key. Padding is signed with its own keys, so it succeeds where every
/// spend of the plan is the seed's.
#[verifier::external_body]
pub(crate) fn sign_proven(b: ProvenBundle, seed: Option<&[u8; 32]>, message: &[u8; 32]) -> (r:
    Result<(Vec<[u8; 64]>, Vec<u8>, [u8; 64]), BuildError>)
    requires
        seed matches Some(s) ==> fvk_of_seed(s@) is Some,
    ensures
        r matches Err(e) ==> e is Proof,
        authority_over(seed_view(seed), proven_plan(b)) ==> r is Ok,
        r matches Ok((sigs, proof, binding)) ==> {
            &&& sigs@.len() == proven_actions(b).len()
            &&& forall|i: int|
                0 <= i < sigs@.len() ==> spend_auth_verifies(
                    proven_actions(b)[i].rk,
                    message@,
                    (#[trigger] sigs@[i])@,
                )
            &&& proof@ == proven_proof(b)
            &&& binding_verifies(binding_key(proven_view(b)), message@, binding@)
        },
{
    let keys: Vec<SpendAuthorizingKey> = seed.iter().map(|s| {
        SpendAuthorizingKey::from(&SpendingKey::from_bytes(**s).unwrap())
    }).collect();
    let signed = b.inner.apply_signatures(OsRng, *message, &keys);
    let signed = signed.map_err(|e| BuildError::Proof(format!("{e:?}")))?;
    let sigs = signed.actions().iter().map(|a| a.authorization().into()).collect();
    let proof = signed.authorization().proof().as_ref().to_vec();
    Ok((sigs, proof, signed.authorization().binding_signature().into()))
}

} // verus!
