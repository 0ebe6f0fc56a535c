//! Cryptographic verification of a shielded bundle.
//!
//! A bundle is sound where three checks pass: its binding signature verifies under the
//! key that its value commitments and its public value balance determine, so it balances;
//! its proof verifies against the public inputs of its actions; and every action's
//! spend-authorization signature verifies under its randomized key. Before any of that,
//! every field must be canonically encoded, and the randomized keys and ephemeral keys
//! must not be the identity.

use crate::bundle::{action_views, ActionV, ActionWire, BundleV, ShieldedBundle};
use crate::bytes::{
    i64_bits, i64_to_bits, le_bytes, lemma_concat_injective, lemma_i64_bits, lemma_le_bytes_len,
    lemma_le_value_of_bytes, lemma_pow256, low_u32, push_all, push_le, same,
};
use crate::field::{canonical_base, canonical_scalar, Anchor, ExtractedNoteCommitment, Nullifier};
use crate::hash::{blake2b, blake2b_256};
use crate::turnstile::{commit, lemma_zero_scalar, opening_sum, zero_scalar, zero_trapdoor};
use crate::value::{
    is_identity, lemma_scalar_sum_canonical, pallas_point, point_decodes, point_difference,
    point_sum, scalar_difference, scalar_sum, scalars_add_up, value_commit, ValueCommitment,
};
use orchard::circuit::Instance;
use orchard::primitives::redpallas::{Binding, Signature, SpendAuth, VerificationKey};
use vstd::prelude::*;

verus! {

/// Why a shielded bundle failed cryptographic verification.
#[derive(Debug, Clone, PartialEq, Eq)]
pub enum BundleVerifyError {
    /// The bundle carries no actions.
    NoActions,
    /// A field was not a canonical encoding of its type.
    NonCanonicalField(&'static str),
    /// An action's randomized key is the identity point.
    IdentityRk,
    /// An action's ephemeral key is the identity point.
    IdentityEpk,
    /// The flags byte has bits set outside the two defined flags.
    NonCanonicalFlags,
    /// The proof does not have the length for this number of actions.
    BadProofLength { expected: usize, got: usize },
    /// The proof did not verify.
    ProofInvalid,
    /// The binding signature did not verify: the bundle does not balance.
    BindingSigInvalid,
    /// An action's spend-authorization signature did not verify.
    SpendAuthSigInvalid(usize),
}

/// A [`BundleVerifyError`], with the name of a field as its characters.
pub enum FaultV {
    NoActions,
    NonCanonicalField(Seq<char>),
    IdentityRk,
    IdentityEpk,
    NonCanonicalFlags,
    BadProofLength { expected: int, got: int },
    ProofInvalid,
    BindingSigInvalid,
    SpendAuthSigInvalid(int),
}

impl View for BundleVerifyError {
    type V = FaultV;

    open spec fn view(&self) -> FaultV {
        match *self {
            BundleVerifyError::NoActions => FaultV::NoActions,
            BundleVerifyError::NonCanonicalField(name) => FaultV::NonCanonicalField(name@),
            BundleVerifyError::IdentityRk => FaultV::IdentityRk,
            BundleVerifyError::IdentityEpk => FaultV::IdentityEpk,
            BundleVerifyError::NonCanonicalFlags => FaultV::NonCanonicalFlags,
            BundleVerifyError::BadProofLength { expected, got } => FaultV::BadProofLength {
                expected: expected as int,
                got: got as int,
            },
            BundleVerifyError::ProofInvalid => FaultV::ProofInvalid,
            BundleVerifyError::BindingSigInvalid => FaultV::BindingSigInvalid,
            BundleVerifyError::SpendAuthSigInvalid(i) => FaultV::SpendAuthSigInvalid(i as int),
        }
    }
}

/// A verdict, seen through the view of the error.
pub open spec fn verdict_view(r: Result<(), BundleVerifyError>) -> Result<(), FaultV> {
    match r {
        Ok(()) => Ok(()),
        Err(e) => Err(e@),
    }
}

// ---------------------------------------------------------------------------
// The message that the signatures commit to.

/// Personalization of the sighash.
pub open spec fn sighash_personal() -> Seq<u8> {
    seq![
        0x6bu8, 0x61, 0x73, 0x70, 0x72, 0x69, 0x76, 0x61, 0x74, 0x65, 0x5f, 0x73, 0x69, 0x67, 0x68,
        0x31,
    ]
}

/// The effects of an action: all of it but its signature.
pub open spec fn action_effects(a: ActionV) -> Seq<u8> {
    a.nullifier + a.rk + a.cmx + a.cv_net + a.ephemeral_key + a.enc_ciphertext + a.out_ciphertext
}

/// The effects of a list of actions.
pub open spec fn actions_effects(actions: Seq<ActionV>) -> Seq<u8>
    decreases actions.len(),
{
    if actions.len() == 0 {
        Seq::empty()
    } else {
        actions_effects(actions.drop_last()) + action_effects(actions.last())
    }
}

/// The effects of a bundle in its context: everything but the proof and the signatures,
/// and behind it the context with its length.
pub open spec fn bundle_effects(b: BundleV, context: Seq<u8>) -> Seq<u8> {
    seq![b.flags] + le_bytes(i64_bits(b.value_balance), 8) + b.anchor + le_bytes(
        (b.actions.len() % 0x1_0000_0000) as nat,
        4,
    ) + actions_effects(b.actions) + le_bytes((context.len() % 0x1_0000_0000) as nat, 4) + context
}

/// The sighash of a bundle in a context.
pub open spec fn sighash_of(b: BundleV, context: Seq<u8>) -> Seq<u8> {
    blake2b(sighash_personal(), 32, bundle_effects(b, context))
}

/// The message that a bundle's spend-authorization and binding signatures commit to: a
/// digest of its effects, bound to the enclosing transaction by `tx_context`.
pub fn sighash(bundle: &ShieldedBundle, tx_context: &[u8]) -> (h: [u8; 32])
    ensures
        h@ == sighash_of(bundle@, tx_context@),
{
    let mut input: Vec<u8> = Vec::new();
    input.push(bundle.flags);
    push_le(&mut input, i64_to_bits(bundle.value_balance) as u128, 8);
    push_all(&mut input, &bundle.anchor);
    push_le(&mut input, low_u32(bundle.actions.len()) as u128, 4);
    let ghost head = input@;
    let ghost all = bundle@.actions;
    assert(head + actions_effects(all.take(0)) =~= head);
    let mut i: usize = 0;
    while i < bundle.actions.len()
        invariant
            0 <= i <= bundle.actions@.len(),
            all == action_views(bundle.actions@),
            input@ == head + actions_effects(all.take(i as int)),
        decreases bundle.actions@.len() - i,
    {
        let a: &ActionWire = &bundle.actions[i];
        push_all(&mut input, &a.nullifier);
        push_all(&mut input, &a.rk);
        push_all(&mut input, &a.cmx);
        push_all(&mut input, &a.cv_net);
        push_all(&mut input, &a.ephemeral_key);
        push_all(&mut input, &a.enc_ciphertext);
        push_all(&mut input, &a.out_ciphertext);
        proof {
            assert(all.take(i + 1).drop_last() =~= all.take(i as int));
            assert(all.take(i + 1).last() == a@);
            assert(input@ =~= head + actions_effects(all.take(i + 1)));
        }
        i = i + 1;
    }
    assert(all.take(i as int) =~= all);
    push_le(&mut input, low_u32(tx_context.len()) as u128, 4);
    push_all(&mut input, tx_context);
    let tag: [u8; 16] = [
        0x6b, 0x61, 0x73, 0x70, 0x72, 0x69, 0x76, 0x61, 0x74, 0x65, 0x5f, 0x73, 0x69, 0x67, 0x68,
        0x31,
    ];
    proof {
        assert(tag@ =~= sighash_personal());
        assert(input@ =~= bundle_effects(bundle@, tx_context@));
    }
    blake2b_256(&tag, input.as_slice())
}

/// The context of a transaction on one network: the network's domain and behind it the
/// transaction's own context.
pub open spec fn network_context(domain: Seq<u8>, context: Seq<u8>) -> Seq<u8> {
    domain + context
}

/// The sighash on one network, so that a bundle cannot be replayed on another.
pub fn network_sighash(bundle: &ShieldedBundle, network_domain: &[u8; 32], tx_context: &[u8]) -> (h:
    [u8; 32])
    ensures
        h@ == sighash_of(bundle@, network_context(network_domain@, tx_context@)),
{
    let mut context: Vec<u8> = Vec::new();
    push_all(&mut context, network_domain);
    push_all(&mut context, tx_context);
    assert(context@ =~= network_context(network_domain@, tx_context@));
    sighash(bundle, context.as_slice())
}

// ---------------------------------------------------------------------------
// The outside checks.

#[verifier::external_type_specification]
#[verifier::external_body]
pub struct ExVerifyingKey(orchard::circuit::VerifyingKey);

/// The verifying key of the current action circuit. There is one such key; building it
/// is expensive.
pub struct ActionVerifyingKey {
    key: orchard::circuit::VerifyingKey,
}

/// The public inputs of one action: value commitment, nullifier, randomized key and note
/// commitment.
pub open spec fn public_inputs(actions: Seq<ActionV>) -> Seq<(Seq<u8>, Seq<u8>, Seq<u8>, Seq<u8>)> {
    Seq::new(
        actions.len(),
        |i: int| (actions[i].cv_net, actions[i].nullifier, actions[i].rk, actions[i].cmx),
    )
}

/// The proof verifies for these public inputs, at this anchor and with these flags (spends
/// enabled, outputs enabled).
pub uninterp spec fn proof_verifies(
    proof: Seq<u8>,
    anchor: Seq<u8>,
    spends: bool,
    outputs: bool,
    inputs: Seq<(Seq<u8>, Seq<u8>, Seq<u8>, Seq<u8>)>,
) -> bool;

/// The signature verifies under a spend-authorization key.
pub uninterp spec fn spend_auth_verifies(key: Seq<u8>, message: Seq<u8>, sig: Seq<u8>) -> bool;

/// The signature verifies under a binding key.
pub uninterp spec fn binding_verifies(key: Seq<u8>, message: Seq<u8>, sig: Seq<u8>) -> bool;

/// `orchard::circuit::VerifyingKey::build`: the key of the current circuit. Nothing is
/// said of it here; what it verifies is named by [`proof_verifies`].
#[verifier::external_body]
fn build_verifying_key() -> (vk: ActionVerifyingKey) {
    ActionVerifyingKey { key: orchard::circuit::VerifyingKey::build() }
}

/// `Instance::from_parts` for each action, and `Proof::verify` under the one key of the
/// current circuit.
#[verifier::external_body]
fn check_proof(vk: &ActionVerifyingKey, bundle: &ShieldedBundle, spends: bool, outputs: bool) -> (r: bool)
    requires
        bundle@.actions.len() > 0,
        canonical_base(bundle@.anchor),
        forall|i: int|
            0 <= i < bundle@.actions.len() ==> action_fault(#[trigger] bundle@.actions[i]) is None,
    ensures
        r == proof_verifies(
            bundle.proof@,
            bundle.anchor@,
            spends,
            outputs,
            public_inputs(bundle@.actions),
        ),
{
    let anchor = orchard::Anchor::from_bytes(bundle.anchor).unwrap();
    let instances: Vec<Instance> = bundle.actions.iter().map(|a| {
        let cv = orchard::value::ValueCommitment::from_bytes(&a.cv_net).unwrap();
        let nf = orchard::note::Nullifier::from_bytes(&a.nullifier).unwrap();
        let rk = VerificationKey::try_from(a.rk).unwrap();
        let cmx = orchard::note::ExtractedNoteCommitment::from_bytes(&a.cmx).unwrap();
        Instance::from_parts(anchor, cv, nf, rk, cmx, spends, outputs).unwrap()
    }).collect();
    orchard::Proof::new(bundle.proof.clone()).verify(&vk.key, &instances).is_ok()
}

/// `Proof::expected_proof_size`: a fixed part and a fixed part for each action.
#[verifier::external_body]
fn expected_proof_size(actions: usize) -> (n: usize)
    requires
        2720 + 2272 * actions <= usize::MAX,
    ensures
        n == 2720 + 2272 * actions,
{
    orchard::Proof::expected_proof_size(actions)
}

/// `VerificationKey::<SpendAuth>::verify` under the key with this encoding.
#[verifier::external_body]
pub(crate) fn check_spend_auth(key: &[u8; 32], message: &[u8; 32], sig: &[u8; 64]) -> (r: bool)
    requires
        pallas_point(key@),
    ensures
        r == spend_auth_verifies(key@, message@, sig@),
{
    let key = VerificationKey::<SpendAuth>::try_from(*key).unwrap();
    key.verify(message, &Signature::from(*sig)).is_ok()
}

/// `VerificationKey::<Binding>::verify` under the key with this encoding.
#[verifier::external_body]
fn check_binding(key: &[u8; 32], message: &[u8; 32], sig: &[u8; 64]) -> (r: bool)
    requires
        pallas_point(key@),
    ensures
        r == binding_verifies(key@, message@, sig@),
{
    let key = VerificationKey::<Binding>::try_from(*key).unwrap();
    key.verify(message, &Signature::from(*sig)).is_ok()
}

/// The verifying key of the current action circuit. Building it is expensive: a caller
/// that verifies more than once keeps it.
pub fn verifying_key() -> (vk: ActionVerifyingKey) {
    build_verifying_key()
}

// ---------------------------------------------------------------------------
// The checks in order.

/// What is first wrong with the encoding of an action.
pub open spec fn action_fault(a: ActionV) -> Option<FaultV> {
    if !canonical_base(a.nullifier) {
        Some(FaultV::NonCanonicalField("nullifier"@))
    } else if !canonical_base(a.cmx) {
        Some(FaultV::NonCanonicalField("cmx"@))
    } else if !pallas_point(a.cv_net) {
        Some(FaultV::NonCanonicalField("cv_net"@))
    } else if !pallas_point(a.rk) {
        Some(FaultV::NonCanonicalField("rk"@))
    } else if is_identity(a.rk) {
        Some(FaultV::IdentityRk)
    } else if !pallas_point(a.ephemeral_key) {
        Some(FaultV::NonCanonicalField("epk"@))
    } else if is_identity(a.ephemeral_key) {
        Some(FaultV::IdentityEpk)
    } else {
        None
    }
}

/// The first fault among a list of actions.
pub open spec fn first_fault(actions: Seq<ActionV>) -> Option<FaultV>
    decreases actions.len(),
{
    if actions.len() == 0 {
        None
    } else {
        match first_fault(actions.drop_last()) {
            Some(f) => Some(f),
            None => action_fault(actions.last()),
        }
    }
}

/// What is first wrong with the encoding of a bundle.
pub open spec fn encoding_fault(b: BundleV) -> Option<FaultV> {
    if b.actions.len() == 0 {
        Some(FaultV::NoActions)
    } else if !canonical_base(b.anchor) {
        Some(FaultV::NonCanonicalField("anchor"@))
    } else if b.flags > 3 {
        Some(FaultV::NonCanonicalFlags)
    } else {
        match first_fault(b.actions) {
            Some(f) => Some(f),
            None => if b.proof.len() != 2720 + 2272 * b.actions.len() {
                Some(
                    FaultV::BadProofLength {
                        expected: (2720 + 2272 * b.actions.len()) as int,
                        got: b.proof.len() as int,
                    },
                )
            } else {
                None
            },
        }
    }
}

/// The sum of the actions' value commitments.
pub open spec fn commitments_sum(actions: Seq<ActionV>) -> Seq<u8>
    decreases actions.len(),
{
    if actions.len() <= 1 {
        actions[0].cv_net
    } else {
        point_sum(commitments_sum(actions.drop_last()), actions.last().cv_net)
    }
}

/// The binding validating key: the sum of the value commitments minus the commitment to
/// the public value balance without blinding.
pub open spec fn binding_key(b: BundleV) -> Seq<u8> {
    point_difference(
        commitments_sum(b.actions),
        value_commit(b.value_balance as int, zero_scalar()),
    )
}

/// The proof of the bundle verifies.
pub open spec fn proof_ok(b: BundleV) -> bool {
    proof_verifies(
        b.proof,
        b.anchor,
        b.flags % 2 == 1,
        b.flags / 2 % 2 == 1,
        public_inputs(b.actions),
    )
}

/// Whether each action's spend-authorization signature verifies.
pub open spec fn spend_auths(b: BundleV, message: Seq<u8>) -> Seq<bool> {
    Seq::new(
        b.actions.len(),
        |i: int| spend_auth_verifies(b.actions[i].rk, message, b.actions[i].spend_auth_sig),
    )
}

/// The verdict on a well-encoded bundle from what its proof and its signatures came to.
pub open spec fn crypto_verdict(proven: bool, binding: bool, spends: Seq<bool>) -> Result<
    (),
    FaultV,
> {
    if !proven {
        Err(FaultV::ProofInvalid)
    } else if !binding {
        Err(FaultV::BindingSigInvalid)
    } else if exists|i: int| first_false(spends, i) {
        Err(FaultV::SpendAuthSigInvalid(choose|i: int| first_false(spends, i)))
    } else {
        Ok(())
    }
}

/// `i` is the first position that does not hold.
pub open spec fn first_false(s: Seq<bool>, i: int) -> bool {
    &&& 0 <= i < s.len()
    &&& !s[i]
    &&& forall|j: int| 0 <= j < i ==> #[trigger] s[j]
}

/// The verdict on a bundle.
pub open spec fn bundle_verdict(b: BundleV, message: Seq<u8>) -> Result<(), FaultV> {
    match encoding_fault(b) {
        Some(f) => Err(f),
        None => crypto_verdict(
            proof_ok(b),
            binding_verifies(binding_key(b), message, b.binding_sig),
            spend_auths(b, message),
        ),
    }
}

/// Which fault an action has, given which of its fields decode.
pub fn action_check(
    nullifier: bool,
    cmx: bool,
    cv_net: bool,
    rk: bool,
    rk_identity: bool,
    epk: bool,
    epk_identity: bool,
) -> (r: Result<(), BundleVerifyError>)
    ensures
        verdict_view(r) == (if !nullifier {
            Err::<(), FaultV>(FaultV::NonCanonicalField("nullifier"@))
        } else if !cmx {
            Err(FaultV::NonCanonicalField("cmx"@))
        } else if !cv_net {
            Err(FaultV::NonCanonicalField("cv_net"@))
        } else if !rk {
            Err(FaultV::NonCanonicalField("rk"@))
        } else if rk_identity {
            Err(FaultV::IdentityRk)
        } else if !epk {
            Err(FaultV::NonCanonicalField("epk"@))
        } else if epk_identity {
            Err(FaultV::IdentityEpk)
        } else {
            Ok(())
        }),
{
    if !nullifier {
        Err(BundleVerifyError::NonCanonicalField("nullifier"))
    } else if !cmx {
        Err(BundleVerifyError::NonCanonicalField("cmx"))
    } else if !cv_net {
        Err(BundleVerifyError::NonCanonicalField("cv_net"))
    } else if !rk {
        Err(BundleVerifyError::NonCanonicalField("rk"))
    } else if rk_identity {
        Err(BundleVerifyError::IdentityRk)
    } else if !epk {
        Err(BundleVerifyError::NonCanonicalField("epk"))
    } else if epk_identity {
        Err(BundleVerifyError::IdentityEpk)
    } else {
        Ok(())
    }
}

/// Checks the encoding of an action.
pub(crate) fn check_action(a: &ActionWire) -> (r: Result<(), BundleVerifyError>)
    ensures
        verdict_view(r) == (match action_fault(a@) {
            Some(f) => Err::<(), FaultV>(f),
            None => Ok(()),
        }),
{
    let zero: [u8; 32] = [0u8; 32];
    assert(zero@ =~= Seq::new(32, |i: int| 0u8));
    action_check(
        Nullifier::from_bytes(&a.nullifier).is_some(),
        ExtractedNoteCommitment::from_bytes(&a.cmx).is_some(),
        ValueCommitment::from_bytes(&a.cv_net).is_some(),
        point_decodes(&a.rk),
        same(&a.rk, &zero),
        point_decodes(&a.ephemeral_key),
        same(&a.ephemeral_key, &zero),
    )
}

/// Checks that a bundle is canonically encoded.
pub fn check_encoding(bundle: &ShieldedBundle) -> (r: Result<(), BundleVerifyError>)
    requires
        2720 + 2272 * bundle@.actions.len() <= usize::MAX,
    ensures
        verdict_view(r) == (match encoding_fault(bundle@) {
            Some(f) => Err::<(), FaultV>(f),
            None => Ok(()),
        }),
{
    if bundle.actions.len() == 0 {
        return Err(BundleVerifyError::NoActions);
    }
    if Anchor::from_bytes(&bundle.anchor).is_none() {
        return Err(BundleVerifyError::NonCanonicalField("anchor"));
    }
    if bundle.flags > 3 {
        return Err(BundleVerifyError::NonCanonicalFlags);
    }
    let ghost all = bundle@.actions;
    let mut i: usize = 0;
    while i < bundle.actions.len()
        invariant
            0 <= i <= bundle.actions@.len(),
            all == action_views(bundle.actions@),
            bundle.actions@.len() > 0,
            canonical_base(bundle.anchor@),
            bundle.flags <= 3,
            first_fault(all.take(i as int)) is None,
        decreases bundle.actions@.len() - i,
    {
        proof {
            assert(all.take(i + 1).drop_last() =~= all.take(i as int));
            assert(all.take(i + 1).last() == bundle.actions@[i as int]@);
        }
        match check_action(&bundle.actions[i]) {
            Ok(()) => {},
            Err(e) => {
                proof {
                    lemma_first_fault_stays(all, i + 1);
                }
                return Err(e);
            },
        }
        i = i + 1;
    }
    assert(all.take(i as int) =~= all);
    let expected: usize = expected_proof_size(bundle.actions.len());
    if bundle.proof.len() != expected {
        return Err(BundleVerifyError::BadProofLength { expected, got: bundle.proof.len() });
    }
    Ok(())
}

proof fn lemma_first_fault_stays(actions: Seq<ActionV>, k: int)
    requires
        0 <= k <= actions.len(),
        first_fault(actions.take(k)) is Some,
    ensures
        first_fault(actions) == first_fault(actions.take(k)),
    decreases actions.len(),
{
    if k == actions.len() {
        assert(actions.take(k) =~= actions);
    } else {
        assert(actions.drop_last().take(k) =~= actions.take(k));
        lemma_first_fault_stays(actions.drop_last(), k);
    }
}

proof fn lemma_no_fault(actions: Seq<ActionV>, k: int)
    requires
        0 <= k < actions.len(),
        first_fault(actions) is None,
    ensures
        action_fault(actions[k]) is None,
    decreases actions.len(),
{
    if k < actions.len() - 1 {
        lemma_no_fault(actions.drop_last(), k);
    }
}

/// The verdict on a well-encoded bundle from what its proof and its signatures came to.
pub fn verification_verdict(proven: bool, binding: bool, spends: &[bool]) -> (r: Result<
    (),
    BundleVerifyError,
>)
    ensures
        verdict_view(r) == crypto_verdict(proven, binding, spends@),
{
    if !proven {
        return Err(BundleVerifyError::ProofInvalid);
    }
    if !binding {
        return Err(BundleVerifyError::BindingSigInvalid);
    }
    let mut i: usize = 0;
    while i < spends.len()
        invariant
            0 <= i <= spends@.len(),
            proven,
            binding,
            forall|j: int| 0 <= j < i ==> #[trigger] spends@[j],
        decreases spends@.len() - i,
    {
        if !spends[i] {
            proof {
                assert(first_false(spends@, i as int));
                let k = choose|k: int| first_false(spends@, k);
                assert(k == i) by {
                    if k < i {
                        assert(spends@[k]);
                    } else if i < k {
                        assert(spends@[i as int]);
                    }
                }
            }
            return Err(BundleVerifyError::SpendAuthSigInvalid(i));
        }
        i = i + 1;
    }
    Ok(())
}

/// The openings are those of the actions' value commitments: the value that each commits to,
/// and its blinding factor.
pub open spec fn opens(actions: Seq<ActionV>, openings: Seq<(int, Seq<u8>)>) -> bool {
    &&& openings.len() == actions.len()
    &&& forall|i: int|
        0 <= i < actions.len() ==> canonical_scalar((#[trigger] openings[i]).1) && actions[i].cv_net
            == value_commit(openings[i].0, openings[i].1)
}

/// The commitment to what the actions release beyond the public value balance, under the sum
/// of their blinding factors: a commitment to zero exactly where the bundle balances.
pub open spec fn imbalance_commitment(openings: Seq<(int, Seq<u8>)>, value_balance: i64) -> Seq<u8> {
    value_commit(opening_sum(openings).0 - value_balance, opening_sum(openings).1)
}

/// The verdict on a bundle whose value commitments open so.
pub open spec fn verdict_on_openings(
    b: BundleV,
    openings: Seq<(int, Seq<u8>)>,
    message: Seq<u8>,
) -> Result<(), FaultV> {
    match encoding_fault(b) {
        Some(f) => Err(f),
        None => crypto_verdict(
            proof_ok(b),
            binding_verifies(
                imbalance_commitment(openings, b.value_balance),
                message,
                b.binding_sig,
            ),
            spend_auths(b, message),
        ),
    }
}

/// The sum of one opening is that opening.
proof fn lemma_one_opening(openings: Seq<(int, Seq<u8>)>)
    requires
        openings.len() == 1,
        canonical_scalar(openings[0].1),
    ensures
        opening_sum(openings) == openings[0],
        canonical_scalar(opening_sum(openings).1),
{
    assert(openings.drop_last() =~= Seq::<(int, Seq<u8>)>::empty());
    assert(opening_sum(openings.drop_last()) == (0int, zero_scalar()));
    lemma_zero_scalar();
    scalars_add_up(openings[0].1, openings[0].1, zero_scalar());
}

/// The binding validating key of a well-encoded bundle: what its value commitments add up to,
/// less the commitment to its public value balance.
fn binding_validating_key(bundle: &ShieldedBundle) -> (key: [u8; 32])
    requires
        encoding_fault(bundle@) is None,
    ensures
        key@ == binding_key(bundle@),
        pallas_point(key@),
        forall|openings: Seq<(int, Seq<u8>)>| #[trigger]
            opens(bundle@.actions, openings) ==> key@ == imbalance_commitment(
                openings,
                bundle.value_balance,
            ),
{
    let ghost all = bundle@.actions;
    proof {
        assert forall|i: int| 0 <= i < all.len() implies action_fault(#[trigger] all[i]) is None by {
            lemma_no_fault(all, i);
        }
        assert(action_fault(all[0]) is None);
    }
    let mut cv_sum: ValueCommitment = ValueCommitment::from_bytes(&bundle.actions[0].cv_net).unwrap();
    proof {
        assert forall|o: Seq<(int, Seq<u8>)>| #[trigger] opens(all, o) implies cv_sum@
            == value_commit(opening_sum(o.take(1)).0, opening_sum(o.take(1)).1)
            && canonical_scalar(opening_sum(o.take(1)).1) by {
            assert(o.take(1)[0] == o[0]);
            lemma_one_opening(o.take(1));
        }
    }
    let mut i: usize = 1;
    while i < bundle.actions.len()
        invariant
            1 <= i <= bundle.actions@.len(),
            all == action_views(bundle.actions@),
            forall|i: int| 0 <= i < all.len() ==> action_fault(#[trigger] all[i]) is None,
            cv_sum@ == commitments_sum(all.take(i as int)),
            forall|o: Seq<(int, Seq<u8>)>| #[trigger]
                opens(all, o) ==> cv_sum@ == value_commit(
                    opening_sum(o.take(i as int)).0,
                    opening_sum(o.take(i as int)).1,
                ) && canonical_scalar(opening_sum(o.take(i as int)).1),
        decreases bundle.actions@.len() - i,
    {
        proof {
            assert(all.take(i + 1).drop_last() =~= all.take(i as int));
            assert(action_fault(all[i as int]) is None);
        }
        let ghost before = cv_sum@;
        let cv: ValueCommitment = ValueCommitment::from_bytes(&bundle.actions[i].cv_net).unwrap();
        cv_sum = cv_sum.add(&cv);
        proof {
            assert forall|o: Seq<(int, Seq<u8>)>| #[trigger] opens(all, o) implies cv_sum@
                == value_commit(opening_sum(o.take(i + 1)).0, opening_sum(o.take(i + 1)).1)
                && canonical_scalar(opening_sum(o.take(i + 1)).1) by {
                let front = opening_sum(o.take(i as int));
                assert(o.take(i + 1).drop_last() =~= o.take(i as int));
                assert(o.take(i + 1).last() == o[i as int]);
                assert(canonical_scalar(o[i as int].1));
                assert(before == value_commit(front.0, front.1));
                assert(cv@ == value_commit(o[i as int].0, o[i as int].1));
                lemma_scalar_sum_canonical(front.1, o[i as int].1);
            }
        }
        i = i + 1;
    }
    assert(all.take(i as int) =~= all);
    let balance: ValueCommitment = commit(bundle.value_balance, zero_trapdoor());
    let key: [u8; 32] = cv_sum.sub(&balance).to_bytes();
    proof {
        assert forall|o: Seq<(int, Seq<u8>)>| #[trigger] opens(all, o) implies key@
            == imbalance_commitment(o, bundle.value_balance) by {
            let sum = opening_sum(o);
            assert(o.take(i as int) =~= o);
            lemma_zero_scalar();
            scalars_add_up(sum.1, sum.1, zero_scalar());
            assert(cv_sum@ == value_commit(sum.0, sum.1));
        }
    }
    key
}

/// Points add up and are taken off as what they commit to.
pub open spec fn commitments_are_additive() -> bool {
    &&& forall|v: int, x: Seq<u8>, w: int, y: Seq<u8>|
        canonical_scalar(x) && canonical_scalar(y) ==> point_sum(
            #[trigger] value_commit(v, x),
            #[trigger] value_commit(w, y),
        ) == value_commit(v + w, scalar_sum(x, y))
    &&& forall|v: int, x: Seq<u8>, w: int, y: Seq<u8>|
        canonical_scalar(x) && canonical_scalar(y) ==> point_difference(
            #[trigger] value_commit(v, x),
            #[trigger] value_commit(w, y),
        ) == value_commit(v - w, scalar_difference(x, y))
}

proof fn lemma_commitments_sum(actions: Seq<ActionV>, openings: Seq<(int, Seq<u8>)>)
    requires
        commitments_are_additive(),
        opens(actions, openings),
        actions.len() > 0,
    ensures
        commitments_sum(actions) == value_commit(opening_sum(openings).0, opening_sum(openings).1),
        canonical_scalar(opening_sum(openings).1),
    decreases actions.len(),
{
    assert(canonical_scalar(openings[openings.len() - 1].1));
    if actions.len() == 1 {
        lemma_one_opening(openings);
    } else {
        let front = openings.drop_last();
        assert forall|i: int| 0 <= i < front.len() implies canonical_scalar((#[trigger] front[i]).1)
            && actions.drop_last()[i].cv_net == value_commit(front[i].0, front[i].1) by {
            assert(openings[i] == front[i]);
        }
        lemma_commitments_sum(actions.drop_last(), front);
        lemma_scalar_sum_canonical(opening_sum(front).1, openings.last().1);
    }
}

/// The binding key of a bundle commits to what its actions release beyond the public value
/// balance, under the sum of their blinding factors. Where the bundle balances it is a pure
/// commitment to zero, which whoever knows the blinding factors can sign for.
pub proof fn binding_keys_commit_to_the_imbalance(b: BundleV, openings: Seq<(int, Seq<u8>)>)
    requires
        commitments_are_additive(),
        b.actions.len() > 0,
        opens(b.actions, openings),
    ensures
        binding_key(b) == value_commit(
            opening_sum(openings).0 - b.value_balance,
            opening_sum(openings).1,
        ),
        opening_sum(openings).0 == b.value_balance ==> binding_key(b) == value_commit(
            0,
            opening_sum(openings).1,
        ),
{
    lemma_commitments_sum(b.actions, openings);
    lemma_zero_scalar();
    scalars_add_up(opening_sum(openings).1, opening_sum(openings).1, zero_scalar());
}

/// Verifies a bundle's full cryptography against `sighash`. It is sound where the
/// verdict is `Ok`.
pub fn verify_bundle(bundle: &ShieldedBundle, sighash: &[u8; 32]) -> (r: Result<
    (),
    BundleVerifyError,
>)
    requires
        2720 + 2272 * bundle@.actions.len() <= usize::MAX,
    ensures
        verdict_view(r) == bundle_verdict(bundle@, sighash@),
        forall|openings: Seq<(int, Seq<u8>)>| #[trigger]
            opens(bundle@.actions, openings) ==> verdict_view(r) == verdict_on_openings(
                bundle@,
                openings,
                sighash@,
            ),
{
    let vk: ActionVerifyingKey = verifying_key();
    verify_bundle_with_vk(bundle, sighash, &vk)
}

/// [`verify_bundle`] with a verifying key that the caller keeps.
pub fn verify_bundle_with_vk(bundle: &ShieldedBundle, sighash: &[u8; 32], vk: &ActionVerifyingKey) -> (r:
    Result<(), BundleVerifyError>)
    requires
        2720 + 2272 * bundle@.actions.len() <= usize::MAX,
    ensures
        verdict_view(r) == bundle_verdict(bundle@, sighash@),
        forall|openings: Seq<(int, Seq<u8>)>| #[trigger]
            opens(bundle@.actions, openings) ==> verdict_view(r) == verdict_on_openings(
                bundle@,
                openings,
                sighash@,
            ),
{
    match check_encoding(bundle) {
        Ok(()) => {},
        Err(e) => {
            return Err(e);
        },
    }
    let ghost all = bundle@.actions;
    proof {
        assert forall|i: int| 0 <= i < all.len() implies action_fault(#[trigger] all[i]) is None by {
            lemma_no_fault(all, i);
        }
    }
    let spends_enabled: bool = bundle.flags % 2 == 1;
    let outputs_enabled: bool = bundle.flags / 2 % 2 == 1;
    if !check_proof(vk, bundle, spends_enabled, outputs_enabled) {
        return verification_verdict(false, false, &[]);
    }
    let key: [u8; 32] = binding_validating_key(bundle);
    if !check_binding(&key, sighash, &bundle.binding_sig) {
        return verification_verdict(true, false, &[]);
    }
    let mut spends: Vec<bool> = Vec::new();
    let mut k: usize = 0;
    while k < bundle.actions.len()
        invariant
            0 <= k <= bundle.actions@.len(),
            all == action_views(bundle.actions@),
            forall|i: int| 0 <= i < all.len() ==> action_fault(#[trigger] all[i]) is None,
            spends@ == spend_auths(bundle@, sighash@).take(k as int),
        decreases bundle.actions@.len() - k,
    {
        let a: &ActionWire = &bundle.actions[k];
        assert(action_fault(all[k as int]) is None);
        spends.push(check_spend_auth(&a.rk, sighash, &a.spend_auth_sig));
        assert(spends@ =~= spend_auths(bundle@, sighash@).take(k + 1));
        k = k + 1;
    }
    assert(spends@ =~= spend_auths(bundle@, sighash@));
    verification_verdict(true, true, spends.as_slice())
}

/// Two bundles differ at most in what authorizes them: proof and signatures.
pub open spec fn same_effects(a: BundleV, b: BundleV) -> bool {
    &&& a.flags == b.flags
    &&& a.value_balance == b.value_balance
    &&& a.anchor == b.anchor
    &&& a.actions.len() == b.actions.len()
    &&& forall|i: int|
        0 <= i < a.actions.len() ==> {
            let x = #[trigger] a.actions[i];
            let y = b.actions[i];
            &&& x.nullifier == y.nullifier
            &&& x.rk == y.rk
            &&& x.cmx == y.cmx
            &&& x.cv_net == y.cv_net
            &&& x.ephemeral_key == y.ephemeral_key
            &&& x.enc_ciphertext == y.enc_ciphertext
            &&& x.out_ciphertext == y.out_ciphertext
        }
}

proof fn lemma_actions_effects_equal(a: Seq<ActionV>, b: Seq<ActionV>)
    requires
        a.len() == b.len(),
        forall|i: int| 0 <= i < a.len() ==> action_effects(#[trigger] a[i]) == action_effects(b[i]),
    ensures
        actions_effects(a) == actions_effects(b),
    decreases a.len(),
{
    if a.len() > 0 {
        lemma_actions_effects_equal(a.drop_last(), b.drop_last());
        assert(a.last() == a[a.len() - 1]);
    }
}

/// The sighash does not cover what authorizes the bundle: bundles with the same effects
/// have the same sighash, whatever their proofs and signatures.
pub proof fn sighash_excludes_authorization(a: BundleV, b: BundleV, context: Seq<u8>)
    requires
        same_effects(a, b),
    ensures
        sighash_of(a, context) == sighash_of(b, context),
{
    assert forall|i: int| 0 <= i < a.actions.len() implies action_effects(#[trigger] a.actions[i])
        == action_effects(b.actions[i]) by {}
    lemma_actions_effects_equal(a.actions, b.actions);
}

proof fn lemma_action_effects_split(x: ActionV, y: ActionV)
    requires
        x.sized(),
        y.sized(),
        action_effects(x) == action_effects(y),
    ensures
        x.nullifier == y.nullifier,
        x.rk == y.rk,
        x.cmx == y.cmx,
        x.cv_net == y.cv_net,
        x.ephemeral_key == y.ephemeral_key,
        x.enc_ciphertext == y.enc_ciphertext,
        x.out_ciphertext == y.out_ciphertext,
{
    let s = action_effects(x);
    assert(x.nullifier =~= s.subrange(0, 32));
    assert(y.nullifier =~= s.subrange(0, 32));
    assert(x.rk =~= s.subrange(32, 64));
    assert(y.rk =~= s.subrange(32, 64));
    assert(x.cmx =~= s.subrange(64, 96));
    assert(y.cmx =~= s.subrange(64, 96));
    assert(x.cv_net =~= s.subrange(96, 128));
    assert(y.cv_net =~= s.subrange(96, 128));
    assert(x.ephemeral_key =~= s.subrange(128, 160));
    assert(y.ephemeral_key =~= s.subrange(128, 160));
    assert(x.enc_ciphertext =~= s.subrange(160, 740));
    assert(y.enc_ciphertext =~= s.subrange(160, 740));
    assert(x.out_ciphertext =~= s.subrange(740, 820));
    assert(y.out_ciphertext =~= s.subrange(740, 820));
}

proof fn lemma_actions_effects_len(a: Seq<ActionV>)
    requires
        forall|i: int| 0 <= i < a.len() ==> (#[trigger] a[i]).sized(),
    ensures
        actions_effects(a).len() == 820 * a.len(),
    decreases a.len(),
{
    if a.len() > 0 {
        lemma_actions_effects_len(a.drop_last());
        assert(a[a.len() - 1].sized());
    }
}

proof fn lemma_actions_effects_split(a: Seq<ActionV>, b: Seq<ActionV>, k: int)
    requires
        a.len() == b.len(),
        0 <= k < a.len(),
        forall|i: int| 0 <= i < a.len() ==> (#[trigger] a[i]).sized(),
        forall|i: int| 0 <= i < b.len() ==> (#[trigger] b[i]).sized(),
        actions_effects(a) == actions_effects(b),
    ensures
        action_effects(a[k]) == action_effects(b[k]),
    decreases a.len(),
{
    let n = a.len() - 1;
    assert(a[n].sized() && b[n].sized());
    lemma_actions_effects_len(a.drop_last());
    lemma_actions_effects_len(b.drop_last());
    lemma_concat_injective(
        actions_effects(a.drop_last()),
        action_effects(a.last()),
        actions_effects(b.drop_last()),
        action_effects(b.last()),
    );
    if k < n {
        lemma_actions_effects_split(a.drop_last(), b.drop_last(), k);
    }
}

spec fn effects_head(b: BundleV) -> Seq<u8> {
    seq![b.flags] + le_bytes(i64_bits(b.value_balance), 8) + b.anchor + le_bytes(b.actions.len(), 4)
}

spec fn effects_tail(b: BundleV, context: Seq<u8>) -> Seq<u8> {
    actions_effects(b.actions) + (le_bytes(context.len(), 4) + context)
}

proof fn lemma_effects_parts(b: BundleV, context: Seq<u8>)
    requires
        b.sized(),
        b.actions.len() < 0x1_0000_0000,
        context.len() < 0x1_0000_0000,
    ensures
        bundle_effects(b, context) == effects_head(b) + effects_tail(b, context),
        effects_head(b).len() == 45,
{
    lemma_le_bytes_len(i64_bits(b.value_balance), 8);
    lemma_le_bytes_len(b.actions.len(), 4);
    assert(bundle_effects(b, context) =~= effects_head(b) + effects_tail(b, context));
}

proof fn lemma_effects_head_injective(a: BundleV, b: BundleV)
    requires
        a.sized(),
        b.sized(),
        a.actions.len() < 0x1_0000_0000,
        b.actions.len() < 0x1_0000_0000,
        effects_head(a) == effects_head(b),
    ensures
        a.flags == b.flags,
        a.value_balance == b.value_balance,
        a.anchor == b.anchor,
        a.actions.len() == b.actions.len(),
{
    let (va, vb) = (le_bytes(i64_bits(a.value_balance), 8), le_bytes(i64_bits(b.value_balance), 8));
    let (na, nb) = (le_bytes(a.actions.len(), 4), le_bytes(b.actions.len(), 4));
    lemma_pow256();
    lemma_i64_bits(a.value_balance, 0);
    lemma_i64_bits(b.value_balance, 0);
    lemma_le_bytes_len(i64_bits(a.value_balance), 8);
    lemma_le_bytes_len(i64_bits(b.value_balance), 8);
    lemma_le_value_of_bytes(i64_bits(a.value_balance), 8);
    lemma_le_value_of_bytes(i64_bits(b.value_balance), 8);
    lemma_le_bytes_len(a.actions.len(), 4);
    lemma_le_bytes_len(b.actions.len(), 4);
    lemma_le_value_of_bytes(a.actions.len(), 4);
    lemma_le_value_of_bytes(b.actions.len(), 4);
    lemma_concat_injective(seq![a.flags] + va + a.anchor, na, seq![b.flags] + vb + b.anchor, nb);
    lemma_concat_injective(seq![a.flags] + va, a.anchor, seq![b.flags] + vb, b.anchor);
    lemma_concat_injective(seq![a.flags], va, seq![b.flags], vb);
    assert(seq![a.flags][0] == seq![b.flags][0]);
}

/// The sighash covers every effect and the whole context: bundles and contexts with the
/// same digest input have the same effects and are in the same context. So a signature
/// over a sighash authorizes this bundle in this transaction and no other.
pub proof fn sighash_covers_all_effects(a: BundleV, x: Seq<u8>, b: BundleV, y: Seq<u8>)
    requires
        a.sized(),
        b.sized(),
        a.actions.len() < 0x1_0000_0000,
        b.actions.len() < 0x1_0000_0000,
        x.len() < 0x1_0000_0000,
        y.len() < 0x1_0000_0000,
        bundle_effects(a, x) == bundle_effects(b, y),
    ensures
        same_effects(a, b),
        x == y,
{
    lemma_effects_parts(a, x);
    lemma_effects_parts(b, y);
    lemma_concat_injective(effects_head(a), effects_tail(a, x), effects_head(b), effects_tail(b, y));
    lemma_effects_head_injective(a, b);
    lemma_actions_effects_len(a.actions);
    lemma_actions_effects_len(b.actions);
    let p = le_bytes(x.len(), 4);
    let q = le_bytes(y.len(), 4);
    lemma_le_bytes_len(x.len(), 4);
    lemma_le_bytes_len(y.len(), 4);
    lemma_concat_injective(actions_effects(a.actions), p + x, actions_effects(b.actions), q + y);
    lemma_concat_injective(p, x, q, y);
    assert forall|i: int| 0 <= i < a.actions.len() implies {
        let u = #[trigger] a.actions[i];
        let v = b.actions[i];
        &&& u.nullifier == v.nullifier
        &&& u.rk == v.rk
        &&& u.cmx == v.cmx
        &&& u.cv_net == v.cv_net
        &&& u.ephemeral_key == v.ephemeral_key
        &&& u.enc_ciphertext == v.enc_ciphertext
        &&& u.out_ciphertext == v.out_ciphertext
    } by {
        lemma_actions_effects_split(a.actions, b.actions, i);
        assert(b.actions[i].sized());
        lemma_action_effects_split(a.actions[i], b.actions[i]);
    }
}

/// What an action must be to be well encoded.
pub open spec fn action_well_encoded(a: ActionV) -> bool {
    &&& canonical_base(a.nullifier)
    &&& canonical_base(a.cmx)
    &&& pallas_point(a.cv_net)
    &&& pallas_point(a.rk) && !is_identity(a.rk)
    &&& pallas_point(a.ephemeral_key) && !is_identity(a.ephemeral_key)
}

/// The fault of a list of actions is that of the first one that has any.
proof fn lemma_first_fault(actions: Seq<ActionV>)
    ensures
        first_fault(actions) is None <==> forall|i: int|
            0 <= i < actions.len() ==> action_well_encoded(#[trigger] actions[i]),
        first_fault(actions) matches Some(f) ==> exists|i: int|
            0 <= i < actions.len() && action_fault(#[trigger] actions[i]) == Some(f) && forall|j: int|
                0 <= j < i ==> action_well_encoded(#[trigger] actions[j]),
    decreases actions.len(),
{
    if actions.len() > 0 {
        let front = actions.drop_last();
        let last = actions.len() - 1;
        lemma_first_fault(front);
        assert forall|i: int| 0 <= i < last implies front[i] == #[trigger] actions[i] by {}
        match first_fault(front) {
            Some(f) => {
                let i = choose|i: int|
                    0 <= i < front.len() && action_fault(#[trigger] front[i]) == Some(f)
                        && forall|j: int| 0 <= j < i ==> action_well_encoded(#[trigger] front[j]);
                assert(action_fault(actions[i]) == Some(f));
                assert(!action_well_encoded(actions[i]));
                assert forall|j: int| 0 <= j < i implies action_well_encoded(
                    #[trigger] actions[j],
                ) by {
                    assert(front[j] == actions[j]);
                }
            },
            None => {
                assert forall|i: int| 0 <= i < last implies action_well_encoded(
                    #[trigger] actions[i],
                ) by {
                    assert(action_well_encoded(front[i]));
                }
                assert(actions[last] == actions.last());
            },
        }
    }
}

/// A bundle is well encoded exactly where it has actions, every field of each decodes with no
/// key the identity, its anchor is canonical, no undefined flag is set, and its proof has the
/// one length for its number of actions.
pub proof fn encodings_are_checked_in_full(b: BundleV)
    ensures
        encoding_fault(b) is None <==> {
            &&& b.actions.len() > 0
            &&& canonical_base(b.anchor)
            &&& b.flags < 4
            &&& forall|i: int|
                0 <= i < b.actions.len() ==> action_well_encoded(#[trigger] b.actions[i])
            &&& b.proof.len() == 2720 + 2272 * b.actions.len()
        },
        encoding_fault(b) matches Some(f) ==> !(f is ProofInvalid) && !(f is BindingSigInvalid)
            && !(f is SpendAuthSigInvalid),
{
    lemma_first_fault(b.actions);
}

/// A bundle is sound exactly where it is well encoded, its proof verifies at its anchor, under
/// its flags and for the value commitment, nullifier, key and note commitment of every action,
/// its binding signature verifies, and so does every action's own signature under its own key.
pub proof fn bundles_verify_exactly_where_sound(b: BundleV, message: Seq<u8>)
    ensures
        bundle_verdict(b, message) is Ok <==> {
            &&& encoding_fault(b) is None
            &&& proof_verifies(
                b.proof,
                b.anchor,
                b.flags == 1 || b.flags == 3,
                b.flags == 2 || b.flags == 3,
                Seq::new(
                    b.actions.len(),
                    |i: int|
                        (
                            b.actions[i].cv_net,
                            b.actions[i].nullifier,
                            b.actions[i].rk,
                            b.actions[i].cmx,
                        ),
                ),
            )
            &&& binding_verifies(binding_key(b), message, b.binding_sig)
            &&& forall|i: int|
                0 <= i < b.actions.len() ==> spend_auth_verifies(
                    (#[trigger] b.actions[i]).rk,
                    message,
                    b.actions[i].spend_auth_sig,
                )
        },
        bundle_verdict(b, message) matches Err(FaultV::SpendAuthSigInvalid(i)) ==> {
            &&& 0 <= i < b.actions.len()
            &&& !spend_auth_verifies(b.actions[i].rk, message, b.actions[i].spend_auth_sig)
            &&& forall|j: int|
                0 <= j < i ==> spend_auth_verifies(
                    (#[trigger] b.actions[j]).rk,
                    message,
                    b.actions[j].spend_auth_sig,
                )
        },
{
    encodings_are_checked_in_full(b);
    let spends = spend_auths(b, message);
    assert(public_inputs(b.actions) =~= Seq::new(
        b.actions.len(),
        |i: int|
            (b.actions[i].cv_net, b.actions[i].nullifier, b.actions[i].rk, b.actions[i].cmx),
    ));
    if forall|i: int| !first_false(spends, i) {
        lemma_no_first_false(spends, spends.len() as int);
        assert forall|i: int| 0 <= i < b.actions.len() implies spend_auth_verifies(
            (#[trigger] b.actions[i]).rk,
            message,
            b.actions[i].spend_auth_sig,
        ) by {
            assert(spends[i]);
        }
    } else {
        let i = choose|i: int| first_false(spends, i);
        assert(!spends[i]);
        assert(!spend_auth_verifies(b.actions[i].rk, message, b.actions[i].spend_auth_sig));
        assert forall|j: int| 0 <= j < i implies spend_auth_verifies(
            (#[trigger] b.actions[j]).rk,
            message,
            b.actions[j].spend_auth_sig,
        ) by {
            assert(spends[j]);
        }
    }
}

proof fn lemma_no_first_false(s: Seq<bool>, n: int)
    requires
        0 <= n <= s.len(),
        forall|i: int| !first_false(s, i),
    ensures
        forall|j: int| 0 <= j < n ==> #[trigger] s[j],
    decreases n,
{
    if n > 0 {
        lemma_no_first_false(s, n - 1);
        assert(!first_false(s, n - 1));
    }
}

/// Contexts of different networks differ, as do different contexts of one network: a signature
/// made for one network is none on another.
pub proof fn networks_have_their_own_contexts(
    domain: Seq<u8>,
    context: Seq<u8>,
    other_domain: Seq<u8>,
    other_context: Seq<u8>,
)
    requires
        domain.len() == other_domain.len() || context.len() == other_context.len(),
        network_context(domain, context) == network_context(other_domain, other_context),
    ensures
        domain == other_domain,
        context == other_context,
{
    assert(domain.len() + context.len() == other_domain.len() + other_context.len()) by {
        assert(network_context(domain, context).len() == domain.len() + context.len());
        assert(network_context(other_domain, other_context).len() == other_domain.len()
            + other_context.len());
    }
    lemma_concat_injective(domain, context, other_domain, other_context);
}

} // verus!
