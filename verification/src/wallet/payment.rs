//! Building shielded bundles: keys, the plans that the wallet's payments make, and the
//! bundles that carry them out, proven and signed.

use crate::bundle::{ActionV, ActionWire, BundleV, ShieldedBundle};
use crate::bytes::{le_bytes, push_all, push_le, views32};
use crate::coinbase::{
    derivable, derivation_is_deterministic, derived_from, try_derive_coinbase_note_desc,
    CoinbaseNoteDesc,
};
use crate::field::{canonical_base, canonical_scalar, Anchor, ExtractedNoteCommitment};
use crate::keys::{
    address_of_fvk, fvk_of_seed, orchard_address, owned_address, viewing_key, FullViewingKey,
    OrchardAddress,
};
use crate::message::{randomized_key, sign_spend_auth_from_seed};
use crate::note::{note_valid, Note, NoteV};
use crate::tree::{GlobalTree, NoteCommitmentTree, TreeV};
use crate::verify::{
    action_fault, binding_key, binding_verifies, bundle_verdict, commitments_sum, first_false,
    first_fault, network_context, network_sighash, public_inputs, same_effects,
    sighash_excludes_authorization, spend_auth_verifies, spend_auths, FaultV,
};
use crate::wallet::builder::{
    authority_over, build_proven, build_proving_key, builder_add_output, builder_add_spend,
    builder_anchor, builder_new, builder_outputs, builder_plan, builder_spends, note_view,
    proven_actions, proven_effects, proven_plan, proven_proof, proven_view, proves, seed_view,
    sign_proven, well_proven, within_64_bits, ActionProvingKey, BuildError, ProvenBundle,
};
use crate::wallet::plan::{
    built, carries, no_memo, outputs_at, paid_total, spends_at, spent_total, OutputV, PlanV,
    SpendV,
};
use crate::witness::{lone_path, MerklePath, PathV};
use orchard::builder::Builder;
use vstd::prelude::*;

verus! {

/// The proving key of the current action circuit. Building it is expensive: a caller
/// builds it once and keeps it.
pub fn proving_key() -> (pk: ActionProvingKey) {
    build_proving_key()
}

/// A wallet's keys: its spend authority, and the viewing key that belongs to it.
pub struct ShieldedKeys {
    seed: [u8; 32],
    fvk: FullViewingKey,
}

impl ShieldedKeys {
    #[verifier::type_invariant]
    spec fn inv(&self) -> bool {
        fvk_of_seed(self.seed@) == Some(self.fvk@)
    }

    /// The seed of the keys.
    pub closed spec fn seed(&self) -> Seq<u8> {
        self.seed@
    }

    /// The keys' full viewing key.
    pub open spec fn viewing(&self) -> Seq<u8> {
        fvk_of_seed(self.seed())->Some_0
    }

    /// Derives keys from a seed; `None` if the seed is no spending key (negligibly rare).
    pub fn from_seed(seed: [u8; 32]) -> (r: Option<Self>)
        ensures
            r is Some <==> fvk_of_seed(seed@) is Some,
            r matches Some(keys) ==> keys.seed() == seed@,
    {
        match FullViewingKey::from_seed(&seed) {
            Some(fvk) => Some(ShieldedKeys { seed, fvk }),
            None => None,
        }
    }

    /// The wallet's default external receiving address.
    pub fn address(&self) -> (a: OrchardAddress)
        ensures
            a@ == address_of_fvk(self.viewing()),
            owned_address(self.viewing(), a@),
    {
        proof {
            use_type_invariant(self);
        }
        let raw: [u8; 43] = self.fvk.address();
        OrchardAddress::from_raw_address_bytes(&raw).unwrap()
    }

    /// The spend-authorization signature under the keys' authority and this randomizer.
    pub(crate) fn sign_randomized(&self, alpha: [u8; 32], sighash: [u8; 32]) -> (r: Option<[u8; 64]>)
        ensures
            r is Some <==> canonical_scalar(alpha@),
            r matches Some(sig) ==> spend_auth_verifies(
                randomized_key(self.viewing(), alpha@),
                sighash@,
                sig@,
            ),
    {
        proof {
            use_type_invariant(self);
        }
        sign_spend_auth_from_seed(self.seed, alpha, sighash)
    }

    /// The wallet's full viewing key.
    pub fn full_viewing_key(&self) -> (k: FullViewingKey)
        ensures
            k@ == self.viewing(),
            fvk_of_seed(self.seed()) == Some(k@),
    {
        proof {
            use_type_invariant(self);
        }
        self.fvk
    }
}

/// The bundle with these authorizing fields in place of its own.
pub open spec fn authorized(
    b: BundleV,
    sigs: Seq<Seq<u8>>,
    proof_bytes: Seq<u8>,
    binding_sig: Seq<u8>,
) -> BundleV {
    BundleV {
        actions: Seq::new(
            b.actions.len(),
            |i: int| ActionV { spend_auth_sig: sigs[i], ..b.actions[i] },
        ),
        proof: proof_bytes,
        binding_sig,
        ..b
    }
}

/// What a list of signatures holds.
pub open spec fn sig_views(sigs: Seq<[u8; 64]>) -> Seq<Seq<u8>> {
    Seq::new(sigs.len(), |i: int| sigs[i]@)
}

/// The bundle on the wire: the effects, each action with its spend-authorization
/// signature, the proof and the binding signature.
pub fn to_wire(
    effects: &ShieldedBundle,
    spend_auth_sigs: &[[u8; 64]],
    proof_bytes: Vec<u8>,
    binding_sig: [u8; 64],
) -> (b: ShieldedBundle)
    requires
        spend_auth_sigs@.len() == effects@.actions.len(),
    ensures
        b@ == authorized(effects@, sig_views(spend_auth_sigs@), proof_bytes@, binding_sig@),
{
    let mut actions: Vec<ActionWire> = Vec::new();
    let mut i: usize = 0;
    while i < effects.actions.len()
        invariant
            0 <= i <= effects.actions@.len(),
            spend_auth_sigs@.len() == effects.actions@.len(),
            actions@.len() == i,
            forall|j: int|
                0 <= j < i ==> (#[trigger] actions@[j])@ == (ActionV {
                    spend_auth_sig: spend_auth_sigs@[j]@,
                    ..effects.actions@[j]@
                }),
        decreases effects.actions@.len() - i,
    {
        let a: &ActionWire = &effects.actions[i];
        actions.push(
            ActionWire {
                nullifier: a.nullifier,
                rk: a.rk,
                cmx: a.cmx,
                cv_net: a.cv_net,
                ephemeral_key: a.ephemeral_key,
                enc_ciphertext: a.enc_ciphertext,
                out_ciphertext: a.out_ciphertext,
                spend_auth_sig: spend_auth_sigs[i],
            },
        );
        i = i + 1;
    }
    let b: ShieldedBundle = ShieldedBundle {
        actions,
        flags: effects.flags,
        value_balance: effects.value_balance,
        anchor: effects.anchor,
        proof: proof_bytes,
        binding_sig,
    };
    assert(b@.actions =~= authorized(
        effects@,
        sig_views(spend_auth_sigs@),
        proof_bytes@,
        binding_sig@,
    ).actions);
    b
}

proof fn lemma_sum_ignores_signatures(a: Seq<ActionV>, b: Seq<ActionV>)
    requires
        a.len() == b.len(),
        forall|i: int| 0 <= i < a.len() ==> (#[trigger] a[i]).cv_net == b[i].cv_net,
        a.len() > 0,
    ensures
        commitments_sum(a) == commitments_sum(b),
    decreases a.len(),
{
    assert(a[0].cv_net == b[0].cv_net);
    if a.len() > 1 {
        assert(a.last().cv_net == b.last().cv_net);
        assert forall|i: int| 0 <= i < a.drop_last().len() implies (
        #[trigger] a.drop_last()[i]).cv_net == b.drop_last()[i].cv_net by {
            assert(a[i].cv_net == b[i].cv_net);
        }
        lemma_sum_ignores_signatures(a.drop_last(), b.drop_last());
    }
}

proof fn lemma_faultless(actions: Seq<ActionV>)
    requires
        forall|i: int| 0 <= i < actions.len() ==> action_fault(#[trigger] actions[i]) is None,
    ensures
        first_fault(actions) is None,
    decreases actions.len(),
{
    if actions.len() > 0 {
        assert(action_fault(actions.last()) is None);
        assert forall|i: int| 0 <= i < actions.drop_last().len() implies action_fault(
            #[trigger] actions.drop_last()[i],
        ) is None by {
            assert(action_fault(actions[i]) is None);
        }
        lemma_faultless(actions.drop_last());
    }
}

/// Effects whose proof and signatures are good make a bundle that verifies.
pub(crate) proof fn lemma_authorized_verifies(
    effects: BundleV,
    sigs: Seq<Seq<u8>>,
    proof_bytes: Seq<u8>,
    binding_sig: Seq<u8>,
    message: Seq<u8>,
)
    requires
        effects.actions.len() > 0,
        effects.flags == 3,
        canonical_base(effects.anchor),
        forall|i: int|
            0 <= i < effects.actions.len() ==> action_fault(#[trigger] effects.actions[i]) is None,
        proves(proof_bytes, effects.anchor, effects.actions),
        sigs.len() == effects.actions.len(),
        forall|i: int|
            0 <= i < sigs.len() ==> spend_auth_verifies(
                effects.actions[i].rk,
                message,
                #[trigger] sigs[i],
            ),
        binding_verifies(binding_key(effects), message, binding_sig),
    ensures
        same_effects(effects, authorized(effects, sigs, proof_bytes, binding_sig)),
        bundle_verdict(authorized(effects, sigs, proof_bytes, binding_sig), message) == Ok::<
            (),
            FaultV,
        >(()),
{
    let b = authorized(effects, sigs, proof_bytes, binding_sig);
    assert(same_effects(effects, b));
    assert forall|i: int| 0 <= i < b.actions.len() implies action_fault(
        #[trigger] b.actions[i],
    ) is None by {
        assert(action_fault(effects.actions[i]) is None);
    }
    lemma_faultless(b.actions);
    assert(public_inputs(b.actions) =~= public_inputs(effects.actions));
    lemma_sum_ignores_signatures(effects.actions, b.actions);
    assert forall|i: int| 0 <= i < b.actions.len() implies #[trigger] spend_auths(b, message)[i] by {
        assert(spend_auth_verifies(effects.actions[i].rk, message, sigs[i]));
    }
    assert(forall|i: int| !first_false(spend_auths(b, message), i));
}

/// Signing does not change what a bundle does.
proof fn lemma_authorized_carries(
    effects: BundleV,
    sigs: Seq<Seq<u8>>,
    proof_bytes: Seq<u8>,
    binding_sig: Seq<u8>,
    plan: PlanV,
)
    requires
        carries(effects.actions, plan),
    ensures
        carries(authorized(effects, sigs, proof_bytes, binding_sig).actions, plan),
{
    let b = authorized(effects, sigs, proof_bytes, binding_sig);
    assert forall|i: int| 0 <= i < b.actions.len() implies action_fault(
        #[trigger] b.actions[i],
    ) is None by {
        assert(action_fault(effects.actions[i]) is None);
    }
    let at = choose|at: Seq<int>| spends_at(effects.actions, plan.spends, at);
    assert(spends_at(b.actions, plan.spends, at));
    let (to, rseeds) = choose|to: Seq<int>, rseeds: Seq<Seq<u8>>|
        outputs_at(effects.actions, plan.outputs, to, rseeds);
    assert(outputs_at(b.actions, plan.outputs, to, rseeds));
}

/// What comes of building a plan: the builder refuses just those whose spends cannot stand
/// at the anchor or whose balance cannot be written down, and so none of the spender's own
/// notes; beyond that the proof may fail; and a bundle carries the plan out and verifies in
/// its context.
pub open spec fn build_outcome(
    r: Result<ShieldedBundle, BuildError>,
    plan: PlanV,
    context: Seq<u8>,
) -> bool {
    match r {
        Ok(b) => plan.spendable() && plan.representable() && built(b@, plan, context),
        Err(BuildError::Builder(_)) => !(plan.spendable() && plan.representable()) && !(
        plan.own_spends() && plan.representable()),
        Err(BuildError::Proof(_)) => plan.spendable() && plan.representable(),
        Err(BuildError::Empty) => false,
    }
}

/// Signs a proven bundle over its sighash on the network in the transaction's context, with
/// the spend authority of the seed, and gives it out. It fails only where a spend is not the
/// seed's; a bundle that comes out shows what was proven, carries the plan out, and verifies.
pub fn authorize(
    proven: ProvenBundle,
    seed: Option<&[u8; 32]>,
    network_domain: &[u8; 32],
    tx_context: &[u8],
) -> (r: Result<ShieldedBundle, BuildError>)
    requires
        seed matches Some(s) ==> fvk_of_seed(s@) is Some,
        well_proven(proven),
    ensures
        authority_over(seed_view(seed), proven_plan(proven)) ==> r is Ok,
        match r {
            Ok(b) => {
                &&& same_effects(proven_view(proven), b@)
                &&& b@.proof == proven_proof(proven)
                &&& built(
                    b@,
                    proven_plan(proven),
                    network_context(network_domain@, tx_context@),
                )
            },
            Err(e) => e is Proof,
        },
{
    let ghost plan = proven_plan(proven);
    let ghost context = network_context(network_domain@, tx_context@);
    let effects: ShieldedBundle = proven_effects(&proven);
    let message: [u8; 32] = network_sighash(&effects, network_domain, tx_context);
    let ghost actions = proven_actions(proven);
    match sign_proven(proven, seed, &message) {
        Err(e) => Err(e),
        Ok((sigs, proof_bytes, binding_sig)) => {
            let ghost views = sig_views(sigs@);
            proof {
                assert forall|i: int| 0 <= i < views.len() implies spend_auth_verifies(
                    effects@.actions[i].rk,
                    message@,
                    #[trigger] views[i],
                ) by {
                    assert(spend_auth_verifies(actions[i].rk, message@, sigs@[i]@));
                }
                lemma_authorized_verifies(
                    effects@,
                    views,
                    proof_bytes@,
                    binding_sig@,
                    message@,
                );
                lemma_authorized_carries(effects@, views, proof_bytes@, binding_sig@, plan);
                sighash_excludes_authorization(
                    effects@,
                    authorized(effects@, views, proof_bytes@, binding_sig@),
                    context,
                );
            }
            Ok(to_wire(&effects, sigs.as_slice(), proof_bytes, binding_sig))
        },
    }
}

/// Proves and signs what a builder holds, with the spend authority over all of it.
fn prove_and_sign(
    builder: Builder,
    pk: &ActionProvingKey,
    seed: Option<&[u8; 32]>,
    network_domain: &[u8; 32],
    tx_context: &[u8],
) -> (r: Result<ShieldedBundle, BuildError>)
    requires
        seed matches Some(s) ==> fvk_of_seed(s@) is Some,
        authority_over(seed_view(seed), builder_plan(builder)),
        builder_plan(builder).spendable(),
        within_64_bits(builder_plan(builder)),
        builder_plan(builder).outputs.len() > 0,
        canonical_base(builder_plan(builder).anchor),
    ensures
        build_outcome(
            r,
            builder_plan(builder),
            network_context(network_domain@, tx_context@),
        ),
{
    let proven: ProvenBundle = match build_proven(builder, pk) {
        Ok(Some(proven)) => proven,
        Ok(None) => {
            return Err(BuildError::Empty);
        },
        Err(e) => {
            return Err(e);
        },
    };
    authorize(proven, seed, network_domain, tx_context)
}

/// A note to create: whom it pays, how much and with which memo, and whether the sender
/// can recover the details with their own key.
#[derive(Clone, Copy)]
pub struct PaymentOutput {
    pub recipient: OrchardAddress,
    pub value: u64,
    pub memo: [u8; 512],
    pub recoverable: bool,
}

/// The spends of these inputs with one viewing key.
pub open spec fn spend_views(fvk: Seq<u8>, inputs: Seq<(Note, MerklePath)>) -> Seq<SpendV> {
    Seq::new(inputs.len(), |i: int| SpendV { fvk, note: inputs[i].0@, path: inputs[i].1@ })
}

/// The outputs that a sender makes.
pub open spec fn output_views(fvk: Seq<u8>, outputs: Seq<PaymentOutput>) -> Seq<OutputV> {
    Seq::new(
        outputs.len(),
        |i: int| OutputV {
            sender: if outputs[i].recoverable {
                Some(fvk)
            } else {
                None
            },
            recipient: outputs[i].recipient@,
            value: outputs[i].value,
            memo: outputs[i].memo@,
        },
    )
}

/// Every path is one of the tree.
pub open spec fn paths_wf(inputs: Seq<(Note, MerklePath)>) -> bool {
    forall|i: int| 0 <= i < inputs.len() ==> (#[trigger] inputs[i]).1.wf()
}

/// Puts a plan into a builder; the builder refuses just those plans that have a spend which
/// cannot stand at the anchor.
pub(crate) fn assemble(
    anchor: &Anchor,
    fvk: &FullViewingKey,
    inputs: &[(Note, MerklePath)],
    outputs: &[PaymentOutput],
) -> (r: Result<Builder, BuildError>)
    requires
        paths_wf(inputs@),
    ensures
        ({
            let plan = PlanV {
                anchor: anchor@,
                spends: spend_views(fvk@, inputs@),
                outputs: output_views(fvk@, outputs@),
            };
            &&& canonical_base(plan.anchor)
            &&& match r {
                Ok(b) => plan.spendable() && builder_plan(b) == plan,
                Err(e) => !plan.spendable() && !plan.own_spends() && e is Builder,
            }
        }),
{
    let root: [u8; 32] = anchor.to_bytes();
    let key: [u8; 96] = fvk.to_bytes();
    let mut builder: Builder = builder_new(&root);
    let ghost spends = spend_views(fvk@, inputs@);
    let ghost outs = output_views(fvk@, outputs@);
    let ghost plan = PlanV { anchor: anchor@, spends, outputs: outs };
    let mut i: usize = 0;
    while i < inputs.len()
        invariant
            0 <= i <= inputs@.len(),
            paths_wf(inputs@),
            key@ == fvk@,
            viewing_key(key@),
            root@ == anchor@,
            canonical_base(anchor@),
            spends == spend_views(fvk@, inputs@),
            outs == output_views(fvk@, outputs@),
            plan == (PlanV { anchor: anchor@, spends, outputs: outs }),
            builder_anchor(builder) == root@,
            builder_spends(builder) =~= spends.take(i as int),
            builder_outputs(builder) =~= Seq::<OutputV>::empty(),
            forall|k: int| 0 <= k < i ==> (#[trigger] spends[k]).fits(anchor@),
        decreases inputs@.len() - i,
    {
        let (note, path) = &inputs[i];
        assert(inputs@[i as int].1.wf());
        proof {
            path.lemma_wf();
        }
        let recipient: [u8; 43] = note.recipient();
        let rho: [u8; 32] = note.rho();
        let rseed: [u8; 32] = note.rseed();
        let siblings: &Vec<[u8; 32]> = path.auth_path();
        assert(views32(siblings@).len() == 32);
        let added: Result<(), BuildError> = builder_add_spend(
            &mut builder,
            &key,
            &recipient,
            note.value(),
            &rho,
            &rseed,
            path.position(),
            siblings,
        );
        proof {
            let view = note_view(&recipient, note@.value, &rho, &rseed);
            assert(view == note@);
            assert(spends[i as int].note == view);
            assert(added is Ok <==> spends[i as int].fits(anchor@));
        }
        match added {
            Ok(()) => {},
            Err(e) => {
                assert(!plan.spends[i as int].fits(plan.anchor));
                assert(plan.spends[i as int].note.recipient != address_of_fvk(fvk@)
                    || plan.spends[i as int].root() != plan.anchor);
                return Err(e);
            },
        }
        i = i + 1;
    }
    assert(plan.spendable());
    let mut j: usize = 0;
    while j < outputs.len()
        invariant
            0 <= j <= outputs@.len(),
            key@ == fvk@,
            viewing_key(key@),
            root@ == anchor@,
            canonical_base(anchor@),
            spends == spend_views(fvk@, inputs@),
            outs == output_views(fvk@, outputs@),
            plan == (PlanV { anchor: anchor@, spends, outputs: outs }),
            plan.spendable(),
            builder_anchor(builder) == root@,
            builder_spends(builder) =~= spends,
            builder_outputs(builder) =~= outs.take(j as int),
        decreases outputs@.len() - j,
    {
        let o: &PaymentOutput = &outputs[j];
        let recipient: [u8; 43] = o.recipient.to_raw_address_bytes();
        let sender: Option<&[u8; 96]> = if o.recoverable {
            Some(&key)
        } else {
            None
        };
        builder_add_output(&mut builder, sender, &recipient, o.value, &o.memo);
        j = j + 1;
    }
    assert(builder_outputs(builder) =~= outs);
    Ok(builder)
}

/// The output of a payment, without a memo.
fn plain_output(recipient: &OrchardAddress, value: u64) -> (o: PaymentOutput)
    ensures
        o.recipient@ == recipient@,
        o.value == value,
        o.memo@ == no_memo(),
        !o.recoverable,
{
    let memo: [u8; 512] = [0u8; 512];
    assert(memo@ =~= no_memo());
    PaymentOutput { recipient: *recipient, value, memo, recoverable: false }
}

/// An output that only its recipient can read, without a memo.
pub open spec fn plain(recipient: Seq<u8>, value: u64) -> OutputV {
    OutputV { sender: None, recipient, value, memo: no_memo() }
}

/// The plan that mints a value to an address, at the anchor of the tree without leaves.
pub open spec fn mint_plan(recipient: Seq<u8>, value: u64) -> PlanV {
    PlanV {
        anchor: TreeV::empty().root(),
        spends: Seq::empty(),
        outputs: seq![plain(recipient, value)],
    }
}

/// Builds an output-only bundle that mints `value` to `recipient`, proven and signed over
/// the sighash on the network in the transaction's context. Its value balance is negative:
/// the value enters the pool.
pub fn build_output_only_bundle(
    pk: &ActionProvingKey,
    recipient: &OrchardAddress,
    value: u64,
    network_domain: &[u8; 32],
    tx_context: &[u8],
) -> (r: Result<ShieldedBundle, BuildError>)
    ensures
        build_outcome(
            r,
            mint_plan(recipient@, value),
            network_context(network_domain@, tx_context@),
        ),
{
    broadcast use GlobalTree::lemma_tree;

    let tree: GlobalTree = GlobalTree::new();
    let anchor: Anchor = tree.anchor();
    let raw: [u8; 43] = recipient.to_raw_address_bytes();
    let memo: [u8; 512] = [0u8; 512];
    let mut builder: Builder = builder_new(&anchor.to_bytes());
    builder_add_output(&mut builder, None, &raw, value, &memo);
    proof {
        let plan = mint_plan(recipient@, value);
        assert(memo@ =~= no_memo());
        assert(builder_plan(builder).outputs =~= plan.outputs);
        assert(plan.outputs.drop_last() =~= Seq::<OutputV>::empty());
        assert(paid_total(plan.outputs.drop_last()) == 0);
    }
    prove_and_sign(builder, pk, None, network_domain, tx_context)
}

/// The anchor that the first of the inputs proves against.
pub open spec fn first_root(fvk: Seq<u8>, inputs: Seq<(Note, MerklePath)>) -> Seq<u8> {
    spend_views(fvk, inputs)[0].root()
}

/// The plan that spends these inputs and makes these outputs, at the anchor that the first
/// input proves against.
pub open spec fn transfer_plan(
    fvk: Seq<u8>,
    inputs: Seq<(Note, MerklePath)>,
    outputs: Seq<OutputV>,
) -> PlanV {
    PlanV { anchor: first_root(fvk, inputs), spends: spend_views(fvk, inputs), outputs }
}

/// The anchor that the first of the inputs proves against.
pub(crate) fn first_anchor(inputs: &[(Note, MerklePath)], fvk: Ghost<Seq<u8>>) -> (a: Anchor)
    requires
        inputs@.len() > 0,
        paths_wf(inputs@),
    ensures
        a@ == first_root(fvk@, inputs@),
{
    let (note, path) = &inputs[0];
    assert(inputs@[0].1.wf());
    path.root(&note.commitment())
}

/// Builds, proves and signs a transfer.
fn transfer(
    pk: &ActionProvingKey,
    keys: &ShieldedKeys,
    inputs: &[(Note, MerklePath)],
    outputs: &[PaymentOutput],
    network_domain: &[u8; 32],
    tx_context: &[u8],
) -> (r: Result<ShieldedBundle, BuildError>)
    requires
        inputs@.len() > 0,
        outputs@.len() > 0,
        paths_wf(inputs@),
        within_64_bits(
            transfer_plan(keys.viewing(), inputs@, output_views(keys.viewing(), outputs@)),
        ),
    ensures
        build_outcome(
            r,
            transfer_plan(keys.viewing(), inputs@, output_views(keys.viewing(), outputs@)),
            network_context(network_domain@, tx_context@),
        ),
{
    proof {
        use_type_invariant(keys);
    }
    let ghost viewing = keys.viewing();
    let anchor: Anchor = first_anchor(inputs, Ghost(viewing));
    match assemble(&anchor, &keys.fvk, inputs, outputs) {
        Ok(builder) => prove_and_sign(builder, pk, Some(&keys.seed), network_domain, tx_context),
        Err(e) => Err(e),
    }
}

/// The plan that spends one note and pays all of `output_value` to one recipient; the rest
/// is the fee.
pub open spec fn spend_plan(
    fvk: Seq<u8>,
    note: NoteV,
    path: PathV,
    recipient: Seq<u8>,
    output_value: u64,
) -> PlanV {
    let spend = SpendV { fvk, note, path };
    PlanV {
        anchor: spend.root(),
        spends: seq![spend],
        outputs: seq![plain(recipient, output_value)],
    }
}

proof fn lemma_one_spend(s: Seq<SpendV>)
    requires
        s.len() == 1,
    ensures
        spent_total(s) == s[0].note.value,
{
    assert(s.drop_last() =~= Seq::<SpendV>::empty());
    assert(spent_total(s.drop_last()) == 0);
}

proof fn lemma_few_outputs(s: Seq<OutputV>)
    ensures
        s.len() == 1 ==> paid_total(s) == s[0].value,
        s.len() == 2 ==> paid_total(s) == s[0].value + s[1].value,
{
    if s.len() == 1 {
        assert(s.drop_last() =~= Seq::<OutputV>::empty());
        assert(paid_total(s.drop_last()) == 0);
    } else if s.len() == 2 {
        let front = s.drop_last();
        assert(front.drop_last() =~= Seq::<OutputV>::empty());
        assert(paid_total(front.drop_last()) == 0);
        assert(paid_total(front) == front.last().value);
    }
}

/// Builds a spending bundle: spends the note, which its path proves to be in the tree at the
/// anchor it leads to, and sends `output_value` to `recipient`. What is left of the note is
/// the public fee. Proven, and signed with the spend authority.
pub fn build_spend_bundle(
    pk: &ActionProvingKey,
    keys: &ShieldedKeys,
    note: Note,
    merkle_path: MerklePath,
    recipient: &OrchardAddress,
    output_value: u64,
    network_domain: &[u8; 32],
    tx_context: &[u8],
) -> (r: Result<ShieldedBundle, BuildError>)
    requires
        merkle_path.wf(),
    ensures
        build_outcome(
            r,
            spend_plan(keys.viewing(), note@, merkle_path@, recipient@, output_value),
            network_context(network_domain@, tx_context@),
        ),
{
    let ghost plan = spend_plan(keys.viewing(), note@, merkle_path@, recipient@, output_value);
    let mut inputs: Vec<(Note, MerklePath)> = Vec::new();
    inputs.push((note, merkle_path));
    let mut outputs: Vec<PaymentOutput> = Vec::new();
    outputs.push(plain_output(recipient, output_value));
    proof {
        assert(spend_views(keys.viewing(), inputs@) =~= plan.spends);
        assert(output_views(keys.viewing(), outputs@) =~= plan.outputs);
        lemma_one_spend(plan.spends);
        lemma_few_outputs(plan.outputs);
    }
    transfer(pk, keys, inputs.as_slice(), outputs.as_slice(), network_domain, tx_context)
}

/// The plan of a payment with change: the recipient gets the amount, the change address
/// what is left of the note after amount and fee.
pub open spec fn payment_plan(
    fvk: Seq<u8>,
    note: NoteV,
    path: PathV,
    recipient: Seq<u8>,
    amount: u64,
    change_addr: Seq<u8>,
    fee: u64,
) -> PlanV {
    let spend = SpendV { fvk, note, path };
    PlanV {
        anchor: spend.root(),
        spends: seq![spend],
        outputs: seq![
            plain(recipient, amount),
            plain(change_addr, (note.value - amount - fee) as u64),
        ],
    }
}

/// A payment with change pays out all that it spends but the fee.
pub proof fn payments_leave_the_fee(
    fvk: Seq<u8>,
    note: NoteV,
    path: PathV,
    recipient: Seq<u8>,
    amount: u64,
    change_addr: Seq<u8>,
    fee: u64,
)
    requires
        amount + fee <= note.value,
    ensures
        payment_plan(fvk, note, path, recipient, amount, change_addr, fee).balance() == fee,
{
    let plan = payment_plan(fvk, note, path, recipient, amount, change_addr, fee);
    lemma_one_spend(plan.spends);
    lemma_few_outputs(plan.outputs);
}

/// What is left of `total` after amount and fee.
pub fn change_of(total: u64, amount: u64, fee: u64) -> (r: Option<u64>)
    ensures
        match r {
            Some(change) => change == total - amount - fee,
            None => total < amount + fee,
        },
{
    if amount <= total && fee <= total - amount {
        Some(total - amount - fee)
    } else {
        None
    }
}

/// Builds a payment with change: spends the note, pays `amount` to `recipient`, returns the
/// rest minus `fee` to `change_addr`, and leaves `fee` as the public value balance. There is
/// a change output even where nothing is left, so that all payments look alike.
pub fn build_payment_bundle(
    pk: &ActionProvingKey,
    keys: &ShieldedKeys,
    note: Note,
    merkle_path: MerklePath,
    recipient: &OrchardAddress,
    amount: u64,
    change_addr: &OrchardAddress,
    fee: u64,
    network_domain: &[u8; 32],
    tx_context: &[u8],
) -> (r: Result<ShieldedBundle, BuildError>)
    requires
        merkle_path.wf(),
    ensures
        note@.value < amount + fee <==> r matches Err(BuildError::Empty),
        note@.value >= amount + fee ==> build_outcome(
            r,
            payment_plan(
                keys.viewing(),
                note@,
                merkle_path@,
                recipient@,
                amount,
                change_addr@,
                fee,
            ),
            network_context(network_domain@, tx_context@),
        ),
{
    let change: u64 = match change_of(note.value(), amount, fee) {
        Some(change) => change,
        None => {
            return Err(BuildError::Empty);
        },
    };
    let ghost plan = payment_plan(
        keys.viewing(),
        note@,
        merkle_path@,
        recipient@,
        amount,
        change_addr@,
        fee,
    );
    let mut inputs: Vec<(Note, MerklePath)> = Vec::new();
    inputs.push((note, merkle_path));
    let mut outputs: Vec<PaymentOutput> = Vec::new();
    outputs.push(plain_output(recipient, amount));
    outputs.push(plain_output(change_addr, change));
    proof {
        assert(spend_views(keys.viewing(), inputs@) =~= plan.spends);
        assert(output_views(keys.viewing(), outputs@) =~= plan.outputs);
        lemma_one_spend(plan.spends);
        lemma_few_outputs(plan.outputs);
    }
    transfer(pk, keys, inputs.as_slice(), outputs.as_slice(), network_domain, tx_context)
}

/// The values of the inputs together.
pub open spec fn inputs_total(inputs: Seq<(Note, MerklePath)>) -> nat
    decreases inputs.len(),
{
    if inputs.len() == 0 {
        0
    } else {
        inputs_total(inputs.drop_last()) + inputs.last().0@.value as nat
    }
}

pub(crate) proof fn lemma_inputs_total(fvk: Seq<u8>, inputs: Seq<(Note, MerklePath)>)
    ensures
        spent_total(spend_views(fvk, inputs)) == inputs_total(inputs),
    decreases inputs.len(),
{
    if inputs.len() > 0 {
        assert(spend_views(fvk, inputs).drop_last() =~= spend_views(fvk, inputs.drop_last()));
        lemma_inputs_total(fvk, inputs.drop_last());
    }
}

pub(crate) proof fn lemma_inputs_total_grows(inputs: Seq<(Note, MerklePath)>, i: int)
    requires
        0 <= i < inputs.len(),
    ensures
        inputs_total(inputs.take(i + 1)) == inputs_total(inputs.take(i)) + inputs[i].0@.value,
        inputs_total(inputs.take(i + 1)) <= inputs_total(inputs),
    decreases inputs.len() - i,
{
    assert(inputs.take(i + 1).drop_last() =~= inputs.take(i));
    if i + 1 < inputs.len() {
        lemma_inputs_total_grows(inputs, i + 1);
    } else {
        assert(inputs.take(i + 1) =~= inputs);
    }
}

/// Adds the inputs' values up.
pub(crate) fn total_value(inputs: &[(Note, MerklePath)]) -> (total: u64)
    requires
        inputs_total(inputs@) <= u64::MAX,
    ensures
        total == inputs_total(inputs@),
{
    let mut total: u64 = 0;
    let mut i: usize = 0;
    assert(inputs@.take(0) =~= Seq::<(Note, MerklePath)>::empty());
    while i < inputs.len()
        invariant
            0 <= i <= inputs@.len(),
            inputs_total(inputs@) <= u64::MAX,
            total == inputs_total(inputs@.take(i as int)),
        decreases inputs@.len() - i,
    {
        proof {
            lemma_inputs_total_grows(inputs@, i as int);
        }
        total = total + inputs[i].0.value();
        i = i + 1;
    }
    assert(inputs@.take(i as int) =~= inputs@);
    total
}

/// The plan of a wallet's payment: the recipient gets the amount and the memo, the sender
/// the change, in one more output where there is change or it is always made.
pub open spec fn wallet_plan(
    fvk: Seq<u8>,
    inputs: Seq<(Note, MerklePath)>,
    recipient: Seq<u8>,
    amount: u64,
    fee: u64,
    recoverable: bool,
    memo: Seq<u8>,
    always_change: bool,
) -> PlanV {
    let sender = if recoverable {
        Some(fvk)
    } else {
        None
    };
    let change = (inputs_total(inputs) - amount - fee) as u64;
    let paid = OutputV { sender, recipient, value: amount, memo };
    let back = OutputV {
        sender,
        recipient: address_of_fvk(fvk),
        value: change,
        memo: no_memo(),
    };
    transfer_plan(
        fvk,
        inputs,
        if always_change || change > 0 {
            seq![paid, back]
        } else {
            seq![paid]
        },
    )
}

/// The outputs of a wallet's payment.
pub(crate) fn wallet_outputs(
    recipient: &OrchardAddress,
    amount: u64,
    own: &OrchardAddress,
    change: u64,
    recoverable: bool,
    memo: &[u8; 512],
    always_change: bool,
) -> (outputs: Vec<PaymentOutput>)
    ensures
        outputs@.len() > 0,
        forall|fvk: Seq<u8>, inputs: Seq<(Note, MerklePath)>, fee: u64|
            inputs.len() > 0 && own@ == address_of_fvk(fvk) && change == inputs_total(inputs)
                - amount - fee ==> #[trigger] wallet_plan(
                fvk,
                inputs,
                recipient@,
                amount,
                fee,
                recoverable,
                memo@,
                always_change,
            ) == transfer_plan(fvk, inputs, output_views(fvk, outputs@)),
{
    let mut outputs: Vec<PaymentOutput> = Vec::new();
    outputs.push(PaymentOutput { recipient: *recipient, value: amount, memo: *memo, recoverable });
    if always_change || change > 0 {
        let mut back: PaymentOutput = plain_output(own, change);
        back.recoverable = recoverable;
        outputs.push(back);
    }
    proof {
        assert forall|fvk: Seq<u8>, inputs: Seq<(Note, MerklePath)>, fee: u64|
            inputs.len() > 0 && own@ == address_of_fvk(fvk) && change == inputs_total(inputs)
                - amount - fee implies #[trigger] wallet_plan(
            fvk,
            inputs,
            recipient@,
            amount,
            fee,
            recoverable,
            memo@,
            always_change,
        ) == transfer_plan(fvk, inputs, output_views(fvk, outputs@)) by {
            let plan = wallet_plan(
                fvk,
                inputs,
                recipient@,
                amount,
                fee,
                recoverable,
                memo@,
                always_change,
            );
            assert(plan.outputs =~= output_views(fvk, outputs@));
        }
    }
    outputs
}

/// A wallet's payment pays out all that it spends but the fee.
pub proof fn wallet_payments_leave_the_fee(
    fvk: Seq<u8>,
    inputs: Seq<(Note, MerklePath)>,
    recipient: Seq<u8>,
    amount: u64,
    fee: u64,
    recoverable: bool,
    memo: Seq<u8>,
    always_change: bool,
)
    requires
        amount + fee <= inputs_total(inputs) <= u64::MAX,
    ensures
        ({
            let plan = wallet_plan(
                fvk,
                inputs,
                recipient,
                amount,
                fee,
                recoverable,
                memo,
                always_change,
            );
            &&& plan.balance() == fee
            &&& within_64_bits(plan)
        }),
{
    let plan = wallet_plan(fvk, inputs, recipient, amount, fee, recoverable, memo, always_change);
    lemma_inputs_total(fvk, inputs);
    lemma_few_outputs(plan.outputs);
}

/// What comes of building a plan, where the bundle is handed on as its encoding.
pub open spec fn payload_outcome(
    r: Result<Vec<u8>, BuildError>,
    plan: PlanV,
    context: Seq<u8>,
) -> bool {
    match r {
        Ok(bytes) => exists|b: ShieldedBundle|
            bytes@ == #[trigger] b@.encoded() && build_outcome(Ok(b), plan, context),
        Err(e) => build_outcome(Err(e), plan, context),
    }
}

/// Encodes a bundle that was built.
fn encode(r: Result<ShieldedBundle, BuildError>, plan: Ghost<PlanV>, context: Ghost<Seq<u8>>) -> (p:
    Result<Vec<u8>, BuildError>)
    requires
        build_outcome(r, plan@, context@),
    ensures
        payload_outcome(p, plan@, context@),
{
    match r {
        Ok(b) => {
            let bytes: Vec<u8> = b.to_bytes();
            assert(build_outcome(Ok(b), plan@, context@));
            Ok(bytes)
        },
        Err(e) => Err(e),
    }
}

/// A wallet's payment from one or more notes: spends every input, pays `amount` to the
/// recipient, returns the rest minus `fee` to the sender, and leaves `fee` as the public
/// value balance. All inputs must be proven against the same anchor. `recoverable` encrypts
/// the outputs' details to the sender's own outgoing key too; `memo` goes to the recipient.
/// The result is the bundle's encoding, ready for a transaction's payload.
pub fn build_wallet_payment(
    pk: &ActionProvingKey,
    owner_seed: [u8; 32],
    inputs: Vec<(Note, MerklePath)>,
    recipient_addr: [u8; 43],
    amount: u64,
    fee: u64,
    network_domain: &[u8; 32],
    tx_context: &[u8],
    recoverable: bool,
    memo: [u8; 512],
) -> (r: Result<Vec<u8>, BuildError>)
    requires
        paths_wf(inputs@),
        inputs_total(inputs@) <= u64::MAX,
    ensures
        r matches Err(BuildError::Empty) <==> inputs@.len() == 0 || fvk_of_seed(owner_seed@) is None
            || !orchard_address(recipient_addr@) || inputs_total(inputs@) < amount + fee,
        !(r matches Err(BuildError::Empty)) ==> payload_outcome(
            r,
            wallet_plan(
                fvk_of_seed(owner_seed@)->Some_0,
                inputs@,
                recipient_addr@,
                amount,
                fee,
                recoverable,
                memo@,
                true,
            ),
            network_context(network_domain@, tx_context@),
        ),
{
    if inputs.len() == 0 {
        return Err(BuildError::Empty);
    }
    let keys: ShieldedKeys = match ShieldedKeys::from_seed(owner_seed) {
        Some(keys) => keys,
        None => {
            return Err(BuildError::Empty);
        },
    };
    let recipient: OrchardAddress = match OrchardAddress::from_raw_address_bytes(&recipient_addr) {
        Some(recipient) => recipient,
        None => {
            return Err(BuildError::Empty);
        },
    };
    let total: u64 = total_value(inputs.as_slice());
    let change: u64 = match change_of(total, amount, fee) {
        Some(change) => change,
        None => {
            return Err(BuildError::Empty);
        },
    };
    let own: OrchardAddress = keys.address();
    let outputs: Vec<PaymentOutput> = wallet_outputs(
        &recipient,
        amount,
        &own,
        change,
        recoverable,
        &memo,
        true,
    );
    let ghost plan = wallet_plan(
        keys.viewing(),
        inputs@,
        recipient_addr@,
        amount,
        fee,
        recoverable,
        memo@,
        true,
    );
    proof {
        wallet_payments_leave_the_fee(
            keys.viewing(),
            inputs@,
            recipient_addr@,
            amount,
            fee,
            recoverable,
            memo@,
            true,
        );
        assert(plan == transfer_plan(
            keys.viewing(),
            inputs@,
            output_views(keys.viewing(), outputs@),
        ));
    }
    let built: Result<ShieldedBundle, BuildError> = transfer(
        pk,
        &keys,
        inputs.as_slice(),
        outputs.as_slice(),
        network_domain,
        tx_context,
    );
    encode(built, Ghost(plan), Ghost(network_context(network_domain@, tx_context@)))
}

/// The seed that the note of a coinbase output is derived from: the transaction's id and the
/// output's index.
pub open spec fn coinbase_seed(txid: Seq<u8>, index: nat) -> Seq<u8> {
    txid + le_bytes(index, 4)
}

/// The seed that the note of a coinbase output is derived from.
pub fn coinbase_note_seed(txid: &[u8; 32], index: u32) -> (seed: Vec<u8>)
    ensures
        seed@ == coinbase_seed(txid@, index as nat),
{
    let mut seed: Vec<u8> = Vec::new();
    push_all(&mut seed, txid);
    push_le(&mut seed, index as u128, 4);
    assert(seed@ =~= coinbase_seed(txid@, index as nat));
    seed
}

/// Spends a coinbase note that is the only leaf of the tree. The note is derived from its
/// public description as the chain derives it, and its path is that of a tree's only leaf,
/// so the bundle's anchor is that of the tree with just this leaf. The result is the
/// bundle's encoding.
pub fn build_singleleaf_coinbase_spend(
    pk: &ActionProvingKey,
    owner_seed: [u8; 32],
    coinbase_txid: [u8; 32],
    out_index: u32,
    note_value: u64,
    recipient_addr: [u8; 43],
    output_value: u64,
    network_domain: &[u8; 32],
    tx_context: &[u8],
) -> (r: Result<Vec<u8>, BuildError>)
    ensures
        fvk_of_seed(owner_seed@) is None || !derivable(
            coinbase_seed(coinbase_txid@, out_index as nat),
        ) || !orchard_address(recipient_addr@) ==> r matches Err(BuildError::Empty),
        forall|desc: CoinbaseNoteDesc|
            fvk_of_seed(owner_seed@) is Some && orchard_address(recipient_addr@)
                && #[trigger] derived_from(
                desc,
                address_of_fvk(fvk_of_seed(owner_seed@)->Some_0),
                coinbase_seed(coinbase_txid@, out_index as nat),
            ) ==> if !note_valid(desc.note(note_value)) {
                r matches Err(BuildError::Empty)
            } else {
                let plan = spend_plan(
                    fvk_of_seed(owner_seed@)->Some_0,
                    desc.note(note_value),
                    PathV { position: 0, path: lone_path() },
                    recipient_addr@,
                    output_value,
                );
                &&& payload_outcome(r, plan, network_context(network_domain@, tx_context@))
                &&& plan.anchor == TreeV::empty().push(desc.note(note_value).commitment()).root()
            },
{
    let keys: ShieldedKeys = match ShieldedKeys::from_seed(owner_seed) {
        Some(keys) => keys,
        None => {
            return Err(BuildError::Empty);
        },
    };
    let own: OrchardAddress = keys.address();
    let seed: Vec<u8> = coinbase_note_seed(&coinbase_txid, out_index);
    let desc: CoinbaseNoteDesc = match try_derive_coinbase_note_desc(
        own.to_raw_address_bytes(),
        seed.as_slice(),
    ) {
        Some(desc) => desc,
        None => {
            return Err(BuildError::Empty);
        },
    };
    proof {
        assert forall|other: CoinbaseNoteDesc| #[trigger] derived_from(other, own@, seed@) implies other.note(
            note_value,
        ) == desc.note(note_value) by {
            derivation_is_deterministic(desc, other, own@, seed@);
        }
    }
    let recipient: OrchardAddress = match OrchardAddress::from_raw_address_bytes(&recipient_addr) {
        Some(recipient) => recipient,
        None => {
            return Err(BuildError::Empty);
        },
    };
    let note: Note = match Note::from_parts(&desc.recipient, note_value, &desc.rho, &desc.rseed) {
        Ok(note) => note,
        Err(_) => {
            return Err(BuildError::Empty);
        },
    };
    let path: MerklePath = MerklePath::lone();
    let leaf: ExtractedNoteCommitment = note.commitment();
    let anchor: Anchor = path.root(&leaf);
    assert(anchor@ == TreeV::empty().push(note@.commitment()).root());
    let ghost plan = spend_plan(
        keys.viewing(),
        note@,
        path@,
        recipient_addr@,
        output_value,
    );
    let built: Result<ShieldedBundle, BuildError> = build_spend_bundle(
        pk,
        &keys,
        note,
        path,
        &recipient,
        output_value,
        network_domain,
        tx_context,
    );
    encode(built, Ghost(plan), Ghost(network_context(network_domain@, tx_context@)))
}

} // verus!
