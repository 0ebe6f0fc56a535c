//! Scanning: trial decryption of a bundle's outputs with an incoming viewing key.

use crate::bundle::{action_views, ActionV, ActionWire, ShieldedBundle};
use crate::bytes::{push_all, to_array};
use crate::field::{canonical_base, ExtractedNoteCommitment, Nullifier};
use crate::keys::{
    address_of_fvk, fvk_of_seed, incoming_key, ivk_of_fvk, orchard_address, owned_address,
    viewing_key, FullViewingKey, IncomingViewingKey,
};
use crate::note::{note_valid, Note, NoteV};
use crate::value::{is_identity, pallas_point};
use crate::verify::{action_fault, check_action};
use orchard::keys::{FullViewingKey as OrchardKey, Scope};
use orchard::note::ExtractedNoteCommitment as OrchardCommitment;
use orchard::note::Nullifier as OrchardNullifier;
use orchard::note::TransmittedNoteCiphertext;
use orchard::note_encryption::{CompactAction, OrchardDomain};
use orchard::value::ValueCommitment as OrchardValue;
use orchard::Action;
use vstd::prelude::*;
use zcash_note_encryption::{batch, try_output_recovery_with_ovk, EphemeralKeyBytes};

verus! {

/// What trial decryption of a full output gives: the note and its memo, where the output
/// was meant for the holder of the incoming viewing key.
pub uninterp spec fn decrypt_output(
    ivk: Seq<u8>,
    nullifier: Seq<u8>,
    cmx: Seq<u8>,
    epk: Seq<u8>,
    enc: Seq<u8>,
) -> Option<(NoteV, Seq<u8>)>;

/// What the outgoing key of a full viewing key recovers from an output: the note and its
/// memo, where the sender encrypted them to that key too.
pub uninterp spec fn recover_output(
    fvk: Seq<u8>,
    nullifier: Seq<u8>,
    cmx: Seq<u8>,
    cv_net: Seq<u8>,
    epk: Seq<u8>,
    enc: Seq<u8>,
    out: Seq<u8>,
) -> Option<(NoteV, Seq<u8>)>;

/// What trial decryption of a compact output gives.
pub uninterp spec fn decrypt_compact(
    ivk: Seq<u8>,
    nullifier: Seq<u8>,
    cmx: Seq<u8>,
    epk: Seq<u8>,
    enc: Seq<u8>,
) -> Option<NoteV>;

/// [`decrypt_output`] on an action.
pub open spec fn decrypt_action(ivk: Seq<u8>, a: ActionV) -> Option<(NoteV, Seq<u8>)> {
    decrypt_output(ivk, a.nullifier, a.cmx, a.ephemeral_key, a.enc_ciphertext)
}

/// The parts of a note: recipient, value, `rho` and random seed.
pub type NoteParts = ([u8; 43], u64, [u8; 32], [u8; 32]);

/// What the parts hold.
pub open spec fn parts_view(p: NoteParts) -> NoteV {
    NoteV { recipient: p.0@, value: p.1, rho: p.2@, rseed: p.3@ }
}

/// Whoever holds a full viewing key with this incoming viewing key sees the address as its
/// own.
pub open spec fn seen_by(ivk: Seq<u8>, address: Seq<u8>) -> bool {
    forall|fvk: Seq<u8>|
        viewing_key(fvk) && #[trigger] ivk_of_fvk(fvk) == ivk ==> owned_address(fvk, address)
}

/// `batch::try_note_decryption` on one output, given by the fields of its action. A note
/// that it gives is valid, has the action's nullifier as its `rho`, and is the one that the
/// action's commitment commits to. Its recipient is the key's own address at the
/// diversifier of the note, which the full viewing keys of the key see as theirs.
#[verifier::external_body]
fn try_decrypt_output(
    ivk: &[u8; 64],
    nullifier: &[u8; 32],
    rk: [u8; 32],
    cmx: &[u8; 32],
    cv_net: &[u8; 32],
    epk_bytes: [u8; 32],
    enc_ciphertext: [u8; 580],
    out_ciphertext: [u8; 80],
) -> (r: Option<([u8; 43], u64, [u8; 32], [u8; 512])>)
    requires
        incoming_key(ivk@),
        canonical_base(nullifier@),
        canonical_base(cmx@),
        pallas_point(rk@),
        !is_identity(rk@),
        pallas_point(cv_net@),
        pallas_point(epk_bytes@),
        !is_identity(epk_bytes@),
    ensures
        match r {
            None => decrypt_output(ivk@, nullifier@, cmx@, epk_bytes@, enc_ciphertext@) is None,
            Some((to, value, rseed, memo)) => {
                let note = NoteV { recipient: to@, value, rho: nullifier@, rseed: rseed@ };
                &&& decrypt_output(ivk@, nullifier@, cmx@, epk_bytes@, enc_ciphertext@) == Some(
                    (note, memo@),
                )
                &&& note_valid(note)
                &&& note.commitment() == cmx@
                &&& seen_by(ivk@, to@)
            },
        },
{
    let ivk = orchard::keys::IncomingViewingKey::from_bytes(ivk).unwrap().prepare();
    let nf = OrchardNullifier::from_bytes(nullifier).unwrap();
    let cmx = OrchardCommitment::from_bytes(cmx).unwrap();
    let cv = OrchardValue::from_bytes(cv_net).unwrap();
    let ct = TransmittedNoteCiphertext { epk_bytes, enc_ciphertext, out_ciphertext };
    let action = Action::from_parts(nf, rk.try_into().unwrap(), cmx, ct, cv, ()).unwrap();
    let output = [(OrchardDomain::for_action(&action), action)];
    let ((note, to, memo), _) = batch::try_note_decryption(&[ivk], &output).remove(0)?;
    Some((to.to_raw_address_bytes(), note.value().inner(), *note.rseed().as_bytes(), memo))
}

/// [`recover_output`] on an action.
pub open spec fn recover_action(fvk: Seq<u8>, a: ActionV) -> Option<(NoteV, Seq<u8>)> {
    recover_output(
        fvk,
        a.nullifier,
        a.cmx,
        a.cv_net,
        a.ephemeral_key,
        a.enc_ciphertext,
        a.out_ciphertext,
    )
}

/// `try_output_recovery_with_ovk` on one output, given by the fields of its action, under the
/// external outgoing key of a full viewing key. A note that it gives is valid, has the
/// action's nullifier as its `rho`, and is the one that the action's commitment commits to.
#[verifier::external_body]
fn try_recover_output(
    fvk: &[u8; 96],
    nullifier: &[u8; 32],
    rk: [u8; 32],
    cmx: &[u8; 32],
    cv_net: &[u8; 32],
    epk_bytes: [u8; 32],
    enc_ciphertext: [u8; 580],
    out_ciphertext: [u8; 80],
) -> (r: Option<([u8; 43], u64, [u8; 32], [u8; 512])>)
    requires
        viewing_key(fvk@),
        canonical_base(nullifier@),
        canonical_base(cmx@),
        pallas_point(rk@),
        !is_identity(rk@),
        pallas_point(cv_net@),
        pallas_point(epk_bytes@),
        !is_identity(epk_bytes@),
    ensures
        match r {
            None => recover_output(
                fvk@,
                nullifier@,
                cmx@,
                cv_net@,
                epk_bytes@,
                enc_ciphertext@,
                out_ciphertext@,
            ) is None,
            Some((to, value, rseed, memo)) => {
                let note = NoteV { recipient: to@, value, rho: nullifier@, rseed: rseed@ };
                &&& recover_output(
                    fvk@,
                    nullifier@,
                    cmx@,
                    cv_net@,
                    epk_bytes@,
                    enc_ciphertext@,
                    out_ciphertext@,
                ) == Some((note, memo@))
                &&& note_valid(note)
                &&& note.commitment() == cmx@
            },
        },
{
    let ovk = OrchardKey::from_bytes(fvk).unwrap().to_ovk(Scope::External);
    let nf = OrchardNullifier::from_bytes(nullifier).unwrap();
    let cmx = OrchardCommitment::from_bytes(cmx).unwrap();
    let cv = OrchardValue::from_bytes(cv_net).unwrap();
    let ct = TransmittedNoteCiphertext { epk_bytes, enc_ciphertext, out_ciphertext };
    let a = Action::from_parts(nf, rk.try_into().unwrap(), cmx, ct, cv, ()).unwrap();
    let domain = OrchardDomain::for_action(&a);
    let found = try_output_recovery_with_ovk(&domain, &ovk, &a, a.cv_net(), &out_ciphertext);
    let (note, to, memo) = found?;
    Some((to.to_raw_address_bytes(), note.value().inner(), *note.rseed().as_bytes(), memo))
}

/// `batch::try_compact_note_decryption` on one output, given by the fields of its record. A
/// note that it gives is valid, has the record's nullifier as its `rho`, and is the one
/// that the record's commitment commits to, at an address of the key. It decrypts the front
/// of the full ciphertext and is blind to the rest, so where the full output decrypts, the
/// record does too, and to the same note.
#[verifier::external_body]
fn try_decrypt_compact(
    ivk: &[u8; 64],
    nullifier: &[u8; 32],
    cmx: &[u8; 32],
    epk_bytes: [u8; 32],
    enc_ciphertext: [u8; 52],
) -> (r: Option<NoteParts>)
    requires
        incoming_key(ivk@),
        canonical_base(nullifier@),
        canonical_base(cmx@),
    ensures
        match r {
            None => decrypt_compact(ivk@, nullifier@, cmx@, epk_bytes@, enc_ciphertext@) is None,
            Some(parts) => {
                &&& decrypt_compact(ivk@, nullifier@, cmx@, epk_bytes@, enc_ciphertext@) == Some(
                    parts_view(parts),
                )
                &&& note_valid(parts_view(parts))
                &&& parts_view(parts).rho == nullifier@
                &&& parts_view(parts).commitment() == cmx@
                &&& seen_by(ivk@, parts_view(parts).recipient)
            },
        },
        forall|enc: Seq<u8>|
            enc.len() == 580 && enc.take(52) == enc_ciphertext@ && decrypt_output(
                ivk@,
                nullifier@,
                cmx@,
                epk_bytes@,
                enc,
            ) is Some ==> r is Some && parts_view(r->Some_0) == (#[trigger] decrypt_output(
                ivk@,
                nullifier@,
                cmx@,
                epk_bytes@,
                enc,
            ))->Some_0.0,
{
    let ivk = orchard::keys::IncomingViewingKey::from_bytes(ivk).unwrap().prepare();
    let nf = OrchardNullifier::from_bytes(nullifier).unwrap();
    let cmx = OrchardCommitment::from_bytes(cmx).unwrap();
    let epk = EphemeralKeyBytes(epk_bytes);
    let action = CompactAction::from_parts(nf, cmx, epk, enc_ciphertext);
    let output = [(OrchardDomain::for_compact_action(&action), action)];
    let ((note, to), _) = batch::try_compact_note_decryption(&[ivk], &output).remove(0)?;
    let (value, rho, rseed) = (note.value().inner(), note.rho().to_bytes(), note.rseed());
    Some((to.to_raw_address_bytes(), value, rho, *rseed.as_bytes()))
}

/// A note recovered from a bundle.
#[derive(Clone, Debug)]
pub struct ReceivedNote {
    /// Index of the action that carried this output.
    pub action_index: usize,
    /// The recovered note.
    pub note: Note,
    /// The output's memo, trimmed; empty where there is none.
    pub memo: Vec<u8>,
}

/// What a [`ReceivedNote`] holds.
pub struct ReceivedV {
    pub action_index: int,
    pub note: NoteV,
    pub memo: Seq<u8>,
}

impl View for ReceivedNote {
    type V = ReceivedV;

    open spec fn view(&self) -> ReceivedV {
        ReceivedV {
            action_index: self.action_index as int,
            note: self.note@,
            memo: self.memo@,
        }
    }
}

/// What a list of recovered notes holds.
pub open spec fn received_views(list: Seq<ReceivedNote>) -> Seq<ReceivedV> {
    Seq::new(list.len(), |i: int| list[i]@)
}

impl ReceivedNote {
    /// The note's value.
    pub fn value(&self) -> (v: u64)
        ensures
            v == self@.note.value,
    {
        self.note.value()
    }
}

/// An incoming viewing key that a caller scans many bundles with.
#[derive(Clone, Copy, Debug)]
pub struct PreparedIncomingViewingKey {
    ivk: IncomingViewingKey,
}

impl View for PreparedIncomingViewingKey {
    type V = Seq<u8>;

    closed spec fn view(&self) -> Seq<u8> {
        self.ivk@
    }
}

impl IncomingViewingKey {
    /// The key, ready to scan many bundles with.
    pub fn prepare(&self) -> (p: PreparedIncomingViewingKey)
        ensures
            p@ == self@,
    {
        PreparedIncomingViewingKey { ivk: *self }
    }
}

/// The external incoming viewing key of a wallet seed.
pub fn ivk_from_seed(seed: [u8; 32]) -> (r: Option<IncomingViewingKey>)
    ensures
        r is Some <==> fvk_of_seed(seed@) is Some,
        r matches Some(k) ==> k@ == ivk_of_fvk(fvk_of_seed(seed@)->Some_0),
{
    match FullViewingKey::from_seed(&seed) {
        Some(fvk) => Some(fvk.to_ivk()),
        None => None,
    }
}

/// The raw external address of a wallet seed.
pub fn address_bytes_from_seed(seed: [u8; 32]) -> (r: Option<[u8; 43]>)
    ensures
        r is Some <==> fvk_of_seed(seed@) is Some,
        r matches Some(a) ==> a@ == address_of_fvk(fvk_of_seed(seed@)->Some_0) && orchard_address(
            a@,
        ),
{
    match FullViewingKey::from_seed(&seed) {
        Some(fvk) => Some(fvk.address()),
        None => None,
    }
}

/// A byte string without the zeros at its end.
pub open spec fn without_trailing_zeros(s: Seq<u8>) -> Seq<u8>
    decreases s.len(),
{
    if s.len() > 0 && s.last() == 0 {
        without_trailing_zeros(s.drop_last())
    } else {
        s
    }
}

/// The meaningful bytes of a memo: trailing zeros go, and the marker of an absent memo
/// reads as empty.
pub open spec fn trimmed_memo(memo: Seq<u8>) -> Seq<u8> {
    let s = without_trailing_zeros(memo);
    if s == seq![0xf6u8] {
        Seq::empty()
    } else {
        s
    }
}

/// Strips a memo to its meaningful bytes.
pub fn trim_memo(memo: &[u8]) -> (out: Vec<u8>)
    ensures
        out@ == trimmed_memo(memo@),
{
    let mut end: usize = memo.len();
    assert(memo@.take(end as int) =~= memo@);
    while end > 0 && memo[end - 1] == 0
        invariant
            0 <= end <= memo@.len(),
            without_trailing_zeros(memo@) == without_trailing_zeros(memo@.take(end as int)),
        decreases end,
    {
        assert(memo@.take(end as int).last() == memo@[end - 1]);
        assert(memo@.take(end as int).drop_last() =~= memo@.take(end - 1));
        end = end - 1;
    }
    proof {
        if end > 0 {
            assert(memo@.take(end as int).last() == memo@[end - 1]);
        }
    }
    if end == 1 && memo[0] == 0xf6 {
        assert(memo@.take(end as int) =~= seq![0xf6u8]);
        return Vec::new();
    }
    proof {
        if memo@.take(end as int) == seq![0xf6u8] {
            assert(memo@.take(end as int).len() == 1);
            assert(memo@.take(end as int)[0] == memo@[0]);
        }
    }
    let mut out: Vec<u8> = Vec::new();
    push_all(&mut out, vstd::slice::slice_subrange(memo, 0, end));
    assert(out@ =~= memo@.take(end as int));
    out
}

/// The indices of the actions that decode.
pub open spec fn decodable(actions: Seq<ActionV>) -> Seq<int>
    decreases actions.len(),
{
    if actions.len() == 0 {
        Seq::empty()
    } else if action_fault(actions.last()) is None {
        decodable(actions.drop_last()).push(actions.len() - 1)
    } else {
        decodable(actions.drop_last())
    }
}

/// The notes among the results of trial decryption, each with the index it belongs to.
pub open spec fn collected(
    indices: Seq<int>,
    results: Seq<Option<(NoteV, Seq<u8>)>>,
) -> Seq<ReceivedV>
    decreases results.len(),
{
    if results.len() == 0 {
        Seq::empty()
    } else {
        let front = collected(indices, results.drop_last());
        match results.last() {
            Some((note, memo)) => front.push(
                ReceivedV {
                    action_index: indices[results.len() - 1],
                    note,
                    memo: trimmed_memo(memo),
                },
            ),
            None => front,
        }
    }
}

/// The notes that a list of actions sends to the holder of an incoming viewing key: an
/// action that does not decode carries none.
pub open spec fn scanned(ivk: Seq<u8>, actions: Seq<ActionV>) -> Seq<ReceivedV>
    decreases actions.len(),
{
    if actions.len() == 0 {
        Seq::empty()
    } else {
        let front = scanned(ivk, actions.drop_last());
        let a = actions.last();
        match decrypt_action(ivk, a) {
            Some((note, memo)) if action_fault(a) is None => front.push(
                ReceivedV {
                    action_index: actions.len() - 1,
                    note,
                    memo: trimmed_memo(memo),
                },
            ),
            _ => front,
        }
    }
}

/// What trial decryption gives for the actions at these indices.
pub open spec fn results_at(ivk: Seq<u8>, actions: Seq<ActionV>, indices: Seq<int>) -> Seq<
    Option<(NoteV, Seq<u8>)>,
> {
    Seq::new(indices.len(), |k: int| decrypt_action(ivk, actions[indices[k]]))
}

proof fn lemma_decodable_range(actions: Seq<ActionV>)
    ensures
        forall|k: int|
            0 <= k < decodable(actions).len() ==> 0 <= #[trigger] decodable(actions)[k]
                < actions.len() && action_fault(actions[decodable(actions)[k]]) is None,
    decreases actions.len(),
{
    if actions.len() > 0 {
        lemma_decodable_range(actions.drop_last());
        let front = decodable(actions.drop_last());
        assert forall|k: int| 0 <= k < decodable(actions).len() implies 0 <= #[trigger] decodable(
            actions,
        )[k] < actions.len() && action_fault(actions[decodable(actions)[k]]) is None by {
            if k < front.len() {
                assert(decodable(actions)[k] == front[k]);
            }
        }
    }
}

proof fn lemma_collected_frame(
    i1: Seq<int>,
    i2: Seq<int>,
    results: Seq<Option<(NoteV, Seq<u8>)>>,
)
    requires
        results.len() <= i1.len(),
        results.len() <= i2.len(),
        forall|k: int| 0 <= k < results.len() ==> i1[k] == i2[k],
    ensures
        collected(i1, results) == collected(i2, results),
    decreases results.len(),
{
    if results.len() > 0 {
        lemma_collected_frame(i1, i2, results.drop_last());
    }
}

proof fn lemma_collected_is_scanned(ivk: Seq<u8>, actions: Seq<ActionV>)
    ensures
        collected(decodable(actions), results_at(ivk, actions, decodable(actions))) == scanned(
            ivk,
            actions,
        ),
    decreases actions.len(),
{
    if actions.len() > 0 {
        let front = actions.drop_last();
        lemma_collected_is_scanned(ivk, front);
        lemma_decodable_range(front);
        let idx = decodable(actions);
        let res = results_at(ivk, actions, idx);
        let fidx = decodable(front);
        let fres = results_at(ivk, front, fidx);
        if action_fault(actions.last()) is None {
            assert(res.drop_last() =~= fres);
            lemma_collected_frame(idx, fidx, fres);
        } else {
            assert(res =~= fres);
        }
    }
}

/// The notes among the results of trial decryption, each with the index it belongs to.
pub fn collect_received(indices: &[usize], results: &[Option<(Note, [u8; 512])>]) -> (out: Vec<
    ReceivedNote,
>)
    requires
        results@.len() <= indices@.len(),
    ensures
        received_views(out@) == collected(
            Seq::new(indices@.len(), |k: int| indices@[k] as int),
            Seq::new(results@.len(), |k: int| decrypted_view(results@[k])),
        ),
{
    let ghost idx = Seq::new(indices@.len(), |k: int| indices@[k] as int);
    let ghost res = Seq::new(results@.len(), |k: int| decrypted_view(results@[k]));
    let mut out: Vec<ReceivedNote> = Vec::new();
    let mut k: usize = 0;
    assert(res.take(0) =~= Seq::<Option<(NoteV, Seq<u8>)>>::empty());
    assert(received_views(out@) =~= Seq::<ReceivedV>::empty());
    while k < results.len()
        invariant
            0 <= k <= results@.len() <= indices@.len(),
            idx == Seq::new(indices@.len(), |k: int| indices@[k] as int),
            res == Seq::new(results@.len(), |k: int| decrypted_view(results@[k])),
            received_views(out@) == collected(idx, res.take(k as int)),
        decreases results@.len() - k,
    {
        proof {
            assert(res.take(k + 1).drop_last() =~= res.take(k as int));
        }
        match &results[k] {
            Some((note, memo)) => {
                let ghost before = out@;
                let found: ReceivedNote = ReceivedNote {
                    action_index: indices[k],
                    note: *note,
                    memo: trim_memo(memo),
                };
                out.push(found);
                assert(received_views(out@) =~= received_views(before).push(found@));
            },
            None => {},
        }
        k = k + 1;
    }
    assert(res.take(k as int) =~= res);
    out
}

/// What a decryption result holds.
pub open spec fn decrypted_view(r: Option<(Note, [u8; 512])>) -> Option<(NoteV, Seq<u8>)> {
    match r {
        Some((note, memo)) => Some((note@, memo@)),
        None => None,
    }
}

/// What decrypts is a note of the key's holder: valid, the one that the commitment commits
/// to, and at an address that the holder sees as its own.
pub open spec fn holds_up(ivk: Seq<u8>, found: Option<NoteV>, cmx: Seq<u8>) -> bool {
    found matches Some(note) ==> note_valid(note) && note.commitment() == cmx && seen_by(
        ivk,
        note.recipient,
    )
}

/// The note that an action decrypts to.
pub open spec fn decrypted_note(ivk: Seq<u8>, a: ActionV) -> Option<NoteV> {
    match decrypt_action(ivk, a) {
        Some((note, _)) => Some(note),
        None => None,
    }
}

/// What the actions that decode decrypt to holds up.
pub open spec fn actions_hold_up(ivk: Seq<u8>, actions: Seq<ActionV>) -> bool {
    forall|i: int|
        0 <= i < actions.len() && action_fault(#[trigger] actions[i]) is None ==> holds_up(
            ivk,
            decrypted_note(ivk, actions[i]),
            actions[i].cmx,
        )
}

/// Scans a bundle with an incoming viewing key.
pub fn scan_bundle(ivk: &IncomingViewingKey, bundle: &ShieldedBundle) -> (out: Vec<ReceivedNote>)
    ensures
        received_views(out@) == scanned(ivk@, bundle@.actions),
        actions_hold_up(ivk@, bundle@.actions),
{
    scan_bundle_prepared(&ivk.prepare(), bundle)
}

/// Scans a bundle: trial decryption of every action that decodes.
pub fn scan_bundle_prepared(prepared: &PreparedIncomingViewingKey, bundle: &ShieldedBundle) -> (out:
    Vec<ReceivedNote>)
    ensures
        received_views(out@) == scanned(prepared@, bundle@.actions),
        actions_hold_up(prepared@, bundle@.actions),
{
    let ghost all = bundle@.actions;
    let key: [u8; 64] = prepared.ivk.to_bytes();
    let mut indices: Vec<usize> = Vec::new();
    let mut results: Vec<Option<(Note, [u8; 512])>> = Vec::new();
    let mut i: usize = 0;
    let ghost mut idx: Seq<int> = Seq::empty();
    assert(all.take(0) =~= Seq::<ActionV>::empty());
    while i < bundle.actions.len()
        invariant
            0 <= i <= bundle.actions@.len(),
            all == action_views(bundle.actions@),
            key@ == prepared@,
            incoming_key(key@),
            idx == decodable(all.take(i as int)),
            forall|k: int|
                0 <= k < i && action_fault(#[trigger] all[k]) is None ==> holds_up(
                    key@,
                    decrypted_note(key@, all[k]),
                    all[k].cmx,
                ),
            indices@.len() == idx.len(),
            results@.len() == idx.len(),
            forall|k: int| 0 <= k < idx.len() ==> #[trigger] indices@[k] == idx[k],
            forall|k: int|
                0 <= k < idx.len() ==> 0 <= idx[k] < i && decrypted_view(#[trigger] results@[k])
                    == decrypt_action(key@, all[idx[k]]),
        decreases bundle.actions@.len() - i,
    {
        let a: &ActionWire = &bundle.actions[i];
        proof {
            assert(all.take(i + 1).drop_last() =~= all.take(i as int));
            assert(all.take(i + 1).last() == a@);
        }
        if check_action(a).is_ok() {
            let found: Option<(Note, [u8; 512])> = match try_decrypt_output(
                &key,
                &a.nullifier,
                a.rk,
                &a.cmx,
                &a.cv_net,
                a.ephemeral_key,
                a.enc_ciphertext,
                a.out_ciphertext,
            ) {
                Some((to, value, rseed, memo)) => Some(
                    (Note::from_valid_parts(to, value, a.nullifier, rseed), memo),
                ),
                None => None,
            };
            indices.push(i);
            results.push(found);
            proof {
                idx = idx.push(i as int);
            }
        }
        i = i + 1;
    }
    proof {
        assert(all.take(i as int) =~= all);
        assert(Seq::new(indices@.len(), |k: int| indices@[k] as int) =~= idx);
        assert(Seq::new(results@.len(), |k: int| decrypted_view(results@[k])) =~= results_at(
            prepared@,
            all,
            idx,
        ));
        lemma_collected_is_scanned(prepared@, all);
    }
    collect_received(indices.as_slice(), results.as_slice())
}

/// The notes of a list of actions that their sender can read back: an entry for each action
/// that decodes and whose output was encrypted to the sender's outgoing key too.
pub open spec fn recovered(fvk: Seq<u8>, actions: Seq<ActionV>) -> Seq<ReceivedV>
    decreases actions.len(),
{
    if actions.len() == 0 {
        Seq::empty()
    } else {
        let front = recovered(fvk, actions.drop_last());
        let a = actions.last();
        match recover_action(fvk, a) {
            Some((note, memo)) if action_fault(a) is None => front.push(
                ReceivedV {
                    action_index: actions.len() - 1,
                    note,
                    memo: trimmed_memo(memo),
                },
            ),
            _ => front,
        }
    }
}

/// Reads a sender's own payments back: whom they paid, how much and with which memo.
pub fn recover_sent(fvk: &FullViewingKey, bundle: &ShieldedBundle) -> (out: Vec<ReceivedNote>)
    ensures
        received_views(out@) == recovered(fvk@, bundle@.actions),
{
    let ghost all = bundle@.actions;
    let key: [u8; 96] = fvk.to_bytes();
    let mut out: Vec<ReceivedNote> = Vec::new();
    let mut i: usize = 0;
    assert(all.take(0) =~= Seq::<ActionV>::empty());
    assert(received_views(out@) =~= Seq::<ReceivedV>::empty());
    while i < bundle.actions.len()
        invariant
            0 <= i <= bundle.actions@.len(),
            all == action_views(bundle.actions@),
            key@ == fvk@,
            viewing_key(key@),
            received_views(out@) == recovered(fvk@, all.take(i as int)),
        decreases bundle.actions@.len() - i,
    {
        let a: &ActionWire = &bundle.actions[i];
        proof {
            assert(all.take(i + 1).drop_last() =~= all.take(i as int));
            assert(all.take(i + 1).last() == a@);
        }
        if check_action(a).is_ok() {
            match try_recover_output(
                &key,
                &a.nullifier,
                a.rk,
                &a.cmx,
                &a.cv_net,
                a.ephemeral_key,
                a.enc_ciphertext,
                a.out_ciphertext,
            ) {
                Some((to, value, rseed, memo)) => {
                    let ghost before = out@;
                    let found: ReceivedNote = ReceivedNote {
                        action_index: i,
                        note: Note::from_valid_parts(to, value, a.nullifier, rseed),
                        memo: trim_memo(&memo),
                    };
                    out.push(found);
                    assert(received_views(out@) =~= received_views(before).push(found@));
                },
                None => {},
            }
        }
        i = i + 1;
    }
    assert(all.take(i as int) =~= all);
    out
}

// ---------------------------------------------------------------------------
// Compact records.

/// One shielded action in compact form: the 148 bytes that a receiver needs to recover a
/// spendable note. The memo is not among them.
#[derive(Clone, Copy, PartialEq, Eq, Debug)]
pub struct CompactActionRecord {
    pub nullifier: [u8; 32],
    pub cmx: [u8; 32],
    pub ephemeral_key: [u8; 32],
    pub enc_ciphertext: [u8; 52],
}

impl CompactActionRecord {
    /// Serialized size.
    pub const SERIALIZED_LEN: usize = 148;

    /// The encoding: the fields in order.
    pub open spec fn encoded(self) -> Seq<u8> {
        self.nullifier@ + self.cmx@ + self.ephemeral_key@ + self.enc_ciphertext@
    }

    /// The record's nullifier and commitment decode.
    pub open spec fn decodes(self) -> bool {
        canonical_base(self.nullifier@) && canonical_base(self.cmx@)
    }

    /// Distills a full action down to its compact record.
    pub fn from_wire(a: &ActionWire) -> (r: Self)
        ensures
            r.nullifier == a.nullifier,
            r.cmx == a.cmx,
            r.ephemeral_key == a.ephemeral_key,
            r.enc_ciphertext@ == a.enc_ciphertext@.take(52),
    {
        let front: &[u8] = vstd::slice::slice_subrange(a.enc_ciphertext.as_slice(), 0, 52);
        assert(front@ =~= a.enc_ciphertext@.take(52));
        CompactActionRecord {
            nullifier: a.nullifier,
            cmx: a.cmx,
            ephemeral_key: a.ephemeral_key,
            enc_ciphertext: to_array::<52>(front),
        }
    }

    /// The fixed-layout encoding.
    pub fn to_bytes(&self) -> (out: [u8; 148])
        ensures
            out@ == self.encoded(),
    {
        let mut buf: Vec<u8> = Vec::new();
        push_all(&mut buf, &self.nullifier);
        push_all(&mut buf, &self.cmx);
        push_all(&mut buf, &self.ephemeral_key);
        push_all(&mut buf, &self.enc_ciphertext);
        assert(buf@ =~= self.encoded());
        to_array::<148>(buf.as_slice())
    }

    /// Decodes a record; `None` where the length is wrong.
    pub fn from_bytes(b: &[u8]) -> (r: Option<Self>)
        ensures
            r is Some <==> b@.len() == 148,
            r matches Some(rec) ==> rec.encoded() == b@,
    {
        if b.len() != 148 {
            return None;
        }
        let rec: CompactActionRecord = CompactActionRecord {
            nullifier: to_array::<32>(vstd::slice::slice_subrange(b, 0, 32)),
            cmx: to_array::<32>(vstd::slice::slice_subrange(b, 32, 64)),
            ephemeral_key: to_array::<32>(vstd::slice::slice_subrange(b, 64, 96)),
            enc_ciphertext: to_array::<52>(vstd::slice::slice_subrange(b, 96, 148)),
        };
        assert(rec.encoded() =~= b@);
        Some(rec)
    }

    /// Whether the record decodes to an action that can be trial-decrypted.
    fn check(&self) -> (r: bool)
        ensures
            r == self.decodes(),
    {
        Nullifier::from_bytes(&self.nullifier).is_some() && ExtractedNoteCommitment::from_bytes(
            &self.cmx,
        ).is_some()
    }
}

/// A record has one encoding: records with the same bytes hold the same fields.
pub proof fn record_encoding_is_injective(a: CompactActionRecord, b: CompactActionRecord)
    requires
        a.encoded() == b.encoded(),
    ensures
        a.nullifier@ == b.nullifier@,
        a.cmx@ == b.cmx@,
        a.ephemeral_key@ == b.ephemeral_key@,
        a.enc_ciphertext@ == b.enc_ciphertext@,
{
    let s = a.encoded();
    assert(a.nullifier@ =~= s.subrange(0, 32));
    assert(b.nullifier@ =~= s.subrange(0, 32));
    assert(a.cmx@ =~= s.subrange(32, 64));
    assert(b.cmx@ =~= s.subrange(32, 64));
    assert(a.ephemeral_key@ =~= s.subrange(64, 96));
    assert(b.ephemeral_key@ =~= s.subrange(64, 96));
    assert(a.enc_ciphertext@ =~= s.subrange(96, 148));
    assert(b.enc_ciphertext@ =~= s.subrange(96, 148));
}

/// [`decrypt_compact`] on a record.
pub open spec fn decrypt_record(ivk: Seq<u8>, r: CompactActionRecord) -> Option<NoteV> {
    decrypt_compact(ivk, r.nullifier@, r.cmx@, r.ephemeral_key@, r.enc_ciphertext@)
}

/// The notes that a list of records sends to the holder of an incoming viewing key, with
/// empty memos.
pub open spec fn scanned_compact(ivk: Seq<u8>, records: Seq<CompactActionRecord>) -> Seq<ReceivedV>
    decreases records.len(),
{
    if records.len() == 0 {
        Seq::empty()
    } else {
        let front = scanned_compact(ivk, records.drop_last());
        let r = records.last();
        match decrypt_record(ivk, r) {
            Some(note) if r.decodes() => front.push(
                ReceivedV { action_index: records.len() - 1, note, memo: Seq::empty() },
            ),
            _ => front,
        }
    }
}

/// The full scan of an action and the compact scan of its record agree: where the action
/// decrypts, the record decrypts to the same note.
pub open spec fn compact_follows(ivk: Seq<u8>, a: ActionV, r: CompactActionRecord) -> bool {
    decrypt_action(ivk, a) is Some ==> decrypt_record(ivk, r) == Some(
        decrypt_action(ivk, a)->Some_0.0,
    )
}

/// The record is the compact form of the action.
pub open spec fn distilled(a: ActionV, r: CompactActionRecord) -> bool {
    &&& a.sized()
    &&& r.nullifier@ == a.nullifier
    &&& r.cmx@ == a.cmx
    &&& r.ephemeral_key@ == a.ephemeral_key
    &&& r.enc_ciphertext@ == a.enc_ciphertext.take(52)
}

/// Scans compact records: trial decryption of every record that decodes. It misses nothing
/// that a full scan of the same actions finds.
pub fn scan_compact_prepared(
    prepared: &PreparedIncomingViewingKey,
    actions: &[CompactActionRecord],
) -> (out: Vec<ReceivedNote>)
    ensures
        received_views(out@) == scanned_compact(prepared@, actions@),
        forall|i: int|
            0 <= i < actions@.len() && (#[trigger] actions@[i]).decodes() ==> holds_up(
                prepared@,
                decrypt_record(prepared@, actions@[i]),
                actions@[i].cmx@,
            ),
        forall|i: int, a: ActionV|
            0 <= i < actions@.len() && actions@[i].decodes() && #[trigger] distilled(a, actions@[i])
                ==> compact_follows(prepared@, a, actions@[i]),
{
    let key: [u8; 64] = prepared.ivk.to_bytes();
    let mut out: Vec<ReceivedNote> = Vec::new();
    let mut j: usize = 0;
    assert(actions@.take(0) =~= Seq::<CompactActionRecord>::empty());
    assert(received_views(out@) =~= Seq::<ReceivedV>::empty());
    while j < actions.len()
        invariant
            0 <= j <= actions@.len(),
            key@ == prepared@,
            incoming_key(key@),
            received_views(out@) == scanned_compact(prepared@, actions@.take(j as int)),
            forall|i: int|
                0 <= i < j && (#[trigger] actions@[i]).decodes() ==> holds_up(
                    prepared@,
                    decrypt_record(prepared@, actions@[i]),
                    actions@[i].cmx@,
                ),
            forall|i: int, a: ActionV|
                0 <= i < j && actions@[i].decodes() && #[trigger] distilled(a, actions@[i])
                    ==> compact_follows(prepared@, a, actions@[i]),
        decreases actions@.len() - j,
    {
        let r: CompactActionRecord = actions[j];
        proof {
            assert(actions@.take(j + 1).drop_last() =~= actions@.take(j as int));
            assert(actions@.take(j + 1).last() == r);
        }
        if r.check() {
            match try_decrypt_compact(
                &key,
                &r.nullifier,
                &r.cmx,
                r.ephemeral_key,
                r.enc_ciphertext,
            ) {
                Some(parts) => {
                    let ghost before = out@;
                    let note: Note = Note::from_valid_parts(parts.0, parts.1, parts.2, parts.3);
                    let found: ReceivedNote = ReceivedNote {
                        action_index: j,
                        note,
                        memo: Vec::new(),
                    };
                    out.push(found);
                    assert(found@.memo =~= Seq::<u8>::empty());
                    assert(received_views(out@) =~= received_views(before).push(found@));
                },
                None => {},
            }
            proof {
                assert forall|a: ActionV| #[trigger] distilled(a, r) implies compact_follows(
                    prepared@,
                    a,
                    r,
                ) by {
                    if decrypt_action(prepared@, a) is Some {
                        assert(a.enc_ciphertext.take(52) == r.enc_ciphertext@);
                    }
                }
            }
        }
        j = j + 1;
    }
    assert(actions@.take(j as int) =~= actions@);
    out
}

/// Scans compact records with an incoming viewing key.
pub fn scan_compact(ivk: &IncomingViewingKey, actions: &[CompactActionRecord]) -> (out: Vec<
    ReceivedNote,
>)
    ensures
        received_views(out@) == scanned_compact(ivk@, actions@),
        forall|i: int|
            0 <= i < actions@.len() && (#[trigger] actions@[i]).decodes() ==> holds_up(
                ivk@,
                decrypt_record(ivk@, actions@[i]),
                actions@[i].cmx@,
            ),
        forall|i: int, a: ActionV|
            0 <= i < actions@.len() && actions@[i].decodes() && #[trigger] distilled(a, actions@[i])
                ==> compact_follows(ivk@, a, actions@[i]),
{
    scan_compact_prepared(&ivk.prepare(), actions)
}

} // verus!
