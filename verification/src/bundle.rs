//! The wire format of a shielded bundle, as carried in a transaction payload.
//!
//! The encoding is canonical: a bundle has one encoding, and a byte string that
//! decodes at all is the encoding of what it decodes to. Integers and length
//! prefixes are big-endian.

use crate::bytes::{
    be_bytes, be_of, be_value, copy, i64_bits, i64_from_bits, i64_of_bits, i64_to_bits,
    lemma_be_bytes_len, lemma_be_bytes_of_value, lemma_be_value_bound, lemma_be_value_of_bytes,
    lemma_i64_bits, lemma_pow256, low_u32, push_all, push_be, to_array,
};
use crate::nullifier::NullifierBytes;
use vstd::prelude::*;

pub mod sizes;

verus! {

/// Consensus upper bound on the number of actions in one bundle. A shielded
/// transaction carries no other measure of the verification work it demands, so
/// this bound is what keeps that work finite.
pub const MAX_ACTIONS_PER_BUNDLE: usize = 512;

/// A single Orchard action, as it appears on the wire.
#[derive(Clone, Debug, PartialEq, Eq)]
pub struct ActionWire {
    /// Nullifier of the note spent by this action (the conflict key).
    pub nullifier: NullifierBytes,
    /// Randomized verification key for the spend-authorization signature.
    pub rk: [u8; sizes::FIELD],
    /// Extracted commitment of the note created by this action (the tree leaf).
    pub cmx: [u8; sizes::FIELD],
    /// Net value commitment.
    pub cv_net: [u8; sizes::FIELD],
    /// Ephemeral public key for note encryption.
    pub ephemeral_key: [u8; sizes::FIELD],
    /// Encrypted note plaintext for the receiver.
    pub enc_ciphertext: [u8; sizes::ENC_CIPHERTEXT],
    /// Encrypted note plaintext recoverable with the outgoing viewing key.
    pub out_ciphertext: [u8; sizes::OUT_CIPHERTEXT],
    /// Spend-authorization signature.
    pub spend_auth_sig: [u8; sizes::SIG],
}

/// What an [`ActionWire`] holds, field by field.
pub struct ActionV {
    pub nullifier: Seq<u8>,
    pub rk: Seq<u8>,
    pub cmx: Seq<u8>,
    pub cv_net: Seq<u8>,
    pub ephemeral_key: Seq<u8>,
    pub enc_ciphertext: Seq<u8>,
    pub out_ciphertext: Seq<u8>,
    pub spend_auth_sig: Seq<u8>,
}

impl View for ActionWire {
    type V = ActionV;

    open spec fn view(&self) -> ActionV {
        ActionV {
            nullifier: self.nullifier@,
            rk: self.rk@,
            cmx: self.cmx@,
            cv_net: self.cv_net@,
            ephemeral_key: self.ephemeral_key@,
            enc_ciphertext: self.enc_ciphertext@,
            out_ciphertext: self.out_ciphertext@,
            spend_auth_sig: self.spend_auth_sig@,
        }
    }
}

impl ActionV {
    /// Every field has the size that the wire format gives it.
    pub open spec fn sized(self) -> bool {
        &&& self.nullifier.len() == sizes::FIELD
        &&& self.rk.len() == sizes::FIELD
        &&& self.cmx.len() == sizes::FIELD
        &&& self.cv_net.len() == sizes::FIELD
        &&& self.ephemeral_key.len() == sizes::FIELD
        &&& self.enc_ciphertext.len() == sizes::ENC_CIPHERTEXT
        &&& self.out_ciphertext.len() == sizes::OUT_CIPHERTEXT
        &&& self.spend_auth_sig.len() == sizes::SIG
    }

    /// The encoding of one action: its fields in order.
    pub open spec fn encoded(self) -> Seq<u8> {
        self.nullifier + self.rk + self.cmx + self.cv_net + self.ephemeral_key
            + self.enc_ciphertext + self.out_ciphertext + self.spend_auth_sig
    }
}

impl ActionWire {
    /// Serialized size of one action: five field or group elements, the two
    /// ciphertexts and the signature.
    pub const SERIALIZED_LEN: usize = 884;
}

/// An Orchard bundle as carried in a shielded transaction's payload.
#[derive(Clone, Debug, PartialEq, Eq)]
pub struct ShieldedBundle {
    /// The actions (merged spend and output units).
    pub actions: Vec<ActionWire>,
    /// Bundle flags (spends-enabled and outputs-enabled bits).
    pub flags: u8,
    /// Public net value balance: positive where value leaves the shielded pool as
    /// a fee, negative where value enters it.
    pub value_balance: i64,
    /// The anchor that the spends prove against.
    pub anchor: [u8; sizes::FIELD],
    /// The proof for the whole bundle.
    pub proof: Vec<u8>,
    /// The binding signature tying the value commitments to `value_balance`.
    pub binding_sig: [u8; sizes::SIG],
}

/// What a [`ShieldedBundle`] holds.
pub struct BundleV {
    pub actions: Seq<ActionV>,
    pub flags: u8,
    pub value_balance: i64,
    pub anchor: Seq<u8>,
    pub proof: Seq<u8>,
    pub binding_sig: Seq<u8>,
}

/// What a list of actions holds.
pub open spec fn action_views(actions: Seq<ActionWire>) -> Seq<ActionV> {
    Seq::new(actions.len(), |i: int| actions[i]@)
}

impl View for ShieldedBundle {
    type V = BundleV;

    open spec fn view(&self) -> BundleV {
        BundleV {
            actions: action_views(self.actions@),
            flags: self.flags,
            value_balance: self.value_balance,
            anchor: self.anchor@,
            proof: self.proof@,
            binding_sig: self.binding_sig@,
        }
    }
}

/// A byte string behind its length.
pub open spec fn var_bytes(b: Seq<u8>) -> Seq<u8> {
    be_bytes((b.len() % 0x1_0000_0000) as nat, 4) + b
}

/// The encodings of a list of actions, one after the other.
pub open spec fn actions_bytes(actions: Seq<ActionV>) -> Seq<u8>
    decreases actions.len(),
{
    if actions.len() == 0 {
        Seq::empty()
    } else {
        actions_bytes(actions.drop_last()) + actions.last().encoded()
    }
}

impl BundleV {
    /// Every field has the size that the wire format gives it.
    pub open spec fn sized(self) -> bool {
        &&& forall|i: int| 0 <= i < self.actions.len() ==> (#[trigger] self.actions[i]).sized()
        &&& self.anchor.len() == sizes::FIELD
        &&& self.binding_sig.len() == sizes::SIG
    }

    /// The bundle can be carried: its actions are within the bound, and the length
    /// of its proof fits the length prefix.
    pub open spec fn carriable(self) -> bool {
        &&& self.sized()
        &&& self.actions.len() <= MAX_ACTIONS_PER_BUNDLE
        &&& self.proof.len() < 0x1_0000_0000
    }

    /// The canonical encoding.
    pub open spec fn encoded(self) -> Seq<u8> {
        seq![self.flags] + be_bytes(i64_bits(self.value_balance), 8) + self.anchor + var_bytes(
            self.binding_sig,
        ) + be_bytes((self.actions.len() % 0x1_0000_0000) as nat, 4) + actions_bytes(self.actions)
            + var_bytes(self.proof)
    }

    /// The nullifiers that the bundle reveals, in action order.
    pub open spec fn nullifiers(self) -> Seq<Seq<u8>> {
        Seq::new(self.actions.len(), |i: int| self.actions[i].nullifier)
    }
}

/// Why a [`ShieldedBundle`] could not be decoded from bytes.
#[derive(Debug, Clone, PartialEq, Eq)]
pub enum BundleDecodeError {
    /// Ran out of input before a field was complete.
    UnexpectedEof,
    /// A length prefix reaches past every possible input.
    LengthOverflow,
    /// Trailing bytes remained after decoding.
    TrailingBytes,
    /// The bundle declared more actions than [`MAX_ACTIONS_PER_BUNDLE`].
    TooManyActions,
}

/// `n` bytes of `s` at `pos`.
pub open spec fn read(s: Seq<u8>, pos: int, n: int) -> Result<Seq<u8>, BundleDecodeError> {
    if pos + n > usize::MAX {
        Err(BundleDecodeError::LengthOverflow)
    } else if pos + n > s.len() {
        Err(BundleDecodeError::UnexpectedEof)
    } else {
        Ok(s.subrange(pos, pos + n))
    }
}

/// The byte string behind its length at `pos`.
pub open spec fn read_var(s: Seq<u8>, pos: int) -> Result<Seq<u8>, BundleDecodeError> {
    match read(s, pos, 4) {
        Err(e) => Err(e),
        Ok(len) => read(s, pos + 4, be_value(len) as int),
    }
}

/// The action at `pos`: its fields in order, or the first failure among them.
pub open spec fn read_action(s: Seq<u8>, pos: int) -> Result<ActionV, BundleDecodeError> {
    match read(s, pos, 32) {
        Err(e) => Err(e),
        Ok(nullifier) => match read(s, pos + 32, 32) {
            Err(e) => Err(e),
            Ok(rk) => match read(s, pos + 64, 32) {
                Err(e) => Err(e),
                Ok(cmx) => match read(s, pos + 96, 32) {
                    Err(e) => Err(e),
                    Ok(cv_net) => match read(s, pos + 128, 32) {
                        Err(e) => Err(e),
                        Ok(ephemeral_key) => match read(s, pos + 160, 580) {
                            Err(e) => Err(e),
                            Ok(enc_ciphertext) => match read(s, pos + 740, 80) {
                                Err(e) => Err(e),
                                Ok(out_ciphertext) => match read(s, pos + 820, 64) {
                                    Err(e) => Err(e),
                                    Ok(spend_auth_sig) => Ok(
                                        ActionV {
                                            nullifier,
                                            rk,
                                            cmx,
                                            cv_net,
                                            ephemeral_key,
                                            enc_ciphertext,
                                            out_ciphertext,
                                            spend_auth_sig,
                                        },
                                    ),
                                },
                            },
                        },
                    },
                },
            },
        },
    }
}

/// The `n` actions from `pos` on, or the first failure among them.
pub open spec fn read_actions(s: Seq<u8>, pos: int, n: nat) -> Result<
    Seq<ActionV>,
    BundleDecodeError,
>
    decreases n,
{
    if n == 0 {
        Ok(Seq::empty())
    } else {
        match read_actions(s, pos, (n - 1) as nat) {
            Err(e) => Err(e),
            Ok(front) => match read_action(s, pos + 884 * (n - 1)) {
                Err(e) => Err(e),
                Ok(a) => Ok(front.push(a)),
            },
        }
    }
}

/// The part of a bundle behind its head (flags, value balance, anchor and binding
/// signature): the actions and the proof, and the end of the input.
pub open spec fn decode_body(
    s: Seq<u8>,
    flags: u8,
    value_balance: i64,
    anchor: Seq<u8>,
    binding_sig: Seq<u8>,
) -> Result<BundleV, BundleDecodeError> {
    match read(s, 109, 4) {
        Err(e) => Err(e),
        Ok(count) => if be_value(count) > MAX_ACTIONS_PER_BUNDLE {
            Err(BundleDecodeError::TooManyActions)
        } else {
            let n = be_value(count);
            match read_actions(s, 113, n) {
                Err(e) => Err(e),
                Ok(actions) => match read_var(s, (113 + 884 * n) as int) {
                    Err(e) => Err(e),
                    Ok(proof) => if 113 + 884 * n + 4 + proof.len() != s.len() {
                        Err(BundleDecodeError::TrailingBytes)
                    } else {
                        Ok(BundleV { actions, flags, value_balance, anchor, proof, binding_sig })
                    },
                },
            }
        },
    }
}

/// The bundle that a byte string encodes, or why it encodes none.
pub open spec fn decode_bundle(s: Seq<u8>) -> Result<BundleV, BundleDecodeError> {
    match read(s, 0, 1) {
        Err(e) => Err(e),
        Ok(flags) => match read(s, 1, 8) {
            Err(e) => Err(e),
            Ok(balance) => match read(s, 9, 32) {
                Err(e) => Err(e),
                Ok(anchor) => match read_var(s, 41) {
                    Err(e) => Err(e),
                    Ok(sig) => if sig.len() != sizes::SIG {
                        Err(BundleDecodeError::UnexpectedEof)
                    } else {
                        decode_body(s, flags[0], i64_of_bits(be_value(balance)), anchor, sig)
                    },
                },
            },
        },
    }
}

/// A byte writer with big-endian integers and length prefixes.
pub struct Writer {
    pub buf: Vec<u8>,
}

impl Writer {
    /// An empty writer.
    pub fn new() -> (w: Self)
        ensures
            w.buf@ == Seq::<u8>::empty(),
    {
        Writer { buf: Vec::new() }
    }

    /// Writes `b` as it is.
    pub fn bytes(&mut self, b: &[u8])
        ensures
            final(self).buf@ == old(self).buf@ + b@,
    {
        push_all(&mut self.buf, b);
    }

    /// Writes one byte.
    pub fn u8(&mut self, v: u8)
        ensures
            final(self).buf@ == old(self).buf@ + seq![v],
    {
        self.buf.push(v);
        assert(self.buf@ =~= old(self).buf@ + seq![v]);
    }

    /// Writes a 32-bit integer.
    pub fn u32(&mut self, v: u32)
        ensures
            final(self).buf@ == old(self).buf@ + be_bytes(v as nat, 4),
    {
        push_be(&mut self.buf, v as u128, 4);
    }

    /// Writes a signed 64-bit integer.
    pub fn i64(&mut self, v: i64)
        ensures
            final(self).buf@ == old(self).buf@ + be_bytes(i64_bits(v), 8),
    {
        let bits: u64 = i64_to_bits(v);
        push_be(&mut self.buf, bits as u128, 8);
    }

    /// Writes `b` behind its length.
    pub fn var(&mut self, b: &[u8])
        ensures
            final(self).buf@ == old(self).buf@ + var_bytes(b@),
    {
        self.u32(low_u32(b.len()));
        self.bytes(b);
        assert(self.buf@ =~= old(self).buf@ + var_bytes(b@));
    }
}

/// A byte reader over `buf` that stands at `pos`.
pub struct Reader<'a> {
    pub buf: &'a [u8],
    pub pos: usize,
}

impl<'a> Reader<'a> {
    /// The position is within the input.
    pub open spec fn wf(&self) -> bool {
        self.pos <= self.buf@.len()
    }

    /// A reader at the start of `buf`.
    pub fn new(buf: &'a [u8]) -> (r: Self)
        ensures
            r.buf@ == buf@,
            r.pos == 0,
            r.wf(),
    {
        Reader { buf, pos: 0 }
    }

    /// Takes the next `n` bytes.
    pub fn take(&mut self, n: usize) -> (r: Result<&'a [u8], BundleDecodeError>)
        requires
            old(self).wf(),
        ensures
            final(self).wf(),
            final(self).buf@ == old(self).buf@,
            match (r, read(old(self).buf@, old(self).pos as int, n as int)) {
                (Ok(b), Ok(s)) => b@ == s && final(self).pos == old(self).pos + n,
                (Err(e), Err(f)) => e == f && final(self).pos == old(self).pos,
                _ => false,
            },
    {
        let end: usize = match self.pos.checked_add(n) {
            None => {
                return Err(BundleDecodeError::LengthOverflow);
            },
            Some(end) => end,
        };
        if end > self.buf.len() {
            return Err(BundleDecodeError::UnexpectedEof);
        }
        let s: &'a [u8] = &self.buf[self.pos..end];
        self.pos = end;
        Ok(s)
    }

    /// Takes the next `N` bytes into an array.
    pub fn array<const N: usize>(&mut self) -> (r: Result<[u8; N], BundleDecodeError>)
        requires
            old(self).wf(),
        ensures
            final(self).wf(),
            final(self).buf@ == old(self).buf@,
            match (r, read(old(self).buf@, old(self).pos as int, N as int)) {
                (Ok(b), Ok(s)) => b@ == s && final(self).pos == old(self).pos + N,
                (Err(e), Err(f)) => e == f && final(self).pos == old(self).pos,
                _ => false,
            },
    {
        let s: &'a [u8] = self.take(N)?;
        Ok(to_array::<N>(s))
    }

    /// Takes one byte.
    pub fn u8(&mut self) -> (r: Result<u8, BundleDecodeError>)
        requires
            old(self).wf(),
        ensures
            final(self).wf(),
            final(self).buf@ == old(self).buf@,
            match (r, read(old(self).buf@, old(self).pos as int, 1)) {
                (Ok(b), Ok(s)) => b == s[0] && final(self).pos == old(self).pos + 1,
                (Err(e), Err(f)) => e == f && final(self).pos == old(self).pos,
                _ => false,
            },
    {
        let s: &'a [u8] = self.take(1)?;
        Ok(s[0])
    }

    /// Takes a 32-bit integer.
    pub fn u32(&mut self) -> (r: Result<u32, BundleDecodeError>)
        requires
            old(self).wf(),
        ensures
            final(self).wf(),
            final(self).buf@ == old(self).buf@,
            match (r, read(old(self).buf@, old(self).pos as int, 4)) {
                (Ok(v), Ok(s)) => v == be_value(s) && final(self).pos == old(self).pos + 4,
                (Err(e), Err(f)) => e == f && final(self).pos == old(self).pos,
                _ => false,
            },
    {
        let s: &'a [u8] = self.take(4)?;
        proof {
            lemma_be_value_bound(s@);
            lemma_pow256();
        }
        Ok(be_of(s) as u32)
    }

    /// Takes a signed 64-bit integer.
    pub fn i64(&mut self) -> (r: Result<i64, BundleDecodeError>)
        requires
            old(self).wf(),
        ensures
            final(self).wf(),
            final(self).buf@ == old(self).buf@,
            match (r, read(old(self).buf@, old(self).pos as int, 8)) {
                (Ok(v), Ok(s)) => v == i64_of_bits(be_value(s)) && final(self).pos == old(
                    self,
                ).pos + 8,
                (Err(e), Err(f)) => e == f && final(self).pos == old(self).pos,
                _ => false,
            },
    {
        let s: &'a [u8] = self.take(8)?;
        proof {
            lemma_be_value_bound(s@);
            lemma_pow256();
        }
        Ok(i64_from_bits(be_of(s) as u64))
    }

    /// Takes a byte string behind its length.
    pub fn var(&mut self) -> (r: Result<Vec<u8>, BundleDecodeError>)
        requires
            old(self).wf(),
        ensures
            final(self).wf(),
            final(self).buf@ == old(self).buf@,
            match (r, read_var(old(self).buf@, old(self).pos as int)) {
                (Ok(v), Ok(s)) => v@ == s && final(self).pos == old(self).pos + 4 + s.len(),
                (Err(e), Err(f)) => e == f,
                _ => false,
            },
    {
        let n: u32 = self.u32()?;
        let s: &'a [u8] = self.take(n as usize)?;
        Ok(copy(s))
    }

    /// Whether nothing is left to read.
    pub fn finished(&self) -> (r: bool)
        ensures
            r == (self.pos == self.buf@.len()),
    {
        self.pos == self.buf.len()
    }

    /// Takes one action.
    fn action(&mut self) -> (r: Result<ActionWire, BundleDecodeError>)
        requires
            old(self).wf(),
        ensures
            final(self).wf(),
            final(self).buf@ == old(self).buf@,
            match (r, read_action(old(self).buf@, old(self).pos as int)) {
                (Ok(a), Ok(v)) => a@ == v && final(self).pos == old(self).pos + 884,
                (Err(e), Err(f)) => e == f,
                _ => false,
            },
    {
        let nullifier: NullifierBytes = self.array::<32>()?;
        let rk: [u8; 32] = self.array::<32>()?;
        let cmx: [u8; 32] = self.array::<32>()?;
        let cv_net: [u8; 32] = self.array::<32>()?;
        let ephemeral_key: [u8; 32] = self.array::<32>()?;
        let enc_ciphertext: [u8; 580] = self.array::<580>()?;
        let out_ciphertext: [u8; 80] = self.array::<80>()?;
        let spend_auth_sig: [u8; 64] = self.array::<64>()?;
        Ok(
            ActionWire {
                nullifier,
                rk,
                cmx,
                cv_net,
                ephemeral_key,
                enc_ciphertext,
                out_ciphertext,
                spend_auth_sig,
            },
        )
    }
}

/// What a decoding gave, seen through the view of the bundle.
pub open spec fn decoded(r: Result<ShieldedBundle, BundleDecodeError>) -> Result<
    BundleV,
    BundleDecodeError,
> {
    match r {
        Ok(b) => Ok(b@),
        Err(e) => Err(e),
    }
}

impl ShieldedBundle {
    /// Encodes to the canonical payload byte form.
    pub fn to_bytes(&self) -> (out: Vec<u8>)
        ensures
            out@ == self@.encoded(),
    {
        let mut w: Writer = Writer::new();
        w.u8(self.flags);
        w.i64(self.value_balance);
        w.bytes(&self.anchor);
        w.var(&self.binding_sig);
        w.u32(low_u32(self.actions.len()));
        let ghost head = w.buf@;
        let ghost all = self@.actions;
        assert(actions_bytes(all.take(0)) =~= Seq::<u8>::empty());
        assert(head =~= head + actions_bytes(all.take(0)));
        let mut i: usize = 0;
        while i < self.actions.len()
            invariant
                0 <= i <= self.actions@.len(),
                all == action_views(self.actions@),
                w.buf@ == head + actions_bytes(all.take(i as int)),
            decreases self.actions@.len() - i,
        {
            let a: &ActionWire = &self.actions[i];
            w.bytes(&a.nullifier);
            w.bytes(&a.rk);
            w.bytes(&a.cmx);
            w.bytes(&a.cv_net);
            w.bytes(&a.ephemeral_key);
            w.bytes(&a.enc_ciphertext);
            w.bytes(&a.out_ciphertext);
            w.bytes(&a.spend_auth_sig);
            proof {
                assert(all.take(i + 1).drop_last() =~= all.take(i as int));
                assert(all.take(i + 1).last() == a@);
                assert(w.buf@ =~= head + actions_bytes(all.take(i + 1)));
            }
            i = i + 1;
        }
        assert(all.take(i as int) =~= all);
        w.var(&self.proof);
        assert(w.buf@ =~= self@.encoded());
        w.buf
    }

    /// Decodes from canonical payload bytes.
    pub fn from_bytes(bytes: &[u8]) -> (r: Result<Self, BundleDecodeError>)
        ensures
            decoded(r) == decode_bundle(bytes@),
    {
        let mut r: Reader = Reader::new(bytes);
        let flags: u8 = r.u8()?;
        let value_balance: i64 = r.i64()?;
        let anchor: [u8; 32] = r.array::<32>()?;
        let binding_sig_vec: Vec<u8> = r.var()?;
        if binding_sig_vec.len() != sizes::SIG {
            return Err(BundleDecodeError::UnexpectedEof);
        }
        let binding_sig: [u8; 64] = to_array::<64>(binding_sig_vec.as_slice());
        let n_actions: u32 = r.u32()?;
        if n_actions as usize > MAX_ACTIONS_PER_BUNDLE {
            return Err(BundleDecodeError::TooManyActions);
        }
        let mut actions: Vec<ActionWire> = Vec::new();
        let mut i: u32 = 0;
        assert(action_views(actions@) =~= Seq::<ActionV>::empty());
        while i < n_actions
            invariant
                0 <= i <= n_actions,
                n_actions <= MAX_ACTIONS_PER_BUNDLE,
                r.wf(),
                r.buf@ == bytes@,
                r.pos == 113 + 884 * i,
                read_actions(bytes@, 113, i as nat) == Ok::<Seq<ActionV>, BundleDecodeError>(
                    action_views(actions@),
                ),
                forall|e: BundleDecodeError|
                    read_actions(bytes@, 113, n_actions as nat) == Err::<Seq<ActionV>, _>(e)
                        ==> decode_bundle(bytes@) == Err::<BundleV, _>(e),
            decreases n_actions - i,
        {
            let a: ActionWire = match r.action() {
                Ok(a) => a,
                Err(e) => {
                    proof {
                        lemma_read_actions_fails(bytes@, 113, (i + 1) as nat, n_actions as nat, e);
                    }
                    return Err(e);
                },
            };
            let ghost before = actions@;
            actions.push(a);
            proof {
                assert(action_views(actions@) =~= action_views(before).push(a@));
            }
            i = i + 1;
        }
        let proof: Vec<u8> = r.var()?;
        if !r.finished() {
            return Err(BundleDecodeError::TrailingBytes);
        }
        Ok(ShieldedBundle { actions, flags, value_balance, anchor, proof, binding_sig })
    }

    /// The nullifiers revealed by this bundle, in action order.
    pub fn nullifiers(&self) -> (out: Vec<NullifierBytes>)
        ensures
            crate::bytes::views32(out@) == self@.nullifiers(),
    {
        let mut out: Vec<NullifierBytes> = Vec::new();
        let mut i: usize = 0;
        while i < self.actions.len()
            invariant
                0 <= i <= self.actions@.len(),
                out@.len() == i,
                forall|j: int| 0 <= j < i ==> (#[trigger] out@[j])@ == self.actions@[j].nullifier@,
            decreases self.actions@.len() - i,
        {
            out.push(self.actions[i].nullifier);
            i = i + 1;
        }
        assert(crate::bytes::views32(out@) =~= self@.nullifiers());
        out
    }
}

/// Where reading `n` actions fails, reading more of them fails in the same way.
proof fn lemma_read_actions_fails(s: Seq<u8>, pos: int, n: nat, m: nat, e: BundleDecodeError)
    requires
        n <= m,
        read_actions(s, pos, n) == Err::<Seq<ActionV>, _>(e),
    ensures
        read_actions(s, pos, m) == Err::<Seq<ActionV>, _>(e),
    decreases m - n,
{
    if n < m {
        lemma_read_actions_fails(s, pos, n, (m - 1) as nat, e);
    }
}

proof fn lemma_actions_bytes_len(actions: Seq<ActionV>)
    requires
        forall|i: int| 0 <= i < actions.len() ==> (#[trigger] actions[i]).sized(),
    ensures
        actions_bytes(actions).len() == 884 * actions.len(),
    decreases actions.len(),
{
    if actions.len() > 0 {
        assert(forall|i: int| 0 <= i < actions.drop_last().len() ==> actions.drop_last()[i]
            == actions[i]);
        lemma_actions_bytes_len(actions.drop_last());
        assert(actions.last().sized());
    }
}

proof fn lemma_read_action_back(a: ActionV, pre: Seq<u8>, post: Seq<u8>)
    requires
        a.sized(),
        (pre + a.encoded() + post).len() <= usize::MAX,
    ensures
        read_action(pre + a.encoded() + post, pre.len() as int) == Ok::<ActionV, BundleDecodeError>(
            a,
        ),
{
    let s = pre + a.encoded() + post;
    let p = pre.len() as int;
    assert(s.subrange(p, p + 32) =~= a.nullifier);
    assert(s.subrange(p + 32, p + 64) =~= a.rk);
    assert(s.subrange(p + 64, p + 96) =~= a.cmx);
    assert(s.subrange(p + 96, p + 128) =~= a.cv_net);
    assert(s.subrange(p + 128, p + 160) =~= a.ephemeral_key);
    assert(s.subrange(p + 160, p + 740) =~= a.enc_ciphertext);
    assert(s.subrange(p + 740, p + 820) =~= a.out_ciphertext);
    assert(s.subrange(p + 820, p + 884) =~= a.spend_auth_sig);
}

proof fn lemma_read_actions_back(actions: Seq<ActionV>, pre: Seq<u8>, post: Seq<u8>)
    requires
        forall|i: int| 0 <= i < actions.len() ==> (#[trigger] actions[i]).sized(),
        (pre + actions_bytes(actions) + post).len() <= usize::MAX,
    ensures
        read_actions(pre + actions_bytes(actions) + post, pre.len() as int, actions.len()) == Ok::<
            Seq<ActionV>,
            BundleDecodeError,
        >(actions),
    decreases actions.len(),
{
    if actions.len() == 0 {
        assert(actions =~= Seq::<ActionV>::empty());
    } else {
        let front = actions.drop_last();
        let last = actions.last();
        assert(forall|i: int| 0 <= i < front.len() ==> front[i] == actions[i]);
        assert(last.sized());
        lemma_actions_bytes_len(front);
        let s = pre + actions_bytes(actions) + post;
        assert(s =~= pre + actions_bytes(front) + (last.encoded() + post));
        lemma_read_actions_back(front, pre, last.encoded() + post);
        let pre2 = pre + actions_bytes(front);
        assert(s =~= pre2 + last.encoded() + post);
        lemma_read_action_back(last, pre2, post);
        assert(front.push(last) =~= actions);
    }
}

/// Decoding the encoding of a bundle gives the bundle back, for every bundle that
/// can be carried.
#[verifier::rlimit(60)]
pub proof fn bundle_round_trips(b: BundleV)
    requires
        b.carriable(),
        b.encoded().len() <= usize::MAX,
    ensures
        decode_bundle(b.encoded()) == Ok::<BundleV, BundleDecodeError>(b),
{
    let s = b.encoded();
    let c1 = seq![b.flags];
    let c2 = be_bytes(i64_bits(b.value_balance), 8);
    let c4 = be_bytes(64, 4);
    let c6 = be_bytes(b.actions.len(), 4);
    let c7 = actions_bytes(b.actions);
    let c8 = be_bytes(b.proof.len(), 4);
    lemma_be_bytes_len(i64_bits(b.value_balance), 8);
    lemma_be_bytes_len(64, 4);
    lemma_be_bytes_len(b.actions.len(), 4);
    lemma_be_bytes_len(b.proof.len(), 4);
    lemma_actions_bytes_len(b.actions);
    lemma_pow256();
    lemma_i64_bits(b.value_balance, 0);
    lemma_be_value_of_bytes(i64_bits(b.value_balance), 8);
    lemma_be_value_of_bytes(64, 4);
    lemma_be_value_of_bytes(b.actions.len(), 4);
    lemma_be_value_of_bytes(b.proof.len(), 4);
    assert(var_bytes(b.binding_sig) == c4 + b.binding_sig);
    assert(var_bytes(b.proof) == c8 + b.proof);
    assert(s.subrange(0, 1) =~= c1);
    assert(s.subrange(1, 9) =~= c2);
    assert(s.subrange(9, 41) =~= b.anchor);
    assert(s.subrange(41, 45) =~= c4);
    assert(s.subrange(45, 109) =~= b.binding_sig);
    assert(s.subrange(109, 113) =~= c6);
    let pre = c1 + c2 + b.anchor + c4 + b.binding_sig + c6;
    assert(pre.len() == 113);
    assert(s =~= pre + c7 + (c8 + b.proof));
    lemma_read_actions_back(b.actions, pre, c8 + b.proof);
    let q = (113 + 884 * b.actions.len()) as int;
    assert(s.subrange(q, q + 4) =~= c8);
    assert(s.subrange(q + 4, q + 4 + b.proof.len()) =~= b.proof);
}

proof fn lemma_read_action_sized(s: Seq<u8>, pos: int, a: ActionV)
    requires
        0 <= pos,
        read_action(s, pos) == Ok::<ActionV, BundleDecodeError>(a),
    ensures
        a.sized(),
        pos + 884 <= s.len(),
        a.encoded() == s.subrange(pos, pos + 884),
{
    assert(a.encoded() =~= s.subrange(pos, pos + 884));
}

proof fn lemma_read_actions_sized(s: Seq<u8>, pos: int, n: nat, actions: Seq<ActionV>)
    requires
        0 <= pos <= s.len(),
        read_actions(s, pos, n) == Ok::<Seq<ActionV>, BundleDecodeError>(actions),
    ensures
        actions.len() == n,
        forall|i: int| 0 <= i < actions.len() ==> (#[trigger] actions[i]).sized(),
        pos + 884 * n <= s.len(),
        actions_bytes(actions) == s.subrange(pos, pos + 884 * n),
    decreases n,
{
    if n == 0 {
        assert(actions_bytes(actions) =~= s.subrange(pos, pos));
    } else {
        let front = read_actions(s, pos, (n - 1) as nat)->Ok_0;
        lemma_read_actions_sized(s, pos, (n - 1) as nat, front);
        let at = pos + 884 * (n - 1);
        let a = read_action(s, at)->Ok_0;
        lemma_read_action_sized(s, at, a);
        assert(actions == front.push(a));
        assert(actions.drop_last() =~= front);
        assert(actions_bytes(actions) =~= s.subrange(pos, pos + 884 * n));
    }
}

/// A byte string that decodes is the encoding of what it decodes to, so a bundle has
/// exactly one encoding; and what it decodes to can be carried.
#[verifier::rlimit(60)]
pub proof fn bundle_encoding_is_canonical(s: Seq<u8>, b: BundleV)
    requires
        decode_bundle(s) == Ok::<BundleV, BundleDecodeError>(b),
    ensures
        b.encoded() == s,
        b.carriable(),
{
    let n = be_value(s.subrange(109, 113));
    lemma_read_actions_sized(s, 113, n, b.actions);
    let q = (113 + 884 * n) as int;
    lemma_pow256();
    lemma_be_bytes_of_value(s.subrange(1, 9));
    lemma_be_value_bound(s.subrange(1, 9));
    lemma_i64_bits(0, be_value(s.subrange(1, 9)));
    lemma_be_bytes_of_value(s.subrange(41, 45));
    lemma_be_bytes_of_value(s.subrange(109, 113));
    lemma_be_bytes_of_value(s.subrange(q, q + 4));
    lemma_be_value_bound(s.subrange(q, q + 4));
    assert(b.encoded() =~= s);
}

/// Bytes behind a complete bundle are always refused as such.
pub proof fn trailing_bytes_are_refused(s: Seq<u8>, b: BundleV, extra: Seq<u8>)
    requires
        decode_bundle(s) == Ok::<BundleV, BundleDecodeError>(b),
        extra.len() > 0,
        (s + extra).len() <= usize::MAX,
    ensures
        decode_bundle(s + extra) == Err::<BundleV, _>(BundleDecodeError::TrailingBytes),
{
    let t = s + extra;
    let n = be_value(s.subrange(109, 113));
    let q = (113 + 884 * n) as int;
    lemma_read_actions_sized(s, 113, n, b.actions);
    assert(t.subrange(0, 1) =~= s.subrange(0, 1));
    assert(t.subrange(1, 9) =~= s.subrange(1, 9));
    assert(t.subrange(9, 41) =~= s.subrange(9, 41));
    assert(t.subrange(41, 45) =~= s.subrange(41, 45));
    assert(t.subrange(45, 109) =~= s.subrange(45, 109));
    assert(t.subrange(109, 113) =~= s.subrange(109, 113));
    let pre = s.take(113);
    assert(t =~= pre + actions_bytes(b.actions) + t.skip(q));
    lemma_read_actions_back(b.actions, pre, t.skip(q));
    assert(t.subrange(q, q + 4) =~= s.subrange(q, q + 4));
}

proof fn lemma_read_actions_short(s: Seq<u8>, k: int, pos: int, n: nat)
    requires
        0 <= pos <= k <= s.len() <= usize::MAX,
        read_actions(s, pos, n) is Ok,
    ensures
        pos + 884 * n <= k ==> read_actions(s.take(k), pos, n) == read_actions(s, pos, n),
        pos + 884 * n > k ==> read_actions(s.take(k), pos, n) == Err::<Seq<ActionV>, _>(
            BundleDecodeError::UnexpectedEof,
        ),
    decreases n,
{
    if n > 0 {
        lemma_read_actions_short(s, k, pos, (n - 1) as nat);
        let at = pos + 884 * (n - 1);
        let a = read_action(s, at)->Ok_0;
        lemma_read_action_sized(s, at, a);
        if at <= k {
            let t = s.take(k);
            if at + 32 <= k {
                assert(t.subrange(at, at + 32) =~= s.subrange(at, at + 32));
            }
            if at + 64 <= k {
                assert(t.subrange(at + 32, at + 64) =~= s.subrange(at + 32, at + 64));
            }
            if at + 96 <= k {
                assert(t.subrange(at + 64, at + 96) =~= s.subrange(at + 64, at + 96));
            }
            if at + 128 <= k {
                assert(t.subrange(at + 96, at + 128) =~= s.subrange(at + 96, at + 128));
            }
            if at + 160 <= k {
                assert(t.subrange(at + 128, at + 160) =~= s.subrange(at + 128, at + 160));
            }
            if at + 740 <= k {
                assert(t.subrange(at + 160, at + 740) =~= s.subrange(at + 160, at + 740));
            }
            if at + 820 <= k {
                assert(t.subrange(at + 740, at + 820) =~= s.subrange(at + 740, at + 820));
            }
            if at + 884 <= k {
                assert(t.subrange(at + 820, at + 884) =~= s.subrange(at + 820, at + 884));
            }
        }
    }
}

/// A bundle that was cut short anywhere is always refused as incomplete.
pub proof fn truncated_bundles_are_refused(s: Seq<u8>, b: BundleV, k: int)
    requires
        decode_bundle(s) == Ok::<BundleV, BundleDecodeError>(b),
        0 <= k < s.len(),
        s.len() <= usize::MAX,
    ensures
        decode_bundle(s.take(k)) == Err::<BundleV, _>(BundleDecodeError::UnexpectedEof),
{
    let t = s.take(k);
    let n = be_value(s.subrange(109, 113));
    let q = (113 + 884 * n) as int;
    lemma_read_actions_sized(s, 113, n, b.actions);
    if k >= 1 {
        assert(t.subrange(0, 1) =~= s.subrange(0, 1));
    }
    if k >= 9 {
        assert(t.subrange(1, 9) =~= s.subrange(1, 9));
    }
    if k >= 41 {
        assert(t.subrange(9, 41) =~= s.subrange(9, 41));
    }
    if k >= 45 {
        assert(t.subrange(41, 45) =~= s.subrange(41, 45));
    }
    if k >= 109 {
        assert(t.subrange(45, 109) =~= s.subrange(45, 109));
    }
    if k >= 113 {
        assert(t.subrange(109, 113) =~= s.subrange(109, 113));
        lemma_read_actions_short(s, k, 113, n);
    }
    if k >= q + 4 {
        assert(t.subrange(q, q + 4) =~= s.subrange(q, q + 4));
    }
}

} // verus!
