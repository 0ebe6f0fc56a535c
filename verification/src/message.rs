//! Message signing: proving control of a shielded address without spending.
//!
//! A shielded address carries no verification key. So the signer publishes its full
//! viewing key beside the signature; a verifier derives the address from that key, which
//! binds the key to the address, and checks the signature under the key's spend
//! validating key. Publishing the viewing key discloses the wallet's notes, never the
//! authority to spend them.

use crate::bytes::{
    le_bytes, lemma_concat_injective, lemma_le_bytes_len, lemma_le_value_of_bytes, lemma_pow256,
    push_all, push_le, same, to_array,
};
use crate::field::canonical_scalar;
use crate::hash::{blake2b, blake2b_256};
use crate::keys::{address_of_fvk, fvk_of_seed, viewing_key, FullViewingKey};
use crate::turnstile::{zero_scalar, zero_trapdoor};
use crate::value::ValueCommitTrapdoor;
use crate::verify::{check_spend_auth, spend_auth_verifies};
use orchard::keys::{SpendAuthorizingKey, SpendingKey};
use vstd::prelude::*;

pub use crate::keys::ADDRESS_LEN;

verus! {

/// Serialized full viewing key length.
pub const FVK_LEN: usize = 96;

/// RedPallas signature length.
pub const SIG_LEN: usize = 64;

/// The verification key that a spend validating key becomes under a randomizer; the key
/// is given by the full viewing key that it stands in.
pub uninterp spec fn randomized_key(fvk: Seq<u8>, alpha: Seq<u8>) -> Seq<u8>;

/// `SpendAuthorizingKey::from`, `randomize` and `sign`, with the operating system's
/// randomness: a signature that verifies under the randomized key, which for the zero
/// randomizer is the spend validating key itself, the first 32 bytes of the full viewing
/// key. Nothing else is said of the signature, which differs from call to call.
#[verifier::external_body]
fn sign_randomized(seed: &[u8; 32], alpha: &[u8; 32], message: &[u8; 32]) -> (sig: [u8; 64])
    requires
        fvk_of_seed(seed@) is Some,
        canonical_scalar(alpha@),
    ensures
        spend_auth_verifies(randomized_key(fvk_of_seed(seed@)->Some_0, alpha@), message@, sig@),
        alpha@ == zero_scalar() ==> spend_auth_verifies(
            fvk_of_seed(seed@)->Some_0.take(32),
            message@,
            sig@,
        ),
{
    let alpha: Option<pasta_curves::pallas::Scalar> = group::ff::PrimeField::from_repr(*alpha).into();
    let ask = SpendAuthorizingKey::from(&SpendingKey::from_bytes(*seed).unwrap());
    (&ask.randomize(&alpha.unwrap()).sign(rand::rngs::OsRng, message)).into()
}

/// A signed message: the address it asserts ownership of, the full viewing key that binds
/// the signature to that address, and the signature.
#[derive(Clone, Debug)]
pub struct SignedMessage {
    /// Raw address.
    pub address: [u8; 43],
    /// The signer's full viewing key.
    pub fvk: [u8; 96],
    /// Signature over the message digest.
    pub sig: [u8; 64],
}

/// Personalization of the message digest.
pub open spec fn message_personal() -> Seq<u8> {
    seq![
        0x7au8, 0x6b, 0x61, 0x73, 0x5f, 0x6d, 0x73, 0x67, 0x5f, 0x73, 0x69, 0x67, 0x5f, 0x76, 0x30,
        0x31,
    ]
}

/// What the digest covers: network, address and message, with the lengths of the two
/// that vary.
pub open spec fn message_input(network: Seq<u8>, address: Seq<u8>, message: Seq<u8>) -> Seq<u8> {
    le_bytes(network.len(), 8) + network + address + le_bytes(message.len(), 8) + message
}

/// The digest that is signed.
pub open spec fn message_digest_of(network: Seq<u8>, address: Seq<u8>, message: Seq<u8>) -> Seq<u8> {
    blake2b(message_personal(), 32, message_input(network, address, message))
}

/// The digest that is signed: it binds the network, the exact address and the message.
pub fn message_digest(network_tag: &[u8], address: &[u8; 43], message: &[u8]) -> (d: [u8; 32])
    ensures
        d@ == message_digest_of(network_tag@, address@, message@),
{
    let mut input: Vec<u8> = Vec::new();
    push_le(&mut input, network_tag.len() as u128, 8);
    push_all(&mut input, network_tag);
    push_all(&mut input, address);
    push_le(&mut input, message.len() as u128, 8);
    push_all(&mut input, message);
    let tag: [u8; 16] = [
        0x7a, 0x6b, 0x61, 0x73, 0x5f, 0x6d, 0x73, 0x67, 0x5f, 0x73, 0x69, 0x67, 0x5f, 0x76, 0x30,
        0x31,
    ];
    proof {
        assert(tag@ =~= message_personal());
        assert(input@ =~= message_input(network_tag@, address@, message@));
    }
    blake2b_256(&tag, input.as_slice())
}

/// Reason a signature failed to verify.
#[derive(Debug, PartialEq, Eq)]
pub enum VerifyError {
    /// The presented bytes are not a full viewing key.
    BadFvk,
    /// The viewing key does not derive to the claimed address.
    AddressMismatch,
    /// The viewing key's spend validating key is not a verification key.
    BadKey,
    /// The signature does not verify.
    BadSignature,
}

/// The verdict on a signed message. (A full viewing key always holds a verification key,
/// so [`VerifyError::BadKey`] is never the verdict.)
pub open spec fn message_verdict(
    address: Seq<u8>,
    network: Seq<u8>,
    message: Seq<u8>,
    fvk: Seq<u8>,
    sig: Seq<u8>,
) -> Result<(), VerifyError> {
    if !viewing_key(fvk) {
        Err(VerifyError::BadFvk)
    } else if address_of_fvk(fvk) != address {
        Err(VerifyError::AddressMismatch)
    } else if !spend_auth_verifies(
        fvk.take(32),
        message_digest_of(network, address, message),
        sig,
    ) {
        Err(VerifyError::BadSignature)
    } else {
        Ok(())
    }
}

/// The verdict from the address that the published key derives to (none where the bytes
/// are no key), whether its spend validating key is a verification key, and whether the
/// signature verifies.
pub fn signature_verdict(
    derived: Option<[u8; 43]>,
    claimed: &[u8; 43],
    key_decodes: bool,
    signature_verifies: bool,
) -> (r: Result<(), VerifyError>)
    ensures
        r == (match derived {
            None => Err::<(), VerifyError>(VerifyError::BadFvk),
            Some(a) => if a@ != claimed@ {
                Err(VerifyError::AddressMismatch)
            } else if !key_decodes {
                Err(VerifyError::BadKey)
            } else if !signature_verifies {
                Err(VerifyError::BadSignature)
            } else {
                Ok(())
            },
        }),
{
    match derived {
        None => Err(VerifyError::BadFvk),
        Some(a) => if !same(&a, claimed) {
            Err(VerifyError::AddressMismatch)
        } else if !key_decodes {
            Err(VerifyError::BadKey)
        } else if !signature_verifies {
            Err(VerifyError::BadSignature)
        } else {
            Ok(())
        },
    }
}

/// The signed message is the seed's: it carries the seed's viewing key and address, and
/// verifies.
pub open spec fn signs(
    m: SignedMessage,
    seed: Seq<u8>,
    network: Seq<u8>,
    message: Seq<u8>,
) -> bool {
    &&& Some(m.fvk@) == fvk_of_seed(seed)
    &&& m.address@ == address_of_fvk(m.fvk@)
    &&& message_verdict(m.address@, network, message, m.fvk@, m.sig@) == Ok::<(), VerifyError>(())
}

/// Signs `message` with the wallet of `seed`, asserting ownership of its default address
/// on the network of `network_tag`. `None` where the seed is no spending key. What it
/// returns verifies.
pub fn sign_message(seed: [u8; 32], network_tag: &[u8], message: &[u8]) -> (r: Option<SignedMessage>)
    ensures
        r is Some <==> fvk_of_seed(seed@) is Some,
        r matches Some(m) ==> signs(m, seed@, network_tag@, message@),
{
    let key: FullViewingKey = match FullViewingKey::from_seed(&seed) {
        Some(key) => key,
        None => {
            return None;
        },
    };
    let address: [u8; 43] = key.address();
    let digest: [u8; 32] = message_digest(network_tag, &address, message);
    let zero: ValueCommitTrapdoor = zero_trapdoor();
    let sig: [u8; 64] = sign_randomized(&seed, &zero.to_bytes(), &digest);
    Some(SignedMessage { address, fvk: key.to_bytes(), sig })
}

/// Verifies that `sig` proves that the holder of `address` signed `message` under
/// `network_tag`, given the signer's published viewing key.
pub fn verify_message(
    address: &[u8; 43],
    network_tag: &[u8],
    message: &[u8],
    fvk: &[u8; 96],
    sig: &[u8; 64],
) -> (r: Result<(), VerifyError>)
    ensures
        r == message_verdict(address@, network_tag@, message@, fvk@, sig@),
{
    let full: FullViewingKey = match FullViewingKey::from_bytes(fvk) {
        Some(full) => full,
        None => {
            return signature_verdict(None, address, false, false);
        },
    };
    let ak: [u8; 32] = to_array::<32>(vstd::slice::slice_subrange(fvk.as_slice(), 0, 32));
    assert(ak@ =~= fvk@.take(32));
    let digest: [u8; 32] = message_digest(network_tag, address, message);
    signature_verdict(Some(full.address()), address, true, check_spend_auth(&ak, &digest, sig))
}

/// The wallet's serialized full viewing key.
pub fn fvk_bytes_from_seed(seed: [u8; 32]) -> (r: Option<[u8; 96]>)
    ensures
        match r {
            Some(b) => fvk_of_seed(seed@) == Some(b@),
            None => fvk_of_seed(seed@) is None,
        },
{
    match FullViewingKey::from_seed(&seed) {
        Some(key) => Some(key.to_bytes()),
        None => None,
    }
}

/// Device-side spend authorization for a payment that was prepared elsewhere: the
/// signature for one action's randomizer over the payment's sighash. `None` where the
/// seed is no spending key or the randomizer no canonical scalar. The signature verifies
/// under the randomized key.
pub fn sign_spend_auth_from_seed(seed: [u8; 32], alpha: [u8; 32], sighash: [u8; 32]) -> (r: Option<
    [u8; 64],
>)
    ensures
        r is Some <==> fvk_of_seed(seed@) is Some && canonical_scalar(alpha@),
        r matches Some(sig) ==> spend_auth_verifies(
            randomized_key(fvk_of_seed(seed@)->Some_0, alpha@),
            sighash@,
            sig@,
        ),
{
    if FullViewingKey::from_seed(&seed).is_none() {
        return None;
    }
    if ValueCommitTrapdoor::from_bytes(alpha).is_none() {
        return None;
    }
    Some(sign_randomized(&seed, &alpha, &sighash))
}

/// The digest input is unambiguous: no two triples of network, address and message share
/// one.
pub proof fn message_input_is_injective(
    n1: Seq<u8>,
    a1: Seq<u8>,
    m1: Seq<u8>,
    n2: Seq<u8>,
    a2: Seq<u8>,
    m2: Seq<u8>,
)
    requires
        a1.len() == 43,
        a2.len() == 43,
        n1.len() <= u64::MAX,
        n2.len() <= u64::MAX,
        m1.len() <= u64::MAX,
        m2.len() <= u64::MAX,
        message_input(n1, a1, m1) == message_input(n2, a2, m2),
    ensures
        n1 == n2,
        a1 == a2,
        m1 == m2,
{
    let (p1, p2) = (le_bytes(n1.len(), 8), le_bytes(n2.len(), 8));
    let (q1, q2) = (le_bytes(m1.len(), 8), le_bytes(m2.len(), 8));
    lemma_pow256();
    lemma_le_bytes_len(n1.len(), 8);
    lemma_le_bytes_len(n2.len(), 8);
    lemma_le_bytes_len(m1.len(), 8);
    lemma_le_bytes_len(m2.len(), 8);
    lemma_le_value_of_bytes(n1.len(), 8);
    lemma_le_value_of_bytes(n2.len(), 8);
    let r1 = n1 + (a1 + (q1 + m1));
    let r2 = n2 + (a2 + (q2 + m2));
    assert(message_input(n1, a1, m1) =~= p1 + r1);
    assert(message_input(n2, a2, m2) =~= p2 + r2);
    lemma_concat_injective(p1, r1, p2, r2);
    lemma_concat_injective(n1, a1 + (q1 + m1), n2, a2 + (q2 + m2));
    lemma_concat_injective(a1, q1 + m1, a2, q2 + m2);
    lemma_concat_injective(q1, m1, q2, m2);
}

/// A signed message verifies under the address that signed it, and under no other address:
/// there the viewing key does not derive what is claimed.
pub proof fn signatures_speak_for_one_address(
    seed: Seq<u8>,
    network: Seq<u8>,
    message: Seq<u8>,
    m: SignedMessage,
    other: Seq<u8>,
)
    requires
        signs(m, seed, network, message),
        other != m.address@,
    ensures
        message_verdict(m.address@, network, message, m.fvk@, m.sig@) == Ok::<(), VerifyError>(()),
        message_verdict(other, network, message, m.fvk@, m.sig@) == Err::<(), VerifyError>(
            VerifyError::AddressMismatch,
        ),
{
}

/// A signed message is good exactly where the viewing key is one, the address is that key's
/// own, and the signature verifies under the key over network, address and message.
pub proof fn messages_verify_exactly_where_signed(
    address: Seq<u8>,
    network: Seq<u8>,
    message: Seq<u8>,
    fvk: Seq<u8>,
    sig: Seq<u8>,
)
    ensures
        message_verdict(address, network, message, fvk, sig) is Ok <==> {
            &&& viewing_key(fvk)
            &&& address_of_fvk(fvk) == address
            &&& spend_auth_verifies(
                fvk.take(32),
                blake2b(message_personal(), 32, message_input(network, address, message)),
                sig,
            )
        },
{
}

} // verus!
