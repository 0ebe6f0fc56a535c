//! Seeds at rest: encrypted under a passphrase.
//!
//! A sealed seed is a salt, a nonce and a ciphertext with its tag. The key is derived from
//! the passphrase and the salt and is written nowhere.

use crate::bytes::{push_all, to_array};
use chacha20poly1305::aead::Aead;
use chacha20poly1305::{Key, KeyInit, XChaCha20Poly1305, XNonce};
use rand::RngCore;
use vstd::prelude::*;
use vstd::string::*;

verus! {

/// Length of a salt.
pub const SALT_LEN: usize = 16;

/// Length of a nonce.
pub const NONCE_LEN: usize = 24;

/// Length of a sealed seed.
pub const SEALED_LEN: usize = 88;

/// The key that a passphrase and a salt give, if they give one.
pub uninterp spec fn derived_key(secret: Seq<char>, salt: Seq<u8>) -> Option<Seq<u8>>;

/// The ciphertext, with its tag, of a plaintext under a key and a nonce.
pub uninterp spec fn encrypted(key: Seq<u8>, nonce: Seq<u8>, plain: Seq<u8>) -> Seq<u8>;

/// The plaintext of a ciphertext under a key and a nonce, if the tag is good.
pub uninterp spec fn decrypted(key: Seq<u8>, nonce: Seq<u8>, cipher: Seq<u8>) -> Option<Seq<u8>>;

/// `Argon2::hash_password_into` with the default parameters: 32 bytes from the passphrase
/// and the salt. It refuses a passphrase of more than 2^32 - 1 bytes and nothing else, so
/// none of fewer than 2^30 characters.
#[verifier::external_body]
fn derive_key(secret: &str, salt: &[u8; 16]) -> (r: Result<[u8; 32], String>)
    ensures
        match r {
            Ok(key) => derived_key(secret@, salt@) == Some(key@),
            Err(_) => derived_key(secret@, salt@) is None && secret@.len() >= 0x4000_0000,
        },
{
    let mut key = [0u8; 32];
    match argon2::Argon2::default().hash_password_into(secret.as_bytes(), salt, &mut key) {
        Ok(()) => Ok(key),
        Err(e) => Err(format!("argon2: {e}")),
    }
}

/// `XChaCha20Poly1305::encrypt` of 32 bytes: as many bytes of ciphertext and a tag of 16,
/// which decrypt to the plaintext again.
#[verifier::external_body]
fn encrypt32(key: &[u8; 32], nonce: &[u8; 24], plain: &[u8; 32]) -> (r: Vec<u8>)
    ensures
        r@ == encrypted(key@, nonce@, plain@),
        r@.len() == 48,
        decrypted(key@, nonce@, r@) == Some(plain@),
{
    let cipher = XChaCha20Poly1305::new(Key::from_slice(key));
    cipher.encrypt(XNonce::from_slice(nonce), plain.as_slice()).unwrap()
}

/// `XChaCha20Poly1305::decrypt`: the plaintext where the tag is good.
#[verifier::external_body]
fn decrypt(key: &[u8; 32], nonce: &[u8; 24], data: &[u8]) -> (r: Option<Vec<u8>>)
    ensures
        match r {
            Some(plain) => decrypted(key@, nonce@, data@) == Some(plain@),
            None => decrypted(key@, nonce@, data@) is None,
        },
{
    let cipher = XChaCha20Poly1305::new(Key::from_slice(key));
    cipher.decrypt(XNonce::from_slice(nonce), data).ok()
}

/// `OsRng::fill_bytes`: random bytes for a salt.
#[verifier::external_body]
fn random_salt() -> (salt: [u8; 16]) {
    let mut salt = [0u8; 16];
    rand::rngs::OsRng.fill_bytes(&mut salt);
    salt
}

/// `OsRng::fill_bytes`: random bytes for a nonce.
#[verifier::external_body]
fn random_nonce() -> (nonce: [u8; 24]) {
    let mut nonce = [0u8; 24];
    rand::rngs::OsRng.fill_bytes(&mut nonce);
    nonce
}

/// Why a sealed seed did not open.
#[derive(Debug, Clone, PartialEq, Eq)]
pub enum UnsealError {
    /// There are fewer bytes than salt, nonce and tag take.
    TooShort,
    /// No key can be derived from the passphrase.
    Key(String),
    /// The tag is not good: most likely another passphrase.
    WrongSecret,
    /// What was sealed is no seed.
    NotASeed,
}

impl UnsealError {
    /// The text of [`message`](Self::message).
    pub open spec fn text(self) -> Seq<char> {
        match self {
            UnsealError::TooShort => "ciphertext too short"@,
            UnsealError::Key(e) => e@,
            UnsealError::WrongSecret => "decrypt failed (wrong --wallet-secret?)"@,
            UnsealError::NotASeed => "decrypted seed is not 32 bytes"@,
        }
    }

    /// The message for people.
    pub fn message(&self) -> (s: String)
        ensures
            s@ == self.text(),
    {
        match self {
            UnsealError::TooShort => String::from_str("ciphertext too short"),
            UnsealError::Key(e) => String::from_str(e.as_str()),
            UnsealError::WrongSecret => String::from_str("decrypt failed (wrong --wallet-secret?)"),
            UnsealError::NotASeed => String::from_str("decrypted seed is not 32 bytes"),
        }
    }
}

/// What a sealed seed opens to under a passphrase, if it opens.
pub open spec fn unsealed(blob: Seq<u8>, secret: Seq<char>) -> Option<Seq<u8>> {
    if blob.len() < 56 {
        None
    } else {
        match derived_key(secret, blob.take(16)) {
            None => None,
            Some(key) => match decrypted(key, blob.subrange(16, 40), blob.skip(40)) {
                Some(plain) => if plain.len() == 32 {
                    Some(plain)
                } else {
                    None
                },
                None => None,
            },
        }
    }
}

/// Seals a seed under a passphrase, with this salt and nonce. It opens again under the
/// passphrase.
pub fn seal_seed(seed: &[u8; 32], secret: &str, salt: &[u8; 16], nonce: &[u8; 24]) -> (r: Result<
    Vec<u8>,
    String,
>)
    ensures
        match r {
            Ok(blob) => {
                &&& derived_key(secret@, salt@) is Some
                &&& blob@ == salt@ + nonce@ + encrypted(
                    derived_key(secret@, salt@)->Some_0,
                    nonce@,
                    seed@,
                )
                &&& blob@.len() == SEALED_LEN
                &&& unsealed(blob@, secret@) == Some(seed@)
            },
            Err(_) => derived_key(secret@, salt@) is None && secret@.len() >= 0x4000_0000,
        },
{
    let key: [u8; 32] = match derive_key(secret, salt) {
        Ok(key) => key,
        Err(e) => {
            return Err(e);
        },
    };
    let cipher: Vec<u8> = encrypt32(&key, nonce, seed);
    let mut blob: Vec<u8> = Vec::new();
    push_all(&mut blob, salt);
    push_all(&mut blob, nonce);
    push_all(&mut blob, cipher.as_slice());
    proof {
        assert(blob@ =~= salt@ + nonce@ + cipher@);
        assert(blob@.take(16) =~= salt@);
        assert(blob@.subrange(16, 40) =~= nonce@);
        assert(blob@.skip(40) =~= cipher@);
        assert(seed@.len() == 32);
    }
    Ok(blob)
}

/// Seals a seed under a passphrase, with a fresh salt and nonce. It opens again under the
/// passphrase.
pub fn encrypt_seed(seed: &[u8; 32], secret: &str) -> (r: Result<Vec<u8>, String>)
    ensures
        match r {
            Ok(blob) => blob@.len() == SEALED_LEN && unsealed(blob@, secret@) == Some(seed@),
            Err(_) => secret@.len() >= 0x4000_0000,
        },
{
    seal_seed(seed, secret, &random_salt(), &random_nonce())
}

/// The fault of a plaintext that is to be a seed.
pub fn seed_of(plain: Option<Vec<u8>>) -> (r: Result<[u8; 32], UnsealError>)
    ensures
        match (plain, r) {
            (None, Err(UnsealError::WrongSecret)) => true,
            (Some(p), Err(UnsealError::NotASeed)) => p@.len() != 32,
            (Some(p), Ok(seed)) => p@ == seed@,
            _ => false,
        },
{
    match plain {
        None => Err(UnsealError::WrongSecret),
        Some(p) => if p.len() != 32 {
            Err(UnsealError::NotASeed)
        } else {
            let seed: [u8; 32] = to_array(p.as_slice());
            Ok(seed)
        },
    }
}

/// Opens a sealed seed.
pub fn decrypt_seed(blob: &[u8], secret: &str) -> (r: Result<[u8; 32], UnsealError>)
    ensures
        match r {
            Ok(seed) => unsealed(blob@, secret@) == Some(seed@),
            Err(_) => unsealed(blob@, secret@) is None,
        },
        (r matches Err(UnsealError::TooShort)) == (blob@.len() < 56),
        r matches Err(UnsealError::Key(_)) ==> derived_key(secret@, blob@.take(16)) is None,
        r matches Err(UnsealError::WrongSecret) ==> derived_key(secret@, blob@.take(16)) is Some
            && decrypted(
            derived_key(secret@, blob@.take(16))->Some_0,
            blob@.subrange(16, 40),
            blob@.skip(40),
        ) is None,
        r matches Err(UnsealError::NotASeed) ==> derived_key(secret@, blob@.take(16)) is Some
            && (decrypted(
            derived_key(secret@, blob@.take(16))->Some_0,
            blob@.subrange(16, 40),
            blob@.skip(40),
        ) matches Some(plain) && plain.len() != 32),
{
    if blob.len() < 56 {
        return Err(UnsealError::TooShort);
    }
    let front: &[u8] = vstd::slice::slice_subrange(blob, 0, 16);
    let middle: &[u8] = vstd::slice::slice_subrange(blob, 16, 40);
    let rest: &[u8] = vstd::slice::slice_subrange(blob, 40, blob.len());
    proof {
        assert(front@ =~= blob@.take(16));
        assert(rest@ =~= blob@.skip(40));
    }
    let salt: [u8; 16] = to_array(front);
    let nonce: [u8; 24] = to_array(middle);
    match derive_key(secret, &salt) {
        Err(e) => Err(UnsealError::Key(e)),
        Ok(key) => seed_of(decrypt(&key, &nonce, rest)),
    }
}

} // verus!
