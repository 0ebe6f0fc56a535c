//! Keys, tokens and signatures as texts: what clients send and get.

use crate::address::{orchard_recipient_bytes, Address};
use crate::bytes::{push_all, to_array};
use crate::daemon::vault::hex_bytes;
use crate::keys::{fvk_of_seed, viewing_key, FullViewingKey};
use crate::message::{message_verdict, verify_message, SignedMessage, VerifyError};
use crate::text::{hex, hex_round_trips, hex_text, trim, trimmed, text_of, unhex, unhex_bytes};
use rand::RngCore;
use sha2::{Digest, Sha256};
use vstd::prelude::*;
use vstd::string::*;

verus! {

/// Length of a signature text, in bytes: the viewing key and behind it the signature.
pub const BLOB_LEN: usize = 160;

/// The text of a signed message's signature: the viewing key, which binds it to the address,
/// and the signature.
pub fn signature_text(m: &SignedMessage) -> (s: String)
    ensures
        s@ == hex_text(m.fvk@ + m.sig@),
{
    let mut blob: Vec<u8> = Vec::new();
    push_all(&mut blob, &m.fvk);
    push_all(&mut blob, &m.sig);
    assert(blob@ =~= m.fvk@ + m.sig@);
    hex(blob.as_slice())
}

/// Why a signature could not be checked.
#[derive(Debug, Clone, Copy, PartialEq, Eq, Structural)]
pub enum CheckError {
    /// The address is no shielded one.
    NotShielded,
    /// The signature is not in hexadecimal notation.
    NotHex,
    /// The signature has another length.
    BadLength,
}

impl CheckError {
    /// The message for people.
    pub fn message(&self) -> (s: &'static str)
        ensures
            s@ == (match *self {
                CheckError::NotShielded => "address is not a shielded Orchard address"@,
                CheckError::NotHex => "signature is not valid hex"@,
                CheckError::BadLength => "signature must be 160 bytes (fvk||sig)"@,
            }),
    {
        match self {
            CheckError::NotShielded => "address is not a shielded Orchard address",
            CheckError::NotHex => "signature is not valid hex",
            CheckError::BadLength => "signature must be 160 bytes (fvk||sig)",
        }
    }
}

/// The verdict on a signature text.
pub open spec fn text_verdict(
    address: Address,
    network: Seq<u8>,
    message: Seq<u8>,
    signature: Seq<char>,
) -> Result<Result<(), VerifyError>, CheckError> {
    if !address.shielded() {
        Err(CheckError::NotShielded)
    } else {
        match unhex_bytes(signature) {
            None => Err(CheckError::NotHex),
            Some(blob) => if blob.len() != BLOB_LEN {
                Err(CheckError::BadLength)
            } else {
                Ok(
                    message_verdict(
                        address.payload@,
                        network,
                        message,
                        blob.take(96),
                        blob.skip(96),
                    ),
                )
            },
        }
    }
}

/// Checks a signature text against an address.
pub fn check_signature_text(
    address: &Address,
    network_tag: &[u8],
    message: &[u8],
    signature: &str,
) -> (r: Result<Result<(), VerifyError>, CheckError>)
    ensures
        r == text_verdict(*address, network_tag@, message@, signature@),
{
    let raw: [u8; 43] = match orchard_recipient_bytes(address) {
        Some(raw) => raw,
        None => {
            return Err(CheckError::NotShielded);
        },
    };
    let blob: Vec<u8> = match unhex(signature) {
        Some(blob) => blob,
        None => {
            return Err(CheckError::NotHex);
        },
    };
    if blob.len() != BLOB_LEN {
        return Err(CheckError::BadLength);
    }
    let front: &[u8] = vstd::slice::slice_subrange(blob.as_slice(), 0, 96);
    let back: &[u8] = vstd::slice::slice_subrange(blob.as_slice(), 96, 160);
    proof {
        assert(front@ =~= blob@.take(96));
        assert(back@ =~= blob@.skip(96));
    }
    let fvk: [u8; 96] = to_array(front);
    let sig: [u8; 64] = to_array(back);
    Ok(verify_message(&raw, network_tag, message, &fvk, &sig))
}

/// What signing a message gives checks out as a text, under the address that signed it.
pub proof fn signature_texts_check_out(
    address: Address,
    network: Seq<u8>,
    message: Seq<u8>,
    fvk: Seq<u8>,
    sig: Seq<u8>,
)
    requires
        address.shielded(),
        fvk.len() == 96,
        sig.len() == 64,
        message_verdict(address.payload@, network, message, fvk, sig) == Ok::<(), VerifyError>(()),
    ensures
        text_verdict(address, network, message, hex_text(fvk + sig)) == Ok::<
            Result<(), VerifyError>,
            CheckError,
        >(Ok(())),
{
    hex_round_trips(fvk + sig);
    assert((fvk + sig).take(96) =~= fvk);
    assert((fvk + sig).skip(96) =~= sig);
}

/// Why a key was not taken.
#[derive(Debug, Clone, Copy, PartialEq, Eq, Structural)]
pub enum KeyError {
    /// The seed is not in hexadecimal notation.
    SeedNotHex,
    /// The seed has another length.
    SeedLength,
    /// The seed is no spending key.
    NotASpendingKey,
    /// The viewing key is not 96 bytes in hexadecimal notation.
    FvkNotHex,
    /// The bytes are no viewing key.
    NotAViewingKey,
}

impl KeyError {
    /// The message for people.
    pub fn message(&self) -> (s: &'static str)
        ensures
            s@ == (match *self {
                KeyError::SeedNotHex => "seed_hex is not valid hex"@,
                KeyError::SeedLength => "seed must be exactly 32 bytes (64 hex chars)"@,
                KeyError::NotASpendingKey => "seed is not a valid Orchard spending key"@,
                KeyError::FvkNotHex => "fvk_hex must be 96 bytes of hex"@,
                KeyError::NotAViewingKey => "fvk_hex is not a valid full viewing key"@,
            }),
    {
        match self {
            KeyError::SeedNotHex => "seed_hex is not valid hex",
            KeyError::SeedLength => "seed must be exactly 32 bytes (64 hex chars)",
            KeyError::NotASpendingKey => "seed is not a valid Orchard spending key",
            KeyError::FvkNotHex => "fvk_hex must be 96 bytes of hex",
            KeyError::NotAViewingKey => "fvk_hex is not a valid full viewing key",
        }
    }
}

/// Reads a seed that a client imports.
pub fn imported_seed(seed_hex: &str) -> (r: Result<[u8; 32], KeyError>)
    ensures
        match unhex_bytes(seed_hex@) {
            None => r == Err::<[u8; 32], _>(KeyError::SeedNotHex),
            Some(b) => if b.len() != 32 {
                r == Err::<[u8; 32], _>(KeyError::SeedLength)
            } else if fvk_of_seed(b) is None {
                r == Err::<[u8; 32], _>(KeyError::NotASpendingKey)
            } else {
                r matches Ok(seed) && seed@ == b
            },
        },
{
    let bytes: Vec<u8> = match unhex(seed_hex) {
        Some(bytes) => bytes,
        None => {
            return Err(KeyError::SeedNotHex);
        },
    };
    if bytes.len() != 32 {
        return Err(KeyError::SeedLength);
    }
    let seed: [u8; 32] = to_array(bytes.as_slice());
    if FullViewingKey::from_seed(&seed).is_none() {
        return Err(KeyError::NotASpendingKey);
    }
    Ok(seed)
}

/// Reads a viewing key that a client registers.
pub fn watched_key(fvk_hex: &str) -> (r: Result<[u8; 96], KeyError>)
    ensures
        match hex_bytes(fvk_hex@, 96) {
            None => r == Err::<[u8; 96], _>(KeyError::FvkNotHex),
            Some(b) => if !viewing_key(b) {
                r == Err::<[u8; 96], _>(KeyError::NotAViewingKey)
            } else {
                r matches Ok(fvk) && fvk@ == b
            },
        },
{
    let bytes: Vec<u8> = match unhex(fvk_hex) {
        Some(bytes) => bytes,
        None => {
            return Err(KeyError::FvkNotHex);
        },
    };
    if bytes.len() != 96 {
        return Err(KeyError::FvkNotHex);
    }
    let fvk: [u8; 96] = to_array(bytes.as_slice());
    if FullViewingKey::from_bytes(&fvk).is_none() {
        return Err(KeyError::NotAViewingKey);
    }
    Ok(fvk)
}

/// What a list of indexed signatures holds.
pub open spec fn sig_bytes(sigs: Seq<(usize, String)>, k: int) -> Option<Seq<(usize, Seq<u8>)>>
    decreases k,
{
    if k <= 0 {
        Some(Seq::empty())
    } else {
        match (sig_bytes(sigs, k - 1), hex_bytes(sigs[k - 1].1@, 64)) {
            (Some(before), Some(b)) => Some(before.push((sigs[k - 1].0, b))),
            _ => None,
        }
    }
}

/// Every index is below the bound.
pub open spec fn indices_below(sigs: Seq<(usize, [u8; 64])>, n: int) -> bool {
    forall|k: int| 0 <= k < sigs.len() ==> (#[trigger] sigs[k]).0 < n
}

proof fn lemma_sig_bytes_fails(sigs: Seq<(usize, String)>, k: int, n: int)
    requires
        0 <= k <= n,
        sig_bytes(sigs, k) is None,
    ensures
        sig_bytes(sigs, n) is None,
    decreases n - k,
{
    if k < n {
        lemma_sig_bytes_fails(sigs, k, n - 1);
    }
}

/// Reads the signatures that a device sends; `None` where one is not 64 bytes in hexadecimal
/// notation.
pub fn device_signatures(sigs: &Vec<(usize, String)>) -> (r: Option<Vec<(usize, [u8; 64])>>)
    ensures
        match r {
            Some(out) => sig_bytes(sigs@, sigs@.len() as int) == Some(
                Seq::new(out@.len(), |i: int| (out@[i].0, out@[i].1@)),
            ),
            None => sig_bytes(sigs@, sigs@.len() as int) is None,
        },
{
    let mut out: Vec<(usize, [u8; 64])> = Vec::new();
    let mut i: usize = 0;
    assert(Seq::new(out@.len(), |i: int| (out@[i].0, out@[i].1@)) =~= Seq::<(usize, Seq<u8>)>::empty());
    while i < sigs.len()
        invariant
            0 <= i <= sigs@.len(),
            sig_bytes(sigs@, i as int) == Some(
                Seq::new(out@.len(), |i: int| (out@[i].0, out@[i].1@)),
            ),
        decreases sigs@.len() - i,
    {
        let ghost before = Seq::new(out@.len(), |i: int| (out@[i].0, out@[i].1@));
        let bytes: Option<Vec<u8>> = unhex(sigs[i].1.as_str());
        match bytes {
            Some(b) if b.len() == 64 => {
                let sig: [u8; 64] = to_array(b.as_slice());
                out.push((sigs[i].0, sig));
                assert(Seq::new(out@.len(), |i: int| (out@[i].0, out@[i].1@)) =~= before.push(
                    (sigs@[i as int].0, sig@),
                ));
            },
            _ => {
                proof {
                    assert(sig_bytes(sigs@, i + 1) is None);
                    lemma_sig_bytes_fails(sigs@, i + 1, sigs@.len() as int);
                }
                return None;
            },
        }
        i = i + 1;
    }
    Some(out)
}

/// Whether every index is below the bound.
pub fn check_indices(sigs: &Vec<(usize, [u8; 64])>, n: usize) -> (r: bool)
    ensures
        r == indices_below(sigs@, n as int),
{
    let mut i: usize = 0;
    while i < sigs.len()
        invariant
            0 <= i <= sigs@.len(),
            forall|k: int| 0 <= k < i ==> (#[trigger] sigs@[k]).0 < n,
        decreases sigs@.len() - i,
    {
        if sigs[i].0 >= n {
            return false;
        }
        i = i + 1;
    }
    true
}

/// The SHA-256 digest of a byte string.
pub uninterp spec fn sha256(data: Seq<u8>) -> Seq<u8>;

/// `Sha256::digest`.
#[verifier::external_body]
fn sha256_digest(data: &[u8]) -> (r: [u8; 32])
    ensures
        r@ == sha256(data@),
{
    Sha256::digest(data).into()
}

/// The fingerprint that a client pins a certificate by.
pub fn fingerprint_of_der(der: &[u8]) -> (s: String)
    ensures
        s@ == hex_text(sha256(der@)),
{
    hex(&sha256_digest(der))
}

/// `ThreadRng::fill_bytes`: 32 random bytes.
#[verifier::external_body]
fn random_bytes() -> (b: [u8; 32]) {
    let mut b = [0u8; 32];
    rand::thread_rng().fill_bytes(&mut b);
    b
}

/// The token that a paired phone shows: the operator's, else the stored one, else a fresh
/// one, which is to be stored.
pub fn bearer_token(chosen: Option<&str>, stored: Option<&str>) -> (r: (String, bool))
    ensures
        match (chosen, stored) {
            (Some(t), _) => r.0@ == t@ && !r.1,
            (None, Some(t)) => r.0@ == trimmed(t@) && !r.1,
            (None, None) => r.1 && exists|b: Seq<u8>| b.len() == 32 && r.0@ == #[trigger] hex_text(
                b,
            ),
        },
{
    match (chosen, stored) {
        (Some(t), _) => (String::from_str(t), false),
        (None, Some(t)) => (text_of(trim(t).as_slice()), false),
        (None, None) => {
            let b: [u8; 32] = random_bytes();
            assert(b@.len() == 32);
            (hex(&b), true)
        },
    }
}

/// A certificate with its key, and the fingerprint that a client pins it by.
#[derive(Clone)]
pub struct TlsIdentity {
    pub cert_pem: Vec<u8>,
    pub key_pem: Vec<u8>,
    pub fingerprint: String,
}

impl TlsIdentity {
    /// The identity of a fresh certificate, which is pinned by the digest of its DER form.
    pub fn fresh(cert_pem: Vec<u8>, key_pem: Vec<u8>, der: &[u8]) -> (t: Self)
        ensures
            t.cert_pem == cert_pem,
            t.key_pem == key_pem,
            t.fingerprint@ == hex_text(sha256(der@)),
    {
        let fingerprint: String = fingerprint_of_der(der);
        TlsIdentity { cert_pem, key_pem, fingerprint }
    }

    /// The identity that was stored, with the text of its fingerprint's file.
    pub fn stored(cert_pem: Vec<u8>, key_pem: Vec<u8>, fingerprint: &str) -> (t: Self)
        ensures
            t.cert_pem == cert_pem,
            t.key_pem == key_pem,
            t.fingerprint@ == trimmed(fingerprint@),
    {
        let fingerprint: String = text_of(trim(fingerprint).as_slice());
        TlsIdentity { cert_pem, key_pem, fingerprint }
    }
}

/// What a list of texts holds.
pub open spec fn text_views(list: Seq<String>) -> Seq<Seq<char>> {
    Seq::new(list.len(), |i: int| list[i]@)
}

/// The names that are there.
pub open spec fn given_names(names: Seq<Seq<char>>) -> Seq<Seq<char>>
    decreases names.len(),
{
    if names.len() == 0 {
        Seq::empty()
    } else if names.last().len() == 0 {
        given_names(names.drop_last())
    } else {
        given_names(names.drop_last()).push(names.last())
    }
}

/// The names that a certificate is made out to: the machine itself, and those given.
pub fn certificate_names(names: &Vec<String>) -> (out: Vec<String>)
    ensures
        text_views(out@) == seq!["localhost"@] + given_names(text_views(names@)),
{
    let ghost all = text_views(names@);
    let mut out: Vec<String> = Vec::new();
    out.push(String::from_str("localhost"));
    let mut i: usize = 0;
    proof {
        assert(all.take(0) =~= Seq::<Seq<char>>::empty());
        assert(text_views(out@) =~= seq!["localhost"@] + given_names(all.take(0)));
    }
    while i < names.len()
        invariant
            0 <= i <= names@.len(),
            all == text_views(names@),
            text_views(out@) == seq!["localhost"@] + given_names(all.take(i as int)),
        decreases names@.len() - i,
    {
        let ghost before = text_views(out@);
        proof {
            assert(all.take(i + 1).drop_last() =~= all.take(i as int));
            assert(all.take(i + 1).last() == names@[i as int]@);
        }
        if crate::text::chars_of(names[i].as_str()).len() > 0 {
            out.push(String::from_str(names[i].as_str()));
            proof {
                assert(text_views(out@) =~= before.push(names@[i as int]@));
                assert(text_views(out@) =~= seq!["localhost"@] + given_names(all.take(i + 1)));
            }
        }
        i = i + 1;
    }
    assert(all.take(i as int) =~= all);
    out
}

/// Indexed signatures are read all or not at all: where each text spells 64 bytes the list has
/// each of them in its place with its index, and else there is none.
pub proof fn signatures_are_read_in_full(sigs: Seq<(usize, String)>, n: int, k: int)
    requires
        0 <= k < n <= sigs.len(),
    ensures
        sig_bytes(sigs, n) matches Some(list) ==> list.len() == n && list[k].0 == sigs[k].0
            && unhex_bytes(sigs[k].1@) == Some(list[k].1) && list[k].1.len() == 64,
        hex_bytes(sigs[k].1@, 64) is None ==> sig_bytes(sigs, n) is None,
        (forall|i: int| 0 <= i < n ==> hex_bytes((#[trigger] sigs[i]).1@, 64) is Some)
            ==> sig_bytes(sigs, n) is Some,
    decreases n,
{
    lemma_sigs_len(sigs, n - 1);
    if k < n - 1 {
        signatures_are_read_in_full(sigs, n - 1, k);
    }
    if forall|i: int| 0 <= i < n ==> hex_bytes((#[trigger] sigs[i]).1@, 64) is Some {
        assert(hex_bytes(sigs[n - 1].1@, 64) is Some);
    }
}

proof fn lemma_sigs_len(sigs: Seq<(usize, String)>, n: int)
    requires
        0 <= n <= sigs.len(),
    ensures
        sig_bytes(sigs, n) matches Some(list) ==> list.len() == n,
        (forall|i: int| 0 <= i < n ==> hex_bytes((#[trigger] sigs[i]).1@, 64) is Some)
            ==> sig_bytes(sigs, n) is Some,
    decreases n,
{
    if n > 0 {
        lemma_sigs_len(sigs, n - 1);
        if forall|i: int| 0 <= i < n ==> hex_bytes((#[trigger] sigs[i]).1@, 64) is Some {
            assert(hex_bytes(sigs[n - 1].1@, 64) is Some);
        }
    }
}

/// Of a list of names exactly those that are not empty are given, in order.
pub proof fn empty_names_are_passed_over(a: Seq<Seq<char>>, b: Seq<Seq<char>>, name: Seq<char>)
    ensures
        given_names(a + b) == given_names(a) + given_names(b),
        given_names(seq![name]) == (if name.len() > 0 {
            seq![name]
        } else {
            Seq::empty()
        }),
    decreases b.len(),
{
    let one = seq![name];
    assert(one.drop_last() =~= Seq::<Seq<char>>::empty());
    assert(given_names(one.drop_last()) =~= Seq::<Seq<char>>::empty());
    assert(Seq::<Seq<char>>::empty().push(name) =~= one);
    if b.len() == 0 {
        assert(a + b =~= a);
        assert(given_names(a) + given_names(b) =~= given_names(a));
    } else {
        empty_names_are_passed_over(a, b.drop_last(), name);
        assert((a + b).drop_last() =~= a + b.drop_last());
        assert((a + b).last() == b.last());
        assert(given_names(a + b) =~= given_names(a) + given_names(b));
    }
}

} // verus!
