//! The cryptographic primitives of the engine, as trusted wrappers over
//! outside implementations: two key-derivation schemes (the current one
//! and the one of the previous format revision), authenticated
//! encryption, and the entropy source. Each wrapper's contract states no
//! more than the wrapped implementation guarantees; the derived values
//! themselves are named, uninterpreted functions of the inputs.

use vstd::prelude::*;

verus! {

/// The key that scrypt derives from a passphrase, a salt and the
/// parameters `(log_n, r, p)`; a pure function of its arguments.
pub uninterp spec fn scrypt_key_of(pass: Seq<u8>, salt: Seq<u8>, log_n: u8, r: u32, p: u32) -> Seq<
    u8,
>;

/// The 32-byte key that PBKDF2-HMAC-SHA256 derives from a passphrase, a
/// salt and a round count; a pure function of its arguments.
pub uninterp spec fn pbkdf2_key_of(pass: Seq<u8>, salt: Seq<u8>, rounds: u32) -> Seq<u8>;

/// The ciphertext and authentication tag that AES-256-GCM produces for a
/// key, nonce and plaintext; a pure function of its arguments.
pub uninterp spec fn gcm_seal_of(key: Seq<u8>, nonce: Seq<u8>, pt: Seq<u8>) -> (Seq<u8>, Seq<u8>);

/// Relies on `crypto::scrypt::scrypt` with `crypto::scrypt::ScryptParams::new`:
/// scrypt is deterministic in passphrase, salt and parameters, and fills the
/// whole 32-byte output. The parameter bounds keep the underlying asserts
/// satisfied and the work factor within memory that allocation cannot fail.
#[verifier::external_body]
pub(crate) fn scrypt_derive(pass: &Vec<u8>, salt: &Vec<u8>, log_n: u8, r: u32, p: u32) -> (key:
    Vec<u8>)
    requires
        0 < log_n < 16,
        0 < r <= 8,
        0 < p <= 4,
    ensures
        key@ == scrypt_key_of(pass@, salt@, log_n, r, p),
        key@.len() == 32,
{
    let params = crypto::scrypt::ScryptParams::new(log_n, r, p);
    let mut key = vec![0u8; 32];
    crypto::scrypt::scrypt(pass, salt, &params, &mut key);
    key
}

/// Relies on `crypto::pbkdf2::pbkdf2` over `crypto::hmac::Hmac` with
/// `crypto::sha2::Sha256`: deterministic in passphrase, salt and round
/// count, filling the whole 32-byte output; it asserts a positive round
/// count.
#[verifier::external_body]
pub(crate) fn pbkdf2_derive(pass: &Vec<u8>, salt: &Vec<u8>, rounds: u32) -> (key: Vec<u8>)
    requires
        rounds > 0,
    ensures
        key@ == pbkdf2_key_of(pass@, salt@, rounds),
        key@.len() == 32,
{
    let mut mac = crypto::hmac::Hmac::new(crypto::sha2::Sha256::new(), pass);
    let mut key = vec![0u8; 32];
    crypto::pbkdf2::pbkdf2(&mut mac, salt, rounds, &mut key);
    key
}

/// Relies on `crypto::aes_gcm::AesGcm` (AES-256-GCM) encryption: ciphertext
/// and tag are deterministic in key, nonce and plaintext; the ciphertext has
/// the plaintext's length and the tag 16 bytes. `AesGcm::new` asserts a
/// 32-byte key (for `KeySize256`) and a 12-byte nonce.
#[verifier::external_body]
pub(crate) fn gcm_seal(key: &Vec<u8>, nonce: &Vec<u8>, pt: &Vec<u8>) -> (r: (Vec<u8>, Vec<u8>))
    requires
        key@.len() == 32,
        nonce@.len() == 12,
    ensures
        (r.0@, r.1@) == gcm_seal_of(key@, nonce@, pt@),
        r.0@.len() == pt@.len(),
        r.1@.len() == 16,
{
    let mut gcm = crypto::aes_gcm::AesGcm::new(crypto::aes::KeySize::KeySize256, key, nonce, &[]);
    let mut ct = vec![0u8; pt.len()];
    let mut tag = vec![0u8; 16];
    crypto::aead::AeadEncryptor::encrypt(&mut gcm, pt, &mut ct, &mut tag);
    (ct, tag)
}

/// Relies on `crypto::aes_gcm::AesGcm` decryption: the tag check accepts a
/// ciphertext/tag pair exactly when it is what sealing some plaintext under
/// this key and nonce produces (GCM's tag is a function of key, nonce and
/// ciphertext, and its counter-mode keystream makes sealing invertible), and
/// then the recovered plaintext is that plaintext. Tampering or a different
/// key is accepted only in the mathematically possible but computationally
/// negligible case that the pair equals a genuine sealing under the key
/// actually supplied — which the first clause still describes exactly.
#[verifier::external_body]
pub(crate) fn gcm_open(key: &Vec<u8>, nonce: &Vec<u8>, ct: &Vec<u8>, tag: &Vec<u8>) -> (r: Option<
    Vec<u8>>)
    requires
        key@.len() == 32,
        nonce@.len() == 12,
    ensures
        r is Some ==> (ct@, tag@) == gcm_seal_of(key@, nonce@, r->0@),
        forall|pt: Seq<u8>| (ct@, tag@) == #[trigger] gcm_seal_of(key@, nonce@, pt) ==> r is Some
            && r->0@ == pt,
{
    let mut gcm = crypto::aes_gcm::AesGcm::new(crypto::aes::KeySize::KeySize256, key, nonce, &[]);
    let mut pt = vec![0u8; ct.len()];
    if crypto::aead::AeadDecryptor::decrypt(&mut gcm, ct, &mut pt, tag) {
        Some(pt)
    } else {
        None
    }
}

/// Relies on `rand::rngs::OsRng` through `rand::RngCore::try_fill_bytes`:
/// operating-system entropy, with failure reported rather than a panic.
/// Nothing is promised of the bytes but their number.
#[verifier::external_body]
pub(crate) fn random_bytes(n: usize) -> (r: Option<Vec<u8>>)
    ensures
        r is Some ==> r->0@.len() == n,
{
    let mut buf = vec![0u8; n];
    match rand::RngCore::try_fill_bytes(&mut rand::rngs::OsRng, &mut buf) {
        Ok(()) => Some(buf),
        Err(_) => None,
    }
}

} // verus!
