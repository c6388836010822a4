//! The cryptographic primitives the vault rests on: Argon2id (PHC password
//! hashes and raw key derivation), AES-256-GCM, and operating-system
//! randomness for salts and nonces. Each item here is a thin call into the
//! `argon2` or `aes-gcm` crate; its contract is what that crate's source shows.
use vstd::prelude::*;
use aes_gcm::aead::{Aead, AeadCore, KeyInit, OsRng};
use aes_gcm::{Aes256Gcm, Key, Nonce};
use argon2::password_hash::{PasswordHash, PasswordHasher, PasswordVerifier, SaltString};
use argon2::Argon2;
use crate::encoding::b64_encode;

verus! {

/// Largest password, in bytes, that Argon2 accepts.
pub const ARGON2_MAX_PASSWORD_LEN: u64 = 0xFFFF_FFFF;

/// Smallest salt, in bytes, that Argon2 accepts for raw key derivation.
pub const ARGON2_MIN_SALT_LEN: u64 = 8;

/// Largest salt, in bytes, that Argon2 accepts for raw key derivation.
pub const ARGON2_MAX_SALT_LEN: u64 = 0xFFFF_FFFF;

/// Shortest raw output, in bytes, that Argon2 produces.
pub const ARGON2_MIN_OUTPUT_LEN: u64 = 4;

/// Longest raw output, in bytes, that Argon2 produces.
pub const ARGON2_MAX_OUTPUT_LEN: u64 = 0xFFFF_FFFF;

/// Length, in bytes, of the keys this vault derives (an AES-256 key).
pub const DERIVED_KEY_LEN: u64 = 32;

/// Length, in bytes, of an AES-GCM nonce.
pub const NONCE_LEN: u64 = 12;

/// Length, in bytes, of an AES-GCM authentication tag.
pub const TAG_LEN: u64 = 16;

/// Largest plaintext, in bytes, that AES-GCM encrypts.
pub const AES_GCM_MAX_PLAINTEXT_LEN: u64 = 0x10_0000_0000;

/// A salt in the form `SaltString::generate` produces: sixteen bytes written
/// in unpadded standard Base64, that is, 22 symbols.
pub open spec fn is_generated_salt(salt: Seq<char>) -> bool {
    exists|raw: Seq<u8>| raw.len() == 16 && salt == #[trigger] b64_encode(raw).take(22)
}

/// The PHC string (`$argon2id$v=19$...`) that `Argon2::default()` produces
/// for a password and a B64 salt, or the text of the error it reports.
pub uninterp spec fn argon2_phc_string(password: Seq<u8>, salt: Seq<char>) -> Result<Seq<char>, Seq<char>>;

/// What `Argon2::default()` reports when a password is checked against a
/// PHC string: success, or the text of the parse or mismatch error.
pub uninterp spec fn argon2_verification(hash: Seq<char>, password: Seq<u8>) -> Result<(), Seq<char>>;

/// The raw Argon2id output (default parameters) of a given length for a
/// password and salt.
pub uninterp spec fn argon2_raw_key(password: Seq<u8>, salt: Seq<u8>, out_len: nat) -> Seq<u8>;

/// AES-256-GCM encryption (ciphertext followed by the tag), no associated data.
pub uninterp spec fn aes256gcm_seal(key: Seq<u8>, nonce: Seq<u8>, plaintext: Seq<u8>) -> Seq<u8>;

/// AES-256-GCM decryption with tag check, no associated data; `None` when
/// the tag does not match.
pub uninterp spec fn aes256gcm_open(key: Seq<u8>, nonce: Seq<u8>, ciphertext: Seq<u8>) -> Option<Seq<u8>>;

#[verifier::external_type_specification]
#[verifier::external_body]
pub struct ExAeadError(aes_gcm::Error);

#[verifier::external_type_specification]
#[verifier::external_body]
pub struct ExArgon2Error(argon2::Error);

/// Calls `SaltString::generate(&mut OsRng)` and returns its text. The
/// contract states the form of every outcome (sixteen random bytes in
/// unpadded B64); which salt comes out is left open.
#[verifier::external_body]
pub(crate) fn generate_salt_exec() -> (salt: String)
    ensures
        is_generated_salt(salt@),
{
    SaltString::generate(&mut OsRng).as_str().to_string()
}

/// Calls `Aes256Gcm::generate_nonce(&mut OsRng)`. Every outcome is twelve
/// bytes; which bytes is left open.
#[verifier::external_body]
pub(crate) fn generate_nonce_exec() -> (nonce: Vec<u8>)
    ensures
        nonce@.len() == NONCE_LEN,
{
    Aes256Gcm::generate_nonce(&mut OsRng).to_vec()
}

/// Calls `Argon2::default().hash_password(password, &salt)` after reading
/// `salt` with `SaltString::from_b64`, and renders the hash or the error as
/// text. With a salt of the generated form, the only error the source can
/// report is a password longer than `ARGON2_MAX_PASSWORD_LEN`.
#[verifier::external_body]
pub(crate) fn argon2_phc_hash_exec(password: &[u8], salt: &str) -> (res: Result<String, String>)
    ensures
        match res {
            Ok(h) => argon2_phc_string(password@, salt@) == Ok::<Seq<char>, Seq<char>>(h@),
            Err(e) => argon2_phc_string(password@, salt@) == Err::<Seq<char>, Seq<char>>(e@),
        },
        is_generated_salt(salt@) && password@.len() <= ARGON2_MAX_PASSWORD_LEN ==> res is Ok,
{
    let salt = match SaltString::from_b64(salt) {
        Ok(s) => s,
        Err(e) => return Err(e.to_string()),
    };
    match Argon2::default().hash_password(password, &salt) {
        Ok(h) => Ok(h.to_string()),
        Err(e) => Err(e.to_string()),
    }
}

/// Reads `hash` with `PasswordHash::new` and calls
/// `Argon2::default().verify_password(password, &parsed)`, rendering an
/// error as text. Verification recomputes the hash with the algorithm,
/// version, parameters and salt written in the PHC string, so a PHC string
/// that `hash_password` produced for the same password is accepted.
#[verifier::external_body]
pub(crate) fn argon2_verify_exec(hash: &str, password: &[u8]) -> (res: Result<(), String>)
    ensures
        match res {
            Ok(()) => argon2_verification(hash@, password@) == Ok::<(), Seq<char>>(()),
            Err(e) => argon2_verification(hash@, password@) == Err::<(), Seq<char>>(e@),
        },
        (exists|salt: Seq<char>|
            #[trigger] argon2_phc_string(password@, salt) == Ok::<Seq<char>, Seq<char>>(hash@))
            ==> res is Ok,
{
    let parsed = match PasswordHash::new(hash) {
        Ok(p) => p,
        Err(e) => return Err(e.to_string()),
    };
    match Argon2::default().verify_password(password, &parsed) {
        Ok(()) => Ok(()),
        Err(e) => Err(e.to_string()),
    }
}

/// Calls `Argon2::default().hash_password_into(password, salt, &mut out)`
/// with an `out` of `out_len` bytes. For an output length Argon2 accepts,
/// the source reports an error exactly when the password or the salt is
/// outside the lengths Argon2 accepts.
#[verifier::external_body]
pub(crate) fn argon2_raw_key_exec(password: &[u8], salt: &[u8], out_len: usize) -> (res: Result<Vec<u8>, argon2::Error>)
    requires
        ARGON2_MIN_OUTPUT_LEN <= out_len <= ARGON2_MAX_OUTPUT_LEN,
    ensures
        res is Ok <==> (password@.len() <= ARGON2_MAX_PASSWORD_LEN
            && ARGON2_MIN_SALT_LEN <= salt@.len() <= ARGON2_MAX_SALT_LEN),
        res matches Ok(k) ==> k@ == argon2_raw_key(password@, salt@, out_len as nat) && k@.len() == out_len,
{
    let mut out = vec![0u8; out_len];
    Argon2::default().hash_password_into(password, salt, &mut out)?;
    Ok(out)
}

/// Calls `Aes256Gcm::new(key).encrypt(nonce, plaintext)`. The source fails
/// only for a plaintext longer than `AES_GCM_MAX_PLAINTEXT_LEN`; the output
/// is the ciphertext (as long as the plaintext) followed by a 16-byte tag.
#[verifier::external_body]
pub(crate) fn aes256gcm_seal_exec(key: &[u8], nonce: &[u8], plaintext: &[u8]) -> (res: Result<Vec<u8>, aes_gcm::Error>)
    requires
        key@.len() == DERIVED_KEY_LEN,
        nonce@.len() == NONCE_LEN,
    ensures
        res is Ok <==> plaintext@.len() <= AES_GCM_MAX_PLAINTEXT_LEN,
        res matches Ok(c) ==> c@ == aes256gcm_seal(key@, nonce@, plaintext@)
            && c@.len() == plaintext@.len() + TAG_LEN,
{
    let cipher = Aes256Gcm::new(Key::<Aes256Gcm>::from_slice(key));
    cipher.encrypt(Nonce::from_slice(nonce), plaintext)
}

/// Calls `Aes256Gcm::new(key).decrypt(nonce, ciphertext)`. A ciphertext
/// shorter than the 16-byte tag is rejected, a plaintext that comes out is
/// 16 bytes shorter than the ciphertext, and decryption under the key and
/// nonce that sealed a plaintext gives that plaintext back.
#[verifier::external_body]
pub(crate) fn aes256gcm_open_exec(key: &[u8], nonce: &[u8], ciphertext: &[u8]) -> (res: Result<Vec<u8>, aes_gcm::Error>)
    requires
        key@.len() == DERIVED_KEY_LEN,
        nonce@.len() == NONCE_LEN,
    ensures
        match res {
            Ok(p) => aes256gcm_open(key@, nonce@, ciphertext@) == Some(p@),
            Err(_) => aes256gcm_open(key@, nonce@, ciphertext@) is None,
        },
        res matches Ok(p) ==> p@.len() + TAG_LEN == ciphertext@.len(),
        ciphertext@.len() < TAG_LEN ==> res is Err,
        match res {
            Ok(q) => forall|p: Seq<u8>|
                ciphertext@ == #[trigger] aes256gcm_seal(key@, nonce@, p) && p.len() <= AES_GCM_MAX_PLAINTEXT_LEN
                    ==> q@ == p,
            Err(_) => forall|p: Seq<u8>|
                ciphertext@ == #[trigger] aes256gcm_seal(key@, nonce@, p) ==> p.len() > AES_GCM_MAX_PLAINTEXT_LEN,
        },
{
    let cipher = Aes256Gcm::new(Key::<Aes256Gcm>::from_slice(key));
    cipher.decrypt(Nonce::from_slice(nonce), ciphertext)
}

} // verus!
