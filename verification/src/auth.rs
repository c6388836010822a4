//! Master-password hashing and the encryption of stored passwords.
//!
//! The master password is kept as an Argon2 PHC string. Each stored
//! password is encrypted with AES-256-GCM under a key that Argon2 derives
//! from the master secret and a fresh salt; the salt, the nonce and the
//! ciphertext are kept as three Base64 texts.
use vstd::prelude::*;
use vstd::utf8::*;
use crate::encoding::{
    b64_decode, b64_decode_exec, b64_encode, b64_encode_exec, b64_encoded_len, lemma_b64_decode_encode,
    lemma_b64_decode_result, lemma_b64_encode_chars, str_from_utf8, string_from_utf8,
};
use crate::crypto::{
    aes256gcm_open, aes256gcm_open_exec, aes256gcm_seal, aes256gcm_seal_exec, argon2_phc_hash_exec,
    argon2_phc_string, argon2_raw_key, argon2_raw_key_exec, argon2_verification, argon2_verify_exec,
    generate_nonce_exec, generate_salt_exec, is_generated_salt, AES_GCM_MAX_PLAINTEXT_LEN,
    ARGON2_MAX_PASSWORD_LEN, ARGON2_MAX_SALT_LEN, ARGON2_MIN_SALT_LEN, DERIVED_KEY_LEN, NONCE_LEN,
    TAG_LEN,
};

verus! {

/// A `Result` of strings, taken by the strings' views.
pub open spec fn text_result(r: Result<String, String>) -> Result<Seq<char>, Seq<char>> {
    match r {
        Ok(s) => Ok(s@),
        Err(e) => Err(e@),
    }
}

/// A `Result` of a flag or a string, taken by the string's view.
pub open spec fn flag_result(r: Result<bool, String>) -> Result<bool, Seq<char>> {
    match r {
        Ok(b) => Ok(b),
        Err(e) => Err(e@),
    }
}

/// The stored form of the master password for a given salt: the PHC
/// string, or a message that starts with "Error hashing password: ".
pub open spec fn spec_hash_password(password: Seq<char>, salt: Seq<char>) -> Seq<char> {
    match argon2_phc_string(encode_utf8(password), salt) {
        Ok(h) => h,
        Err(e) => "Error hashing password: "@ + e,
    }
}

/// The outcome of checking a password against a stored hash.
pub open spec fn spec_verify_password(hash: Seq<char>, password: Seq<char>) -> Result<bool, Seq<char>> {
    match argon2_verification(hash, encode_utf8(password)) {
        Ok(()) => Ok(true),
        Err(e) => Err(e),
    }
}

/// Checking succeeds exactly when Argon2 accepts the password's own UTF-8
/// bytes against the hash; otherwise the error is Argon2's, and the answer
/// is never `Ok(false)`.
pub proof fn lemma_verify_password_outcome(hash: Seq<char>, password: Seq<char>)
    ensures
        spec_verify_password(hash, password) == Ok::<bool, Seq<char>>(true)
            <==> argon2_verification(hash, encode_utf8(password)) is Ok,
        spec_verify_password(hash, password) matches Err(e)
            ==> argon2_verification(hash, encode_utf8(password)) == Err::<(), Seq<char>>(e),
        spec_verify_password(hash, password) != Ok::<bool, Seq<char>>(false),
{
}

/// Generates a fresh random salt, sixteen bytes in unpadded B64.
pub fn generate_salt() -> (salt: String)
    ensures
        is_generated_salt(salt@),
{
    generate_salt_exec()
}

/// Hashes `password` with Argon2id under the given salt. With a salt of
/// the generated form and a password that Argon2 accepts, the result is
/// the PHC string.
pub fn hash_password_with_salt(password: &String, salt: &str) -> (hash: String)
    ensures
        hash@ == spec_hash_password(password@, salt@),
        match argon2_phc_string(encode_utf8(password@), salt@) {
            Ok(h) => hash@ == h,
            Err(e) => hash@ == "Error hashing password: "@ + e,
        },
        is_generated_salt(salt@) && encode_utf8(password@).len() <= ARGON2_MAX_PASSWORD_LEN
            ==> argon2_phc_string(encode_utf8(password@), salt@) == Ok::<Seq<char>, Seq<char>>(hash@),
{
    match argon2_phc_hash_exec(password.as_str().as_bytes(), salt) {
        Ok(h) => h,
        Err(e) => {
            let mut msg = String::from_str("Error hashing password: ");
            msg.append(e.as_str());
            msg
        },
    }
}

/// Hashes `password` with Argon2id under a freshly generated salt.
pub fn hash_password(password: String) -> (hash: String)
    ensures
        exists|salt: Seq<char>|
            is_generated_salt(salt) && hash@ == #[trigger] spec_hash_password(password@, salt),
        encode_utf8(password@).len() <= ARGON2_MAX_PASSWORD_LEN ==> exists|salt: Seq<char>|
            is_generated_salt(salt) && #[trigger] argon2_phc_string(encode_utf8(password@), salt)
                == Ok::<Seq<char>, Seq<char>>(hash@),
{
    let salt = generate_salt();
    let hash = hash_password_with_salt(&password, salt.as_str());
    assert(hash@ == spec_hash_password(password@, salt@));
    hash
}

/// Checks `password` against a stored hash: `Ok(true)` when it matches,
/// and the parse or mismatch message otherwise. A PHC string that Argon2
/// produced for this very password, under any salt, is always accepted.
pub fn verify_password(hash: String, password: String) -> (res: Result<bool, String>)
    ensures
        flag_result(res) == spec_verify_password(hash@, password@),
        res == Ok::<bool, String>(true) <==> argon2_verification(hash@, encode_utf8(password@)) is Ok,
        res matches Err(e) ==> argon2_verification(hash@, encode_utf8(password@)) == Err::<(), Seq<char>>(e@),
        res != Ok::<bool, String>(false),
        (exists|salt: Seq<char>|
            #[trigger] argon2_phc_string(encode_utf8(password@), salt) == Ok::<Seq<char>, Seq<char>>(hash@))
            ==> res == Ok::<bool, String>(true),
{
    match argon2_verify_exec(hash.as_str(), password.as_str().as_bytes()) {
        Ok(()) => Ok(true),
        Err(e) => Err(e),
    }
}


/// The AES key for a master secret and a salt: Argon2id of their UTF-8 bytes.
pub open spec fn spec_derive_key(master: Seq<char>, salt: Seq<char>) -> Seq<u8> {
    argon2_raw_key(encode_utf8(master), encode_utf8(salt), DERIVED_KEY_LEN as nat)
}

/// Derives the 32-byte AES key for `master_password` and `salt`.
pub fn derive_key_from_password(master_password: String, salt: &str) -> (key: Vec<u8>)
    requires
        encode_utf8(master_password@).len() <= ARGON2_MAX_PASSWORD_LEN,
        ARGON2_MIN_SALT_LEN <= encode_utf8(salt@).len() <= ARGON2_MAX_SALT_LEN,
    ensures
        key@ == spec_derive_key(master_password@, salt@),
        key@ == argon2_raw_key(encode_utf8(master_password@), encode_utf8(salt@), DERIVED_KEY_LEN as nat),
        key@.len() == DERIVED_KEY_LEN,
{
    match argon2_raw_key_exec(master_password.as_str().as_bytes(), salt.as_bytes(), 32) {
        Ok(key) => key,
        Err(_) => {
            // `requires` keeps both lengths within what Argon2 accepts.
            proof {
                assert(false);
            }
            Vec::new()
        },
    }
}

/// The three stored texts for a password: the Base64 of the salt's bytes,
/// of the nonce, and of the AES-256-GCM ciphertext under the derived key.
pub open spec fn spec_encrypt_password(
    master: Seq<char>,
    password: Seq<char>,
    salt: Seq<char>,
    nonce: Seq<u8>,
) -> (Seq<char>, Seq<char>, Seq<char>) {
    (
        b64_encode(encode_utf8(salt)),
        b64_encode(nonce),
        b64_encode(aes256gcm_seal(spec_derive_key(master, salt), nonce, encode_utf8(password))),
    )
}

/// The lengths under which encryption neither fails nor overflows.
pub open spec fn encryptable(master: Seq<char>, password: Seq<char>) -> bool {
    &&& encode_utf8(master).len() <= ARGON2_MAX_PASSWORD_LEN
    &&& encode_utf8(password).len() <= AES_GCM_MAX_PLAINTEXT_LEN
    &&& b64_encoded_len(encode_utf8(password).len() + TAG_LEN as nat) <= usize::MAX
}

/// A salt and nonce that encryption accepts.
pub open spec fn usable_salt_and_nonce(salt: Seq<char>, nonce: Seq<u8>) -> bool {
    &&& ARGON2_MIN_SALT_LEN <= encode_utf8(salt).len() <= ARGON2_MAX_SALT_LEN
    &&& b64_encoded_len(encode_utf8(salt).len()) <= usize::MAX
    &&& nonce.len() == NONCE_LEN
}

/// A generated salt is 22 ASCII symbols, so encryption accepts it.
pub proof fn lemma_generated_salt_usable(salt: Seq<char>, nonce: Seq<u8>)
    requires
        is_generated_salt(salt),
        nonce.len() == NONCE_LEN,
    ensures
        usable_salt_and_nonce(salt, nonce),
        encode_utf8(salt).len() == 22,
{
    let raw = choose|raw: Seq<u8>| raw.len() == 16 && salt == #[trigger] b64_encode(raw).take(22);
    lemma_b64_encode_chars(raw);
    assert(b64_encode(raw).len() == 24) by {
        assert(b64_encoded_len(16) == 24);
    }
    assert(is_ascii_chars(salt));
    is_ascii_chars_encode_utf8(salt);
}

/// The AES-256-GCM output for a password is 16 bytes longer than its
/// UTF-8 form.
pub open spec fn sealed_len_matches(master: Seq<char>, password: Seq<char>, salt: Seq<char>, nonce: Seq<u8>) -> bool {
    aes256gcm_seal(spec_derive_key(master, salt), nonce, encode_utf8(password)).len()
        == encode_utf8(password).len() + TAG_LEN
}

/// Encrypts `password` under the given salt and nonce. The ciphertext
/// text decodes to the password's UTF-8 length plus the 16-byte tag.
pub fn encrypt_password_with(
    master_password: String,
    password: String,
    salt: &str,
    nonce: &[u8],
) -> (res: (String, String, String))
    requires
        encryptable(master_password@, password@),
        usable_salt_and_nonce(salt@, nonce@),
    ensures
        (res.0@, res.1@, res.2@) == spec_encrypt_password(master_password@, password@, salt@, nonce@),
        res.0@ == b64_encode(encode_utf8(salt@)),
        res.1@ == b64_encode(nonce@),
        res.2@ == b64_encode(
            aes256gcm_seal(
                argon2_raw_key(encode_utf8(master_password@), encode_utf8(salt@), DERIVED_KEY_LEN as nat),
                nonce@,
                encode_utf8(password@),
            ),
        ),
        sealed_len_matches(master_password@, password@, salt@, nonce@),
        b64_decode(encode_utf8(res.2@)) == Some(
            aes256gcm_seal(spec_derive_key(master_password@, salt@), nonce@, encode_utf8(password@)),
        ),
{
    let ghost master = master_password@;
    let ghost plain = password@;
    let key = derive_key_from_password(master_password, salt);
    let ciphertext = match aes256gcm_seal_exec(key.as_slice(), nonce, password.as_str().as_bytes()) {
        Ok(c) => c,
        Err(_) => {
            // `requires` keeps the plaintext within what AES-GCM accepts.
            proof {
                assert(false);
            }
            Vec::new()
        },
    };
    let b64_salt = b64_encode_exec(salt.as_bytes());
    let b64_nonce = b64_encode_exec(nonce);
    let b64_ciphertext = b64_encode_exec(ciphertext.as_slice());
    proof {
        lemma_b64_decode_encode(ciphertext@);
        assert(ciphertext@ == aes256gcm_seal(spec_derive_key(master, salt@), nonce@, encode_utf8(plain)));
    }
    (b64_salt, b64_nonce, b64_ciphertext)
}

/// Encrypts `password` for storage under a fresh random salt and nonce.
/// The salt text decodes to 22 bytes, the nonce text to 12 bytes, and the
/// ciphertext text to the password's UTF-8 length plus the 16-byte tag.
pub fn encrypt_password(master_password: String, password: String) -> (res: (String, String, String))
    requires
        encryptable(master_password@, password@),
    ensures
        exists|salt: Seq<char>, nonce: Seq<u8>|
            is_generated_salt(salt) && nonce.len() == NONCE_LEN
                && sealed_len_matches(master_password@, password@, salt, nonce)
                && (res.0@, res.1@, res.2@) == #[trigger] spec_encrypt_password(master_password@, password@, salt, nonce)
                && res.0@ == b64_encode(encode_utf8(salt))
                && res.1@ == b64_encode(nonce)
                && res.2@ == b64_encode(aes256gcm_seal(
                    argon2_raw_key(encode_utf8(master_password@), encode_utf8(salt), DERIVED_KEY_LEN as nat),
                    nonce,
                    encode_utf8(password@),
                )),
        b64_decode(encode_utf8(res.0@)) matches Some(s) && s.len() == 22,
        b64_decode(encode_utf8(res.1@)) matches Some(n) && n.len() == NONCE_LEN,
        b64_decode(encode_utf8(res.2@)) matches Some(c) && c.len() == encode_utf8(password@).len() + TAG_LEN,
{
    let ghost master = master_password@;
    let ghost plain = password@;
    let salt = generate_salt();
    let nonce = generate_nonce_exec();
    proof {
        lemma_generated_salt_usable(salt@, nonce@);
    }
    let res = encrypt_password_with(master_password, password, salt.as_str(), nonce.as_slice());
    proof {
        lemma_b64_decode_encode(encode_utf8(salt@));
        lemma_b64_decode_encode(nonce@);
        assert(sealed_len_matches(master, plain, salt@, nonce@));
        assert((res.0@, res.1@, res.2@) == spec_encrypt_password(master, plain, salt@, nonce@));
    }
    res
}


/// What decrypting three stored texts gives: the password, or the message
/// for the first step that fails.
pub open spec fn spec_decrypt_password(
    master: Seq<char>,
    salt: Seq<char>,
    nonce: Seq<char>,
    ciphertext: Seq<char>,
) -> Result<Seq<char>, Seq<char>> {
    match b64_decode(encode_utf8(salt)) {
        None => Err("Failed to decode salt"@),
        Some(s) => match b64_decode(encode_utf8(nonce)) {
            None => Err("Failed to decode nonce"@),
            Some(n) => match b64_decode(encode_utf8(ciphertext)) {
                None => Err("Failed to decode ciphertext"@),
                Some(c) => if !valid_utf8(s) {
                    Err("Failed to convert salt to string"@)
                } else {
                    match aes256gcm_open(argon2_raw_key(encode_utf8(master), s, DERIVED_KEY_LEN as nat), n, c) {
                        None => Err("Decryption failed"@),
                        Some(p) => if valid_utf8(p) {
                            Ok(decode_utf8(p))
                        } else {
                            Err("Failed to convert plaintext to string"@)
                        },
                    }
                },
            },
        },
    }
}

/// The inputs on which decryption does not stop: once the three texts
/// decode and the salt is text, the master secret and the salt have
/// lengths Argon2 accepts and the nonce has twelve bytes.
pub open spec fn decryptable(master: Seq<char>, salt: Seq<char>, nonce: Seq<char>, ciphertext: Seq<char>) -> bool {
    match (
        b64_decode(encode_utf8(salt)),
        b64_decode(encode_utf8(nonce)),
        b64_decode(encode_utf8(ciphertext)),
    ) {
        (Some(s), Some(n), Some(_)) => valid_utf8(s) ==> {
            &&& encode_utf8(master).len() <= ARGON2_MAX_PASSWORD_LEN
            &&& ARGON2_MIN_SALT_LEN <= s.len() <= ARGON2_MAX_SALT_LEN
            &&& n.len() == NONCE_LEN
        },
        _ => true,
    }
}

/// The three texts are what encryption produced for `password` under this
/// master secret, salt and nonce.
pub open spec fn encrypted_from(
    master: Seq<char>,
    salt: Seq<char>,
    nonce: Seq<char>,
    ciphertext: Seq<char>,
    password: Seq<char>,
    s: Seq<char>,
    n: Seq<u8>,
) -> bool {
    &&& encryptable(master, password)
    &&& usable_salt_and_nonce(s, n)
    &&& spec_encrypt_password(master, password, s, n) == (salt, nonce, ciphertext)
}

proof fn lemma_encrypted_decodes(
    master: Seq<char>,
    salt: Seq<char>,
    nonce: Seq<char>,
    ciphertext: Seq<char>,
    password: Seq<char>,
    s: Seq<char>,
    n: Seq<u8>,
)
    requires
        encrypted_from(master, salt, nonce, ciphertext, password, s, n),
    ensures
        b64_decode(encode_utf8(salt)) == Some(encode_utf8(s)),
        b64_decode(encode_utf8(nonce)) == Some(n),
        b64_decode(encode_utf8(ciphertext)) == Some(
            aes256gcm_seal(spec_derive_key(master, s), n, encode_utf8(password)),
        ),
        valid_utf8(encode_utf8(s)),
        decode_utf8(encode_utf8(s)) == s,
        valid_utf8(encode_utf8(password)),
        decode_utf8(encode_utf8(password)) == password,
{
    lemma_b64_decode_encode(encode_utf8(s));
    lemma_b64_decode_encode(n);
    lemma_b64_decode_encode(aes256gcm_seal(spec_derive_key(master, s), n, encode_utf8(password)));
    encode_utf8_valid_utf8(s);
    encode_utf8_decode_utf8(s);
    encode_utf8_valid_utf8(password);
    encode_utf8_decode_utf8(password);
}

/// The texts that encryption produces decrypt under the same master secret.
pub proof fn lemma_encrypted_decryptable(
    master: Seq<char>,
    password: Seq<char>,
    s: Seq<char>,
    n: Seq<u8>,
)
    requires
        encryptable(master, password),
        usable_salt_and_nonce(s, n),
    ensures
        ({
            let (salt, nonce, ciphertext) = spec_encrypt_password(master, password, s, n);
            decryptable(master, salt, nonce, ciphertext)
        }),
{
    let (salt, nonce, ciphertext) = spec_encrypt_password(master, password, s, n);
    lemma_encrypted_decodes(master, salt, nonce, ciphertext, password, s, n);
}

/// Texts whose pieces do not all decode, or whose salt is not text, are
/// not what encryption produced.
proof fn lemma_not_encrypted_unless_decodable(
    master: Seq<char>,
    salt: Seq<char>,
    nonce: Seq<char>,
    ciphertext: Seq<char>,
)
    requires
        !({
            &&& b64_decode(encode_utf8(salt)) matches Some(d) && valid_utf8(d)
            &&& b64_decode(encode_utf8(nonce)) is Some
            &&& b64_decode(encode_utf8(ciphertext)) is Some
        }),
    ensures
        forall|password: Seq<char>, s: Seq<char>, n: Seq<u8>|
            !#[trigger] encrypted_from(master, salt, nonce, ciphertext, password, s, n),
{
    assert forall|password: Seq<char>, s: Seq<char>, n: Seq<u8>|
        !#[trigger] encrypted_from(master, salt, nonce, ciphertext, password, s, n) by {
        if encrypted_from(master, salt, nonce, ciphertext, password, s, n) {
            lemma_encrypted_decodes(master, salt, nonce, ciphertext, password, s, n);
        }
    }
}

/// What decryption answers, in terms of its steps: an answer `Ok(p)` means
/// that the three texts decode, the salt is text, and AES-256-GCM opening
/// of the ciphertext under the Argon2 key of the master secret and the
/// salt's bytes succeeds with the UTF-8 bytes of `p`; when the texts decode
/// and the salt is text, a failed opening is answered "Decryption failed"
/// and a successful one with text bytes is answered with that text.
pub proof fn lemma_decrypt_password_outcome(
    master: Seq<char>,
    salt: Seq<char>,
    nonce: Seq<char>,
    ciphertext: Seq<char>,
)
    ensures
        spec_decrypt_password(master, salt, nonce, ciphertext) matches Ok(p) ==> {
            &&& b64_decode(encode_utf8(salt)) matches Some(ds)
            &&& valid_utf8(ds)
            &&& b64_decode(encode_utf8(nonce)) matches Some(dn)
            &&& b64_decode(encode_utf8(ciphertext)) matches Some(dc)
            &&& aes256gcm_open(argon2_raw_key(encode_utf8(master), ds, DERIVED_KEY_LEN as nat), dn, dc)
                == Some(encode_utf8(p))
        },
        b64_decode(encode_utf8(salt)) matches Some(ds) ==> b64_decode(encode_utf8(nonce)) matches Some(dn)
            ==> b64_decode(encode_utf8(ciphertext)) matches Some(dc) ==> valid_utf8(ds) ==> {
            match aes256gcm_open(argon2_raw_key(encode_utf8(master), ds, DERIVED_KEY_LEN as nat), dn, dc) {
                None => spec_decrypt_password(master, salt, nonce, ciphertext)
                    == Err::<Seq<char>, Seq<char>>("Decryption failed"@),
                Some(q) => valid_utf8(q) ==> match spec_decrypt_password(master, salt, nonce, ciphertext) {
                    Ok(p) => encode_utf8(p) == q,
                    Err(_) => false,
                },
            }
        },
{
    if let Some(ds) = b64_decode(encode_utf8(salt)) {
        if let Some(dn) = b64_decode(encode_utf8(nonce)) {
            if let Some(dc) = b64_decode(encode_utf8(ciphertext)) {
                if valid_utf8(ds) {
                    let key = argon2_raw_key(encode_utf8(master), ds, DERIVED_KEY_LEN as nat);
                    if let Some(q) = aes256gcm_open(key, dn, dc) {
                        if valid_utf8(q) {
                            decode_utf8_encode_utf8(q);
                        }
                    }
                }
            }
        }
    }
}

/// Decrypts a stored password from its three Base64 texts. Texts that
/// `encrypt_password` produced under the same master secret give the
/// password back.
pub fn decrypt_password(
    master_password: &String,
    salt: String,
    nonce: String,
    ciphertext: String,
) -> (res: Result<String, String>)
    requires
        decryptable(master_password@, salt@, nonce@, ciphertext@),
    ensures
        text_result(res) == spec_decrypt_password(master_password@, salt@, nonce@, ciphertext@),
        res matches Ok(p) ==> {
            &&& b64_decode(encode_utf8(salt@)) matches Some(ds)
            &&& valid_utf8(ds)
            &&& b64_decode(encode_utf8(nonce@)) matches Some(dn)
            &&& b64_decode(encode_utf8(ciphertext@)) matches Some(dc)
            &&& aes256gcm_open(argon2_raw_key(encode_utf8(master_password@), ds, DERIVED_KEY_LEN as nat), dn, dc)
                == Some(encode_utf8(p@))
        },
        b64_decode(encode_utf8(salt@)) matches Some(ds) ==> b64_decode(encode_utf8(nonce@)) matches Some(dn)
            ==> b64_decode(encode_utf8(ciphertext@)) matches Some(dc) ==> valid_utf8(ds) ==> {
            match aes256gcm_open(argon2_raw_key(encode_utf8(master_password@), ds, DERIVED_KEY_LEN as nat), dn, dc) {
                None => match res {
                    Ok(_) => false,
                    Err(e) => e@ == "Decryption failed"@,
                },
                Some(q) => valid_utf8(q) ==> match res {
                    Ok(p) => encode_utf8(p@) == q,
                    Err(_) => false,
                },
            }
        },
        forall|password: Seq<char>, s: Seq<char>, n: Seq<u8>|
            #[trigger] encrypted_from(master_password@, salt@, nonce@, ciphertext@, password, s, n)
                ==> text_result(res) == Ok::<Seq<char>, Seq<char>>(password),
{
    proof {
        lemma_decrypt_password_outcome(master_password@, salt@, nonce@, ciphertext@);
    }
    let ghost master = master_password@;
    let ds = b64_decode_exec(salt.as_str().as_bytes());
    proof {
        lemma_b64_decode_result(encode_utf8(salt@), ds);
    }
    let decoded_salt = match ds {
        Ok(v) => v,
        Err(_) => {
            proof {
                lemma_not_encrypted_unless_decodable(master, salt@, nonce@, ciphertext@);
            }
            return Err(String::from_str("Failed to decode salt"));
        },
    };
    let dn = b64_decode_exec(nonce.as_str().as_bytes());
    proof {
        lemma_b64_decode_result(encode_utf8(nonce@), dn);
    }
    let decoded_nonce = match dn {
        Ok(v) => v,
        Err(_) => {
            proof {
                lemma_not_encrypted_unless_decodable(master, salt@, nonce@, ciphertext@);
            }
            return Err(String::from_str("Failed to decode nonce"));
        },
    };
    let dc = b64_decode_exec(ciphertext.as_str().as_bytes());
    proof {
        lemma_b64_decode_result(encode_utf8(ciphertext@), dc);
    }
    let decoded_ciphertext = match dc {
        Ok(v) => v,
        Err(_) => {
            proof {
                lemma_not_encrypted_unless_decodable(master, salt@, nonce@, ciphertext@);
            }
            return Err(String::from_str("Failed to decode ciphertext"));
        },
    };
    let salt_text = match str_from_utf8(decoded_salt.as_slice()) {
        Ok(t) => t,
        Err(_) => {
            proof {
                lemma_not_encrypted_unless_decodable(master, salt@, nonce@, ciphertext@);
            }
            return Err(String::from_str("Failed to convert salt to string"));
        },
    };
    proof {
        decode_utf8_encode_utf8(decoded_salt@);
    }
    let key = derive_key_from_password(master_password.clone(), salt_text);
    let opened = aes256gcm_open_exec(key.as_slice(), decoded_nonce.as_slice(), decoded_ciphertext.as_slice());
    let plaintext = match opened {
        Ok(p) => p,
        Err(_) => {
            assert forall|password: Seq<char>, s: Seq<char>, n: Seq<u8>|
                #[trigger] encrypted_from(master, salt@, nonce@, ciphertext@, password, s, n) implies false by {
                lemma_encrypted_decodes(master, salt@, nonce@, ciphertext@, password, s, n);
                assert(decoded_ciphertext@ == aes256gcm_seal(key@, decoded_nonce@, encode_utf8(password)));
            }
            return Err(String::from_str("Decryption failed"));
        },
    };
    let ghost p = plaintext@;
    let res = match string_from_utf8(plaintext) {
        Ok(t) => Ok(t),
        Err(_) => Err(String::from_str("Failed to convert plaintext to string")),
    };
    assert forall|password: Seq<char>, s: Seq<char>, n: Seq<u8>|
        #[trigger] encrypted_from(master, salt@, nonce@, ciphertext@, password, s, n)
            implies text_result(res) == Ok::<Seq<char>, Seq<char>>(password) by {
        lemma_encrypted_decodes(master, salt@, nonce@, ciphertext@, password, s, n);
        assert(decoded_ciphertext@ == aes256gcm_seal(key@, decoded_nonce@, encode_utf8(password)));
        assert(p == encode_utf8(password));
    }
    res
}


/// Tells whether Argon2 accepts `master_password` as the secret a key is
/// derived from.
pub fn master_key_derivable(master_password: &String) -> (ok: bool)
    ensures
        ok == (encode_utf8(master_password@).len() <= ARGON2_MAX_PASSWORD_LEN),
{
    (master_password.as_str().as_bytes().len() as u64) <= ARGON2_MAX_PASSWORD_LEN
}

/// Tells whether `encryptable` holds, that is, whether encrypting
/// `password` under `master_password` neither fails nor overflows.
pub fn can_encrypt(master_password: &String, password: &String) -> (ok: bool)
    ensures
        ok == encryptable(master_password@, password@),
{
    let master_len = master_password.as_str().as_bytes().len() as u64;
    let password_len = password.as_str().as_bytes().len() as u64;
    if master_len > ARGON2_MAX_PASSWORD_LEN || password_len > AES_GCM_MAX_PLAINTEXT_LEN {
        return false;
    }
    let sealed_len = password_len + TAG_LEN;
    let encoded_len = 4 * ((sealed_len + 2) / 3);
    encoded_len <= usize::MAX as u64
}

} // verus!
