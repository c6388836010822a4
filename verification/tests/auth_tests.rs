use password_manager::auth::{
    can_encrypt, decrypt_password, derive_key_from_password, encrypt_password, encrypt_password_with,
    generate_salt, hash_password, hash_password_with_salt, verify_password,
};

use aes_gcm::aead::{Aead, KeyInit};
use aes_gcm::{Aes256Gcm, Key, Nonce};
use base64::Engine;

fn b64(bytes: &[u8]) -> String {
    base64::engine::general_purpose::STANDARD.encode(bytes)
}

#[test]
fn generated_salt_has_twenty_two_b64_symbols() {
    let salt = generate_salt();
    assert_eq!(salt.len(), 22);
    assert!(salt
        .chars()
        .all(|c| c.is_ascii_alphanumeric() || c == '+' || c == '/'));
    assert_ne!(generate_salt(), salt);
}

#[test]
fn hash_password_gives_an_argon2id_phc_string() {
    let hash = hash_password("correct horse".to_string());
    assert!(hash.starts_with("$argon2id$v=19$"));
    assert_ne!(hash, "correct horse");
}

#[test]
fn hashing_twice_uses_different_salts() {
    let a = hash_password("pw".to_string());
    let b = hash_password("pw".to_string());
    assert_ne!(a, b);
}

#[test]
fn hash_with_fixed_salt_is_deterministic() {
    let pw = "hunter42".to_string();
    let a = hash_password_with_salt(&pw, "c29tZXNhbHRzb21lc2FsdA");
    let b = hash_password_with_salt(&pw, "c29tZXNhbHRzb21lc2FsdA");
    assert_eq!(a, b);
    assert!(a.contains("$c29tZXNhbHRzb21lc2FsdA$"));
}

#[test]
fn hash_with_unusable_salt_reports_the_error() {
    let h = hash_password_with_salt(&"pw".to_string(), "a!");
    assert!(h.starts_with("Error hashing password: "));
}

#[test]
fn verify_accepts_its_own_hash() {
    let hash = hash_password("s3cret".to_string());
    assert_eq!(verify_password(hash, "s3cret".to_string()), Ok(true));
}

#[test]
fn verify_rejects_a_wrong_password() {
    let hash = hash_password("s3cret".to_string());
    assert_eq!(
        verify_password(hash, "S3cret".to_string()),
        Err("invalid password".to_string())
    );
}

#[test]
fn verify_reports_an_unreadable_hash() {
    let res = verify_password("not a hash".to_string(), "x".to_string());
    assert!(res.is_err());
}

#[test]
fn derived_key_is_argon2id_raw_output() {
    let key = derive_key_from_password("master".to_string(), "saltsalt");
    assert_eq!(key.len(), 32);
    let mut expected = [0u8; 32];
    argon2::Argon2::default()
        .hash_password_into(b"master", b"saltsalt", &mut expected)
        .unwrap();
    assert_eq!(key, expected.to_vec());
    assert_ne!(key, derive_key_from_password("master".to_string(), "saltsalz"));
}

#[test]
fn encrypt_with_fixed_salt_and_nonce_writes_base64() {
    let nonce = [7u8; 12];
    let (s, n, c) = encrypt_password_with(
        "master".to_string(),
        "pa55".to_string(),
        "abcdefghijklmnopqrstuv",
        &nonce,
    );
    assert_eq!(s, "YWJjZGVmZ2hpamtsbW5vcHFyc3R1dg==");
    assert_eq!(n, "BwcHBwcHBwcHBwcH");
    let key = derive_key_from_password("master".to_string(), "abcdefghijklmnopqrstuv");
    let cipher = Aes256Gcm::new(Key::<Aes256Gcm>::from_slice(&key));
    let expected = cipher.encrypt(Nonce::from_slice(&nonce), b"pa55".as_ref()).unwrap();
    assert_eq!(c, b64(&expected));
    assert_eq!(expected.len(), 4 + 16);
}

#[test]
fn encrypt_then_decrypt_gives_the_password_back() {
    let (s, n, c) = encrypt_password("master".to_string(), "pässwörd ✓".to_string());
    assert_eq!(
        decrypt_password(&"master".to_string(), s, n, c),
        Ok("pässwörd ✓".to_string())
    );
}

#[test]
fn encrypting_twice_differs() {
    let a = encrypt_password("m".to_string(), "p".to_string());
    let b = encrypt_password("m".to_string(), "p".to_string());
    assert_ne!(a, b);
}

#[test]
fn decrypt_with_another_master_fails() {
    let (s, n, c) = encrypt_password("master".to_string(), "pw".to_string());
    assert_eq!(
        decrypt_password(&"other".to_string(), s, n, c),
        Err("Decryption failed".to_string())
    );
}

#[test]
fn decrypt_reports_each_undecodable_text() {
    let (s, n, c) = encrypt_password("m".to_string(), "pw".to_string());
    let m = "m".to_string();
    assert_eq!(
        decrypt_password(&m, "!!".to_string(), n.clone(), c.clone()),
        Err("Failed to decode salt".to_string())
    );
    assert_eq!(
        decrypt_password(&m, s.clone(), "abc".to_string(), c.clone()),
        Err("Failed to decode nonce".to_string())
    );
    assert_eq!(
        decrypt_password(&m, s.clone(), n.clone(), "a=b=".to_string()),
        Err("Failed to decode ciphertext".to_string())
    );
}

#[test]
fn decrypt_rejects_non_canonical_padding() {
    let (s, n, _) = encrypt_password("m".to_string(), "pw".to_string());
    assert_eq!(
        decrypt_password(&"m".to_string(), s, n, "QQ".to_string()),
        Err("Failed to decode ciphertext".to_string())
    );
}

#[test]
fn decrypt_reports_a_salt_that_is_not_text() {
    let (_, n, c) = encrypt_password("m".to_string(), "pw".to_string());
    assert_eq!(
        decrypt_password(&"m".to_string(), b64(&[0xff; 10]), n, c),
        Err("Failed to convert salt to string".to_string())
    );
}

#[test]
fn decrypt_reports_a_plaintext_that_is_not_text() {
    let salt = "abcdefghijklmnopqrstuv";
    let nonce = [1u8; 12];
    let key = derive_key_from_password("m".to_string(), salt);
    let cipher = Aes256Gcm::new(Key::<Aes256Gcm>::from_slice(&key));
    let sealed = cipher.encrypt(Nonce::from_slice(&nonce), [0xc3u8, 0x28].as_ref()).unwrap();
    assert_eq!(
        decrypt_password(&"m".to_string(), b64(salt.as_bytes()), b64(&nonce), b64(&sealed)),
        Err("Failed to convert plaintext to string".to_string())
    );
}

#[test]
fn small_inputs_can_be_encrypted() {
    assert!(can_encrypt(&"m".to_string(), &"p".to_string()));
    assert!(can_encrypt(&String::new(), &String::new()));
}

#[test]
fn master_secret_length_is_checked() {
    assert!(password_manager::auth::master_key_derivable(&"m".to_string()));
}
