# password_manager

A local password vault. The master password is stored as an Argon2id PHC
string; every saved password is encrypted with AES-256-GCM under a key that
Argon2id derives from a master secret and a fresh salt, and is stored as
`salt|nonce|ciphertext` in standard Base64. The desktop application uses the
stored master hash as that secret.

- `src/` is the verified library:
  - `encoding`: Base64 and UTF-8, with the proof that decoding undoes encoding;
  - `crypto`: the calls into `argon2` and `aes-gcm`, and the randomness;
  - `auth`: master-password hashing and checking, key derivation, encryption
    and decryption of a stored password;
  - `text`: splitting and joining entries, decimal parsing and formatting;
  - `vault`: account identifiers, stored entries, reading an account back;
  - `windows`: which application windows to open and close.
- `tests/` exercises the library against the real crates.
- `app/` is the desktop shell: Tauri commands and windows, the SQLite store
  and the clipboard.
