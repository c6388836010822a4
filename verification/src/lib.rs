//! A local password vault: master-password hashing with Argon2, per-entry
//! AES-256-GCM encryption under an Argon2-derived key, Base64 storage
//! encoding, and the bookkeeping around stored accounts and entries.
pub mod encoding;
pub mod crypto;
pub mod auth;
pub mod text;
pub mod vault;
pub mod windows;
