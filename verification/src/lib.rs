//! An encrypted secret store: named credential entries (application name,
//! username, password, timestamps) protected by a master passphrase.
//!
//! The store engine derives a symmetric key from the passphrase and a
//! persisted random salt, seals the serialized entry set with authenticated
//! encryption under a fresh nonce, and reads files in a versioned on-disk
//! format with an upgrade path from the previous revision. All I/O, argument
//! parsing and prompting live outside this crate; the engine works on plain
//! byte values.

use vstd::prelude::*;

pub mod secure;
pub mod entry;
pub mod codec;
pub mod textmatch;
pub mod crypt;
pub mod store;
pub mod upgrade;
pub mod commands;

verus! {

/// The typed failures of the store engine. File I/O stays with the caller,
/// so no I/O variant appears here; the caller maps its own I/O failures.
#[derive(Clone, Copy, PartialEq, Eq, Structural, Debug)]
pub enum StoreError {
    /// The integrity check of decryption failed: wrong passphrase or
    /// corrupted ciphertext, deliberately not distinguished.
    AuthenticationError,
    /// Structurally invalid decoded content, or no upgrade path exists
    /// from the detected format version.
    FormatError,
    /// An entry with the given name is already present.
    DuplicateName,
    /// No entry with the given name is present.
    NotFound,
    /// The entropy source failed while sealing.
    EncryptError,
}

} // verus!
