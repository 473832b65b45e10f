//! The format upgrader: loads a file of the previous on-disk revision,
//! re-derives the key under the current scheme, and hands back a store
//! in the current format. Loading never writes: committing the migrated
//! form is the caller's explicit `sync`.
//!
//! The previous revision differs in its version byte and in its key
//! derivation (PBKDF2 instead of scrypt); layout and cipher are shared.

use vstd::prelude::*;
use crate::StoreError;
use crate::secure::SecureBytes;
use crate::entry::EntryModel;
use crate::codec::decode_doc;
use crate::crypt::{scrypt_derive, pbkdf2_derive, gcm_open};
use crate::store::{
    PasswordStore,
    loads_current,
    loads_v1,
    master_key_of,
    salt_of,
    nonce_of,
    ct_of,
    tag_of,
    header_ok,
    FORMAT_VERSION_V1,
    FORMAT_VERSION_CURRENT,
    MIN_FILE_LEN,
    SALT_LEN,
    NONCE_LEN,
    TAG_LEN,
    SCRYPT_LOG_N,
    SCRYPT_R,
    SCRYPT_P,
    PBKDF2_ROUNDS,
};

verus! {

/// Loads a file of either revision and returns a store in the current
/// format, its key re-derived under the current scheme.
///
/// A file already in the current format is loaded as a no-op transition
/// and yields an equivalent store (third clause): upgrading it changes
/// nothing. An unknown version byte, or a file too short for any
/// revision, is `FormatError` — no transition is defined from it. A
/// failed integrity check under the revision the version byte names is
/// `AuthenticationError`.
pub fn upgrade(passphrase: &SecureBytes, input: &Vec<u8>) -> (r: Result<PasswordStore, StoreError>)
    ensures
        r is Ok ==> ({
            let s = r->Ok_0;
            &&& s.wf()
            &&& s.salt_spec() == salt_of(input@)
            &&& s.key_spec() == master_key_of(passphrase@, salt_of(input@))
            &&& (loads_current(passphrase@, input@, s.entries_model()) || loads_v1(
                passphrase@,
                input@,
                s.entries_model(),
            ))
        }),
        forall|es: Seq<EntryModel>| #[trigger] loads_current(passphrase@, input@, es)
            ==> r is Ok && (r->Ok_0).entries_model() == es,
        forall|es: Seq<EntryModel>| #[trigger] loads_v1(passphrase@, input@, es)
            ==> r is Ok && (r->Ok_0).entries_model() == es,
        !header_ok(input@, FORMAT_VERSION_CURRENT) && !header_ok(input@, FORMAT_VERSION_V1)
            ==> r is Err && r->Err_0 == StoreError::FormatError,
        r is Err ==> r->Err_0 == StoreError::FormatError || r->Err_0
            == StoreError::AuthenticationError,
{
    let blen = input.len();
    if blen < MIN_FILE_LEN {
        return Err(StoreError::FormatError);
    }
    if input[0] == FORMAT_VERSION_CURRENT {
        let r = PasswordStore::from_input(passphrase, input);
        proof {
            assert forall|es: Seq<EntryModel>| #[trigger] loads_v1(passphrase@, input@, es)
                implies false by {
                assert(header_ok(input@, FORMAT_VERSION_V1));
            }
        }
        return r;
    }
    if input[0] != FORMAT_VERSION_V1 {
        return Err(StoreError::FormatError);
    }
    let salt = crate::codec::read_chunk(input, 1, SALT_LEN);
    let nonce = crate::codec::read_chunk(input, 1 + SALT_LEN, NONCE_LEN);
    let body_start = 1 + SALT_LEN + NONCE_LEN;
    let ct = crate::codec::read_chunk(input, body_start, blen - TAG_LEN - body_start);
    let tag = crate::codec::read_chunk(input, blen - TAG_LEN, TAG_LEN);
    proof {
        assert(salt@ =~= salt_of(input@));
        assert(nonce@ =~= nonce_of(input@));
        assert(ct@ =~= ct_of(input@));
        assert(tag@ =~= tag_of(input@));
    }
    let old_key = pbkdf2_derive(passphrase.expose(), &salt, PBKDF2_ROUNDS);
    let opened = gcm_open(&old_key, &nonce, &ct, &tag);
    let pt = match opened {
        Some(pt) => pt,
        None => {
            return Err(StoreError::AuthenticationError);
        },
    };
    let entries = match decode_doc(FORMAT_VERSION_V1, &pt) {
        Some(entries) => entries,
        None => {
            return Err(StoreError::FormatError);
        },
    };
    let new_key = scrypt_derive(passphrase.expose(), &salt, SCRYPT_LOG_N, SCRYPT_R, SCRYPT_P);
    let store = PasswordStore::assemble(salt, SecureBytes::new(new_key), entries);
    Ok(store)
}

} // verus!
