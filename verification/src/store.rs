//! The password store: the decrypted entry collection in memory, its
//! CRUD operations, and the seal/load cycle against the versioned
//! on-disk format.
//!
//! On-disk layout: one format-version byte, a 32-byte salt (persisted
//! in the clear, fixed at store creation), a 12-byte nonce (fresh on
//! every seal), then the ciphertext followed by the 16-byte
//! authentication tag. The plaintext under the cipher is the document
//! of [`crate::codec`], tagged with the same format version.

use vstd::prelude::*;
use crate::StoreError;
use crate::secure::SecureBytes;
use crate::entry::{
    EntryModel,
    PasswordEntry,
    models,
    wf_entries,
    wf_entry,
    names_unique,
    contains_name,
    index_of_name,
    find_index,
    clone_bytes,
};
use crate::codec::{doc_bytes, encode_doc, decode_doc, read_chunk, append_bytes};
use crate::crypt::{scrypt_key_of, pbkdf2_key_of, gcm_seal_of, scrypt_derive, gcm_seal, gcm_open, random_bytes};
use crate::textmatch::{lower, contains_sub, to_lower, contains_subbytes};

verus! {

/// The previous on-disk format revision.
pub const FORMAT_VERSION_V1: u8 = 1;

/// The current on-disk format revision.
pub const FORMAT_VERSION_CURRENT: u8 = 2;

pub const SALT_LEN: usize = 32;

pub const NONCE_LEN: usize = 12;

pub const TAG_LEN: usize = 16;

pub const KEY_LEN: usize = 32;

/// One version byte, the salt, the nonce and the tag: the least a file
/// can hold.
pub const MIN_FILE_LEN: usize = 61;

/// scrypt cost parameters of the current revision's key derivation.
pub const SCRYPT_LOG_N: u8 = 10;

pub const SCRYPT_R: u32 = 8;

pub const SCRYPT_P: u32 = 1;

/// PBKDF2 round count of the previous revision's key derivation.
pub const PBKDF2_ROUNDS: u32 = 4096;

/// The key of the current revision: scrypt under the engine's cost
/// parameters.
pub open spec fn master_key_of(pass: Seq<u8>, salt: Seq<u8>) -> Seq<u8> {
    scrypt_key_of(pass, salt, SCRYPT_LOG_N, SCRYPT_R, SCRYPT_P)
}

/// The key of the previous revision: PBKDF2-HMAC-SHA256.
pub open spec fn v1_key_of(pass: Seq<u8>, salt: Seq<u8>) -> Seq<u8> {
    pbkdf2_key_of(pass, salt, PBKDF2_ROUNDS)
}

/// The file is long enough and carries the given version byte.
pub open spec fn header_ok(b: Seq<u8>, version: u8) -> bool {
    b.len() >= MIN_FILE_LEN && b[0] == version
}

/// The salt bytes of a file.
pub open spec fn salt_of(b: Seq<u8>) -> Seq<u8> {
    b.subrange(1, 33)
}

/// The nonce bytes of a file.
pub open spec fn nonce_of(b: Seq<u8>) -> Seq<u8> {
    b.subrange(33, 45)
}

/// The ciphertext bytes of a file.
pub open spec fn ct_of(b: Seq<u8>) -> Seq<u8> {
    b.subrange(45, b.len() - 16)
}

/// The authentication tag bytes of a file.
pub open spec fn tag_of(b: Seq<u8>) -> Seq<u8> {
    b.subrange(b.len() - 16, b.len() as int)
}

/// A whole file assembled from its parts.
pub open spec fn file_bytes(version: u8, salt: Seq<u8>, nonce: Seq<u8>, ct: Seq<u8>, tag: Seq<u8>) -> Seq<u8> {
    seq![version] + salt + nonce + ct + tag
}

/// The file `b`, under the given key and format revision, carries
/// exactly the well-formed entry collection `es`: its ciphertext and tag
/// are what sealing the collection's document produces.
pub open spec fn holds_store(b: Seq<u8>, key: Seq<u8>, version: u8, es: Seq<EntryModel>) -> bool {
    &&& header_ok(b, version)
    &&& wf_entries(es)
    &&& (ct_of(b), tag_of(b)) == gcm_seal_of(key, nonce_of(b), doc_bytes(version, es))
}

/// The file decrypts under the current revision, with the key the
/// passphrase derives from the file's own salt, to exactly `es`.
pub open spec fn loads_current(pass: Seq<u8>, b: Seq<u8>, es: Seq<EntryModel>) -> bool {
    holds_store(b, master_key_of(pass, salt_of(b)), FORMAT_VERSION_CURRENT, es)
}

/// The file decrypts under the previous revision's scheme to exactly `es`.
pub open spec fn loads_v1(pass: Seq<u8>, b: Seq<u8>, es: Seq<EntryModel>) -> bool {
    holds_store(b, v1_key_of(pass, salt_of(b)), FORMAT_VERSION_V1, es)
}

/// `e` is `o` with its password overwritten by zeros: everything else
/// kept, the password's length kept.
pub open spec fn scrubbed_entry(o: EntryModel, e: EntryModel) -> bool {
    &&& e.name == o.name
    &&& e.username == o.username
    &&& e.created_at == o.created_at
    &&& e.updated_at == o.updated_at
    &&& e.password.len() == o.password.len()
    &&& forall|j: int| 0 <= j < e.password.len() ==> e.password[j] == 0u8
}

/// When names are unique, an entry's position is the one
/// `index_of_name` picks.
pub proof fn lemma_index_of_name(es: Seq<EntryModel>, name: Seq<u8>, i: int)
    requires
        names_unique(es),
        0 <= i < es.len(),
        es[i].name == name,
    ensures
        index_of_name(es, name) == i,
{
    assert(contains_name(es, name));
    let j = index_of_name(es, name);
    assert(0 <= j < es.len() && es[j].name == name);
}

/// The in-memory store: the transient decrypted view of one file. The
/// on-disk sealed form stays the source of truth; an unsynced mutation
/// is lost when the process exits.
pub struct PasswordStore {
    format_version: u8,
    salt: Vec<u8>,
    key: SecureBytes,
    entries: Vec<PasswordEntry>,
}

impl PasswordStore {
    /// The models of the held entries, in listing order.
    pub closed spec fn entries_model(&self) -> Seq<EntryModel> {
        models(self.entries@)
    }

    pub closed spec fn salt_spec(&self) -> Seq<u8> {
        self.salt@
    }

    /// The derived key held in memory; never persisted.
    pub closed spec fn key_spec(&self) -> Seq<u8> {
        self.key@
    }

    pub closed spec fn version_spec(&self) -> u8 {
        self.format_version
    }

    /// Well-formedness: sized salt and key, the current format revision,
    /// and a well-formed entry collection (unique names among them).
    pub closed spec fn wf(&self) -> bool {
        &&& self.salt@.len() == SALT_LEN
        &&& self.key@.len() == KEY_LEN
        &&& self.format_version == FORMAT_VERSION_CURRENT
        &&& wf_entries(self.entries_model())
    }

    /// A store assembled from already-validated parts, in the current
    /// format; the upgrader uses this after re-deriving the key.
    pub(crate) fn assemble(salt: Vec<u8>, key: SecureBytes, entries: Vec<PasswordEntry>) -> (r:
        PasswordStore)
        requires
            salt@.len() == SALT_LEN,
            key@.len() == KEY_LEN,
            wf_entries(models(entries@)),
        ensures
            r.wf(),
            r.salt_spec() == salt@,
            r.key_spec() == key@,
            r.entries_model() == models(entries@),
            r.version_spec() == FORMAT_VERSION_CURRENT,
    {
        PasswordStore { format_version: FORMAT_VERSION_CURRENT, salt, key, entries }
    }

    /// A fresh store: fresh random salt, no entries, current format
    /// version. Fails only when the entropy source does.
    pub fn new(passphrase: &SecureBytes) -> (r: Result<PasswordStore, StoreError>)
        ensures
            r is Ok ==> ({
                let s = r->Ok_0;
                &&& s.wf()
                &&& s.entries_model() == Seq::<EntryModel>::empty()
                &&& s.key_spec() == master_key_of(passphrase@, s.salt_spec())
            }),
            r is Err ==> r->Err_0 == StoreError::EncryptError,
    {
        let salt = match random_bytes(SALT_LEN) {
            Some(s) => s,
            None => {
                return Err(StoreError::EncryptError);
            },
        };
        let key = scrypt_derive(passphrase.expose(), &salt, SCRYPT_LOG_N, SCRYPT_R, SCRYPT_P);
        let store = PasswordStore {
            format_version: FORMAT_VERSION_CURRENT,
            salt,
            key: SecureBytes::new(key),
            entries: Vec::new(),
        };
        proof {
            assert(store.entries_model() =~= Seq::<EntryModel>::empty());
        }
        Ok(store)
    }

    /// Loads an existing file under the current format.
    ///
    /// Exactness: on success the input is precisely a sealing of the
    /// result's entries under the passphrase-derived key (first clause),
    /// and every input of that shape succeeds and yields exactly the
    /// sealed entries (second clause) — with `sync`, the load/seal round
    /// trip. A wrong version byte or a short file is a format error; a
    /// failed integrity check — wrong passphrase or tampering, not
    /// distinguished — is an authentication error.
    pub fn from_input(passphrase: &SecureBytes, input: &Vec<u8>) -> (r: Result<
        PasswordStore,
        StoreError,
    >)
        ensures
            r is Ok ==> ({
                let s = r->Ok_0;
                &&& s.wf()
                &&& s.salt_spec() == salt_of(input@)
                &&& s.key_spec() == master_key_of(passphrase@, salt_of(input@))
                &&& loads_current(passphrase@, input@, s.entries_model())
            }),
            forall|es: Seq<EntryModel>| #[trigger] loads_current(passphrase@, input@, es)
                ==> r is Ok && (r->Ok_0).entries_model() == es,
            !header_ok(input@, FORMAT_VERSION_CURRENT) ==> r is Err && r->Err_0
                == StoreError::FormatError,
            r is Err ==> r->Err_0 == StoreError::FormatError || r->Err_0
                == StoreError::AuthenticationError,
            r is Err && r->Err_0 == StoreError::AuthenticationError ==> forall|pt: Seq<u8>|
                (ct_of(input@), tag_of(input@)) != #[trigger] gcm_seal_of(
                    master_key_of(passphrase@, salt_of(input@)),
                    nonce_of(input@),
                    pt,
                ),
    {
        let blen = input.len();
        if blen < MIN_FILE_LEN {
            return Err(StoreError::FormatError);
        }
        if input[0] != FORMAT_VERSION_CURRENT {
            return Err(StoreError::FormatError);
        }
        let salt = read_chunk(input, 1, SALT_LEN);
        let nonce = read_chunk(input, 1 + SALT_LEN, NONCE_LEN);
        let body_start = 1 + SALT_LEN + NONCE_LEN;
        let ct = read_chunk(input, body_start, blen - TAG_LEN - body_start);
        let tag = read_chunk(input, blen - TAG_LEN, TAG_LEN);
        proof {
            assert(salt@ =~= salt_of(input@));
            assert(nonce@ =~= nonce_of(input@));
            assert(ct@ =~= ct_of(input@));
            assert(tag@ =~= tag_of(input@));
        }
        let key = scrypt_derive(passphrase.expose(), &salt, SCRYPT_LOG_N, SCRYPT_R, SCRYPT_P);
        let opened = gcm_open(&key, &nonce, &ct, &tag);
        let pt = match opened {
            Some(pt) => pt,
            None => {
                return Err(StoreError::AuthenticationError);
            },
        };
        let entries = match decode_doc(FORMAT_VERSION_CURRENT, &pt) {
            Some(entries) => entries,
            None => {
                return Err(StoreError::FormatError);
            },
        };
        let store = PasswordStore {
            format_version: FORMAT_VERSION_CURRENT,
            salt,
            key: SecureBytes::new(key),
            entries,
        };
        Ok(store)
    }

    /// Seals the current entries: encodes them, encrypts under the held
    /// key with a fresh random nonce, and returns the whole file image
    /// for the caller's all-or-nothing writer. Fails only when the
    /// entropy source does, and touches nothing.
    pub fn sync(&self) -> (r: Result<Vec<u8>, StoreError>)
        requires
            self.wf(),
        ensures
            r is Ok ==> ({
                let out = r->Ok_0;
                &&& salt_of(out@) == self.salt_spec()
                &&& holds_store(out@, self.key_spec(), FORMAT_VERSION_CURRENT, self.entries_model())
            }),
            r is Err ==> r->Err_0 == StoreError::EncryptError,
    {
        let nonce = match random_bytes(NONCE_LEN) {
            Some(n) => n,
            None => {
                return Err(StoreError::EncryptError);
            },
        };
        let doc = encode_doc(FORMAT_VERSION_CURRENT, &self.entries);
        let sealed = gcm_seal(self.key.expose(), &nonce, &doc);
        let ct = sealed.0;
        let tag = sealed.1;
        let mut out: Vec<u8> = Vec::new();
        out.push(FORMAT_VERSION_CURRENT);
        append_bytes(&mut out, &self.salt);
        append_bytes(&mut out, &nonce);
        append_bytes(&mut out, &ct);
        append_bytes(&mut out, &tag);
        proof {
            assert(out@ =~= file_bytes(FORMAT_VERSION_CURRENT, self.salt@, nonce@, ct@, tag@));
            assert(out@.len() == 61 + ct@.len());
            assert(salt_of(out@) =~= self.salt@);
            assert(nonce_of(out@) =~= nonce@);
            assert(ct_of(out@) =~= ct@);
            assert(tag_of(out@) =~= tag@);
        }
        Ok(out)
    }

    /// The round trip, written down: sealing this store's entries and
    /// loading the image back with the passphrase whose key it holds
    /// reconstructs exactly the same entry collection. Only the entropy
    /// source can fail it.
    pub fn seal_and_reload(&self, passphrase: &SecureBytes) -> (r: Result<
        PasswordStore,
        StoreError,
    >)
        requires
            self.wf(),
            self.key_spec() == master_key_of(passphrase@, self.salt_spec()),
        ensures
            r is Ok ==> (r->Ok_0).entries_model() == self.entries_model(),
            r is Err ==> r->Err_0 == StoreError::EncryptError,
    {
        let image = match self.sync() {
            Ok(image) => image,
            Err(e) => {
                return Err(e);
            },
        };
        match PasswordStore::from_input(passphrase, &image) {
            Ok(store) => {
                proof {
                    assert(loads_current(passphrase@, image@, self.entries_model()));
                }
                Ok(store)
            },
            Err(e) => {
                proof {
                    assert(loads_current(passphrase@, image@, self.entries_model()));
                    assert(false);
                }
                Err(StoreError::EncryptError)
            },
        }
    }

    /// Looks an entry up by name; a copy of it, or `NotFound`.
    pub fn get(&self, name: &Vec<u8>) -> (r: Result<PasswordEntry, StoreError>)
        requires
            self.wf(),
        ensures
            contains_name(self.entries_model(), name@) ==> r is Ok && r->Ok_0@
                == self.entries_model()[index_of_name(self.entries_model(), name@)],
            !contains_name(self.entries_model(), name@) ==> r is Err && r->Err_0
                == StoreError::NotFound,
    {
        match find_index(&self.entries, name) {
            Some(i) => {
                proof {
                    lemma_index_of_name(self.entries_model(), name@, i as int);
                }
                Ok(self.entries[i].clone())
            },
            None => Err(StoreError::NotFound),
        }
    }

    /// Adds a new entry with both timestamps set to `now`. `DuplicateName`
    /// if the name is already present — then the store is left unchanged.
    pub fn add(&mut self, name: Vec<u8>, username: Vec<u8>, password: SecureBytes, now: u64) -> (r:
        Result<(), StoreError>)
        requires
            old(self).wf(),
            name@.len() <= u32::MAX,
            username@.len() <= u32::MAX,
            password@.len() <= u32::MAX,
            old(self).entries_model().len() < u32::MAX,
        ensures
            final(self).wf(),
            final(self).salt_spec() == old(self).salt_spec(),
            final(self).key_spec() == old(self).key_spec(),
            final(self).version_spec() == old(self).version_spec(),
            contains_name(old(self).entries_model(), name@) ==> r is Err && r->Err_0
                == StoreError::DuplicateName && final(self).entries_model() == old(self).entries_model(),
            !contains_name(old(self).entries_model(), name@) ==> r is Ok && final(self).entries_model() == old(self).entries_model().push(
                EntryModel {
                    name: name@,
                    username: username@,
                    password: password@,
                    created_at: now,
                    updated_at: now,
                },
            ),
    {
        if find_index(&self.entries, &name).is_some() {
            return Err(StoreError::DuplicateName);
        }
        let ghost old_models = self.entries_model();
        let entry = PasswordEntry { name, username, password, created_at: now, updated_at: now };
        let ghost em = entry@;
        self.entries.push(entry);
        proof {
            assert(self.entries_model() =~= old_models.push(em));
            assert forall|i: int, j: int| 0 <= i < j < self.entries_model().len() implies (
            #[trigger] self.entries_model()[i]).name != (#[trigger] self.entries_model()[j]).name by {
                if j == old_models.len() as int {
                    assert(!contains_name(old_models, em.name));
                    assert(!(exists|i2: int| 0 <= i2 < old_models.len()
                        && (#[trigger] old_models[i2]).name == em.name));
                }
            }
        }
        Ok(())
    }

    /// Replaces the named entry's password and advances `updated_at` to
    /// `now`, or keeps the old stamp when `now` would move it backwards:
    /// whatever the clock says, `updated_at` never decreases and
    /// `created_at` is untouched (the two clauses after the error ones).
    /// `NotFound` if the name is absent — then the store is unchanged.
    pub fn change_password(&mut self, name: &Vec<u8>, new_password: SecureBytes, now: u64) -> (r:
        Result<(), StoreError>)
        requires
            old(self).wf(),
            new_password@.len() <= u32::MAX,
        ensures
            final(self).wf(),
            final(self).salt_spec() == old(self).salt_spec(),
            final(self).key_spec() == old(self).key_spec(),
            final(self).version_spec() == old(self).version_spec(),
            !contains_name(old(self).entries_model(), name@) ==> r is Err && r->Err_0
                == StoreError::NotFound && final(self).entries_model() == old(self).entries_model(),
            contains_name(old(self).entries_model(), name@) ==> ({
                let es = old(self).entries_model();
                let i = index_of_name(es, name@);
                let e = es[i];
                r is Ok && final(self).entries_model() == es.update(
                    i,
                    EntryModel {
                        name: e.name,
                        username: e.username,
                        password: new_password@,
                        created_at: e.created_at,
                        updated_at: if now >= e.updated_at {
                            now
                        } else {
                            e.updated_at
                        },
                    },
                )
            }),
            contains_name(old(self).entries_model(), name@) ==> final(self).entries_model()[
                index_of_name(old(self).entries_model(), name@)].updated_at >= old(self).entries_model()[index_of_name(old(self).entries_model(), name@)].updated_at,
            contains_name(old(self).entries_model(), name@) ==> final(self).entries_model()[
                index_of_name(old(self).entries_model(), name@)].created_at == old(self).entries_model()[index_of_name(old(self).entries_model(), name@)].created_at,
    {
        let i = match find_index(&self.entries, name) {
            Some(i) => i,
            None => {
                return Err(StoreError::NotFound);
            },
        };
        proof {
            lemma_index_of_name(self.entries_model(), name@, i as int);
        }
        let ghost old_models = self.entries_model();
        let mut entry = self.entries.remove(i);
        entry.password.wipe();
        let updated_at = if now >= entry.updated_at {
            now
        } else {
            entry.updated_at
        };
        let new_entry = PasswordEntry {
            name: entry.name,
            username: entry.username,
            password: new_password,
            created_at: entry.created_at,
            updated_at,
        };
        let ghost em = new_entry@;
        self.entries.insert(i, new_entry);
        proof {
            assert(self.entries_model() =~= old_models.update(i as int, em));
            assert(names_unique(self.entries_model())) by {
                assert forall|a: int, b: int| 0 <= a < b < self.entries_model().len() implies (
                #[trigger] self.entries_model()[a]).name != (
                #[trigger] self.entries_model()[b]).name by {
                    assert(old_models[a].name != old_models[b].name);
                }
            }
        }
        Ok(())
    }

    /// Gives the named entry a new name, refreshing `updated_at`.
    /// `NotFound` if `old_name` is absent; `DuplicateName` if `new_name`
    /// is already taken by a different entry. On failure the store is
    /// unchanged.
    pub fn rename(&mut self, old_name: &Vec<u8>, new_name: Vec<u8>, now: u64) -> (r: Result<
        (),
        StoreError,
    >)
        requires
            old(self).wf(),
            new_name@.len() <= u32::MAX,
        ensures
            final(self).wf(),
            final(self).salt_spec() == old(self).salt_spec(),
            final(self).key_spec() == old(self).key_spec(),
            final(self).version_spec() == old(self).version_spec(),
            !contains_name(old(self).entries_model(), old_name@) ==> r is Err && r->Err_0
                == StoreError::NotFound && final(self).entries_model() == old(self).entries_model(),
            contains_name(old(self).entries_model(), old_name@) && new_name@ != old_name@
                && contains_name(old(self).entries_model(), new_name@) ==> r is Err && r->Err_0
                == StoreError::DuplicateName && final(self).entries_model() == old(self).entries_model(),
            contains_name(old(self).entries_model(), old_name@) && (new_name@ == old_name@
                || !contains_name(old(self).entries_model(), new_name@)) ==> ({
                let es = old(self).entries_model();
                let i = index_of_name(es, old_name@);
                let e = es[i];
                r is Ok && final(self).entries_model() == es.update(
                    i,
                    EntryModel {
                        name: new_name@,
                        username: e.username,
                        password: e.password,
                        created_at: e.created_at,
                        updated_at: if now >= e.updated_at {
                            now
                        } else {
                            e.updated_at
                        },
                    },
                )
            }),
    {
        let i = match find_index(&self.entries, old_name) {
            Some(i) => i,
            None => {
                return Err(StoreError::NotFound);
            },
        };
        proof {
            lemma_index_of_name(self.entries_model(), old_name@, i as int);
        }
        if !crate::entry::bytes_equal(&new_name, old_name) {
            match find_index(&self.entries, &new_name) {
                Some(_) => {
                    return Err(StoreError::DuplicateName);
                },
                None => {},
            }
        }
        let ghost old_models = self.entries_model();
        let ghost was_free = !contains_name(old_models, new_name@) || new_name@ == old_name@;
        let entry = self.entries.remove(i);
        let updated_at = if now >= entry.updated_at {
            now
        } else {
            entry.updated_at
        };
        let new_entry = PasswordEntry {
            name: new_name,
            username: entry.username,
            password: entry.password,
            created_at: entry.created_at,
            updated_at,
        };
        let ghost em = new_entry@;
        self.entries.insert(i, new_entry);
        proof {
            assert(self.entries_model() =~= old_models.update(i as int, em));
            assert(names_unique(self.entries_model())) by {
                assert forall|a: int, b: int| 0 <= a < b < self.entries_model().len() implies (
                #[trigger] self.entries_model()[a]).name != (
                #[trigger] self.entries_model()[b]).name by {
                    assert(old_models[a].name != old_models[b].name);
                    if a == i as int || b == i as int {
                        if em.name != old_models[i as int].name {
                            assert(!(exists|i2: int| 0 <= i2 < old_models.len()
                                && (#[trigger] old_models[i2]).name == em.name));
                        }
                    }
                }
            }
        }
        Ok(())
    }

    /// Removes and returns the named entry, or `NotFound` (then the
    /// store is unchanged).
    pub fn delete(&mut self, name: &Vec<u8>) -> (r: Result<PasswordEntry, StoreError>)
        requires
            old(self).wf(),
        ensures
            final(self).wf(),
            final(self).salt_spec() == old(self).salt_spec(),
            final(self).key_spec() == old(self).key_spec(),
            final(self).version_spec() == old(self).version_spec(),
            !contains_name(old(self).entries_model(), name@) ==> r is Err && r->Err_0
                == StoreError::NotFound && final(self).entries_model() == old(self).entries_model(),
            contains_name(old(self).entries_model(), name@) ==> ({
                let es = old(self).entries_model();
                let i = index_of_name(es, name@);
                r is Ok && r->Ok_0@ == es[i] && final(self).entries_model() == es.remove(i)
            }),
    {
        let i = match find_index(&self.entries, name) {
            Some(i) => i,
            None => {
                return Err(StoreError::NotFound);
            },
        };
        proof {
            lemma_index_of_name(self.entries_model(), name@, i as int);
        }
        let ghost old_models = self.entries_model();
        let entry = self.entries.remove(i);
        proof {
            assert(self.entries_model() =~= old_models.remove(i as int));
            assert(names_unique(self.entries_model())) by {
                assert forall|a: int, b: int| 0 <= a < b < self.entries_model().len() implies (
                #[trigger] self.entries_model()[a]).name != (
                #[trigger] self.entries_model()[b]).name by {
                    let a0 = if a < i as int { a } else { a + 1 };
                    let b0 = if b < i as int { b } else { b + 1 };
                    assert(self.entries_model()[a] == old_models[a0]);
                    assert(self.entries_model()[b] == old_models[b0]);
                    assert(old_models[a0].name != old_models[b0].name);
                }
            }
        }
        Ok(entry)
    }

    /// How many entries the store holds.
    pub fn count(&self) -> (r: usize)
        ensures
            r == self.entries_model().len(),
    {
        self.entries.len()
    }

    /// The `(name, username)` pairs in listing order; passwords stay
    /// inside.
    pub fn list(&self) -> (r: Vec<(Vec<u8>, Vec<u8>)>)
        ensures
            r@.len() == self.entries_model().len(),
            forall|i: int| 0 <= i < r@.len() ==> (#[trigger] r@[i]).0@
                == self.entries_model()[i].name && r@[i].1@ == self.entries_model()[i].username,
    {
        let n = self.entries.len();
        let mut r: Vec<(Vec<u8>, Vec<u8>)> = Vec::new();
        let mut i: usize = 0;
        while i < n
            invariant
                n == self.entries@.len(),
                i <= n,
                r@.len() == i,
                forall|j: int| 0 <= j < i ==> (#[trigger] r@[j]).0@
                    == models(self.entries@)[j].name && r@[j].1@ == models(
                    self.entries@,
                )[j].username,
            decreases n - i,
        {
            let e = &self.entries[i];
            r.push((clone_bytes(&e.name), clone_bytes(&e.username)));
            i = i + 1;
        }
        r
    }

    /// Copies of all entries, passwords included: the deliberately lossy
    /// escape hatch behind the export command. The caller owns what it
    /// does with them.
    pub fn export_entries(&self) -> (r: Vec<PasswordEntry>)
        ensures
            models(r@) == self.entries_model(),
    {
        let n = self.entries.len();
        let mut r: Vec<PasswordEntry> = Vec::new();
        let mut i: usize = 0;
        while i < n
            invariant
                n == self.entries@.len(),
                i <= n,
                models(r@) =~= models(self.entries@).take(i as int),
            decreases n - i,
        {
            let ghost old_r = models(r@);
            let e = &self.entries[i];
            r.push(e.clone());
            proof {
                assert(models(r@) =~= old_r.push(models(self.entries@)[i as int]));
                assert(models(r@) =~= models(self.entries@).take(i + 1));
            }
            i = i + 1;
        }
        proof {
            assert(models(self.entries@).take(n as int) =~= models(self.entries@));
        }
        r
    }

    /// Re-derives the key under a new passphrase, keeping the salt; the
    /// re-encryption itself happens at the next `sync`. The old key is
    /// wiped.
    pub fn change_master_password(&mut self, new_passphrase: &SecureBytes)
        requires
            old(self).wf(),
        ensures
            final(self).wf(),
            final(self).salt_spec() == old(self).salt_spec(),
            final(self).version_spec() == old(self).version_spec(),
            final(self).entries_model() == old(self).entries_model(),
            final(self).key_spec() == master_key_of(new_passphrase@, old(self).salt_spec()),
    {
        let key = scrypt_derive(
            new_passphrase.expose(),
            &self.salt,
            SCRYPT_LOG_N,
            SCRYPT_R,
            SCRYPT_P,
        );
        self.key.wipe();
        self.key = SecureBytes::new(key);
    }

    /// Scrubs the secret material held in memory: the derived key and
    /// every entry's password are overwritten with zeros (lengths kept).
    /// Names, usernames and timestamps stay, for a caller that still
    /// wants to list after disposal.
    pub fn scrub(&mut self)
        requires
            old(self).wf(),
        ensures
            final(self).wf(),
            final(self).salt_spec() == old(self).salt_spec(),
            final(self).version_spec() == old(self).version_spec(),
            forall|i: int| 0 <= i < final(self).key_spec().len() ==> final(self).key_spec()[i]
                == 0u8,
            final(self).entries_model().len() == old(self).entries_model().len(),
            forall|i: int| 0 <= i < final(self).entries_model().len() ==> #[trigger] scrubbed_entry(
                old(self).entries_model()[i],
                final(self).entries_model()[i],
            ),
    {
        let ghost old_models = self.entries_model();
        let n = self.entries.len();
        let mut scrubbed: Vec<PasswordEntry> = Vec::new();
        let mut i: usize = 0;
        while i < n
            invariant
                n == old_models.len(),
                self.salt@ == old(self).salt@,
                self.key@ == old(self).key@,
                self.format_version == old(self).format_version,
                old(self).wf(),
                old_models == old(self).entries_model(),
                self.entries@.len() == n - i,
                i <= n,
                scrubbed@.len() == i,
                forall|j: int| 0 <= j < n - i ==> #[trigger] models(self.entries@)[j]
                    == old_models[j + i],
                forall|j: int| 0 <= j < i ==> #[trigger] scrubbed_entry(
                    old_models[j],
                    models(scrubbed@)[j],
                ),
            decreases n - i,
        {
            let ghost prev = self.entries@;
            let ghost prev_scrubbed = scrubbed@;
            let mut e = self.entries.remove(0);
            let ghost e0 = e@;
            proof {
                prev.remove_ensures(0);
                assert(models(prev)[0] == prev[0]@);
                assert(e0 == old_models[0 + i]);
            }
            e.password.wipe();
            let ghost ew = e@;
            scrubbed.push(e);
            proof {
                assert forall|j: int| 0 <= j < n - (i + 1) implies #[trigger] models(
                    self.entries@,
                )[j] == old_models[j + (i + 1)] by {
                    assert(models(self.entries@)[j] == self.entries@[j]@);
                    assert(self.entries@[j] == prev[j + 1]);
                    assert(models(prev)[j + 1] == prev[j + 1]@);
                    assert(models(prev)[j + 1] == old_models[(j + 1) + i]);
                }
                assert forall|j: int| 0 <= j < i + 1 implies #[trigger] scrubbed_entry(
                    old_models[j],
                    models(scrubbed@)[j],
                ) by {
                    assert(models(scrubbed@)[j] == scrubbed@[j]@);
                    if j == i as int {
                        assert(models(scrubbed@)[j] == ew);
                        assert(scrubbed_entry(e0, ew));
                    } else {
                        assert(scrubbed@[j] == prev_scrubbed[j]);
                        assert(models(prev_scrubbed)[j] == prev_scrubbed[j]@);
                        assert(scrubbed_entry(old_models[j], models(prev_scrubbed)[j]));
                    }
                }
            }
            i = i + 1;
        }
        self.key.wipe();
        self.entries = scrubbed;
        proof {
            assert forall|a: int| 0 <= a < self.entries_model().len() implies wf_entry(
                #[trigger] self.entries_model()[a],
            ) by {
                assert(scrubbed_entry(old_models[a], self.entries_model()[a]));
                assert(wf_entry(old_models[a]));
            }
            assert(names_unique(self.entries_model())) by {
                assert forall|a: int, b: int| 0 <= a < b < self.entries_model().len() implies (
                #[trigger] self.entries_model()[a]).name != (
                #[trigger] self.entries_model()[b]).name by {
                    assert(scrubbed_entry(old_models[a], self.entries_model()[a]));
                    assert(scrubbed_entry(old_models[b], self.entries_model()[b]));
                    assert(old_models[a].name != old_models[b].name);
                }
            }
        }
    }

    /// Whether an entry's name or username contains the query,
    /// case-insensitively (ASCII).
    pub open spec fn entry_matches(e: EntryModel, q: Seq<u8>) -> bool {
        contains_sub(lower(e.name), lower(q)) || contains_sub(lower(e.username), lower(q))
    }

    /// The entries matching a query, in listing order.
    pub open spec fn matching(es: Seq<EntryModel>, q: Seq<u8>) -> Seq<EntryModel>
        decreases es.len(),
    {
        if es.len() == 0 {
            Seq::empty()
        } else if Self::entry_matches(es[0], q) {
            seq![es[0]] + Self::matching(es.drop_first(), q)
        } else {
            Self::matching(es.drop_first(), q)
        }
    }

    /// Copies of the entries whose name or username contains the query,
    /// ASCII-case-insensitively, in listing order.
    pub fn search(&self, query: &Vec<u8>) -> (r: Vec<PasswordEntry>)
        ensures
            models(r@) == Self::matching(self.entries_model(), query@),
    {
        let ghost es = self.entries_model();
        let lq = to_lower(query);
        let n = self.entries.len();
        let mut r: Vec<PasswordEntry> = Vec::new();
        let mut i: usize = 0;
        proof {
            assert(es.skip(0) =~= es);
            assert(models(r@) =~= Seq::<EntryModel>::empty());
        }
        while i < n
            invariant
                n == self.entries@.len(),
                es == self.entries_model(),
                i <= n,
                lq@ == lower(query@),
                Self::matching(es, query@) == models(r@) + Self::matching(
                    es.skip(i as int),
                    query@,
                ),
            decreases n - i,
        {
            let e = &self.entries[i];
            let ghost old_r = models(r@);
            proof {
                assert(es.skip(i as int)[0] == es[i as int]);
                assert(es.skip(i as int).drop_first() =~= es.skip(i as int + 1));
            }
            let name_l = to_lower(&e.name);
            let user_l = to_lower(&e.username);
            if contains_subbytes(&name_l, &lq) || contains_subbytes(&user_l, &lq) {
                r.push(e.clone());
                proof {
                    assert(models(r@) =~= old_r.push(es[i as int]));
                    assert(old_r + (seq![es[i as int]] + Self::matching(
                        es.skip(i as int + 1),
                        query@,
                    )) =~= models(r@) + Self::matching(es.skip(i as int + 1), query@));
                }
            }
            i = i + 1;
        }
        proof {
            assert(es.skip(n as int) =~= Seq::<EntryModel>::empty());
            assert(models(r@) + Seq::<EntryModel>::empty() =~= models(r@));
        }
        r
    }
}

} // verus!
