use crypto::aead::AeadEncryptor;
use rooster::StoreError;
use rooster::codec::{decode_doc, encode_doc};
use rooster::entry::PasswordEntry;
use rooster::secure::SecureBytes;
use rooster::store::{
    PasswordStore, FORMAT_VERSION_CURRENT, FORMAT_VERSION_V1, PBKDF2_ROUNDS, SCRYPT_LOG_N,
    SCRYPT_P, SCRYPT_R,
};
use rooster::upgrade::upgrade;

fn pass(s: &str) -> SecureBytes {
    SecureBytes::new(s.as_bytes().to_vec())
}

fn entry(name: &str, user: &str, pw: &str, created: u64, updated: u64) -> PasswordEntry {
    PasswordEntry {
        name: name.as_bytes().to_vec(),
        username: user.as_bytes().to_vec(),
        password: SecureBytes::new(pw.as_bytes().to_vec()),
        created_at: created,
        updated_at: updated,
    }
}

// Independent builders for the on-disk forms, written directly against
// the outside cryptography, so a library that misread it would fail here.

fn push_field(out: &mut Vec<u8>, b: &[u8]) {
    out.extend_from_slice(&(b.len() as u32).to_be_bytes());
    out.extend_from_slice(b);
}

fn doc_with_one_entry(tag: u8, name: &[u8], user: &[u8], pw: &[u8], created: u64, updated: u64) -> Vec<u8> {
    let mut out = vec![tag];
    out.extend_from_slice(&1u32.to_be_bytes());
    push_field(&mut out, name);
    push_field(&mut out, user);
    push_field(&mut out, pw);
    out.extend_from_slice(&created.to_be_bytes());
    out.extend_from_slice(&updated.to_be_bytes());
    out
}

fn scrypt_key(pass: &[u8], salt: &[u8]) -> Vec<u8> {
    let params = crypto::scrypt::ScryptParams::new(SCRYPT_LOG_N, SCRYPT_R, SCRYPT_P);
    let mut key = vec![0u8; 32];
    crypto::scrypt::scrypt(pass, salt, &params, &mut key);
    key
}

fn pbkdf2_key(pass: &[u8], salt: &[u8]) -> Vec<u8> {
    let mut mac = crypto::hmac::Hmac::new(crypto::sha2::Sha256::new(), pass);
    let mut key = vec![0u8; 32];
    crypto::pbkdf2::pbkdf2(&mut mac, salt, PBKDF2_ROUNDS, &mut key);
    key
}

fn seal_file(version: u8, key: &[u8], salt: &[u8], nonce: &[u8], doc: &[u8]) -> Vec<u8> {
    let mut gcm =
        crypto::aes_gcm::AesGcm::new(crypto::aes::KeySize::KeySize256, key, nonce, &[]);
    let mut ct = vec![0u8; doc.len()];
    let mut tag = vec![0u8; 16];
    gcm.encrypt(doc, &mut ct, &mut tag);
    let mut out = vec![version];
    out.extend_from_slice(salt);
    out.extend_from_slice(nonce);
    out.extend_from_slice(&ct);
    out.extend_from_slice(&tag);
    out
}

#[test]
fn encode_decode_round_trip() {
    let entries = vec![
        entry("github", "alice", "p1", 10, 20),
        entry("", "", "", 0, 0),
        entry("bank", "bob", "s3cret", 5, 5),
    ];
    let doc = encode_doc(7, &entries);
    let back = decode_doc(7, &doc).unwrap();
    assert_eq!(back.len(), 3);
    for (a, b) in entries.iter().zip(back.iter()) {
        assert_eq!(a.name, b.name);
        assert_eq!(a.username, b.username);
        assert_eq!(a.password.expose(), b.password.expose());
        assert_eq!(a.created_at, b.created_at);
        assert_eq!(a.updated_at, b.updated_at);
    }
}

#[test]
fn decode_has_exact_expected_bytes() {
    let doc = encode_doc(2, &vec![entry("ab", "c", "d", 1, 2)]);
    let expected = doc_with_one_entry(2, b"ab", b"c", b"d", 1, 2);
    assert_eq!(doc, expected);
}

#[test]
fn decode_rejects_malformed() {
    let good = doc_with_one_entry(2, b"ab", b"c", b"d", 1, 2);
    // Foreign tag.
    assert!(decode_doc(3, &good).is_none());
    // Truncation anywhere.
    for cut in 0..good.len() {
        assert!(decode_doc(2, &good[..cut].to_vec()).is_none());
    }
    // Trailing bytes.
    let mut long = good.clone();
    long.push(0);
    assert!(decode_doc(2, &long).is_none());
    // An update stamp before the creation stamp.
    let bad_ts = doc_with_one_entry(2, b"ab", b"c", b"d", 2, 1);
    assert!(decode_doc(2, &bad_ts).is_none());
    // A duplicate name.
    let mut dup = vec![2u8];
    dup.extend_from_slice(&2u32.to_be_bytes());
    for _ in 0..2 {
        push_field(&mut dup, b"same");
        push_field(&mut dup, b"u");
        push_field(&mut dup, b"p");
        dup.extend_from_slice(&1u64.to_be_bytes());
        dup.extend_from_slice(&1u64.to_be_bytes());
    }
    assert!(decode_doc(2, &dup).is_none());
}

#[test]
fn loads_file_sealed_by_outside_crypto() {
    let salt = [7u8; 32];
    let nonce = [9u8; 12];
    let key = scrypt_key(b"hunter2", &salt);
    let doc = doc_with_one_entry(FORMAT_VERSION_CURRENT, b"github", b"alice", b"p1", 10, 20);
    let file = seal_file(FORMAT_VERSION_CURRENT, &key, &salt, &nonce, &doc);
    let store = PasswordStore::from_input(&pass("hunter2"), &file).unwrap();
    let e = store.get(&b"github".to_vec()).unwrap();
    assert_eq!(e.username, b"alice".to_vec());
    assert_eq!(e.password.expose(), &b"p1".to_vec());
    assert_eq!(e.created_at, 10);
    assert_eq!(e.updated_at, 20);
}

#[test]
fn outside_crypto_opens_synced_file() {
    let mut store = PasswordStore::new(&pass("hunter2")).unwrap();
    store
        .add(
            b"github".to_vec(),
            b"alice".to_vec(),
            SecureBytes::new(b"p1".to_vec()),
            10,
        )
        .unwrap();
    let image = store.sync().unwrap();
    assert_eq!(image[0], FORMAT_VERSION_CURRENT);
    let salt = &image[1..33];
    let nonce = &image[33..45];
    let ct = &image[45..image.len() - 16];
    let tag = &image[image.len() - 16..];
    let key = scrypt_key(b"hunter2", salt);
    let mut gcm =
        crypto::aes_gcm::AesGcm::new(crypto::aes::KeySize::KeySize256, &key, nonce, &[]);
    let mut pt = vec![0u8; ct.len()];
    assert!(crypto::aead::AeadDecryptor::decrypt(&mut gcm, ct, &mut pt, tag));
    let expected = doc_with_one_entry(FORMAT_VERSION_CURRENT, b"github", b"alice", b"p1", 10, 10);
    assert_eq!(pt, expected);
}

#[test]
fn upgrade_loads_previous_revision() {
    let salt = [3u8; 32];
    let nonce = [4u8; 12];
    let key = pbkdf2_key(b"hunter2", &salt);
    let doc = doc_with_one_entry(FORMAT_VERSION_V1, b"github", b"alice", b"p1", 10, 20);
    let file = seal_file(FORMAT_VERSION_V1, &key, &salt, &nonce, &doc);
    // The current loader refuses the old revision; the upgrader takes it.
    assert!(matches!(
        PasswordStore::from_input(&pass("hunter2"), &file),
        Err(StoreError::FormatError)
    ));
    let store = upgrade(&pass("hunter2"), &file).unwrap();
    let e = store.get(&b"github".to_vec()).unwrap();
    assert_eq!(e.username, b"alice".to_vec());
    assert_eq!(e.password.expose(), &b"p1".to_vec());
    // The migrated store seals in the current format under the same passphrase.
    let image = store.sync().unwrap();
    assert_eq!(image[0], FORMAT_VERSION_CURRENT);
    let reloaded = PasswordStore::from_input(&pass("hunter2"), &image).unwrap();
    assert_eq!(reloaded.list().len(), 1);
}

#[test]
fn upgrade_wrong_passphrase_fails() {
    let salt = [3u8; 32];
    let nonce = [4u8; 12];
    let key = pbkdf2_key(b"hunter2", &salt);
    let doc = doc_with_one_entry(FORMAT_VERSION_V1, b"github", b"alice", b"p1", 10, 20);
    let file = seal_file(FORMAT_VERSION_V1, &key, &salt, &nonce, &doc);
    assert!(matches!(
        upgrade(&pass("wrong"), &file),
        Err(StoreError::AuthenticationError)
    ));
}

#[test]
fn upgrade_of_current_format_is_a_no_op() {
    let mut store = PasswordStore::new(&pass("hunter2")).unwrap();
    store
        .add(
            b"github".to_vec(),
            b"alice".to_vec(),
            SecureBytes::new(b"p1".to_vec()),
            10,
        )
        .unwrap();
    let image = store.sync().unwrap();
    let upgraded = upgrade(&pass("hunter2"), &image).unwrap();
    let direct = PasswordStore::from_input(&pass("hunter2"), &image).unwrap();
    assert_eq!(upgraded.list(), direct.list());
    let a = upgraded.get(&b"github".to_vec()).unwrap();
    let b = direct.get(&b"github".to_vec()).unwrap();
    assert_eq!(a.password.expose(), b.password.expose());
    assert_eq!(a.created_at, b.created_at);
    assert_eq!(a.updated_at, b.updated_at);
    // A second image of the upgraded store still loads.
    let image2 = upgraded.sync().unwrap();
    assert!(PasswordStore::from_input(&pass("hunter2"), &image2).is_ok());
}

#[test]
fn upgrade_rejects_unknown_version() {
    let mut file = vec![9u8];
    file.extend_from_slice(&[0u8; 65]);
    assert!(matches!(
        upgrade(&pass("hunter2"), &file),
        Err(StoreError::FormatError)
    ));
    assert!(matches!(
        upgrade(&pass("hunter2"), &b"short".to_vec()),
        Err(StoreError::FormatError)
    ));
}

fn tampered_image() -> Vec<u8> {
    let store = PasswordStore::new(&pass("hunter2")).unwrap();
    store.sync().unwrap()
}

fn assert_every_flip_fails(image: &[u8], from: usize, to: usize) {
    for pos in from..to {
        let mut bad = image.to_vec();
        bad[pos] ^= 0x01;
        let r = PasswordStore::from_input(&pass("hunter2"), &bad);
        assert!(
            matches!(r, Err(StoreError::AuthenticationError) | Err(StoreError::FormatError)),
            "flip at {} was not detected",
            pos
        );
    }
}

#[test]
fn tamper_in_salt_is_detected() {
    let image = tampered_image();
    assert_every_flip_fails(&image, 1, 23);
}

#[test]
fn tamper_in_salt_tail_and_nonce_is_detected() {
    let image = tampered_image();
    assert_every_flip_fails(&image, 23, 45);
}

#[test]
fn tamper_in_ciphertext_and_tag_is_detected() {
    let image = tampered_image();
    let n = image.len();
    assert_every_flip_fails(&image, 45, n);
}
