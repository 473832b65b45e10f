use rooster::StoreError;
use rooster::commands::callback_exec;
use rooster::secure::SecureBytes;
use rooster::store::PasswordStore;

fn pass(s: &str) -> SecureBytes {
    SecureBytes::new(s.as_bytes().to_vec())
}

fn fresh(p: &str) -> PasswordStore {
    PasswordStore::new(&pass(p)).unwrap()
}

fn add_entry(store: &mut PasswordStore, name: &str, user: &str, pw: &str, now: u64) -> Result<(), StoreError> {
    store.add(
        name.as_bytes().to_vec(),
        user.as_bytes().to_vec(),
        SecureBytes::new(pw.as_bytes().to_vec()),
        now,
    )
}

#[test]
fn scenario_fresh_add_sync_reload() {
    let mut store = fresh("hunter2");
    add_entry(&mut store, "github", "alice", "p1", 1000).unwrap();
    let image = store.sync().unwrap();
    let reloaded = PasswordStore::from_input(&pass("hunter2"), &image).unwrap();
    let e = reloaded.get(&b"github".to_vec()).unwrap();
    assert_eq!(e.name, b"github".to_vec());
    assert_eq!(e.username, b"alice".to_vec());
    assert_eq!(e.password.expose(), &b"p1".to_vec());
    assert_eq!(e.created_at, 1000);
    assert_eq!(e.updated_at, 1000);
}

#[test]
fn scenario_wrong_passphrase() {
    let mut store = fresh("hunter2");
    add_entry(&mut store, "github", "alice", "p1", 1000).unwrap();
    let image = store.sync().unwrap();
    let r = PasswordStore::from_input(&pass("wrong"), &image);
    assert!(matches!(r, Err(StoreError::AuthenticationError)));
}

#[test]
fn scenario_rename_frees_old_name() {
    let mut store = fresh("hunter2");
    add_entry(&mut store, "github", "alice", "p1", 1000).unwrap();
    store.rename(&b"github".to_vec(), b"gitlab".to_vec(), 1001).unwrap();
    assert!(add_entry(&mut store, "github", "bob", "p2", 1002).is_ok());
    let r = add_entry(&mut store, "gitlab", "carol", "p3", 1003);
    assert!(matches!(r, Err(StoreError::DuplicateName)));
}

#[test]
fn scenario_delete_missing() {
    let mut store = fresh("hunter2");
    let r = store.delete(&b"github".to_vec());
    assert!(matches!(r, Err(StoreError::NotFound)));
}

#[test]
fn add_duplicate_leaves_store_unchanged() {
    let mut store = fresh("hunter2");
    add_entry(&mut store, "github", "alice", "p1", 1000).unwrap();
    let before = store.list();
    let r = add_entry(&mut store, "github", "mallory", "p2", 2000);
    assert!(matches!(r, Err(StoreError::DuplicateName)));
    let after = store.list();
    assert_eq!(before.len(), after.len());
    assert_eq!(before[0].0, after[0].0);
    assert_eq!(before[0].1, after[0].1);
    let e = store.get(&b"github".to_vec()).unwrap();
    assert_eq!(e.username, b"alice".to_vec());
    assert_eq!(e.password.expose(), &b"p1".to_vec());
}

#[test]
fn change_password_advances_updated_at() {
    let mut store = fresh("hunter2");
    add_entry(&mut store, "github", "alice", "p1", 100).unwrap();
    store
        .change_password(&b"github".to_vec(), SecureBytes::new(b"p2".to_vec()), 200)
        .unwrap();
    let e = store.get(&b"github".to_vec()).unwrap();
    assert_eq!(e.created_at, 100);
    assert_eq!(e.updated_at, 200);
    assert_eq!(e.password.expose(), &b"p2".to_vec());
    // A clock that went backwards must not move the stamp backwards.
    store
        .change_password(&b"github".to_vec(), SecureBytes::new(b"p3".to_vec()), 50)
        .unwrap();
    let e = store.get(&b"github".to_vec()).unwrap();
    assert_eq!(e.created_at, 100);
    assert_eq!(e.updated_at, 200);
    assert_eq!(e.password.expose(), &b"p3".to_vec());
}

#[test]
fn change_password_missing_name() {
    let mut store = fresh("hunter2");
    let r = store.change_password(&b"github".to_vec(), SecureBytes::new(b"p2".to_vec()), 10);
    assert!(matches!(r, Err(StoreError::NotFound)));
}

#[test]
fn rename_missing_and_taken() {
    let mut store = fresh("hunter2");
    add_entry(&mut store, "github", "alice", "p1", 100).unwrap();
    add_entry(&mut store, "gitlab", "bob", "p2", 101).unwrap();
    let r = store.rename(&b"absent".to_vec(), b"x".to_vec(), 102);
    assert!(matches!(r, Err(StoreError::NotFound)));
    let r = store.rename(&b"github".to_vec(), b"gitlab".to_vec(), 103);
    assert!(matches!(r, Err(StoreError::DuplicateName)));
    // Renaming to its own name is allowed.
    assert!(store.rename(&b"github".to_vec(), b"github".to_vec(), 104).is_ok());
}

#[test]
fn delete_returns_entry() {
    let mut store = fresh("hunter2");
    add_entry(&mut store, "github", "alice", "p1", 100).unwrap();
    add_entry(&mut store, "gitlab", "bob", "p2", 101).unwrap();
    let e = store.delete(&b"github".to_vec()).unwrap();
    assert_eq!(e.name, b"github".to_vec());
    assert_eq!(e.username, b"alice".to_vec());
    assert_eq!(e.password.expose(), &b"p1".to_vec());
    let names = store.list();
    assert_eq!(names.len(), 1);
    assert_eq!(names[0].0, b"gitlab".to_vec());
}

#[test]
fn list_keeps_insertion_order_and_hides_passwords() {
    let mut store = fresh("hunter2");
    add_entry(&mut store, "bravo", "bob", "p2", 2).unwrap();
    add_entry(&mut store, "alpha", "alice", "p1", 1).unwrap();
    let l = store.list();
    assert_eq!(l.len(), 2);
    assert_eq!(l[0].0, b"bravo".to_vec());
    assert_eq!(l[0].1, b"bob".to_vec());
    assert_eq!(l[1].0, b"alpha".to_vec());
    assert_eq!(l[1].1, b"alice".to_vec());
}

#[test]
fn search_is_case_insensitive_on_name_and_username() {
    let mut store = fresh("hunter2");
    add_entry(&mut store, "GitHub", "alice", "p1", 1).unwrap();
    add_entry(&mut store, "youtube", "Bob-Hub", "p2", 2).unwrap();
    add_entry(&mut store, "bank", "carol", "p3", 3).unwrap();
    let hits = store.search(&b"HUB".to_vec());
    assert_eq!(hits.len(), 2);
    assert_eq!(hits[0].name, b"GitHub".to_vec());
    assert_eq!(hits[1].name, b"youtube".to_vec());
    let hits = store.search(&b"carol".to_vec());
    assert_eq!(hits.len(), 1);
    assert_eq!(hits[0].name, b"bank".to_vec());
    let hits = store.search(&b"nothing".to_vec());
    assert_eq!(hits.len(), 0);
    // The empty query matches everything.
    let hits = store.search(&b"".to_vec());
    assert_eq!(hits.len(), 3);
}

#[test]
fn export_exposes_passwords() {
    let mut store = fresh("hunter2");
    add_entry(&mut store, "github", "alice", "p1", 1).unwrap();
    let dump = store.export_entries();
    assert_eq!(dump.len(), 1);
    assert_eq!(dump[0].name, b"github".to_vec());
    assert_eq!(dump[0].password.expose(), &b"p1".to_vec());
}

#[test]
fn change_master_password_reencrypts() {
    let mut store = fresh("old-pass");
    add_entry(&mut store, "github", "alice", "p1", 1).unwrap();
    store.change_master_password(&pass("new-pass"));
    let image = store.sync().unwrap();
    assert!(matches!(
        PasswordStore::from_input(&pass("old-pass"), &image),
        Err(StoreError::AuthenticationError)
    ));
    let reloaded = PasswordStore::from_input(&pass("new-pass"), &image).unwrap();
    let e = reloaded.get(&b"github".to_vec()).unwrap();
    assert_eq!(e.password.expose(), &b"p1".to_vec());
}

#[test]
fn secure_bytes_wipe_zeroes() {
    let mut s = SecureBytes::new(b"secret".to_vec());
    s.wipe();
    assert_eq!(s.len(), 6);
    assert_eq!(s.expose(), &vec![0u8; 6]);
}

#[test]
fn scrub_zeroes_key_material() {
    let mut store = fresh("hunter2");
    add_entry(&mut store, "github", "alice", "p1", 1).unwrap();
    store.scrub();
    let l = store.list();
    assert_eq!(l.len(), 1);
    assert_eq!(l[0].0, b"github".to_vec());
    let e = store.get(&b"github".to_vec()).unwrap();
    assert_eq!(e.password.expose(), &vec![0u8; 2]);
}

#[test]
fn callback_exec_changes_password() {
    let mut store = fresh("hunter2");
    add_entry(&mut store, "youtube", "alice", "old", 100).unwrap();
    let r = callback_exec(
        &mut store,
        &b"youtube".to_vec(),
        SecureBytes::new(b"new".to_vec()),
        200,
    );
    assert!(r.is_ok());
    let e = store.get(&b"youtube".to_vec()).unwrap();
    assert_eq!(e.password.expose(), &b"new".to_vec());
    assert_eq!(e.updated_at, 200);
}

#[test]
fn callback_exec_missing_app_signals_one() {
    let mut store = fresh("hunter2");
    let r = callback_exec(
        &mut store,
        &b"youtube".to_vec(),
        SecureBytes::new(b"new".to_vec()),
        200,
    );
    assert_eq!(r, Err(1));
}

#[test]
fn seal_and_reload_round_trip() {
    let mut store = fresh("hunter2");
    add_entry(&mut store, "github", "alice", "p1", 1).unwrap();
    add_entry(&mut store, "gitlab", "bob", "p2", 2).unwrap();
    let reloaded = store.seal_and_reload(&pass("hunter2")).unwrap();
    let l = reloaded.list();
    assert_eq!(l.len(), 2);
    assert_eq!(l[0].0, b"github".to_vec());
    assert_eq!(l[1].0, b"gitlab".to_vec());
}

#[test]
fn empty_store_round_trip() {
    let store = fresh("hunter2");
    let image = store.sync().unwrap();
    let reloaded = PasswordStore::from_input(&pass("hunter2"), &image).unwrap();
    assert_eq!(reloaded.list().len(), 0);
}

#[test]
fn from_input_rejects_garbage() {
    let r = PasswordStore::from_input(&pass("hunter2"), &b"not a store".to_vec());
    assert!(matches!(r, Err(StoreError::FormatError)));
    let r = PasswordStore::from_input(&pass("hunter2"), &Vec::new());
    assert!(matches!(r, Err(StoreError::FormatError)));
}

#[test]
fn get_missing_name() {
    let store = fresh("hunter2");
    let r = store.get(&b"github".to_vec());
    assert!(matches!(r, Err(StoreError::NotFound)));
}

#[test]
fn sync_uses_a_fresh_nonce_each_time() {
    let store = fresh("hunter2");
    let a = store.sync().unwrap();
    let b = store.sync().unwrap();
    // The nonce field sits between the salt and the ciphertext; a repeat
    // of the 12 random bytes is beyond unlikely.
    assert_ne!(&a[33..45], &b[33..45]);
    // Both images still load.
    assert!(PasswordStore::from_input(&pass("hunter2"), &a).is_ok());
    assert!(PasswordStore::from_input(&pass("hunter2"), &b).is_ok());
}
