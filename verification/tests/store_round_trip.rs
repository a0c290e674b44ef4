use pwdmgr::crypto::CryptoManager;
use pwdmgr::errors::LoadError;
use pwdmgr::models::{PasswordEntry, PasswordStore};
use pwdmgr::store::Storage;

fn storage(passphrase: &str) -> Storage {
    Storage { crypto: CryptoManager::new(passphrase).unwrap() }
}

fn entry(service: &str, username: &str, password: &str) -> PasswordEntry {
    PasswordEntry {
        service: String::from(service),
        username: String::from(username),
        password: String::from(password),
    }
}

#[test]
fn fresh_vault_is_empty() {
    let s = storage("master");
    let store = s.load(None).unwrap();
    assert!(store.entries.is_empty());
}

#[test]
fn save_then_load_in_new_session() {
    let s = storage("master");
    let mut store = s.load(None).unwrap();
    store.add_entry(entry("github", "alice", "p@ss1234"));
    let blob = s.save(&store).unwrap();

    let s2 = storage("master");
    let loaded = s2.load(Some(&blob)).unwrap();
    assert_eq!(loaded.entries.len(), 1);
    assert_eq!(loaded.entries[0].service, "github");
    assert_eq!(loaded.entries[0].username, "alice");
    assert_eq!(loaded.entries[0].password, "p@ss1234");
}

#[test]
fn save_load_keeps_order_and_duplicates() {
    let s = storage("master");
    let mut store = PasswordStore::new();
    store.add_entry(entry("github", "alice", "one"));
    store.add_entry(entry("mail", "bob", "two"));
    store.add_entry(entry("github", "carol", "three"));
    let blob = s.save(&store).unwrap();
    let loaded = s.load(Some(&blob)).unwrap();
    assert_eq!(loaded.entries.len(), 3);
    assert_eq!(loaded.entries[0].username, "alice");
    assert_eq!(loaded.entries[1].username, "bob");
    assert_eq!(loaded.entries[2].username, "carol");
}

#[test]
fn save_load_keeps_unicode_fields() {
    let s = storage("master");
    let mut store = PasswordStore::new();
    store.add_entry(entry("caf\u{e9}", "ren\u{e9}e", "\u{65e5}\u{672c}\u{8a9e} pass"));
    let blob = s.save(&store).unwrap();
    let loaded = s.load(Some(&blob)).unwrap();
    assert_eq!(loaded.entries[0].service, "caf\u{e9}");
    assert_eq!(loaded.entries[0].username, "ren\u{e9}e");
    assert_eq!(loaded.entries[0].password, "\u{65e5}\u{672c}\u{8a9e} pass");
}

#[test]
fn save_of_loaded_store_is_idempotent() {
    let s = storage("master");
    let mut store = PasswordStore::new();
    store.add_entry(entry("github", "alice", "p@ss1234"));
    store.add_entry(entry("mail", "bob", "hunter2"));
    let blob1 = s.save(&store).unwrap();
    let loaded1 = s.load(Some(&blob1)).unwrap();
    let blob2 = s.save(&loaded1).unwrap();
    let loaded2 = s.load(Some(&blob2)).unwrap();
    assert_eq!(loaded2.entries.len(), 2);
    assert_eq!(loaded2.entries[0].service, "github");
    assert_eq!(loaded2.entries[0].password, "p@ss1234");
    assert_eq!(loaded2.entries[1].service, "mail");
    assert_eq!(loaded2.entries[1].password, "hunter2");
}

#[test]
fn wrong_passphrase_is_unauthorized() {
    let s = storage("right horse");
    let mut store = PasswordStore::new();
    store.add_entry(entry("github", "alice", "p@ss1234"));
    let blob = s.save(&store).unwrap();

    let other = storage("wrong battery");
    assert!(matches!(other.load(Some(&blob)), Err(LoadError::Unauthorized)));
}

#[test]
fn corrupt_byte_past_nonce_is_unauthorized() {
    let s = storage("master");
    let mut store = PasswordStore::new();
    store.add_entry(entry("github", "alice", "p@ss1234"));
    let mut blob = s.save(&store).unwrap();
    blob[20] ^= 0x01;
    assert!(matches!(s.load(Some(&blob)), Err(LoadError::Unauthorized)));
}

#[test]
fn decrypted_text_that_is_no_record_set_is_corrupt() {
    let s = storage("master");
    let blob = s.crypto.encrypt(b"not a record set").unwrap();
    assert!(matches!(s.load(Some(&blob)), Err(LoadError::Corrupt)));
}

#[test]
fn delete_of_absent_service_is_a_kept_no_op() {
    let s = storage("master");
    let mut store = PasswordStore::new();
    store.add_entry(entry("github", "alice", "one"));
    store.add_entry(entry("mail", "bob", "two"));
    store.remove_service(&String::from("nonexistent-service"));
    assert_eq!(store.entries.len(), 2);
    let blob = s.save(&store).unwrap();
    let loaded = s.load(Some(&blob)).unwrap();
    assert_eq!(loaded.entries.len(), 2);
    assert_eq!(loaded.entries[0].service, "github");
    assert_eq!(loaded.entries[1].service, "mail");
}

#[test]
fn delete_removes_every_match() {
    let s = storage("master");
    let mut store = PasswordStore::new();
    store.add_entry(entry("github", "alice", "one"));
    store.add_entry(entry("mail", "bob", "two"));
    store.add_entry(entry("github", "carol", "three"));
    store.remove_service(&String::from("github"));
    assert_eq!(store.entries.len(), 1);
    assert_eq!(store.entries[0].service, "mail");
    assert!(s.save(&store).is_ok());
}

#[test]
fn find_returns_first_match_only() {
    let mut store = PasswordStore::new();
    store.add_entry(entry("github", "alice", "one"));
    store.add_entry(entry("github", "carol", "three"));
    let found = store.find_entry(&String::from("github")).unwrap();
    assert_eq!(found.username, "alice");
    assert!(store.find_entry(&String::from("absent")).is_none());
}
