use pwdmgr::crypto::CryptoManager;
use pwdmgr::store::Storage;

const ALPHABET: &str =
    "ABCDEFGHIJKLMNOPQRSTUVWXYZabcdefghijklmnopqrstuvwxyz0123456789!@#$%^&*()-_=+[]{}|;:,.<>?";

fn storage() -> Storage {
    Storage { crypto: CryptoManager::new("pw").unwrap() }
}

#[test]
fn generated_secret_has_exact_length() {
    let s = storage();
    for n in [0usize, 1, 8, 16, 20, 64] {
        let p = s.generate_password(n);
        assert_eq!(p.chars().count(), n);
    }
}

#[test]
fn generated_secret_stays_in_alphabet() {
    let s = storage();
    let p = s.generate_password(500);
    for c in p.chars() {
        assert!(ALPHABET.contains(c), "character {:?} outside the alphabet", c);
    }
}

#[test]
fn hundred_secrets_of_twenty_are_distinct() {
    let s = storage();
    let mut seen: Vec<String> = Vec::new();
    for _ in 0..100 {
        let p = s.generate_password(20);
        assert_eq!(p.chars().count(), 20);
        assert!(!seen.contains(&p), "duplicate generated secret");
        seen.push(p);
    }
}

#[test]
fn successive_secrets_differ() {
    let s = storage();
    let a = s.generate_password(8);
    let b = s.generate_password(8);
    assert_ne!(a, b);
}
