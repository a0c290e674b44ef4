use pwdmgr::crypto::CryptoManager;
use pwdmgr::errors::CryptoError;

#[test]
fn round_trip_bytes() {
    let m = CryptoManager::new("master passphrase").unwrap();
    let blob = m.encrypt(b"hello vault").unwrap();
    assert_eq!(blob.len(), b"hello vault".len() + 12 + 16);
    let back = m.decrypt(&blob).unwrap();
    assert_eq!(back, b"hello vault".to_vec());
}

#[test]
fn round_trip_empty_plaintext() {
    let m = CryptoManager::new("master passphrase").unwrap();
    let blob = m.encrypt(b"").unwrap();
    assert_eq!(blob.len(), 28);
    let back = m.decrypt(&blob).unwrap();
    assert_eq!(back, Vec::<u8>::new());
}

#[test]
fn blob_is_not_plaintext() {
    let m = CryptoManager::new("master passphrase").unwrap();
    let blob = m.encrypt(b"hello vault").unwrap();
    assert!(!blob.windows(b"hello vault".len()).any(|w| w == b"hello vault"));
}

#[test]
fn round_trip_text() {
    let m = CryptoManager::new("pw").unwrap();
    let blob = m.encrypt("caf\u{e9} \u{2713}".as_bytes()).unwrap();
    let text = m.decrypt_to_text(&blob).unwrap();
    assert_eq!(text, "caf\u{e9} \u{2713}");
}

#[test]
fn wrong_passphrase_fails() {
    let m1 = CryptoManager::new("first passphrase").unwrap();
    let m2 = CryptoManager::new("second passphrase").unwrap();
    let blob = m1.encrypt(b"secret payload").unwrap();
    assert_eq!(m2.decrypt(&blob), Err(CryptoError::AuthenticationFailure));
}

#[test]
fn tamper_detection_every_bit() {
    let m = CryptoManager::new("pw").unwrap();
    let blob = m.encrypt(b"abc").unwrap();
    for byte in 0..blob.len() {
        for bit in 0..8 {
            let mut tampered = blob.clone();
            tampered[byte] ^= 1u8 << bit;
            assert_eq!(m.decrypt(&tampered), Err(CryptoError::AuthenticationFailure));
        }
    }
}

#[test]
fn nonce_uniqueness() {
    let m = CryptoManager::new("pw").unwrap();
    let b1 = m.encrypt(b"same plaintext").unwrap();
    let b2 = m.encrypt(b"same plaintext").unwrap();
    assert_ne!(b1, b2);
    assert_ne!(&b1[..12], &b2[..12]);
}

#[test]
fn short_blob_is_malformed() {
    let m = CryptoManager::new("pw").unwrap();
    assert_eq!(m.decrypt(&[0u8; 5]), Err(CryptoError::MalformedInput));
    assert_eq!(m.decrypt(&[]), Err(CryptoError::MalformedInput));
}

#[test]
fn twelve_byte_blob_fails_authentication() {
    let m = CryptoManager::new("pw").unwrap();
    assert_eq!(m.decrypt(&[0u8; 12]), Err(CryptoError::AuthenticationFailure));
}

#[test]
fn non_text_plaintext_is_encoding_error() {
    let m = CryptoManager::new("pw").unwrap();
    let blob = m.encrypt(&[0xff, 0xfe, 0x00]).unwrap();
    assert_eq!(m.decrypt_to_text(&blob), Err(CryptoError::Encoding));
}

#[test]
fn same_passphrase_derives_same_key() {
    let m1 = CryptoManager::new("shared").unwrap();
    let m2 = CryptoManager::new("shared").unwrap();
    let blob = m1.encrypt(b"cross-session").unwrap();
    assert_eq!(m2.decrypt(&blob).unwrap(), b"cross-session".to_vec());
}
