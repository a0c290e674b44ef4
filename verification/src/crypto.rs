//! The key/cipher manager: derives a 256-bit key from a master passphrase
//! with a memory-hard KDF, and encrypts/decrypts byte payloads with an AEAD
//! (AES-256-GCM). An encrypted blob is `nonce (12 bytes) || ciphertext+tag`.

use aes_gcm::aead::Aead;
use aes_gcm::KeyInit;
use rand::RngCore;

use crate::errors::CryptoError;
use vstd::prelude::*;
use vstd::utf8::{decode_utf8, encode_utf8, valid_utf8};

verus! {

/// Length in bytes of the derived symmetric key.
pub const KEY_LEN: usize = 32;

/// Length in bytes of the AEAD nonce carried in front of every blob.
pub const NONCE_LEN: usize = 12;

/// Length in bytes of the AEAD authentication tag appended to the ciphertext.
pub const TAG_LEN: usize = 16;

/// The key that the Argon2id KDF derives from the given passphrase bytes and
/// salt, with the default parameters and a 32-byte output. The result is a
/// function of the two arguments alone.
pub uninterp spec fn kdf_key(password: Seq<u8>, salt: Seq<u8>) -> Seq<u8>;

/// The ciphertext-with-tag that AES-256-GCM produces for the given 32-byte
/// key, 12-byte nonce and plaintext, with no associated data. The result is
/// a function of the three arguments alone.
pub uninterp spec fn gcm_seal(key: Seq<u8>, nonce: Seq<u8>, plaintext: Seq<u8>) -> Seq<u8>;

/// What AES-256-GCM decryption of `ciphertext` (ciphertext with trailing
/// tag) returns for the given 32-byte key and 12-byte nonce: the recovered
/// plaintext when the tag verifies, nothing otherwise. The result is a
/// function of the three arguments alone.
pub uninterp spec fn gcm_open(key: Seq<u8>, nonce: Seq<u8>, ciphertext: Seq<u8>) -> Option<
    Seq<u8>,
>;

/// Relies on `Argon2::default().hash_password_into` of the argon2 crate:
/// with a 32-byte output buffer it fills the buffer with the derived key and
/// succeeds exactly when the password is at most 2^32 - 1 bytes and the salt
/// between 8 and 2^32 - 1 bytes.
#[verifier::external_body]
fn argon2_derive_key(password: &[u8], salt: &[u8]) -> (r: Result<Vec<u8>, ()>)
    ensures
        r matches Ok(key) ==> key@ == kdf_key(password@, salt@) && key@.len() == KEY_LEN,
        r is Ok <==> (password@.len() <= 0xFFFF_FFFF && 8 <= salt@.len() <= 0xFFFF_FFFF),
{
    let mut key = [0u8; 32];
    match argon2::Argon2::default().hash_password_into(password, salt, &mut key) {
        Ok(()) => Ok(key.to_vec()),
        Err(_) => Err(()),
    }
}

/// Relies on `Aes256Gcm::new_from_slice` of the aes-gcm crate, which accepts
/// every 32-byte key, and on `Aead::encrypt`, which returns
/// `ciphertext || tag` and fails exactly when the plaintext is longer than
/// 2^36 bytes. Decrypting its result with the same key and nonce recovers
/// the plaintext (AEAD correctness).
#[verifier::external_body]
fn aead_encrypt(key: &[u8], nonce: &[u8], plaintext: &[u8]) -> (r: Result<Vec<u8>, ()>)
    requires
        key@.len() == KEY_LEN,
        nonce@.len() == NONCE_LEN,
    ensures
        r matches Ok(ct) ==> {
            &&& ct@ == gcm_seal(key@, nonce@, plaintext@)
            &&& ct@.len() == plaintext@.len() + TAG_LEN
            &&& gcm_open(key@, nonce@, ct@) == Some(plaintext@)
        },
        r is Ok <==> plaintext@.len() <= 0x10_0000_0000,
{
    let cipher = aes_gcm::Aes256Gcm::new_from_slice(key).map_err(|_| ())?;
    cipher.encrypt(aes_gcm::Nonce::from_slice(nonce), plaintext).map_err(|_| ())
}

/// Relies on `Aes256Gcm::new_from_slice` of the aes-gcm crate, which accepts
/// every 32-byte key, and on `Aead::decrypt`, which splits the trailing tag
/// off `ciphertext`, verifies it, and returns the plaintext exactly when the
/// tag verifies; the outcome is a function of key, nonce and ciphertext.
#[verifier::external_body]
fn aead_decrypt(key: &[u8], nonce: &[u8], ciphertext: &[u8]) -> (r: Result<Vec<u8>, ()>)
    requires
        key@.len() == KEY_LEN,
        nonce@.len() == NONCE_LEN,
    ensures
        r matches Ok(pt) ==> gcm_open(key@, nonce@, ciphertext@) == Some(pt@),
        r is Ok <==> gcm_open(key@, nonce@, ciphertext@) is Some,
{
    let cipher = aes_gcm::Aes256Gcm::new_from_slice(key).map_err(|_| ())?;
    cipher.decrypt(aes_gcm::Nonce::from_slice(nonce), ciphertext).map_err(|_| ())
}

/// Relies on `OsRng::try_fill_bytes` of the rand crate: it fills the buffer
/// from the operating system's secure random source, or reports failure.
/// Nothing is promised about the value beyond its length: it is random.
#[verifier::external_body]
fn os_random_bytes(n: usize) -> (r: Result<Vec<u8>, ()>)
    ensures
        r matches Ok(bytes) ==> bytes@.len() == n,
{
    let mut buf = vec![0u8; n];
    match rand::rngs::OsRng.try_fill_bytes(&mut buf) {
        Ok(()) => Ok(buf),
        Err(_) => Err(()),
    }
}

/// The fixed key-derivation salt, the bytes of the text `example salt`. A
/// constant salt is what the established on-disk format uses; a per-vault
/// random salt would defend better against precomputed dictionaries but
/// would change that format, so the constant is kept and called out here
/// rather than silently hardened.
pub open spec fn vault_salt() -> Seq<u8> {
    seq![0x65u8, 0x78, 0x61, 0x6d, 0x70, 0x6c, 0x65, 0x20, 0x73, 0x61, 0x6c, 0x74]
}

/// The fixed key-derivation salt as a byte vector.
fn salt_bytes() -> (v: Vec<u8>)
    ensures
        v@ == vault_salt(),
{
    let mut v: Vec<u8> = Vec::new();
    v.push(0x65);
    v.push(0x78);
    v.push(0x61);
    v.push(0x6d);
    v.push(0x70);
    v.push(0x6c);
    v.push(0x65);
    v.push(0x20);
    v.push(0x73);
    v.push(0x61);
    v.push(0x6c);
    v.push(0x74);
    proof {
        assert(v@ =~= vault_salt());
    }
    v
}

/// What decrypting a blob under the given key yields: too short for a nonce
/// is malformed input, a failed tag check is an authentication failure, and
/// otherwise the recovered plaintext.
pub open spec fn decrypt_spec(key: Seq<u8>, blob: Seq<u8>) -> Result<Seq<u8>, CryptoError> {
    if blob.len() < NONCE_LEN {
        Err(CryptoError::MalformedInput)
    } else {
        match gcm_open(key, blob.take(NONCE_LEN as int), blob.skip(NONCE_LEN as int)) {
            Some(pt) => Ok(pt),
            None => Err(CryptoError::AuthenticationFailure),
        }
    }
}

/// What decrypting a blob to text yields: decryption as in [`decrypt_spec`],
/// then an encoding failure if the plaintext is not valid UTF-8.
pub open spec fn decrypt_text_spec(key: Seq<u8>, blob: Seq<u8>) -> Result<Seq<char>, CryptoError> {
    match decrypt_spec(key, blob) {
        Err(e) => Err(e),
        Ok(pt) => if valid_utf8(pt) {
            Ok(decode_utf8(pt))
        } else {
            Err(CryptoError::Encoding)
        },
    }
}

/// Derives a symmetric key from a master passphrase once, and encrypts or
/// decrypts any number of byte payloads under it. The key lives only as
/// long as the manager value.
pub struct CryptoManager {
    key: Vec<u8>,
}

impl View for CryptoManager {
    type V = Seq<u8>;

    closed spec fn view(&self) -> Seq<u8> {
        self.key@
    }
}

impl CryptoManager {
    /// The derived key has the fixed AEAD key length.
    pub open spec fn wf(&self) -> bool {
        self@.len() == KEY_LEN
    }

    /// Derives the session key from the master passphrase with Argon2id over
    /// the fixed vault salt. Fails only if the KDF rejects its parameters,
    /// which no passphrase of realistic length makes it do.
    pub fn new(password: &str) -> (r: Result<CryptoManager, CryptoError>)
        ensures
            r matches Ok(m) ==> m.wf() && m@ == kdf_key(encode_utf8(password@), vault_salt()),
            r matches Err(e) ==> e == CryptoError::KeyDerivation,
            r is Ok <==> encode_utf8(password@).len() <= 0xFFFF_FFFF,
    {
        let salt = salt_bytes();
        match argon2_derive_key(password.as_bytes(), salt.as_slice()) {
            Ok(key) => Ok(CryptoManager { key }),
            Err(()) => Err(CryptoError::KeyDerivation),
        }
    }

    /// Encrypts the plaintext under the session key with the given fresh
    /// nonce, and returns `nonce || ciphertext+tag`. Succeeds for every
    /// plaintext the cipher accepts; the returned blob decrypts back to the
    /// plaintext under the same key.
    pub fn encrypt_with_nonce(&self, nonce: &Vec<u8>, plaintext: &[u8]) -> (r: Result<
        Vec<u8>,
        CryptoError,
    >)
        requires
            self.wf(),
            nonce@.len() == NONCE_LEN,
        ensures
            r matches Ok(blob) ==> {
                &&& blob@.len() == plaintext@.len() + NONCE_LEN + TAG_LEN
                &&& blob@.take(NONCE_LEN as int) == nonce@
                &&& decrypt_spec(self@, blob@) == Ok::<_, CryptoError>(plaintext@)
            },
            r matches Err(e) ==> e == CryptoError::Encryption,
            r is Ok <==> plaintext@.len() <= 0x10_0000_0000,
    {
        match aead_encrypt(self.key.as_slice(), nonce.as_slice(), plaintext) {
            Ok(ct) => {
                let mut blob: Vec<u8> = Vec::new();
                let mut i: usize = 0;
                while i < nonce.len()
                    invariant
                        0 <= i <= nonce.len(),
                        blob@ == nonce@.take(i as int),
                    decreases nonce.len() - i,
                {
                    blob.push(nonce[i]);
                    i += 1;
                    proof {
                        assert(nonce@.take(i as int) =~= nonce@.take(i - 1).push(
                            nonce@[i - 1],
                        ));
                    }
                }
                proof {
                    assert(blob@ =~= nonce@);
                }
                let mut j: usize = 0;
                while j < ct.len()
                    invariant
                        0 <= j <= ct@.len(),
                        blob@ == nonce@ + ct@.take(j as int),
                    decreases ct.len() - j,
                {
                    blob.push(ct[j]);
                    j += 1;
                    proof {
                        assert(nonce@ + ct@.take(j as int) =~= (nonce@ + ct@.take(j - 1)).push(
                            ct@[j - 1],
                        ));
                    }
                }
                proof {
                    assert(blob@ =~= nonce@ + ct@);
                    assert(blob@.take(NONCE_LEN as int) =~= nonce@);
                    assert(blob@.skip(NONCE_LEN as int) =~= ct@);
                }
                Ok(blob)
            },
            Err(()) => Err(CryptoError::Encryption),
        }
    }

    /// Encrypts the plaintext under the session key with a fresh random
    /// 96-bit nonce, and returns `nonce || ciphertext+tag`. Whatever nonce
    /// the random source produced, a returned blob decrypts back to the
    /// plaintext under the same key.
    pub fn encrypt(&self, plaintext: &[u8]) -> (r: Result<Vec<u8>, CryptoError>)
        requires
            self.wf(),
        ensures
            r matches Ok(blob) ==> {
                &&& blob@.len() == plaintext@.len() + NONCE_LEN + TAG_LEN
                &&& decrypt_spec(self@, blob@) == Ok::<_, CryptoError>(plaintext@)
            },
            r matches Err(e) ==> e == CryptoError::Encryption,
    {
        match os_random_bytes(NONCE_LEN) {
            Ok(nonce) => self.encrypt_with_nonce(&nonce, plaintext),
            Err(()) => Err(CryptoError::Encryption),
        }
    }

    /// Decrypts a blob laid out as `nonce || ciphertext+tag`. Yields exactly
    /// what [`decrypt_spec`] says: malformed input for a blob shorter than a
    /// nonce, an authentication failure when the tag does not verify (wrong
    /// passphrase and tampered data alike), and the plaintext otherwise.
    pub fn decrypt(&self, blob: &[u8]) -> (r: Result<Vec<u8>, CryptoError>)
        requires
            self.wf(),
        ensures
            match r {
                Ok(pt) => decrypt_spec(self@, blob@) == Ok::<_, CryptoError>(pt@),
                Err(e) => decrypt_spec(self@, blob@) == Err::<Seq<u8>, _>(e),
            },
    {
        if blob.len() < NONCE_LEN {
            return Err(CryptoError::MalformedInput);
        }
        let nonce = vstd::slice::slice_subrange(blob, 0, NONCE_LEN);
        let ct = vstd::slice::slice_subrange(blob, NONCE_LEN, blob.len());
        match aead_decrypt(self.key.as_slice(), nonce, ct) {
            Ok(pt) => Ok(pt),
            Err(()) => Err(CryptoError::AuthenticationFailure),
        }
    }

    /// Decrypts a blob and then decodes the plaintext as UTF-8 text,
    /// reporting an encoding failure if it is not valid text.
    pub fn decrypt_to_text(&self, blob: &[u8]) -> (r: Result<String, CryptoError>)
        requires
            self.wf(),
        ensures
            match r {
                Ok(s) => decrypt_text_spec(self@, blob@) == Ok::<_, CryptoError>(s@),
                Err(e) => decrypt_text_spec(self@, blob@) == Err::<Seq<char>, _>(e),
            },
    {
        match self.decrypt(blob) {
            Ok(pt) => match crate::text::bytes_to_string(pt) {
                Some(s) => Ok(s),
                None => Err(CryptoError::Encoding),
            },
            Err(e) => Err(e),
        }
    }
}

} // verus!
