//! Error kinds surfaced by the vault. Wrong-passphrase and tampered-data
//! failures are deliberately collapsed into one variant, so a caller cannot
//! tell them apart.

use vstd::prelude::*;

verus! {

/// Failures of the key/cipher manager.
#[derive(Clone, Copy, Debug, PartialEq, Eq, Structural)]
pub enum CryptoError {
    /// The key-derivation function rejected its parameters.
    KeyDerivation,
    /// Authenticated encryption failed (defensive; not expected in normal use).
    Encryption,
    /// The blob is shorter than a nonce, so it cannot be a valid ciphertext.
    MalformedInput,
    /// The authentication tag did not verify: wrong passphrase or tampered
    /// data, indistinguishable by design.
    AuthenticationFailure,
    /// The decrypted bytes are not valid text.
    Encoding,
}

/// Failures of loading the record set from an encrypted blob.
#[derive(Clone, Copy, Debug, PartialEq, Eq, Structural)]
pub enum LoadError {
    /// Decryption failed: wrong passphrase or corrupted file.
    Unauthorized,
    /// The decrypted text does not parse as a record set.
    Corrupt,
}

/// Failures of serializing and encrypting the record set.
#[derive(Clone, Copy, Debug, PartialEq, Eq, Structural)]
pub enum SaveError {
    /// Encryption failed (defensive; not expected in normal use).
    Encryption,
}

} // verus!
