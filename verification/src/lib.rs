//! An encrypted credential vault: a master passphrase is stretched into a
//! 256-bit key, and an ordered set of service/username/password records is
//! kept at rest as one authenticated-encrypted blob. The record set is
//! serialized by a verified, losslessly round-tripping codec before
//! encryption. Small verified utilities (a task list and an even-number
//! formatter) live alongside the vault.

pub mod codec;
pub mod crypto;
pub mod errors;
pub mod evens;
pub mod models;
pub mod store;
pub mod tasks;
pub mod text;
