//! A password vault: an encrypted archive of passwords, secret files and directories.
pub mod crypt;
pub mod error;
pub mod hmac;
pub mod vault;
