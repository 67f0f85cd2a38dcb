//! Error types of the table-based vault archive format.
use vstd::prelude::*;
use vstd::std_specs::convert::FromSpecImpl;
use crate::vault::entry::{decimal, decimal_string};

verus! {

/// The error value of the `aead` crate (re-exported by `aes_gcm`); it carries no data.
#[verifier::external_type_specification]
#[verifier::external_body]
pub struct ExAeadError(aes_gcm::Error);

/// An I/O error of the standard library.
#[verifier::external_type_specification]
#[verifier::external_body]
pub struct ExIoError(std::io::Error);

/// The error of `String::from_utf8`.
#[verifier::external_type_specification]
#[verifier::external_body]
pub struct ExFromUtf8Error(std::string::FromUtf8Error);

/// The error of a formatting operation of the standard library.
#[verifier::external_type_specification]
#[verifier::external_body]
pub struct ExFmtError(std::fmt::Error);

/// Errors of the encryption and decryption routines
pub enum CryptographyError {
    /// The authentication tag of a ciphertext did not verify (or encryption was refused)
    InauthenticTag,
    /// Decrypted data did not have the expected length
    InvalidLength { expected: usize, actual: usize },
    /// An error reported by the cipher implementation
    InternalError(aes_gcm::Error),
}

/// Errors raised while reading a vault archive file
pub enum ReadVaultFileError {
    ReadFileError(std::io::Error),
    /// A field could not be read; the offset of the field, where known
    ReadEntryError(ReadFieldError, Option<u64>),
    InvalidFile(InvalidFileReasons),
    ReadStdinError(std::io::Error),
    InAuthenticTagError(),
    InvalidLengthError(),
    InternalError(String),
}

/// Why a file is not a valid vault archive
pub enum InvalidFileReasons {
    InvalidSignature,
    UnsupportedVersion,
    NoRootEntry,
    InvalidVaultStructure,
    InvalidEntryType,
}

/// Errors raised while reading a single field
pub enum ReadFieldError {
    ReadFileError(std::io::Error),
    ReadUtf8Error(std::string::FromUtf8Error),
    UnexpectedEOFError(),
}

/// Errors of vault operations
pub enum VaultError {
    WriteError,
    WriteStdoutError,
    EntryNotFound(String),
    ReadVaultError(ReadVaultFileError),
    InvalidOperation(OperationType, VaultEntryType),
    InvalidLengthError(),
    DuplicateEntryError(String),
    CryptographyError(CryptographyError),
}

/// The operation that was attempted on an entry
#[derive(PartialEq, Eq, Structural, Clone, Copy, Debug)]
pub enum OperationType {
    Rename,
    ChangePassword,
    ChangeSecret,
    NewEntry,
    RetrieveSecret,
}

/// The kind of a vault entry
#[derive(PartialEq, Eq, Structural, Clone, Copy, Debug)]
pub enum VaultEntryType {
    Password,
    Secret,
    Directory,
}

/// Errors of block region management
#[derive(PartialEq, Eq, Structural, Clone, Copy, Debug)]
pub enum InvalidBlockRegionError {
    Overlap,
}

impl CryptographyError {
    /// A message that describes the error
    pub fn message(&self) -> (r: String)
        ensures
            r@ == match self {
                CryptographyError::InauthenticTag => "Authentication tag corrupted"@,
                CryptographyError::InvalidLength { expected, actual } => "Mismatch when converting data: expected "@
                    + decimal(*expected as nat) + " but got "@ + decimal(*actual as nat),
                CryptographyError::InternalError(_) => "Internal cipher error"@,
            },
    {
        match self {
            CryptographyError::InauthenticTag => String::from_str("Authentication tag corrupted"),
            CryptographyError::InvalidLength { expected, actual } => {
                let mut s = String::from_str("Mismatch when converting data: expected ");
                let e = decimal_string(*expected);
                s.append(e.as_str());
                s.append(" but got ");
                let a = decimal_string(*actual);
                s.append(a.as_str());
                s
            },
            CryptographyError::InternalError(_) => String::from_str("Internal cipher error"),
        }
    }
}

impl From<std::io::Error> for ReadVaultFileError {
    fn from(value: std::io::Error) -> (r: Self) {
        ReadVaultFileError::ReadFileError(value)
    }
}

impl FromSpecImpl<std::io::Error> for ReadVaultFileError {
    open spec fn obeys_from_spec() -> bool {
        true
    }

    open spec fn from_spec(value: std::io::Error) -> Self {
        ReadVaultFileError::ReadFileError(value)
    }
}

impl From<CryptographyError> for VaultError {
    fn from(value: CryptographyError) -> (r: Self) {
        VaultError::CryptographyError(value)
    }
}

impl FromSpecImpl<CryptographyError> for VaultError {
    open spec fn obeys_from_spec() -> bool {
        true
    }

    open spec fn from_spec(value: CryptographyError) -> Self {
        VaultError::CryptographyError(value)
    }
}

impl From<ReadVaultFileError> for VaultError {
    fn from(value: ReadVaultFileError) -> (r: Self) {
        VaultError::ReadVaultError(value)
    }
}

impl FromSpecImpl<ReadVaultFileError> for VaultError {
    open spec fn obeys_from_spec() -> bool {
        true
    }

    open spec fn from_spec(value: ReadVaultFileError) -> Self {
        VaultError::ReadVaultError(value)
    }
}

} // verus!
