//! Error types of the block-based vault archive format.
use vstd::prelude::*;
use crate::error::CryptographyError;
use crate::vault::utils::VaultPath;

verus! {

/// The error type of `memsecurity`.
#[verifier::external_type_specification]
#[verifier::external_body]
pub struct ExMemSecurityErr(memsecurity::MemSecurityErr);

/// A string that is not a vault path
pub struct InvalidVaultPathError {
    pub path: String,
}

/// Errors of reading the vault file
pub enum VaultFileError {
    /// FileIO error in Vaultfile interaction
    File(std::io::Error),
    /// Block at this position does not exist
    InvalidBlockPosition(u64),
    /// Encountered Unexpected EOF during read operation
    UnexpectedEOF,
    /// Vaultfile is busy
    VaultBusy,
    /// The read position could not be reached
    SeekFileError(SeekFileError),
}

/// Errors of moving to a block of the vault file
pub enum SeekFileError {
    FileError(std::io::Error),
    BlockNotFound(u64),
}

/// Errors of changing the vault file
pub enum FileChangeError {
    FileError(std::io::Error),
    SeekFileError(SeekFileError),
}

/// Header fields that are not acceptable
pub enum InvalidHeaderData {
    /// The version of the schlosser vault format is not supported
    UnsupportedVersion(u8),
    /// This vault file is not a vault file or the signature is corrupted
    InvalidSignature,
}

/// Why a file is not a vault archive
#[derive(PartialEq, Eq, Structural, Clone, Copy, Debug)]
pub enum InvalidFileReasons {
    WrongSignature,
    UnsupportedVersion,
}

/// Errors of reading the archive header
pub enum ReadHeaderError {
    FileError(std::io::Error),
    UnexpectedEOF,
    InvalidFileError(InvalidFileReasons),
    UTF8Error(std::string::FromUtf8Error),
}

/// Errors of recovering the vault key
pub enum RetrieveKeyError {
    /// Could not read password from stdin
    StdinError(std::io::Error),
    /// Could not decrypt vault key
    DecryptError(CryptographyError),
}

/// Errors of recovering the vault key (password reading or decryption)
pub enum RetrieveVaultKeyError {
    /// Could not read password from stdin
    ReadPwd(std::io::Error),
    /// Could not decrypt vault key
    Decrypt(CryptographyError),
}

/// Errors of the archive header
pub enum HeaderError {
    /// Header has incorrect data
    InvalidHeaderData(InvalidHeaderData),
    /// Cryptography Error while encrypting header-key information
    InitHeader(CryptographyError),
    /// Could not retrieve vault key
    RetrieveVaultKey(RetrieveVaultKeyError),
}


/// A name longer than a name field holds
pub struct NameLengthExceededError {
    pub len: usize,
}

/// Errors of decoding an entry block
pub enum BuildEntryError {
    CryptographyError(CryptographyError),
    /// The name is not UTF-8; the offset of the name field
    UTF8Error(std::string::FromUtf8Error, u64),
}

/// Errors of rebuilding the vault tree from the vault file
pub enum BuildVaultError {
    VaultFileError(VaultFileError),
    InvalidEntryType,
    BuildEntryError(BuildEntryError),
    /// The entries link to more entry blocks than the vault file holds (a cycle)
    InvalidVaultStructure,
    /// An entry holds a block id beyond the largest one, or a secret file of no blocks
    InvalidBlockIds,
}

/// Errors of encoding an entry block
pub enum SerializationError {
    EncryptError(CryptographyError),
    InvalidLength,
}

/// Errors of entry lookups
pub enum VaultError {
    EntryNotFound(VaultPath),
    NameError(NameLengthExceededError),
    DuplicateEntry(String),
}

/// Errors of changing the vault
pub enum VaultChangeError {
    ExceededNameLength(NameLengthExceededError),
    InputTooLarge,
    FileChangeError(FileChangeError),
    SerializeError(SerializationError),
    CryptographyError(CryptographyError),
    FileError(std::io::Error),
    VaultError(VaultError),
}

/// Errors of renaming an entry
pub enum RenameError {
    NameError(NameLengthExceededError),
    SerializationError(SerializationError),
}

/// Errors of reading the secret of an entry
pub enum RetrieveSecretError {
    VaultFileError(VaultFileError),
    DecryptError(CryptographyError),
    UTF8Error(std::string::FromUtf8Error),
}

/// The operation that was attempted on an entry
#[derive(PartialEq, Eq, Structural, Clone, Copy, Debug)]
pub enum Operation {
    Rename,
    ChangePassword,
    ChangeSecret,
    NewEntry,
    RetrieveSecret,
}

/// The kind of a vault entry
#[derive(PartialEq, Eq, Structural, Clone, Copy, Debug)]
pub enum EntryType {
    Password,
    Secret,
    Directory,
}

/// Errors of retrieving the secret of an entry
pub enum RetrieveEntryError {
    Secret(RetrieveSecretError),
    InvalidOperation(Operation, EntryType),
    InvalidVaultPath(InvalidVaultPathError),
    GetEntryError(VaultError),
    RetrieveKeyError(memsecurity::MemSecurityErr),
}

/// Errors of taking hold of the vault file
pub enum VaultLockError {
    FileError(std::io::Error),
    VaultBusy,
}

/// Errors of opening a vault: reading its header, retrieving its key, rebuilding its tree
pub enum InitVaultContextError {
    VaultLockError(VaultLockError),
    ReadHeaderError(ReadHeaderError),
    RetrieveKeyError(RetrieveKeyError),
    BuildVaultError(BuildVaultError),
    EncryptedMemError(memsecurity::MemSecurityErr),
}

/// Errors of changing the secret of an entry of a vault
pub enum VaultChangeEntryError {
    InvalidVaultPath(InvalidVaultPathError),
    GetEntryError(VaultError),
    RetrieveKeyError(memsecurity::MemSecurityErr),
    VaultChangeError(VaultChangeError),
    InvalidOperation(Operation, EntryType),
}

/// Errors of renaming an entry of a vault
pub enum RenameEntryError {
    InvalidVaultPath(InvalidVaultPathError),
    RetrieveKeyError(memsecurity::MemSecurityErr),
    VaultError(VaultChangeError),
}

/// Errors of deleting an entry of a vault
pub enum DeleteEntryError {
    InvalidVaultPath(InvalidVaultPathError),
    RetrieveKeyError(memsecurity::MemSecurityErr),
    VaultError(VaultChangeError),
}

/// Errors of adding an entry to a vault
pub enum NewEntryError {
    InvalidVaultPath(InvalidVaultPathError),
    RetrieveKeyError(memsecurity::MemSecurityErr),
    VaultChangeError(VaultChangeError),
    VaultError(VaultError),
}

} // verus!
