//! Vault entries (passwords, secret files, directories) and their encrypted entry blocks.
pub mod chain;
pub mod order;
pub mod rewrite;
pub mod overview;
pub mod lines;
pub mod names;
pub mod tree;
pub mod unlink;

use vstd::prelude::*;
use vstd::string::*;
use vstd::utf8::{decode_utf8, encode_utf8, valid_utf8};
use crate::crypt::{
    aes256gcm_seal, decrypt_region, encrypt_region, spec_decrypt, AES_MAX_PLAINTEXT,
    AES_NONCE_LENGTH, AES_TAG_LENGTH, KEY_LENGTH,
};
use crate::error::CryptographyError;
use crate::vault::codec::{
    write_at, array_at, be8, copy_range, from_be8, get_u64, lemma_be8_roundtrip, lemma_i64_roundtrip,
    name_buffer, name_field, pad_to, padded, put_slice, put_u64, put_zeros, string_from_utf8,
    trim_trailing_zeros, trim_zeros, zeros,
};
use crate::crypt::{decrypt_region_dyn, EncryptedData};
use crate::vault::error::{
    BuildEntryError, EntryType, FileChangeError, NameLengthExceededError, Operation, RenameError,
    RetrieveEntryError, RetrieveSecretError, SerializationError, VaultChangeError, VaultFileError,
};
use crate::vault::manager::{
    NEXT_OFFSET, DATABLOCK_LENGTH, DATABLOCK_RAW_LENGTH, VAULTNAME_LENGTH, DIRENTRY_TYPE, PASSWORDENTRY_TYPE, SECRETENTRY_TYPE, VAULTENTRYNAME_LENGTH,
};
use crate::vault::utils::{
    lemma_same_outside_larger, lemma_same_outside_refl, lemma_same_outside_union, lemma_written_inside_range, same_outside,
    alloc_start, block_offset, fits, block_written, occupy_ranges, BlockRange, BlockSet, DataBlockEntry,
    VaultContext, ENTRY_ENC_LENGTH, MAX_BLOCK_ID,
};

verus! {

/// Length of the encrypted fields of a password entry: name, password block, its nonce
pub const PWDENTRY_ENC_LENGTH: usize = 148;
/// Length of the encrypted fields of a secret file entry: name, start, size, nonce
pub const SECENTRY_ENC_LENGTH: usize = 156;
/// Length of the encrypted fields of a directory entry: name, first child
pub const DIRENTRY_ENC_LENGTH: usize = 136;

/// The bytes of an entry block: type, next, nonce, the encrypted fields (with tag), zero padding.
pub open spec fn entry_block_bytes(entry_type: u8, next: i64, nonce: Seq<u8>, ct: Seq<u8>) -> Seq<u8> {
    seq![entry_type] + be8(next as u64) + nonce + ct + zeros((DATABLOCK_LENGTH - 21 - ct.len()) as nat)
}

/// Encrypt the fields of an entry and lay out its entry block.
fn seal_entry_block(entry_type: u8, next: i64, plain: &[u8], key: &[u8]) -> (r: Result<
    [u8; DATABLOCK_LENGTH],
    SerializationError,
>)
    requires
        key@.len() == KEY_LENGTH,
        plain@.len() + AES_TAG_LENGTH + 21 <= DATABLOCK_LENGTH,
    ensures
        r matches Ok(b) && b@ == entry_block_bytes(
            entry_type,
            next,
            b@.subrange(9, 21),
            aes256gcm_seal(key@, b@.subrange(9, 21), plain@),
        ) && spec_decrypt(key@, b@.subrange(9, 21), aes256gcm_seal(key@, b@.subrange(9, 21), plain@))
            == Ok::<Seq<u8>, ()>(plain@) && aes256gcm_seal(key@, b@.subrange(9, 21), plain@).len()
            == plain@.len() + AES_TAG_LENGTH,
{
    let enc = match encrypt_region(plain, key) {
        Ok(e) => e,
        Err(e) => {
            assert(false);
            return Err(SerializationError::EncryptError(e));
        },
    };
    let mut entry: Vec<u8> = Vec::new();
    entry.push(entry_type);
    put_u64(&mut entry, next as u64);
    put_slice(&mut entry, &enc.nonce);
    put_slice(&mut entry, enc.data.as_slice());
    let pad = DATABLOCK_LENGTH - entry.len();
    put_zeros(&mut entry, pad);
    let arr = array_at::<DATABLOCK_LENGTH>(entry.as_slice(), 0);
    proof {
        assert(entry@ =~= entry_block_bytes(entry_type, next, enc.nonce@, enc.data@));
        assert(arr@.subrange(9, 21) =~= enc.nonce@);
        assert(arr@ =~= entry@);
    }
    Ok(arr)
}

/// Decrypt the first `len` bytes (plus tag) of the encrypted part of an entry block.
fn open_entry_block(data: &DataBlockEntry, key: &[u8], len: usize) -> (r: Result<Vec<u8>, BuildEntryError>)
    requires
        key@.len() == KEY_LENGTH,
        len + AES_TAG_LENGTH <= ENTRY_ENC_LENGTH,
    ensures
        match spec_decrypt(key@, data.nonce@, data.data@.subrange(0, len + AES_TAG_LENGTH)) {
            Ok(p) => r matches Ok(v) && v@ == p && p.len() == len,
            Err(_) => r matches Err(BuildEntryError::CryptographyError(CryptographyError::InauthenticTag)),
        },
{
    let ct = copy_range(&data.data, 0, len + AES_TAG_LENGTH);
    match decrypt_region(ct.as_slice(), &data.nonce, key, len) {
        Ok(p) => Ok(p),
        Err(e) => Err(BuildEntryError::CryptographyError(e)),
    }
}

/// Whether a name field holds UTF-8 text.
pub open spec fn name_wf(name: Seq<u8>) -> bool {
    name.len() == VAULTENTRYNAME_LENGTH && valid_utf8(name)
}

/// What a password entry holds
pub struct PasswordView {
    pub name: Seq<u8>,
    pub block: u64,
    pub next: i64,
    pub pwd_block: u64,
    pub pwd_block_nonce: Seq<u8>,
}

/// The encrypted fields of a password entry: name, password block (big-endian), its nonce.
pub open spec fn password_plain(e: PasswordView) -> Seq<u8> {
    e.name + be8(e.pwd_block) + e.pwd_block_nonce
}

/// The password entry that an entry block decodes to, if it decrypts and its name is UTF-8.
pub open spec fn spec_build_password(nonce: Seq<u8>, data: Seq<u8>, next: i64, key: Seq<u8>, block: u64) -> Option<
    PasswordView,
> {
    match spec_decrypt(key, nonce, data.subrange(0, PWDENTRY_ENC_LENGTH + AES_TAG_LENGTH)) {
        Ok(p) => if valid_utf8(p.subrange(0, 128)) {
            Some(
                PasswordView {
                    name: p.subrange(0, 128),
                    block,
                    next,
                    pwd_block: from_be8(p.subrange(128, 136)),
                    pwd_block_nonce: p.subrange(136, 148),
                },
            )
        } else {
            None
        },
        Err(_) => None,
    }
}

/// Entry that holds a password
/// The entry follows the following structure in the file (differs from in memory significantly):
/// Type - The type of the entry (u8)
/// Next - index of the next directory entry block (i64)
/// Nonce - The nonce for the entry block ([u8, 12])
/// Name - Name of the entry ([u8, 128])
/// block - Block Id of the password block (u64)
/// block_nonce - Nonce of the password block ([u8, 12])
/// auth tag - Authentication tag of the encrypted fields (everything is encrypted except type,
/// next and nonce) ([u8; 16])
#[derive(Debug)]
pub struct PasswordEntry {
    /// Name of the password
    name: [u8; VAULTENTRYNAME_LENGTH],
    /// The block id of the entry
    block: u64,
    /// Index of the next directory entry block in directory (-1 if end of directory)
    next: i64,
    /// Id of the password block
    pwd_block: u64,
    /// Nonce used for decryption of the datablock
    pwd_block_nonce: [u8; AES_NONCE_LENGTH],
}

impl View for PasswordEntry {
    type V = PasswordView;

    closed spec fn view(&self) -> PasswordView {
        PasswordView {
            name: self.name@,
            block: self.block,
            next: self.next,
            pwd_block: self.pwd_block,
            pwd_block_nonce: self.pwd_block_nonce@,
        }
    }
}

impl PasswordEntry {
    #[verifier::type_invariant]
    spec fn inv(self) -> bool {
        valid_utf8(self.name@)
    }

    /// The name of a password entry is UTF-8 text of the name field's length.
    pub fn name_is_wf(&self) -> (r: bool)
        ensures
            r,
            name_wf(self@.name),
            self@.pwd_block_nonce.len() == AES_NONCE_LENGTH,
    {
        proof {
            use_type_invariant(self);
        }
        true
    }

    /// Serializes the entry into an array that fits inside a datablock
    pub fn serialize(&self, key: &[u8]) -> (r: Result<[u8; DATABLOCK_LENGTH], SerializationError>)
        requires
            key@.len() == KEY_LENGTH,
        ensures
            r matches Ok(b) && b@ == entry_block_bytes(
                PASSWORDENTRY_TYPE,
                self@.next,
                b@.subrange(9, 21),
                aes256gcm_seal(key@, b@.subrange(9, 21), password_plain(self@)),
            ) && spec_decrypt(
                key@,
                b@.subrange(9, 21),
                aes256gcm_seal(key@, b@.subrange(9, 21), password_plain(self@)),
            ) == Ok::<Seq<u8>, ()>(password_plain(self@)) && aes256gcm_seal(
                key@,
                b@.subrange(9, 21),
                password_plain(self@),
            ).len() == PWDENTRY_ENC_LENGTH + AES_TAG_LENGTH,
    {
        let mut enc_section: Vec<u8> = Vec::new();
        put_slice(&mut enc_section, &self.name);
        put_u64(&mut enc_section, self.pwd_block);
        put_slice(&mut enc_section, &self.pwd_block_nonce);
        assert(enc_section@ =~= password_plain(self@));
        seal_entry_block(PASSWORDENTRY_TYPE, self.next, enc_section.as_slice(), key)
    }

    /// Decode a password entry from its entry block
    pub fn build_entry(data: DataBlockEntry, key: &[u8], entry_block: u64) -> (r: Result<Self, BuildEntryError>)
        requires
            key@.len() == KEY_LENGTH,
        ensures
            r is Ok <==> spec_build_password(data.nonce@, data.data@, data.next, key@, entry_block) is Some,
            r matches Ok(e) ==> Some(e@) == spec_build_password(data.nonce@, data.data@, data.next, key@, entry_block),
            spec_decrypt(key@, data.nonce@, data.data@.subrange(0, PWDENTRY_ENC_LENGTH + AES_TAG_LENGTH)) is Err
                ==> r matches Err(BuildEntryError::CryptographyError(CryptographyError::InauthenticTag)),
            spec_decrypt(key@, data.nonce@, data.data@.subrange(0, PWDENTRY_ENC_LENGTH + AES_TAG_LENGTH)) is Ok
                && r is Err ==> (r matches Err(BuildEntryError::UTF8Error(_, off)) && off == 0),
    {
        let entry_data = match open_entry_block(&data, key, PWDENTRY_ENC_LENGTH) {
            Ok(p) => p,
            Err(e) => return Err(e),
        };
        let mut offset: usize = 0;
        // check if name is valid utf8
        let name = array_at::<VAULTENTRYNAME_LENGTH>(entry_data.as_slice(), offset);
        let mut name_vec: Vec<u8> = Vec::new();
        put_slice(&mut name_vec, &name);
        if let Err(e) = string_from_utf8(name_vec) {
            return Err(BuildEntryError::UTF8Error(e, offset as u64));
        }
        offset += VAULTENTRYNAME_LENGTH;
        let pwd_blk_id = get_u64(entry_data.as_slice(), offset);
        offset += 8;
        let pwd_nonce = array_at::<AES_NONCE_LENGTH>(entry_data.as_slice(), offset);
        Ok(
            PasswordEntry {
                name,
                block: entry_block,
                next: data.next,
                pwd_block: pwd_blk_id,
                pwd_block_nonce: pwd_nonce,
            },
        )
    }

    /// The block id of the entry
    pub fn entry_datablock(&self) -> (r: u64)
        ensures
            r == self@.block,
    {
        self.block
    }

    /// The block of the next entry in the directory (-1 if there is none)
    pub fn get_next(&self) -> (r: i64)
        ensures
            r == self@.next,
    {
        self.next
    }
}

/// An entry block that a password entry was serialized to decodes back to that entry.
pub proof fn lemma_password_roundtrip(e: PasswordView, key: Seq<u8>, bytes: Seq<u8>, d: DataBlockEntry)
    requires
        name_wf(e.name),
        e.pwd_block_nonce.len() == AES_NONCE_LENGTH,
        bytes.len() == DATABLOCK_LENGTH,
        bytes == entry_block_bytes(
            PASSWORDENTRY_TYPE,
            e.next,
            bytes.subrange(9, 21),
            aes256gcm_seal(key, bytes.subrange(9, 21), password_plain(e)),
        ),
        spec_decrypt(key, bytes.subrange(9, 21), aes256gcm_seal(key, bytes.subrange(9, 21), password_plain(e)))
            == Ok::<Seq<u8>, ()>(password_plain(e)),
        aes256gcm_seal(key, bytes.subrange(9, 21), password_plain(e)).len() == PWDENTRY_ENC_LENGTH
            + AES_TAG_LENGTH,
        crate::vault::utils::entry_block_matches(d, bytes),
    ensures
        d.entry_type == PASSWORDENTRY_TYPE,
        spec_build_password(d.nonce@, d.data@, d.next, key, e.block) == Some(e),
{
    let n = bytes.subrange(9, 21);
    let plain = password_plain(e);
    let ct = aes256gcm_seal(key, n, plain);
    lemma_be8_roundtrip(e.next as u64);
    lemma_i64_roundtrip(e.next);
    lemma_be8_roundtrip(e.pwd_block);
    assert(bytes.subrange(1, 9) =~= be8(e.next as u64));
    assert(d.data@.subrange(0, PWDENTRY_ENC_LENGTH + AES_TAG_LENGTH) =~= ct);
    assert(plain.subrange(0, 128) =~= e.name);
    assert(plain.subrange(128, 136) =~= be8(e.pwd_block));
    assert(plain.subrange(136, 148) =~= e.pwd_block_nonce);
}

/// What a secret file entry holds
pub struct SecretView {
    pub block: u64,
    pub name: Seq<u8>,
    pub next: i64,
    pub start: u64,
    pub size: u64,
    pub nonce: Seq<u8>,
}

/// The encrypted fields of a secret file entry: name, start, size (big-endian), nonce.
pub open spec fn secret_plain(e: SecretView) -> Seq<u8> {
    e.name + be8(e.start) + be8(e.size) + e.nonce
}

/// The secret file entry that an entry block decodes to, if it decrypts and its name is UTF-8.
pub open spec fn spec_build_secret(nonce: Seq<u8>, data: Seq<u8>, next: i64, key: Seq<u8>, block: u64) -> Option<
    SecretView,
> {
    match spec_decrypt(key, nonce, data.subrange(0, SECENTRY_ENC_LENGTH + AES_TAG_LENGTH)) {
        Ok(p) => if valid_utf8(p.subrange(0, 128)) {
            Some(
                SecretView {
                    name: p.subrange(0, 128),
                    block,
                    next,
                    start: from_be8(p.subrange(128, 136)),
                    size: from_be8(p.subrange(136, 144)),
                    nonce: p.subrange(144, 156),
                },
            )
        } else {
            None
        },
        Err(_) => None,
    }
}

/// Entry for an encrypted Secret File (like a recovery key or a keyfile, or any other kind of file
/// that needs to be kept secure)
/// Structure of the SecretFileEntry in the vault archive file
/// Type - Type of entry (u8)
/// Next - Next block in directory order (i64)
/// Nonce - Nonce used for encryption of the block entry ([u8; 12])
/// Name - Name of the entry ([u8; 128])
/// SecretStart - Block Id of the starting block (u64)
/// SecretSize - Nr of Blocks that belong to the block (u64)
/// SecretNonce - Nonce for the block encryption ([u8; 12])
/// auth tag - Authentication tag of the encrypted fields (everything is encrypted except type,
/// next and nonce)
///
/// The secret block is a continuous block in memory that is encrypted in its entirety
#[derive(Debug)]
pub struct SecretFileEntry {
    /// Id of the block containing the entry
    block: u64,
    /// Name of the secret
    name: [u8; VAULTENTRYNAME_LENGTH],
    /// Id of the next directory entry block in the directory
    next: i64,
    /// Block Id of the starting block
    start: u64,
    /// Nr of blocks that make up the secret
    size: u64,
    /// Nonce used for encryption of the block
    nonce: [u8; AES_NONCE_LENGTH],
}

impl View for SecretFileEntry {
    type V = SecretView;

    closed spec fn view(&self) -> SecretView {
        SecretView {
            block: self.block,
            name: self.name@,
            next: self.next,
            start: self.start,
            size: self.size,
            nonce: self.nonce@,
        }
    }
}

impl SecretFileEntry {
    #[verifier::type_invariant]
    spec fn inv(self) -> bool {
        valid_utf8(self.name@)
    }

    /// The name of a secret file entry is UTF-8 text of the name field's length.
    pub fn name_is_wf(&self) -> (r: bool)
        ensures
            r,
            name_wf(self@.name),
            self@.nonce.len() == AES_NONCE_LENGTH,
    {
        proof {
            use_type_invariant(self);
        }
        true
    }

    /// Serializes the entry into an array that fits inside a datablock
    pub fn serialize(&self, key: &[u8]) -> (r: Result<[u8; DATABLOCK_LENGTH], SerializationError>)
        requires
            key@.len() == KEY_LENGTH,
        ensures
            r matches Ok(b) && b@ == entry_block_bytes(
                SECRETENTRY_TYPE,
                self@.next,
                b@.subrange(9, 21),
                aes256gcm_seal(key@, b@.subrange(9, 21), secret_plain(self@)),
            ) && spec_decrypt(
                key@,
                b@.subrange(9, 21),
                aes256gcm_seal(key@, b@.subrange(9, 21), secret_plain(self@)),
            ) == Ok::<Seq<u8>, ()>(secret_plain(self@)) && aes256gcm_seal(
                key@,
                b@.subrange(9, 21),
                secret_plain(self@),
            ).len() == SECENTRY_ENC_LENGTH + AES_TAG_LENGTH,
    {
        let mut enc_bytes: Vec<u8> = Vec::new();
        put_slice(&mut enc_bytes, &self.name);
        put_u64(&mut enc_bytes, self.start);
        put_u64(&mut enc_bytes, self.size);
        put_slice(&mut enc_bytes, &self.nonce);
        assert(enc_bytes@ =~= secret_plain(self@));
        seal_entry_block(SECRETENTRY_TYPE, self.next, enc_bytes.as_slice(), key)
    }

    /// Decode a secret file entry from its entry block
    pub fn build_entry(data: DataBlockEntry, key: &[u8], entry_block: u64) -> (r: Result<Self, BuildEntryError>)
        requires
            key@.len() == KEY_LENGTH,
        ensures
            r is Ok <==> spec_build_secret(data.nonce@, data.data@, data.next, key@, entry_block) is Some,
            r matches Ok(e) ==> Some(e@) == spec_build_secret(data.nonce@, data.data@, data.next, key@, entry_block),
            spec_decrypt(key@, data.nonce@, data.data@.subrange(0, SECENTRY_ENC_LENGTH + AES_TAG_LENGTH)) is Err
                ==> r matches Err(BuildEntryError::CryptographyError(CryptographyError::InauthenticTag)),
            spec_decrypt(key@, data.nonce@, data.data@.subrange(0, SECENTRY_ENC_LENGTH + AES_TAG_LENGTH)) is Ok
                && r is Err ==> (r matches Err(BuildEntryError::UTF8Error(_, off)) && off == 0),
    {
        let entry = match open_entry_block(&data, key, SECENTRY_ENC_LENGTH) {
            Ok(p) => p,
            Err(e) => return Err(e),
        };
        let mut offset: usize = 0;
        // make sure it is valid utf8
        let name = array_at::<VAULTENTRYNAME_LENGTH>(entry.as_slice(), offset);
        let mut name_vec: Vec<u8> = Vec::new();
        put_slice(&mut name_vec, &name);
        if let Err(e) = string_from_utf8(name_vec) {
            return Err(BuildEntryError::UTF8Error(e, offset as u64));
        }
        offset += VAULTENTRYNAME_LENGTH;
        let start_blk = get_u64(entry.as_slice(), offset);
        offset += 8;
        let blk_size = get_u64(entry.as_slice(), offset);
        offset += 8;
        let nonce_buf = array_at::<AES_NONCE_LENGTH>(entry.as_slice(), offset);
        Ok(
            SecretFileEntry {
                name,
                block: entry_block,
                next: data.next,
                start: start_blk,
                size: blk_size,
                nonce: nonce_buf,
            },
        )
    }

    /// The block id of the entry
    pub fn entry_datablock(&self) -> (r: u64)
        ensures
            r == self@.block,
    {
        self.block
    }

    /// The block of the next entry in the directory (-1 if there is none)
    pub fn get_next(&self) -> (r: i64)
        ensures
            r == self@.next,
    {
        self.next
    }
}

/// An entry block that a secret file entry was serialized to decodes back to that entry.
pub proof fn lemma_secret_roundtrip(e: SecretView, key: Seq<u8>, bytes: Seq<u8>, d: DataBlockEntry)
    requires
        name_wf(e.name),
        e.nonce.len() == AES_NONCE_LENGTH,
        bytes.len() == DATABLOCK_LENGTH,
        bytes == entry_block_bytes(
            SECRETENTRY_TYPE,
            e.next,
            bytes.subrange(9, 21),
            aes256gcm_seal(key, bytes.subrange(9, 21), secret_plain(e)),
        ),
        spec_decrypt(key, bytes.subrange(9, 21), aes256gcm_seal(key, bytes.subrange(9, 21), secret_plain(e)))
            == Ok::<Seq<u8>, ()>(secret_plain(e)),
        aes256gcm_seal(key, bytes.subrange(9, 21), secret_plain(e)).len() == SECENTRY_ENC_LENGTH
            + AES_TAG_LENGTH,
        crate::vault::utils::entry_block_matches(d, bytes),
    ensures
        d.entry_type == SECRETENTRY_TYPE,
        spec_build_secret(d.nonce@, d.data@, d.next, key, e.block) == Some(e),
{
    let n = bytes.subrange(9, 21);
    let plain = secret_plain(e);
    let ct = aes256gcm_seal(key, n, plain);
    lemma_be8_roundtrip(e.next as u64);
    lemma_i64_roundtrip(e.next);
    lemma_be8_roundtrip(e.start);
    lemma_be8_roundtrip(e.size);
    assert(bytes.subrange(1, 9) =~= be8(e.next as u64));
    assert(d.data@.subrange(0, SECENTRY_ENC_LENGTH + AES_TAG_LENGTH) =~= ct);
    assert(plain.subrange(0, 128) =~= e.name);
    assert(plain.subrange(128, 136) =~= be8(e.start));
    assert(plain.subrange(136, 144) =~= be8(e.size));
    assert(plain.subrange(144, 156) =~= e.nonce);
}

/// What a directory entry holds, with its children
pub struct DirectoryView {
    pub name: Seq<u8>,
    pub block: u64,
    pub next: i64,
    pub first_child: i64,
    pub children: Seq<VaultEntryView>,
}

/// What a vault entry holds
pub enum VaultEntryView {
    Password(PasswordView),
    Secret(SecretView),
    Directory(DirectoryView),
}

impl VaultEntryView {
    /// The name field of the entry
    pub open spec fn name(self) -> Seq<u8> {
        match self {
            VaultEntryView::Password(p) => p.name,
            VaultEntryView::Secret(s) => s.name,
            VaultEntryView::Directory(d) => d.name,
        }
    }

    /// The block holding the entry
    pub open spec fn block(self) -> u64 {
        match self {
            VaultEntryView::Password(p) => p.block,
            VaultEntryView::Secret(s) => s.block,
            VaultEntryView::Directory(d) => d.block,
        }
    }

    /// The block of the next entry in the directory
    pub open spec fn next(self) -> i64 {
        match self {
            VaultEntryView::Password(p) => p.next,
            VaultEntryView::Secret(s) => s.next,
            VaultEntryView::Directory(d) => d.next,
        }
    }
}

/// The encrypted fields of a directory entry: name, first child (big-endian).
pub open spec fn directory_plain(e: DirectoryView) -> Seq<u8> {
    e.name + be8(e.first_child as u64)
}

/// The (childless) directory entry that an entry block decodes to, if it decrypts and its name
/// is UTF-8.
pub open spec fn spec_build_directory(nonce: Seq<u8>, data: Seq<u8>, next: i64, key: Seq<u8>, block: u64) -> Option<
    DirectoryView,
> {
    match spec_decrypt(key, nonce, data.subrange(0, DIRENTRY_ENC_LENGTH + AES_TAG_LENGTH)) {
        Ok(p) => if valid_utf8(p.subrange(0, 128)) {
            Some(
                DirectoryView {
                    name: p.subrange(0, 128),
                    block,
                    next,
                    first_child: from_be8(p.subrange(128, 136)) as i64,
                    children: Seq::empty(),
                },
            )
        } else {
            None
        },
        Err(_) => None,
    }
}

/// Entry that represents a directory in the vault structure
/// Structure in vault archive:
/// Type - Type of the entry (u8)
/// Next - next entry in directory order (i64)
/// Nonce - Nonce for the entry encryption ([u8; 12])
/// Name - Name of the directory ([u8; 128])
/// child - First Child Block (i64)
/// auth_tag - Authentication tag for the encryption ([u8; 16])
///
/// The directory holds the entries as its children in a vector, in directory order
#[derive(Debug)]
pub struct DirectoryEntry {
    /// Name of the directory
    pub(crate) name: [u8; VAULTENTRYNAME_LENGTH],
    /// Block the entry resides in
    block: u64,
    /// Block of the next entry
    next: i64,
    /// Block of the first child
    first_child: i64,
    children: Vec<VaultEntry>,
}

/// The views of a sequence of entries
pub closed spec fn children_views(s: Seq<VaultEntry>) -> Seq<VaultEntryView>
    decreases s,
{
    if s.len() == 0 {
        Seq::empty()
    } else {
        children_views(s.drop_last()).push(s.last().eview())
    }
}

impl DirectoryEntry {
    /// What the directory holds
    pub closed spec fn dview(&self) -> DirectoryView
        decreases self,
    {
        DirectoryView {
            name: self.name@,
            block: self.block,
            next: self.next,
            first_child: self.first_child,
            children: children_views(self.children@),
        }
    }
}

/// A vault entry found in a directory
#[derive(Debug)]
pub enum VaultEntry {
    Password(PasswordEntry),
    Secret(SecretFileEntry),
    Directory(DirectoryEntry),
}

impl VaultEntry {
    /// What the entry holds
    pub open spec fn eview(&self) -> VaultEntryView
        decreases self,
    {
        match self {
            VaultEntry::Password(p) => VaultEntryView::Password(p@),
            VaultEntry::Secret(s) => VaultEntryView::Secret(s@),
            VaultEntry::Directory(d) => VaultEntryView::Directory(d.dview()),
        }
    }
}

/// The views of a sequence of entries are the views of its entries, one for one.
pub broadcast proof fn lemma_children_views(s: Seq<VaultEntry>)
    ensures
        #[trigger] children_views(s).len() == s.len(),
        forall|i: int| 0 <= i < s.len() ==> #[trigger] children_views(s)[i] == s[i].eview(),
    decreases s.len(),
{
    if s.len() > 0 {
        lemma_children_views(s.drop_last());
        assert forall|i: int| 0 <= i < s.len() implies #[trigger] children_views(s)[i] == s[i].eview() by {
            if i < s.len() - 1 {
                assert(s.drop_last()[i] == s[i]);
            }
        }
    }
}

impl DirectoryEntry {
    #[verifier::type_invariant]
    spec fn inv(self) -> bool {
        valid_utf8(self.name@)
    }

    /// The name of a directory entry is UTF-8 text of the name field's length.
    pub fn name_is_wf(&self) -> (r: bool)
        ensures
            r,
            name_wf(self.dview().name),
    {
        proof {
            use_type_invariant(self);
        }
        true
    }

    /// Serializes the entry into an array that fits inside a datablock
    pub fn serialize(&self, key: &[u8]) -> (r: Result<[u8; DATABLOCK_LENGTH], SerializationError>)
        requires
            key@.len() == KEY_LENGTH,
        ensures
            r matches Ok(b) && b@ == entry_block_bytes(
                DIRENTRY_TYPE,
                self.dview().next,
                b@.subrange(9, 21),
                aes256gcm_seal(key@, b@.subrange(9, 21), directory_plain(self.dview())),
            ) && spec_decrypt(
                key@,
                b@.subrange(9, 21),
                aes256gcm_seal(key@, b@.subrange(9, 21), directory_plain(self.dview())),
            ) == Ok::<Seq<u8>, ()>(directory_plain(self.dview())) && aes256gcm_seal(
                key@,
                b@.subrange(9, 21),
                directory_plain(self.dview()),
            ).len() == DIRENTRY_ENC_LENGTH + AES_TAG_LENGTH,
    {
        let mut bytes: Vec<u8> = Vec::new();
        put_slice(&mut bytes, &self.name);
        put_u64(&mut bytes, self.first_child as u64);
        assert(bytes@ =~= directory_plain(self.dview()));
        seal_entry_block(DIRENTRY_TYPE, self.next, bytes.as_slice(), key)
    }

    /// Decode a directory entry (without its children) from its entry block
    pub fn build_entry(data: DataBlockEntry, key: &[u8], entry_block: u64) -> (r: Result<Self, BuildEntryError>)
        requires
            key@.len() == KEY_LENGTH,
        ensures
            r is Ok <==> spec_build_directory(data.nonce@, data.data@, data.next, key@, entry_block) is Some,
            r matches Ok(e) ==> Some(e.dview()) == spec_build_directory(data.nonce@, data.data@, data.next, key@, entry_block),
            spec_decrypt(key@, data.nonce@, data.data@.subrange(0, DIRENTRY_ENC_LENGTH + AES_TAG_LENGTH)) is Err
                ==> r matches Err(BuildEntryError::CryptographyError(CryptographyError::InauthenticTag)),
            spec_decrypt(key@, data.nonce@, data.data@.subrange(0, DIRENTRY_ENC_LENGTH + AES_TAG_LENGTH)) is Ok
                && r is Err ==> (r matches Err(BuildEntryError::UTF8Error(_, off)) && off == 0),
    {
        let entry = match open_entry_block(&data, key, DIRENTRY_ENC_LENGTH) {
            Ok(p) => p,
            Err(e) => return Err(e),
        };
        let mut offset: usize = 0;
        let name = array_at::<VAULTENTRYNAME_LENGTH>(entry.as_slice(), offset);
        let mut name_vec: Vec<u8> = Vec::new();
        put_slice(&mut name_vec, &name);
        if let Err(e) = string_from_utf8(name_vec) {
            return Err(BuildEntryError::UTF8Error(e, offset as u64));
        }
        offset += VAULTENTRYNAME_LENGTH;
        let child = get_u64(entry.as_slice(), offset) as i64;
        let d = DirectoryEntry {
            name,
            block: entry_block,
            next: data.next,
            first_child: child,
            children: Vec::new(),
        };
        assert(d.dview().children =~= Seq::<VaultEntryView>::empty());
        Ok(d)
    }

    /// The block id of the entry
    pub fn entry_datablock(&self) -> (r: u64)
        ensures
            r == self.dview().block,
    {
        self.block
    }

    /// The block of the next entry in the directory (-1 if there is none)
    pub fn get_next(&self) -> (r: i64)
        ensures
            r == self.dview().next,
    {
        self.next
    }

    /// The entries of the directory, in directory order
    pub fn get_children(&self) -> (r: &Vec<VaultEntry>)
        ensures
            children_views(r@) == self.dview().children,
    {
        &self.children
    }
}

/// An entry block that a directory entry was serialized to decodes back to that entry (without
/// its children, which have entry blocks of their own).
pub proof fn lemma_directory_roundtrip(e: DirectoryView, key: Seq<u8>, bytes: Seq<u8>, d: DataBlockEntry)
    requires
        name_wf(e.name),
        bytes.len() == DATABLOCK_LENGTH,
        bytes == entry_block_bytes(
            DIRENTRY_TYPE,
            e.next,
            bytes.subrange(9, 21),
            aes256gcm_seal(key, bytes.subrange(9, 21), directory_plain(e)),
        ),
        spec_decrypt(key, bytes.subrange(9, 21), aes256gcm_seal(key, bytes.subrange(9, 21), directory_plain(e)))
            == Ok::<Seq<u8>, ()>(directory_plain(e)),
        aes256gcm_seal(key, bytes.subrange(9, 21), directory_plain(e)).len() == DIRENTRY_ENC_LENGTH
            + AES_TAG_LENGTH,
        crate::vault::utils::entry_block_matches(d, bytes),
    ensures
        d.entry_type == DIRENTRY_TYPE,
        spec_build_directory(d.nonce@, d.data@, d.next, key, e.block) == Some(
            DirectoryView { children: Seq::empty(), ..e },
        ),
{
    let n = bytes.subrange(9, 21);
    let plain = directory_plain(e);
    let ct = aes256gcm_seal(key, n, plain);
    lemma_be8_roundtrip(e.next as u64);
    lemma_i64_roundtrip(e.next);
    lemma_be8_roundtrip(e.first_child as u64);
    lemma_i64_roundtrip(e.first_child);
    assert(bytes.subrange(1, 9) =~= be8(e.next as u64));
    assert(d.data@.subrange(0, DIRENTRY_ENC_LENGTH + AES_TAG_LENGTH) =~= ct);
    assert(plain.subrange(0, 128) =~= e.name);
    assert(plain.subrange(128, 136) =~= be8(e.first_child as u64));
}

/// The block ids an entry refers to are usable: they are at most `MAX_BLOCK_ID`, and a secret
/// file occupies at least one block. For a directory this holds of all entries inside it.
pub open spec fn blocks_valid(e: VaultEntryView) -> bool
    decreases e,
{
    match e {
        VaultEntryView::Password(p) => p.block <= MAX_BLOCK_ID && p.pwd_block <= MAX_BLOCK_ID,
        VaultEntryView::Secret(s) => s.block <= MAX_BLOCK_ID && s.size >= 1 && s.start + s.size - 1
            <= MAX_BLOCK_ID,
        VaultEntryView::Directory(d) => d.block <= MAX_BLOCK_ID && forall|i: int|
            0 <= i < d.children.len() ==> blocks_valid(#[trigger] d.children[i]),
    }
}

/// The data blocks an entry occupies: its entry block and its secret blocks, and for a directory
/// those of all entries inside it.
pub open spec fn occupied(e: VaultEntryView) -> Set<int>
    decreases e,
{
    match e {
        VaultEntryView::Password(p) => set![p.pwd_block as int, p.block as int],
        VaultEntryView::Secret(s) => Set::new(|b: int| s.start <= b <= s.start + s.size - 1).insert(
            s.block as int,
        ),
        VaultEntryView::Directory(d) => occupied_children(d.children, d.children.len() as int).insert(
            d.block as int,
        ),
    }
}

/// The data blocks the first `n` entries of `s` occupy.
pub open spec fn occupied_children(s: Seq<VaultEntryView>, n: int) -> Set<int>
    decreases s, n,
{
    if n <= 0 || n > s.len() {
        Set::empty()
    } else {
        occupied_children(s, n - 1).union(occupied(s[n - 1]))
    }
}

impl PasswordEntry {
    /// The blocks the entry occupies: its password block and its entry block
    pub fn occupied_datablocks(&self) -> (r: BlockSet)
        ensures
            r.wf(),
            r@ == occupied(VaultEntryView::Password(self@)),
    {
        let mut blocks = BlockSet::new();
        blocks.put(BlockRange::new(self.pwd_block, 1));
        blocks.put(BlockRange::new(self.block, 1));
        assert(blocks@ =~= occupied(VaultEntryView::Password(self@)));
        blocks
    }
}

impl SecretFileEntry {
    /// The blocks the entry occupies: its secret blocks and its entry block
    pub fn occupied_datablocks(&self) -> (r: BlockSet)
        requires
            blocks_valid(VaultEntryView::Secret(self@)),
        ensures
            r.wf(),
            r@ == occupied(VaultEntryView::Secret(self@)),
    {
        let mut blocks = BlockSet::new();
        blocks.put(BlockRange { start: self.start, end: self.start + (self.size - 1) });
        blocks.put(BlockRange::new(self.block, 1));
        assert(blocks@ =~= occupied(VaultEntryView::Secret(self@)));
        blocks
    }
}

impl DirectoryEntry {
    /// The blocks the directory and all entries inside it occupy
    pub fn occupied_datablocks(&self) -> (r: BlockSet)
        requires
            blocks_valid(VaultEntryView::Directory(self.dview())),
        ensures
            r.wf(),
            r@ == occupied(VaultEntryView::Directory(self.dview())),
        decreases self,
    {
        proof {
            lemma_children_views(self.children@);
        }
        let mut blocks = BlockSet::new();
        let mut i: usize = 0;
        while i < self.children.len()
            invariant
                i <= self.children@.len(),
                blocks.wf(),
                blocks_valid(VaultEntryView::Directory(self.dview())),
                children_views(self.children@).len() == self.children@.len(),
                forall|j: int| 0 <= j < self.children@.len() ==> #[trigger] children_views(self.children@)[j] == self.children@[j].eview(),
                blocks@ == occupied_children(self.dview().children, i as int),
            decreases self.children@.len() - i,
        {
            assert(blocks_valid(self.dview().children[i as int]));
            let child_blocks = self.children[i].occupied_blocks();
            blocks.put_all(child_blocks);
            i += 1;
        }
        blocks.put(BlockRange::new(self.block, 1));
        assert(blocks@ =~= occupied(VaultEntryView::Directory(self.dview())));
        blocks
    }
}

impl DirectoryEntry {
    /// Whether every block id in the directory and in the entries inside it is a usable block id
    /// and every secret file has at least one block (see `blocks_valid`).
    pub fn has_valid_blocks(&self) -> (r: bool)
        ensures
            r == blocks_valid(VaultEntryView::Directory(self.dview())),
        decreases self,
    {
        proof {
            lemma_children_views(self.children@);
        }
        if self.block > MAX_BLOCK_ID {
            return false;
        }
        let mut i: usize = 0;
        while i < self.children.len()
            invariant
                i <= self.children@.len(),
                self.block <= MAX_BLOCK_ID,
                children_views(self.children@).len() == self.children@.len(),
                forall|j: int| 0 <= j < self.children@.len() ==> #[trigger] children_views(self.children@)[j] == self.children@[j].eview(),
                forall|j: int| 0 <= j < i ==> blocks_valid(#[trigger] self.dview().children[j]),
            decreases self.children@.len() - i,
        {
            if !self.children[i].has_valid_blocks() {
                proof {
                    let d = self.dview();
                    assert(d.children[i as int] == self.children@[i as int].eview());
                    assert(!blocks_valid(d.children[i as int]));
                    let e = VaultEntryView::Directory(d);
                    assert(e matches VaultEntryView::Directory(dd) && dd == d);
                }
                return false;
            }
            i += 1;
        }
        true
    }
}

impl VaultEntry {
    /// Whether every block id of the entry (and of the entries inside it) is a usable block id
    /// and every secret file has at least one block (see `blocks_valid`).
    pub fn has_valid_blocks(&self) -> (r: bool)
        ensures
            r == blocks_valid(self.eview()),
        decreases self,
    {
        match self {
            Self::Password(p) => p.block <= MAX_BLOCK_ID && p.pwd_block <= MAX_BLOCK_ID,
            Self::Secret(sv) => sv.block <= MAX_BLOCK_ID && sv.size >= 1 && sv.start <= MAX_BLOCK_ID && sv.size - 1
                <= MAX_BLOCK_ID - sv.start,
            Self::Directory(d) => d.has_valid_blocks(),
        }
    }
}

impl VaultEntry {
    /// The blocks the entry occupies
    pub fn occupied_blocks(&self) -> (r: BlockSet)
        requires
            blocks_valid(self.eview()),
        ensures
            r.wf(),
            r@ == occupied(self.eview()),
        decreases self,
    {
        match self {
            Self::Secret(sec) => sec.occupied_datablocks(),
            Self::Password(pwd) => pwd.occupied_datablocks(),
            Self::Directory(dir) => dir.occupied_datablocks(),
        }
    }

    /// The block the entry resides in
    pub fn entry_block(&self) -> (r: u64)
        ensures
            r == self.eview().block(),
    {
        match self {
            Self::Secret(sec) => sec.entry_datablock(),
            Self::Password(pwd) => pwd.entry_datablock(),
            Self::Directory(dir) => dir.entry_datablock(),
        }
    }

    /// The block of the next entry in the directory (-1 if there is none)
    pub fn next(&self) -> (r: i64)
        ensures
            r == self.eview().next(),
    {
        match self {
            VaultEntry::Password(pwd) => pwd.get_next(),
            VaultEntry::Secret(sec) => sec.get_next(),
            VaultEntry::Directory(dir) => dir.get_next(),
        }
    }

    /// Whether the entry is a directory
    pub fn is_directory(&self) -> (r: bool)
        ensures
            r == self.eview() is Directory,
    {
        match &self {
            VaultEntry::Directory(_) => true,
            _ => false,
        }
    }

    /// Serializes the entry into an array that fits inside a datablock
    pub fn serialize(&self, key: &[u8]) -> (r: Result<[u8; DATABLOCK_LENGTH], SerializationError>)
        requires
            key@.len() == KEY_LENGTH,
        ensures
            r matches Ok(b) && b@ == match self.eview() {
                VaultEntryView::Password(p) => entry_block_bytes(
                    PASSWORDENTRY_TYPE,
                    p.next,
                    b@.subrange(9, 21),
                    aes256gcm_seal(key@, b@.subrange(9, 21), password_plain(p)),
                ),
                VaultEntryView::Secret(sv) => entry_block_bytes(
                    SECRETENTRY_TYPE,
                    sv.next,
                    b@.subrange(9, 21),
                    aes256gcm_seal(key@, b@.subrange(9, 21), secret_plain(sv)),
                ),
                VaultEntryView::Directory(d) => entry_block_bytes(
                    DIRENTRY_TYPE,
                    d.next,
                    b@.subrange(9, 21),
                    aes256gcm_seal(key@, b@.subrange(9, 21), directory_plain(d)),
                ),
            },
            r matches Ok(b) && b@ == entry_block_bytes(
                entry_plain(self.eview()).0,
                self.eview().next(),
                b@.subrange(9, 21),
                aes256gcm_seal(key@, b@.subrange(9, 21), entry_plain(self.eview()).1),
            ) && spec_decrypt(
                key@,
                b@.subrange(9, 21),
                aes256gcm_seal(key@, b@.subrange(9, 21), entry_plain(self.eview()).1),
            ) == Ok::<Seq<u8>, ()>(entry_plain(self.eview()).1) && aes256gcm_seal(
                key@,
                b@.subrange(9, 21),
                entry_plain(self.eview()).1,
            ).len() == entry_plain(self.eview()).1.len() + AES_TAG_LENGTH,
    {
        match self {
            VaultEntry::Password(pwd) => pwd.serialize(key),
            VaultEntry::Secret(sec) => sec.serialize(key),
            VaultEntry::Directory(dir) => dir.serialize(key),
        }
    }
}

/// The text of a name field.
fn name_string(name: &[u8; VAULTENTRYNAME_LENGTH]) -> (r: String)
    requires
        valid_utf8(name@),
    ensures
        r@ == decode_utf8(name@),
{
    let mut name_vec: Vec<u8> = Vec::new();
    put_slice(&mut name_vec, name);
    match string_from_utf8(name_vec) {
        Ok(s) => s,
        Err(_) => {
            assert(false);
            String::new()
        },
    }
}

/// The decimal digits of `n`.
pub open spec fn decimal(n: nat) -> Seq<char>
    decreases n,
{
    if n < 10 {
        seq![digit_char(n)]
    } else {
        decimal(n / 10) + seq![digit_char(n % 10)]
    }
}

/// The character of a decimal digit.
pub open spec fn digit_char(d: nat) -> char {
    if d == 0 { '0' } else if d == 1 { '1' } else if d == 2 { '2' } else if d == 3 { '3' } else if d
        == 4 { '4' } else if d == 5 { '5' } else if d == 6 { '6' } else if d == 7 { '7' } else if d
        == 8 { '8' } else { '9' }
}

fn digit_str(d: usize) -> (r: &'static str)
    requires
        d < 10,
    ensures
        r@ == seq![digit_char(d as nat)],
{
    proof {
        reveal_strlit("0");
        reveal_strlit("1");
        reveal_strlit("2");
        reveal_strlit("3");
        reveal_strlit("4");
        reveal_strlit("5");
        reveal_strlit("6");
        reveal_strlit("7");
        reveal_strlit("8");
        reveal_strlit("9");
    }
    if d == 0 { "0" } else if d == 1 { "1" } else if d == 2 { "2" } else if d == 3 { "3" } else if d
        == 4 { "4" } else if d == 5 { "5" } else if d == 6 { "6" } else if d == 7 { "7" } else if d
        == 8 { "8" } else { "9" }
}

/// The decimal text of `n` (as `usize::to_string` writes it).
pub fn decimal_string(n: usize) -> (r: String)
    ensures
        r@ == decimal(n as nat),
    decreases n,
{
    if n < 10 {
        String::from_str(digit_str(n))
    } else {
        let mut s = decimal_string(n / 10);
        s.append(digit_str(n % 10));
        s
    }
}

impl PasswordEntry {
    /// Displays general information about the entry: its name and kind
    pub fn display(&self) -> (r: String)
        ensures
            r@ == decode_utf8(self@.name) + " (Password)"@,
    {
        proof {
            use_type_invariant(self);
        }
        let mut s = name_string(&self.name);
        s.append(" (Password)");
        s
    }

    /// The name of the entry
    pub fn get_name(&self) -> (r: String)
        ensures
            r@ == decode_utf8(self@.name),
    {
        proof {
            use_type_invariant(self);
        }
        name_string(&self.name)
    }
}

impl SecretFileEntry {
    /// Displays general information about the entry: its name and kind
    pub fn display(&self) -> (r: String)
        ensures
            r@ == decode_utf8(self@.name) + " (File)"@,
    {
        proof {
            use_type_invariant(self);
        }
        let mut s = name_string(&self.name);
        s.append(" (File)");
        s
    }

    /// The name of the entry
    pub fn get_name(&self) -> (r: String)
        ensures
            r@ == decode_utf8(self@.name),
    {
        proof {
            use_type_invariant(self);
        }
        name_string(&self.name)
    }
}

impl DirectoryEntry {
    /// Displays general information about the directory: its name and number of entries
    pub fn display(&self) -> (r: String)
        ensures
            r@ == decode_utf8(self.dview().name) + ": "@ + decimal(self.dview().children.len()) + " Items"@,
    {
        proof {
            use_type_invariant(self);
            lemma_children_views(self.children@);
        }
        let mut s = name_string(&self.name);
        s.append(": ");
        let count = decimal_string(self.children.len());
        s.append(count.as_str());
        s.append(" Items");
        s
    }

    /// The name of the directory
    pub fn get_name(&self) -> (r: String)
        ensures
            r@ == decode_utf8(self.dview().name),
    {
        proof {
            use_type_invariant(self);
        }
        name_string(&self.name)
    }
}

/// How an entry is displayed
pub open spec fn display_of(e: VaultEntryView) -> Seq<char> {
    match e {
        VaultEntryView::Password(p) => decode_utf8(p.name) + " (Password)"@,
        VaultEntryView::Secret(s) => decode_utf8(s.name) + " (File)"@,
        VaultEntryView::Directory(d) => decode_utf8(d.name) + ": "@ + decimal(d.children.len())
            + " Items"@,
    }
}

/// The law of displaying an entry: it shows its name and then the label of its kind, as each
/// kind of entry displays itself: " (Password)" for a password, " (File)" for a secret file, and
/// the number of its entries for a directory.
pub proof fn lemma_display_labels(e: VaultEntryView)
    ensures
        e is Password ==> display_of(e) == decode_utf8(e.name()) + " (Password)"@,
        e is Secret ==> display_of(e) == decode_utf8(e.name()) + " (File)"@,
        e is Directory ==> display_of(e) == decode_utf8(e.name()) + ": "@ + decimal(e->Directory_0.children.len())
            + " Items"@,
{
}

impl VaultEntry {
    /// Displays general information about the entry
    pub fn display(&self) -> (r: String)
        ensures
            r@ == display_of(self.eview()),
            self matches VaultEntry::Password(p) ==> r@ == decode_utf8(p@.name) + " (Password)"@,
            self matches VaultEntry::Secret(f) ==> r@ == decode_utf8(f@.name) + " (File)"@,
            self matches VaultEntry::Directory(d) ==> r@ == decode_utf8(d.dview().name) + ": "@ + decimal(
                d.dview().children.len(),
            ) + " Items"@,
    {
        match self {
            Self::Password(pwd) => pwd.display(),
            Self::Secret(sec) => sec.display(),
            Self::Directory(dir) => dir.display(),
        }
    }

    /// The name of the entry
    pub fn name(&self) -> (r: String)
        ensures
            r@ == decode_utf8(self.eview().name()),
    {
        match self {
            VaultEntry::Password(pwd) => pwd.get_name(),
            VaultEntry::Secret(sec) => sec.get_name(),
            VaultEntry::Directory(dir) => dir.get_name(),
        }
    }
}

/// The prefix of a line at `depth` in the vault overview: one connector per level, then the
/// branch mark (the end mark for the last entry of a directory).
pub open spec fn prefix_of(depth: nat, end_leaf: bool) -> Seq<char>
    decreases depth,
{
    if depth == 0 {
        if end_leaf { "└ "@ } else { "├─ "@ }
    } else {
        "│\t"@ + prefix_of((depth - 1) as nat, end_leaf)
    }
}

/// Build the prefix of a line of the vault overview
pub fn build_prefix_str(depth: u64, end_leaf: bool) -> (r: String)
    ensures
        r@ == prefix_of(depth as nat, end_leaf),
{
    proof {
        reveal_strlit("└ ");
        reveal_strlit("├─ ");
        reveal_strlit("│\t");
    }
    let mut prefix = String::new();
    let mut i: u64 = 0;
    while i < depth
        invariant
            i <= depth,
            prefix@ == repeat_connector(i as nat),
        decreases depth - i,
    {
        prefix.append("│\t");
        proof {
            lemma_repeat_connector_push(i as nat);
        }
        i += 1;
    }
    if end_leaf {
        prefix.append("└ ");
    } else {
        prefix.append("├─ ");
    }
    proof {
        lemma_prefix_of(depth as nat, end_leaf);
    }
    prefix
}

/// `n` connectors
pub open spec fn repeat_connector(n: nat) -> Seq<char>
    decreases n,
{
    if n == 0 { Seq::empty() } else { "│\t"@ + repeat_connector((n - 1) as nat) }
}

proof fn lemma_repeat_connector_push(n: nat)
    ensures
        repeat_connector(n + 1) == repeat_connector(n) + "│\t"@,
    decreases n,
{
    if n > 0 {
        lemma_repeat_connector_push((n - 1) as nat);
        assert(repeat_connector(n + 1) =~= "│\t"@ + (repeat_connector((n - 1) as nat) + "│\t"@));
    } else {
        let c = "│\t"@;
        assert(repeat_connector(0) =~= Seq::<char>::empty());
        assert(repeat_connector(1) == c + repeat_connector(0));
        assert(c + Seq::<char>::empty() =~= c);
        assert(Seq::<char>::empty() + c =~= c);
    }
}

pub proof fn lemma_prefix_of(n: nat, end_leaf: bool)
    ensures
        prefix_of(n, end_leaf) == repeat_connector(n) + (if end_leaf { "└ "@ } else { "├─ "@ }),
    decreases n,
{
    if n > 0 {
        lemma_prefix_of((n - 1) as nat, end_leaf);
        assert(prefix_of(n, end_leaf) =~= repeat_connector(n) + (if end_leaf { "└ "@ } else { "├─ "@ }));
    } else {
        assert(prefix_of(0, end_leaf) =~= Seq::<char>::empty() + (if end_leaf { "└ "@ } else { "├─ "@ }));
    }
}

/// Whether the empty blocks of `ctx` can serve two allocations, of `first` blocks and then of one
/// block, without running out (taking blocks from an empty set fails).
pub open spec fn can_allocate(ctx: VaultContext, first: int, extra: nat) -> bool {
    &&& ctx.empty().wf()
    &&& ctx.empty().ranges().len() > 0
    &&& occupy_ranges(ctx.empty().ranges(), first).len() > 0
    &&& ctx.empty().ranges().last().end + first + 1 <= MAX_BLOCK_ID
    &&& ctx.file().len() + (first + 1) * DATABLOCK_LENGTH + extra <= usize::MAX
}

/// Write an entry block for a new entry: the block comes from the empty blocks.
fn write_entry_block(context: &mut VaultContext, block: [u8; DATABLOCK_LENGTH]) -> (r: BlockRange)
    requires
        old(context).empty().wf(),
        old(context).empty().ranges().len() > 0,
        old(context).empty().ranges().last().end + 1 <= MAX_BLOCK_ID,
        old(context).file().len() + DATABLOCK_LENGTH <= usize::MAX,
    ensures
        r.start == r.end,
        r.start == alloc_start(old(context).empty().ranges(), 1),
        r.end <= MAX_BLOCK_ID,
        final(context).empty().wf(),
        final(context).empty().ranges() == occupy_ranges(old(context).empty().ranges(), 1),
        final(context).file() == block_written(old(context).file(), r.start, block@),
        final(context).file().len() <= old(context).file().len() + DATABLOCK_LENGTH,
{
    proof {
        crate::vault::utils::lemma_block_written_len(old(context).file(), alloc_start(old(context).empty().ranges(), 1), block@);
    }
    let mut data: Vec<u8> = Vec::new();
    put_slice(&mut data, &block);
    match context.new_block(data) {
        Ok(r) => r,
        Err(_) => {
            assert(false);
            BlockRange { start: 0, end: 0 }
        },
    }
}

/// The plaintext length of a secret: the file contents padded so that the ciphertext (with its
/// tag) fills whole data blocks.
pub open spec fn secret_padded_len(n: nat) -> nat {
    ((((n + AES_TAG_LENGTH + DATABLOCK_LENGTH - 1) as int) / (DATABLOCK_LENGTH as int)) * DATABLOCK_LENGTH
        - AES_TAG_LENGTH) as nat
}

/// Pad the contents of a secret file to whole data blocks and encrypt them
pub fn encrypt_file_data(contents: &[u8], key: &[u8]) -> (r: Result<EncryptedData, CryptographyError>)
    requires
        key@.len() == KEY_LENGTH,
        contents@.len() + AES_TAG_LENGTH + DATABLOCK_LENGTH <= usize::MAX,
    ensures
        secret_padded_len(contents@.len()) <= AES_MAX_PLAINTEXT ==> (r matches Ok(e)
            && e.data@.len() == secret_padded_len(contents@.len()) + AES_TAG_LENGTH
            && e.data@.len() % (DATABLOCK_LENGTH as nat) == 0 && e.data@.len() >= DATABLOCK_LENGTH
            && spec_decrypt(key@, e.nonce@, e.data@) == Ok::<Seq<u8>, ()>(
                pad_to(contents@, secret_padded_len(contents@.len())),
            )),
        secret_padded_len(contents@.len()) > AES_MAX_PLAINTEXT ==> r matches Err(
            CryptographyError::InauthenticTag,
        ),
{
    //align data to be round_up((read_bytes+AES_GCM_AUTH_TAG) / DATABLOCK_LENGTH)
    let block_len: usize = (contents.len() + AES_TAG_LENGTH + DATABLOCK_LENGTH - 1) / DATABLOCK_LENGTH;
    assert(block_len * 272 >= contents@.len() + 16 && block_len >= 1 && block_len * 272 <= contents@.len() + 16 + 271) by (nonlinear_arith)
        requires
            block_len == (contents@.len() + 16 + 271) / 272,
    ;
    let padded_len = block_len * DATABLOCK_LENGTH - AES_TAG_LENGTH;
    let data = padded(contents, padded_len);
    proof {
        assert(block_len * 272 % 272 == 0) by (nonlinear_arith);
    }
    encrypt_region(data.as_slice(), key)
}

impl PasswordEntry {
    /// Create a password entry: the password (at most 256 bytes) is padded with zeros to a raw
    /// data block and encrypted into a new password block, then the entry block is written.
    pub fn new(name: String, input: String, context: &mut VaultContext, key: &[u8]) -> (r: Result<
        Self,
        VaultChangeError,
    >)
        requires
            key@.len() == KEY_LENGTH,
            can_allocate(*old(context), 1, 0),
        ensures
            encode_utf8(name@).len() > VAULTENTRYNAME_LENGTH ==> (r matches Err(
                VaultChangeError::ExceededNameLength(e),
            ) && e.len == encode_utf8(name@).len() && *final(context) == *old(context)),
            encode_utf8(name@).len() <= VAULTENTRYNAME_LENGTH && encode_utf8(input@).len()
                > DATABLOCK_RAW_LENGTH ==> (r matches Err(VaultChangeError::InputTooLarge)
                && *final(context) == *old(context)),
            encode_utf8(name@).len() <= VAULTENTRYNAME_LENGTH && encode_utf8(input@).len()
                <= DATABLOCK_RAW_LENGTH ==> (r matches Ok(e) && {
                let r1 = occupy_ranges(old(context).empty().ranges(), 1);
                &&& e@.name == name_field(name@)
                &&& e@.next == -1
                &&& e@.pwd_block == alloc_start(old(context).empty().ranges(), 1)
                &&& e@.block == alloc_start(r1, 1)
                &&& blocks_valid(VaultEntryView::Password(e@))
                &&& final(context).file().len() <= old(context).file().len() + 2 * DATABLOCK_LENGTH
                &&& final(context).empty().wf()
                &&& final(context).empty().ranges() == occupy_ranges(r1, 1)
                &&& exists|ct: Seq<u8>, eb: Seq<u8>|
                    final(context).file() == block_written(
                        block_written(old(context).file(), e@.pwd_block, ct),
                        e@.block,
                        eb,
                    ) && password_block_holds(key@, e@.pwd_block_nonce, ct, input@) && eb == entry_block_bytes(
                        PASSWORDENTRY_TYPE,
                        e@.next,
                        eb.subrange(9, 21),
                        aes256gcm_seal(key@, eb.subrange(9, 21), password_plain(e@)),
                    ) && eb.len() == DATABLOCK_LENGTH && spec_decrypt(
                        key@,
                        eb.subrange(9, 21),
                        aes256gcm_seal(key@, eb.subrange(9, 21), password_plain(e@)),
                    ) == Ok::<Seq<u8>, ()>(password_plain(e@)) && aes256gcm_seal(
                        key@,
                        eb.subrange(9, 21),
                        password_plain(e@),
                    ).len() == password_plain(e@).len() + AES_TAG_LENGTH
                &&& name_wf(e@.name)
                &&& e@.pwd_block_nonce.len() == AES_NONCE_LENGTH
            }),
    {
        let name_len = name.as_str().as_bytes().len();
        if name_len > VAULTENTRYNAME_LENGTH {
            return Err(VaultChangeError::ExceededNameLength(NameLengthExceededError { len: name_len }));
        }
        //convert name to u8 buffer
        let namebuffer = name_buffer(name.as_str());
        let bytes = input.as_str().as_bytes();
        if bytes.len() > DATABLOCK_RAW_LENGTH {
            return Err(VaultChangeError::InputTooLarge);
        }
        let data = padded(bytes, DATABLOCK_RAW_LENGTH);
        let enc_pwd_data = match encrypt_region(data.as_slice(), key) {
            Ok(e) => e,
            Err(e) => {
                assert(false);
                return Err(VaultChangeError::CryptographyError(e));
            },
        };
        let ghost file0 = context.file();
        let pwd_block = match context.new_block(enc_pwd_data.data) {
            Ok(b) => b,
            Err(e) => {
                assert(false);
                return Err(VaultChangeError::FileChangeError(e));
            },
        };
        let mut entry = PasswordEntry {
            name: namebuffer,
            // set once the entry block is known
            block: 0,
            next: -1,
            pwd_block: pwd_block.start,
            pwd_block_nonce: enc_pwd_data.nonce,
        };
        proof {
            old(context).empty().lemma_ranges_wf();
            crate::vault::utils::lemma_occupy_ranges_end(old(context).empty().ranges(), 1);
        }
        let serialized_entry = match entry.serialize(key) {
            Ok(b) => b,
            Err(e) => {
                assert(false);
                return Err(VaultChangeError::SerializeError(e));
            },
        };
        let placed = write_entry_block(context, serialized_entry);
        entry.block = placed.start;
        proof {
            assert(entry@.block == alloc_start(occupy_ranges(old(context).empty().ranges(), 1), 1));
            assert(context.file() == block_written(
                block_written(file0, entry@.pwd_block, enc_pwd_data.data@),
                entry@.block,
                serialized_entry@,
            ));
        }
        Ok(entry)
    }
}

/// The password a password block holds: the data block `pwd_block` of the vault file, decrypted
/// with `nonce` and `key`, without its zero padding, read as UTF-8 text. `None` when the block
/// lies past the end of the file, does not decrypt, or is not UTF-8.
pub open spec fn spec_stored_password(file: Seq<u8>, pwd_block: u64, nonce: Seq<u8>, key: Seq<u8>) -> Option<
    Seq<char>,
> {
    let off = block_offset(pwd_block as int);
    if off + DATABLOCK_LENGTH <= file.len() {
        match spec_decrypt(key, nonce, file.subrange(off, off + DATABLOCK_LENGTH)) {
            Ok(p) => if valid_utf8(trim_zeros(p)) {
                Some(decode_utf8(trim_zeros(p)))
            } else {
                None
            },
            Err(_) => None,
        }
    } else {
        None
    }
}

/// The password block of `pw`: its UTF-8 bytes padded with zeros to a raw data block, encrypted.
pub open spec fn password_block_holds(key: Seq<u8>, nonce: Seq<u8>, ct: Seq<u8>, pw: Seq<char>) -> bool {
    &&& ct.len() == DATABLOCK_LENGTH
    &&& spec_decrypt(key, nonce, ct) == Ok::<Seq<u8>, ()>(pad_to(encode_utf8(pw), DATABLOCK_RAW_LENGTH as nat))
}

/// Zero padding after bytes that do not end in a zero byte is exactly what trimming removes.
pub proof fn lemma_trim_padding(b: Seq<u8>, n: nat)
    requires
        b.len() <= n,
        b.len() == 0 || b.last() != 0,
    ensures
        trim_zeros(pad_to(b, n)) == b,
    decreases n,
{
    if n > b.len() {
        let p = pad_to(b, n);
        assert(p.last() == 0);
        assert(p.drop_last() =~= pad_to(b, (n - 1) as nat));
        lemma_trim_padding(b, (n - 1) as nat);
    } else {
        assert(pad_to(b, n) =~= b);
    }
}

/// A password written into a password block reads back unchanged, when its UTF-8 text does not
/// end in a zero byte (the padding cannot be told apart from such a byte).
pub proof fn lemma_password_block_roundtrip(
    file: Seq<u8>,
    pwd_block: u64,
    nonce: Seq<u8>,
    key: Seq<u8>,
    ct: Seq<u8>,
    pw: Seq<char>,
)
    requires
        password_block_holds(key, nonce, ct, pw),
        encode_utf8(pw).len() <= DATABLOCK_RAW_LENGTH,
        encode_utf8(pw).len() == 0 || encode_utf8(pw).last() != 0,
        block_offset(pwd_block as int) <= file.len(),
    ensures
        spec_stored_password(write_at(file, block_offset(pwd_block as int), ct), pwd_block, nonce, key)
            == Some(pw),
{
    let off = block_offset(pwd_block as int);
    let f = write_at(file, off, ct);
    assert(f.subrange(off, off + DATABLOCK_LENGTH) =~= ct);
    lemma_trim_padding(encode_utf8(pw), DATABLOCK_RAW_LENGTH as nat);
    vstd::utf8::encode_utf8_valid_utf8(pw);
    vstd::utf8::encode_utf8_decode_utf8(pw);
}

/// Pad a password to a raw data block and encrypt it.
fn seal_password(input: &String, key: &[u8]) -> (r: Result<EncryptedData, VaultChangeError>)
    requires
        key@.len() == KEY_LENGTH,
    ensures
        encode_utf8(input@).len() > DATABLOCK_RAW_LENGTH ==> r matches Err(VaultChangeError::InputTooLarge),
        encode_utf8(input@).len() <= DATABLOCK_RAW_LENGTH ==> (r matches Ok(e) && password_block_holds(
            key@,
            e.nonce@,
            e.data@,
            input@,
        )),
{
    let bytes = input.as_str().as_bytes();
    if bytes.len() > DATABLOCK_RAW_LENGTH {
        return Err(VaultChangeError::InputTooLarge);
    }
    let data = padded(bytes, DATABLOCK_RAW_LENGTH);
    match encrypt_region(data.as_slice(), key) {
        Ok(e) => Ok(e),
        Err(e) => {
            assert(false);
            Err(VaultChangeError::CryptographyError(e))
        },
    }
}

impl PasswordEntry {
    /// Read the password block and decrypt it; the zero padding is dropped and the rest is read
    /// as UTF-8 text.
    pub fn retrieve_secret(&self, context: &VaultContext, key: &[u8]) -> (r: Result<String, RetrieveSecretError>)
        requires
            key@.len() == KEY_LENGTH,
            self@.pwd_block <= MAX_BLOCK_ID,
        ensures
            match spec_stored_password(context.file(), self@.pwd_block, self@.pwd_block_nonce, key@) {
                Some(pw) => r matches Ok(s) && s@ == pw,
                None => r is Err,
            },
            block_offset(self@.pwd_block as int) + DATABLOCK_LENGTH > context.file().len() ==> r matches Err(
                RetrieveSecretError::VaultFileError(_),
            ),
            ({
                let off = block_offset(self@.pwd_block as int);
                off + DATABLOCK_LENGTH <= context.file().len() ==> match spec_decrypt(
                    key@,
                    self@.pwd_block_nonce,
                    context.file().subrange(off, off + DATABLOCK_LENGTH),
                ) {
                    Err(_) => r matches Err(RetrieveSecretError::DecryptError(_)),
                    Ok(p) => !valid_utf8(trim_zeros(p)) ==> r matches Err(RetrieveSecretError::UTF8Error(_)),
                }
            }),
    {
        let enc_datablock = match context.read_datablock(self.pwd_block) {
            Ok(b) => b,
            Err(e) => return Err(RetrieveSecretError::VaultFileError(e)),
        };
        let data = match decrypt_region(&enc_datablock, &self.pwd_block_nonce, key, DATABLOCK_RAW_LENGTH) {
            Ok(d) => d,
            Err(e) => return Err(RetrieveSecretError::DecryptError(e)),
        };
        // Passwords are padded with zeros before encryption; the padding is dropped here
        let text = trim_trailing_zeros(data.as_slice());
        match string_from_utf8(text) {
            Ok(s) => Ok(s),
            Err(e) => Err(RetrieveSecretError::UTF8Error(e)),
        }
    }

    /// Replace the password: the new password (at most 256 bytes) is padded and encrypted with a
    /// fresh nonce, and written in place over the password block.
    pub fn change_secret(&mut self, context: &mut VaultContext, key: &[u8], new_input: String) -> (r: Result<
        (),
        VaultChangeError,
    >)
        requires
            key@.len() == KEY_LENGTH,
            old(self)@.pwd_block <= MAX_BLOCK_ID,
            old(context).file().len() + DATABLOCK_LENGTH <= usize::MAX,
        ensures
            final(context).empty() == old(context).empty(),
            encode_utf8(new_input@).len() > DATABLOCK_RAW_LENGTH ==> (r matches Err(VaultChangeError::InputTooLarge)
                && final(self)@ == old(self)@ && final(context).file() == old(context).file()),
            encode_utf8(new_input@).len() <= DATABLOCK_RAW_LENGTH && block_offset(old(self)@.pwd_block as int)
                > old(context).file().len() ==> (r matches Err(VaultChangeError::FileChangeError(_))
                && final(self)@ == old(self)@ && final(context).file() == old(context).file()),
            encode_utf8(new_input@).len() <= DATABLOCK_RAW_LENGTH && block_offset(old(self)@.pwd_block as int)
                <= old(context).file().len() ==> (r is Ok && final(self)@ == PasswordView {
                pwd_block_nonce: final(self)@.pwd_block_nonce,
                ..old(self)@
            } && exists|ct: Seq<u8>|
                password_block_holds(key@, final(self)@.pwd_block_nonce, ct, new_input@)
                    && final(context).file() == write_at(
                    old(context).file(),
                    block_offset(old(self)@.pwd_block as int),
                    ct,
                )),
    {
        proof {
            use_type_invariant(&*self);
        }
        let enc_data = match seal_password(&new_input, key) {
            Ok(e) => e,
            Err(e) => return Err(e),
        };
        // Because this is a password we can change in place
        let ghost ct = enc_data.data@;
        match context.change_data(self.pwd_block, enc_data.data) {
            Ok(()) => {},
            Err(e) => return Err(VaultChangeError::FileChangeError(e)),
        }
        self.pwd_block_nonce = enc_data.nonce;
        proof {
            assert(password_block_holds(key@, self@.pwd_block_nonce, ct, new_input@));
        }
        Ok(())
    }

    /// Rename the entry (at most 128 bytes of UTF-8) and rewrite its entry block.
    pub fn rename(&mut self, new_name: String, key: &[u8], context: &mut VaultContext) -> (r: Result<
        (),
        RenameError,
    >)
        requires
            key@.len() == KEY_LENGTH,
            old(self)@.block <= MAX_BLOCK_ID,
            old(context).file().len() + DATABLOCK_LENGTH <= usize::MAX,
        ensures
            final(context).empty() == old(context).empty(),
            encode_utf8(new_name@).len() > VAULTNAME_LENGTH ==> (r matches Err(RenameError::NameError(e))
                && e.len == encode_utf8(new_name@).len() && final(self)@ == old(self)@
                && final(context).file() == old(context).file()),
            encode_utf8(new_name@).len() <= VAULTNAME_LENGTH ==> (r is Ok && final(self)@ == PasswordView {
                name: name_field(new_name@),
                ..old(self)@
            } && rewritten_entry_block(
                old(context).file(),
                final(context).file(),
                final(self)@.block,
                PASSWORDENTRY_TYPE,
                final(self)@.next,
                password_plain(final(self)@),
                key@,
            )),
    {
        let name_len = new_name.as_str().as_bytes().len();
        if name_len > VAULTNAME_LENGTH {
            return Err(RenameError::NameError(NameLengthExceededError { len: name_len }));
        }
        self.name = name_buffer(new_name.as_str());
        let new_entry = match self.serialize(key) {
            Ok(b) => b,
            Err(e) => {
                assert(false);
                return Err(RenameError::SerializationError(e));
            },
        };
        let mut data: Vec<u8> = Vec::new();
        put_slice(&mut data, &new_entry);
        let _ = context.change_data(self.block, data);
        Ok(())
    }
}

/// The vault file after an entry block was rewritten in place: when the block lies within the
/// file, the entry block with the given type, next and (encrypted) fields is written over it
/// (opening the seal gives the fields back, and the seal is the tag's length longer than they
/// are); otherwise the file is unchanged.
pub open spec fn rewritten_entry_block(
    before: Seq<u8>,
    after: Seq<u8>,
    block: u64,
    entry_type: u8,
    next: i64,
    plain: Seq<u8>,
    key: Seq<u8>,
) -> bool {
    if block_offset(block as int) <= before.len() {
        exists|eb: Seq<u8>|
            #![trigger write_at(before, block_offset(block as int), eb)]
            after == write_at(before, block_offset(block as int), eb) && eb.len() == DATABLOCK_LENGTH
                && eb == entry_block_bytes(
                entry_type,
                next,
                eb.subrange(9, 21),
                aes256gcm_seal(key, eb.subrange(9, 21), plain),
            ) && spec_decrypt(key, eb.subrange(9, 21), aes256gcm_seal(key, eb.subrange(9, 21), plain))
                == Ok::<Seq<u8>, ()>(plain) && aes256gcm_seal(key, eb.subrange(9, 21), plain).len() == plain.len()
                + AES_TAG_LENGTH
    } else {
        after == before
    }
}

/// The secret a secret file occupies: the data blocks `start..start+size` of the vault file,
/// decrypted with `nonce` and `key` (the padding to whole blocks included). `None` when the
/// blocks run past the end of the file or do not decrypt.
pub open spec fn spec_stored_secret(file: Seq<u8>, start: u64, size: u64, nonce: Seq<u8>, key: Seq<u8>) -> Option<
    Seq<u8>,
> {
    let off = block_offset(start as int);
    let end = block_offset(start + size);
    if end <= file.len() {
        match spec_decrypt(key, nonce, file.subrange(off, end)) {
            Ok(p) => Some(p),
            Err(_) => None,
        }
    } else {
        None
    }
}

/// The number of data blocks the encrypted contents of a secret file fill.
pub open spec fn secret_block_count(n: nat) -> nat {
    (((secret_padded_len(n) + AES_TAG_LENGTH) as int) / (DATABLOCK_LENGTH as int)) as nat
}

impl SecretFileEntry {
    /// Read the blocks of the secret and decrypt them.
    pub fn retrieve_secret(&self, context: &VaultContext, key: &[u8]) -> (r: Result<Vec<u8>, RetrieveSecretError>)
        requires
            key@.len() == KEY_LENGTH,
            blocks_valid(VaultEntryView::Secret(self@)),
        ensures
            match spec_stored_secret(context.file(), self@.start, self@.size, self@.nonce, key@) {
                Some(p) => r matches Ok(v) && v@ == p,
                None => r is Err,
            },
            block_offset(self@.start + self@.size) > context.file().len() ==> r matches Err(
                RetrieveSecretError::VaultFileError(_),
            ),
            block_offset(self@.start + self@.size) <= context.file().len() && spec_stored_secret(
                context.file(),
                self@.start,
                self@.size,
                self@.nonce,
                key@,
            ) is None ==> r matches Err(RetrieveSecretError::DecryptError(_)),
    {
        assert(self.size * 272 <= u128::MAX) by (nonlinear_arith)
            requires
                self.size <= u64::MAX,
        ;
        if self.size as u128 * DATABLOCK_LENGTH as u128 > usize::MAX as u128 {
            // such blocks cannot lie within the file
            let flen = context.file_data().len();
            proof {
                assert(213 + (self@.start + self@.size) * 272 > flen) by (nonlinear_arith)
                    requires
                        self@.size * 272 > usize::MAX,
                        flen <= usize::MAX,
                ;
            }
            return Err(RetrieveSecretError::VaultFileError(VaultFileError::UnexpectedEOF));
        }
        let range = BlockRange { start: self.start, end: self.start + (self.size - 1) };
        let enc_datablock = match context.read_dyn_datablock(range) {
            Ok(b) => b,
            Err(e) => return Err(RetrieveSecretError::VaultFileError(e)),
        };
        match decrypt_region_dyn(enc_datablock, &self.nonce, key) {
            Ok(d) => Ok(d),
            Err(e) => Err(RetrieveSecretError::DecryptError(e)),
        }
    }

    /// Create a secret file entry: the contents are padded to whole data blocks, encrypted into
    /// new blocks, then the entry block is written.
    pub fn new(name: String, contents: Vec<u8>, context: &mut VaultContext, key: &[u8]) -> (r: Result<
        Self,
        VaultChangeError,
    >)
        requires
            key@.len() == KEY_LENGTH,
            contents@.len() + AES_TAG_LENGTH + DATABLOCK_LENGTH <= usize::MAX,
            can_allocate(*old(context), secret_block_count(contents@.len()) as int, contents@.len()),
        ensures
            encode_utf8(name@).len() > VAULTNAME_LENGTH ==> (r matches Err(
                VaultChangeError::ExceededNameLength(e),
            ) && e.len == encode_utf8(name@).len() && *final(context) == *old(context)),
            encode_utf8(name@).len() <= VAULTNAME_LENGTH && secret_padded_len(contents@.len())
                > AES_MAX_PLAINTEXT ==> (r matches Err(VaultChangeError::CryptographyError(_))
                && *final(context) == *old(context)),
            encode_utf8(name@).len() <= VAULTNAME_LENGTH && secret_padded_len(contents@.len())
                <= AES_MAX_PLAINTEXT ==> (r matches Ok(e) && {
                let n = secret_block_count(contents@.len()) as int;
                let r1 = occupy_ranges(old(context).empty().ranges(), n);
                &&& e@.name == name_field(name@)
                &&& e@.next == -1
                &&& e@.start == alloc_start(old(context).empty().ranges(), n)
                &&& e@.size == n
                &&& e@.block == alloc_start(r1, 1)
                &&& blocks_valid(VaultEntryView::Secret(e@))
                &&& final(context).file().len() <= old(context).file().len() + (n + 1) * DATABLOCK_LENGTH
                &&& final(context).empty().wf()
                &&& final(context).empty().ranges() == occupy_ranges(r1, 1)
                &&& exists|ct: Seq<u8>, eb: Seq<u8>|
                    final(context).file() == block_written(
                        block_written(old(context).file(), e@.start, ct),
                        e@.block,
                        eb,
                    ) && ct.len() == n * DATABLOCK_LENGTH && eb.len() == DATABLOCK_LENGTH && spec_decrypt(key@, e@.nonce, ct) == Ok::<
                        Seq<u8>,
                        (),
                    >(pad_to(contents@, secret_padded_len(contents@.len())))
                        && eb == entry_block_bytes(
                        SECRETENTRY_TYPE,
                        e@.next,
                        eb.subrange(9, 21),
                        aes256gcm_seal(key@, eb.subrange(9, 21), secret_plain(e@)),
                    ) && spec_decrypt(
                        key@,
                        eb.subrange(9, 21),
                        aes256gcm_seal(key@, eb.subrange(9, 21), secret_plain(e@)),
                    ) == Ok::<Seq<u8>, ()>(secret_plain(e@)) && aes256gcm_seal(
                        key@,
                        eb.subrange(9, 21),
                        secret_plain(e@),
                    ).len() == secret_plain(e@).len() + AES_TAG_LENGTH
                &&& name_wf(e@.name)
                &&& e@.nonce.len() == AES_NONCE_LENGTH
            }),
    {
        let name_len = name.as_str().as_bytes().len();
        if name_len > VAULTNAME_LENGTH {
            return Err(VaultChangeError::ExceededNameLength(NameLengthExceededError { len: name_len }));
        }
        let namebuffer = name_buffer(name.as_str());
        let data = match encrypt_file_data(contents.as_slice(), key) {
            Ok(d) => d,
            Err(e) => return Err(VaultChangeError::CryptographyError(e)),
        };
        let ghost file0 = context.file();
        let ghost n = secret_block_count(contents@.len()) as int;
        assert(data.data@.len() / (DATABLOCK_LENGTH as nat) == n);
        let secret_blk = match context.new_block(data.data) {
            Ok(b) => b,
            Err(e) => {
                assert(false);
                return Err(VaultChangeError::FileChangeError(e));
            },
        };
        proof {
            old(context).empty().lemma_ranges_wf();
            crate::vault::utils::lemma_occupy_ranges_end(old(context).empty().ranges(), n);
        }
        let size = secret_blk.len() as u64;
        let mut entry = SecretFileEntry {
            block: 0,
            name: namebuffer,
            next: -1,
            start: secret_blk.start,
            size,
            nonce: data.nonce,
        };
        let serialized_entry = match entry.serialize(key) {
            Ok(b) => b,
            Err(e) => {
                assert(false);
                return Err(VaultChangeError::SerializeError(e));
            },
        };
        let entry_blk = write_entry_block(context, serialized_entry);
        entry.block = entry_blk.start;
        proof {
            assert(context.file() == block_written(
                block_written(file0, entry@.start, data.data@),
                entry@.block,
                serialized_entry@,
            ));
        }
        Ok(entry)
    }

    /// Rename the entry (at most 128 bytes of UTF-8) and rewrite its entry block.
    pub fn rename(&mut self, new_name: String, key: &[u8], context: &mut VaultContext) -> (r: Result<
        (),
        RenameError,
    >)
        requires
            key@.len() == KEY_LENGTH,
            old(self)@.block <= MAX_BLOCK_ID,
            old(context).file().len() + DATABLOCK_LENGTH <= usize::MAX,
        ensures
            final(context).empty() == old(context).empty(),
            encode_utf8(new_name@).len() > VAULTNAME_LENGTH ==> (r matches Err(RenameError::NameError(e))
                && e.len == encode_utf8(new_name@).len() && final(self)@ == old(self)@
                && final(context).file() == old(context).file()),
            encode_utf8(new_name@).len() <= VAULTNAME_LENGTH ==> (r is Ok && final(self)@ == SecretView {
                name: name_field(new_name@),
                ..old(self)@
            } && rewritten_entry_block(
                old(context).file(),
                final(context).file(),
                final(self)@.block,
                SECRETENTRY_TYPE,
                final(self)@.next,
                secret_plain(final(self)@),
                key@,
            )),
    {
        let name_len = new_name.as_str().as_bytes().len();
        if name_len > VAULTNAME_LENGTH {
            return Err(RenameError::NameError(NameLengthExceededError { len: name_len }));
        }
        self.name = name_buffer(new_name.as_str());
        let new_entry = match self.serialize(key) {
            Ok(b) => b,
            Err(e) => {
                assert(false);
                return Err(RenameError::SerializationError(e));
            },
        };
        let mut data: Vec<u8> = Vec::new();
        put_slice(&mut data, &new_entry);
        let _ = context.change_data(self.block, data);
        Ok(())
    }
}

impl SecretFileEntry {
    /// Replace the contents of the secret: they are padded and encrypted with a fresh nonce into
    /// the secret's blocks, which shrink, stay, or move to new blocks when they grow; the entry
    /// block is rewritten with the new range and nonce.
    #[verifier::spinoff_prover]
    #[verifier::rlimit(40)]
    pub fn change_secret(&mut self, context: &mut VaultContext, key: &[u8], contents: Vec<u8>) -> (r: Result<
        (),
        VaultChangeError,
    >)
        requires
            key@.len() == KEY_LENGTH,
            blocks_valid(VaultEntryView::Secret(old(self)@)),
            contents@.len() + AES_TAG_LENGTH + DATABLOCK_LENGTH <= usize::MAX,
            old(context).empty().wf(),
            old(context).empty().span() + secret_block_count(contents@.len()) <= MAX_BLOCK_ID,
            old(self)@.start + old(self)@.size + secret_block_count(contents@.len()) <= MAX_BLOCK_ID,
            old(context).file().len() + (old(self)@.size + 1) * DATABLOCK_LENGTH + contents@.len()
                + AES_TAG_LENGTH + DATABLOCK_LENGTH <= usize::MAX,
        ensures
            final(context).empty().wf(),
            final(self)@.name == old(self)@.name && final(self)@.block == old(self)@.block
                && final(self)@.next == old(self)@.next,
            secret_padded_len(contents@.len()) > AES_MAX_PLAINTEXT ==> (r matches Err(
                VaultChangeError::CryptographyError(_),
            ) && final(self)@ == old(self)@ && *final(context) == *old(context)),
            secret_padded_len(contents@.len()) <= AES_MAX_PLAINTEXT && secret_block_count(contents@.len())
                == old(self)@.size ==> (r is Ok && final(self)@.start == old(self)@.start
                && final(self)@.size == old(self)@.size),
            secret_padded_len(contents@.len()) <= AES_MAX_PLAINTEXT && secret_block_count(contents@.len())
                < old(self)@.size ==> (r is Ok && final(self)@.start == old(self)@.start
                && final(self)@.size == secret_block_count(contents@.len())),
            secret_padded_len(contents@.len()) <= AES_MAX_PLAINTEXT && secret_block_count(contents@.len())
                > old(self)@.size && block_offset(old(self)@.start as int) <= old(context).file().len()
                ==> (r is Ok && final(self)@.size == secret_block_count(contents@.len())),
            r is Ok ==> blocks_valid(VaultEntryView::Secret(final(self)@)),
            r is Err ==> final(self)@ == old(self)@,
            r is Ok ==> same_outside(
                old(context).file(),
                final(context).file(),
                occupied(VaultEntryView::Secret(old(self)@)).union(occupied(VaultEntryView::Secret(final(self)@))),
            ),
            r is Ok && secret_block_count(contents@.len()) > old(self)@.size && (exists|k: int|
                0 <= k < old(context).empty().ranges().len() && fits(
                    #[trigger] old(context).empty().ranges()[k],
                    secret_block_count(contents@.len()) as int,
                )) ==> forall|x: int|
                final(self)@.start <= x < final(self)@.start + final(self)@.size ==> #[trigger] old(
                    context,
                ).empty()@.contains(x) || old(self)@.start <= x < old(self)@.start + old(self)@.size,
            secret_padded_len(contents@.len()) <= AES_MAX_PLAINTEXT && secret_block_count(contents@.len())
                <= old(self)@.size && block_offset(old(self)@.start as int) <= old(context).file().len() && !(
            old(self)@.start <= old(self)@.block < old(self)@.start + old(self)@.size) ==> spec_stored_secret(
                final(context).file(),
                final(self)@.start,
                final(self)@.size,
                final(self)@.nonce,
                key@,
            ) == Some(pad_to(contents@, secret_padded_len(contents@.len()))),
            secret_padded_len(contents@.len()) <= AES_MAX_PLAINTEXT && secret_block_count(contents@.len())
                > old(self)@.size && block_offset(old(self)@.start as int) <= old(context).file().len()
                && block_offset(final(self)@.start as int) <= old(context).file().len() && !(final(self)@.start
                <= final(self)@.block < final(self)@.start + final(self)@.size) ==> spec_stored_secret(
                final(context).file(),
                final(self)@.start,
                final(self)@.size,
                final(self)@.nonce,
                key@,
            ) == Some(pad_to(contents@, secret_padded_len(contents@.len()))),
    {
        proof {
            use_type_invariant(&*self);
        }
        let data = match encrypt_file_data(contents.as_slice(), key) {
            Ok(d) => d,
            Err(e) => return Err(VaultChangeError::CryptographyError(e)),
        };
        let ghost n = secret_block_count(contents@.len()) as int;
        let ghost ct = data.data@;
        let ghost plain = pad_to(contents@, secret_padded_len(contents@.len()));
        let ghost off = block_offset(self.start as int);
        assert(data.data@.len() / (DATABLOCK_LENGTH as nat) == n);
        let old_range = BlockRange { start: self.start, end: self.start + (self.size - 1) };
        let new_block = match context.change_dyn_block(old_range, data.data) {
            Ok(b) => b,
            Err(e) => return Err(VaultChangeError::FileChangeError(e)),
        };
        if let Some(block) = new_block {
            self.start = block.start;
            self.size = block.len() as u64;
            proof {
                let o = old(self)@;
                let free0 = old(context).empty()@;
                let rs = old(context).empty().ranges();
                if n > o.size && exists|k: int| 0 <= k < rs.len() && fits(#[trigger] rs[k], n) {
                    let k = choose|k: int| 0 <= k < rs.len() && fits(#[trigger] rs[k], n);
                    assert(fits(rs[k], (ct.len() / (DATABLOCK_LENGTH as nat)) as int));
                    assert(Set::new(|y: int| block.spec_contains(y)).subset_of(
                        free0.union(Set::new(|y: int| old_range.spec_contains(y))),
                    ));
                    assert forall|x: int| self@.start <= x < self@.start + self@.size implies #[trigger] free0.contains(x)
                        || o.start <= x < o.start + o.size by {
                        assert(Set::new(|y: int| block.spec_contains(y)).contains(x));
                    }
                }
            }
        }
        self.nonce = data.nonce;
        let serialized_entry = match self.serialize(key) {
            Ok(b) => b,
            Err(e) => {
                assert(false);
                return Err(VaultChangeError::SerializeError(e));
            },
        };
        let mut entry_data: Vec<u8> = Vec::new();
        put_slice(&mut entry_data, &serialized_entry);
        let ghost file1 = context.file();
        let ghost ed = entry_data@;
        if context.file_data().len() <= usize::MAX - DATABLOCK_LENGTH {
            let _ = context.change_data(self.block, entry_data);
        }
        proof {
            let o = old(self)@;
            let s2 = self@;
            let so = Set::new(|x: int| old_range.spec_contains(x));
            let sn = match new_block {
                Some(b) => Set::new(|x: int| b.spec_contains(x)),
                None => so,
            };
            let eb = BlockRange { start: s2.block, end: s2.block };
            let se = Set::new(|x: int| eb.spec_contains(x));
            if context.file() != file1 {
                assert(ed.len() == DATABLOCK_LENGTH);
                lemma_written_inside_range(file1, eb, ed);
            } else {
                lemma_same_outside_refl(file1, se);
            }
            assert(same_outside(old(context).file(), file1, so.union(sn))) by {
                if new_block is None {
                    assert(so.union(sn) =~= so);
                }
            }
            lemma_same_outside_union(old(context).file(), file1, context.file(), so.union(sn), se);
            assert(occupied(VaultEntryView::Secret(o)) =~= Set::new(|b: int| o.start <= b <= o.start + o.size - 1).insert(o.block as int));
            assert(so.union(sn).union(se).subset_of(
                occupied(VaultEntryView::Secret(o)).union(occupied(VaultEntryView::Secret(s2))),
            ));
            lemma_same_outside_larger(
                old(context).file(),
                context.file(),
                so.union(sn).union(se),
                occupied(VaultEntryView::Secret(o)).union(occupied(VaultEntryView::Secret(s2))),
            );
        }
        proof {
            let o = old(self)@;
            if n <= o.size && off <= old(context).file().len() && !(o.start <= o.block < o.start + o.size) {
                assert(ct.len() == n * DATABLOCK_LENGTH) by (nonlinear_arith)
                    requires
                        ct.len() / 272 == n,
                        ct.len() % 272 == 0,
                ;
                assert(self@.start == o.start && self@.size == n);
                assert(block_offset(self@.start + self@.size) == off + ct.len()) by (nonlinear_arith)
                    requires
                        off == 213 + o.start * 272,
                        ct.len() == n * 272,
                        self@.start == o.start,
                        self@.size == n,
                ;
                let bo = block_offset(o.block as int);
                if o.block < o.start {
                    assert(bo + DATABLOCK_LENGTH <= off) by (nonlinear_arith)
                        requires
                            o.block < o.start,
                            bo == 213 + o.block * 272,
                            off == 213 + o.start * 272,
                    ;
                } else {
                    assert(bo >= off + ct.len()) by (nonlinear_arith)
                        requires
                            o.block >= o.start + o.size,
                            n <= o.size,
                            bo == 213 + o.block * 272,
                            off == 213 + o.start * 272,
                            ct.len() == n * 272,
                    ;
                }
                assert(context.file().subrange(off, off + ct.len()) =~= file1.subrange(off, off + ct.len()));
                assert(context.file().subrange(off, off + ct.len()) == ct);
            }
            let s2 = self@;
            let off2 = block_offset(s2.start as int);
            if n > o.size && off <= old(context).file().len() && off2 <= old(context).file().len() && !(s2.start
                <= s2.block < s2.start + s2.size) {
                assert(ct.len() == n * DATABLOCK_LENGTH) by (nonlinear_arith)
                    requires
                        ct.len() / 272 == n,
                        ct.len() % 272 == 0,
                ;
                assert(s2.size == n);
                assert(block_offset(s2.start + s2.size) == off2 + ct.len()) by (nonlinear_arith)
                    requires
                        off2 == 213 + s2.start * 272,
                        ct.len() == n * 272,
                        s2.size == n,
                ;
                let bo = block_offset(s2.block as int);
                if s2.block < s2.start {
                    assert(bo + DATABLOCK_LENGTH <= off2) by (nonlinear_arith)
                        requires
                            s2.block < s2.start,
                            bo == 213 + s2.block * 272,
                            off2 == 213 + s2.start * 272,
                    ;
                } else {
                    assert(bo >= off2 + ct.len()) by (nonlinear_arith)
                        requires
                            s2.block >= s2.start + s2.size,
                            s2.size == n,
                            bo == 213 + s2.block * 272,
                            off2 == 213 + s2.start * 272,
                            ct.len() == n * 272,
                    ;
                }
                assert(context.file().subrange(off2, off2 + ct.len()) =~= file1.subrange(off2, off2 + ct.len()));
                assert(context.file().subrange(off2, off2 + ct.len()) == ct);
            }
        }
        Ok(())
    }
}

impl DirectoryEntry {
    /// Create an empty directory entry named `dir_name` (at most 128 bytes of UTF-8) and write
    /// its entry block.
    pub fn new(dir_name: String, key: &[u8], context: &mut VaultContext) -> (r: Result<Self, VaultChangeError>)
        requires
            key@.len() == KEY_LENGTH,
            old(context).empty().wf(),
            old(context).empty().ranges().len() > 0,
            old(context).empty().ranges().last().end + 1 <= MAX_BLOCK_ID,
            old(context).file().len() + DATABLOCK_LENGTH <= usize::MAX,
        ensures
            encode_utf8(dir_name@).len() > VAULTENTRYNAME_LENGTH ==> (r matches Err(
                VaultChangeError::ExceededNameLength(e),
            ) && e.len == encode_utf8(dir_name@).len() && *final(context) == *old(context)),
            encode_utf8(dir_name@).len() <= VAULTENTRYNAME_LENGTH ==> (r matches Ok(d) && {
                &&& d.dview().name == name_field(dir_name@)
                &&& d.dview().next == -1
                &&& d.dview().first_child == -1
                &&& d.dview().children.len() == 0
                &&& d.dview().block == alloc_start(old(context).empty().ranges(), 1)
                &&& d.dview().block <= MAX_BLOCK_ID
                &&& final(context).file().len() <= old(context).file().len() + DATABLOCK_LENGTH
                &&& final(context).empty().wf()
                &&& final(context).empty().ranges() == occupy_ranges(old(context).empty().ranges(), 1)
                &&& exists|eb: Seq<u8>|
                    final(context).file() == block_written(old(context).file(), d.dview().block, eb)
                        && eb == entry_block_bytes(
                        DIRENTRY_TYPE,
                        -1i64,
                        eb.subrange(9, 21),
                        aes256gcm_seal(key@, eb.subrange(9, 21), directory_plain(d.dview())),
                    ) && eb.len() == DATABLOCK_LENGTH && spec_decrypt(
                        key@,
                        eb.subrange(9, 21),
                        aes256gcm_seal(key@, eb.subrange(9, 21), directory_plain(d.dview())),
                    ) == Ok::<Seq<u8>, ()>(directory_plain(d.dview())) && aes256gcm_seal(
                        key@,
                        eb.subrange(9, 21),
                        directory_plain(d.dview()),
                    ).len() == directory_plain(d.dview()).len() + AES_TAG_LENGTH
                &&& name_wf(d.dview().name)
            }),
    {
        let name_len = dir_name.as_str().as_bytes().len();
        if name_len > VAULTENTRYNAME_LENGTH {
            return Err(VaultChangeError::ExceededNameLength(NameLengthExceededError { len: name_len }));
        }
        let mut entry = DirectoryEntry {
            name: name_buffer(dir_name.as_str()),
            block: 0,
            next: -1,
            first_child: -1,
            children: Vec::new(),
        };
        let serialized_entry = match entry.serialize(key) {
            Ok(b) => b,
            Err(e) => {
                assert(false);
                return Err(VaultChangeError::SerializeError(e));
            },
        };
        let block = write_entry_block(context, serialized_entry);
        entry.block = block.start;
        assert(entry.dview().children =~= Seq::<VaultEntryView>::empty());
        Ok(entry)
    }

    /// The root directory of a new vault: named "root", in block 0, without entries.
    pub fn init_root() -> (r: DirectoryEntry)
        ensures
            r.dview().name == name_field("root"@),
            r.dview().block == 0,
            r.dview().next == -1,
            r.dview().first_child == -1,
            r.dview().children.len() == 0,
    {
        proof {
            reveal_strlit("root");
            assert(vstd::utf8::is_ascii_chars("root"@));
            vstd::utf8::is_ascii_chars_encode_utf8("root"@);
        }
        let r = DirectoryEntry {
            name: name_buffer("root"),
            block: 0,
            next: -1,
            first_child: -1,
            children: Vec::new(),
        };
        assert(r.dview().children =~= Seq::<VaultEntryView>::empty());
        r
    }

    /// Rename the directory (at most 128 bytes of UTF-8) and rewrite its entry block.
    pub fn rename(&mut self, new_name: String, key: &[u8], context: &mut VaultContext) -> (r: Result<
        (),
        RenameError,
    >)
        requires
            key@.len() == KEY_LENGTH,
            old(self).dview().block <= MAX_BLOCK_ID,
            old(context).file().len() + DATABLOCK_LENGTH <= usize::MAX,
        ensures
            final(context).empty() == old(context).empty(),
            encode_utf8(new_name@).len() > VAULTNAME_LENGTH ==> (r matches Err(RenameError::NameError(e))
                && e.len == encode_utf8(new_name@).len() && final(self).dview() == old(self).dview()
                && final(context).file() == old(context).file()),
            encode_utf8(new_name@).len() <= VAULTNAME_LENGTH ==> (r is Ok && final(self).dview()
                == DirectoryView { name: name_field(new_name@), ..old(self).dview() }
                && rewritten_entry_block(
                old(context).file(),
                final(context).file(),
                final(self).dview().block,
                DIRENTRY_TYPE,
                final(self).dview().next,
                directory_plain(final(self).dview()),
                key@,
            )),
    {
        let name_len = new_name.as_str().as_bytes().len();
        if name_len > VAULTNAME_LENGTH {
            return Err(RenameError::NameError(NameLengthExceededError { len: name_len }));
        }
        self.name = name_buffer(new_name.as_str());
        let new_entry = match self.serialize(key) {
            Ok(b) => b,
            Err(e) => {
                assert(false);
                return Err(RenameError::SerializationError(e));
            },
        };
        let mut data: Vec<u8> = Vec::new();
        put_slice(&mut data, &new_entry);
        let _ = context.change_data(self.block, data);
        Ok(())
    }
}

/// The result of retrieving the secret of an entry
#[derive(Debug)]
pub enum EntryResult {
    Password(String),
    Secret(Vec<u8>),
    Directory(String),
}

/// The entry with its name field replaced.
pub open spec fn with_name(e: VaultEntryView, name: Seq<u8>) -> VaultEntryView {
    match e {
        VaultEntryView::Password(p) => VaultEntryView::Password(PasswordView { name, ..p }),
        VaultEntryView::Secret(s) => VaultEntryView::Secret(SecretView { name, ..s }),
        VaultEntryView::Directory(d) => VaultEntryView::Directory(DirectoryView { name, ..d }),
    }
}

/// The entry with its next block replaced.
pub open spec fn with_next(e: VaultEntryView, next: i64) -> VaultEntryView {
    match e {
        VaultEntryView::Password(p) => VaultEntryView::Password(PasswordView { next, ..p }),
        VaultEntryView::Secret(s) => VaultEntryView::Secret(SecretView { next, ..s }),
        VaultEntryView::Directory(d) => VaultEntryView::Directory(DirectoryView { next, ..d }),
    }
}

/// The entry that an entry block with these fields decodes to, by its type (a directory without
/// its entries, which have entry blocks of their own); `None` for another type or when it does
/// not decode.
pub open spec fn decoded_entry(entry_type: u8, nonce: Seq<u8>, data: Seq<u8>, next: i64, key: Seq<u8>, block: u64) -> Option<
    VaultEntryView,
> {
    if entry_type == PASSWORDENTRY_TYPE {
        match spec_build_password(nonce, data, next, key, block) {
            Some(p) => Some(VaultEntryView::Password(p)),
            None => None,
        }
    } else if entry_type == SECRETENTRY_TYPE {
        match spec_build_secret(nonce, data, next, key, block) {
            Some(s) => Some(VaultEntryView::Secret(s)),
            None => None,
        }
    } else if entry_type == DIRENTRY_TYPE {
        match spec_build_directory(nonce, data, next, key, block) {
            Some(d) => Some(VaultEntryView::Directory(d)),
            None => None,
        }
    } else {
        None
    }
}

/// The entry without the entries inside it (a directory with none).
pub open spec fn without_children(e: VaultEntryView) -> VaultEntryView {
    match e {
        VaultEntryView::Directory(d) => VaultEntryView::Directory(DirectoryView { children: Seq::empty(), ..d }),
        _ => e,
    }
}

/// The law of serializing any entry: an entry block laid out as `VaultEntry::serialize` lays it
/// out (type, `next`, nonce, the sealed fields) decodes back, by its type, to the entry (without
/// the entries inside a directory), when the name is a 128-byte UTF-8 field and the nonces are
/// 12 bytes.
pub proof fn lemma_entry_roundtrip(e: VaultEntryView, key: Seq<u8>, bytes: Seq<u8>, d: DataBlockEntry)
    requires
        name_wf(e.name()),
        e matches VaultEntryView::Password(p) ==> p.pwd_block_nonce.len() == AES_NONCE_LENGTH,
        e matches VaultEntryView::Secret(s) ==> s.nonce.len() == AES_NONCE_LENGTH,
        bytes.len() == DATABLOCK_LENGTH,
        bytes == entry_block_bytes(
            entry_plain(e).0,
            e.next(),
            bytes.subrange(9, 21),
            aes256gcm_seal(key, bytes.subrange(9, 21), entry_plain(e).1),
        ),
        spec_decrypt(key, bytes.subrange(9, 21), aes256gcm_seal(key, bytes.subrange(9, 21), entry_plain(e).1))
            == Ok::<Seq<u8>, ()>(entry_plain(e).1),
        aes256gcm_seal(key, bytes.subrange(9, 21), entry_plain(e).1).len() == entry_plain(e).1.len() + AES_TAG_LENGTH,
        crate::vault::utils::entry_block_matches(d, bytes),
    ensures
        d.entry_type == entry_plain(e).0,
        decoded_entry(d.entry_type, d.nonce@, d.data@, d.next, key, e.block()) == Some(without_children(e)),
{
    match e {
        VaultEntryView::Password(p) => {
            assert(password_plain(p).len() == PWDENTRY_ENC_LENGTH);
            lemma_password_roundtrip(p, key, bytes, d);
        },
        VaultEntryView::Secret(sv) => {
            assert(secret_plain(sv).len() == SECENTRY_ENC_LENGTH);
            lemma_secret_roundtrip(sv, key, bytes, d);
        },
        VaultEntryView::Directory(dv) => {
            assert(directory_plain(dv).len() == DIRENTRY_ENC_LENGTH);
            lemma_directory_roundtrip(dv, key, bytes, d);
        },
    }
}

/// The encrypted fields and type of an entry's entry block.
pub open spec fn entry_plain(e: VaultEntryView) -> (u8, Seq<u8>) {
    match e {
        VaultEntryView::Password(p) => (PASSWORDENTRY_TYPE, password_plain(p)),
        VaultEntryView::Secret(s) => (SECRETENTRY_TYPE, secret_plain(s)),
        VaultEntryView::Directory(d) => (DIRENTRY_TYPE, directory_plain(d)),
    }
}

impl VaultEntry {
    /// Retrieve the secret of a password or secret file entry; a directory holds none.
    pub fn retrieve_secret(&self, context: &VaultContext, key: &[u8]) -> (r: Result<EntryResult, RetrieveEntryError>)
        requires
            key@.len() == KEY_LENGTH,
            blocks_valid(self.eview()),
        ensures
            match self.eview() {
                VaultEntryView::Password(p) => match spec_stored_password(context.file(), p.pwd_block, p.pwd_block_nonce, key@) {
                    Some(pw) => r matches Ok(EntryResult::Password(s)) && s@ == pw,
                    None => r matches Err(RetrieveEntryError::Secret(_)),
                },
                VaultEntryView::Secret(sv) => match spec_stored_secret(context.file(), sv.start, sv.size, sv.nonce, key@) {
                    Some(d) => r matches Ok(EntryResult::Secret(v)) && v@ == d,
                    None => r matches Err(RetrieveEntryError::Secret(_)),
                },
                VaultEntryView::Directory(_) => r matches Err(
                    RetrieveEntryError::InvalidOperation(Operation::RetrieveSecret, EntryType::Directory),
                ),
            },
    {
        match self {
            VaultEntry::Password(pwd) => match pwd.retrieve_secret(context, key) {
                Ok(s) => Ok(EntryResult::Password(s)),
                Err(e) => Err(RetrieveEntryError::Secret(e)),
            },
            VaultEntry::Secret(sec) => match sec.retrieve_secret(context, key) {
                Ok(d) => Ok(EntryResult::Secret(d)),
                Err(e) => Err(RetrieveEntryError::Secret(e)),
            },
            VaultEntry::Directory(_) => Err(
                RetrieveEntryError::InvalidOperation(Operation::RetrieveSecret, EntryType::Directory),
            ),
        }
    }

    /// Rename the entry (at most 128 bytes of UTF-8) and rewrite its entry block.
    pub fn rename(&mut self, new_name: String, key: &[u8], context: &mut VaultContext) -> (r: Result<
        (),
        RenameError,
    >)
        requires
            key@.len() == KEY_LENGTH,
            old(self).eview().block() <= MAX_BLOCK_ID,
            old(context).file().len() + DATABLOCK_LENGTH <= usize::MAX,
        ensures
            final(context).empty() == old(context).empty(),
            encode_utf8(new_name@).len() > VAULTNAME_LENGTH ==> (r matches Err(RenameError::NameError(e))
                && e.len == encode_utf8(new_name@).len() && final(self).eview() == old(self).eview()
                && final(context).file() == old(context).file()),
            encode_utf8(new_name@).len() <= VAULTNAME_LENGTH ==> (r is Ok && final(self).eview() == with_name(
                old(self).eview(),
                name_field(new_name@),
            ) && rewritten_entry_block(
                old(context).file(),
                final(context).file(),
                final(self).eview().block(),
                entry_plain(final(self).eview()).0,
                final(self).eview().next(),
                entry_plain(final(self).eview()).1,
                key@,
            )),
    {
        match self {
            Self::Directory(dir) => dir.rename(new_name, key, context),
            Self::Secret(sec) => sec.rename(new_name, key, context),
            Self::Password(pwd) => pwd.rename(new_name, key, context),
        }
    }

    /// Point the entry at a new next entry in its directory: the entry takes the new value, and
    /// the next field of its entry block is rewritten (an error when the block lies past the end
    /// of the file).
    pub fn change_next(&mut self, next_blk: i64, context: &mut VaultContext) -> (r: Result<(), FileChangeError>)
        requires
            old(self).eview().block() <= MAX_BLOCK_ID,
        ensures
            final(context).empty() == old(context).empty(),
            final(self).eview() == with_next(old(self).eview(), next_blk),
            block_offset(old(self).eview().block() as int) <= old(context).file().len() ==> (r is Ok
                && final(context).file() == write_at(
                old(context).file(),
                block_offset(old(self).eview().block() as int) + NEXT_OFFSET,
                be8(next_blk as u64),
            )),
            block_offset(old(self).eview().block() as int) > old(context).file().len() ==> (r is Err
                && final(context).file() == old(context).file()),
    {
        let block = self.entry_block();
        let res = context.change_next(block, next_blk);
        match self {
            Self::Secret(sec) => {
                proof {
                    use_type_invariant(&*sec);
                }
                sec.next = next_blk;
            },
            Self::Password(pwd) => {
                proof {
                    use_type_invariant(&*pwd);
                }
                pwd.next = next_blk;
            },
            Self::Directory(dir) => {
                proof {
                    use_type_invariant(&*dir);
                }
                dir.next = next_blk;
            },
        }
        res
    }
}

impl VaultEntry {
    /// The name field of the entry
    pub fn name_ref(&self) -> (r: &[u8; VAULTENTRYNAME_LENGTH])
        ensures
            r@ == self.eview().name(),
    {
        match self {
            VaultEntry::Password(p) => &p.name,
            VaultEntry::Secret(s) => &s.name,
            VaultEntry::Directory(d) => &d.name,
        }
    }

    /// A name field has 128 bytes.
    pub proof fn lemma_name_len(&self)
        ensures
            self.eview().name().len() == VAULTENTRYNAME_LENGTH,
    {
    }
}

impl PasswordEntry {
    /// The block holding the password
    pub fn secret_block(&self) -> (r: u64)
        ensures
            r == self@.pwd_block,
    {
        self.pwd_block
    }
}

impl SecretFileEntry {
    /// The first block of the secret and the number of its blocks
    pub fn secret_blocks(&self) -> (r: (u64, u64))
        ensures
            r.0 == self@.start,
            r.1 == self@.size,
    {
        (self.start, self.size)
    }
}

impl DirectoryEntry {
    /// The block of the first entry of the directory (negative when it is empty)
    pub fn get_first_child(&self) -> (r: i64)
        ensures
            r == self.dview().first_child,
    {
        self.first_child
    }

    /// Replace the entries of the directory
    pub(crate) fn set_children(&mut self, children: Vec<VaultEntry>)
        ensures
            final(self).dview() == (DirectoryView { children: children_views(children@), ..old(self).dview() }),
    {
        proof {
            use_type_invariant(&*self);
        }
        self.children = children;
    }
}

} // verus!
