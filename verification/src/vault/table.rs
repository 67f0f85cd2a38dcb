//! The table-based vault archive: a header with the encrypted vault key and table size, an
//! encrypted table of fixed-size entry records in tree order, and the encrypted data blocks.
pub mod listing;
pub mod manager;
pub mod records;

use vstd::prelude::*;
use vstd::string::*;
use std::collections::VecDeque;
use vstd::utf8::{decode_utf8, encode_utf8, valid_utf8};
use crate::crypt::{
    decrypt_region_dyn, decrypt_region, generate_user_key, pbkdf2_hmac_sha256, spec_decrypt, AES_NONCE_LENGTH,
    AES_TAG_LENGTH, IV_LENGTH, PBKDF2_ITERATIONS,
};
use crate::error::{InvalidFileReasons, OperationType, ReadFieldError, ReadVaultFileError, VaultEntryType, VaultError};
use crate::vault::codec::{array_at, copy_range, from_le8, get_u64_le, string_from_utf8};
use crate::vault::utils::{BlockRange, BlockSet};

verus! {

/// Length of the archive header: signature, version, name, user key IV, key region nonce and
/// the encrypted key region (vault key, table size, tag)
pub const HEADER_LENGTH: usize = 221;
/// Length of an entry record of the vault table
pub const VAULTENTRY_LENGTH: usize = 157;
/// Length of the vault key
pub const VAULTKEY_LENGTH: usize = 32;
/// Length of the encrypted key region: vault key, table size and tag
pub const ENCRYPTED_REGION_LENGTH: usize = 56;
/// Signature that starts every vault archive
pub const VAULT_SIGNATURE: u64 = 0x0000e111e0afbaca;
/// Version of the archive format
pub const VAULT_VERSION: u8 = 1;
pub const PASSWORDENTRY_TYPE: u8 = 0;
pub const SECRETENTRY_TYPE: u8 = 1;
pub const DIRENTRY_TYPE: u8 = 2;

/// What a password record holds
pub struct TablePasswordView {
    pub name: Seq<char>,
    pub block: u64,
    pub nonce: Seq<u8>,
}

/// What a secret file record holds
pub struct TableSecretView {
    pub name: Seq<char>,
    pub block: u64,
    pub size: u64,
    pub nonce: Seq<u8>,
}

/// What a directory holds: its name and its entries by name
pub struct TableDirectoryView {
    pub name: Seq<char>,
    pub children: Map<Seq<char>, TableEntryView>,
}

/// What an entry of the table-based archive holds
pub enum TableEntryView {
    Password(TablePasswordView),
    Secret(TableSecretView),
    Directory(TableDirectoryView),
}

/// Entry that holds a password
#[derive(Debug)]
pub struct PasswordEntry {
    /// Name of the password
    pub password_name: String,
    /// Id of the secret block
    pub secret_block_id: u64,
    /// Nonce used for decryption of the datablock
    pub nonce: [u8; 12],
}

/// Entry for an encrypted Secret File (like a recovery key or a keyfile, or any other kind of file
/// that needs to be kept secure)
#[derive(Debug)]
pub struct SecretFileEntry {
    /// Name of the secret
    pub secret_name: String,
    /// Id of the starting secret block
    pub secret_block_id: u64,
    /// Number of blocks of the secret file
    pub size: u64,
    /// Nonce used for decryption of the datablocks
    pub nonce: [u8; 12],
}

/// Entry that represents a directory in the vault structure; its entries have distinct names
#[derive(Debug)]
pub struct DirectoryEntry {
    /// Name of the directory
    pub directory_name: String,
    /// Entries that are in the directory
    children: Vec<VaultEntry>,
}

/// A vault entry found in the vault entry table
#[derive(Debug)]
pub enum VaultEntry {
    Password(PasswordEntry),
    Secret(SecretFileEntry),
    Directory(DirectoryEntry),
}

/// The record kind and name of a decoded entry record.
pub open spec fn record_name(data: Seq<u8>) -> Seq<u8> {
    data.subrange(1, 129)
}

/// The entry (and, for a directory, its number of entries) that a table record decodes to;
/// `None` for an unknown kind or a name that is not UTF-8.
pub open spec fn spec_read_entry(data: Seq<u8>) -> Option<(u64, TableEntryView)> {
    if !(data[0] == DIRENTRY_TYPE || data[0] == PASSWORDENTRY_TYPE || data[0] == SECRETENTRY_TYPE) || !valid_utf8(
        record_name(data),
    ) {
        None
    } else {
        let name = decode_utf8(record_name(data));
        if data[0] == DIRENTRY_TYPE {
            Some(
                (
                    from_le8(data.subrange(129, 137)),
                    TableEntryView::Directory(TableDirectoryView { name, children: Map::empty() }),
                ),
            )
        } else if data[0] == PASSWORDENTRY_TYPE {
            Some(
                (
                    0u64,
                    TableEntryView::Password(
                        TablePasswordView {
                            name,
                            block: from_le8(data.subrange(129, 137)),
                            nonce: data.subrange(137, 149),
                        },
                    ),
                ),
            )
        } else {
            Some(
                (
                    0u64,
                    TableEntryView::Secret(
                        TableSecretView {
                            name,
                            block: from_le8(data.subrange(129, 137)),
                            size: from_le8(data.subrange(137, 145)),
                            nonce: data.subrange(145, 157),
                        },
                    ),
                ),
            )
        }
    }
}

impl VaultEntry {
    /// What the entry holds
    pub open spec fn tview(&self) -> TableEntryView
        decreases self,
    {
        match self {
            VaultEntry::Password(p) => TableEntryView::Password(
                TablePasswordView { name: p.password_name@, block: p.secret_block_id, nonce: p.nonce@ },
            ),
            VaultEntry::Secret(s) => TableEntryView::Secret(
                TableSecretView {
                    name: s.secret_name@,
                    block: s.secret_block_id,
                    size: s.size,
                    nonce: s.nonce@,
                },
            ),
            VaultEntry::Directory(d) => TableEntryView::Directory(d.tview()),
        }
    }
}

/// The entries of a directory by name
pub closed spec fn entries_by_name(s: Seq<VaultEntry>) -> Map<Seq<char>, TableEntryView>
    decreases s,
{
    if s.len() == 0 {
        Map::empty()
    } else {
        entries_by_name(s.drop_last()).insert(s.last().tname(), s.last().tview())
    }
}

impl VaultEntry {
    /// The name of the entry
    pub open spec fn tname(&self) -> Seq<char> {
        match self {
            VaultEntry::Password(p) => p.password_name@,
            VaultEntry::Secret(s) => s.secret_name@,
            VaultEntry::Directory(d) => d.dname(),
        }
    }
}

impl DirectoryEntry {
    /// The name of the directory
    pub closed spec fn dname(&self) -> Seq<char> {
        self.directory_name@
    }

    /// The number of entries the directory holds
    pub closed spec fn child_count(&self) -> nat {
        self.children@.len()
    }

    /// What the directory holds
    pub closed spec fn tview(&self) -> TableDirectoryView
        decreases self,
    {
        TableDirectoryView { name: self.directory_name@, children: entries_by_name(self.children@) }
    }
}

/// Convert a raw record of `VAULTENTRY_LENGTH` bytes to a vault entry; a directory comes with
/// its number of entries (0 for other kinds).
pub fn read_entry(entry_data: [u8; VAULTENTRY_LENGTH]) -> (r: Result<(u64, VaultEntry), ReadVaultFileError>)
    ensures
        match spec_read_entry(entry_data@) {
            Some((n, e)) => r matches Ok((m, x)) && m == n && x.tview() == e,
            None => r is Err,
        },
        !(entry_data@[0] == DIRENTRY_TYPE || entry_data@[0] == PASSWORDENTRY_TYPE || entry_data@[0]
            == SECRETENTRY_TYPE) ==> r matches Err(ReadVaultFileError::InvalidFile(InvalidFileReasons::InvalidEntryType)),
        (entry_data@[0] == DIRENTRY_TYPE || entry_data@[0] == PASSWORDENTRY_TYPE || entry_data@[0]
            == SECRETENTRY_TYPE) && !valid_utf8(record_name(entry_data@)) ==> (r matches Err(
            ReadVaultFileError::ReadEntryError(ReadFieldError::ReadUtf8Error(_), Some(off)),
        ) && off == 1),
{
    let data = entry_data.as_slice();
    let kind = data[0];
    if kind != DIRENTRY_TYPE && kind != PASSWORDENTRY_TYPE && kind != SECRETENTRY_TYPE {
        return Err(ReadVaultFileError::InvalidFile(InvalidFileReasons::InvalidEntryType));
    }
    let mut offset: usize = 1;
    let name = match string_from_utf8(copy_range(data, offset, offset + 128)) {
        Ok(n) => n,
        Err(e) => return Err(ReadVaultFileError::ReadEntryError(ReadFieldError::ReadUtf8Error(e), Some(offset as u64))),
    };
    offset += 128;
    if kind == DIRENTRY_TYPE {
        let size = get_u64_le(data, offset);
        let d = DirectoryEntry { directory_name: name, children: Vec::new() };
        assert(entries_by_name(d.children@) =~= Map::<Seq<char>, TableEntryView>::empty());
        Ok((size, VaultEntry::Directory(d)))
    } else if kind == PASSWORDENTRY_TYPE {
        let blk_id = get_u64_le(data, offset);
        offset += 8;
        let nonce = array_at::<12>(data, offset);
        Ok((0, VaultEntry::Password(PasswordEntry { password_name: name, secret_block_id: blk_id, nonce })))
    } else {
        let blk_id = get_u64_le(data, offset);
        offset += 8;
        let size = get_u64_le(data, offset);
        offset += 8;
        let nonce = array_at::<12>(data, offset);
        Ok((0, VaultEntry::Secret(SecretFileEntry { secret_name: name, secret_block_id: blk_id, size, nonce })))
    }
}

/// Header Information of the archive file
#[derive(Debug)]
pub struct HeaderInfo {
    /// Version specified in the header
    pub version: u8,
    /// Name of the vault archive
    pub name: String,
    /// Key Region nonce
    pub key_region_nonce: [u8; AES_NONCE_LENGTH],
    /// Decrypted vault key
    pub vault_key: [u8; VAULTKEY_LENGTH],
    /// Number of records in the vault table
    pub vault_table_size: u64,
    /// Nonce of the vault table
    pub vault_table_nonce: [u8; AES_NONCE_LENGTH],
}

/// The key region of a header, decrypted with the user key that `password` and the header's IV
/// give: the vault key followed by the table size.
pub open spec fn spec_key_region(file: Seq<u8>, password: Seq<char>) -> Result<Seq<u8>, ()> {
    spec_decrypt(
        pbkdf2_hmac_sha256(encode_utf8(password), file.subrange(137, 153), PBKDF2_ITERATIONS as nat),
        file.subrange(153, 165),
        file.subrange(165, 221),
    )
}

/// Read a field of `N` bytes at `offset`
pub fn read_field<const N: usize>(file: &[u8], offset: usize) -> (r: Result<[u8; N], ReadFieldError>)
    ensures
        offset + N <= file@.len() ==> (r matches Ok(a) && a@ == file@.subrange(offset as int, offset + N)),
        offset + N > file@.len() ==> r matches Err(ReadFieldError::UnexpectedEOFError()),
{
    if offset > file.len() || N > file.len() - offset {
        return Err(ReadFieldError::UnexpectedEOFError());
    }
    Ok(array_at::<N>(file, offset))
}

/// Read a field of `len` bytes at `offset`
pub fn read_dyn_field(file: &[u8], offset: usize, len: usize) -> (r: Result<Vec<u8>, ReadFieldError>)
    ensures
        offset + len <= file@.len() ==> (r matches Ok(v) && v@ == file@.subrange(offset as int, offset + len)),
        offset + len > file@.len() ==> r matches Err(ReadFieldError::UnexpectedEOFError()),
{
    if offset > file.len() || len > file.len() - offset {
        return Err(ReadFieldError::UnexpectedEOFError());
    }
    Ok(copy_range(file, offset, offset + len))
}

/// Check the start of a vault archive file header, before a password is needed: the signature
/// and the version must match, the name must be UTF-8, and the IV must follow (the same errors
/// as `read_header` for these fields).
pub fn read_header_start(file: &[u8]) -> (r: Result<(), ReadVaultFileError>)
    ensures
        r is Ok <==> (file@.len() >= 153 && from_le8(file@.subrange(0, 8)) == VAULT_SIGNATURE && file@[8]
            == VAULT_VERSION && valid_utf8(file@.subrange(9, 137))),
        file@.len() < 8 ==> r matches Err(ReadVaultFileError::ReadEntryError(ReadFieldError::UnexpectedEOFError(), _)),
        file@.len() >= 8 && from_le8(file@.subrange(0, 8)) != VAULT_SIGNATURE ==> r matches Err(
            ReadVaultFileError::InvalidFile(InvalidFileReasons::InvalidSignature),
        ),
        file@.len() >= 9 && from_le8(file@.subrange(0, 8)) == VAULT_SIGNATURE && file@[8] != VAULT_VERSION
            ==> r matches Err(ReadVaultFileError::InvalidFile(InvalidFileReasons::UnsupportedVersion)),
        file@.len() >= 137 && from_le8(file@.subrange(0, 8)) == VAULT_SIGNATURE && file@[8] == VAULT_VERSION
            && !valid_utf8(file@.subrange(9, 137)) ==> r matches Err(
            ReadVaultFileError::ReadEntryError(ReadFieldError::ReadUtf8Error(_), _),
        ),
        r matches Err(ReadVaultFileError::ReadEntryError(ReadFieldError::UnexpectedEOFError(), _)) ==> file@.len() < 153,
{
    let mut offset: usize = 0;
    let signature_bytes = match read_field::<8>(file, offset) {
        Ok(b) => b,
        Err(e) => return Err(ReadVaultFileError::ReadEntryError(e, Some(offset as u64))),
    };
    let signature = get_u64_le(&signature_bytes, 0);
    assert(signature_bytes@.subrange(0, 8) =~= signature_bytes@);
    offset += 8;
    if signature != VAULT_SIGNATURE {
        return Err(ReadVaultFileError::InvalidFile(InvalidFileReasons::InvalidSignature));
    }
    let version_field = match read_field::<1>(file, offset) {
        Ok(b) => b,
        Err(e) => return Err(ReadVaultFileError::ReadEntryError(e, Some(offset as u64))),
    };
    offset += 1;
    if version_field[0] != VAULT_VERSION {
        return Err(ReadVaultFileError::InvalidFile(InvalidFileReasons::UnsupportedVersion));
    }
    let vaultname_raw = match read_dyn_field(file, offset, 128) {
        Ok(b) => b,
        Err(e) => return Err(ReadVaultFileError::ReadEntryError(e, Some(offset as u64))),
    };
    match string_from_utf8(vaultname_raw) {
        Ok(_) => {},
        Err(e) => return Err(ReadVaultFileError::ReadEntryError(ReadFieldError::ReadUtf8Error(e), Some(offset as u64))),
    }
    offset += 128;
    match read_field::<IV_LENGTH>(file, offset) {
        Ok(_) => Ok(()),
        Err(e) => Err(ReadVaultFileError::ReadEntryError(e, Some(offset as u64))),
    }
}

/// Read the vault archive file header, unlocking its key region with `password`: the signature
/// and version must match, the name must be UTF-8 and the key region must decrypt.
pub fn read_header(file: &[u8], password: String) -> (r: Result<HeaderInfo, ReadVaultFileError>)
    ensures
        file@.len() < 8 ==> r matches Err(ReadVaultFileError::ReadEntryError(ReadFieldError::UnexpectedEOFError(), _)),
        file@.len() >= 8 && from_le8(file@.subrange(0, 8)) != VAULT_SIGNATURE ==> r matches Err(
            ReadVaultFileError::InvalidFile(InvalidFileReasons::InvalidSignature),
        ),
        file@.len() == 8 && from_le8(file@.subrange(0, 8)) == VAULT_SIGNATURE ==> r matches Err(
            ReadVaultFileError::ReadEntryError(ReadFieldError::UnexpectedEOFError(), _),
        ),
        file@.len() >= 9 && from_le8(file@.subrange(0, 8)) == VAULT_SIGNATURE && file@[8] != VAULT_VERSION
            ==> r matches Err(ReadVaultFileError::InvalidFile(InvalidFileReasons::UnsupportedVersion)),
        9 <= file@.len() < 137 && from_le8(file@.subrange(0, 8)) == VAULT_SIGNATURE && file@[8] == VAULT_VERSION
            ==> r matches Err(ReadVaultFileError::ReadEntryError(ReadFieldError::UnexpectedEOFError(), _)),
        file@.len() >= 137 && from_le8(file@.subrange(0, 8)) == VAULT_SIGNATURE && file@[8] == VAULT_VERSION
            && !valid_utf8(file@.subrange(9, 137)) ==> r matches Err(
            ReadVaultFileError::ReadEntryError(ReadFieldError::ReadUtf8Error(_), _),
        ),
        137 <= file@.len() < 221 && from_le8(file@.subrange(0, 8)) == VAULT_SIGNATURE && file@[8] == VAULT_VERSION
            && valid_utf8(file@.subrange(9, 137)) ==> r matches Err(
            ReadVaultFileError::ReadEntryError(ReadFieldError::UnexpectedEOFError(), _),
        ),
        file@.len() >= 221 && from_le8(file@.subrange(0, 8)) == VAULT_SIGNATURE && file@[8] == VAULT_VERSION
            && valid_utf8(file@.subrange(9, 137)) && spec_key_region(file@, password@) is Err ==> r matches Err(
            ReadVaultFileError::InAuthenticTagError(),
        ),
        221 <= file@.len() < 233 && from_le8(file@.subrange(0, 8)) == VAULT_SIGNATURE && file@[8] == VAULT_VERSION
            && valid_utf8(file@.subrange(9, 137)) && spec_key_region(file@, password@) is Ok ==> r matches Err(
            ReadVaultFileError::ReadEntryError(ReadFieldError::UnexpectedEOFError(), _),
        ),
        r is Ok <==> (file@.len() >= 233 && from_le8(file@.subrange(0, 8)) == VAULT_SIGNATURE && file@[8]
            == VAULT_VERSION && valid_utf8(file@.subrange(9, 137)) && spec_key_region(file@, password@) is Ok),
        r matches Ok(h) ==> ({
            let region = spec_key_region(file@, password@)->Ok_0;
            &&& h.version == VAULT_VERSION
            &&& h.name@ == decode_utf8(file@.subrange(9, 137))
            &&& h.key_region_nonce@ == file@.subrange(153, 165)
            &&& h.vault_key@ == region.subrange(0, 32)
            &&& h.vault_table_size == from_le8(region.subrange(32, 40))
            &&& h.vault_table_nonce@ == file@.subrange(221, 233)
        }),
{
    let mut offset: usize = 0;
    // Check if this file is meant to be a vault archive file
    let signature_bytes = match read_field::<8>(file, offset) {
        Ok(b) => b,
        Err(e) => return Err(ReadVaultFileError::ReadEntryError(e, Some(offset as u64))),
    };
    let signature = get_u64_le(&signature_bytes, 0);
    assert(signature_bytes@.subrange(0, 8) =~= signature_bytes@);
    offset += 8;
    if signature != VAULT_SIGNATURE {
        return Err(ReadVaultFileError::InvalidFile(InvalidFileReasons::InvalidSignature));
    }
    //Add a version field for future changes to the vault archive structure
    let version_field = match read_field::<1>(file, offset) {
        Ok(b) => b,
        Err(e) => return Err(ReadVaultFileError::ReadEntryError(e, Some(offset as u64))),
    };
    let version = version_field[0];
    offset += 1;
    if version != VAULT_VERSION {
        return Err(ReadVaultFileError::InvalidFile(InvalidFileReasons::UnsupportedVersion));
    }
    let vaultname_raw = match read_dyn_field(file, offset, 128) {
        Ok(b) => b,
        Err(e) => return Err(ReadVaultFileError::ReadEntryError(e, Some(offset as u64))),
    };
    let vaultname = match string_from_utf8(vaultname_raw) {
        Ok(n) => n,
        Err(e) => return Err(ReadVaultFileError::ReadEntryError(ReadFieldError::ReadUtf8Error(e), Some(offset as u64))),
    };
    offset += 128;
    let userkey_iv = match read_field::<IV_LENGTH>(file, offset) {
        Ok(b) => b,
        Err(e) => return Err(ReadVaultFileError::ReadEntryError(e, Some(offset as u64))),
    };
    offset += IV_LENGTH;
    //Generate user key based on information gathered
    let user_key = generate_user_key(password, &userkey_iv);
    //The keyregion includes both the information about the vault table as well as the master key
    let keyregion_nonce = match read_field::<AES_NONCE_LENGTH>(file, offset) {
        Ok(b) => b,
        Err(e) => return Err(ReadVaultFileError::ReadEntryError(e, Some(offset as u64))),
    };
    offset += AES_NONCE_LENGTH;
    let keyregion = match read_dyn_field(file, offset, ENCRYPTED_REGION_LENGTH) {
        Ok(b) => b,
        Err(e) => return Err(ReadVaultFileError::ReadEntryError(e, Some(offset as u64))),
    };
    offset += ENCRYPTED_REGION_LENGTH;
    let region_data = match decrypt_region(keyregion.as_slice(), &keyregion_nonce, &user_key, ENCRYPTED_REGION_LENGTH - AES_TAG_LENGTH) {
        Ok(d) => d,
        Err(_) => return Err(ReadVaultFileError::InAuthenticTagError()),
    };
    let vault_nonce = match read_field::<AES_NONCE_LENGTH>(file, offset) {
        Ok(b) => b,
        Err(e) => return Err(ReadVaultFileError::ReadEntryError(e, Some(offset as u64))),
    };
    let vault_key = array_at::<VAULTKEY_LENGTH>(region_data.as_slice(), 0);
    let vault_table_size = get_u64_le(region_data.as_slice(), VAULTKEY_LENGTH);
    Ok(
        HeaderInfo {
            version,
            name: vaultname,
            key_region_nonce: keyregion_nonce,
            vault_key,
            vault_table_size,
            vault_table_nonce: vault_nonce,
        },
    )
}

/// The name of an entry view
pub open spec fn entry_name(e: TableEntryView) -> Seq<char> {
    match e {
        TableEntryView::Password(p) => p.name,
        TableEntryView::Secret(s) => s.name,
        TableEntryView::Directory(d) => d.name,
    }
}

/// The entries of `s` without those named `n`
pub open spec fn without_name(s: Seq<VaultEntry>, n: Seq<char>) -> Seq<VaultEntry>
    decreases s.len(),
{
    if s.len() == 0 {
        s
    } else if s.last().tname() == n {
        without_name(s.drop_last(), n)
    } else {
        without_name(s.drop_last(), n).push(s.last())
    }
}

proof fn lemma_entries_without_name(s: Seq<VaultEntry>, n: Seq<char>)
    ensures
        entries_by_name(without_name(s, n)) == entries_by_name(s).remove(n),
    decreases s.len(),
{
    if s.len() > 0 {
        lemma_entries_without_name(s.drop_last(), n);
        if s.last().tname() == n {
            assert(entries_by_name(s).remove(n) =~= entries_by_name(s.drop_last()).remove(n));
        } else {
            let w = without_name(s.drop_last(), n);
            assert(w.push(s.last()).drop_last() =~= w);
            assert(entries_by_name(s).remove(n) =~= entries_by_name(s.drop_last()).remove(n).insert(
                s.last().tname(),
                s.last().tview(),
            ));
        }
    } else {
        assert(entries_by_name(s).remove(n) =~= entries_by_name(s));
    }
}

impl DirectoryEntry {
    /// Put an entry into the directory, replacing the entry of the same name if there is one.
    pub fn insert_child(&mut self, entry: VaultEntry)
        ensures
            final(self).tview() == (TableDirectoryView {
                name: old(self).tview().name,
                children: old(self).tview().children.insert(entry.tname(), entry.tview()),
            }),
    {
        let name = entry.name().clone();
        let mut rest: Vec<VaultEntry> = Vec::new();
        std::mem::swap(&mut rest, &mut self.children);
        let ghost all = rest@;
        let mut kept: Vec<VaultEntry> = Vec::new();
        let mut k: usize = 0;
        let n0 = rest.len();
        while rest.len() > 0
            invariant
                k + rest@.len() == n0,
                all.len() == n0,
                rest@ == all.subrange(k as int, n0 as int),
                kept@ == without_name(all.subrange(0, k as int), name@),
            decreases rest@.len(),
        {
            let x = rest.remove(0);
            assert(all.subrange(0, k + 1).drop_last() =~= all.subrange(0, k as int));
            assert(all.subrange(0, k + 1).last() == x);
            let same = x.name().eq(&name);
            if !same {
                kept.push(x);
            }
            k += 1;
            assert(rest@ =~= all.subrange(k as int, n0 as int));
        }
        proof {
            assert(all.subrange(0, n0 as int) =~= all);
            lemma_entries_without_name(all, name@);
        }
        let ghost before = kept@;
        kept.push(entry);
        assert(kept@.drop_last() =~= before);
        self.children = kept;
        proof {
            assert(entries_by_name(self.children@) =~= entries_by_name(all).remove(name@).insert(name@, entry.tview()));
            assert(entries_by_name(all).remove(name@).insert(name@, entry.tview()) =~= entries_by_name(all).insert(
                name@,
                entry.tview(),
            ));
        }
    }
}

impl VaultEntry {
    /// The name of the entry
    pub fn name(&self) -> (r: &String)
        ensures
            r@ == self.tname(),
    {
        match self {
            VaultEntry::Directory(dir) => &dir.directory_name,
            VaultEntry::Secret(sec) => &sec.secret_name,
            VaultEntry::Password(pwd) => &pwd.password_name,
        }
    }
}

/// Record `j` of a decrypted vault table
pub open spec fn record(plain: Seq<u8>, j: int) -> Seq<u8> {
    plain.subrange(VAULTENTRY_LENGTH * j, VAULTENTRY_LENGTH * j + VAULTENTRY_LENGTH)
}

/// The entry whose record is `j`, with everything inside it, and the record after it: the table
/// lists each directory's entries right after the directory, each followed in turn by what is
/// inside it (`f` bounds the nesting).
pub open spec fn parse_tree(plain: Seq<u8>, count: int, j: int, f: nat) -> Option<(Seq<char>, TableEntryView, int)>
    decreases f, 0nat,
{
    if f == 0 || j < 0 || j >= count {
        None
    } else {
        match spec_read_entry(record(plain, j)) {
            None => None,
            Some((n, TableEntryView::Directory(d))) => match parse_siblings(plain, count, j + 1, n as nat, (f - 1) as nat) {
                None => None,
                Some((m, k)) => Some(
                    (d.name, TableEntryView::Directory(TableDirectoryView { name: d.name, children: m }), k),
                ),
            },
            Some((_, e)) => Some((entry_name(e), e, j + 1)),
        }
    }
}

/// The first `c` entries listed from record `i` on, by name (a later entry replaces an earlier
/// one of the same name), and the record after them.
pub open spec fn parse_siblings(plain: Seq<u8>, count: int, i: int, c: nat, f: nat) -> Option<
    (Map<Seq<char>, TableEntryView>, int),
>
    decreases f, c,
{
    if c == 0 {
        Some((Map::empty(), i))
    } else if f == 0 {
        None
    } else {
        match parse_siblings(plain, count, i, (c - 1) as nat, f) {
            None => None,
            Some((m, j)) => match parse_tree(plain, count, j, (f - 1) as nat) {
                None => None,
                Some((name, e, k)) => Some((m.insert(name, e), k)),
            },
        }
    }
}

/// The root directory a decrypted vault table describes: its first record must be a directory.
pub open spec fn spec_table_root(plain: Seq<u8>) -> Option<TableDirectoryView> {
    let count = plain.len() / (VAULTENTRY_LENGTH as nat);
    match parse_tree(plain, count as int, 0, (2 * count + 2) as nat) {
        Some((_, TableEntryView::Directory(d), _)) => Some(d),
        _ => None,
    }
}

/// `r` more entries listed from record `i` on, put into `m`.
spec fn parse_more(plain: Seq<u8>, count: int, i: int, r: nat, f: nat, m: Map<Seq<char>, TableEntryView>) -> Option<
    (Map<Seq<char>, TableEntryView>, int),
>
    decreases r,
{
    if r == 0 {
        Some((m, i))
    } else if f == 0 {
        None
    } else {
        match parse_tree(plain, count, i, (f - 1) as nat) {
            None => None,
            Some((name, e, k)) => parse_more(plain, count, k, (r - 1) as nat, f, m.insert(name, e)),
        }
    }
}

proof fn lemma_parse_more_append(plain: Seq<u8>, count: int, i: int, r: nat, f: nat, m: Map<Seq<char>, TableEntryView>)
    requires
        r > 0,
        f > 0,
    ensures
        parse_more(plain, count, i, r, f, m) == match parse_more(plain, count, i, (r - 1) as nat, f, m) {
            None => None,
            Some((m2, j)) => match parse_tree(plain, count, j, (f - 1) as nat) {
                None => None,
                Some((name, e, k)) => Some((m2.insert(name, e), k)),
            },
        },
    decreases r,
{
    match parse_tree(plain, count, i, (f - 1) as nat) {
        None => {},
        Some((name, e, k)) => {
            if r > 1 {
                lemma_parse_more_append(plain, count, k, (r - 1) as nat, f, m.insert(name, e));
                assert(((r - 1) as nat - 1) as nat == (r - 2) as nat);
                assert(parse_more(plain, count, i, (r - 1) as nat, f, m) == parse_more(
                    plain,
                    count,
                    k,
                    (r - 2) as nat,
                    f,
                    m.insert(name, e),
                ));
            } else {
                assert(parse_more(plain, count, i, 0, f, m) == Some((m, i)));
                assert(parse_more(plain, count, k, 0, f, m.insert(name, e)) == Some((m.insert(name, e), k)));
            }
        },
    }
}

proof fn lemma_parse_split(plain: Seq<u8>, count: int, i: int, c: nat, r: nat, f: nat)
    requires
        f > 0,
    ensures
        parse_siblings(plain, count, i, c + r, f) == match parse_siblings(plain, count, i, c, f) {
            None => None,
            Some((m, j)) => parse_more(plain, count, j, r, f, m),
        },
    decreases r,
{
    if r > 0 {
        lemma_parse_split(plain, count, i, c, (r - 1) as nat, f);
        assert((c + r - 1) as nat == c + (r - 1) as nat);
        match parse_siblings(plain, count, i, c, f) {
            None => {},
            Some((m, j)) => {
                lemma_parse_more_append(plain, count, j, r, f, m);
            },
        }
    }
}

/// What is left to parse from a stack of open directories (each with the entries it still
/// needs, innermost last) with the next record at `off`: the root they complete to.
spec fn complete(plain: Seq<u8>, count: int, fuel: nat, frames: Seq<(u64, TableDirectoryView)>, off: int) -> Option<
    TableDirectoryView,
>
    decreases frames.len(),
{
    if frames.len() == 0 {
        None
    } else {
        let k = frames.len() - 1;
        let top = frames[k];
        match parse_more(plain, count, off, top.0 as nat, (fuel - 1 - 2 * k) as nat, top.1.children) {
            None => None,
            Some((m, j)) => {
                let d = TableDirectoryView { name: top.1.name, children: m };
                if k == 0 {
                    Some(d)
                } else {
                    let parent = frames[k - 1];
                    complete(
                        plain,
                        count,
                        fuel,
                        frames.drop_last().update(
                            k - 1,
                            (
                                parent.0,
                                TableDirectoryView {
                                    name: parent.1.name,
                                    children: parent.1.children.insert(d.name, TableEntryView::Directory(d)),
                                },
                            ),
                        ),
                        j,
                    )
                }
            },
        }
    }
}

/// The views of a stack of open directories
spec fn frame_views(stack: Seq<(u64, DirectoryEntry)>) -> Seq<(u64, TableDirectoryView)> {
    stack.map_values(|x: (u64, DirectoryEntry)| (x.0, x.1.tview()))
}

impl VaultEntry {
    /// The name of an entry is the name of what it holds.
    proof fn lemma_tname(&self)
        ensures
            self.tname() == entry_name(self.tview()),
    {
    }
}

/// The table holds a first record, and it decodes to an entry that is not a directory (so the
/// table has no root directory).
pub open spec fn first_record_not_directory(plain: Seq<u8>) -> bool {
    &&& plain.len() >= VAULTENTRY_LENGTH
    &&& spec_read_entry(record(plain, 0)) matches Some((_, e)) && !(e is Directory)
}

/// Read the tree of entries from a decrypted vault table (see `spec_table_root`): the records
/// are read in order, with a stack of the directories that still expect entries.
pub fn parse_table(plain: &[u8]) -> (r: Result<DirectoryEntry, ReadVaultFileError>)
    ensures
        match spec_table_root(plain@) {
            Some(d) => r matches Ok(root) && root.tview() == d,
            None => r is Err,
        },
        first_record_not_directory(plain@) ==> r matches Err(ReadVaultFileError::InvalidFile(InvalidFileReasons::NoRootEntry)),
{
    let count = plain.len() / VAULTENTRY_LENGTH;
    let ghost fuel: nat = (2 * count + 2) as nat;
    assert(count * 157 <= plain@.len()) by (nonlinear_arith)
        requires
            count == plain@.len() / 157,
    ;
    if count == 0 {
        return Err(ReadVaultFileError::InvalidLengthError());
    }
    let rec0 = array_at::<VAULTENTRY_LENGTH>(plain, 0);
    assert(rec0@ == record(plain@, 0));
    let (n0, e0) = match read_entry(rec0) {
        Ok(x) => x,
        Err(e) => return Err(e),
    };
    let root = match e0 {
        VaultEntry::Directory(d) => d,
        _ => return Err(ReadVaultFileError::InvalidFile(InvalidFileReasons::NoRootEntry)),
    };
    assert(!first_record_not_directory(plain@));
    if n0 == 0 {
        return Ok(root);
    }
    proof {
        lemma_parse_split(plain@, count as int, 1, 0, n0 as nat, (fuel - 1) as nat);
        assert(0 + n0 as nat == n0 as nat);
    }
    let mut stack: Vec<(u64, DirectoryEntry)> = Vec::new();
    stack.push((n0, root));
    let mut offset: usize = 1;
    proof {
        assert(frame_views(stack@) =~= seq![(n0, root.tview())]);
    }
    loop
        invariant
            count == plain@.len() / 157,
            count * 157 <= plain@.len(),
            fuel == 2 * count + 2,
            plain@.len() <= usize::MAX,
            1 <= stack@.len() <= offset <= count,
            stack@.last().0 >= 1,
            spec_table_root(plain@) == complete(plain@, count as int, fuel, frame_views(stack@), offset as int),
            !first_record_not_directory(plain@),
        decreases count - offset,
    {
        if offset >= count {
            proof {
                let fr = frame_views(stack@);
                let k = fr.len() - 1;
                assert(fr[k] == (stack@[k].0, stack@[k].1.tview()));
            }
            return Err(ReadVaultFileError::InvalidLengthError());
        }
        assert((offset + 1) * 157 <= count * 157) by (nonlinear_arith)
            requires
                offset + 1 <= count,
        ;
        let rec = array_at::<VAULTENTRY_LENGTH>(plain, offset * VAULTENTRY_LENGTH);
        assert(rec@ == record(plain@, offset as int));
        let ghost fr0 = frame_views(stack@);
        let ghost k = fr0.len() - 1;
        let ghost f = (fuel - 1 - 2 * k) as nat;
        let ghost off0 = offset as int;
        assert(fr0[k] == (stack@[k].0, stack@[k].1.tview()));
        assert(f >= 3);
        let (n, e) = match read_entry(rec) {
            Ok(x) => x,
            Err(err) => return Err(err),
        };
        let (rem, mut top) = match stack.pop() {
            Some(t) => t,
            None => {
                assert(false);
                return Err(ReadVaultFileError::InvalidLengthError());
            },
        };
        offset += 1;
        let is_open_dir = match &e {
            VaultEntry::Directory(_) => n > 0,
            _ => false,
        };
        if is_open_dir {
            let d = match e {
                VaultEntry::Directory(d) => d,
                _ => {
                    assert(false);
                    return Err(ReadVaultFileError::InvalidLengthError());
                },
            };
            stack.push((rem - 1, top));
            stack.push((n, d));
            proof {
                lemma_parse_split(plain@, count as int, offset as int, 0, n as nat, (f - 2) as nat);
                assert(0 + n as nat == n as nat);
                let fr1 = frame_views(stack@);
                assert(fr1 =~= fr0.update(k, ((rem - 1) as u64, fr0[k].1)).push((n, d.tview())));
                assert(fr1.drop_last() =~= fr0.update(k, ((rem - 1) as u64, fr0[k].1)));
                assert(((fuel - 1 - 2 * (k + 1)) as nat) == (f - 2) as nat);
                assert(((f - 1) as nat - 1) as nat == (f - 2) as nat);
                let m0 = fr0[k].1.children;
                match parse_siblings(plain@, count as int, off0 + 1, n as nat, (f - 2) as nat) {
                    None => {
                        assert(parse_tree(plain@, count as int, off0, (f - 1) as nat) is None);
                        assert(complete(plain@, count as int, fuel, fr1, off0 + 1) is None);
                        assert(parse_more(plain@, count as int, off0, rem as nat, f, m0) is None);
                    },
                    Some((m, j)) => {
                        let dv = TableDirectoryView { name: d.tview().name, children: m };
                        assert(parse_tree(plain@, count as int, off0, (f - 1) as nat) == Some(
                            (dv.name, TableEntryView::Directory(dv), j),
                        ));
                        assert(parse_more(plain@, count as int, off0, rem as nat, f, m0) == parse_more(
                            plain@,
                            count as int,
                            j,
                            (rem - 1) as nat,
                            f,
                            m0.insert(dv.name, TableEntryView::Directory(dv)),
                        ));
                        assert(d.tview().children == Map::<Seq<char>, TableEntryView>::empty());
                        assert(parse_more(plain@, count as int, off0 + 1, n as nat, (f - 2) as nat, d.tview().children)
                            == Some((m, j)));
                        let x = (
                            (rem - 1) as u64,
                            TableDirectoryView {
                                name: fr0[k].1.name,
                                children: m0.insert(dv.name, TableEntryView::Directory(dv)),
                            },
                        );
                        let fr2 = fr0.update(k, x);
                        assert(fr1.drop_last().update(k, x) =~= fr2);
                        assert(fr1[k + 1] == (n, d.tview()));
                        assert(fr1.len() == k + 2);
                        assert(complete(plain@, count as int, fuel, fr1, off0 + 1) == complete(
                            plain@,
                            count as int,
                            fuel,
                            fr2,
                            j,
                        ));
                        assert(fr2.drop_last() =~= fr0.drop_last());
                        if k > 0 {
                            assert(fr2[k - 1] == fr0[k - 1]);
                        }
                        assert(complete(plain@, count as int, fuel, fr0, off0) == complete(
                            plain@,
                            count as int,
                            fuel,
                            fr2,
                            j,
                        ));
                    },
                }
                assert(complete(plain@, count as int, fuel, fr1, off0 + 1) == complete(
                    plain@,
                    count as int,
                    fuel,
                    fr0,
                    off0,
                ));
            }
        } else {
            proof {
                e.lemma_tname();
            }
            let ghost ev = e.tview();
            let ghost name = e.tname();
            let ghost m0 = fr0[k].1.children;
            proof {
                assert(parse_tree(plain@, count as int, off0, (f - 1) as nat) == Some((name, ev, off0 + 1)));
                assert(parse_more(plain@, count as int, off0, rem as nat, f, m0) == parse_more(
                    plain@,
                    count as int,
                    off0 + 1,
                    (rem - 1) as nat,
                    f,
                    m0.insert(name, ev),
                ));
            }
            top.insert_child(e);
            stack.push((rem - 1, top));
            proof {
                let fr1 = frame_views(stack@);
                assert(fr1 =~= fr0.update(k, ((rem - 1) as u64, top.tview())));
                assert(fr1.drop_last() =~= fr0.drop_last());
                assert(fr1[k].1.children == m0.insert(name, ev));
                assert(fr1.len() == fr0.len());
                assert(fr1[k].1.name == fr0[k].1.name);
                assert(fr0[k].0 == rem);
                assert(fr1[k].0 as nat == (rem - 1) as nat);
                assert(parse_more(plain@, count as int, off0 + 1, fr1[k].0 as nat, f, fr1[k].1.children) == parse_more(
                    plain@,
                    count as int,
                    off0,
                    fr0[k].0 as nat,
                    f,
                    fr0[k].1.children,
                ));
                if k > 0 {
                    assert(fr1[k - 1] == fr0[k - 1]);
                }
                assert(complete(plain@, count as int, fuel, fr1, off0 + 1) == complete(
                    plain@,
                    count as int,
                    fuel,
                    fr0,
                    off0,
                ));
            }
        }
        // close every directory that received all its entries
        loop
            invariant
                count == plain@.len() / 157,
                count * 157 <= plain@.len(),
                fuel == 2 * count + 2,
                1 <= stack@.len() <= offset <= count,
                spec_table_root(plain@) == complete(plain@, count as int, fuel, frame_views(stack@), offset as int),
            ensures
                1 <= stack@.len() <= offset <= count,
                stack@.last().0 >= 1,
                spec_table_root(plain@) == complete(plain@, count as int, fuel, frame_views(stack@), offset as int),
            decreases stack@.len(),
        {
            let last = stack.len() - 1;
            if stack[last].0 != 0 {
                break;
            }
            let ghost fr0 = frame_views(stack@);
            let ghost kk = fr0.len() - 1;
            assert(fr0[kk] == (stack@[kk].0, stack@[kk].1.tview()));
            let (_, done) = match stack.pop() {
                Some(t) => t,
                None => {
                    assert(false);
                    return Err(ReadVaultFileError::InvalidLengthError());
                },
            };
            if stack.len() == 0 {
                return Ok(done);
            }
            assert(fr0[kk - 1] == (stack@[kk - 1].0, stack@[kk - 1].1.tview()));
            let (prem, mut parent) = match stack.pop() {
                Some(t) => t,
                None => {
                    assert(false);
                    return Err(ReadVaultFileError::InvalidLengthError());
                },
            };
            parent.insert_child(VaultEntry::Directory(done));
            stack.push((prem, parent));
            proof {
                let fr1 = frame_views(stack@);
                assert(fr1 =~= fr0.drop_last().update(
                    kk - 1,
                    (
                        fr0[kk - 1].0,
                        TableDirectoryView {
                            name: fr0[kk - 1].1.name,
                            children: fr0[kk - 1].1.children.insert(
                                done.tview().name,
                                TableEntryView::Directory(done.tview()),
                            ),
                        },
                    ),
                ));
            }
        }
    }
}

/// Where the encrypted vault table starts: after the header and the table nonce
pub const TABLE_START: usize = 233;

/// The encrypted vault table of a file: the records of the header's table size, with the tag.
pub open spec fn table_bytes(file: Seq<u8>, size: u64) -> Seq<u8> {
    file.subrange(TABLE_START as int, TABLE_START + size * VAULTENTRY_LENGTH + AES_TAG_LENGTH)
}

/// Read the vault table from the vault file and rebuild the tree of entries from it: the table
/// holds the header's number of records, encrypted (with a tag) under the vault key and the
/// table nonce.
pub fn read_vault_table(file: &[u8], header: &HeaderInfo) -> (r: Result<DirectoryEntry, ReadVaultFileError>)
    ensures
        TABLE_START + header.vault_table_size * VAULTENTRY_LENGTH + AES_TAG_LENGTH > file@.len() ==> r matches Err(
            ReadVaultFileError::ReadEntryError(ReadFieldError::UnexpectedEOFError(), _),
        ),
        TABLE_START + header.vault_table_size * VAULTENTRY_LENGTH + AES_TAG_LENGTH <= file@.len() ==> match spec_decrypt(
            header.vault_key@,
            header.vault_table_nonce@,
            table_bytes(file@, header.vault_table_size),
        ) {
            Err(_) => r matches Err(ReadVaultFileError::InAuthenticTagError()),
            Ok(plain) => (match spec_table_root(plain) {
                Some(d) => r matches Ok(root) && root.tview() == d,
                None => r is Err,
            }) && (first_record_not_directory(plain) ==> r matches Err(
                ReadVaultFileError::InvalidFile(InvalidFileReasons::NoRootEntry),
            )),
        },
{
    let size = header.vault_table_size;
    assert(size * 157 + 16 <= u128::MAX) by (nonlinear_arith)
        requires
            size <= u64::MAX,
    ;
    let len: u128 = size as u128 * VAULTENTRY_LENGTH as u128 + AES_TAG_LENGTH as u128;
    if file.len() < TABLE_START || len > (file.len() - TABLE_START) as u128 {
        return Err(ReadVaultFileError::ReadEntryError(ReadFieldError::UnexpectedEOFError(), Some(0)));
    }
    let vault_table = match read_dyn_field(file, TABLE_START, len as usize) {
        Ok(t) => t,
        Err(e) => return Err(ReadVaultFileError::ReadEntryError(e, Some(0))),
    };
    let table = match decrypt_region_dyn(vault_table, &header.vault_table_nonce, &header.vault_key) {
        Ok(t) => t,
        Err(_) => return Err(ReadVaultFileError::InAuthenticTagError()),
    };
    parse_table(table.as_slice())
}

/// The index of the last entry of `s` named `n` (-1 when there is none).
pub open spec fn last_named(s: Seq<VaultEntry>, n: Seq<char>) -> int
    decreases s.len(),
{
    if s.len() == 0 {
        -1
    } else if s.last().tname() == n {
        s.len() - 1
    } else {
        last_named(s.drop_last(), n)
    }
}

proof fn lemma_last_named(s: Seq<VaultEntry>, n: Seq<char>)
    ensures
        -1 <= last_named(s, n) < s.len(),
        entries_by_name(s).dom().contains(n) <==> last_named(s, n) >= 0,
        last_named(s, n) >= 0 ==> s[last_named(s, n)].tname() == n && entries_by_name(s)[n] == s[last_named(
            s,
            n,
        )].tview(),
        forall|j: int| last_named(s, n) < j < s.len() ==> (#[trigger] s[j]).tname() != n,
    decreases s.len(),
{
    if s.len() > 0 {
        lemma_last_named(s.drop_last(), n);
        assert forall|j: int| last_named(s, n) < j < s.len() implies (#[trigger] s[j]).tname() != n by {
            if j < s.len() - 1 {
                assert(s[j] == s.drop_last()[j]);
            }
        }
        if s.last().tname() != n {
            let l = last_named(s, n);
            if l >= 0 {
                assert(s[l] == s.drop_last()[l]);
            }
        }
    }
}

/// The entry the names of `path` lead to from a directory
pub open spec fn table_lookup(d: TableDirectoryView, path: Seq<Seq<char>>) -> Option<TableEntryView>
    decreases path.len(),
{
    if path.len() == 0 || !d.children.dom().contains(path[0]) {
        None
    } else if path.len() == 1 {
        Some(d.children[path[0]])
    } else {
        match d.children[path[0]] {
            TableEntryView::Directory(sub) => table_lookup(sub, path.drop_first()),
            _ => None,
        }
    }
}

/// The directory after the entry at `path` was replaced by `f` of it (unchanged when the path
/// leads nowhere)
pub open spec fn table_update(d: TableDirectoryView, path: Seq<Seq<char>>, f: spec_fn(TableEntryView) -> TableEntryView) -> TableDirectoryView
    decreases path.len(),
{
    if path.len() == 0 || !d.children.dom().contains(path[0]) {
        d
    } else if path.len() == 1 {
        TableDirectoryView { name: d.name, children: d.children.insert(path[0], f(d.children[path[0]])) }
    } else {
        match d.children[path[0]] {
            TableEntryView::Directory(sub) => TableDirectoryView {
                name: d.name,
                children: d.children.insert(
                    path[0],
                    TableEntryView::Directory(table_update(sub, path.drop_first(), f)),
                ),
            },
            _ => d,
        }
    }
}

/// The names of a path of string slices.
pub open spec fn table_path(path: Seq<&str>) -> Seq<Seq<char>> {
    path.map_values(|s: &str| s@)
}

impl DirectoryEntry {
    /// Take the entry named `name` out of the directory (with any older entry of that name).
    pub fn take_named(&mut self, name: &String) -> (r: Option<VaultEntry>)
        ensures
            old(self).tview().children.dom().contains(name@) ==> (r matches Some(e) && e.tview()
                == old(self).tview().children[name@] && e.tname() == name@ && final(self).tview() == (TableDirectoryView {
                name: old(self).tview().name,
                children: old(self).tview().children.remove(name@),
            })),
            !old(self).tview().children.dom().contains(name@) ==> (r is None && final(self).tview() == old(
                self,
            ).tview()),
    {
        proof {
            lemma_last_named(self.children@, name@);
        }
        let mut i = self.children.len();
        while i > 0
            invariant
                i <= self.children@.len(),
                self.children@ == old(self).children@,
                self.directory_name == old(self).directory_name,
                forall|j: int| i <= j < self.children@.len() ==> (#[trigger] self.children@[j]).tname() != name@,
            ensures
                i <= self.children@.len(),
                self.children@ == old(self).children@,
                self.directory_name == old(self).directory_name,
                forall|j: int| i <= j < self.children@.len() ==> (#[trigger] self.children@[j]).tname() != name@,
                i > 0 ==> self.children@[i - 1].tname() == name@,
            decreases i,
        {
            let same = self.children[i - 1].name().eq(name);
            if same {
                break;
            }
            i -= 1;
        }
        if i == 0 {
            proof {
                if last_named(self.children@, name@) >= 0 {
                    let l = last_named(self.children@, name@);
                    assert(self.children@[l].tname() != name@);
                }
            }
            return None;
        }
        let idx = i - 1;
        proof {
            assert(last_named(self.children@, name@) == idx as int);
        }
        let ghost all = self.children@;
        let mut rest: Vec<VaultEntry> = Vec::new();
        std::mem::swap(&mut rest, &mut self.children);
        let found = rest.remove(idx);
        let ghost after = rest@;
        let mut kept: Vec<VaultEntry> = Vec::new();
        let mut k: usize = 0;
        let n0 = rest.len();
        while rest.len() > 0
            invariant
                k + rest@.len() == n0,
                after.len() == n0,
                rest@ == after.subrange(k as int, n0 as int),
                kept@ == without_name(after.subrange(0, k as int), name@),
            decreases rest@.len(),
        {
            let x = rest.remove(0);
            assert(after.subrange(0, k + 1).drop_last() =~= after.subrange(0, k as int));
            assert(after.subrange(0, k + 1).last() == x);
            let same = x.name().eq(name);
            if !same {
                kept.push(x);
            }
            k += 1;
            assert(rest@ =~= after.subrange(k as int, n0 as int));
        }
        self.children = kept;
        proof {
            assert(after.subrange(0, n0 as int) =~= after);
            lemma_entries_without_name(after, name@);
            lemma_entries_without_name(all, name@);
            lemma_without_remove(all, idx as int, name@);
        }
        Some(found)
    }
}

proof fn lemma_without_remove(s: Seq<VaultEntry>, i: int, n: Seq<char>)
    requires
        0 <= i < s.len(),
        s[i].tname() == n,
    ensures
        without_name(s.remove(i), n) == without_name(s, n),
    decreases s.len(),
{
    if i == s.len() - 1 {
        assert(s.remove(i) =~= s.drop_last());
    } else {
        lemma_without_remove(s.drop_last(), i, n);
        assert(s.remove(i).drop_last() =~= s.drop_last().remove(i));
        assert(s.remove(i).last() == s.last());
    }
}

impl VaultEntry {
    /// Give the entry a new name
    pub fn rename(&mut self, new_name: String)
        ensures
            final(self).tname() == new_name@,
            final(self).tview() == with_table_name(old(self).tview(), new_name@),
    {
        match self {
            Self::Directory(dir) => {
                dir.directory_name = new_name;
            },
            Self::Secret(sec) => sec.secret_name = new_name,
            Self::Password(pwd) => pwd.password_name = new_name,
        }
    }
}

/// The entry with another name
pub open spec fn with_table_name(e: TableEntryView, name: Seq<char>) -> TableEntryView {
    match e {
        TableEntryView::Password(p) => TableEntryView::Password(TablePasswordView { name, ..p }),
        TableEntryView::Secret(s) => TableEntryView::Secret(TableSecretView { name, ..s }),
        TableEntryView::Directory(d) => TableEntryView::Directory(TableDirectoryView { name, ..d }),
    }
}

/// The entries of the directory that holds the entry at `path`
pub open spec fn table_siblings(d: TableDirectoryView, path: Seq<Seq<char>>) -> Map<Seq<char>, TableEntryView>
    decreases path.len(),
{
    if path.len() <= 1 {
        d.children
    } else if !d.children.dom().contains(path[0]) {
        Map::empty()
    } else {
        match d.children[path[0]] {
            TableEntryView::Directory(sub) => table_siblings(sub, path.drop_first()),
            _ => Map::empty(),
        }
    }
}

/// The directory after the entry at `path` was renamed to `new_name` (it is filed under its
/// new name in its directory)
pub open spec fn table_rename(d: TableDirectoryView, path: Seq<Seq<char>>, new_name: Seq<char>) -> TableDirectoryView
    decreases path.len(),
{
    if path.len() == 0 || !d.children.dom().contains(path[0]) {
        d
    } else if path.len() == 1 {
        TableDirectoryView {
            name: d.name,
            children: d.children.remove(path[0]).insert(new_name, with_table_name(d.children[path[0]], new_name)),
        }
    } else {
        match d.children[path[0]] {
            TableEntryView::Directory(sub) => TableDirectoryView {
                name: d.name,
                children: d.children.insert(
                    path[0],
                    TableEntryView::Directory(table_rename(sub, path.drop_first(), new_name)),
                ),
            },
            _ => d,
        }
    }
}

impl DirectoryEntry {
    /// Whether the directory has an entry named `name`
    pub fn has_named(&self, name: &String) -> (r: bool)
        ensures
            r == self.tview().children.dom().contains(name@),
    {
        proof {
            lemma_last_named(self.children@, name@);
        }
        let mut i: usize = 0;
        while i < self.children.len()
            invariant
                i <= self.children@.len(),
                forall|j: int| 0 <= j < i ==> (#[trigger] self.children@[j]).tname() != name@,
            decreases self.children@.len() - i,
        {
            if self.children[i].name().eq(name) {
                proof {
                    lemma_last_named(self.children@, name@);
                    let l = last_named(self.children@, name@);
                    if l < i {
                        assert(self.children@[i as int].tname() != name@);
                    }
                }
                return true;
            }
            i += 1;
        }
        proof {
            if last_named(self.children@, name@) >= 0 {
                let l = last_named(self.children@, name@);
                assert(self.children@[l].tname() != name@);
            }
        }
        false
    }

    /// Rename the entry at `path` (the names leading from this directory to it) to `new_name`,
    /// which no other entry of its directory may have
    pub fn rename_entry(&mut self, path: VecDeque<&str>, total_path: &String, new_name: String) -> (r: Result<
        (),
        VaultError,
    >)
        ensures
            table_lookup(old(self).tview(), table_path(path@)) is None ==> (r matches Err(VaultError::EntryNotFound(p))
                && p@ == total_path@ && final(self).tview() == old(self).tview()),
            table_lookup(old(self).tview(), table_path(path@)) is Some && table_siblings(old(self).tview(), table_path(path@)).dom().contains(
                new_name@,
            ) ==> (r matches Err(VaultError::DuplicateEntryError(n)) && n@ == new_name@ && final(self).tview() == old(
                self,
            ).tview()),
            table_lookup(old(self).tview(), table_path(path@)) is Some && !table_siblings(old(self).tview(), table_path(path@)).dom().contains(
                new_name@,
            ) ==> (r is Ok && final(self).tview() == table_rename(old(self).tview(), table_path(path@), new_name@)),
        decreases path@.len(),
    {
        let ghost names = table_path(path@);
        let ghost d0 = self.tview();
        let mut path = path;
        let name = match path.pop_front() {
            None => return Err(VaultError::EntryNotFound(total_path.clone())),
            Some(n) => String::from_str(n),
        };
        assert(names[0] == name@);
        assert(table_path(path@) =~= names.drop_first());
        if !self.has_named(&name) {
            return Err(VaultError::EntryNotFound(total_path.clone()));
        }
        if path.len() == 0 {
            if self.has_named(&new_name) {
                return Err(VaultError::DuplicateEntryError(new_name));
            }
            let mut entry = match self.take_named(&name) {
                Some(e) => e,
                None => {
                    assert(false);
                    return Err(VaultError::EntryNotFound(total_path.clone()));
                },
            };
            entry.rename(new_name);
            self.insert_child(entry);
            Ok(())
        } else {
            let entry = match self.take_named(&name) {
                Some(e) => e,
                None => {
                    assert(false);
                    return Err(VaultError::EntryNotFound(total_path.clone()));
                },
            };
            match entry {
                VaultEntry::Directory(mut dir) => {
                    let res = dir.rename_entry(path, total_path, new_name);
                    self.insert_child(VaultEntry::Directory(dir));
                    proof {
                        assert(d0.children.remove(name@).insert(name@, d0.children[name@]) =~= d0.children);
                        let x = TableEntryView::Directory(dir.tview());
                        assert(d0.children.remove(name@).insert(name@, x) =~= d0.children.insert(name@, x));
                    }
                    res
                },
                other => {
                    self.insert_child(other);
                    proof {
                        assert(d0.children.remove(name@).insert(name@, d0.children[name@]) =~= d0.children);
                    }
                    Err(VaultError::EntryNotFound(total_path.clone()))
                },
            }
        }
    }
}

/// The entry with its password nonce replaced (other entries unchanged)
pub open spec fn with_table_pwd_nonce(e: TableEntryView, nonce: Seq<u8>) -> TableEntryView {
    match e {
        TableEntryView::Password(p) => TableEntryView::Password(TablePasswordView { nonce, ..p }),
        _ => e,
    }
}

/// The entry with its secret size and nonce replaced (other entries unchanged)
pub open spec fn with_table_secret(e: TableEntryView, size: u64, nonce: Seq<u8>) -> TableEntryView {
    match e {
        TableEntryView::Secret(s) => TableEntryView::Secret(TableSecretView { size, nonce, ..s }),
        _ => e,
    }
}

impl DirectoryEntry {
    /// Gets a reference to the entry the names of `path` lead to from this directory
    pub fn get_entry<'a>(&'a self, path: VecDeque<&str>, total_path: &String) -> (r: Result<&'a VaultEntry, VaultError>)
        ensures
            match table_lookup(self.tview(), table_path(path@)) {
                Some(e) => r matches Ok(x) && x.tview() == e,
                None => r matches Err(VaultError::EntryNotFound(p)) && p@ == total_path@,
            },
        decreases path@.len(),
    {
        let ghost names = table_path(path@);
        let mut path = path;
        let name = match path.pop_front() {
            None => return Err(VaultError::EntryNotFound(total_path.clone())),
            Some(n) => String::from_str(n),
        };
        assert(names[0] == name@);
        assert(table_path(path@) =~= names.drop_first());
        proof {
            lemma_last_named(self.children@, name@);
        }
        let mut i = self.children.len();
        while i > 0
            invariant
                i <= self.children@.len(),
                forall|j: int| i <= j < self.children@.len() ==> (#[trigger] self.children@[j]).tname() != name@,
            ensures
                i <= self.children@.len(),
                forall|j: int| i <= j < self.children@.len() ==> (#[trigger] self.children@[j]).tname() != name@,
                i > 0 ==> self.children@[i - 1].tname() == name@,
            decreases i,
        {
            if self.children[i - 1].name().eq(&name) {
                break;
            }
            i -= 1;
        }
        if i == 0 {
            proof {
                if last_named(self.children@, name@) >= 0 {
                    let l = last_named(self.children@, name@);
                    assert(self.children@[l].tname() != name@);
                }
            }
            return Err(VaultError::EntryNotFound(total_path.clone()));
        }
        let entry = &self.children[i - 1];
        proof {
            assert(last_named(self.children@, name@) == i - 1);
        }
        if path.len() == 0 {
            Ok(entry)
        } else {
            match entry {
                VaultEntry::Directory(dir) => dir.get_entry(path, total_path),
                _ => Err(VaultError::EntryNotFound(total_path.clone())),
            }
        }
    }

    /// Give the password entry at `path` a new nonce; returns its password block
    pub fn set_password_nonce(&mut self, path: VecDeque<&str>, total_path: &String, nonce: [u8; 12]) -> (r: Result<
        u64,
        VaultError,
    >)
        ensures
            match table_lookup(old(self).tview(), table_path(path@)) {
                None => r matches Err(VaultError::EntryNotFound(p)) && p@ == total_path@ && final(self).tview()
                    == old(self).tview(),
                Some(TableEntryView::Password(p)) => r == Ok::<u64, VaultError>(p.block) && final(self).tview()
                    == table_update(old(self).tview(), table_path(path@), |e: TableEntryView| with_table_pwd_nonce(e, nonce@)),
                Some(TableEntryView::Secret(_)) => r matches Err(
                    VaultError::InvalidOperation(OperationType::ChangePassword, VaultEntryType::Secret),
                ) && final(self).tview() == old(self).tview(),
                Some(TableEntryView::Directory(_)) => r matches Err(
                    VaultError::InvalidOperation(OperationType::ChangePassword, VaultEntryType::Directory),
                ) && final(self).tview() == old(self).tview(),
            },
        decreases path@.len(),
    {
        let ghost names = table_path(path@);
        let ghost d0 = self.tview();
        let mut path = path;
        let name = match path.pop_front() {
            None => return Err(VaultError::EntryNotFound(total_path.clone())),
            Some(n) => String::from_str(n),
        };
        assert(names[0] == name@);
        assert(table_path(path@) =~= names.drop_first());
        let entry = match self.take_named(&name) {
            Some(e) => e,
            None => return Err(VaultError::EntryNotFound(total_path.clone())),
        };
        let ghost ev = entry.tview();
        let is_leaf = path.len() == 0;
        let (back, res) = match entry {
            VaultEntry::Password(mut pwd) => {
                if is_leaf {
                    pwd.nonce = nonce;
                    let blk = pwd.secret_block_id;
                    (VaultEntry::Password(pwd), Ok(blk))
                } else {
                    (VaultEntry::Password(pwd), Err(VaultError::EntryNotFound(total_path.clone())))
                }
            },
            VaultEntry::Secret(sec) => {
                if is_leaf {
                    (VaultEntry::Secret(sec), Err(VaultError::InvalidOperation(OperationType::ChangePassword, VaultEntryType::Secret)))
                } else {
                    (VaultEntry::Secret(sec), Err(VaultError::EntryNotFound(total_path.clone())))
                }
            },
            VaultEntry::Directory(mut dir) => {
                if is_leaf {
                    (VaultEntry::Directory(dir), Err(VaultError::InvalidOperation(OperationType::ChangePassword, VaultEntryType::Directory)))
                } else {
                    let res = dir.set_password_nonce(path, total_path, nonce);
                    (VaultEntry::Directory(dir), res)
                }
            },
        };
        self.insert_child(back);
        proof {
            assert(d0.children.remove(name@).insert(name@, d0.children[name@]) =~= d0.children);
            let x = back.tview();
            assert(d0.children.remove(name@).insert(name@, x) =~= d0.children.insert(name@, x));
        }
        res
    }

    /// The first block and the number of blocks of the secret file entry at `path`
    pub fn secret_at(&self, path: VecDeque<&str>, total_path: &String) -> (r: Result<(u64, u64), VaultError>)
        ensures
            match table_lookup(self.tview(), table_path(path@)) {
                None => r matches Err(VaultError::EntryNotFound(p)) && p@ == total_path@,
                Some(TableEntryView::Secret(s)) => r == Ok::<(u64, u64), VaultError>((s.block, s.size)),
                Some(TableEntryView::Password(_)) => r matches Err(
                    VaultError::InvalidOperation(OperationType::ChangeSecret, VaultEntryType::Password),
                ),
                Some(TableEntryView::Directory(_)) => r matches Err(
                    VaultError::InvalidOperation(OperationType::ChangeSecret, VaultEntryType::Directory),
                ),
            },
    {
        match self.get_entry(path, total_path) {
            Err(e) => Err(e),
            Ok(VaultEntry::Secret(sec)) => Ok((sec.secret_block_id, sec.size)),
            Ok(VaultEntry::Password(_)) => Err(VaultError::InvalidOperation(OperationType::ChangeSecret, VaultEntryType::Password)),
            Ok(VaultEntry::Directory(_)) => Err(VaultError::InvalidOperation(OperationType::ChangeSecret, VaultEntryType::Directory)),
        }
    }

    /// Give the secret file entry at `path` a new size and nonce (it must be a secret file)
    pub fn set_secret(&mut self, path: VecDeque<&str>, size: u64, nonce: [u8; 12])
        ensures
            final(self).tview() == table_update(old(self).tview(), table_path(path@), |e: TableEntryView| with_table_secret(e, size, nonce@)),
        decreases path@.len(),
    {
        let ghost names = table_path(path@);
        let ghost d0 = self.tview();
        let mut path = path;
        let name = match path.pop_front() {
            None => return,
            Some(n) => String::from_str(n),
        };
        assert(names[0] == name@);
        assert(table_path(path@) =~= names.drop_first());
        let entry = match self.take_named(&name) {
            Some(e) => e,
            None => return,
        };
        let is_leaf = path.len() == 0;
        let back = match entry {
            VaultEntry::Secret(mut sec) => {
                if is_leaf {
                    sec.size = size;
                    sec.nonce = nonce;
                }
                VaultEntry::Secret(sec)
            },
            VaultEntry::Directory(mut dir) => {
                if !is_leaf {
                    dir.set_secret(path, size, nonce);
                }
                VaultEntry::Directory(dir)
            },
            other => other,
        };
        self.insert_child(back);
        proof {
            assert(d0.children.remove(name@).insert(name@, d0.children[name@]) =~= d0.children);
            let x = back.tview();
            assert(d0.children.remove(name@).insert(name@, x) =~= d0.children.insert(name@, x));
        }
    }
}

/// The data blocks an entry occupies: a password's block, a secret file's blocks, the blocks of
/// a directory's entries (only blocks below `u64::MAX`, the blocks a file can hold).
pub closed spec fn entry_blocks(e: &VaultEntry) -> Set<int>
    decreases e,
{
    match e {
        VaultEntry::Password(p) => Set::new(|b: int| b == p.secret_block_id && b < u64::MAX),
        VaultEntry::Secret(s) => Set::new(
            |b: int| s.secret_block_id <= b < s.secret_block_id + s.size && b < u64::MAX,
        ),
        VaultEntry::Directory(d) => children_blocks(d.children@),
    }
}

/// The data blocks the entries of `s` occupy
pub closed spec fn children_blocks(s: Seq<VaultEntry>) -> Set<int>
    decreases s,
{
    if s.len() == 0 {
        Set::empty()
    } else {
        children_blocks(s.drop_last()).union(entry_blocks(&s.last()))
    }
}

impl DirectoryEntry {
    /// The data blocks the entries of the directory occupy
    pub closed spec fn occupied(&self) -> Set<int> {
        children_blocks(self.children@)
    }

    /// Put the data blocks the entries of the directory occupy into `set`
    pub fn collect_occupied(&self, set: &mut BlockSet)
        requires
            old(set).wf(),
        ensures
            final(set).wf(),
            final(set)@ == old(set)@.union(self.occupied()),
            forall|b: int| final(set)@.contains(b) && !old(set)@.contains(b) ==> b < u64::MAX,
        decreases self,
    {
        let mut i: usize = 0;
        while i < self.children.len()
            invariant
                i <= self.children@.len(),
                set.wf(),
                set@ == old(set)@.union(children_blocks(self.children@.subrange(0, i as int))),
                forall|b: int| set@.contains(b) && !old(set)@.contains(b) ==> b < u64::MAX,
            decreases self.children@.len() - i,
        {
            assert(self.children@.subrange(0, i + 1).drop_last() =~= self.children@.subrange(0, i as int));
            let ghost before = set@;
            match &self.children[i] {
                VaultEntry::Password(p) => {
                    if p.secret_block_id < u64::MAX {
                        set.put(BlockRange { start: p.secret_block_id, end: p.secret_block_id });
                    }
                    assert(set@ =~= before.union(entry_blocks(&self.children@[i as int])));
                },
                VaultEntry::Secret(s) => {
                    if s.size > 0 && s.secret_block_id < u64::MAX {
                        let end = if s.size - 1 >= u64::MAX - 1 - s.secret_block_id {
                            u64::MAX - 1
                        } else {
                            s.secret_block_id + (s.size - 1)
                        };
                        set.put(BlockRange { start: s.secret_block_id, end });
                    }
                    assert(set@ =~= before.union(entry_blocks(&self.children@[i as int])));
                },
                VaultEntry::Directory(d) => {
                    d.collect_occupied(set);
                    assert(set@ =~= before.union(entry_blocks(&self.children@[i as int])));
                },
            }
            assert(set@ =~= old(set)@.union(children_blocks(self.children@.subrange(0, i + 1))));
            i += 1;
        }
        assert(self.children@.subrange(0, self.children@.len() as int) =~= self.children@);
    }
}

} // verus!
