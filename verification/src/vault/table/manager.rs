//! The manager of a table-based vault archive: it holds the entry tree read from the archive and
//! plans the data block changes that operations on the vault make.
use vstd::prelude::*;
use std::collections::VecDeque;
use vstd::utf8::{decode_utf8, encode_utf8, valid_utf8};
use crate::crypt::{encrypt_region, spec_decrypt, AES_MAX_PLAINTEXT, AES_TAG_LENGTH};
use crate::error::{
    CryptographyError, InvalidFileReasons, OperationType, ReadFieldError, ReadVaultFileError, VaultEntryType, VaultError,
};
use crate::vault::codec::{from_le8, pad_to, padded, write_at, write_bytes_at};
use crate::vault::table::listing::{listing_lines, ListedEntry};
use crate::vault::table::records::{data_block_start, retrieves, EntryResult, DATABLOCK_LENGTH, DATABLOCK_RAW_LENGTH};
use crate::vault::table::{
    read_header, read_vault_table, spec_key_region, spec_table_root, table_bytes, table_lookup, table_path,
    table_rename, table_siblings, table_update, with_table_pwd_nonce, with_table_secret, DirectoryEntry,
    TableDirectoryView, TableEntryView, TABLE_START, VAULTENTRY_LENGTH, VAULTKEY_LENGTH, VAULT_SIGNATURE,
    VAULT_VERSION,
};
use crate::vault::utils::{split_chars, split_slash, BlockRange, BlockSet};

verus! {

/// A planned change of the data blocks: `len` blocks from block `start` are to hold `data`
#[derive(Debug)]
pub struct DataBlockChange {
    pub start: u64,
    pub len: usize,
    pub data: Vec<u8>,
}

impl DataBlockChange {
    /// A change of `len` blocks from block `start` to `data`
    pub fn new(start: u64, len: usize, data: Vec<u8>) -> (r: Self)
        ensures
            r.start == start,
            r.len == len,
            r.data@ == data@,
    {
        DataBlockChange { start, len, data }
    }
}

/// Whether the header of `file` is accepted and its key region opens with `password`.
pub open spec fn header_opens(file: Seq<u8>, password: Seq<char>) -> bool {
    &&& file.len() >= TABLE_START
    &&& from_le8(file.subrange(0, 8)) == VAULT_SIGNATURE
    &&& file[8] == VAULT_VERSION
    &&& valid_utf8(file.subrange(9, 137))
    &&& spec_key_region(file, password) is Ok
}

/// What an archive opened with `password` holds: its name, vault key, number of table records
/// and entry tree; `None` when the header, the table or its records are not accepted.
pub open spec fn opened_vault(file: Seq<u8>, password: Seq<char>) -> Option<
    (Seq<char>, Seq<u8>, u64, TableDirectoryView),
> {
    if !header_opens(file, password) {
        None
    } else {
        let region = spec_key_region(file, password)->Ok_0;
        let key = region.subrange(0, 32);
        let size = from_le8(region.subrange(32, 40));
        if TABLE_START + size * VAULTENTRY_LENGTH + AES_TAG_LENGTH > file.len() {
            None
        } else {
            match spec_decrypt(key, file.subrange(221, 233), table_bytes(file, size)) {
                Err(_) => None,
                Ok(plain) => match spec_table_root(plain) {
                    Some(root) => Some((decode_utf8(file.subrange(9, 137)), key, size, root)),
                    None => None,
                },
            }
        }
    }
}

/// The free blocks among `occupied`: every block below an occupied block that is not occupied.
pub open spec fn free_blocks(occupied: Set<int>) -> Set<int> {
    Set::new(|b: int| 0 <= b && !occupied.contains(b) && exists|c: int| occupied.contains(c) && b < c)
}

/// The names a path of the table-based archive consists of: its pieces between '/' characters.
pub open spec fn entry_names(path: Seq<char>) -> Seq<Seq<char>> {
    split_chars(path, '/')
}

/// The names of `path`, front first.
pub fn slash_path(path: &str) -> (r: VecDeque<&str>)
    ensures
        table_path(r@) == entry_names(path@),
{
    let parts = split_slash(path);
    let ghost pieces = split_chars(path@, '/');
    let mut r: VecDeque<&str> = VecDeque::new();
    let mut i: usize = 0;
    while i < parts.len()
        invariant
            i <= parts@.len(),
            parts@.len() == pieces.len(),
            forall|k: int| 0 <= k < parts@.len() ==> (#[trigger] parts@[k])@ == pieces[k],
            r@.len() == i,
            forall|k: int| 0 <= k < i ==> (#[trigger] r@[k])@ == pieces[k],
        decreases parts@.len() - i,
    {
        let ghost before = r@;
        r.push_back(parts[i]);
        assert(r@ =~= before.push(parts@[i as int]));
        i += 1;
    }
    assert(table_path(r@) =~= pieces);
    r
}

/// The number of data blocks a secret file of `len` bytes is stored in: its ciphertext (the
/// file and the tag) rounded up to whole blocks.
pub open spec fn secret_blocks(len: nat) -> int {
    (len + AES_TAG_LENGTH + DATABLOCK_LENGTH - 1) / (DATABLOCK_LENGTH as int)
}

/// The blocks `start + n .. start + size` (below `u64::MAX`) that a secret file gives back when
/// it shrinks from `size` to `n` blocks.
pub open spec fn released_blocks(start: u64, n: int, size: u64) -> Set<int> {
    Set::new(|b: int| start + n <= b < start + size && b < u64::MAX)
}

/// Maint Entry point that manages vault information about a schlosser vault
#[derive(Debug)]
pub struct VaultManager {
    /// Version of the archive structure
    version: u8,
    /// Name of the Vault
    name: String,
    /// Master vault Key
    vault_key: [u8; VAULTKEY_LENGTH],
    /// Where the data blocks start: after the header and the vault table
    data_start: u64,
    /// The root vault entry
    root_entry: DirectoryEntry,
    /// The path to the archive file
    vault_path: String,
    /// A buffer that holds all planned data block changes
    buffered_changes: Vec<DataBlockChange>,
    /// The empty blocks inside the vault archive; found when a modification first needs them
    empty_blocks: Option<BlockSet>,
}

impl VaultManager {
    /// The manager's state is consistent: the empty blocks, once found, are a well-formed set.
    pub closed spec fn wf(&self) -> bool {
        self.empty_blocks matches Some(b) ==> b.wf()
    }

    /// The entry tree
    pub closed spec fn tree(&self) -> TableDirectoryView {
        self.root_entry.tview()
    }

    /// The vault key
    pub closed spec fn key(&self) -> Seq<u8> {
        self.vault_key@
    }

    /// The name of the vault
    pub closed spec fn vault_name(&self) -> Seq<char> {
        self.name@
    }

    /// The version of the archive
    pub closed spec fn archive_version(&self) -> u8 {
        self.version
    }

    /// The path of the archive file
    pub closed spec fn path(&self) -> Seq<char> {
        self.vault_path@
    }

    /// Where the data blocks start in the archive file
    pub closed spec fn data_offset(&self) -> u64 {
        self.data_start
    }

    /// The planned data block changes, in order: first block, number of blocks and data
    pub closed spec fn changes(&self) -> Seq<(u64, usize, Seq<u8>)> {
        self.buffered_changes@.map_values(|c: DataBlockChange| (c.start, c.len, c.data@))
    }

    /// The data blocks the entries occupy
    pub closed spec fn occupied(&self) -> Set<int> {
        self.root_entry.occupied()
    }

    /// The empty blocks, if they were found yet
    pub closed spec fn empty(&self) -> Option<Set<int>> {
        match self.empty_blocks {
            Some(b) => Some(b@),
            None => None,
        }
    }

    /// The empty blocks as a modification sees them: those found before, or else the free
    /// blocks among the occupied ones.
    pub open spec fn known_free(&self) -> Set<int> {
        match self.empty() {
            Some(s) => s,
            None => free_blocks(self.occupied()),
        }
    }

    /// Open the archive `file` (read from `file_path`) with `password`: read its header and
    /// rebuild the entry tree from its vault table.
    pub fn from_file(file_path: &str, file: &[u8], password: String) -> (r: Result<VaultManager, ReadVaultFileError>)
        ensures
            match opened_vault(file@, password@) {
                Some((name, key, size, root)) => r matches Ok(m) && {
                    &&& m.wf()
                    &&& m.archive_version() == VAULT_VERSION
                    &&& m.vault_name() == name
                    &&& m.key() == key
                    &&& m.tree() == root
                    &&& m.data_offset() == TABLE_START + size * VAULTENTRY_LENGTH + AES_TAG_LENGTH
                    &&& m.path() == file_path@
                    &&& m.changes() == Seq::<(u64, usize, Seq<u8>)>::empty()
                    &&& m.empty() is None
                },
                None => r is Err,
            },
            file@.len() < 8 ==> r matches Err(
                ReadVaultFileError::ReadEntryError(ReadFieldError::UnexpectedEOFError(), _),
            ),
            file@.len() >= 9 && from_le8(file@.subrange(0, 8)) != VAULT_SIGNATURE ==> r matches Err(
                ReadVaultFileError::InvalidFile(InvalidFileReasons::InvalidSignature),
            ),
            file@.len() >= 9 && from_le8(file@.subrange(0, 8)) == VAULT_SIGNATURE && file@[8] != VAULT_VERSION
                ==> r matches Err(ReadVaultFileError::InvalidFile(InvalidFileReasons::UnsupportedVersion)),
            file@.len() >= TABLE_START && from_le8(file@.subrange(0, 8)) == VAULT_SIGNATURE && file@[8]
                == VAULT_VERSION && valid_utf8(file@.subrange(9, 137)) && spec_key_region(file@, password@) is Err
                ==> r matches Err(ReadVaultFileError::InAuthenticTagError()),
            header_opens(file@, password@) && ({
                let region = spec_key_region(file@, password@)->Ok_0;
                let size = from_le8(region.subrange(32, 40));
                TABLE_START + size * VAULTENTRY_LENGTH + AES_TAG_LENGTH > file@.len()
            }) ==> r matches Err(ReadVaultFileError::ReadEntryError(ReadFieldError::UnexpectedEOFError(), _)),
            header_opens(file@, password@) && ({
                let region = spec_key_region(file@, password@)->Ok_0;
                let size = from_le8(region.subrange(32, 40));
                &&& TABLE_START + size * VAULTENTRY_LENGTH + AES_TAG_LENGTH <= file@.len()
                &&& spec_decrypt(region.subrange(0, 32), file@.subrange(221, 233), table_bytes(file@, size)) is Err
            }) ==> r matches Err(ReadVaultFileError::InAuthenticTagError()),
    {
        let header_info = read_header(file, password)?;
        let root_entry = read_vault_table(file, &header_info)?;
        let size = header_info.vault_table_size;
        assert(TABLE_START + size * VAULTENTRY_LENGTH + AES_TAG_LENGTH <= file@.len());
        let _n = file.len();
        let end: u128 = TABLE_START as u128 + size as u128 * VAULTENTRY_LENGTH as u128 + AES_TAG_LENGTH as u128;
        let data_start = end as u64;
        let changes: Vec<DataBlockChange> = Vec::new();
        let m = VaultManager {
            version: header_info.version,
            name: header_info.name,
            vault_key: header_info.vault_key,
            data_start,
            root_entry,
            vault_path: String::from_str(file_path),
            buffered_changes: changes,
            empty_blocks: None,
        };
        assert(m.changes() =~= Seq::<(u64, usize, Seq<u8>)>::empty());
        Ok(m)
    }
}

/// The blocks of a well-formed set lie below its span, and the last block of the set is in it.
proof fn lemma_span_bounds(o: &BlockSet)
    requires
        o.wf(),
    ensures
        forall|c: int| o@.contains(c) ==> c < o.span(),
        o.ranges().len() > 0 ==> o@.contains(o.ranges().last().end as int),
{
    o.lemma_ranges_wf();
    let rs = o.ranges();
    assert forall|c: int| o@.contains(c) implies c < o.span() by {
        let k = choose|k: int| 0 <= k < rs.len() && (#[trigger] rs[k]).spec_contains(c);
        if k < rs.len() - 1 {
            assert(rs[k].end < rs[rs.len() - 1].start);
        }
    }
    if rs.len() > 0 {
        assert(rs[rs.len() - 1].spec_contains(rs.last().end as int));
    }
}

impl VaultManager {
    /// The empty data blocks of the vault archive: the blocks below the last occupied block that
    /// no entry occupies (none when no block is occupied).
    pub fn get_empty_data_blocks(&self) -> (r: BlockSet)
        ensures
            r.wf(),
            r@ == free_blocks(self.occupied()),
    {
        let mut occupied = BlockSet::new();
        self.root_entry.collect_occupied(&mut occupied);
        proof {
            lemma_span_bounds(&occupied);
            assert(occupied@ =~= self.occupied());
        }
        let r = occupied.get_empty_space();
        proof {
            let occ = self.occupied();
            assert forall|b: int| r@.contains(b) == free_blocks(occ).contains(b) by {
                if r@.contains(b) {
                    let last = occupied.ranges().last().end as int;
                    assert(occupied@.contains(last));
                    assert(b < last);
                }
                if free_blocks(occ).contains(b) {
                    let c = choose|c: int| occ.contains(c) && b < c;
                    assert(c < occupied.span());
                }
            }
            assert(r@ =~= free_blocks(occ));
        }
        r
    }

    /// Make sure the empty blocks are known: find them when this is their first use.
    fn ensure_empty_blocks(&mut self)
        requires
            old(self).wf(),
        ensures
            final(self).wf(),
            final(self).empty() == Some(old(self).known_free()),
            final(self).tree() == old(self).tree(),
            final(self).key() == old(self).key(),
            final(self).vault_name() == old(self).vault_name(),
            final(self).archive_version() == old(self).archive_version(),
            final(self).path() == old(self).path(),
            final(self).data_offset() == old(self).data_offset(),
            final(self).changes() == old(self).changes(),
            final(self).occupied() == old(self).occupied(),
    {
        if self.empty_blocks.is_none() {
            let e = self.get_empty_data_blocks();
            self.empty_blocks = Some(e);
        }
    }

    /// Rename the entry at `entry_path` (its names between '/' characters) to `new_name`, which
    /// no other entry of its directory may have.
    pub fn rename(&mut self, entry_path: String, new_name: String) -> (r: Result<(), VaultError>)
        requires
            old(self).wf(),
        ensures
            final(self).wf(),
            final(self).key() == old(self).key(),
            final(self).vault_name() == old(self).vault_name(),
            final(self).archive_version() == old(self).archive_version(),
            final(self).path() == old(self).path(),
            final(self).data_offset() == old(self).data_offset(),
            final(self).changes() == old(self).changes(),
            final(self).empty() == old(self).empty(),
            table_lookup(old(self).tree(), entry_names(entry_path@)) is None ==> (r matches Err(
                VaultError::EntryNotFound(p),
            ) && p@ == entry_path@ && final(self).tree() == old(self).tree()),
            table_lookup(old(self).tree(), entry_names(entry_path@)) is Some && table_siblings(
                old(self).tree(),
                entry_names(entry_path@),
            ).dom().contains(new_name@) ==> (r matches Err(VaultError::DuplicateEntryError(n)) && n@ == new_name@
                && final(self).tree() == old(self).tree()),
            table_lookup(old(self).tree(), entry_names(entry_path@)) is Some && !table_siblings(
                old(self).tree(),
                entry_names(entry_path@),
            ).dom().contains(new_name@) ==> (r is Ok && final(self).tree() == table_rename(
                old(self).tree(),
                entry_names(entry_path@),
                new_name@,
            )),
    {
        let path = slash_path(entry_path.as_str());
        self.root_entry.rename_entry(path, &entry_path, new_name)
    }
}

impl VaultManager {
    /// Give the password entry at `entry_path` a new password: the password, padded with zeros
    /// to a data block, is encrypted under a fresh nonce, the entry takes the nonce and the
    /// encrypted block is planned as a change of the entry's data block. The password may take
    /// up to 256 bytes.
    pub fn change_password(&mut self, entry_path: String, password: String) -> (r: Result<(), VaultError>)
        requires
            old(self).wf(),
        ensures
            final(self).wf(),
            final(self).key() == old(self).key(),
            final(self).vault_name() == old(self).vault_name(),
            final(self).archive_version() == old(self).archive_version(),
            final(self).path() == old(self).path(),
            final(self).data_offset() == old(self).data_offset(),
            final(self).empty() == Some(old(self).known_free()),
            encode_utf8(password@).len() > DATABLOCK_RAW_LENGTH ==> (r matches Err(VaultError::InvalidLengthError())
                && final(self).tree() == old(self).tree() && final(self).changes() == old(self).changes()),
            encode_utf8(password@).len() <= DATABLOCK_RAW_LENGTH ==> match table_lookup(
                old(self).tree(),
                entry_names(entry_path@),
            ) {
                None => r matches Err(VaultError::EntryNotFound(p)) && p@ == entry_path@ && final(self).tree()
                    == old(self).tree() && final(self).changes() == old(self).changes(),
                Some(TableEntryView::Password(p)) => {
                    &&& r is Ok
                    &&& final(self).changes().len() == old(self).changes().len() + 1
                    &&& final(self).changes().drop_last() == old(self).changes()
                    &&& final(self).changes().last().0 == p.block
                    &&& final(self).changes().last().1 == 1
                    &&& exists|nonce: Seq<u8>|
                        final(self).tree() == table_update(
                            old(self).tree(),
                            entry_names(entry_path@),
                            |e: TableEntryView| with_table_pwd_nonce(e, nonce),
                        ) && spec_decrypt(old(self).key(), nonce, final(self).changes().last().2) == Ok::<
                            Seq<u8>,
                            (),
                        >(pad_to(encode_utf8(password@), DATABLOCK_RAW_LENGTH as nat))
                },
                Some(TableEntryView::Secret(_)) => r matches Err(
                    VaultError::InvalidOperation(OperationType::ChangePassword, VaultEntryType::Secret),
                ) && final(self).tree() == old(self).tree() && final(self).changes() == old(self).changes(),
                Some(TableEntryView::Directory(_)) => r matches Err(
                    VaultError::InvalidOperation(OperationType::ChangePassword, VaultEntryType::Directory),
                ) && final(self).tree() == old(self).tree() && final(self).changes() == old(self).changes(),
            },
    {
        self.ensure_empty_blocks();
        let bytes = password.as_str().as_bytes();
        if bytes.len() > DATABLOCK_RAW_LENGTH {
            return Err(VaultError::InvalidLengthError());
        }
        //encrypt data and add to changes
        let raw = padded(bytes, DATABLOCK_RAW_LENGTH);
        let data = match encrypt_region(raw.as_slice(), self.vault_key.as_slice()) {
            Ok(d) => d,
            Err(e) => return Err(VaultError::CryptographyError(e)),
        };
        let path = slash_path(entry_path.as_str());
        let ghost tree0 = self.root_entry.tview();
        let block = match self.root_entry.set_password_nonce(path, &entry_path, data.nonce) {
            Ok(b) => b,
            Err(e) => return Err(e),
        };
        let ghost before = self.buffered_changes@;
        let ghost nonce = data.nonce@;
        let ghost enc = data.data@;
        self.buffered_changes.push(DataBlockChange::new(block, 1, data.data));
        assert(self.buffered_changes@.drop_last() =~= before);
        assert(self.changes().drop_last() =~= before.map_values(|c: DataBlockChange| (c.start, c.len, c.data@)));
        assert(self.changes().last().2 == enc);
        assert(self.tree() == table_update(
            tree0,
            entry_names(entry_path@),
            |e: TableEntryView| with_table_pwd_nonce(e, nonce),
        ) && spec_decrypt(self.key(), nonce, self.changes().last().2) == Ok::<Seq<u8>, ()>(
            pad_to(encode_utf8(password@), DATABLOCK_RAW_LENGTH as nat),
        ));
        Ok(())
    }

    /// Check that the entry at `entry_path` is a secret file entry, which `change_secret` can
    /// change: the same errors as `change_secret` when it is not.
    pub fn secret_entry(&self, entry_path: &String) -> (r: Result<(), VaultError>)
        ensures
            match table_lookup(self.tree(), entry_names(entry_path@)) {
                None => r matches Err(VaultError::EntryNotFound(p)) && p@ == entry_path@,
                Some(TableEntryView::Password(_)) => r matches Err(
                    VaultError::InvalidOperation(OperationType::ChangeSecret, VaultEntryType::Password),
                ),
                Some(TableEntryView::Directory(_)) => r matches Err(
                    VaultError::InvalidOperation(OperationType::ChangeSecret, VaultEntryType::Directory),
                ),
                Some(TableEntryView::Secret(_)) => r is Ok,
            },
    {
        let path = slash_path(entry_path.as_str());
        match self.root_entry.secret_at(path, entry_path) {
            Ok(_) => Ok(()),
            Err(e) => Err(e),
        }
    }

    /// Replace the secret file of the entry at `entry_path` with `contents`: the contents,
    /// padded with zeros to whole data blocks, are encrypted under a fresh nonce. When the new
    /// secret takes no more blocks than the entry has, the entry takes the new size and nonce,
    /// the encrypted blocks are planned as a change of its first blocks, and the blocks it no
    /// longer needs become empty blocks; contents that need more blocks than the secret has are
    /// refused with `InvalidLengthError` and leave the vault as it is.
    #[verifier::rlimit(30)]
    pub fn change_secret(&mut self, entry_path: String, contents: Vec<u8>) -> (r: Result<(), VaultError>)
        requires
            old(self).wf(),
        ensures
            final(self).wf(),
            final(self).key() == old(self).key(),
            final(self).vault_name() == old(self).vault_name(),
            final(self).archive_version() == old(self).archive_version(),
            final(self).path() == old(self).path(),
            final(self).data_offset() == old(self).data_offset(),
            match table_lookup(old(self).tree(), entry_names(entry_path@)) {
                None => r matches Err(VaultError::EntryNotFound(p)) && p@ == entry_path@ && final(self).tree()
                    == old(self).tree() && final(self).changes() == old(self).changes() && final(self).empty() == Some(
                    old(self).known_free(),
                ),
                Some(TableEntryView::Password(_)) => r matches Err(
                    VaultError::InvalidOperation(OperationType::ChangeSecret, VaultEntryType::Password),
                ) && final(self).tree() == old(self).tree() && final(self).changes() == old(self).changes()
                    && final(self).empty() == Some(old(self).known_free()),
                Some(TableEntryView::Directory(_)) => r matches Err(
                    VaultError::InvalidOperation(OperationType::ChangeSecret, VaultEntryType::Directory),
                ) && final(self).tree() == old(self).tree() && final(self).changes() == old(self).changes()
                    && final(self).empty() == Some(old(self).known_free()),
                Some(TableEntryView::Secret(s)) => {
                    let n = secret_blocks(contents@.len());
                    let plain_len = n * DATABLOCK_LENGTH - AES_TAG_LENGTH;
                    if plain_len > AES_MAX_PLAINTEXT || plain_len > usize::MAX {
                        r matches Err(VaultError::CryptographyError(_)) && final(self).tree() == old(self).tree()
                            && final(self).changes() == old(self).changes() && final(self).empty() == Some(
                            old(self).known_free(),
                        )
                    } else if n > s.size {
                        r matches Err(VaultError::InvalidLengthError()) && final(self).tree() == old(self).tree() && final(self).changes() == old(
                            self,
                        ).changes() && final(self).empty() == Some(old(self).known_free())
                    } else {
                        &&& r is Ok
                        &&& final(self).changes().len() == old(self).changes().len() + 1
                        &&& final(self).changes().drop_last() == old(self).changes()
                        &&& final(self).changes().last().0 == s.block
                        &&& final(self).changes().last().1 == n
                        &&& final(self).changes().last().2.len() == n * DATABLOCK_LENGTH
                        &&& exists|nonce: Seq<u8>|
                            final(self).tree() == table_update(
                                old(self).tree(),
                                entry_names(entry_path@),
                                |e: TableEntryView| with_table_secret(e, n as u64, nonce),
                            ) && spec_decrypt(old(self).key(), nonce, final(self).changes().last().2) == Ok::<
                                Seq<u8>,
                                (),
                            >(pad_to(contents@, plain_len as nat))
                        &&& final(self).empty() == Some(
                            if n < s.size {
                                old(self).known_free().union(released_blocks(s.block, n, s.size))
                            } else {
                                old(self).known_free()
                            },
                        )
                    }
                },
            },
    {
        self.ensure_empty_blocks();
        let path = slash_path(entry_path.as_str());
        let (block, size) = match self.root_entry.secret_at(path, &entry_path) {
            Ok(x) => x,
            Err(e) => return Err(e),
        };
        // align data to be round_up((read_bytes + AES_GCM_AUTH_TAG) / DATABLOCK_LENGTH)
        let len = contents.len() as u128;
        let n: u128 = (len + 16 + 271) / 272;
        assert(n * 272 >= len + 16 && n * 272 <= len + 16 + 271) by (nonlinear_arith)
            requires
                n == (len + 16 + 271) / 272,
        ;
        let plain_len: u128 = n * 272 - 16;
        if plain_len > AES_MAX_PLAINTEXT as u128 || plain_len > usize::MAX as u128 {
            return Err(VaultError::CryptographyError(CryptographyError::InauthenticTag));
        }
        //prepare data block and encrypt
        let raw = padded(contents.as_slice(), plain_len as usize);
        let enc = match encrypt_region(raw.as_slice(), self.vault_key.as_slice()) {
            Ok(d) => d,
            Err(e) => return Err(VaultError::CryptographyError(e)),
        };
        if (size as u128) < n {
            // Growing secrets would need a new place in the archive: refused
            return Err(VaultError::InvalidLengthError());
        }
        let nb = n as u64;
        if nb < size && block as u128 + n < u64::MAX as u128 {
            // Reduced the BlockRange -> mark the rest as empty blocks
            let end = if size as u128 + block as u128 - 1 >= u64::MAX as u128 - 1 {
                u64::MAX - 1
            } else {
                block + (size - 1)
            };
            let mut empty = self.empty_blocks.take().unwrap();
            let ghost before = empty@;
            empty.put(BlockRange { start: block + nb, end });
            assert(empty@ =~= before.union(released_blocks(block, n as int, size)));
            self.empty_blocks = Some(empty);
        } else {
            assert(released_blocks(block, n as int, size) =~= Set::<int>::empty());
            assert(nb < size ==> self.empty()->0.union(released_blocks(block, n as int, size)) =~= self.empty()->0);
        }
        let path2 = slash_path(entry_path.as_str());
        let ghost tree0 = self.root_entry.tview();
        let ghost nonce = enc.nonce@;
        let ghost encd = enc.data@;
        self.root_entry.set_secret(path2, nb, enc.nonce);
        let ghost before = self.buffered_changes@;
        self.buffered_changes.push(DataBlockChange::new(block, n as usize, enc.data));
        assert(self.buffered_changes@.drop_last() =~= before);
        assert(self.changes().drop_last() =~= before.map_values(|c: DataBlockChange| (c.start, c.len, c.data@)));
        assert(self.changes().last().2 == encd);
        assert(self.tree() == table_update(
            tree0,
            entry_names(entry_path@),
            |e: TableEntryView| with_table_secret(e, nb, nonce),
        ) && spec_decrypt(self.key(), nonce, self.changes().last().2) == Ok::<Seq<u8>, ()>(
            pad_to(contents@, plain_len as nat),
        ));
        Ok(())
    }

    /// Read the secret of the entry at `entry_path` from the archive `file`
    pub fn retrieve_entry(&self, file: &[u8], entry_path: String) -> (r: Result<EntryResult, VaultError>)
        ensures
            match table_lookup(self.tree(), entry_names(entry_path@)) {
                None => r matches Err(VaultError::EntryNotFound(p)) && p@ == entry_path@,
                Some(e) => retrieves(file@, self.data_offset(), self.key(), e, r),
            },
    {
        let path = slash_path(entry_path.as_str());
        let target_entry = self.root_entry.get_entry(path, &entry_path)?;
        target_entry.retrieve_secret(file, self.data_start, self.vault_key.as_slice())
    }
}

/// The archive `file` after the `changes` were written to it one after the other (data blocks
/// start at byte `data_start`); `None` when a change lies beyond what a file can address.
pub open spec fn applied_changes(file: Seq<u8>, data_start: u64, changes: Seq<(u64, usize, Seq<u8>)>) -> Option<Seq<u8>>
    decreases changes.len(),
{
    if changes.len() == 0 {
        Some(file)
    } else {
        match applied_changes(file, data_start, changes.drop_last()) {
            Some(img) => {
                let c = changes.last();
                let pos = data_block_start(data_start, c.0 as int);
                if pos + c.2.len() <= usize::MAX {
                    Some(write_at(img, pos, c.2))
                } else {
                    None
                }
            },
            None => None,
        }
    }
}

proof fn lemma_applied_none(file: Seq<u8>, data_start: u64, changes: Seq<(u64, usize, Seq<u8>)>, i: int)
    requires
        0 <= i <= changes.len(),
        applied_changes(file, data_start, changes.subrange(0, i)) is None,
    ensures
        applied_changes(file, data_start, changes) is None,
    decreases changes.len() - i,
{
    if i < changes.len() {
        assert(changes.subrange(0, i + 1).drop_last() =~= changes.subrange(0, i));
        lemma_applied_none(file, data_start, changes, i + 1);
    } else {
        assert(changes.subrange(0, i) =~= changes);
    }
}


/// Changes `c1` and `c2` write byte ranges that do not overlap.
pub open spec fn changes_apart(data_start: u64, c1: (u64, usize, Seq<u8>), c2: (u64, usize, Seq<u8>)) -> bool {
    let p1 = data_block_start(data_start, c1.0 as int);
    let p2 = data_block_start(data_start, c2.0 as int);
    p1 + c1.2.len() <= p2 || p2 + c2.2.len() <= p1
}

/// The law of saving: every planned change that no later change overlaps is in the saved image,
/// its data at the position of its block.
pub proof fn lemma_saved_change(file: Seq<u8>, data_start: u64, changes: Seq<(u64, usize, Seq<u8>)>, i: int)
    requires
        applied_changes(file, data_start, changes) is Some,
        0 <= i < changes.len(),
        forall|j: int| i < j < changes.len() ==> changes_apart(data_start, changes[i], #[trigger] changes[j]),
    ensures
        ({
            let img = applied_changes(file, data_start, changes)->0;
            let p = data_block_start(data_start, changes[i].0 as int);
            &&& p + changes[i].2.len() <= img.len()
            &&& img.subrange(p, p + changes[i].2.len()) == changes[i].2
        }),
    decreases changes.len(),
{
    let n = changes.len() - 1;
    let prev = applied_changes(file, data_start, changes.drop_last())->0;
    let img = applied_changes(file, data_start, changes)->0;
    let c = changes[n];
    let q = data_block_start(data_start, c.0 as int);
    assert(img == write_at(prev, q, c.2));
    let p = data_block_start(data_start, changes[i].0 as int);
    let len = changes[i].2.len();
    if i == n {
        assert(img.subrange(p, p + len) =~= changes[i].2);
    } else {
        assert forall|j: int| i < j < changes.drop_last().len() implies changes_apart(
            data_start,
            changes.drop_last()[i],
            #[trigger] changes.drop_last()[j],
        ) by {
            assert(changes.drop_last()[j] == changes[j]);
        }
        lemma_saved_change(file, data_start, changes.drop_last(), i);
        assert(changes.drop_last()[i] == changes[i]);
        assert(changes_apart(data_start, changes[i], changes[n]));
        assert(img.subrange(p, p + len) =~= prev.subrange(p, p + len));
    }
}

/// Saving never shortens the file.
proof fn lemma_applied_len(file: Seq<u8>, data_start: u64, changes: Seq<(u64, usize, Seq<u8>)>)
    requires
        applied_changes(file, data_start, changes) is Some,
    ensures
        applied_changes(file, data_start, changes)->0.len() >= file.len(),
    decreases changes.len(),
{
    if changes.len() > 0 {
        lemma_applied_len(file, data_start, changes.drop_last());
    }
}

/// Saving leaves every byte of the file that no planned change writes as it was.
pub proof fn lemma_saved_untouched(file: Seq<u8>, data_start: u64, changes: Seq<(u64, usize, Seq<u8>)>, b: int)
    requires
        applied_changes(file, data_start, changes) is Some,
        0 <= b < file.len(),
        forall|j: int|
            0 <= j < changes.len() ==> !(data_block_start(data_start, (#[trigger] changes[j]).0 as int) <= b
                < data_block_start(data_start, changes[j].0 as int) + changes[j].2.len()),
    ensures
        applied_changes(file, data_start, changes)->0.len() >= file.len(),
        applied_changes(file, data_start, changes)->0[b] == file[b],
    decreases changes.len(),
{
    if changes.len() > 0 {
        let n = changes.len() - 1;
        assert forall|j: int| 0 <= j < changes.drop_last().len() implies !(data_block_start(
            data_start,
            (#[trigger] changes.drop_last()[j]).0 as int,
        ) <= b < data_block_start(data_start, changes.drop_last()[j].0 as int) + changes.drop_last()[j].2.len()) by {
            assert(changes.drop_last()[j] == changes[j]);
        }
        lemma_saved_untouched(file, data_start, changes.drop_last(), b);
        assert(!(data_block_start(data_start, changes[n].0 as int) <= b < data_block_start(data_start, changes[n].0 as int)
            + changes[n].2.len()));
    }
}

impl VaultManager {
    /// Writes the planned data block changes to the archive image `file`, in the order they were
    /// planned.
    pub fn save_vault(&self, file: Vec<u8>) -> (r: Result<Vec<u8>, VaultError>)
        ensures
            match applied_changes(file@, self.data_offset(), self.changes()) {
                Some(img) => r matches Ok(v) && v@ == img,
                None => r matches Err(VaultError::WriteError),
            },
            r matches Ok(v) ==> forall|i: int|
                0 <= i < self.changes().len() && (forall|j: int|
                    i < j < self.changes().len() ==> changes_apart(
                        self.data_offset(),
                        self.changes()[i],
                        #[trigger] self.changes()[j],
                    )) ==> ({
                    let p = data_block_start(self.data_offset(), (#[trigger] self.changes()[i]).0 as int);
                    &&& p + self.changes()[i].2.len() <= v@.len()
                    &&& v@.subrange(p, p + self.changes()[i].2.len()) == self.changes()[i].2
                }),
            r matches Ok(v) ==> forall|b: int|
                0 <= b < file@.len() && (forall|j: int|
                    0 <= j < self.changes().len() ==> !(data_block_start(
                        self.data_offset(),
                        (#[trigger] self.changes()[j]).0 as int,
                    ) <= b < data_block_start(self.data_offset(), self.changes()[j].0 as int)
                        + self.changes()[j].2.len())) ==> v@.len() >= file@.len() && #[trigger] v@[b] == file@[b],
    {
        let mut img = file;
        let ghost changes = self.changes();
        let mut i: usize = 0;
        while i < self.buffered_changes.len()
            invariant
                i <= self.buffered_changes@.len(),
                changes == self.changes(),
                changes.len() == self.buffered_changes@.len(),
                applied_changes(file@, self.data_start, changes.subrange(0, i as int)) == Some(img@),
            decreases self.buffered_changes@.len() - i,
        {
            let change = &self.buffered_changes[i];
            assert(changes.subrange(0, i + 1).drop_last() =~= changes.subrange(0, i as int));
            assert(changes.subrange(0, i + 1).last() == changes[i as int]);
            let blk = change.start as u128;
            assert(blk * 272 <= 0xffff_ffff_ffff_ffffu128 * 272) by (nonlinear_arith)
                requires
                    blk <= 0xffff_ffff_ffff_ffffu128,
            ;
            let pos: u128 = self.data_start as u128 + blk * DATABLOCK_LENGTH as u128;
            if pos + change.data.len() as u128 > usize::MAX as u128 {
                proof {
                    lemma_applied_none(file@, self.data_start, changes, i + 1);
                }
                return Err(VaultError::WriteError);
            }
            write_bytes_at(&mut img, pos as usize, change.data.as_slice());
            i += 1;
        }
        assert(changes.subrange(0, i as int) =~= changes);
        proof {
            assert forall|k: int|
                0 <= k < changes.len() && (forall|j: int|
                    k < j < changes.len() ==> changes_apart(self.data_offset(), changes[k], #[trigger] changes[j])) implies ({
                let p = data_block_start(self.data_offset(), (#[trigger] changes[k]).0 as int);
                &&& p + changes[k].2.len() <= img@.len()
                &&& img@.subrange(p, p + changes[k].2.len()) == changes[k].2
            }) by {
                lemma_saved_change(file@, self.data_start, changes, k);
            }
            assert forall|b: int|
                0 <= b < file@.len() && (forall|j: int|
                    0 <= j < self.changes().len() ==> !(data_block_start(
                        self.data_offset(),
                        (#[trigger] self.changes()[j]).0 as int,
                    ) <= b < data_block_start(self.data_offset(), self.changes()[j].0 as int)
                        + self.changes()[j].2.len())) implies img@.len() >= file@.len() && #[trigger] img@[b] == file@[b] by {
                lemma_saved_untouched(file@, self.data_offset(), self.changes(), b);
            }
            lemma_applied_len(file@, self.data_offset(), self.changes());
        }
        Ok(img)
    }
}

impl VaultManager {
    /// The entries of the root directory as the listing sees them
    pub closed spec fn listing(&self) -> Seq<ListedEntry> {
        self.root_entry.listed()
    }

    /// The overview of the vault: "<name> Archive", then a line for every entry in listing
    /// order, directories followed by their entries one level deeper.
    pub fn get_vault_info(&self) -> (r: Result<String, VaultError>)
        ensures
            r matches Ok(s) && s@ == self.vault_name() + " Archive"@ + listing_lines(self.listing(), 0, 0),
    {
        let mut out = self.name.clone();
        out.append(" Archive");
        self.root_entry.write_listing(0, &mut out);
        Ok(out)
    }
}

} // verus!
