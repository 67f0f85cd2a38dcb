//! The vault manager: the entry point for inspecting and changing a vault.
use vstd::prelude::*;
use vstd::string::*;
use vstd::utf8::{decode_utf8, encode_utf8};
use std::collections::VecDeque;
use memsecurity::{EncryptedMem, MemSecurityErr};
use zeroize::Zeroize;
use crate::crypt::{aes256gcm_seal, spec_decrypt, AES_MAX_PLAINTEXT, AES_TAG_LENGTH, KEY_LENGTH};
use crate::error::CryptographyError;
use crate::vault::entry::tree::{rebuildable, stored_blocks_valid, dir_along};
use crate::vault::entry::chain::{blocks_apart, lemma_write_inside_block};
use crate::vault::entry::unlink::lemma_deleted_stored;
use crate::vault::entry::rewrite::{lemma_added_stored, lemma_renamed_stored, lemma_write_run_agree, nonces_wf};
use crate::vault::entry::names::{
    lemma_deleted_names_distinct, lemma_inserted_names_distinct, lemma_renamed_names_distinct,
    lemma_updated_names_distinct, names_distinct,
};
use crate::vault::properties::dir_at;
use crate::vault::properties::{
    lemma_new_password_reads_back, lemma_new_secret_reads_back, lemma_stored_password_kept, lemma_stored_secret_kept,
};
use crate::vault::codec::{array_at, lemma_zeros_valid_utf8, name_field, pad_to, write_at, zeros};
use crate::vault::entry::overview::overview;
use crate::vault::entry::tree::{
    lemma_insert_in_some, lemma_field_change_valid, lemma_lookup_valid, lemma_occupied_bounded, stored_entry, delete_in, insert_in, lemma_delete_in_valid, lemma_insert_in_valid, lemma_update_at_valid,
    lookup, path_names, secret_reads_back, secret_update_fits, unlinked_at, siblings, update_at, with_pwd_nonce, child_index,
};
use crate::vault::entry::{
    entry_block_bytes, name_wf, occupied_children, directory_plain, secret_plain, password_plain, PasswordView, password_block_holds, secret_block_count, secret_padded_len, SecretView, occupied, blocks_valid, can_allocate, with_name, DirectoryEntry, DirectoryView, EntryResult,
    PasswordEntry, SecretFileEntry, VaultEntry, VaultEntryView, spec_stored_password, spec_stored_secret,
};
use crate::vault::error::{
    ReadHeaderError, RetrieveKeyError, DeleteEntryError, InitVaultContextError, NewEntryError, RenameEntryError, RetrieveEntryError,
    VaultChangeEntryError, VaultChangeError, VaultError,
};
use crate::vault::utils::{
    same_outside, alloc_start, occupy_ranges, block_written, block_offset, blocks_erased, header_accepted, header_key, header_of, is_vault_path, split_chars, unlocked_key, BlockSet, HeaderInfo,
    VaultContext, VaultPath, VAULTHEADER_LENGTH,
};

verus! {

// General Constants
pub const AES_GCM_AUTH_TAG: usize = 16;
pub const VAULTNAME_LENGTH: usize = 128;
// Vault Table Constants
pub const ENTRYTYPE_LENGTH: usize = 1;
pub const PASSWORDENTRY_TYPE: u8 = 0;
pub const SECRETENTRY_TYPE: u8 = 1;
pub const DIRENTRY_TYPE: u8 = 2;
pub const VAULTENTRY_LENGTH: usize = 177;
pub const VAULTENTRYNAME_LENGTH: usize = 128;
pub const BLOCKID_LENGTH: usize = 8;
pub const SECRET_SIZE_LENGTH: usize = 8;
// Vault data constants
pub const DATABLOCK_RAW_LENGTH: usize = 256;
pub const DATABLOCK_LENGTH: usize = 272;
pub const NEXT_OFFSET: usize = 1;

/// Memory that holds a secret encrypted under a key of the process (`memsecurity`).
#[verifier::external_type_specification]
#[verifier::external_body]
pub struct ExEncryptedMem(memsecurity::EncryptedMem);

/// The plaintext an `EncryptedMem` holds: what was last encrypted into it.
pub uninterp spec fn sealed_bytes(m: memsecurity::EncryptedMem) -> Seq<u8>;

/// Calls `memsecurity::EncryptedMem::new`. Nothing is claimed: it draws a random nonce, which
/// can fail.
#[verifier::external_body]
fn new_sealed_mem() -> (r: Result<EncryptedMem, MemSecurityErr>) {
    EncryptedMem::new()
}

/// Calls `memsecurity::EncryptedMem::encrypt` on the key. Claimed: when it succeeds, the memory
/// holds the key (the crate encrypts it with the process sealing key and the memory's nonce).
#[verifier::external_body]
fn seal_key(mem: &mut EncryptedMem, key: &[u8; KEY_LENGTH]) -> (r: Result<(), MemSecurityErr>)
    ensures
        r is Ok ==> sealed_bytes(*final(mem)) == key@,
{
    match mem.encrypt(key) {
        Ok(_) => Ok(()),
        Err(e) => Err(e),
    }
}

/// Calls `memsecurity::EncryptedMem::decrypt` and copies the plaintext out. Claimed: what comes
/// back is what the memory holds (decryption with the same sealing key and nonce that
/// encrypted it); whether it succeeds is not claimed.
#[verifier::external_body]
fn unseal_key(mem: &EncryptedMem) -> (r: Result<Vec<u8>, MemSecurityErr>)
    ensures
        r matches Ok(v) ==> v@ == sealed_bytes(*mem),
{
    match mem.decrypt() {
        Ok(z) => Ok(z.expose_borrowed().to_vec()),
        Err(e) => Err(e),
    }
}

/// Calls `zeroize::Zeroize::zeroize` on a key. Claimed: every byte is zero afterwards.
#[verifier::external_body]
fn zeroize_key(key: &mut [u8; KEY_LENGTH])
    ensures
        final(key)@ == zeros(KEY_LENGTH as nat),
{
    key.zeroize();
}

/// The names on a vault path: its pieces between '/' characters, without the empty ones (the
/// root "/" has none).
pub open spec fn vault_path_names(p: Seq<char>) -> Seq<Seq<char>> {
    nonempty_pieces(split_chars(p, '/'))
}

/// The pieces that are not empty, in order.
pub open spec fn nonempty_pieces(s: Seq<Seq<char>>) -> Seq<Seq<char>>
    decreases s.len(),
{
    if s.len() == 0 {
        Seq::empty()
    } else if s.last().len() > 0 {
        nonempty_pieces(s.drop_last()).push(s.last())
    } else {
        nonempty_pieces(s.drop_last())
    }
}

/// The names on a vault path, front first.
pub fn path_deque(path: &VaultPath) -> (r: VecDeque<&str>)
    ensures
        path_names(r@) == vault_path_names(path@),
{
    let parts = path.parts();
    let mut r: VecDeque<&str> = VecDeque::new();
    let ghost pieces = split_chars(path@, '/');
    let mut i: usize = 0;
    while i < parts.len()
        invariant
            i <= parts@.len(),
            parts@.len() == pieces.len(),
            pieces == split_chars(path@, '/'),
            forall|k: int| 0 <= k < parts@.len() ==> (#[trigger] parts@[k])@ == pieces[k],
            path_names(r@) == nonempty_pieces(pieces.subrange(0, i as int)),
        decreases parts@.len() - i,
    {
        let piece = parts[i];
        assert(pieces.subrange(0, i + 1).drop_last() =~= pieces.subrange(0, i as int));
        let ghost before = r@;
        if piece.unicode_len() > 0 {
            r.push_back(piece);
            assert(path_names(r@) =~= path_names(before).push(piece@));
        }
        i += 1;
    }
    assert(pieces.subrange(0, parts@.len() as int) =~= pieces);
    r
}

/// Maint Entry point that manages vault information about a schlosser vault
#[derive(Debug)]
pub struct VaultManager {
    /// Name of the vault
    name: String,
    /// The vault key, kept encrypted in memory
    vaultkey: EncryptedMem,
    /// The root vault entry
    root: DirectoryEntry,
    /// internal context for tracking changes to the vault
    context: VaultContext,
}

impl VaultManager {
    /// The manager is consistent: every entry's blocks are usable, the memory holds a key, and
    /// the empty blocks are well formed.
    pub closed spec fn wf(&self) -> bool {
        &&& blocks_valid(VaultEntryView::Directory(self.root.dview()))
        &&& sealed_bytes(self.vaultkey).len() == KEY_LENGTH
        &&& self.context.empty().wf()
    }

    /// The directory tree of the vault
    pub closed spec fn tree(&self) -> DirectoryView {
        self.root.dview()
    }

    /// The vault file contents
    pub closed spec fn file(&self) -> Seq<u8> {
        self.context.file()
    }

    /// The vault key
    pub closed spec fn key(&self) -> Seq<u8> {
        sealed_bytes(self.vaultkey)
    }

    /// The vault name (as the header holds it)
    pub closed spec fn name(&self) -> Seq<char> {
        self.name@
    }

    /// Whether the empty blocks can serve an allocation of `first` blocks and then one of a
    /// single block, with `extra` bytes to spare in the file length.
    pub closed spec fn has_room(&self, first: int, extra: nat) -> bool {
        can_allocate(self.context, first, extra)
    }

    /// The blocks of the vault file that are empty (free for new data)
    pub closed spec fn free_blocks(&self) -> Set<int> {
        self.context.empty()@
    }

    /// The blocks that a new entry with `n` blocks of data takes (the allocation of its data,
    /// then the one of its entry block) are free of the tree and lie within the file.
    pub closed spec fn fresh_blocks_in_file(&self, n: int) -> bool {
        let ranges = self.context.empty().ranges();
        let occ = occupied(VaultEntryView::Directory(self.tree()));
        let s = alloc_start(ranges, n) as int;
        let b = alloc_start(occupy_ranges(ranges, n), 1) as int;
        &&& forall|k: int| s <= k < s + n ==> !#[trigger] occ.contains(k)
        &&& !occ.contains(b)
        &&& block_offset(s + n) <= self.file().len()
        &&& block_offset(b) + DATABLOCK_LENGTH <= self.file().len()
    }

    /// The first block that the next allocation of `n` consecutive blocks takes from the empty
    /// ones.
    pub closed spec fn next_allocation(&self, n: int) -> int {
        alloc_start(self.context.empty().ranges(), n) as int
    }

    /// Whether replacing the contents of secret file `t` by `len` bytes is owed to succeed (see
    /// `secret_update_fits`).
    pub closed spec fn secret_update_owed(&self, t: SecretView, len: nat) -> bool {
        secret_update_fits(self.context, t, len)
    }

    /// Test `has_room`.
    pub fn room_for(&self, first: u64, extra: usize) -> (r: bool)
        requires
            self.wf(),
        ensures
            r == self.has_room(first as int, extra as nat),
    {
        self.context.has_room(first, extra)
    }

    /// The contents of the vault file, to be written back
    pub fn file_data(&self) -> (r: &Vec<u8>)
        ensures
            r@ == self.file(),
    {
        self.context.file_data()
    }

    /// The vault key, decrypted from memory
    fn vault_key(&self) -> (r: Result<[u8; KEY_LENGTH], MemSecurityErr>)
        requires
            self.wf(),
        ensures
            r matches Ok(k) ==> k@ == self.key(),
    {
        match unseal_key(&self.vaultkey) {
            Ok(v) => Ok(array_at::<KEY_LENGTH>(v.as_slice(), 0)),
            Err(e) => Err(e),
        }
    }
}

impl VaultManager {
    /// Open a vault from the contents of its file, unlocking it with `password` (see
    /// `VaultContext::new`); the vault key is kept encrypted in memory.
    pub fn from_file(vault_file: Vec<u8>, password: String) -> (r: Result<VaultManager, InitVaultContextError>)
        ensures
            vault_file@.len() < VAULTHEADER_LENGTH ==> r matches Err(
                InitVaultContextError::ReadHeaderError(ReadHeaderError::UnexpectedEOF),
            ),
            vault_file@.len() >= VAULTHEADER_LENGTH && !header_accepted(header_of(vault_file@)) ==> r matches Err(
                InitVaultContextError::ReadHeaderError(_),
            ),
            vault_file@.len() >= VAULTHEADER_LENGTH && header_accepted(header_of(vault_file@)) && header_key(
                header_of(vault_file@),
                password@,
            ) is Err ==> r matches Err(
                InitVaultContextError::RetrieveKeyError(RetrieveKeyError::DecryptError(CryptographyError::InauthenticTag)),
            ),
            vault_file@.len() >= VAULTHEADER_LENGTH && header_accepted(header_of(vault_file@)) && header_key(
                header_of(vault_file@),
                password@,
            ) is Ok && !(rebuildable(
                vault_file@,
                header_key(header_of(vault_file@), password@)->Ok_0,
                0,
                vault_file@.len() as int / DATABLOCK_LENGTH as int + 1,
            ) && stored_blocks_valid(vault_file@, header_key(header_of(vault_file@), password@)->Ok_0, 0)) ==> r matches Err(
                InitVaultContextError::BuildVaultError(_),
            ),
            (r is Ok || r matches Err(InitVaultContextError::EncryptedMemError(_))) <==> (vault_file@.len()
                >= VAULTHEADER_LENGTH && header_accepted(header_of(vault_file@)) && header_key(
                header_of(vault_file@),
                password@,
            ) is Ok && rebuildable(
                vault_file@,
                header_key(header_of(vault_file@), password@)->Ok_0,
                0,
                vault_file@.len() as int / DATABLOCK_LENGTH as int + 1,
            ) && stored_blocks_valid(vault_file@, header_key(header_of(vault_file@), password@)->Ok_0, 0)),
            r matches Ok(m) ==> {
                &&& m.key() == header_key(header_of(vault_file@), password@)->Ok_0
                &&& m.wf()
                &&& m.file() == vault_file@
                &&& m.tree().block == 0
                &&& stored_entry(vault_file@, m.key(), VaultEntryView::Directory(m.tree()))
                &&& m.name() == decode_utf8(header_of(vault_file@).subrange(9, 137))
                &&& exists|h: HeaderInfo| h.spec_serialized() == header_of(vault_file@) && unlocked_key(
                    h,
                    password@,
                ) == Ok::<Seq<u8>, ()>(m.key())
            },
    {
        let (context, root, header, key) = match VaultContext::new(vault_file, password) {
            Ok(x) => x,
            Err(e) => return Err(e),
        };
        let mut key = key;
        let mut enc_mem = match new_sealed_mem() {
            Ok(m) => m,
            Err(e) => return Err(InitVaultContextError::EncryptedMemError(e)),
        };
        match seal_key(&mut enc_mem, &key) {
            Ok(()) => {},
            Err(e) => return Err(InitVaultContextError::EncryptedMemError(e)),
        }
        zeroize_key(&mut key);
        let name = header.get_name();
        proof {
            header.lemma_serialized_fields();
        }
        Ok(VaultManager { name, vaultkey: enc_mem, root, context })
    }

    /// The overview of the vault: its name, then the overview of its directory tree.
    pub fn get_vault_info(&self) -> (r: Result<String, std::fmt::Error>)
        ensures
            r matches Ok(s) && s@ == self.name() + " Archive"@ + overview(self.tree(), 0),
    {
        let mut out = String::from_str(self.name.as_str());
        out.append(" Archive");
        match self.root.get_directory_overview(0, &mut out) {
            Ok(()) => {},
            Err(e) => return Err(e),
        }
        Ok(out)
    }

    /// Retrieve the secret of the entry at `entry_path` (see `VaultEntry::retrieve_secret`).
    pub fn retrieve_secret_entry(&self, entry_path: &String) -> (r: Result<EntryResult, RetrieveEntryError>)
        requires
            self.wf(),
        ensures
            !is_vault_path(entry_path@) ==> (r matches Err(RetrieveEntryError::InvalidVaultPath(e)) && e.path@
                == entry_path@),
            is_vault_path(entry_path@) && lookup(self.tree().children, vault_path_names(entry_path@)) is None
                ==> (r matches Err(RetrieveEntryError::GetEntryError(VaultError::EntryNotFound(p))) && p@
                == entry_path@),
            is_vault_path(entry_path@) && !(r matches Err(RetrieveEntryError::RetrieveKeyError(_))) ==> match lookup(
                self.tree().children,
                vault_path_names(entry_path@),
            ) {
                Some(VaultEntryView::Password(p)) => match spec_stored_password(self.file(), p.pwd_block, p.pwd_block_nonce, self.key()) {
                    Some(pw) => r matches Ok(EntryResult::Password(s)) && s@ == pw,
                    None => r matches Err(RetrieveEntryError::Secret(_)),
                },
                Some(VaultEntryView::Secret(sv)) => match spec_stored_secret(self.file(), sv.start, sv.size, sv.nonce, self.key()) {
                    Some(d) => r matches Ok(EntryResult::Secret(v)) && v@ == d,
                    None => r matches Err(RetrieveEntryError::Secret(_)),
                },
                Some(VaultEntryView::Directory(_)) => r matches Err(RetrieveEntryError::InvalidOperation(_, _)),
                None => r is Err,
            },
    {
        let path = match VaultPath::new(entry_path.clone()) {
            Ok(p) => p,
            Err(e) => return Err(RetrieveEntryError::InvalidVaultPath(e)),
        };
        let names = path_deque(&path);
        let target_entry = match self.root.get_entry(names, &path) {
            Ok(e) => e,
            Err(e) => return Err(RetrieveEntryError::GetEntryError(e)),
        };
        let key = match self.vault_key() {
            Ok(k) => k,
            Err(e) => return Err(RetrieveEntryError::RetrieveKeyError(e)),
        };
        proof {
            lemma_lookup_valid(self.tree().children, vault_path_names(entry_path@));
        }
        target_entry.retrieve_secret(&self.context, &key)
    }

    /// The empty data blocks of the vault: every block below the last occupied one that no
    /// entry occupies.
    pub fn get_empty_data_blocks(&self) -> (r: BlockSet)
        requires
            self.wf(),
        ensures
            r.wf(),
            exists|o: BlockSet| o.wf() && o@ == occupied(VaultEntryView::Directory(self.tree())) && r@ == Set::new(
                |b: int| 0 <= b < o.span() && !o@.contains(b),
            ),
    {
        let occupied_blocks = self.root.occupied_datablocks();
        proof {
            lemma_occupied_bounded(VaultEntryView::Directory(self.root.dview()));
            occupied_blocks.lemma_ranges_wf();
            if occupied_blocks.ranges().len() > 0 {
                let n = occupied_blocks.ranges().len() - 1;
                assert(occupied_blocks.ranges()[n].spec_contains(occupied_blocks.ranges()[n].end as int));
                assert(occupied_blocks@.contains(occupied_blocks.ranges().last().end as int));
            }
        }
        occupied_blocks.get_empty_space()
    }
}

impl VaultManager {
    /// Rename the entry at `entry_path` to `new_name` (see `DirectoryEntry::rename_entry`).
    pub fn rename(&mut self, entry_path: String, new_name: String) -> (r: Result<(), RenameEntryError>)
        requires
            old(self).wf(),
            old(self).file().len() + DATABLOCK_LENGTH <= usize::MAX,
        ensures
            final(self).wf(),
            final(self).key() == old(self).key(),
            final(self).name() == old(self).name(),
            !is_vault_path(entry_path@) ==> (r matches Err(RenameEntryError::InvalidVaultPath(e)) && e.path@
                == entry_path@),
            r is Err ==> final(self).tree() == old(self).tree(),
            is_vault_path(entry_path@) && !(r matches Err(RenameEntryError::RetrieveKeyError(_))) ==> (r is Ok <==> (
            lookup(old(self).tree().children, vault_path_names(entry_path@)) is Some && encode_utf8(new_name@).len()
                <= VAULTNAME_LENGTH && child_index(
                siblings(old(self).tree().children, vault_path_names(entry_path@)),
                new_name@,
            ) is None)),
            r is Ok ==> final(self).tree() == (DirectoryView {
                children: update_at(
                    old(self).tree().children,
                    vault_path_names(entry_path@),
                    |e: VaultEntryView| with_name(e, name_field(new_name@)),
                ),
                ..old(self).tree()
            }),
            names_distinct(VaultEntryView::Directory(old(self).tree())) ==> names_distinct(
                VaultEntryView::Directory(final(self).tree()),
            ),
            r is Ok && stored_entry(old(self).file(), old(self).key(), VaultEntryView::Directory(old(self).tree()))
                && blocks_apart(VaultEntryView::Directory(old(self).tree())) && nonces_wf(
                lookup(old(self).tree().children, vault_path_names(entry_path@))->0,
            ) ==> stored_entry(final(self).file(), final(self).key(), VaultEntryView::Directory(final(self).tree())),
    {
        let path = match VaultPath::new(entry_path) {
            Ok(p) => p,
            Err(e) => return Err(RenameEntryError::InvalidVaultPath(e)),
        };
        let key = match self.vault_key() {
            Ok(k) => k,
            Err(e) => return Err(RenameEntryError::RetrieveKeyError(e)),
        };
        let names = path_deque(&path);
        let ghost nf = name_field(new_name@);
        let res = self.root.rename_entry(names, &path, new_name, &mut self.context, &key);
        proof {
            let cs = old(self).tree().children;
            let ns = vault_path_names(path@);
            lemma_lookup_valid(cs, ns);
            if lookup(cs, ns) is Some {
                lemma_field_change_valid(lookup(cs, ns)->0, nf, Seq::empty());
            }
            lemma_update_at_valid(cs, ns, |e: VaultEntryView| with_name(e, nf));
            if res is Ok && names_distinct(VaultEntryView::Directory(old(self).tree())) {
                lemma_renamed_names_distinct(old(self).tree(), ns, new_name@, |e: VaultEntryView| with_name(e, nf));
            }
            if res is Ok && stored_entry(old(self).file(), key@, VaultEntryView::Directory(old(self).tree()))
                && blocks_apart(VaultEntryView::Directory(old(self).tree())) && nonces_wf(lookup(cs, ns)->0) {
                let bytes = encode_utf8(new_name@);
                vstd::utf8::encode_utf8_valid_utf8(new_name@);
                lemma_zeros_valid_utf8((128 - bytes.len()) as nat);
                vstd::utf8::valid_utf8_concat(bytes, zeros((128 - bytes.len()) as nat));
                lemma_renamed_stored(
                    old(self).file(),
                    self.file(),
                    key@,
                    old(self).tree(),
                    ns,
                    nf,
                    |e: VaultEntryView| with_name(e, nf),
                );
            }
        }
        match res {
            Ok(()) => Ok(()),
            Err(e) => Err(RenameEntryError::VaultError(e)),
        }
    }

    /// Replace the password of the password entry at `entry_path` (see
    /// `DirectoryEntry::change_password_at`).
    pub fn change_password(&mut self, entry_path: String, password: String) -> (r: Result<(), VaultChangeEntryError>)
        requires
            old(self).wf(),
            old(self).file().len() + DATABLOCK_LENGTH <= usize::MAX,
        ensures
            final(self).wf(),
            final(self).key() == old(self).key(),
            final(self).name() == old(self).name(),
            !is_vault_path(entry_path@) ==> (r matches Err(VaultChangeEntryError::InvalidVaultPath(e)) && e.path@
                == entry_path@),
            r is Err ==> final(self).tree() == old(self).tree(),
            is_vault_path(entry_path@) && !(r matches Err(VaultChangeEntryError::RetrieveKeyError(_))) ==> match lookup(
                old(self).tree().children,
                vault_path_names(entry_path@),
            ) {
                None => r matches Err(VaultChangeEntryError::GetEntryError(VaultError::EntryNotFound(_))),
                Some(VaultEntryView::Directory(_)) => r matches Err(VaultChangeEntryError::InvalidOperation(_, _)),
                Some(VaultEntryView::Secret(_)) => r matches Err(VaultChangeEntryError::InvalidOperation(_, _)),
                Some(VaultEntryView::Password(p)) => encode_utf8(password@).len() <= DATABLOCK_RAW_LENGTH
                    && block_offset(p.pwd_block as int) <= old(self).file().len() ==> (r is Ok && exists|
                    nonce: Seq<u8>,
                    ct: Seq<u8>,
                |
                    #![trigger password_block_holds(old(self).key(), nonce, ct, password@)]
                    password_block_holds(old(self).key(), nonce, ct, password@) && final(self).file() == write_at(
                        old(self).file(),
                        block_offset(p.pwd_block as int),
                        ct,
                    ) && final(self).tree() == (DirectoryView {
                        children: update_at(
                            old(self).tree().children,
                            vault_path_names(entry_path@),
                            |e: VaultEntryView| with_pwd_nonce(e, nonce),
                        ),
                        ..old(self).tree()
                    })),
            },
            names_distinct(VaultEntryView::Directory(old(self).tree())) ==> names_distinct(
                VaultEntryView::Directory(final(self).tree()),
            ),
    {
        let path = match VaultPath::new(entry_path) {
            Ok(p) => p,
            Err(e) => return Err(VaultChangeEntryError::InvalidVaultPath(e)),
        };
        let key = match self.vault_key() {
            Ok(k) => k,
            Err(e) => return Err(VaultChangeEntryError::RetrieveKeyError(e)),
        };
        let names = path_deque(&path);
        let res = self.root.change_password_at(names, &path, password, &mut self.context, &key);
        proof {
            let cs = old(self).tree().children;
            let ns = vault_path_names(path@);
            if res is Ok {
                let t = lookup(cs, ns)->0;
                let (nonce, ct) = choose|nonce: Seq<u8>, ct: Seq<u8>| #![trigger password_block_holds(key@, nonce, ct, password@)]
                    password_block_holds(key@, nonce, ct, password@) && self.context.file() == write_at(
                        old(self).context.file(),
                        block_offset(t->Password_0.pwd_block as int),
                        ct,
                    ) && self.root.dview() == (DirectoryView {
                        children: update_at(cs, ns, |e: VaultEntryView| with_pwd_nonce(e, nonce)),
                        ..old(self).root.dview()
                    });
                lemma_lookup_valid(cs, ns);
                lemma_field_change_valid(t, Seq::empty(), nonce);
                lemma_update_at_valid(cs, ns, |e: VaultEntryView| with_pwd_nonce(e, nonce));
                if names_distinct(VaultEntryView::Directory(old(self).tree())) {
                    lemma_updated_names_distinct(old(self).tree(), ns, |e: VaultEntryView| with_pwd_nonce(e, nonce));
                }
            }
        }
        res
    }

    /// Replace the contents of the secret file entry at `entry_path` (see
    /// `DirectoryEntry::change_secret_at`).
    pub fn change_secret(&mut self, entry_path: String, contents: Vec<u8>) -> (r: Result<(), VaultChangeEntryError>)
        requires
            old(self).wf(),
        ensures
            final(self).wf(),
            final(self).key() == old(self).key(),
            final(self).name() == old(self).name(),
            !is_vault_path(entry_path@) ==> (r matches Err(VaultChangeEntryError::InvalidVaultPath(e)) && e.path@
                == entry_path@),
            is_vault_path(entry_path@) && !(r matches Err(VaultChangeEntryError::RetrieveKeyError(_))) ==> match lookup(
                old(self).tree().children,
                vault_path_names(entry_path@),
            ) {
                None => r matches Err(VaultChangeEntryError::GetEntryError(VaultError::EntryNotFound(_))),
                Some(VaultEntryView::Directory(_)) => r matches Err(VaultChangeEntryError::InvalidOperation(_, _)),
                Some(VaultEntryView::Password(_)) => r matches Err(VaultChangeEntryError::InvalidOperation(_, _)),
                Some(VaultEntryView::Secret(t)) => (old(self).secret_update_owed(t, contents@.len()) ==> r is Ok)
                    && (r is Ok ==> exists|e2: SecretView|
                    #![trigger blocks_valid(VaultEntryView::Secret(e2))]
                    e2.name == t.name && e2.block == t.block && e2.next == t.next && blocks_valid(
                        VaultEntryView::Secret(e2),
                    ) && final(self).tree() == (DirectoryView {
                        children: update_at(
                            old(self).tree().children,
                            vault_path_names(entry_path@),
                            |e: VaultEntryView| VaultEntryView::Secret(e2),
                        ),
                        ..old(self).tree()
                    }) && (secret_reads_back(old(self).file(), t, e2, contents@.len()) ==> spec_stored_secret(
                        final(self).file(),
                        e2.start,
                        e2.size,
                        e2.nonce,
                        final(self).key(),
                    ) == Some(pad_to(contents@, secret_padded_len(contents@.len()))))),
            },
            r is Err ==> final(self).tree() == old(self).tree(),
            names_distinct(VaultEntryView::Directory(old(self).tree())) ==> names_distinct(
                VaultEntryView::Directory(final(self).tree()),
            ),
    {
        let path = match VaultPath::new(entry_path) {
            Ok(p) => p,
            Err(e) => return Err(VaultChangeEntryError::InvalidVaultPath(e)),
        };
        let key = match self.vault_key() {
            Ok(k) => k,
            Err(e) => return Err(VaultChangeEntryError::RetrieveKeyError(e)),
        };
        let names = path_deque(&path);
        let res = self.root.change_secret_at(names, &path, contents, &mut self.context, &key);
        proof {
            let cs = old(self).tree().children;
            let ns = vault_path_names(path@);
            if res is Ok {
                let t = lookup(cs, ns)->0;
                let e2 = choose|e2: SecretView| #![trigger blocks_valid(VaultEntryView::Secret(e2))]
                    e2.name == t->Secret_0.name && e2.block == t->Secret_0.block && e2.next == t->Secret_0.next
                        && blocks_valid(VaultEntryView::Secret(e2)) && self.root.dview() == (DirectoryView {
                        children: update_at(cs, ns, |e: VaultEntryView| VaultEntryView::Secret(e2)),
                        ..old(self).root.dview()
                    });
                lemma_update_at_valid(cs, ns, |e: VaultEntryView| VaultEntryView::Secret(e2));
                if names_distinct(VaultEntryView::Directory(old(self).tree())) {
                    lemma_updated_names_distinct(old(self).tree(), ns, |e: VaultEntryView| VaultEntryView::Secret(e2));
                }
            }
        }
        res
    }

    /// Delete the entry at `entry_path` (see `DirectoryEntry::delete_entry`); the vault key seals
    /// the directory's entry block when its first entry goes.
    pub fn delete_entry(&mut self, entry_path: String) -> (r: Result<(), DeleteEntryError>)
        requires
            old(self).wf(),
            old(self).file().len() + DATABLOCK_LENGTH <= usize::MAX,
        ensures
            final(self).wf(),
            final(self).key() == old(self).key(),
            final(self).name() == old(self).name(),
            !is_vault_path(entry_path@) ==> (r matches Err(DeleteEntryError::InvalidVaultPath(e)) && e.path@
                == entry_path@),
            r matches Err(DeleteEntryError::RetrieveKeyError(_)) ==> *final(self) == *old(self),
            is_vault_path(entry_path@) && !(r matches Err(DeleteEntryError::RetrieveKeyError(_))) && lookup(
                old(self).tree().children,
                vault_path_names(entry_path@),
            ) is None ==> (r matches Err(
                DeleteEntryError::VaultError(VaultChangeError::VaultError(VaultError::EntryNotFound(_))),
            ) && final(self).tree() == old(self).tree()),
            is_vault_path(entry_path@) && !(r matches Err(DeleteEntryError::RetrieveKeyError(_))) && lookup(
                old(self).tree().children,
                vault_path_names(entry_path@),
            ) is Some ==> final(self).tree() == delete_in(old(self).tree(), vault_path_names(entry_path@)),
            is_vault_path(entry_path@) && !(r matches Err(DeleteEntryError::RetrieveKeyError(_))) && (lookup(
                old(self).tree().children,
                vault_path_names(entry_path@),
            ) matches Some(t) && (forall|b: int| #[trigger] occupied(t).contains(b) ==> block_offset(b) <= old(
                self,
            ).file().len())) ==> r is Ok,
            is_vault_path(entry_path@) && r is Ok ==> blocks_erased(
                final(self).file(),
                occupied(lookup(old(self).tree().children, vault_path_names(entry_path@))->0),
            ),
            is_vault_path(entry_path@) && r is Ok ==> final(self).free_blocks() == old(self).free_blocks().union(
                occupied(lookup(old(self).tree().children, vault_path_names(entry_path@))->0),
            ),
            is_vault_path(entry_path@) && r is Ok ==> exists|mid: Seq<u8>|
                unlinked_at(old(self).file(), mid, old(self).tree(), vault_path_names(entry_path@), old(self).key())
                    && same_outside(
                    mid,
                    final(self).file(),
                    occupied(lookup(old(self).tree().children, vault_path_names(entry_path@))->0),
                ),
            is_vault_path(entry_path@) && r is Ok && stored_entry(
                old(self).file(),
                old(self).key(),
                VaultEntryView::Directory(old(self).tree()),
            ) && blocks_apart(VaultEntryView::Directory(old(self).tree())) && name_wf(
                dir_along(old(self).tree(), vault_path_names(entry_path@).drop_last()).name,
            ) ==> stored_entry(final(self).file(), final(self).key(), VaultEntryView::Directory(final(self).tree())),
            names_distinct(VaultEntryView::Directory(old(self).tree())) ==> names_distinct(
                VaultEntryView::Directory(final(self).tree()),
            ),
    {
        let path = match VaultPath::new(entry_path) {
            Ok(p) => p,
            Err(e) => return Err(DeleteEntryError::InvalidVaultPath(e)),
        };
        let key = match self.vault_key() {
            Ok(k) => k,
            Err(e) => return Err(DeleteEntryError::RetrieveKeyError(e)),
        };
        let names = path_deque(&path);
        let res = self.root.delete_entry(names, &path, &mut self.context, &key);
        proof {
            let ns = vault_path_names(path@);
            lemma_delete_in_valid(old(self).tree(), ns);
            if names_distinct(VaultEntryView::Directory(old(self).tree())) {
                lemma_deleted_names_distinct(old(self).tree(), ns);
            }
            if res is Ok && stored_entry(old(self).file(), key@, VaultEntryView::Directory(old(self).tree()))
                && blocks_apart(VaultEntryView::Directory(old(self).tree())) && name_wf(
                dir_along(old(self).tree(), ns.drop_last()).name,
            ) {
                let t = lookup(old(self).tree().children, ns)->0;
                let mid = choose|mid: Seq<u8>|
                    unlinked_at(old(self).file(), mid, old(self).tree(), ns, key@) && same_outside(
                        mid,
                        self.file(),
                        occupied(t),
                    );
                lemma_deleted_stored(old(self).file(), mid, self.file(), key@, old(self).tree(), ns);
            }
        }
        match res {
            Ok(()) => Ok(()),
            Err(e) => Err(DeleteEntryError::VaultError(e)),
        }
    }
}

impl VaultManager {
    /// Add an empty directory named `dir_name` to the directory at `dir_path`: its entry block is
    /// written, then it is appended to that directory (see `DirectoryEntry::new_entry`).
    pub fn new_directory(&mut self, dir_path: String, dir_name: String) -> (r: Result<(), NewEntryError>)
        requires
            old(self).wf(),
            old(self).has_room(0, DATABLOCK_LENGTH as nat),
        ensures
            final(self).wf(),
            final(self).key() == old(self).key(),
            final(self).name() == old(self).name(),
            !is_vault_path(dir_path@) ==> (r matches Err(NewEntryError::InvalidVaultPath(e)) && e.path@ == dir_path@
                && final(self).file() == old(self).file()),
            r is Err ==> final(self).tree() == old(self).tree(),
            is_vault_path(dir_path@) && encode_utf8(dir_name@).len() > VAULTENTRYNAME_LENGTH ==> r is Err,
            is_vault_path(dir_path@) && encode_utf8(dir_name@).len() <= VAULTENTRYNAME_LENGTH && !(r matches Err(
                NewEntryError::RetrieveKeyError(_),
            )) ==> (r is Ok <==> exists|e: VaultEntryView| #[trigger] insert_in(old(self).tree(), vault_path_names(dir_path@), e) is Some),
            r is Ok ==> exists|e: VaultEntryView|
                insert_in(old(self).tree(), vault_path_names(dir_path@), e) == Some(final(self).tree()) && e
                    is Directory && e.name() == name_field(dir_name@) && e->Directory_0.children.len() == 0,
            r is Ok && stored_entry(old(self).file(), old(self).key(), VaultEntryView::Directory(old(self).tree()))
                && blocks_apart(VaultEntryView::Directory(old(self).tree())) && name_wf(
                dir_along(old(self).tree(), vault_path_names(dir_path@)).name,
            ) && !occupied(VaultEntryView::Directory(old(self).tree())).contains(old(self).next_allocation(1))
                && block_offset(old(self).next_allocation(1)) + DATABLOCK_LENGTH <= old(self).file().len()
                ==> stored_entry(final(self).file(), final(self).key(), VaultEntryView::Directory(final(self).tree())),
            names_distinct(VaultEntryView::Directory(old(self).tree())) && (dir_at(
                old(self).tree(),
                vault_path_names(dir_path@),
            ) matches Some(t) && child_index(t.children, dir_name@) is None) ==> names_distinct(
                VaultEntryView::Directory(final(self).tree()),
            ),
    {
        let path = match VaultPath::new(dir_path) {
            Ok(p) => p,
            Err(e) => return Err(NewEntryError::InvalidVaultPath(e)),
        };
        let key = match self.vault_key() {
            Ok(k) => k,
            Err(e) => return Err(NewEntryError::RetrieveKeyError(e)),
        };
        let ghost file0 = self.context.file();
        let dir = match DirectoryEntry::new(dir_name, &key, &mut self.context) {
            Ok(d) => d,
            Err(e) => return Err(NewEntryError::VaultChangeError(e)),
        };
        proof {
            assert(blocks_valid(VaultEntryView::Directory(dir.dview())));
        }
        let ghost f2 = self.context.file();
        let ghost dd = dir.dview();
        let entry = VaultEntry::Directory(dir);
        let names = path_deque(&path);
        let ghost ev = entry.eview();
        let res = self.root.new_entry(names, &path, entry, &mut self.context, &key);
        proof {
            let tree = old(self).tree();
            let ns = vault_path_names(dir_path@);
            let dv = VaultEntryView::Directory(tree);
            if res is Ok && stored_entry(file0, key@, dv) && blocks_apart(dv) && name_wf(dir_along(tree, ns).name)
                && !occupied(dv).contains(old(self).next_allocation(1)) && block_offset(old(self).next_allocation(1))
                + DATABLOCK_LENGTH <= file0.len() {
                let eb = choose|eb: Seq<u8>|
                    f2 == block_written(file0, dd.block, eb) && eb == entry_block_bytes(
                        DIRENTRY_TYPE,
                        -1i64,
                        eb.subrange(9, 21),
                        aes256gcm_seal(key@, eb.subrange(9, 21), directory_plain(dd)),
                    ) && eb.len() == DATABLOCK_LENGTH && spec_decrypt(
                        key@,
                        eb.subrange(9, 21),
                        aes256gcm_seal(key@, eb.subrange(9, 21), directory_plain(dd)),
                    ) == Ok::<Seq<u8>, ()>(directory_plain(dd)) && aes256gcm_seal(
                        key@,
                        eb.subrange(9, 21),
                        directory_plain(dd),
                    ).len() == directory_plain(dd).len() + AES_TAG_LENGTH;
                assert(f2 == write_at(file0, block_offset(dd.block as int), eb));
                assert(ev == VaultEntryView::Directory(dd));
                assert(occupied(ev) =~= set![dd.block as int]) by {
                    assert(occupied_children(dd.children, 0) =~= Set::<int>::empty());
                }
                assert(occupied(ev).disjoint(occupied(dv)));
                assert(insert_in(tree, ns, ev) == Some(self.tree()));
                lemma_added_stored(file0, file0, self.file(), key@, tree, ns, ev, eb);
            }
        }
        proof {
            lemma_insert_in_valid(old(self).tree(), vault_path_names(path@), ev);
            if res is Ok {
                assert(insert_in(old(self).tree(), vault_path_names(dir_path@), ev) == Some(self.tree()));
                assert(ev is Directory && ev.name() == name_field(dir_name@) && ev->Directory_0.children.len() == 0);
                let ns = vault_path_names(dir_path@);
                if names_distinct(VaultEntryView::Directory(old(self).tree())) && (dir_at(old(self).tree(), ns) matches Some(
                    t,
                ) && child_index(t.children, dir_name@) is None) {
                    lemma_inserted_names_distinct(old(self).tree(), ns, ev, dir_name@);
                }
            }
            if exists|e: VaultEntryView| #[trigger] insert_in(old(self).tree(), vault_path_names(dir_path@), e) is Some {
                let e1 = choose|e: VaultEntryView| #[trigger] insert_in(old(self).tree(), vault_path_names(dir_path@), e) is Some;
                lemma_insert_in_some(old(self).tree(), vault_path_names(dir_path@), e1, ev);
            }
        }
        match res {
            Ok(()) => Ok(()),
            Err(e) => Err(NewEntryError::VaultError(e)),
        }
    }
}

impl VaultManager {
    /// Add a secret file named `secret_name` holding `contents` to the directory at
    /// `parent_path`: its blocks and entry block are written, then it is appended to that
    /// directory (see `SecretFileEntry::new` and `DirectoryEntry::new_entry`).
    pub fn new_secret(&mut self, parent_path: String, secret_name: String, contents: Vec<u8>) -> (r: Result<
        (),
        NewEntryError,
    >)
        requires
            old(self).wf(),
            contents@.len() + AES_GCM_AUTH_TAG + DATABLOCK_LENGTH <= usize::MAX,
            old(self).has_room(secret_block_count(contents@.len()) as int, (contents@.len() + DATABLOCK_LENGTH) as nat),
        ensures
            final(self).wf(),
            final(self).key() == old(self).key(),
            final(self).name() == old(self).name(),
            !is_vault_path(parent_path@) ==> (r matches Err(NewEntryError::InvalidVaultPath(e)) && e.path@
                == parent_path@ && final(self).file() == old(self).file()),
            r is Err ==> final(self).tree() == old(self).tree(),
            is_vault_path(parent_path@) && encode_utf8(secret_name@).len() > VAULTNAME_LENGTH ==> r is Err,
            is_vault_path(parent_path@) && encode_utf8(secret_name@).len() <= VAULTNAME_LENGTH && secret_padded_len(
                contents@.len(),
            ) <= AES_MAX_PLAINTEXT && !(r matches Err(NewEntryError::RetrieveKeyError(_))) ==> (r is Ok <==> exists|
                e: VaultEntryView,
            | #[trigger] insert_in(old(self).tree(), vault_path_names(parent_path@), e) is Some),
            r is Ok ==> exists|e: VaultEntryView|
                insert_in(old(self).tree(), vault_path_names(parent_path@), e) == Some(final(self).tree()) && e
                    is Secret && e.name() == name_field(secret_name@),
            names_distinct(VaultEntryView::Directory(old(self).tree())) && (dir_at(
                old(self).tree(),
                vault_path_names(parent_path@),
            ) matches Some(t) && child_index(t.children, secret_name@) is None) ==> names_distinct(
                VaultEntryView::Directory(final(self).tree()),
            ),
            ({
                let n = secret_block_count(contents@.len()) as int;
                let start = old(self).next_allocation(n);
                r is Ok && (forall|b: int| start <= b < start + n ==> !#[trigger] occupied(
                    VaultEntryView::Directory(old(self).tree()),
                ).contains(b)) && block_offset(start) <= old(self).file().len() ==> exists|t: SecretView|
                    insert_in(old(self).tree(), vault_path_names(parent_path@), VaultEntryView::Secret(t)) == Some(
                        final(self).tree(),
                    ) && t.start == start && t.size == n && spec_stored_secret(
                        final(self).file(),
                        t.start,
                        t.size,
                        t.nonce,
                        final(self).key(),
                    ) == Some(pad_to(contents@, secret_padded_len(contents@.len())))
            }),
            r is Ok && stored_entry(old(self).file(), old(self).key(), VaultEntryView::Directory(old(self).tree()))
                && blocks_apart(VaultEntryView::Directory(old(self).tree())) && name_wf(
                dir_along(old(self).tree(), vault_path_names(parent_path@)).name,
            ) && old(self).fresh_blocks_in_file(secret_block_count(contents@.len()) as int) ==> stored_entry(
                final(self).file(),
                final(self).key(),
                VaultEntryView::Directory(final(self).tree()),
            ),
    {
        let path = match VaultPath::new(parent_path) {
            Ok(p) => p,
            Err(e) => return Err(NewEntryError::InvalidVaultPath(e)),
        };
        let key = match self.vault_key() {
            Ok(k) => k,
            Err(e) => return Err(NewEntryError::RetrieveKeyError(e)),
        };
        let ghost old_name = secret_name;
        let ghost plain = pad_to(contents@, secret_padded_len(contents@.len()));
        let ghost n = secret_block_count(contents@.len()) as int;
        let ghost f0 = self.context.file();
        let ghost ranges0 = self.context.empty().ranges();
        let secret = match SecretFileEntry::new(secret_name, contents, &mut self.context, &key) {
            Ok(s) => s,
            Err(e) => return Err(NewEntryError::VaultChangeError(e)),
        };
        let ghost sv = secret@;
        let ghost f2 = self.context.file();
        let ghost start = old(self).next_allocation(n);
        let ghost readable = (forall|b: int| start <= b < start + n ==> !#[trigger] occupied(
            VaultEntryView::Directory(old(self).tree()),
        ).contains(b)) && block_offset(start) <= old(self).file().len();
        proof {
            if readable {
                old(self).context.empty().lemma_ranges_wf();
                crate::vault::utils::lemma_occupy_ranges_end(ranges0, n);
                let (ct, eb) = choose|ct: Seq<u8>, eb: Seq<u8>|
                    f2 == block_written(block_written(f0, sv.start, ct), sv.block, eb) && ct.len() == n
                        * DATABLOCK_LENGTH && eb.len() == DATABLOCK_LENGTH && spec_decrypt(key@, sv.nonce, ct) == Ok::<
                        Seq<u8>,
                        (),
                    >(plain) && eb == entry_block_bytes(
                        SECRETENTRY_TYPE,
                        sv.next,
                        eb.subrange(9, 21),
                        aes256gcm_seal(key@, eb.subrange(9, 21), secret_plain(sv)),
                    );
                lemma_new_secret_reads_back(ranges0, n as u64, f0, key@, sv.nonce, ct, eb, plain);
            }
        }
        let entry = VaultEntry::Secret(secret);
        let names = path_deque(&path);
        let ghost ev = entry.eview();
        let res = self.root.new_entry(names, &path, entry, &mut self.context, &key);
        proof {
            let tree = old(self).tree();
            let ns = vault_path_names(parent_path@);
            let dv = VaultEntryView::Directory(tree);
            if res is Ok && stored_entry(f0, key@, dv) && blocks_apart(dv) && name_wf(dir_along(tree, ns).name)
                && old(self).fresh_blocks_in_file(n) {
                let (ct, eb) = choose|ct: Seq<u8>, eb: Seq<u8>|
                    f2 == block_written(block_written(f0, sv.start, ct), sv.block, eb) && ct.len() == n
                        * DATABLOCK_LENGTH && eb.len() == DATABLOCK_LENGTH && spec_decrypt(key@, sv.nonce, ct) == Ok::<
                        Seq<u8>,
                        (),
                    >(plain) && eb == entry_block_bytes(
                        SECRETENTRY_TYPE,
                        sv.next,
                        eb.subrange(9, 21),
                        aes256gcm_seal(key@, eb.subrange(9, 21), secret_plain(sv)),
                    ) && spec_decrypt(
                        key@,
                        eb.subrange(9, 21),
                        aes256gcm_seal(key@, eb.subrange(9, 21), secret_plain(sv)),
                    ) == Ok::<Seq<u8>, ()>(secret_plain(sv)) && aes256gcm_seal(
                        key@,
                        eb.subrange(9, 21),
                        secret_plain(sv),
                    ).len() == secret_plain(sv).len() + AES_TAG_LENGTH;
                let s0 = sv.start as int;
                assert(block_offset(s0) < block_offset(s0 + n)) by (nonlinear_arith)
                    requires
                        n >= 1,
                ;
                let f1 = block_written(f0, sv.start, ct);
                assert(f1 == write_at(f0, block_offset(s0), ct));
                lemma_write_run_agree(f0, s0, n, ct, occupied(dv));
                assert(block_offset(s0) + ct.len() == block_offset(s0 + n)) by (nonlinear_arith)
                    requires
                        ct.len() == n * 272,
                ;
                assert(f1.len() == f0.len());
                assert(f2 == write_at(f1, block_offset(sv.block as int), eb));
                assert forall|b: int| #[trigger] occupied(ev).contains(b) implies !occupied(dv).contains(b) by {
                    if b != sv.block as int {
                        assert(s0 <= b < s0 + n);
                    }
                }
                assert(occupied(ev).disjoint(occupied(dv)));
                assert(insert_in(tree, ns, ev) == Some(self.tree()));
                lemma_added_stored(f0, f1, self.file(), key@, tree, ns, ev, eb);
            }
        }
        proof {
            if readable && res is Ok {
                lemma_stored_secret_kept(
                    f2,
                    self.context.file(),
                    occupied(VaultEntryView::Directory(old(self).tree())),
                    sv.start,
                    sv.size,
                    sv.nonce,
                    key@,
                );
                assert(insert_in(old(self).tree(), vault_path_names(parent_path@), VaultEntryView::Secret(sv)) == Some(self.tree()));
            }
            lemma_insert_in_valid(old(self).tree(), vault_path_names(path@), ev);
            if res is Ok {
                assert(insert_in(old(self).tree(), vault_path_names(parent_path@), ev) == Some(self.tree()));
                assert(ev.name() == name_field(old_name@));
                let ns = vault_path_names(parent_path@);
                if names_distinct(VaultEntryView::Directory(old(self).tree())) && (dir_at(old(self).tree(), ns) matches Some(
                    t,
                ) && child_index(t.children, old_name@) is None) {
                    lemma_inserted_names_distinct(old(self).tree(), ns, ev, old_name@);
                }
            }
            if exists|e: VaultEntryView| #[trigger] insert_in(old(self).tree(), vault_path_names(parent_path@), e) is Some {
                let e1 = choose|e: VaultEntryView| #[trigger] insert_in(old(self).tree(), vault_path_names(parent_path@), e) is Some;
                lemma_insert_in_some(old(self).tree(), vault_path_names(parent_path@), e1, ev);
            }
        }
        match res {
            Ok(()) => Ok(()),
            Err(e) => Err(NewEntryError::VaultError(e)),
        }
    }

    /// Add a password entry named `password_name` holding `password` to the directory at
    /// `parent_path`: its password block and entry block are written, then it is appended to
    /// that directory (see `PasswordEntry::new` and `DirectoryEntry::new_entry`).
    pub fn new_password(&mut self, parent_path: String, password_name: String, password: String) -> (r: Result<
        (),
        NewEntryError,
    >)
        requires
            old(self).wf(),
            old(self).has_room(1, DATABLOCK_LENGTH as nat),
        ensures
            final(self).wf(),
            final(self).key() == old(self).key(),
            final(self).name() == old(self).name(),
            !is_vault_path(parent_path@) ==> (r matches Err(NewEntryError::InvalidVaultPath(e)) && e.path@
                == parent_path@ && final(self).file() == old(self).file()),
            r is Err ==> final(self).tree() == old(self).tree(),
            is_vault_path(parent_path@) && (encode_utf8(password_name@).len() > VAULTENTRYNAME_LENGTH || encode_utf8(
                password@,
            ).len() > DATABLOCK_RAW_LENGTH) ==> r is Err,
            is_vault_path(parent_path@) && encode_utf8(password_name@).len() <= VAULTENTRYNAME_LENGTH && encode_utf8(
                password@,
            ).len() <= DATABLOCK_RAW_LENGTH && !(r matches Err(NewEntryError::RetrieveKeyError(_))) ==> (r is Ok
                <==> exists|e: VaultEntryView| #[trigger] insert_in(old(self).tree(), vault_path_names(parent_path@), e) is Some),
            r is Ok ==> exists|e: VaultEntryView|
                insert_in(old(self).tree(), vault_path_names(parent_path@), e) == Some(final(self).tree()) && e
                    is Password && e.name() == name_field(password_name@),
            names_distinct(VaultEntryView::Directory(old(self).tree())) && (dir_at(
                old(self).tree(),
                vault_path_names(parent_path@),
            ) matches Some(t) && child_index(t.children, password_name@) is None) ==> names_distinct(
                VaultEntryView::Directory(final(self).tree()),
            ),
            r is Ok && !occupied(VaultEntryView::Directory(old(self).tree())).contains(old(self).next_allocation(1))
                && block_offset(old(self).next_allocation(1)) <= old(self).file().len() && (encode_utf8(password@).len()
                == 0 || encode_utf8(password@).last() != 0) ==> exists|p: PasswordView|
                insert_in(old(self).tree(), vault_path_names(parent_path@), VaultEntryView::Password(p)) == Some(
                    final(self).tree(),
                ) && p.pwd_block == old(self).next_allocation(1) && spec_stored_password(
                    final(self).file(),
                    p.pwd_block,
                    p.pwd_block_nonce,
                    final(self).key(),
                ) == Some(password@),
            r is Ok && stored_entry(old(self).file(), old(self).key(), VaultEntryView::Directory(old(self).tree()))
                && blocks_apart(VaultEntryView::Directory(old(self).tree())) && name_wf(
                dir_along(old(self).tree(), vault_path_names(parent_path@)).name,
            ) && old(self).fresh_blocks_in_file(1) ==> stored_entry(
                final(self).file(),
                final(self).key(),
                VaultEntryView::Directory(final(self).tree()),
            ),
    {
        let path = match VaultPath::new(parent_path) {
            Ok(p) => p,
            Err(e) => return Err(NewEntryError::InvalidVaultPath(e)),
        };
        let key = match self.vault_key() {
            Ok(k) => k,
            Err(e) => return Err(NewEntryError::RetrieveKeyError(e)),
        };
        let ghost old_name = password_name;
        let ghost pw = password@;
        let ghost f0 = self.context.file();
        let ghost ranges0 = self.context.empty().ranges();
        let password = match PasswordEntry::new(password_name, password, &mut self.context, &key) {
            Ok(p) => p,
            Err(e) => return Err(NewEntryError::VaultChangeError(e)),
        };
        let ghost pv = password@;
        let ghost f2 = self.context.file();
        let ghost readable = !occupied(VaultEntryView::Directory(old(self).tree())).contains(old(self).next_allocation(1))
            && block_offset(old(self).next_allocation(1)) <= old(self).file().len() && (encode_utf8(pw).len() == 0
            || encode_utf8(pw).last() != 0);
        proof {
            if readable {
                old(self).context.empty().lemma_ranges_wf();
                let (ct, eb) = choose|ct: Seq<u8>, eb: Seq<u8>|
                    f2 == block_written(block_written(f0, pv.pwd_block, ct), pv.block, eb) && password_block_holds(
                        key@,
                        pv.pwd_block_nonce,
                        ct,
                        pw,
                    ) && eb == entry_block_bytes(
                        PASSWORDENTRY_TYPE,
                        pv.next,
                        eb.subrange(9, 21),
                        aes256gcm_seal(key@, eb.subrange(9, 21), password_plain(pv)),
                    );
                lemma_new_password_reads_back(ranges0, f0, key@, pv.pwd_block_nonce, ct, eb, pw);
            }
        }
        let entry = VaultEntry::Password(password);
        let names = path_deque(&path);
        let ghost ev = entry.eview();
        let res = self.root.new_entry(names, &path, entry, &mut self.context, &key);
        proof {
            let tree = old(self).tree();
            let ns = vault_path_names(parent_path@);
            if res is Ok && stored_entry(f0, key@, VaultEntryView::Directory(tree)) && blocks_apart(
                VaultEntryView::Directory(tree),
            ) && name_wf(dir_along(tree, ns).name) && old(self).fresh_blocks_in_file(1) {
                let (ct, eb) = choose|ct: Seq<u8>, eb: Seq<u8>|
                    f2 == block_written(block_written(f0, pv.pwd_block, ct), pv.block, eb) && password_block_holds(
                        key@,
                        pv.pwd_block_nonce,
                        ct,
                        pw,
                    ) && eb == entry_block_bytes(
                        PASSWORDENTRY_TYPE,
                        pv.next,
                        eb.subrange(9, 21),
                        aes256gcm_seal(key@, eb.subrange(9, 21), password_plain(pv)),
                    ) && eb.len() == DATABLOCK_LENGTH && spec_decrypt(
                        key@,
                        eb.subrange(9, 21),
                        aes256gcm_seal(key@, eb.subrange(9, 21), password_plain(pv)),
                    ) == Ok::<Seq<u8>, ()>(password_plain(pv)) && aes256gcm_seal(
                        key@,
                        eb.subrange(9, 21),
                        password_plain(pv),
                    ).len() == password_plain(pv).len() + AES_TAG_LENGTH;
                let dv = VaultEntryView::Directory(tree);
                let f1 = block_written(f0, pv.pwd_block, ct);
                assert(f1 == write_at(f0, block_offset(pv.pwd_block as int), ct));
                lemma_write_inside_block(f0, block_offset(pv.pwd_block as int), ct, pv.pwd_block as int, occupied(dv));
                assert(f2 == write_at(f1, block_offset(pv.block as int), eb));
                assert(occupied(ev) == set![pv.pwd_block as int, pv.block as int]);
                assert(occupied(ev).disjoint(occupied(dv)));
                assert(insert_in(tree, ns, ev) == Some(self.tree()));
                lemma_added_stored(f0, f1, self.file(), key@, tree, ns, ev, eb);
            }
        }
        proof {
            if readable && res is Ok {
                lemma_stored_password_kept(
                    f2,
                    self.context.file(),
                    occupied(VaultEntryView::Directory(old(self).tree())),
                    pv.pwd_block,
                    pv.pwd_block_nonce,
                    key@,
                );
                assert(insert_in(old(self).tree(), vault_path_names(parent_path@), VaultEntryView::Password(pv)) == Some(self.tree()));
            }
            lemma_insert_in_valid(old(self).tree(), vault_path_names(path@), ev);
            if res is Ok {
                assert(insert_in(old(self).tree(), vault_path_names(parent_path@), ev) == Some(self.tree()));
                assert(ev.name() == name_field(old_name@));
                let ns = vault_path_names(parent_path@);
                if names_distinct(VaultEntryView::Directory(old(self).tree())) && (dir_at(old(self).tree(), ns) matches Some(
                    t,
                ) && child_index(t.children, old_name@) is None) {
                    lemma_inserted_names_distinct(old(self).tree(), ns, ev, old_name@);
                }
            }
            if exists|e: VaultEntryView| #[trigger] insert_in(old(self).tree(), vault_path_names(parent_path@), e) is Some {
                let e1 = choose|e: VaultEntryView| #[trigger] insert_in(old(self).tree(), vault_path_names(parent_path@), e) is Some;
                lemma_insert_in_some(old(self).tree(), vault_path_names(parent_path@), e1, ev);
            }
        }
        match res {
            Ok(()) => Ok(()),
            Err(e) => Err(NewEntryError::VaultError(e)),
        }
    }
}

} // verus!
