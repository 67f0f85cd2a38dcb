//! Entry records of the table-based archive: how an entry is written to a table record, how it is
//! displayed, and how the secret of an entry is read from its data blocks.
use vstd::prelude::*;
use vstd::utf8::{decode_utf8, encode_utf8, valid_utf8};
use crate::crypt::{decrypt_region, spec_decrypt, AES_NONCE_LENGTH, KEY_LENGTH};
use crate::error::{OperationType, ReadFieldError, ReadVaultFileError, VaultEntryType, VaultError};
use crate::vault::codec::{
    array_at, copy_range, lemma_le8_roundtrip, le8, name_buffer, name_field, put_slice, put_u64_le,
    put_zeros, string_from_utf8, trim_trailing_zeros, trim_zeros, zeros,
};
use crate::vault::entry::{decimal, decimal_string};
use crate::vault::table::{
    entry_name, record_name, spec_read_entry, DirectoryEntry, PasswordEntry, SecretFileEntry, TableDirectoryView,
    TableEntryView, TablePasswordView, TableSecretView, VaultEntry, DIRENTRY_TYPE, PASSWORDENTRY_TYPE,
    SECRETENTRY_TYPE, VAULTENTRY_LENGTH,
};

verus! {

/// Length of the plaintext of a data block
pub const DATABLOCK_RAW_LENGTH: usize = 256;
/// Length of an encrypted data block (plaintext and tag)
pub const DATABLOCK_LENGTH: usize = 272;

/// A name as a record gives it back: its characters followed by the NUL characters of the
/// zero padding of the 128-byte name field.
pub open spec fn padded_name(name: Seq<char>) -> Seq<char> {
    name + Seq::new((128 - encode_utf8(name).len()) as nat, |i: int| '\0')
}

/// The table record of an entry; a directory record holds `count`, its number of entries.
pub open spec fn table_record(e: TableEntryView, count: u64) -> Seq<u8> {
    match e {
        TableEntryView::Password(p) => seq![PASSWORDENTRY_TYPE] + name_field(p.name) + le8(p.block) + p.nonce
            + zeros(8),
        TableEntryView::Secret(s) => seq![SECRETENTRY_TYPE] + name_field(s.name) + le8(s.block) + le8(s.size)
            + s.nonce,
        TableEntryView::Directory(d) => seq![DIRENTRY_TYPE] + name_field(d.name) + le8(count) + zeros(20),
    }
}

/// The entry a record of `e` is read back as: the name carries its padding, and a directory
/// comes without entries (they follow as records of their own).
pub open spec fn stored_view(e: TableEntryView) -> TableEntryView {
    match e {
        TableEntryView::Password(p) => TableEntryView::Password(TablePasswordView { name: padded_name(p.name), ..p }),
        TableEntryView::Secret(s) => TableEntryView::Secret(TableSecretView { name: padded_name(s.name), ..s }),
        TableEntryView::Directory(d) => TableEntryView::Directory(
            TableDirectoryView { name: padded_name(d.name), children: Map::empty() },
        ),
    }
}

proof fn lemma_encode_concat(a: Seq<char>, b: Seq<char>)
    ensures
        encode_utf8(a + b) == encode_utf8(a) + encode_utf8(b),
    decreases a.len(),
{
    if a.len() == 0 {
        assert(a + b =~= b);
        assert(encode_utf8(a) =~= Seq::<u8>::empty());
        assert(encode_utf8(a) + encode_utf8(b) =~= encode_utf8(b));
    } else {
        assert((a + b)[0] == a[0]);
        assert((a + b).drop_first() =~= a.drop_first() + b);
        lemma_encode_concat(a.drop_first(), b);
        let h = vstd::utf8::encode_scalar(a[0] as u32);
        assert(h + (encode_utf8(a.drop_first()) + encode_utf8(b)) =~= (h + encode_utf8(a.drop_first()))
            + encode_utf8(b));
    }
}

/// A name field is UTF-8 and decodes to the padded name.
pub proof fn lemma_name_field_decodes(name: Seq<char>)
    requires
        encode_utf8(name).len() <= 128,
    ensures
        valid_utf8(name_field(name)),
        decode_utf8(name_field(name)) == padded_name(name),
{
    let k = (128 - encode_utf8(name).len()) as nat;
    let nuls = Seq::new(k, |i: int| '\0');
    assert(vstd::utf8::is_ascii_chars(nuls));
    vstd::utf8::is_ascii_chars_encode_utf8(nuls);
    assert(encode_utf8(nuls) =~= zeros(k));
    lemma_encode_concat(name, nuls);
    assert(encode_utf8(padded_name(name)) == name_field(name));
    vstd::utf8::encode_utf8_valid_utf8(padded_name(name));
    vstd::utf8::encode_utf8_decode_utf8(padded_name(name));
}

/// A record read back gives the entry it was written from, its name padded (and, for a
/// directory, the number of entries it was written with).
pub proof fn lemma_record_roundtrip(e: TableEntryView, count: u64)
    requires
        encode_utf8(entry_name(e)).len() <= 128,
        e matches TableEntryView::Password(p) ==> p.nonce.len() == AES_NONCE_LENGTH,
        e matches TableEntryView::Secret(s) ==> s.nonce.len() == AES_NONCE_LENGTH,
    ensures
        table_record(e, count).len() == VAULTENTRY_LENGTH,
        spec_read_entry(table_record(e, count)) == Some(
            (if e is Directory { count } else { 0u64 }, stored_view(e)),
        ),
{
    let data = table_record(e, count);
    let name = entry_name(e);
    lemma_name_field_decodes(name);
    assert(name_field(name).len() == 128);
    assert(record_name(data) =~= name_field(name));
    match e {
        TableEntryView::Password(p) => {
            lemma_le8_roundtrip(p.block);
            assert(data.subrange(129, 137) =~= le8(p.block));
            assert(data.subrange(137, 149) =~= p.nonce);
        },
        TableEntryView::Secret(s) => {
            lemma_le8_roundtrip(s.block);
            lemma_le8_roundtrip(s.size);
            assert(data.subrange(129, 137) =~= le8(s.block));
            assert(data.subrange(137, 145) =~= le8(s.size));
            assert(data.subrange(145, 157) =~= s.nonce);
        },
        TableEntryView::Directory(d) => {
            lemma_le8_roundtrip(count);
            assert(data.subrange(129, 137) =~= le8(count));
        },
    }
}

impl PasswordEntry {
    /// What the entry holds
    pub open spec fn pview(&self) -> TablePasswordView {
        TablePasswordView { name: self.password_name@, block: self.secret_block_id, nonce: self.nonce@ }
    }

    /// Write the entry as a table record; its name must fit the 128-byte name field.
    pub fn serialize(&self) -> (r: Result<[u8; VAULTENTRY_LENGTH], ReadVaultFileError>)
        ensures
            encode_utf8(self.password_name@).len() <= 128 ==> (r matches Ok(b) && b@ == table_record(
                TableEntryView::Password(self.pview()),
                0,
            )),
            encode_utf8(self.password_name@).len() > 128 ==> r matches Err(ReadVaultFileError::InvalidLengthError()),
    {
        let name = self.password_name.as_str();
        if name.as_bytes().len() > 128 {
            return Err(ReadVaultFileError::InvalidLengthError());
        }
        let mut buf: Vec<u8> = Vec::new();
        buf.push(PASSWORDENTRY_TYPE);
        let field = name_buffer(name);
        put_slice(&mut buf, field.as_slice());
        put_u64_le(&mut buf, self.secret_block_id);
        put_slice(&mut buf, self.nonce.as_slice());
        put_zeros(&mut buf, 8);
        assert(buf@ =~= table_record(TableEntryView::Password(self.pview()), 0));
        let rec = array_at::<VAULTENTRY_LENGTH>(buf.as_slice(), 0);
        assert(buf@.subrange(0, 157) =~= buf@);
        Ok(rec)
    }

    /// Displays general information about the entry: its name and kind
    pub fn display(&self) -> (r: String)
        ensures
            r@ == self.password_name@ + " (Password)"@,
    {
        let mut s = self.password_name.clone();
        s.append(" (Password)");
        s
    }
}

impl SecretFileEntry {
    /// What the entry holds
    pub open spec fn sview(&self) -> TableSecretView {
        TableSecretView {
            name: self.secret_name@,
            block: self.secret_block_id,
            size: self.size,
            nonce: self.nonce@,
        }
    }

    /// Write the entry as a table record; its name must fit the 128-byte name field.
    pub fn serialize(&self) -> (r: Result<[u8; VAULTENTRY_LENGTH], ReadVaultFileError>)
        ensures
            encode_utf8(self.secret_name@).len() <= 128 ==> (r matches Ok(b) && b@ == table_record(
                TableEntryView::Secret(self.sview()),
                0,
            )),
            encode_utf8(self.secret_name@).len() > 128 ==> r matches Err(ReadVaultFileError::InvalidLengthError()),
    {
        let name = self.secret_name.as_str();
        if name.as_bytes().len() > 128 {
            return Err(ReadVaultFileError::InvalidLengthError());
        }
        let mut buf: Vec<u8> = Vec::new();
        buf.push(SECRETENTRY_TYPE);
        let field = name_buffer(name);
        put_slice(&mut buf, field.as_slice());
        put_u64_le(&mut buf, self.secret_block_id);
        put_u64_le(&mut buf, self.size);
        put_slice(&mut buf, self.nonce.as_slice());
        assert(buf@ =~= table_record(TableEntryView::Secret(self.sview()), 0));
        let rec = array_at::<VAULTENTRY_LENGTH>(buf.as_slice(), 0);
        assert(buf@.subrange(0, 157) =~= buf@);
        Ok(rec)
    }

    /// Displays general information about the entry: its name and kind
    pub fn display(&self) -> (r: String)
        ensures
            r@ == self.secret_name@ + " (File)"@,
    {
        let mut s = self.secret_name.clone();
        s.append(" (File)");
        s
    }
}

impl DirectoryEntry {
    /// Write the directory as a table record holding its number of entries; its name must fit
    /// the 128-byte name field.
    pub fn serialize(&self) -> (r: Result<[u8; VAULTENTRY_LENGTH], ReadVaultFileError>)
        ensures
            encode_utf8(self.dname()).len() <= 128 ==> (r matches Ok(b) && b@ == table_record(
                TableEntryView::Directory(self.tview()),
                self.child_count() as u64,
            )),
            encode_utf8(self.dname()).len() > 128 ==> r matches Err(ReadVaultFileError::InvalidLengthError()),
    {
        let name = self.directory_name.as_str();
        if name.as_bytes().len() > 128 {
            return Err(ReadVaultFileError::InvalidLengthError());
        }
        let mut buf: Vec<u8> = Vec::new();
        buf.push(DIRENTRY_TYPE);
        let field = name_buffer(name);
        put_slice(&mut buf, field.as_slice());
        put_u64_le(&mut buf, self.children.len() as u64);
        put_zeros(&mut buf, 20);
        assert(buf@ =~= table_record(TableEntryView::Directory(self.tview()), self.child_count() as u64));
        let rec = array_at::<VAULTENTRY_LENGTH>(buf.as_slice(), 0);
        assert(buf@.subrange(0, 157) =~= buf@);
        Ok(rec)
    }

    /// Displays general information about the directory: its name and number of entries
    pub fn display(&self) -> (r: String)
        ensures
            r@ == self.dname() + ": "@ + decimal(self.child_count()) + " Items"@,
    {
        let mut s = self.directory_name.clone();
        s.append(": ");
        let count = decimal_string(self.children.len());
        s.append(count.as_str());
        s.append(" Items");
        s
    }
}

/// How an entry is displayed
pub open spec fn table_display(e: &VaultEntry) -> Seq<char> {
    match e {
        VaultEntry::Password(p) => p.password_name@ + " (Password)"@,
        VaultEntry::Secret(s) => s.secret_name@ + " (File)"@,
        VaultEntry::Directory(d) => d.dname() + ": "@ + decimal(d.child_count()) + " Items"@,
    }
}

/// The record count of an entry: a directory's number of entries, 0 for other entries
pub open spec fn record_count(e: &VaultEntry) -> u64 {
    match e {
        VaultEntry::Directory(d) => d.child_count() as u64,
        _ => 0,
    }
}

impl VaultEntry {
    /// Displays general information about the entry
    pub fn display(&self) -> (r: String)
        ensures
            r@ == table_display(self),
    {
        match self {
            Self::Password(pwd) => pwd.display(),
            Self::Secret(sec) => sec.display(),
            Self::Directory(dir) => dir.display(),
        }
    }

    /// Write the entry as a table record; its name must fit the 128-byte name field.
    pub fn serialize(&self) -> (r: Result<[u8; VAULTENTRY_LENGTH], ReadVaultFileError>)
        ensures
            encode_utf8(self.tname()).len() <= 128 ==> (r matches Ok(b) && b@ == table_record(
                self.tview(),
                record_count(self),
            )),
            encode_utf8(self.tname()).len() > 128 ==> r matches Err(ReadVaultFileError::InvalidLengthError()),
    {
        match self {
            VaultEntry::Password(pwd) => pwd.serialize(),
            VaultEntry::Secret(sec) => sec.serialize(),
            VaultEntry::Directory(dir) => dir.serialize(),
        }
    }

    /// Whether the entry is a directory
    pub fn is_directory(&self) -> (r: bool)
        ensures
            r == (self is Directory),
    {
        match &self {
            VaultEntry::Directory(_) => true,
            _ => false,
        }
    }
}

/// The plaintext of the encrypted data block that starts at byte `start` of `file`: `None` when
/// the block lies beyond the file or its tag does not verify.
pub open spec fn block_plain(file: Seq<u8>, key: Seq<u8>, nonce: Seq<u8>, start: int) -> Option<Seq<u8>> {
    if 0 <= start && start + DATABLOCK_LENGTH <= file.len() {
        match spec_decrypt(key, nonce, file.subrange(start, start + DATABLOCK_LENGTH)) {
            Ok(p) => Some(p),
            Err(_) => None,
        }
    } else {
        None
    }
}

/// Where data block `block` starts when the data blocks start at byte `data_start`
pub open spec fn data_block_start(data_start: u64, block: int) -> int {
    data_start + block * DATABLOCK_LENGTH
}

/// Read and decrypt the data block at byte `data_block_start` of `file`
pub fn read_data_block(file: &[u8], data_block_start: u64, key: &[u8], nonce: &[u8; AES_NONCE_LENGTH]) -> (r:
    Result<Vec<u8>, ReadVaultFileError>)
    requires
        key@.len() == KEY_LENGTH,
    ensures
        data_block_start + DATABLOCK_LENGTH > file@.len() ==> (r matches Err(
            ReadVaultFileError::ReadEntryError(ReadFieldError::UnexpectedEOFError(), Some(o)),
        ) && o == data_block_start),
        data_block_start + DATABLOCK_LENGTH <= file@.len() ==> match block_plain(file@, key@, nonce@, data_block_start as int) {
            Some(p) => r matches Ok(v) && v@ == p && p.len() == DATABLOCK_RAW_LENGTH,
            None => r matches Err(ReadVaultFileError::InAuthenticTagError()),
        },
{
    if data_block_start as u128 + DATABLOCK_LENGTH as u128 > file.len() as u128 {
        return Err(ReadVaultFileError::ReadEntryError(ReadFieldError::UnexpectedEOFError(), Some(data_block_start)));
    }
    let start = data_block_start as usize;
    let enc = copy_range(file, start, start + DATABLOCK_LENGTH);
    match decrypt_region(enc.as_slice(), nonce, key, DATABLOCK_RAW_LENGTH) {
        Ok(p) => Ok(p),
        Err(_) => Err(ReadVaultFileError::InAuthenticTagError()),
    }
}

/// The password a password block holds: its plaintext without the zero padding, when that is
/// UTF-8.
pub open spec fn stored_table_password(plain: Seq<u8>) -> Option<Seq<char>> {
    if valid_utf8(trim_zeros(plain)) {
        Some(decode_utf8(trim_zeros(plain)))
    } else {
        None
    }
}

impl PasswordEntry {
    /// Read the password of the entry from its data block (data blocks start at byte
    /// `data_start` of `file`); the zero padding of the block is dropped.
    pub fn retrieve_secret(&self, file: &[u8], data_start: u64, key: &[u8]) -> (r: Result<String, ReadVaultFileError>)
        requires
            key@.len() == KEY_LENGTH,
        ensures
            data_block_start(data_start, self.secret_block_id as int) + DATABLOCK_LENGTH > file@.len() ==> r matches Err(
                ReadVaultFileError::ReadEntryError(ReadFieldError::UnexpectedEOFError(), _),
            ),
            data_block_start(data_start, self.secret_block_id as int) + DATABLOCK_LENGTH <= file@.len() ==> match block_plain(
                file@,
                key@,
                self.nonce@,
                data_block_start(data_start, self.secret_block_id as int),
            ) {
                None => r matches Err(ReadVaultFileError::InAuthenticTagError()),
                Some(p) => match stored_table_password(p) {
                    Some(pw) => r matches Ok(s) && s@ == pw,
                    None => r matches Err(ReadVaultFileError::ReadEntryError(ReadFieldError::ReadUtf8Error(_), _)),
                },
            },
    {
        let blk = self.secret_block_id as u128;
        assert(blk * 272 <= 0xffff_ffff_ffff_ffffu128 * 272) by (nonlinear_arith)
            requires
                blk <= 0xffff_ffff_ffff_ffffu128,
        ;
        let start: u128 = data_start as u128 + blk * DATABLOCK_LENGTH as u128;
        if start + DATABLOCK_LENGTH as u128 > file.len() as u128 {
            return Err(ReadVaultFileError::ReadEntryError(ReadFieldError::UnexpectedEOFError(), Some(data_start)));
        }
        let data = read_data_block(file, start as u64, key, &self.nonce)?;
        // Passwords are stored padded with zeros: drop the padding
        let trimmed = trim_trailing_zeros(data.as_slice());
        match string_from_utf8(trimmed) {
            Ok(s) => Ok(s),
            Err(e) => Err(ReadVaultFileError::ReadEntryError(ReadFieldError::ReadUtf8Error(e), Some(start as u64))),
        }
    }
}

/// The plaintexts of the first `n` blocks of a secret file that starts at block `first`, one
/// after the other; `None` when one of them cannot be read.
pub open spec fn secret_plain(file: Seq<u8>, data_start: u64, key: Seq<u8>, nonce: Seq<u8>, first: int, n: nat) -> Option<
    Seq<u8>,
>
    decreases n,
{
    if n == 0 {
        Some(Seq::empty())
    } else {
        match (
            secret_plain(file, data_start, key, nonce, first, (n - 1) as nat),
            block_plain(file, key, nonce, data_block_start(data_start, first + n - 1)),
        ) {
            (Some(a), Some(b)) => Some(a + b),
            _ => None,
        }
    }
}

proof fn lemma_secret_plain_none(file: Seq<u8>, data_start: u64, key: Seq<u8>, nonce: Seq<u8>, first: int, i: nat, n: nat)
    requires
        i <= n,
        secret_plain(file, data_start, key, nonce, first, i) is None,
    ensures
        secret_plain(file, data_start, key, nonce, first, n) is None,
    decreases n - i,
{
    if i < n {
        lemma_secret_plain_none(file, data_start, key, nonce, first, i + 1, n);
    }
}

impl SecretFileEntry {
    /// Read the secret file of the entry: the plaintexts of its data blocks, one after the other
    /// (data blocks start at byte `data_start` of `file`).
    pub fn retrieve_secret(&self, file: &[u8], data_start: u64, key: &[u8]) -> (r: Result<Vec<u8>, ReadVaultFileError>)
        requires
            key@.len() == KEY_LENGTH,
        ensures
            match secret_plain(file@, data_start, key@, self.nonce@, self.secret_block_id as int, self.size as nat) {
                Some(d) => r matches Ok(v) && v@ == d,
                None => r is Err,
            },
    {
        let mut bytes: Vec<u8> = Vec::new();
        let mut i: u64 = 0;
        while i < self.size
            invariant
                i <= self.size,
                key@.len() == KEY_LENGTH,
                secret_plain(file@, data_start, key@, self.nonce@, self.secret_block_id as int, i as nat) == Some(bytes@),
            decreases self.size - i,
        {
            let blk = self.secret_block_id as u128 + i as u128;
            assert(blk * 272 <= 0x1_ffff_ffff_ffff_fffeu128 * 272) by (nonlinear_arith)
                requires
                    blk <= 0x1_ffff_ffff_ffff_fffeu128,
            ;
            let start: u128 = data_start as u128 + blk * DATABLOCK_LENGTH as u128;
            if start + DATABLOCK_LENGTH as u128 > file.len() as u128 {
                proof {
                    lemma_secret_plain_none(file@, data_start, key@, self.nonce@, self.secret_block_id as int, (i + 1) as nat, self.size as nat);
                }
                return Err(ReadVaultFileError::ReadEntryError(ReadFieldError::UnexpectedEOFError(), Some(data_start)));
            }
            let data = match read_data_block(file, start as u64, key, &self.nonce) {
                Ok(d) => d,
                Err(e) => {
                    proof {
                        lemma_secret_plain_none(file@, data_start, key@, self.nonce@, self.secret_block_id as int, (i + 1) as nat, self.size as nat);
                    }
                    return Err(e);
                },
            };
            put_slice(&mut bytes, data.as_slice());
            i += 1;
        }
        Ok(bytes)
    }
}

/// The secret of an entry
pub enum EntryResult {
    Password(String),
    Secret(Vec<u8>),
    Directory(String),
}

/// Whether `r` is what reading the secret of entry `e` gives (data blocks start at byte
/// `data_start` of `file`, encrypted under `key`)
pub open spec fn retrieves(file: Seq<u8>, data_start: u64, key: Seq<u8>, e: TableEntryView, r: Result<
    EntryResult,
    VaultError,
>) -> bool {
    match e {
        TableEntryView::Directory(_) => r matches Err(
            VaultError::InvalidOperation(OperationType::RetrieveSecret, VaultEntryType::Directory),
        ),
        TableEntryView::Password(p) => match block_plain(file, key, p.nonce, data_block_start(data_start, p.block as int)) {
            Some(b) => match stored_table_password(b) {
                Some(pw) => r matches Ok(EntryResult::Password(s)) && s@ == pw,
                None => r matches Err(VaultError::ReadVaultError(_)),
            },
            None => r matches Err(VaultError::ReadVaultError(_)),
        },
        TableEntryView::Secret(s) => match secret_plain(file, data_start, key, s.nonce, s.block as int, s.size as nat) {
            Some(d) => r matches Ok(EntryResult::Secret(v)) && v@ == d,
            None => r matches Err(VaultError::ReadVaultError(_)),
        },
    }
}

impl VaultEntry {
    /// Read the secret of a password or secret file entry (a directory holds none)
    pub fn retrieve_secret(&self, file: &[u8], data_start: u64, key: &[u8]) -> (r: Result<EntryResult, VaultError>)
        requires
            key@.len() == KEY_LENGTH,
        ensures
            retrieves(file@, data_start, key@, self.tview(), r),
    {
        match self {
            VaultEntry::Password(pwd) => match pwd.retrieve_secret(file, data_start, key) {
                Ok(s) => Ok(EntryResult::Password(s)),
                Err(e) => Err(VaultError::ReadVaultError(e)),
            },
            VaultEntry::Secret(sec) => match sec.retrieve_secret(file, data_start, key) {
                Ok(d) => Ok(EntryResult::Secret(d)),
                Err(e) => Err(VaultError::ReadVaultError(e)),
            },
            VaultEntry::Directory(_) => Err(VaultError::InvalidOperation(OperationType::RetrieveSecret, VaultEntryType::Directory)),
        }
    }
}

} // verus!
