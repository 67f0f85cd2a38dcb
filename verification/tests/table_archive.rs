use schlosser::crypt::{encrypt_region, generate_user_key};
use schlosser::error::{InvalidFileReasons, ReadVaultFileError, VaultError, VaultEntryType, OperationType};
use schlosser::vault::table::manager::VaultManager;
use schlosser::vault::table::records::EntryResult;
use std::collections::VecDeque;
use schlosser::vault::table::{parse_table, read_entry, DirectoryEntry, PasswordEntry, SecretFileEntry, VaultEntry};

const SIGNATURE: u64 = 0x0000e111e0afbaca;
const PASSWORD: &str = "correct horse";
const VAULT_KEY: [u8; 32] = [42u8; 32];

fn padded(name: &str) -> String {
    let mut s = String::from(name);
    while s.len() < 128 {
        s.push('\0');
    }
    s
}

fn name_field(name: &str) -> Vec<u8> {
    let mut v = name.as_bytes().to_vec();
    v.resize(128, 0);
    v
}

fn dir_record(name: &str, count: u64) -> Vec<u8> {
    let mut r = vec![2u8];
    r.extend(name_field(name));
    r.extend(count.to_le_bytes());
    r.resize(157, 0);
    r
}

fn password_record(name: &str, block: u64, nonce: [u8; 12]) -> Vec<u8> {
    let mut r = vec![0u8];
    r.extend(name_field(name));
    r.extend(block.to_le_bytes());
    r.extend(nonce);
    r.resize(157, 0);
    r
}

fn secret_record(name: &str, block: u64, size: u64, nonce: [u8; 12]) -> Vec<u8> {
    let mut r = vec![1u8];
    r.extend(name_field(name));
    r.extend(block.to_le_bytes());
    r.extend(size.to_le_bytes());
    r.extend(nonce);
    r
}

fn block_of(data: &[u8]) -> ([u8; 12], Vec<u8>) {
    let mut raw = data.to_vec();
    raw.resize(256, 0);
    let e = encrypt_region(&raw, &VAULT_KEY).ok().unwrap();
    (e.nonce, e.data)
}

/// An archive with the root directory holding a password "mail" (block 0), a secret file "doc"
/// (block 1) and a directory "sub" holding a password "bank" (block 3); block 2 is empty.
fn archive() -> Vec<u8> {
    let (mail_nonce, mail_block) = block_of(b"hunter2");
    let (doc_nonce, doc_block) = block_of(b"my document");
    let (bank_nonce, bank_block) = block_of(b"1234");
    let mut table = Vec::new();
    table.extend(dir_record("vaultroot", 3));
    table.extend(password_record("mail", 0, mail_nonce));
    table.extend(secret_record("doc", 1, 1, doc_nonce));
    table.extend(dir_record("sub", 1));
    table.extend(password_record("bank", 3, bank_nonce));
    let records = 5u64;
    let table_enc = encrypt_region(&table, &VAULT_KEY).ok().unwrap();
    let iv = [9u8; 16];
    let user_key = generate_user_key(String::from(PASSWORD), &iv);
    let mut region = VAULT_KEY.to_vec();
    region.extend(records.to_le_bytes());
    let region_enc = encrypt_region(&region, &user_key).ok().unwrap();
    let mut file = Vec::new();
    file.extend(SIGNATURE.to_le_bytes());
    file.push(1);
    file.extend(name_field("test vault"));
    file.extend(iv);
    file.extend(region_enc.nonce);
    file.extend(region_enc.data);
    assert_eq!(file.len(), 221);
    file.extend(table_enc.nonce);
    file.extend(table_enc.data);
    file.extend(mail_block);
    file.extend(doc_block);
    file.extend(vec![0u8; 272]);
    file.extend(bank_block);
    file
}

#[test]
fn table_vault_opens_and_reads_password() {
    let file = archive();
    let m = VaultManager::from_file("vault.skv", &file, String::from(PASSWORD)).ok().unwrap();
    match m.retrieve_entry(&file, padded("mail")) {
        Ok(EntryResult::Password(p)) => assert_eq!(p, "hunter2"),
        _ => panic!("password not read"),
    }
    match m.retrieve_entry(&file, format!("{}/{}", padded("sub"), padded("bank"))) {
        Ok(EntryResult::Password(p)) => assert_eq!(p, "1234"),
        _ => panic!("nested password not read"),
    }
}

#[test]
fn reads_secret_blocks() {
    let file = archive();
    let m = VaultManager::from_file("vault.skv", &file, String::from(PASSWORD)).ok().unwrap();
    match m.retrieve_entry(&file, padded("doc")) {
        Ok(EntryResult::Secret(d)) => {
            let mut expected = b"my document".to_vec();
            expected.resize(256, 0);
            assert_eq!(d, expected);
        },
        _ => panic!("secret not read"),
    }
}

#[test]
fn table_vault_wrong_password_is_refused() {
    let file = archive();
    assert!(matches!(
        VaultManager::from_file("vault.skv", &file, String::from("wrong")),
        Err(ReadVaultFileError::InAuthenticTagError())
    ));
}

#[test]
fn bad_signature_is_refused() {
    let mut file = archive();
    file[0] ^= 0xff;
    assert!(matches!(
        VaultManager::from_file("vault.skv", &file, String::from(PASSWORD)),
        Err(ReadVaultFileError::InvalidFile(_))
    ));
}

#[test]
fn missing_and_directory_entries() {
    let file = archive();
    let m = VaultManager::from_file("vault.skv", &file, String::from(PASSWORD)).ok().unwrap();
    assert!(matches!(m.retrieve_entry(&file, padded("nothing")), Err(VaultError::EntryNotFound(p)) if p == padded("nothing")));
    assert!(matches!(
        m.retrieve_entry(&file, padded("sub")),
        Err(VaultError::InvalidOperation(OperationType::RetrieveSecret, VaultEntryType::Directory))
    ));
}

#[test]
fn changed_password_reads_back_after_save() {
    let file = archive();
    let mut m = VaultManager::from_file("vault.skv", &file, String::from(PASSWORD)).ok().unwrap();
    assert!(m.change_password(padded("mail"), String::from("new secret")).is_ok());
    let saved = m.save_vault(file.clone()).ok().unwrap();
    assert_eq!(saved.len(), file.len());
    match m.retrieve_entry(&saved, padded("mail")) {
        Ok(EntryResult::Password(p)) => assert_eq!(p, "new secret"),
        _ => panic!("changed password not read"),
    }
    // the other entries are untouched
    match m.retrieve_entry(&saved, format!("{}/{}", padded("sub"), padded("bank"))) {
        Ok(EntryResult::Password(p)) => assert_eq!(p, "1234"),
        _ => panic!("other password changed"),
    }
}

#[test]
fn change_password_errors() {
    let file = archive();
    let mut m = VaultManager::from_file("vault.skv", &file, String::from(PASSWORD)).ok().unwrap();
    assert!(matches!(m.change_password(padded("doc"), String::from("x")),
        Err(VaultError::InvalidOperation(OperationType::ChangePassword, VaultEntryType::Secret))));
    assert!(matches!(m.change_password(padded("sub"), String::from("x")),
        Err(VaultError::InvalidOperation(OperationType::ChangePassword, VaultEntryType::Directory))));
    assert!(matches!(m.change_password(padded("none"), String::from("x")), Err(VaultError::EntryNotFound(_))));
    let long = "x".repeat(257);
    assert!(matches!(m.change_password(padded("mail"), long), Err(VaultError::InvalidLengthError())));
    // nothing was planned
    assert_eq!(m.save_vault(file.clone()).ok().unwrap(), file);
}

#[test]
fn changed_secret_reads_back_after_save() {
    let file = archive();
    let mut m = VaultManager::from_file("vault.skv", &file, String::from(PASSWORD)).ok().unwrap();
    assert!(m.change_secret(padded("doc"), b"short".to_vec()).is_ok());
    let saved = m.save_vault(file.clone()).ok().unwrap();
    match m.retrieve_entry(&saved, padded("doc")) {
        Ok(EntryResult::Secret(d)) => {
            let mut expected = b"short".to_vec();
            expected.resize(256, 0);
            assert_eq!(d, expected);
        },
        _ => panic!("changed secret not read"),
    }
}

#[test]
fn growing_secret_is_refused() {
    let file = archive();
    let mut m = VaultManager::from_file("vault.skv", &file, String::from(PASSWORD)).ok().unwrap();
    assert!(matches!(m.change_secret(padded("doc"), vec![7u8; 600]), Err(VaultError::InvalidLengthError())));
    assert_eq!(m.save_vault(file.clone()).ok().unwrap(), file);
    assert!(matches!(m.change_secret(padded("mail"), vec![1]),
        Err(VaultError::InvalidOperation(OperationType::ChangeSecret, VaultEntryType::Password))));
}

#[test]
fn rename_moves_entry() {
    let file = archive();
    let mut m = VaultManager::from_file("vault.skv", &file, String::from(PASSWORD)).ok().unwrap();
    assert!(m.rename(padded("mail"), String::from("email")).is_ok());
    match m.retrieve_entry(&file, String::from("email")) {
        Ok(EntryResult::Password(p)) => assert_eq!(p, "hunter2"),
        _ => panic!("renamed entry not found"),
    }
    assert!(matches!(m.retrieve_entry(&file, padded("mail")), Err(VaultError::EntryNotFound(_))));
    assert!(matches!(m.rename(String::from("email"), padded("doc")), Err(VaultError::DuplicateEntryError(n)) if n == padded("doc")));
    assert!(matches!(m.rename(padded("gone"), String::from("x")), Err(VaultError::EntryNotFound(_))));
}

#[test]
fn empty_blocks_are_the_gaps() {
    let file = archive();
    let m = VaultManager::from_file("vault.skv", &file, String::from(PASSWORD)).ok().unwrap();
    let empty = m.get_empty_data_blocks();
    let ranges: Vec<(u64, u64)> = empty.blocks().iter().map(|r| (r.start, r.end)).collect();
    assert_eq!(ranges, vec![(2, 2)]);
}

#[test]
fn vault_info_lists_sorted_entries() {
    let file = archive();
    let m = VaultManager::from_file("vault.skv", &file, String::from(PASSWORD)).ok().unwrap();
    let info = m.get_vault_info().ok().unwrap();
    let expected = format!(
        "{} Archive├─  {} (File)├─  {} (Password)│\t└  {}: 1 Items│\t└  {} (Password)",
        padded("test vault"),
        padded("doc"),
        padded("mail"),
        padded("sub"),
        padded("bank"),
    );
    assert_eq!(info, expected);
}

#[test]
fn records_read_back() {
    let pwd = PasswordEntry { password_name: String::from("mail"), secret_block_id: 7, nonce: [3u8; 12] };
    let rec = VaultEntry::Password(pwd).serialize().ok().unwrap();
    match read_entry(rec) {
        Ok((0, VaultEntry::Password(p))) => {
            assert_eq!(p.password_name, padded("mail"));
            assert_eq!(p.secret_block_id, 7);
            assert_eq!(p.nonce, [3u8; 12]);
        },
        _ => panic!("record not read back"),
    }
    let sec = SecretFileEntry { secret_name: String::from("doc"), secret_block_id: 1, size: 4, nonce: [5u8; 12] };
    let rec = sec.serialize().ok().unwrap();
    assert_eq!(rec.to_vec(), secret_record("doc", 1, 4, [5u8; 12]));
    let long = PasswordEntry { password_name: "n".repeat(129), secret_block_id: 0, nonce: [0u8; 12] };
    assert!(matches!(long.serialize(), Err(ReadVaultFileError::InvalidLengthError())));
}

#[test]
fn entries_display() {
    let pwd = PasswordEntry { password_name: String::from("mail"), secret_block_id: 7, nonce: [3u8; 12] };
    assert_eq!(pwd.display(), "mail (Password)");
    let sec = SecretFileEntry { secret_name: String::from("doc"), secret_block_id: 1, size: 4, nonce: [5u8; 12] };
    assert_eq!(sec.display(), "doc (File)");
    assert!(!VaultEntry::Secret(sec).is_directory());
}

fn plain_tree() -> DirectoryEntry {
    let mut table = Vec::new();
    table.extend(dir_record("vaultroot", 3));
    table.extend(password_record("mail", 0, [1u8; 12]));
    table.extend(secret_record("doc", 1, 1, [2u8; 12]));
    table.extend(dir_record("sub", 1));
    table.extend(password_record("bank", 3, [3u8; 12]));
    parse_table(&table).ok().unwrap()
}

fn names(entries: &[&VaultEntry]) -> Vec<String> {
    entries.iter().map(|e| e.name().clone()).collect()
}

#[test]
fn children_listed_by_name() {
    let d = plain_tree();
    assert_eq!(names(&d.get_children()), vec![padded("mail"), padded("doc"), padded("sub")]);
    assert_eq!(names(&d.get_sorted_children()), vec![padded("doc"), padded("mail"), padded("sub")]);
}

#[test]
fn walks_in_directory_and_listing_order() {
    let d = plain_tree();
    assert_eq!(names(&d.iter()), vec![padded("mail"), padded("doc"), padded("sub"), padded("bank")]);
    assert_eq!(names(&d.sorted_iter()), vec![padded("doc"), padded("mail"), padded("sub"), padded("bank")]);
}

#[test]
fn table_directory_overview() {
    let d = plain_tree();
    let mut out = String::new();
    assert!(d.get_directory_overview(0, &mut out).is_ok());
    let expected = format!(
        "├─  {}: 3 Items├─  {} (File)\n├─  {} (Password)\n│\t├─  {}: 1 Items│\t└  {} (Password)\n",
        padded("vaultroot"),
        padded("doc"),
        padded("mail"),
        padded("sub"),
        padded("bank"),
    );
    assert_eq!(out, expected);
    assert_eq!(d.display(), format!("{}: 3 Items", padded("vaultroot")));
}

#[test]
fn table_entries_found_by_path() {
    let d = plain_tree();
    let total = String::from("sub/bank");
    let path: VecDeque<&str> = VecDeque::from(vec![padded("sub").leak() as &str, padded("bank").leak() as &str]);
    match d.get_entry(path, &total) {
        Ok(VaultEntry::Password(p)) => assert_eq!(p.secret_block_id, 3),
        _ => panic!("entry not found"),
    }
    let missing: VecDeque<&str> = VecDeque::from(vec!["nothing"]);
    assert!(matches!(d.get_entry(missing, &total), Err(VaultError::EntryNotFound(p)) if p == total));
}

#[test]
fn duplicate_names_keep_the_last_record() {
    let mut table = Vec::new();
    table.extend(dir_record("root", 2));
    table.extend(password_record("same", 0, [1u8; 12]));
    table.extend(password_record("same", 9, [1u8; 12]));
    let d = parse_table(&table).ok().unwrap();
    let kids = d.get_children();
    assert_eq!(kids.len(), 1);
    match kids[0] {
        VaultEntry::Password(p) => assert_eq!(p.secret_block_id, 9),
        _ => panic!("not a password"),
    }
}

#[test]
fn short_table_is_refused() {
    let mut table = Vec::new();
    table.extend(dir_record("root", 2));
    table.extend(password_record("only", 0, [1u8; 12]));
    assert!(matches!(parse_table(&table), Err(ReadVaultFileError::InvalidLengthError())));
}

#[test]
fn table_without_root_directory_is_refused() {
    let mut table = Vec::new();
    table.extend(password_record("first", 0, [1u8; 12]));
    assert!(matches!(
        parse_table(&table),
        Err(ReadVaultFileError::InvalidFile(InvalidFileReasons::NoRootEntry))
    ));
}

#[test]
fn header_fields_are_checked_in_order() {
    let file = archive();
    // a wrong signature is reported even when nothing follows it
    let mut short = file[..8].to_vec();
    short[0] ^= 0xff;
    assert!(matches!(
        VaultManager::from_file("vault.skv", &short, String::from(PASSWORD)),
        Err(ReadVaultFileError::InvalidFile(InvalidFileReasons::InvalidSignature))
    ));
    // a name that is not UTF-8 is reported before the rest of the header is missed
    let mut bad_name = file[..140].to_vec();
    bad_name[9] = 0xff;
    assert!(matches!(
        VaultManager::from_file("vault.skv", &bad_name, String::from(PASSWORD)),
        Err(ReadVaultFileError::ReadEntryError(schlosser::error::ReadFieldError::ReadUtf8Error(_), _))
    ));
}

#[test]
fn table_entries_order_by_name() {
    let a = VaultEntry::Password(PasswordEntry { password_name: String::from("alpha"), secret_block_id: 0, nonce: [0u8; 12] });
    let b = VaultEntry::Secret(SecretFileEntry { secret_name: String::from("beta"), secret_block_id: 1, size: 1, nonce: [0u8; 12] });
    let a2 = VaultEntry::Secret(SecretFileEntry { secret_name: String::from("alpha"), secret_block_id: 2, size: 1, nonce: [0u8; 12] });
    assert_eq!(a.cmp(&b), std::cmp::Ordering::Less);
    assert_eq!(b.cmp(&a), std::cmp::Ordering::Greater);
    assert_eq!(a.cmp(&a2), std::cmp::Ordering::Equal);
    let ab = VaultEntry::Password(PasswordEntry { password_name: String::from("alphabet"), secret_block_id: 0, nonce: [0u8; 12] });
    assert_eq!(a.cmp(&ab), std::cmp::Ordering::Less);
}
