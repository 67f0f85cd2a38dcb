use std::collections::VecDeque;
use schlosser::crypt::{encrypt_region, generate_user_key};
use schlosser::vault::entry::{DirectoryEntry, EntryResult, PasswordEntry, VaultEntry};
use schlosser::vault::error::{InitVaultContextError, RetrieveEntryError, VaultError};
use schlosser::vault::manager::VaultManager;
use schlosser::vault::utils::{BlockRange, BlockSet, HeaderInfo, VaultContext, VaultPath};

const PASSWORD: &str = "open sesame";
const VAULT_KEY: [u8; 32] = [17u8; 32];

fn padded(name: &str) -> String {
    let mut s = String::from(name);
    while s.len() < 128 {
        s.push('\0');
    }
    s
}

fn header() -> Vec<u8> {
    let iv = [4u8; 16];
    let user_key = generate_user_key(String::from(PASSWORD), &iv);
    let enc = encrypt_region(&VAULT_KEY, &user_key).ok().unwrap();
    let mut h = Vec::new();
    h.extend(0x0000e111e0afbacau64.to_be_bytes());
    h.push(1);
    let mut name = b"blocks".to_vec();
    name.resize(128, 0);
    h.extend(name);
    h.extend(iv);
    h.extend(enc.nonce);
    h.extend(enc.data);
    assert_eq!(h.len(), 213);
    h
}

/// A vault whose root holds the password "mail"; its blocks lie after a gap of empty blocks.
fn vault_file() -> Vec<u8> {
    built().0.file_data().clone()
}

fn built() -> (VaultContext, DirectoryEntry) {
    let mut empty = BlockSet::new();
    empty.put(BlockRange { start: 15, end: 40 });
    let mut image = header();
    image.extend(vec![0u8; 41 * 272]);
    let mut ctx = VaultContext::from_parts(image, empty);
    let mut root = DirectoryEntry::init_root();
    let pwd = PasswordEntry::new(String::from("mail"), String::from("hunter2"), &mut ctx, &VAULT_KEY).ok().unwrap();
    let root_path = VaultPath::new(String::from("/")).ok().unwrap();
    assert!(root.new_entry(VecDeque::new(), &root_path, VaultEntry::Password(pwd), &mut ctx, &VAULT_KEY).is_ok());
    (ctx, root)
}

fn open(file: Vec<u8>) -> VaultManager {
    VaultManager::from_file(file, String::from(PASSWORD)).ok().unwrap()
}

fn password_at(m: &VaultManager, path: &str) -> Option<String> {
    match m.retrieve_secret_entry(&String::from(path)) {
        Ok(EntryResult::Password(p)) => Some(p),
        _ => None,
    }
}

#[test]
fn header_reads_back() {
    let bytes = header();
    let mut arr = [0u8; 213];
    arr.copy_from_slice(&bytes);
    let h = HeaderInfo::build_header(arr).ok().unwrap();
    assert_eq!(h.serialize().to_vec(), bytes);
    assert_eq!(h.get_name(), padded("blocks"));
    assert_eq!(h.retrieve_key(String::from(PASSWORD)).ok().unwrap(), VAULT_KEY);
    assert!(h.retrieve_key(String::from("nope")).is_err());
}

#[test]
fn opens_and_reads_password() {
    let m = open(vault_file());
    assert_eq!(password_at(&m, "/mail"), Some(String::from("hunter2")));
    assert!(matches!(
        m.retrieve_secret_entry(&String::from("/none")),
        Err(RetrieveEntryError::GetEntryError(VaultError::EntryNotFound(_)))
    ));
    assert!(matches!(
        m.retrieve_secret_entry(&String::from("no/slash")),
        Err(RetrieveEntryError::InvalidVaultPath(_))
    ));
}

#[test]
fn wrong_password_is_refused() {
    assert!(matches!(
        VaultManager::from_file(vault_file(), String::from("wrong")),
        Err(InitVaultContextError::RetrieveKeyError(_))
    ));
    assert!(matches!(VaultManager::from_file(vec![0u8; 10], String::from(PASSWORD)), Err(InitVaultContextError::ReadHeaderError(_))));
}

#[test]
fn empty_blocks_are_the_gap() {
    let m = open(vault_file());
    let ranges: Vec<(u64, u64)> = m.get_empty_data_blocks().blocks().iter().map(|r| (r.start, r.end)).collect();
    assert_eq!(ranges, vec![(1, 14)]);
}

#[test]
fn change_password_reads_back() {
    let mut m = open(vault_file());
    assert!(m.room_for(1, 272));
    assert!(m.change_password(String::from("/mail"), String::from("s3cret!")).is_ok());
    assert_eq!(password_at(&m, "/mail"), Some(String::from("s3cret!")));
    assert!(matches!(
        m.change_password(String::from("/mail"), "x".repeat(257)),
        Err(schlosser::vault::error::VaultChangeEntryError::VaultChangeError(
            schlosser::vault::error::VaultChangeError::InputTooLarge
        ))
    ));
    assert_eq!(password_at(&m, "/mail"), Some(String::from("s3cret!")));
}

#[test]
fn new_entries_are_found() {
    let mut m = open(vault_file());
    assert!(m.room_for(1, 272));
    assert!(m.new_password(String::from("/"), String::from("bank"), String::from("1234")).is_ok());
    assert_eq!(password_at(&m, "/bank"), Some(String::from("1234")));
    assert!(m.room_for(0, 272));
    assert!(m.new_directory(String::from("/"), String::from("work")).is_ok());
    assert!(m.room_for(1, 272));
    assert!(m.new_password(String::from("/work"), String::from("vpn"), String::from("tunnel")).is_ok());
    assert_eq!(password_at(&m, "/work/vpn"), Some(String::from("tunnel")));
    assert_eq!(password_at(&m, "/mail"), Some(String::from("hunter2")));
    let info = m.get_vault_info().ok().unwrap();
    assert!(info.starts_with(&format!("{} Archive", padded("blocks"))));
    assert!(info.contains(&format!("{} (Password)", padded("bank"))));
    assert!(info.contains(&format!("{} (Password)", padded("vpn"))));
}

#[test]
fn renamed_entry_is_found_under_new_name() {
    let mut m = open(vault_file());
    assert!(m.rename(String::from("/mail"), String::from("email")).is_ok());
    assert_eq!(password_at(&m, "/email"), Some(String::from("hunter2")));
    assert_eq!(password_at(&m, "/mail"), None);
}

#[test]
fn renamed_entry_is_found_after_reopening() {
    let mut m = open(vault_file());
    assert!(m.rename(String::from("/mail"), String::from("email")).is_ok());
    let again = open(m.file_data().clone());
    assert_eq!(password_at(&again, "/email"), Some(String::from("hunter2")));
    assert_eq!(password_at(&again, "/mail"), None);
}

#[test]
fn rename_keeps_names_distinct() {
    let mut m = open(vault_file());
    assert!(m.room_for(1, 272));
    assert!(m.new_password(String::from("/"), String::from("bank"), String::from("1234")).is_ok());
    assert!(matches!(
        m.rename(String::from("/bank"), String::from("mail")),
        Err(schlosser::vault::error::RenameEntryError::VaultError(
            schlosser::vault::error::VaultChangeError::VaultError(VaultError::DuplicateEntry(_))
        ))
    ));
    assert_eq!(password_at(&m, "/bank"), Some(String::from("1234")));
    assert_eq!(password_at(&m, "/mail"), Some(String::from("hunter2")));
}

#[test]
fn deleted_entry_is_gone() {
    let mut m = open(vault_file());
    let before = m.file_data().clone();
    // the password block (15) and the entry block (16) hold data
    assert!(before[213 + 15 * 272..213 + 17 * 272].iter().any(|b| *b != 0));
    assert!(m.delete_entry(String::from("/mail")).is_ok());
    assert_eq!(password_at(&m, "/mail"), None);
    // and are erased
    assert!(m.file_data()[213 + 15 * 272..213 + 17 * 272].iter().all(|b| *b == 0));
    assert_eq!(m.file_data().len(), before.len());
}

fn next_of(file: &[u8], block: u64) -> i64 {
    let off = 213 + block as usize * 272 + 1;
    let mut b = [0u8; 8];
    b.copy_from_slice(&file[off..off + 8]);
    i64::from_be_bytes(b)
}

#[test]
fn deleted_entry_is_unlinked() {
    let mut m = open(vault_file());
    assert!(m.room_for(1, 272));
    assert!(m.new_password(String::from("/"), String::from("bank"), String::from("1234")).is_ok());
    assert!(m.room_for(1, 272));
    assert!(m.new_password(String::from("/"), String::from("zed"), String::from("5678")).is_ok());
    // the root's entries are chained: mail -> bank -> zed
    let mail_block = 16u64;
    let bank_block = next_of(m.file_data(), mail_block);
    assert!(bank_block >= 0);
    let zed_block = next_of(m.file_data(), bank_block as u64);
    assert!(zed_block >= 0);
    assert_eq!(next_of(m.file_data(), zed_block as u64), -1);
    assert!(m.delete_entry(String::from("/bank")).is_ok());
    // mail now points past bank, to zed
    assert_eq!(next_of(m.file_data(), mail_block), zed_block);
    assert_eq!(password_at(&m, "/zed"), Some(String::from("5678")));
    assert_eq!(password_at(&m, "/bank"), None);
}

#[test]
fn deleting_first_entry_keeps_file_readable() {
    let mut m = open(vault_file());
    assert!(m.room_for(1, 272));
    assert!(m.new_password(String::from("/"), String::from("bank"), String::from("1234")).is_ok());
    let bank_block = next_of(m.file_data(), 16);
    assert!(m.delete_entry(String::from("/mail")).is_ok());
    assert_eq!(password_at(&m, "/bank"), Some(String::from("1234")));
    // the file, opened again, holds the tree without the deleted entry
    let again = open(m.file_data().clone());
    assert_eq!(password_at(&again, "/bank"), Some(String::from("1234")));
    assert_eq!(password_at(&again, "/mail"), None);
    // the root's entry block now names bank's entry block as its first entry
    assert!(bank_block >= 0);
    assert!(m.file_data()[213 + 16 * 272..213 + 17 * 272].iter().all(|b| *b == 0));
}

#[test]
fn secret_file_reads_back() {
    let mut m = open(vault_file());
    let contents = b"a secret file".to_vec();
    assert!(m.room_for(1, contents.len() + 272));
    assert!(m.new_secret(String::from("/"), String::from("doc"), contents.clone()).is_ok());
    match m.retrieve_secret_entry(&String::from("/doc")) {
        Ok(EntryResult::Secret(d)) => {
            let mut expected = contents.clone();
            expected.resize(d.len(), 0);
            assert_eq!(d, expected);
            assert_eq!(d.len(), 256);
        },
        _ => panic!("secret not read"),
    }
}

#[test]
fn new_entries_survive_reopening() {
    let mut m = open(vault_file());
    assert!(m.room_for(1, 272));
    assert!(m.new_password(String::from("/"), String::from("bank"), String::from("1234")).is_ok());
    assert!(m.room_for(0, 272));
    assert!(m.new_directory(String::from("/"), String::from("work")).is_ok());
    assert!(m.room_for(1, 272));
    assert!(m.new_password(String::from("/work"), String::from("vpn"), String::from("tunnel")).is_ok());
    assert!(m.room_for(1, 10 + 272));
    assert!(m.new_secret(String::from("/work"), String::from("key"), b"0123456789".to_vec()).is_ok());
    let again = open(m.file_data().clone());
    assert_eq!(password_at(&again, "/mail"), Some(String::from("hunter2")));
    assert_eq!(password_at(&again, "/bank"), Some(String::from("1234")));
    assert_eq!(password_at(&again, "/work/vpn"), Some(String::from("tunnel")));
    match again.retrieve_secret_entry(&String::from("/work/key")) {
        Ok(EntryResult::Secret(d)) => assert_eq!(&d[..10], b"0123456789"),
        _ => panic!("secret not read after reopening"),
    }
}

#[test]
fn entries_reached_mutably() {
    let (_ctx, mut root) = built();
    let total = VaultPath::new(String::from("/mail")).ok().unwrap();
    match root.get_entry_mut(VecDeque::from(vec!["mail"]), &total) {
        Ok(entry) => assert!(!entry.is_directory()),
        Err(_) => panic!("entry not found"),
    }
    assert!(matches!(root.get_entry_mut(VecDeque::from(vec!["none"]), &total), Err(VaultError::EntryNotFound(_))));
    assert!(matches!(root.get_entry_mut(VecDeque::from(vec!["mail", "x"]), &total), Err(VaultError::EntryNotFound(_))));
}

#[test]
fn block_entries_order_by_name() {
    let (_ctx, root) = built();
    let children = root.get_children();
    assert_eq!(children.len(), 1);
    assert_eq!(children[0].cmp(&children[0]), std::cmp::Ordering::Equal);
    assert_eq!(children[0].name(), padded("mail"));
}

#[test]
fn changed_secret_file_reads_back() {
    let mut m = open(vault_file());
    assert!(m.room_for(1, 300));
    assert!(m.new_secret(String::from("/"), String::from("doc"), b"first version".to_vec()).is_ok());
    assert!(m.change_secret(String::from("/doc"), b"second".to_vec()).is_ok());
    match m.retrieve_secret_entry(&String::from("/doc")) {
        Ok(EntryResult::Secret(d)) => {
            let mut expected = b"second".to_vec();
            expected.resize(256, 0);
            assert_eq!(d, expected);
        },
        _ => panic!("changed secret not read"),
    }
    assert!(matches!(
        m.change_secret(String::from("/mail"), vec![1]),
        Err(schlosser::vault::error::VaultChangeEntryError::InvalidOperation(_, _))
    ));
}

#[test]
fn grown_secret_file_reads_back() {
    let mut m = open(vault_file());
    assert!(m.room_for(1, 300));
    assert!(m.new_secret(String::from("/"), String::from("doc"), b"short".to_vec()).is_ok());
    let contents: Vec<u8> = (0..600u32).map(|i| (i % 251) as u8 + 1).collect();
    assert!(m.change_secret(String::from("/doc"), contents.clone()).is_ok());
    match m.retrieve_secret_entry(&String::from("/doc")) {
        Ok(EntryResult::Secret(d)) => {
            let mut expected = contents.clone();
            expected.resize(800, 0);
            assert_eq!(d, expected);
        },
        _ => panic!("grown secret not read"),
    }
}

#[test]
fn vault_overview_lists_entries() {
    let mut m = open(vault_file());
    assert!(m.room_for(0, 272));
    assert!(m.new_directory(String::from("/"), String::from("dir")).is_ok());
    let info = m.get_vault_info().ok().unwrap();
    let expected = format!(
        "{} Archive├─  {}: 2 Items│\t├─  {}: 0 Items└  {} (Password)\n",
        padded("blocks"),
        padded("root"),
        padded("dir"),
        padded("mail"),
    );
    assert_eq!(info, expected);
}
