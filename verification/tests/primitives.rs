use schlosser::crypt::{decrypt_region, decrypt_region_dyn, encrypt_region, generate_user_key};
use schlosser::error::CryptographyError;
use schlosser::hmac::{generate_hmac_code, verify_hmac_code};
use schlosser::vault::codec::{get_u64, get_u64_le, name_buffer, put_u64, put_u64_le, trim_trailing_zeros, write_bytes_at};
use schlosser::vault::entry::{build_prefix_str, decimal_string};
use schlosser::vault::table::listing::slice_le;
use schlosser::vault::utils::{split_slash, BlockRange, BlockSet, VaultPath};

#[test]
fn encryption_round_trip() {
    let key = [1u8; 32];
    let data = b"attack at dawn".to_vec();
    let enc = encrypt_region(&data, &key).ok().unwrap();
    assert_eq!(enc.data.len(), data.len() + 16);
    assert_ne!(enc.data[..data.len()], data[..]);
    let plain = decrypt_region(&enc.data, &enc.nonce, &key, data.len()).ok().unwrap();
    assert_eq!(plain, data);
    let plain = decrypt_region_dyn(enc.data.clone(), &enc.nonce, &key).ok().unwrap();
    assert_eq!(plain, data);
}

#[test]
fn tampered_ciphertext_is_refused() {
    let key = [1u8; 32];
    let mut enc = encrypt_region(b"attack at dawn", &key).ok().unwrap();
    enc.data[0] ^= 1;
    assert!(matches!(decrypt_region(&enc.data, &enc.nonce, &key, 14), Err(CryptographyError::InauthenticTag)));
    let other = [2u8; 32];
    enc.data[0] ^= 1;
    assert!(matches!(decrypt_region_dyn(enc.data.clone(), &enc.nonce, &other), Err(CryptographyError::InauthenticTag)));
}

#[test]
fn user_key_depends_on_password_and_iv() {
    let a = generate_user_key(String::from("pw"), &[0u8; 16]);
    let b = generate_user_key(String::from("pw"), &[0u8; 16]);
    let c = generate_user_key(String::from("pw"), &[1u8; 16]);
    assert_eq!(a, b);
    assert_ne!(a, c);
}

#[test]
fn crypto_error_messages() {
    assert_eq!(CryptographyError::InauthenticTag.message(), "Authentication tag corrupted");
    assert_eq!(
        CryptographyError::InvalidLength { expected: 256, actual: 12 }.message(),
        "Mismatch when converting data: expected 256 but got 12"
    );
}

#[test]
fn hmac_code_verifies() {
    let key = b"key";
    let code = generate_hmac_code(b"message", key).ok().unwrap();
    assert_eq!(verify_hmac_code(code, b"message", key).ok(), Some(true));
    assert_eq!(verify_hmac_code(code, b"messagf", key).ok(), Some(false));
    // the RFC 4231 example with the key "Jefe"
    let code = generate_hmac_code(b"what do ya want for nothing?", b"Jefe").ok().unwrap();
    assert_eq!(code[..4], [0x5b, 0xdc, 0xc1, 0x46]);
}

#[test]
fn integers_round_trip() {
    let mut buf = Vec::new();
    put_u64(&mut buf, 0x0102030405060708);
    assert_eq!(buf, vec![1, 2, 3, 4, 5, 6, 7, 8]);
    assert_eq!(get_u64(&buf, 0), 0x0102030405060708);
    let mut le = Vec::new();
    put_u64_le(&mut le, 0x0102030405060708);
    assert_eq!(le, vec![8, 7, 6, 5, 4, 3, 2, 1]);
    assert_eq!(get_u64_le(&le, 0), 0x0102030405060708);
}

#[test]
fn fields_and_padding() {
    let f = name_buffer("ab");
    assert_eq!(&f[..3], &[b'a', b'b', 0]);
    assert_eq!(trim_trailing_zeros(&f), b"ab".to_vec());
    assert_eq!(trim_trailing_zeros(&[0, 1, 0, 0]), vec![0, 1]);
    let mut img = vec![1u8, 2];
    write_bytes_at(&mut img, 4, &[9, 9]);
    assert_eq!(img, vec![1, 2, 0, 0, 9, 9]);
}

#[test]
fn decimal_and_prefix_text() {
    assert_eq!(decimal_string(0), "0");
    assert_eq!(decimal_string(1207), "1207");
    assert_eq!(build_prefix_str(0, false), "├─ ");
    assert_eq!(build_prefix_str(2, true), "│\t│\t└ ");
}

#[test]
fn byte_order_of_names() {
    assert!(slice_le(b"abc", b"abd"));
    assert!(slice_le(b"ab", b"abc"));
    assert!(!slice_le(b"b", b"abc"));
    assert!(slice_le(b"same", b"same"));
}

#[test]
fn block_ranges() {
    let r = BlockRange::new(4, 3);
    assert_eq!((r.start, r.end), (4, 6));
    assert_eq!(r.len(), 3);
    assert!(r.overlaps(&BlockRange::new(6, 2)));
    assert!(!r.overlaps(&BlockRange::new(7, 2)));
    let m = r.merge_block(&BlockRange::new(1, 2));
    assert_eq!((m.start, m.end), (1, 6));
}

#[test]
fn block_set_merges_and_occupies() {
    let mut set = BlockSet::new();
    set.put(BlockRange { start: 10, end: 12 });
    set.put(BlockRange { start: 2, end: 3 });
    set.put(BlockRange { start: 4, end: 5 });
    set.put(BlockRange { start: 11, end: 15 });
    let ranges: Vec<(u64, u64)> = set.blocks().iter().map(|r| (r.start, r.end)).collect();
    // overlapping ranges merge, adjacent ones stay apart
    assert_eq!(ranges, vec![(2, 3), (4, 5), (10, 15)]);
    let got = set.occupy(5);
    assert_eq!((got.start, got.end), (10, 14));
    let ranges: Vec<(u64, u64)> = set.blocks().iter().map(|r| (r.start, r.end)).collect();
    assert_eq!(ranges, vec![(2, 3), (4, 5), (15, 15)]);
    // no range is large enough: the blocks after the last range are taken
    let got = set.occupy(7);
    assert_eq!((got.start, got.end), (16, 22));
    let empty = set.get_empty_space();
    let gaps: Vec<(u64, u64)> = empty.blocks().iter().map(|r| (r.start, r.end)).collect();
    assert_eq!(gaps, vec![(0, 1), (6, 14)]);
}

fn ranges_of(set: &BlockSet) -> Vec<(u64, u64)> {
    set.blocks().iter().map(|r| (r.start, r.end)).collect()
}

#[test]
fn block_set_inserts_between_and_merges_overlaps() {
    let mut set = BlockSet::new();
    set.put(BlockRange { start: 1, end: 2 });
    set.put(BlockRange { start: 6, end: 8 });
    set.put(BlockRange { start: 4, end: 4 });
    assert_eq!(ranges_of(&set), vec![(1, 2), (4, 4), (6, 8)]);
    let mut set = BlockSet::new();
    set.put(BlockRange { start: 1, end: 3 });
    set.put(BlockRange { start: 2, end: 5 });
    assert_eq!(ranges_of(&set), vec![(1, 5)]);
    let mut set = BlockSet::new();
    set.put(BlockRange { start: 2, end: 9 });
    let got = set.occupy(3);
    assert_eq!((got.start, got.end), (2, 4));
    assert_eq!(ranges_of(&set), vec![(5, 9)]);
    let mut set = BlockSet::new();
    set.put(BlockRange { start: 0, end: 1 });
    set.put(BlockRange { start: 4, end: 5 });
    assert_eq!(ranges_of(&set.get_empty_space()), vec![(2, 3)]);
    assert_eq!(ranges_of(&set), vec![(0, 1), (4, 5)]);
}

#[test]
fn vault_paths() {
    assert!(VaultPath::new(String::from("no-slash")).is_err());
    assert!(VaultPath::new(String::from("/a//b")).is_err());
    assert!(VaultPath::new(String::new()).is_err());
    let p = VaultPath::new(String::from("/dir/entry")).ok().unwrap();
    assert_eq!(p.name(), Some("entry"));
    assert_eq!(p.parts(), vec!["", "dir", "entry"]);
    let parent = p.parent().unwrap();
    assert_eq!(parent.clone().into_string(), "/dir");
    let root = parent.parent().unwrap();
    assert_eq!(root.clone().into_string(), "/");
    assert!(root.parent().is_none());
    assert_eq!(split_slash("a/b/"), vec!["a", "b", ""]);
}
