use clarion::keys::{contract_db_path, db_key, ripemd160, u32_be_bytes, u64_be_bytes, DBKey};
use clarion::types::{FilesystemConfig, StorageDriver};

#[test]
fn u64_big_endian_is_fixed_width() {
    assert_eq!(u64_be_bytes(0), vec![0, 0, 0, 0, 0, 0, 0, 0]);
    assert_eq!(u64_be_bytes(1), vec![0, 0, 0, 0, 0, 0, 0, 1]);
    assert_eq!(u64_be_bytes(0x0102030405060708), vec![1, 2, 3, 4, 5, 6, 7, 8]);
    assert_eq!(u64_be_bytes(u64::MAX), vec![255; 8]);
}

#[test]
fn u32_big_endian_is_fixed_width() {
    assert_eq!(u32_be_bytes(0), vec![0, 0, 0, 0]);
    assert_eq!(u32_be_bytes(7), vec![0, 0, 0, 7]);
    assert_eq!(u32_be_bytes(0x01020304), vec![1, 2, 3, 4]);
}

#[test]
fn big_endian_keys_sort_numerically() {
    // lexicographic byte order of the fixed-width encoding agrees with the
    // numeric order of heights, which decimal text would not give
    let heights = [0u64, 1, 2, 9, 10, 11, 99, 100, 255, 256, 65535, 65536, u64::MAX];
    for w in heights.windows(2) {
        assert!(u64_be_bytes(w[0]) < u64_be_bytes(w[1]));
    }
    // the decimal-text counterexample this design avoids
    assert!("10" < "9");
}

#[test]
fn var_key_is_textual() {
    let key = db_key(DBKey::Var("balance"), "S1G.counter");
    assert_eq!(key, b"var::S1G.counter::balance".to_vec());
}

#[test]
fn analysis_and_interface_keys() {
    assert_eq!(db_key(DBKey::FullAnalysis, "c1"), b"c1::#analysis".to_vec());
    assert_eq!(db_key(DBKey::Interface, "c1"), b"c1::#interface".to_vec());
}

#[test]
fn var_event_key_embeds_sortable_height_and_index() {
    let key = db_key(DBKey::VarEvent("x", 3, 7), "c1");
    let mut expected = b"var::c1::x#events::".to_vec();
    expected.extend_from_slice(&[0, 0, 0, 0, 0, 0, 0, 3]);
    expected.push(b'/');
    expected.extend_from_slice(&[0, 0, 0, 7]);
    assert_eq!(key, expected);
    // the block-scan prefix bounds exactly the keys of that height
    let prefix = db_key(DBKey::VarEventScanBlock("x", 3), "c1");
    assert!(key.starts_with(&prefix));
    let other = db_key(DBKey::VarEvent("x", 4, 0), "c1");
    assert!(!other.starts_with(&prefix));
    // the all-history prefix bounds both
    let scan = db_key(DBKey::VarEventScan("x"), "c1");
    assert!(key.starts_with(&scan) && other.starts_with(&scan));
}

#[test]
fn event_keys_of_one_item_sort_by_height_then_index() {
    let a = db_key(DBKey::FTEvent("c1::token", 2, 9), "c1");
    let b = db_key(DBKey::FTEvent("c1::token", 10, 0), "c1");
    let c = db_key(DBKey::FTEvent("c1::token", 10, 1), "c1");
    assert!(a < b && b < c);
}

#[test]
fn map_entry_key_uses_real_digest() {
    // RIPEMD-160("abc") is the published test vector; a digest wrapper that
    // handed its input back unchanged would fail this
    let digest = ripemd160(b"abc");
    let expected = [
        0x8eu8, 0xb2, 0x08, 0xf7, 0xe0, 0x5d, 0x98, 0x7a, 0x9b, 0x04, 0x4a, 0x8e, 0x98, 0xc6,
        0xb0, 0x87, 0xf1, 0x5a, 0x0b, 0xfc,
    ];
    assert_eq!(digest, expected.to_vec());
    let key = db_key(DBKey::MapEntry("m", "abc"), "c1");
    let mut expected_key = b"map::c1::m@".to_vec();
    expected_key.extend_from_slice(&expected);
    assert_eq!(key, expected_key);
    // the digest keeps the key length bounded for arbitrarily long sub-keys
    let long_sub_key = "k".repeat(10_000);
    let long = db_key(DBKey::MapEntry("m", &long_sub_key), "c1");
    assert_eq!(long.len(), key.len());
}

#[test]
fn nft_key_shapes() {
    let digest = ripemd160(b"A");
    let key = db_key(DBKey::NFT("c1::nft", "A"), "c1");
    let mut expected = b"nft::c1::nft::id@".to_vec();
    expected.extend_from_slice(&digest);
    assert_eq!(key, expected);
    assert_eq!(db_key(DBKey::NFTScan("c1::nft"), "c1"), b"nft::c1::nft::id@".to_vec());
}

#[test]
fn ft_key_shapes() {
    assert_eq!(db_key(DBKey::FT("c1::tok", "S1G"), "c1"), b"ft::c1::tok@S1G".to_vec());
    assert_eq!(db_key(DBKey::FTScan("c1::tok"), "c1"), b"ft::c1::tok@".to_vec());
    assert_eq!(db_key(DBKey::FTEventScan("c1::tok"), "c1"), b"ft::c1::tok#events::".to_vec());
}

#[test]
fn map_scan_prefix_covers_entries() {
    let prefix = db_key(DBKey::MapScan("m"), "c1");
    assert_eq!(prefix, b"map::c1::m@".to_vec());
    let entry = db_key(DBKey::MapEntry("m", "k1"), "c1");
    assert!(entry.starts_with(&prefix));
}

#[test]
fn contract_db_path_isolates_contracts() {
    let driver = StorageDriver::Filesystem(FilesystemConfig { working_dir: "/data".to_string() });
    assert_eq!(contract_db_path(&driver, "S1G.counter"), "/data/contracts/S1G.counter");
    let other = contract_db_path(&driver, "S1G.other");
    assert_ne!(contract_db_path(&driver, "S1G.counter"), other);
}
