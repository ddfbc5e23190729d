use btrfs_dedupe::extents::{calculate_extent_hash, extent_bytes, FileExtent};
use btrfs_dedupe::hash::{decode_hash, encode_hash, hash_is_absent, hashes_equal, zero_hash};
use btrfs_dedupe::path::RecursivePathDatabase;
use std::cmp::Ordering;

#[test]
fn hash_hex_round_trip() {
    let mut h = [0u8; 32];
    for i in 0..32 {
        h[i] = (i as u8) * 7 + 1;
    }
    let text = encode_hash(&h);
    assert_eq!(text.len(), 64);
    assert!(text.starts_with("01080f16"));
    let back = decode_hash(&Some(text)).unwrap();
    assert_eq!(back, h);
}

#[test]
fn hash_hex_is_lowercase() {
    let h = [0xabu8; 32];
    assert_eq!(encode_hash(&h), "ab".repeat(32));
}

#[test]
fn decode_absent_is_zero() {
    let h = decode_hash(&None).unwrap();
    assert!(hash_is_absent(&h));
    assert!(hashes_equal(&h, &zero_hash()));
}

#[test]
fn decode_accepts_uppercase() {
    let h = decode_hash(&Some("AB".repeat(32))).unwrap();
    assert_eq!(h, [0xabu8; 32]);
}

#[test]
fn decode_rejects_bad_text() {
    assert!(decode_hash(&Some("ab".repeat(31))).is_err());
    assert!(decode_hash(&Some(format!("{}zz", "ab".repeat(31)))).is_err());
    assert!(decode_hash(&Some(format!("{} a", "ab".repeat(31)))).is_err());
}

#[test]
fn intern_and_materialize() {
    let mut paths = RecursivePathDatabase::new();
    let a = paths.for_path(b"/home/user/file.txt").unwrap();
    assert_eq!(paths.to_path(a), b"/home/user/file.txt".to_vec());
    assert_eq!(paths.depth_of(a), 3);
    assert_eq!(paths.name_of(a).unwrap(), b"file.txt");
    let parent = paths.parent_of(a).unwrap();
    assert_eq!(paths.to_path(parent), b"/home/user".to_vec());
    let root = paths.root();
    assert_eq!(paths.to_path(root), b"/".to_vec());
    assert!(paths.parent_of(root).is_none());
    assert!(paths.name_of(root).is_none());
}

#[test]
fn intern_returns_existing_handle() {
    let mut paths = RecursivePathDatabase::new();
    let a = paths.for_path(b"/a/b/c").unwrap();
    let b = paths.for_path(b"//a//b/c/").unwrap();
    assert_eq!(a, b);
    let c = paths.for_path(b"/a/b").unwrap();
    assert_eq!(paths.parent_of(a), Some(c));
    let d = paths.join(c, b"c").unwrap();
    assert_eq!(d, a);
}

#[test]
fn intern_rejects_relative() {
    let mut paths = RecursivePathDatabase::new();
    assert!(paths.for_path(b"a/b").is_none());
    assert!(paths.for_path(b"").is_none());
}

#[test]
fn join_rejects_bad_names() {
    let mut paths = RecursivePathDatabase::new();
    let root = paths.root();
    assert!(paths.join(root, b"").is_none());
    assert!(paths.join(root, b"a/b").is_none());
    assert!(paths.join(root, b"ok").is_some());
}

#[test]
fn path_order_is_component_wise() {
    let mut paths = RecursivePathDatabase::new();
    let root = paths.root();
    let a = paths.for_path(b"/a").unwrap();
    let ab = paths.for_path(b"/a/b").unwrap();
    let ac = paths.for_path(b"/a/c").unwrap();
    let a_dash = paths.for_path(b"/a-x").unwrap();
    let b = paths.for_path(b"/b").unwrap();
    assert_eq!(paths.compare(root, a), Ordering::Less);
    assert_eq!(paths.compare(a, ab), Ordering::Less);
    assert_eq!(paths.compare(ab, ac), Ordering::Less);
    assert_eq!(paths.compare(ac, b), Ordering::Less);
    assert_eq!(paths.compare(b, ab), Ordering::Greater);
    assert_eq!(paths.compare(ab, ab), Ordering::Equal);
    // component order, not string order: "/a/c" sorts before "/a-x"
    assert_eq!(paths.compare(ac, a_dash), Ordering::Less);
    assert!(paths.less(a, b));
    assert!(!paths.less(b, a));
}

#[test]
fn extent_bytes_layout() {
    let extents = vec![
        FileExtent { logical: 0, physical: 4096, length: 8192 },
        FileExtent { logical: 8192, physical: 0, length: 4096 },
    ];
    let bytes = extent_bytes(&extents);
    assert_eq!(bytes.len(), 24);
    assert_eq!(&bytes[0..8], &[0u8; 8]);
    assert_eq!(&bytes[8..16], &[0, 16, 0, 0, 0, 0, 0, 0]);
    assert_eq!(&bytes[16..24], &[0, 32, 0, 0, 0, 0, 0, 0]);
}

#[test]
fn extent_hash_of_holes_is_absent() {
    let extents = vec![FileExtent { logical: 0, physical: 0, length: 4096 }];
    assert!(calculate_extent_hash(&extents).is_none());
    assert!(calculate_extent_hash(&[]).is_none());
}

#[test]
fn extent_hash_is_sha256_of_layout() {
    let extents = vec![
        FileExtent { logical: 0, physical: 4096, length: 8192 },
        FileExtent { logical: 9000, physical: 0, length: 1 },
    ];
    let h = calculate_extent_hash(&extents).unwrap();
    assert_eq!(
        encode_hash(&h),
        "47bd547722e164205ca9574dc73554aca6540252c15f42a8fce9fb918bf48a6d"
    );
    let two = vec![
        FileExtent { logical: 0, physical: 4096, length: 8192 },
        FileExtent { logical: 8192, physical: 65536, length: 4096 },
    ];
    let h2 = calculate_extent_hash(&two).unwrap();
    assert_eq!(
        encode_hash(&h2),
        "eb9c9208b637646dfdc0a60221ea5421dde288344b29eb7645f19534adb27eaa"
    );
}

#[test]
fn shared_layouts_have_equal_extent_hashes() {
    let a = vec![FileExtent { logical: 0, physical: 1 << 20, length: 4 << 20 }];
    let b = vec![FileExtent { logical: 0, physical: 1 << 20, length: 4 << 20 }];
    let c = vec![FileExtent { logical: 0, physical: 2 << 20, length: 4 << 20 }];
    let ha = calculate_extent_hash(&a).unwrap();
    let hb = calculate_extent_hash(&b).unwrap();
    let hc = calculate_extent_hash(&c).unwrap();
    assert_eq!(ha, hb);
    assert_ne!(ha, hc);
}
