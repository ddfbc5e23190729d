use btrfs_dedupe::catalog::{
    find_root, FileData, FileDataRecord, FileDatabase, FileDatabaseBuilder, ReadError, RootMap,
};
use btrfs_dedupe::hash::{encode_hash, zero_hash};
use btrfs_dedupe::path::{PathId, RecursivePathDatabase};

fn file(path: PathId, root: Option<PathId>, size: u64) -> FileData {
    FileData {
        path,
        root_path: root,
        size,
        content_hash: zero_hash(),
        content_hash_time: 0,
        extent_hash: zero_hash(),
        extent_hash_time: 0,
        defragment_time: 0,
        deduplicate_time: 0,
        mtime: 1000,
        ctime: 1001,
        mode: 0o100644,
        uid: 1,
        gid: 2,
    }
}

fn record(path: &[u8]) -> FileDataRecord {
    FileDataRecord {
        path: path.to_vec(),
        size: 10,
        content_hash: None,
        content_hash_time: None,
        extent_hash: None,
        extent_hash_time: None,
        defragment_time: None,
        deduplicate_time: None,
        mtime: 5,
        ctime: 6,
        mode: 0o100600,
        uid: 0,
        gid: 0,
    }
}

#[test]
fn builder_accepts_ascending_paths_only() {
    let mut paths = RecursivePathDatabase::new();
    let a = paths.for_path(b"/d/a").unwrap();
    let b = paths.for_path(b"/d/b").unwrap();
    let mut builder = FileDatabaseBuilder::new();
    assert!(builder.accepts(&paths, b));
    builder.insert(&paths, file(a, None, 1));
    assert!(builder.accepts(&paths, b));
    assert!(!builder.accepts(&paths, a));
    builder.insert(&paths, file(b, None, 2));
    assert!(!builder.accepts(&paths, a));
    assert_eq!(builder.len(), 2);
    let db = builder.build();
    assert_eq!(db.len(), 2);
    assert_eq!(db.get(1).size, 2);
}

#[test]
fn find_root_picks_deepest_root() {
    let mut paths = RecursivePathDatabase::new();
    let outer = paths.for_path(b"/data").unwrap();
    let inner = paths.for_path(b"/data/photos").unwrap();
    let f1 = paths.for_path(b"/data/photos/x.jpg").unwrap();
    let f2 = paths.for_path(b"/data/notes.txt").unwrap();
    let f3 = paths.for_path(b"/other/y").unwrap();
    let roots = vec![outer, inner];
    assert_eq!(find_root(&paths, &roots, f1), Some(inner));
    assert_eq!(find_root(&paths, &roots, f2), Some(outer));
    assert_eq!(find_root(&paths, &roots, f3), None);
    assert_eq!(find_root(&paths, &roots, inner), Some(inner));
}

#[test]
fn write_omits_sentinel_fields() {
    let mut paths = RecursivePathDatabase::new();
    let root = paths.for_path(b"/r").unwrap();
    let a = paths.for_path(b"/r/a").unwrap();
    let b = paths.for_path(b"/r/b").unwrap();
    let mut builder = FileDatabaseBuilder::new();
    builder.insert(&paths, file(a, Some(root), 7));
    let mut hashed = file(b, Some(root), 9);
    hashed.content_hash = [0x11; 32];
    hashed.content_hash_time = 1234;
    hashed.extent_hash = [0x22; 32];
    hashed.extent_hash_time = 1235;
    builder.insert(&paths, hashed);
    let db = builder.build();
    let out = db.write(&paths).unwrap();
    assert_eq!(out.len(), 2);
    assert_eq!(out[0].path, b"/r/a".to_vec());
    assert!(out[0].content_hash.is_none());
    assert!(out[0].content_hash_time.is_none());
    assert!(out[0].extent_hash.is_none());
    assert!(out[0].defragment_time.is_none());
    assert!(out[0].deduplicate_time.is_none());
    assert_eq!(out[1].content_hash, Some("11".repeat(32)));
    assert_eq!(out[1].content_hash_time, Some(1234));
    assert_eq!(out[1].extent_hash, Some("22".repeat(32)));
    assert_eq!(out[1].extent_hash_time, Some(1235));
    assert_eq!(out[1].size, 9);
    assert_eq!(out[1].mode, 0o100644);
}

#[test]
fn write_then_read_round_trips() {
    let mut paths = RecursivePathDatabase::new();
    let root = paths.for_path(b"/r").unwrap();
    let a = paths.for_path(b"/r/a").unwrap();
    let b = paths.for_path(b"/r/sub/b").unwrap();
    let mut builder = FileDatabaseBuilder::new();
    let mut first = file(a, Some(root), 7);
    first.content_hash = [0x5a; 32];
    first.content_hash_time = 99;
    first.extent_hash = [0x07; 32];
    first.extent_hash_time = 100;
    first.deduplicate_time = 101;
    first.defragment_time = 102;
    builder.insert(&paths, first);
    builder.insert(&paths, file(b, Some(root), 8));
    let db = builder.build();
    let written = db.write(&paths).unwrap();
    let back = FileDatabase::read(&mut paths, &[root], &written).unwrap();
    assert_eq!(back.len(), 2);
    for i in 0..2 {
        let x = back.get(i);
        let y = db.get(i);
        assert_eq!(x.path, y.path);
        assert_eq!(x.root_path, y.root_path);
        assert_eq!(x.size, y.size);
        assert_eq!(x.content_hash, y.content_hash);
        assert_eq!(x.content_hash_time, y.content_hash_time);
        assert_eq!(x.extent_hash, y.extent_hash);
        assert_eq!(x.extent_hash_time, y.extent_hash_time);
        assert_eq!(x.defragment_time, y.defragment_time);
        assert_eq!(x.deduplicate_time, y.deduplicate_time);
        assert_eq!(x.mtime, y.mtime);
        assert_eq!(x.ctime, y.ctime);
        assert_eq!((x.mode, x.uid, x.gid), (y.mode, y.uid, y.gid));
    }
}

#[test]
fn read_into_fresh_interner() {
    let records = vec![record(b"/x/1"), record(b"/x/2"), record(b"/y/3")];
    let mut paths = RecursivePathDatabase::new();
    let x = paths.for_path(b"/x").unwrap();
    let db = FileDatabase::read(&mut paths, &[x], &records).unwrap();
    assert_eq!(db.len(), 3);
    assert_eq!(db.get(0).root_path, Some(x));
    assert_eq!(db.get(2).root_path, None);
    assert_eq!(paths.to_path(db.get(2).path), b"/y/3".to_vec());
    assert_eq!(db.get(1).mtime, 5);
}

#[test]
fn read_rejects_out_of_order_records() {
    let records = vec![record(b"/x/2"), record(b"/x/1")];
    let mut paths = RecursivePathDatabase::new();
    assert!(FileDatabase::read(&mut paths, &[], &records).is_err());
    let dup = vec![record(b"/x/1"), record(b"/x/1")];
    assert!(FileDatabase::read(&mut paths, &[], &dup).is_err());
}

#[test]
fn read_rejects_relative_paths_and_bad_hashes() {
    let mut paths = RecursivePathDatabase::new();
    assert!(FileDatabase::read(&mut paths, &[], &vec![record(b"x/1")]).is_err());
    let mut bad = record(b"/x/1");
    bad.content_hash = Some("zz".repeat(32));
    assert!(FileDatabase::read(&mut paths, &[], &vec![bad]).is_err());
    let mut short = record(b"/x/1");
    short.extent_hash = Some("ab".to_string());
    assert!(FileDatabase::read(&mut paths, &[], &vec![short]).is_err());
}

#[test]
fn read_decodes_hash_text() {
    let mut rec = record(b"/x/1");
    let h = [0xc3u8; 32];
    rec.content_hash = Some(encode_hash(&h));
    rec.content_hash_time = Some(77);
    let mut paths = RecursivePathDatabase::new();
    let db = FileDatabase::read(&mut paths, &[], &vec![rec]).unwrap();
    assert_eq!(db.get(0).content_hash, h);
    assert_eq!(db.get(0).content_hash_time, 77);
    assert_eq!(db.get(0).extent_hash, [0u8; 32]);
    assert_eq!(db.get(0).extent_hash_time, 0);
}

#[test]
fn interrupted_write_leaves_prior_catalog_readable() {
    // the previous persisted records are what a later run reads when a
    // newer write never replaced them
    let mut paths = RecursivePathDatabase::new();
    let root = paths.for_path(b"/r").unwrap();
    let a = paths.for_path(b"/r/a").unwrap();
    let mut builder = FileDatabaseBuilder::new();
    builder.insert(&paths, file(a, Some(root), 3));
    let persisted = builder.build().write(&paths).unwrap();
    let mut fresh = RecursivePathDatabase::new();
    let r2 = fresh.for_path(b"/r").unwrap();
    let again = FileDatabase::read(&mut fresh, &[r2], &persisted).unwrap();
    assert_eq!(again.len(), 1);
    assert_eq!(fresh.to_path(again.get(0).path), b"/r/a".to_vec());
    assert_eq!(again.get(0).root_path, Some(r2));
}

#[test]
fn update_replaces_non_key_fields() {
    let mut paths = RecursivePathDatabase::new();
    let a = paths.for_path(b"/a").unwrap();
    let mut builder = FileDatabaseBuilder::new();
    builder.insert(&paths, file(a, None, 3));
    let mut db = builder.build();
    let mut d = db.get(0);
    d.size = 42;
    db.update(0, d);
    assert_eq!(db.get(0).size, 42);
    assert_eq!(db.into_records().len(), 1);
}

#[test]
fn read_rejects_unknown_roots() {
    let mut other = RecursivePathDatabase::new();
    let foreign = other.for_path(b"/a/b/c/d").unwrap();
    let mut paths = RecursivePathDatabase::new();
    assert!(FileDatabase::read(&mut paths, &[foreign], &vec![record(b"/x/1")]).is_err());
    assert!(FileDatabase::read(&mut paths, &[], &vec![record(b"/x/1")]).is_ok());
}

#[test]
fn read_names_first_bad_record() {
    let mut paths = RecursivePathDatabase::new();
    let mut bad = record(b"/x/2");
    bad.extent_hash = Some("ab".to_string());
    let records = vec![record(b"/x/1"), bad, record(b"x/relative")];
    match FileDatabase::read(&mut paths, &[], &records) {
        Err(ReadError::Record { index, .. }) => assert_eq!(index, 1),
        other => panic!("unexpected {:?}", other.map(|db| db.len())),
    }
    let unordered = vec![record(b"/x/1"), record(b"/x/3"), record(b"/x/2")];
    match FileDatabase::read(&mut paths, &[], &unordered) {
        Err(ReadError::Record { index, .. }) => assert_eq!(index, 2),
        other => panic!("unexpected {:?}", other.map(|db| db.len())),
    }
    let mut other = RecursivePathDatabase::new();
    let foreign = other.for_path(b"/a/b/c/d/e").unwrap();
    assert!(matches!(
        FileDatabase::read(&mut paths, &[foreign], &records),
        Err(ReadError::UnknownRoot)
    ));
}

#[test]
fn root_map_remembers_nearest_roots() {
    let mut paths = RecursivePathDatabase::new();
    let outer = paths.for_path(b"/data").unwrap();
    let inner = paths.for_path(b"/data/photos").unwrap();
    let f1 = paths.for_path(b"/data/photos/2020/x.jpg").unwrap();
    let f2 = paths.for_path(b"/data/photos/2020/y.jpg").unwrap();
    let f3 = paths.for_path(b"/data/notes.txt").unwrap();
    let f4 = paths.for_path(b"/other/z").unwrap();
    let roots = vec![outer, inner];
    let mut map = RootMap::new(&paths, &roots);
    assert_eq!(map.find_root(&paths, &roots, f1), Some(inner));
    assert_eq!(map.find_root(&paths, &roots, f2), Some(inner));
    assert_eq!(map.find_root(&paths, &roots, f3), Some(outer));
    assert_eq!(map.find_root(&paths, &roots, f4), None);
    assert_eq!(map.find_root(&paths, &roots, f4), None);
    assert_eq!(map.find_root(&paths, &roots, outer), Some(outer));
    let f5 = paths.for_path(b"/other/w").unwrap();
    assert_eq!(map.find_root(&paths, &roots, f5), None);
}
