use btrfs_dedupe::catalog::{FileData, FileDatabase, FileDatabaseBuilder};
use btrfs_dedupe::extents::{calculate_extent_hash, FileExtent};
use btrfs_dedupe::hash::zero_hash;
use btrfs_dedupe::passes::{ContentHasher, DedupeAction, ExtentHasher, FileDeduper, Step};
use btrfs_dedupe::path::{PathId, RecursivePathDatabase};
use btrfs_dedupe::planner::build_dedupe_map;
use btrfs_dedupe::scanner::{sort_entry_names, DirectoryScanner, EntryAction, EntryMetadata};

const MIB: u64 = 1024 * 1024;

fn file(path: PathId, root: Option<PathId>, size: u64) -> FileData {
    FileData {
        path,
        root_path: root,
        size,
        content_hash: zero_hash(),
        content_hash_time: 0,
        extent_hash: zero_hash(),
        extent_hash_time: 0,
        defragment_time: 0,
        deduplicate_time: 0,
        mtime: 10,
        ctime: 10,
        mode: 0o100644,
        uid: 0,
        gid: 0,
    }
}

fn hashed(path: PathId, root: PathId, size: u64, content: u8, extent: u8) -> FileData {
    let mut d = file(path, Some(root), size);
    d.content_hash = [content; 32];
    d.content_hash_time = 100;
    d.extent_hash = [extent; 32];
    d.extent_hash_time = 100;
    d
}

fn catalog(paths: &RecursivePathDatabase, recs: Vec<FileData>) -> FileDatabase {
    let mut builder = FileDatabaseBuilder::new();
    for r in recs {
        builder.insert(paths, r);
    }
    builder.build()
}

fn meta_file(size: u64, mtime: i64) -> EntryMetadata {
    EntryMetadata {
        is_symlink: false,
        is_dir: false,
        is_file: true,
        dev: 1,
        size,
        mtime,
        ctime: mtime,
        mode: 0o100644,
        uid: 0,
        gid: 0,
    }
}

#[test]
fn planner_groups_identical_files() {
    let mut paths = RecursivePathDatabase::new();
    let root = paths.for_path(b"/r").unwrap();
    let a = paths.for_path(b"/r/a").unwrap();
    let b = paths.for_path(b"/r/b").unwrap();
    let db = catalog(
        &paths,
        vec![hashed(a, root, 4 * MIB, 1, 10), hashed(b, root, 4 * MIB, 1, 11)],
    );
    let plan = build_dedupe_map(&[root], 1024, &db);
    assert_eq!(plan, vec![Some(0), Some(0)]);
}

#[test]
fn planner_three_files_two_sharing() {
    let mut paths = RecursivePathDatabase::new();
    let root = paths.for_path(b"/r").unwrap();
    let a = paths.for_path(b"/r/a").unwrap();
    let b = paths.for_path(b"/r/b").unwrap();
    let c = paths.for_path(b"/r/c").unwrap();
    let db = catalog(
        &paths,
        vec![
            hashed(a, root, 4 * MIB, 1, 10),
            hashed(b, root, 4 * MIB, 1, 10),
            hashed(c, root, 4 * MIB, 1, 12),
        ],
    );
    let plan = build_dedupe_map(&[root], 1024, &db);
    // the second file already shares the first one's extents: only the third is targeted
    assert_eq!(plan, vec![Some(0), None, Some(0)]);
    assert_eq!(FileDeduper::action(&plan, 0), Some(DedupeAction::Defragment));
    assert_eq!(FileDeduper::action(&plan, 1), None);
    assert_eq!(FileDeduper::action(&plan, 2), Some(DedupeAction::ShareFrom(0)));
    let mut db = db;
    let mut plan = plan;
    let mut deduper = FileDeduper::new();
    deduper.start_batch();
    let mut shared = Vec::new();
    for i in 0..db.len() {
        let d = db.get(i);
        if deduper.classify(&[root], 64 * MIB, &plan, i, &d) == Step::Process {
            if let Some(DedupeAction::ShareFrom(source)) = FileDeduper::action(&plan, i) {
                shared.push((source, i));
            }
            let nd = deduper.apply(&mut plan, i, &d, true, 777);
            db.update(i, nd);
        }
    }
    deduper.finish_batch();
    assert_eq!(shared, vec![(0, 2)]);
    assert_eq!(db.get(2).deduplicate_time, 777);
    assert_eq!(db.get(1).deduplicate_time, 0);
    assert_eq!(deduper.num_updated(), 1);
    assert_eq!(deduper.num_errors(), 0);
}

#[test]
fn planner_skips_fully_shared_groups() {
    let mut paths = RecursivePathDatabase::new();
    let root = paths.for_path(b"/r").unwrap();
    let a = paths.for_path(b"/r/a").unwrap();
    let b = paths.for_path(b"/r/b").unwrap();
    let c = paths.for_path(b"/r/c").unwrap();
    let d = paths.for_path(b"/r/d").unwrap();
    let db = catalog(
        &paths,
        vec![
            hashed(a, root, 4096, 1, 10),
            hashed(b, root, 4096, 2, 20),
            hashed(c, root, 4096, 1, 10),
            hashed(d, root, 4096, 2, 21),
        ],
    );
    let plan = build_dedupe_map(&[root], 1024, &db);
    assert_eq!(plan, vec![None, Some(1), None, Some(1)]);
}

#[test]
fn planner_respects_minimum_size_and_roots() {
    let mut paths = RecursivePathDatabase::new();
    let root = paths.for_path(b"/r").unwrap();
    let other = paths.for_path(b"/o").unwrap();
    let a = paths.for_path(b"/o/a").unwrap();
    let b = paths.for_path(b"/r/b").unwrap();
    let c = paths.for_path(b"/r/c").unwrap();
    let e = paths.for_path(b"/r/e").unwrap();
    let f = paths.for_path(b"/r/f").unwrap();
    let db = catalog(
        &paths,
        vec![
            hashed(a, other, 4096, 1, 1),
            hashed(b, root, 4096, 1, 2),
            hashed(c, root, 100, 3, 4),
            hashed(e, root, 100, 3, 5),
            hashed(f, root, 4096, 1, 2),
        ],
    );
    // /o/a is outside the configured roots; the small pair is under the minimum
    let plan = build_dedupe_map(&[root], 1024, &db);
    assert_eq!(plan, vec![None, None, None, None, None]);
    let plan_all = build_dedupe_map(&[root, other], 0, &db);
    assert_eq!(plan_all, vec![Some(0), Some(0), Some(2), Some(2), Some(0)]);
}

#[test]
fn planner_ignores_empty_and_unhashed_files() {
    let mut paths = RecursivePathDatabase::new();
    let root = paths.for_path(b"/r").unwrap();
    let a = paths.for_path(b"/r/a").unwrap();
    let b = paths.for_path(b"/r/b").unwrap();
    let c = paths.for_path(b"/r/c").unwrap();
    let mut empty = hashed(a, root, 0, 1, 1);
    empty.size = 0;
    let no_extent = {
        let mut d = hashed(b, root, 4096, 1, 0);
        d.extent_hash = zero_hash();
        d
    };
    let db = catalog(&paths, vec![empty, no_extent, hashed(c, root, 4096, 1, 3)]);
    let plan = build_dedupe_map(&[root], 0, &db);
    assert_eq!(plan, vec![None, None, None]);
}

#[test]
fn empty_roots_do_nothing() {
    let mut paths = RecursivePathDatabase::new();
    let root = paths.for_path(b"/r").unwrap();
    let a = paths.for_path(b"/r/a").unwrap();
    let b = paths.for_path(b"/r/b").unwrap();
    let db = catalog(
        &paths,
        vec![hashed(a, root, 4096, 1, 1), hashed(b, root, 4096, 1, 2)],
    );
    assert_eq!(build_dedupe_map(&[], 0, &db), vec![None, None]);
    let mut content = ContentHasher::new(&[], 1024);
    content.start_batch();
    assert_eq!(content.classify(&db.get(0)), Step::Ignored);
    content.finish_batch();
    assert_eq!(content.num_ignored(), 1);
    assert_eq!(content.num_remaining(), 0);
    let scanner = DirectoryScanner::new(paths, &[], db).ok().unwrap();
    let (_paths, out) = scanner.finish().ok().unwrap();
    assert_eq!(out.len(), 2);
}

#[test]
fn content_pass_batches_and_resets() {
    let mut paths = RecursivePathDatabase::new();
    let root = paths.for_path(b"/r").unwrap();
    let a = paths.for_path(b"/r/a").unwrap();
    let b = paths.for_path(b"/r/b").unwrap();
    let c = paths.for_path(b"/r/c").unwrap();
    let z = paths.for_path(b"/r/z").unwrap();
    let mut db = catalog(
        &paths,
        vec![
            file(a, Some(root), 600),
            file(b, Some(root), 600),
            file(c, None, 600),
            file(z, Some(root), 0),
        ],
    );
    let mut hasher = ContentHasher::new(&[root], 1000);
    hasher.start_batch();
    let mut steps = Vec::new();
    for i in 0..db.len() {
        let d = db.get(i);
        let s = hasher.classify(&d);
        steps.push(s);
        if s == Step::Process {
            let nd = hasher.apply(&d, Some([i as u8 + 1; 32]), 5000);
            db.update(i, nd);
        }
    }
    hasher.finish_batch();
    assert_eq!(steps, vec![Step::Process, Step::Remaining, Step::Ignored, Step::Fresh]);
    assert_eq!(hasher.num_updated(), 1);
    assert_eq!(hasher.num_remaining(), 1);
    assert_eq!(hasher.num_ignored(), 1);
    assert_eq!(hasher.num_fresh(), 1);
    assert_eq!(hasher.num_processed(), 1);
    assert_eq!(hasher.num_to_process(), 2);
    assert_eq!(db.get(0).content_hash, [1u8; 32]);
    assert_eq!(db.get(0).content_hash_time, 5000);
    // the second batch takes the deferred file; the first is now fresh
    hasher.start_batch();
    assert_eq!(hasher.classify(&db.get(0)), Step::Fresh);
    let d1 = db.get(1);
    assert_eq!(hasher.classify(&d1), Step::Process);
    let nd = hasher.apply(&d1, None, 6000);
    assert_eq!(nd.content_hash, zero_hash());
    hasher.finish_batch();
    assert_eq!(hasher.num_errors(), 1);
    assert_eq!(hasher.num_remaining(), 0);
}

#[test]
fn content_change_clears_extent_state() {
    let mut paths = RecursivePathDatabase::new();
    let root = paths.for_path(b"/r").unwrap();
    let a = paths.for_path(b"/r/a").unwrap();
    let mut d = file(a, Some(root), 10);
    d.extent_hash = [9; 32];
    d.extent_hash_time = 4;
    d.defragment_time = 5;
    d.deduplicate_time = 6;
    let mut hasher = ContentHasher::new(&[root], 1000);
    hasher.start_batch();
    let nd = hasher.apply(&d, Some([3; 32]), 77);
    assert_eq!(nd.content_hash, [3; 32]);
    assert_eq!(nd.content_hash_time, 77);
    assert_eq!(nd.extent_hash, zero_hash());
    assert_eq!(nd.extent_hash_time, 0);
    assert_eq!(nd.defragment_time, 0);
    assert_eq!(nd.deduplicate_time, 0);
}

#[test]
fn extent_pass_hashes_once() {
    let mut paths = RecursivePathDatabase::new();
    let root = paths.for_path(b"/r").unwrap();
    let a = paths.for_path(b"/r/a").unwrap();
    let mut d = file(a, Some(root), 10);
    d.content_hash = [1; 32];
    d.deduplicate_time = 50;
    let mut hasher = ExtentHasher::new(&[root], 1000);
    hasher.start_batch();
    assert_eq!(hasher.classify(&d), Step::Process);
    let h = calculate_extent_hash(&[FileExtent { logical: 0, physical: 4096, length: 10 }]);
    let nd = hasher.apply(&d, Some(h.unwrap()), 900);
    assert_eq!(nd.extent_hash_time, 900);
    assert_eq!(nd.deduplicate_time, 0);
    assert_eq!(hasher.classify(&nd), Step::Fresh);
    hasher.finish_batch();
    assert_eq!(hasher.num_updated(), 1);
    assert_eq!(hasher.num_fresh(), 1);
    assert_eq!(hasher.num_errors(), 0);
}

#[test]
fn driver_works_in_batches() {
    let mut paths = RecursivePathDatabase::new();
    let root = paths.for_path(b"/r").unwrap();
    let mut recs = Vec::new();
    for name in [b"/r/a", b"/r/b", b"/r/c", b"/r/d"] {
        let p = paths.for_path(name).unwrap();
        recs.push(hashed(p, root, 40 * MIB, 7, name[3]));
    }
    let mut db = catalog(&paths, recs);
    let mut plan = build_dedupe_map(&[root], 1024, &db);
    assert_eq!(plan, vec![Some(0), Some(0), Some(0), Some(0)]);
    let mut deduper = FileDeduper::new();
    let mut batches = 0;
    let mut actions = Vec::new();
    loop {
        deduper.start_batch();
        for i in 0..db.len() {
            let d = db.get(i);
            if deduper.classify(&[root], 64 * MIB, &plan, i, &d) == Step::Process {
                actions.push(FileDeduper::action(&plan, i).unwrap());
                let nd = deduper.apply(&mut plan, i, &d, true, 3000 + batches);
                db.update(i, nd);
            }
        }
        deduper.finish_batch();
        batches += 1;
        if deduper.num_remaining() == 0 {
            break;
        }
    }
    // 40 MiB files under a 64 MiB budget; the advisory defragment of the
    // canonical file does not count as a dedupe, so the first batch takes two
    assert_eq!(batches, 3);
    assert_eq!(deduper.num_updated(), 3);
    assert_eq!(deduper.num_errors(), 0);
    assert_eq!(
        actions,
        vec![
            DedupeAction::Defragment,
            DedupeAction::ShareFrom(0),
            DedupeAction::ShareFrom(0),
            DedupeAction::ShareFrom(0)
        ]
    );
    assert_eq!(plan, vec![None, None, None, None]);
    assert_eq!(db.get(3).deduplicate_time, 3002);
    assert_eq!(db.get(3).extent_hash, zero_hash());
    assert_eq!(db.get(3).extent_hash_time, 0);
}

#[test]
fn driver_counts_failures_and_consumes_entry() {
    let mut paths = RecursivePathDatabase::new();
    let root = paths.for_path(b"/r").unwrap();
    let a = paths.for_path(b"/r/a").unwrap();
    let b = paths.for_path(b"/r/b").unwrap();
    let db = catalog(
        &paths,
        vec![hashed(a, root, 4096, 1, 1), hashed(b, root, 4096, 1, 2)],
    );
    let mut plan = build_dedupe_map(&[root], 0, &db);
    let mut deduper = FileDeduper::new();
    deduper.start_batch();
    let d = db.get(1);
    assert_eq!(deduper.classify(&[root], MIB, &plan, 1, &d), Step::Process);
    let nd = deduper.apply(&mut plan, 1, &d, false, 10);
    assert_eq!(nd.deduplicate_time, 10);
    assert_eq!(plan[1], None);
    assert_eq!(deduper.classify(&[root], MIB, &plan, 1, &nd), Step::Fresh);
    deduper.finish_batch();
    assert_eq!(deduper.num_errors(), 1);
    assert_eq!(deduper.num_updated(), 0);
    assert_eq!(deduper.num_fresh(), 1);
}

#[test]
fn scanner_merges_walk_with_catalog() {
    let mut paths = RecursivePathDatabase::new();
    let root = paths.for_path(b"/r").unwrap();
    let before = paths.for_path(b"/a/old").unwrap();
    let gone = paths.for_path(b"/r/gone").unwrap();
    let kept = paths.for_path(b"/r/kept").unwrap();
    let changed = paths.for_path(b"/r/x").unwrap();
    let after = paths.for_path(b"/z/tail").unwrap();
    let mut changed_rec = hashed(changed, root, 100, 4, 5);
    changed_rec.defragment_time = 8;
    changed_rec.deduplicate_time = 9;
    let kept_rec = hashed(kept, root, 50, 6, 7);
    let db = catalog(
        &paths,
        vec![
            file(before, None, 1),
            hashed(gone, root, 5, 1, 1),
            kept_rec,
            changed_rec,
            file(after, None, 2),
        ],
    );
    let mut scanner = DirectoryScanner::new(paths, &[root], db).ok().unwrap();
    assert!(!scanner.root_scanned(0));
    scanner.drain_before(root).unwrap();
    assert_eq!(scanner.len(), 1);
    scanner.enter_directory(root);
    assert!(scanner.root_scanned(0));
    let mut names = vec![b"x".to_vec(), b"new".to_vec(), b"kept".to_vec(), b"link".to_vec()];
    sort_entry_names(&mut names);
    assert_eq!(names, vec![b"kept".to_vec(), b"link".to_vec(), b"new".to_vec(), b"x".to_vec()]);
    for name in names.iter() {
        let entry = scanner.child(root, name).unwrap();
        while let Some(stale) = scanner.next_stale(entry) {
            // "/r/gone" no longer exists on disk
            assert_eq!(stale, gone);
            scanner.keep_or_drop(false).unwrap();
        }
        let meta = if name == &b"link".to_vec() {
            EntryMetadata { is_symlink: true, is_file: false, ..meta_file(0, 0) }
        } else if name == &b"x".to_vec() {
            meta_file(200, 11)
        } else if name == &b"kept".to_vec() {
            meta_file(50, 10)
        } else {
            meta_file(30, 12)
        };
        match scanner.classify_entry(entry, &meta, root, 1) {
            EntryAction::File { root: r } => scanner.visit_file(entry, r, &meta).unwrap(),
            EntryAction::Ignore => assert_eq!(name, &b"link".to_vec()),
            EntryAction::Descend { .. } => panic!("no directories here"),
        }
    }
    assert_eq!(scanner.num_scanned(), 4);
    let (paths, out) = scanner.finish().ok().unwrap();
    assert_eq!(out.len(), 5);
    let got: Vec<Vec<u8>> = (0..out.len()).map(|i| paths.to_path(out.get(i).path)).collect();
    assert_eq!(
        got,
        vec![
            b"/a/old".to_vec(),
            b"/r/kept".to_vec(),
            b"/r/new".to_vec(),
            b"/r/x".to_vec(),
            b"/z/tail".to_vec()
        ]
    );
    // unchanged file: kept as it was
    assert_eq!(out.get(1).content_hash, [6; 32]);
    assert_eq!(out.get(1).extent_hash_time, 100);
    // new file: no derived state
    assert_eq!(out.get(2).size, 30);
    assert_eq!(out.get(2).root_path, Some(root));
    assert_eq!(out.get(2).content_hash, zero_hash());
    // changed file: new size and mtime, every derived field cleared
    let x = out.get(3);
    assert_eq!((x.size, x.mtime), (200, 11));
    assert_eq!(x.content_hash, zero_hash());
    assert_eq!(x.content_hash_time, 0);
    assert_eq!(x.extent_hash, zero_hash());
    assert_eq!(x.extent_hash_time, 0);
    assert_eq!(x.defragment_time, 0);
    assert_eq!(x.deduplicate_time, 0);
}

#[test]
fn scanner_ignores_symlinks_and_other_devices() {
    let mut paths = RecursivePathDatabase::new();
    let root = paths.for_path(b"/r").unwrap();
    let nested = paths.for_path(b"/r/n").unwrap();
    let e = paths.for_path(b"/r/e").unwrap();
    let mut scanner = DirectoryScanner::new(paths, &[root, nested], FileDatabase::new()).ok().unwrap();
    let link = EntryMetadata { is_symlink: true, is_file: false, ..meta_file(1, 1) };
    assert_eq!(scanner.classify_entry(e, &link, root, 1), EntryAction::Ignore);
    let foreign = EntryMetadata { dev: 2, ..meta_file(1, 1) };
    assert_eq!(scanner.classify_entry(e, &foreign, root, 1), EntryAction::Ignore);
    let dir = EntryMetadata { is_dir: true, is_file: false, ..meta_file(0, 0) };
    assert_eq!(
        scanner.classify_entry(e, &dir, root, 1),
        EntryAction::Descend { root, dev: 1 }
    );
    // a nested configured root is walked under itself, on its own device
    let nested_dir = EntryMetadata { dev: 3, ..dir };
    assert_eq!(
        scanner.classify_entry(nested, &nested_dir, root, 1),
        EntryAction::Descend { root: nested, dev: 3 }
    );
    scanner.enter_directory(nested);
    assert!(!scanner.root_scanned(0));
    assert!(scanner.root_scanned(1));
}

#[test]
fn unchanged_second_run_does_no_work() {
    let mut paths = RecursivePathDatabase::new();
    let root = paths.for_path(b"/r").unwrap();
    let a = paths.for_path(b"/r/a").unwrap();
    let db = catalog(&paths, vec![hashed(a, root, 4096, 1, 2)]);
    let mut scanner = DirectoryScanner::new(paths, &[root], db).ok().unwrap();
    scanner.drain_before(root).unwrap();
    scanner.enter_directory(root);
    let entry = scanner.child(root, b"a").unwrap();
    assert!(scanner.next_stale(entry).is_none());
    let meta = meta_file(4096, 10);
    scanner.visit_file(entry, root, &meta).unwrap();
    let (_paths, out) = scanner.finish().ok().unwrap();
    let d = out.get(0);
    let mut content = ContentHasher::new(&[root], 1 << 30);
    content.start_batch();
    assert_eq!(content.classify(&d), Step::Fresh);
    let mut extents = ExtentHasher::new(&[root], 1 << 30);
    extents.start_batch();
    assert_eq!(extents.classify(&d), Step::Fresh);
    assert_eq!(build_dedupe_map(&[root], 0, &out), vec![None]);
}

#[test]
fn scanner_rejects_unsorted_entries() {
    let mut paths = RecursivePathDatabase::new();
    let root = paths.for_path(b"/r").unwrap();
    let mut scanner = DirectoryScanner::new(paths, &[root], FileDatabase::new()).ok().unwrap();
    let b = scanner.child(root, b"b").unwrap();
    let a = scanner.child(root, b"a").unwrap();
    let meta = meta_file(1, 1);
    scanner.visit_file(b, root, &meta).unwrap();
    assert!(scanner.visit_file(a, root, &meta).is_err());
    assert!(scanner.child(root, b"bad/name").is_none());
}

#[test]
fn two_identical_files_one_share() {
    let mut paths = RecursivePathDatabase::new();
    let root = paths.for_path(b"/r").unwrap();
    let a = paths.for_path(b"/r/a").unwrap();
    let b = paths.for_path(b"/r/b").unwrap();
    let mut db = catalog(
        &paths,
        vec![hashed(a, root, 4 * MIB, 1, 10), hashed(b, root, 4 * MIB, 1, 11)],
    );
    let mut plan = build_dedupe_map(&[root], 1024, &db);
    let mut deduper = FileDeduper::new();
    deduper.start_batch();
    let mut shares = 0;
    for i in 0..db.len() {
        let d = db.get(i);
        if deduper.classify(&[root], 64 * MIB, &plan, i, &d) == Step::Process {
            if let Some(DedupeAction::ShareFrom(_)) = FileDeduper::action(&plan, i) {
                shares += 1;
            }
            let nd = deduper.apply(&mut plan, i, &d, true, 50);
            db.update(i, nd);
        }
    }
    deduper.finish_batch();
    assert_eq!(shares, 1);
    assert_eq!(deduper.num_updated(), 1);
    assert_eq!(deduper.num_errors(), 0);
    assert_eq!(deduper.num_remaining(), 0);
    assert_eq!(plan, vec![None, None]);
}

#[test]
fn extent_pass_skips_records_without_content_digest() {
    let mut paths = RecursivePathDatabase::new();
    let root = paths.for_path(b"/r").unwrap();
    let a = paths.for_path(b"/r/a").unwrap();
    let d = file(a, Some(root), 10);
    let mut hasher = ExtentHasher::new(&[root], 1000);
    hasher.start_batch();
    assert_eq!(hasher.classify(&d), Step::Fresh);
}

#[test]
fn scanner_rejects_unsorted_inputs() {
    let mut paths = RecursivePathDatabase::new();
    let a = paths.for_path(b"/a").unwrap();
    let b = paths.for_path(b"/b").unwrap();
    assert!(DirectoryScanner::new(paths, &[b, a], FileDatabase::new()).is_err());
    let mut paths = RecursivePathDatabase::new();
    let a = paths.for_path(b"/a").unwrap();
    let b = paths.for_path(b"/b").unwrap();
    let db = catalog(&paths, vec![file(a, None, 1), file(b, None, 2)]);
    assert!(DirectoryScanner::new(paths, &[a, b], db).is_ok());
}
