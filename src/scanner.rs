//! The merge of the previous catalog with a fresh directory walk.
//!
//! The caller walks the directory trees and reports what it sees; the
//! scanner decides, for each entry, whether to ignore it, descend into it or
//! record it, and moves through the previous catalog in step, keeping records
//! of files that still exist and dropping the others.
use crate::catalog::{derived_consistent, lemma_sorted_strictly_ascending, sorted_records, FileData, FileDatabase, FileDatabaseBuilder};
use crate::hash::{absent_hash, is_absent, lemma_absent_hash, zero_hash};
use crate::order::{bytes_cmp, path_lt};
use crate::path::{PathId, RecursivePathDatabase};
use std::cmp::Ordering;
use vstd::prelude::*;

verus! {

/// What the walk saw of one directory entry, without following symlinks.
#[derive(Clone, Copy, Debug)]
pub struct EntryMetadata {
    pub is_symlink: bool,
    pub is_dir: bool,
    pub is_file: bool,
    pub dev: u64,
    pub size: u64,
    pub mtime: i64,
    pub ctime: i64,
    pub mode: u32,
    pub uid: u32,
    pub gid: u32,
}

/// What to do with a directory entry.
#[derive(Clone, Copy, Debug, PartialEq, Eq, Structural)]
pub enum EntryAction {
    /// A symlink, a file on another device, or neither file nor directory.
    Ignore,
    /// A directory: walk it with this root and device.
    Descend { root: PathId, dev: u64 },
    /// A regular file under this root: report it with `visit_file`.
    File { root: PathId },
}

/// The record of a file not seen before.
pub open spec fn new_record(path: PathId, root: PathId, meta: EntryMetadata) -> FileData {
    FileData {
        path,
        root_path: Some(root),
        size: meta.size,
        content_hash: absent_hash(),
        content_hash_time: 0,
        extent_hash: absent_hash(),
        extent_hash_time: 0,
        defragment_time: 0,
        deduplicate_time: 0,
        mtime: meta.mtime,
        ctime: meta.ctime,
        mode: meta.mode,
        uid: meta.uid,
        gid: meta.gid,
    }
}

/// Whether the file changed since the catalog recorded it.
pub open spec fn stat_changed(d: FileData, meta: EntryMetadata) -> bool {
    meta.size != d.size || meta.mtime != d.mtime
}

/// The record of a file seen before: unchanged when its size and mtime are
/// the same, else with the new metadata and every derived field reset.
pub open spec fn revisited(d: FileData, meta: EntryMetadata) -> FileData {
    if stat_changed(d, meta) {
        FileData {
            size: meta.size,
            content_hash: absent_hash(),
            content_hash_time: 0,
            extent_hash: absent_hash(),
            extent_hash_time: 0,
            defragment_time: 0,
            deduplicate_time: 0,
            mtime: meta.mtime,
            ctime: meta.ctime,
            mode: meta.mode,
            uid: meta.uid,
            gid: meta.gid,
            ..d
        }
    } else {
        d
    }
}

/// The action for an entry of a directory walked under `root` on device `dev`;
/// an entry that is itself a configured root walks under itself on its own device.
pub open spec fn entry_action(
    roots: Seq<PathId>,
    entry: PathId,
    meta: EntryMetadata,
    root: PathId,
    dev: u64,
) -> EntryAction {
    let (r, d) = if roots.contains(entry) {
        (entry, meta.dev)
    } else {
        (root, dev)
    };
    if meta.is_symlink || meta.dev != d {
        EntryAction::Ignore
    } else if meta.is_dir {
        EntryAction::Descend { root: r, dev: d }
    } else if meta.is_file {
        EntryAction::File { root: r }
    } else {
        EntryAction::Ignore
    }
}

/// Names sorted by byte order.
pub open spec fn names_sorted(names: Seq<Vec<u8>>) -> bool {
    forall|i: int, j: int|
        0 <= i < j < names.len() ==> bytes_cmp(names[i]@, names[j]@) != Ordering::Greater
}

/// Relies on `slice::sort_unstable`: the names end up in ascending order
/// (the order of `Vec<u8>` is byte-wise lexicographic), and no name is added
/// or lost.
#[verifier::external_body]
fn sort_byte_strings(names: &mut Vec<Vec<u8>>)
    ensures
        final(names)@.to_multiset() == old(names)@.to_multiset(),
        names_sorted(final(names)@),
{
    names.sort_unstable();
}

/// Sorts the names of a directory's entries into the order of the walk.
pub fn sort_entry_names(names: &mut Vec<Vec<u8>>)
    ensures
        final(names)@.to_multiset() == old(names)@.to_multiset(),
        names_sorted(final(names)@),
{
    sort_byte_strings(names);
}

/// Configured roots in strictly ascending path order, the order of the walk.
pub open spec fn roots_ascending(interner: &RecursivePathDatabase, roots: Seq<PathId>) -> bool {
    forall|k: int|
        0 < k < roots.len() ==> path_lt(
            interner.path_of(roots[k - 1]),
            interner.path_of(#[trigger] roots[k]),
        )
}

/// The merge state.
pub struct DirectoryScanner {
    interner: RecursivePathDatabase,
    root_paths: Vec<PathId>,
    roots_scanned: Vec<bool>,
    previous: Vec<FileData>,
    cursor: usize,
    out: FileDatabaseBuilder,
    progress: u64,
}

impl DirectoryScanner {
    pub closed spec fn interner(&self) -> RecursivePathDatabase {
        self.interner
    }

    pub closed spec fn roots(&self) -> Seq<PathId> {
        self.root_paths@
    }

    pub closed spec fn scanned(&self) -> Seq<bool> {
        self.roots_scanned@
    }

    /// The records of the previous catalog.
    pub closed spec fn previous(&self) -> Seq<FileData> {
        self.previous@
    }

    /// How many records of the previous catalog have been consumed.
    pub closed spec fn cursor(&self) -> int {
        self.cursor as int
    }

    /// The records of the new catalog so far.
    pub closed spec fn output(&self) -> Seq<FileData> {
        self.out.view()
    }

    pub closed spec fn progress(&self) -> u64 {
        self.progress
    }

    pub closed spec fn wf(&self) -> bool {
        &&& self.interner.wf()
        &&& self.out.wf(&self.interner)
        &&& self.cursor <= self.previous@.len()
        &&& sorted_records(&self.interner, self.previous@)
        &&& forall|i: int|
            0 <= i < self.root_paths@.len() ==> self.interner.valid(#[trigger] self.root_paths@[i])
        &&& self.roots_scanned@.len() == self.root_paths@.len()
    }

    /// Starts a merge of the records of `previous` with a walk of `root_paths`.
    /// Fails when a handle is not from `interner`, or the roots or the
    /// previous records are not in strictly ascending path order.
    pub fn new(interner: RecursivePathDatabase, root_paths: &[PathId], previous: FileDatabase) -> (r: Result<
        DirectoryScanner,
        String,
    >)
        requires
            interner.wf(),
        ensures
            r is Ok <==> (forall|i: int| 0 <= i < root_paths@.len() ==> interner.valid(
                #[trigger] root_paths@[i],
            )) && roots_ascending(&interner, root_paths@) && sorted_records(
                &interner,
                previous.view(),
            ),
            r matches Ok(s) ==> s.wf() && s.interner() == interner && s.roots() == root_paths@
                && s.previous() == previous.view() && s.cursor() == 0 && s.output()
                == Seq::<FileData>::empty() && s.progress() == 0 && forall|i: int|
                0 <= i < s.scanned().len() ==> !#[trigger] s.scanned()[i],
    {
        let records = previous.into_records();
        let mut roots: Vec<PathId> = Vec::new();
        let mut scanned: Vec<bool> = Vec::new();
        let mut i: usize = 0;
        while i < root_paths.len()
            invariant
                interner.wf(),
                0 <= i <= root_paths@.len(),
                roots@ == root_paths@.subrange(0, i as int),
                scanned@.len() == i,
                forall|k: int| 0 <= k < i ==> !#[trigger] scanned@[k],
                forall|k: int| 0 <= k < i ==> interner.valid(#[trigger] root_paths@[k]),
                forall|k: int|
                    0 < k < i ==> path_lt(
                        interner.path_of(root_paths@[k - 1]),
                        interner.path_of(#[trigger] root_paths@[k]),
                    ),
            decreases root_paths@.len() - i,
        {
            if !interner.contains(root_paths[i]) {
                return Err("Unknown root path".to_owned());
            }
            if i > 0 && !interner.less(root_paths[i - 1], root_paths[i]) {
                return Err("Root paths out of order".to_owned());
            }
            roots.push(root_paths[i]);
            scanned.push(false);
            i = i + 1;
        }
        assert(roots@ =~= root_paths@);
        let mut j: usize = 0;
        while j < records.len()
            invariant
                interner.wf(),
                records@ == previous.view(),
                roots@ == root_paths@,
                roots_ascending(&interner, root_paths@),
                scanned@.len() == root_paths@.len(),
                forall|k: int| 0 <= k < scanned@.len() ==> !#[trigger] scanned@[k],
                forall|k: int| 0 <= k < root_paths@.len() ==> interner.valid(#[trigger] root_paths@[k]),
                0 <= j <= records@.len(),
                forall|k: int| 0 <= k < j ==> interner.valid(#[trigger] records@[k].path),
                forall|k: int|
                    0 < k < j ==> path_lt(
                        interner.path_of(records@[k - 1].path),
                        interner.path_of(#[trigger] records@[k].path),
                    ),
            decreases records@.len() - j,
        {
            if !interner.contains(records[j].path) {
                return Err("Unknown path in database".to_owned());
            }
            if j > 0 && !interner.less(records[j - 1].path, records[j].path) {
                return Err("Database records out of order".to_owned());
            }
            j = j + 1;
        }
        let out = FileDatabaseBuilder::new();
        Ok(
            DirectoryScanner {
                interner,
                root_paths: roots,
                roots_scanned: scanned,
                previous: records,
                cursor: 0,
                out,
                progress: 0,
            },
        )
    }

    /// The interner the merge works with.
    pub fn paths(&self) -> (r: &RecursivePathDatabase)
        requires
            self.wf(),
        ensures
            *r == self.interner(),
            r.wf(),
    {
        &self.interner
    }

    /// Whether the configured root at `index` was already walked as part of another root.
    pub fn root_scanned(&self, index: usize) -> (r: bool)
        requires
            self.wf(),
            index < self.roots().len(),
        ensures
            r == self.scanned()[index as int],
    {
        self.roots_scanned[index]
    }

    /// The child called `name` of the directory `dir`; `None` when `name` is
    /// not a valid name or `dir` is not a handle of this merge.
    pub fn child(&mut self, dir: PathId, name: &[u8]) -> (r: Option<PathId>)
        requires
            old(self).wf(),
        ensures
            final(self).wf(),
            final(self).interner().extends(&old(self).interner()),
            final(self).roots() == old(self).roots(),
            final(self).scanned() == old(self).scanned(),
            final(self).previous() == old(self).previous(),
            final(self).cursor() == old(self).cursor(),
            final(self).output() == old(self).output(),
            final(self).progress() == old(self).progress(),
            old(self).interner().valid(dir) ==> (r is Some <==> crate::path::valid_name(name@)),
            r matches Some(id) ==> final(self).interner().valid(id) && final(self).interner().path_of(id) == old(self).interner().path_of(dir).push(name@),
    {
        if !self.interner.contains(dir) {
            return None;
        }
        let ghost before = self.interner;
        let r = self.interner.join(dir, name);
        proof {
            self.lemma_interner_grew(&before);
        }
        r
    }

    proof fn lemma_interner_grew(&self, before: &RecursivePathDatabase)
        requires
            self.interner.wf(),
            self.interner.extends(before),
            self.out.wf(before),
            sorted_records(before, self.previous@),
            forall|i: int| 0 <= i < self.root_paths@.len() ==> before.valid(#[trigger] self.root_paths@[i]),
            self.cursor <= self.previous@.len(),
            self.roots_scanned@.len() == self.root_paths@.len(),
        ensures
            self.wf(),
    {
        let w = self.previous@;
        assert forall|i: int| 0 <= i < w.len() implies self.interner.valid(#[trigger] w[i].path) by {
            assert(before.valid(w[i].path));
        }
        assert forall|i: int| 0 < i < w.len() implies path_lt(
            self.interner.path_of(w[i - 1].path),
            self.interner.path_of(#[trigger] w[i].path),
        ) by {
            assert(before.valid(w[i].path));
            assert(before.valid(w[i - 1].path));
        }
        assert forall|i: int| 0 <= i < self.root_paths@.len() implies self.interner.valid(
            #[trigger] self.root_paths@[i],
        ) by {
            assert(before.valid(self.root_paths@[i]));
        }
        let v = self.out.view();
        assert forall|i: int| 0 <= i < v.len() implies self.interner.valid(#[trigger] v[i].path) by {
            assert(before.valid(v[i].path));
        }
        assert forall|i: int| 0 < i < v.len() implies path_lt(
            self.interner.path_of(v[i - 1].path),
            self.interner.path_of(#[trigger] v[i].path),
        ) by {
            assert(before.valid(v[i].path));
            assert(before.valid(v[i - 1].path));
        }
    }

    fn push_checked(&mut self, d: FileData) -> (r: Result<(), String>)
        requires
            old(self).wf(),
            old(self).interner.valid(d.path),
        ensures
            final(self).wf(),
            final(self).interner == old(self).interner,
            final(self).root_paths == old(self).root_paths,
            final(self).roots_scanned == old(self).roots_scanned,
            final(self).previous == old(self).previous,
            final(self).cursor == old(self).cursor,
            final(self).progress == old(self).progress,
            r is Ok <==> (old(self).output().len() == 0 || path_lt(
                old(self).interner.path_of(old(self).output().last().path),
                old(self).interner.path_of(d.path),
            )),
            r is Ok ==> final(self).output() == old(self).output().push(d),
            r is Err ==> final(self).output() == old(self).output(),
    {
        if self.out.accepts(&self.interner, d.path) {
            self.out.insert(&self.interner, d);
            Ok(())
        } else {
            Err("Directory entries out of order".to_owned())
        }
    }

    /// Copies into the new catalog, unchanged, every remaining previous record
    /// whose path sorts before `root`.
    pub fn drain_before(&mut self, root: PathId) -> (r: Result<(), String>)
        requires
            old(self).wf(),
            old(self).interner().valid(root),
        ensures
            final(self).wf(),
            final(self).interner() == old(self).interner(),
            final(self).roots() == old(self).roots(),
            final(self).scanned() == old(self).scanned(),
            final(self).previous() == old(self).previous(),
            final(self).progress() == old(self).progress(),
            old(self).cursor() <= final(self).cursor(),
            final(self).output().len() - old(self).output().len() <= final(self).cursor() - old(self).cursor(),
            final(self).output() == old(self).output() + old(self).previous().subrange(
                old(self).cursor(),
                final(self).cursor(),
            ),
            forall|i: int|
                old(self).cursor() <= i < final(self).cursor() ==> path_lt(
                    old(self).interner().path_of(#[trigger] old(self).previous()[i].path),
                    old(self).interner().path_of(root),
                ),
            r is Ok ==> final(self).cursor() == old(self).previous().len() || !path_lt(
                old(self).interner().path_of(old(self).previous()[final(self).cursor()].path),
                old(self).interner().path_of(root),
            ),
            r is Err ==> final(self).cursor() < old(self).previous().len() && path_lt(
                old(self).interner().path_of(old(self).previous()[final(self).cursor()].path),
                old(self).interner().path_of(root),
            ) && final(self).output().len() > 0 && !path_lt(
                old(self).interner().path_of(final(self).output().last().path),
                old(self).interner().path_of(old(self).previous()[final(self).cursor()].path),
            ),
    {
        let ghost start = *self;
        while self.cursor < self.previous.len() && self.interner.less(
            self.previous[self.cursor].path,
            root,
        )
            invariant
                self.wf(),
                start == *old(self),
                self.interner == start.interner,
                self.root_paths == start.root_paths,
                self.roots_scanned == start.roots_scanned,
                self.previous == start.previous,
                self.progress == start.progress,
                self.interner.valid(root),
                start.cursor <= self.cursor,
                self.out.view() == start.out.view() + start.previous@.subrange(
                    start.cursor as int,
                    self.cursor as int,
                ),
                forall|i: int|
                    start.cursor <= i < self.cursor ==> path_lt(
                        start.interner.path_of(#[trigger] start.previous@[i].path),
                        start.interner.path_of(root),
                    ),
            decreases self.previous@.len() - self.cursor,
        {
            let d = self.previous[self.cursor];
            let res = self.push_checked(d);
            if res.is_err() {
                return res;
            }
            self.cursor = self.cursor + 1;
            assert(self.out.view() =~= start.out.view() + start.previous@.subrange(
                start.cursor as int,
                self.cursor as int,
            ));
        }
        Ok(())
    }

    /// The path of the next previous record when it sorts before `entry`:
    /// the caller checks whether that file still exists and reports it with
    /// `keep_or_drop`.
    pub fn next_stale(&self, entry: PathId) -> (r: Option<PathId>)
        requires
            self.wf(),
            self.interner().valid(entry),
        ensures
            r is Some <==> (self.cursor() < self.previous().len() && path_lt(
                self.interner().path_of(self.previous()[self.cursor()].path),
                self.interner().path_of(entry),
            )),
            r matches Some(p) ==> p == self.previous()[self.cursor()].path,
    {
        if self.cursor < self.previous.len() && self.interner.less(
            self.previous[self.cursor].path,
            entry,
        ) {
            Some(self.previous[self.cursor].path)
        } else {
            None
        }
    }

    /// Consumes the next previous record: copied unchanged when its file
    /// still exists, dropped otherwise.
    pub fn keep_or_drop(&mut self, exists: bool) -> (r: Result<(), String>)
        requires
            old(self).wf(),
            old(self).cursor() < old(self).previous().len(),
        ensures
            final(self).wf(),
            final(self).interner() == old(self).interner(),
            final(self).roots() == old(self).roots(),
            final(self).scanned() == old(self).scanned(),
            final(self).previous() == old(self).previous(),
            final(self).progress() == old(self).progress(),
            final(self).cursor() == old(self).cursor() + 1,
            !exists ==> r is Ok && final(self).output() == old(self).output(),
            exists && r is Ok ==> final(self).output() == old(self).output().push(
                old(self).previous()[old(self).cursor()],
            ),
            exists && r is Err ==> final(self).output() == old(self).output(),
            exists ==> (r is Ok <==> (old(self).output().len() == 0 || path_lt(
                old(self).interner().path_of(old(self).output().last().path),
                old(self).interner().path_of(old(self).previous()[old(self).cursor()].path),
            ))),
    {
        let n = self.previous.len();
        let d = self.previous[self.cursor];
        let r = if exists {
            self.push_checked(d)
        } else {
            Ok(())
        };
        self.cursor = self.cursor + 1;
        r
    }

    /// Marks a directory that is a configured root as walked.
    pub fn enter_directory(&mut self, dir: PathId)
        requires
            old(self).wf(),
        ensures
            final(self).wf(),
            final(self).interner() == old(self).interner(),
            final(self).roots() == old(self).roots(),
            final(self).previous() == old(self).previous(),
            final(self).cursor() == old(self).cursor(),
            final(self).output() == old(self).output(),
            final(self).progress() == old(self).progress(),
            final(self).scanned().len() == old(self).scanned().len(),
            forall|i: int|
                0 <= i < old(self).scanned().len() ==> #[trigger] final(self).scanned()[i] == (old(self).scanned()[i] || old(self).roots()[i] == dir),
    {
        let mut k: usize = 0;
        let ghost start = self.roots_scanned@;
        while k < self.root_paths.len()
            invariant
                self.wf(),
                self.interner == old(self).interner,
                self.root_paths == old(self).root_paths,
                self.previous == old(self).previous,
                self.cursor == old(self).cursor,
                self.out == old(self).out,
                self.progress == old(self).progress,
                start == old(self).roots_scanned@,
                self.roots_scanned@.len() == start.len(),
                0 <= k <= self.root_paths@.len(),
                forall|i: int|
                    0 <= i < k ==> #[trigger] self.roots_scanned@[i] == (start[i]
                        || self.root_paths@[i] == dir),
                forall|i: int| k <= i < start.len() ==> #[trigger] self.roots_scanned@[i] == start[i],
            decreases self.root_paths@.len() - k,
        {
            if self.root_paths[k].index == dir.index {
                self.roots_scanned[k] = true;
            }
            k = k + 1;
        }
    }

    fn is_root(&self, p: PathId) -> (r: bool)
        ensures
            r == self.roots().contains(p),
    {
        let mut k: usize = 0;
        while k < self.root_paths.len()
            invariant
                0 <= k <= self.root_paths@.len(),
                forall|i: int| 0 <= i < k ==> #[trigger] self.root_paths@[i] != p,
            decreases self.root_paths@.len() - k,
        {
            if self.root_paths[k].index == p.index {
                assert(self.root_paths@[k as int] == p);
                return true;
            }
            k = k + 1;
        }
        false
    }

    /// Decides what to do with a directory entry met while walking `root` on
    /// device `dev`, and counts it.
    pub fn classify_entry(
        &mut self,
        entry: PathId,
        meta: &EntryMetadata,
        root: PathId,
        dev: u64,
    ) -> (r: EntryAction)
        requires
            old(self).wf(),
        ensures
            final(self).wf(),
            r == entry_action(old(self).roots(), entry, *meta, root, dev),
            final(self).progress() == crate::passes::bump(old(self).progress()),
            final(self).interner() == old(self).interner(),
            final(self).roots() == old(self).roots(),
            final(self).scanned() == old(self).scanned(),
            final(self).previous() == old(self).previous(),
            final(self).cursor() == old(self).cursor(),
            final(self).output() == old(self).output(),
    {
        let (r, d) = if self.is_root(entry) {
            (entry, meta.dev)
        } else {
            (root, dev)
        };
        if self.progress < u64::MAX {
            self.progress = self.progress + 1;
        }
        if meta.is_symlink || meta.dev != d {
            EntryAction::Ignore
        } else if meta.is_dir {
            EntryAction::Descend { root: r, dev: d }
        } else if meta.is_file {
            EntryAction::File { root: r }
        } else {
            EntryAction::Ignore
        }
    }

    /// Records a regular file. When the next previous record has the same
    /// path it is consumed and kept, with its derived state reset if the size
    /// or mtime changed; otherwise a fresh record is made. Fails when the
    /// file does not sort after the last record.
    pub fn visit_file(&mut self, entry: PathId, root: PathId, meta: &EntryMetadata) -> (r: Result<
        (),
        String,
    >)
        requires
            old(self).wf(),
            old(self).interner().valid(entry),
        ensures
            final(self).wf(),
            final(self).interner() == old(self).interner(),
            final(self).roots() == old(self).roots(),
            final(self).scanned() == old(self).scanned(),
            final(self).previous() == old(self).previous(),
            final(self).progress() == old(self).progress(),
            ({
                let c = old(self).cursor();
                let matched = c < old(self).previous().len() && old(self).previous()[c].path
                    == entry;
                let rec = if matched {
                    revisited(old(self).previous()[c], *meta)
                } else {
                    new_record(entry, root, *meta)
                };
                &&& final(self).cursor() == (if matched {
                    c + 1
                } else {
                    c
                })
                &&& r is Ok <==> (old(self).output().len() == 0 || path_lt(
                    old(self).interner().path_of(old(self).output().last().path),
                    old(self).interner().path_of(entry),
                ))
                &&& r is Ok ==> final(self).output() == old(self).output().push(rec)
                &&& r is Err ==> final(self).output() == old(self).output()
            }),
    {
        let matched = self.cursor < self.previous.len() && self.previous[self.cursor].path.index
            == entry.index;
        let rec = if matched {
            let d = self.previous[self.cursor];
            if meta.size != d.size || meta.mtime != d.mtime {
                FileData {
                    size: meta.size,
                    content_hash: zero_hash(),
                    content_hash_time: 0,
                    extent_hash: zero_hash(),
                    extent_hash_time: 0,
                    defragment_time: 0,
                    deduplicate_time: 0,
                    mtime: meta.mtime,
                    ctime: meta.ctime,
                    mode: meta.mode,
                    uid: meta.uid,
                    gid: meta.gid,
                    ..d
                }
            } else {
                d
            }
        } else {
            FileData {
                path: entry,
                root_path: Some(root),
                size: meta.size,
                content_hash: zero_hash(),
                content_hash_time: 0,
                extent_hash: zero_hash(),
                extent_hash_time: 0,
                defragment_time: 0,
                deduplicate_time: 0,
                mtime: meta.mtime,
                ctime: meta.ctime,
                mode: meta.mode,
                uid: meta.uid,
                gid: meta.gid,
            }
        };
        let r = self.push_checked(rec);
        if matched {
            self.cursor = self.cursor + 1;
        }
        r
    }

    /// Copies the remaining previous records, which lie outside every root
    /// walked, and returns the interner and the new catalog.
    #[verifier::rlimit(80)]
    #[verifier::spinoff_prover]
    pub fn finish(self) -> (r: Result<(RecursivePathDatabase, FileDatabase), String>)
        requires
            self.wf(),
        ensures
            r matches Ok((interner, db)) ==> interner == self.interner() && interner.wf() && db.wf(
                &interner,
            ) && db.view() == self.output() + self.previous().subrange(
                self.cursor(),
                self.previous().len() as int,
            ),
            r is Ok <==> sorted_records(
                &self.interner(),
                self.output() + self.previous().subrange(self.cursor(), self.previous().len() as int),
            ),
    {
        let mut s = self;
        let ghost start = s;
        while s.cursor < s.previous.len()
            invariant
                s.wf(),
                start == self,
                s.interner == start.interner,
                s.previous == start.previous,
                start.cursor <= s.cursor,
                s.out.view() == start.out.view() + start.previous@.subrange(
                    start.cursor as int,
                    s.cursor as int,
                ),
            decreases s.previous@.len() - s.cursor,
        {
            let d = s.previous[s.cursor];
            let res = s.push_checked(d);
            if res.is_err() {
                proof {
                    lemma_unsorted_tail(
                        &start.interner,
                        start.out.view(),
                        start.previous@,
                        start.cursor as int,
                        s.cursor as int,
                    );
                }
                return Err("Database records out of order".to_owned());
            }
            s.cursor = s.cursor + 1;
            assert(s.out.view() =~= start.out.view() + start.previous@.subrange(
                start.cursor as int,
                s.cursor as int,
            ));
        }
        let interner = s.interner;
        let db = s.out.build();
        Ok((interner, db))
    }

    /// When the walk reaches `entry` and no previous record sorts before it
    /// any more, a previous record for `entry` that is not yet consumed is
    /// the next one, so `visit_file` revisits it: it is kept, or its derived
    /// state is cleared when the file changed.
    pub proof fn lemma_visit_meets_record(&self, entry: PathId, index: int)
        requires
            self.wf(),
            self.interner().valid(entry),
            self.cursor() <= index < self.previous().len(),
            self.previous()[index].path == entry,
            !path_lt(
                self.interner().path_of(self.previous()[self.cursor()].path),
                self.interner().path_of(entry),
            ),
        ensures
            index == self.cursor(),
    {
        if index > self.cursor() {
            lemma_sorted_strictly_ascending(&self.interner, self.previous@, self.cursor(), index);
        }
    }

    /// Entries met so far.
    pub fn num_scanned(&self) -> (r: u64)
        ensures
            r == self.progress(),
    {
        self.progress
    }

    /// Records in the new catalog so far.
    pub fn len(&self) -> (r: usize)
        requires
            self.wf(),
        ensures
            r == self.output().len(),
    {
        self.out.len()
    }
}

proof fn lemma_unsorted_tail(
    interner: &RecursivePathDatabase,
    out: Seq<FileData>,
    prev: Seq<FileData>,
    c0: int,
    c: int,
)
    requires
        0 <= c0 <= c < prev.len(),
        out.len() + (c - c0) > 0,
        !path_lt(
            interner.path_of((out + prev.subrange(c0, c)).last().path),
            interner.path_of(prev[c].path),
        ),
    ensures
        !sorted_records(interner, out + prev.subrange(c0, prev.len() as int)),
{
    let full = out + prev.subrange(c0, prev.len() as int);
    let done = out + prev.subrange(c0, c);
    let k = done.len() as int;
    assert(full[k] == prev[c]);
    assert(full[k - 1] == done[k - 1]);
    assert(done.last() == done[k - 1]);
    if sorted_records(interner, full) {
        assert(path_lt(interner.path_of(full[k - 1].path), interner.path_of(full[k].path)));
    }
}

/// A file whose size or mtime changed has every derived field cleared.
pub proof fn lemma_changed_file_cleared(d: FileData, meta: EntryMetadata)
    requires
        stat_changed(d, meta),
    ensures
        is_absent(revisited(d, meta).content_hash),
        revisited(d, meta).content_hash_time == 0,
        is_absent(revisited(d, meta).extent_hash),
        revisited(d, meta).extent_hash_time == 0,
        revisited(d, meta).defragment_time == 0,
        revisited(d, meta).deduplicate_time == 0,
        revisited(d, meta).size == meta.size,
        revisited(d, meta).mtime == meta.mtime,
{
    lemma_absent_hash(absent_hash());
}

/// The scanner keeps derived state consistent: new records have none, and a
/// revisited record either keeps its state or loses all of it.
pub proof fn lemma_scan_records_consistent(d: FileData, path: PathId, root: PathId, meta: EntryMetadata)
    ensures
        derived_consistent(new_record(path, root, meta)),
        derived_consistent(d) ==> derived_consistent(revisited(d, meta)),
{
    lemma_absent_hash(absent_hash());
}

/// An unchanged file keeps its record exactly, so a second walk of an
/// unchanged tree leaves nothing new to hash.
pub proof fn lemma_unchanged_file_kept(d: FileData, meta: EntryMetadata)
    requires
        !stat_changed(d, meta),
    ensures
        revisited(d, meta) == d,
{
}

/// Symlinks and entries on another device than their root are never recorded.
pub proof fn lemma_symlinks_and_other_devices_ignored(
    roots: Seq<PathId>,
    entry: PathId,
    meta: EntryMetadata,
    root: PathId,
    dev: u64,
)
    requires
        meta.is_symlink || (!roots.contains(entry) && meta.dev != dev),
    ensures
        entry_action(roots, entry, meta, root, dev) == EntryAction::Ignore,
{
}

} // verus!
