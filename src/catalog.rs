//! The catalog: per-file records sorted by path, the builder that keeps them
//! sorted, the lookup of each file's configured root, and the conversion to
//! and from the flat records of the persistent form.
use crate::hash::{
    decode_hash, encode_hash, hash_is_absent, hex_bytes_of, hex_of, is_absent, lemma_hex_round_trip,
    text_bytes, unhex, all_hex_bytes, Hash256,
};
use crate::order::{lemma_path_lt_trans, path_lt};
use crate::path::{path_bytes, path_components, PathId, RecursivePathDatabase};
use vstd::prelude::*;

verus! {

/// What the catalog knows of one regular file.
#[derive(Clone, Copy, Debug)]
pub struct FileData {
    pub path: PathId,
    pub root_path: Option<PathId>,
    pub size: u64,
    pub content_hash: Hash256,
    pub content_hash_time: i64,
    pub extent_hash: Hash256,
    pub extent_hash_time: i64,
    pub defragment_time: i64,
    pub deduplicate_time: i64,
    pub mtime: i64,
    pub ctime: i64,
    pub mode: u32,
    pub uid: u32,
    pub gid: u32,
}

/// One record of the persistent form: optional fields are `None` where the
/// record holds the sentinel (absent digest, zero time).
pub struct FileDataRecord {
    pub path: Vec<u8>,
    pub size: u64,
    pub content_hash: Option<String>,
    pub content_hash_time: Option<i64>,
    pub extent_hash: Option<String>,
    pub extent_hash_time: Option<i64>,
    pub defragment_time: Option<i64>,
    pub deduplicate_time: Option<i64>,
    pub mtime: i64,
    pub ctime: i64,
    pub mode: u32,
    pub uid: u32,
    pub gid: u32,
}

/// Derived state never outlives its basis: without a content digest there is
/// no extent digest and no defragment or dedupe time, and without an extent
/// digest there is no defragment or dedupe time.
pub open spec fn derived_consistent(d: FileData) -> bool {
    &&& is_absent(d.content_hash) ==> is_absent(d.extent_hash) && d.defragment_time == 0
        && d.deduplicate_time == 0
    &&& is_absent(d.extent_hash) ==> d.defragment_time == 0 && d.deduplicate_time == 0
}

/// Two records agree in every field, digests compared byte for byte.
pub open spec fn same_record(a: FileData, b: FileData) -> bool {
    &&& a.path == b.path
    &&& a.root_path == b.root_path
    &&& a.size == b.size
    &&& a.content_hash@ == b.content_hash@
    &&& a.content_hash_time == b.content_hash_time
    &&& a.extent_hash@ == b.extent_hash@
    &&& a.extent_hash_time == b.extent_hash_time
    &&& a.defragment_time == b.defragment_time
    &&& a.deduplicate_time == b.deduplicate_time
    &&& a.mtime == b.mtime
    &&& a.ctime == b.ctime
    &&& a.mode == b.mode
    &&& a.uid == b.uid
    &&& a.gid == b.gid
}

/// Records with valid paths in strictly ascending path order.
pub open spec fn sorted_records(interner: &RecursivePathDatabase, recs: Seq<FileData>) -> bool {
    &&& forall|i: int| 0 <= i < recs.len() ==> interner.valid(#[trigger] recs[i].path)
    &&& forall|i: int|
        0 < i < recs.len() ==> path_lt(
            interner.path_of(recs[i - 1].path),
            interner.path_of(#[trigger] recs[i].path),
        )
}

/// `a` is `b` or one of its ancestors.
pub open spec fn is_prefix(a: Seq<Seq<u8>>, b: Seq<Seq<u8>>) -> bool {
    a.len() <= b.len() && b.subrange(0, a.len() as int) == a
}

/// `r` is a configured root that contains `p`.
pub open spec fn root_contains(
    interner: &RecursivePathDatabase,
    roots: Seq<PathId>,
    r: PathId,
    p: PathId,
) -> bool {
    roots.contains(r) && is_prefix(interner.path_of(r), interner.path_of(p))
}

/// The deepest configured root that contains `p`, if any.
pub open spec fn is_nearest_root(
    interner: &RecursivePathDatabase,
    roots: Seq<PathId>,
    p: PathId,
    r: Option<PathId>,
) -> bool {
    match r {
        Some(x) => root_contains(interner, roots, x, p) && forall|y: PathId|
            #[trigger] root_contains(interner, roots, y, p) ==> interner.path_of(y).len()
                <= interner.path_of(x).len(),
        None => forall|y: PathId| !(#[trigger] root_contains(interner, roots, y, p)),
    }
}

/// Whether a configured root set holds `r`.
pub open spec fn in_roots(roots: Seq<PathId>, r: Option<PathId>) -> bool {
    r matches Some(x) && roots.contains(x)
}

pub open spec fn time_field(t: i64) -> Option<i64> {
    if t == 0 {
        None
    } else {
        Some(t)
    }
}

pub open spec fn hash_field_matches(h: Hash256, f: Option<String>) -> bool {
    if is_absent(h) {
        f is None
    } else {
        f matches Some(s) && s@ == hex_of(h@)
    }
}

/// `r` is the persistent form of `d`.
pub open spec fn record_of(interner: &RecursivePathDatabase, d: FileData, r: FileDataRecord) -> bool {
    &&& r.path@ == path_bytes(interner.path_of(d.path))
    &&& r.size == d.size
    &&& hash_field_matches(d.content_hash, r.content_hash)
    &&& r.content_hash_time == time_field(d.content_hash_time)
    &&& hash_field_matches(d.extent_hash, r.extent_hash)
    &&& r.extent_hash_time == time_field(d.extent_hash_time)
    &&& r.defragment_time == time_field(d.defragment_time)
    &&& r.deduplicate_time == time_field(d.deduplicate_time)
    &&& r.mtime == d.mtime
    &&& r.ctime == d.ctime
    &&& r.mode == d.mode
    &&& r.uid == d.uid
    &&& r.gid == d.gid
}

pub open spec fn hash_text_ok(f: Option<String>) -> bool {
    f matches Some(s) ==> text_bytes(s@).len() == 64 && all_hex_bytes(text_bytes(s@))
}

pub open spec fn hash_decoded(f: Option<String>, h: Hash256) -> bool {
    match f {
        None => is_absent(h),
        Some(s) => h@ == unhex(text_bytes(s@)),
    }
}

pub open spec fn opt_time(t: Option<i64>) -> i64 {
    match t {
        Some(v) => v,
        None => 0,
    }
}

/// A persistent record that can be read: an absolute path and well-formed digests.
pub open spec fn record_readable(r: FileDataRecord) -> bool {
    &&& r.path@.len() > 0 && r.path@[0] == 47u8
    &&& hash_text_ok(r.content_hash)
    &&& hash_text_ok(r.extent_hash)
}

/// `d` is what reading `r` gives, with its root looked up among `roots`.
pub open spec fn record_read(
    interner: &RecursivePathDatabase,
    roots: Seq<PathId>,
    r: FileDataRecord,
    d: FileData,
) -> bool {
    &&& interner.valid(d.path)
    &&& interner.path_of(d.path) == path_components(r.path@)
    &&& is_nearest_root(interner, roots, d.path, d.root_path)
    &&& d.size == r.size
    &&& hash_decoded(r.content_hash, d.content_hash)
    &&& d.content_hash_time == opt_time(r.content_hash_time)
    &&& hash_decoded(r.extent_hash, d.extent_hash)
    &&& d.extent_hash_time == opt_time(r.extent_hash_time)
    &&& d.defragment_time == opt_time(r.defragment_time)
    &&& d.deduplicate_time == opt_time(r.deduplicate_time)
    &&& d.mtime == r.mtime
    &&& d.ctime == r.ctime
    &&& d.mode == r.mode
    &&& d.uid == r.uid
    &&& d.gid == r.gid
}

/// Why the persistent form could not be read.
#[derive(Debug)]
pub enum ReadError {
    /// A root handle that is not from the interner.
    UnknownRoot,
    /// The first record that cannot be read: at position `index`, with the reason.
    Record { index: usize, reason: String },
}

/// The record at `index` is the first one that cannot be read: those before
/// it are readable and ascending, and it is unreadable or does not sort after
/// the one before it.
pub open spec fn first_bad_record(records: Seq<FileDataRecord>, index: int) -> bool {
    &&& 0 <= index < records.len()
    &&& forall|k: int| 0 <= k < index ==> record_readable(#[trigger] records[k])
    &&& forall|k: int|
        0 < k < index ==> path_lt(
            path_components(records[k - 1].path@),
            path_components(#[trigger] records[k].path@),
        )
    &&& !record_readable(records[index]) || (index > 0 && !path_lt(
        path_components(records[index - 1].path@),
        path_components(records[index].path@),
    ))
}

/// Persistent records in strictly ascending path order.
pub open spec fn records_ascending(recs: Seq<FileDataRecord>) -> bool {
    forall|i: int|
        0 < i < recs.len() ==> path_lt(
            path_components(recs[i - 1].path@),
            path_components(#[trigger] recs[i].path@),
        )
}

/// The deepest configured root that contains `p`.
pub fn find_root(interner: &RecursivePathDatabase, roots: &[PathId], p: PathId) -> (r: Option<PathId>)
    requires
        interner.wf(),
        interner.valid(p),
        forall|i: int| 0 <= i < roots@.len() ==> interner.valid(#[trigger] roots@[i]),
    ensures
        is_nearest_root(interner, roots@, p, r),
{
    let mut cur = p;
    let ghost full = interner.path_of(p);
    proof {
        assert(full.subrange(0, full.len() as int) =~= full);
    }
    loop
        invariant
            interner.wf(),
            interner.valid(p),
            interner.valid(cur),
            full == interner.path_of(p),
            forall|i: int| 0 <= i < roots@.len() ==> interner.valid(#[trigger] roots@[i]),
            is_prefix(interner.path_of(cur), full),
            forall|y: PathId|
                #[trigger] root_contains(interner, roots@, y, p) ==> interner.path_of(y).len()
                    <= interner.path_of(cur).len(),
        decreases interner.path_of(cur).len(),
    {
        let mut k: usize = 0;
        while k < roots.len()
            invariant
                interner.wf(),
                interner.valid(cur),
                forall|i: int| 0 <= i < roots@.len() ==> interner.valid(#[trigger] roots@[i]),
                0 <= k <= roots@.len(),
                forall|i: int| 0 <= i < k ==> #[trigger] roots@[i] != cur,
                full == interner.path_of(p),
                is_prefix(interner.path_of(cur), full),
                forall|y: PathId|
                    #[trigger] root_contains(interner, roots@, y, p) ==> interner.path_of(y).len()
                        <= interner.path_of(cur).len(),
            decreases roots@.len() - k,
        {
            if roots[k].index == cur.index {
                assert(roots@.contains(cur)) by {
                    assert(roots@[k as int] == cur);
                }
                return Some(cur);
            }
            k = k + 1;
        }
        assert(!roots@.contains(cur));
        assert forall|y: PathId| #[trigger] root_contains(interner, roots@, y, p) implies interner.path_of(
            y,
        ).len() < interner.path_of(cur).len() by {
            if interner.path_of(y).len() == interner.path_of(cur).len() {
                let n = interner.path_of(y).len() as int;
                assert(interner.path_of(y) == full.subrange(0, n));
                assert(interner.path_of(cur) == full.subrange(0, n));
                let w = choose|w: int| 0 <= w < roots@.len() && roots@[w] == y;
                assert(interner.valid(roots@[w]));
                interner.lemma_handles_unique(y, cur);
            }
        }
        match interner.parent_of(cur) {
            None => {
                return None;
            },
            Some(parent) => {
                proof {
                    let pc = interner.path_of(cur);
                    assert(full.subrange(0, pc.len() - 1) =~= pc.drop_last());
                }
                cur = parent;
            },
        }
    }
}

/// Reads the time field of the persistent form.
fn time_or_zero(t: Option<i64>) -> (r: i64)
    ensures
        r == opt_time(t),
{
    match t {
        Some(v) => v,
        None => 0,
    }
}

fn time_option(t: i64) -> (r: Option<i64>)
    ensures
        r == time_field(t),
{
    if t == 0 {
        None
    } else {
        Some(t)
    }
}

fn hash_option(h: &Hash256) -> (r: Option<String>)
    ensures
        hash_field_matches(*h, r),
{
    if hash_is_absent(h) {
        None
    } else {
        Some(encode_hash(h))
    }
}

/// A catalog under construction; records must arrive in strictly ascending path order.
pub struct FileDatabaseBuilder {
    records: Vec<FileData>,
}

/// The catalog: records in strictly ascending path order.
pub struct FileDatabase {
    records: Vec<FileData>,
}

impl FileDatabaseBuilder {
    pub closed spec fn view(&self) -> Seq<FileData> {
        self.records@
    }

    pub open spec fn wf(&self, interner: &RecursivePathDatabase) -> bool {
        sorted_records(interner, self.view())
    }

    /// An empty builder.
    pub fn new() -> (r: FileDatabaseBuilder)
        ensures
            r.view() == Seq::<FileData>::empty(),
    {
        FileDatabaseBuilder { records: Vec::new() }
    }

    /// Whether a record with this path may come next.
    pub fn accepts(&self, interner: &RecursivePathDatabase, path: PathId) -> (r: bool)
        requires
            interner.wf(),
            self.wf(interner),
            interner.valid(path),
        ensures
            r == (self.view().len() == 0 || path_lt(
                interner.path_of(self.view().last().path),
                interner.path_of(path),
            )),
    {
        if self.records.len() == 0 {
            true
        } else {
            let last = self.records[self.records.len() - 1].path;
            interner.less(last, path)
        }
    }

    /// Appends a record whose path sorts after every path already held.
    pub fn insert(&mut self, interner: &RecursivePathDatabase, file_data: FileData)
        requires
            interner.wf(),
            old(self).wf(interner),
            interner.valid(file_data.path),
            old(self).view().len() > 0 ==> path_lt(
                interner.path_of(old(self).view().last().path),
                interner.path_of(file_data.path),
            ),
        ensures
            final(self).view() == old(self).view().push(file_data),
            final(self).wf(interner),
    {
        self.records.push(file_data);
    }

    /// Number of records inserted so far.
    pub fn len(&self) -> (r: usize)
        ensures
            r == self.view().len(),
    {
        self.records.len()
    }

    /// Freezes the builder into a catalog.
    pub fn build(self) -> (r: FileDatabase)
        ensures
            r.view() == self.view(),
    {
        FileDatabase { records: self.records }
    }
}

impl FileDatabase {
    pub closed spec fn view(&self) -> Seq<FileData> {
        self.records@
    }

    pub open spec fn wf(&self, interner: &RecursivePathDatabase) -> bool {
        sorted_records(interner, self.view())
    }

    /// An empty catalog.
    pub fn new() -> (r: FileDatabase)
        ensures
            r.view() == Seq::<FileData>::empty(),
    {
        FileDatabase { records: Vec::new() }
    }

    /// Number of records.
    pub fn len(&self) -> (r: usize)
        ensures
            r == self.view().len(),
    {
        self.records.len()
    }

    /// The record at a position.
    pub fn get(&self, index: usize) -> (r: FileData)
        requires
            index < self.view().len(),
        ensures
            r == self.view()[index as int],
    {
        self.records[index]
    }

    /// Replaces the record at a position by one with the same path.
    pub fn update(&mut self, index: usize, file_data: FileData)
        requires
            index < old(self).view().len(),
            file_data.path == old(self).view()[index as int].path,
        ensures
            final(self).view() == old(self).view().update(index as int, file_data),
            forall|interner: &RecursivePathDatabase| old(self).wf(interner) ==> #[trigger] final(self).wf(interner),
    {
        self.records[index] = file_data;
        proof {
            assert forall|interner: &RecursivePathDatabase| old(self).wf(interner) implies #[trigger] self.wf(
                interner,
            ) by {
                assert forall|i: int| 0 <= i < self.view().len() implies interner.valid(
                    #[trigger] self.view()[i].path,
                ) by {
                    assert(self.view()[i].path == old(self).view()[i].path);
                }
                assert forall|i: int| 0 < i < self.view().len() implies path_lt(
                    interner.path_of(self.view()[i - 1].path),
                    interner.path_of(#[trigger] self.view()[i].path),
                ) by {
                    assert(self.view()[i].path == old(self).view()[i].path);
                    assert(self.view()[i - 1].path == old(self).view()[i - 1].path);
                }
            }
        }
    }

    /// The records, in order, for a merge that consumes them.
    pub fn into_records(self) -> (r: Vec<FileData>)
        ensures
            r@ == self.view(),
    {
        self.records
    }

    /// A sorted catalog stays sorted when the interner grows.
    pub proof fn lemma_wf_extends(&self, old_interner: &RecursivePathDatabase, interner: &RecursivePathDatabase)
        requires
            self.wf(old_interner),
            interner.extends(old_interner),
        ensures
            self.wf(interner),
    {
        assert forall|i: int| 0 <= i < self.view().len() implies interner.valid(
            #[trigger] self.view()[i].path,
        ) by {
            assert(old_interner.valid(self.view()[i].path));
        }
        assert forall|i: int| 0 < i < self.view().len() implies path_lt(
            interner.path_of(self.view()[i - 1].path),
            interner.path_of(#[trigger] self.view()[i].path),
        ) by {
            assert(old_interner.valid(self.view()[i].path));
            assert(old_interner.valid(self.view()[i - 1].path));
        }
    }

    /// The persistent form of one record.
    pub fn to_record(interner: &RecursivePathDatabase, d: &FileData) -> (r: FileDataRecord)
        requires
            interner.wf(),
            interner.valid(d.path),
        ensures
            record_of(interner, *d, r),
    {
        FileDataRecord {
            path: interner.to_path(d.path),
            size: d.size,
            content_hash: hash_option(&d.content_hash),
            content_hash_time: time_option(d.content_hash_time),
            extent_hash: hash_option(&d.extent_hash),
            extent_hash_time: time_option(d.extent_hash_time),
            defragment_time: time_option(d.defragment_time),
            deduplicate_time: time_option(d.deduplicate_time),
            mtime: d.mtime,
            ctime: d.ctime,
            mode: d.mode,
            uid: d.uid,
            gid: d.gid,
        }
    }

    /// The persistent form of the catalog, in catalog order; sentinel fields
    /// are omitted. Fails when a path handle is not from `interner`.
    pub fn write(&self, interner: &RecursivePathDatabase) -> (r: Result<Vec<FileDataRecord>, String>)
        requires
            interner.wf(),
        ensures
            r is Ok <==> forall|i: int| 0 <= i < self.view().len() ==> interner.valid(
                #[trigger] self.view()[i].path,
            ),
            r matches Ok(out) ==> out@.len() == self.view().len() && forall|i: int|
                0 <= i < out@.len() ==> record_of(interner, self.view()[i], #[trigger] out@[i]),
    {
        let mut out: Vec<FileDataRecord> = Vec::new();
        let mut i: usize = 0;
        while i < self.records.len()
            invariant
                interner.wf(),
                0 <= i <= self.view().len(),
                out@.len() == i,
                forall|j: int| 0 <= j < i ==> interner.valid(#[trigger] self.view()[j].path),
                forall|j: int| 0 <= j < i ==> record_of(interner, self.view()[j], #[trigger] out@[j]),
            decreases self.view().len() - i,
        {
            if !interner.contains(self.records[i].path) {
                return Err("Unknown path in database".to_owned());
            }
            let rec = FileDatabase::to_record(interner, &self.records[i]);
            out.push(rec);
            i = i + 1;
        }
        Ok(out)
    }

    /// Reads the persistent form: interns each path and looks up its root,
    /// remembering the root found for every ancestor visited on the way.
    /// Fails on the first record with a relative path, a malformed digest,
    /// or a path that does not sort after the one before.
    pub fn read(
        interner: &mut RecursivePathDatabase,
        roots: &[PathId],
        records: &Vec<FileDataRecord>,
    ) -> (r: Result<FileDatabase, ReadError>)
        requires
            old(interner).wf(),
        ensures
            final(interner).wf(),
            r matches Err(ReadError::UnknownRoot) ==> !forall|i: int|
                0 <= i < roots@.len() ==> old(interner).valid(#[trigger] roots@[i]),
            r matches Err(ReadError::Record { index, reason }) ==> (forall|i: int|
                0 <= i < roots@.len() ==> old(interner).valid(#[trigger] roots@[i]))
                && first_bad_record(records@, index as int),
            final(interner).extends(old(interner)),
            r is Ok <==> (forall|i: int| 0 <= i < roots@.len() ==> old(interner).valid(
                #[trigger] roots@[i],
            )) && (forall|i: int| 0 <= i < records@.len() ==> record_readable(
                #[trigger] records@[i],
            )) && records_ascending(records@),
            r matches Ok(db) ==> db.wf(final(interner)) && db.view().len() == records@.len()
                && forall|i: int|
                0 <= i < records@.len() ==> record_read(
                    final(interner),
                    roots@,
                    #[trigger] records@[i],
                    db.view()[i],
                ),
    {
        let ghost start = *interner;
        assert(interner.extends(&start));
        let mut k: usize = 0;
        while k < roots.len()
            invariant
                interner.wf(),
                0 <= k <= roots@.len(),
                forall|j: int| 0 <= j < k ==> interner.valid(#[trigger] roots@[j]),
            decreases roots@.len() - k,
        {
            if !interner.contains(roots[k]) {
                assert(!interner.valid(roots@[k as int]));
                return Err(ReadError::UnknownRoot);
            }
            k = k + 1;
        }
        let mut root_map = RootMap::new(interner, roots);
        let mut builder = FileDatabaseBuilder::new();
        let mut i: usize = 0;
        while i < records.len()
            invariant
                interner.wf(),
                root_map.holds(interner, roots@),
                start == *old(interner),
                interner.extends(&start),
                forall|k: int| 0 <= k < roots@.len() ==> start.valid(#[trigger] roots@[k]),
                forall|k: int| 0 <= k < roots@.len() ==> interner.valid(#[trigger] roots@[k]),
                0 <= i <= records@.len(),
                builder.wf(interner),
                builder.view().len() == i,
                forall|k: int| 0 <= k < i ==> record_readable(#[trigger] records@[k]),
                forall|k: int|
                    0 < k < i ==> path_lt(
                        path_components(records@[k - 1].path@),
                        path_components(#[trigger] records@[k].path@),
                    ),
                forall|k: int|
                    0 <= k < i ==> record_read(
                        interner,
                        roots@,
                        #[trigger] records@[k],
                        builder.view()[k],
                    ),
            decreases records@.len() - i,
        {
            let rec = &records[i];
            let ghost before = *interner;
            let interned = interner.for_path(rec.path.as_slice());
            proof {
                lemma_extends_trans(&start, &before, interner);
                root_map.lemma_holds_extends(&before, interner, roots@);
            }
            let path = match interned {
                Some(p) => p,
                None => {
                    return Err(
                        ReadError::Record { index: i, reason: "Relative path in database".to_owned() },
                    );
                },
            };
            proof {
                lemma_builder_extends(&builder, &before, interner);
                lemma_reads_extend(records@, builder.view(), roots@, &before, interner, i as int);
            }
            if !builder.accepts(interner, path) {
                proof {
                    if i > 0 {
                        assert(record_read(interner, roots@, records@[i - 1], builder.view()[i - 1]));
                        assert(builder.view().last() == builder.view()[i - 1]);
                    }
                    assert forall|k: int| 0 < k < records@.len() implies path_lt(
                        path_components(records@[k - 1].path@),
                        path_components(#[trigger] records@[k].path@),
                    ) ==> k != i by {}
                }
                return Err(
                    ReadError::Record { index: i, reason: "Database records out of order".to_owned() },
                );
            }
            let content_hash = match decode_hash(&rec.content_hash) {
                Ok(h) => h,
                Err(e) => {
                    return Err(ReadError::Record { index: i, reason: e });
                },
            };
            let extent_hash = match decode_hash(&rec.extent_hash) {
                Ok(h) => h,
                Err(e) => {
                    return Err(ReadError::Record { index: i, reason: e });
                },
            };
            let root_path = root_map.find_root(interner, roots, path);
            let file_data = FileData {
                path,
                root_path,
                size: rec.size,
                content_hash,
                content_hash_time: time_or_zero(rec.content_hash_time),
                extent_hash,
                extent_hash_time: time_or_zero(rec.extent_hash_time),
                defragment_time: time_or_zero(rec.defragment_time),
                deduplicate_time: time_or_zero(rec.deduplicate_time),
                mtime: rec.mtime,
                ctime: rec.ctime,
                mode: rec.mode,
                uid: rec.uid,
                gid: rec.gid,
            };
            proof {
                if i > 0 {
                    assert(record_read(interner, roots@, records@[i - 1], builder.view()[i - 1]));
                    assert(builder.view().last() == builder.view()[i - 1]);
                }
            }
            builder.insert(interner, file_data);
            i = i + 1;
        }
        Ok(builder.build())
    }
}

proof fn lemma_extends_trans(a: &RecursivePathDatabase, b: &RecursivePathDatabase, c: &RecursivePathDatabase)
    requires
        b.extends(a),
        c.extends(b),
    ensures
        c.extends(a),
{
    assert forall|id: PathId| #[trigger] a.valid(id) implies c.valid(id) && c.path_of(id)
        == a.path_of(id) by {
        assert(b.valid(id));
    }
}

proof fn lemma_builder_extends(
    builder: &FileDatabaseBuilder,
    old_interner: &RecursivePathDatabase,
    interner: &RecursivePathDatabase,
)
    requires
        builder.wf(old_interner),
        interner.extends(old_interner),
    ensures
        builder.wf(interner),
{
    assert forall|i: int| 0 <= i < builder.view().len() implies interner.valid(
        #[trigger] builder.view()[i].path,
    ) by {
        assert(old_interner.valid(builder.view()[i].path));
    }
    assert forall|i: int| 0 < i < builder.view().len() implies path_lt(
        interner.path_of(builder.view()[i - 1].path),
        interner.path_of(#[trigger] builder.view()[i].path),
    ) by {
        assert(old_interner.valid(builder.view()[i].path));
        assert(old_interner.valid(builder.view()[i - 1].path));
    }
}

proof fn lemma_reads_extend(
    records: Seq<FileDataRecord>,
    read: Seq<FileData>,
    roots: Seq<PathId>,
    old_interner: &RecursivePathDatabase,
    interner: &RecursivePathDatabase,
    n: int,
)
    requires
        interner.extends(old_interner),
        0 <= n <= records.len(),
        n <= read.len(),
        forall|k: int| 0 <= k < n ==> record_read(old_interner, roots, #[trigger] records[k], read[k]),
        forall|k: int| 0 <= k < roots.len() ==> old_interner.valid(#[trigger] roots[k]),
    ensures
        forall|k: int| 0 <= k < n ==> record_read(interner, roots, #[trigger] records[k], read[k]),
{
    assert forall|k: int| 0 <= k < n implies record_read(
        interner,
        roots,
        #[trigger] records[k],
        read[k],
    ) by {
        let d = read[k];
        assert(record_read(old_interner, roots, records[k], d));
        assert(old_interner.valid(d.path));
        assert forall|y: PathId| #[trigger]
            root_contains(interner, roots, y, d.path) <==> root_contains(
                old_interner,
                roots,
                y,
                d.path,
            ) by {
            if roots.contains(y) {
                let w = choose|w: int| 0 <= w < roots.len() && roots[w] == y;
                assert(old_interner.valid(roots[w]));
            }
        }
        match d.root_path {
            Some(x) => {
                assert(root_contains(old_interner, roots, x, d.path));
            },
            None => {},
        }
    }
}

} // verus!

verus! {

/// Whether a record's root is one of the configured roots.
pub fn root_in_set(roots: &[PathId], r: Option<PathId>) -> (b: bool)
    ensures
        b == in_roots(roots@, r),
{
    match r {
        None => false,
        Some(x) => {
            let mut k: usize = 0;
            while k < roots.len()
                invariant
                    0 <= k <= roots@.len(),
                    r == Some(x),
                    forall|i: int| 0 <= i < k ==> #[trigger] roots@[i] != x,
                decreases roots@.len() - k,
            {
                if roots[k].index == x.index {
                    assert(roots@[k as int] == x);
                    assert(roots@.contains(x));
                    return true;
                }
                k = k + 1;
            }
            false
        },
    }
}

} // verus!

verus! {

proof fn lemma_hash_field_round_trip(h: Hash256, f: Option<String>, back: Hash256)
    requires
        hash_field_matches(h, f),
    ensures
        hash_text_ok(f),
        hash_decoded(f, back) ==> back@ == h@,
{
    match f {
        None => {
            if hash_decoded(f, back) {
                assert(back@ =~= h@);
            }
        },
        Some(s) => {
            lemma_hex_round_trip(h@);
            vstd::utf8::is_ascii_chars_encode_utf8(s@);
            assert(text_bytes(s@) =~= hex_bytes_of(h@));
        },
    }
}

proof fn lemma_nearest_root_unique(
    interner: &RecursivePathDatabase,
    roots: Seq<PathId>,
    p: PathId,
    a: Option<PathId>,
    b: Option<PathId>,
)
    requires
        interner.wf(),
        forall|k: int| 0 <= k < roots.len() ==> interner.valid(#[trigger] roots[k]),
        is_nearest_root(interner, roots, p, a),
        is_nearest_root(interner, roots, p, b),
    ensures
        a == b,
{
    match (a, b) {
        (Some(x), Some(y)) => {
            assert(root_contains(interner, roots, x, p));
            assert(root_contains(interner, roots, y, p));
            let n = interner.path_of(x).len() as int;
            assert(interner.path_of(x) == interner.path_of(p).subrange(0, n));
            assert(interner.path_of(y) == interner.path_of(p).subrange(0, n));
            let wx = choose|w: int| 0 <= w < roots.len() && roots[w] == x;
            let wy = choose|w: int| 0 <= w < roots.len() && roots[w] == y;
            assert(interner.valid(roots[wx]));
            assert(interner.valid(roots[wy]));
            interner.lemma_handles_unique(x, y);
        },
        (Some(x), None) => {
            assert(root_contains(interner, roots, x, p));
        },
        (None, Some(y)) => {
            assert(root_contains(interner, roots, y, p));
        },
        (None, None) => {},
    }
}

/// Writing a catalog and reading the records back gives the same catalog:
/// the written records are readable and ascending, and every record that
/// reading them yields agrees with the record it was written from. Absent
/// digests and zero times, omitted from the written form, read back as
/// absent and zero.
pub proof fn lemma_catalog_round_trip(
    interner: &RecursivePathDatabase,
    later: &RecursivePathDatabase,
    roots: Seq<PathId>,
    recs: Seq<FileData>,
    written: Seq<FileDataRecord>,
    read: Seq<FileData>,
)
    requires
        interner.wf(),
        later.wf(),
        later.extends(interner),
        sorted_records(interner, recs),
        forall|k: int| 0 <= k < roots.len() ==> interner.valid(#[trigger] roots[k]),
        forall|i: int|
            0 <= i < recs.len() ==> is_nearest_root(
                interner,
                roots,
                (#[trigger] recs[i]).path,
                recs[i].root_path,
            ),
        written.len() == recs.len(),
        forall|i: int| 0 <= i < recs.len() ==> record_of(interner, recs[i], #[trigger] written[i]),
    ensures
        forall|i: int| 0 <= i < written.len() ==> record_readable(#[trigger] written[i]),
        records_ascending(written),
        read.len() == recs.len() && (forall|i: int|
            0 <= i < read.len() ==> record_read(later, roots, #[trigger] written[i], read[i]))
            ==> forall|i: int| 0 <= i < read.len() ==> same_record(#[trigger] read[i], recs[i]),
{
    assert forall|i: int| 0 <= i < written.len() implies record_readable(#[trigger] written[i])
        && path_components(written[i].path@) == interner.path_of(recs[i].path) by {
        assert(record_of(interner, recs[i], written[i]));
        assert(interner.valid(recs[i].path));
        interner.lemma_valid_path(recs[i].path);
        crate::path::lemma_path_round_trip(interner.path_of(recs[i].path));
        lemma_hash_field_round_trip(recs[i].content_hash, written[i].content_hash, recs[i].content_hash);
        lemma_hash_field_round_trip(recs[i].extent_hash, written[i].extent_hash, recs[i].extent_hash);
    }
    assert forall|i: int| 0 < i < written.len() implies path_lt(
        path_components(written[i - 1].path@),
        path_components(#[trigger] written[i].path@),
    ) by {
        assert(path_components(written[i - 1].path@) == interner.path_of(recs[i - 1].path));
        assert(path_components(written[i].path@) == interner.path_of(recs[i].path));
    }
    if read.len() == recs.len() && (forall|i: int|
        0 <= i < read.len() ==> record_read(later, roots, #[trigger] written[i], read[i])) {
        assert forall|i: int| 0 <= i < read.len() implies same_record(#[trigger] read[i], recs[i]) by {
            let d = recs[i];
            let w = written[i];
            let e = read[i];
            assert(record_read(later, roots, w, e));
            assert(record_of(interner, d, w));
            assert(path_components(w.path@) == interner.path_of(d.path));
            assert(interner.valid(d.path));
            assert(later.valid(d.path));
            later.lemma_handles_unique(e.path, d.path);
            assert forall|k: int| 0 <= k < roots.len() implies later.valid(#[trigger] roots[k]) by {
                assert(interner.valid(roots[k]));
            }
            assert forall|y: PathId| #[trigger]
                root_contains(later, roots, y, d.path) <==> root_contains(interner, roots, y, d.path) by {
                if roots.contains(y) {
                    let k = choose|k: int| 0 <= k < roots.len() && roots[k] == y;
                    assert(interner.valid(roots[k]));
                }
            }
            assert(is_nearest_root(interner, roots, d.path, d.root_path));
            match d.root_path {
                Some(x) => {
                    assert(root_contains(interner, roots, x, d.path));
                    assert(root_contains(later, roots, x, d.path));
                },
                None => {},
            }
            assert(is_nearest_root(later, roots, d.path, d.root_path));
            lemma_nearest_root_unique(later, roots, d.path, e.root_path, d.root_path);
            lemma_hash_field_round_trip(d.content_hash, w.content_hash, e.content_hash);
            lemma_hash_field_round_trip(d.extent_hash, w.extent_hash, e.extent_hash);
        }
    }
}

} // verus!

verus! {

/// A sorted catalog is strictly ascending throughout: every record's path
/// sorts before the path of every later record.
pub proof fn lemma_sorted_strictly_ascending(
    interner: &RecursivePathDatabase,
    recs: Seq<FileData>,
    i: int,
    j: int,
)
    requires
        sorted_records(interner, recs),
        0 <= i < j < recs.len(),
    ensures
        path_lt(interner.path_of(recs[i].path), interner.path_of(recs[j].path)),
    decreases j - i,
{
    if j > i + 1 {
        lemma_sorted_strictly_ascending(interner, recs, i, j - 1);
        assert(path_lt(interner.path_of(recs[j - 1].path), interner.path_of(recs[j].path)));
        lemma_path_lt_trans(
            interner.path_of(recs[i].path),
            interner.path_of(recs[j - 1].path),
            interner.path_of(recs[j].path),
        );
    }
}

} // verus!

verus! {

/// A nearest root found for `cur` holds for every path below `cur` that no
/// deeper root contains.
proof fn lemma_nearest_from_ancestor(
    interner: &RecursivePathDatabase,
    roots: Seq<PathId>,
    cur: PathId,
    v: PathId,
    res: Option<PathId>,
)
    requires
        is_nearest_root(interner, roots, cur, res),
        is_prefix(interner.path_of(cur), interner.path_of(v)),
        forall|y: PathId|
            #[trigger] root_contains(interner, roots, y, v) ==> interner.path_of(y).len()
                <= interner.path_of(cur).len(),
    ensures
        is_nearest_root(interner, roots, v, res),
{
    let pc = interner.path_of(cur);
    let pv = interner.path_of(v);
    assert forall|y: PathId| #[trigger] root_contains(interner, roots, y, v) implies root_contains(
        interner,
        roots,
        y,
        cur,
    ) by {
        let py = interner.path_of(y);
        assert(pc.subrange(0, py.len() as int) =~= pv.subrange(0, py.len() as int));
    }
    if let Some(x) = res {
        let px = interner.path_of(x);
        assert(root_contains(interner, roots, x, cur));
        assert(pv.subrange(0, px.len() as int) =~= pc.subrange(0, px.len() as int));
        assert(root_contains(interner, roots, x, v));
    }
}

proof fn lemma_nearest_root_extends(
    old_interner: &RecursivePathDatabase,
    interner: &RecursivePathDatabase,
    roots: Seq<PathId>,
    p: PathId,
    r: Option<PathId>,
)
    requires
        interner.extends(old_interner),
        old_interner.valid(p),
        forall|k: int| 0 <= k < roots.len() ==> old_interner.valid(#[trigger] roots[k]),
        is_nearest_root(old_interner, roots, p, r),
    ensures
        is_nearest_root(interner, roots, p, r),
{
    assert forall|y: PathId| #[trigger]
        root_contains(interner, roots, y, p) <==> root_contains(old_interner, roots, y, p) by {
        if roots.contains(y) {
            let k = choose|k: int| 0 <= k < roots.len() && roots[k] == y;
            assert(old_interner.valid(roots[k]));
        }
    }
    if let Some(x) = r {
        assert(root_contains(old_interner, roots, x, p));
    }
}

proof fn lemma_visited_step(
    interner: &RecursivePathDatabase,
    roots: Seq<PathId>,
    cur: PathId,
    next: PathId,
    vs: Seq<PathId>,
)
    requires
        interner.wf(),
        forall|k: int| 0 <= k < roots.len() ==> interner.valid(#[trigger] roots[k]),
        vs.len() > 0,
        vs.last() == cur,
        interner.valid(cur),
        interner.valid(next),
        is_prefix(interner.path_of(next), interner.path_of(cur)),
        interner.path_of(next).len() + 1 >= interner.path_of(cur).len(),
        forall|y: PathId|
            #[trigger] root_contains(interner, roots, y, cur) ==> interner.path_of(y).len()
                < interner.path_of(cur).len(),
        forall|k: int|
            0 <= k < vs.len() - 1 ==> {
                let v = #[trigger] vs[k];
                &&& interner.valid(v)
                &&& is_prefix(interner.path_of(cur), interner.path_of(v))
                &&& forall|y: PathId|
                    #[trigger] root_contains(interner, roots, y, v) ==> interner.path_of(y).len()
                        <= interner.path_of(cur).len()
            },
    ensures
        forall|k: int|
            0 <= k < vs.len() ==> {
                let v = #[trigger] vs[k];
                &&& interner.valid(v)
                &&& is_prefix(interner.path_of(next), interner.path_of(v))
                &&& forall|y: PathId|
                    #[trigger] root_contains(interner, roots, y, v) ==> interner.path_of(y).len()
                        <= interner.path_of(next).len()
            },
{
    let pc = interner.path_of(cur);
    let pn = interner.path_of(next);
    assert(pc.subrange(0, pc.len() as int) =~= pc);
    assert forall|k: int| 0 <= k < vs.len() implies {
        let v = #[trigger] vs[k];
        &&& interner.valid(v)
        &&& is_prefix(interner.path_of(next), interner.path_of(v))
        &&& forall|y: PathId|
            #[trigger] root_contains(interner, roots, y, v) ==> interner.path_of(y).len()
                <= interner.path_of(next).len()
    } by {
        let v = vs[k];
        let pv = interner.path_of(v);
        if k == vs.len() - 1 {
            assert(v == cur);
        }
        assert(is_prefix(pc, pv));
        assert(pv.subrange(0, pn.len() as int) =~= pc.subrange(0, pn.len() as int));
        assert forall|y: PathId| #[trigger] root_contains(interner, roots, y, v) implies interner.path_of(
            y,
        ).len() <= pn.len() by {
            let py = interner.path_of(y);
            if py.len() >= pc.len() {
                if k < vs.len() - 1 {
                    assert(py.len() <= pc.len());
                }
                assert(py =~= pv.subrange(0, pc.len() as int));
                assert(root_contains(interner, roots, y, cur));
            }
        }
    }
}

/// Nearest roots remembered per path: every configured root maps to itself,
/// and every path looked up, with each ancestor visited on the way, maps to
/// its nearest configured root.
pub struct RootMap {
    entries: Vec<Option<Option<PathId>>>,
}

impl RootMap {
    /// What the map remembers for a path, if anything.
    pub closed spec fn remembered(&self, id: PathId) -> Option<Option<PathId>> {
        if id.index < self.entries@.len() {
            self.entries@[id.index as int]
        } else {
            None
        }
    }

    /// Every remembered entry is right, and every root is remembered.
    pub open spec fn holds(&self, interner: &RecursivePathDatabase, roots: Seq<PathId>) -> bool {
        &&& forall|id: PathId|
            (#[trigger] self.remembered(id)) is Some ==> interner.valid(id) && is_nearest_root(
                interner,
                roots,
                id,
                self.remembered(id)->Some_0,
            )
        &&& forall|k: int| 0 <= k < roots.len() ==> self.remembered(#[trigger] roots[k]) is Some
    }

    fn set(&mut self, key: PathId, value: Option<PathId>)
        ensures
            forall|id: PathId| #[trigger]
                final(self).remembered(id) == (if id == key {
                    Some(value)
                } else {
                    old(self).remembered(id)
                }),
    {
        while self.entries.len() <= key.index
            invariant
                forall|id: PathId| #[trigger] self.remembered(id) == old(self).remembered(id),
            decreases key.index + 1 - self.entries@.len(),
        {
            let ghost before = *self;
            self.entries.push(None);
            assert forall|id: PathId| #[trigger] self.remembered(id) == old(self).remembered(id) by {
                assert(self.remembered(id) == before.remembered(id));
            }
        }
        let ghost before = *self;
        self.entries[key.index] = Some(value);
        assert forall|id: PathId| #[trigger]
            self.remembered(id) == (if id == key {
                Some(value)
            } else {
                old(self).remembered(id)
            }) by {
            if id.index == key.index {
                assert(id == key);
            } else {
                assert(self.remembered(id) == before.remembered(id));
            }
        }
    }

    /// A map that knows only that each root is its own nearest root.
    pub fn new(interner: &RecursivePathDatabase, roots: &[PathId]) -> (r: RootMap)
        requires
            interner.wf(),
            forall|k: int| 0 <= k < roots@.len() ==> interner.valid(#[trigger] roots@[k]),
        ensures
            r.holds(interner, roots@),
    {
        let mut map = RootMap { entries: Vec::new() };
        assert forall|id: PathId| #[trigger] map.remembered(id) is None by {}
        let mut k: usize = 0;
        while k < roots.len()
            invariant
                interner.wf(),
                forall|j: int| 0 <= j < roots@.len() ==> interner.valid(#[trigger] roots@[j]),
                0 <= k <= roots@.len(),
                forall|id: PathId|
                    (#[trigger] map.remembered(id)) is Some ==> interner.valid(id) && is_nearest_root(
                        interner,
                        roots@,
                        id,
                        map.remembered(id)->Some_0,
                    ),
                forall|j: int| 0 <= j < k ==> map.remembered(#[trigger] roots@[j]) is Some,
            decreases roots@.len() - k,
        {
            let r = roots[k];
            proof {
                let pr = interner.path_of(r);
                assert(pr.subrange(0, pr.len() as int) =~= pr);
                assert(roots@[k as int] == r);
                assert(root_contains(interner, roots@, r, r));
            }
            let ghost before = map;
            map.set(r, Some(r));
            proof {
                assert forall|j: int| 0 <= j < k + 1 implies map.remembered(#[trigger] roots@[j]) is Some by {
                    if roots@[j] != r {
                        assert(map.remembered(roots@[j]) == before.remembered(roots@[j]));
                    }
                }
            }
            k = k + 1;
        }
        map
    }

    /// A map that is right for `old_interner` stays right when the interner grows.
    pub proof fn lemma_holds_extends(
        &self,
        old_interner: &RecursivePathDatabase,
        interner: &RecursivePathDatabase,
        roots: Seq<PathId>,
    )
        requires
            self.holds(old_interner, roots),
            interner.extends(old_interner),
            forall|k: int| 0 <= k < roots.len() ==> old_interner.valid(#[trigger] roots[k]),
        ensures
            self.holds(interner, roots),
    {
        assert forall|id: PathId| (#[trigger] self.remembered(id)) is Some implies interner.valid(id)
            && is_nearest_root(interner, roots, id, self.remembered(id)->Some_0) by {
            assert(old_interner.valid(id));
            lemma_nearest_root_extends(old_interner, interner, roots, id, self.remembered(id)->Some_0);
        }
    }

    /// The deepest configured root that contains `p`. The climb from `p`
    /// stops at the first remembered ancestor, and every path visited on the
    /// way is remembered with the result.
    pub fn find_root(
        &mut self,
        interner: &RecursivePathDatabase,
        roots: &[PathId],
        p: PathId,
    ) -> (r: Option<PathId>)
        requires
            interner.wf(),
            interner.valid(p),
            forall|k: int| 0 <= k < roots@.len() ==> interner.valid(#[trigger] roots@[k]),
            old(self).holds(interner, roots@),
        ensures
            is_nearest_root(interner, roots@, p, r),
            final(self).holds(interner, roots@),
            final(self).remembered(p) == Some(r),
    {
        let ghost full = interner.path_of(p);
        proof {
            assert(full.subrange(0, full.len() as int) =~= full);
        }
        let mut cur = p;
        let mut visited: Vec<PathId> = Vec::new();
        let mut found: Option<Option<PathId>> = None;
        while found.is_none()
            invariant
                interner.wf(),
                interner.valid(p),
                interner.valid(cur),
                full == interner.path_of(p),
                forall|k: int| 0 <= k < roots@.len() ==> interner.valid(#[trigger] roots@[k]),
                self.holds(interner, roots@),
                *self == *old(self),
                is_prefix(interner.path_of(cur), full),
                forall|y: PathId|
                    #[trigger] root_contains(interner, roots@, y, p) ==> interner.path_of(y).len()
                        <= interner.path_of(cur).len(),
                forall|k: int|
                    0 <= k < visited@.len() ==> {
                        let v = #[trigger] visited@[k];
                        &&& interner.valid(v)
                        &&& is_prefix(interner.path_of(cur), interner.path_of(v))
                        &&& forall|y: PathId|
                            #[trigger] root_contains(interner, roots@, y, v)
                                ==> interner.path_of(y).len() <= interner.path_of(cur).len()
                    },
                visited@.len() == 0 ==> cur == p,
                visited@.len() > 0 ==> visited@[0] == p,
                found matches Some(res) ==> is_nearest_root(interner, roots@, cur, res),
                found matches Some(res) ==> (visited@.len() == 0 ==> self.remembered(p) == Some(res)),
            decreases (if found is None {
                interner.path_of(cur).len() + 1
            } else {
                0
            }),
        {
            let cached = if cur.index < self.entries.len() {
                self.entries[cur.index]
            } else {
                None
            };
            assert(cached == self.remembered(cur));
            match cached {
                Some(res) => {
                    found = Some(res);
                },
                None => {
                    proof {
                        if roots@.contains(cur) {
                            let k = choose|k: int| 0 <= k < roots@.len() && roots@[k] == cur;
                            assert(self.remembered(roots@[k]) is Some);
                        }
                    }
                    visited.push(cur);
                    proof {
                        let pc = interner.path_of(cur);
                        assert(pc.subrange(0, pc.len() as int) =~= pc);
                        assert forall|y: PathId| #[trigger]
                            root_contains(interner, roots@, y, cur) implies interner.path_of(y).len()
                            < interner.path_of(cur).len() by {
                            if interner.path_of(y).len() == pc.len() {
                                assert(interner.path_of(y) =~= pc);
                                let k = choose|k: int| 0 <= k < roots@.len() && roots@[k] == y;
                                assert(interner.valid(roots@[k]));
                                interner.lemma_handles_unique(y, cur);
                            }
                        }
                        assert forall|y: PathId| #[trigger]
                            root_contains(interner, roots@, y, p) implies interner.path_of(y).len()
                            < interner.path_of(cur).len() by {
                            if interner.path_of(y).len() == pc.len() {
                                assert(interner.path_of(y) =~= full.subrange(0, pc.len() as int));
                                assert(root_contains(interner, roots@, y, cur));
                            }
                        }
                    }
                    match interner.parent_of(cur) {
                        None => {
                            proof {
                                lemma_visited_step(interner, roots@, cur, cur, visited@);
                                assert forall|y: PathId|
                                    !(#[trigger] root_contains(interner, roots@, y, cur)) by {
                                    if root_contains(interner, roots@, y, cur) {
                                        assert(interner.path_of(y).len() < 0);
                                    }
                                }
                            }
                            found = Some(None);
                        },
                        Some(parent) => {
                            proof {
                                let pc = interner.path_of(cur);
                                assert(full.subrange(0, pc.len() - 1) =~= pc.drop_last());
                                assert(pc.subrange(0, pc.len() - 1) =~= pc.drop_last());
                                lemma_visited_step(interner, roots@, cur, parent, visited@);
                            }
                            cur = parent;
                        },
                    }
                },
            }
        }
        let res = match found {
            Some(x) => x,
            None => None,
        };
        proof {
            lemma_nearest_from_ancestor(interner, roots@, cur, p, res);
            assert forall|j: int| 0 <= j < visited@.len() implies is_nearest_root(
                interner,
                roots@,
                #[trigger] visited@[j],
                res,
            ) && interner.valid(visited@[j]) by {
                lemma_nearest_from_ancestor(interner, roots@, cur, visited@[j], res);
            }
        }
        let ghost vs = visited@;
        let mut k: usize = 0;
        while k < visited.len()
            invariant
                interner.wf(),
                visited@ == vs,
                vs.len() > 0 ==> vs[0] == p,
                vs.len() == 0 ==> self.remembered(p) == Some(res),
                0 <= k <= vs.len(),
                self.holds(interner, roots@),
                forall|j: int|
                    0 <= j < vs.len() ==> is_nearest_root(interner, roots@, #[trigger] vs[j], res)
                        && interner.valid(vs[j]),
                forall|j: int| 0 <= j < k ==> self.remembered(#[trigger] vs[j]) == Some(res),
            decreases vs.len() - k,
        {
            let v = visited[k];
            let ghost before = *self;
            self.set(v, res);
            proof {
                assert forall|j: int| 0 <= j < k + 1 implies self.remembered(#[trigger] vs[j]) == Some(
                    res,
                ) by {
                    if vs[j] != v {
                        assert(self.remembered(vs[j]) == before.remembered(vs[j]));
                    }
                }
                assert forall|id: PathId| (#[trigger] self.remembered(id)) is Some implies interner.valid(
                    id,
                ) && is_nearest_root(interner, roots@, id, self.remembered(id)->Some_0) by {
                    if id != v {
                        assert(self.remembered(id) == before.remembered(id));
                    }
                }
                assert forall|kk: int| 0 <= kk < roots@.len() implies self.remembered(
                    #[trigger] roots@[kk],
                ) is Some by {
                    if roots@[kk] != v {
                        assert(self.remembered(roots@[kk]) == before.remembered(roots@[kk]));
                    }
                }
            }
            k = k + 1;
        }
        proof {
            if vs.len() > 0 {
                assert(self.remembered(vs[0]) == Some(res));
            }
        }
        res
    }
}

} // verus!
