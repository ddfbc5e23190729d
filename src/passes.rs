//! The batched passes over the catalog: content hashing, extent hashing and
//! deduplication. Each pass is a state machine: the caller walks the catalog
//! in order, asks `classify` what to do with each record, performs the file
//! operation when told to, and hands the outcome to `apply`, which returns
//! the updated record.
use crate::catalog::{derived_consistent, in_roots, root_in_set, FileData};
use crate::hash::{absent_hash, hash_is_absent, hashes_equal, is_absent, zero_hash, Hash256};
use crate::path::PathId;
use vstd::prelude::*;

verus! {

/// What a pass does with one record.
#[derive(Clone, Copy, Debug, PartialEq, Eq, Structural)]
pub enum Step {
    /// Outside the configured roots.
    Ignored,
    /// Already up to date.
    Fresh,
    /// Deferred to a later batch.
    Remaining,
    /// To be processed now.
    Process,
}

/// One more, stopping at the largest value.
pub open spec fn bump(c: u64) -> u64 {
    if c < u64::MAX {
        (c + 1) as u64
    } else {
        c
    }
}

/// The sum, stopping at the largest value.
pub open spec fn sat_add(a: u64, b: u64) -> u64 {
    if a + b <= u64::MAX {
        (a + b) as u64
    } else {
        u64::MAX
    }
}

fn bump_exec(c: u64) -> (r: u64)
    ensures
        r == bump(c),
{
    if c < u64::MAX {
        c + 1
    } else {
        c
    }
}

fn sat_add_exec(a: u64, b: u64) -> (r: u64)
    ensures
        r == sat_add(a, b),
{
    match a.checked_add(b) {
        Some(s) => s,
        None => u64::MAX,
    }
}

/// Whether the budget is spent: something was done this batch and one more
/// file of `size` bytes would take the batch past `limit`.
pub open spec fn over_budget(done: u64, used: u64, size: u64, limit: u64) -> bool {
    done > 0 && used + size > limit
}

fn over_budget_exec(done: u64, used: u64, size: u64, limit: u64) -> (r: bool)
    ensures
        r == over_budget(done, used, size, limit),
{
    if done == 0 {
        false
    } else {
        match used.checked_add(size) {
            Some(s) => s > limit,
            None => true,
        }
    }
}

/// Counters of one pass; the ignored, fresh and remaining counts describe the
/// last batch, the updated and error counts all batches.
#[derive(Clone, Copy, Debug)]
pub struct PassCounters {
    pub ignored: u64,
    pub fresh: u64,
    pub updated: u64,
    pub remaining: u64,
    pub errors: u64,
}

/// Per-batch progress of a pass.
#[derive(Clone, Copy, Debug)]
pub struct BatchState {
    pub ignored: u64,
    pub fresh: u64,
    pub remaining: u64,
    pub updated: u64,
    pub errors: u64,
    pub bytes: u64,
}

pub open spec fn empty_batch() -> BatchState {
    BatchState { ignored: 0, fresh: 0, remaining: 0, updated: 0, errors: 0, bytes: 0 }
}

/// The batch after a record was classified as `s`.
pub open spec fn counted(b: BatchState, s: Step) -> BatchState {
    match s {
        Step::Ignored => BatchState { ignored: bump(b.ignored), ..b },
        Step::Fresh => BatchState { fresh: bump(b.fresh), ..b },
        Step::Remaining => BatchState { remaining: bump(b.remaining), ..b },
        Step::Process => b,
    }
}

/// The batch after a record of `size` bytes was processed.
pub open spec fn processed(b: BatchState, size: u64, success: bool) -> BatchState {
    BatchState {
        updated: if success {
            bump(b.updated)
        } else {
            b.updated
        },
        errors: if success {
            b.errors
        } else {
            bump(b.errors)
        },
        bytes: sat_add(b.bytes, size),
        ..b
    }
}

/// The batch after an advisory request on a record of `size` bytes: only
/// the byte budget moves.
pub open spec fn advised(b: BatchState, size: u64) -> BatchState {
    BatchState { bytes: sat_add(b.bytes, size), ..b }
}

/// The pass totals after a batch ends.
pub open spec fn finished(c: PassCounters, b: BatchState) -> PassCounters {
    PassCounters {
        ignored: b.ignored,
        fresh: b.fresh,
        remaining: b.remaining,
        updated: sat_add(c.updated, b.updated),
        errors: sat_add(c.errors, b.errors),
    }
}

fn count_step(b: BatchState, s: Step) -> (r: BatchState)
    ensures
        r == counted(b, s),
{
    match s {
        Step::Ignored => BatchState { ignored: bump_exec(b.ignored), ..b },
        Step::Fresh => BatchState { fresh: bump_exec(b.fresh), ..b },
        Step::Remaining => BatchState { remaining: bump_exec(b.remaining), ..b },
        Step::Process => b,
    }
}

fn count_processed(b: BatchState, size: u64, success: bool) -> (r: BatchState)
    ensures
        r == processed(b, size, success),
{
    BatchState {
        updated: if success {
            bump_exec(b.updated)
        } else {
            b.updated
        },
        errors: if success {
            b.errors
        } else {
            bump_exec(b.errors)
        },
        bytes: sat_add_exec(b.bytes, size),
        ..b
    }
}

fn finish_counters(c: PassCounters, b: BatchState) -> (r: PassCounters)
    ensures
        r == finished(c, b),
{
    PassCounters {
        ignored: b.ignored,
        fresh: b.fresh,
        remaining: b.remaining,
        updated: sat_add_exec(c.updated, b.updated),
        errors: sat_add_exec(c.errors, b.errors),
    }
}

fn new_batch() -> (r: BatchState)
    ensures
        r == empty_batch(),
{
    BatchState { ignored: 0, fresh: 0, remaining: 0, updated: 0, errors: 0, bytes: 0 }
}

fn copy_roots(roots: &[PathId]) -> (r: Vec<PathId>)
    ensures
        r@ == roots@,
{
    let mut out: Vec<PathId> = Vec::new();
    let mut i: usize = 0;
    while i < roots.len()
        invariant
            0 <= i <= roots@.len(),
            out@ == roots@.subrange(0, i as int),
        decreases roots@.len() - i,
    {
        out.push(roots[i]);
        i = i + 1;
    }
    assert(out@ =~= roots@);
    out
}

// ---------------------------------------------------------------- content

/// What the content pass does with a record.
pub open spec fn content_step(roots: Seq<PathId>, limit: u64, b: BatchState, d: FileData) -> Step {
    if !in_roots(roots, d.root_path) {
        Step::Ignored
    } else if d.size == 0 || !is_absent(d.content_hash) {
        Step::Fresh
    } else if over_budget(b.updated, b.bytes, d.size, limit) {
        Step::Remaining
    } else {
        Step::Process
    }
}

/// The record after its content was hashed (`Some`) or could not be read (`None`).
pub open spec fn content_applied(d: FileData, result: Option<Hash256>, now: i64) -> FileData {
    match result {
        None => d,
        Some(h) => if h@ == d.content_hash@ {
            FileData { content_hash: h, content_hash_time: now, ..d }
        } else {
            FileData {
                content_hash: h,
                content_hash_time: now,
                extent_hash: absent_hash(),
                extent_hash_time: 0,
                defragment_time: 0,
                deduplicate_time: 0,
                ..d
            }
        },
    }
}

/// Brings content digests up to date, a byte budget at a time.
pub struct ContentHasher {
    root_paths: Vec<PathId>,
    batch_size: u64,
    counters: PassCounters,
    batch: BatchState,
}

impl ContentHasher {
    pub closed spec fn roots(&self) -> Seq<PathId> {
        self.root_paths@
    }

    pub closed spec fn limit(&self) -> u64 {
        self.batch_size
    }

    pub closed spec fn totals(&self) -> PassCounters {
        self.counters
    }

    pub closed spec fn batch(&self) -> BatchState {
        self.batch
    }

    /// A pass over files under `root_paths`, hashing about `batch_size` bytes per batch.
    pub fn new(root_paths: &[PathId], batch_size: u64) -> (r: ContentHasher)
        ensures
            r.roots() == root_paths@,
            r.limit() == batch_size,
            r.totals() == (PassCounters { ignored: 0, fresh: 0, updated: 0, remaining: 0, errors: 0 }),
            r.batch() == empty_batch(),
    {
        ContentHasher {
            root_paths: copy_roots(root_paths),
            batch_size,
            counters: PassCounters { ignored: 0, fresh: 0, updated: 0, remaining: 0, errors: 0 },
            batch: new_batch(),
        }
    }

    /// Starts a batch.
    pub fn start_batch(&mut self)
        ensures
            final(self).batch() == empty_batch(),
            final(self).roots() == old(self).roots(),
            final(self).limit() == old(self).limit(),
            final(self).totals() == old(self).totals(),
    {
        self.batch = new_batch();
    }

    /// Decides what to do with the next record of the catalog.
    pub fn classify(&mut self, d: &FileData) -> (r: Step)
        ensures
            r == content_step(old(self).roots(), old(self).limit(), old(self).batch(), *d),
            final(self).batch() == counted(old(self).batch(), r),
            final(self).roots() == old(self).roots(),
            final(self).limit() == old(self).limit(),
            final(self).totals() == old(self).totals(),
    {
        let s = if !root_in_set(self.root_paths.as_slice(), d.root_path) {
            Step::Ignored
        } else if d.size == 0 || !hash_is_absent(&d.content_hash) {
            Step::Fresh
        } else if over_budget_exec(self.batch.updated, self.batch.bytes, d.size, self.batch_size) {
            Step::Remaining
        } else {
            Step::Process
        };
        self.batch = count_step(self.batch, s);
        s
    }

    /// Records the outcome for a record classified `Process`: its digest at
    /// time `now`, or `None` when the file could not be read.
    pub fn apply(&mut self, d: &FileData, result: Option<Hash256>, now: i64) -> (r: FileData)
        ensures
            r == content_applied(*d, result, now),
            derived_consistent(*d) ==> derived_consistent(r),
            final(self).batch() == processed(old(self).batch(), d.size, result is Some),
            final(self).roots() == old(self).roots(),
            final(self).limit() == old(self).limit(),
            final(self).totals() == old(self).totals(),
    {
        self.batch = count_processed(self.batch, d.size, result.is_some());
        match result {
            None => *d,
            Some(h) => {
                if hashes_equal(&h, &d.content_hash) {
                    FileData { content_hash: h, content_hash_time: now, ..*d }
                } else {
                    FileData {
                        content_hash: h,
                        content_hash_time: now,
                        extent_hash: zero_hash(),
                        extent_hash_time: 0,
                        defragment_time: 0,
                        deduplicate_time: 0,
                        ..*d
                    }
                }
            },
        }
    }

    /// Ends a batch and folds its counts into the totals.
    pub fn finish_batch(&mut self)
        ensures
            final(self).totals() == finished(old(self).totals(), old(self).batch()),
            final(self).batch() == old(self).batch(),
            final(self).roots() == old(self).roots(),
            final(self).limit() == old(self).limit(),
    {
        self.counters = finish_counters(self.counters, self.batch);
    }

    pub fn num_ignored(&self) -> (r: u64)
        ensures
            r == self.totals().ignored,
    {
        self.counters.ignored
    }

    pub fn num_fresh(&self) -> (r: u64)
        ensures
            r == self.totals().fresh,
    {
        self.counters.fresh
    }

    pub fn num_updated(&self) -> (r: u64)
        ensures
            r == self.totals().updated,
    {
        self.counters.updated
    }

    pub fn num_remaining(&self) -> (r: u64)
        ensures
            r == self.totals().remaining,
    {
        self.counters.remaining
    }

    pub fn num_errors(&self) -> (r: u64)
        ensures
            r == self.totals().errors,
    {
        self.counters.errors
    }

    /// Files hashed or failed so far.
    pub fn num_processed(&self) -> (r: u64)
        ensures
            r == sat_add(self.totals().updated, self.totals().errors),
    {
        sat_add_exec(self.counters.updated, self.counters.errors)
    }

    /// Files hashed, failed, or still waiting.
    pub fn num_to_process(&self) -> (r: u64)
        ensures
            r == sat_add(
                sat_add(self.totals().updated, self.totals().errors),
                self.totals().remaining,
            ),
    {
        sat_add_exec(
            sat_add_exec(self.counters.updated, self.counters.errors),
            self.counters.remaining,
        )
    }
}

/// A record whose content was hashed to a present digest is fresh to every
/// later content pass.
pub proof fn lemma_content_settles(
    roots: Seq<PathId>,
    limit: u64,
    b: BatchState,
    d: FileData,
    h: Hash256,
    now: i64,
)
    requires
        !is_absent(h),
    ensures
        content_step(roots, limit, b, content_applied(d, Some(h), now)) != Step::Process,
{
}

// ---------------------------------------------------------------- extents

/// What the extent pass does with a record: a record without a content
/// digest has no basis for extent state and is left alone.
pub open spec fn extent_step(roots: Seq<PathId>, limit: u64, b: BatchState, d: FileData) -> Step {
    if !in_roots(roots, d.root_path) {
        Step::Ignored
    } else if d.extent_hash_time != 0 || is_absent(d.content_hash) {
        Step::Fresh
    } else if over_budget(b.updated, b.bytes, d.size, limit) {
        Step::Remaining
    } else {
        Step::Process
    }
}

/// The record after its extent map was read: `Some(digest)`, where an absent
/// digest means no physical extents, or `None` on failure.
pub open spec fn extent_applied(d: FileData, result: Option<Hash256>, now: i64) -> FileData {
    match result {
        None => d,
        Some(h) => if h@ == d.extent_hash@ {
            FileData { extent_hash: h, extent_hash_time: now, ..d }
        } else {
            FileData {
                extent_hash: h,
                extent_hash_time: now,
                defragment_time: 0,
                deduplicate_time: 0,
                ..d
            }
        },
    }
}

/// Brings extent digests up to date, a byte budget at a time.
pub struct ExtentHasher {
    root_paths: Vec<PathId>,
    batch_size: u64,
    counters: PassCounters,
    batch: BatchState,
}

impl ExtentHasher {
    pub closed spec fn roots(&self) -> Seq<PathId> {
        self.root_paths@
    }

    pub closed spec fn limit(&self) -> u64 {
        self.batch_size
    }

    pub closed spec fn totals(&self) -> PassCounters {
        self.counters
    }

    pub closed spec fn batch(&self) -> BatchState {
        self.batch
    }

    /// A pass over files under `root_paths`, reading about `batch_size` bytes of files per batch.
    pub fn new(root_paths: &[PathId], batch_size: u64) -> (r: ExtentHasher)
        ensures
            r.roots() == root_paths@,
            r.limit() == batch_size,
            r.totals() == (PassCounters { ignored: 0, fresh: 0, updated: 0, remaining: 0, errors: 0 }),
            r.batch() == empty_batch(),
    {
        ExtentHasher {
            root_paths: copy_roots(root_paths),
            batch_size,
            counters: PassCounters { ignored: 0, fresh: 0, updated: 0, remaining: 0, errors: 0 },
            batch: new_batch(),
        }
    }

    /// Starts a batch.
    pub fn start_batch(&mut self)
        ensures
            final(self).batch() == empty_batch(),
            final(self).roots() == old(self).roots(),
            final(self).limit() == old(self).limit(),
            final(self).totals() == old(self).totals(),
    {
        self.batch = new_batch();
    }

    /// Decides what to do with the next record of the catalog.
    pub fn classify(&mut self, d: &FileData) -> (r: Step)
        ensures
            r == extent_step(old(self).roots(), old(self).limit(), old(self).batch(), *d),
            final(self).batch() == counted(old(self).batch(), r),
            final(self).roots() == old(self).roots(),
            final(self).limit() == old(self).limit(),
            final(self).totals() == old(self).totals(),
    {
        let s = if !root_in_set(self.root_paths.as_slice(), d.root_path) {
            Step::Ignored
        } else if d.extent_hash_time != 0 || hash_is_absent(&d.content_hash) {
            Step::Fresh
        } else if over_budget_exec(self.batch.updated, self.batch.bytes, d.size, self.batch_size) {
            Step::Remaining
        } else {
            Step::Process
        };
        self.batch = count_step(self.batch, s);
        s
    }

    /// Records the outcome for a record classified `Process`: its extent
    /// digest at time `now` (absent when it has no physical extents), or
    /// `None` when the extent map could not be read.
    pub fn apply(&mut self, d: &FileData, result: Option<Hash256>, now: i64) -> (r: FileData)
        ensures
            r == extent_applied(*d, result, now),
            derived_consistent(*d) && !is_absent(d.content_hash) ==> derived_consistent(r),
            final(self).batch() == processed(old(self).batch(), d.size, result is Some),
            final(self).roots() == old(self).roots(),
            final(self).limit() == old(self).limit(),
            final(self).totals() == old(self).totals(),
    {
        self.batch = count_processed(self.batch, d.size, result.is_some());
        match result {
            None => *d,
            Some(h) => {
                if hashes_equal(&h, &d.extent_hash) {
                    FileData { extent_hash: h, extent_hash_time: now, ..*d }
                } else {
                    FileData {
                        extent_hash: h,
                        extent_hash_time: now,
                        defragment_time: 0,
                        deduplicate_time: 0,
                        ..*d
                    }
                }
            },
        }
    }

    /// Ends a batch and folds its counts into the totals.
    pub fn finish_batch(&mut self)
        ensures
            final(self).totals() == finished(old(self).totals(), old(self).batch()),
            final(self).batch() == old(self).batch(),
            final(self).roots() == old(self).roots(),
            final(self).limit() == old(self).limit(),
    {
        self.counters = finish_counters(self.counters, self.batch);
    }

    pub fn num_fresh(&self) -> (r: u64)
        ensures
            r == self.totals().fresh,
    {
        self.counters.fresh
    }

    pub fn num_remaining(&self) -> (r: u64)
        ensures
            r == self.totals().remaining,
    {
        self.counters.remaining
    }

    pub fn num_updated(&self) -> (r: u64)
        ensures
            r == self.totals().updated,
    {
        self.counters.updated
    }

    pub fn num_errors(&self) -> (r: u64)
        ensures
            r == self.totals().errors,
    {
        self.counters.errors
    }
}

/// The extent pass keeps derived state consistent: it only processes records
/// that have a content digest, and processing such a record keeps the state
/// consistent.
pub proof fn lemma_extent_pass_consistent(
    roots: Seq<PathId>,
    limit: u64,
    b: BatchState,
    d: FileData,
    result: Option<Hash256>,
    now: i64,
)
    requires
        extent_step(roots, limit, b, d) == Step::Process,
        derived_consistent(d),
    ensures
        !is_absent(d.content_hash),
        derived_consistent(extent_applied(d, result, now)),
{
    crate::hash::lemma_absent_hash(absent_hash());
}

/// A record whose extent map was read at a non-zero time is fresh to every
/// later extent pass.
pub proof fn lemma_extent_settles(
    roots: Seq<PathId>,
    limit: u64,
    b: BatchState,
    d: FileData,
    h: Hash256,
    now: i64,
)
    requires
        now != 0,
    ensures
        extent_step(roots, limit, b, extent_applied(d, Some(h), now)) != Step::Process,
{
}

// ---------------------------------------------------------------- dedupe

/// What the dedupe pass does with a record, given the plan entry for it.
pub open spec fn dedupe_step(
    roots: Seq<PathId>,
    limit: u64,
    b: BatchState,
    d: FileData,
    entry: Option<usize>,
) -> Step {
    if !in_roots(roots, d.root_path) {
        Step::Ignored
    } else if entry is None {
        Step::Fresh
    } else if over_budget(b.updated, b.bytes, d.size, limit) {
        Step::Remaining
    } else {
        Step::Process
    }
}

/// The record after a share or defragment request at time `now`: its extent
/// layout is unknown again.
pub open spec fn dedupe_applied(d: FileData, now: i64) -> FileData {
    FileData {
        extent_hash: absent_hash(),
        extent_hash_time: 0,
        defragment_time: 0,
        deduplicate_time: now,
        ..d
    }
}

/// What the caller is to do for a record classified `Process`.
#[derive(Clone, Copy, Debug, PartialEq, Eq, Structural)]
pub enum DedupeAction {
    /// The record is its group's canonical file: defragment it.
    Defragment,
    /// Share the extents of the record at this catalog position into this record.
    ShareFrom(usize),
}

/// Applies a dedupe plan one byte budget at a time.
pub struct FileDeduper {
    counters: PassCounters,
    batch: BatchState,
}

impl FileDeduper {
    pub closed spec fn totals(&self) -> PassCounters {
        self.counters
    }

    pub closed spec fn batch(&self) -> BatchState {
        self.batch
    }

    /// A driver with all counters at zero.
    pub fn new() -> (r: FileDeduper)
        ensures
            r.totals() == (PassCounters { ignored: 0, fresh: 0, updated: 0, remaining: 0, errors: 0 }),
            r.batch() == empty_batch(),
    {
        FileDeduper {
            counters: PassCounters { ignored: 0, fresh: 0, updated: 0, remaining: 0, errors: 0 },
            batch: new_batch(),
        }
    }

    /// Starts a batch.
    pub fn start_batch(&mut self)
        ensures
            final(self).batch() == empty_batch(),
            final(self).totals() == old(self).totals(),
    {
        self.batch = new_batch();
    }

    /// Decides what to do with the record at `index`, whose plan entry is `plan[index]`.
    pub fn classify(
        &mut self,
        root_paths: &[PathId],
        batch_size: u64,
        plan: &Vec<Option<usize>>,
        index: usize,
        d: &FileData,
    ) -> (r: Step)
        requires
            index < plan@.len(),
        ensures
            r == dedupe_step(root_paths@, batch_size, old(self).batch(), *d, plan@[index as int]),
            final(self).batch() == counted(old(self).batch(), r),
            final(self).totals() == old(self).totals(),
    {
        let s = if !root_in_set(root_paths, d.root_path) {
            Step::Ignored
        } else if plan[index].is_none() {
            Step::Fresh
        } else if over_budget_exec(self.batch.updated, self.batch.bytes, d.size, batch_size) {
            Step::Remaining
        } else {
            Step::Process
        };
        self.batch = count_step(self.batch, s);
        s
    }

    /// The request for a planned record: defragment when it maps to itself,
    /// else share from its canonical file.
    pub fn action(plan: &Vec<Option<usize>>, index: usize) -> (r: Option<DedupeAction>)
        requires
            index < plan@.len(),
        ensures
            plan@[index as int] is None ==> r is None,
            plan@[index as int] matches Some(c) ==> (if c == index {
                r == Some(DedupeAction::Defragment)
            } else {
                r == Some(DedupeAction::ShareFrom(c))
            }),
    {
        match plan[index] {
            None => None,
            Some(c) => if c == index {
                Some(DedupeAction::Defragment)
            } else {
                Some(DedupeAction::ShareFrom(c))
            },
        }
    }

    /// Records the outcome of the request for the record at `index` made at
    /// time `now`, and removes its plan entry. A share request counts as
    /// updated or failed; the defragment of a canonical file is advisory and
    /// counts only toward the byte budget.
    pub fn apply(
        &mut self,
        plan: &mut Vec<Option<usize>>,
        index: usize,
        d: &FileData,
        success: bool,
        now: i64,
    ) -> (r: FileData)
        requires
            index < old(plan)@.len(),
        ensures
            r == dedupe_applied(*d, now),
            final(plan)@ == old(plan)@.update(index as int, None),
            old(plan)@[index as int] == Some(index) ==> final(self).batch() == advised(
                old(self).batch(),
                d.size,
            ),
            old(plan)@[index as int] != Some(index) ==> final(self).batch() == processed(
                old(self).batch(),
                d.size,
                success,
            ),
            final(self).totals() == old(self).totals(),
    {
        let self_mapped = match plan[index] {
            Some(c) => c == index,
            None => false,
        };
        if self_mapped {
            self.batch = BatchState { bytes: sat_add_exec(self.batch.bytes, d.size), ..self.batch };
        } else {
            self.batch = count_processed(self.batch, d.size, success);
        }
        plan[index] = None;
        FileData {
            extent_hash: zero_hash(),
            extent_hash_time: 0,
            defragment_time: 0,
            deduplicate_time: now,
            ..*d
        }
    }

    /// Ends a batch and folds its counts into the totals.
    pub fn finish_batch(&mut self)
        ensures
            final(self).totals() == finished(old(self).totals(), old(self).batch()),
            final(self).batch() == old(self).batch(),
    {
        self.counters = finish_counters(self.counters, self.batch);
    }

    pub fn num_fresh(&self) -> (r: u64)
        ensures
            r == self.totals().fresh,
    {
        self.counters.fresh
    }

    pub fn num_updated(&self) -> (r: u64)
        ensures
            r == self.totals().updated,
    {
        self.counters.updated
    }

    pub fn num_remaining(&self) -> (r: u64)
        ensures
            r == self.totals().remaining,
    {
        self.counters.remaining
    }

    pub fn num_errors(&self) -> (r: u64)
        ensures
            r == self.totals().errors,
    {
        self.counters.errors
    }
}

/// A record handled by the dedupe pass leaves the plan, so no later batch of
/// the same pass processes it again.
pub proof fn lemma_dedupe_consumes(
    roots: Seq<PathId>,
    limit: u64,
    b: BatchState,
    d: FileData,
    plan: Seq<Option<usize>>,
    index: int,
    now: i64,
)
    requires
        0 <= index < plan.len(),
    ensures
        dedupe_step(
            roots,
            limit,
            b,
            dedupe_applied(d, now),
            plan.update(index, None)[index],
        ) != Step::Process,
{
}

} // verus!

verus! {

/// With no configured roots every record is ignored by every pass and the
/// planner maps nothing, so a run does no work.
pub proof fn lemma_no_roots_no_work(
    limit: u64,
    b: BatchState,
    d: FileData,
    entry: Option<usize>,
    minimum_file_size: u64,
    recs: Seq<FileData>,
    i: int,
)
    ensures
        content_step(Seq::<PathId>::empty(), limit, b, d) == Step::Ignored,
        extent_step(Seq::<PathId>::empty(), limit, b, d) == Step::Ignored,
        dedupe_step(Seq::<PathId>::empty(), limit, b, d, entry) == Step::Ignored,
        !crate::planner::needs_dedupe(Seq::<PathId>::empty(), minimum_file_size, recs, i),
{
}

} // verus!

verus! {

/// Zero-length files are never content-hashed.
pub proof fn lemma_empty_files_not_hashed(roots: Seq<PathId>, limit: u64, b: BatchState, d: FileData)
    requires
        d.size == 0,
    ensures
        content_step(roots, limit, b, d) != Step::Process,
{
}

} // verus!

verus! {

/// A record that the planner maps to a canonical file has a content digest,
/// and the dedupe pass keeps it: the driver never leaves derived state
/// without its basis. (It does set the dedupe time while clearing the extent
/// digest, as the driver's rules require.)
pub proof fn lemma_dedupe_keeps_content_basis(
    roots: Seq<PathId>,
    minimum_file_size: u64,
    recs: Seq<FileData>,
    i: int,
    e: Option<usize>,
    now: i64,
)
    requires
        0 <= i < recs.len(),
        crate::planner::plan_entry(roots, minimum_file_size, recs, i, e),
        e is Some,
    ensures
        !is_absent(dedupe_applied(recs[i], now).content_hash),
        dedupe_applied(recs[i], now).content_hash == recs[i].content_hash,
{
    let j = choose|j: int|
        #[trigger] crate::planner::same_group(roots, minimum_file_size, recs, i, j)
            && recs[j].extent_hash@ != recs[i].extent_hash@;
}

} // verus!
