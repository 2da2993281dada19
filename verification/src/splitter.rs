use vstd::prelude::*;

use crate::buffer::{CsvBuffer, RowView};
use crate::cache::BufferCache;
use crate::encode;
use crate::encode::bytes_eq;
use crate::writes::PendingWrite;

verus! {

/// The split driver rotates before a record could overrun the buffer:
/// whenever the remaining capacity is at or below this margin, the buffer
/// is flushed first.  Records are admitted only if their encodings fit
/// inside the margin, so the encoder's unchecked capacity precondition
/// always holds.
pub const SAFETY_MARGIN: usize = 1024;

/// The grouping key of a record: the bytes of its configured column.
pub open spec fn row_key(col: int, row: RowView) -> Seq<u8> {
    row[col]
}

/// A record stream pre-sorted by the key column: records with equal keys
/// stand consecutively.
pub open spec fn grouped_by(rows: Seq<RowView>, col: int) -> bool {
    forall|i: int, j: int, k: int|
        0 <= i <= j <= k < rows.len() && row_key(col, #[trigger] rows[i]) == row_key(
            col,
            #[trigger] rows[k],
        ) ==> row_key(col, #[trigger] rows[j]) == row_key(col, rows[i])
}

/// The split driver: it feeds records into the active buffer and decides
/// when to flush the buffer to the kernel and when to rotate to a new
/// output file, by row-count threshold, group boundaries and remaining
/// buffer capacity.
pub struct Splitter {
    cache: BufferCache,
    active: Option<CsvBuffer>,
    on_row: usize,
    counts: Vec<usize>,
    max_rows: usize,
    group_col: Option<usize>,
    last_key: Option<Vec<u8>>,
    pending_rotate: bool,
    processed: Ghost<Seq<RowView>>,
    clean_groups: Ghost<bool>,
}

impl Splitter {
    /// The buffer cache the driver writes through.
    pub closed spec fn spec_cache(self) -> BufferCache {
        self.cache
    }

    /// The buffer currently lent to the driver, if splitting has not
    /// finished.
    pub closed spec fn spec_active(self) -> Option<CsvBuffer> {
        self.active
    }

    /// How many records the current output file holds.
    pub closed spec fn spec_on_row(self) -> usize {
        self.on_row
    }

    /// The per-file record counts, in file order.
    pub closed spec fn spec_counts(self) -> Seq<usize> {
        self.counts@
    }

    /// The row-count threshold.
    pub closed spec fn spec_max_rows(self) -> usize {
        self.max_rows
    }

    /// The grouping column, if grouping is configured.
    pub closed spec fn spec_group_col(self) -> Option<usize> {
        self.group_col
    }

    /// The key of the most recently processed record.
    pub closed spec fn spec_last_key(self) -> Option<Seq<u8>> {
        match self.last_key {
            Some(k) => Some(k@),
            Option::None => Option::None,
        }
    }

    /// Whether a capacity-forced flush has left a rotation to perform
    /// before the next record is written.
    pub closed spec fn spec_pending_rotate(self) -> bool {
        self.pending_rotate
    }

    /// Every record fed to the driver so far, in order.
    pub closed spec fn spec_processed(self) -> Seq<RowView> {
        self.processed@
    }

    /// Whether no capacity-forced rotation has yet split a group.  Only
    /// meaningful in grouping mode.
    pub closed spec fn spec_clean_groups(self) -> bool {
        self.clean_groups@
    }

    /// Whether a grouping column is configured.
    pub open spec fn group_mode(self) -> bool {
        self.spec_group_col() is Some
    }

    /// The grouping column as an index.
    pub open spec fn spec_col(self) -> int {
        self.spec_group_col().unwrap() as int
    }

    /// How many output files exist.
    pub open spec fn spec_num_files(self) -> nat {
        self.spec_cache().targets().len()
    }

    /// The records sitting in the active buffer, not yet submitted.
    pub open spec fn active_rows(self) -> Seq<RowView> {
        match self.spec_active() {
            Some(b) => b.rows(),
            Option::None => Seq::empty(),
        }
    }

    /// The remaining capacity of the active buffer.
    pub open spec fn active_remaining(self) -> nat {
        match self.spec_active() {
            Some(b) => b.spec_remaining(),
            Option::None => 0,
        }
    }

    /// The records of output file `i`: what was submitted against it,
    /// plus, for the active file, what still sits in the active buffer.
    pub open spec fn file_rows(self, i: int) -> Seq<RowView> {
        if i == self.spec_num_files() - 1 {
            self.spec_cache().targets()[i].spec_rows() + self.active_rows()
        } else {
            self.spec_cache().targets()[i].spec_rows()
        }
    }

    /// All output files' records, in file order.
    pub open spec fn all_files(self) -> Seq<Seq<RowView>> {
        Seq::new(self.spec_num_files(), |i: int| self.file_rows(i))
    }

    /// The concurrency limit the driver was created with.
    pub open spec fn spec_limit(self) -> nat {
        self.spec_cache().spec_count()
    }

    /// The state invariant.  Among its clauses stand the library's
    /// central guarantees: the buffer accounting (through the cache's own
    /// invariant), conservation of records, the row-count discipline
    /// without grouping, and group integrity at file boundaries while no
    /// capacity-forced rotation has struck.
    pub open spec fn wf(self) -> bool {
        &&& self.spec_cache().wf()
        &&& self.spec_max_rows() >= 1
        &&& self.spec_cache().spec_size() > 2 * SAFETY_MARGIN
        &&& self.spec_cache().spec_count() >= 2
        &&& match self.spec_active() {
            Some(b) => {
                &&& b.wf()
                &&& b.capacity() == self.spec_cache().spec_size()
                &&& (b.bytes().len() == 0 <==> b.rows().len() == 0)
                &&& self.spec_cache().spec_lent() == 1
            },
            Option::None => self.spec_cache().spec_lent() == 0,
        }
        &&& self.spec_counts().len() == self.spec_num_files()
        &&& forall|i: int|
            0 <= i < self.spec_num_files() ==> self.spec_counts()[i] == (#[trigger] self.file_rows(
                i,
            )).len()
        &&& (if self.spec_pending_rotate() {
            self.spec_on_row() == 0 && self.active_rows().len() == 0
        } else {
            self.spec_on_row() == self.spec_counts().last()
        })
        &&& self.all_files().flatten() == self.spec_processed()
        &&& (!self.group_mode() ==> {
            &&& !self.spec_pending_rotate()
            &&& self.spec_on_row() <= self.spec_max_rows()
            &&& forall|i: int|
                0 <= i < self.spec_num_files() - 1 ==> (#[trigger] self.file_rows(i)).len()
                    == self.spec_max_rows()
            &&& self.spec_processed().len() == (self.spec_num_files() - 1) * self.spec_max_rows()
                + self.spec_on_row()
            &&& (self.spec_processed().len() == 0 ==> self.spec_num_files() == 1)
            &&& (self.spec_num_files() > 1 ==> self.spec_on_row() >= 1)
        })
        &&& (self.group_mode() ==> {
            &&& (match self.spec_last_key() {
                Some(k) => self.spec_processed().len() > 0 && k == row_key(
                    self.spec_col(),
                    self.spec_processed().last(),
                ),
                Option::None => self.spec_processed().len() == 0,
            })
            &&& (self.spec_active() is Some ==> self.active_remaining() > SAFETY_MARGIN)
            &&& (self.spec_clean_groups() ==> {
                &&& !self.spec_pending_rotate()
                &&& forall|i: int|
                    0 <= i < self.spec_num_files() - 1 ==> (#[trigger] self.file_rows(i)).len() >= 1
                &&& (self.spec_num_files() > 1 ==> self.file_rows(
                    self.spec_num_files() - 1,
                ).len() >= 1)
                &&& forall|i: int|
                    0 <= i < self.spec_num_files() - 1 ==> row_key(
                        self.spec_col(),
                        (#[trigger] self.file_rows(i)).last(),
                    ) != row_key(self.spec_col(), self.file_rows(i + 1).first())
            })
        })
    }

    /// Whether this record starts a new run of its grouping key.
    pub open spec fn spec_boundary(self, row: RowView) -> bool {
        match self.spec_last_key() {
            Some(k) => k != row_key(self.spec_col(), row),
            Option::None => true,
        }
    }

    /// Whether the active buffer is flushed before this record is
    /// written: the row-count threshold was reached or the capacity
    /// margin was hit, evaluated at a run boundary when grouping.
    pub open spec fn spec_pre_flush(self, row: RowView) -> bool {
        if self.group_mode() {
            self.spec_boundary(row) && (self.spec_on_row() >= self.spec_max_rows()
                || self.active_remaining() <= SAFETY_MARGIN)
        } else {
            self.spec_on_row() >= self.spec_max_rows() || self.active_remaining() <= SAFETY_MARGIN
        }
    }

    /// Whether the active buffer is flushed right after this record is
    /// written: grouping is on and the record leaves no more than the
    /// margin behind.  This is the capacity-forced rotation that can
    /// split a group; the driver prefers bounded buffers over strict
    /// atomicity and records the split in `spec_clean_groups`.
    pub open spec fn spec_post_flush(self, row: RowView) -> bool {
        &&& self.group_mode()
        &&& !self.spec_pre_flush(row)
        &&& self.active_remaining() - encode::encoded_row(row).len() <= SAFETY_MARGIN
    }

    /// Whether taking this record submits the active buffer to the
    /// kernel.
    pub open spec fn spec_flushes(self, row: RowView) -> bool {
        self.spec_pre_flush(row) || self.spec_post_flush(row)
    }

    /// Whether taking this record opens a new output file, so the caller
    /// must create one and pass its descriptor.
    pub open spec fn spec_rotates(self, row: RowView) -> bool {
        ||| self.spec_pending_rotate()
        ||| (if self.group_mode() {
            self.spec_boundary(row) && self.spec_on_row() >= self.spec_max_rows()
        } else {
            self.spec_on_row() >= self.spec_max_rows()
        })
    }

    /// A record the driver accepts: at least one field, an encoding that
    /// fits inside the safety margin, and a key column it can read when
    /// grouping.
    pub open spec fn row_fits(self, row: RowView) -> bool {
        &&& row.len() >= 1
        &&& encode::encoded_row(row).len() <= SAFETY_MARGIN
        &&& (self.group_mode() ==> self.spec_col() < row.len())
    }

    /// Headroom in the machine-sized counters: request ids, file offsets,
    /// the file table and the row counter can all take one more step.
    pub open spec fn can_take(self) -> bool {
        &&& self.spec_cache().can_accept()
        &&& self.spec_cache().targets().len() < i32::MAX
        &&& self.spec_on_row() < usize::MAX
    }

    /// A driver over `count` buffers of `size` bytes each, splitting at
    /// `max_rows` records per file, grouping by `group_col` if given, and
    /// writing first to the already created file `fd`.  One buffer is
    /// lent to the driver at once, so at least two must exist for a flush
    /// to have a successor buffer available.
    pub fn new(count: usize, size: usize, max_rows: usize, group_col: Option<usize>, fd: i32) -> (s:
        Splitter)
        requires
            count >= 2,
            size > 2 * SAFETY_MARGIN,
            max_rows >= 1,
        ensures
            s.wf(),
            s.spec_active() is Some,
            s.spec_processed() == Seq::<RowView>::empty(),
            s.spec_num_files() == 1,
            s.spec_counts() == seq![0usize],
            s.spec_on_row() == 0,
            s.spec_max_rows() == max_rows,
            s.spec_group_col() == group_col,
            s.spec_limit() == count,
            s.spec_clean_groups(),
            !s.spec_pending_rotate(),
            s.spec_cache().pending() == Map::<u64, PendingWrite>::empty(),
            s.spec_cache().pool().len() == count - 1,
    {
        let mut cache = BufferCache::new(count, size, fd);
        let active = cache.pop();
        let mut counts: Vec<usize> = Vec::new();
        counts.push(0);
        let s = Splitter {
            cache,
            active: Some(active),
            on_row: 0,
            counts,
            max_rows,
            group_col,
            last_key: Option::None,
            pending_rotate: false,
            processed: Ghost(Seq::empty()),
            clean_groups: Ghost(true),
        };
        proof {
            assert(s.all_files() =~= seq![s.file_rows(0)]);
            assert(s.file_rows(0) =~= Seq::<RowView>::empty());
            s.all_files().lemma_flatten_one_element();
            assert(s.all_files().flatten() =~= Seq::<RowView>::empty());
            assert(s.spec_counts() =~= seq![0usize]);
        }
        s
    }

    /// Moves the active buffer out, leaving the driver without one.
    fn take_active(&mut self) -> (b: CsvBuffer)
        requires
            old(self).spec_active() is Some,
        ensures
            b == old(self).spec_active().unwrap(),
            final(self).spec_active() is None,
            final(self).spec_cache() == old(self).spec_cache(),
            final(self).spec_on_row() == old(self).spec_on_row(),
            final(self).spec_counts() == old(self).spec_counts(),
            final(self).spec_max_rows() == old(self).spec_max_rows(),
            final(self).spec_group_col() == old(self).spec_group_col(),
            final(self).spec_last_key() == old(self).spec_last_key(),
            final(self).spec_pending_rotate() == old(self).spec_pending_rotate(),
            final(self).spec_processed() == old(self).spec_processed(),
            final(self).spec_clean_groups() == old(self).spec_clean_groups(),
    {
        let mut slot: Option<CsvBuffer> = Option::None;
        core::mem::swap(&mut self.active, &mut slot);
        match slot {
            Some(b) => b,
            Option::None => vstd::pervasive::unreached(),
        }
    }

    /// How many output files exist.
    pub fn num_files(&self) -> (r: usize)
        ensures
            r == self.spec_num_files(),
    {
        self.cache.num_files()
    }

    /// How many records output file `i` holds.
    pub fn file_row_count(&self, i: usize) -> (r: usize)
        requires
            self.wf(),
            i < self.spec_num_files(),
        ensures
            r == self.file_rows(i as int).len(),
    {
        self.counts[i]
    }

    /// How many free buffers the pool holds.
    pub fn free_buffers(&self) -> (r: usize)
        ensures
            r == self.spec_cache().pool().len(),
    {
        self.cache.free_buffers()
    }

    /// How many writes are in flight.
    pub fn in_flight(&self) -> (r: u32)
        requires
            self.wf(),
        ensures
            r as nat == self.spec_cache().spec_in_flight(),
    {
        self.cache.in_flight()
    }

    /// Looks up what an in-flight request must carry to the kernel.
    pub fn pending_write(&self, id: u64) -> (r: Option<&PendingWrite>)
        requires
            self.wf(),
        ensures
            match r {
                Some(p) => self.spec_cache().pending().contains_key(id) && *p
                    == self.spec_cache().pending()[id],
                Option::None => !self.spec_cache().pending().contains_key(id),
            },
    {
        self.cache.pending_write(id)
    }

    /// Whether the machine-sized counters can take one more record; a
    /// caller that cannot establish this statically tests it here and
    /// fails as on any other unrecoverable condition.
    pub fn ready(&self) -> (r: bool)
        requires
            self.wf(),
        ensures
            r == self.can_take(),
    {
        self.cache.can_accept_now() && self.cache.num_files() < i32::MAX as usize && self.on_row
            < usize::MAX
    }

    /// Whether a record can be admitted at all: it has at least one field
    /// and its encoding fits inside the safety margin.  A record that
    /// does not fit indicates misconfiguration — the buffers are too
    /// small for the data — and the caller must treat it as fatal.
    pub fn row_fits_margin(row: &Vec<Vec<u8>>) -> (r: bool)
        ensures
            r == (row@.len() >= 1 && encode::encoded_row(row.deep_view()).len() <= SAFETY_MARGIN),
    {
        if row.len() == 0 {
            return false;
        }
        let mut scratch: Vec<u8> = Vec::new();
        encode::push_row(&mut scratch, row);
        scratch.len() <= SAFETY_MARGIN
    }

    /// Whether the pool is exhausted, so the caller must wait for the
    /// whole in-flight set to complete and feed the ids to `recover`
    /// before the next record.  This is the engine's sole blocking point.
    pub fn must_recover(&self) -> (r: bool)
        ensures
            r == (self.spec_cache().pool().len() == 0),
    {
        self.cache.free_buffers() == 0
    }

    /// Whether taking this record will open a new output file: the
    /// caller must then create the file and pass its descriptor to
    /// `push_row`.
    pub fn needs_file(&self, row: &Vec<Vec<u8>>) -> (r: bool)
        requires
            self.group_mode() ==> self.spec_col() < row@.len(),
        ensures
            r == self.spec_rotates(row.deep_view()),
    {
        proof {
            if self.group_mode() {
                let col = self.spec_col();
                assert(row@[col].deep_view() =~= row@[col]@);
            }
        }
        if self.pending_rotate {
            return true;
        }
        match self.group_col {
            Some(col) => {
                let boundary = match &self.last_key {
                    Some(k) => !bytes_eq(k.as_slice(), row[col].as_slice()),
                    Option::None => true,
                };
                boundary && self.on_row >= self.max_rows
            },
            Option::None => self.on_row >= self.max_rows,
        }
    }

    /// Restores the whole completed in-flight set to the pool; see the
    /// buffer cache's `recover`.
    pub fn recover(&mut self, completions: &Vec<u64>)
        requires
            old(self).wf(),
            completions@.no_duplicates(),
            forall|i: int|
                0 <= i < completions@.len() ==> old(self).spec_cache().pending().contains_key(
                    #[trigger] completions@[i],
                ),
            completions@.len() == old(self).spec_cache().spec_in_flight(),
        ensures
            final(self).wf(),
            final(self).spec_cache().pending() == Map::<u64, PendingWrite>::empty(),
            final(self).spec_cache().pool().len() == old(self).spec_cache().pool().len()
                + completions@.len(),
            final(self).spec_cache().targets() == old(self).spec_cache().targets(),
            final(self).spec_active() == old(self).spec_active(),
            final(self).spec_on_row() == old(self).spec_on_row(),
            final(self).spec_counts() == old(self).spec_counts(),
            final(self).spec_max_rows() == old(self).spec_max_rows(),
            final(self).spec_group_col() == old(self).spec_group_col(),
            final(self).spec_last_key() == old(self).spec_last_key(),
            final(self).spec_pending_rotate() == old(self).spec_pending_rotate(),
            final(self).spec_processed() == old(self).spec_processed(),
            final(self).spec_clean_groups() == old(self).spec_clean_groups(),
            final(self).spec_limit() == old(self).spec_limit(),
    {
        self.cache.recover(completions);
        proof {
            lemma_same_files(*old(self), *self);
        }
    }

    /// Takes one record.  The buffer is flushed and the file rotated as
    /// the policy demands; the record is then encoded into the active
    /// buffer.  Returns the request id of the flushed write, if one was
    /// submitted: the caller must issue it to the kernel.  The caller
    /// asks `needs_file` whether to pass a fresh descriptor, and
    /// `must_recover` whether the pool must be replenished first.
    pub fn push_row(&mut self, row: &Vec<Vec<u8>>, new_fd: Option<i32>) -> (submitted: Option<
        u64,
    >)
        requires
            old(self).wf(),
            old(self).spec_active() is Some,
            old(self).row_fits(row.deep_view()),
            old(self).can_take(),
            old(self).spec_flushes(row.deep_view()) ==> old(self).spec_cache().pool().len() >= 1,
            (new_fd is Some) == old(self).spec_rotates(row.deep_view()),
        ensures
            final(self).wf(),
            final(self).spec_active() is Some,
            final(self).spec_processed() == old(self).spec_processed().push(row.deep_view()),
            final(self).spec_max_rows() == old(self).spec_max_rows(),
            final(self).spec_group_col() == old(self).spec_group_col(),
            final(self).spec_limit() == old(self).spec_limit(),
            (submitted is Some) == old(self).spec_flushes(row.deep_view()),
            submitted is Some ==> final(self).spec_cache().pending().contains_key(
                submitted.unwrap(),
            ),
            final(self).spec_num_files() == old(self).spec_num_files() + (if old(
                self,
            ).spec_rotates(row.deep_view()) {
                1int
            } else {
                0int
            }),
            final(self).spec_clean_groups() == (old(self).spec_clean_groups() && !old(
                self,
            ).spec_post_flush(row.deep_view())),
    {
        match self.group_col {
            Some(_) => self.push_grouped(row, new_fd),
            Option::None => self.push_plain(row, new_fd),
        }
    }

    /// The rotation policy without grouping: purely row-count- and
    /// capacity-driven.  The row-count threshold closes the file; mere
    /// capacity exhaustion only flushes the buffer and keeps filling the
    /// same file.
    fn push_plain(&mut self, row: &Vec<Vec<u8>>, new_fd: Option<i32>) -> (submitted: Option<u64>)
        requires
            old(self).wf(),
            !old(self).group_mode(),
            old(self).spec_active() is Some,
            old(self).row_fits(row.deep_view()),
            old(self).can_take(),
            old(self).spec_flushes(row.deep_view()) ==> old(self).spec_cache().pool().len() >= 1,
            (new_fd is Some) == old(self).spec_rotates(row.deep_view()),
        ensures
            final(self).wf(),
            final(self).spec_active() is Some,
            final(self).spec_processed() == old(self).spec_processed().push(row.deep_view()),
            final(self).spec_max_rows() == old(self).spec_max_rows(),
            final(self).spec_group_col() == old(self).spec_group_col(),
            final(self).spec_limit() == old(self).spec_limit(),
            (submitted is Some) == old(self).spec_flushes(row.deep_view()),
            submitted is Some ==> final(self).spec_cache().pending().contains_key(
                submitted.unwrap(),
            ),
            final(self).spec_num_files() == old(self).spec_num_files() + (if old(
                self,
            ).spec_rotates(row.deep_view()) {
                1int
            } else {
                0int
            }),
            final(self).spec_clean_groups() == old(self).spec_clean_groups(),
    {
        let ghost rv = row.deep_view();
        let mut submitted: Option<u64> = Option::None;
        let rem = match &self.active {
            Some(b) => b.remaining(),
            Option::None => vstd::pervasive::unreached(),
        };
        if self.on_row >= self.max_rows || rem <= SAFETY_MARGIN {
            let rotate = self.on_row >= self.max_rows;
            let ghost s0 = *self;
            let buf = self.take_active();
            let id = self.cache.submit(buf);
            submitted = Some(id);
            proof {
                assert(self.spec_cache().targets().last().spec_rows() =~= s0.spec_cache().targets().last().spec_rows()
                    + s0.active_rows());
                lemma_finish_files(s0, *self);
            }
            if rotate {
                let fd = match new_fd {
                    Some(fd) => fd,
                    Option::None => vstd::pervasive::unreached(),
                };
                let ghost s1 = *self;
                self.cache.next(fd);
                self.counts.push(0);
                self.on_row = 0;
                proof {
                    assert(s1.active_rows() =~= Seq::<RowView>::empty());
                    lemma_rotate_files(s1, *self);
                }
            }
            let ghost s2 = *self;
            let fresh = self.cache.pop();
            self.active = Some(fresh);
            proof {
                assert(self.active_rows() =~= s2.active_rows());
                lemma_same_files(s2, *self);
            }
        }
        let ghost s3 = *self;
        match &mut self.active {
            Some(b) => {
                b.write_row(row);
            },
            Option::None => vstd::pervasive::unreached(),
        }
        self.on_row = self.on_row + 1;
        let c = match self.counts.pop() {
            Some(c) => c,
            Option::None => vstd::pervasive::unreached(),
        };
        self.counts.push(c + 1);
        proof {
            self.processed@ = self.processed@.push(rv);
            assert(self.active_rows() =~= s3.active_rows().push(rv));
            lemma_write_files(s3, *self, rv);
            assert(self.spec_counts() =~= s3.spec_counts().update(
                s3.spec_counts().len() - 1,
                (s3.spec_counts().last() + 1) as usize,
            ));
            let n = self.spec_num_files() as int;
            assert(self.spec_processed().len() == (n - 1) * self.spec_max_rows()
                + self.spec_on_row()) by {
                if old(self).spec_rotates(rv) {
                    let m = self.spec_max_rows() as int;
                    let n0 = old(self).spec_num_files() as int;
                    assert(n0 * m == (n0 - 1) * m + m) by (nonlinear_arith);
                }
            }
        }
        submitted
    }

    /// The rotation policy with grouping: rotation decisions are taken at
    /// run boundaries, so a run of equal keys stays in one file — unless
    /// a record leaves no more than the safety margin behind, in which
    /// case the buffer is flushed at once and the file rotated before the
    /// next record, splitting the run.  The driver prefers the bounded
    /// buffer over strict atomicity and records such splits in
    /// `spec_clean_groups`.
    fn push_grouped(&mut self, row: &Vec<Vec<u8>>, new_fd: Option<i32>) -> (submitted: Option<
        u64,
    >)
        requires
            old(self).wf(),
            old(self).group_mode(),
            old(self).spec_active() is Some,
            old(self).row_fits(row.deep_view()),
            old(self).can_take(),
            old(self).spec_flushes(row.deep_view()) ==> old(self).spec_cache().pool().len() >= 1,
            (new_fd is Some) == old(self).spec_rotates(row.deep_view()),
        ensures
            final(self).wf(),
            final(self).spec_active() is Some,
            final(self).spec_processed() == old(self).spec_processed().push(row.deep_view()),
            final(self).spec_max_rows() == old(self).spec_max_rows(),
            final(self).spec_group_col() == old(self).spec_group_col(),
            final(self).spec_limit() == old(self).spec_limit(),
            (submitted is Some) == old(self).spec_flushes(row.deep_view()),
            submitted is Some ==> final(self).spec_cache().pending().contains_key(
                submitted.unwrap(),
            ),
            final(self).spec_num_files() == old(self).spec_num_files() + (if old(
                self,
            ).spec_rotates(row.deep_view()) {
                1int
            } else {
                0int
            }),
            final(self).spec_clean_groups() == (old(self).spec_clean_groups() && !old(
                self,
            ).spec_post_flush(row.deep_view())),
    {
        let ghost rv = row.deep_view();
        let col = match self.group_col {
            Some(c) => c,
            Option::None => vstd::pervasive::unreached(),
        };
        proof {
            assert(row@[col as int].deep_view() =~= row@[col as int]@);
        }
        let mut submitted: Option<u64> = Option::None;
        // A capacity-forced flush left a rotation behind: open the new
        // file before anything else is written.
        if self.pending_rotate {
            let fd = match new_fd {
                Some(fd) => fd,
                Option::None => vstd::pervasive::unreached(),
            };
            let ghost s0 = *self;
            self.cache.next(fd);
            self.counts.push(0);
            self.pending_rotate = false;
            proof {
                assert(s0.active_rows() =~= Seq::<RowView>::empty());
                assert(self.active_rows() =~= Seq::<RowView>::empty());
                lemma_rotate_files(s0, *self);
            }
        }
        let boundary = match &self.last_key {
            Some(k) => !bytes_eq(k.as_slice(), row[col].as_slice()),
            Option::None => true,
        };
        let rem = match &self.active {
            Some(b) => b.remaining(),
            Option::None => vstd::pervasive::unreached(),
        };
        // Rotation points are only evaluated where a new run begins.
        if boundary && (self.on_row >= self.max_rows || rem <= SAFETY_MARGIN) {
            let rotate = self.on_row >= self.max_rows;
            let ghost s1 = *self;
            let buf = self.take_active();
            let id = self.cache.submit(buf);
            submitted = Some(id);
            proof {
                assert(self.spec_cache().targets().last().spec_rows() =~= s1.spec_cache().targets().last().spec_rows()
                    + s1.active_rows());
                lemma_finish_files(s1, *self);
            }
            if rotate {
                let fd = match new_fd {
                    Some(fd) => fd,
                    Option::None => vstd::pervasive::unreached(),
                };
                let ghost s2 = *self;
                self.cache.next(fd);
                self.counts.push(0);
                self.on_row = 0;
                proof {
                    assert(s2.active_rows() =~= Seq::<RowView>::empty());
                    assert(self.active_rows() =~= Seq::<RowView>::empty());
                    lemma_rotate_files(s2, *self);
                    let n0 = s1.spec_num_files() as int;
                    if s1.spec_clean_groups() {
                        lemma_flatten_last(s1.all_files());
                    }
                }
            }
            let ghost s3 = *self;
            let fresh = self.cache.pop();
            self.active = Some(fresh);
            proof {
                assert(self.active_rows() =~= s3.active_rows());
                lemma_same_files(s3, *self);
            }
        }
        // Encode the record into the active buffer.
        let ghost s4 = *self;
        let rem_after = match &mut self.active {
            Some(b) => b.write_row(row),
            Option::None => vstd::pervasive::unreached(),
        };
        self.on_row = self.on_row + 1;
        let c = match self.counts.pop() {
            Some(c) => c,
            Option::None => vstd::pervasive::unreached(),
        };
        self.counts.push(c + 1);
        self.last_key = Some(vstd::slice::slice_to_vec(row[col].as_slice()));
        proof {
            self.processed@ = self.processed@.push(rv);
            assert(self.active_rows() =~= s4.active_rows().push(rv));
            lemma_write_files(s4, *self, rv);
            assert(self.spec_counts() =~= s4.spec_counts().update(
                s4.spec_counts().len() - 1,
                (s4.spec_counts().last() + 1) as usize,
            ));
            assert(self.all_files().flatten() == self.spec_processed());
            assert(forall|i: int|
                0 <= i < self.spec_num_files() ==> self.spec_counts()[i] == (
                #[trigger] self.file_rows(i)).len());
        }
        // The capacity-forced flush: the record left no more than the
        // margin behind, so the buffer goes out now and the file is
        // rotated before the next record, wherever the run stands.
        let ghost written = *self;
        if rem_after <= SAFETY_MARGIN {
            self.pending_rotate = true;
            self.on_row = 0;
            proof {
                self.clean_groups@ = false;
            }
            let ghost s5 = *self;
            proof {
                lemma_same_files(written, s5);
            }
            let buf = self.take_active();
            let id = self.cache.submit(buf);
            submitted = Some(id);
            proof {
                assert(self.spec_cache().targets().last().spec_rows() =~= s5.spec_cache().targets().last().spec_rows()
                    + s5.active_rows());
                lemma_finish_files(s5, *self);
            }
            let ghost s6 = *self;
            let fresh = self.cache.pop();
            self.active = Some(fresh);
            proof {
                assert(self.active_rows() =~= s6.active_rows());
                lemma_same_files(s6, *self);
            }
        }
        submitted
    }

    /// Ends the input: if the active buffer holds any records, it is
    /// submitted against the current file (no further rotation); an
    /// empty buffer goes back to the pool.  Either way the driver
    /// relinquishes its buffer.
    pub fn finish(&mut self) -> (r: Option<u64>)
        requires
            old(self).wf(),
            old(self).spec_active() is Some,
            old(self).spec_cache().can_accept(),
        ensures
            final(self).wf(),
            final(self).spec_active() is None,
            final(self).spec_processed() == old(self).spec_processed(),
            final(self).spec_num_files() == old(self).spec_num_files(),
            final(self).spec_counts() == old(self).spec_counts(),
            forall|i: int|
                0 <= i < old(self).spec_num_files() ==> final(self).file_rows(i) == old(
                    self,
                ).file_rows(i),
            (r is Some) == (old(self).active_rows().len() > 0),
            r is Some ==> final(self).spec_cache().pending().contains_key(r.unwrap()),
    {
        let ghost old_self = *self;
        let buf = self.take_active();
        if buf.pos() > 0 {
            let id = self.cache.submit(buf);
            proof {
                lemma_finish_files(old_self, *self);
            }
            Some(id)
        } else {
            proof {
                assert(buf.rows() =~= Seq::<RowView>::empty());
            }
            self.cache.restore(buf);
            proof {
                lemma_finish_files(old_self, *self);
            }
            Option::None
        }
    }
}

/// Two driver states with the same file table and the same records in the
/// active buffer assign the same records to every file.
proof fn lemma_same_files(pre: Splitter, post: Splitter)
    requires
        post.spec_cache().targets() == pre.spec_cache().targets(),
        post.active_rows() == pre.active_rows(),
    ensures
        forall|i: int| post.file_rows(i) == pre.file_rows(i),
        post.all_files() == pre.all_files(),
{
    assert forall|i: int| post.file_rows(i) == pre.file_rows(i) by {}
    assert(post.all_files() =~= pre.all_files());
}

/// Replacing the last of a sequence of sequences with itself plus a tail
/// appends that tail to the flattened whole.
proof fn lemma_flatten_update_last<A>(ss: Seq<Seq<A>>, extra: Seq<A>)
    requires
        ss.len() >= 1,
    ensures
        ss.update(ss.len() - 1, ss.last() + extra).flatten() == ss.flatten() + extra,
{
    let n = ss.len() as int;
    let t = ss.update(n - 1, ss.last() + extra);
    ss.lemma_flatten_and_flatten_alt_are_equivalent();
    t.lemma_flatten_and_flatten_alt_are_equivalent();
    assert(t.drop_last() =~= ss.drop_last());
    assert(t.flatten_alt() == t.drop_last().flatten_alt() + t.last());
    assert(ss.flatten_alt() == ss.drop_last().flatten_alt() + ss.last());
    assert(t.flatten() =~= ss.flatten() + extra);
}

/// Writing one record into the active buffer appends it to the last
/// file's records and to the flattened whole.
proof fn lemma_write_files(pre: Splitter, post: Splitter, rv: RowView)
    requires
        post.spec_cache().targets() == pre.spec_cache().targets(),
        pre.spec_num_files() >= 1,
        post.active_rows() == pre.active_rows().push(rv),
    ensures
        forall|i: int|
            0 <= i < pre.spec_num_files() - 1 ==> post.file_rows(i) == pre.file_rows(i),
        post.file_rows(pre.spec_num_files() - 1) == pre.file_rows(pre.spec_num_files() - 1)
            + seq![rv],
        post.all_files() == pre.all_files().update(
            pre.spec_num_files() - 1,
            pre.file_rows(pre.spec_num_files() - 1) + seq![rv],
        ),
        post.all_files().flatten() == pre.all_files().flatten().push(rv),
{
    let n = pre.spec_num_files() as int;
    assert(post.file_rows(n - 1) =~= pre.file_rows(n - 1) + seq![rv]);
    assert forall|i: int| 0 <= i < n - 1 implies post.file_rows(i) == pre.file_rows(i) by {}
    assert(post.all_files() =~= pre.all_files().update(n - 1, pre.file_rows(n - 1) + seq![rv]));
    assert(pre.all_files().last() == pre.file_rows(n - 1));
    lemma_flatten_update_last(pre.all_files(), seq![rv]);
    assert(pre.all_files().flatten() + seq![rv] =~= pre.all_files().flatten().push(rv));
}

/// Opening a new, still empty file extends the file table but leaves the
/// flattened records unchanged.  It applies when the active buffer is
/// empty, which rotation guarantees: the buffer was just submitted.
proof fn lemma_rotate_files(pre: Splitter, post: Splitter)
    requires
        pre.active_rows() == Seq::<RowView>::empty(),
        post.active_rows() == Seq::<RowView>::empty(),
        pre.spec_num_files() >= 1,
        post.spec_cache().targets().len() == pre.spec_cache().targets().len() + 1,
        forall|i: int|
            0 <= i < pre.spec_num_files() ==> post.spec_cache().targets()[i] == pre.spec_cache().targets()[i],
        post.spec_cache().targets().last().spec_rows() == Seq::<RowView>::empty(),
    ensures
        forall|i: int| 0 <= i < pre.spec_num_files() ==> post.file_rows(i) == pre.file_rows(i),
        post.file_rows(post.spec_num_files() - 1) == Seq::<RowView>::empty(),
        post.all_files() == pre.all_files().push(Seq::<RowView>::empty()),
        post.all_files().flatten() == pre.all_files().flatten(),
{
    let n = pre.spec_num_files() as int;
    assert forall|i: int| 0 <= i < n implies post.file_rows(i) == pre.file_rows(i) by {
        if i == n - 1 {
            assert(post.file_rows(i) =~= pre.file_rows(i));
        }
    }
    assert(post.file_rows(post.spec_num_files() - 1) =~= Seq::<RowView>::empty());
    assert(post.all_files() =~= pre.all_files().push(Seq::<RowView>::empty()));
    pre.all_files().lemma_flatten_push(Seq::<RowView>::empty());
    assert(pre.all_files().flatten() + Seq::<RowView>::empty() =~= pre.all_files().flatten());
}

/// Buffer accounting: while the driver holds its buffer, the free pool,
/// the writes in flight and that one buffer add up to the concurrency
/// limit, so the engine never allocates beyond its fixed pool.
pub proof fn lemma_buffer_accounting(s: Splitter)
    requires
        s.wf(),
        s.spec_active() is Some,
    ensures
        s.spec_cache().pool().len() + s.spec_cache().spec_in_flight() + 1 == s.spec_limit(),
{
}

/// Conservation: the records of the output files, in file order then
/// intra-file order, are exactly the records fed in — none lost,
/// duplicated or reordered.  Moreover each file's submitted bytes are
/// exactly the encodings of its submitted records, and its offset their
/// length.
pub proof fn lemma_conservation(s: Splitter)
    requires
        s.wf(),
    ensures
        s.all_files().flatten() == s.spec_processed(),
        forall|i: int|
            0 <= i < s.spec_num_files() ==> (#[trigger] s.spec_cache().targets()[i]).spec_offset()
                == crate::buffer::encoded_rows(s.spec_cache().targets()[i].spec_rows()).len(),
{
}

/// Row-count invariant: without grouping, every output file except
/// possibly the last holds exactly `max_rows` records, and the last holds
/// the remainder of the total count — `max_rows` itself when the total
/// divides evenly.
pub proof fn lemma_row_count_invariant(s: Splitter)
    requires
        s.wf(),
        !s.group_mode(),
    ensures
        forall|i: int|
            0 <= i < s.spec_num_files() - 1 ==> (#[trigger] s.file_rows(i)).len()
                == s.spec_max_rows(),
        s.spec_processed().len() == 0 ==> s.spec_num_files() == 1 && s.file_rows(0).len() == 0,
        s.spec_processed().len() > 0 ==> {
            let last = s.file_rows(s.spec_num_files() - 1);
            if s.spec_processed().len() % (s.spec_max_rows() as nat) == 0 {
                last.len() == s.spec_max_rows()
            } else {
                last.len() == s.spec_processed().len() % (s.spec_max_rows() as nat)
            }
        },
{
    let n = s.spec_num_files() as int;
    let m = s.spec_max_rows() as int;
    let r = s.spec_on_row() as int;
    let total = s.spec_processed().len() as int;
    assert(s.file_rows(n - 1).len() == r);
    if total > 0 {
        assert(r >= 1) by {
            if n == 1 {
                assert((n - 1) * m == 0) by (nonlinear_arith)
                    requires
                        n == 1,
                ;
            }
        }
        if r == m {
            assert(total == n * m) by (nonlinear_arith)
                requires
                    total == (n - 1) * m + r,
                    r == m,
            ;
            vstd::arithmetic::div_mod::lemma_mod_multiples_basic(n, m);
        } else {
            vstd::arithmetic::div_mod::lemma_mod_multiples_vanish(n - 1, r, m);
            assert(m * (n - 1) == (n - 1) * m) by (nonlinear_arith);
            vstd::arithmetic::div_mod::lemma_small_mod(r as nat, m as nat);
        }
    }
}

/// The number of records that stand before file `f` in the flattened
/// output.
spec fn prefix_len<A>(ss: Seq<Seq<A>>, f: int) -> nat {
    ss.take(f).flatten().len()
}

/// Each file adds its own length to the prefix before its successor.
proof fn lemma_prefix_len_step<A>(ss: Seq<Seq<A>>, f: int)
    requires
        0 <= f < ss.len(),
    ensures
        prefix_len(ss, f + 1) == prefix_len(ss, f) + ss[f].len(),
{
    assert(ss.take(f + 1) =~= ss.take(f).push(ss[f]));
    ss.take(f).lemma_flatten_push(ss[f]);
}

/// Prefix lengths never shrink.
proof fn lemma_prefix_len_mono<A>(ss: Seq<Seq<A>>, a: int, b: int)
    requires
        0 <= a <= b <= ss.len(),
    ensures
        prefix_len(ss, a) <= prefix_len(ss, b),
    decreases b - a,
{
    if a < b {
        lemma_prefix_len_step(ss, a);
        lemma_prefix_len_mono(ss, a + 1, b);
    }
}

/// Row `i` of file `f` stands at position `prefix_len(ss, f) + i` of the
/// flattened output.
proof fn lemma_flatten_index<A>(ss: Seq<Seq<A>>, f: int, i: int)
    requires
        0 <= f < ss.len(),
        0 <= i < ss[f].len(),
    ensures
        prefix_len(ss, f) + i < ss.flatten().len(),
        ss.flatten()[prefix_len(ss, f) + i] == ss[f][i],
{
    assert(ss =~= ss.take(f + 1) + ss.skip(f + 1));
    vstd::seq_lib::lemma_flatten_concat(ss.take(f + 1), ss.skip(f + 1));
    assert(ss.take(f + 1) =~= ss.take(f).push(ss[f]));
    ss.take(f).lemma_flatten_push(ss[f]);
    assert(ss.flatten() == (ss.take(f).flatten() + ss[f]) + ss.skip(f + 1).flatten());
    assert((ss.take(f).flatten() + ss[f])[prefix_len(ss, f) + i] == ss[f][i]);
}

/// Group atomicity, capacity permitting: with grouping configured, input
/// pre-sorted by the key column, and no capacity-forced rotation on
/// record, records with equal keys never land in two different output
/// files — every group occupies exactly one file.
pub proof fn lemma_group_atomicity(s: Splitter)
    requires
        s.wf(),
        s.group_mode(),
        s.spec_clean_groups(),
        grouped_by(s.spec_processed(), s.spec_col()),
    ensures
        forall|f1: int, f2: int, i: int, j: int|
            0 <= f1 < f2 < s.spec_num_files() && 0 <= i < s.file_rows(f1).len() && 0 <= j
                < s.file_rows(f2).len() ==> row_key(s.spec_col(), #[trigger] s.file_rows(f1)[i])
                != row_key(s.spec_col(), #[trigger] s.file_rows(f2)[j]),
{
    let files = s.all_files();
    let col = s.spec_col();
    let flat = files.flatten();
    let n = s.spec_num_files() as int;
    assert forall|f1: int, f2: int, i: int, j: int|
        0 <= f1 < f2 < s.spec_num_files() && 0 <= i < s.file_rows(f1).len() && 0 <= j
            < s.file_rows(f2).len() implies row_key(col, #[trigger] s.file_rows(f1)[i]) != row_key(
        col,
        #[trigger] s.file_rows(f2)[j],
    ) by {
        if row_key(col, s.file_rows(f1)[i]) == row_key(col, s.file_rows(f2)[j]) {
            let fb = f2 - 1;
            assert(files[f1] == s.file_rows(f1));
            assert(files[f2] == s.file_rows(f2));
            assert(files[fb] == s.file_rows(fb));
            assert(files[fb].len() >= 1);
            let p1 = prefix_len(files, f1) + i;
            let p2 = prefix_len(files, f2) + j;
            let lb = prefix_len(files, fb) + (files[fb].len() - 1);
            lemma_flatten_index(files, f1, i);
            lemma_flatten_index(files, f2, j);
            lemma_flatten_index(files, fb, files[fb].len() - 1);
            lemma_flatten_index(files, f2, 0);
            lemma_prefix_len_step(files, fb);
            lemma_prefix_len_step(files, f1);
            lemma_prefix_len_mono(files, f1 + 1, fb + 1);
            assert(p1 <= lb);
            assert(lb + 1 == prefix_len(files, f2));
            assert(prefix_len(files, f2) <= p2);
            assert(flat == s.spec_processed());
            assert(row_key(col, flat[lb]) == row_key(col, flat[p1 as int]));
            assert(row_key(col, flat[lb + 1]) == row_key(col, flat[p1 as int]));
            assert(flat[lb] == files[fb].last());
            assert(flat[lb + 1] == files[f2].first());
            assert(row_key(col, s.file_rows(fb).last()) != row_key(
                col,
                s.file_rows(fb + 1).first(),
            ));
            assert(false);
        }
    }
}

/// The last element of a flattened sequence of sequences is the last
/// element of its last, nonempty constituent.
proof fn lemma_flatten_last<A>(ss: Seq<Seq<A>>)
    requires
        ss.len() >= 1,
        ss.last().len() >= 1,
    ensures
        ss.flatten().len() >= 1,
        ss.flatten().last() == ss.last().last(),
{
    ss.lemma_flatten_and_flatten_alt_are_equivalent();
    assert(ss.flatten_alt() == ss.drop_last().flatten_alt() + ss.last());
    assert(ss.flatten_alt().last() == ss.last().last());
}

/// After the driver gives its buffer up, each file's records are
/// unchanged: the active buffer's records moved into the last file's
/// submitted history, or there were none.
proof fn lemma_finish_files(pre: Splitter, post: Splitter)
    requires
        pre.spec_num_files() == post.spec_num_files(),
        post.spec_num_files() >= 1,
        post.spec_active() is None,
        forall|i: int|
            0 <= i < pre.spec_num_files() - 1 ==> post.spec_cache().targets()[i] == pre.spec_cache().targets()[i],
        post.spec_cache().targets().last().spec_rows() == pre.spec_cache().targets().last().spec_rows()
            + pre.active_rows(),
    ensures
        forall|i: int| 0 <= i < pre.spec_num_files() ==> post.file_rows(i) == pre.file_rows(i),
        post.all_files() == pre.all_files(),
        post.all_files().flatten() == pre.all_files().flatten(),
{
    let n = pre.spec_num_files() as int;
    assert forall|i: int| 0 <= i < n implies post.file_rows(i) == pre.file_rows(i) by {
        if i == n - 1 {
            assert(post.file_rows(i) =~= pre.spec_cache().targets().last().spec_rows()
                + pre.active_rows());
            assert(pre.file_rows(i) =~= pre.spec_cache().targets().last().spec_rows()
                + pre.active_rows());
        }
    }
    assert(post.all_files() =~= pre.all_files());
}

} // verus!
