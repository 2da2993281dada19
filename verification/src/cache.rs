use vstd::prelude::*;

use crate::buffer::{encoded_rows, lemma_encoded_rows_concat, CsvBuffer, CsvBuffers, RowView, VectoredWrite};
use crate::writes::{IouWrites, PendingWrite};

verus! {

/// One destination file: its descriptor and its append offset.  The
/// offset only ever advances, by exactly the encoded length of each
/// buffer submitted against the file, applied at submission time; the
/// records those buffers carried are kept alongside as a ghost history.
pub struct FileWrapper {
    fd: i32,
    offset: usize,
    rows: Ghost<Seq<RowView>>,
}

impl FileWrapper {
    /// The file's descriptor.
    pub closed spec fn spec_fd(self) -> i32 {
        self.fd
    }

    /// The append offset: how many bytes have been submitted.
    pub closed spec fn spec_offset(self) -> usize {
        self.offset
    }

    /// The records submitted against this file, in submission order.
    pub closed spec fn spec_rows(self) -> Seq<RowView> {
        self.rows@
    }

    /// The offset is exactly the length of the encodings of the records
    /// submitted so far.
    pub open spec fn wf(self) -> bool {
        self.spec_offset() == encoded_rows(self.spec_rows()).len()
    }

    /// Wraps a freshly created, still empty file.  Creating the file and
    /// obtaining its descriptor is the embedding program's job.
    pub fn new(fd: i32) -> (f: FileWrapper)
        ensures
            f.wf(),
            f.spec_fd() == fd,
            f.spec_offset() == 0,
            f.spec_rows() == Seq::<RowView>::empty(),
    {
        let f = FileWrapper { fd, offset: 0, rows: Ghost(Seq::empty()) };
        proof {
            assert(Seq::<RowView>::empty().map_values(|r: RowView| crate::encode::encoded_row(r))
                =~= Seq::<Seq<u8>>::empty());
        }
        f
    }
}

/// The ordered history of output files created by rotation.  Only the
/// most recent file is ever written to; files, once superseded, are never
/// revisited.
pub struct SplitFileWrapper {
    files: Vec<FileWrapper>,
}

impl SplitFileWrapper {
    /// The rotation history, oldest first.
    pub closed spec fn targets(self) -> Seq<FileWrapper> {
        self.files@
    }

    /// There is always an active file, and every file's offset matches
    /// what was submitted against it.
    pub open spec fn wf(self) -> bool {
        &&& self.targets().len() >= 1
        &&& forall|i: int| 0 <= i < self.targets().len() ==> (#[trigger] self.targets()[i]).wf()
    }

    /// A history holding the first output file.
    pub fn new(fd: i32) -> (s: SplitFileWrapper)
        ensures
            s.wf(),
            s.targets().len() == 1,
            s.targets()[0].spec_fd() == fd,
            s.targets()[0].spec_offset() == 0,
            s.targets()[0].spec_rows() == Seq::<RowView>::empty(),
    {
        let mut files: Vec<FileWrapper> = Vec::new();
        files.push(FileWrapper::new(fd));
        SplitFileWrapper { files }
    }

    /// Appends a freshly created file and makes it active, returning its
    /// index in the history.
    pub fn next(&mut self, fd: i32) -> (id: i32)
        requires
            old(self).wf(),
            old(self).targets().len() < i32::MAX,
        ensures
            final(self).wf(),
            final(self).targets().len() == old(self).targets().len() + 1,
            forall|i: int|
                0 <= i < old(self).targets().len() ==> final(self).targets()[i] == old(self).targets()[i],
            final(self).targets().last().spec_fd() == fd,
            final(self).targets().last().spec_offset() == 0,
            final(self).targets().last().spec_rows() == Seq::<RowView>::empty(),
            id == old(self).targets().len(),
    {
        let file = FileWrapper::new(fd);
        let id = self.files.len();
        self.files.push(file);
        id as i32
    }

    /// How many files the history holds.
    pub fn num_files(&self) -> (r: usize)
        ensures
            r == self.targets().len(),
    {
        self.files.len()
    }

    /// The active file's descriptor and current offset.
    pub fn fd_offset(&self) -> (r: (i32, usize))
        requires
            self.wf(),
        ensures
            r.0 == self.targets().last().spec_fd(),
            r.1 == self.targets().last().spec_offset(),
    {
        let last = &self.files[self.files.len() - 1];
        (last.fd, last.offset)
    }

    /// Advances the active file's offset by the length of one submitted
    /// buffer and credits the records that buffer carried to the file.
    /// The advance happens at submission time: submissions against one
    /// file reach the kernel as an ordered chain, so the next write's
    /// offset is already determined.
    pub fn record_submit(&mut self, len: usize, rows: Ghost<Seq<RowView>>)
        requires
            old(self).wf(),
            encoded_rows(rows@).len() == len,
            old(self).targets().last().spec_offset() + len <= usize::MAX,
        ensures
            final(self).wf(),
            final(self).targets().len() == old(self).targets().len(),
            forall|i: int|
                0 <= i < old(self).targets().len() - 1 ==> final(self).targets()[i] == old(self).targets()[i],
            final(self).targets().last().spec_fd() == old(self).targets().last().spec_fd(),
            final(self).targets().last().spec_offset() == old(self).targets().last().spec_offset()
                + len,
            final(self).targets().last().spec_rows() == old(self).targets().last().spec_rows()
                + rows@,
    {
        let last = self.files.pop();
        let mut last = match last {
            Some(f) => f,
            Option::None => vstd::pervasive::unreached(),
        };
        proof {
            lemma_encoded_rows_concat(last.spec_rows(), rows@);
        }
        last.offset = last.offset + len;
        proof {
            last.rows@ = last.rows@ + rows@;
        }
        self.files.push(last);
        proof {
            assert(self.targets() =~= old(self).targets().update(
                old(self).targets().len() - 1,
                self.targets().last(),
            ));
        }
    }
}

/// The buffer cache: the pool of free record buffers, the pending-write
/// table and the rotation history, composed into the one engine the
/// record-splitting loop drives.  At all times the free buffers, the
/// buffers owned by in-flight writes and the buffers lent to the driver
/// add up to the concurrency limit the cache was created with.
pub struct BufferCache {
    buffers: CsvBuffers,
    writes: IouWrites,
    files: SplitFileWrapper,
    size: usize,
    count: Ghost<nat>,
    lent: Ghost<nat>,
}

impl BufferCache {
    /// The free buffer pool.
    pub closed spec fn pool(self) -> Seq<CsvBuffer> {
        self.buffers.pool()
    }

    /// The pending-write table.
    pub closed spec fn pending(self) -> Map<u64, PendingWrite> {
        self.writes.pending()
    }

    /// The rotation history.
    pub closed spec fn targets(self) -> Seq<FileWrapper> {
        self.files.targets()
    }

    /// The capacity every buffer was created with.
    pub closed spec fn spec_size(self) -> nat {
        self.size as nat
    }

    /// The concurrency limit: how many buffers exist in total.
    pub closed spec fn spec_count(self) -> nat {
        self.count@
    }

    /// How many buffers are currently lent out to the driver.
    pub closed spec fn spec_lent(self) -> nat {
        self.lent@
    }

    /// How many writes are in flight.
    pub open spec fn spec_in_flight(self) -> nat {
        self.pending().dom().len()
    }

    /// The id the next submission will get.
    pub closed spec fn spec_next_id(self) -> u64 {
        self.writes.spec_next_id()
    }

    /// The private parts of the invariant: the pool and the pending-write
    /// table are internally consistent.
    pub closed spec fn raw_wf(self) -> bool {
        &&& self.buffers.wf()
        &&& self.buffers.uniform(self.spec_size())
        &&& self.writes.wf()
        &&& self.files.wf()
    }

    /// The cache's invariant.  Its last clause is the buffer accounting:
    /// free buffers plus in-flight buffers plus buffers lent to the
    /// driver always equal the concurrency limit.
    pub open spec fn wf(self) -> bool {
        &&& self.raw_wf()
        &&& self.spec_size() <= usize::MAX
        &&& forall|k: u64|
            self.pending().contains_key(k) ==> (#[trigger] self.pending()[k]).write.capacity()
                == self.spec_size()
        &&& self.targets().len() >= 1
        &&& forall|i: int| 0 <= i < self.targets().len() ==> (#[trigger] self.targets()[i]).wf()
        &&& forall|i: int|
            0 <= i < self.pool().len() ==> {
                &&& (#[trigger] self.pool()[i]).wf()
                &&& self.pool()[i].bytes().len() == 0
                &&& self.pool()[i].rows().len() == 0
                &&& self.pool()[i].capacity() == self.spec_size()
            }
        &&& self.pool().len() + self.spec_in_flight() + self.spec_lent() == self.spec_count()
    }

    /// Room for one more submission: ids and counters cannot overflow and
    /// the active file's offset cannot outgrow the address space.
    pub open spec fn can_accept(self) -> bool {
        &&& self.spec_next_id() < u64::MAX
        &&& self.spec_in_flight() < u32::MAX as nat
        &&& self.targets().last().spec_offset() + self.spec_size() <= usize::MAX
    }

    /// A cache of `count` buffers of capacity `size`, writing to a first
    /// output file already created by the embedding program.
    pub fn new(count: usize, size: usize, fd: i32) -> (c: BufferCache)
        ensures
            c.wf(),
            c.spec_count() == count,
            c.spec_size() == size,
            c.spec_lent() == 0,
            c.pool().len() == count,
            c.pending() == Map::<u64, PendingWrite>::empty(),
            c.targets().len() == 1,
            c.targets()[0].spec_fd() == fd,
            c.targets()[0].spec_offset() == 0,
            c.targets()[0].spec_rows() == Seq::<RowView>::empty(),
    {
        BufferCache {
            buffers: CsvBuffers::new(count, size),
            writes: IouWrites::new(count as u32),
            files: SplitFileWrapper::new(fd),
            size,
            count: Ghost(count as nat),
            lent: Ghost(0),
        }
    }

    /// Whether one more submission can be taken: ids and counters have
    /// headroom and the active file's offset cannot outgrow the address
    /// space.
    pub fn can_accept_now(&self) -> (r: bool)
        requires
            self.wf(),
        ensures
            r == self.can_accept(),
    {
        let (_, offset) = self.files.fd_offset();
        self.writes.can_submit_now() && offset <= usize::MAX - self.size
    }

    /// How many free buffers the pool holds.
    pub fn free_buffers(&self) -> (r: usize)
        ensures
            r == self.pool().len(),
    {
        self.buffers.len()
    }

    /// How many writes are in flight.
    pub fn in_flight(&self) -> (r: u32)
        requires
            self.wf(),
        ensures
            r as nat == self.spec_in_flight(),
    {
        self.writes.in_flight()
    }

    /// How many output files have been created.
    pub fn num_files(&self) -> (r: usize)
        ensures
            r == self.targets().len(),
    {
        self.files.num_files()
    }

    /// Looks up what an in-flight request must carry to the kernel.
    pub fn pending_write(&self, id: u64) -> (r: Option<&PendingWrite>)
        requires
            self.wf(),
        ensures
            match r {
                Some(p) => self.pending().contains_key(id) && *p == self.pending()[id],
                Option::None => !self.pending().contains_key(id),
            },
    {
        self.writes.pending_write(id)
    }

    /// Lends one free buffer to the driver.  When the pool is empty the
    /// embedding program must first reclaim the in-flight set through
    /// `recover`; that wait on the kernel is the engine's sole blocking
    /// point.
    pub fn pop(&mut self) -> (b: CsvBuffer)
        requires
            old(self).wf(),
            old(self).pool().len() >= 1,
        ensures
            final(self).wf(),
            b.wf(),
            b.bytes().len() == 0,
            b.rows().len() == 0,
            b.capacity() == old(self).spec_size(),
            final(self).pool().len() == old(self).pool().len() - 1,
            final(self).spec_lent() == old(self).spec_lent() + 1,
            final(self).pending() == old(self).pending(),
            final(self).targets() == old(self).targets(),
            final(self).spec_size() == old(self).spec_size(),
            final(self).spec_count() == old(self).spec_count(),
            final(self).spec_next_id() == old(self).spec_next_id(),
    {
        let b = self.buffers.pop();
        proof {
            self.lent@ = self.lent@ + 1;
        }
        b
    }

    /// Submits a filled buffer against the active file: the buffer moves
    /// into the pending-write table under a fresh request id, and the
    /// file's offset advances by the buffer's written length.  Returns
    /// the id; reclaiming the buffer waits for `recover`.
    pub fn submit(&mut self, buffer: CsvBuffer) -> (id: u64)
        requires
            old(self).wf(),
            old(self).can_accept(),
            buffer.wf(),
            buffer.capacity() == old(self).spec_size(),
            old(self).spec_lent() >= 1,
        ensures
            final(self).wf(),
            id == old(self).spec_next_id(),
            !old(self).pending().contains_key(id),
            final(self).pending().dom() == old(self).pending().dom().insert(id),
            final(self).pending()[id].fd == old(self).targets().last().spec_fd(),
            final(self).pending()[id].offset == old(self).targets().last().spec_offset(),
            final(self).pending()[id].write.write_view() == buffer.bytes(),
            forall|k: u64|
                k != id && old(self).pending().contains_key(k) ==> final(self).pending().contains_key(k) && final(self).pending()[k] == old(self).pending()[k],
            final(self).targets().len() == old(self).targets().len(),
            forall|i: int|
                0 <= i < old(self).targets().len() - 1 ==> final(self).targets()[i] == old(self).targets()[i],
            final(self).targets().last().spec_fd() == old(self).targets().last().spec_fd(),
            final(self).targets().last().spec_offset() == old(self).targets().last().spec_offset()
                + buffer.bytes().len(),
            final(self).targets().last().spec_rows() == old(self).targets().last().spec_rows()
                + buffer.rows(),
            final(self).pool() == old(self).pool(),
            final(self).spec_lent() == old(self).spec_lent() - 1,
            final(self).spec_size() == old(self).spec_size(),
            final(self).spec_count() == old(self).spec_count(),
            final(self).spec_next_id() == old(self).spec_next_id() + 1,
    {
        let (fd, offset) = self.files.fd_offset();
        let len = buffer.pos();
        let ghost buffer_rows = buffer.rows();
        let id = self.writes.write_and_store(fd, buffer, offset);
        self.files.record_submit(len, Ghost(buffer_rows));
        proof {
            self.lent@ = (self.lent@ - 1) as nat;
        }
        id
    }

    /// Submits the filled buffer and immediately lends out a fresh one,
    /// so encoding continues without interruption.
    pub fn submit_and_pop(&mut self, buffer: CsvBuffer) -> (b: CsvBuffer)
        requires
            old(self).wf(),
            old(self).can_accept(),
            buffer.wf(),
            buffer.capacity() == old(self).spec_size(),
            old(self).spec_lent() >= 1,
            old(self).pool().len() >= 1,
        ensures
            final(self).wf(),
            b.wf(),
            b.bytes().len() == 0,
            b.rows().len() == 0,
            b.capacity() == old(self).spec_size(),
            final(self).pending().dom() == old(self).pending().dom().insert(
                old(self).spec_next_id(),
            ),
            final(self).pending()[old(self).spec_next_id()].write.write_view() == buffer.bytes(),
            final(self).targets().len() == old(self).targets().len(),
            forall|i: int|
                0 <= i < old(self).targets().len() - 1 ==> final(self).targets()[i] == old(self).targets()[i],
            final(self).targets().last().spec_fd() == old(self).targets().last().spec_fd(),
            final(self).targets().last().spec_offset() == old(self).targets().last().spec_offset()
                + buffer.bytes().len(),
            final(self).targets().last().spec_rows() == old(self).targets().last().spec_rows()
                + buffer.rows(),
            final(self).pool().len() == old(self).pool().len() - 1,
            final(self).spec_lent() == old(self).spec_lent(),
            final(self).spec_size() == old(self).spec_size(),
            final(self).spec_count() == old(self).spec_count(),
            final(self).spec_next_id() == old(self).spec_next_id() + 1,
    {
        self.submit(buffer);
        self.pop()
    }

    /// Returns a lent buffer to the pool unused.
    pub fn restore(&mut self, b: CsvBuffer)
        requires
            old(self).wf(),
            b.wf(),
            b.bytes().len() == 0,
            b.rows() == Seq::<RowView>::empty(),
            b.capacity() == old(self).spec_size(),
            old(self).spec_lent() >= 1,
        ensures
            final(self).wf(),
            final(self).pool() == old(self).pool().push(b),
            final(self).spec_lent() == old(self).spec_lent() - 1,
            final(self).pending() == old(self).pending(),
            final(self).targets() == old(self).targets(),
            final(self).spec_size() == old(self).spec_size(),
            final(self).spec_count() == old(self).spec_count(),
            final(self).spec_next_id() == old(self).spec_next_id(),
    {
        self.buffers.push(b);
        proof {
            self.lent@ = (self.lent@ - 1) as nat;
        }
    }

    /// Opens the next output file in the rotation: subsequent submissions
    /// go to the new file at offset zero.  The embedding program creates
    /// the file and passes its descriptor.
    pub fn next(&mut self, fd: i32)
        requires
            old(self).wf(),
            old(self).targets().len() < i32::MAX,
        ensures
            final(self).wf(),
            final(self).targets().len() == old(self).targets().len() + 1,
            forall|i: int|
                0 <= i < old(self).targets().len() ==> final(self).targets()[i] == old(self).targets()[i],
            final(self).targets().last().spec_fd() == fd,
            final(self).targets().last().spec_offset() == 0,
            final(self).targets().last().spec_rows() == Seq::<RowView>::empty(),
            final(self).pool() == old(self).pool(),
            final(self).pending() == old(self).pending(),
            final(self).spec_lent() == old(self).spec_lent(),
            final(self).spec_size() == old(self).spec_size(),
            final(self).spec_count() == old(self).spec_count(),
            final(self).spec_next_id() == old(self).spec_next_id(),
    {
        self.files.next(fd);
    }

    /// Restores the whole in-flight set to the pool: the full-barrier
    /// reclaim.  The embedding program waits until the kernel reports
    /// every outstanding write complete and hands the completed ids in.
    pub fn recover(&mut self, completions: &Vec<u64>)
        requires
            old(self).wf(),
            completions@.no_duplicates(),
            forall|i: int|
                0 <= i < completions@.len() ==> old(self).pending().contains_key(
                    #[trigger] completions@[i],
                ),
            completions@.len() == old(self).spec_in_flight(),
        ensures
            final(self).wf(),
            final(self).pending() == Map::<u64, PendingWrite>::empty(),
            final(self).pool().len() == old(self).pool().len() + completions@.len(),
            final(self).targets() == old(self).targets(),
            final(self).spec_lent() == old(self).spec_lent(),
            final(self).spec_size() == old(self).spec_size(),
            final(self).spec_count() == old(self).spec_count(),
            final(self).spec_next_id() == old(self).spec_next_id(),
    {
        let ghost old_pool_len = self.buffers.pool().len();
        self.writes.recover_buffers(&mut self.buffers, completions);
        proof {
            assert forall|i: int|
                0 <= i < self.buffers.pool().len() implies (#[trigger] self.buffers.pool()[i]).capacity()
                == self.spec_size() by {
                if i >= old_pool_len {
                    let j = i - old_pool_len;
                    let id = completions@[j];
                    assert(self.buffers.pool()[old_pool_len + j].capacity() == old(
                        self,
                    ).pending()[id].write.capacity());
                    assert(old_pool_len + j == i);
                }
            }
        }
    }
}

} // verus!
