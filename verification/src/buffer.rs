use vstd::prelude::*;

use crate::encode;

verus! {

use vstd::seq_lib::*;

/// The bytes of a record, one sequence per field.
pub type RowView = Seq<Seq<u8>>;

/// The encodings of a sequence of records, laid end to end.
pub open spec fn encoded_rows(rows: Seq<RowView>) -> Seq<u8> {
    rows.map_values(|r: RowView| encode::encoded_row(r)).flatten()
}

/// Appending one record appends its encoding.
pub proof fn lemma_encoded_rows_push(rows: Seq<RowView>, row: RowView)
    ensures
        encoded_rows(rows.push(row)) == encoded_rows(rows) + encode::encoded_row(row),
{
    let f = |r: RowView| encode::encoded_row(r);
    assert(rows.push(row).map_values(f) =~= rows.map_values(f).push(f(row)));
    rows.map_values(f).lemma_flatten_push(f(row));
}

/// Laying two runs of records end to end concatenates their encodings.
pub proof fn lemma_encoded_rows_concat(a: Seq<RowView>, b: Seq<RowView>)
    ensures
        encoded_rows(a + b) == encoded_rows(a) + encoded_rows(b),
{
    let f = |r: RowView| encode::encoded_row(r);
    assert((a + b).map_values(f) =~= a.map_values(f) + b.map_values(f));
    lemma_flatten_concat(a.map_values(f), b.map_values(f));
}

/// One physical write's worth of encoded bytes: a fixed-capacity byte
/// region, an incremental record encoder and a write cursor.  The records
/// written so far are carried alongside as a ghost history, so that every
/// owner of the buffer knows exactly which records its bytes encode.
pub struct CsvBuffer {
    data: Vec<u8>,
    cap: usize,
    rows: Ghost<Seq<RowView>>,
}

impl CsvBuffer {
    /// The bytes written so far.
    pub closed spec fn bytes(self) -> Seq<u8> {
        self.data@
    }

    /// The fixed capacity of the buffer.
    pub closed spec fn capacity(self) -> nat {
        self.cap as nat
    }

    /// The records encoded into the buffer, in order.
    pub closed spec fn rows(self) -> Seq<RowView> {
        self.rows@
    }

    /// The buffer's bytes are exactly the encodings of its records, and
    /// fit in its capacity.
    pub open spec fn wf(self) -> bool {
        &&& self.bytes().len() <= self.capacity()
        &&& self.bytes() == encoded_rows(self.rows())
    }

    /// The room left for further records.
    pub open spec fn spec_remaining(self) -> nat
        recommends
            self.wf(),
    {
        (self.capacity() - self.bytes().len()) as nat
    }

    /// A fresh, empty buffer of the given capacity.
    pub fn zeroed(capacity: usize) -> (b: CsvBuffer)
        ensures
            b.wf(),
            b.bytes() == Seq::<u8>::empty(),
            b.rows() == Seq::<RowView>::empty(),
            b.capacity() == capacity,
    {
        let b = CsvBuffer { data: Vec::with_capacity(capacity), cap: capacity, rows: Ghost(Seq::empty()) };
        proof {
            assert(Seq::<RowView>::empty().map_values(|r: RowView| encode::encoded_row(r))
                =~= Seq::<Seq<u8>>::empty());
            assert(b.bytes() =~= encoded_rows(b.rows()));
        }
        b
    }

    /// The room left for further records, in bytes.
    pub fn remaining(&self) -> (r: usize)
        requires
            self.wf(),
        ensures
            r == self.spec_remaining(),
    {
        self.cap - self.data.len()
    }

    /// The write cursor: how many bytes have been written.
    pub fn pos(&self) -> (r: usize)
        ensures
            r == self.bytes().len(),
    {
        self.data.len()
    }

    /// Encodes one record into the buffer at the cursor and returns the
    /// new remaining capacity.  The caller must guarantee that the
    /// record's encoded size does not exceed the remaining capacity;
    /// rotating ahead of time with a safety margin is the split driver's
    /// job.
    pub fn write_row(&mut self, row: &Vec<Vec<u8>>) -> (remaining: usize)
        requires
            old(self).wf(),
            row@.len() >= 1,
            encode::encoded_row(row.deep_view()).len() <= old(self).spec_remaining(),
        ensures
            final(self).wf(),
            final(self).bytes() == old(self).bytes() + encode::encoded_row(row.deep_view()),
            final(self).rows() == old(self).rows().push(row.deep_view()),
            final(self).capacity() == old(self).capacity(),
            remaining == final(self).spec_remaining(),
    {
        encode::push_row(&mut self.data, row);
        proof {
            self.rows@ = self.rows@.push(row.deep_view());
            lemma_encoded_rows_push(old(self).rows(), row.deep_view());
        }
        self.cap - self.data.len()
    }

    /// Seals the buffer into the write view handed to the kernel.
    pub fn into_boxed_write(self) -> (w: Box<IouWrite>)
        ensures
            w.write_view() == self.bytes(),
            w.capacity() == self.capacity(),
            w.wf() == (self.bytes().len() <= self.capacity()),
    {
        IouWrite { data: self.data, cap: self.cap }.boxed()
    }

    /// Restores a completed write's buffer to a fresh, empty state with
    /// the same backing capacity.
    pub fn from_write(w: IouWrite) -> (b: CsvBuffer)
        ensures
            b.wf(),
            b.bytes() == Seq::<u8>::empty(),
            b.rows() == Seq::<RowView>::empty(),
            b.capacity() == w.capacity(),
    {
        let IouWrite { mut data, cap } = w;
        data.clear();
        let b = CsvBuffer { data, cap, rows: Ghost(Seq::empty()) };
        proof {
            assert(Seq::<RowView>::empty().map_values(|r: RowView| encode::encoded_row(r))
                =~= Seq::<Seq<u8>>::empty());
            assert(b.bytes() =~= encoded_rows(b.rows()));
        }
        b
    }
}

/// A view of written bytes that can be handed to a vectored-write
/// operation.
pub trait VectoredWrite {
    /// The bytes the write will carry.
    spec fn write_view(&self) -> Seq<u8>;

    /// The kernel-visible span of written bytes.
    fn as_write(&self) -> (r: &[u8])
        ensures
            r@ == self.write_view(),
    ;
}

/// The written span of one buffer, sealed for submission to the kernel.
/// It remembers the buffer's capacity so the buffer can be rebuilt, with
/// its allocation reused, once the write completes.
pub struct IouWrite {
    data: Vec<u8>,
    cap: usize,
}

impl IouWrite {
    /// The capacity of the buffer this write was sealed from.
    pub closed spec fn capacity(self) -> nat {
        self.cap as nat
    }

    /// The written span fits the capacity the buffer was sealed with.
    pub open spec fn wf(self) -> bool {
        self.write_view().len() <= self.capacity()
    }

    pub fn boxed(self) -> (r: Box<Self>)
        ensures
            r == self,
    {
        Box::new(self)
    }
}

impl VectoredWrite for IouWrite {
    closed spec fn write_view(&self) -> Seq<u8> {
        self.data@
    }

    fn as_write(&self) -> (r: &[u8]) {
        self.data.as_slice()
    }
}

/// The bounded free list of reusable record buffers, sized to the I/O
/// concurrency limit.
pub struct CsvBuffers {
    buffers: Vec<CsvBuffer>,
}

impl CsvBuffers {
    /// The free buffers, in stack order.
    pub closed spec fn pool(self) -> Seq<CsvBuffer> {
        self.buffers@
    }

    /// Every free buffer is empty and ready for reuse.
    pub open spec fn wf(self) -> bool {
        forall|i: int|
            0 <= i < self.pool().len() ==> {
                &&& (#[trigger] self.pool()[i]).wf()
                &&& self.pool()[i].bytes().len() == 0
                &&& self.pool()[i].rows().len() == 0
            }
    }

    /// Every free buffer has the given capacity.
    pub open spec fn uniform(self, cap: nat) -> bool {
        forall|i: int| 0 <= i < self.pool().len() ==> (#[trigger] self.pool()[i]).capacity() == cap
    }

    /// A pool of `count` fresh buffers, each of capacity `size`.
    pub fn new(count: usize, size: usize) -> (p: CsvBuffers)
        ensures
            p.wf(),
            p.uniform(size as nat),
            p.pool().len() == count,
    {
        let mut buffers: Vec<CsvBuffer> = Vec::with_capacity(count);
        let mut i: usize = 0;
        while i < count
            invariant
                i <= count,
                buffers@.len() == i,
                forall|j: int|
                    0 <= j < i ==> {
                        &&& (#[trigger] buffers@[j]).wf()
                        &&& buffers@[j].bytes().len() == 0
                        &&& buffers@[j].rows().len() == 0
                        &&& buffers@[j].capacity() == size
                    },
            decreases count - i,
        {
            buffers.push(CsvBuffer::zeroed(size));
            i = i + 1;
        }
        CsvBuffers { buffers }
    }

    /// How many buffers are free.
    pub fn len(&self) -> (r: usize)
        ensures
            r == self.pool().len(),
    {
        self.buffers.len()
    }

    /// Whether the free list is exhausted.
    pub fn is_empty(&self) -> (r: bool)
        ensures
            r == (self.pool().len() == 0),
    {
        self.buffers.is_empty()
    }

    /// Takes a buffer from the free list.
    pub fn pop(&mut self) -> (b: CsvBuffer)
        requires
            old(self).pool().len() >= 1,
        ensures
            final(self).pool() == old(self).pool().drop_last(),
            b == old(self).pool().last(),
    {
        let b = self.buffers.pop();
        match b {
            Some(b) => b,
            Option::None => vstd::pervasive::unreached(),
        }
    }

    /// Returns a buffer to availability.
    pub fn push(&mut self, value: CsvBuffer)
        ensures
            final(self).pool() == old(self).pool().push(value),
    {
        self.buffers.push(value);
    }
}

} // verus!
