use vstd::prelude::*;

use crate::buffer::{CsvBuffer, CsvBuffers, IouWrite, VectoredWrite};
use std::collections::HashMap;

verus! {

broadcast use vstd::std_specs::hash::group_hash_axioms;

/// The first request id the engine hands out.
pub const FIRST_WRITE_ID: u64 = 42;

/// One write in flight to the kernel: the buffer it owns, sealed as a
/// write view, plus the descriptor and file offset it was issued against.
pub struct PendingWrite {
    /// The file descriptor the write was issued against.
    pub fd: i32,
    /// The file offset the write was issued at.
    pub offset: usize,
    /// The sealed buffer the kernel reads from until completion.
    pub write: Box<IouWrite>,
}

/// The submission/completion engine's own state: the pending-write table
/// keyed by request id, the id counter, and the count of writes in
/// flight.  Submissions to, and completions from, the kernel queue itself
/// are the embedding program's side of the protocol; this state decides
/// what they must carry and owns every buffer the kernel may touch.
pub struct IouWrites {
    next_id: u64,
    writes: HashMap<u64, PendingWrite>,
    in_flight: u32,
    queue_depth: u32,
}

impl IouWrites {
    /// The pending-write table: in-flight request ids and what each owns.
    pub closed spec fn pending(self) -> Map<u64, PendingWrite> {
        self.writes@
    }

    /// The id the next submission will be given.
    pub closed spec fn spec_next_id(self) -> u64 {
        self.next_id
    }

    /// How many writes are outstanding.
    pub open spec fn spec_in_flight(self) -> nat {
        self.pending().dom().len()
    }

    /// Ids are handed out monotonically, so every pending id lies below
    /// the counter, and the in-flight count matches the table.
    pub closed spec fn wf(self) -> bool {
        &&& self.pending().dom().finite()
        &&& self.in_flight as nat == self.pending().dom().len()
        &&& FIRST_WRITE_ID <= self.next_id
        &&& forall|k: u64|
            self.pending().contains_key(k) ==> FIRST_WRITE_ID <= k < self.spec_next_id()
    }

    /// Room to take one more submission without exhausting the id space
    /// or the in-flight counter.
    pub open spec fn can_submit(self) -> bool {
        &&& self.spec_next_id() < u64::MAX
        &&& self.spec_in_flight() < u32::MAX as nat
    }

    /// A fresh engine with nothing in flight.  `queue_depth` records how
    /// deep the kernel queue serving this table was created.
    pub fn new(queue_depth: u32) -> (w: IouWrites)
        ensures
            w.wf(),
            w.pending() == Map::<u64, PendingWrite>::empty(),
            w.spec_next_id() == FIRST_WRITE_ID,
            w.spec_queue_depth() == queue_depth,
    {
        let w = IouWrites {
            queue_depth,
            next_id: FIRST_WRITE_ID,
            writes: HashMap::new(),
            in_flight: 0,
        };
        proof {
            assert(w.pending().dom() =~= Set::<u64>::empty());
        }
        w
    }

    /// The depth the kernel queue was sized to.
    pub closed spec fn spec_queue_depth(self) -> u32 {
        self.queue_depth
    }

    /// Takes ownership of a filled buffer for one vectored write against
    /// `fd` at `offset`, stores it in the pending-write table under a
    /// fresh id, and returns that id.  An id collision is impossible:
    /// ids are handed out monotonically.
    pub fn write_and_store(&mut self, fd: i32, buffer: CsvBuffer, offset: usize) -> (id: u64)
        requires
            old(self).wf(),
            old(self).can_submit(),
            buffer.wf(),
        ensures
            final(self).wf(),
            id == old(self).spec_next_id(),
            !old(self).pending().contains_key(id),
            final(self).spec_next_id() == old(self).spec_next_id() + 1,
            final(self).spec_in_flight() == old(self).spec_in_flight() + 1,
            final(self).pending().dom() == old(self).pending().dom().insert(id),
            final(self).pending()[id].fd == fd,
            final(self).pending()[id].offset == offset,
            final(self).pending()[id].write.write_view() == buffer.bytes(),
            final(self).pending()[id].write.capacity() == buffer.capacity(),
            forall|k: u64|
                k != id && old(self).pending().contains_key(k) ==> final(self).pending().contains_key(
                    k,
                ) && final(self).pending()[k] == old(self).pending()[k],
            final(self).spec_queue_depth() == old(self).spec_queue_depth(),
    {
        let id = self.next_id;
        let entry = PendingWrite { fd, offset, write: buffer.into_boxed_write() };
        let previous = self.writes.insert(id, entry);
        match previous {
            Some(_) => vstd::pervasive::unreached(),
            Option::None => {},
        }
        self.in_flight = self.in_flight + 1;
        self.next_id = self.next_id + 1;
        proof {
            assert(final(self).pending().dom() =~= old(self).pending().dom().insert(id));
        }
        id
    }

    /// Looks up what an in-flight request must carry to the kernel.
    pub fn pending_write(&self, id: u64) -> (r: Option<&PendingWrite>)
        requires
            self.wf(),
        ensures
            match r {
                Some(p) => self.pending().contains_key(id) && *p == self.pending()[id],
                Option::None => !self.pending().contains_key(id),
            },
    {
        self.writes.get(&id)
    }

    /// Consumes one observed completion: the buffer the write owned
    /// leaves the table and is restored to a fresh state.
    pub fn recover_buffer(&mut self, id: u64) -> (b: CsvBuffer)
        requires
            old(self).wf(),
            old(self).pending().contains_key(id),
        ensures
            final(self).wf(),
            final(self).pending() == old(self).pending().remove(id),
            final(self).spec_in_flight() == old(self).spec_in_flight() - 1,
            final(self).spec_next_id() == old(self).spec_next_id(),
            final(self).spec_queue_depth() == old(self).spec_queue_depth(),
            b.wf(),
            b.bytes().len() == 0,
            b.rows().len() == 0,
            b.capacity() == old(self).pending()[id].write.capacity(),
    {
        let entry = self.writes.remove(&id);
        let entry = match entry {
            Some(e) => e,
            Option::None => vstd::pervasive::unreached(),
        };
        proof {
            assert(self.pending() == old(self).pending().remove(id));
            assert(self.pending().dom() =~= old(self).pending().dom().remove(id));
        }
        self.in_flight = self.in_flight - 1;
        CsvBuffer::from_write(*entry.write)
    }

    /// Reclaims the whole in-flight set at once: the full-barrier policy.
    /// The embedding program waits until the kernel has reported every
    /// outstanding write complete and hands the completed ids over; each
    /// buffer is restored to a fresh state and pushed into the pool.
    pub fn recover_buffers(&mut self, buffers: &mut CsvBuffers, completions: &Vec<u64>)
        requires
            old(self).wf(),
            old(buffers).wf(),
            completions@.no_duplicates(),
            forall|i: int|
                0 <= i < completions@.len() ==> old(self).pending().contains_key(
                    #[trigger] completions@[i],
                ),
            completions@.len() == old(self).spec_in_flight(),
        ensures
            final(self).wf(),
            final(self).pending() == Map::<u64, PendingWrite>::empty(),
            final(self).spec_in_flight() == 0,
            final(self).spec_next_id() == old(self).spec_next_id(),
            final(self).spec_queue_depth() == old(self).spec_queue_depth(),
            final(buffers).wf(),
            final(buffers).pool().len() == old(buffers).pool().len() + completions@.len(),
            forall|j: int|
                0 <= j < old(buffers).pool().len() ==> final(buffers).pool()[j] == old(
                    buffers,
                ).pool()[j],
            forall|j: int|
                0 <= j < completions@.len() ==> (#[trigger] final(buffers).pool()[old(
                    buffers,
                ).pool().len() + j]).capacity() == old(self).pending()[completions@[j]].write.capacity(),
    {
        let n = completions.len();
        let mut i: usize = 0;
        while i < n
            invariant
                self.wf(),
                buffers.wf(),
                n == completions@.len(),
                i <= n,
                completions@.no_duplicates(),
                forall|j: int|
                    0 <= j < completions@.len() ==> old(self).pending().contains_key(
                        #[trigger] completions@[j],
                    ),
                completions@.len() == old(self).spec_in_flight(),
                self.spec_in_flight() == old(self).spec_in_flight() - i,
                self.spec_next_id() == old(self).spec_next_id(),
                self.spec_queue_depth() == old(self).spec_queue_depth(),
                forall|j: int| 0 <= j < i ==> !self.pending().contains_key(#[trigger] completions@[j]),
                forall|k: u64|
                    #[trigger] self.pending().contains_key(k) ==> old(self).pending().contains_key(
                        k,
                    ) && self.pending()[k] == old(self).pending()[k],
                forall|j: int|
                    i <= j < completions@.len() ==> self.pending().contains_key(
                        #[trigger] completions@[j],
                    ),
                buffers.pool().len() == old(buffers).pool().len() + i,
                forall|j: int|
                    0 <= j < old(buffers).pool().len() ==> buffers.pool()[j] == old(
                        buffers,
                    ).pool()[j],
                forall|j: int|
                    0 <= j < i ==> (#[trigger] buffers.pool()[old(buffers).pool().len() + j]).capacity()
                        == old(self).pending()[completions@[j]].write.capacity(),
            decreases n - i,
        {
            let id = completions[i];
            let ghost prev = *self;
            let b = self.recover_buffer(id);
            buffers.push(b);
            proof {
                assert(self.pending() == prev.pending().remove(id));
                assert forall|k: u64| self.pending().contains_key(k) implies old(
                    self,
                ).pending().contains_key(k) && self.pending()[k] == old(self).pending()[k] by {
                    assert(prev.pending().remove(id).contains_key(k));
                    assert(prev.pending().contains_key(k));
                    assert(prev.pending().remove(id)[k] == prev.pending()[k]);
                }
            }
            i = i + 1;
        }
        proof {
            assert(self.pending().dom().len() == 0);
            assert(self.pending().dom() =~= Set::<u64>::empty()) by {
                if exists|k: u64| self.pending().dom().contains(k) {
                    let k = choose|k: u64| self.pending().dom().contains(k);
                    assert(self.pending().dom().remove(k).len() == self.pending().dom().len() - 1);
                }
            }
            assert(self.pending() =~= Map::<u64, PendingWrite>::empty());
        }
    }

    /// Whether one more submission can be taken without exhausting the
    /// id space or the in-flight counter.
    pub fn can_submit_now(&self) -> (r: bool)
        requires
            self.wf(),
        ensures
            r == self.can_submit(),
    {
        self.next_id < u64::MAX && self.in_flight < u32::MAX
    }

    /// How many writes are outstanding.
    pub fn in_flight(&self) -> (r: u32)
        requires
            self.wf(),
        ensures
            r as nat == self.spec_in_flight(),
    {
        self.in_flight
    }
}

} // verus!
