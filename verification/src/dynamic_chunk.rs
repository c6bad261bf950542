use vstd::prelude::*;
use std::collections::VecDeque;
use crate::chunk_state::{ChunkState, PackedChunkState};
use crate::StartPositionEpoch;

verus! {

/// Error, indicating insufficient capacity; it hands back what did not fit.
pub struct CapacityError<V> {
    pub value: V,
}

/// How many more times a chunk was entered than it was read completely, counting both counters
/// modulo `usize::MAX + 1` as they wrap.
pub open spec fn counter_diff(entered: usize, read: usize) -> int {
    if entered >= read {
        entered - read
    } else {
        entered + (usize::MAX + 1) - read
    }
}

/// The next value of a wrapping counter.
pub open spec fn wrapped_next(c: usize) -> usize {
    if c == usize::MAX {
        0
    } else {
        (c + 1) as usize
    }
}

/// One chunk of the queue: a bounded run of items, with the counters that tell when every reader
/// has left it.
pub struct DynamicChunk<T> {
    id: usize,
    items: Vec<T>,
    capacity: usize,
    read_completely_times: usize,
    readers_entered: usize,
    chunk_state: PackedChunkState,
}

impl<T> DynamicChunk<T> {
    /// The items stored, oldest first.
    pub closed spec fn spec_items(&self) -> Seq<T> {
        self.items@
    }

    pub closed spec fn spec_id(&self) -> usize {
        self.id
    }

    pub closed spec fn spec_capacity(&self) -> usize {
        self.capacity
    }

    pub closed spec fn spec_entered(&self) -> usize {
        self.readers_entered
    }

    pub closed spec fn spec_read(&self) -> usize {
        self.read_completely_times
    }

    pub closed spec fn spec_state(&self) -> PackedChunkState {
        self.chunk_state
    }

    pub open spec fn spec_len(&self) -> nat {
        self.spec_items().len()
    }

    /// The chunk never holds more than its capacity, and its packed length is its item count.
    pub closed spec fn wf(&self) -> bool {
        &&& self.items@.len() == self.chunk_state.spec_len()
        &&& self.items@.len() <= self.capacity
        &&& 0 < self.capacity <= u32::MAX
    }

    pub proof fn lemma_wf(&self)
        requires
            self.wf(),
        ensures
            self.spec_len() == self.spec_state().spec_len(),
            self.spec_len() <= self.spec_capacity(),
            0 < self.spec_capacity() <= u32::MAX,
    {
    }

    /// A new empty chunk with room for `len` items.
    pub fn construct(id: usize, epoch: StartPositionEpoch, len: usize) -> (r: Self)
        requires
            0 < len <= u32::MAX,
            epoch.wf(),
        ensures
            r.wf(),
            r.spec_id() == id,
            r.spec_items() == Seq::<T>::empty(),
            r.spec_capacity() == len,
            r.spec_entered() == 0,
            r.spec_read() == 0,
            r.spec_state().spec_has_next() == false,
            r.spec_state().spec_epoch() == epoch.value(),
    {
        let chunk_state = PackedChunkState::pack(ChunkState { len: 0, has_next: false, epoch });
        DynamicChunk {
            id,
            items: Vec::with_capacity(len),
            capacity: len,
            read_completely_times: 0,
            readers_entered: 0,
            chunk_state,
        }
    }

    pub fn id(&self) -> (r: usize)
        ensures
            r == self.spec_id(),
    {
        self.id
    }

    /// Records whether another chunk follows this one.
    pub fn set_next(&mut self, has_next: bool)
        ensures
            final(self).spec_state().spec_has_next() == has_next,
            final(self).spec_state().spec_len() == old(self).spec_state().spec_len(),
            final(self).spec_state().spec_epoch() == old(self).spec_state().spec_epoch(),
            final(self).spec_items() == old(self).spec_items(),
            final(self).spec_id() == old(self).spec_id(),
            final(self).spec_capacity() == old(self).spec_capacity(),
            final(self).spec_entered() == old(self).spec_entered(),
            final(self).spec_read() == old(self).spec_read(),
            old(self).wf() ==> final(self).wf(),
    {
        self.chunk_state.set_has_next(has_next);
    }

    pub fn read_completely_times(&self) -> (r: usize)
        ensures
            r == self.spec_read(),
    {
        self.read_completely_times
    }

    pub fn readers_entered(&self) -> (r: usize)
        ensures
            r == self.spec_entered(),
    {
        self.readers_entered
    }

    /// Counts one more reader that read this chunk to its end; returns the count before.
    pub fn mark_read(&mut self) -> (prev: usize)
        ensures
            prev == old(self).spec_read(),
            final(self).spec_read() == wrapped_next(old(self).spec_read()),
            final(self).spec_entered() == old(self).spec_entered(),
            final(self).spec_state() == old(self).spec_state(),
            final(self).spec_items() == old(self).spec_items(),
            final(self).spec_id() == old(self).spec_id(),
            final(self).spec_capacity() == old(self).spec_capacity(),
            old(self).wf() ==> final(self).wf(),
    {
        let prev = self.read_completely_times;
        self.read_completely_times = prev.wrapping_add(1);
        prev
    }

    /// Counts one more reader that entered this chunk.
    pub fn mark_entered(&mut self)
        ensures
            final(self).spec_entered() == wrapped_next(old(self).spec_entered()),
            final(self).spec_read() == old(self).spec_read(),
            final(self).spec_state() == old(self).spec_state(),
            final(self).spec_items() == old(self).spec_items(),
            final(self).spec_id() == old(self).spec_id(),
            final(self).spec_capacity() == old(self).spec_capacity(),
            old(self).wf() ==> final(self).wf(),
    {
        self.readers_entered = self.readers_entered.wrapping_add(1);
    }

    pub fn set_epoch(&mut self, epoch: StartPositionEpoch)
        requires
            epoch.wf(),
        ensures
            final(self).spec_state().spec_epoch() == epoch.value(),
            final(self).spec_state().spec_len() == old(self).spec_state().spec_len(),
            final(self).spec_state().spec_has_next() == old(self).spec_state().spec_has_next(),
            final(self).spec_items() == old(self).spec_items(),
            final(self).spec_id() == old(self).spec_id(),
            final(self).spec_capacity() == old(self).spec_capacity(),
            final(self).spec_entered() == old(self).spec_entered(),
            final(self).spec_read() == old(self).spec_read(),
            old(self).wf() ==> final(self).wf(),
    {
        self.chunk_state.set_epoch(epoch);
    }

    /// Appends `value` if there is room; otherwise hands it back.
    pub fn try_push(&mut self, value: T) -> (r: Result<(), CapacityError<T>>)
        requires
            old(self).wf(),
        ensures
            final(self).wf(),
            old(self).spec_len() < old(self).spec_capacity() ==> r is Ok,
            match r {
                Ok(()) => final(self).spec_items() == old(self).spec_items().push(value),
                Err(e) => {
                    &&& old(self).spec_len() == old(self).spec_capacity()
                    &&& e.value == value
                    &&& final(self).spec_items() == old(self).spec_items()
                },
            },
            final(self).spec_state().spec_has_next() == old(self).spec_state().spec_has_next(),
            final(self).spec_state().spec_epoch() == old(self).spec_state().spec_epoch(),
            final(self).spec_id() == old(self).spec_id(),
            final(self).spec_capacity() == old(self).spec_capacity(),
            final(self).spec_entered() == old(self).spec_entered(),
            final(self).spec_read() == old(self).spec_read(),
    {
        let index = self.chunk_state.len();
        if index as usize >= self.capacity {
            return Err(CapacityError { value });
        }
        self.push_unchecked(value);
        Ok(())
    }

    /// Appends `value`; the chunk must have room.
    pub fn push_unchecked(&mut self, value: T)
        requires
            old(self).wf(),
            old(self).spec_len() < old(self).spec_capacity(),
        ensures
            final(self).wf(),
            final(self).spec_items() == old(self).spec_items().push(value),
            final(self).spec_state().spec_has_next() == old(self).spec_state().spec_has_next(),
            final(self).spec_state().spec_epoch() == old(self).spec_state().spec_epoch(),
            final(self).spec_id() == old(self).spec_id(),
            final(self).spec_capacity() == old(self).spec_capacity(),
            final(self).spec_entered() == old(self).spec_entered(),
            final(self).spec_read() == old(self).spec_read(),
    {
        let index = self.chunk_state.len();
        self.items.push(value);
        self.chunk_state.set_len(index + 1);
    }

    /// Moves items from the front of `iter` into the chunk until the chunk is full or `iter` is
    /// empty. `Ok` if everything fit, `CapacityError` if not.
    pub fn extend(&mut self, iter: &mut VecDeque<T>) -> (r: Result<(), CapacityError<()>>)
        requires
            old(self).wf(),
        ensures
            final(self).wf(),
            ({
                let moved = if old(iter)@.len() < old(self).spec_capacity() - old(self).spec_len() {
                    old(iter)@.len() as int
                } else {
                    old(self).spec_capacity() - old(self).spec_len()
                };
                &&& final(self).spec_items() == old(self).spec_items() + old(iter)@.subrange(0, moved)
                &&& final(iter)@ == old(iter)@.subrange(moved, old(iter)@.len() as int)
            }),
            r is Ok <==> old(self).spec_len() + old(iter)@.len() <= old(self).spec_capacity(),
            final(self).spec_state().spec_has_next() == old(self).spec_state().spec_has_next(),
            final(self).spec_state().spec_epoch() == old(self).spec_state().spec_epoch(),
            final(self).spec_id() == old(self).spec_id(),
            final(self).spec_capacity() == old(self).spec_capacity(),
            final(self).spec_entered() == old(self).spec_entered(),
            final(self).spec_read() == old(self).spec_read(),
    {
        let ghost old_items = self.items@;
        let ghost old_iter = iter@;
        let mut index: usize = self.chunk_state.len() as usize;
        let capacity = self.capacity;
        loop
            invariant
                self.wf(),
                index == self.items@.len(),
                index <= capacity,
                capacity == self.capacity,
                old_items.len() <= index,
                index - old_items.len() <= old_iter.len(),
                self.items@ == old_items + old_iter.subrange(0, index - old_items.len()),
                iter@ == old_iter.subrange(index - old_items.len(), old_iter.len() as int),
                self.chunk_state.spec_has_next() == old(self).spec_state().spec_has_next(),
                self.chunk_state.spec_epoch() == old(self).spec_state().spec_epoch(),
                self.id == old(self).spec_id(),
                self.readers_entered == old(self).spec_entered(),
                self.read_completely_times == old(self).spec_read(),
                old_items == old(self).spec_items(),
                old_iter == old(iter)@,
                capacity == old(self).spec_capacity(),
            decreases capacity - index,
        {
            if iter.len() == 0 {
                return Ok(());
            }
            if index == capacity {
                return Err(CapacityError { value: () });
            }
            match iter.pop_front() {
                None => {
                    return Ok(());
                },
                Some(value) => {
                    self.items.push(value);
                    self.chunk_state.set_len((index + 1) as u32);
                    proof {
                        assert(self.items@ =~= old_items + old_iter.subrange(0, index + 1 - old_items.len()));
                        assert(iter@ =~= old_iter.subrange(index + 1 - old_items.len(), old_iter.len() as int));
                    }
                },
            }
            index += 1;
        }
    }

    /// The item at `index`.
    pub fn get_unchecked(&self, index: usize) -> (r: &T)
        requires
            index < self.spec_len(),
        ensures
            *r == self.spec_items()[index as int],
    {
        &self.items[index]
    }

    pub fn chunk_state(&self) -> (r: PackedChunkState)
        ensures
            r == self.spec_state(),
    {
        self.chunk_state
    }

    pub fn capacity(&self) -> (r: usize)
        ensures
            r == self.spec_capacity(),
    {
        self.capacity
    }
}

} // verus!
