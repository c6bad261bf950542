//! A chunk of fixed capacity `CHUNK_SIZE`, whose length is packed with the start-position epoch.
use vstd::prelude::*;
use std::collections::VecDeque;
use crate::len_and_epoch::LenAndEpoch;

pub use crate::dynamic_chunk::CapacityError;

verus! {

/// Storage for at most `CHUNK_SIZE` items.
pub struct ChunkStorage<T, const CHUNK_SIZE: usize> {
    storage: Vec<T>,
    /// The length, packed with the epoch that all chunks of a queue share.
    len_and_start_position_epoch: u64,
}

impl<T, const CHUNK_SIZE: usize> ChunkStorage<T, CHUNK_SIZE> {
    pub closed spec fn spec_items(&self) -> Seq<T> {
        self.storage@
    }

    pub closed spec fn spec_epoch(&self) -> u32 {
        LenAndEpoch::from_packed(self.len_and_start_position_epoch).spec_epoch()
    }

    pub closed spec fn wf(&self) -> bool {
        &&& self.storage@.len() == LenAndEpoch::from_packed(self.len_and_start_position_epoch).spec_len()
        &&& self.storage@.len() <= CHUNK_SIZE
        &&& CHUNK_SIZE <= u32::MAX
    }

    pub fn new(epoch: u32) -> (r: Self)
        requires
            CHUNK_SIZE <= u32::MAX,
        ensures
            r.wf(),
            r.spec_items() == Seq::<T>::empty(),
            r.spec_epoch() == epoch,
    {
        let packed: u64 = LenAndEpoch::new(0, epoch).into();
        proof { LenAndEpoch::lemma_from_packed(packed); }
        let r = ChunkStorage { storage: Vec::new(), len_and_start_position_epoch: packed };
        proof { assert(LenAndEpoch::from_packed(packed).packed() == packed); }
        r
    }

    fn set_len_and_epoch(&mut self, len: u32, epoch: u32)
        ensures
            final(self).storage == old(self).storage,
            LenAndEpoch::from_packed(final(self).len_and_start_position_epoch).spec_len() == len,
            final(self).spec_epoch() == epoch,
    {
        let packed: u64 = LenAndEpoch::new(len, epoch).into();
        proof { LenAndEpoch::lemma_from_packed(packed); }
        self.len_and_start_position_epoch = packed;
    }

    pub fn set_epoch(&mut self, epoch: u32)
        requires
            old(self).wf(),
        ensures
            final(self).wf(),
            final(self).spec_items() == old(self).spec_items(),
            final(self).spec_epoch() == epoch,
    {
        let len = self.len_and_epoch().len();
        self.set_len_and_epoch(len, epoch);
    }

    /// Appends `value` if there is room; otherwise hands it back.
    pub fn try_push(&mut self, value: T) -> (r: Result<(), CapacityError<T>>)
        requires
            old(self).wf(),
        ensures
            final(self).wf(),
            final(self).spec_epoch() == old(self).spec_epoch(),
            old(self).spec_items().len() < CHUNK_SIZE <==> r is Ok,
            match r {
                Ok(()) => final(self).spec_items() == old(self).spec_items().push(value),
                Err(e) => e.value == value && final(self).spec_items() == old(self).spec_items(),
            },
    {
        let len_and_epoch = self.len_and_epoch();
        let index = len_and_epoch.len();
        if index as usize >= CHUNK_SIZE {
            return Err(CapacityError { value });
        }
        self.push_at(value, index, len_and_epoch.epoch());
        Ok(())
    }

    /// Appends `value`; the storage must have room.
    pub fn push_unchecked(&mut self, value: T)
        requires
            old(self).wf(),
            old(self).spec_items().len() < CHUNK_SIZE,
        ensures
            final(self).wf(),
            final(self).spec_epoch() == old(self).spec_epoch(),
            final(self).spec_items() == old(self).spec_items().push(value),
    {
        let len_and_epoch = self.len_and_epoch();
        self.push_at(value, len_and_epoch.len(), len_and_epoch.epoch());
    }

    fn push_at(&mut self, value: T, index: u32, epoch: u32)
        requires
            old(self).wf(),
            index == old(self).spec_items().len(),
            index < CHUNK_SIZE,
        ensures
            final(self).wf(),
            final(self).spec_epoch() == epoch,
            final(self).spec_items() == old(self).spec_items().push(value),
    {
        self.storage.push(value);
        self.set_len_and_epoch(index + 1, epoch);
    }

    /// Moves items from the front of `iter` in until the storage is full or `iter` is empty.
    /// `Ok` if everything fit, `CapacityError` if not.
    pub fn extend(&mut self, iter: &mut VecDeque<T>) -> (r: Result<(), CapacityError<()>>)
        requires
            old(self).wf(),
        ensures
            final(self).wf(),
            final(self).spec_epoch() == old(self).spec_epoch(),
            ({
                let room = CHUNK_SIZE - old(self).spec_items().len();
                let moved = if old(iter)@.len() < room { old(iter)@.len() as int } else { room };
                &&& final(self).spec_items() == old(self).spec_items() + old(iter)@.subrange(0, moved)
                &&& final(iter)@ == old(iter)@.subrange(moved, old(iter)@.len() as int)
            }),
            r is Ok <==> old(self).spec_items().len() + old(iter)@.len() <= CHUNK_SIZE,
    {
        let ghost old_items = self.storage@;
        let ghost old_iter = iter@;
        let len_and_epoch = self.len_and_epoch();
        let epoch = len_and_epoch.epoch();
        let mut index: usize = len_and_epoch.len() as usize;
        loop
            invariant
                self.wf(),
                self.spec_epoch() == epoch,
                epoch == old(self).spec_epoch(),
                index == self.storage@.len(),
                index <= CHUNK_SIZE,
                old_items.len() <= index,
                index - old_items.len() <= old_iter.len(),
                self.storage@ == old_items + old_iter.subrange(0, index - old_items.len()),
                iter@ == old_iter.subrange(index - old_items.len(), old_iter.len() as int),
                old_items == old(self).spec_items(),
                old_iter == old(iter)@,
            decreases CHUNK_SIZE - index,
        {
            if iter.len() == 0 {
                self.set_len_and_epoch(index as u32, epoch);
                return Ok(());
            }
            if index == CHUNK_SIZE {
                self.set_len_and_epoch(CHUNK_SIZE as u32, epoch);
                return Err(CapacityError { value: () });
            }
            match iter.pop_front() {
                None => {
                    self.set_len_and_epoch(index as u32, epoch);
                    return Ok(());
                },
                Some(value) => {
                    self.storage.push(value);
                    self.set_len_and_epoch((index + 1) as u32, epoch);
                    proof {
                        assert(self.storage@ =~= old_items + old_iter.subrange(0, index + 1 - old_items.len()));
                        assert(iter@ =~= old_iter.subrange(index + 1 - old_items.len(), old_iter.len() as int));
                    }
                },
            }
            index += 1;
        }
    }

    /// The item at `index`.
    pub fn get_unchecked(&self, index: usize) -> (r: &T)
        requires
            index < self.spec_items().len(),
        ensures
            *r == self.spec_items()[index as int],
    {
        &self.storage[index]
    }

    pub fn len_and_epoch(&self) -> (r: LenAndEpoch)
        requires
            self.wf(),
        ensures
            r.spec_len() == self.spec_items().len(),
            r.spec_epoch() == self.spec_epoch(),
    {
        let r = LenAndEpoch::from(self.len_and_start_position_epoch);
        r
    }

    /// The number of items stored.
    pub fn len(&self) -> (r: usize)
        requires
            self.wf(),
        ensures
            r == self.spec_items().len(),
    {
        self.len_and_epoch().len() as usize
    }

    pub fn capacity(&self) -> (r: usize)
        ensures
            r == CHUNK_SIZE,
    {
        CHUNK_SIZE
    }
}

} // verus!
