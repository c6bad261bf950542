# rc_event_queue

A reader-counted FIFO event queue: every subscribed reader receives every event pushed after it
subscribed. Events live in a list of chunks; each chunk counts the readers that entered it and
the readers that read it to the end, and a chunk at the front is freed once no reader stands in it.

## Layout

- `src/` - the library, verified with Verus.
  - `event_queue.rs` - the queue, its readers and reads: push, extend, subscribe, read,
    cleanup, clear, truncate_front, change_chunk_capacity, with their contracts over the chunk list.
  - `laws.rs` - properties that span operations: what a push gives every reader, what a clear or a
    truncation leaves to each reader, what cleanup may free, that `extend` equals the same pushes,
    that `truncate_front(0)` equals `clear`, that `update_position` equals a read that takes
    nothing, and where a finished read resumes.
  - `dynamic_chunk.rs`, `chunk_storage.rs` - chunks of bounded capacity.
  - `chunk_state.rs`, `len_and_epoch.rs`, `utils.rs` - bit-packed chunk states and counters.
  - `cursor.rs` - read positions and the count of readers per chunk.
  - `mpmc.rs`, `spmc.rs` - the two configurations of the queue.
- `app/` - thread-safe handles: a queue shared behind a `parking_lot` lock, readers that
  unsubscribe when dropped, and reads that hand their position back when their iterator drops.
- `tests/` - tests of the library.
