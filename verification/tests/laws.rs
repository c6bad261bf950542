use std::collections::VecDeque;
use rc_event_queue::chunk_storage::ChunkStorage;
use rc_event_queue::cursor::Cursor;
use rc_event_queue::dynamic_chunk::DynamicChunk;
use rc_event_queue::len_and_epoch::LenAndEpoch;
use rc_event_queue::mpmc::{EventQueue, EventReader, Settings};
use rc_event_queue::utils::{bitset_u64, bittest_u64, Epoch, U32Pair};
use rc_event_queue::{CleanupMode, StartPositionEpoch};

struct Small {}
impl Settings for Small {
    const MIN_CHUNK_SIZE: u32 = 4;
    const MAX_CHUNK_SIZE: u32 = 4;
}

struct Growing {}
impl Settings for Growing {
    const MIN_CHUNK_SIZE: u32 = 4;
    const MAX_CHUNK_SIZE: u32 = 32;
}

#[test]
fn every_reader_receives_every_pushed_event() {
    let mut event = EventQueue::<usize, Small>::new();
    let mut r1 = EventReader::new(&mut event);
    let mut r2 = EventReader::new(&mut event);
    event.push(1);
    event.extend(vec![2, 3, 4, 5, 6]);
    assert_eq!(r1.read_copies(&mut event), vec![1, 2, 3, 4, 5, 6]);
    event.push(7);
    assert_eq!(r1.read_copies(&mut event), vec![7]);
    assert_eq!(r2.read_copies(&mut event), vec![1, 2, 3, 4, 5, 6, 7]);
    assert_eq!(r2.read_copies(&mut event), Vec::<usize>::new());
}

#[test]
fn subscriber_does_not_see_older_events() {
    let mut event = EventQueue::<usize, Small>::new();
    event.extend(vec![1, 2, 3, 4, 5]);
    let mut reader = EventReader::new(&mut event);
    assert_eq!(reader.read_copies(&mut event), Vec::<usize>::new());
    event.push(6);
    assert_eq!(reader.read_copies(&mut event), vec![6]);
}

#[test]
fn clear_hides_older_events_from_every_reader() {
    let mut event = EventQueue::<usize, Small>::new();
    let mut r1 = EventReader::new(&mut event);
    let mut r2 = EventReader::new(&mut event);
    event.extend((0..10).collect());
    assert_eq!(r1.read_copies(&mut event), (0..10).collect::<Vec<usize>>());
    event.push(10);
    event.clear();
    event.push(11);
    assert_eq!(r1.read_copies(&mut event), vec![11]);
    assert_eq!(r2.read_copies(&mut event), vec![11]);
}

#[test]
fn clear_without_readers_keeps_only_last_chunk() {
    let mut event = EventQueue::<usize, Small>::new();
    event.extend((0..10).collect());
    assert_eq!(event.chunk_capacities(), vec![4, 4, 4]);
    event.clear();
    assert_eq!(event.chunk_capacities(), vec![4]);
    assert_eq!(event.chunk_lens(), vec![2]);
}

#[test]
fn truncate_front_longer_than_queue_changes_nothing() {
    let mut event = EventQueue::<usize, Small>::new();
    let mut reader = EventReader::new(&mut event);
    event.extend((0..6).collect());
    event.truncate_front(7);
    assert_eq!(event.chunk_capacities(), vec![4, 4]);
    assert_eq!(reader.read_copies(&mut event), (0..6).collect::<Vec<usize>>());
}

#[test]
fn truncate_front_keeps_last_items() {
    let mut event = EventQueue::<usize, Small>::new();
    let mut reader = EventReader::new(&mut event);
    event.extend((0..10).collect());
    event.truncate_front(3);
    assert_eq!(reader.read_copies(&mut event), vec![7, 8, 9]);
}

#[test]
fn chunks_grow_in_pairs_up_to_max() {
    let mut event = EventQueue::<usize, Growing>::new();
    event.extend((0..140).collect());
    assert_eq!(event.chunk_capacities(), vec![4, 4, 8, 8, 16, 16, 32, 32, 32]);
    assert_eq!(event.total_capacity(), 152);
    assert_eq!(event.chunk_capacity(), 32);
}

#[test]
fn chunk_occupied_by_a_reader_is_kept() {
    let mut event = EventQueue::<usize, Small>::new();
    let mut r1 = EventReader::new(&mut event);
    let mut r2 = EventReader::new(&mut event);
    event.extend((0..10).collect());
    r1.read_copies(&mut event);
    assert_eq!(event.chunk_capacities(), vec![4, 4, 4]);
    r2.read_copies(&mut event);
    assert_eq!(event.chunk_capacities(), vec![4]);
}

#[test]
fn unsubscribe_frees_chunks_nobody_needs() {
    let mut event = EventQueue::<usize, Small>::new();
    let r1 = EventReader::new(&mut event);
    event.extend((0..10).collect());
    assert_eq!(event.chunks_count(), 3);
    r1.unsubscribe(&mut event);
    assert_eq!(event.chunks_count(), 1);
}

#[test]
fn cleanup_never_keeps_chunks_until_asked() {
    struct S {}
    impl Settings for S {
        const MIN_CHUNK_SIZE: u32 = 4;
        const MAX_CHUNK_SIZE: u32 = 4;
        const CLEANUP: CleanupMode = CleanupMode::Never;
    }
    let mut event = EventQueue::<usize, S>::new();
    let r1 = EventReader::new(&mut event);
    event.extend((0..10).collect());
    r1.unsubscribe(&mut event);
    assert_eq!(event.chunks_count(), 3);
    event.cleanup();
    assert_eq!(event.chunks_count(), 1);
}

#[test]
fn read_stops_at_an_empty_chunk_and_goes_on_next_time() {
    let mut event = EventQueue::<usize, Small>::new();
    let mut reader = EventReader::new(&mut event);
    event.push(1);
    event.change_chunk_capacity(4);
    event.change_chunk_capacity(4);
    event.push(2);
    assert_eq!(event.chunk_lens(), vec![1, 0, 1]);
    assert_eq!(reader.read_copies(&mut event), vec![1]);
    assert_eq!(reader.read_copies(&mut event), vec![2]);
}

#[test]
fn stale_read_is_ignored() {
    let mut event = EventQueue::<usize, Small>::new();
    let mut reader = EventReader::new(&mut event);
    event.extend(vec![1, 2, 3]);
    let stale = reader.iter(&mut event);
    assert_eq!(reader.read_copies(&mut event), vec![1, 2, 3]);
    reader.finish_iter(&mut event, stale);
    event.push(4);
    assert_eq!(reader.read_copies(&mut event), vec![4]);
}

#[test]
fn epoch_wraps_after_max() {
    let e = Epoch::<3>::new(2);
    let e = e.increment();
    assert_eq!(e.into_inner(), 3);
    let e = e.increment();
    assert_eq!(e.into_inner(), 0);
    assert_eq!(Epoch::<3>::zero().into_inner(), 0);
    assert_eq!(StartPositionEpoch::new(0x7FFF_FFFF).increment().into_inner(), 0);
}

#[test]
fn u32_pair_packs_two_halves() {
    let p = U32Pair::from_u32(0x1234_5678, 0x9ABC_DEF0);
    assert_eq!(p.as_u64(), 0x9ABC_DEF0_1234_5678);
    assert_eq!(p.first(), 0x1234_5678);
    assert_eq!(p.second(), 0x9ABC_DEF0);
    let q = U32Pair::from_u64(0x0000_0001_FFFF_FFFF);
    assert_eq!(q.first(), 0xFFFF_FFFF);
    assert_eq!(q.second(), 1);
}

#[test]
fn bits_are_set_and_tested() {
    assert_eq!(bitset_u64::<3>(0, true), 8);
    assert_eq!(bitset_u64::<3>(0xFF, false), 0xF7);
    assert!(bittest_u64::<63>(1u64 << 63));
    assert!(!bittest_u64::<0>(2));
}

#[test]
fn len_and_epoch_round_trip() {
    let le = LenAndEpoch::new(7, 9);
    assert_eq!(le.len(), 7);
    assert_eq!(le.epoch(), 9);
    let v: u64 = le.into();
    assert_eq!(v, (9u64 << 32) | 7);
    let back = LenAndEpoch::from(v);
    assert_eq!(back.len(), 7);
    assert_eq!(back.epoch(), 9);
}

#[test]
fn chunk_storage_reports_full() {
    let mut storage = ChunkStorage::<usize, 2>::new(5);
    assert!(storage.try_push(1).is_ok());
    assert!(storage.try_push(2).is_ok());
    match storage.try_push(3) {
        Err(e) => assert_eq!(e.value, 3),
        Ok(()) => panic!("a full storage took an item"),
    }
    assert_eq!(storage.len(), 2);
    assert_eq!(storage.capacity(), 2);
    assert_eq!(storage.len_and_epoch().epoch(), 5);
    storage.set_epoch(6);
    assert_eq!(storage.len_and_epoch().epoch(), 6);
    assert_eq!(*storage.get_unchecked(1), 2);

    let mut more = ChunkStorage::<usize, 3>::new(0);
    let mut iter: VecDeque<usize> = VecDeque::from(vec![1, 2, 3, 4]);
    assert!(more.extend(&mut iter).is_err());
    assert_eq!(iter, VecDeque::from(vec![4]));
    let mut short = ChunkStorage::<usize, 3>::new(0);
    let mut iter2: VecDeque<usize> = VecDeque::from(vec![1]);
    assert!(short.extend(&mut iter2).is_ok());
    assert_eq!(short.len(), 1);
}

#[test]
fn dynamic_chunk_fills_to_capacity() {
    let mut chunk = DynamicChunk::<usize>::construct(3, StartPositionEpoch::new(2), 2);
    assert_eq!(chunk.id(), 3);
    assert!(chunk.try_push(10).is_ok());
    let mut iter: VecDeque<usize> = VecDeque::from(vec![11, 12]);
    assert!(chunk.extend(&mut iter).is_err());
    assert_eq!(iter, VecDeque::from(vec![12]));
    assert!(chunk.try_push(13).is_err());
    assert_eq!(chunk.chunk_state().len(), 2);
    assert_eq!(chunk.chunk_state().epoch().into_inner(), 2);
    assert_eq!(*chunk.get_unchecked(1), 11);
    chunk.set_next(true);
    assert!(chunk.chunk_state().has_next());
    chunk.mark_entered();
    assert_eq!(chunk.mark_read(), 0);
    assert_eq!(chunk.readers_entered(), 1);
    assert_eq!(chunk.read_completely_times(), 1);
}

#[test]
fn cursor_orders_by_chunk_then_index() {
    let a = Cursor { chunk: 1, index: 5 };
    let b = Cursor { chunk: 2, index: 0 };
    let c = Cursor { chunk: 2, index: 1 };
    assert!(a.lt(&b));
    assert!(b.lt(&c));
    assert!(!c.lt(&b));
    assert!(!b.lt(&b));
}

#[test]
fn one_reader_reading_leaves_others_their_events() {
    let mut event = EventQueue::<usize, Small>::new();
    let mut r1 = EventReader::new(&mut event);
    let mut r2 = EventReader::new(&mut event);
    let r3 = EventReader::new(&mut event);
    event.extend((0..9).collect());
    assert_eq!(r1.read_copies(&mut event), (0..9).collect::<Vec<usize>>());
    r3.unsubscribe(&mut event);
    event.push(9);
    assert_eq!(r2.read_copies(&mut event), (0..10).collect::<Vec<usize>>());
    assert_eq!(r1.read_copies(&mut event), vec![9]);
}

#[test]
fn change_chunk_capacity_loses_no_event() {
    let mut event = EventQueue::<usize, Growing>::new();
    let mut reader = EventReader::new(&mut event);
    event.extend(vec![1, 2, 3]);
    event.change_chunk_capacity(16);
    assert_eq!(event.chunk_capacities(), vec![4, 16]);
    assert_eq!(event.chunk_capacity(), 16);
    event.push(4);
    assert_eq!(reader.read_copies(&mut event), vec![1, 2, 3, 4]);
}

#[test]
fn cleanup_keeps_what_readers_have_left() {
    struct Manual {}
    impl Settings for Manual {
        const MIN_CHUNK_SIZE: u32 = 4;
        const MAX_CHUNK_SIZE: u32 = 4;
        const CLEANUP: CleanupMode = CleanupMode::Never;
    }
    let mut event = EventQueue::<usize, Manual>::new();
    let mut r1 = EventReader::new(&mut event);
    let mut r2 = EventReader::new(&mut event);
    event.extend((0..12).collect());
    assert_eq!(r1.read_copies(&mut event), (0..12).collect::<Vec<usize>>());
    event.cleanup();
    assert_eq!(event.chunks_count(), 3);
    assert_eq!(r2.read_copies(&mut event), (0..12).collect::<Vec<usize>>());
    event.cleanup();
    assert_eq!(event.chunks_count(), 1);
    assert_eq!(event.total_capacity(), 4);
}

#[test]
fn spmc_readers_leave_cleanup_to_the_writer() {
    struct Four {}
    impl rc_event_queue::spmc::Settings for Four {
        const MIN_CHUNK_SIZE: u32 = 4;
        const MAX_CHUNK_SIZE: u32 = 4;
    }
    let mut event = rc_event_queue::spmc::EventQueue::<usize, Four>::new();
    let mut reader = rc_event_queue::spmc::EventReader::new(&mut event);
    event.extend((0..12).collect());
    assert_eq!(event.chunks_count(), 3);
    assert_eq!(reader.read_copies(&mut event), (0..12).collect::<Vec<usize>>());
    assert_eq!(event.chunks_count(), 3);
    event.push(12);
    assert_eq!(event.chunks_count(), 2);
    assert_eq!(reader.read_copies(&mut event), vec![12]);
}

#[test]
fn extend_that_fills_exactly_is_ok() {
    let mut storage = ChunkStorage::<usize, 3>::new(0);
    let mut iter: VecDeque<usize> = VecDeque::from(vec![1, 2, 3]);
    assert!(storage.extend(&mut iter).is_ok());
    assert_eq!(storage.len(), 3);
    assert!(iter.is_empty());
    let mut chunk = DynamicChunk::<usize>::construct(0, StartPositionEpoch::new(0), 2);
    let mut iter2: VecDeque<usize> = VecDeque::from(vec![7, 8]);
    assert!(chunk.extend(&mut iter2).is_ok());
    assert_eq!(chunk.chunk_state().len(), 2);
    assert!(iter2.is_empty());
}

#[test]
fn extend_leaves_the_layout_of_the_same_pushes() {
    let mut by_extend = EventQueue::<usize, Growing>::new();
    let mut by_push = EventQueue::<usize, Growing>::new();
    let _r1 = EventReader::new(&mut by_extend);
    let _r2 = EventReader::new(&mut by_push);
    by_extend.extend((0..32).collect());
    for v in 0..32 {
        by_push.push(v);
    }
    assert_eq!(by_extend.chunk_capacities(), vec![4, 4, 8, 8, 16]);
    assert_eq!(by_extend.chunk_capacities(), by_push.chunk_capacities());
    assert_eq!(by_extend.chunk_lens(), by_push.chunk_lens());
    assert_eq!(by_extend.chunk_id_counter(), by_push.chunk_id_counter());
}

#[test]
fn a_read_yields_its_snapshot_though_the_chunk_grew() {
    let mut event = EventQueue::<usize, Small>::new();
    let mut reader = EventReader::new(&mut event);
    event.push(1);
    let mut it = reader.iter(&mut event);
    event.push(2);
    assert_eq!(it.next(&event), Some(&1));
    assert_eq!(it.next(&event), None);
    reader.finish_iter(&mut event, it);
    assert_eq!(reader.read_copies(&mut event), vec![2]);
}

#[test]
fn truncate_front_zero_acts_as_clear() {
    let mut truncated = EventQueue::<usize, Small>::new();
    let mut cleared = EventQueue::<usize, Small>::new();
    let mut r1 = EventReader::new(&mut truncated);
    let mut r2 = EventReader::new(&mut cleared);
    truncated.extend((0..10).collect());
    cleared.extend((0..10).collect());
    assert_eq!(r1.read_copies(&mut truncated), (0..10).collect::<Vec<usize>>());
    assert_eq!(r2.read_copies(&mut cleared), (0..10).collect::<Vec<usize>>());
    truncated.extend(vec![10, 11]);
    cleared.extend(vec![10, 11]);
    truncated.truncate_front(0);
    cleared.clear();
    assert_eq!(truncated.chunk_capacities(), cleared.chunk_capacities());
    assert_eq!(truncated.chunk_lens(), cleared.chunk_lens());
    assert_eq!(truncated.chunk_id_counter(), cleared.chunk_id_counter());
    assert_eq!(truncated.chunk_capacities(), vec![4]);
    truncated.push(12);
    cleared.push(12);
    assert_eq!(r1.read_copies(&mut truncated), vec![12]);
    assert_eq!(r2.read_copies(&mut cleared), vec![12]);
}

#[test]
fn truncate_front_keeps_what_readers_after_the_start_have_left() {
    let mut event = EventQueue::<usize, Small>::new();
    let mut behind = EventReader::new(&mut event);
    let mut ahead = EventReader::new(&mut event);
    event.extend((0..10).collect());
    let mut it = ahead.iter(&mut event);
    for expected in 0..9 {
        assert_eq!(it.next(&event), Some(&expected));
    }
    ahead.finish_iter(&mut event, it);
    event.truncate_front(3);
    assert_eq!(behind.read_copies(&mut event), vec![7, 8, 9]);
    assert_eq!(ahead.read_copies(&mut event), vec![9]);
}

#[test]
fn update_position_acts_as_a_read_that_takes_nothing() {
    let mut updated = EventQueue::<usize, Small>::new();
    let mut emptied = EventQueue::<usize, Small>::new();
    let mut r1 = EventReader::new(&mut updated);
    let mut r2 = EventReader::new(&mut emptied);
    updated.extend((0..10).collect());
    emptied.extend((0..10).collect());
    updated.clear();
    emptied.clear();
    updated.push(10);
    emptied.push(10);
    r1.update_position(&mut updated);
    let it = r2.iter(&mut emptied);
    r2.finish_iter(&mut emptied, it);
    assert_eq!(updated.chunk_capacities(), emptied.chunk_capacities());
    assert_eq!(updated.chunk_lens(), emptied.chunk_lens());
    assert_eq!(updated.readers_count(), emptied.readers_count());
    assert_eq!(r1.read_copies(&mut updated), vec![10]);
    assert_eq!(r2.read_copies(&mut emptied), vec![10]);
}
