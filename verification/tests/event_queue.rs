use rand::Rng;
use rc_event_queue::mpmc::{DefaultSettings, EventQueue, EventReader, Settings};
use rc_event_queue::CleanupMode;

struct S {}
impl Settings for S {
    const MIN_CHUNK_SIZE: u32 = 4;
    const MAX_CHUNK_SIZE: u32 = u32::MAX;
    const CLEANUP: CleanupMode = DefaultSettings::CLEANUP;
}

fn consume_copies<T: Copy, Q: Settings>(reader: &mut EventReader<T, Q>, event: &mut EventQueue<T, Q>) -> Vec<T> {
    reader.read_copies(event)
}

/// Reads at most `len` items, then ends the read.
fn skip<T, Q: Settings>(reader: &mut EventReader<T, Q>, event: &mut EventQueue<T, Q>, len: usize) {
    let mut it = reader.iter(event);
    let mut i = 0;
    while let Some(_) = it.next(event) {
        i += 1;
        if i == len {
            break;
        }
    }
    reader.finish_iter(event, it);
}

fn factual_capacity<T, Q: Settings>(event: &EventQueue<T, Q>) -> usize {
    event.chunk_capacities().iter().sum()
}

#[test]
fn chunks_size_test() {
    let mut event = EventQueue::<usize, S>::new();
    event.extend((0..32).collect());

    assert_eq!(event.chunk_capacities(), vec![4, 4, 8, 8, 16]);
}

#[test]
fn resize_test() {
    let mut event = EventQueue::<usize, S>::new();
    let mut reader = EventReader::new(&mut event);

    event.extend((0..32).collect());
    assert_eq!(event.chunk_capacities(), vec![4, 4, 8, 8, 16]);

    event.change_chunk_capacity(6);
    assert_eq!(event.chunk_capacities(), vec![4, 4, 8, 8, 16, 6]);
    assert_eq!(event.chunk_lens(), vec![4, 4, 8, 8, 8, 0]);

    event.push(32);
    assert_eq!(event.chunk_capacities(), vec![4, 4, 8, 8, 16, 6]);
    assert_eq!(event.chunk_lens(), vec![4, 4, 8, 8, 8, 1]);

    consume_copies(&mut reader, &mut event);
    assert_eq!(event.chunk_capacities(), vec![6]);
    assert_eq!(event.chunk_lens(), vec![1]);

    event.extend((0..6).collect());
    assert_eq!(event.chunk_capacities(), vec![6, 6]);
    assert_eq!(event.chunk_lens(), vec![6, 1]);
}

#[test]
fn truncate_front_test() {
    let mut event = EventQueue::<usize, S>::new();
    let mut reader = EventReader::new(&mut event);

    event.extend((0..26).collect());
    assert_eq!(event.chunk_capacities(), vec![4, 4, 8, 8, 16]);

    // basic
    event.truncate_front(4);
    reader.update_position(&mut event);
    assert_eq!(event.chunk_capacities(), vec![8, 16]);
    assert_eq!(consume_copies(&mut reader, &mut event), vec![22, 23, 24, 25]);

    // more then queue
    event.extend((0..5).collect());
    event.truncate_front(10);
    assert_eq!(consume_copies(&mut reader, &mut event), (0..5).collect::<Vec<usize>>());

    // clear all queue
    event.extend((0..5).collect());
    event.truncate_front(0);
    assert_eq!(consume_copies(&mut reader, &mut event), Vec::<usize>::new());
}

#[test]
fn force_cleanup_test() {
    struct S {}
    impl Settings for S {
        const MIN_CHUNK_SIZE: u32 = 4;
        const MAX_CHUNK_SIZE: u32 = 4;
    }
    // clear force cleanup effect
    {
        let mut event = EventQueue::<usize, S>::new();
        let _reader = EventReader::new(&mut event);

        event.extend((0..16).collect());
        assert_eq!(event.chunk_capacities(), vec![4, 4, 4, 4]);

        event.clear();
        // first - because occupied by reader, last - because tip of the queue
        assert_eq!(event.chunk_capacities(), vec![4, 4]);
    }
    // truncate force cleanup effect
    {
        let mut event = EventQueue::<usize, S>::new();
        let _reader = EventReader::new(&mut event);

        event.extend((0..20).collect());
        assert_eq!(event.chunk_capacities(), vec![4, 4, 4, 4, 4]);

        event.truncate_front(6);
        // first + 2 last
        assert_eq!(event.chunk_capacities(), vec![4, 4, 4]);
    }
}

#[test]
fn capacity_test() {
    let mut event = EventQueue::<usize, S>::new();

    event.extend((0..26).collect());
    assert_eq!(event.chunk_capacities(), vec![4, 4, 8, 8, 16]);

    assert_eq!(event.chunk_capacity(), 16);
    assert_eq!(event.total_capacity(), event.chunk_capacities().iter().sum());
}

#[test]
fn fuzzy_capacity_size_test() {
    let mut rng = rand::thread_rng();
    for _ in 0..100 {
        let size = rng.gen_range(0..100000 as usize);
        let mut event = EventQueue::<usize, S>::new();
        let mut reader = EventReader::new(&mut event);
        event.extend((0..size).collect());
        {
            let mut it = reader.iter(&mut event);
            for _ in 0..rng.gen_range(0..1000) {
                it.next(&event);
            }
            reader.finish_iter(&mut event, it);
        }

        assert_eq!(event.total_capacity(), factual_capacity(&event));
    }
}

#[test]
#[allow(non_snake_case)]
fn CleanupMode_OnNewChunk_test() {
    struct S {}
    impl Settings for S {
        const MIN_CHUNK_SIZE: u32 = 4;
        const MAX_CHUNK_SIZE: u32 = 4;
        const CLEANUP: CleanupMode = CleanupMode::OnNewChunk;
    }
    let mut event = EventQueue::<usize, S>::new();
    let mut reader = EventReader::new(&mut event);

    event.extend((0..16).collect());
    assert_eq!(event.chunk_capacities(), vec![4, 4, 4, 4]);

    // 8 - will stop reader on the very last element of 2nd chunk. And will not leave it. So use 9
    skip(&mut reader, &mut event, 9);
    assert_eq!(event.chunk_capacities(), vec![4, 4, 4, 4]);

    event.push(100);
    assert_eq!(event.chunk_capacities(), vec![4, 4, 4]);
}

#[test]
#[allow(non_snake_case)]
fn CleanupMode_Never_test() {
    struct S {}
    impl Settings for S {
        const MIN_CHUNK_SIZE: u32 = 4;
        const MAX_CHUNK_SIZE: u32 = 4;
        const CLEANUP: CleanupMode = CleanupMode::Never;
    }
    let mut event = EventQueue::<usize, S>::new();
    let mut reader = EventReader::new(&mut event);

    event.extend((0..12).collect());
    assert_eq!(event.chunk_capacities(), vec![4, 4, 4]);

    skip(&mut reader, &mut event, 5);
    assert_eq!(event.chunk_capacities(), vec![4, 4, 4]);

    event.push(100);
    assert_eq!(event.chunk_capacities(), vec![4, 4, 4, 4]);

    consume_copies(&mut reader, &mut event);
    assert_eq!(event.chunk_capacities(), vec![4, 4, 4, 4]);

    event.cleanup();
    assert_eq!(event.chunk_capacities(), vec![4]);
}
