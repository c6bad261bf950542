use std::sync::atomic::{AtomicUsize, Ordering};
use rc_event_queue::mpmc::{DefaultSettings, EventQueue, EventReader, Settings};
use rc_event_queue::CleanupMode;

struct Data<F: FnMut()> {
    id: usize,
    _name: String,
    on_destroy: F,
}

impl<F: FnMut()> Data<F> {
    fn from(i: usize, on_destroy: F) -> Self {
        Self { id: i, _name: i.to_string(), on_destroy }
    }
}

impl<F: FnMut()> Drop for Data<F> {
    fn drop(&mut self) {
        (self.on_destroy)();
    }
}

/// Reads every unread item, mapping each through `f`.
fn consume_mapped<T, R, Q: Settings>(
    reader: &mut EventReader<T, Q>,
    event: &mut EventQueue<T, Q>,
    f: impl Fn(&T) -> R,
) -> Vec<R> {
    let mut v = Vec::new();
    let mut it = reader.iter(event);
    while let Some(item) = it.next(event) {
        v.push(f(item));
    }
    reader.finish_iter(event, it);
    v
}

#[test]
fn mpmc_push_drop_test() {
    let destruct_counter = AtomicUsize::new(0);
    let destruct_counter_ref = &destruct_counter;
    let on_destroy = || {
        destruct_counter_ref.fetch_add(1, Ordering::Relaxed);
    };

    struct S {}
    impl Settings for S {
        const MIN_CHUNK_SIZE: u32 = 4;
        const MAX_CHUNK_SIZE: u32 = 4;
        const CLEANUP: CleanupMode = DefaultSettings::CLEANUP;
    }

    let mut chunk_list = EventQueue::<_, S>::new();
    let mut reader = EventReader::new(&mut chunk_list);

    chunk_list.push(Data::from(0, on_destroy));
    chunk_list.push(Data::from(1, on_destroy));
    chunk_list.push(Data::from(2, on_destroy));
    chunk_list.push(Data::from(3, on_destroy));

    chunk_list.push(Data::from(4, on_destroy));

    assert_eq!(consume_mapped(&mut reader, &mut chunk_list, |data| data.id), vec![0, 1, 2, 3, 4]);

    // Only first chunk should be freed
    assert!(destruct_counter.load(Ordering::Relaxed) == 4);
    // The queue lives on while its reader does.
    assert!(destruct_counter.load(Ordering::Relaxed) == 4);
    reader.unsubscribe(&mut chunk_list);
    drop(chunk_list);
    assert!(destruct_counter.load(Ordering::Relaxed) == 5);
}

#[test]
fn mpmc_read_on_full_chunk_test() {
    let destruct_counter = AtomicUsize::new(0);
    let destruct_counter_ref = &destruct_counter;
    let on_destroy = || {
        destruct_counter_ref.fetch_add(1, Ordering::Relaxed);
    };

    {
        struct S {}
        impl Settings for S {
            const MIN_CHUNK_SIZE: u32 = 4;
            const MAX_CHUNK_SIZE: u32 = 4;
            const CLEANUP: CleanupMode = DefaultSettings::CLEANUP;
        }

        let mut chunk_list = EventQueue::<_, S>::new();
        let mut reader = EventReader::new(&mut chunk_list);

        chunk_list.push(Data::from(0, on_destroy));
        chunk_list.push(Data::from(1, on_destroy));
        chunk_list.push(Data::from(2, on_destroy));
        chunk_list.push(Data::from(3, on_destroy));

        assert_eq!(consume_mapped(&mut reader, &mut chunk_list, |data| data.id), vec![0, 1, 2, 3]);
        assert!(destruct_counter.load(Ordering::Relaxed) == 0);

        assert_eq!(consume_mapped(&mut reader, &mut chunk_list, |data| data.id), Vec::<usize>::new());
        assert!(destruct_counter.load(Ordering::Relaxed) == 0);
    }
    assert!(destruct_counter.load(Ordering::Relaxed) == 4);
}

#[test]
fn mpmc_huge_push_test() {
    struct S {}
    impl Settings for S {
        const MIN_CHUNK_SIZE: u32 = 4;
        const MAX_CHUNK_SIZE: u32 = 4;
        const CLEANUP: CleanupMode = DefaultSettings::CLEANUP;
    }

    let mut event = EventQueue::<usize, S>::new();
    let mut reader = EventReader::new(&mut event);

    let len = 100000;

    for i in 0..len {
        event.push(i);
    }

    reader.read_copies(&mut event);
}

#[test]
fn mpmc_extend_test() {
    struct S {}
    impl Settings for S {
        const MIN_CHUNK_SIZE: u32 = 8;
        const MAX_CHUNK_SIZE: u32 = 8;
        const CLEANUP: CleanupMode = DefaultSettings::CLEANUP;
    }

    let mut event = EventQueue::<usize, S>::new();
    let mut reader = EventReader::new(&mut event);

    let len = 100000;
    let rng = 0..len;

    event.extend(rng.clone().collect());

    assert_eq!(reader.read_copies(&mut event).iter().sum::<usize>(), rng.sum());
}

#[test]
fn clear_test() {
    struct S {}
    impl Settings for S {
        const MIN_CHUNK_SIZE: u32 = 4;
        const MAX_CHUNK_SIZE: u32 = 4;
        const CLEANUP: CleanupMode = DefaultSettings::CLEANUP;
    }

    let mut event = EventQueue::<usize, S>::new();
    let mut reader = EventReader::new(&mut event);

    event.push(0);
    event.push(1);
    event.push(2);
    event.push(3);

    event.clear();
    {
        let mut it = reader.iter(&mut event);
        assert!(it.next(&event).is_none());
        reader.finish_iter(&mut event, it);
    }

    event.push(4);
    event.push(5);
    assert_eq!(reader.read_copies(&mut event), vec![4, 5 as usize]);
}
