use rc_event_queue::spmc::{EventQueue, EventReader};

#[test]
fn spmc_basic_test() {
    let mut event = EventQueue::<usize>::new();
    let mut reader1 = EventReader::new(&mut event);

    event.push(1);
    event.extend((2..5).collect());

    assert_eq!(reader1.read_copies(&mut event), vec![1, 2, 3, 4 as usize]);
}
