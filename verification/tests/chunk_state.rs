use rand::Rng;
use rc_event_queue::chunk_state::{ChunkState, PackedChunkState};
use rc_event_queue::StartPositionEpoch;

#[test]
fn pack_unpack_fuzzy_test() {
    let mut rng = rand::thread_rng();

    for _ in 0..100000 {
        let state = ChunkState {
            len: rng.gen_range(0..u32::MAX),
            epoch: StartPositionEpoch::new(rng.gen_range(0..u32::MAX / 2)),
            has_next: rng.gen_bool(0.5),
        };

        let pack = PackedChunkState::pack(state.clone());
        let unpacked = pack.unpack();
        assert_eq!(state, unpacked);
    }
}

#[test]
fn pack_unpack_data_test() {
    let state = ChunkState {
        len: 1356995898,
        epoch: StartPositionEpoch::new(1624221158),
        has_next: true,
    };

    let pack = PackedChunkState::pack(state.clone());
    let unpacked = pack.unpack();
    assert_eq!(state, unpacked);
}

#[test]
fn setters_fuzzy_test() {
    let mut rng = rand::thread_rng();

    for _ in 0..100000 {
        let state1 = ChunkState {
            len: rng.gen_range(0..u32::MAX),
            epoch: StartPositionEpoch::new(rng.gen_range(0..u32::MAX / 2)),
            has_next: rng.gen_bool(0.5),
        };
        let state2 = ChunkState {
            len: rng.gen_range(0..u32::MAX),
            epoch: StartPositionEpoch::new(rng.gen_range(0..u32::MAX / 2)),
            has_next: rng.gen_bool(0.5),
        };

        let mut pack1 = PackedChunkState::pack(state1.clone());
        pack1.set_len(state2.len);
        pack1.set_has_next(state2.has_next);
        pack1.set_epoch(state2.epoch);

        let pack2 = PackedChunkState::pack(state2.clone());
        assert_eq!(pack1, pack2);

        let unpacked1 = pack1.unpack();
        let unpacked2 = pack2.unpack();
        assert_eq!(unpacked1, unpacked2);
    }
}
