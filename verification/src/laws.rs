use vstd::prelude::*;
use crate::cursor::{Cursor, ReaderView, cursor_lt, occupancy};
use crate::dynamic_chunk::{DynamicChunk, counter_diff, wrapped_next};
use crate::event_queue::{
    EventQueue, Settings, concat_items, items_from, valid_cursor, sum_capacity, next_epoch, has_chunk, chunk_index,
    ids_increasing, occupied_pred,
    lemma_concat_items_append, lemma_chunk_index, lemma_valid_has_chunk,
};
use crate::chunk_state::{PackedChunkState, packed_of, max_epoch};
use crate::event_queue::CleanupMode;
use crate::chunk_storage::ChunkStorage;

verus! {

/// What is pushed reaches every subscribed reader: after a push of `vs`, what each reader has
/// left to read is what it had before, followed by `vs`; and every position a reader may stand at
/// reads `vs` after what it read before.
pub proof fn law_push_reaches_every_reader<T, S: Settings>(q0: EventQueue<T, S>, q1: EventQueue<T, S>, vs: Seq<T>)
    requires
        q0.wf(),
        q1.wf(),
        EventQueue::pushed(q0, q1, vs),
    ensures
        q1.readers() == q0.readers(),
        forall|r: int| #[trigger] q1.readers().contains_key(r) ==>
            EventQueue::unread(q1, q1.readers()[r]) == EventQueue::unread(q0, q0.readers()[r]) + vs,
        forall|r: int| #[trigger] q1.readers().contains_key(r) ==>
            items_from(q1.chunks(), q1.readers()[r].position)
                == items_from(q0.chunks(), q1.readers()[r].position) + vs,
{
    assert forall|r: int| #[trigger] q1.readers().contains_key(r) implies
        items_from(q1.chunks(), q1.readers()[r].position)
            == items_from(q0.chunks(), q1.readers()[r].position) + vs by {
        let c = q1.readers()[r].position;
        assert(q0.readers().contains_key(r));
        lemma_valid_has_chunk(q1.chunks(), c);
    }
}

/// After `clear`, a reader that has not seen the new start position reads nothing of what was
/// pushed before.
pub proof fn law_clear_leaves_nothing_to_read<T, S: Settings>(q0: EventQueue<T, S>, q1: EventQueue<T, S>)
    requires
        q0.wf(),
        q1.wf(),
        EventQueue::moved_start(q0, q1, q0.end()),
    ensures
        q1.start_position() == Some(q0.end()),
        q1.epoch() == next_epoch(q0.epoch()),
        q1.readers() == q0.readers(),
        forall|r: int| #[trigger] q1.readers().contains_key(r) && q1.readers()[r].epoch != q1.epoch() ==>
            items_from(q1.chunks(), EventQueue::effective_position(q1, q1.readers()[r])) == Seq::<T>::empty(),
{
    EventQueue::lemma_end_reads_nothing(q0);
    EventQueue::lemma_moved_start(q0, q1, q0.end());
    EventQueue::lemma_end_reads_nothing(q1);
    assert forall|r: int| #[trigger] q1.readers().contains_key(r) && q1.readers()[r].epoch != q1.epoch() implies
        items_from(q1.chunks(), EventQueue::effective_position(q1, q1.readers()[r])) == Seq::<T>::empty() by {
        let c = q1.readers()[r].position;
        let a = q1.chunks();
        let n = a.len();
        let k = crate::event_queue::chunk_index(a, c.chunk);
        assert(a[k].spec_id() == c.chunk);
        if k < n - 1 {
            assert(a[k].spec_id() < a[n - 1].spec_id());
        }
        lemma_chunk_index(a, n - 1);
        a[n - 1].lemma_wf();
        if !cursor_lt(c, q1.end()) {
            assert(c.chunk == q1.end().chunk);
            assert(k == n - 1);
            assert(c.index == q1.end().index);
            assert(c == q1.end());
        }
    }
}

/// The items from position `i` of `chunks` on are the last items of all of them.
pub proof fn lemma_suffix_items<T>(chunks: Seq<DynamicChunk<T>>, i: int)
    requires
        0 <= i <= chunks.len(),
    ensures
        concat_items(chunks) == concat_items(chunks.subrange(0, i)) + concat_items(chunks.subrange(i, chunks.len() as int)),
{
    lemma_concat_items_append(chunks.subrange(0, i), chunks.subrange(i, chunks.len() as int));
    assert(chunks.subrange(0, i) + chunks.subrange(i, chunks.len() as int) =~= chunks);
}

/// The start position that `truncate_front(len)` picks reads the last `len` items of the queue.
pub proof fn law_truncate_position_reads_last_items<T, S: Settings>(q: EventQueue<T, S>, len: nat, i: int)
    requires
        q.wf(),
        EventQueue::<T, S>::truncate_position(q.chunks(), len, i),
    ensures
        ({
            let all = concat_items(q.chunks());
            let c = Cursor {
                chunk: q.chunks()[i].spec_id(),
                index: (EventQueue::<T, S>::suffix_len(q.chunks(), i) - len) as usize,
            };
            &&& valid_cursor(q.chunks(), c)
            &&& items_from(q.chunks(), c) == all.subrange(all.len() - len, all.len() as int)
        }),
{
    let chunks = q.chunks();
    let n = chunks.len() as int;
    let all = concat_items(chunks);
    let si = EventQueue::<T, S>::suffix_len(chunks, i);
    let c = Cursor { chunk: chunks[i].spec_id(), index: (si - len) as usize };
    EventQueue::<T, S>::lemma_suffix_split(chunks, i);
    lemma_suffix_items(chunks, i);
    lemma_chunk_index(chunks, i);
    chunks[i].lemma_wf();
    if i + 1 < n {
        assert(EventQueue::<T, S>::suffix_len(chunks, i + 1) < len);
    } else {
        assert(chunks.subrange(n, n) =~= Seq::<DynamicChunk<T>>::empty());
        assert(concat_items(Seq::<DynamicChunk<T>>::empty()) == Seq::<T>::empty());
    }
    assert(si - len <= chunks[i].spec_len());
    assert(valid_cursor(chunks, c));
    let pre = concat_items(chunks.subrange(0, i));
    let items = chunks[i].spec_items();
    let rest = concat_items(chunks.subrange(i + 1, n));
    assert(all == pre + (items + rest));
    assert(items_from(chunks, c) == items.subrange(si - len, items.len() as int) + rest);
    assert(items_from(chunks, c) =~= all.subrange(all.len() - len, all.len() as int));
}

/// After `truncate_front(len)`, a reader that stands before the new start position and has not
/// seen it reads exactly the last `len` items that the queue held.
pub proof fn law_truncate_front_keeps_last_items<T, S: Settings>(
    q0: EventQueue<T, S>,
    q1: EventQueue<T, S>,
    len: nat,
    i: int,
    r: int,
)
    requires
        q0.wf(),
        q1.wf(),
        EventQueue::<T, S>::truncate_position(q0.chunks(), len, i),
        EventQueue::moved_start(q0, q1, Cursor {
            chunk: q0.chunks()[i].spec_id(),
            index: (EventQueue::<T, S>::suffix_len(q0.chunks(), i) - len) as usize,
        }),
        q1.readers().contains_key(r),
        q1.readers()[r].epoch != q1.epoch(),
        cursor_lt(q1.readers()[r].position, Cursor {
            chunk: q0.chunks()[i].spec_id(),
            index: (EventQueue::<T, S>::suffix_len(q0.chunks(), i) - len) as usize,
        }),
    ensures
        ({
            let all = concat_items(q0.chunks());
            items_from(q1.chunks(), EventQueue::effective_position(q1, q1.readers()[r]))
                == all.subrange(all.len() - len, all.len() as int)
        }),
{
    let c = Cursor {
        chunk: q0.chunks()[i].spec_id(),
        index: (EventQueue::<T, S>::suffix_len(q0.chunks(), i) - len) as usize,
    };
    law_truncate_position_reads_last_items(q0, len, i);
    EventQueue::lemma_moved_start(q0, q1, c);
}

/// Fewer items remain from a later chunk of `chunks` on.
pub proof fn lemma_suffix_len_decreasing<T, S: Settings>(chunks: Seq<DynamicChunk<T>>, i: int, j: int)
    requires
        0 <= i <= j < chunks.len(),
    ensures
        EventQueue::<T, S>::suffix_len(chunks, j) <= EventQueue::<T, S>::suffix_len(chunks, i),
    decreases j - i,
{
    if i < j {
        EventQueue::<T, S>::lemma_suffix_split(chunks, i);
        lemma_suffix_len_decreasing::<T, S>(chunks, i + 1, j);
    }
}

/// What a cursor reads is the end of all the items of `chunks`, and a later cursor reads no more
/// than an earlier one.
pub proof fn lemma_items_from_suffix<T, S: Settings>(chunks: Seq<DynamicChunk<T>>, c: Cursor, x: Cursor)
    requires
        ids_increasing(chunks),
        valid_cursor(chunks, c),
        valid_cursor(chunks, x),
        !cursor_lt(x, c),
    ensures
        ({
            let all = concat_items(chunks);
            let rest = items_from(chunks, x);
            &&& rest.len() <= items_from(chunks, c).len()
            &&& rest == all.subrange(all.len() - rest.len(), all.len() as int)
        }),
{
    let n = chunks.len() as int;
    let t = chunk_index(chunks, c.chunk);
    let kx = chunk_index(chunks, x.chunk);
    assert(chunks[t].spec_id() == c.chunk);
    assert(chunks[kx].spec_id() == x.chunk);
    if kx < t {
        assert(chunks[kx].spec_id() < chunks[t].spec_id());
    }
    EventQueue::<T, S>::lemma_suffix_split(chunks, kx);
    EventQueue::<T, S>::lemma_suffix_split(chunks, t);
    if kx > t {
        lemma_suffix_len_decreasing::<T, S>(chunks, t + 1, kx);
    }
    lemma_suffix_items(chunks, kx);
    let all = concat_items(chunks);
    let pre = concat_items(chunks.subrange(0, kx));
    let items = chunks[kx].spec_items();
    let tail = concat_items(chunks.subrange(kx + 1, n));
    assert(all == pre + (items + tail));
    let rest = items_from(chunks, x);
    assert(rest == items.subrange(x.index as int, items.len() as int) + tail);
    assert(rest =~= all.subrange(all.len() - rest.len(), all.len() as int));
}

/// After `truncate_front(len)`, every reader reads the last of the queue's items: one that stands
/// before the new start position, and has not seen it, reads exactly the last `len` items; one at
/// or after it keeps exactly what it had from its position, which are the last items of the
/// queue, no more than `len` of them.
pub proof fn law_truncate_front_for_every_reader<T, S: Settings>(
    q0: EventQueue<T, S>,
    q1: EventQueue<T, S>,
    len: nat,
    i: int,
    r: int,
)
    requires
        q0.wf(),
        q1.wf(),
        EventQueue::<T, S>::truncate_position(q0.chunks(), len, i),
        EventQueue::moved_start(q0, q1, Cursor {
            chunk: q0.chunks()[i].spec_id(),
            index: (EventQueue::<T, S>::suffix_len(q0.chunks(), i) - len) as usize,
        }),
        q1.readers().contains_key(r),
        q1.readers()[r].epoch != q1.epoch() || !cursor_lt(q1.readers()[r].position, Cursor {
            chunk: q0.chunks()[i].spec_id(),
            index: (EventQueue::<T, S>::suffix_len(q0.chunks(), i) - len) as usize,
        }),
    ensures
        ({
            let all = concat_items(q0.chunks());
            let c = Cursor {
                chunk: q0.chunks()[i].spec_id(),
                index: (EventQueue::<T, S>::suffix_len(q0.chunks(), i) - len) as usize,
            };
            let pos = q1.readers()[r].position;
            let left = EventQueue::unread(q1, q1.readers()[r]);
            &&& q1.readers() == q0.readers()
            &&& left == if cursor_lt(pos, c) {
                    all.subrange(all.len() - len, all.len() as int)
                } else {
                    items_from(q0.chunks(), pos)
                }
            &&& left.len() <= len
            &&& left == all.subrange(all.len() - left.len(), all.len() as int)
        }),
{
    let c = Cursor {
        chunk: q0.chunks()[i].spec_id(),
        index: (EventQueue::<T, S>::suffix_len(q0.chunks(), i) - len) as usize,
    };
    let pos = q1.readers()[r].position;
    let all = concat_items(q0.chunks());
    law_truncate_position_reads_last_items(q0, len, i);
    lemma_suffix_items(q0.chunks(), i);
    assert(all.len() >= len);
    let left = EventQueue::unread(q1, q1.readers()[r]);
    if cursor_lt(pos, c) {
        law_truncate_front_keeps_last_items(q0, q1, len, i, r);
        EventQueue::lemma_moved_start(q0, q1, c);
        assert(left == all.subrange(all.len() - len, all.len() as int));
        assert(left.len() == len);
    } else {
        EventQueue::lemma_moved_start_keeps_later(q0, q1, c, r);
        assert(q0.readers().contains_key(r));
        lemma_items_from_suffix::<T, S>(q0.chunks(), c, pos);
        assert(left == items_from(q0.chunks(), pos));
    }
}

/// Cleanup frees only chunks where no subscribed reader stands, and only from the front.
pub proof fn law_cleanup_frees_only_unoccupied_chunks<T, S: Settings>(q0: EventQueue<T, S>, q1: EventQueue<T, S>)
    requires
        q0.wf(),
        q1.wf(),
        EventQueue::cleaned(q0, q1),
    ensures
        exists|d: int| {
            &&& 0 <= d < q0.chunks().len()
            &&& q1.chunks() == q0.chunks().subrange(d, q0.chunks().len() as int)
            &&& forall|k: int| 0 <= k < d ==> occupancy(q0.readers(), #[trigger] q0.chunks()[k].spec_id()) == 0
        },
        q1.readers() == q0.readers(),
{
    let d = EventQueue::lemma_cleaned_prefix(q0, q1);
    assert forall|k: int| 0 <= k < d implies occupancy(q0.readers(), #[trigger] q0.chunks()[k].spec_id()) == 0 by {
        assert(crate::dynamic_chunk::counter_diff(q0.chunks()[k].spec_entered(), q0.chunks()[k].spec_read()) == 0);
    }
}

/// After cleanup, the first chunk is the last one or one that some reader occupies.
pub proof fn lemma_cleaned_front_occupied<T, S: Settings>(q0: EventQueue<T, S>, q1: EventQueue<T, S>)
    requires
        q1.wf(),
        EventQueue::cleaned(q0, q1),
    ensures
        q1.chunks().len() == 1 || occupancy(q1.readers(), q1.chunks()[0].spec_id()) > 0,
{
    let d = EventQueue::lemma_cleaned_prefix(q0, q1);
    assert(q1.chunks()[0] == q0.chunks()[d]);
}

/// After counting and cleanup, the first chunk is the last one or one that some reader occupies.
pub proof fn lemma_counted_and_cleaned_front_occupied<T, S: Settings>(
    q0: EventQueue<T, S>,
    q1: EventQueue<T, S>,
    entered: Set<int>,
    read: Set<int>,
)
    requires
        q1.wf(),
        EventQueue::counted_and_cleaned(q0, q1, entered, read),
    ensures
        q1.chunks().len() == 1 || occupancy(q1.readers(), q1.chunks()[0].spec_id()) > 0,
{
    let m = choose|m: EventQueue<T, S>| #![trigger EventQueue::counted(q0, m, entered, read)]
        m.wf() && EventQueue::counted(q0, m, entered, read) && EventQueue::cleaned(m, q1);
    lemma_cleaned_front_occupied(m, q1);
}

/// With `CleanupMode::OnChunkRead`, a finished read that leaves the chunk where it started, as the
/// only reader that stood in it, frees every chunk at the front that no reader occupies, wherever
/// the read started: the queue then begins with its last chunk or with a chunk some reader
/// occupies. (A chunk whose read count wraps to 0 is left as it is.)
pub proof fn law_read_leaving_its_chunk_last_frees_the_front<T, S: Settings>(
    q1: EventQueue<T, S>,
    q2: EventQueue<T, S>,
    r: int,
    to: Cursor,
)
    requires
        S::CLEANUP == CleanupMode::OnChunkRead,
        q1.wf(),
        q2.wf(),
        q1.readers().contains_key(r),
        valid_cursor(q1.chunks(), to),
        q1.readers()[r].position.chunk < to.chunk,
        occupancy(q1.readers(), q1.readers()[r].position.chunk) == 1,
        wrapped_next(q1.chunks()[chunk_index(q1.chunks(), q1.readers()[r].position.chunk)].spec_read()) != 0,
        EventQueue::read_keeps_chunks(q1, q1.readers()[r].position, to)
            ==> EventQueue::counted(q1, q2,
                EventQueue::read_entered(q1, q1.readers()[r].position, to),
                EventQueue::read_read(q1, q1.readers()[r].position, to)),
        EventQueue::read_cleans(q1, q1.readers()[r].position, to)
            ==> EventQueue::counted_and_cleaned(q1, q2,
                EventQueue::read_entered(q1, q1.readers()[r].position, to),
                EventQueue::read_read(q1, q1.readers()[r].position, to)),
    ensures
        q2.chunks().len() == 1 || occupancy(q2.readers(), q2.chunks()[0].spec_id()) > 0,
{
    let a = q1.chunks();
    let from = q1.readers()[r].position;
    assert(valid_cursor(a, from));
    let kr = chunk_index(a, from.chunk);
    let ki = chunk_index(a, to.chunk);
    assert(a[kr].spec_id() == from.chunk);
    assert(a[ki].spec_id() == to.chunk);
    if ki <= kr {
        if ki < kr {
            assert(a[ki].spec_id() < a[kr].spec_id());
        }
    }
    assert(counter_diff(a[kr].spec_entered(), a[kr].spec_read()) == 1);
    assert(EventQueue::read_cleans(q1, from, to));
    lemma_counted_and_cleaned_front_occupied(q1, q2,
        EventQueue::read_entered(q1, from, to), EventQueue::read_read(q1, from, to));
}

/// With `CleanupMode::OnChunkRead`, a move to the start position that takes a reader out of a
/// chunk where it was the only reader frees every chunk at the front that no reader occupies,
/// whatever the chunk it enters: the queue then begins with its last chunk or with a chunk some
/// reader occupies.
pub proof fn law_jump_leaving_its_chunk_last_frees_the_front<T, S: Settings>(
    q0: EventQueue<T, S>,
    q1: EventQueue<T, S>,
    r: int,
    v1: ReaderView,
)
    requires
        S::CLEANUP == CleanupMode::OnChunkRead,
        q0.wf(),
        q1.wf(),
        q0.readers().contains_key(r),
        moved_to_effective_position(q0, q1, r, v1),
        v1.position.chunk != q0.readers()[r].position.chunk,
        occupancy(q0.readers(), q0.readers()[r].position.chunk) == 1,
    ensures
        q1.chunks().len() == 1 || occupancy(q1.readers(), q1.chunks()[0].spec_id()) > 0,
{
    let a = q0.chunks();
    let from = q0.readers()[r].position;
    let to = v1.position;
    assert(valid_cursor(a, from));
    let kc = chunk_index(a, from.chunk);
    assert(a[kc].spec_id() == from.chunk);
    if q0.readers()[r].epoch != q0.epoch() {
        if let Some(s) = q0.start_position() {
            assert(valid_cursor(a, s));
        }
    }
    assert(valid_cursor(a, to));
    let kn = chunk_index(a, to.chunk);
    assert(a[kn].spec_id() == to.chunk);
    assert(kn != kc);
    assert(counter_diff(a[kc].spec_entered(), a[kc].spec_read()) == 1);
    assert(EventQueue::jump_cleans(q0, from, to));
    lemma_counted_and_cleaned_front_occupied(q0, q1,
        EventQueue::jump_entered(q0, from, to), EventQueue::jump_read(q0, from, to));
}

/// A finished read frees no chunk when cleanup on chunk read is off, when it stays in the chunk
/// where it started, or when it leaves a chunk in which other readers still stand (and whose
/// counters have not wrapped).
pub proof fn law_read_leaving_others_frees_nothing<T, S: Settings>(
    q1: EventQueue<T, S>,
    q2: EventQueue<T, S>,
    r: int,
    to: Cursor,
)
    requires
        q1.wf(),
        q2.wf(),
        q1.readers().contains_key(r),
        valid_cursor(q1.chunks(), to),
        !cursor_lt(to, q1.readers()[r].position),
        S::CLEANUP != CleanupMode::OnChunkRead
            || q1.readers()[r].position.chunk == to.chunk
            || ({
                let a = q1.chunks();
                let k = chunk_index(a, q1.readers()[r].position.chunk);
                &&& occupancy(q1.readers(), q1.readers()[r].position.chunk) >= 2
                &&& a[k].spec_read() < a[k].spec_entered()
            }),
        EventQueue::read_keeps_chunks(q1, q1.readers()[r].position, to)
            ==> EventQueue::counted(q1, q2,
                EventQueue::read_entered(q1, q1.readers()[r].position, to),
                EventQueue::read_read(q1, q1.readers()[r].position, to)),
    ensures
        q2.chunks().len() == q1.chunks().len(),
{
    let a = q1.chunks();
    let from = q1.readers()[r].position;
    assert(valid_cursor(a, from));
    let kr = chunk_index(a, from.chunk);
    assert(a[kr].spec_id() == from.chunk);
    assert(counter_diff(a[kr].spec_entered(), a[kr].spec_read()) == occupancy(q1.readers(), from.chunk));
    assert(EventQueue::read_keeps_chunks(q1, from, to));
}

/// A move to the start position frees no chunk when cleanup on chunk read is off, when the reader
/// does not move, or when it leaves, for another chunk, a chunk in which other readers still stand
/// (and whose counters have not wrapped).
pub proof fn law_jump_leaving_others_frees_nothing<T, S: Settings>(
    q0: EventQueue<T, S>,
    q1: EventQueue<T, S>,
    r: int,
    v1: ReaderView,
)
    requires
        q0.wf(),
        q1.wf(),
        q0.readers().contains_key(r),
        moved_to_effective_position(q0, q1, r, v1),
        S::CLEANUP != CleanupMode::OnChunkRead
            || v1.position == q0.readers()[r].position
            || ({
                let a = q0.chunks();
                let k = chunk_index(a, q0.readers()[r].position.chunk);
                &&& v1.position.chunk != q0.readers()[r].position.chunk
                &&& occupancy(q0.readers(), q0.readers()[r].position.chunk) >= 2
                &&& a[k].spec_read() < a[k].spec_entered()
            }),
    ensures
        q1.chunks().len() == q0.chunks().len(),
{
    let a = q0.chunks();
    let from = q0.readers()[r].position;
    let to = v1.position;
    assert(valid_cursor(a, from));
    let kc = chunk_index(a, from.chunk);
    assert(a[kc].spec_id() == from.chunk);
    assert(counter_diff(a[kc].spec_entered(), a[kc].spec_read()) == occupancy(q0.readers(), from.chunk));
    if to != from && S::CLEANUP == CleanupMode::OnChunkRead {
        if q0.readers()[r].epoch != q0.epoch() {
            if let Some(s) = q0.start_position() {
                assert(valid_cursor(a, s));
            }
        }
        assert(valid_cursor(a, to));
        let kn = chunk_index(a, to.chunk);
        assert(a[kn].spec_id() == to.chunk);
        assert(kn != kc);
    }
    assert(!(to != from && EventQueue::jump_cleans(q0, from, to)));
}

/// A push that opens a new chunk frees, with `CleanupMode::OnNewChunk`, every chunk at the front
/// that no reader occupies: the queue then begins with a chunk some reader occupies, or holds only
/// the chunk that was full and the new one. In the other modes it frees nothing: the queue gains
/// one chunk.
pub proof fn law_push_into_new_chunk<T, S: Settings>(q0: EventQueue<T, S>, q1: EventQueue<T, S>, v: T)
    requires
        q0.wf(),
        q1.wf(),
        EventQueue::push_step(q0, q1, v),
        q0.last_chunk().spec_len() == q0.last_chunk().spec_capacity(),
    ensures
        S::CLEANUP == CleanupMode::OnNewChunk ==>
            q1.chunks().len() == 2 || occupancy(q1.readers(), q1.chunks()[0].spec_id()) > 0,
        S::CLEANUP != CleanupMode::OnNewChunk ==> q1.chunks().len() == q0.chunks().len() + 1,
{
    q0.last_chunk().lemma_wf();
    let (mid, mid2) = choose|mid: EventQueue<T, S>, mid2: EventQueue<T, S>|
        #![trigger EventQueue::new_chunk_cleaned(q0, mid), EventQueue::appended_chunk(mid, mid2, EventQueue::next_chunk_size(mid))]
        mid.wf() && mid2.wf() && EventQueue::new_chunk_cleaned(q0, mid)
        && EventQueue::appended_chunk(mid, mid2, EventQueue::next_chunk_size(mid))
        && EventQueue::extended_last(mid2, q1, seq![v]);
    if S::CLEANUP == CleanupMode::OnNewChunk {
        lemma_cleaned_front_occupied(q0, mid);
        if mid.chunks().len() > 1 {
            assert(mid2.chunks()[0] == mid.chunks()[0]);
            assert(q1.chunks()[0] == mid2.chunks()[0]);
        }
    }
}

/// An unsubscription from the first chunk, where cleanup on unsubscription is on, frees every chunk
/// at the front that no reader occupies: the queue then begins with its last chunk or with a chunk
/// some reader occupies. Any other unsubscription frees nothing.
pub proof fn law_unsubscribe_frees_the_front<T, S: Settings>(
    q0: EventQueue<T, S>,
    q1: EventQueue<T, S>,
    v: ReaderView,
)
    requires
        q0.wf(),
        q1.wf(),
        valid_cursor(q0.chunks(), v.position),
        ({
            let cleans = S::CLEANUP_IN_UNSUBSCRIBE && S::CLEANUP != CleanupMode::Never
                && chunk_index(q0.chunks(), v.position.chunk) == 0;
            let read = set![chunk_index(q0.chunks(), v.position.chunk)];
            &&& cleans ==> EventQueue::counted_and_cleaned(q0, q1, Set::empty(), read)
            &&& !cleans ==> EventQueue::counted(q0, q1, Set::empty(), read)
        }),
    ensures
        S::CLEANUP_IN_UNSUBSCRIBE && S::CLEANUP != CleanupMode::Never
            && v.position.chunk == q0.chunks()[0].spec_id() ==> q1.starts_occupied(),
        !(S::CLEANUP_IN_UNSUBSCRIBE && S::CLEANUP != CleanupMode::Never
            && v.position.chunk == q0.chunks()[0].spec_id()) ==> q1.chunks().len() == q0.chunks().len(),
{
    let a = q0.chunks();
    let k = chunk_index(a, v.position.chunk);
    assert(a[k].spec_id() == v.position.chunk);
    lemma_chunk_index(a, 0);
    let read = set![k];
    if S::CLEANUP_IN_UNSUBSCRIBE && S::CLEANUP != CleanupMode::Never && k == 0 {
        lemma_counted_and_cleaned_front_occupied(q0, q1, Set::empty(), read);
    }
}

/// Moving the start position (`clear`, `truncate_front`) frees every chunk before the chunk of the
/// new start position that no reader occupies: each chunk left before it holds some reader.
#[verifier::rlimit(40)]
pub proof fn law_moving_the_start_frees_every_unoccupied_chunk_before_it<T, S: Settings>(
    q0: EventQueue<T, S>,
    q1: EventQueue<T, S>,
    c: Cursor,
)
    requires
        q0.wf(),
        q1.wf(),
        valid_cursor(q0.chunks(), c),
        EventQueue::moved_start(q0, q1, c),
    ensures
        forall|k: int| 0 <= k < q1.chunks().len() && (#[trigger] q1.chunks()[k]).spec_id() < c.chunk ==>
            occupancy(q1.readers(), q1.chunks()[k].spec_id()) > 0,
{
    let (m1, m2) = choose|m1: EventQueue<T, S>, m2: EventQueue<T, S>|
        #![trigger EventQueue::restarted(q0, m1, c), EventQueue::cleaned(m1, m2)]
        m1.wf() && m2.wf() && EventQueue::restarted(q0, m1, c) && EventQueue::cleaned(m1, m2)
        && EventQueue::force_cleaned(m2, q1);
    let d = EventQueue::lemma_cleaned_prefix(m1, m2);
    let a = m1.chunks();
    let n = a.len() as int;
    let b = m2.chunks();
    let bl = b.len() as int;
    EventQueue::lemma_restarted_items(q0, m1, c);
    let tc = chunk_index(a, c.chunk);
    assert(a[tc].spec_id() == c.chunk);
    assert(q1.readers() == m2.readers());
    assert forall|k: int| 0 <= k < q1.chunks().len() && (#[trigger] q1.chunks()[k]).spec_id() < c.chunk implies
        counter_diff(q1.chunks()[k].spec_entered(), q1.chunks()[k].spec_read()) != 0 by {
        match m2.start_position() {
            None => {
                let j = choose|j: int| 0 <= j < d && #[trigger] a[j].spec_id() == c.chunk;
                assert(q1.chunks() == b);
                assert(b[k] == a[k + d]);
                assert(a[j].spec_id() < a[k + d].spec_id());
            },
            Some(s) => {
                assert(s == c);
                let t = chunk_index(b, c.chunk);
                assert(0 <= t < bl && b[t].spec_id() == c.chunk);
                if t == 0 {
                    assert(q1.chunks() == b);
                    if k > 0 {
                        assert(b[0].spec_id() < b[k].spec_id());
                    }
                    assert(b[0] == a[d]);
                } else {
                    let f = b.subrange(1, t).filter(occupied_pred());
                    let l = f.len() as int;
                    assert(q1.chunks() == b.subrange(0, 1) + f + b.subrange(t, bl));
                    if k == 0 {
                        assert(q1.chunks()[0] == b[0]);
                        assert(b[0] == a[d]);
                        if d == n - 1 {
                            assert(b.len() == 1);
                        }
                    } else if k < 1 + l {
                        b.subrange(1, t).lemma_filter_pred(occupied_pred(), k - 1);
                        assert(q1.chunks()[k] == f[k - 1]);
                        assert(occupied_pred::<T>()(f[k - 1]));
                    } else {
                        assert(q1.chunks()[k] == b[k - 1 - l + t]);
                        if k - 1 - l + t > t {
                            assert(b[t].spec_id() < b[k - 1 - l + t].spec_id());
                        }
                    }
                }
            },
        }
    }
}

/// With `CleanupMode::Never`, chunks are freed only on request (`cleanup`, `clear`,
/// `truncate_front`): a read, a move to the start position, an unsubscription and a new chunk
/// free nothing.
pub proof fn law_never_mode_frees_only_on_request<T, S: Settings>(
    q: EventQueue<T, S>,
    next: EventQueue<T, S>,
    from: Cursor,
    to: Cursor,
)
    requires
        S::CLEANUP == CleanupMode::Never,
    ensures
        EventQueue::read_keeps_chunks(q, from, to),
        !EventQueue::read_cleans(q, from, to),
        !EventQueue::jump_cleans(q, from, to),
        !(S::CLEANUP_IN_UNSUBSCRIBE && S::CLEANUP != CleanupMode::Never),
        EventQueue::new_chunk_cleaned(q, next) == (next == q),
{
}

/// The queue's total capacity is the sum of its chunks' capacities.
pub proof fn law_total_capacity_is_sum<T, S: Settings>(q: EventQueue<T, S>)
    requires
        q.wf(),
    ensures
        q.spec_total_capacity() == sum_capacity(q.chunks()),
{
}

/// A new chunk is never smaller than the last one and never larger than `MAX_CHUNK_SIZE`.
pub proof fn law_chunk_growth_bounded<T, S: Settings>(q: EventQueue<T, S>)
    requires
        q.wf(),
    ensures
        q.last_chunk().spec_capacity() <= EventQueue::next_chunk_size(q) <= S::MAX_CHUNK_SIZE,
{
    assert(q.last_chunk().spec_capacity() <= S::MAX_CHUNK_SIZE);
}

/// Packing is a bijection between chunk states and `u64`s: every packed value is made of its
/// three parts, and packing parts gives them back.
pub proof fn law_pack_roundtrip(p: PackedChunkState, len: u32, has_next: bool, epoch: u32)
    requires
        epoch <= max_epoch(),
    ensures
        p.packed() == packed_of(p.spec_len(), p.spec_has_next(), p.spec_epoch()),
        p.packed() == packed_of(len, has_next, epoch) ==> {
            &&& p.spec_len() == len
            &&& p.spec_has_next() == has_next
            &&& p.spec_epoch() == epoch
        },
{
    p.lemma_parts();
    if p.packed() == packed_of(len, has_next, epoch) {
        let v = p.packed();
        let h: u64 = if has_next { 1 } else { 0 };
        let l = len as u64;
        let e = epoch as u64;
        assert(v == l + h * 0x1_0000_0000 + e * 0x2_0000_0000);
        assert(v % 0x1_0000_0000 == l && crate::utils::bit_of(v, 32) == (h == 1) && v / 0x2_0000_0000 == e)
            by (bit_vector)
            requires
                l < 0x1_0000_0000,
                h <= 1,
                e <= 0x7FFF_FFFF,
                v == l + h * 0x1_0000_0000 + e * 0x2_0000_0000,
        ;
    }
}

/// After `clear`, a reader that has not seen the new start position reads exactly what is pushed
/// after it, in order.
pub proof fn law_clear_then_push_reads_only_later<T, S: Settings>(
    q0: EventQueue<T, S>,
    q1: EventQueue<T, S>,
    q2: EventQueue<T, S>,
    vs: Seq<T>,
    r: int,
)
    requires
        q0.wf(),
        q1.wf(),
        q2.wf(),
        EventQueue::moved_start(q0, q1, q0.end()),
        EventQueue::pushed(q1, q2, vs),
        q1.readers().contains_key(r),
        q1.readers()[r].epoch != q1.epoch(),
    ensures
        q2.readers()[r] == q1.readers()[r],
        EventQueue::unread(q2, q2.readers()[r]) == vs,
{
    law_clear_leaves_nothing_to_read(q0, q1);
    assert(EventQueue::unread(q1, q1.readers()[r]) == Seq::<T>::empty());
    assert(Seq::<T>::empty() + vs =~= vs);
}

/// A finished read that took `taken` from the reader's position leaves the reader exactly what
/// followed `taken`: nothing skipped, nothing repeated.
pub proof fn law_finished_read_resumes_after_what_it_took<T, S: Settings>(
    q1: EventQueue<T, S>,
    q2: EventQueue<T, S>,
    r: int,
    end: Cursor,
    taken: Seq<T>,
)
    requires
        q1.wf(),
        q2.wf(),
        q1.readers().contains_key(r),
        q1.readers()[r].epoch == q1.epoch(),
        items_from(q1.chunks(), q1.readers()[r].position) == taken + items_from(q1.chunks(), end),
        EventQueue::kept_after(q1, q2),
        q2.readers().contains_key(r),
        q2.readers()[r] == (ReaderView { position: end, epoch: q1.readers()[r].epoch }),
    ensures
        EventQueue::unread(q2, q2.readers()[r])
            == EventQueue::unread(q1, q1.readers()[r]).subrange(taken.len() as int,
                EventQueue::unread(q1, q1.readers()[r]).len() as int),
{
    EventQueue::lemma_kept_after(q1, q2);
    assert(valid_cursor(q2.chunks(), end));
    let u = EventQueue::unread(q1, q1.readers()[r]);
    assert(u.subrange(taken.len() as int, u.len() as int) =~= items_from(q1.chunks(), end));
}

/// What `update_position`, and the start of a read, ensure of a move of reader `r` of `q0` to the
/// view `v1` in `q1`: it moves to its effective position, at the queue's epoch, and the counters of
/// the chunks that it leaves and enters move on.
pub open spec fn moved_to_effective_position<T, S: Settings>(
    q0: EventQueue<T, S>,
    q1: EventQueue<T, S>,
    r: int,
    v1: ReaderView,
) -> bool {
    let from = q0.readers()[r].position;
    let to = v1.position;
    let cleans = to != from && EventQueue::jump_cleans(q0, from, to);
    let entered = EventQueue::jump_entered(q0, from, to);
    let read = EventQueue::jump_read(q0, from, to);
    &&& v1 == (ReaderView { position: EventQueue::effective_position(q0, q0.readers()[r]), epoch: q0.epoch() })
    &&& q1.readers() == q0.readers().insert(r, v1)
    &&& q1.next_reader_id() == q0.next_reader_id()
    &&& cleans ==> EventQueue::counted_and_cleaned(q0, q1, entered, read)
    &&& !cleans ==> EventQueue::counted(q0, q1, entered, read)
}

/// `update_position` does what a read that takes nothing does: starting a read and finishing it
/// where it started leaves the reader at the same view and the queue in the same state as
/// `update_position`.
pub proof fn law_update_position_is_empty_read<T, S: Settings>(
    q0: EventQueue<T, S>,
    r: int,
    updated: EventQueue<T, S>,
    v_updated: ReaderView,
    started: EventQueue<T, S>,
    v_started: ReaderView,
    finished: EventQueue<T, S>,
    v_finished: ReaderView,
)
    requires
        q0.wf(),
        updated.wf(),
        started.wf(),
        finished.wf(),
        q0.readers().contains_key(r),
        moved_to_effective_position(q0, updated, r, v_updated),
        moved_to_effective_position(q0, started, r, v_started),
        valid_cursor(started.chunks(), v_started.position) ==> {
            &&& v_finished == (ReaderView { position: v_started.position, epoch: v_started.epoch })
            &&& finished.readers() == started.readers().insert(r, v_finished)
            &&& finished.next_reader_id() == started.next_reader_id()
            &&& EventQueue::read_keeps_chunks(started, v_started.position, v_started.position)
                    ==> EventQueue::counted(started, finished,
                        EventQueue::read_entered(started, v_started.position, v_started.position),
                        EventQueue::read_read(started, v_started.position, v_started.position))
        },
    ensures
        v_finished == v_updated,
        finished.readers() == updated.readers(),
        EventQueue::same_state(updated, finished),
{
    let p = v_started.position;
    assert(started.readers().contains_key(r));
    assert(valid_cursor(started.chunks(), p));
    assert(EventQueue::read_entered(started, p, p) =~= Set::<int>::empty());
    assert(EventQueue::read_read(started, p, p) =~= Set::<int>::empty());
    assert(started.readers().insert(r, v_finished) =~= started.readers());
    let from = q0.readers()[r].position;
    let cleans = p != from && EventQueue::jump_cleans(q0, from, p);
    let entered = EventQueue::jump_entered(q0, from, p);
    let read = EventQueue::jump_read(q0, from, p);
    if cleans {
        EventQueue::lemma_counted_and_cleaned_determined(q0, updated, started, entered, read);
    } else {
        EventQueue::lemma_counted_determined(q0, updated, started, entered, read);
    }
    EventQueue::lemma_same_state_by_parts(started, finished);
    EventQueue::lemma_same_state_trans(updated, started, finished);
}

/// `update_position` leaves the reader at the queue's epoch, so an `iter` that follows neither
/// moves it nor counts anything: the state after both is the state after `update_position`.
pub proof fn law_iter_after_update_position_moves_nothing<T, S: Settings>(
    q1: EventQueue<T, S>,
    q2: EventQueue<T, S>,
    v1: ReaderView,
    v2: ReaderView,
)
    requires
        v1.epoch == q1.epoch(),
        v2 == (ReaderView { position: EventQueue::effective_position(q1, v1), epoch: q1.epoch() }),
        !(v2.position != v1.position && EventQueue::jump_cleans(q1, v1.position, v2.position))
            ==> EventQueue::counted(q1, q2, EventQueue::jump_entered(q1, v1.position, v2.position),
                EventQueue::jump_read(q1, v1.position, v2.position)),
    ensures
        v2 == v1,
        EventQueue::counted(q1, q2, Set::empty(), Set::empty()),
{
}

/// `states` runs by one push of each of `vs`: each step appends its value and keeps the epoch,
/// as a `try_push` that returns `Ok` does.
pub open spec fn storage_push_run<T, const N: usize>(states: Seq<ChunkStorage<T, N>>, vs: Seq<T>) -> bool {
    &&& states.len() == vs.len() + 1
    &&& forall|i: int| 0 <= i < vs.len() ==> {
            &&& (#[trigger] states[i + 1]).spec_items() == states[i].spec_items().push(vs[i])
            &&& states[i + 1].spec_epoch() == states[i].spec_epoch()
        }
}

/// Pushing `vs` one by one into a storage with room for them: every push finds room, so each
/// `try_push` returns `Ok`; the storage ends holding its items followed by `vs`, with its epoch.
pub proof fn law_try_push_run<T, const N: usize>(states: Seq<ChunkStorage<T, N>>, vs: Seq<T>)
    requires
        storage_push_run(states, vs),
        states[0].spec_items().len() + vs.len() <= N,
    ensures
        forall|i: int| 0 <= i < vs.len() ==> (#[trigger] states[i]).spec_items().len() < N,
        states[vs.len() as int].spec_items() == states[0].spec_items() + vs,
        states[vs.len() as int].spec_epoch() == states[0].spec_epoch(),
    decreases vs.len(),
{
    if vs.len() > 0 {
        let k = vs.len() - 1;
        let s2 = states.drop_last();
        let v2 = vs.drop_last();
        assert forall|i: int| 0 <= i < v2.len() implies {
            &&& (#[trigger] s2[i + 1]).spec_items() == s2[i].spec_items().push(v2[i])
            &&& s2[i + 1].spec_epoch() == s2[i].spec_epoch()
        } by {
            assert(s2[i + 1] == states[i + 1]);
            assert(states[i + 1].spec_items() == states[i].spec_items().push(vs[i]));
        }
        law_try_push_run(s2, v2);
        assert(states[k + 1].spec_items() == states[k].spec_items().push(vs[k]));
        assert(s2[k] == states[k]);
        assert(states[vs.len() as int].spec_items() =~= states[0].spec_items() + vs);
        assert forall|i: int| 0 <= i < vs.len() implies (#[trigger] states[i]).spec_items().len() < N by {
            if i < k {
                assert(s2[i] == states[i]);
            }
        }
    }
}

/// `extend` leaves the state that the same pushes, one by one, leave: `extend` ensures a run of
/// push steps from its start to its end, each `push` ensures one step, and runs of the same pushes
/// from the same state end in the same state.
pub proof fn law_extend_is_pushes<T, S: Settings>(
    q0: EventQueue<T, S>,
    extended: EventQueue<T, S>,
    pushes: Seq<EventQueue<T, S>>,
    vs: Seq<T>,
)
    requires
        exists|states: Seq<EventQueue<T, S>>| #![trigger EventQueue::push_steps(states, vs)]
            EventQueue::push_steps(states, vs) && states[0] == q0 && states[vs.len() as int] == extended,
        EventQueue::push_steps(pushes, vs),
        pushes[0] == q0,
    ensures
        EventQueue::same_state(extended, pushes[vs.len() as int]),
{
    let states = choose|states: Seq<EventQueue<T, S>>| #![trigger EventQueue::push_steps(states, vs)]
        EventQueue::push_steps(states, vs) && states[0] == q0 && states[vs.len() as int] == extended;
    assert(states[0].wf());
    assert forall|k: int| 0 <= k < q0.chunks().len() implies
        crate::event_queue::same_chunk(#[trigger] q0.chunks()[k], q0.chunks()[k]) by {}
    EventQueue::lemma_push_steps_determined(states, pushes, vs);
}

/// `truncate_front(0)` acts as `clear`: the start position that it picks is the end of the queue,
/// so from the same state both leave the same state.
pub proof fn law_truncate_front_zero_is_clear<T, S: Settings>(
    q0: EventQueue<T, S>,
    truncated: EventQueue<T, S>,
    cleared: EventQueue<T, S>,
)
    requires
        q0.wf(),
        truncated.wf(),
        cleared.wf(),
        exists|i: int|
            #[trigger] EventQueue::<T, S>::truncate_position(q0.chunks(), 0, i)
            && EventQueue::moved_start(q0, truncated, Cursor {
                chunk: q0.chunks()[i].spec_id(),
                index: (EventQueue::<T, S>::suffix_len(q0.chunks(), i) - 0) as usize,
            }),
        EventQueue::moved_start(q0, cleared, q0.end()),
    ensures
        EventQueue::same_state(truncated, cleared),
{
    let a = q0.chunks();
    let n = a.len() as int;
    let i = choose|i: int|
        #[trigger] EventQueue::<T, S>::truncate_position(a, 0, i)
        && EventQueue::moved_start(q0, truncated, Cursor {
            chunk: a[i].spec_id(),
            index: (EventQueue::<T, S>::suffix_len(a, i) - 0) as usize,
        });
    if i < n - 1 {
        assert(EventQueue::<T, S>::suffix_len(a, n - 1) < 0);
    }
    EventQueue::<T, S>::lemma_suffix_split(a, n - 1);
    assert(a.subrange(n, n) =~= Seq::<DynamicChunk<T>>::empty());
    assert(concat_items(Seq::<DynamicChunk<T>>::empty()) == Seq::<T>::empty());
    assert(Cursor { chunk: a[i].spec_id(), index: (EventQueue::<T, S>::suffix_len(a, i) - 0) as usize } == q0.end());
    assert forall|k: int| 0 <= k < a.len() implies
        crate::event_queue::same_chunk(#[trigger] a[k], a[k]) by {}
    EventQueue::lemma_moved_start_determined(q0, q0, truncated, cleared, q0.end());
}

} // verus!
