use vstd::prelude::*;
use std::collections::VecDeque;
use std::marker::PhantomData;
use crate::cursor::{Cursor, ReaderView, cursor_lt, occupancy};
use crate::dynamic_chunk::{DynamicChunk, counter_diff, wrapped_next};
use crate::chunk_state::{max_epoch, PackedChunkState};
use crate::StartPositionEpoch;

verus! {

/// This way you can control when chunk's memory deallocation happens.
/// Some operations may free chunks as well.
#[derive(PartialEq, Eq, Structural, Debug, Clone, Copy)]
pub enum CleanupMode {
    /// Cleanup runs when a reader finishes reading a chunk: memory is freed as soon as possible.
    OnChunkRead,
    /// Cleanup runs when a new chunk is created.
    OnNewChunk,
    /// Cleanup never runs by itself: call `EventQueue::cleanup`.
    Never,
}

/// The configuration of a queue.
pub trait Settings {
    /// Capacity of the first chunk, and the smallest allowed chunk capacity.
    const MIN_CHUNK_SIZE: u32;
    /// The largest chunk capacity that growth reaches.
    const MAX_CHUNK_SIZE: u32;
    const CLEANUP: CleanupMode;
    /// Take the queue's lock around cleanup on a new chunk.
    const LOCK_ON_NEW_CHUNK_CLEANUP: bool;
    /// Whether unsubscribing may run cleanup.
    const CLEANUP_IN_UNSUBSCRIBE: bool;
}

/// Settings a queue can work with: positive chunk capacities with `MIN_CHUNK_SIZE` at most
/// `MAX_CHUNK_SIZE`, and cleanup on chunk read only where writers hold the queue's lock (a queue
/// that must lock for cleanup on a new chunk has writers that do not).
pub open spec fn settings_valid<S: Settings>() -> bool {
    &&& 0 < S::MIN_CHUNK_SIZE <= S::MAX_CHUNK_SIZE
    &&& !(S::CLEANUP == CleanupMode::OnChunkRead && S::LOCK_ON_NEW_CHUNK_CLEANUP)
}

/// Total capacity of `chunks`.
pub open spec fn sum_capacity<T>(chunks: Seq<DynamicChunk<T>>) -> int
    decreases chunks.len(),
{
    if chunks.len() == 0 {
        0
    } else {
        sum_capacity(chunks.drop_last()) + chunks.last().spec_capacity()
    }
}

/// All the items of `chunks`, in order.
pub open spec fn concat_items<T>(chunks: Seq<DynamicChunk<T>>) -> Seq<T>
    decreases chunks.len(),
{
    if chunks.len() == 0 {
        Seq::empty()
    } else {
        concat_items(chunks.drop_last()) + chunks.last().spec_items()
    }
}

/// The position in `chunks` of the chunk with id `id`, or -1.
pub open spec fn chunk_index<T>(chunks: Seq<DynamicChunk<T>>, id: usize) -> int {
    if exists|k: int| 0 <= k < chunks.len() && #[trigger] chunks[k].spec_id() == id {
        choose|k: int| 0 <= k < chunks.len() && #[trigger] chunks[k].spec_id() == id
    } else {
        -1
    }
}

/// The cursor names a chunk of `chunks` and an index no further than its end.
pub open spec fn valid_cursor<T>(chunks: Seq<DynamicChunk<T>>, c: Cursor) -> bool {
    let k = chunk_index(chunks, c.chunk);
    &&& 0 <= k < chunks.len()
    &&& c.index <= chunks[k].spec_len()
}

/// The items at and after cursor `c`, in order.
pub open spec fn items_from<T>(chunks: Seq<DynamicChunk<T>>, c: Cursor) -> Seq<T> {
    let k = chunk_index(chunks, c.chunk);
    if valid_cursor(chunks, c) {
        chunks[k].spec_items().subrange(c.index as int, chunks[k].spec_len() as int)
            + concat_items(chunks.subrange(k + 1, chunks.len() as int))
    } else {
        Seq::empty()
    }
}

/// Chunk ids grow strictly from first to last.
pub open spec fn ids_increasing<T>(chunks: Seq<DynamicChunk<T>>) -> bool {
    forall|i: int, j: int| 0 <= i < j < chunks.len() ==> chunks[i].spec_id() < chunks[j].spec_id()
}

pub proof fn lemma_sum_capacity_append<T>(a: Seq<DynamicChunk<T>>, b: Seq<DynamicChunk<T>>)
    ensures
        sum_capacity(a + b) == sum_capacity(a) + sum_capacity(b),
    decreases b.len(),
{
    if b.len() == 0 {
        assert(a + b =~= a);
    } else {
        lemma_sum_capacity_append(a, b.drop_last());
        assert((a + b).drop_last() =~= a + b.drop_last());
    }
}

pub proof fn lemma_concat_items_append<T>(a: Seq<DynamicChunk<T>>, b: Seq<DynamicChunk<T>>)
    ensures
        concat_items(a + b) == concat_items(a) + concat_items(b),
    decreases b.len(),
{
    if b.len() == 0 {
        assert(a + b =~= a);
        assert(concat_items(a) + concat_items(b) =~= concat_items(a));
    } else {
        lemma_concat_items_append(a, b.drop_last());
        assert((a + b).drop_last() =~= a + b.drop_last());
        assert(concat_items(a + b) =~= concat_items(a) + concat_items(b));
    }
}

pub proof fn lemma_sum_capacity_nonneg<T>(chunks: Seq<DynamicChunk<T>>)
    ensures
        sum_capacity(chunks) >= 0,
    decreases chunks.len(),
{
    if chunks.len() > 0 {
        lemma_sum_capacity_nonneg(chunks.drop_last());
    }
}

/// In chunks with distinct ids, `chunk_index` finds the one position holding an id.
pub proof fn lemma_chunk_index<T>(chunks: Seq<DynamicChunk<T>>, k: int)
    requires
        ids_increasing(chunks),
        0 <= k < chunks.len(),
    ensures
        chunk_index(chunks, chunks[k].spec_id()) == k,
{
    let id = chunks[k].spec_id();
    assert(chunks[k].spec_id() == id);
    let j = chunk_index(chunks, id);
    assert(0 <= j < chunks.len() && chunks[j].spec_id() == id);
    if j < k {
        assert(chunks[j].spec_id() < chunks[k].spec_id());
    } else if j > k {
        assert(chunks[k].spec_id() < chunks[j].spec_id());
    }
}

/// Cutting the chunks at positions `a..b` out of `s` keeps what every later cursor reads.
pub proof fn lemma_splice<T>(s: Seq<DynamicChunk<T>>, a: int, b: int, k: int)
    requires
        ids_increasing(s),
        0 <= a <= b <= k < s.len(),
    ensures
        ({
            let s2 = s.subrange(0, a) + s.subrange(b, s.len() as int);
            &&& ids_increasing(s2)
            &&& s2.len() == s.len() - (b - a)
            &&& s2[k - (b - a)] == s[k]
            &&& chunk_index(s2, s[k].spec_id()) == k - (b - a)
            &&& s2.subrange(k - (b - a) + 1, s2.len() as int) =~= s.subrange(k + 1, s.len() as int)
            &&& forall|c: Cursor| c.chunk == s[k].spec_id() ==>
                    valid_cursor(s2, c) == valid_cursor(s, c) && items_from(s2, c) == items_from(s, c)
        }),
{
    let s2 = s.subrange(0, a) + s.subrange(b, s.len() as int);
    let d = b - a;
    assert forall|i: int, j: int| 0 <= i < j < s2.len() implies s2[i].spec_id() < s2[j].spec_id() by {
        let oi = if i < a { i } else { i + d };
        let oj = if j < a { j } else { j + d };
        assert(s2[i] == s[oi]);
        assert(s2[j] == s[oj]);
    }
    assert(s2[k - d] == s[k]);
    lemma_chunk_index(s2, k - d);
    lemma_chunk_index(s, k);
    assert(s2.subrange(k - d + 1, s2.len() as int) =~= s.subrange(k + 1, s.len() as int));
    assert forall|c: Cursor| c.chunk == s[k].spec_id() implies
        valid_cursor(s2, c) == valid_cursor(s, c) && items_from(s2, c) == items_from(s, c) by {
        assert(chunk_index(s2, c.chunk) == k - d);
        assert(chunk_index(s, c.chunk) == k);
    }
}

/// The splice of `s` at `a..b` has the capacity of `s` minus that of the cut part.
pub proof fn lemma_splice_capacity<T>(s: Seq<DynamicChunk<T>>, a: int, b: int)
    requires
        0 <= a <= b <= s.len(),
    ensures
        sum_capacity(s.subrange(0, a) + s.subrange(b, s.len() as int)) + sum_capacity(s.subrange(a, b))
            == sum_capacity(s),
{
    lemma_sum_capacity_append(s.subrange(0, a), s.subrange(b, s.len() as int));
    lemma_sum_capacity_append(s.subrange(0, a), s.subrange(a, b));
    lemma_sum_capacity_append(s.subrange(0, a) + s.subrange(a, b), s.subrange(b, s.len() as int));
    assert(s.subrange(0, a) + s.subrange(a, b) + s.subrange(b, s.len() as int) =~= s);
}

/// The capacity of one chunk.
pub proof fn lemma_sum_capacity_single<T>(s: Seq<DynamicChunk<T>>)
    requires
        s.len() == 1,
    ensures
        sum_capacity(s) == s[0].spec_capacity(),
{
    assert(s.drop_last() =~= Seq::<DynamicChunk<T>>::empty());
    assert(sum_capacity(s.drop_last()) == 0);
}

/// Two chunk lists with the same items chunk by chunk hold the same items.
pub proof fn lemma_concat_items_same<T>(a: Seq<DynamicChunk<T>>, b: Seq<DynamicChunk<T>>)
    requires
        a.len() == b.len(),
        forall|k: int| 0 <= k < a.len() ==> #[trigger] a[k].spec_items() == b[k].spec_items(),
    ensures
        concat_items(a) == concat_items(b),
    decreases a.len(),
{
    if a.len() > 0 {
        lemma_concat_items_same(a.drop_last(), b.drop_last());
    }
}

/// Two chunks that differ at most in their `has_next` bit.
pub open spec fn same_but_next<T>(a: DynamicChunk<T>, b: DynamicChunk<T>) -> bool {
    &&& a.spec_items() == b.spec_items()
    &&& a.spec_id() == b.spec_id()
    &&& a.spec_capacity() == b.spec_capacity()
    &&& a.spec_entered() == b.spec_entered()
    &&& a.spec_read() == b.spec_read()
    &&& a.spec_state().spec_len() == b.spec_state().spec_len()
    &&& a.spec_state().spec_epoch() == b.spec_state().spec_epoch()
    &&& a.wf() == b.wf()
}

/// Two chunk lists with the same ids and capacities chunk by chunk, where the second holds at
/// least as many items in each chunk, have the same capacity and accept the same cursors and more.
pub proof fn lemma_same_shape<T>(a: Seq<DynamicChunk<T>>, b: Seq<DynamicChunk<T>>)
    requires
        a.len() == b.len(),
        forall|k: int| 0 <= k < a.len() ==> {
            &&& #[trigger] a[k].spec_id() == b[k].spec_id()
            &&& a[k].spec_capacity() == b[k].spec_capacity()
            &&& a[k].spec_len() <= b[k].spec_len()
        },
    ensures
        sum_capacity(a) == sum_capacity(b),
        ids_increasing(a) ==> ids_increasing(b),
        ids_increasing(a) ==> forall|c: Cursor| #[trigger] valid_cursor(a, c) ==> valid_cursor(b, c),
    decreases a.len(),
{
    if a.len() > 0 {
        let n = a.len() - 1;
        assert(a[n].spec_id() == b[n].spec_id());
        assert forall|k: int| 0 <= k < n implies {
            &&& #[trigger] a.drop_last()[k].spec_id() == b.drop_last()[k].spec_id()
            &&& a.drop_last()[k].spec_capacity() == b.drop_last()[k].spec_capacity()
            &&& a.drop_last()[k].spec_len() <= b.drop_last()[k].spec_len()
        } by {
            assert(a[k].spec_id() == b[k].spec_id());
        }
        lemma_same_shape(a.drop_last(), b.drop_last());
        assert(sum_capacity(a) == sum_capacity(a.drop_last()) + a[n].spec_capacity());
        assert(sum_capacity(b) == sum_capacity(b.drop_last()) + b[n].spec_capacity());
    }
    if ids_increasing(a) {
        assert forall|i: int, j: int| 0 <= i < j < b.len() implies b[i].spec_id() < b[j].spec_id() by {
            assert(a[i].spec_id() < a[j].spec_id());
        }
        assert forall|c: Cursor| #[trigger] valid_cursor(a, c) implies valid_cursor(b, c) by {
            let k = chunk_index(a, c.chunk);
            assert(a[k].spec_id() == c.chunk);
            lemma_chunk_index(b, k);
        }
    }
}

/// The epoch after `e`, wrapping after the largest epoch.
pub open spec fn next_epoch(e: u32) -> u32 {
    if e == max_epoch() { 0 } else { (e + 1) as u32 }
}

/// A chunk that some reader occupies.
pub open spec fn occupied<T>(c: DynamicChunk<T>) -> bool {
    counter_diff(c.spec_entered(), c.spec_read()) != 0
}

/// `occupied`, as a predicate to filter by.
pub open spec fn occupied_pred<T>() -> spec_fn(DynamicChunk<T>) -> bool {
    |c: DynamicChunk<T>| occupied(c)
}

/// Some chunk of `chunks` has id `id`.
pub open spec fn has_chunk<T>(chunks: Seq<DynamicChunk<T>>, id: usize) -> bool {
    exists|k: int| 0 <= k < chunks.len() && #[trigger] chunks[k].spec_id() == id
}

/// A valid cursor names an existing chunk.
pub proof fn lemma_valid_has_chunk<T>(chunks: Seq<DynamicChunk<T>>, c: Cursor)
    requires
        valid_cursor(chunks, c),
    ensures
        has_chunk(chunks, c.chunk),
{
    let k = chunk_index(chunks, c.chunk);
    assert(chunks[k].spec_id() == c.chunk);
}

/// How many more items the last chunk of `q` can take.
pub open spec fn spare_room<T, S: Settings>(q: EventQueue<T, S>) -> int {
    q.last_chunk().spec_capacity() - q.last_chunk().spec_len()
}

/// Two chunks that agree in everything the queue keeps of them.
pub open spec fn same_chunk<T>(x: DynamicChunk<T>, y: DynamicChunk<T>) -> bool {
    &&& x.spec_items() == y.spec_items()
    &&& x.spec_id() == y.spec_id()
    &&& x.spec_capacity() == y.spec_capacity()
    &&& x.spec_entered() == y.spec_entered()
    &&& x.spec_read() == y.spec_read()
    &&& x.spec_state() == y.spec_state()
}

/// Filtering by occupancy two sequences that agree chunk by chunk gives sequences that agree
/// chunk by chunk.
pub proof fn lemma_filter_same<T>(x: Seq<DynamicChunk<T>>, y: Seq<DynamicChunk<T>>)
    requires
        x.len() == y.len(),
        forall|k: int| 0 <= k < x.len() ==> same_chunk(#[trigger] x[k], y[k]),
    ensures
        x.filter(occupied_pred()).len() == y.filter(occupied_pred()).len(),
        forall|k: int| 0 <= k < x.filter(occupied_pred()).len() ==>
            same_chunk(#[trigger] x.filter(occupied_pred())[k], y.filter(occupied_pred())[k]),
    decreases x.len(),
{
    reveal(Seq::filter);
    if x.len() > 0 {
        let xs = x.drop_last();
        let ys = y.drop_last();
        assert forall|k: int| 0 <= k < xs.len() implies same_chunk(#[trigger] xs[k], ys[k]) by {
            assert(same_chunk(x[k], y[k]));
        }
        lemma_filter_same(xs, ys);
        assert(same_chunk(x[x.len() - 1], y[y.len() - 1]));
        assert(occupied_pred()(x.last()) == occupied_pred()(y.last()));
        let fx = x.filter(occupied_pred());
        let fy = y.filter(occupied_pred());
        assert(fx == if occupied_pred()(x.last()) { xs.filter(occupied_pred()).push(x.last()) } else { xs.filter(occupied_pred()) });
        assert(fy == if occupied_pred()(y.last()) { ys.filter(occupied_pred()).push(y.last()) } else { ys.filter(occupied_pred()) });
    }
}

/// The capacity of each chunk.
pub open spec fn capacities<T>(chunks: Seq<DynamicChunk<T>>) -> Seq<usize> {
    chunks.map_values(|c: DynamicChunk<T>| c.spec_capacity())
}

/// The number of items in each chunk.
pub open spec fn lens<T>(chunks: Seq<DynamicChunk<T>>) -> Seq<nat> {
    chunks.map_values(|c: DynamicChunk<T>| c.spec_len())
}

/// A subscription to a queue. It receives every event pushed after it subscribed.
pub struct EventReader<T, S: Settings> {
    position: Cursor,
    start_position_epoch: StartPositionEpoch,
    id: Ghost<int>,
    _marker: PhantomData<(T, S)>,
}

impl<T, S: Settings> EventReader<T, S> {
    /// Where the reader stands and the start-position epoch it saw last.
    pub closed spec fn view(&self) -> ReaderView {
        ReaderView { position: self.position, epoch: self.start_position_epoch.value() }
    }

    /// The name under which its queue knows the reader.
    pub closed spec fn reader_id(&self) -> int {
        self.id@
    }

    pub closed spec fn epoch_wf(&self) -> bool {
        self.start_position_epoch.wf()
    }
}

/// A read in progress: where it stands, and the state of its chunk as it was last looked at.
pub struct Iter<T, S: Settings> {
    position: Cursor,
    chunk_index: usize,
    chunk_state: PackedChunkState,
    reader: Ghost<int>,
    _marker: PhantomData<(T, S)>,
}

impl<T, S: Settings> Iter<T, S> {
    /// The next item of the read from `queue`, or `None` when the read is over.
    pub fn next<'q>(&mut self, queue: &'q EventQueue<T, S>) -> (r: Option<&'q T>)
        requires
            queue.wf(),
        ensures
            queue.iter_valid(old(self)) ==> {
                &&& queue.iter_valid(final(self))
                &&& match r {
                    Some(v) => items_from(queue.chunks(), old(self).spec_position())
                        == seq![*v] + items_from(queue.chunks(), final(self).spec_position()),
                    None => {
                        &&& items_from(queue.chunks(), old(self).spec_position())
                                == items_from(queue.chunks(), final(self).spec_position())
                        &&& (queue.iter_exact(old(self)) ==> (
                                items_from(queue.chunks(), final(self).spec_position()) == Seq::<T>::empty()
                                || (queue.at_empty_chunk(final(self).spec_position())
                                    && chunk_index(queue.chunks(), final(self).spec_position().chunk)
                                        == chunk_index(queue.chunks(), old(self).spec_position().chunk) + 1)))
                    },
                }
                &&& {
                    let k0 = chunk_index(queue.chunks(), old(self).spec_position().chunk);
                    let k1 = chunk_index(queue.chunks(), final(self).spec_position().chunk);
                    k1 == k0 || k1 == k0 + 1
                }
            },
            queue.iter_exact(old(self)) ==> queue.iter_exact(final(self)),
            !cursor_lt(final(self).spec_position(), old(self).spec_position()),
            r is Some ==> cursor_lt(old(self).spec_position(), final(self).spec_position()),
            r is Some ==> final(self).spec_position().index > 0,
            final(self).reader_id() == old(self).reader_id(),
            queue.iter_valid(old(self)) && old(self).spec_position().index < old(self).snapshot().spec_len() ==> r is Some,
            ({
                let chunks = queue.chunks();
                let k = chunk_index(chunks, old(self).spec_position().chunk);
                queue.iter_valid(old(self)) && old(self).spec_position().index == old(self).snapshot().spec_len()
                    && old(self).snapshot().spec_has_next() && chunks[k + 1].spec_len() > 0 ==> r is Some
            }),
    {
        queue.iter_next(self)
    }

    pub closed spec fn spec_position(&self) -> Cursor {
        self.position
    }

    /// The id of the reader whose read this is.
    pub closed spec fn reader_id(&self) -> int {
        self.reader@
    }

    /// The chunk state that the read uses: how far it reads in its chunk, and whether it goes on.
    pub closed spec fn snapshot(&self) -> PackedChunkState {
        self.chunk_state
    }
}

impl<T, S: Settings> EventReader<T, S> {
    /// Subscribes to `queue`: the reader will receive events pushed from now on.
    pub fn new(queue: &mut EventQueue<T, S>) -> (r: Self)
        requires
            old(queue).wf(),
            old(queue).readers_count() < u32::MAX,
        ensures
            final(queue).wf(),
            final(queue).has_reader(&r),
            final(queue).readers() == old(queue).readers().insert(r.reader_id(), r.view()),
            r.view().position == old(queue).end(),
            r.view().epoch == old(queue).epoch(),
            items_from(final(queue).chunks(), r.view().position) == Seq::<T>::empty(),
            EventQueue::same_items(*old(queue), *final(queue)),
            final(queue).start_position() == old(queue).start_position(),
            final(queue).spec_total_capacity() == old(queue).spec_total_capacity(),
            final(queue).chunk_id_counter() == old(queue).chunk_id_counter(),
            forall|r: int| #[trigger] old(queue).readers().contains_key(r) ==>
                EventQueue::unread_kept(*old(queue), *final(queue), r),
    {
        queue.subscribe()
    }

    /// Moves the reader to the queue's start position, if the queue moved it since the reader last
    /// looked and the reader stands before it. Marks the chunks it leaves as read, which lets them
    /// be freed. Calling `iter` does the same.
    pub fn update_position(&mut self, queue: &mut EventQueue<T, S>)
        requires
            old(queue).wf(),
            old(queue).has_reader(old(self)),
        ensures
            final(queue).wf(),
            final(queue).has_reader(final(self)),
            final(self).reader_id() == old(self).reader_id(),
            final(queue).next_reader_id() == old(queue).next_reader_id(),
            final(self).view() == (ReaderView {
                position: EventQueue::effective_position(*old(queue), old(self).view()),
                epoch: old(queue).epoch(),
            }),
            final(queue).readers() == old(queue).readers().insert(old(self).reader_id(), final(self).view()),
            EventQueue::kept_after(*old(queue), *final(queue)),
            ({
                let from = old(self).view().position;
                let to = final(self).view().position;
                let cleans = to != from && EventQueue::jump_cleans(*old(queue), from, to);
                let entered = EventQueue::jump_entered(*old(queue), from, to);
                let read = EventQueue::jump_read(*old(queue), from, to);
                &&& cleans ==> EventQueue::counted_and_cleaned(*old(queue), *final(queue), entered, read)
                &&& !cleans ==> EventQueue::counted(*old(queue), *final(queue), entered, read)
            }),
            forall|r: int| #[trigger] final(queue).readers().contains_key(r) && r != old(self).reader_id() ==>
                EventQueue::unread_kept(*old(queue), *final(queue), r),
            S::CLEANUP == CleanupMode::OnChunkRead
                && final(self).view().position.chunk != old(self).view().position.chunk
                && occupancy(old(queue).readers(), old(self).view().position.chunk) == 1
                ==> final(queue).starts_occupied(),
            ({
                let from = old(self).view().position;
                let a = old(queue).chunks();
                let k = chunk_index(a, from.chunk);
                S::CLEANUP != CleanupMode::OnChunkRead
                    || final(self).view().position == from
                    || (final(self).view().position.chunk != from.chunk
                        && occupancy(old(queue).readers(), from.chunk) >= 2
                        && a[k].spec_read() < a[k].spec_entered())
                    ==> final(queue).chunks().len() == a.len()
            }),
    {
        let ghost q0 = *queue;
        let ghost v0 = self.view();
        queue.update_start_position_and_get_chunk_state(self);
        proof {
            EventQueue::lemma_others_unaffected(*old(queue), *queue, self.reader_id());
            if S::CLEANUP == CleanupMode::OnChunkRead && self.view().position.chunk != v0.position.chunk
                && occupancy(q0.readers(), v0.position.chunk) == 1 {
                crate::laws::law_jump_leaving_its_chunk_last_frees_the_front(q0, *queue, self.reader_id(), self.view());
            }
            let a = q0.chunks();
            let k = chunk_index(a, v0.position.chunk);
            if S::CLEANUP != CleanupMode::OnChunkRead || self.view().position == v0.position
                || (self.view().position.chunk != v0.position.chunk && occupancy(q0.readers(), v0.position.chunk) >= 2
                    && a[k].spec_read() < a[k].spec_entered()) {
                crate::laws::law_jump_leaving_others_frees_nothing(q0, *queue, self.reader_id(), self.view());
            }
        }
    }

    /// Starts a consuming read. Take items with `Iter::next`, then hand the read back with
    /// `finish_iter`, which moves the reader past what was read.
    pub fn iter(&mut self, queue: &mut EventQueue<T, S>) -> (it: Iter<T, S>)
        requires
            old(queue).wf(),
            old(queue).has_reader(old(self)),
        ensures
            final(queue).wf(),
            final(queue).has_reader(final(self)),
            final(self).reader_id() == old(self).reader_id(),
            final(queue).next_reader_id() == old(queue).next_reader_id(),
            final(self).view() == (ReaderView {
                position: EventQueue::effective_position(*old(queue), old(self).view()),
                epoch: old(queue).epoch(),
            }),
            final(queue).readers() == old(queue).readers().insert(old(self).reader_id(), final(self).view()),
            EventQueue::kept_after(*old(queue), *final(queue)),
            it.spec_position() == final(self).view().position,
            final(queue).iter_exact(&it),
            it.reader_id() == old(self).reader_id(),
            ({
                let from = old(self).view().position;
                let to = final(self).view().position;
                let cleans = to != from && EventQueue::jump_cleans(*old(queue), from, to);
                let entered = EventQueue::jump_entered(*old(queue), from, to);
                let read = EventQueue::jump_read(*old(queue), from, to);
                &&& cleans ==> EventQueue::counted_and_cleaned(*old(queue), *final(queue), entered, read)
                &&& !cleans ==> EventQueue::counted(*old(queue), *final(queue), entered, read)
            }),
            forall|r: int| #[trigger] final(queue).readers().contains_key(r) && r != old(self).reader_id() ==>
                EventQueue::unread_kept(*old(queue), *final(queue), r),
            S::CLEANUP == CleanupMode::OnChunkRead
                && final(self).view().position.chunk != old(self).view().position.chunk
                && occupancy(old(queue).readers(), old(self).view().position.chunk) == 1
                ==> final(queue).starts_occupied(),
            ({
                let from = old(self).view().position;
                let a = old(queue).chunks();
                let k = chunk_index(a, from.chunk);
                S::CLEANUP != CleanupMode::OnChunkRead
                    || final(self).view().position == from
                    || (final(self).view().position.chunk != from.chunk
                        && occupancy(old(queue).readers(), from.chunk) >= 2
                        && a[k].spec_read() < a[k].spec_entered())
                    ==> final(queue).chunks().len() == a.len()
            }),
    {
        let ghost q0 = *queue;
        let ghost v0 = self.view();
        let it = queue.reader_iter(self);
        proof {
            if S::CLEANUP == CleanupMode::OnChunkRead && self.view().position.chunk != v0.position.chunk
                && occupancy(q0.readers(), v0.position.chunk) == 1 {
                crate::laws::law_jump_leaving_its_chunk_last_frees_the_front(q0, *queue, self.reader_id(), self.view());
            }
            let a = q0.chunks();
            let k = chunk_index(a, v0.position.chunk);
            if S::CLEANUP != CleanupMode::OnChunkRead || self.view().position == v0.position
                || (self.view().position.chunk != v0.position.chunk && occupancy(q0.readers(), v0.position.chunk) >= 2
                    && a[k].spec_read() < a[k].spec_entered()) {
                crate::laws::law_jump_leaving_others_frees_nothing(q0, *queue, self.reader_id(), self.view());
            }
        }
        it
    }

    /// Ends the read `it`: the reader moves to where the read stopped.
    pub fn finish_iter(&mut self, queue: &mut EventQueue<T, S>, it: Iter<T, S>)
        requires
            old(queue).wf(),
            old(queue).has_reader(old(self)),
            it.reader_id() == old(self).reader_id(),
        ensures
            final(queue).wf(),
            final(queue).has_reader(final(self)),
            final(self).reader_id() == old(self).reader_id(),
            final(queue).next_reader_id() == old(queue).next_reader_id(),
            ({
                let accepted = valid_cursor(old(queue).chunks(), it.spec_position())
                    && !cursor_lt(it.spec_position(), old(self).view().position);
                if accepted {
                    &&& final(self).view() == (ReaderView {
                            position: it.spec_position(),
                            epoch: old(self).view().epoch,
                        })
                    &&& final(queue).readers() == old(queue).readers().insert(old(self).reader_id(), final(self).view())
                    &&& EventQueue::kept_after(*old(queue), *final(queue))
                    &&& EventQueue::read_keeps_chunks(*old(queue), old(self).view().position, it.spec_position())
                            ==> EventQueue::counted(*old(queue), *final(queue),
                                EventQueue::read_entered(*old(queue), old(self).view().position, it.spec_position()),
                                EventQueue::read_read(*old(queue), old(self).view().position, it.spec_position()))
                    &&& EventQueue::read_cleans(*old(queue), old(self).view().position, it.spec_position())
                            ==> EventQueue::counted_and_cleaned(*old(queue), *final(queue),
                                EventQueue::read_entered(*old(queue), old(self).view().position, it.spec_position()),
                                EventQueue::read_read(*old(queue), old(self).view().position, it.spec_position()))
                } else {
                    &&& *final(queue) == *old(queue)
                    &&& *final(self) == *old(self)
                }
            }),
            forall|r: int| #[trigger] final(queue).readers().contains_key(r) && r != old(self).reader_id() ==>
                EventQueue::unread_kept(*old(queue), *final(queue), r),
            ({
                let from = old(self).view().position;
                let a = old(queue).chunks();
                S::CLEANUP == CleanupMode::OnChunkRead
                    && valid_cursor(a, it.spec_position())
                    && from.chunk < it.spec_position().chunk
                    && occupancy(old(queue).readers(), from.chunk) == 1
                    && wrapped_next(a[chunk_index(a, from.chunk)].spec_read()) != 0
                    ==> final(queue).starts_occupied()
            }),
            ({
                let from = old(self).view().position;
                let a = old(queue).chunks();
                let k = chunk_index(a, from.chunk);
                valid_cursor(a, it.spec_position()) && !cursor_lt(it.spec_position(), from)
                    && (S::CLEANUP != CleanupMode::OnChunkRead
                        || from.chunk == it.spec_position().chunk
                        || (occupancy(old(queue).readers(), from.chunk) >= 2 && a[k].spec_read() < a[k].spec_entered()))
                    ==> final(queue).chunks().len() == a.len()
            }),
    {
        let ghost q0 = *queue;
        let ghost v0 = self.view();
        let ghost to = it.spec_position();
        let ghost accepted = valid_cursor(q0.chunks(), it.spec_position())
            && !cursor_lt(it.spec_position(), self.view().position);
        queue.finish_iter(self, it);
        proof {
            if accepted {
                EventQueue::lemma_others_unaffected(q0, *queue, self.reader_id());
            }
            let a = q0.chunks();
            if S::CLEANUP == CleanupMode::OnChunkRead && valid_cursor(a, to) && v0.position.chunk < to.chunk
                && occupancy(q0.readers(), v0.position.chunk) == 1
                && wrapped_next(a[chunk_index(a, v0.position.chunk)].spec_read()) != 0 {
                crate::laws::law_read_leaving_its_chunk_last_frees_the_front(q0, *queue, self.reader_id(), to);
            }
            let k = chunk_index(a, v0.position.chunk);
            if valid_cursor(a, to) && !cursor_lt(to, v0.position)
                && (S::CLEANUP != CleanupMode::OnChunkRead || v0.position.chunk == to.chunk
                    || (occupancy(q0.readers(), v0.position.chunk) >= 2 && a[k].spec_read() < a[k].spec_entered())) {
                crate::laws::law_read_leaving_others_frees_nothing(q0, *queue, self.reader_id(), to);
            }
        }
    }

    /// Reads, in order, every item the reader has not read yet, copying them out.
    ///
    /// What was read, followed by what is left after the read, is what was unread before it:
    /// nothing is lost, nothing comes twice. What is left is empty, unless the read stopped at an
    /// empty chunk that a change of chunk capacity left behind; the next read goes on from there.
    #[verifier::rlimit(100)]
    pub fn read_copies(&mut self, queue: &mut EventQueue<T, S>) -> (items: Vec<T>)
        where
            T: Copy,
        requires
            old(queue).wf(),
            old(queue).has_reader(old(self)),
        ensures
            final(queue).wf(),
            final(queue).has_reader(final(self)),
            final(self).reader_id() == old(self).reader_id(),
            final(queue).next_reader_id() == old(queue).next_reader_id(),
            final(self).view().epoch == old(queue).epoch(),
            final(queue).readers() == old(queue).readers().insert(old(self).reader_id(), final(self).view()),
            items_from(old(queue).chunks(), EventQueue::effective_position(*old(queue), old(self).view()))
                == items@ + items_from(final(queue).chunks(), final(self).view().position),
            ({
                let eff = EventQueue::effective_position(*old(queue), old(self).view());
                let f = final(self).view().position;
                let a = old(queue).chunks();
                &&& items_from(final(queue).chunks(), f) == Seq::<T>::empty()
                    || (final(queue).at_empty_chunk(f) && chunk_index(a, eff.chunk) < chunk_index(a, f.chunk))
                &&& forall|k: int| chunk_index(a, eff.chunk) < k < chunk_index(a, f.chunk) ==>
                        #[trigger] a[k].spec_len() > 0
            }),
            S::CLEANUP != CleanupMode::OnChunkRead ==> EventQueue::recounted(*old(queue), *final(queue)),
            final(queue).chunk_id_counter() == old(queue).chunk_id_counter(),
            final(queue).spec_total_capacity() <= old(queue).spec_total_capacity(),
            forall|r: int| #[trigger] final(queue).readers().contains_key(r) && r != old(self).reader_id() ==>
                EventQueue::unread_kept(*old(queue), *final(queue), r),
    {
        let ghost q0 = *queue;
        let ghost eff = EventQueue::effective_position(q0, self.view());
        let mut it = Self::start_read(queue, self);
        let ghost q1 = *queue;
        let ghost start = it.spec_position();
        proof {
            EventQueue::lemma_kept_after(q0, q1);
            lemma_valid_has_chunk(q1.chunks(), start);
        }
        let items = Self::copy_rest(&*queue, &mut it);
        let ghost end = it.spec_position();
        let ghost it_items = items@;
        proof {
            assert(valid_cursor(q1.chunks(), end));
            assert(eff == start);
            assert(items_from(q0.chunks(), eff) == items_from(q1.chunks(), start));
        }
        Self::finish_read(queue, self, it);
        proof {
            let q2 = *queue;
            EventQueue::lemma_others_unaffected(q0, q1, self.reader_id());
            assert(self.view().position == end);
            EventQueue::lemma_kept_after(q1, q2);
            lemma_valid_has_chunk(q2.chunks(), end);
            assert(items_from(q2.chunks(), end) == items_from(q1.chunks(), end));
            if q1.at_empty_chunk(end) {
                EventQueue::lemma_kept_after_chunk(q1, q2, end.chunk);
                let k2 = chunk_index(q2.chunks(), end.chunk);
                let k1 = chunk_index(q1.chunks(), end.chunk);
                assert(q2.chunks()[k2].spec_len() == q1.chunks()[k1].spec_len());
            }
            EventQueue::lemma_kept_after_span(q0, q1, start, end);
            if S::CLEANUP != CleanupMode::OnChunkRead {
                EventQueue::lemma_recounted_trans(q0, q1, q2);
            }
        }
        items
    }

    /// Starts a read: the reader moves to its effective position, and nothing changes that a cursor
    /// reads.
    fn start_read(queue: &mut EventQueue<T, S>, reader: &mut EventReader<T, S>) -> (it: Iter<T, S>)
        requires
            old(queue).wf(),
            old(queue).has_reader(old(reader)),
        ensures
            final(queue).wf(),
            final(queue).has_reader(final(reader)),
            final(reader).reader_id() == old(reader).reader_id(),
            final(queue).next_reader_id() == old(queue).next_reader_id(),
            final(reader).view() == (ReaderView {
                position: EventQueue::effective_position(*old(queue), old(reader).view()),
                epoch: old(queue).epoch(),
            }),
            final(queue).readers() == old(queue).readers().insert(old(reader).reader_id(), final(reader).view()),
            EventQueue::kept_after(*old(queue), *final(queue)),
            it.spec_position() == final(reader).view().position,
            final(queue).iter_exact(&it),
            it.reader_id() == old(reader).reader_id(),
            S::CLEANUP != CleanupMode::OnChunkRead ==> EventQueue::recounted(*old(queue), *final(queue)),
            forall|r: int| #[trigger] final(queue).readers().contains_key(r) && r != old(reader).reader_id() ==>
                EventQueue::unread_kept(*old(queue), *final(queue), r),
    {
        queue.reader_iter(reader)
    }

    /// Ends a read that stopped at a valid position at or after the reader's: the reader moves
    /// there, and nothing changes that a cursor reads.
    fn finish_read(queue: &mut EventQueue<T, S>, reader: &mut EventReader<T, S>, it: Iter<T, S>)
        requires
            old(queue).wf(),
            old(queue).has_reader(old(reader)),
            it.reader_id() == old(reader).reader_id(),
            valid_cursor(old(queue).chunks(), it.spec_position()),
            !cursor_lt(it.spec_position(), old(reader).view().position),
        ensures
            final(queue).wf(),
            final(queue).has_reader(final(reader)),
            final(reader).reader_id() == old(reader).reader_id(),
            final(queue).next_reader_id() == old(queue).next_reader_id(),
            final(reader).view() == (ReaderView { position: it.spec_position(), epoch: old(reader).view().epoch }),
            final(queue).readers() == old(queue).readers().insert(old(reader).reader_id(), final(reader).view()),
            EventQueue::kept_after(*old(queue), *final(queue)),
            S::CLEANUP != CleanupMode::OnChunkRead ==> EventQueue::recounted(*old(queue), *final(queue)),
            forall|r: int| #[trigger] final(queue).readers().contains_key(r) && r != old(reader).reader_id() ==>
                EventQueue::unread_kept(*old(queue), *final(queue), r),
    {
        let ghost q1 = *queue;
        queue.finish_iter(reader, it);
        proof { EventQueue::lemma_others_unaffected(q1, *queue, reader.reader_id()); }
    }

    /// Takes, in order, the items that `it` has left, copying them out.
    fn copy_rest(queue: &EventQueue<T, S>, it: &mut Iter<T, S>) -> (items: Vec<T>)
        where
            T: Copy,
        requires
            queue.wf(),
            queue.iter_exact(old(it)),
        ensures
            queue.iter_exact(final(it)),
            final(it).reader_id() == old(it).reader_id(),
            items_from(queue.chunks(), old(it).spec_position())
                == items@ + items_from(queue.chunks(), final(it).spec_position()),
            items_from(queue.chunks(), final(it).spec_position()) == Seq::<T>::empty()
                || (queue.at_empty_chunk(final(it).spec_position())
                    && chunk_index(queue.chunks(), old(it).spec_position().chunk)
                        < chunk_index(queue.chunks(), final(it).spec_position().chunk)),
            !cursor_lt(final(it).spec_position(), old(it).spec_position()),
            forall|k: int| chunk_index(queue.chunks(), old(it).spec_position().chunk) < k
                < chunk_index(queue.chunks(), final(it).spec_position().chunk) ==>
                #[trigger] queue.chunks()[k].spec_len() > 0,
    {
        let ghost q1 = *queue;
        let ghost start = it.spec_position();
        let ghost rid = it.reader_id();
        proof {
            lemma_valid_has_chunk(q1.chunks(), start);
        }
        let mut items: Vec<T> = Vec::new();
        loop
            invariant_except_break
                chunk_index(q1.chunks(), start.chunk) <= chunk_index(q1.chunks(), it.spec_position().chunk),
                it.spec_position() == start || it.spec_position().index > 0,
                forall|k: int| chunk_index(q1.chunks(), start.chunk) < k < chunk_index(q1.chunks(), it.spec_position().chunk) ==>
                    #[trigger] q1.chunks()[k].spec_len() > 0,
            invariant
                queue.wf(),
                *queue == q1,
                queue.iter_exact(it),
                it.reader_id() == rid,
                items_from(q1.chunks(), start) == items@ + items_from(q1.chunks(), it.spec_position()),
                !cursor_lt(it.spec_position(), start),
            ensures
                queue.iter_exact(it),
                items_from(q1.chunks(), start) == items@ + items_from(q1.chunks(), it.spec_position()),
                items_from(q1.chunks(), it.spec_position()) == Seq::<T>::empty()
                    || (q1.at_empty_chunk(it.spec_position())
                        && chunk_index(q1.chunks(), start.chunk) < chunk_index(q1.chunks(), it.spec_position().chunk)),
                !cursor_lt(it.spec_position(), start),
                forall|k: int| chunk_index(q1.chunks(), start.chunk) < k < chunk_index(q1.chunks(), it.spec_position().chunk) ==>
                    #[trigger] q1.chunks()[k].spec_len() > 0,
            decreases items_from(q1.chunks(), it.spec_position()).len(),
        {
            let ghost before = it.spec_position();
            proof {
                let kb = chunk_index(q1.chunks(), before.chunk);
                assert(q1.chunks()[kb].spec_id() == before.chunk);
                q1.chunks()[kb].lemma_wf();
            }
            match it.next(queue) {
                Some(v) => {
                    items.push(*v);
                    proof {
                        assert(items_from(q1.chunks(), start) =~= items@ + items_from(q1.chunks(), it.spec_position()));
                    }
                },
                None => {
                    break;
                },
            }
        }
        items
    }

    /// Unsubscribes from `queue`; the reader is consumed.
    pub fn unsubscribe(self, queue: &mut EventQueue<T, S>)
        requires
            old(queue).wf(),
            old(queue).has_reader(&self),
        ensures
            final(queue).wf(),
            final(queue).readers() == old(queue).readers().remove(self.reader_id()),
            EventQueue::kept_after(*old(queue), *final(queue)),
            ({
                let cleans = S::CLEANUP_IN_UNSUBSCRIBE && S::CLEANUP != CleanupMode::Never
                    && chunk_index(old(queue).chunks(), self.view().position.chunk) == 0;
                let read = set![chunk_index(old(queue).chunks(), self.view().position.chunk)];
                &&& cleans ==> EventQueue::counted_and_cleaned(*old(queue), *final(queue), Set::empty(), read)
                &&& !cleans ==> EventQueue::counted(*old(queue), *final(queue), Set::empty(), read)
            }),
            forall|r: int| #[trigger] final(queue).readers().contains_key(r) ==>
                EventQueue::unread_kept(*old(queue), *final(queue), r),
            S::CLEANUP_IN_UNSUBSCRIBE && S::CLEANUP != CleanupMode::Never
                && self.view().position.chunk == old(queue).chunks()[0].spec_id() ==> final(queue).starts_occupied(),
            !(S::CLEANUP_IN_UNSUBSCRIBE && S::CLEANUP != CleanupMode::Never
                && self.view().position.chunk == old(queue).chunks()[0].spec_id())
                ==> final(queue).chunks().len() == old(queue).chunks().len(),
    {
        let ghost v = self.view();
        queue.unsubscribe(self);
        proof {
            assert(old(queue).readers().contains_key(self.reader_id()));
            crate::laws::law_unsubscribe_frees_the_front(*old(queue), *queue, v);
        }
    }
}

/// The chunks of the queue, with the counters that the lock guards.
pub struct List<T> {
    chunks: Vec<DynamicChunk<T>>,
    chunk_id_counter: usize,
    total_capacity: usize,
    readers_count: u32,
    /// Capacity of the chunk that was last before the current last one; 0 - no such chunk.
    penult_chunk_size: u32,
}

/// A FIFO event queue. Every subscribed reader receives every event pushed after it subscribed.
/// Items live in a list of chunks; a chunk is freed once every reader has passed it.
pub struct EventQueue<T, S: Settings> {
    list: List<T>,
    start_position: Option<Cursor>,
    readers: Ghost<Map<int, ReaderView>>,
    next_reader_id: Ghost<int>,
    _settings: PhantomData<S>,
}

impl<T, S: Settings> EventQueue<T, S> {
    /// The chunks, first to last.
    pub closed spec fn chunks(&self) -> Seq<DynamicChunk<T>> {
        self.list.chunks@
    }

    /// Where readers that were not yet moved by a `clear` or a `truncate_front` are sent.
    pub closed spec fn start_position(&self) -> Option<Cursor> {
        self.start_position
    }

    /// The subscribed readers, by id.
    pub closed spec fn readers(&self) -> Map<int, ReaderView> {
        self.readers@
    }

    pub closed spec fn next_reader_id(&self) -> int {
        self.next_reader_id@
    }

    pub closed spec fn spec_total_capacity(&self) -> usize {
        self.list.total_capacity
    }

    pub closed spec fn penult_chunk_size(&self) -> u32 {
        self.list.penult_chunk_size
    }

    pub closed spec fn spec_chunk_id_counter(&self) -> usize {
        self.list.chunk_id_counter
    }

    /// The id of the newest chunk; ids count up from 0.
    #[verifier::when_used_as_spec(spec_chunk_id_counter)]
    pub fn chunk_id_counter(&self) -> (r: usize)
        ensures
            r == self.spec_chunk_id_counter(),
    {
        self.list.chunk_id_counter
    }

    pub closed spec fn spec_readers_count(&self) -> u32 {
        self.list.readers_count
    }

    /// The number of subscribed readers.
    #[verifier::when_used_as_spec(spec_readers_count)]
    pub fn readers_count(&self) -> (r: u32)
        ensures
            r == self.spec_readers_count(),
    {
        self.list.readers_count
    }

    /// The epoch of the start position, which every chunk carries.
    pub open spec fn epoch(&self) -> u32 {
        self.chunks()[0].spec_state().spec_epoch()
    }

    /// The last chunk.
    pub open spec fn last_chunk(&self) -> DynamicChunk<T> {
        self.chunks().last()
    }

    /// The position just after the last item.
    pub open spec fn end(&self) -> Cursor {
        Cursor { chunk: self.last_chunk().spec_id(), index: self.last_chunk().spec_len() as usize }
    }

    /// The queue begins with its last chunk or with a chunk that some reader occupies: no chunk
    /// at the front is left that no reader needs.
    pub open spec fn starts_occupied(&self) -> bool {
        self.chunks().len() == 1 || occupancy(self.readers(), self.chunks()[0].spec_id()) > 0
    }

    /// The shape of the chunk list.
    pub open spec fn chunks_wf(&self) -> bool {
        let chunks = self.chunks();
        &&& chunks.len() >= 1
        &&& forall|k: int| 0 <= k < chunks.len() ==> #[trigger] chunks[k].wf()
        &&& ids_increasing(chunks)
        &&& chunks.last().spec_id() == self.chunk_id_counter()
        &&& forall|k: int| 0 <= k < chunks.len() ==>
                (#[trigger] chunks[k].spec_state()).spec_has_next() == (k < chunks.len() - 1)
        &&& forall|k: int| 0 <= k < chunks.len() ==>
                (#[trigger] chunks[k].spec_state()).spec_epoch() == chunks[0].spec_state().spec_epoch()
        &&& forall|k: int| 0 <= k < chunks.len() ==>
                S::MIN_CHUNK_SIZE <= (#[trigger] chunks[k].spec_capacity()) <= S::MAX_CHUNK_SIZE
        &&& self.spec_total_capacity() == sum_capacity(chunks)
        &&& self.start_position() matches Some(c) ==> valid_cursor(chunks, c)
    }

    /// What the queue knows of its readers agrees with its chunks' counters.
    pub open spec fn readers_wf(&self) -> bool {
        let chunks = self.chunks();
        let readers = self.readers();
        &&& readers.dom().finite()
        &&& self.readers_count() == readers.dom().len()
        &&& forall|r: int| #[trigger] readers.dom().contains(r) ==> {
                &&& valid_cursor(chunks, readers[r].position)
                &&& readers[r].epoch <= max_epoch()
                &&& r < self.next_reader_id()
            }
        &&& forall|k: int| 0 <= k < chunks.len() ==>
                counter_diff(chunks[k].spec_entered(), chunks[k].spec_read())
                    == occupancy(readers, #[trigger] chunks[k].spec_id())
    }

    pub open spec fn wf(&self) -> bool {
        &&& settings_valid::<S>()
        &&& self.chunks_wf()
        &&& self.readers_wf()
    }

    /// Makes a queue whose first chunk holds `new_capacity` items.
    pub fn with_capacity(new_capacity: u32) -> (r: Self)
        requires
            settings_valid::<S>(),
            S::MIN_CHUNK_SIZE <= new_capacity <= S::MAX_CHUNK_SIZE,
        ensures
            r.wf(),
            r.chunks().len() == 1,
            r.chunks()[0].spec_id() == 0,
            r.chunks()[0].spec_items() == Seq::<T>::empty(),
            r.chunks()[0].spec_capacity() == new_capacity,
            r.chunks()[0].spec_entered() == 0,
            r.chunks()[0].spec_read() == 0,
            r.epoch() == 0,
            r.start_position() is None,
            r.readers() == Map::<int, ReaderView>::empty(),
            r.spec_total_capacity() == new_capacity,
            r.penult_chunk_size() == 0,
            r.chunk_id_counter() == 0,
    {
        let chunk = DynamicChunk::<T>::construct(0, StartPositionEpoch::zero(), new_capacity as usize);
        let mut chunks: Vec<DynamicChunk<T>> = Vec::new();
        chunks.push(chunk);
        let r = EventQueue {
            list: List {
                chunks,
                chunk_id_counter: 0,
                total_capacity: new_capacity as usize,
                readers_count: 0,
                penult_chunk_size: 0,
            },
            start_position: None,
            readers: Ghost(Map::empty()),
            next_reader_id: Ghost(0),
            _settings: PhantomData,
        };
        proof {
            let chunks = r.chunks();
            assert(chunks.drop_last() =~= Seq::<DynamicChunk<T>>::empty());
            assert(sum_capacity(chunks.drop_last()) == 0);
            assert(sum_capacity(chunks) == new_capacity);
            assert forall|k: int| 0 <= k < chunks.len() implies
                counter_diff(chunks[k].spec_entered(), chunks[k].spec_read())
                    == occupancy(r.readers(), #[trigger] chunks[k].spec_id()) by {
                assert(r.readers().dom().filter(|x: int| r.readers()[x].position.chunk == chunks[k].spec_id())
                    =~= Set::<int>::empty());
            }
        }
        r
    }

    /// Frees the chunk at position `j`, which no reader occupies and which is not the last.
    fn free_chunk(&mut self, j: usize)
        requires
            old(self).wf(),
            j < old(self).chunks().len() - 1,
            counter_diff(old(self).chunks()[j as int].spec_entered(), old(self).chunks()[j as int].spec_read()) == 0,
        ensures
            final(self).wf(),
            final(self).chunks() == old(self).chunks().remove(j as int),
            final(self).start_position() == (match old(self).start_position() {
                Some(c) => if c.chunk == old(self).chunks()[j as int].spec_id() { None } else { Some(c) },
                None => None,
            }),
            final(self).readers() == old(self).readers(),
            final(self).next_reader_id() == old(self).next_reader_id(),
            final(self).penult_chunk_size() == old(self).penult_chunk_size(),
            final(self).chunk_id_counter() == old(self).chunk_id_counter(),
            final(self).spec_total_capacity() <= old(self).spec_total_capacity(),
    {
        let ghost old_chunks = self.chunks();
        let ghost n = old_chunks.len();
        let id = self.list.chunks[j].id();
        let cap = self.list.chunks[j].capacity();
        match self.start_position {
            Some(c) => {
                if c.chunk == id {
                    self.start_position = None;
                }
            },
            None => {},
        }
        proof {
            lemma_splice_capacity(old_chunks, j as int, j as int + 1);
            assert(old_chunks.subrange(j as int, j as int + 1) =~= seq![old_chunks[j as int]]);
            lemma_sum_capacity_single(old_chunks.subrange(j as int, j as int + 1));
            lemma_sum_capacity_nonneg(old_chunks.subrange(0, j as int) + old_chunks.subrange(j as int + 1, n as int));
        }
        self.list.total_capacity = self.list.total_capacity - cap;
        self.list.chunks.remove(j);
        proof {
            let s2 = self.chunks();
            assert(s2 =~= old_chunks.subrange(0, j as int) + old_chunks.subrange(j as int + 1, n as int));
            lemma_splice(old_chunks, j as int, j as int + 1, n - 1);
            assert forall|k: int| 0 <= k < s2.len() implies
                (#[trigger] s2[k].spec_state()).spec_has_next() == (k < s2.len() - 1) by {
                if k >= j {
                    assert(s2[k] == old_chunks[k + 1]);
                }
            }
            assert forall|k: int| 0 <= k < s2.len() implies
                (#[trigger] s2[k].spec_state()).spec_epoch() == s2[0].spec_state().spec_epoch() by {
                if k >= j {
                    assert(s2[k] == old_chunks[k + 1]);
                }
                if j == 0 {
                    assert(s2[0] == old_chunks[1]);
                }
            }
            assert forall|k: int| 0 <= k < s2.len() implies #[trigger] s2[k].wf()
                && S::MIN_CHUNK_SIZE <= s2[k].spec_capacity() <= S::MAX_CHUNK_SIZE
                && counter_diff(s2[k].spec_entered(), s2[k].spec_read()) == occupancy(self.readers(), s2[k].spec_id()) by {
                if k >= j {
                    assert(s2[k] == old_chunks[k + 1]);
                }
            }
            // every reader stands in a chunk other than the freed one
            assert forall|r: int| #[trigger] self.readers().dom().contains(r) implies
                valid_cursor(s2, self.readers()[r].position) by {
                let c = self.readers()[r].position;
                let k = chunk_index(old_chunks, c.chunk);
                crate::cursor::lemma_occupancy_positive(self.readers(), r);
                assert(old_chunks[k].spec_id() == c.chunk);
                if k == j {
                    assert(false);
                }
                if k > j {
                    lemma_splice(old_chunks, j as int, j as int + 1, k);
                } else {
                    assert(s2[k] == old_chunks[k]);
                    lemma_chunk_index(s2, k);
                    lemma_chunk_index(old_chunks, k);
                }
            }
            match self.start_position {
                Some(c) => {
                    let k = chunk_index(old_chunks, c.chunk);
                    assert(old_chunks[k].spec_id() == c.chunk);
                    if k > j {
                        lemma_splice(old_chunks, j as int, j as int + 1, k);
                    } else if k < j {
                        assert(s2[k] == old_chunks[k]);
                        lemma_chunk_index(s2, k);
                        lemma_chunk_index(old_chunks, k);
                    } else {
                        lemma_chunk_index(old_chunks, j as int);
                    }
                },
                None => {},
            }
        }
    }

    /// Frees chunks from the front while no reader occupies them; the last chunk always stays.
    fn cleanup_impl(&mut self)
        requires
            old(self).wf(),
        ensures
            final(self).wf(),
            Self::cleaned(*old(self), *final(self)),
    {
        let ghost old_self = *self;
        let ghost mut d: int = 0;
        while self.list.chunks.len() > 1
            invariant
                self.wf(),
                0 <= d < old_self.chunks().len(),
                self.chunks() == old_self.chunks().subrange(d, old_self.chunks().len() as int),
                forall|k: int| 0 <= k < d ==>
                    counter_diff(#[trigger] old_self.chunks()[k].spec_entered(), old_self.chunks()[k].spec_read()) == 0,
                self.start_position() == Self::start_after_freeing(old_self, d),
                self.readers() == old_self.readers(),
                self.next_reader_id() == old_self.next_reader_id(),
                self.penult_chunk_size() == old_self.penult_chunk_size(),
                self.chunk_id_counter() == old_self.chunk_id_counter(),
            ensures
                self.wf(),
                0 <= d < old_self.chunks().len(),
                self.chunks() == old_self.chunks().subrange(d, old_self.chunks().len() as int),
                forall|k: int| 0 <= k < d ==>
                    counter_diff(#[trigger] old_self.chunks()[k].spec_entered(), old_self.chunks()[k].spec_read()) == 0,
                d == old_self.chunks().len() - 1
                    || counter_diff(old_self.chunks()[d].spec_entered(), old_self.chunks()[d].spec_read()) != 0,
                self.start_position() == Self::start_after_freeing(old_self, d),
                self.readers() == old_self.readers(),
                self.next_reader_id() == old_self.next_reader_id(),
                self.penult_chunk_size() == old_self.penult_chunk_size(),
                self.chunk_id_counter() == old_self.chunk_id_counter(),
            decreases self.list.chunks.len(),
        {
            let entered = self.list.chunks[0].readers_entered();
            let read = self.list.chunks[0].read_completely_times();
            if entered != read {
                break;
            }
            let ghost before = self.chunks();
            self.free_chunk(0);
            proof {
                assert(before[0] == old_self.chunks()[d]);
                d = d + 1;
                assert(self.chunks() =~= old_self.chunks().subrange(d, old_self.chunks().len() as int));
            }
        }
        if self.list.chunks.len() == 1 {
            self.list.penult_chunk_size = 0;
        }
    }

    /// The start position after freeing the first `d` chunks of `q`.
    pub open spec fn start_after_freeing(q: Self, d: int) -> Option<Cursor> {
        match q.start_position() {
            Some(c) => if exists|k: int| 0 <= k < d && #[trigger] q.chunks()[k].spec_id() == c.chunk {
                None
            } else {
                Some(c)
            },
            None => None,
        }
    }

    /// `new` is `old` with its leading run of chunks that no reader occupies freed, stopping at the
    /// last chunk.
    pub open spec fn cleaned(old: Self, new: Self) -> bool {
        exists|d: int| {
            &&& 0 <= d < old.chunks().len()
            &&& new.chunks() == old.chunks().subrange(d, old.chunks().len() as int)
            &&& forall|k: int| 0 <= k < d ==>
                    counter_diff(#[trigger] old.chunks()[k].spec_entered(), old.chunks()[k].spec_read()) == 0
            &&& d == old.chunks().len() - 1
                    || counter_diff(old.chunks()[d].spec_entered(), old.chunks()[d].spec_read()) != 0
            &&& new.start_position() == Self::start_after_freeing(old, d)
            &&& new.readers() == old.readers()
            &&& new.next_reader_id() == old.next_reader_id()
            &&& new.chunk_id_counter() == old.chunk_id_counter()
            &&& new.penult_chunk_size() == if new.chunks().len() == 1 { 0 } else { old.penult_chunk_size() }
        }
    }

    /// The capacity of the chunk that `add_chunk` makes next: it doubles after two chunks of the
    /// same capacity, up to `MAX_CHUNK_SIZE`, giving the pattern 4, 4, 8, 8, 16, 16, ...
    pub open spec fn next_chunk_size(q: Self) -> usize {
        let cap = q.last_chunk().spec_capacity();
        if q.penult_chunk_size() == cap {
            if 2 * cap <= S::MAX_CHUNK_SIZE { (2 * cap) as usize } else { S::MAX_CHUNK_SIZE as usize }
        } else {
            cap
        }
    }

    /// Cleanup on a new chunk makes the next chunk no larger.
    pub proof fn lemma_new_chunk_size_kept(old: Self, mid: Self)
        requires
            old.wf(),
            mid.wf(),
            Self::new_chunk_cleaned(old, mid),
        ensures
            Self::next_chunk_size(mid) <= Self::next_chunk_size(old),
    {
        if S::CLEANUP == CleanupMode::OnNewChunk {
            Self::lemma_cleaned(old, mid);
            let a = old.chunks();
            assert(a[a.len() - 1].wf());
            a[a.len() - 1].lemma_wf();
        }
    }

    /// The next chunk is at most twice as large as the last one.
    pub proof fn lemma_next_chunk_size_bound(q: Self)
        requires
            q.wf(),
        ensures
            q.last_chunk().spec_capacity() <= Self::next_chunk_size(q) <= 2 * q.last_chunk().spec_capacity(),
            Self::next_chunk_size(q) <= S::MAX_CHUNK_SIZE,
    {
        let a = q.chunks();
        assert(a[a.len() - 1].wf());
    }

    /// `new` is `old` with one empty chunk of capacity `size` added at the end.
    pub open spec fn appended_chunk(old: Self, new: Self, size: usize) -> bool {
        let n = old.chunks().len();
        &&& new.chunks().len() == n + 1
        &&& forall|k: int| 0 <= k < n - 1 ==> new.chunks()[k] == old.chunks()[k]
        &&& same_but_next(new.chunks()[n - 1], old.chunks()[n - 1])
        &&& new.last_chunk().spec_items() == Seq::<T>::empty()
        &&& new.last_chunk().spec_id() == old.chunk_id_counter() + 1
        &&& new.last_chunk().spec_capacity() == size
        &&& new.last_chunk().spec_entered() == 0
        &&& new.last_chunk().spec_read() == 0
        &&& new.start_position() == old.start_position()
        &&& new.readers() == old.readers()
        &&& new.next_reader_id() == old.next_reader_id()
        &&& new.penult_chunk_size() == old.last_chunk().spec_capacity()
        &&& new.chunk_id_counter() == old.chunk_id_counter() + 1
        &&& new.spec_total_capacity() == old.spec_total_capacity() + size
        &&& new.readers_count() == old.readers_count()
    }

    /// Adding an empty chunk changes what no cursor reads.
    pub proof fn lemma_appended_items(old: Self, new: Self, size: usize, c: Cursor)
        requires
            old.wf(),
            new.wf(),
            Self::appended_chunk(old, new, size),
            valid_cursor(old.chunks(), c),
        ensures
            valid_cursor(new.chunks(), c),
            items_from(new.chunks(), c) == items_from(old.chunks(), c),
    {
        let a = old.chunks();
        let b = new.chunks();
        let n = a.len();
        let k = chunk_index(a, c.chunk);
        assert(a[k].spec_id() == c.chunk);
        assert(b[k].spec_id() == a[k].spec_id() && b[k].spec_items() == a[k].spec_items());
        lemma_chunk_index(b, k);
        let ta = a.subrange(k + 1, n as int);
        let tb = b.subrange(k + 1, n as int);
        assert forall|i: int| 0 <= i < ta.len() implies #[trigger] ta[i].spec_items() == tb[i].spec_items() by {
            assert(ta[i] == a[k + 1 + i]);
            assert(tb[i] == b[k + 1 + i]);
        }
        lemma_concat_items_same(ta, tb);
        assert(b.subrange(k + 1, n as int + 1) =~= tb.push(b[n as int]));
        assert(b.subrange(k + 1, n as int + 1).drop_last() =~= tb);
        assert(concat_items(tb.push(b[n as int])) =~= concat_items(tb));
    }

    /// Appends an empty chunk of capacity `size`.
    fn add_chunk_sized(&mut self, size: usize)
        requires
            old(self).wf(),
            S::MIN_CHUNK_SIZE <= size <= S::MAX_CHUNK_SIZE,
            old(self).chunk_id_counter() < usize::MAX,
            old(self).spec_total_capacity() + size <= usize::MAX,
        ensures
            final(self).wf(),
            Self::appended_chunk(*old(self), *final(self), size),
            final(self).spec_total_capacity() == old(self).spec_total_capacity() + size,
    {
        let ghost old_self = *self;
        let ghost a = self.chunks();
        let n = self.list.chunks.len();
        let epoch = self.list.chunks[n - 1].chunk_state().epoch();
        self.list.chunk_id_counter = self.list.chunk_id_counter + 1;
        let new_node = DynamicChunk::<T>::construct(self.list.chunk_id_counter, epoch, size);
        self.list.chunks[n - 1].set_next(true);
        self.list.penult_chunk_size = self.list.chunks[n - 1].capacity() as u32;
        self.list.total_capacity = self.list.total_capacity + size;
        self.list.chunks.push(new_node);
        proof {
            let b = self.chunks();
            assert(b.drop_last() =~= a.update(n - 1, b[n - 1]));
            assert forall|k: int| 0 <= k < n - 1 implies b[k] == a[k] by {}
            // the capacity sum, through the unchanged prefix
            assert(b.drop_last().drop_last() =~= a.drop_last());
            assert(b.drop_last().last().spec_capacity() == a.last().spec_capacity());
            assert(sum_capacity(b.drop_last()) == sum_capacity(a));
            assert(sum_capacity(b) == sum_capacity(a) + size);
            assert(ids_increasing(b)) by {
                assert forall|i: int, j: int| 0 <= i < j < b.len() implies b[i].spec_id() < b[j].spec_id() by {
                    if j == n {
                        assert(a[i].spec_id() <= a[n - 1].spec_id());
                    }
                }
            }
            assert forall|k: int| 0 <= k < b.len() implies
                (#[trigger] b[k].spec_state()).spec_epoch() == b[0].spec_state().spec_epoch() by {
                if n == 1 {
                    assert(b[0].spec_state().spec_epoch() == a[0].spec_state().spec_epoch());
                }
            }
            assert forall|k: int| 0 <= k < b.len() implies
                counter_diff(b[k].spec_entered(), b[k].spec_read()) == occupancy(self.readers(), #[trigger] b[k].spec_id()) by {
                if k == n {
                    let readers = self.readers();
                    assert(readers.dom().filter(|r: int| readers[r].position.chunk == b[k].spec_id()) =~= Set::<int>::empty()) by {
                        assert forall|r: int| readers.dom().contains(r) implies readers[r].position.chunk != b[k].spec_id() by {
                            let i = chunk_index(a, readers[r].position.chunk);
                            assert(a[i].spec_id() == readers[r].position.chunk);
                            assert(a[i].spec_id() <= a[n - 1].spec_id());
                        }
                    }
                }
            }
            assert forall|c: Cursor| valid_cursor(a, c) implies valid_cursor(b, c) by {
                let k = chunk_index(a, c.chunk);
                assert(a[k].spec_id() == c.chunk);
                lemma_chunk_index(b, k);
            }
        }
    }

    /// Runs cleanup when the settings ask for it on new chunks.
    fn on_new_chunk_cleanup(&mut self)
        requires
            old(self).wf(),
        ensures
            final(self).wf(),
            Self::new_chunk_cleaned(*old(self), *final(self)),
    {
        if S::CLEANUP == CleanupMode::OnNewChunk {
            self.cleanup_impl();
        }
    }

    /// What cleanup on a new chunk leaves of `old`.
    pub open spec fn new_chunk_cleaned(old: Self, new: Self) -> bool {
        if S::CLEANUP == CleanupMode::OnNewChunk { Self::cleaned(old, new) } else { new == old }
    }

    /// The number of chunks that cleanup freed from the front.
    pub proof fn lemma_cleaned_prefix(old: Self, new: Self) -> (d: int)
        requires
            Self::cleaned(old, new),
        ensures
            0 <= d < old.chunks().len(),
            new.chunks() == old.chunks().subrange(d, old.chunks().len() as int),
            forall|k: int| 0 <= k < d ==>
                counter_diff(#[trigger] old.chunks()[k].spec_entered(), old.chunks()[k].spec_read()) == 0,
            d == old.chunks().len() - 1
                || counter_diff(old.chunks()[d].spec_entered(), old.chunks()[d].spec_read()) != 0,
            new.start_position() == Self::start_after_freeing(old, d),
            new.readers() == old.readers(),
            new.next_reader_id() == old.next_reader_id(),
            new.chunk_id_counter() == old.chunk_id_counter(),
            new.penult_chunk_size() == if new.chunks().len() == 1 { 0 } else { old.penult_chunk_size() },
    {
        choose|d: int| {
            &&& 0 <= d < old.chunks().len()
            &&& new.chunks() == old.chunks().subrange(d, old.chunks().len() as int)
            &&& forall|k: int| 0 <= k < d ==>
                    counter_diff(#[trigger] old.chunks()[k].spec_entered(), old.chunks()[k].spec_read()) == 0
            &&& d == old.chunks().len() - 1
                    || counter_diff(old.chunks()[d].spec_entered(), old.chunks()[d].spec_read()) != 0
            &&& new.start_position() == Self::start_after_freeing(old, d)
            &&& new.readers() == old.readers()
            &&& new.next_reader_id() == old.next_reader_id()
            &&& new.chunk_id_counter() == old.chunk_id_counter()
            &&& new.penult_chunk_size() == if new.chunks().len() == 1 { 0 } else { old.penult_chunk_size() }
        }
    }

    /// Cleanup keeps the last chunk, the readers and the ids, and what each kept cursor reads.
    pub proof fn lemma_cleaned(old: Self, new: Self)
        requires
            old.wf(),
            new.wf(),
            Self::cleaned(old, new),
        ensures
            new.last_chunk() == old.last_chunk(),
            new.readers() == old.readers(),
            new.next_reader_id() == old.next_reader_id(),
            new.chunk_id_counter() == old.chunk_id_counter(),
            new.spec_total_capacity() <= old.spec_total_capacity(),
            new.epoch() == old.epoch(),
            forall|c: Cursor| #[trigger] valid_cursor(new.chunks(), c) ==>
                valid_cursor(old.chunks(), c) && items_from(new.chunks(), c) == items_from(old.chunks(), c),
    {
        let d = Self::lemma_cleaned_prefix(old, new);
        let a = old.chunks();
        let n = a.len();
        lemma_splice_capacity(a, 0, d);
        lemma_sum_capacity_nonneg(a.subrange(0, d));
        assert(a.subrange(0, 0) + a.subrange(d, n as int) =~= new.chunks());
        assert(new.chunks()[0] == a[d]);
        assert forall|c: Cursor| #[trigger] valid_cursor(new.chunks(), c) implies
            valid_cursor(old.chunks(), c) && items_from(new.chunks(), c) == items_from(old.chunks(), c) by {
            let j = chunk_index(new.chunks(), c.chunk);
            assert(new.chunks()[j] == a[j + d]);
            lemma_splice(a, 0, d, j + d);
        }
    }

    /// Appends a chunk whose capacity follows the growth pattern.
    fn add_chunk(&mut self)
        requires
            old(self).wf(),
            old(self).chunk_id_counter() < usize::MAX,
            old(self).spec_total_capacity() + Self::next_chunk_size(*old(self)) <= usize::MAX,
        ensures
            final(self).wf(),
            exists|mid: Self| #![trigger Self::new_chunk_cleaned(*old(self), mid)]
                mid.wf() && Self::new_chunk_cleaned(*old(self), mid)
                && Self::appended_chunk(mid, *final(self), Self::next_chunk_size(mid)),
            final(self).spec_total_capacity() <= old(self).spec_total_capacity() + final(self).last_chunk().spec_capacity(),
            final(self).last_chunk().spec_capacity() <= Self::next_chunk_size(*old(self)),
    {
        self.on_new_chunk_cleanup();
        let ghost mid = *self;
        proof {
            if S::CLEANUP == CleanupMode::OnNewChunk {
                Self::lemma_cleaned(*old(self), mid);
            }
            Self::lemma_new_chunk_size_kept(*old(self), mid);
        }
        let n = self.list.chunks.len();
        let cap = self.list.chunks[n - 1].capacity();
        let new_size: usize = if self.list.penult_chunk_size as usize == cap {
            let doubled: u64 = cap as u64 * 2;
            if doubled <= S::MAX_CHUNK_SIZE as u64 {
                doubled as usize
            } else {
                S::MAX_CHUNK_SIZE as usize
            }
        } else {
            cap
        };
        self.add_chunk_sized(new_size);
    }

    /// `new` is `old` with `vs` appended to the items of its last chunk.
    pub open spec fn extended_last(old: Self, new: Self, vs: Seq<T>) -> bool {
        let n = old.chunks().len();
        &&& new.chunks().len() == n
        &&& forall|k: int| 0 <= k < n - 1 ==> new.chunks()[k] == old.chunks()[k]
        &&& new.last_chunk().spec_items() == old.last_chunk().spec_items() + vs
        &&& new.last_chunk().spec_id() == old.last_chunk().spec_id()
        &&& new.last_chunk().spec_capacity() == old.last_chunk().spec_capacity()
        &&& new.last_chunk().spec_entered() == old.last_chunk().spec_entered()
        &&& new.last_chunk().spec_read() == old.last_chunk().spec_read()
        &&& new.last_chunk().spec_state().spec_epoch() == old.last_chunk().spec_state().spec_epoch()
        &&& new.start_position() == old.start_position()
        &&& new.readers() == old.readers()
        &&& new.next_reader_id() == old.next_reader_id()
        &&& new.penult_chunk_size() == old.penult_chunk_size()
        &&& new.chunk_id_counter() == old.chunk_id_counter()
        &&& new.spec_total_capacity() == old.spec_total_capacity()
        &&& new.readers_count() == old.readers_count()
    }

    /// Appending to the last chunk, within its capacity, keeps the queue well formed.
    pub proof fn lemma_extended_last_wf(old: Self, new: Self, vs: Seq<T>)
        requires
            old.wf(),
            Self::extended_last(old, new, vs),
            new.last_chunk().wf(),
            new.last_chunk().spec_state().spec_has_next() == false,
        ensures
            new.wf(),
    {
        let a = old.chunks();
        let b = new.chunks();
        let n = a.len();
        lemma_same_shape(a, b);
        assert forall|k: int| #![trigger b[k]] 0 <= k < n implies b[k].wf()
            && b[k].spec_state().spec_has_next() == (k < n - 1)
            && b[k].spec_state().spec_epoch() == b[0].spec_state().spec_epoch()
            && S::MIN_CHUNK_SIZE <= b[k].spec_capacity() <= S::MAX_CHUNK_SIZE
            && counter_diff(b[k].spec_entered(), b[k].spec_read()) == occupancy(new.readers(), b[k].spec_id()) by {
            if n == 1 {
                assert(b[0] == b[n - 1]);
            } else {
                assert(b[0] == a[0]);
            }
        }
        assert(ids_increasing(b));
        assert(b.last().spec_id() == new.chunk_id_counter());
        assert(new.spec_total_capacity() == sum_capacity(b));
        assert(new.start_position() matches Some(c) ==> valid_cursor(b, c));
        assert(new.chunks_wf());
        assert(new.readers_wf());
    }

    /// Two queues that agree in everything they keep: their chunks, start position, readers and
    /// counters.
    pub open spec fn same_state(a: Self, b: Self) -> bool {
        &&& a.chunks().len() == b.chunks().len()
        &&& forall|k: int| 0 <= k < a.chunks().len() ==> same_chunk(#[trigger] a.chunks()[k], b.chunks()[k])
        &&& a.start_position() == b.start_position()
        &&& a.readers() == b.readers()
        &&& a.next_reader_id() == b.next_reader_id()
        &&& a.penult_chunk_size() == b.penult_chunk_size()
        &&& a.chunk_id_counter() == b.chunk_id_counter()
        &&& a.spec_total_capacity() == b.spec_total_capacity()
        &&& a.readers_count() == b.readers_count()
    }

    /// In a well-formed queue, a chunk's packed state is fixed by its items, its place and the
    /// queue's epoch.
    pub proof fn lemma_state_parts(q: Self, k: int)
        requires
            q.wf(),
            0 <= k < q.chunks().len(),
        ensures
            q.chunks()[k].spec_state().spec_len() == q.chunks()[k].spec_len(),
            q.chunks()[k].spec_state().spec_has_next() == (k < q.chunks().len() - 1),
            q.chunks()[k].spec_state().spec_epoch() == q.epoch(),
    {
        assert(q.chunks()[k].wf());
        q.chunks()[k].lemma_wf();
    }

    /// Two well-formed queues whose chunks agree in items, ids, capacities and counters, with the
    /// same epoch and the same other fields, are the same state.
    pub proof fn lemma_same_state_by_parts(a: Self, b: Self)
        requires
            a.wf(),
            b.wf(),
            a.chunks().len() == b.chunks().len(),
            forall|k: int| 0 <= k < a.chunks().len() ==> {
                &&& (#[trigger] a.chunks()[k]).spec_items() == b.chunks()[k].spec_items()
                &&& a.chunks()[k].spec_id() == b.chunks()[k].spec_id()
                &&& a.chunks()[k].spec_capacity() == b.chunks()[k].spec_capacity()
                &&& a.chunks()[k].spec_entered() == b.chunks()[k].spec_entered()
                &&& a.chunks()[k].spec_read() == b.chunks()[k].spec_read()
            },
            a.epoch() == b.epoch(),
            a.start_position() == b.start_position(),
            a.readers() == b.readers(),
            a.next_reader_id() == b.next_reader_id(),
            a.penult_chunk_size() == b.penult_chunk_size(),
            a.chunk_id_counter() == b.chunk_id_counter(),
        ensures
            Self::same_state(a, b),
    {
        assert forall|k: int| 0 <= k < a.chunks().len() implies same_chunk(#[trigger] a.chunks()[k], b.chunks()[k]) by {
            assert(a.chunks()[k].spec_items() == b.chunks()[k].spec_items());
            Self::lemma_state_parts(a, k);
            Self::lemma_state_parts(b, k);
            PackedChunkState::lemma_parts_determine(a.chunks()[k].spec_state(), b.chunks()[k].spec_state());
        }
        lemma_same_shape(a.chunks(), b.chunks());
    }

    /// Cleanup is determined: from the same state it leaves the same state.
    pub proof fn lemma_cleaned_determined(a: Self, a2: Self, b: Self, b2: Self)
        requires
            a.wf(),
            a2.wf(),
            b.wf(),
            b2.wf(),
            Self::same_state(a, a2),
            Self::cleaned(a, b),
            Self::cleaned(a2, b2),
        ensures
            Self::same_state(b, b2),
    {
        let d = Self::lemma_cleaned_prefix(a, b);
        let d2 = Self::lemma_cleaned_prefix(a2, b2);
        let n = a.chunks().len();
        if d < d2 {
            assert(same_chunk(a.chunks()[d], a2.chunks()[d]));
            assert(counter_diff(a2.chunks()[d].spec_entered(), a2.chunks()[d].spec_read()) == 0);
        }
        if d2 < d {
            assert(same_chunk(a.chunks()[d2], a2.chunks()[d2]));
            assert(counter_diff(a.chunks()[d2].spec_entered(), a.chunks()[d2].spec_read()) == 0);
        }
        assert(d == d2);
        assert forall|k: int| 0 <= k < b.chunks().len() implies {
            &&& (#[trigger] b.chunks()[k]).spec_items() == b2.chunks()[k].spec_items()
            &&& b.chunks()[k].spec_id() == b2.chunks()[k].spec_id()
            &&& b.chunks()[k].spec_capacity() == b2.chunks()[k].spec_capacity()
            &&& b.chunks()[k].spec_entered() == b2.chunks()[k].spec_entered()
            &&& b.chunks()[k].spec_read() == b2.chunks()[k].spec_read()
        } by {
            assert(b.chunks()[k] == a.chunks()[k + d]);
            assert(b2.chunks()[k] == a2.chunks()[k + d]);
            assert(same_chunk(a.chunks()[k + d], a2.chunks()[k + d]));
        }
        assert(Self::start_after_freeing(a, d) == Self::start_after_freeing(a2, d)) by {
            if let Some(c) = a.start_position() {
                if exists|k: int| 0 <= k < d && #[trigger] a.chunks()[k].spec_id() == c.chunk {
                    let k = choose|k: int| 0 <= k < d && #[trigger] a.chunks()[k].spec_id() == c.chunk;
                    assert(same_chunk(a.chunks()[k], a2.chunks()[k]));
                }
                if exists|k: int| 0 <= k < d && #[trigger] a2.chunks()[k].spec_id() == c.chunk {
                    let k = choose|k: int| 0 <= k < d && #[trigger] a2.chunks()[k].spec_id() == c.chunk;
                    assert(same_chunk(a.chunks()[k], a2.chunks()[k]));
                }
            }
        }
        Self::lemma_cleaned(a, b);
        Self::lemma_cleaned(a2, b2);
        assert(b.chunks()[0] == a.chunks()[d]);
        assert(same_chunk(a.chunks()[0], a2.chunks()[0]));
        assert(same_chunk(a.chunks()[d], a2.chunks()[d]));
        Self::lemma_state_parts(a, 0);
        Self::lemma_state_parts(a, d);
        Self::lemma_state_parts(a2, 0);
        Self::lemma_state_parts(a2, d);
        Self::lemma_same_state_by_parts(b, b2);
    }

    /// Adding a chunk is determined: from the same state it leaves the same state.
    pub proof fn lemma_appended_determined(a: Self, a2: Self, b: Self, b2: Self, size: usize)
        requires
            a.wf(),
            a2.wf(),
            b.wf(),
            b2.wf(),
            Self::same_state(a, a2),
            Self::appended_chunk(a, b, size),
            Self::appended_chunk(a2, b2, size),
        ensures
            Self::same_state(b, b2),
    {
        let n = a.chunks().len();
        assert forall|k: int| 0 <= k < b.chunks().len() implies {
            &&& (#[trigger] b.chunks()[k]).spec_items() == b2.chunks()[k].spec_items()
            &&& b.chunks()[k].spec_id() == b2.chunks()[k].spec_id()
            &&& b.chunks()[k].spec_capacity() == b2.chunks()[k].spec_capacity()
            &&& b.chunks()[k].spec_entered() == b2.chunks()[k].spec_entered()
            &&& b.chunks()[k].spec_read() == b2.chunks()[k].spec_read()
        } by {
            if k < n {
                assert(same_chunk(a.chunks()[k], a2.chunks()[k]));
            }
        }
        assert(same_chunk(a.chunks()[0], a2.chunks()[0]));
        Self::lemma_state_parts(a, 0);
        Self::lemma_state_parts(a2, 0);
        assert(b.chunks()[0].spec_state().spec_epoch() == a.chunks()[0].spec_state().spec_epoch());
        assert(b2.chunks()[0].spec_state().spec_epoch() == a2.chunks()[0].spec_state().spec_epoch());
        assert(same_chunk(a.chunks()[n - 1], a2.chunks()[n - 1]));
        Self::lemma_same_state_by_parts(b, b2);
    }

    /// Appending to the last chunk is determined: from the same state it leaves the same state.
    pub proof fn lemma_extended_last_determined(a: Self, a2: Self, b: Self, b2: Self, vs: Seq<T>)
        requires
            a.wf(),
            a2.wf(),
            b.wf(),
            b2.wf(),
            Self::same_state(a, a2),
            Self::extended_last(a, b, vs),
            Self::extended_last(a2, b2, vs),
        ensures
            Self::same_state(b, b2),
    {
        let n = a.chunks().len();
        assert forall|k: int| 0 <= k < b.chunks().len() implies {
            &&& (#[trigger] b.chunks()[k]).spec_items() == b2.chunks()[k].spec_items()
            &&& b.chunks()[k].spec_id() == b2.chunks()[k].spec_id()
            &&& b.chunks()[k].spec_capacity() == b2.chunks()[k].spec_capacity()
            &&& b.chunks()[k].spec_entered() == b2.chunks()[k].spec_entered()
            &&& b.chunks()[k].spec_read() == b2.chunks()[k].spec_read()
        } by {
            assert(same_chunk(a.chunks()[k], a2.chunks()[k]));
        }
        assert(same_chunk(a.chunks()[0], a2.chunks()[0]));
        assert(same_chunk(a.chunks()[n - 1], a2.chunks()[n - 1]));
        Self::lemma_state_parts(a, 0);
        Self::lemma_state_parts(a2, 0);
        Self::lemma_state_parts(a, n - 1);
        Self::lemma_state_parts(a2, n - 1);
        Self::lemma_state_parts(b, 0);
        Self::lemma_state_parts(b2, 0);
        Self::lemma_state_parts(b, n - 1);
        Self::lemma_state_parts(b2, n - 1);
        Self::lemma_same_state_by_parts(b, b2);
    }

    /// A push is determined: from the same state, pushing the same value leaves the same state.
    pub proof fn lemma_push_step_determined(a: Self, a2: Self, b: Self, b2: Self, v: T)
        requires
            a.wf(),
            a2.wf(),
            b.wf(),
            b2.wf(),
            Self::same_state(a, a2),
            Self::push_step(a, b, v),
            Self::push_step(a2, b2, v),
        ensures
            Self::same_state(b, b2),
    {
        let n = a.chunks().len();
        assert(same_chunk(a.chunks()[n - 1], a2.chunks()[n - 1]));
        if a.last_chunk().spec_len() < a.last_chunk().spec_capacity() {
            Self::lemma_extended_last_determined(a, a2, b, b2, seq![v]);
        } else {
            let (m, m2) = choose|mid: Self, mid2: Self|
                #![trigger Self::new_chunk_cleaned(a, mid), Self::appended_chunk(mid, mid2, Self::next_chunk_size(mid))]
                mid.wf() && mid2.wf() && Self::new_chunk_cleaned(a, mid)
                && Self::appended_chunk(mid, mid2, Self::next_chunk_size(mid))
                && Self::extended_last(mid2, b, seq![v]);
            let (p, p2) = choose|mid: Self, mid2: Self|
                #![trigger Self::new_chunk_cleaned(a2, mid), Self::appended_chunk(mid, mid2, Self::next_chunk_size(mid))]
                mid.wf() && mid2.wf() && Self::new_chunk_cleaned(a2, mid)
                && Self::appended_chunk(mid, mid2, Self::next_chunk_size(mid))
                && Self::extended_last(mid2, b2, seq![v]);
            if S::CLEANUP == CleanupMode::OnNewChunk {
                Self::lemma_cleaned_determined(a, a2, m, p);
            }
            let k = m.chunks().len() - 1;
            assert(same_chunk(m.chunks()[k], p.chunks()[k]));
            assert(Self::next_chunk_size(m) == Self::next_chunk_size(p));
            Self::lemma_appended_determined(m, p, m2, p2, Self::next_chunk_size(m));
            Self::lemma_extended_last_determined(m2, p2, b, b2, seq![v]);
        }
    }

    /// Runs of the same pushes from the same state end in the same state.
    pub proof fn lemma_push_steps_determined(s1: Seq<Self>, s2: Seq<Self>, vs: Seq<T>)
        requires
            Self::push_steps(s1, vs),
            Self::push_steps(s2, vs),
            Self::same_state(s1[0], s2[0]),
        ensures
            Self::same_state(s1[vs.len() as int], s2[vs.len() as int]),
        decreases vs.len(),
    {
        if vs.len() > 0 {
            let k = vs.len() - 1;
            let t1 = s1.drop_last();
            let t2 = s2.drop_last();
            let w = vs.drop_last();
            assert forall|i: int| 0 <= i <= w.len() implies #[trigger] t1[i].wf() by {
                assert(s1[i].wf());
            }
            assert forall|i: int| 0 <= i < w.len() implies #[trigger] Self::push_step(t1[i], t1[i + 1], w[i]) by {
                assert(Self::push_step(s1[i], s1[i + 1], vs[i]));
            }
            assert forall|i: int| 0 <= i <= w.len() implies #[trigger] t2[i].wf() by {
                assert(s2[i].wf());
            }
            assert forall|i: int| 0 <= i < w.len() implies #[trigger] Self::push_step(t2[i], t2[i + 1], w[i]) by {
                assert(Self::push_step(s2[i], s2[i + 1], vs[i]));
            }
            Self::lemma_push_steps_determined(t1, t2, w);
            assert(s1[k].wf() && s2[k].wf() && s1[k + 1].wf() && s2[k + 1].wf());
            assert(Self::push_step(s1[k], s1[k + 1], vs[k]));
            assert(Self::push_step(s2[k], s2[k + 1], vs[k]));
            Self::lemma_push_step_determined(s1[k], s2[k], s1[k + 1], s2[k + 1], vs[k]);
        }
    }

    /// `new` is `old` after one push of `v`: into the last chunk while it has room; otherwise,
    /// after cleanup on a new chunk, into a new chunk of `next_chunk_size`.
    pub open spec fn push_step(old: Self, new: Self, v: T) -> bool {
        if old.last_chunk().spec_len() < old.last_chunk().spec_capacity() {
            Self::extended_last(old, new, seq![v])
        } else {
            exists|mid: Self, mid2: Self|
                #![trigger Self::new_chunk_cleaned(old, mid), Self::appended_chunk(mid, mid2, Self::next_chunk_size(mid))]
                mid.wf() && mid2.wf() && Self::new_chunk_cleaned(old, mid)
                && Self::appended_chunk(mid, mid2, Self::next_chunk_size(mid))
                && Self::extended_last(mid2, new, seq![v])
        }
    }

    /// `states` runs from its first to its last element by one push of each of `vs`, in order.
    pub open spec fn push_steps(states: Seq<Self>, vs: Seq<T>) -> bool {
        &&& states.len() == vs.len() + 1
        &&& forall|i: int| 0 <= i <= vs.len() ==> #[trigger] states[i].wf()
        &&& forall|i: int| 0 <= i < vs.len() ==> #[trigger] Self::push_step(states[i], states[i + 1], vs[i])
    }

    /// One more push extends a run of pushes.
    pub proof fn lemma_push_steps_push(states: Seq<Self>, vs: Seq<T>, new: Self, v: T)
        requires
            Self::push_steps(states, vs),
            new.wf(),
            Self::push_step(states[vs.len() as int], new, v),
        ensures
            Self::push_steps(states.push(new), vs.push(v)),
    {
        let s2 = states.push(new);
        let v2 = vs.push(v);
        assert forall|i: int| 0 <= i <= v2.len() implies #[trigger] s2[i].wf() by {
            if i <= vs.len() {
                assert(s2[i] == states[i]);
            }
        }
        assert forall|i: int| 0 <= i < v2.len() implies #[trigger] Self::push_step(s2[i], s2[i + 1], v2[i]) by {
            if i < vs.len() {
                assert(s2[i] == states[i]);
                assert(s2[i + 1] == states[i + 1]);
                assert(v2[i] == vs[i]);
                assert(Self::push_step(states[i], states[i + 1], vs[i]));
            } else {
                assert(s2[i] == states[vs.len() as int]);
                assert(s2[i + 1] == new);
                assert(v2[i] == v);
            }
        }
    }

    /// `new` holds what `old` held, with `vs` appended: every cursor that both can read from now
    /// reads `vs` after what it read before, and the old end reads exactly `vs`.
    pub open spec fn pushed(old: Self, new: Self, vs: Seq<T>) -> bool {
        &&& new.readers() == old.readers()
        &&& new.next_reader_id() == old.next_reader_id()
        &&& new.epoch() == old.epoch()
        &&& new.chunk_id_counter() >= old.chunk_id_counter()
        &&& forall|id: usize| #[trigger] has_chunk(new.chunks(), id) && id <= old.chunk_id_counter() ==>
                has_chunk(old.chunks(), id)
        &&& forall|c: Cursor| #[trigger] valid_cursor(old.chunks(), c) && has_chunk(new.chunks(), c.chunk) ==> {
                &&& valid_cursor(new.chunks(), c)
                &&& items_from(new.chunks(), c) == items_from(old.chunks(), c) + vs
            }
        &&& forall|r: int| #[trigger] new.readers().contains_key(r) ==>
                Self::unread(new, new.readers()[r]) == Self::unread(old, old.readers()[r]) + vs
    }

    /// Every chunk id is at most the id counter.
    pub proof fn lemma_ids_bounded(q: Self)
        requires
            q.wf(),
        ensures
            forall|id: usize| #[trigger] has_chunk(q.chunks(), id) ==> id <= q.chunk_id_counter(),
    {
        let a = q.chunks();
        assert forall|id: usize| #[trigger] has_chunk(a, id) implies id <= q.chunk_id_counter() by {
            let k = choose|k: int| 0 <= k < a.len() && #[trigger] a[k].spec_id() == id;
            if k < a.len() - 1 {
                assert(a[k].spec_id() < a[a.len() - 1].spec_id());
            }
        }
    }

    /// Pushing `x` and then `y` pushes `x + y`.
    pub proof fn lemma_pushed_trans(a: Self, b: Self, c: Self, x: Seq<T>, y: Seq<T>)
        requires
            a.wf(),
            b.wf(),
            c.wf(),
            Self::pushed(a, b, x),
            Self::pushed(b, c, y),
        ensures
            Self::pushed(a, c, x + y),
    {
        assert forall|cur: Cursor| #[trigger] valid_cursor(a.chunks(), cur) && has_chunk(c.chunks(), cur.chunk) implies {
            &&& valid_cursor(c.chunks(), cur)
            &&& items_from(c.chunks(), cur) == items_from(a.chunks(), cur) + (x + y)
        } by {
            Self::lemma_ids_bounded(a);
            lemma_valid_has_chunk(a.chunks(), cur);
            assert(has_chunk(b.chunks(), cur.chunk));
            assert(valid_cursor(b.chunks(), cur));
            assert(items_from(a.chunks(), cur) + x + y =~= items_from(a.chunks(), cur) + (x + y));
        }
        assert forall|id: usize| #[trigger] has_chunk(c.chunks(), id) && id <= a.chunk_id_counter() implies
            has_chunk(a.chunks(), id) by {
            assert(has_chunk(b.chunks(), id));
        }
        assert forall|r: int| #[trigger] c.readers().contains_key(r) implies
            Self::unread(c, c.readers()[r]) == Self::unread(a, a.readers()[r]) + (x + y) by {
            assert(b.readers().contains_key(r));
            assert(Self::unread(a, a.readers()[r]) + x + y =~= Self::unread(a, a.readers()[r]) + (x + y));
        }
    }

    /// The end of a queue reads nothing.
    pub proof fn lemma_end_reads_nothing(q: Self)
        requires
            q.wf(),
        ensures
            valid_cursor(q.chunks(), q.end()),
            items_from(q.chunks(), q.end()) == Seq::<T>::empty(),
    {
        let a = q.chunks();
        let n = a.len();
        lemma_chunk_index(a, n - 1);
        assert(a.subrange(n as int, n as int) =~= Seq::<DynamicChunk<T>>::empty());
        assert(concat_items(Seq::<DynamicChunk<T>>::empty()) == Seq::<T>::empty());
        let len = a[n - 1].spec_len();
        a[n - 1].lemma_wf();
        assert(a[n - 1].spec_items().subrange(len as int, len as int) =~= Seq::<T>::empty());
        assert(items_from(a, q.end()) =~= Seq::<T>::empty());
    }

    /// Appending to the last chunk appends to what every cursor reads.
    pub proof fn lemma_push_last(old: Self, new: Self, vs: Seq<T>)
        requires
            old.wf(),
            new.wf(),
            Self::extended_last(old, new, vs),
        ensures
            Self::pushed(old, new, vs),
            capacities(new.chunks()) == capacities(old.chunks()),
    {
        let a = old.chunks();
        let b = new.chunks();
        let n = a.len();
        assert(capacities(b) =~= capacities(a));
        Self::lemma_end_reads_nothing(old);
        assert(b[0].spec_state().spec_epoch() == a[0].spec_state().spec_epoch());
        assert forall|id: usize| #[trigger] has_chunk(b, id) && id <= old.chunk_id_counter() implies
            has_chunk(a, id) by {
            let k = choose|k: int| 0 <= k < b.len() && #[trigger] b[k].spec_id() == id;
            assert(a[k].spec_id() == id);
        }
        assert forall|c: Cursor| #[trigger] valid_cursor(a, c) && has_chunk(b, c.chunk) implies {
            &&& valid_cursor(b, c)
            &&& items_from(b, c) == items_from(a, c) + vs
        } by {
            let k = chunk_index(a, c.chunk);
            assert(a[k].spec_id() == c.chunk);
            assert(b[k].spec_id() == c.chunk);
            lemma_chunk_index(b, k);
            if k == n - 1 {
                assert(a.subrange(k + 1, n as int) =~= Seq::<DynamicChunk<T>>::empty());
                assert(b.subrange(k + 1, n as int) =~= Seq::<DynamicChunk<T>>::empty());
                assert(items_from(b, c) =~= items_from(a, c) + vs);
            } else {
                let ta = a.subrange(k + 1, n as int);
                let tb = b.subrange(k + 1, n as int);
                lemma_concat_items_same(ta.drop_last(), tb.drop_last());
                assert(ta.drop_last() =~= tb.drop_last());
                assert(concat_items(tb) =~= concat_items(ta) + vs);
                assert(items_from(b, c) =~= items_from(a, c) + vs);
            }
        }
        lemma_chunk_index(b, n - 1);
        assert(items_from(b, old.end()) =~= vs);
        assert forall|r: int| #[trigger] new.readers().contains_key(r) implies
            Self::unread(new, new.readers()[r]) == Self::unread(old, old.readers()[r]) + vs by {
            let e = Self::effective_position(old, old.readers()[r]);
            assert(valid_cursor(a, e));
            let k = chunk_index(a, e.chunk);
            assert(a[k].spec_id() == e.chunk);
            assert(b[k].spec_id() == e.chunk);
            assert(has_chunk(b, e.chunk));
        }
    }

    /// Cleaning, then adding a chunk, then appending to it, appends to what every kept cursor reads.
    #[verifier::rlimit(80)]
    #[verifier::spinoff_prover]
    pub proof fn lemma_grown(old: Self, mid2: Self, mid: Self, new: Self, vs: Seq<T>)
        requires
            old.wf(),
            mid2.wf(),
            mid.wf(),
            new.wf(),
            Self::new_chunk_cleaned(old, mid2),
            Self::appended_chunk(mid2, mid, Self::next_chunk_size(mid2)),
            Self::extended_last(mid, new, vs),
        ensures
            Self::pushed(old, new, vs),
            capacities(new.chunks()) == capacities(mid2.chunks()).push(Self::next_chunk_size(mid2)),
    {
        Self::lemma_push_last(mid, new, vs);
        if S::CLEANUP == CleanupMode::OnNewChunk {
            Self::lemma_cleaned(old, mid2);
        }
        let a = mid2.chunks();
        let b = mid.chunks();
        let n = a.len();
        assert(capacities(b) =~= capacities(a).push(Self::next_chunk_size(mid2)));
        Self::lemma_end_reads_nothing(mid2);
        Self::lemma_appended_items(mid2, mid, Self::next_chunk_size(mid2), mid2.end());
        assert(old.end() == mid2.end());
        assert(b[0].spec_state().spec_epoch() == a[0].spec_state().spec_epoch());
        let d = if S::CLEANUP == CleanupMode::OnNewChunk {
            Self::lemma_cleaned_prefix(old, mid2)
        } else {
            0
        };
        assert(forall|k: int| 0 <= k < n ==> a[k] == old.chunks()[k + d]) by {
            if S::CLEANUP != CleanupMode::OnNewChunk {
                assert(mid2 == old);
            }
        }
        assert(mid2.chunk_id_counter() == old.chunk_id_counter());
        assert forall|id: usize| #[trigger] has_chunk(new.chunks(), id) && id <= old.chunk_id_counter() implies
            has_chunk(old.chunks(), id) by {
            let k = choose|k: int| 0 <= k < new.chunks().len() && #[trigger] new.chunks()[k].spec_id() == id;
            assert(b[k].spec_id() == id);
            if k < n {
                assert(a[k].spec_id() == id);
                assert(old.chunks()[k + d].spec_id() == id);
            }
        }
        assert forall|c: Cursor| #[trigger] valid_cursor(old.chunks(), c) && has_chunk(new.chunks(), c.chunk) implies {
            &&& valid_cursor(new.chunks(), c)
            &&& items_from(new.chunks(), c) == items_from(old.chunks(), c) + vs
        } by {
            let ko = chunk_index(old.chunks(), c.chunk);
            assert(old.chunks()[ko].spec_id() == c.chunk);
            let k = choose|k: int| 0 <= k < new.chunks().len() && #[trigger] new.chunks()[k].spec_id() == c.chunk;
            Self::lemma_ids_bounded(old);
            lemma_valid_has_chunk(old.chunks(), c);
            if k == n {
                assert(false);
            }
            assert(b[k].spec_id() == new.chunks()[k].spec_id());
            assert(a[k].spec_id() == c.chunk);
            assert(a[k] == old.chunks()[k + d]);
            lemma_chunk_index(old.chunks(), k + d);
            lemma_chunk_index(a, k);
            assert(valid_cursor(a, c));
            Self::lemma_appended_items(mid2, mid, Self::next_chunk_size(mid2), c);
            lemma_valid_has_chunk(b, c);
        }
        Self::lemma_grown_unread(old, mid2, mid, new, vs);
    }

    /// Cleaning, then adding a chunk, then appending `vs` to it, appends `vs` to what every reader
    /// has left to read.
    proof fn lemma_grown_unread(old: Self, mid2: Self, mid: Self, new: Self, vs: Seq<T>)
        requires
            old.wf(),
            mid2.wf(),
            mid.wf(),
            new.wf(),
            Self::new_chunk_cleaned(old, mid2),
            Self::appended_chunk(mid2, mid, Self::next_chunk_size(mid2)),
            Self::extended_last(mid, new, vs),
        ensures
            forall|r: int| #[trigger] new.readers().contains_key(r) ==>
                Self::unread(new, new.readers()[r]) == Self::unread(old, old.readers()[r]) + vs,
    {
        Self::lemma_push_last(mid, new, vs);
        Self::lemma_new_chunk_unread(old, mid2, mid, Self::next_chunk_size(mid2));
        assert forall|r: int| #[trigger] new.readers().contains_key(r) implies
            Self::unread(new, new.readers()[r]) == Self::unread(old, old.readers()[r]) + vs by {
            assert(Self::unread_kept(old, mid, r));
        }
    }

    /// Cleanup on a new chunk, then adding an empty chunk, leaves every reader what it had to read.
    pub proof fn lemma_new_chunk_unread(old: Self, mid: Self, new: Self, size: usize)
        requires
            old.wf(),
            mid.wf(),
            new.wf(),
            Self::new_chunk_cleaned(old, mid),
            Self::appended_chunk(mid, new, size),
        ensures
            forall|r: int| #[trigger] new.readers().contains_key(r) ==> Self::unread_kept(old, new, r),
    {
        let a = mid.chunks();
        let b = new.chunks();
        assert(b[0].spec_state().spec_epoch() == a[0].spec_state().spec_epoch());
        assert forall|r: int| #[trigger] new.readers().contains_key(r) implies Self::unread_kept(old, new, r) by {
            if S::CLEANUP == CleanupMode::OnNewChunk {
                Self::lemma_cleaned(old, mid);
                Self::lemma_same_items(old, old);
                assert(Self::kept_after(old, mid));
                Self::lemma_kept_after_unread(old, mid, r);
            }
            let e = Self::effective_position(mid, mid.readers()[r]);
            assert(valid_cursor(a, e));
            Self::lemma_appended_items(mid, new, size, e);
        }
    }

    /// Appends `value` at the end of the queue.
    pub fn push(&mut self, value: T)
        requires
            old(self).wf(),
            old(self).chunk_id_counter() < usize::MAX,
            old(self).last_chunk().spec_len() < old(self).last_chunk().spec_capacity()
                || old(self).spec_total_capacity() + Self::next_chunk_size(*old(self)) <= usize::MAX,
        ensures
            final(self).wf(),
            Self::pushed(*old(self), *final(self), seq![value]),
            old(self).last_chunk().spec_len() < old(self).last_chunk().spec_capacity() ==> {
                &&& capacities(final(self).chunks()) == capacities(old(self).chunks())
                &&& final(self).start_position() == old(self).start_position()
            },
            old(self).last_chunk().spec_len() == old(self).last_chunk().spec_capacity() ==>
                exists|mid: Self| #![trigger Self::new_chunk_cleaned(*old(self), mid)]
                    mid.wf() && Self::new_chunk_cleaned(*old(self), mid)
                    && capacities(final(self).chunks()) == capacities(mid.chunks()).push(Self::next_chunk_size(mid)),
            final(self).chunk_id_counter() <= old(self).chunk_id_counter() + 1,
            final(self).spec_total_capacity() <= old(self).spec_total_capacity() + S::MAX_CHUNK_SIZE,
            Self::push_step(*old(self), *final(self), value),
            final(self).spec_total_capacity() - spare_room(*final(self))
                <= old(self).spec_total_capacity() - spare_room(*old(self)) + 1,
            old(self).last_chunk().spec_len() < old(self).last_chunk().spec_capacity()
                ==> Self::next_chunk_size(*final(self)) == Self::next_chunk_size(*old(self)),
            old(self).last_chunk().spec_len() == old(self).last_chunk().spec_capacity() ==> {
                &&& final(self).last_chunk().spec_capacity() <= Self::next_chunk_size(*old(self))
                &&& final(self).last_chunk().spec_len() == 1
                &&& S::CLEANUP == CleanupMode::OnNewChunk ==>
                        final(self).chunks().len() == 2 || occupancy(final(self).readers(), final(self).chunks()[0].spec_id()) > 0
                &&& S::CLEANUP != CleanupMode::OnNewChunk ==> final(self).chunks().len() == old(self).chunks().len() + 1
            },
    {
        let ghost old_self = *self;
        let n = self.list.chunks.len();
        let len = self.list.chunks[n - 1].chunk_state().len();
        proof { self.chunks()[n - 1].lemma_wf(); }
        if len as usize == self.list.chunks[n - 1].capacity() {
            self.add_chunk();
        }
        let ghost mid = *self;
        let m = self.list.chunks.len();
        proof { self.chunks()[m - 1].lemma_wf(); }
        self.list.chunks[m - 1].push_unchecked(value);
        proof {
            let a = mid.chunks();
            let b = self.chunks();
            assert(b.len() == a.len());
            assert(forall|k: int| 0 <= k < a.len() - 1 ==> b[k] == a[k]);
            assert(self.last_chunk().spec_items() == mid.last_chunk().spec_items() + seq![value]);
            assert(self.last_chunk().spec_id() == mid.last_chunk().spec_id());
            assert(self.last_chunk().spec_state().spec_epoch() == mid.last_chunk().spec_state().spec_epoch());
            Self::lemma_extended_last_wf(mid, *self, seq![value]);
            Self::lemma_push_last(mid, *self, seq![value]);
            if len as usize == old_self.last_chunk().spec_capacity() {
                let mid2 = choose|mid2: Self| #![trigger Self::new_chunk_cleaned(old_self, mid2)]
                    mid2.wf() && Self::new_chunk_cleaned(old_self, mid2)
                    && Self::appended_chunk(mid2, mid, Self::next_chunk_size(mid2));
                Self::lemma_grown(old_self, mid2, mid, *self, seq![value]);
                if S::CLEANUP == CleanupMode::OnNewChunk {
                    Self::lemma_cleaned(old_self, mid2);
                }
                assert(Self::push_step(old_self, *self, value));
                assert(mid.last_chunk().spec_items() == Seq::<T>::empty());
                crate::laws::law_push_into_new_chunk(old_self, *self, value);
            }
        }
    }

    /// Appends `values`, in order, at the end of the queue: the queue ends as the same pushes, one
    /// value after another, leave it.
    pub fn extend(&mut self, values: Vec<T>)
        requires
            old(self).wf(),
            old(self).chunk_id_counter() + values@.len() < usize::MAX,
            old(self).spec_total_capacity() + 3 * values@.len() + Self::next_chunk_size(*old(self)) <= usize::MAX,
        ensures
            final(self).wf(),
            exists|states: Seq<Self>| #![trigger Self::push_steps(states, values@)]
                Self::push_steps(states, values@) && states[0] == *old(self)
                && states[values@.len() as int] == *final(self),
            Self::pushed(*old(self), *final(self), values@),
            final(self).chunk_id_counter() <= old(self).chunk_id_counter() + values@.len(),
            final(self).spec_total_capacity() <= old(self).spec_total_capacity() + values@.len() * S::MAX_CHUNK_SIZE,
            final(self).spec_total_capacity() <= old(self).spec_total_capacity() + values@.len() + S::MAX_CHUNK_SIZE,
    {
        let ghost orig = values@;
        let mut rest = values;
        let mut iter: VecDeque<T> = VecDeque::new();
        while rest.len() > 0
            invariant
                rest@ + iter@ == orig,
                orig == values@,
            decreases rest@.len(),
        {
            match rest.pop() {
                Some(v) => {
                    iter.push_front(v);
                },
                None => {},
            }
            proof {
                assert(rest@ + iter@ =~= orig);
            }
        }
        let ghost old_self = *self;
        let ghost max = S::MAX_CHUNK_SIZE as int;
        let ghost mut states: Seq<Self> = seq![*self];
        proof {
            assert(iter@ =~= orig);
            Self::lemma_pushed_nothing(*self);
            assert(orig.subrange(0, 0) =~= Seq::<T>::empty());
            assert(old_self.chunks()[old_self.chunks().len() - 1].wf());
            old_self.chunks()[old_self.chunks().len() - 1].lemma_wf();
        }
        while iter.len() > 0
            invariant
                self.wf(),
                old_self.wf(),
                old_self == *old(self),
                orig == values@,
                iter@.len() <= orig.len(),
                iter@ == orig.subrange(orig.len() - iter@.len(), orig.len() as int),
                Self::pushed(old_self, *self, orig.subrange(0, orig.len() - iter@.len())),
                Self::push_steps(states, orig.subrange(0, orig.len() - iter@.len())),
                states[0] == old_self,
                states[orig.len() - iter@.len()] == *self,
                self.chunk_id_counter() + iter@.len() <= old_self.chunk_id_counter() + orig.len(),
                old_self.chunk_id_counter() + orig.len() < usize::MAX,
                self.spec_total_capacity() + iter@.len() * max <= old_self.spec_total_capacity() + orig.len() * max,
                self.spec_total_capacity() - spare_room(*self)
                    <= old_self.spec_total_capacity() - spare_room(old_self) + (orig.len() - iter@.len()),
                0 <= spare_room(old_self),
                Self::next_chunk_size(*self)
                    <= Self::next_chunk_size(old_self) + 2 * (orig.len() - iter@.len()) + 2 * spare_room(*self),
                old_self.spec_total_capacity() + 3 * orig.len() + Self::next_chunk_size(old_self) <= usize::MAX,
                max == S::MAX_CHUNK_SIZE,
            decreases iter@.len(),
        {
            let ghost before = *self;
            let ghost before_iter = iter@;
            let ghost done = orig.subrange(0, orig.len() - before_iter.len());
            proof {
                assert(states.len() == done.len() + 1);
                assert(states[done.len() as int] == before);
                let last = self.chunks().len() - 1;
                assert(self.chunks()[last].wf());
                self.chunks()[last].lemma_wf();
                assert(self.last_chunk().spec_capacity() <= max);
                Self::lemma_next_chunk_size_bound(*self);
            }
            match iter.pop_front() {
                Some(value) => {
                    proof {
                        assert(before_iter.len() * max == iter@.len() * max + max) by (nonlinear_arith)
                            requires before_iter.len() == iter@.len() + 1;
                        assert(value == orig[orig.len() - before_iter.len()]);
                    }
                    self.push(value);
                    proof {
                        Self::lemma_next_chunk_size_bound(*self);
                        let last = self.chunks().len() - 1;
                        assert(self.chunks()[last].wf());
                        self.chunks()[last].lemma_wf();
                        Self::lemma_pushed_trans(old_self, before, *self, done, seq![value]);
                        assert(done + seq![value] =~= orig.subrange(0, orig.len() - iter@.len()));
                        assert(iter@ =~= orig.subrange(orig.len() - iter@.len(), orig.len() as int));
                        let vs2 = orig.subrange(0, orig.len() - iter@.len());
                        assert(vs2 =~= done.push(value));
                        Self::lemma_push_steps_push(states, done, *self, value);
                        states = states.push(*self);
                    }
                },
                None => {},
            }
        }
        proof {
            assert(orig.subrange(0, orig.len() as int) =~= orig);
            assert(self.chunks()[self.chunks().len() - 1].wf());
            self.chunks()[self.chunks().len() - 1].lemma_wf();
            assert(Self::push_steps(states, values@));
        }
    }

    /// Pushing nothing.
    pub proof fn lemma_pushed_nothing(q: Self)
        requires
            q.wf(),
        ensures
            Self::pushed(q, q, Seq::<T>::empty()),
    {
        assert forall|c: Cursor| #[trigger] valid_cursor(q.chunks(), c) && has_chunk(q.chunks(), c.chunk) implies {
            &&& valid_cursor(q.chunks(), c)
            &&& items_from(q.chunks(), c) == items_from(q.chunks(), c) + Seq::<T>::empty()
        } by {
            assert(items_from(q.chunks(), c) =~= items_from(q.chunks(), c) + Seq::<T>::empty());
        }
        assert forall|r: int| #[trigger] q.readers().contains_key(r) implies
            Self::unread(q, q.readers()[r]) == Self::unread(q, q.readers()[r]) + Seq::<T>::empty() by {
            assert(Self::unread(q, q.readers()[r]) =~= Self::unread(q, q.readers()[r]) + Seq::<T>::empty());
        }
    }

    /// Adds a chunk of capacity `new_capacity`; all next writes go to it.
    pub fn change_chunk_capacity(&mut self, new_capacity: u32)
        requires
            old(self).wf(),
            S::MIN_CHUNK_SIZE <= new_capacity <= S::MAX_CHUNK_SIZE,
            old(self).chunk_id_counter() < usize::MAX,
            old(self).spec_total_capacity() + new_capacity <= usize::MAX,
        ensures
            final(self).wf(),
            exists|mid: Self| #![trigger Self::new_chunk_cleaned(*old(self), mid)]
                mid.wf() && Self::new_chunk_cleaned(*old(self), mid)
                && Self::appended_chunk(mid, *final(self), new_capacity as usize),
            final(self).chunk_id_counter() == old(self).chunk_id_counter() + 1,
            final(self).spec_total_capacity() <= old(self).spec_total_capacity() + new_capacity,
            forall|r: int| #[trigger] final(self).readers().contains_key(r) ==>
                Self::unread_kept(*old(self), *final(self), r),
    {
        self.on_new_chunk_cleanup();
        let ghost mid = *self;
        proof {
            if S::CLEANUP == CleanupMode::OnNewChunk {
                Self::lemma_cleaned(*old(self), *self);
            }
        }
        self.add_chunk_sized(new_capacity as usize);
        proof { Self::lemma_new_chunk_unread(*old(self), mid, *self, new_capacity as usize); }
    }

    /// `new` is `old` with start position `c` and the next epoch in every chunk.
    pub open spec fn restarted(old: Self, new: Self, c: Cursor) -> bool {
        let n = old.chunks().len();
        &&& new.chunks().len() == n
        &&& forall|k: int| 0 <= k < n ==> {
                &&& (#[trigger] new.chunks()[k]).spec_items() == old.chunks()[k].spec_items()
                &&& new.chunks()[k].spec_id() == old.chunks()[k].spec_id()
                &&& new.chunks()[k].spec_capacity() == old.chunks()[k].spec_capacity()
                &&& new.chunks()[k].spec_entered() == old.chunks()[k].spec_entered()
                &&& new.chunks()[k].spec_read() == old.chunks()[k].spec_read()
            }
        &&& new.epoch() == next_epoch(old.epoch())
        &&& new.start_position() == Some(c)
        &&& new.readers() == old.readers()
        &&& new.next_reader_id() == old.next_reader_id()
        &&& new.penult_chunk_size() == old.penult_chunk_size()
        &&& new.chunk_id_counter() == old.chunk_id_counter()
        &&& new.readers_count() == old.readers_count()
    }

    /// Moving the start position changes what no cursor reads.
    pub proof fn lemma_restarted_items(old: Self, new: Self, c: Cursor)
        requires
            old.wf(),
            new.wf(),
            Self::restarted(old, new, c),
        ensures
            forall|x: Cursor| valid_cursor(old.chunks(), x) == valid_cursor(new.chunks(), x),
            forall|x: Cursor| #[trigger] items_from(new.chunks(), x) == items_from(old.chunks(), x),
    {
        let a = old.chunks();
        let b = new.chunks();
        let n = a.len();
        assert forall|x: Cursor| valid_cursor(a, x) == valid_cursor(b, x) && items_from(b, x) == items_from(a, x) by {
            if exists|k: int| 0 <= k < n && #[trigger] a[k].spec_id() == x.chunk {
                let k = chunk_index(a, x.chunk);
                lemma_chunk_index(b, k);
                let ta = a.subrange(k + 1, n as int);
                let tb = b.subrange(k + 1, n as int);
                assert forall|i: int| 0 <= i < ta.len() implies #[trigger] ta[i].spec_items() == tb[i].spec_items() by {
                    assert(ta[i] == a[k + 1 + i]);
                    assert(tb[i] == b[k + 1 + i]);
                }
                lemma_concat_items_same(ta, tb);
            } else {
                assert(!exists|k: int| 0 <= k < n && #[trigger] b[k].spec_id() == x.chunk) by {
                    if exists|k: int| 0 <= k < n && #[trigger] b[k].spec_id() == x.chunk {
                        let k = choose|k: int| 0 <= k < n && #[trigger] b[k].spec_id() == x.chunk;
                        assert(a[k].spec_id() == x.chunk);
                    }
                }
            }
        }
    }

    /// Moves the start position to `new_start_position` and marks the move with the next epoch in
    /// every chunk, so that readers notice it.
    fn set_start_position(&mut self, new_start_position: Cursor)
        requires
            old(self).wf(),
            valid_cursor(old(self).chunks(), new_start_position),
        ensures
            final(self).wf(),
            Self::restarted(*old(self), *final(self), new_start_position),
    {
        let ghost a = self.chunks();
        self.start_position = Some(new_start_position);
        let new_epoch = self.list.chunks[0].chunk_state().epoch().increment();
        let n = self.list.chunks.len();
        let ghost before = *self;
        let mut k: usize = 0;
        while k < n
            invariant
                k <= n,
                self.start_position == before.start_position,
                self.readers == before.readers,
                self.next_reader_id == before.next_reader_id,
                self.list.chunk_id_counter == before.list.chunk_id_counter,
                self.list.total_capacity == before.list.total_capacity,
                self.list.readers_count == before.list.readers_count,
                self.list.penult_chunk_size == before.list.penult_chunk_size,
                n == a.len(),
                self.list.chunks@.len() == n,
                new_epoch.wf(),
                new_epoch.value() == next_epoch(a[0].spec_state().spec_epoch()),
                forall|i: int| 0 <= i < n ==> {
                    &&& (#[trigger] self.list.chunks@[i]).spec_items() == a[i].spec_items()
                    &&& self.list.chunks@[i].spec_id() == a[i].spec_id()
                    &&& self.list.chunks@[i].spec_capacity() == a[i].spec_capacity()
                    &&& self.list.chunks@[i].spec_entered() == a[i].spec_entered()
                    &&& self.list.chunks@[i].spec_read() == a[i].spec_read()
                    &&& self.list.chunks@[i].spec_state().spec_len() == a[i].spec_state().spec_len()
                    &&& self.list.chunks@[i].spec_state().spec_has_next() == a[i].spec_state().spec_has_next()
                    &&& (a[i].wf() ==> self.list.chunks@[i].wf())
                    &&& self.list.chunks@[i].spec_state().spec_epoch() == if i < k {
                            new_epoch.value()
                        } else {
                            a[i].spec_state().spec_epoch()
                        }
                },
            decreases n - k,
        {
            let ghost prev = self.list.chunks@;
            self.list.chunks[k].set_epoch(new_epoch);
            proof {
                assert forall|i: int| 0 <= i < n && i != k implies self.list.chunks@[i] == prev[i] by {}
            }
            k += 1;
        }
        proof {
            let b = self.chunks();
            lemma_same_shape(a, b);
            assert forall|i: int| #![trigger b[i]] 0 <= i < n implies b[i].wf()
                && b[i].spec_state().spec_has_next() == (i < n - 1)
                && b[i].spec_state().spec_epoch() == b[0].spec_state().spec_epoch()
                && S::MIN_CHUNK_SIZE <= b[i].spec_capacity() <= S::MAX_CHUNK_SIZE
                && counter_diff(b[i].spec_entered(), b[i].spec_read()) == occupancy(self.readers(), b[i].spec_id()) by {
                assert(a[i].wf());
            }
            assert(self.chunks_wf());
        }
    }

    /// Frees, besides the leading chunks that cleanup frees, every chunk between the first one and
    /// the start position that no reader occupies.
    fn force_cleanup_impl(&mut self)
        requires
            old(self).wf(),
        ensures
            final(self).wf(),
            exists|mid: Self| #![trigger Self::cleaned(*old(self), mid)]
                mid.wf() && Self::cleaned(*old(self), mid) && Self::force_cleaned(mid, *final(self)),
            final(self).spec_total_capacity() <= old(self).spec_total_capacity(),
    {
        self.cleanup_impl();
        let ghost mid = *self;
        proof { Self::lemma_cleaned(*old(self), mid); }
        let terminal = match self.start_position {
            None => {
                proof { assert(Self::force_cleaned(mid, *self)); }
                return;
            },
            Some(c) => c.chunk,
        };
        if self.list.chunks[0].id() == terminal {
            proof {
                assert(mid.chunks()[0].spec_id() == terminal);
                lemma_chunk_index(mid.chunks(), 0);
                assert(Self::force_cleaned(mid, *self));
            }
            return;
        }
        let ghost m = mid.chunks();
        let ghost t = chunk_index(m, terminal);
        proof {
            assert(m[t].spec_id() == terminal);
            assert(t != 0);
        }
        let mut k: usize = 1;
        let ghost mut j: int = 1;
        while self.list.chunks[k].id() != terminal
            invariant
                self.wf(),
                mid.wf(),
                1 <= j <= t < m.len(),
                m[t].spec_id() == terminal,
                self.start_position() == mid.start_position(),
                mid.start_position() matches Some(c) && c.chunk == terminal,
                self.chunks() == m.subrange(0, 1) + m.subrange(1, j).filter(occupied_pred())
                    + m.subrange(j, m.len() as int),
                k == 1 + m.subrange(1, j).filter(occupied_pred()).len(),
                self.readers() == mid.readers(),
                self.next_reader_id() == mid.next_reader_id(),
                self.penult_chunk_size() == mid.penult_chunk_size(),
                self.chunk_id_counter() == mid.chunk_id_counter(),
                self.readers_count() == mid.readers_count(),
                self.spec_total_capacity() <= mid.spec_total_capacity(),
            decreases t - j,
        {
            let ghost f = m.subrange(1, j).filter(occupied_pred());
            proof {
                assert(self.chunks()[k as int] == m[j]);
                if j == t {
                    assert(false);
                }
                assert(m.subrange(1, j + 1).drop_last() =~= m.subrange(1, j));
                assert(m.subrange(1, j + 1).last() == m[j]);
                assert(self.chunks()[k + (t - j)] == m[t]);
                assert(k + 1 < self.chunks().len());
            }
            let entered = self.list.chunks[k].readers_entered();
            let read = self.list.chunks[k].read_completely_times();
            let ghost s1 = m.subrange(1, j + 1);
            proof {
                assert(s1 =~= m.subrange(1, j).push(m[j]));
                m.subrange(1, j).lemma_filter_push(m[j], occupied_pred());
            }
            if entered != read {
                let len = self.list.chunks.len();
                assert(k + 1 < len);
                k += 1;
                proof {
                    assert(occupied(m[j]));
                    assert(occupied_pred::<T>()(m[j]));
                    assert(m.subrange(1, j + 1).filter(occupied_pred()) == f.push(m[j]));
                    j = j + 1;
                    assert(self.chunks() =~= m.subrange(0, 1) + m.subrange(1, j).filter(occupied_pred())
                        + m.subrange(j, m.len() as int));
                }
            } else {
                proof {
                    assert(self.chunks()[self.chunks().len() - 1] == m[m.len() - 1]);
                    assert(k < self.chunks().len() - 1) by {
                        assert(self.chunks()[k + (t - j)] == m[t]);
                    }
                }
                self.free_chunk(k);
                proof {
                    assert(!occupied_pred::<T>()(m[j]));
                    assert(m.subrange(1, j + 1).filter(occupied_pred()) == f);
                    assert(self.start_position() == mid.start_position()) by {
                        assert(m[j].spec_id() < m[t].spec_id());
                    }
                    j = j + 1;
                    assert(self.chunks() =~= m.subrange(0, 1) + m.subrange(1, j).filter(occupied_pred())
                        + m.subrange(j, m.len() as int));
                }
            }
        }
        proof {
            assert(self.chunks()[k as int] == m[j]);
            if j < t {
                assert(m[j].spec_id() < m[t].spec_id());
            }
            assert(Self::force_cleaned(mid, *self));
        }
    }

    /// `new` is `old` without the chunks strictly between its first chunk and the chunk of the
    /// start position that no reader occupies.
    pub open spec fn force_cleaned(old: Self, new: Self) -> bool {
        let m = old.chunks();
        &&& new.start_position() == old.start_position()
        &&& new.readers() == old.readers()
        &&& new.next_reader_id() == old.next_reader_id()
        &&& new.penult_chunk_size() == old.penult_chunk_size()
        &&& new.chunk_id_counter() == old.chunk_id_counter()
        &&& new.readers_count() == old.readers_count()
        &&& match old.start_position() {
                None => new.chunks() == m,
                Some(c) => {
                    let t = chunk_index(m, c.chunk);
                    if t == 0 {
                        new.chunks() == m
                    } else {
                        new.chunks() == m.subrange(0, 1) + m.subrange(1, t).filter(occupied_pred())
                            + m.subrange(t, m.len() as int)
                    }
                },
            }
    }

    /// `new` is `old` with its start position moved to `c` and then force-cleaned.
    pub open spec fn moved_start(old: Self, new: Self, c: Cursor) -> bool {
        exists|m1: Self, m2: Self|
            #![trigger Self::restarted(old, m1, c), Self::cleaned(m1, m2)]
            m1.wf() && m2.wf() && Self::restarted(old, m1, c) && Self::cleaned(m1, m2) && Self::force_cleaned(m2, new)
    }

    /// Moves the start position to `c` and frees what no reader needs any more.
    fn move_start(&mut self, c: Cursor)
        requires
            old(self).wf(),
            valid_cursor(old(self).chunks(), c),
        ensures
            final(self).wf(),
            Self::moved_start(*old(self), *final(self), c),
            final(self).spec_total_capacity() <= old(self).spec_total_capacity(),
            final(self).chunk_id_counter() == old(self).chunk_id_counter(),
    {
        self.set_start_position(c);
        let ghost m1 = *self;
        proof {
            lemma_same_shape(old(self).chunks(), m1.chunks());
        }
        self.force_cleanup_impl();
        proof {
            let m2 = choose|mid: Self| #![trigger Self::cleaned(m1, mid)]
                mid.wf() && Self::cleaned(m1, mid) && Self::force_cleaned(mid, *self);
            assert(Self::restarted(*old(self), m1, c) && Self::cleaned(m1, m2));
        }
    }

    /// "Lazily moves" all readers to the end of the queue: from the readers' side this is a
    /// conventional `clear`. Immediately frees all chunks that no reader occupies; readers move,
    /// and free the chunks they occupied, when they next read.
    pub fn clear(&mut self)
        requires
            old(self).wf(),
        ensures
            final(self).wf(),
            Self::moved_start(*old(self), *final(self), old(self).end()),
            final(self).spec_total_capacity() <= old(self).spec_total_capacity(),
            final(self).chunk_id_counter() == old(self).chunk_id_counter(),
            forall|k: int| 0 <= k < final(self).chunks().len()
                && (#[trigger] final(self).chunks()[k]).spec_id() < old(self).end().chunk
                ==> occupancy(final(self).readers(), final(self).chunks()[k].spec_id()) > 0,
    {
        let n = self.list.chunks.len();
        proof { self.chunks()[n - 1].lemma_wf(); Self::lemma_end_reads_nothing(*self); }
        let last_chunk_len = self.list.chunks[n - 1].chunk_state().len() as usize;
        let id = self.list.chunks[n - 1].id();
        self.move_start(Cursor { chunk: id, index: last_chunk_len });
        proof {
            crate::laws::law_moving_the_start_frees_every_unoccupied_chunk_before_it(*old(self), *self, old(self).end());
        }
    }

    /// The number of items in the chunks at positions `i..` of `chunks`.
    pub open spec fn suffix_len(chunks: Seq<DynamicChunk<T>>, i: int) -> nat {
        concat_items(chunks.subrange(i, chunks.len() as int)).len()
    }

    /// The start position that `truncate_front(len)` picks: in the last chunk `i` from whose start
    /// on at least `len` items remain, `len` items before the end of the queue.
    pub open spec fn truncate_position(chunks: Seq<DynamicChunk<T>>, len: nat, i: int) -> bool {
        &&& 0 <= i < chunks.len()
        &&& Self::suffix_len(chunks, i) >= len
        &&& forall|j: int| i < j < chunks.len() ==> #[trigger] Self::suffix_len(chunks, j) < len
    }

    /// Splits the items from position `i` on into those of chunk `i` and the rest.
    pub proof fn lemma_suffix_split(chunks: Seq<DynamicChunk<T>>, i: int)
        requires
            0 <= i < chunks.len(),
        ensures
            concat_items(chunks.subrange(i, chunks.len() as int))
                == chunks[i].spec_items() + concat_items(chunks.subrange(i + 1, chunks.len() as int)),
            Self::suffix_len(chunks, i) == chunks[i].spec_len() + Self::suffix_len(chunks, i + 1),
    {
        let n = chunks.len() as int;
        let one = chunks.subrange(i, i + 1);
        lemma_concat_items_append(one, chunks.subrange(i + 1, n));
        assert(one + chunks.subrange(i + 1, n) =~= chunks.subrange(i, n));
        assert(one.drop_last() =~= Seq::<DynamicChunk<T>>::empty());
        assert(concat_items(Seq::<DynamicChunk<T>>::empty()) == Seq::<T>::empty());
        assert(concat_items(one) =~= chunks[i].spec_items());
    }

    /// The items of the chunks bound the number of items by the capacity.
    pub proof fn lemma_items_within_capacity(chunks: Seq<DynamicChunk<T>>)
        requires
            forall|k: int| 0 <= k < chunks.len() ==> #[trigger] chunks[k].wf(),
        ensures
            concat_items(chunks).len() <= sum_capacity(chunks),
        decreases chunks.len(),
    {
        if chunks.len() > 0 {
            assert forall|k: int| 0 <= k < chunks.drop_last().len() implies #[trigger] chunks.drop_last()[k].wf() by {
                assert(chunks.drop_last()[k] == chunks[k]);
            }
            Self::lemma_items_within_capacity(chunks.drop_last());
            chunks.last().lemma_wf();
        }
    }

    /// "Lazily moves" all readers to the `len`-th item from the end of the queue: from the readers'
    /// side this is a `truncate` from the front. When the queue holds fewer than `len` items,
    /// nothing changes. Immediately frees chunks that no reader occupies.
    #[verifier::rlimit(30)]
    pub fn truncate_front(&mut self, len: usize)
        requires
            old(self).wf(),
            old(self).chunks().len() <= 128,
        ensures
            final(self).wf(),
            concat_items(old(self).chunks()).len() < len ==> *final(self) == *old(self),
            concat_items(old(self).chunks()).len() >= len ==> exists|i: int|
                #[trigger] Self::truncate_position(old(self).chunks(), len as nat, i)
                && Self::moved_start(*old(self), *final(self), Cursor {
                    chunk: old(self).chunks()[i].spec_id(),
                    index: (Self::suffix_len(old(self).chunks(), i) - len) as usize,
                })
                && forall|k: int| 0 <= k < final(self).chunks().len()
                    && (#[trigger] final(self).chunks()[k]).spec_id() < old(self).chunks()[i].spec_id()
                    ==> occupancy(final(self).readers(), final(self).chunks()[k].spec_id()) > 0,
            final(self).spec_total_capacity() <= old(self).spec_total_capacity(),
            final(self).chunk_id_counter() == old(self).chunk_id_counter(),
    {
        let ghost a = self.chunks();
        let n = self.list.chunks.len();
        let mut total_len: usize = 0;
        let mut i: usize = n;
        proof {
            assert(a.subrange(n as int, n as int) =~= Seq::<DynamicChunk<T>>::empty());
            assert(concat_items(Seq::<DynamicChunk<T>>::empty()) == Seq::<T>::empty());
            Self::lemma_items_within_capacity(a);
        }
        while i > 0
            invariant
                self.wf(),
                *self == *old(self),
                a == self.chunks(),
                n == a.len(),
                i <= n,
                total_len == Self::suffix_len(a, i as int),
                concat_items(a).len() <= self.spec_total_capacity(),
                forall|j: int| i <= j < n ==> #[trigger] Self::suffix_len(a, j) < len,
            decreases i,
        {
            i = i - 1;
            proof {
                Self::lemma_suffix_split(a, i as int);
                lemma_concat_items_append(a.subrange(0, i as int), a.subrange(i as int, n as int));
                assert(a.subrange(0, i as int) + a.subrange(i as int, n as int) =~= a);
                a[i as int].lemma_wf();
            }
            let chunk_len = self.list.chunks[i].chunk_state().len() as usize;
            total_len = total_len + chunk_len;
            if total_len >= len {
                let id = self.list.chunks[i].id();
                let c = Cursor { chunk: id, index: total_len - len };
                proof {
                    if i + 1 < n {
                        assert(Self::suffix_len(a, i + 1) < len);
                    } else {
                        assert(a.subrange(n as int, n as int) =~= Seq::<DynamicChunk<T>>::empty());
                        assert(concat_items(Seq::<DynamicChunk<T>>::empty()) == Seq::<T>::empty());
                    }
                    lemma_chunk_index(a, i as int);
                    assert(Self::truncate_position(a, len as nat, i as int));
                }
                self.move_start(c);
                proof {
                    crate::laws::law_moving_the_start_frees_every_unoccupied_chunk_before_it(*old(self), *self, c);
                }
                return;
            }
        }
        proof {
            assert(a.subrange(0, n as int) =~= a);
            assert(Self::suffix_len(a, 0) < len || n == 0);
        }
    }

    /// `r` is subscribed to this queue.
    pub open spec fn has_reader(&self, r: &EventReader<T, S>) -> bool {
        &&& self.readers().contains_key(r.reader_id())
        &&& self.readers()[r.reader_id()] == r.view()
        &&& r.epoch_wf()
    }

    /// Where reader `rv` reads from: the start position if the queue moved it since the reader
    /// last looked and the reader stands before it, otherwise where the reader stands.
    pub open spec fn effective_position(q: Self, rv: ReaderView) -> Cursor {
        if rv.epoch != q.epoch() {
            match q.start_position() {
                Some(s) => if cursor_lt(rv.position, s) { s } else { rv.position },
                None => rv.position,
            }
        } else {
            rv.position
        }
    }

    /// What reader `rv` has left to read: the items from its effective position on.
    pub open spec fn unread(q: Self, rv: ReaderView) -> Seq<T> {
        items_from(q.chunks(), Self::effective_position(q, rv))
    }

    /// Reader `r` is subscribed to both queues and has the same items left to read in each.
    pub open spec fn unread_kept(old: Self, new: Self, r: int) -> bool {
        &&& old.readers().contains_key(r)
        &&& new.readers().contains_key(r)
        &&& Self::unread(new, new.readers()[r]) == Self::unread(old, old.readers()[r])
    }

    /// The position of the chunk with id `id`.
    fn find_chunk(&self, id: usize) -> (r: Option<usize>)
        requires
            self.wf(),
        ensures
            has_chunk(self.chunks(), id) <==> r is Some,
            r matches Some(k) ==> k < self.chunks().len() && self.chunks()[k as int].spec_id() == id
                && chunk_index(self.chunks(), id) == k,
    {
        let n = self.list.chunks.len();
        let mut k: usize = 0;
        while k < n
            invariant
                self.wf(),
                n == self.chunks().len(),
                k <= n,
                forall|j: int| 0 <= j < k ==> #[trigger] self.chunks()[j].spec_id() != id,
            decreases n - k,
        {
            if self.list.chunks[k].id() == id {
                proof { lemma_chunk_index(self.chunks(), k as int); }
                return Some(k);
            }
            k += 1;
        }
        None
    }

    /// A counter difference one more than `d`, after one more entry.
    pub proof fn lemma_diff_enter(e: usize, r: usize)
        requires
            counter_diff(e, r) < usize::MAX,
        ensures
            counter_diff(wrapped_next(e), r) == counter_diff(e, r) + 1,
    {
    }

    /// A counter difference one less, after one more completed read.
    pub proof fn lemma_diff_read(e: usize, r: usize)
        requires
            counter_diff(e, r) > 0,
        ensures
            counter_diff(e, wrapped_next(r)) == counter_diff(e, r) - 1,
    {
    }

    /// One more entry and one more completed read leave the difference.
    pub proof fn lemma_diff_both(e: usize, r: usize)
        ensures
            counter_diff(wrapped_next(e), wrapped_next(r)) == counter_diff(e, r),
    {
    }

    /// Subscribes a new reader. It will receive events pushed from now on, not those pushed
    /// before.
    pub fn subscribe(&mut self) -> (reader: EventReader<T, S>)
        requires
            old(self).wf(),
            old(self).readers_count() < u32::MAX,
        ensures
            final(self).wf(),
            final(self).has_reader(&reader),
            !old(self).readers().contains_key(reader.reader_id()),
            final(self).readers() == old(self).readers().insert(reader.reader_id(), reader.view()),
            reader.view().position == old(self).end(),
            reader.view().epoch == old(self).epoch(),
            items_from(final(self).chunks(), reader.view().position) == Seq::<T>::empty(),
            Self::same_items(*old(self), *final(self)),
            final(self).start_position() == old(self).start_position(),
            capacities(final(self).chunks()) == capacities(old(self).chunks()),
            final(self).spec_total_capacity() == old(self).spec_total_capacity(),
            Self::counted(*old(self), *final(self), set![old(self).chunks().len() - 1], Set::empty()),
            forall|r: int| #[trigger] old(self).readers().contains_key(r) ==>
                Self::unread_kept(*old(self), *final(self), r),
    {
        let ghost old_self = *self;
        let ghost a = self.chunks();
        let n = self.list.chunks.len();
        let chunk_state = self.list.chunks[n - 1].chunk_state();
        let id = self.list.chunks[n - 1].id();
        proof { a[n - 1].lemma_wf(); Self::lemma_end_reads_nothing(old_self); }
        self.list.chunks[n - 1].mark_entered();
        self.list.readers_count = self.list.readers_count + 1;
        let reader = EventReader {
            position: Cursor { chunk: id, index: chunk_state.len() as usize },
            start_position_epoch: chunk_state.epoch(),
            id: Ghost(self.next_reader_id@),
            _marker: PhantomData,
        };
        proof {
            let rid = self.next_reader_id@;
            let old_readers = self.readers@;
            assert(!old_readers.contains_key(rid));
            self.readers@ = old_readers.insert(rid, reader.view());
            self.next_reader_id@ = rid + 1;
            let b = self.chunks();
            assert forall|k: int| 0 <= k < n implies
                counter_diff(b[k].spec_entered(), b[k].spec_read()) == occupancy(self.readers(), #[trigger] b[k].spec_id()) by {
                crate::cursor::lemma_occupancy_insert(old_readers, rid, reader.view(), b[k].spec_id());
                if k == n - 1 {
                    crate::cursor::lemma_occupancy_bound(old_readers, b[k].spec_id());
                    Self::lemma_diff_enter(a[k].spec_entered(), a[k].spec_read());
                } else {
                    assert(a[k].spec_id() < a[n - 1].spec_id());
                }
            }
            assert(self.readers_count() == self.readers().dom().len()) by {
                assert(self.readers().dom() =~= old_readers.dom().insert(rid));
            }
            lemma_same_shape(a, b);
            assert forall|k: int| #![trigger b[k]] 0 <= k < n implies b[k].wf()
                && b[k].spec_state().spec_has_next() == (k < n - 1)
                && b[k].spec_state().spec_epoch() == b[0].spec_state().spec_epoch()
                && S::MIN_CHUNK_SIZE <= b[k].spec_capacity() <= S::MAX_CHUNK_SIZE by {
                assert(a[k].wf());
            }
            assert(capacities(b) =~= capacities(a));
            Self::lemma_same_items(old_self, *self);
            assert forall|r: int| #[trigger] old_self.readers().contains_key(r) implies
                Self::unread_kept(old_self, *self, r) by {
                assert(self.readers().contains_key(r));
            }
        }
        reader
    }

    /// `new` has the same chunks as `old`, with the same items: only counters may differ.
    pub open spec fn same_items(old: Self, new: Self) -> bool {
        let n = old.chunks().len();
        &&& new.chunks().len() == n
        &&& forall|k: int| 0 <= k < n ==> {
                &&& (#[trigger] new.chunks()[k]).spec_items() == old.chunks()[k].spec_items()
                &&& new.chunks()[k].spec_id() == old.chunks()[k].spec_id()
                &&& new.chunks()[k].spec_capacity() == old.chunks()[k].spec_capacity()
            }
        &&& new.epoch() == old.epoch()
        &&& forall|x: Cursor| valid_cursor(old.chunks(), x) == valid_cursor(new.chunks(), x)
        &&& forall|x: Cursor| #[trigger] items_from(new.chunks(), x) == items_from(old.chunks(), x)
    }

    /// Chunks with the same ids and items give every cursor the same items.
    pub proof fn lemma_same_items(old: Self, new: Self)
        requires
            old.wf(),
            new.wf(),
            new.chunks().len() == old.chunks().len(),
            forall|k: int| 0 <= k < old.chunks().len() ==> {
                &&& (#[trigger] new.chunks()[k]).spec_items() == old.chunks()[k].spec_items()
                &&& new.chunks()[k].spec_id() == old.chunks()[k].spec_id()
                &&& new.chunks()[k].spec_capacity() == old.chunks()[k].spec_capacity()
            },
            new.epoch() == old.epoch(),
        ensures
            Self::same_items(old, new),
    {
        let a = old.chunks();
        let b = new.chunks();
        let n = a.len();
        assert forall|x: Cursor| valid_cursor(a, x) == valid_cursor(b, x) && items_from(b, x) == items_from(a, x) by {
            if exists|k: int| 0 <= k < n && #[trigger] a[k].spec_id() == x.chunk {
                let k = chunk_index(a, x.chunk);
                lemma_chunk_index(b, k);
                let ta = a.subrange(k + 1, n as int);
                let tb = b.subrange(k + 1, n as int);
                assert forall|i: int| 0 <= i < ta.len() implies #[trigger] ta[i].spec_items() == tb[i].spec_items() by {
                    assert(ta[i] == a[k + 1 + i]);
                    assert(tb[i] == b[k + 1 + i]);
                }
                lemma_concat_items_same(ta, tb);
            } else {
                assert(!exists|k: int| 0 <= k < n && #[trigger] b[k].spec_id() == x.chunk) by {
                    if exists|k: int| 0 <= k < n && #[trigger] b[k].spec_id() == x.chunk {
                        let k = choose|k: int| 0 <= k < n && #[trigger] b[k].spec_id() == x.chunk;
                        assert(a[k].spec_id() == x.chunk);
                    }
                }
            }
        }
    }

    /// `new` is `old` with some counters changed and nothing freed.
    pub open spec fn recounted(old: Self, new: Self) -> bool {
        &&& Self::same_items(old, new)
        &&& new.start_position() == old.start_position()
        &&& new.penult_chunk_size() == old.penult_chunk_size()
        &&& new.chunk_id_counter() == old.chunk_id_counter()
    }

    /// `new` is `old` with nothing freed and only these counters changed: the entered counter of
    /// each chunk at a position in `entered`, and the read counter of each chunk at a position in
    /// `read`, each moved on by one.
    pub open spec fn counted(old: Self, new: Self, entered: Set<int>, read: Set<int>) -> bool {
        &&& Self::recounted(old, new)
        &&& forall|k: int| 0 <= k < old.chunks().len() ==> {
                &&& (#[trigger] new.chunks()[k]).spec_entered() == if entered.contains(k) {
                        wrapped_next(old.chunks()[k].spec_entered())
                    } else {
                        old.chunks()[k].spec_entered()
                    }
                &&& new.chunks()[k].spec_read() == if read.contains(k) {
                        wrapped_next(old.chunks()[k].spec_read())
                    } else {
                        old.chunks()[k].spec_read()
                    }
            }
    }

    /// `new` is `old` with the counters of `counted` moved on, and then cleaned.
    pub open spec fn counted_and_cleaned(old: Self, new: Self, entered: Set<int>, read: Set<int>) -> bool {
        exists|mid: Self| #![trigger Self::counted(old, mid, entered, read)]
            mid.wf() && Self::counted(old, mid, entered, read) && Self::cleaned(mid, new)
    }

    /// The chunk positions a move from `from` to the start position `to` enters: that of `to`,
    /// if it moves.
    pub open spec fn jump_entered(q: Self, from: Cursor, to: Cursor) -> Set<int> {
        if to != from { set![chunk_index(q.chunks(), to.chunk)] } else { Set::empty() }
    }

    /// The chunk positions a move from `from` to the start position `to` leaves: that of `from`,
    /// if it moves.
    pub open spec fn jump_read(q: Self, from: Cursor, to: Cursor) -> Set<int> {
        if to != from { set![chunk_index(q.chunks(), from.chunk)] } else { Set::empty() }
    }

    /// The chunk positions a read from `from` to `to` enters: every chunk after that of `from`, up
    /// to that of `to`.
    pub open spec fn read_entered(q: Self, from: Cursor, to: Cursor) -> Set<int> {
        Set::new(|j: int| chunk_index(q.chunks(), from.chunk) < j <= chunk_index(q.chunks(), to.chunk))
    }

    /// The chunk positions a read from `from` to `to` reads to the end: that of `from` and every
    /// chunk after it, up to before that of `to`.
    pub open spec fn read_read(q: Self, from: Cursor, to: Cursor) -> Set<int> {
        Set::new(|j: int| chunk_index(q.chunks(), from.chunk) <= j < chunk_index(q.chunks(), to.chunk))
    }

    /// Counting nothing, then some counters, counts those counters.
    pub proof fn lemma_counted_trans(a: Self, b: Self, c: Self, entered: Set<int>, read: Set<int>)
        requires
            Self::counted(a, b, Set::empty(), Set::empty()),
        ensures
            Self::counted(b, c, entered, read) ==> Self::counted(a, c, entered, read),
            Self::counted_and_cleaned(b, c, entered, read) ==> Self::counted_and_cleaned(a, c, entered, read),
    {
        if Self::counted(b, c, entered, read) {
            Self::lemma_same_items_trans(a, b, c);
        }
        if Self::counted_and_cleaned(b, c, entered, read) {
            let m = choose|m: Self| #![trigger Self::counted(b, m, entered, read)]
                m.wf() && Self::counted(b, m, entered, read) && Self::cleaned(m, c);
            Self::lemma_same_items_trans(a, b, m);
            assert(Self::counted(a, m, entered, read));
        }
    }

    /// A read that takes a reader from `from` to `to` frees nothing: cleanup on chunk read is off,
    /// or the reader stays in its chunk, or the chunk it leaves has been read fewer times than it
    /// was entered, counting this reader, or its read counter wraps to 0.
    pub open spec fn read_keeps_chunks(q: Self, from: Cursor, to: Cursor) -> bool {
        let a = q.chunks();
        let kr = chunk_index(a, from.chunk);
        let ki = chunk_index(a, to.chunk);
        let first_read = wrapped_next(a[kr].spec_read());
        ||| S::CLEANUP != CleanupMode::OnChunkRead
        ||| kr == ki
        ||| first_read == 0
        ||| first_read < a[kr].spec_entered()
    }

    /// A read that takes a reader from `from` to `to` runs cleanup: cleanup on chunk read is on, the
    /// reader leaves its chunk, and that chunk has been read as many times as it was entered,
    /// counting this reader.
    pub open spec fn read_cleans(q: Self, from: Cursor, to: Cursor) -> bool {
        let a = q.chunks();
        let kr = chunk_index(a, from.chunk);
        let ki = chunk_index(a, to.chunk);
        let first_read = wrapped_next(a[kr].spec_read());
        &&& S::CLEANUP == CleanupMode::OnChunkRead
        &&& kr < ki
        &&& first_read != 0
        &&& first_read >= a[kr].spec_entered()
    }

    /// Moving a reader from `from` forward to the start position `to` runs cleanup: cleanup on
    /// chunk read is on, and the chunk it leaves has been read at least as many times as it was
    /// entered, counting this reader both ways.
    pub open spec fn jump_cleans(q: Self, from: Cursor, to: Cursor) -> bool {
        let a = q.chunks();
        let kc = chunk_index(a, from.chunk);
        let kn = chunk_index(a, to.chunk);
        let entered = if kn == kc { wrapped_next(a[kc].spec_entered()) } else { a[kc].spec_entered() };
        &&& S::CLEANUP == CleanupMode::OnChunkRead
        &&& wrapped_next(a[kc].spec_read()) >= entered
    }

    /// Recounting composes.
    pub proof fn lemma_recounted_trans(a: Self, b: Self, c: Self)
        requires
            Self::recounted(a, b),
        ensures
            Self::recounted(b, c) ==> Self::recounted(a, c),
    {
        if Self::recounted(b, c) {
            Self::lemma_same_items_trans(a, b, c);
        }
    }

    /// `new` is `old` with some counters changed and then, maybe, cleaned.
    pub open spec fn kept_after(old: Self, new: Self) -> bool {
        exists|mid: Self| #![trigger Self::same_items(old, mid)]
            mid.wf() && Self::same_items(old, mid) && mid.start_position() == old.start_position()
            && (new == mid || Self::cleaned(mid, new))
    }

    /// After `kept_after`, every cursor the new queue accepts reads what it read before.
    pub proof fn lemma_kept_after(old: Self, new: Self)
        requires
            old.wf(),
            new.wf(),
            Self::kept_after(old, new),
        ensures
            new.epoch() == old.epoch(),
            forall|x: Cursor| #[trigger] valid_cursor(new.chunks(), x) ==>
                valid_cursor(old.chunks(), x) && items_from(new.chunks(), x) == items_from(old.chunks(), x),
            new.chunk_id_counter() == old.chunk_id_counter(),
            new.spec_total_capacity() <= old.spec_total_capacity(),
    {
        let mid = choose|mid: Self| #![trigger Self::same_items(old, mid)]
            mid.wf() && Self::same_items(old, mid) && mid.start_position() == old.start_position()
            && (new == mid || Self::cleaned(mid, new));
        let a = old.chunks();
        let b = mid.chunks();
        assert(b.last().spec_id() == a.last().spec_id());
        lemma_same_shape(a, b);
        if new != mid {
            Self::lemma_cleaned(mid, new);
        }
    }

    /// After `kept_after`, a chunk that remains has the same items, and is last exactly when it was.
    pub proof fn lemma_kept_after_chunk(old: Self, new: Self, id: usize)
        requires
            old.wf(),
            new.wf(),
            Self::kept_after(old, new),
            has_chunk(new.chunks(), id),
        ensures
            has_chunk(old.chunks(), id),
            new.chunks()[chunk_index(new.chunks(), id)].spec_items()
                == old.chunks()[chunk_index(old.chunks(), id)].spec_items(),
            (chunk_index(new.chunks(), id) == new.chunks().len() - 1)
                == (chunk_index(old.chunks(), id) == old.chunks().len() - 1),
    {
        let mid = choose|mid: Self| #![trigger Self::same_items(old, mid)]
            mid.wf() && Self::same_items(old, mid) && mid.start_position() == old.start_position()
            && (new == mid || Self::cleaned(mid, new));
        let kn = chunk_index(new.chunks(), id);
        assert(new.chunks()[kn].spec_id() == id);
        let d = if new == mid { 0 } else { Self::lemma_cleaned_prefix(mid, new) };
        assert(new.chunks()[kn] == mid.chunks()[kn + d]);
        assert(old.chunks()[kn + d].spec_id() == id);
        lemma_chunk_index(old.chunks(), kn + d);
        lemma_chunk_index(mid.chunks(), kn + d);
    }

    /// What `kept_after` leaves is a run of `old`'s chunks from some point on, with the same ids
    /// and items.
    pub proof fn lemma_kept_after_shift(old: Self, new: Self) -> (d: int)
        requires
            old.wf(),
            new.wf(),
            Self::kept_after(old, new),
        ensures
            0 <= d,
            d + new.chunks().len() == old.chunks().len(),
            forall|k: int| 0 <= k < new.chunks().len() ==> {
                &&& #[trigger] new.chunks()[k].spec_id() == old.chunks()[k + d].spec_id()
                &&& new.chunks()[k].spec_items() == old.chunks()[k + d].spec_items()
            },
    {
        let mid = choose|mid: Self| #![trigger Self::same_items(old, mid)]
            mid.wf() && Self::same_items(old, mid) && mid.start_position() == old.start_position()
            && (new == mid || Self::cleaned(mid, new));
        let d = if new == mid { 0 } else { Self::lemma_cleaned_prefix(mid, new) };
        assert forall|k: int| 0 <= k < new.chunks().len() implies {
            &&& #[trigger] new.chunks()[k].spec_id() == old.chunks()[k + d].spec_id()
            &&& new.chunks()[k].spec_items() == old.chunks()[k + d].spec_items()
        } by {
            assert(new.chunks()[k] == mid.chunks()[k + d]);
        }
        d
    }

    /// Two cursors that `kept_after` keeps are as many chunks apart in `old` as in `new`, and the
    /// chunks between them are non-empty in `old` where they are in `new`.
    pub proof fn lemma_kept_after_span(old: Self, new: Self, c1: Cursor, c2: Cursor)
        requires
            old.wf(),
            new.wf(),
            Self::kept_after(old, new),
            valid_cursor(new.chunks(), c1),
            valid_cursor(new.chunks(), c2),
            forall|k: int| chunk_index(new.chunks(), c1.chunk) < k < chunk_index(new.chunks(), c2.chunk) ==>
                #[trigger] new.chunks()[k].spec_len() > 0,
        ensures
            chunk_index(old.chunks(), c2.chunk) - chunk_index(old.chunks(), c1.chunk)
                == chunk_index(new.chunks(), c2.chunk) - chunk_index(new.chunks(), c1.chunk),
            forall|k: int| chunk_index(old.chunks(), c1.chunk) < k < chunk_index(old.chunks(), c2.chunk) ==>
                #[trigger] old.chunks()[k].spec_len() > 0,
    {
        let d = Self::lemma_kept_after_shift(old, new);
        let a = old.chunks();
        let b = new.chunks();
        let j1 = chunk_index(b, c1.chunk);
        let j2 = chunk_index(b, c2.chunk);
        assert(b[j1].spec_id() == c1.chunk);
        assert(b[j2].spec_id() == c2.chunk);
        lemma_chunk_index(a, j1 + d);
        lemma_chunk_index(a, j2 + d);
        assert forall|k: int| chunk_index(a, c1.chunk) < k < chunk_index(a, c2.chunk) implies
            #[trigger] a[k].spec_len() > 0 by {
            assert(b[k - d].spec_len() > 0);
            assert(b[k - d].spec_items() == a[k].spec_items());
            a[k].lemma_wf();
            b[k - d].lemma_wf();
        }
    }

    /// A reader whose view `kept_after` leaves unchanged has the same items left to read.
    pub proof fn lemma_kept_after_unread(old: Self, new: Self, r: int)
        requires
            old.wf(),
            new.wf(),
            Self::kept_after(old, new),
            old.readers().contains_key(r),
            new.readers().contains_key(r),
            new.readers()[r] == old.readers()[r],
        ensures
            Self::unread_kept(old, new, r),
    {
        let rv = new.readers()[r];
        let p = rv.position;
        Self::lemma_kept_after(old, new);
        let mid = choose|mid: Self| #![trigger Self::same_items(old, mid)]
            mid.wf() && Self::same_items(old, mid) && mid.start_position() == old.start_position()
            && (new == mid || Self::cleaned(mid, new));
        assert(valid_cursor(new.chunks(), p));
        if rv.epoch != old.epoch() {
            if let Some(s) = old.start_position() {
                if new != mid {
                    let d = Self::lemma_cleaned_prefix(mid, new);
                    if new.start_position() is None {
                        let a = mid.chunks();
                        let k = choose|k: int| 0 <= k < d && #[trigger] a[k].spec_id() == s.chunk;
                        crate::cursor::lemma_occupancy_positive(mid.readers(), r);
                        lemma_valid_has_chunk(mid.chunks(), p);
                        let j = chunk_index(a, p.chunk);
                        assert(a[j].spec_id() == p.chunk);
                        assert(counter_diff(a[j].spec_entered(), a[j].spec_read()) != 0);
                        assert(j >= d);
                        assert(a[k].spec_id() < a[j].spec_id());
                    } else {
                        assert(valid_cursor(new.chunks(), s));
                    }
                } else {
                    assert(valid_cursor(new.chunks(), s));
                }
            }
        }
    }

    /// Readers other than `rid` that keep their views through `kept_after` keep what they have
    /// left to read.
    pub proof fn lemma_others_unaffected(old: Self, new: Self, rid: int)
        requires
            old.wf(),
            new.wf(),
            Self::kept_after(old, new),
            forall|r: int| #[trigger] new.readers().contains_key(r) && r != rid ==>
                old.readers().contains_key(r) && new.readers()[r] == old.readers()[r],
        ensures
            forall|r: int| #[trigger] new.readers().contains_key(r) && r != rid ==> Self::unread_kept(old, new, r),
    {
        assert forall|r: int| #[trigger] new.readers().contains_key(r) && r != rid implies
            Self::unread_kept(old, new, r) by {
            Self::lemma_kept_after_unread(old, new, r);
        }
    }

    /// Unsubscribes `reader`: the chunk it stands in counts it as done.
    pub fn unsubscribe(&mut self, reader: EventReader<T, S>)
        requires
            old(self).wf(),
            old(self).has_reader(&reader),
        ensures
            final(self).wf(),
            final(self).readers() == old(self).readers().remove(reader.reader_id()),
            Self::kept_after(*old(self), *final(self)),
            ({
                let cleans = S::CLEANUP_IN_UNSUBSCRIBE && S::CLEANUP != CleanupMode::Never
                    && chunk_index(old(self).chunks(), reader.view().position.chunk) == 0;
                let read = set![chunk_index(old(self).chunks(), reader.view().position.chunk)];
                &&& cleans ==> Self::counted_and_cleaned(*old(self), *final(self), Set::empty(), read)
                &&& !cleans ==> Self::counted(*old(self), *final(self), Set::empty(), read)
            }),
            forall|r: int| #[trigger] final(self).readers().contains_key(r) ==>
                Self::unread_kept(*old(self), *final(self), r),
            S::CLEANUP_IN_UNSUBSCRIBE && S::CLEANUP != CleanupMode::Never
                && reader.view().position.chunk == old(self).chunks()[0].spec_id() ==> final(self).starts_occupied(),
            !(S::CLEANUP_IN_UNSUBSCRIBE && S::CLEANUP != CleanupMode::Never
                && reader.view().position.chunk == old(self).chunks()[0].spec_id())
                ==> final(self).chunks().len() == old(self).chunks().len(),
    {
        let ghost old_self = *self;
        let ghost a = self.chunks();
        let k = match self.find_chunk(reader.position.chunk) {
            Some(k) => k,
            None => {
                proof { lemma_valid_has_chunk(a, reader.position); }
                return;
            },
        };
        let ghost rid = reader.id@;
        let ghost old_readers = self.readers@;
        proof {
            crate::cursor::lemma_occupancy_positive(old_readers, rid);
        }
        self.list.chunks[k].mark_read();
        self.list.readers_count = self.list.readers_count - 1;
        proof {
            self.readers@ = old_readers.remove(rid);
            let b = self.chunks();
            let n = a.len();
            assert(self.readers().dom() =~= old_readers.dom().remove(rid));
            assert forall|j: int| 0 <= j < n implies
                counter_diff(b[j].spec_entered(), b[j].spec_read()) == occupancy(self.readers(), #[trigger] b[j].spec_id()) by {
                crate::cursor::lemma_occupancy_remove(old_readers, rid, b[j].spec_id());
                if j == k {
                    Self::lemma_diff_read(a[j].spec_entered(), a[j].spec_read());
                } else {
                    assert(b[j] == a[j]);
                    if a[j].spec_id() == a[k as int].spec_id() {
                        lemma_chunk_index(a, j);
                    }
                }
            }
            lemma_same_shape(a, b);
            assert forall|j: int| #![trigger b[j]] 0 <= j < n implies b[j].wf()
                && b[j].spec_state().spec_has_next() == (j < n - 1)
                && b[j].spec_state().spec_epoch() == b[0].spec_state().spec_epoch()
                && S::MIN_CHUNK_SIZE <= b[j].spec_capacity() <= S::MAX_CHUNK_SIZE by {
                assert(a[j].wf());
            }
            Self::lemma_same_items(old_self, *self);
        }
        let ghost mid = *self;
        let ghost read_set = set![k as int];
        proof {
            assert(Self::recounted(old_self, mid));
            assert(Self::counted(old_self, mid, Set::empty(), read_set));
        }
        if S::CLEANUP_IN_UNSUBSCRIBE && S::CLEANUP != CleanupMode::Never && k == 0 {
            self.cleanup_impl();
            proof { assert(Self::counted_and_cleaned(old_self, *self, Set::empty(), read_set)); }
        }
        proof {
            assert(Self::same_items(old_self, mid));
            Self::lemma_others_unaffected(old_self, *self, reader.reader_id());
            assert(old_self.readers().contains_key(reader.reader_id()));
            crate::laws::law_unsubscribe_frees_the_front(old_self, *self, reader.view());
        }
    }

    /// Moves `reader` forward to `new_position`: it enters the new chunk and counts as done with
    /// the one it leaves. With `try_cleanup`, cleanup runs when it was the last reader there.
    #[verifier::rlimit(40)]
    fn fast_forward(&mut self, reader: &mut EventReader<T, S>, new_position: Cursor, try_cleanup: bool)
        requires
            old(self).wf(),
            old(self).has_reader(old(reader)),
            valid_cursor(old(self).chunks(), new_position),
            cursor_lt(old(reader).view().position, new_position),
            try_cleanup == (S::CLEANUP == CleanupMode::OnChunkRead),
        ensures
            final(self).wf(),
            final(self).has_reader(final(reader)),
            final(reader).reader_id() == old(reader).reader_id(),
            final(self).next_reader_id() == old(self).next_reader_id(),
            final(reader).view() == (ReaderView { position: new_position, epoch: old(reader).view().epoch }),
            final(self).readers() == old(self).readers().insert(old(reader).reader_id(), final(reader).view()),
            Self::kept_after(*old(self), *final(self)),
            ({
                let cleans = Self::jump_cleans(*old(self), old(reader).view().position, new_position);
                let entered = Self::jump_entered(*old(self), old(reader).view().position, new_position);
                let read = Self::jump_read(*old(self), old(reader).view().position, new_position);
                &&& cleans ==> Self::counted_and_cleaned(*old(self), *final(self), entered, read)
                &&& !cleans ==> Self::counted(*old(self), *final(self), entered, read)
            }),
    {
        let ghost old_self = *self;
        let ghost a = self.chunks();
        let ghost n = a.len();
        let ghost rid = reader.id@;
        let ghost old_readers = self.readers@;
        let kn = match self.find_chunk(new_position.chunk) {
            Some(k) => k,
            None => {
                proof { lemma_valid_has_chunk(a, new_position); }
                return;
            },
        };
        let kc = match self.find_chunk(reader.position.chunk) {
            Some(k) => k,
            None => {
                proof { lemma_valid_has_chunk(a, reader.view().position); }
                return;
            },
        };
        proof {
            crate::cursor::lemma_occupancy_positive(old_readers, rid);
            crate::cursor::lemma_occupancy_bound(old_readers, new_position.chunk);
        }
        self.list.chunks[kn].mark_entered();
        let prev_read = self.list.chunks[kc].mark_read();
        reader.position = new_position;
        let ghost new_view = reader.view();
        proof {
            self.readers@ = old_readers.insert(rid, new_view);
            let b = self.chunks();
            assert(self.readers().dom() =~= old_readers.dom());
            assert forall|j: int| 0 <= j < n implies
                counter_diff(b[j].spec_entered(), b[j].spec_read()) == occupancy(self.readers(), #[trigger] b[j].spec_id()) by {
                crate::cursor::lemma_occupancy_update(old_readers, rid, new_view, b[j].spec_id());
                assert(b[j].spec_id() == a[j].spec_id());
                if j == kc && j == kn {
                    Self::lemma_diff_both(a[j].spec_entered(), a[j].spec_read());
                } else if j == kc {
                    Self::lemma_diff_read(a[j].spec_entered(), a[j].spec_read());
                    assert(a[j].spec_id() != a[kn as int].spec_id()) by {
                        if a[j].spec_id() == a[kn as int].spec_id() { lemma_chunk_index(a, j); }
                    }
                } else if j == kn {
                    assert(a[j].spec_id() != a[kc as int].spec_id()) by {
                        if a[j].spec_id() == a[kc as int].spec_id() { lemma_chunk_index(a, j); }
                    }
                    crate::cursor::lemma_occupancy_bound_strict(old_readers, rid, a[j].spec_id());
                    Self::lemma_diff_enter(a[j].spec_entered(), a[j].spec_read());
                } else {
                    assert(b[j] == a[j]);
                    assert(a[j].spec_id() != a[kc as int].spec_id() && a[j].spec_id() != a[kn as int].spec_id()) by {
                        if a[j].spec_id() == a[kc as int].spec_id() { lemma_chunk_index(a, j); }
                        if a[j].spec_id() == a[kn as int].spec_id() { lemma_chunk_index(a, j); }
                    }
                }
            }
            lemma_same_shape(a, b);
            assert forall|j: int| #![trigger b[j]] 0 <= j < n implies b[j].wf()
                && b[j].spec_state().spec_has_next() == (j < n - 1)
                && b[j].spec_state().spec_epoch() == b[0].spec_state().spec_epoch()
                && S::MIN_CHUNK_SIZE <= b[j].spec_capacity() <= S::MAX_CHUNK_SIZE by {
                assert(a[j].wf());
            }
            assert forall|r: int| #[trigger] self.readers().dom().contains(r) implies
                valid_cursor(b, self.readers()[r].position) by {}
            Self::lemma_same_items(old_self, *self);
        }
        let ghost mid = *self;
        let ghost entered_set = Self::jump_entered(old_self, old(reader).view().position, new_position);
        let ghost read_set = Self::jump_read(old_self, old(reader).view().position, new_position);
        proof {
            assert(Self::recounted(old_self, mid));
            assert(prev_read == a[kc as int].spec_read());
            assert(mid.chunks()[kc as int].spec_entered() == if kn == kc {
                wrapped_next(a[kc as int].spec_entered())
            } else {
                a[kc as int].spec_entered()
            });
            assert(entered_set =~= set![kn as int]);
            assert(read_set =~= set![kc as int]);
            assert(Self::counted(old_self, mid, entered_set, read_set));
        }
        if try_cleanup {
            let entered = self.list.chunks[kc].readers_entered();
            let next_read = prev_read.wrapping_add(1);
            proof {
                assert(next_read == wrapped_next(prev_read));
                assert(Self::jump_cleans(old_self, old(reader).view().position, new_position) == (next_read >= entered));
            }
            if next_read >= entered {
                self.cleanup_impl();
                proof { assert(Self::counted_and_cleaned(old_self, *self, entered_set, read_set)); }
            }
        }
        proof {
            assert(Self::same_items(old_self, mid));
        }
    }

    /// Brings `reader` up to date with the start position: if the queue moved it since the reader
    /// last looked and the reader stands before it, the reader jumps to it. Returns the state of the
    /// reader's chunk.
    fn update_start_position_and_get_chunk_state(&mut self, reader: &mut EventReader<T, S>) -> (r: PackedChunkState)
        requires
            old(self).wf(),
            old(self).has_reader(old(reader)),
        ensures
            final(self).wf(),
            final(self).has_reader(final(reader)),
            final(reader).reader_id() == old(reader).reader_id(),
            final(self).next_reader_id() == old(self).next_reader_id(),
            final(reader).view() == (ReaderView {
                position: Self::effective_position(*old(self), old(reader).view()),
                epoch: old(self).epoch(),
            }),
            final(self).readers() == old(self).readers().insert(old(reader).reader_id(), final(reader).view()),
            Self::kept_after(*old(self), *final(self)),
            final(self).start_position() == old(self).start_position()
                || (final(self).start_position() is None && final(reader).view().position != old(reader).view().position),
            r == final(self).chunks()[chunk_index(final(self).chunks(), final(reader).view().position.chunk)].spec_state(),
            ({
                let from = old(reader).view().position;
                let to = final(reader).view().position;
                let cleans = to != from && Self::jump_cleans(*old(self), from, to);
                let entered = Self::jump_entered(*old(self), from, to);
                let read = Self::jump_read(*old(self), from, to);
                &&& cleans ==> Self::counted_and_cleaned(*old(self), *final(self), entered, read)
                &&& !cleans ==> Self::counted(*old(self), *final(self), entered, read)
            }),
    {
        let ghost old_self = *self;
        let ghost a = self.chunks();
        let ghost rid = reader.id@;
        let ghost old_readers = self.readers@;
        let k = match self.find_chunk(reader.position.chunk) {
            Some(k) => k,
            None => {
                proof { lemma_valid_has_chunk(a, reader.view().position); }
                return self.list.chunks[0].chunk_state();
            },
        };
        let chunk_state = self.list.chunks[k].chunk_state();
        let epoch = chunk_state.epoch();
        if epoch.into_inner() != reader.start_position_epoch.into_inner() {
            reader.start_position_epoch = epoch;
            proof {
                let v = reader.view();
                self.readers@ = old_readers.insert(rid, v);
                assert(self.readers().dom() =~= old_readers.dom());
                assert forall|j: int| 0 <= j < a.len() implies
                    counter_diff(a[j].spec_entered(), a[j].spec_read()) == occupancy(self.readers(), #[trigger] a[j].spec_id()) by {
                    crate::cursor::lemma_occupancy_update(old_readers, rid, v, a[j].spec_id());
                }
                assert(Self::same_items(old_self, *self));
            }
            let ghost mid = *self;
            let r = self.do_update_start_position_and_get_chunk_state(reader);
            proof {
                assert(mid.readers() == old_self.readers().insert(rid, ReaderView {
                    position: old_readers[rid].position, epoch: old_self.epoch() }));
                assert(self.readers() =~= old_self.readers().insert(rid, reader.view()));
                if self.start_position() != old_self.start_position() {
                    assert(self.start_position() is None);
                }
                assert(Self::same_items(old_self, mid));
                let mid2 = choose|m: Self| #![trigger Self::same_items(mid, m)]
                    m.wf() && Self::same_items(mid, m) && m.start_position() == mid.start_position()
                    && (*self == m || Self::cleaned(m, *self));
                Self::lemma_same_items_trans(old_self, mid, mid2);
                assert(Self::recounted(old_self, mid));
                assert(mid.chunks() == old_self.chunks());
                assert(Self::counted(old_self, mid, Set::empty(), Set::empty()));
                let from = old_readers[rid].position;
                Self::lemma_counted_trans(old_self, mid, *self,
                    Self::jump_entered(mid, from, reader.view().position), Self::jump_read(mid, from, reader.view().position));
            }
            r
        } else {
            proof {
                assert(Self::same_items(old_self, *self)) by {
                    Self::lemma_same_items(old_self, *self);
                }
                lemma_chunk_index(a, k as int);
                assert(reader.view().epoch == old_self.epoch());
                assert(self.readers() =~= old_self.readers().insert(rid, reader.view()));
                assert(Self::recounted(old_self, *self));
                assert(Self::counted(old_self, *self, Set::empty(), Set::empty()));
            }
            chunk_state
        }
    }

    /// `same_items` composes.
    pub proof fn lemma_same_items_trans(a: Self, b: Self, c: Self)
        requires
            Self::same_items(a, b),
            Self::same_items(b, c),
        ensures
            Self::same_items(a, c),
    {
        assert forall|x: Cursor| #[trigger] items_from(c.chunks(), x) == items_from(a.chunks(), x) by {
            assert(items_from(c.chunks(), x) == items_from(b.chunks(), x));
        }
    }

    /// The slow path of bringing a reader up to date: jump to the start position if it is ahead.
    fn do_update_start_position_and_get_chunk_state(&mut self, reader: &mut EventReader<T, S>) -> (r: PackedChunkState)
        requires
            old(self).wf(),
            old(self).has_reader(old(reader)),
            old(reader).view().epoch == old(self).epoch(),
        ensures
            final(self).wf(),
            final(self).has_reader(final(reader)),
            final(reader).reader_id() == old(reader).reader_id(),
            final(self).next_reader_id() == old(self).next_reader_id(),
            final(reader).view() == (ReaderView {
                position: match old(self).start_position() {
                    Some(s) => if cursor_lt(old(reader).view().position, s) { s } else { old(reader).view().position },
                    None => old(reader).view().position,
                },
                epoch: old(reader).view().epoch,
            }),
            final(self).readers() == old(self).readers().insert(old(reader).reader_id(), final(reader).view()),
            Self::kept_after(*old(self), *final(self)),
            final(self).start_position() == old(self).start_position()
                || (final(self).start_position() is None && final(reader).view().position != old(reader).view().position),
            r == final(self).chunks()[chunk_index(final(self).chunks(), final(reader).view().position.chunk)].spec_state(),
            ({
                let from = old(reader).view().position;
                let to = final(reader).view().position;
                let cleans = to != from && Self::jump_cleans(*old(self), from, to);
                let entered = Self::jump_entered(*old(self), from, to);
                let read = Self::jump_read(*old(self), from, to);
                &&& cleans ==> Self::counted_and_cleaned(*old(self), *final(self), entered, read)
                &&& !cleans ==> Self::counted(*old(self), *final(self), entered, read)
            }),
    {
        let ghost old_self = *self;
        match self.start_position {
            Some(s) => {
                if reader.position.lt(&s) {
                    self.fast_forward(reader, s, S::CLEANUP == CleanupMode::OnChunkRead);
                    proof {
                        let mid = choose|m: Self| #![trigger Self::same_items(old_self, m)]
                            m.wf() && Self::same_items(old_self, m) && m.start_position() == old_self.start_position()
                            && (*self == m || Self::cleaned(m, *self));
                        if *self != mid {
                            let d = Self::lemma_cleaned_prefix(mid, *self);
                            if self.start_position() != mid.start_position() {
                                assert(self.start_position() is None);
                            }
                        }
                    }
                } else {
                    proof {
                        assert(self.readers() =~= old_self.readers().insert(reader.id@, reader.view()));
                        Self::lemma_same_items(old_self, *self);
                        assert(Self::counted(old_self, *self, Set::empty(), Set::empty()));
                    }
                }
            },
            None => {
                proof {
                    assert(self.readers() =~= old_self.readers().insert(reader.id@, reader.view()));
                    Self::lemma_same_items(old_self, *self);
                    assert(Self::counted(old_self, *self, Set::empty(), Set::empty()));
                }
            },
        }
        let k = match self.find_chunk(reader.position.chunk) {
            Some(k) => k,
            None => {
                proof { lemma_valid_has_chunk(self.chunks(), reader.view().position); }
                return self.list.chunks[0].chunk_state();
            },
        };
        self.list.chunks[k].chunk_state()
    }

    /// The read `it` agrees with this queue: its position is valid, it reads no further in its
    /// chunk than the chunk holds, and if it is to go on to the next chunk its chunk is complete.
    pub open spec fn iter_valid(&self, it: &Iter<T, S>) -> bool {
        let chunks = self.chunks();
        let k = chunk_index(chunks, it.spec_position().chunk);
        &&& valid_cursor(chunks, it.spec_position())
        &&& it.spec_position().index <= it.snapshot().spec_len() <= chunks[k].spec_len()
        &&& it.snapshot().spec_has_next() ==> k < chunks.len() - 1 && it.snapshot().spec_len() == chunks[k].spec_len()
    }

    /// The read `it` sees this queue as it is.
    pub open spec fn iter_exact(&self, it: &Iter<T, S>) -> bool {
        let chunks = self.chunks();
        let k = chunk_index(chunks, it.spec_position().chunk);
        &&& self.iter_valid(it)
        &&& it.snapshot().spec_len() == chunks[k].spec_len()
        &&& it.snapshot().spec_has_next() == (k < chunks.len() - 1)
    }

    /// A read stops early at the start of an empty chunk that is not the last one.
    pub open spec fn at_empty_chunk(&self, c: Cursor) -> bool {
        let chunks = self.chunks();
        let k = chunk_index(chunks, c.chunk);
        &&& c.index == 0
        &&& chunks[k].spec_len() == 0
        &&& k < chunks.len() - 1
    }

    /// Starts a read for `reader`, after bringing it up to date with the start position.
    pub fn reader_iter(&mut self, reader: &mut EventReader<T, S>) -> (it: Iter<T, S>)
        requires
            old(self).wf(),
            old(self).has_reader(old(reader)),
        ensures
            final(self).wf(),
            final(self).has_reader(final(reader)),
            final(reader).reader_id() == old(reader).reader_id(),
            final(self).next_reader_id() == old(self).next_reader_id(),
            final(reader).view() == (ReaderView {
                position: Self::effective_position(*old(self), old(reader).view()),
                epoch: old(self).epoch(),
            }),
            final(self).readers() == old(self).readers().insert(old(reader).reader_id(), final(reader).view()),
            Self::kept_after(*old(self), *final(self)),
            final(self).start_position() == old(self).start_position()
                || (final(self).start_position() is None && final(reader).view().position != old(reader).view().position),
            it.spec_position() == final(reader).view().position,
            final(self).iter_exact(&it),
            it.reader_id() == old(reader).reader_id(),
            ({
                let from = old(reader).view().position;
                let to = final(reader).view().position;
                let cleans = to != from && Self::jump_cleans(*old(self), from, to);
                let entered = Self::jump_entered(*old(self), from, to);
                let read = Self::jump_read(*old(self), from, to);
                &&& cleans ==> Self::counted_and_cleaned(*old(self), *final(self), entered, read)
                &&& !cleans ==> Self::counted(*old(self), *final(self), entered, read)
            }),
            forall|r: int| #[trigger] final(self).readers().contains_key(r) && r != old(reader).reader_id() ==>
                Self::unread_kept(*old(self), *final(self), r),
    {
        let chunk_state = self.update_start_position_and_get_chunk_state(reader);
        proof { Self::lemma_others_unaffected(*old(self), *self, reader.reader_id()); }
        let k = match self.find_chunk(reader.position.chunk) {
            Some(k) => k,
            None => {
                proof { lemma_valid_has_chunk(self.chunks(), reader.view().position); }
                0
            },
        };
        proof {
            let chunks = self.chunks();
            chunks[k as int].lemma_wf();
        }
        Iter { position: reader.position, chunk_index: k, chunk_state, reader: Ghost(reader.id@), _marker: PhantomData }
    }

    /// Where `it` stands in the chunk list: the hint it keeps, or a search.
    fn locate(&self, it: &Iter<T, S>) -> (r: Option<usize>)
        requires
            self.wf(),
        ensures
            has_chunk(self.chunks(), it.spec_position().chunk) <==> r is Some,
            r matches Some(k) ==> k < self.chunks().len() && k == chunk_index(self.chunks(), it.spec_position().chunk),
    {
        let n = self.list.chunks.len();
        if it.chunk_index < n && self.list.chunks[it.chunk_index].id() == it.position.chunk {
            proof { lemma_chunk_index(self.chunks(), it.chunk_index as int); }
            Some(it.chunk_index)
        } else {
            self.find_chunk(it.position.chunk)
        }
    }

    /// The next item of the read, or `None` when the read is over.
    pub fn iter_next<'q>(&'q self, it: &mut Iter<T, S>) -> (r: Option<&'q T>)
        requires
            self.wf(),
        ensures
            self.iter_valid(old(it)) ==> {
                &&& self.iter_valid(final(it))
                &&& match r {
                    Some(v) => {
                        &&& items_from(self.chunks(), old(it).spec_position())
                                == seq![*v] + items_from(self.chunks(), final(it).spec_position())
                    },
                    None => {
                        &&& items_from(self.chunks(), old(it).spec_position())
                                == items_from(self.chunks(), final(it).spec_position())
                        &&& (self.iter_exact(old(it)) ==> (
                                items_from(self.chunks(), final(it).spec_position()) == Seq::<T>::empty()
                                || (self.at_empty_chunk(final(it).spec_position())
                                    && chunk_index(self.chunks(), final(it).spec_position().chunk)
                                        == chunk_index(self.chunks(), old(it).spec_position().chunk) + 1)))
                    },
                }
                &&& {
                    let k0 = chunk_index(self.chunks(), old(it).spec_position().chunk);
                    let k1 = chunk_index(self.chunks(), final(it).spec_position().chunk);
                    k1 == k0 || k1 == k0 + 1
                }
            },
            self.iter_exact(old(it)) ==> self.iter_exact(final(it)),
            !cursor_lt(final(it).spec_position(), old(it).spec_position()),
            r is Some ==> cursor_lt(old(it).spec_position(), final(it).spec_position()),
            r is Some ==> final(it).spec_position().index > 0,
            final(it).reader_id() == old(it).reader_id(),
            self.iter_valid(old(it)) && old(it).spec_position().index < old(it).snapshot().spec_len() ==> r is Some,
            ({
                let chunks = self.chunks();
                let k = chunk_index(chunks, old(it).spec_position().chunk);
                self.iter_valid(old(it)) && old(it).spec_position().index == old(it).snapshot().spec_len()
                    && old(it).snapshot().spec_has_next() && chunks[k + 1].spec_len() > 0 ==> r is Some
            }),
    {
        let ghost chunks = self.chunks();
        let ghost n = chunks.len();
        if it.position.index as u64 == it.chunk_state.len() as u64 {
            if !it.chunk_state.has_next() {
                proof {
                    if self.iter_exact(old(it)) {
                        let k = chunk_index(chunks, it.position.chunk);
                        assert(chunks[k].spec_id() == it.position.chunk);
                        assert(k == n - 1);
                        assert(chunks.subrange(k + 1, n as int) =~= Seq::<DynamicChunk<T>>::empty());
                        assert(concat_items(Seq::<DynamicChunk<T>>::empty()) == Seq::<T>::empty());
                        assert(items_from(chunks, it.position) =~= Seq::<T>::empty());
                    }
                }
                return None;
            }
            let k = match self.locate(it) {
                Some(k) => k,
                None => {
                    proof { if self.iter_valid(old(it)) { lemma_valid_has_chunk(chunks, it.position); } }
                    return None;
                },
            };
            let len_chunks = self.list.chunks.len();
            if k >= len_chunks - 1 {
                return None;
            }
            let next = k + 1;
            let ghost old_pos = it.position;
            it.position = Cursor { chunk: self.list.chunks[next].id(), index: 0 };
            it.chunk_index = next;
            it.chunk_state = self.list.chunks[next].chunk_state();
            proof {
                lemma_chunk_index(chunks, next as int);
                chunks[next as int].lemma_wf();
                assert(chunks[k as int].spec_id() < chunks[next as int].spec_id());
                if self.iter_valid(old(it)) {
                    // leaving a complete chunk at its end reads what the next chunk reads from its start
                    Self::lemma_suffix_split(chunks.subrange(k as int + 1, n as int), 0);
                    assert(chunks.subrange(k as int + 1, n as int).subrange(0, n - k - 1) =~= chunks.subrange(k as int + 1, n as int));
                    assert(chunks.subrange(k as int + 1, n as int).subrange(1, n - k - 1) =~= chunks.subrange(next as int + 1, n as int));
                    let len = chunks[k as int].spec_len();
                    assert(chunks[k as int].spec_items().subrange(len as int, len as int) =~= Seq::<T>::empty());
                    assert(chunks[next as int].spec_items().subrange(0, chunks[next as int].spec_len() as int)
                        =~= chunks[next as int].spec_items());
                    assert(items_from(chunks, old_pos) =~= items_from(chunks, it.position));
                }
            }
            if it.chunk_state.len() == 0 {
                return None;
            }
        }
        let k = match self.locate(it) {
            Some(k) => k,
            None => {
                proof { if self.iter_valid(old(it)) { lemma_valid_has_chunk(chunks, it.position); } }
                return None;
            },
        };
        proof { chunks[k as int].lemma_wf(); }
        if it.position.index >= self.list.chunks[k].chunk_state().len() as usize {
            return None;
        }
        let ghost old_pos = it.position;
        let value = self.list.chunks[k].get_unchecked(it.position.index);
        it.position.index = it.position.index + 1;
        proof {
            let items = chunks[k as int].spec_items();
            let len = items.len();
            assert(items.subrange(old_pos.index as int, len as int)
                =~= seq![items[old_pos.index as int]] + items.subrange(it.position.index as int, len as int));
            assert(items_from(chunks, old_pos) =~= seq![*value] + items_from(chunks, it.position));
        }
        Some(value)
    }

    /// Ends a read: the reader moves to where the read stopped, every chunk it read to the end
    /// counts it as done, and every chunk it went into counts it as entered. A read that does not
    /// belong to this queue's present state, or that stands behind the reader, is ignored.
    pub fn finish_iter(&mut self, reader: &mut EventReader<T, S>, it: Iter<T, S>)
        requires
            old(self).wf(),
            old(self).has_reader(old(reader)),
            it.reader_id() == old(reader).reader_id(),
        ensures
            final(self).wf(),
            final(self).has_reader(final(reader)),
            final(reader).reader_id() == old(reader).reader_id(),
            final(self).next_reader_id() == old(self).next_reader_id(),
            ({
                let accepted = valid_cursor(old(self).chunks(), it.spec_position())
                    && !cursor_lt(it.spec_position(), old(reader).view().position);
                if accepted {
                    &&& final(reader).view() == (ReaderView {
                            position: it.spec_position(),
                            epoch: old(reader).view().epoch,
                        })
                    &&& final(self).readers() == old(self).readers().insert(old(reader).reader_id(), final(reader).view())
                    &&& Self::kept_after(*old(self), *final(self))
                    &&& Self::read_keeps_chunks(*old(self), old(reader).view().position, it.spec_position())
                            ==> Self::counted(*old(self), *final(self),
                                Self::read_entered(*old(self), old(reader).view().position, it.spec_position()),
                                Self::read_read(*old(self), old(reader).view().position, it.spec_position()))
                    &&& Self::read_cleans(*old(self), old(reader).view().position, it.spec_position())
                            ==> Self::counted_and_cleaned(*old(self), *final(self),
                                Self::read_entered(*old(self), old(reader).view().position, it.spec_position()),
                                Self::read_read(*old(self), old(reader).view().position, it.spec_position()))
                } else {
                    &&& *final(self) == *old(self)
                    &&& *final(reader) == *old(reader)
                }
            }),
    {
        let ghost old_self = *self;
        let ghost a = self.chunks();
        let ghost n = a.len();
        let ghost rid = reader.id@;
        let ghost old_readers = self.readers@;
        let ki = match self.find_chunk(it.position.chunk) {
            Some(k) => k,
            None => {
                return;
            },
        };
        proof { a[ki as int].lemma_wf(); }
        if it.position.index > self.list.chunks[ki].chunk_state().len() as usize {
            return;
        }
        if it.position.lt(&reader.position) {
            return;
        }
        let kr = match self.find_chunk(reader.position.chunk) {
            Some(k) => k,
            None => {
                proof { lemma_valid_has_chunk(a, reader.view().position); }
                return;
            },
        };
        proof {
            if kr > ki {
                assert(a[ki as int].spec_id() < a[kr as int].spec_id());
            }
        }
        let nn = self.list.chunks.len();
        let try_cleanup = S::CLEANUP == CleanupMode::OnChunkRead;
        let mut first_chunk_readed: usize = 0;
        let mut k: usize = kr;
        while k < ki
            invariant
                kr <= k <= ki < n,
                try_cleanup == (S::CLEANUP == CleanupMode::OnChunkRead),
                first_chunk_readed == if try_cleanup && kr < k { wrapped_next(a[kr as int].spec_read()) } else { 0 },
                self.list.chunks@.len() == n,
                self.start_position == old_self.start_position,
                self.readers == old_self.readers,
                self.next_reader_id == old_self.next_reader_id,
                self.list.chunk_id_counter == old_self.list.chunk_id_counter,
                self.list.total_capacity == old_self.list.total_capacity,
                self.list.readers_count == old_self.list.readers_count,
                self.list.penult_chunk_size == old_self.list.penult_chunk_size,
                a == old_self.chunks(),
                forall|j: int| 0 <= j < n ==> {
                    &&& (#[trigger] self.list.chunks@[j]).spec_items() == a[j].spec_items()
                    &&& self.list.chunks@[j].spec_id() == a[j].spec_id()
                    &&& self.list.chunks@[j].spec_capacity() == a[j].spec_capacity()
                    &&& self.list.chunks@[j].spec_state() == a[j].spec_state()
                    &&& (a[j].wf() ==> self.list.chunks@[j].wf())
                    &&& self.list.chunks@[j].spec_entered() == a[j].spec_entered()
                    &&& self.list.chunks@[j].spec_read() == if kr <= j < k {
                            wrapped_next(a[j].spec_read())
                        } else {
                            a[j].spec_read()
                        }
                },
            decreases ki - k,
        {
            let ghost prev_chunks = self.list.chunks@;
            let prev_read = self.list.chunks[k].mark_read();
            if try_cleanup && k == kr {
                first_chunk_readed = prev_read.wrapping_add(1);
            }
            proof {
                assert forall|j: int| 0 <= j < n && j != k implies self.list.chunks@[j] == prev_chunks[j] by {}
            }
            k += 1;
        }
        let ghost first_read = first_chunk_readed;
        let mut k: usize = kr + 1;
        while k <= ki
            invariant
                kr < k <= ki + 1,
                ki < n,
                n == nn,
                first_chunk_readed == first_read,
                self.list.chunks@.len() == n,
                self.start_position == old_self.start_position,
                self.readers == old_self.readers,
                self.next_reader_id == old_self.next_reader_id,
                self.list.chunk_id_counter == old_self.list.chunk_id_counter,
                self.list.total_capacity == old_self.list.total_capacity,
                self.list.readers_count == old_self.list.readers_count,
                self.list.penult_chunk_size == old_self.list.penult_chunk_size,
                a == old_self.chunks(),
                forall|j: int| 0 <= j < n ==> {
                    &&& (#[trigger] self.list.chunks@[j]).spec_items() == a[j].spec_items()
                    &&& self.list.chunks@[j].spec_id() == a[j].spec_id()
                    &&& self.list.chunks@[j].spec_capacity() == a[j].spec_capacity()
                    &&& self.list.chunks@[j].spec_state() == a[j].spec_state()
                    &&& (a[j].wf() ==> self.list.chunks@[j].wf())
                    &&& self.list.chunks@[j].spec_entered() == if kr < j < k {
                            wrapped_next(a[j].spec_entered())
                        } else {
                            a[j].spec_entered()
                        }
                    &&& self.list.chunks@[j].spec_read() == if kr <= j < ki {
                            wrapped_next(a[j].spec_read())
                        } else {
                            a[j].spec_read()
                        }
                },
            decreases ki + 1 - k,
        {
            let ghost prev_chunks = self.list.chunks@;
            self.list.chunks[k].mark_entered();
            proof {
                assert forall|j: int| 0 <= j < n && j != k implies self.list.chunks@[j] == prev_chunks[j] by {}
            }
            k += 1;
        }
        reader.position = it.position;
        proof {
            let v = reader.view();
            self.readers@ = old_readers.insert(rid, v);
            let b = self.chunks();
            assert(self.readers().dom() =~= old_readers.dom());
            crate::cursor::lemma_occupancy_positive(old_readers, rid);
            assert(a[kr as int].spec_id() == old_readers[rid].position.chunk);
            assert(a[ki as int].spec_id() == v.position.chunk);
            assert forall|j: int| 0 <= j < n implies
                counter_diff(b[j].spec_entered(), b[j].spec_read()) == occupancy(self.readers(), #[trigger] b[j].spec_id()) by {
                crate::cursor::lemma_occupancy_update(old_readers, rid, v, b[j].spec_id());
                assert(b[j].spec_id() == a[j].spec_id());
                if j != kr && a[j].spec_id() == a[kr as int].spec_id() { lemma_chunk_index(a, j); lemma_chunk_index(a, kr as int); }
                if j != ki && a[j].spec_id() == a[ki as int].spec_id() { lemma_chunk_index(a, j); lemma_chunk_index(a, ki as int); }
                if kr < ki {
                    if j == kr {
                        Self::lemma_diff_read(a[j].spec_entered(), a[j].spec_read());
                    } else if j == ki {
                        crate::cursor::lemma_occupancy_bound_strict(old_readers, rid, a[j].spec_id());
                        Self::lemma_diff_enter(a[j].spec_entered(), a[j].spec_read());
                    } else if kr < j < ki {
                        Self::lemma_diff_both(a[j].spec_entered(), a[j].spec_read());
                    }
                }
            }
            lemma_same_shape(a, b);
            assert forall|j: int| #![trigger b[j]] 0 <= j < n implies b[j].wf()
                && b[j].spec_state().spec_has_next() == (j < n - 1)
                && b[j].spec_state().spec_epoch() == b[0].spec_state().spec_epoch()
                && S::MIN_CHUNK_SIZE <= b[j].spec_capacity() <= S::MAX_CHUNK_SIZE by {
                assert(a[j].wf());
            }
            lemma_chunk_index(a, ki as int);
            assert(self.chunks_wf());
            lemma_chunk_index(a, ki as int);
            assert(valid_cursor(a, v.position));
            assert forall|r: int| #[trigger] self.readers().dom().contains(r) implies {
                &&& valid_cursor(b, self.readers()[r].position)
                &&& self.readers()[r].epoch <= max_epoch()
                &&& r < self.next_reader_id()
            } by {
                if r != rid {
                    assert(old_readers.dom().contains(r));
                }
            }
            assert(self.readers_wf());
            Self::lemma_same_items(old_self, *self);
        }
        let ghost mid = *self;
        let ghost entered_set = Self::read_entered(old_self, old(reader).view().position, it.spec_position());
        let ghost read_set = Self::read_read(old_self, old(reader).view().position, it.spec_position());
        proof {
            assert(Self::recounted(old_self, mid));
            assert(chunk_index(a, old(reader).view().position.chunk) == kr);
            assert(chunk_index(a, it.spec_position().chunk) == ki);
            assert(Self::counted(old_self, mid, entered_set, read_set));
        }
        if try_cleanup && first_chunk_readed != 0 {
            let entered = self.list.chunks[kr].readers_entered();
            if first_chunk_readed >= entered {
                self.cleanup_impl();
                proof { assert(Self::counted_and_cleaned(old_self, *self, entered_set, read_set)); }
            }
        }
        proof {
            assert(Self::same_items(old_self, mid));
        }
    }

    /// Every subscribed reader stands in a chunk of the queue: no chunk a reader needs was freed.
    pub proof fn law_readers_stand_in_live_chunks(q: Self)
        requires
            q.wf(),
        ensures
            forall|r: int| #[trigger] q.readers().contains_key(r) ==>
                has_chunk(q.chunks(), q.readers()[r].position.chunk),
    {
        assert forall|r: int| #[trigger] q.readers().contains_key(r) implies
            has_chunk(q.chunks(), q.readers()[r].position.chunk) by {
            lemma_valid_has_chunk(q.chunks(), q.readers()[r].position);
        }
    }

    /// Force cleanup keeps the chunk of the start position and everything after it.
    pub proof fn lemma_force_cleaned_keeps(m: Self, q: Self)
        requires
            m.wf(),
            q.wf(),
            Self::force_cleaned(m, q),
        ensures
            q.end() == m.end(),
            q.epoch() == m.epoch(),
            m.start_position() matches Some(c) ==> valid_cursor(q.chunks(), c)
                && items_from(q.chunks(), c) == items_from(m.chunks(), c),
    {
        let a = m.chunks();
        let n = a.len();
        match m.start_position() {
            Some(c) => {
                let t = chunk_index(a, c.chunk);
                assert(a[t].spec_id() == c.chunk);
                if t != 0 {
                    let p = a.subrange(0, 1) + a.subrange(1, t).filter(occupied_pred());
                    let b = q.chunks();
                    assert(b == p + a.subrange(t, n as int));
                    let pl = p.len() as int;
                    assert(b[pl] == a[t]);
                    lemma_chunk_index(b, pl);
                    assert(b.subrange(pl + 1, b.len() as int) =~= a.subrange(t + 1, n as int));
                    assert(b[b.len() - 1] == a[n - 1]);
                    assert(b[0] == a[0]);
                }
            },
            None => {},
        }
    }

    /// Moving the start position to `c` keeps `c` as the start, with what it reads, when `c` is
    /// in the last chunk or some reader stands before it.
    pub proof fn lemma_moved_start(q0: Self, q1: Self, c: Cursor)
        requires
            q0.wf(),
            q1.wf(),
            valid_cursor(q0.chunks(), c),
            Self::moved_start(q0, q1, c),
            c.chunk == q0.last_chunk().spec_id()
                || exists|r: int| #[trigger] q1.readers().contains_key(r)
                    && cursor_lt(q1.readers()[r].position, c),
        ensures
            q1.start_position() == Some(c),
            valid_cursor(q1.chunks(), c),
            items_from(q1.chunks(), c) == items_from(q0.chunks(), c),
            q1.end() == q0.end(),
            q1.epoch() == next_epoch(q0.epoch()),
            q1.readers() == q0.readers(),
    {
        let (m1, m2) = choose|m1: Self, m2: Self|
            #![trigger Self::restarted(q0, m1, c), Self::cleaned(m1, m2)]
            m1.wf() && m2.wf() && Self::restarted(q0, m1, c) && Self::cleaned(m1, m2) && Self::force_cleaned(m2, q1);
        Self::lemma_restart_then_clean(q0, m1, m2, c);
        Self::lemma_force_cleaned_keeps(m2, q1);
    }

    /// Force cleanup keeps what every cursor at or after the start position reads.
    pub proof fn lemma_force_cleaned_keeps_later(m: Self, q: Self, c: Cursor, x: Cursor)
        requires
            m.wf(),
            q.wf(),
            Self::force_cleaned(m, q),
            m.start_position() == Some(c),
            valid_cursor(m.chunks(), x),
            !cursor_lt(x, c),
        ensures
            valid_cursor(q.chunks(), x),
            items_from(q.chunks(), x) == items_from(m.chunks(), x),
    {
        let a = m.chunks();
        let n = a.len() as int;
        let t = chunk_index(a, c.chunk);
        let kx = chunk_index(a, x.chunk);
        assert(a[t].spec_id() == c.chunk);
        assert(a[kx].spec_id() == x.chunk);
        if kx < t {
            assert(a[kx].spec_id() < a[t].spec_id());
        }
        if t != 0 {
            let p = a.subrange(0, 1) + a.subrange(1, t).filter(occupied_pred());
            let b = q.chunks();
            assert(b == p + a.subrange(t, n));
            let j = p.len() + (kx - t);
            assert(b[j] == a[kx]);
            lemma_chunk_index(b, j);
            assert(b.subrange(j + 1, b.len() as int) =~= a.subrange(kx + 1, n));
        }
    }

    /// Moving the start position to `c` keeps every reader at or after `c` where it stands, with
    /// what it reads.
    pub proof fn lemma_moved_start_keeps_later(q0: Self, q1: Self, c: Cursor, r: int)
        requires
            q0.wf(),
            q1.wf(),
            valid_cursor(q0.chunks(), c),
            Self::moved_start(q0, q1, c),
            q1.readers().contains_key(r),
            !cursor_lt(q1.readers()[r].position, c),
        ensures
            q1.readers() == q0.readers(),
            Self::effective_position(q1, q1.readers()[r]) == q1.readers()[r].position,
            valid_cursor(q1.chunks(), q1.readers()[r].position),
            items_from(q1.chunks(), q1.readers()[r].position) == items_from(q0.chunks(), q1.readers()[r].position),
    {
        let (m1, m2) = choose|m1: Self, m2: Self|
            #![trigger Self::restarted(q0, m1, c), Self::cleaned(m1, m2)]
            m1.wf() && m2.wf() && Self::restarted(q0, m1, c) && Self::cleaned(m1, m2) && Self::force_cleaned(m2, q1);
        let x = q1.readers()[r].position;
        Self::lemma_restarted_items(q0, m1, c);
        let a = m1.chunks();
        let n = a.len() as int;
        let d = Self::lemma_cleaned_prefix(m1, m2);
        assert(m1.readers().contains_key(r));
        assert(valid_cursor(a, x));
        let kx = chunk_index(a, x.chunk);
        assert(a[kx].spec_id() == x.chunk);
        crate::cursor::lemma_occupancy_positive(m1.readers(), r);
        assert(kx >= d);
        lemma_splice(a, 0, d, kx);
        assert(a.subrange(0, 0) + a.subrange(d, n) =~= m2.chunks());
        assert(valid_cursor(m2.chunks(), x) && items_from(m2.chunks(), x) == items_from(a, x));
        match m2.start_position() {
            Some(s) => {
                assert(s == c);
                Self::lemma_force_cleaned_keeps_later(m2, q1, c, x);
            },
            None => {
                assert(q1.chunks() == m2.chunks());
            },
        }
    }

    /// Counting is determined: the same counters moved on in the same state, with the same readers,
    /// leave the same state.
    pub proof fn lemma_counted_determined(a: Self, b: Self, b2: Self, entered: Set<int>, read: Set<int>)
        requires
            a.wf(),
            b.wf(),
            b2.wf(),
            Self::counted(a, b, entered, read),
            Self::counted(a, b2, entered, read),
            b.readers() == b2.readers(),
            b.next_reader_id() == b2.next_reader_id(),
        ensures
            Self::same_state(b, b2),
    {
        Self::lemma_same_state_by_parts(b, b2);
    }

    /// Counting and cleaning is determined: the same counters moved on in the same state, with the
    /// same readers, leave the same state.
    pub proof fn lemma_counted_and_cleaned_determined(a: Self, b: Self, b2: Self, entered: Set<int>, read: Set<int>)
        requires
            a.wf(),
            b.wf(),
            b2.wf(),
            Self::counted_and_cleaned(a, b, entered, read),
            Self::counted_and_cleaned(a, b2, entered, read),
            b.readers() == b2.readers(),
            b.next_reader_id() == b2.next_reader_id(),
        ensures
            Self::same_state(b, b2),
    {
        let m = choose|m: Self| #![trigger Self::counted(a, m, entered, read)]
            m.wf() && Self::counted(a, m, entered, read) && Self::cleaned(m, b);
        let m2 = choose|m: Self| #![trigger Self::counted(a, m, entered, read)]
            m.wf() && Self::counted(a, m, entered, read) && Self::cleaned(m, b2);
        Self::lemma_cleaned_prefix(m, b);
        Self::lemma_cleaned_prefix(m2, b2);
        Self::lemma_counted_determined(a, m, m2, entered, read);
        Self::lemma_cleaned_determined(m, m2, b, b2);
    }

    /// Agreeing in everything kept is transitive.
    pub proof fn lemma_same_state_trans(a: Self, b: Self, c: Self)
        requires
            Self::same_state(a, b),
            Self::same_state(b, c),
        ensures
            Self::same_state(a, c),
    {
        assert forall|k: int| 0 <= k < a.chunks().len() implies same_chunk(#[trigger] a.chunks()[k], c.chunks()[k]) by {
            assert(same_chunk(a.chunks()[k], b.chunks()[k]));
            assert(same_chunk(b.chunks()[k], c.chunks()[k]));
        }
    }

    /// Moving the start position is determined: from the same state it leaves the same state.
    pub proof fn lemma_restarted_determined(a: Self, a2: Self, b: Self, b2: Self, c: Cursor)
        requires
            a.wf(),
            a2.wf(),
            b.wf(),
            b2.wf(),
            Self::same_state(a, a2),
            Self::restarted(a, b, c),
            Self::restarted(a2, b2, c),
        ensures
            Self::same_state(b, b2),
    {
        assert forall|k: int| 0 <= k < b.chunks().len() implies {
            &&& (#[trigger] b.chunks()[k]).spec_items() == b2.chunks()[k].spec_items()
            &&& b.chunks()[k].spec_id() == b2.chunks()[k].spec_id()
            &&& b.chunks()[k].spec_capacity() == b2.chunks()[k].spec_capacity()
            &&& b.chunks()[k].spec_entered() == b2.chunks()[k].spec_entered()
            &&& b.chunks()[k].spec_read() == b2.chunks()[k].spec_read()
        } by {
            assert(same_chunk(a.chunks()[k], a2.chunks()[k]));
        }
        assert(same_chunk(a.chunks()[0], a2.chunks()[0]));
        Self::lemma_same_state_by_parts(b, b2);
    }

    /// Force cleanup is determined: from the same state it leaves the same state.
    #[verifier::rlimit(40)]
    pub proof fn lemma_force_cleaned_determined(a: Self, a2: Self, b: Self, b2: Self)
        requires
            a.wf(),
            a2.wf(),
            b.wf(),
            b2.wf(),
            Self::same_state(a, a2),
            Self::force_cleaned(a, b),
            Self::force_cleaned(a2, b2),
        ensures
            Self::same_state(b, b2),
    {
        let m = a.chunks();
        let m2 = a2.chunks();
        let n = m.len() as int;
        assert(b.chunks().len() == b2.chunks().len() && forall|k: int| 0 <= k < b.chunks().len()
            ==> same_chunk(#[trigger] b.chunks()[k], b2.chunks()[k])) by {
            match a.start_position() {
                None => {
                    assert forall|k: int| 0 <= k < b.chunks().len() implies
                        same_chunk(#[trigger] b.chunks()[k], b2.chunks()[k]) by {
                        assert(same_chunk(m[k], m2[k]));
                    }
                },
                Some(c) => {
                    let t = chunk_index(m, c.chunk);
                    assert(0 <= t < n);
                    assert(same_chunk(m[t], m2[t]));
                    lemma_chunk_index(m2, t);
                    assert(chunk_index(m2, c.chunk) == t);
                    if t == 0 {
                        assert forall|k: int| 0 <= k < b.chunks().len() implies
                            same_chunk(#[trigger] b.chunks()[k], b2.chunks()[k]) by {
                            assert(same_chunk(m[k], m2[k]));
                        }
                    } else {
                        let x = m.subrange(1, t);
                        let y = m2.subrange(1, t);
                        assert forall|k: int| 0 <= k < x.len() implies same_chunk(#[trigger] x[k], y[k]) by {
                            assert(x[k] == m[k + 1]);
                            assert(y[k] == m2[k + 1]);
                            assert(same_chunk(m[k + 1], m2[k + 1]));
                        }
                        lemma_filter_same(x, y);
                        let fx = x.filter(occupied_pred());
                        let fy = y.filter(occupied_pred());
                        let l = fx.len() as int;
                        assert forall|k: int| 0 <= k < b.chunks().len() implies
                            same_chunk(#[trigger] b.chunks()[k], b2.chunks()[k]) by {
                            if k == 0 {
                                assert(same_chunk(m[0], m2[0]));
                            } else if k < 1 + l {
                                assert(b.chunks()[k] == fx[k - 1]);
                                assert(b2.chunks()[k] == fy[k - 1]);
                            } else {
                                assert(b.chunks()[k] == m[k - 1 - l + t]);
                                assert(b2.chunks()[k] == m2[k - 1 - l + t]);
                                assert(same_chunk(m[k - 1 - l + t], m2[k - 1 - l + t]));
                            }
                        }
                    }
                },
            }
        }
        assert(same_chunk(b.chunks()[0], b2.chunks()[0]));
        Self::lemma_same_state_by_parts(b, b2);
    }

    /// Moving the start position to `c` and freeing what no reader needs is determined: from the
    /// same state it leaves the same state.
    pub proof fn lemma_moved_start_determined(a: Self, a2: Self, b: Self, b2: Self, c: Cursor)
        requires
            a.wf(),
            a2.wf(),
            b.wf(),
            b2.wf(),
            Self::same_state(a, a2),
            Self::moved_start(a, b, c),
            Self::moved_start(a2, b2, c),
        ensures
            Self::same_state(b, b2),
    {
        let (m1, m2) = choose|m1: Self, m2: Self|
            #![trigger Self::restarted(a, m1, c), Self::cleaned(m1, m2)]
            m1.wf() && m2.wf() && Self::restarted(a, m1, c) && Self::cleaned(m1, m2) && Self::force_cleaned(m2, b);
        let (p1, p2) = choose|m1: Self, m2: Self|
            #![trigger Self::restarted(a2, m1, c), Self::cleaned(m1, m2)]
            m1.wf() && m2.wf() && Self::restarted(a2, m1, c) && Self::cleaned(m1, m2) && Self::force_cleaned(m2, b2);
        Self::lemma_restarted_determined(a, a2, m1, p1, c);
        Self::lemma_cleaned_determined(m1, p1, m2, p2);
        Self::lemma_force_cleaned_determined(m2, p2, b, b2);
    }

    /// After moving the start position to `c`, cleanup keeps the chunk of `c`, when `c` is in the
    /// last chunk or some reader stands before it.
    #[verifier::rlimit(60)]
    proof fn lemma_restart_then_clean(q0: Self, m1: Self, m2: Self, c: Cursor)
        requires
            q0.wf(),
            m1.wf(),
            m2.wf(),
            valid_cursor(q0.chunks(), c),
            Self::restarted(q0, m1, c),
            Self::cleaned(m1, m2),
            c.chunk == q0.last_chunk().spec_id()
                || exists|r: int| #[trigger] m2.readers().contains_key(r)
                    && cursor_lt(m2.readers()[r].position, c),
        ensures
            m2.start_position() == Some(c),
            valid_cursor(m2.chunks(), c),
            items_from(m2.chunks(), c) == items_from(q0.chunks(), c),
            m2.last_chunk().spec_id() == q0.last_chunk().spec_id(),
            m2.last_chunk().spec_items() == q0.last_chunk().spec_items(),
            m2.epoch() == next_epoch(q0.epoch()),
            m2.readers() == q0.readers(),
    {
        Self::lemma_restarted_items(q0, m1, c);
        let a = m1.chunks();
        let n = a.len();
        let d = Self::lemma_cleaned_prefix(m1, m2);
        let t = chunk_index(a, c.chunk);
        assert(a[t].spec_id() == c.chunk);
        if c.chunk != q0.last_chunk().spec_id() {
            let r = choose|r: int| #[trigger] m2.readers().contains_key(r) && cursor_lt(m2.readers()[r].position, c);
            let pos = m1.readers()[r].position;
            let kr = chunk_index(a, pos.chunk);
            assert(a[kr].spec_id() == pos.chunk);
            crate::cursor::lemma_occupancy_positive(m1.readers(), r);
            if kr > t {
                assert(a[t].spec_id() < a[kr].spec_id());
            }
            assert(kr >= d);
        } else {
            lemma_chunk_index(a, n - 1);
        }
        assert(t >= d);
        assert forall|k: int| 0 <= k < d implies #[trigger] a[k].spec_id() != c.chunk by {
            assert(a[k].spec_id() < a[t].spec_id());
        }
        assert(m2.start_position() == Some(c));
        Self::lemma_cleaned(m1, m2);
        assert(m2.chunks()[t - d] == a[t]);
        lemma_chunk_index(m2.chunks(), t - d);
        assert(valid_cursor(m2.chunks(), c));
        assert(m2.last_chunk() == m1.last_chunk());
        assert(m1.last_chunk().spec_id() == q0.last_chunk().spec_id());
        assert(m1.last_chunk().spec_items() == q0.last_chunk().spec_items());
        assert(m2.epoch() == m1.epoch());
    }

    /// Frees all completely read chunks.
    pub fn cleanup(&mut self)
        requires
            old(self).wf(),
        ensures
            final(self).wf(),
            Self::cleaned(*old(self), *final(self)),
            final(self).spec_total_capacity() <= old(self).spec_total_capacity(),
            forall|r: int| #[trigger] final(self).readers().contains_key(r) ==>
                Self::unread_kept(*old(self), *final(self), r),
            final(self).starts_occupied(),
            final(self).readers() == old(self).readers(),
            exists|d: int| {
                &&& 0 <= d < old(self).chunks().len()
                &&& final(self).chunks() == old(self).chunks().subrange(d, old(self).chunks().len() as int)
                &&& forall|k: int| 0 <= k < d ==> occupancy(old(self).readers(), #[trigger] old(self).chunks()[k].spec_id()) == 0
            },
    {
        self.cleanup_impl();
        proof {
            crate::laws::lemma_cleaned_front_occupied(*old(self), *self);
            crate::laws::law_cleanup_frees_only_unoccupied_chunks(*old(self), *self);
            Self::lemma_cleaned(*old(self), *self);
            Self::lemma_same_items(*old(self), *old(self));
            assert(Self::kept_after(*old(self), *self));
            assert forall|r: int| #[trigger] self.readers().contains_key(r) implies
                Self::unread_kept(*old(self), *self, r) by {
                Self::lemma_kept_after_unread(*old(self), *self, r);
            }
        }
    }

    /// Makes a queue whose first chunk has capacity `MIN_CHUNK_SIZE`.
    pub fn new() -> (r: Self)
        requires
            settings_valid::<S>(),
        ensures
            r.wf(),
            r.chunks().len() == 1,
            r.chunks()[0].spec_items() == Seq::<T>::empty(),
            r.chunks()[0].spec_capacity() == S::MIN_CHUNK_SIZE,
            r.chunks()[0].spec_entered() == 0,
            r.chunks()[0].spec_read() == 0,
            r.epoch() == 0,
            r.start_position() is None,
            r.readers() == Map::<int, ReaderView>::empty(),
            r.spec_total_capacity() == S::MIN_CHUNK_SIZE,
            r.penult_chunk_size() == 0,
            r.chunk_id_counter() == 0,
    {
        Self::with_capacity(S::MIN_CHUNK_SIZE)
    }

    /// Returns total chunks capacity.
    pub fn total_capacity(&self) -> (r: usize)
        requires
            self.wf(),
        ensures
            r == sum_capacity(self.chunks()),
    {
        self.list.total_capacity
    }

    /// Returns last/active chunk capacity.
    pub fn chunk_capacity(&self) -> (r: usize)
        requires
            self.wf(),
        ensures
            r == self.last_chunk().spec_capacity(),
    {
        let n = self.list.chunks.len();
        self.list.chunks[n - 1].capacity()
    }

    /// The capacity the next chunk gets, when one is added by a push.
    pub fn next_chunk_capacity(&self) -> (r: usize)
        requires
            self.wf(),
        ensures
            r == Self::next_chunk_size(*self),
    {
        proof { Self::lemma_next_chunk_size_bound(*self); }
        let n = self.list.chunks.len();
        let cap = self.list.chunks[n - 1].capacity();
        if self.list.penult_chunk_size as usize == cap {
            let doubled: u64 = cap as u64 * 2;
            if doubled <= S::MAX_CHUNK_SIZE as u64 {
                doubled as usize
            } else {
                S::MAX_CHUNK_SIZE as usize
            }
        } else {
            cap
        }
    }

    /// Number of chunks in the queue.
    pub fn chunks_count(&self) -> (r: usize)
        requires
            self.wf(),
        ensures
            r == self.chunks().len(),
    {
        self.list.chunks.len()
    }

    /// The capacity of each chunk, first to last.
    pub fn chunk_capacities(&self) -> (r: Vec<usize>)
        requires
            self.wf(),
        ensures
            r@.len() == self.chunks().len(),
            forall|k: int| 0 <= k < r@.len() ==> r@[k] == self.chunks()[k].spec_capacity(),
    {
        let mut r: Vec<usize> = Vec::new();
        let n = self.list.chunks.len();
        for i in 0..n
            invariant
                n == self.chunks().len(),
                r@.len() == i,
                forall|k: int| 0 <= k < i ==> r@[k] == self.chunks()[k].spec_capacity(),
        {
            r.push(self.list.chunks[i].capacity());
        }
        r
    }

    /// The number of items in each chunk, first to last.
    pub fn chunk_lens(&self) -> (r: Vec<usize>)
        requires
            self.wf(),
        ensures
            r@.len() == self.chunks().len(),
            forall|k: int| 0 <= k < r@.len() ==> r@[k] == self.chunks()[k].spec_len(),
    {
        let mut r: Vec<usize> = Vec::new();
        let n = self.list.chunks.len();
        for i in 0..n
            invariant
                n == self.chunks().len(),
                r@.len() == i,
                self.chunks_wf(),
                forall|k: int| 0 <= k < i ==> r@[k] == self.chunks()[k].spec_len(),
        {
            proof { self.chunks()[i as int].lemma_wf(); }
            r.push(self.list.chunks[i].chunk_state().len() as usize);
        }
        r
    }
}

} // verus!
