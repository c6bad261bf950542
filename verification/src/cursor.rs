use vstd::prelude::*;

verus! {

/// A read position: a chunk, named by its id, and an index inside that chunk.
#[derive(Clone, Copy, PartialEq, Eq, Structural, Debug)]
pub struct Cursor {
    /// The id of the chunk.
    pub chunk: usize,
    /// The in-chunk index.
    pub index: usize,
}

/// `a` comes strictly before `b`: an older chunk, or the same chunk at a smaller index.
pub open spec fn cursor_lt(a: Cursor, b: Cursor) -> bool {
    a.chunk < b.chunk || (a.chunk == b.chunk && a.index < b.index)
}

impl Cursor {
    /// Whether `self` comes strictly before `other`.
    pub fn lt(&self, other: &Cursor) -> (r: bool)
        ensures
            r == cursor_lt(*self, *other),
    {
        if self.chunk < other.chunk {
            return true;
        }
        if self.chunk > other.chunk {
            return false;
        }
        self.index < other.index
    }
}

/// What the queue remembers of a subscribed reader: where it stands, and the start-position epoch
/// it saw last.
pub struct ReaderView {
    pub position: Cursor,
    pub epoch: u32,
}

/// How many of `readers` stand in the chunk with id `id`.
pub open spec fn occupancy(readers: Map<int, ReaderView>, id: usize) -> nat {
    readers.dom().filter(|r: int| readers[r].position.chunk == id).len()
}

/// Adding a reader in chunk `c` adds one to that chunk's occupancy and leaves the others.
pub proof fn lemma_occupancy_insert(readers: Map<int, ReaderView>, r: int, v: ReaderView, id: usize)
    requires
        readers.dom().finite(),
        !readers.dom().contains(r),
    ensures
        occupancy(readers.insert(r, v), id) == occupancy(readers, id) + if v.position.chunk == id { 1nat } else { 0nat },
{
    let m2 = readers.insert(r, v);
    let f1 = |k: int| readers[k].position.chunk == id;
    let f2 = |k: int| m2[k].position.chunk == id;
    let s1 = readers.dom().filter(f1);
    let s2 = m2.dom().filter(f2);
    readers.dom().lemma_len_filter(f1);
    if v.position.chunk == id {
        assert(s2 =~= s1.insert(r));
    } else {
        assert(s2 =~= s1);
    }
}

/// Removing a reader in chunk `c` takes one from that chunk's occupancy and leaves the others.
pub proof fn lemma_occupancy_remove(readers: Map<int, ReaderView>, r: int, id: usize)
    requires
        readers.dom().finite(),
        readers.dom().contains(r),
    ensures
        occupancy(readers.remove(r), id) + (if readers[r].position.chunk == id { 1nat } else { 0nat })
            == occupancy(readers, id),
{
    let m2 = readers.remove(r);
    let f1 = |k: int| readers[k].position.chunk == id;
    let f2 = |k: int| m2[k].position.chunk == id;
    let s1 = readers.dom().filter(f1);
    let s2 = m2.dom().filter(f2);
    readers.dom().lemma_len_filter(f1);
    if readers[r].position.chunk == id {
        assert(s2 =~= s1.remove(r));
    } else {
        assert(s2 =~= s1);
    }
}

/// Moving a reader to chunk `v.position.chunk` changes only the occupancy of the chunks it left
/// and entered.
pub proof fn lemma_occupancy_update(readers: Map<int, ReaderView>, r: int, v: ReaderView, id: usize)
    requires
        readers.dom().finite(),
        readers.dom().contains(r),
    ensures
        occupancy(readers.insert(r, v), id) + (if readers[r].position.chunk == id { 1nat } else { 0nat })
            == occupancy(readers, id) + (if v.position.chunk == id { 1nat } else { 0nat }),
{
    lemma_occupancy_remove(readers, r, id);
    lemma_occupancy_insert(readers.remove(r), r, v, id);
    assert(readers.remove(r).insert(r, v) =~= readers.insert(r, v));
}

/// A chunk holds no more readers than there are.
pub proof fn lemma_occupancy_bound(readers: Map<int, ReaderView>, id: usize)
    requires
        readers.dom().finite(),
    ensures
        occupancy(readers, id) <= readers.dom().len(),
{
    let f = |k: int| readers[k].position.chunk == id;
    vstd::set_lib::lemma_len_subset(readers.dom().filter(f), readers.dom());
}

/// A chunk holds fewer readers than there are, when some reader stands elsewhere.
pub proof fn lemma_occupancy_bound_strict(readers: Map<int, ReaderView>, r: int, id: usize)
    requires
        readers.dom().finite(),
        readers.dom().contains(r),
        readers[r].position.chunk != id,
    ensures
        occupancy(readers, id) < readers.dom().len(),
{
    let f = |k: int| readers[k].position.chunk == id;
    vstd::set_lib::lemma_len_subset(readers.dom().filter(f), readers.dom().remove(r));
}

/// A chunk where some reader stands has a positive occupancy.
pub proof fn lemma_occupancy_positive(readers: Map<int, ReaderView>, r: int)
    requires
        readers.dom().finite(),
        readers.dom().contains(r),
    ensures
        occupancy(readers, readers[r].position.chunk) > 0,
{
    let id = readers[r].position.chunk;
    let f = |k: int| readers[k].position.chunk == id;
    readers.dom().lemma_len_filter(f);
    assert(readers.dom().filter(f).contains(r));
}

} // verus!
