//! A pool of fixed-size byte buffers, recycled between connections.
use vstd::prelude::*;

use slab::Slab;

verus! {

/// Size in bytes of every buffer in the pool.
pub const BUFFER_POOL_ITEM_SIZE: usize = 2048;

#[verifier::external_type_specification]
#[verifier::external_body]
#[verifier::reject_recursive_types(T)]
pub struct ExSlab<T>(Slab<T>);

/// Buffers stored by key.
pub type BufferSlab = Slab<Box<[u8]>>;

/// The buffers a slab holds, by key.
pub uninterp spec fn buffer_slab_items(s: BufferSlab) -> Map<usize, Seq<u8>>;

/// The key that a slab's next insertion takes.
pub uninterp spec fn buffer_slab_next_key(s: BufferSlab) -> usize;

/// `Slab::with_capacity`: an empty slab, whose first insertion takes key 0.
#[verifier::external_body]
fn buffer_slab_with_capacity(capacity: usize) -> (store: BufferSlab)
    ensures
        buffer_slab_items(store).is_empty(),
        buffer_slab_next_key(store) == 0,
{
    Slab::with_capacity(capacity)
}

/// `Slab::insert`: stores `buf` under the slab's next key, which was vacant,
/// and returns the key.
#[verifier::external_body]
fn buffer_slab_insert(s: &mut BufferSlab, buf: Box<[u8]>) -> (key: usize)
    ensures
        key == buffer_slab_next_key(*old(s)),
        !buffer_slab_items(*old(s)).dom().contains(key),
        buffer_slab_items(*final(s)) == buffer_slab_items(*old(s)).insert(key, buf@),
{
    s.insert(buf)
}

/// `Slab`'s `Index`: the buffer stored under `key`.
#[verifier::external_body]
fn buffer_slab_get(s: &BufferSlab, key: usize) -> (b: &[u8])
    requires
        buffer_slab_items(*s).dom().contains(key),
    ensures
        b@ == buffer_slab_items(*s)[key],
{
    &s[key]
}

/// `Slab`'s `IndexMut`: the buffer stored under `key`, to write in place.
#[verifier::external_body]
fn buffer_slab_get_mut(s: &mut BufferSlab, key: usize) -> (b: &mut [u8])
    requires
        buffer_slab_items(*old(s)).dom().contains(key),
    ensures
        b@ == buffer_slab_items(*old(s))[key],
        final(b)@.len() == b@.len(),
        buffer_slab_items(*final(s)) == buffer_slab_items(*old(s)).insert(key, final(b)@),
        buffer_slab_next_key(*final(s)) == buffer_slab_next_key(*old(s)),
{
    &mut s[key]
}

/// `Vec::into_boxed_slice`.
#[verifier::external_body]
fn boxed_bytes(v: Vec<u8>) -> (b: Box<[u8]>)
    ensures
        b@ == v@,
{
    v.into_boxed_slice()
}

/// A zero-filled buffer of `BUFFER_POOL_ITEM_SIZE` bytes.
pub open spec fn fresh_buffer() -> Seq<u8> {
    Seq::new(BUFFER_POOL_ITEM_SIZE as nat, |i: int| 0u8)
}

/// Byte buffers under stable indices, with a stack of those free for reuse.
pub struct BufferPool {
    pool: Vec<usize>,
    alloc: BufferSlab,
}

impl BufferPool {
    /// Indices of the buffers free for reuse; the last is handed out first.
    pub closed spec fn free(&self) -> Seq<usize> {
        self.pool@
    }

    /// Every buffer allocated so far, by index.
    pub closed spec fn buffers(&self) -> Map<usize, Seq<u8>> {
        buffer_slab_items(self.alloc)
    }

    /// The index a newly allocated buffer gets.
    pub closed spec fn next_index(&self) -> usize {
        buffer_slab_next_key(self.alloc)
    }

    /// Free indices name allocated buffers, and every buffer has the pool's size.
    pub open spec fn wf(&self) -> bool {
        &&& forall|i: int|
            0 <= i < self.free().len() ==> self.buffers().dom().contains(#[trigger] self.free()[i])
        &&& forall|k: usize|
            #[trigger] self.buffers().dom().contains(k) ==> self.buffers()[k].len()
                == BUFFER_POOL_ITEM_SIZE
    }

    /// `new` is this pool after it handed out `index`: the most recently
    /// returned buffer when one is free, and otherwise a new zero-filled
    /// buffer under the next index, which was vacant.
    pub open spec fn reused_or_allocated(&self, new: &Self, index: usize) -> bool {
        if self.free().len() > 0 {
            &&& index == self.free().last()
            &&& new.free() == self.free().drop_last()
            &&& new.buffers() == self.buffers()
            &&& new.next_index() == self.next_index()
        } else {
            &&& index == self.next_index()
            &&& !self.buffers().dom().contains(index)
            &&& new.buffers() == self.buffers().insert(index, fresh_buffer())
            &&& new.free() == self.free()
        }
    }

    /// `new` is this pool after `index` was made free: the index is pushed on
    /// the free stack and nothing else changes.
    pub open spec fn returned(&self, new: &Self, index: usize) -> bool {
        &&& new.free() == self.free().push(index)
        &&& new.buffers() == self.buffers()
        &&& new.next_index() == self.next_index()
    }

    /// An empty pool.
    pub fn new(inital_capacity: usize) -> (p: Self)
        ensures
            p.wf(),
            p.free() == Seq::<usize>::empty(),
            p.buffers().is_empty(),
            p.next_index() == 0,
    {
        let p = BufferPool {
            pool: Vec::with_capacity(inital_capacity),
            alloc: buffer_slab_with_capacity(inital_capacity),
        };
        assert(p.free() =~= Seq::<usize>::empty());
        p
    }

    /// The buffer at `index`, to write in place.
    pub fn get_mut(&mut self, index: usize) -> (b: &mut [u8])
        requires
            old(self).buffers().dom().contains(index),
        ensures
            b@ == old(self).buffers()[index],
            final(b)@.len() == b@.len(),
            final(self).buffers() == old(self).buffers().insert(index, final(b)@),
            final(self).free() == old(self).free(),
            final(self).next_index() == old(self).next_index(),
            old(self).wf() ==> final(self).wf(),
    {
        let b = buffer_slab_get_mut(&mut self.alloc, index);
        proof {
            let bufs1 = old(self).buffers().insert(index, final(b)@);
            if old(self).wf() {
                assert forall|k: usize| #[trigger] bufs1.dom().contains(k) implies bufs1[k].len()
                    == BUFFER_POOL_ITEM_SIZE by {
                    if k != index {
                        assert(old(self).buffers().dom().contains(k));
                    }
                }
                assert forall|i: int| 0 <= i < old(self).free().len() implies bufs1.dom().contains(
                    #[trigger] old(self).free()[i],
                ) by {
                    assert(old(self).buffers().dom().contains(old(self).free()[i]));
                }
            }
        }
        b
    }

    /// The buffer at `index`.
    pub fn get(&self, index: usize) -> (b: &[u8])
        requires
            self.buffers().dom().contains(index),
        ensures
            b@ == self.buffers()[index],
    {
        buffer_slab_get(&self.alloc, index)
    }

    /// The buffer at `index`; the index must name an allocated buffer.
    pub fn get_unchecked(&self, index: usize) -> (b: &[u8])
        requires
            self.buffers().dom().contains(index),
        ensures
            b@ == self.buffers()[index],
    {
        self.get(index)
    }

    /// Hands out the most recently returned buffer, or allocates a new
    /// zero-filled one when none is free; returns its index.
    pub fn reuse_or_allocate(&mut self) -> (index: usize)
        ensures
            old(self).reused_or_allocated(final(self), index),
            old(self).wf() ==> final(self).wf(),
            old(self).wf() ==> final(self).buffers().dom().contains(index),
    {
        match self.pool.pop() {
            Some(index) => {
                proof {
                    if old(self).wf() {
                        assert forall|i: int| 0 <= i < self.free().len() implies self.buffers().dom().contains(
                            #[trigger] self.free()[i],
                        ) by {
                            assert(self.free()[i] == old(self).free()[i]);
                        }
                        assert(old(self).buffers().dom().contains(old(self).free()[old(self).free().len() - 1]));
                    }
                }
                index
            },
            None => {
                let buf = boxed_bytes(vec![0u8; BUFFER_POOL_ITEM_SIZE]);
                assert(buf@ =~= fresh_buffer());
                buffer_slab_insert(&mut self.alloc, buf)
            },
        }
    }

    /// Allocates `count` new zero-filled buffers, each under an index that was
    /// vacant, and makes them free for reuse in the order allocated.
    pub fn allocate_range(&mut self, count: usize)
        ensures
            final(self).free().len() == old(self).free().len() + count,
            final(self).free().take(old(self).free().len() as int) == old(self).free(),
            forall|i: int|
                old(self).free().len() <= i < final(self).free().len() ==> !old(self).buffers().dom().contains(
                    #[trigger] final(self).free()[i],
                ),
            forall|i: int, j: int|
                old(self).free().len() <= i < j < final(self).free().len() ==> final(self).free()[i]
                    != final(self).free()[j],
            final(self).buffers() == old(self).buffers().union_prefer_right(
                Map::new(
                    |k: usize| final(self).free().skip(old(self).free().len() as int).contains(k),
                    |k: usize| fresh_buffer(),
                ),
            ),
            old(self).wf() ==> final(self).wf(),
    {
        let ghost f0 = self.free();
        let ghost b0 = self.buffers();
        let mut n: usize = 0;
        while n < count
            invariant
                n <= count,
                self.free().len() == f0.len() + n,
                self.free().take(f0.len() as int) == f0,
                forall|i: int|
                    f0.len() <= i < self.free().len() ==> !b0.dom().contains(#[trigger] self.free()[i]),
                forall|i: int|
                    f0.len() <= i < self.free().len() ==> self.buffers().dom().contains(
                        #[trigger] self.free()[i],
                    ),
                forall|i: int, j: int|
                    f0.len() <= i < j < self.free().len() ==> self.free()[i] != self.free()[j],
                self.buffers() == b0.union_prefer_right(
                    Map::new(
                        |k: usize| self.free().skip(f0.len() as int).contains(k),
                        |k: usize| fresh_buffer(),
                    ),
                ),
                (forall|i: int| 0 <= i < f0.len() ==> b0.dom().contains(#[trigger] f0[i])) ==> (
                forall|i: int|
                    0 <= i < self.free().len() ==> self.buffers().dom().contains(
                        #[trigger] self.free()[i],
                    )),
                (forall|k: usize| #[trigger] b0.dom().contains(k) ==> b0[k].len() == BUFFER_POOL_ITEM_SIZE)
                    ==> (forall|k: usize|
                    #[trigger] self.buffers().dom().contains(k) ==> self.buffers()[k].len()
                        == BUFFER_POOL_ITEM_SIZE),
            decreases count - n,
        {
            let ghost fa = self.free();
            let ghost ba = self.buffers();
            let buf = boxed_bytes(vec![0u8; BUFFER_POOL_ITEM_SIZE]);
            assert(buf@ =~= fresh_buffer());
            let index = buffer_slab_insert(&mut self.alloc, buf);
            self.pool.push(index);
            proof {
                let fb = self.free();
                assert(fb.take(f0.len() as int) =~= fa.take(f0.len() as int));
                assert(fb.skip(f0.len() as int) =~= fa.skip(f0.len() as int).push(index));
                assert forall|i: int| f0.len() <= i < fb.len() implies !b0.dom().contains(
                    #[trigger] fb[i],
                ) by {
                    if i < fa.len() {
                        assert(fb[i] == fa[i]);
                    } else {
                        if b0.dom().contains(index) {
                            assert(ba.dom().contains(index));
                        }
                    }
                }
                assert forall|i: int| f0.len() <= i < fb.len() implies self.buffers().dom().contains(
                    #[trigger] fb[i],
                ) by {
                    if i < fa.len() {
                        assert(fb[i] == fa[i]);
                    }
                }
                assert forall|i: int, j: int| f0.len() <= i < j < fb.len() implies fb[i] != fb[j] by {
                    assert(fb[i] == fa[i]);
                    if j < fa.len() {
                        assert(fb[j] == fa[j]);
                    } else {
                        assert(ba.dom().contains(fa[i]));
                    }
                }
                assert forall|k: usize| fb.skip(f0.len() as int).contains(k) == (fa.skip(
                    f0.len() as int,
                ).contains(k) || k == index) by {
                    let sa = fa.skip(f0.len() as int);
                    assert(fb.skip(f0.len() as int) == sa.push(index));
                    if sa.push(index).contains(k) && k != index {
                        let j = choose|j: int| 0 <= j < sa.push(index).len() && sa.push(index)[j] == k;
                        assert(sa[j] == k);
                    }
                    if sa.contains(k) {
                        let j = choose|j: int| 0 <= j < sa.len() && sa[j] == k;
                        assert(sa.push(index)[j] == k);
                    }
                    if k == index {
                        assert(sa.push(index)[sa.len() as int] == k);
                    }
                }
                assert(self.buffers() =~= b0.union_prefer_right(
                    Map::new(
                        |k: usize| fb.skip(f0.len() as int).contains(k),
                        |k: usize| fresh_buffer(),
                    ),
                ));
                if forall|i: int| 0 <= i < f0.len() ==> b0.dom().contains(#[trigger] f0[i]) {
                    assert forall|i: int| 0 <= i < fb.len() implies self.buffers().dom().contains(
                        #[trigger] fb[i],
                    ) by {
                        if i < fa.len() {
                            assert(fb[i] == fa[i]);
                        }
                    }
                }
                if forall|k: usize| #[trigger] b0.dom().contains(k) ==> b0[k].len() == BUFFER_POOL_ITEM_SIZE {
                    assert forall|k: usize| #[trigger] self.buffers().dom().contains(k) implies self.buffers()[k].len()
                        == BUFFER_POOL_ITEM_SIZE by {
                        if k != index {
                            assert(ba.dom().contains(k));
                        }
                    }
                }
            }
            n = n + 1;
        }
    }

    /// Makes the buffer at `index` free for reuse.
    pub fn return_to_pool(&mut self, index: usize)
        ensures
            old(self).returned(final(self), index),
            old(self).wf() && old(self).buffers().dom().contains(index) ==> final(self).wf(),
    {
        self.pool.push(index);
        proof {
            if old(self).wf() && old(self).buffers().dom().contains(index) {
                assert forall|i: int| 0 <= i < self.free().len() implies self.buffers().dom().contains(
                    #[trigger] self.free()[i],
                ) by {
                    if i < old(self).free().len() {
                        assert(self.free()[i] == old(self).free()[i]);
                    }
                }
            }
        }
    }
}

/// A buffer returned to the pool is the next one handed out, and the pool is
/// then as it was before the return.
pub proof fn lemma_return_then_reuse(
    before: BufferPool,
    returned: BufferPool,
    after: BufferPool,
    index: usize,
    reused: usize,
)
    requires
        before.returned(&returned, index),
        returned.reused_or_allocated(&after, reused),
    ensures
        reused == index,
        after.free() == before.free(),
        after.buffers() == before.buffers(),
        after.next_index() == before.next_index(),
{
    assert(before.free().push(index).drop_last() =~= before.free());
}

} // verus!
