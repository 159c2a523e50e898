use vstd::prelude::*;

use crate::align::{align_up_spec, is_pow2, lemma_align_up_pad};
use crate::block::Block;
use crate::sort::{
    lemma_permutes_keeps, lemma_twice_counted, lemma_two_positions, permutes_between, precedes, quick_sort_for_best, quick_sort_for_first, quick_sort_for_worst, sorted_between,
};

pub mod align;
pub mod block;
pub mod sort;

verus! {

/// Placement strategy: which free block serves a request.
#[derive(Debug, Clone, Copy, PartialEq, Eq, Structural)]
pub enum AllocType {
    /// The free block with the lowest start address.
    First,
    /// The smallest free block that fits.
    Best,
    /// The largest free block.
    Worst,
}

/// Why a request to the heap was refused.
#[derive(Debug, Clone, Copy, PartialEq, Eq, Structural)]
pub enum HeapError {
    /// The alignment is not a power of two.
    InvalidAlignment,
    /// No free block is large enough for the request.
    OutOfMemory,
    /// The freed range does not lie inside the managed region.
    OutOfRegion,
    /// Every slot of the free list is taken: the freed range cannot be recorded.
    BookFull,
}

/// A fixed-capacity allocator over one contiguous region, keeping its free blocks in a
/// store of 32 optional slots.
#[derive(Debug, Clone, Copy)]
pub struct Heap {
    start: usize,
    size: usize,
    book: [Option<Block>; 32],
    alloc_type: AllocType,
}

/// Absent slots come after every present one.
pub open spec fn absent_trail(s: Seq<Option<Block>>) -> bool {
    forall|i: int, j: int| 0 <= i < j < s.len() && (#[trigger] s[i]) is None ==> (#[trigger] s[j]) is None
}

/// The block lies inside the region of `size` bytes from `start`.
pub open spec fn within(b: Block, start: int, size: int) -> bool {
    start <= b.start && b.start + b.size <= start + size
}

/// Bytes skipped at the front of `b` so that the allocation starts aligned.
pub open spec fn pad_of(b: Block, align: int) -> int {
    align_up_spec(b.start as int, align) - b.start
}

/// The slot holds a block that can serve `size` bytes at alignment `align`: past the
/// alignment padding, more than `size` bytes remain, and the rounded-up size fits.
pub open spec fn fits(slot: Option<Block>, size: int, align: int) -> bool {
    match slot {
        Some(b) => b.size > pad_of(b, align) + size && pad_of(b, align) + align_up_spec(size, align)
            <= b.size,
        None => false,
    }
}

/// What is left of `b` once the aligned request has been carved from its front.
pub open spec fn carve(b: Block, size: int, align: int) -> Block {
    let end = align_up_spec(b.start as int, align) + align_up_spec(size, align);
    Block { start: end as usize, size: (b.start + b.size - end) as usize }
}

/// Slot `i` is the first slot of the store that fits the request.
pub open spec fn first_fit(s: Seq<Option<Block>>, i: int, size: int, align: int) -> bool {
    &&& 0 <= i < s.len()
    &&& fits(s[i], size, align)
    &&& forall|j: int| 0 <= j < i ==> !fits(#[trigger] s[j], size, align)
}

/// Slot `i` is the first absent slot of the store.
pub open spec fn first_absent(s: Seq<Option<Block>>, i: int) -> bool {
    &&& 0 <= i < s.len()
    &&& s[i] is None
    &&& forall|j: int| 0 <= j < i ==> (#[trigger] s[j]) is Some
}

impl Heap {
    /// Start of the managed region.
    pub closed spec fn region_start(&self) -> int {
        self.start as int
    }

    /// Size in bytes of the managed region.
    pub closed spec fn region_size(&self) -> int {
        self.size as int
    }

    /// The free-list store, slot by slot.
    pub closed spec fn free_list(&self) -> Seq<Option<Block>> {
        self.book@
    }

    /// The placement strategy chosen at initialisation.
    pub closed spec fn strategy(&self) -> AllocType {
        self.alloc_type
    }

    /// The region fits the address space, the store has its 32 slots with the absent
    /// ones last, and every free block lies inside the region.
    pub open spec fn wf(&self) -> bool {
        &&& self.region_start() + self.region_size() <= usize::MAX
        &&& self.free_list().len() == 32
        &&& absent_trail(self.free_list())
        &&& forall|i: int|
            0 <= i < 32 && (#[trigger] self.free_list()[i]) is Some ==> within(
                self.free_list()[i]->Some_0,
                self.region_start(),
                self.region_size(),
            )
    }

    /// Same region and strategy.
    pub open spec fn same_setup(&self, other: Heap) -> bool {
        &&& self.region_start() == other.region_start()
        &&& self.region_size() == other.region_size()
        &&& self.strategy() == other.strategy()
    }

    proof fn lemma_view(&self)
        ensures
            self.free_list() == self.book@,
            self.region_start() == self.start,
            self.region_size() == self.size,
            self.strategy() == self.alloc_type,
    {
    }
}

/// `h2` is `h` after serving `size` bytes at alignment `align` at address `addr`: the
/// first fitting slot is cut down to what follows the allocation.
pub open spec fn allocates(h: Heap, h2: Heap, size: int, align: int, addr: int) -> bool {
    exists|i: int|
        #![trigger h.free_list()[i]]
        first_fit(h.free_list(), i, size, align) && addr == align_up_spec(
            h.free_list()[i]->Some_0.start as int,
            align,
        ) && h2.free_list() == h.free_list().update(
            i,
            Some(carve(h.free_list()[i]->Some_0, size, align)),
        ) && h.same_setup(h2)
}

/// `h2` is `h` after the range of `size` bytes at `addr` was freed: the block is written
/// into the first absent slot, and the store is then put in the strategy's order.
pub open spec fn frees(h: Heap, h2: Heap, addr: int, size: int) -> bool {
    exists|i: int|
        #![trigger h.free_list()[i]]
        first_absent(h.free_list(), i) && permutes_between(
            h.free_list().update(i, Some(Block { start: addr as usize, size: size as usize })),
            h2.free_list(),
            0,
            31,
        ) && sorted_between(h2.free_list(), 0, 32, h.strategy()) && h.same_setup(h2)
}

/// Serves `size` bytes at alignment `align` from the first free block that fits, and
/// returns the aligned address. The block keeps what follows the allocation.
pub fn alloc_in(heap: &mut Heap, size: usize, align: usize) -> (r: Result<usize, HeapError>)
    requires
        old(heap).wf(),
    ensures
        final(heap).wf(),
        (r == Err::<usize, HeapError>(HeapError::InvalidAlignment)) <==> !is_pow2(align),
        is_pow2(align) ==> (r is Ok <==> exists|i: int|
            0 <= i < 32 && fits(#[trigger] old(heap).free_list()[i], size as int, align as int)),
        is_pow2(align) && !(exists|i: int|
            0 <= i < 32 && fits(#[trigger] old(heap).free_list()[i], size as int, align as int))
            ==> r == Err::<usize, HeapError>(HeapError::OutOfMemory),
        r is Err ==> *final(heap) == *old(heap),
        r matches Ok(a) ==> {
            &&& allocates(*old(heap), *final(heap), size as int, align as int, a as int)
            &&& old(heap).region_start() <= a < old(heap).region_start() + old(heap).region_size()
            &&& a + align_up_spec(size as int, align as int) <= old(heap).region_start()
                + old(heap).region_size()
            &&& a % align == 0
        },
{
    proof {
        heap.lemma_view();
    }
    if !(align != 0 && align & (align - 1) == 0) {
        return Err(HeapError::InvalidAlignment);
    }
    proof {
        lemma_align_up_pad(size as int, align as int);
    }
    let rem = size % align;
    if rem != 0 && size > usize::MAX - (align - rem) {
        assert forall|i: int| 0 <= i < 32 implies !fits(#[trigger] heap.book@[i], size as int, align as int) by {
            if heap.book@[i] is Some {
                let b = heap.book@[i]->Some_0;
                lemma_align_up_pad(b.start as int, align as int);
            }
        }
        return Err(HeapError::OutOfMemory);
    }
    let align_size: usize = if rem == 0 {
        size
    } else {
        size + (align - rem)
    };
    assert(align_size == align_up_spec(size as int, align as int));
    let mut i: usize = 0;
    while i < 32
        invariant
            0 <= i <= 32,
            heap.wf(),
            *heap == *old(heap),
            is_pow2(align),
            align_size == align_up_spec(size as int, align as int),
            forall|j: int| 0 <= j < i ==> !fits(#[trigger] heap.book@[j], size as int, align as int),
        decreases 32 - i,
    {
        if let Some(b) = heap.book[i] {
            proof {
                lemma_align_up_pad(b.start as int, align as int);
                assert(within(b, heap.start as int, heap.size as int));
            }
            let srem = b.start % align;
            let pad: usize = if srem == 0 {
                0
            } else {
                align - srem
            };
            assert(pad == pad_of(b, align as int));
            if b.size > pad && b.size - pad > size && b.size - pad >= align_size {
                let align_book_start = b.start + pad;
                let new_start = align_book_start + align_size;
                let new_size = b.size - pad - align_size;
                heap.book[i] = Some(Block::new(new_start, new_size));
                proof {
                    let s = old(heap).book@;
                    assert(first_fit(s, i as int, size as int, align as int));
                    assert(heap.book@ == s.update(i as int, Some(carve(b, size as int, align as int))));
                    assert(absent_trail(heap.book@)) by {
                        assert forall|x: int, y: int| 0 <= x < y < heap.book@.len() && (#[trigger] heap.book@[x]) is None implies (#[trigger] heap.book@[y]) is None by {
                            assert(s[x] is None);
                        }
                    }
                    assert forall|k: int| 0 <= k < 32 && (#[trigger] heap.book@[k]) is Some implies within(heap.book@[k]->Some_0, heap.start as int, heap.size as int) by {
                        assert(s[k] is Some);
                    }
                    heap.lemma_view();
                    assert(allocates(*old(heap), *heap, size as int, align as int, align_book_start as int));
                }
                return Ok(align_book_start);
            }
        }
        i = i + 1;
    }
    Err(HeapError::OutOfMemory)
}

/// Records the freed range of `size` bytes at `addr` in the first absent slot, then puts
/// the store in the strategy's order. Refuses a range outside the region, and a free
/// when every slot is taken.
fn dealloc(heap: &mut Heap, addr: usize, size: usize) -> (r: Result<(), HeapError>)
    requires
        old(heap).wf(),
    ensures
        final(heap).wf(),
        (r == Err::<(), HeapError>(HeapError::OutOfRegion)) <==> !within(
            Block { start: addr, size },
            old(heap).region_start(),
            old(heap).region_size(),
        ),
        (r == Err::<(), HeapError>(HeapError::BookFull)) <==> within(
            Block { start: addr, size },
            old(heap).region_start(),
            old(heap).region_size(),
        ) && forall|i: int| 0 <= i < 32 ==> (#[trigger] old(heap).free_list()[i]) is Some,
        (r is Ok) <==> within(
            Block { start: addr, size },
            old(heap).region_start(),
            old(heap).region_size(),
        ) && exists|i: int| 0 <= i < 32 && (#[trigger] old(heap).free_list()[i]) is None,
        r is Err ==> *final(heap) == *old(heap),
        r is Ok ==> frees(*old(heap), *final(heap), addr as int, size as int),
{
    proof {
        heap.lemma_view();
    }
    let freed = Block::new(addr, size);
    if addr < heap.start || addr - heap.start > heap.size || size > heap.size - (addr - heap.start) {
        return Err(HeapError::OutOfRegion);
    }
    let mut i: usize = 0;
    while i < 32 && heap.book[i].is_some()
        invariant
            0 <= i <= 32,
            *heap == *old(heap),
            forall|j: int| 0 <= j < i ==> (#[trigger] heap.book@[j]) is Some,
        decreases 32 - i,
    {
        i = i + 1;
    }
    if i == 32 {
        return Err(HeapError::BookFull);
    }
    heap.book[i] = Some(freed);
    let ghost s1 = heap.book@;
    match heap.alloc_type {
        AllocType::First => quick_sort_for_first(&mut heap.book, 0, 31),
        AllocType::Best => quick_sort_for_best(&mut heap.book, 0, 31),
        AllocType::Worst => quick_sort_for_worst(&mut heap.book, 0, 31),
    }
    proof {
        let s = old(heap).book@;
        let s2 = heap.book@;
        assert(first_absent(s, i as int));
        assert(s1 == s.update(i as int, Some(freed)));
        assert forall|x: int, y: int| 0 <= x < y < s2.len() && (#[trigger] s2[x]) is None implies (#[trigger] s2[y]) is None by {
            assert(precedes(s2[x], s2[y], heap.alloc_type));
        }
        assert forall|k: int| 0 <= k <= 31 && (#[trigger] s1[k]) is Some implies within(s1[k]->Some_0, heap.start as int, heap.size as int) by {
            if k != i {
                assert(s1[k] == s[k]);
            }
        }
        lemma_permutes_keeps(s1, s2, 0, 31, |x: Option<Block>| x is Some ==> within(x->Some_0, heap.start as int, heap.size as int));
        heap.lemma_view();
        assert(frees(*old(heap), *heap, addr as int, size as int));
    }
    Ok(())
}

impl Heap {
    /// A heap that manages no region yet: every slot absent.
    pub fn empty() -> (r: Heap)
        ensures
            r.wf(),
            r.region_start() == 0,
            r.region_size() == 0,
            r.strategy() == AllocType::First,
            forall|i: int| 0 <= i < 32 ==> (#[trigger] r.free_list()[i]) is None,
    {
        Heap { start: 0, size: 0, book: [None; 32], alloc_type: AllocType::First }
    }

    /// Takes over the region of `heap_size` bytes from `heap_start`, which becomes the one
    /// free block, and fixes the placement strategy. Done once, on an empty heap.
    pub fn init(&mut self, allocator_type: AllocType, heap_start: usize, heap_size: usize)
        requires
            old(self).wf(),
            forall|i: int| 0 <= i < 32 ==> (#[trigger] old(self).free_list()[i]) is None,
            heap_size > 0,
            heap_start + heap_size <= usize::MAX,
        ensures
            final(self).wf(),
            final(self).region_start() == heap_start,
            final(self).region_size() == heap_size,
            final(self).strategy() == allocator_type,
            final(self).free_list() == old(self).free_list().update(
                0,
                Some(Block { start: heap_start, size: heap_size }),
            ),
    {
        self.alloc_type = allocator_type;
        self.start = heap_start;
        self.size = heap_size;
        self.book[0] = Some(Block::new(heap_start, heap_size));
        proof {
            self.lemma_view();
            assert forall|x: int, y: int| 0 <= x < y < 32 && (#[trigger] self.book@[x]) is None implies (#[trigger] self.book@[y]) is None by {
                assert(old(self).book@[y] is None);
            }
            assert forall|k: int| 0 <= k < 32 && (#[trigger] self.book@[k]) is Some implies within(self.book@[k]->Some_0, heap_start as int, heap_size as int) by {
                if k != 0 {
                    assert(old(self).book@[k] is None);
                }
            }
        }
    }

    /// Serves `size` bytes at alignment `align`; see [`alloc_in`].
    pub fn allocate(&mut self, size: usize, align: usize) -> (r: Result<usize, HeapError>)
        requires
            old(self).wf(),
        ensures
            final(self).wf(),
            (r == Err::<usize, HeapError>(HeapError::InvalidAlignment)) <==> !is_pow2(align),
            is_pow2(align) ==> (r is Ok <==> exists|i: int|
                0 <= i < 32 && fits(#[trigger] old(self).free_list()[i], size as int, align as int)),
            is_pow2(align) && !(exists|i: int|
                0 <= i < 32 && fits(#[trigger] old(self).free_list()[i], size as int, align as int))
                ==> r == Err::<usize, HeapError>(HeapError::OutOfMemory),
            r is Err ==> *final(self) == *old(self),
            r matches Ok(a) ==> {
                &&& allocates(*old(self), *final(self), size as int, align as int, a as int)
                &&& old(self).region_start() <= a < old(self).region_start() + old(self).region_size()
                &&& a + align_up_spec(size as int, align as int) <= old(self).region_start()
                    + old(self).region_size()
                &&& a % align == 0
            },
    {
        alloc_in(self, size, align)
    }

    /// Gives back the `size` bytes at `addr` that an allocation with this size and
    /// alignment returned. The alignment is not needed to record the range.
    pub fn deallocate(&mut self, addr: usize, size: usize, _align: usize) -> (r: Result<(), HeapError>)
        requires
            old(self).wf(),
        ensures
            final(self).wf(),
            (r == Err::<(), HeapError>(HeapError::OutOfRegion)) <==> !within(
                Block { start: addr, size },
                old(self).region_start(),
                old(self).region_size(),
            ),
            (r == Err::<(), HeapError>(HeapError::BookFull)) <==> within(
                Block { start: addr, size },
                old(self).region_start(),
                old(self).region_size(),
            ) && forall|i: int| 0 <= i < 32 ==> (#[trigger] old(self).free_list()[i]) is Some,
            (r is Ok) <==> within(
                Block { start: addr, size },
                old(self).region_start(),
                old(self).region_size(),
            ) && exists|i: int| 0 <= i < 32 && (#[trigger] old(self).free_list()[i]) is None,
            r is Err ==> *final(self) == *old(self),
            r is Ok ==> frees(*old(self), *final(self), addr as int, size as int),
    {
        dealloc(self, addr, size)
    }

    /// Slot `i` of the free-list store.
    pub fn slot(&self, i: usize) -> (r: Option<Block>)
        requires
            i < 32,
        ensures
            r == self.free_list()[i as int],
    {
        self.book[i]
    }

    /// Start of the managed region.
    pub fn heap_start(&self) -> (r: usize)
        ensures
            r == self.region_start(),
    {
        self.start
    }

    /// Size in bytes of the managed region.
    pub fn heap_size(&self) -> (r: usize)
        ensures
            r == self.region_size(),
    {
        self.size
    }

    /// The placement strategy in force.
    pub fn alloc_type(&self) -> (r: AllocType)
        ensures
            r == self.strategy(),
    {
        self.alloc_type
    }
}

/// The ranges `[a, a_end)` and `[b, b_end)` do not overlap.
pub open spec fn apart(a: int, a_end: int, b: int, b_end: int) -> bool {
    a_end <= b || b_end <= a
}

/// The present blocks of the store cover pairwise non-overlapping ranges.
pub open spec fn blocks_disjoint(s: Seq<Option<Block>>) -> bool {
    forall|i: int, j: int|
        0 <= i < s.len() && 0 <= j < s.len() && i != j && (#[trigger] s[i]) is Some && (#[trigger] s[j]) is Some
            ==> apart(
            s[i]->Some_0.start as int,
            s[i]->Some_0.start + s[i]->Some_0.size,
            s[j]->Some_0.start as int,
            s[j]->Some_0.start + s[j]->Some_0.size,
        )
}

/// An allocation lies inside the block that served it.
proof fn lemma_allocation_inside(b: Block, size: int, align: int)
    requires
        size >= 0,
        align > 0,
        fits(Some(b), size, align),
    ensures
        b.start <= align_up_spec(b.start as int, align),
        align_up_spec(b.start as int, align) + align_up_spec(size, align) <= b.start + b.size,
{
    lemma_align_up_pad(b.start as int, align);
}

/// An allocation from a store of non-overlapping blocks leaves the store non-overlapping,
/// and the range it hands out overlaps none of the blocks still free.
pub proof fn lemma_allocation_apart(h: Heap, h2: Heap, size: int, align: int, addr: int)
    requires
        h.wf(),
        blocks_disjoint(h.free_list()),
        size >= 0,
        align > 0,
        allocates(h, h2, size, align, addr),
    ensures
        blocks_disjoint(h2.free_list()),
        forall|k: int|
            0 <= k < h2.free_list().len() && (#[trigger] h2.free_list()[k]) is Some ==> apart(
                addr,
                addr + align_up_spec(size, align),
                h2.free_list()[k]->Some_0.start as int,
                h2.free_list()[k]->Some_0.start + h2.free_list()[k]->Some_0.size,
            ),
{
    let s = h.free_list();
    let i = choose|i: int|
        #![trigger h.free_list()[i]]
        first_fit(h.free_list(), i, size, align) && addr == align_up_spec(
            h.free_list()[i]->Some_0.start as int,
            align,
        ) && h2.free_list() == h.free_list().update(
            i,
            Some(carve(h.free_list()[i]->Some_0, size, align)),
        ) && h.same_setup(h2);
    let b = s[i]->Some_0;
    lemma_allocation_inside(b, size, align);
    lemma_align_up_pad(size, align);
    assert(within(b, h.region_start(), h.region_size()));
    let c = carve(b, size, align);
    assert(c.start == addr + align_up_spec(size, align));
    assert(c.start + c.size == b.start + b.size);
}

/// A free of a range that overlaps none of the free blocks leaves the free blocks of the
/// store non-overlapping. With the allocation step, this keeps the store non-overlapping
/// over any sequence of allocations and such frees.
pub proof fn lemma_free_keeps_disjoint(h: Heap, h2: Heap, addr: int, size: int)
    requires
        blocks_disjoint(h.free_list()),
        forall|k: int|
            0 <= k < h.free_list().len() && (#[trigger] h.free_list()[k]) is Some ==> apart(
                addr,
                addr + size,
                h.free_list()[k]->Some_0.start as int,
                h.free_list()[k]->Some_0.start + h.free_list()[k]->Some_0.size,
            ),
        0 <= addr <= usize::MAX,
        0 <= size <= usize::MAX,
        frees(h, h2, addr, size),
    ensures
        blocks_disjoint(h2.free_list()),
{
    broadcast use vstd::seq_lib::group_to_multiset_ensures;

    let s = h.free_list();
    let i0 = choose|i: int|
        #![trigger h.free_list()[i]]
        first_absent(h.free_list(), i) && permutes_between(
            h.free_list().update(i, Some(Block { start: addr as usize, size: size as usize })),
            h2.free_list(),
            0,
            31,
        ) && sorted_between(h2.free_list(), 0, 32, h.strategy()) && h.same_setup(h2);
    let s1 = s.update(i0, Some(Block { start: addr as usize, size: size as usize }));
    let s2 = h2.free_list();
    assert(s1.len() == 32);
    assert(s1.subrange(0, 32) =~= s1);
    assert(s2.subrange(0, 32) =~= s2);
    assert(blocks_disjoint(s1)) by {
        assert forall|i: int, j: int|
            0 <= i < s1.len() && 0 <= j < s1.len() && i != j && (#[trigger] s1[i]) is Some && (#[trigger] s1[j]) is Some
            implies apart(
                s1[i]->Some_0.start as int,
                s1[i]->Some_0.start + s1[i]->Some_0.size,
                s1[j]->Some_0.start as int,
                s1[j]->Some_0.start + s1[j]->Some_0.size,
            ) by {
            if i != i0 && j != i0 {
                assert(s[i] == s1[i] && s[j] == s1[j]);
            } else if i == i0 {
                assert(s[j] == s1[j]);
            } else {
                assert(s[i] == s1[i]);
            }
        }
    }
    assert forall|i: int, j: int|
        0 <= i < s2.len() && 0 <= j < s2.len() && i != j && (#[trigger] s2[i]) is Some && (#[trigger] s2[j]) is Some
        implies apart(
            s2[i]->Some_0.start as int,
            s2[i]->Some_0.start + s2[i]->Some_0.size,
            s2[j]->Some_0.start as int,
            s2[j]->Some_0.start + s2[j]->Some_0.size,
        ) by {
        let x = s2[i];
        let y = s2[j];
        if x == y {
            lemma_twice_counted(s2, i, j);
            assert(s1.to_multiset().count(x) >= 2);
            lemma_two_positions(s1, x);
            let (a, b) = choose|a: int, b: int| 0 <= a < s1.len() && 0 <= b < s1.len() && a != b && s1[a] == x && s1[b] == x;
            assert(s1[a] is Some && s1[b] is Some);
        } else {
            assert(s2.contains(x));
            assert(s2.contains(y));
            assert(s2.to_multiset().count(x) > 0);
            assert(s2.to_multiset().count(y) > 0);
            assert(s1.to_multiset().count(x) > 0);
            assert(s1.to_multiset().count(y) > 0);
            assert(s1.contains(x));
            assert(s1.contains(y));
            let a = choose|a: int| 0 <= a < s1.len() && s1[a] == x;
            let b = choose|b: int| 0 <= b < s1.len() && s1[b] == y;
            assert(s1[a] is Some && s1[b] is Some);
        }
    }
}

/// No double issuance: two allocations in a row, made from a heap whose free blocks do
/// not overlap, hand out ranges that do not overlap. Under a lock every pair of
/// allocations is such a sequence.
pub proof fn lemma_no_double_issuance(
    h0: Heap,
    h1: Heap,
    h2: Heap,
    size1: usize,
    align1: usize,
    addr1: int,
    size2: usize,
    align2: usize,
    addr2: int,
)
    requires
        h0.wf(),
        blocks_disjoint(h0.free_list()),
        is_pow2(align1),
        is_pow2(align2),
        allocates(h0, h1, size1 as int, align1 as int, addr1),
        allocates(h1, h2, size2 as int, align2 as int, addr2),
    ensures
        apart(
            addr1,
            addr1 + align_up_spec(size1 as int, align1 as int),
            addr2,
            addr2 + align_up_spec(size2 as int, align2 as int),
        ),
{
    lemma_allocation_apart(h0, h1, size1 as int, align1 as int, addr1);
    let s = h1.free_list();
    let i = choose|i: int|
        #![trigger h1.free_list()[i]]
        first_fit(h1.free_list(), i, size2 as int, align2 as int) && addr2 == align_up_spec(
            h1.free_list()[i]->Some_0.start as int,
            align2 as int,
        ) && h2.free_list() == h1.free_list().update(
            i,
            Some(carve(h1.free_list()[i]->Some_0, size2 as int, align2 as int)),
        ) && h1.same_setup(h2);
    lemma_allocation_inside(s[i]->Some_0, size2 as int, align2 as int);
}

/// Strategy ordering: after a free, the present entries of the store, read in store
/// order, have ascending start addresses under `First`, ascending sizes under `Best` and
/// descending sizes under `Worst`; absent entries come after all of them.
pub proof fn lemma_free_list_ordered(h: Heap, h2: Heap, addr: int, size: int)
    requires
        frees(h, h2, addr, size),
    ensures
        forall|i: int, j: int|
            0 <= i < j < h2.free_list().len() && (#[trigger] h2.free_list()[i]) is Some && (#[trigger] h2.free_list()[j]) is Some
                ==> match h2.strategy() {
                AllocType::First => h2.free_list()[i]->Some_0.start <= h2.free_list()[j]->Some_0.start,
                AllocType::Best => h2.free_list()[i]->Some_0.size <= h2.free_list()[j]->Some_0.size,
                AllocType::Worst => h2.free_list()[i]->Some_0.size >= h2.free_list()[j]->Some_0.size,
            },
        absent_trail(h2.free_list()),
{
    let s = h2.free_list();
    assert forall|i: int, j: int| 0 <= i < j < s.len() && (#[trigger] s[i]) is None implies (#[trigger] s[j]) is None by {
        assert(precedes(s[i], s[j], h.strategy()));
    }
    assert forall|i: int, j: int| 0 <= i < j < s.len() && (#[trigger] s[i]) is Some && (#[trigger] s[j]) is Some implies match h2.strategy() {
        AllocType::First => s[i]->Some_0.start <= s[j]->Some_0.start,
        AllocType::Best => s[i]->Some_0.size <= s[j]->Some_0.size,
        AllocType::Worst => s[i]->Some_0.size >= s[j]->Some_0.size,
    } by {
        assert(precedes(s[i], s[j], h.strategy()));
    }
}

} // verus!
