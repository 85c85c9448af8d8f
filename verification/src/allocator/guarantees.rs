//! What a sound allocator guarantees: how the lists part the slabs, that
//! the blocks in use lie apart, and that a block given back comes back.

use vstd::prelude::*;
use crate::allocator::layout::{
    class_index, class_size, lemma_class_index, MAX_CLASSES, MAX_SLAB_SIZE, PAGE_SIZE,
};
use crate::allocator::slab::{SlabAllocator, SlabPage, FREE_HEAD, FULL_HEAD, PARTIAL_HEAD};

verus! {

/// The three lists of a cache part its slabs by how full they are: a slab
/// is in the list of the full slabs exactly when all its objects are in
/// use, in the list of the unused slabs exactly when none is, and in the
/// list of the partly used slabs in every other case.
pub proof fn lemma_lists_part_slabs(allocator: SlabAllocator, slab: usize)
    requires
        allocator.wf(),
        allocator.is_slab(slab),
    ensures
        allocator.node_caches@[allocator.slab_at(slab).class@] is Some,
        0 <= allocator.slab_at(slab).slab.inuse <= allocator.slab_at(slab).capacity(),
        allocator.rings@[(allocator.node_caches@[allocator.slab_at(slab).class@].unwrap()
            + FULL_HEAD) as usize].contains(slab) <==> allocator.slab_at(slab).slab.inuse
            == allocator.slab_at(slab).capacity(),
        allocator.rings@[(allocator.node_caches@[allocator.slab_at(slab).class@].unwrap()
            + FREE_HEAD) as usize].contains(slab) <==> allocator.slab_at(slab).slab.inuse == 0,
        allocator.rings@[(allocator.node_caches@[allocator.slab_at(slab).class@].unwrap()
            + PARTIAL_HEAD) as usize].contains(slab) <==> 0 < allocator.slab_at(slab).slab.inuse
            < allocator.slab_at(slab).capacity(),
{
    let class = allocator.slab_at(slab).class@;
    allocator.lemma_slab(slab);
    allocator.lemma_in_list(slab);
    allocator.lemma_heads_of(class);
    let cache = allocator.node_caches@[class].unwrap();
    allocator.lemma_member((cache + FULL_HEAD) as usize, slab);
    allocator.lemma_member((cache + FREE_HEAD) as usize, slab);
    allocator.lemma_member((cache + PARTIAL_HEAD) as usize, slab);
}

/// The members of the lists of a cache are slabs of its class.
pub proof fn lemma_list_members(allocator: SlabAllocator, class: int, offset: usize, member: usize)
    requires
        allocator.wf(),
        0 <= class < MAX_CLASSES,
        allocator.node_caches@[class] is Some,
        offset == FULL_HEAD || offset == PARTIAL_HEAD || offset == FREE_HEAD,
        allocator.rings@[(allocator.node_caches@[class].unwrap() + offset) as usize].contains(member),
    ensures
        allocator.is_slab(member),
        allocator.slab_at(member).class@ == class,
{
    let cache = allocator.node_caches@[class].unwrap();
    allocator.lemma_heads_of(class);
    allocator.lemma_member((cache + offset) as usize, member);
    allocator.lemma_slab_class(member, class);
}

/// An object in use lies in the part of the heap that was handed out.
pub proof fn lemma_live_object_in_heap(allocator: SlabAllocator, ptr: usize)
    requires
        allocator.wf(),
        allocator.is_live(ptr),
    ensures
        allocator.heap_start <= ptr,
        ptr + class_size(allocator.class_of(ptr)) <= allocator.cursor(),
{
    allocator.lemma_live_in_page(ptr);
}

/// Two objects of one slab that are in use lie apart.
pub proof fn lemma_apart_in_slab(page: SlabPage, first: usize, second: usize)
    requires
        0 <= page.class@ < MAX_CLASSES,
        page.holds(first),
        page.holds(second),
        first != second,
    ensures
        first + page.object_size() <= second || second + page.object_size() <= first,
{
    let size = page.object_size();
    let i = page.object_index(first);
    let j = page.object_index(second);
    page.lemma_object_index(first);
    page.lemma_object_index(second);
    assert(size > 0);
    assert(first == page.slab.s_mem + i * size);
    assert(second == page.slab.s_mem + j * size);
    if i < j {
        assert(i * size + size <= j * size) by (nonlinear_arith)
            requires
                i + 1 <= j,
                size > 0,
        ;
    } else if j < i {
        assert(j * size + size <= i * size) by (nonlinear_arith)
            requires
                j + 1 <= i,
                size > 0,
        ;
    }
}

/// Two pages that start at different addresses lie apart.
pub proof fn lemma_pages_apart(slab: usize, other: usize)
    requires
        slab % PAGE_SIZE == 0,
        other % PAGE_SIZE == 0,
        slab != other,
    ensures
        slab + PAGE_SIZE <= other || other + PAGE_SIZE <= slab,
{
}

/// Two objects in use lie apart: neither reaches into the other.
pub proof fn lemma_live_objects_apart(allocator: SlabAllocator, first: usize, second: usize)
    requires
        allocator.wf(),
        allocator.is_live(first),
        allocator.is_live(second),
        first != second,
    ensures
        first + class_size(allocator.class_of(first)) <= second || second + class_size(
            allocator.class_of(second),
        ) <= first,
{
    let slab = allocator.slab_of(first);
    let other = allocator.slab_of(second);
    let size = class_size(allocator.class_of(first));
    let other_size = class_size(allocator.class_of(second));
    if slab != other {
        assert(slab <= first && first + size <= slab + PAGE_SIZE && slab % PAGE_SIZE == 0) by {
            allocator.lemma_live_in_page(first);
            allocator.lemma_slab(slab);
        }
        assert(other <= second && second + other_size <= other + PAGE_SIZE && other % PAGE_SIZE
            == 0) by {
            allocator.lemma_live_in_page(second);
            allocator.lemma_slab(other);
        }
        lemma_pages_apart(slab, other);
    } else {
        assert(0 <= allocator.slab_at(slab).class@ < MAX_CLASSES) by {
            allocator.lemma_slab(slab);
        }
        lemma_apart_in_slab(allocator.slab_at(slab), first, second);
    }
}

/// The pages of a large request lie above every object in use.
pub proof fn lemma_large_block_apart(
    before: SlabAllocator,
    after: SlabAllocator,
    size: usize,
    address: usize,
    ptr: usize,
)
    requires
        before.wf(),
        size > MAX_SLAB_SIZE,
        before.alloc_gives(&after, size, Some(address)),
        after.is_live(ptr),
    ensures
        ptr + class_size(before.class_of(ptr)) <= address,
{
    assert(before.is_live(ptr));
    before.lemma_live_in_page(ptr);
}

/// A block that was given back is given again by the next request of its
/// class, where its slab is the one that serves the request.
pub proof fn lemma_freed_object_comes_back(
    before: SlabAllocator,
    between: SlabAllocator,
    after: SlabAllocator,
    ptr: usize,
    size: usize,
    r: Option<usize>,
)
    requires
        before.wf(),
        between.wf(),
        0 < size <= MAX_SLAB_SIZE,
        ptr != 0,
        before.is_live(ptr),
        before.class_of(ptr) == class_index(size as int),
        before.dealloc_gives(&between, ptr, size),
        between.picked(class_index(size as int)) == Some(before.slab_of(ptr)),
        between.alloc_gives(&after, size, r),
    ensures
        r == Some(ptr),
{
    let class = class_index(size as int);
    lemma_class_index(size as int);
    before.lemma_slab(before.slab_of(ptr));
    assert(between.pages_needed(class) == 0);
    assert(between.pages_left() >= 0);
}

/// A slab whose objects were all in use serves the next request of its
/// class once one of them was given back.
pub proof fn lemma_full_slab_is_picked(
    before: SlabAllocator,
    between: SlabAllocator,
    ptr: usize,
    size: usize,
)
    requires
        before.wf(),
        0 < size <= MAX_SLAB_SIZE,
        ptr != 0,
        before.is_live(ptr),
        before.class_of(ptr) == class_index(size as int),
        before.slab_at(before.slab_of(ptr)).slab.inuse == before.slab_at(
            before.slab_of(ptr),
        ).capacity(),
        before.dealloc_gives(&between, ptr, size),
    ensures
        between.picked(class_index(size as int)) == Some(before.slab_of(ptr)),
{
    let class = class_index(size as int);
    let slab = before.slab_of(ptr);
    lemma_class_index(size as int);
    before.lemma_live_in_page(ptr);
    before.lemma_slab(slab);
    before.lemma_in_list(slab);
    before.lemma_heads_of(class);
    let cache = before.node_caches@[class].unwrap();
    let full = (cache + FULL_HEAD) as usize;
    let partial = (cache + PARTIAL_HEAD) as usize;
    let free = (cache + FREE_HEAD) as usize;
    assert(before.is_head(full) && before.is_head(partial) && before.is_head(free));
    assert(before.cache_of_head(partial) == cache);
    before.lemma_ring(full);
    before.lemma_ring(partial);
    before.lemma_ring(free);
    assert(before.list_for(slab) == full);
    assert(before.slab_at(slab).home@ == Some(full));
    assert(between.node_caches@[class] == Some(cache));
    if before.slab_at(slab).slab.inuse == 1 {
        let members = before.rings@[partial];
        assert(before.slab_at(slab).capacity() == 1);
        if members.len() > 0 {
            let m = members[0];
            assert(members.contains(m));
            before.lemma_member(partial, m);
            before.lemma_slab_class(m, class);
            before.lemma_in_list(m);
            before.lemma_slab(m);
            assert(before.list_for(m) == partial);
            assert(false);
        }
        assert(before.list_after_free(slab) == free);
        assert(between.rings@ == before.rings_after_move(slab, free));
        assert(between.rings@[partial] == members);
        assert(between.rings@[free] == seq![slab] + before.rings@[free]);
        assert(between.rings@[free][0] == slab);
    } else {
        assert(before.list_after_free(slab) == partial);
        assert(between.rings@ == before.rings_after_move(slab, partial));
        assert(between.rings@[partial] == seq![slab] + before.rings@[partial]);
        assert(between.rings@[partial][0] == slab);
    }
}

/// A block given back from a slab whose objects were all in use is the
/// block that the next request of its class is given.
pub proof fn lemma_full_slab_round_trip(
    before: SlabAllocator,
    between: SlabAllocator,
    after: SlabAllocator,
    ptr: usize,
    size: usize,
    r: Option<usize>,
)
    requires
        before.wf(),
        between.wf(),
        0 < size <= MAX_SLAB_SIZE,
        ptr != 0,
        before.is_live(ptr),
        before.class_of(ptr) == class_index(size as int),
        before.slab_at(before.slab_of(ptr)).slab.inuse == before.slab_at(
            before.slab_of(ptr),
        ).capacity(),
        before.dealloc_gives(&between, ptr, size),
        between.alloc_gives(&after, size, r),
    ensures
        r == Some(ptr),
{
    lemma_full_slab_is_picked(before, between, ptr, size);
    lemma_freed_object_comes_back(before, between, after, ptr, size, r);
}

} // verus!
