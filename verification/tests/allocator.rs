use fat32_impl::allocator::layout::{
    cache_name, object_size, size_class, slab_capacity, MAX_CLASSES, MAX_SLAB_SIZE, PAGE_SIZE,
};
use fat32_impl::allocator::links::{list_entry, page_base};
use fat32_impl::allocator::slab::{Page, FREE_HEAD, FULL_HEAD, PARTIAL_HEAD};
use fat32_impl::allocator::{Cache, ListNode, PageBump, Slab, SlabAllocator};

const HEAP: usize = 0x10_0000;

fn heap(pages: usize) -> SlabAllocator {
    let mut allocator = SlabAllocator::new();
    assert!(allocator.init(HEAP, pages * PAGE_SIZE));
    allocator
}

fn first_object(class: usize) -> usize {
    [1392, 848, 488, 280, 160, 104, 72, 56, 48][class]
}

#[test]
fn size_classes() {
    assert_eq!(size_class(1), 0);
    assert_eq!(size_class(8), 0);
    assert_eq!(size_class(9), 1);
    assert_eq!(size_class(16), 1);
    assert_eq!(size_class(17), 2);
    assert_eq!(size_class(1024), 7);
    assert_eq!(size_class(1025), 8);
    assert_eq!(size_class(2048), 8);
    assert_eq!(MAX_CLASSES, 9);
    assert_eq!(MAX_SLAB_SIZE, 2048);
    let names = [
        "size-8", "size-16", "size-32", "size-64", "size-128", "size-256", "size-512",
        "size-1024", "size-2048",
    ];
    let capacities = [338, 202, 112, 59, 30, 15, 7, 3, 1];
    for class in 0..9 {
        assert_eq!(object_size(class), 8 << class);
        assert_eq!(cache_name(class), names[class]);
        assert_eq!(slab_capacity(object_size(class)), capacities[class]);
    }
}

#[test]
fn page_bump_hands_out_runs_of_pages() {
    let mut bump = PageBump::new(0x4000, 3 * PAGE_SIZE);
    assert_eq!(bump.alloc_pages(1), Some(0x4000));
    assert_eq!(bump.alloc_pages(0), Some(0x5000));
    assert_eq!(bump.alloc_pages(3), None);
    assert_eq!(bump.next, 0x5000);
    assert_eq!(bump.alloc_pages(2), Some(0x5000));
    assert_eq!(bump.next, bump.end);
    assert_eq!(bump.alloc_pages(1), None);
}

#[test]
fn list_nodes_slabs_and_caches_start_empty() {
    let node = ListNode::new();
    assert_eq!((node.next, node.prev), (0, 0));
    let mut head = ListNode::new();
    head.init(0x1234);
    assert_eq!((head.next, head.prev), (0x1234, 0x1234));
    assert!(head.is_empty_head(0x1234));
    assert!(!node.is_empty_head(0x1234));
    let slab = Slab::new(0x3000);
    assert_eq!(slab.list, ListNode { next: 0x3000, prev: 0x3000 });
    assert_eq!((slab.s_mem, slab.inuse, slab.free), (0x3000, 0, 0));
    let cache = Cache::new("size-16", 16, 0x2000);
    assert_eq!(cache.slabs_full, ListNode { next: 0x2000, prev: 0x2000 });
    assert_eq!(cache.slabs_partial, ListNode { next: 0x2010, prev: 0x2010 });
    assert_eq!(cache.slabs_free, ListNode { next: 0x2020, prev: 0x2020 });
    assert_eq!((cache.objsize, cache.num, cache.name), (16, 202, "size-16"));
    assert_eq!(page_base(0x3FFF), 0x3000);
    assert_eq!(list_entry(0x3000), 0x3000);
}

#[test]
fn init_installs_the_heap_once() {
    let mut allocator = SlabAllocator::new();
    assert_eq!(allocator.allocate(16, 8), None);
    assert_eq!(allocator.allocate(5000, 8), None);
    assert!(!allocator.init(HEAP + 1, PAGE_SIZE));
    assert!(!allocator.init(HEAP, PAGE_SIZE + 1));
    assert!(!allocator.init(usize::MAX - 4095, 2 * PAGE_SIZE));
    assert!(allocator.init(HEAP, 4 * PAGE_SIZE));
    assert!(!allocator.init(HEAP, 4 * PAGE_SIZE));
    assert_eq!(allocator.page_alloc, Some(PageBump { next: HEAP, end: HEAP + 4 * PAGE_SIZE }));
}

#[test]
fn two_objects_of_16_bytes() {
    let mut allocator = heap(8);
    let first = allocator.allocate(16, 8).unwrap();
    let second = allocator.allocate(16, 8).unwrap();
    assert_eq!(first, HEAP + PAGE_SIZE + 848);
    assert_eq!(second, first + 16);
    assert_eq!(page_base(first), page_base(second));
    allocator.deallocate(first, 16, 8);
    assert_eq!(allocator.allocate(16, 8), Some(first));
    assert_eq!(allocator.allocate(16, 8), Some(second + 16));
}

#[test]
fn large_requests_take_whole_pages() {
    let mut allocator = heap(4);
    assert_eq!(allocator.allocate(5000, 8), Some(HEAP));
    assert_eq!(allocator.page_alloc.unwrap().next, HEAP + 2 * PAGE_SIZE);
    assert_eq!(allocator.allocate(5000, 8), Some(HEAP + 2 * PAGE_SIZE));
    assert_eq!(allocator.allocate(5000, 8), None);
    assert_eq!(allocator.allocate(2049, 8), None);
    allocator.deallocate(HEAP, 5000, 8);
    assert_eq!(allocator.allocate(5000, 8), None);
    assert_eq!(allocator.page_alloc.unwrap().next, HEAP + 4 * PAGE_SIZE);
}

#[test]
fn large_sizes_round_up_to_pages() {
    let mut allocator = heap(8);
    assert_eq!(allocator.allocate(4096, 8), Some(HEAP));
    assert_eq!(allocator.allocate(4097, 8), Some(HEAP + PAGE_SIZE));
    assert_eq!(allocator.allocate(8192, 8), Some(HEAP + 3 * PAGE_SIZE));
    assert_eq!(allocator.page_alloc.unwrap().next, HEAP + 5 * PAGE_SIZE);
    assert_eq!(allocator.allocate(usize::MAX, 8), None);
}

#[test]
fn small_requests_without_pages_fail() {
    let mut allocator = heap(1);
    assert_eq!(allocator.allocate(8, 8), None);
    assert_eq!(allocator.page_alloc.unwrap().next, HEAP + PAGE_SIZE);
    assert_eq!(allocator.node_caches[0], Some(HEAP));
    assert_eq!(allocator.allocate(8, 8), None);
    let mut allocator = heap(0);
    assert_eq!(allocator.allocate(8, 8), None);
    assert_eq!(allocator.node_caches[0], None);
}

#[test]
fn first_object_of_each_class() {
    let mut allocator = heap(32);
    for class in 0..9usize {
        let size = 8usize << class;
        let ptr = allocator.allocate(size, 8).unwrap();
        assert_eq!(ptr, HEAP + (2 * class + 1) * PAGE_SIZE + first_object(class));
        assert_eq!(allocator.node_caches[class], Some(HEAP + 2 * class * PAGE_SIZE));
        let smaller = allocator.allocate(size / 2 + 1, 8).unwrap();
        if class == 8 {
            assert_eq!(smaller, ptr + PAGE_SIZE);
        } else {
            assert_eq!(smaller, ptr + size);
        }
    }
}

#[test]
fn lists_follow_the_fill_of_the_slabs() {
    let mut allocator = heap(16);
    let a = allocator.allocate(1024, 8).unwrap();
    let cache = allocator.node_caches[7].unwrap();
    let slab = page_base(a);
    assert!(allocator.list_empty(cache + FULL_HEAD));
    assert!(!allocator.list_empty(cache + PARTIAL_HEAD));
    assert!(allocator.list_empty(cache + FREE_HEAD));
    assert_eq!(allocator.node(cache + PARTIAL_HEAD), ListNode { next: slab, prev: slab });
    assert_eq!(allocator.slab_inuse(slab), 1);
    let b = allocator.allocate(1024, 8).unwrap();
    let c = allocator.allocate(1024, 8).unwrap();
    assert_eq!((b, c), (a + 1024, a + 2048));
    assert!(!allocator.list_empty(cache + FULL_HEAD));
    assert!(allocator.list_empty(cache + PARTIAL_HEAD));
    assert_eq!(allocator.node(cache + FULL_HEAD).next, slab);
    let d = allocator.allocate(1024, 8).unwrap();
    assert_eq!(d, a + PAGE_SIZE);
    assert_eq!(allocator.node(cache + PARTIAL_HEAD).next, slab + PAGE_SIZE);
    allocator.deallocate(b, 1024, 8);
    assert!(allocator.list_empty(cache + FULL_HEAD));
    assert_eq!(allocator.node(cache + PARTIAL_HEAD).next, slab);
    assert_eq!(allocator.node(slab).next, slab + PAGE_SIZE);
    assert_eq!(allocator.allocate(1024, 8), Some(b));
    allocator.deallocate(d, 1024, 8);
    assert!(!allocator.list_empty(cache + FREE_HEAD));
    assert_eq!(allocator.node(cache + FREE_HEAD).next, slab + PAGE_SIZE);
    assert!(allocator.list_empty(cache + PARTIAL_HEAD));
    assert_eq!(allocator.cache_info(cache), (1024, 3));
    match &allocator.pages[(slab - HEAP) / PAGE_SIZE] {
        Page::Slab(page) => {
            assert_eq!(page.slab.inuse, 3);
            assert_eq!(page.slab.s_mem, slab + 56);
            assert_eq!(page.bufctl.len(), 3);
        }
        _ => panic!("no slab"),
    }
}

#[test]
fn slabs_of_one_object() {
    let mut allocator = heap(8);
    let a = allocator.allocate(2048, 8).unwrap();
    let b = allocator.allocate(2000, 8).unwrap();
    let cache = allocator.node_caches[8].unwrap();
    assert_eq!(a, HEAP + PAGE_SIZE + 48);
    assert_eq!(b, a + PAGE_SIZE);
    assert!(allocator.list_empty(cache + PARTIAL_HEAD));
    assert!(allocator.list_empty(cache + FREE_HEAD));
    allocator.deallocate(a, 2048, 8);
    assert!(allocator.list_empty(cache + PARTIAL_HEAD));
    assert_eq!(allocator.node(cache + FREE_HEAD).next, page_base(a));
    assert_eq!(allocator.node(cache + FULL_HEAD).next, page_base(b));
    assert_eq!(allocator.allocate(2048, 8), Some(a));
    assert!(allocator.list_empty(cache + FREE_HEAD));
    assert_eq!(allocator.page_alloc.unwrap().next, HEAP + 3 * PAGE_SIZE);
}

#[test]
fn freed_objects_come_back_last_in_first_out() {
    let mut allocator = heap(8);
    let ptrs: Vec<usize> = (0..10).map(|_| allocator.allocate(64, 8).unwrap()).collect();
    allocator.deallocate(ptrs[3], 64, 8);
    allocator.deallocate(ptrs[7], 64, 8);
    allocator.deallocate(ptrs[1], 64, 8);
    assert_eq!(allocator.allocate(64, 8), Some(ptrs[1]));
    assert_eq!(allocator.allocate(64, 8), Some(ptrs[7]));
    assert_eq!(allocator.allocate(64, 8), Some(ptrs[3]));
    assert_eq!(allocator.allocate(64, 8), Some(ptrs[9] + 64));
}

#[test]
fn live_blocks_lie_apart() {
    let mut allocator = heap(64);
    let sizes = [1usize, 8, 9, 100, 16, 2048, 33, 700, 5000, 64, 1024, 3, 4097, 250];
    let mut live: Vec<(usize, usize)> = Vec::new();
    for round in 0..40 {
        let size = sizes[round % sizes.len()];
        let ptr = allocator.allocate(size, 8).unwrap();
        live.push((ptr, size));
        if round % 3 == 2 {
            let (gone, size) = live.remove(round % live.len());
            allocator.deallocate(gone, size, 8);
        }
    }
    for (i, (p, ps)) in live.iter().enumerate() {
        assert!(*p >= HEAP && p + ps <= HEAP + 64 * PAGE_SIZE);
        for (q, qs) in live.iter().skip(i + 1) {
            assert!(p + ps <= *q || q + qs <= *p);
        }
    }
}

#[test]
fn a_full_slab_makes_the_class_grow() {
    let mut allocator = heap(4);
    let first = allocator.allocate(8, 8).unwrap();
    for i in 1..338 {
        assert_eq!(allocator.allocate(8, 8), Some(first + 8 * i));
    }
    assert_eq!(first + 8 * 338, HEAP + 2 * PAGE_SIZE);
    assert_eq!(allocator.allocate(8, 8), Some(HEAP + 2 * PAGE_SIZE + 1392));
    assert_eq!(allocator.page_alloc.unwrap().next, HEAP + 3 * PAGE_SIZE);
}

#[test]
fn blocks_that_can_be_given_back() {
    let mut allocator = heap(8);
    let a = allocator.allocate(16, 8).unwrap();
    assert!(allocator.can_deallocate(a, 16));
    assert!(allocator.can_deallocate(a, 9));
    assert!(!allocator.can_deallocate(a, 8));
    assert!(!allocator.can_deallocate(a, 32));
    assert!(!allocator.can_deallocate(a, 0));
    assert!(!allocator.can_deallocate(a + 16, 16));
    assert!(!allocator.can_deallocate(a + 1, 16));
    assert!(!allocator.can_deallocate(a - 16, 16));
    assert!(!allocator.can_deallocate(HEAP, 16));
    assert!(!allocator.can_deallocate(HEAP - 16, 16));
    assert!(!allocator.can_deallocate(HEAP + 7 * PAGE_SIZE, 16));
    assert!(allocator.can_deallocate(0, 16));
    assert!(allocator.can_deallocate(a, 4096));
    allocator.deallocate(0, 16, 8);
    allocator.deallocate(a, 16, 8);
    assert!(!allocator.can_deallocate(a, 16));
}
