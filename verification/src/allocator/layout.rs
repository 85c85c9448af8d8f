//! Sizes: pages, size classes, and how a slab page is laid out.

use vstd::prelude::*;

verus! {

/// The size of a page, the unit in which the heap is handed out.
pub const PAGE_SIZE: usize = 4096;

/// The largest request that a slab serves; a larger one takes whole pages.
pub const MAX_SLAB_SIZE: usize = 2048;

/// The number of size classes: 8, 16, ..., 2048 bytes.
pub const MAX_CLASSES: usize = 9;

/// The size of the header at the start of a slab page: a list node, the
/// address of the first object, the count of objects in use and the head of
/// the free chain.
pub const SLAB_HEADER_SIZE: usize = 40;

/// The size of an entry of the free-index array.
pub const BUFCTL_SIZE: usize = 4;

/// The alignment of the first object of a slab, that of a machine word.
pub const WORD_ALIGN: usize = 8;

/// The size of the objects of class `class`: 8 for class 0, and twice as
/// much for each class after it.
pub open spec fn class_size(class: int) -> int {
    if class == 0 {
        8
    } else if class == 1 {
        16
    } else if class == 2 {
        32
    } else if class == 3 {
        64
    } else if class == 4 {
        128
    } else if class == 5 {
        256
    } else if class == 6 {
        512
    } else if class == 7 {
        1024
    } else {
        2048
    }
}

/// The class that serves a request of `size` bytes: the first one whose
/// objects are large enough.
pub open spec fn class_index(size: int) -> int {
    if size <= 8 {
        0
    } else if size <= 16 {
        1
    } else if size <= 32 {
        2
    } else if size <= 64 {
        3
    } else if size <= 128 {
        4
    } else if size <= 256 {
        5
    } else if size <= 512 {
        6
    } else if size <= 1024 {
        7
    } else {
        8
    }
}

/// The number of objects in a slab of objects of `obj_size` bytes: what
/// fits in a page after the header, each object with its entry in the
/// free-index array.
pub open spec fn objects_per_slab(obj_size: int) -> int {
    (PAGE_SIZE - SLAB_HEADER_SIZE) / (obj_size + BUFCTL_SIZE)
}

/// The offset of the first object in a slab page: after the header and the
/// free-index array, at the next multiple of the word size.
pub open spec fn first_object_offset(obj_size: int) -> int {
    let end = SLAB_HEADER_SIZE + objects_per_slab(obj_size) * BUFCTL_SIZE;
    (end + WORD_ALIGN - 1) / (WORD_ALIGN as int) * WORD_ALIGN
}

/// The number of pages that a request of `size` bytes takes.
pub open spec fn pages_for(size: int) -> int {
    (size + PAGE_SIZE - 1) / (PAGE_SIZE as int)
}

/// The name of the cache of class `class`.
pub open spec fn class_name(class: int) -> Seq<char> {
    if class == 0 {
        "size-8"@
    } else if class == 1 {
        "size-16"@
    } else if class == 2 {
        "size-32"@
    } else if class == 3 {
        "size-64"@
    } else if class == 4 {
        "size-128"@
    } else if class == 5 {
        "size-256"@
    } else if class == 6 {
        "size-512"@
    } else if class == 7 {
        "size-1024"@
    } else {
        "size-2048"@
    }
}

/// Every slab holds at least one object, and its objects end inside its
/// page.
pub proof fn lemma_slab_fits(class: int)
    requires
        0 <= class < MAX_CLASSES,
    ensures
        1 <= objects_per_slab(class_size(class)) <= 338,
        SLAB_HEADER_SIZE + objects_per_slab(class_size(class)) * BUFCTL_SIZE
            <= first_object_offset(class_size(class)),
        first_object_offset(class_size(class)) % (WORD_ALIGN as int) == 0,
        first_object_offset(class_size(class)) + objects_per_slab(class_size(class))
            * class_size(class) <= PAGE_SIZE,
{
    if class == 0 {
        assert(4056int / 12 == 338);
        assert(objects_per_slab(8) == 338);
        assert((1392int + 7) / 8 == 174);
        assert(first_object_offset(8) == 1392);
    } else if class == 1 {
        assert(objects_per_slab(16) == 202 && first_object_offset(16) == 848);
    } else if class == 2 {
        assert(objects_per_slab(32) == 112 && first_object_offset(32) == 488);
    } else if class == 3 {
        assert(objects_per_slab(64) == 59 && first_object_offset(64) == 280);
    } else if class == 4 {
        assert(objects_per_slab(128) == 30 && first_object_offset(128) == 160);
    } else if class == 5 {
        assert(objects_per_slab(256) == 15 && first_object_offset(256) == 104);
    } else if class == 6 {
        assert(objects_per_slab(512) == 7 && first_object_offset(512) == 72);
    } else if class == 7 {
        assert(objects_per_slab(1024) == 3 && first_object_offset(1024) == 56);
    } else {
        assert(objects_per_slab(2048) == 1 && first_object_offset(2048) == 48);
    }
}

/// The class of a request is the first one whose objects hold it.
pub proof fn lemma_class_index(size: int)
    requires
        1 <= size <= MAX_SLAB_SIZE,
    ensures
        0 <= class_index(size) < MAX_CLASSES,
        size <= class_size(class_index(size)),
        class_index(size) > 0 ==> class_size(class_index(size) - 1) < size,
        class_index(class_size(class_index(size))) == class_index(size),
{
}

/// Finds the class that serves a request of `size` bytes.
pub fn size_class(size: usize) -> (class: usize)
    requires
        1 <= size <= MAX_SLAB_SIZE,
    ensures
        class == class_index(size as int),
{
    let mut class: usize = 0;
    let mut holds: usize = 8;
    while holds < size
        invariant
            class < MAX_CLASSES,
            holds == class_size(class as int),
            size <= MAX_SLAB_SIZE,
            class > 0 ==> class_size(class - 1) < size,
        decreases MAX_CLASSES - class,
    {
        holds = holds * 2;
        class = class + 1;
    }
    class
}

/// The size of the objects of class `class`.
pub fn object_size(class: usize) -> (size: usize)
    requires
        class < MAX_CLASSES,
    ensures
        size == class_size(class as int),
{
    let mut size: usize = 8;
    let mut i: usize = 0;
    while i < class
        invariant
            i <= class < MAX_CLASSES,
            size == class_size(i as int),
        decreases class - i,
    {
        size = size * 2;
        i = i + 1;
    }
    size
}

/// The name of the cache of class `class`.
pub fn cache_name(class: usize) -> (name: &'static str)
    requires
        class < MAX_CLASSES,
    ensures
        name@ == class_name(class as int),
{
    if class == 0 {
        "size-8"
    } else if class == 1 {
        "size-16"
    } else if class == 2 {
        "size-32"
    } else if class == 3 {
        "size-64"
    } else if class == 4 {
        "size-128"
    } else if class == 5 {
        "size-256"
    } else if class == 6 {
        "size-512"
    } else if class == 7 {
        "size-1024"
    } else {
        "size-2048"
    }
}

/// The number of objects in a slab of objects of `obj_size` bytes.
pub fn slab_capacity(obj_size: usize) -> (num: usize)
    requires
        obj_size <= MAX_SLAB_SIZE,
    ensures
        num == objects_per_slab(obj_size as int),
{
    (PAGE_SIZE - SLAB_HEADER_SIZE) / (obj_size + BUFCTL_SIZE)
}

/// The offset of the first object in a slab page that holds `num` objects.
pub fn align_up_word(end: usize) -> (aligned: usize)
    requires
        end <= PAGE_SIZE,
    ensures
        aligned == (end + WORD_ALIGN - 1) / (WORD_ALIGN as int) * WORD_ALIGN,
{
    (end + WORD_ALIGN - 1) / WORD_ALIGN * WORD_ALIGN
}

/// The slabs of no two classes hold the same number of objects.
pub proof fn lemma_capacity_names_class(first: int, second: int)
    requires
        0 <= first < MAX_CLASSES,
        0 <= second < MAX_CLASSES,
        objects_per_slab(class_size(first)) == objects_per_slab(class_size(second)),
    ensures
        first == second,
{
    lemma_slab_capacities();
}

/// The number of objects in a slab of each class.
pub proof fn lemma_slab_capacities()
    ensures
        objects_per_slab(8) == 338,
        objects_per_slab(16) == 202,
        objects_per_slab(32) == 112,
        objects_per_slab(64) == 59,
        objects_per_slab(128) == 30,
        objects_per_slab(256) == 15,
        objects_per_slab(512) == 7,
        objects_per_slab(1024) == 3,
        objects_per_slab(2048) == 1,
{
    assert(4056int / 12 == 338);
}

} // verus!
