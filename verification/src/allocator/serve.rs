//! Allocation: picking a slab of the class of a request, taking an object
//! from it, and keeping the slab in the list in which it belongs.

use vstd::prelude::*;
use crate::allocator::layout::{
    class_index, class_size, first_object_offset, lemma_capacity_names_class, lemma_class_index,
    lemma_slab_fits, object_size, objects_per_slab, pages_for, size_class, slab_capacity,
    MAX_CLASSES, MAX_SLAB_SIZE, PAGE_SIZE,
};
use crate::allocator::heap::fresh_chain;
use crate::allocator::links::{list_entry, page_base};
use crate::allocator::slab::BufCtl;
use crate::allocator::slab::{Page, SlabAllocator, FREE_HEAD, FULL_HEAD, PARTIAL_HEAD};

verus! {

impl SlabAllocator {
    /// What the lists hold after the slab at `slab` went from its list to
    /// the front of the list of `to`.
    pub open spec fn rings_after_move(&self, slab: usize, to: usize) -> Map<usize, Seq<usize>> {
        let from = self.slab_at(slab).home@.unwrap();
        self.rings@.insert(from, self.rings@[from].remove(self.rings@[from].index_of(slab))).insert(
            to,
            seq![slab] + self.rings@[to],
        )
    }

    /// A slab that is in the list in which it belongs, as all the others
    /// are, leaves every slab in its list.
    pub proof fn lemma_partition_whole(&self, slab: usize)
        requires
            self.partition_ok_but(slab),
            self.is_slab(slab) ==> self.slab_at(slab).home@ == Some(self.list_for(slab)),
        ensures
            self.partition_ok(),
    {
        reveal(SlabAllocator::partition_ok);
        reveal(SlabAllocator::partition_ok_but);
    }

    /// What soundness says of one slab: it is a sound one, and its objects
    /// lie in its page.
    pub proof fn lemma_slab(&self, slab: usize)
        requires
            self.heap_ok(),
            self.slabs_ok(),
            self.is_slab(slab),
        ensures
            self.slab_at(slab).content_ok(),
            self.node_caches@[self.slab_at(slab).class@] is Some,
            self.slab_at(slab).slab.s_mem == slab + first_object_offset(
                self.slab_at(slab).object_size(),
            ),
            slab + PAGE_SIZE <= self.cursor() <= usize::MAX,
            self.slab_at(slab).slab.s_mem + self.slab_at(slab).capacity() * self.slab_at(
                slab,
            ).object_size() <= slab + PAGE_SIZE,
            slab % PAGE_SIZE == 0,
            self.slab_of(slab) == slab,
            slab >= self.heap_start,
    {
        reveal(SlabAllocator::slabs_ok);
        let p = self.page_index(slab);
        self.lemma_page_of_address(slab);
        self.lemma_page_address(p);
        assert(self.slab_ok(p));
        lemma_slab_fits(self.slab_at(slab).class@);
    }

    /// An address in the page of a slab has that slab as the start of its
    /// page.
    pub proof fn lemma_slab_offset(&self, slab: usize, offset: int)
        requires
            self.heap_ok(),
            self.is_slab(slab),
            0 <= offset < PAGE_SIZE,
        ensures
            self.slab_of((slab + offset) as usize) == slab,
            slab + offset <= usize::MAX,
    {
        let p = self.page_index(slab);
        self.lemma_page_of_address(slab);
        self.lemma_page_address(p);
        assert(self.page_offset((self.page_address(p) + offset) as usize) == offset);
    }

    /// An object of a slab lies in the page of the slab.
    pub proof fn lemma_object_in_page(&self, slab: usize, index: int)
        requires
            self.heap_ok(),
            self.slabs_ok(),
            self.is_slab(slab),
            0 <= index < self.slab_at(slab).capacity(),
        ensures
            slab <= self.slab_at(slab).object_address(index),
            self.slab_at(slab).object_address(index) + self.slab_at(slab).object_size() <= slab
                + PAGE_SIZE,
            self.slab_of(self.slab_at(slab).object_address(index) as usize) == slab,
            self.slab_at(slab).object_address(index) >= self.heap_start,
            self.slab_at(slab).object_address(index) < self.cursor(),
    {
        let page = self.slab_at(slab);
        let address = page.object_address(index);
        let size = page.object_size();
        let end = page.slab.s_mem + page.capacity() * page.object_size();
        assert(address >= page.slab.s_mem && address + size <= end && size > 0) by {
            self.lemma_slab(slab);
            page.lemma_object_address(index);
        }
        assert(slab <= page.slab.s_mem && end <= slab + PAGE_SIZE && slab + PAGE_SIZE
            <= self.cursor() && slab >= self.heap_start) by {
            self.lemma_slab(slab);
        }
        self.lemma_slab_offset(slab, address - slab);
    }

    /// An object in use lies in the page of its slab, whole.
    pub proof fn lemma_live_in_page(&self, ptr: usize)
        requires
            self.heap_ok(),
            self.slabs_ok(),
            self.is_live(ptr),
        ensures
            self.slab_of(ptr) <= ptr,
            ptr + class_size(self.class_of(ptr)) <= self.slab_of(ptr) + PAGE_SIZE,
            self.slab_of(ptr) + PAGE_SIZE <= self.cursor(),
            0 <= self.slab_at(self.slab_of(ptr)).object_index(ptr) < self.slab_at(
                self.slab_of(ptr),
            ).capacity(),
            self.slab_at(self.slab_of(ptr)).object_address(
                self.slab_at(self.slab_of(ptr)).object_index(ptr),
            ) == ptr,
    {
        let slab = self.slab_of(ptr);
        self.lemma_slab(slab);
        let page = self.slab_at(slab);
        page.lemma_object_index(ptr);
        self.lemma_object_in_page(slab, page.object_index(ptr));
    }

    /// Moves the slab at `slab` from its list to the front of the list of
    /// `head`.
    pub fn move_slab(&mut self, slab: usize, head: usize)
        requires
            old(self).heap_ok(),
            old(self).caches_ok(),
            old(self).slabs_ok(),
            old(self).links_ok(),
            old(self).partition_ok_but(slab),
            old(self).is_slab(slab),
            old(self).slab_at(slab).home@ is Some,
            old(self).slab_at(slab).home@ != Some(head),
            old(self).is_head(head),
            old(self).node_caches@[old(self).slab_at(slab).class@] == Some(
                old(self).cache_of_head(head) as usize,
            ),
        ensures
            final(self).heap_ok(),
            final(self).caches_ok(),
            final(self).slabs_ok(),
            final(self).links_ok(),
            final(self).partition_ok_but(slab),
            old(self).same_but_lists(final(self)),
            old(self).homes_kept_but(final(self), Some(slab)),
            final(self).slab_at(slab).home@ == Some(head),
            final(self).rings@ == old(self).rings_after_move(slab, head),
    {
        self.list_del(slab);
        let ghost middle = *self;
        proof {
            old(self).lemma_kept_at(&middle, slab);
            old(self).lemma_kept_at(&middle, head);
            old(self).lemma_partition_kept(&middle, slab);
            old(self).lemma_home(slab);
            old(self).lemma_ring(head);
        }
        self.list_add(slab, head);
        proof {
            middle.lemma_partition_kept(self, slab);
            old(self).lemma_same_but_lists_twice(&middle, self);
            old(self).lemma_homes_kept_twice(&middle, self, Some(slab), Some(slab));
        }
    }

    /// Takes an object from the slab at `slab`, which stands in the list
    /// of partly used slabs of the cache at `cache` and has a free object;
    /// a slab that has none left after that goes to the list of full
    /// slabs.
    pub fn kmem_cache_alloc_one_tail(&mut self, cache: usize, slab: usize) -> (ptr: usize)
        requires
            old(self).heap_ok(),
            old(self).caches_ok(),
            old(self).slabs_ok(),
            old(self).links_ok(),
            old(self).partition_ok_but(slab),
            old(self).is_slab(slab),
            old(self).node_caches@[old(self).slab_at(slab).class@] == Some(cache),
            old(self).slab_at(slab).home@ == Some((cache + PARTIAL_HEAD) as usize),
            old(self).slab_at(slab).slab.inuse < old(self).slab_at(slab).capacity(),
        ensures
            final(self).wf(),
            final(self).page_alloc == old(self).page_alloc,
            final(self).node_caches == old(self).node_caches,
            ptr == old(self).slab_at(slab).object_address(old(self).slab_at(slab).slab.free as int),
            !old(self).is_live(ptr),
            final(self).is_live(ptr),
            final(self).class_of(ptr) == old(self).slab_at(slab).class@,
            final(self).slab_of(ptr) == slab,
            forall|q: usize| q != ptr ==> #[trigger] final(self).is_live(q) == old(self).is_live(q),
            old(self).slabs_kept_but(final(self), Some(slab)),
            final(self).is_slab(slab),
            final(self).slab_at(slab).free_chain@ == old(self).slab_at(slab).free_chain@.drop_first(),
    {
        let ghost class = self.slab_at(slab).class@;
        proof {
            self.lemma_slab(slab);
            self.lemma_heads_of(class);
        }
        let (obj_size, num) = self.cache_info(cache);
        let ptr = self.take_object(slab, obj_size);
        let ghost taken = *self;
        proof {
            let page = taken.slab_at(slab);
            old(self).lemma_content_written(&taken, slab, page);
            old(self).lemma_content_at(&taken, slab, page, (cache + FULL_HEAD) as usize);
            let index = old(self).slab_at(slab).slab.free as int;
            assert(old(self).slab_at(slab).free_chain@.len() > 0);
            old(self).lemma_object_in_page(slab, index);
            assert forall|q: usize| q != ptr implies #[trigger] taken.is_live(q) == old(self).is_live(
                q,
            ) by {
                old(self).lemma_content_live(&taken, slab, page, q);
            }
            old(self).lemma_content_live(&taken, slab, page, ptr);
            old(self).lemma_content_kept(&taken, slab, page);
        }
        if self.slab_inuse(slab) == num {
            self.move_slab(slab, cache + FULL_HEAD);
            proof {
                taken.lemma_slabs_kept_lists(self);
                old(self).lemma_slabs_kept_twice(&taken, self, Some(slab), None);
                taken.lemma_kept_at(self, slab);
                self.lemma_partition_whole(slab);
                assert forall|q: usize| #[trigger] self.is_live(q) == taken.is_live(q) by {
                    taken.lemma_live_kept(self, q);
                }
                taken.lemma_live_kept(self, ptr);
            }
        } else {
            proof {
                self.lemma_partition_whole(slab);
            }
        }
        ptr
    }

    /// The slab from which the next request of `class` is served: the
    /// first of the partly used ones, else the first of the unused ones;
    /// `None` where the class has neither, or no cache yet.
    pub open spec fn picked(&self, class: int) -> Option<usize> {
        match self.node_caches@[class] {
            None => None,
            Some(cache) => if self.rings@[(cache + PARTIAL_HEAD) as usize].len() > 0 {
                Some(self.rings@[(cache + PARTIAL_HEAD) as usize][0])
            } else if self.rings@[(cache + FREE_HEAD) as usize].len() > 0 {
                Some(self.rings@[(cache + FREE_HEAD) as usize][0])
            } else {
                None
            },
        }
    }

    /// The number of pages that the next request of `class` takes from
    /// the heap: one for the cache where the class has none, and one for a
    /// slab where none has room.
    pub open spec fn pages_needed(&self, class: int) -> int {
        (if self.node_caches@[class] is None {
            1int
        } else {
            0int
        }) + (if self.picked(class) is None {
            1int
        } else {
            0int
        })
    }

    /// The address that the next request of `class` is given, if the heap
    /// has the pages for it: the first free object of the slab that serves
    /// it, and the first object of a new slab where there is none.
    pub open spec fn next_object(&self, class: int) -> int {
        match self.picked(class) {
            Some(slab) => self.slab_at(slab).object_address(self.slab_at(slab).slab.free as int),
            None => self.cursor() + (if self.node_caches@[class] is None {
                PAGE_SIZE as int
            } else {
                0int
            }) + first_object_offset(class_size(class)),
        }
    }

    /// Takes an object of `class`, whose cache is there: from the first
    /// partly used slab, else from the first unused one, which goes to the
    /// partly used ones, else from a new slab.
    ///
    /// `None` exactly when no slab has room and the heap has no page left.
    pub fn kmem_cache_alloc_one(&mut self, class: usize) -> (r: Option<usize>)
        requires
            old(self).wf(),
            class < MAX_CLASSES,
            old(self).node_caches@[class as int] is Some,
        ensures
            final(self).wf(),
            final(self).node_caches == old(self).node_caches,
            match r {
                Some(ptr) => {
                    &&& old(self).pages_needed(class as int) <= old(self).pages_left()
                    &&& ptr == old(self).next_object(class as int)
                    &&& !old(self).is_live(ptr)
                    &&& final(self).is_live(ptr)
                    &&& final(self).class_of(ptr) == class
                    &&& final(self).cursor() == old(self).cursor() + old(self).pages_needed(
                        class as int,
                    ) * PAGE_SIZE
                    &&& final(self).pages_left() == old(self).pages_left() - old(
                        self,
                    ).pages_needed(class as int)
                },
                None => old(self).pages_needed(class as int) > old(self).pages_left() && *final(self)
                    == *old(self),
            },
            forall|q: usize| Some(q) != r ==> #[trigger] final(self).is_live(q) == old(self).is_live(q),
            r is Some ==> old(self).served_from(final(self), class as int, r.unwrap()),
    {
        let cache: usize = match self.node_caches[class] {
            Some(cache) => cache,
            None => {
                return None;
            },
        };
        proof {
            self.lemma_heads_of(class as int);
            lemma_slab_fits(class as int);
        }
        let partial: usize = cache + PARTIAL_HEAD;
        let free: usize = cache + FREE_HEAD;
        proof {
            self.lemma_list_shape(partial);
            self.lemma_list_shape(free);
        }
        let mut entry: usize = self.node(partial).next;
        if entry == partial {
            if self.list_empty(free) {
                if !self.alloc_new_slab(class) {
                    return None;
                }
            }
            let ghost grown = *self;
            proof {
                if old(self).rings@[free].len() > 0 {
                    assert(grown == *old(self));
                    old(self).lemma_slabs_same(&grown);
                }
                grown.lemma_heads_of(class as int);
                grown.lemma_list_shape(free);
                grown.lemma_list_shape(partial);
                assert(grown.rings@[free].len() > 0);
                assert(grown.rings@[partial] == old(self).rings@[partial]);
            }
            entry = self.node(free).next;
            proof {
                grown.lemma_partition_but(entry);
                grown.lemma_member(partial, entry);
                grown.lemma_slab(entry);
                grown.lemma_slab_class(entry, class as int);
                grown.lemma_in_list(entry);
                if old(self).rings@[free].len() > 0 {
                    assert(*old(self) == grown);
                } else {
                    assert(grown.rings@[free][0] == old(self).cursor());
                    grown.slab_at(entry).lemma_object_address(0);
                }
            }
            self.move_slab(entry, partial);
            proof {
                grown.lemma_slabs_kept_lists(self);
                old(self).lemma_slabs_kept_twice(&grown, self, None, None);
                grown.lemma_kept_at(self, entry);
                grown.lemma_kept_at(self, cache);
                assert forall|q: usize| #[trigger] self.is_live(q) == grown.is_live(q) by {
                    grown.lemma_live_kept(self, q);
                }
            }
        } else {
            proof {
                self.lemma_partition_but(entry);
                self.lemma_slab(entry);
                self.lemma_slab_class(entry, class as int);
                self.lemma_in_list(entry);
            }
        }
        let slab = list_entry(entry);
        let ghost ready = *self;
        proof {
            old(self).lemma_slabs_same(old(self));
        }
        let ptr = self.kmem_cache_alloc_one_tail(cache, slab);
        proof {
            old(self).lemma_slabs_kept_twice(&ready, self, None, Some(slab));
        }
        Some(ptr)
    }

    /// The slab that serves the next request of `class`: the one picked,
    /// and where there is none a new one in the next page of the heap but
    /// the one that the cache takes where the class has none yet.
    pub open spec fn serving_slab(&self, class: int) -> int {
        match self.picked(class) {
            Some(slab) => slab as int,
            None => self.cursor() + (if self.node_caches@[class] is None {
                PAGE_SIZE as int
            } else {
                0int
            }),
        }
    }

    /// What a request of `class` that was given `ptr` has done to the
    /// slabs: the slab that served it has lost the first object of its free
    /// chain, and the other slabs have the objects that they had.
    pub open spec fn served_from(&self, after: &SlabAllocator, class: int, ptr: usize) -> bool {
        &&& after.slab_of(ptr) == self.serving_slab(class)
        &&& after.is_slab(after.slab_of(ptr))
        &&& self.slabs_kept_but(after, Some(after.slab_of(ptr)))
        &&& after.slab_at(after.slab_of(ptr)).free_chain@ == match self.picked(class) {
            Some(slab) => self.slab_at(slab).free_chain@.drop_first(),
            None => fresh_chain(objects_per_slab(class_size(class))).drop_first(),
        }
    }

    /// The class of a slab in a list of the cache of `class` is `class`.
    pub proof fn lemma_slab_class(&self, slab: usize, class: int)
        requires
            self.heap_ok(),
            self.caches_ok(),
            self.slabs_ok(),
            self.links_ok(),
            0 <= class < MAX_CLASSES,
            self.node_caches@[class] is Some,
            self.is_slab(slab),
            self.slab_at(slab).home@ is Some,
            self.cache_of_head(self.slab_at(slab).home@.unwrap()) == self.node_caches@[class].unwrap(),
        ensures
            self.slab_at(slab).class@ == class,
    {
        self.lemma_home(slab);
        self.lemma_slab(slab);
        self.lemma_cache_class(self.slab_at(slab).class@, class);
    }

    /// A slab in the list of its fill has the fill of that list.
    pub proof fn lemma_in_list(&self, slab: usize)
        requires
            self.heap_ok(),
            self.slabs_ok(),
            self.partition_ok(),
            self.is_slab(slab),
        ensures
            self.slab_at(slab).home@ == Some(self.list_for(slab)),
            self.slab_at(slab).slab.inuse <= self.slab_at(slab).capacity(),
            1 <= self.slab_at(slab).capacity(),
    {
        reveal(SlabAllocator::partition_ok);
        self.lemma_slab(slab);
        lemma_slab_fits(self.slab_at(slab).class@);
    }

    /// What a request of `size` bytes that was given `r` has done to the
    /// allocator.
    ///
    /// A request above the largest object takes whole pages at the cursor
    /// of the heap, and fails exactly when the heap has fewer left. Any
    /// other request is given the next object of its class, which was not
    /// in use and is now, and fails exactly when the heap has fewer pages
    /// left than the class needs; it then leaves no page in the heap. No
    /// other object is handed out or taken back.
    pub open spec fn alloc_gives(&self, after: &SlabAllocator, size: usize, r: Option<usize>) -> bool {
        &&& forall|q: usize| Some(q) != r ==> #[trigger] after.is_live(q) == self.is_live(q)
        &&& after.node_caches@ == if size <= MAX_SLAB_SIZE && self.node_caches@[class_index(
            size as int,
        )] is None && self.pages_left() >= 1 {
            self.node_caches@.update(class_index(size as int), Some(self.cursor() as usize))
        } else {
            self.node_caches@
        }
        &&& if size > MAX_SLAB_SIZE || r is None {
            self.slabs_kept_but(after, None)
        } else {
            self.served_from(after, class_index(size as int), r.unwrap())
        }
        &&& if size > MAX_SLAB_SIZE {
            match r {
                Some(address) => {
                    &&& pages_for(size as int) <= self.pages_left()
                    &&& address == self.cursor()
                    &&& after.cursor() == self.cursor() + pages_for(size as int) * PAGE_SIZE
                    &&& !after.is_live(address)
                },
                None => pages_for(size as int) > self.pages_left() && *after == *self,
            }
        } else {
            match r {
                Some(ptr) => {
                    &&& self.pages_needed(class_index(size as int)) <= self.pages_left()
                    &&& ptr == self.next_object(class_index(size as int))
                    &&& !self.is_live(ptr)
                    &&& after.is_live(ptr)
                    &&& after.class_of(ptr) == class_index(size as int)
                    &&& after.cursor() == self.cursor() + self.pages_needed(
                        class_index(size as int),
                    ) * PAGE_SIZE
                },
                None => self.pages_needed(class_index(size as int)) > self.pages_left()
                    && after.pages_left() == 0,
            }
        }
    }

    /// Serves a request of `size` bytes: the address of the block, `None`
    /// where the heap cannot serve it. The alignment asked for is not
    /// looked at: the objects of a class are laid out by the size of the
    /// class alone.
    pub fn allocate(&mut self, size: usize, align: usize) -> (r: Option<usize>)
        requires
            old(self).wf(),
            size > 0,
        ensures
            final(self).wf(),
            old(self).alloc_gives(final(self), size, r),
    {
        if size > MAX_SLAB_SIZE {
            let pages: usize = size / PAGE_SIZE + if size % PAGE_SIZE != 0 {
                1
            } else {
                0
            };
            let r = self.take_pages(pages);
            proof {
                if let Some(address) = r {
                    if self.is_live(address) {
                        old(self).lemma_live_in_page(address);
                    }
                }
            }
            return r;
        }
        let class = size_class(size);
        proof {
            lemma_class_index(size as int);
        }
        let made: bool = match self.node_caches[class] {
            Some(_) => false,
            None => {
                if self.add_cache(class).is_none() {
                    return None;
                }
                true
            },
        };
        let ghost ready = *self;
        proof {
            if !made {
                old(self).lemma_slabs_same(&ready);
            }
            if made {
                ready.lemma_heads_of(class as int);
                assert(ready.picked(class as int) is None);
                assert(old(self).picked(class as int) is None);
            }
        }
        let r = self.kmem_cache_alloc_one(class);
        proof {
            if let Some(ptr) = r {
                if made && old(self).is_live(ptr) {
                    old(self).lemma_live_in_page(ptr);
                    lemma_slab_fits(class as int);
                }
                old(self).lemma_slabs_kept_twice(&ready, self, None, Some(self.slab_of(ptr)));
            } else {
                ready.lemma_slabs_same(self);
                old(self).lemma_slabs_kept_twice(&ready, self, None, None);
            }
        }
        r
    }

    /// The head of the list in which the slab at `slab` belongs once one
    /// more of its objects is free.
    pub open spec fn list_after_free(&self, slab: usize) -> usize {
        let cache = self.node_caches@[self.slab_at(slab).class@].unwrap();
        if self.slab_at(slab).slab.inuse == 1 {
            (cache + FREE_HEAD) as usize
        } else {
            (cache + PARTIAL_HEAD) as usize
        }
    }

    /// What giving back the block at `ptr`, of `size` bytes, has done to
    /// the allocator.
    ///
    /// A block above the largest object, or at the null address, is not
    /// taken back: nothing changes. Any other block is in use no longer
    /// and is the next object that its slab hands out; the slab goes to
    /// the front of the list of the partly used slabs, or of the unused
    /// ones, where it did not belong there before. No other object is
    /// handed out or taken back, and the heap is left as it was.
    pub open spec fn dealloc_gives(&self, after: &SlabAllocator, ptr: usize, size: usize) -> bool {
        if size > MAX_SLAB_SIZE || ptr == 0 {
            *after == *self
        } else {
            let slab = self.slab_of(ptr);
            &&& !after.is_live(ptr)
            &&& forall|q: usize| q != ptr ==> #[trigger] after.is_live(q) == self.is_live(q)
            &&& after.page_alloc == self.page_alloc
            &&& after.node_caches == self.node_caches
            &&& after.is_slab(slab)
            &&& after.slab_at(slab).object_address(after.slab_at(slab).slab.free as int) == ptr
            &&& after.slab_at(slab).slab.inuse == self.slab_at(slab).slab.inuse - 1
            &&& after.slab_at(slab).free_chain@ == seq![
                self.slab_at(slab).object_index(ptr) as BufCtl,
            ] + self.slab_at(slab).free_chain@
            &&& self.slabs_kept_but(after, Some(slab))
            &&& after.rings@ == if self.list_after_free(slab) == self.list_for(slab) {
                self.rings@
            } else {
                self.rings_after_move(slab, self.list_after_free(slab))
            }
        }
    }

    /// Whether the block at `ptr`, of `size` bytes, can be given back: it
    /// is above the largest object or at the null address, or it is an
    /// object in use of the class of `size`.
    pub open spec fn can_dealloc(&self, ptr: usize, size: usize) -> bool {
        size > MAX_SLAB_SIZE || ptr == 0 || (size > 0 && self.is_live(ptr) && self.class_of(ptr)
            == class_index(size as int))
    }

    /// Gives back the block at `ptr`, which was asked for with `size`
    /// bytes. The alignment is not looked at.
    pub fn deallocate(&mut self, ptr: usize, size: usize, align: usize)
        requires
            old(self).wf(),
            old(self).can_dealloc(ptr, size),
        ensures
            final(self).wf(),
            old(self).dealloc_gives(final(self), ptr, size),
    {
        if size > MAX_SLAB_SIZE || ptr == 0 {
            return ;
        }
        let class = size_class(size);
        let slab = page_base(ptr);
        proof {
            lemma_class_index(size as int);
            self.lemma_live_in_page(ptr);
            self.lemma_page_of_address(ptr);
            self.lemma_slab(self.slab_of(ptr));
            assert(slab == self.slab_of(ptr)) by {
                let p = self.page_index(ptr);
                let offset = self.page_offset(ptr);
                assert(self.heap_start % PAGE_SIZE == 0);
                assert(ptr == self.heap_start + p * PAGE_SIZE + offset);
                vstd::arithmetic::div_mod::lemma_fundamental_div_mod(
                    self.heap_start as int,
                    PAGE_SIZE as int,
                );
                let base = self.heap_start / PAGE_SIZE;
                assert(PAGE_SIZE * base + p * PAGE_SIZE == (base + p) * PAGE_SIZE)
                    by (nonlinear_arith);
                vstd::arithmetic::div_mod::lemma_fundamental_div_mod_converse(
                    ptr as int,
                    PAGE_SIZE as int,
                    base + p,
                    offset,
                );
            }
            self.lemma_in_list(slab);
            self.lemma_heads_of(class as int);
            self.lemma_partition_but(slab);
        }
        let cache: usize = match self.node_caches[class] {
            Some(cache) => cache,
            None => {
                return ;
            },
        };
        let (obj_size, num) = self.cache_info(cache);
        let was_full: bool = self.slab_inuse(slab) == num;
        self.give_object(slab, ptr, obj_size);
        let ghost given = *self;
        proof {
            let page = given.slab_at(slab);
            old(self).lemma_content_written(&given, slab, page);
            old(self).lemma_content_at(&given, slab, page, (cache + FREE_HEAD) as usize);
            old(self).lemma_content_at(&given, slab, page, (cache + PARTIAL_HEAD) as usize);
            assert forall|q: usize| q != ptr implies #[trigger] given.is_live(q) == old(self).is_live(
                q,
            ) by {
                old(self).lemma_content_live(&given, slab, page, q);
            }
            old(self).lemma_content_live(&given, slab, page, ptr);
            old(self).lemma_content_kept(&given, slab, page);
            given.lemma_heads_of(class as int);
        }
        if self.slab_inuse(slab) == 0 {
            self.move_slab(slab, cache + FREE_HEAD);
            proof {
                given.lemma_slabs_kept_lists(self);
                old(self).lemma_slabs_kept_twice(&given, self, Some(slab), None);
                given.lemma_kept_at(self, slab);
                self.lemma_partition_whole(slab);
                assert forall|q: usize| #[trigger] self.is_live(q) == given.is_live(q) by {
                    given.lemma_live_kept(self, q);
                }
            }
        } else if was_full {
            self.move_slab(slab, cache + PARTIAL_HEAD);
            proof {
                given.lemma_slabs_kept_lists(self);
                old(self).lemma_slabs_kept_twice(&given, self, Some(slab), None);
                given.lemma_kept_at(self, slab);
                self.lemma_partition_whole(slab);
                assert forall|q: usize| #[trigger] self.is_live(q) == given.is_live(q) by {
                    given.lemma_live_kept(self, q);
                }
            }
        } else {
            proof {
                self.lemma_partition_whole(slab);
            }
        }
    }

    /// Whether the block at `ptr`, of `size` bytes, can be given back.
    pub fn can_deallocate(&self, ptr: usize, size: usize) -> (can: bool)
        requires
            self.wf(),
        ensures
            can == self.can_dealloc(ptr, size),
    {
        if size > MAX_SLAB_SIZE || ptr == 0 {
            return true;
        }
        if size == 0 || ptr < self.heap_start {
            return false;
        }
        let index: usize = (ptr - self.heap_start) / PAGE_SIZE;
        if index >= self.pages.len() {
            return false;
        }
        proof {
            self.lemma_page_of_address(ptr);
            lemma_class_index(size as int);
            if self.is_slab(self.slab_of(ptr)) {
                self.lemma_slab(self.slab_of(ptr));
            }
        }
        let class = size_class(size);
        let obj_size = object_size(class);
        match &self.pages[index] {
            Page::Slab(page) => {
                if page.bufctl.len() != slab_capacity(obj_size) {
                    return false;
                }
                proof {
                    lemma_capacity_names_class(page.class@, class as int);
                }
                page.is_in_use(ptr, obj_size)
            },
            _ => false,
        }
    }
}

} // verus!
