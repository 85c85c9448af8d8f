//! Handing out and taking back the objects of a slab that stands in the
//! table of the allocator.

use vstd::prelude::*;
use crate::allocator::layout::{
    class_index, class_name, class_size, objects_per_slab, MAX_CLASSES, PAGE_SIZE,
};
use crate::allocator::slab::{Page, SlabAllocator, SlabPage};

verus! {

impl SlabAllocator {
    /// Whether `after` is this allocator with the slab at `slab` holding
    /// `page`, which differs from what the slab held in the objects in use
    /// at most: in the count, the free chain and the free-index array.
    pub open spec fn content_written(&self, after: &SlabAllocator, slab: usize, page: SlabPage) -> bool {
        &&& self.is_slab(slab)
        &&& after.page_alloc == self.page_alloc
        &&& after.node_caches == self.node_caches
        &&& after.heap_start == self.heap_start
        &&& after.rings == self.rings
        &&& after.pages@ == self.pages@.update(self.page_index(slab), Page::Slab(page))
        &&& page.slab.list == self.slab_at(slab).slab.list
        &&& page.slab.s_mem == self.slab_at(slab).slab.s_mem
        &&& page.class == self.slab_at(slab).class
        &&& page.home == self.slab_at(slab).home
    }

    /// What lies at `a` after the objects of a slab were written.
    pub proof fn lemma_content_at(&self, after: &SlabAllocator, slab: usize, page: SlabPage, a: usize)
        requires
            self.content_written(after, slab, page),
        ensures
            after.in_table(a) == self.in_table(a),
            after.is_slab(a) == self.is_slab(a),
            after.is_head(a) == self.is_head(a),
            after.is_node(a) == self.is_node(a),
            after.is_cache(a) == self.is_cache(a),
            self.in_table(a) ==> after.node_at(a) == self.node_at(a),
            after.cache_of_head(a) == self.cache_of_head(a),
            after.slab_of(a) == self.slab_of(a),
            self.is_cache(a) ==> after.cache_at(a) == self.cache_at(a),
            self.is_slab(a) && a != slab ==> after.slab_at(a) == self.slab_at(a),
            after.slab_at(slab) == page,
            self.is_slab(a) ==> after.slab_at(a).home == self.slab_at(a).home && after.slab_at(
                a,
            ).class == self.slab_at(a).class && after.slab_at(a).slab.s_mem == self.slab_at(
                a,
            ).slab.s_mem,
    {
        if self.in_table(a) && self.in_table(slab) && a != slab && self.page_offset(a) == 0
            && self.page_offset(slab) == 0 {
            vstd::arithmetic::div_mod::lemma_fundamental_div_mod(
                a - self.heap_start,
                PAGE_SIZE as int,
            );
            vstd::arithmetic::div_mod::lemma_fundamental_div_mod(
                slab - self.heap_start,
                PAGE_SIZE as int,
            );
        }
    }

    proof fn lemma_content_links(&self, after: &SlabAllocator, slab: usize, page: SlabPage)
        requires
            self.links_ok(),
            self.content_written(after, slab, page),
        ensures
            after.links_ok(),
    {
        assert forall|a: usize|
            after.is_node(a) == self.is_node(a) && (self.is_node(a) ==> after.node_at(a)
                == self.node_at(a)) by {
            self.lemma_content_at(after, slab, page, a);
        }
        assert(after.node_map() =~= self.node_map());
        reveal(SlabAllocator::links_ok);
        assert forall|a: usize| #[trigger] after.rings@.dom().contains(a) <==> after.is_head(a) by {
            self.lemma_content_at(after, slab, page, a);
        }
        assert forall|h: usize, m: usize| after.rings@.dom().contains(h) implies (
        #[trigger] after.rings@[h].contains(m) <==> after.is_slab(m) && after.slab_at(m).home@
            == Some(h)) by {
            self.lemma_content_at(after, slab, page, m);
        }
        assert forall|m: usize| #[trigger] after.is_slab(m) implies match after.slab_at(m).home@ {
            None => true,
            Some(h) => after.is_head(h) && after.node_caches@[after.slab_at(m).class@] == Some(
                after.cache_of_head(h) as usize,
            ),
        } by {
            self.lemma_content_at(after, slab, page, m);
            assert(self.is_slab(m));
            if let Some(h) = after.slab_at(m).home@ {
                self.lemma_content_at(after, slab, page, h);
            }
        }
    }

    proof fn lemma_content_caches(&self, after: &SlabAllocator, slab: usize, page: SlabPage)
        requires
            self.caches_ok(),
            self.content_written(after, slab, page),
        ensures
            after.caches_ok(),
    {
        reveal(SlabAllocator::caches_ok);
        assert forall|c: int| 0 <= c < MAX_CLASSES implies match #[trigger] after.node_caches@[c] {
            None => true,
            Some(a) => {
                &&& after.is_cache(a)
                &&& after.cache_at(a).objsize == class_size(c)
                &&& after.cache_at(a).num == objects_per_slab(class_size(c))
                &&& after.cache_at(a).name@ == class_name(c)
            },
        } by {
            if let Some(a) = self.node_caches@[c] {
                self.lemma_content_at(after, slab, page, a);
            }
        }
        assert forall|p: int| 0 <= p < after.pages@.len() implies match #[trigger] after.pages@[p] {
            Page::Cache(other) => {
                &&& 0 <= class_index(other.objsize as int) < MAX_CLASSES
                &&& after.node_caches@[class_index(other.objsize as int)] == Some(
                    after.page_address(p) as usize,
                )
            },
            _ => true,
        } by {
            if p != self.page_index(slab) {
                assert(after.pages@[p] == self.pages@[p]);
            }
        }
    }

    proof fn lemma_content_slabs(&self, after: &SlabAllocator, slab: usize, page: SlabPage)
        requires
            self.slabs_ok(),
            self.content_written(after, slab, page),
            page.content_ok(),
        ensures
            after.slabs_ok(),
    {
        reveal(SlabAllocator::slabs_ok);
        assert forall|p: int| 0 <= p < after.pages@.len() implies #[trigger] after.slab_ok(p) by {
            assert(self.slab_ok(p));
            if p != self.page_index(slab) {
                assert(after.pages@[p] == self.pages@[p]);
            }
        }
    }

    /// Writing the objects of a slab leaves the allocator sound, but that
    /// the slab may belong in another list than before.
    pub proof fn lemma_content_written(&self, after: &SlabAllocator, slab: usize, page: SlabPage)
        requires
            self.heap_ok(),
            self.caches_ok(),
            self.slabs_ok(),
            self.links_ok(),
            self.partition_ok_but(slab),
            self.content_written(after, slab, page),
            page.content_ok(),
        ensures
            after.heap_ok(),
            after.caches_ok(),
            after.slabs_ok(),
            after.links_ok(),
            after.partition_ok_but(slab),
            after.is_slab(slab),
            after.slab_at(slab) == page,
    {
        self.lemma_content_at(after, slab, page, slab);
        self.lemma_content_caches(after, slab, page);
        self.lemma_content_slabs(after, slab, page);
        self.lemma_content_links(after, slab, page);
        reveal(SlabAllocator::partition_ok_but);
        assert forall|m: usize| #[trigger] after.is_slab(m) && m != slab implies after.slab_at(m).home@
            == Some(after.list_for(m)) by {
            self.lemma_content_at(after, slab, page, m);
        }
    }

    /// Which objects are in use after the objects of a slab were written:
    /// those of the slab that the slab holds now, and those of the other
    /// slabs that were in use.
    pub proof fn lemma_content_live(&self, after: &SlabAllocator, slab: usize, page: SlabPage, q: usize)
        requires
            self.content_written(after, slab, page),
        ensures
            self.slab_of(q) != slab ==> after.is_live(q) == self.is_live(q),
            self.slab_of(q) == slab ==> after.is_live(q) == (q >= self.heap_start && page.holds(q)),
            self.slab_of(q) == slab ==> self.is_live(q) == (q >= self.heap_start && self.slab_at(
                slab,
            ).holds(q)),
            self.is_live(q) && after.is_live(q) ==> after.class_of(q) == self.class_of(q),
    {
        self.lemma_content_at(after, slab, page, self.slab_of(q));
        self.lemma_content_at(after, slab, page, q);
    }

    /// Writing the objects of a slab leaves the objects of the other slabs
    /// as they were.
    pub proof fn lemma_content_kept(&self, after: &SlabAllocator, slab: usize, page: SlabPage)
        requires
            self.content_written(after, slab, page),
        ensures
            self.slabs_kept_but(after, Some(slab)),
    {
        reveal(SlabAllocator::slabs_kept_but);
        assert forall|m: usize| #[trigger] self.is_slab(m) && m != slab implies after.is_slab(m)
            && after.slab_at(m) == self.slab_at(m) by {
            self.lemma_content_at(after, slab, page, m);
        }
    }

    /// Reads the size of the objects and the capacity of the slabs of the
    /// cache at `cache`.
    pub fn cache_info(&self, cache: usize) -> (info: (usize, usize))
        requires
            self.is_cache(cache),
        ensures
            info.0 == self.cache_at(cache).objsize,
            info.1 == self.cache_at(cache).num,
    {
        let index: usize = (cache - self.heap_start) / PAGE_SIZE;
        match &self.pages[index] {
            Page::Cache(cache) => (cache.objsize, cache.num),
            _ => (0, 0),
        }
    }

    /// Reads the number of objects in use of the slab at `slab`.
    pub fn slab_inuse(&self, slab: usize) -> (inuse: usize)
        requires
            self.is_slab(slab),
        ensures
            inuse == self.slab_at(slab).slab.inuse,
    {
        let index: usize = (slab - self.heap_start) / PAGE_SIZE;
        match &self.pages[index] {
            Page::Slab(page) => page.slab.inuse,
            _ => 0,
        }
    }

    /// Hands out the first free object of the slab at `slab`.
    pub fn take_object(&mut self, slab: usize, obj_size: usize) -> (ptr: usize)
        requires
            old(self).is_slab(slab),
            old(self).slab_at(slab).content_ok(),
            obj_size == old(self).slab_at(slab).object_size(),
            old(self).slab_at(slab).slab.inuse < old(self).slab_at(slab).capacity(),
            old(self).slab_at(slab).slab.s_mem + old(self).slab_at(slab).capacity() * old(
                self,
            ).slab_at(slab).object_size() <= usize::MAX,
        ensures
            old(self).content_written(final(self), slab, final(self).slab_at(slab)),
            old(self).slab_at(slab).taken(final(self).slab_at(slab), ptr),
    {
        let index: usize = (slab - self.heap_start) / PAGE_SIZE;
        let mut ptr: usize = 0;
        match &mut self.pages[index] {
            Page::Slab(page) => {
                ptr = page.take(obj_size);
            },
            _ => {},
        }
        ptr
    }

    /// Takes back the object at `ptr` of the slab at `slab`.
    pub fn give_object(&mut self, slab: usize, ptr: usize, obj_size: usize)
        requires
            old(self).is_slab(slab),
            old(self).slab_at(slab).content_ok(),
            obj_size == old(self).slab_at(slab).object_size(),
            old(self).slab_at(slab).holds(ptr),
        ensures
            old(self).content_written(final(self), slab, final(self).slab_at(slab)),
            old(self).slab_at(slab).given(final(self).slab_at(slab), ptr),
    {
        let index: usize = (slab - self.heap_start) / PAGE_SIZE;
        match &mut self.pages[index] {
            Page::Slab(page) => {
                page.give(ptr, obj_size);
            },
            _ => {},
        }
    }
}

} // verus!
