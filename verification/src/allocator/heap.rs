//! The heap under the allocator: installing it, and taking pages from it
//! for large requests, for caches and for slabs.

use vstd::prelude::*;
use crate::allocator::layout::{
    align_up_word, cache_name, class_index, class_name, class_size, first_object_offset,
    lemma_slab_fits, object_size, objects_per_slab, slab_capacity, BUFCTL_SIZE, MAX_CLASSES,
    PAGE_SIZE, SLAB_HEADER_SIZE,
};
use crate::allocator::list::{lemma_ring_untouched, ring_linked, ring_of, ListNode};
use crate::allocator::page_bump::PageBump;
use crate::allocator::slab::{
    is_free_chain, BufCtl, Cache, Page, Slab, SlabAllocator, SlabPage, BUFCTL_END, FREE_HEAD,
    FULL_HEAD, PARTIAL_HEAD,
};

verus! {

/// The free chain of a slab of which nothing is in use: every object, in
/// the order of the addresses.
pub open spec fn fresh_chain(num: int) -> Seq<BufCtl> {
    Seq::new(num as nat, |i: int| i as BufCtl)
}

/// The free-index array of a slab of which nothing is in use: each object
/// names the next one, the last one names the end.
pub open spec fn fresh_bufctl(num: int) -> Seq<BufCtl> {
    Seq::new(
        num as nat,
        |i: int|
            if i + 1 < num {
                (i + 1) as BufCtl
            } else {
                BUFCTL_END
            },
    )
}

/// Writes the free-index array of a new slab of `num` objects: the chain
/// `0, 1, ..., num - 1`.
pub fn new_bufctl(num: usize) -> (bufctl: Vec<BufCtl>)
    requires
        num <= 338,
    ensures
        bufctl@ == fresh_bufctl(num as int),
{
    let mut bufctl: Vec<BufCtl> = Vec::new();
    let mut i: usize = 0;
    while i < num
        invariant
            i <= num <= 338,
            bufctl@.len() == i,
            forall|j: int|
                0 <= j < i ==> bufctl@[j] == if j + 1 < num {
                    (j + 1) as BufCtl
                } else {
                    BUFCTL_END
                },
        decreases num - i,
    {
        if i + 1 < num {
            bufctl.push((i + 1) as BufCtl);
        } else {
            bufctl.push(BUFCTL_END);
        }
        i += 1;
    }
    assert(bufctl@ =~= fresh_bufctl(num as int));
    bufctl
}

/// The chain of a new slab is the free chain of its free-index array.
pub proof fn lemma_fresh_chain(num: int)
    requires
        1 <= num <= 338,
    ensures
        is_free_chain(fresh_bufctl(num), 0, fresh_chain(num)),
        fresh_chain(num).len() == num,
{
}

impl SlabAllocator {
    /// The address of the next page that the heap hands out.
    pub open spec fn cursor(&self) -> int {
        match self.page_alloc {
            Some(bump) => bump.next as int,
            None => 0,
        }
    }

    /// The number of pages that the heap has left.
    pub open spec fn pages_left(&self) -> int {
        match self.page_alloc {
            Some(bump) => bump.pages_left(),
            None => 0,
        }
    }

    /// The start of the page that holds `ptr`.
    pub open spec fn slab_of(&self, ptr: usize) -> usize {
        (ptr - self.page_offset(ptr)) as usize
    }

    /// Whether `ptr` is the address of an object that is in use.
    pub open spec fn is_live(&self, ptr: usize) -> bool {
        &&& ptr >= self.heap_start
        &&& self.is_slab(self.slab_of(ptr))
        &&& self.slab_at(self.slab_of(ptr)).holds(ptr)
    }

    /// The size class of the slab that holds `ptr`.
    pub open spec fn class_of(&self, ptr: usize) -> int {
        self.slab_at(self.slab_of(ptr)).class@
    }

    /// Whether `after` is this allocator with the pages `added` taken
    /// from the heap; which caches there are and what the lists hold is
    /// left open.
    pub open spec fn appended(&self, after: &SlabAllocator, added: Seq<Page>) -> bool {
        &&& self.page_alloc is Some
        &&& after.page_alloc == Some(
            PageBump {
                next: (self.cursor() + added.len() * PAGE_SIZE) as usize,
                end: self.page_alloc.unwrap().end,
            },
        )
        &&& self.cursor() + added.len() * PAGE_SIZE <= self.page_alloc.unwrap().end
        &&& after.heap_start == self.heap_start
        &&& after.pages@ == self.pages@ + added
    }

    /// Taking pages from the heap leaves the pages that were there as they
    /// were.
    pub proof fn lemma_appended_kept(&self, after: &SlabAllocator, added: Seq<Page>, a: usize)
        requires
            self.heap_ok(),
            self.appended(after, added),
        ensures
            after.heap_ok(),
            self.in_table(a) ==> after.in_table(a) && after.page_of(a) == self.page_of(a),
            self.is_slab(a) ==> after.is_slab(a) && after.slab_at(a) == self.slab_at(a),
            self.is_cache(a) ==> after.is_cache(a) && after.cache_at(a) == self.cache_at(a),
            self.is_head(a) ==> after.is_head(a),
            self.is_node(a) ==> after.is_node(a) && after.node_at(a) == self.node_at(a),
            after.in_table(a) && !self.in_table(a) ==> self.pages@.len() <= after.page_index(a)
                && after.page_of(a) == added[after.page_index(a) - self.pages@.len()],
            after.page_offset(a) == self.page_offset(a),
            after.page_index(a) == self.page_index(a),
            after.cache_of_head(a) == self.cache_of_head(a),
            after.slab_of(a) == self.slab_of(a),
    {
        let bump = self.page_alloc.unwrap();
        assert((self.pages@.len() + added.len()) * PAGE_SIZE == self.pages@.len() * PAGE_SIZE
            + added.len() * PAGE_SIZE) by (nonlinear_arith);
    }

    /// The address of a page of the table is a multiple of the page size
    /// away from the start of the heap, and names that page.
    pub proof fn lemma_page_address(&self, p: int)
        requires
            self.heap_ok(),
            self.page_alloc is Some,
            0 <= p < self.pages@.len(),
        ensures
            self.heap_start <= self.page_address(p) < self.cursor() <= usize::MAX,
            self.page_address(p) + PAGE_SIZE <= self.cursor(),
            self.page_index(self.page_address(p) as usize) == p,
            self.page_offset(self.page_address(p) as usize) == 0,
            self.in_table(self.page_address(p) as usize),
            forall|offset: int|
                0 <= offset < PAGE_SIZE ==> self.page_index(
                    (#[trigger] (self.page_address(p) + offset)) as usize,
                ) == p && self.page_offset((self.page_address(p) + offset) as usize) == offset,
    {
        assert(p * PAGE_SIZE + PAGE_SIZE <= self.pages@.len() * PAGE_SIZE) by (nonlinear_arith)
            requires
                p + 1 <= self.pages@.len(),
        ;
        assert(p * PAGE_SIZE >= 0) by (nonlinear_arith)
            requires
                p >= 0,
        ;
        assert forall|offset: int| 0 <= offset < PAGE_SIZE implies self.page_index(
            (#[trigger] (self.page_address(p) + offset)) as usize,
        ) == p && self.page_offset((self.page_address(p) + offset) as usize) == offset by {
            vstd::arithmetic::div_mod::lemma_fundamental_div_mod_converse(
                p * PAGE_SIZE + offset,
                PAGE_SIZE as int,
                p,
                offset,
            );
        }
        assert(self.page_address(p) + 0 == self.page_address(p));
    }

    /// An address in the table lies in the page that its number names.
    pub proof fn lemma_page_of_address(&self, a: usize)
        requires
            self.heap_ok(),
            self.in_table(a),
        ensures
            self.page_alloc is Some,
            0 <= self.page_index(a) < self.pages@.len(),
            0 <= self.page_offset(a) < PAGE_SIZE,
            a == self.page_address(self.page_index(a)) + self.page_offset(a),
            self.slab_of(a) == self.page_address(self.page_index(a)),
            self.in_table(self.slab_of(a)),
            self.page_index(self.slab_of(a)) == self.page_index(a),
            self.page_offset(self.slab_of(a)) == 0,
            a < self.cursor(),
    {
        vstd::arithmetic::div_mod::lemma_fundamental_div_mod(
            a - self.heap_start,
            PAGE_SIZE as int,
        );
        let p = self.page_index(a);
        assert(PAGE_SIZE * p == p * PAGE_SIZE) by (nonlinear_arith);
        self.lemma_page_address(p);
    }

    /// Installs the heap: the region of `heap_size` bytes at `heap_start`.
    ///
    /// The heap is installed, and `true` returned, exactly when there was
    /// none before and the region starts and ends on page boundaries below
    /// the end of the address space; an allocator that returns `false` is
    /// left as it was.
    pub fn init(&mut self, heap_start: usize, heap_size: usize) -> (installed: bool)
        requires
            old(self).wf(),
        ensures
            final(self).wf(),
            installed == (old(self).page_alloc is None && heap_start % PAGE_SIZE == 0 && heap_size
                % PAGE_SIZE == 0 && heap_start + heap_size <= usize::MAX),
            installed ==> final(self).page_alloc == Some(
                PageBump { next: heap_start, end: (heap_start + heap_size) as usize },
            ) && final(self).heap_start == heap_start && final(self).pages@.len() == 0,
            !installed ==> *final(self) == *old(self),
            forall|q: usize| #[trigger] final(self).is_live(q) == old(self).is_live(q),
    {
        if self.page_alloc.is_some() || heap_start % PAGE_SIZE != 0 || heap_size % PAGE_SIZE != 0
            || heap_size > usize::MAX - heap_start {
            return false;
        }
        self.page_alloc = Some(PageBump::new(heap_start, heap_size));
        self.heap_start = heap_start;
        proof {
            reveal(SlabAllocator::caches_ok);
            reveal(SlabAllocator::slabs_ok);
            reveal(SlabAllocator::links_ok);
            reveal(SlabAllocator::partition_ok);
            assert forall|a: usize| !self.in_table(a) && !old(self).in_table(a) by {}
        }
        true
    }

    /// Whether every slab but `changed` has in `after` the objects in use
    /// and the free chain that it has here.
    #[verifier::opaque]
    pub open spec fn slabs_kept_but(&self, after: &SlabAllocator, changed: Option<usize>) -> bool {
        forall|m: usize| #[trigger]
            self.is_slab(m) && Some(m) != changed ==> after.is_slab(m) && after.slab_at(m).class
                == self.slab_at(m).class && after.slab_at(m).slab.inuse == self.slab_at(
                m,
            ).slab.inuse && after.slab_at(m).free_chain == self.slab_at(m).free_chain
    }

    /// Slabs that are what they were have kept their objects.
    pub proof fn lemma_slabs_same(&self, after: &SlabAllocator)
        requires
            forall|m: usize| #[trigger]
                self.is_slab(m) ==> after.is_slab(m) && after.slab_at(m) == self.slab_at(m),
        ensures
            self.slabs_kept_but(after, None),
    {
        reveal(SlabAllocator::slabs_kept_but);
    }

    /// The objects of the slabs do not lie in the lists.
    pub proof fn lemma_slabs_kept_lists(&self, after: &SlabAllocator)
        requires
            self.same_but_lists(after),
        ensures
            self.slabs_kept_but(after, None),
    {
        reveal(SlabAllocator::slabs_kept_but);
        assert forall|m: usize| #[trigger] self.is_slab(m) implies after.is_slab(m) && after.slab_at(
            m,
        ).class == self.slab_at(m).class && after.slab_at(m).slab.inuse == self.slab_at(
            m,
        ).slab.inuse && after.slab_at(m).free_chain == self.slab_at(m).free_chain by {
            self.lemma_kept_at(after, m);
        }
    }

    /// Keeping the objects of the slabs carries over two steps that change
    /// at most one slab between them.
    pub proof fn lemma_slabs_kept_twice(
        &self,
        middle: &SlabAllocator,
        last: &SlabAllocator,
        first_changed: Option<usize>,
        then_changed: Option<usize>,
    )
        requires
            self.slabs_kept_but(middle, first_changed),
            middle.slabs_kept_but(last, then_changed),
            first_changed is None || then_changed is None || first_changed == then_changed,
        ensures
            self.slabs_kept_but(
                last,
                if first_changed is None {
                    then_changed
                } else {
                    first_changed
                },
            ),
    {
        reveal(SlabAllocator::slabs_kept_but);
    }

    /// What keeping the objects says of one slab.
    pub proof fn lemma_slab_kept(&self, after: &SlabAllocator, changed: Option<usize>, m: usize)
        requires
            self.slabs_kept_but(after, changed),
            self.is_slab(m),
            Some(m) != changed,
        ensures
            after.is_slab(m),
            after.slab_at(m).class == self.slab_at(m).class,
            after.slab_at(m).slab.inuse == self.slab_at(m).slab.inuse,
            after.slab_at(m).free_chain == self.slab_at(m).free_chain,
    {
        reveal(SlabAllocator::slabs_kept_but);
    }

    /// Whether `page` is a new slab of a class of this allocator for the
    /// page at `address`: nothing of it is in use, and it is in no list.
    pub open spec fn is_fresh_slab(&self, page: SlabPage, address: int) -> bool {
        &&& 0 <= page.class@ < MAX_CLASSES
        &&& self.node_caches@[page.class@] is Some
        &&& page.slab.s_mem == address + first_object_offset(class_size(page.class@))
        &&& page.slab.inuse == 0
        &&& page.slab.free == 0
        &&& page.bufctl@ == fresh_bufctl(page.capacity())
        &&& page.free_chain@ == fresh_chain(page.capacity())
        &&& page.home@ is None
    }

    /// Whether the pages `added` are pages of large requests and new
    /// slabs.
    pub open spec fn plain_pages(&self, added: Seq<Page>) -> bool {
        forall|i: int|
            0 <= i < added.len() ==> match #[trigger] added[i] {
                Page::Large => true,
                Page::Cache(_) => false,
                Page::Slab(page) => self.is_fresh_slab(page, self.page_address(self.pages@.len() + i)),
            }
    }

    /// Whether `after` is this allocator with the pages `added` taken from
    /// the heap for large requests and new slabs, with the caches and the
    /// lists as they were.
    pub open spec fn plainly_appended(&self, after: &SlabAllocator, added: Seq<Page>) -> bool {
        &&& self.appended(after, added)
        &&& self.plain_pages(added)
        &&& after.node_caches == self.node_caches
        &&& after.rings == self.rings
    }

    proof fn lemma_plain_caches(&self, after: &SlabAllocator, added: Seq<Page>)
        requires
            self.heap_ok(),
            self.caches_ok(),
            self.plainly_appended(after, added),
        ensures
            after.caches_ok(),
    {
        reveal(SlabAllocator::caches_ok);
        assert forall|c: int| 0 <= c < MAX_CLASSES implies match #[trigger] after.node_caches@[c] {
            None => true,
            Some(a) => {
                &&& after.is_cache(a)
                &&& after.cache_at(a).objsize == class_size(c)
                &&& after.cache_at(a).num == objects_per_slab(class_size(c))
                &&& after.cache_at(a).name@ == class_name(c)
            },
        } by {
            if let Some(a) = self.node_caches@[c] {
                self.lemma_appended_kept(after, added, a);
            }
        }
        assert forall|p: int| 0 <= p < after.pages@.len() implies match #[trigger] after.pages@[p] {
            Page::Cache(cache) => {
                &&& 0 <= class_index(cache.objsize as int) < MAX_CLASSES
                &&& after.node_caches@[class_index(cache.objsize as int)] == Some(
                    after.page_address(p) as usize,
                )
            },
            _ => true,
        } by {
            if p < self.pages@.len() {
                assert(after.pages@[p] == self.pages@[p]);
            } else {
                assert(after.pages@[p] == added[p - self.pages@.len()]);
            }
        }
    }

    proof fn lemma_plain_slabs(&self, after: &SlabAllocator, added: Seq<Page>)
        requires
            self.heap_ok(),
            self.slabs_ok(),
            self.plainly_appended(after, added),
        ensures
            after.slabs_ok(),
    {
        reveal(SlabAllocator::slabs_ok);
        assert forall|p: int| 0 <= p < after.pages@.len() implies #[trigger] after.slab_ok(p) by {
            if p < self.pages@.len() {
                assert(after.pages@[p] == self.pages@[p]);
                assert(self.slab_ok(p));
            } else {
                let i = p - self.pages@.len();
                assert(after.pages@[p] == added[i]);
                if let Page::Slab(page) = added[i] {
                    lemma_slab_fits(page.class@);
                    lemma_fresh_chain(page.capacity());
                }
            }
        }
    }

    /// A slab or a head after pages were taken for large requests and new
    /// slabs was one before, or is a new slab.
    proof fn lemma_plain_kinds(&self, after: &SlabAllocator, added: Seq<Page>, a: usize)
        requires
            self.heap_ok(),
            self.plainly_appended(after, added),
        ensures
            after.is_head(a) <==> self.is_head(a),
            self.is_slab(a) ==> after.is_slab(a) && after.slab_at(a) == self.slab_at(a),
            after.is_slab(a) && !self.is_slab(a) ==> !self.in_table(a) && after.slab_at(a).home@
                is None && self.is_fresh_slab(after.slab_at(a), a as int) && a >= self.cursor(),
            self.is_node(a) ==> after.is_node(a) && after.node_at(a) == self.node_at(a),
            after.cache_of_head(a) == self.cache_of_head(a),
    {
        self.lemma_appended_kept(after, added, a);
        if after.in_table(a) && !self.in_table(a) {
            let i = after.page_index(a) - self.pages@.len();
            assert(after.page_of(a) == added[i]);
            after.lemma_page_of_address(a);
        }
    }

    proof fn lemma_plain_links(&self, after: &SlabAllocator, added: Seq<Page>)
        requires
            self.heap_ok(),
            self.links_ok(),
            self.plainly_appended(after, added),
        ensures
            after.links_ok(),
    {
        assert forall|h: usize| after.rings@.dom().contains(h) implies ring_linked(
            after.node_map(),
            h,
            #[trigger] after.rings@[h],
        ) by {
            reveal(SlabAllocator::links_ok);
            let members = self.rings@[h];
            self.lemma_plain_kinds(after, added, h);
            assert(ring_linked(self.node_map(), h, members));
            assert(ring_of(h, members)[0] == h);
            assert forall|i: int| 0 <= i < members.len() implies after.node_map().dom().contains(
                #[trigger] members[i],
            ) && after.node_map()[members[i]] == self.node_map()[members[i]] by {
                assert(ring_of(h, members)[i + 1] == members[i]);
                self.lemma_plain_kinds(after, added, members[i]);
            }
            lemma_ring_untouched(self.node_map(), after.node_map(), h, members);
        }
        assert forall|h: usize, m: usize| after.rings@.dom().contains(h) implies (
        #[trigger] after.rings@[h].contains(m) <==> after.is_slab(m) && after.slab_at(m).home@
            == Some(h)) by {
            reveal(SlabAllocator::links_ok);
            self.lemma_plain_kinds(after, added, m);
            assert(self.rings@[h].contains(m) <==> self.is_slab(m) && self.slab_at(m).home@
                == Some(h));
        }
        assert forall|a: usize| #[trigger] after.rings@.dom().contains(a) <==> after.is_head(a) by {
            reveal(SlabAllocator::links_ok);
            self.lemma_plain_kinds(after, added, a);
        }
        assert forall|m: usize| #[trigger] after.is_slab(m) implies match after.slab_at(m).home@ {
            None => true,
            Some(h) => after.is_head(h) && after.node_caches@[after.slab_at(m).class@] == Some(
                after.cache_of_head(h) as usize,
            ),
        } by {
            reveal(SlabAllocator::links_ok);
            self.lemma_plain_kinds(after, added, m);
            if let Some(h) = after.slab_at(m).home@ {
                assert(self.is_slab(m));
                self.lemma_plain_kinds(after, added, h);
            }
        }
        reveal(SlabAllocator::links_ok);
    }

    /// Taking pages for large requests and new slabs leaves the allocator
    /// sound, but that the new slabs are not in their lists yet, and hands
    /// out and takes back no object.
    pub proof fn lemma_plainly_appended(&self, after: &SlabAllocator, added: Seq<Page>)
        requires
            self.wf(),
            self.plainly_appended(after, added),
        ensures
            after.heap_ok(),
            after.caches_ok(),
            after.slabs_ok(),
            after.links_ok(),
            forall|m: usize| #[trigger]
                after.is_slab(m) && m < self.cursor() ==> after.slab_at(m).home@ == Some(
                    after.list_for(m),
                ),
            forall|q: usize| #[trigger] after.is_live(q) == self.is_live(q),
    {
        self.lemma_appended_kept(after, added, 0);
        self.lemma_plain_caches(after, added);
        self.lemma_plain_slabs(after, added);
        self.lemma_plain_links(after, added);
        assert forall|m: usize| #[trigger] after.is_slab(m) && m < self.cursor() implies after.slab_at(
            m,
        ).home@ == Some(after.list_for(m)) by {
            reveal(SlabAllocator::partition_ok);
            self.lemma_plain_kinds(after, added, m);
        }
        assert forall|q: usize| #[trigger] after.is_live(q) == self.is_live(q) by {
            let base = self.slab_of(q);
            self.lemma_appended_kept(after, added, q);
            self.lemma_plain_kinds(after, added, base);
            if q >= self.heap_start && after.is_slab(base) && !self.is_slab(base) {
                let page = after.slab_at(base);
                lemma_slab_fits(page.class@);
                if page.holds(q) {
                    let index = page.object_index(q);
                    page.lemma_object_index(q);
                    assert(page.free_chain@[index] == index as BufCtl);
                }
            }
        }
    }

    /// Takes `n` pages from the heap for a large request: the address of
    /// the first one. `None`, with the allocator as it was, exactly when
    /// there is no heap or the heap has fewer than `n` pages left.
    pub fn take_pages(&mut self, n: usize) -> (r: Option<usize>)
        requires
            old(self).wf(),
        ensures
            final(self).wf(),
            match r {
                Some(address) => old(self).page_alloc is Some && n <= old(self).pages_left()
                    && address == old(self).cursor() && final(self).cursor() == old(self).cursor()
                    + n * PAGE_SIZE,
                None => (n > old(self).pages_left() || old(self).page_alloc is None) && *final(self)
                    == *old(self),
            },
            final(self).pages_left() == old(self).pages_left() - (if r is Some {
                n as int
            } else {
                0
            }),
            final(self).node_caches == old(self).node_caches,
            final(self).rings == old(self).rings,
            forall|q: usize| #[trigger] final(self).is_live(q) == old(self).is_live(q),
            old(self).slabs_kept_but(final(self), None),
    {
        proof {
            old(self).lemma_slabs_same(old(self));
        }
        let mut bump = match self.page_alloc {
            Some(bump) => bump,
            None => {
                return None;
            },
        };
        let address = match bump.alloc_pages(n) {
            Some(address) => address,
            None => {
                return None;
            },
        };
        self.page_alloc = Some(bump);
        let mut i: usize = 0;
        while i < n
            invariant
                i <= n,
                self.pages@ == old(self).pages@ + Seq::new(i as nat, |k: int| Page::Large),
                self.page_alloc == Some(bump),
                self.heap_start == old(self).heap_start,
                self.node_caches == old(self).node_caches,
                self.rings == old(self).rings,
            decreases n - i,
        {
            self.pages.push(Page::Large);
            i += 1;
            assert(self.pages@ =~= old(self).pages@ + Seq::new(i as nat, |k: int| Page::Large));
        }
        proof {
            let added = Seq::new(n as nat, |k: int| Page::Large);
            assert(old(self).plainly_appended(self, added));
            old(self).lemma_plainly_appended(self, added);
            assert(self.partition_ok()) by {
                reveal(SlabAllocator::partition_ok);
                assert forall|m: usize| #[trigger] self.is_slab(m) implies self.slab_at(m).home@
                    == Some(self.list_for(m)) by {
                    old(self).lemma_plain_kinds(self, added, m);
                    if !old(self).is_slab(m) {
                        let i = self.page_index(m) - old(self).pages@.len();
                        old(self).lemma_appended_kept(self, added, m);
                        assert(self.page_of(m) == added[i]);
                    } else {
                        old(self).lemma_page_of_address(m);
                    }
                }
            }
            assert forall|m: usize| #[trigger] old(self).is_slab(m) implies self.is_slab(m)
                && self.slab_at(m) == old(self).slab_at(m) by {
                old(self).lemma_plain_kinds(self, added, m);
            }
            old(self).lemma_slabs_same(self);
            vstd::arithmetic::div_mod::lemma_fundamental_div_mod_converse(
                bump.end - old(self).cursor(),
                PAGE_SIZE as int,
                old(self).pages_left(),
                0,
            );
        }
        Some(address)
    }

    /// The heads of the three lists of the cache of a class are heads, and
    /// stand in the page of the cache.
    pub proof fn lemma_heads_of(&self, class: int)
        requires
            self.heap_ok(),
            self.caches_ok(),
            0 <= class < MAX_CLASSES,
            self.node_caches@[class] is Some,
        ensures
            self.page_alloc is Some,
            self.is_cache(self.node_caches@[class].unwrap()),
            self.cache_at(self.node_caches@[class].unwrap()).objsize == class_size(class),
            self.cache_at(self.node_caches@[class].unwrap()).num == objects_per_slab(
                class_size(class),
            ),
            self.cache_at(self.node_caches@[class].unwrap()).name@ == class_name(class),
            self.node_caches@[class].unwrap() + PAGE_SIZE <= self.cursor(),
            forall|offset: usize|
                offset == FULL_HEAD || offset == PARTIAL_HEAD || offset == FREE_HEAD
                    ==> self.is_head((#[trigger] (self.node_caches@[class].unwrap() + offset)) as usize)
                    && self.cache_of_head((self.node_caches@[class].unwrap() + offset) as usize)
                    == self.node_caches@[class].unwrap() && self.page_of(
                    (self.node_caches@[class].unwrap() + offset) as usize,
                ) == self.page_of(self.node_caches@[class].unwrap()) && self.page_offset(
                    (self.node_caches@[class].unwrap() + offset) as usize,
                ) == offset,
    {
        reveal(SlabAllocator::caches_ok);
        let cache = self.node_caches@[class].unwrap();
        self.lemma_page_of_address(cache);
        self.lemma_page_address(self.page_index(cache));
        assert forall|offset: usize|
            offset == FULL_HEAD || offset == PARTIAL_HEAD || offset
                == FREE_HEAD implies self.is_head((#[trigger] (cache + offset)) as usize)
            && self.cache_of_head((cache + offset) as usize) == cache && self.page_of(
            (cache + offset) as usize,
        ) == self.page_of(cache) && self.page_offset((cache + offset) as usize) == offset by {
            let p = self.page_index(cache);
            assert(self.page_index((self.page_address(p) + offset) as usize) == p);
        }
    }

    /// The class of a cache is that of no other cache.
    pub proof fn lemma_cache_class(&self, first: int, second: int)
        requires
            self.caches_ok(),
            0 <= first < MAX_CLASSES,
            0 <= second < MAX_CLASSES,
            self.node_caches@[first] is Some,
            self.node_caches@[first] == self.node_caches@[second],
        ensures
            first == second,
    {
        reveal(SlabAllocator::caches_ok);
    }

    /// Moving a slab between lists leaves every other slab in the list in
    /// which it belongs.
    pub proof fn lemma_partition_kept(&self, after: &SlabAllocator, moved: usize)
        requires
            self.partition_ok_but(moved),
            self.same_but_lists(after),
            self.homes_kept_but(after, Some(moved)),
        ensures
            after.partition_ok_but(moved),
            after.is_slab(moved) && after.slab_at(moved).home@ == Some(after.list_for(moved))
                ==> after.partition_ok(),
            !after.is_slab(moved) ==> after.partition_ok(),
    {
        reveal(SlabAllocator::partition_ok);
        reveal(SlabAllocator::partition_ok_but);
        assert forall|m: usize| #[trigger] after.is_slab(m) && m != moved implies after.slab_at(
            m,
        ).home@ == Some(after.list_for(m)) by {
            self.lemma_kept_at(after, m);
            self.lemma_home_kept(after, Some(moved), m);
        }
    }

    /// A sound allocator has every slab in its list, whichever slab is
    /// looked away from.
    pub proof fn lemma_partition_but(&self, moved: usize)
        requires
            self.partition_ok(),
        ensures
            self.partition_ok_but(moved),
    {
        reveal(SlabAllocator::partition_ok);
        reveal(SlabAllocator::partition_ok_but);
    }

    /// Makes the slabs of a class grow by one: takes a page from the heap,
    /// writes the header and the free chain of a slab into it, and puts
    /// the slab at the front of the list of unused slabs.
    ///
    /// `false`, with the allocator as it was, exactly when the heap has no
    /// page left.
    pub fn alloc_new_slab(&mut self, class: usize) -> (grown: bool)
        requires
            old(self).wf(),
            class < MAX_CLASSES,
            old(self).node_caches@[class as int] is Some,
        ensures
            final(self).wf(),
            grown == (old(self).pages_left() >= 1),
            !grown ==> *final(self) == *old(self),
            grown ==> old(self).grown_by(final(self), class as int),
            forall|q: usize| #[trigger] final(self).is_live(q) == old(self).is_live(q),
            old(self).slabs_kept_but(final(self), None),
    {
        proof {
            old(self).lemma_slabs_same(old(self));
        }
        let cache_address: usize = match self.node_caches[class] {
            Some(address) => address,
            None => {
                return false;
            },
        };
        proof {
            old(self).lemma_heads_of(class as int);
            lemma_slab_fits(class as int);
        }
        let mut bump = match self.page_alloc {
            Some(bump) => bump,
            None => {
                return false;
            },
        };
        let address = match bump.alloc_pages(1) {
            Some(address) => address,
            None => {
                return false;
            },
        };
        let obj_size = object_size(class);
        let num = slab_capacity(obj_size);
        let mut slab = Slab::new(address);
        slab.s_mem = address + align_up_word(SLAB_HEADER_SIZE + num * BUFCTL_SIZE);
        let page = SlabPage {
            slab,
            bufctl: new_bufctl(num),
            class: Ghost(class as int),
            home: Ghost(None),
            free_chain: Ghost(fresh_chain(num as int)),
        };
        self.page_alloc = Some(bump);
        self.pages.push(Page::Slab(page));
        let ghost pushed = *self;
        let ghost added = seq![Page::Slab(page)];
        proof {
            assert(self.pages@ =~= old(self).pages@ + added);
            assert(old(self).plainly_appended(&pushed, added));
            old(self).lemma_plainly_appended(&pushed, added);
            old(self).lemma_plain_kinds(&pushed, added, address);
            old(self).lemma_appended_kept(&pushed, added, address);
            pushed.lemma_page_address(old(self).pages@.len() as int);
            assert(pushed.is_slab(address));
            assert(pushed.partition_ok_but(address)) by {
                reveal(SlabAllocator::partition_ok_but);
            }
            pushed.lemma_heads_of(class as int);
            assert(pushed.is_head((cache_address + FREE_HEAD) as usize));
        }
        self.list_add(address, cache_address + FREE_HEAD);
        proof {
            pushed.lemma_kept_at(self, address);
            pushed.lemma_partition_kept(self, address);
            assert forall|m: usize| #[trigger] old(self).is_slab(m) implies pushed.is_slab(m)
                && pushed.slab_at(m) == old(self).slab_at(m) by {
                old(self).lemma_plain_kinds(&pushed, added, m);
            }
            old(self).lemma_slabs_same(&pushed);
            pushed.lemma_slabs_kept_lists(self);
            old(self).lemma_slabs_kept_twice(&pushed, self, None, None);
            assert forall|q: usize| #[trigger] self.is_live(q) == old(self).is_live(q) by {
                pushed.lemma_live_kept(self, q);
            }
            vstd::arithmetic::div_mod::lemma_fundamental_div_mod_converse(
                bump.end - old(self).cursor(),
                PAGE_SIZE as int,
                old(self).pages_left(),
                0,
            );
        }
        true
    }

    /// Whether `after` is this allocator with one more slab of class
    /// `class`, new and at the front of the list of unused slabs, in the
    /// page that was the next of the heap.
    pub open spec fn grown_by(&self, after: &SlabAllocator, class: int) -> bool {
        let slab = self.cursor() as usize;
        let head = (self.node_caches@[class].unwrap() + FREE_HEAD) as usize;
        &&& after.cursor() == self.cursor() + PAGE_SIZE
        &&& after.pages_left() == self.pages_left() - 1
        &&& after.node_caches == self.node_caches
        &&& after.is_slab(slab)
        &&& after.slab_at(slab).class@ == class
        &&& after.slab_at(slab).slab.inuse == 0
        &&& after.slab_at(slab).slab.free == 0
        &&& after.slab_at(slab).slab.s_mem == slab + first_object_offset(class_size(class))
        &&& after.slab_at(slab).free_chain@ == fresh_chain(objects_per_slab(class_size(class)))
        &&& after.rings@ == self.rings@.insert(head, seq![slab] + self.rings@[head])
    }

    /// Which objects are in use does not lie in the lists.
    pub proof fn lemma_live_kept(&self, other: &SlabAllocator, q: usize)
        requires
            self.same_but_lists(other),
        ensures
            other.is_live(q) == self.is_live(q),
            other.slab_of(q) == self.slab_of(q),
            self.is_live(q) ==> other.class_of(q) == self.class_of(q),
    {
        self.lemma_kept_at(other, self.slab_of(q));
    }

    /// Whether `after` is this allocator with the cache `cache` of class
    /// `class`, which had none, in the page that was the next of the heap:
    /// its three lists are empty.
    pub open spec fn cache_appended(&self, after: &SlabAllocator, class: int, cache: Cache) -> bool {
        let address = self.cursor() as usize;
        &&& self.appended(after, seq![Page::Cache(cache)])
        &&& 0 <= class < MAX_CLASSES
        &&& self.node_caches@[class] is None
        &&& cache.objsize == class_size(class)
        &&& cache.num == objects_per_slab(class_size(class))
        &&& cache.name@ == class_name(class)
        &&& cache.slabs_full == (ListNode { next: address, prev: address })
        &&& cache.slabs_partial == (ListNode {
            next: (address + PARTIAL_HEAD) as usize,
            prev: (address + PARTIAL_HEAD) as usize,
        })
        &&& cache.slabs_free == (ListNode {
            next: (address + FREE_HEAD) as usize,
            prev: (address + FREE_HEAD) as usize,
        })
        &&& after.node_caches@ == self.node_caches@.update(class, Some(address))
        &&& after.rings@ == self.rings@.insert(address, Seq::empty()).insert(
            (address + PARTIAL_HEAD) as usize,
            Seq::empty(),
        ).insert((address + FREE_HEAD) as usize, Seq::empty())
    }

    /// Whether `a` is the address of one of the heads of the cache in the
    /// page that is the next of the heap.
    pub open spec fn is_new_head(&self, a: usize) -> bool {
        a == self.cursor() + FULL_HEAD || a == self.cursor() + PARTIAL_HEAD || a == self.cursor()
            + FREE_HEAD
    }

    proof fn lemma_cache_kinds(&self, after: &SlabAllocator, class: int, cache: Cache, a: usize)
        requires
            self.heap_ok(),
            self.cache_appended(after, class, cache),
        ensures
            after.is_slab(a) <==> self.is_slab(a),
            self.is_slab(a) ==> after.slab_at(a) == self.slab_at(a),
            after.is_head(a) <==> self.is_head(a) || self.is_new_head(a),
            self.is_new_head(a) ==> !self.in_table(a) && after.node_at(a) == (ListNode {
                next: a,
                prev: a,
            }) && after.is_node(a) && after.cache_of_head(a) == self.cursor(),
            self.is_node(a) ==> after.is_node(a) && after.node_at(a) == self.node_at(a),
            after.cache_of_head(a) == self.cache_of_head(a),
            self.is_cache(a) ==> after.is_cache(a) && after.cache_at(a) == self.cache_at(a),
            after.is_cache(a) && !self.is_cache(a) ==> a == self.cursor() && after.cache_at(a)
                == cache,
            after.is_cache(self.cursor() as usize),
    {
        let added = seq![Page::Cache(cache)];
        self.lemma_appended_kept(after, added, a);
        after.lemma_page_address(self.pages@.len() as int);
        assert(after.pages@[self.pages@.len() as int] == added[0]);
        if after.in_table(a) && !self.in_table(a) {
            after.lemma_page_of_address(a);
        }
        let base = self.cursor();
        assert(after.page_index((after.page_address(self.pages@.len() as int) + 0) as usize)
            == self.pages@.len());
        assert(after.page_index((after.page_address(self.pages@.len() as int) + 16) as usize)
            == self.pages@.len());
        assert(after.page_index((after.page_address(self.pages@.len() as int) + 32) as usize)
            == self.pages@.len());
    }

    proof fn lemma_cache_caches(&self, after: &SlabAllocator, class: int, cache: Cache)
        requires
            self.heap_ok(),
            self.caches_ok(),
            self.cache_appended(after, class, cache),
        ensures
            after.caches_ok(),
    {
        reveal(SlabAllocator::caches_ok);
        let added = seq![Page::Cache(cache)];
        self.lemma_cache_kinds(after, class, cache, self.cursor() as usize);
        assert forall|c: int| 0 <= c < MAX_CLASSES implies match #[trigger] after.node_caches@[c] {
            None => true,
            Some(a) => {
                &&& after.is_cache(a)
                &&& after.cache_at(a).objsize == class_size(c)
                &&& after.cache_at(a).num == objects_per_slab(class_size(c))
                &&& after.cache_at(a).name@ == class_name(c)
            },
        } by {
            if c != class {
                if let Some(a) = self.node_caches@[c] {
                    self.lemma_cache_kinds(after, class, cache, a);
                }
            }
        }
        assert forall|p: int| 0 <= p < after.pages@.len() implies match #[trigger] after.pages@[p] {
            Page::Cache(other) => {
                &&& 0 <= class_index(other.objsize as int) < MAX_CLASSES
                &&& after.node_caches@[class_index(other.objsize as int)] == Some(
                    after.page_address(p) as usize,
                )
            },
            _ => true,
        } by {
            if p < self.pages@.len() {
                assert(after.pages@[p] == self.pages@[p]);
            } else {
                assert(after.pages@[p] == added[0]);
            }
        }
    }

    proof fn lemma_cache_slabs(&self, after: &SlabAllocator, class: int, cache: Cache)
        requires
            self.heap_ok(),
            self.slabs_ok(),
            self.cache_appended(after, class, cache),
        ensures
            after.slabs_ok(),
    {
        reveal(SlabAllocator::slabs_ok);
        let added = seq![Page::Cache(cache)];
        assert forall|p: int| 0 <= p < after.pages@.len() implies #[trigger] after.slab_ok(p) by {
            if p < self.pages@.len() {
                assert(after.pages@[p] == self.pages@[p]);
                assert(self.slab_ok(p));
            } else {
                assert(after.pages@[p] == added[0]);
            }
        }
    }

    proof fn lemma_cache_links(&self, after: &SlabAllocator, class: int, cache: Cache)
        requires
            self.heap_ok(),
            self.slabs_ok(),
            self.links_ok(),
            self.cache_appended(after, class, cache),
        ensures
            after.links_ok(),
    {
        let base = self.cursor() as usize;
        assert forall|a: usize| #[trigger] after.rings@.dom().contains(a) <==> after.is_head(a) by {
            reveal(SlabAllocator::links_ok);
            self.lemma_cache_kinds(after, class, cache, a);
        }
        assert forall|h: usize| after.rings@.dom().contains(h) implies ring_linked(
            after.node_map(),
            h,
            #[trigger] after.rings@[h],
        ) by {
            reveal(SlabAllocator::links_ok);
            self.lemma_cache_kinds(after, class, cache, h);
            if self.is_new_head(h) {
                let ring = ring_of(h, Seq::empty());
                assert(after.rings@[h] =~= Seq::<usize>::empty());
                assert(ring =~= seq![h]);
                assert(after.node_map()[h] == after.node_at(h));
            } else {
                let members = self.rings@[h];
                assert(after.rings@[h] == members);
                assert(ring_linked(self.node_map(), h, members));
                assert(ring_of(h, members)[0] == h);
                assert forall|i: int| 0 <= i < members.len() implies after.node_map().dom().contains(
                    #[trigger] members[i],
                ) && after.node_map()[members[i]] == self.node_map()[members[i]] by {
                    assert(ring_of(h, members)[i + 1] == members[i]);
                    self.lemma_cache_kinds(after, class, cache, members[i]);
                }
                lemma_ring_untouched(self.node_map(), after.node_map(), h, members);
            }
        }
        assert forall|h: usize, m: usize| after.rings@.dom().contains(h) implies (
        #[trigger] after.rings@[h].contains(m) <==> after.is_slab(m) && after.slab_at(m).home@
            == Some(h)) by {
            reveal(SlabAllocator::links_ok);
            self.lemma_cache_kinds(after, class, cache, m);
            self.lemma_cache_kinds(after, class, cache, h);
            if self.is_new_head(h) {
                assert(after.rings@[h] =~= Seq::<usize>::empty());
            } else {
                assert(after.rings@[h] == self.rings@[h]);
                assert(self.rings@[h].contains(m) <==> self.is_slab(m) && self.slab_at(m).home@
                    == Some(h));
            }
        }
        assert forall|m: usize| #[trigger] after.is_slab(m) implies match after.slab_at(m).home@ {
            None => true,
            Some(h) => after.is_head(h) && after.node_caches@[after.slab_at(m).class@] == Some(
                after.cache_of_head(h) as usize,
            ),
        } by {
            reveal(SlabAllocator::links_ok);
            reveal(SlabAllocator::slabs_ok);
            self.lemma_cache_kinds(after, class, cache, m);
            assert(self.is_slab(m));
            assert(self.slab_ok(self.page_index(m)));
            if let Some(h) = after.slab_at(m).home@ {
                self.lemma_cache_kinds(after, class, cache, h);
            }
        }
        reveal(SlabAllocator::links_ok);
    }

    /// A new cache leaves the allocator sound and hands out and takes
    /// back no object.
    pub proof fn lemma_cache_appended(&self, after: &SlabAllocator, class: int, cache: Cache)
        requires
            self.wf(),
            self.cache_appended(after, class, cache),
        ensures
            after.wf(),
            forall|q: usize| #[trigger] after.is_live(q) == self.is_live(q),
            forall|m: usize| #[trigger]
                self.is_slab(m) ==> after.is_slab(m) && after.slab_at(m) == self.slab_at(m),
    {
        let added = seq![Page::Cache(cache)];
        self.lemma_appended_kept(after, added, 0);
        self.lemma_cache_caches(after, class, cache);
        self.lemma_cache_slabs(after, class, cache);
        self.lemma_cache_links(after, class, cache);
        assert(after.partition_ok()) by {
            reveal(SlabAllocator::partition_ok);
            reveal(SlabAllocator::slabs_ok);
            assert forall|m: usize| #[trigger] after.is_slab(m) implies after.slab_at(m).home@
                == Some(after.list_for(m)) by {
                self.lemma_cache_kinds(after, class, cache, m);
                assert(self.is_slab(m));
                assert(self.slab_ok(self.page_index(m)));
            }
        }
        assert forall|q: usize| #[trigger] after.is_live(q) == self.is_live(q) by {
            self.lemma_appended_kept(after, added, q);
            self.lemma_cache_kinds(after, class, cache, self.slab_of(q));
        }
        assert forall|m: usize| #[trigger] self.is_slab(m) implies after.is_slab(m)
            && after.slab_at(m) == self.slab_at(m) by {
            self.lemma_cache_kinds(after, class, cache, m);
        }
    }

    /// Makes the cache of a class that has none: takes a page from the
    /// heap and writes the cache into it, with its three lists empty.
    ///
    /// `None`, with the allocator as it was, exactly when the heap has no
    /// page left; else the address of the cache.
    pub fn add_cache(&mut self, class: usize) -> (r: Option<usize>)
        requires
            old(self).wf(),
            class < MAX_CLASSES,
            old(self).node_caches@[class as int] is None,
        ensures
            final(self).wf(),
            match r {
                Some(address) => {
                    &&& old(self).pages_left() >= 1
                    &&& address == old(self).cursor()
                    &&& final(self).cursor() == old(self).cursor() + PAGE_SIZE
                    &&& final(self).pages_left() == old(self).pages_left() - 1
                    &&& final(self).node_caches@ == old(self).node_caches@.update(
                        class as int,
                        Some(address),
                    )
                    &&& final(self).rings@[address].len() == 0
                    &&& final(self).rings@[(address + PARTIAL_HEAD) as usize].len() == 0
                    &&& final(self).rings@[(address + FREE_HEAD) as usize].len() == 0
                },
                None => old(self).pages_left() < 1 && *final(self) == *old(self),
            },
            forall|q: usize| #[trigger] final(self).is_live(q) == old(self).is_live(q),
            old(self).slabs_kept_but(final(self), None),
    {
        proof {
            old(self).lemma_slabs_same(old(self));
        }
        let mut bump = match self.page_alloc {
            Some(bump) => bump,
            None => {
                return None;
            },
        };
        let address = match bump.alloc_pages(1) {
            Some(address) => address,
            None => {
                return None;
            },
        };
        let cache = Cache::new(cache_name(class), object_size(class), address);
        self.page_alloc = Some(bump);
        self.pages.push(Page::Cache(cache));
        self.node_caches[class] = Some(address);
        self.rings = Ghost(
            self.rings@.insert(address, Seq::empty()).insert(
                (address + PARTIAL_HEAD) as usize,
                Seq::empty(),
            ).insert((address + FREE_HEAD) as usize, Seq::empty()),
        );
        proof {
            assert(self.pages@ =~= old(self).pages@ + seq![Page::Cache(cache)]);
            assert(old(self).cache_appended(self, class as int, cache));
            old(self).lemma_cache_appended(self, class as int, cache);
            old(self).lemma_slabs_same(self);
            vstd::arithmetic::div_mod::lemma_fundamental_div_mod_converse(
                bump.end - old(self).cursor(),
                PAGE_SIZE as int,
                old(self).pages_left(),
                0,
            );
        }
        Some(address)
    }
}

} // verus!
