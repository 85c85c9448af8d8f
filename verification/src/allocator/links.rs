//! The lists of the allocator: reading and writing the list nodes that
//! stand in the pages, and putting slabs into lists and taking them out.

use vstd::prelude::*;
use crate::allocator::layout::{
    class_index, class_name, class_size, objects_per_slab, MAX_CLASSES, PAGE_SIZE,
};
use crate::allocator::list::{
    is_added, is_removed, lemma_add_writes, lemma_del_writes, lemma_empty_ring,
    lemma_front_contains, lemma_members_distinct, lemma_remove_contains, lemma_ring_add,
    lemma_ring_del, lemma_ring_untouched, ring_linked, ring_of, ListNode,
};
use crate::allocator::slab::{Page, SlabAllocator, FULL_HEAD, PARTIAL_HEAD};

verus! {

/// The start of the page that holds `address`, in a heap that starts on a
/// page boundary: the address with the bits of the offset cleared.
pub fn page_base(address: usize) -> (base: usize)
    ensures
        base == address - address % PAGE_SIZE,
{
    assert(address & !0xFFFusize == address - address % 4096) by (bit_vector);
    address & !(PAGE_SIZE - 1)
}

/// The slab whose list node stands at `entry`: the node is the first field
/// of the header, which stands at the start of the page.
pub fn list_entry(entry: usize) -> (slab: usize)
    ensures
        slab == entry - entry % PAGE_SIZE,
{
    page_base(entry)
}

impl SlabAllocator {
    /// Whether `other` differs from this allocator in its lists at most:
    /// the list nodes, the members of the lists, and the record of each
    /// slab's list.
    #[verifier::opaque]
    pub open spec fn same_but_lists(&self, other: &SlabAllocator) -> bool {
        &&& self.page_alloc == other.page_alloc
        &&& self.node_caches == other.node_caches
        &&& self.heap_start == other.heap_start
        &&& self.pages@.len() == other.pages@.len()
        &&& forall|p: int|
            0 <= p < self.pages@.len() ==> (#[trigger] self.pages@[p]).without_list()
                == other.pages@[p].without_list()
    }

    /// Whether every slab but `moved` is recorded in `other` under the list
    /// under which it is recorded here.
    #[verifier::opaque]
    pub open spec fn homes_kept_but(&self, other: &SlabAllocator, moved: Option<usize>) -> bool {
        forall|m: usize| #[trigger]
            self.is_slab(m) && Some(m) != moved ==> other.slab_at(m).home == self.slab_at(m).home
    }

    /// What lies at `a` besides its part in the lists is the same in two
    /// allocators that differ in their lists at most.
    pub proof fn lemma_kept_at(&self, other: &SlabAllocator, a: usize)
        requires
            self.same_but_lists(other),
        ensures
            self.heap_start == other.heap_start,
            self.page_alloc == other.page_alloc,
            self.node_caches == other.node_caches,
            self.pages@.len() == other.pages@.len(),
            self.in_table(a) == other.in_table(a),
            self.is_slab(a) == other.is_slab(a),
            self.is_cache(a) == other.is_cache(a),
            self.is_head(a) == other.is_head(a),
            self.is_node(a) == other.is_node(a),
            self.cache_of_head(a) == other.cache_of_head(a),
            self.is_slab(a) ==> {
                &&& self.slab_at(a).class == other.slab_at(a).class
                &&& self.slab_at(a).slab.s_mem == other.slab_at(a).slab.s_mem
                &&& self.slab_at(a).slab.inuse == other.slab_at(a).slab.inuse
                &&& self.slab_at(a).slab.free == other.slab_at(a).slab.free
                &&& self.slab_at(a).bufctl == other.slab_at(a).bufctl
                &&& self.slab_at(a).free_chain == other.slab_at(a).free_chain
                &&& self.list_for(a) == other.list_for(a)
            },
            self.is_cache(a) ==> {
                &&& self.cache_at(a).objsize == other.cache_at(a).objsize
                &&& self.cache_at(a).num == other.cache_at(a).num
                &&& self.cache_at(a).name == other.cache_at(a).name
            },
    {
        reveal(SlabAllocator::same_but_lists);
        if self.in_table(a) {
            let p = self.page_index(a);
            assert(self.pages@[p].without_list() == other.pages@[p].without_list());
        }
    }

    /// The soundness of the heap, of the caches and of the slabs does not
    /// lie in the lists.
    pub proof fn lemma_kept_sound(&self, other: &SlabAllocator)
        requires
            self.same_but_lists(other),
        ensures
            self.heap_ok() ==> other.heap_ok(),
            self.caches_ok() ==> other.caches_ok(),
            self.slabs_ok() ==> other.slabs_ok(),
    {
        reveal(SlabAllocator::same_but_lists);
        reveal(SlabAllocator::caches_ok);
        reveal(SlabAllocator::slabs_ok);
        if self.caches_ok() {
            assert forall|c: int| 0 <= c < MAX_CLASSES implies match #[trigger] other.node_caches@[c] {
                None => true,
                Some(a) => {
                    &&& other.is_cache(a)
                    &&& other.cache_at(a).objsize == class_size(c)
                    &&& other.cache_at(a).num == objects_per_slab(class_size(c))
                    &&& other.cache_at(a).name@ == class_name(c)
                },
            } by {
                if let Some(a) = self.node_caches@[c] {
                    self.lemma_kept_at(other, a);
                }
            }
            assert forall|p: int| 0 <= p < other.pages@.len() implies match #[trigger] other.pages@[p] {
                Page::Cache(cache) => {
                    &&& 0 <= class_index(cache.objsize as int) < MAX_CLASSES
                    &&& other.node_caches@[class_index(cache.objsize as int)] == Some(
                        other.page_address(p) as usize,
                    )
                },
                _ => true,
            } by {
                assert(self.pages@[p].without_list() == other.pages@[p].without_list());
            }
        }
        if self.slabs_ok() {
            assert forall|p: int| 0 <= p < other.pages@.len() implies #[trigger] other.slab_ok(
                p,
            ) by {
                assert(self.pages@[p].without_list() == other.pages@[p].without_list());
                assert(self.slab_ok(p));
            }
        }
    }

    /// Being the same but for the lists carries over.
    pub proof fn lemma_same_but_lists_twice(&self, middle: &SlabAllocator, last: &SlabAllocator)
        requires
            self.same_but_lists(middle),
            middle.same_but_lists(last),
        ensures
            self.same_but_lists(last),
    {
        reveal(SlabAllocator::same_but_lists);
        assert forall|p: int| 0 <= p < self.pages@.len() implies (
        #[trigger] self.pages@[p]).without_list() == last.pages@[p].without_list() by {
            assert(middle.pages@[p].without_list() == last.pages@[p].without_list());
        }
    }

    /// The records of the lists carry over two steps that move at most one
    /// slab between them.
    pub proof fn lemma_homes_kept_twice(
        &self,
        middle: &SlabAllocator,
        last: &SlabAllocator,
        first_moved: Option<usize>,
        then_moved: Option<usize>,
    )
        requires
            self.same_but_lists(middle),
            self.homes_kept_but(middle, first_moved),
            middle.homes_kept_but(last, then_moved),
            first_moved is None || then_moved is None || first_moved == then_moved,
        ensures
            self.homes_kept_but(
                last,
                if first_moved is None {
                    then_moved
                } else {
                    first_moved
                },
            ),
            forall|m: usize| #[trigger]
                self.is_slab(m) && Some(m) != then_moved ==> last.slab_at(m).home
                    == middle.slab_at(m).home,
    {
        reveal(SlabAllocator::homes_kept_but);
        assert forall|m: usize| #[trigger] self.is_slab(m) && Some(m) != then_moved implies last.slab_at(
            m,
        ).home == middle.slab_at(m).home by {
            self.lemma_kept_at(middle, m);
        }
    }

    /// Whether `after` is this allocator with the list node at `address`
    /// set to `node`.
    pub open spec fn node_written(&self, after: &SlabAllocator, address: usize, node: ListNode) -> bool {
        &&& after.rings == self.rings
        &&& after.node_map() == self.node_map().insert(address, node)
        &&& self.same_but_lists(after)
        &&& self.homes_kept_but(after, None)
    }

    /// Whether `after` is this allocator with the list node of the slab at
    /// `entry` set to `node` and the slab recorded under `home`.
    pub open spec fn link_written(
        &self,
        after: &SlabAllocator,
        entry: usize,
        node: ListNode,
        home: Option<usize>,
    ) -> bool {
        &&& after.rings == self.rings
        &&& after.node_map() == self.node_map().insert(entry, node)
        &&& self.same_but_lists(after)
        &&& self.homes_kept_but(after, Some(entry))
        &&& after.slab_at(entry).home@ == home
    }

    /// After a write to the lists of the page of `address`, the allocator
    /// differs from what it was in its lists at most.
    proof fn lemma_page_written(&self, after: &SlabAllocator, address: usize, node: ListNode)
        requires
            self.is_node(address),
            after.page_alloc == self.page_alloc,
            after.node_caches == self.node_caches,
            after.heap_start == self.heap_start,
            after.pages@.len() == self.pages@.len(),
            forall|p: int|
                0 <= p < self.pages@.len() && p != self.page_index(address) ==> after.pages@[p]
                    == self.pages@[p],
            after.page_of(address).without_list() == self.page_of(address).without_list(),
            after.node_at(address) == node,
            forall|other: usize|
                self.is_node(other) && other != address && self.page_index(other)
                    == self.page_index(address) ==> after.node_at(other) == self.node_at(other),
        ensures
            self.same_but_lists(after),
            after.node_map() == self.node_map().insert(address, node),
            forall|m: usize| #[trigger]
                self.is_slab(m) && self.page_index(m) != self.page_index(address) ==> after.slab_at(
                    m,
                ) == self.slab_at(m),
    {
        reveal(SlabAllocator::same_but_lists);
        assert(self.same_but_lists(after));
        assert forall|a: usize| self.is_node(a) == after.is_node(a) by {
            self.lemma_kept_at(after, a);
        }
        assert(after.node_map() =~= self.node_map().insert(address, node));
    }

    /// Reads the list node at `address`.
    pub fn node(&self, address: usize) -> (node: ListNode)
        requires
            self.is_node(address),
        ensures
            node == self.node_at(address),
            node == self.node_map()[address],
    {
        let place: usize = address - self.heap_start;
        let index: usize = place / PAGE_SIZE;
        let offset: usize = place % PAGE_SIZE;
        match &self.pages[index] {
            Page::Slab(page) => page.slab.list,
            Page::Cache(cache) => if offset == FULL_HEAD {
                cache.slabs_full
            } else if offset == PARTIAL_HEAD {
                cache.slabs_partial
            } else {
                cache.slabs_free
            },
            Page::Large => ListNode::new(),
        }
    }

    /// Writes the list node at `address`.
    pub fn set_node(&mut self, address: usize, node: ListNode)
        requires
            old(self).is_node(address),
        ensures
            old(self).node_written(final(self), address, node),
    {
        let place: usize = address - self.heap_start;
        let index: usize = place / PAGE_SIZE;
        let offset: usize = place % PAGE_SIZE;
        match &mut self.pages[index] {
            Page::Slab(page) => {
                page.slab.list = node;
            },
            Page::Cache(cache) => {
                if offset == FULL_HEAD {
                    cache.slabs_full = node;
                } else if offset == PARTIAL_HEAD {
                    cache.slabs_partial = node;
                } else {
                    cache.slabs_free = node;
                }
            },
            Page::Large => {},
        }
        proof {
            old(self).lemma_page_written(self, address, node);
            reveal(SlabAllocator::homes_kept_but);
        }
    }

    /// Writes the node of the slab at `entry` and records the list that
    /// the slab is in.
    fn set_link(&mut self, entry: usize, node: ListNode, home: Ghost<Option<usize>>)
        requires
            old(self).is_slab(entry),
        ensures
            old(self).link_written(final(self), entry, node, home@),
    {
        let place: usize = entry - self.heap_start;
        let index: usize = place / PAGE_SIZE;
        match &mut self.pages[index] {
            Page::Slab(page) => {
                page.slab.list = node;
                page.home = home;
            },
            _ => {},
        }
        proof {
            old(self).lemma_page_written(self, entry, node);
            reveal(SlabAllocator::homes_kept_but);
        }
    }

    /// What soundness of the lists says of one list.
    pub proof fn lemma_ring(&self, h: usize)
        requires
            self.links_ok(),
            self.is_head(h),
        ensures
            self.rings@.dom().contains(h),
            ring_linked(self.node_map(), h, self.rings@[h]),
    {
        reveal(SlabAllocator::links_ok);
        assert(self.rings@.dom().contains(h));
    }

    /// What soundness of the lists says of one list and one address.
    pub proof fn lemma_member(&self, h: usize, m: usize)
        requires
            self.links_ok(),
            self.is_head(h),
        ensures
            self.rings@[h].contains(m) <==> self.is_slab(m) && self.slab_at(m).home@ == Some(h),
    {
        reveal(SlabAllocator::links_ok);
        assert(self.rings@.dom().contains(h));
    }

    /// What soundness of the lists says of one slab.
    pub proof fn lemma_home(&self, m: usize)
        requires
            self.links_ok(),
            self.is_slab(m),
            self.slab_at(m).home@ is Some,
        ensures
            self.is_head(self.slab_at(m).home@.unwrap()),
            self.node_caches@[self.slab_at(m).class@] == Some(
                self.cache_of_head(self.slab_at(m).home@.unwrap()) as usize,
            ),
    {
        reveal(SlabAllocator::links_ok);
    }

    /// What keeping the records says of one slab.
    pub proof fn lemma_home_kept(&self, other: &SlabAllocator, moved: Option<usize>, m: usize)
        requires
            self.homes_kept_but(other, moved),
            self.is_slab(m),
            Some(m) != moved,
        ensures
            other.slab_at(m).home == self.slab_at(m).home,
    {
        reveal(SlabAllocator::homes_kept_but);
    }

    /// The head of a list and a slab outside the lists are list nodes, and
    /// so is the successor of the head, which is not that slab.
    pub proof fn lemma_head_successor(&self, head: usize, entry: usize)
        requires
            self.links_ok(),
            self.is_head(head),
            self.is_slab(entry),
            self.slab_at(entry).home@ is None,
        ensures
            entry != head,
            self.is_node(self.node_at(head).next),
            self.node_at(head).next != entry,
            self.node_at(head).next == head <==> self.rings@[head].len() == 0,
            self.rings@[head].len() > 0 ==> self.node_at(head).next == self.rings@[head][0]
                && self.is_slab(self.rings@[head][0]) && self.slab_at(self.rings@[head][0]).home@
                == Some(head),
            !self.rings@[head].contains(entry),
    {
        reveal(SlabAllocator::links_ok);
        let members = self.rings@[head];
        assert(self.rings@.dom().contains(head));
        assert(ring_linked(self.node_map(), head, members));
        lemma_empty_ring(self.node_map(), head, members);
        assert(ring_of(head, members)[0] == head);
        if members.len() > 0 {
            assert(members.contains(members[0]));
        }
    }

    /// What the lists record after the slab at `entry` went into the list
    /// of `head`.
    pub open spec fn records_after_add(&self, after: &SlabAllocator, entry: usize, head: usize) -> bool {
        &&& self.same_but_lists(after)
        &&& self.homes_kept_but(after, Some(entry))
        &&& after.rings@ == self.rings@.insert(head, seq![entry] + self.rings@[head])
        &&& after.slab_at(entry).home@ == Some(head)
    }

    proof fn lemma_add_keeps_rings(&self, after: &SlabAllocator, entry: usize, head: usize, h: usize)
        requires
            self.links_ok(),
            self.is_slab(entry),
            self.slab_at(entry).home@ is None,
            self.is_head(head),
            self.records_after_add(after, entry, head),
            is_added(self.node_map(), after.node_map(), head, entry),
            self.is_head(h),
        ensures
            ring_linked(after.node_map(), h, after.rings@[h]),
    {
        self.lemma_head_successor(head, entry);
        reveal(SlabAllocator::links_ok);
        let nodes = self.node_map();
        let now = after.node_map();
        let members = self.rings@[head];
        assert(self.rings@.dom().contains(head));
        assert(self.rings@.dom().contains(h));
        let first = nodes[head].next;
        assert(ring_linked(nodes, head, members));
        if h == head {
            lemma_ring_add(nodes, now, head, members, entry);
        } else {
            let others = self.rings@[h];
            assert(ring_linked(nodes, h, others));
            assert(ring_of(h, others)[0] == h);
            assert forall|i: int| 0 <= i < others.len() implies now.dom().contains(
                #[trigger] others[i],
            ) && now[others[i]] == nodes[others[i]] by {
                assert(others.contains(others[i]));
                assert(self.is_slab(others[i]) && self.slab_at(others[i]).home@ == Some(h));
                assert(ring_of(h, others)[i + 1] == others[i]);
            }
            lemma_ring_untouched(nodes, now, h, others);
        }
    }

    proof fn lemma_add_keeps_members(
        &self,
        after: &SlabAllocator,
        entry: usize,
        head: usize,
        h: usize,
        m: usize,
    )
        requires
            self.links_ok(),
            self.is_slab(entry),
            self.slab_at(entry).home@ is None,
            self.is_head(head),
            self.records_after_add(after, entry, head),
            self.is_head(h),
        ensures
            after.rings@[h].contains(m) <==> after.is_slab(m) && after.slab_at(m).home@ == Some(h),
    {
        self.lemma_kept_at(after, m);
        self.lemma_ring(h);
        self.lemma_ring(head);
        self.lemma_member(h, m);
        if self.is_slab(m) && m != entry {
            self.lemma_home_kept(after, Some(entry), m);
        }
        if h == head {
            lemma_front_contains(self.rings@[head], entry, m);
        } else {
            assert(after.rings@[h] == self.rings@[h]);
        }
    }

    /// The lists are sound after a slab was put into one of them.
    pub proof fn lemma_add_keeps_links(&self, after: &SlabAllocator, entry: usize, head: usize)
        requires
            self.links_ok(),
            self.is_slab(entry),
            self.slab_at(entry).home@ is None,
            self.is_head(head),
            self.node_caches@[self.slab_at(entry).class@] == Some(
                self.cache_of_head(head) as usize,
            ),
            self.records_after_add(after, entry, head),
            is_added(self.node_map(), after.node_map(), head, entry),
        ensures
            after.links_ok(),
    {
        assert forall|h: usize| self.is_head(h) implies ring_linked(
            after.node_map(),
            h,
            #[trigger] after.rings@[h],
        ) by {
            self.lemma_add_keeps_rings(after, entry, head, h);
        }
        assert forall|h: usize, m: usize| self.is_head(h) implies (
        #[trigger] after.rings@[h].contains(m) <==> after.is_slab(m) && after.slab_at(m).home@
            == Some(h)) by {
            self.lemma_add_keeps_members(after, entry, head, h, m);
        }
        reveal(SlabAllocator::links_ok);
        reveal(SlabAllocator::homes_kept_but);
        assert(self.rings@.dom().contains(head));
        assert(after.rings@.dom() =~= self.rings@.dom());
        assert forall|a: usize| #[trigger] after.rings@.dom().contains(a) <==> after.is_head(a) by {
            self.lemma_kept_at(after, a);
        }
        assert forall|m: usize| #[trigger] after.is_slab(m) implies match after.slab_at(m).home@ {
            None => true,
            Some(h) => after.is_head(h) && after.node_caches@[after.slab_at(m).class@] == Some(
                after.cache_of_head(h) as usize,
            ),
        } by {
            self.lemma_kept_at(after, m);
            assert(self.is_slab(m));
            if let Some(h) = after.slab_at(m).home@ {
                self.lemma_kept_at(after, h);
            }
        }
    }

    /// Links the slab at `entry`, which is in no list, into the list with
    /// the head at `head`, right after the head.
    pub fn list_add(&mut self, entry: usize, head: usize)
        requires
            old(self).heap_ok(),
            old(self).caches_ok(),
            old(self).slabs_ok(),
            old(self).links_ok(),
            old(self).is_slab(entry),
            old(self).slab_at(entry).home@ is None,
            old(self).is_head(head),
            old(self).node_caches@[old(self).slab_at(entry).class@] == Some(
                old(self).cache_of_head(head) as usize,
            ),
        ensures
            final(self).heap_ok(),
            final(self).caches_ok(),
            final(self).slabs_ok(),
            final(self).links_ok(),
            old(self).records_after_add(final(self), entry, head),
    {
        let ghost members = self.rings@[head];
        let ghost nodes = self.node_map();
        proof {
            self.lemma_head_successor(head, entry);
        }
        let first: usize = self.node(head).next;
        self.set_link(entry, ListNode { next: first, prev: head }, Ghost(Some(head)));
        let ghost linked = *self;
        proof {
            old(self).lemma_kept_at(&linked, first);
        }
        let after = self.node(first);
        self.set_node(first, ListNode { next: after.next, prev: entry });
        let ghost middle = *self;
        proof {
            old(self).lemma_kept_at(&linked, head);
            linked.lemma_kept_at(&middle, head);
        }
        let before = self.node(head);
        self.set_node(head, ListNode { next: entry, prev: before.prev });
        let ghost last = *self;
        self.rings = Ghost(self.rings@.insert(head, seq![entry] + members));
        proof {
            assert(self.node_map() =~= last.node_map());
            lemma_add_writes(
                nodes,
                head,
                entry,
                linked.node_map(),
                after,
                middle.node_map(),
                before,
                last.node_map(),
            );
            linked.lemma_same_but_lists_twice(&middle, &last);
            linked.lemma_homes_kept_twice(&middle, &last, None, None);
            old(self).lemma_same_but_lists_twice(&linked, &last);
            old(self).lemma_homes_kept_twice(&linked, &last, Some(entry), None);
            old(self).lemma_kept_at(&linked, entry);
            old(self).lemma_lists_only(&last, self);
            old(self).lemma_kept_sound(self);
            old(self).lemma_add_keeps_links(self, entry, head);
        }
    }

    /// An allocator that differs from `last` in the members of its lists
    /// only is as near to this one as `last` is.
    pub proof fn lemma_lists_only(&self, last: &SlabAllocator, after: &SlabAllocator)
        requires
            self.same_but_lists(last),
            after.page_alloc == last.page_alloc,
            after.node_caches == last.node_caches,
            after.heap_start == last.heap_start,
            after.pages == last.pages,
        ensures
            self.same_but_lists(after),
            forall|moved: Option<usize>|
                self.homes_kept_but(last, moved) ==> #[trigger] self.homes_kept_but(after, moved),
            forall|m: usize| after.slab_at(m) == last.slab_at(m),
    {
        reveal(SlabAllocator::same_but_lists);
        reveal(SlabAllocator::homes_kept_but);
    }

    /// The shape of a list: it is empty exactly when its head is its own
    /// successor, and else the successor of the head is its first member,
    /// a slab of the list.
    pub proof fn lemma_list_shape(&self, head: usize)
        requires
            self.links_ok(),
            self.is_head(head),
        ensures
            self.is_node(head),
            self.node_at(head).next == head <==> self.rings@[head].len() == 0,
            self.rings@[head].len() > 0 ==> self.node_at(head).next == self.rings@[head][0]
                && self.is_slab(self.rings@[head][0]) && self.slab_at(self.rings@[head][0]).home@
                == Some(head),
    {
        reveal(SlabAllocator::links_ok);
        let members = self.rings@[head];
        assert(self.rings@.dom().contains(head));
        assert(ring_linked(self.node_map(), head, members));
        lemma_empty_ring(self.node_map(), head, members);
        if members.len() > 0 {
            assert(members.contains(members[0]));
        }
    }

    /// Whether the list with the head at `head` has no member.
    pub fn list_empty(&self, head: usize) -> (empty: bool)
        requires
            self.links_ok(),
            self.is_head(head),
        ensures
            empty == (self.rings@[head].len() == 0),
    {
        proof {
            self.lemma_list_shape(head);
        }
        self.node(head).next == head
    }

    /// A slab in a list is a member of it, and its neighbours are list
    /// nodes other than the slab itself.
    pub proof fn lemma_neighbours(&self, entry: usize)
        requires
            self.links_ok(),
            self.is_slab(entry),
            self.slab_at(entry).home@ is Some,
        ensures
            self.is_head(self.slab_at(entry).home@.unwrap()),
            self.rings@[self.slab_at(entry).home@.unwrap()].contains(entry),
            self.is_node(entry),
            self.is_node(self.node_at(entry).prev),
            self.is_node(self.node_at(entry).next),
            self.node_at(entry).prev != entry,
            self.node_at(entry).next != entry,
    {
        reveal(SlabAllocator::links_ok);
        let head = self.slab_at(entry).home@.unwrap();
        let members = self.rings@[head];
        assert(self.rings@.dom().contains(head));
        assert(members.contains(entry));
        let place = members.index_of(entry);
        let ring = ring_of(head, members);
        assert(ring_linked(self.node_map(), head, members));
        assert(ring[place + 1] == entry);
        assert(ring[place] != ring[place + 1]);
        if place + 2 < ring.len() {
            assert(ring[place + 2] != ring[place + 1]);
            assert(self.node_map().dom().contains(ring[place + 2]));
        } else {
            assert(ring[0] != ring[place + 1]);
        }
        assert(self.node_map().dom().contains(ring[place]));
        assert(self.node_map().dom().contains(ring[0]));
    }

    /// What the lists record after the slab at `entry` was taken out of
    /// its list.
    pub open spec fn records_after_del(&self, after: &SlabAllocator, entry: usize) -> bool {
        let head = self.slab_at(entry).home@.unwrap();
        &&& self.same_but_lists(after)
        &&& self.homes_kept_but(after, Some(entry))
        &&& after.rings@ == self.rings@.insert(
            head,
            self.rings@[head].remove(self.rings@[head].index_of(entry)),
        )
        &&& after.slab_at(entry).home@ is None
    }

    proof fn lemma_del_keeps_rings(&self, after: &SlabAllocator, entry: usize, h: usize)
        requires
            self.links_ok(),
            self.is_slab(entry),
            self.slab_at(entry).home@ is Some,
            self.records_after_del(after, entry),
            is_removed(self.node_map(), after.node_map(), entry),
            self.is_head(h),
        ensures
            ring_linked(after.node_map(), h, after.rings@[h]),
    {
        self.lemma_neighbours(entry);
        reveal(SlabAllocator::links_ok);
        let head = self.slab_at(entry).home@.unwrap();
        let nodes = self.node_map();
        let now = after.node_map();
        let members = self.rings@[head];
        assert(self.rings@.dom().contains(head));
        assert(self.rings@.dom().contains(h));
        let place = members.index_of(entry);
        assert(ring_linked(nodes, head, members));
        let ring = ring_of(head, members);
        if h == head {
            lemma_ring_del(nodes, now, head, members, place);
        } else {
            let others = self.rings@[h];
            assert(ring_linked(nodes, h, others));
            assert(ring_of(h, others)[0] == h);
            assert(ring[place + 1] == entry);
            let before = nodes[entry].prev;
            let next = nodes[entry].next;
            assert(before == ring[place]);
            let next_place = if place + 2 < ring.len() {
                place + 2
            } else {
                0
            };
            assert(next == ring[next_place]);
            assert(ring[0] == head);
            if place > 0 {
                assert(ring[place] == members[place - 1]);
                assert(members.contains(members[place - 1]));
            }
            if next_place > 0 {
                assert(ring[next_place] == members[next_place - 1]);
                assert(members.contains(members[next_place - 1]));
            }
            assert(after.node_map().dom().contains(h));
            assert forall|i: int| 0 <= i < others.len() implies now.dom().contains(
                #[trigger] others[i],
            ) && now[others[i]] == nodes[others[i]] by {
                assert(others.contains(others[i]));
                assert(self.is_slab(others[i]) && self.slab_at(others[i]).home@ == Some(h));
                assert(ring_of(h, others)[i + 1] == others[i]);
            }
            lemma_ring_untouched(nodes, now, h, others);
        }
    }

    proof fn lemma_del_keeps_members(&self, after: &SlabAllocator, entry: usize, h: usize, m: usize)
        requires
            self.links_ok(),
            self.is_slab(entry),
            self.slab_at(entry).home@ is Some,
            self.records_after_del(after, entry),
            self.is_head(h),
        ensures
            after.rings@[h].contains(m) <==> after.is_slab(m) && after.slab_at(m).home@ == Some(h),
    {
        self.lemma_home(entry);
        self.lemma_kept_at(after, m);
        let head = self.slab_at(entry).home@.unwrap();
        self.lemma_ring(h);
        self.lemma_ring(head);
        self.lemma_member(h, m);
        self.lemma_member(head, entry);
        if self.is_slab(m) && m != entry {
            self.lemma_home_kept(after, Some(entry), m);
        }
        let members = self.rings@[head];
        if h == head {
            lemma_members_distinct(head, members);
            lemma_remove_contains(members, entry, m);
        } else {
            assert(after.rings@[h] == self.rings@[h]);
        }
    }

    /// The lists are sound after a slab was taken out of one of them.
    pub proof fn lemma_del_keeps_links(&self, after: &SlabAllocator, entry: usize)
        requires
            self.links_ok(),
            self.is_slab(entry),
            self.slab_at(entry).home@ is Some,
            self.records_after_del(after, entry),
            is_removed(self.node_map(), after.node_map(), entry),
        ensures
            after.links_ok(),
    {
        assert forall|h: usize| self.is_head(h) implies ring_linked(
            after.node_map(),
            h,
            #[trigger] after.rings@[h],
        ) by {
            self.lemma_del_keeps_rings(after, entry, h);
        }
        assert forall|h: usize, m: usize| self.is_head(h) implies (
        #[trigger] after.rings@[h].contains(m) <==> after.is_slab(m) && after.slab_at(m).home@
            == Some(h)) by {
            self.lemma_del_keeps_members(after, entry, h, m);
        }
        self.lemma_neighbours(entry);
        reveal(SlabAllocator::links_ok);
        reveal(SlabAllocator::homes_kept_but);
        let head = self.slab_at(entry).home@.unwrap();
        assert(self.rings@.dom().contains(head));
        assert(after.rings@.dom() =~= self.rings@.dom());
        assert forall|a: usize| #[trigger] after.rings@.dom().contains(a) <==> after.is_head(a) by {
            self.lemma_kept_at(after, a);
        }
        assert forall|m: usize| #[trigger] after.is_slab(m) implies match after.slab_at(m).home@ {
            None => true,
            Some(h) => after.is_head(h) && after.node_caches@[after.slab_at(m).class@] == Some(
                after.cache_of_head(h) as usize,
            ),
        } by {
            self.lemma_kept_at(after, m);
            assert(self.is_slab(m));
            if let Some(h) = after.slab_at(m).home@ {
                self.lemma_kept_at(after, h);
            }
        }
    }

    /// Takes the slab at `entry` out of the list that it is in: its
    /// neighbours are linked to each other. The node of the slab itself
    /// keeps what it held.
    pub fn list_del(&mut self, entry: usize)
        requires
            old(self).heap_ok(),
            old(self).caches_ok(),
            old(self).slabs_ok(),
            old(self).links_ok(),
            old(self).is_slab(entry),
            old(self).slab_at(entry).home@ is Some,
        ensures
            final(self).heap_ok(),
            final(self).caches_ok(),
            final(self).slabs_ok(),
            final(self).links_ok(),
            old(self).records_after_del(final(self), entry),
    {
        let ghost head = self.slab_at(entry).home@.unwrap();
        let ghost members = self.rings@[head];
        let ghost nodes = self.node_map();
        proof {
            self.lemma_neighbours(entry);
        }
        let own = self.node(entry);
        let before = self.node(own.prev);
        self.set_node(own.prev, ListNode { next: own.next, prev: before.prev });
        let ghost first = *self;
        proof {
            old(self).lemma_kept_at(&first, own.next);
        }
        let after = self.node(own.next);
        self.set_node(own.next, ListNode { next: after.next, prev: own.prev });
        let ghost second = *self;
        proof {
            old(self).lemma_kept_at(&first, entry);
            first.lemma_kept_at(&second, entry);
        }
        self.set_link(entry, own, Ghost(None));
        let ghost last = *self;
        self.rings = Ghost(self.rings@.insert(head, members.remove(members.index_of(entry))));
        proof {
            lemma_del_writes(nodes, entry, before, first.node_map(), after, second.node_map());
            assert(second.node_map()[entry] == own);
            assert(last.node_map() =~= second.node_map());
            assert(self.node_map() =~= last.node_map());
            old(self).lemma_same_but_lists_twice(&first, &second);
            old(self).lemma_homes_kept_twice(&first, &second, None, None);
            old(self).lemma_same_but_lists_twice(&second, &last);
            old(self).lemma_homes_kept_twice(&second, &last, None, Some(entry));
            old(self).lemma_lists_only(&last, self);
            old(self).lemma_kept_sound(self);
            old(self).lemma_del_keeps_links(self, entry);
        }
    }
}

} // verus!
