//! Slabs, caches and the allocator over them.
//!
//! A slab is one page of objects of one size: a header at its start, then
//! the free-index array, then the objects. A cache holds the slabs of one
//! size class in three lists, by how full they are. What the pages hold is
//! kept in a table beside the heap, one entry for each page handed out, so
//! that a slab is found from the address of any object of it.

use vstd::prelude::*;
use crate::allocator::layout::{
    class_index, class_name, class_size, first_object_offset, objects_per_slab, MAX_CLASSES,
    PAGE_SIZE,
};
use crate::allocator::list::{ring_linked, ListNode};
use crate::allocator::page_bump::PageBump;

verus! {

/// An index into the objects of a slab, as the free chain holds it.
pub type BufCtl = u32;

/// The index that ends a free chain.
pub const BUFCTL_END: BufCtl = 0xFFFF_FFFF;

/// The offset in a cache of the head of the list of full slabs.
pub const FULL_HEAD: usize = 0;

/// The offset in a cache of the head of the list of partly used slabs.
pub const PARTIAL_HEAD: usize = 16;

/// The offset in a cache of the head of the list of unused slabs.
pub const FREE_HEAD: usize = 32;

/// The header of a slab.
pub struct Slab {
    /// The node by which the slab is in one of the lists of its cache; it
    /// stands at the start of the page.
    pub list: ListNode,
    /// The address of the first object.
    pub s_mem: usize,
    /// The number of objects handed out.
    pub inuse: usize,
    /// The index of the first free object, `BUFCTL_END` where there is none.
    pub free: BufCtl,
}

impl Slab {
    /// The header of a slab in the page at `page_start`, in no list yet:
    /// its node is its own neighbour, nothing is in use.
    pub fn new(page_start: usize) -> (slab: Slab)
        ensures
            slab.list == (ListNode { next: page_start, prev: page_start }),
            slab.s_mem == page_start,
            slab.inuse == 0,
            slab.free == 0,
    {
        let mut slab = Slab { list: ListNode::new(), s_mem: page_start, inuse: 0, free: 0 };
        slab.list.init(page_start);
        slab
    }
}

/// A slab page: the header and the free-index array.
pub struct SlabPage {
    /// The header.
    pub slab: Slab,
    /// The free-index array: for each free object the index of the next
    /// free one.
    pub bufctl: Vec<BufCtl>,
    /// The size class of the objects.
    pub class: Ghost<int>,
    /// The head of the list that the slab is in, if it is in one.
    pub home: Ghost<Option<usize>>,
    /// The free objects in the order of the free chain.
    pub free_chain: Ghost<Seq<BufCtl>>,
}

/// The cache of one size class.
pub struct Cache {
    /// The head of the list of the slabs with every object in use.
    pub slabs_full: ListNode,
    /// The head of the list of the slabs with some objects in use.
    pub slabs_partial: ListNode,
    /// The head of the list of the slabs with no object in use.
    pub slabs_free: ListNode,
    /// The size of an object.
    pub objsize: usize,
    /// The number of objects in a slab.
    pub num: usize,
    /// The name of the cache.
    pub name: &'static str,
}

impl Cache {
    /// The cache named `name` for objects of `size` bytes, which stands at
    /// `address`: its three lists are empty.
    pub fn new(name: &'static str, size: usize, address: usize) -> (cache: Cache)
        requires
            size <= crate::allocator::layout::MAX_SLAB_SIZE,
            address + FREE_HEAD <= usize::MAX,
        ensures
            cache.slabs_full == (ListNode { next: address, prev: address }),
            cache.slabs_partial == (ListNode {
                next: (address + PARTIAL_HEAD) as usize,
                prev: (address + PARTIAL_HEAD) as usize,
            }),
            cache.slabs_free == (ListNode {
                next: (address + FREE_HEAD) as usize,
                prev: (address + FREE_HEAD) as usize,
            }),
            cache.objsize == size,
            cache.num == objects_per_slab(size as int),
            cache.name == name,
    {
        let mut cache = Cache {
            slabs_full: ListNode::new(),
            slabs_partial: ListNode::new(),
            slabs_free: ListNode::new(),
            objsize: size,
            num: crate::allocator::layout::slab_capacity(size),
            name,
        };
        cache.slabs_full.init(address + FULL_HEAD);
        cache.slabs_partial.init(address + PARTIAL_HEAD);
        cache.slabs_free.init(address + FREE_HEAD);
        cache
    }
}

/// What a page of the heap holds.
pub enum Page {
    /// A page of a large allocation.
    Large,
    /// The cache of a size class.
    Cache(Cache),
    /// A slab.
    Slab(SlabPage),
}

impl Page {
    /// The page with its list nodes blanked: what it holds besides them.
    pub open spec fn without_links(self) -> Page {
        let blank = ListNode { next: 0, prev: 0 };
        match self {
            Page::Large => self,
            Page::Cache(cache) => Page::Cache(
                Cache { slabs_full: blank, slabs_partial: blank, slabs_free: blank, ..cache },
            ),
            Page::Slab(page) => Page::Slab(
                SlabPage { slab: Slab { list: blank, ..page.slab }, ..page },
            ),
        }
    }

    /// The page with its list nodes and the record of its list blanked.
    pub open spec fn without_list(self) -> Page {
        match self.without_links() {
            Page::Slab(page) => Page::Slab(SlabPage { home: Ghost(None), ..page }),
            other => other,
        }
    }
}

/// Whether `chain` is the free chain of a slab of `num` objects: it starts
/// at `free`, each of its objects names the next one in `bufctl`, the last
/// one names `BUFCTL_END`, and no object comes twice.
pub open spec fn is_free_chain(bufctl: Seq<BufCtl>, free: BufCtl, chain: Seq<BufCtl>) -> bool {
    &&& chain.no_duplicates()
    &&& forall|i: int| 0 <= i < chain.len() ==> (#[trigger] chain[i]) < bufctl.len()
    &&& free == if chain.len() > 0 {
        chain[0]
    } else {
        BUFCTL_END
    }
    &&& forall|i: int|
        0 <= i < chain.len() ==> #[trigger] bufctl[chain[i] as int] == if i + 1 < chain.len() {
            chain[i + 1]
        } else {
            BUFCTL_END
        }
}

impl SlabPage {
    /// The size of the objects of the slab.
    pub open spec fn object_size(&self) -> int {
        class_size(self.class@)
    }

    /// The number of objects of the slab.
    pub open spec fn capacity(&self) -> int {
        objects_per_slab(class_size(self.class@))
    }

    /// The address of object number `index`.
    pub open spec fn object_address(&self, index: int) -> int {
        self.slab.s_mem + index * self.object_size()
    }

    /// The number of the object at `ptr`.
    pub open spec fn object_index(&self, ptr: usize) -> int {
        (ptr - self.slab.s_mem) / self.object_size()
    }

    /// Whether `ptr` is the address of an object of the slab that is in
    /// use.
    pub open spec fn holds(&self, ptr: usize) -> bool {
        &&& ptr >= self.slab.s_mem
        &&& (ptr - self.slab.s_mem) % self.object_size() == 0
        &&& self.object_index(ptr) < self.capacity()
        &&& !self.free_chain@.contains(self.object_index(ptr) as BufCtl)
    }

    /// Whether the slab is a sound one but for where it stands: its class
    /// is one of the classes, it has the objects of its class, and its free
    /// chain holds the objects not in use.
    pub open spec fn content_ok(&self) -> bool {
        &&& 0 <= self.class@ < MAX_CLASSES
        &&& self.bufctl@.len() == self.capacity()
        &&& self.slab.inuse + self.free_chain@.len() == self.bufctl@.len()
        &&& is_free_chain(self.bufctl@, self.slab.free, self.free_chain@)
    }

    /// Whether `after` is this slab after it handed out its first free
    /// object, at `ptr`.
    pub open spec fn taken(&self, after: SlabPage, ptr: usize) -> bool {
        &&& after.content_ok()
        &&& after.slab.inuse == self.slab.inuse + 1
        &&& after.slab.s_mem == self.slab.s_mem
        &&& after.slab.list == self.slab.list
        &&& after.class == self.class
        &&& after.home == self.home
        &&& after.bufctl@ == self.bufctl@
        &&& after.free_chain@ == self.free_chain@.drop_first()
        &&& ptr == self.object_address(self.slab.free as int)
        &&& self.slab.free == self.free_chain@[0]
        &&& !self.holds(ptr)
        &&& after.holds(ptr)
        &&& forall|q: usize| q != ptr ==> #[trigger] after.holds(q) == self.holds(q)
    }

    /// Whether `after` is this slab after it took back the object at
    /// `ptr`, which is its first free object now.
    pub open spec fn given(&self, after: SlabPage, ptr: usize) -> bool {
        &&& after.content_ok()
        &&& after.slab.inuse == self.slab.inuse - 1
        &&& after.slab.s_mem == self.slab.s_mem
        &&& after.slab.list == self.slab.list
        &&& after.class == self.class
        &&& after.home == self.home
        &&& after.slab.free == self.object_index(ptr)
        &&& after.free_chain@ == seq![self.object_index(ptr) as BufCtl] + self.free_chain@
        &&& after.object_address(after.slab.free as int) == ptr
        &&& !after.holds(ptr)
        &&& forall|q: usize| q != ptr ==> #[trigger] after.holds(q) == self.holds(q)
    }

    /// The address of an object is that of no other, and gives its number
    /// back.
    pub proof fn lemma_object_address(&self, index: int)
        requires
            0 <= self.class@ < MAX_CLASSES,
            0 <= index,
        ensures
            self.object_address(index) >= self.slab.s_mem,
            (self.object_address(index) - self.slab.s_mem) % self.object_size() == 0,
            (self.object_address(index) - self.slab.s_mem) / self.object_size() == index,
            index < self.capacity() ==> self.object_address(index) + self.object_size()
                <= self.slab.s_mem + self.capacity() * self.object_size(),
    {
        let size = self.object_size();
        assert(size > 0);
        assert(index * size >= 0) by (nonlinear_arith)
            requires
                index >= 0,
                size > 0,
        ;
        vstd::arithmetic::div_mod::lemma_fundamental_div_mod_converse(
            index * size,
            size,
            index,
            0,
        );
        if index < self.capacity() {
            let num = self.capacity();
            assert(index * size + size <= num * size) by (nonlinear_arith)
                requires
                    index + 1 <= num,
                    size > 0,
            ;
        }
    }

    /// An address with the number of an object at which it stands is the
    /// address of that object.
    pub proof fn lemma_object_index(&self, ptr: usize)
        requires
            0 <= self.class@ < MAX_CLASSES,
            ptr >= self.slab.s_mem,
            (ptr - self.slab.s_mem) % self.object_size() == 0,
        ensures
            self.object_address(self.object_index(ptr)) == ptr,
            0 <= self.object_index(ptr),
    {
        let size = self.object_size();
        assert(size > 0);
        vstd::arithmetic::div_mod::lemma_fundamental_div_mod(ptr - self.slab.s_mem, size);
        assert(size * ((ptr - self.slab.s_mem) / size) == ((ptr - self.slab.s_mem) / size) * size)
            by (nonlinear_arith);
        vstd::arithmetic::div_mod::lemma_div_pos_is_pos(ptr - self.slab.s_mem, size);
    }

    /// Whether object number `index` is in the free chain.
    pub fn is_free(&self, index: BufCtl) -> (free: bool)
        requires
            is_free_chain(self.bufctl@, self.slab.free, self.free_chain@),
            self.bufctl@.len() <= BUFCTL_END,
        ensures
            free == self.free_chain@.contains(index),
    {
        let ghost chain = self.free_chain@;
        let mut current: BufCtl = self.slab.free;
        let mut seen: Ghost<int> = Ghost(0);
        while current != BUFCTL_END
            invariant
                is_free_chain(self.bufctl@, self.slab.free, chain),
                chain == self.free_chain@,
                self.bufctl@.len() <= BUFCTL_END,
                0 <= seen@ <= chain.len(),
                current == if seen@ < chain.len() {
                    chain[seen@]
                } else {
                    BUFCTL_END
                },
                forall|i: int| 0 <= i < seen@ ==> chain[i] != index,
            decreases chain.len() - seen@,
        {
            if current == index {
                assert(chain[seen@] == index);
                assert(chain.contains(index));
                return true;
            }
            assert(chain[seen@] < self.bufctl@.len());
            assert(self.bufctl@[chain[seen@] as int] == if seen@ + 1 < chain.len() {
                chain[seen@ + 1]
            } else {
                BUFCTL_END
            });
            current = self.bufctl[current as usize];
            proof {
                seen@ = seen@ + 1;
            }
        }
        assert(seen@ == chain.len()) by {
            if seen@ < chain.len() {
                assert(chain[seen@] < self.bufctl@.len());
            }
        }
        assert(!chain.contains(index)) by {
            if chain.contains(index) {
                let i = choose|i: int| 0 <= i < chain.len() && chain[i] == index;
                assert(chain[i] != index);
            }
        }
        false
    }

    /// Whether `ptr` is the address of an object of the slab that is in
    /// use: an object of the slab that the free chain does not hold.
    pub fn is_in_use(&self, ptr: usize, obj_size: usize) -> (used: bool)
        requires
            self.content_ok(),
            obj_size == self.object_size(),
        ensures
            used == self.holds(ptr),
    {
        proof {
            crate::allocator::layout::lemma_slab_fits(self.class@);
        }
        if ptr < self.slab.s_mem || (ptr - self.slab.s_mem) % obj_size != 0 {
            return false;
        }
        let index: usize = (ptr - self.slab.s_mem) / obj_size;
        if index >= self.bufctl.len() {
            return false;
        }
        !self.is_free(index as BufCtl)
    }

    /// Hands out the first object of the free chain: its address.
    pub fn take(&mut self, obj_size: usize) -> (ptr: usize)
        requires
            old(self).content_ok(),
            obj_size == old(self).object_size(),
            old(self).slab.inuse < old(self).capacity(),
            old(self).slab.s_mem + old(self).capacity() * old(self).object_size() <= usize::MAX,
        ensures
            old(self).taken(*final(self), ptr),
    {
        let ghost chain = self.free_chain@;
        let obj_index: BufCtl = self.slab.free;
        proof {
            assert(chain.len() > 0);
            assert(obj_index == chain[0]);
            assert(chain[0] < self.bufctl@.len());
            self.lemma_object_address(obj_index as int);
            assert(chain.contains(chain[0]));
        }
        let ptr: usize = self.slab.s_mem + obj_index as usize * obj_size;
        self.slab.free = self.bufctl[obj_index as usize];
        self.slab.inuse = self.slab.inuse + 1;
        self.free_chain = Ghost(chain.drop_first());
        proof {
            let rest = chain.drop_first();
            assert forall|i: int| 0 <= i < rest.len() implies rest[i] == chain[i + 1] by {}
            assert(rest.no_duplicates()) by {
                assert forall|i: int, j: int| 0 <= i < j < rest.len() implies rest[i] != rest[j] by {
                    assert(chain[i + 1] != chain[j + 1]);
                }
            }
            assert forall|i: int| 0 <= i < rest.len() implies #[trigger] self.bufctl@[rest[i] as int]
                == if i + 1 < rest.len() {
                rest[i + 1]
            } else {
                BUFCTL_END
            } by {
                assert(rest[i] == chain[i + 1]);
            }
            assert forall|x: BufCtl| rest.contains(x) <==> (chain.contains(x) && x != chain[0]) by {
                if rest.contains(x) {
                    let i = choose|i: int| 0 <= i < rest.len() && rest[i] == x;
                    assert(chain[i + 1] == x);
                    assert(chain[0] != chain[i + 1]);
                }
                if chain.contains(x) && x != chain[0] {
                    let i = choose|i: int| 0 <= i < chain.len() && chain[i] == x;
                    assert(rest[i - 1] == x);
                }
            }
            assert forall|q: usize| q != ptr implies #[trigger] self.holds(q) == old(self).holds(
                q,
            ) by {
                if q >= self.slab.s_mem && (q - self.slab.s_mem) % self.object_size() == 0 {
                    old(self).lemma_object_index(q);
                }
            }
        }
        ptr
    }

    /// Takes back the object at `ptr`: it becomes the first of the free
    /// chain.
    pub fn give(&mut self, ptr: usize, obj_size: usize)
        requires
            old(self).content_ok(),
            obj_size == old(self).object_size(),
            old(self).holds(ptr),
        ensures
            old(self).given(*final(self), ptr),
    {
        let ghost chain = self.free_chain@;
        proof {
            old(self).lemma_object_index(ptr);
            crate::allocator::layout::lemma_slab_fits(self.class@);
        }
        let obj_index: usize = (ptr - self.slab.s_mem) / obj_size;
        let index: BufCtl = obj_index as BufCtl;
        let previous: BufCtl = self.slab.free;
        self.bufctl[obj_index] = previous;
        self.slab.free = index;
        proof {
            assert(old(self).slab.inuse > 0) by {
                if old(self).slab.inuse == 0 {
                    lemma_full_chain(chain, self.bufctl@.len() as int, index);
                }
            }
        }
        self.slab.inuse = self.slab.inuse - 1;
        self.free_chain = Ghost(seq![index] + chain);
        proof {
            let grown = seq![index] + chain;
            assert forall|i: int| 1 <= i < grown.len() implies grown[i] == chain[i - 1] by {}
            assert(grown.no_duplicates()) by {
                assert forall|i: int, j: int| 0 <= i < j < grown.len() implies grown[i]
                    != grown[j] by {
                    if i == 0 {
                        assert(chain.contains(chain[j - 1]));
                    } else {
                        assert(chain[i - 1] != chain[j - 1]);
                    }
                }
            }
            assert forall|i: int| 0 <= i < grown.len() implies #[trigger] self.bufctl@[grown[i] as int]
                == if i + 1 < grown.len() {
                grown[i + 1]
            } else {
                BUFCTL_END
            } by {
                if i > 0 {
                    assert(grown[i] == chain[i - 1]);
                    assert(chain.contains(chain[i - 1]));
                    assert(chain[i - 1] != index);
                }
            }
            assert forall|x: BufCtl| grown.contains(x) <==> (chain.contains(x) || x == index) by {
                if grown.contains(x) {
                    let i = choose|i: int| 0 <= i < grown.len() && grown[i] == x;
                    if i > 0 {
                        assert(chain[i - 1] == x);
                    }
                }
                if chain.contains(x) {
                    let i = choose|i: int| 0 <= i < chain.len() && chain[i] == x;
                    assert(grown[i + 1] == x);
                }
                assert(grown[0] == index);
            }
            assert forall|q: usize| q != ptr implies #[trigger] self.holds(q) == old(self).holds(
                q,
            ) by {
                if q >= self.slab.s_mem && (q - self.slab.s_mem) % self.object_size() == 0 {
                    old(self).lemma_object_index(q);
                }
            }
        }
    }
}

/// A chain without repeats that holds only numbers below `num` and has
/// `num` of them holds every number below `num`.
pub proof fn lemma_full_chain(chain: Seq<BufCtl>, num: int, index: BufCtl)
    requires
        chain.no_duplicates(),
        forall|i: int| 0 <= i < chain.len() ==> (#[trigger] chain[i]) < num,
        chain.len() == num,
        0 <= index < num <= 0xFFFF_FFFF,
    ensures
        chain.contains(index),
{
    let below = Set::new(|x: BufCtl| 0 <= x < num);
    let held = chain.to_set();
    assert(below =~= Set::new(|x: BufCtl| 0 <= x < num));
    lemma_below_len(num);
    chain.unique_seq_to_set();
    assert(held.subset_of(below)) by {
        assert forall|x: BufCtl| held.contains(x) implies below.contains(x) by {
            let i = choose|i: int| 0 <= i < chain.len() && chain[i] == x;
            assert(chain[i] < num);
        }
    }
    vstd::set_lib::lemma_subset_equality(held, below);
    assert(below.contains(index));
}

/// There are `num` numbers below `num`.
pub proof fn lemma_below_len(num: int)
    requires
        0 <= num <= 0xFFFF_FFFF,
    ensures
        Set::new(|x: BufCtl| 0 <= x < num).finite(),
        Set::new(|x: BufCtl| 0 <= x < num).len() == num,
    decreases num,
{
    let below = Set::new(|x: BufCtl| 0 <= x < num);
    if num == 0 {
        assert(below =~= Set::empty());
    } else {
        lemma_below_len(num - 1);
        let fewer = Set::new(|x: BufCtl| 0 <= x < num - 1);
        assert(below =~= fewer.insert((num - 1) as BufCtl));
    }
}

/// The allocator: the page cursor, the caches by size class, and the table
/// of what the pages hold.
pub struct SlabAllocator {
    /// The cursor over the heap, once the heap is there.
    pub page_alloc: Option<PageBump>,
    /// The address of the cache of each size class, once it was made.
    pub node_caches: [Option<usize>; 9],
    /// The address of the first page of the heap.
    pub heap_start: usize,
    /// What each page handed out holds, from the first page of the heap on.
    pub pages: Vec<Page>,
    /// The members of each list, by the address of its head, in order.
    pub rings: Ghost<Map<usize, Seq<usize>>>,
}

impl SlabAllocator {
    /// The number of the page that holds `address`.
    pub open spec fn page_index(&self, address: usize) -> int {
        (address - self.heap_start) / (PAGE_SIZE as int)
    }

    /// The offset of `address` in its page.
    pub open spec fn page_offset(&self, address: usize) -> int {
        (address - self.heap_start) % (PAGE_SIZE as int)
    }

    /// The address of page number `index`.
    pub open spec fn page_address(&self, index: int) -> int {
        self.heap_start + index * PAGE_SIZE
    }

    /// Whether `address` lies in a page that was handed out.
    pub open spec fn in_table(&self, address: usize) -> bool {
        address >= self.heap_start && self.page_index(address) < self.pages@.len()
    }

    /// What the page of `address` holds.
    pub open spec fn page_of(&self, address: usize) -> Page {
        self.pages@[self.page_index(address)]
    }

    /// Whether `address` is the start of a slab page.
    pub open spec fn is_slab(&self, address: usize) -> bool {
        self.in_table(address) && self.page_offset(address) == 0 && self.page_of(address) is Slab
    }

    /// The slab page at `address`.
    pub open spec fn slab_at(&self, address: usize) -> SlabPage {
        self.page_of(address)->Slab_0
    }

    /// Whether `address` is the start of the page of a cache.
    pub open spec fn is_cache(&self, address: usize) -> bool {
        self.in_table(address) && self.page_offset(address) == 0 && self.page_of(address) is Cache
    }

    /// The cache at `address`.
    pub open spec fn cache_at(&self, address: usize) -> Cache {
        self.page_of(address)->Cache_0
    }

    /// Whether `address` is that of the head of a list of a cache.
    pub open spec fn is_head(&self, address: usize) -> bool {
        self.in_table(address) && self.page_of(address) is Cache && (self.page_offset(address)
            == FULL_HEAD || self.page_offset(address) == PARTIAL_HEAD || self.page_offset(address)
            == FREE_HEAD)
    }

    /// Whether a list node stands at `address`.
    pub open spec fn is_node(&self, address: usize) -> bool {
        self.is_slab(address) || self.is_head(address)
    }

    /// The list node at `address`.
    pub open spec fn node_at(&self, address: usize) -> ListNode {
        match self.page_of(address) {
            Page::Slab(page) => page.slab.list,
            Page::Cache(cache) => if self.page_offset(address) == FULL_HEAD {
                cache.slabs_full
            } else if self.page_offset(address) == PARTIAL_HEAD {
                cache.slabs_partial
            } else {
                cache.slabs_free
            },
            Page::Large => ListNode { next: 0, prev: 0 },
        }
    }

    /// The list nodes of the heap, by their addresses.
    pub open spec fn node_map(&self) -> Map<usize, ListNode> {
        Map::new(|a: usize| self.is_node(a), |a: usize| self.node_at(a))
    }

    /// The address of the cache whose list has its head at `head`.
    pub open spec fn cache_of_head(&self, head: usize) -> int {
        head - self.page_offset(head)
    }

    /// The heap and the table agree: the table has one entry for each page
    /// below the cursor; before the heap is there, nothing is.
    pub open spec fn heap_ok(&self) -> bool {
        match self.page_alloc {
            None => self.pages@.len() == 0 && forall|c: int|
                0 <= c < MAX_CLASSES ==> (#[trigger] self.node_caches@[c]) is None,
            Some(bump) => {
                &&& bump.wf()
                &&& self.heap_start % PAGE_SIZE == 0
                &&& bump.next == self.heap_start + self.pages@.len() * PAGE_SIZE
            },
        }
    }

    /// The caches are those of their classes: each class names a cache
    /// with its object size, slab capacity and name, and each cache is
    /// named by its class.
    #[verifier::opaque]
    pub open spec fn caches_ok(&self) -> bool {
        &&& forall|c: int|
            0 <= c < MAX_CLASSES ==> match #[trigger] self.node_caches@[c] {
                None => true,
                Some(a) => {
                    &&& self.is_cache(a)
                    &&& self.cache_at(a).objsize == class_size(c)
                    &&& self.cache_at(a).num == objects_per_slab(class_size(c))
                    &&& self.cache_at(a).name@ == class_name(c)
                },
            }
        &&& forall|p: int|
            0 <= p < self.pages@.len() ==> match #[trigger] self.pages@[p] {
                Page::Cache(cache) => {
                    &&& 0 <= class_index(cache.objsize as int) < MAX_CLASSES
                    &&& self.node_caches@[class_index(cache.objsize as int)] == Some(
                        self.page_address(p) as usize,
                    )
                },
                _ => true,
            }
    }

    /// Whether page number `p`, if it is a slab, is a sound one: it belongs
    /// to a class that has its cache, its first object stands where the
    /// layout puts it, and its free chain holds the objects not in use.
    pub open spec fn slab_ok(&self, p: int) -> bool {
        match self.pages@[p] {
            Page::Slab(page) => {
                &&& 0 <= page.class@ < MAX_CLASSES
                &&& self.node_caches@[page.class@] is Some
                &&& page.slab.s_mem == self.page_address(p) + first_object_offset(
                    class_size(page.class@),
                )
                &&& page.bufctl@.len() == objects_per_slab(class_size(page.class@))
                &&& page.slab.inuse + page.free_chain@.len() == page.bufctl@.len()
                &&& is_free_chain(page.bufctl@, page.slab.free, page.free_chain@)
            },
            _ => true,
        }
    }

    /// Every slab is a sound one.
    #[verifier::opaque]
    pub open spec fn slabs_ok(&self) -> bool {
        forall|p: int| 0 <= p < self.pages@.len() ==> #[trigger] self.slab_ok(p)
    }

    /// The lists are sound: there is one for each head, its nodes are
    /// linked as a ring, and its members are the slabs of its cache that
    /// are recorded as being in it.
    #[verifier::opaque]
    pub open spec fn links_ok(&self) -> bool {
        &&& forall|a: usize| #[trigger] self.rings@.dom().contains(a) <==> self.is_head(a)
        &&& forall|h: usize|
            self.rings@.dom().contains(h) ==> ring_linked(
                self.node_map(),
                h,
                #[trigger] self.rings@[h],
            )
        &&& forall|h: usize, m: usize|
            self.rings@.dom().contains(h) ==> (#[trigger] self.rings@[h].contains(m) <==> self.is_slab(
                m,
            ) && self.slab_at(m).home@ == Some(h))
        &&& forall|m: usize| #[trigger]
            self.is_slab(m) ==> match self.slab_at(m).home@ {
                None => true,
                Some(h) => self.is_head(h) && self.node_caches@[self.slab_at(m).class@] == Some(
                    self.cache_of_head(h) as usize,
                ),
            }
    }

    /// The head of the list in which the slab at `m` belongs: that of the
    /// full slabs where every object is in use, that of the unused slabs
    /// where none is, that of the partly used slabs otherwise.
    pub open spec fn list_for(&self, m: usize) -> usize {
        let page = self.slab_at(m);
        let cache = self.node_caches@[page.class@].unwrap();
        if page.slab.inuse == page.bufctl@.len() {
            (cache + FULL_HEAD) as usize
        } else if page.slab.inuse == 0 {
            (cache + FREE_HEAD) as usize
        } else {
            (cache + PARTIAL_HEAD) as usize
        }
    }

    /// Every slab is in the list in which it belongs.
    #[verifier::opaque]
    pub open spec fn partition_ok(&self) -> bool {
        forall|m: usize| #[trigger] self.is_slab(m) ==> self.slab_at(m).home@ == Some(self.list_for(m))
    }

    /// Every slab but the one at `moving` is in the list in which it
    /// belongs.
    #[verifier::opaque]
    pub open spec fn partition_ok_but(&self, moving: usize) -> bool {
        forall|m: usize| #[trigger]
            self.is_slab(m) && m != moving ==> self.slab_at(m).home@ == Some(self.list_for(m))
    }

    /// The allocator is sound.
    pub open spec fn wf(&self) -> bool {
        &&& self.heap_ok()
        &&& self.caches_ok()
        &&& self.slabs_ok()
        &&& self.links_ok()
        &&& self.partition_ok()
    }

    /// An allocator without a heap.
    pub fn new() -> (allocator: SlabAllocator)
        ensures
            allocator.wf(),
            allocator.page_alloc is None,
    {
        let allocator = SlabAllocator {
            page_alloc: None,
            node_caches: [None;9],
            heap_start: 0,
            pages: Vec::new(),
            rings: Ghost(Map::empty()),
        };
        proof {
            reveal(SlabAllocator::caches_ok);
            reveal(SlabAllocator::slabs_ok);
            reveal(SlabAllocator::links_ok);
            reveal(SlabAllocator::partition_ok);
            assert(allocator.rings@.dom() =~= Set::<usize>::empty());
        }
        allocator
    }
}

} // verus!
