//! The page-bump allocator: it hands out the pages of a region one run
//! after the other and takes none back.

use vstd::prelude::*;
use crate::allocator::layout::PAGE_SIZE;

verus! {

/// A cursor over the pages of `[next, end)`.
#[derive(Clone, Copy, Debug, PartialEq, Eq, Structural)]
pub struct PageBump {
    /// The address of the next page to hand out.
    pub next: usize,
    /// The end of the region.
    pub end: usize,
}

impl PageBump {
    /// Both ends lie on page boundaries, the cursor not past the end.
    pub open spec fn wf(&self) -> bool {
        &&& self.next <= self.end
        &&& self.next % PAGE_SIZE == 0
        &&& self.end % PAGE_SIZE == 0
    }

    /// The number of pages that are left.
    pub open spec fn pages_left(&self) -> int {
        (self.end - self.next) / (PAGE_SIZE as int)
    }

    /// A cursor over the region of `size` bytes at `start`.
    pub fn new(start: usize, size: usize) -> (bump: PageBump)
        requires
            start % PAGE_SIZE == 0,
            size % PAGE_SIZE == 0,
            start + size <= usize::MAX,
        ensures
            bump.wf(),
            bump.next == start,
            bump.end == start + size,
    {
        PageBump { next: start, end: start + size }
    }

    /// Hands out `n` pages: the address of the first one, after which the
    /// cursor stands `n` pages further. `None`, with the cursor where it
    /// was, exactly when fewer than `n` pages are left.
    pub fn alloc_pages(&mut self, n: usize) -> (r: Option<usize>)
        requires
            old(self).wf(),
        ensures
            final(self).wf(),
            final(self).end == old(self).end,
            match r {
                Some(address) => n <= old(self).pages_left() && address == old(self).next
                    && final(self).next == old(self).next + n * PAGE_SIZE,
                None => n > old(self).pages_left() && final(self).next == old(self).next,
            },
    {
        let left: usize = (self.end - self.next) / PAGE_SIZE;
        if n > left {
            return None;
        }
        let address = self.next;
        self.next = self.next + n * PAGE_SIZE;
        Some(address)
    }
}

} // verus!
