//! A slab allocator for small objects over a page-bump heap, kept as
//! bookkeeping on addresses: the allocator decides which addresses are
//! handed out and taken back, and never touches the memory behind them.

pub mod serve;
pub mod guarantees;
pub mod heap;
pub mod layout;
pub mod links;
pub mod list;
pub mod objects;
pub mod page_bump;
pub mod slab;

pub use self::list::ListNode;
pub use self::page_bump::PageBump;
pub use self::slab::{Cache, Slab, SlabAllocator};
