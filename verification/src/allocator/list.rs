//! Intrusive circular doubly-linked lists: a node stands inside the
//! structure that it links and names its neighbours by their addresses.

use vstd::prelude::*;

verus! {

/// The node of a list: the addresses of the next and of the previous node.
#[derive(Clone, Copy, Debug, PartialEq, Eq, Structural)]
pub struct ListNode {
    pub next: usize,
    pub prev: usize,
}

impl ListNode {
    /// A node that is in no list yet: both addresses are null.
    pub fn new() -> (node: ListNode)
        ensures
            node.next == 0,
            node.prev == 0,
    {
        ListNode { next: 0, prev: 0 }
    }

    /// Makes the node, which stands at `address`, the head of an empty
    /// list: it is its own neighbour on both sides.
    pub fn init(&mut self, address: usize)
        ensures
            final(self).next == address,
            final(self).prev == address,
    {
        self.next = address;
        self.prev = address;
    }

    /// Whether the node, which stands at `address`, is the head of an
    /// empty list.
    pub fn is_empty_head(&self, address: usize) -> (empty: bool)
        ensures
            empty == (self.next == address),
    {
        self.next == address
    }
}

/// The nodes of a list in order: the head, then the members.
pub open spec fn ring_of(head: usize, members: Seq<usize>) -> Seq<usize> {
    seq![head] + members
}

/// The node after place `i` of a ring.
pub open spec fn successor(ring: Seq<usize>, i: int) -> usize {
    if i + 1 < ring.len() {
        ring[i + 1]
    } else {
        ring[0]
    }
}

/// The node before place `i` of a ring.
pub open spec fn predecessor(ring: Seq<usize>, i: int) -> usize {
    if i > 0 {
        ring[i - 1]
    } else {
        ring[ring.len() - 1]
    }
}

/// Whether the nodes at the addresses `head` and `members` form one ring,
/// linked in both directions, in this order.
pub open spec fn ring_linked(nodes: Map<usize, ListNode>, head: usize, members: Seq<usize>) -> bool {
    let ring = ring_of(head, members);
    &&& ring.no_duplicates()
    &&& forall|i: int|
        0 <= i < ring.len() ==> {
            &&& nodes.dom().contains(#[trigger] ring[i])
            &&& nodes[ring[i]].next == successor(ring, i)
            &&& nodes[ring[i]].prev == predecessor(ring, i)
        }
}

/// A list is empty exactly when its head is its own successor.
pub proof fn lemma_empty_ring(nodes: Map<usize, ListNode>, head: usize, members: Seq<usize>)
    requires
        ring_linked(nodes, head, members),
    ensures
        (nodes[head].next == head) <==> members.len() == 0,
        members.len() > 0 ==> nodes[head].next == members[0],
{
    let ring = ring_of(head, members);
    assert(ring[0] == head);
    if members.len() > 0 {
        assert(ring[1] == members[0]);
        assert(successor(ring, 0) == members[0]);
    }
}

/// Writes to nodes outside a ring leave the ring as it is.
pub proof fn lemma_ring_untouched(
    before: Map<usize, ListNode>,
    after: Map<usize, ListNode>,
    head: usize,
    members: Seq<usize>,
)
    requires
        ring_linked(before, head, members),
        after.dom().contains(head) && after[head] == before[head],
        forall|i: int|
            0 <= i < members.len() ==> after.dom().contains(#[trigger] members[i])
                && after[members[i]] == before[members[i]],
    ensures
        ring_linked(after, head, members),
{
    let ring = ring_of(head, members);
    assert forall|i: int| 0 <= i < ring.len() implies {
        &&& after.dom().contains(#[trigger] ring[i])
        &&& after[ring[i]].next == successor(ring, i)
        &&& after[ring[i]].prev == predecessor(ring, i)
    } by {
        if i > 0 {
            assert(ring[i] == members[i - 1]);
        }
    }
}

/// Whether `after` holds the nodes of `before` with `entry` put between
/// `head` and its successor.
pub open spec fn is_added(
    before: Map<usize, ListNode>,
    after: Map<usize, ListNode>,
    head: usize,
    entry: usize,
) -> bool {
    let first = before[head].next;
    &&& after.dom() == before.dom()
    &&& after.dom().contains(entry)
    &&& after[entry] == (ListNode { next: first, prev: head })
    &&& after[head].next == entry
    &&& first == head ==> after[head].prev == entry
    &&& first != head ==> after[head].prev == before[head].prev && after[first] == (ListNode {
        next: before[first].next,
        prev: entry,
    })
    &&& forall|a: usize|
        before.dom().contains(a) && a != entry && a != head && a != first ==> #[trigger] after[a]
            == before[a]
}

/// Whether `after` holds the nodes of `before` with the neighbours of
/// `entry` linked to each other.
pub open spec fn is_removed(
    before: Map<usize, ListNode>,
    after: Map<usize, ListNode>,
    entry: usize,
) -> bool {
    let prev = before[entry].prev;
    let next = before[entry].next;
    &&& after.dom() == before.dom()
    &&& prev == next ==> after[prev] == (ListNode { next, prev })
    &&& prev != next ==> after[prev] == (ListNode { next, prev: before[prev].prev }) && after[next]
        == (ListNode { next: before[next].next, prev })
    &&& forall|a: usize|
        before.dom().contains(a) && a != prev && a != next ==> #[trigger] after[a] == before[a]
}

/// The three writes that put `entry` after `head` give the nodes that
/// [`is_added`] describes.
pub proof fn lemma_add_writes(
    nodes: Map<usize, ListNode>,
    head: usize,
    entry: usize,
    first_written: Map<usize, ListNode>,
    successor_read: ListNode,
    second_written: Map<usize, ListNode>,
    head_read: ListNode,
    last_written: Map<usize, ListNode>,
)
    requires
        nodes.dom().contains(head),
        nodes.dom().contains(entry),
        nodes.dom().contains(nodes[head].next),
        entry != head,
        entry != nodes[head].next,
        first_written == nodes.insert(entry, ListNode { next: nodes[head].next, prev: head }),
        successor_read == first_written[nodes[head].next],
        second_written == first_written.insert(
            nodes[head].next,
            ListNode { next: successor_read.next, prev: entry },
        ),
        head_read == second_written[head],
        last_written == second_written.insert(head, ListNode { next: entry, prev: head_read.prev }),
    ensures
        is_added(nodes, last_written, head, entry),
{
    assert(last_written.dom() =~= nodes.dom());
}

/// The two writes that take `entry` out of its ring give the nodes that
/// [`is_removed`] describes.
pub proof fn lemma_del_writes(
    nodes: Map<usize, ListNode>,
    entry: usize,
    before_read: ListNode,
    first_written: Map<usize, ListNode>,
    after_read: ListNode,
    last_written: Map<usize, ListNode>,
)
    requires
        nodes.dom().contains(entry),
        nodes.dom().contains(nodes[entry].prev),
        nodes.dom().contains(nodes[entry].next),
        before_read == nodes[nodes[entry].prev],
        first_written == nodes.insert(
            nodes[entry].prev,
            ListNode { next: nodes[entry].next, prev: before_read.prev },
        ),
        after_read == first_written[nodes[entry].next],
        last_written == first_written.insert(
            nodes[entry].next,
            ListNode { next: after_read.next, prev: nodes[entry].prev },
        ),
    ensures
        is_removed(nodes, last_written, entry),
{
    assert(last_written.dom() =~= nodes.dom());
}

/// The ring after `entry` was put between the head and its successor.
pub proof fn lemma_ring_add(
    before: Map<usize, ListNode>,
    after: Map<usize, ListNode>,
    head: usize,
    members: Seq<usize>,
    entry: usize,
)
    requires
        ring_linked(before, head, members),
        entry != head,
        !members.contains(entry),
        is_added(before, after, head, entry),
    ensures
        ring_linked(after, head, seq![entry] + members),
{
    let old_ring = ring_of(head, members);
    let ring = ring_of(head, seq![entry] + members);
    lemma_empty_ring(before, head, members);
    assert(ring[0] == head && ring[1] == entry);
    assert forall|i: int| 2 <= i < ring.len() implies ring[i] == old_ring[i - 1] by {}
    assert forall|i: int, j: int| 0 <= i < j < ring.len() implies ring[i] != ring[j] by {
        if i == 0 {
            if j >= 2 {
                assert(old_ring[j - 1] != old_ring[0]);
            }
        } else if i == 1 {
            assert(ring[j] == members[j - 2]);
        } else {
            assert(old_ring[i - 1] != old_ring[j - 1]);
        }
    }
    assert forall|i: int| 0 <= i < ring.len() implies {
        &&& after.dom().contains(#[trigger] ring[i])
        &&& after[ring[i]].next == successor(ring, i)
        &&& after[ring[i]].prev == predecessor(ring, i)
    } by {
        if i == 0 {
            if members.len() > 0 {
                assert(old_ring[old_ring.len() - 1] == predecessor(old_ring, 0));
                assert(before.dom().contains(old_ring[0]));
            }
        } else if i == 1 {
        } else {
            let a = old_ring[i - 1];
            assert(before.dom().contains(old_ring[i - 1]));
            assert(a != head) by {
                assert(old_ring[0] != old_ring[i - 1]);
            }
            assert(a != entry) by {
                assert(a == members[i - 2]);
            }
            if i == 2 {
                assert(a == before[head].next);
                assert(old_ring[1] == a);
            } else {
                assert(a != before[head].next) by {
                    assert(old_ring[1] != old_ring[i - 1]);
                }
            }
        }
    }
}

/// The ring after member number `place` was taken out: its neighbours
/// are linked to each other.
pub proof fn lemma_ring_del(
    before: Map<usize, ListNode>,
    after: Map<usize, ListNode>,
    head: usize,
    members: Seq<usize>,
    place: int,
)
    requires
        ring_linked(before, head, members),
        0 <= place < members.len(),
        is_removed(before, after, members[place]),
    ensures
        ring_linked(after, head, members.remove(place)),
{
    let old_ring = ring_of(head, members);
    let rest = members.remove(place);
    let ring = ring_of(head, rest);
    let at = place + 1;
    let entry = members[place];
    assert(old_ring[at] == entry);
    let before_entry = before[entry].prev;
    let after_entry = before[entry].next;
    assert(before_entry == old_ring[at - 1]);
    assert(after_entry == successor(old_ring, at));
    assert forall|i: int| 0 <= i < ring.len() implies ring[i] == (if i < at {
        old_ring[i]
    } else {
        old_ring[i + 1]
    }) by {}
    assert forall|i: int, j: int| 0 <= i < j < ring.len() implies ring[i] != ring[j] by {
        let oi = if i < at {
            i
        } else {
            i + 1
        };
        let oj = if j < at {
            j
        } else {
            j + 1
        };
        assert(old_ring[oi] != old_ring[oj]);
    }
    assert forall|i: int| 0 <= i < ring.len() implies {
        &&& after.dom().contains(#[trigger] ring[i])
        &&& after[ring[i]].next == successor(ring, i)
        &&& after[ring[i]].prev == predecessor(ring, i)
    } by {
        let oi = if i < at {
            i
        } else {
            i + 1
        };
        let a = old_ring[oi];
        assert(ring[i] == a);
        assert(before.dom().contains(old_ring[oi]));
        assert(before[a].next == successor(old_ring, oi));
        assert(before[a].prev == predecessor(old_ring, oi));
        let after_place = if at + 1 < old_ring.len() {
            at + 1
        } else {
            0
        };
        assert(after_entry == old_ring[after_place]);
        if oi != at - 1 {
            assert(old_ring[oi] != old_ring[at - 1]);
        }
        if oi != after_place {
            assert(old_ring[oi] != old_ring[after_place]);
        }
        if before_entry != after_entry {
            assert(at - 1 != after_place);
        } else {
            assert(at - 1 == after_place) by {
                if at - 1 != after_place {
                    assert(old_ring[at - 1] != old_ring[after_place]);
                }
            }
        }
    }
}

/// The members of a ring are distinct, and none of them is the head.
pub proof fn lemma_members_distinct(head: usize, members: Seq<usize>)
    requires
        ring_of(head, members).no_duplicates(),
    ensures
        members.no_duplicates(),
        !members.contains(head),
{
    let ring = ring_of(head, members);
    assert forall|i: int, j: int| 0 <= i < j < members.len() implies members[i] != members[j] by {
        assert(ring[i + 1] != ring[j + 1]);
    }
    if members.contains(head) {
        let i = choose|i: int| 0 <= i < members.len() && members[i] == head;
        assert(ring[0] != ring[i + 1]);
    }
}

/// What a list holds after a member was taken out: what it held, but for
/// that member.
pub proof fn lemma_remove_contains(members: Seq<usize>, entry: usize, m: usize)
    requires
        members.no_duplicates(),
        members.contains(entry),
    ensures
        members.remove(members.index_of(entry)).contains(m) <==> members.contains(m) && m != entry,
{
    let place = members.index_of(entry);
    let rest = members.remove(place);
    if rest.contains(m) {
        let i = choose|i: int| 0 <= i < rest.len() && rest[i] == m;
        let at = if i < place {
            i
        } else {
            i + 1
        };
        assert(members[at] == m);
        assert(members[at] != members[place]);
    }
    if m != entry && members.contains(m) {
        let at = choose|i: int| 0 <= i < members.len() && members[i] == m;
        let i = if at < place {
            at
        } else {
            at - 1
        };
        assert(rest[i] == m);
    }
}

/// What a list holds after a member was put at its front: what it held,
/// and that member.
pub proof fn lemma_front_contains(members: Seq<usize>, entry: usize, m: usize)
    ensures
        (seq![entry] + members).contains(m) <==> members.contains(m) || m == entry,
{
    let grown = seq![entry] + members;
    if grown.contains(m) {
        let i = choose|i: int| 0 <= i < grown.len() && grown[i] == m;
        if i > 0 {
            assert(members[i - 1] == m);
        }
    }
    if members.contains(m) {
        let i = choose|i: int| 0 <= i < members.len() && members[i] == m;
        assert(grown[i + 1] == m);
    }
    assert(grown[0] == entry);
}

} // verus!
