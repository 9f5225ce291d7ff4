use crate::arena::Cell;
use vstd::prelude::*;

verus! {

/// The address at which nothing lives.
pub const NULL: usize = usize::MAX;

/// The linkage in a doubly-linked list. Used both by the list (pointing to head
/// and tail) and by each slot (pointing to next and previous).
///
/// There are two representations of the empty list: both pointers are null, or
/// both point to the list itself. Null is the default, because a value that no
/// address has been given to can hold it. Once a list is pinned and first used
/// it is made cyclic.
#[derive(Clone, Copy, Debug)]
pub struct Pointers {
    pub next: usize,
    pub prev: usize,
}

impl Default for Pointers {
    fn default() -> (pointers: Pointers)
        ensures
            pointers == Pointers::null(),
    {
        Pointers { next: NULL, prev: NULL }
    }
}

/// The pointers of `node`, which points to itself if it pointed nowhere.
pub(crate) open spec fn cyclic(cells: Seq<Cell>, node: int) -> Pointers {
    if cells[node].pointers().next == NULL {
        Pointers { next: node as usize, prev: node as usize }
    } else {
        cells[node].pointers()
    }
}

/// The pointers of node `i` once `node` has been taken from between its
/// neighbours.
pub(crate) open spec fn after_unlink(cells: Seq<Cell>, node: int, i: int) -> Pointers {
    let gone = cells[node].pointers();
    if i == node {
        Pointers::null()
    } else {
        Pointers {
            next: if i == gone.prev {
                gone.next
            } else {
                cells[i].pointers().next
            },
            prev: if i == gone.next {
                gone.prev
            } else {
                cells[i].pointers().prev
            },
        }
    }
}

/// The pointers of node `i` once `node` has been put between the tail of `list`
/// and `list` itself.
pub(crate) open spec fn after_link_back(
    cells: Seq<Cell>,
    list: int,
    node: int,
    i: int,
) -> Pointers {
    let ends = cyclic(cells, list);
    if i == node {
        Pointers { next: list as usize, prev: ends.prev }
    } else if i == list {
        Pointers {
            next: if ends.prev == list {
                node as usize
            } else {
                ends.next
            },
            prev: node as usize,
        }
    } else {
        Pointers {
            next: if i == ends.prev {
                node as usize
            } else {
                cells[i].pointers().next
            },
            prev: cells[i].pointers().prev,
        }
    }
}

impl Pointers {
    /// Pointing nowhere.
    pub open spec fn null() -> Pointers {
        Pointers { next: NULL, prev: NULL }
    }

    /// Is empty when either null or self-linked, `here` being the address of
    /// these pointers.
    pub fn is_empty(&self, here: usize) -> (empty: bool)
        ensures
            empty == (self.next == NULL || self.next == here),
    {
        self.next == NULL || self.next == here
    }

    /// Now that the node has an address, if its pointers are null, lets them
    /// point to the node itself. This simplifies all remaining pointer updates.
    pub(crate) fn ensure_cyclic(cells: &mut Vec<Cell>, node: usize)
        requires
            node < old(cells)@.len(),
            old(cells)@[node as int].is_node(),
            old(cells)@[node as int].pointers().next == NULL
                ==> old(cells)@[node as int].pointers().prev == NULL,
        ensures
            final(cells)@ == old(cells)@.update(
                node as int,
                old(cells)@[node as int].with_pointers(cyclic(old(cells)@, node as int)),
            ),
    {
        if Cell::linkage(cells, node).next == NULL {
            Cell::set_next(cells, node, node);
            Cell::set_prev(cells, node, node);
        }
    }

    /// Unlinks this node from its neighbours.
    pub(crate) fn unlink(cells: &mut Vec<Cell>, node: usize)
        requires
            node < old(cells)@.len(),
            old(cells)@[node as int].is_node(),
            old(cells)@[node as int].pointers().next < old(cells)@.len(),
            old(cells)@[node as int].pointers().prev < old(cells)@.len(),
            old(cells)@[old(cells)@[node as int].pointers().next as int].is_node(),
            old(cells)@[old(cells)@[node as int].pointers().prev as int].is_node(),
        ensures
            final(cells)@.len() == old(cells)@.len(),
            forall|i: int|
                0 <= i < old(cells)@.len() ==> #[trigger] final(cells)@[i]
                    == old(cells)@[i].with_pointers(after_unlink(old(cells)@, node as int, i)),
    {
        let next: usize = Cell::linkage(cells, node).next;
        let prev: usize = Cell::linkage(cells, node).prev;
        Cell::set_next(cells, prev, next);
        Cell::set_prev(cells, next, prev);
        Cell::set_next(cells, node, NULL);
        Cell::set_prev(cells, node, NULL);
    }

    /// Links a node to the back of the list. The node must be unlinked.
    pub(crate) fn link_back(cells: &mut Vec<Cell>, list: usize, node: usize)
        requires
            list != node,
            list < old(cells)@.len(),
            old(cells)@[list as int].is_node(),
            old(cells)@[list as int].pointers().next == NULL
                ==> old(cells)@[list as int].pointers().prev == NULL,
            node < old(cells)@.len(),
            old(cells)@[node as int].is_node(),
            old(cells)@[node as int].pointers() == Pointers::null(),
            cyclic(old(cells)@, list as int).prev < old(cells)@.len(),
            cyclic(old(cells)@, list as int).prev != node,
            old(cells)@[cyclic(old(cells)@, list as int).prev as int].is_node(),
        ensures
            final(cells)@.len() == old(cells)@.len(),
            forall|i: int|
                0 <= i < old(cells)@.len() ==> #[trigger] final(cells)@[i]
                    == old(cells)@[i].with_pointers(
                    after_link_back(old(cells)@, list as int, node as int, i),
                ),
    {
        Pointers::ensure_cyclic(cells, list);
        let tail: usize = Cell::linkage(cells, list).prev;
        Cell::set_next(cells, node, list);
        Cell::set_prev(cells, node, tail);
        Cell::set_next(cells, tail, node);
        Cell::set_prev(cells, list, node);
    }
}

} // verus!
