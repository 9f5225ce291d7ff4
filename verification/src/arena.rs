use crate::list::WakerList;
use crate::model::ArenaState;
use crate::model::ListState;
use crate::pointers::after_link_back;
use crate::pointers::after_unlink;
use crate::pointers::cyclic;
use crate::pointers::Pointers;
use crate::pointers::NULL;
use crate::slot::WakerSlot;
use crate::waker::DropLog;
use core::task::Waker;
use vstd::prelude::*;

verus! {

broadcast use {crate::list::lemma_list_fields, crate::slot::lemma_slot_fields};

/// What an address of the arena holds.
#[derive(Debug)]
pub(crate) enum Cell {
    List(WakerList),
    Slot(WakerSlot),
    Vacant,
}

impl Cell {
    /// A list or a slot lives here.
    pub(crate) open spec fn is_node(self) -> bool {
        !(self is Vacant)
    }

    /// The linkage of the list or slot that lives here.
    pub(crate) open spec fn pointers(self) -> Pointers {
        match self {
            Cell::List(list) => list.pointers,
            Cell::Slot(slot) => slot.pointers,
            Cell::Vacant => Pointers::null(),
        }
    }

    /// The same cell with another linkage.
    pub(crate) open spec fn with_pointers(self, pointers: Pointers) -> Cell {
        match self {
            Cell::List(list) => Cell::List(WakerList { pointers, ..list }),
            Cell::Slot(slot) => Cell::Slot(WakerSlot { pointers, ..slot }),
            Cell::Vacant => Cell::Vacant,
        }
    }

    /// Reads the linkage of the node at `addr`.
    pub(crate) fn linkage(cells: &Vec<Cell>, addr: usize) -> (pointers: Pointers)
        requires
            addr < cells@.len(),
        ensures
            pointers == cells@[addr as int].pointers(),
    {
        match &cells[addr] {
            Cell::List(list) => list.pointers,
            Cell::Slot(slot) => slot.pointers,
            Cell::Vacant => Pointers::default(),
        }
    }

    /// Writes the `next` pointer of the node at `addr`.
    pub(crate) fn set_next(cells: &mut Vec<Cell>, addr: usize, next: usize)
        requires
            addr < old(cells)@.len(),
        ensures
            final(cells)@ == old(cells)@.update(
                addr as int,
                old(cells)@[addr as int].with_pointers(
                    (Pointers { next, ..old(cells)@[addr as int].pointers() }),
                ),
            ),
    {
        match &mut cells[addr] {
            Cell::List(list) => {
                list.pointers.next = next;
            },
            Cell::Slot(slot) => {
                slot.pointers.next = next;
            },
            Cell::Vacant => {},
        }
    }

    /// Writes the `prev` pointer of the node at `addr`.
    pub(crate) fn set_prev(cells: &mut Vec<Cell>, addr: usize, prev: usize)
        requires
            addr < old(cells)@.len(),
        ensures
            final(cells)@ == old(cells)@.update(
                addr as int,
                old(cells)@[addr as int].with_pointers(
                    (Pointers { prev, ..old(cells)@[addr as int].pointers() }),
                ),
            ),
    {
        match &mut cells[addr] {
            Cell::List(list) => {
                list.pointers.prev = prev;
            },
            Cell::Slot(slot) => {
                slot.pointers.prev = prev;
            },
            Cell::Vacant => {},
        }
    }

    /// Lets the slot at `addr` hold a waker for the list at `list`.
    fn fill(cells: &mut Vec<Cell>, addr: usize, list: usize, generation: u64, waker: Waker)
        requires
            addr < old(cells)@.len(),
            old(cells)@[addr as int] is Slot,
        ensures
            final(cells)@ == old(cells)@.update(
                addr as int,
                Cell::Slot(
                    (WakerSlot {
                        list,
                        generation,
                        waker: Some(waker),
                        ..slot_in(old(cells)@[addr as int])
                    }),
                ),
            ),
    {
        if let Cell::Slot(slot) = &mut cells[addr] {
            slot.waker = Some(waker);
            slot.generation = generation;
            slot.list = list;
        }
    }

    /// Takes the waker out of the slot at `addr`, which then belongs to no
    /// list.
    fn clear(cells: &mut Vec<Cell>, addr: usize) -> (waker: Option<Waker>)
        requires
            addr < old(cells)@.len(),
            old(cells)@[addr as int] is Slot,
        ensures
            waker == slot_in(old(cells)@[addr as int]).waker,
            final(cells)@ == old(cells)@.update(
                addr as int,
                Cell::Slot(
                    (WakerSlot {
                        list: NULL,
                        waker: None,
                        ..slot_in(old(cells)@[addr as int])
                    }),
                ),
            ),
    {
        match &mut cells[addr] {
            Cell::Slot(slot) => {
                slot.list = NULL;
                slot.waker.take()
            },
            _ => None,
        }
    }
}

/// The slot that lives in a cell, given that one does.
spec fn slot_in(cell: Cell) -> WakerSlot {
    cell->Slot_0
}

/// The node `k` steps from a list along its `next` pointers: the list itself,
/// then the slots of its queue, then the list again.
spec fn ring_node(list: usize, queue: Seq<usize>, k: int) -> usize {
    if 1 <= k <= queue.len() {
        queue[k - 1]
    } else {
        list
    }
}

/// Node `k` of the ring points to its two neighbours.
spec fn ring_links(cells: Seq<Cell>, list: usize, queue: Seq<usize>, k: int) -> bool {
    let pointers = cells[ring_node(list, queue, k) as int].pointers();
    &&& pointers.next == ring_node(list, queue, k + 1)
    &&& pointers.prev == ring_node(
        list,
        queue,
        if k == 0 {
            queue.len() as int
        } else {
            k - 1
        },
    )
}

/// The list and its slots point to one another in the order of the queue.
spec fn is_ring(cells: Seq<Cell>, list: usize, queue: Seq<usize>) -> bool {
    forall|k: int| 0 <= k <= queue.len() ==> #[trigger] ring_links(cells, list, queue, k)
}

/// A slot that belongs to the queue of the list at `list`.
spec fn is_member(cells: Seq<Cell>, list: usize, slot: usize) -> bool {
    &&& slot < cells.len()
    &&& cells[slot as int] is Slot
    &&& slot_in(cells[slot as int]).list == list
    &&& slot_in(cells[slot as int]).generation <= cells[list as int]->List_0.generation
}

/// The list at `list` is linked up with the slots of its queue.
spec fn wf_list(cells: Seq<Cell>, list: usize, queue: Seq<usize>) -> bool {
    &&& queue.no_duplicates()
    &&& forall|k: int| 0 <= k < queue.len() ==> is_member(cells, list, #[trigger] queue[k])
    &&& forall|i: int, j: int|
        0 <= i <= j < queue.len() ==> slot_in(cells[#[trigger] queue[i] as int]).generation
            <= slot_in(cells[#[trigger] queue[j] as int]).generation
    &&& queue.len() == 0 && cells[list as int].pointers() == Pointers::null() || is_ring(
        cells,
        list,
        queue,
    )
}

/// The slot at `slot` is either unlinked and empty, or stands in the queue of
/// its list and holds a waker.
spec fn wf_slot(cells: Seq<Cell>, queues: Map<usize, Seq<usize>>, slot: usize) -> bool {
    let it = slot_in(cells[slot as int]);
    if it.list == NULL {
        it.pointers == Pointers::null() && it.waker is None
    } else {
        &&& it.list < cells.len()
        &&& cells[it.list as int] is List
        &&& queues[it.list].contains(slot)
        &&& it.waker is Some
    }
}

/// The well-formedness of an arena, over its cells and the queues they stand
/// for.
spec fn wf_cells(cells: Seq<Cell>, queues: Map<usize, Seq<usize>>) -> bool {
    &&& forall|a: usize|
        a < cells.len() && #[trigger] cells[a as int] is List ==> wf_list(cells, a, queues[a])
    &&& forall|a: usize|
        a < cells.len() && #[trigger] cells[a as int] is Slot ==> wf_slot(cells, queues, a)
}

/// A list stays well-formed while its own cell and those of its slots stay as
/// they are.
proof fn lemma_list_frame(before: Seq<Cell>, after: Seq<Cell>, list: usize, queue: Seq<usize>)
    requires
        list < before.len() <= after.len(),
        wf_list(before, list, queue),
        after[list as int] == before[list as int],
        forall|k: int|
            0 <= k < queue.len() ==> after[#[trigger] queue[k] as int] == before[queue[k] as int],
    ensures
        wf_list(after, list, queue),
{
    assert forall|k: int| 0 <= k < queue.len() implies is_member(
        after,
        list,
        #[trigger] queue[k],
    ) by {
        assert(is_member(before, list, queue[k]));
    }
    if is_ring(before, list, queue) {
        assert forall|k: int| 0 <= k <= queue.len() implies #[trigger] ring_links(
            after,
            list,
            queue,
            k,
        ) by {
            assert(ring_links(before, list, queue, k));
            assert(k > 0 ==> is_member(before, list, queue[k - 1]));
        }
    }
}

/// A list stays well-formed while every node of its ring stays as it is.
proof fn lemma_ring_frame(before: Seq<Cell>, after: Seq<Cell>, list: usize, queue: Seq<usize>)
    requires
        list < before.len() <= after.len(),
        wf_list(before, list, queue),
        forall|k: int|
            0 <= k <= queue.len() ==> after[#[trigger] ring_node(list, queue, k) as int]
                == before[ring_node(list, queue, k) as int],
    ensures
        wf_list(after, list, queue),
{
    assert(ring_node(list, queue, 0) == list);
    assert forall|k: int| 0 <= k < queue.len() implies after[#[trigger] queue[k] as int]
        == before[queue[k] as int] by {
        assert(ring_node(list, queue, k + 1) == queue[k]);
    }
    lemma_list_frame(before, after, list, queue);
}

/// Putting a fresh list or slot where nothing lived.
proof fn lemma_place(
    before: Seq<Cell>,
    queues: Map<usize, Seq<usize>>,
    after: Seq<Cell>,
    addr: usize,
)
    requires
        wf_cells(before, queues),
        addr <= before.len(),
        addr < before.len() ==> before[addr as int] is Vacant && after == before.update(
            addr as int,
            after[addr as int],
        ),
        addr == before.len() ==> after == before.push(after[addr as int]),
        after[addr as int] is Slot ==> slot_in(after[addr as int]).is_fresh(),
        after[addr as int] is List ==> after[addr as int].pointers() == Pointers::null(),
    ensures
        wf_cells(after, queues.insert(addr, Seq::empty())),
{
    let queues2 = queues.insert(addr, Seq::empty());
    assert forall|a: usize| a < after.len() && #[trigger] after[a as int] is List implies wf_list(
        after,
        a,
        queues2[a],
    ) by {
        if a != addr {
            assert(before[a as int] is List);
            let queue = queues[a];
            assert forall|k: int| 0 <= k < queue.len() implies after[#[trigger] queue[k] as int]
                == before[queue[k] as int] by {
                assert(is_member(before, a, queue[k]));
            }
            lemma_list_frame(before, after, a, queue);
        }
    }
    assert forall|a: usize| a < after.len() && #[trigger] after[a as int] is Slot implies wf_slot(
        after,
        queues2,
        a,
    ) by {
        if a != addr {
            assert(before[a as int] is Slot);
            assert(wf_slot(before, queues, a));
        }
    }
}

/// No two nodes of a ring are the same.
proof fn lemma_ring_distinct(cells: Seq<Cell>, list: usize, queue: Seq<usize>, i: int, j: int)
    requires
        cells[list as int] is List,
        wf_list(cells, list, queue),
        0 <= i < j <= queue.len(),
    ensures
        ring_node(list, queue, i) != ring_node(list, queue, j),
{
    assert(is_member(cells, list, queue[j - 1]));
}

/// Nodes of different rings are not the same.
proof fn lemma_rings_disjoint(
    cells: Seq<Cell>,
    list: usize,
    queue: Seq<usize>,
    i: int,
    other: usize,
    others: Seq<usize>,
    j: int,
)
    requires
        cells[list as int] is List,
        wf_list(cells, list, queue),
        cells[other as int] is List,
        wf_list(cells, other, others),
        list != other,
    ensures
        ring_node(list, queue, i) != ring_node(other, others, j),
{
    assert(1 <= i <= queue.len() ==> is_member(cells, list, queue[i - 1]));
    assert(1 <= j <= others.len() ==> is_member(cells, other, others[j - 1]));
}

/// The cells once slot `slot` has left its list.
spec fn cell_after_unlink(cells: Seq<Cell>, slot: usize, i: int) -> Cell {
    let cell = cells[i].with_pointers(after_unlink(cells, slot as int, i));
    if i == slot {
        Cell::Slot(WakerSlot { list: NULL, waker: None, ..slot_in(cell) })
    } else {
        cell
    }
}

/// The slots that remain in the queue once slot `j` has left it still form a
/// ring.
proof fn lemma_unlink_ring(
    before: Seq<Cell>,
    after: Seq<Cell>,
    list: usize,
    queue: Seq<usize>,
    j: int,
)
    requires
        list < before.len(),
        before[list as int] is List,
        wf_list(before, list, queue),
        0 <= j < queue.len(),
        after.len() == before.len(),
        forall|i: int|
            0 <= i < before.len() ==> #[trigger] after[i] == cell_after_unlink(before, queue[j], i),
    ensures
        is_ring(after, list, queue.remove(j)),
{
    let rest = queue.remove(j);
    assert(ring_links(before, list, queue, j + 1));
    assert forall|k: int| 0 <= k <= rest.len() implies #[trigger] ring_links(
        after,
        list,
        rest,
        k,
    ) by {
        let m = if k <= j {
            k
        } else {
            k + 1
        };
        let node = ring_node(list, queue, m);
        assert(ring_node(list, rest, k) == node);
        assert(ring_links(before, list, queue, m));
        assert(m > 0 ==> is_member(before, list, queue[m - 1]));
        if m < j + 1 {
            lemma_ring_distinct(before, list, queue, m, j + 1);
        } else {
            lemma_ring_distinct(before, list, queue, j + 1, m);
        }
        if m < j {
            lemma_ring_distinct(before, list, queue, m, j);
        } else if m > j {
            lemma_ring_distinct(before, list, queue, j, m);
        }
        let after_gone = if j + 2 <= queue.len() {
            j + 2
        } else {
            0
        };
        if m < after_gone {
            lemma_ring_distinct(before, list, queue, m, after_gone);
        } else if m > after_gone {
            lemma_ring_distinct(before, list, queue, after_gone, m);
        }
        assert(after[node as int] == cell_after_unlink(before, queue[j], node as int));
    }
}

/// Taking a slot out of its queue keeps the arena well-formed.
proof fn lemma_unlink(
    before: Seq<Cell>,
    queues: Map<usize, Seq<usize>>,
    after: Seq<Cell>,
    list: usize,
    j: int,
)
    requires
        wf_cells(before, queues),
        list < before.len(),
        before[list as int] is List,
        0 <= j < queues[list].len(),
        after.len() == before.len(),
        forall|i: int|
            0 <= i < before.len() ==> #[trigger] after[i] == cell_after_unlink(
                before,
                queues[list][j],
                i,
            ),
    ensures
        wf_cells(after, queues.insert(list, queues[list].remove(j))),
{
    let queue = queues[list];
    let gone = queue[j];
    let rest = queue.remove(j);
    let queues2 = queues.insert(list, rest);
    assert(wf_list(before, list, queue));
    assert(is_member(before, list, gone));
    assert(ring_links(before, list, queue, j + 1));
    lemma_unlink_ring(before, after, list, queue, j);
    assert forall|a: usize| a < after.len() && #[trigger] after[a as int] is List implies wf_list(
        after,
        a,
        queues2[a],
    ) by {
        assert(before[a as int] is List);
        assert(wf_list(before, a, queues[a]));
        if a == list {
            assert forall|k: int| 0 <= k < rest.len() implies is_member(
                after,
                list,
                #[trigger] rest[k],
            ) by {
                assert(rest[k] == queue[if k < j { k } else { k + 1 }]);
                assert(is_member(before, list, rest[k]));
            }
            assert forall|i: int, k: int| 0 <= i <= k < rest.len() implies slot_in(
                after[#[trigger] rest[i] as int],
            ).generation <= slot_in(after[#[trigger] rest[k] as int]).generation by {
                assert(is_member(after, list, rest[i]));
                assert(is_member(after, list, rest[k]));
                assert(rest[i] == queue[if i < j { i } else { i + 1 }]);
                assert(rest[k] == queue[if k < j { k } else { k + 1 }]);
            }
        } else {
            let others = queues[a];
            assert forall|k: int| 0 <= k <= others.len() implies after[#[trigger] ring_node(
                a,
                others,
                k,
            ) as int] == before[ring_node(a, others, k) as int] by {
                lemma_rings_disjoint(before, list, queue, j, a, others, k);
                lemma_rings_disjoint(before, list, queue, j + 1, a, others, k);
                lemma_rings_disjoint(before, list, queue, j + 2, a, others, k);
                assert(k > 0 ==> is_member(before, a, others[k - 1]));
            }
            lemma_ring_frame(before, after, a, others);
        }
    }
    assert forall|a: usize| a < after.len() && #[trigger] after[a as int] is Slot implies wf_slot(
        after,
        queues2,
        a,
    ) by {
        assert(before[a as int] is Slot);
        assert(wf_slot(before, queues, a));
        if a != gone {
            let it = slot_in(before[a as int]);
            if it.list == NULL {
                // An unlinked slot is not a neighbour of a linked one.
                assert(1 <= j ==> is_member(before, list, queue[j - 1]));
                assert(j + 1 < queue.len() ==> is_member(before, list, queue[j + 1]));
            } else if it.list == list {
                let k = queue.index_of(a);
                assert(queue[k] == a && k != j);
                assert(rest[if k < j { k } else { k - 1 }] == a);
            }
        }
    }
}

/// The cells once slot `slot` has joined the back of `list`.
spec fn cell_after_link(cells: Seq<Cell>, list: usize, slot: usize, waker: Waker, i: int) -> Cell {
    let cell = cells[i].with_pointers(after_link_back(cells, list as int, slot as int, i));
    if i == slot {
        Cell::Slot(
            WakerSlot {
                list,
                generation: cells[list as int]->List_0.generation,
                waker: Some(waker),
                ..slot_in(cell)
            },
        )
    } else {
        cell
    }
}

/// Where a node is to be put between the tail of a list and the list itself.
proof fn lemma_ends(cells: Seq<Cell>, list: usize, queue: Seq<usize>)
    requires
        list < cells.len() <= NULL,
        cells[list as int] is List,
        wf_list(cells, list, queue),
    ensures
        cyclic(cells, list as int) == (Pointers {
            next: ring_node(list, queue, 1),
            prev: ring_node(list, queue, queue.len() as int),
        }),
{
    if is_ring(cells, list, queue) {
        assert(ring_links(cells, list, queue, 0));
        assert(queue.len() > 0 ==> is_member(cells, list, queue[0]));
    }
}

/// A queue with a slot put behind it forms a ring.
proof fn lemma_link_ring(
    before: Seq<Cell>,
    after: Seq<Cell>,
    list: usize,
    queue: Seq<usize>,
    slot: usize,
    waker: Waker,
)
    requires
        list < before.len() <= NULL,
        before[list as int] is List,
        wf_list(before, list, queue),
        slot < before.len(),
        before[slot as int] is Slot,
        slot_in(before[slot as int]).list == NULL,
        after.len() == before.len(),
        forall|i: int|
            0 <= i < before.len() ==> #[trigger] after[i] == cell_after_link(
                before,
                list,
                slot,
                waker,
                i,
            ),
    ensures
        is_ring(after, list, queue.push(slot)),
{
    let longer = queue.push(slot);
    let n = queue.len() as int;
    lemma_ends(before, list, queue);
    assert forall|k: int| 0 <= k <= longer.len() implies #[trigger] ring_links(
        after,
        list,
        longer,
        k,
    ) by {
        let node = ring_node(list, longer, k);
        assert(after[node as int] == cell_after_link(before, list, slot, waker, node as int)) by {
            assert(1 <= k <= n ==> is_member(before, list, queue[k - 1]));
        }
        if 1 <= k <= n {
            assert(is_member(before, list, queue[k - 1]));
            assert(ring_links(before, list, queue, k));
            if k < n {
                lemma_ring_distinct(before, list, queue, k, n);
            }
        } else if k == 0 {
            if n > 0 {
                lemma_ring_distinct(before, list, queue, 0, n);
                assert(ring_links(before, list, queue, 0));
            }
        }
    }
}

/// Putting an unlinked slot at the back of a queue keeps the arena well-formed.
proof fn lemma_link(
    before: Seq<Cell>,
    queues: Map<usize, Seq<usize>>,
    after: Seq<Cell>,
    list: usize,
    slot: usize,
    waker: Waker,
)
    requires
        before.len() <= NULL,
        wf_cells(before, queues),
        list < before.len(),
        before[list as int] is List,
        slot < before.len(),
        before[slot as int] is Slot,
        slot_in(before[slot as int]).list == NULL,
        after.len() == before.len(),
        forall|i: int|
            0 <= i < before.len() ==> #[trigger] after[i] == cell_after_link(
                before,
                list,
                slot,
                waker,
                i,
            ),
    ensures
        wf_cells(after, queues.insert(list, queues[list].push(slot))),
{
    let queue = queues[list];
    let longer = queue.push(slot);
    let queues2 = queues.insert(list, longer);
    let n = queue.len() as int;
    assert(wf_list(before, list, queue));
    lemma_ends(before, list, queue);
    lemma_link_ring(before, after, list, queue, slot, waker);
    assert forall|a: usize| a < after.len() && #[trigger] after[a as int] is List implies wf_list(
        after,
        a,
        queues2[a],
    ) by {
        assert(before[a as int] is List);
        assert(wf_list(before, a, queues[a]));
        if a == list {
            assert forall|k: int| 0 <= k < longer.len() implies is_member(
                after,
                list,
                #[trigger] longer[k],
            ) by {
                assert(k < n ==> is_member(before, list, queue[k]));
            }
            assert(longer.no_duplicates()) by {
                assert forall|k: int| 0 <= k < n implies #[trigger] longer[k] != slot by {
                    assert(is_member(before, list, queue[k]));
                }
            }
            assert forall|i: int, k: int| 0 <= i <= k < longer.len() implies slot_in(
                after[#[trigger] longer[i] as int],
            ).generation <= slot_in(after[#[trigger] longer[k] as int]).generation by {
                assert(is_member(after, list, longer[i]));
                assert(is_member(after, list, longer[k]));
                assert(i < n ==> is_member(before, list, queue[i]));
                assert(k < n ==> is_member(before, list, queue[k]));
            }
        } else {
            let others = queues[a];
            assert forall|k: int| 0 <= k <= others.len() implies after[#[trigger] ring_node(
                a,
                others,
                k,
            ) as int] == before[ring_node(a, others, k) as int] by {
                lemma_rings_disjoint(before, list, queue, n, a, others, k);
                lemma_rings_disjoint(before, list, queue, 0, a, others, k);
                assert(k > 0 ==> is_member(before, a, others[k - 1]));
            }
            lemma_ring_frame(before, after, a, others);
        }
    }
    assert forall|a: usize| a < after.len() && #[trigger] after[a as int] is Slot implies wf_slot(
        after,
        queues2,
        a,
    ) by {
        assert(before[a as int] is Slot);
        assert(wf_slot(before, queues, a));
        if a == slot {
            assert(longer[n] == slot);
        } else {
            let it = slot_in(before[a as int]);
            if it.list == NULL {
                // An unlinked slot is not the tail of a list.
                assert(n > 0 ==> is_member(before, list, queue[n - 1]));
            } else if it.list == list {
                let k = queue.index_of(a);
                assert(longer[k] == a);
            }
        }
    }
}

/// A cell with the same linkage, of the same list and generation if a slot,
/// and of no earlier generation if a list.
spec fn same_linkage(before: Cell, after: Cell) -> bool {
    match (before, after) {
        (Cell::List(old_list), Cell::List(new_list)) => old_list.pointers == new_list.pointers
            && old_list.generation <= new_list.generation,
        (Cell::Slot(old_slot), Cell::Slot(new_slot)) => old_slot.pointers == new_slot.pointers
            && old_slot.list == new_slot.list && old_slot.generation == new_slot.generation && (
        old_slot.waker is Some <==> new_slot.waker is Some),
        (Cell::Vacant, Cell::Vacant) => true,
        _ => false,
    }
}

/// What leaves the linkage alone keeps the arena well-formed.
proof fn lemma_same_linkage(
    before: Seq<Cell>,
    queues: Map<usize, Seq<usize>>,
    after: Seq<Cell>,
)
    requires
        wf_cells(before, queues),
        after.len() == before.len(),
        forall|i: int| 0 <= i < before.len() ==> same_linkage(before[i], #[trigger] after[i]),
    ensures
        wf_cells(after, queues),
{
    assert forall|a: usize| a < after.len() && #[trigger] after[a as int] is List implies wf_list(
        after,
        a,
        queues[a],
    ) by {
        let queue = queues[a];
        assert(before[a as int] is List);
        assert(wf_list(before, a, queue));
        assert forall|k: int| 0 <= k < queue.len() implies is_member(
            after,
            a,
            #[trigger] queue[k],
        ) by {
            assert(is_member(before, a, queue[k]));
            assert(same_linkage(before[queue[k] as int], after[queue[k] as int]));
        }
        if is_ring(before, a, queue) {
            assert forall|k: int| 0 <= k <= queue.len() implies #[trigger] ring_links(
                after,
                a,
                queue,
                k,
            ) by {
                assert(ring_links(before, a, queue, k));
                assert(k > 0 ==> is_member(after, a, queue[k - 1]));
                let node = ring_node(a, queue, k) as int;
                assert(same_linkage(before[node], after[node]));
            }
        }
        assert forall|i: int, j: int| 0 <= i <= j < queue.len() implies slot_in(
            after[#[trigger] queue[i] as int],
        ).generation <= slot_in(after[#[trigger] queue[j] as int]).generation by {
            assert(is_member(after, a, queue[i]));
            assert(is_member(after, a, queue[j]));
            assert(same_linkage(before[queue[i] as int], after[queue[i] as int]));
            assert(same_linkage(before[queue[j] as int], after[queue[j] as int]));
        }
    }
    assert forall|a: usize| a < after.len() && #[trigger] after[a as int] is Slot implies wf_slot(
        after,
        queues,
        a,
    ) by {
        assert(before[a as int] is Slot);
        assert(wf_slot(before, queues, a));
        let list = slot_in(before[a as int]).list;
        if list != NULL {
            assert(same_linkage(before[list as int], after[list as int]));
        }
    }
}

/// Vacating an address at which an unlinked slot or an empty list lives keeps
/// the arena well-formed.
proof fn lemma_vacate(before: Seq<Cell>, queues: Map<usize, Seq<usize>>, addr: usize)
    requires
        wf_cells(before, queues),
        addr < before.len() <= NULL,
        before[addr as int] is Slot ==> slot_in(before[addr as int]).list == NULL,
        before[addr as int] is List ==> queues[addr].len() == 0,
    ensures
        wf_cells(before.update(addr as int, Cell::Vacant), queues),
{
    let after = before.update(addr as int, Cell::Vacant);
    assert forall|a: usize| a < after.len() && #[trigger] after[a as int] is List implies wf_list(
        after,
        a,
        queues[a],
    ) by {
        assert(before[a as int] is List);
        let queue = queues[a];
        assert forall|k: int| 0 <= k < queue.len() implies after[#[trigger] queue[k] as int]
            == before[queue[k] as int] by {
            assert(is_member(before, a, queue[k]));
        }
        lemma_list_frame(before, after, a, queue);
    }
    assert forall|a: usize| a < after.len() && #[trigger] after[a as int] is Slot implies wf_slot(
        after,
        queues,
        a,
    ) by {
        assert(before[a as int] is Slot);
        assert(wf_slot(before, queues, a));
    }
}

/// The memory in which lists and slots are pinned. A value gets its address
/// when it is pinned and keeps it until it is dropped, so lists and slots can
/// refer to one another by address.
pub struct Arena {
    cells: Vec<Cell>,
    /// The vacant addresses, to be given out again.
    vacant: Vec<usize>,
    /// For each list, the slots linked into it, the longest linked first.
    queues: Ghost<Map<usize, Seq<usize>>>,
    /// The wakers that were dropped without being woken.
    dropped: DropLog,
}

/// The state that cells and queues stand for, once the given wakers have been
/// dropped.
spec fn state_of(
    cells: Seq<Cell>,
    queues: Map<usize, Seq<usize>>,
    dropped: Seq<Waker>,
) -> ArenaState {
    ArenaState {
        lists: Map::new(
            |a: usize| a < cells.len() && cells[a as int] is List,
            |a: usize|
                ListState { queue: queues[a], generation: cells[a as int]->List_0.generation },
        ),
        slots: Map::new(
            |a: usize| a < cells.len() && cells[a as int] is Slot,
            |a: usize| slot_in(cells[a as int])@,
        ),
        dropped,
    }
}

impl View for Arena {
    type V = ArenaState;

    closed spec fn view(&self) -> ArenaState {
        state_of(self.cells@, self.queues@, self.dropped@)
    }
}

impl Arena {
    /// The pointers of lists and slots agree with the queues, and what is
    /// listed as vacant is.
    pub closed spec fn wf(self) -> bool {
        &&& self.cells@.len() <= NULL
        &&& wf_cells(self.cells@, self.queues@)
        &&& self.vacant@.no_duplicates()
        &&& forall|i: int|
            0 <= i < self.vacant@.len() ==> (#[trigger] self.vacant@[i]) < self.cells@.len()
                && self.cells@[self.vacant@[i] as int] is Vacant
    }

    /// An arena in which nothing lives.
    pub fn new() -> (arena: Arena)
        ensures
            arena.wf(),
            arena@ == ArenaState::empty(),
    {
        let arena = Arena {
            cells: Vec::new(),
            vacant: Vec::new(),
            queues: Ghost(Map::empty()),
            dropped: DropLog::new(),
        };
        assert(arena@ =~= ArenaState::empty());
        arena
    }

    /// Puts a fresh list or slot at an address at which nothing lives.
    fn place(&mut self, cell: Cell) -> (addr: usize)
        requires
            old(self).wf(),
            cell.is_node(),
            cell is Slot ==> slot_in(cell).is_fresh(),
            cell is List ==> cell.pointers() == Pointers::null(),
        ensures
            final(self).wf(),
            old(self)@.unused(addr),
            cell is List ==> final(self)@ == old(self)@.pin_list(addr, cell->List_0.generation),
            cell is Slot ==> final(self)@ == old(self)@.pin_slot(addr),
    {
        let ghost cells = self.cells@;
        let ghost queues = self.queues@;
        let addr: usize = match self.vacant.pop() {
            Some(addr) => {
                self.cells.set(addr, cell);
                addr
            },
            None => {
                self.cells.push(cell);
                self.cells.len() - 1
            },
        };
        self.queues = Ghost(queues.insert(addr, Seq::empty()));
        proof {
            lemma_place(cells, queues, self.cells@, addr);
        }
        addr
    }

    /// Pins a list that has not been in use. Gives its address.
    pub fn pin_list(&mut self, list: WakerList) -> (addr: usize)
        requires
            old(self).wf(),
            list.is_fresh(),
        ensures
            final(self).wf(),
            old(self)@.unused(addr),
            final(self)@ == old(self)@.pin_list(addr, list@),
    {
        self.place(Cell::List(list))
    }

    /// Pins a slot that has not been in use. Gives its address.
    pub fn pin_slot(&mut self, slot: WakerSlot) -> (addr: usize)
        requires
            old(self).wf(),
            slot.is_fresh(),
        ensures
            final(self).wf(),
            old(self)@.unused(addr),
            final(self)@ == old(self)@.pin_slot(addr),
    {
        self.place(Cell::Slot(slot))
    }

    /// Whether a list lives at `addr`.
    pub fn has_list(&self, addr: usize) -> (found: bool)
        ensures
            found == self@.lists.contains_key(addr),
    {
        addr < self.cells.len() && matches!(&self.cells[addr], Cell::List(_))
    }

    /// Whether a slot lives at `addr`.
    pub fn has_slot(&self, addr: usize) -> (found: bool)
        ensures
            found == self@.slots.contains_key(addr),
    {
        addr < self.cells.len() && matches!(&self.cells[addr], Cell::Slot(_))
    }

    /// Whether any slot is linked, so that the arena must not be dropped.
    pub fn has_linked_slot(&self) -> (found: bool)
        ensures
            found == exists|slot: usize|
                #![trigger self@.slots[slot]]
                self@.slots.contains_key(slot) && self@.slots[slot] is Some,
    {
        let mut addr: usize = 0;
        while addr < self.cells.len()
            invariant
                addr <= self.cells@.len(),
                forall|slot: usize|
                    slot < addr && self@.slots.contains_key(slot)
                        ==> #[trigger] self@.slots[slot] is None,
            decreases self.cells@.len() - addr,
        {
            if self.has_slot(addr) && self.slot(addr).is_linked() {
                assert(self@.slots[addr] is Some);
                return true;
            }
            addr += 1;
        }
        false
    }

    /// The slot that lives at `addr`.
    pub fn slot(&self, addr: usize) -> (slot: &WakerSlot)
        requires
            self@.slots.contains_key(addr),
        ensures
            slot@ == self@.slots[addr],
    {
        match &self.cells[addr] {
            Cell::Slot(slot) => slot,
            _ => vstd::pervasive::unreached(),
        }
    }

    /// The list that lives at `addr`.
    pub fn list(&self, addr: usize) -> (list: &WakerList)
        requires
            self@.lists.contains_key(addr),
        ensures
            list@ == self@.lists[addr].generation,
    {
        match &self.cells[addr] {
            Cell::List(list) => list,
            _ => vstd::pervasive::unreached(),
        }
    }

    /// The longest linked slot of a list.
    pub(crate) fn front(&self, list: usize) -> (front: Option<usize>)
        requires
            self.wf(),
            self@.lists.contains_key(list),
        ensures
            front == (if self@.lists[list].queue.len() == 0 {
                None::<usize>
            } else {
                Some(self@.lists[list].queue[0])
            }),
    {
        let pointers: Pointers = Cell::linkage(&self.cells, list);
        proof {
            let queue = self@.lists[list].queue;
            assert(self.cells@[list as int] is List);
            assert(wf_list(self.cells@, list, queue));
            if is_ring(self.cells@, list, queue) {
                assert(ring_links(self.cells@, list, queue, 0));
                assert(queue.len() > 0 ==> is_member(self.cells@, list, queue[0]));
            }
        }
        if pointers.is_empty(list) {
            None
        } else {
            Some(pointers.next)
        }
    }

    /// Puts an unlinked slot at the back of a list.
    pub(crate) fn enqueue(&mut self, list: usize, slot: usize, waker: Waker)
        requires
            old(self).wf(),
            old(self)@.lists.contains_key(list),
            old(self)@.slots.contains_key(slot),
            old(self)@.slots[slot] is None,
        ensures
            final(self).wf(),
            final(self)@ == old(self)@.link(list, slot, waker),
    {
        let ghost before = self.cells@;
        let ghost queues = self.queues@;
        let ghost queue = queues[list];
        let generation: u64 = self.list(list).generation;
        proof {
            assert(before[list as int] is List);
            assert(before[slot as int] is Slot);
            assert(wf_slot(before, queues, slot));
            assert(wf_list(before, list, queue));
            lemma_ends(before, list, queue);
            assert(queue.len() > 0 ==> is_member(before, list, queue.last()));
            assert(is_ring(before, list, queue) ==> ring_links(before, list, queue, 0));
            assert(queue.len() > 0 ==> is_member(before, list, queue[0]));
        }
        Pointers::link_back(&mut self.cells, list, slot);
        Cell::fill(&mut self.cells, slot, list, generation, waker);
        self.queues = Ghost(queues.insert(list, queue.push(slot)));
        proof {
            lemma_link(before, queues, self.cells@, list, slot, waker);
            assert(self@ =~= old(self)@.link(list, slot, waker));
        }
    }

    /// Takes a linked slot out of its list and its waker out of the slot.
    pub(crate) fn dequeue(&mut self, slot: usize) -> (waker: Waker)
        requires
            old(self).wf(),
            old(self)@.slots.contains_key(slot),
            old(self)@.slots[slot] is Some,
        ensures
            final(self).wf(),
            final(self)@ == old(self)@.detach(slot),
            waker == old(self)@.entry(slot).waker,
    {
        let ghost before = self.cells@;
        let ghost queues = self.queues@;
        let ghost list = slot_in(before[slot as int]).list;
        let ghost queue = queues[list];
        let ghost j = queue.index_of(slot);
        proof {
            assert(before[slot as int] is Slot);
            assert(wf_slot(before, queues, slot));
            assert(before[list as int] is List);
            assert(wf_list(before, list, queue));
            assert(queue[j] == slot);
            assert(is_member(before, list, queue[j]));
            assert(ring_links(before, list, queue, j + 1));
            assert(j > 0 ==> is_member(before, list, queue[j - 1]));
            assert(j + 1 < queue.len() ==> is_member(before, list, queue[j + 1]));
        }
        Pointers::unlink(&mut self.cells, slot);
        let waker = Cell::clear(&mut self.cells, slot);
        self.queues = Ghost(queues.insert(list, queue.remove(j)));
        proof {
            lemma_unlink(before, queues, self.cells@, list, j);
            assert(self@ =~= old(self)@.detach(slot));
        }
        waker.unwrap()
    }

    /// Drops a waker without waking it.
    pub(crate) fn dispose(&mut self, waker: Waker)
        requires
            old(self).wf(),
        ensures
            final(self).wf(),
            final(self)@ == (ArenaState {
                dropped: old(self)@.dropped.push(waker),
                ..old(self)@
            }),
    {
        self.dropped.dispose(waker);
    }

    /// Replaces the waker of a linked slot and drops the old one.
    pub(crate) fn replace_waker(&mut self, slot: usize, waker: Waker)
        requires
            old(self).wf(),
            old(self)@.slots.contains_key(slot),
            old(self)@.slots[slot] is Some,
        ensures
            final(self).wf(),
            forall|list: usize| final(self)@ == old(self)@.link(list, slot, waker),
    {
        let ghost before = self.cells@;
        let ghost queues = self.queues@;
        let gone: Option<Waker> = match &mut self.cells[slot] {
            Cell::Slot(it) => {
                let gone = it.waker.take();
                it.waker = Some(waker);
                gone
            },
            _ => None,
        };
        proof {
            assert(before[slot as int] is Slot);
            assert(wf_slot(before, queues, slot));
            lemma_same_linkage(before, queues, self.cells@);
        }
        self.dispose(gone.unwrap());
    }

    /// Lets a list enter its next generation. Gives the one it was in.
    pub(crate) fn next_generation(&mut self, list: usize) -> (generation: u64)
        requires
            old(self).wf(),
            old(self)@.lists.contains_key(list),
            old(self)@.lists[list].generation < u64::MAX,
        ensures
            final(self).wf(),
            generation == old(self)@.lists[list].generation,
            final(self)@ == old(self)@.begin_extraction(list),
    {
        let ghost before = self.cells@;
        let ghost queues = self.queues@;
        let generation: u64 = self.list(list).generation;
        if let Cell::List(it) = &mut self.cells[list] {
            it.generation = generation + 1;
        }
        proof {
            lemma_same_linkage(before, queues, self.cells@);
            assert(self@ =~= old(self)@.begin_extraction(list));
        }
        generation
    }

    /// Vacates the address of an empty list or an unlinked slot.
    pub(crate) fn vacate(&mut self, addr: usize)
        requires
            old(self).wf(),
            old(self)@.lists.contains_key(addr) && old(self)@.lists[addr].queue.len() == 0
                || old(self)@.slots.contains_key(addr) && old(self)@.slots[addr] is None,
        ensures
            final(self).wf(),
            final(self)@ == (ArenaState {
                lists: old(self)@.lists.remove(addr),
                slots: old(self)@.slots.remove(addr),
                ..old(self)@
            }),
    {
        let ghost before = self.cells@;
        let ghost queues = self.queues@;
        proof {
            lemma_vacate(before, queues, addr);
        }
        self.cells.set(addr, Cell::Vacant);
        self.vacant.push(addr);
        proof {
            assert(self@ =~= (ArenaState {
                lists: old(self)@.lists.remove(addr),
                slots: old(self)@.slots.remove(addr),
                ..old(self)@
            }));
        }
    }

    /// A well-formed arena stands for a valid state.
    pub proof fn lemma_valid(&self)
        requires
            self.wf(),
        ensures
            self@.valid(),
    {
        let cells = self.cells@;
        let state = self@;
        assert forall|list: usize, slot: usize| state.lists.contains_key(list) implies (
        #[trigger] state.lists[list].queue.contains(slot) <==> state.is_linked_to(slot, list)) by {
            let queue = state.lists[list].queue;
            assert(cells[list as int] is List);
            assert(wf_list(cells, list, queue));
            if queue.contains(slot) {
                assert(is_member(cells, list, queue[queue.index_of(slot)]));
            }
            if state.is_linked_to(slot, list) {
                assert(cells[slot as int] is Slot);
                assert(wf_slot(cells, self.queues@, slot));
            }
        }
        assert forall|list: usize| state.lists.contains_key(
            list,
        ) implies #[trigger] state.lists[list].queue.no_duplicates() by {
            assert(cells[list as int] is List);
        }
        assert forall|slot: usize| #[trigger]
            state.slots.contains_key(slot) && state.slots[slot] is Some implies
            state.lists.contains_key(state.entry(slot).list) by {
            assert(cells[slot as int] is Slot);
            assert(wf_slot(cells, self.queues@, slot));
        }
        assert forall|list: usize, i: int, j: int|
            state.lists.contains_key(list) && 0 <= i <= j < state.lists[list].queue.len() implies (
        #[trigger] state.entry(state.lists[list].queue[i])).generation <= (#[trigger] state.entry(
            state.lists[list].queue[j],
        )).generation <= state.lists[list].generation by {
            let queue = state.lists[list].queue;
            assert(cells[list as int] is List);
            assert(wf_list(cells, list, queue));
            assert(is_member(cells, list, queue[i]));
            assert(is_member(cells, list, queue[j]));
        }
    }
}

} // verus!
