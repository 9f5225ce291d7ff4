//! The mathematical state of an arena: which lists and slots live in it, in
//! which order each list holds its slots, and what each linked slot stores.
use crate::array::EXTRACT_CAPACITY;
use core::task::Waker;
use vstd::prelude::*;

verus! {

/// What a slot holds while it is linked.
pub struct Entry {
    /// Address of the list the slot is linked into.
    pub list: usize,
    /// Generation of that list at the moment the slot was linked.
    pub generation: u64,
    /// The waker to wake.
    pub waker: Waker,
}

/// What a list holds.
pub struct ListState {
    /// Addresses of the linked slots, the longest linked first.
    pub queue: Seq<usize>,
    /// The number of extraction rounds begun so far.
    pub generation: u64,
}

/// The contents of an arena.
#[verifier::ext_equal]
pub struct ArenaState {
    pub lists: Map<usize, ListState>,
    pub slots: Map<usize, Option<Entry>>,
    /// The wakers that were dropped without being woken, oldest first.
    pub dropped: Seq<Waker>,
}

/// The smaller of two counts.
pub open spec fn least(a: nat, b: nat) -> nat {
    if a <= b {
        a
    } else {
        b
    }
}

/// How many more wakers fit into a set of extracted wakers that holds `len` of
/// them.
pub open spec fn room(len: nat) -> nat {
    if len < EXTRACT_CAPACITY {
        (EXTRACT_CAPACITY - len) as nat
    } else {
        0
    }
}

impl ArenaState {
    /// An arena with neither lists nor slots.
    pub open spec fn empty() -> ArenaState {
        ArenaState { lists: Map::empty(), slots: Map::empty(), dropped: Seq::empty() }
    }

    /// Nothing lives at `addr`.
    pub open spec fn unused(self, addr: usize) -> bool {
        !self.lists.contains_key(addr) && !self.slots.contains_key(addr)
    }

    /// The slot at `slot` is linked into the list at `list`.
    pub open spec fn is_linked_to(self, slot: usize, list: usize) -> bool {
        &&& self.slots.contains_key(slot)
        &&& self.slots[slot] is Some
        &&& self.slots[slot]->0.list == list
    }

    /// The slot at `slot` is one that the list at `list` may work on: unlinked,
    /// or linked into this list.
    pub open spec fn may_use(self, list: usize, slot: usize) -> bool {
        &&& self.lists.contains_key(list)
        &&& self.slots.contains_key(slot)
        &&& self.slots[slot] is Some ==> self.is_linked_to(slot, list)
    }

    /// What a slot holds, given that it is linked.
    pub open spec fn entry(self, slot: usize) -> Entry {
        self.slots[slot]->0
    }

    /// The wakers that the given slots hold, in the same order.
    pub open spec fn wakers(self, slots: Seq<usize>) -> Seq<Waker> {
        slots.map_values(|slot: usize| self.entry(slot).waker)
    }

    /// Every list holds exactly the slots linked into it, each of them once
    /// and in the order of the rounds they were linked in, and no list holds a
    /// slot from a round that it has not begun.
    pub open spec fn valid(self) -> bool {
        &&& forall|addr: usize| !(self.lists.contains_key(addr) && self.slots.contains_key(addr))
        &&& forall|list: usize, slot: usize|
            self.lists.contains_key(list) ==> (#[trigger] self.lists[list].queue.contains(slot)
                <==> self.is_linked_to(slot, list))
        &&& forall|list: usize|
            self.lists.contains_key(list) ==> #[trigger] self.lists[list].queue.no_duplicates()
        &&& forall|slot: usize| #[trigger]
            self.slots.contains_key(slot) && self.slots[slot] is Some ==> self.lists.contains_key(
                self.entry(slot).list,
            )
        &&& forall|list: usize, i: int, j: int|
            self.lists.contains_key(list) && 0 <= i <= j < self.lists[list].queue.len()
                ==> (#[trigger] self.entry(self.lists[list].queue[i])).generation <= (
            #[trigger] self.entry(self.lists[list].queue[j])).generation
                <= self.lists[list].generation
    }

    /// Pinning a list of the given generation, with no slot linked, at an unused
    /// address.
    pub open spec fn pin_list(self, addr: usize, generation: u64) -> ArenaState {
        ArenaState {
            lists: self.lists.insert(addr, ListState { queue: Seq::empty(), generation }),
            ..self
        }
    }

    /// Pinning an unlinked slot at an unused address.
    pub open spec fn pin_slot(self, addr: usize) -> ArenaState {
        ArenaState { slots: self.slots.insert(addr, None), ..self }
    }

    /// Dropping an empty list.
    pub open spec fn drop_list(self, addr: usize) -> ArenaState {
        ArenaState { lists: self.lists.remove(addr), ..self }
    }

    /// Dropping an unlinked slot.
    pub open spec fn drop_slot(self, addr: usize) -> ArenaState {
        ArenaState { slots: self.slots.remove(addr), ..self }
    }

    /// The list at `list` with another queue.
    pub open spec fn with_queue(self, list: usize, queue: Seq<usize>) -> Map<usize, ListState> {
        self.lists.insert(list, ListState { queue, ..self.lists[list] })
    }

    /// Linking a slot: an unlinked one joins the back of the queue, a linked
    /// one keeps its place and has its waker replaced, and the old one is
    /// dropped.
    pub open spec fn link(self, list: usize, slot: usize, waker: Waker) -> ArenaState {
        match self.slots[slot] {
            Some(entry) => ArenaState {
                slots: self.slots.insert(slot, Some(Entry { waker, ..entry })),
                dropped: self.dropped.push(entry.waker),
                ..self
            },
            None => ArenaState {
                lists: self.with_queue(list, self.lists[list].queue.push(slot)),
                slots: self.slots.insert(
                    slot,
                    Some(Entry { list, generation: self.lists[list].generation, waker }),
                ),
                ..self
            },
        }
    }

    /// A linked slot leaves its queue and gives up its waker, the other slots
    /// keep their order.
    pub open spec fn detach(self, slot: usize) -> ArenaState {
        let list = self.entry(slot).list;
        let queue = self.lists[list].queue;
        ArenaState {
            lists: self.with_queue(list, queue.remove(queue.index_of(slot))),
            slots: self.slots.insert(slot, None),
            ..self
        }
    }

    /// Unlinking a slot: a linked one leaves its queue and its waker is dropped,
    /// the other slots keep their order; nothing happens to an unlinked one.
    pub open spec fn unlink(self, slot: usize) -> ArenaState {
        match self.slots[slot] {
            Some(entry) => ArenaState {
                dropped: self.dropped.push(entry.waker),
                ..self.detach(slot)
            },
            None => self,
        }
    }

    /// Beginning an extraction round.
    pub open spec fn begin_extraction(self, list: usize) -> ArenaState {
        ArenaState {
            lists: self.lists.insert(
                list,
                ListState {
                    generation: (self.lists[list].generation + 1) as u64,
                    ..self.lists[list]
                },
            ),
            ..self
        }
    }

    /// The slots of a list that were linked before round `round` began, the
    /// longest linked first.
    pub open spec fn due(self, list: usize, round: u64) -> Seq<usize> {
        self.lists[list].queue.filter(|slot: usize| self.entry(slot).generation <= round)
    }

    /// Extracting the `count` longest linked slots of a list.
    pub open spec fn extract(self, list: usize, count: nat) -> ArenaState {
        let queue = self.lists[list].queue;
        ArenaState {
            lists: self.with_queue(list, queue.skip(count as int)),
            slots: Map::new(
                |slot: usize| self.slots.contains_key(slot),
                |slot: usize|
                    if queue.take(count as int).contains(slot) {
                        None
                    } else {
                        self.slots[slot]
                    },
            ),
            ..self
        }
    }
}

/// Where a predicate holds of no element behind one that it does not hold of,
/// the elements that it holds of come first.
proof fn lemma_filter_prefix<A>(s: Seq<A>, pred: spec_fn(A) -> bool)
    requires
        forall|i: int, j: int|
            0 <= i <= j < s.len() && pred(#[trigger] s[j]) ==> pred(#[trigger] s[i]),
    ensures
        s.filter(pred).len() <= s.len(),
        s.filter(pred) == s.take(s.filter(pred).len() as int),
        forall|k: int|
            0 <= k < s.len() ==> (pred(#[trigger] s[k]) <==> k < s.filter(pred).len()),
    decreases s.len(),
{
    reveal(Seq::filter);
    if s.len() > 0 {
        let front = s.drop_last();
        lemma_filter_prefix(front, pred);
        let n = front.filter(pred).len() as int;
        if pred(s.last()) {
            assert(n == front.len()) by {
                if n < front.len() {
                    assert(pred(s[s.len() - 1]));
                    assert(pred(s[n]));
                    assert(front[n] == s[n]);
                }
            }
            assert(s.filter(pred) =~= s.take(n + 1));
        } else {
            assert(s.filter(pred) =~= s.take(n));
        }
        assert forall|k: int| 0 <= k < s.len() implies (pred(#[trigger] s[k]) <==> k < s.filter(
            pred,
        ).len()) by {
            if k < front.len() {
                assert(front[k] == s[k]);
            }
        }
    }
}

impl ArenaState {
    /// The slots that are due are the first of the queue.
    pub proof fn lemma_due(self, list: usize, round: u64)
        requires
            self.valid(),
            self.lists.contains_key(list),
        ensures
            self.due(list, round).len() <= self.lists[list].queue.len(),
            self.due(list, round) == self.lists[list].queue.take(
                self.due(list, round).len() as int,
            ),
            forall|k: int|
                0 <= k < self.lists[list].queue.len() ==> ((#[trigger] self.entry(
                    self.lists[list].queue[k],
                )).generation <= round <==> k < self.due(list, round).len()),
    {
        let queue = self.lists[list].queue;
        let pred = |slot: usize| self.entry(slot).generation <= round;
        assert forall|i: int, j: int|
            0 <= i <= j < queue.len() && pred(#[trigger] queue[j]) implies pred(
            #[trigger] queue[i],
        ) by {
            assert(self.entry(queue[i]).generation <= self.entry(queue[j]).generation);
        }
        lemma_filter_prefix(queue, pred);
        assert forall|k: int| 0 <= k < queue.len() implies ((#[trigger] self.entry(
            queue[k],
        )).generation <= round <==> k < self.due(list, round).len()) by {
            assert(pred(queue[k]) <==> k < queue.filter(pred).len());
        }
    }

    /// Extracting one slot more is extracting the slots before it and then
    /// detaching it.
    pub proof fn lemma_extract_step(self, list: usize, count: nat)
        requires
            self.valid(),
            self.lists.contains_key(list),
            count < self.lists[list].queue.len(),
        ensures
            ({
                let slot = self.lists[list].queue[count as int];
                let before = self.extract(list, count);
                &&& before.slots.contains_key(slot)
                &&& before.slots[slot] == self.slots[slot]
                &&& before.slots[slot] is Some
                &&& before.lists.contains_key(list)
                &&& before.lists[list].queue.len() > 0
                &&& before.lists[list].queue[0] == slot
                &&& before.detach(slot) == self.extract(list, count + 1)
            }),
    {
        let queue = self.lists[list].queue;
        let slot = queue[count as int];
        let before = self.extract(list, count);
        assert(queue.contains(slot));
        assert(self.is_linked_to(slot, list));
        assert(self.lists[list].queue.no_duplicates());
        assert(!queue.take(count as int).contains(slot));
        let rest = queue.skip(count as int);
        assert(rest[0] == slot);
        assert(rest.index_of(slot) == 0);
        assert(rest.remove(0) =~= queue.skip(count as int + 1));
        let longer = queue.take(count as int + 1);
        assert forall|s: usize| #[trigger] longer.contains(s) <==> queue.take(
            count as int,
        ).contains(s) || s == slot by {
            if queue.take(count as int).contains(s) {
                let i = queue.take(count as int).index_of(s);
                assert(longer[i] == s);
            }
            if s == slot {
                assert(longer[count as int] == s);
            }
            if longer.contains(s) {
                let i = longer.index_of(s);
                if i < count {
                    assert(queue.take(count as int)[i] == s);
                }
            }
        }
        assert(before.detach(slot) =~= self.extract(list, count + 1));
    }

    /// Extracting nothing changes nothing.
    pub proof fn lemma_extract_none(self, list: usize)
        requires
            self.lists.contains_key(list),
        ensures
            self.extract(list, 0) == self,
    {
        assert(self.lists[list].queue.skip(0) =~= self.lists[list].queue);
        assert(self.extract(list, 0) =~= self);
    }
}

} // verus!
