use crate::arena::Arena;
use crate::extracted::DrainedWakers;
use crate::extracted::ExtractedWakers;
use crate::model::least;
use crate::model::room;
use crate::pointers::Pointers;
use core::cell::UnsafeCell;
use core::marker::PhantomData;
use core::marker::PhantomPinned;
use core::task::Waker;
use vstd::prelude::*;

verus! {

broadcast use crate::slot::lemma_slot_fields;

/// List of pending wakers. The wakers themselves are stored in the slots.
///
/// A list must not be dropped while any slots are linked into it.
#[derive(Debug)]
pub struct WakerList {
    /// `next` is head and `prev` is tail. Upon default initialization, the
    /// pointers are null. On first use in an arena they become
    /// self-referential.
    pub(crate) pointers: Pointers,
    /// The number of extraction rounds begun so far.
    pub(crate) generation: u64,
    /// Neither `Sync` nor `Unpin`.
    pub(crate) marker: PhantomData<(PhantomPinned, UnsafeCell<()>)>,
}

impl View for WakerList {
    type V = u64;

    /// The number of extraction rounds begun so far.
    closed spec fn view(&self) -> u64 {
        self.generation
    }
}

impl Default for WakerList {
    fn default() -> (list: WakerList)
        ensures
            list.is_fresh(),
            list@ == 0,
    {
        WakerList { pointers: Pointers::default(), generation: 0, marker: PhantomData }
    }
}

/// What the fields of a list say of it.
pub(crate) broadcast proof fn lemma_list_fields(list: WakerList)
    ensures
        #![trigger list.view()]
        #![trigger list.is_fresh()]
        list@ == list.generation,
        list.is_fresh() <==> list.pointers == Pointers::null(),
{
}

impl WakerList {
    /// The list is in the state in which lists are made, with no slot linked.
    pub closed spec fn is_fresh(self) -> bool {
        self.pointers == Pointers::null()
    }

    /// Constructs an empty list.
    pub fn new() -> (list: WakerList)
        ensures
            list.is_fresh(),
            list@ == 0,
    {
        Default::default()
    }

    /// The number of extraction rounds begun so far.
    pub fn generation(&self) -> (generation: u64)
        ensures
            generation == self@,
    {
        self.generation
    }

    /// Whether no slot is linked into the list at `list`.
    pub fn is_empty(arena: &Arena, list: usize) -> (empty: bool)
        requires
            arena.wf(),
            arena@.lists.contains_key(list),
        ensures
            empty == (arena@.lists[list].queue.len() == 0),
    {
        arena.front(list).is_none()
    }

    /// Drops the list at `list`, from which all slots must be unlinked. The
    /// address may be given out again.
    pub fn drop(arena: &mut Arena, list: usize)
        requires
            old(arena).wf(),
            old(arena)@.lists.contains_key(list),
            old(arena)@.lists[list].queue.len() == 0,
        ensures
            final(arena).wf(),
            final(arena)@ == old(arena)@.drop_list(list),
    {
        proof {
            arena.lemma_valid();
            assert(arena@.slots.remove(list) =~= arena@.slots);
        }
        arena.vacate(list);
    }

    /// Adds a waker to the list at `list`, storing it in the slot at `slot`,
    /// which is then linked into the list. If the slot already contains a
    /// waker, it is replaced, and the old waker is dropped.
    ///
    /// The slot must not be linked into another list.
    pub fn link(arena: &mut Arena, list: usize, slot: usize, waker: Waker)
        requires
            old(arena).wf(),
            old(arena)@.may_use(list, slot),
        ensures
            final(arena).wf(),
            final(arena)@ == old(arena)@.link(list, slot, waker),
    {
        if arena.slot(slot).is_linked() {
            arena.replace_waker(slot, waker);
        } else {
            arena.enqueue(list, slot, waker);
        }
    }

    /// Unlinks the slot at `slot` from the list at `list`, dropping its waker.
    /// No-op if not linked.
    ///
    /// The slot must not be linked into another list.
    pub fn unlink(arena: &mut Arena, list: usize, slot: usize)
        requires
            old(arena).wf(),
            old(arena)@.may_use(list, slot),
        ensures
            final(arena).wf(),
            final(arena)@ == old(arena)@.unlink(slot),
    {
        if arena.slot(slot).is_linked() {
            let waker = arena.dequeue(slot);
            arena.dispose(waker);
        }
    }

    /// Begins an extraction round: slots that are linked from now on are not
    /// extracted in it.
    pub fn begin_extraction(arena: &mut Arena, list: usize) -> (round: ExtractionRound)
        requires
            old(arena).wf(),
            old(arena)@.lists.contains_key(list),
            old(arena)@.lists[list].generation < u64::MAX,
        ensures
            final(arena).wf(),
            final(arena)@ == old(arena)@.begin_extraction(list),
            round@ == old(arena)@.lists[list].generation,
            round@ < final(arena)@.lists[list].generation,
    {
        ExtractionRound { generation: arena.next_generation(list) }
    }

    /// Moves wakers from the list at `list` to `wakers`, the longest linked
    /// first, until `wakers` is full or no slot that was linked before the
    /// round began is left. The slots become unlinked. Returns whether such
    /// slots are left.
    pub fn extract_some_wakers(
        arena: &mut Arena,
        list: usize,
        round: ExtractionRound,
        wakers: &mut ExtractedWakers,
    ) -> (more: bool)
        requires
            old(arena).wf(),
            old(arena)@.lists.contains_key(list),
        ensures
            final(arena).wf(),
            ({
                let due = old(arena)@.due(list, round@);
                let count = least(due.len(), room(old(wakers)@.len()));
                &&& final(arena)@ == old(arena)@.extract(list, count)
                &&& final(wakers)@ == old(wakers)@ + old(arena)@.wakers(due.take(count as int))
                &&& more == (due.len() > room(old(wakers)@.len()))
            }),
    {
        let ghost start = arena@;
        let ghost queue = start.lists[list].queue;
        let ghost due = start.due(list, round@);
        let ghost given = wakers@;
        let ghost mut count: nat = 0;
        proof {
            arena.lemma_valid();
            start.lemma_due(list, round@);
            start.lemma_extract_none(list);
        }
        loop
            invariant
                arena.wf(),
                start.valid(),
                start.lists.contains_key(list),
                queue == start.lists[list].queue,
                due == start.due(list, round@),
                due.len() <= queue.len(),
                due == queue.take(due.len() as int),
                forall|k: int|
                    0 <= k < queue.len() ==> ((#[trigger] start.entry(queue[k])).generation
                        <= round@ <==> k < due.len()),
                given == old(wakers)@,
                start == old(arena)@,
                arena@ == start.extract(list, count),
                wakers@ == given + start.wakers(due.take(count as int)),
                count <= due.len(),
                count <= room(given.len()),
            decreases due.len() - count,
        {
            let slot: usize = match arena.front(list) {
                None => {
                    return false;
                },
                Some(slot) => slot,
            };
            proof {
                start.lemma_extract_step(list, count);
            }
            if arena.slot(slot).generation > round.generation {
                return false;
            }
            if wakers.is_full() {
                return true;
            }
            let waker = arena.dequeue(slot);
            wakers.push(waker);
            proof {
                let taken = due.take(count as int);
                let longer = due.take(count as int + 1);
                assert(longer =~= taken.push(slot));
                assert(start.wakers(longer) =~= start.wakers(taken).push(waker));
                count = count + 1;
            }
        }
    }

    /// Moves wakers from the list at `list` to a new set, the longest linked
    /// first, until the set is full or no slot is left. The slots become
    /// unlinked. Also returns whether slots are left, for which the call is to be
    /// repeated.
    pub fn extract_first_wakers(
        arena: &mut Arena,
        list: usize,
    ) -> (extracted: (ExtractedWakers, bool))
        requires
            old(arena).wf(),
            old(arena)@.lists.contains_key(list),
        ensures
            final(arena).wf(),
            ({
                let queue = old(arena)@.lists[list].queue;
                let count = least(queue.len(), room(0));
                &&& final(arena)@ == old(arena)@.extract(list, count)
                &&& extracted.0@ == old(arena)@.wakers(queue.take(count as int))
                &&& extracted.1 == (queue.len() > room(0))
            }),
    {
        let round = ExtractionRound { generation: arena.list(list).generation };
        let mut wakers = ExtractedWakers::new();
        proof {
            arena.lemma_valid();
            let queue = arena@.lists[list].queue;
            let due = arena@.due(list, round@);
            arena@.lemma_due(list, round@);
            if due.len() < queue.len() {
                assert(arena@.entry(queue[due.len() as int]).generation <= round@);
            }
            assert(queue.take(queue.len() as int) =~= queue);
        }
        let more = WakerList::extract_some_wakers(arena, list, round, &mut wakers);
        (wakers, more)
    }

    /// Moves all wakers out of the list at `list`, the longest linked first. The
    /// slots become unlinked.
    pub fn extract_wakers(arena: &mut Arena, list: usize) -> (wakers: DrainedWakers)
        requires
            old(arena).wf(),
            old(arena)@.lists.contains_key(list),
        ensures
            final(arena).wf(),
            final(arena)@ == old(arena)@.extract(list, old(arena)@.lists[list].queue.len()),
            wakers@ == old(arena)@.wakers(old(arena)@.lists[list].queue),
    {
        let ghost start = arena@;
        let ghost queue = start.lists[list].queue;
        let ghost mut count: nat = 0;
        let mut wakers = DrainedWakers::new();
        proof {
            arena.lemma_valid();
            start.lemma_extract_none(list);
        }
        loop
            invariant
                arena.wf(),
                start == old(arena)@,
                start.valid(),
                start.lists.contains_key(list),
                queue == start.lists[list].queue,
                count <= queue.len(),
                arena@ == start.extract(list, count),
                wakers@ == start.wakers(queue.take(count as int)),
            decreases queue.len() - count,
        {
            let slot: usize = match arena.front(list) {
                None => {
                    assert(queue.take(count as int) =~= queue);
                    return wakers;
                },
                Some(slot) => slot,
            };
            proof {
                start.lemma_extract_step(list, count);
            }
            let waker = arena.dequeue(slot);
            wakers.push(waker);
            proof {
                let taken = queue.take(count as int);
                let longer = queue.take(count as int + 1);
                assert(longer =~= taken.push(slot));
                assert(start.wakers(longer) =~= start.wakers(taken).push(waker));
                count = count + 1;
            }
        }
    }
}

/// A round in which wakers are extracted from the list that it was begun on.
#[derive(Clone, Copy, Debug)]
pub struct ExtractionRound {
    generation: u64,
}

impl View for ExtractionRound {
    type V = u64;

    /// The generation that the list had when the round began: slots up to this
    /// one are extracted.
    closed spec fn view(&self) -> u64 {
        self.generation
    }
}

} // verus!
