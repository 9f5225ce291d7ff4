//! What each operation does to the lists, the slots and the wakers of an arena,
//! and what it leaves as it is. Where a law has a parameter `other_list` or
//! `other_slot`, it speaks of every list and of every slot.
use crate::array::EXTRACT_CAPACITY;
use crate::model::least;
use crate::model::room;
use crate::model::ArenaState;
use core::task::Waker;
use vstd::prelude::*;

verus! {

/// Linking an unlinked slot puts it behind all slots of the list, with the given
/// waker and as of the rounds begun so far. No waker is dropped, no other list
/// changes, and no other slot.
pub proof fn law_link_joins_the_back(
    state: ArenaState,
    list: usize,
    slot: usize,
    waker: Waker,
    other_list: usize,
    other_slot: usize,
)
    requires
        state.lists.contains_key(list),
        state.slots.contains_key(slot),
        state.slots[slot] is None,
    ensures
        ({
            let after = state.link(list, slot, waker);
            &&& after.lists.contains_key(list)
            &&& after.lists[list].queue == state.lists[list].queue.push(slot)
            &&& after.lists[list].generation == state.lists[list].generation
            &&& after.slots.contains_key(slot)
            &&& after.slots[slot] is Some
            &&& after.slots[slot]->0.list == list
            &&& after.slots[slot]->0.generation == state.lists[list].generation
            &&& after.slots[slot]->0.waker == waker
            &&& after.dropped == state.dropped
            &&& other_list != list ==> (after.lists.contains_key(other_list)
                <==> state.lists.contains_key(other_list)) && after.lists[other_list]
                == state.lists[other_list]
            &&& other_slot != slot ==> (after.slots.contains_key(other_slot)
                <==> state.slots.contains_key(other_slot)) && after.slots[other_slot]
                == state.slots[other_slot]
        }),
{
}

/// Linking a slot that is linked already replaces its waker and drops the one
/// that it held. The slot keeps its place in the list and the rounds that cover
/// it. No list changes, and no other slot.
pub proof fn law_relink_replaces_only_the_waker(
    state: ArenaState,
    list: usize,
    slot: usize,
    waker: Waker,
    other_slot: usize,
)
    requires
        state.lists.contains_key(list),
        state.slots.contains_key(slot),
        state.slots[slot] is Some,
        state.slots[slot]->0.list == list,
    ensures
        ({
            let after = state.link(list, slot, waker);
            &&& after.lists == state.lists
            &&& after.slots.contains_key(slot)
            &&& after.slots[slot] is Some
            &&& after.slots[slot]->0.list == list
            &&& after.slots[slot]->0.generation == state.slots[slot]->0.generation
            &&& after.slots[slot]->0.waker == waker
            &&& after.dropped == state.dropped.push(state.slots[slot]->0.waker)
            &&& other_slot != slot ==> (after.slots.contains_key(other_slot)
                <==> state.slots.contains_key(other_slot)) && after.slots[other_slot]
                == state.slots[other_slot]
        }),
{
}

/// Unlinking a linked slot takes it out of its list, where the others close up
/// in their order, and drops the waker that this slot held. What every other
/// slot holds stays as it was, and so do the other lists and all rounds.
pub proof fn law_unlink_takes_out_one_slot(
    state: ArenaState,
    slot: usize,
    other_list: usize,
    other_slot: usize,
)
    requires
        state.valid(),
        state.slots.contains_key(slot),
        state.slots[slot] is Some,
    ensures
        ({
            let list = state.slots[slot]->0.list;
            let queue = state.lists[list].queue;
            let after = state.unlink(slot);
            &&& after.lists.contains_key(list)
            &&& exists|place: int|
                0 <= place < queue.len() && #[trigger] queue[place] == slot
                    && after.lists[list].queue == queue.take(place) + queue.skip(place + 1)
            &&& after.lists[list].generation == state.lists[list].generation
            &&& after.slots.contains_key(slot)
            &&& after.slots[slot] is None
            &&& after.dropped == state.dropped.push(state.slots[slot]->0.waker)
            &&& other_list != list ==> (after.lists.contains_key(other_list)
                <==> state.lists.contains_key(other_list)) && after.lists[other_list]
                == state.lists[other_list]
            &&& other_slot != slot ==> (after.slots.contains_key(other_slot)
                <==> state.slots.contains_key(other_slot)) && after.slots[other_slot]
                == state.slots[other_slot]
        }),
{
    let list = state.slots[slot]->0.list;
    let queue = state.lists[list].queue;
    assert(state.lists.contains_key(state.entry(slot).list));
    assert(queue.contains(slot) <==> state.is_linked_to(slot, list));
    let place = queue.index_of(slot);
    assert(queue[place] == slot);
    assert(queue.remove(place) =~= queue.take(place) + queue.skip(place + 1));
}

/// Unlinking an unlinked slot changes nothing at all.
pub proof fn law_unlink_of_unlinked_changes_nothing(state: ArenaState, slot: usize)
    requires
        state.slots.contains_key(slot),
        state.slots[slot] is None,
    ensures
        state.unlink(slot) == state,
{
}

/// Beginning a round raises the generation of the list by one, so above the
/// generation of every slot that is linked and above the round. The list keeps
/// its slots, and nothing else changes.
pub proof fn law_begin_extraction_sets_later_links_apart(
    state: ArenaState,
    list: usize,
    other_list: usize,
)
    requires
        state.lists.contains_key(list),
        state.lists[list].generation < u64::MAX,
    ensures
        ({
            let after = state.begin_extraction(list);
            &&& after.lists.contains_key(list)
            &&& after.lists[list].generation == state.lists[list].generation + 1
            &&& after.lists[list].queue == state.lists[list].queue
            &&& after.slots == state.slots
            &&& after.dropped == state.dropped
            &&& other_list != list ==> (after.lists.contains_key(other_list)
                <==> state.lists.contains_key(other_list)) && after.lists[other_list]
                == state.lists[other_list]
        }),
{
}

/// Extracting takes the first slots out of the list, and these become unlinked.
/// The list keeps the others, in their order and with what they hold, and its
/// generation. No waker is dropped, and no other list or slot changes.
pub proof fn law_extract_takes_the_front(
    state: ArenaState,
    list: usize,
    count: nat,
    other_list: usize,
    other_slot: usize,
)
    requires
        state.lists.contains_key(list),
        count <= state.lists[list].queue.len(),
        state.slots.contains_key(other_slot),
    ensures
        ({
            let queue = state.lists[list].queue;
            let after = state.extract(list, count);
            &&& after.lists.contains_key(list)
            &&& queue == queue.take(count as int) + after.lists[list].queue
            &&& after.lists[list].generation == state.lists[list].generation
            &&& after.dropped == state.dropped
            &&& other_list != list ==> (after.lists.contains_key(other_list)
                <==> state.lists.contains_key(other_list)) && after.lists[other_list]
                == state.lists[other_list]
            &&& after.slots.dom() == state.slots.dom()
            &&& after.slots[other_slot] == if queue.take(count as int).contains(other_slot) {
                None
            } else {
                state.slots[other_slot]
            }
        }),
{
    let queue = state.lists[list].queue;
    assert(queue =~= queue.take(count as int) + queue.skip(count as int));
    assert(state.extract(list, count).slots.dom() =~= state.slots.dom());
}

/// Pinning a list makes it live, without slots, at an address at which nothing
/// lived, and changes nothing else.
pub proof fn law_pin_list_adds_one_list(
    state: ArenaState,
    addr: usize,
    generation: u64,
    other_list: usize,
)
    requires
        state.unused(addr),
    ensures
        ({
            let after = state.pin_list(addr, generation);
            &&& !state.lists.contains_key(addr)
            &&& !state.slots.contains_key(addr)
            &&& after.lists.contains_key(addr)
            &&& after.lists[addr].queue.len() == 0
            &&& after.lists[addr].generation == generation
            &&& after.slots == state.slots
            &&& after.dropped == state.dropped
            &&& other_list != addr ==> (after.lists.contains_key(other_list)
                <==> state.lists.contains_key(other_list)) && after.lists[other_list]
                == state.lists[other_list]
        }),
{
}

/// Pinning a slot makes it live, unlinked, at an address at which nothing lived,
/// and changes nothing else.
pub proof fn law_pin_slot_adds_one_slot(state: ArenaState, addr: usize, other_slot: usize)
    requires
        state.unused(addr),
    ensures
        ({
            let after = state.pin_slot(addr);
            &&& !state.lists.contains_key(addr)
            &&& !state.slots.contains_key(addr)
            &&& after.slots.contains_key(addr)
            &&& after.slots[addr] is None
            &&& after.lists == state.lists
            &&& after.dropped == state.dropped
            &&& other_slot != addr ==> (after.slots.contains_key(other_slot)
                <==> state.slots.contains_key(other_slot)) && after.slots[other_slot]
                == state.slots[other_slot]
        }),
{
}

/// Dropping an empty list removes this list. Every other list lives on with its
/// slots, if it has any, and nothing happens to slots and wakers.
pub proof fn law_drop_list_removes_one_list(state: ArenaState, addr: usize, other_list: usize)
    requires
        state.lists.contains_key(addr),
        state.lists[addr].queue.len() == 0,
    ensures
        ({
            let after = state.drop_list(addr);
            &&& !after.lists.contains_key(addr)
            &&& after.slots == state.slots
            &&& after.dropped == state.dropped
            &&& other_list != addr ==> (after.lists.contains_key(other_list)
                <==> state.lists.contains_key(other_list))
            &&& other_list != addr && state.lists.contains_key(other_list)
                ==> after.lists[other_list] == state.lists[other_list]
        }),
{
}

/// Dropping an unlinked slot removes this slot. Every other slot lives on with
/// what it holds, and nothing happens to lists and wakers.
pub proof fn law_drop_slot_removes_one_slot(state: ArenaState, addr: usize, other_slot: usize)
    requires
        state.slots.contains_key(addr),
        state.slots[addr] is None,
    ensures
        ({
            let after = state.drop_slot(addr);
            &&& !after.slots.contains_key(addr)
            &&& after.lists == state.lists
            &&& after.dropped == state.dropped
            &&& other_slot != addr ==> (after.slots.contains_key(other_slot)
                <==> state.slots.contains_key(other_slot))
            &&& other_slot != addr && state.slots.contains_key(other_slot)
                ==> after.slots[other_slot] == state.slots[other_slot]
        }),
{
}

/// In an empty arena nothing lives, and no waker has been dropped.
pub proof fn law_empty_holds_nothing(addr: usize)
    ensures
        !ArenaState::empty().lists.contains_key(addr),
        !ArenaState::empty().slots.contains_key(addr),
        ArenaState::empty().dropped.len() == 0,
{
}

/// Nothing lives at an unused address, and an address at which nothing lives is
/// unused.
pub proof fn law_unused_means_vacant(state: ArenaState, addr: usize)
    ensures
        state.unused(addr) <==> !state.lists.contains_key(addr) && !state.slots.contains_key(addr),
{
}

/// A slot is linked into a list exactly while what it holds names that list.
pub proof fn law_linked_slot_names_its_list(state: ArenaState, slot: usize, list: usize)
    ensures
        state.is_linked_to(slot, list) <==> state.slots.contains_key(slot)
            && state.slots[slot] is Some && state.slots[slot]->0.list == list,
{
}

/// A list may work on every unlinked slot, and of the linked ones on those that
/// are linked into it and on no others.
pub proof fn law_list_may_use_unlinked_and_own(state: ArenaState, list: usize, slot: usize)
    requires
        state.lists.contains_key(list),
        state.slots.contains_key(slot),
    ensures
        state.slots[slot] is None ==> state.may_use(list, slot),
        state.slots[slot] is Some ==> (state.may_use(list, slot) <==> state.slots[slot]->0.list
            == list),
{
}

/// In a valid state a list holds the slots that are linked into it, each at one
/// place, and the longer linked a slot is the earlier is the round that first
/// covers it.
pub proof fn law_valid_queue(state: ArenaState, list: usize, slot: usize, i: int, j: int)
    requires
        state.valid(),
        state.lists.contains_key(list),
    ensures
        ({
            let queue = state.lists[list].queue;
            &&& queue.contains(slot) <==> state.slots.contains_key(slot)
                && state.slots[slot] is Some && state.slots[slot]->0.list == list
            &&& 0 <= i < j < queue.len() ==> queue[i] != queue[j]
            &&& 0 <= i < j < queue.len() ==> state.slots[queue[i]]->0.generation
                <= state.slots[queue[j]]->0.generation
            &&& 0 <= j < queue.len() ==> state.slots[queue[j]]->0.generation
                <= state.lists[list].generation
        }),
{
    let queue = state.lists[list].queue;
    assert(queue.contains(slot) <==> state.is_linked_to(slot, list));
    assert(state.lists[list].queue.no_duplicates());
    if 0 <= j < queue.len() {
        assert(state.entry(queue[j]).generation <= state.entry(queue[j]).generation);
        if 0 <= i < j {
            assert(state.entry(queue[i]).generation <= state.entry(queue[j]).generation);
        }
    }
}

/// The slots that are due in a round are the first of the list: those, and only
/// those, that were linked in a generation up to the round.
pub proof fn law_due_are_the_first(state: ArenaState, list: usize, round: u64, place: int)
    requires
        state.valid(),
        state.lists.contains_key(list),
        0 <= place < state.lists[list].queue.len(),
    ensures
        ({
            let queue = state.lists[list].queue;
            let due = state.due(list, round);
            &&& due.len() <= queue.len()
            &&& place < due.len() <==> state.slots[queue[place]]->0.generation <= round
            &&& place < due.len() ==> due[place] == queue[place]
        }),
{
    state.lemma_due(list, round);
    let queue = state.lists[list].queue;
    assert(state.entry(queue[place]).generation <= round <==> place < state.due(
        list,
        round,
    ).len());
}

/// Of a list without slots nothing is due.
pub proof fn law_nothing_due_in_empty_list(state: ArenaState, list: usize, round: u64)
    requires
        state.valid(),
        state.lists.contains_key(list),
        state.lists[list].queue.len() == 0,
    ensures
        state.due(list, round).len() == 0,
{
    state.lemma_due(list, round);
}

/// The wakers of some slots are what these slots hold, one for each and in the
/// same order.
pub proof fn law_wakers_slot_by_slot(state: ArenaState, slots: Seq<usize>, place: int)
    requires
        0 <= place < slots.len(),
    ensures
        state.wakers(slots).len() == slots.len(),
        state.wakers(slots)[place] == state.slots[slots[place]]->0.waker,
{
}

/// No slots, no wakers.
pub proof fn law_no_slots_no_wakers(state: ArenaState)
    ensures
        state.wakers(Seq::empty()).len() == 0,
{
}

/// A set takes wakers until it holds as many as are extracted at a time.
pub proof fn law_room_is_what_is_left(len: nat)
    ensures
        len <= EXTRACT_CAPACITY ==> len + room(len) == EXTRACT_CAPACITY,
        len >= EXTRACT_CAPACITY ==> room(len) == 0,
{
}

/// The lesser of two counts is one of them, and not above the other.
pub proof fn law_least_of_two(a: nat, b: nat)
    ensures
        least(a, b) == a || least(a, b) == b,
        least(a, b) <= a,
        least(a, b) <= b,
{
}

} // verus!
