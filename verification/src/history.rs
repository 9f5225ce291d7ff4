//! Histories of an arena, and what becomes in them of every waker.
use crate::laws::law_begin_extraction_keeps_valid;
use crate::laws::law_drop_list_keeps_valid;
use crate::laws::law_drop_slot_keeps_valid;
use crate::laws::law_extract_keeps_valid;
use crate::laws::law_link_keeps_valid;
use crate::laws::law_pin_list_keeps_valid;
use crate::laws::law_pin_slot_keeps_valid;
use crate::laws::law_unlink_keeps_valid;
use crate::model::ArenaState;
use core::task::Waker;
use vstd::multiset::Multiset;
use vstd::prelude::*;
use vstd::seq_lib::group_to_multiset_ensures;
use vstd::seq_lib::lemma_multiset_commutative;

verus! {

/// Something that is done with the lists and slots of an arena.
pub enum Event {
    /// A list is pinned.
    PinList { list: usize, generation: u64 },
    /// A slot is pinned.
    PinSlot { slot: usize },
    /// A slot is linked into a list.
    Link { list: usize, slot: usize, waker: Waker },
    /// A slot is unlinked from a list.
    Unlink { list: usize, slot: usize },
    /// A round begins.
    Begin { list: usize },
    /// The given number of wakers is extracted from a list.
    Extract { list: usize, count: nat },
    /// A list is dropped.
    DropList { list: usize },
    /// A slot is dropped.
    DropSlot { slot: usize },
}

impl Event {
    /// The event can happen in this state.
    pub open spec fn possible(self, state: ArenaState) -> bool {
        match self {
            Event::PinList { list, generation } => state.unused(list),
            Event::PinSlot { slot } => state.unused(slot),
            Event::Link { list, slot, waker } => state.may_use(list, slot),
            Event::Unlink { list, slot } => state.may_use(list, slot),
            Event::Begin { list } => state.lists.contains_key(list)
                && state.lists[list].generation < u64::MAX,
            Event::Extract { list, count } => state.lists.contains_key(list) && count
                <= state.lists[list].queue.len(),
            Event::DropList { list } => state.lists.contains_key(list)
                && state.lists[list].queue.len() == 0,
            Event::DropSlot { slot } => state.slots.contains_key(slot)
                && state.slots[slot] is None,
        }
    }

    /// The state after the event.
    pub open spec fn after(self, state: ArenaState) -> ArenaState {
        match self {
            Event::PinList { list, generation } => state.pin_list(list, generation),
            Event::PinSlot { slot } => state.pin_slot(slot),
            Event::Link { list, slot, waker } => state.link(list, slot, waker),
            Event::Unlink { list, slot } => state.unlink(slot),
            Event::Begin { list } => state.begin_extraction(list),
            Event::Extract { list, count } => state.extract(list, count),
            Event::DropList { list } => state.drop_list(list),
            Event::DropSlot { slot } => state.drop_slot(slot),
        }
    }

    /// The wakers that the event hands to a list.
    pub open spec fn linked(self) -> Seq<Waker> {
        match self {
            Event::Link { list, slot, waker } => seq![waker],
            _ => Seq::empty(),
        }
    }

    /// The wakers that the event hands out to be woken.
    pub open spec fn extracted(self, state: ArenaState) -> Seq<Waker> {
        match self {
            Event::Extract { list, count } => state.wakers(
                state.lists[list].queue.take(count as int),
            ),
            _ => Seq::empty(),
        }
    }

    /// The list whose wakers the event may change.
    pub open spec fn list(self) -> Option<usize> {
        match self {
            Event::Link { list, .. } => Some(list),
            Event::Unlink { list, .. } => Some(list),
            Event::Extract { list, .. } => Some(list),
            _ => None,
        }
    }
}

/// What comes of a sequence of events.
pub struct History {
    /// Every event could happen when its turn came.
    pub possible: bool,
    /// The state in the end.
    pub state: ArenaState,
    /// The wakers that were handed to lists, in order.
    pub linked: Seq<Waker>,
    /// The wakers that were handed out to be woken, in order.
    pub extracted: Seq<Waker>,
}

/// What comes of the given events.
pub open spec fn history(state: ArenaState, events: Seq<Event>) -> History
    decreases events.len(),
{
    if events.len() == 0 {
        History { possible: true, state, linked: Seq::empty(), extracted: Seq::empty() }
    } else {
        let before = history(state, events.drop_last());
        let event = events.last();
        History {
            possible: before.possible && event.possible(before.state),
            state: event.after(before.state),
            linked: before.linked + event.linked(),
            extracted: before.extracted + event.extracted(before.state),
        }
    }
}

/// `lists` names no list twice, and every list that the events link to, unlink
/// from or extract from.
pub open spec fn covers(lists: Seq<usize>, events: Seq<Event>) -> bool {
    &&& lists.no_duplicates()
    &&& forall|i: int|
        0 <= i < events.len() ==> match (#[trigger] events[i]).list() {
            Some(list) => lists.contains(list),
            None => true,
        }
}

/// The wakers that the list at `list` holds, none if no list lives there.
pub open spec fn held(state: ArenaState, list: usize) -> Multiset<Waker> {
    if state.lists.contains_key(list) {
        state.wakers(state.lists[list].queue).to_multiset()
    } else {
        Multiset::empty()
    }
}

/// The wakers that the given lists hold together.
pub open spec fn held_by_all(state: ArenaState, lists: Seq<usize>) -> Multiset<Waker>
    decreases lists.len(),
{
    if lists.len() == 0 {
        Multiset::empty()
    } else {
        held_by_all(state, lists.drop_last()).add(held(state, lists.last()))
    }
}

/// The wakers that the given lists hold or that have been dropped.
pub open spec fn retained(state: ArenaState, lists: Seq<usize>) -> Multiset<Waker> {
    held_by_all(state, lists).add(state.dropped.to_multiset())
}

/// An event leaves a list alone that it does not name.
proof fn lemma_other_list_holds_same(state: ArenaState, event: Event, other: usize)
    requires
        state.valid(),
        event.possible(state),
        event.list() != Some(other),
    ensures
        held(event.after(state), other) == held(state, other),
{
    let after = event.after(state);
    if state.lists.contains_key(other) && after.lists.contains_key(other) {
        let queue = state.lists[other].queue;
        assert(after.lists[other].queue =~= queue);
        assert forall|k: int| 0 <= k < queue.len() implies after.entry(#[trigger] queue[k]).waker
            == state.entry(queue[k]).waker by {
            assert(queue.contains(queue[k]));
            assert(state.is_linked_to(queue[k], other));
            if let Event::Extract { list, count } = event {
                let taken = state.lists[list].queue.take(count as int);
                if taken.contains(queue[k]) {
                    let i = taken.index_of(queue[k]);
                    assert(state.lists[list].queue[i] == queue[k]);
                    assert(state.lists[list].queue.contains(queue[k]));
                    assert(state.is_linked_to(queue[k], list));
                }
            }
        }
        assert(after.wakers(queue) =~= state.wakers(queue));
    } else {
        assert(Seq::<Waker>::empty().to_multiset() =~= Multiset::empty()) by {
            broadcast use group_to_multiset_ensures;

        }
        if state.lists.contains_key(other) {
            assert(state.wakers(state.lists[other].queue) =~= Seq::empty());
        }
        if after.lists.contains_key(other) {
            assert(after.wakers(after.lists[other].queue) =~= Seq::empty());
        }
    }
}

/// An event leaves no waker of the list that it names unaccounted for.
proof fn lemma_named_list_accounts(state: ArenaState, event: Event, list: usize)
    requires
        state.valid(),
        event.possible(state),
        event.list() == Some(list),
    ensures
        held(event.after(state), list).add(event.after(state).dropped.to_multiset()).add(
            event.extracted(state).to_multiset(),
        ) == held(state, list).add(state.dropped.to_multiset()).add(event.linked().to_multiset()),
{
    broadcast use group_to_multiset_ensures;

    let after = event.after(state);
    let queue = state.lists[list].queue;
    let wakers = state.wakers(queue);
    let none = Seq::<Waker>::empty();
    assert(none.to_multiset() =~= Multiset::empty());
    assert forall|k: int| 0 <= k < queue.len() implies state.is_linked_to(
        #[trigger] queue[k],
        list,
    ) by {
        assert(queue.contains(queue[k]));
    }
    assert(state.lists[list].queue.no_duplicates());
    match event {
        Event::Link { list: _, slot, waker } => {
            assert(queue.contains(slot) <==> state.is_linked_to(slot, list));
            assert(seq![waker] =~= none.push(waker));
            let wakers2 = after.wakers(after.lists[list].queue);
            if state.slots[slot] is Some {
                let j = queue.index_of(slot);
                assert(wakers2 =~= wakers.update(j, waker));
                assert(wakers2.remove(j) =~= wakers.remove(j));
                assert(wakers[j] == state.entry(slot).waker);
                assert(wakers.contains(wakers[j]));
                assert(wakers2[j] == waker);
                assert(wakers2.contains(waker));
            } else {
                assert(wakers2 =~= wakers.push(waker));
            }
        },
        Event::Unlink { list: _, slot } => {
            if state.slots[slot] is Some {
                let j = queue.index_of(slot);
                assert(queue.contains(slot) <==> state.is_linked_to(slot, list));
                assert(after.wakers(after.lists[list].queue) =~= wakers.remove(j));
                assert(wakers[j] == state.entry(slot).waker);
                assert(wakers.contains(wakers[j]));
            }
        },
        Event::Extract { list: _, count } => {
            let n = count as int;
            let rest = queue.skip(n);
            assert forall|k: int| 0 <= k < rest.len() implies after.entry(
                #[trigger] rest[k],
            ).waker == state.entry(rest[k]).waker by {
                assert(rest[k] == queue[k + n]);
                if queue.take(n).contains(rest[k]) {
                    let i = queue.take(n).index_of(rest[k]);
                    assert(queue[i] == queue[k + n]);
                }
            }
            assert(after.wakers(rest) =~= wakers.skip(n));
            assert(state.wakers(queue.take(n)) =~= wakers.take(n));
            assert(wakers =~= wakers.take(n) + wakers.skip(n));
            lemma_multiset_commutative(wakers.take(n), wakers.skip(n));
        },
        _ => {},
    }
    assert(held(after, list).add(after.dropped.to_multiset()).add(
        event.extracted(state).to_multiset(),
    ) =~= held(state, list).add(state.dropped.to_multiset()).add(event.linked().to_multiset()));
}

/// Lists that hold the same alone hold the same together.
proof fn lemma_same_together(before: ArenaState, after: ArenaState, lists: Seq<usize>)
    requires
        forall|i: int|
            0 <= i < lists.len() ==> held(after, #[trigger] lists[i]) == held(before, lists[i]),
    ensures
        held_by_all(after, lists) == held_by_all(before, lists),
    decreases lists.len(),
{
    if lists.len() > 0 {
        let front = lists.drop_last();
        assert forall|i: int| 0 <= i < front.len() implies held(after, #[trigger] front[i])
            == held(before, front[i]) by {
            assert(front[i] == lists[i]);
        }
        lemma_same_together(before, after, front);
        assert(lists[lists.len() - 1] == lists.last());
    }
}

/// Where only one list changes, what the lists hold together changes by as much.
proof fn lemma_one_list_changes(
    before: ArenaState,
    after: ArenaState,
    lists: Seq<usize>,
    list: usize,
)
    requires
        lists.no_duplicates(),
        lists.contains(list),
        forall|other: usize| other != list ==> #[trigger] held(after, other) == held(before, other),
    ensures
        held_by_all(after, lists).add(held(before, list)) == held_by_all(before, lists).add(
            held(after, list),
        ),
    decreases lists.len(),
{
    let front = lists.drop_last();
    if lists.last() == list {
        assert forall|i: int| 0 <= i < front.len() implies held(after, #[trigger] front[i])
            == held(before, front[i]) by {
            assert(front[i] == lists[i]);
        }
        lemma_same_together(before, after, front);
        assert(held_by_all(after, lists).add(held(before, list)) =~= held_by_all(
            before,
            lists,
        ).add(held(after, list)));
    } else {
        let i = lists.index_of(list);
        assert(front[i] == list);
        lemma_one_list_changes(before, after, front, list);
        let fewer_before = held_by_all(before, front);
        let fewer_after = held_by_all(after, front);
        assert forall|waker: Waker| #[trigger]
            held_by_all(after, lists).add(held(before, list)).count(waker) == held_by_all(
                before,
                lists,
            ).add(held(after, list)).count(waker) by {
            assert(fewer_after.add(held(before, list)).count(waker) == fewer_before.add(
                held(after, list),
            ).count(waker));
        }
        assert(held_by_all(after, lists).add(held(before, list)) =~= held_by_all(
            before,
            lists,
        ).add(held(after, list)));
    }
}

/// One event leaves the state valid.
proof fn lemma_event_keeps_valid(state: ArenaState, event: Event)
    requires
        state.valid(),
        event.possible(state),
    ensures
        event.after(state).valid(),
{
    match event {
        Event::PinList { list, generation } => law_pin_list_keeps_valid(state, list, generation),
        Event::PinSlot { slot } => law_pin_slot_keeps_valid(state, slot),
        Event::Link { list, slot, waker } => law_link_keeps_valid(state, list, slot, waker),
        Event::Unlink { list, slot } => law_unlink_keeps_valid(state, slot),
        Event::Begin { list } => law_begin_extraction_keeps_valid(state, list),
        Event::Extract { list, count } => law_extract_keeps_valid(state, list, count),
        Event::DropList { list } => law_drop_list_keeps_valid(state, list),
        Event::DropSlot { slot } => law_drop_slot_keeps_valid(state, slot),
    }
}

/// All states of a history are valid.
proof fn lemma_history_valid(state: ArenaState, events: Seq<Event>)
    requires
        state.valid(),
        history(state, events).possible,
    ensures
        history(state, events).state.valid(),
    decreases events.len(),
{
    if events.len() > 0 {
        lemma_history_valid(state, events.drop_last());
        lemma_event_keeps_valid(history(state, events.drop_last()).state, events.last());
    }
}

/// One event leaves the state valid and no waker unaccounted for.
proof fn lemma_event_accounts(state: ArenaState, event: Event, lists: Seq<usize>)
    requires
        state.valid(),
        event.possible(state),
        lists.no_duplicates(),
        match event.list() {
            Some(list) => lists.contains(list),
            None => true,
        },
    ensures
        event.after(state).valid(),
        retained(event.after(state), lists).add(event.extracted(state).to_multiset()) == retained(
            state,
            lists,
        ).add(event.linked().to_multiset()),
{
    let after = event.after(state);
    lemma_event_keeps_valid(state, event);
    assert forall|other: usize| event.list() != Some(other) implies #[trigger] held(after, other)
        == held(state, other) by {
        lemma_other_list_holds_same(state, event, other);
    }
    match event.list() {
        Some(list) => {
            lemma_named_list_accounts(state, event, list);
            lemma_one_list_changes(state, after, lists, list);
            let linked = event.linked().to_multiset();
            let extracted = event.extracted(state).to_multiset();
            let dropped = state.dropped.to_multiset();
            let dropped_after = after.dropped.to_multiset();
            assert forall|waker: Waker| #[trigger]
                retained(after, lists).add(extracted).count(waker) == retained(state, lists).add(
                    linked,
                ).count(waker) by {
                assert(held(after, list).add(dropped_after).add(extracted).count(waker) == held(
                    state,
                    list,
                ).add(dropped).add(linked).count(waker));
                assert(held_by_all(after, lists).add(held(state, list)).count(waker)
                    == held_by_all(state, lists).add(held(after, list)).count(waker));
            }
            assert(retained(after, lists).add(extracted) =~= retained(state, lists).add(linked));
        },
        None => {
            lemma_same_together(state, after, lists);
        },
    }
}

/// Every waker that is handed to a list is accounted for, whatever is done with
/// the lists of the arena: it is still linked, or it was dropped by an unlink or
/// by a link that replaced it, or it was extracted to be woken, and only one of
/// these.
pub proof fn law_wakers_are_accounted_for(
    state: ArenaState,
    lists: Seq<usize>,
    events: Seq<Event>,
)
    requires
        state.valid(),
        covers(lists, events),
        history(state, events).possible,
    ensures
        ({
            let end = history(state, events);
            &&& end.state.valid()
            &&& retained(end.state, lists).add(end.extracted.to_multiset()) == retained(
                state,
                lists,
            ).add(end.linked.to_multiset())
        }),
    decreases events.len(),
{
    if events.len() > 0 {
        let front = events.drop_last();
        let event = events.last();
        let before = history(state, front);
        let end = history(state, events);
        assert(covers(lists, front)) by {
            assert forall|i: int| 0 <= i < front.len() implies match (
            #[trigger] front[i]).list() {
                Some(list) => lists.contains(list),
                None => true,
            } by {
                assert(front[i] == events[i]);
            }
        }
        assert(events[events.len() - 1] == event);
        law_wakers_are_accounted_for(state, lists, front);
        lemma_event_accounts(before.state, event, lists);
        lemma_multiset_commutative(before.linked, event.linked());
        lemma_multiset_commutative(before.extracted, event.extracted(before.state));
        let given = retained(state, lists);
        let kept = retained(before.state, lists);
        let left = retained(end.state, lists);
        let linked = event.linked().to_multiset();
        let extracted = event.extracted(before.state).to_multiset();
        assert forall|waker: Waker|
            left.add(end.extracted.to_multiset()).count(waker) == #[trigger] given.add(
                end.linked.to_multiset(),
            ).count(waker) by {
            let earlier = kept.add(before.extracted.to_multiset());
            assert(earlier.count(waker) == given.add(before.linked.to_multiset()).count(waker));
            assert(left.add(extracted).count(waker) == kept.add(linked).count(waker));
        }
        assert(left.add(end.extracted.to_multiset()) =~= given.add(end.linked.to_multiset()));
    }
}

/// A waker that was unlinked or replaced is never woken: one that was handed to
/// a list once and has been dropped is not among those extracted, nor is it
/// linked any more.
pub proof fn law_dropped_never_extracted(
    state: ArenaState,
    lists: Seq<usize>,
    events: Seq<Event>,
    waker: Waker,
)
    requires
        state.valid(),
        covers(lists, events),
        history(state, events).possible,
        held_by_all(state, lists).count(waker) + history(
            state,
            events,
        ).linked.to_multiset().count(waker) == 1,
        !state.dropped.contains(waker),
        history(state, events).state.dropped.contains(waker),
    ensures
        !history(state, events).extracted.contains(waker),
        held_by_all(history(state, events).state, lists).count(waker) == 0,
        history(state, events).state.dropped.to_multiset().count(waker) == 1,
{
    broadcast use group_to_multiset_ensures;

    law_wakers_are_accounted_for(state, lists, events);
    let end = history(state, events);
    let all = retained(state, lists).add(end.linked.to_multiset());
    let found = retained(end.state, lists).add(end.extracted.to_multiset());
    assert(all.count(waker) == found.count(waker));
}

/// What an event does to the rounds that cover a slot of a list: a slot that stays
/// linked stays covered by the same rounds, and one that comes to be linked is
/// covered by no round that has begun.
proof fn lemma_event_keeps_generations(state: ArenaState, event: Event, list: usize, slot: usize)
    requires
        state.valid(),
        event.possible(state),
        event != (Event::DropList { list }),
        state.lists.contains_key(list),
    ensures
        event.after(state).lists.contains_key(list),
        event.after(state).lists[list].generation >= state.lists[list].generation,
        state.is_linked_to(slot, list) && event.after(state).is_linked_to(slot, list)
            ==> event.after(state).entry(slot).generation == state.entry(slot).generation,
        !state.is_linked_to(slot, list) && event.after(state).is_linked_to(slot, list)
            ==> event.after(state).entry(slot).generation == state.lists[list].generation,
{
}

/// The slots that are due in a round are those of the list that were linked in a
/// generation up to the round.
proof fn lemma_due_contains(state: ArenaState, list: usize, round: u64, slot: usize)
    requires
        state.valid(),
        state.lists.contains_key(list),
    ensures
        state.due(list, round).contains(slot) <==> state.is_linked_to(slot, list) && state.entry(
            slot,
        ).generation <= round,
{
    let queue = state.lists[list].queue;
    let due = state.due(list, round);
    state.lemma_due(list, round);
    assert(queue.contains(slot) <==> state.is_linked_to(slot, list));
    if due.contains(slot) {
        let i = due.index_of(slot);
        assert(queue[i] == slot);
        assert(state.entry(queue[i]).generation <= round);
    }
    if state.is_linked_to(slot, list) && state.entry(slot).generation <= round {
        let i = queue.index_of(slot);
        assert(state.entry(queue[i]).generation <= round);
        assert(due[i] == slot);
    }
}

/// A list that is not dropped lives on through a history, and its generation does
/// not fall.
proof fn lemma_list_lives_on(state: ArenaState, list: usize, events: Seq<Event>)
    requires
        state.valid(),
        state.lists.contains_key(list),
        history(state, events).possible,
        forall|i: int|
            0 <= i < events.len() ==> #[trigger] events[i] != (Event::DropList { list }),
    ensures
        history(state, events).state.lists.contains_key(list),
        history(state, events).state.lists[list].generation >= state.lists[list].generation,
    decreases events.len(),
{
    if events.len() > 0 {
        let front = events.drop_last();
        let event = events.last();
        assert forall|i: int| 0 <= i < front.len() implies #[trigger] front[i] != (
        Event::DropList { list }) by {
            assert(front[i] == events[i]);
        }
        assert(events[events.len() - 1] == event);
        lemma_list_lives_on(state, list, front);
        let before = history(state, front).state;
        lemma_history_valid(state, front);
        lemma_event_keeps_generations(before, event, list, list);
    }
}

/// A slot of the list is covered by the round if and only if it has been linked
/// into the list all the time.
proof fn lemma_covered_while_linked(
    state: ArenaState,
    list: usize,
    round: u64,
    events: Seq<Event>,
    slot: usize,
)
    requires
        state.valid(),
        state.lists.contains_key(list),
        round < state.lists[list].generation,
        state.is_linked_to(slot, list) ==> state.entry(slot).generation <= round,
        history(state, events).possible,
        forall|i: int|
            0 <= i < events.len() ==> #[trigger] events[i] != (Event::DropList { list }),
    ensures
        ({
            let end = history(state, events).state;
            end.is_linked_to(slot, list) && end.entry(slot).generation <= round <==> forall|i: int|
                0 <= i <= events.len() ==> history(
                    state,
                    #[trigger] events.take(i),
                ).state.is_linked_to(slot, list)
        }),
    decreases events.len(),
{
    let end = history(state, events).state;
    let n = events.len() as int;
    assert(events.take(n) =~= events);
    if n == 0 {
        assert forall|i: int| 0 <= i <= n implies history(
            state,
            #[trigger] events.take(i),
        ).state.is_linked_to(slot, list) == end.is_linked_to(slot, list) by {
            assert(events.take(i) =~= events);
        }
    } else {
        let front = events.drop_last();
        let event = events.last();
        let before = history(state, front).state;
        assert forall|i: int| 0 <= i < front.len() implies #[trigger] front[i] != (
        Event::DropList { list }) by {
            assert(front[i] == events[i]);
        }
        assert(events[n - 1] == event);
        lemma_covered_while_linked(state, list, round, front, slot);
        lemma_list_lives_on(state, list, front);
        lemma_history_valid(state, front);
        lemma_event_keeps_generations(before, event, list, slot);
        assert(front.take(n - 1) =~= front);
        assert forall|i: int| 0 <= i < n implies #[trigger] events.take(i) == front.take(i) by {
            assert(events.take(i) =~= front.take(i));
        }
        if forall|i: int|
            0 <= i <= n ==> history(state, #[trigger] events.take(i)).state.is_linked_to(
                slot,
                list,
            ) {
            assert(end.is_linked_to(slot, list));
            assert forall|i: int| 0 <= i <= front.len() implies history(
                state,
                #[trigger] front.take(i),
            ).state.is_linked_to(slot, list) by {
                assert(events.take(i) == front.take(i));
            }
        }
        if end.is_linked_to(slot, list) && end.entry(slot).generation <= round {
            assert(before.is_linked_to(slot, list));
            assert forall|i: int| 0 <= i <= n implies history(
                state,
                #[trigger] events.take(i),
            ).state.is_linked_to(slot, list) by {
                if i < n {
                    assert(events.take(i) == front.take(i));
                }
            }
        }
    }
}

/// A round is about the slots that were linked when it began: whatever is done
/// with the lists of the arena since, the slots that are due in it are those
/// that have been linked into the list ever since it began. One that is linked
/// later, or that left the list and is linked again, is not due, also when
/// wakers were extracted in between.
pub proof fn law_round_covers_what_stayed_linked(
    state: ArenaState,
    list: usize,
    events: Seq<Event>,
    slot: usize,
)
    requires
        state.valid(),
        state.lists.contains_key(list),
        state.lists[list].generation < u64::MAX,
        history(state.begin_extraction(list), events).possible,
        forall|i: int|
            0 <= i < events.len() ==> #[trigger] events[i] != (Event::DropList { list }),
    ensures
        ({
            let round = state.lists[list].generation;
            let start = state.begin_extraction(list);
            history(start, events).state.due(list, round).contains(slot) <==> forall|i: int|
                0 <= i <= events.len() ==> history(
                    start,
                    #[trigger] events.take(i),
                ).state.is_linked_to(slot, list)
        }),
{
    let round = state.lists[list].generation;
    let start = state.begin_extraction(list);
    law_begin_extraction_keeps_valid(state, list);
    if start.is_linked_to(slot, list) {
        let queue = state.lists[list].queue;
        assert(queue.contains(slot) <==> state.is_linked_to(slot, list));
        assert(state.entry(queue[queue.index_of(slot)]).generation <= round);
    }
    lemma_covered_while_linked(start, list, round, events, slot);
    lemma_list_lives_on(start, list, events);
    lemma_history_valid(start, events);
    lemma_due_contains(history(start, events).state, list, round, slot);
}

/// One event leaves two slots of a list in their order.
proof fn lemma_event_keeps_order(
    state: ArenaState,
    event: Event,
    list: usize,
    earlier: usize,
    later: usize,
)
    requires
        state.valid(),
        event.possible(state),
        state.is_linked_to(earlier, list),
        state.is_linked_to(later, list),
        event.after(state).is_linked_to(earlier, list),
        event.after(state).is_linked_to(later, list),
        state.lists[list].queue.index_of(earlier) < state.lists[list].queue.index_of(later),
    ensures
        event.after(state).lists[list].queue.index_of(earlier) < event.after(
            state,
        ).lists[list].queue.index_of(later),
{
    let after = event.after(state);
    lemma_event_keeps_valid(state, event);
    assert(state.slots.contains_key(earlier));
    assert(state.lists.contains_key(state.entry(earlier).list));
    let queue = state.lists[list].queue;
    assert(queue.contains(earlier) <==> state.is_linked_to(earlier, list));
    assert(queue.contains(later) <==> state.is_linked_to(later, list));
    assert(state.lists[list].queue.no_duplicates());
    assert(after.slots.contains_key(earlier));
    assert(after.lists.contains_key(after.entry(earlier).list));
    let queue2 = after.lists[list].queue;
    assert(queue2.contains(earlier) <==> after.is_linked_to(earlier, list));
    assert(queue2.contains(later) <==> after.is_linked_to(later, list));
    assert(after.lists[list].queue.no_duplicates());
    let a = queue.index_of(earlier);
    let b = queue.index_of(later);
    assert(queue[a] == earlier && queue[b] == later);
    match event {
        Event::Unlink { list: named, slot } => {
            if named == list && state.slots[slot] is Some {
                assert(queue.contains(slot) <==> state.is_linked_to(slot, list));
                let j = queue.index_of(slot);
                assert(queue[j] == slot);
                assert(slot != earlier && slot != later);
                assert(queue2 =~= queue.remove(j));
                assert(queue2[if a < j { a } else { a - 1 }] == earlier);
                assert(queue2[if b < j { b } else { b - 1 }] == later);
            } else {
                assert(queue2 == queue);
            }
        },
        Event::Extract { list: named, count } => {
            if named == list {
                let n = count as int;
                if a < n {
                    assert(queue.take(n)[a] == earlier);
                }
                assert(queue2[a - n] == earlier);
                assert(queue2[b - n] == later);
            } else {
                assert(queue2 == queue);
            }
        },
        _ => {
            assert(queue2[a] == earlier);
            assert(queue2[b] == later);
        },
    }
}

/// Nobody overtakes: two slots that stay linked into a list stay in their order,
/// whatever is done with the lists of the arena, linking one of them again
/// included.
pub proof fn law_order_is_kept(
    state: ArenaState,
    list: usize,
    events: Seq<Event>,
    earlier: usize,
    later: usize,
)
    requires
        state.valid(),
        history(state, events).possible,
        state.lists[list].queue.index_of(earlier) < state.lists[list].queue.index_of(later),
        forall|i: int|
            0 <= i <= events.len() ==> {
                let at = history(state, #[trigger] events.take(i)).state;
                at.is_linked_to(earlier, list) && at.is_linked_to(later, list)
            },
    ensures
        ({
            let queue = history(state, events).state.lists[list].queue;
            queue.contains(earlier) && queue.contains(later) && queue.index_of(earlier)
                < queue.index_of(later)
        }),
    decreases events.len(),
{
    let end = history(state, events).state;
    let n = events.len() as int;
    assert(events.take(n) =~= events);
    assert(end.is_linked_to(earlier, list) && end.is_linked_to(later, list));
    lemma_history_valid(state, events);
    if n > 0 {
        let front = events.drop_last();
        let before = history(state, front).state;
        assert(events.take(n - 1) =~= front);
        assert forall|i: int| 0 <= i <= front.len() implies {
            let at = history(state, #[trigger] front.take(i)).state;
            at.is_linked_to(earlier, list) && at.is_linked_to(later, list)
        } by {
            assert(front.take(i) =~= events.take(i));
        }
        law_order_is_kept(state, list, front, earlier, later);
        lemma_history_valid(state, front);
        lemma_event_keeps_order(before, events.last(), list, earlier, later);
    }
    assert(end.slots.contains_key(earlier));
    assert(end.lists.contains_key(end.entry(earlier).list));
    assert(end.lists[list].queue.contains(earlier) <==> end.is_linked_to(earlier, list));
    assert(end.lists[list].queue.contains(later) <==> end.is_linked_to(later, list));
}

/// A linked slot holds the waker that it was last linked with, whatever else is
/// done with the lists of the arena: no event but a link of this slot gives it
/// a waker.
pub proof fn law_slot_holds_its_last_waker(
    state: ArenaState,
    list: usize,
    slot: usize,
    waker: Waker,
    events: Seq<Event>,
)
    requires
        state.valid(),
        state.may_use(list, slot),
        history(state.link(list, slot, waker), events).possible,
        forall|i: int|
            0 <= i < events.len() ==> (#[trigger] events[i] matches Event::Link { slot: linked, .. }
                ==> linked != slot),
    ensures
        ({
            let end = history(state.link(list, slot, waker), events).state;
            end.slots.contains_key(slot) && end.slots[slot] is Some ==> end.slots[slot]->0.waker
                == waker && end.slots[slot]->0.list == list
        }),
    decreases events.len(),
{
    if events.len() > 0 {
        let front = events.drop_last();
        assert forall|i: int| 0 <= i < front.len() implies (
        #[trigger] front[i] matches Event::Link { slot: linked, .. } ==> linked != slot) by {
            assert(front[i] == events[i]);
        }
        assert(events[events.len() - 1] == events.last());
        law_slot_holds_its_last_waker(state, list, slot, waker, front);
        law_link_keeps_valid(state, list, slot, waker);
        lemma_history_valid(state.link(list, slot, waker), front);
    }
}

} // verus!
