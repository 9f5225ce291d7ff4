//! What holds of lists and slots across operations.
use crate::array::EXTRACT_CAPACITY;
use crate::model::least;
use crate::model::room;
use crate::model::ArenaState;
use core::task::Waker;
use vstd::prelude::*;

verus! {

/// Linking keeps a state valid.
pub proof fn law_link_keeps_valid(state: ArenaState, list: usize, slot: usize, waker: Waker)
    requires
        state.valid(),
        state.may_use(list, slot),
    ensures
        state.link(list, slot, waker).valid(),
{
    let after = state.link(list, slot, waker);
    let queue = state.lists[list].queue;
    assert(queue.contains(slot) <==> state.is_linked_to(slot, list));
    assert(queue.no_duplicates());
    assert forall|l: usize, s: usize| after.lists.contains_key(l) implies (
    #[trigger] after.lists[l].queue.contains(s) <==> after.is_linked_to(s, l)) by {
        assert(state.lists[l].queue.contains(s) <==> state.is_linked_to(s, l));
        if l == list && state.slots[slot] is None {
            let longer = queue.push(slot);
            assert(longer[queue.len() as int] == slot);
            if queue.contains(s) {
                assert(longer[queue.index_of(s)] == s);
            }
        }
    }
    assert forall|l: usize| after.lists.contains_key(
        l,
    ) implies #[trigger] after.lists[l].queue.no_duplicates() by {
        assert(state.lists[l].queue.no_duplicates());
    }
    assert forall|s: usize| #[trigger]
        after.slots.contains_key(s) && after.slots[s] is Some implies after.lists.contains_key(
        after.entry(s).list,
    ) by {
        assert(state.slots.contains_key(s));
    }
    assert forall|l: usize, i: int, j: int|
        after.lists.contains_key(l) && 0 <= i <= j < after.lists[l].queue.len() implies (
    #[trigger] after.entry(after.lists[l].queue[i])).generation <= (#[trigger] after.entry(
        after.lists[l].queue[j],
    )).generation <= after.lists[l].generation by {
        let old_queue = state.lists[l].queue;
        if i < old_queue.len() {
            assert(old_queue.contains(old_queue[i]));
            assert(state.entry(old_queue[i]).generation <= state.lists[l].generation);
        }
        if j < old_queue.len() {
            assert(old_queue.contains(old_queue[j]));
            assert(state.entry(old_queue[i]).generation <= state.entry(
                old_queue[j],
            ).generation);
        }
    }
}

/// Taking a slot out of its queue keeps a state valid, whatever else is recorded.
proof fn lemma_detach_keeps_valid(state: ArenaState, slot: usize, after: ArenaState)
    requires
        state.valid(),
        state.slots.contains_key(slot),
        state.slots[slot] is Some,
        after.lists == state.detach(slot).lists,
        after.slots == state.detach(slot).slots,
    ensures
        after.valid(),
{
    let list = state.entry(slot).list;
    let queue = state.lists[list].queue;
    let j = queue.index_of(slot);
    let rest = queue.remove(j);
    assert(queue.contains(slot) <==> state.is_linked_to(slot, list));
    assert(queue.no_duplicates());
    assert forall|l: usize, s: usize| after.lists.contains_key(l) implies (
    #[trigger] after.lists[l].queue.contains(s) <==> after.is_linked_to(s, l)) by {
        assert(state.lists[l].queue.contains(s) <==> state.is_linked_to(s, l));
        assert(state.lists[l].queue.contains(slot) <==> state.is_linked_to(slot, l));
        if l == list {
            if rest.contains(s) {
                let k = rest.index_of(s);
                assert(queue[if k < j { k } else { k + 1 }] == s);
            }
            if queue.contains(s) && s != slot {
                let k = queue.index_of(s);
                assert(rest[if k < j { k } else { k - 1 }] == s);
            }
        }
    }
    assert forall|l: usize| after.lists.contains_key(
        l,
    ) implies #[trigger] after.lists[l].queue.no_duplicates() by {
        assert(state.lists[l].queue.no_duplicates());
    }
    assert forall|s: usize| #[trigger]
        after.slots.contains_key(s) && after.slots[s] is Some implies
        after.lists.contains_key(after.entry(s).list) by {
        assert(state.slots.contains_key(s));
    }
    assert forall|l: usize, i: int, k: int|
        after.lists.contains_key(l) && 0 <= i <= k < after.lists[l].queue.len() implies (
    #[trigger] after.entry(after.lists[l].queue[i])).generation <= (#[trigger] after.entry(
        after.lists[l].queue[k],
    )).generation <= after.lists[l].generation by {
        let old_queue = state.lists[l].queue;
        let i2 = if l == list && i >= j { i + 1 } else { i };
        let k2 = if l == list && k >= j { k + 1 } else { k };
        assert(old_queue[i2] == after.lists[l].queue[i]);
        assert(old_queue[k2] == after.lists[l].queue[k]);
        assert(state.lists[l].queue.contains(slot) <==> state.is_linked_to(slot, l));
        assert(old_queue.contains(old_queue[i2]));
        assert(old_queue.contains(old_queue[k2]));
        assert(state.entry(old_queue[i2]).generation <= state.entry(
            old_queue[k2],
        ).generation);
    }
}

/// Unlinking keeps a state valid.
pub proof fn law_unlink_keeps_valid(state: ArenaState, slot: usize)
    requires
        state.valid(),
        state.slots.contains_key(slot),
    ensures
        state.unlink(slot).valid(),
{
    if state.slots[slot] is Some {
        lemma_detach_keeps_valid(state, slot, state.unlink(slot));
    }
}

/// Beginning a round keeps a state valid.
pub proof fn law_begin_extraction_keeps_valid(state: ArenaState, list: usize)
    requires
        state.valid(),
        state.lists.contains_key(list),
        state.lists[list].generation < u64::MAX,
    ensures
        state.begin_extraction(list).valid(),
{
    let after = state.begin_extraction(list);
    assert forall|l: usize, s: usize| after.lists.contains_key(l) implies (
    #[trigger] after.lists[l].queue.contains(s) <==> after.is_linked_to(s, l)) by {
        assert(state.lists[l].queue.contains(s) <==> state.is_linked_to(s, l));
    }
    assert forall|l: usize| after.lists.contains_key(
        l,
    ) implies #[trigger] after.lists[l].queue.no_duplicates() by {
        assert(state.lists[l].queue.no_duplicates());
    }
    assert forall|l: usize, i: int, j: int|
        after.lists.contains_key(l) && 0 <= i <= j < after.lists[l].queue.len() implies (
    #[trigger] after.entry(after.lists[l].queue[i])).generation <= (#[trigger] after.entry(
        after.lists[l].queue[j],
    )).generation <= after.lists[l].generation by {
        assert(state.entry(state.lists[l].queue[i]).generation <= state.entry(
            state.lists[l].queue[j],
        ).generation);
    }
}

/// Extracting keeps a state valid.
pub proof fn law_extract_keeps_valid(state: ArenaState, list: usize, count: nat)
    requires
        state.valid(),
        state.lists.contains_key(list),
        count <= state.lists[list].queue.len(),
    ensures
        state.extract(list, count).valid(),
    decreases count,
{
    if count == 0 {
        state.lemma_extract_none(list);
    } else {
        let fewer = (count - 1) as nat;
        law_extract_keeps_valid(state, list, fewer);
        state.lemma_extract_step(list, fewer);
        lemma_detach_keeps_valid(
            state.extract(list, fewer),
            state.lists[list].queue[fewer as int],
            state.extract(list, count),
        );
    }
}

/// A slot is linked exactly while the queue of some list contains it, and it
/// occurs in one queue only.
pub proof fn law_linked_in_one_queue(state: ArenaState, slot: usize, list: usize, other: usize)
    requires
        state.valid(),
        state.slots.contains_key(slot),
        state.lists.contains_key(list),
        state.lists.contains_key(other),
    ensures
        state.slots[slot] is Some <==> exists|l: usize|
            state.lists.contains_key(l) && #[trigger] state.lists[l].queue.contains(slot),
        state.lists[list].queue.contains(slot) && state.lists[other].queue.contains(slot) ==> list
            == other,
{
    assert(state.lists[list].queue.contains(slot) <==> state.is_linked_to(slot, list));
    assert(state.lists[other].queue.contains(slot) <==> state.is_linked_to(slot, other));
    if state.slots[slot] is Some {
        let l = state.entry(slot).list;
        assert(state.lists[l].queue.contains(slot) <==> state.is_linked_to(slot, l));
    }
    if exists|l: usize|
        state.lists.contains_key(l) && #[trigger] state.lists[l].queue.contains(slot) {
        let l = choose|l: usize|
            state.lists.contains_key(l) && #[trigger] state.lists[l].queue.contains(slot);
        assert(state.is_linked_to(slot, l));
    }
}

/// A slot that has been linked is linked into that list and holds that waker.
pub proof fn law_link_links(state: ArenaState, list: usize, slot: usize, waker: Waker)
    requires
        state.valid(),
        state.may_use(list, slot),
    ensures
        state.link(list, slot, waker).is_linked_to(slot, list),
        state.link(list, slot, waker).entry(slot).waker == waker,
        state.link(list, slot, waker).lists[list].queue.contains(slot),
{
    law_link_keeps_valid(state, list, slot, waker);
    let after = state.link(list, slot, waker);
    assert(after.lists[list].queue.contains(slot) <==> after.is_linked_to(slot, list));
}

/// A second link replaces the waker of the first, which is dropped, and changes
/// nothing else: apart from that it is as if only the second had been made.
pub proof fn law_relink_replaces(
    state: ArenaState,
    list: usize,
    slot: usize,
    first: Waker,
    second: Waker,
)
    requires
        state.valid(),
        state.may_use(list, slot),
    ensures
        state.link(list, slot, first).link(list, slot, second) == (ArenaState {
            dropped: state.link(list, slot, first).dropped.push(first),
            ..state.link(list, slot, second)
        }),
{
    assert(state.link(list, slot, first).link(list, slot, second) =~= (ArenaState {
        dropped: state.link(list, slot, first).dropped.push(first),
        ..state.link(list, slot, second)
    }));
}

/// Unlinking a slot that has just been linked takes back the link and drops the
/// waker.
pub proof fn law_unlink_undoes_link(state: ArenaState, list: usize, slot: usize, waker: Waker)
    requires
        state.valid(),
        state.may_use(list, slot),
        state.slots[slot] is None,
    ensures
        state.link(list, slot, waker).unlink(slot) == (ArenaState {
            dropped: state.dropped.push(waker),
            ..state
        }),
{
    let queue = state.lists[list].queue;
    let longer = queue.push(slot);
    assert(queue.contains(slot) <==> state.is_linked_to(slot, list));
    assert(longer[queue.len() as int] == slot);
    let j = longer.index_of(slot);
    assert(j == queue.len()) by {
        if j < queue.len() {
            assert(queue[j] == slot);
        }
    }
    assert(longer.remove(j) =~= queue);
    assert(state.link(list, slot, waker).unlink(slot) =~= (ArenaState {
        dropped: state.dropped.push(waker),
        ..state
    }));
}

/// An unlinked slot is in no queue. Unlinking it once more is a no-op.
pub proof fn law_unlink_unlinks(state: ArenaState, slot: usize, list: usize)
    requires
        state.valid(),
        state.slots.contains_key(slot),
        state.lists.contains_key(list),
    ensures
        state.unlink(slot).slots[slot] is None,
        !state.unlink(slot).lists[list].queue.contains(slot),
        state.unlink(slot).unlink(slot) == state.unlink(slot),
{
    law_unlink_keeps_valid(state, slot);
    let after = state.unlink(slot);
    assert(after.lists.contains_key(list));
    assert(after.lists[list].queue.contains(slot) <==> after.is_linked_to(slot, list));
}

/// Slots stand in a queue in the order in which they were linked: a slot joins
/// the queue behind all that are in it.
pub proof fn law_first_linked_first(
    state: ArenaState,
    list: usize,
    earlier: usize,
    later: usize,
    waker: Waker,
)
    requires
        state.valid(),
        state.may_use(list, later),
        state.slots[later] is None,
        state.is_linked_to(earlier, list),
    ensures
        ({
            let queue = state.link(list, later, waker).lists[list].queue;
            &&& queue.contains(earlier)
            &&& queue.contains(later)
            &&& queue.index_of(earlier) == state.lists[list].queue.index_of(earlier)
            &&& queue.index_of(earlier) < queue.index_of(later)
        }),
{
    law_link_keeps_valid(state, list, later, waker);
    let after = state.link(list, later, waker);
    let queue = state.lists[list].queue;
    let longer = after.lists[list].queue;
    assert(queue.contains(earlier) <==> state.is_linked_to(earlier, list));
    assert(queue.no_duplicates());
    assert(after.lists[list].queue.no_duplicates());
    let i = queue.index_of(earlier);
    assert(longer[i] == earlier);
    assert(longer[queue.len() as int] == later);
    assert(longer.index_of(earlier) == i);
    assert(longer.index_of(later) == queue.len());
}

/// Unlinking a slot leaves the others in their order.
pub proof fn law_unlink_keeps_order(state: ArenaState, slot: usize, list: usize)
    requires
        state.valid(),
        state.slots.contains_key(slot),
        state.lists.contains_key(list),
    ensures
        state.unlink(slot).lists[list].queue == state.lists[list].queue.filter(
            |s: usize| s != slot,
        ),
{
    let queue = state.lists[list].queue;
    let keep = |s: usize| s != slot;
    assert(queue.contains(slot) <==> state.is_linked_to(slot, list));
    assert(queue.no_duplicates());
    if queue.contains(slot) {
        let j = queue.index_of(slot);
        let front = queue.take(j);
        let back = queue.skip(j + 1);
        assert(queue =~= (front + seq![slot]) + back);
        Seq::filter_distributes_over_add(front + seq![slot], back, keep);
        Seq::filter_distributes_over_add(front, seq![slot], keep);
        lemma_filter_all(front, keep);
        lemma_filter_all(back, keep);
        assert(seq![slot].filter(keep) =~= Seq::empty()) by {
            reveal_with_fuel(Seq::<_>::filter, 2);
            assert(seq![slot].drop_last() =~= Seq::empty());
        }
        assert(queue.remove(j) =~= front + back);
        assert(front + Seq::<usize>::empty() =~= front);
    } else {
        assert forall|k: int| 0 <= k < queue.len() implies keep(#[trigger] queue[k]) by {
            assert(queue.contains(queue[k]));
        }
        lemma_filter_all(queue, keep);
    }
}

/// Filtering by what holds of every element keeps them all.
proof fn lemma_filter_all<A>(s: Seq<A>, pred: spec_fn(A) -> bool)
    requires
        forall|k: int| 0 <= k < s.len() ==> pred(#[trigger] s[k]),
    ensures
        s.filter(pred) == s,
    decreases s.len(),
{
    reveal(Seq::filter);
    if s.len() > 0 {
        lemma_filter_all(s.drop_last(), pred);
        assert(s.drop_last().push(s.last()) =~= s);
    }
}

/// A round that has just begun covers every slot that is linked.
pub proof fn law_round_covers_linked(state: ArenaState, list: usize)
    requires
        state.valid(),
        state.lists.contains_key(list),
        state.lists[list].generation < u64::MAX,
    ensures
        state.begin_extraction(list).due(list, state.lists[list].generation)
            == state.lists[list].queue,
{
    let round = state.lists[list].generation;
    let after = state.begin_extraction(list);
    let queue = state.lists[list].queue;
    let pred = |slot: usize| after.entry(slot).generation <= round;
    assert forall|k: int| 0 <= k < queue.len() implies pred(#[trigger] queue[k]) by {
        assert(state.entry(queue[k]).generation <= round);
    }
    lemma_filter_all(queue, pred);
}

/// Linking a slot after a round began, or relinking one, does not change which
/// slots the round has yet to extract.
pub proof fn law_link_keeps_due(
    state: ArenaState,
    list: usize,
    slot: usize,
    waker: Waker,
    round: u64,
)
    requires
        state.valid(),
        state.may_use(list, slot),
        round < state.lists[list].generation,
    ensures
        state.link(list, slot, waker).due(list, round) == state.due(list, round),
{
    let after = state.link(list, slot, waker);
    let queue = state.lists[list].queue;
    law_link_keeps_valid(state, list, slot, waker);
    state.lemma_due(list, round);
    after.lemma_due(list, round);
    let d = state.due(list, round).len() as int;
    let e = after.due(list, round).len() as int;
    assert(queue.contains(slot) <==> state.is_linked_to(slot, list));
    let longer = after.lists[list].queue;
    assert forall|k: int| 0 <= k < queue.len() implies (#[trigger] longer[k]) == queue[k]
        && after.entry(queue[k]).generation == state.entry(queue[k]).generation by {
        assert(queue.contains(queue[k]));
    }
    if d < e {
        assert(longer[d] == longer[d]);
        assert(after.entry(longer[d]).generation <= round);
        if d < queue.len() {
            assert(state.entry(queue[d]).generation > round);
        }
    }
    if e < d {
        assert(longer[e] == queue[e]);
        assert(state.entry(queue[e]).generation <= round);
        assert(after.entry(longer[e]).generation > round);
    }
    assert(queue.take(d) =~= longer.take(d));
}

/// A slot that was linked after a round began is not extracted in it.
pub proof fn law_later_link_not_due(
    state: ArenaState,
    list: usize,
    slot: usize,
    waker: Waker,
    round: u64,
)
    requires
        state.valid(),
        state.may_use(list, slot),
        state.slots[slot] is None,
        round < state.lists[list].generation,
    ensures
        !state.link(list, slot, waker).due(list, round).contains(slot),
{
    law_link_keeps_due(state, list, slot, waker, round);
    state.lemma_due(list, round);
    let queue = state.lists[list].queue;
    let due = state.due(list, round);
    assert(queue.contains(slot) <==> state.is_linked_to(slot, list));
    if due.contains(slot) {
        assert(queue[due.index_of(slot)] == slot);
    }
}

/// A slot that has been unlinked is not extracted, and all others that were due
/// still are, in the same order.
pub proof fn law_unlink_not_due(state: ArenaState, slot: usize, list: usize, round: u64)
    requires
        state.valid(),
        state.slots.contains_key(slot),
        state.lists.contains_key(list),
    ensures
        !state.unlink(slot).due(list, round).contains(slot),
        state.unlink(slot).due(list, round) == state.due(list, round).filter(
            |s: usize| s != slot,
        ),
{
    let after = state.unlink(slot);
    let queue = state.lists[list].queue;
    let keep = |s: usize| s != slot;
    let pred = |s: usize| state.entry(s).generation <= round;
    let pred_after = |s: usize| after.entry(s).generation <= round;
    law_unlink_keeps_order(state, slot, list);
    lemma_filter_commute(queue, pred, keep);
    let rest = queue.filter(keep);
    assert forall|k: int| 0 <= k < rest.len() implies pred(#[trigger] rest[k]) == pred_after(
        rest[k],
    ) by {
        queue.lemma_filter_pred(keep, k);
    }
    lemma_filter_same(rest, pred, pred_after);
    let due = state.due(list, round);
    assert forall|k: int| 0 <= k < due.filter(keep).len() implies #[trigger] due.filter(
        keep,
    )[k] != slot by {
        due.lemma_filter_pred(keep, k);
    }
}

/// Two filters can be applied in either order.
proof fn lemma_filter_commute<A>(s: Seq<A>, p: spec_fn(A) -> bool, q: spec_fn(A) -> bool)
    ensures
        s.filter(p).filter(q) == s.filter(q).filter(p),
    decreases s.len(),
{
    reveal(Seq::filter);
    if s.len() > 0 {
        let front = s.drop_last();
        lemma_filter_commute(front, p, q);
        let fp = front.filter(p);
        let fq = front.filter(q);
        assert(fp.push(s.last()).drop_last() =~= fp);
        assert(fq.push(s.last()).drop_last() =~= fq);
    }
}

/// Filters that agree on every element give the same.
proof fn lemma_filter_same<A>(s: Seq<A>, p: spec_fn(A) -> bool, q: spec_fn(A) -> bool)
    requires
        forall|k: int| 0 <= k < s.len() ==> p(#[trigger] s[k]) == q(s[k]),
    ensures
        s.filter(p) == s.filter(q),
    decreases s.len(),
{
    reveal(Seq::filter);
    if s.len() > 0 {
        let front = s.drop_last();
        assert forall|k: int| 0 <= k < front.len() implies p(#[trigger] front[k]) == q(
            front[k],
        ) by {
            assert(front[k] == s[k]);
        }
        lemma_filter_same(front, p, q);
        assert(p(s[s.len() - 1]) == q(s[s.len() - 1]));
    }
}

/// What was extracted is unlinked and every other slot is as it was.
pub proof fn law_extract_unlinks(state: ArenaState, list: usize, count: nat, slot: usize)
    requires
        state.valid(),
        state.lists.contains_key(list),
        count <= state.lists[list].queue.len(),
        state.slots.contains_key(slot),
    ensures
        ({
            let taken = state.lists[list].queue.take(count as int);
            let after = state.extract(list, count);
            &&& taken.contains(slot) ==> after.slots[slot] is None
            &&& !taken.contains(slot) ==> after.slots[slot] == state.slots[slot]
        }),
{
}

/// Extracting all wakers of a list releases every slot that is linked into it:
/// its waker is among those extracted, the slot is unlinked, and the list is
/// empty.
pub proof fn law_extracting_all_releases_all(state: ArenaState, list: usize, slot: usize)
    requires
        state.valid(),
        state.is_linked_to(slot, list),
    ensures
        ({
            let queue = state.lists[list].queue;
            let after = state.extract(list, queue.len());
            &&& state.wakers(queue).contains(state.entry(slot).waker)
            &&& after.slots[slot] is None
            &&& after.lists[list].queue.len() == 0
        }),
{
    let queue = state.lists[list].queue;
    assert(state.slots.contains_key(slot) && state.slots[slot] is Some);
    assert(queue.contains(slot) <==> state.is_linked_to(slot, list));
    let i = queue.index_of(slot);
    assert(state.wakers(queue)[i] == state.entry(slot).waker);
    assert(queue.take(queue.len() as int)[i] == slot);
}

/// A round goes on where it stopped: after `count` of the slots that were due
/// have been extracted, the others are due, in the same order and with the same
/// wakers. When all have been extracted, none is due.
pub proof fn law_extract_leaves_rest_due(
    state: ArenaState,
    list: usize,
    count: nat,
    round: u64,
)
    requires
        state.valid(),
        state.lists.contains_key(list),
        count <= state.due(list, round).len(),
    ensures
        state.extract(list, count).due(list, round) == state.due(list, round).skip(count as int),
        state.extract(list, count).wakers(state.due(list, round).skip(count as int))
            == state.wakers(state.due(list, round).skip(count as int)),
{
    let after = state.extract(list, count);
    let queue = state.lists[list].queue;
    let due = state.due(list, round);
    let rest = queue.skip(count as int);
    let n = count as int;
    state.lemma_due(list, round);
    law_extract_keeps_valid(state, list, count);
    after.lemma_due(list, round);
    assert(state.lists[list].queue.no_duplicates());
    assert forall|k: int| 0 <= k < rest.len() implies #[trigger] after.entry(rest[k])
        == state.entry(rest[k]) by {
        assert(rest[k] == queue[k + n]);
        assert(queue.contains(rest[k]));
        assert(state.is_linked_to(rest[k], list));
        assert(!queue.take(n).contains(rest[k])) by {
            if queue.take(n).contains(rest[k]) {
                let i = queue.take(n).index_of(rest[k]);
                assert(queue[i] == queue[k + n]);
            }
        }
    }
    let d = due.len() - n;
    let e = after.due(list, round).len() as int;
    if d < e {
        assert(after.entry(rest[d]).generation <= round);
        assert(state.entry(queue[d + n]).generation > round);
    }
    if e < d {
        assert(after.entry(rest[e]).generation > round);
        assert(state.entry(queue[e + n]).generation <= round);
    }
    assert(due.skip(n) =~= rest.take(d));
    assert(after.wakers(due.skip(n)) =~= state.wakers(due.skip(n))) by {
        assert forall|k: int| 0 <= k < due.skip(n).len() implies after.entry(
            #[trigger] due.skip(n)[k],
        ).waker == state.entry(due.skip(n)[k]).waker by {
            assert(due.skip(n)[k] == rest[k]);
        }
    }
}

/// Extracting in two steps is extracting in one.
pub proof fn law_extract_in_steps(state: ArenaState, list: usize, first: nat, second: nat)
    requires
        state.valid(),
        state.lists.contains_key(list),
        first + second <= state.lists[list].queue.len(),
    ensures
        state.extract(list, first).extract(list, second) == state.extract(list, first + second),
    decreases second,
{
    let middle = state.extract(list, first);
    law_extract_keeps_valid(state, list, first);
    if second == 0 {
        middle.lemma_extract_none(list);
    } else {
        let fewer = (second - 1) as nat;
        law_extract_in_steps(state, list, first, fewer);
        middle.lemma_extract_step(list, fewer);
        state.lemma_extract_step(list, first + fewer);
    }
}

/// The state after `calls` extractions in a round, each into an emptied set,
/// and the wakers that they gave.
pub open spec fn after_calls(state: ArenaState, list: usize, round: u64, calls: nat) -> (
    ArenaState,
    Seq<Waker>,
)
    decreases calls,
{
    if calls == 0 {
        (state, Seq::empty())
    } else {
        let (before, woken) = after_calls(state, list, round, (calls - 1) as nat);
        let due = before.due(list, round);
        let count = least(due.len(), room(0));
        (before.extract(list, count), woken + before.wakers(due.take(count as int)))
    }
}

/// Extracting repeatedly gives the wakers that are due, each once and the
/// longest linked first, as many at a time as fit into a set; and the last of
/// the calls announces more exactly if wakers are left. So a loop that extracts
/// until no more are announced ends with the first call by which all that are
/// due have been extracted.
pub proof fn law_round_extracts_all(state: ArenaState, list: usize, round: u64, calls: nat)
    requires
        state.valid(),
        state.lists.contains_key(list),
    ensures
        ({
            let due = state.due(list, round);
            let count = least(due.len(), calls * EXTRACT_CAPACITY as nat);
            let (after, woken) = after_calls(state, list, round, calls);
            &&& after == state.extract(list, count)
            &&& woken == state.wakers(due.take(count as int))
            &&& after.due(list, round) == due.skip(count as int)
            &&& calls > 0 ==> (after_calls(state, list, round, (calls - 1) as nat).0.due(
                list,
                round,
            ).len() > room(0) <==> due.len() > calls * EXTRACT_CAPACITY as nat)
        }),
    decreases calls,
{
    let due = state.due(list, round);
    let cap = EXTRACT_CAPACITY as nat;
    state.lemma_due(list, round);
    if calls == 0 {
        state.lemma_extract_none(list);
        assert(state.wakers(due.take(0)) =~= Seq::<Waker>::empty());
        assert(due.skip(0) =~= due);
    } else {
        let fewer = (calls - 1) as nat;
        law_round_extracts_all(state, list, round, fewer);
        let done = least(due.len(), fewer * cap);
        let count = least(due.len(), calls * cap);
        let (before, woken) = after_calls(state, list, round, fewer);
        let left = due.skip(done as int);
        let step = least(left.len(), room(0));
        assert(calls * cap == fewer * cap + cap) by (nonlinear_arith)
            requires
                calls == fewer + 1,
        ;
        assert(done + step == count);
        law_extract_leaves_rest_due(state, list, done, round);
        law_extract_leaves_rest_due(state, list, count, round);
        law_extract_in_steps(state, list, done, step);
        let batch = left.take(step as int);
        assert(before.wakers(batch) =~= before.wakers(left).take(step as int));
        assert(state.wakers(batch) =~= state.wakers(left).take(step as int));
        assert(state.wakers(due.take(count as int)) =~= state.wakers(due.take(done as int))
            + state.wakers(batch));
    }
}

/// Beginning another round does not change which slots a round that began
/// before has yet to extract.
pub proof fn law_begin_extraction_keeps_due(
    state: ArenaState,
    list: usize,
    other: usize,
    round: u64,
)
    requires
        state.valid(),
        state.lists.contains_key(list),
        state.lists.contains_key(other),
        state.lists[other].generation < u64::MAX,
    ensures
        state.begin_extraction(other).due(list, round) == state.due(list, round),
{
    let after = state.begin_extraction(other);
    let queue = state.lists[list].queue;
    lemma_filter_same(
        queue,
        |slot: usize| after.entry(slot).generation <= round,
        |slot: usize| state.entry(slot).generation <= round,
    );
}

/// The slots that a round covers are the first of those that a later round
/// covers.
pub proof fn law_later_round_covers_more(state: ArenaState, list: usize, round: u64, later: u64)
    requires
        state.valid(),
        state.lists.contains_key(list),
        round <= later,
    ensures
        state.due(list, round).is_prefix_of(state.due(list, later)),
{
    let queue = state.lists[list].queue;
    state.lemma_due(list, round);
    state.lemma_due(list, later);
    let d = state.due(list, round).len() as int;
    let e = state.due(list, later).len() as int;
    if e < d {
        assert(state.entry(queue[e]).generation <= round);
    }
    assert(queue.take(d) =~= queue.take(e).take(d));
}

/// List `list` and what slot `slot` holds are the same in both states.
pub open spec fn untouched(
    before: ArenaState,
    after: ArenaState,
    list: usize,
    slot: usize,
) -> bool {
    &&& after.lists.contains_key(list)
    &&& after.lists[list] == before.lists[list]
    &&& after.slots.contains_key(slot)
    &&& after.slots[slot] == before.slots[slot]
}

/// What is done with one list leaves every other list as it is, and the slots
/// linked into it.
pub proof fn law_other_lists_untouched(
    state: ArenaState,
    list: usize,
    slot: usize,
    waker: Waker,
    count: nat,
    other: usize,
    other_slot: usize,
)
    requires
        state.valid(),
        state.may_use(list, slot),
        count <= state.lists[list].queue.len(),
        other != list,
        state.lists.contains_key(other),
        state.is_linked_to(other_slot, other),
    ensures
        untouched(state, state.link(list, slot, waker), other, other_slot),
        untouched(state, state.unlink(slot), other, other_slot),
        untouched(state, state.begin_extraction(list), other, other_slot),
        untouched(state, state.extract(list, count), other, other_slot),
{
    let queue = state.lists[list].queue;
    if queue.take(count as int).contains(other_slot) {
        let i = queue.take(count as int).index_of(other_slot);
        assert(queue[i] == other_slot);
        assert(queue.contains(other_slot));
        assert(state.is_linked_to(other_slot, list));
    }
}

/// Pinning a list keeps a state valid.
pub proof fn law_pin_list_keeps_valid(state: ArenaState, addr: usize, generation: u64)
    requires
        state.valid(),
        state.unused(addr),
    ensures
        state.pin_list(addr, generation).valid(),
{
    let after = state.pin_list(addr, generation);
    assert forall|l: usize, s: usize| after.lists.contains_key(l) implies (
    #[trigger] after.lists[l].queue.contains(s) <==> after.is_linked_to(s, l)) by {
        if l != addr {
            assert(state.lists[l].queue.contains(s) <==> state.is_linked_to(s, l));
        } else if state.is_linked_to(s, addr) {
            assert(state.slots.contains_key(s));
        }
    }
    assert forall|l: usize| after.lists.contains_key(
        l,
    ) implies #[trigger] after.lists[l].queue.no_duplicates() by {
        assert(l != addr ==> state.lists[l].queue.no_duplicates());
    }
    assert forall|l: usize, i: int, j: int|
        after.lists.contains_key(l) && 0 <= i <= j < after.lists[l].queue.len() implies (
    #[trigger] after.entry(after.lists[l].queue[i])).generation <= (#[trigger] after.entry(
        after.lists[l].queue[j],
    )).generation <= after.lists[l].generation by {
        assert(state.entry(state.lists[l].queue[i]).generation <= state.entry(
            state.lists[l].queue[j],
        ).generation);
    }
}

/// Dropping an empty list keeps a state valid.
pub proof fn law_drop_list_keeps_valid(state: ArenaState, addr: usize)
    requires
        state.valid(),
        state.lists.contains_key(addr),
        state.lists[addr].queue.len() == 0,
    ensures
        state.drop_list(addr).valid(),
{
    let after = state.drop_list(addr);
    assert forall|l: usize, s: usize| after.lists.contains_key(l) implies (
    #[trigger] after.lists[l].queue.contains(s) <==> after.is_linked_to(s, l)) by {
        assert(state.lists[l].queue.contains(s) <==> state.is_linked_to(s, l));
    }
    assert forall|l: usize| after.lists.contains_key(
        l,
    ) implies #[trigger] after.lists[l].queue.no_duplicates() by {
        assert(state.lists[l].queue.no_duplicates());
    }
    assert forall|s: usize| #[trigger]
        after.slots.contains_key(s) && after.slots[s] is Some implies after.lists.contains_key(
        after.entry(s).list,
    ) by {
        assert(state.slots.contains_key(s));
        assert(state.lists[addr].queue.contains(s) <==> state.is_linked_to(s, addr));
    }
    assert forall|l: usize, i: int, j: int|
        after.lists.contains_key(l) && 0 <= i <= j < after.lists[l].queue.len() implies (
    #[trigger] after.entry(after.lists[l].queue[i])).generation <= (#[trigger] after.entry(
        after.lists[l].queue[j],
    )).generation <= after.lists[l].generation by {
        assert(state.entry(state.lists[l].queue[i]).generation <= state.entry(
            state.lists[l].queue[j],
        ).generation);
    }
}

/// A state stays valid when an unlinked slot comes or goes.
proof fn lemma_unlinked_slot_keeps_valid(state: ArenaState, addr: usize, after: ArenaState)
    requires
        state.valid(),
        !state.lists.contains_key(addr),
        state.slots.contains_key(addr) ==> state.slots[addr] is None,
        after.lists == state.lists,
        after.slots == state.slots.insert(addr, None) || after.slots == state.slots.remove(addr),
    ensures
        after.valid(),
{
    assert forall|l: usize, s: usize| after.lists.contains_key(l) implies (
    #[trigger] after.lists[l].queue.contains(s) <==> after.is_linked_to(s, l)) by {
        assert(state.lists[l].queue.contains(s) <==> state.is_linked_to(s, l));
    }
    assert forall|l: usize| after.lists.contains_key(
        l,
    ) implies #[trigger] after.lists[l].queue.no_duplicates() by {
        assert(state.lists[l].queue.no_duplicates());
    }
    assert forall|s: usize| #[trigger]
        after.slots.contains_key(s) && after.slots[s] is Some implies after.lists.contains_key(
        after.entry(s).list,
    ) by {
        assert(state.slots.contains_key(s));
    }
    assert forall|l: usize, i: int, j: int|
        after.lists.contains_key(l) && 0 <= i <= j < after.lists[l].queue.len() implies (
    #[trigger] after.entry(after.lists[l].queue[i])).generation <= (#[trigger] after.entry(
        after.lists[l].queue[j],
    )).generation <= after.lists[l].generation by {
        let queue = state.lists[l].queue;
        assert(queue.contains(queue[i]) && queue.contains(queue[j]));
        assert(state.is_linked_to(queue[i], l) && state.is_linked_to(queue[j], l));
        assert(state.entry(queue[i]).generation <= state.entry(queue[j]).generation);
    }
}

/// Pinning a slot keeps a state valid.
pub proof fn law_pin_slot_keeps_valid(state: ArenaState, addr: usize)
    requires
        state.valid(),
        state.unused(addr),
    ensures
        state.pin_slot(addr).valid(),
{
    lemma_unlinked_slot_keeps_valid(state, addr, state.pin_slot(addr));
}

/// Dropping an unlinked slot keeps a state valid.
pub proof fn law_drop_slot_keeps_valid(state: ArenaState, addr: usize)
    requires
        state.valid(),
        state.slots.contains_key(addr),
        state.slots[addr] is None,
    ensures
        state.drop_slot(addr).valid(),
{
    lemma_unlinked_slot_keeps_valid(state, addr, state.drop_slot(addr));
}

} // verus!
