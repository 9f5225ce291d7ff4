use std::sync::Arc;
use std::sync::Mutex;
use std::task::Wake;
use std::task::Waker;
use wakerset::Arena;
use wakerset::ExtractedWakers;
use wakerset::WakerList;
use wakerset::WakerSlot;
use wakerset::EXTRACT_CAPACITY;

/// Writes its number into a shared record when woken.
struct Recorder {
    record: Arc<Mutex<Vec<u32>>>,
    number: u32,
}

impl Wake for Recorder {
    fn wake(self: Arc<Self>) {
        self.record.lock().unwrap().push(self.number);
    }
}

/// An arena with lists, and a record of what was woken.
struct Fixture {
    arena: Arena,
    list: usize,
    record: Arc<Mutex<Vec<u32>>>,
}

impl Fixture {
    fn new() -> Fixture {
        let mut arena = Arena::new();
        let list = arena.pin_list(WakerList::new());
        Fixture {
            arena,
            list,
            record: Arc::new(Mutex::new(Vec::new())),
        }
    }

    fn waker(&self, number: u32) -> Waker {
        Waker::from(Arc::new(Recorder {
            record: self.record.clone(),
            number,
        }))
    }

    /// Pins a slot and links it with a waker of the given number.
    fn link_new(&mut self, number: u32) -> usize {
        let slot = self.arena.pin_slot(WakerSlot::new());
        self.link(slot, number);
        slot
    }

    fn link(&mut self, slot: usize, number: u32) {
        let waker = self.waker(number);
        WakerList::link(&mut self.arena, self.list, slot, waker);
    }

    fn unlink(&mut self, slot: usize) {
        WakerList::unlink(&mut self.arena, self.list, slot);
    }

    /// Runs a whole round. Gives the number of wakers woken by each call.
    fn run_round(&mut self) -> Vec<usize> {
        let round = WakerList::begin_extraction(&mut self.arena, self.list);
        let mut wakers = ExtractedWakers::new();
        let mut calls = Vec::new();
        loop {
            let before = self.record.lock().unwrap().len();
            let more =
                WakerList::extract_some_wakers(&mut self.arena, self.list, round, &mut wakers);
            wakers.wake_all();
            calls.push(self.record.lock().unwrap().len() - before);
            if !more {
                return calls;
            }
        }
    }

    fn woken(&self) -> Vec<u32> {
        self.record.lock().unwrap().clone()
    }
}

#[test]
fn wakes_in_link_order() {
    let mut f = Fixture::new();
    f.link_new(1);
    f.link_new(2);
    f.link_new(3);
    assert_eq!(vec![3], f.run_round());
    assert_eq!(vec![1, 2, 3], f.woken());
}

#[test]
fn relink_keeps_place() {
    let mut f = Fixture::new();
    let first = f.link_new(1);
    f.link_new(2);
    f.link(first, 3);
    assert_eq!(vec![2], f.run_round());
    assert_eq!(vec![3, 2], f.woken());
}

#[test]
fn unlink_undoes_link() {
    let mut f = Fixture::new();
    f.link_new(1);
    let slot = f.link_new(2);
    f.unlink(slot);
    assert!(!f.arena.slot(slot).is_linked());
    f.run_round();
    assert_eq!(vec![1], f.woken());
}

#[test]
fn unlink_head_middle_and_tail() {
    for gone in 0..3 {
        let mut f = Fixture::new();
        let slots = [f.link_new(0), f.link_new(1), f.link_new(2)];
        f.unlink(slots[gone]);
        f.link_new(3);
        f.run_round();
        let expected: Vec<u32> = match gone {
            0 => vec![1, 2, 3],
            1 => vec![0, 2, 3],
            _ => vec![0, 1, 3],
        };
        assert_eq!(expected, f.woken());
    }
}

#[test]
fn unlink_and_link_moves_to_back() {
    let mut f = Fixture::new();
    let first = f.link_new(1);
    f.link_new(2);
    f.unlink(first);
    f.link(first, 1);
    f.run_round();
    assert_eq!(vec![2, 1], f.woken());
}

#[test]
fn list_is_usable_again_once_emptied() {
    let mut f = Fixture::new();
    assert!(WakerList::is_empty(&f.arena, f.list));
    let slot = f.link_new(1);
    assert!(!WakerList::is_empty(&f.arena, f.list));
    f.unlink(slot);
    assert!(WakerList::is_empty(&f.arena, f.list));
    assert_eq!(vec![0], f.run_round());
    f.link(slot, 2);
    assert_eq!(vec![1], f.run_round());
    assert_eq!(vec![2], f.woken());
    assert!(WakerList::is_empty(&f.arena, f.list));
}

#[test]
fn a_round_takes_as_few_calls_as_possible() {
    assert_eq!(7, EXTRACT_CAPACITY);
    let expected: [(u32, Vec<usize>); 7] = [
        (0, vec![0]),
        (1, vec![1]),
        (7, vec![7]),
        (8, vec![7, 1]),
        (14, vec![7, 7]),
        (15, vec![7, 7, 1]),
        (20, vec![7, 7, 6]),
    ];
    for (linked, calls) in expected {
        let mut f = Fixture::new();
        for number in 0..linked {
            f.link_new(number);
        }
        assert_eq!(calls, f.run_round());
        let all: Vec<u32> = (0..linked).collect();
        assert_eq!(all, f.woken());
    }
}

#[test]
fn extracted_slots_are_unlinked() {
    let mut f = Fixture::new();
    let slots: Vec<usize> = (0..8).map(|number| f.link_new(number)).collect();
    let round = WakerList::begin_extraction(&mut f.arena, f.list);
    let mut wakers = ExtractedWakers::new();
    assert!(WakerList::extract_some_wakers(&mut f.arena, f.list, round, &mut wakers));
    for slot in &slots[..7] {
        assert!(!f.arena.slot(*slot).is_linked());
        assert_eq!(None, f.arena.slot(*slot).list());
    }
    assert!(f.arena.slot(slots[7]).is_linked());
    // Nothing has been woken yet.
    assert!(f.woken().is_empty());
    wakers.wake_all();
    assert_eq!(vec![0, 1, 2, 3, 4, 5, 6], f.woken());
}

#[test]
fn unlinking_during_a_round_keeps_the_waker_from_being_woken() {
    let mut f = Fixture::new();
    let slots: Vec<usize> = (0..9).map(|number| f.link_new(number)).collect();
    let round = WakerList::begin_extraction(&mut f.arena, f.list);
    let mut wakers = ExtractedWakers::new();
    assert!(WakerList::extract_some_wakers(&mut f.arena, f.list, round, &mut wakers));
    wakers.wake_all();
    f.unlink(slots[7]);
    assert!(!WakerList::extract_some_wakers(&mut f.arena, f.list, round, &mut wakers));
    wakers.wake_all();
    assert_eq!(vec![0, 1, 2, 3, 4, 5, 6, 8], f.woken());
}

#[test]
fn relinking_during_a_round_keeps_the_slot_in_it() {
    let mut f = Fixture::new();
    let slots: Vec<usize> = (0..8).map(|number| f.link_new(number)).collect();
    let round = WakerList::begin_extraction(&mut f.arena, f.list);
    f.link(slots[0], 100);
    f.link_new(200);
    let mut wakers = ExtractedWakers::new();
    assert!(WakerList::extract_some_wakers(&mut f.arena, f.list, round, &mut wakers));
    wakers.wake_all();
    assert!(!WakerList::extract_some_wakers(&mut f.arena, f.list, round, &mut wakers));
    wakers.wake_all();
    assert_eq!(vec![100, 1, 2, 3, 4, 5, 6, 7], f.woken());
    assert!(!WakerList::is_empty(&f.arena, f.list));
}

#[test]
fn a_later_round_covers_what_an_earlier_one_left() {
    let mut f = Fixture::new();
    f.link_new(1);
    let earlier = WakerList::begin_extraction(&mut f.arena, f.list);
    f.link_new(2);
    let later = WakerList::begin_extraction(&mut f.arena, f.list);
    f.link_new(3);
    assert_eq!(2, f.arena.list(f.list).generation());
    let mut wakers = ExtractedWakers::new();
    assert!(!WakerList::extract_some_wakers(&mut f.arena, f.list, earlier, &mut wakers));
    wakers.wake_all();
    assert_eq!(vec![1], f.woken());
    assert!(!WakerList::extract_some_wakers(&mut f.arena, f.list, earlier, &mut wakers));
    assert!(wakers.is_empty());
    assert!(!WakerList::extract_some_wakers(&mut f.arena, f.list, later, &mut wakers));
    wakers.wake_all();
    assert_eq!(vec![1, 2], f.woken());
}

#[test]
fn a_set_that_is_not_empty_is_filled_up() {
    let mut f = Fixture::new();
    for number in 0..3 {
        f.link_new(number);
    }
    let mut wakers = ExtractedWakers::new();
    let round = WakerList::begin_extraction(&mut f.arena, f.list);
    assert!(!WakerList::extract_some_wakers(&mut f.arena, f.list, round, &mut wakers));
    for number in 3..9 {
        f.link_new(number);
    }
    let round = WakerList::begin_extraction(&mut f.arena, f.list);
    // Four more fit.
    assert!(WakerList::extract_some_wakers(&mut f.arena, f.list, round, &mut wakers));
    // None fits any more.
    assert!(WakerList::extract_some_wakers(&mut f.arena, f.list, round, &mut wakers));
    wakers.wake_all();
    assert!(wakers.is_empty());
    assert_eq!(vec![0, 1, 2, 3, 4, 5, 6], f.woken());
    assert!(!WakerList::extract_some_wakers(&mut f.arena, f.list, round, &mut wakers));
    wakers.wake_all();
    assert_eq!(vec![0, 1, 2, 3, 4, 5, 6, 7, 8], f.woken());
}

#[test]
fn extract_first_wakers_takes_what_fits() {
    let mut f = Fixture::new();
    let (wakers, more) = WakerList::extract_first_wakers(&mut f.arena, f.list);
    assert!(wakers.is_empty());
    assert!(!more);
    for number in 0..9 {
        f.link_new(number);
    }
    let (wakers, more) = WakerList::extract_first_wakers(&mut f.arena, f.list);
    assert!(more);
    wakers.notify_all();
    assert_eq!(vec![0, 1, 2, 3, 4, 5, 6], f.woken());
    let (wakers, more) = WakerList::extract_first_wakers(&mut f.arena, f.list);
    assert!(!more);
    wakers.notify_all();
    assert_eq!(vec![0, 1, 2, 3, 4, 5, 6, 7, 8], f.woken());
    assert_eq!(0, f.arena.list(f.list).generation());
}

#[test]
fn extract_wakers_takes_all_that_are_linked() {
    for linked in [0, 1, 7, 8, 15, 40] {
        let mut f = Fixture::new();
        let slots: Vec<usize> = (0..linked).map(|number| f.link_new(number)).collect();
        let wakers = WakerList::extract_wakers(&mut f.arena, f.list);
        assert!(WakerList::is_empty(&f.arena, f.list));
        for slot in slots {
            assert!(!f.arena.slot(slot).is_linked());
        }
        // Nothing has been woken yet.
        assert!(f.woken().is_empty());
        wakers.notify_all();
        let all: Vec<u32> = (0..linked).collect();
        assert_eq!(all, f.woken());
        assert_eq!(1, Arc::strong_count(&f.record));
        assert_eq!(0, f.arena.list(f.list).generation());
    }
}

#[test]
fn extract_wakers_takes_what_a_round_left() {
    let mut f = Fixture::new();
    for number in 0..9 {
        f.link_new(number);
    }
    let round = WakerList::begin_extraction(&mut f.arena, f.list);
    f.link_new(9);
    let mut first = ExtractedWakers::new();
    assert!(WakerList::extract_some_wakers(&mut f.arena, f.list, round, &mut first));
    let rest = WakerList::extract_wakers(&mut f.arena, f.list);
    assert!(!WakerList::extract_some_wakers(&mut f.arena, f.list, round, &mut first));
    rest.notify_all();
    assert_eq!(vec![7, 8, 9], f.woken());
    first.notify_all();
    assert_eq!(vec![7, 8, 9, 0, 1, 2, 3, 4, 5, 6], f.woken());
}

#[test]
fn dropping_drained_wakers_wakes_nobody() {
    let mut f = Fixture::new();
    f.link_new(1);
    drop(WakerList::extract_wakers(&mut f.arena, f.list));
    assert!(f.woken().is_empty());
    assert_eq!(1, Arc::strong_count(&f.record));
}

#[test]
fn dropping_a_set_wakes_nobody() {
    let mut f = Fixture::new();
    f.link_new(1);
    let (wakers, _) = WakerList::extract_first_wakers(&mut f.arena, f.list);
    drop(wakers);
    assert!(f.woken().is_empty());
    assert_eq!(1, Arc::strong_count(&f.record));
}

#[test]
fn lists_do_not_disturb_one_another() {
    let mut f = Fixture::new();
    let other = f.arena.pin_list(WakerList::new());
    let a = f.link_new(1);
    let b = f.arena.pin_slot(WakerSlot::new());
    let waker = f.waker(2);
    WakerList::link(&mut f.arena, other, b, waker);
    f.link_new(3);
    assert_eq!(Some(f.list), f.arena.slot(a).list());
    assert_eq!(Some(other), f.arena.slot(b).list());
    f.unlink(a);
    assert_eq!(vec![1], f.run_round());
    assert_eq!(vec![3], f.woken());
    assert!(f.arena.slot(b).is_linked());
    assert_eq!(0, f.arena.list(other).generation());
    f.list = other;
    assert_eq!(vec![1], f.run_round());
    assert_eq!(vec![3, 2], f.woken());
}

#[test]
fn an_unlinked_slot_can_join_another_list() {
    let mut f = Fixture::new();
    let slot = f.link_new(1);
    f.unlink(slot);
    let other = f.arena.pin_list(WakerList::new());
    f.list = other;
    f.link(slot, 2);
    assert_eq!(Some(other), f.arena.slot(slot).list());
    f.run_round();
    assert_eq!(vec![2], f.woken());
}

#[test]
fn dropped_addresses_are_given_out_again() {
    let mut arena = Arena::new();
    let list = arena.pin_list(WakerList::default());
    let slot = arena.pin_slot(WakerSlot::default());
    assert!(list != slot);
    assert!(arena.has_list(list) && !arena.has_slot(list));
    assert!(arena.has_slot(slot) && !arena.has_list(slot));
    WakerSlot::drop(&mut arena, slot);
    assert!(!arena.has_slot(slot));
    assert_eq!(slot, arena.pin_list(WakerList::new()));
    assert!(arena.has_list(slot));
    WakerList::drop(&mut arena, list);
    assert!(!arena.has_list(list));
    assert!(!arena.has_slot(1000) && !arena.has_list(1000));
}

#[test]
fn every_waker_is_linked_dropped_or_woken() {
    let mut f = Fixture::new();
    let a = f.link_new(1);
    let b = f.link_new(2);
    f.link_new(3);
    // One reference is the fixture's.
    assert_eq!(4, Arc::strong_count(&f.record));
    // The first waker is replaced: dropped and not woken.
    f.link(a, 4);
    assert_eq!(4, Arc::strong_count(&f.record));
    // The second is unlinked: dropped and not woken.
    f.unlink(b);
    assert_eq!(3, Arc::strong_count(&f.record));
    f.unlink(b);
    assert_eq!(3, Arc::strong_count(&f.record));
    assert!(f.woken().is_empty());
    assert_eq!(vec![2], f.run_round());
    assert_eq!(vec![4, 3], f.woken());
    assert_eq!(1, Arc::strong_count(&f.record));
}

#[test]
fn wakers_of_several_lists_are_linked_dropped_or_woken() {
    let mut f = Fixture::new();
    let first = f.list;
    let second = f.arena.pin_list(WakerList::new());
    let a = f.link_new(1);
    f.link_new(2);
    f.list = second;
    let b = f.link_new(3);
    f.link_new(4);
    // One reference is the fixture's.
    assert_eq!(5, Arc::strong_count(&f.record));
    // One waker of the second list is unlinked, one of the first replaced.
    f.unlink(b);
    assert_eq!(4, Arc::strong_count(&f.record));
    f.list = first;
    f.link(a, 5);
    assert_eq!(4, Arc::strong_count(&f.record));
    // A slot that left one list joins the other.
    f.link(b, 6);
    assert_eq!(5, Arc::strong_count(&f.record));
    WakerList::extract_wakers(&mut f.arena, first).notify_all();
    assert_eq!(vec![5, 2, 6], f.woken());
    assert_eq!(2, Arc::strong_count(&f.record));
    // An emptied list goes; the other still holds its waker.
    WakerList::drop(&mut f.arena, first);
    WakerSlot::drop(&mut f.arena, b);
    WakerList::extract_wakers(&mut f.arena, second).notify_all();
    assert_eq!(vec![5, 2, 6, 4], f.woken());
    assert_eq!(1, Arc::strong_count(&f.record));
}

#[test]
fn an_arena_tells_whether_a_slot_is_linked() {
    let mut f = Fixture::new();
    assert!(!f.arena.has_linked_slot());
    let a = f.link_new(1);
    let b = f.arena.pin_slot(WakerSlot::new());
    assert!(f.arena.has_linked_slot());
    f.unlink(a);
    assert!(!f.arena.has_linked_slot());
    f.link(b, 2);
    assert!(f.arena.has_linked_slot());
    f.run_round();
    assert!(!f.arena.has_linked_slot());
}
