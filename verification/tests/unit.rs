use core::mem;
use std::sync::atomic::AtomicU64;
use std::sync::atomic::Ordering;
use std::sync::Arc;
use std::task::Waker;
use wakerset::Arena;
use wakerset::ExtractedWakers;
use wakerset::WakerList;
use wakerset::WakerSlot;

struct Task {
    wake_count: AtomicU64,
}

impl Task {
    fn new() -> Arc<Self> {
        Arc::new(Self {
            wake_count: AtomicU64::new(0),
        })
    }

    fn waker(self: &Arc<Self>) -> Waker {
        self.clone().into()
    }

    fn wake_count(&self) -> u64 {
        self.wake_count.load(Ordering::Acquire)
    }
}

impl std::task::Wake for Task {
    fn wake(self: Arc<Self>) {
        self.wake_count.fetch_add(1, Ordering::AcqRel);
    }
}

/// Returns the number of calls needed to wake all wakers.
fn wake_all(arena: &mut Arena, list: usize) -> u64 {
    let round = WakerList::begin_extraction(arena, list);
    let mut wakers = ExtractedWakers::new();
    let mut count: u64 = 0;
    let mut more = true;
    while more {
        more = WakerList::extract_some_wakers(arena, list, round, &mut wakers);
        wakers.wake_all();
        count += 1;
    }
    count
}

/// Pins `n` slots and links each of them with a waker of the task.
fn link_slots(arena: &mut Arena, list: usize, task: &Arc<Task>, n: usize) -> Vec<usize> {
    let mut slots = Vec::new();
    for _ in 0..n {
        let slot = arena.pin_slot(WakerSlot::new());
        WakerList::link(arena, list, slot, task.waker());
        slots.push(slot);
    }
    slots
}

fn is_send<T: Send>() -> bool {
    true
}

/// The call of `check` in `marker_traits` is ambiguous, and does not compile,
/// for a type that has the trait in question.
trait NotSync<Marker> {
    fn check() -> bool {
        true
    }
}

struct IsSync;

impl<T: ?Sized> NotSync<()> for T {}

impl<T: ?Sized + Sync> NotSync<IsSync> for T {}

trait NotUnpin<Marker> {
    fn check() -> bool {
        true
    }
}

struct IsUnpin;

impl<T: ?Sized> NotUnpin<()> for T {}

impl<T: ?Sized + Unpin> NotUnpin<IsUnpin> for T {}

#[test]
fn marker_traits() {
    assert!(is_send::<WakerList>());
    assert!(is_send::<WakerSlot>());
    assert!(<WakerList as NotSync<_>>::check());
    assert!(<WakerList as NotUnpin<_>>::check());
    assert!(<WakerSlot as NotSync<_>>::check());
    assert!(<WakerSlot as NotUnpin<_>>::check());
}

#[test]
fn new_and_drop() {
    let list = WakerList::new();
    drop(list);
}

#[test]
fn count_task_wakes() {
    let task = Task::new();
    let waker = task.waker();
    assert_eq!(0, task.wake_count());
    waker.wake();
    assert_eq!(1, task.wake_count());
}

#[test]
fn link_and_wake_all() {
    let task = Task::new();

    let mut arena = Arena::new();
    let list = arena.pin_list(WakerList::new());
    let slot = arena.pin_slot(WakerSlot::new());
    WakerList::link(&mut arena, list, slot, task.waker());
    assert_eq!(1, wake_all(&mut arena, list));

    assert_eq!(1, task.wake_count());
}

#[test]
fn link_and_wake_all_two_tasks() {
    let task = Task::new();

    let mut arena = Arena::new();
    let list = arena.pin_list(WakerList::new());
    let slot1 = arena.pin_slot(WakerSlot::new());
    let slot2 = arena.pin_slot(WakerSlot::new());
    WakerList::link(&mut arena, list, slot1, task.waker());
    WakerList::link(&mut arena, list, slot2, task.waker());
    assert_eq!(1, wake_all(&mut arena, list));

    assert_eq!(2, task.wake_count());
}

#[test]
fn unlink() {
    let task = Task::new();

    let mut arena = Arena::new();
    let list = arena.pin_list(WakerList::new());
    let slot1 = arena.pin_slot(WakerSlot::new());
    assert!(!arena.slot(slot1).is_linked());
    WakerList::link(&mut arena, list, slot1, task.waker());
    assert!(arena.slot(slot1).is_linked());
    WakerList::unlink(&mut arena, list, slot1);
    assert!(!arena.slot(slot1).is_linked());

    assert_eq!(1, wake_all(&mut arena, list));
    assert_eq!(0, task.wake_count());
}

#[test]
fn unlink_and_relink() {
    let task = Task::new();

    let mut arena = Arena::new();
    let list = arena.pin_list(WakerList::new());
    let slot1 = arena.pin_slot(WakerSlot::new());
    assert!(!arena.slot(slot1).is_linked());
    WakerList::link(&mut arena, list, slot1, task.waker());
    assert!(arena.slot(slot1).is_linked());
    WakerList::unlink(&mut arena, list, slot1);
    assert!(!arena.slot(slot1).is_linked());

    assert_eq!(1, wake_all(&mut arena, list));
    assert_eq!(0, task.wake_count());

    WakerList::link(&mut arena, list, slot1, task.waker());
    assert!(arena.slot(slot1).is_linked());

    assert_eq!(1, wake_all(&mut arena, list));
    assert_eq!(1, task.wake_count());
}

#[test]
fn unlink_slot_drops_waker() {
    let task = Task::new();
    let mut arena = Arena::new();
    let list = arena.pin_list(WakerList::new());
    let slot1 = arena.pin_slot(WakerSlot::new());
    let slot2 = arena.pin_slot(WakerSlot::new());
    WakerList::link(&mut arena, list, slot1, task.waker());
    WakerList::link(&mut arena, list, slot2, task.waker());
    assert_eq!(3, Arc::strong_count(&task));
    WakerList::unlink(&mut arena, list, slot1);
    assert_eq!(2, Arc::strong_count(&task));
    WakerList::unlink(&mut arena, list, slot2);
    assert_eq!(1, Arc::strong_count(&task));
    assert_eq!(0, task.wake_count());
}

#[test]
fn unlink_without_link_is_no_op() {
    let mut arena = Arena::new();
    let list = arena.pin_list(WakerList::new());
    let slot = arena.pin_slot(WakerSlot::new());
    WakerList::unlink(&mut arena, list, slot);
    WakerList::unlink(&mut arena, list, slot);
    assert!(!arena.slot(slot).is_linked());
}

#[test]
fn drop_list_before_slot_panics() {
    let task = Task::new();

    let mut arena = Arena::new();
    let list = arena.pin_list(WakerList::new());
    let slot = arena.pin_slot(WakerSlot::new());
    WakerList::link(&mut arena, list, slot, task.waker());
    // A list must not be dropped while it holds slots.
    assert!(!WakerList::is_empty(&arena, list));
    WakerList::unlink(&mut arena, list, slot);
    assert!(WakerList::is_empty(&arena, list));
    WakerList::drop(&mut arena, list);
    assert!(!arena.has_list(list));
    WakerSlot::drop(&mut arena, slot);
    assert!(!arena.has_slot(slot));
}

#[test]
fn second_link_replaces_waker() {
    let task1 = Task::new();
    let task2 = Task::new();

    let mut arena = Arena::new();
    let list = arena.pin_list(WakerList::new());
    let slot = arena.pin_slot(WakerSlot::new());
    WakerList::link(&mut arena, list, slot, task1.waker());
    WakerList::link(&mut arena, list, slot, task2.waker());
    assert_eq!(1, Arc::strong_count(&task1));

    assert_eq!(1, wake_all(&mut arena, list));
    assert_eq!(0, task1.wake_count());
    assert_eq!(1, task2.wake_count());
}

#[test]
fn just_full_wakers_needs_no_continue() {
    let the_task = Task::new();
    let mut arena = Arena::new();
    let list = arena.pin_list(WakerList::new());
    link_slots(&mut arena, list, &the_task, 7);

    // There are not 8, so no need to continue.
    assert_eq!(1, wake_all(&mut arena, list));
    assert_eq!(7, the_task.wake_count());
}

#[test]
fn full_wakers_needs_continue() {
    let the_task = Task::new();
    let mut arena = Arena::new();
    let list = arena.pin_list(WakerList::new());
    link_slots(&mut arena, list, &the_task, 8);

    // There are 8, so we need a second call.
    assert_eq!(2, wake_all(&mut arena, list));
    assert_eq!(8, the_task.wake_count());
}

#[test]
fn only_extract_wakers_since_beginning_of_extraction() {
    let the_task = Task::new();
    let mut arena = Arena::new();
    let list = arena.pin_list(WakerList::new());
    let slots = link_slots(&mut arena, list, &the_task, 8);

    let round = WakerList::begin_extraction(&mut arena, list);
    let mut wakers = ExtractedWakers::new();

    // There are 8, so we need a second call.
    assert!(WakerList::extract_some_wakers(&mut arena, list, round, &mut wakers));
    wakers.wake_all();
    assert_eq!(7, the_task.wake_count());

    WakerList::link(&mut arena, list, slots[0], the_task.waker());
    WakerList::link(&mut arena, list, slots[1], the_task.waker());
    WakerList::link(&mut arena, list, slots[2], the_task.waker());
    WakerList::link(&mut arena, list, slots[3], the_task.waker());

    assert!(!WakerList::extract_some_wakers(&mut arena, list, round, &mut wakers));
    wakers.wake_all();
    assert_eq!(8, the_task.wake_count());

    // Get the remaining half.
    let round = WakerList::begin_extraction(&mut arena, list);
    WakerList::extract_some_wakers(&mut arena, list, round, &mut wakers);
    wakers.wake_all();
    assert_eq!(12, the_task.wake_count());
}

#[test]
fn extracted_wakers_is_empty() {
    let the_task = Task::new();
    let mut arena = Arena::new();
    let list = arena.pin_list(WakerList::new());

    let mut wakers = ExtractedWakers::new();
    let round = WakerList::begin_extraction(&mut arena, list);
    assert!(!WakerList::extract_some_wakers(&mut arena, list, round, &mut wakers));
    assert!(wakers.is_empty());

    let slot1 = arena.pin_slot(WakerSlot::new());
    WakerList::link(&mut arena, list, slot1, the_task.waker());

    let round = WakerList::begin_extraction(&mut arena, list);
    assert!(!WakerList::extract_some_wakers(&mut arena, list, round, &mut wakers));
    assert!(!wakers.is_empty());
}

#[test]
fn test_sizes() {
    assert_eq!(24, mem::size_of::<WakerList>());
    assert_eq!(48, mem::size_of::<WakerSlot>());
}

#[test]
fn test_extracted_waker_set_size() {
    assert_eq!(120, mem::size_of::<ExtractedWakers>());
}
