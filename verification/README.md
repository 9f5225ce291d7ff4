# wakerset

Wait lists for asynchronous data structures, verified with Verus.

A data structure that futures wait on holds a `WakerList`; each waiting future
holds a `WakerSlot` with room for one waker. Linking a slot puts it at the back
of the list's doubly-linked ring; wakers are extracted from the front, a few at
a time, so that they can be woken after the lock on the list has been released.
Extraction goes by rounds: a round extracts the slots that were linked before it
began, so it ends although woken tasks link their slots again. All wakers of a
list can also be extracted at once.

Lists and slots refer to one another by address. They live in an `Arena`, which
gives each its address when it is pinned.

- `src/model.rs`: the mathematical state of an arena and what each operation
  does to it. The contracts are stated over it.
- `src/pointers.rs`, `src/arena.rs`: the linkage, and the proof that it always
  agrees with the queues of the model.
- `src/list.rs`, `src/slot.rs`, `src/extracted.rs`: the operations.
- `src/laws.rs`: what holds across operations.
- `src/history.rs`: what becomes of every waker, whatever is done with the lists
  of an arena.
- `src/array.rs`, `src/waker.rs`: the claims about `arrayvec`, about waking a
  waker and about dropping one that the proofs rest on.
- `src/marker.rs`: two marker types of `core`, of which nothing is claimed.
- `app/`: the same operations with guards that panic or abort on misuse.
