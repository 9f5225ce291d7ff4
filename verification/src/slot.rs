use crate::arena::Arena;
use crate::model::Entry;
use crate::pointers::Pointers;
use crate::pointers::NULL;
use core::cell::UnsafeCell;
use core::marker::PhantomData;
use core::marker::PhantomPinned;
use core::task::Waker;
use vstd::prelude::*;

verus! {

/// A future's waker registration slot. Holds at most one pending waker, which
/// is stored inline within the slot.
///
/// A slot must not be dropped while it is linked. See [`WakerList::link`] and
/// [`WakerList::unlink`] for use.
///
/// [`WakerList::link`]: crate::WakerList::link
/// [`WakerList::unlink`]: crate::WakerList::unlink
#[derive(Debug)]
pub struct WakerSlot {
    /// When linked, the address of the owning list, else null. If not null,
    /// `pointers` are linked into that list and `waker` is set.
    pub(crate) list: usize,
    /// Null or linked into a list.
    pub(crate) pointers: Pointers,
    /// When linked, the generation that the list had at that moment.
    pub(crate) generation: u64,
    /// Set if and only if linked.
    pub(crate) waker: Option<Waker>,
    /// Neither `Sync` nor `Unpin`.
    pub(crate) marker: PhantomData<(PhantomPinned, UnsafeCell<()>)>,
}

impl View for WakerSlot {
    type V = Option<Entry>;

    closed spec fn view(&self) -> Option<Entry> {
        if self.list == NULL {
            None
        } else {
            Some(Entry { list: self.list, generation: self.generation, waker: self.waker->0 })
        }
    }
}

impl Default for WakerSlot {
    fn default() -> (slot: WakerSlot)
        ensures
            slot.is_fresh(),
            slot@ is None,
    {
        WakerSlot {
            list: NULL,
            pointers: Pointers::default(),
            generation: 0,
            waker: None,
            marker: PhantomData,
        }
    }
}

/// What the fields of a slot say of it.
pub(crate) broadcast proof fn lemma_slot_fields(slot: WakerSlot)
    ensures
        #![trigger slot.view()]
        #![trigger slot.is_fresh()]
        slot.list == NULL ==> slot@ is None,
        slot.list != NULL ==> slot@ == Some(
            Entry { list: slot.list, generation: slot.generation, waker: slot.waker->0 },
        ),
        slot.is_fresh() <==> slot.list == NULL && slot.pointers == Pointers::null()
            && slot.waker is None,
{
}

impl WakerSlot {
    /// The slot is in the state in which slots are made, unlinked.
    pub closed spec fn is_fresh(self) -> bool {
        self.list == NULL && self.pointers == Pointers::null() && self.waker is None
    }

    /// Constructs an empty slot.
    pub fn new() -> (slot: WakerSlot)
        ensures
            slot.is_fresh(),
            slot@ is None,
    {
        Default::default()
    }

    /// Whether this slot contains a waker and is linked into a list.
    pub fn is_linked(&self) -> (linked: bool)
        ensures
            linked == self@ is Some,
    {
        self.list != NULL
    }

    /// The address of the list that this slot is linked into.
    pub fn list(&self) -> (list: Option<usize>)
        ensures
            list == (match self@ {
                Some(entry) => Some(entry.list),
                None => None,
            }),
    {
        if self.is_linked() {
            Some(self.list)
        } else {
            None
        }
    }

    /// Drops the slot at `slot`, which must be unlinked. The address may be
    /// given out again.
    pub fn drop(arena: &mut Arena, slot: usize)
        requires
            old(arena).wf(),
            old(arena)@.slots.contains_key(slot),
            old(arena)@.slots[slot] is None,
        ensures
            final(arena).wf(),
            final(arena)@ == old(arena)@.drop_slot(slot),
    {
        proof {
            arena.lemma_valid();
            assert(arena@.lists.remove(slot) =~= arena@.lists);
        }
        arena.vacate(slot);
    }
}

} // verus!
