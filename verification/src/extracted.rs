use crate::array::array_drain;
use crate::array::array_elements;
use crate::array::array_is_empty;
use crate::array::array_is_full;
use crate::array::array_new;
use crate::array::array_push;
use crate::array::drain_elements;
use crate::array::drain_next;
use crate::array::EXTRACT_CAPACITY;
use crate::model::room;
use crate::waker::WakeLog;
use arrayvec::ArrayVec;
use core::task::Waker;
use vstd::prelude::*;

verus! {

/// Set of wakers extracted from a list so that they can be woken outside of any
/// mutex protecting that list.
#[derive(Debug)]
pub struct ExtractedWakers {
    wakers: ArrayVec<Waker, EXTRACT_CAPACITY>,
}

impl View for ExtractedWakers {
    type V = Seq<Waker>;

    /// The extracted wakers, the longest linked first.
    closed spec fn view(&self) -> Seq<Waker> {
        array_elements(self.wakers)
    }
}

impl Default for ExtractedWakers {
    fn default() -> (wakers: ExtractedWakers)
        ensures
            wakers@ == Seq::<Waker>::empty(),
    {
        ExtractedWakers { wakers: array_new() }
    }
}

impl ExtractedWakers {
    /// Constructs an empty set.
    pub fn new() -> (wakers: ExtractedWakers)
        ensures
            wakers@ == Seq::<Waker>::empty(),
    {
        Default::default()
    }

    /// Whether the set holds no wakers.
    pub fn is_empty(&self) -> (empty: bool)
        ensures
            empty == (self@.len() == 0),
    {
        array_is_empty(&self.wakers)
    }

    /// Whether no more wakers fit into the set.
    pub(crate) fn is_full(&self) -> (full: bool)
        ensures
            full == (room(self@.len()) == 0),
            self@.len() <= EXTRACT_CAPACITY,
    {
        array_is_full(&self.wakers)
    }

    /// Adds a waker to the set.
    pub(crate) fn push(&mut self, waker: Waker)
        requires
            room(old(self)@.len()) > 0,
        ensures
            final(self)@ == old(self)@.push(waker),
    {
        array_push(&mut self.wakers, waker);
    }

    /// Wakes every waker of the set, the longest linked first, and leaves the
    /// set empty. The returned log records what was woken.
    ///
    /// A lock that protects the list is to be released before.
    pub fn wake_all(&mut self) -> (log: WakeLog)
        ensures
            log@ == old(self)@,
            final(self)@ == Seq::<Waker>::empty(),
    {
        let mut log = WakeLog::new();
        let mut drain = array_drain(&mut self.wakers);
        loop
            invariant
                log@ + drain_elements(drain) == old(self)@,
            ensures
                log@ == old(self)@,
            decreases drain_elements(drain).len(),
        {
            match drain_next(&mut drain) {
                Some(waker) => {
                    log.wake(waker);
                },
                None => {
                    break ;
                },
            }
        }
        log
    }

    /// Wakes every waker of the set, the longest linked first, and disposes of
    /// the set. The returned log records what was woken.
    pub fn notify_all(self) -> (log: WakeLog)
        ensures
            log@ == self@,
    {
        let mut wakers = self;
        wakers.wake_all()
    }
}

/// All wakers of a list, extracted at once so that they can be woken outside of
/// any mutex protecting that list.
#[derive(Debug)]
pub struct DrainedWakers {
    wakers: Vec<Waker>,
}

impl View for DrainedWakers {
    type V = Seq<Waker>;

    /// The extracted wakers, the longest linked first.
    closed spec fn view(&self) -> Seq<Waker> {
        self.wakers@
    }
}

impl DrainedWakers {
    /// Without any wakers.
    pub(crate) fn new() -> (wakers: DrainedWakers)
        ensures
            wakers@ == Seq::<Waker>::empty(),
    {
        DrainedWakers { wakers: Vec::new() }
    }

    /// Adds a waker behind the others.
    pub(crate) fn push(&mut self, waker: Waker)
        ensures
            final(self)@ == old(self)@.push(waker),
    {
        self.wakers.push(waker);
    }

    /// Wakes every waker, the longest linked first. The returned log records
    /// what was woken.
    ///
    /// A lock that protects the list is to be released before.
    pub fn notify_all(self) -> (log: WakeLog)
        ensures
            log@ == self@,
    {
        let mut log = WakeLog::new();
        for waker in iter: self.wakers
            invariant
                log@ == iter.seq().take(iter.index() as int),
                iter.seq() == self@,
        {
            log.wake(waker);
            assert(iter.seq().take(iter.index() as int + 1) =~= iter.seq().take(
                iter.index() as int,
            ).push(waker));
        }
        log
    }
}

} // verus!
