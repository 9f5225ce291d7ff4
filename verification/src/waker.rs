use core::task::Waker;
use vstd::prelude::*;

verus! {

/// `core::task::Waker`, carried as an opaque value.
#[verifier::external_type_specification]
#[verifier::external_body]
pub struct ExWaker(Waker);

/// A record of the wakers that have been woken, in order.
///
/// A log starts empty, and nothing but [`WakeLog::wake`] adds to it, so a log
/// that holds a waker shows that it was woken. The record exists in proofs
/// only: a log takes no memory.
pub struct WakeLog {
    woken: Ghost<Seq<Waker>>,
}

impl View for WakeLog {
    type V = Seq<Waker>;

    closed spec fn view(&self) -> Seq<Waker> {
        self.woken@
    }
}

impl WakeLog {
    /// A log of nothing.
    pub(crate) fn new() -> (log: WakeLog)
        ensures
            log@ == Seq::<Waker>::empty(),
    {
        WakeLog { woken: Ghost(Seq::empty()) }
    }

    /// `Waker::wake`: wakes the task that the waker stands for and consumes the
    /// waker. The claim is that this call was made with this waker, and has
    /// returned, whenever the log says so. What the call does is up to whoever
    /// made the waker and is not stated; nor is that it returns.
    #[verifier::external_body]
    pub(crate) fn wake(&mut self, waker: Waker)
        ensures
            final(self)@ == old(self)@.push(waker),
    {
        waker.wake();
    }
}

/// A record of the wakers that have been dropped without being woken, in order.
///
/// A log starts empty, and nothing but [`DropLog::dispose`] adds to it. The
/// record exists in proofs only: a log takes no memory.
pub(crate) struct DropLog {
    dropped: Ghost<Seq<Waker>>,
}

impl View for DropLog {
    type V = Seq<Waker>;

    closed spec fn view(&self) -> Seq<Waker> {
        self.dropped@
    }
}

impl DropLog {
    /// A log of nothing.
    pub(crate) fn new() -> (log: DropLog)
        ensures
            log@ == Seq::<Waker>::empty(),
    {
        DropLog { dropped: Ghost(Seq::empty()) }
    }

    /// `core::mem::drop`: disposes of the waker, whose destructor runs. The
    /// claim is that this call was made with this waker, and has returned,
    /// whenever the log says so. What the destructor does is up to whoever made
    /// the waker and is not stated.
    #[verifier::external_body]
    pub(crate) fn dispose(&mut self, waker: Waker)
        ensures
            final(self)@ == old(self)@.push(waker),
    {
        core::mem::drop(waker);
    }
}

} // verus!
