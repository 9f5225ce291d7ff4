//! What keeps lists and slots from being shared between threads or unpinned.
use core::cell::UnsafeCell;
use core::marker::PhantomPinned;
use vstd::prelude::*;

verus! {

/// `core::marker::PhantomPinned`, an opaque type that is not `Unpin`.
#[verifier::external_type_specification]
#[verifier::external_body]
pub struct ExPhantomPinned(PhantomPinned);

/// `core::cell::UnsafeCell`, an opaque type that is `Send` and not `Sync`.
#[verifier::external_type_specification]
#[verifier::external_body]
#[verifier::reject_recursive_types(T)]
pub struct ExUnsafeCell<T: ?Sized>(UnsafeCell<T>);

} // verus!
