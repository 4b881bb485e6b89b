use vstd::prelude::*;

verus! {

/// `core::alloc::Layout`, carried as it is in an allocation error.
#[verifier::external_type_specification]
#[verifier::external_body]
pub struct ExLayout(core::alloc::Layout);

/// Why a reservation could not be made.
#[derive(Clone, Copy, PartialEq, Eq, Debug)]
pub enum TryReserveError {
    /// The requested capacity exceeds what can be addressed.
    CapacityOverflow,
    /// The allocator refused a request of this layout.
    AllocError { layout: core::alloc::Layout },
    /// The hash index grew, but the slot store cannot: its capacity plus the request
    /// passes `isize::MAX / 64` slots, the most that its vector can double to.
    Slab { capacity: usize, additional: usize },
}

} // verus!
