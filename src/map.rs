//! What the page provider's answers mean.
use vstd::prelude::*;

verus! {

/// An address that a mapping request hands back when it failed: null, or the
/// all-ones address that `mmap` reports as `MAP_FAILED`.
pub open spec fn invalid_addr(addr: usize) -> bool {
    addr == 0 || addr == usize::MAX
}

/// Whether `addr`, as handed back by a mapping request, signals failure.
pub fn is_invalid(addr: usize) -> (r: bool)
    ensures
        r == invalid_addr(addr),
{
    addr == 0 || addr == usize::MAX
}

} // verus!
