//! Allocation requests and the one way they fail.

use crate::align::is_power_of_two;
use vstd::arithmetic::power2::is_pow2;
use vstd::prelude::*;

verus! {

/// An allocation request: `size` bytes starting at a multiple of `align`.
#[derive(Clone, Copy, Debug, PartialEq, Eq)]
pub struct Layout {
    pub size: usize,
    pub align: usize,
}

impl Layout {
    /// A request is valid when its alignment is a power of two.
    pub open spec fn valid(&self) -> bool {
        is_pow2(self.align as int)
    }

    /// The request for `size` bytes at a multiple of `align`, if `align` is a power
    /// of two.
    pub fn from_size_align(size: usize, align: usize) -> (layout: Option<Layout>)
        ensures
            layout == if is_pow2(align as int) {
                Some(Layout { size, align })
            } else {
                None
            },
    {
        if is_power_of_two(align) {
            Some(Layout { size, align })
        } else {
            None
        }
    }
}

/// No hole can hold the requested layout.
#[derive(Clone, Copy, Debug, PartialEq, Eq)]
pub struct AllocErr;

} // verus!
