//! A first-fit heap allocator for one contiguous region of memory.
//!
//! The heap keeps the free parts of its region, the holes, in a list ordered by
//! address. An allocation takes the first hole that fits and leaves what it does not
//! need as smaller holes; freeing a block joins it with the holes it touches.
//!
//! - [`align`] rounds addresses to power-of-two alignments.
//! - [`layout`] holds the allocation request and the allocation error.
//! - [`hole`] is the hole list itself.
//! - [`model`] says what hole lists are as sequences of regions, and [`hole_laws`]
//!   proves what holds of them.
//! - [`heap_allocator`] is the heap, alone and behind a spin lock.

pub mod align;
pub mod heap_allocator;
pub mod hole;
pub mod hole_laws;
pub mod layout;
pub mod model;
