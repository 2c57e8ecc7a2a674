//! Placement of the kernel heap.
use vstd::prelude::*;

verus! {

/// Start of the heap: an arbitrary address that avoids kernel code, stack and
/// the VGA buffer.
pub const HEAP_START: u64 = 0x4444_4444_0000;

/// Size of the heap: 100 KiB.
pub const HEAP_SIZE: usize = 102400;

} // verus!
