//! The regions of the virtual address space.
use vstd::prelude::*;

verus! {

/// End of the virtual memory reserved for kernel memory (4 GiB), and start of the
/// task heap.
pub const KERNEL_VIRTUAL_MEMORY_END: u64 = 0x1_0000_0000;

/// End of the virtual memory reserved for the task heap (128 TiB).
pub const TASK_VIRTUAL_MEMORY_END: u64 = 0x8000_0000_0000;

/// Where the task heap starts.
pub fn task_heap_start() -> (r: u64)
    ensures
        r == KERNEL_VIRTUAL_MEMORY_END,
{
    KERNEL_VIRTUAL_MEMORY_END
}

/// Where the task heap ends.
pub fn task_heap_end() -> (r: u64)
    ensures
        r == TASK_VIRTUAL_MEMORY_END,
{
    TASK_VIRTUAL_MEMORY_END
}

} // verus!
