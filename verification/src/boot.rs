//! What the kernel computes from the boot information before it allocates
//! frames: where the kernel and the multiboot information lie.
use vstd::prelude::*;

use crate::memory::area_frame_allocator::{
    AreaFrameAllocator, MemoryArea, area_wf, first_frame, is_next_area, no_area_left,
};

verus! {

/// A section of the kernel's ELF image, as loaded in memory.
#[derive(Debug, Clone, Copy, PartialEq, Eq, Structural)]
pub struct ElfSection {
    pub addr: u64,
    pub size: u64,
}

/// Whether `start` and `end` are the lowest start address and the highest end
/// address (start plus size) of the sections.
pub open spec fn is_kernel_bounds(sections: Seq<ElfSection>, start: u64, end: u64) -> bool {
    &&& exists|i: int| 0 <= i < sections.len() && #[trigger] sections[i].addr == start
    &&& forall|i: int| 0 <= i < sections.len() ==> start <= #[trigger] sections[i].addr
    &&& exists|i: int|
        0 <= i < sections.len() && #[trigger] sections[i].addr + sections[i].size == end
    &&& forall|i: int|
        0 <= i < sections.len() ==> #[trigger] sections[i].addr + sections[i].size <= end
}

/// The first and the end address of the kernel: the lowest start address and
/// the highest end address of its sections.
pub fn kernel_bounds(sections: &Vec<ElfSection>) -> (r: (u64, u64))
    requires
        sections@.len() > 0,
        forall|i: int|
            0 <= i < sections@.len() ==> #[trigger] sections@[i].addr + sections@[i].size
                <= u64::MAX,
    ensures
        is_kernel_bounds(sections@, r.0, r.1),
{
    let mut start = sections[0].addr;
    let mut end = sections[0].addr + sections[0].size;
    let ghost mut si: int = 0;
    let ghost mut ei: int = 0;
    let mut i: usize = 1;
    while i < sections.len()
        invariant
            1 <= i <= sections@.len(),
            forall|j: int|
                0 <= j < sections@.len() ==> #[trigger] sections@[j].addr + sections@[j].size
                    <= u64::MAX,
            0 <= si < i,
            0 <= ei < i,
            sections@[si].addr == start,
            sections@[ei].addr + sections@[ei].size == end,
            forall|j: int| 0 <= j < i ==> start <= #[trigger] sections@[j].addr,
            forall|j: int| 0 <= j < i ==> #[trigger] sections@[j].addr + sections@[j].size <= end,
        decreases sections@.len() - i,
    {
        let s = sections[i];
        if s.addr < start {
            start = s.addr;
            proof {
                si = i as int;
            }
        }
        if s.addr + s.size > end {
            end = s.addr + s.size;
            proof {
                ei = i as int;
            }
        }
        i = i + 1;
    }
    (start, end)
}

/// The frame allocator of the boot: over `areas`, stepping over the kernel
/// (from the lowest start to the highest end address of `sections`) and the
/// multiboot information (`multiboot_size` bytes at `multiboot_start`).
pub fn boot_frame_allocator(
    sections: &Vec<ElfSection>,
    multiboot_start: u64,
    multiboot_size: u64,
    areas: Vec<MemoryArea>,
) -> (r: AreaFrameAllocator)
    requires
        sections@.len() > 0,
        forall|i: int|
            0 <= i < sections@.len() ==> #[trigger] sections@[i].addr + sections@[i].size
                <= u64::MAX,
        multiboot_start + multiboot_size <= u64::MAX,
        forall|j: int| 0 <= j < areas@.len() ==> area_wf(#[trigger] areas@[j]),
    ensures
        exists|start: u64, end: u64|
            is_kernel_bounds(sections@, start, end) && #[trigger] r.kernel() == (
                start / 4096,
                end / 4096,
            ),
        r.multiboot() == (multiboot_start / 4096, ((multiboot_start + multiboot_size) as u64)
            / 4096),
        r.spec_areas() == areas@,
        match r.current() {
            Some(a) => exists|i: int|
                is_next_area(areas@, 0, i) && areas@[i] == a && r.next_free() == first_frame(a),
            None => no_area_left(areas@, 0) && r.next_free() == 0,
        },
{
    let (kernel_start, kernel_end) = kernel_bounds(sections);
    let multiboot_end = multiboot_start + multiboot_size;
    AreaFrameAllocator::new(kernel_start, kernel_end, multiboot_start, multiboot_end, areas)
}

} // verus!
