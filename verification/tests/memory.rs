use ruke::boot::{ElfSection, boot_frame_allocator, kernel_bounds};
use ruke::cpuio::port::Port;
use ruke::memory::area_frame_allocator::{AreaFrameAllocator, MemoryArea, next_area};
use ruke::memory::{Frame, FrameAllocator, PAGE_SIZE};
use ruke::pic::Pic;

fn area(base: u64, length: u64) -> MemoryArea {
    MemoryArea { base_addr: base, length }
}

fn frames(alloc: &mut AreaFrameAllocator, n: usize) -> Vec<u64> {
    let mut v = Vec::new();
    for _ in 0..n {
        match alloc.allocate_frame() {
            Some(f) => v.push(f.number),
            None => break,
        }
    }
    v
}

#[test]
fn frame_containing_addr_and_start() {
    assert_eq!(PAGE_SIZE, 4096);
    assert_eq!(Frame::containing_addr(0), Frame { number: 0 });
    assert_eq!(Frame::containing_addr(4095), Frame { number: 0 });
    assert_eq!(Frame::containing_addr(4096), Frame { number: 1 });
    assert_eq!(Frame::containing_addr(0x12_3456), Frame { number: 0x123 });
    assert_eq!(Frame { number: 0x123 }.start_addr(), 0x12_3000);
}

#[test]
fn allocator_hands_out_frames_of_one_area_in_order() {
    let mut a = AreaFrameAllocator::new(0x100_0000, 0x100_0fff, 0x200_0000, 0x200_0010, vec![
        area(0x1000, 4 * 4096),
    ]);
    assert_eq!(frames(&mut a, 10), vec![1, 2, 3, 4]);
    assert_eq!(a.allocate_frame(), None);
}

#[test]
fn allocator_skips_kernel_and_multiboot() {
    // Kernel in frames 2..=3, multiboot information in frame 5.
    let mut a = AreaFrameAllocator::new(0x2000, 0x3fff, 0x5000, 0x5008, vec![area(0, 8 * 4096)]);
    assert_eq!(frames(&mut a, 10), vec![0, 1, 4, 6, 7]);
}

#[test]
fn allocator_moves_to_areas_by_base_address() {
    // Areas listed out of order; the one with the lowest base comes first.
    let mut a = AreaFrameAllocator::new(0x90_0000, 0x90_0000, 0x91_0000, 0x91_0000, vec![
        area(0x10_0000, 2 * 4096),
        area(0x1000, 2 * 4096),
    ]);
    assert_eq!(frames(&mut a, 10), vec![1, 2, 0x100, 0x101]);
}

#[test]
fn allocator_with_overlapping_areas_gives_each_frame_once() {
    let mut a = AreaFrameAllocator::new(0x90_0000, 0x90_0000, 0x91_0000, 0x91_0000, vec![
        area(0x0, 3 * 4096),
        area(0x1000, 4 * 4096),
    ]);
    assert_eq!(frames(&mut a, 10), vec![0, 1, 2, 3, 4]);
}

#[test]
fn allocator_without_areas_has_no_frames() {
    let mut a = AreaFrameAllocator::new(0, 0, 0, 0, vec![]);
    assert_eq!(a.allocate_frame(), None);
}

#[test]
fn choose_next_area_picks_lowest_base_first() {
    let areas = vec![area(0x5000, 4096), area(0x3000, 4096), area(0x3000, 8192)];
    // Among equal bases the first listed one is taken.
    assert_eq!(next_area(&areas, 0), Some(area(0x3000, 4096)));
    // From frame 4 on only the second area at 0x3000 and the one at 0x5000 are left.
    assert_eq!(next_area(&areas, 4), Some(area(0x3000, 8192)));
    assert_eq!(next_area(&areas, 6), None);
    let mut a = AreaFrameAllocator::new(0x90_0000, 0x90_0000, 0x91_0000, 0x91_0000, areas);
    a.choose_next_area();
    assert_eq!(a.allocate_frame(), Some(Frame { number: 3 }));
}

#[test]
fn kernel_bounds_are_lowest_start_and_highest_end() {
    let sections = vec![
        ElfSection { addr: 0x10_2000, size: 0x100 },
        ElfSection { addr: 0x10_0000, size: 0x1000 },
        ElfSection { addr: 0x10_1000, size: 0x2000 },
    ];
    assert_eq!(kernel_bounds(&sections), (0x10_0000, 0x10_3000));
}

#[test]
fn boot_frame_allocator_steps_over_kernel_and_boot_information() {
    let sections = vec![ElfSection { addr: 0x1000, size: 0x1800 }];
    let mut a = boot_frame_allocator(&sections, 0x4000, 0x10, vec![area(0, 6 * 4096)]);
    // Kernel in frames 1..=2, multiboot information in frame 4.
    assert_eq!(frames(&mut a, 10), vec![0, 3, 5]);
}

#[test]
fn pic_handles_its_eight_interrupts() {
    let pic = Pic::new(32, Port::new(0x20), Port::new(0x21));
    assert_eq!(pic.offset(), 32);
    assert_eq!(pic.command().number(), 0x20);
    assert!(!pic.handles_interrupt(31));
    assert!(pic.handles_interrupt(32));
    assert!(pic.handles_interrupt(39));
    assert!(!pic.handles_interrupt(40));
}

#[test]
fn port_keeps_its_number() {
    let p: Port<u16> = Port::new(0x60);
    assert_eq!(p.number(), 0x60);
}

#[test]
fn allocator_hands_out_every_usable_frame_once_then_none() {
    // Two areas, kernel in frame 3, multiboot information in frame 9.
    let mut a = AreaFrameAllocator::new(0x3000, 0x3fff, 0x9000, 0x9010, vec![
        area(0x8000, 3 * 4096),
        area(0x1000, 4 * 4096),
    ]);
    let got = frames(&mut a, 20);
    assert_eq!(got, vec![1, 2, 4, 8, 10]);
    assert_eq!(a.allocate_frame(), None);
    assert_eq!(a.allocate_frame(), None);
}

#[test]
fn pic_below_offset_near_the_top() {
    // Below the offset the answer is false, whatever the offset.
    let pic = Pic::new(250, Port::new(0xa0), Port::new(0xa1));
    assert!(!pic.handles_interrupt(10));
}
