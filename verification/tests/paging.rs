use ruke::memory::paging::entry::{
    Entry, EntryFlags, HUGE_PAGE, NO_EXECUTE, PRESENT, WRITABLE, table_entry_flags,
};
use ruke::memory::paging::memory::PageTableMemory;
use ruke::memory::paging::table::{Level4, PAGE4, Table};
use ruke::memory::paging::{MapError, Page, Page1, Page2, Page3, Page4, RecursivePageTable};
use ruke::memory::{Frame, FrameAllocator};

/// Hands out the frames of a list, in order.
struct ListAllocator {
    frames: Vec<u64>,
    next: usize,
}

impl ListAllocator {
    fn new(frames: Vec<u64>) -> ListAllocator {
        ListAllocator { frames, next: 0 }
    }
}

impl FrameAllocator for ListAllocator {
    fn allocate_frame(&mut self) -> Option<Frame> {
        if self.next < self.frames.len() {
            self.next += 1;
            Some(Frame { number: self.frames[self.next - 1] })
        } else {
            None
        }
    }
}

fn empty_tables() -> RecursivePageTable {
    RecursivePageTable::new(PageTableMemory::new())
}

#[test]
fn translate_in_empty_tables_is_none() {
    let t = empty_tables();
    assert_eq!(t.translate(0), None);
    assert_eq!(t.translate(4096), None);
    assert_eq!(t.translate(0xffff_8000_0000_0000), None);
}

#[test]
fn page_containing_addr_and_indices() {
    let addr: u64 = 42 * 512 * 512 * 4096 + 3 * 512 * 4096 + 7 * 4096 + 0x123;
    let page = Page::containing_addr(addr);
    assert_eq!(page.number, addr / 4096);
    assert_eq!(page.start_addr(), addr - 0x123);
    assert_eq!(page.page_index::<Page4>(), 0);
    assert_eq!(page.page_index::<Page3>(), 42);
    assert_eq!(page.page_index::<Page2>(), 3);
    assert_eq!(page.page_index::<Page1>(), 7);
    let high = Page::containing_addr(0xffff_ff80_0000_0000);
    assert_eq!(high.page_index::<Page4>(), 511);
    assert_eq!(high.page_index::<Page3>(), 0);
}

#[test]
fn map_to_then_translate_then_unmap() {
    // The scenario the kernel runs at boot: the 42nd P3 entry.
    let mut t = empty_tables();
    let addr: u64 = 42 * 512 * 512 * 4096;
    let page = Page::containing_addr(addr);
    let mut alloc = ListAllocator::new(vec![100, 101, 102, 103]);
    assert_eq!(t.translate(addr), None);
    let frame = Frame { number: 0x777 };
    assert_eq!(t.map_to(page, frame, EntryFlags::empty(), &mut alloc), Ok(()));
    assert_eq!(t.translate(addr), Some(0x777 * 4096));
    assert_eq!(t.translate(addr + 0xabc), Some(0x777 * 4096 + 0xabc));
    // The next page and the previous one are not mapped.
    assert_eq!(t.translate(addr + 4096), None);
    assert_eq!(t.translate(addr - 4096), None);
    // Three tables were made: P3, P2, P1.
    assert_eq!(alloc.allocate_frame(), Some(Frame { number: 103 }));
    t.unmap(Page::containing_addr(addr), &mut alloc);
    assert_eq!(t.translate(addr), None);
}

#[test]
fn map_to_writes_flags_and_present() {
    let mut t = empty_tables();
    let page = Page::containing_addr(0x40_0000);
    let mut alloc = ListAllocator::new(vec![10, 11, 12]);
    let flags = EntryFlags::from_bits_truncate(WRITABLE | NO_EXECUTE);
    assert_eq!(t.map_to(page, Frame { number: 5 }, flags, &mut alloc), Ok(()));
    // Walk the tables by hand to read the P1 entry.
    let mem = t.memory();
    let p4 = Table::<Level4>::p4();
    let p3 = p4.next_table(mem, page.page_index::<Page4>()).unwrap();
    let p2 = p3.next_table(mem, page.page_index::<Page3>()).unwrap();
    let p1 = p2.next_table(mem, page.page_index::<Page2>()).unwrap();
    let e = p1.entry(mem, page.page_index::<Page1>());
    assert_eq!(e.0, 5 * 4096 | WRITABLE | NO_EXECUTE | PRESENT);
    assert_eq!(e.pointed_frame(), Some(Frame { number: 5 }));
    // The P4 entry points to the first allocated frame, present and writable.
    let e4 = p4.entry(mem, page.page_index::<Page4>());
    assert_eq!(e4.0, 10 * 4096 | PRESENT | WRITABLE);
}

#[test]
fn map_to_reuses_existing_tables() {
    let mut t = empty_tables();
    let mut alloc = ListAllocator::new(vec![20, 21, 22, 23]);
    let a = Page::containing_addr(0x1000);
    let b = Page::containing_addr(0x2000);
    assert_eq!(t.map_to(a, Frame { number: 1 }, EntryFlags::empty(), &mut alloc), Ok(()));
    assert_eq!(t.map_to(b, Frame { number: 2 }, EntryFlags::empty(), &mut alloc), Ok(()));
    // The second mapping needed no new table.
    assert_eq!(alloc.allocate_frame(), Some(Frame { number: 23 }));
    assert_eq!(t.translate(0x1000), Some(0x1000));
    assert_eq!(t.translate(0x2000), Some(0x2000));
    assert_eq!(t.translate(0x3000), None);
}

#[test]
fn map_to_without_frames_fails() {
    let mut t = empty_tables();
    let mut alloc = ListAllocator::new(vec![30]);
    let page = Page::containing_addr(0x5000);
    assert_eq!(
        t.map_to(page, Frame { number: 9 }, EntryFlags::empty(), &mut alloc),
        Err(MapError::FrameAllocationFailed)
    );
    assert_eq!(t.translate(0x5000), None);
}

#[test]
fn map_to_with_too_large_table_frame_fails() {
    let mut t = empty_tables();
    let mut alloc = ListAllocator::new(vec![0x100_0000_0000]);
    let page = Page::containing_addr(0x5000);
    assert_eq!(
        t.map_to(page, Frame { number: 9 }, EntryFlags::empty(), &mut alloc),
        Err(MapError::FrameOutOfRange)
    );
    assert_eq!(t.translate(0x5000), None);
}

#[test]
fn map_takes_frame_from_allocator() {
    let mut t = empty_tables();
    let mut alloc = ListAllocator::new(vec![40, 41, 42, 43]);
    let page = Page::containing_addr(0x7000);
    assert_eq!(t.map(page, EntryFlags::empty(), &mut alloc), Ok(()));
    assert_eq!(t.translate(0x7010), Some(40 * 4096 + 0x10));
}

#[test]
fn map_without_frames_fails() {
    let mut t = empty_tables();
    let mut alloc = ListAllocator::new(vec![]);
    let page = Page::containing_addr(0x7000);
    assert_eq!(t.map(page, EntryFlags::empty(), &mut alloc), Err(MapError::FrameAllocationFailed));
    let mut big = ListAllocator::new(vec![0x100_0000_0000]);
    assert_eq!(t.map(page, EntryFlags::empty(), &mut big), Err(MapError::FrameOutOfRange));
}

#[test]
fn identity_map_maps_frame_to_itself() {
    let mut t = empty_tables();
    let mut alloc = ListAllocator::new(vec![50, 51, 52]);
    let frame = Frame { number: 0x1234 };
    assert_eq!(t.identity_map(frame, EntryFlags::empty(), &mut alloc), Ok(()));
    assert_eq!(t.translate(0x1234 * 4096 + 8), Some(0x1234 * 4096 + 8));
}

#[test]
fn translate_huge_pages() {
    let mut mem = PageTableMemory::new();
    // P4 entry 0 points to a table.
    mem.write(PAGE4, 7 * 4096 | PRESENT | WRITABLE);
    // In that P3, entry 1 is a 1 GiB page at frame 512 * 512 * 3.
    let p3: u64 = 0xffff_ffff_ffe0_0000;
    mem.write(p3 + 8, (512 * 512 * 3) * 4096 | PRESENT | HUGE_PAGE);
    // Entry 2 points to a P2 whose entry 5 is a 2 MiB page at frame 512 * 9.
    mem.write(p3 + 16, 8 * 4096 | PRESENT | WRITABLE);
    let p2: u64 = 0xffff_ffff_c000_0000 | (2 << 12);
    mem.write(p2 + 5 * 8, (512 * 9) * 4096 | PRESENT | HUGE_PAGE);
    let t = RecursivePageTable::new(mem);
    let gib: u64 = 1 << 30;
    assert_eq!(t.translate(gib + 0x1234_5678), Some(3 * gib + 0x1234_5678));
    let mib2: u64 = 1 << 21;
    assert_eq!(t.translate(2 * gib + 5 * mib2 + 0x1_2345), Some(9 * mib2 + 0x1_2345));
    assert_eq!(t.translate(2 * gib + 6 * mib2), None);
}

#[test]
fn recursive_entry_makes_p4_visible() {
    let mut mem = PageTableMemory::new();
    // The last P4 entry points to the P4's own frame, 99.
    mem.write(PAGE4 + 511 * 8, 99 * 4096 | PRESENT | WRITABLE);
    let t = RecursivePageTable::new(mem);
    // The last page of the address space is the P4 itself.
    assert_eq!(t.translate(PAGE4), Some(99 * 4096));
    assert_eq!(t.translate(PAGE4 + 0x10), Some(99 * 4096 + 0x10));
}

#[test]
fn table_next_table_create_and_zero() {
    let mut mem = PageTableMemory::new();
    let p4 = Table::<Level4>::p4();
    let mut alloc = ListAllocator::new(vec![60]);
    assert!(p4.next_table(&mem, 3).is_none());
    let p3 = p4.next_table_create(&mut mem, 3, &mut alloc).ok().unwrap();
    assert_eq!(p4.entry(&mem, 3).0, 60 * 4096 | PRESENT | WRITABLE);
    assert_eq!(p3.entry(&mem, 0).0, 0);
    // Once present, the table is reused and no frame is taken.
    let mut none = ListAllocator::new(vec![]);
    assert!(p4.next_table_create(&mut mem, 3, &mut none).is_ok());
    p3.set_entry(&mut mem, 4, Entry(0x1234_5000 | PRESENT));
    assert_eq!(p3.entry(&mem, 4).0, 0x1234_5000 | PRESENT);
    p3.zero(&mut mem);
    assert_eq!(p3.entry(&mem, 4).0, 0);
}

#[test]
fn next_table_create_without_frames_fails() {
    let mut mem = PageTableMemory::new();
    let p4 = Table::<Level4>::p4();
    let mut none = ListAllocator::new(vec![]);
    assert_eq!(
        p4.next_table_create(&mut mem, 3, &mut none).err(),
        Some(MapError::FrameAllocationFailed)
    );
    assert_eq!(p4.entry(&mem, 3).0, 0);
}

#[test]
fn entry_operations() {
    let mut e = Entry(0);
    assert!(e.is_unused());
    assert_eq!(e.pointed_frame(), None);
    e.set(Frame { number: 0x42 }, table_entry_flags());
    assert!(!e.is_unused());
    assert_eq!(e.0, 0x42 * 4096 | PRESENT | WRITABLE);
    assert_eq!(e.pointed_frame(), Some(Frame { number: 0x42 }));
    assert!(e.flags().contains(PRESENT | WRITABLE));
    assert!(!e.flags().contains(HUGE_PAGE));
    e.set_unused();
    assert!(e.is_unused());
}

#[test]
fn entry_flags_operations() {
    let f = EntryFlags::from_bits_truncate(0xffff_ffff_ffff_ffff);
    assert_eq!(f.bits(), 0x8000_0000_0000_01ff);
    let g = EntryFlags::empty().union(HUGE_PAGE);
    assert_eq!(g.bits(), HUGE_PAGE);
    assert!(g.contains(HUGE_PAGE));
    assert!(!g.contains(PRESENT));
    // An entry with the present bit clear points to no frame.
    assert_eq!(Entry(5 * 4096 | WRITABLE).pointed_frame(), None);
    // The frame is read from the address bits only.
    assert_eq!(Entry(5 * 4096 | PRESENT | NO_EXECUTE).pointed_frame(), Some(Frame { number: 5 }));
}

#[test]
fn map_to_in_recursive_slot_writes_through_the_recursive_entry() {
    let mut mem = PageTableMemory::new();
    mem.write(PAGE4 + 511 * 8, 99 * 4096 | PRESENT | WRITABLE);
    let mut t = RecursivePageTable::new(mem);
    let mut alloc = ListAllocator::new(vec![70, 71]);
    // The page whose P4 index is 511 and other indices 0: its P3 is the P4.
    let page = Page::containing_addr(0xffff_ff80_0000_0000);
    assert_eq!(t.map_to(page, Frame { number: 5 }, EntryFlags::empty(), &mut alloc), Ok(()));
    let mem = t.memory();
    // P4 entry 0 got a new table (seen as the P2 of this page) ...
    assert_eq!(mem.read(PAGE4), 70 * 4096 | PRESENT | WRITABLE);
    // ... whose entry 0 got another (seen as the P1) ...
    assert_eq!(mem.read(0xffff_ffff_ffe0_0000), 71 * 4096 | PRESENT | WRITABLE);
    // ... whose entry 0 now points to frame 5.
    assert_eq!(mem.read(0xffff_ffff_c000_0000), 5 * 4096 | PRESENT);
    // The recursive entry is untouched.
    assert_eq!(mem.read(PAGE4 + 511 * 8), 99 * 4096 | PRESENT | WRITABLE);
}

#[test]
fn can_unmap_only_mapped_pages() {
    let mut t = empty_tables();
    let page = Page::containing_addr(0x9000);
    assert!(!t.can_unmap(&page));
    let mut alloc = ListAllocator::new(vec![80, 81, 82]);
    assert_eq!(t.map_to(page, Frame { number: 3 }, EntryFlags::empty(), &mut alloc), Ok(()));
    assert!(t.can_unmap(&page));
    assert!(!t.can_unmap(&Page::containing_addr(0xa000)));
    t.unmap(page, &mut alloc);
    assert!(!t.can_unmap(&page));
}

#[test]
fn can_unmap_refuses_huge_pages() {
    let mut mem = PageTableMemory::new();
    mem.write(PAGE4, 7 * 4096 | PRESENT | WRITABLE);
    mem.write(0xffff_ffff_ffe0_0000, (512 * 512) * 4096 | PRESENT | HUGE_PAGE);
    let t = RecursivePageTable::new(mem);
    let page = Page::containing_addr(0x1000);
    assert_eq!(t.translate(0x1000), Some(512 * 512 * 4096 + 0x1000));
    assert!(!t.can_unmap(&page));
}

#[test]
fn unmap_keeps_other_pages() {
    let mut t = empty_tables();
    let mut alloc = ListAllocator::new(vec![90, 91, 92]);
    let a = Page::containing_addr(0x1000);
    let b = Page::containing_addr(0x2000);
    assert_eq!(t.map_to(a, Frame { number: 11 }, EntryFlags::empty(), &mut alloc), Ok(()));
    assert_eq!(t.map_to(b, Frame { number: 12 }, EntryFlags::empty(), &mut alloc), Ok(()));
    t.unmap(a, &mut alloc);
    assert_eq!(t.translate(0x1000), None);
    assert_eq!(t.translate(0x2000), Some(12 * 4096));
}

#[test]
fn hang_table_uses_the_frame_it_is_given() {
    let mut mem = PageTableMemory::new();
    let p4 = Table::<Level4>::p4();
    assert_eq!(p4.hang_table(&mut mem, 2, None).err(), Some(MapError::FrameAllocationFailed));
    assert_eq!(
        p4.hang_table(&mut mem, 2, Some(Frame { number: 0x100_0000_0000 })).err(),
        Some(MapError::FrameOutOfRange)
    );
    assert_eq!(p4.entry(&mem, 2).0, 0);
    let p3 = p4.hang_table(&mut mem, 2, Some(Frame { number: 77 })).ok().unwrap();
    assert_eq!(p4.entry(&mem, 2).0, 77 * 4096 | PRESENT | WRITABLE);
    assert_eq!(p3.addr(), 0xffff_ffff_ffe0_0000 | (2 << 12));
    assert_eq!(p3.entry(&mem, 0).0, 0);
}

#[test]
fn next_table_create_leaves_allocator_alone_when_table_exists() {
    let mut mem = PageTableMemory::new();
    let p4 = Table::<Level4>::p4();
    let mut alloc = ListAllocator::new(vec![61, 62]);
    let a = p4.next_table_create(&mut mem, 5, &mut alloc).ok().unwrap();
    let b = p4.next_table_create(&mut mem, 5, &mut alloc).ok().unwrap();
    assert_eq!(a.addr(), b.addr());
    assert_eq!(alloc.next, 1);
}

#[test]
fn map_allocated_for_each_answer() {
    let mut t = empty_tables();
    let page = Page::containing_addr(0x3000);
    let mut alloc = ListAllocator::new(vec![1, 2, 3]);
    assert_eq!(t.map_allocated(page, EntryFlags::empty(), None, &mut alloc), Err(MapError::FrameAllocationFailed));
    assert_eq!(
        t.map_allocated(page, EntryFlags::empty(), Some(Frame { number: 0x100_0000_0000 }), &mut alloc),
        Err(MapError::FrameOutOfRange)
    );
    assert_eq!(alloc.next, 0);
    assert_eq!(t.translate(0x3000), None);
    assert_eq!(t.map_allocated(page, EntryFlags::empty(), Some(Frame { number: 9 }), &mut alloc), Ok(()));
    assert_eq!(t.translate(0x3000), Some(9 * 4096));
    assert_eq!(alloc.next, 3);
}

#[test]
fn clear_way_and_walk_checks() {
    let mut t = empty_tables();
    let page = Page::containing_addr(0x3000);
    assert!(t.clear_way_to(&page));
    assert!(!t.walk_fails_for(&page));
    let mut alloc = ListAllocator::new(vec![1, 2, 3]);
    assert_eq!(t.map_to(page, Frame { number: 4 }, EntryFlags::empty(), &mut alloc), Ok(()));
    // The P1 entry is in use now.
    assert!(!t.clear_way_to(&page));
    assert!(t.clear_way_to(&Page::containing_addr(0x4000)));
    // Pages in the recursive slot are not taken by this check.
    assert!(!t.clear_way_to(&Page::containing_addr(0xffff_ff80_0000_0000)));
    // A misaligned 1 GiB page makes the walk fail.
    let mut mem = PageTableMemory::new();
    mem.write(PAGE4, 7 * 4096 | PRESENT | WRITABLE);
    mem.write(0xffff_ffff_ffe0_0000, 5 * 4096 | PRESENT | HUGE_PAGE);
    let t = RecursivePageTable::new(mem);
    assert!(t.walk_fails_for(&Page::containing_addr(0x1000)));
    assert!(!t.clear_way_to(&Page::containing_addr(0x1000)));
}
