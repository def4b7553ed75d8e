//! Physical frames and the allocator interface.
use vstd::prelude::*;

pub mod area_frame_allocator;
pub mod paging;

verus! {

/// Size of a frame and of a page, in bytes.
pub const PAGE_SIZE: u64 = 4096;

/// A physical frame, identified by its number (its start address divided
/// by `PAGE_SIZE`).
#[derive(Debug, PartialEq, Eq, Structural, PartialOrd, Ord)]
pub struct Frame {
    pub number: u64,
}

impl Frame {
    /// The frame that holds the physical address `addr`.
    pub fn containing_addr(addr: u64) -> (f: Frame)
        ensures
            f.number == addr / PAGE_SIZE,
            f.number * PAGE_SIZE <= addr < f.number * PAGE_SIZE + PAGE_SIZE,
    {
        Frame { number: addr / PAGE_SIZE }
    }

    /// The first physical address of the frame.
    pub fn start_addr(&self) -> (a: u64)
        requires
            self.number * PAGE_SIZE <= u64::MAX,
        ensures
            a == self.number * PAGE_SIZE,
    {
        self.number * PAGE_SIZE
    }
}

} // verus!

verus! {

/// A source of free frames.
pub trait FrameAllocator {
    /// Whether `answers` keeps the answers of `allocate_frame`; allocators
    /// that keep no record leave it false.
    open spec fn keeps_answers() -> bool {
        false
    }

    /// The answers of `allocate_frame` so far, oldest first, where kept.
    open spec fn answers(&self) -> Seq<Option<Frame>> {
        Seq::empty()
    }

    /// Hands out a free frame, or `None` when no frame is left.
    fn allocate_frame(&mut self) -> (r: Option<Frame>)
        ensures
            Self::keeps_answers() ==> final(self).answers() == old(self).answers().push(r),
    ;
}

} // verus!
