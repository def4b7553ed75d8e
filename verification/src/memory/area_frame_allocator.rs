//! A frame allocator that hands out the free frames of the memory areas in
//! order, stepping over the kernel and the multiboot information.
use vstd::prelude::*;

use crate::memory::{Frame, FrameAllocator, PAGE_SIZE};

verus! {

/// A region of usable physical memory.
#[derive(Debug, Clone, Copy, PartialEq, Eq, Structural)]
pub struct MemoryArea {
    pub base_addr: u64,
    pub length: u64,
}

/// A bound above every frame number the allocator works with.
pub const FRAME_NUMBER_BOUND: u64 = 0x20_0000_0000_0000;

/// The last address of an area can be computed: the area is not empty at
/// address zero and does not run past the end of the address space.
pub open spec fn area_wf(a: MemoryArea) -> bool {
    1 <= a.base_addr + a.length <= u64::MAX
}

/// The number of the frame that holds the first byte of the area.
pub open spec fn first_frame(a: MemoryArea) -> u64 {
    a.base_addr / 4096
}

/// The number of the frame that holds the last byte of the area.
pub open spec fn last_frame(a: MemoryArea) -> u64 {
    ((a.base_addr + a.length - 1) as u64) / 4096
}

/// Whether frame `f` holds some byte of the area.
pub open spec fn in_area(a: MemoryArea, f: u64) -> bool {
    first_frame(a) <= f <= last_frame(a)
}

/// Whether the area still has frames at or after frame `next`.
pub open spec fn has_frames_from(a: MemoryArea, next: u64) -> bool {
    last_frame(a) >= next
}

/// Whether `areas[i]` is the area chosen after frame `next`: among the areas
/// with frames at or after `next`, one with the lowest base address, the
/// first such in `areas`.
pub open spec fn is_next_area(areas: Seq<MemoryArea>, next: u64, i: int) -> bool {
    &&& 0 <= i < areas.len()
    &&& has_frames_from(areas[i], next)
    &&& forall|j: int|
        0 <= j < areas.len() && has_frames_from(areas[j], next) ==> areas[i].base_addr
            <= #[trigger] areas[j].base_addr
    &&& forall|j: int|
        0 <= j < i && has_frames_from(areas[j], next) ==> areas[i].base_addr
            < #[trigger] areas[j].base_addr
}

/// Whether no area has frames at or after `next`.
pub open spec fn no_area_left(areas: Seq<MemoryArea>, next: u64) -> bool {
    forall|j: int| 0 <= j < areas.len() ==> !has_frames_from(#[trigger] areas[j], next)
}

/// The area to allocate from once the frames before `next` are used: see
/// `is_next_area`; `None` when no area has frames left.
pub fn next_area(areas: &Vec<MemoryArea>, next: u64) -> (r: Option<MemoryArea>)
    requires
        forall|j: int| 0 <= j < areas@.len() ==> area_wf(#[trigger] areas@[j]),
    ensures
        match r {
            Some(a) => exists|i: int| is_next_area(areas@, next, i) && areas@[i] == a,
            None => no_area_left(areas@, next),
        },
{
    let mut best: Option<MemoryArea> = None;
    let ghost mut bi: int = 0;
    let mut i: usize = 0;
    while i < areas.len()
        invariant
            i <= areas@.len(),
            forall|j: int| 0 <= j < areas@.len() ==> area_wf(#[trigger] areas@[j]),
            match best {
                Some(b) => {
                    &&& 0 <= bi < i
                    &&& areas@[bi] == b
                    &&& has_frames_from(b, next)
                    &&& forall|j: int|
                        0 <= j < i && has_frames_from(areas@[j], next) ==> b.base_addr
                            <= #[trigger] areas@[j].base_addr
                    &&& forall|j: int|
                        0 <= j < bi && has_frames_from(areas@[j], next) ==> b.base_addr
                            < #[trigger] areas@[j].base_addr
                },
                None => forall|j: int|
                    0 <= j < i ==> !has_frames_from(#[trigger] areas@[j], next),
            },
        decreases areas@.len() - i,
    {
        let area = areas[i];
        let addr = area.base_addr + area.length - 1;
        if Frame::containing_addr(addr).number >= next {
            match best {
                None => {
                    best = Some(area);
                    proof {
                        bi = i as int;
                    }
                },
                Some(b) => {
                    if area.base_addr < b.base_addr {
                        best = Some(area);
                        proof {
                            bi = i as int;
                        }
                    }
                },
            }
        }
        i = i + 1;
    }
    proof {
        if let Some(b) = best {
            assert(is_next_area(areas@, next, bi));
        }
    }
    best
}

/// Hands out the frames of the memory areas in increasing order, skipping
/// the frames of the kernel and of the multiboot information.
pub struct AreaFrameAllocator {
    next_free_frame: Frame,
    current_area: Option<MemoryArea>,
    areas: Vec<MemoryArea>,
    kernel_start: Frame,
    kernel_end: Frame,
    multiboot_start: Frame,
    multiboot_end: Frame,
    handed_out: Ghost<Seq<Option<Frame>>>,
}

impl AreaFrameAllocator {
    /// The first frame not yet handed out or stepped over.
    pub closed spec fn next_free(&self) -> u64 {
        self.next_free_frame.number
    }

    /// The area that frames are taken from, if any is left.
    pub closed spec fn current(&self) -> Option<MemoryArea> {
        self.current_area
    }

    /// The memory areas.
    pub closed spec fn spec_areas(&self) -> Seq<MemoryArea> {
        self.areas@
    }

    /// The first and last frames of the kernel.
    pub closed spec fn kernel(&self) -> (u64, u64) {
        (self.kernel_start.number, self.kernel_end.number)
    }

    /// The first and last frames of the multiboot information.
    pub closed spec fn multiboot(&self) -> (u64, u64) {
        (self.multiboot_start.number, self.multiboot_end.number)
    }

    /// Whether frame `f` is in some memory area and belongs to neither the
    /// kernel nor the multiboot information.
    pub open spec fn usable(&self, f: u64) -> bool {
        &&& exists|i: int|
            0 <= i < self.spec_areas().len() && #[trigger] in_area(self.spec_areas()[i], f)
        &&& !(self.kernel().0 <= f <= self.kernel().1)
        &&& !(self.multiboot().0 <= f <= self.multiboot().1)
    }

    /// Every memory area is well formed.
    pub open spec fn areas_wf(&self) -> bool {
        forall|j: int| 0 <= j < self.spec_areas().len() ==> area_wf(#[trigger] self.spec_areas()[j])
    }

    /// The frames at or after `next_free` that are in no area when there is
    /// no current area; the current area starts at or before `next_free`.
    #[verifier::type_invariant]
    closed spec fn inv(&self) -> bool {
        &&& forall|j: int| 0 <= j < self.areas@.len() ==> area_wf(#[trigger] self.areas@[j])
        &&& self.next_free_frame.number < FRAME_NUMBER_BOUND
        &&& self.kernel_end.number < FRAME_NUMBER_BOUND - 1
        &&& self.multiboot_end.number < FRAME_NUMBER_BOUND - 1
        &&& match self.current_area {
            Some(a) => self.areas@.contains(a) && first_frame(a) <= self.next_free_frame.number,
            None => no_area_left(self.areas@, self.next_free_frame.number),
        }
    }

    /// An allocator over `memory_areas` that steps over the frames of the
    /// kernel (`kernel_start` to `kernel_end`) and of the multiboot
    /// information (`multiboot_start` to `multiboot_end`), inclusive.
    pub fn new(
        kernel_start: u64,
        kernel_end: u64,
        multiboot_start: u64,
        multiboot_end: u64,
        memory_areas: Vec<MemoryArea>,
    ) -> (r: AreaFrameAllocator)
        requires
            forall|j: int| 0 <= j < memory_areas@.len() ==> area_wf(#[trigger] memory_areas@[j]),
        ensures
            r.spec_areas() == memory_areas@,
            r.answers() == Seq::<Option<Frame>>::empty(),
            r.areas_wf(),
            forall|g: u64| g < r.next_free() ==> !r.usable(g),
            r.kernel() == (kernel_start / 4096, kernel_end / 4096),
            r.multiboot() == (multiboot_start / 4096, multiboot_end / 4096),
            match r.current() {
                Some(a) => exists|i: int|
                    is_next_area(memory_areas@, 0, i) && memory_areas@[i] == a && r.next_free()
                        == first_frame(a),
                None => no_area_left(memory_areas@, 0) && r.next_free() == 0,
            },
    {
        let next_free_frame = Frame::containing_addr(0);
        let current_area = next_area(&memory_areas, next_free_frame.number);
        let next_free_frame = match current_area {
            Some(area) => Frame::containing_addr(area.base_addr),
            None => next_free_frame,
        };
        proof {
            if let Some(a) = current_area {
                let i = choose|i: int| is_next_area(memory_areas@, 0, i) && memory_areas@[i] == a;
                assert(memory_areas@[i] == a);
                assert forall|g: u64, j: int|
                    g < next_free_frame.number && 0 <= j < memory_areas@.len() implies !#[trigger] in_area(
                    memory_areas@[j],
                    g,
                ) by {
                    lemma_gap_before_next_area(memory_areas@, 0, i, g);
                }
            }
        }
        AreaFrameAllocator {
            next_free_frame,
            current_area,
            areas: memory_areas,
            kernel_start: Frame::containing_addr(kernel_start),
            kernel_end: Frame::containing_addr(kernel_end),
            multiboot_start: Frame::containing_addr(multiboot_start),
            multiboot_end: Frame::containing_addr(multiboot_end),
            handed_out: Ghost(Seq::empty()),
        }
    }

    /// Moves to the area chosen after `next_free` (see `is_next_area`), and
    /// `next_free` up to its first frame if it lies below.
    pub fn choose_next_area(&mut self)
        ensures
            final(self).spec_areas() == old(self).spec_areas(),
            final(self).answers() == old(self).answers(),
            final(self).areas_wf(),
            final(self).kernel() == old(self).kernel(),
            final(self).multiboot() == old(self).multiboot(),
            match final(self).current() {
                Some(a) => exists|i: int|
                    {
                        &&& is_next_area(old(self).spec_areas(), old(self).next_free(), i)
                        &&& old(self).spec_areas()[i] == a
                        &&& final(self).next_free() == if old(self).next_free() < first_frame(a) {
                            first_frame(a)
                        } else {
                            old(self).next_free()
                        }
                    },
                None => no_area_left(old(self).spec_areas(), old(self).next_free())
                    && final(self).next_free() == old(self).next_free(),
            },
    {
        proof {
            use_type_invariant(&*self);
        }
        let chosen = next_area(&self.areas, self.next_free_frame.number);
        if let Some(area) = chosen {
            let start_frame = Frame::containing_addr(area.base_addr);
            if self.next_free_frame.number < start_frame.number {
                self.next_free_frame = start_frame;
            }
        }
        proof {
            if let Some(a) = chosen {
                let i = choose|i: int|
                    is_next_area(old(self).spec_areas(), old(self).next_free(), i)
                        && old(self).spec_areas()[i] == a;
                assert(self.areas@[i] == a);
            }
        }
        self.current_area = chosen;
    }
}

/// Frames before the first frame of the area chosen after `next`, and at or
/// after `next`, are in no area.
proof fn lemma_gap_before_next_area(areas: Seq<MemoryArea>, next: u64, i: int, g: u64)
    requires
        is_next_area(areas, next, i),
        next <= g < first_frame(areas[i]),
    ensures
        forall|j: int| 0 <= j < areas.len() ==> !in_area(#[trigger] areas[j], g),
{
    assert forall|j: int| 0 <= j < areas.len() implies !in_area(#[trigger] areas[j], g) by {
        if in_area(areas[j], g) {
            assert(has_frames_from(areas[j], next));
            vstd::arithmetic::div_mod::lemma_div_is_ordered(
                areas[i].base_addr as int,
                areas[j].base_addr as int,
                4096,
            );
        }
    }
}

/// What one call of `allocate_frame` does, from allocator `a` to allocator
/// `b` with result `r`: the areas, kernel and multiboot frames stay, and
/// `next_free` does not go down. A frame handed out is the first usable frame
/// at or after `next_free`, which moves just past it; `None` means no usable
/// frame is left at or after `next_free`.
pub open spec fn allocation(a: AreaFrameAllocator, r: Option<Frame>, b: AreaFrameAllocator) -> bool {
    &&& b.spec_areas() == a.spec_areas()
    &&& b.kernel() == a.kernel()
    &&& b.multiboot() == a.multiboot()
    &&& b.next_free() >= a.next_free()
    &&& match r {
        Some(f) => {
            &&& a.next_free() <= f.number
            &&& a.usable(f.number)
            &&& !(a.kernel().0 <= f.number && f.number <= a.kernel().1)
            &&& !(a.multiboot().0 <= f.number && f.number <= a.multiboot().1)
            &&& exists|i: int|
                0 <= i < a.spec_areas().len() && #[trigger] in_area(a.spec_areas()[i], f.number)
            &&& forall|g: u64| a.next_free() <= g < f.number ==> !a.usable(g)
            &&& b.next_free() == f.number + 1
        },
        None => forall|g: u64| g >= a.next_free() ==> !a.usable(g),
    }
}

/// Once an allocation finds no frame, every later one finds none either.
pub proof fn law_exhausted_stays_exhausted(
    a: AreaFrameAllocator,
    b: AreaFrameAllocator,
    r: Option<Frame>,
    c: AreaFrameAllocator,
)
    requires
        allocation(a, None, b),
        allocation(b, r, c),
    ensures
        r is None,
{
    if let Some(f) = r {
        assert(b.usable(f.number) == a.usable(f.number));
    }
}

/// Whatever calls follow `new(kernel_start, kernel_end, multiboot_start,
/// multiboot_end, areas)`, every frame handed out lies in one of `areas` and
/// outside the frames of the kernel and of the multiboot information, in
/// whichever order those two lie.
pub proof fn law_frames_avoid_kernel_and_boot_information(
    kernel_start: u64,
    kernel_end: u64,
    multiboot_start: u64,
    multiboot_end: u64,
    areas: Seq<MemoryArea>,
    states: Seq<AreaFrameAllocator>,
    results: Seq<Option<Frame>>,
)
    requires
        states.len() == results.len() + 1,
        states[0].spec_areas() == areas,
        states[0].kernel() == (kernel_start / 4096, kernel_end / 4096),
        states[0].multiboot() == (multiboot_start / 4096, multiboot_end / 4096),
        forall|i: int|
            0 <= i < results.len() ==> #[trigger] allocation(states[i], results[i], states[i + 1]),
    ensures
        forall|i: int|
            0 <= i < results.len() && #[trigger] results[i] is Some ==> {
                let f = results[i]->0.number;
                &&& !(kernel_start / 4096 <= f && f <= kernel_end / 4096)
                &&& !(multiboot_start / 4096 <= f && f <= multiboot_end / 4096)
                &&& exists|j: int| 0 <= j < areas.len() && #[trigger] in_area(areas[j], f)
            },
{
    law_allocation_sequence(states, results);
    assert forall|i: int| 0 <= i < results.len() && #[trigger] results[i] is Some implies {
        let f = results[i]->0.number;
        &&& !(kernel_start / 4096 <= f && f <= kernel_end / 4096)
        &&& !(multiboot_start / 4096 <= f && f <= multiboot_end / 4096)
        &&& exists|j: int| 0 <= j < areas.len() && #[trigger] in_area(areas[j], f)
    } by {
        assert(allocation(states[i], results[i], states[i + 1]));
        assert(states[i].spec_areas() == states[0].spec_areas());
    }
}

/// Successive allocations hand out the usable frames in increasing order,
/// each once and none skipped: over calls from `states[i]` to `states[i + 1]`
/// with results `results[i]`, the frames handed out increase, are usable,
/// and are all the usable frames from the first `next_free` to the last;
/// after a `None`, no usable frame is left.
pub proof fn law_allocation_sequence(states: Seq<AreaFrameAllocator>, results: Seq<Option<Frame>>)
    requires
        states.len() == results.len() + 1,
        forall|i: int|
            0 <= i < results.len() ==> #[trigger] allocation(states[i], results[i], states[i + 1]),
    ensures
        forall|i: int|
            0 <= i < states.len() ==> {
                &&& #[trigger] states[i].spec_areas() == states[0].spec_areas()
                &&& states[i].kernel() == states[0].kernel()
                &&& states[i].multiboot() == states[0].multiboot()
            },
        forall|i: int, j: int|
            0 <= i <= j < states.len() ==> #[trigger] states[i].next_free()
                <= #[trigger] states[j].next_free(),
        forall|i: int|
            0 <= i < results.len() && #[trigger] results[i] is Some ==> {
                &&& states[0].usable(results[i]->0.number)
                &&& results[i]->0.number < states[i + 1].next_free()
                &&& states[i].next_free() <= results[i]->0.number
            },
        forall|i: int, j: int|
            0 <= i < j < results.len() && #[trigger] results[i] is Some && #[trigger] results[j] is Some
                ==> results[i]->0.number < results[j]->0.number,
        forall|g: u64|
            states[0].next_free() <= g < states[results.len() as int].next_free() && states[0].usable(
                g,
            ) ==> exists|i: int| 0 <= i < results.len() && #[trigger] results[i] == Some(Frame { number: g }),
        forall|i: int, g: u64|
            #![trigger results[i], states[0].usable(g)]
            0 <= i < results.len() && results[i] is None && g >= states[i].next_free()
                ==> !states[0].usable(g),
    decreases results.len(),
{
    let k = results.len() as int;
    if k > 0 {
        let ps = states.subrange(0, k);
        let pr = results.subrange(0, k - 1);
        assert forall|i: int| 0 <= i < pr.len() implies #[trigger] allocation(ps[i], pr[i], ps[i + 1]) by {
            assert(allocation(states[i], results[i], states[i + 1]));
        }
        law_allocation_sequence(ps, pr);
        assert(allocation(states[k - 1], results[k - 1], states[k]));
        assert forall|i: int| 0 <= i < states.len() implies {
            &&& #[trigger] states[i].spec_areas() == states[0].spec_areas()
            &&& states[i].kernel() == states[0].kernel()
            &&& states[i].multiboot() == states[0].multiboot()
        } by {
            assert(ps[0] == states[0]);
            if i < k {
                assert(ps[i] == states[i]);
                assert(ps[i].spec_areas() == ps[0].spec_areas());
            } else {
                assert(ps[k - 1] == states[k - 1]);
                assert(ps[k - 1].spec_areas() == ps[0].spec_areas());
            }
        }
        assert forall|i: int, j: int| 0 <= i <= j < states.len() implies #[trigger] states[i].next_free()
            <= #[trigger] states[j].next_free() by {
            if j < k {
                assert(ps[i] == states[i]);
                assert(ps[j] == states[j]);
            } else if i < k {
                assert(ps[i] == states[i]);
                assert(ps[k - 1] == states[k - 1]);
                assert(ps[i].next_free() <= ps[k - 1].next_free());
            }
        }
        assert forall|i: int| 0 <= i < results.len() && #[trigger] results[i] is Some implies {
            &&& states[0].usable(results[i]->0.number)
            &&& results[i]->0.number < states[i + 1].next_free()
            &&& states[i].next_free() <= results[i]->0.number
        } by {
            if i < k - 1 {
                assert(pr[i] == results[i]);
                assert(ps[i + 1] == states[i + 1]);
                assert(ps[i] == states[i]);
            }
        }
        assert forall|i: int, j: int|
            0 <= i < j < results.len() && #[trigger] results[i] is Some && #[trigger] results[j]
                is Some implies results[i]->0.number < results[j]->0.number by {
            if j < k - 1 {
                assert(pr[i] == results[i]);
                assert(pr[j] == results[j]);
            } else {
                if i < k - 1 {
                    assert(pr[i] == results[i]);
                }
                assert(ps[i + 1] == states[i + 1]);
                assert(ps[k - 1] == states[k - 1]);
                assert(states[i + 1].next_free() <= states[k - 1].next_free());
            }
        }
        assert forall|g: u64|
            states[0].next_free() <= g < states[k].next_free() && states[0].usable(g) implies exists|
            i: int,
        | 0 <= i < results.len() && #[trigger] results[i] == Some(Frame { number: g }) by {
            assert(ps[0] == states[0]);
            assert(ps[k - 1] == states[k - 1]);
            if g < states[k - 1].next_free() {
                let i = choose|i: int| 0 <= i < pr.len() && #[trigger] pr[i] == Some(Frame { number: g });
                assert(results[i] == pr[i]);
            } else {
                assert(states[k - 1].spec_areas() == states[0].spec_areas());
                assert(states[k - 1].usable(g) == states[0].usable(g));
                assert(results[k - 1] == Some(Frame { number: g }));
            }
        }
        assert forall|i: int, g: u64|
            #![trigger results[i], states[0].usable(g)]
            0 <= i < results.len() && results[i] is None && g >= states[i].next_free()
                implies !states[0].usable(g) by {
            assert(states[i].spec_areas() == states[0].spec_areas());
            assert(states[i].usable(g) == states[0].usable(g));
            if i < k - 1 {
                assert(pr[i] == results[i]);
                assert(ps[i] == states[i]);
            }
        }
    }
}

impl FrameAllocator for AreaFrameAllocator {
    open spec fn keeps_answers() -> bool {
        true
    }

    closed spec fn answers(&self) -> Seq<Option<Frame>> {
        self.handed_out@
    }


    /// The first usable frame at or after `next_free`, which moves past it;
    /// `None` when no usable frame is left.
    fn allocate_frame(&mut self) -> (r: Option<Frame>)
        ensures
            allocation(*old(self), r, *final(self)),
            final(self).areas_wf(),
    {
        proof {
            use_type_invariant(&*self);
        }
        let ghost nf0 = self.next_free_frame.number;
        loop
            invariant
                self.spec_areas() == old(self).spec_areas(),
                self.kernel() == old(self).kernel(),
                self.multiboot() == old(self).multiboot(),
                nf0 == old(self).next_free(),
                self.handed_out@ == old(self).handed_out@,
                nf0 <= self.next_free_frame.number,
                forall|g: u64| nf0 <= g < self.next_free_frame.number ==> !old(self).usable(g),
            decreases 2 * (FRAME_NUMBER_BOUND - self.next_free_frame.number) + (match self.current_area {
                Some(a) => if self.next_free_frame.number > last_frame(a) {
                    1int
                } else {
                    0int
                },
                None => 0int,
            }),
        {
            proof {
                use_type_invariant(&*self);
            }
            match self.current_area {
                None => {
                    proof {
                        assert forall|g: u64| g >= nf0 implies !old(self).usable(g) by {
                            if g >= self.next_free_frame.number {
                                assert forall|i: int|
                                    0 <= i < self.areas@.len() implies !in_area(
                                    #[trigger] self.areas@[i],
                                    g,
                                ) by {
                                    assert(!has_frames_from(self.areas@[i], self.next_free_frame.number));
                                }
                            }
                        }
                    }
                    self.handed_out = Ghost(self.handed_out@.push(None));
                    return None;
                },
                Some(area) => {
                    let frame = Frame { number: self.next_free_frame.number };
                    let current_area_last_frame = Frame::containing_addr(
                        area.base_addr + area.length - 1,
                    );
                    if frame.number > current_area_last_frame.number {
                        // Every frame of the current area is used: go to the next area.
                        let ghost nf = self.next_free_frame.number;
                        self.choose_next_area();
                        proof {
                            use_type_invariant(&*self);
                            if let Some(a) = self.current_area {
                                let i = choose|i: int|
                                    is_next_area(self.areas@, nf, i) && self.areas@[i] == a;
                                assert forall|g: u64|
                                    nf0 <= g < self.next_free_frame.number implies !old(
                                        self,
                                    ).usable(g) by {
                                    if g >= nf {
                                        lemma_gap_before_next_area(self.areas@, nf, i, g);
                                    }
                                }
                            }
                        }
                    } else if frame.number >= self.kernel_start.number && frame.number
                        <= self.kernel_end.number {
                        // The frame belongs to the kernel.
                        self.next_free_frame = Frame { number: self.kernel_end.number + 1 };
                    } else if frame.number >= self.multiboot_start.number && frame.number
                        <= self.multiboot_end.number {
                        // The frame belongs to the multiboot information.
                        self.next_free_frame = Frame { number: self.multiboot_end.number + 1 };
                    } else {
                        // The frame is free.
                        self.next_free_frame.number = self.next_free_frame.number + 1;
                        proof {
                            let i = choose|i: int|
                                0 <= i < self.areas@.len() && self.areas@[i] == area;
                            assert(in_area(self.areas@[i], frame.number));
                        }
                        let ghost r = Some(Frame { number: frame.number });
                        self.handed_out = Ghost(self.handed_out@.push(r));
                        return Some(frame);
                    }
                },
            }
        }
    }
}

} // verus!
