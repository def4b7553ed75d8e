//! Page tables, each a handle on 512 entry words in page-table memory.
use vstd::prelude::*;
use core::marker::PhantomData;

use crate::memory::{Frame, FrameAllocator};
use crate::memory::paging::MapError;
use crate::memory::paging::entry::{
    ALL_FLAGS, Entry, FRAME_NUMBER_LIMIT, HUGE_PAGE, PRESENT, WRITABLE, entry_word, is_huge,
    is_present, leads_to_table, lemma_entry_word, table_entry_flags,
};
use crate::memory::paging::memory::{PageTableMemory, word};

verus! {

/// The number of entries of a table.
pub const ENTRY_COUNT: u64 = 512;

/// The virtual address of the P4 table: the recursive entry (slot 511 of the
/// P4) makes the P4 appear in the last page of the address space.
pub const PAGE4: u64 = 0xffff_ffff_ffff_f000;

/// A level of the table hierarchy.
pub trait TableLevel {}

/// A level whose entries point to tables of the next level.
pub trait HierachicalLevel: TableLevel {
    type NextLevel: TableLevel;
}

/// The top level.
pub struct Level4;

/// The level of the tables that a P4 entry points to.
pub struct Level3;

/// The level of the tables that a P3 entry points to.
pub struct Level2;

/// The lowest level: its entries point to frames.
pub struct Level1;

impl TableLevel for Level4 {}

impl TableLevel for Level3 {}

impl TableLevel for Level2 {}

impl TableLevel for Level1 {}

impl HierachicalLevel for Level4 {
    type NextLevel = Level3;
}

impl HierachicalLevel for Level3 {
    type NextLevel = Level2;
}

impl HierachicalLevel for Level2 {
    type NextLevel = Level1;
}

/// The virtual address of entry `index` of the table at `table`
/// (`table + 8 * index` for a table on a page boundary).
pub open spec fn entry_address(table: u64, index: u64) -> u64 {
    table | (index << 3)
}

/// The virtual address, through the recursive mapping, of the table that
/// entry `index` of the table at `table` points to.
pub open spec fn next_table_address(table: u64, index: u64) -> u64 {
    (table << 9) | (index << 12)
}

/// Whether `addr` is on a page boundary.
pub open spec fn page_aligned(addr: u64) -> bool {
    addr & 0xfff == 0
}

/// Whether `addr` is the address of an entry of the table at `table`.
pub open spec fn in_table(table: u64, addr: u64) -> bool {
    addr & 0xffff_ffff_ffff_f000 == table && addr & 7 == 0
}

/// `m` with every entry of the table at `table` set to zero.
pub open spec fn zero_table(m: Map<u64, u64>, table: u64) -> Map<u64, u64> {
    m.union_prefer_right(Map::new(|a: u64| in_table(table, a), |a: u64| 0u64))
}

/// The entry word of a table entry that points to a new table in frame `frame`.
pub open spec fn table_entry_word(frame: u64) -> u64 {
    entry_word(frame, PRESENT | WRITABLE)
}

/// `m` after a new, zeroed table in frame `frame` was hung under entry `index`
/// of the table at `table`.
pub open spec fn with_new_table(m: Map<u64, u64>, table: u64, index: u64, frame: u64) -> Map<u64, u64> {
    zero_table(m.insert(entry_address(table, index), table_entry_word(frame)), next_table_address(table, index))
}

/// The error of hanging a new table in the frame `got` that an allocator
/// answered: none when it is a frame whose address fits an entry.
pub open spec fn hang_error(got: Option<Frame>) -> Option<MapError> {
    match got {
        None => Some(MapError::FrameAllocationFailed),
        Some(f) => if f.number >= FRAME_NUMBER_LIMIT {
            Some(MapError::FrameOutOfRange)
        } else {
            None
        },
    }
}

/// Making sure that entry `index` of the table at `table` points to a table,
/// with the allocator's answers `got` from position `used` on: the memory
/// after, the number of answers used by then, and the error, if any. An
/// entry that points to a table takes no answer; else the next answer is
/// taken and hung as the new table.
pub open spec fn way_step(
    m: Map<u64, u64>,
    table: u64,
    index: u64,
    got: Seq<Option<Frame>>,
    used: int,
) -> (Map<u64, u64>, int, Option<MapError>) {
    if leads_to_table(word(m, entry_address(table, index))) {
        (m, used, None)
    } else {
        match hang_error(got[used]) {
            Some(e) => (m, used + 1, Some(e)),
            None => (with_new_table(m, table, index, got[used]->0.number), used + 1, None),
        }
    }
}

/// A step reads only the answer at `used`: taking the answers from a longer
/// sequence that holds the same ones from `used` on gives the same step.
pub proof fn lemma_way_step_shift(
    m: Map<u64, u64>,
    table: u64,
    index: u64,
    local: Seq<Option<Frame>>,
    total: Seq<Option<Frame>>,
    used: int,
)
    requires
        0 <= used,
        used + local.len() <= total.len(),
        local == total.subrange(used, used + local.len()),
        way_step(m, table, index, local, 0).1 == local.len(),
    ensures
        way_step(m, table, index, total, used) == (
            way_step(m, table, index, local, 0).0,
            used + local.len(),
            way_step(m, table, index, local, 0).2,
        ),
{
    if !leads_to_table(word(m, entry_address(table, index))) {
        assert(local[0] == total[used]);
    }
}

/// `m` after making sure that entry `index` of the table at `table` points to
/// a table: unchanged if it does, else with a new table in frame `frame`.
pub open spec fn ensure_table(m: Map<u64, u64>, table: u64, index: u64, frame: u64) -> Map<u64, u64> {
    if leads_to_table(word(m, entry_address(table, index))) {
        m
    } else {
        with_new_table(m, table, index, frame)
    }
}

/// Entry addresses of a page-aligned table are distinct, and lie in the table.
pub proof fn lemma_entry_address(table: u64, index: u64)
    requires
        page_aligned(table),
        index < ENTRY_COUNT,
    ensures
        in_table(table, entry_address(table, index)),
        entry_address(table, index) & 0xfff == index * 8,
        forall|t: u64, i: u64|
            page_aligned(t) && i < ENTRY_COUNT && #[trigger] entry_address(t, i) == entry_address(
                table,
                index,
            ) ==> t == table && i == index,
{
    assert(((table | (index << 3)) & 0xffff_ffff_ffff_f000 == table) && ((table | (index << 3))
        & 7 == 0) && ((table | (index << 3)) & 0xfff == index * 8)) by (bit_vector)
        requires
            table & 0xfff == 0,
            index < 512,
    ;
    assert forall|t: u64, i: u64|
        page_aligned(t) && i < ENTRY_COUNT && #[trigger] entry_address(t, i) == entry_address(
            table,
            index,
        ) implies t == table && i == index by {
        assert(t == table && i == index) by (bit_vector)
            requires
                t & 0xfff == 0,
                table & 0xfff == 0,
                i < 512,
                index < 512,
                t | (i << 3) == table | (index << 3),
        ;
    }
}

/// The table an entry points to is page-aligned.
pub proof fn lemma_next_table_address(table: u64, index: u64)
    requires
        page_aligned(table),
        index < ENTRY_COUNT,
    ensures
        page_aligned(next_table_address(table, index)),
{
    assert(((table << 9) | (index << 12)) & 0xfff == 0) by (bit_vector)
        requires
            table & 0xfff == 0,
            index < 512,
    ;
}

/// An entry of a page-aligned table lies in that table and in no other.
pub proof fn lemma_in_table(table: u64, other: u64, index: u64)
    requires
        page_aligned(table),
        page_aligned(other),
        index < ENTRY_COUNT,
    ensures
        in_table(table, entry_address(other, index)) == (table == other),
{
    assert(((other | (index << 3)) & 0xffff_ffff_ffff_f000 == table && (other | (index << 3)) & 7
        == 0) == (table == other)) by (bit_vector)
        requires
            table & 0xfff == 0,
            other & 0xfff == 0,
            index < 512,
    ;
}

/// A zero word is not in use.
pub proof fn lemma_zero_entry()
    ensures
        !is_present(0),
        !is_huge(0),
        !leads_to_table(0),
{
    assert(0u64 & PRESENT != PRESENT && 0u64 & HUGE_PAGE != HUGE_PAGE) by (bit_vector);
}

/// The words after `ensure_table`.
pub proof fn lemma_ensure_table_word(m: Map<u64, u64>, table: u64, index: u64, frame: u64, a: u64)
    requires
        page_aligned(table),
        index < ENTRY_COUNT,
        next_table_address(table, index) != table,
    ensures
        word(ensure_table(m, table, index, frame), a) == (if leads_to_table(
            word(m, entry_address(table, index)),
        ) {
            word(m, a)
        } else if in_table(next_table_address(table, index), a) {
            0
        } else if a == entry_address(table, index) {
            table_entry_word(frame)
        } else {
            word(m, a)
        }),
{
    lemma_next_table_address(table, index);
    lemma_in_table(next_table_address(table, index), table, index);
}

/// The entry word of a new table points to a table.
pub proof fn lemma_table_entry_word(frame: u64)
    requires
        frame < FRAME_NUMBER_LIMIT,
    ensures
        leads_to_table(table_entry_word(frame)),
{
    assert((PRESENT | WRITABLE) & !ALL_FLAGS == 0) by (bit_vector);
    assert((PRESENT | WRITABLE) & PRESENT == PRESENT) by (bit_vector);
    assert((PRESENT | WRITABLE) & HUGE_PAGE != HUGE_PAGE) by (bit_vector);
    lemma_entry_word(frame, PRESENT | WRITABLE);
}

/// A table of level `L`: a handle on the 512 entry words at its virtual address.
pub struct Table<L: TableLevel> {
    addr: u64,
    level: PhantomData<L>,
}

impl<L: TableLevel> Clone for Table<L> {
    fn clone(&self) -> (t: Self)
        ensures
            t.address() == self.address(),
    {
        Table { addr: self.addr, level: PhantomData }
    }
}

impl<L: TableLevel> Copy for Table<L> {}

impl<L: TableLevel> Table<L> {
    /// The virtual address of the table.
    pub closed spec fn address(&self) -> u64 {
        self.addr
    }

    /// Tables lie on page boundaries.
    pub open spec fn wf(&self) -> bool {
        page_aligned(self.address())
    }

    /// The virtual address of the table.
    pub fn addr(&self) -> (a: u64)
        ensures
            a == self.address(),
    {
        self.addr
    }

    /// Entry `index` of the table.
    pub fn entry(&self, mem: &PageTableMemory, index: u64) -> (e: Entry)
        requires
            index < ENTRY_COUNT,
        ensures
            e.0 == word(mem@, entry_address(self.address(), index)),
    {
        Entry(mem.read(self.addr | (index << 3)))
    }

    /// Stores `e` in entry `index` of the table.
    pub fn set_entry(&self, mem: &mut PageTableMemory, index: u64, e: Entry)
        requires
            index < ENTRY_COUNT,
        ensures
            final(mem)@ == old(mem)@.insert(entry_address(self.address(), index), e.0),
    {
        mem.write(self.addr | (index << 3), e.0);
    }

    /// Clears every entry of the table.
    pub fn zero(&self, mem: &mut PageTableMemory)
        requires
            self.wf(),
        ensures
            final(mem)@ == zero_table(old(mem)@, self.address()),
    {
        let ghost m0 = old(mem)@;
        let ghost t = self.addr;
        let mut i: u64 = 0;
        while i < ENTRY_COUNT
            invariant
                i <= ENTRY_COUNT,
                page_aligned(t),
                t == self.address(),
                mem@ == m0.union_prefer_right(
                    Map::new(|a: u64| in_table(t, a) && a & 0xfff < i * 8, |a: u64| 0u64),
                ),
            decreases ENTRY_COUNT - i,
        {
            let mut e = self.entry(mem, i);
            e.set_unused();
            self.set_entry(mem, i, e);
            proof {
                let ea = entry_address(t, i);
                lemma_entry_address(t, i);
                assert forall|a: u64|
                    (in_table(t, a) && a & 0xfff < (i + 1) * 8) <==> ((in_table(t, a) && a
                        & 0xfff < i * 8) || a == ea) by {
                    assert((a & 0xffff_ffff_ffff_f000 == t && a & 7 == 0 && a & 0xfff < (i + 1)
                        * 8) <==> ((a & 0xffff_ffff_ffff_f000 == t && a & 7 == 0 && a & 0xfff < i
                        * 8) || a == t | (i << 3))) by (bit_vector)
                        requires
                            t & 0xfff == 0,
                            i < 512,
                    ;
                }
                assert(mem@ =~= m0.union_prefer_right(
                    Map::new(|a: u64| in_table(t, a) && a & 0xfff < (i + 1) * 8, |a: u64| 0u64),
                ));
            }
            i = i + 1;
        }
        proof {
            assert forall|a: u64| (in_table(t, a) && a & 0xfff < 512 * 8) <==> in_table(t, a) by {
                assert(a & 0xfff < 4096) by (bit_vector);
            }
            assert(mem@ =~= zero_table(m0, t));
        }
    }
}

impl Table<Level4> {
    /// The P4 table, at its recursive address.
    pub fn p4() -> (t: Table<Level4>)
        ensures
            t.address() == PAGE4,
            t.wf(),
    {
        assert(PAGE4 & 0xfff == 0) by (bit_vector);
        Table { addr: PAGE4, level: PhantomData }
    }
}

impl<L: HierachicalLevel> Table<L> {
    /// The address of the table that entry `index` points to, if it points to one.
    fn next_table_addr(&self, mem: &PageTableMemory, index: u64) -> (r: Option<u64>)
        requires
            index < ENTRY_COUNT,
        ensures
            r == (if leads_to_table(word(mem@, entry_address(self.address(), index))) {
                Some(next_table_address(self.address(), index))
            } else {
                None
            }),
    {
        let entry_flags = self.entry(mem, index).flags();
        proof {
            let e = word(mem@, entry_address(self.address(), index));
            assert(((e & ALL_FLAGS) & PRESENT == PRESENT <==> e & PRESENT == PRESENT) && ((e
                & ALL_FLAGS) & HUGE_PAGE == HUGE_PAGE <==> e & HUGE_PAGE == HUGE_PAGE))
                by (bit_vector);
        }
        if entry_flags.contains(PRESENT) && !entry_flags.contains(HUGE_PAGE) {
            Some((self.addr << 9) | (index << 12))
        } else {
            None
        }
    }

    /// The table that entry `index` points to, if it points to one.
    pub fn next_table(&self, mem: &PageTableMemory, index: u64) -> (r: Option<
        Table<L::NextLevel>,
    >)
        requires
            self.wf(),
            index < ENTRY_COUNT,
        ensures
            match r {
                Some(t) => leads_to_table(word(mem@, entry_address(self.address(), index)))
                    && t.address() == next_table_address(self.address(), index) && t.wf(),
                None => !leads_to_table(word(mem@, entry_address(self.address(), index))),
            },
    {
        match self.next_table_addr(mem, index) {
            Some(addr) => {
                proof {
                    lemma_next_table_address(self.address(), index);
                }
                Some(Table { addr, level: PhantomData })
            },
            None => None,
        }
    }

    /// Hangs a new table in the frame `got` that the allocator handed out
    /// under entry `index`: the entry points to the frame, present and
    /// writable, and the new table is cleared. Fails, with nothing written,
    /// when there is no frame or its start address does not fit an entry.
    pub fn hang_table(&self, mem: &mut PageTableMemory, index: u64, got: Option<Frame>) -> (r:
        Result<Table<L::NextLevel>, MapError>)
        requires
            self.wf(),
            index < ENTRY_COUNT,
            next_table_address(self.address(), index) != self.address(),
        ensures
            match got {
                None => r == Err::<Table<L::NextLevel>, MapError>(MapError::FrameAllocationFailed)
                    && final(mem)@ == old(mem)@,
                Some(f) => if f.number >= FRAME_NUMBER_LIMIT {
                    r == Err::<Table<L::NextLevel>, MapError>(MapError::FrameOutOfRange)
                        && final(mem)@ == old(mem)@
                } else {
                    &&& r matches Ok(t)
                    &&& t.address() == next_table_address(self.address(), index)
                    &&& t.wf()
                    &&& final(mem)@ == with_new_table(old(mem)@, self.address(), index, f.number)
                    &&& leads_to_table(table_entry_word(f.number))
                },
            },
    {
        let ghost m0 = mem@;
        let frame = match got {
            Some(f) => f,
            None => {
                return Err(MapError::FrameAllocationFailed);
            },
        };
        if frame.number >= FRAME_NUMBER_LIMIT {
            return Err(MapError::FrameOutOfRange);
        }
        let ghost f = frame.number;
        let mut e = self.entry(mem, index);
        e.set(frame, table_entry_flags());
        self.set_entry(mem, index, e);
        let t = self.next_table(mem, index);
        proof {
            lemma_table_entry_word(f);
        }
        match t {
            Some(t) => {
                t.zero(mem);
                proof {
                    let ea = entry_address(self.address(), index);
                    lemma_entry_address(self.address(), index);
                    assert(!in_table(t.address(), ea));
                    assert(mem@ == with_new_table(m0, self.address(), index, f));
                }
                Ok(t)
            },
            None => {
                proof {
                    assert(false);
                }
                Err(MapError::FrameOutOfRange)
            },
        }
    }

    /// The table that entry `index` points to, made first if there is none:
    /// then a frame is asked of `allocator` and hung under the entry (see
    /// `hang_table`). The allocator is not asked when the entry points to a
    /// table already.
    pub fn next_table_create<A: FrameAllocator>(
        &self,
        mem: &mut PageTableMemory,
        index: u64,
        allocator: &mut A,
    ) -> (r: Result<Table<L::NextLevel>, MapError>)
        requires
            self.wf(),
            index < ENTRY_COUNT,
            !leads_to_table(word(old(mem)@, entry_address(self.address(), index))) ==> {
                &&& !is_huge(word(old(mem)@, entry_address(self.address(), index)))
                &&& next_table_address(self.address(), index) != self.address()
            },
        ensures
            leads_to_table(word(old(mem)@, entry_address(self.address(), index))) ==> {
                &&& r is Ok
                &&& *final(allocator) == *old(allocator)
            },
            A::keeps_answers() ==> {
                let before = old(allocator).answers();
                let after = final(allocator).answers();
                let new = after.subrange(before.len() as int, after.len() as int);
                &&& before.len() <= after.len()
                &&& after.subrange(0, before.len() as int) == before
                &&& way_step(old(mem)@, self.address(), index, new, 0) == (
                    final(mem)@,
                    new.len() as int,
                    match r {
                        Ok(_) => None,
                        Err(e) => Some(e),
                    },
                )
                &&& !leads_to_table(word(old(mem)@, entry_address(self.address(), index))) ==> {
                    &&& new.len() == 1
                    &&& (r is Ok) == (new[0] matches Some(f) && f.number < FRAME_NUMBER_LIMIT)
                    &&& r is Ok ==> word(final(mem)@, entry_address(self.address(), index))
                        == entry_word(new[0]->0.number, PRESENT | WRITABLE)
                }
            },
            match r {
                Ok(t) => {
                    &&& t.address() == next_table_address(self.address(), index)
                    &&& t.wf()
                    &&& leads_to_table(word(final(mem)@, entry_address(self.address(), index)))
                    &&& exists|f: u64|
                        f < FRAME_NUMBER_LIMIT && final(mem)@ == #[trigger] ensure_table(
                            old(mem)@,
                            self.address(),
                            index,
                            f,
                        )
                },
                Err(_) => final(mem)@ == old(mem)@,
            },
    {
        let ghost m0 = mem@;
        if self.next_table(mem, index).is_none() {
            let got = allocator.allocate_frame();
            let ghost g = got;
            let r = self.hang_table(mem, index, got);
            proof {
                if A::keeps_answers() {
                    let before = old(allocator).answers();
                    let after = allocator.answers();
                    let new = after.subrange(before.len() as int, after.len() as int);
                    assert(new =~= seq![g]);
                    assert(after.subrange(0, before.len() as int) =~= before);
                }
                if let Some(f) = g {
                    if f.number < FRAME_NUMBER_LIMIT {
                        assert(mem@ == ensure_table(m0, self.address(), index, f.number));
                        lemma_ensure_table_word(
                            m0,
                            self.address(),
                            index,
                            f.number,
                            entry_address(self.address(), index),
                        );
                        lemma_next_table_address(self.address(), index);
                        lemma_in_table(
                            next_table_address(self.address(), index),
                            self.address(),
                            index,
                        );
                    }
                }
            }
            r
        } else {
            proof {
                lemma_next_table_address(self.address(), index);
                assert(mem@ == ensure_table(m0, self.address(), index, 0));
                if A::keeps_answers() {
                    let a = allocator.answers();
                    assert(a.subrange(0, a.len() as int) =~= a);
                    assert(a.subrange(a.len() as int, a.len() as int) =~= Seq::<Option<Frame>>::empty());
                }
            }
            Ok(Table { addr: (self.addr << 9) | (index << 12), level: PhantomData })
        }
    }
}

} // verus!
