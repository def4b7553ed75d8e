//! Page-table entries: a 64-bit word holding a frame's start address and flags.
use vstd::prelude::*;

use crate::memory::{Frame, PAGE_SIZE};

verus! {

/// The entry is in use: it points to a frame or to a table.
pub const PRESENT: u64 = 0x1;
/// Writes are allowed through this entry.
pub const WRITABLE: u64 = 0x2;
/// Code running in user mode may access the region.
pub const USER_ACCESSIBLE: u64 = 0x4;
/// Writes go straight to memory.
pub const WRITE_THROUGH: u64 = 0x8;
/// The region is not cached.
pub const NO_CACHE: u64 = 0x10;
/// Set by the CPU when the entry is used.
pub const ACCESSED: u64 = 0x20;
/// Set by the CPU when the region is written.
pub const DIRTY: u64 = 0x40;
/// The entry maps a 1 GiB (P3) or 2 MiB (P2) page instead of pointing to a table.
pub const HUGE_PAGE: u64 = 0x80;
/// The mapping is kept in the TLB across address-space switches.
pub const GLOBAL: u64 = 0x100;
/// Instructions may not be fetched from the region.
pub const NO_EXECUTE: u64 = 0x8000_0000_0000_0000;
/// Every flag bit above.
pub const ALL_FLAGS: u64 = 0x8000_0000_0000_01ff;
/// The bits of an entry that hold the start address of the frame (bits 12 to 51).
pub const ADDRESS_MASK: u64 = 0x000f_ffff_ffff_f000;
/// Frame numbers below this bound have a start address that fits the address field.
pub const FRAME_NUMBER_LIMIT: u64 = 0x100_0000_0000;

/// A set of entry flags: only the bits of `ALL_FLAGS` can be set.
#[derive(Clone, Copy)]
pub struct EntryFlags {
    bits: u64,
}

impl EntryFlags {
    /// The flag bits.
    pub closed spec fn spec_bits(&self) -> u64 {
        self.bits
    }

    /// Flag sets hold flag bits only.
    pub open spec fn wf(&self) -> bool {
        self.spec_bits() & !ALL_FLAGS == 0
    }

    /// The empty set of flags.
    pub fn empty() -> (f: EntryFlags)
        ensures
            f.spec_bits() == 0,
            f.wf(),
    {
        let f = EntryFlags { bits: 0 };
        assert(0u64 & !ALL_FLAGS == 0) by (bit_vector);
        f
    }

    /// The flags of `bits`, other bits dropped.
    pub fn from_bits_truncate(bits: u64) -> (f: EntryFlags)
        ensures
            f.spec_bits() == bits & ALL_FLAGS,
            f.wf(),
    {
        assert((bits & ALL_FLAGS) & !ALL_FLAGS == 0) by (bit_vector);
        EntryFlags { bits: bits & ALL_FLAGS }
    }

    /// The flag bits.
    #[verifier::when_used_as_spec(spec_bits)]
    pub fn bits(&self) -> (b: u64)
        ensures
            b == self.spec_bits(),
    {
        self.bits
    }

    /// Whether every flag of `other` is in `self`.
    pub fn contains(&self, other: u64) -> (r: bool)
        ensures
            r == (self.spec_bits() & other == other),
    {
        self.bits & other == other
    }

    /// `self` with the flags of `other` added.
    pub fn union(&self, other: u64) -> (f: EntryFlags)
        requires
            self.wf(),
        ensures
            f.spec_bits() == self.spec_bits() | (other & ALL_FLAGS),
            f.wf(),
    {
        let b = self.bits;
        assert((b | (other & ALL_FLAGS)) & !ALL_FLAGS == 0) by (bit_vector)
            requires
                b & !ALL_FLAGS == 0,
        ;
        EntryFlags { bits: self.bits | (other & ALL_FLAGS) }
    }
}

/// Whether the entry word `e` is in use.
pub open spec fn is_present(e: u64) -> bool {
    e & PRESENT == PRESENT
}

/// Whether the entry word `e` has its huge-page flag set.
pub open spec fn is_huge(e: u64) -> bool {
    e & HUGE_PAGE == HUGE_PAGE
}

/// Whether the entry word `e` points to a table of the next level.
pub open spec fn leads_to_table(e: u64) -> bool {
    is_present(e) && !is_huge(e)
}

/// The number of the frame whose start address the entry word `e` holds.
pub open spec fn frame_number_of(e: u64) -> u64 {
    (e & ADDRESS_MASK) / 4096
}

/// The frame an entry word points to, if it is in use.
pub open spec fn pointed_frame_of(e: u64) -> Option<u64> {
    if is_present(e) {
        Some(frame_number_of(e))
    } else {
        None
    }
}

/// The entry word that points to frame `number` with flag bits `flags`.
pub open spec fn entry_word(number: u64, flags: u64) -> u64 {
    ((number * 4096) as u64) | flags
}

/// A frame number below `FRAME_NUMBER_LIMIT` survives being stored in an entry,
/// and the flags stored beside it are read back.
pub proof fn lemma_entry_word(number: u64, flags: u64)
    requires
        number < FRAME_NUMBER_LIMIT,
        flags & !ALL_FLAGS == 0,
    ensures
        frame_number_of(entry_word(number, flags)) == number,
        entry_word(number, flags) & ALL_FLAGS == flags,
        is_present(entry_word(number, flags)) == (flags & PRESENT == PRESENT),
        is_huge(entry_word(number, flags)) == (flags & HUGE_PAGE == HUGE_PAGE),
        entry_word(number, flags) != 0 || flags == 0,
{
    let w = entry_word(number, flags);
    assert(number * 4096 < 0x10_0000_0000_0000) by (nonlinear_arith)
        requires
            number < FRAME_NUMBER_LIMIT,
    ;
    let s = (number * 4096) as u64;
    assert(s == number << 12) by (bit_vector)
        requires
            number < 0x100_0000_0000u64,
            s == (number * 4096) as u64,
    ;
    assert((((number << 12) | flags) & ADDRESS_MASK) / 4096 == number) by (bit_vector)
        requires
            number < 0x100_0000_0000u64,
            flags & !ALL_FLAGS == 0,
    ;
    assert(((number << 12) | flags) & ALL_FLAGS == flags) by (bit_vector)
        requires
            number < 0x100_0000_0000u64,
            flags & !ALL_FLAGS == 0,
    ;
    assert((((number << 12) | flags) & PRESENT == PRESENT) == (flags & PRESENT == PRESENT))
        by (bit_vector)
        requires
            flags & !ALL_FLAGS == 0,
    ;
    assert((((number << 12) | flags) & HUGE_PAGE == HUGE_PAGE) == (flags & HUGE_PAGE
        == HUGE_PAGE)) by (bit_vector)
        requires
            flags & !ALL_FLAGS == 0,
    ;
    assert(((number << 12) | flags) != 0 || flags == 0) by (bit_vector);
}

/// A page-table entry.
#[derive(Clone, Copy)]
pub struct Entry(pub u64);

impl Entry {
    /// Whether the entry is all zero.
    pub fn is_unused(&self) -> (r: bool)
        ensures
            r == (self.0 == 0),
    {
        self.0 == 0
    }

    /// Clears the entry.
    pub fn set_unused(&mut self)
        ensures
            final(self).0 == 0,
    {
        self.0 = 0;
    }

    /// The flag bits of the entry.
    pub fn flags(&self) -> (f: EntryFlags)
        ensures
            f.spec_bits() == self.0 & ALL_FLAGS,
            f.wf(),
    {
        EntryFlags::from_bits_truncate(self.0)
    }

    /// The frame the entry points to, if it is in use.
    pub fn pointed_frame(&self) -> (r: Option<Frame>)
        ensures
            r == (match pointed_frame_of(self.0) {
                Some(n) => Some(Frame { number: n }),
                None => None,
            }),
    {
        if self.flags().contains(PRESENT) {
            proof {
                let e = self.0;
                assert((e & ALL_FLAGS) & PRESENT == PRESENT <==> e & PRESENT == PRESENT)
                    by (bit_vector);
            }
            Some(Frame::containing_addr(self.0 & ADDRESS_MASK))
        } else {
            proof {
                let e = self.0;
                assert((e & ALL_FLAGS) & PRESENT == PRESENT <==> e & PRESENT == PRESENT)
                    by (bit_vector);
            }
            None
        }
    }

    /// Points the entry to `frame` with `flags`.
    pub fn set(&mut self, frame: Frame, flags: EntryFlags)
        requires
            frame.number < FRAME_NUMBER_LIMIT,
            flags.wf(),
        ensures
            final(self).0 == entry_word(frame.number, flags.spec_bits()),
    {
        proof {
            assert(frame.number * 4096 < 0x10_0000_0000_0000) by (nonlinear_arith)
                requires
                    frame.number < FRAME_NUMBER_LIMIT,
            ;
        }
        self.0 = frame.start_addr() | flags.bits();
    }
}

/// The flag set of the entries that point to a new table: present and writable.
pub fn table_entry_flags() -> (f: EntryFlags)
    ensures
        f.spec_bits() == PRESENT | WRITABLE,
        f.wf(),
{
    assert((PRESENT | WRITABLE) & ALL_FLAGS == PRESENT | WRITABLE) by (bit_vector);
    EntryFlags::from_bits_truncate(PRESENT | WRITABLE)
}

} // verus!
