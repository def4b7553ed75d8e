//! Four-level page tables reached through the recursive P4 entry.
use vstd::prelude::*;

pub mod entry;
pub mod memory;
pub mod table;
pub mod laws;

use crate::memory::{Frame, FrameAllocator, PAGE_SIZE};
use crate::memory::paging::entry::{
    ADDRESS_MASK, ALL_FLAGS, EntryFlags, FRAME_NUMBER_LIMIT, HUGE_PAGE, PRESENT, entry_word,
    frame_number_of, is_huge, is_present, leads_to_table, lemma_entry_word, pointed_frame_of,
};
use crate::memory::paging::memory::{PageTableMemory, word};
use crate::memory::paging::table::{
    ENTRY_COUNT, Level4, PAGE4, Table, ensure_table, entry_address, hang_error, in_table,
    lemma_entry_address, lemma_ensure_table_word, lemma_in_table, lemma_next_table_address,
    lemma_table_entry_word, lemma_way_step_shift, lemma_zero_entry, next_table_address,
    page_aligned, table_entry_word, way_step, zero_table,
};

verus! {

/// A physical address.
pub type PhysicalAddr = u64;

/// A virtual address.
pub type VirtualAddr = u64;

/// Why a mapping could not be made.
#[derive(Debug, Clone, Copy, PartialEq, Eq, Structural)]
pub enum MapError {
    /// The frame allocator had no frame left.
    FrameAllocationFailed,
    /// The frame allocator handed out a frame whose start address does not
    /// fit the address field of an entry.
    FrameOutOfRange,
}

/// Whether `addr` is canonical: bits 47 to 63 all equal.
pub open spec fn canonical(addr: u64) -> bool {
    addr < 0x0000_8000_0000_0000 || addr >= 0xffff_8000_0000_0000
}

/// Whether `number` is the number of a page at a canonical address.
pub open spec fn page_number_valid(number: u64) -> bool {
    number < 0x8_0000_0000 || (0xf_fff8_0000_0000 <= number && number < 0x10_0000_0000_0000)
}

/// The index, in a table, that the page number `number` selects: nine bits
/// taken at `shift`.
pub open spec fn index_of(number: u64, shift: u64) -> u64 {
    (number >> shift) & 0x1ff
}

/// The P4 index of page `n`.
pub open spec fn p4_index(n: u64) -> u64 {
    index_of(n, 27)
}

/// The P3 index of page `n`.
pub open spec fn p3_index(n: u64) -> u64 {
    index_of(n, 18)
}

/// The P2 index of page `n`.
pub open spec fn p2_index(n: u64) -> u64 {
    index_of(n, 9)
}

/// The P1 index of page `n`.
pub open spec fn p1_index(n: u64) -> u64 {
    index_of(n, 0)
}

/// The address of the P3 table on the way to page `n`.
pub open spec fn p3_address(n: u64) -> u64 {
    next_table_address(PAGE4, p4_index(n))
}

/// The address of the P2 table on the way to page `n`.
pub open spec fn p2_address(n: u64) -> u64 {
    next_table_address(p3_address(n), p3_index(n))
}

/// The address of the P1 table on the way to page `n`.
pub open spec fn p1_address(n: u64) -> u64 {
    next_table_address(p2_address(n), p2_index(n))
}

/// The P4 entry on the way to page `n`.
pub open spec fn p4_entry(m: Map<u64, u64>, n: u64) -> u64 {
    word(m, entry_address(PAGE4, p4_index(n)))
}

/// The P3 entry on the way to page `n`.
pub open spec fn p3_entry(m: Map<u64, u64>, n: u64) -> u64 {
    word(m, entry_address(p3_address(n), p3_index(n)))
}

/// The P2 entry on the way to page `n`.
pub open spec fn p2_entry(m: Map<u64, u64>, n: u64) -> u64 {
    word(m, entry_address(p2_address(n), p2_index(n)))
}

/// The P1 entry of page `n`.
pub open spec fn p1_entry(m: Map<u64, u64>, n: u64) -> u64 {
    word(m, entry_address(p1_address(n), p1_index(n)))
}

/// The frame that page `n` is mapped to by the tables in `m`: through a
/// 1 GiB page named by the P3 entry, a 2 MiB page named by the P2 entry, or
/// the frame of the P1 entry.
pub open spec fn page_frame(m: Map<u64, u64>, n: u64) -> Option<u64> {
    let e4 = p4_entry(m, n);
    let e3 = p3_entry(m, n);
    let e2 = p2_entry(m, n);
    if !leads_to_table(e4) {
        None
    } else if is_present(e3) && is_huge(e3) {
        Some((frame_number_of(e3) + p2_index(n) * 512 + p1_index(n)) as u64)
    } else if !is_present(e3) {
        None
    } else if is_present(e2) && is_huge(e2) {
        Some((frame_number_of(e2) + p1_index(n)) as u64)
    } else if !is_present(e2) {
        None
    } else {
        pointed_frame_of(p1_entry(m, n))
    }
}

/// Whether the walk to page `n` meets a huge page whose frame is not aligned
/// to its size; the kernel stops there.
pub open spec fn walk_fails(m: Map<u64, u64>, n: u64) -> bool {
    let e3 = p3_entry(m, n);
    let e2 = p2_entry(m, n);
    leads_to_table(p4_entry(m, n)) && {
        ||| is_present(e3) && is_huge(e3) && frame_number_of(e3) % 0x4_0000 != 0
        ||| leads_to_table(e3) && is_present(e2) && is_huge(e2) && frame_number_of(e2) % 512 != 0
    }
}

/// Whether the way to page `n` leads through tables down to its P1 table.
pub open spec fn tables_present(m: Map<u64, u64>, n: u64) -> bool {
    &&& leads_to_table(p4_entry(m, n))
    &&& leads_to_table(p3_entry(m, n))
    &&& leads_to_table(p2_entry(m, n))
}

/// The physical address that the virtual address `addr` translates to.
pub open spec fn translation(m: Map<u64, u64>, addr: u64) -> Option<u64> {
    match page_frame(m, addr / 4096) {
        Some(f) => Some((f * 4096 + addr % 4096) as u64),
        None => None,
    }
}

/// A frame named by an entry fits the address field.
pub proof fn lemma_frame_number_bound(e: u64)
    ensures
        frame_number_of(e) < FRAME_NUMBER_LIMIT,
{
    assert((e & ADDRESS_MASK) / 4096 < 0x100_0000_0000) by (bit_vector);
}

/// Page frames are below `FRAME_NUMBER_LIMIT + 512 * 512`.
pub proof fn lemma_page_frame_bound(m: Map<u64, u64>, n: u64)
    ensures
        page_frame(m, n) matches Some(f) ==> f < FRAME_NUMBER_LIMIT + 512 * 512,
{
    lemma_frame_number_bound(p3_entry(m, n));
    lemma_frame_number_bound(p2_entry(m, n));
    lemma_frame_number_bound(p1_entry(m, n));
    assert(index_of(n, 18) < 512 && index_of(n, 9) < 512 && index_of(n, 0) < 512) by (bit_vector);
}

/// Whether page `n` lies in the last slot of the P4, the one that maps the
/// page tables themselves.
pub open spec fn in_recursive_slot(n: u64) -> bool {
    p4_index(n) == 511
}

/// Tables on the way to pages outside the recursive slot: page-aligned, at
/// distinct addresses level by level, one table per path.
pub proof fn lemma_table_addresses(x: u64, y: u64)
    requires
        !in_recursive_slot(x),
        !in_recursive_slot(y),
    ensures
        page_aligned(PAGE4),
        page_aligned(p3_address(x)),
        page_aligned(p2_address(x)),
        page_aligned(p1_address(x)),
        p3_address(x) != PAGE4,
        p2_address(x) != PAGE4,
        p1_address(x) != PAGE4,
        p2_address(x) != p3_address(y),
        p1_address(x) != p3_address(y),
        p1_address(x) != p2_address(y),
        (p3_address(x) == p3_address(y)) == (p4_index(x) == p4_index(y)),
        (p2_address(x) == p2_address(y)) == (p4_index(x) == p4_index(y) && p3_index(x)
            == p3_index(y)),
        (p1_address(x) == p1_address(y)) == (p4_index(x) == p4_index(y) && p3_index(x)
            == p3_index(y) && p2_index(x) == p2_index(y)),
        p4_index(x) < ENTRY_COUNT,
        p3_index(x) < ENTRY_COUNT,
        p2_index(x) < ENTRY_COUNT,
        p1_index(x) < ENTRY_COUNT,
{
    let a4 = p4_index(x);
    let a3 = p3_index(x);
    let a2 = p2_index(x);
    let b4 = p4_index(y);
    let b3 = p3_index(y);
    let b2 = p2_index(y);
    assert(a4 < 512 && a3 < 512 && a2 < 512 && p1_index(x) < 512) by (bit_vector)
        requires
            a4 == (x >> 27u64) & 0x1ff,
            a3 == (x >> 18u64) & 0x1ff,
            a2 == (x >> 9u64) & 0x1ff,
    ;
    assert(b4 < 512 && b3 < 512 && b2 < 512) by (bit_vector)
        requires
            b4 == (y >> 27u64) & 0x1ff,
            b3 == (y >> 18u64) & 0x1ff,
            b2 == (y >> 9u64) & 0x1ff,
    ;
    let p4: u64 = 0xffff_ffff_ffff_f000;
    assert({
        let x3 = (p4 << 9) | (a4 << 12);
        let x2 = (x3 << 9) | (a3 << 12);
        let x1 = (x2 << 9) | (a2 << 12);
        let y3 = (p4 << 9) | (b4 << 12);
        let y2 = (y3 << 9) | (b3 << 12);
        let y1 = (y2 << 9) | (b2 << 12);
        &&& p4 & 0xfff == 0
        &&& x3 & 0xfff == 0
        &&& x2 & 0xfff == 0
        &&& x1 & 0xfff == 0
        &&& x3 != p4
        &&& x2 != p4
        &&& x1 != p4
        &&& x2 != y3
        &&& x1 != y3
        &&& x1 != y2
        &&& (x3 == y3) == (a4 == b4)
        &&& (x2 == y2) == (a4 == b4 && a3 == b3)
        &&& (x1 == y1) == (a4 == b4 && a3 == b3 && a2 == b2)
    }) by (bit_vector)
        requires
            p4 == 0xffff_ffff_ffff_f000u64,
            a4 < 511,
            a3 < 512,
            a2 < 512,
            b4 < 511,
            b3 < 512,
            b2 < 512,
    ;
}

/// Two pages at canonical addresses with the same four indices are the same page.
pub proof fn lemma_same_indices(x: u64, y: u64)
    requires
        page_number_valid(x),
        page_number_valid(y),
        p4_index(x) == p4_index(y),
        p3_index(x) == p3_index(y),
        p2_index(x) == p2_index(y),
        p1_index(x) == p1_index(y),
    ensures
        x == y,
{
    assert(x == y) by (bit_vector)
        requires
            x < 0x8_0000_0000u64 || (0xf_fff8_0000_0000u64 <= x && x < 0x10_0000_0000_0000u64),
            y < 0x8_0000_0000u64 || (0xf_fff8_0000_0000u64 <= y && y < 0x10_0000_0000_0000u64),
            (x >> 27u64) & 0x1ff == (y >> 27u64) & 0x1ff,
            (x >> 18u64) & 0x1ff == (y >> 18u64) & 0x1ff,
            (x >> 9u64) & 0x1ff == (y >> 9u64) & 0x1ff,
            (x >> 0u64) & 0x1ff == (y >> 0u64) & 0x1ff,
    ;
}

/// The tables on the way to page `n`, level by level, with the index taken
/// in each: `(PAGE4, p4_index)`, `(p3_address, p3_index)`, `(p2_address, p2_index)`.
pub open spec fn on_path(n: u64, table: u64, index: u64) -> bool {
    ||| table == PAGE4 && index == p4_index(n)
    ||| table == p3_address(n) && index == p3_index(n)
    ||| table == p2_address(n) && index == p2_index(n)
}

/// Whether a table can be hung under entry `index` of the table at `table`
/// if it needs one: unless the entry points to a table, it is no huge page
/// and the new table would not be the table at `table` itself.
pub open spec fn can_hang_table(m: Map<u64, u64>, table: u64, index: u64) -> bool {
    !leads_to_table(word(m, entry_address(table, index))) ==> {
        &&& !is_huge(word(m, entry_address(table, index)))
        &&& next_table_address(table, index) != table
    }
}

proof fn lemma_path_facts(n: u64, q: u64, table: u64, index: u64)
    requires
        !in_recursive_slot(n),
        !in_recursive_slot(q),
        on_path(n, table, index),
    ensures
        page_aligned(table),
        index < ENTRY_COUNT,
        page_aligned(next_table_address(table, index)),
        next_table_address(table, index) != table,
        in_table(next_table_address(table, index), entry_address(PAGE4, p4_index(q))) == (
        next_table_address(table, index) == PAGE4),
        in_table(next_table_address(table, index), entry_address(p3_address(q), p3_index(q)))
            == (next_table_address(table, index) == p3_address(q)),
        in_table(next_table_address(table, index), entry_address(p2_address(q), p2_index(q)))
            == (next_table_address(table, index) == p2_address(q)),
        in_table(next_table_address(table, index), entry_address(p1_address(q), p1_index(q)))
            == (next_table_address(table, index) == p1_address(q)),
        (entry_address(PAGE4, p4_index(q)) == entry_address(table, index)) == (table == PAGE4
            && p4_index(q) == index),
        (entry_address(p3_address(q), p3_index(q)) == entry_address(table, index)) == (table
            == p3_address(q) && p3_index(q) == index),
        (entry_address(p2_address(q), p2_index(q)) == entry_address(table, index)) == (table
            == p2_address(q) && p2_index(q) == index),
        (entry_address(p1_address(q), p1_index(q)) == entry_address(table, index)) == (table
            == p1_address(q) && p1_index(q) == index),
{
    lemma_table_addresses(n, q);
    lemma_table_addresses(q, n);
    lemma_table_addresses(n, n);
    lemma_table_addresses(q, q);
    let c = next_table_address(table, index);
    lemma_next_table_address(table, index);
    lemma_in_table(c, PAGE4, p4_index(q));
    lemma_in_table(c, p3_address(q), p3_index(q));
    lemma_in_table(c, p2_address(q), p2_index(q));
    lemma_in_table(c, p1_address(q), p1_index(q));
    lemma_entry_address(table, index);
    lemma_entry_address(PAGE4, p4_index(q));
    lemma_entry_address(p3_address(q), p3_index(q));
    lemma_entry_address(p2_address(q), p2_index(q));
    lemma_entry_address(p1_address(q), p1_index(q));
}

/// Hanging a new, zeroed table under an entry on the way to a page changes
/// the frame of no page outside the recursive slot, and makes no walk fail.
pub proof fn lemma_ensure_table_keeps_frames(
    m: Map<u64, u64>,
    n: u64,
    table: u64,
    index: u64,
    frame: u64,
    q: u64,
)
    requires
        !in_recursive_slot(n),
        !in_recursive_slot(q),
        on_path(n, table, index),
        can_hang_table(m, table, index),
        frame < FRAME_NUMBER_LIMIT,
    ensures
        page_frame(ensure_table(m, table, index, frame), q) == page_frame(m, q),
        walk_fails(ensure_table(m, table, index, frame), q) == walk_fails(m, q),
{
    lemma_path_facts(n, q, table, index);
    lemma_table_addresses(n, q);
    lemma_table_addresses(q, n);
    lemma_zero_entry();
    lemma_table_entry_word(frame);
    let m2 = ensure_table(m, table, index, frame);
    lemma_ensure_table_word(m, table, index, frame, entry_address(PAGE4, p4_index(q)));
    lemma_ensure_table_word(m, table, index, frame, entry_address(p3_address(q), p3_index(q)));
    lemma_ensure_table_word(m, table, index, frame, entry_address(p2_address(q), p2_index(q)));
    lemma_ensure_table_word(m, table, index, frame, entry_address(p1_address(q), p1_index(q)));
}

/// Storing `v` in the P1 entry of page `n` changes the frame of no other page
/// outside the recursive slot, and makes no other walk fail.
pub proof fn lemma_leaf_write_keeps_frames(m: Map<u64, u64>, n: u64, v: u64, q: u64)
    requires
        page_number_valid(n),
        page_number_valid(q),
        !in_recursive_slot(n),
        !in_recursive_slot(q),
        q != n,
    ensures
        page_frame(m.insert(entry_address(p1_address(n), p1_index(n)), v), q) == page_frame(m, q),
        walk_fails(m.insert(entry_address(p1_address(n), p1_index(n)), v), q) == walk_fails(m, q),
{
    lemma_table_addresses(n, q);
    lemma_table_addresses(q, n);
    let a = entry_address(p1_address(n), p1_index(n));
    lemma_entry_address(p1_address(n), p1_index(n));
    lemma_entry_address(PAGE4, p4_index(q));
    lemma_entry_address(p3_address(q), p3_index(q));
    lemma_entry_address(p2_address(q), p2_index(q));
    lemma_entry_address(p1_address(q), p1_index(q));
    if p4_index(q) == p4_index(n) && p3_index(q) == p3_index(n) && p2_index(q) == p2_index(n)
        && p1_index(q) == p1_index(n) {
        lemma_same_indices(q, n);
    }
}

/// Storing `v` in the P1 entry of page `n`, when the way there leads through
/// tables, maps `n` to the frame `v` names.
pub proof fn lemma_leaf_write_maps(m: Map<u64, u64>, n: u64, v: u64)
    requires
        !in_recursive_slot(n),
        leads_to_table(p4_entry(m, n)),
        leads_to_table(p3_entry(m, n)),
        leads_to_table(p2_entry(m, n)),
    ensures
        ({
            let m2 = m.insert(entry_address(p1_address(n), p1_index(n)), v);
            &&& page_frame(m2, n) == pointed_frame_of(v)
            &&& p1_entry(m2, n) == v
            &&& !walk_fails(m2, n)
            &&& leads_to_table(p4_entry(m2, n))
            &&& leads_to_table(p3_entry(m2, n))
            &&& leads_to_table(p2_entry(m2, n))
        }),
{
    lemma_table_addresses(n, n);
    lemma_entry_address(p1_address(n), p1_index(n));
    lemma_entry_address(PAGE4, p4_index(n));
    lemma_entry_address(p3_address(n), p3_index(n));
    lemma_entry_address(p2_address(n), p2_index(n));
}

/// For a page outside the recursive slot: an entry on the way that points to
/// no table is no huge page, and the P1 entry, if the way leads there, is unused.
pub open spec fn clear_way(m: Map<u64, u64>, n: u64) -> bool {
    let e4 = p4_entry(m, n);
    let e3 = p3_entry(m, n);
    let e2 = p2_entry(m, n);
    if !leads_to_table(e4) {
        !is_huge(e4)
    } else if !leads_to_table(e3) {
        !is_huge(e3)
    } else if !leads_to_table(e2) {
        !is_huge(e2)
    } else {
        p1_entry(m, n) == 0
    }
}

/// Whether `map_to` can map page `n`: going down the way to the page and
/// hanging a new table wherever an entry points to none, each such entry can
/// take a table (see `can_hang_table`), and the P1 entry reached is unused.
/// Which entries need a table does not depend on the frames the new tables
/// take; here they are taken to be frame 0.
pub open spec fn can_map(m: Map<u64, u64>, n: u64) -> bool {
    &&& can_hang_table(m, PAGE4, p4_index(n))
    &&& can_hang_table(with_p3(m, n, 0), p3_address(n), p3_index(n))
    &&& can_hang_table(with_p2(m, n, 0, 0), p2_address(n), p2_index(n))
    &&& p1_entry(with_p1(m, n, 0, 0, 0), n) == 0
}

/// Two memories that differ only in words that both point to a table.
pub open spec fn alike(ma: Map<u64, u64>, mb: Map<u64, u64>) -> bool {
    forall|a: u64|
        #![trigger word(ma, a)]
        #![trigger word(mb, a)]
        word(ma, a) == word(mb, a) || (leads_to_table(word(ma, a)) && leads_to_table(word(mb, a)))
}

/// Making sure of a table keeps memories alike, whatever frames the new
/// tables take.
proof fn lemma_alike_ensure_table(
    ma: Map<u64, u64>,
    mb: Map<u64, u64>,
    table: u64,
    index: u64,
    fa: u64,
    fb: u64,
)
    requires
        alike(ma, mb),
        page_aligned(table),
        index < ENTRY_COUNT,
        fa < FRAME_NUMBER_LIMIT,
        fb < FRAME_NUMBER_LIMIT,
        can_hang_table(ma, table, index),
    ensures
        alike(ensure_table(ma, table, index, fa), ensure_table(mb, table, index, fb)),
        can_hang_table(mb, table, index),
{
    let ea = entry_address(table, index);
    lemma_table_entry_word(fa);
    lemma_table_entry_word(fb);
    assert(word(ma, ea) == word(mb, ea) || (leads_to_table(word(ma, ea)) && leads_to_table(
        word(mb, ea),
    )));
    if !leads_to_table(word(ma, ea)) {
        assert forall|a: u64|
            #![trigger word(ensure_table(ma, table, index, fa), a)]
            #![trigger word(ensure_table(mb, table, index, fb), a)]
            word(ensure_table(ma, table, index, fa), a) == word(
                ensure_table(mb, table, index, fb),
                a,
            ) || (leads_to_table(word(ensure_table(ma, table, index, fa), a)) && leads_to_table(
                word(ensure_table(mb, table, index, fb), a),
            )) by {
            lemma_ensure_table_word(ma, table, index, fa, a);
            lemma_ensure_table_word(mb, table, index, fb, a);
            assert(word(ma, a) == word(mb, a) || (leads_to_table(word(ma, a)) && leads_to_table(
                word(mb, a),
            )));
        }
    }
}

/// A word that points to a table is not zero.
proof fn lemma_leads_nonzero(e: u64)
    requires
        leads_to_table(e),
    ensures
        e != 0,
{
    assert(e & PRESENT == PRESENT ==> e != 0) by (bit_vector);
}

/// `can_map` holds whatever frames the new tables take.
pub proof fn lemma_can_map_frames(m: Map<u64, u64>, n: u64, f3: u64, f2: u64, f1: u64)
    requires
        can_map(m, n),
        f3 < FRAME_NUMBER_LIMIT,
        f2 < FRAME_NUMBER_LIMIT,
        f1 < FRAME_NUMBER_LIMIT,
    ensures
        can_hang_table(m, PAGE4, p4_index(n)),
        can_hang_table(with_p3(m, n, f3), p3_address(n), p3_index(n)),
        can_hang_table(with_p2(m, n, f3, f2), p2_address(n), p2_index(n)),
        p1_entry(with_p1(m, n, f3, f2, f1), n) == 0,
{
    lemma_index_bounds(n);
    assert(page_aligned(PAGE4)) by (bit_vector);
    lemma_next_table_address(PAGE4, p4_index(n));
    lemma_next_table_address(p3_address(n), p3_index(n));
    lemma_alike_ensure_table(m, m, PAGE4, p4_index(n), 0, f3);
    lemma_alike_ensure_table(
        with_p3(m, n, 0),
        with_p3(m, n, f3),
        p3_address(n),
        p3_index(n),
        0,
        f2,
    );
    lemma_alike_ensure_table(
        with_p2(m, n, 0, 0),
        with_p2(m, n, f3, f2),
        p2_address(n),
        p2_index(n),
        0,
        f1,
    );
    let a1 = entry_address(p1_address(n), p1_index(n));
    assert(word(with_p1(m, n, 0, 0, 0), a1) == 0);
    if word(with_p1(m, n, f3, f2, f1), a1) != 0 {
        lemma_leads_nonzero(word(with_p1(m, n, 0, 0, 0), a1));
    }
}

/// Outside the recursive slot, `can_map` is `clear_way`.
pub proof fn lemma_can_map_clear_way(m: Map<u64, u64>, n: u64)
    requires
        !in_recursive_slot(n),
    ensures
        can_map(m, n) == clear_way(m, n),
{
    lemma_zero_entry();
    lemma_table_entry_word(0);
    lemma_path_facts(n, n, PAGE4, p4_index(n));
    lemma_path_facts(n, n, p3_address(n), p3_index(n));
    lemma_path_facts(n, n, p2_address(n), p2_index(n));
    lemma_table_addresses(n, n);
    let m3 = with_p3(m, n, 0);
    let m2 = with_p2(m, n, 0, 0);
    let a4 = entry_address(PAGE4, p4_index(n));
    let a3 = entry_address(p3_address(n), p3_index(n));
    let a2 = entry_address(p2_address(n), p2_index(n));
    let a1 = entry_address(p1_address(n), p1_index(n));
    lemma_ensure_table_word(m, PAGE4, p4_index(n), 0, a3);
    lemma_ensure_table_word(m, PAGE4, p4_index(n), 0, a2);
    lemma_ensure_table_word(m, PAGE4, p4_index(n), 0, a1);
    lemma_ensure_table_word(m3, p3_address(n), p3_index(n), 0, a2);
    lemma_ensure_table_word(m3, p3_address(n), p3_index(n), 0, a1);
    lemma_ensure_table_word(m2, p2_address(n), p2_index(n), 0, a1);
}

/// The indices of a page are below `ENTRY_COUNT`, and its tables lie on page
/// boundaries.
pub proof fn lemma_index_bounds(n: u64)
    ensures
        p4_index(n) < ENTRY_COUNT,
        p3_index(n) < ENTRY_COUNT,
        p2_index(n) < ENTRY_COUNT,
        p1_index(n) < ENTRY_COUNT,
        page_aligned(p3_address(n)),
        page_aligned(p2_address(n)),
        page_aligned(p1_address(n)),
{
    assert((n >> 27u64) & 0x1ff < 512 && (n >> 18u64) & 0x1ff < 512 && (n >> 9u64) & 0x1ff < 512
        && (n >> 0u64) & 0x1ff < 512) by (bit_vector);
    assert(page_aligned(PAGE4)) by (bit_vector);
    lemma_next_table_address(PAGE4, p4_index(n));
    lemma_next_table_address(p3_address(n), p3_index(n));
    lemma_next_table_address(p2_address(n), p2_index(n));
}

/// The tables after the P3 table on the way to page `n` was made sure of.
pub open spec fn with_p3(m: Map<u64, u64>, n: u64, f3: u64) -> Map<u64, u64> {
    ensure_table(m, PAGE4, p4_index(n), f3)
}

/// The tables after the P3 and P2 tables on the way to page `n` were made sure of.
pub open spec fn with_p2(m: Map<u64, u64>, n: u64, f3: u64, f2: u64) -> Map<u64, u64> {
    ensure_table(with_p3(m, n, f3), p3_address(n), p3_index(n), f2)
}

/// The tables after the P3, P2 and P1 tables on the way to page `n` were made
/// sure of, new tables taking frames `f3`, `f2`, `f1`.
pub open spec fn with_p1(m: Map<u64, u64>, n: u64, f3: u64, f2: u64, f1: u64) -> Map<u64, u64> {
    ensure_table(with_p2(m, n, f3, f2), p2_address(n), p2_index(n), f1)
}

/// The tables after page `n` was mapped with P1 entry `leaf`.
pub open spec fn mapped(m: Map<u64, u64>, n: u64, f3: u64, f2: u64, f1: u64, leaf: u64) -> Map<
    u64,
    u64,
> {
    with_p1(m, n, f3, f2, f1).insert(entry_address(p1_address(n), p1_index(n)), leaf)
}

/// The steps of a mapping: each can hang its table, each keeps the frames
/// of the pages outside the recursive slot, and at the end the way to the
/// page leads through tables to an unused P1 entry.
pub proof fn lemma_map_steps(m: Map<u64, u64>, n: u64, f3: u64, f2: u64, f1: u64)
    requires
        !in_recursive_slot(n),
        clear_way(m, n),
        f3 < FRAME_NUMBER_LIMIT,
        f2 < FRAME_NUMBER_LIMIT,
        f1 < FRAME_NUMBER_LIMIT,
    ensures
        can_hang_table(m, PAGE4, p4_index(n)),
        can_hang_table(with_p3(m, n, f3), p3_address(n), p3_index(n)),
        can_hang_table(with_p2(m, n, f3, f2), p2_address(n), p2_index(n)),
        leads_to_table(p4_entry(with_p3(m, n, f3), n)),
        leads_to_table(p3_entry(with_p2(m, n, f3, f2), n)),
        leads_to_table(p4_entry(with_p1(m, n, f3, f2, f1), n)),
        leads_to_table(p3_entry(with_p1(m, n, f3, f2, f1), n)),
        leads_to_table(p2_entry(with_p1(m, n, f3, f2, f1), n)),
        p1_entry(with_p1(m, n, f3, f2, f1), n) == 0,
        forall|q: u64|
            !in_recursive_slot(q) ==> {
                &&& page_frame(with_p3(m, n, f3), q) == page_frame(m, q)
                &&& walk_fails(with_p3(m, n, f3), q) == walk_fails(m, q)
                &&& page_frame(with_p2(m, n, f3, f2), q) == page_frame(m, q)
                &&& walk_fails(with_p2(m, n, f3, f2), q) == walk_fails(m, q)
                &&& page_frame(with_p1(m, n, f3, f2, f1), q) == page_frame(m, q)
                &&& walk_fails(with_p1(m, n, f3, f2, f1), q) == walk_fails(m, q)
            },
{
    let m3 = with_p3(m, n, f3);
    let m2 = with_p2(m, n, f3, f2);
    let m1 = with_p1(m, n, f3, f2, f1);
    let a4 = entry_address(PAGE4, p4_index(n));
    let a3 = entry_address(p3_address(n), p3_index(n));
    let a2 = entry_address(p2_address(n), p2_index(n));
    let a1 = entry_address(p1_address(n), p1_index(n));
    lemma_zero_entry();
    lemma_table_entry_word(f3);
    lemma_table_entry_word(f2);
    lemma_table_entry_word(f1);
    lemma_path_facts(n, n, PAGE4, p4_index(n));
    lemma_path_facts(n, n, p3_address(n), p3_index(n));
    lemma_path_facts(n, n, p2_address(n), p2_index(n));
    lemma_table_addresses(n, n);
    lemma_ensure_table_word(m, PAGE4, p4_index(n), f3, a4);
    lemma_ensure_table_word(m, PAGE4, p4_index(n), f3, a3);
    lemma_ensure_table_word(m, PAGE4, p4_index(n), f3, a2);
    lemma_ensure_table_word(m, PAGE4, p4_index(n), f3, a1);
    assert(can_hang_table(m3, p3_address(n), p3_index(n)));
    lemma_ensure_table_word(m3, p3_address(n), p3_index(n), f2, a4);
    lemma_ensure_table_word(m3, p3_address(n), p3_index(n), f2, a3);
    lemma_ensure_table_word(m3, p3_address(n), p3_index(n), f2, a2);
    lemma_ensure_table_word(m3, p3_address(n), p3_index(n), f2, a1);
    assert(can_hang_table(m2, p2_address(n), p2_index(n)));
    lemma_ensure_table_word(m2, p2_address(n), p2_index(n), f1, a4);
    lemma_ensure_table_word(m2, p2_address(n), p2_index(n), f1, a3);
    lemma_ensure_table_word(m2, p2_address(n), p2_index(n), f1, a2);
    lemma_ensure_table_word(m2, p2_address(n), p2_index(n), f1, a1);
    assert forall|q: u64| !in_recursive_slot(q) implies {
        &&& page_frame(m3, q) == page_frame(m, q)
        &&& walk_fails(m3, q) == walk_fails(m, q)
        &&& page_frame(m2, q) == page_frame(m, q)
        &&& walk_fails(m2, q) == walk_fails(m, q)
        &&& page_frame(m1, q) == page_frame(m, q)
        &&& walk_fails(m1, q) == walk_fails(m, q)
    } by {
        lemma_ensure_table_keeps_frames(m, n, PAGE4, p4_index(n), f3, q);
        lemma_ensure_table_keeps_frames(m3, n, p3_address(n), p3_index(n), f2, q);
        lemma_ensure_table_keeps_frames(m2, n, p2_address(n), p2_index(n), f1, q);
    }
}

/// A page on the way to which `can_map` holds is not mapped.
pub proof fn lemma_can_map_unmapped(m: Map<u64, u64>, n: u64)
    requires
        can_map(m, n),
    ensures
        page_frame(m, n) is None,
{
    lemma_zero_entry();
}

/// `m2` is `m` with page `n` mapped through P1 entry `leaf`, new tables on the
/// way taking frames below `FRAME_NUMBER_LIMIT`.
pub open spec fn fully_mapped(m: Map<u64, u64>, m2: Map<u64, u64>, n: u64, leaf: u64) -> bool {
    exists|f3: u64, f2: u64, f1: u64|
        {
            &&& f3 < FRAME_NUMBER_LIMIT
            &&& f2 < FRAME_NUMBER_LIMIT
            &&& f1 < FRAME_NUMBER_LIMIT
            &&& m2 == #[trigger] mapped(m, n, f3, f2, f1, leaf)
        }
}

/// `m2` is `m` after some of the tables on the way to page `n` were made sure
/// of, in order, and no more.
pub open spec fn partially_mapped(m: Map<u64, u64>, m2: Map<u64, u64>, n: u64) -> bool {
    ||| m2 == m
    ||| exists|f3: u64| f3 < FRAME_NUMBER_LIMIT && m2 == #[trigger] with_p3(m, n, f3)
    ||| exists|f3: u64, f2: u64|
        f3 < FRAME_NUMBER_LIMIT && f2 < FRAME_NUMBER_LIMIT && m2 == #[trigger] with_p2(
            m,
            n,
            f3,
            f2,
        )
}

/// Every page at a canonical address outside the recursive slot, other than
/// `n`, has the same frame in `m2` as in `m`, and its walk fails in `m2` if
/// and only if it fails in `m`.
pub open spec fn others_kept(m: Map<u64, u64>, m2: Map<u64, u64>, n: u64) -> bool {
    forall|q: u64|
        page_number_valid(q) && !in_recursive_slot(q) && q != n ==> {
            &&& #[trigger] page_frame(m2, q) == page_frame(m, q)
            &&& walk_fails(m2, q) == walk_fails(m, q)
        }
}

/// Whether `map_to` takes page `n`: outside the recursive slot, `clear_way`;
/// in it, where the tables on the way are the tables themselves, `can_map`.
pub open spec fn mappable(m: Map<u64, u64>, n: u64) -> bool {
    if in_recursive_slot(n) {
        can_map(m, n)
    } else {
        clear_way(m, n)
    }
}

/// What mapping page `n` to frame `frame` with flag bits `flags` leaves:
/// tables `m2` from tables `m`, and result `r`.
/// - On success the page is mapped (`fully_mapped`), on failure some of the
///   tables on the way were made and nothing else changed (`partially_mapped`).
/// - When the way to the page leads through tables already, it succeeds.
/// - Outside the recursive slot: on success the page has the frame and the
///   P1 entry `entry_word(frame, flags | PRESENT)`, on failure no frame; other
///   pages at canonical addresses keep theirs.
pub open spec fn map_to_outcome(
    m: Map<u64, u64>,
    m2: Map<u64, u64>,
    n: u64,
    frame: u64,
    flags: u64,
    r: Result<(), MapError>,
) -> bool {
    &&& match r {
        Ok(()) => fully_mapped(m, m2, n, entry_word(frame, flags | PRESENT)),
        Err(_) => partially_mapped(m, m2, n),
    }
    &&& tables_present(m, n) ==> r is Ok
    &&& !in_recursive_slot(n) ==> {
        &&& r is Ok ==> {
            &&& page_frame(m2, n) == Some(frame)
            &&& p1_entry(m2, n) == entry_word(frame, flags | PRESENT)
            &&& !walk_fails(m2, n)
        }
        &&& r is Err ==> page_frame(m2, n) is None
        &&& page_number_valid(n) ==> others_kept(m, m2, n)
    }
}

/// Whether the answers `after` of an allocator continue its answers `before`.
pub open spec fn answers_extend(before: Seq<Option<Frame>>, after: Seq<Option<Frame>>) -> bool {
    &&& before.len() <= after.len()
    &&& after.subrange(0, before.len() as int) == before
}

/// The answers in `after` that came after those in `before`.
pub open spec fn answers_since(before: Seq<Option<Frame>>, after: Seq<Option<Frame>>) -> Seq<
    Option<Frame>,
> {
    after.subrange(before.len() as int, after.len() as int)
}

/// Answers that continue answers that continue `a0` continue `a0`, and what
/// came after `a0` is what came up to `a1` followed by what came after it.
proof fn lemma_answers_extend(
    a0: Seq<Option<Frame>>,
    a1: Seq<Option<Frame>>,
    a2: Seq<Option<Frame>>,
)
    requires
        answers_extend(a0, a1),
        answers_extend(a1, a2),
    ensures
        answers_extend(a0, a2),
        answers_since(a0, a2) == answers_since(a0, a1) + answers_since(a1, a2),
{
    assert forall|i: int| 0 <= i < a1.len() implies a2[i] == a1[i] by {
        assert(a2.subrange(0, a1.len() as int)[i] == a2[i]);
    }
    assert forall|i: int| 0 <= i < a0.len() implies a1[i] == a0[i] by {
        assert(a1.subrange(0, a0.len() as int)[i] == a1[i]);
    }
    assert(a2.subrange(0, a0.len() as int) =~= a0);
    assert(answers_since(a0, a2) =~= answers_since(a0, a1) + answers_since(a1, a2));
}

/// Mapping page `n` with P1 entry `leaf`, the allocator answering `got` in
/// turn each time a table on the way is missing: the tables after, the
/// number of answers taken, and the result. The first answer that is no
/// frame, or a frame out of range, ends it with that answer's error.
pub open spec fn map_to_run(m: Map<u64, u64>, n: u64, leaf: u64, got: Seq<Option<Frame>>) -> (
    Map<u64, u64>,
    int,
    Result<(), MapError>,
) {
    let s4 = way_step(m, PAGE4, p4_index(n), got, 0);
    let s3 = way_step(s4.0, p3_address(n), p3_index(n), got, s4.1);
    let s2 = way_step(s3.0, p2_address(n), p2_index(n), got, s3.1);
    match s4.2 {
        Some(e) => (s4.0, s4.1, Err(e)),
        None => match s3.2 {
            Some(e) => (s3.0, s3.1, Err(e)),
            None => match s2.2 {
                Some(e) => (s2.0, s2.1, Err(e)),
                None => (
                    s2.0.insert(entry_address(p1_address(n), p1_index(n)), leaf),
                    s2.1,
                    Ok(()),
                ),
            },
        },
    }
}

/// The answers `new` that an allocator gave during one operation decide its
/// result `r`: it succeeds if and only if every answer was a frame below
/// `FRAME_NUMBER_LIMIT`; when it fails, every answer but the last was such a
/// frame, and the error is the one that the last answer calls for.
pub open spec fn decided_by_answers(new: Seq<Option<Frame>>, r: Result<(), MapError>) -> bool {
    &&& (r is Ok) == (forall|i: int| 0 <= i < new.len() ==> hang_error(#[trigger] new[i]) is None)
    &&& r matches Err(e) ==> {
        &&& new.len() > 0
        &&& hang_error(new.last()) == Some(e)
        &&& forall|i: int| 0 <= i < new.len() - 1 ==> hang_error(#[trigger] new[i]) is None
    }
}

/// A mapping that took every answer in `got` succeeds if and only if each of
/// them was a frame below `FRAME_NUMBER_LIMIT`, fails with the error of the
/// last one otherwise, and takes at most one answer for each of the three
/// tables on the way.
pub proof fn law_map_to_run_answers(m: Map<u64, u64>, n: u64, leaf: u64, got: Seq<Option<Frame>>)
    requires
        map_to_run(m, n, leaf, got).1 == got.len(),
    ensures
        decided_by_answers(got, map_to_run(m, n, leaf, got).2),
        got.len() <= 3,
{
    let s4 = way_step(m, PAGE4, p4_index(n), got, 0);
    let s3 = way_step(s4.0, p3_address(n), p3_index(n), got, s4.1);
    let s2 = way_step(s3.0, p2_address(n), p2_index(n), got, s3.1);
    assert(0 <= s4.1 <= 1);
    assert(s4.1 <= s3.1 <= s4.1 + 1);
    assert(s3.1 <= s2.1 <= s3.1 + 1);
    assert forall|i: int| 0 <= i < got.len() && (i < got.len() - 1 || map_to_run(m, n, leaf, got).2 is Ok)
        implies hang_error(#[trigger] got[i]) is None by {
        if i < s4.1 {
            assert(i == 0 && s4.2 is None);
        } else if i < s3.1 {
            assert(i == s4.1 && s3.2 is None);
        } else {
            assert(i == s3.1 && s2.2 is None);
        }
    }
}

/// Answers that decide a result still decide it behind a first answer that
/// is a frame below `FRAME_NUMBER_LIMIT`.
proof fn lemma_decided_by_answers_prepend(
    first: Option<Frame>,
    rest: Seq<Option<Frame>>,
    r: Result<(), MapError>,
)
    requires
        hang_error(first) is None,
        decided_by_answers(rest, r),
    ensures
        decided_by_answers(seq![first] + rest, r),
{
    let all = seq![first] + rest;
    assert forall|i: int| 1 <= i < all.len() implies all[i] == rest[i - 1] by {}
    if r is Ok {
        assert forall|i: int| 0 <= i < all.len() implies hang_error(#[trigger] all[i]) is None by {
            if i > 0 {
                assert(hang_error(rest[i - 1]) is None);
            }
        }
    } else {
        assert(all.last() == rest.last());
        assert forall|i: int| 0 <= i < all.len() - 1 implies hang_error(#[trigger] all[i]) is None by {
            if i > 0 {
                assert(hang_error(rest[i - 1]) is None);
            }
        }
        let j = choose|j: int| 0 <= j < rest.len() && !(hang_error(#[trigger] rest[j]) is None);
        assert(hang_error(all[j + 1]) is Some);
    }
}

/// A mapping whose P3 table was made sure of with the answers from `a0` to
/// `a1`, and whose P2 table failed with those from `a1` to `a2`.
proof fn lemma_map_to_run_two(
    m0: Map<u64, u64>,
    m4: Map<u64, u64>,
    n: u64,
    leaf: u64,
    a0: Seq<Option<Frame>>,
    a1: Seq<Option<Frame>>,
    a2: Seq<Option<Frame>>,
)
    requires
        answers_extend(a0, a1),
        answers_extend(a1, a2),
        way_step(m0, PAGE4, p4_index(n), answers_since(a0, a1), 0) == (
            m4,
            answers_since(a0, a1).len() as int,
            None::<MapError>,
        ),
        way_step(m4, p3_address(n), p3_index(n), answers_since(a1, a2), 0).1 == answers_since(
            a1,
            a2,
        ).len(),
        way_step(m4, p3_address(n), p3_index(n), answers_since(a1, a2), 0).2 is Some,
    ensures
        answers_extend(a0, a2),
        map_to_run(m0, n, leaf, answers_since(a0, a2)) == (
            way_step(m4, p3_address(n), p3_index(n), answers_since(a1, a2), 0).0,
            answers_since(a0, a2).len() as int,
            Err::<(), MapError>(
                way_step(m4, p3_address(n), p3_index(n), answers_since(a1, a2), 0).2->0,
            ),
        ),
        decided_by_answers(answers_since(a0, a2), map_to_run(m0, n, leaf, answers_since(a0, a2)).2),
        answers_since(a0, a2).len() <= 3,
{
    let g4 = answers_since(a0, a1);
    let g3 = answers_since(a1, a2);
    lemma_answers_extend(a0, a1, a2);
    let total = answers_since(a0, a2);
    assert(total.subrange(0, g4.len() as int) =~= g4);
    assert(total.subrange(g4.len() as int, (g4.len() + g3.len()) as int) =~= g3);
    lemma_way_step_shift(m0, PAGE4, p4_index(n), g4, total, 0);
    lemma_way_step_shift(m4, p3_address(n), p3_index(n), g3, total, g4.len() as int);
    law_map_to_run_answers(m0, n, leaf, total);
}

/// A mapping whose P3 and P2 tables were made sure of with the answers from
/// `a0` to `a1` and from `a1` to `a2`, and whose P1 table was tried with
/// those from `a2` to `a3`.
proof fn lemma_map_to_run_three(
    m0: Map<u64, u64>,
    m4: Map<u64, u64>,
    m3: Map<u64, u64>,
    n: u64,
    leaf: u64,
    a0: Seq<Option<Frame>>,
    a1: Seq<Option<Frame>>,
    a2: Seq<Option<Frame>>,
    a3: Seq<Option<Frame>>,
)
    requires
        answers_extend(a0, a1),
        answers_extend(a1, a2),
        answers_extend(a2, a3),
        way_step(m0, PAGE4, p4_index(n), answers_since(a0, a1), 0) == (
            m4,
            answers_since(a0, a1).len() as int,
            None::<MapError>,
        ),
        way_step(m4, p3_address(n), p3_index(n), answers_since(a1, a2), 0) == (
            m3,
            answers_since(a1, a2).len() as int,
            None::<MapError>,
        ),
        way_step(m3, p2_address(n), p2_index(n), answers_since(a2, a3), 0).1 == answers_since(
            a2,
            a3,
        ).len(),
    ensures
        answers_extend(a0, a3),
        ({
            let s2 = way_step(m3, p2_address(n), p2_index(n), answers_since(a2, a3), 0);
            map_to_run(m0, n, leaf, answers_since(a0, a3)) == match s2.2 {
                Some(e) => (s2.0, answers_since(a0, a3).len() as int, Err(e)),
                None => (
                    s2.0.insert(entry_address(p1_address(n), p1_index(n)), leaf),
                    answers_since(a0, a3).len() as int,
                    Ok(()),
                ),
            }
        }),
        decided_by_answers(answers_since(a0, a3), map_to_run(m0, n, leaf, answers_since(a0, a3)).2),
        answers_since(a0, a3).len() <= 3,
{
    let g4 = answers_since(a0, a1);
    let g3 = answers_since(a1, a2);
    let g2 = answers_since(a2, a3);
    lemma_answers_extend(a0, a1, a2);
    lemma_answers_extend(a0, a2, a3);
    let total = answers_since(a0, a3);
    assert(total.subrange(0, g4.len() as int) =~= g4);
    assert(total.subrange(g4.len() as int, (g4.len() + g3.len()) as int) =~= g3);
    assert(total.subrange((g4.len() + g3.len()) as int, (g4.len() + g3.len() + g2.len()) as int) =~= g2);
    lemma_way_step_shift(m0, PAGE4, p4_index(n), g4, total, 0);
    lemma_way_step_shift(m4, p3_address(n), p3_index(n), g3, total, g4.len() as int);
    lemma_way_step_shift(m3, p2_address(n), p2_index(n), g2, total, (g4.len() + g3.len()) as int);
    law_map_to_run_answers(m0, n, leaf, total);
}

/// Something that names an index in a table of one level.
pub trait PageIndex {
    /// Where the nine index bits start in a page number.
    spec fn spec_shift() -> u64;

    fn shift() -> (s: u64)
        ensures
            s == Self::spec_shift(),
            s < 64,
    ;
}

/// The P4 index.
pub struct Page4;

/// The P3 index.
pub struct Page3;

/// The P2 index.
pub struct Page2;

/// The P1 index.
pub struct Page1;

impl PageIndex for Page4 {
    open spec fn spec_shift() -> u64 {
        27
    }

    fn shift() -> (s: u64) {
        27
    }
}

impl PageIndex for Page3 {
    open spec fn spec_shift() -> u64 {
        18
    }

    fn shift() -> (s: u64) {
        18
    }
}

impl PageIndex for Page2 {
    open spec fn spec_shift() -> u64 {
        9
    }

    fn shift() -> (s: u64) {
        9
    }
}

impl PageIndex for Page1 {
    open spec fn spec_shift() -> u64 {
        0
    }

    fn shift() -> (s: u64) {
        0
    }
}

/// A virtual page, identified by its number (its start address divided by
/// `PAGE_SIZE`).
#[derive(Debug, Clone, Copy, PartialEq, Eq, Structural)]
pub struct Page {
    pub number: u64,
}

impl Page {
    /// The page that holds the virtual address `addr`.
    pub fn containing_addr(addr: VirtualAddr) -> (p: Page)
        requires
            canonical(addr),
        ensures
            p.number == addr / PAGE_SIZE,
            page_number_valid(p.number),
    {
        Page { number: addr / PAGE_SIZE }
    }

    /// The first virtual address of the page.
    pub fn start_addr(&self) -> (a: u64)
        requires
            self.number * PAGE_SIZE <= u64::MAX,
        ensures
            a == self.number * PAGE_SIZE,
    {
        self.number * PAGE_SIZE
    }

    /// The index of the page in the table of the level that `P` names.
    pub fn page_index<P: PageIndex>(&self) -> (i: u64)
        ensures
            i == index_of(self.number, P::spec_shift()),
            i < ENTRY_COUNT,
    {
        let s = P::shift();
        let n = self.number;
        assert((n >> s) & 0x1ff < 512) by (bit_vector);
        (self.number >> P::shift()) & 0x1ff
    }
}

/// The page tables of an address space, reached through the recursive
/// mapping: the P4 at `PAGE4`, each table below at the address that
/// `next_table_address` gives.
pub struct RecursivePageTable {
    mem: PageTableMemory,
}

impl View for RecursivePageTable {
    type V = Map<u64, u64>;

    closed spec fn view(&self) -> Map<u64, u64> {
        self.mem@
    }
}

impl RecursivePageTable {
    /// The page tables that `mem` holds.
    pub fn new(mem: PageTableMemory) -> (t: RecursivePageTable)
        ensures
            t@ == mem@,
    {
        RecursivePageTable { mem }
    }

    /// The memory that holds the tables.
    pub fn memory(&self) -> (m: &PageTableMemory)
        ensures
            m@ == self@,
    {
        &self.mem
    }

    fn p4(&self) -> (t: Table<Level4>)
        ensures
            t.address() == PAGE4,
            t.wf(),
    {
        Table::p4()
    }

    /// The physical address that `virtual_addr` is mapped to, if it is mapped.
    pub fn translate(&self, virtual_addr: VirtualAddr) -> (r: Option<PhysicalAddr>)
        requires
            canonical(virtual_addr),
            !walk_fails(self@, virtual_addr / 4096),
        ensures
            r == translation(self@, virtual_addr),
    {
        let offset = virtual_addr % PAGE_SIZE;
        let page = Page::containing_addr(virtual_addr);
        proof {
            lemma_page_frame_bound(self@, page.number);
        }
        match self.translate_page(page) {
            Some(frame) => Some(frame.number * PAGE_SIZE + offset),
            None => None,
        }
    }

    /// Maps `page` to `frame`, with `flags` and `PRESENT` in its P1 entry.
    /// Missing tables on the way are made from frames of `allocator`; when it
    /// fails, the tables made so far stay, and no page changes its frame. It
    /// fails only when an answer of the allocator is no frame, or a frame out
    /// of range, and then with that answer's error.
    pub fn map_to<A: FrameAllocator>(
        &mut self,
        page: Page,
        frame: Frame,
        flags: EntryFlags,
        allocator: &mut A,
    ) -> (r: Result<(), MapError>)
        requires
            frame.number < FRAME_NUMBER_LIMIT,
            flags.wf(),
            mappable(old(self)@, page.number),
        ensures
            map_to_outcome(
                old(self)@,
                final(self)@,
                page.number,
                frame.number,
                flags.spec_bits(),
                r,
            ),
            tables_present(old(self)@, page.number) ==> *final(allocator) == *old(allocator),
            A::keeps_answers() ==> {
                let new = answers_since(old(allocator).answers(), final(allocator).answers());
                &&& answers_extend(old(allocator).answers(), final(allocator).answers())
                &&& decided_by_answers(new, r)
                &&& new.len() <= 3
                &&& map_to_run(
                    old(self)@,
                    page.number,
                    entry_word(frame.number, flags.spec_bits() | PRESENT),
                    new,
                ) == (final(self)@, new.len() as int, r)
            },
    {
        let ghost m0 = self.mem@;
        let ghost n = page.number;
        let ghost a0 = allocator.answers();
        let ghost leaf = entry_word(frame.number, flags.spec_bits() | PRESENT);
        proof {
            if !in_recursive_slot(n) {
                lemma_can_map_clear_way(m0, n);
            }
            lemma_index_bounds(n);
            lemma_can_map_frames(m0, n, 0, 0, 0);
            if !in_recursive_slot(n) {
                lemma_can_map_unmapped(m0, n);
            }
        }
        let p4 = self.p4();
        let i4 = page.page_index::<Page4>();
        let i3 = page.page_index::<Page3>();
        let i2 = page.page_index::<Page2>();
        let i1 = page.page_index::<Page1>();
        let r4 = p4.next_table_create(&mut self.mem, i4, allocator);
        let ghost a1 = allocator.answers();
        let ghost m4 = self.mem@;
        let p3 = match r4 {
            Ok(t) => t,
            Err(e) => {
                proof {
                    if A::keeps_answers() {
                        law_map_to_run_answers(m0, n, leaf, answers_since(a0, a1));
                    }
                }
                return Err(e);
            },
        };
        let ghost f3 = choose|f: u64|
            f < FRAME_NUMBER_LIMIT && self.mem@ == ensure_table(m0, PAGE4, p4_index(n), f);
        proof {
            lemma_can_map_frames(m0, n, f3, 0, 0);
            assert(self.mem@ == with_p3(m0, n, f3));
            if !in_recursive_slot(n) {
                lemma_can_map_clear_way(m0, n);
                lemma_map_steps(m0, n, f3, 0, 0);
            }
        }
        let r3 = p3.next_table_create(&mut self.mem, i3, allocator);
        let ghost a2 = allocator.answers();
        let ghost m3 = self.mem@;
        let p2 = match r3 {
            Ok(t) => t,
            Err(e) => {
                proof {
                    if A::keeps_answers() {
                        lemma_map_to_run_two(m0, m4, n, leaf, a0, a1, a2);
                    }
                }
                return Err(e);
            },
        };
        let ghost f2 = choose|f: u64|
            f < FRAME_NUMBER_LIMIT && self.mem@ == ensure_table(
                with_p3(m0, n, f3),
                p3_address(n),
                p3_index(n),
                f,
            );
        proof {
            lemma_can_map_frames(m0, n, f3, f2, 0);
            assert(self.mem@ == with_p2(m0, n, f3, f2));
            if !in_recursive_slot(n) {
                lemma_map_steps(m0, n, f3, f2, 0);
            }
        }
        let r2 = p2.next_table_create(&mut self.mem, i2, allocator);
        let ghost a3 = allocator.answers();
        let p1 = match r2 {
            Ok(t) => t,
            Err(e) => {
                proof {
                    if A::keeps_answers() {
                        lemma_map_to_run_three(m0, m4, m3, n, leaf, a0, a1, a2, a3);
                    }
                }
                return Err(e);
            },
        };
        let ghost f1 = choose|f: u64|
            f < FRAME_NUMBER_LIMIT && self.mem@ == ensure_table(
                with_p2(m0, n, f3, f2),
                p2_address(n),
                p2_index(n),
                f,
            );
        proof {
            assert(self.mem@ == with_p1(m0, n, f3, f2, f1));
            if A::keeps_answers() {
                lemma_map_to_run_three(m0, m4, m3, n, leaf, a0, a1, a2, a3);
            }
        }
        let mut entry = p1.entry(&self.mem, i1);
        entry.set(frame, flags.union(PRESENT));
        p1.set_entry(&mut self.mem, i1, entry);
        proof {
            let m1 = with_p1(m0, n, f3, f2, f1);
            assert(PRESENT & ALL_FLAGS == PRESENT) by (bit_vector);
            assert(p1.address() == p1_address(n));
            assert(self.mem@ == mapped(m0, n, f3, f2, f1, leaf));
            if !in_recursive_slot(n) {
                lemma_map_steps(m0, n, f3, f2, f1);
                let fb = flags.spec_bits();
                let b = fb | PRESENT;
                assert(b & !ALL_FLAGS == 0 && b & PRESENT == PRESENT) by (bit_vector)
                    requires
                        fb & !ALL_FLAGS == 0,
                        b == fb | PRESENT,
                ;
                lemma_entry_word(frame.number, b);
                lemma_leaf_write_maps(m1, n, leaf);
                if page_number_valid(n) {
                    assert forall|q: u64|
                        page_number_valid(q) && !in_recursive_slot(q) && q != n implies {
                            &&& #[trigger] page_frame(self.mem@, q) == page_frame(m0, q)
                            &&& walk_fails(self.mem@, q) == walk_fails(m0, q)
                        } by {
                        lemma_leaf_write_keeps_frames(m1, n, leaf, q);
                    }
                }
            }
        }
        Ok(())
    }

    /// Maps `page` to the frame `got` that the allocator handed out, with
    /// `flags` and `PRESENT` in its P1 entry, as `map_to` does. Fails, with
    /// nothing written, when there is no frame or it does not fit an entry.
    pub fn map_allocated<A: FrameAllocator>(
        &mut self,
        page: Page,
        flags: EntryFlags,
        got: Option<Frame>,
        allocator: &mut A,
    ) -> (r: Result<(), MapError>)
        requires
            flags.wf(),
            mappable(old(self)@, page.number),
        ensures
            match got {
                None => {
                    &&& r == Err::<(), MapError>(MapError::FrameAllocationFailed)
                    &&& final(self)@ == old(self)@
                    &&& *final(allocator) == *old(allocator)
                },
                Some(f) => if f.number >= FRAME_NUMBER_LIMIT {
                    &&& r == Err::<(), MapError>(MapError::FrameOutOfRange)
                    &&& final(self)@ == old(self)@
                    &&& *final(allocator) == *old(allocator)
                } else {
                    &&& map_to_outcome(
                        old(self)@,
                        final(self)@,
                        page.number,
                        f.number,
                        flags.spec_bits(),
                        r,
                    )
                    &&& tables_present(old(self)@, page.number) ==> *final(allocator) == *old(
                        allocator,
                    )
                    &&& A::keeps_answers() ==> {
                        let new = answers_since(
                            old(allocator).answers(),
                            final(allocator).answers(),
                        );
                        &&& answers_extend(old(allocator).answers(), final(allocator).answers())
                        &&& decided_by_answers(new, r)
                        &&& new.len() <= 3
                        &&& map_to_run(
                            old(self)@,
                            page.number,
                            entry_word(f.number, flags.spec_bits() | PRESENT),
                            new,
                        ) == (final(self)@, new.len() as int, r)
                    }
                },
            },
    {
        let frame = match got {
            Some(f) => f,
            None => {
                return Err(MapError::FrameAllocationFailed);
            },
        };
        if frame.number >= FRAME_NUMBER_LIMIT {
            return Err(MapError::FrameOutOfRange);
        }
        self.map_to(page, frame, flags, allocator)
    }

    /// Maps `page` to a frame taken from `allocator`, with `flags` and
    /// `PRESENT` in its P1 entry: the frame is asked for first, then handed
    /// to `map_allocated`. On success the page has the allocator's first
    /// answer as its frame.
    pub fn map<A: FrameAllocator>(&mut self, page: Page, flags: EntryFlags, allocator: &mut A) -> (r:
        Result<(), MapError>)
        requires
            flags.wf(),
            mappable(old(self)@, page.number),
        ensures
            (r is Err && final(self)@ == old(self)@) || exists|f: u64|
                f < FRAME_NUMBER_LIMIT && #[trigger] map_to_outcome(
                    old(self)@,
                    final(self)@,
                    page.number,
                    f,
                    flags.spec_bits(),
                    r,
                ),
            A::keeps_answers() ==> {
                let new = answers_since(old(allocator).answers(), final(allocator).answers());
                &&& answers_extend(old(allocator).answers(), final(allocator).answers())
                &&& 1 <= new.len() <= 4
                &&& decided_by_answers(new, r)
                &&& match hang_error(new[0]) {
                    Some(e) => {
                        &&& r == Err::<(), MapError>(e)
                        &&& final(self)@ == old(self)@
                        &&& new.len() == 1
                    },
                    None => {
                        &&& map_to_outcome(
                            old(self)@,
                            final(self)@,
                            page.number,
                            new[0]->0.number,
                            flags.spec_bits(),
                            r,
                        )
                        &&& map_to_run(
                            old(self)@,
                            page.number,
                            entry_word(new[0]->0.number, flags.spec_bits() | PRESENT),
                            new.drop_first(),
                        ) == (final(self)@, new.len() - 1, r)
                    },
                }
            },
    {
        let ghost a0 = allocator.answers();
        let got = allocator.allocate_frame();
        let ghost a1 = allocator.answers();
        let r = self.map_allocated(page, flags, got, allocator);
        proof {
            if A::keeps_answers() {
                let a2 = allocator.answers();
                assert(a1.subrange(0, a0.len() as int) =~= a0);
                assert(answers_since(a0, a1) =~= seq![got]);
                if hang_error(got) is None {
                    lemma_answers_extend(a0, a1, a2);
                    assert(answers_since(a0, a2).drop_first() =~= answers_since(a1, a2));
                    lemma_decided_by_answers_prepend(got, answers_since(a1, a2), r);
                } else {
                    assert(answers_since(a0, a2) =~= seq![got]);
                }
            }
        }
        r
    }

    /// Maps the page at the start address of `frame` to `frame`.
    pub fn identity_map<A: FrameAllocator>(
        &mut self,
        frame: Frame,
        flags: EntryFlags,
        allocator: &mut A,
    ) -> (r: Result<(), MapError>)
        requires
            frame.number * PAGE_SIZE <= u64::MAX,
            canonical((frame.number * PAGE_SIZE) as u64),
            frame.number < FRAME_NUMBER_LIMIT,
            flags.wf(),
            clear_way(old(self)@, frame.number),
        ensures
            map_to_outcome(
                old(self)@,
                final(self)@,
                frame.number,
                frame.number,
                flags.spec_bits(),
                r,
            ),
            !in_recursive_slot(frame.number),
            tables_present(old(self)@, frame.number) ==> *final(allocator) == *old(allocator),
            r is Ok ==> translation(final(self)@, (frame.number * PAGE_SIZE) as u64) == Some(
                (frame.number * PAGE_SIZE) as u64,
            ),
            A::keeps_answers() ==> {
                let new = answers_since(old(allocator).answers(), final(allocator).answers());
                &&& answers_extend(old(allocator).answers(), final(allocator).answers())
                &&& decided_by_answers(new, r)
                &&& new.len() <= 3
                &&& map_to_run(
                    old(self)@,
                    frame.number,
                    entry_word(frame.number, flags.spec_bits() | PRESENT),
                    new,
                ) == (final(self)@, new.len() as int, r)
            },
    {
        let page = Page::containing_addr(frame.start_addr());
        proof {
            let n = frame.number;
            assert(n * 4096 < 0x0000_8000_0000_0000) by (nonlinear_arith)
                requires
                    n < FRAME_NUMBER_LIMIT,
                    canonical((n * 4096) as u64),
                    n * 4096 <= u64::MAX,
            ;
            assert(page.number == n) by (nonlinear_arith)
                requires
                    page.number == ((n * 4096) as u64) / 4096,
                    n * 4096 <= u64::MAX,
            ;
            assert(n < 0x8_0000_0000);
            assert((n >> 27u64) & 0x1ff != 511) by (bit_vector)
                requires
                    n < 0x8_0000_0000u64,
            ;
        }
        let r = self.map_to(page, frame, flags, allocator);
        proof {
            let n = frame.number;
            assert(((n * 4096) as u64) / 4096 == n && ((n * 4096) as u64) % 4096 == 0)
                by (nonlinear_arith)
                requires
                    n * 4096 <= u64::MAX,
            ;
        }
        r
    }

    /// Whether the walk to `page` meets a huge page whose frame is not
    /// aligned to its size (see `walk_fails`), which `translate` refuses.
    pub fn walk_fails_for(&self, page: &Page) -> (r: bool)
        ensures
            r == walk_fails(self@, page.number),
    {
        let mem = &self.mem;
        let p3 = match self.p4().next_table(mem, page.page_index::<Page4>()) {
            Some(t) => t,
            None => {
                return false;
            },
        };
        let i3 = page.page_index::<Page3>();
        let e3 = p3.entry(mem, i3);
        proof {
            let e = e3.0;
            assert(((e & ALL_FLAGS) & HUGE_PAGE == HUGE_PAGE) == (e & HUGE_PAGE == HUGE_PAGE))
                by (bit_vector);
        }
        if let Some(start_frame) = e3.pointed_frame() {
            if e3.flags().contains(HUGE_PAGE) {
                return start_frame.number % (ENTRY_COUNT * ENTRY_COUNT) != 0;
            }
        }
        match p3.next_table(mem, i3) {
            Some(p2) => {
                let e2 = p2.entry(mem, page.page_index::<Page2>());
                proof {
                    let e = e2.0;
                    assert(((e & ALL_FLAGS) & HUGE_PAGE == HUGE_PAGE) == (e & HUGE_PAGE
                        == HUGE_PAGE)) by (bit_vector);
                }
                if let Some(start_frame) = e2.pointed_frame() {
                    if e2.flags().contains(HUGE_PAGE) {
                        return start_frame.number % ENTRY_COUNT != 0;
                    }
                }
                false
            },
            None => false,
        }
    }

    /// Whether `map_to` takes `page` outside the recursive slot: the way to
    /// it meets no huge page where a table is missing, and ends at an unused
    /// P1 entry (see `clear_way`).
    pub fn clear_way_to(&self, page: &Page) -> (r: bool)
        ensures
            r == (!in_recursive_slot(page.number) && clear_way(self@, page.number)),
    {
        let mem = &self.mem;
        let i4 = page.page_index::<Page4>();
        if i4 == 511 {
            return false;
        }
        let p4 = self.p4();
        proof {
            let e = word(self@, entry_address(PAGE4, i4));
            assert(((e & ALL_FLAGS) & HUGE_PAGE == HUGE_PAGE) == (e & HUGE_PAGE == HUGE_PAGE))
                by (bit_vector);
        }
        let p3 = match p4.next_table(mem, i4) {
            Some(t) => t,
            None => {
                return !p4.entry(mem, i4).flags().contains(HUGE_PAGE);
            },
        };
        let i3 = page.page_index::<Page3>();
        proof {
            let e = word(self@, entry_address(p3.address(), i3));
            assert(((e & ALL_FLAGS) & HUGE_PAGE == HUGE_PAGE) == (e & HUGE_PAGE == HUGE_PAGE))
                by (bit_vector);
        }
        let p2 = match p3.next_table(mem, i3) {
            Some(t) => t,
            None => {
                return !p3.entry(mem, i3).flags().contains(HUGE_PAGE);
            },
        };
        let i2 = page.page_index::<Page2>();
        proof {
            let e = word(self@, entry_address(p2.address(), i2));
            assert(((e & ALL_FLAGS) & HUGE_PAGE == HUGE_PAGE) == (e & HUGE_PAGE == HUGE_PAGE))
                by (bit_vector);
        }
        let p1 = match p2.next_table(mem, i2) {
            Some(t) => t,
            None => {
                return !p2.entry(mem, i2).flags().contains(HUGE_PAGE);
            },
        };
        p1.entry(mem, page.page_index::<Page1>()).is_unused()
    }

    /// Whether `unmap` can remove the mapping of `page`: the way to it leads
    /// through tables to a P1 entry that is in use.
    pub fn can_unmap(&self, page: &Page) -> (r: bool)
        ensures
            r == (tables_present(self@, page.number) && page_frame(self@, page.number) is Some
                && !walk_fails(self@, page.number)),
    {
        let mem = &self.mem;
        let p1 = match self.p4().next_table(mem, page.page_index::<Page4>()) {
            Some(p3) => match p3.next_table(mem, page.page_index::<Page3>()) {
                Some(p2) => p2.next_table(mem, page.page_index::<Page2>()),
                None => None,
            },
            None => None,
        };
        match p1 {
            Some(p1) => p1.entry(mem, page.page_index::<Page1>()).pointed_frame().is_some(),
            None => false,
        }
    }

    /// Removes the mapping of `page`: its P1 entry is cleared.
    pub fn unmap<A: FrameAllocator>(&mut self, page: Page, _allocator: &mut A)
        requires
            page_number_valid(page.number),
            !walk_fails(old(self)@, page.number),
            page_frame(old(self)@, page.number) is Some,
            tables_present(old(self)@, page.number),
        ensures
            final(self)@ == old(self)@.insert(
                entry_address(p1_address(page.number), p1_index(page.number)),
                0,
            ),
            *final(_allocator) == *old(_allocator),
            !in_recursive_slot(page.number) ==> {
                &&& page_frame(final(self)@, page.number) is None
                &&& others_kept(old(self)@, final(self)@, page.number)
            },
    {
        let ghost m0 = self.mem@;
        let ghost n = page.number;
        let mem = &self.mem;
        let p1 = match self.p4().next_table(mem, page.page_index::<Page4>()) {
            Some(p3) => match p3.next_table(mem, page.page_index::<Page3>()) {
                Some(p2) => p2.next_table(mem, page.page_index::<Page2>()),
                None => None,
            },
            None => None,
        };
        match p1 {
            Some(p1) => {
                let i1 = page.page_index::<Page1>();
                let mut entry = p1.entry(&self.mem, i1);
                entry.set_unused();
                p1.set_entry(&mut self.mem, i1, entry);
                proof {
                    assert(p1.address() == p1_address(n));
                    if !in_recursive_slot(n) {
                        lemma_leaf_write_maps(m0, n, 0);
                        lemma_zero_entry();
                        assert forall|q: u64|
                            page_number_valid(q) && !in_recursive_slot(q) && q != n implies {
                                &&& #[trigger] page_frame(self.mem@, q) == page_frame(m0, q)
                                &&& walk_fails(self.mem@, q) == walk_fails(m0, q)
                            } by {
                            lemma_leaf_write_keeps_frames(m0, n, 0, q);
                        }
                    }
                }
            },
            None => {
                proof {
                    assert(false);
                }
            },
        }
    }

    /// The frame that `page` is mapped to, if it is mapped.
    fn translate_page(&self, page: Page) -> (r: Option<Frame>)
        requires
            !walk_fails(self@, page.number),
        ensures
            r == (match page_frame(self@, page.number) {
                Some(f) => Some(Frame { number: f }),
                None => None,
            }),
    {
        let ghost n = page.number;
        let mem = &self.mem;
        let p3 = self.p4().next_table(mem, page.page_index::<Page4>());
        let i3 = page.page_index::<Page3>();
        let i2 = page.page_index::<Page2>();
        let i1 = page.page_index::<Page1>();
        // The walk through four levels of tables.
        let walked = match p3 {
            Some(p3) => match p3.next_table(mem, i3) {
                Some(p2) => match p2.next_table(mem, i2) {
                    Some(p1) => p1.entry(mem, i1).pointed_frame(),
                    None => None,
                },
                None => None,
            },
            None => None,
        };
        if walked.is_some() {
            return walked;
        }
        // Huge pages: 1 GiB ones named by a P3 entry, 2 MiB ones by a P2 entry.
        match p3 {
            None => None,
            Some(p3) => {
                let p3_entry = p3.entry(mem, i3);
                proof {
                    let e = p3_entry.0;
                    assert(((e & ALL_FLAGS) & HUGE_PAGE == HUGE_PAGE) == (e & HUGE_PAGE == HUGE_PAGE))
                        by (bit_vector);
                    lemma_frame_number_bound(e);
                }
                if let Some(start_frame) = p3_entry.pointed_frame() {
                    if p3_entry.flags().contains(HUGE_PAGE) {
                        return Some(
                            Frame { number: start_frame.number + i2 * ENTRY_COUNT + i1 },
                        );
                    }
                }
                match p3.next_table(mem, i3) {
                    Some(p2) => {
                        let p2_entry = p2.entry(mem, i2);
                        proof {
                            let e = p2_entry.0;
                            assert(((e & ALL_FLAGS) & HUGE_PAGE == HUGE_PAGE) == (e & HUGE_PAGE
                                == HUGE_PAGE)) by (bit_vector);
                            lemma_frame_number_bound(e);
                        }
                        if let Some(start_frame) = p2_entry.pointed_frame() {
                            if p2_entry.flags().contains(HUGE_PAGE) {
                                return Some(Frame { number: start_frame.number + i1 });
                            }
                        }
                        None
                    },
                    None => None,
                }
            },
        }
    }
}

} // verus!
