//! What mapping and unmapping promise, across calls.
use vstd::prelude::*;

use crate::memory::paging::entry::{
    ALL_FLAGS, FRAME_NUMBER_LIMIT, PRESENT, entry_word, lemma_entry_word, pointed_frame_of,
};
use crate::memory::paging::table::{PAGE4, next_table_address};
use crate::memory::paging::{
    can_map, in_recursive_slot, lemma_can_map_unmapped, lemma_leaf_write_keeps_frames,
    lemma_leaf_write_maps, lemma_map_steps, mapped, p1_address, p1_index, page_frame,
    page_number_valid, translation, with_p1,
};
use crate::memory::paging::table::entry_address;

verus! {

/// The last slot of the P4 leads back to the P4: the table that entry 511 of
/// the P4 points to is the P4 itself.
pub proof fn law_recursive_slot()
    ensures
        next_table_address(PAGE4, 511) == PAGE4,
{
    assert((0xffff_ffff_ffff_f000u64 << 9) | (511u64 << 12) == 0xffff_ffff_ffff_f000u64)
        by (bit_vector);
}

/// After page `n` is mapped to `frame`, every address in the page translates
/// to the address at the same offset in the frame.
pub proof fn law_map_to_translates(
    m: Map<u64, u64>,
    n: u64,
    f3: u64,
    f2: u64,
    f1: u64,
    frame: u64,
    flags: u64,
    offset: u64,
)
    requires
        page_number_valid(n),
        !in_recursive_slot(n),
        can_map(m, n),
        f3 < FRAME_NUMBER_LIMIT,
        f2 < FRAME_NUMBER_LIMIT,
        f1 < FRAME_NUMBER_LIMIT,
        frame < FRAME_NUMBER_LIMIT,
        flags & !ALL_FLAGS == 0,
        offset < 4096,
    ensures
        translation(
            mapped(m, n, f3, f2, f1, entry_word(frame, flags | PRESENT)),
            (n * 4096 + offset) as u64,
        ) == Some((frame * 4096 + offset) as u64),
{
    let b = flags | PRESENT;
    assert(b & !ALL_FLAGS == 0 && b & PRESENT == PRESENT) by (bit_vector)
        requires
            flags & !ALL_FLAGS == 0,
            b == flags | PRESENT,
    ;
    lemma_entry_word(frame, b);
    lemma_map_steps(m, n, f3, f2, f1);
    lemma_leaf_write_maps(with_p1(m, n, f3, f2, f1), n, entry_word(frame, b));
    assert(n * 4096 + offset < 0x10_0000_0000_0000 * 4096) by (nonlinear_arith)
        requires
            n < 0x10_0000_0000_0000,
            offset < 4096,
    ;
    assert((n * 4096 + offset) / 4096 == n && (n * 4096 + offset) % 4096 == offset)
        by (nonlinear_arith)
        requires
            offset < 4096,
    ;
}

/// Mapping a page and then unmapping it leaves every page outside the
/// recursive slot with the frame it had before: the page itself unmapped,
/// the others as they were.
pub proof fn law_unmap_undoes_map_to(
    m: Map<u64, u64>,
    n: u64,
    f3: u64,
    f2: u64,
    f1: u64,
    leaf: u64,
    q: u64,
)
    requires
        page_number_valid(n),
        !in_recursive_slot(n),
        can_map(m, n),
        f3 < FRAME_NUMBER_LIMIT,
        f2 < FRAME_NUMBER_LIMIT,
        f1 < FRAME_NUMBER_LIMIT,
        page_number_valid(q),
        !in_recursive_slot(q),
    ensures
        page_frame(
            mapped(m, n, f3, f2, f1, leaf).insert(entry_address(p1_address(n), p1_index(n)), 0),
            q,
        ) == page_frame(m, q),
{
    let m1 = with_p1(m, n, f3, f2, f1);
    let a = entry_address(p1_address(n), p1_index(n));
    lemma_map_steps(m, n, f3, f2, f1);
    assert(m1.insert(a, leaf).insert(a, 0) == m1.insert(a, 0));
    lemma_can_map_unmapped(m, n);
    if q == n {
        lemma_leaf_write_maps(m1, n, 0);
        assert(pointed_frame_of(0) is None) by {
            crate::memory::paging::table::lemma_zero_entry();
        }
    } else {
        lemma_leaf_write_keeps_frames(m1, n, 0, q);
    }
}

} // verus!
