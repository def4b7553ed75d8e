//! Frame allocation and four-level x86_64 page tables of a small kernel,
//! with their behaviour stated and proved.
//!
//! Addresses and frame numbers are 64-bit values (`u64`): the page-table
//! layout is that of x86_64 whatever the width of `usize` on the host.
use vstd::prelude::*;

pub mod boot;
pub mod cpuio;
pub mod memory;
pub mod pic;

verus! {

} // verus!
