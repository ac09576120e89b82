//! The memory manager.
//!
//! [`phys`] hands out physical frames, [`virt`] reads and edits page tables,
//! [`vad`] tracks which user ranges are committed, [`pool`] is the tagged
//! kernel heap and [`pageout`] the bookkeeping of evicted pages. [`resident`] brings user
//! ranges in before they are used, [`space`] tears address spaces down and gives
//! processes private copies of shared pages. What these promise together stands in
//! [`laws`], [`isolation`], [`private`], [`rollback`] and [`splitting`].
pub mod isolation;
pub mod laws;
pub mod pageout;
pub mod phys;
pub mod pool;
pub mod private;
pub mod probe;
pub mod resident;
pub mod rollback;
pub mod space;
pub mod splitting;
pub mod user;
pub mod vad;
pub mod virt;

use vstd::prelude::*;

verus! {

/// x86_64 small page size.
pub const PAGE_SIZE: usize = 4096;

/// Base-two logarithm of the page size.
pub const PAGE_SHIFT: u64 = 12;

/// A physical address.
#[derive(Debug, Clone, Copy, PartialEq, Eq, PartialOrd, Ord, Structural)]
pub struct PhysAddr(pub u64);

impl PhysAddr {
    /// Page frame number: the index of the 4 KiB frame.
    pub fn pfn(self) -> (r: u64)
        ensures
            r == self.0 / 4096,
    {
        self.0 / 0x1000
    }

    /// The address of a frame (the top twelve bits of `pfn` do not fit).
    pub fn from_pfn(pfn: u64) -> (r: Self)
        ensures
            r.0 == (pfn % 0x10_0000_0000_0000) * 4096,
    {
        PhysAddr((pfn % 0x10_0000_0000_0000) * 0x1000)
    }
}

/// The virtual window through which all of physical memory is addressable.
#[derive(Debug, Clone, Copy)]
pub struct PhysWindow {
    /// Virtual address of physical address 0; 0 until it is set.
    pub offset: u64,
}

impl PhysWindow {
    /// A window that is not placed yet.
    pub fn new() -> (w: Self)
        ensures
            w.offset == 0,
    {
        PhysWindow { offset: 0 }
    }
}

/// Place the window.
pub fn set_phys_offset(window: &mut PhysWindow, offset: u64)
    ensures
        final(window).offset == offset,
{
    window.offset = offset;
}

/// The virtual address of a physical address in the window.
pub fn phys_to_virt(window: &PhysWindow, pa: PhysAddr) -> (va: u64)
    requires
        window.offset != 0,
        window.offset + pa.0 <= u64::MAX,
    ensures
        va == window.offset + pa.0,
{
    window.offset + pa.0
}

/// A frame number survives the trip through its address.
pub proof fn pfn_round_trips(pfn: u64)
    requires
        pfn < 0x10_0000_0000_0000,
    ensures
        (((pfn % 0x10_0000_0000_0000) * 4096) as u64) / 4096 == pfn,
{
}

} // verus!
