//! Virtual-memory services.
//!
//! The user heap lives in the window onto physical memory: an allocation is a run
//! of frames, reached at the window's base plus its physical address.
use crate::mm::phys::{
    alloc_pages, mm_allocate_contiguous_pages, mm_free_contiguous_pages, PhysState,
};
use crate::mm::virt::{
    mm_set_user_executable, mm_set_user_writable_executable, protect_range, Mmu, ENTRY_RW, ENTRY_USER,
};
use crate::mm::PhysAddr;
use crate::rtl::bitmap::{picks, with_range};
use crate::rtl::NtStatus;
use vstd::prelude::*;

verus! {

/// Pages that hold `size` bytes.
pub open spec fn pages_for(size: u64) -> int {
    (size + 4095) / 4096
}

fn page_count(size: u64) -> (n: u64)
    ensures
        n == pages_for(size),
{
    size / 4096 + if size % 4096 == 0 {
        0
    } else {
        1
    }
}

/// Allocating `size` bytes: memory, and the address of the allocation, 0 when
/// there is no run of free frames. Without an address the page tables could not
/// be extended to open the range to user mode.
pub open spec fn heap_allocated(st: PhysState, root: u64, window: u64, size: u64) -> (
    PhysState,
    Option<u64>,
) {
    if size == 0 {
        (st, Some(0))
    } else {
        let (s1, pa) = alloc_pages(st, pages_for(size));
        match pa {
            None => (s1, Some(0)),
            Some(pa) => {
                let va = window + pa;
                let (s2, ok) = protect_range(s1, root, va, va + pages_for(size) * 4096, ENTRY_USER);
                (
                    s2,
                    if ok {
                        Some(va as u64)
                    } else {
                        None
                    },
                )
            },
        }
    }
}

/// `NtAllocateVirtualMemory`: allocate whole pages that user mode may read, write
/// and execute.
pub fn nt_allocate_virtual_memory(mmu: &mut Mmu, size: u64) -> (r: Option<u64>)
    requires
        old(mmu).phys.wf(),
        old(mmu).windowed(),
    ensures
        final(mmu).phys.wf(),
        final(mmu).same_registers(old(mmu)),
        (final(mmu).phys@, r) == heap_allocated(
            old(mmu).phys@,
            old(mmu).root(),
            old(mmu).window.offset,
            size,
        ),
{
    if size == 0 {
        return Some(0);
    }
    let pages: u64 = page_count(size);
    let ram_len: usize = mmu.phys.ram.len();
    if pages > (ram_len / 4096) as u64 {
        assert forall|s: int| !#[trigger] picks(mmu.phys@.bits, pages as int, mmu.phys@.hint, s) by {
        }
        return Some(0);
    }
    match mm_allocate_contiguous_pages(&mut mmu.phys, pages as usize) {
        None => Some(0),
        Some(pa) => {
            let va: u64 = mmu.window.offset + pa.0;
            proof {
                assert(va % 4096 == 0);
                assert((va / 0x1000) * 0x1000 == va);
            }
            if mm_set_user_executable(mmu, va, pages * 4096) {
                Some(va)
            } else {
                None
            }
        },
    }
}

/// Subtraction modulo 2^64.
pub open spec fn less(a: u64, b: u64) -> int {
    if a >= b {
        a - b
    } else {
        a - b + 0x1_0000_0000_0000_0000
    }
}

/// The range `[base, base + size)` is one of whole frames in use.
pub open spec fn heap_range(mmu: &Mmu, base: u64, size: u64) -> bool {
    let first = less(base, mmu.window.offset) / 4096;
    &&& 0 < first
    &&& first + pages_for(size) <= mmu.phys.bits().len()
    &&& forall|k: int| first <= k < first + pages_for(size) ==> #[trigger] mmu.phys.bits()[k]
}

/// Does `[base, base + size)` consist of whole frames in use?
pub fn is_heap_range(mmu: &Mmu, base: u64, size: u64) -> (r: bool)
    requires
        mmu.phys.wf(),
    ensures
        r == heap_range(mmu, base, size),
{
    let frames: usize = mmu.phys.bitmap.len();
    let pages: u64 = page_count(size);
    let first: u64 = base.wrapping_sub(mmu.window.offset) / 4096;
    if first == 0 || first > frames as u64 || pages > frames as u64 - first {
        return false;
    }
    let end: usize = (first + pages) as usize;
    let mut k: usize = first as usize;
    while k < end
        invariant
            mmu.phys.wf(),
            first == less(base, mmu.window.offset) / 4096,
            end == first + pages_for(size),
            first <= k <= end,
            end <= mmu.phys.bits().len(),
            forall|j: int| first <= j < k ==> #[trigger] mmu.phys.bits()[j],
        decreases end - k,
    {
        if !mmu.phys.bitmap.test_bit(k) {
            return false;
        }
        k = k + 1;
    }
    true
}

/// `NtFreeVirtualMemory`: give the frames of an allocation back.
pub fn nt_free_virtual_memory(mmu: &mut Mmu, base: u64, size: u64) -> (status: NtStatus)
    requires
        old(mmu).phys.wf(),
        base != 0 && size != 0 ==> heap_range(old(mmu), base, size),
    ensures
        final(mmu).phys.wf(),
        final(mmu).same_registers(old(mmu)),
        base == 0 || size == 0 ==> status == NtStatus(NtStatus::INVALID_PARAMETER) && *final(mmu)
            == *old(mmu),
        base != 0 && size != 0 ==> {
            let first = less(base, old(mmu).window.offset) / 4096;
            &&& status == NtStatus(NtStatus::SUCCESS)
            &&& final(mmu).phys@ == (PhysState {
                bits: with_range(old(mmu).phys@.bits, first, pages_for(size), false),
                hint: if old(mmu).phys@.hint <= first {
                    old(mmu).phys@.hint
                } else {
                    first
                },
                free: old(mmu).phys@.free + pages_for(size),
                ..old(mmu).phys@
            })
        },
{
    if base == 0 || size == 0 {
        return NtStatus(NtStatus::INVALID_PARAMETER);
    }
    let pages: u64 = page_count(size);
    let pa: u64 = base.wrapping_sub(mmu.window.offset);
    let _ram_len: usize = mmu.phys.ram.len();
    assert(pages <= mmu.phys@.ram.len());
    mm_free_contiguous_pages(&mut mmu.phys, PhysAddr(pa), pages as usize);
    NtStatus(NtStatus::SUCCESS)
}

/// Opening a range: memory, and whether the page tables could be extended.
pub open spec fn range_opened(st: PhysState, root: u64, base: u64, size: u64) -> (
    PhysState,
    bool,
) {
    if base == 0 || size == 0 {
        (st, true)
    } else {
        protect_range(st, root, (base / 0x1000) * 0x1000, base + size, ENTRY_USER | ENTRY_RW)
    }
}

/// `NtProtectVirtualMemory`: make a range accessible, writable and executable for
/// user mode; access is never taken away. Reports whether the page tables could be extended;
/// if so the service succeeds.
pub fn nt_protect_virtual_memory(mmu: &mut Mmu, base: u64, size: u64) -> (ok: bool)
    requires
        old(mmu).phys.wf(),
        base != 0 && size != 0 ==> base + size <= u64::MAX - 0xFFF,
    ensures
        final(mmu).phys.wf(),
        final(mmu).same_registers(old(mmu)),
        (final(mmu).phys@, ok) == range_opened(old(mmu).phys@, old(mmu).root(), base, size),
{
    if base != 0 && size != 0 {
        mm_set_user_writable_executable(mmu, base, size)
    } else {
        true
    }
}

/// Freeing an allocation gives back exactly the frames that it took.
pub proof fn a_freed_allocation_leaves_no_frames_behind(st: PhysState, pages: int)
    requires
        0 <= st.hint,
        st.bits.len() * 4096 <= u64::MAX,
        alloc_pages(st, pages).1 is Some,
    ensures
        ({
            let (s1, pa) = alloc_pages(st, pages);
            with_range(s1.bits, pa->Some_0 as int / 4096, pages, false) == st.bits
        }),
{
    let first = crate::mm::phys::picked(st.bits, pages, st.hint);
    assert(picks(st.bits, pages, st.hint, first));
    let s1 = alloc_pages(st, pages).0;
    assert(((first * 4096) as u64) as int / 4096 == first);
    assert(with_range(s1.bits, first, pages, false) =~= st.bits);
}

/// An allocation takes whole pages: as many as hold its size, and no more.
pub proof fn an_allocation_takes_whole_pages(size: u64)
    ensures
        pages_for(size) * 4096 >= size,
        size > 0 ==> (pages_for(size) - 1) * 4096 < size,
        pages_for(0) == 0,
{
}

/// A request for nothing gives nothing, and one that memory cannot meet gives nothing
/// either.
pub proof fn an_allocation_that_fails_gives_nothing(
    st: PhysState,
    root: u64,
    window: u64,
    size: u64,
)
    ensures
        heap_allocated(st, root, window, 0) == (st, Some(0u64)),
        size > 0 && alloc_pages(st, pages_for(size)).1 is None ==> heap_allocated(
            st,
            root,
            window,
            size,
        ).1 == Some(0u64),
{
}

/// An allocation is at the place of its frames in the window on physical memory.
pub proof fn an_allocation_is_in_the_window(
    st: PhysState,
    root: u64,
    window: u64,
    size: u64,
    pa: u64,
)
    requires
        size > 0,
        alloc_pages(st, pages_for(size)).1 == Some(pa),
        window + pa <= u64::MAX,
    ensures
        heap_allocated(st, root, window, size).1 matches Some(va) ==> va == window + pa,
{
}

/// Distances go around the end of the address space.
pub proof fn distances_wrap(a: u64, b: u64)
    ensures
        0 <= less(a, b) <= u64::MAX,
        (b + less(a, b)) % 0x1_0000_0000_0000_0000 == a as int,
{
}

/// Opening a range of no size changes nothing; any other starts with the page of its first
/// byte.
pub proof fn a_range_is_opened_from_its_first_page(st: PhysState, root: u64, base: u64, size: u64)
    ensures
        range_opened(st, root, 0, size) == (st, true),
        range_opened(st, root, base, 0) == (st, true),
        base > 0 && size > 0 ==> exists|first: int|
            first % 4096 == 0 && first <= base < first + 4096 && range_opened(st, root, base, size)
                == #[trigger] protect_range(st, root, first, base + size, ENTRY_USER | ENTRY_RW),
{
    let first = (base / 0x1000) * 0x1000;
    if base > 0 && size > 0 {
        assert(range_opened(st, root, base, size) == protect_range(
            st,
            root,
            first,
            base + size,
            ENTRY_USER | ENTRY_RW,
        ));
    }
}

/// Memory can be given back where all of its frames are in use, and the first is not the very
/// first of memory.
pub proof fn memory_in_use_can_be_given_back(mmu: &Mmu, base: u64, size: u64, first: int)
    requires
        base >= mmu.window.offset,
        (base - mmu.window.offset) / 4096 == first,
    ensures
        heap_range(mmu, base, size) == (first > 0 && first + pages_for(size)
            <= mmu.phys.bits().len() && forall|k: int|
            first <= k < first + pages_for(size) ==> #[trigger] mmu.phys.bits()[k]),
{
}

} // verus!
