//! Per-process data of the shared support modules.
//!
//! The support modules are shared code, but their writable pages hold
//! per-process state. Those pages are recorded once, with their pristine bytes,
//! and every process gets private copies seeded from them.
use crate::mm::phys::{PhysState, PhysicalMemory};
use crate::mm::space::{
    free_all, mm_free_privatized, mm_privatize_pages, no_private, privatize_pages, releasable,
    PrivState, Privatized,
};
use crate::mm::virt::Mmu;
use crate::mm::{PhysAddr, PhysWindow};
use vstd::prelude::*;
use vstd::slice::slice_subrange;

verus! {

pub const MAX_SHIM_REGIONS: usize = 8;

/// Total writable bytes tracked.
pub const SHIM_DATA_MAX: u64 = 0x2_0000;

pub const MAX_SHIM_SLOTS: usize = 16;

/// A writable region, in whole pages; its pristine bytes start at `snap_off` in
/// the snapshot.
#[derive(Debug, Clone, Copy, PartialEq, Eq, Structural)]
pub struct ShimRegion {
    pub va: u64,
    pub len: usize,
    pub snap_off: usize,
}

/// The recorded regions and their pristine bytes.
pub struct ShimData {
    pub regions: Vec<ShimRegion>,
    pub snapshot: Vec<u8>,
}

/// The abstract record.
#[verifier::ext_equal]
pub struct ShimState {
    pub regions: Seq<ShimRegion>,
    pub snapshot: Seq<u8>,
}

impl View for ShimData {
    type V = ShimState;

    open spec fn view(&self) -> ShimState {
        ShimState { regions: self.regions@, snapshot: self.snapshot@ }
    }
}

/// Regions are whole pages, have their bytes in the snapshot, and fit the caps.
pub open spec fn shim_wf(st: ShimState) -> bool {
    &&& st.regions.len() <= MAX_SHIM_REGIONS
    &&& st.snapshot.len() <= SHIM_DATA_MAX
    &&& forall|i: int|
        0 <= i < st.regions.len() ==> {
            let r = #[trigger] st.regions[i];
            &&& r.va % 4096 == 0
            &&& r.len % 4096 == 0
            &&& r.va + r.len <= u64::MAX - 0xFFF
            &&& r.snap_off + r.len <= st.snapshot.len()
        }
}

/// First page of a section.
pub open spec fn span_start(base: u64, rva: u32) -> int {
    ((base + rva) / 4096) * 4096
}

/// One past the last page of a section.
pub open spec fn span_end(base: u64, rva: u32, size: u32) -> int {
    ((base + rva + size + 4095) / 4096) * 4096
}

/// The record with the sections from `i` on added, up to the first that does not
/// fit; `ram` is installed memory and `offset` where the window shows it.
pub open spec fn recorded(
    st: ShimState,
    ram: Seq<u8>,
    offset: u64,
    base: u64,
    sections: Seq<(u32, u32)>,
    i: int,
) -> ShimState
    decreases sections.len() - i,
{
    if i < 0 || i >= sections.len() {
        st
    } else {
        let (rva, size) = sections[i];
        let lo = span_start(base, rva);
        let hi = span_end(base, rva, size);
        let from = lo - offset;
        if st.regions.len() >= MAX_SHIM_REGIONS || st.snapshot.len() + (hi - lo) > SHIM_DATA_MAX
            || from < 0 || from + (hi - lo) > ram.len() {
            st
        } else {
            recorded(
                ShimState {
                    regions: st.regions.push(
                        ShimRegion {
                            va: lo as u64,
                            len: (hi - lo) as usize,
                            snap_off: st.snapshot.len() as usize,
                        },
                    ),
                    snapshot: st.snapshot + ram.subrange(from, from + (hi - lo)),
                },
                ram,
                offset,
                base,
                sections,
                i + 1,
            )
        }
    }
}

impl ShimData {
    /// Nothing recorded.
    pub fn new() -> (d: Self)
        ensures
            shim_wf(d@),
            d@.regions.len() == 0,
    {
        ShimData { regions: Vec::new(), snapshot: Vec::new() }
    }
}

/// Record a module's writable sections (address and size, relative to its base)
/// in whole pages, with their bytes as they are now.
pub fn register_shim_data(shim: &mut ShimData, mmu: &Mmu, base: u64, sections: &[(u32, u32)])
    requires
        shim_wf(old(shim)@),
        mmu.windowed(),
        base <= u64::MAX - 0x2_FFFF_FFFF,
    ensures
        shim_wf(final(shim)@),
        final(shim)@ == recorded(
            old(shim)@,
            mmu.phys@.ram,
            mmu.window.offset,
            base,
            sections@,
            0,
        ),
{
    let ghost before = shim@;
    let offset: u64 = mmu.window.offset;
    let ram_len: u64 = mmu.phys.ram.len() as u64;
    let mut i: usize = 0;
    while i < sections.len()
        invariant
            i <= sections@.len(),
            shim_wf(shim@),
            before == old(shim)@,
            mmu.windowed(),
            offset == mmu.window.offset,
            ram_len == mmu.phys@.ram.len(),
            base <= u64::MAX - 0x2_FFFF_FFFF,
            recorded(before, mmu.phys@.ram, offset, base, sections@, 0) == recorded(
                shim@,
                mmu.phys@.ram,
                offset,
                base,
                sections@,
                i as int,
            ),
        decreases sections@.len() - i,
    {
        let (rva, size) = sections[i];
        let lo: u64 = (base + rva as u64) / 4096 * 4096;
        let hi: u64 = (base + rva as u64 + size as u64 + 4095) / 4096 * 4096;
        assert(lo <= hi);
        let len: u64 = hi - lo;
        if shim.regions.len() >= MAX_SHIM_REGIONS || shim.snapshot.len() as u64 + len
            > SHIM_DATA_MAX || lo < offset {
            return ;
        }
        let from: u64 = lo - offset;
        if from > ram_len || len > ram_len - from {
            return ;
        }
        let ghost prev = shim@;
        let installed: usize = mmu.phys.ram.len();
        assert(from + len <= installed);
        let n: usize = len as usize;
        let f: usize = from as usize;
        let off: usize = shim.snapshot.len();
        shim.snapshot.extend_from_slice(slice_subrange(mmu.phys.ram.as_slice(), f, f + n));
        shim.regions.push(ShimRegion { va: lo, len: n, snap_off: off });
        proof {
            assert(shim@.snapshot =~= prev.snapshot + mmu.phys@.ram.subrange(
                from as int,
                from + len,
            ));
            assert forall|k: int| 0 <= k < shim@.regions.len() implies {
                let r = #[trigger] shim@.regions[k];
                &&& r.va % 4096 == 0
                &&& r.len % 4096 == 0
                &&& r.va + r.len <= u64::MAX - 0xFFF
                &&& r.snap_off + r.len <= shim@.snapshot.len()
            } by {
                if k < prev.regions.len() {
                    assert(prev.regions[k] == shim@.regions[k]);
                }
            }
        }
        i = i + 1;
    }
}

/// The address of the first recorded region, 0 when there is none.
pub fn first_shim_data_va(shim: &ShimData) -> (va: u64)
    ensures
        va == if shim@.regions.len() == 0 {
            0
        } else {
            shim@.regions[0].va
        },
{
    if shim.regions.len() == 0 {
        0
    } else {
        shim.regions[0].va
    }
}

// ---------------------------------------------------------------------------
// Private copies
// ---------------------------------------------------------------------------
/// One process's private copies.
pub struct ShimSlot {
    pub cr3: u64,
    pub in_use: bool,
    pub pages: Privatized,
}

/// The private copies of all processes.
pub struct ShimSlots {
    pub slots: Vec<ShimSlot>,
}

/// The slot of a process, from `i` on.
pub open spec fn slot_of(slots: Seq<ShimSlot>, cr3: u64, i: int) -> Option<int>
    decreases slots.len() - i,
{
    if i < 0 || i >= slots.len() {
        None
    } else if slots[i].in_use && slots[i].cr3 == cr3 {
        Some(i)
    } else {
        slot_of(slots, cr3, i + 1)
    }
}

/// The first unused slot, from `i` on.
pub open spec fn unused_slot(slots: Seq<ShimSlot>, i: int) -> Option<int>
    decreases slots.len() - i,
{
    if i < 0 || i >= slots.len() {
        None
    } else if !slots[i].in_use {
        Some(i)
    } else {
        unused_slot(slots, i + 1)
    }
}

impl ShimSlots {
    pub open spec fn wf(&self) -> bool {
        self.slots@.len() == MAX_SHIM_SLOTS
    }

    /// No slot in use.
    pub fn new() -> (s: Self)
        ensures
            s.wf(),
            forall|i: int| 0 <= i < MAX_SHIM_SLOTS ==> !(#[trigger] s.slots@[i]).in_use,
            forall|i: int|
                0 <= i < MAX_SHIM_SLOTS ==> (#[trigger] s.slots@[i]).pages@ == no_private(),
    {
        let mut slots: Vec<ShimSlot> = Vec::new();
        let mut i: usize = 0;
        while i < MAX_SHIM_SLOTS
            invariant
                i <= MAX_SHIM_SLOTS,
                slots@.len() == i,
                forall|k: int|
                    0 <= k < i ==> !(#[trigger] slots@[k]).in_use && slots@[k].pages@
                        == no_private(),
            decreases MAX_SHIM_SLOTS - i,
        {
            slots.push(ShimSlot { cr3: 0, in_use: false, pages: Privatized::new() });
            i = i + 1;
        }
        ShimSlots { slots }
    }
}

fn find_slot(slots: &ShimSlots, cr3: u64) -> (r: Option<usize>)
    ensures
        match r {
            Some(i) => slot_of(slots.slots@, cr3, 0) == Some(i as int) && i < slots.slots@.len()
                && slots.slots@[i as int].in_use && slots.slots@[i as int].cr3 == cr3,
            None => slot_of(slots.slots@, cr3, 0) is None,
        },
{
    let mut i: usize = 0;
    while i < slots.slots.len()
        invariant
            i <= slots.slots@.len(),
            slot_of(slots.slots@, cr3, 0) == slot_of(slots.slots@, cr3, i as int),
        decreases slots.slots@.len() - i,
    {
        if slots.slots[i].in_use && slots.slots[i].cr3 == cr3 {
            return Some(i);
        }
        i = i + 1;
    }
    None
}

fn find_unused(slots: &ShimSlots) -> (r: Option<usize>)
    ensures
        match r {
            Some(i) => unused_slot(slots.slots@, 0) == Some(i as int) && i < slots.slots@.len(),
            None => unused_slot(slots.slots@, 0) is None,
        },
{
    let mut i: usize = 0;
    while i < slots.slots.len()
        invariant
            i <= slots.slots@.len(),
            unused_slot(slots.slots@, 0) == unused_slot(slots.slots@, i as int),
        decreases slots.slots@.len() - i,
    {
        if !slots.slots[i].in_use {
            return Some(i);
        }
        i = i + 1;
    }
    None
}

/// Memory and a process's record after the regions from `i` on have been
/// privatized, up to the first that fails.
pub open spec fn regions_privatized(
    st: PhysState,
    rec: PrivState,
    offset: u64,
    cr3: u64,
    shim: ShimState,
    i: int,
) -> (PhysState, PrivState)
    decreases shim.regions.len() - i,
{
    if i < 0 || i >= shim.regions.len() {
        (st, rec)
    } else {
        let r = shim.regions[i];
        let seed = shim.snapshot.subrange(r.snap_off as int, r.snap_off + r.len);
        let (s1, r1, ok) = privatize_pages(st, rec, offset, cr3, r.va, r.len as int, seed);
        if ok {
            regions_privatized(s1, r1, offset, cr3, shim, i + 1)
        } else {
            (s1, r1)
        }
    }
}

fn privatize_regions(
    phys: &mut PhysicalMemory,
    window: &PhysWindow,
    cr3: u64,
    shim: &ShimData,
    rec: &mut Privatized,
)
    requires
        old(phys).wf(),
        shim_wf(shim@),
    ensures
        final(phys).wf(),
        (final(phys)@, final(rec)@) == regions_privatized(
            old(phys)@,
            old(rec)@,
            window.offset,
            cr3,
            shim@,
            0,
        ),
{
    let ghost st = phys@;
    let ghost r0 = rec@;
    let mut i: usize = 0;
    while i < shim.regions.len()
        invariant
            i <= shim@.regions.len(),
            shim_wf(shim@),
            phys.wf(),
            st == old(phys)@,
            r0 == old(rec)@,
            regions_privatized(st, r0, window.offset, cr3, shim@, 0) == regions_privatized(
                phys@,
                rec@,
                window.offset,
                cr3,
                shim@,
                i as int,
            ),
        decreases shim@.regions.len() - i,
    {
        let r: ShimRegion = shim.regions[i];
        assert(r == shim@.regions[i as int]);
        let seed = slice_subrange(shim.snapshot.as_slice(), r.snap_off, r.snap_off + r.len);
        if !mm_privatize_pages(phys, window, PhysAddr(cr3), r.va, r.len, rec, seed) {
            return ;
        }
        i = i + 1;
    }
}

/// What giving the address space `cr3` its private pages makes of the slots and of
/// memory. The kernel's address space (0) gets none, none are given before anything is
/// recorded or when no slot is left, and an address space that has its slot keeps what
/// it has.
pub open spec fn shim_privatized(
    slots: Seq<ShimSlot>,
    st: PhysState,
    shim: ShimState,
    offset: u64,
    cr3: u64,
    slots1: Seq<ShimSlot>,
    st1: PhysState,
) -> bool {
    let k = unused_slot(slots, 0);
    if cr3 == 0 || shim.regions.len() == 0 || slot_of(slots, cr3, 0) is Some || k is None {
        slots1 == slots && st1 == st
    } else {
        let i = k->0;
        let (st2, rec) = regions_privatized(st, slots[i].pages@, offset, cr3, shim, 0);
        &&& st1 == st2
        &&& slots1.len() == slots.len()
        &&& slots1[i].pages@ == rec
        &&& slots1[i].in_use
        &&& slots1[i].cr3 == cr3
        &&& forall|j: int| 0 <= j < slots.len() && j != i ==> #[trigger] slots1[j] == slots[j]
    }
}

/// Give the address space `cr3` private pages for every recorded region. Nothing
/// happens for the kernel's address space (0), before anything is recorded, when no
/// slot is left, and when it has been done for this address space before.
pub fn privatize_shim_data(
    slots: &mut ShimSlots,
    shim: &ShimData,
    phys: &mut PhysicalMemory,
    window: &PhysWindow,
    cr3: u64,
)
    requires
        old(slots).wf(),
        old(phys).wf(),
        shim_wf(shim@),
    ensures
        final(slots).wf(),
        final(phys).wf(),
        shim_privatized(
            old(slots).slots@,
            old(phys)@,
            shim@,
            window.offset,
            cr3,
            final(slots).slots@,
            final(phys)@,
        ),
{
    if cr3 == 0 || shim.regions.len() == 0 {
        return ;
    }
    if find_slot(slots, cr3).is_some() {
        return ;
    }
    let i: usize = match find_unused(slots) {
        Some(i) => i,
        None => {
            return ;
        },
    };
    let mut slot = ShimSlot { cr3, in_use: true, pages: Privatized::new() };
    std::mem::swap(&mut slots.slots[i], &mut slot);
    let mut rec: Privatized = slot.pages;
    privatize_regions(phys, window, cr3, shim, &mut rec);
    slots.slots.set(i, ShimSlot { cr3, in_use: true, pages: rec });
}

proof fn lemma_slot_of(slots: Seq<ShimSlot>, cr3: u64, i: int, k: int)
    requires
        0 <= i <= k < slots.len(),
        slots[k].in_use,
        slots[k].cr3 == cr3,
    ensures
        slot_of(slots, cr3, i) is Some,
    decreases k - i,
{
    if i < k && !(slots[i].in_use && slots[i].cr3 == cr3) {
        lemma_slot_of(slots, cr3, i + 1, k);
    }
}

proof fn lemma_unused_slot(slots: Seq<ShimSlot>, i: int)
    requires
        0 <= i,
    ensures
        unused_slot(slots, i) matches Some(k) ==> i <= k < slots.len(),
    decreases slots.len() - i,
{
    if i < slots.len() && slots[i].in_use {
        lemma_unused_slot(slots, i + 1);
    }
}

/// Privatizing is idempotent per address space: a second call changes neither the slots
/// nor memory, whatever the process has done to its memory since the first.
pub proof fn privatizing_twice_changes_nothing(
    slots: Seq<ShimSlot>,
    st: PhysState,
    shim: ShimState,
    offset: u64,
    cr3: u64,
    slots1: Seq<ShimSlot>,
    st1: PhysState,
    used: PhysState,
    slots2: Seq<ShimSlot>,
    st2: PhysState,
)
    requires
        shim_privatized(slots, st, shim, offset, cr3, slots1, st1),
        shim_privatized(slots1, used, shim, offset, cr3, slots2, st2),
    ensures
        slots2 == slots1,
        st2 == used,
{
    lemma_unused_slot(slots, 0);
    if slot_of(slots, cr3, 0) is None {
        if let Some(i) = unused_slot(slots, 0) {
            if cr3 != 0 && shim.regions.len() != 0 {
                lemma_slot_of(slots1, cr3, 0, i);
            }
        }
    }
}

/// Release the private pages of the address space `cr3`.
pub fn free_shim_pages(slots: &mut ShimSlots, phys: &mut PhysicalMemory, cr3: u64)
    requires
        old(slots).wf(),
        old(phys).wf(),
        slot_of(old(slots).slots@, cr3, 0) matches Some(i) ==> releasable(
            old(phys)@,
            old(slots).slots@[i].pages@.frames + old(slots).slots@[i].pages@.tables,
        ),
    ensures
        final(slots).wf(),
        final(phys).wf(),
        ({
            let k = slot_of(old(slots).slots@, cr3, 0);
            if cr3 == 0 || k is None {
                final(slots).slots@ == old(slots).slots@ && final(phys)@ == old(phys)@
            } else {
                let i = k->0;
                let p = old(slots).slots@[i].pages@;
                &&& final(phys)@ == free_all(old(phys)@, p.frames + p.tables)
                &&& !final(slots).slots@[i].in_use
                &&& final(slots).slots@[i].cr3 == 0
                &&& final(slots).slots@[i].pages@ == no_private()
                &&& forall|j: int|
                    0 <= j < MAX_SHIM_SLOTS && j != i ==> #[trigger] final(slots).slots@[j]
                        == old(slots).slots@[j]
            }
        }),
{
    if cr3 == 0 {
        return ;
    }
    let i: usize = match find_slot(slots, cr3) {
        Some(i) => i,
        None => {
            return ;
        },
    };
    let mut slot = ShimSlot { cr3: 0, in_use: false, pages: Privatized::new() };
    std::mem::swap(&mut slots.slots[i], &mut slot);
    let mut rec: Privatized = slot.pages;
    mm_free_privatized(phys, &mut rec);
}

/// A region covers its section whole, in whole pages, with less than a page in front and
/// behind.
pub proof fn a_region_covers_its_section(base: u64, rva: u32, size: u32)
    ensures
        span_start(base, rva) % 4096 == 0,
        span_end(base, rva, size) % 4096 == 0,
        span_start(base, rva) <= base + rva < span_start(base, rva) + 4096,
        base + rva + size <= span_end(base, rva, size) < base + rva + size + 4096,
{
}

/// A section that is recorded keeps what its pages held: the snapshot holds, at the place the
/// region names, the memory of its span as it was.
pub proof fn a_recorded_section_is_kept(
    st: ShimState,
    ram: Seq<u8>,
    offset: u64,
    base: u64,
    section: (u32, u32),
    j: int,
)
    requires
        st.regions.len() < 8,
        st.snapshot.len() + (span_end(base, section.0, section.1) - span_start(base, section.0))
            <= 0x2_0000,
        offset <= span_start(base, section.0),
        span_end(base, section.0, section.1) - offset <= ram.len(),
        span_end(base, section.0, section.1) <= u64::MAX,
        0 <= j < span_end(base, section.0, section.1) - span_start(base, section.0),
    ensures
        ({
            let r = recorded(st, ram, offset, base, seq![section], 0);
            let g = r.regions.last();
            &&& r.regions.len() == st.regions.len() + 1
            &&& g.va == span_start(base, section.0)
            &&& g.va + g.len == span_end(base, section.0, section.1)
            &&& g.snap_off == st.snapshot.len()
            &&& r.snapshot.len() == st.snapshot.len() + g.len
            &&& r.snapshot[g.snap_off + j] == ram[g.va + j - offset]
        }),
{
    reveal_with_fuel(recorded, 2);
}

/// Sections that no longer fit are left out, with all that follow.
pub proof fn a_full_record_takes_no_more(
    st: ShimState,
    ram: Seq<u8>,
    offset: u64,
    base: u64,
    sections: Seq<(u32, u32)>,
)
    requires
        st.regions.len() >= 8,
    ensures
        recorded(st, ram, offset, base, sections, 0) == st,
{
}

/// The slot of an address space is one that is in use for it, and a new one is taken only
/// where nobody is.
pub proof fn a_slot_belongs_to_its_space(slots: Seq<ShimSlot>, cr3: u64)
    ensures
        match slot_of(slots, cr3, 0) {
            Some(i) => 0 <= i < slots.len() && slots[i].in_use && slots[i].cr3 == cr3,
            None => forall|i: int|
                0 <= i < slots.len() ==> !((#[trigger] slots[i]).in_use && slots[i].cr3 == cr3),
        },
        match unused_slot(slots, 0) {
            Some(i) => 0 <= i < slots.len() && !slots[i].in_use,
            None => forall|i: int| 0 <= i < slots.len() ==> (#[trigger] slots[i]).in_use,
        },
{
    lemma_slots(slots, cr3, 0);
}

proof fn lemma_slots(slots: Seq<ShimSlot>, cr3: u64, i: int)
    requires
        0 <= i,
    ensures
        match slot_of(slots, cr3, i) {
            Some(k) => i <= k < slots.len() && slots[k].in_use && slots[k].cr3 == cr3,
            None => forall|k: int|
                i <= k < slots.len() ==> !((#[trigger] slots[k]).in_use && slots[k].cr3 == cr3),
        },
        match unused_slot(slots, i) {
            Some(k) => i <= k < slots.len() && !slots[k].in_use,
            None => forall|k: int| i <= k < slots.len() ==> (#[trigger] slots[k]).in_use,
        },
    decreases slots.len() - i,
{
    if i < slots.len() {
        lemma_slots(slots, cr3, i + 1);
    }
}

} // verus!
