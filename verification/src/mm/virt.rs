//! Virtual address translation and page-table edits.
//!
//! x86_64 four-level translation (PML4, PDPT, PD, PT), each level 512 eight-byte
//! entries indexed by nine bits of the virtual address. Tables live in physical
//! memory, which the walks below read and write; memory beyond the installed
//! RAM reads as zero (no entry there is present).
//!
//! Loading CR3 and invalidating TLB entries is the caller's part: a routine that
//! changes a live entry reports it in its result.
use crate::bytes::{bytes64, get64, in_bounds, lemma_bytes64, overlay, put64, u64le};
use crate::mm::phys::{keeps_frames, alloc_page, mm_allocate_page, PhysState, PhysicalMemory};
use crate::mm::{PhysAddr, PhysWindow};
use vstd::prelude::*;

verus! {

/// Entry maps something.
pub const ENTRY_PRESENT: u64 = 0x1;

/// Entry is writable.
pub const ENTRY_RW: u64 = 0x2;

/// Entry is user-accessible.
pub const ENTRY_USER: u64 = 0x4;

/// Entry is a 1 GiB (PDPT) or 2 MiB (PD) page.
pub const ENTRY_LARGE: u64 = 0x80;

/// Entry is not executable.
pub const ENTRY_NX: u64 = 0x8000_0000_0000_0000;

/// The address bits of an entry.
pub const ADDR_MASK: u64 = 0x000F_FFFF_FFFF_F000;

/// The flag bits of an entry.
pub const FLAG_MASK: u64 = 0xFFF0_0000_0000_0FFF;

/// NT's nominal user/kernel boundary on x64.
pub const MM_USER_PROBE_ADDRESS: u64 = 0x0000_7FFF_FFFF_0000;

pub open spec fn present(e: u64) -> bool {
    e & ENTRY_PRESENT != 0
}

pub open spec fn large(e: u64) -> bool {
    e & ENTRY_LARGE != 0
}

pub open spec fn user(e: u64) -> bool {
    e & ENTRY_USER != 0
}

/// The table index of `va` at `level` (4 = PML4 .. 1 = PT).
pub open spec fn level_index(va: u64, level: int) -> int {
    let v = va as int;
    if level == 4 {
        (v / 0x80_0000_0000) % 512
    } else if level == 3 {
        (v / 0x4000_0000) % 512
    } else if level == 2 {
        (v / 0x20_0000) % 512
    } else {
        (v / 0x1000) % 512
    }
}

/// The 64-bit word at physical address `pa`; zero beyond installed memory.
pub open spec fn word(ram: Seq<u8>, pa: int) -> u64 {
    if in_bounds(ram, pa, 8) {
        get64(ram, pa) as u64
    } else {
        0
    }
}

/// `ram` with the word at `pa` replaced; unchanged beyond installed memory.
pub open spec fn set_word(ram: Seq<u8>, pa: int, v: u64) -> Seq<u8> {
    if in_bounds(ram, pa, 8) {
        overlay(ram, pa, bytes64(v))
    } else {
        ram
    }
}

/// Entry `idx` of the table at `table`.
pub open spec fn entry(ram: Seq<u8>, table: u64, idx: int) -> u64 {
    word(ram, table + 8 * idx)
}

/// Memory with entry `idx` of the table at `table` replaced.
pub open spec fn with_entry(ram: Seq<u8>, table: u64, idx: int, v: u64) -> Seq<u8> {
    set_word(ram, table + 8 * idx, v)
}

/// State with entry `idx` of the table at `table` replaced.
pub open spec fn set_entry(st: PhysState, table: u64, idx: int, v: u64) -> PhysState {
    PhysState { ram: with_entry(st.ram, table, idx, v), ..st }
}

/// Memory with the whole table at `table` replaced.
pub open spec fn with_table(ram: Seq<u8>, table: int, entries: Seq<u64>) -> Seq<u8> {
    Seq::new(
        ram.len(),
        |i: int|
            if table <= i < table + 8 * entries.len() {
                bytes64(entries[(i - table) / 8])[(i - table) % 8]
            } else {
                ram[i]
            },
    )
}

/// All 512 entries of a table.
pub open spec fn table_entries(ram: Seq<u8>, table: u64) -> Seq<u64> {
    Seq::new(512, |i: int| entry(ram, table, i))
}

/// The four entries on the way to `va`.
pub open spec fn pml4e(ram: Seq<u8>, root: u64, va: u64) -> u64 {
    entry(ram, root, level_index(va, 4))
}

pub open spec fn pdpte(ram: Seq<u8>, root: u64, va: u64) -> u64 {
    entry(ram, pml4e(ram, root, va) & ADDR_MASK, level_index(va, 3))
}

pub open spec fn pde(ram: Seq<u8>, root: u64, va: u64) -> u64 {
    entry(ram, pdpte(ram, root, va) & ADDR_MASK, level_index(va, 2))
}

pub open spec fn pte(ram: Seq<u8>, root: u64, va: u64) -> u64 {
    entry(ram, pde(ram, root, va) & ADDR_MASK, level_index(va, 1))
}

/// The physical address that `va` translates to in the address space `root`.
pub open spec fn translate(ram: Seq<u8>, root: u64, va: u64) -> Option<u64> {
    let e3 = pdpte(ram, root, va);
    let e2 = pde(ram, root, va);
    let e1 = pte(ram, root, va);
    if !present(pml4e(ram, root, va)) || !present(e3) {
        None
    } else if large(e3) {
        Some((e3 & ADDR_MASK & !0x3FFF_FFFFu64) | (va & 0x3FFF_FFFF))
    } else if !present(e2) {
        None
    } else if large(e2) {
        Some((e2 & ADDR_MASK & !0x1F_FFFFu64) | (va & 0x1F_FFFF))
    } else if !present(e1) {
        None
    } else {
        Some((e1 & ADDR_MASK) | (va & 0xFFF))
    }
}

/// `va`'s page is present and user-accessible at every level of the walk.
pub open spec fn user_mapped(ram: Seq<u8>, root: u64, va: u64) -> bool {
    let ok = |e: u64| present(e) && user(e);
    &&& ok(pml4e(ram, root, va))
    &&& ok(pdpte(ram, root, va))
    &&& large(pdpte(ram, root, va)) || {
        &&& ok(pde(ram, root, va))
        &&& large(pde(ram, root, va)) || ok(pte(ram, root, va))
    }
}

/// The page table holding the 4 KiB leaf of `va`, when every level above it is
/// present and no large page is met.
pub open spec fn leaf_table(ram: Seq<u8>, root: u64, va: u64) -> Option<u64> {
    let e3 = pdpte(ram, root, va);
    let e2 = pde(ram, root, va);
    if present(pml4e(ram, root, va)) && present(e3) && !large(e3) && present(e2) && !large(e2) {
        Some(e2 & ADDR_MASK)
    } else {
        None
    }
}

/// The 4 KiB leaf entry of `va` (present or not), if it has one.
pub open spec fn leaf_entry(ram: Seq<u8>, root: u64, va: u64) -> Option<u64> {
    match leaf_table(ram, root, va) {
        Some(t) => Some(entry(ram, t, level_index(va, 1))),
        None => None,
    }
}

proof fn lemma_addr_mask(e: u64)
    by (bit_vector)
    ensures
        e & ADDR_MASK <= 0x000F_FFFF_FFFF_F000,
        (e & ADDR_MASK) % 4096 == 0,
        e & ADDR_MASK & !0x3FFF_FFFFu64 <= 0x000F_FFFF_FFFF_F000,
        e & ADDR_MASK & !0x1F_FFFFu64 <= 0x000F_FFFF_FFFF_F000,
{
}

/// The index of `va` at `level`.
pub fn table_index(va: u64, level: u8) -> (r: usize)
    requires
        1 <= level <= 4,
    ensures
        r == level_index(va, level as int),
        r < 512,
{
    if level == 4 {
        ((va / 0x80_0000_0000) % 512) as usize
    } else if level == 3 {
        ((va / 0x4000_0000) % 512) as usize
    } else if level == 2 {
        ((va / 0x20_0000) % 512) as usize
    } else {
        ((va / 0x1000) % 512) as usize
    }
}

/// Read entry `idx` of the table at `table`.
pub fn read_entry(phys: &PhysicalMemory, table: u64, idx: usize) -> (e: u64)
    requires
        idx < 512,
    ensures
        e == entry(phys@.ram, table, idx as int),
{
    let n: usize = phys.ram.len();
    match table.checked_add(idx as u64 * 8) {
        Some(pa) => match u64le(phys.ram.as_slice(), pa) {
            Some(v) => v,
            None => 0,
        },
        None => 0,
    }
}

/// Replace entry `idx` of the table at `table`.
pub fn write_entry(phys: &mut PhysicalMemory, table: u64, idx: usize, v: u64)
    requires
        old(phys).wf(),
        idx < 512,
    ensures
        final(phys).wf(),
        final(phys)@ == set_entry(old(phys)@, table, idx as int, v),
{
    let ghost before = phys@;
    let n: usize = phys.ram.len();
    match table.checked_add(idx as u64 * 8) {
        Some(pa) => {
            if n >= 8 && pa <= (n - 8) as u64 {
                put64(&mut phys.ram, pa as usize, v);
            }
        },
        None => {},
    }
    assert(phys@ =~= set_entry(before, table, idx as int, v));
}

/// Read all 512 entries of a table.
pub fn read_table(phys: &PhysicalMemory, table: u64) -> (entries: Vec<u64>)
    ensures
        entries@ == table_entries(phys@.ram, table),
{
    let mut entries: Vec<u64> = Vec::new();
    let mut i: usize = 0;
    while i < 512
        invariant
            i <= 512,
            entries@.len() == i,
            forall|k: int| 0 <= k < i ==> entries@[k] == #[trigger] entry(phys@.ram, table, k),
        decreases 512 - i,
    {
        entries.push(read_entry(phys, table, i));
        i = i + 1;
    }
    assert(entries@ =~= table_entries(phys@.ram, table));
    entries
}

/// Replace a whole table.
pub fn write_table(phys: &mut PhysicalMemory, table: u64, entries: &Vec<u64>)
    requires
        old(phys).wf(),
        entries@.len() == 512,
        table + 4096 <= old(phys)@.ram.len(),
    ensures
        final(phys).wf(),
        final(phys)@ == (PhysState {
            ram: with_table(old(phys)@.ram, table as int, entries@),
            ..old(phys)@
        }),
{
    let ghost before = phys@;
    let ram_len: usize = phys.ram.len();
    let mut i: usize = 0;
    assert(phys@.ram =~= with_table(before.ram, table as int, entries@.take(0)));
    while i < 512
        invariant
            i <= 512,
            phys.wf(),
            entries@.len() == 512,
            before.ram.len() == ram_len,
            table + 4096 <= ram_len,
            phys@ == (PhysState {
                ram: with_table(before.ram, table as int, entries@.take(i as int)),
                ..before
            }),
        decreases 512 - i,
    {
        let ghost prev = phys@.ram;
        put64(&mut phys.ram, table as usize + i * 8, entries[i]);
        proof {
            let now = phys@.ram;
            let t = table as int;
            let ext = entries@.take(i + 1);
            lemma_bytes64(entries@[i as int]);
            assert forall|j: int| 0 <= j < now.len() implies now[j] == with_table(
                before.ram,
                t,
                ext,
            )[j] by {
                if t + 8 * i <= j < t + 8 * i + 8 {
                    assert((j - t) / 8 == i);
                    assert((j - t) % 8 == j - (t + 8 * i));
                } else if t <= j < t + 8 * i {
                    assert(0 <= (j - t) / 8 < i);
                    assert(ext[(j - t) / 8] == entries@.take(i as int)[(j - t) / 8]);
                }
            }
            assert(now =~= with_table(before.ram, t, ext));
        }
        i = i + 1;
    }
    assert(entries@.take(512) =~= entries@);
}

// ---------------------------------------------------------------------------
// The memory-management unit
// ---------------------------------------------------------------------------
/// Physical memory, the window onto it, and the processor's paging state.
pub struct Mmu {
    pub phys: PhysicalMemory,
    pub window: PhysWindow,
    /// CR3 as loaded.
    pub cr3: u64,
    /// The boot address space, 0 until it is recorded.
    pub kernel_pml4: u64,
    /// Whether supervisor accesses to user pages must be bracketed.
    pub smap_on: bool,
}

impl Mmu {
    /// Physical base of the current PML4.
    pub open spec fn root(&self) -> u64 {
        self.cr3 & ADDR_MASK
    }

    /// Contents of physical memory.
    pub open spec fn ram(&self) -> Seq<u8> {
        self.phys@.ram
    }

    /// The window is placed and holds all of physical memory below the top page
    /// of the address space.
    pub open spec fn windowed(&self) -> bool {
        &&& self.window.offset != 0
        &&& self.window.offset % 4096 == 0
        &&& self.window.offset + self.phys@.ram.len() <= u64::MAX - 0xFFFF_FFFF
    }

    /// Everything but physical memory is as in `other`.
    pub open spec fn same_registers(&self, other: &Mmu) -> bool {
        &&& self.window == other.window
        &&& self.cr3 == other.cr3
        &&& self.kernel_pml4 == other.kernel_pml4
        &&& self.smap_on == other.smap_on
    }
}

/// Record whether SMAP is active.
pub fn mm_set_smap(mmu: &mut Mmu, on: bool)
    ensures
        *final(mmu) == (Mmu { smap_on: on, ..*old(mmu) }),
{
    mmu.smap_on = on;
}

/// Whether an access to user pages must be bracketed (`stac` before it).
pub fn user_access_begin(mmu: &Mmu) -> (stac: bool)
    ensures
        stac == mmu.smap_on,
{
    mmu.smap_on
}

/// Whether a bracket must be closed (`clac`).
pub fn user_access_end(mmu: &Mmu) -> (clac: bool)
    ensures
        clac == mmu.smap_on,
{
    mmu.smap_on
}

/// The current address space.
pub fn mm_current_address_space(mmu: &Mmu) -> (r: PhysAddr)
    ensures
        r.0 == mmu.root(),
{
    PhysAddr(mmu.cr3 & ADDR_MASK)
}

/// Record the current address space as the kernel's.
pub fn mm_save_kernel_address_space(mmu: &mut Mmu)
    ensures
        *final(mmu) == (Mmu { kernel_pml4: old(mmu).root(), ..*old(mmu) }),
{
    mmu.kernel_pml4 = mmu.cr3 & ADDR_MASK;
}

/// The kernel address space.
pub fn mm_kernel_address_space(mmu: &Mmu) -> (r: PhysAddr)
    ensures
        r.0 == mmu.kernel_pml4,
{
    PhysAddr(mmu.kernel_pml4)
}

/// Make `pml4` the current address space; the caller loads it into CR3.
pub fn mm_switch_address_space(mmu: &mut Mmu, pml4: PhysAddr)
    ensures
        *final(mmu) == (Mmu { cr3: pml4.0, ..*old(mmu) }),
{
    mmu.cr3 = pml4.0;
}

/// `va`'s page is present and user-accessible in the current address space.
pub fn page_present_and_user(mmu: &Mmu, va: u64) -> (r: bool)
    ensures
        r == user_mapped(mmu.ram(), mmu.root(), va),
{
    let e4: u64 = read_entry(&mmu.phys, mmu.cr3 & ADDR_MASK, table_index(va, 4));
    if e4 & ENTRY_PRESENT == 0 || e4 & ENTRY_USER == 0 {
        return false;
    }
    let e3: u64 = read_entry(&mmu.phys, e4 & ADDR_MASK, table_index(va, 3));
    if e3 & ENTRY_PRESENT == 0 || e3 & ENTRY_USER == 0 {
        return false;
    }
    if e3 & ENTRY_LARGE != 0 {
        return true;
    }
    let e2: u64 = read_entry(&mmu.phys, e3 & ADDR_MASK, table_index(va, 2));
    if e2 & ENTRY_PRESENT == 0 || e2 & ENTRY_USER == 0 {
        return false;
    }
    if e2 & ENTRY_LARGE != 0 {
        return true;
    }
    let e1: u64 = read_entry(&mmu.phys, e2 & ADDR_MASK, table_index(va, 1));
    e1 & ENTRY_PRESENT != 0 && e1 & ENTRY_USER != 0
}

/// `MmGetPhysicalAddress`: translate a virtual address by walking the tables.
pub fn mm_get_physical_address(mmu: &Mmu, va: u64) -> (r: Option<PhysAddr>)
    ensures
        r == (match translate(mmu.ram(), mmu.root(), va) {
            Some(pa) => Some(PhysAddr(pa)),
            None => None::<PhysAddr>,
        }),
{
    let e4: u64 = read_entry(&mmu.phys, mmu.cr3 & ADDR_MASK, table_index(va, 4));
    if e4 & ENTRY_PRESENT == 0 {
        return None;
    }
    let e3: u64 = read_entry(&mmu.phys, e4 & ADDR_MASK, table_index(va, 3));
    if e3 & ENTRY_PRESENT == 0 {
        return None;
    }
    if e3 & ENTRY_LARGE != 0 {
        return Some(PhysAddr((e3 & ADDR_MASK & !0x3FFF_FFFFu64) | (va & 0x3FFF_FFFF)));
    }
    let e2: u64 = read_entry(&mmu.phys, e3 & ADDR_MASK, table_index(va, 2));
    if e2 & ENTRY_PRESENT == 0 {
        return None;
    }
    if e2 & ENTRY_LARGE != 0 {
        return Some(PhysAddr((e2 & ADDR_MASK & !0x1F_FFFFu64) | (va & 0x1F_FFFF)));
    }
    let e1: u64 = read_entry(&mmu.phys, e2 & ADDR_MASK, table_index(va, 1));
    if e1 & ENTRY_PRESENT == 0 {
        return None;
    }
    Some(PhysAddr((e1 & ADDR_MASK) | (va & 0xFFF)))
}

// ---------------------------------------------------------------------------
// Creating address spaces and mapping pages
// ---------------------------------------------------------------------------
/// The entries of a fresh address space: the low half empty, the high half the
/// kernel's.
pub open spec fn fresh_space_entries(ram: Seq<u8>, kernel: u64) -> Seq<u64> {
    Seq::new(512, |i: int| if i < 256 { 0u64 } else { entry(ram, kernel, i) })
}

/// Create a per-process address space that shares the kernel's high half and
/// has an empty low half. `None` exactly when no frame is free.
pub fn mm_create_address_space(mmu: &mut Mmu) -> (r: Option<PhysAddr>)
    requires
        old(mmu).phys.wf(),
    ensures
        final(mmu).phys.wf(),
        final(mmu).same_registers(old(mmu)),
        keeps_frames(old(mmu).phys@, final(mmu).phys@),
        ({
            let (st, pa) = alloc_page(old(mmu).phys@);
            match pa {
                Some(pa) => {
                    &&& r == Some(PhysAddr(pa))
                    &&& final(mmu).phys@ == PhysState {
                        ram: with_table(
                            st.ram,
                            pa as int,
                            fresh_space_entries(st.ram, old(mmu).kernel_pml4),
                        ),
                        ..st
                    }
                },
                None => r is None && final(mmu).phys@ == old(mmu).phys@,
            }
        }),
{
    let new: PhysAddr = match mm_allocate_page(&mut mmu.phys) {
        Some(pa) => pa,
        None => {
            return None;
        },
    };
    let ghost st = mmu.phys@;
    let mut entries: Vec<u64> = read_table(&mmu.phys, mmu.kernel_pml4);
    let mut i: usize = 0;
    while i < 256
        invariant
            i <= 256,
            entries@.len() == 512,
            forall|k: int| 0 <= k < i ==> #[trigger] entries@[k] == 0,
            forall|k: int|
                i <= k < 512 ==> #[trigger] entries@[k] == entry(st.ram, mmu.kernel_pml4, k),
        decreases 256 - i,
    {
        entries.set(i, 0);
        i = i + 1;
    }
    assert(entries@ =~= fresh_space_entries(st.ram, mmu.kernel_pml4));
    write_table(&mut mmu.phys, new.0, &entries);
    Some(new)
}

/// The child of `table[idx]`, created (zeroed, present, writable, user) when
/// the entry is empty; `None` when it had to be created and no frame was free.
pub open spec fn child_table(st: PhysState, table: u64, idx: int) -> (PhysState, Option<u64>) {
    let e = entry(st.ram, table, idx);
    if present(e) {
        (st, Some(e & ADDR_MASK))
    } else {
        let (s2, child) = alloc_page(st);
        match child {
            Some(c) => (
                set_entry(
                    s2,
                    table,
                    idx,
                    (c & ADDR_MASK) | ENTRY_PRESENT | ENTRY_RW | ENTRY_USER,
                ),
                Some(c),
            ),
            None => (st, None),
        }
    }
}

/// The leaf entry that maps frame `p` for user mode.
pub open spec fn user_leaf(p: u64, writable: bool, exec: bool) -> u64 {
    (p & ADDR_MASK) | ENTRY_PRESENT | ENTRY_USER | (if writable {
        ENTRY_RW
    } else {
        0
    }) | (if exec {
        0
    } else {
        ENTRY_NX
    })
}

/// Mapping one page; false when a table could not be allocated.
#[verifier::opaque]
pub open spec fn map_page(
    st: PhysState,
    root: u64,
    va: u64,
    p: u64,
    writable: bool,
    exec: bool,
) -> (PhysState, bool) {
    let (s1, t3) = child_table(st, root, level_index(va, 4));
    match t3 {
        None => (s1, false),
        Some(t3) => {
            let (s2, t2) = child_table(s1, t3, level_index(va, 3));
            match t2 {
                None => (s2, false),
                Some(t2) => {
                    let (s3, t1) = child_table(s2, t2, level_index(va, 2));
                    match t1 {
                        None => (s3, false),
                        Some(t1) => (
                            set_entry(s3, t1, level_index(va, 1), user_leaf(p, writable, exec)),
                            true,
                        ),
                    }
                },
            }
        },
    }
}

/// Mapping pages `i .. n` of a range, one after the other, up to the first
/// that fails.
pub open spec fn map_range(
    st: PhysState,
    root: u64,
    va: u64,
    p: u64,
    i: int,
    n: int,
    writable: bool,
    exec: bool,
) -> (PhysState, bool)
    decreases n - i,
{
    if i >= n {
        (st, true)
    } else {
        let (s1, ok) = map_page(
            st,
            root,
            (va + i * 0x1000) as u64,
            (p + i * 0x1000) as u64,
            writable,
            exec,
        );
        if ok {
            map_range(s1, root, va, p, i + 1, n, writable, exec)
        } else {
            (s1, false)
        }
    }
}

fn get_or_create_table(phys: &mut PhysicalMemory, table: u64, idx: usize) -> (r: Option<u64>)
    requires
        old(phys).wf(),
        idx < 512,
    ensures
        final(phys).wf(),
        keeps_frames(old(phys)@, final(phys)@),
        (final(phys)@, r) == child_table(old(phys)@, table, idx as int),
{
    let e: u64 = read_entry(phys, table, idx);
    if e & ENTRY_PRESENT != 0 {
        return Some(e & ADDR_MASK);
    }
    match mm_allocate_page(phys) {
        Some(child) => {
            write_entry(
                phys,
                table,
                idx,
                (child.0 & ADDR_MASK) | ENTRY_PRESENT | ENTRY_RW | ENTRY_USER,
            );
            Some(child.0)
        },
        None => None,
    }
}

/// Map one user page.
pub fn map_user_page(
    phys: &mut PhysicalMemory,
    root: u64,
    va: u64,
    p: u64,
    writable: bool,
    exec: bool,
) -> (ok: bool)
    requires
        old(phys).wf(),
    ensures
        final(phys).wf(),
        keeps_frames(old(phys)@, final(phys)@),
        (final(phys)@, ok) == map_page(old(phys)@, root, va, p, writable, exec),
{
    reveal(map_page);
    let t3: u64 = match get_or_create_table(phys, root, table_index(va, 4)) {
        Some(t) => t,
        None => {
            return false;
        },
    };
    let t2: u64 = match get_or_create_table(phys, t3, table_index(va, 3)) {
        Some(t) => t,
        None => {
            return false;
        },
    };
    let t1: u64 = match get_or_create_table(phys, t2, table_index(va, 2)) {
        Some(t) => t,
        None => {
            return false;
        },
    };
    let leaf: u64 = (p & ADDR_MASK) | ENTRY_PRESENT | ENTRY_USER | (if writable {
        ENTRY_RW
    } else {
        0
    }) | (if exec {
        0
    } else {
        ENTRY_NX
    });
    write_entry(phys, t1, table_index(va, 1), leaf);
    true
}

/// Map `pages` pages at user address `va` to physical `phys` in the address
/// space `pml4`, allocating intermediate tables as needed. False when a table
/// could not be allocated; the pages before that one stay mapped.
pub fn mm_map_user_range(
    memory: &mut PhysicalMemory,
    pml4: PhysAddr,
    va: u64,
    phys: PhysAddr,
    pages: usize,
    writable: bool,
    exec: bool,
) -> (ok: bool)
    requires
        old(memory).wf(),
        va + pages * 0x1000 <= u64::MAX,
        phys.0 + pages * 0x1000 <= u64::MAX,
    ensures
        final(memory).wf(),
        keeps_frames(old(memory)@, final(memory)@),
        (final(memory)@, ok) == map_range(
            old(memory)@,
            pml4.0,
            va,
            phys.0,
            0,
            pages as int,
            writable,
            exec,
        ),
{
    let ghost before = memory@;
    let mut i: usize = 0;
    while i < pages
        invariant
            i <= pages,
            memory.wf(),
            before == old(memory)@,
            keeps_frames(before, memory@),
            va + pages * 0x1000 <= u64::MAX,
            phys.0 + pages * 0x1000 <= u64::MAX,
            map_range(memory@, pml4.0, va, phys.0, i as int, pages as int, writable, exec)
                == map_range(before, pml4.0, va, phys.0, 0, pages as int, writable, exec),
        decreases pages - i,
    {
        if !map_user_page(
            memory,
            pml4.0,
            va + i as u64 * 0x1000,
            phys.0 + i as u64 * 0x1000,
            writable,
            exec,
        ) {
            return false;
        }
        i = i + 1;
    }
    true
}

// ---------------------------------------------------------------------------
// Protection of existing mappings
// ---------------------------------------------------------------------------
/// What [`touch_path`] does to one entry: drop NX, and set the bits to grant.
pub open spec fn touched(e: u64, grant: u64) -> u64 {
    (e | grant) & !ENTRY_NX
}

/// Memory after every present entry on the path to `va`, down to its leaf, has
/// been [`touched`].
#[verifier::opaque]
pub open spec fn touch_path_spec(ram: Seq<u8>, root: u64, va: u64, grant: u64) -> Seq<u8> {
    let e4 = entry(ram, root, level_index(va, 4));
    if !present(e4) {
        ram
    } else {
        let n4 = touched(e4, grant);
        let r4 = with_entry(ram, root, level_index(va, 4), n4);
        let e3 = entry(r4, n4 & ADDR_MASK, level_index(va, 3));
        if !present(e3) {
            r4
        } else {
            let n3 = touched(e3, grant);
            let r3 = with_entry(r4, n4 & ADDR_MASK, level_index(va, 3), n3);
            if large(n3) {
                r3
            } else {
                let e2 = entry(r3, n3 & ADDR_MASK, level_index(va, 2));
                if !present(e2) {
                    r3
                } else {
                    let n2 = touched(e2, grant);
                    let r2 = with_entry(r3, n3 & ADDR_MASK, level_index(va, 2), n2);
                    if large(n2) {
                        r2
                    } else {
                        let e1 = entry(r2, n2 & ADDR_MASK, level_index(va, 1));
                        if !present(e1) {
                            r2
                        } else {
                            with_entry(
                                r2,
                                n2 & ADDR_MASK,
                                level_index(va, 1),
                                touched(e1, grant),
                            )
                        }
                    }
                }
            }
        }
    }
}

fn touch(e: u64, grant: u64) -> (r: u64)
    ensures
        r == touched(e, grant),
{
    (e | grant) & !ENTRY_NX
}

fn touch_path(phys: &mut PhysicalMemory, root: u64, va: u64, grant: u64)
    requires
        old(phys).wf(),
    ensures
        final(phys).wf(),
        keeps_frames(old(phys)@, final(phys)@),
        final(phys)@ == (PhysState {
            ram: touch_path_spec(old(phys)@.ram, root, va, grant),
            ..old(phys)@
        }),
{
    reveal(touch_path_spec);
    let e4: u64 = read_entry(phys, root, table_index(va, 4));
    if e4 & ENTRY_PRESENT == 0 {
        return ;
    }
    let n4: u64 = touch(e4, grant);
    write_entry(phys, root, table_index(va, 4), n4);
    let e3: u64 = read_entry(phys, n4 & ADDR_MASK, table_index(va, 3));
    if e3 & ENTRY_PRESENT == 0 {
        return ;
    }
    let n3: u64 = touch(e3, grant);
    write_entry(phys, n4 & ADDR_MASK, table_index(va, 3), n3);
    if n3 & ENTRY_LARGE != 0 {
        return ;
    }
    let e2: u64 = read_entry(phys, n3 & ADDR_MASK, table_index(va, 2));
    if e2 & ENTRY_PRESENT == 0 {
        return ;
    }
    let n2: u64 = touch(e2, grant);
    write_entry(phys, n3 & ADDR_MASK, table_index(va, 2), n2);
    if n2 & ENTRY_LARGE != 0 {
        return ;
    }
    let e1: u64 = read_entry(phys, n2 & ADDR_MASK, table_index(va, 1));
    if e1 & ENTRY_PRESENT == 0 {
        return ;
    }
    write_entry(phys, n2 & ADDR_MASK, table_index(va, 1), touch(e1, grant));
}

/// Clear NX on every present entry on the path that maps `va`.
pub fn clear_nx_path(mmu: &mut Mmu, va: u64)
    requires
        old(mmu).phys.wf(),
    ensures
        final(mmu).phys.wf(),
        final(mmu).same_registers(old(mmu)),
        final(mmu).phys@ == (PhysState {
            ram: touch_path_spec(old(mmu).ram(), old(mmu).root(), va, 0),
            ..old(mmu).phys@
        }),
{
    let root: u64 = mmu.cr3 & ADDR_MASK;
    touch_path(&mut mmu.phys, root, va, 0);
}

/// Set U/S and clear NX on every present entry on the path that maps `va`.
pub fn set_user_exec_path(mmu: &mut Mmu, va: u64)
    requires
        old(mmu).phys.wf(),
    ensures
        final(mmu).phys.wf(),
        final(mmu).same_registers(old(mmu)),
        final(mmu).phys@ == (PhysState {
            ram: touch_path_spec(old(mmu).ram(), old(mmu).root(), va, ENTRY_USER),
            ..old(mmu).phys@
        }),
{
    let root: u64 = mmu.cr3 & ADDR_MASK;
    touch_path(&mut mmu.phys, root, va, ENTRY_USER);
}

/// The 512 entries that replicate a large mapping at `base` in steps of `span`.
pub open spec fn replicated(base: u64, span: u64, flags: u64) -> Seq<u64> {
    Seq::new(512, |i: int| ((base + i * span) as u64) | flags)
}

pub fn replicate(base: u64, span: u64, flags: u64) -> (entries: Vec<u64>)
    requires
        base <= 0x000F_FFFF_FFFF_F000,
        span <= 0x20_0000,
    ensures
        entries@ == replicated(base, span, flags),
{
    let mut entries: Vec<u64> = Vec::new();
    let mut i: u64 = 0;
    let mut offset: u64 = 0;
    while i < 512
        invariant
            i <= 512,
            base <= 0x000F_FFFF_FFFF_F000,
            span <= 0x20_0000,
            offset == i * span,
            offset <= i * 0x20_0000,
            entries@.len() == i,
            forall|k: int|
                0 <= k < i ==> #[trigger] entries@[k] == ((base + k * span) as u64) | flags,
        decreases 512 - i,
    {
        entries.push((base + offset) | flags);
        proof {
            assert((i + 1) * span == i * span + span) by (nonlinear_arith);
        }
        offset = offset + span;
        i = i + 1;
    }
    assert(entries@ =~= replicated(base, span, flags));
    entries
}

/// Replace a large entry by a fresh table of finer entries: the new state, or
/// `None` when no frame is free. A 1 GiB page becomes 512 2 MiB pages (still
/// large), a 2 MiB page 512 4 KiB leaves.
pub open spec fn split_entry(
    st: PhysState,
    table: u64,
    idx: int,
    e: u64,
    giant: bool,
) -> (PhysState, bool) {
    let (s1, t) = alloc_page(st);
    match t {
        None => (st, false),
        Some(t) => {
            let entries = if giant {
                replicated(e & ADDR_MASK & !0x3FFF_FFFFu64, 0x20_0000, e & FLAG_MASK)
            } else {
                replicated(e & ADDR_MASK & !0x1F_FFFFu64, 0x1000, e & FLAG_MASK & !ENTRY_LARGE)
            };
            let s2 = PhysState { ram: with_table(s1.ram, t as int, entries), ..s1 };
            let link = (t & ADDR_MASK) | ENTRY_PRESENT | (e & (ENTRY_RW | ENTRY_USER | ENTRY_NX));
            (set_entry(s2, table, idx, link), true)
        },
    }
}

fn split_large(phys: &mut PhysicalMemory, table: u64, idx: usize, e: u64, giant: bool) -> (ok: bool)
    requires
        old(phys).wf(),
        idx < 512,
    ensures
        final(phys).wf(),
        keeps_frames(old(phys)@, final(phys)@),
        (final(phys)@, ok) == split_entry(old(phys)@, table, idx as int, e, giant),
{
    let t: PhysAddr = match mm_allocate_page(phys) {
        Some(t) => t,
        None => {
            return false;
        },
    };
    proof {
        lemma_addr_mask(e);
    }
    let entries = if giant {
        replicate(e & ADDR_MASK & !0x3FFF_FFFFu64, 0x20_0000, e & FLAG_MASK)
    } else {
        replicate(e & ADDR_MASK & !0x1F_FFFFu64, 0x1000, e & FLAG_MASK & !ENTRY_LARGE)
    };
    write_table(phys, t.0, &entries);
    write_entry(
        phys,
        table,
        idx,
        (t.0 & ADDR_MASK) | ENTRY_PRESENT | (e & (ENTRY_RW | ENTRY_USER | ENTRY_NX)),
    );
    true
}

/// State after any large page on the path to `va` has been split down to 4 KiB
/// entries; false when a table could not be allocated.
#[verifier::opaque]
pub open spec fn split_path(st: PhysState, root: u64, va: u64) -> (PhysState, bool) {
    let e4 = pml4e(st.ram, root, va);
    let t3 = e4 & ADDR_MASK;
    let e3 = entry(st.ram, t3, level_index(va, 3));
    if !present(e4) || !present(e3) {
        (st, true)
    } else {
        let (s1, ok1) = if large(e3) {
            split_entry(st, t3, level_index(va, 3), e3, true)
        } else {
            (st, true)
        };
        if !ok1 {
            (s1, false)
        } else {
            let t2 = entry(s1.ram, t3, level_index(va, 3)) & ADDR_MASK;
            let e2 = entry(s1.ram, t2, level_index(va, 2));
            if present(e2) && large(e2) {
                split_entry(s1, t2, level_index(va, 2), e2, false)
            } else {
                (s1, true)
            }
        }
    }
}

/// Ensure the 4 KiB page containing `va` has its own leaf entry by splitting
/// any large page on the path. False when a table could not be allocated.
fn split_to_4k(phys: &mut PhysicalMemory, root: u64, va: u64) -> (ok: bool)
    requires
        old(phys).wf(),
    ensures
        final(phys).wf(),
        keeps_frames(old(phys)@, final(phys)@),
        (final(phys)@, ok) == split_path(old(phys)@, root, va),
{
    reveal(split_path);
    let e4: u64 = read_entry(phys, root, table_index(va, 4));
    if e4 & ENTRY_PRESENT == 0 {
        return true;
    }
    let t3: u64 = e4 & ADDR_MASK;
    let e3: u64 = read_entry(phys, t3, table_index(va, 3));
    if e3 & ENTRY_PRESENT == 0 {
        return true;
    }
    if e3 & ENTRY_LARGE != 0 {
        if !split_large(phys, t3, table_index(va, 3), e3, true) {
            return false;
        }
    }
    let t2: u64 = read_entry(phys, t3, table_index(va, 3)) & ADDR_MASK;
    let e2: u64 = read_entry(phys, t2, table_index(va, 2));
    if e2 & ENTRY_PRESENT == 0 {
        return true;
    }
    if e2 & ENTRY_LARGE != 0 {
        return split_large(phys, t2, table_index(va, 2), e2, false);
    }
    true
}

/// Splitting and touching one page after the other over `[addr, end)`.
pub open spec fn protect_range(
    st: PhysState,
    root: u64,
    addr: int,
    end: int,
    grant: u64,
) -> (PhysState, bool)
    decreases end + 0x1000 - addr,
{
    if addr >= end {
        (st, true)
    } else {
        let (s1, ok) = split_path(st, root, addr as u64);
        if !ok {
            (s1, false)
        } else {
            let s2 = PhysState {
                ram: touch_path_spec(s1.ram, root, addr as u64, grant),
                ..s1
            };
            protect_range(s2, root, addr + 0x1000, end, grant)
        }
    }
}

fn protect_pages(phys: &mut PhysicalMemory, root: u64, va: u64, len: u64, grant: u64) -> (ok:
    bool)
    requires
        old(phys).wf(),
        va + len <= u64::MAX - 0xFFF,
    ensures
        final(phys).wf(),
        keeps_frames(old(phys)@, final(phys)@),
        (final(phys)@, ok) == protect_range(
            old(phys)@,
            root,
            (va / 0x1000) * 0x1000,
            va + len,
            grant,
        ),
{
    let ghost before = phys@;
    let mut addr: u64 = va / 0x1000 * 0x1000;
    let end: u64 = va + len;
    let ghost start = addr;
    while addr < end
        invariant
            phys.wf(),
            before == old(phys)@,
            keeps_frames(before, phys@),
            start == (va / 0x1000) * 0x1000,
            end == va + len,
            end <= u64::MAX - 0xFFF,
            protect_range(phys@, root, addr as int, end as int, grant) == protect_range(
                before,
                root,
                start as int,
                end as int,
                grant,
            ),
        decreases end + 0x1000 - addr,
    {
        if !split_to_4k(phys, root, addr) {
            return false;
        }
        touch_path(phys, root, addr, grant);
        addr = addr + 0x1000;
    }
    true
}

/// Make `[va, va + len)` executable in the current address space: split large
/// pages, then clear NX at every level of each page's walk. The caller flushes
/// the TLB. False when a table could not be allocated.
pub fn mm_set_executable(mmu: &mut Mmu, va: u64, len: u64) -> (ok: bool)
    requires
        old(mmu).phys.wf(),
        va + len <= u64::MAX - 0xFFF,
    ensures
        final(mmu).phys.wf(),
        final(mmu).same_registers(old(mmu)),
        keeps_frames(old(mmu).phys@, final(mmu).phys@),
        (final(mmu).phys@, ok) == protect_range(
            old(mmu).phys@,
            old(mmu).root(),
            (va / 0x1000) * 0x1000,
            va + len,
            0,
        ),
{
    let root: u64 = mmu.cr3 & ADDR_MASK;
    protect_pages(&mut mmu.phys, root, va, len, 0)
}

/// Make `[va, va + len)` user-accessible and executable in the current address
/// space. The caller flushes the TLB. False when a table could not be
/// allocated.
pub fn mm_set_user_executable(mmu: &mut Mmu, va: u64, len: u64) -> (ok: bool)
    requires
        old(mmu).phys.wf(),
        va + len <= u64::MAX - 0xFFF,
    ensures
        final(mmu).phys.wf(),
        final(mmu).same_registers(old(mmu)),
        keeps_frames(old(mmu).phys@, final(mmu).phys@),
        (final(mmu).phys@, ok) == protect_range(
            old(mmu).phys@,
            old(mmu).root(),
            (va / 0x1000) * 0x1000,
            va + len,
            ENTRY_USER,
        ),
{
    let root: u64 = mmu.cr3 & ADDR_MASK;
    protect_pages(&mut mmu.phys, root, va, len, ENTRY_USER)
}

/// Make `[va, va + len)` user-accessible, writable and executable in the current
/// address space. The caller flushes the TLB. False when a table could not be
/// allocated.
pub fn mm_set_user_writable_executable(mmu: &mut Mmu, va: u64, len: u64) -> (ok: bool)
    requires
        old(mmu).phys.wf(),
        va + len <= u64::MAX - 0xFFF,
    ensures
        final(mmu).phys.wf(),
        final(mmu).same_registers(old(mmu)),
        keeps_frames(old(mmu).phys@, final(mmu).phys@),
        (final(mmu).phys@, ok) == protect_range(
            old(mmu).phys@,
            old(mmu).root(),
            (va / 0x1000) * 0x1000,
            va + len,
            ENTRY_USER | ENTRY_RW,
        ),
{
    let root: u64 = mmu.cr3 & ADDR_MASK;
    protect_pages(&mut mmu.phys, root, va, len, ENTRY_USER | ENTRY_RW)
}

// ---------------------------------------------------------------------------
// Single-page operations
// ---------------------------------------------------------------------------
fn find_leaf_table(phys: &PhysicalMemory, root: u64, va: u64) -> (r: Option<u64>)
    ensures
        r == leaf_table(phys@.ram, root, va),
{
    let e4: u64 = read_entry(phys, root, table_index(va, 4));
    if e4 & ENTRY_PRESENT == 0 {
        return None;
    }
    let e3: u64 = read_entry(phys, e4 & ADDR_MASK, table_index(va, 3));
    if e3 & ENTRY_PRESENT == 0 || e3 & ENTRY_LARGE != 0 {
        return None;
    }
    let e2: u64 = read_entry(phys, e3 & ADDR_MASK, table_index(va, 2));
    if e2 & ENTRY_PRESENT == 0 || e2 & ENTRY_LARGE != 0 {
        return None;
    }
    Some(e2 & ADDR_MASK)
}

/// The leaf of `va`, if it is backed.
pub open spec fn backed_leaf(ram: Seq<u8>, root: u64, va: u64) -> Option<u64> {
    match leaf_entry(ram, root, va) {
        Some(e) => if present(e) {
            Some(e)
        } else {
            None
        },
        None => None,
    }
}

/// Memory after the leaf of `va` has been replaced.
pub open spec fn with_leaf(ram: Seq<u8>, root: u64, va: u64, v: u64) -> Seq<u8> {
    match leaf_table(ram, root, va) {
        Some(t) => with_entry(ram, t, level_index(va, 1), v),
        None => ram,
    }
}

/// Memory after unmapping `va`: its leaf is cleared if it was backed.
pub open spec fn unmapped(ram: Seq<u8>, root: u64, va: u64) -> Seq<u8> {
    match backed_leaf(ram, root, va) {
        Some(_) => with_leaf(ram, root, va, 0),
        None => ram,
    }
}

/// Clear the 4 KiB leaf of `va` in the address space `pml4`, returning the frame
/// it mapped (`None` when it was never backed). A result means the TLB entry
/// must be invalidated wherever `pml4` is loaded.
pub fn mm_unmap_user_page_in(phys: &mut PhysicalMemory, pml4: PhysAddr, va: u64) -> (r: Option<
    PhysAddr,
>)
    requires
        old(phys).wf(),
    ensures
        final(phys).wf(),
        final(phys)@ == (PhysState { ram: unmapped(old(phys)@.ram, pml4.0, va), ..old(phys)@ }),
        r == (match backed_leaf(old(phys)@.ram, pml4.0, va) {
            Some(e) => Some(PhysAddr(e & ADDR_MASK)),
            None => None::<PhysAddr>,
        }),
{
    let t: u64 = match find_leaf_table(phys, pml4.0, va) {
        Some(t) => t,
        None => {
            return None;
        },
    };
    let e: u64 = read_entry(phys, t, table_index(va, 1));
    if e & ENTRY_PRESENT == 0 {
        return None;
    }
    write_entry(phys, t, table_index(va, 1), 0);
    Some(PhysAddr(e & ADDR_MASK))
}

/// Unmap the page at `va` from the current address space.
pub fn mm_unmap_user_page(mmu: &mut Mmu, va: u64) -> (r: Option<PhysAddr>)
    requires
        old(mmu).phys.wf(),
    ensures
        final(mmu).phys.wf(),
        final(mmu).same_registers(old(mmu)),
        final(mmu).phys@ == (PhysState {
            ram: unmapped(old(mmu).ram(), old(mmu).root(), va),
            ..old(mmu).phys@
        }),
        r == (match backed_leaf(old(mmu).ram(), old(mmu).root(), va) {
            Some(e) => Some(PhysAddr(e & ADDR_MASK)),
            None => None::<PhysAddr>,
        }),
{
    let root = PhysAddr(mmu.cr3 & ADDR_MASK);
    mm_unmap_user_page_in(&mut mmu.phys, root, va)
}

/// A leaf with new write and execute bits.
pub open spec fn reprotected(e: u64, writable: bool, executable: bool) -> u64 {
    (e & !ENTRY_RW & !ENTRY_NX) | (if writable {
        ENTRY_RW
    } else {
        0
    }) | (if executable {
        0
    } else {
        ENTRY_NX
    })
}

/// Memory after the protection of `va` has been changed, if it is backed.
pub open spec fn protected(
    ram: Seq<u8>,
    root: u64,
    va: u64,
    writable: bool,
    executable: bool,
) -> Seq<u8> {
    match backed_leaf(ram, root, va) {
        Some(e) => with_leaf(ram, root, va, reprotected(e, writable, executable)),
        None => ram,
    }
}

/// Change the write/execute bits of the page at `va` in the current address
/// space; nothing happens when it is not backed. Returns whether an entry
/// changed (its TLB entry must be invalidated).
pub fn mm_protect_user_page(mmu: &mut Mmu, va: u64, writable: bool, executable: bool) -> (changed:
    bool)
    requires
        old(mmu).phys.wf(),
    ensures
        final(mmu).phys.wf(),
        final(mmu).same_registers(old(mmu)),
        final(mmu).phys@ == (PhysState {
            ram: protected(old(mmu).ram(), old(mmu).root(), va, writable, executable),
            ..old(mmu).phys@
        }),
        changed == backed_leaf(old(mmu).ram(), old(mmu).root(), va) is Some,
{
    let root: u64 = mmu.cr3 & ADDR_MASK;
    let t: u64 = match find_leaf_table(&mmu.phys, root, va) {
        Some(t) => t,
        None => {
            return false;
        },
    };
    let e: u64 = read_entry(&mmu.phys, t, table_index(va, 1));
    if e & ENTRY_PRESENT == 0 {
        return false;
    }
    let v: u64 = (e & !ENTRY_RW & !ENTRY_NX) | (if writable {
        ENTRY_RW
    } else {
        0
    }) | (if executable {
        0
    } else {
        ENTRY_NX
    });
    write_entry(&mut mmu.phys, t, table_index(va, 1), v);
    true
}

/// Raw leaf of `va` in the current address space, if it is backed.
pub fn mm_debug_pte(mmu: &Mmu, va: u64) -> (r: Option<u64>)
    ensures
        r == backed_leaf(mmu.ram(), mmu.root(), va),
{
    match mm_debug_pte_in(&mmu.phys, PhysAddr(mmu.cr3 & ADDR_MASK), va) {
        Some(e) => if e & ENTRY_PRESENT == 0 {
            None
        } else {
            Some(e)
        },
        None => None,
    }
}

/// Raw leaf of `va` in the address space `pml4`, present or not.
pub fn mm_debug_pte_in(phys: &PhysicalMemory, pml4: PhysAddr, va: u64) -> (r: Option<u64>)
    ensures
        r == leaf_entry(phys@.ram, pml4.0, va),
{
    match find_leaf_table(phys, pml4.0, va) {
        Some(t) => Some(read_entry(phys, t, table_index(va, 1))),
        None => None,
    }
}

/// An address is the four indices of its tables and its offset in the page, nine bits each
/// and twelve for the offset.
pub proof fn an_address_is_its_indices(va: u64)
    requires
        va < 0x1_0000_0000_0000,
    ensures
        va == level_index(va, 4) * 0x80_0000_0000 + level_index(va, 3) * 0x4000_0000 + level_index(
            va,
            2,
        ) * 0x20_0000 + level_index(va, 1) * 0x1000 + va % 0x1000,
        0 <= level_index(va, 4) < 512,
        0 <= level_index(va, 3) < 512,
        0 <= level_index(va, 2) < 512,
        0 <= level_index(va, 1) < 512,
{
    let v = va as int;
    let a = v / 0x1000;
    let b = a / 512;
    let c = b / 512;
    assert(v / 0x20_0000 == b) by (nonlinear_arith)
        requires
            a == v / 0x1000,
            b == a / 512,
    ;
    assert(v / 0x4000_0000 == c) by (nonlinear_arith)
        requires
            a == v / 0x1000,
            b == a / 512,
            c == b / 512,
    ;
    assert(v / 0x80_0000_0000 == c / 512) by (nonlinear_arith)
        requires
            a == v / 0x1000,
            b == a / 512,
            c == b / 512,
    ;
    assert(0 <= c / 512 < 512);
    lemma_digits(v, a, b, c);
}

proof fn lemma_digits(v: int, a: int, b: int, c: int)
    requires
        a == v / 0x1000,
        b == a / 512,
        c == b / 512,
        0 <= v < 0x1_0000_0000_0000,
    ensures
        v == (c / 512) * 0x80_0000_0000 + (c % 512) * 0x4000_0000 + (b % 512) * 0x20_0000 + (a % 512)
            * 0x1000 + v % 0x1000,
        (c / 512) % 512 == c / 512,
{
    assert(v == a * 0x1000 + v % 0x1000);
    assert(a == b * 512 + a % 512);
    assert(b == c * 512 + b % 512);
    assert(c == (c / 512) * 512 + c % 512);
}

/// An entry is eight bytes of its table.
pub proof fn an_entry_is_a_word_of_its_table(ram: Seq<u8>, table: u64, idx: int)
    requires
        0 <= idx < 512,
        table + 4096 <= ram.len(),
    ensures
        entry(ram, table, idx) == get64(ram, table + 8 * idx),
{
}

/// Translation keeps the offset in the page, whatever the size of the page.
pub proof fn translation_keeps_the_offset(ram: Seq<u8>, root: u64, va: u64)
    ensures
        translate(ram, root, va) matches Some(pa) ==> pa & 0xFFF == va & 0xFFF,
{
    let e3 = pdpte(ram, root, va);
    let e2 = pde(ram, root, va);
    let e1 = pte(ram, root, va);
    lemma_offsets(e3, e2, e1, va);
}

proof fn lemma_offsets(e3: u64, e2: u64, e1: u64, va: u64)
    by (bit_vector)
    ensures
        ((e3 & 0x000F_FFFF_FFFF_F000 & !0x3FFF_FFFFu64) | (va & 0x3FFF_FFFF)) & 0xFFF == va & 0xFFF,
        ((e2 & 0x000F_FFFF_FFFF_F000 & !0x1F_FFFFu64) | (va & 0x1F_FFFF)) & 0xFFF == va & 0xFFF,
        ((e1 & 0x000F_FFFF_FFFF_F000) | (va & 0xFFF)) & 0xFFF == va & 0xFFF,
{
}

/// A page that a program may use is there: it translates.
pub proof fn what_a_program_may_use_is_there(ram: Seq<u8>, root: u64, va: u64)
    requires
        user_mapped(ram, root, va),
    ensures
        translate(ram, root, va) is Some,
{
}

/// The entry of a program's page names its frame and grants what was asked for: the program
/// may use it, write to it if it is writable, and run it if it is executable.
pub proof fn a_page_grants_what_was_asked_for(p: u64, writable: bool, exec: bool)
    ensures
        user_leaf(p, writable, exec) & 0x1 != 0,
        user_leaf(p, writable, exec) & 0x4 != 0,
        (user_leaf(p, writable, exec) & 0x2 != 0) == writable,
        (user_leaf(p, writable, exec) & 0x8000_0000_0000_0000 == 0) == exec,
        user_leaf(p, writable, exec) & 0x000F_FFFF_FFFF_F000 == p & 0x000F_FFFF_FFFF_F000,
{
    lemma_leaf_bits(
        p,
        if writable {
            ENTRY_RW
        } else {
            0
        },
        if exec {
            0
        } else {
            ENTRY_NX
        },
    );
}

proof fn lemma_leaf_bits(p: u64, r: u64, n: u64)
    by (bit_vector)
    requires
        r == 0 || r == 0x2,
        n == 0 || n == 0x8000_0000_0000_0000,
    ensures
        ((p & 0x000F_FFFF_FFFF_F000) | 0x1 | 0x4 | r | n) & 0x1 != 0,
        ((p & 0x000F_FFFF_FFFF_F000) | 0x1 | 0x4 | r | n) & 0x4 != 0,
        ((p & 0x000F_FFFF_FFFF_F000) | 0x1 | 0x4 | r | n) & 0x2 == r,
        ((p & 0x000F_FFFF_FFFF_F000) | 0x1 | 0x4 | r | n) & 0x8000_0000_0000_0000 == n,
        ((p & 0x000F_FFFF_FFFF_F000) | 0x1 | 0x4 | r | n) & 0x000F_FFFF_FFFF_F000 == p
            & 0x000F_FFFF_FFFF_F000,
        0x2u64 != 0 && 0x8000_0000_0000_0000u64 != 0,
{
}

/// A new protection changes whether a page can be written and run, and nothing else of its
/// entry.
pub proof fn a_protection_changes_two_rights(e: u64, writable: bool, executable: bool)
    ensures
        (reprotected(e, writable, executable) & 0x2 != 0) == writable,
        (reprotected(e, writable, executable) & 0x8000_0000_0000_0000 == 0) == executable,
        reprotected(e, writable, executable) & 0x7FFF_FFFF_FFFF_FFFD == e & 0x7FFF_FFFF_FFFF_FFFD,
{
    lemma_reprotected_bits(
        e,
        if writable {
            ENTRY_RW
        } else {
            0
        },
        if executable {
            0
        } else {
            ENTRY_NX
        },
    );
}

proof fn lemma_reprotected_bits(e: u64, r: u64, n: u64)
    by (bit_vector)
    requires
        r == 0 || r == 0x2,
        n == 0 || n == 0x8000_0000_0000_0000,
    ensures
        ((e & !0x2u64 & !0x8000_0000_0000_0000u64) | r | n) & 0x2 == r,
        ((e & !0x2u64 & !0x8000_0000_0000_0000u64) | r | n) & 0x8000_0000_0000_0000 == n,
        ((e & !0x2u64 & !0x8000_0000_0000_0000u64) | r | n) & 0x7FFF_FFFF_FFFF_FFFD == e
            & 0x7FFF_FFFF_FFFF_FFFD,
        0x2u64 != 0 && 0x8000_0000_0000_0000u64 != 0,
{
}

/// Opening an entry makes what it leads to executable and grants what is asked for; what it
/// leads to stays.
pub proof fn opening_an_entry_keeps_its_frame(e: u64, grant: u64)
    requires
        grant & 0x000F_FFFF_FFFF_F000 == 0,
    ensures
        touched(e, grant) & 0x8000_0000_0000_0000 == 0,
        touched(e, grant) & 0x000F_FFFF_FFFF_F000 == e & 0x000F_FFFF_FFFF_F000,
        touched(e, 0) & 0x7FFF_FFFF_FFFF_FFFF == e & 0x7FFF_FFFF_FFFF_FFFF,
        touched(e, 0x4) & 0x4 != 0,
        touched(e, 0x6) & 0x2 != 0,
{
    lemma_touched_bits(e, grant);
}

proof fn lemma_touched_bits(e: u64, grant: u64)
    by (bit_vector)
    requires
        grant & 0x000F_FFFF_FFFF_F000 == 0,
    ensures
        ((e | grant) & !0x8000_0000_0000_0000u64) & 0x8000_0000_0000_0000 == 0,
        ((e | grant) & !0x8000_0000_0000_0000u64) & 0x000F_FFFF_FFFF_F000 == e
            & 0x000F_FFFF_FFFF_F000,
        ((e | 0u64) & !0x8000_0000_0000_0000u64) & 0x7FFF_FFFF_FFFF_FFFF == e
            & 0x7FFF_FFFF_FFFF_FFFF,
        ((e | 0x4u64) & !0x8000_0000_0000_0000u64) & 0x4 != 0,
        ((e | 0x6u64) & !0x8000_0000_0000_0000u64) & 0x2 != 0,
{
}

/// A new space shares the upper half with the kernel and has nothing in the lower half.
pub proof fn a_new_space_shares_the_kernel_half(ram: Seq<u8>, kernel: u64, i: int)
    requires
        0 <= i < 512,
    ensures
        fresh_space_entries(ram, kernel).len() == 512,
        i < 256 ==> fresh_space_entries(ram, kernel)[i] == 0,
        i >= 256 ==> fresh_space_entries(ram, kernel)[i] == entry(ram, kernel, i),
{
}

/// Protection goes page by page: opening a range that reaches into a page opens that page,
/// and the next page is 4096 bytes on.
pub proof fn a_range_is_opened_page_by_page(
    st: PhysState,
    root: u64,
    addr: int,
    end: int,
    grant: u64,
)
    ensures
        addr >= end ==> protect_range(st, root, addr, end, grant) == (st, true),
        addr < end && split_path(st, root, addr as u64).1 ==> protect_range(
            st,
            root,
            addr,
            end,
            grant,
        ) == protect_range(
            PhysState {
                ram: touch_path_spec(
                    split_path(st, root, addr as u64).0.ram,
                    root,
                    addr as u64,
                    grant,
                ),
                ..split_path(st, root, addr as u64).0
            },
            root,
            addr + 4096,
            end,
            grant,
        ),
        addr < end && !split_path(st, root, addr as u64).1 ==> !protect_range(
            st,
            root,
            addr,
            end,
            grant,
        ).1,
{
}

} // verus!
