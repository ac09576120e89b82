//! Starting the other processors.
//!
//! The boot processor wakes each of the others through a trampoline page below
//! 1 MiB. It runs there on transition page tables that map the trampoline at its
//! physical address and the kernel's half as usual, and finds its own slot by its
//! APIC id. Sending the interrupts and waiting is the caller's part.
use crate::bytes::{
    bytes64, get64, lemma_bytes64, lemma_get64_in, overlay, put64, put_bytes,
};
use crate::fields::set64;
use crate::mm::laws::{lemma_word_frame, word_reads_back};
use crate::mm::phys::{
    alloc_pages, mm_allocate_contiguous_pages, pages_allocated_together_follow_each_other, PhysState,
};
use crate::mm::virt::{
    entry, level_index, pde, pdpte, pml4e, read_entry, set_entry, translate, word, write_entry, Mmu,
};
use crate::mm::PhysAddr;
use vstd::prelude::*;

verus! {

/// Physical address of the trampoline page.
pub const TRAMPOLINE_PHYS: u64 = 0x8000;

/// Offsets of the patched fields in the trampoline page.
pub const PATCH_CR3: usize = 0xF00;

pub const PATCH_STACK: usize = 0xF08;

pub const PATCH_ENTRY: usize = 0xF10;

/// Pages of a started processor's kernel stack.
pub const AP_STACK_PAGES: usize = 16;

/// Bytes of it.
pub const AP_STACK_SIZE: u64 = 0x1_0000;

/// Processors that can be told apart.
pub const MAX_CPUS: usize = 8;

/// Stop code of a processor without a slot.
pub const UNKNOWN_PROCESSOR: u32 = 0x5C;

/// The startup record of a processor.
#[derive(Debug, Clone, Copy, PartialEq, Eq, Structural)]
pub struct CpuSlot {
    /// Its local APIC id, 0 for an empty slot.
    pub apic_id: u64,
    /// Its tables are up.
    pub online: bool,
    /// One more than the number it read back through its own control region; 0
    /// for none.
    pub pcr_seen: u64,
    /// Physical base of its kernel stack.
    pub stack_base: u64,
}

impl CpuSlot {
    pub open spec fn blank() -> CpuSlot {
        CpuSlot { apic_id: 0, online: false, pcr_seen: 0, stack_base: 0 }
    }
}

impl Default for CpuSlot {
    fn default() -> (s: Self)
        ensures
            s == CpuSlot::blank(),
    {
        CpuSlot { apic_id: 0, online: false, pcr_seen: 0, stack_base: 0 }
    }
}

/// The processors of the machine.
pub struct Processors {
    pub slots: Vec<CpuSlot>,
    /// Processors the firmware lists.
    pub count: usize,
    /// Processors that have started, the boot processor among them.
    pub online: usize,
    /// The next free slot.
    pub next: usize,
}

impl Processors {
    pub open spec fn wf(&self) -> bool {
        &&& self.slots@.len() == MAX_CPUS
        &&& 1 <= self.next <= MAX_CPUS
    }

    /// One processor, the boot processor.
    pub fn new() -> (p: Self)
        ensures
            p.wf(),
            p.count == 1,
            p.online == 1,
            p.next == 1,
            forall|i: int| 0 <= i < MAX_CPUS ==> #[trigger] p.slots@[i] == CpuSlot::blank(),
    {
        let mut slots: Vec<CpuSlot> = Vec::new();
        let mut i: usize = 0;
        while i < MAX_CPUS
            invariant
                i <= MAX_CPUS,
                slots@.len() == i,
                forall|k: int| 0 <= k < i ==> #[trigger] slots@[k] == CpuSlot::blank(),
            decreases MAX_CPUS - i,
        {
            slots.push(CpuSlot { apic_id: 0, online: false, pcr_seen: 0, stack_base: 0 });
            i = i + 1;
        }
        Processors { slots, count: 1, online: 1, next: 1 }
    }
}

/// Processors the firmware lists.
pub fn processor_count(p: &Processors) -> (n: usize)
    ensures
        n == p.count,
{
    p.count
}

/// Processors that have started.
pub fn online_count(p: &Processors) -> (n: usize)
    ensures
        n == p.online,
{
    p.online
}

/// The startup record of processor `n`: APIC id, whether it is online, and what
/// it read back. None beyond the capacity, and for an empty slot other than the
/// boot processor's.
pub fn slot(p: &Processors, n: usize) -> (r: Option<(u64, bool, u64)>)
    requires
        p.wf(),
    ensures
        r == if n >= MAX_CPUS || (p.slots@[n as int].apic_id == 0 && n != 0) {
            None
        } else {
            let s = p.slots@[n as int];
            Some((s.apic_id, s.online, s.pcr_seen))
        },
{
    if n >= p.slots.len() {
        return None;
    }
    let s: CpuSlot = p.slots[n];
    if s.apic_id == 0 && n != 0 {
        return None;
    }
    Some((s.apic_id, s.online, s.pcr_seen))
}

// ---------------------------------------------------------------------------
// Transition page tables
// ---------------------------------------------------------------------------
/// The entries of the kernel's half below `i` copied from one table to another.
pub open spec fn high_half_copied(st: PhysState, from: u64, to: u64, i: int) -> PhysState
    decreases i,
{
    if i <= 256 {
        st
    } else {
        let s = high_half_copied(st, from, to, i - 1);
        set_entry(s, to, i - 1, entry(s.ram, from, i - 1))
    }
}

/// The transition tables: the first 2 MiB at their physical addresses and the
/// kernel's half.
pub open spec fn transition(st: PhysState, kernel: u64) -> (PhysState, Option<u64>) {
    let (s1, a) = alloc_pages(st, 1);
    match a {
        None => (s1, None),
        Some(pml4) => {
            let (s2, b) = alloc_pages(s1, 1);
            match b {
                None => (s2, None),
                Some(pdpt) => {
                    let (s3, c) = alloc_pages(s2, 1);
                    match c {
                        None => (s3, None),
                        Some(pd) => {
                            let s4 = set_entry(s3, pml4, 0, pdpt | 3);
                            let s5 = high_half_copied(s4, kernel, pml4, 512);
                            let s6 = set_entry(s5, pdpt, 0, pd | 3);
                            (set_entry(s6, pd, 0, 0x83), Some(pml4))
                        },
                    }
                },
            }
        },
    }
}

/// Build the transition tables; the physical address of their root, none when
/// memory runs out.
pub fn build_transition_tables(mmu: &mut Mmu) -> (r: Option<PhysAddr>)
    requires
        old(mmu).phys.wf(),
    ensures
        final(mmu).phys.wf(),
        final(mmu).same_registers(old(mmu)),
        ({
            let (st, root) = transition(old(mmu).phys@, old(mmu).kernel_pml4);
            &&& final(mmu).phys@ == st
            &&& r == match root {
                Some(pa) => Some(PhysAddr(pa)),
                None => None,
            }
        }),
{
    let kernel: u64 = mmu.kernel_pml4;
    let pml4: PhysAddr = match mm_allocate_contiguous_pages(&mut mmu.phys, 1) {
        Some(p) => p,
        None => {
            return None;
        },
    };
    let pdpt: PhysAddr = match mm_allocate_contiguous_pages(&mut mmu.phys, 1) {
        Some(p) => p,
        None => {
            return None;
        },
    };
    let pd: PhysAddr = match mm_allocate_contiguous_pages(&mut mmu.phys, 1) {
        Some(p) => p,
        None => {
            return None;
        },
    };
    write_entry(&mut mmu.phys, pml4.0, 0, pdpt.0 | 3);
    let ghost s4 = mmu.phys@;
    let mut i: usize = 256;
    while i < 512
        invariant
            256 <= i <= 512,
            mmu.phys.wf(),
            mmu.same_registers(old(mmu)),
            mmu.phys@ == high_half_copied(s4, kernel, pml4.0, i as int),
        decreases 512 - i,
    {
        let e: u64 = read_entry(&mmu.phys, kernel, i);
        write_entry(&mut mmu.phys, pml4.0, i, e);
        i = i + 1;
    }
    write_entry(&mut mmu.phys, pdpt.0, 0, pd.0 | 3);
    write_entry(&mut mmu.phys, pd.0, 0, 0x83);
    Some(pml4)
}

/// The trampoline page: the code, and the fields it loads its page tables, stack
/// and entry point from.
pub open spec fn patched(code: Seq<u8>, cr3: u64, stack: u64, at: u64) -> Seq<u8> {
    let page = overlay(Seq::new(4096, |i: int| 0u8), 0, code);
    set64(set64(set64(page, PATCH_CR3 as int, cr3), PATCH_STACK as int, stack), PATCH_ENTRY as int, at)
}

/// Build the trampoline page.
pub fn trampoline_page(code: &[u8], cr3: u64, stack: u64, at: u64) -> (page: Vec<u8>)
    requires
        code@.len() < PATCH_CR3,
    ensures
        page@ == patched(code@, cr3, stack, at),
        page@.len() == 4096,
{
    let mut page: Vec<u8> = vec![0u8; 4096];
    assert(page@ =~= Seq::new(4096, |i: int| 0u8));
    put_bytes(&mut page, 0, code);
    put64(&mut page, PATCH_CR3, cr3);
    put64(&mut page, PATCH_STACK, stack);
    put64(&mut page, PATCH_ENTRY, at);
    page
}

// ---------------------------------------------------------------------------
// Starting
// ---------------------------------------------------------------------------
/// Record the processors the firmware lists and the boot processor. Returns
/// whether there are others to start.
pub fn init(p: &mut Processors, count: usize, bsp_id: u32) -> (more: bool)
    requires
        old(p).wf(),
    ensures
        final(p).wf(),
        final(p).count == if count > 1 {
            count
        } else {
            1
        },
        final(p).online == old(p).online,
        final(p).next == old(p).next,
        final(p).slots@ == old(p).slots@.update(
            0,
            CpuSlot {
                apic_id: bsp_id as u64,
                online: true,
                pcr_seen: 1,
                stack_base: old(p).slots@[0].stack_base,
            },
        ),
        more == (count > 1),
{
    p.count = if count > 1 {
        count
    } else {
        1
    };
    let mut s: CpuSlot = p.slots[0];
    s.apic_id = bsp_id as u64;
    s.online = true;
    s.pcr_seen = 1;
    p.slots.set(0, s);
    count > 1
}

/// What to do for a listed processor.
#[derive(Debug, Clone, Copy, PartialEq, Eq)]
pub enum ApStart {
    /// It is the boot processor, or there is no slot left.
    Skip,
    /// There is no memory for its stack; its slot stays empty.
    NoStack,
    /// Patch its stack pointer into the trampoline and wake it.
    Start { cpu: usize, stack_top: u64 },
}

/// Preparing to start the processor `id`: the slots, the next free one, memory
/// and what to do.
pub open spec fn prepared_ap(
    slots: Seq<CpuSlot>,
    next: usize,
    st: PhysState,
    offset: u64,
    id: u32,
    bsp_id: u32,
) -> (Seq<CpuSlot>, int, PhysState, ApStart) {
    if id == bsp_id || next >= MAX_CPUS {
        (slots, next as int, st, ApStart::Skip)
    } else {
        let (s, pa) = alloc_pages(st, AP_STACK_PAGES as int);
        match pa {
            None => (slots, next + 1, s, ApStart::NoStack),
            Some(pa) => (
                slots.update(
                    next as int,
                    CpuSlot {
                        apic_id: id as u64,
                        online: false,
                        pcr_seen: slots[next as int].pcr_seen,
                        stack_base: pa,
                    },
                ),
                next + 1,
                s,
                ApStart::Start { cpu: next, stack_top: (offset + pa + AP_STACK_SIZE) as u64 },
            ),
        }
    }
}

/// Prepare to start the processor `id`.
pub fn start_processor(p: &mut Processors, mmu: &mut Mmu, id: u32, bsp_id: u32) -> (a: ApStart)
    requires
        old(p).wf(),
        old(mmu).phys.wf(),
        old(mmu).windowed(),
    ensures
        final(p).wf(),
        final(mmu).phys.wf(),
        final(mmu).same_registers(old(mmu)),
        final(p).count == old(p).count,
        final(p).online == old(p).online,
        ({
            let (slots, next, st, act) = prepared_ap(
                old(p).slots@,
                old(p).next,
                old(mmu).phys@,
                old(mmu).window.offset,
                id,
                bsp_id,
            );
            &&& final(p).slots@ == slots
            &&& final(p).next == next
            &&& final(mmu).phys@ == st
            &&& a == act
        }),
{
    if id == bsp_id || p.next >= MAX_CPUS {
        return ApStart::Skip;
    }
    let cpu: usize = p.next;
    p.next = cpu + 1;
    let offset: u64 = mmu.window.offset;
    let n: usize = mmu.phys.ram.len();
    match mm_allocate_contiguous_pages(&mut mmu.phys, AP_STACK_PAGES) {
        Some(pa) => {
            let mut s: CpuSlot = p.slots[cpu];
            s.apic_id = id as u64;
            s.stack_base = pa.0;
            s.online = false;
            p.slots.set(cpu, s);
            ApStart::Start { cpu, stack_top: offset + pa.0 + AP_STACK_SIZE }
        },
        None => ApStart::NoStack,
    }
}

/// The slot that names `id`, from `i` on.
pub open spec fn slot_of(slots: Seq<CpuSlot>, id: u64, i: int) -> Option<int>
    decreases slots.len() - i,
{
    if i < 0 || i >= slots.len() {
        None
    } else if slots[i].apic_id == id {
        Some(i)
    } else {
        slot_of(slots, id, i + 1)
    }
}

/// The number of the started processor with APIC id `id`; none is fatal.
pub fn own_slot(p: &Processors, id: u64) -> (r: Option<usize>)
    requires
        p.wf(),
    ensures
        match r {
            Some(i) => slot_of(p.slots@, id, 1) == Some(i as int) && 1 <= i < MAX_CPUS,
            None => slot_of(p.slots@, id, 1) is None,
        },
{
    let mut i: usize = 1;
    while i < MAX_CPUS
        invariant
            1 <= i <= MAX_CPUS,
            p.slots@.len() == MAX_CPUS,
            slot_of(p.slots@, id, 1) == slot_of(p.slots@, id, i as int),
        decreases MAX_CPUS - i,
    {
        if p.slots[i].apic_id == id {
            return Some(i);
        }
        i = i + 1;
    }
    None
}

/// A processor reports that it is up, with the number it read back.
pub fn report_online(p: &mut Processors, cpu: usize, number: u32)
    requires
        old(p).wf(),
        cpu < MAX_CPUS,
        old(p).online < usize::MAX,
    ensures
        final(p).wf(),
        final(p).count == old(p).count,
        final(p).next == old(p).next,
        final(p).online == old(p).online + 1,
        final(p).slots@ == old(p).slots@.update(
            cpu as int,
            CpuSlot { online: true, pcr_seen: (number + 1) as u64, ..old(p).slots@[cpu as int] },
        ),
{
    let mut s: CpuSlot = p.slots[cpu];
    s.pcr_seen = number as u64 + 1;
    s.online = true;
    p.slots.set(cpu, s);
    p.online = p.online + 1;
}

/// A started processor finds the slot it was given.
pub proof fn a_started_processor_finds_its_slot(
    slots: Seq<CpuSlot>,
    next: usize,
    st: PhysState,
    offset: u64,
    id: u32,
    bsp_id: u32,
)
    requires
        slots.len() == MAX_CPUS,
        1 <= next,
        forall|i: int| 1 <= i < next && i < MAX_CPUS ==> (#[trigger] slots[i]).apic_id != id,
    ensures
        prepared_ap(slots, next, st, offset, id, bsp_id).3 matches ApStart::Start { cpu, .. }
            ==> slot_of(prepared_ap(slots, next, st, offset, id, bsp_id).0, id as u64, 1) == Some(
            cpu as int,
        ),
{
    let (after, n, s, act) = prepared_ap(slots, next, st, offset, id, bsp_id);
    if let ApStart::Start { cpu, stack_top } = act {
        assert(after[next as int].apic_id == id);
        lemma_slot_of(after, id as u64, 1, next as int);
    }
}

proof fn lemma_slot_of(slots: Seq<CpuSlot>, id: u64, i: int, k: int)
    requires
        0 <= i <= k < slots.len(),
        slots[k].apic_id == id,
        forall|j: int| i <= j < k ==> (#[trigger] slots[j]).apic_id != id,
    ensures
        slot_of(slots, id, i) == Some(k),
    decreases k - i,
{
    if i < k {
        lemma_slot_of(slots, id, i + 1, k);
    }
}

/// The start page holds the code, and behind it the tables, the stack and the entry point
/// that the code loads.
pub proof fn the_start_page_reads_back(code: Seq<u8>, cr3: u64, stack: u64, at: u64, i: int)
    requires
        code.len() <= 0xF00,
        0 <= i < 0xF00,
    ensures
        ({
            let p = patched(code, cr3, stack, at);
            &&& p.len() == 4096
            &&& get64(p, 0xF00) == cr3
            &&& get64(p, 0xF08) == stack
            &&& get64(p, 0xF10) == at
            &&& p[i] == if i < code.len() {
                code[i]
            } else {
                0
            }
        }),
{
    let page = overlay(Seq::new(4096, |i: int| 0u8), 0, code);
    let a = set64(page, 0xF00, cr3);
    let b = set64(a, 0xF08, stack);
    let p = set64(b, 0xF10, at);
    lemma_bytes64(cr3);
    lemma_bytes64(stack);
    lemma_bytes64(at);
    lemma_get64_in(p, 0xF00, bytes64(cr3));
    lemma_get64_in(p, 0xF08, bytes64(stack));
    lemma_get64_in(p, 0xF10, bytes64(at));
}

/// A processor that is to start gets the next slot and a stack of 64 KiB, at whose end it
/// starts. The one that is running, and any beyond the eighth, are passed over.
pub proof fn a_processor_starts_on_its_own_stack(
    slots: Seq<CpuSlot>,
    next: usize,
    st: PhysState,
    offset: u64,
    id: u32,
    bsp: u32,
)
    requires
        slots.len() == 8,
    ensures
        prepared_ap(slots, next, st, offset, bsp, bsp) == (slots, next as int, st, ApStart::Skip),
        next >= 8 ==> prepared_ap(slots, next, st, offset, id, bsp) == (
            slots,
            next as int,
            st,
            ApStart::Skip,
        ),
        id != bsp && next < 8 ==> {
            let (s1, n1, st1, act) = prepared_ap(slots, next, st, offset, id, bsp);
            &&& n1 == next + 1
            &&& st1 == alloc_pages(st, 16).0
            &&& match alloc_pages(st, 16).1 {
                None => act == ApStart::NoStack && s1 == slots,
                Some(pa) => {
                    &&& act == (ApStart::Start {
                        cpu: next,
                        stack_top: (offset + pa + 0x1_0000) as u64,
                    })
                    &&& s1[next as int].apic_id == id
                    &&& s1[next as int].stack_base == pa
                    &&& !s1[next as int].online
                },
            }
        },
{
}

/// The upper half of the start tables is the kernel's: every entry from 256 on is copied.
pub proof fn the_upper_half_is_copied(st: PhysState, from: u64, to: u64, i: int, k: int)
    requires
        256 <= k < i <= 512,
        to + 4096 <= st.ram.len(),
        from + 4096 <= to || to + 4096 <= from,
    ensures
        high_half_copied(st, from, to, i).ram.len() == st.ram.len(),
        entry(high_half_copied(st, from, to, i).ram, to, k) == entry(st.ram, from, k),
    decreases i,
{
    lemma_half_frame(st, from, to, i - 1);
    let s = high_half_copied(st, from, to, i - 1);
    let v = entry(s.ram, from, i - 1);
    word_reads_back(s.ram, to + 8 * (i - 1), v);
    lemma_same_source(st, from, to, i - 1, i - 1);
    lemma_bytes64(v);
    if k < i - 1 {
        the_upper_half_is_copied(st, from, to, i - 1, k);
        lemma_word_frame(s.ram, to + 8 * (i - 1), v, to + 8 * k);
    }
}

proof fn lemma_half_frame(st: PhysState, from: u64, to: u64, i: int)
    ensures
        high_half_copied(st, from, to, i).ram.len() == st.ram.len(),
    decreases i,
{
    if i > 256 {
        lemma_half_frame(st, from, to, i - 1);
        let s = high_half_copied(st, from, to, i - 1);
        lemma_bytes64(entry(s.ram, from, i - 1));
    }
}

proof fn lemma_same_source(st: PhysState, from: u64, to: u64, i: int, k: int)
    requires
        i <= 512,
        0 <= k < 512,
        from + 4096 <= to || to + 4096 <= from,
    ensures
        entry(high_half_copied(st, from, to, i).ram, from, k) == entry(st.ram, from, k),
    decreases i,
{
    if i > 256 {
        lemma_same_source(st, from, to, i - 1, k);
        let s = high_half_copied(st, from, to, i - 1);
        lemma_word_frame(
            s.ram,
            to + 8 * (i - 1),
            entry(s.ram, from, i - 1),
            from + 8 * k,
        );
    }
}

proof fn lemma_half_elsewhere(st: PhysState, from: u64, to: u64, i: int, pb: int)
    requires
        i <= 512,
        pb + 8 <= to + 2048 || to + 4096 <= pb,
    ensures
        word(high_half_copied(st, from, to, i).ram, pb) == word(st.ram, pb),
        high_half_copied(st, from, to, i).ram.len() == st.ram.len(),
    decreases i,
{
    lemma_half_frame(st, from, to, i);
    if i > 256 {
        lemma_half_elsewhere(st, from, to, i - 1, pb);
        let s = high_half_copied(st, from, to, i - 1);
        lemma_word_frame(s.ram, to + 8 * (i - 1), entry(s.ram, from, i - 1), pb);
    }
}

proof fn lemma_start_bits(t: u64, va: u64)
    by (bit_vector)
    requires
        t % 4096 == 0,
        t <= 0x000F_FFFF_FFFF_F000,
        va < 0x20_0000,
    ensures
        (t | 3) & 0x000F_FFFF_FFFF_F000 == t,
        (t | 3) & 0x1 != 0,
        (t | 3) & 0x80 == 0,
        0x83u64 & 0x1 != 0,
        0x83u64 & 0x80 != 0,
        (0x83u64 & 0x000F_FFFF_FFFF_F000 & !0x1F_FFFFu64) | (va & 0x1F_FFFF) == va,
{
}

proof fn lemma_one_page(st: PhysState)
    requires
        0 <= st.hint,
        0 < st.bits.len(),
        st.bits.len() * 4096 <= st.ram.len() <= 0x10_0000_0000_0000,
        alloc_pages(st, 1).1 is Some,
    ensures
        ({
            let (s, pa) = alloc_pages(st, 1);
            let f = pa->0 as int / 4096;
            &&& pa->0 % 4096 == 0
            &&& pa->0 <= 0x000F_FFFF_FFFF_F000
            &&& f < st.bits.len()
            &&& !st.bits[f]
            &&& s.bits[f]
            &&& s.bits.len() == st.bits.len()
            &&& s.ram.len() == st.ram.len()
            &&& 0 <= s.hint
            &&& forall|k: int| 0 <= k < st.bits.len() && st.bits[k] ==> #[trigger] s.bits[k]
        }),
{
    let (s, pa) = alloc_pages(st, 1);
    pages_allocated_together_follow_each_other(st, 1, 0, 0);
    let f = pa->0 as int / 4096;
    pages_allocated_together_follow_each_other(st, 1, 0, f);
    assert forall|k: int| 0 <= k < st.bits.len() && st.bits[k] implies #[trigger] s.bits[k] by {
        pages_allocated_together_follow_each_other(st, 1, 0, k);
    }
}

proof fn lemma_start_words(s3: PhysState, kernel: u64, pml4: u64, pdpt: u64, pd: u64)
    requires
        pml4 + 4096 <= s3.ram.len(),
        pdpt + 4096 <= s3.ram.len(),
        pd + 4096 <= s3.ram.len(),
        pml4 + 4096 <= pdpt || pdpt + 4096 <= pml4,
        pml4 + 4096 <= pd || pd + 4096 <= pml4,
        pdpt + 4096 <= pd || pd + 4096 <= pdpt,
    ensures
        ({
            let s5 = high_half_copied(set_entry(s3, pml4, 0, pdpt | 3), kernel, pml4, 512);
            let s7 = set_entry(set_entry(s5, pdpt, 0, pd | 3), pd, 0, 0x83);
            &&& word(s7.ram, pml4 as int) == pdpt | 3
            &&& word(s7.ram, pdpt as int) == pd | 3
            &&& word(s7.ram, pd as int) == 0x83
        }),
{
    let s4 = set_entry(s3, pml4, 0, pdpt | 3);
    let s5 = high_half_copied(s4, kernel, pml4, 512);
    let s6 = set_entry(s5, pdpt, 0, pd | 3);
    lemma_bytes64(pdpt | 3);
    lemma_bytes64(pd | 3);
    lemma_bytes64(0x83);
    word_reads_back(s3.ram, pml4 as int, pdpt | 3);
    lemma_half_elsewhere(s4, kernel, pml4, 512, pml4 as int);
    lemma_word_frame(s5.ram, pdpt as int, pd | 3, pml4 as int);
    word_reads_back(s5.ram, pdpt as int, pd | 3);
    lemma_word_frame(s6.ram, pd as int, 0x83, pml4 as int);
    lemma_word_frame(s6.ram, pd as int, 0x83, pdpt as int);
    word_reads_back(s6.ram, pd as int, 0x83);
}

/// The tables that a processor starts with map the first two megabytes of memory to
/// themselves: turning them on does not move the code that does so.
#[verifier::spinoff_prover]
#[verifier::rlimit(80)]
pub proof fn the_start_tables_map_low_memory_to_itself(st: PhysState, kernel: u64, va: u64)
    requires
        0 <= st.hint,
        0 < st.bits.len(),
        st.bits.len() * 4096 <= st.ram.len() <= 0x10_0000_0000_0000,
        transition(st, kernel).1 is Some,
        va < 0x20_0000,
    ensures
        translate(transition(st, kernel).0.ram, transition(st, kernel).1->0, va) == Some(va),
{
    let (s1, a) = alloc_pages(st, 1);
    let (s2, b) = alloc_pages(s1, 1);
    let (s3, c) = alloc_pages(s2, 1);
    let pml4 = a->0;
    let pdpt = b->0;
    let pd = c->0;
    lemma_one_page(st);
    lemma_one_page(s1);
    lemma_one_page(s2);
    let s4 = set_entry(s3, pml4, 0, pdpt | 3);
    let s5 = high_half_copied(s4, kernel, pml4, 512);
    let s6 = set_entry(s5, pdpt, 0, pd | 3);
    let s7 = set_entry(s6, pd, 0, 0x83);
    assert(pml4 as int / 4096 != pdpt as int / 4096);
    assert(pml4 as int / 4096 != pd as int / 4096);
    assert(pdpt as int / 4096 != pd as int / 4096);
    lemma_start_words(s3, kernel, pml4, pdpt, pd);
    lemma_start_bits(pdpt, va);
    lemma_start_bits(pd, va);
    assert(s7 == transition(st, kernel).0);
    assert(level_index(va, 4) == 0 && level_index(va, 3) == 0 && level_index(va, 2) == 0);
    assert(pml4e(s7.ram, pml4, va) == pdpt | 3);
    assert(pdpte(s7.ram, pml4, va) == pd | 3);
    assert(pde(s7.ram, pml4, va) == 0x83);
}

} // verus!
