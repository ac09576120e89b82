//! The global descriptor table and the task state segment.
//!
//! Every processor has its own: the segment holds the stacks that the processor
//! loads on a privilege change and the emergency stacks for NMI, double fault and
//! machine check.
use crate::bytes::{bytes16, get16, get64, lemma_bytes16, lemma_get16_in, put16};
use crate::fields::{
    fields_read_back, hold_all, holds64, lemma_keep, only_in, put_fields, set16, set_fields, Field,
};
use crate::ke::selectors::{
    KGDT64_R0_CODE, KGDT64_R0_DATA, KGDT64_R3_CMCODE, KGDT64_R3_CODE, KGDT64_R3_DATA,
    KGDT64_SYS_TSS,
};
use vstd::prelude::*;

verus! {

/// Emergency stack of the double fault.
pub const IST_DOUBLE_FAULT: u8 = 1;

/// Emergency stack of the NMI.
pub const IST_NMI: u8 = 2;

/// Emergency stack of the machine check.
pub const IST_MCE: u8 = 3;

/// Size of an emergency stack.
pub const IST_STACK_SIZE: usize = 0x4000;

/// Processors with tables of their own.
pub const MAX_CPUS: usize = 8;

/// Slots of a table.
pub const GDT_SLOTS: usize = 10;

/// Size of a task state segment.
pub const TSS_SIZE: usize = 104;

/// A 64-bit task state segment.
#[derive(Debug, Clone, Copy, PartialEq, Eq, Structural)]
pub struct Tss64 {
    /// Stack on a change from user to kernel mode.
    pub rsp0: u64,
    pub rsp1: u64,
    pub rsp2: u64,
    /// Emergency stacks.
    pub ist1: u64,
    pub ist2: u64,
    pub ist3: u64,
    pub ist4: u64,
    pub ist5: u64,
    pub ist6: u64,
    pub ist7: u64,
    /// Offset of the I/O permission bitmap; past the limit for none.
    pub iomap_base: u16,
}

/// The 64-bit fields of a segment in memory.
pub open spec fn tss_fields(t: Tss64) -> Seq<Field> {
    seq![
        Field { at: 4, value: t.rsp0 },
        Field { at: 12, value: t.rsp1 },
        Field { at: 20, value: t.rsp2 },
        Field { at: 36, value: t.ist1 },
        Field { at: 44, value: t.ist2 },
        Field { at: 52, value: t.ist3 },
        Field { at: 60, value: t.ist4 },
        Field { at: 68, value: t.ist5 },
        Field { at: 76, value: t.ist6 },
        Field { at: 84, value: t.ist7 },
    ]
}

/// A segment in memory.
pub open spec fn tss_bytes(t: Tss64) -> Seq<u8> {
    set16(
        set_fields(Seq::new(TSS_SIZE as nat, |i: int| 0u8), tss_fields(t)),
        102,
        t.iomap_base,
    )
}

impl Tss64 {
    /// The segment with its kernel stack and emergency stacks, and no I/O bitmap.
    pub fn new(rsp0: u64, double_fault: u64, nmi: u64, machine_check: u64) -> (t: Self)
        ensures
            t == (Tss64 {
                rsp0,
                rsp1: 0,
                rsp2: 0,
                ist1: double_fault,
                ist2: nmi,
                ist3: machine_check,
                ist4: 0,
                ist5: 0,
                ist6: 0,
                ist7: 0,
                iomap_base: 104,
            }),
    {
        Tss64 {
            rsp0,
            rsp1: 0,
            rsp2: 0,
            ist1: double_fault,
            ist2: nmi,
            ist3: machine_check,
            ist4: 0,
            ist5: 0,
            ist6: 0,
            ist7: 0,
            iomap_base: 104,
        }
    }

    /// The segment as the processor reads it.
    pub fn image(&self) -> (b: Vec<u8>)
        ensures
            b@ == tss_bytes(*self),
            b@.len() == TSS_SIZE,
    {
        let mut b: Vec<u8> = vec![0u8; TSS_SIZE];
        assert(b@ =~= Seq::new(TSS_SIZE as nat, |i: int| 0u8));
        let fields: [Field; 10] = [
            Field { at: 4, value: self.rsp0 },
            Field { at: 12, value: self.rsp1 },
            Field { at: 20, value: self.rsp2 },
            Field { at: 36, value: self.ist1 },
            Field { at: 44, value: self.ist2 },
            Field { at: 52, value: self.ist3 },
            Field { at: 60, value: self.ist4 },
            Field { at: 68, value: self.ist5 },
            Field { at: 76, value: self.ist6 },
            Field { at: 84, value: self.ist7 },
        ];
        assert(fields@ =~= tss_fields(*self));
        put_fields(&mut b, &fields);
        put16(&mut b, 102, self.iomap_base);
        b
    }
}

/// A code or data descriptor, as the sum of its fields: type and system bit from
/// bit 40, privilege level from bit 45, present at bit 47, 64-bit code at bit 53,
/// 32-bit default at bit 54, and for all but 64-bit code a limit of 4 GiB in
/// pages.
pub open spec fn descriptor(typ: u8, dpl: u8, long: bool, default32: bool) -> int {
    typ * 0x100_0000_0000 + dpl * 0x2000_0000_0000 + 0x8000_0000_0000 + (if long {
        0x20_0000_0000_0000int
    } else {
        0x8F_0000_0000_FFFFint
    }) + (if default32 {
        0x40_0000_0000_0000int
    } else {
        0
    })
}

/// Build a code or data descriptor.
fn segment_descriptor(typ: u8, dpl: u8, long: bool, default32: bool) -> (d: u64)
    requires
        typ < 32,
        dpl < 4,
    ensures
        d == descriptor(typ, dpl, long, default32),
{
    let kind: u64 = if long {
        0x20_0000_0000_0000
    } else {
        0x8F_0000_0000_FFFF
    };
    let size: u64 = if default32 {
        0x40_0000_0000_0000
    } else {
        0
    };
    typ as u64 * 0x100_0000_0000 + dpl as u64 * 0x2000_0000_0000 + 0x8000_0000_0000 + kind + size
}

/// The low half of the descriptor of a segment at `base`: limit, the low 32 bits
/// of the base in two pieces, and a present available 64-bit segment.
pub open spec fn tss_low(base: u64) -> int {
    (TSS_SIZE - 1) + (base % 0x100_0000) * 0x1_0000 + 0x8900_0000_0000 + ((base / 0x100_0000)
        % 0x100) * 0x100_0000_0000_0000
}

/// The table of a processor whose segment is at `tss_base`.
pub open spec fn table(tss_base: u64) -> Seq<u64> {
    seq![
        0,
        0,
        descriptor(0x1A, 0, true, false) as u64,
        descriptor(0x12, 0, false, false) as u64,
        descriptor(0x1A, 3, false, true) as u64,
        descriptor(0x12, 3, false, false) as u64,
        descriptor(0x1A, 3, true, false) as u64,
        0,
        tss_low(tss_base) as u64,
        (tss_base / 0x1_0000_0000) as u64,
    ]
}

/// The descriptor table of a processor: code and data for both modes and the
/// segment at `tss_base`.
pub fn build_tables(tss_base: u64) -> (gdt: Vec<u64>)
    ensures
        gdt@ == table(tss_base),
{
    let mut gdt: Vec<u64> = vec![0u64; GDT_SLOTS];
    gdt.set((KGDT64_R0_CODE / 8) as usize, segment_descriptor(0x1A, 0, true, false));
    gdt.set((KGDT64_R0_DATA / 8) as usize, segment_descriptor(0x12, 0, false, false));
    gdt.set((KGDT64_R3_CMCODE / 8) as usize, segment_descriptor(0x1A, 3, false, true));
    gdt.set((KGDT64_R3_DATA / 8) as usize, segment_descriptor(0x12, 3, false, false));
    gdt.set((KGDT64_R3_CODE / 8) as usize, segment_descriptor(0x1A, 3, true, false));
    let low: u64 = (TSS_SIZE as u64 - 1) + tss_base % 0x100_0000 * 0x1_0000 + 0x8900_0000_0000
        + tss_base / 0x100_0000 % 0x100 * 0x100_0000_0000_0000;
    gdt.set((KGDT64_SYS_TSS / 8) as usize, low);
    gdt.set((KGDT64_SYS_TSS / 8) as usize + 1, tss_base / 0x1_0000_0000);
    assert(gdt@ =~= table(tss_base));
    gdt
}

/// Base and limit of the table at `base`.
pub fn gdtr(base: u64) -> (r: (u64, u16))
    ensures
        r.0 == base,
        r.1 == 8 * GDT_SLOTS - 1,
{
    (base, 79)
}

/// Record the kernel stack of the thread that runs.
pub fn set_kernel_stack(tss: &mut Tss64, rsp0: u64)
    ensures
        *final(tss) == (Tss64 { rsp0, ..*old(tss) }),
{
    tss.rsp0 = rsp0;
}

/// The base of a segment can be read off its descriptor.
pub proof fn the_segment_is_found_by_its_descriptor(base: u64)
    ensures
        ({
            let lo = table(base)[8] as int;
            let hi = table(base)[9] as int;
            (lo / 0x1_0000) % 0x100_0000 + ((lo / 0x100_0000_0000_0000) % 0x100) * 0x100_0000 + hi
                * 0x1_0000_0000 == base
        }),
        table(base)[8] % 0x1_0000 == TSS_SIZE - 1,
{
    let a = (base % 0x100_0000) as int;
    let b = ((base / 0x100_0000) % 0x100) as int;
    let hi = (base / 0x1_0000_0000) as int;
    assert(base == a + b * 0x100_0000 + hi * 0x1_0000_0000);
    let lo = 103 + a * 0x1_0000 + 0x8900_0000_0000 + b * 0x100_0000_0000_0000;
    assert(lo == tss_low(base));
    assert(0 <= lo <= u64::MAX);
    assert(lo / 0x1_0000 == a + 0x8900_0000 + b * 0x100_0000_0000);
    assert((lo / 0x1_0000) % 0x100_0000 == a);
    assert(lo / 0x100_0000_0000_0000 == b);
}

/// The descriptors that the selectors name: code and data of the kernel, then code for 32
/// bits, data and code for 64 bits of programs.
pub proof fn the_selectors_name_their_descriptors(base: u64)
    ensures
        table(base).len() == 10,
        table(base)[0] == 0,
        table(base)[2] == 0x0020_9A00_0000_0000,
        table(base)[3] == 0x008F_9200_0000_FFFF,
        table(base)[4] == 0x00CF_FA00_0000_FFFF,
        table(base)[5] == 0x008F_F200_0000_FFFF,
        table(base)[6] == 0x0020_FA00_0000_0000,
        table(base)[9] == base / 0x1_0000_0000,
{
}

/// The task segment holds the kernel stack, the stacks for emergencies and the end of the
/// segment where the processor looks for them.
pub proof fn the_task_segment_reads_back(t: Tss64)
    ensures
        ({
            let b = tss_bytes(t);
            &&& b.len() == 104
            &&& get64(b, 4) == t.rsp0
            &&& get64(b, 12) == t.rsp1
            &&& get64(b, 20) == t.rsp2
            &&& get64(b, 36) == t.ist1
            &&& get64(b, 44) == t.ist2
            &&& get64(b, 52) == t.ist3
            &&& get64(b, 84) == t.ist7
            &&& get16(b, 102) == t.iomap_base
        }),
{
    let z = Seq::new(TSS_SIZE as nat, |i: int| 0u8);
    let fs = tss_fields(t);
    fields_read_back(z, fs, 4, 92);
    let s = set_fields(z, fs);
    let b = tss_bytes(t);
    lemma_bytes16(t.iomap_base);
    lemma_get16_in(b, 102, bytes16(t.iomap_base));
    assert(only_in(s, b, 102, 104));
    lemma_keep(s, b, 102, 104, fs);
    reveal(hold_all);
    assert(holds64(b, fs[0].at as int, fs[0].value));
    assert(holds64(b, fs[1].at as int, fs[1].value));
    assert(holds64(b, fs[2].at as int, fs[2].value));
    assert(holds64(b, fs[3].at as int, fs[3].value));
    assert(holds64(b, fs[4].at as int, fs[4].value));
    assert(holds64(b, fs[5].at as int, fs[5].value));
    assert(holds64(b, fs[9].at as int, fs[9].value));
}

} // verus!
