//! Interrupt request levels.
//!
//! A per-processor priority that masks every interrupt source of equal or lower
//! priority. On x86_64 it is the task-priority register, CR8: vector `v` is
//! delivered only if `v / 16` is above it.
//!
//! ```text
//! IRQL  0 PASSIVE_LEVEL   normal thread execution
//! IRQL  1 APC_LEVEL       asynchronous procedure calls
//! IRQL  2 DISPATCH_LEVEL  scheduler and deferred calls
//! IRQL  3..12             device interrupts
//! IRQL 13 CLOCK_LEVEL     clock tick
//! IRQL 14 IPI_LEVEL       inter-processor interrupts
//! IRQL 15 HIGH_LEVEL      everything masked
//! ```
use vstd::prelude::*;

verus! {

pub type Kirql = u8;

pub const PASSIVE_LEVEL: Kirql = 0;

pub const APC_LEVEL: Kirql = 1;

pub const DISPATCH_LEVEL: Kirql = 2;

pub const CLOCK_LEVEL: Kirql = 13;

pub const IPI_LEVEL: Kirql = 14;

pub const HIGH_LEVEL: Kirql = 15;

/// The interrupt flag in RFLAGS.
pub const RFLAGS_IF: u64 = 0x200;

/// The interrupt state of one processor.
#[derive(Debug, Clone, Copy, PartialEq, Eq, Structural)]
pub struct Processor {
    /// Current level (CR8).
    pub irql: Kirql,
    /// RFLAGS.
    pub rflags: u64,
}

/// Maskable interrupts are on.
pub open spec fn interrupts_on(rflags: u64) -> bool {
    rflags & RFLAGS_IF != 0
}

/// Vector `v` gets through to a processor.
pub open spec fn delivered(cpu: Processor, v: u8) -> bool {
    interrupts_on(cpu.rflags) && v / 16 > cpu.irql
}

proof fn lemma_if_bit(r: u64)
    by (bit_vector)
    ensures
        (r & !RFLAGS_IF) & RFLAGS_IF == 0,
        (r | RFLAGS_IF) & RFLAGS_IF != 0,
        r & RFLAGS_IF != 0 ==> (r & !RFLAGS_IF) | RFLAGS_IF == r,
        r & RFLAGS_IF == 0 ==> r & !RFLAGS_IF == r,
{
}

/// The current level.
pub fn current(cpu: &Processor) -> (irql: Kirql)
    ensures
        irql == cpu.irql,
{
    cpu.irql
}

/// Set the level outright.
pub fn set(cpu: &mut Processor, irql: Kirql)
    ensures
        *final(cpu) == (Processor { irql, ..*old(cpu) }),
{
    cpu.irql = irql;
}

/// Mask interrupts; returns RFLAGS as they were.
pub fn disable_interrupts(cpu: &mut Processor) -> (rflags: u64)
    ensures
        rflags == old(cpu).rflags,
        !interrupts_on(final(cpu).rflags),
        *final(cpu) == (Processor { rflags: old(cpu).rflags & !RFLAGS_IF, ..*old(cpu) }),
{
    proof {
        lemma_if_bit(cpu.rflags);
    }
    let rflags: u64 = cpu.rflags;
    cpu.rflags = rflags & !RFLAGS_IF;
    rflags
}

/// Unmask interrupts if they were on in `rflags`.
pub fn restore_interrupts(cpu: &mut Processor, rflags: u64)
    ensures
        *final(cpu) == (Processor {
            rflags: if interrupts_on(rflags) {
                old(cpu).rflags | RFLAGS_IF
            } else {
                old(cpu).rflags
            },
            ..*old(cpu)
        }),
{
    if rflags & RFLAGS_IF != 0 {
        cpu.rflags = cpu.rflags | RFLAGS_IF;
    }
}

/// `KeGetCurrentIrql`.
pub fn ke_get_current_irql(cpu: &Processor) -> (irql: Kirql)
    ensures
        irql == cpu.irql,
{
    current(cpu)
}

/// `KeRaiseIrql`: raise to `new_irql` and return the level before. A lower level
/// is a fatal bug of the caller.
pub fn ke_raise_irql(cpu: &mut Processor, new_irql: Kirql) -> (before: Kirql)
    requires
        new_irql >= old(cpu).irql,
    ensures
        before == old(cpu).irql,
        *final(cpu) == (Processor { irql: new_irql, ..*old(cpu) }),
{
    let before: Kirql = current(cpu);
    set(cpu, new_irql);
    before
}

/// `KeLowerIrql`: return to a level saved before. A higher level is a fatal bug
/// of the caller.
pub fn ke_lower_irql(cpu: &mut Processor, old_irql: Kirql)
    requires
        old_irql <= old(cpu).irql,
    ensures
        *final(cpu) == (Processor { irql: old_irql, ..*old(cpu) }),
{
    set(cpu, old_irql);
}

/// Masking interrupts and restoring them leaves the processor as it was.
pub proof fn masking_is_undone(cpu: Processor)
    ensures
        ({
            let masked = Processor { rflags: cpu.rflags & !RFLAGS_IF, ..cpu };
            let back = Processor {
                rflags: if interrupts_on(cpu.rflags) {
                    masked.rflags | RFLAGS_IF
                } else {
                    masked.rflags
                },
                ..masked
            };
            back == cpu
        }),
{
    lemma_if_bit(cpu.rflags);
}

/// A raised level lets through no vector that the lower one holds back, and at
/// the highest level nothing gets through.
pub proof fn raising_masks_more(cpu: Processor, irql: Kirql, v: u8)
    requires
        irql >= cpu.irql,
    ensures
        delivered(Processor { irql, ..cpu }, v) ==> delivered(cpu, v),
        irql >= HIGH_LEVEL ==> !delivered(Processor { irql, ..cpu }, v),
{
}

/// Interrupts are on where bit nine of the flags is set.
pub proof fn bit_nine_turns_interrupts_on(rflags: u64)
    ensures
        interrupts_on(rflags | 0x200),
        !interrupts_on(rflags & !0x200),
        interrupts_on(rflags) == interrupts_on(rflags | 0x100),
{
    assert((rflags | 0x200) & 0x200 != 0 && (rflags & !0x200u64) & 0x200 == 0 && ((rflags & 0x200
        != 0) == ((rflags | 0x100) & 0x200 != 0))) by (bit_vector);
}

/// An interrupt comes through where its vector's sixteenth is above the level of the
/// processor, and never with interrupts off.
pub proof fn an_interrupt_comes_through_above_the_level(cpu: Processor, v: u8)
    ensures
        interrupts_on(cpu.rflags) && v >= 16 * cpu.irql + 16 ==> delivered(cpu, v),
        v < 16 * cpu.irql + 16 ==> !delivered(cpu, v),
        !interrupts_on(cpu.rflags) ==> !delivered(cpu, v),
{
}

} // verus!
