//! The interrupt descriptor table: one interrupt gate per vector, leading to the
//! vector's entry stub. Vectors that may find the stack unusable get an emergency
//! stack.
use crate::ke::gdt::{IST_DOUBLE_FAULT, IST_MCE, IST_NMI};
use crate::ke::selectors::KGDT64_R0_CODE;
use crate::ke::traps::{STUB_STRIDE, VECTOR_DOUBLE_FAULT, VECTOR_MCE, VECTOR_NMI};
use vstd::prelude::*;

verus! {

/// Vectors.
pub const VECTORS: usize = 256;

/// A 64-bit gate.
#[derive(Debug, Clone, Copy, PartialEq, Eq, Structural)]
pub struct IdtGate {
    pub offset_low: u16,
    pub selector: u16,
    /// Emergency stack, 0 for the current one.
    pub ist: u8,
    /// Present, privilege level and type.
    pub type_attr: u8,
    pub offset_mid: u16,
    pub offset_high: u32,
}

/// A present interrupt gate of privilege level 0.
pub const INTERRUPT_GATE: u8 = 0x8E;

/// An interrupt descriptor that leads to a handler.
pub open spec fn gate(handler: u64, ist: u8) -> IdtGate {
    IdtGate {
        offset_low: (handler % 0x1_0000) as u16,
        selector: KGDT64_R0_CODE,
        ist: ist % 8,
        type_attr: INTERRUPT_GATE,
        offset_mid: ((handler / 0x1_0000) % 0x1_0000) as u16,
        offset_high: (handler / 0x1_0000_0000) as u32,
    }
}

/// The address a gate leads to.
pub open spec fn handler_of(g: IdtGate) -> int {
    g.offset_low + 0x1_0000 * g.offset_mid + 0x1_0000_0000 * g.offset_high
}

impl IdtGate {
    /// A gate that is not present.
    pub fn empty() -> (g: Self)
        ensures
            g == (IdtGate {
                offset_low: 0,
                selector: 0,
                ist: 0,
                type_attr: 0,
                offset_mid: 0,
                offset_high: 0,
            }),
    {
        IdtGate {
            offset_low: 0,
            selector: 0,
            ist: 0,
            type_attr: 0,
            offset_mid: 0,
            offset_high: 0,
        }
    }

    /// Lead to a handler on the emergency stack `ist`.
    pub fn set(&mut self, handler: u64, ist: u8)
        ensures
            *final(self) == gate(handler, ist),
    {
        self.offset_low = (handler % 0x1_0000) as u16;
        self.selector = KGDT64_R0_CODE;
        self.ist = ist % 8;
        self.type_attr = INTERRUPT_GATE;
        self.offset_mid = (handler / 0x1_0000 % 0x1_0000) as u16;
        self.offset_high = (handler / 0x1_0000_0000) as u32;
    }
}

/// The emergency stack of a vector, 0 for none.
pub open spec fn emergency_stack(vector: int) -> u8 {
    if vector == VECTOR_NMI {
        IST_NMI
    } else if vector == VECTOR_DOUBLE_FAULT {
        IST_DOUBLE_FAULT
    } else if vector == VECTOR_MCE {
        IST_MCE
    } else {
        0
    }
}

/// The whole table over the entry stubs at `stub_base`.
pub fn init(stub_base: u64) -> (idt: Vec<IdtGate>)
    requires
        stub_base + STUB_STRIDE * VECTORS <= u64::MAX,
    ensures
        idt@.len() == VECTORS,
        forall|v: int|
            0 <= v < VECTORS ==> #[trigger] idt@[v] == gate(
                (stub_base + STUB_STRIDE * v) as u64,
                emergency_stack(v),
            ),
{
    let mut idt: Vec<IdtGate> = Vec::new();
    let mut v: usize = 0;
    while v < VECTORS
        invariant
            v <= VECTORS,
            stub_base + STUB_STRIDE * VECTORS <= u64::MAX,
            idt@.len() == v,
            forall|k: int|
                0 <= k < v ==> #[trigger] idt@[k] == gate(
                    (stub_base + STUB_STRIDE * k) as u64,
                    emergency_stack(k),
                ),
        decreases VECTORS - v,
    {
        let ist: u8 = if v == VECTOR_NMI as usize {
            IST_NMI
        } else if v == VECTOR_DOUBLE_FAULT as usize {
            IST_DOUBLE_FAULT
        } else if v == VECTOR_MCE as usize {
            IST_MCE
        } else {
            0
        };
        let mut g: IdtGate = IdtGate::empty();
        g.set(stub_base + STUB_STRIDE * (v as u64), ist);
        idt.push(g);
        v = v + 1;
    }
    idt
}

/// Base and limit of the table at `base`.
pub fn idtr(base: u64) -> (r: (u64, u16))
    ensures
        r.0 == base,
        r.1 == 16 * VECTORS - 1,
{
    (base, 0xFFF)
}

/// A gate leads to its handler.
pub proof fn a_gate_leads_to_its_handler(handler: u64, ist: u8)
    ensures
        handler_of(gate(handler, ist)) == handler,
{
}

/// Emergencies have stacks of their own: double faults the first, non-maskable interrupts the
/// second, machine checks the third. All else stays on the stack it finds.
pub proof fn emergencies_have_their_own_stacks(v: int)
    ensures
        emergency_stack(8) == 1,
        emergency_stack(2) == 2,
        emergency_stack(18) == 3,
        v != 2 && v != 8 && v != 18 ==> emergency_stack(v) == 0,
{
}

/// A gate enters the kernel's code with interrupts off, through the handler it was made for.
pub proof fn a_gate_enters_the_kernel(handler: u64, ist: u8)
    requires
        ist < 8,
    ensures
        gate(handler, ist).selector == 0x10,
        gate(handler, ist).type_attr == 0x8E,
        gate(handler, ist).ist == ist,
        handler_of(gate(handler, ist)) == handler,
{
}

} // verus!
