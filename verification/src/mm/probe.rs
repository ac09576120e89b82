//! Validation of user buffers.
//!
//! A service probes every buffer a user-mode caller hands it before touching it:
//! each page must be mapped with user access, or the whole range committed, in
//! which case the first touch faults it in.
use crate::ke::pcr::{current, current_of, set_current, with_current};
use crate::ke::scheduler::Dispatcher;
use crate::ke::thread::{FaultRecovery, Kthread};
use crate::ke::traps::KtrapFrame;
use crate::mm::vad::{committed, vad_covers, VadDatabase};
use crate::mm::virt::{page_present_and_user, user_mapped, Mmu, ADDR_MASK};
use crate::mm::PhysAddr;
use crate::rtl::NtStatus;
use vstd::arithmetic::power2::pow2;
use vstd::prelude::*;

verus! {

/// Every page that `[address, end)` touches is mapped with user access.
pub open spec fn all_user_mapped(ram: Seq<u8>, root: u64, address: u64, end: int) -> bool {
    forall|p: u64|
        p % 4096 == 0 && p < end && address < p + 4096 ==> #[trigger] user_mapped(ram, root, p)
}

/// Every byte of `[address, end)` is committed in the address space `root`.
pub open spec fn all_committed(db: &VadDatabase, root: u64, address: u64, end: int) -> bool {
    &&& db.knows(root)
    &&& forall|a: int| address <= a < end ==> #[trigger] committed(db.of(root), a)
}

/// The outcome of probing `[address, address + length)` in the address space
/// `root` of memory `ram`.
pub open spec fn probed_in(
    ram: Seq<u8>,
    root: u64,
    db: &VadDatabase,
    address: u64,
    length: int,
    alignment: u64,
) -> Result<(), NtStatus> {
    let end = address + length;
    if length == 0 {
        Ok(())
    } else if address % alignment != 0 {
        Err(NtStatus(NtStatus::DATATYPE_MISALIGNMENT))
    } else if end > u64::MAX {
        Err(NtStatus(NtStatus::ACCESS_VIOLATION))
    } else if all_user_mapped(ram, root, address, end) || all_committed(db, root, address, end) {
        Ok(())
    } else {
        Err(NtStatus(NtStatus::ACCESS_VIOLATION))
    }
}

/// The outcome of probing `[address, address + length)`.
pub open spec fn probed(
    mmu: &Mmu,
    db: &VadDatabase,
    address: u64,
    length: int,
    alignment: u64,
) -> Result<(), NtStatus> {
    probed_in(mmu.ram(), mmu.root(), db, address, length, alignment)
}

/// A page that starts inside another is that page.
proof fn lemma_one_page(page: u64, p: u64)
    requires
        page % 4096 == 0,
        p % 4096 == 0,
        page <= p < page + 4096,
    ensures
        p == page,
{
}

/// Is every page of `[address, end)` mapped with user access?
#[verifier::spinoff_prover]
#[verifier::rlimit(40)]
fn all_pages_user(mmu: &Mmu, address: u64, end: u64) -> (r: bool)
    ensures
        r == all_user_mapped(mmu.ram(), mmu.root(), address, end as int),
{
    let ghost ram = mmu.ram();
    let ghost root = mmu.root();
    let mut page: u64 = address / 4096 * 4096;
    while page < end
        invariant
            ram == mmu.ram(),
            root == mmu.root(),
            page % 4096 == 0,
            address < page + 4096,
            forall|p: u64|
                p % 4096 == 0 && p < page && address < p + 4096 ==> #[trigger] user_mapped(
                    ram,
                    root,
                    p,
                ),
        decreases end + 4096 - page,
    {
        if !page_present_and_user(mmu, page) {
            return false;
        }
        assert forall|p: u64| p % 4096 == 0 && p < page + 4096 && address < p + 4096 implies
            #[trigger] user_mapped(ram, root, p) by {
            if p >= page {
                lemma_one_page(page, p);
            }
        }
        if page > u64::MAX - 4096 {
            return true;
        }
        page = page + 4096;
    }
    true
}

/// Validate that `[address, address + length)` is a well-formed user buffer
/// aligned to `alignment`, a power of two. An empty buffer always is.
pub fn probe_user_buffer(
    mmu: &Mmu,
    db: &VadDatabase,
    address: u64,
    length: usize,
    alignment: u64,
) -> (r: Result<(), NtStatus>)
    requires
        db.wf(),
        exists|n: nat| n < 64 && alignment == #[trigger] pow2(n),
    ensures
        r == probed(mmu, db, address, length as int, alignment),
{
    if length == 0 {
        return Ok(());
    }
    proof {
        let n = choose|n: nat| n < 64 && alignment == #[trigger] pow2(n);
        vstd::arithmetic::power2::lemma_pow2_pos(n);
    }
    if address % alignment != 0 {
        return Err(NtStatus(NtStatus::DATATYPE_MISALIGNMENT));
    }
    let end: u64 = match address.checked_add(length as u64) {
        Some(e) => e,
        None => {
            return Err(NtStatus(NtStatus::ACCESS_VIOLATION));
        },
    };
    if all_pages_user(mmu, address, end) {
        return Ok(());
    }
    let current: PhysAddr = PhysAddr(mmu.cr3 & ADDR_MASK);
    if vad_covers(db, current, address, length) {
        return Ok(());
    }
    Err(NtStatus(NtStatus::ACCESS_VIOLATION))
}

/// `ProbeForRead`.
pub fn probe_for_read(
    mmu: &Mmu,
    db: &VadDatabase,
    address: u64,
    length: usize,
    alignment: u64,
) -> (r: Result<(), NtStatus>)
    requires
        db.wf(),
        exists|n: nat| n < 64 && alignment == #[trigger] pow2(n),
    ensures
        r == probed(mmu, db, address, length as int, alignment),
{
    probe_user_buffer(mmu, db, address, length, alignment)
}

/// `ProbeForWrite`: the range check is that of a read.
pub fn probe_for_write(
    mmu: &Mmu,
    db: &VadDatabase,
    address: u64,
    length: usize,
    alignment: u64,
) -> (r: Result<(), NtStatus>)
    requires
        db.wf(),
        exists|n: nat| n < 64 && alignment == #[trigger] pow2(n),
    ensures
        r == probed(mmu, db, address, length as int, alignment),
{
    probe_user_buffer(mmu, db, address, length, alignment)
}

/// A page outside every committed range that is not mapped with user access
/// fails every probe that touches it.
pub proof fn unmapped_uncommitted_page_is_refused(
    mmu: &Mmu,
    db: &VadDatabase,
    address: u64,
    length: int,
    alignment: u64,
    a: u64,
)
    requires
        0 < length,
        address <= a < address + length,
        !user_mapped(mmu.ram(), mmu.root(), ((a / 4096) * 4096) as u64),
        !committed(db.of(mmu.root()), a as int),
    ensures
        probed(mmu, db, address, length, alignment) is Err,
{
    let p = ((a / 4096) * 4096) as u64;
    assert(p % 4096 == 0 && p < address + length && address < p + 4096);
}

// ---------------------------------------------------------------------------
// Fault recovery
// ---------------------------------------------------------------------------
/// Arm the current thread's recovery slot before a guarded copy.
pub fn arm(d: &mut Dispatcher, ctx: FaultRecovery)
    requires
        old(d).wf(),
    ensures
        final(d).wf(),
        final(d)@ == with_current(
            old(d)@,
            Kthread { fault_recovery: ctx, recovery_armed: true, ..current_of(old(d)@) },
        ),
{
    let mut th: Kthread = current(d);
    th.fault_recovery = ctx;
    th.recovery_armed = true;
    set_current(d, th);
}

/// Disarm it after the copy.
pub fn disarm(d: &mut Dispatcher)
    requires
        old(d).wf(),
    ensures
        final(d).wf(),
        final(d)@ == with_current(
            old(d)@,
            Kthread { recovery_armed: false, ..current_of(old(d)@) },
        ),
{
    let mut th: Kthread = current(d);
    th.recovery_armed = false;
    set_current(d, th);
}

/// The page-fault path's half: if the faulting thread's slot is armed, disarm it
/// and hand out where to land. A thread without one faults for good.
pub fn take_recovery(d: &mut Dispatcher) -> (r: Option<FaultRecovery>)
    requires
        old(d).wf(),
    ensures
        final(d).wf(),
        final(d)@ == with_current(
            old(d)@,
            Kthread { recovery_armed: false, ..current_of(old(d)@) },
        ),
        r == if current_of(old(d)@).recovery_armed {
            Some(current_of(old(d)@).fault_recovery)
        } else {
            None
        },
{
    let mut th: Kthread = current(d);
    if !th.recovery_armed {
        assert(d@ =~= with_current(
            d@,
            Kthread { recovery_armed: false, ..current_of(d@) },
        ));
        return None;
    }
    th.recovery_armed = false;
    set_current(d, th);
    Some(th.fault_recovery)
}

/// A trap frame rewound to where a guarded copy was started, with a one in RAX to
/// tell that it failed.
pub open spec fn landed(frame: KtrapFrame, r: FaultRecovery) -> KtrapFrame {
    KtrapFrame {
        rip: r.rip,
        rsp: r.rsp,
        rbp: r.rbp,
        rbx: r.rbx,
        r12: r.r12,
        r13: r.r13,
        r14: r.r14,
        r15: r.r15,
        rax: 1,
        ..frame
    }
}

/// Rewind a trap frame to where a guarded copy was started.
pub fn land(frame: &mut KtrapFrame, r: &FaultRecovery)
    ensures
        *final(frame) == landed(*old(frame), *r),
{
    frame.rip = r.rip;
    frame.rsp = r.rsp;
    frame.rbp = r.rbp;
    frame.rbx = r.rbx;
    frame.r12 = r.r12;
    frame.r13 = r.r13;
    frame.r14 = r.r14;
    frame.r15 = r.r15;
    frame.rax = 1;
}

/// A buffer of no size is always good. Any other must be aligned, must not go around the end
/// of memory, and must be the program's own, in this order.
pub proof fn a_buffer_is_probed_in_order(
    ram: Seq<u8>,
    root: u64,
    db: &VadDatabase,
    address: u64,
    length: int,
    alignment: u64,
)
    requires
        alignment > 0,
        length >= 0,
    ensures
        probed_in(ram, root, db, address, 0, alignment) == Ok::<(), NtStatus>(()),
        length > 0 && address % alignment != 0 ==> probed_in(
            ram,
            root,
            db,
            address,
            length,
            alignment,
        ) == Err::<(), NtStatus>(NtStatus(0x8000_0002)),
        length > 0 && address % alignment == 0 && address + length > u64::MAX ==> probed_in(
            ram,
            root,
            db,
            address,
            length,
            alignment,
        ) == Err::<(), NtStatus>(NtStatus(0xC000_0005)),
        length > 0 && address % alignment == 0 && address + length <= u64::MAX ==> probed_in(
            ram,
            root,
            db,
            address,
            length,
            alignment,
        ) == if all_user_mapped(ram, root, address, address + length) || all_committed(
            db,
            root,
            address,
            address + length,
        ) {
            Ok::<(), NtStatus>(())
        } else {
            Err(NtStatus(0xC000_0005))
        },
{
}

/// A fault that is recovered from lands where recovery was armed, with the registers kept
/// there and the answer 1; everything else of the frame stays.
pub proof fn a_recovered_fault_lands_where_it_was_armed(frame: KtrapFrame, r: FaultRecovery)
    ensures
        ({
            let f = landed(frame, r);
            &&& f.rax == 1
            &&& f.rip == r.rip && f.rsp == r.rsp && f.rbp == r.rbp && f.rbx == r.rbx
            &&& f.r12 == r.r12 && f.r13 == r.r13 && f.r14 == r.r14 && f.r15 == r.r15
            &&& f.rcx == frame.rcx && f.rdx == frame.rdx && f.rsi == frame.rsi && f.rdi == frame.rdi
            &&& f.r8 == frame.r8 && f.r9 == frame.r9 && f.r10 == frame.r10 && f.r11 == frame.r11
            &&& f.cs == frame.cs && f.ss == frame.ss && f.rflags == frame.rflags
        }),
{
}

} // verus!
