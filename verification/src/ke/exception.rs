//! Delivery of exceptions to user mode, and the way back.
//!
//! An exception record and a register context are laid out on the user stack and
//! the trap frame is rewritten so that the trap returns to the user-mode
//! dispatcher. A handled exception comes back through [`nt_continue`], which
//! resumes the thread at a full register state.
use crate::bytes::{
    bytes16, bytes32, get16, get32, get64, lemma_get_put32, put16, put32, u32le, u64le,
};
use crate::fields::{
    bytes_between_fields_stay, clear_of, fields_read_back, hold_all, holds64, put_fields, set16, set32, set_fields, spread, Field,
};
use crate::ke::irql::interrupts_on;
use crate::ke::selectors::{USER_CS, USER_SS};
use crate::ke::traps::KtrapFrame;
use crate::mm::pageout::{PageFile, PageFileState};
use crate::mm::phys::PhysState;
use crate::mm::probe::{probe_for_read, probe_for_write, probed, probed_in};
use crate::mm::resident::{buffer_brought_in, make_resident, ReadBack};
use crate::mm::user::{lemma_small_powers, read_user, user_bytes, user_written, write_user};
use crate::mm::vad::VadDatabase;
use crate::mm::virt::Mmu;
use crate::rtl::NtStatus;
use vstd::prelude::*;

verus! {

pub const STATUS_ACCESS_VIOLATION: u32 = 0xC000_0005;

pub const STATUS_ILLEGAL_INSTRUCTION: u32 = 0xC000_001D;

pub const STATUS_INTEGER_DIVIDE_BY_ZERO: u32 = 0xC000_0094;

pub const STATUS_INTEGER_OVERFLOW: u32 = 0xC000_0095;

pub const STATUS_STACK_OVERFLOW: u32 = 0xC000_00FD;

/// What an access fault tried: 8 for execute, 1 for write, 0 for read.
pub open spec fn access_kind(error_code: u64) -> u64 {
    if error_code & 0x10 != 0 {
        8
    } else if error_code & 2 != 0 {
        1
    } else {
        0
    }
}

/// The exception code of a vector with its parameters and their number; none for
/// vectors that never reach user mode (NMI, double fault).
pub open spec fn coded(vector: u8, error_code: u64, cr2: u64) -> Option<(u32, Seq<u64>, int)> {
    if vector == 2 || vector == 8 {
        None
    } else if vector == 0 {
        Some((STATUS_INTEGER_DIVIDE_BY_ZERO, seq![0, 0], 0))
    } else if vector == 4 {
        Some((STATUS_INTEGER_OVERFLOW, seq![0, 0], 0))
    } else if vector == 6 {
        Some((STATUS_ILLEGAL_INSTRUCTION, seq![0, 0], 0))
    } else if vector == 12 {
        Some((STATUS_STACK_OVERFLOW, seq![0, 0], 0))
    } else if vector == 14 {
        Some((STATUS_ACCESS_VIOLATION, seq![access_kind(error_code), cr2], 2))
    } else {
        Some((STATUS_ACCESS_VIOLATION, seq![0, 0], 0))
    }
}

/// Map an architectural vector to its exception code and parameters.
pub fn exception_code_for(vector: u8, error_code: u64, cr2: u64) -> (r: Option<
    (u32, [u64; 2], usize),
>)
    ensures
        match r {
            Some((code, info, n)) => coded(vector, error_code, cr2) == Some(
                (code, info@, n as int),
            ),
            None => coded(vector, error_code, cr2) is None,
        },
{
    if vector == 2 || vector == 8 {
        return None;
    }
    let none: [u64; 2] = [0, 0];
    assert(none@ =~= seq![0, 0]);
    if vector == 0 {
        Some((STATUS_INTEGER_DIVIDE_BY_ZERO, none, 0))
    } else if vector == 4 {
        Some((STATUS_INTEGER_OVERFLOW, none, 0))
    } else if vector == 6 {
        Some((STATUS_ILLEGAL_INSTRUCTION, none, 0))
    } else if vector == 12 {
        Some((STATUS_STACK_OVERFLOW, none, 0))
    } else if vector == 14 {
        let access: u64 = if error_code & 0x10 != 0 {
            8
        } else if error_code & 2 != 0 {
            1
        } else {
            0
        };
        let info: [u64; 2] = [access, cr2];
        assert(info@ =~= seq![access_kind(error_code), cr2]);
        Some((STATUS_ACCESS_VIOLATION, info, 2))
    } else {
        Some((STATUS_ACCESS_VIOLATION, none, 0))
    }
}

// ---------------------------------------------------------------------------
// Layout
// ---------------------------------------------------------------------------
/// Size of an exception record.
pub const REC_SIZE: usize = 0x98;

/// Size of a register context.
pub const CTX_SIZE: usize = 0x4D0;

/// Bytes on the user stack: a return address, the context and the record.
pub const FRAME_SIZE: usize = 0x570;

/// Where the context stands in them.
pub const CTX_AT: usize = 8;

/// Where the record stands in them.
pub const REC_AT: usize = 0x4D8;

/// Control, integer and segment registers of an AMD64 context.
pub const CONTEXT_FLAGS_VALUE: u32 = 0x0010_0007;

/// Default SSE control word.
pub const DEFAULT_MXCSR: u32 = 0x1F80;

/// RFLAGS bits a user context may carry.
pub const RFLAGS_USER_MASK: u64 = 0x0DD5;

/// RFLAGS bits that are always set in user mode.
pub const RFLAGS_FORCED: u64 = 0x0202;

/// The register state that a thread resumes with.
#[derive(Debug, Clone, Copy, PartialEq, Eq, Structural)]
pub struct UserResume {
    pub rax: u64,
    pub rbx: u64,
    pub rcx: u64,
    pub rdx: u64,
    pub rbp: u64,
    pub rsi: u64,
    pub rdi: u64,
    pub r8: u64,
    pub r9: u64,
    pub r10: u64,
    pub r11: u64,
    pub r12: u64,
    pub r13: u64,
    pub r14: u64,
    pub r15: u64,
    pub rip: u64,
    pub cs: u64,
    pub rflags: u64,
    pub rsp: u64,
    pub ss: u64,
}

/// The 64-bit fields of the context and the record.
#[verifier::opaque]
pub open spec fn frame_fields(f: KtrapFrame, info: Seq<u64>) -> Seq<Field> {
    seq![
        Field { at: 0x80, value: f.rax },
        Field { at: 0x88, value: f.rcx },
        Field { at: 0x90, value: f.rdx },
        Field { at: 0x98, value: f.rbx },
        Field { at: 0xA0, value: f.rsp },
        Field { at: 0xA8, value: f.rbp },
        Field { at: 0xB0, value: f.rsi },
        Field { at: 0xB8, value: f.rdi },
        Field { at: 0xC0, value: f.r8 },
        Field { at: 0xC8, value: f.r9 },
        Field { at: 0xD0, value: f.r10 },
        Field { at: 0xD8, value: f.r11 },
        Field { at: 0xE0, value: f.r12 },
        Field { at: 0xE8, value: f.r13 },
        Field { at: 0xF0, value: f.r14 },
        Field { at: 0xF8, value: f.r15 },
        Field { at: 0x100, value: f.rip },
        Field { at: 0x4E8, value: f.rip },
        Field { at: 0x4F8, value: info[0] },
        Field { at: 0x500, value: info[1] },
    ]
}

/// A block of zeros.
pub open spec fn zeros(n: int) -> Seq<u8> {
    Seq::new(n as nat, |i: int| 0u8)
}

/// The narrow fields of the context and the record.
#[verifier::opaque]
pub open spec fn narrow_fields(b: Seq<u8>, f: KtrapFrame, code: u32, n: int) -> Seq<u8> {
    let c = set32(
        set16(
            set16(
                set32(set32(b, 0x38, CONTEXT_FLAGS_VALUE), 0x3C, DEFAULT_MXCSR),
                0x40,
                (f.cs % 0x1_0000) as u16,
            ),
            0x4A,
            (f.ss % 0x1_0000) as u16,
        ),
        0x4C,
        (f.rflags % 0x1_0000_0000) as u32,
    );
    set32(set32(c, REC_AT as int, code), REC_AT + 0x18, n as u32)
}

/// What goes on the user stack: a zero return address, the context and the
/// record.
pub open spec fn exception_frame(f: KtrapFrame, code: u32, info: Seq<u64>, n: int) -> Seq<u8> {
    set_fields(narrow_fields(zeros(FRAME_SIZE as int), f, code, n), frame_fields(f, info))
}

fn build_frame(f: &KtrapFrame, code: u32, info: [u64; 2], n: u32) -> (b: Vec<u8>)
    ensures
        b@ == exception_frame(*f, code, info@, n as int),
        b@.len() == FRAME_SIZE,
{
    let mut b: Vec<u8> = vec![0u8; FRAME_SIZE];
    assert(b@ =~= zeros(FRAME_SIZE as int));
    put32(&mut b, 0x38, CONTEXT_FLAGS_VALUE);
    put32(&mut b, 0x3C, DEFAULT_MXCSR);
    put16(&mut b, 0x40, (f.cs % 0x1_0000) as u16);
    put16(&mut b, 0x4A, (f.ss % 0x1_0000) as u16);
    put32(&mut b, 0x4C, (f.rflags % 0x1_0000_0000) as u32);
    put32(&mut b, REC_AT, code);
    put32(&mut b, REC_AT + 0x18, n);
    proof {
        reveal(narrow_fields);
        reveal(frame_fields);
    }
    assert(b@ == narrow_fields(zeros(FRAME_SIZE as int), *f, code, n as int));
    let fields: [Field; 20] = [
        Field { at: 0x80, value: f.rax },
        Field { at: 0x88, value: f.rcx },
        Field { at: 0x90, value: f.rdx },
        Field { at: 0x98, value: f.rbx },
        Field { at: 0xA0, value: f.rsp },
        Field { at: 0xA8, value: f.rbp },
        Field { at: 0xB0, value: f.rsi },
        Field { at: 0xB8, value: f.rdi },
        Field { at: 0xC0, value: f.r8 },
        Field { at: 0xC8, value: f.r9 },
        Field { at: 0xD0, value: f.r10 },
        Field { at: 0xD8, value: f.r11 },
        Field { at: 0xE0, value: f.r12 },
        Field { at: 0xE8, value: f.r13 },
        Field { at: 0xF0, value: f.r14 },
        Field { at: 0xF8, value: f.r15 },
        Field { at: 0x100, value: f.rip },
        Field { at: 0x4E8, value: f.rip },
        Field { at: 0x4F8, value: info[0] },
        Field { at: 0x500, value: info[1] },
    ];
    assert(fields@ =~= frame_fields(*f, info@));
    put_fields(&mut b, &fields);
    b
}

/// Where the context of an exception at stack pointer `rsp` goes; it needs room
/// above the lowest 64 KiB.
pub open spec fn context_at(rsp: u64) -> Option<u64> {
    let ctx = ((rsp - FRAME_SIZE) / 16) * 16;
    if ctx - 8 < 0x1_0000 {
        None
    } else {
        Some(ctx as u64)
    }
}

/// The outcome of delivering an exception: memory, the trap frame, and whether it
/// was delivered.
pub open spec fn dispatched_in(
    ram: Seq<u8>,
    root: u64,
    db: &VadDatabase,
    f: KtrapFrame,
    stub: u64,
    code: u32,
    info: Seq<u64>,
    n: int,
) -> (Seq<u8>, KtrapFrame, bool) {
    match context_at(f.rsp) {
        Some(ctx) => {
            let new_rsp = (ctx - 8) as u64;
            if stub == 0 || probed_in(ram, root, db, new_rsp, f.rsp - new_rsp, 1) is Err {
                (ram, f, false)
            } else {
                let (written, all) = user_written(
                    ram,
                    root,
                    new_rsp,
                    exception_frame(f, code, info, n),
                );
                if all {
                    (
                        written,
                        KtrapFrame {
                            rcx: (ctx + CTX_SIZE) as u64,
                            rdx: ctx,
                            rip: stub,
                            rsp: new_rsp,
                            ..f
                        },
                        true,
                    )
                } else {
                    (written, f, false)
                }
            }
        },
        None => (ram, f, false),
    }
}

/// What became of an exception handed to a user thread.
#[derive(Debug, Clone, Copy, PartialEq, Eq)]
pub enum Delivery {
    /// The trap returns to the program's dispatcher.
    Taken,
    /// The program cannot take it.
    Refused,
    /// A page of the stack has to be read from disk first.
    Read(ReadBack),
}

/// Everything that handing an exception to a user thread leaves behind.
pub struct Delivered {
    pub phys: PhysState,
    pub pf: PageFileState,
    /// Pages that must be evicted.
    pub victims: Seq<(u64, u64)>,
    pub frame: KtrapFrame,
    pub delivery: Delivery,
}

/// Handing an exception to a user thread: the pages of the stack that the frame goes to
/// are brought in, then the frame is written.
pub open spec fn dispatched(
    st: PhysState,
    pf: PageFileState,
    root: u64,
    db: &VadDatabase,
    f: KtrapFrame,
    stub: u64,
    code: u32,
    info: Seq<u64>,
    n: int,
) -> Delivered {
    let refused = Delivered {
        phys: st,
        pf,
        victims: Seq::empty(),
        frame: f,
        delivery: Delivery::Refused,
    };
    match context_at(f.rsp) {
        None => refused,
        Some(ctx) => {
            let new_rsp = (ctx - 8) as u64;
            if stub == 0 || probed_in(st.ram, root, db, new_rsp, f.rsp - new_rsp, 1) is Err {
                refused
            } else {
                let b = buffer_brought_in(db.of(root), st, pf, root, new_rsp, f.rsp - new_rsp);
                match b.pending {
                    Some(p) => Delivered {
                        phys: b.phys,
                        pf: b.pf,
                        victims: b.victims,
                        frame: f,
                        delivery: Delivery::Read(p),
                    },
                    None => {
                        let (ram, g, ok) = dispatched_in(
                            b.phys.ram,
                            root,
                            db,
                            f,
                            stub,
                            code,
                            info,
                            n,
                        );
                        Delivered {
                            phys: PhysState { ram, ..b.phys },
                            pf: b.pf,
                            victims: b.victims,
                            frame: g,
                            delivery: if ok {
                                Delivery::Taken
                            } else {
                                Delivery::Refused
                            },
                        }
                    },
                }
            }
        },
    }
}

/// Write the frame of an exception to the user stack and turn the trap to `stub`.
fn write_frame(
    mmu: &mut Mmu,
    db: &VadDatabase,
    frame: &mut KtrapFrame,
    stub: u64,
    code: u32,
    info: [u64; 2],
    nparams: u32,
) -> (delivered: bool)
    requires
        db.wf(),
        old(mmu).phys.wf(),
    ensures
        final(mmu).phys.wf(),
        final(mmu).same_registers(old(mmu)),
        ({
            let (ram, f, ok) = dispatched_in(
                old(mmu).ram(),
                old(mmu).root(),
                db,
                *old(frame),
                stub,
                code,
                info@,
                nparams as int,
            );
            &&& final(mmu).phys@ == (PhysState { ram, ..old(mmu).phys@ })
            &&& *final(frame) == f
            &&& delivered == ok
        }),
{
    proof {
        lemma_small_powers();
    }
    assert(mmu.phys@ =~= PhysState { ram: mmu.phys@.ram, ..mmu.phys@ });
    if stub == 0 {
        return false;
    }
    let rsp: u64 = frame.rsp;
    if rsp < FRAME_SIZE as u64 {
        return false;
    }
    let ctx: u64 = (rsp - FRAME_SIZE as u64) / 16 * 16;
    if ctx < 0x1_0008 {
        return false;
    }
    let new_rsp: u64 = ctx - 8;
    let span: usize = (rsp - new_rsp) as usize;
    if probe_for_write(mmu, db, new_rsp, span, 1).is_err() {
        return false;
    }
    let image: Vec<u8> = build_frame(frame, code, info, nparams);
    if !write_user(mmu, new_rsp, &image) {
        return false;
    }
    frame.rcx = ctx + CTX_SIZE as u64;
    frame.rdx = ctx;
    frame.rip = stub;
    frame.rsp = new_rsp;
    true
}

/// Deliver an exception to the faulting user thread: on success the trap returns
/// to the dispatcher `stub` with the record in RCX and the context in RDX. It
/// fails when no dispatcher is installed or the user stack cannot hold the frame.
/// Committed pages of the stack that are not there are brought in; those to evict for
/// them are added to `victims`.
pub fn dispatch_exception(
    mmu: &mut Mmu,
    db: &VadDatabase,
    pf: &mut PageFile,
    frame: &mut KtrapFrame,
    stub: u64,
    code: u32,
    info: [u64; 2],
    nparams: u32,
    victims: &mut Vec<(u64, u64)>,
) -> (r: Delivery)
    requires
        db.wf(),
        old(mmu).phys.wf(),
        old(pf).wf(),
    ensures
        final(mmu).phys.wf(),
        final(pf).wf(),
        final(mmu).same_registers(old(mmu)),
        ({
            let o = dispatched(
                old(mmu).phys@,
                old(pf)@,
                old(mmu).root(),
                db,
                *old(frame),
                stub,
                code,
                info@,
                nparams as int,
            );
            &&& final(mmu).phys@ == o.phys
            &&& final(pf)@ == o.pf
            &&& final(victims)@ == old(victims)@ + o.victims
            &&& *final(frame) == o.frame
            &&& r == o.delivery
        }),
{
    proof {
        lemma_small_powers();
    }
    assert(victims@ =~= old(victims)@ + Seq::empty());
    let rsp: u64 = frame.rsp;
    if stub == 0 || rsp < FRAME_SIZE as u64 {
        return Delivery::Refused;
    }
    let ctx: u64 = (rsp - FRAME_SIZE as u64) / 16 * 16;
    if ctx < 0x1_0008 {
        return Delivery::Refused;
    }
    let new_rsp: u64 = ctx - 8;
    let span: usize = (rsp - new_rsp) as usize;
    if probe_for_write(mmu, db, new_rsp, span, 1).is_err() {
        return Delivery::Refused;
    }
    if let Some(p) = make_resident(db, mmu, pf, new_rsp, span, victims) {
        return Delivery::Read(p);
    }
    if write_frame(mmu, db, frame, stub, code, info, nparams) {
        Delivery::Taken
    } else {
        Delivery::Refused
    }
}

/// The register state in a context. Segments and flags are forced: a context
/// cannot raise a thread's privilege.
pub open spec fn resumed(c: Seq<u8>) -> UserResume {
    UserResume {
        rax: get64(c, 0x78) as u64,
        rcx: get64(c, 0x80) as u64,
        rdx: get64(c, 0x88) as u64,
        rbx: get64(c, 0x90) as u64,
        rsp: get64(c, 0x98) as u64,
        rbp: get64(c, 0xA0) as u64,
        rsi: get64(c, 0xA8) as u64,
        rdi: get64(c, 0xB0) as u64,
        r8: get64(c, 0xB8) as u64,
        r9: get64(c, 0xC0) as u64,
        r10: get64(c, 0xC8) as u64,
        r11: get64(c, 0xD0) as u64,
        r12: get64(c, 0xD8) as u64,
        r13: get64(c, 0xE0) as u64,
        r14: get64(c, 0xE8) as u64,
        r15: get64(c, 0xF0) as u64,
        rip: get64(c, 0xF8) as u64,
        cs: USER_CS,
        rflags: ((get32(c, 0x44) as u64) & RFLAGS_USER_MASK) | RFLAGS_FORCED,
        ss: USER_SS,
    }
}

/// A context may be resumed: its instruction pointer is readable by the user and
/// its stack can be pushed to.
pub open spec fn resumable(mmu: &Mmu, db: &VadDatabase, r: UserResume) -> bool {
    &&& r.rip != 0
    &&& probed(mmu, db, r.rip, 1, 1) is Ok
    &&& r.rsp >= 0x1_0000
    &&& probed(mmu, db, (r.rsp - 8) as u64, 8, 8) is Ok
}

/// What continuing at the context at `ctx_va` comes to.
pub open spec fn continued(mmu: &Mmu, db: &VadDatabase, ctx_va: u64) -> Result<
    UserResume,
    NtStatus,
> {
    let bad = Err::<UserResume, NtStatus>(NtStatus(NtStatus::ACCESS_VIOLATION));
    if probed(mmu, db, ctx_va, CTX_SIZE as int, 16) is Err {
        bad
    } else {
        match user_bytes(mmu.ram(), mmu.root(), ctx_va, CTX_SIZE as int) {
            None => bad,
            Some(c) => if resumable(mmu, db, resumed(c)) {
                Ok(resumed(c))
            } else {
                bad
            },
        }
    }
}

fn word(b: &Vec<u8>, o: u64) -> (v: u64)
    requires
        o + 8 <= b@.len(),
    ensures
        v == get64(b@, o as int) as u64,
{
    match u64le(b, o) {
        Some(v) => v,
        None => 0,
    }
}

/// `NtContinue`: the state to resume the calling thread with, or why its context
/// is rejected.
pub fn nt_continue(mmu: &Mmu, db: &VadDatabase, ctx_va: u64) -> (r: Result<UserResume, NtStatus>)
    requires
        db.wf(),
    ensures
        r == continued(mmu, db, ctx_va),
{
    proof {
        lemma_small_powers();
    }
    if probe_for_read(mmu, db, ctx_va, CTX_SIZE, 16).is_err() {
        return Err(NtStatus(NtStatus::ACCESS_VIOLATION));
    }
    let c: Vec<u8> = match read_user(mmu, ctx_va, CTX_SIZE) {
        Some(c) => c,
        None => {
            return Err(NtStatus(NtStatus::ACCESS_VIOLATION));
        },
    };
    let eflags: u32 = match u32le(&c, 0x44) {
        Some(v) => v,
        None => 0,
    };
    let resume = UserResume {
        rax: word(&c, 0x78),
        rcx: word(&c, 0x80),
        rdx: word(&c, 0x88),
        rbx: word(&c, 0x90),
        rsp: word(&c, 0x98),
        rbp: word(&c, 0xA0),
        rsi: word(&c, 0xA8),
        rdi: word(&c, 0xB0),
        r8: word(&c, 0xB8),
        r9: word(&c, 0xC0),
        r10: word(&c, 0xC8),
        r11: word(&c, 0xD0),
        r12: word(&c, 0xD8),
        r13: word(&c, 0xE0),
        r14: word(&c, 0xE8),
        r15: word(&c, 0xF0),
        rip: word(&c, 0xF8),
        cs: USER_CS,
        rflags: (eflags as u64 & RFLAGS_USER_MASK) | RFLAGS_FORCED,
        ss: USER_SS,
    };
    if resume.rip == 0 || probe_for_read(mmu, db, resume.rip, 1, 1).is_err() || resume.rsp
        < 0x1_0000 || probe_for_write(mmu, db, resume.rsp - 8, 8, 8).is_err() {
        return Err(NtStatus(NtStatus::ACCESS_VIOLATION));
    }
    Ok(resume)
}

// ---------------------------------------------------------------------------
// Laws
// ---------------------------------------------------------------------------
proof fn lemma_flag_bits(e: u64)
    by (bit_vector)
    ensures
        ((e & RFLAGS_USER_MASK) | RFLAGS_FORCED) & 0x200 != 0,
        ((e & RFLAGS_USER_MASK) | RFLAGS_FORCED) & 0x3000 == 0,
        ((e & RFLAGS_USER_MASK) | RFLAGS_FORCED) <= 0xFFF,
{
}

/// Whatever a context holds, the thread resumes in user mode with interrupts on,
/// no I/O privilege and no system flag.
pub proof fn a_context_cannot_raise_privilege(c: Seq<u8>)
    ensures
        resumed(c).cs % 4 == 3,
        resumed(c).ss % 4 == 3,
        interrupts_on(resumed(c).rflags),
        resumed(c).rflags & 0x3000 == 0,
        resumed(c).rflags <= 0xFFF,
{
    lemma_flag_bits(get32(c, 0x44) as u64);
}

/// The state a trap frame resumes with when its context is continued unchanged.
pub open spec fn resume_of(f: KtrapFrame) -> UserResume {
    UserResume {
        rax: f.rax,
        rbx: f.rbx,
        rcx: f.rcx,
        rdx: f.rdx,
        rbp: f.rbp,
        rsi: f.rsi,
        rdi: f.rdi,
        r8: f.r8,
        r9: f.r9,
        r10: f.r10,
        r11: f.r11,
        r12: f.r12,
        r13: f.r13,
        r14: f.r14,
        r15: f.r15,
        rip: f.rip,
        cs: USER_CS,
        rflags: ((f.rflags % 0x1_0000_0000) & RFLAGS_USER_MASK) | RFLAGS_FORCED,
        rsp: f.rsp,
        ss: USER_SS,
    }
}

proof fn lemma_fields(f: KtrapFrame, info: Seq<u64>)
    ensures
        spread(frame_fields(f, info), 0x80, 0x508),
        frame_fields(f, info).len() == 20,
{
    reveal(frame_fields);
}

proof fn lemma_narrow(b: Seq<u8>, f: KtrapFrame, code: u32, n: int)
    requires
        b.len() == FRAME_SIZE,
    ensures
        narrow_fields(b, f, code, n).len() == FRAME_SIZE,
        get32(narrow_fields(b, f, code, n), 0x4C) == f.rflags % 0x1_0000_0000,
{
    reveal(narrow_fields);
    let e = (f.rflags % 0x1_0000_0000) as u32;
    let c = set16(
        set16(
            set32(set32(b, 0x38, CONTEXT_FLAGS_VALUE), 0x3C, DEFAULT_MXCSR),
            0x40,
            (f.cs % 0x1_0000) as u16,
        ),
        0x4A,
        (f.ss % 0x1_0000) as u16,
    );
    let s = set32(c, 0x4C, e);
    lemma_get_put32(c, 0x4C, e);
    let r = narrow_fields(b, f, code, n);
    assert(bytes32(code).len() == 4 && bytes32(n as u32).len() == 4);
    assert(r[0x4C] == s[0x4C] && r[0x4D] == s[0x4D] && r[0x4E] == s[0x4E] && r[0x4F] == s[0x4F]);
}

proof fn lemma_field_in_context(s: Seq<u8>, fields: Seq<Field>, k: int)
    requires
        s.len() == FRAME_SIZE,
        hold_all(s, fields),
        0 <= k < fields.len(),
        CTX_AT <= fields[k].at,
        fields[k].at + 8 <= CTX_AT + CTX_SIZE,
    ensures
        get64(s.subrange(CTX_AT as int, CTX_AT + CTX_SIZE), fields[k].at - CTX_AT)
            == fields[k].value,
{
    reveal(hold_all);
    let o = fields[k].at as int;
    assert(holds64(s, o, fields[k].value));
    let c = s.subrange(CTX_AT as int, CTX_AT + CTX_SIZE);
    assert(forall|j: int| 0 <= j < 8 ==> c[o - CTX_AT + j] == #[trigger] s[o + j]);
    assert(c[o - CTX_AT] == s[o] && c[o - CTX_AT + 1] == s[o + 1] && c[o - CTX_AT + 2] == s[o + 2]
        && c[o - CTX_AT + 3] == s[o + 3] && c[o - CTX_AT + 4] == s[o + 4] && c[o - CTX_AT + 5]
        == s[o + 5] && c[o - CTX_AT + 6] == s[o + 6] && c[o - CTX_AT + 7] == s[o + 7]);
}

/// Continuing at a delivered context that no handler has changed resumes the
/// thread where it was interrupted, with every register as it was; of the flags,
/// those that a user context may carry.
pub proof fn an_unchanged_context_resumes_where_it_was(
    f: KtrapFrame,
    code: u32,
    info: Seq<u64>,
    n: int,
)
    ensures
        resumed(
            exception_frame(f, code, info, n).subrange(CTX_AT as int, CTX_AT + CTX_SIZE),
        ) == resume_of(f),
{
    let b = narrow_fields(zeros(FRAME_SIZE as int), f, code, n);
    let fields = frame_fields(f, info);
    let s = exception_frame(f, code, info, n);
    let c = s.subrange(CTX_AT as int, CTX_AT + CTX_SIZE);
    lemma_narrow(zeros(FRAME_SIZE as int), f, code, n);
    lemma_fields(f, info);
    fields_read_back(b, fields, 0x80, 0x508);
    assert(s[0x4C] == b[0x4C] && s[0x4D] == b[0x4D] && s[0x4E] == b[0x4E] && s[0x4F] == b[0x4F]);
    assert(c[0x44] == s[0x4C] && c[0x45] == s[0x4D] && c[0x46] == s[0x4E] && c[0x47] == s[0x4F]);
    assert(get32(c, 0x44) == get32(b, 0x4C));
    reveal(frame_fields);
    assert forall|k: int| 0 <= k < 17 implies get64(c, (#[trigger] fields[k]).at - CTX_AT)
        == fields[k].value by {
        lemma_field_in_context(s, fields, k);
    }
    assert(fields[0].at - CTX_AT == 0x78);
    assert(fields[1].at - CTX_AT == 0x80);
    assert(fields[2].at - CTX_AT == 0x88);
    assert(fields[3].at - CTX_AT == 0x90);
    assert(fields[4].at - CTX_AT == 0x98);
    assert(fields[5].at - CTX_AT == 0xA0);
    assert(fields[6].at - CTX_AT == 0xA8);
    assert(fields[7].at - CTX_AT == 0xB0);
    assert(fields[8].at - CTX_AT == 0xB8);
    assert(fields[9].at - CTX_AT == 0xC0);
    assert(fields[10].at - CTX_AT == 0xC8);
    assert(fields[11].at - CTX_AT == 0xD0);
    assert(fields[12].at - CTX_AT == 0xD8);
    assert(fields[13].at - CTX_AT == 0xE0);
    assert(fields[14].at - CTX_AT == 0xE8);
    assert(fields[15].at - CTX_AT == 0xF0);
    assert(fields[16].at - CTX_AT == 0xF8);
}

/// The frame lies below the old stack pointer, with the dispatcher entered eight
/// off a multiple of sixteen.
pub proof fn the_frame_is_below_the_stack(rsp: u64)
    ensures
        context_at(rsp) matches Some(ctx) ==> {
            &&& ctx % 16 == 0
            &&& (ctx - 8) % 16 == 8
            &&& ctx + CTX_SIZE + REC_SIZE <= rsp
            &&& ctx - 8 + FRAME_SIZE == ctx + CTX_SIZE + REC_SIZE
        },
{
}

/// A page fault tells its handler what was tried and where: the first parameter is 8 when
/// the fetch bit of the error code is set, 1 when the write bit is set and the fetch bit
/// is not, 0 when neither is; the second is the address.
pub proof fn a_page_fault_tells_reads_writes_and_fetches_apart(error_code: u64, cr2: u64)
    ensures
        coded(14, error_code, cr2) matches Some((code, info, n)) && {
            &&& code == 0xC000_0005
            &&& n == 2
            &&& info.len() == 2
            &&& info[1] == cr2
            &&& error_code & 0x10 != 0 ==> info[0] == 8
            &&& error_code & 0x10 == 0 && error_code & 2 != 0 ==> info[0] == 1
            &&& error_code & 0x10 == 0 && error_code & 2 == 0 ==> info[0] == 0
        },
{
}

/// Two page faults that differ in what was tried are told apart by their first parameter.
pub proof fn different_accesses_are_reported_differently(a: u64, b: u64, cr2: u64)
    requires
        (a & 0x10 != 0) != (b & 0x10 != 0) || (a & 0x10 == 0 && (a & 2 != 0) != (b & 2 != 0)),
    ensures
        coded(14, a, cr2)->Some_0.1[0] != coded(14, b, cr2)->Some_0.1[0],
{
}

/// Every other fault has its code and no parameters: division by zero, overflow, an illegal
/// instruction, a stack fault; anything else is an access violation. A non-maskable
/// interrupt and a double fault are not for programs.
pub proof fn a_fault_has_its_code(vector: u8, error_code: u64, cr2: u64)
    ensures
        (vector == 2 || vector == 8) == (coded(vector, error_code, cr2) is None),
        vector != 2 && vector != 8 ==> {
            let (code, info, n) = coded(vector, error_code, cr2)->Some_0;
            &&& info.len() == 2
            &&& vector == 0 ==> code == 0xC000_0094
            &&& vector == 4 ==> code == 0xC000_0095
            &&& vector == 6 ==> code == 0xC000_001D
            &&& vector == 12 ==> code == 0xC000_00FD
            &&& vector != 0 && vector != 4 && vector != 6 && vector != 12 ==> code == 0xC000_0005
            &&& vector != 14 ==> n == 0 && info[0] == 0 && info[1] == 0
        },
{
}

proof fn lemma_record_fields(b: Seq<u8>, f: KtrapFrame, code: u32, n: int)
    requires
        b.len() == FRAME_SIZE,
        0 <= n <= u32::MAX,
    ensures
        narrow_fields(b, f, code, n).len() == FRAME_SIZE,
        get32(narrow_fields(b, f, code, n), 0x4D8) == code,
        get32(narrow_fields(b, f, code, n), 0x4F0) == n,
        get32(narrow_fields(b, f, code, n), 0x38) == 0x10_0007,
        get32(narrow_fields(b, f, code, n), 0x3C) == 0x1F80,
        get16(narrow_fields(b, f, code, n), 0x40) == f.cs % 0x1_0000,
        get16(narrow_fields(b, f, code, n), 0x4A) == f.ss % 0x1_0000,
{
    reveal(narrow_fields);
    let cs = (f.cs % 0x1_0000) as u16;
    let ss = (f.ss % 0x1_0000) as u16;
    let b1 = set32(b, 0x38, CONTEXT_FLAGS_VALUE);
    let b2 = set32(b1, 0x3C, DEFAULT_MXCSR);
    let b3 = set16(b2, 0x40, cs);
    let b4 = set16(b3, 0x4A, ss);
    let b5 = set32(b4, 0x4C, (f.rflags % 0x1_0000_0000) as u32);
    let b6 = set32(b5, 0x4D8, code);
    let r = set32(b6, 0x4F0, n as u32);
    assert(r == narrow_fields(b, f, code, n));
    lemma_get_put32(b, 0x38, CONTEXT_FLAGS_VALUE);
    lemma_get_put32(b1, 0x3C, DEFAULT_MXCSR);
    lemma_get_put32(b5, 0x4D8, code);
    lemma_get_put32(b6, 0x4F0, n as u32);
    assert(r[0x4D8] == b6[0x4D8] && r[0x4D9] == b6[0x4D9] && r[0x4DA] == b6[0x4DA] && r[0x4DB]
        == b6[0x4DB]);
    assert(r[0x38] == b1[0x38] && r[0x39] == b1[0x39] && r[0x3A] == b1[0x3A] && r[0x3B]
        == b1[0x3B]);
    assert(r[0x3C] == b2[0x3C] && r[0x3D] == b2[0x3D] && r[0x3E] == b2[0x3E] && r[0x3F]
        == b2[0x3F]);
    crate::bytes::lemma_bytes16(cs);
    crate::bytes::lemma_bytes16(ss);
    assert(b3[0x40] == bytes16(cs)[0] && b3[0x41] == bytes16(cs)[1]);
    assert(r[0x40] == b3[0x40] && r[0x41] == b3[0x41]);
    assert(b4[0x4A] == bytes16(ss)[0] && b4[0x4B] == bytes16(ss)[1]);
    assert(r[0x4A] == b4[0x4A] && r[0x4B] == b4[0x4B]);
}

proof fn lemma_between(f: KtrapFrame, info: Seq<u64>, b: Seq<u8>, o: int)
    requires
        b.len() == FRAME_SIZE,
        0 <= o,
        o + 4 <= 0x80 || (0x108 <= o && o + 4 <= 0x4E8) || o == 0x4F0,
    ensures
        set_fields(b, frame_fields(f, info)).len() == FRAME_SIZE,
        get32(set_fields(b, frame_fields(f, info)), o) == get32(b, o),
        get16(set_fields(b, frame_fields(f, info)), o) == get16(b, o),
{
    let fields = frame_fields(f, info);
    reveal(frame_fields);
    assert forall|i: int| o <= i < o + 4 implies set_fields(b, fields)[i] == b[i] && set_fields(
        b,
        fields,
    ).len() == b.len() by {
        assert(clear_of(fields, i, i + 1));
        bytes_between_fields_stay(b, fields, i);
    }
    assert(set_fields(b, fields)[o] == b[o] && set_fields(b, fields)[o + 1] == b[o + 1]
        && set_fields(b, fields)[o + 2] == b[o + 2] && set_fields(b, fields)[o + 3] == b[o + 3]);
}

/// The record of an exception stands behind its context: the code, the address of the
/// instruction, the number of parameters and the parameters at their places.
pub proof fn the_record_tells_what_happened(f: KtrapFrame, code: u32, info: Seq<u64>, n: int)
    requires
        0 <= n <= u32::MAX,
    ensures
        ({
            let b = exception_frame(f, code, info, n);
            &&& b.len() == 0x570
            &&& get32(b, 0x4D8) == code
            &&& get64(b, 0x4E8) == f.rip
            &&& get32(b, 0x4F0) == n
            &&& get64(b, 0x4F8) == info[0]
            &&& get64(b, 0x500) == info[1]
        }),
{
    let z = zeros(FRAME_SIZE as int);
    let b = narrow_fields(z, f, code, n);
    let fields = frame_fields(f, info);
    lemma_record_fields(z, f, code, n);
    lemma_fields(f, info);
    fields_read_back(b, fields, 0x80, 0x508);
    lemma_between(f, info, b, 0x4D8);
    lemma_between(f, info, b, 0x4F0);
    reveal(hold_all);
    reveal(frame_fields);
    assert(holds64(exception_frame(f, code, info, n), fields[17].at as int, fields[17].value));
    assert(holds64(exception_frame(f, code, info, n), fields[18].at as int, fields[18].value));
    assert(holds64(exception_frame(f, code, info, n), fields[19].at as int, fields[19].value));
}

/// The context of an exception has the layout that AMD64 programs know: every register of
/// the interrupted computation at its place.
pub proof fn the_context_holds_every_register(f: KtrapFrame, code: u32, info: Seq<u64>, n: int)
    requires
        0 <= n <= u32::MAX,
    ensures
        ({
            let c = exception_frame(f, code, info, n).subrange(8, 0x4D8);
            &&& get32(c, 0x30) == 0x10_0007
            &&& get32(c, 0x34) == 0x1F80
            &&& get16(c, 0x38) == f.cs % 0x1_0000
            &&& get16(c, 0x42) == f.ss % 0x1_0000
            &&& get32(c, 0x44) == f.rflags % 0x1_0000_0000
            &&& get64(c, 0x78) == f.rax
            &&& get64(c, 0x80) == f.rcx
            &&& get64(c, 0x88) == f.rdx
            &&& get64(c, 0x90) == f.rbx
            &&& get64(c, 0x98) == f.rsp
            &&& get64(c, 0xA0) == f.rbp
            &&& get64(c, 0xA8) == f.rsi
            &&& get64(c, 0xB0) == f.rdi
            &&& get64(c, 0xB8) == f.r8
            &&& get64(c, 0xC0) == f.r9
            &&& get64(c, 0xC8) == f.r10
            &&& get64(c, 0xD0) == f.r11
            &&& get64(c, 0xD8) == f.r12
            &&& get64(c, 0xE0) == f.r13
            &&& get64(c, 0xE8) == f.r14
            &&& get64(c, 0xF0) == f.r15
            &&& get64(c, 0xF8) == f.rip
        }),
{
    let z = zeros(FRAME_SIZE as int);
    let b = narrow_fields(z, f, code, n);
    let fields = frame_fields(f, info);
    let s = exception_frame(f, code, info, n);
    let c = s.subrange(8, 0x4D8);
    lemma_record_fields(z, f, code, n);
    lemma_narrow(z, f, code, n);
    lemma_fields(f, info);
    fields_read_back(b, fields, 0x80, 0x508);
    lemma_between(f, info, b, 0x38);
    lemma_between(f, info, b, 0x3C);
    lemma_between(f, info, b, 0x40);
    lemma_between(f, info, b, 0x4A);
    lemma_between(f, info, b, 0x4C);
    assert(forall|i: int| 0 <= i < 0x4D0 ==> #[trigger] c[i] == s[i + 8]);
    assert(get32(c, 0x30) == get32(s, 0x38));
    assert(get32(c, 0x34) == get32(s, 0x3C));
    assert(get16(c, 0x38) == get16(s, 0x40));
    assert(get16(c, 0x42) == get16(s, 0x4A));
    assert(get32(c, 0x44) == get32(s, 0x4C));
    reveal(frame_fields);
    assert forall|k: int| 0 <= k < 17 implies get64(c, (#[trigger] fields[k]).at - 8)
        == fields[k].value by {
        lemma_field_in_context(s, fields, k);
    }
    assert(fields[0].at == 0x80 && fields[1].at == 0x88 && fields[2].at == 0x90 && fields[3].at
        == 0x98);
    assert(fields[4].at == 0xA0 && fields[5].at == 0xA8 && fields[6].at == 0xB0 && fields[7].at
        == 0xB8);
    assert(fields[8].at == 0xC0 && fields[9].at == 0xC8 && fields[10].at == 0xD0 && fields[11].at
        == 0xD8);
    assert(fields[12].at == 0xE0 && fields[13].at == 0xE8 && fields[14].at == 0xF0 && fields[15].at
        == 0xF8);
    assert(fields[16].at == 0x100);
}

proof fn lemma_user_flags(e: u64)
    by (bit_vector)
    ensures
        ((e & RFLAGS_USER_MASK) | RFLAGS_FORCED) & 0x0DD5 == e & 0x0DD5,
        ((e & RFLAGS_USER_MASK) | RFLAGS_FORCED) & 0x202 == 0x202,
        ((e & RFLAGS_USER_MASK) | RFLAGS_FORCED) & !0x0FD7u64 == 0,
{
}

/// A continued context gives back the flags that a program may set (0x0DD5: carry to
/// overflow, trap and direction among them), with bit 1 and the interrupt flag on and
/// nothing else.
pub proof fn a_context_keeps_the_user_flags(c: Seq<u8>)
    ensures
        resumed(c).rflags & 0x0DD5 == (get32(c, 0x44) as u64) & 0x0DD5,
        resumed(c).rflags & 0x202 == 0x202,
        resumed(c).rflags & !0x0FD7u64 == 0,
{
    lemma_user_flags(get32(c, 0x44) as u64);
}

/// A delivered exception enters the dispatcher with the record in RCX and the context in
/// RDX, below everything the program has on its stack; no other register changes. A
/// refused one changes no register.
pub proof fn a_delivered_exception_enters_the_dispatcher(
    ram: Seq<u8>,
    root: u64,
    db: &VadDatabase,
    f: KtrapFrame,
    stub: u64,
    code: u32,
    info: Seq<u64>,
    n: int,
)
    ensures
        ({
            let (ram1, g, ok) = dispatched_in(ram, root, db, f, stub, code, info, n);
            if ok {
                &&& stub != 0
                &&& g.rip == stub
                &&& g.rdx == g.rsp + 8
                &&& g.rcx == g.rsp + 8 + 0x4D0
                &&& g.rcx + 0x98 <= f.rsp
                &&& g.rsp % 16 == 8
                &&& g.rsp >= 0x1_0000
                &&& f.rsp - g.rsp < 0x570 + 24
                &&& g == (KtrapFrame { rip: g.rip, rcx: g.rcx, rdx: g.rdx, rsp: g.rsp, ..f })
            } else {
                g == f
            }
        }),
{
}

/// Without a dispatcher, or without room on the stack, nothing is delivered and nothing is
/// written.
pub proof fn a_program_without_a_dispatcher_gets_nothing(
    ram: Seq<u8>,
    root: u64,
    db: &VadDatabase,
    f: KtrapFrame,
    stub: u64,
    code: u32,
    info: Seq<u64>,
    n: int,
)
    requires
        stub == 0 || f.rsp < 0x1_0000 + 0x570,
    ensures
        dispatched_in(ram, root, db, f, stub, code, info, n) == (ram, f, false),
{
}

/// A context is refused that would resume at address 0 or with its stack in the lowest
/// 64 KiB.
pub proof fn a_context_without_code_or_stack_is_refused(mmu: &Mmu, db: &VadDatabase, ctx_va: u64)
    ensures
        continued(mmu, db, ctx_va) matches Ok(r) ==> r.rip != 0 && r.rsp >= 0x1_0000 && r.cs % 4
            == 3,
        continued(mmu, db, ctx_va) matches Err(e) ==> e == NtStatus(0xC000_0005),
{
}

} // verus!
