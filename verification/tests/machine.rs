//! Descriptor tables, traps, exceptions, tracing and processors.
use kernel::ke::bugcheck::{
    ke_bug_check, ke_bug_check_ex, ke_bug_check_panic, stop_code_name, Stop, StopAction,
    KMODE_EXCEPTION_NOT_HANDLED, MANUALLY_INITIATED_CRASH, PAGE_FAULT_IN_NONPAGED_AREA, RUST_PANIC,
};
use kernel::ke::debug::{
    add_module, arm, on_breakpoint, on_single_step, take_armed, DebugRegisters, DebugState,
    TraceEvent,
};
use kernel::ke::exception::{
    dispatch_exception, exception_code_for, nt_continue, CTX_AT, FRAME_SIZE, REC_AT,
    STATUS_ACCESS_VIOLATION, STATUS_INTEGER_DIVIDE_BY_ZERO, Delivery,
};
use kernel::ke::fault::{ki_handle_fault, ki_user_exception, FaultAction};
use kernel::ke::gdt::{build_tables, gdtr, set_kernel_stack, Tss64};
use kernel::ke::idt::{idtr, init as init_idt};
use kernel::ke::irql::{Processor, DISPATCH_LEVEL, HIGH_LEVEL, PASSIVE_LEVEL};
use kernel::ke::pcr::{
    ke_get_current_thread, ke_get_prcb, msr_halves, msr_value, set_syscall_kernel_stack, Kpcr,
};
use kernel::ke::scheduler::Dispatcher;
use kernel::ke::smp::{
    build_transition_tables, init as init_processors, online_count, own_slot, processor_count,
    report_online, slot, start_processor, trampoline_page, ApStart, Processors, PATCH_CR3,
    PATCH_ENTRY, PATCH_STACK,
};
use kernel::ke::syscall::{init as init_fast_call, ServiceTable, STATUS_INVALID_SYSTEM_SERVICE};
use kernel::ke::thread::{FaultRecovery, Kthread};
use kernel::ke::traps::{has_error_code, ki_dispatch_trap, KtrapFrame, TrapAction};
use kernel::ke::usermode::{ki_continue_user_mode, ki_enter_user_mode};
use kernel::mm::pageout::{
    evict_begin, evict_finish, init as init_page_file, page_in_finish, PageFile,
};
use kernel::mm::phys::{
    init as init_memory, mm_allocate_contiguous_pages, mm_allocate_page, MemoryRegion,
    PhysicalMemory,
};
use kernel::mm::probe::{arm as arm_recovery, disarm, land, take_recovery};
use kernel::mm::resident::make_resident;
use kernel::mm::user::read_user;
use kernel::mm::vad::{vad_allocate, VadDatabase};
use kernel::mm::virt::{mm_map_user_range, page_present_and_user, Mmu};
use kernel::mm::{PhysAddr, PhysWindow};
use kernel::rtl::NtStatus;

fn frame(vector: u64, user: bool) -> KtrapFrame {
    KtrapFrame {
        rax: 1, rcx: 2, rdx: 3, rbx: 4, rbp: 5, rsi: 6, rdi: 7, r8: 8, r9: 9, r10: 10, r11: 11,
        r12: 12, r13: 13, r14: 14, r15: 15,
        vector,
        error_code: 0x77,
        rip: 0x40_1000,
        cs: if user { 0x33 } else { 0x10 },
        rflags: 0x202,
        rsp: 0x50_1FF0,
        ss: if user { 0x2B } else { 0x18 },
    }
}

fn system() -> Dispatcher {
    Dispatcher::ki_initialize(Kthread::new(0, 0x10_0000, 0x4000, 0))
}

/// A machine with two user pages of stack at 0x50_0000 and two of code at 0x40_0000.
fn machine() -> Mmu {
    let mut phys = PhysicalMemory::new(vec![0u8; 0x40_0000]);
    init_memory(&mut phys, &[MemoryRegion { start: 0, end: 0x40_0000, usable: true }]);
    let root = mm_allocate_page(&mut phys).unwrap();
    let pa = mm_allocate_contiguous_pages(&mut phys, 2).unwrap();
    assert!(mm_map_user_range(&mut phys, root, 0x50_0000, pa, 2, true, false));
    let code = mm_allocate_contiguous_pages(&mut phys, 2).unwrap();
    assert!(mm_map_user_range(&mut phys, root, 0x40_0000, code, 2, false, true));
    Mmu {
        phys,
        window: PhysWindow { offset: 0xFFFF_F000_0000_0000 },
        cr3: root.0,
        kernel_pml4: root.0,
        smap_on: false,
    }
}

#[test]
fn descriptors_lie_at_their_selectors() {
    let base = 0xFFFF_8000_1234_5678u64;
    let g = build_tables(base);
    assert_eq!(g.len(), 10);
    assert_eq!(g[0], 0);
    // Present, code, long mode; the user's have privilege level 3.
    assert_eq!((g[2] >> 40) & 0xFF, 0x9A);
    assert_eq!((g[2] >> 53) & 1, 1);
    assert_eq!((g[6] >> 45) & 3, 3);
    assert_eq!((g[5] >> 45) & 3, 3);
    let tss_base = (g[8] >> 16 & 0xFF_FFFF) | (g[8] >> 56 << 24) | (g[9] << 32);
    assert_eq!(tss_base, base);
    assert_eq!(g[8] & 0xFFFF, 103);
    assert_eq!(gdtr(0x5000), (0x5000, 79));
}

#[test]
fn the_task_segment_holds_its_stacks() {
    let mut t = Tss64::new(0x1000, 0x2000, 0x3000, 0x4000);
    set_kernel_stack(&mut t, 0x9999);
    let b = t.image();
    assert_eq!(b.len(), 104);
    assert_eq!(b[4..12], 0x9999u64.to_le_bytes());
    assert_eq!(b[36..44], 0x2000u64.to_le_bytes());
    assert_eq!(b[44..52], 0x3000u64.to_le_bytes());
    assert_eq!(b[52..60], 0x4000u64.to_le_bytes());
    assert_eq!(b[102..104], 104u16.to_le_bytes());
}

#[test]
fn every_vector_has_a_handler() {
    let stubs = 0xFFFF_8000_0010_0000u64;
    let idt = init_idt(stubs);
    assert_eq!(idt.len(), 256);
    for (v, g) in idt.iter().enumerate() {
        let h = g.offset_low as u64 | (g.offset_mid as u64) << 16 | (g.offset_high as u64) << 32;
        assert_eq!(h, stubs + v as u64 * 16);
        assert_eq!(g.selector, 0x10);
        assert_eq!(g.type_attr, 0x8E);
    }
    assert_eq!((idt[8].ist, idt[2].ist, idt[18].ist, idt[14].ist), (1, 2, 3, 0));
    assert_eq!(idtr(0x6000), (0x6000, 4095));
}

#[test]
fn faults_go_to_their_culprit() {
    let mut d = system();
    assert_eq!(ki_dispatch_trap(&mut d, &frame(14, true), 0xBAD), TrapAction::TerminateThread);
    assert_eq!(
        ki_dispatch_trap(&mut d, &frame(14, false), 0xBAD),
        TrapAction::Stop(Stop {
            code: PAGE_FAULT_IN_NONPAGED_AREA,
            p1: 0xBAD,
            p2: 0x77,
            p3: 0x40_1000,
            p4: 0
        })
    );
    assert_eq!(ki_dispatch_trap(&mut d, &frame(13, true), 0), TrapAction::TerminateThread);
    assert_eq!(
        ki_dispatch_trap(&mut d, &frame(8, true), 0),
        TrapAction::Stop(Stop {
            code: KMODE_EXCEPTION_NOT_HANDLED,
            p1: 8,
            p2: 0x40_1000,
            p3: 0x50_1FF0,
            p4: 0
        })
    );
    assert_eq!(
        ki_dispatch_trap(&mut d, &frame(13, false), 0),
        TrapAction::Stop(Stop {
            code: KMODE_EXCEPTION_NOT_HANDLED,
            p1: 13,
            p2: 0x40_1000,
            p3: 0x77,
            p4: 0
        })
    );
    assert_eq!(ki_dispatch_trap(&mut d, &frame(1, true), 0), TrapAction::SingleStep);
    assert_eq!(ki_dispatch_trap(&mut d, &frame(3, true), 0), TrapAction::Breakpoint);
    assert_eq!(ki_dispatch_trap(&mut d, &frame(0x2F, false), 0), TrapAction::Dispatch);
    assert_eq!(ki_dispatch_trap(&mut d, &frame(0xFF, false), 0), TrapAction::Spurious);
    assert_eq!(ki_dispatch_trap(&mut d, &frame(0x60, false), 0), TrapAction::Acknowledge);
    assert_eq!(d.tick, 0);
    assert_eq!(ki_dispatch_trap(&mut d, &frame(0xD1, false), 0), TrapAction::Clock(false));
    assert_eq!(d.tick, 1);
}

#[test]
fn the_processor_pushes_error_codes_for_some_vectors() {
    let with: Vec<u8> = (0..32).filter(|&v| has_error_code(v)).collect();
    assert_eq!(with, vec![8, 10, 11, 12, 13, 14, 17, 21, 29, 30]);
}

#[test]
fn vectors_have_exception_codes() {
    assert_eq!(
        exception_code_for(14, 2, 0x1234),
        Some((STATUS_ACCESS_VIOLATION, [1, 0x1234], 2))
    );
    assert_eq!(
        exception_code_for(14, 0x10, 0x1234),
        Some((STATUS_ACCESS_VIOLATION, [8, 0x1234], 2))
    );
    assert_eq!(exception_code_for(0, 0, 0), Some((STATUS_INTEGER_DIVIDE_BY_ZERO, [0, 0], 0)));
    assert_eq!(exception_code_for(8, 0, 0), None);
    assert_eq!(exception_code_for(2, 0, 0), None);
}

#[test]
fn an_exception_is_delivered_on_the_user_stack_and_continued() {
    let mut mmu = machine();
    let db = VadDatabase::new();
    let before = frame(14, true);
    let mut f = before;
    let mut pages = PageFile::new();
    let mut victims = Vec::new();
    let r = dispatch_exception(
        &mut mmu,
        &db,
        &mut pages,
        &mut f,
        0x40_9000,
        STATUS_ACCESS_VIOLATION,
        [1, 0x1234],
        2,
        &mut victims,
    );
    assert_eq!(r, Delivery::Taken);
    assert_eq!(victims, vec![]);
    assert_eq!(f.rip, 0x40_9000);
    assert!(f.rsp + FRAME_SIZE as u64 <= before.rsp);
    let bytes = read_user(&mmu, f.rsp, FRAME_SIZE).unwrap();
    assert_eq!(bytes[REC_AT..REC_AT + 4], STATUS_ACCESS_VIOLATION.to_le_bytes());
    let r = nt_continue(&mmu, &db, f.rsp + CTX_AT as u64).unwrap();
    assert_eq!(r.rip, before.rip);
    assert_eq!(r.rsp, before.rsp);
    assert_eq!((r.rax, r.rbx, r.r15), (1, 4, 15));
    assert_eq!((r.cs, r.ss), (0x33, 0x2B));
    assert_eq!(
        nt_continue(&mmu, &db, 0xFFFF_F000_0000_0000),
        Err(NtStatus(NtStatus::ACCESS_VIOLATION))
    );
}

#[test]
fn an_exception_without_a_stack_is_not_delivered() {
    let mut mmu = machine();
    let db = VadDatabase::new();
    let mut f = frame(14, true);
    f.rsp = 0x70_0000;
    let before = f;
    let mut pages = PageFile::new();
    let mut victims = Vec::new();
    let r = dispatch_exception(
        &mut mmu, &db, &mut pages, &mut f, 0x40_9000, 1, [0, 0], 0, &mut victims,
    );
    assert_eq!(r, Delivery::Refused);
    assert_eq!(f, before);
}

#[test]
fn an_exception_reaches_a_committed_stack_that_was_never_touched() {
    let mut mmu = machine();
    let mut db = VadDatabase::new();
    let mut pages = PageFile::new();
    let mut victims = Vec::new();
    let stack = vad_allocate(&mut db, PhysAddr(mmu.cr3), 2, true, false).unwrap();
    let mut f = frame(0, true);
    f.rsp = stack + 0x2000;
    assert!(!page_present_and_user(&mmu, stack + 0x1000));
    let r = ki_user_exception(&mut mmu, &db, &mut pages, &mut f, 0, 0x40_9000, &mut victims);
    assert_eq!(r, Delivery::Taken);
    assert_eq!(f.rip, 0x40_9000);
    assert!(page_present_and_user(&mmu, f.rsp));
    let bytes = read_user(&mmu, f.rsp + REC_AT as u64, 4).unwrap();
    assert_eq!(bytes, STATUS_INTEGER_DIVIDE_BY_ZERO.to_le_bytes());
}

#[test]
fn an_exception_waits_for_a_stack_page_on_disk() {
    let mut mmu = machine();
    let mut db = VadDatabase::new();
    let mut pages = PageFile::new();
    init_page_file(&mut pages, 100, 8);
    let mut victims = Vec::new();
    let cr3 = mmu.cr3;
    let stack = vad_allocate(&mut db, PhysAddr(cr3), 1, true, false).unwrap();
    assert_eq!(make_resident(&db, &mut mmu, &mut pages, stack, 1, &mut victims), None);
    let w = evict_begin(&mut pages, &mmu.phys, cr3, stack).unwrap();
    assert_eq!(evict_finish(&mut pages, &mut mmu.phys, w, true), 1);
    let mut f = frame(0, true);
    f.rsp = stack + 0x1000;
    let before = f;
    match ki_user_exception(&mut mmu, &db, &mut pages, &mut f, 0, 0x40_9000, &mut victims) {
        Delivery::Read(back) => {
            assert_eq!((back.read.slot, back.read.va), (w.slot, stack));
            assert_eq!((back.writable, back.executable), (true, false));
            let (ok, _) = page_in_finish(
                &mut pages, &mut mmu.phys, back.read, true, back.writable, back.executable,
            );
            assert!(ok);
        }
        other => panic!("{:?}", other),
    }
    assert_eq!(f, before);
    let r = ki_user_exception(&mut mmu, &db, &mut pages, &mut f, 0, 0x40_9000, &mut victims);
    assert_eq!(r, Delivery::Taken);
}

#[test]
fn a_committed_page_is_there_after_its_first_fault() {
    let mut d = system();
    let mut mmu = machine();
    let mut db = VadDatabase::new();
    let mut pages = PageFile::new();
    let root = PhysAddr(mmu.cr3);
    let va = vad_allocate(&mut db, root, 0x2000, true, false).unwrap();
    let mut f = frame(14, true);
    f.error_code = 6;
    let before = f;
    // Not at a raised level, and not for a page that is there.
    let mut g = f;
    assert_eq!(
        ki_handle_fault(&mut d, &mut mmu, &db, &mut pages, &mut g, va, DISPATCH_LEVEL, 0, &mut Vec::new()),
        FaultAction::Unhandled
    );
    g.error_code = 7;
    assert_eq!(
        ki_handle_fault(&mut d, &mut mmu, &db, &mut pages, &mut g, va, PASSIVE_LEVEL, 0, &mut Vec::new()),
        FaultAction::Unhandled
    );
    assert!(!page_present_and_user(&mmu, va));
    assert_eq!(
        ki_handle_fault(&mut d, &mut mmu, &db, &mut pages, &mut f, va + 5, PASSIVE_LEVEL, 0, &mut Vec::new()),
        FaultAction::Resume
    );
    assert_eq!(f, before);
    assert_eq!(read_user(&mmu, va, 16), Some(vec![0; 16]));
}

#[test]
fn a_fault_in_a_guarded_copy_is_excused_once() {
    let mut d = system();
    let mut mmu = machine();
    let db = VadDatabase::new();
    let mut pages = PageFile::new();
    let mut ctx = FaultRecovery::new();
    ctx.rip = 0xAA;
    ctx.rsp = 0xBB;
    arm_recovery(&mut d, ctx);
    let mut f = frame(14, false);
    assert_eq!(
        ki_handle_fault(&mut d, &mut mmu, &db, &mut pages, &mut f, 0x9000, PASSIVE_LEVEL, 0, &mut Vec::new()),
        FaultAction::Resume
    );
    assert_eq!((f.rip, f.rsp, f.rax), (0xAA, 0xBB, 1));
    assert_eq!(
        ki_handle_fault(&mut d, &mut mmu, &db, &mut pages, &mut f, 0x9000, PASSIVE_LEVEL, 0, &mut Vec::new()),
        FaultAction::Unhandled
    );
}

#[test]
fn a_program_may_handle_its_own_faults() {
    let mut d = system();
    let mut mmu = machine();
    let db = VadDatabase::new();
    let mut pages = PageFile::new();
    let mut f = frame(0, true);
    assert_eq!(
        ki_handle_fault(&mut d, &mut mmu, &db, &mut pages, &mut f, 0, PASSIVE_LEVEL, 0x40_9000, &mut Vec::new()),
        FaultAction::Resume
    );
    assert_eq!(f.rip, 0x40_9000);
    let mut clock = frame(0xD1, true);
    assert_eq!(
        ki_handle_fault(&mut d, &mut mmu, &db, &mut pages, &mut clock, 0, PASSIVE_LEVEL, 0x40_9000, &mut Vec::new()),
        FaultAction::Unhandled
    );
    let mut double = frame(8, true);
    let mut victims = Vec::new();
    assert_eq!(
        ki_user_exception(&mut mmu, &db, &mut pages, &mut double, 0, 0x40_9000, &mut victims),
        Delivery::Refused
    );
    let mut none = frame(0, true);
    assert_eq!(
        ki_user_exception(&mut mmu, &db, &mut pages, &mut none, 0, 0, &mut victims),
        Delivery::Refused
    );
}

#[test]
fn the_first_stop_reports_and_a_second_halts() {
    let mut cpu = Processor { irql: PASSIVE_LEVEL, rflags: 0x202 };
    let mut latch = false;
    assert_eq!(
        ke_bug_check_ex(&mut cpu, &mut latch, 0xE2, 1, 2, 3, 4),
        StopAction::Report(Stop { code: 0xE2, p1: 1, p2: 2, p3: 3, p4: 4 })
    );
    assert_eq!(cpu.irql, HIGH_LEVEL);
    assert_eq!(cpu.rflags & 0x200, 0);
    assert_eq!(ke_bug_check(&mut cpu, &mut latch, 1), StopAction::Halt);
    assert_eq!(stop_code_name(MANUALLY_INITIATED_CRASH), "MANUALLY_INITIATED_CRASH");
    let mut fresh = Processor { irql: PASSIVE_LEVEL, rflags: 0x202 };
    let mut first = false;
    assert!(matches!(
        ke_bug_check_panic(&mut fresh, &mut first),
        StopAction::Report(Stop { code: RUST_PANIC, .. })
    ));
}

#[test]
fn the_processor_block_names_its_thread() {
    let mut p = Kpcr::new(0xFFFF_8000_0000_1000, 2);
    assert_eq!(p.self_address, 0xFFFF_8000_0000_1000);
    assert_eq!(p.prcb.number, 2);
    assert_eq!(ke_get_current_thread(&p), None);
    ke_get_prcb(&mut p).current_thread = Some(5);
    assert_eq!(ke_get_current_thread(&p), Some(5));
    set_syscall_kernel_stack(&mut p, 0x1234);
    assert_eq!(p.syscall_kernel_stack, 0x1234);
    let (lo, hi) = msr_halves(0x1122_3344_5566_7788);
    assert_eq!((lo, hi), (0x5566_7788, 0x1122_3344));
    assert_eq!(msr_value(lo, hi), 0x1122_3344_5566_7788);
}

#[test]
fn unknown_services_are_refused() {
    let mut t: ServiceTable<u32> = ServiceTable::new();
    assert_eq!(t.ki_syscall_dispatch(3), Err(STATUS_INVALID_SYSTEM_SERVICE));
    t.register_service(3, 77);
    assert_eq!(t.ki_syscall_dispatch(3), Ok(77));
    assert_eq!(t.ki_syscall_dispatch(48), Err(STATUS_INVALID_SYSTEM_SERVICE));
    assert_eq!(t.ki_syscall_dispatch(u64::MAX), Err(STATUS_INVALID_SYSTEM_SERVICE));
    let f = init_fast_call(0xABCD, 0x500);
    assert_eq!((f.star, f.lstar, f.fmask, f.efer), (0x20_0010_0000_0000, 0xABCD, 0x4_0700, 0x501));
}

#[test]
fn user_mode_is_entered_with_its_own_stack_and_segment() {
    let mut d = system();
    let mut dbg = DebugState::new();
    let e = ki_enter_user_mode(&mut d, &mut dbg, 0x40_1000, 0x50_0000, 0x7FFE_0000, 0x1000);
    assert_eq!((e.rip, e.rsp), (0x40_1000, 0x50_0000));
    assert_eq!((e.cs, e.ss), (0x33, 0x2B));
    assert_eq!(e.rflags & 0x300, 0x200);
    assert_eq!(e.gs_base, 0x7FFE_0000);
    assert_eq!(d.threads[0].gs_base, 0x7FFE_0000);
    assert_eq!(ki_continue_user_mode(&d), 0x10_4000);
}

#[test]
fn an_armed_trace_starts_with_user_mode_and_uses_up_its_budget() {
    let mut d = system();
    let mut dbg = DebugState::new();
    let mut regs = DebugRegisters { dr0: 0, dr6: 0, dr7: 0 };
    arm(&mut dbg, &mut regs, 2);
    let e = ki_enter_user_mode(&mut d, &mut dbg, 0x40_1000, 0x50_0000, 0x7FFE_0000, 0x1000);
    assert_eq!(e.rflags & 0x100, 0x100);
    assert!(!take_armed(&mut dbg));
    let mmu = machine();
    let db = VadDatabase::new();
    add_module(&mut dbg, "app", 0x40_0000, 0x1_0000, false);
    let mut f = frame(1, true);
    f.rflags |= 0x100;
    let mut left = 0;
    while f.rflags & 0x100 != 0 && left < 10 {
        on_single_step(&mut dbg, &mut f, &mut regs, &mmu, &db);
        left += 1;
    }
    assert!(left <= 3);
    assert!(!dbg.tracing);
    let _: TraceEvent = on_breakpoint(&dbg, &frame(3, true));
}

#[test]
fn a_guarded_copy_resumes_after_a_fault() {
    let mut d = system();
    let mut ctx = FaultRecovery::new();
    ctx.rip = 0xAA;
    ctx.rsp = 0xBB;
    ctx.rbx = 0xCC;
    arm_recovery(&mut d, ctx);
    let r = take_recovery(&mut d).unwrap();
    let mut f = frame(14, false);
    land(&mut f, &r);
    assert_eq!((f.rip, f.rsp, f.rbx), (0xAA, 0xBB, 0xCC));
    assert!(take_recovery(&mut d).is_none());
    arm_recovery(&mut d, ctx);
    disarm(&mut d);
    assert!(take_recovery(&mut d).is_none());
}

#[test]
fn processors_start_one_after_the_other() {
    let mut mmu = machine();
    let mut p = Processors::new();
    assert!(init_processors(&mut p, 3, 0));
    assert_eq!(processor_count(&p), 3);
    assert_eq!(slot(&p, 0), Some((0, true, 1)));
    assert!(matches!(start_processor(&mut p, &mut mmu, 0, 0), ApStart::Skip));
    let top = match start_processor(&mut p, &mut mmu, 4, 0) {
        ApStart::Start { cpu, stack_top } => {
            assert_eq!(cpu, 1);
            stack_top
        }
        _ => panic!("the processor should start"),
    };
    assert_eq!(top % 4096, 0);
    assert_eq!(own_slot(&p, 4), Some(1));
    assert_eq!(own_slot(&p, 9), None);
    let before = online_count(&p);
    report_online(&mut p, 1, 1);
    assert_eq!(online_count(&p), before + 1);
    assert_eq!(slot(&p, 1), Some((4, true, 2)));
    assert!(!init_processors(&mut Processors::new(), 1, 0));
    let page = trampoline_page(&[0x90; 16], 0x1000, top, 0xFFFF_8000_0000_2000);
    assert_eq!(page.len(), 4096);
    assert_eq!(page[0..16], [0x90; 16]);
    assert_eq!(page[PATCH_CR3..PATCH_CR3 + 8], 0x1000u64.to_le_bytes());
    assert_eq!(page[PATCH_STACK..PATCH_STACK + 8], top.to_le_bytes());
    assert_eq!(page[PATCH_ENTRY..PATCH_ENTRY + 8], 0xFFFF_8000_0000_2000u64.to_le_bytes());
    let root = build_transition_tables(&mut mmu).unwrap();
    assert_ne!(root, PhysAddr(mmu.kernel_pml4));
}
