//! Objects, handles and system threads.
use kernel::ke::scheduler::{Dispatcher, Spaces};
use kernel::ke::signal::ki_dispatch_interrupt;
use kernel::ke::thread::{Kthread, ThreadState, DEFAULT_PRIORITY};
use kernel::mm::phys::{init, mm_allocate_page, mm_free_page_count, MemoryRegion, PhysicalMemory};
use kernel::mm::pool::{pool_bytes_in_use, Pool};
use kernel::mm::virt::Mmu;
use kernel::mm::PhysWindow;
use kernel::ob::handle::{
    duplicate_handle, ob_close_handle, ob_create_handle, ob_create_handle_in, ob_free_table,
    ob_reference_object_by_handle, HandleTables, MAX_HANDLES, MAX_TABLES,
};
use kernel::ob::{
    ob_check_type, ob_create_object, ob_dereference_object, ob_free_object, ob_ref_count,
    ob_reference_object, Deletion, ObjectManager, ObjectType,
};
use kernel::ps::{
    ps_create_system_thread, ps_create_system_thread_suspended, ps_resume_thread,
    ps_terminate_system_thread, ThreadFactory, KERNEL_STACK_SIZE,
};
use kernel::rtl::string::UnicodeString;
use kernel::rtl::NtStatus;

const SP: Spaces = Spaces { loaded: 0x1000, kernel: 0x1000 };

fn memory() -> PhysicalMemory {
    let mut m = PhysicalMemory::new(vec![0u8; 0x40_0000]);
    init(&mut m, &[MemoryRegion { start: 0, end: 0x40_0000, usable: true }]);
    m
}

fn named(text: &str) -> UnicodeString {
    let units: Vec<u16> = text.encode_utf16().collect();
    UnicodeString::from_units(&units)
}

struct World {
    om: ObjectManager,
    pool: Pool,
    memory: PhysicalMemory,
    event: usize,
    file: usize,
}

fn world() -> World {
    let mut om = ObjectManager::new();
    let event = om.add_type(ObjectType { name: named("Event"), delete: None });
    let file = om.add_type(ObjectType { name: named("File"), delete: Some(0xF11E) });
    World { om, pool: Pool::new(), memory: memory(), event, file }
}

fn object(w: &mut World, kind: usize) -> u64 {
    ob_create_object(&mut w.om, &mut w.pool, &mut w.memory, kind, 100).unwrap()
}

fn system(cr3: u64) -> Dispatcher {
    let mut t = Kthread::new(0, 0x10_0000, 0x4000, 0);
    t.cr3 = cr3;
    Dispatcher::ki_initialize(t)
}

#[test]
fn a_new_object_has_one_reference() {
    let mut w = world();
    let (event, file) = (w.event, w.file);
    let a = object(&mut w, event);
    let b = object(&mut w, file);
    assert_ne!(a, b);
    assert_eq!(ob_ref_count(&w.om, a), 1);
    assert_eq!(ob_check_type(&w.om, a, event), Ok(()));
    assert_eq!(
        ob_check_type(&w.om, a, file),
        Err(NtStatus(NtStatus::OBJECT_TYPE_MISMATCH))
    );
}

#[test]
fn an_object_dies_with_its_last_reference() {
    let mut w = world();
    let file = w.file;
    let a = object(&mut w, file);
    let used = pool_bytes_in_use(&w.pool);
    ob_reference_object(&mut w.om, a);
    assert_eq!(ob_ref_count(&w.om, a), 2);
    assert_eq!(ob_dereference_object(&mut w.om, a), None);
    assert_eq!(
        ob_dereference_object(&mut w.om, a),
        Some(Deletion { body: a, delete: Some(0xF11E) })
    );
    ob_free_object(&w.om, &mut w.pool, &mut w.memory, a);
    assert!(pool_bytes_in_use(&w.pool) < used);
    assert_eq!(pool_bytes_in_use(&w.pool), 0);
}

#[test]
fn creation_fails_when_memory_runs_out() {
    let mut w = world();
    let mut small = PhysicalMemory::new(vec![0u8; 0x2000]);
    init(&mut small, &[MemoryRegion { start: 0, end: 0x2000, usable: true }]);
    assert_eq!(
        ob_create_object(&mut w.om, &mut w.pool, &mut small, w.event, 10),
        Err(NtStatus(NtStatus::INSUFFICIENT_RESOURCES))
    );
    assert!(w.om.objects.is_empty());
}

#[test]
fn handles_are_multiples_of_four_and_hold_references() {
    let mut w = world();
    let event = w.event;
    let a = object(&mut w, event);
    let d = system(0x5000);
    let mut t = HandleTables::new();
    let h = ob_create_handle(&mut t, &mut w.om, &d, a, 7);
    assert_eq!(h, 4);
    let h2 = ob_create_handle(&mut t, &mut w.om, &d, a, 7);
    assert_eq!(h2, 8);
    assert_eq!(ob_ref_count(&w.om, a), 3);
    assert_eq!(ob_reference_object_by_handle(&t, &d, h), Ok(a));
    assert_eq!(
        ob_reference_object_by_handle(&t, &d, 0),
        Err(NtStatus(NtStatus::INVALID_HANDLE))
    );
    assert_eq!(
        ob_reference_object_by_handle(&t, &d, 12),
        Err(NtStatus(NtStatus::INVALID_HANDLE))
    );
    let (s, dead) = ob_close_handle(&mut t, &mut w.om, &d, h);
    assert_eq!((s, dead), (NtStatus(NtStatus::SUCCESS), None));
    let (s, dead) = ob_close_handle(&mut t, &mut w.om, &d, h);
    assert_eq!((s, dead), (NtStatus(NtStatus::INVALID_HANDLE), None));
    assert_eq!(ob_ref_count(&w.om, a), 2);
}

#[test]
fn the_last_handle_ends_an_object() {
    let mut w = world();
    let file = w.file;
    let a = object(&mut w, file);
    let d = system(0x5000);
    let mut t = HandleTables::new();
    let h = ob_create_handle(&mut t, &mut w.om, &d, a, 0);
    ob_dereference_object(&mut w.om, a);
    let (_, dead) = ob_close_handle(&mut t, &mut w.om, &d, h);
    assert_eq!(dead, Some(Deletion { body: a, delete: Some(0xF11E) }));
}

#[test]
fn a_handle_means_nothing_in_another_address_space() {
    let mut w = world();
    let event = w.event;
    let a = object(&mut w, event);
    let mut t = HandleTables::new();
    let here = system(0x5000);
    let there = system(0x6000);
    let h = ob_create_handle(&mut t, &mut w.om, &here, a, 0);
    assert_eq!(
        ob_reference_object_by_handle(&t, &there, h),
        Err(NtStatus(NtStatus::INVALID_HANDLE))
    );
    let h2 = ob_create_handle_in(&mut t, &mut w.om, 0x6000, a, 0);
    assert_eq!(ob_reference_object_by_handle(&t, &there, h2), Ok(a));
}

#[test]
fn a_copy_of_a_handle_survives_it() {
    let mut w = world();
    let event = w.event;
    let a = object(&mut w, event);
    let d = system(0x5000);
    let mut t = HandleTables::new();
    let h = ob_create_handle(&mut t, &mut w.om, &d, a, 0);
    let copy = duplicate_handle(&mut t, &mut w.om, &d, h);
    assert_ne!(copy, h);
    ob_close_handle(&mut t, &mut w.om, &d, h);
    assert_eq!(ob_reference_object_by_handle(&t, &d, copy), Ok(a));
    assert_eq!(duplicate_handle(&mut t, &mut w.om, &d, 0x400), 0);
}

#[test]
fn an_address_space_gives_up_all_its_handles() {
    let mut w = world();
    let (event, file) = (w.event, w.file);
    let a = object(&mut w, event);
    let b = object(&mut w, file);
    let mut t = HandleTables::new();
    let d = system(0x5000);
    ob_create_handle(&mut t, &mut w.om, &d, a, 0);
    let h = ob_create_handle(&mut t, &mut w.om, &d, b, 0);
    ob_dereference_object(&mut w.om, b);
    let dead = ob_free_table(&mut t, &mut w.om, 0x5000);
    assert_eq!(dead, vec![Deletion { body: b, delete: Some(0xF11E) }]);
    assert_eq!(ob_ref_count(&w.om, a), 1);
    assert_eq!(
        ob_reference_object_by_handle(&t, &d, h),
        Err(NtStatus(NtStatus::INVALID_HANDLE))
    );
    assert!(ob_free_table(&mut t, &mut w.om, 0).is_empty());
}

#[test]
fn tables_and_their_number_are_bounded() {
    let mut w = world();
    let event = w.event;
    let a = object(&mut w, event);
    let mut t = HandleTables::new();
    for i in 1..MAX_HANDLES {
        assert_eq!(ob_create_handle_in(&mut t, &mut w.om, 0x1000, a, 0), 4 * i as u64);
    }
    assert_eq!(ob_create_handle_in(&mut t, &mut w.om, 0x1000, a, 0), 0);
    assert_eq!(ob_ref_count(&w.om, a), MAX_HANDLES as i64);
    for i in 1..MAX_TABLES {
        assert_eq!(ob_create_handle_in(&mut t, &mut w.om, 0x1000 * (i as u64 + 1), a, 0), 4);
    }
    assert_eq!(ob_create_handle_in(&mut t, &mut w.om, 0x10_0000, a, 0), 0);
}

fn kernel() -> (Mmu, Pool, Dispatcher, ThreadFactory) {
    let mut phys = memory();
    let root = mm_allocate_page(&mut phys).unwrap();
    let mmu = Mmu {
        phys,
        window: PhysWindow { offset: 0xFFFF_F000_0000_0000 },
        cr3: root.0,
        kernel_pml4: root.0,
        smap_on: false,
    };
    (mmu, Pool::new(), system(0), ThreadFactory::new(0x200, 0xABCD))
}

#[test]
fn a_system_thread_starts_at_its_entry() {
    let (mut mmu, mut pool, mut d, mut f) = kernel();
    let t = ps_create_system_thread(&mut f, &mut pool, &mut mmu, &mut d, 0x1111, 0x2222).unwrap();
    assert_eq!(t.start_address, 0x1111);
    let th = &d.threads[t.tcb];
    assert_eq!(th.state, ThreadState::Ready);
    assert_eq!(th.priority, DEFAULT_PRIORITY);
    let at = (th.kernel_rsp - mmu.window.offset) as usize;
    let word = |i: usize| {
        let mut b = [0u8; 8];
        b.copy_from_slice(&mmu.phys.ram[at + 8 * i..at + 8 * i + 8]);
        u64::from_le_bytes(b)
    };
    assert_eq!((word(0), word(1), word(6)), (0x1111, 0x2222, 0xABCD));
    let sw = ki_dispatch_interrupt(&mut d, &SP).1.unwrap();
    assert_eq!(sw.to, t.tcb);
    let back = ps_terminate_system_thread(&mut d, &SP).unwrap();
    assert_eq!(back.to, 0);
    assert_eq!(d.threads[t.tcb].state, ThreadState::Terminated);
}

#[test]
fn a_suspended_thread_waits_to_be_resumed() {
    let (mut mmu, mut pool, mut d, mut f) = kernel();
    let t = ps_create_system_thread_suspended(&mut f, &mut pool, &mut mmu, &mut d, 1, 2, 0x7000)
        .unwrap();
    assert_eq!(d.threads[t.tcb].state, ThreadState::Initialized);
    assert_eq!(d.threads[t.tcb].cr3, 0x7000);
    assert!(ki_dispatch_interrupt(&mut d, &SP).1.is_none());
    ps_resume_thread(&mut d, &t);
    assert_eq!(ki_dispatch_interrupt(&mut d, &SP).1.unwrap().to, t.tcb);
}

#[test]
fn thread_identifiers_are_distinct() {
    let (mut mmu, mut pool, mut d, mut f) = kernel();
    let a = ps_create_system_thread(&mut f, &mut pool, &mut mmu, &mut d, 1, 0).unwrap();
    let b = ps_create_system_thread(&mut f, &mut pool, &mut mmu, &mut d, 1, 0).unwrap();
    assert_eq!(d.threads[a.tcb].thread_id, 4);
    assert_ne!(d.threads[a.tcb].thread_id, d.threads[b.tcb].thread_id);
}

#[test]
fn threads_cannot_be_created_without_memory() {
    let (mut mmu, mut pool, mut d, mut f) = kernel();
    let mut n = 0;
    loop {
        match ps_create_system_thread(&mut f, &mut pool, &mut mmu, &mut d, 1, 0) {
            Ok(_) => n += 1,
            Err(e) => {
                assert_eq!(e, NtStatus(NtStatus::INSUFFICIENT_RESOURCES));
                break;
            }
        }
    }
    assert!(n > 0);
    assert!(mm_free_page_count(&mmu.phys) * 4096 < KERNEL_STACK_SIZE as u64 + 4096 * 16);
}
