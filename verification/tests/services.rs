//! The system services.
use kernel::ke::bugcheck::StopAction;
use kernel::ke::irql::{Processor, PASSIVE_LEVEL};
use kernel::ke::scheduler::{Dispatcher, Spaces, WaitOutcome};
use kernel::ke::syscall::{ServiceTable, STATUS_INVALID_SYSTEM_SERVICE};
use kernel::ke::thread::{Kthread, StdHandles};
use kernel::ldr::loaded::LoadedModules;
use kernel::ldr::mui::MuiTable;
use kernel::mm::pageout::PageFile;
use kernel::mm::phys::{
    init, mm_allocate_contiguous_pages, mm_allocate_page, mm_free_page_count, MemoryRegion,
    PhysicalMemory,
};
use kernel::mm::pool::Pool;
use kernel::mm::user::{read_user, write_user};
use kernel::mm::vad::{vad_allocate, VadDatabase};
use kernel::mm::virt::{mm_map_user_range, page_present_and_user, Mmu};
use kernel::mm::{PhysAddr, PhysWindow};
use kernel::ob::handle::{ob_create_handle, HandleTables};
use kernel::ob::{ob_create_object, ObjectManager, ObjectType};
use kernel::rtl::string::UnicodeString;
use kernel::rtl::NtStatus;
use kernel::syscalls::arguments::{
    direct_buffers, nested_buffers, page_in_arguments, page_in_nested, Arguments,
};
use kernel::syscalls::buffers::{
    narrow, read_user_name, read_user_path, read_user_req, read_user_u16, to_bytes, to_units, widen,
};
use kernel::syscalls::files::{
    create_target, host_glob, last_component, nt_create_file, nt_open_file, nt_query_attributes,
    nt_query_directory, nt_query_file_size, nt_read_file, nt_write_file, nth_match, open_finish,
    pipe_read_turn, strip_host_drive, write_find_data, DirectoryQuery, FileTarget,
    INVALID_FILE_SIZE, MAX_PIPE_TURNS,
};
use kernel::syscalls::memory::{
    is_heap_range, nt_allocate_virtual_memory, nt_free_virtual_memory, nt_protect_virtual_memory,
};
use kernel::syscalls::process::{
    child_arguments, nt_create_process, nt_get_module_handle, nt_get_proc_address,
};
use kernel::syscalls::registry::{
    enum_key_reply, nt_reg_enum_key, nt_reg_key_path, nt_reg_query_value, nt_reg_set_value,
    query_value_reply, set_value_reply, REG_FAILED,
};
use kernel::syscalls::text::{
    dbg_write_string, nt_get_command_line, nt_load_message, nt_load_mui_string,
};
use kernel::syscalls::{
    counter_value, create_pipe_finish, get_last_error, increment_counter, nt_bugcheck, nt_close,
    nt_create_pipe, nt_delay_execution, nt_get_std_handle, nt_peek_console_input, nt_query_handle,
    nt_query_tick_count, nt_set_startup_handles, nt_set_std_handle, nt_terminate_thread,
    register_all, report_test_result, set_last_error, test_result, Service, TestChannel,
    SERVICE_COUNT,
};

const WINDOW: u64 = 0xFFFF_F000_0000_0000;
const USER: u64 = 0x50_0000;
const KERNEL_SIDE: u64 = 0xFFFF_8000_0000_0000;
const SP: Spaces = Spaces { loaded: 0x1000, kernel: 0x1000 };

struct World {
    mmu: Mmu,
    db: VadDatabase,
    d: Dispatcher,
    om: ObjectManager,
    tables: HandleTables,
    file: u64,
}

/// Two user pages at [`USER`], the window mapped for the kernel, one thread and
/// one file object.
fn world() -> World {
    let mut phys = PhysicalMemory::new(vec![0u8; 0x80_0000]);
    init(&mut phys, &[MemoryRegion { start: 0, end: 0x80_0000, usable: true }]);
    let root = mm_allocate_page(&mut phys).unwrap();
    assert!(mm_map_user_range(&mut phys, root, WINDOW, PhysAddr(0), 0x800, true, false));
    let pa = mm_allocate_contiguous_pages(&mut phys, 2).unwrap();
    assert!(mm_map_user_range(&mut phys, root, USER, pa, 2, true, false));
    let mut mmu = Mmu {
        phys,
        window: PhysWindow { offset: WINDOW },
        cr3: root.0,
        kernel_pml4: root.0,
        smap_on: false,
    };
    let mut t = Kthread::new(0, 0x10_0000, 0x4000, 8);
    t.cr3 = root.0;
    let mut om = ObjectManager::new();
    let kind = om.add_type(ObjectType { name: UnicodeString::empty(), delete: None });
    let mut pool = Pool::new();
    let file = ob_create_object(&mut om, &mut pool, &mut mmu.phys, kind, 32).unwrap();
    World {
        mmu,
        db: VadDatabase::new(),
        d: Dispatcher::ki_initialize(t),
        om,
        tables: HandleTables::new(),
        file,
    }
}

fn units(t: &str) -> Vec<u16> {
    t.encode_utf16().collect()
}

fn poke(w: &mut World, va: u64, bytes: &[u8]) {
    assert!(write_user(&mut w.mmu, va, bytes));
}

fn poke_text(w: &mut World, va: u64, t: &str) -> u64 {
    poke(w, va, &to_bytes(&units(t)));
    t.len() as u64
}

fn poke_words(w: &mut World, va: u64, words: &[u64]) {
    let b: Vec<u8> = words.iter().flat_map(|v| v.to_le_bytes()).collect();
    poke(w, va, &b);
}

fn peek(w: &World, va: u64, n: usize) -> Vec<u8> {
    read_user(&w.mmu, va, n).unwrap()
}

#[test]
fn services_stand_at_their_numbers() {
    let mut t: ServiceTable<Service> = ServiceTable::new();
    register_all(&mut t);
    assert!(matches!(t.ki_syscall_dispatch(0), Ok(Service::ExitThread)));
    assert!(matches!(t.ki_syscall_dispatch(4), Ok(Service::Close)));
    assert!(matches!(t.ki_syscall_dispatch(27), Ok(Service::CreateProcess)));
    assert!(matches!(t.ki_syscall_dispatch(39), Ok(Service::SetStdHandle)));
    assert_eq!(SERVICE_COUNT, 40);
    assert!(matches!(t.ki_syscall_dispatch(40), Err(STATUS_INVALID_SYSTEM_SERVICE)));
}

#[test]
fn the_test_channel_counts_and_reports() {
    let mut c = TestChannel::new();
    assert_eq!(increment_counter(&mut c), 1);
    assert_eq!(increment_counter(&mut c), 2);
    assert_eq!(counter_value(&c), 2);
    assert_eq!(report_test_result(&mut c, 0xAB), NtStatus(NtStatus::SUCCESS));
    assert_eq!((counter_value(&c), test_result(&c)), (2, 0xAB));
    c.counter = u64::MAX;
    assert_eq!(increment_counter(&mut c), 0);
}

#[test]
fn redirected_handles_read_back() {
    let mut w = world();
    for which in 0..3 {
        assert_eq!(nt_set_std_handle(&mut w.d, which, 0x40 + which), 1);
    }
    assert_eq!(nt_set_std_handle(&mut w.d, 3, 9), 0);
    for which in 0..3 {
        assert_eq!(nt_get_std_handle(&w.d, which), 0x40 + which);
    }
    assert_eq!(nt_get_std_handle(&w.d, 3), 0);
}

#[test]
fn the_last_error_is_kept_per_thread() {
    let mut w = world();
    assert_eq!(set_last_error(&mut w.d, 0x1_0000_0005), NtStatus(NtStatus::SUCCESS));
    assert_eq!(get_last_error(&w.d), 5);
    let t = w.d.add_thread(Kthread::new(1, 0x20_0000, 0x4000, 8));
    w.d.current = t;
    assert_eq!(get_last_error(&w.d), 0);
}

#[test]
fn a_child_takes_the_staged_handles_once() {
    let mut w = world();
    assert_eq!(nt_set_startup_handles(&mut w.d, 4, 8, 12), 0);
    let n = poke_text(&mut w, USER, "child.exe /x");
    let (line, handles) = child_arguments(&mut w.d, &w.mmu, &w.db, b"p".to_vec(), USER, n);
    assert_eq!(line, b"child.exe /x");
    assert_eq!(handles, StdHandles { input: 4, output: 8, error: 12 });
    let (line, handles) = child_arguments(&mut w.d, &w.mmu, &w.db, b"p.exe".to_vec(), 0, 0);
    assert_eq!(line, b"p.exe");
    assert_eq!(handles, StdHandles { input: 0, output: 0, error: 0 });
}

#[test]
fn time_services_use_the_clock() {
    let mut w = world();
    assert_eq!(nt_query_tick_count(&w.d), 0);
    let t = w.d.add_thread(Kthread::new(1, 0x20_0000, 0x4000, 8));
    kernel::ke::scheduler::ki_ready_thread(&mut w.d, t);
    match nt_delay_execution(&mut w.d, 0, &SP) {
        WaitOutcome::Blocked(sw) => assert_eq!(sw.to, t),
        WaitOutcome::Done(_) => panic!("a delay blocks"),
    }
    kernel::ke::signal::ki_clock_tick(&mut w.d);
    assert_eq!(nt_query_tick_count(&w.d), 1);
    let sw = nt_terminate_thread(&mut w.d, 77, &SP);
    assert!(sw.is_some());
    assert_eq!(w.d.threads[t].exit_code, 77);
}

#[test]
fn a_requested_stop_is_manual() {
    let mut cpu = Processor { irql: PASSIVE_LEVEL, rflags: 0x202 };
    let mut latch = false;
    match nt_bugcheck(&mut cpu, &mut latch, 0) {
        StopAction::Report(s) => assert_eq!(s.code, 0xE2),
        StopAction::Halt => panic!("the first stop reports"),
    }
    assert!(latch);
    assert_eq!(cpu, Processor { irql: 15, rflags: 0x002 });
}

#[test]
fn a_delay_answers_success_whatever_the_wait_came_to() {
    // Nothing else is ready, so the wait of the only thread is over at once.
    let mut w = world();
    let me = w.d.current;
    w.d.threads[me].wait_status = NtStatus(NtStatus::TIMEOUT);
    match nt_delay_execution(&mut w.d, 5, &SP) {
        WaitOutcome::Done(s) => assert_eq!(s, NtStatus(NtStatus::SUCCESS)),
        WaitOutcome::Blocked(_) => panic!("there is nothing to switch to"),
    }
}

#[test]
fn handles_can_be_asked_for_and_closed() {
    let mut w = world();
    let h = ob_create_handle(&mut w.tables, &mut w.om, &w.d, w.file, 0);
    assert_eq!(nt_query_handle(&w.tables, &w.d, h), 1);
    assert_eq!(nt_query_handle(&w.tables, &w.d, h + 4), 0);
    assert_eq!(nt_close(&mut w.tables, &mut w.om, &w.d, h).0, NtStatus(NtStatus::SUCCESS));
    assert_eq!(nt_query_handle(&w.tables, &w.d, h), 0);
    assert_eq!(
        nt_close(&mut w.tables, &mut w.om, &w.d, h).0,
        NtStatus(NtStatus::INVALID_HANDLE)
    );
    assert_eq!(nt_peek_console_input(Some(0x41)), 0x41);
    assert_eq!(nt_peek_console_input(None), u64::MAX);
}

#[test]
fn a_pipe_has_two_handles() {
    let mut w = world();
    assert!(nt_create_pipe(&w.mmu, &w.db, USER));
    assert!(!nt_create_pipe(&w.mmu, &w.db, 0));
    assert!(!nt_create_pipe(&w.mmu, &w.db, USER + 1));
    assert!(!nt_create_pipe(&w.mmu, &w.db, KERNEL_SIDE));
    let f = w.file;
    assert_eq!(
        create_pipe_finish(
            &mut w.tables, &mut w.om, &w.d, &mut w.mmu, &w.db, f, f, USER,
        ),
        1
    );
    let b = peek(&w, USER, 16);
    assert_eq!((b[0], b[8]), (4, 8));
    assert_eq!(nt_query_handle(&w.tables, &w.d, 4), 1);
    assert_eq!(nt_query_handle(&w.tables, &w.d, 8), 1);
}

#[test]
fn arguments_come_from_user_memory() {
    let mut w = world();
    poke_text(&mut w, USER, "ab");
    assert_eq!(read_user_u16(&w.mmu, &w.db, USER, 2, 16), Some(vec![97, 98]));
    assert_eq!(read_user_u16(&w.mmu, &w.db, USER, 17, 16), None);
    assert_eq!(read_user_u16(&w.mmu, &w.db, USER, 0, 16), None);
    assert_eq!(read_user_u16(&w.mmu, &w.db, 0, 2, 16), None);
    assert_eq!(read_user_u16(&w.mmu, &w.db, USER + 1, 2, 16), None);
    assert_eq!(read_user_u16(&w.mmu, &w.db, KERNEL_SIDE, 2, 16), None);
    poke_words(&mut w, USER + 0x100, &[1, 2, 3]);
    assert_eq!(read_user_req(&w.mmu, &w.db, USER + 0x100, 3), Some(vec![1, 2, 3]));
    assert_eq!(read_user_req(&w.mmu, &w.db, 0, 3), None);
    assert_eq!(to_units(&vec![1, 2, 3, 4]), vec![0x201, 0x403]);
    assert_eq!(to_bytes(&[0x201, 0x403]), vec![1, 2, 3, 4]);
    assert_eq!(narrow(&[0x141, 0x42]), vec![0x41, 0x42]);
    assert_eq!(widen(&[0x41, 0xFF]), vec![0x41, 0xFF]);
}

#[test]
fn names_must_be_text() {
    let mut w = world();
    poke_text(&mut w, USER, "C:\\a");
    assert_eq!(read_user_path(&w.mmu, &w.db, USER, 4, 260), Some(b"C:\\a".to_vec()));
    poke(&mut w, USER, &[0xC3, 0, 0x28, 0]);
    assert_eq!(read_user_path(&w.mmu, &w.db, USER, 2, 260), None);
    poke(&mut w, USER, &[0xC3, 0xA9]);
    assert_eq!(read_user_name(&w.mmu, &w.db, USER, 2, 64), Some(vec![0xC3, 0xA9]));
    assert_eq!(read_user_name(&w.mmu, &w.db, USER, 1, 64), None);
    assert_eq!(read_user_name(&w.mmu, &w.db, USER, 65, 64), None);
}

#[test]
fn patterns_match_without_regard_to_case() {
    assert!(host_glob(b"*", b"anything"));
    assert!(host_glob(b"*.TXT", b"notes.txt"));
    assert!(host_glob(b"a?c", b"abc"));
    assert!(host_glob(b"a?c", "a\u{e9}c".as_bytes()));
    assert!(host_glob(b"ReadMe", b"README"));
    assert!(host_glob(b"a*b*c", b"axxbyyc"));
    assert!(!host_glob(b"a?c", b"ac"));
    assert!(!host_glob(b"*.txt", b"notes.doc"));
    assert!(!host_glob(b"a", b"ab"));
    let names = vec![b"a.txt".to_vec(), b"b.doc".to_vec(), b"c.txt".to_vec()];
    assert_eq!(nth_match(b"*.txt", &names, 0), Some(0));
    assert_eq!(nth_match(b"*.txt", &names, 1), Some(2));
    assert_eq!(nth_match(b"*.txt", &names, 2), None);
}

#[test]
fn paths_are_taken_apart() {
    assert_eq!(strip_host_drive(b"H:\\a\\b"), Some(&b"a\\b"[..]));
    assert_eq!(strip_host_drive(b"h:/a"), Some(&b"a"[..]));
    assert_eq!(strip_host_drive(b"C:\\a"), None);
    assert_eq!(strip_host_drive(b"H:a"), None);
    assert_eq!(last_component(b"a\\b/c.txt"), b"c.txt");
    assert_eq!(last_component(b"c.txt"), b"c.txt");
    assert_eq!(last_component(b"a\\"), b"");
}

#[test]
fn directory_queries_are_routed() {
    let mut w = world();
    let mut ask = |text: &str, index: u64| {
        let n = poke_text(&mut w, USER, text);
        nt_query_directory(&w.mmu, &w.db, USER, n, index)
    };
    assert!(matches!(ask("H:\\*.txt", 3), DirectoryQuery::HostListing(p) if p == b"*.txt"));
    assert!(matches!(ask("H:\\a.txt", 0), DirectoryQuery::HostFile(p) if p == b"a.txt"));
    assert!(matches!(ask("H:\\a.txt", 1), DirectoryQuery::Nothing));
    assert!(matches!(ask("C:\\*.exe", 0), DirectoryQuery::Volume(_)));
    assert!(matches!(
        nt_query_directory(&w.mmu, &w.db, 0, 4, 0),
        DirectoryQuery::Nothing
    ));
}

#[test]
fn found_files_are_described() {
    let mut w = world();
    let r = write_find_data(&mut w.mmu, &w.db, USER, b"ab.c", 0x80, 0x2_0000_0003);
    assert_eq!(r, 1);
    let b = peek(&w, USER, 592);
    assert_eq!(b[0..4], [0x80, 0, 0, 0]);
    assert_eq!(b[28..32], [2, 0, 0, 0]);
    assert_eq!(b[32..36], [3, 0, 0, 0]);
    assert_eq!(b[44..54], [b'a', 0, b'b', 0, b'.', 0, b'c', 0, 0, 0]);
    assert_eq!(write_find_data(&mut w.mmu, &w.db, KERNEL_SIDE, b"x", 0, 0), 0);
}

#[test]
fn files_are_created_and_opened_by_name() {
    let mut w = world();
    poke(&mut w, USER, b"H:\\x.txt");
    assert_eq!(nt_create_file(&w.mmu, &w.db, USER, 8), Some(b"H:\\x.txt".to_vec()));
    assert_eq!(nt_create_file(&w.mmu, &w.db, USER, 0), None);
    assert_eq!(nt_create_file(&w.mmu, &w.db, USER, 129), None);
    assert!(matches!(create_target(b"H:\\x.txt"), Some(FileTarget::Host(p)) if p == b"x.txt"));
    assert!(matches!(create_target(b"\\??\\H:\\y"), Some(FileTarget::Host(p)) if p == b"y"));
    assert!(matches!(create_target(b"C:\\z"), Some(FileTarget::Volume(p)) if p == b"C:\\z"));
    assert!(create_target(&[0xFF, 0xFE]).is_none());
    let n = poke_text(&mut w, USER + 0x200, "\\??\\C:\\f.txt");
    poke_words(&mut w, USER + 0x100, &[n * 2, USER + 0x200]);
    poke_words(&mut w, USER + 0x80, &[48, 0, USER + 0x100]);
    assert!(matches!(
        nt_open_file(&w.mmu, &w.db, USER, USER + 0x80),
        Some(FileTarget::Volume(p)) if p == b"C:\\f.txt"
    ));
    assert!(nt_open_file(&w.mmu, &w.db, 0, USER + 0x80).is_none());
    assert!(nt_open_file(&w.mmu, &w.db, USER, 0).is_none());
    let f = w.file;
    let s = open_finish(
        &mut w.tables, &mut w.om, &w.d, &mut w.mmu, &w.db, f, USER, USER + 0x10,
    );
    assert_eq!(s, 0);
    assert_eq!(peek(&w, USER, 8), vec![4, 0, 0, 0, 0, 0, 0, 0]);
    assert_eq!(peek(&w, USER + 0x18, 1), vec![1]);
    let n = poke_text(&mut w, USER, "C:\\q");
    assert_eq!(nt_query_attributes(&w.mmu, &w.db, USER, n), Some(b"C:\\q".to_vec()));
    assert_eq!(nt_query_attributes(&w.mmu, &w.db, USER, 261), None);
}

#[test]
fn transfers_test_their_arguments_first() {
    let mut w = world();
    let h = ob_create_handle(&mut w.tables, &mut w.om, &w.d, w.file, 0);
    let write = |handle: u64, buffer: u64, len: u64| {
        nt_write_file(&w.tables, &w.d, &w.mmu, &w.db, handle, buffer, len)
    };
    assert_eq!(write(h, USER, 16), Ok(w.file));
    assert_eq!(write(h, 0, 16), Err(NtStatus(NtStatus::INVALID_PARAMETER)));
    assert_eq!(write(h, USER, 0x100_0001), Err(NtStatus(NtStatus::INVALID_PARAMETER)));
    assert_eq!(write(h, KERNEL_SIDE, 16), Err(NtStatus(NtStatus::ACCESS_VIOLATION)));
    assert_eq!(write(h + 4, USER, 16), Err(NtStatus(NtStatus::INVALID_HANDLE)));
    let read = |handle: u64, buffer: u64, len: u64| {
        nt_read_file(&w.tables, &w.d, &w.mmu, &w.db, handle, buffer, len)
    };
    assert_eq!(read(h, USER, 16), Some(w.file));
    assert_eq!(read(h, KERNEL_SIDE, 16), None);
    assert_eq!(read(h + 4, USER, 16), None);
    assert_eq!(nt_query_file_size(Some(7)), 7);
    assert_eq!(nt_query_file_size(None), INVALID_FILE_SIZE);
}

#[test]
fn a_pipe_read_waits_for_data_or_the_end() {
    let mut turns = 0;
    assert_eq!(pipe_read_turn(&mut turns, 0, false), None);
    assert_eq!(turns, 1);
    assert_eq!(pipe_read_turn(&mut turns, 5, false), Some(5));
    assert_eq!(pipe_read_turn(&mut turns, 0, true), Some(0));
    turns = MAX_PIPE_TURNS;
    assert_eq!(pipe_read_turn(&mut turns, 0, false), Some(0));
}

#[test]
fn user_memory_is_allocated_opened_and_freed() {
    let mut w = world();
    let before = mm_free_page_count(&w.mmu.phys);
    assert_eq!(nt_allocate_virtual_memory(&mut w.mmu, 0), Some(0));
    let a = nt_allocate_virtual_memory(&mut w.mmu, 5000).unwrap();
    assert_eq!(a % 4096, 0);
    assert_eq!(mm_free_page_count(&w.mmu.phys), before - 2);
    assert!(is_heap_range(&w.mmu, a, 5000));
    assert!(page_present_and_user(&w.mmu, a));
    assert!(nt_protect_virtual_memory(&mut w.mmu, a, 5000));
    assert_eq!(nt_free_virtual_memory(&mut w.mmu, a, 5000), NtStatus(NtStatus::SUCCESS));
    assert_eq!(mm_free_page_count(&w.mmu.phys), before);
    assert!(!is_heap_range(&w.mmu, a, 5000));
    assert_eq!(
        nt_free_virtual_memory(&mut w.mmu, 0, 5000),
        NtStatus(NtStatus::INVALID_PARAMETER)
    );
    assert_eq!(nt_allocate_virtual_memory(&mut w.mmu, 0x100_0000), Some(0));
}

#[test]
fn protecting_memory_opens_it_for_writing() {
    let mut w = world();
    let root = PhysAddr(w.mmu.cr3);
    let pa = mm_allocate_page(&mut w.mmu.phys).unwrap();
    let va = 0x70_0000u64;
    assert!(mm_map_user_range(&mut w.mmu.phys, root, va, pa, 1, false, false));
    assert!(!write_user(&mut w.mmu, va, &[1]));
    assert!(nt_protect_virtual_memory(&mut w.mmu, va, 4096));
    assert!(write_user(&mut w.mmu, va, &[1]));
}

#[test]
fn a_service_finds_its_buffers_in_memory() {
    let mut w = world();
    let mut pf = PageFile::new();
    let mut out = Vec::new();
    let at = vad_allocate(&mut w.db, PhysAddr(w.mmu.cr3), 4, true, false).unwrap();
    let a = Arguments { a1: 4, a2: at + 0xFF0, a3: 0x20, a4: 0 };
    assert_eq!(direct_buffers(Service::WriteFile, a), vec![(at + 0xFF0, 0x20)]);
    assert_eq!(direct_buffers(Service::QueryTickCount, a), vec![]);
    let r = page_in_arguments(&w.db, &mut w.mmu, &mut pf, Service::WriteFile, a, &mut out);
    assert_eq!(r, None);
    assert_eq!(read_user(&w.mmu, at + 0xFF0, 0x20), Some(vec![0; 0x20]));
    assert_eq!(read_user(&w.mmu, at + 0x2000, 1), None);
    let none = Arguments { a1: 0, a2: 0xFFFF_8000_0000_0000, a3: 8, a4: 0 };
    let r = page_in_arguments(&w.db, &mut w.mmu, &mut pf, Service::ReadFile, none, &mut out);
    assert_eq!(r, None);
    assert_eq!(out, vec![]);
}

#[test]
fn names_inside_a_structure_are_brought_in_too() {
    let mut w = world();
    let mut pf = PageFile::new();
    let mut out = Vec::new();
    let at = vad_allocate(&mut w.db, PhysAddr(w.mmu.cr3), 2, true, false).unwrap();
    // Attributes that point at a name that points at text on an untouched page.
    poke_words(&mut w, USER, &[0x18, 0, USER + 0x40]);
    poke_words(&mut w, USER + 0x40, &[(16 << 16) | 8, at + 0x1000]);
    let a = Arguments { a1: USER + 0x80, a2: 0, a3: USER, a4: USER + 0x90 };
    assert_eq!(
        nested_buffers(Service::OpenFile, a, &w.mmu, &w.db),
        vec![(USER + 0x40, 16), (at + 0x1000, 8)]
    );
    let r = page_in_nested(&w.db, &mut w.mmu, &mut pf, Service::OpenFile, a, &mut out);
    assert_eq!(r, None);
    assert_eq!(read_user(&w.mmu, at + 0x1000, 8), Some(vec![0; 8]));
}

#[test]
fn registry_requests_are_read_and_answered() {
    let mut w = world();
    let n = poke_text(&mut w, USER + 0x100, "Path");
    assert_eq!(nt_reg_key_path(&w.mmu, &w.db, USER + 0x100, n), units("Path"));
    assert_eq!(nt_reg_key_path(&w.mmu, &w.db, 0, 0), Vec::<u16>::new());
    poke_words(&mut w, USER, &[USER + 0x100, n, USER + 0x200, USER + 0x300, 3]);
    let q = nt_reg_query_value(&w.mmu, &w.db, USER).unwrap();
    assert_eq!(q.name, units("Path"));
    assert!(nt_reg_query_value(&w.mmu, &w.db, 0).is_none());
    let mut data = vec![0u8; 256];
    data[..4].copy_from_slice(&[1, 2, 3, 4]);
    assert_eq!(query_value_reply(&mut w.mmu, &w.db, &q, -1, 1, &data), REG_FAILED);
    assert_eq!(query_value_reply(&mut w.mmu, &w.db, &q, 4, 1, &data), 4);
    assert_eq!(peek(&w, USER + 0x200, 4), vec![1, 0, 0, 0]);
    assert_eq!(peek(&w, USER + 0x300, 4), vec![1, 2, 3, 0]);
    poke_words(&mut w, USER, &[USER + 0x100, n, 7, USER + 0x300, 3]);
    let c = nt_reg_set_value(&w.mmu, &w.db, USER).unwrap();
    assert_eq!((c.name, c.vtype, c.data), (units("Path"), 7, vec![1, 2, 3]));
    poke_words(&mut w, USER, &[USER + 0x100, n, 7, KERNEL_SIDE, 3]);
    assert!(nt_reg_set_value(&w.mmu, &w.db, USER).is_none());
    assert_eq!((set_value_reply(true), set_value_reply(false)), (0, REG_FAILED));
    assert_eq!((nt_reg_enum_key(10), nt_reg_enum_key(1000)), (10, 256));
    assert_eq!(enum_key_reply(&mut w.mmu, &w.db, USER, 2, &units("ab")), 2);
    assert_eq!(peek(&w, USER, 4), vec![b'a', 0, b'b', 0]);
    assert_eq!(enum_key_reply(&mut w.mmu, &w.db, USER, -1, &[]), REG_FAILED);
}

#[test]
fn the_command_line_has_a_default() {
    let mut w = world();
    assert_eq!(nt_get_command_line(&w.d, &mut w.mmu, &w.db, USER, 100), 7);
    assert_eq!(peek(&w, USER, 7), b"app.exe");
    poke(&mut w, USER + 0x100, b"tool -v");
    let t = w.d.current;
    w.d.threads[t].cmdline_ptr = USER + 0x100;
    w.d.threads[t].cmdline_len = 7;
    assert_eq!(nt_get_command_line(&w.d, &mut w.mmu, &w.db, USER, 4), 4);
    assert_eq!(peek(&w, USER, 5), b"toolx"[..4].iter().chain(b"e").copied().collect::<Vec<u8>>());
    assert_eq!(nt_get_command_line(&w.d, &mut w.mmu, &w.db, 0, 4), 0);
}

#[test]
fn debug_text_must_be_readable() {
    let mut w = world();
    poke(&mut w, USER, b"hello");
    assert_eq!(dbg_write_string(&w.mmu, &w.db, USER, 5), Ok(Some(b"hello".to_vec())));
    assert_eq!(dbg_write_string(&w.mmu, &w.db, USER, 4096), Ok(None));
    poke(&mut w, USER, &[0xFF]);
    assert_eq!(dbg_write_string(&w.mmu, &w.db, USER, 1), Ok(None));
    assert_eq!(
        dbg_write_string(&w.mmu, &w.db, KERNEL_SIDE, 5),
        Err(NtStatus(NtStatus::ACCESS_VIOLATION))
    );
}

#[test]
fn texts_need_a_module() {
    let mut w = world();
    let t = MuiTable::new();
    assert_eq!(nt_load_mui_string(&w.d, &t, &mut w.mmu, &w.db, 0x1000, 1, USER, 16), 0);
    assert_eq!(nt_load_message(&w.d, &t, &mut w.mmu, &w.db, 0x1000, 1, USER, 16), 0);
    assert_eq!(nt_load_message(&w.d, &t, &mut w.mmu, &w.db, 0x1000, 1, 0, 16), 0);
}

#[test]
fn modules_are_asked_for_by_user_names() {
    let mut w = world();
    let mut ms = LoadedModules::new(vec![0; kernel::ldr::exports::EXPORT_COUNT]);
    ms.ntdll.base = 0x7000;
    poke(&mut w, USER, b"ntdll.dll");
    assert_eq!(nt_get_module_handle(&ms, &w.mmu, &w.db, USER, 9), 0x7000);
    assert_eq!(nt_get_module_handle(&ms, &w.mmu, &w.db, USER, 4), 0);
    poke(&mut w, USER, b"NtClose");
    assert_eq!(nt_get_proc_address(&ms, &w.mmu, &w.db, 0x7000, USER, 7), 0x7040);
    assert_eq!(nt_get_proc_address(&ms, &w.mmu, &w.db, 0x7000, KERNEL_SIDE, 7), 0);
    let n = poke_text(&mut w, USER, "C:\\c.exe");
    assert_eq!(nt_create_process(&w.mmu, &w.db, USER, n), Some(b"C:\\c.exe".to_vec()));
    assert_eq!(nt_create_process(&w.mmu, &w.db, USER, 129), None);
}
