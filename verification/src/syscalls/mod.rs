//! System services: the `Nt*` routines reachable from user mode.
//!
//! Each service has a number; user mode and the table of
//! [`crate::ke::syscall`] agree on it. Arguments come as four 64-bit values, and
//! every address among them is probed before it is used: a bad one gives an error
//! to the caller, it does not fault the kernel. [`arguments`] brings the buffers that
//! they name into memory before the service runs. Where a service needs a device, a
//! file or the registry, one routine here reads and tests the arguments, the
//! caller asks the device, and another routine lays out the reply.
pub mod arguments;
pub mod buffers;
pub mod files;
pub mod memory;
pub mod process;
pub mod registry;
pub mod text;

use crate::bytes::bytes64;
use crate::ke::bugcheck::{
    halted, ke_bug_check_ex, stopped, Stop, StopAction, MANUALLY_INITIATED_CRASH,
};
use crate::ke::irql::{interrupts_on, Processor, HIGH_LEVEL};
use crate::ke::pcr::{current, current_of, set_current, with_current};
use crate::ke::scheduler::{at_least, ke_delay_execution_thread, waited, Dispatcher, Sched, Spaces, Switch, WaitOutcome};
use crate::ke::signal::{ke_query_tick_count, ki_terminate_current_thread, terminated};
use crate::ke::syscall::{ServiceTable, SSDT_SIZE};
use crate::ke::thread::{Kthread, StdHandles, WaitType};
use crate::mm::phys::PhysState;
use crate::mm::probe::{probe_for_write, probed};
use crate::mm::user::{lemma_small_powers, user_written, write_user};
use crate::mm::vad::VadDatabase;
use crate::mm::virt::Mmu;
use crate::ob::handle::{
    close_deletion, closed, handles_held, object_of, ob_close_handle, ob_create_handle,
    ob_reference_object_by_handle, opened, HandleEntry, HandleTables,
};
use crate::ob::{alive, lemma_referenced, refs, Deletion, ObjectManager};
use crate::rtl::NtStatus;
use crate::syscalls::buffers::word_bytes;
use vstd::prelude::*;

verus! {

pub const SVC_EXIT_THREAD: usize = 0;

pub const SVC_DEBUG_WRITE: usize = 1;

pub const SVC_NT_WRITE_FILE: usize = 2;

pub const SVC_NT_CREATE_FILE: usize = 3;

pub const SVC_NT_CLOSE: usize = 4;

pub const SVC_NT_READ_FILE: usize = 5;

pub const SVC_NT_ALLOCATE_VIRTUAL_MEMORY: usize = 6;

pub const SVC_NT_FREE_VIRTUAL_MEMORY: usize = 7;

pub const SVC_NT_PROTECT_VIRTUAL_MEMORY: usize = 8;

pub const SVC_REPORT_TEST_RESULT: usize = 9;

pub const SVC_NT_DELAY_EXECUTION: usize = 10;

pub const SVC_NT_QUERY_TICK_COUNT: usize = 11;

pub const SVC_INCREMENT_COUNTER: usize = 12;

pub const SVC_GET_MODULE_HANDLE: usize = 13;

pub const SVC_GET_PROC_ADDRESS: usize = 14;

pub const SVC_SET_LAST_ERROR: usize = 15;

pub const SVC_GET_LAST_ERROR: usize = 16;

pub const SVC_QUERY_FILE_SIZE: usize = 17;

pub const SVC_LOAD_MUI_STRING: usize = 18;

pub const SVC_GET_COMMAND_LINE: usize = 19;

pub const SVC_PEEK_CONSOLE_INPUT: usize = 20;

pub const SVC_QUERY_HANDLE: usize = 21;

pub const SVC_REG_OPEN_KEY: usize = 22;

pub const SVC_REG_CREATE_KEY: usize = 23;

pub const SVC_REG_QUERY_VALUE: usize = 24;

pub const SVC_REG_SET_VALUE: usize = 25;

pub const SVC_REG_ENUM_KEY: usize = 26;

pub const SVC_CREATE_PROCESS: usize = 27;

pub const SVC_WAIT_PROCESS: usize = 28;

pub const SVC_GET_EXIT_CODE_PROCESS: usize = 29;

pub const SVC_SET_CONSOLE_MODE: usize = 30;

pub const SVC_LOAD_MESSAGE: usize = 31;

pub const SVC_QUERY_ATTRIBUTES: usize = 32;

pub const SVC_QUERY_DIRECTORY: usize = 33;

pub const SVC_NT_OPEN_FILE: usize = 34;

pub const SVC_BUGCHECK: usize = 35;

pub const SVC_CREATE_PIPE: usize = 36;

pub const SVC_GET_STD_HANDLE: usize = 37;

pub const SVC_SET_STARTUP_HANDLES: usize = 38;

pub const SVC_SET_STD_HANDLE: usize = 39;

/// The services.
#[derive(Debug, Clone, Copy, PartialEq, Eq, Structural)]
pub enum Service {
    ExitThread,
    DebugWrite,
    WriteFile,
    CreateFile,
    Close,
    ReadFile,
    AllocateVirtualMemory,
    FreeVirtualMemory,
    ProtectVirtualMemory,
    ReportTestResult,
    DelayExecution,
    QueryTickCount,
    IncrementCounter,
    GetModuleHandle,
    GetProcAddress,
    SetLastError,
    GetLastError,
    QueryFileSize,
    LoadMuiString,
    GetCommandLine,
    PeekConsoleInput,
    QueryHandle,
    RegOpenKey,
    RegCreateKey,
    RegQueryValue,
    RegSetValue,
    RegEnumKey,
    CreateProcess,
    WaitProcess,
    GetExitCodeProcess,
    SetConsoleMode,
    LoadMessage,
    QueryAttributes,
    QueryDirectory,
    OpenFile,
    Bugcheck,
    CreatePipe,
    GetStdHandle,
    SetStartupHandles,
    SetStdHandle,
}

/// Numbers in use.
pub const SERVICE_COUNT: usize = 40;

/// The service of a number below [`SERVICE_COUNT`].
pub open spec fn service_at(n: int) -> Service {
    if n == SVC_EXIT_THREAD {
        Service::ExitThread
    } else if n == SVC_DEBUG_WRITE {
        Service::DebugWrite
    } else if n == SVC_NT_WRITE_FILE {
        Service::WriteFile
    } else if n == SVC_NT_CREATE_FILE {
        Service::CreateFile
    } else if n == SVC_NT_CLOSE {
        Service::Close
    } else if n == SVC_NT_READ_FILE {
        Service::ReadFile
    } else if n == SVC_NT_ALLOCATE_VIRTUAL_MEMORY {
        Service::AllocateVirtualMemory
    } else if n == SVC_NT_FREE_VIRTUAL_MEMORY {
        Service::FreeVirtualMemory
    } else if n == SVC_NT_PROTECT_VIRTUAL_MEMORY {
        Service::ProtectVirtualMemory
    } else if n == SVC_REPORT_TEST_RESULT {
        Service::ReportTestResult
    } else if n == SVC_NT_DELAY_EXECUTION {
        Service::DelayExecution
    } else if n == SVC_NT_QUERY_TICK_COUNT {
        Service::QueryTickCount
    } else if n == SVC_INCREMENT_COUNTER {
        Service::IncrementCounter
    } else if n == SVC_GET_MODULE_HANDLE {
        Service::GetModuleHandle
    } else if n == SVC_GET_PROC_ADDRESS {
        Service::GetProcAddress
    } else if n == SVC_SET_LAST_ERROR {
        Service::SetLastError
    } else if n == SVC_GET_LAST_ERROR {
        Service::GetLastError
    } else if n == SVC_QUERY_FILE_SIZE {
        Service::QueryFileSize
    } else if n == SVC_LOAD_MUI_STRING {
        Service::LoadMuiString
    } else if n == SVC_GET_COMMAND_LINE {
        Service::GetCommandLine
    } else if n == SVC_PEEK_CONSOLE_INPUT {
        Service::PeekConsoleInput
    } else if n == SVC_QUERY_HANDLE {
        Service::QueryHandle
    } else if n == SVC_REG_OPEN_KEY {
        Service::RegOpenKey
    } else if n == SVC_REG_CREATE_KEY {
        Service::RegCreateKey
    } else if n == SVC_REG_QUERY_VALUE {
        Service::RegQueryValue
    } else if n == SVC_REG_SET_VALUE {
        Service::RegSetValue
    } else if n == SVC_REG_ENUM_KEY {
        Service::RegEnumKey
    } else if n == SVC_CREATE_PROCESS {
        Service::CreateProcess
    } else if n == SVC_WAIT_PROCESS {
        Service::WaitProcess
    } else if n == SVC_GET_EXIT_CODE_PROCESS {
        Service::GetExitCodeProcess
    } else if n == SVC_SET_CONSOLE_MODE {
        Service::SetConsoleMode
    } else if n == SVC_LOAD_MESSAGE {
        Service::LoadMessage
    } else if n == SVC_QUERY_ATTRIBUTES {
        Service::QueryAttributes
    } else if n == SVC_QUERY_DIRECTORY {
        Service::QueryDirectory
    } else if n == SVC_NT_OPEN_FILE {
        Service::OpenFile
    } else if n == SVC_BUGCHECK {
        Service::Bugcheck
    } else if n == SVC_CREATE_PIPE {
        Service::CreatePipe
    } else if n == SVC_GET_STD_HANDLE {
        Service::GetStdHandle
    } else if n == SVC_SET_STARTUP_HANDLES {
        Service::SetStartupHandles
    } else {
        Service::SetStdHandle
    }
}

/// Install all services.
pub fn register_all(table: &mut ServiceTable<Service>)
    requires
        old(table).wf(),
    ensures
        final(table).wf(),
        forall|n: int|
            0 <= n < SERVICE_COUNT ==> #[trigger] final(table).entries@[n] == Some(service_at(n)),
        forall|n: int|
            SERVICE_COUNT <= n < SSDT_SIZE ==> #[trigger] final(table).entries@[n] == old(
                table,
            ).entries@[n],
{
    table.register_service(SVC_EXIT_THREAD, Service::ExitThread);
    table.register_service(SVC_DEBUG_WRITE, Service::DebugWrite);
    table.register_service(SVC_NT_WRITE_FILE, Service::WriteFile);
    table.register_service(SVC_NT_CREATE_FILE, Service::CreateFile);
    table.register_service(SVC_NT_CLOSE, Service::Close);
    table.register_service(SVC_NT_READ_FILE, Service::ReadFile);
    table.register_service(SVC_NT_ALLOCATE_VIRTUAL_MEMORY, Service::AllocateVirtualMemory);
    table.register_service(SVC_NT_FREE_VIRTUAL_MEMORY, Service::FreeVirtualMemory);
    table.register_service(SVC_NT_PROTECT_VIRTUAL_MEMORY, Service::ProtectVirtualMemory);
    table.register_service(SVC_REPORT_TEST_RESULT, Service::ReportTestResult);
    table.register_service(SVC_NT_DELAY_EXECUTION, Service::DelayExecution);
    table.register_service(SVC_NT_QUERY_TICK_COUNT, Service::QueryTickCount);
    table.register_service(SVC_INCREMENT_COUNTER, Service::IncrementCounter);
    table.register_service(SVC_GET_MODULE_HANDLE, Service::GetModuleHandle);
    table.register_service(SVC_GET_PROC_ADDRESS, Service::GetProcAddress);
    table.register_service(SVC_SET_LAST_ERROR, Service::SetLastError);
    table.register_service(SVC_GET_LAST_ERROR, Service::GetLastError);
    table.register_service(SVC_QUERY_FILE_SIZE, Service::QueryFileSize);
    table.register_service(SVC_LOAD_MUI_STRING, Service::LoadMuiString);
    table.register_service(SVC_GET_COMMAND_LINE, Service::GetCommandLine);
    table.register_service(SVC_PEEK_CONSOLE_INPUT, Service::PeekConsoleInput);
    table.register_service(SVC_QUERY_HANDLE, Service::QueryHandle);
    table.register_service(SVC_REG_OPEN_KEY, Service::RegOpenKey);
    table.register_service(SVC_REG_CREATE_KEY, Service::RegCreateKey);
    table.register_service(SVC_REG_QUERY_VALUE, Service::RegQueryValue);
    table.register_service(SVC_REG_SET_VALUE, Service::RegSetValue);
    table.register_service(SVC_REG_ENUM_KEY, Service::RegEnumKey);
    table.register_service(SVC_CREATE_PROCESS, Service::CreateProcess);
    table.register_service(SVC_WAIT_PROCESS, Service::WaitProcess);
    table.register_service(SVC_GET_EXIT_CODE_PROCESS, Service::GetExitCodeProcess);
    table.register_service(SVC_SET_CONSOLE_MODE, Service::SetConsoleMode);
    table.register_service(SVC_LOAD_MESSAGE, Service::LoadMessage);
    table.register_service(SVC_QUERY_ATTRIBUTES, Service::QueryAttributes);
    table.register_service(SVC_QUERY_DIRECTORY, Service::QueryDirectory);
    table.register_service(SVC_NT_OPEN_FILE, Service::OpenFile);
    table.register_service(SVC_BUGCHECK, Service::Bugcheck);
    table.register_service(SVC_CREATE_PIPE, Service::CreatePipe);
    table.register_service(SVC_GET_STD_HANDLE, Service::GetStdHandle);
    table.register_service(SVC_SET_STARTUP_HANDLES, Service::SetStartupHandles);
    table.register_service(SVC_SET_STD_HANDLE, Service::SetStdHandle);
}

/// Every service has one number.
pub proof fn service_numbers_are_distinct(a: int, b: int)
    requires
        0 <= a < SERVICE_COUNT,
        0 <= b < SERVICE_COUNT,
        service_at(a) == service_at(b),
    ensures
        a == b,
{
}

// ---------------------------------------------------------------------------
// The test channels
// ---------------------------------------------------------------------------
/// A counter that threads share, and the last result that a program reported.
#[derive(Debug, Clone, Copy, PartialEq, Eq, Structural)]
pub struct TestChannel {
    pub counter: u64,
    pub result: u64,
}

impl TestChannel {
    pub fn new() -> (c: Self)
        ensures
            c == (TestChannel { counter: 0, result: 0 }),
    {
        TestChannel { counter: 0, result: 0 }
    }
}

/// The shared counter.
pub fn counter_value(c: &TestChannel) -> (r: u64)
    ensures
        r == c.counter,
{
    c.counter
}

/// The last reported result.
pub fn test_result(c: &TestChannel) -> (r: u64)
    ensures
        r == c.result,
{
    c.result
}

/// The counter after one more increment, modulo 2^64.
pub open spec fn counted(n: u64) -> u64 {
    if n == u64::MAX {
        0
    } else {
        (n + 1) as u64
    }
}

/// Increment the shared counter and return it.
pub fn increment_counter(c: &mut TestChannel) -> (r: u64)
    ensures
        r == counted(old(c).counter),
        *final(c) == (TestChannel { counter: r, ..*old(c) }),
{
    c.counter = c.counter.wrapping_add(1);
    c.counter
}

/// Record a program's result.
pub fn report_test_result(c: &mut TestChannel, code: u64) -> (status: NtStatus)
    ensures
        status == NtStatus(NtStatus::SUCCESS),
        *final(c) == (TestChannel { result: code, ..*old(c) }),
{
    c.result = code;
    NtStatus(NtStatus::SUCCESS)
}

/// The counter after `n` increments.
pub open spec fn counted_times(c: u64, n: nat) -> u64
    decreases n,
{
    if n == 0 {
        c
    } else {
        counted(counted_times(c, (n - 1) as nat))
    }
}

/// No increment is lost: after `n` of them the counter stands `n` higher.
pub proof fn no_increment_is_lost(c: u64, n: nat)
    requires
        c + n <= u64::MAX,
    ensures
        counted_times(c, n) == c + n,
    decreases n,
{
    if n > 0 {
        no_increment_is_lost(c, (n - 1) as nat);
    }
}

// ---------------------------------------------------------------------------
// The calling thread
// ---------------------------------------------------------------------------
/// One of three handles.
pub open spec fn handle_at(h: StdHandles, i: u64) -> u64 {
    if i == 0 {
        h.input
    } else if i == 1 {
        h.output
    } else {
        h.error
    }
}

/// The handles with one replaced.
pub open spec fn with_handle(h: StdHandles, i: u64, v: u64) -> StdHandles {
    if i == 0 {
        StdHandles { input: v, ..h }
    } else if i == 1 {
        StdHandles { output: v, ..h }
    } else {
        StdHandles { error: v, ..h }
    }
}

/// `SetStdHandle`: redirect standard input (0), output (1) or error (2) of the
/// calling thread. Returns whether there is such a handle.
pub fn nt_set_std_handle(d: &mut Dispatcher, which: u64, handle: u64) -> (r: u64)
    requires
        old(d).wf(),
    ensures
        final(d).wf(),
        which > 2 ==> r == 0 && final(d)@ == old(d)@,
        which <= 2 ==> r == 1 && final(d)@ == with_current(
            old(d)@,
            Kthread {
                std_handles: with_handle(current_of(old(d)@).std_handles, which, handle),
                ..current_of(old(d)@)
            },
        ),
{
    if which > 2 {
        return 0;
    }
    let mut th: Kthread = current(d);
    if which == 0 {
        th.std_handles.input = handle;
    } else if which == 1 {
        th.std_handles.output = handle;
    } else {
        th.std_handles.error = handle;
    }
    set_current(d, th);
    1
}

/// `GetStdHandle`: a standard handle of the calling thread, 0 for the console.
pub fn nt_get_std_handle(d: &Dispatcher, which: u64) -> (r: u64)
    requires
        d.wf(),
    ensures
        r == if which > 2 {
            0
        } else {
            handle_at(current_of(d@).std_handles, which)
        },
{
    if which > 2 {
        return 0;
    }
    let th: Kthread = current(d);
    if which == 0 {
        th.std_handles.input
    } else if which == 1 {
        th.std_handles.output
    } else {
        th.std_handles.error
    }
}

/// A redirected handle is the one that is read back, and no other changes.
pub proof fn a_redirected_handle_reads_back(h: StdHandles, i: u64, j: u64, v: u64)
    requires
        i <= 2,
        j <= 2,
    ensures
        handle_at(with_handle(h, i, v), j) == if i == j {
            v
        } else {
            handle_at(h, j)
        },
{
}

/// Stage the standard handles of the next child that this thread creates.
pub fn nt_set_startup_handles(d: &mut Dispatcher, h_in: u64, h_out: u64, h_err: u64) -> (r: u64)
    requires
        old(d).wf(),
    ensures
        final(d).wf(),
        r == 0,
        final(d)@ == with_current(
            old(d)@,
            Kthread {
                child_std_handles: (StdHandles { input: h_in, output: h_out, error: h_err }),
                ..current_of(old(d)@)
            },
        ),
{
    let mut th: Kthread = current(d);
    th.child_std_handles = StdHandles { input: h_in, output: h_out, error: h_err };
    set_current(d, th);
    0
}

/// `SetLastError`: the low half of `code` becomes the thread's last error.
pub fn set_last_error(d: &mut Dispatcher, code: u64) -> (status: NtStatus)
    requires
        old(d).wf(),
    ensures
        final(d).wf(),
        status == NtStatus(NtStatus::SUCCESS),
        final(d)@ == with_current(
            old(d)@,
            Kthread { last_error: (code % 0x1_0000_0000) as u32, ..current_of(old(d)@) },
        ),
{
    let mut th: Kthread = current(d);
    th.last_error = (code % 0x1_0000_0000) as u32;
    set_current(d, th);
    NtStatus(NtStatus::SUCCESS)
}

/// `GetLastError`.
pub fn get_last_error(d: &Dispatcher) -> (r: u64)
    requires
        d.wf(),
    ensures
        r == current_of(d@).last_error,
{
    let th: Kthread = current(d);
    th.last_error as u64
}

/// The state with the running thread's exit code recorded.
pub open spec fn with_exit_code(s: Sched, code: u64) -> Sched {
    with_current(s, Kthread { exit_code: (code % 0x1_0000_0000) as u32, ..current_of(s) })
}

/// `NtTerminateThread` on the calling thread: record its exit code and end it.
pub fn nt_terminate_thread(d: &mut Dispatcher, code: u64, sp: &Spaces) -> (r: Option<Switch>)
    requires
        old(d).wf(),
    ensures
        final(d).wf(),
        (final(d)@, r) == terminated(with_exit_code(old(d)@, code), *sp),
{
    let mut th: Kthread = current(d);
    th.exit_code = (code % 0x1_0000_0000) as u32;
    set_current(d, th);
    ki_terminate_current_thread(d, sp)
}

/// A service that waits and succeeds whatever the wait came to.
pub open spec fn succeeds(o: WaitOutcome) -> WaitOutcome {
    match o {
        WaitOutcome::Done(_) => WaitOutcome::Done(NtStatus(NtStatus::SUCCESS)),
        WaitOutcome::Blocked(w) => WaitOutcome::Blocked(w),
    }
}

/// `NtDelayExecution`: sleep for some milliseconds, at least one. The answer is success,
/// also when the thread runs again after it has blocked.
pub fn nt_delay_execution(d: &mut Dispatcher, millis: u64, sp: &Spaces) -> (r: WaitOutcome)
    requires
        old(d).wf(),
        old(d)@.tick + at_least(millis as int, 1) <= u64::MAX,
    ensures
        final(d).wf(),
        ({
            let (s, o) = waited(
                old(d)@,
                Seq::<usize>::empty(),
                WaitType::All,
                Some(at_least(millis as int, 1) as u64),
                *sp,
            );
            final(d)@ == s && r == succeeds(o)
        }),
{
    let ticks: u64 = if millis < 1 {
        1
    } else {
        millis
    };
    match ke_delay_execution_thread(d, ticks, sp) {
        WaitOutcome::Done(_) => WaitOutcome::Done(NtStatus(NtStatus::SUCCESS)),
        WaitOutcome::Blocked(w) => WaitOutcome::Blocked(w),
    }
}

/// `NtQueryTickCount`.
pub fn nt_query_tick_count(d: &Dispatcher) -> (t: u64)
    ensures
        t == d@.tick,
{
    ke_query_tick_count(d)
}

/// The stop code of a crash that user mode asks for.
pub open spec fn requested_stop(code: u64) -> Stop {
    Stop {
        code: if code == 0 {
            MANUALLY_INITIATED_CRASH
        } else {
            (code % 0x1_0000_0000) as u32
        },
        p1: 0,
        p2: 0,
        p3: 0,
        p4: 0,
    }
}

/// Crash the machine on request.
pub fn nt_bugcheck(cpu: &mut Processor, latch: &mut bool, code: u64) -> (a: StopAction)
    requires
        old(cpu).irql <= HIGH_LEVEL,
    ensures
        *final(latch),
        *final(cpu) == halted(*old(cpu)),
        !interrupts_on(final(cpu).rflags),
        a == stopped(*old(latch), requested_stop(code)),
{
    let stop: u32 = if code == 0 {
        MANUALLY_INITIATED_CRASH
    } else {
        (code % 0x1_0000_0000) as u32
    };
    ke_bug_check_ex(cpu, latch, stop, 0, 0, 0, 0)
}

// ---------------------------------------------------------------------------
// Handles
// ---------------------------------------------------------------------------
/// Whether a handle names an object: 1 or 0. No reference is taken.
pub fn nt_query_handle(tables: &HandleTables, d: &Dispatcher, handle: u64) -> (r: u64)
    requires
        tables.wf(),
        d.wf(),
    ensures
        r == if object_of(tables@, current_of(d@).cr3, handle) is Ok {
            1int
        } else {
            0
        },
{
    match ob_reference_object_by_handle(tables, d, handle) {
        Ok(_) => 1,
        Err(_) => 0,
    }
}

/// `NtClose`: close a handle. Returns the object to delete if that was the last
/// reference.
pub fn nt_close(
    tables: &mut HandleTables,
    om: &mut ObjectManager,
    d: &Dispatcher,
    handle: u64,
) -> (r: (NtStatus, Option<Deletion>))
    requires
        old(tables).wf(),
        old(om).wf(),
        d.wf(),
        handles_held(old(tables)@, old(om).objects@),
    ensures
        final(tables).wf(),
        final(om).wf(),
        final(om).types@ == old(om).types@,
        handles_held(final(tables)@, final(om).objects@),
        (final(tables)@, final(om).objects@, r.0) == closed(
            old(tables)@,
            old(om).objects@,
            current_of(d@).cr3,
            handle,
        ),
        r.1 == close_deletion(
            old(tables)@,
            old(om).objects@,
            old(om).types@,
            current_of(d@).cr3,
            handle,
        ),
{
    ob_close_handle(tables, om, d, handle)
}

/// `PeekConsoleInput`: the next byte, or all ones when there is none.
pub fn nt_peek_console_input(byte: Option<u8>) -> (r: u64)
    ensures
        r == match byte {
            Some(b) => b as u64,
            None => u64::MAX,
        },
{
    match byte {
        Some(b) => b as u64,
        None => 0xFFFF_FFFF_FFFF_FFFF,
    }
}

/// The buffer for the two handles of a pipe can be written.
pub open spec fn pipe_buffer_ok(mmu: &Mmu, db: &VadDatabase, out_ptr: u64) -> bool {
    out_ptr != 0 && probed(mmu, db, out_ptr, 16, 8) is Ok
}

/// `CreatePipe`: may the pipe be made? If not, the service returns 0.
pub fn nt_create_pipe(mmu: &Mmu, db: &VadDatabase, out_ptr: u64) -> (r: bool)
    requires
        db.wf(),
    ensures
        r == pipe_buffer_ok(mmu, db, out_ptr),
{
    proof {
        lemma_small_powers();
    }
    out_ptr != 0 && probe_for_write(mmu, db, out_ptr, 16, 8).is_ok()
}

/// `CreatePipe` after the pipe was made: open a handle to each end and write the
/// two to the caller's buffer, the read end first.
pub fn create_pipe_finish(
    tables: &mut HandleTables,
    om: &mut ObjectManager,
    d: &Dispatcher,
    mmu: &mut Mmu,
    db: &VadDatabase,
    read_end: u64,
    write_end: u64,
    out_ptr: u64,
) -> (r: u64)
    requires
        old(tables).wf(),
        old(om).wf(),
        d.wf(),
        db.wf(),
        old(mmu).phys.wf(),
        pipe_buffer_ok(old(mmu), db, out_ptr),
        alive(old(om).objects@, read_end),
        alive(old(om).objects@, write_end),
        refs(old(om).objects@, read_end) < i64::MAX - 1,
        refs(old(om).objects@, write_end) < i64::MAX - 1,
    ensures
        final(tables).wf(),
        final(om).wf(),
        final(om).types@ == old(om).types@,
        final(mmu).phys.wf(),
        final(mmu).same_registers(old(mmu)),
        r == 1,
        ({
            let cr3 = current_of(d@).cr3;
            let (t1, o1, rh) = opened(
                old(tables)@,
                old(om).objects@,
                cr3,
                HandleEntry { object: read_end, granted_access: 0 },
            );
            let (t2, o2, wh) = opened(
                t1,
                o1,
                cr3,
                HandleEntry { object: write_end, granted_access: 0 },
            );
            let root = old(mmu).root();
            let r1 = user_written(old(mmu).ram(), root, out_ptr, bytes64(rh)).0;
            let r2 = user_written(r1, root, (out_ptr + 8) as u64, bytes64(wh)).0;
            &&& final(tables)@ == t2
            &&& final(om).objects@ == o2
            &&& final(mmu).phys@ == (PhysState { ram: r2, ..old(mmu).phys@ })
        }),
{
    proof {
        lemma_referenced(om.objects@, read_end);
    }
    let rh: u64 = ob_create_handle(tables, om, d, read_end, 0);
    let wh: u64 = ob_create_handle(tables, om, d, write_end, 0);
    let rb: Vec<u8> = word_bytes(rh);
    let wb: Vec<u8> = word_bytes(wh);
    let _read: bool = write_user(mmu, out_ptr, &rb);
    let _write: bool = write_user(mmu, out_ptr + 8, &wb);
    1
}

/// The services go by the numbers that programs are built with.
pub proof fn services_go_by_their_numbers()
    ensures
        service_at(0) is ExitThread,
        service_at(1) is DebugWrite,
        service_at(2) is WriteFile,
        service_at(3) is CreateFile,
        service_at(4) is Close,
        service_at(5) is ReadFile,
        service_at(6) is AllocateVirtualMemory,
        service_at(7) is FreeVirtualMemory,
        service_at(8) is ProtectVirtualMemory,
        service_at(9) is ReportTestResult,
        service_at(10) is DelayExecution,
        service_at(11) is QueryTickCount,
        service_at(12) is IncrementCounter,
        service_at(13) is GetModuleHandle,
        service_at(14) is GetProcAddress,
        service_at(15) is SetLastError,
        service_at(16) is GetLastError,
        service_at(17) is QueryFileSize,
        service_at(18) is LoadMuiString,
        service_at(19) is GetCommandLine,
        service_at(20) is PeekConsoleInput,
        service_at(21) is QueryHandle,
        service_at(22) is RegOpenKey,
        service_at(23) is RegCreateKey,
        service_at(24) is RegQueryValue,
        service_at(25) is RegSetValue,
        service_at(26) is RegEnumKey,
        service_at(27) is CreateProcess,
        service_at(28) is WaitProcess,
        service_at(29) is GetExitCodeProcess,
        service_at(30) is SetConsoleMode,
        service_at(31) is LoadMessage,
        service_at(32) is QueryAttributes,
        service_at(33) is QueryDirectory,
        service_at(34) is OpenFile,
        service_at(35) is Bugcheck,
        service_at(36) is CreatePipe,
        service_at(37) is GetStdHandle,
        service_at(38) is SetStartupHandles,
        service_at(39) is SetStdHandle,
{
}

/// Every increment adds one; only the largest count starts over.
pub proof fn an_increment_adds_one(n: u64)
    ensures
        n < u64::MAX ==> counted(n) == n + 1,
        counted(u64::MAX) == 0,
{
}

/// The three handles are the input, the output and the error handle, in this order.
pub proof fn handles_are_in_order(h: StdHandles, v: u64)
    ensures
        handle_at(h, 0) == h.input,
        handle_at(h, 1) == h.output,
        handle_at(h, 2) == h.error,
        with_handle(h, 0, v) == (StdHandles { input: v, ..h }),
        with_handle(h, 1, v) == (StdHandles { output: v, ..h }),
        with_handle(h, 2, v) == (StdHandles { error: v, ..h }),
{
}

/// An exit code is kept in 32 bits, on the thread that ends, and nothing else of it changes.
pub proof fn an_exit_code_is_kept_on_the_thread(s: Sched, code: u64)
    requires
        s.current < s.threads.len(),
    ensures
        current_of(with_exit_code(s, code)).exit_code == code % 0x1_0000_0000,
        current_of(with_exit_code(s, code)) == (Kthread {
            exit_code: (code % 0x1_0000_0000) as u32,
            ..current_of(s)
        }),
{
}

/// A delay that ends, ends well: that its time ran out is what was asked for.
pub proof fn a_delay_that_ends_succeeds(o: WaitOutcome)
    ensures
        o is Done ==> succeeds(o) == WaitOutcome::Done(NtStatus(0)),
        o is Blocked ==> succeeds(o) == o,
{
}

/// A program that asks for a stop gets the code it gave, or the code of a manual crash where
/// it gave none.
pub proof fn a_requested_stop_has_its_code(code: u64)
    ensures
        requested_stop(0).code == 0xE2,
        0 < code <= 0xFFFF_FFFF ==> requested_stop(code).code == code,
        requested_stop(code).p1 == 0 && requested_stop(code).p2 == 0 && requested_stop(code).p3
            == 0 && requested_stop(code).p4 == 0,
{
}

/// The two handles of a pipe need sixteen bytes of the caller's own memory.
pub proof fn a_pipe_needs_room_for_two_handles(mmu: &Mmu, db: &VadDatabase, out_ptr: u64)
    ensures
        !pipe_buffer_ok(mmu, db, 0),
        out_ptr != 0 ==> pipe_buffer_ok(mmu, db, out_ptr) == (probed(mmu, db, out_ptr, 16, 8) is Ok),
{
}

} // verus!
