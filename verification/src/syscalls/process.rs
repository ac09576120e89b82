//! Process and module services.
use crate::ke::pcr::{current, current_of, set_current, with_current};
use crate::ke::scheduler::{Dispatcher, Sched};
use crate::ke::thread::{Kthread, StdHandles};
use crate::ldr::loaded::{base_by_name, module_base, modules_wf, proc_address, routine_in, LoadedModules};
use crate::mm::vad::VadDatabase;
use crate::mm::virt::Mmu;
use crate::syscalls::buffers::{
    narrow, narrowed, read_user_name, read_user_path, read_user_u16, user_name, user_path,
    user_units,
};
use vstd::prelude::*;

verus! {

/// Units of the longest image path or command line of a new process.
pub const MAX_IMAGE_PATH: usize = 128;

/// Longest module name.
pub const MAX_MODULE_NAME: usize = 64;

/// Longest name of an exported routine.
pub const MAX_PROC_NAME: usize = 128;

/// `CreateProcess`: the path of the image to look up; without one the service
/// returns 0.
pub fn nt_create_process(mmu: &Mmu, db: &VadDatabase, path_ptr: u64, path_len: u64) -> (r: Option<
    Vec<u8>,
>)
    requires
        db.wf(),
    ensures
        match r {
            Some(v) => user_path(mmu, db, path_ptr, path_len as int, MAX_IMAGE_PATH as int) == Some(
                v@,
            ),
            None => user_path(mmu, db, path_ptr, path_len as int, MAX_IMAGE_PATH as int) is None,
        },
{
    read_user_path(mmu, db, path_ptr, path_len, MAX_IMAGE_PATH)
}

/// The command line of a new process: the caller's, or else the image path.
pub open spec fn child_line(mmu: &Mmu, db: &VadDatabase, path: Seq<u8>, cmd_ptr: u64, cmd_len: u64) -> Seq<
    u8,
> {
    match user_units(mmu, db, cmd_ptr, cmd_len as int, MAX_IMAGE_PATH as int) {
        Some(u) => narrowed(u),
        None => path,
    }
}

/// The state after the handles staged for a child were taken.
pub open spec fn handles_taken(s: Sched) -> Sched {
    with_current(s, Kthread { child_std_handles: StdHandles::console(), ..current_of(s) })
}

/// `CreateProcess` after the image was found: the child's command line and
/// standard handles. The handles staged for it are used up.
pub fn child_arguments(
    d: &mut Dispatcher,
    mmu: &Mmu,
    db: &VadDatabase,
    path: Vec<u8>,
    cmd_ptr: u64,
    cmd_len: u64,
) -> (r: (Vec<u8>, StdHandles))
    requires
        old(d).wf(),
        db.wf(),
    ensures
        final(d).wf(),
        r.0@ == child_line(mmu, db, path@, cmd_ptr, cmd_len),
        r.1 == current_of(old(d)@).child_std_handles,
        final(d)@ == handles_taken(old(d)@),
{
    let line: Vec<u8> = match read_user_u16(mmu, db, cmd_ptr, cmd_len, MAX_IMAGE_PATH) {
        Some(u) => narrow(&u),
        None => path,
    };
    let mut th: Kthread = current(d);
    let staged: StdHandles = th.child_std_handles;
    th.child_std_handles = StdHandles { input: 0, output: 0, error: 0 };
    set_current(d, th);
    (line, staged)
}

/// `GetModuleHandle`: the base of a loaded module, 0 when there is none of that
/// name.
pub fn nt_get_module_handle(
    ms: &LoadedModules,
    mmu: &Mmu,
    db: &VadDatabase,
    name_ptr: u64,
    name_len: u64,
) -> (r: u64)
    requires
        db.wf(),
    ensures
        r == match user_name(mmu, db, name_ptr, name_len as int, MAX_MODULE_NAME as int) {
            Some(name) => base_by_name(ms@, name),
            None => 0,
        },
{
    match read_user_name(mmu, db, name_ptr, name_len, MAX_MODULE_NAME) {
        Some(name) => module_base(ms, &name),
        None => 0,
    }
}

/// `GetProcAddress`: the address of a routine that a module exports, 0 when it
/// exports none of that name.
pub fn nt_get_proc_address(
    ms: &LoadedModules,
    mmu: &Mmu,
    db: &VadDatabase,
    base: u64,
    name_ptr: u64,
    name_len: u64,
) -> (r: u64)
    requires
        db.wf(),
        modules_wf(ms@),
    ensures
        r == match user_name(mmu, db, name_ptr, name_len as int, MAX_PROC_NAME as int) {
            Some(name) => routine_in(ms@, base, name),
            None => 0,
        },
{
    match read_user_name(mmu, db, name_ptr, name_len, MAX_PROC_NAME) {
        Some(name) => proc_address(ms, base, &name),
        None => 0,
    }
}

/// Handles staged for a child reach the first child only.
pub proof fn staged_handles_are_used_once(s: Sched)
    requires
        s.current < s.threads.len(),
    ensures
        current_of(handles_taken(s)).child_std_handles == StdHandles::console(),
        current_of(handles_taken(s)).std_handles == current_of(s).std_handles,
{
}

/// A child is given the command line that its parent passes, or its own path where the
/// parent passes none that can be read.
pub proof fn a_child_gets_its_command_line(
    mmu: &Mmu,
    db: &VadDatabase,
    path: Seq<u8>,
    cmd_ptr: u64,
    cmd_len: u64,
)
    ensures
        cmd_ptr == 0 || cmd_len == 0 || cmd_len > 128 ==> child_line(
            mmu,
            db,
            path,
            cmd_ptr,
            cmd_len,
        ) == path,
        user_units(mmu, db, cmd_ptr, cmd_len as int, 128) is Some ==> child_line(
            mmu,
            db,
            path,
            cmd_ptr,
            cmd_len,
        ) == narrowed(user_units(mmu, db, cmd_ptr, cmd_len as int, 128)->0),
{
}

/// Once they are handed over, the handles that were staged for a child are the console's
/// again; the thread itself keeps its own.
pub proof fn staged_handles_are_handed_over(s: Sched)
    requires
        s.current < s.threads.len(),
    ensures
        ({
            let th = current_of(handles_taken(s));
            &&& th.child_std_handles.input == 0
            &&& th.child_std_handles.output == 0
            &&& th.child_std_handles.error == 0
            &&& th.std_handles == current_of(s).std_handles
        }),
{
}

} // verus!
