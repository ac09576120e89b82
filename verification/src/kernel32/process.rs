//! Processes, waits and the registry: what goes into a request to the kernel and
//! what its answer means to the program.
use crate::bytes::{
    bytes32, bytes64, get32, get64, lemma_bytes32, lemma_bytes64, lemma_get32_in, lemma_get64_in, put32,
    put64,
};
use crate::kernel32::strings::{ended, text, wstrlen};
use vstd::prelude::*;
use vstd::slice::slice_subrange;

verus! {

pub const ERROR_SUCCESS: i32 = 0;

pub const ERROR_FILE_NOT_FOUND: i32 = 2;

pub const ERROR_MORE_DATA: i32 = 234;

pub const ERROR_NO_MORE_ITEMS: i32 = 259;

/// The disposition of a key that was created.
pub const REG_CREATED_NEW_KEY: u32 = 1;

pub const WAIT_OBJECT_0: u32 = 0;

pub const WAIT_TIMEOUT: u32 = 0x102;

/// Handles of processes start here.
pub const PROC_HANDLE_BASE: u64 = 0x3000_0000;

/// ASCII white space: space, tab, line feed, form feed and carriage return.
pub open spec fn is_white(c: u16) -> bool {
    c == 0x20 || c == 0x09 || c == 0x0A || c == 0x0C || c == 0x0D
}

/// Where the first word of a command line ends, from `i` on: at white space or at the
/// end.
pub open spec fn word_end(s: Seq<u16>, i: int) -> int
    decreases s.len() - i,
{
    if i < 0 || i >= s.len() || is_white(s[i]) {
        i
    } else {
        word_end(s, i + 1)
    }
}

/// The image that a process is made from: the application name, or the first word
/// of the command line.
pub open spec fn image_path(app: Option<Seq<u16>>, line: Option<Seq<u16>>) -> Option<Seq<u16>> {
    if app is Some && app->Some_0.len() > 0 {
        app
    } else {
        match line {
            Some(l) => Some(l.take(word_end(l, 0))),
            None => None,
        }
    }
}

/// The string behind an optional pointer.
pub open spec fn optional_text(s: Option<&[u16]>) -> Option<Seq<u16>> {
    match s {
        Some(m) => Some(text(m@)),
        None => None,
    }
}

/// `CreateProcessW`: the path of the image; none fails the call.
pub fn CreateProcessW(application_name: Option<&[u16]>, command_line: Option<&[u16]>) -> (r: Option<
    Vec<u16>,
>)
    requires
        application_name matches Some(s) ==> ended(s@),
        command_line matches Some(s) ==> ended(s@),
    ensures
        match r {
            Some(p) => image_path(optional_text(application_name), optional_text(command_line))
                == Some(p@),
            None => image_path(optional_text(application_name), optional_text(command_line)) is None,
        },
{
    match application_name {
        Some(a) => {
            let n: usize = wstrlen(a);
            if n > 0 {
                let mut p: Vec<u16> = Vec::new();
                p.extend_from_slice(slice_subrange(a, 0, n));
                assert(p@ =~= text(a@));
                return Some(p);
            }
        },
        None => {},
    }
    match command_line {
        None => None,
        Some(l) => {
            let n: usize = wstrlen(l);
            let line = slice_subrange(l, 0, n);
            assert(line@ =~= text(l@));
            let mut e: usize = 0;
            while e < n && line[e] != 0x20 && line[e] != 0x09 && line[e] != 0x0A && line[e]
                != 0x0C && line[e] != 0x0D
                invariant
                    e <= n,
                    n == line@.len(),
                    word_end(line@, 0) == word_end(line@, e as int),
                decreases n - e,
            {
                e = e + 1;
            }
            let mut p: Vec<u16> = Vec::new();
            p.extend_from_slice(slice_subrange(line, 0, e));
            assert(p@ =~= line@.take(e as int));
            Some(p)
        },
    }
}

/// The record for a new process: its handle twice, and an identifier twice.
pub open spec fn process_information(handle: u64) -> Seq<u8> {
    let id = (handle % 0x1_0000) as u32;
    bytes64(handle) + bytes64(handle) + bytes32(id) + bytes32(id)
}

/// `CreateProcessW` after the kernel made the process: the record to write.
pub fn process_record(handle: u64) -> (b: Vec<u8>)
    ensures
        b@ == process_information(handle),
{
    let mut b: Vec<u8> = vec![0u8; 24];
    let id: u32 = (handle % 0x1_0000) as u32;
    put64(&mut b, 0, handle);
    put64(&mut b, 8, handle);
    put32(&mut b, 16, id);
    put32(&mut b, 20, id);
    assert(b@ =~= process_information(handle));
    b
}

/// `WaitForSingleObject`: whether the kernel is asked to wait. Anything but a
/// process counts as signaled.
pub fn waits_for_process(handle: u64) -> (r: bool)
    ensures
        r == (handle >= PROC_HANDLE_BASE),
{
    handle >= PROC_HANDLE_BASE
}

/// `WaitForSingleObject` after the wait: signaled, or timed out.
pub fn WaitForSingleObject(handle: u64, status: u64) -> (r: u32)
    ensures
        r == if handle >= PROC_HANDLE_BASE && status != 0 {
            WAIT_TIMEOUT
        } else {
            WAIT_OBJECT_0
        },
{
    if handle >= PROC_HANDLE_BASE && status != 0 {
        WAIT_TIMEOUT
    } else {
        WAIT_OBJECT_0
    }
}

/// `CloseHandle`: success for a success status.
pub fn CloseHandle(status: u64) -> (r: i32)
    ensures
        r == if status == 0 {
            1int
        } else {
            0
        },
{
    if status == 0 {
        1
    } else {
        0
    }
}

/// `GetModuleHandleExW`: the base of the calling program, whatever was asked for.
pub fn GetModuleHandleExW(image_base: u64, module: Option<&mut u64>) -> (r: i32)
    ensures
        r == 1,
        module matches Some(m) ==> *final(m) == image_base,
{
    if let Some(m) = module {
        *m = image_base;
    }
    1
}

/// `GetModuleHandleExA` after the kernel looked the module up: the result, and the
/// handle to store.
pub fn GetModuleHandleExA(handle: Option<u64>) -> (r: (i32, u64))
    ensures
        r.1 == match handle {
            Some(h) => h,
            None => 0,
        },
        r.0 == if r.1 != 0 {
            1int
        } else {
            0
        },
{
    let h: u64 = match handle {
        Some(h) => h,
        None => 0,
    };
    if h != 0 {
        (1, h)
    } else {
        (0, h)
    }
}

/// `GetExitCodeProcess`: the code that the kernel gave.
pub fn GetExitCodeProcess(answer: u64, code: Option<&mut u32>) -> (r: i32)
    ensures
        r == 1,
        code matches Some(c) ==> *final(c) == answer % 0x1_0000_0000,
{
    if let Some(c) = code {
        *c = (answer % 0x1_0000_0000) as u32;
    }
    1
}

/// `TerminateProcess`: whether the calling thread ends, which it does for the
/// handle of the current process.
pub fn TerminateProcess(process: u64) -> (r: bool)
    ensures
        r == (process == current_process()),
{
    process == 0xFFFF_FFFF_FFFF_FFFF
}

/// The handle that stands for the current process.
pub open spec fn current_process() -> u64 {
    u64::MAX
}

/// `GetCurrentProcess`.
pub fn GetCurrentProcess() -> (h: u64)
    ensures
        h == current_process(),
{
    0xFFFF_FFFF_FFFF_FFFF
}

// ---------------------------------------------------------------------------
// The registry
// ---------------------------------------------------------------------------
/// The status for the handle of a key that the kernel gave.
pub open spec fn key_status(handle: u64) -> i32 {
    if handle == 0 {
        ERROR_FILE_NOT_FOUND
    } else {
        ERROR_SUCCESS
    }
}

/// `RegOpenKeyExW` after the kernel answered: the handle is handed on unless there
/// is no such key.
pub fn RegOpenKeyExW(handle: u64, result: Option<&mut u64>) -> (r: i32)
    ensures
        r == key_status(handle),
        result matches Some(h) ==> *final(h) == if handle == 0 {
            *h
        } else {
            handle
        },
{
    if handle == 0 {
        return ERROR_FILE_NOT_FOUND;
    }
    if let Some(h) = result {
        *h = handle;
    }
    ERROR_SUCCESS
}

/// `RegCreateKeyExW` after the kernel answered: the handle is handed on, and the key
/// is called a new one whether it existed or not.
pub fn RegCreateKeyExW(
    handle: u64,
    result: Option<&mut u64>,
    disposition: Option<&mut u32>,
) -> (r: i32)
    ensures
        r == key_status(handle),
        result matches Some(h) ==> *final(h) == if handle == 0 {
            *h
        } else {
            handle
        },
        disposition matches Some(d) ==> *final(d) == if handle == 0 {
            *d
        } else {
            REG_CREATED_NEW_KEY
        },
{
    if handle == 0 {
        return ERROR_FILE_NOT_FOUND;
    }
    if let Some(h) = result {
        *h = handle;
    }
    if let Some(d) = disposition {
        *d = REG_CREATED_NEW_KEY;
    }
    ERROR_SUCCESS
}

/// `RegGetValueW`: whether a subkey is opened first.
pub fn RegGetValueW(subkey: Option<&[u16]>) -> (r: bool)
    requires
        subkey matches Some(s) ==> s@.len() > 0,
    ensures
        r == (subkey is Some && subkey->Some_0@[0] != 0),
{
    match subkey {
        Some(s) => s[0] != 0,
        None => false,
    }
}

/// The status of a query that gave `n` bytes (negative for no value) to a buffer of
/// `cap` bytes.
pub open spec fn query_status(n: i64, cap: int, has_data: bool) -> i32 {
    if n < 0 {
        ERROR_FILE_NOT_FOUND
    } else if n > cap && has_data {
        ERROR_MORE_DATA
    } else {
        ERROR_SUCCESS
    }
}

/// `RegQueryValueExW` after the kernel answered: the status, and the length to
/// report if the value exists.
pub fn RegQueryValueExW(n: i64, cap: Option<u32>, has_data: bool) -> (r: (i32, Option<u32>))
    requires
        n <= u32::MAX,
    ensures
        r.0 == query_status(
            n,
            match cap {
                Some(c) => c as int,
                None => 0,
            },
            has_data,
        ),
        r.1 == if n >= 0 && cap is Some {
            Some(n as u32)
        } else {
            None
        },
{
    if n < 0 {
        return (ERROR_FILE_NOT_FOUND, None);
    }
    let (room, reported): (i64, Option<u32>) = match cap {
        Some(c) => (c as i64, Some(n as u32)),
        None => (0, None),
    };
    if n > room && has_data {
        (ERROR_MORE_DATA, reported)
    } else {
        (ERROR_SUCCESS, reported)
    }
}

/// `RegSetValueExW` after the kernel answered.
pub fn RegSetValueExW(answer: u64) -> (r: i32)
    ensures
        r == if answer == u64::MAX {
            ERROR_FILE_NOT_FOUND
        } else {
            ERROR_SUCCESS
        },
{
    if answer == 0xFFFF_FFFF_FFFF_FFFF {
        ERROR_FILE_NOT_FOUND
    } else {
        ERROR_SUCCESS
    }
}

/// What `RegEnumKeyExW` comes to.
#[derive(Debug, Clone, Copy, PartialEq, Eq, Structural)]
pub struct EnumReply {
    pub status: i32,
    /// Where a NUL goes in the caller's buffer.
    pub nul_at: Option<u32>,
    /// The length to report.
    pub count: Option<u32>,
}

/// `RegEnumKeyExW` after the kernel gave a name of `n` units, or a negative number
/// past the end.
pub fn RegEnumKeyExW(n: i64, cap: Option<u32>, has_name: bool) -> (r: EnumReply)
    requires
        n <= u32::MAX,
    ensures
        r == if n < 0 {
            EnumReply { status: ERROR_NO_MORE_ITEMS, nul_at: None, count: None }
        } else {
            EnumReply {
                status: ERROR_SUCCESS,
                nul_at: if has_name && cap is Some && n < cap->Some_0 {
                    Some(n as u32)
                } else {
                    None
                },
                count: if cap is Some {
                    Some(n as u32)
                } else {
                    None
                },
            }
        },
{
    if n < 0 {
        return EnumReply { status: ERROR_NO_MORE_ITEMS, nul_at: None, count: None };
    }
    match cap {
        None => EnumReply { status: ERROR_SUCCESS, nul_at: None, count: None },
        Some(c) => {
            let nul_at: Option<u32> = if has_name && n < c as i64 {
                Some(n as u32)
            } else {
                None
            };
            EnumReply { status: ERROR_SUCCESS, nul_at, count: Some(n as u32) }
        },
    }
}

/// Without an application name, the first word of the command line names the image: it ends
/// at the first white space, or with the line.
pub proof fn the_first_word_names_the_image(w: Seq<u16>, rest: Seq<u16>)
    requires
        forall|i: int|
            0 <= i < w.len() ==> (#[trigger] w[i]) != 0x20 && w[i] != 0x09 && w[i] != 0x0A && w[i]
                != 0x0C && w[i] != 0x0D,
        rest.len() > 0 ==> rest[0] == 0x20 || rest[0] == 0x09 || rest[0] == 0x0A || rest[0] == 0x0C
            || rest[0] == 0x0D,
    ensures
        image_path(None, Some(w + rest)) == Some(w),
        image_path(Some(Seq::empty()), Some(w + rest)) == Some(w),
        w.len() > 0 ==> image_path(Some(w), Some(rest)) == Some(w),
        w.len() > 0 ==> image_path(Some(w), None) == Some(w),
        image_path(None, None) is None,
{
    lemma_word_end(w, rest, 0);
    assert((w + rest).take(w.len() as int) =~= w);
}

proof fn lemma_word_end(w: Seq<u16>, rest: Seq<u16>, i: int)
    requires
        0 <= i <= w.len(),
        forall|k: int| 0 <= k < w.len() ==> !is_white(#[trigger] w[k]),
        rest.len() > 0 ==> is_white(rest[0]),
    ensures
        word_end(w + rest, i) == w.len(),
    decreases w.len() - i,
{
    if i < w.len() {
        assert((w + rest)[i] == w[i]);
        lemma_word_end(w, rest, i + 1);
    } else if rest.len() > 0 {
        assert((w + rest)[i] == rest[0]);
    }
}

/// A new process is told by two equal handles and two equal numbers, in four fields of 24
/// bytes.
pub proof fn a_process_record_reads_back(handle: u64)
    ensures
        ({
            let b = process_information(handle);
            &&& b.len() == 24
            &&& get64(b, 0) == handle
            &&& get64(b, 8) == handle
            &&& get32(b, 16) == handle % 0x1_0000
            &&& get32(b, 20) == handle % 0x1_0000
        }),
{
    let id = (handle % 0x1_0000) as u32;
    let b = process_information(handle);
    lemma_bytes64(handle);
    lemma_bytes32(id);
    lemma_get64_in(b, 0, bytes64(handle));
    lemma_get64_in(b, 8, bytes64(handle));
    lemma_get32_in(b, 16, bytes32(id));
    lemma_get32_in(b, 20, bytes32(id));
}

/// A query that cannot be answered in full says why: no such value, or more data than the
/// buffer takes. Asking for the size alone always succeeds.
pub proof fn a_query_tells_what_went_wrong(n: i64, cap: int)
    ensures
        n < 0 ==> query_status(n, cap, true) == 2 && query_status(n, cap, false) == 2,
        n >= 0 ==> query_status(n, cap, false) == 0,
        0 <= n <= cap ==> query_status(n, cap, true) == 0,
        0 <= n && n > cap ==> query_status(n, cap, true) == 234,
        key_status(0) == 2,
        n > 0 ==> key_status(n as u64) == 0,
{
}

} // verus!
