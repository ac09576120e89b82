//! Routines with a fixed answer.
//!
//! Programs import them, and the answer lets them go on; what they would do has no
//! counterpart here.
use vstd::prelude::*;

verus! {

/// The error code for a file that does not exist.
pub const ERROR_FILE_NOT_FOUND: u32 = 2;

/// The error code for the end of a directory.
pub const ERROR_NO_MORE_FILES: u32 = 18;

/// A handle that names nothing.
pub const INVALID_HANDLE_VALUE: u64 = 0xFFFF_FFFF_FFFF_FFFF;

/// Attributes of a file that does not exist.
pub const INVALID_FILE_ATTRIBUTES: u32 = 0xFFFF_FFFF;

/// `IsDebuggerPresent`: no program is debugged.
pub fn IsDebuggerPresent() -> (r: i32)
    ensures
        r == 0,
{
    0
}

/// `HeapSetInformation`: accepted; the heap has no policy to set.
pub fn HeapSetInformation() -> (r: i32)
    ensures
        r == 1,
{
    1
}

/// `UnhandledExceptionFilter`: the handler is run.
pub fn UnhandledExceptionFilter() -> (r: i32)
    ensures
        r == 1,
{
    1
}

/// `GetCurrentProcessId`: a fixed number.
pub fn GetCurrentProcessId() -> (r: u32)
    ensures
        r == 4,
{
    4
}

/// `GetCurrentThreadId`: a fixed number.
pub fn GetCurrentThreadId() -> (r: u32)
    ensures
        r == 8,
{
    8
}

/// `GetCurrentThread`: the handle that stands for the current thread.
pub fn GetCurrentThread() -> (r: u64)
    ensures
        r == 0xFFFF_FFFF_FFFF_FFFE,
{
    0xFFFF_FFFF_FFFF_FFFE
}

/// `GetProcessHeap`: the handle of the one heap.
pub fn GetProcessHeap() -> (r: u64)
    ensures
        r == 1,
{
    1
}

/// `FreeLibrary`: accepted; modules stay loaded.
pub fn FreeLibrary() -> (r: i32)
    ensures
        r == 1,
{
    1
}

/// `GetDiskFreeSpaceA`: there is no disk.
pub fn GetDiskFreeSpaceA() -> (r: i32)
    ensures
        r == 0,
{
    0
}

/// `GetOverlappedResult`: transfers are complete when they return.
pub fn GetOverlappedResult() -> (r: i32)
    ensures
        r == 1,
{
    1
}

/// `GetTempFileNameA`: there is no place for temporary files.
pub fn GetTempFileNameA() -> (r: u32)
    ensures
        r == 0,
{
    0
}

/// `GetTempPath2A`: there is no place for temporary files.
pub fn GetTempPath2A() -> (r: u32)
    ensures
        r == 0,
{
    0
}

/// `CreateEventA`: a handle that is not null.
pub fn CreateEventA() -> (r: u64)
    ensures
        r == 0x1000,
{
    0x1000
}

/// `ResetEvent`: accepted.
pub fn ResetEvent() -> (r: i32)
    ensures
        r == 1,
{
    1
}

/// `RtlLookupFunctionEntry`: no function has unwind data.
pub fn RtlLookupFunctionEntry() -> (r: u64)
    ensures
        r == 0,
{
    0
}

/// `RtlVirtualUnwind`: no frame has a handler.
pub fn RtlVirtualUnwind() -> (r: u64)
    ensures
        r == 0,
{
    0
}

/// `IsTextUnicode`: text counts as bytes.
pub fn IsTextUnicode() -> (r: i32)
    ensures
        r == 0,
{
    0
}

/// `FindStringOrdinal`: not found.
pub fn FindStringOrdinal() -> (r: i32)
    ensures
        r == -1,
{
    -1
}

/// `GetThreadLocale`: US English.
pub fn GetThreadLocale() -> (r: u32)
    ensures
        r == 0x0409,
{
    0x0409
}

/// `GetUserDefaultLCID`: US English.
pub fn GetUserDefaultLCID() -> (r: u32)
    ensures
        r == 0x0409,
{
    0x0409
}

/// `GetConsoleOutputCP`: the US code page.
pub fn GetConsoleOutputCP() -> (r: u32)
    ensures
        r == 437,
{
    437
}

/// `GetACP`: the US code page.
pub fn GetACP() -> (r: u32)
    ensures
        r == 437,
{
    437
}

/// `SetConsoleCtrlHandler`: accepted; there are no control events.
pub fn SetConsoleCtrlHandler() -> (r: i32)
    ensures
        r == 1,
{
    1
}

/// `Beep`: accepted; there is no speaker.
pub fn Beep() -> (r: i32)
    ensures
        r == 1,
{
    1
}

/// `HeapValidate`: the heap counts as valid.
pub fn HeapValidate() -> (r: i32)
    ensures
        r == 1,
{
    1
}

/// `FlushConsoleInputBuffer`: accepted.
pub fn FlushConsoleInputBuffer() -> (r: i32)
    ensures
        r == 1,
{
    1
}

/// `RtlVerifyVersionInfo`: every version asked for is there.
pub fn RtlVerifyVersionInfo() -> (r: i32)
    ensures
        r == 0,
{
    0
}

/// `SetErrorMode`: accepted; the mode before was 0.
pub fn SetErrorMode() -> (r: u32)
    ensures
        r == 0,
{
    0
}

/// `FreeEnvironmentStringsW`: accepted; the block stays.
pub fn FreeEnvironmentStringsW() -> (r: i32)
    ensures
        r == 1,
{
    1
}

/// `GetFileInformationByHandle`: not supported.
pub fn GetFileInformationByHandle() -> (r: i32)
    ensures
        r == 0,
{
    0
}

/// `FindClose`: accepted.
pub fn FindClose() -> (r: i32)
    ensures
        r == 1,
{
    1
}

/// `InitializeCriticalSectionEx`: accepted.
pub fn InitializeCriticalSectionEx() -> (r: i32)
    ensures
        r == 1,
{
    1
}

/// `InitializeCriticalSectionAndSpinCount`: accepted.
pub fn InitializeCriticalSectionAndSpinCount() -> (r: i32)
    ensures
        r == 1,
{
    1
}

/// `TryAcquireSRWLockExclusive`: locks are always free.
pub fn TryAcquireSRWLockExclusive() -> (r: u8)
    ensures
        r == 1,
{
    1
}

/// `InitOnceComplete`: accepted.
pub fn InitOnceComplete() -> (r: i32)
    ensures
        r == 1,
{
    1
}

/// `IsProcessorFeaturePresent`: no optional feature is there.
pub fn IsProcessorFeaturePresent() -> (r: i32)
    ensures
        r == 0,
{
    0
}

/// `EventUnregister`: accepted; nothing is traced.
pub fn EventUnregister() -> (r: u32)
    ensures
        r == 0,
{
    0
}

/// `EventSetInformation`: accepted; nothing is traced.
pub fn EventSetInformation() -> (r: u32)
    ensures
        r == 0,
{
    0
}

/// `EventWriteTransfer`: accepted; nothing is traced.
pub fn EventWriteTransfer() -> (r: u32)
    ensures
        r == 0,
{
    0
}

/// `GetConsoleWindow`: the console has no window.
pub fn GetConsoleWindow() -> (r: u64)
    ensures
        r == 0,
{
    0
}

/// `RegCloseKey`: accepted; keys stay open.
pub fn RegCloseKey() -> (r: i32)
    ensures
        r == 0,
{
    0
}

/// `RegDeleteKeyExW`: accepted; nothing is deleted.
pub fn RegDeleteKeyExW() -> (r: i32)
    ensures
        r == 0,
{
    0
}

/// `RegDeleteValueW`: accepted; nothing is deleted.
pub fn RegDeleteValueW() -> (r: i32)
    ensures
        r == 0,
{
    0
}

/// `DllMain`: the module loads.
pub fn DllMain() -> (r: i32)
    ensures
        r == 1,
{
    1
}

/// `FindFirstFileExW`: nothing is found. The result and the last error.
pub fn FindFirstFileExW() -> (r: (u64, u32))
    ensures
        r.0 == INVALID_HANDLE_VALUE,
        r.1 == ERROR_FILE_NOT_FOUND,
{
    (INVALID_HANDLE_VALUE, ERROR_FILE_NOT_FOUND)
}

/// `FindFirstFileW`: nothing is found. The result and the last error.
pub fn FindFirstFileW() -> (r: (u64, u32))
    ensures
        r.0 == INVALID_HANDLE_VALUE,
        r.1 == ERROR_FILE_NOT_FOUND,
{
    (INVALID_HANDLE_VALUE, ERROR_FILE_NOT_FOUND)
}

/// `FindNextFileW`: there are no more files. The result and the last error.
pub fn FindNextFileW() -> (r: (i32, u32))
    ensures
        r.0 == 0,
        r.1 == ERROR_NO_MORE_FILES,
{
    (0, ERROR_NO_MORE_FILES)
}

/// `GetFileAttributesW`: no file exists. The result and the last error.
pub fn GetFileAttributesW() -> (r: (u32, u32))
    ensures
        r.0 == INVALID_FILE_ATTRIBUTES,
        r.1 == ERROR_FILE_NOT_FOUND,
{
    (INVALID_FILE_ATTRIBUTES, ERROR_FILE_NOT_FOUND)
}

/// `VerSetConditionMask`: the mask is handed through.
pub fn VerSetConditionMask(mask: u64) -> (r: u64)
    ensures
        r == mask,
{
    mask
}

/// `FileTimeToLocalFileTime`: there are no time zones, so that the time is copied
/// where both ends are given.
pub fn FileTimeToLocalFileTime(time: Option<u64>, local: Option<&mut u64>) -> (r: i32)
    ensures
        r == 1,
        local matches Some(l) ==> *final(l) == match time {
            Some(t) => t,
            None => *l,
        },
{
    if let Some(l) = local {
        if let Some(t) = time {
            *l = t;
        }
    }
    1
}

/// `FileTimeToSystemTime`: the broken-down time is all zero.
pub fn FileTimeToSystemTime(time: Option<&mut [u16; 8]>) -> (r: i32)
    ensures
        r == 1,
        time matches Some(t) ==> forall|i: int| 0 <= i < 8 ==> #[trigger] final(t)@[i] == 0,
{
    if let Some(t) = time {
        *t = [0u16; 8];
    }
    1
}

/// `SetUnhandledExceptionFilter`: accepted; there was no filter before.
pub fn SetUnhandledExceptionFilter() -> (before: u64)
    ensures
        before == 0,
{
    0
}

/// `InitOnceBeginInitialize`: the caller is to initialize, and there is no context.
pub fn InitOnceBeginInitialize(pending: Option<&mut i32>, context: Option<&mut u64>) -> (r: i32)
    ensures
        r == 1,
        pending matches Some(p) ==> *final(p) == 1,
        context matches Some(c) ==> *final(c) == 0,
{
    if let Some(p) = pending {
        *p = 1;
    }
    if let Some(c) = context {
        *c = 0;
    }
    1
}

/// `EventRegister`: accepted, with no events to come.
pub fn EventRegister(handle: Option<&mut u64>) -> (r: u32)
    ensures
        r == 0,
        handle matches Some(h) ==> *final(h) == 0,
{
    if let Some(h) = handle {
        *h = 0;
    }
    0
}

} // verus!
