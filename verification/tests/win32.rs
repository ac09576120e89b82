//! The user-mode routines.
use kernel::kernel32::compare::{
    lstrcmpA, lstrcmpW, lstrcmpiA, lstrcmpiW, CompareStringA, CompareStringOrdinal, CompareStringW,
};
use kernel::kernel32::console::{
    cached_handle, opened_path, remember_handle, ConsoleState, CreateFileA, CreateFileW,
    GetConsoleMode, GetFileSize, GetFileType, GetStdHandle, OpenTarget, PeekConsoleInputW, ReadFile,
    SetConsoleMode, WriteFile,
    FILE_TYPE_CHAR, FILE_TYPE_UNKNOWN, INVALID_HANDLE_VALUE, STD_ERROR_HANDLE, STD_INPUT_HANDLE,
    STD_OUTPUT_HANDLE,
};
use kernel::kernel32::env::{
    Environment, ExpandEnvironmentStringsW, GetEnvironmentStringsA, GetEnvironmentStringsW,
    GetEnvironmentVariableA, GetEnvironmentVariableW, SetEnvironmentVariableW,
};
use kernel::kernel32::fixed;
use kernel::kernel32::heap::{
    align16, heap_grow, GlobalAlloc, GlobalFree, Heap, HeapAlloc, HeapFree, HeapReAlloc,
    HeapSize, HeapStep, LocalFree, VirtualFree, HEAP_CHUNK,
};
use kernel::kernel32::messages::{asks_for_message, is_insert, FormatMessageA, FormatMessageW};
use kernel::kernel32::process::{
    process_record, waits_for_process, CloseHandle, CreateProcessW,
    GetCurrentProcess, GetExitCodeProcess, GetModuleHandleExA, GetModuleHandleExW, RegCreateKeyExW,
    RegEnumKeyExW, RegOpenKeyExW, RegGetValueW, RegQueryValueExW,
    RegSetValueExW, TerminateProcess, WaitForSingleObject, ERROR_FILE_NOT_FOUND, ERROR_MORE_DATA,
    ERROR_NO_MORE_ITEMS, ERROR_SUCCESS,
};
use kernel::kernel32::resources::{
    align4, asked_module, find_version_resource, load_string_from_image, GetFileVersionInfoExW,
    GetFileVersionInfoSizeExW, LoadStringW, StringSource, VerQueryValueW,
};
use kernel::kernel32::strings::{
    char_upper, k_strlen, lstrcatA, lstrcpyA, lstrlenA, lstrlenW, narrow_name, read_console_want,
    wstrlen, CharNextW, CharUpperBuffW, CharUpperW, GetCommandLineA, GetCommandLineW,
    GetModuleHandleA, GetModuleHandleW, GetProcAddress, LoadLibraryA, MultiByteToWideChar, OutputDebugStringA, OutputDebugStringW, ReadConsoleW,
    RtlMultiByteToUnicodeN, RtlUnicodeToOemN, StrTrimW, WideCharToMultiByte, WriteConsoleA, WriteConsoleW,
};
use kernel::kernel32::system::{
    CpInfo, GetCPInfo, GetCurrentDirectoryW, GetDateFormatW, GetFullPathNameW, GetLongPathNameW, GetModuleFileNameW,
    GetStartupInfoW, GetSystemInfo, GetSystemTimeAsFileTime, GetTickCount, GetTimeFormatW,
    GetVersion, GetVersionExA, GlobalMemoryStatusEx, InterlockedCompareExchange,
    InterlockedDecrement, InterlockedExchange, InterlockedIncrement, MemoryStatusEx,
    OsVersionInfoA, QueryPerformanceCounter, QueryPerformanceFrequency, SetThreadUILanguage,
    FILETIME_BOOT_ANCHOR,
};

fn wide(t: &str) -> Vec<u16> {
    t.encode_utf16().chain([0]).collect()
}

fn units(t: &str) -> Vec<u16> {
    t.encode_utf16().collect()
}

#[test]
fn strings_compare_by_their_first_difference() {
    assert_eq!(lstrcmpW(&wide("abc"), &wide("abc")), 0);
    assert!(lstrcmpW(&wide("abc"), &wide("abd")) < 0);
    assert!(lstrcmpW(&wide("b"), &wide("abc")) > 0);
    assert!(lstrcmpW(&wide("ab"), &wide("abc")) < 0);
    assert_ne!(lstrcmpW(&wide("ABC"), &wide("abc")), 0);
    assert_eq!(lstrcmpiW(&wide("ABC"), &wide("abc")), 0);
    assert_eq!(lstrcmpA(Some(b"x\0"), Some(b"x\0")), 0);
    assert_eq!(lstrcmpiA(Some(b"X\0"), Some(b"x\0")), 0);
    assert_eq!(lstrcmpA(None, None), 0);
}

#[test]
fn the_ordering_routines_answer_one_two_or_three() {
    assert_eq!(CompareStringW(0, &wide("a"), -1, &wide("b"), -1), 1);
    assert_eq!(CompareStringW(0, &wide("a"), -1, &wide("a"), -1), 2);
    assert_eq!(CompareStringW(0, &wide("b"), -1, &wide("a"), -1), 3);
    assert_eq!(CompareStringW(1, &wide("A"), -1, &wide("a"), -1), 2);
    assert_eq!(CompareStringW(0, &wide("abX"), 2, &wide("abY"), 2), 2);
    assert_eq!(CompareStringW(0, &wide("ab"), -1, &wide("a"), -1), 3);
    assert_eq!(CompareStringA(1, b"KEY\0", -1, b"key\0", -1), 2);
    assert_eq!(CompareStringOrdinal(&wide("A"), -1, &wide("a"), -1, 1), 2);
    assert_ne!(CompareStringOrdinal(&wide("A"), -1, &wide("a"), -1, 0), 2);
}

#[test]
fn the_standard_streams_are_apart() {
    let mut c = ConsoleState::new();
    assert_eq!(GetStdHandle(&c, STD_OUTPUT_HANDLE, true), None);
    remember_handle(&mut c, STD_INPUT_HANDLE, 4);
    remember_handle(&mut c, STD_OUTPUT_HANDLE, 8);
    remember_handle(&mut c, STD_ERROR_HANDLE, 12);
    assert_eq!(cached_handle(&c, STD_INPUT_HANDLE), 4);
    assert_eq!(GetStdHandle(&c, STD_OUTPUT_HANDLE, true), Some(8));
    assert_eq!(GetStdHandle(&c, STD_OUTPUT_HANDLE, false), None);
    assert_eq!(cached_handle(&c, STD_ERROR_HANDLE), 12);
    assert_eq!(GetFileType(&c, 8), FILE_TYPE_CHAR);
    assert_eq!(GetFileType(&c, 99), FILE_TYPE_UNKNOWN);
    assert_eq!(GetFileType(&c, 0), FILE_TYPE_UNKNOWN);
    assert_eq!((GetConsoleMode(&c, 4), GetConsoleMode(&c, 8)), (7, 3));
    assert!(SetConsoleMode(&mut c, 4, 0));
    assert!(!SetConsoleMode(&mut c, 8, 5));
    assert_eq!((GetConsoleMode(&c, 4), GetConsoleMode(&c, 8)), (0, 5));
}

#[test]
fn the_console_has_names() {
    assert!(matches!(CreateFileA(None), OpenTarget::Nothing));
    assert!(matches!(CreateFileA(Some(b"CONIN$\0")), OpenTarget::Console));
    assert!(matches!(CreateFileA(Some(b"conout$\0")), OpenTarget::Console));
    assert!(matches!(CreateFileA(Some(b"C:\\a\0")), OpenTarget::Path(p) if p == b"C:\\a"));
    assert!(matches!(CreateFileW(Some(&wide("CON"))), OpenTarget::Console));
    assert!(matches!(CreateFileW(Some(&wide("x.txt"))), OpenTarget::Path(p) if p == b"x.txt"));
    assert_eq!(opened_path(0), INVALID_HANDLE_VALUE);
    assert_eq!(opened_path(4), 4);
}

#[test]
fn a_waiting_key_is_shown_as_an_event() {
    let (n, b) = PeekConsoleInputW(Some(b'q'), Some(vec![0xEE; 20]), 1);
    let b = b.unwrap();
    assert_eq!(n, 1);
    assert_eq!((b[0], b[1], b[4], b[8], b[14], b[16]), (1, 0, 1, 1, b'q', 0));
    assert_eq!(PeekConsoleInputW(None, Some(vec![1; 20]), 1), (0, Some(vec![1; 20])));
    assert_eq!(PeekConsoleInputW(Some(1), None, 1), (0, None));
}

#[test]
fn variables_are_set_read_and_deleted() {
    let mut e = Environment::new();
    let get = |e: &Environment, name: &str| {
        let r = GetEnvironmentVariableW(e, Some(&wide(name)), true, 200);
        if r.not_found { None } else { Some(r.units[..r.result as usize].to_vec()) }
    };
    assert_eq!(get(&e, "PATH"), Some(units("C:\\")));
    assert_eq!(get(&e, "path"), Some(units("C:\\")));
    assert_eq!(get(&e, "NONE"), None);
    assert_eq!(SetEnvironmentVariableW(&mut e, Some(&wide("NONE")), Some(&wide("some"))), 1);
    assert_eq!(get(&e, "NONE"), Some(units("some")));
    assert_eq!(get(&e, "PATH"), Some(units("C:\\")));
    assert_eq!(SetEnvironmentVariableW(&mut e, Some(&wide("NONE")), Some(&wide("other"))), 1);
    assert_eq!(get(&e, "NONE"), Some(units("other")));
    assert_eq!(SetEnvironmentVariableW(&mut e, Some(&wide("NONE")), None), 1);
    assert_eq!(get(&e, "NONE"), None);
    assert_eq!(SetEnvironmentVariableW(&mut e, None, None), 0);
    let long: Vec<u16> = vec![65; 5000].into_iter().chain([0]).collect();
    assert_eq!(SetEnvironmentVariableW(&mut e, Some(&wide("BIG")), Some(&long)), 0);
    let r = GetEnvironmentVariableW(&e, Some(&wide("PATH")), true, 3);
    assert_eq!((r.result, r.units.len()), (4, 0));
}

#[test]
fn the_block_lists_the_variables() {
    let e = Environment { entries: vec![units("A=1"), units("B=2")] };
    assert_eq!(GetEnvironmentStringsW(&e), units("A=1\0B=2\0\0"));
    let ansi = GetEnvironmentStringsA();
    assert_eq!(ansi, b"OS=ntoskrnl-rs\0ARCH=x86_64\0\0");
    let (n, v, found) = GetEnvironmentVariableA(&ansi, b"ARCH\0", 32);
    assert_eq!((n, v, found), (6, b"x86_64\0".to_vec(), true));
    assert_eq!(GetEnvironmentVariableA(&ansi, b"ARC\0", 32).2, false);
}

#[test]
fn the_block_stays_in_order() {
    let mut e = Environment::new();
    assert_eq!(SetEnvironmentVariableW(&mut e, Some(&wide("A")), Some(&wide("1"))), 1);
    assert_eq!(GetEnvironmentStringsW(&e)[..4], units("A=1\0"));
    assert_eq!(SetEnvironmentVariableW(&mut e, Some(&wide("ZED")), Some(&wide("9"))), 1);
    let b = GetEnvironmentStringsW(&e);
    assert_eq!(b[b.len() - 7..], units("ZED=9\0\0"));
    assert_eq!(SetEnvironmentVariableW(&mut e, Some(&wide("os")), Some(&wide("x"))), 1);
    let names: Vec<Vec<u16>> = e
        .entries
        .iter()
        .map(|v| v.iter().take_while(|&&c| c != 61).map(|&c| char_upper(c)).collect())
        .collect();
    let mut sorted = names.clone();
    sorted.sort();
    assert_eq!(names, sorted);
    assert_eq!(names.len(), 8);
}

#[test]
fn a_long_name_is_expanded_whole() {
    let name = "N".repeat(90);
    let e = Environment { entries: vec![units(&format!("{}=v", name))] };
    let r = ExpandEnvironmentStringsW(&e, Some(&wide(&format!("<%{}%>", name))), true, 100);
    assert_eq!(r, (4, wide("<v>")));
}

#[test]
fn percent_names_are_expanded() {
    let e = Environment { entries: vec![units("A=one"), units("B=2")] };
    let expand = |t: &str| ExpandEnvironmentStringsW(&e, Some(&wide(t)), true, 100);
    assert_eq!(expand("x%A%y"), (6, wide("xoney")));
    assert_eq!(expand("%B%%A%"), (5, wide("2one")));
    assert_eq!(expand("%C%"), (4, wide("%C%")));
    assert_eq!(expand("50%"), (4, wide("50%")));
    assert_eq!(ExpandEnvironmentStringsW(&e, None, true, 100), (0, vec![]));
    assert_eq!(ExpandEnvironmentStringsW(&e, Some(&wide("%A%")), false, 0), (4, vec![]));
}

fn grow(h: &mut Heap, bytes: u64, base: u64) -> u64 {
    match HeapAlloc(h, bytes) {
        HeapStep::Block(p) => p,
        HeapStep::Grow(chunk) => heap_grow(h, bytes, base, chunk),
    }
}

#[test]
fn heap_blocks_are_apart_and_used_again() {
    let mut h = Heap::new();
    assert!(matches!(HeapAlloc(&mut h, 100), HeapStep::Grow(HEAP_CHUNK)));
    assert_eq!(grow(&mut h, 100, 0), 0);
    let a = grow(&mut h, 100, 0x10_0000);
    assert_eq!(a, 0x10_0010);
    let b = grow(&mut h, 20, 0);
    assert!(b >= a + 100);
    assert_eq!(b % 16, 0);
    assert_eq!(HeapSize(&h, a), 112);
    assert_eq!(HeapSize(&h, 0), u64::MAX);
    assert_eq!(HeapFree(&mut h, a), 1);
    assert_eq!(HeapFree(&mut h, 0), 0);
    assert_eq!(grow(&mut h, 50, 0), a);
    let c = grow(&mut h, 200, 0);
    assert_eq!(HeapReAlloc(&mut h, b, 200, c), 32);
    assert_eq!(HeapReAlloc(&mut h, 0, 200, c), 0);
    assert!(matches!(HeapAlloc(&mut h, 0x2_0000), HeapStep::Grow(0x2_0010)));
    assert_eq!((LocalFree(&mut h, c), LocalFree(&mut h, 0)), (0, 0));
    assert_eq!(grow(&mut h, 200, 0), c);
    assert_eq!((GlobalFree(&mut h, c), GlobalFree(&mut h, 0)), (0, 0));
    assert_eq!((align16(0), align16(1), align16(16)), (0, 16, 16));
    let (step, clear) = GlobalAlloc(&mut h, 0x40, 200);
    assert!(matches!(step, HeapStep::Block(at) if at == c));
    assert_eq!(clear, 200);
    let (step, clear) = GlobalAlloc(&mut h, 0, 0x2_0000);
    assert!(matches!(step, HeapStep::Grow(0x2_0010)));
    assert_eq!(clear, 0);
    assert_eq!(VirtualFree(0, 1), None);
    assert_eq!(VirtualFree(0x1000, 0), Some(4096));
    assert_eq!(VirtualFree(0x1000, 8192), Some(8192));
}

#[test]
fn messages_take_inserts() {
    let args = vec![Some(wide("disk")), None];
    let format = |t: &str, flags: u32| FormatMessageW(flags, &units(t), true, 64, Some(&args));
    assert_eq!(format("no %1!", 0), (7, wide("no disk")));
    assert_eq!(format("no %1!s!.", 0), (8, wide("no disk.")));
    assert_eq!(format("%2|%3|", 0), (2, wide("||")));
    assert_eq!(format("100%%", 0), (4, wide("100%")));
    assert_eq!(format("no %1", 0x200), (5, wide("no %1")));
    assert_eq!(FormatMessageW(0, &units("abc"), true, 3, None), (2, wide("ab")));
    assert_eq!(FormatMessageW(0, &[], true, 64, None), (13, wide("Unknown error")));
    assert_eq!(FormatMessageW(0, &units("abc"), false, 3, None), (0, vec![]));
    assert_eq!(FormatMessageA(true, 8), (7, b"Unknown\0".to_vec()));
    assert_eq!(FormatMessageA(true, 0), (0, vec![]));
    assert!(asks_for_message(0x1000) && asks_for_message(0x800) && !asks_for_message(0x200));
    assert!(!is_insert(0) && !is_insert(0xFFFF) && is_insert(0x1_0000));
}

#[test]
fn a_process_is_named_by_its_path_or_its_line() {
    let path = |a: Option<&str>, l: Option<&str>| {
        let a = a.map(wide);
        let l = l.map(wide);
        CreateProcessW(a.as_deref(), l.as_deref())
    };
    assert_eq!(path(Some("C:\\a.exe"), Some("b.exe")), Some(units("C:\\a.exe")));
    assert_eq!(path(None, Some("b.exe /x")), Some(units("b.exe")));
    assert_eq!(path(Some(""), Some("b.exe")), Some(units("b.exe")));
    assert_eq!(path(None, None), None);
    let r = process_record(0x3000_0012);
    assert_eq!(r.len(), 24);
    assert_eq!(r[0..8], 0x3000_0012u64.to_le_bytes());
    assert_eq!(r[16..20], 0x12u32.to_le_bytes());
}

#[test]
fn the_first_word_ends_at_any_white_space() {
    assert_eq!(CreateProcessW(None, Some(&wide("C:\\a.exe\targ"))), Some(units("C:\\a.exe")));
    assert_eq!(CreateProcessW(None, Some(&wide("a\nb"))), Some(units("a")));
    let long = "x".repeat(300);
    assert_eq!(CreateProcessW(None, Some(&wide(&format!("{} y", long)))), Some(units(&long)));
}

#[test]
fn a_negative_room_sets_no_limit() {
    assert_eq!(MultiByteToWideChar(Some(b"ab\0"), -1, true, -5), (3, wide("ab")));
    assert_eq!(WideCharToMultiByte(Some(&wide("ab")), -1, true, -5), (3, b"ab\0".to_vec()));
    assert_eq!(MultiByteToWideChar(Some(b"ab\0"), -1, false, -5), (0, vec![]));
    assert_eq!(MultiByteToWideChar(Some(b"ab\0"), -1, true, 3), (3, wide("ab")));
}

#[test]
fn no_module_means_the_program_itself() {
    assert_eq!(asked_module(0, 0x14000_0000), 0x14000_0000);
    assert_eq!(asked_module(0x7000, 0x14000_0000), 0x7000);
}

#[test]
fn waits_and_handles_answer_as_documented() {
    assert!(waits_for_process(0x3000_0000) && !waits_for_process(0x2FFF_FFFF));
    assert_eq!(WaitForSingleObject(0x3000_0001, 0), 0);
    assert_eq!(WaitForSingleObject(0x3000_0001, 1), 0x102);
    assert_eq!(WaitForSingleObject(8, 1), 0);
    assert_eq!((CloseHandle(0), CloseHandle(1)), (1, 0));
    assert_eq!(GetModuleHandleExA(Some(7)), (1, 7));
    assert_eq!(GetModuleHandleExA(None), (0, 0));
    let mut base = 0;
    assert_eq!(GetModuleHandleExW(0x1000, Some(&mut base)), 1);
    assert_eq!(base, 0x1000);
    assert!(TerminateProcess(GetCurrentProcess()));
    assert!(!TerminateProcess(4));
}

#[test]
fn registry_answers_become_error_codes() {
    let (mut key, mut disposition) = (7u64, 7u32);
    assert_eq!(RegOpenKeyExW(0, Some(&mut key)), ERROR_FILE_NOT_FOUND);
    assert_eq!(RegCreateKeyExW(0, Some(&mut key), Some(&mut disposition)), ERROR_FILE_NOT_FOUND);
    assert_eq!((key, disposition), (7, 7));
    assert_eq!(RegOpenKeyExW(4, Some(&mut key)), ERROR_SUCCESS);
    assert_eq!(key, 4);
    assert_eq!(RegOpenKeyExW(4, None), ERROR_SUCCESS);
    assert_eq!(RegCreateKeyExW(8, Some(&mut key), Some(&mut disposition)), ERROR_SUCCESS);
    assert_eq!((key, disposition), (8, 1));
    assert!(RegGetValueW(Some(&wide("k"))));
    assert!(!RegGetValueW(Some(&[0])));
    assert!(!RegGetValueW(None));
    assert_eq!(RegQueryValueExW(-1, Some(4), true), (ERROR_FILE_NOT_FOUND, None));
    assert_eq!(RegQueryValueExW(8, Some(4), true), (ERROR_MORE_DATA, Some(8)));
    assert_eq!(RegQueryValueExW(4, Some(4), true), (ERROR_SUCCESS, Some(4)));
    assert_eq!(RegQueryValueExW(8, Some(4), false), (ERROR_SUCCESS, Some(8)));
    assert_eq!((RegSetValueExW(u64::MAX), RegSetValueExW(0)), (ERROR_FILE_NOT_FOUND, ERROR_SUCCESS));
    let past = RegEnumKeyExW(-1, Some(8), true);
    assert_eq!((past.status, past.nul_at, past.count), (ERROR_NO_MORE_ITEMS, None, None));
    let one = RegEnumKeyExW(3, Some(8), true);
    assert_eq!((one.status, one.nul_at, one.count), (ERROR_SUCCESS, Some(3), Some(3)));
    assert_eq!(RegEnumKeyExW(8, Some(8), true).nul_at, None);
}

fn put(b: &mut [u8], at: usize, bytes: &[u8]) {
    b[at..at + bytes.len()].copy_from_slice(bytes);
}

/// A mapped image whose resources are string block 1 and a version block.
fn resources() -> Vec<u8> {
    let mut f = vec![0u8; 0x2000];
    put(&mut f, 0, b"MZ");
    put(&mut f, 0x3C, &[0x80]);
    put(&mut f, 0x80, b"PE\0\0");
    put(&mut f, 0x98 + 108, &[16]);
    put(&mut f, 0x98 + 112 + 16, &0x1000u32.to_le_bytes());
    let r = 0x1000;
    put(&mut f, r + 14, &[2]);
    let entry = |f: &mut [u8], at: usize, id: u32, to: u32| {
        put(f, r + at, &id.to_le_bytes());
        put(f, r + at + 4, &to.to_le_bytes());
    };
    entry(&mut f, 16, 6, 0x8000_0040);
    entry(&mut f, 24, 16, 0x8000_0080);
    put(&mut f, r + 0x40 + 14, &[1]);
    entry(&mut f, 0x50, 1, 0x8000_00C0);
    put(&mut f, r + 0xC0 + 14, &[1]);
    entry(&mut f, 0xD0, 0x409, 0x140);
    entry(&mut f, 0x140, 0x1200, 0x40);
    put(&mut f, r + 0x80 + 14, &[1]);
    entry(&mut f, 0x90, 1, 0x8000_0100);
    put(&mut f, r + 0x100 + 14, &[1]);
    entry(&mut f, 0x110, 0x409, 0x160);
    entry(&mut f, 0x160, 0x1300, 0x60);
    put(&mut f, r + 0x202, &[2, 0, b'H', 0, b'i', 0]);
    // The root of the version block: length, value length, kind, key.
    put(&mut f, r + 0x300, &[0x60, 0, 0x34, 0, 0, 0]);
    put(&mut f, r + 0x306, &units("VS").iter().flat_map(|u| u.to_le_bytes()).collect::<Vec<u8>>());
    put(&mut f, r + 0x30C, &[0xBD, 0x04, 0xEF, 0xFE]);
    f
}

#[test]
fn strings_and_versions_come_from_the_image() {
    let f = resources();
    assert_eq!(load_string_from_image(&f, 1, 10), Some(units("Hi")));
    assert_eq!(load_string_from_image(&f, 1, 1), Some(units("H")));
    assert_eq!(load_string_from_image(&f, 99, 10), None);
    assert!(matches!(LoadStringW(Some(&f), 1, true, 10), StringSource::Image(s) if s == wide("Hi")));
    assert!(matches!(LoadStringW(Some(&f), 99, true, 10), StringSource::Kernel));
    assert!(matches!(LoadStringW(Some(&f), 1, true, 0), StringSource::Nothing));
    assert!(matches!(LoadStringW(None, 1, true, 10), StringSource::Nothing));
    assert_eq!(find_version_resource(&f), Some((0x1300, 0x60)));
    assert_eq!(GetFileVersionInfoSizeExW(&f), 0x60);
    assert_eq!(GetFileVersionInfoSizeExW(&[]), 0);
    let v = GetFileVersionInfoExW(&f, true, 0x60).unwrap();
    assert_eq!(v[..], f[0x1300..0x1360]);
    assert!(GetFileVersionInfoExW(&f, true, 0x5F).is_none());
    assert!(GetFileVersionInfoExW(&f, false, 0x60).is_none());
    let root = VerQueryValueW(&v, Some(&wide("\\"))).unwrap();
    assert_eq!((root.len, root.kind), (0x34, 0));
    assert_eq!(v[root.at as usize], 0xBD);
    assert!(VerQueryValueW(&v, Some(&wide("\\None"))).is_none());
    assert_eq!((align4(0), align4(1), align4(4)), (0, 4, 4));
}

#[test]
fn strings_are_measured_copied_and_joined() {
    assert_eq!(wstrlen(&wide("abc")), 3);
    assert_eq!(k_strlen(b"ab\0c\0"), 2);
    assert_eq!((lstrlenA(Some(b"four\0")), lstrlenA(None)), (4, 0));
    assert_eq!((lstrlenW(Some(&wide("x"))), lstrlenW(None)), (1, 0));
    let d = lstrcpyA(Some(vec![9; 8]), Some(b"ab\0")).unwrap();
    assert_eq!(d, vec![b'a', b'b', 0, 9, 9, 9, 9, 9]);
    let d = lstrcatA(Some(d), Some(b"cd\0")).unwrap();
    assert_eq!(d[..5], *b"abcd\0");
    assert_eq!(lstrcpyA(Some(vec![1]), None), Some(vec![1]));
    assert_eq!(lstrcpyA(None, Some(b"\0")), None);
}

#[test]
fn text_is_widened_and_narrowed() {
    assert_eq!(MultiByteToWideChar(Some(b"ab\0"), -1, true, 8), (3, wide("ab")));
    assert_eq!(MultiByteToWideChar(Some(b"ab\0"), 2, true, 8), (2, units("ab")));
    assert_eq!(MultiByteToWideChar(Some(b"ab\0"), -1, true, 0), (3, vec![]));
    assert_eq!(MultiByteToWideChar(Some(b"ab\0"), -1, true, 2), (0, vec![]));
    assert_eq!(MultiByteToWideChar(None, -1, true, 2), (0, vec![]));
    assert_eq!(WideCharToMultiByte(Some(&[0x41, 0x20AC, 0]), -1, true, 8), (3, b"A?\0".to_vec()));
    assert_eq!(WideCharToMultiByte(Some(&[0x41]), 1, true, 0), (1, vec![]));
    assert_eq!(RtlMultiByteToUnicodeN(4, b"abc"), (4, units("ab")));
    assert_eq!(RtlUnicodeToOemN(10, &units("abc")), (3, b"abc".to_vec()));
    assert_eq!(narrow_name(&wide("abcdef"), 4), b"abcd");
    assert_eq!(GetModuleHandleW(Some(&wide("ntdll"))), Some(b"ntdll".to_vec()));
    assert_eq!(GetModuleHandleW(None), None);
}

#[test]
fn console_and_debug_text_pass_through() {
    assert_eq!(OutputDebugStringW(Some(&wide("hey"))), Some(b"hey".to_vec()));
    assert_eq!(OutputDebugStringA(Some(b"hey\0")), Some(3));
    assert_eq!(OutputDebugStringA(Some(b"\0")), None);
    assert_eq!(OutputDebugStringA(None), None);
    assert_eq!(GetCommandLineA(b"a b"), b"a b\0");
    assert_eq!(GetCommandLineW(b"a b"), wide("a b"));
    assert_eq!(GetCommandLineA(&[b'x'; 300]).len(), 260);
    let chunks = WriteConsoleW(&[0x41; 600]);
    assert_eq!(chunks.iter().map(|c| c.len()).collect::<Vec<usize>>(), vec![256, 256, 88]);
    assert!(WriteConsoleW(&[]).is_empty());
    let mut written = 0;
    assert_eq!(WriteConsoleA(12, Some(&mut written)), 1);
    assert_eq!(written, 12);
    assert_eq!((LoadLibraryA(Some(b"ntdll\0")), LoadLibraryA(None)), (Some(5), None));
    assert_eq!((read_console_want(10), read_console_want(1000)), (10, 256));
    assert_eq!(ReadConsoleW(b"ok"), units("ok"));
}

#[test]
fn letters_are_raised_and_ends_are_trimmed() {
    assert_eq!(char_upper(0x61), 0x41);
    assert_eq!(char_upper(0x31), 0x31);
    let mut s = wide("aBc1");
    assert_eq!(CharUpperBuffW(&mut s, 2), 2);
    assert_eq!(s, wide("ABc1"));
    CharUpperW(&mut s);
    assert_eq!(s, wide("ABC1"));
    assert_eq!(CharNextW(Some(&wide("a"))), 1);
    assert_eq!(CharNextW(Some(&[0])), 0);
    assert_eq!(CharNextW(None), 0);
    let mut t = wide("  hi ");
    assert_eq!(StrTrimW(&mut t, &wide(" ")), 1);
    assert_eq!(t[..3], wide("hi")[..]);
    assert_eq!(StrTrimW(&mut t, &wide(" ")), 0);
}

#[test]
fn the_system_describes_itself() {
    let i = GetSystemInfo();
    assert_eq!((i.w_processor_architecture, i.dw_page_size), (9, 4096));
    assert_eq!(GetVersion(), 1 << 16 | 1);
    let mut v = OsVersionInfoA {
        dw_os_version_info_size: 148,
        dw_major_version: 0,
        dw_minor_version: 9,
        dw_build_number: 0,
        dw_platform_id: 0,
        sz_csd_version: [7; 128],
    };
    assert_eq!(GetVersionExA(Some(&mut v)), 1);
    assert_eq!((v.dw_major_version, v.dw_minor_version, v.dw_build_number), (1, 0, 1));
    assert_eq!((v.dw_os_version_info_size, v.dw_platform_id), (148, 2));
    assert_eq!(v.sz_csd_version, [0; 128]);
    assert_eq!(GetVersionExA(None), 0);
    let mut c = CpInfo { max_char_size: 9, default_char: [1, 1], lead_byte: [1; 12] };
    assert_eq!(GetCPInfo(Some(&mut c)), 1);
    assert_eq!((c.max_char_size, c.default_char, c.lead_byte), (1, [b'?', 0], [0; 12]));
    assert_eq!(GetCPInfo(None), 0);
    let mut m = MemoryStatusEx {
        dw_length: 64,
        dw_memory_load: 0,
        ull_total_phys: 0,
        ull_avail_phys: 0,
        ull_total_page_file: 0,
        ull_avail_page_file: 0,
        ull_total_virtual: 0,
        ull_avail_virtual: 0,
        ull_avail_extended_virtual: 1,
    };
    assert_eq!(GlobalMemoryStatusEx(Some(&mut m)), 1);
    assert_eq!((m.dw_length, m.ull_total_phys), (64, 120 * 1024 * 1024));
    assert_eq!(m.ull_avail_phys, 104 * 1024 * 1024);
    assert_eq!(GlobalMemoryStatusEx(None), 0);
    let s = GetStartupInfoW();
    assert_eq!((s.len(), s[0]), (104, 104));
}

#[test]
fn clocks_count_milliseconds() {
    let (lo, hi) = GetSystemTimeAsFileTime(3);
    assert_eq!(lo as u64 | (hi as u64) << 32, FILETIME_BOOT_ANCHOR + 30_000);
    let mut n = 0i64;
    assert_eq!(QueryPerformanceFrequency(Some(&mut n)), 1);
    assert_eq!(n, 1000);
    assert_eq!(QueryPerformanceCounter(Some(&mut n), 77), 1);
    assert_eq!(n, 77);
    QueryPerformanceCounter(Some(&mut n), u64::MAX);
    assert_eq!(n, -1);
    assert_eq!(QueryPerformanceFrequency(None), 0);
    assert_eq!(QueryPerformanceCounter(None, 1), 0);
    assert_eq!(GetTickCount(0x1_0000_0005), 5);
}

#[test]
fn interlocked_operations_wrap() {
    let mut n = i32::MAX;
    assert_eq!(InterlockedIncrement(&mut n), i32::MIN);
    assert_eq!(InterlockedDecrement(&mut n), i32::MAX);
    assert_eq!(InterlockedExchange(&mut n, 5), i32::MAX);
    assert_eq!(InterlockedCompareExchange(&mut n, 9, 4), 5);
    assert_eq!(n, 5);
    assert_eq!(InterlockedCompareExchange(&mut n, 9, 5), 5);
    assert_eq!(n, 9);
}

#[test]
fn fixed_texts_fit_or_say_how_much_is_needed() {
    assert_eq!(GetCurrentDirectoryW(true, 10), (3, wide("C:\\")));
    assert_eq!(GetCurrentDirectoryW(true, 3), (4, vec![]));
    assert_eq!(GetTimeFormatW(true, 10).0, 5);
    assert_eq!(GetDateFormatW(false, 0).0, 5);
    assert_eq!(GetFullPathNameW(Some(&wide("a\\b")), true, 10), (3, wide("a\\b")));
    assert_eq!(GetFullPathNameW(None, true, 10), (0, vec![]));
    assert_eq!(GetLongPathNameW(Some(&wide("a\\b")), true, 3), (4, vec![]));
    assert_eq!(GetModuleFileNameW(true, 100), (10, wide("C:\\app.exe")));
    assert_eq!(GetModuleFileNameW(true, 4), (3, wide("C:\\")));
    assert_eq!((SetThreadUILanguage(0), SetThreadUILanguage(0x407)), (0x409, 0x407));
}

#[test]
fn routines_without_a_subsystem_have_fixed_answers() {
    assert_eq!(fixed::IsDebuggerPresent(), 0);
    assert_eq!(fixed::GetCurrentProcessId(), 4);
    assert_eq!(fixed::GetCurrentThreadId(), 8);
    assert_eq!(fixed::GetProcessHeap(), 1);
    assert_eq!(fixed::GetACP(), 437);
    assert_eq!(fixed::FindStringOrdinal(), -1);
    assert_eq!(fixed::FindFirstFileW(), (u64::MAX, 2));
    assert_eq!(fixed::FindFirstFileExW(), (u64::MAX, 2));
    assert_eq!(fixed::FindNextFileW(), (0, 18));
    assert_eq!(fixed::GetFileAttributesW(), (0xFFFF_FFFF, 2));
    assert_eq!(fixed::VerSetConditionMask(7), 7);
    let mut local = 0;
    assert_eq!(fixed::FileTimeToLocalFileTime(Some(9), Some(&mut local)), 1);
    assert_eq!(local, 9);
    assert_eq!(fixed::FileTimeToLocalFileTime(None, Some(&mut local)), 1);
    assert_eq!(local, 9);
    let mut broken = [3u16; 8];
    assert_eq!(fixed::FileTimeToSystemTime(Some(&mut broken)), 1);
    assert_eq!(broken, [0; 8]);
    let (mut pending, mut context) = (0, 7);
    assert_eq!(fixed::InitOnceBeginInitialize(Some(&mut pending), Some(&mut context)), 1);
    assert_eq!((pending, context), (1, 0));
    let mut handle = 7;
    assert_eq!(fixed::EventRegister(Some(&mut handle)), 0);
    assert_eq!(handle, 0);
    assert_eq!(fixed::SetUnhandledExceptionFilter(), 0);
}

#[test]
fn files_report_what_the_kernel_answered() {
    let mut n: u32 = 9;
    assert_eq!(WriteFile(12, Some(&mut n)), 1);
    assert_eq!(n, 12);
    assert_eq!(WriteFile(12, None), 1);
    assert_eq!(ReadFile(5, Some(&mut n)), 1);
    assert_eq!(n, 5);
    assert_eq!(ReadFile(u64::MAX, Some(&mut n)), 1);
    assert_eq!(n, u32::MAX);
    assert_eq!(GetFileSize(4096, Some(&mut n)), 4096);
    assert_eq!(n, 0);
    assert_eq!(GetFileSize(u64::MAX, None), u32::MAX);
    assert_eq!(GetExitCodeProcess(0x1_0000_0003, Some(&mut n)), 1);
    assert_eq!(n, 3);
    assert_eq!(GetModuleHandleA(Some(b"kernel32.dll\0")), Some(12));
    assert_eq!(GetModuleHandleA(None), None);
    assert_eq!(GetProcAddress(Some(b"Sleep\0")), Some(5));
    assert_eq!(GetProcAddress(None), None);
}
