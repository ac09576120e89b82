//! What the system reports of itself: machine, version, time and memory.
use crate::kernel32::strings::{ended, nul_pos, wstrlen};
use vstd::prelude::*;
use vstd::slice::slice_subrange;

verus! {

// ---------------------------------------------------------------------------
// The machine
// ---------------------------------------------------------------------------
/// `SYSTEM_INFO`.
#[derive(Debug, Clone, Copy, PartialEq, Eq, Structural)]
pub struct SystemInfo {
    pub w_processor_architecture: u16,
    pub w_reserved: u16,
    pub dw_page_size: u32,
    pub lp_minimum_application_address: u64,
    pub lp_maximum_application_address: u64,
    pub dw_active_processor_mask: u64,
    pub dw_number_of_processors: u32,
    pub dw_processor_type: u32,
    pub dw_allocation_granularity: u32,
    pub w_processor_level: u16,
    pub w_processor_revision: u16,
}

/// `GetSystemInfo`: one 64-bit processor, pages of 4 KiB, allocations of 64 KiB,
/// and the low half of the address space for programs.
pub fn GetSystemInfo() -> (info: SystemInfo)
    ensures
        info == (SystemInfo {
            w_processor_architecture: 9,
            w_reserved: 0,
            dw_page_size: 4096,
            lp_minimum_application_address: 0x1_0000,
            lp_maximum_application_address: 0x7FFF_FFFE_FFFF,
            dw_active_processor_mask: 1,
            dw_number_of_processors: 1,
            dw_processor_type: 8664,
            dw_allocation_granularity: 0x1_0000,
            w_processor_level: 6,
            w_processor_revision: 0,
        }),
{
    SystemInfo {
        w_processor_architecture: 9,
        w_reserved: 0,
        dw_page_size: 4096,
        lp_minimum_application_address: 0x1_0000,
        lp_maximum_application_address: 0x7FFF_FFFE_FFFF,
        dw_active_processor_mask: 1,
        dw_number_of_processors: 1,
        dw_processor_type: 8664,
        dw_allocation_granularity: 0x1_0000,
        w_processor_level: 6,
        w_processor_revision: 0,
    }
}

/// The version that the system reports: its own, 1.0 build 1.
pub const OS_MAJOR: u32 = 1;

pub const OS_MINOR: u32 = 0;

pub const OS_BUILD: u32 = 1;

/// The NT platform.
pub const VER_PLATFORM_WIN32_NT: u32 = 2;

/// A version in one number. The low byte is the major version, the next the
/// minor, the upper half fifteen bits of the build; the top bit is clear on this
/// platform.
pub open spec fn packed_version(major: u32, minor: u32, build: u32) -> int {
    (build % 0x8000) * 0x1_0000 + minor * 0x100 + major
}

/// `GetVersion`: the version in one number.
pub fn GetVersion() -> (r: u32)
    ensures
        r == packed_version(OS_MAJOR, OS_MINOR, OS_BUILD),
{
    (OS_BUILD % 0x8000) * 0x1_0000 + OS_MINOR * 0x100 + OS_MAJOR
}

/// A packed version gives its parts back.
pub proof fn a_packed_version_unpacks(major: u32, minor: u32, build: u32)
    requires
        major < 0x100,
        minor < 0x100,
        build < 0x8000,
    ensures
        ({
            let r = packed_version(major, minor, build);
            &&& r % 0x100 == major
            &&& (r / 0x100) % 0x100 == minor
            &&& r / 0x1_0000 == build
            &&& r < 0x8000_0000
        }),
{
}

/// `OSVERSIONINFOA`.
#[derive(Debug, Clone, Copy)]
pub struct OsVersionInfoA {
    pub dw_os_version_info_size: u32,
    pub dw_major_version: u32,
    pub dw_minor_version: u32,
    pub dw_build_number: u32,
    pub dw_platform_id: u32,
    pub sz_csd_version: [u8; 128],
}

/// `GetVersionExA`: fill in the version; there is no service pack. Without a
/// record it fails.
pub fn GetVersionExA(info: Option<&mut OsVersionInfoA>) -> (r: i32)
    ensures
        match info {
            None => r == 0,
            Some(i) => {
                &&& r == 1
                &&& final(i).dw_os_version_info_size == i.dw_os_version_info_size
                &&& final(i).dw_major_version == OS_MAJOR
                &&& final(i).dw_minor_version == OS_MINOR
                &&& final(i).dw_build_number == OS_BUILD
                &&& final(i).dw_platform_id == VER_PLATFORM_WIN32_NT
                &&& forall|k: int| 0 <= k < 128 ==> #[trigger] final(i).sz_csd_version@[k] == 0
            },
        },
{
    match info {
        None => 0,
        Some(i) => {
            i.dw_major_version = OS_MAJOR;
            i.dw_minor_version = OS_MINOR;
            i.dw_build_number = OS_BUILD;
            i.dw_platform_id = VER_PLATFORM_WIN32_NT;
            i.sz_csd_version = [0u8; 128];
            1
        },
    }
}

/// `CPINFO`.
#[derive(Debug, Clone, Copy)]
pub struct CpInfo {
    pub max_char_size: u32,
    pub default_char: [u8; 2],
    pub lead_byte: [u8; 12],
}

/// `GetCPInfo`: a code page of single bytes. Without a record it fails.
pub fn GetCPInfo(info: Option<&mut CpInfo>) -> (r: i32)
    ensures
        match info {
            None => r == 0,
            Some(i) => {
                &&& r == 1
                &&& final(i).max_char_size == 1
                &&& final(i).default_char@ == seq![0x3Fu8, 0]
                &&& forall|k: int| 0 <= k < 12 ==> #[trigger] final(i).lead_byte@[k] == 0
            },
        },
{
    match info {
        None => 0,
        Some(i) => {
            i.max_char_size = 1;
            i.default_char = [0x3F, 0];
            i.lead_byte = [0u8; 12];
            assert(i.default_char@ =~= seq![0x3Fu8, 0]);
            1
        },
    }
}

/// `MEMORYSTATUSEX`.
#[derive(Debug, Clone, Copy, PartialEq, Eq, Structural)]
pub struct MemoryStatusEx {
    pub dw_length: u32,
    pub dw_memory_load: u32,
    pub ull_total_phys: u64,
    pub ull_avail_phys: u64,
    pub ull_total_page_file: u64,
    pub ull_avail_page_file: u64,
    pub ull_total_virtual: u64,
    pub ull_avail_virtual: u64,
    pub ull_avail_extended_virtual: u64,
}

/// Memory of the machine.
pub const TOTAL_MEMORY: u64 = 0x780_0000;

/// Memory that is free of it.
pub const FREE_MEMORY: u64 = 0x680_0000;

/// `GlobalMemoryStatusEx`: 120 MiB of memory, 16 MiB of it in use, no page file.
/// Without a record it fails.
pub fn GlobalMemoryStatusEx(status: Option<&mut MemoryStatusEx>) -> (r: i32)
    ensures
        match status {
            None => r == 0,
            Some(s) => r == 1 && *final(s) == (MemoryStatusEx {
                dw_length: s.dw_length,
                dw_memory_load: 15,
                ull_total_phys: TOTAL_MEMORY,
                ull_avail_phys: FREE_MEMORY,
                ull_total_page_file: TOTAL_MEMORY,
                ull_avail_page_file: FREE_MEMORY,
                ull_total_virtual: 0x7FFF_FFFF_0000,
                ull_avail_virtual: 0x7FFF_0000_0000,
                ull_avail_extended_virtual: 0,
            }),
        },
{
    match status {
        None => 0,
        Some(s) => {
            s.dw_memory_load = 15;
            s.ull_total_phys = TOTAL_MEMORY;
            s.ull_avail_phys = FREE_MEMORY;
            s.ull_total_page_file = TOTAL_MEMORY;
            s.ull_avail_page_file = FREE_MEMORY;
            s.ull_total_virtual = 0x7FFF_FFFF_0000;
            s.ull_avail_virtual = 0x7FFF_0000_0000;
            s.ull_avail_extended_virtual = 0;
            1
        },
    }
}

/// `GetStartupInfoW`: a start-up block of zeros but for its size.
pub fn GetStartupInfoW() -> (b: Vec<u8>)
    ensures
        b@.len() == 104,
        b@[0] == 104,
        forall|i: int| 1 <= i < 104 ==> #[trigger] b@[i] == 0,
{
    let mut b: Vec<u8> = vec![0u8; 104];
    b.set(0, 104);
    b
}

// ---------------------------------------------------------------------------
// Time
// ---------------------------------------------------------------------------
/// The time of the first tick, in 100-nanosecond steps since 1601.
pub const FILETIME_BOOT_ANCHOR: u64 = 133_000_000_000_000_000;

/// The time at a tick.
pub open spec fn file_time(ticks: u64) -> int {
    FILETIME_BOOT_ANCHOR + ticks * 10_000
}

/// `GetSystemTimeAsFileTime`: the two halves of the time, low half first.
pub fn GetSystemTimeAsFileTime(ticks: u64) -> (r: (u32, u32))
    requires
        file_time(ticks) <= u64::MAX,
    ensures
        r.0 + r.1 * 0x1_0000_0000 == file_time(ticks),
{
    let value: u64 = FILETIME_BOOT_ANCHOR + ticks * 10_000;
    ((value % 0x1_0000_0000) as u32, (value / 0x1_0000_0000) as u32)
}

/// Time goes forward: a later tick has a later time.
pub proof fn time_is_monotonic(a: u64, b: u64)
    requires
        a < b,
    ensures
        file_time(a) < file_time(b),
{
}

/// `QueryPerformanceFrequency`: the counter counts milliseconds. Without a place
/// for the answer it fails.
pub fn QueryPerformanceFrequency(frequency: Option<&mut i64>) -> (r: i32)
    ensures
        match frequency {
            None => r == 0,
            Some(f) => r == 1 && *final(f) == 1000,
        },
{
    match frequency {
        None => 0,
        Some(f) => {
            *f = 1000;
            1
        },
    }
}

/// A count of ticks as a signed number.
pub open spec fn signed(ticks: u64) -> int {
    if ticks <= i64::MAX {
        ticks as int
    } else {
        ticks - 0x1_0000_0000_0000_0000
    }
}

/// `QueryPerformanceCounter`: the ticks. Without a place for the answer it fails.
pub fn QueryPerformanceCounter(count: Option<&mut i64>, ticks: u64) -> (r: i32)
    ensures
        match count {
            None => r == 0,
            Some(c) => r == 1 && *final(c) == signed(ticks),
        },
{
    match count {
        None => 0,
        Some(c) => {
            *c = if ticks <= 0x7FFF_FFFF_FFFF_FFFF {
                ticks as i64
            } else {
                -((0xFFFF_FFFF_FFFF_FFFF - ticks) as i64) - 1
            };
            1
        },
    }
}

/// `GetTickCount`: the low half of the ticks.
pub fn GetTickCount(ticks: u64) -> (r: u32)
    ensures
        r == ticks % 0x1_0000_0000,
{
    (ticks % 0x1_0000_0000) as u32
}

// ---------------------------------------------------------------------------
// Shared counters
// ---------------------------------------------------------------------------
/// One more, from the largest to the smallest number.
pub open spec fn succ(n: i32) -> i32 {
    if n == i32::MAX {
        i32::MIN
    } else {
        (n + 1) as i32
    }
}

/// One less, from the smallest to the largest number.
pub open spec fn pred(n: i32) -> i32 {
    if n == i32::MIN {
        i32::MAX
    } else {
        (n - 1) as i32
    }
}

/// `InterlockedIncrement`: count up and return the new value.
pub fn InterlockedIncrement(n: &mut i32) -> (r: i32)
    ensures
        *final(n) == succ(*old(n)),
        r == *final(n),
{
    *n = n.wrapping_add(1);
    *n
}

/// `InterlockedDecrement`: count down and return the new value.
pub fn InterlockedDecrement(n: &mut i32) -> (r: i32)
    ensures
        *final(n) == pred(*old(n)),
        r == *final(n),
{
    *n = n.wrapping_sub(1);
    *n
}

/// `InterlockedExchange`: store a value and return the one before.
pub fn InterlockedExchange(n: &mut i32, value: i32) -> (r: i32)
    ensures
        *final(n) == value,
        r == *old(n),
{
    let before: i32 = *n;
    *n = value;
    before
}

/// `InterlockedCompareExchange`: store a value if the one before is the comparand,
/// and return the one before either way.
pub fn InterlockedCompareExchange(n: &mut i32, exchange: i32, comparand: i32) -> (r: i32)
    ensures
        r == *old(n),
        *final(n) == if *old(n) == comparand {
            exchange
        } else {
            *old(n)
        },
{
    let before: i32 = *n;
    if before == comparand {
        *n = exchange;
    }
    before
}

/// A reference that was taken and released leaves the count as it was.
pub proof fn counting_up_and_down_cancels(n: i32)
    ensures
        pred(succ(n)) == n,
        succ(pred(n)) == n,
{
}

// ---------------------------------------------------------------------------
// Names and places
// ---------------------------------------------------------------------------
/// US English.
pub const LANG_US_ENGLISH: u16 = 0x0409;

/// `SetThreadUILanguage`: the language selected; 0 asks for a choice and is never
/// returned.
pub fn SetThreadUILanguage(lang: u16) -> (r: u16)
    ensures
        r == if lang == 0 {
            LANG_US_ENGLISH
        } else {
            lang
        },
        r != 0,
{
    if lang == 0 {
        LANG_US_ENGLISH
    } else {
        lang
    }
}

/// A fixed string with its NUL handed to a caller: the length if it fits, else the
/// room it needs, and the units to write.
pub open spec fn handed(s: Seq<u16>, has_buffer: bool, cap: int) -> (int, Seq<u16>) {
    if !has_buffer || cap < s.len() + 1 {
        (s.len() as int + 1, Seq::empty())
    } else {
        (s.len() as int, s.push(0))
    }
}

fn hand(s: Vec<u16>, has_buffer: bool, cap: u32) -> (r: (u32, Vec<u16>))
    requires
        s@.len() < u32::MAX,
    ensures
        (r.0 as int, r.1@) == handed(s@, has_buffer, cap as int),
{
    let n: usize = s.len();
    if !has_buffer || (cap as usize) < n + 1 {
        let none: Vec<u16> = Vec::new();
        assert(none@ =~= Seq::<u16>::empty());
        return (n as u32 + 1, none);
    }
    let mut out: Vec<u16> = s;
    out.push(0);
    (n as u32, out)
}

/// `C:\`
pub open spec fn root_directory() -> Seq<u16> {
    seq![0x43u16, 0x3A, 0x5C]
}

/// `GetCurrentDirectoryW`.
pub fn GetCurrentDirectoryW(has_buffer: bool, len: u32) -> (r: (u32, Vec<u16>))
    ensures
        (r.0 as int, r.1@) == handed(root_directory(), has_buffer, len as int),
{
    let s: Vec<u16> = vec![0x43u16, 0x3A, 0x5C];
    assert(s@ =~= root_directory());
    hand(s, has_buffer, len)
}

/// `00:00`
pub open spec fn fixed_time() -> Seq<u16> {
    seq![0x30u16, 0x30, 0x3A, 0x30, 0x30]
}

/// `2024`
pub open spec fn fixed_date() -> Seq<u16> {
    seq![0x32u16, 0x30, 0x32, 0x34]
}

/// The room that a signed count of units gives.
pub open spec fn room_of(cch: i32) -> int {
    if cch < 0 {
        0
    } else {
        cch as int
    }
}

/// `GetTimeFormatW`: a fixed text.
pub fn GetTimeFormatW(has_buffer: bool, cch: i32) -> (r: (u32, Vec<u16>))
    ensures
        (r.0 as int, r.1@) == handed(fixed_time(), has_buffer, room_of(cch)),
{
    let s: Vec<u16> = vec![0x30u16, 0x30, 0x3A, 0x30, 0x30];
    assert(s@ =~= fixed_time());
    hand(
        s,
        has_buffer,
        if cch < 0 {
            0
        } else {
            cch as u32
        },
    )
}

/// `GetDateFormatW`: a fixed text.
pub fn GetDateFormatW(has_buffer: bool, cch: i32) -> (r: (u32, Vec<u16>))
    ensures
        (r.0 as int, r.1@) == handed(fixed_date(), has_buffer, room_of(cch)),
{
    let s: Vec<u16> = vec![0x32u16, 0x30, 0x32, 0x34];
    assert(s@ =~= fixed_date());
    hand(
        s,
        has_buffer,
        if cch < 0 {
            0
        } else {
            cch as u32
        },
    )
}

/// `GetFullPathNameW`: paths are canonical already and are handed through.
pub fn GetFullPathNameW(name: Option<&[u16]>, has_buffer: bool, len: u32) -> (r: (u32, Vec<u16>))
    requires
        name matches Some(n) ==> ended(n@) && nul_pos(n@, 0) < u32::MAX,
    ensures
        match name {
            None => r.0 == 0 && r.1@.len() == 0,
            Some(n) => (r.0 as int, r.1@) == handed(
                crate::kernel32::strings::text(n@),
                has_buffer,
                len as int,
            ),
        },
{
    match name {
        None => (0, Vec::new()),
        Some(n) => {
            let k: usize = wstrlen(n);
            let mut s: Vec<u16> = Vec::new();
            s.extend_from_slice(slice_subrange(n, 0, k));
            assert(s@ =~= crate::kernel32::strings::text(n@));
            hand(s, has_buffer, len)
        },
    }
}

/// `GetLongPathNameW`: there are no short names, so that a path is its own.
pub fn GetLongPathNameW(short: Option<&[u16]>, has_buffer: bool, cch: u32) -> (r: (u32, Vec<u16>))
    requires
        short matches Some(n) ==> ended(n@) && nul_pos(n@, 0) < u32::MAX,
    ensures
        match short {
            None => r.0 == 0 && r.1@.len() == 0,
            Some(n) => (r.0 as int, r.1@) == handed(
                crate::kernel32::strings::text(n@),
                has_buffer,
                cch as int,
            ),
        },
{
    GetFullPathNameW(short, has_buffer, cch)
}

/// `C:\app.exe`
pub open spec fn program_path() -> Seq<u16> {
    seq![0x43u16, 0x3A, 0x5C, 0x61, 0x70, 0x70, 0x2E, 0x65, 0x78, 0x65]
}

/// `GetModuleFileNameW`: a fixed path, cut to the buffer with its NUL.
pub fn GetModuleFileNameW(has_buffer: bool, size: u32) -> (r: (u32, Vec<u16>))
    ensures
        if !has_buffer || size == 0 {
            r.0 == 0 && r.1@.len() == 0
        } else {
            let n = if size <= 10 {
                size - 1
            } else {
                10
            };
            r.0 == n && r.1@ == program_path().take(n).push(0)
        },
{
    if !has_buffer || size == 0 {
        return (0, Vec::new());
    }
    let mut out: Vec<u16> = vec![0x43u16, 0x3A, 0x5C, 0x61, 0x70, 0x70, 0x2E, 0x65, 0x78, 0x65];
    assert(out@ =~= program_path());
    let n: u32 = if size <= 10 {
        size - 1
    } else {
        10
    };
    out.truncate(n as usize);
    assert(out@ =~= program_path().take(n as int));
    out.push(0);
    (n, out)
}

/// File time counts steps of 100 nanoseconds: a tick is one millisecond of it.
pub proof fn a_tick_is_a_millisecond_of_file_time(t: u64)
    requires
        t < u64::MAX,
    ensures
        file_time((t + 1) as u64) == file_time(t) + 10_000,
        file_time(0) == 133_000_000_000_000_000,
{
}

/// The signed count of ticks is the same number, modulo the width of the counter.
pub proof fn a_signed_count_is_congruent(ticks: u64)
    ensures
        i64::MIN <= signed(ticks) <= i64::MAX,
        signed(ticks) == ticks || signed(ticks) + 0x1_0000_0000_0000_0000 == ticks,
{
}

/// Counting steps by one, and wraps at the ends of the range.
pub proof fn counting_steps_by_one(n: i32)
    ensures
        n < i32::MAX ==> succ(n) == n + 1,
        n > i32::MIN ==> pred(n) == n - 1,
        succ(i32::MAX) == i32::MIN,
        pred(i32::MIN) == i32::MAX,
{
}

/// A string is handed over with its NUL where both fit; else the room that is needed is
/// told, and asking again with that room succeeds.
pub proof fn the_room_asked_for_is_enough(s: Seq<u16>, cap: int)
    ensures
        handed(s, false, cap) == handed(s, true, 0),
        handed(s, true, s.len() as int) == handed(s, true, 0),
        handed(s, true, 0).1.len() == 0,
        handed(s, true, handed(s, true, 0).0) == (s.len() as int, s.push(0)),
        cap >= handed(s, true, 0).0 ==> handed(s, true, cap) == (s.len() as int, s.push(0)),
{
}

/// Room that is told as a negative number is no room.
pub proof fn negative_room_is_none(cch: i32)
    ensures
        cch < 0 ==> room_of(cch) == 0,
        cch >= 0 ==> room_of(cch) == cch,
{
}

/// The directory, the program, the time and the date are told by these texts.
pub proof fn fixed_texts_read_as_they_should(i: int)
    ensures
        root_directory().len() == 3 && (0 <= i < 3 ==> root_directory()[i] as char == "C:\\"@[i]),
        program_path().len() == 10 && (0 <= i < 10 ==> program_path()[i] as char
            == "C:\\app.exe"@[i]),
        fixed_time().len() == 5 && (0 <= i < 5 ==> fixed_time()[i] as char == "00:00"@[i]),
        fixed_date().len() == 4 && (0 <= i < 4 ==> fixed_date()[i] as char == "2024"@[i]),
{
    reveal_strlit("C:\\");
    reveal_strlit("C:\\app.exe");
    reveal_strlit("00:00");
    reveal_strlit("2024");
}

} // verus!
