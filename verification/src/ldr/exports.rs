//! The kernel export table.
//!
//! A driver imports routines by name from `ntoskrnl.exe`; the loader resolves
//! each imported name against the table here. The names are fixed; where each
//! routine stands is known when the kernel is linked, so the addresses come as a
//! list in the order of the names.
use crate::ldr::pe::same_bytes;
use vstd::prelude::*;
use vstd::string::StringSliceAdditionalSpecFns;
use vstd::utf8::encode_utf8;

verus! {

/// Number of exports.
pub const EXPORT_COUNT: usize = 50;

/// Export `i`.
pub open spec fn export_name(i: int) -> Seq<char> {
    if i == 0 {
        "DbgPrint"@
    } else if i == 1 {
        "ExAllocatePoolWithTag"@
    } else if i == 2 {
        "ExFreePoolWithTag"@
    } else if i == 3 {
        "IoCreateDevice"@
    } else if i == 4 {
        "IoCompleteRequest"@
    } else if i == 5 {
        "IofCompleteRequest"@
    } else if i == 6 {
        "RtlInitUnicodeString"@
    } else if i == 7 {
        "KeBugCheckEx"@
    } else if i == 8 {
        "KeInitializeEvent"@
    } else if i == 9 {
        "KeSetEvent"@
    } else if i == 10 {
        "KeClearEvent"@
    } else if i == 11 {
        "KeResetEvent"@
    } else if i == 12 {
        "KeWaitForSingleObject"@
    } else if i == 13 {
        "KeInitializeSemaphore"@
    } else if i == 14 {
        "KeReleaseSemaphore"@
    } else if i == 15 {
        "KeInitializeMutex"@
    } else if i == 16 {
        "KeReleaseMutex"@
    } else if i == 17 {
        "KeInitializeSpinLock"@
    } else if i == 18 {
        "KeAcquireSpinLock"@
    } else if i == 19 {
        "KeReleaseSpinLock"@
    } else if i == 20 {
        "KeGetCurrentIrql"@
    } else if i == 21 {
        "KeRaiseIrql"@
    } else if i == 22 {
        "KeLowerIrql"@
    } else if i == 23 {
        "KeQueryTickCount"@
    } else if i == 24 {
        "KeDelayExecutionThread"@
    } else if i == 25 {
        "KeStallExecutionProcessor"@
    } else if i == 26 {
        "ExAllocatePool2"@
    } else if i == 27 {
        "ExFreePool"@
    } else if i == 28 {
        "RtlZeroMemory"@
    } else if i == 29 {
        "RtlFillMemory"@
    } else if i == 30 {
        "RtlCopyMemory"@
    } else if i == 31 {
        "IoDeleteDevice"@
    } else if i == 32 {
        "KeInitializeDpc"@
    } else if i == 33 {
        "KeInsertQueueDpc"@
    } else if i == 34 {
        "KeInitializeTimer"@
    } else if i == 35 {
        "KeSetTimer"@
    } else if i == 36 {
        "KeCancelTimer"@
    } else if i == 37 {
        "IoGetCurrentIrpStackLocation"@
    } else if i == 38 {
        "IoGetNextIrpStackLocation"@
    } else if i == 39 {
        "IoCallDriver"@
    } else if i == 40 {
        "IofCompleteRequest"@
    } else if i == 41 {
        "IoSetCompletionRoutine"@
    } else if i == 42 {
        "IoSkipCurrentIrpStackLocation"@
    } else if i == 43 {
        "IoCreateSymbolicLink"@
    } else if i == 44 {
        "IoDeleteSymbolicLink"@
    } else if i == 45 {
        "IoGetDeviceObjectPointer"@
    } else if i == 46 {
        "MmGetPhysicalAddress"@
    } else if i == 47 {
        "MmPageEntireDriver"@
    } else if i == 48 {
        "MmMapIoSpace"@
    } else {
        "MmUnmapIoSpace"@
    }
}

/// The position of a name, from `i` on.
pub open spec fn export_index(name: Seq<u8>, i: int) -> Option<int>
    decreases EXPORT_COUNT - i,
{
    if i >= EXPORT_COUNT {
        None
    } else if encode_utf8(export_name(i)) == name {
        Some(i)
    } else {
        export_index(name, i + 1)
    }
}

/// The address of the routine called `name`.
pub open spec fn address_of(addresses: Seq<u64>, name: Seq<u8>) -> Option<u64> {
    match export_index(name, 0) {
        Some(i) => Some(addresses[i]),
        None => None,
    }
}

/// The name of export `i`.
pub fn export(i: usize) -> (s: &'static str)
    requires
        i < EXPORT_COUNT,
    ensures
        s@ == export_name(i as int),
{
    match i {
        0 => "DbgPrint",
        1 => "ExAllocatePoolWithTag",
        2 => "ExFreePoolWithTag",
        3 => "IoCreateDevice",
        4 => "IoCompleteRequest",
        5 => "IofCompleteRequest",
        6 => "RtlInitUnicodeString",
        7 => "KeBugCheckEx",
        8 => "KeInitializeEvent",
        9 => "KeSetEvent",
        10 => "KeClearEvent",
        11 => "KeResetEvent",
        12 => "KeWaitForSingleObject",
        13 => "KeInitializeSemaphore",
        14 => "KeReleaseSemaphore",
        15 => "KeInitializeMutex",
        16 => "KeReleaseMutex",
        17 => "KeInitializeSpinLock",
        18 => "KeAcquireSpinLock",
        19 => "KeReleaseSpinLock",
        20 => "KeGetCurrentIrql",
        21 => "KeRaiseIrql",
        22 => "KeLowerIrql",
        23 => "KeQueryTickCount",
        24 => "KeDelayExecutionThread",
        25 => "KeStallExecutionProcessor",
        26 => "ExAllocatePool2",
        27 => "ExFreePool",
        28 => "RtlZeroMemory",
        29 => "RtlFillMemory",
        30 => "RtlCopyMemory",
        31 => "IoDeleteDevice",
        32 => "KeInitializeDpc",
        33 => "KeInsertQueueDpc",
        34 => "KeInitializeTimer",
        35 => "KeSetTimer",
        36 => "KeCancelTimer",
        37 => "IoGetCurrentIrpStackLocation",
        38 => "IoGetNextIrpStackLocation",
        39 => "IoCallDriver",
        40 => "IofCompleteRequest",
        41 => "IoSetCompletionRoutine",
        42 => "IoSkipCurrentIrpStackLocation",
        43 => "IoCreateSymbolicLink",
        44 => "IoDeleteSymbolicLink",
        45 => "IoGetDeviceObjectPointer",
        46 => "MmGetPhysicalAddress",
        47 => "MmPageEntireDriver",
        48 => "MmMapIoSpace",
        _ => "MmUnmapIoSpace",
    }
}

/// Resolve an imported name to the address of its routine.
pub fn resolve(addresses: &Vec<u64>, name: &[u8]) -> (r: Option<u64>)
    requires
        addresses@.len() == EXPORT_COUNT,
    ensures
        r == address_of(addresses@, name@),
{
    let mut i: usize = 0;
    while i < EXPORT_COUNT
        invariant
            i <= EXPORT_COUNT,
            addresses@.len() == EXPORT_COUNT,
            export_index(name@, 0) == export_index(name@, i as int),
        decreases EXPORT_COUNT - i,
    {
        if same_bytes(export(i).as_bytes(), name) {
            return Some(addresses[i]);
        }
        i = i + 1;
    }
    None
}

/// The magnitude of a time interval in 100 ns units.
pub open spec fn interval(t: i64) -> int {
    if t < 0 {
        -t
    } else {
        t as int
    }
}

fn magnitude(t: i64) -> (r: u64)
    ensures
        r == interval(t),
{
    if t < 0 {
        (-(t + 1)) as u64 + 1
    } else {
        t as u64
    }
}

/// A timeout in clock ticks of one millisecond. None waits forever. A negative
/// value is a relative interval; an absolute one is taken as relative too.
pub fn timeout_to_ticks(timeout: Option<i64>) -> (r: Option<u64>)
    ensures
        r == match timeout {
            Some(t) => Some((interval(t) / 10_000) as u64),
            None => None::<u64>,
        },
{
    match timeout {
        None => None,
        Some(t) => Some(magnitude(t) / 10_000),
    }
}

/// The tick at which a timer set now for `due_time` expires: at least one tick
/// ahead.
pub fn timer_due_tick(now: u64, due_time: i64) -> (r: u64)
    requires
        now <= u64::MAX - 0x8000_0000_0000_0000,
    ensures
        r == now + if interval(due_time) / 10_000 >= 1 {
            interval(due_time) / 10_000
        } else {
            1
        },
{
    let ticks: u64 = magnitude(due_time) / 10_000;
    now + if ticks >= 1 {
        ticks
    } else {
        1
    }
}

/// Spin iterations for a stall of some microseconds.
pub fn stall_iterations(microseconds: u32) -> (r: u64)
    ensures
        r == microseconds * 300,
{
    microseconds as u64 * 300
}

/// The first NUL of a wide string, from `i` on.
pub open spec fn wide_end(s: Seq<u16>, i: int) -> int
    decreases s.len() - i,
{
    if i < 0 || i >= s.len() || s[i] == 0 {
        i
    } else {
        wide_end(s, i + 1)
    }
}

/// `RtlInitUnicodeString`: the byte lengths (without and with the NUL) that a
/// counted string over a NUL-terminated one gets. An absent source has length 0.
pub fn rtl_init_unicode_string(src: Option<&[u16]>) -> (r: (u16, u16))
    ensures
        ({
            let n = match src {
                Some(s) => wide_end(s@, 0),
                None => 0,
            };
            r.0 == (n * 2) % 0x1_0000 && r.1 == ((n + 1) * 2) % 0x1_0000
        }),
{
    let mut n: usize = 0;
    match src {
        None => {},
        Some(s) => {
            while n < s.len() && s[n] != 0
                invariant
                    n <= s@.len(),
                    wide_end(s@, 0) == wide_end(s@, n as int),
                decreases s@.len() - n,
            {
                n = n + 1;
            }
        },
    }
    let m: u16 = (n % 0x8000) as u16;
    proof {
        assert((n * 2) % 0x1_0000 == m * 2);
    }
    let length: u16 = m * 2;
    let maximum: u16 = if m == 0x7FFF {
        0
    } else {
        m * 2 + 2
    };
    (length, maximum)
}

proof fn lemma_export_index(name: Seq<u8>, i: int)
    requires
        0 <= i,
    ensures
        match export_index(name, i) {
            Some(k) => i <= k < EXPORT_COUNT && encode_utf8(export_name(k)) == name,
            None => forall|k: int|
                i <= k < EXPORT_COUNT ==> encode_utf8(#[trigger] export_name(k)) != name,
        },
    decreases EXPORT_COUNT - i,
{
    if i < EXPORT_COUNT && encode_utf8(export_name(i)) != name {
        lemma_export_index(name, i + 1);
    }
}

/// Every published name resolves, and nothing else does.
pub proof fn exactly_the_published_names_resolve(addresses: Seq<u64>, name: Seq<u8>)
    ensures
        address_of(addresses, name) is Some <==> exists|k: int|
            0 <= k < EXPORT_COUNT && encode_utf8(#[trigger] export_name(k)) == name,
{
    lemma_export_index(name, 0);
}

/// An interval has a length, whichever way it is given: relative and absolute times count
/// alike.
pub proof fn an_interval_has_no_sign(t: i64)
    requires
        t > i64::MIN,
    ensures
        interval(t) >= 0,
        interval((-t) as i64) == interval(t),
        t >= 0 ==> interval(t) == t,
{
}

/// A string ends at its first NUL.
pub proof fn a_wide_string_ends_at_its_nul(t: Seq<u16>, rest: Seq<u16>, i: int)
    requires
        forall|k: int| 0 <= k < t.len() ==> #[trigger] t[k] != 0,
        0 <= i <= t.len(),
    ensures
        wide_end(t.push(0) + rest, i) == t.len(),
    decreases t.len() - i,
{
    let s = t.push(0) + rest;
    if i < t.len() {
        assert(s[i] == t[i]);
        a_wide_string_ends_at_its_nul(t, rest, i + 1);
    } else {
        assert(s[i] == 0);
    }
}

/// A name resolves to the address that stands at its place in the table: the first place
/// that has the name.
pub proof fn a_name_resolves_to_its_place(addresses: Seq<u64>, k: int)
    requires
        0 <= k < 50,
        forall|j: int| 0 <= j < k ==> encode_utf8(#[trigger] export_name(j)) != encode_utf8(
            export_name(k),
        ),
    ensures
        address_of(addresses, encode_utf8(export_name(k))) == Some(addresses[k]),
{
    lemma_first_place(k, 0);
}

proof fn lemma_first_place(k: int, i: int)
    requires
        0 <= i <= k < EXPORT_COUNT,
        forall|j: int| i <= j < k ==> encode_utf8(#[trigger] export_name(j)) != encode_utf8(
            export_name(k),
        ),
    ensures
        export_index(encode_utf8(export_name(k)), i) == Some(k),
    decreases k - i,
{
    if i < k {
        assert(encode_utf8(export_name(i)) != encode_utf8(export_name(k)));
        lemma_first_place(k, i + 1);
    }
}

} // verus!
