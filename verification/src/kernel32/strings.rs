//! Strings: lengths, copies and conversions.
use crate::rtl::string::lower_unit;
use crate::syscalls::buffers::{narrow, narrowed, widen, widened};
use vstd::prelude::*;
use vstd::slice::slice_subrange;

verus! {

// ---------------------------------------------------------------------------
// Strings that end with a NUL
// ---------------------------------------------------------------------------
/// Where the first NUL at or after `i` is, or the end of the memory.
pub open spec fn nul_pos(s: Seq<u16>, i: int) -> int
    decreases s.len() - i,
{
    if i < 0 || i >= s.len() || s[i] == 0 {
        i
    } else {
        nul_pos(s, i + 1)
    }
}

/// There is a NUL.
pub open spec fn ended(s: Seq<u16>) -> bool {
    exists|i: int| 0 <= i < s.len() && #[trigger] s[i] == 0
}

/// The string that starts the memory, without its NUL.
pub open spec fn text(s: Seq<u16>) -> Seq<u16> {
    s.take(nul_pos(s, 0))
}

pub proof fn lemma_nul_pos(s: Seq<u16>, i: int)
    requires
        0 <= i <= s.len(),
    ensures
        i <= nul_pos(s, i) <= s.len(),
        forall|k: int| i <= k < nul_pos(s, i) ==> #[trigger] s[k] != 0,
        nul_pos(s, i) < s.len() ==> s[nul_pos(s, i)] == 0,
        i == 0 && ended(s) ==> nul_pos(s, i) < s.len(),
    decreases s.len() - i,
{
    if i < s.len() && s[i] != 0 {
        lemma_nul_pos(s, i + 1);
    }
}

/// Length of a string of units.
pub fn wstrlen(s: &[u16]) -> (n: usize)
    ensures
        n == nul_pos(s@, 0),
        n <= s@.len(),
        ended(s@) ==> n < s@.len(),
{
    proof {
        lemma_nul_pos(s@, 0);
    }
    let mut n: usize = 0;
    while n < s.len() && s[n] != 0
        invariant
            n <= s@.len(),
            nul_pos(s@, 0) == nul_pos(s@, n as int),
        decreases s@.len() - n,
    {
        n = n + 1;
    }
    n
}

/// Length of a string of bytes.
pub fn k_strlen(s: &[u8]) -> (n: usize)
    ensures
        n == nul_pos(widened(s@), 0),
        n <= s@.len(),
        ended(widened(s@)) ==> n < s@.len(),
{
    proof {
        lemma_nul_pos(widened(s@), 0);
    }
    let mut n: usize = 0;
    while n < s.len() && s[n] != 0
        invariant
            n <= s@.len(),
            nul_pos(widened(s@), 0) == nul_pos(widened(s@), n as int),
        decreases s@.len() - n,
    {
        assert(widened(s@)[n as int] == s@[n as int]);
        n = n + 1;
    }
    if n < s.len() {
        assert(widened(s@)[n as int] == s@[n as int]);
    }
    n
}

/// `lstrlenA`.
pub fn lstrlenA(s: Option<&[u8]>) -> (r: i32)
    requires
        s matches Some(m) ==> ended(widened(m@)) && nul_pos(widened(m@), 0) <= i32::MAX,
    ensures
        r == match s {
            Some(m) => nul_pos(widened(m@), 0),
            None => 0,
        },
{
    match s {
        Some(m) => k_strlen(m) as i32,
        None => 0,
    }
}

/// `lstrlenW`.
pub fn lstrlenW(s: Option<&[u16]>) -> (r: i32)
    requires
        s matches Some(m) ==> ended(m@) && nul_pos(m@, 0) <= i32::MAX,
    ensures
        r == match s {
            Some(m) => nul_pos(m@, 0),
            None => 0,
        },
{
    match s {
        Some(m) => wstrlen(m) as i32,
        None => 0,
    }
}

/// `dst` with a string and its NUL written at `at`.
pub open spec fn copied(dst: Seq<u8>, at: int, src: Seq<u8>) -> Seq<u8> {
    let n = nul_pos(widened(src), 0) + 1;
    dst.take(at) + src.take(n) + dst.skip(at + n)
}

fn copy_string(dst: Vec<u8>, at: usize, src: &[u8]) -> (r: Vec<u8>)
    requires
        ended(widened(src@)),
        at + nul_pos(widened(src@), 0) < dst@.len(),
    ensures
        r@ == copied(dst@, at as int, src@),
        r@.len() == dst@.len(),
{
    let ghost before = dst@;
    let mut r: Vec<u8> = dst;
    let size: usize = r.len();
    let held: usize = src.len();
    let at_nul: usize = k_strlen(src);
    assert(at_nul < held);
    let n: usize = at_nul + 1;
    let mut i: usize = 0;
    while i < n
        invariant
            i <= n,
            n <= src@.len(),
            at + n <= size,
            size == before.len(),
            r@.len() == before.len(),
            r@ == before.take(at as int) + src@.take(i as int) + before.skip(at + i),
        decreases n - i,
    {
        r.set(at + i, src[i]);
        i = i + 1;
        assert(r@ =~= before.take(at as int) + src@.take(i as int) + before.skip(at + i));
    }
    r
}

/// `lstrcpyA`: copy a string over the start of a buffer.
pub fn lstrcpyA(dst: Option<Vec<u8>>, src: Option<&[u8]>) -> (r: Option<Vec<u8>>)
    requires
        src matches Some(s) ==> ended(widened(s@)) && (dst matches Some(d) ==> nul_pos(
            widened(s@),
            0,
        ) < d@.len()),
    ensures
        match (dst, src) {
            (Some(d), Some(s)) => r is Some && r->Some_0@ == copied(d@, 0, s@),
            _ => r == dst,
        },
{
    match dst {
        Some(d) => match src {
            Some(s) => Some(copy_string(d, 0, s)),
            None => Some(d),
        },
        None => None,
    }
}

/// `lstrcatA`: append a string to the one in a buffer.
pub fn lstrcatA(dst: Option<Vec<u8>>, src: Option<&[u8]>) -> (r: Option<Vec<u8>>)
    requires
        src matches Some(s) ==> ended(widened(s@)) && (dst matches Some(d) ==> nul_pos(
            widened(d@),
            0,
        ) + nul_pos(widened(s@), 0) < d@.len()),
    ensures
        match (dst, src) {
            (Some(d), Some(s)) => r is Some && r->Some_0@ == copied(
                d@,
                nul_pos(widened(d@), 0),
                s@,
            ),
            _ => r == dst,
        },
{
    match dst {
        Some(d) => match src {
            Some(s) => {
                let at: usize = k_strlen(&d);
                Some(copy_string(d, at, s))
            },
            None => Some(d),
        },
        None => None,
    }
}

/// A copy reads back as the string that was copied.
pub proof fn a_copy_reads_back(dst: Seq<u8>, src: Seq<u8>)
    requires
        ended(widened(src)),
        nul_pos(widened(src), 0) < dst.len(),
    ensures
        text(widened(copied(dst, 0, src))) == text(widened(src)),
{
    let c = widened(copied(dst, 0, src));
    let s = widened(src);
    lemma_nul_pos(s, 0);
    let n = nul_pos(s, 0);
    assert forall|k: int| 0 <= k <= n implies #[trigger] c[k] == s[k] by {
        assert(copied(dst, 0, src)[k] == src[k]);
    }
    lemma_same_prefix(c, s, 0);
    assert(text(c) =~= text(s));
}

/// Two strings that agree up to the end of the second end at the same place.
pub proof fn lemma_same_prefix(a: Seq<u16>, b: Seq<u16>, i: int)
    requires
        0 <= i <= nul_pos(b, i) < b.len(),
        nul_pos(b, i) < a.len(),
        forall|k: int| i <= k <= nul_pos(b, i) ==> #[trigger] a[k] == b[k],
    ensures
        nul_pos(a, i) == nul_pos(b, i),
    decreases b.len() - i,
{
    lemma_nul_pos(b, i);
    assert(a[i] == b[i]);
    if b[i] != 0 {
        lemma_nul_pos(b, i + 1);
        lemma_same_prefix(a, b, i + 1);
    }
}

/// What was appended stands behind what was there.
pub proof fn appending_joins_the_strings(dst: Seq<u8>, src: Seq<u8>)
    requires
        ended(widened(src)),
        nul_pos(widened(dst), 0) + nul_pos(widened(src), 0) < dst.len(),
    ensures
        text(widened(copied(dst, nul_pos(widened(dst), 0), src))) == text(widened(dst)) + text(
            widened(src),
        ),
{
    let d = widened(dst);
    let s = widened(src);
    lemma_nul_pos(d, 0);
    lemma_nul_pos(s, 0);
    let at = nul_pos(d, 0);
    let n = nul_pos(s, 0);
    let r = copied(dst, at, src);
    let c = widened(r);
    let joined = text(d) + text(s) + seq![0u16];
    assert(joined.len() == at + n + 1);
    assert forall|k: int| 0 <= k <= at + n implies #[trigger] c[k] == joined[k] by {
        if k < at {
            assert(r[k] == dst[k]);
        } else {
            assert(r[k] == src[k - at]);
        }
    }
    lemma_nul_at(joined, 0, at + n);
    lemma_same_prefix(c, joined, 0);
    assert(text(c) =~= text(d) + text(s));
}

proof fn lemma_nul_at(s: Seq<u16>, i: int, n: int)
    requires
        0 <= i <= n < s.len(),
        s[n] == 0,
        forall|k: int| i <= k < n ==> #[trigger] s[k] != 0,
    ensures
        nul_pos(s, i) == n,
    decreases n - i,
{
    if i < n {
        assert(s[i] != 0);
        lemma_nul_at(s, i + 1, n);
    }
}

// ---------------------------------------------------------------------------
// Bytes and units
// ---------------------------------------------------------------------------
/// Characters that a conversion handles: a given number, or all up to and with the
/// NUL.
pub open spec fn converted_count(s: Seq<u16>, given: i32) -> int {
    if given < 0 {
        nul_pos(s, 0) + 1
    } else {
        given as int
    }
}

/// The memory holds the characters that a conversion handles.
pub open spec fn convertible(s: Seq<u16>, given: i32) -> bool {
    &&& given < 0 ==> ended(s)
    &&& converted_count(s, given) <= s.len()
    &&& converted_count(s, given) <= i32::MAX
}

/// Whether `count` characters go to the destination: there is one, and it has
/// room. A negative room sets no limit.
pub open spec fn has_room(has_dst: bool, room: i32, count: int) -> bool {
    has_dst && (room < 0 || room >= count)
}

/// The byte for a unit: `?` for one above 0xFF.
pub open spec fn latin_byte(u: u16) -> u8 {
    if u <= 0xFF {
        u as u8
    } else {
        0x3F
    }
}

/// Units as bytes.
pub open spec fn latin(u: Seq<u16>) -> Seq<u8> {
    Seq::new(u.len(), |i: int| latin_byte(u[i]))
}

fn to_latin(u: &[u16]) -> (b: Vec<u8>)
    ensures
        b@ == latin(u@),
{
    let mut b: Vec<u8> = Vec::new();
    let mut i: usize = 0;
    while i < u.len()
        invariant
            i <= u@.len(),
            b@.len() == i,
            forall|k: int| 0 <= k < i ==> #[trigger] b@[k] == latin(u@)[k],
        decreases u@.len() - i,
    {
        b.push(
            if u[i] <= 0xFF {
                u[i] as u8
            } else {
                0x3F
            },
        );
        i = i + 1;
    }
    assert(b@ =~= latin(u@));
    b
}

/// `MultiByteToWideChar`: the number of units, and those to write. With no room
/// asked for, the number needed; 0 when there is no source or not enough room.
pub fn MultiByteToWideChar(src: Option<&[u8]>, cb: i32, has_dst: bool, cch: i32) -> (r: (
    i32,
    Vec<u16>,
))
    requires
        src matches Some(s) ==> convertible(widened(s@), cb),
    ensures
        match src {
            None => r.0 == 0 && r.1@.len() == 0,
            Some(s) => {
                let count = converted_count(widened(s@), cb);
                if cch == 0 {
                    r.0 == count && r.1@.len() == 0
                } else if has_room(has_dst, cch, count) {
                    r.0 == count && r.1@ == widened(s@).take(count)
                } else {
                    r.0 == 0 && r.1@.len() == 0
                }
            },
        },
{
    let none: Vec<u16> = Vec::new();
    match src {
        None => (0, none),
        Some(s) => {
            let count: usize = if cb < 0 {
                k_strlen(s) + 1
            } else {
                cb as usize
            };
            if cch == 0 {
                return (count as i32, none);
            }
            if !has_dst || (cch >= 0 && (cch as usize) < count) {
                return (0, none);
            }
            let units: Vec<u16> = widen(slice_subrange(s, 0, count));
            assert(units@ =~= widened(s@).take(count as int));
            (count as i32, units)
        },
    }
}

/// `WideCharToMultiByte`: the number of bytes, and those to write.
pub fn WideCharToMultiByte(src: Option<&[u16]>, cch: i32, has_dst: bool, cb: i32) -> (r: (
    i32,
    Vec<u8>,
))
    requires
        src matches Some(s) ==> convertible(s@, cch),
    ensures
        match src {
            None => r.0 == 0 && r.1@.len() == 0,
            Some(s) => {
                let count = converted_count(s@, cch);
                if cb == 0 {
                    r.0 == count && r.1@.len() == 0
                } else if has_room(has_dst, cb, count) {
                    r.0 == count && r.1@ == latin(s@.take(count))
                } else {
                    r.0 == 0 && r.1@.len() == 0
                }
            },
        },
{
    let none: Vec<u8> = Vec::new();
    match src {
        None => (0, none),
        Some(s) => {
            let count: usize = if cch < 0 {
                wstrlen(s) + 1
            } else {
                cch as usize
            };
            if cb == 0 {
                return (count as i32, none);
            }
            if !has_dst || (cb >= 0 && (cb as usize) < count) {
                return (0, none);
            }
            let bytes: Vec<u8> = to_latin(slice_subrange(s, 0, count));
            assert(bytes@ =~= latin(s@.take(count as int)));
            (count as i32, bytes)
        },
    }
}

/// Bytes survive the trip through units.
pub proof fn bytes_survive_widening(b: Seq<u8>)
    ensures
        latin(widened(b)) == b,
        narrowed(widened(b)) == b,
{
    assert(latin(widened(b)) =~= b);
    assert(narrowed(widened(b)) =~= b);
}

/// `RtlMultiByteToUnicodeN`: the units that fit in `dst_max` bytes, and the bytes
/// they take.
pub fn RtlMultiByteToUnicodeN(dst_max: u32, src: &[u8]) -> (r: (u32, Vec<u16>))
    ensures
        ({
            let n = if src@.len() <= dst_max / 2 {
                src@.len() as int
            } else {
                (dst_max / 2) as int
            };
            r.0 == 2 * n && r.1@ == widened(src@.take(n))
        }),
{
    let room: usize = (dst_max / 2) as usize;
    let n: usize = if src.len() <= room {
        src.len()
    } else {
        room
    };
    let head = slice_subrange(src, 0, n);
    assert(head@ =~= src@.take(n as int));
    (2 * n as u32, widen(head))
}

/// `RtlUnicodeToOemN`: the bytes that fit in `dst_max`.
pub fn RtlUnicodeToOemN(dst_max: u32, src: &[u16]) -> (r: (u32, Vec<u8>))
    ensures
        ({
            let n = if src@.len() <= dst_max {
                src@.len() as int
            } else {
                dst_max as int
            };
            r.0 == n && r.1@ == latin(src@.take(n))
        }),
{
    let room: usize = dst_max as usize;
    let n: usize = if src.len() <= room {
        src.len()
    } else {
        room
    };
    let head = slice_subrange(src, 0, n);
    assert(head@ =~= src@.take(n as int));
    (n as u32, to_latin(head))
}

/// The first `cap` units of a string, narrowed to their low bytes.
pub open spec fn short_name(s: Seq<u16>, cap: int) -> Seq<u8> {
    let n = nul_pos(s, 0);
    narrowed(
        s.take(
            if n <= cap {
                n
            } else {
                cap
            },
        ),
    )
}

/// Narrow the start of a string: module names take 63 units, debug output 255,
/// file names 259.
pub fn narrow_name(s: &[u16], cap: usize) -> (b: Vec<u8>)
    requires
        ended(s@),
    ensures
        b@ == short_name(s@, cap as int),
{
    let n: usize = wstrlen(s);
    let k: usize = if n <= cap {
        n
    } else {
        cap
    };
    let head = slice_subrange(s, 0, k);
    assert(head@ =~= s@.take(k as int));
    narrow(head)
}

/// Units of a module name that count.
pub const MAX_MODULE_UNITS: usize = 63;

/// Units of debug output that count.
pub const MAX_DEBUG_UNITS: usize = 255;

/// `GetModuleHandleW`: the name to ask the kernel for; without one the caller's
/// own image is meant.
pub fn GetModuleHandleW(name: Option<&[u16]>) -> (r: Option<Vec<u8>>)
    requires
        name matches Some(n) ==> ended(n@),
    ensures
        match name {
            None => r is None,
            Some(n) => r is Some && r->Some_0@ == short_name(n@, MAX_MODULE_UNITS as int),
        },
{
    match name {
        None => None,
        Some(n) => Some(narrow_name(n, MAX_MODULE_UNITS)),
    }
}

/// `GetModuleHandleA`: the length of the name to ask the kernel for; without one the
/// caller's own image is meant.
pub fn GetModuleHandleA(name: Option<&[u8]>) -> (r: Option<usize>)
    requires
        name matches Some(n) ==> ended(widened(n@)),
    ensures
        match name {
            None => r is None,
            Some(n) => r is Some && r->Some_0 == nul_pos(widened(n@), 0),
        },
{
    match name {
        None => None,
        Some(n) => Some(k_strlen(n)),
    }
}

/// `GetProcAddress`: the length of the routine's name to ask the kernel for; without
/// a name there is no routine.
pub fn GetProcAddress(name: Option<&[u8]>) -> (r: Option<usize>)
    requires
        name matches Some(n) ==> ended(widened(n@)),
    ensures
        match name {
            None => r is None,
            Some(n) => r is Some && r->Some_0 == nul_pos(widened(n@), 0),
        },
{
    match name {
        None => None,
        Some(n) => Some(k_strlen(n)),
    }
}

/// `LoadLibraryA`: the length of the name of the module to look up; the kernel knows
/// the modules that are loaded, and there are no others.
pub fn LoadLibraryA(name: Option<&[u8]>) -> (r: Option<usize>)
    requires
        name matches Some(n) ==> ended(widened(n@)),
    ensures
        match name {
            None => r is None,
            Some(n) => r is Some && r->Some_0 == nul_pos(widened(n@), 0),
        },
{
    match name {
        None => None,
        Some(n) => Some(k_strlen(n)),
    }
}

/// `OutputDebugStringW`: the bytes to print.
pub fn OutputDebugStringW(s: Option<&[u16]>) -> (r: Option<Vec<u8>>)
    requires
        s matches Some(m) ==> ended(m@),
    ensures
        match s {
            None => r is None,
            Some(m) => r is Some && r->Some_0@ == short_name(m@, MAX_DEBUG_UNITS as int),
        },
{
    match s {
        None => None,
        Some(m) => Some(narrow_name(m, MAX_DEBUG_UNITS)),
    }
}

/// `OutputDebugStringA`: the number of bytes to print; an empty string is not
/// printed.
pub fn OutputDebugStringA(s: Option<&[u8]>) -> (r: Option<usize>)
    requires
        s matches Some(m) ==> ended(widened(m@)),
    ensures
        match s {
            None => r is None,
            Some(m) => if nul_pos(widened(m@), 0) == 0 {
                r is None
            } else {
                r is Some && r->Some_0 == nul_pos(widened(m@), 0)
            },
        },
{
    match s {
        None => None,
        Some(m) => {
            let n: usize = k_strlen(m);
            if n > 0 {
                Some(n)
            } else {
                None
            }
        },
    }
}

/// Bytes of the longest command line kept.
pub const MAX_COMMAND_LINE: usize = 259;

/// The command line that is kept: what the kernel gave, cut, with its NUL.
pub open spec fn kept_line(raw: Seq<u8>) -> Seq<u8> {
    if raw.len() > MAX_COMMAND_LINE {
        raw.take(MAX_COMMAND_LINE as int).push(0)
    } else {
        raw.push(0)
    }
}

/// `GetCommandLineA`: the command line in bytes.
pub fn GetCommandLineA(raw: &[u8]) -> (line: Vec<u8>)
    ensures
        line@ == kept_line(raw@),
{
    let n: usize = if raw.len() > MAX_COMMAND_LINE {
        MAX_COMMAND_LINE
    } else {
        raw.len()
    };
    let mut line: Vec<u8> = Vec::new();
    line.extend_from_slice(slice_subrange(raw, 0, n));
    line.push(0);
    assert(line@ =~= kept_line(raw@));
    line
}

/// `GetCommandLineW`: the same command line in units.
pub fn GetCommandLineW(raw: &[u8]) -> (line: Vec<u16>)
    ensures
        line@ == widened(kept_line(raw@)),
{
    let bytes: Vec<u8> = GetCommandLineA(raw);
    widen(&bytes)
}

// ---------------------------------------------------------------------------
// Console text
// ---------------------------------------------------------------------------
/// Bytes that go to the console at once.
pub const CHUNK: usize = 256;

/// The console's byte for a unit: `?` for one that is not ASCII.
pub open spec fn console_byte(u: u16) -> u8 {
    if u < 0x80 {
        u as u8
    } else {
        0x3F
    }
}

/// Units as console bytes.
pub open spec fn console_bytes(u: Seq<u16>) -> Seq<u8> {
    Seq::new(u.len(), |i: int| console_byte(u[i]))
}

/// The chunks one after the other.
pub open spec fn joined(chunks: Seq<Vec<u8>>) -> Seq<u8>
    decreases chunks.len(),
{
    if chunks.len() == 0 {
        Seq::empty()
    } else {
        joined(chunks.drop_last()) + chunks.last()@
    }
}

/// `WriteConsoleA` after the kernel took the bytes: all characters are reported as
/// written.
pub fn WriteConsoleA(chars: u32, written: Option<&mut u32>) -> (r: i32)
    ensures
        r == 1,
        written matches Some(w) ==> *final(w) == chars,
{
    if let Some(w) = written {
        *w = chars;
    }
    1
}

/// `WriteConsoleW`: the pieces to write, in order; all but the last are full.
pub fn WriteConsoleW(buffer: &[u16]) -> (chunks: Vec<Vec<u8>>)
    ensures
        joined(chunks@) == console_bytes(buffer@),
        forall|i: int|
            0 <= i < chunks@.len() ==> 0 < (#[trigger] chunks@[i])@.len() <= CHUNK && (i
                < chunks@.len() - 1 ==> chunks@[i]@.len() == CHUNK),
{
    let mut chunks: Vec<Vec<u8>> = Vec::new();
    let mut done: usize = 0;
    let total: usize = buffer.len();
    assert(joined(chunks@) =~= console_bytes(buffer@).take(0));
    while done < total
        invariant
            done <= total,
            total == buffer@.len(),
            joined(chunks@) == console_bytes(buffer@).take(done as int),
            done < total ==> forall|i: int|
                0 <= i < chunks@.len() ==> (#[trigger] chunks@[i])@.len() == CHUNK,
            forall|i: int|
                0 <= i < chunks@.len() ==> 0 < (#[trigger] chunks@[i])@.len() <= CHUNK && (i
                    < chunks@.len() - 1 ==> chunks@[i]@.len() == CHUNK),
        decreases total - done,
    {
        let n: usize = if total - done < CHUNK {
            total - done
        } else {
            CHUNK
        };
        let mut bytes: Vec<u8> = Vec::new();
        let mut i: usize = 0;
        while i < n
            invariant
                i <= n,
                done + n <= total,
                total == buffer@.len(),
                bytes@.len() == i,
                forall|k: int|
                    0 <= k < i ==> #[trigger] bytes@[k] == console_bytes(buffer@)[done + k],
            decreases n - i,
        {
            let u: u16 = buffer[done + i];
            bytes.push(
                if u < 0x80 {
                    u as u8
                } else {
                    0x3F
                },
            );
            i = i + 1;
        }
        let ghost before = chunks@;
        chunks.push(bytes);
        proof {
            assert(chunks@.drop_last() =~= before);
            assert(joined(chunks@) =~= console_bytes(buffer@).take(done + n));
        }
        done = done + n;
    }
    assert(console_bytes(buffer@).take(done as int) =~= console_bytes(buffer@));
    chunks
}

/// `ReadConsoleW`: the bytes to ask the console for.
pub fn read_console_want(chars: u32) -> (want: usize)
    ensures
        want == if chars <= CHUNK {
            chars as int
        } else {
            CHUNK as int
        },
{
    if chars as usize <= CHUNK {
        chars as usize
    } else {
        CHUNK
    }
}

/// `ReadConsoleW` after the console gave some bytes: the units to hand out.
pub fn ReadConsoleW(bytes: &[u8]) -> (units: Vec<u16>)
    ensures
        units@ == widened(bytes@),
{
    widen(bytes)
}

// ---------------------------------------------------------------------------
// Case and trimming
// ---------------------------------------------------------------------------
/// ASCII upper case of a unit.
pub open spec fn upper_unit(c: u16) -> u16 {
    if 0x61 <= c <= 0x7A {
        (c - 32) as u16
    } else {
        c
    }
}

/// `CharUpper` on one character.
pub fn char_upper(c: u16) -> (r: u16)
    ensures
        r == upper_unit(c),
{
    if 0x61 <= c && c <= 0x7A {
        c - 32
    } else {
        c
    }
}

/// `s` with its first `n` units in upper case.
pub open spec fn uppered(s: Seq<u16>, n: int) -> Seq<u16> {
    Seq::new(s.len(), |i: int| if i < n { upper_unit(s[i]) } else { s[i] })
}

/// `CharUpperBuffW`: upper-case the first `cch` units.
pub fn CharUpperBuffW(s: &mut Vec<u16>, cch: u32) -> (r: u32)
    requires
        cch <= old(s)@.len(),
    ensures
        r == cch,
        final(s)@ == uppered(old(s)@, cch as int),
{
    let ghost before = s@;
    let n: usize = cch as usize;
    let mut i: usize = 0;
    assert(s@ =~= uppered(before, 0));
    while i < n
        invariant
            i <= n <= before.len(),
            s@.len() == before.len(),
            s@ == uppered(before, i as int),
        decreases n - i,
    {
        let c: u16 = s[i];
        s.set(i, char_upper(c));
        i = i + 1;
        assert(s@ =~= uppered(before, i as int));
    }
    cch
}

/// `CharUpperW` on a string: upper-case it up to its NUL.
pub fn CharUpperW(s: &mut Vec<u16>)
    requires
        ended(old(s)@),
        nul_pos(old(s)@, 0) <= u32::MAX,
    ensures
        final(s)@ == uppered(old(s)@, nul_pos(old(s)@, 0)),
{
    let n: usize = wstrlen(s);
    let _count: u32 = CharUpperBuffW(s, n as u32);
}

/// Lower case undoes upper case: the two agree once both are folded.
pub proof fn upper_and_lower_agree(c: u16)
    ensures
        lower_unit(upper_unit(c)) == lower_unit(c),
        upper_unit(upper_unit(c)) == upper_unit(c),
{
}

/// `CharNextW`: the units to the next character, none at the end.
pub fn CharNextW(s: Option<&[u16]>) -> (step: usize)
    requires
        s matches Some(m) ==> m@.len() > 0,
    ensures
        step == match s {
            Some(m) => if m@[0] == 0 {
                0int
            } else {
                1
            },
            None => 0,
        },
{
    match s {
        Some(m) => if m[0] == 0 {
            0
        } else {
            1
        },
        None => 0,
    }
}

/// Units to drop at the front: those of the set, from `i` on.
pub open spec fn front(s: Seq<u16>, set: Seq<u16>, i: int) -> int
    decreases s.len() - i,
{
    if 0 <= i < s.len() && set.contains(s[i]) {
        front(s, set, i + 1)
    } else {
        i
    }
}

/// Where the string ends without trailing units of the set, down from `e`.
pub open spec fn back(s: Seq<u16>, set: Seq<u16>, start: int, e: int) -> int
    decreases e - start,
{
    if start < e <= s.len() && set.contains(s[e - 1]) {
        back(s, set, start, e - 1)
    } else {
        e
    }
}

/// A string without leading and trailing units of a set.
pub open spec fn trimmed(s: Seq<u16>, set: Seq<u16>) -> Seq<u16> {
    let start = front(s, set, 0);
    s.subrange(start, back(s, set, start, s.len() as int))
}

fn in_set(set: &[u16], c: u16) -> (r: bool)
    ensures
        r == text(set@).contains(c),
{
    proof {
        lemma_nul_pos(set@, 0);
    }
    let n: usize = wstrlen(set);
    let mut i: usize = 0;
    while i < n
        invariant
            i <= n,
            n == nul_pos(set@, 0),
            n <= set@.len(),
            forall|k: int| 0 <= k < i ==> #[trigger] set@[k] != c,
        decreases n - i,
    {
        if set[i] == c {
            assert(text(set@)[i as int] == c);
            return true;
        }
        i = i + 1;
    }
    assert forall|k: int| 0 <= k < text(set@).len() implies #[trigger] text(set@)[k] != c by {
        assert(set@[k] != c);
    }
    false
}

/// Where the trimmed string starts and ends.
fn trim_bounds(s: &[u16], trim: &[u16]) -> (r: (usize, usize))
    ensures
        r.0 == front(s@, text(trim@), 0),
        r.1 == back(s@, text(trim@), r.0 as int, s@.len() as int),
        r.0 <= r.1 <= s@.len(),
{
    let ghost set = text(trim@);
    let len: usize = s.len();
    let mut start: usize = 0;
    while start < len && in_set(trim, s[start])
        invariant
            set == text(trim@),
            len == s@.len(),
            start <= len,
            front(s@, set, 0) == front(s@, set, start as int),
        decreases len - start,
    {
        start = start + 1;
    }
    let mut end: usize = len;
    while end > start && in_set(trim, s[end - 1])
        invariant
            set == text(trim@),
            len == s@.len(),
            start <= end <= len,
            back(s@, set, start as int, len as int) == back(s@, set, start as int, end as int),
        decreases end,
    {
        end = end - 1;
    }
    (start, end)
}

/// `s` with the units of `[start, end)` moved to its front.
fn move_front(s: &mut Vec<u16>, start: usize, end: usize)
    requires
        start <= end <= old(s)@.len(),
    ensures
        final(s)@ == old(s)@.subrange(start as int, end as int) + old(s)@.skip(end - start),
{
    let ghost before = s@;
    let ghost t = before.subrange(start as int, end as int);
    let n: usize = end - start;
    if start == 0 {
        assert(s@ =~= t + before.skip(n as int));
        return ;
    }
    let mut i: usize = 0;
    assert(s@ =~= t.take(0) + before.skip(0));
    while i < n
        invariant
            i <= n,
            n == end - start,
            0 < start <= end <= before.len(),
            t == before.subrange(start as int, end as int),
            s@.len() == before.len(),
            s@ == t.take(i as int) + before.skip(i as int),
        decreases n - i,
    {
        let c: u16 = s[start + i];
        assert(c == t[i as int]);
        s.set(i, c);
        i = i + 1;
        assert(s@ =~= t.take(i as int) + before.skip(i as int));
    }
    assert(t.take(i as int) =~= t);
}

/// `StrTrimW`: trim a string in place. Returns whether anything was trimmed.
pub fn StrTrimW(psz: &mut Vec<u16>, trim: &[u16]) -> (r: i32)
    requires
        ended(old(psz)@),
        ended(trim@),
    ensures
        ({
            let t = trimmed(text(old(psz)@), text(trim@));
            &&& final(psz)@ == t.push(0) + old(psz)@.skip(t.len() as int + 1)
            &&& r == if t.len() == text(old(psz)@).len() {
                0int
            } else {
                1
            }
        }),
{
    let ghost before = psz@;
    let len: usize = wstrlen(psz);
    let s = slice_subrange(psz.as_slice(), 0, len);
    assert(s@ =~= text(before));
    let (start, end) = trim_bounds(s, trim);
    let ghost t = trimmed(text(before), text(trim@));
    assert(t =~= before.subrange(start as int, end as int));
    move_front(psz, start, end);
    psz.set(end - start, 0);
    assert(psz@ =~= t.push(0) + before.skip(t.len() as int + 1));
    if start != 0 || end != len {
        1
    } else {
        0
    }
}

/// The text of a string is what stands in front of its first NUL, and nothing behind that
/// NUL belongs to it.
pub proof fn the_first_nul_ends_the_text(t: Seq<u16>, rest: Seq<u16>)
    requires
        forall|i: int| 0 <= i < t.len() ==> #[trigger] t[i] != 0,
    ensures
        text(t.push(0) + rest) == t,
        nul_pos(t.push(0) + rest, 0) == t.len(),
{
    let s = t.push(0) + rest;
    assert(s[t.len() as int] == 0);
    assert forall|i: int| 0 <= i < t.len() implies s[i] != 0 by {
        assert(s[i] == t[i]);
    }
    lemma_nul_pos(s, 0);
    let p = nul_pos(s, 0);
    if p < t.len() {
        assert(s[p] == t[p]);
    }
    assert(s.take(t.len() as int) =~= t);
}

/// A copy touches the bytes of the source and its NUL, and no others.
pub proof fn a_copy_stays_within_its_bytes(dst: Seq<u8>, at: int, src: Seq<u8>, i: int)
    requires
        ended(widened(src)),
        0 <= at,
        at + nul_pos(widened(src), 0) < dst.len(),
        0 <= i < dst.len(),
    ensures
        copied(dst, at, src).len() == dst.len(),
        copied(dst, at, src)[i] == if at <= i <= at + nul_pos(widened(src), 0) {
            src[i - at]
        } else {
            dst[i]
        },
{
    lemma_nul_pos(widened(src), 0);
}

/// A conversion of a whole string counts its NUL.
pub proof fn a_whole_string_is_converted_with_its_nul(t: Seq<u16>, rest: Seq<u16>, given: i32)
    requires
        forall|i: int| 0 <= i < t.len() ==> #[trigger] t[i] != 0,
    ensures
        given < 0 ==> converted_count(t.push(0) + rest, given) == t.len() + 1,
        given >= 0 ==> converted_count(t.push(0) + rest, given) == given,
{
    the_first_nul_ends_the_text(t, rest);
}

/// A buffer is large enough from the count on; one of negative size is not limited.
pub proof fn room_is_measured_in_characters(has_dst: bool, room: i32, count: int)
    requires
        0 <= count,
    ensures
        has_room(false, room, count) == false,
        room < 0 ==> has_room(true, room, count),
        0 <= room < count ==> !has_room(true, room, count),
        room >= count ==> has_room(true, room, count),
{
}

/// Conversion goes unit by unit: what a byte can hold is kept, all else becomes a question
/// mark.
pub proof fn what_has_no_byte_becomes_a_question_mark(u: Seq<u16>, i: int)
    requires
        0 <= i < u.len(),
    ensures
        latin(u).len() == u.len(),
        u[i] <= 0xFF ==> latin(u)[i] == u[i],
        u[i] > 0xFF ==> latin(u)[i] == 0x3F,
        console_bytes(u).len() == u.len(),
        u[i] < 0x80 ==> console_bytes(u)[i] == u[i],
        u[i] >= 0x80 ==> console_bytes(u)[i] == 0x3F,
{
}

/// A shortened name is as long as the text, up to the limit, and holds the low bytes of its
/// units.
pub proof fn a_short_name_is_the_start_of_the_text(s: Seq<u16>, cap: int, i: int)
    requires
        ended(s),
        0 <= cap,
    ensures
        short_name(s, cap).len() <= cap,
        short_name(s, cap).len() <= text(s).len(),
        short_name(s, cap).len() == cap || short_name(s, cap).len() == text(s).len(),
        0 <= i < short_name(s, cap).len() ==> short_name(s, cap)[i] == s[i] % 0x100,
{
    lemma_nul_pos(s, 0);
}

/// The command line is kept up to 259 characters, with a NUL behind it.
pub proof fn a_command_line_is_kept_to_its_limit(raw: Seq<u8>, i: int)
    requires
        0 <= i < raw.len(),
        i < 259,
    ensures
        kept_line(raw).last() == 0,
        raw.len() <= 259 ==> kept_line(raw).len() == raw.len() + 1,
        raw.len() > 259 ==> kept_line(raw).len() == 260,
        kept_line(raw)[i] == raw[i],
{
}

/// Writing in chunks writes everything, in order: the joined chunks of two writes are the
/// joined chunks of the first, then those of the second.
pub proof fn chunks_join_in_order(a: Seq<Vec<u8>>, b: Seq<Vec<u8>>)
    ensures
        joined(a + b) == joined(a) + joined(b),
        a.len() == 1 ==> joined(a) == a[0]@,
    decreases b.len(),
{
    reveal_with_fuel(joined, 2);
    if b.len() == 0 {
        assert(a + b =~= a);
        assert(joined(a) + joined(b) =~= joined(a));
    } else {
        chunks_join_in_order(a, b.drop_last());
        assert((a + b).drop_last() =~= a + b.drop_last());
        assert(joined(a + b) =~= joined(a) + joined(b));
    }
    if a.len() == 1 {
        assert(a.drop_last().len() == 0);
        assert(joined(a) =~= a[0]@);
    }
}

/// Raising a string raises the letters `a` to `z` of its first `n` units, and nothing else.
pub proof fn only_small_letters_are_raised(s: Seq<u16>, n: int, i: int)
    requires
        0 <= i < s.len(),
    ensures
        uppered(s, n).len() == s.len(),
        uppered(s, n)[i] == if i < n && 0x61 <= s[i] <= 0x7A {
            s[i] - 32
        } else {
            s[i] as int
        },
{
}

/// Trimming takes characters of the set off both ends: what is left neither starts nor ends
/// with one, unless nothing is left, and all that was taken off belongs to the set.
pub proof fn trimming_takes_the_set_off_both_ends(s: Seq<u16>, set: Seq<u16>)
    ensures
        ({
            let a = front(s, set, 0);
            let t = trimmed(s, set);
            &&& 0 <= a
            &&& a + t.len() <= s.len()
            &&& t == s.subrange(a, a + t.len())
            &&& forall|i: int| 0 <= i < a ==> set.contains(#[trigger] s[i])
            &&& forall|i: int| a + t.len() <= i < s.len() ==> set.contains(#[trigger] s[i])
            &&& t.len() > 0 ==> !set.contains(t[0]) && !set.contains(t.last())
        }),
{
    lemma_front(s, set, 0);
    let a = front(s, set, 0);
    lemma_back(s, set, a, s.len() as int);
}

proof fn lemma_front(s: Seq<u16>, set: Seq<u16>, i: int)
    requires
        0 <= i <= s.len(),
    ensures
        i <= front(s, set, i) <= s.len(),
        forall|k: int| i <= k < front(s, set, i) ==> set.contains(#[trigger] s[k]),
        front(s, set, i) < s.len() ==> !set.contains(s[front(s, set, i)]),
    decreases s.len() - i,
{
    if i < s.len() && set.contains(s[i]) {
        lemma_front(s, set, i + 1);
    }
}

proof fn lemma_back(s: Seq<u16>, set: Seq<u16>, start: int, e: int)
    requires
        0 <= start <= e <= s.len(),
    ensures
        start <= back(s, set, start, e) <= e,
        forall|k: int| back(s, set, start, e) <= k < e ==> set.contains(#[trigger] s[k]),
        start < back(s, set, start, e) ==> !set.contains(s[back(s, set, start, e) - 1]),
    decreases e - start,
{
    if start < e && set.contains(s[e - 1]) {
        lemma_back(s, set, start, e - 1);
    }
}

} // verus!
