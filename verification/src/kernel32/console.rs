//! Console handles and modes.
use crate::bytes::{
    bytes16, bytes32, get16, get32, lemma_bytes16, lemma_bytes32, lemma_get16_in, lemma_get32_in, put16,
    put32,
};
use crate::fields::{set16, set32};
use crate::kernel32::strings::{
    ended, k_strlen, lemma_nul_pos, narrow_name, nul_pos, short_name,
};
use crate::syscalls::buffers::widened;
use vstd::prelude::*;
use vstd::slice::slice_subrange;

verus! {

pub const STD_INPUT_HANDLE: u32 = 0xFFFF_FFF6;

pub const STD_OUTPUT_HANDLE: u32 = 0xFFFF_FFF5;

pub const STD_ERROR_HANDLE: u32 = 0xFFFF_FFF4;

pub const FILE_TYPE_UNKNOWN: u32 = 0;

pub const FILE_TYPE_CHAR: u32 = 2;

pub const INVALID_HANDLE_VALUE: u64 = 0xFFFF_FFFF_FFFF_FFFF;

/// The console handles of a process, 0 until one is opened, and the modes set on
/// them.
#[derive(Debug, Clone, Copy, PartialEq, Eq, Structural)]
pub struct ConsoleState {
    pub input: u64,
    pub output: u64,
    pub error: u64,
    pub input_mode: u32,
    pub output_mode: u32,
}

impl ConsoleState {
    /// No handle is open; input is processed, by lines and echoed, output is
    /// processed and wrapped.
    pub fn new() -> (c: Self)
        ensures
            c == (ConsoleState { input: 0, output: 0, error: 0, input_mode: 7, output_mode: 3 }),
    {
        ConsoleState { input: 0, output: 0, error: 0, input_mode: 7, output_mode: 3 }
    }
}

/// Which of the three streams an identifier names; output for an unknown one.
pub open spec fn stream(id: u32) -> int {
    if id == STD_INPUT_HANDLE {
        0
    } else if id == STD_ERROR_HANDLE {
        2
    } else {
        1
    }
}

/// The handle of a stream.
pub open spec fn stream_handle(c: ConsoleState, s: int) -> u64 {
    if s == 0 {
        c.input
    } else if s == 1 {
        c.output
    } else {
        c.error
    }
}

/// The state with the handle of a stream replaced.
pub open spec fn with_stream(c: ConsoleState, s: int, h: u64) -> ConsoleState {
    if s == 0 {
        ConsoleState { input: h, ..c }
    } else if s == 1 {
        ConsoleState { output: h, ..c }
    } else {
        ConsoleState { error: h, ..c }
    }
}

/// The handle remembered for a stream, 0 for none.
pub fn cached_handle(c: &ConsoleState, id: u32) -> (h: u64)
    ensures
        h == stream_handle(*c, stream(id)),
{
    if id == STD_INPUT_HANDLE {
        c.input
    } else if id == STD_ERROR_HANDLE {
        c.error
    } else {
        c.output
    }
}

/// `GetStdHandle` after the kernel was asked whether the remembered handle is
/// still open: that handle, or nothing when the console must be opened.
pub fn GetStdHandle(c: &ConsoleState, id: u32, open: bool) -> (r: Option<u64>)
    ensures
        r == if stream_handle(*c, stream(id)) == 0 || !open {
            None
        } else {
            Some(stream_handle(*c, stream(id)))
        },
{
    let h: u64 = cached_handle(c, id);
    if h == 0 || !open {
        None
    } else {
        Some(h)
    }
}

/// Remember a newly opened handle of a stream.
pub fn remember_handle(c: &mut ConsoleState, id: u32, h: u64)
    ensures
        *final(c) == with_stream(*old(c), stream(id), h),
{
    if id == STD_INPUT_HANDLE {
        c.input = h;
    } else if id == STD_ERROR_HANDLE {
        c.error = h;
    } else {
        c.output = h;
    }
}

/// Each stream has a handle of its own: a new one for one stream leaves the others
/// open.
pub proof fn streams_are_independent(c: ConsoleState, a: u32, b: u32, h: u64)
    requires
        stream(a) != stream(b),
    ensures
        stream_handle(with_stream(c, stream(a), h), stream(b)) == stream_handle(c, stream(b)),
        stream_handle(with_stream(c, stream(a), h), stream(a)) == h,
{
}

/// A handle is one of the open console handles.
pub open spec fn is_console(c: ConsoleState, h: u64) -> bool {
    h != 0 && (h == c.input || h == c.output || h == c.error)
}

/// `GetFileType`: a character device for a console handle.
pub fn GetFileType(c: &ConsoleState, handle: u64) -> (r: u32)
    ensures
        r == if is_console(*c, handle) {
            FILE_TYPE_CHAR
        } else {
            FILE_TYPE_UNKNOWN
        },
{
    if handle != 0 && (handle == c.input || handle == c.output || handle == c.error) {
        FILE_TYPE_CHAR
    } else {
        FILE_TYPE_UNKNOWN
    }
}

/// A handle is the console's input.
pub open spec fn is_input(c: ConsoleState, h: u64) -> bool {
    h != 0 && h == c.input
}

/// `GetConsoleMode`.
pub fn GetConsoleMode(c: &ConsoleState, handle: u64) -> (mode: u32)
    ensures
        mode == if is_input(*c, handle) {
            c.input_mode
        } else {
            c.output_mode
        },
{
    if handle != 0 && handle == c.input {
        c.input_mode
    } else {
        c.output_mode
    }
}

/// `SetConsoleMode`: returns whether the kernel must be told, which it must for
/// the input.
pub fn SetConsoleMode(c: &mut ConsoleState, handle: u64, mode: u32) -> (tell: bool)
    ensures
        tell == is_input(*old(c), handle),
        *final(c) == if tell {
            ConsoleState { input_mode: mode, ..*old(c) }
        } else {
            ConsoleState { output_mode: mode, ..*old(c) }
        },
{
    if handle != 0 && handle == c.input {
        c.input_mode = mode;
        true
    } else {
        c.output_mode = mode;
        false
    }
}

// ---------------------------------------------------------------------------
// Opening by name
// ---------------------------------------------------------------------------
/// ASCII upper case of a byte.
pub open spec fn upper_byte(c: u8) -> u8 {
    if 0x61 <= c <= 0x7A {
        (c - 32) as u8
    } else {
        c
    }
}

/// A name equals an upper-case alias, up to ASCII case.
pub open spec fn is_alias(name: Seq<u8>, alias: Seq<u8>) -> bool {
    name.len() == alias.len() && forall|i: int|
        0 <= i < name.len() ==> upper_byte(#[trigger] name[i]) == alias[i]
}

/// `CONIN$`
pub open spec fn conin() -> Seq<u8> {
    seq![0x43u8, 0x4F, 0x4E, 0x49, 0x4E, 0x24]
}

/// `CONOUT$`
pub open spec fn conout() -> Seq<u8> {
    seq![0x43u8, 0x4F, 0x4E, 0x4F, 0x55, 0x54, 0x24]
}

/// `CONERR$`
pub open spec fn conerr() -> Seq<u8> {
    seq![0x43u8, 0x4F, 0x4E, 0x45, 0x52, 0x52, 0x24]
}

/// `CON`
pub open spec fn con() -> Seq<u8> {
    seq![0x43u8, 0x4F, 0x4E]
}

/// A name that stands for the console.
pub open spec fn names_console(name: Seq<u8>) -> bool {
    is_alias(name, conin()) || is_alias(name, conout()) || is_alias(name, conerr()) || is_alias(
        name,
        con(),
    )
}

fn matches_alias(name: &[u8], alias: &[u8]) -> (r: bool)
    ensures
        r == is_alias(name@, alias@),
{
    if name.len() != alias.len() {
        return false;
    }
    let mut i: usize = 0;
    while i < name.len()
        invariant
            i <= name@.len(),
            name@.len() == alias@.len(),
            forall|k: int| 0 <= k < i ==> upper_byte(#[trigger] name@[k]) == alias@[k],
        decreases name@.len() - i,
    {
        let c: u8 = name[i];
        let u: u8 = if 0x61 <= c && c <= 0x7A {
            c - 32
        } else {
            c
        };
        if u != alias[i] {
            assert(upper_byte(name@[i as int]) != alias@[i as int]);
            return false;
        }
        i = i + 1;
    }
    true
}

/// What a file name leads to.
#[derive(Debug)]
pub enum OpenTarget {
    /// Nothing: the handle is invalid.
    Nothing,
    /// The console device.
    Console,
    /// A path.
    Path(Vec<u8>),
}

/// A string of bytes without its NUL.
pub open spec fn bytes_text(s: Seq<u8>) -> Seq<u8> {
    s.take(nul_pos(widened(s), 0))
}

/// `CreateFileA`: the console for one of its aliases, else a path.
pub fn CreateFileA(name: Option<&[u8]>) -> (r: OpenTarget)
    requires
        name matches Some(n) ==> ended(widened(n@)),
    ensures
        match name {
            None => r is Nothing,
            Some(n) => if names_console(bytes_text(n@)) {
                r is Console
            } else {
                r is Path && r->Path_0@ == bytes_text(n@)
            },
        },
{
    let given = match name {
        None => {
            return OpenTarget::Nothing;
        },
        Some(n) => n,
    };
    let len: usize = k_strlen(given);
    let n = slice_subrange(given, 0, len);
    assert(n@ =~= bytes_text(given@));
    target_of(n)
}

/// What a name without its NUL leads to.
fn target_of(n: &[u8]) -> (r: OpenTarget)
    ensures
        if names_console(n@) {
            r is Console
        } else {
            r is Path && r->Path_0@ == n@
        },
{
    let a: [u8; 6] = [0x43, 0x4F, 0x4E, 0x49, 0x4E, 0x24];
    let b: [u8; 7] = [0x43, 0x4F, 0x4E, 0x4F, 0x55, 0x54, 0x24];
    let c: [u8; 7] = [0x43, 0x4F, 0x4E, 0x45, 0x52, 0x52, 0x24];
    let d: [u8; 3] = [0x43, 0x4F, 0x4E];
    proof {
        assert(a@ =~= conin());
        assert(b@ =~= conout());
        assert(c@ =~= conerr());
        assert(d@ =~= con());
    }
    if matches_alias(n, &a) || matches_alias(n, &b) || matches_alias(n, &c) || matches_alias(n, &d) {
        return OpenTarget::Console;
    }
    let mut path: Vec<u8> = Vec::new();
    path.extend_from_slice(n);
    assert(path@ =~= n@);
    OpenTarget::Path(path)
}

/// Units of a file name that count.
pub const MAX_FILE_UNITS: usize = 259;

/// `CreateFileW`: like [`CreateFileA`] for a name of units, narrowed to bytes.
pub fn CreateFileW(name: Option<&[u16]>) -> (r: OpenTarget)
    requires
        name matches Some(n) ==> ended(n@),
    ensures
        match name {
            None => r is Nothing,
            Some(n) => {
                let bytes = bytes_text(short_name(n@, MAX_FILE_UNITS as int).push(0));
                if names_console(bytes) {
                    r is Console
                } else {
                    r is Path && r->Path_0@ == bytes
                }
            },
        },
{
    match name {
        None => OpenTarget::Nothing,
        Some(n) => {
            let mut bytes: Vec<u8> = narrow_name(n, MAX_FILE_UNITS);
            bytes.push(0);
            proof {
                let w = widened(bytes@);
                lemma_nul_pos(w, 0);
                assert(w.last() == 0);
                assert(nul_pos(w, 0) < w.len());
            }
            CreateFileA(Some(bytes.as_slice()))
        },
    }
}

/// `CreateFileA` after the kernel opened a path: 0 becomes an invalid handle.
pub fn opened_path(h: u64) -> (r: u64)
    ensures
        r == if h == 0 {
            INVALID_HANDLE_VALUE
        } else {
            h
        },
{
    if h == 0 {
        INVALID_HANDLE_VALUE
    } else {
        h
    }
}

// ---------------------------------------------------------------------------
// Key events
// ---------------------------------------------------------------------------
/// Size of an input record.
pub const INPUT_RECORD_SIZE: usize = 20;

/// An input record with a key event written over it: a key that went down once
/// and gave a character. The two bytes behind the event type stay.
pub open spec fn key_record(b: Seq<u8>, c: u8) -> Seq<u8> {
    set32(
        set16(set16(set16(set16(set32(set16(b, 0, 1), 4, 1), 8, 1), 10, 0), 12, 0), 14, c as u16),
        16,
        0,
    )
}

/// `PeekConsoleInputW` after the kernel was asked for a waiting byte: the number
/// of events, with the record filled in for one.
pub fn PeekConsoleInputW(peeked: Option<u8>, buffer: Option<Vec<u8>>, length: u32) -> (r: (
    u32,
    Option<Vec<u8>>,
))
    requires
        length >= 1 && buffer is Some ==> buffer->Some_0@.len() >= INPUT_RECORD_SIZE,
    ensures
        match (peeked, buffer) {
            (Some(c), Some(b)) => if length >= 1 {
                r.0 == 1 && r.1 is Some && r.1->Some_0@ == key_record(b@, c)
            } else {
                r.0 == 0 && r.1 == buffer
            },
            _ => r.0 == 0 && r.1 == buffer,
        },
{
    match (peeked, buffer) {
        (Some(c), Some(b)) => {
            if length < 1 {
                return (0, Some(b));
            }
            let mut out: Vec<u8> = b;
            put16(&mut out, 0, 1);
            put32(&mut out, 4, 1);
            put16(&mut out, 8, 1);
            put16(&mut out, 10, 0);
            put16(&mut out, 12, 0);
            put16(&mut out, 14, c as u16);
            put32(&mut out, 16, 0);
            (1, Some(out))
        },
        (_, b) => (0, b),
    }
}

// ---------------------------------------------------------------------------
// Reading and writing
// ---------------------------------------------------------------------------
/// `WriteFile` after the request: all the bytes count as written.
pub fn WriteFile(bytes: u32, written: Option<&mut u32>) -> (r: i32)
    ensures
        r == 1,
        written matches Some(w) ==> *final(w) == bytes,
{
    if let Some(w) = written {
        *w = bytes;
    }
    1
}

/// `ReadFile` after the kernel answered with the bytes that it read.
pub fn ReadFile(answer: u64, read: Option<&mut u32>) -> (r: i32)
    ensures
        r == 1,
        read matches Some(n) ==> *final(n) == answer % 0x1_0000_0000,
{
    if let Some(n) = read {
        *n = (answer % 0x1_0000_0000) as u32;
    }
    1
}

/// `GetFileSize` after the kernel answered: the low half of the size; the high half
/// is always given as 0.
pub fn GetFileSize(answer: u64, high: Option<&mut u32>) -> (r: u32)
    ensures
        r == answer % 0x1_0000_0000,
        high matches Some(h) ==> *final(h) == 0,
{
    if let Some(h) = high {
        *h = 0;
    }
    (answer % 0x1_0000_0000) as u32
}

/// The standard streams go by the numbers -10, -11 and -12: a handle that is remembered
/// under one of them is the input, the output or the error stream.
pub proof fn the_streams_go_by_their_numbers(c: ConsoleState, h: u64)
    ensures
        with_stream(c, stream(0xFFFF_FFF6), h) == (ConsoleState { input: h, ..c }),
        with_stream(c, stream(0xFFFF_FFF5), h) == (ConsoleState { output: h, ..c }),
        with_stream(c, stream(0xFFFF_FFF4), h) == (ConsoleState { error: h, ..c }),
        stream_handle(c, stream(0xFFFF_FFF6)) == c.input,
        stream_handle(c, stream(0xFFFF_FFF5)) == c.output,
        stream_handle(c, stream(0xFFFF_FFF4)) == c.error,
{
}

/// A handle that was remembered is a console handle, one that no stream has is none, and
/// zero never is one. Only the input stream has input.
pub proof fn remembered_handles_are_the_console(c: ConsoleState, id: u32, h: u64)
    ensures
        h != 0 ==> is_console(with_stream(c, stream(id), h), h),
        !is_console(c, 0),
        !is_input(c, 0),
        h != c.input && h != c.output && h != c.error ==> !is_console(c, h),
        h != 0 ==> is_input(with_stream(c, stream(0xFFFF_FFF6), h), h),
        h != c.input ==> !is_input(with_stream(c, stream(0xFFFF_FFF5), h), h),
        h != c.input ==> !is_input(with_stream(c, stream(0xFFFF_FFF4), h), h),
{
}

/// The names of the console are the same in capitals and in small letters.
pub proof fn console_names_ignore_case(a: Seq<u8>, b: Seq<u8>)
    requires
        a.len() == b.len(),
        forall|i: int|
            0 <= i < a.len() ==> #[trigger] a[i] == b[i] || (0x61 <= b[i] <= 0x7A && a[i] + 32
                == b[i]),
    ensures
        names_console(a) == names_console(b),
{
    lemma_same_alias(a, b, conin());
    lemma_same_alias(a, b, conout());
    lemma_same_alias(a, b, conerr());
    lemma_same_alias(a, b, con());
}

proof fn lemma_same_alias(a: Seq<u8>, b: Seq<u8>, alias: Seq<u8>)
    requires
        a.len() == b.len(),
        forall|i: int|
            0 <= i < a.len() ==> #[trigger] a[i] == b[i] || (0x61 <= b[i] <= 0x7A && a[i] + 32
                == b[i]),
    ensures
        is_alias(a, alias) == is_alias(b, alias),
{
    assert forall|i: int| 0 <= i < a.len() implies upper_byte(#[trigger] a[i]) == upper_byte(b[i]) by {}
    if is_alias(a, alias) {
        assert forall|i: int| 0 <= i < b.len() implies upper_byte(#[trigger] b[i]) == alias[i] by {
            assert(upper_byte(a[i]) == alias[i]);
        }
    }
    if is_alias(b, alias) {
        assert forall|i: int| 0 <= i < a.len() implies upper_byte(#[trigger] a[i]) == alias[i] by {
            assert(upper_byte(b[i]) == alias[i]);
        }
    }
}

/// Nothing but `CON`, `CONIN$`, `CONOUT$` and `CONERR$` names the console.
pub proof fn only_four_names_are_the_console(n: Seq<u8>)
    requires
        forall|i: int| 0 <= i < n.len() ==> !(0x61 <= #[trigger] n[i] <= 0x7A),
    ensures
        names_console(n) <==> n == seq![0x43u8, 0x4F, 0x4E] || n == seq![
            0x43u8,
            0x4F,
            0x4E,
            0x49,
            0x4E,
            0x24,
        ] || n == seq![0x43u8, 0x4F, 0x4E, 0x4F, 0x55, 0x54, 0x24] || n == seq![
            0x43u8,
            0x4F,
            0x4E,
            0x45,
            0x52,
            0x52,
            0x24,
        ],
{
    lemma_alias_is(n, con());
    lemma_alias_is(n, conin());
    lemma_alias_is(n, conout());
    lemma_alias_is(n, conerr());
}

proof fn lemma_alias_is(n: Seq<u8>, alias: Seq<u8>)
    requires
        forall|i: int| 0 <= i < n.len() ==> !(0x61 <= #[trigger] n[i] <= 0x7A),
    ensures
        is_alias(n, alias) == (n == alias),
{
    if is_alias(n, alias) {
        assert forall|i: int| 0 <= i < n.len() implies n[i] == alias[i] by {
            assert(upper_byte(n[i]) == alias[i]);
        }
        assert(n =~= alias);
    }
}

/// A key record says that one key went down once, and which character it gives; what stands
/// behind the record is kept.
pub proof fn a_key_record_reads_back(b: Seq<u8>, c: u8, i: int)
    requires
        b.len() >= 20,
        20 <= i < b.len(),
    ensures
        ({
            let r = key_record(b, c);
            &&& r.len() == b.len()
            &&& get16(r, 0) == 1
            &&& get32(r, 4) == 1
            &&& get16(r, 8) == 1
            &&& get16(r, 10) == 0
            &&& get16(r, 12) == 0
            &&& get16(r, 14) == c
            &&& get32(r, 16) == 0
            &&& r[i] == b[i]
        }),
{
    let s0 = set16(b, 0, 1);
    let s1 = set32(s0, 4, 1);
    let s2 = set16(s1, 8, 1);
    let s3 = set16(s2, 10, 0);
    let s4 = set16(s3, 12, 0);
    let s5 = set16(s4, 14, c as u16);
    let s6 = set32(s5, 16, 0);
    lemma_bytes16(1);
    lemma_bytes16(0);
    lemma_bytes16(c as u16);
    lemma_bytes32(1);
    lemma_bytes32(0);
    lemma_get16_in(s6, 0, bytes16(1));
    lemma_get32_in(s6, 4, bytes32(1));
    lemma_get16_in(s6, 8, bytes16(1));
    lemma_get16_in(s6, 10, bytes16(0));
    lemma_get16_in(s6, 12, bytes16(0));
    lemma_get16_in(s6, 14, bytes16(c as u16));
    lemma_get32_in(s6, 16, bytes32(0));
}

/// The name of a file ends at its first NUL.
pub proof fn a_file_name_ends_at_its_nul(name: Seq<u8>, rest: Seq<u8>)
    requires
        forall|i: int| 0 <= i < name.len() ==> #[trigger] name[i] != 0,
    ensures
        bytes_text(name.push(0) + rest) == name,
{
    let s = name.push(0) + rest;
    let w = widened(s);
    lemma_nul_pos(w, 0);
    assert(w[name.len() as int] == 0);
    let p = nul_pos(w, 0);
    if p < name.len() {
        assert(w[p] == name[p]);
    }
    assert(s.take(name.len() as int) =~= name);
}

} // verus!
