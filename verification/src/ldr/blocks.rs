//! The control blocks of a process.
//!
//! A program reaches its thread block (TEB) through GS and everything else from
//! there: the process block (PEB), the process parameters, the list of loaded
//! modules, thread-local storage and the environment. They stand at fixed
//! offsets in one region just below the user stack.
use crate::bytes::{
    bytes16, bytes32, bytes64, get16, get32, get64, lemma_get_put32, overlay, put16, put32, put64,
    put_bytes,
};
use crate::fields::{
    clear_of, fields_read_back, hold_all, holds64, lemma_keep, only_in, put8, put_fields, set16, set32,
    set64, set8, set_fields, spread, Field,
};
use vstd::prelude::*;
use vstd::string::StringSliceAdditionalSpecFns;

verus! {

/// Top of the user stack.
pub const USER_STACK_TOP: u64 = 0x0000_7FFF_FFF0_0000;

/// Base of the block region.
pub const TEB_BASE: u64 = 0x0000_7FFF_FFE0_0000;

pub const PEB_BASE: u64 = 0x0000_7FFF_FFE0_2000;

pub const PARAMS_BASE: u64 = 0x0000_7FFF_FFE0_3000;

pub const LDR_BASE: u64 = 0x0000_7FFF_FFE0_4000;

pub const TLS_BASE: u64 = 0x0000_7FFF_FFE0_5000;

pub const ENV_BASE: u64 = 0x0000_7FFF_FFE0_6000;

/// Pages of the region.
pub const USER_BLOCK_PAGES: usize = 8;

/// Bytes of the region.
pub const USER_BLOCK_SIZE: usize = 0x8000;

/// What `GetProcessHeap` returns, mirrored in the PEB.
pub const PROCESS_HEAP: u64 = 1;

/// A character as one UTF-16 unit (the text written here is ASCII).
pub open spec fn unit(c: char) -> u16 {
    ((c as u32) % 0x1_0000) as u16
}

/// Some text as UTF-16 with a terminating NUL.
pub open spec fn wide(t: Seq<char>) -> Seq<u8>
    decreases t.len(),
{
    if t.len() == 0 {
        bytes16(0)
    } else {
        bytes16(unit(t[0])) + wide(t.skip(1))
    }
}

/// `s` with some text written at `o`.
pub open spec fn set_text(s: Seq<u8>, o: int, t: Seq<char>) -> Seq<u8> {
    overlay(s, o, wide(t))
}

/// `s` with a counted-string header for `n` characters at `va`.
pub open spec fn set_counted(s: Seq<u8>, o: int, va: u64, n: int) -> Seq<u8> {
    set64(set16(set16(s, o, (n * 2) as u16), o + 2, ((n + 1) * 2) as u16), o + 8, va)
}

proof fn lemma_wide_len(t: Seq<char>)
    ensures
        wide(t).len() == 2 * t.len() + 2,
    decreases t.len(),
{
    if t.len() > 0 {
        lemma_wide_len(t.skip(1));
    }
}

proof fn lemma_wide_push(t: Seq<char>, k: int)
    requires
        0 <= k < t.len(),
    ensures
        wide_units(t, k + 1) == wide_units(t, k) + bytes16(unit(t[k])),
{
}

/// The first `k` units of some text, without NUL.
spec fn wide_units(t: Seq<char>, k: int) -> Seq<u8>
    decreases k,
{
    if k <= 0 {
        Seq::empty()
    } else {
        wide_units(t, k - 1) + bytes16(unit(t[k - 1]))
    }
}

proof fn lemma_units_shift(t: Seq<char>, k: int)
    requires
        0 <= k < t.len(),
    ensures
        bytes16(unit(t[0])) + wide_units(t.skip(1), k) == wide_units(t, k + 1),
    decreases k,
{
    if k > 0 {
        lemma_units_shift(t, k - 1);
        assert(t.skip(1)[k - 1] == t[k]);
        assert(bytes16(unit(t[0])) + wide_units(t.skip(1), k) =~= (bytes16(unit(t[0]))
            + wide_units(t.skip(1), k - 1)) + bytes16(unit(t[k])));
    } else {
        assert(wide_units(t, 0) =~= Seq::empty());
        assert(wide_units(t, 1) =~= bytes16(unit(t[0])));
        assert(bytes16(unit(t[0])) + wide_units(t.skip(1), 0) =~= bytes16(unit(t[0])));
    }
}

proof fn lemma_wide_is_units(t: Seq<char>)
    ensures
        wide(t) == wide_units(t, t.len() as int) + bytes16(0),
        wide_units(t, t.len() as int).len() == 2 * t.len(),
    decreases t.len(),
{
    if t.len() > 0 {
        lemma_wide_is_units(t.skip(1));
        lemma_units_shift(t, t.len() - 1);
        assert(wide(t) =~= wide_units(t, t.len() as int) + bytes16(0));
    } else {
        assert(wide_units(t, 0) + bytes16(0) =~= bytes16(0));
    }
}

proof fn lemma_units_len(t: Seq<char>, k: int)
    requires
        0 <= k,
    ensures
        wide_units(t, k).len() == 2 * k,
    decreases k,
{
    if k > 0 {
        lemma_units_len(t, k - 1);
    }
}

/// Write some text as NUL-terminated UTF-16.
pub fn put_text(buf: &mut Vec<u8>, o: usize, t: &str)
    requires
        o + 2 * t@.len() + 2 <= old(buf).len(),
    ensures
        final(buf)@ == set_text(old(buf)@, o as int, t@),
{
    let ghost before = buf@;
    let n: usize = t.unicode_len();
    let mut i: usize = 0;
    assert(overlay(before, o as int, wide_units(t@, 0)) =~= before);
    while i < n
        invariant
            i <= n,
            n == t@.len(),
            buf@.len() == before.len(),
            o + 2 * n + 2 <= buf.len(),
            buf@ == overlay(before, o as int, wide_units(t@, i as int)),
        decreases n - i,
    {
        let c: char = t.get_char(i);
        let u: u16 = (c as u32 % 0x1_0000) as u16;
        let ghost prev = buf@;
        put16(buf, o + 2 * i, u);
        proof {
            lemma_units_len(t@, i as int);
            lemma_wide_push(t@, i as int);
            assert(buf@ =~= overlay(before, o as int, wide_units(t@, i + 1)));
        }
        i = i + 1;
    }
    put16(buf, o + 2 * n, 0);
    proof {
        lemma_wide_is_units(t@);
        lemma_units_len(t@, n as int);
        assert(buf@ =~= set_text(before, o as int, t@));
    }
}

/// Write a counted-string header.
fn put_counted(buf: &mut Vec<u8>, o: usize, va: u64, n: u16)
    requires
        o + 16 <= old(buf).len(),
        n <= 0x1000,
    ensures
        final(buf)@ == set_counted(old(buf)@, o as int, va, n as int),
{
    put16(buf, o, n * 2);
    put16(buf, o + 2, (n + 1) * 2);
    put64(buf, o + 8, va);
}

// ---------------------------------------------------------------------------
// The blocks
// ---------------------------------------------------------------------------
/// The fields of the thread block.
#[verifier::opaque]
pub open spec fn teb_fields(stack_limit: u64, pid: u64, tid: u64) -> Seq<Field> {
    seq![
        Field { at: 0x08, value: USER_STACK_TOP },
        Field { at: 0x10, value: stack_limit },
        Field { at: 0x30, value: TEB_BASE },
        Field { at: 0x40, value: pid },
        Field { at: 0x48, value: tid },
        Field { at: 0x58, value: TLS_BASE },
        Field { at: 0x60, value: PEB_BASE },
    ]
}

/// The thread block.
#[verifier::opaque]
pub open spec fn with_teb(b: Seq<u8>, stack_limit: u64, pid: u64, tid: u64) -> Seq<u8> {
    set32(set_fields(b, teb_fields(stack_limit, pid, tid)), 0x68, 0)
}

fn put_teb(b: &mut Vec<u8>, stack_limit: u64, pid: u64, tid: u64)
    requires
        old(b).len() == USER_BLOCK_SIZE,
    ensures
        final(b).len() == USER_BLOCK_SIZE,
        final(b)@ == with_teb(old(b)@, stack_limit, pid, tid),
{
    let fields: [Field; 7] = [
        Field { at: 0x08, value: USER_STACK_TOP },
        Field { at: 0x10, value: stack_limit },
        Field { at: 0x30, value: TEB_BASE },
        Field { at: 0x40, value: pid },
        Field { at: 0x48, value: tid },
        Field { at: 0x58, value: TLS_BASE },
        Field { at: 0x60, value: PEB_BASE },
    ];
    reveal(teb_fields);
    reveal(with_teb);
    assert(fields@ =~= teb_fields(stack_limit, pid, tid));
    put_fields(b, &fields);
    put32(b, 0x68, 0);
}

/// The 64-bit fields of the process block.
#[verifier::opaque]
pub open spec fn peb_fields(image_base: u64) -> Seq<Field> {
    seq![
        Field { at: 0x2010, value: image_base },
        Field { at: 0x2018, value: LDR_BASE },
        Field { at: 0x2020, value: PARAMS_BASE },
        Field { at: 0x2030, value: PROCESS_HEAP },
    ]
}

/// The process block: not being debugged, with its version fields.
#[verifier::opaque]
pub open spec fn with_peb(b: Seq<u8>, image_base: u64) -> Seq<u8> {
    let b = set_fields(b, peb_fields(image_base));
    let b = set8(b, 0x2002, 0);
    let b = set32(b, 0x20BC, 0);
    let b = set32(b, 0x2118, 1);
    let b = set32(b, 0x211C, 0);
    let b = set16(b, 0x2120, 1);
    set32(b, 0x2124, 2)
}

fn put_peb(b: &mut Vec<u8>, image_base: u64)
    requires
        old(b).len() == USER_BLOCK_SIZE,
    ensures
        final(b).len() == USER_BLOCK_SIZE,
        final(b)@ == with_peb(old(b)@, image_base),
{
    let fields: [Field; 4] = [
        Field { at: 0x2010, value: image_base },
        Field { at: 0x2018, value: LDR_BASE },
        Field { at: 0x2020, value: PARAMS_BASE },
        Field { at: 0x2030, value: PROCESS_HEAP },
    ];
    reveal(peb_fields);
    reveal(with_peb);
    assert(fields@ =~= peb_fields(image_base));
    put_fields(b, &fields);
    put8(b, 0x2002, 0);
    put32(b, 0x20BC, 0);
    put32(b, 0x2118, 1);
    put32(b, 0x211C, 0);
    put16(b, 0x2120, 1);
    put32(b, 0x2124, 2);
}

/// The handle fields and the environment pointer of the process parameters.
#[verifier::opaque]
pub open spec fn params_fields(console: u64) -> Seq<Field> {
    seq![
        Field { at: 0x3010, value: console },
        Field { at: 0x3020, value: console },
        Field { at: 0x3028, value: console },
        Field { at: 0x3030, value: console },
        Field { at: 0x3080, value: ENV_BASE },
    ]
}

/// The process parameters, with their text at the end of their page.
#[verifier::opaque]
pub open spec fn with_params(b: Seq<u8>, console: u64) -> Seq<u8> {
    let dir = "C:\\"@;
    let path = "C:\\program.exe"@;
    let path_at: int = 0x3400 + 2 * (dir.len() as int + 1);
    let b = set_fields(b, params_fields(console));
    let b = set_text(b, 0x3400, dir);
    let b = set_text(b, path_at, path);
    let b = set32(b, 0x3000, 0x8000);
    let b = set32(b, 0x3004, 0x8000);
    let b = set_counted(b, 0x3038, (TEB_BASE + 0x3400) as u64, dir.len() as int);
    let b = set_counted(b, 0x3060, (TEB_BASE + path_at) as u64, path.len() as int);
    set_counted(b, 0x3070, (TEB_BASE + path_at) as u64, path.len() as int)
}

fn put_params(b: &mut Vec<u8>, console: u64)
    requires
        old(b).len() == USER_BLOCK_SIZE,
    ensures
        final(b).len() == USER_BLOCK_SIZE,
        final(b)@ == with_params(old(b)@, console),
{
    proof {
        reveal_strlit("C:\\");
        reveal_strlit("C:\\program.exe");
    }
    let fields: [Field; 5] = [
        Field { at: 0x3010, value: console },
        Field { at: 0x3020, value: console },
        Field { at: 0x3028, value: console },
        Field { at: 0x3030, value: console },
        Field { at: 0x3080, value: ENV_BASE },
    ];
    reveal(params_fields);
    reveal(with_params);
    assert(fields@ =~= params_fields(console));
    put_fields(b, &fields);
    let dir = "C:\\";
    let path = "C:\\program.exe";
    let dir_len: usize = dir.unicode_len();
    let path_len: usize = path.unicode_len();
    let path_at: usize = 0x3400 + 2 * (dir_len + 1);
    put_text(b, 0x3400, dir);
    put_text(b, path_at, path);
    put32(b, 0x3000, 0x8000);
    put32(b, 0x3004, 0x8000);
    put_counted(b, 0x3038, TEB_BASE + 0x3400, dir_len as u16);
    put_counted(b, 0x3060, TEB_BASE + path_at as u64, path_len as u16);
    put_counted(b, 0x3070, TEB_BASE + path_at as u64, path_len as u16);
}

/// The fields of the loader data: one module, whose entry and the list heads
/// point at each other in all three orders.
#[verifier::opaque]
pub open spec fn loader_fields(image_base: u64, entry_point: u64) -> Seq<Field> {
    seq![
        Field { at: 0x4010, value: (LDR_BASE + 0x100) as u64 },
        Field { at: 0x4018, value: (LDR_BASE + 0x100) as u64 },
        Field { at: 0x4020, value: (LDR_BASE + 0x110) as u64 },
        Field { at: 0x4028, value: (LDR_BASE + 0x110) as u64 },
        Field { at: 0x4030, value: (LDR_BASE + 0x120) as u64 },
        Field { at: 0x4038, value: (LDR_BASE + 0x120) as u64 },
        Field { at: 0x4100, value: (LDR_BASE + 0x10) as u64 },
        Field { at: 0x4108, value: (LDR_BASE + 0x10) as u64 },
        Field { at: 0x4110, value: (LDR_BASE + 0x20) as u64 },
        Field { at: 0x4118, value: (LDR_BASE + 0x20) as u64 },
        Field { at: 0x4120, value: (LDR_BASE + 0x30) as u64 },
        Field { at: 0x4128, value: (LDR_BASE + 0x30) as u64 },
        Field { at: 0x4130, value: image_base },
        Field { at: 0x4138, value: entry_point },
    ]
}

/// The loader data.
#[verifier::opaque]
pub open spec fn with_loader_data(b: Seq<u8>, image_base: u64, entry_point: u64, size: u32) -> Seq<
    u8,
> {
    let name = "program.exe"@;
    let b = set_fields(b, loader_fields(image_base, entry_point));
    let b = set32(b, 0x4000, 0x58);
    let b = set8(b, 0x4004, 1);
    let b = set32(b, 0x4140, size);
    let b = set_text(b, 0x4200, name);
    let b = set_counted(b, 0x4148, (LDR_BASE + 0x200) as u64, name.len() as int);
    set_counted(b, 0x4158, (LDR_BASE + 0x200) as u64, name.len() as int)
}

fn put_loader_data(b: &mut Vec<u8>, image_base: u64, entry_point: u64, size: u32)
    requires
        old(b).len() == USER_BLOCK_SIZE,
    ensures
        final(b).len() == USER_BLOCK_SIZE,
        final(b)@ == with_loader_data(old(b)@, image_base, entry_point, size),
{
    proof {
        reveal_strlit("program.exe");
    }
    let fields: [Field; 14] = [
        Field { at: 0x4010, value: LDR_BASE + 0x100 },
        Field { at: 0x4018, value: LDR_BASE + 0x100 },
        Field { at: 0x4020, value: LDR_BASE + 0x110 },
        Field { at: 0x4028, value: LDR_BASE + 0x110 },
        Field { at: 0x4030, value: LDR_BASE + 0x120 },
        Field { at: 0x4038, value: LDR_BASE + 0x120 },
        Field { at: 0x4100, value: LDR_BASE + 0x10 },
        Field { at: 0x4108, value: LDR_BASE + 0x10 },
        Field { at: 0x4110, value: LDR_BASE + 0x20 },
        Field { at: 0x4118, value: LDR_BASE + 0x20 },
        Field { at: 0x4120, value: LDR_BASE + 0x30 },
        Field { at: 0x4128, value: LDR_BASE + 0x30 },
        Field { at: 0x4130, value: image_base },
        Field { at: 0x4138, value: entry_point },
    ];
    reveal(loader_fields);
    reveal(with_loader_data);
    assert(fields@ =~= loader_fields(image_base, entry_point));
    put_fields(b, &fields);
    let name = "program.exe";
    put32(b, 0x4000, 0x58);
    put8(b, 0x4004, 1);
    put32(b, 0x4140, size);
    put_text(b, 0x4200, name);
    let n: u16 = name.unicode_len() as u16;
    put_counted(b, 0x4148, LDR_BASE + 0x200, n);
    put_counted(b, 0x4158, LDR_BASE + 0x200, n);
}

/// Thread-local storage: the template in its page, and the first slot of the
/// array pointing at it.
pub open spec fn with_tls(b: Seq<u8>, template: Seq<u8>) -> Seq<u8> {
    set64(overlay(b, 0x5080, template), 0x5000, (TLS_BASE + 0x80) as u64)
}

/// Write the thread-local storage.
pub fn put_tls(b: &mut Vec<u8>, template: &[u8])
    requires
        old(b).len() == USER_BLOCK_SIZE,
        template@.len() <= 0xF80,
    ensures
        final(b).len() == USER_BLOCK_SIZE,
        final(b)@ == with_tls(old(b)@, template@),
{
    put_bytes(b, 0x5080, template);
    put64(b, 0x5000, TLS_BASE + 0x80);
}

/// The variables from `at` on, each terminated, with a final NUL.
pub open spec fn with_vars(b: Seq<u8>, at: int, vars: Seq<Seq<char>>) -> Seq<u8>
    decreases vars.len(),
{
    if vars.len() == 0 {
        set16(b, at, 0)
    } else {
        with_vars(set_text(b, at, vars[0]), at + 2 * (vars[0].len() + 1), vars.skip(1))
    }
}

/// The default environment.
pub open spec fn default_environment() -> Seq<Seq<char>> {
    seq![
        "COMSPEC=C:\\cmd.exe"@,
        "OS=nanokrnl"@,
        "PATH=C:\\"@,
        "PATHEXT=.EXE;.BAT;.CMD"@,
        "PROMPT=$P$G"@,
        "SystemRoot=C:\\fxcknmc"@,
    ]
}

/// The environment block.
#[verifier::opaque]
pub open spec fn with_environment(b: Seq<u8>) -> Seq<u8> {
    with_vars(b, 0x6000, default_environment())
}

fn put_environment(b: &mut Vec<u8>)
    requires
        old(b).len() == USER_BLOCK_SIZE,
    ensures
        final(b).len() == USER_BLOCK_SIZE,
        final(b)@ == with_environment(old(b)@),
{
    proof {
        reveal_strlit("COMSPEC=C:\\cmd.exe");
        reveal_strlit("OS=nanokrnl");
        reveal_strlit("PATH=C:\\");
        reveal_strlit("PATHEXT=.EXE;.BAT;.CMD");
        reveal_strlit("PROMPT=$P$G");
        reveal_strlit("SystemRoot=C:\\fxcknmc");
    }
    let ghost v0 = default_environment();
    let vars: [&str; 6] = [
        "COMSPEC=C:\\cmd.exe",
        "OS=nanokrnl",
        "PATH=C:\\",
        "PATHEXT=.EXE;.BAT;.CMD",
        "PROMPT=$P$G",
        "SystemRoot=C:\\fxcknmc",
    ];
    let mut at: usize = 0x6000;
    let mut i: usize = 0;
    assert(v0.skip(0) =~= v0);
    assert(forall|k: int| 0 <= k < 6 ==> (#[trigger] vars@[k])@ == v0[k] && v0[k].len() <= 22);
    while i < 6
        invariant
            i <= 6,
            b.len() == USER_BLOCK_SIZE,
            v0.len() == 6,
            vars@.len() == 6,
            at <= 0x6000 + i * 46,
            forall|k: int| 0 <= k < 6 ==> (#[trigger] vars@[k])@ == v0[k] && v0[k].len() <= 22,
            with_vars(b@, at as int, v0.skip(i as int)) == with_vars(old(b)@, 0x6000, v0),
        decreases 6 - i,
    {
        let t = vars[i];
        assert(vars@[i as int]@ == v0[i as int]);
        let n: usize = t.unicode_len();
        put_text(b, at, t);
        proof {
            assert(v0.skip(i as int)[0] == v0[i as int]);
            assert(v0.skip(i as int).skip(1) =~= v0.skip(i + 1));
        }
        at = at + 2 * (n + 1);
        i = i + 1;
    }
    assert(v0.skip(6) =~= Seq::empty());
    put16(b, at, 0);
    reveal(with_environment);
}

/// The parameters of the block region.
#[derive(Debug, Clone, Copy)]
pub struct BlockParams {
    pub stack_limit: u64,
    pub pid: u64,
    pub tid: u64,
    pub image_base: u64,
    pub entry_point: u64,
    pub image_size: u32,
    /// Handle for standard input, output and error.
    pub console: u64,
}

/// The whole region, with the thread-local template if the image has one.
pub open spec fn block_region(p: BlockParams, template: Option<Seq<u8>>) -> Seq<u8> {
    let b = Seq::new(USER_BLOCK_SIZE as nat, |i: int| 0u8);
    let b = with_teb(b, p.stack_limit, p.pid, p.tid);
    let b = with_peb(b, p.image_base);
    let b = with_params(b, p.console);
    let b = with_loader_data(b, p.image_base, p.entry_point, p.image_size);
    let b = match template {
        Some(t) => with_tls(b, t),
        None => b,
    };
    with_environment(b)
}

/// Lay the region out.
pub fn build_blocks(p: &BlockParams, template: Option<&[u8]>) -> (b: Vec<u8>)
    requires
        template matches Some(t) ==> t@.len() <= 0xF80,
    ensures
        b@ == block_region(
            *p,
            match template {
                Some(t) => Some(t@),
                None => None,
            },
        ),
        b.len() == USER_BLOCK_SIZE,
{
    let mut b: Vec<u8> = vec![0u8; USER_BLOCK_SIZE];
    assert(b@ =~= Seq::new(USER_BLOCK_SIZE as nat, |i: int| 0u8));
    put_teb(&mut b, p.stack_limit, p.pid, p.tid);
    put_peb(&mut b, p.image_base);
    put_params(&mut b, p.console);
    put_loader_data(&mut b, p.image_base, p.entry_point, p.image_size);
    match template {
        Some(t) => {
            put_tls(&mut b, t);
        },
        None => {},
    }
    put_environment(&mut b);
    b
}

// ---------------------------------------------------------------------------
// Laws
// ---------------------------------------------------------------------------
/// What every list of fields keeps clear of.
proof fn lemma_lists(limit: u64, pid: u64, tid: u64, base: u64, console: u64, entry_point: u64)
    ensures
        ({
            let t = teb_fields(limit, pid, tid);
            &&& spread(t, 0, 0x68)
            &&& clear_of(t, 0x68, 0x6C)
            &&& clear_of(t, 0x2000, 0x3000)
            &&& clear_of(t, 0x3000, 0x4000)
            &&& clear_of(t, 0x4000, 0x5000)
            &&& clear_of(t, 0x5000, 0x6000)
            &&& clear_of(t, 0x6000, 0x8000)
        }),
        ({
            let t = peb_fields(base);
            &&& spread(t, 0x2010, 0x2038)
            &&& clear_of(t, 0x2002, 0x2003)
            &&& clear_of(t, 0x20BC, 0x2128)
            &&& clear_of(t, 0x3000, 0x4000)
            &&& clear_of(t, 0x4000, 0x5000)
            &&& clear_of(t, 0x5000, 0x6000)
            &&& clear_of(t, 0x6000, 0x8000)
        }),
        ({
            let t = params_fields(console);
            &&& spread(t, 0x3010, 0x3088)
            &&& clear_of(t, 0x3400, 0x4000)
            &&& clear_of(t, 0x3000, 0x3008)
            &&& clear_of(t, 0x3038, 0x3048)
            &&& clear_of(t, 0x3060, 0x3070)
            &&& clear_of(t, 0x3070, 0x3080)
            &&& clear_of(t, 0x4000, 0x5000)
            &&& clear_of(t, 0x5000, 0x6000)
            &&& clear_of(t, 0x6000, 0x8000)
        }),
        ({
            let t = loader_fields(base, entry_point);
            &&& spread(t, 0x4010, 0x4140)
            &&& clear_of(t, 0x4000, 0x4005)
            &&& clear_of(t, 0x4140, 0x5000)
            &&& clear_of(t, 0x5000, 0x6000)
            &&& clear_of(t, 0x6000, 0x8000)
        }),
{
    reveal(teb_fields);
    reveal(peb_fields);
    reveal(params_fields);
    reveal(loader_fields);
}

proof fn lemma_counted(s: Seq<u8>, o: int, va: u64, n: int)
    requires
        0 <= o,
        o + 16 <= s.len(),
    ensures
        only_in(s, set_counted(s, o, va, n), o, o + 16),
{
    assert(bytes16((n * 2) as u16).len() == 2 && bytes16(((n + 1) * 2) as u16).len() == 2);
    assert(bytes64(va).len() == 8);
}

proof fn lemma_teb(b: Seq<u8>, limit: u64, pid: u64, tid: u64)
    requires
        b.len() == USER_BLOCK_SIZE,
    ensures
        only_in(b, with_teb(b, limit, pid, tid), 0, 0x1000),
        hold_all(with_teb(b, limit, pid, tid), teb_fields(limit, pid, tid)),
{
    reveal(with_teb);
    lemma_lists(limit, pid, tid, 0, 0, 0);
    let f = teb_fields(limit, pid, tid);
    fields_read_back(b, f, 0, 0x68);
    let s = set_fields(b, f);
    assert(bytes32(0).len() == 4);
    lemma_keep(s, with_teb(b, limit, pid, tid), 0x68, 0x6C, f);
}

proof fn lemma_peb(b: Seq<u8>, base: u64)
    requires
        b.len() == USER_BLOCK_SIZE,
    ensures
        only_in(b, with_peb(b, base), 0x2000, 0x3000),
        hold_all(with_peb(b, base), peb_fields(base)),
{
    reveal(with_peb);
    lemma_lists(0, 0, 0, base, 0, 0);
    let f = peb_fields(base);
    fields_read_back(b, f, 0x2010, 0x2038);
    let s = set_fields(b, f);
    let s1 = set8(s, 0x2002, 0);
    lemma_keep(s, s1, 0x2002, 0x2003, f);
    assert(bytes32(0).len() == 4 && bytes32(1).len() == 4 && bytes32(2).len() == 4 && bytes16(
        1,
    ).len() == 2);
    lemma_keep(s1, with_peb(b, base), 0x20BC, 0x2128, f);
}

proof fn lemma_params(b: Seq<u8>, console: u64)
    requires
        b.len() == USER_BLOCK_SIZE,
    ensures
        only_in(b, with_params(b, console), 0x3000, 0x4000),
        hold_all(with_params(b, console), params_fields(console)),
{
    reveal_strlit("C:\\");
    reveal_strlit("C:\\program.exe");
    let dir = "C:\\"@;
    let path = "C:\\program.exe"@;
    let path_at: int = 0x3400 + 2 * (dir.len() as int + 1);
    lemma_wide_len(dir);
    lemma_wide_len(path);
    reveal(with_params);
    lemma_lists(0, 0, 0, 0, console, 0);
    let f = params_fields(console);
    fields_read_back(b, f, 0x3010, 0x3088);
    let s = set_fields(b, f);
    let s1 = set_text(set_text(s, 0x3400, dir), path_at, path);
    lemma_keep(s, s1, 0x3400, 0x4000, f);
    let s2 = set32(set32(s1, 0x3000, 0x8000), 0x3004, 0x8000);
    assert(bytes32(0x8000).len() == 4);
    lemma_keep(s1, s2, 0x3000, 0x3008, f);
    let s3 = set_counted(s2, 0x3038, (TEB_BASE + 0x3400) as u64, dir.len() as int);
    lemma_counted(s2, 0x3038, (TEB_BASE + 0x3400) as u64, dir.len() as int);
    lemma_keep(s2, s3, 0x3038, 0x3048, f);
    let s4 = set_counted(s3, 0x3060, (TEB_BASE + path_at) as u64, path.len() as int);
    lemma_counted(s3, 0x3060, (TEB_BASE + path_at) as u64, path.len() as int);
    lemma_keep(s3, s4, 0x3060, 0x3070, f);
    lemma_counted(s4, 0x3070, (TEB_BASE + path_at) as u64, path.len() as int);
    lemma_keep(s4, with_params(b, console), 0x3070, 0x3080, f);
}

proof fn lemma_loader_data(b: Seq<u8>, base: u64, entry_point: u64, size: u32)
    requires
        b.len() == USER_BLOCK_SIZE,
    ensures
        only_in(b, with_loader_data(b, base, entry_point, size), 0x4000, 0x5000),
        hold_all(
            with_loader_data(b, base, entry_point, size),
            loader_fields(base, entry_point),
        ),
{
    reveal_strlit("program.exe");
    let name = "program.exe"@;
    lemma_wide_len(name);
    reveal(with_loader_data);
    lemma_lists(0, 0, 0, base, 0, entry_point);
    let f = loader_fields(base, entry_point);
    fields_read_back(b, f, 0x4010, 0x4140);
    let s = set_fields(b, f);
    let s1 = set8(set32(s, 0x4000, 0x58), 0x4004, 1);
    assert(bytes32(0x58).len() == 4);
    lemma_keep(s, s1, 0x4000, 0x4005, f);
    let s2 = set32(s1, 0x4140, size);
    assert(bytes32(size).len() == 4);
    let s3 = set_text(s2, 0x4200, name);
    let s4 = set_counted(s3, 0x4148, (LDR_BASE + 0x200) as u64, name.len() as int);
    lemma_counted(s3, 0x4148, (LDR_BASE + 0x200) as u64, name.len() as int);
    lemma_counted(s4, 0x4158, (LDR_BASE + 0x200) as u64, name.len() as int);
    lemma_keep(s1, with_loader_data(b, base, entry_point, size), 0x4140, 0x5000, f);
}

proof fn lemma_vars(b: Seq<u8>, at: int, vars: Seq<Seq<char>>, lo: int)
    requires
        0 <= lo <= at,
    ensures
        only_in(b, with_vars(b, at, vars), lo, b.len() as int),
    decreases vars.len(),
{
    if vars.len() == 0 {
        assert(bytes16(0).len() == 2);
    } else {
        lemma_wide_len(vars[0]);
        lemma_vars(set_text(b, at, vars[0]), at + 2 * (vars[0].len() + 1), vars.skip(1), lo);
    }
}

/// Everything a program reaches from its thread block reads back from the
/// finished region: the block pointers, the identifiers, the image, the standard
/// handles, and the module lists, in each of which head and entry point at each
/// other.
pub proof fn blocks_read_back(p: BlockParams, template: Option<Seq<u8>>)
    requires
        template matches Some(t) ==> t.len() <= 0xF80,
    ensures
        ({
            let b = block_region(p, template);
            &&& b.len() == USER_BLOCK_SIZE
            &&& hold_all(b, teb_fields(p.stack_limit, p.pid, p.tid))
            &&& hold_all(b, peb_fields(p.image_base))
            &&& hold_all(b, params_fields(p.console))
            &&& hold_all(b, loader_fields(p.image_base, p.entry_point))
        }),
{
    lemma_lists(p.stack_limit, p.pid, p.tid, p.image_base, p.console, p.entry_point);
    let z = Seq::new(USER_BLOCK_SIZE as nat, |i: int| 0u8);
    let b1 = with_teb(z, p.stack_limit, p.pid, p.tid);
    let b2 = with_peb(b1, p.image_base);
    let b3 = with_params(b2, p.console);
    let b4 = with_loader_data(b3, p.image_base, p.entry_point, p.image_size);
    let b5 = match template {
        Some(t) => with_tls(b4, t),
        None => b4,
    };
    let b6 = block_region(p, template);
    lemma_teb(z, p.stack_limit, p.pid, p.tid);
    lemma_peb(b1, p.image_base);
    lemma_params(b2, p.console);
    lemma_loader_data(b3, p.image_base, p.entry_point, p.image_size);
    assert(only_in(b4, b5, 0x5000, 0x6000)) by {
        assert(bytes64((TLS_BASE + 0x80) as u64).len() == 8);
    }
    reveal(with_environment);
    lemma_vars(b5, 0x6000, default_environment(), 0x6000);
    let teb = teb_fields(p.stack_limit, p.pid, p.tid);
    lemma_keep(b1, b2, 0x2000, 0x3000, teb);
    lemma_keep(b2, b3, 0x3000, 0x4000, teb);
    lemma_keep(b3, b4, 0x4000, 0x5000, teb);
    lemma_keep(b4, b5, 0x5000, 0x6000, teb);
    lemma_keep(b5, b6, 0x6000, 0x8000, teb);
    let peb = peb_fields(p.image_base);
    lemma_keep(b2, b3, 0x3000, 0x4000, peb);
    lemma_keep(b3, b4, 0x4000, 0x5000, peb);
    lemma_keep(b4, b5, 0x5000, 0x6000, peb);
    lemma_keep(b5, b6, 0x6000, 0x8000, peb);
    let par = params_fields(p.console);
    lemma_keep(b3, b4, 0x4000, 0x5000, par);
    lemma_keep(b4, b5, 0x5000, 0x6000, par);
    lemma_keep(b5, b6, 0x6000, 0x8000, par);
    let ldr = loader_fields(p.image_base, p.entry_point);
    lemma_keep(b4, b5, 0x5000, 0x6000, ldr);
    lemma_keep(b5, b6, 0x6000, 0x8000, ldr);
}

/// A program finds its blocks where AMD64 programs look for them: from the thread block the
/// stack limits, itself, the identifiers, the TLS array and the process block; from the
/// process block the image, the loader data, the parameters and the heap; from the
/// parameters the console for all three streams and the environment.
pub proof fn blocks_stand_where_programs_look(p: BlockParams, template: Option<Seq<u8>>)
    requires
        template matches Some(t) ==> t.len() <= 0xF80,
    ensures
        ({
            let b = block_region(p, template);
            &&& get64(b, 0x08) == 0x7FFF_FFF0_0000
            &&& get64(b, 0x10) == p.stack_limit
            &&& get64(b, 0x30) == 0x7FFF_FFE0_0000
            &&& get64(b, 0x40) == p.pid
            &&& get64(b, 0x48) == p.tid
            &&& get64(b, 0x58) == 0x7FFF_FFE0_5000
            &&& get64(b, 0x60) == 0x7FFF_FFE0_2000
            &&& get64(b, 0x2010) == p.image_base
            &&& get64(b, 0x2018) == 0x7FFF_FFE0_4000
            &&& get64(b, 0x2020) == 0x7FFF_FFE0_3000
            &&& get64(b, 0x2030) == 1
            &&& get64(b, 0x3010) == p.console
            &&& get64(b, 0x3020) == p.console
            &&& get64(b, 0x3028) == p.console
            &&& get64(b, 0x3030) == p.console
            &&& get64(b, 0x3080) == 0x7FFF_FFE0_6000
            &&& get64(b, 0x4130) == p.image_base
            &&& get64(b, 0x4138) == p.entry_point
        }),
{
    blocks_read_back(p, template);
    let b = block_region(p, template);
    reveal(hold_all);
    reveal(teb_fields);
    reveal(peb_fields);
    reveal(params_fields);
    reveal(loader_fields);
    let t = teb_fields(p.stack_limit, p.pid, p.tid);
    assert(holds64(b, t[0].at as int, t[0].value) && holds64(b, t[1].at as int, t[1].value));
    assert(holds64(b, t[2].at as int, t[2].value) && holds64(b, t[3].at as int, t[3].value));
    assert(holds64(b, t[4].at as int, t[4].value) && holds64(b, t[5].at as int, t[5].value));
    assert(holds64(b, t[6].at as int, t[6].value));
    let q = peb_fields(p.image_base);
    assert(holds64(b, q[0].at as int, q[0].value) && holds64(b, q[1].at as int, q[1].value));
    assert(holds64(b, q[2].at as int, q[2].value) && holds64(b, q[3].at as int, q[3].value));
    let r = params_fields(p.console);
    assert(holds64(b, r[0].at as int, r[0].value) && holds64(b, r[1].at as int, r[1].value));
    assert(holds64(b, r[2].at as int, r[2].value) && holds64(b, r[3].at as int, r[3].value));
    assert(holds64(b, r[4].at as int, r[4].value));
    let l = loader_fields(p.image_base, p.entry_point);
    assert(holds64(b, l[12].at as int, l[12].value) && holds64(b, l[13].at as int, l[13].value));
}

/// The three module lists are circular and hold the program alone: following a list head
/// forward or back leads to the entry's link for that list, and from there back to the
/// head.
pub proof fn module_lists_are_circular(p: BlockParams, template: Option<Seq<u8>>, k: int)
    requires
        template matches Some(t) ==> t.len() <= 0xF80,
        0 <= k < 3,
    ensures
        ({
            let b = block_region(p, template);
            let ldr: int = 0x7FFF_FFE0_4000;
            let head = 0x4010 + 16 * k;
            let link = 0x4100 + 16 * k;
            &&& get64(b, head) == ldr + 0x100 + 16 * k
            &&& get64(b, head + 8) == ldr + 0x100 + 16 * k
            &&& get64(b, link) == ldr + 0x10 + 16 * k
            &&& get64(b, link + 8) == ldr + 0x10 + 16 * k
        }),
{
    blocks_read_back(p, template);
    let b = block_region(p, template);
    reveal(hold_all);
    reveal(loader_fields);
    let l = loader_fields(p.image_base, p.entry_point);
    assert(k == 0 || k == 1 || k == 2);
    assert(holds64(b, l[2 * k].at as int, l[2 * k].value));
    assert(holds64(b, l[2 * k + 1].at as int, l[2 * k + 1].value));
    assert(holds64(b, l[2 * k + 6].at as int, l[2 * k + 6].value));
    assert(holds64(b, l[2 * k + 7].at as int, l[2 * k + 7].value));
    assert(k == 0 || k == 1 || k == 2);
}

/// The process block tells the system's version, 1.0 build 1 on the NT platform, and that no
/// debugger is attached.
pub proof fn the_process_block_tells_the_version(b: Seq<u8>, image_base: u64)
    requires
        b.len() == USER_BLOCK_SIZE,
    ensures
        ({
            let s = with_peb(b, image_base);
            &&& s[0x2002] == 0
            &&& get32(s, 0x2118) == 1
            &&& get32(s, 0x211C) == 0
            &&& get16(s, 0x2120) == 1
            &&& get32(s, 0x2124) == 2
        }),
{
    reveal(with_peb);
    lemma_lists(0, 0, 0, image_base, 0, 0);
    fields_read_back(b, peb_fields(image_base), 0x2010, 0x2038);
    let s0 = set_fields(b, peb_fields(image_base));
    let s1 = set8(s0, 0x2002, 0);
    let s2 = set32(s1, 0x20BC, 0);
    let s3 = set32(s2, 0x2118, 1);
    let s4 = set32(s3, 0x211C, 0);
    let s5 = set16(s4, 0x2120, 1);
    let s6 = set32(s5, 0x2124, 2);
    lemma_get_put32(s2, 0x2118, 1);
    lemma_get_put32(s3, 0x211C, 0);
    lemma_get_put32(s5, 0x2124, 2);
    assert(s6[0x2118] == s3[0x2118] && s6[0x2119] == s3[0x2119] && s6[0x211A] == s3[0x211A]
        && s6[0x211B] == s3[0x211B]);
    assert(s6[0x211C] == s4[0x211C] && s6[0x211D] == s4[0x211D] && s6[0x211E] == s4[0x211E]
        && s6[0x211F] == s4[0x211F]);
    assert(bytes16(1) =~= seq![1u8, 0]);
    assert(s6[0x2120] == s5[0x2120] && s6[0x2121] == s5[0x2121]);
    assert(s5[0x2120] == bytes16(1)[0] && s5[0x2121] == bytes16(1)[1]);
}

/// A counted string is its length in bytes, that with the NUL, and its address.
pub proof fn a_counted_string_reads_back(s: Seq<u8>, o: int, va: u64, n: int)
    requires
        0 <= o,
        o + 16 <= s.len(),
        0 <= n < 0x7FFF,
    ensures
        ({
            let r = set_counted(s, o, va, n);
            &&& get16(r, o) == 2 * n
            &&& get16(r, o + 2) == 2 * n + 2
            &&& get64(r, o + 8) == va
        }),
{
    let a = set16(s, o, (n * 2) as u16);
    let b = set16(a, o + 2, ((n + 1) * 2) as u16);
    let r = set64(b, o + 8, va);
    crate::bytes::lemma_get_put64(b, o + 8, va);
    crate::bytes::lemma_bytes16((n * 2) as u16);
    crate::bytes::lemma_bytes16(((n + 1) * 2) as u16);
    assert(bytes64(va).len() == 8);
    assert(r[o] == a[o] && r[o + 1] == a[o + 1]);
    assert(a[o] == bytes16((n * 2) as u16)[0] && a[o + 1] == bytes16((n * 2) as u16)[1]);
    assert(r[o + 2] == b[o + 2] && r[o + 3] == b[o + 3]);
    assert(b[o + 2] == bytes16(((n + 1) * 2) as u16)[0] && b[o + 3] == bytes16(
        ((n + 1) * 2) as u16,
    )[1]);
}

/// Text reads back unit by unit, with a NUL behind it.
pub proof fn text_reads_back(s: Seq<u8>, o: int, t: Seq<char>, i: int)
    requires
        0 <= o,
        o + 2 * t.len() + 2 <= s.len(),
        0 <= i <= t.len(),
        forall|k: int| 0 <= k < t.len() ==> 0 <= (#[trigger] t[k]) as int <= 0xFFFF,
    ensures
        get16(set_text(s, o, t), o + 2 * i) == if i < t.len() {
            t[i] as int
        } else {
            0
        },
{
    lemma_wide_len(t);
    lemma_wide_at(t, i);
    let r = set_text(s, o, t);
    assert(r[o + 2 * i] == wide(t)[2 * i] && r[o + 2 * i + 1] == wide(t)[2 * i + 1]);
    if i < t.len() {
        assert(0 <= t[i] as int <= 0xFFFF);
    }
}

proof fn lemma_wide_at(t: Seq<char>, i: int)
    requires
        0 <= i <= t.len(),
    ensures
        wide(t).len() == 2 * t.len() + 2,
        wide(t)[2 * i] + 0x100 * wide(t)[2 * i + 1] == if i < t.len() {
            unit(t[i]) as int
        } else {
            0
        },
    decreases i,
{
    lemma_wide_len(t);
    if i == 0 {
        if t.len() > 0 {
            assert(wide(t)[0] == bytes16(unit(t[0]))[0] && wide(t)[1] == bytes16(unit(t[0]))[1]);
            crate::bytes::lemma_bytes16(unit(t[0]));
        } else {
            assert(bytes16(0) =~= seq![0u8, 0]);
        }
    } else {
        lemma_wide_at(t.skip(1), i - 1);
        assert(wide(t)[2 * i] == wide(t.skip(1))[2 * (i - 1)]);
        assert(wide(t)[2 * i + 1] == wide(t.skip(1))[2 * (i - 1) + 1]);
    }
}

/// The TLS template of a program stands behind its slot: the first TLS pointer leads to a
/// copy of the template.
pub proof fn the_tls_slot_leads_to_the_template(b: Seq<u8>, template: Seq<u8>, i: int)
    requires
        b.len() == USER_BLOCK_SIZE,
        0 <= i < template.len() <= 0xF80,
    ensures
        ({
            let s = with_tls(b, template);
            let at = get64(s, 0x5000) - 0x7FFF_FFE0_0000;
            &&& at == 0x5080
            &&& s[at + i] == template[i]
        }),
{
    let a = overlay(b, 0x5080, template);
    crate::bytes::lemma_get_put64(a, 0x5000, (TLS_BASE + 0x80) as u64);
    assert(bytes64((TLS_BASE + 0x80) as u64).len() == 8);
}

/// The environment of a program starts with these variables, in this order.
pub proof fn the_environment_holds_these_variables()
    ensures
        default_environment() == seq![
            "COMSPEC=C:\\cmd.exe"@,
            "OS=nanokrnl"@,
            "PATH=C:\\"@,
            "PATHEXT=.EXE;.BAT;.CMD"@,
            "PROMPT=$P$G"@,
            "SystemRoot=C:\\fxcknmc"@,
        ],
{
}

/// Variables stand one behind the other, each with its NUL, and an empty one ends them.
pub proof fn variables_stand_one_behind_the_other(
    b: Seq<u8>,
    at: int,
    v: Seq<char>,
    rest: Seq<Seq<char>>,
)
    ensures
        with_vars(b, at, seq![v] + rest) == with_vars(
            set_text(b, at, v),
            at + 2 * v.len() + 2,
            rest,
        ),
        with_vars(b, at, Seq::empty()) == set16(b, at, 0),
{
    let all = seq![v] + rest;
    assert(all[0] == v);
    assert(all.skip(1) =~= rest);
}

} // verus!
