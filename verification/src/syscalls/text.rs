//! Services that hand text to the caller or take text from it.
use crate::ke::pcr::{current, current_of};
use crate::ke::scheduler::Dispatcher;
use crate::ke::thread::Kthread;
use crate::ldr::mui::{
    load_message, load_message_from, load_string, load_string_from, message_resource,
    registered_mui, string_resource, MuiTable,
};
use crate::ldr::pe::is_utf8;
use crate::mm::phys::PhysState;
use crate::mm::probe::{probe_for_read, probed};
use crate::mm::user::{lemma_small_powers, read_user, store, stored_in, user_bytes};
use crate::mm::vad::VadDatabase;
use crate::mm::virt::Mmu;
use crate::rtl::NtStatus;
use crate::syscalls::buffers::{to_bytes, unit_bytes};
use vstd::prelude::*;
use vstd::slice::slice_subrange;
use vstd::utf8::valid_utf8;

verus! {

/// Units of text that a service moves at once.
pub const MAX_TEXT_UNITS: usize = 512;

/// Units of text that fit in a buffer of `cch` units beside the NUL.
pub open spec fn room(cch: u64) -> int {
    if cch - 1 > MAX_TEXT_UNITS {
        MAX_TEXT_UNITS as int
    } else {
        cch - 1
    }
}

/// The resource module text comes from: the thread's own, or the one registered
/// for a module. One that cannot be read holds no text.
pub open spec fn text_module(th: Kthread, mmu: &Mmu, t: &MuiTable, base: u64) -> Option<Seq<u8>> {
    if th.mui_ptr != 0 && th.mui_len != 0 {
        user_bytes(mmu.ram(), mmu.root(), th.mui_ptr, th.mui_len as int)
    } else {
        registered_mui(t, base)
    }
}

/// Text in the caller's buffer, with its NUL: memory and the number of units, 0
/// when the buffer cannot be written or there is no text.
pub open spec fn text_stored(
    ram: Seq<u8>,
    root: u64,
    db: &VadDatabase,
    buf: u64,
    text: Option<Seq<u16>>,
) -> (Seq<u8>, u64) {
    match text {
        None => (ram, 0),
        Some(s) => if s.len() == 0 {
            (ram, 0)
        } else {
            let (r, ok) = stored_in(ram, root, db, buf, unit_bytes(s.push(0)), 2);
            (
                r,
                if ok {
                    s.len() as u64
                } else {
                    0
                },
            )
        },
    }
}

fn store_text(mmu: &mut Mmu, db: &VadDatabase, buf: u64, out: &Vec<u16>, n: usize) -> (r: u64)
    requires
        db.wf(),
        old(mmu).phys.wf(),
        0 < n <= out@.len(),
    ensures
        final(mmu).phys.wf(),
        final(mmu).same_registers(old(mmu)),
        ({
            let (ram, k) = text_stored(
                old(mmu).ram(),
                old(mmu).root(),
                db,
                buf,
                Some(out@.take(n as int)),
            );
            final(mmu).phys@ == (PhysState { ram, ..old(mmu).phys@ }) && r == k
        }),
{
    let mut text: Vec<u16> = Vec::new();
    text.extend_from_slice(slice_subrange(out.as_slice(), 0, n));
    text.push(0);
    assert(text@ =~= out@.take(n as int).push(0));
    let b: Vec<u8> = to_bytes(&text);
    proof {
        lemma_small_powers();
    }
    if store(mmu, db, buf, &b, 2) {
        n as u64
    } else {
        0
    }
}

fn zero_units(cch: u64) -> (out: Vec<u16>)
    requires
        cch > 0,
    ensures
        out@.len() == room(cch),
{
    let want: usize = if cch - 1 > MAX_TEXT_UNITS as u64 {
        MAX_TEXT_UNITS
    } else {
        (cch - 1) as usize
    };
    vec![0u16; want]
}

/// What a text service gives for a lookup: memory and its result.
pub open spec fn text_served(
    mmu: &Mmu,
    db: &VadDatabase,
    buf: u64,
    cch: u64,
    text: Option<Seq<u16>>,
) -> (Seq<u8>, u64) {
    if buf == 0 || cch == 0 {
        (mmu.ram(), 0)
    } else {
        text_stored(mmu.ram(), mmu.root(), db, buf, text)
    }
}

/// `LoadString`: copy a string resource, cut to what fits, into the caller's
/// buffer and return its length in units.
pub fn nt_load_mui_string(
    d: &Dispatcher,
    t: &MuiTable,
    mmu: &mut Mmu,
    db: &VadDatabase,
    base: u64,
    id: u64,
    buf: u64,
    cch: u64,
) -> (r: u64)
    requires
        d.wf(),
        db.wf(),
        old(mmu).phys.wf(),
    ensures
        final(mmu).phys.wf(),
        final(mmu).same_registers(old(mmu)),
        ({
            let text = match text_module(current_of(d@), old(mmu), t, base) {
                Some(m) => string_resource(m, (id % 0x1_0000_0000) as u32, room(cch)),
                None => None,
            };
            let (ram, n) = text_served(old(mmu), db, buf, cch, text);
            final(mmu).phys@ == (PhysState { ram, ..old(mmu).phys@ }) && r == n
        }),
{
    assert(mmu.phys@ =~= PhysState { ram: mmu.phys@.ram, ..mmu.phys@ });
    if buf == 0 || cch == 0 {
        return 0;
    }
    let th: Kthread = current(d);
    let mut out: Vec<u16> = zero_units(cch);
    let low: u32 = (id % 0x1_0000_0000) as u32;
    let n: usize = if th.mui_ptr != 0 && th.mui_len != 0 {
        match read_user(mmu, th.mui_ptr, th.mui_len as usize) {
            Some(m) => load_string_from(&m, low, &mut out),
            None => 0,
        }
    } else {
        load_string(t, base, low, &mut out)
    };
    if n == 0 {
        return 0;
    }
    proof {
        let m = text_module(th, old(mmu), t, base)->Some_0;
        let s = string_resource(m, low, room(cch))->Some_0;
        assert(out@.take(n as int) =~= s);
    }
    store_text(mmu, db, buf, &out, n)
}

/// `FormatMessage` on a module: copy a message, cut to what fits, into the
/// caller's buffer and return its length in units.
pub fn nt_load_message(
    d: &Dispatcher,
    t: &MuiTable,
    mmu: &mut Mmu,
    db: &VadDatabase,
    base: u64,
    id: u64,
    buf: u64,
    cch: u64,
) -> (r: u64)
    requires
        d.wf(),
        db.wf(),
        old(mmu).phys.wf(),
    ensures
        final(mmu).phys.wf(),
        final(mmu).same_registers(old(mmu)),
        ({
            let text = match text_module(current_of(d@), old(mmu), t, base) {
                Some(m) => message_resource(m, (id % 0x1_0000_0000) as u32, room(cch)),
                None => None,
            };
            let (ram, n) = text_served(old(mmu), db, buf, cch, text);
            final(mmu).phys@ == (PhysState { ram, ..old(mmu).phys@ }) && r == n
        }),
{
    assert(mmu.phys@ =~= PhysState { ram: mmu.phys@.ram, ..mmu.phys@ });
    if buf == 0 || cch == 0 {
        return 0;
    }
    let th: Kthread = current(d);
    let mut out: Vec<u16> = zero_units(cch);
    let low: u32 = (id % 0x1_0000_0000) as u32;
    let n: usize = if th.mui_ptr != 0 && th.mui_len != 0 {
        match read_user(mmu, th.mui_ptr, th.mui_len as usize) {
            Some(m) => load_message_from(&m, low, &mut out),
            None => 0,
        }
    } else {
        load_message(t, base, low, &mut out)
    };
    if n == 0 {
        return 0;
    }
    proof {
        let m = text_module(th, old(mmu), t, base)->Some_0;
        let s = message_resource(m, low, room(cch))->Some_0;
        assert(out@.take(n as int) =~= s);
    }
    store_text(mmu, db, buf, &out, n)
}

// ---------------------------------------------------------------------------
// The command line
// ---------------------------------------------------------------------------
/// The command line of a thread that has none, `app.exe`.
pub open spec fn default_command_line() -> Seq<u8> {
    seq![0x61u8, 0x70, 0x70, 0x2E, 0x65, 0x78, 0x65]
}

/// The command line of a thread, if it can be read.
pub open spec fn command_line(th: Kthread, mmu: &Mmu) -> Option<Seq<u8>> {
    if th.cmdline_ptr == 0 {
        Some(default_command_line())
    } else {
        user_bytes(mmu.ram(), mmu.root(), th.cmdline_ptr, th.cmdline_len as int)
    }
}

/// The first `max` bytes of a string.
pub open spec fn cut(s: Seq<u8>, max: u64) -> Seq<u8> {
    if s.len() > max {
        s.take(max as int)
    } else {
        s
    }
}

/// Storing the command line: memory, and the bytes stored, 0 for failure.
pub open spec fn command_line_stored(
    mmu: &Mmu,
    db: &VadDatabase,
    line: Option<Seq<u8>>,
    buf: u64,
    max: u64,
) -> (Seq<u8>, u64) {
    if buf == 0 || max == 0 || line is None {
        (mmu.ram(), 0)
    } else {
        let text = cut(line->Some_0, max);
        let (ram, ok) = stored_in(mmu.ram(), mmu.root(), db, buf, text, 1);
        (
            ram,
            if ok {
                text.len() as u64
            } else {
                0
            },
        )
    }
}

/// `GetCommandLine`: copy the thread's command line, cut to `max` bytes, into the
/// caller's buffer and return its length.
pub fn nt_get_command_line(d: &Dispatcher, mmu: &mut Mmu, db: &VadDatabase, buf: u64, max: u64) -> (r:
    u64)
    requires
        d.wf(),
        db.wf(),
        old(mmu).phys.wf(),
    ensures
        final(mmu).phys.wf(),
        final(mmu).same_registers(old(mmu)),
        ({
            let (ram, n) = command_line_stored(
                old(mmu),
                db,
                command_line(current_of(d@), old(mmu)),
                buf,
                max,
            );
            final(mmu).phys@ == (PhysState { ram, ..old(mmu).phys@ }) && r == n
        }),
{
    assert(mmu.phys@ =~= PhysState { ram: mmu.phys@.ram, ..mmu.phys@ });
    if buf == 0 || max == 0 {
        return 0;
    }
    let th: Kthread = current(d);
    let line: Vec<u8> = if th.cmdline_ptr == 0 {
        let v: Vec<u8> = vec![0x61u8, 0x70, 0x70, 0x2E, 0x65, 0x78, 0x65];
        assert(v@ =~= default_command_line());
        v
    } else {
        match read_user(mmu, th.cmdline_ptr, th.cmdline_len as usize) {
            Some(v) => v,
            None => {
                return 0;
            },
        }
    };
    let len: usize = line.len();
    let n: usize = if len as u64 > max {
        max as usize
    } else {
        len
    };
    let text = slice_subrange(line.as_slice(), 0, n);
    assert(text@ =~= cut(line@, max));
    proof {
        lemma_small_powers();
    }
    if store(mmu, db, buf, text, 1) {
        n as u64
    } else {
        0
    }
}

// ---------------------------------------------------------------------------
// Debug output
// ---------------------------------------------------------------------------
/// Longest text that is printed.
pub const MAX_DEBUG_BYTES: u64 = 4096;

/// What a request to print comes to: the text, if there is any, or the status it
/// fails with. Text that is too long, or no text at all, is dropped.
pub open spec fn debug_text(mmu: &Mmu, db: &VadDatabase, ptr: u64, len: u64) -> Result<
    Option<Seq<u8>>,
    NtStatus,
> {
    let probe = if len > MAX_DEBUG_BYTES {
        MAX_DEBUG_BYTES as int
    } else {
        len as int
    };
    if probed(mmu, db, ptr, probe, 1) is Err {
        Err(NtStatus(NtStatus::ACCESS_VIOLATION))
    } else if ptr == 0 || len >= MAX_DEBUG_BYTES {
        Ok(None)
    } else {
        match user_bytes(mmu.ram(), mmu.root(), ptr, len as int) {
            None => Err(NtStatus(NtStatus::ACCESS_VIOLATION)),
            Some(b) => if valid_utf8(b) {
                Ok(Some(b))
            } else {
                Ok(None)
            },
        }
    }
}

/// `DbgPrint` from user mode: the text to print.
pub fn dbg_write_string(mmu: &Mmu, db: &VadDatabase, ptr: u64, len: u64) -> (r: Result<
    Option<Vec<u8>>,
    NtStatus,
>)
    requires
        db.wf(),
    ensures
        match r {
            Ok(Some(v)) => debug_text(mmu, db, ptr, len) == Ok::<Option<Seq<u8>>, NtStatus>(
                Some(v@),
            ),
            Ok(None) => debug_text(mmu, db, ptr, len) == Ok::<Option<Seq<u8>>, NtStatus>(None),
            Err(e) => debug_text(mmu, db, ptr, len) == Err::<Option<Seq<u8>>, NtStatus>(e),
        },
{
    let probe: usize = if len > MAX_DEBUG_BYTES {
        4096
    } else {
        len as usize
    };
    proof {
        lemma_small_powers();
    }
    if probe_for_read(mmu, db, ptr, probe, 1).is_err() {
        return Err(NtStatus(NtStatus::ACCESS_VIOLATION));
    }
    if ptr == 0 || len >= MAX_DEBUG_BYTES {
        return Ok(None);
    }
    match read_user(mmu, ptr, len as usize) {
        None => Err(NtStatus(NtStatus::ACCESS_VIOLATION)),
        Some(b) => if is_utf8(&b) {
            Ok(Some(b))
        } else {
            Ok(None)
        },
    }
}

/// A buffer has room for one unit less than its size, for the NUL, and 512 units at most.
pub proof fn a_buffer_keeps_room_for_the_nul(cch: u64)
    requires
        cch > 0,
    ensures
        cch <= 513 ==> room(cch) == cch - 1,
        cch > 513 ==> room(cch) == 512,
{
}

/// Text is handed over with its NUL and counted without it; where it cannot be written, or
/// there is none, the count is zero.
pub proof fn text_is_counted_without_its_nul(
    ram: Seq<u8>,
    root: u64,
    db: &VadDatabase,
    buf: u64,
    s: Seq<u16>,
)
    requires
        0 < s.len() <= 512,
    ensures
        ({
            let (r, ok) = stored_in(ram, root, db, buf, unit_bytes(s + seq![0u16]), 2);
            &&& text_stored(ram, root, db, buf, Some(s)).0 == r
            &&& ok ==> text_stored(ram, root, db, buf, Some(s)).1 == s.len()
            &&& !ok ==> text_stored(ram, root, db, buf, Some(s)).1 == 0
        }),
        text_stored(ram, root, db, buf, None) == (ram, 0u64),
        text_stored(ram, root, db, buf, Some(Seq::empty())) == (ram, 0u64),
{
    assert(s + seq![0u16] =~= s.push(0));
}

/// Without a buffer, or with one of no size, no text is looked up or written.
pub proof fn no_buffer_gets_no_text(
    mmu: &Mmu,
    db: &VadDatabase,
    buf: u64,
    cch: u64,
    text: Option<Seq<u16>>,
)
    ensures
        text_served(mmu, db, 0, cch, text) == (mmu.ram(), 0u64),
        text_served(mmu, db, buf, 0, text) == (mmu.ram(), 0u64),
        buf != 0 && cch != 0 ==> text_served(mmu, db, buf, cch, text) == text_stored(
            mmu.ram(),
            mmu.root(),
            db,
            buf,
            text,
        ),
{
}

/// A thread that carries its own resources is served from them, any other from those that
/// are registered for the module.
pub proof fn a_threads_own_text_comes_first(th: Kthread, mmu: &Mmu, t: &MuiTable, base: u64)
    ensures
        th.mui_ptr != 0 && th.mui_len != 0 ==> text_module(th, mmu, t, base) == user_bytes(
            mmu.ram(),
            mmu.root(),
            th.mui_ptr,
            th.mui_len as int,
        ),
        th.mui_ptr == 0 || th.mui_len == 0 ==> text_module(th, mmu, t, base) == registered_mui(
            t,
            base,
        ),
{
}

/// A command line is handed over up to the size of the buffer, and a program that was given
/// none is called `app.exe`.
pub proof fn a_command_line_is_cut_to_the_buffer(
    mmu: &Mmu,
    db: &VadDatabase,
    th: Kthread,
    line: Seq<u8>,
    buf: u64,
    max: u64,
)
    ensures
        th.cmdline_ptr == 0 ==> command_line(th, mmu) == Some(
            seq![0x61u8, 0x70, 0x70, 0x2E, 0x65, 0x78, 0x65],
        ),
        th.cmdline_ptr != 0 ==> command_line(th, mmu) == user_bytes(
            mmu.ram(),
            mmu.root(),
            th.cmdline_ptr,
            th.cmdline_len as int,
        ),
        command_line_stored(mmu, db, Some(line), 0, max) == (mmu.ram(), 0u64),
        command_line_stored(mmu, db, Some(line), buf, 0) == (mmu.ram(), 0u64),
        command_line_stored(mmu, db, None, buf, max) == (mmu.ram(), 0u64),
        cut(line, max).len() <= max,
        cut(line, max) == line.take(cut(line, max).len() as int),
        cut(line, max).len() == max || cut(line, max) == line,
        buf != 0 && max != 0 ==> command_line_stored(mmu, db, Some(line), buf, max).0 == stored_in(
            mmu.ram(),
            mmu.root(),
            db,
            buf,
            cut(line, max),
            1,
        ).0,
{
    assert(line.take(line.len() as int) =~= line);
}

/// Debug text must be the caller's to read, must be shorter than 4096 bytes to be printed,
/// and is printed only if it is valid text.
pub proof fn debug_text_is_checked(mmu: &Mmu, db: &VadDatabase, ptr: u64, len: u64, b: Seq<u8>)
    ensures
        len <= 4096 && probed(mmu, db, ptr, len as int, 1) is Err ==> debug_text(mmu, db, ptr, len)
            == Err::<Option<Seq<u8>>, NtStatus>(NtStatus(0xC000_0005)),
        len >= 4096 && probed(mmu, db, ptr, 4096, 1) is Ok ==> debug_text(mmu, db, ptr, len) == Ok::<
            Option<Seq<u8>>,
            NtStatus,
        >(None),
        ptr != 0 && len < 4096 && probed(mmu, db, ptr, len as int, 1) is Ok && user_bytes(
            mmu.ram(),
            mmu.root(),
            ptr,
            len as int,
        ) == Some(b) ==> debug_text(mmu, db, ptr, len) == Ok::<Option<Seq<u8>>, NtStatus>(
            if valid_utf8(b) {
                Some(b)
            } else {
                None
            },
        ),
{
}

} // verus!
