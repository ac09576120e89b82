//! Registry services: arguments and replies.
//!
//! A request for a value is a block of five 64-bit fields in user memory. The
//! registry itself is asked by the caller, between the two halves of a service.
use crate::bytes::bytes32;
use crate::mm::phys::PhysState;
use crate::mm::user::{fetch, fetched, lemma_small_powers, store, stored_in};
use crate::mm::vad::VadDatabase;
use crate::mm::virt::Mmu;
use crate::syscalls::buffers::{
    read_user_req, read_user_u16, to_bytes, unit_bytes, user_request, user_units,
};
use vstd::prelude::*;
use vstd::slice::slice_subrange;

verus! {

/// Units of the longest key path or value name.
pub const MAX_KEY_UNITS: usize = 256;

/// Bytes of a value that a service moves.
pub const MAX_VALUE_BYTES: usize = 256;

/// The answer when there is no such key or value.
pub const REG_FAILED: u64 = 0xFFFF_FFFF_FFFF_FFFF;

/// A key path; one that cannot be read is empty and names the parent itself.
pub open spec fn key_path(mmu: &Mmu, db: &VadDatabase, ptr: u64, len: u64) -> Seq<u16> {
    match user_units(mmu, db, ptr, len as int, MAX_KEY_UNITS as int) {
        Some(u) => u,
        None => Seq::empty(),
    }
}

/// `NtOpenKey` and `NtCreateKey`: the path below the parent key.
pub fn nt_reg_key_path(mmu: &Mmu, db: &VadDatabase, ptr: u64, len: u64) -> (path: Vec<u16>)
    requires
        db.wf(),
    ensures
        path@ == key_path(mmu, db, ptr, len),
{
    match read_user_u16(mmu, db, ptr, len, MAX_KEY_UNITS) {
        Some(u) => u,
        None => {
            let none: Vec<u16> = Vec::new();
            assert(none@ =~= Seq::<u16>::empty());
            none
        },
    }
}

/// A query for a value.
#[derive(Debug)]
pub struct ValueQuery {
    pub name: Vec<u16>,
    pub out_type: u64,
    pub out_buf: u64,
    pub out_cap: u64,
}

/// The query that the block at `req` asks for: name address, name units, and
/// where type and data go.
pub open spec fn value_query(mmu: &Mmu, db: &VadDatabase, req: u64) -> Option<
    (Seq<u16>, u64, u64, u64),
> {
    match user_request(mmu, db, req, 5) {
        None => None,
        Some(w) => match user_units(mmu, db, w[0], w[1] as int, MAX_KEY_UNITS as int) {
            None => None,
            Some(name) => Some((name, w[2], w[3], w[4])),
        },
    }
}

/// `NtQueryValueKey`: the value to look up; without one the service returns
/// [`REG_FAILED`].
pub fn nt_reg_query_value(mmu: &Mmu, db: &VadDatabase, req: u64) -> (r: Option<ValueQuery>)
    requires
        db.wf(),
    ensures
        match r {
            Some(q) => value_query(mmu, db, req) == Some((q.name@, q.out_type, q.out_buf, q.out_cap)),
            None => value_query(mmu, db, req) is None,
        },
{
    match read_user_req(mmu, db, req, 5) {
        None => None,
        Some(w) => match read_user_u16(mmu, db, w[0], w[1], MAX_KEY_UNITS) {
            None => None,
            Some(name) => Some(
                ValueQuery { name, out_type: w[2], out_buf: w[3], out_cap: w[4] },
            ),
        },
    }
}

/// The smaller of two numbers.
pub open spec fn least(a: int, b: int) -> int {
    if a <= b {
        a
    } else {
        b
    }
}

/// What the reply to a query writes: the type, then as much of the data as fits,
/// each only where the caller asked for it and the probe allows it.
pub open spec fn value_replied(
    ram: Seq<u8>,
    root: u64,
    db: &VadDatabase,
    out_type: u64,
    out_buf: u64,
    out_cap: u64,
    n: i64,
    vtype: u32,
    data: Seq<u8>,
) -> Seq<u8> {
    let r1 = if out_type != 0 {
        stored_in(ram, root, db, out_type, bytes32(vtype), 4).0
    } else {
        ram
    };
    let copy = least(least(n as int, out_cap as int), MAX_VALUE_BYTES as int);
    if out_buf != 0 && copy > 0 {
        stored_in(r1, root, db, out_buf, data.take(copy), 1).0
    } else {
        r1
    }
}

/// `NtQueryValueKey` after the lookup gave `n` bytes of a type, the first of them
/// in `data`, or a negative number: reply and return the length.
pub fn query_value_reply(
    mmu: &mut Mmu,
    db: &VadDatabase,
    q: &ValueQuery,
    n: i64,
    vtype: u32,
    data: &[u8],
) -> (r: u64)
    requires
        db.wf(),
        old(mmu).phys.wf(),
        data@.len() == MAX_VALUE_BYTES,
    ensures
        final(mmu).phys.wf(),
        final(mmu).same_registers(old(mmu)),
        n < 0 ==> r == REG_FAILED && final(mmu).phys@ == old(mmu).phys@,
        n >= 0 ==> r == n && final(mmu).phys@ == (PhysState {
            ram: value_replied(
                old(mmu).ram(),
                old(mmu).root(),
                db,
                q.out_type,
                q.out_buf,
                q.out_cap,
                n,
                vtype,
                data@,
            ),
            ..old(mmu).phys@
        }),
{
    if n < 0 {
        return REG_FAILED;
    }
    proof {
        lemma_small_powers();
    }
    assert(mmu.phys@ =~= PhysState { ram: mmu.phys@.ram, ..mmu.phys@ });
    if q.out_type != 0 {
        let mut t: Vec<u8> = vec![0u8; 4];
        crate::bytes::put32(&mut t, 0, vtype);
        assert(t@ =~= bytes32(vtype));
        let _typed: bool = store(mmu, db, q.out_type, &t, 4);
    }
    let len: u64 = n as u64;
    let fits: u64 = if len <= q.out_cap {
        len
    } else {
        q.out_cap
    };
    let copy: usize = if fits <= MAX_VALUE_BYTES as u64 {
        fits as usize
    } else {
        MAX_VALUE_BYTES
    };
    if q.out_buf != 0 && copy > 0 {
        let head = slice_subrange(data, 0, copy);
        assert(head@ =~= data@.take(copy as int));
        let _copied: bool = store(mmu, db, q.out_buf, head, 1);
    }
    len
}

/// A value to set.
#[derive(Debug)]
pub struct ValueChange {
    pub name: Vec<u16>,
    pub vtype: u32,
    pub data: Vec<u8>,
}

/// The change that the block at `req` asks for: name address, name units, type,
/// data address and data bytes.
pub open spec fn value_change(mmu: &Mmu, db: &VadDatabase, req: u64) -> Option<
    (Seq<u16>, u32, Seq<u8>),
> {
    match user_request(mmu, db, req, 5) {
        None => None,
        Some(w) => match user_units(mmu, db, w[0], w[1] as int, MAX_KEY_UNITS as int) {
            None => None,
            Some(name) => {
                let n = least(w[4] as int, MAX_VALUE_BYTES as int);
                let vtype = (w[2] % 0x1_0000_0000) as u32;
                if n == 0 {
                    Some((name, vtype, Seq::empty()))
                } else {
                    match fetched(mmu, db, w[3], n, 1) {
                        Some(data) => Some((name, vtype, data)),
                        None => None,
                    }
                }
            },
        },
    }
}

/// `NtSetValueKey`: the value to set; without one the service returns
/// [`REG_FAILED`].
pub fn nt_reg_set_value(mmu: &Mmu, db: &VadDatabase, req: u64) -> (r: Option<ValueChange>)
    requires
        db.wf(),
    ensures
        match r {
            Some(c) => value_change(mmu, db, req) == Some((c.name@, c.vtype, c.data@)),
            None => value_change(mmu, db, req) is None,
        },
{
    let w: Vec<u64> = match read_user_req(mmu, db, req, 5) {
        None => {
            return None;
        },
        Some(w) => w,
    };
    let name: Vec<u16> = match read_user_u16(mmu, db, w[0], w[1], MAX_KEY_UNITS) {
        None => {
            return None;
        },
        Some(name) => name,
    };
    let vtype: u32 = (w[2] % 0x1_0000_0000) as u32;
    let n: usize = if w[4] <= MAX_VALUE_BYTES as u64 {
        w[4] as usize
    } else {
        MAX_VALUE_BYTES
    };
    if n == 0 {
        let data: Vec<u8> = Vec::new();
        assert(data@ =~= Seq::<u8>::empty());
        return Some(ValueChange { name, vtype, data });
    }
    proof {
        lemma_small_powers();
    }
    match fetch(mmu, db, w[3], n, 1) {
        Some(data) => Some(ValueChange { name, vtype, data }),
        None => None,
    }
}

/// `NtSetValueKey` after the change was tried.
pub fn set_value_reply(done: bool) -> (r: u64)
    ensures
        r == if done {
            0
        } else {
            REG_FAILED
        },
{
    if done {
        0
    } else {
        REG_FAILED
    }
}

/// `NtEnumerateKey`: the units of a subkey name to ask for.
pub fn nt_reg_enum_key(out_cap: u64) -> (cap: usize)
    ensures
        cap == least(out_cap as int, MAX_KEY_UNITS as int),
{
    if out_cap <= MAX_KEY_UNITS as u64 {
        out_cap as usize
    } else {
        MAX_KEY_UNITS
    }
}

/// What the reply to an enumeration writes.
pub open spec fn name_replied(
    ram: Seq<u8>,
    root: u64,
    db: &VadDatabase,
    out_buf: u64,
    n: i64,
    name: Seq<u16>,
) -> Seq<u8> {
    let copy = least(n as int, name.len() as int);
    if out_buf != 0 && copy > 0 {
        stored_in(ram, root, db, out_buf, unit_bytes(name.take(copy)), 2).0
    } else {
        ram
    }
}

/// `NtEnumerateKey` after the lookup gave a name of `n` units, the first of them
/// in `name`, or a negative number past the end.
pub fn enum_key_reply(mmu: &mut Mmu, db: &VadDatabase, out_buf: u64, n: i64, name: &[u16]) -> (r:
    u64)
    requires
        db.wf(),
        old(mmu).phys.wf(),
        name@.len() <= MAX_KEY_UNITS,
    ensures
        final(mmu).phys.wf(),
        final(mmu).same_registers(old(mmu)),
        n < 0 ==> r == REG_FAILED && final(mmu).phys@ == old(mmu).phys@,
        n >= 0 ==> r == n && final(mmu).phys@ == (PhysState {
            ram: name_replied(old(mmu).ram(), old(mmu).root(), db, out_buf, n, name@),
            ..old(mmu).phys@
        }),
{
    if n < 0 {
        return REG_FAILED;
    }
    proof {
        lemma_small_powers();
    }
    assert(mmu.phys@ =~= PhysState { ram: mmu.phys@.ram, ..mmu.phys@ });
    let len: u64 = n as u64;
    let copy: usize = if len <= name.len() as u64 {
        len as usize
    } else {
        name.len()
    };
    if out_buf != 0 && copy > 0 {
        let head = slice_subrange(name, 0, copy);
        assert(head@ =~= name@.take(copy as int));
        let b: Vec<u8> = to_bytes(head);
        let _copied: bool = store(mmu, db, out_buf, &b, 2);
    }
    len
}

/// A key path is read from the caller in up to 256 units; where that fails the path is empty.
pub proof fn a_key_path_is_read_or_empty(mmu: &Mmu, db: &VadDatabase, ptr: u64, len: u64)
    ensures
        ptr == 0 || len == 0 || len > 256 ==> key_path(mmu, db, ptr, len).len() == 0,
        user_units(mmu, db, ptr, len as int, 256) is Some ==> key_path(mmu, db, ptr, len)
            == user_units(mmu, db, ptr, len as int, 256)->0,
{
}

/// A query is five words: the name and its length, where the type goes, where the data goes
/// and how much of it.
pub proof fn a_query_is_five_words(mmu: &Mmu, db: &VadDatabase, req: u64, w: Seq<u64>)
    requires
        user_request(mmu, db, req, 5) == Some(w),
        user_units(mmu, db, w[0], w[1] as int, 256) is Some,
    ensures
        value_query(mmu, db, req) == Some(
            (user_units(mmu, db, w[0], w[1] as int, 256)->0, w[2], w[3], w[4]),
        ),
{
}

/// A change is five words: the name and its length, the type, where the data is and how much
/// of it, of which 256 bytes are taken at most.
pub proof fn a_change_is_five_words(mmu: &Mmu, db: &VadDatabase, req: u64, w: Seq<u64>)
    requires
        user_request(mmu, db, req, 5) == Some(w),
        user_units(mmu, db, w[0], w[1] as int, 256) is Some,
    ensures
        w[4] == 0 ==> value_change(mmu, db, req) == Some(
            (
                user_units(mmu, db, w[0], w[1] as int, 256)->0,
                (w[2] % 0x1_0000_0000) as u32,
                Seq::<u8>::empty(),
            ),
        ),
        0 < w[4] <= 256 ==> match fetched(mmu, db, w[3], w[4] as int, 1) {
            Some(data) => value_change(mmu, db, req) == Some(
                (
                    user_units(mmu, db, w[0], w[1] as int, 256)->0,
                    (w[2] % 0x1_0000_0000) as u32,
                    data,
                ),
            ),
            None => value_change(mmu, db, req) is None,
        },
        w[4] > 256 ==> match fetched(mmu, db, w[3], 256, 1) {
            Some(data) => value_change(mmu, db, req) matches Some(c) && c.2 == data,
            None => value_change(mmu, db, req) is None,
        },
{
}

/// A request whose words or whose name cannot be read is no request.
pub proof fn an_unreadable_request_is_refused(mmu: &Mmu, db: &VadDatabase, req: u64)
    requires
        user_request(mmu, db, req, 5) matches Some(w) ==> user_units(
            mmu,
            db,
            w[0],
            w[1] as int,
            256,
        ) is None,
    ensures
        value_query(mmu, db, req) is None,
        value_change(mmu, db, req) is None,
{
}

/// The answer to a query is its type, where one is asked for, and the start of the data: as
/// much of it as there is, as the buffer takes, and as a value can hold.
pub proof fn an_answer_fits_its_buffer(
    ram: Seq<u8>,
    root: u64,
    db: &VadDatabase,
    out_type: u64,
    out_buf: u64,
    out_cap: u64,
    n: i64,
    vtype: u32,
    data: Seq<u8>,
)
    requires
        n >= 0,
        data.len() == 256,
    ensures
        ({
            let typed = if out_type != 0 {
                stored_in(ram, root, db, out_type, bytes32(vtype), 4).0
            } else {
                ram
            };
            let after = value_replied(ram, root, db, out_type, out_buf, out_cap, n, vtype, data);
            &&& out_buf == 0 || out_cap == 0 || n == 0 ==> after == typed
            &&& out_buf != 0 && 0 < n <= out_cap && n <= 256 ==> after == stored_in(
                typed,
                root,
                db,
                out_buf,
                data.take(n as int),
                1,
            ).0
            &&& out_buf != 0 && 0 < out_cap <= n && out_cap <= 256 ==> after == stored_in(
                typed,
                root,
                db,
                out_buf,
                data.take(out_cap as int),
                1,
            ).0
            &&& out_buf != 0 && n > 256 && out_cap > 256 ==> after == stored_in(
                typed,
                root,
                db,
                out_buf,
                data,
                1,
            ).0
        }),
{
    assert(data.take(256) =~= data);
}

/// A key name is handed over up to the room there is for it.
pub proof fn a_key_name_is_handed_over(
    ram: Seq<u8>,
    root: u64,
    db: &VadDatabase,
    out_buf: u64,
    n: i64,
    name: Seq<u16>,
)
    ensures
        out_buf == 0 || n <= 0 ==> name_replied(ram, root, db, out_buf, n, name) == ram,
        out_buf != 0 && 0 < n <= name.len() ==> name_replied(ram, root, db, out_buf, n, name)
            == stored_in(ram, root, db, out_buf, unit_bytes(name.take(n as int)), 2).0,
        out_buf != 0 && 0 < name.len() <= n ==> name_replied(ram, root, db, out_buf, n, name)
            == stored_in(ram, root, db, out_buf, unit_bytes(name), 2).0,
{
    assert(name.take(name.len() as int) =~= name);
}

} // verus!
