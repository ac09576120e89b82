//! Arguments that services take from user memory.
use crate::bytes::{bytes64, get16, get64, put64, u16le, u64le};
use crate::ldr::pe::is_utf8;
use crate::mm::user::{fetch, fetched, lemma_small_powers};
use crate::mm::vad::VadDatabase;
use crate::mm::virt::Mmu;
use vstd::prelude::*;
use vstd::utf8::valid_utf8;

verus! {

/// Bytes as UTF-16 units.
pub open spec fn units_of(b: Seq<u8>) -> Seq<u16> {
    Seq::new(b.len() / 2, |i: int| get16(b, 2 * i) as u16)
}

/// UTF-16 units as bytes.
pub open spec fn unit_bytes(u: Seq<u16>) -> Seq<u8> {
    Seq::new(
        2 * u.len(),
        |i: int| if i % 2 == 0 { (u[i / 2] % 0x100) as u8 } else { (u[i / 2] / 0x100) as u8 },
    )
}

/// Units survive the trip through memory.
pub proof fn units_round_trip(u: Seq<u16>)
    ensures
        units_of(unit_bytes(u)) == u,
{
    let b = unit_bytes(u);
    assert forall|i: int| 0 <= i < u.len() implies units_of(b)[i] == u[i] by {
        assert((2 * i) / 2 == i && (2 * i) % 2 == 0);
        assert((2 * i + 1) / 2 == i && (2 * i + 1) % 2 == 1);
        assert(b[2 * i] == u[i] % 0x100);
        assert(b[2 * i + 1] == u[i] / 0x100);
    }
    assert(units_of(b) =~= u);
}

/// Bytes as UTF-16 units.
pub fn to_units(b: &Vec<u8>) -> (u: Vec<u16>)
    ensures
        u@ == units_of(b@),
{
    let mut u: Vec<u16> = Vec::new();
    let len: usize = b.len();
    let n: usize = len / 2;
    let mut i: usize = 0;
    while i < n
        invariant
            i <= n,
            n == len / 2,
            len == b@.len(),
            u@.len() == i,
            forall|k: int| 0 <= k < i ==> #[trigger] u@[k] == units_of(b@)[k],
        decreases n - i,
    {
        let v: u16 = match u16le(b, (2 * i) as u64) {
            Some(v) => v,
            None => 0,
        };
        u.push(v);
        i = i + 1;
    }
    assert(u@ =~= units_of(b@));
    u
}

/// UTF-16 units as bytes.
pub fn to_bytes(u: &[u16]) -> (b: Vec<u8>)
    ensures
        b@ == unit_bytes(u@),
{
    let mut b: Vec<u8> = Vec::new();
    let mut i: usize = 0;
    while i < u.len()
        invariant
            i <= u@.len(),
            b@.len() == 2 * i,
            forall|k: int| 0 <= k < 2 * i ==> #[trigger] b@[k] == unit_bytes(u@)[k],
        decreases u@.len() - i,
    {
        b.push((u[i] % 0x100) as u8);
        b.push((u[i] / 0x100) as u8);
        i = i + 1;
    }
    assert(b@ =~= unit_bytes(u@));
    b
}

/// A user string of `count` units, if there are at most `cap` of them.
pub open spec fn user_units(mmu: &Mmu, db: &VadDatabase, ptr: u64, count: int, cap: int) -> Option<
    Seq<u16>,
> {
    if ptr == 0 || count == 0 || count > cap {
        None
    } else {
        match fetched(mmu, db, ptr, count * 2, 2) {
            Some(b) => Some(units_of(b)),
            None => None,
        }
    }
}

/// Copy a user string of `count` units; none when it is empty, longer than `cap`
/// or cannot be read.
pub fn read_user_u16(mmu: &Mmu, db: &VadDatabase, ptr: u64, count: u64, cap: usize) -> (r: Option<
    Vec<u16>,
>)
    requires
        db.wf(),
        cap <= 0x1000,
    ensures
        match r {
            Some(v) => user_units(mmu, db, ptr, count as int, cap as int) == Some(v@),
            None => user_units(mmu, db, ptr, count as int, cap as int) is None,
        },
        r matches Some(v) ==> v@.len() == count,
{
    if ptr == 0 || count == 0 || count > cap as u64 {
        return None;
    }
    proof {
        lemma_small_powers();
    }
    match fetch(mmu, db, ptr, count as usize * 2, 2) {
        Some(b) => Some(to_units(&b)),
        None => None,
    }
}

/// The 64-bit fields of a request.
pub open spec fn words_of(b: Seq<u8>) -> Seq<u64> {
    Seq::new(b.len() / 8, |i: int| get64(b, 8 * i) as u64)
}

/// A user request of `n` 64-bit fields.
pub open spec fn user_request(mmu: &Mmu, db: &VadDatabase, ptr: u64, n: int) -> Option<Seq<u64>> {
    if ptr == 0 {
        None
    } else {
        match fetched(mmu, db, ptr, n * 8, 8) {
            Some(b) => Some(words_of(b)),
            None => None,
        }
    }
}

/// Read a request of `n` 64-bit fields.
pub fn read_user_req(mmu: &Mmu, db: &VadDatabase, ptr: u64, n: usize) -> (r: Option<Vec<u64>>)
    requires
        db.wf(),
        n <= 0x100,
    ensures
        match r {
            Some(v) => user_request(mmu, db, ptr, n as int) == Some(v@),
            None => user_request(mmu, db, ptr, n as int) is None,
        },
        r matches Some(v) ==> v@.len() == n,
{
    if ptr == 0 {
        return None;
    }
    proof {
        lemma_small_powers();
    }
    let b: Vec<u8> = match fetch(mmu, db, ptr, n * 8, 8) {
        Some(b) => b,
        None => {
            return None;
        },
    };
    let mut v: Vec<u64> = Vec::new();
    let mut i: usize = 0;
    while i < n
        invariant
            i <= n,
            n <= 0x100,
            b@.len() == 8 * n,
            v@.len() == i,
            forall|k: int| 0 <= k < i ==> #[trigger] v@[k] == words_of(b@)[k],
        decreases n - i,
    {
        let w: u64 = match u64le(&b, 8 * i as u64) {
            Some(w) => w,
            None => 0,
        };
        v.push(w);
        i = i + 1;
    }
    assert(v@ =~= words_of(b@));
    Some(v)
}

/// The low bytes of some units.
pub open spec fn narrowed(u: Seq<u16>) -> Seq<u8> {
    Seq::new(u.len(), |i: int| (u[i] % 0x100) as u8)
}

/// Narrow units to their low bytes.
pub fn narrow(u: &[u16]) -> (b: Vec<u8>)
    ensures
        b@ == narrowed(u@),
{
    let mut b: Vec<u8> = Vec::new();
    let mut i: usize = 0;
    while i < u.len()
        invariant
            i <= u@.len(),
            b@.len() == i,
            forall|k: int| 0 <= k < i ==> #[trigger] b@[k] == narrowed(u@)[k],
        decreases u@.len() - i,
    {
        b.push((u[i] % 0x100) as u8);
        i = i + 1;
    }
    assert(b@ =~= narrowed(u@));
    b
}

/// Bytes as units.
pub open spec fn widened(b: Seq<u8>) -> Seq<u16> {
    Seq::new(b.len(), |i: int| b[i] as u16)
}

/// Widen bytes to units.
pub fn widen(b: &[u8]) -> (u: Vec<u16>)
    ensures
        u@ == widened(b@),
{
    let mut u: Vec<u16> = Vec::new();
    let mut i: usize = 0;
    while i < b.len()
        invariant
            i <= b@.len(),
            u@.len() == i,
            forall|k: int| 0 <= k < i ==> #[trigger] u@[k] == widened(b@)[k],
        decreases b@.len() - i,
    {
        u.push(b[i] as u16);
        i = i + 1;
    }
    assert(u@ =~= widened(b@));
    u
}

/// A user path of `count` units, narrowed; none when it is not text.
pub open spec fn user_path(mmu: &Mmu, db: &VadDatabase, ptr: u64, count: int, cap: int) -> Option<
    Seq<u8>,
> {
    match user_units(mmu, db, ptr, count, cap) {
        Some(u) => if valid_utf8(narrowed(u)) {
            Some(narrowed(u))
        } else {
            None
        },
        None => None,
    }
}

/// Read a user path.
pub fn read_user_path(mmu: &Mmu, db: &VadDatabase, ptr: u64, count: u64, cap: usize) -> (r: Option<
    Vec<u8>,
>)
    requires
        db.wf(),
        cap <= 0x1000,
    ensures
        match r {
            Some(v) => user_path(mmu, db, ptr, count as int, cap as int) == Some(v@),
            None => user_path(mmu, db, ptr, count as int, cap as int) is None,
        },
        r matches Some(v) ==> v@.len() == count,
{
    match read_user_u16(mmu, db, ptr, count, cap) {
        Some(u) => {
            let b: Vec<u8> = narrow(&u);
            if is_utf8(&b) {
                Some(b)
            } else {
                None
            }
        },
        None => None,
    }
}

/// A user name of `len` bytes, if there are at most `cap` of them and they are
/// text.
pub open spec fn user_name(mmu: &Mmu, db: &VadDatabase, ptr: u64, len: int, cap: int) -> Option<
    Seq<u8>,
> {
    if ptr == 0 || len == 0 || len > cap {
        None
    } else {
        match fetched(mmu, db, ptr, len, 1) {
            Some(b) => if valid_utf8(b) {
                Some(b)
            } else {
                None
            },
            None => None,
        }
    }
}

/// Read a short user name.
pub fn read_user_name(mmu: &Mmu, db: &VadDatabase, ptr: u64, len: u64, cap: usize) -> (r: Option<
    Vec<u8>,
>)
    requires
        db.wf(),
        cap <= 0x1000,
    ensures
        match r {
            Some(v) => user_name(mmu, db, ptr, len as int, cap as int) == Some(v@),
            None => user_name(mmu, db, ptr, len as int, cap as int) is None,
        },
{
    if ptr == 0 || len == 0 || len > cap as u64 {
        return None;
    }
    proof {
        lemma_small_powers();
    }
    match fetch(mmu, db, ptr, len as usize, 1) {
        Some(b) => if is_utf8(&b) {
            Some(b)
        } else {
            None
        },
        None => None,
    }
}

/// A 64-bit value as bytes.
pub(crate) fn word_bytes(v: u64) -> (b: Vec<u8>)
    ensures
        b@ == bytes64(v),
{
    let mut b: Vec<u8> = vec![0u8; 8];
    put64(&mut b, 0, v);
    assert(b@ =~= bytes64(v));
    b
}

/// Units are stored with the low byte first, two bytes each.
pub proof fn units_are_stored_low_byte_first(u: Seq<u16>, i: int)
    requires
        0 <= i < u.len(),
    ensures
        unit_bytes(u).len() == 2 * u.len(),
        unit_bytes(u)[2 * i] == u[i] % 0x100,
        unit_bytes(u)[2 * i + 1] == u[i] / 0x100,
{
}

/// Words are stored with the low byte first, eight bytes each.
pub proof fn words_are_stored_low_byte_first(b: Seq<u8>, i: int)
    requires
        0 <= i,
        8 * i + 8 <= b.len(),
    ensures
        words_of(b).len() == b.len() / 8,
        words_of(b)[i] == b[8 * i] + 0x100 * b[8 * i + 1] + 0x1_0000 * b[8 * i + 2] + 0x100_0000 * b[8
            * i + 3] + 0x1_0000_0000 * (b[8 * i + 4] + 0x100 * b[8 * i + 5] + 0x1_0000 * b[8 * i
            + 6] + 0x100_0000 * b[8 * i + 7]),
{
}

/// A byte survives being made a unit and back.
pub proof fn a_byte_survives_as_a_unit(b: Seq<u8>)
    ensures
        narrowed(widened(b)) == b,
        widened(b).len() == b.len(),
{
    assert(narrowed(widened(b)) =~= b);
}

/// What a caller passes is read only if it is there, is not empty and is not too long.
pub proof fn a_buffer_must_be_there_and_short(
    mmu: &Mmu,
    db: &VadDatabase,
    ptr: u64,
    count: int,
    cap: int,
)
    requires
        ptr == 0 || count == 0 || count > cap,
    ensures
        user_units(mmu, db, ptr, count, cap) is None,
        user_path(mmu, db, ptr, count, cap) is None,
        user_name(mmu, db, ptr, count, cap) is None,
        user_request(mmu, db, 0, count) is None,
{
}

/// Units take two bytes each of the caller's memory, words eight, and the bytes of a name
/// one.
pub proof fn a_buffer_is_read_whole(
    mmu: &Mmu,
    db: &VadDatabase,
    ptr: u64,
    count: int,
    cap: int,
    b: Seq<u8>,
)
    requires
        ptr != 0,
        0 < count <= cap,
    ensures
        fetched(mmu, db, ptr, 2 * count, 2) == Some(b) ==> user_units(mmu, db, ptr, count, cap)
            == Some(units_of(b)),
        fetched(mmu, db, ptr, 8 * count, 8) == Some(b) ==> user_request(mmu, db, ptr, count)
            == Some(words_of(b)),
        fetched(mmu, db, ptr, count, 1) == Some(b) && valid_utf8(b) ==> user_name(
            mmu,
            db,
            ptr,
            count,
            cap,
        ) == Some(b),
        fetched(mmu, db, ptr, count, 1) == Some(b) && !valid_utf8(b) ==> user_name(
            mmu,
            db,
            ptr,
            count,
            cap,
        ) is None,
{
}

} // verus!
