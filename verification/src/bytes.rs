//! Little-endian fields in byte buffers.
//!
//! Everything that parses or builds a binary structure (PE images, resource
//! tables, debugger packets, trap contexts, process blocks) goes through the
//! readers and writers here.
use vstd::prelude::*;

verus! {

/// The 16-bit little-endian value at `o`.
pub open spec fn get16(s: Seq<u8>, o: int) -> int {
    s[o] + 0x100 * s[o + 1]
}

/// The 32-bit little-endian value at `o`.
pub open spec fn get32(s: Seq<u8>, o: int) -> int {
    get16(s, o) + 0x1_0000 * get16(s, o + 2)
}

/// The 64-bit little-endian value at `o`.
pub open spec fn get64(s: Seq<u8>, o: int) -> int {
    get32(s, o) + 0x1_0000_0000 * get32(s, o + 4)
}

/// The bounds-checked reading of `n` bytes at `o`: present iff they all exist.
pub open spec fn in_bounds(s: Seq<u8>, o: int, n: int) -> bool {
    0 <= o && o + n <= s.len()
}

/// What [`u16le`] returns.
pub open spec fn read16(s: Seq<u8>, o: int) -> Option<u16> {
    if in_bounds(s, o, 2) {
        Some(get16(s, o) as u16)
    } else {
        None
    }
}

/// What [`u32le`] returns.
pub open spec fn read32(s: Seq<u8>, o: int) -> Option<u32> {
    if in_bounds(s, o, 4) {
        Some(get32(s, o) as u32)
    } else {
        None
    }
}

/// What [`u64le`] returns.
pub open spec fn read64(s: Seq<u8>, o: int) -> Option<u64> {
    if in_bounds(s, o, 8) {
        Some(get64(s, o) as u64)
    } else {
        None
    }
}

/// The little-endian bytes of a 16-bit value.
pub open spec fn bytes16(v: u16) -> Seq<u8> {
    seq![(v % 0x100) as u8, (v / 0x100) as u8]
}

/// The little-endian bytes of a 32-bit value.
pub open spec fn bytes32(v: u32) -> Seq<u8> {
    bytes16((v % 0x1_0000) as u16) + bytes16((v / 0x1_0000) as u16)
}

/// The little-endian bytes of a 64-bit value.
pub open spec fn bytes64(v: u64) -> Seq<u8> {
    bytes32((v % 0x1_0000_0000) as u32) + bytes32((v / 0x1_0000_0000) as u32)
}

/// `s` with `data` written over it from offset `o` on.
pub open spec fn overlay(s: Seq<u8>, o: int, data: Seq<u8>) -> Seq<u8> {
    Seq::new(s.len(), |i: int| if o <= i < o + data.len() { data[i - o] } else { s[i] })
}

/// Bounds-checked 16-bit read.
pub fn u16le(b: &[u8], o: u64) -> (r: Option<u16>)
    ensures
        r == read16(b@, o as int),
{
    if b.len() < 2 || o > (b.len() - 2) as u64 {
        return None;
    }
    let i: usize = o as usize;
    Some(b[i] as u16 + b[i + 1] as u16 * 0x100)
}

/// Bounds-checked 32-bit read.
pub fn u32le(b: &[u8], o: u64) -> (r: Option<u32>)
    ensures
        r == read32(b@, o as int),
{
    if b.len() < 4 || o > (b.len() - 4) as u64 {
        return None;
    }
    let i: usize = o as usize;
    Some(
        b[i] as u32 + b[i + 1] as u32 * 0x100 + b[i + 2] as u32 * 0x1_0000 + b[i + 3] as u32
            * 0x100_0000,
    )
}

/// Bounds-checked 64-bit read.
pub fn u64le(b: &[u8], o: u64) -> (r: Option<u64>)
    ensures
        r == read64(b@, o as int),
{
    if b.len() < 8 || o > (b.len() - 8) as u64 {
        return None;
    }
    let lo: u32 = match u32le(b, o) {
        Some(v) => v,
        None => 0,
    };
    let hi: u32 = match u32le(b, o + 4) {
        Some(v) => v,
        None => 0,
    };
    Some(lo as u64 + hi as u64 * 0x1_0000_0000)
}

/// Write `data` over `buf` at `o`.
pub fn put_bytes(buf: &mut Vec<u8>, o: usize, data: &[u8])
    requires
        o + data@.len() <= old(buf).len(),
    ensures
        final(buf)@ == overlay(old(buf)@, o as int, data@),
{
    let ghost before = buf@;
    let mut i: usize = 0;
    while i < data.len()
        invariant
            i <= data@.len(),
            before.len() == buf@.len(),
            o + data@.len() <= buf.len(),
            buf@ == overlay(before, o as int, data@.take(i as int)),
        decreases data@.len() - i,
    {
        buf.set(o + i, data[i]);
        i = i + 1;
        assert(buf@ =~= overlay(before, o as int, data@.take(i as int)));
    }
    assert(data@.take(i as int) =~= data@);
}

/// Write a 16-bit little-endian field.
pub fn put16(buf: &mut Vec<u8>, o: usize, v: u16)
    requires
        o + 2 <= old(buf).len(),
    ensures
        final(buf)@ == overlay(old(buf)@, o as int, bytes16(v)),
{
    let ghost before = buf@;
    buf.set(o, (v % 0x100) as u8);
    buf.set(o + 1, (v / 0x100) as u8);
    assert(buf@ =~= overlay(before, o as int, bytes16(v)));
}

/// Write a 32-bit little-endian field.
pub fn put32(buf: &mut Vec<u8>, o: usize, v: u32)
    requires
        o + 4 <= old(buf).len(),
    ensures
        final(buf)@ == overlay(old(buf)@, o as int, bytes32(v)),
{
    let ghost before = buf@;
    put16(buf, o, (v % 0x1_0000) as u16);
    put16(buf, o + 2, (v / 0x1_0000) as u16);
    assert(buf@ =~= overlay(before, o as int, bytes32(v)));
}

/// Write a 64-bit little-endian field.
pub fn put64(buf: &mut Vec<u8>, o: usize, v: u64)
    requires
        o + 8 <= old(buf).len(),
    ensures
        final(buf)@ == overlay(old(buf)@, o as int, bytes64(v)),
{
    let ghost before = buf@;
    put32(buf, o, (v % 0x1_0000_0000) as u32);
    put32(buf, o + 4, (v / 0x1_0000_0000) as u32);
    assert(buf@ =~= overlay(before, o as int, bytes64(v)));
}

/// The bytes of a 16-bit value read as that value.
pub proof fn lemma_bytes16(v: u16)
    ensures
        bytes16(v).len() == 2,
        get16(bytes16(v), 0) == v,
{
}

/// The bytes of a 32-bit value read as that value.
pub proof fn lemma_bytes32(v: u32)
    ensures
        bytes32(v).len() == 4,
        get32(bytes32(v), 0) == v,
{
    let lo = (v % 0x1_0000) as u16;
    let hi = (v / 0x1_0000) as u16;
    lemma_bytes16(lo);
    lemma_bytes16(hi);
    let b = bytes32(v);
    assert(b[0] == bytes16(lo)[0] && b[1] == bytes16(lo)[1]);
    assert(b[2] == bytes16(hi)[0] && b[3] == bytes16(hi)[1]);
    assert(v == lo + 0x1_0000 * hi);
}

/// The bytes of a 64-bit value read as that value.
pub proof fn lemma_bytes64(v: u64)
    ensures
        bytes64(v).len() == 8,
        get64(bytes64(v), 0) == v,
{
    let lo = (v % 0x1_0000_0000) as u32;
    let hi = (v / 0x1_0000_0000) as u32;
    lemma_bytes32(lo);
    lemma_bytes32(hi);
    assert(v == lo + 0x1_0000_0000 * hi);
    lemma_get32_in(bytes64(v), 0, bytes32(lo));
    lemma_get32_in(bytes64(v), 4, bytes32(hi));
}

/// A 16-bit read sees only its own two bytes.
pub proof fn lemma_get16_in(s: Seq<u8>, o: int, w: Seq<u8>)
    requires
        in_bounds(s, o, 2),
        w.len() == 2,
        forall|k: int| 0 <= k < 2 ==> s[o + k] == #[trigger] w[k],
    ensures
        get16(s, o) == get16(w, 0),
{
    assert(s[o + 0] == w[0] && s[o + 1] == w[1]);
}

/// A 32-bit read sees only its own four bytes.
pub proof fn lemma_get32_in(s: Seq<u8>, o: int, w: Seq<u8>)
    requires
        in_bounds(s, o, 4),
        w.len() == 4,
        forall|k: int| 0 <= k < 4 ==> s[o + k] == #[trigger] w[k],
    ensures
        get32(s, o) == get32(w, 0),
{
    assert(s[o + 0] == w[0] && s[o + 1] == w[1] && s[o + 2] == w[2] && s[o + 3] == w[3]);
}

/// A 64-bit read sees only its own eight bytes.
pub proof fn lemma_get64_in(s: Seq<u8>, o: int, w: Seq<u8>)
    requires
        in_bounds(s, o, 8),
        w.len() == 8,
        forall|k: int| 0 <= k < 8 ==> s[o + k] == #[trigger] w[k],
    ensures
        get64(s, o) == get64(w, 0),
{
    assert(s[o + 0] == w[0] && s[o + 1] == w[1] && s[o + 2] == w[2] && s[o + 3] == w[3]);
    assert(s[o + 4] == w[4] && s[o + 5] == w[5] && s[o + 6] == w[6] && s[o + 7] == w[7]);
}

/// A 32-bit field reads back what was written.
pub proof fn lemma_get_put32(s: Seq<u8>, o: int, v: u32)
    requires
        in_bounds(s, o, 4),
    ensures
        get32(overlay(s, o, bytes32(v)), o) == v,
{
    lemma_bytes32(v);
    lemma_get32_in(overlay(s, o, bytes32(v)), o, bytes32(v));
}

/// A 64-bit field reads back what was written.
pub proof fn lemma_get_put64(s: Seq<u8>, o: int, v: u64)
    requires
        in_bounds(s, o, 8),
    ensures
        get64(overlay(s, o, bytes64(v)), o) == v,
{
    lemma_bytes64(v);
    lemma_get64_in(overlay(s, o, bytes64(v)), o, bytes64(v));
}

} // verus!
