//! What a failed attempt to give a process private pages leaves behind: nothing.
use crate::bytes::{lemma_bytes64, overlay};
use crate::mm::laws::{frame, memory_sound, privatize_spares_shared_memory};
use crate::mm::phys::{alloc_page, free_page, next_free, next_free_is_free, PhysState};
use crate::mm::space::{
    ensure_pdpt, in_pages, own_tables, privatize_from, privatize_pages, privatize_range,
    privatize_tried, put_back, released, split_entries, undone, PrivState, MAX_PRIV_FRAMES,
    MAX_PRIV_TABLES,
};
use crate::mm::vad::release;
use crate::mm::virt::{
    entry, large, level_index, present, set_entry, table_entries, with_table, ADDR_MASK, ENTRY_NX,
    ENTRY_PRESENT, ENTRY_RW, ENTRY_USER,
};
use vstd::prelude::*;

verus! {

/// `pa` is the address of a tracked frame that is free.
pub open spec fn fresh_in(st: PhysState, pa: u64) -> bool {
    pa % 4096 == 0 && frame(pa) < st.bits.len() && !st.bits[frame(pa)]
}

/// Frame `f` stands in a list behind its first `n` addresses.
pub open spec fn newly_listed(list: Seq<u64>, n: int, f: int) -> bool {
    exists|k: int| n <= k < list.len() && frame(#[trigger] list[k]) == f
}

/// Every address of a list behind its first `n` is that of a free frame.
pub open spec fn fresh_from(st: PhysState, list: Seq<u64>, n: int) -> bool {
    forall|k: int| n <= k < list.len() ==> fresh_in(st, #[trigger] list[k])
}

/// `b` begins with `a`.
pub open spec fn begins(b: Seq<u64>, a: Seq<u64>) -> bool {
    a.len() <= b.len() && forall|k: int| 0 <= k < a.len() ==> #[trigger] b[k] == a[k]
}

/// From `st` and `rec` to `s` and `r` frames were taken, and each of them is recorded.
pub open spec fn took(st: PhysState, rec: PrivState, s: PhysState, r: PrivState) -> bool {
    &&& memory_sound(s)
    &&& s.ram.len() == st.ram.len()
    &&& s.bits.len() == st.bits.len()
    &&& begins(r.tables, rec.tables)
    &&& begins(r.frames, rec.frames)
    &&& fresh_from(st, r.tables, rec.tables.len() as int)
    &&& fresh_from(st, r.frames, rec.frames.len() as int)
    &&& forall|f: int|
        0 <= f < st.bits.len() && st.bits[f] ==> #[trigger] s.bits[f]
    &&& forall|f: int|
        0 <= f < st.bits.len() && #[trigger] s.bits[f] && !st.bits[f] ==> newly_listed(
            r.tables,
            rec.tables.len() as int,
            f,
        ) || newly_listed(r.frames, rec.frames.len() as int, f)
}

proof fn lemma_listed_more(a: Seq<u64>, b: Seq<u64>, n: int, m: int, f: int)
    requires
        begins(b, a),
        0 <= n <= m,
        newly_listed(a, n, f) || newly_listed(b, m, f),
    ensures
        newly_listed(b, n, f),
{
    if newly_listed(a, n, f) {
        let k = choose|k: int| n <= k < a.len() && frame(#[trigger] a[k]) == f;
        assert(b[k] == a[k]);
    }
}

proof fn lemma_took_twice(
    st: PhysState,
    rec: PrivState,
    s1: PhysState,
    r1: PrivState,
    s2: PhysState,
    r2: PrivState,
)
    requires
        took(st, rec, s1, r1),
        took(s1, r1, s2, r2),
    ensures
        took(st, rec, s2, r2),
{
    let n = rec.tables.len() as int;
    let m = rec.frames.len() as int;
    assert forall|k: int| n <= k < r2.tables.len() implies fresh_in(st, #[trigger] r2.tables[k]) by {
        if k < r1.tables.len() {
            assert(r2.tables[k] == r1.tables[k]);
        }
    }
    assert forall|k: int| m <= k < r2.frames.len() implies fresh_in(st, #[trigger] r2.frames[k]) by {
        if k < r1.frames.len() {
            assert(r2.frames[k] == r1.frames[k]);
        }
    }
    assert forall|k: int| 0 <= k < n implies #[trigger] r2.tables[k] == rec.tables[k] by {
        assert(r2.tables[k] == r1.tables[k]);
    }
    assert forall|k: int| 0 <= k < m implies #[trigger] r2.frames[k] == rec.frames[k] by {
        assert(r2.frames[k] == r1.frames[k]);
    }
    assert forall|f: int| 0 <= f < st.bits.len() && st.bits[f] implies #[trigger] s2.bits[f] by {
        assert(s1.bits[f]);
    }
    assert forall|f: int|
        0 <= f < st.bits.len() && #[trigger] s2.bits[f] && !st.bits[f] implies newly_listed(
        r2.tables,
        n,
        f,
    ) || newly_listed(r2.frames, m, f) by {
        if s1.bits[f] {
            if newly_listed(r1.tables, n, f) {
                lemma_listed_more(r1.tables, r2.tables, n, n, f);
            } else {
                lemma_listed_more(r1.frames, r2.frames, m, m, f);
            }
        } else if newly_listed(r2.tables, r1.tables.len() as int, f) {
            lemma_listed_more(r1.tables, r2.tables, n, r1.tables.len() as int, f);
        } else {
            lemma_listed_more(r1.frames, r2.frames, m, r1.frames.len() as int, f);
        }
    }
}

/// Taking one frame and recording it as a table.
proof fn lemma_took_table(st: PhysState, rec: PrivState, s: PhysState, r: PrivState, f: int)
    requires
        memory_sound(st),
        0 <= f < st.bits.len(),
        !st.bits[f],
        s.ram.len() == st.ram.len(),
        s.bits == st.bits.update(f, true),
        s.hint == f + 1,
        r.tables == rec.tables.push((f * 4096) as u64),
        r.frames == rec.frames,
    ensures
        took(st, rec, s, r),
{
    let t = (f * 4096) as u64;
    assert(t == f * 4096);
    assert(r.tables[rec.tables.len() as int] == t);
    assert(newly_listed(r.tables, rec.tables.len() as int, f));
}

/// Taking one frame and recording it as a private page.
proof fn lemma_took_frame(st: PhysState, rec: PrivState, s: PhysState, r: PrivState, f: int)
    requires
        memory_sound(st),
        0 <= f < st.bits.len(),
        !st.bits[f],
        s.ram.len() == st.ram.len(),
        s.bits == st.bits.update(f, true),
        s.hint == f + 1,
        r.tables == rec.tables,
        r.frames == rec.frames.push((f * 4096) as u64),
    ensures
        took(st, rec, s, r),
{
    let t = (f * 4096) as u64;
    assert(t == f * 4096);
    assert(r.frames[rec.frames.len() as int] == t);
    assert(newly_listed(r.frames, rec.frames.len() as int, f));
}

/// Taking one frame and giving it back at once.
proof fn lemma_took_none(st: PhysState, rec: PrivState, s: PhysState, f: int)
    requires
        memory_sound(st),
        0 <= f < st.bits.len(),
        !st.bits[f],
        s.ram.len() == st.ram.len(),
        s.bits == st.bits.update(f, true),
        s.hint == f + 1,
    ensures
        took(st, rec, free_page(s, (f * 4096) as u64), rec),
{
    let t = (f * 4096) as u64;
    assert(t == f * 4096);
    assert(free_page(s, t).bits =~= st.bits);
}

proof fn lemma_from_took(
    st: PhysState,
    rec: PrivState,
    parent: u64,
    level: int,
    va: u64,
    seed: Seq<u8>,
)
    requires
        memory_sound(st),
        1 <= level <= 3,
    ensures
        ({
            let (s, r, ok) = privatize_from(st, rec, parent, level, va, seed);
            took(st, rec, s, r) && r.pdpt == rec.pdpt
        }),
    decreases level,
{
    reveal_with_fuel(privatize_from, 1);
    let idx = level_index(va, level);
    let e = entry(st.ram, parent, idx);
    let (s1, fresh) = alloc_page(st);
    next_free_is_free(st.bits, st.hint);
    if !present(e) {
    } else if level > 1 && !large(e) && rec.tables.contains(e & ADDR_MASK) {
        lemma_from_took(st, rec, e & ADDR_MASK, level - 1, va, seed);
    } else if fresh is Some {
        let t = fresh->0;
        let f = next_free(st.bits, st.hint)->0;
        if level > 1 {
            let entries = if large(e) {
                split_entries(e, level)
            } else {
                table_entries(s1.ram, e & ADDR_MASK)
            };
            let s2 = PhysState { ram: with_table(s1.ram, t as int, entries), ..s1 };
            if rec.tables.len() >= MAX_PRIV_TABLES {
                lemma_took_none(st, rec, s2, f);
            } else {
                let link = if large(e) {
                    t | ENTRY_PRESENT | (e & (ENTRY_RW | ENTRY_USER | ENTRY_NX))
                } else {
                    t | (e & !ADDR_MASK)
                };
                let s3 = set_entry(s2, parent, idx, link);
                let r3 = PrivState { tables: rec.tables.push(t), ..rec };
                lemma_took_table(st, rec, s3, r3, f);
                lemma_from_took(s3, r3, t, level - 1, va, seed);
                let (s4, r4, ok) = privatize_from(s3, r3, t, level - 1, va, seed);
                lemma_took_twice(st, rec, s3, r3, s4, r4);
            }
        } else {
            let s2 = PhysState { ram: overlay(s1.ram, t as int, seed.take(4096)), ..s1 };
            if rec.frames.len() >= MAX_PRIV_FRAMES {
                lemma_took_none(st, rec, s2, f);
            } else {
                let s3 = set_entry(s2, parent, idx, (e & !ADDR_MASK) | t);
                let r3 = PrivState { frames: rec.frames.push(t), ..rec };
                lemma_took_frame(st, rec, s3, r3, f);
            }
        }
    }
}

/// Byte `b` is in memory that is in use, outside the tables of a record.
pub open spec fn foreign(st: PhysState, rec: PrivState, b: int) -> bool {
    &&& 0 <= b < st.ram.len()
    &&& b / 4096 < st.bits.len() ==> st.bits[b / 4096]
    &&& rec.pdpt % 4096 == 0
    &&& frame(rec.pdpt) != b / 4096
    &&& forall|i: int| 0 <= i < rec.tables.len() ==> frame(#[trigger] rec.tables[i]) != b / 4096
}

proof fn lemma_still_foreign(st: PhysState, rec: PrivState, s: PhysState, r: PrivState, b: int)
    requires
        took(st, rec, s, r),
        foreign(st, rec, b),
        r.pdpt == rec.pdpt,
    ensures
        foreign(s, r, b),
{
    assert forall|i: int| 0 <= i < r.tables.len() implies frame(#[trigger] r.tables[i]) != b
        / 4096 by {
        if i < rec.tables.len() {
            assert(r.tables[i] == rec.tables[i]);
        } else {
            assert(fresh_in(st, r.tables[i]));
        }
    }
}

pub proof fn lemma_range_took(
    st: PhysState,
    rec: PrivState,
    base: int,
    page: int,
    end: int,
    seed: Seq<u8>,
    b: int,
)
    requires
        memory_sound(st),
        base <= page,
        base % 0x1000 == 0,
        page % 0x1000 == 0,
        ((end - base + 0xFFF) / 0x1000) * 0x1000 <= seed.len(),
    ensures
        ({
            let (s, r, ok) = privatize_range(st, rec, base, page, end, seed);
            &&& took(st, rec, s, r)
            &&& foreign(st, rec, b) ==> s.ram[b] == st.ram[b]
        }),
    decreases end + 0x1000 - page,
{
    if page < end {
        let rest = seed.skip(page - base);
        let (s1, r1, ok) = privatize_from(st, rec, rec.pdpt, 3, page as u64, rest);
        lemma_from_took(st, rec, rec.pdpt, 3, page as u64, rest);
        assert(rest.len() >= 4096);
        if foreign(st, rec, b) {
            privatize_spares_shared_memory(st, rec, rec.pdpt, 3, page as u64, rest, b);
            lemma_still_foreign(st, rec, s1, r1, b);
        }
        if ok {
            lemma_range_took(s1, r1, base, page + 0x1000, end, seed, b);
            let (s2, r2, done) = privatize_range(s1, r1, base, page + 0x1000, end, seed);
            lemma_took_twice(st, rec, s1, r1, s2, r2);
        }
    }
}

/// Byte `b` is in use and in none of the tables that privatizing writes to.
spec fn shared(st: PhysState, rec: PrivState, pml4: u64, b: int) -> bool {
    &&& 0 <= b < st.ram.len()
    &&& b / 4096 < st.bits.len() ==> st.bits[b / 4096]
    &&& !in_pages(own_tables(rec, pml4), b)
}

/// The tables of a record and the root lie on page boundaries.
pub open spec fn aligned_tables(rec: PrivState, pml4: u64) -> bool {
    &&& pml4 % 4096 == 0
    &&& rec.pdpt % 4096 == 0
    &&& forall|i: int| 0 <= i < rec.tables.len() ==> (#[trigger] rec.tables[i]) % 4096 == 0
}

proof fn lemma_outside(rec: PrivState, pml4: u64, b: int)
    requires
        aligned_tables(rec, pml4),
        0 <= b,
        !in_pages(own_tables(rec, pml4), b),
    ensures
        frame(pml4) != b / 4096,
        frame(rec.pdpt) != b / 4096,
        forall|i: int| 0 <= i < rec.tables.len() ==> frame(#[trigger] rec.tables[i]) != b / 4096,
{
    let own = own_tables(rec, pml4);
    let n = rec.tables.len() as int;
    assert(own[n] == rec.pdpt);
    assert(own[n + 1] == pml4);
    assert forall|i: int| 0 <= i < n implies frame(#[trigger] rec.tables[i]) != b / 4096 by {
        assert(own[i] == rec.tables[i]);
    }
}

proof fn lemma_pdpt_took(st: PhysState, rec: PrivState, pml4: u64, slot: int, b: int)
    requires
        memory_sound(st),
        0 <= slot < 512,
        aligned_tables(rec, pml4),
    ensures
        ({
            let (s, r, ok) = ensure_pdpt(st, rec, pml4, slot);
            &&& took(st, rec, s, r)
            &&& shared(st, rec, pml4, b) ==> s.ram[b] == st.ram[b]
            &&& shared(st, rec, pml4, b) && ok ==> foreign(s, r, b)
        }),
{
    let cur = entry(st.ram, pml4, slot);
    let (s1, fresh) = alloc_page(st);
    next_free_is_free(st.bits, st.hint);
    if shared(st, rec, pml4, b) {
        lemma_outside(rec, pml4, b);
    }
    if rec.pdpt == 0 && present(cur) && fresh is Some {
        let c = fresh->0;
        let f = next_free(st.bits, st.hint)->0;
        assert(c == f * 4096);
        lemma_bytes64(0);
        let s2 = PhysState {
            ram: with_table(s1.ram, c as int, table_entries(s1.ram, cur & ADDR_MASK)),
            ..s1
        };
        if rec.tables.len() >= MAX_PRIV_TABLES {
            lemma_took_none(st, rec, s2, f);
        } else {
            let link = c | (cur & !ADDR_MASK);
            lemma_bytes64(link);
            let s3 = set_entry(s2, pml4, slot, link);
            let r3 = PrivState { pdpt: c, tables: rec.tables.push(c), ..rec };
            lemma_took_table(st, rec, s3, r3, f);
            if shared(st, rec, pml4, b) {
                assert(s2.ram[b] == st.ram[b]);
                assert forall|i: int| 0 <= i < r3.tables.len() implies frame(
                    #[trigger] r3.tables[i],
                ) != b / 4096 by {
                    if i < rec.tables.len() {
                        assert(r3.tables[i] == rec.tables[i]);
                    }
                }
            }
        }
    }
}

proof fn lemma_released(st: PhysState, list: Seq<u64>)
    ensures
        released(st, list).ram == st.ram,
        released(st, list).bits.len() == st.bits.len(),
        forall|f: int|
            1 <= f < st.bits.len() ==> #[trigger] released(st, list).bits[f] == (st.bits[f]
                && !newly_listed(list, 0, f)),
        st.bits.len() > 0 ==> released(st, list).bits[0] == st.bits[0],
    decreases list.len(),
{
    if list.len() > 0 {
        let s1 = release(st, list[0]);
        let rest = list.skip(1);
        lemma_released(s1, rest);
        assert forall|f: int| 1 <= f < st.bits.len() implies #[trigger] released(st, list).bits[f]
            == (st.bits[f] && !newly_listed(list, 0, f)) by {
            if newly_listed(rest, 0, f) {
                let k = choose|k: int| 0 <= k < rest.len() && frame(#[trigger] rest[k]) == f;
                assert(list[k + 1] == rest[k]);
            }
            if newly_listed(list, 0, f) && frame(list[0]) != f {
                let k = choose|k: int| 0 <= k < list.len() && frame(#[trigger] list[k]) == f;
                assert(rest[k - 1] == list[k]);
            }
        }
    }
}

proof fn lemma_skipped(list: Seq<u64>, n: int, f: int)
    requires
        0 <= n <= list.len(),
    ensures
        newly_listed(list.skip(n), 0, f) == newly_listed(list, n, f),
{
    let rest = list.skip(n);
    if newly_listed(rest, 0, f) {
        let k = choose|k: int| 0 <= k < rest.len() && frame(#[trigger] rest[k]) == f;
        assert(list[k + n] == rest[k]);
    }
    if newly_listed(list, n, f) {
        let k = choose|k: int| n <= k < list.len() && frame(#[trigger] list[k]) == f;
        assert(rest[k - n] == list[k]);
    }
}

proof fn lemma_undone_bits(
    st: PhysState,
    rec: PrivState,
    s: PhysState,
    r: PrivState,
    pml4: u64,
)
    requires
        took(st, rec, s, r),
        st.bits.len() > 0 ==> st.bits[0],
    ensures
        undone(st, rec, s, r, pml4).bits == st.bits,
        undone(st, rec, s, r, pml4).ram == put_back(s.ram, st.ram, own_tables(rec, pml4)),
{
    let n = rec.tables.len() as int;
    let m = rec.frames.len() as int;
    let back = PhysState { ram: put_back(s.ram, st.ram, own_tables(rec, pml4)), ..s };
    let some = released(back, r.frames.skip(m));
    let done = released(some, r.tables.skip(n));
    lemma_released(back, r.frames.skip(m));
    lemma_released(some, r.tables.skip(n));
    assert forall|f: int| 0 <= f < st.bits.len() implies #[trigger] done.bits[f] == st.bits[f] by {
        lemma_skipped(r.frames, m, f);
        lemma_skipped(r.tables, n, f);
        if st.bits[f] {
            assert(s.bits[f]);
            if newly_listed(r.tables, n, f) {
                let k = choose|k: int| n <= k < r.tables.len() && frame(#[trigger] r.tables[k]) == f;
                assert(fresh_in(st, r.tables[k]));
            }
            if newly_listed(r.frames, m, f) {
                let k = choose|k: int| m <= k < r.frames.len() && frame(#[trigger] r.frames[k]) == f;
                assert(fresh_in(st, r.frames[k]));
            }
        }
        assert(some.bits[f] == if f >= 1 {
            s.bits[f] && !newly_listed(r.frames, m, f)
        } else {
            s.bits[f]
        });
    }
    assert(done.bits =~= st.bits);
}

/// A failed attempt to privatize a range leaves the shared mappings in place: every
/// byte of memory in use, page tables among them, is as before, the same frames are in
/// use, and the record is unchanged.
pub proof fn a_failed_privatize_changes_nothing_in_use(
    st: PhysState,
    rec: PrivState,
    window: u64,
    pml4: u64,
    va: u64,
    len: int,
    seed: Seq<u8>,
    b: int,
)
    requires
        memory_sound(st),
        st.bits.len() > 0 ==> st.bits[0],
        aligned_tables(rec, pml4),
        0 <= len,
        va + len <= u64::MAX - 0xFFF,
        seed.len() >= len ==> ((va % 0x1000 + len + 0xFFF) / 0x1000) * 0x1000 <= seed.len(),
        !privatize_pages(st, rec, window, pml4, va, len, seed).2,
        0 <= b < st.ram.len(),
        b / 4096 < st.bits.len() ==> st.bits[b / 4096],
    ensures
        ({
            let (s, r, ok) = privatize_pages(st, rec, window, pml4, va, len, seed);
            &&& s.ram.len() == st.ram.len()
            &&& s.ram[b] == st.ram[b]
            &&& s.bits == st.bits
            &&& r == rec
        }),
{
    if seed.len() >= len {
        let slot = level_index(window, 4);
        let base = (va as int / 0x1000) * 0x1000;
        let (s1, r1, ok) = ensure_pdpt(st, rec, pml4, slot);
        let (s2, r2, all) = privatize_tried(st, rec, window, pml4, va, len, seed);
        lemma_pdpt_took(st, rec, pml4, slot, b);
        if ok {
            lemma_range_took(s1, r1, base, base, va + len, seed, b);
            lemma_took_twice(st, rec, s1, r1, s2, r2);
        }
        lemma_undone_bits(st, rec, s2, r2, pml4);
    }
}

} // verus!
