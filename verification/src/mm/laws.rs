//! What the page-table routines promise together.
use crate::bytes::{get64, in_bounds, lemma_bytes64, lemma_get64_in, lemma_get_put64, overlay};
use crate::mm::phys::{alloc_page, next_free, next_free_is_free, PhysState};
use crate::mm::space::{privatize_from, split_entries, PrivState, MAX_PRIV_TABLES};
use crate::mm::virt::{
    backed_leaf, child_table, entry, large, leaf_table, level_index, map_page, pde, pdpte, pml4e,
    present, protected, pte, reprotected, set_entry, set_word, table_entries, translate, unmapped,
    user_leaf, with_leaf, with_table, word, ADDR_MASK, ENTRY_LARGE, ENTRY_NX, ENTRY_PRESENT,
    ENTRY_RW, ENTRY_USER,
};
use vstd::prelude::*;

verus! {

/// The frame holding physical address `pa`.
pub open spec fn frame(pa: u64) -> int {
    pa as int / 4096
}

/// Memory fits the 52-bit physical address space and covers every tracked frame.
pub open spec fn memory_sound(st: PhysState) -> bool {
    &&& st.ram.len() <= 0x10_0000_0000_0000
    &&& st.bits.len() * 4096 <= st.ram.len()
    &&& 0 <= st.hint
}

/// `t` is a page-aligned frame that is in use.
pub open spec fn table_sound(st: PhysState, t: u64) -> bool {
    t % 4096 == 0 && frame(t) < st.bits.len() && st.bits[frame(t)]
}

/// The existing tables on the path to `va` are in use, distinct, and no large
/// page is on the way.
pub open spec fn path_sound(st: PhysState, root: u64, va: u64) -> bool {
    let e4 = pml4e(st.ram, root, va);
    let t3 = e4 & ADDR_MASK;
    let e3 = pdpte(st.ram, root, va);
    let t2 = e3 & ADDR_MASK;
    let e2 = pde(st.ram, root, va);
    let t1 = e2 & ADDR_MASK;
    &&& memory_sound(st)
    &&& table_sound(st, root)
    &&& present(e4) ==> {
        &&& table_sound(st, t3)
        &&& frame(t3) != frame(root)
        &&& present(e3) ==> {
            &&& !large(e3)
            &&& table_sound(st, t2)
            &&& frame(t2) != frame(root)
            &&& frame(t2) != frame(t3)
            &&& present(e2) ==> {
                &&& !large(e2)
                &&& table_sound(st, t1)
                &&& frame(t1) != frame(root)
                &&& frame(t1) != frame(t3)
                &&& frame(t1) != frame(t2)
            }
        }
    }
}

pub proof fn lemma_link_bits(c: u64, p: u64, r: u64, n: u64)
    by (bit_vector)
    requires
        r == 0 || r == ENTRY_RW,
        n == 0 || n == ENTRY_NX,
    ensures
        ((c & ADDR_MASK) | ENTRY_PRESENT | ENTRY_RW | ENTRY_USER) & ENTRY_PRESENT != 0,
        ((c & ADDR_MASK) | ENTRY_PRESENT | ENTRY_RW | ENTRY_USER) & ENTRY_LARGE == 0,
        ((c & ADDR_MASK) | ENTRY_PRESENT | ENTRY_RW | ENTRY_USER) & ADDR_MASK == c & ADDR_MASK,
        c % 4096 == 0 && c <= 0x000F_FFFF_FFFF_F000 ==> c & ADDR_MASK == c,
        (c & ADDR_MASK) % 4096 == 0,
        ((p & ADDR_MASK) | ENTRY_PRESENT | ENTRY_USER | r | n) & ENTRY_PRESENT != 0,
        ((p & ADDR_MASK) | ENTRY_PRESENT | ENTRY_USER | r | n) & ADDR_MASK == p & ADDR_MASK,
        ((p & !ENTRY_RW & !ENTRY_NX) | r | n) & ADDR_MASK == p & ADDR_MASK,
        ((p & !ENTRY_RW & !ENTRY_NX) | r | n) & ENTRY_PRESENT == p & ENTRY_PRESENT,
        0u64 & ENTRY_PRESENT == 0,
{
}

/// A word reads back after it is written.
pub proof fn word_reads_back(ram: Seq<u8>, pa: int, v: u64)
    requires
        in_bounds(ram, pa, 8),
    ensures
        word(set_word(ram, pa, v), pa) == v,
{
    lemma_get_put64(ram, pa, v);
}

/// Two memories that agree on eight bytes agree on the word there.
pub proof fn lemma_same_word(a: Seq<u8>, b: Seq<u8>, pa: int)
    requires
        a.len() == b.len(),
        forall|k: int| pa <= k < pa + 8 && 0 <= k < a.len() ==> a[k] == b[k],
    ensures
        word(a, pa) == word(b, pa),
{
    if in_bounds(a, pa, 8) {
        let w = a.subrange(pa, pa + 8);
        lemma_get64_in(a, pa, w);
        lemma_get64_in(b, pa, w);
    }
}

/// Writing one word leaves a disjoint word alone.
pub proof fn lemma_word_frame(ram: Seq<u8>, pa: int, v: u64, pb: int)
    requires
        pa + 8 <= pb || pb + 8 <= pa,
    ensures
        word(set_word(ram, pa, v), pb) == word(ram, pb),
{
    lemma_bytes64(v);
    lemma_same_word(set_word(ram, pa, v), ram, pb);
}

/// Linking a child table: afterwards the entry leads to the child, and nothing
/// in a frame that was in use has changed but that entry.
pub proof fn lemma_child_links(st: PhysState, table: u64, idx: int)
    requires
        memory_sound(st),
        table_sound(st, table),
        0 <= idx < 512,
        child_table(st, table, idx).1 is Some,
        present(entry(st.ram, table, idx)) ==> table_sound(
            st,
            entry(st.ram, table, idx) & ADDR_MASK,
        ),
    ensures
        ({
            let (s1, c) = child_table(st, table, idx);
            let child = c->0;
            let was = present(entry(st.ram, table, idx));
            &&& memory_sound(s1)
            &&& s1.ram.len() == st.ram.len()
            &&& s1.bits.len() == st.bits.len()
            &&& forall|f: int| 0 <= f < st.bits.len() && st.bits[f] ==> #[trigger] s1.bits[f]
            &&& table_sound(s1, child)
            &&& present(entry(s1.ram, table, idx))
            &&& entry(s1.ram, table, idx) & ADDR_MASK == child
            &&& !was ==> !large(entry(s1.ram, table, idx))
            &&& was ==> s1 == st
            &&& !was ==> !st.bits[frame(child)]
            &&& !was ==> forall|k: int| 0 <= k < 512 ==> #[trigger] entry(s1.ram, child, k) == 0
            &&& forall|t: u64, k: int|
                #![trigger entry(s1.ram, t, k)]
                table_sound(st, t) && 0 <= k < 512 && (frame(t) != frame(table) || k != idx)
                    ==> entry(s1.ram, t, k) == entry(st.ram, t, k)
        }),
{
    let (s1, c) = child_table(st, table, idx);
    let child = c->0;
    if !present(entry(st.ram, table, idx)) {
        next_free_is_free(st.bits, st.hint);
        let f = next_free(st.bits, st.hint)->0;
        let (s0, _c0) = alloc_page(st);
        assert(child == f * 4096);
        lemma_link_bits(child, 0, 0, 0);
        let link = (child & ADDR_MASK) | ENTRY_PRESENT | ENTRY_RW | ENTRY_USER;
        let at = table + 8 * idx;
        word_reads_back(s0.ram, at, link);
        assert forall|k: int| 0 <= k < 512 implies #[trigger] entry(s1.ram, child, k) == 0 by {
            lemma_word_frame(s0.ram, at, link, child + 8 * k);
            let w = Seq::new(8, |i: int| 0u8);
            lemma_get64_in(s0.ram, child + 8 * k, w);
            assert(get64(w, 0) == 0);
        }
        assert forall|t: u64, k: int|
            #![trigger entry(s1.ram, t, k)]
            table_sound(st, t) && 0 <= k < 512 && (frame(t) != frame(table) || k != idx) implies entry(
            s1.ram,
            t,
            k,
        ) == entry(st.ram, t, k) by {
            lemma_word_frame(s0.ram, at, link, t + 8 * k);
            assert(frame(t) != f);
            lemma_same_word(s0.ram, st.ram, t + 8 * k);
        }
    }
}

/// Mapping a page makes its address translate to the frame: whenever the tables
/// on the way are sound, `va` leads to the mapped frame at `va`'s page offset, and its
/// entry grants what was asked for.
pub proof fn map_then_translate(
    st: PhysState,
    root: u64,
    va: u64,
    p: u64,
    writable: bool,
    exec: bool,
)
    requires
        path_sound(st, root, va),
        map_page(st, root, va, p, writable, exec).1,
    ensures
        translate(map_page(st, root, va, p, writable, exec).0.ram, root, va) == Some(
            (p & ADDR_MASK) | (va & 0xFFF),
        ),
        pte(map_page(st, root, va, p, writable, exec).0.ram, root, va) == user_leaf(
            p,
            writable,
            exec,
        ),
{
    reveal(map_page);
    let i4 = level_index(va, 4);
    let i3 = level_index(va, 3);
    let i2 = level_index(va, 2);
    let i1 = level_index(va, 1);
    let (s1, c3) = child_table(st, root, i4);
    lemma_child_links(st, root, i4);
    let t3 = c3->0;
    let (s2, c2) = child_table(s1, t3, i3);
    if present(entry(st.ram, root, i4)) {
        assert(s1 == st);
    } else {
        assert(entry(s1.ram, t3, i3) == 0);
        lemma_link_bits(0, 0, 0, 0);
    }
    lemma_child_links(s1, t3, i3);
    let t2 = c2->0;
    let (s3, c1) = child_table(s2, t2, i2);
    if present(entry(s1.ram, t3, i3)) {
        assert(s2 == s1);
    } else {
        assert(entry(s2.ram, t2, i2) == 0);
        lemma_link_bits(0, 0, 0, 0);
    }
    lemma_child_links(s2, t2, i2);
    let t1 = c1->0;
    let leaf = user_leaf(p, writable, exec);
    let s4 = set_entry(s3, t1, i1, leaf);
    // The tables along the path are four different frames.
    assert(table_sound(s1, root) && table_sound(s2, root) && table_sound(s3, root));
    assert(table_sound(s2, t3) && table_sound(s3, t3) && table_sound(s3, t2));
    assert(frame(t3) != frame(root));
    assert(frame(t2) != frame(root) && frame(t2) != frame(t3));
    assert(frame(t1) != frame(root) && frame(t1) != frame(t3) && frame(t1) != frame(t2));
    // Later links leave earlier ones alone.
    assert(entry(s2.ram, root, i4) == entry(s1.ram, root, i4));
    assert(entry(s3.ram, root, i4) == entry(s2.ram, root, i4));
    assert(entry(s3.ram, t3, i3) == entry(s2.ram, t3, i3));
    let at = t1 + 8 * i1;
    lemma_word_frame(s3.ram, at, leaf, root + 8 * i4);
    lemma_word_frame(s3.ram, at, leaf, t3 + 8 * i3);
    lemma_word_frame(s3.ram, at, leaf, t2 + 8 * i2);
    word_reads_back(s3.ram, at, leaf);
    lemma_link_bits(
        0,
        p,
        if writable {
            ENTRY_RW
        } else {
            0
        },
        if exec {
            0
        } else {
            ENTRY_NX
        },
    );
    assert(pml4e(s4.ram, root, va) & ADDR_MASK == t3);
    assert(pdpte(s4.ram, root, va) & ADDR_MASK == t2);
    assert(pde(s4.ram, root, va) & ADDR_MASK == t1);
    assert(pte(s4.ram, root, va) == leaf);
}

/// Replacing the leaf of `va` changes that entry of its walk and no other.
proof fn lemma_leaf_replaced(st: PhysState, root: u64, va: u64, v: u64)
    requires
        path_sound(st, root, va),
        leaf_table(st.ram, root, va) is Some,
    ensures
        pml4e(with_leaf(st.ram, root, va, v), root, va) == pml4e(st.ram, root, va),
        pdpte(with_leaf(st.ram, root, va, v), root, va) == pdpte(st.ram, root, va),
        pde(with_leaf(st.ram, root, va, v), root, va) == pde(st.ram, root, va),
        pte(with_leaf(st.ram, root, va, v), root, va) == v,
{
    let t3 = pml4e(st.ram, root, va) & ADDR_MASK;
    let t2 = pdpte(st.ram, root, va) & ADDR_MASK;
    let t1 = pde(st.ram, root, va) & ADDR_MASK;
    let at = t1 + 8 * level_index(va, 1);
    lemma_word_frame(st.ram, at, v, root + 8 * level_index(va, 4));
    lemma_word_frame(st.ram, at, v, t3 + 8 * level_index(va, 3));
    lemma_word_frame(st.ram, at, v, t2 + 8 * level_index(va, 2));
    word_reads_back(st.ram, at, v);
}

/// After a page is unmapped its address no longer translates.
pub proof fn unmap_then_translate(st: PhysState, root: u64, va: u64)
    requires
        path_sound(st, root, va),
        leaf_table(st.ram, root, va) is Some,
    ensures
        translate(unmapped(st.ram, root, va), root, va) is None,
{
    lemma_link_bits(0, 0, 0, 0);
    if backed_leaf(st.ram, root, va) is Some {
        lemma_leaf_replaced(st, root, va, 0);
    }
}

/// Changing a page's protection does not change what it translates to.
pub proof fn protect_keeps_translation(
    st: PhysState,
    root: u64,
    va: u64,
    writable: bool,
    executable: bool,
)
    requires
        path_sound(st, root, va),
        leaf_table(st.ram, root, va) is Some,
    ensures
        translate(protected(st.ram, root, va, writable, executable), root, va) == translate(
            st.ram,
            root,
            va,
        ),
{
    match backed_leaf(st.ram, root, va) {
        Some(e) => {
            lemma_leaf_replaced(st, root, va, reprotected(e, writable, executable));
            lemma_link_bits(
                0,
                e,
                if writable {
                    ENTRY_RW
                } else {
                    0
                },
                if executable {
                    0
                } else {
                    ENTRY_NX
                },
            );
        },
        None => {},
    }
}

/// Privatizing a page never writes to a frame that was in use by anyone else:
/// every byte outside the process's own tables and the frames taken for it
/// keeps its value.
pub proof fn privatize_spares_shared_memory(
    st: PhysState,
    rec: PrivState,
    parent: u64,
    level: int,
    va: u64,
    seed: Seq<u8>,
    b: int,
)
    requires
        memory_sound(st),
        1 <= level <= 3,
        parent % 4096 == 0,
        0 <= b < st.ram.len(),
        b / 4096 < st.bits.len() ==> st.bits[b / 4096],
        frame(parent) != b / 4096,
        forall|i: int|
            0 <= i < rec.tables.len() ==> frame(#[trigger] rec.tables[i]) != b / 4096,
        seed.len() >= 4096,
    ensures
        privatize_from(st, rec, parent, level, va, seed).0.ram.len() == st.ram.len(),
        privatize_from(st, rec, parent, level, va, seed).0.ram[b] == st.ram[b],
    decreases level,
{
    reveal_with_fuel(privatize_from, 1);
    let idx = level_index(va, level);
    let e = entry(st.ram, parent, idx);
    let child = e & ADDR_MASK;
    let (s1, fresh) = alloc_page(st);
    next_free_is_free(st.bits, st.hint);
    lemma_link_bits(e, 0, 0, 0);
    if !present(e) {
    } else if level > 1 && !large(e) && rec.tables.contains(child) {
        let i = choose|i: int| 0 <= i < rec.tables.len() && rec.tables[i] == child;
        assert(frame(rec.tables[i]) != b / 4096);
        privatize_spares_shared_memory(st, rec, child, level - 1, va, seed, b);
    } else if fresh is Some {
        let t = fresh->0;
        let f = next_free(st.bits, st.hint)->0;
        assert(t == f * 4096);
        assert(b / 4096 != f);
        assert(s1.ram[b] == st.ram[b]);
        lemma_bytes64(0);
        if level > 1 {
            let entries = if large(e) {
                split_entries(e, level)
            } else {
                table_entries(s1.ram, child)
            };
            assert(entries.len() == 512);
            let s2 = PhysState { ram: with_table(s1.ram, t as int, entries), ..s1 };
            assert(s2.ram[b] == st.ram[b]);
            if rec.tables.len() < MAX_PRIV_TABLES {
                let link = if large(e) {
                    t | ENTRY_PRESENT | (e & (ENTRY_RW | ENTRY_USER | ENTRY_NX))
                } else {
                    t | (e & !ADDR_MASK)
                };
                lemma_bytes64(link);
                let s3 = set_entry(s2, parent, idx, link);
                assert(s3.ram[b] == st.ram[b]);
                let rec2 = PrivState { tables: rec.tables.push(t), ..rec };
                assert(memory_sound(s3));
                assert forall|i: int| 0 <= i < rec2.tables.len() implies frame(
                    #[trigger] rec2.tables[i],
                ) != b / 4096 by {
                    if i < rec.tables.len() {
                        assert(rec2.tables[i] == rec.tables[i]);
                    }
                }
                privatize_spares_shared_memory(s3, rec2, t, level - 1, va, seed, b);
            }
        } else {
            let s2 = PhysState { ram: overlay(s1.ram, t as int, seed.take(4096)), ..s1 };
            assert(s2.ram[b] == st.ram[b]);
            lemma_bytes64((e & !ADDR_MASK) | t);
        }
    }
}

} // verus!
