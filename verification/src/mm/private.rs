//! Private pages: what giving a process its own copy of a page does to every mapping.
use crate::bytes::{lemma_bytes64, overlay};
use crate::mm::isolation::{
    lemma_same_tables, lemma_same_walk, lemma_walk, same_page, same_place, same_turns, spaces_sound, table_at,
};
use crate::mm::laws::{
    frame, lemma_same_word, lemma_word_frame, memory_sound, table_sound, word_reads_back,
};
use crate::mm::phys::{alloc_page, next_free, next_free_is_free, PhysState};
use crate::mm::rollback::{foreign, lemma_range_took};
use crate::mm::space::{
    ensure_pdpt, privatize_from, privatize_pages, privatize_range, split_entries, PrivState,
};
use crate::mm::splitting::{
    grow, grown, lemma_grown, lemma_grown_sound, lemma_kept_mappings, lemma_link_to,
    lemma_same_access, lemma_walk_kept, link_to, reads, same_access, same_mappings, walk_kept,
};
use crate::mm::virt::{
    entry, large, level_index, pde, pdpte, pml4e, present, pte, set_entry, table_entries,
    translate, ADDR_MASK, ENTRY_LARGE, ENTRY_NX, ENTRY_PRESENT, ENTRY_RW, ENTRY_USER,
};
use vstd::arithmetic::div_mod::lemma_div_denominator;
use vstd::prelude::*;

verus! {

/// Of the address spaces `roots`, only `root` reaches a table of the list.
#[verifier::opaque]
pub open spec fn owned(st: PhysState, roots: Set<u64>, root: u64, tables: Seq<u64>) -> bool {
    forall|r2: u64, va2: u64, m: int|
        roots.contains(r2) && 1 <= m <= 4 && table_at(st.ram, r2, va2, m) is Some
            && tables.contains((#[trigger] table_at(st.ram, r2, va2, m))->Some_0) ==> r2 == root
}

/// The entry that leads to a copy at `t` of the table that `e` leads to, or to a copy of
/// the page.
spec fn relinked(t: u64, e: u64) -> u64 {
    (e & !ADDR_MASK) | t
}

proof fn lemma_relinked(t: u64, e: u64)
    by (bit_vector)
    requires
        t % 4096 == 0,
        t <= 0x000F_FFFF_FFFF_F000,
    ensures
        ((e & !ADDR_MASK) | t) == (t | (e & !ADDR_MASK)),
        ((e & !ADDR_MASK) | t) & ADDR_MASK == t,
        ((e & !ADDR_MASK) | t) & ENTRY_PRESENT == e & ENTRY_PRESENT,
        ((e & !ADDR_MASK) | t) & ENTRY_LARGE == e & ENTRY_LARGE,
        ((e & !ADDR_MASK) | t) & ENTRY_USER == e & ENTRY_USER,
        ((e & !ADDR_MASK) | t) & ENTRY_RW == e & ENTRY_RW,
        ((e & !ADDR_MASK) | t) & ENTRY_NX == e & ENTRY_NX,
{
}

/// Every other entry on a walk is as before when one entry of a table was changed.
proof fn lemma_rest_of_walk(
    st: PhysState,
    s1: PhysState,
    roots: Set<u64>,
    root: u64,
    va: u64,
    t: u64,
    idx: int,
    l: int,
    r2: u64,
    va2: u64,
)
    requires
        spaces_sound(st, roots),
        roots.contains(root),
        roots.contains(r2),
        1 <= l <= 4,
        reads(st.ram, root, va, l, t, idx),
        forall|u: u64, k: int|
            #![trigger entry(s1.ram, u, k)]
            table_sound(st, u) && 0 <= k < 512 && (u != t || k != idx) ==> entry(s1.ram, u, k)
                == entry(st.ram, u, k),
    ensures
        forall|m: int|
            1 <= m <= 4 && (#[trigger] table_at(st.ram, r2, va2, m)) is Some && !(reads(
                st.ram,
                r2,
                va2,
                l,
                t,
                idx,
            ) && m == l) ==> {
                let u = table_at(st.ram, r2, va2, m)->Some_0;
                entry(s1.ram, u, level_index(va2, m)) == entry(st.ram, u, level_index(va2, m))
            },
{
    reveal(spaces_sound);
    assert forall|m: int|
        1 <= m <= 4 && (#[trigger] table_at(st.ram, r2, va2, m)) is Some && !(reads(
            st.ram,
            r2,
            va2,
            l,
            t,
            idx,
        ) && m == l) implies {
        let u = table_at(st.ram, r2, va2, m)->Some_0;
        entry(s1.ram, u, level_index(va2, m)) == entry(st.ram, u, level_index(va2, m))
    } by {
        let u = table_at(st.ram, r2, va2, m)->Some_0;
        assert(table_sound(st, u));
        if u == t && level_index(va2, m) == idx {
            assert(table_at(st.ram, root, va, l) == table_at(st.ram, r2, va2, m));
            assert(l == m);
        }
    }
}

/// A copy of a table in place of it keeps every walk.
#[verifier::spinoff_prover]
#[verifier::rlimit(60)]
proof fn lemma_copy_kept(
    st: PhysState,
    s1: PhysState,
    roots: Set<u64>,
    root: u64,
    va: u64,
    t: u64,
    idx: int,
    l: int,
    child: u64,
    r2: u64,
    va2: u64,
)
    requires
        spaces_sound(st, roots),
        roots.contains(root),
        roots.contains(r2),
        2 <= l <= 4,
        reads(st.ram, root, va, l, t, idx),
        present(entry(st.ram, t, idx)),
        l < 4 ==> !large(entry(st.ram, t, idx)),
        ({
            let e = entry(st.ram, t, idx);
            grown(
                st,
                s1,
                t,
                idx,
                child,
                relinked(child, e),
                table_entries(st.ram, e & ADDR_MASK),
            )
        }),
        child % 4096 == 0,
        child <= 0x000F_FFFF_FFFF_F000,
    ensures
        walk_kept(st, s1, t, idx, l, child, r2, va2),
{
    let e = entry(st.ram, t, idx);
    let old_child = e & ADDR_MASK;
    let here = reads(st.ram, r2, va2, l, t, idx);
    lemma_walk(st.ram, r2, va2);
    lemma_walk(s1.ram, r2, va2);
    lemma_relinked(child, e);
    lemma_rest_of_walk(st, s1, roots, root, va, t, idx, l, r2, va2);
    assert(table_at(st.ram, r2, va2, 4) == Some(r2));
    if !here {
        lemma_same_walk(st.ram, s1.ram, r2, va2);
        lemma_same_access(st.ram, s1.ram, r2, va2);
    } else {
        let i = level_index(va2, l - 1);
        assert(0 <= i < 512);
        assert(entry(s1.ram, child, i) == table_entries(st.ram, old_child)[i]);
        assert(entry(s1.ram, child, i) == entry(st.ram, old_child, i));
        assert(table_at(st.ram, r2, va2, 3) is Some);
        if l == 4 {
            assert(pdpte(s1.ram, r2, va2) == pdpte(st.ram, r2, va2));
        } else if l == 3 {
            assert(table_at(st.ram, r2, va2, 2) == Some(old_child));
            assert(pde(s1.ram, r2, va2) == pde(st.ram, r2, va2));
        } else {
            assert(table_at(st.ram, r2, va2, 2) is Some);
            assert(table_at(st.ram, r2, va2, 1) == Some(old_child));
            assert(pte(s1.ram, r2, va2) == pte(st.ram, r2, va2));
        }
        if l > 3 && table_at(st.ram, r2, va2, 2) is Some {
            assert(pde(s1.ram, r2, va2) == pde(st.ram, r2, va2));
        }
        if l > 2 && table_at(st.ram, r2, va2, 1) is Some {
            assert(pte(s1.ram, r2, va2) == pte(st.ram, r2, va2));
        }
    }
    assert forall|m: int| 1 <= m <= 4 implies #[trigger] table_at(s1.ram, r2, va2, m) == if m == l
        - 1 && here {
        Some(child)
    } else {
        table_at(st.ram, r2, va2, m)
    } by {
        assert(m == 1 || m == 2 || m == 3 || m == 4);
    }
}

/// The tables that stand in for a large page or a shared table below the entry `e`.
spec fn stand_in(ram: Seq<u8>, e: u64, l: int, child: u64) -> (u64, Seq<u64>) {
    if l < 4 && large(e) {
        (link_to(child, e), split_entries(e, l))
    } else {
        (relinked(child, e), table_entries(ram, e & ADDR_MASK))
    }
}

/// Putting a table of its own on the way to `va` changes no mapping, and the table is
/// owned as the one above it is.
#[verifier::spinoff_prover]
proof fn lemma_own_table(
    st: PhysState,
    roots: Set<u64>,
    root: u64,
    tables: Seq<u64>,
    va: u64,
    l: int,
    t: u64,
)
    requires
        spaces_sound(st, roots),
        roots.contains(root),
        owned(st, roots, root, tables),
        2 <= l <= 4,
        table_at(st.ram, root, va, l) == Some(t),
        l == 4 || tables.contains(t),
        present(entry(st.ram, t, level_index(va, l))),
        alloc_page(st).1 is Some,
    ensures
        ({
            let e = entry(st.ram, t, level_index(va, l));
            let child = alloc_page(st).1->Some_0;
            let (link, entries) = stand_in(st.ram, e, l, child);
            let s1 = grow(st, t, level_index(va, l), link, entries);
            &&& grown(st, s1, t, level_index(va, l), child, link, entries)
            &&& spaces_sound(s1, roots)
            &&& same_mappings(st.ram, s1.ram, roots)
            &&& owned(s1, roots, root, tables.push(child))
            &&& table_at(s1.ram, root, va, l - 1) == Some(child)
            &&& child % 4096 == 0
            &&& child <= 0x000F_FFFF_FFFF_F000
        }),
{
    let idx = level_index(va, l);
    let e = entry(st.ram, t, idx);
    let child = alloc_page(st).1->Some_0;
    let (link, entries) = stand_in(st.ram, e, l, child);
    let s1 = grow(st, t, idx, link, entries);
    assert(memory_sound(st) && table_sound(st, t)) by {
        reveal(spaces_sound);
        assert(table_at(st.ram, root, va, l) is Some);
    }
    lemma_grown(st, t, idx, link, entries);
    assert forall|r2: u64, va2: u64| roots.contains(r2) implies #[trigger] walk_kept(
        st,
        s1,
        t,
        idx,
        l,
        child,
        r2,
        va2,
    ) by {
        if l < 4 && large(e) {
            lemma_walk_kept(st, s1, roots, root, va, t, idx, l, child, r2, va2);
        } else {
            lemma_copy_kept(st, s1, roots, root, va, t, idx, l, child, r2, va2);
        }
    }
    lemma_grown_sound(st, s1, roots, t, idx, l, child, link, entries);
    lemma_kept_mappings(st, s1, roots, t, idx, l, child);
    assert(walk_kept(st, s1, t, idx, l, child, root, va));
    assert(owned(s1, roots, root, tables.push(child))) by {
        reveal(owned);
        assert forall|r2: u64, va2: u64, m: int|
            roots.contains(r2) && 1 <= m <= 4 && table_at(s1.ram, r2, va2, m) is Some
                && tables.push(child).contains(
                (#[trigger] table_at(s1.ram, r2, va2, m))->Some_0,
            ) implies r2 == root by {
            assert(walk_kept(st, s1, t, idx, l, child, r2, va2));
            if m == l - 1 && reads(st.ram, r2, va2, l, t, idx) {
                assert(table_at(st.ram, r2, va2, l) == Some(t));
                assert(l == 4 ==> table_at(st.ram, r2, va2, 4) == Some(r2));
                assert(l == 4 ==> table_at(st.ram, root, va, 4) == Some(root));
            } else {
                let x = table_at(st.ram, r2, va2, m)->Some_0;
                assert(table_sound(st, x)) by {
                    reveal(spaces_sound);
                    assert(table_at(st.ram, r2, va2, m) is Some);
                }
                let i = choose|i: int|
                    0 <= i < tables.push(child).len() && tables.push(child)[i] == x;
                assert(x != child);
                assert(tables[i] == x);
                assert(tables.contains(x));
            }
        }
    }
}

/// The state with `page` in the next free frame, and the leaf at `idx` of the table at `t`
/// leading to it.
spec fn with_page(st: PhysState, t: u64, idx: int, page: Seq<u8>) -> PhysState {
    let (s1, f) = alloc_page(st);
    set_entry(
        PhysState { ram: overlay(s1.ram, f->Some_0 as int, page), ..s1 },
        t,
        idx,
        relinked(f->Some_0, entry(st.ram, t, idx)),
    )
}

/// The frame at `f` was free, is in use, and holds `page`.
pub open spec fn new_page(st: PhysState, s: PhysState, f: u64, page: Seq<u8>) -> bool {
    &&& f % 4096 == 0
    &&& f <= 0x000F_FFFF_FFFF_F000
    &&& frame(f) < st.bits.len() == s.bits.len()
    &&& !st.bits[frame(f)]
    &&& s.bits[frame(f)]
    &&& f + 4096 <= s.ram.len()
    &&& s.ram.subrange(f as int, f + 4096) == page
}

/// The page of `va` in the address space `root` is the frame at `f`.
pub open spec fn leads(ram: Seq<u8>, root: u64, va: u64, f: u64) -> bool {
    forall|va2: u64|
        same_page(va, va2) ==> #[trigger] translate(ram, root, va2) == Some(f | (va2 & 0xFFF))
}

#[verifier::spinoff_prover]
proof fn lemma_with_page(st: PhysState, t: u64, idx: int, page: Seq<u8>)
    requires
        memory_sound(st),
        table_sound(st, t),
        0 <= idx < 512,
        page.len() == 4096,
        alloc_page(st).1 is Some,
    ensures
        ({
            let s = with_page(st, t, idx, page);
            let f = alloc_page(st).1->Some_0;
            &&& memory_sound(s)
            &&& new_page(st, s, f, page)
            &&& forall|k: int| 0 <= k < st.bits.len() && st.bits[k] ==> #[trigger] s.bits[k]
            &&& entry(s.ram, t, idx) == relinked(f, entry(st.ram, t, idx))
            &&& forall|u: u64, k: int|
                #![trigger entry(s.ram, u, k)]
                table_sound(st, u) && 0 <= k < 512 && (u != t || k != idx) ==> entry(s.ram, u, k)
                    == entry(st.ram, u, k)
        }),
{
    let (s1, c) = alloc_page(st);
    let f = c->Some_0;
    next_free_is_free(st.bits, st.hint);
    let n = next_free(st.bits, st.hint)->Some_0;
    assert(f == n * 4096);
    let s2 = PhysState { ram: overlay(s1.ram, f as int, page), ..s1 };
    let link = relinked(f, entry(st.ram, t, idx));
    let at = t + 8 * idx;
    let s = with_page(st, t, idx, page);
    lemma_bytes64(link);
    assert(frame(t) != n);
    word_reads_back(s2.ram, at, link);
    assert(s.ram.subrange(f as int, f + 4096) =~= page);
    assert forall|u: u64, k: int|
        #![trigger entry(s.ram, u, k)]
        table_sound(st, u) && 0 <= k < 512 && (u != t || k != idx) implies entry(s.ram, u, k)
        == entry(st.ram, u, k) by {
        assert(frame(u) != n);
        lemma_word_frame(s2.ram, at, link, u + 8 * k);
        lemma_same_word(s2.ram, st.ram, u + 8 * k);
    }
}

/// A walk after the leaf of `va` was changed: the same tables, the same access, and the
/// same page unless it is the one of `va`.
spec fn leaf_kept(st: PhysState, s: PhysState, root: u64, va: u64, r2: u64, va2: u64) -> bool {
    &&& forall|m: int|
        1 <= m <= 4 ==> #[trigger] table_at(s.ram, r2, va2, m) == table_at(st.ram, r2, va2, m)
    &&& same_access(st.ram, s.ram, r2, va2)
    &&& !(r2 == root && same_page(va, va2)) ==> translate(s.ram, r2, va2) == translate(
        st.ram,
        r2,
        va2,
    )
}

#[verifier::spinoff_prover]
#[verifier::rlimit(40)]
proof fn lemma_leaf_kept(
    st: PhysState,
    s: PhysState,
    roots: Set<u64>,
    root: u64,
    tables: Seq<u64>,
    va: u64,
    t: u64,
    f: u64,
    r2: u64,
    va2: u64,
)
    requires
        spaces_sound(st, roots),
        roots.contains(root),
        roots.contains(r2),
        owned(st, roots, root, tables),
        tables.contains(t),
        table_at(st.ram, root, va, 1) == Some(t),
        present(entry(st.ram, t, level_index(va, 1))),
        f % 4096 == 0,
        f <= 0x000F_FFFF_FFFF_F000,
        entry(s.ram, t, level_index(va, 1)) == relinked(f, entry(st.ram, t, level_index(va, 1))),
        forall|u: u64, k: int|
            #![trigger entry(s.ram, u, k)]
            table_sound(st, u) && 0 <= k < 512 && (u != t || k != level_index(va, 1)) ==> entry(
                s.ram,
                u,
                k,
            ) == entry(st.ram, u, k),
    ensures
        leaf_kept(st, s, root, va, r2, va2),
        r2 == root && same_page(va, va2) ==> translate(s.ram, root, va2) == Some(
            f | (va2 & 0xFFF),
        ),
{
    if r2 == root && same_page(va, va2) {
        assert(same_turns(va, va2, 1));
        lemma_same_tables(st.ram, root, va, va2, 1);
        assert(level_index(va, 1) == level_index(va2, 1));
    }
    let idx = level_index(va, 1);
    let e = entry(st.ram, t, idx);
    let here = reads(st.ram, r2, va2, 1, t, idx);
    lemma_relinked(f, e);
    lemma_rest_of_walk(st, s, roots, root, va, t, idx, 1, r2, va2);
    if here {
        lemma_walk(st.ram, r2, va2);
        lemma_walk(s.ram, r2, va2);
        assert(table_at(st.ram, r2, va2, 4) is Some);
        assert(table_at(st.ram, r2, va2, 3) is Some);
        assert(table_at(st.ram, r2, va2, 2) is Some);
        assert(pml4e(s.ram, r2, va2) == pml4e(st.ram, r2, va2));
        assert(pdpte(s.ram, r2, va2) == pdpte(st.ram, r2, va2));
        assert(pde(s.ram, r2, va2) == pde(st.ram, r2, va2));
        assert(pte(st.ram, r2, va2) == e);
        assert(pte(s.ram, r2, va2) == relinked(f, e));
        assert forall|m: int| 1 <= m <= 4 implies #[trigger] table_at(s.ram, r2, va2, m)
            == table_at(st.ram, r2, va2, m) by {
            assert(m == 1 || m == 2 || m == 3 || m == 4);
        }
        assert(r2 == root) by {
            reveal(owned);
            assert(table_at(st.ram, r2, va2, 1) is Some);
        }
        assert(same_turns(va, va2, 1)) by {
            reveal(spaces_sound);
            assert(same_place(root, va, r2, va2, 1));
        }
        assert(same_page(va, va2));
    } else {
        lemma_same_walk(st.ram, s.ram, r2, va2);
        lemma_same_access(st.ram, s.ram, r2, va2);
    }
}

/// The leaf of `va` changed in a table that only `root` reaches.
#[verifier::spinoff_prover]
proof fn lemma_leaf_private(
    st: PhysState,
    roots: Set<u64>,
    root: u64,
    tables: Seq<u64>,
    va: u64,
    t: u64,
    page: Seq<u8>,
)
    requires
        spaces_sound(st, roots),
        roots.contains(root),
        owned(st, roots, root, tables),
        tables.contains(t),
        table_at(st.ram, root, va, 1) == Some(t),
        present(entry(st.ram, t, level_index(va, 1))),
        page.len() == 4096,
        alloc_page(st).1 is Some,
    ensures
        ({
            let s = with_page(st, t, level_index(va, 1), page);
            let f = alloc_page(st).1->Some_0;
            &&& spaces_sound(s, roots)
            &&& owned(s, roots, root, tables)
            &&& new_page(st, s, f, page)
            &&& leads(s.ram, root, va, f)
            &&& only_page_moved(st.ram, s.ram, roots, root, va)
        }),
{
    let idx = level_index(va, 1);
    let s = with_page(st, t, idx, page);
    let f = alloc_page(st).1->Some_0;
    assert(memory_sound(st) && table_sound(st, t)) by {
        reveal(spaces_sound);
        assert(table_at(st.ram, root, va, 1) is Some);
    }
    lemma_with_page(st, t, idx, page);
    assert forall|r2: u64, va2: u64| roots.contains(r2) implies #[trigger] leaf_kept(
        st,
        s,
        root,
        va,
        r2,
        va2,
    ) by {
        lemma_leaf_kept(st, s, roots, root, tables, va, t, f, r2, va2);
    }
    assert forall|va2: u64| same_page(va, va2) implies #[trigger] translate(s.ram, root, va2)
        == Some(f | (va2 & 0xFFF)) by {
        lemma_leaf_kept(st, s, roots, root, tables, va, t, f, root, va2);
    }
    assert(spaces_sound(s, roots)) by {
        reveal(spaces_sound);
        assert forall|r: u64, v: u64, m: int|
            roots.contains(r) && 1 <= m <= 4 && table_at(s.ram, r, v, m) is Some implies table_sound(
            s,
            (#[trigger] table_at(s.ram, r, v, m))->Some_0,
        ) by {
            assert(leaf_kept(st, s, root, va, r, v));
            assert(table_sound(st, table_at(st.ram, r, v, m)->Some_0));
        }
        assert forall|r: u64, v: u64, m: int, r2: u64, v2: u64, m2: int|
            roots.contains(r) && roots.contains(r2) && 1 <= m <= 4 && 1 <= m2 <= 4 && table_at(
                s.ram,
                r,
                v,
                m,
            ) is Some && #[trigger] table_at(s.ram, r, v, m) == #[trigger] table_at(
                s.ram,
                r2,
                v2,
                m2,
            ) implies m == m2 && same_place(r, v, r2, v2, m) by {
            assert(leaf_kept(st, s, root, va, r, v));
            assert(leaf_kept(st, s, root, va, r2, v2));
            assert(table_at(st.ram, r, v, m) == table_at(st.ram, r2, v2, m2));
        }
    }
    assert(owned(s, roots, root, tables)) by {
        reveal(owned);
        assert forall|r2: u64, va2: u64, m: int|
            roots.contains(r2) && 1 <= m <= 4 && table_at(s.ram, r2, va2, m) is Some
                && tables.contains((#[trigger] table_at(s.ram, r2, va2, m))->Some_0) implies r2
            == root by {
            assert(leaf_kept(st, s, root, va, r2, va2));
            assert(table_at(st.ram, r2, va2, m) is Some);
        }
    }
    assert(only_page_moved(st.ram, s.ram, roots, root, va)) by {
        reveal(only_page_moved);
        assert forall|r2: u64, va2: u64|
            roots.contains(r2) implies #[trigger] translate(s.ram, r2, va2) == translate(
            st.ram,
            r2,
            va2,
        ) || (r2 == root && same_page(va, va2)) by {
            assert(leaf_kept(st, s, root, va, r2, va2));
        }
        assert forall|r2: u64, va2: u64|
            roots.contains(r2) implies #[trigger] same_access(st.ram, s.ram, r2, va2) by {
            assert(leaf_kept(st, s, root, va, r2, va2));
        }
    }
}

/// Every address of the address spaces `roots` has the same access in both memories, and
/// leads to the same place unless it lies in the page of `va` of the address space
/// `root`.
#[verifier::opaque]
pub open spec fn only_page_moved(
    a: Seq<u8>,
    b: Seq<u8>,
    roots: Set<u64>,
    root: u64,
    va: u64,
) -> bool {
    &&& forall|r2: u64, va2: u64|
        roots.contains(r2) ==> #[trigger] translate(b, r2, va2) == translate(a, r2, va2) || (r2
            == root && same_page(va, va2))
    &&& forall|r2: u64, va2: u64| roots.contains(r2) ==> #[trigger] same_access(a, b, r2, va2)
}

proof fn lemma_moved_after(
    a: Seq<u8>,
    b: Seq<u8>,
    c: Seq<u8>,
    roots: Set<u64>,
    root: u64,
    va: u64,
)
    requires
        same_mappings(a, b, roots),
        only_page_moved(b, c, roots, root, va),
    ensures
        only_page_moved(a, c, roots, root, va),
{
    reveal(same_mappings);
    reveal(only_page_moved);
    assert forall|r2: u64, va2: u64|
        roots.contains(r2) implies #[trigger] translate(c, r2, va2) == translate(a, r2, va2) || (r2
        == root && same_page(va, va2)) by {
        assert(translate(b, r2, va2) == translate(a, r2, va2));
    }
    assert forall|r2: u64, va2: u64| roots.contains(r2) implies #[trigger] same_access(
        a,
        c,
        r2,
        va2,
    ) by {
        assert(translate(b, r2, va2) == translate(a, r2, va2));
        assert(same_access(b, c, r2, va2));
    }
}

/// The record `rec` describes the private tables of `root` below entry `slot`: that entry
/// leads to the record's PDPT, the tables are in use, and no other address space reaches
/// them.
pub open spec fn private_record(
    st: PhysState,
    roots: Set<u64>,
    root: u64,
    rec: PrivState,
    slot: int,
) -> bool {
    &&& owned(st, roots, root, rec.tables)
    &&& rec.tables.contains(rec.pdpt)
    &&& forall|i: int| 0 <= i < rec.tables.len() ==> table_sound(st, #[trigger] rec.tables[i])
    &&& present(entry(st.ram, root, slot))
    &&& entry(st.ram, root, slot) & ADDR_MASK == rec.pdpt
}

/// The page of `va` in the address space `root` has become private: it is a new frame, the
/// last of the record's, that holds `page`. Nothing else has moved, and the access is the
/// same everywhere.
pub open spec fn page_private(
    st: PhysState,
    rec: PrivState,
    s: PhysState,
    r: PrivState,
    roots: Set<u64>,
    root: u64,
    va: u64,
    page: Seq<u8>,
) -> bool {
    let f = r.frames.last();
    &&& r.frames == rec.frames.push(f)
    &&& new_page(st, s, f, page)
    &&& leads(s.ram, root, va, f)
    &&& only_page_moved(st.ram, s.ram, roots, root, va)
}

/// What becomes of the record and of the frames in use.
spec fn record_grown(st: PhysState, rec: PrivState, s: PhysState, r: PrivState, root: u64) -> bool {
    &&& r.pdpt == rec.pdpt
    &&& forall|x: u64| rec.tables.contains(x) ==> #[trigger] r.tables.contains(x)
    &&& forall|i: int| 0 <= i < r.tables.len() ==> table_sound(s, #[trigger] r.tables[i])
    &&& forall|i: int|
        0 <= i < r.tables.len() ==> frame(#[trigger] r.tables[i]) != frame(r.frames.last())
    &&& forall|k: int| 0 <= k < st.bits.len() && st.bits[k] ==> #[trigger] s.bits[k]
    &&& forall|k: int|
        0 <= k < 512 ==> #[trigger] entry(s.ram, root, k) == entry(st.ram, root, k)
}

/// Taking a frame leaves the entries of a table in use alone.
proof fn lemma_entries_stay(st: PhysState, t: u64)
    requires
        memory_sound(st),
        table_sound(st, t),
        alloc_page(st).1 is Some,
    ensures
        table_entries(alloc_page(st).0.ram, t) == table_entries(st.ram, t),
{
    let s1 = alloc_page(st).0;
    next_free_is_free(st.bits, st.hint);
    assert forall|k: int| 0 <= k < 512 implies entry(s1.ram, t, k) == entry(st.ram, t, k) by {
        lemma_same_word(s1.ram, st.ram, t + 8 * k);
    }
    assert(table_entries(s1.ram, t) =~= table_entries(st.ram, t));
}

#[verifier::spinoff_prover]
#[verifier::rlimit(60)]
proof fn lemma_private(
    st: PhysState,
    roots: Set<u64>,
    root: u64,
    rec: PrivState,
    parent: u64,
    l: int,
    va: u64,
    seed: Seq<u8>,
)
    requires
        spaces_sound(st, roots),
        roots.contains(root),
        owned(st, roots, root, rec.tables),
        forall|i: int| 0 <= i < rec.tables.len() ==> table_sound(st, #[trigger] rec.tables[i]),
        rec.tables.contains(parent),
        1 <= l <= 3,
        table_at(st.ram, root, va, l) == Some(parent),
        seed.len() >= 4096,
        privatize_from(st, rec, parent, l, va, seed).2,
    ensures
        ({
            let (s, r, ok) = privatize_from(st, rec, parent, l, va, seed);
            &&& spaces_sound(s, roots)
            &&& owned(s, roots, root, r.tables)
            &&& page_private(st, rec, s, r, roots, root, va, seed.take(4096))
            &&& record_grown(st, rec, s, r, root)
        }),
    decreases l,
{
    reveal_with_fuel(privatize_from, 1);
    let idx = level_index(va, l);
    let e = entry(st.ram, parent, idx);
    let (s1, fresh) = alloc_page(st);
    let (s, r, ok) = privatize_from(st, rec, parent, l, va, seed);
    assert(memory_sound(st) && table_sound(st, root) && parent != root) by {
        reveal(spaces_sound);
        assert(table_at(st.ram, root, va, 4) == Some(root));
        assert(table_at(st.ram, root, va, l) is Some);
    }
    if l == 1 {
        let page = seed.take(4096);
        lemma_leaf_private(st, roots, root, rec.tables, va, parent, page);
        lemma_with_page(st, parent, idx, page);
        assert(s == with_page(st, parent, idx, page));
        assert(r.frames.last() == fresh->Some_0);
    } else {
        let old_child = e & ADDR_MASK;
        if !large(e) {
            assert(table_at(st.ram, root, va, l - 1) == Some(old_child)) by {
                lemma_walk(st.ram, root, va);
            }
        }
        if !large(e) && rec.tables.contains(old_child) {
            lemma_private(st, roots, root, rec, old_child, l - 1, va, seed);
        } else {
            let t = fresh->Some_0;
            let (link, entries) = stand_in(st.ram, e, l, t);
            let s3 = grow(st, parent, idx, link, entries);
            let rec2 = PrivState { tables: rec.tables.push(t), ..rec };
            lemma_own_table(st, roots, root, rec.tables, va, l, parent);
            lemma_relinked(t, e);
            lemma_link_to(t, e);
            if !large(e) {
                assert(table_sound(st, old_child)) by {
                    reveal(spaces_sound);
                    assert(table_at(st.ram, root, va, l - 1) is Some);
                }
                lemma_entries_stay(st, old_child);
            }
            assert((s, r, ok) == privatize_from(s3, rec2, t, l - 1, va, seed));
            assert(rec2.tables[rec.tables.len() as int] == t);
            assert forall|i: int| 0 <= i < rec2.tables.len() implies table_sound(
                s3,
                #[trigger] rec2.tables[i],
            ) by {
                if i < rec.tables.len() {
                    assert(table_sound(st, rec.tables[i]));
                }
            }
            lemma_private(s3, roots, root, rec2, t, l - 1, va, seed);
            lemma_moved_after(st.ram, s3.ram, s.ram, roots, root, va);
            assert forall|x: u64| rec.tables.contains(x) implies #[trigger] r.tables.contains(
                x,
            ) by {
                let i = choose|i: int| 0 <= i < rec.tables.len() && rec.tables[i] == x;
                assert(rec2.tables[i] == x);
                assert(rec2.tables.contains(x));
            }
        }
    }
}

/// Giving a page of a sound address space its own copy: afterwards the page of `va` is a
/// new frame that holds the first page of `seed`, and every other address, of this
/// address space and of every other, leads where it led. The access is the same
/// everywhere, the address spaces stay sound, and the record still describes the private
/// tables.
pub proof fn a_private_page_moves_no_other(
    st: PhysState,
    roots: Set<u64>,
    root: u64,
    rec: PrivState,
    va: u64,
    seed: Seq<u8>,
)
    requires
        spaces_sound(st, roots),
        roots.contains(root),
        private_record(st, roots, root, rec, level_index(va, 4)),
        seed.len() >= 4096,
        privatize_from(st, rec, rec.pdpt, 3, va, seed).2,
    ensures
        ({
            let (s, r, ok) = privatize_from(st, rec, rec.pdpt, 3, va, seed);
            &&& spaces_sound(s, roots)
            &&& private_record(s, roots, root, r, level_index(va, 4))
            &&& page_private(st, rec, s, r, roots, root, va, seed.take(4096))
        }),
{
    lemma_first_page(st, roots, root, rec, va, seed);
}

/// A private copy of the PDPT changes no mapping: every address of every address space
/// leads where it led, with the same access, and the record describes the private
/// tables, of which there is one.
pub proof fn a_private_directory_moves_nothing(
    st: PhysState,
    roots: Set<u64>,
    root: u64,
    rec: PrivState,
    slot: int,
)
    requires
        spaces_sound(st, roots),
        roots.contains(root),
        0 <= slot < 512,
        rec.pdpt == 0,
        rec.tables.len() == 0,
        ensure_pdpt(st, rec, root, slot).2,
    ensures
        ({
            let (s, r, ok) = ensure_pdpt(st, rec, root, slot);
            &&& spaces_sound(s, roots)
            &&& same_mappings(st.ram, s.ram, roots)
            &&& private_record(s, roots, root, r, slot)
            &&& r.frames == rec.frames
            &&& s.bits.len() == st.bits.len()
            &&& forall|k: int| 0 <= k < st.bits.len() && st.bits[k] ==> #[trigger] s.bits[k]
        }),
{
    let va = (slot * 0x80_0000_0000) as u64;
    assert(level_index(va, 4) == slot);
    let e = entry(st.ram, root, slot);
    let old_child = e & ADDR_MASK;
    let t = alloc_page(st).1->Some_0;
    let (s, r, ok) = ensure_pdpt(st, rec, root, slot);
    let (link, entries) = stand_in(st.ram, e, 4, t);
    assert(owned(st, roots, root, rec.tables)) by {
        reveal(owned);
    }
    assert(table_at(st.ram, root, va, 3) == Some(old_child)) by {
        lemma_walk(st.ram, root, va);
    }
    assert(memory_sound(st) && table_sound(st, old_child)) by {
        reveal(spaces_sound);
        assert(table_at(st.ram, root, va, 3) is Some);
    }
    lemma_own_table(st, roots, root, rec.tables, va, 4, root);
    lemma_relinked(t, e);
    lemma_entries_stay(st, old_child);
    assert(s == grow(st, root, slot, link, entries));
    assert(r.tables[0] == t);
}

/// How many pages from `page` on reach into what lies below `end`.
pub open spec fn pages_to(page: int, end: int) -> int {
    if page < end {
        (end - page + 0xFFF) / 0x1000
    } else {
        0
    }
}

/// `va2` lies in one of the `n` pages from `page` on.
pub open spec fn in_range(page: int, n: int, va2: u64) -> bool {
    exists|k: int| 0 <= k < n && same_page(#[trigger] page_after(page, k), va2)
}

/// Page `k` from `page` on.
pub open spec fn page_after(page: int, k: int) -> u64 {
    (page + k * 0x1000) as u64
}

/// The `n` pages from `page` on have become private in the address space `root`: each is
/// a new frame of the record, with its page of `seed`. Nothing else has moved, and the
/// access is the same everywhere.
#[verifier::opaque]
pub open spec fn pages_private(
    st: PhysState,
    rec: PrivState,
    s: PhysState,
    r: PrivState,
    roots: Set<u64>,
    root: u64,
    page: int,
    n: int,
    seed: Seq<u8>,
) -> bool {
    let had = rec.frames.len();
    &&& r.frames.len() == had + n
    &&& forall|i: int| 0 <= i < had ==> #[trigger] r.frames[i] == rec.frames[i]
    &&& forall|k: int|
        0 <= k < n ==> #[trigger] leads(s.ram, root, page_after(page, k), r.frames[had + k])
    &&& forall|k: int|
        0 <= k < n ==> new_page(
            st,
            s,
            #[trigger] r.frames[had + k],
            seed.subrange(k * 0x1000, k * 0x1000 + 0x1000),
        )
    &&& forall|r2: u64, va2: u64|
        roots.contains(r2) ==> #[trigger] translate(s.ram, r2, va2) == translate(st.ram, r2, va2)
            || (r2 == root && in_range(page, n, va2))
    &&& forall|r2: u64, va2: u64|
        roots.contains(r2) ==> #[trigger] same_access(st.ram, s.ram, r2, va2)
}

/// Pages below one entry of a root take different turns.
proof fn lemma_pages_apart(a: u64, b: u64)
    requires
        a as int / 0x80_0000_0000 == b as int / 0x80_0000_0000,
        a as int / 0x1000 != b as int / 0x1000,
    ensures
        !same_page(a, b),
{
    if same_page(a, b) {
        assert(level_index(a, 1) == level_index(b, 1));
        assert(level_index(a, 2) == level_index(b, 2));
        assert(level_index(a, 3) == level_index(b, 3));
        lemma_parts(a);
        lemma_parts(b);
    }
}

proof fn lemma_parts(a: u64)
    ensures
        a as int / 0x1000 == (((a as int / 0x80_0000_0000) * 512 + level_index(a, 3)) * 512
            + level_index(a, 2)) * 512 + level_index(a, 1),
{
    let v = a as int;
    lemma_div_denominator(v, 0x1000, 512);
    lemma_div_denominator(v, 0x20_0000, 512);
    lemma_div_denominator(v, 0x4000_0000, 512);
}

/// A page made private stays as it is when others are.
proof fn lemma_page_stays(
    s1: PhysState,
    r1: PrivState,
    base: int,
    page: int,
    end: int,
    seed: Seq<u8>,
    st: PhysState,
    f: u64,
    bytes: Seq<u8>,
)
    requires
        memory_sound(s1),
        new_page(st, s1, f, bytes),
        forall|i: int| 0 <= i < r1.tables.len() ==> table_sound(s1, #[trigger] r1.tables[i]),
        forall|i: int| 0 <= i < r1.tables.len() ==> frame(#[trigger] r1.tables[i]) != frame(f),
        r1.tables.contains(r1.pdpt),
        base <= page,
        base % 0x1000 == 0,
        page % 0x1000 == 0,
        ((end - base + 0xFFF) / 0x1000) * 0x1000 <= seed.len(),
    ensures
        ({
            let (s, r, ok) = privatize_range(s1, r1, base, page, end, seed);
            new_page(st, s, f, bytes)
        }),
{
    let (s, r, ok) = privatize_range(s1, r1, base, page, end, seed);
    let j = choose|j: int| 0 <= j < r1.tables.len() && r1.tables[j] == r1.pdpt;
    assert(table_sound(s1, r1.tables[j]));
    lemma_range_took(s1, r1, base, page, end, seed, f as int);
    assert forall|b: int| f <= b < f + 4096 implies s.ram[b] == s1.ram[b] by {
        assert(b / 4096 == frame(f));
        assert(foreign(s1, r1, b));
        lemma_range_took(s1, r1, base, page, end, seed, b);
    }
    assert(s.ram.subrange(f as int, f + 4096) =~= s1.ram.subrange(f as int, f + 4096));
}

/// One page made private, and those behind it.
#[verifier::spinoff_prover]
#[verifier::rlimit(60)]
proof fn lemma_pages_join(
    st: PhysState,
    rec: PrivState,
    s1: PhysState,
    r1: PrivState,
    s: PhysState,
    r: PrivState,
    roots: Set<u64>,
    root: u64,
    page: int,
    n: int,
    rest: Seq<u8>,
)
    requires
        0 <= page,
        page % 0x1000 == 0,
        n >= 1,
        page + n * 0x1000 <= u64::MAX,
        page / 0x80_0000_0000 == (page + (n - 1) * 0x1000) / 0x80_0000_0000,
        n * 0x1000 <= rest.len(),
        roots.contains(root),
        page_private(st, rec, s1, r1, roots, root, page as u64, rest.take(0x1000)),
        pages_private(s1, r1, s, r, roots, root, page + 0x1000, n - 1, rest.skip(0x1000)),
        new_page(st, s, r1.frames.last(), rest.take(0x1000)),
        forall|k: int| 0 <= k < st.bits.len() && st.bits[k] ==> #[trigger] s1.bits[k],
    ensures
        pages_private(st, rec, s, r, roots, root, page, n, rest),
{
    reveal(pages_private);
    let had = rec.frames.len();
    let f = r1.frames.last();
    assert(r1.frames[had as int] == f);
    assert(r.frames[had as int] == f);
    assert forall|i: int| 0 <= i < had implies #[trigger] r.frames[i] == rec.frames[i] by {
        assert(r1.frames[i] == rec.frames[i]);
    }
    assert forall|k: int| 0 <= k < n implies #[trigger] leads(
        s.ram,
        root,
        page_after(page, k),
        r.frames[had + k],
    ) by {
        if k == 0 {
            assert forall|va2: u64| same_page(page as u64, va2) implies #[trigger] translate(
                s.ram,
                root,
                va2,
            ) == Some(f | (va2 & 0xFFF)) by {
                assert(translate(s1.ram, root, va2) == Some(f | (va2 & 0xFFF)));
                if in_range(page + 0x1000, n - 1, va2) {
                    let j = choose|j: int|
                        0 <= j < n - 1 && same_page(
                            #[trigger] page_after(page + 0x1000, j),
                            va2,
                        );
                    let q = page_after(page + 0x1000, j);
                    assert(q == page + 0x1000 + j * 0x1000);
                    assert forall|m: int| 0 < m <= 4 implies #[trigger] level_index(
                        page as u64,
                        m,
                    ) == level_index(q, m) by {
                        assert(level_index(page as u64, m) == level_index(va2, m));
                        assert(level_index(q, m) == level_index(va2, m));
                    }
                    lemma_pages_apart(page as u64, q);
                }
            }
        } else {
            assert(page_after(page, k) == page_after(page + 0x1000, k - 1));
            assert(r.frames[had + k] == r.frames[r1.frames.len() + (k - 1)]);
            assert(leads(
                s.ram,
                root,
                page_after(page + 0x1000, k - 1),
                r.frames[r1.frames.len() + (k - 1)],
            ));
        }
    }
    assert forall|k: int| 0 <= k < n implies new_page(
        st,
        s,
        #[trigger] r.frames[had + k],
        rest.subrange(k * 0x1000, k * 0x1000 + 0x1000),
    ) by {
        if k == 0 {
            assert(rest.subrange(0, 0x1000) =~= rest.take(0x1000));
        } else {
            let j = k - 1;
            let g = r.frames[r1.frames.len() + j];
            assert(g == r.frames[had + k]);
            assert(rest.skip(0x1000).subrange(j * 0x1000, j * 0x1000 + 0x1000) =~= rest.subrange(
                k * 0x1000,
                k * 0x1000 + 0x1000,
            ));
            assert(new_page(s1, s, g, rest.subrange(k * 0x1000, k * 0x1000 + 0x1000)));
        }
    }
    reveal(only_page_moved);
    assert forall|r2: u64, va2: u64| roots.contains(r2) implies #[trigger] translate(
        s.ram,
        r2,
        va2,
    ) == translate(st.ram, r2, va2) || (r2 == root && in_range(page, n, va2)) by {
        assert(translate(s1.ram, r2, va2) == translate(st.ram, r2, va2) || (r2 == root
            && same_page(page as u64, va2)));
        if r2 == root && same_page(page as u64, va2) {
            assert(page_after(page, 0) == page as u64);
            assert(in_range(page, n, va2));
        } else if r2 == root && in_range(page + 0x1000, n - 1, va2) {
            let j = choose|j: int|
                0 <= j < n - 1 && same_page(#[trigger] page_after(page + 0x1000, j), va2);
            assert(page_after(page, j + 1) == page_after(page + 0x1000, j));
            assert(in_range(page, n, va2));
        }
    }
    assert forall|r2: u64, va2: u64| roots.contains(r2) implies #[trigger] same_access(
        st.ram,
        s.ram,
        r2,
        va2,
    ) by {
        assert(same_access(st.ram, s1.ram, r2, va2));
        assert(same_access(s1.ram, s.ram, r2, va2));
        assert(translate(s1.ram, r2, va2) == translate(st.ram, r2, va2) || translate(
            s1.ram,
            r2,
            va2,
        ) is Some);
    }
}

/// No page has become private where nothing has changed.
proof fn lemma_no_pages(
    st: PhysState,
    rec: PrivState,
    roots: Set<u64>,
    root: u64,
    page: int,
    seed: Seq<u8>,
)
    ensures
        pages_private(st, rec, st, rec, roots, root, page, 0, seed),
{
    reveal(pages_private);
}

/// The first page of a range.
proof fn lemma_first_page(
    st: PhysState,
    roots: Set<u64>,
    root: u64,
    rec: PrivState,
    va: u64,
    rest: Seq<u8>,
)
    requires
        spaces_sound(st, roots),
        roots.contains(root),
        private_record(st, roots, root, rec, level_index(va, 4)),
        rest.len() >= 4096,
        privatize_from(st, rec, rec.pdpt, 3, va, rest).2,
    ensures
        ({
            let (s1, r1, ok1) = privatize_from(st, rec, rec.pdpt, 3, va, rest);
            &&& spaces_sound(s1, roots)
            &&& memory_sound(s1)
            &&& private_record(s1, roots, root, r1, level_index(va, 4))
            &&& page_private(st, rec, s1, r1, roots, root, va, rest.take(4096))
            &&& record_grown(st, rec, s1, r1, root)
        }),
{
    lemma_walk(st.ram, root, va);
    lemma_private(st, roots, root, rec, rec.pdpt, 3, va, rest);
    reveal(spaces_sound);
}

#[verifier::spinoff_prover]
#[verifier::rlimit(40)]
proof fn lemma_range_private(
    st: PhysState,
    roots: Set<u64>,
    root: u64,
    rec: PrivState,
    slot: int,
    base: int,
    page: int,
    end: int,
    seed: Seq<u8>,
)
    requires
        spaces_sound(st, roots),
        roots.contains(root),
        private_record(st, roots, root, rec, slot),
        0 <= base <= page,
        base % 0x1000 == 0,
        page % 0x1000 == 0,
        end <= u64::MAX - 0xFFF,
        page < end ==> page / 0x80_0000_0000 == (end - 1) / 0x80_0000_0000,
        page < end ==> (page / 0x80_0000_0000) % 512 == slot,
        ((end - base + 0xFFF) / 0x1000) * 0x1000 <= seed.len(),
        page - base <= seed.len(),
        privatize_range(st, rec, base, page, end, seed).2,
    ensures
        ({
            let (s, r, ok) = privatize_range(st, rec, base, page, end, seed);
            &&& spaces_sound(s, roots)
            &&& private_record(s, roots, root, r, slot)
            &&& pages_private(
                st,
                rec,
                s,
                r,
                roots,
                root,
                page,
                pages_to(page, end),
                seed.skip(page - base),
            )
        }),
    decreases end + 0x1000 - page,
{
    let (s, r, ok) = privatize_range(st, rec, base, page, end, seed);
    let n = pages_to(page, end);
    let rest = seed.skip(page - base);
    if page < end {
        let va = page as u64;
        let (s1, r1, ok1) = privatize_from(st, rec, rec.pdpt, 3, va, rest);
        assert(level_index(va, 4) == slot);
        assert(rest.len() >= 4096);
        lemma_first_page(st, roots, root, rec, va, rest);
        let next = page + 0x1000;
        if next < end {
            assert(next / 0x80_0000_0000 == (end - 1) / 0x80_0000_0000);
        }
        lemma_range_private(s1, roots, root, r1, slot, base, next, end, seed);
        lemma_page_stays(
            s1,
            r1,
            base,
            next,
            end,
            seed,
            st,
            r1.frames.last(),
            rest.take(4096),
        );
        assert(pages_to(next, end) == n - 1);
        assert(seed.skip(next - base) =~= rest.skip(0x1000));
        assert(n * 0x1000 <= rest.len());
        lemma_pages_join(st, rec, s1, r1, s, r, roots, root, page, n, rest);
    } else {
        lemma_no_pages(st, rec, roots, root, page, rest);
    }
}

/// Pages made private after a step that changed no mapping and took frames only.
proof fn lemma_pages_after(
    st: PhysState,
    rec: PrivState,
    s1: PhysState,
    r1: PrivState,
    s: PhysState,
    r: PrivState,
    roots: Set<u64>,
    root: u64,
    page: int,
    n: int,
    seed: Seq<u8>,
)
    requires
        same_mappings(st.ram, s1.ram, roots),
        r1.frames == rec.frames,
        s1.bits.len() == st.bits.len(),
        forall|k: int| 0 <= k < st.bits.len() && st.bits[k] ==> #[trigger] s1.bits[k],
        pages_private(s1, r1, s, r, roots, root, page, n, seed),
    ensures
        pages_private(st, rec, s, r, roots, root, page, n, seed),
{
    reveal(same_mappings);
    reveal(pages_private);
    let had = rec.frames.len();
    assert forall|k: int| 0 <= k < n implies new_page(
        st,
        s,
        #[trigger] r.frames[had + k],
        seed.subrange(k * 0x1000, k * 0x1000 + 0x1000),
    ) by {
        assert(new_page(
            s1,
            s,
            r.frames[r1.frames.len() + k],
            seed.subrange(k * 0x1000, k * 0x1000 + 0x1000),
        ));
    }
    assert forall|r2: u64, va2: u64| roots.contains(r2) implies #[trigger] translate(
        s.ram,
        r2,
        va2,
    ) == translate(st.ram, r2, va2) || (r2 == root && in_range(page, n, va2)) by {
        assert(translate(s1.ram, r2, va2) == translate(st.ram, r2, va2));
    }
    assert forall|r2: u64, va2: u64| roots.contains(r2) implies #[trigger] same_access(
        st.ram,
        s.ram,
        r2,
        va2,
    ) by {
        assert(translate(s1.ram, r2, va2) == translate(st.ram, r2, va2));
        assert(same_access(s1.ram, s.ram, r2, va2));
    }
}

/// Giving a process private copies of the pages of a range, all below one entry of its
/// root: each of them becomes a new frame of the record that holds its page of `seed`,
/// whatever the process shared before. Every other address, of this address space and of
/// every other, leads where it led, and the access is the same everywhere.
pub proof fn private_pages_hold_their_seed(
    st: PhysState,
    roots: Set<u64>,
    root: u64,
    rec: PrivState,
    window: u64,
    va: u64,
    len: int,
    seed: Seq<u8>,
)
    requires
        spaces_sound(st, roots),
        roots.contains(root),
        if rec.pdpt == 0 {
            rec.tables.len() == 0
        } else {
            private_record(st, roots, root, rec, level_index(window, 4))
        },
        0 < len,
        va + len <= u64::MAX - 0xFFF,
        va as int / 0x80_0000_0000 == (va + len - 1) / 0x80_0000_0000,
        level_index(va, 4) == level_index(window, 4),
        ((va % 0x1000 + len + 0xFFF) / 0x1000) * 0x1000 <= seed.len(),
        privatize_pages(st, rec, window, root, va, len, seed).2,
    ensures
        ({
            let (s, r, ok) = privatize_pages(st, rec, window, root, va, len, seed);
            let base = va as int / 0x1000 * 0x1000;
            &&& spaces_sound(s, roots)
            &&& private_record(s, roots, root, r, level_index(window, 4))
            &&& pages_private(
                st,
                rec,
                s,
                r,
                roots,
                root,
                base,
                pages_to(base, va + len),
                seed,
            )
        }),
{
    let slot = level_index(window, 4);
    let base = va as int / 0x1000 * 0x1000;
    let (s1, r1, ok1) = ensure_pdpt(st, rec, root, slot);
    let (s, r, ok) = privatize_pages(st, rec, window, root, va, len, seed);
    if rec.pdpt == 0 {
        a_private_directory_moves_nothing(st, roots, root, rec, slot);
    } else {
        assert(same_mappings(st.ram, s1.ram, roots)) by {
            reveal(same_mappings);
        }
    }
    assert(base / 0x80_0000_0000 == va as int / 0x80_0000_0000);
    lemma_range_private(s1, roots, root, r1, slot, base, base, va + len, seed);
    assert(seed.skip(0) =~= seed);
    lemma_pages_after(st, rec, s1, r1, s, r, roots, root, base, pages_to(base, va + len), seed);
}

} // verus!
