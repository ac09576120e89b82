//! Splitting a large page into smaller ones changes no mapping.
use crate::bytes::lemma_bytes64;
use crate::mm::isolation::{
    lemma_same_walk, lemma_table_reads_back, lemma_walk, same_place, same_turns, spaces_sound,
    table_at,
};
use crate::mm::laws::{
    frame, lemma_same_word, lemma_word_frame, memory_sound, table_sound, word_reads_back,
};
use crate::mm::phys::{alloc_page, next_free, next_free_is_free, PhysState};
use crate::mm::space::split_entries;
use crate::mm::virt::{
    entry, large, level_index, pde, pdpte, pml4e, present, pte, set_entry, split_entry, split_path,
    translate, user, user_mapped, with_table, ADDR_MASK, ENTRY_LARGE, ENTRY_NX, ENTRY_PRESENT,
    ENTRY_RW, ENTRY_USER, FLAG_MASK,
};
use vstd::prelude::*;

verus! {

/// What an entry, or a whole walk, allows.
pub struct Rights {
    pub user: bool,
    pub writable: bool,
    pub executable: bool,
}

/// What one entry allows.
pub open spec fn grants(e: u64) -> Rights {
    Rights {
        user: user(e),
        writable: e & ENTRY_RW != 0,
        executable: e & ENTRY_NX == 0,
    }
}

/// What is allowed both times.
pub open spec fn both(a: Rights, b: Rights) -> Rights {
    Rights {
        user: a.user && b.user,
        writable: a.writable && b.writable,
        executable: a.executable && b.executable,
    }
}

/// What the entries on the way to the page of `va` allow together.
pub open spec fn rights(ram: Seq<u8>, root: u64, va: u64) -> Rights {
    let upper = both(grants(pml4e(ram, root, va)), grants(pdpte(ram, root, va)));
    if large(pdpte(ram, root, va)) {
        upper
    } else if large(pde(ram, root, va)) {
        both(upper, grants(pde(ram, root, va)))
    } else {
        both(both(upper, grants(pde(ram, root, va))), grants(pte(ram, root, va)))
    }
}

/// The same access to the page of `va`, where one is mapped.
pub open spec fn same_access(a: Seq<u8>, b: Seq<u8>, root: u64, va: u64) -> bool {
    &&& user_mapped(b, root, va) == user_mapped(a, root, va)
    &&& translate(a, root, va) is Some ==> rights(b, root, va) == rights(a, root, va)
}

/// The entry that leads to the table of finer entries at `t`.
pub open spec fn link_to(t: u64, e: u64) -> u64 {
    (t & ADDR_MASK) | ENTRY_PRESENT | (e & (ENTRY_RW | ENTRY_USER | ENTRY_NX))
}

pub proof fn lemma_link_to(t: u64, e: u64)
    by (bit_vector)
    requires
        t % 4096 == 0,
        t <= 0x000F_FFFF_FFFF_F000,
    ensures
        ((t & ADDR_MASK) | ENTRY_PRESENT | (e & (ENTRY_RW | ENTRY_USER | ENTRY_NX))) & ENTRY_PRESENT
            != 0,
        ((t & ADDR_MASK) | ENTRY_PRESENT | (e & (ENTRY_RW | ENTRY_USER | ENTRY_NX))) & ENTRY_LARGE
            == 0,
        ((t & ADDR_MASK) | ENTRY_PRESENT | (e & (ENTRY_RW | ENTRY_USER | ENTRY_NX))) & ADDR_MASK
            == t,
        ((t & ADDR_MASK) | ENTRY_PRESENT | (e & (ENTRY_RW | ENTRY_USER | ENTRY_NX))) & ENTRY_USER
            == e & ENTRY_USER,
        ((t & ADDR_MASK) | ENTRY_PRESENT | (e & (ENTRY_RW | ENTRY_USER | ENTRY_NX))) & ENTRY_RW
            == e & ENTRY_RW,
        ((t & ADDR_MASK) | ENTRY_PRESENT | (e & (ENTRY_RW | ENTRY_USER | ENTRY_NX))) & ENTRY_NX
            == e & ENTRY_NX,
        t & ADDR_MASK == t,
{
}

proof fn lemma_giant_part(e: u64, va: u64, i: u64, x: u64)
    by (bit_vector)
    requires
        i == (va / 0x20_0000u64) % 512u64,
        x == (((e & ADDR_MASK & !0x3FFF_FFFFu64) + i * 0x20_0000u64) as u64) | (e & FLAG_MASK),
    ensures
        (x & ADDR_MASK & !0x1F_FFFFu64) | (va & 0x1F_FFFFu64) == (e & ADDR_MASK & !0x3FFF_FFFFu64)
            | (va & 0x3FFF_FFFFu64),
        x & ENTRY_PRESENT == e & ENTRY_PRESENT,
        x & ENTRY_LARGE == e & ENTRY_LARGE,
        x & ENTRY_USER == e & ENTRY_USER,
        x & ENTRY_RW == e & ENTRY_RW,
        x & ENTRY_NX == e & ENTRY_NX,
{
}

proof fn lemma_large_part(e: u64, va: u64, i: u64, x: u64)
    by (bit_vector)
    requires
        i == (va / 0x1000u64) % 512u64,
        x == (((e & ADDR_MASK & !0x1F_FFFFu64) + i * 0x1000u64) as u64) | (e & FLAG_MASK
            & !ENTRY_LARGE),
    ensures
        (x & ADDR_MASK) | (va & 0xFFFu64) == (e & ADDR_MASK & !0x1F_FFFFu64) | (va & 0x1F_FFFFu64),
        x & ENTRY_PRESENT == e & ENTRY_PRESENT,
        x & ENTRY_USER == e & ENTRY_USER,
        x & ENTRY_RW == e & ENTRY_RW,
        x & ENTRY_NX == e & ENTRY_NX,
{
}

/// What putting a new table below the entry at `idx` of the table at `t` does to memory:
/// the entry is `link`, the table was free and now holds `entries`, and no other entry
/// of a table in use has changed.
pub open spec fn grown(
    st: PhysState,
    s1: PhysState,
    t: u64,
    idx: int,
    child: u64,
    link: u64,
    entries: Seq<u64>,
) -> bool {
    &&& memory_sound(s1)
    &&& s1.bits.len() == st.bits.len()
    &&& forall|f: int| 0 <= f < st.bits.len() && st.bits[f] ==> #[trigger] s1.bits[f]
    &&& table_sound(s1, child)
    &&& !st.bits[frame(child)]
    &&& entry(s1.ram, t, idx) == link
    &&& forall|k: int| 0 <= k < 512 ==> #[trigger] entry(s1.ram, child, k) == entries[k]
    &&& forall|u: u64, k: int|
        #![trigger entry(s1.ram, u, k)]
        table_sound(st, u) && 0 <= k < 512 && (u != t || k != idx) ==> entry(s1.ram, u, k) == entry(
            st.ram,
            u,
            k,
        )
}

/// The state with a table of `entries` in the next free frame, and `link` in the entry
/// at `idx` of the table at `t`.
pub open spec fn grow(st: PhysState, t: u64, idx: int, link: u64, entries: Seq<u64>) -> PhysState {
    let (s0, c) = alloc_page(st);
    set_entry(
        PhysState { ram: with_table(s0.ram, c->Some_0 as int, entries), ..s0 },
        t,
        idx,
        link,
    )
}

#[verifier::spinoff_prover]
pub proof fn lemma_grown(st: PhysState, t: u64, idx: int, link: u64, entries: Seq<u64>)
    requires
        memory_sound(st),
        table_sound(st, t),
        0 <= idx < 512,
        entries.len() == 512,
        alloc_page(st).1 is Some,
    ensures
        grown(
            st,
            grow(st, t, idx, link, entries),
            t,
            idx,
            alloc_page(st).1->Some_0,
            link,
            entries,
        ),
        alloc_page(st).1->Some_0 <= 0x000F_FFFF_FFFF_F000,
        alloc_page(st).1->Some_0 % 4096 == 0,
{
    let (s0, c) = alloc_page(st);
    let child = c->Some_0;
    next_free_is_free(st.bits, st.hint);
    let f = next_free(st.bits, st.hint)->Some_0;
    assert(child == f * 4096);
    let s2 = PhysState { ram: with_table(s0.ram, child as int, entries), ..s0 };
    let at = t + 8 * idx;
    let s1 = grow(st, t, idx, link, entries);
    lemma_bytes64(link);
    assert(frame(t) != f);
    word_reads_back(s2.ram, at, link);
    assert forall|k: int| 0 <= k < 512 implies #[trigger] entry(s1.ram, child, k) == entries[k] by {
        lemma_word_frame(s2.ram, at, link, child + 8 * k);
        lemma_table_reads_back(s0.ram, child, entries, k);
    }
    assert forall|u: u64, k: int|
        #![trigger entry(s1.ram, u, k)]
        table_sound(st, u) && 0 <= k < 512 && (u != t || k != idx) implies entry(s1.ram, u, k)
        == entry(st.ram, u, k) by {
        assert(frame(u) != f);
        lemma_word_frame(s2.ram, at, link, u + 8 * k);
        lemma_same_word(s2.ram, st.ram, u + 8 * k);
    }
}

/// The walk to `va2` reads the entry at `idx` of the table at `t`, which is of level `l`.
pub open spec fn reads(ram: Seq<u8>, r2: u64, va2: u64, l: int, t: u64, idx: int) -> bool {
    table_at(ram, r2, va2, l) == Some(t) && level_index(va2, l) == idx
}

/// The same page is mapped at `va2`, with the same access, and the walk meets the same
/// tables, but for the new one.
pub open spec fn walk_kept(
    st: PhysState,
    s1: PhysState,
    t: u64,
    idx: int,
    l: int,
    child: u64,
    r2: u64,
    va2: u64,
) -> bool {
    &&& translate(s1.ram, r2, va2) == translate(st.ram, r2, va2)
    &&& same_access(st.ram, s1.ram, r2, va2)
    &&& forall|m: int|
        1 <= m <= 4 ==> #[trigger] table_at(s1.ram, r2, va2, m) == if m == l - 1 && reads(
            st.ram,
            r2,
            va2,
            l,
            t,
            idx,
        ) {
            Some(child)
        } else {
            table_at(st.ram, r2, va2, m)
        }
}

#[verifier::spinoff_prover]
#[verifier::rlimit(60)]
pub proof fn lemma_walk_kept(
    st: PhysState,
    s1: PhysState,
    roots: Set<u64>,
    root: u64,
    va: u64,
    t: u64,
    idx: int,
    l: int,
    child: u64,
    r2: u64,
    va2: u64,
)
    requires
        spaces_sound(st, roots),
        roots.contains(root),
        roots.contains(r2),
        2 <= l <= 3,
        reads(st.ram, root, va, l, t, idx),
        present(entry(st.ram, t, idx)),
        large(entry(st.ram, t, idx)),
        ({
            let e = entry(st.ram, t, idx);
            grown(st, s1, t, idx, child, link_to(child, e), split_entries(e, l))
        }),
        child % 4096 == 0,
        child <= 0x000F_FFFF_FFFF_F000,
    ensures
        walk_kept(st, s1, t, idx, l, child, r2, va2),
{
    let e = entry(st.ram, t, idx);
    let here = reads(st.ram, r2, va2, l, t, idx);
    lemma_walk(st.ram, r2, va2);
    lemma_walk(s1.ram, r2, va2);
    lemma_link_to(child, e);
    assert forall|m: int|
        1 <= m <= 4 && (#[trigger] table_at(st.ram, r2, va2, m)) is Some && !(here && m
            == l) implies entry(
        s1.ram,
        table_at(st.ram, r2, va2, m)->Some_0,
        level_index(va2, m),
    ) == entry(st.ram, table_at(st.ram, r2, va2, m)->Some_0, level_index(va2, m)) by {
        let u = table_at(st.ram, r2, va2, m)->Some_0;
        reveal(spaces_sound);
        assert(table_sound(st, u));
        if u == t && level_index(va2, m) == idx {
            assert(table_at(st.ram, root, va, l) == table_at(st.ram, r2, va2, m));
            assert(l == m);
        }
    }
    assert(table_at(st.ram, r2, va2, 4) == Some(r2));
    if !here {
        lemma_same_walk(st.ram, s1.ram, r2, va2);
        lemma_same_access(st.ram, s1.ram, r2, va2);
    } else if l == 3 {
        let i = level_index(va2, 2);
        let x = split_entries(e, l)[i];
        lemma_giant_part(e, va2, i as u64, x);
        assert(entry(s1.ram, child, i) == x);
        assert(pdpte(st.ram, r2, va2) == e);
        assert(pdpte(s1.ram, r2, va2) == link_to(child, e));
        assert(pde(s1.ram, r2, va2) == x);
        assert(large(x) && present(x));
        assert(user(link_to(child, e)) == user(e));
    } else {
        let i = level_index(va2, 1);
        let x = split_entries(e, l)[i];
        lemma_large_part(e, va2, i as u64, x);
        assert(table_at(st.ram, r2, va2, 3) is Some);
        assert(entry(s1.ram, child, i) == x);
        assert(pde(st.ram, r2, va2) == e);
        assert(pde(s1.ram, r2, va2) == link_to(child, e));
        assert(pte(s1.ram, r2, va2) == x);
        assert(user(link_to(child, e)) == user(e));
    }
    assert forall|m: int| 1 <= m <= 4 implies #[trigger] table_at(s1.ram, r2, va2, m) == if m == l
        - 1 && here {
        Some(child)
    } else {
        table_at(st.ram, r2, va2, m)
    } by {
        assert(m == 1 || m == 2 || m == 3 || m == 4);
    }
}

/// Two memories with the same entries along a walk agree on the access.
pub proof fn lemma_same_access(a: Seq<u8>, b: Seq<u8>, root: u64, va: u64)
    requires
        forall|l: int|
            1 <= l <= 4 && (#[trigger] table_at(a, root, va, l)) is Some ==> {
                let t = table_at(a, root, va, l)->Some_0;
                entry(b, t, level_index(va, l)) == entry(a, t, level_index(va, l))
            },
    ensures
        same_access(a, b, root, va),
{
    lemma_walk(a, root, va);
    lemma_walk(b, root, va);
    assert(table_at(a, root, va, 4) is Some);
    if table_at(a, root, va, 3) is Some {
        if table_at(a, root, va, 2) is Some {
            if table_at(a, root, va, 1) is Some {
            }
        }
    }
}

/// The address spaces stay sound when a table is added that changes no mapping.
#[verifier::spinoff_prover]
pub proof fn lemma_grown_sound(
    st: PhysState,
    s1: PhysState,
    roots: Set<u64>,
    t: u64,
    idx: int,
    l: int,
    child: u64,
    link: u64,
    entries: Seq<u64>,
)
    requires
        spaces_sound(st, roots),
        2 <= l <= 4,
        grown(st, s1, t, idx, child, link, entries),
        forall|r2: u64, va2: u64|
            roots.contains(r2) ==> #[trigger] walk_kept(st, s1, t, idx, l, child, r2, va2),
    ensures
        spaces_sound(s1, roots),
{
    reveal(spaces_sound);
    assert forall|r: u64, v: u64, m: int|
        roots.contains(r) && 1 <= m <= 4 && table_at(s1.ram, r, v, m) is Some implies table_sound(
        s1,
        (#[trigger] table_at(s1.ram, r, v, m))->Some_0,
    ) by {
        assert(walk_kept(st, s1, t, idx, l, child, r, v));
        if table_at(s1.ram, r, v, m) == table_at(st.ram, r, v, m) {
            assert(table_sound(st, table_at(st.ram, r, v, m)->Some_0));
        }
    }
    assert forall|r: u64, v: u64, m: int, r2: u64, v2: u64, m2: int|
        roots.contains(r) && roots.contains(r2) && 1 <= m <= 4 && 1 <= m2 <= 4 && table_at(
            s1.ram,
            r,
            v,
            m,
        ) is Some && #[trigger] table_at(s1.ram, r, v, m) == #[trigger] table_at(
            s1.ram,
            r2,
            v2,
            m2,
        ) implies m == m2 && same_place(r, v, r2, v2, m) by {
        assert(walk_kept(st, s1, t, idx, l, child, r, v));
        assert(walk_kept(st, s1, t, idx, l, child, r2, v2));
        let new1 = m == l - 1 && reads(st.ram, r, v, l, t, idx);
        let new2 = m2 == l - 1 && reads(st.ram, r2, v2, l, t, idx);
        if new1 && new2 {
            assert(table_at(st.ram, r, v, l) == table_at(st.ram, r2, v2, l));
            assert(same_place(r, v, r2, v2, l));
            assert forall|k: int| m < k <= 4 implies #[trigger] level_index(v, k) == level_index(
                v2,
                k,
            ) by {
                if k > l {
                    assert(same_turns(v, v2, l));
                }
            }
        } else if new1 {
            assert(table_sound(st, table_at(st.ram, r2, v2, m2)->Some_0));
        } else if new2 {
            assert(table_sound(st, table_at(st.ram, r, v, m)->Some_0));
        } else {
            assert(table_at(st.ram, r, v, m) == table_at(st.ram, r2, v2, m2));
        }
    }
}

/// Every address of the address spaces `roots` leads to the same place in both memories,
/// with the same access.
#[verifier::opaque]
pub open spec fn same_mappings(a: Seq<u8>, b: Seq<u8>, roots: Set<u64>) -> bool {
    forall|r: u64, va: u64|
        roots.contains(r) ==> #[trigger] translate(b, r, va) == translate(a, r, va) && same_access(
            a,
            b,
            r,
            va,
        )
}

pub proof fn lemma_mappings_chain(a: Seq<u8>, b: Seq<u8>, c: Seq<u8>, roots: Set<u64>)
    requires
        same_mappings(a, b, roots),
        same_mappings(b, c, roots),
    ensures
        same_mappings(a, c, roots),
{
    reveal(same_mappings);
    assert forall|r: u64, va: u64| roots.contains(r) implies #[trigger] translate(c, r, va)
        == translate(a, r, va) && same_access(a, c, r, va) by {
        assert(translate(b, r, va) == translate(a, r, va));
    }
}

/// When every walk is kept, so is every mapping.
pub proof fn lemma_kept_mappings(
    st: PhysState,
    s1: PhysState,
    roots: Set<u64>,
    t: u64,
    idx: int,
    l: int,
    child: u64,
)
    requires
        forall|r2: u64, va2: u64|
            roots.contains(r2) ==> #[trigger] walk_kept(st, s1, t, idx, l, child, r2, va2),
    ensures
        same_mappings(st.ram, s1.ram, roots),
{
    reveal(same_mappings);
    assert forall|r2: u64, va2: u64| roots.contains(r2) implies #[trigger] translate(
        s1.ram,
        r2,
        va2,
    ) == translate(st.ram, r2, va2) && same_access(st.ram, s1.ram, r2, va2) by {
        assert(walk_kept(st, s1, t, idx, l, child, r2, va2));
    }
}

/// One split, seen from every walk.
#[verifier::spinoff_prover]
proof fn lemma_one_split(st: PhysState, roots: Set<u64>, root: u64, va: u64, l: int, t: u64)
    requires
        spaces_sound(st, roots),
        roots.contains(root),
        2 <= l <= 3,
        table_at(st.ram, root, va, l) == Some(t),
        present(entry(st.ram, t, level_index(va, l))),
        large(entry(st.ram, t, level_index(va, l))),
    ensures
        ({
            let e = entry(st.ram, t, level_index(va, l));
            let (s1, ok) = split_entry(st, t, level_index(va, l), e, l == 3);
            &&& spaces_sound(s1, roots)
            &&& same_mappings(st.ram, s1.ram, roots)
            &&& ok ==> table_at(s1.ram, root, va, l - 1) == Some(
                entry(s1.ram, t, level_index(va, l)) & ADDR_MASK,
            )
        }),
{
    let idx = level_index(va, l);
    let e = entry(st.ram, t, idx);
    let s1 = split_entry(st, t, idx, e, l == 3).0;
    if split_entry(st, t, idx, e, l == 3).1 {
        let child = alloc_page(st).1->Some_0;
        assert(memory_sound(st) && table_sound(st, t)) by {
            reveal(spaces_sound);
            assert(table_at(st.ram, root, va, l) is Some);
        }
        let link = link_to(child, e);
        let entries = split_entries(e, l);
        assert(s1 == grow(st, t, idx, link, entries));
        lemma_grown(st, t, idx, link, entries);
        assert forall|r2: u64, va2: u64| roots.contains(r2) implies #[trigger] walk_kept(
            st,
            s1,
            t,
            idx,
            l,
            child,
            r2,
            va2,
        ) by {
            lemma_walk_kept(st, s1, roots, root, va, t, idx, l, child, r2, va2);
        }
        lemma_grown_sound(st, s1, roots, t, idx, l, child, link, entries);
        assert(walk_kept(st, s1, t, idx, l, child, root, va));
        lemma_link_to(child, e);
        lemma_kept_mappings(st, s1, roots, t, idx, l, child);
    } else {
        reveal(same_mappings);
    }
}

/// Splitting the large pages on the way to an address changes no mapping: every address
/// of every address space leads where it led, with the same access, and the address
/// spaces stay sound. This holds also when a table was missing.
#[verifier::spinoff_prover]
pub proof fn splitting_changes_no_mapping(st: PhysState, roots: Set<u64>, root: u64, va: u64)
    requires
        spaces_sound(st, roots),
        roots.contains(root),
    ensures
        spaces_sound(split_path(st, root, va).0, roots),
        same_mappings(st.ram, split_path(st, root, va).0.ram, roots),
{
    reveal(split_path);
    assert(same_mappings(st.ram, st.ram, roots)) by {
        reveal(same_mappings);
    }
    let e4 = pml4e(st.ram, root, va);
    let t3 = e4 & ADDR_MASK;
    let e3 = entry(st.ram, t3, level_index(va, 3));
    if present(e4) && present(e3) {
        assert(table_at(st.ram, root, va, 3) == Some(t3)) by {
            lemma_walk(st.ram, root, va);
        }
        let (s1, ok1) = if large(e3) {
            split_entry(st, t3, level_index(va, 3), e3, true)
        } else {
            (st, true)
        };
        if large(e3) {
            lemma_one_split(st, roots, root, va, 3, t3);
        }
        let x3 = entry(s1.ram, t3, level_index(va, 3));
        let t2 = x3 & ADDR_MASK;
        let e2 = entry(s1.ram, t2, level_index(va, 2));
        if ok1 && present(e2) && large(e2) {
            assert(table_at(s1.ram, root, va, 2) == Some(t2)) by {
                if !large(e3) {
                    lemma_walk(st.ram, root, va);
                }
            }
            let s2 = split_entry(s1, t2, level_index(va, 2), e2, false).0;
            lemma_one_split(s1, roots, root, va, 2, t2);
            lemma_mappings_chain(st.ram, s1.ram, s2.ram, roots);
        }
    }
}

} // verus!
