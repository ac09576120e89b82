//! Address spaces are apart.
//!
//! The page tables of a set of address spaces form trees: every table stands in one
//! place, and only the kernel's half is shared. As long as that holds, what is mapped
//! or unmapped at one page of one address space moves no other page of any.
use crate::bytes::{bytes64, lemma_bytes64, lemma_get64_in};
use crate::mm::laws::{
    frame, lemma_child_links, lemma_link_bits, lemma_same_word, lemma_word_frame,
    map_then_translate, memory_sound, path_sound, table_sound, unmap_then_translate,
};
use crate::mm::phys::{alloc_page, next_free, next_free_is_free, PhysState};
use crate::mm::virt::{
    backed_leaf, child_table, entry, fresh_space_entries, large, leaf_table, level_index, map_page,
    map_range, pdpte, pml4e, present, set_entry, translate, unmapped, user_leaf, with_table,
    ADDR_MASK,
};
use vstd::arithmetic::div_mod::lemma_div_denominator;
use vstd::prelude::*;

verus! {

/// The first address above the user half.
pub const USER_END: u64 = 0x8000_0000_0000;

/// The table of level `l` (4 is the root, 1 holds leaves) on the way to `va`, if the
/// walk gets there.
pub open spec fn table_at(ram: Seq<u8>, root: u64, va: u64, l: int) -> Option<u64>
    decreases 4 - l,
{
    if l >= 4 {
        Some(root)
    } else {
        match table_at(ram, root, va, l + 1) {
            None => None,
            Some(t) => {
                let e = entry(ram, t, level_index(va, l + 1));
                if present(e) && (l == 3 || !large(e)) {
                    Some(e & ADDR_MASK)
                } else {
                    None
                }
            },
        }
    }
}

/// Two addresses take the same turns above level `l`.
pub open spec fn same_turns(va: u64, va2: u64, l: int) -> bool {
    forall|m: int| l < m <= 4 ==> #[trigger] level_index(va, m) == level_index(va2, m)
}

/// Two addresses lie in the same page of an address space.
pub open spec fn same_page(va: u64, va2: u64) -> bool {
    same_turns(va, va2, 0)
}

/// The tables of level `l` on two walks stand in the same place: the turns to them are
/// the same, and so are the roots, or the place is in the kernel's half.
pub open spec fn same_place(root: u64, va: u64, root2: u64, va2: u64, l: int) -> bool {
    &&& same_turns(va, va2, l)
    &&& root == root2 || (l < 4 && level_index(va, 4) >= 256)
}

/// Every table of the address spaces `roots` is in use and stands in one place.
#[verifier::opaque]
pub open spec fn spaces_sound(st: PhysState, roots: Set<u64>) -> bool {
    &&& memory_sound(st)
    &&& forall|r: u64, va: u64, l: int|
        roots.contains(r) && 1 <= l <= 4 && table_at(st.ram, r, va, l) is Some ==> table_sound(
            st,
            (#[trigger] table_at(st.ram, r, va, l))->Some_0,
        )
    &&& forall|r: u64, va: u64, l: int, r2: u64, va2: u64, l2: int|
        roots.contains(r) && roots.contains(r2) && 1 <= l <= 4 && 1 <= l2 <= 4 && table_at(
            st.ram,
            r,
            va,
            l,
        ) is Some && #[trigger] table_at(st.ram, r, va, l) == #[trigger] table_at(
            st.ram,
            r2,
            va2,
            l2,
        ) ==> l == l2 && same_place(r, va, r2, va2, l)
}

/// No large page lies on the way to `va`.
pub open spec fn clear_path(ram: Seq<u8>, root: u64, va: u64) -> bool {
    forall|l: int|
        2 <= l <= 3 && (#[trigger] table_at(ram, root, va, l)) is Some ==> {
            let e = entry(ram, table_at(ram, root, va, l)->Some_0, level_index(va, l));
            !(present(e) && large(e))
        }
}

proof fn lemma_in_use(st: PhysState, roots: Set<u64>, r: u64, va: u64, l: int)
    requires
        spaces_sound(st, roots),
        roots.contains(r),
        1 <= l <= 4,
    ensures
        memory_sound(st),
        table_at(st.ram, r, va, l) matches Some(t) ==> table_sound(st, t),
{
    reveal(spaces_sound);
}

proof fn lemma_one_place(
    st: PhysState,
    roots: Set<u64>,
    r: u64,
    va: u64,
    l: int,
    r2: u64,
    va2: u64,
    l2: int,
)
    requires
        spaces_sound(st, roots),
        roots.contains(r),
        roots.contains(r2),
        1 <= l <= 4,
        1 <= l2 <= 4,
        table_at(st.ram, r, va, l) is Some,
        table_at(st.ram, r, va, l) == table_at(st.ram, r2, va2, l2),
    ensures
        l == l2,
        same_place(r, va, r2, va2, l),
{
    reveal(spaces_sound);
}

/// The walk unrolled.
pub proof fn lemma_walk(ram: Seq<u8>, root: u64, va: u64)
    ensures
        table_at(ram, root, va, 4) == Some(root),
        table_at(ram, root, va, 3) == if present(pml4e(ram, root, va)) {
            Some(pml4e(ram, root, va) & ADDR_MASK)
        } else {
            None
        },
        table_at(ram, root, va, 2) == if present(pml4e(ram, root, va)) && present(
            pdpte(ram, root, va),
        ) && !large(pdpte(ram, root, va)) {
            Some(pdpte(ram, root, va) & ADDR_MASK)
        } else {
            None
        },
        table_at(ram, root, va, 1) == leaf_table(ram, root, va),
{
    reveal_with_fuel(table_at, 5);
}

/// Two memories with the same entries along a walk agree on the walk.
pub proof fn lemma_same_walk(a: Seq<u8>, b: Seq<u8>, root: u64, va: u64)
    requires
        forall|l: int|
            1 <= l <= 4 && (#[trigger] table_at(a, root, va, l)) is Some ==> {
                let t = table_at(a, root, va, l)->Some_0;
                entry(b, t, level_index(va, l)) == entry(a, t, level_index(va, l))
            },
    ensures
        forall|l: int| 1 <= l <= 4 ==> #[trigger] table_at(b, root, va, l) == table_at(a, root, va, l),
        translate(b, root, va) == translate(a, root, va),
{
    lemma_walk(a, root, va);
    lemma_walk(b, root, va);
    assert(table_at(a, root, va, 4) is Some);
    if table_at(a, root, va, 3) is Some {
        if table_at(a, root, va, 2) is Some {
            if table_at(a, root, va, 1) is Some {
            }
        }
    }
    assert forall|l: int| 1 <= l <= 4 implies #[trigger] table_at(b, root, va, l) == table_at(
        a,
        root,
        va,
        l,
    ) by {
        assert(l == 1 || l == 2 || l == 3 || l == 4);
    }
}

/// A walk that does not read the entry for `va` in the table of level `l` of `root`.
proof fn lemma_other_entry(
    st: PhysState,
    roots: Set<u64>,
    root: u64,
    va: u64,
    l: int,
    r2: u64,
    va2: u64,
    m: int,
)
    requires
        spaces_sound(st, roots),
        roots.contains(root),
        roots.contains(r2),
        1 <= l <= 4,
        1 <= m <= 4,
        table_at(st.ram, root, va, l) is Some,
        table_at(st.ram, r2, va2, m) is Some,
        level_index(va, 4) < 256,
        !(r2 == root && same_turns(va, va2, l - 1) && m == l),
    ensures
        frame(table_at(st.ram, r2, va2, m)->Some_0) != frame(table_at(st.ram, root, va, l)->Some_0)
            || level_index(va2, m) != level_index(va, l),
{
    lemma_in_use(st, roots, root, va, l);
    lemma_in_use(st, roots, r2, va2, m);
    if frame(table_at(st.ram, r2, va2, m)->Some_0) == frame(
        table_at(st.ram, root, va, l)->Some_0,
    ) {
        assert(table_at(st.ram, r2, va2, m) == table_at(st.ram, root, va, l));
        lemma_one_place(st, roots, root, va, l, r2, va2, m);
        assert(r2 == root);
        if level_index(va2, m) == level_index(va, l) {
            assert forall|k: int| l - 1 < k <= 4 implies #[trigger] level_index(va, k)
                == level_index(va2, k) by {}
        }
    }
}

/// Linking a fresh table below the table of level `l` on the way to `va`.
#[verifier::spinoff_prover]
proof fn lemma_link(st: PhysState, roots: Set<u64>, root: u64, va: u64, l: int)
    requires
        spaces_sound(st, roots),
        roots.contains(root),
        2 <= l <= 4,
        level_index(va, 4) < 256,
        clear_path(st.ram, root, va),
        table_at(st.ram, root, va, l) is Some,
        child_table(st, table_at(st.ram, root, va, l)->Some_0, level_index(va, l)).1 is Some,
    ensures
        ({
            let t = table_at(st.ram, root, va, l)->Some_0;
            let (s1, c) = child_table(st, t, level_index(va, l));
            &&& spaces_sound(s1, roots)
            &&& table_at(s1.ram, root, va, l - 1) == c
            &&& forall|r2: u64, va2: u64|
                roots.contains(r2) ==> #[trigger] translate(s1.ram, r2, va2) == translate(
                    st.ram,
                    r2,
                    va2,
                )
            &&& forall|va2: u64|
                clear_path(st.ram, root, va2) ==> #[trigger] clear_path(s1.ram, root, va2)
        }),
{
    let t = table_at(st.ram, root, va, l)->Some_0;
    let idx = level_index(va, l);
    let e = entry(st.ram, t, idx);
    let (s1, c) = child_table(st, t, idx);
    let child = c->Some_0;
    reveal_with_fuel(table_at, 1);
    lemma_in_use(st, roots, root, va, l);
    if present(e) {
        assert(l == 4 || !large(e));
        assert(table_at(st.ram, root, va, l - 1) == Some(child));
    } else {
        lemma_child_links(st, t, idx);
        assert forall|r2: u64, va2: u64| roots.contains(r2) implies linked(
            st,
            s1,
            root,
            va,
            l,
            child,
            r2,
            va2,
        ) by {
            lemma_linked(st, s1, roots, root, va, l, child, r2, va2);
        }
        assert(linked(st, s1, root, va, l, child, root, va));
        assert(spaces_sound(s1, roots)) by {
            lemma_link_sound(st, s1, roots, root, va, l, child);
        }
        assert forall|r2: u64, va2: u64| roots.contains(r2) implies #[trigger] translate(
            s1.ram,
            r2,
            va2,
        ) == translate(st.ram, r2, va2) by {
            assert(linked(st, s1, root, va, l, child, r2, va2));
        }
        assert forall|va2: u64| clear_path(st.ram, root, va2) implies #[trigger] clear_path(
            s1.ram,
            root,
            va2,
        ) by {
            assert(linked(st, s1, root, va, l, child, root, va2));
        }
    }
}

/// What linking the fresh table `child` at level `l - 1` on the way to `va` does to
/// another walk.
spec fn linked(
    st: PhysState,
    s1: PhysState,
    root: u64,
    va: u64,
    l: int,
    child: u64,
    r2: u64,
    va2: u64,
) -> bool {
    &&& translate(s1.ram, r2, va2) == translate(st.ram, r2, va2)
    &&& clear_path(st.ram, r2, va2) ==> clear_path(s1.ram, r2, va2)
    &&& forall|m: int|
        1 <= m <= 4 ==> #[trigger] table_at(s1.ram, r2, va2, m) == if r2 == root && same_turns(
            va,
            va2,
            l - 1,
        ) && m == l - 1 {
            Some(child)
        } else {
            table_at(st.ram, r2, va2, m)
        }
}

#[verifier::spinoff_prover]
#[verifier::rlimit(40)]
proof fn lemma_linked(
    st: PhysState,
    s1: PhysState,
    roots: Set<u64>,
    root: u64,
    va: u64,
    l: int,
    child: u64,
    r2: u64,
    va2: u64,
)
    requires
        spaces_sound(st, roots),
        roots.contains(root),
        roots.contains(r2),
        2 <= l <= 4,
        level_index(va, 4) < 256,
        table_at(st.ram, root, va, l) is Some,
        ({
            let t = table_at(st.ram, root, va, l)->Some_0;
            let idx = level_index(va, l);
            &&& table_sound(st, t)
            &&& !present(entry(st.ram, t, idx))
            &&& child_table(st, t, idx) == (s1, Some(child))
        }),
    ensures
        linked(st, s1, root, va, l, child, r2, va2),
{
    let t = table_at(st.ram, root, va, l)->Some_0;
    let idx = level_index(va, l);
    lemma_in_use(st, roots, root, va, l);
    lemma_child_links(st, t, idx);
    lemma_link_bits(child, 0, 0, 0);
    let shared = r2 == root && same_turns(va, va2, l - 1);
    lemma_walk(st.ram, r2, va2);
    lemma_walk(s1.ram, r2, va2);
    // Entries of the walk other than the written one are kept.
    assert forall|m: int|
        1 <= m <= 4 && (#[trigger] table_at(st.ram, r2, va2, m)) is Some && !(shared && m
            == l) implies entry(
        s1.ram,
        table_at(st.ram, r2, va2, m)->Some_0,
        level_index(va2, m),
    ) == entry(st.ram, table_at(st.ram, r2, va2, m)->Some_0, level_index(va2, m)) by {
        lemma_in_use(st, roots, r2, va2, m);
        lemma_other_entry(st, roots, root, va, l, r2, va2, m);
        lemma_index(va2, m);
    }
    if !shared {
        lemma_same_walk(st.ram, s1.ram, r2, va2);
        assert forall|m: int| 2 <= m <= 3 && clear_path(st.ram, r2, va2) && (#[trigger] table_at(
            s1.ram,
            r2,
            va2,
            m,
        )) is Some implies {
            let e = entry(s1.ram, table_at(s1.ram, r2, va2, m)->Some_0, level_index(va2, m));
            !(present(e) && large(e))
        } by {
            assert(table_at(st.ram, r2, va2, m) is Some);
        }
    } else {
        lemma_same_tables(st.ram, root, va, va2, l);
        assert(level_index(va2, l) == idx);
        assert(table_at(st.ram, r2, va2, l) == Some(t));
        lemma_index(va2, 1);
        lemma_index(va2, 2);
        lemma_index(va2, 3);
        lemma_index(va2, 4);
        assert(0u64 & 1 == 0) by (bit_vector);
        if l == 4 {
            assert(entry(s1.ram, child, level_index(va2, 3)) == 0);
        } else if l == 3 {
            assert(table_at(st.ram, r2, va2, 4) is Some);
            assert(entry(s1.ram, child, level_index(va2, 2)) == 0);
        } else {
            assert(table_at(st.ram, r2, va2, 4) is Some);
            assert(table_at(st.ram, r2, va2, 3) is Some);
            assert(entry(s1.ram, child, level_index(va2, 1)) == 0);
        }
        assert forall|m: int| 1 <= m <= 4 implies #[trigger] table_at(s1.ram, r2, va2, m) == if m
            == l - 1 {
            Some(child)
        } else {
            table_at(st.ram, r2, va2, m)
        } by {
            assert(m == 1 || m == 2 || m == 3 || m == 4);
        }
        assert forall|m: int| 2 <= m <= 3 && clear_path(st.ram, r2, va2) && (#[trigger] table_at(
            s1.ram,
            r2,
            va2,
            m,
        )) is Some implies {
            let e = entry(s1.ram, table_at(s1.ram, r2, va2, m)->Some_0, level_index(va2, m));
            !(present(e) && large(e))
        } by {
            if m != l && m != l - 1 {
                assert(table_at(st.ram, r2, va2, m) is Some);
            }
        }
    }
}

proof fn lemma_index(va: u64, m: int)
    ensures
        0 <= level_index(va, m) < 512,
{
}

/// Walks that take the same turns meet the same tables.
pub proof fn lemma_same_tables(ram: Seq<u8>, root: u64, va: u64, va2: u64, l: int)
    requires
        1 <= l <= 4,
        same_turns(va, va2, l),
    ensures
        forall|m: int|
            l <= m <= 4 ==> #[trigger] table_at(ram, root, va2, m) == table_at(ram, root, va, m),
    decreases 4 - l,
{
    reveal_with_fuel(table_at, 1);
    if l < 4 {
        assert(same_turns(va, va2, l + 1));
        lemma_same_tables(ram, root, va, va2, l + 1);
        assert(level_index(va, l + 1) == level_index(va2, l + 1));
        assert(table_at(ram, root, va2, l + 1) == table_at(ram, root, va, l + 1));
    }
}

#[verifier::spinoff_prover]
proof fn lemma_link_sound(
    st: PhysState,
    s1: PhysState,
    roots: Set<u64>,
    root: u64,
    va: u64,
    l: int,
    child: u64,
)
    requires
        spaces_sound(st, roots),
        memory_sound(s1),
        s1.bits.len() == st.bits.len(),
        forall|f: int| 0 <= f < st.bits.len() && st.bits[f] ==> #[trigger] s1.bits[f],
        table_sound(s1, child),
        !st.bits[frame(child)],
        2 <= l <= 4,
        level_index(va, 4) < 256,
        forall|r2: u64, va2: u64|
            roots.contains(r2) ==> #[trigger] linked(st, s1, root, va, l, child, r2, va2),
    ensures
        spaces_sound(s1, roots),
{
    assert forall|r: u64, v: u64, m: int|
        roots.contains(r) && 1 <= m <= 4 && table_at(s1.ram, r, v, m) is Some implies table_sound(
        s1,
        (#[trigger] table_at(s1.ram, r, v, m))->Some_0,
    ) by {
        assert(linked(st, s1, root, va, l, child, r, v));
        lemma_in_use(st, roots, r, v, m);
    }
    assert forall|r: u64, v: u64, m: int, r2: u64, v2: u64, m2: int|
        roots.contains(r) && roots.contains(r2) && 1 <= m <= 4 && 1 <= m2 <= 4 && table_at(
            s1.ram,
            r,
            v,
            m,
        ) is Some && #[trigger] table_at(s1.ram, r, v, m) == #[trigger] table_at(
            s1.ram,
            r2,
            v2,
            m2,
        ) implies m == m2 && same_place(r, v, r2, v2, m) by {
        assert(linked(st, s1, root, va, l, child, r, v));
        assert(linked(st, s1, root, va, l, child, r2, v2));
        let new1 = r == root && same_turns(va, v, l - 1) && m == l - 1;
        let new2 = r2 == root && same_turns(va, v2, l - 1) && m2 == l - 1;
        if new1 && new2 {
            assert(same_turns(v, v2, m)) by {
                assert forall|k: int| m < k <= 4 implies #[trigger] level_index(v, k)
                    == level_index(v2, k) by {
                    assert(level_index(va, k) == level_index(v, k));
                    assert(level_index(va, k) == level_index(v2, k));
                }
            }
        } else if new1 {
            lemma_in_use(st, roots, r2, v2, m2);
        } else if new2 {
            lemma_in_use(st, roots, r, v, m);
        } else {
            lemma_one_place(st, roots, r, v, m, r2, v2, m2);
        }
    }
    reveal(spaces_sound);
}

/// Writing the leaf of `va` moves no table and no other page.
#[verifier::spinoff_prover]
proof fn lemma_leaf_written(st: PhysState, roots: Set<u64>, root: u64, va: u64, v: u64)
    requires
        spaces_sound(st, roots),
        roots.contains(root),
        level_index(va, 4) < 256,
        table_at(st.ram, root, va, 1) is Some,
    ensures
        ({
            let t = table_at(st.ram, root, va, 1)->Some_0;
            let s1 = set_entry(st, t, level_index(va, 1), v);
            &&& spaces_sound(s1, roots)
            &&& forall|r2: u64, va2: u64|
                roots.contains(r2) && !(r2 == root && same_page(va, va2)) ==> #[trigger] translate(
                    s1.ram,
                    r2,
                    va2,
                ) == translate(st.ram, r2, va2)
            &&& forall|va2: u64|
                clear_path(st.ram, root, va2) ==> #[trigger] clear_path(s1.ram, root, va2)
        }),
{
    let t = table_at(st.ram, root, va, 1)->Some_0;
    let idx = level_index(va, 1);
    let s1 = set_entry(st, t, idx, v);
    lemma_in_use(st, roots, root, va, 1);
    assert forall|r2: u64, va2: u64| roots.contains(r2) implies kept(
        st,
        s1,
        root,
        va,
        r2,
        va2,
    ) by {
        lemma_kept(st, roots, root, va, v, r2, va2);
    }
    assert(memory_sound(s1)) by {
        lemma_bytes64(v);
    }
    assert forall|r: u64, x: u64, m: int|
        roots.contains(r) && 1 <= m <= 4 && table_at(s1.ram, r, x, m) is Some implies table_sound(
        s1,
        (#[trigger] table_at(s1.ram, r, x, m))->Some_0,
    ) by {
        assert(kept(st, s1, root, va, r, x));
        lemma_in_use(st, roots, r, x, m);
    }
    assert forall|r: u64, x: u64, m: int, r2: u64, x2: u64, m2: int|
        roots.contains(r) && roots.contains(r2) && 1 <= m <= 4 && 1 <= m2 <= 4 && table_at(
            s1.ram,
            r,
            x,
            m,
        ) is Some && #[trigger] table_at(s1.ram, r, x, m) == #[trigger] table_at(
            s1.ram,
            r2,
            x2,
            m2,
        ) implies m == m2 && same_place(r, x, r2, x2, m) by {
        assert(kept(st, s1, root, va, r, x));
        assert(kept(st, s1, root, va, r2, x2));
        lemma_one_place(st, roots, r, x, m, r2, x2, m2);
    }
    assert(spaces_sound(s1, roots)) by {
        reveal(spaces_sound);
    }
    assert forall|r2: u64, va2: u64|
        roots.contains(r2) && !(r2 == root && same_page(va, va2)) implies #[trigger] translate(
        s1.ram,
        r2,
        va2,
    ) == translate(st.ram, r2, va2) by {
        assert(kept(st, s1, root, va, r2, va2));
    }
    assert forall|va2: u64| clear_path(st.ram, root, va2) implies #[trigger] clear_path(
        s1.ram,
        root,
        va2,
    ) by {
        assert(kept(st, s1, root, va, root, va2));
    }
}

/// A walk that a write to the leaf of `va` leaves alone, but for the page itself.
spec fn kept(st: PhysState, s1: PhysState, root: u64, va: u64, r2: u64, va2: u64) -> bool {
    &&& !(r2 == root && same_page(va, va2)) ==> translate(s1.ram, r2, va2) == translate(
        st.ram,
        r2,
        va2,
    )
    &&& clear_path(st.ram, r2, va2) ==> clear_path(s1.ram, r2, va2)
    &&& forall|m: int|
        1 <= m <= 4 ==> #[trigger] table_at(s1.ram, r2, va2, m) == table_at(st.ram, r2, va2, m)
}

#[verifier::spinoff_prover]
proof fn lemma_kept(
    st: PhysState,
    roots: Set<u64>,
    root: u64,
    va: u64,
    v: u64,
    r2: u64,
    va2: u64,
)
    requires
        spaces_sound(st, roots),
        roots.contains(root),
        roots.contains(r2),
        level_index(va, 4) < 256,
        table_at(st.ram, root, va, 1) is Some,
    ensures
        kept(
            st,
            set_entry(st, table_at(st.ram, root, va, 1)->Some_0, level_index(va, 1), v),
            root,
            va,
            r2,
            va2,
        ),
{
    let t = table_at(st.ram, root, va, 1)->Some_0;
    let idx = level_index(va, 1);
    let s1 = set_entry(st, t, idx, v);
    lemma_in_use(st, roots, root, va, 1);
    let shared = r2 == root && same_page(va, va2);
    assert forall|m: int|
        1 <= m <= 4 && (#[trigger] table_at(st.ram, r2, va2, m)) is Some && !(shared && m
            == 1) implies entry(
        s1.ram,
        table_at(st.ram, r2, va2, m)->Some_0,
        level_index(va2, m),
    ) == entry(st.ram, table_at(st.ram, r2, va2, m)->Some_0, level_index(va2, m)) by {
        let u = table_at(st.ram, r2, va2, m)->Some_0;
        lemma_in_use(st, roots, r2, va2, m);
        lemma_other_entry(st, roots, root, va, 1, r2, va2, m);
        lemma_index(va2, m);
        lemma_index(va, 1);
        lemma_word_frame(st.ram, t + 8 * idx, v, u + 8 * level_index(va2, m));
    }
    if !shared {
        lemma_same_walk(st.ram, s1.ram, r2, va2);
    } else {
        lemma_walk(st.ram, r2, va2);
        lemma_walk(s1.ram, r2, va2);
        assert(table_at(st.ram, r2, va2, 4) is Some);
        if table_at(st.ram, r2, va2, 3) is Some {
            if table_at(st.ram, r2, va2, 2) is Some {
            }
        }
        assert forall|m: int| 1 <= m <= 4 implies #[trigger] table_at(s1.ram, r2, va2, m)
            == table_at(st.ram, r2, va2, m) by {
            assert(m == 1 || m == 2 || m == 3 || m == 4);
        }
    }
    assert forall|m: int| 2 <= m <= 3 && clear_path(st.ram, r2, va2) && (#[trigger] table_at(
        s1.ram,
        r2,
        va2,
        m,
    )) is Some implies {
        let e = entry(s1.ram, table_at(s1.ram, r2, va2, m)->Some_0, level_index(va2, m));
        !(present(e) && large(e))
    } by {
        assert(table_at(st.ram, r2, va2, m) is Some);
    }
}

/// In sound address spaces the path to a user page is sound.
proof fn lemma_path(st: PhysState, roots: Set<u64>, root: u64, va: u64)
    requires
        spaces_sound(st, roots),
        roots.contains(root),
        clear_path(st.ram, root, va),
    ensures
        path_sound(st, root, va),
{
    lemma_walk(st.ram, root, va);
    lemma_in_use(st, roots, root, va, 4);
    lemma_in_use(st, roots, root, va, 3);
    lemma_in_use(st, roots, root, va, 2);
    lemma_in_use(st, roots, root, va, 1);
    assert forall|l: int, m: int|
        1 <= l < m <= 4 && (#[trigger] table_at(st.ram, root, va, l)) is Some && (
        #[trigger] table_at(st.ram, root, va, m)) is Some implies frame(
        table_at(st.ram, root, va, l)->Some_0,
    ) != frame(table_at(st.ram, root, va, m)->Some_0) by {
        lemma_in_use(st, roots, root, va, l);
        lemma_in_use(st, roots, root, va, m);
        if table_at(st.ram, root, va, l) == table_at(st.ram, root, va, m) {
            lemma_one_place(st, roots, root, va, l, root, va, m);
        }
    }
    assert(table_at(st.ram, root, va, 4) is Some);
    if table_at(st.ram, root, va, 3) is Some {
        if table_at(st.ram, root, va, 2) is Some {
            if table_at(st.ram, root, va, 1) is Some {
            }
        }
    }
}

/// Mapping a user page moves no other page of any address space, and the address spaces
/// stay sound.
#[verifier::spinoff_prover]
#[verifier::rlimit(60)]
pub proof fn mapping_a_page_moves_no_other(
    st: PhysState,
    roots: Set<u64>,
    root: u64,
    va: u64,
    p: u64,
    writable: bool,
    exec: bool,
)
    requires
        spaces_sound(st, roots),
        roots.contains(root),
        va < USER_END,
        clear_path(st.ram, root, va),
        map_page(st, root, va, p, writable, exec).1,
    ensures
        ({
            let s = map_page(st, root, va, p, writable, exec).0;
            &&& spaces_sound(s, roots)
            &&& translate(s.ram, root, va) == Some((p & ADDR_MASK) | (va & 0xFFF))
            &&& forall|r2: u64, va2: u64|
                roots.contains(r2) && !(r2 == root && same_page(va, va2)) ==> #[trigger] translate(
                    s.ram,
                    r2,
                    va2,
                ) == translate(st.ram, r2, va2)
            &&& forall|va2: u64|
                clear_path(st.ram, root, va2) ==> #[trigger] clear_path(s.ram, root, va2)
        }),
{
    lemma_turns(va);
    lemma_path(st, roots, root, va);
    map_then_translate(st, root, va, p, writable, exec);
    reveal(map_page);
    lemma_walk(st.ram, root, va);
    let (s1, c3) = child_table(st, root, level_index(va, 4));
    lemma_link(st, roots, root, va, 4);
    let t3 = c3->Some_0;
    let (s2, c2) = child_table(s1, t3, level_index(va, 3));
    lemma_link(s1, roots, root, va, 3);
    let t2 = c2->Some_0;
    let (s3, c1) = child_table(s2, t2, level_index(va, 2));
    lemma_link(s2, roots, root, va, 2);
    lemma_leaf_written(s3, roots, root, va, user_leaf(p, writable, exec));
}

proof fn lemma_offset_bits(p: u64, va: u64, o: u64, w: u64, q: u64)
    by (bit_vector)
    requires
        p % 4096 == 0,
        va % 4096 == 0,
        o < 4096,
        p <= 0x000F_FFFF_FFFF_F000,
        w == va + o,
        q == p + o,
    ensures
        (p & ADDR_MASK) | (w & 0xFFF) == q,
{
}

/// Addresses of one page take the same turns.
proof fn lemma_within(va: u64, o: int)
    requires
        va % 4096 == 0,
        0 <= o < 4096,
        va + o <= u64::MAX,
    ensures
        same_page(va, (va + o) as u64),
{
    let v = va as int;
    assert((v + o) / 0x1000 == v / 0x1000);
    assert((v + o) / 0x20_0000 == v / 0x20_0000);
    assert((v + o) / 0x4000_0000 == v / 0x4000_0000);
    assert((v + o) / 0x80_0000_0000 == v / 0x80_0000_0000);
    assert forall|m: int| 0 < m <= 4 implies #[trigger] level_index(va, m) == level_index(
        (va + o) as u64,
        m,
    ) by {
        assert(m == 1 || m == 2 || m == 3 || m == 4);
    }
}

/// The turns of a user address spell out its page number.
proof fn lemma_turns(va: u64)
    requires
        va < USER_END,
    ensures
        level_index(va, 4) < 256,
        va as int / 0x1000 == ((level_index(va, 4) * 512 + level_index(va, 3)) * 512 + level_index(
            va,
            2,
        )) * 512 + level_index(va, 1),
{
    let v = va as int;
    lemma_div_denominator(v, 0x1000, 512);
    lemma_div_denominator(v, 0x20_0000, 512);
    lemma_div_denominator(v, 0x4000_0000, 512);
    let a = v / 0x1000;
    let b = v / 0x20_0000;
    let c = v / 0x4000_0000;
    let d = v / 0x80_0000_0000;
    assert(b == a / 512 && c == b / 512 && d == c / 512);
    assert(d < 256);
}

/// Different user pages take different turns.
pub proof fn lemma_apart(va: u64, va2: u64)
    requires
        va < USER_END,
        va2 < USER_END,
        va as int / 4096 != va2 as int / 4096,
    ensures
        !same_page(va, va2),
{
    if same_page(va, va2) {
        assert(level_index(va, 1) == level_index(va2, 1));
        assert(level_index(va, 2) == level_index(va2, 2));
        assert(level_index(va, 3) == level_index(va2, 3));
        assert(level_index(va, 4) == level_index(va2, 4));
        lemma_turns(va);
        lemma_turns(va2);
    }
}

/// A page's translation covers all of its addresses.
proof fn lemma_whole_page(st: PhysState, roots: Set<u64>, root: u64, va: u64, p: u64, o: int)
    requires
        spaces_sound(st, roots),
        roots.contains(root),
        clear_path(st.ram, root, va),
        va % 4096 == 0,
        p % 4096 == 0,
        va < USER_END,
        p <= 0x000F_FFFF_FFFF_F000,
        0 <= o < 4096,
        translate(st.ram, root, va) == Some((p & ADDR_MASK) | (va & 0xFFF)),
    ensures
        translate(st.ram, root, (va + o) as u64) == Some((p + o) as u64),
{
    let w = (va + o) as u64;
    lemma_within(va, o);
    lemma_same_tables(st.ram, root, va, w, 1);
    lemma_walk(st.ram, root, va);
    lemma_walk(st.ram, root, w);
    assert(level_index(va, 1) == level_index(w, 1));
    assert(level_index(va, 2) == level_index(w, 2));
    assert(level_index(va, 3) == level_index(w, 3));
    assert(level_index(va, 4) == level_index(w, 4));
    assert(table_at(st.ram, root, va, 3) is Some);
    assert(table_at(st.ram, root, va, 2) is Some);
    lemma_offset_bits(p, va, o as u64, w, (p + o) as u64);
    let e1 = entry(st.ram, table_at(st.ram, root, va, 1)->Some_0, level_index(va, 1));
    lemma_masked(e1, p, va);
    assert(e1 & ADDR_MASK == p & ADDR_MASK);
}

proof fn lemma_masked(e: u64, p: u64, va: u64)
    by (bit_vector)
    requires
        va % 4096 == 0,
    ensures
        (e & ADDR_MASK) | (va & 0xFFF) == e & ADDR_MASK,
        (p & ADDR_MASK) | (va & 0xFFF) == p & ADDR_MASK,
{
}

/// Page `k` of a range.
pub open spec fn page_of(va: u64, k: int) -> u64 {
    (va + k * 0x1000) as u64
}

/// `va2` of the address space `r2` lies in none of the pages `i .. n` of the range at
/// `va` of the address space `root`.
pub open spec fn outside(root: u64, va: u64, i: int, n: int, r2: u64, va2: u64) -> bool {
    r2 != root || forall|k: int| i <= k < n ==> !same_page(#[trigger] page_of(va, k), va2)
}

/// A page of a range lies in none of the pages behind it.
proof fn lemma_before_the_rest(root: u64, va: u64, i: int, n: int, o: int)
    requires
        va % 4096 == 0,
        0 <= i < n,
        0 <= o < 4096,
        va + n * 0x1000 <= USER_END,
    ensures
        outside(root, va, i + 1, n, root, (page_of(va, i) + o) as u64),
{
    let w = (page_of(va, i) + o) as u64;
    assert forall|j: int| i + 1 <= j < n implies !same_page(#[trigger] page_of(va, j), w) by {
        assert(j * 0x1000 + 0x1000 <= n * 0x1000);
        lemma_apart(page_of(va, j), w);
    }
}

/// Mapping the pages `i .. n` of a range, seen at one address of the range (page `k`,
/// offset `o`) and at one outside (`va2` of `r2`).
#[verifier::spinoff_prover]
#[verifier::rlimit(40)]
proof fn lemma_range(
    st: PhysState,
    roots: Set<u64>,
    root: u64,
    va: u64,
    p: u64,
    i: int,
    n: int,
    writable: bool,
    exec: bool,
    k: int,
    o: int,
    r2: u64,
    va2: u64,
)
    requires
        spaces_sound(st, roots),
        roots.contains(root),
        0 <= i <= n,
        va % 4096 == 0,
        p % 4096 == 0,
        va + n * 0x1000 <= USER_END,
        p + n * 0x1000 <= 0x10_0000_0000_0000,
        forall|j: int| i <= j < n ==> clear_path(st.ram, root, #[trigger] page_of(va, j)),
        map_range(st, root, va, p, i, n, writable, exec).1,
    ensures
        ({
            let s = map_range(st, root, va, p, i, n, writable, exec).0;
            &&& spaces_sound(s, roots)
            &&& i <= k < n && 0 <= o < 4096 ==> translate(
                s.ram,
                root,
                (page_of(va, k) + o) as u64,
            ) == Some((page_of(p, k) + o) as u64)
            &&& roots.contains(r2) && outside(root, va, i, n, r2, va2) ==> translate(
                s.ram,
                r2,
                va2,
            ) == translate(st.ram, r2, va2)
        }),
    decreases n - i,
{
    if i < n {
        let v = page_of(va, i);
        let q = page_of(p, i);
        assert(i * 0x1000 + 0x1000 <= n * 0x1000);
        assert(v % 4096 == 0 && q % 4096 == 0 && v < USER_END && q <= 0x000F_FFFF_FFFF_F000);
        let s1 = map_page(st, root, v, q, writable, exec).0;
        assert(map_range(st, root, va, p, i, n, writable, exec) == map_range(
            s1,
            root,
            va,
            p,
            i + 1,
            n,
            writable,
            exec,
        ));
        assert(clear_path(st.ram, root, v));
        mapping_a_page_moves_no_other(st, roots, root, v, q, writable, exec);
        assert(clear_path(s1.ram, root, v));
        assert forall|j: int| i + 1 <= j < n implies clear_path(
            s1.ram,
            root,
            #[trigger] page_of(va, j),
        ) by {
            assert(clear_path(st.ram, root, page_of(va, j)));
        }
        if k == i && 0 <= o < 4096 {
            lemma_whole_page(s1, roots, root, v, q, o);
            lemma_before_the_rest(root, va, i, n, o);
            let w = (v + o) as u64;
            lemma_range(s1, roots, root, va, p, i + 1, n, writable, exec, k, o, root, w);
        }
        lemma_range(s1, roots, root, va, p, i + 1, n, writable, exec, k, o, r2, va2);
        if roots.contains(r2) && outside(root, va, i, n, r2, va2) {
            assert(outside(root, va, i + 1, n, r2, va2));
            assert(r2 == root ==> !same_page(page_of(va, i), va2));
            assert(translate(s1.ram, r2, va2) == translate(st.ram, r2, va2));
        }
    }
}

/// A range of user pages that was mapped translates, address by address, to the frames
/// it was mapped to. Every other page, of this address space and of every other, is where
/// it was, and the address spaces stay sound.
pub proof fn a_mapped_range_translates_and_moves_no_other(
    st: PhysState,
    roots: Set<u64>,
    root: u64,
    va: u64,
    p: u64,
    n: int,
    writable: bool,
    exec: bool,
)
    requires
        spaces_sound(st, roots),
        roots.contains(root),
        0 <= n,
        va % 4096 == 0,
        p % 4096 == 0,
        va + n * 0x1000 <= USER_END,
        p + n * 0x1000 <= 0x10_0000_0000_0000,
        forall|k: int| 0 <= k < n ==> clear_path(st.ram, root, #[trigger] page_of(va, k)),
        map_range(st, root, va, p, 0, n, writable, exec).1,
    ensures
        ({
            let s = map_range(st, root, va, p, 0, n, writable, exec).0;
            &&& spaces_sound(s, roots)
            &&& forall|o: int|
                0 <= o < n * 0x1000 ==> #[trigger] translate(s.ram, root, (va + o) as u64) == Some(
                    (p + o) as u64,
                )
            &&& forall|r2: u64, va2: u64|
                roots.contains(r2) && outside(root, va, 0, n, r2, va2) ==> #[trigger] translate(
                    s.ram,
                    r2,
                    va2,
                ) == translate(st.ram, r2, va2)
        }),
{
    lemma_range(st, roots, root, va, p, 0, n, writable, exec, 0, 0, root, va);
    let s = map_range(st, root, va, p, 0, n, writable, exec).0;
    assert forall|o: int| 0 <= o < n * 0x1000 implies #[trigger] translate(
        s.ram,
        root,
        (va + o) as u64,
    ) == Some((p + o) as u64) by {
        let k = o / 0x1000;
        let d = o % 0x1000;
        assert(k * 0x1000 + d == o);
        assert(0 <= k < n);
        assert(page_of(va, k) + d == va + o);
        assert(page_of(p, k) + d == p + o);
        lemma_range(st, roots, root, va, p, 0, n, writable, exec, k, d, root, va);
    }
    assert forall|r2: u64, va2: u64|
        roots.contains(r2) && outside(root, va, 0, n, r2, va2) implies #[trigger] translate(
        s.ram,
        r2,
        va2,
    ) == translate(st.ram, r2, va2) by {
        lemma_range(st, roots, root, va, p, 0, n, writable, exec, 0, 0, r2, va2);
    }
}

/// A user page that was unmapped no longer translates. Every other page, of this address
/// space and of every other, is where it was, and the address spaces stay sound.
#[verifier::spinoff_prover]
#[verifier::rlimit(40)]
pub proof fn unmapping_a_page_moves_no_other(
    st: PhysState,
    roots: Set<u64>,
    root: u64,
    va: u64,
    va2: u64,
    r2: u64,
)
    requires
        spaces_sound(st, roots),
        roots.contains(root),
        roots.contains(r2),
        va < USER_END,
        clear_path(st.ram, root, va),
    ensures
        spaces_sound(PhysState { ram: unmapped(st.ram, root, va), ..st }, roots),
        r2 == root && same_page(va, va2) ==> translate(unmapped(st.ram, root, va), r2, va2) is None,
        !(r2 == root && same_page(va, va2)) ==> translate(unmapped(st.ram, root, va), r2, va2)
            == translate(st.ram, r2, va2),
{
    lemma_turns(va);
    lemma_path(st, roots, root, va);
    lemma_walk(st.ram, root, va);
    let s = PhysState { ram: unmapped(st.ram, root, va), ..st };
    if backed_leaf(st.ram, root, va) is Some {
        lemma_leaf_written(st, roots, root, va, 0);
    } else {
        assert(s == st);
    }
    if r2 == root && same_page(va, va2) {
        lemma_same_tables(s.ram, root, va, va2, 1);
        lemma_walk(s.ram, root, va);
        lemma_walk(s.ram, root, va2);
        assert(level_index(va, 1) == level_index(va2, 1));
        assert(level_index(va, 2) == level_index(va2, 2));
        assert(level_index(va, 3) == level_index(va2, 3));
        assert(level_index(va, 4) == level_index(va2, 4));
        if leaf_table(st.ram, root, va) is Some {
            unmap_then_translate(st, root, va);
            assert(clear_path(s.ram, root, va));
            assert(table_at(s.ram, root, va, 4) is Some);
            if table_at(s.ram, root, va, 3) is Some {
                if table_at(s.ram, root, va, 2) is Some {
                }
            }
        } else {
            assert(table_at(st.ram, root, va, 4) is Some);
            if table_at(st.ram, root, va, 3) is Some {
                if table_at(st.ram, root, va, 2) is Some {
                }
            }
        }
    }
}

/// Memory after an address space has been created: a root in a fresh frame, with the
/// user half empty and the kernel's half that of `kernel`.
pub open spec fn with_space(st: PhysState, kernel: u64) -> PhysState {
    let (s1, pa) = alloc_page(st);
    PhysState {
        ram: with_table(s1.ram, pa->Some_0 as int, fresh_space_entries(s1.ram, kernel)),
        ..s1
    }
}

/// The entries of a table that was written whole.
pub proof fn lemma_table_reads_back(ram: Seq<u8>, t: u64, entries: Seq<u64>, k: int)
    requires
        entries.len() == 512,
        0 <= k < 512,
        t + 4096 <= ram.len(),
    ensures
        entry(with_table(ram, t as int, entries), t, k) == entries[k],
{
    let now = with_table(ram, t as int, entries);
    let at = t + 8 * k;
    let w = bytes64(entries[k]);
    lemma_bytes64(entries[k]);
    assert forall|j: int| 0 <= j < 8 implies now[at + j] == #[trigger] w[j] by {
        assert((at + j - t) / 8 == k);
        assert((at + j - t) % 8 == j);
    }
    lemma_get64_in(now, at, w);
}

/// What is in a frame in use stays there when an address space is created.
proof fn lemma_old_entries(st: PhysState, kernel: u64, t: u64, k: int)
    requires
        memory_sound(st),
        table_sound(st, t),
        0 <= k < 512,
        alloc_page(st).1 is Some,
    ensures
        entry(with_space(st, kernel).ram, t, k) == entry(st.ram, t, k),
        entry(alloc_page(st).0.ram, t, k) == entry(st.ram, t, k),
{
    next_free_is_free(st.bits, st.hint);
    let f = next_free(st.bits, st.hint)->Some_0;
    let s1 = alloc_page(st).0;
    let s2 = with_space(st, kernel);
    assert(frame(t) != f);
    lemma_same_word(s1.ram, st.ram, t + 8 * k);
    lemma_same_word(s2.ram, st.ram, t + 8 * k);
}

/// What the walks of a new address space, and of one that was there, come to.
spec fn joined(st: PhysState, kernel: u64, new: u64, r: u64, va: u64) -> bool {
    let ram = with_space(st, kernel).ram;
    if r == new {
        &&& table_at(ram, new, va, 4) == Some(new)
        &&& forall|l: int|
            1 <= l <= 3 ==> #[trigger] table_at(ram, new, va, l) == if level_index(va, 4) < 256 {
                None
            } else {
                table_at(st.ram, kernel, va, l)
            }
        &&& translate(ram, new, va) == if level_index(va, 4) < 256 {
            None
        } else {
            translate(st.ram, kernel, va)
        }
    } else {
        &&& forall|l: int|
            1 <= l <= 4 ==> #[trigger] table_at(ram, r, va, l) == table_at(st.ram, r, va, l)
        &&& translate(ram, r, va) == translate(st.ram, r, va)
    }
}

#[verifier::spinoff_prover]
#[verifier::rlimit(40)]
proof fn lemma_joined(st: PhysState, roots: Set<u64>, kernel: u64, new: u64, r: u64, va: u64)
    requires
        spaces_sound(st, roots),
        roots.contains(kernel),
        roots.contains(r) || r == new,
        alloc_page(st).1 == Some(new),
    ensures
        joined(st, kernel, new, r, va),
{
    let s1 = alloc_page(st).0;
    let s2 = with_space(st, kernel);
    lemma_in_use(st, roots, kernel, va, 4);
    next_free_is_free(st.bits, st.hint);
    let f = next_free(st.bits, st.hint)->Some_0;
    assert(new == f * 4096);
    lemma_walk(st.ram, kernel, va);
    if r != new {
        assert forall|l: int|
            1 <= l <= 4 && (#[trigger] table_at(st.ram, r, va, l)) is Some implies {
            let t = table_at(st.ram, r, va, l)->Some_0;
            entry(s2.ram, t, level_index(va, l)) == entry(st.ram, t, level_index(va, l))
        } by {
            lemma_in_use(st, roots, r, va, l);
            lemma_index(va, l);
            lemma_old_entries(st, kernel, table_at(st.ram, r, va, l)->Some_0, level_index(va, l));
        }
        lemma_same_walk(st.ram, s2.ram, r, va);
    } else {
        let i4 = level_index(va, 4);
        lemma_index(va, 4);
        lemma_table_reads_back(s1.ram, new, fresh_space_entries(s1.ram, kernel), i4);
        lemma_old_entries(st, kernel, kernel, i4);
        lemma_walk(s2.ram, new, va);
        assert(0u64 & 1 == 0) by (bit_vector);
        if i4 >= 256 {
            assert(pml4e(s2.ram, new, va) == pml4e(st.ram, kernel, va));
            assert forall|l: int|
                1 <= l <= 3 && (#[trigger] table_at(st.ram, kernel, va, l)) is Some implies {
                let t = table_at(st.ram, kernel, va, l)->Some_0;
                entry(s2.ram, t, level_index(va, l)) == entry(st.ram, t, level_index(va, l))
            } by {
                lemma_in_use(st, roots, kernel, va, l);
                lemma_index(va, l);
                lemma_old_entries(
                    st,
                    kernel,
                    table_at(st.ram, kernel, va, l)->Some_0,
                    level_index(va, l),
                );
            }
            if table_at(st.ram, kernel, va, 3) is Some {
                if table_at(st.ram, kernel, va, 2) is Some {
                    if table_at(st.ram, kernel, va, 1) is Some {
                    }
                }
            }
        }
        assert forall|l: int| 1 <= l <= 3 implies #[trigger] table_at(s2.ram, new, va, l) == if i4
            < 256 {
            None
        } else {
            table_at(st.ram, kernel, va, l)
        } by {
            assert(l == 1 || l == 2 || l == 3);
        }
    }
}

/// A new address space joins the others: its user half is empty, its kernel half is the
/// kernel's, no page of another address space moves, and all of them are sound together.
#[verifier::spinoff_prover]
pub proof fn a_new_space_is_empty_and_moves_no_other(
    st: PhysState,
    roots: Set<u64>,
    kernel: u64,
    new: u64,
)
    requires
        spaces_sound(st, roots),
        roots.contains(kernel),
        alloc_page(st).1 == Some(new),
    ensures
        spaces_sound(with_space(st, kernel), roots.insert(new)),
        forall|va: u64|
            va < USER_END ==> (#[trigger] translate(with_space(st, kernel).ram, new, va)) is None,
        forall|r: u64, va: u64|
            roots.contains(r) ==> #[trigger] translate(with_space(st, kernel).ram, r, va)
                == translate(st.ram, r, va),
{
    let s2 = with_space(st, kernel);
    let all = roots.insert(new);
    lemma_in_use(st, roots, kernel, 0, 4);
    next_free_is_free(st.bits, st.hint);
    let f = next_free(st.bits, st.hint)->Some_0;
    assert(new == f * 4096);
    assert forall|r: u64| #[trigger] roots.contains(r) implies r != new by {
        lemma_in_use(st, roots, r, 0, 4);
        lemma_walk(st.ram, r, 0);
    }
    assert forall|r: u64, va: u64| #[trigger] all.contains(r) implies #[trigger] joined(
        st,
        kernel,
        new,
        r,
        va,
    ) by {
        lemma_joined(st, roots, kernel, new, r, va);
    }
    assert forall|r: u64, va: u64, l: int|
        all.contains(r) && 1 <= l <= 4 && table_at(s2.ram, r, va, l) is Some implies table_sound(
        s2,
        (#[trigger] table_at(s2.ram, r, va, l))->Some_0,
    ) by {
        assert(joined(st, kernel, new, r, va));
        if r == new {
            lemma_in_use(st, roots, kernel, va, l);
        } else {
            lemma_in_use(st, roots, r, va, l);
        }
    }
    assert forall|r: u64, va: u64, l: int, r2: u64, va2: u64, l2: int|
        all.contains(r) && all.contains(r2) && 1 <= l <= 4 && 1 <= l2 <= 4 && table_at(
            s2.ram,
            r,
            va,
            l,
        ) is Some && #[trigger] table_at(s2.ram, r, va, l) == #[trigger] table_at(
            s2.ram,
            r2,
            va2,
            l2,
        ) implies l == l2 && same_place(r, va, r2, va2, l) by {
        assert(joined(st, kernel, new, r, va));
        assert(joined(st, kernel, new, r2, va2));
        let a = if r == new {
            kernel
        } else {
            r
        };
        let b = if r2 == new {
            kernel
        } else {
            r2
        };
        lemma_in_use(st, roots, a, va, l);
        lemma_in_use(st, roots, b, va2, l2);
        if r == new && l == 4 {
            if r2 == new && l2 == 4 {
            } else {
                assert(table_at(st.ram, b, va2, l2) == Some(new));
            }
        } else if r2 == new && l2 == 4 {
            assert(table_at(st.ram, a, va, l) == Some(new));
        } else {
            lemma_one_place(st, roots, a, va, l, b, va2, l2);
            if r == new || r2 == new {
                assert(level_index(va, 4) == level_index(va2, 4));
            }
        }
    }
    assert(spaces_sound(s2, all)) by {
        reveal(spaces_sound);
    }
    assert forall|va: u64| va < USER_END implies (#[trigger] translate(s2.ram, new, va)) is None by {
        assert(all.contains(new));
        assert(joined(st, kernel, new, new, va));
        lemma_turns(va);
    }
    assert forall|r: u64, va: u64| roots.contains(r) implies #[trigger] translate(s2.ram, r, va)
        == translate(st.ram, r, va) by {
        assert(all.contains(r));
        assert(joined(st, kernel, new, r, va));
    }
}

/// Taking a frame moves no page of any address space.
#[verifier::spinoff_prover]
pub proof fn taking_a_frame_moves_no_page(st: PhysState, roots: Set<u64>)
    requires
        spaces_sound(st, roots),
        alloc_page(st).1 is Some,
    ensures
        spaces_sound(alloc_page(st).0, roots),
        forall|r: u64, va: u64|
            roots.contains(r) ==> #[trigger] translate(alloc_page(st).0.ram, r, va) == translate(
                st.ram,
                r,
                va,
            ),
        forall|r: u64, va: u64|
            roots.contains(r) && clear_path(st.ram, r, va) ==> #[trigger] clear_path(
                alloc_page(st).0.ram,
                r,
                va,
            ),
{
    let s1 = alloc_page(st).0;
    assert(memory_sound(st)) by {
        reveal(spaces_sound);
    }
    next_free_is_free(st.bits, st.hint);
    assert forall|r: u64, va: u64| roots.contains(r) implies unmoved(st, s1, r, va) by {
        assert forall|l: int|
            1 <= l <= 4 && (#[trigger] table_at(st.ram, r, va, l)) is Some implies {
            let t = table_at(st.ram, r, va, l)->Some_0;
            entry(s1.ram, t, level_index(va, l)) == entry(st.ram, t, level_index(va, l))
        } by {
            lemma_in_use(st, roots, r, va, l);
            lemma_index(va, l);
            lemma_old_entries(st, 0, table_at(st.ram, r, va, l)->Some_0, level_index(va, l));
        }
        lemma_same_walk(st.ram, s1.ram, r, va);
        assert forall|m: int| 2 <= m <= 3 && clear_path(st.ram, r, va) && (#[trigger] table_at(
            s1.ram,
            r,
            va,
            m,
        )) is Some implies {
            let e = entry(s1.ram, table_at(s1.ram, r, va, m)->Some_0, level_index(va, m));
            !(present(e) && large(e))
        } by {
            assert(table_at(st.ram, r, va, m) is Some);
        }
    }
    assert forall|r: u64, va: u64, l: int|
        roots.contains(r) && 1 <= l <= 4 && table_at(s1.ram, r, va, l) is Some implies table_sound(
        s1,
        (#[trigger] table_at(s1.ram, r, va, l))->Some_0,
    ) by {
        assert(unmoved(st, s1, r, va));
        lemma_in_use(st, roots, r, va, l);
    }
    assert forall|r: u64, va: u64, l: int, r2: u64, va2: u64, l2: int|
        roots.contains(r) && roots.contains(r2) && 1 <= l <= 4 && 1 <= l2 <= 4 && table_at(
            s1.ram,
            r,
            va,
            l,
        ) is Some && #[trigger] table_at(s1.ram, r, va, l) == #[trigger] table_at(
            s1.ram,
            r2,
            va2,
            l2,
        ) implies l == l2 && same_place(r, va, r2, va2, l) by {
        assert(unmoved(st, s1, r, va));
        assert(unmoved(st, s1, r2, va2));
        lemma_one_place(st, roots, r, va, l, r2, va2, l2);
    }
    assert(spaces_sound(s1, roots)) by {
        reveal(spaces_sound);
    }
    assert forall|r: u64, va: u64| roots.contains(r) implies #[trigger] translate(s1.ram, r, va)
        == translate(st.ram, r, va) by {
        assert(unmoved(st, s1, r, va));
    }
    assert forall|r: u64, va: u64|
        roots.contains(r) && clear_path(st.ram, r, va) implies #[trigger] clear_path(
        s1.ram,
        r,
        va,
    ) by {
        assert(unmoved(st, s1, r, va));
    }
}

/// A walk is as it was.
spec fn unmoved(st: PhysState, s1: PhysState, r: u64, va: u64) -> bool {
    &&& translate(s1.ram, r, va) == translate(st.ram, r, va)
    &&& clear_path(st.ram, r, va) ==> clear_path(s1.ram, r, va)
    &&& forall|l: int|
        1 <= l <= 4 ==> #[trigger] table_at(s1.ram, r, va, l) == table_at(st.ram, r, va, l)
}

} // verus!
