//! Tearing down address spaces, and private copies of shared pages.
use crate::bytes::{overlay, put_bytes};
use crate::mm::phys::{
    alloc_page, free_page, mm_allocate_page, mm_free_page, PhysState, PhysicalMemory,
};
use crate::mm::vad::{release, release_frame};
use crate::mm::virt::{
    entry, large, level_index, present, read_entry, read_table, replicate, replicated, set_entry,
    table_entries, table_index, with_table, write_entry, write_table, ADDR_MASK, ENTRY_LARGE,
    ENTRY_NX, ENTRY_PRESENT, ENTRY_RW, ENTRY_USER, FLAG_MASK,
};
use crate::mm::{PhysAddr, PhysWindow};
use vstd::prelude::*;

verus! {

/// The frames under entries `i ..` of a table at `level` (3 = PDPT, 1 = PT), in
/// walking order, then the table itself: every present leaf's backing frame and
/// every table.
pub open spec fn frames_below(ram: Seq<u8>, table: u64, level: int, i: int) -> Seq<u64>
    decreases level, 512 - i,
{
    if i >= 512 || i < 0 {
        seq![table]
    } else {
        let e = entry(ram, table, i);
        let rest = frames_below(ram, table, level, i + 1);
        if !present(e) {
            rest
        } else if level > 1 {
            frames_below(ram, e & ADDR_MASK, level - 1, 0) + rest
        } else {
            seq![e & ADDR_MASK] + rest
        }
    }
}

/// Every frame owned by the low half of the address space `pml4`, from PML4
/// entry `i` on, then the PML4 itself.
pub open spec fn space_frames(ram: Seq<u8>, pml4: u64, i: int) -> Seq<u64>
    decreases 256 - i,
{
    if i >= 256 {
        seq![pml4]
    } else {
        let e = entry(ram, pml4, i);
        let rest = space_frames(ram, pml4, i + 1);
        if present(e) {
            frames_below(ram, e & ADDR_MASK, 3, 0) + rest
        } else {
            rest
        }
    }
}

/// Freeing a list of frames.
pub open spec fn free_all(st: PhysState, frames: Seq<u64>) -> PhysState
    decreases frames.len(),
{
    if frames.len() == 0 {
        st
    } else {
        free_page(free_all(st, frames.drop_last()), frames.last())
    }
}

/// The frames are all in use and listed once.
pub open spec fn releasable(st: PhysState, frames: Seq<u64>) -> bool {
    &&& forall|i: int|
        0 <= i < frames.len() ==> 4096 <= (#[trigger] frames[i]) && frames[i] as int / 4096
            < st.bits.len() && st.bits[frames[i] as int / 4096]
    &&& forall|i: int, j: int|
        0 <= i < j < frames.len() ==> (#[trigger] frames[i]) as int / 4096 != (
        #[trigger] frames[j]) as int / 4096
}

/// Freeing listed frames frees exactly those.
pub proof fn free_all_frees_exactly_those(st: PhysState, frames: Seq<u64>)
    requires
        releasable(st, frames),
    ensures
        free_all(st, frames).bits.len() == st.bits.len(),
        free_all(st, frames).ram == st.ram,
        free_all(st, frames).free == st.free + frames.len(),
        forall|f: int|
            0 <= f < st.bits.len() ==> #[trigger] free_all(st, frames).bits[f] == (st.bits[f] && !(
            exists|i: int| 0 <= i < frames.len() && (#[trigger] frames[i]) as int / 4096 == f)),
    decreases frames.len(),
{
    if frames.len() > 0 {
        let init = frames.drop_last();
        let n = frames.len() - 1;
        assert(releasable(st, init)) by {
            assert forall|i: int, j: int| 0 <= i < j < init.len() implies (
            #[trigger] init[i]) as int / 4096 != (#[trigger] init[j]) as int / 4096 by {
                assert(frames[i] as int / 4096 != frames[j] as int / 4096);
            }
            assert forall|i: int| 0 <= i < init.len() implies (#[trigger] init[i]) as int / 4096
                < st.bits.len() && st.bits[init[i] as int / 4096] by {
                assert(frames[i] as int / 4096 < st.bits.len());
            }
        }
        free_all_frees_exactly_those(st, init);
        let a = free_all(st, init);
        let b = free_all(st, frames);
        assert(b == free_page(a, frames[n]));
        assert forall|f: int| 0 <= f < st.bits.len() implies #[trigger] b.bits[f] == (st.bits[f]
            && !(exists|i: int| 0 <= i < frames.len() && (#[trigger] frames[i]) as int / 4096 == f)) by {
            assert(a.bits[f] == (st.bits[f] && !(exists|i: int|
                0 <= i < init.len() && (#[trigger] init[i]) as int / 4096 == f)));
            if frames[n] as int / 4096 == f {
            } else {
                if exists|i: int| 0 <= i < frames.len() && (#[trigger] frames[i]) as int / 4096 == f {
                    let i = choose|i: int|
                        0 <= i < frames.len() && (#[trigger] frames[i]) as int / 4096 == f;
                    assert(init[i] as int / 4096 == f);
                }
                if exists|i: int| 0 <= i < init.len() && (#[trigger] init[i]) as int / 4096 == f {
                    let i = choose|i: int|
                        0 <= i < init.len() && (#[trigger] init[i]) as int / 4096 == f;
                    assert(frames[i] as int / 4096 == f);
                }
            }
        }
    }
}

fn collect_below(phys: &PhysicalMemory, table: u64, level: u8, out: &mut Vec<u64>)
    requires
        1 <= level <= 3,
    ensures
        final(out)@ == old(out)@ + frames_below(phys@.ram, table, level as int, 0),
    decreases level,
{
    let ghost start = out@;
    let mut i: usize = 0;
    while i < 512
        invariant
            1 <= level <= 3,
            i <= 512,
            out@ + frames_below(phys@.ram, table, level as int, i as int) == start + frames_below(
                phys@.ram,
                table,
                level as int,
                0,
            ),
        decreases 512 - i,
    {
        let ghost before = out@;
        let e: u64 = read_entry(phys, table, i);
        if e & ENTRY_PRESENT != 0 {
            let child: u64 = e & ADDR_MASK;
            if level > 1 {
                collect_below(phys, child, level - 1, out);
            } else {
                out.push(child);
            }
        }
        proof {
            let rest = frames_below(phys@.ram, table, level as int, i + 1);
            assert(out@ + rest =~= before + frames_below(
                phys@.ram,
                table,
                level as int,
                i as int,
            ));
        }
        i = i + 1;
    }
    out.push(table);
    assert(out@ =~= start + frames_below(phys@.ram, table, level as int, 0));
}

fn release_all(phys: &mut PhysicalMemory, frames: &Vec<u64>)
    requires
        old(phys).wf(),
        releasable(old(phys)@, frames@),
    ensures
        final(phys).wf(),
        final(phys)@ == free_all(old(phys)@, frames@),
{
    let ghost before = phys@;
    let mut i: usize = 0;
    while i < frames.len()
        invariant
            i <= frames@.len(),
            phys.wf(),
            releasable(before, frames@),
            phys@ == free_all(before, frames@.take(i as int)),
        decreases frames@.len() - i,
    {
        proof {
            let done = frames@.take(i as int);
            assert(releasable(before, done)) by {
                assert forall|a: int, b: int| 0 <= a < b < done.len() implies (
                #[trigger] done[a]) as int / 4096 != (#[trigger] done[b]) as int / 4096 by {
                    assert(frames@[a] as int / 4096 != frames@[b] as int / 4096);
                }
                assert forall|a: int| 0 <= a < done.len() implies (#[trigger] done[a]) as int / 4096
                    < before.bits.len() && before.bits[done[a] as int / 4096] by {
                    assert(frames@[a] as int / 4096 < before.bits.len());
                }
            }
            free_all_frees_exactly_those(before, done);
            let f = frames@[i as int] as int / 4096;
            assert(f < before.bits.len() && before.bits[f]);
            if exists|a: int| 0 <= a < done.len() && (#[trigger] done[a]) as int / 4096 == f {
                let a = choose|a: int| 0 <= a < done.len() && (#[trigger] done[a]) as int / 4096
                    == f;
                assert(frames@[a] as int / 4096 != frames@[i as int] as int / 4096);
            }
            assert(phys@.bits[f]);
            assert(frames@.take(i + 1).drop_last() =~= done);
        }
        mm_free_page(phys, PhysAddr(frames[i]));
        i = i + 1;
    }
    assert(frames@.take(frames@.len() as int) =~= frames@);
}

/// Free an entire per-process address space: every low-half leaf's backing
/// frame, the intermediate tables, and the PML4 itself. Each of them must be in
/// use and reachable once; the space must not be loaded in CR3.
pub fn mm_free_user_address_space(phys: &mut PhysicalMemory, pml4: PhysAddr)
    requires
        old(phys).wf(),
        releasable(old(phys)@, space_frames(old(phys)@.ram, pml4.0, 0)),
    ensures
        final(phys).wf(),
        final(phys)@ == free_all(old(phys)@, space_frames(old(phys)@.ram, pml4.0, 0)),
{
    let mut frames: Vec<u64> = Vec::new();
    let mut i: usize = 0;
    while i < 256
        invariant
            i <= 256,
            frames@ + space_frames(phys@.ram, pml4.0, i as int) == space_frames(
                phys@.ram,
                pml4.0,
                0,
            ),
        decreases 256 - i,
    {
        let ghost before = frames@;
        let e: u64 = read_entry(phys, pml4.0, i);
        if e & ENTRY_PRESENT != 0 {
            collect_below(phys, e & ADDR_MASK, 3, &mut frames);
        }
        proof {
            assert(frames@ + space_frames(phys@.ram, pml4.0, i + 1) =~= before + space_frames(
                phys@.ram,
                pml4.0,
                i as int,
            ));
        }
        i = i + 1;
    }
    frames.push(pml4.0);
    assert(frames@ =~= space_frames(phys@.ram, pml4.0, 0));
    release_all(phys, &frames);
}

// ---------------------------------------------------------------------------
// Private copies of shared pages
// ---------------------------------------------------------------------------
/// Most cloned tables one process may hold.
pub const MAX_PRIV_TABLES: usize = 16;

/// Most private frames one process may hold.
pub const MAX_PRIV_FRAMES: usize = 256;

/// One process's private copies of shared pages: the cloned page tables and the
/// frames backing the copies.
pub struct Privatized {
    /// The process's private PDPT for the window's PML4 slot (0 = none yet).
    pub pdpt: PhysAddr,
    /// Cloned and split tables.
    pub tables: Vec<u64>,
    /// Private data frames.
    pub frames: Vec<u64>,
}

/// The abstract record.
#[verifier::ext_equal]
pub struct PrivState {
    pub pdpt: u64,
    pub tables: Seq<u64>,
    pub frames: Seq<u64>,
}

impl View for Privatized {
    type V = PrivState;

    open spec fn view(&self) -> PrivState {
        PrivState { pdpt: self.pdpt.0, tables: self.tables@, frames: self.frames@ }
    }
}

/// The record of a process with no private pages.
pub open spec fn no_private() -> PrivState {
    PrivState { pdpt: 0, tables: Seq::empty(), frames: Seq::empty() }
}

impl Privatized {
    /// An empty record.
    pub fn new() -> (r: Self)
        ensures
            r@ == no_private(),
    {
        Privatized { pdpt: PhysAddr(0), tables: Vec::new(), frames: Vec::new() }
    }

    /// Record a table; `None` (and no change) at the cap.
    fn push_table(&mut self, t: u64) -> (r: Option<()>)
        ensures
            r is Some == (old(self)@.tables.len() < MAX_PRIV_TABLES),
            final(self)@ == if r is Some {
                (PrivState { tables: old(self)@.tables.push(t), ..old(self)@ })
            } else {
                old(self)@
            },
    {
        if self.tables.len() >= MAX_PRIV_TABLES {
            return None;
        }
        self.tables.push(t);
        Some(())
    }

    /// Record a frame; `None` (and no change) at the cap.
    fn push_frame(&mut self, f: u64) -> (r: Option<()>)
        ensures
            r is Some == (old(self)@.frames.len() < MAX_PRIV_FRAMES),
            final(self)@ == if r is Some {
                (PrivState { frames: old(self)@.frames.push(f), ..old(self)@ })
            } else {
                old(self)@
            },
    {
        if self.frames.len() >= MAX_PRIV_FRAMES {
            return None;
        }
        self.frames.push(f);
        Some(())
    }

    /// Is `t` one of the recorded tables?
    fn is_ours(&self, t: u64) -> (r: bool)
        ensures
            r == self@.tables.contains(t),
    {
        let mut i: usize = 0;
        while i < self.tables.len()
            invariant
                i <= self.tables@.len(),
                forall|k: int| 0 <= k < i ==> self.tables@[k] != t,
            decreases self.tables@.len() - i,
        {
            if self.tables[i] == t {
                assert(self.tables@[i as int] == t);
                return true;
            }
            i = i + 1;
        }
        false
    }
}

/// The finer entries that replicate a large entry at `level` (3 = 1 GiB, split
/// into 2 MiB pages; 2 = 2 MiB, split into 4 KiB leaves).
pub open spec fn split_entries(e: u64, level: int) -> Seq<u64> {
    if level == 3 {
        replicated(e & ADDR_MASK & !0x3FFF_FFFFu64, 0x20_0000, e & FLAG_MASK)
    } else {
        replicated(e & ADDR_MASK & !0x1F_FFFFu64, 0x1000, e & FLAG_MASK & !ENTRY_LARGE)
    }
}

/// Give the leaf of `va` below `parent` (a table at `level`) a private frame
/// holding the first page of `seed`: shared tables on the way are cloned, large
/// entries split, own tables reused. The state, the record, and whether it
/// worked: it does not when the range is not mapped, no frame is free, or the
/// record is full.
#[verifier::opaque]
pub open spec fn privatize_from(
    st: PhysState,
    rec: PrivState,
    parent: u64,
    level: int,
    va: u64,
    seed: Seq<u8>,
) -> (PhysState, PrivState, bool)
    decreases level,
{
    let idx = level_index(va, level);
    let e = entry(st.ram, parent, idx);
    let (s1, fresh) = alloc_page(st);
    if !present(e) {
        (st, rec, false)
    } else if level <= 1 {
        match fresh {
            None => (st, rec, false),
            Some(f) => {
                let s2 = PhysState { ram: overlay(s1.ram, f as int, seed.take(4096)), ..s1 };
                if rec.frames.len() >= MAX_PRIV_FRAMES {
                    (free_page(s2, f), rec, false)
                } else {
                    (
                        set_entry(s2, parent, idx, (e & !ADDR_MASK) | f),
                        PrivState { frames: rec.frames.push(f), ..rec },
                        true,
                    )
                }
            },
        }
    } else if !large(e) && rec.tables.contains(e & ADDR_MASK) {
        privatize_from(st, rec, e & ADDR_MASK, level - 1, va, seed)
    } else {
        match fresh {
            None => (st, rec, false),
            Some(t) => {
                let entries = if large(e) {
                    split_entries(e, level)
                } else {
                    table_entries(s1.ram, e & ADDR_MASK)
                };
                let s2 = PhysState { ram: with_table(s1.ram, t as int, entries), ..s1 };
                if rec.tables.len() >= MAX_PRIV_TABLES {
                    (free_page(s2, t), rec, false)
                } else {
                    let link = if large(e) {
                        t | ENTRY_PRESENT | (e & (ENTRY_RW | ENTRY_USER | ENTRY_NX))
                    } else {
                        t | (e & !ADDR_MASK)
                    };
                    privatize_from(
                        set_entry(s2, parent, idx, link),
                        PrivState { tables: rec.tables.push(t), ..rec },
                        t,
                        level - 1,
                        va,
                        seed,
                    )
                }
            },
        }
    }
}

proof fn lemma_masks(e: u64)
    by (bit_vector)
    ensures
        e & ADDR_MASK <= 0x000F_FFFF_FFFF_F000,
        (e & ADDR_MASK) % 4096 == 0,
        e & ADDR_MASK & !0x3FFF_FFFFu64 <= 0x000F_FFFF_FFFF_F000,
        e & ADDR_MASK & !0x1F_FFFFu64 <= 0x000F_FFFF_FFFF_F000,
{
}

fn private_table(
    phys: &mut PhysicalMemory,
    rec: &mut Privatized,
    parent: u64,
    level: u8,
    idx: usize,
    e: u64,
) -> (r: Option<u64>)
    requires
        old(phys).wf(),
        2 <= level <= 3,
        idx < 512,
    ensures
        final(phys).wf(),
        ({
            let (s1, fresh) = alloc_page(old(phys)@);
            match fresh {
                None => r is None && final(phys)@ == old(phys)@ && final(rec)@ == old(rec)@,
                Some(t) => {
                    let entries = if large(e) {
                        split_entries(e, level as int)
                    } else {
                        table_entries(s1.ram, e & ADDR_MASK)
                    };
                    let s2 = PhysState { ram: with_table(s1.ram, t as int, entries), ..s1 };
                    let link = if large(e) {
                        t | ENTRY_PRESENT | (e & (ENTRY_RW | ENTRY_USER | ENTRY_NX))
                    } else {
                        t | (e & !ADDR_MASK)
                    };
                    if old(rec)@.tables.len() >= MAX_PRIV_TABLES {
                        r is None && final(phys)@ == free_page(s2, t) && final(rec)@ == old(rec)@
                    } else {
                        r == Some(t) && final(phys)@ == set_entry(s2, parent, idx as int, link)
                            && final(rec)@ == PrivState {
                            tables: old(rec)@.tables.push(t),
                            ..old(rec)@
                        }
                    }
                },
            }
        }),
{
    let t: u64 = match mm_allocate_page(phys) {
        Some(t) => t.0,
        None => {
            return None;
        },
    };
    proof {
        lemma_masks(e);
    }
    let entries: Vec<u64> = if e & ENTRY_LARGE == 0 {
        read_table(phys, e & ADDR_MASK)
    } else if level == 3 {
        replicate(e & ADDR_MASK & !0x3FFF_FFFFu64, 0x20_0000, e & FLAG_MASK)
    } else {
        replicate(e & ADDR_MASK & !0x1F_FFFFu64, 0x1000, e & FLAG_MASK & !ENTRY_LARGE)
    };
    write_table(phys, t, &entries);
    if rec.push_table(t).is_none() {
        mm_free_page(phys, PhysAddr(t));
        return None;
    }
    let link: u64 = if e & ENTRY_LARGE != 0 {
        t | ENTRY_PRESENT | (e & (ENTRY_RW | ENTRY_USER | ENTRY_NX))
    } else {
        t | (e & !ADDR_MASK)
    };
    write_entry(phys, parent, idx, link);
    Some(t)
}

fn private_leaf(
    phys: &mut PhysicalMemory,
    rec: &mut Privatized,
    parent: u64,
    va: u64,
    seed: &[u8],
) -> (ok: bool)
    requires
        old(phys).wf(),
        seed@.len() >= 4096,
    ensures
        final(phys).wf(),
        (final(phys)@, final(rec)@, ok) == privatize_from(
            old(phys)@,
            old(rec)@,
            parent,
            1,
            va,
            seed@,
        ),
{
    reveal_with_fuel(privatize_from, 1);
    let e: u64 = read_entry(phys, parent, table_index(va, 1));
    if e & ENTRY_PRESENT == 0 {
        return false;
    }
    let f: u64 = match mm_allocate_page(phys) {
        Some(f) => f.0,
        None => {
            return false;
        },
    };
    let n: usize = phys.ram.len();
    let page = vstd::slice::slice_subrange(seed, 0, 4096);
    assert(page@ =~= seed@.take(4096));
    put_bytes(&mut phys.ram, f as usize, page);
    if rec.push_frame(f).is_none() {
        mm_free_page(phys, PhysAddr(f));
        return false;
    }
    write_entry(phys, parent, table_index(va, 1), (e & !ADDR_MASK) | f);
    true
}

/// Clone the chain from `parent` (a table at `level`) down to `va`'s leaf and
/// give the leaf a fresh frame initialized from `seed`.
fn privatize_below(
    phys: &mut PhysicalMemory,
    rec: &mut Privatized,
    parent: u64,
    level: u8,
    va: u64,
    seed: &[u8],
) -> (ok: bool)
    requires
        old(phys).wf(),
        1 <= level <= 3,
        seed@.len() >= 4096,
    ensures
        final(phys).wf(),
        (final(phys)@, final(rec)@, ok) == privatize_from(
            old(phys)@,
            old(rec)@,
            parent,
            level as int,
            va,
            seed@,
        ),
    decreases level,
{
    if level == 1 {
        return private_leaf(phys, rec, parent, va, seed);
    }
    reveal_with_fuel(privatize_from, 1);
    let idx: usize = table_index(va, level);
    let e: u64 = read_entry(phys, parent, idx);
    if e & ENTRY_PRESENT == 0 {
        return false;
    }
    if e & ENTRY_LARGE == 0 && rec.is_ours(e & ADDR_MASK) {
        return privatize_below(phys, rec, e & ADDR_MASK, level - 1, va, seed);
    }
    match private_table(phys, rec, parent, level, idx, e) {
        Some(t) => privatize_below(phys, rec, t, level - 1, va, seed),
        None => false,
    }
}

/// Give `va` a private page below the record's PDPT, holding the first page of
/// `seed`.
pub fn privatize_leaf(phys: &mut PhysicalMemory, rec: &mut Privatized, va: u64, seed: &[u8]) -> (ok:
    bool)
    requires
        old(phys).wf(),
        seed@.len() >= 4096,
    ensures
        final(phys).wf(),
        (final(phys)@, final(rec)@, ok) == privatize_from(
            old(phys)@,
            old(rec)@,
            old(rec)@.pdpt,
            3,
            va,
            seed@,
        ),
{
    let parent: u64 = rec.pdpt.0;
    privatize_below(phys, rec, parent, 3, va, seed)
}

/// Make sure the process's PML4 slot `slot` holds a private PDPT: nothing to do
/// when the record has one; otherwise the shared one is cloned.
pub open spec fn ensure_pdpt(st: PhysState, rec: PrivState, pml4: u64, slot: int) -> (
    PhysState,
    PrivState,
    bool,
) {
    let cur = entry(st.ram, pml4, slot);
    let (s1, fresh) = alloc_page(st);
    if rec.pdpt != 0 {
        (st, rec, true)
    } else if !present(cur) {
        (st, rec, false)
    } else {
        match fresh {
            None => (st, rec, false),
            Some(c) => {
                let s2 = PhysState {
                    ram: with_table(s1.ram, c as int, table_entries(s1.ram, cur & ADDR_MASK)),
                    ..s1
                };
                if rec.tables.len() >= MAX_PRIV_TABLES {
                    (free_page(s2, c), rec, false)
                } else {
                    (
                        set_entry(s2, pml4, slot, c | (cur & !ADDR_MASK)),
                        PrivState { pdpt: c, tables: rec.tables.push(c), ..rec },
                        true,
                    )
                }
            },
        }
    }
}

/// Privatizing the pages of `[page, end)` one after the other, up to the first
/// that fails; `base` is where `seed` starts.
pub open spec fn privatize_range(
    st: PhysState,
    rec: PrivState,
    base: int,
    page: int,
    end: int,
    seed: Seq<u8>,
) -> (PhysState, PrivState, bool)
    decreases end + 0x1000 - page,
{
    if page >= end {
        (st, rec, true)
    } else {
        let (s1, r1, ok) = privatize_from(
            st,
            rec,
            rec.pdpt,
            3,
            page as u64,
            seed.skip(page - base),
        );
        if ok {
            privatize_range(s1, r1, base, page + 0x1000, end, seed)
        } else {
            (s1, r1, false)
        }
    }
}

/// Privatizing the pages of `[va, va + len)`, up to the first that fails.
pub open spec fn privatize_tried(
    st: PhysState,
    rec: PrivState,
    window: u64,
    pml4: u64,
    va: u64,
    len: int,
    seed: Seq<u8>,
) -> (PhysState, PrivState, bool) {
    let (s1, r1, ok) = ensure_pdpt(st, rec, pml4, level_index(window, 4));
    let base = (va as int / 0x1000) * 0x1000;
    if ok {
        privatize_range(s1, r1, base, base, va + len, seed)
    } else {
        (s1, r1, false)
    }
}

/// Byte `b` lies in one of the pages of a list.
pub open spec fn in_pages(list: Seq<u64>, b: int) -> bool {
    exists|k: int| 0 <= k < list.len() && (#[trigger] list[k]) <= b < list[k] + 4096
}

/// Memory with the pages of a list as they were.
pub open spec fn put_back(ram: Seq<u8>, was: Seq<u8>, list: Seq<u64>) -> Seq<u8> {
    Seq::new(
        ram.len(),
        |b: int|
            if in_pages(list, b) {
                was[b]
            } else {
                ram[b]
            },
    )
}

/// The state after each frame of a list that is in use has been given back.
pub open spec fn released(st: PhysState, list: Seq<u64>) -> PhysState
    decreases list.len(),
{
    if list.len() == 0 {
        st
    } else {
        released(release(st, list[0]), list.skip(1))
    }
}

/// The tables that privatizing writes to: those of the record and the root.
pub open spec fn own_tables(rec: PrivState, pml4: u64) -> Seq<u64> {
    rec.tables.push(rec.pdpt).push(pml4)
}

/// The state after an attempt that led from `st` and `rec` to `s` and `r` has been taken
/// back: the tables are as they were, and the frames taken since are free.
pub open spec fn undone(
    st: PhysState,
    rec: PrivState,
    s: PhysState,
    r: PrivState,
    pml4: u64,
) -> PhysState {
    let back = PhysState { ram: put_back(s.ram, st.ram, own_tables(rec, pml4)), ..s };
    let some = released(back, r.frames.skip(rec.frames.len() as int));
    released(some, r.tables.skip(rec.tables.len() as int))
}

/// What [`mm_privatize_pages`] does.
pub open spec fn privatize_pages(
    st: PhysState,
    rec: PrivState,
    window: u64,
    pml4: u64,
    va: u64,
    len: int,
    seed: Seq<u8>,
) -> (PhysState, PrivState, bool) {
    if seed.len() < len {
        (st, rec, false)
    } else {
        let (s1, r1, ok) = privatize_tried(st, rec, window, pml4, va, len, seed);
        if ok {
            (s1, r1, true)
        } else {
            (undone(st, rec, s1, r1, pml4), rec, false)
        }
    }
}

/// As much memory is installed, and the record lists no less.
pub open spec fn no_smaller(st: PhysState, rec: PrivState, s: PhysState, r: PrivState) -> bool {
    &&& s.ram.len() == st.ram.len()
    &&& r.tables.len() >= rec.tables.len()
    &&& r.frames.len() >= rec.frames.len()
}

proof fn lemma_from_grows(
    st: PhysState,
    rec: PrivState,
    parent: u64,
    level: int,
    va: u64,
    seed: Seq<u8>,
)
    ensures
        ({
            let (s, r, ok) = privatize_from(st, rec, parent, level, va, seed);
            no_smaller(st, rec, s, r)
        }),
    decreases level,
{
    reveal_with_fuel(privatize_from, 1);
    let idx = level_index(va, level);
    let e = entry(st.ram, parent, idx);
    let (s1, fresh) = alloc_page(st);
    if present(e) && level > 1 {
        if !large(e) && rec.tables.contains(e & ADDR_MASK) {
            lemma_from_grows(st, rec, e & ADDR_MASK, level - 1, va, seed);
        } else if fresh is Some && rec.tables.len() < MAX_PRIV_TABLES {
            let t = fresh->0;
            let entries = if large(e) {
                split_entries(e, level)
            } else {
                table_entries(s1.ram, e & ADDR_MASK)
            };
            let s2 = PhysState { ram: with_table(s1.ram, t as int, entries), ..s1 };
            let link = if large(e) {
                t | ENTRY_PRESENT | (e & (ENTRY_RW | ENTRY_USER | ENTRY_NX))
            } else {
                t | (e & !ADDR_MASK)
            };
            lemma_from_grows(
                set_entry(s2, parent, idx, link),
                PrivState { tables: rec.tables.push(t), ..rec },
                t,
                level - 1,
                va,
                seed,
            );
        }
    }
}

proof fn lemma_range_grows(
    st: PhysState,
    rec: PrivState,
    base: int,
    page: int,
    end: int,
    seed: Seq<u8>,
)
    ensures
        ({
            let (s, r, ok) = privatize_range(st, rec, base, page, end, seed);
            no_smaller(st, rec, s, r)
        }),
    decreases end + 0x1000 - page,
{
    if page < end {
        let rest = seed.skip(page - base);
        lemma_from_grows(st, rec, rec.pdpt, 3, page as u64, rest);
        let (s1, r1, ok) = privatize_from(st, rec, rec.pdpt, 3, page as u64, rest);
        if ok {
            lemma_range_grows(s1, r1, base, page + 0x1000, end, seed);
        }
    }
}

fn copied_list(list: &Vec<u64>) -> (r: Vec<u64>)
    ensures
        r@ == list@,
{
    let mut r: Vec<u64> = Vec::new();
    let mut i: usize = 0;
    while i < list.len()
        invariant
            i <= list@.len(),
            r@ == list@.take(i as int),
        decreases list@.len() - i,
    {
        r.push(list[i]);
        i = i + 1;
        assert(r@ =~= list@.take(i as int));
    }
    assert(r@ =~= list@);
    r
}

/// The bytes of a page that are in memory.
spec fn page_bytes(ram: Seq<u8>, t: u64) -> Seq<u8> {
    if t >= ram.len() {
        Seq::empty()
    } else if t + 4096 <= ram.len() {
        ram.subrange(t as int, t + 4096)
    } else {
        ram.subrange(t as int, ram.len() as int)
    }
}

fn save_page(phys: &PhysicalMemory, t: u64) -> (b: Vec<u8>)
    ensures
        b@ == page_bytes(phys@.ram, t),
{
    let n: usize = phys.ram.len();
    if t >= n as u64 {
        return Vec::new();
    }
    let end: usize = if n - t as usize >= 4096 {
        t as usize + 4096
    } else {
        n
    };
    vstd::slice::slice_to_vec(vstd::slice::slice_subrange(phys.ram.as_slice(), t as usize, end))
}

fn save_pages(phys: &PhysicalMemory, list: &Vec<u64>) -> (saved: Vec<Vec<u8>>)
    ensures
        saved@.len() == list@.len(),
        forall|k: int|
            0 <= k < list@.len() ==> (#[trigger] saved@[k])@ == page_bytes(phys@.ram, list@[k]),
{
    let mut saved: Vec<Vec<u8>> = Vec::new();
    let mut i: usize = 0;
    while i < list.len()
        invariant
            i <= list@.len(),
            saved@.len() == i,
            forall|k: int|
                0 <= k < i ==> (#[trigger] saved@[k])@ == page_bytes(phys@.ram, list@[k]),
        decreases list@.len() - i,
    {
        saved.push(save_page(phys, list[i]));
        i = i + 1;
    }
    saved
}

fn restore_pages(
    phys: &mut PhysicalMemory,
    list: &Vec<u64>,
    saved: &Vec<Vec<u8>>,
    Ghost(was): Ghost<Seq<u8>>,
)
    requires
        old(phys).wf(),
        was.len() == old(phys)@.ram.len(),
        saved@.len() == list@.len(),
        forall|k: int|
            0 <= k < list@.len() ==> (#[trigger] saved@[k])@ == page_bytes(was, list@[k]),
    ensures
        final(phys).wf(),
        final(phys)@ == (PhysState { ram: put_back(old(phys)@.ram, was, list@), ..old(phys)@ }),
{
    let ghost st = phys@;
    let mut i: usize = 0;
    assert(phys@.ram =~= put_back(st.ram, was, list@.take(0)));
    while i < list.len()
        invariant
            i <= list@.len(),
            phys.wf(),
            st == old(phys)@,
            was.len() == st.ram.len(),
            saved@.len() == list@.len(),
            forall|k: int|
                0 <= k < list@.len() ==> (#[trigger] saved@[k])@ == page_bytes(was, list@[k]),
            phys@ == (PhysState { ram: put_back(st.ram, was, list@.take(i as int)), ..st }),
        decreases list@.len() - i,
    {
        let t: u64 = list[i];
        let ghost before = phys@.ram;
        let n: usize = phys.ram.len();
        assert(saved@[i as int]@ == page_bytes(was, t));
        if t < n as u64 {
            put_bytes(&mut phys.ram, t as usize, saved[i].as_slice());
        }
        proof {
            let sooner = list@.take(i as int);
            let now = list@.take(i + 1);
            assert forall|b: int| 0 <= b < n implies #[trigger] phys@.ram[b] == put_back(
                st.ram,
                was,
                now,
            )[b] by {
                assert(now[i as int] == t);
                if in_pages(sooner, b) {
                    let k = choose|k: int|
                        0 <= k < sooner.len() && (#[trigger] sooner[k]) <= b < sooner[k] + 4096;
                    assert(now[k] == sooner[k]);
                }
                if in_pages(now, b) && !(t <= b < t + 4096) {
                    let k = choose|k: int|
                        0 <= k < now.len() && (#[trigger] now[k]) <= b < now[k] + 4096;
                    assert(now[k] == sooner[k]);
                }
            }
            assert(phys@.ram =~= put_back(st.ram, was, now));
        }
        i = i + 1;
    }
    assert(list@.take(i as int) =~= list@);
}

fn give_back(phys: &mut PhysicalMemory, list: &Vec<u64>, from: usize)
    requires
        old(phys).wf(),
        from <= list@.len(),
    ensures
        final(phys).wf(),
        final(phys)@ == released(old(phys)@, list@.skip(from as int)),
{
    let ghost st = phys@;
    let mut i: usize = from;
    while i < list.len()
        invariant
            from <= i <= list@.len(),
            phys.wf(),
            released(phys@, list@.skip(i as int)) == released(st, list@.skip(from as int)),
        decreases list@.len() - i,
    {
        assert(list@.skip(i as int).skip(1) =~= list@.skip(i + 1));
        release_frame(phys, PhysAddr(list[i]));
        i = i + 1;
    }
}

fn private_pdpt(phys: &mut PhysicalMemory, rec: &mut Privatized, pml4: u64, slot: usize) -> (ok:
    bool)
    requires
        old(phys).wf(),
        slot < 512,
    ensures
        final(phys).wf(),
        (final(phys)@, final(rec)@, ok) == ensure_pdpt(
            old(phys)@,
            old(rec)@,
            pml4,
            slot as int,
        ),
{
    if rec.pdpt.0 != 0 {
        return true;
    }
    let cur: u64 = read_entry(phys, pml4, slot);
    if cur & ENTRY_PRESENT == 0 {
        return false;
    }
    let c: u64 = match mm_allocate_page(phys) {
        Some(c) => c.0,
        None => {
            return false;
        },
    };
    let entries = read_table(phys, cur & ADDR_MASK);
    write_table(phys, c, &entries);
    if rec.push_table(c).is_none() {
        mm_free_page(phys, PhysAddr(c));
        return false;
    }
    write_entry(phys, pml4, slot, c | (cur & !ADDR_MASK));
    rec.pdpt = PhysAddr(c);
    true
}

/// Give the address space `pml4` a private copy of every 4 KiB page of
/// `[va, va + len)`: the page-table chain is cloned and each leaf gets a fresh
/// frame initialized from `seed`, the pristine bytes of the range. False when
/// the seed is too short, the range is not mapped, no frame is free, or the
/// record is full; then the shared mappings are left in place, and what was taken
/// is given back.
pub fn mm_privatize_pages(
    phys: &mut PhysicalMemory,
    window: &PhysWindow,
    pml4: PhysAddr,
    va: u64,
    len: usize,
    rec: &mut Privatized,
    seed: &[u8],
) -> (ok: bool)
    requires
        old(phys).wf(),
        va + len <= u64::MAX - 0xFFF,
        seed@.len() >= len ==> ((va % 0x1000 + len + 0xFFF) / 0x1000) * 0x1000 <= seed@.len(),
    ensures
        final(phys).wf(),
        (final(phys)@, final(rec)@, ok) == privatize_pages(
            old(phys)@,
            old(rec)@,
            window.offset,
            pml4.0,
            va,
            len as int,
            seed@,
        ),
{
    if seed.len() < len {
        return false;
    }
    let ghost st = phys@;
    let ghost r0 = rec@;
    let pdpt: PhysAddr = rec.pdpt;
    let tables: Vec<u64> = copied_list(&rec.tables);
    let frames: Vec<u64> = copied_list(&rec.frames);
    let mut own: Vec<u64> = copied_list(&rec.tables);
    own.push(pdpt.0);
    own.push(pml4.0);
    let saved: Vec<Vec<u8>> = save_pages(phys, &own);
    if privatize_each(phys, window, pml4, va, len, rec, seed) {
        return true;
    }
    proof {
        let (s1, r1, ok) = ensure_pdpt(st, r0, pml4.0, level_index(window.offset, 4));
        let base = (va as int / 0x1000) * 0x1000;
        lemma_range_grows(s1, r1, base, base, va + len, seed@);
    }
    restore_pages(phys, &own, &saved, Ghost(st.ram));
    give_back(phys, &rec.frames, frames.len());
    give_back(phys, &rec.tables, tables.len());
    *rec = Privatized { pdpt, tables, frames };
    assert(rec@ =~= r0);
    false
}

fn privatize_each(
    phys: &mut PhysicalMemory,
    window: &PhysWindow,
    pml4: PhysAddr,
    va: u64,
    len: usize,
    rec: &mut Privatized,
    seed: &[u8],
) -> (ok: bool)
    requires
        old(phys).wf(),
        va + len <= u64::MAX - 0xFFF,
        seed@.len() >= len,
        ((va % 0x1000 + len + 0xFFF) / 0x1000) * 0x1000 <= seed@.len(),
    ensures
        final(phys).wf(),
        (final(phys)@, final(rec)@, ok) == privatize_tried(
            old(phys)@,
            old(rec)@,
            window.offset,
            pml4.0,
            va,
            len as int,
            seed@,
        ),
{
    let slot: usize = table_index(window.offset, 4);
    if !private_pdpt(phys, rec, pml4.0, slot) {
        return false;
    }
    let ghost st = phys@;
    let ghost r0 = rec@;
    let base: u64 = va / 0x1000 * 0x1000;
    let end: u64 = va + len as u64;
    let mut page: u64 = base;
    while page < end
        invariant
            phys.wf(),
            base == (va / 0x1000) * 0x1000,
            end == va + len,
            end <= u64::MAX - 0xFFF,
            base <= page,
            page % 0x1000 == 0,
            base % 0x1000 == 0,
            ((va % 0x1000 + len + 0xFFF) / 0x1000) * 0x1000 <= seed@.len(),
            seed@.len() >= len,
            (st, r0, true) == ensure_pdpt(
                old(phys)@,
                old(rec)@,
                pml4.0,
                level_index(window.offset, 4),
            ),
            privatize_range(phys@, rec@, base as int, page as int, end as int, seed@)
                == privatize_range(st, r0, base as int, base as int, end as int, seed@),
        decreases end + 0x1000 - page,
    {
        let s: usize = (page - base) as usize;
        let rest = vstd::slice::slice_subrange(seed, s, seed.len());
        assert(rest@ =~= seed@.skip(page - base));
        if !privatize_leaf(phys, rec, page, rest) {
            return false;
        }
        page = page + 0x1000;
    }
    true
}

/// Free every frame and cloned table of a record and empty it. Each must be in
/// use and listed once.
pub fn mm_free_privatized(phys: &mut PhysicalMemory, rec: &mut Privatized)
    requires
        old(phys).wf(),
        releasable(old(phys)@, old(rec)@.frames + old(rec)@.tables),
    ensures
        final(phys).wf(),
        final(phys)@ == free_all(old(phys)@, old(rec)@.frames + old(rec)@.tables),
        final(rec)@ == no_private(),
{
    let ghost all = rec@.frames + rec@.tables;
    let mut frames: Vec<u64> = Vec::new();
    let mut i: usize = 0;
    while i < rec.frames.len()
        invariant
            i <= rec.frames@.len(),
            frames@ == rec.frames@.take(i as int),
        decreases rec.frames@.len() - i,
    {
        frames.push(rec.frames[i]);
        i = i + 1;
        assert(frames@ =~= rec.frames@.take(i as int));
    }
    let mut j: usize = 0;
    assert(frames@ =~= rec.frames@ + rec.tables@.take(0));
    while j < rec.tables.len()
        invariant
            j <= rec.tables@.len(),
            frames@ == rec.frames@ + rec.tables@.take(j as int),
        decreases rec.tables@.len() - j,
    {
        frames.push(rec.tables[j]);
        j = j + 1;
        assert(frames@ =~= rec.frames@ + rec.tables@.take(j as int));
    }
    assert(frames@ =~= all);
    release_all(phys, &frames);
    *rec = Privatized::new();
}

proof fn lemma_below(ram: Seq<u8>, table: u64, level: int, i: int, idx: int)
    requires
        0 <= i <= idx < 512,
        present(entry(ram, table, idx)),
    ensures
        level > 1 ==> forall|f: u64|
            frames_below(ram, entry(ram, table, idx) & ADDR_MASK, level - 1, 0).contains(f)
                ==> #[trigger] frames_below(ram, table, level, i).contains(f),
        level <= 1 ==> frames_below(ram, table, level, i).contains(
            entry(ram, table, idx) & ADDR_MASK,
        ),
    decreases idx - i,
{
    reveal_with_fuel(frames_below, 1);
    let e = entry(ram, table, i);
    let rest = frames_below(ram, table, level, i + 1);
    let all = frames_below(ram, table, level, i);
    let front = if !present(e) {
        Seq::<u64>::empty()
    } else if level > 1 {
        frames_below(ram, e & ADDR_MASK, level - 1, 0)
    } else {
        seq![e & ADDR_MASK]
    };
    assert(all =~= front + rest);
    if i < idx {
        lemma_below(ram, table, level, i + 1, idx);
        assert forall|f: u64| #[trigger] rest.contains(f) implies all.contains(f) by {
            let k = choose|k: int| 0 <= k < rest.len() && rest[k] == f;
            assert(all[front.len() + k] == f);
        }
        if level > 1 {
            assert forall|f: u64|
                frames_below(ram, entry(ram, table, idx) & ADDR_MASK, level - 1, 0).contains(
                    f,
                ) implies #[trigger] frames_below(ram, table, level, i).contains(f) by {
                assert(rest.contains(f));
            }
        } else {
            assert(rest.contains(entry(ram, table, idx) & ADDR_MASK));
        }
    } else {
        assert forall|f: u64| #[trigger] front.contains(f) implies all.contains(f) by {
            let k = choose|k: int| 0 <= k < front.len() && front[k] == f;
            assert(all[k] == f);
        }
        if level > 1 {
            assert forall|f: u64|
                frames_below(ram, entry(ram, table, idx) & ADDR_MASK, level - 1, 0).contains(
                    f,
                ) implies #[trigger] frames_below(ram, table, level, i).contains(f) by {
                assert(front.contains(f));
            }
        } else {
            assert(front[0] == e & ADDR_MASK);
            assert(front.contains(e & ADDR_MASK));
        }
    }
}

proof fn lemma_space(ram: Seq<u8>, pml4: u64, i: int, idx: int, f: u64)
    requires
        0 <= i <= idx < 256,
        present(entry(ram, pml4, idx)),
        frames_below(ram, entry(ram, pml4, idx) & ADDR_MASK, 3, 0).contains(f),
    ensures
        space_frames(ram, pml4, i).contains(f),
    decreases idx - i,
{
    let e = entry(ram, pml4, i);
    let rest = space_frames(ram, pml4, i + 1);
    let all = space_frames(ram, pml4, i);
    let front = if present(e) {
        frames_below(ram, e & ADDR_MASK, 3, 0)
    } else {
        Seq::<u64>::empty()
    };
    assert(all =~= front + rest);
    if i < idx {
        lemma_space(ram, pml4, i + 1, idx, f);
        let k = choose|k: int| 0 <= k < rest.len() && rest[k] == f;
        assert(all[front.len() + k] == f);
    } else {
        let k = choose|k: int| 0 <= k < front.len() && front[k] == f;
        assert(all[k] == f);
    }
}

/// When a space ends, every page of its lower half gives its frame back, and so does every
/// table on the way to one.
pub proof fn an_ending_space_gives_its_pages_back(
    ram: Seq<u8>,
    pml4: u64,
    i4: int,
    i3: int,
    i2: int,
    i1: int,
)
    requires
        0 <= i4 < 256,
        0 <= i3 < 512,
        0 <= i2 < 512,
        0 <= i1 < 512,
        present(entry(ram, pml4, i4)),
        present(entry(ram, entry(ram, pml4, i4) & ADDR_MASK, i3)),
        present(
            entry(ram, entry(ram, entry(ram, pml4, i4) & ADDR_MASK, i3) & ADDR_MASK, i2),
        ),
        present(
            entry(
                ram,
                entry(ram, entry(ram, entry(ram, pml4, i4) & ADDR_MASK, i3) & ADDR_MASK, i2)
                    & ADDR_MASK,
                i1,
            ),
        ),
    ensures
        ({
            let t3 = entry(ram, pml4, i4) & ADDR_MASK;
            let t2 = entry(ram, t3, i3) & ADDR_MASK;
            let t1 = entry(ram, t2, i2) & ADDR_MASK;
            &&& space_frames(ram, pml4, 0).contains(entry(ram, t1, i1) & ADDR_MASK)
            &&& space_frames(ram, pml4, 0).contains(t3)
        }),
{
    let t3 = entry(ram, pml4, i4) & ADDR_MASK;
    let t2 = entry(ram, t3, i3) & ADDR_MASK;
    let t1 = entry(ram, t2, i2) & ADDR_MASK;
    let f = entry(ram, t1, i1) & ADDR_MASK;
    lemma_below(ram, t1, 1, 0, i1);
    lemma_below(ram, t2, 2, 0, i2);
    lemma_below(ram, t3, 3, 0, i3);
    assert(frames_below(ram, t1, 1, 0).contains(f));
    assert(frames_below(ram, t2, 2, 0).contains(f));
    assert(frames_below(ram, t3, 3, 0).contains(f));
    lemma_space(ram, pml4, 0, i4, f);
    lemma_own(ram, t3, 3, 0);
    lemma_space(ram, pml4, 0, i4, t3);
}

proof fn lemma_own(ram: Seq<u8>, table: u64, level: int, i: int)
    requires
        0 <= i <= 512,
    ensures
        frames_below(ram, table, level, i).len() > 0,
        frames_below(ram, table, level, i).last() == table,
        frames_below(ram, table, level, i).contains(table),
    decreases 512 - i,
{
    reveal_with_fuel(frames_below, 1);
    if i < 512 {
        lemma_own(ram, table, level, i + 1);
        let all = frames_below(ram, table, level, i);
        assert(all.last() == frames_below(ram, table, level, i + 1).last());
    }
    let all = frames_below(ram, table, level, i);
    assert(all[all.len() - 1] == table);
}

/// A space with nothing in its lower half gives back its root alone: the kernel's half is not
/// its own.
pub proof fn an_empty_space_gives_its_root_back(ram: Seq<u8>, pml4: u64, i: int)
    requires
        0 <= i <= 256,
        forall|k: int| 0 <= k < 256 ==> !present(#[trigger] entry(ram, pml4, k)),
    ensures
        space_frames(ram, pml4, i) == seq![pml4],
    decreases 256 - i,
{
    if i < 256 {
        assert(!present(entry(ram, pml4, i)));
        an_empty_space_gives_its_root_back(ram, pml4, i + 1);
    }
}

/// A large page that is split is covered by 512 smaller ones: each starts where the one before
/// it ends, and has the flags of the whole.
pub proof fn a_split_page_is_covered_by_its_parts(e: u64, i: int)
    requires
        0 <= i < 512,
    ensures
        split_entries(e, 3).len() == 512,
        split_entries(e, 2).len() == 512,
        split_entries(e, 3)[i] == (((e & ADDR_MASK & !0x3FFF_FFFFu64) + i * 0x20_0000) as u64) | (e
            & FLAG_MASK),
        split_entries(e, 2)[i] == (((e & ADDR_MASK & !0x1F_FFFFu64) + i * 0x1000) as u64) | (e
            & FLAG_MASK & !0x80u64),
{
}

} // verus!
