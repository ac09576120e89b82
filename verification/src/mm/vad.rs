//! Virtual address descriptors: what user memory is committed, per address space.
//!
//! The page tables say what is mapped, the descriptors what may be mapped. An
//! allocation inserts a descriptor without touching a page table; the first
//! access faults and [`vad_resolve`] backs the page. Freeing and protecting
//! split, shrink and drop descriptors and apply to whatever is backed.
use crate::mm::pageout::{
    drop_process, drop_range, dropped, page_in, record_of, register_page, registered, PageFile,
    PageFileState, PageInStep, PageRead,
};
use crate::mm::phys::{
    alloc_page, free_page, mm_allocate_page, mm_free_page, PhysState, PhysicalMemory,
};
use crate::mm::virt::{
    backed_leaf, map_page, map_user_page, mm_debug_pte, mm_protect_user_page, mm_unmap_user_page,
    protected, unmapped, Mmu, ADDR_MASK,
};
use crate::mm::PhysAddr;
use crate::rtl::NtStatus;
use vstd::prelude::*;

verus! {

/// Base of the per-process arena.
pub const USER_VAD_BASE: u64 = 0x0000_7000_0000_0000;

/// Top of the arena.
pub const USER_VAD_LIMIT: u64 = 0x0000_7FFF_0000_0000;

/// One committed range.
#[derive(Debug, Clone, Copy, PartialEq, Eq, Structural)]
pub struct Vad {
    /// First address of the range.
    pub start: u64,
    /// One past the last address.
    pub end: u64,
    pub writable: bool,
    pub executable: bool,
}

/// The descriptors of one address space.
pub struct SpaceVads {
    pub pml4: u64,
    pub vads: Vec<Vad>,
}

/// The descriptors of all address spaces.
pub struct VadDatabase {
    pub spaces: Vec<SpaceVads>,
}

/// Descriptors lie in the arena, are not empty, sorted and disjoint.
pub open spec fn vads_wf(vads: Seq<Vad>) -> bool {
    &&& forall|i: int|
        0 <= i < vads.len() ==> USER_VAD_BASE <= (#[trigger] vads[i]).start < vads[i].end
            <= USER_VAD_LIMIT
    &&& forall|i: int, j: int|
        0 <= i < j < vads.len() ==> (#[trigger] vads[i]).end <= (#[trigger] vads[j]).start
}

/// Every descriptor ends at or before `b`.
pub open spec fn end_by(vads: Seq<Vad>, b: int) -> bool {
    forall|i: int| 0 <= i < vads.len() ==> (#[trigger] vads[i]).end <= b
}

/// Address `a` is committed.
pub open spec fn committed(vads: Seq<Vad>, a: int) -> bool {
    exists|i: int| 0 <= i < vads.len() && (#[trigger] vads[i]).start <= a < vads[i].end
}

/// The protection at address `a`: (writable, executable), if it is committed.
pub open spec fn protection(vads: Seq<Vad>, a: int) -> Option<(bool, bool)>
    decreases vads.len(),
{
    if vads.len() == 0 {
        None
    } else if vads.last().start <= a < vads.last().end {
        Some((vads.last().writable, vads.last().executable))
    } else {
        protection(vads.drop_last(), a)
    }
}

/// No address of `[c, c + len)` is committed.
pub open spec fn free_gap(vads: Seq<Vad>, c: int, len: int) -> bool {
    forall|i: int|
        0 <= i < vads.len() ==> (#[trigger] vads[i]).end <= c || c + len <= vads[i].start
}

/// `c` is where an allocation of `len` bytes goes: the lowest address from the
/// arena base on in front of which nothing is committed for `len` bytes.
pub open spec fn first_fit(vads: Seq<Vad>, len: int, c: int) -> bool {
    &&& USER_VAD_BASE <= c
    &&& free_gap(vads, c, len)
    &&& forall|b: int| USER_VAD_BASE <= b < c ==> !#[trigger] free_gap(vads, b, len)
}

/// The descriptor list with a new range inserted at its place.
pub open spec fn inserted(vads: Seq<Vad>, v: Vad) -> Seq<Vad>
    decreases vads.len(),
{
    if vads.len() == 0 || vads.last().start < v.start {
        vads.push(v)
    } else {
        inserted(vads.drop_last(), v).push(vads.last())
    }
}

/// What remains of `v` when `[base, end)` is cut out.
pub open spec fn cut_one(v: Vad, base: int, end: int) -> Seq<Vad> {
    if v.end <= base || v.start >= end {
        seq![v]
    } else {
        (if v.start < base {
            seq![Vad { end: base as u64, ..v }]
        } else {
            Seq::<Vad>::empty()
        }) + (if end < v.end {
            seq![Vad { start: end as u64, ..v }]
        } else {
            Seq::<Vad>::empty()
        })
    }
}

/// The descriptor list with `[base, end)` cut out.
pub open spec fn cut(vads: Seq<Vad>, base: int, end: int) -> Seq<Vad>
    decreases vads.len(),
{
    if vads.len() == 0 {
        vads
    } else {
        cut(vads.drop_last(), base, end) + cut_one(vads.last(), base, end)
    }
}

/// The pieces of `v` when the part in `[base, end)` gets a new protection.
pub open spec fn protect_one(v: Vad, base: int, end: int, w: bool, x: bool) -> Seq<Vad> {
    if v.end <= base || v.start >= end {
        seq![v]
    } else {
        let lo = if v.start < base {
            base as u64
        } else {
            v.start
        };
        let hi = if end < v.end {
            end as u64
        } else {
            v.end
        };
        (if v.start < base {
            seq![Vad { end: lo, ..v }]
        } else {
            Seq::<Vad>::empty()
        }) + seq![Vad { start: lo, end: hi, writable: w, executable: x }] + (if end < v.end {
            seq![Vad { start: hi, ..v }]
        } else {
            Seq::<Vad>::empty()
        })
    }
}

/// The descriptor list with a new protection on `[base, end)`.
pub open spec fn reprotect(vads: Seq<Vad>, base: int, end: int, w: bool, x: bool) -> Seq<Vad>
    decreases vads.len(),
{
    if vads.len() == 0 {
        vads
    } else {
        reprotect(vads.drop_last(), base, end, w, x) + protect_one(vads.last(), base, end, w, x)
    }
}

/// Some descriptor reaches into `[base, end)`.
pub open spec fn overlaps(vads: Seq<Vad>, base: int, end: int) -> bool {
    exists|i: int| 0 <= i < vads.len() && (#[trigger] vads[i]).start < end && base < vads[i].end
}

/// A frame is given back if it is tracked and in use.
pub open spec fn release(st: PhysState, pa: u64) -> PhysState {
    if pa >= 4096 && (pa as int / 4096) < st.bits.len() && st.bits[pa as int / 4096] {
        free_page(st, pa)
    } else {
        st
    }
}

/// Memory after the backed pages of `[page, hi)` have been unmapped and freed.
#[verifier::opaque]
pub open spec fn unmap_pages(st: PhysState, root: u64, page: int, hi: int) -> PhysState
    decreases hi + 4096 - page,
{
    if page >= hi {
        st
    } else {
        let s1 = PhysState { ram: unmapped(st.ram, root, page as u64), ..st };
        let s2 = match backed_leaf(st.ram, root, page as u64) {
            Some(e) => release(s1, e & ADDR_MASK),
            None => s1,
        };
        unmap_pages(s2, root, page + 4096, hi)
    }
}

/// Memory after the backed pages of `[page, hi)` have got a new protection.
#[verifier::opaque]
pub open spec fn protect_backed(
    ram: Seq<u8>,
    root: u64,
    page: int,
    hi: int,
    w: bool,
    x: bool,
) -> Seq<u8>
    decreases hi + 4096 - page,
{
    if page >= hi {
        ram
    } else {
        protect_backed(protected(ram, root, page as u64, w, x), root, page + 4096, hi, w, x)
    }
}

pub open spec fn max_int(a: int, b: int) -> int {
    if a >= b {
        a
    } else {
        b
    }
}

pub open spec fn min_int(a: int, b: int) -> int {
    if a <= b {
        a
    } else {
        b
    }
}

/// Memory after the part of every descriptor in `[base, end)` has been unmapped.
pub open spec fn unmap_cut(st: PhysState, root: u64, vads: Seq<Vad>, base: int, end: int) -> PhysState
    decreases vads.len(),
{
    if vads.len() == 0 {
        st
    } else {
        let v = vads.last();
        unmap_pages(
            unmap_cut(st, root, vads.drop_last(), base, end),
            root,
            max_int(v.start as int, base),
            min_int(v.end as int, end),
        )
    }
}

/// Memory after the part of every descriptor in `[base, end)` has got a new
/// protection.
pub open spec fn protect_cut(
    ram: Seq<u8>,
    root: u64,
    vads: Seq<Vad>,
    base: int,
    end: int,
    w: bool,
    x: bool,
) -> Seq<u8>
    decreases vads.len(),
{
    if vads.len() == 0 {
        ram
    } else {
        let v = vads.last();
        protect_backed(
            protect_cut(ram, root, vads.drop_last(), base, end, w, x),
            root,
            max_int(v.start as int, base),
            min_int(v.end as int, end),
            w,
            x,
        )
    }
}

impl VadDatabase {
    /// Every list is well-formed and no address space is listed twice.
    pub open spec fn wf(&self) -> bool {
        &&& forall|i: int|
            0 <= i < self.spaces@.len() ==> vads_wf((#[trigger] self.spaces@[i]).vads@)
        &&& forall|i: int, j: int|
            0 <= i < j < self.spaces@.len() ==> (#[trigger] self.spaces@[i]).pml4 != (
            #[trigger] self.spaces@[j]).pml4
    }

    /// The address space is listed.
    pub open spec fn knows(&self, pml4: u64) -> bool {
        exists|i: int| 0 <= i < self.spaces@.len() && (#[trigger] self.spaces@[i]).pml4 == pml4
    }

    /// The descriptors of an address space; none when it is not listed.
    pub open spec fn of(&self, pml4: u64) -> Seq<Vad> {
        if self.knows(pml4) {
            self.spaces@[choose|i: int|
                0 <= i < self.spaces@.len() && (#[trigger] self.spaces@[i]).pml4 == pml4].vads@
        } else {
            Seq::empty()
        }
    }

    /// Everything but the address space `pml4` is as in `other`.
    pub open spec fn same_elsewhere(&self, other: &VadDatabase, pml4: u64) -> bool {
        &&& forall|p: u64| p != pml4 ==> #[trigger] self.knows(p) == other.knows(p)
        &&& forall|p: u64| p != pml4 ==> #[trigger] self.of(p) == other.of(p)
    }

    /// No address space at all.
    pub fn new() -> (db: Self)
        ensures
            db.wf(),
            forall|p: u64| !#[trigger] db.knows(p),
    {
        VadDatabase { spaces: Vec::new() }
    }

    proof fn lemma_of(&self, i: int)
        requires
            self.wf(),
            0 <= i < self.spaces@.len(),
        ensures
            self.knows(self.spaces@[i].pml4),
            self.of(self.spaces@[i].pml4) == self.spaces@[i].vads@,
    {
        let p = self.spaces@[i].pml4;
        let k = choose|k: int|
            0 <= k < self.spaces@.len() && (#[trigger] self.spaces@[k]).pml4 == p;
        if k < i {
            assert(self.spaces@[k].pml4 != self.spaces@[i].pml4);
        } else if i < k {
            assert(self.spaces@[i].pml4 != self.spaces@[k].pml4);
        }
    }

    /// The index of an address space.
    fn find(&self, pml4: u64) -> (r: Option<usize>)
        requires
            self.wf(),
        ensures
            match r {
                Some(i) => i < self.spaces@.len() && self.spaces@[i as int].pml4 == pml4
                    && self.knows(pml4) && self.of(pml4) == self.spaces@[i as int].vads@,
                None => !self.knows(pml4),
            },
    {
        let mut i: usize = 0;
        while i < self.spaces.len()
            invariant
                self.wf(),
                i <= self.spaces@.len(),
                forall|k: int| 0 <= k < i ==> (#[trigger] self.spaces@[k]).pml4 != pml4,
            decreases self.spaces@.len() - i,
        {
            if self.spaces[i].pml4 == pml4 {
                proof {
                    self.lemma_of(i as int);
                }
                return Some(i);
            }
            i = i + 1;
        }
        None
    }

    /// The index of an address space, listing it (with no descriptor) if it is
    /// not.
    fn space_mut(&mut self, pml4: u64) -> (i: usize)
        requires
            old(self).wf(),
        ensures
            final(self).wf(),
            i < final(self).spaces@.len(),
            final(self).spaces@[i as int].pml4 == pml4,
            final(self).knows(pml4),
            final(self).of(pml4) == final(self).spaces@[i as int].vads@,
            final(self).of(pml4) == old(self).of(pml4),
            final(self).same_elsewhere(old(self), pml4),
    {
        match self.find(pml4) {
            Some(i) => i,
            None => {
                let ghost before = *self;
                let n: usize = self.spaces.len();
                self.spaces.push(SpaceVads { pml4, vads: Vec::new() });
                proof {
                    let now = *self;
                    assert forall|a: int, b: int| 0 <= a < b < now.spaces@.len() implies (
                    #[trigger] now.spaces@[a]).pml4 != (#[trigger] now.spaces@[b]).pml4 by {
                        if b == n {
                            assert(before.spaces@[a] == now.spaces@[a]);
                        } else {
                            assert(before.spaces@[a].pml4 != before.spaces@[b].pml4);
                        }
                    }
                    assert forall|a: int| 0 <= a < now.spaces@.len() implies vads_wf(
                        (#[trigger] now.spaces@[a]).vads@,
                    ) by {
                        if a < n {
                            assert(vads_wf(before.spaces@[a].vads@));
                        }
                    }
                    now.lemma_of(n as int);
                    assert forall|p: u64| p != pml4 implies #[trigger] now.knows(p)
                        == before.knows(p) && now.of(p) == before.of(p) by {
                    assert forall|k: int|
                        0 <= k < before.spaces@.len() && (#[trigger] before.spaces@[k]).pml4
                            == p implies exists|a: int|
                        0 <= a < now.spaces@.len() && #[trigger] now.spaces@[a]
                            == before.spaces@[k] by {
                        assert(now.spaces@[k] == before.spaces@[k]);
                    }
                    assert forall|k: int|
                        0 <= k < now.spaces@.len() && (#[trigger] now.spaces@[k]).pml4
                            == p implies exists|a: int|
                        0 <= a < before.spaces@.len() && #[trigger] before.spaces@[a]
                            == now.spaces@[k] by {
                        assert(now.spaces@[k] == before.spaces@[k]);
                    }
                    lemma_same_list(before, now, p);
                    }
                }
                n
            },
        }
    }

    /// Replace the descriptors at index `i`.
    fn replace(&mut self, i: usize, vads: Vec<Vad>)
        requires
            old(self).wf(),
            i < old(self).spaces@.len(),
            vads_wf(vads@),
        ensures
            final(self).wf(),
            final(self).knows(old(self).spaces@[i as int].pml4),
            final(self).of(old(self).spaces@[i as int].pml4) == vads@,
            final(self).same_elsewhere(old(self), old(self).spaces@[i as int].pml4),
    {
        let ghost before = *self;
        let pml4: u64 = self.spaces[i].pml4;
        let ghost new_vads = vads@;
        self.spaces.set(i, SpaceVads { pml4, vads });
        proof {
            let now = *self;
            assert forall|a: int| 0 <= a < now.spaces@.len() implies vads_wf(
                (#[trigger] now.spaces@[a]).vads@,
            ) by {
                if a != i {
                    assert(vads_wf(before.spaces@[a].vads@));
                }
            }
            assert forall|a: int, b: int| 0 <= a < b < now.spaces@.len() implies (
            #[trigger] now.spaces@[a]).pml4 != (#[trigger] now.spaces@[b]).pml4 by {
                assert(before.spaces@[a].pml4 != before.spaces@[b].pml4);
            }
            now.lemma_of(i as int);
            assert forall|p: u64| p != pml4 implies #[trigger] now.knows(p)
                == before.knows(p) && now.of(p) == before.of(p) by {
                    assert forall|k: int|
                        0 <= k < before.spaces@.len() && (#[trigger] before.spaces@[k]).pml4
                            == p implies exists|a: int|
                        0 <= a < now.spaces@.len() && #[trigger] now.spaces@[a]
                            == before.spaces@[k] by {
                        assert(now.spaces@[k] == before.spaces@[k]);
                    }
                    assert forall|k: int|
                        0 <= k < now.spaces@.len() && (#[trigger] now.spaces@[k]).pml4
                            == p implies exists|a: int|
                        0 <= a < before.spaces@.len() && #[trigger] before.spaces@[a]
                            == now.spaces@[k] by {
                        assert(now.spaces@[k] == before.spaces@[k]);
                    }
                lemma_same_list(before, now, p);
            }
        }
    }
}

/// Two databases that list the same thing for `p` wherever either lists it agree
/// on `p`.
proof fn lemma_same_list(a: VadDatabase, b: VadDatabase, p: u64)
    requires
        a.wf(),
        b.wf(),
        forall|i: int|
            0 <= i < a.spaces@.len() && (#[trigger] a.spaces@[i]).pml4 == p ==> exists|j: int|
                0 <= j < b.spaces@.len() && #[trigger] b.spaces@[j] == a.spaces@[i],
        forall|j: int|
            0 <= j < b.spaces@.len() && (#[trigger] b.spaces@[j]).pml4 == p ==> exists|i: int|
                0 <= i < a.spaces@.len() && #[trigger] a.spaces@[i] == b.spaces@[j],
    ensures
        a.knows(p) == b.knows(p),
        a.of(p) == b.of(p),
{
    if a.knows(p) {
        let i = choose|i: int| 0 <= i < a.spaces@.len() && (#[trigger] a.spaces@[i]).pml4 == p;
        let j = choose|j: int| 0 <= j < b.spaces@.len() && #[trigger] b.spaces@[j] == a.spaces@[i];
        a.lemma_of(i);
        b.lemma_of(j);
    }
    if b.knows(p) {
        let j = choose|j: int| 0 <= j < b.spaces@.len() && (#[trigger] b.spaces@[j]).pml4 == p;
        let i = choose|i: int| 0 <= i < a.spaces@.len() && #[trigger] a.spaces@[i] == b.spaces@[j];
        assert(a.spaces@[i].pml4 == p);
    }
}

/// The last descriptor ends where no earlier one reaches.
proof fn lemma_prefix_wf(vads: Seq<Vad>)
    requires
        vads_wf(vads),
        vads.len() > 0,
    ensures
        vads_wf(vads.drop_last()),
        forall|i: int|
            0 <= i < vads.len() - 1 ==> (#[trigger] vads.drop_last()[i]).end <= vads.last().start,
{
    let init = vads.drop_last();
    assert forall|i: int, j: int| 0 <= i < j < init.len() implies (#[trigger] init[i]).end <= (
    #[trigger] init[j]).start by {
        assert(vads[i].end <= vads[j].start);
    }
    assert forall|i: int| 0 <= i < init.len() implies (#[trigger] init[i]).end
        <= vads.last().start by {
        assert(vads[i].end <= vads[vads.len() - 1].start);
    }
    assert forall|i: int| 0 <= i < init.len() implies USER_VAD_BASE <= (#[trigger] init[i]).start
        < init[i].end <= USER_VAD_LIMIT by {
        assert(vads[i].start < vads[i].end);
    }
}

/// Inserting a range into a free gap keeps the list well-formed.
proof fn lemma_inserted_wf(vads: Seq<Vad>, v: Vad)
    requires
        vads_wf(vads),
        USER_VAD_BASE <= v.start < v.end <= USER_VAD_LIMIT,
        free_gap(vads, v.start as int, v.end - v.start),
    ensures
        vads_wf(inserted(vads, v)),
        inserted(vads, v).len() == vads.len() + 1,
        forall|b: int|
            #[trigger] end_by(vads, b) && v.end <= b ==> end_by(inserted(vads, v), b),
    decreases vads.len(),
{
    let r = inserted(vads, v);
    if vads.len() == 0 || vads.last().start < v.start {
        assert forall|i: int, j: int| 0 <= i < j < r.len() implies (#[trigger] r[i]).end <= (
        #[trigger] r[j]).start by {
            if j < vads.len() {
                assert(vads[i].end <= vads[j].start);
            } else {
                assert(vads[i].end <= v.start || v.end <= vads[i].start);
                if i < vads.len() - 1 {
                    assert(vads[i].end <= vads[vads.len() - 1].start);
                }
            }
        }
        assert forall|i: int| 0 <= i < r.len() implies USER_VAD_BASE <= (#[trigger] r[i]).start
            < r[i].end <= USER_VAD_LIMIT by {
            if i < vads.len() {
                assert(vads[i].start < vads[i].end);
            }
        }
        assert forall|b: int| #[trigger] end_by(vads, b) && v.end <= b implies end_by(r, b) by {
            assert forall|i: int| 0 <= i < r.len() implies (#[trigger] r[i]).end <= b by {
                if i < vads.len() {
                    assert(vads[i].end <= b);
                }
            }
        }
    } else {
        let init = vads.drop_last();
        let last = vads.last();
        lemma_prefix_wf(vads);
        assert(free_gap(init, v.start as int, v.end - v.start)) by {
            assert forall|i: int| 0 <= i < init.len() implies (#[trigger] init[i]).end <= v.start
                || v.start + (v.end - v.start) <= init[i].start by {
                assert(vads[i].end <= v.start || v.end <= vads[i].start);
            }
        }
        lemma_inserted_wf(init, v);
        let s = inserted(init, v);
        assert(vads[vads.len() - 1].end <= v.start || v.end <= vads[vads.len() - 1].start);
        assert(last.start < last.end);
        assert(v.end <= last.start);
        assert forall|i: int| 0 <= i < s.len() implies (#[trigger] s[i]).end <= last.start by {
            assert(end_by(init, last.start as int));
        }
        assert forall|i: int, j: int| 0 <= i < j < r.len() implies (#[trigger] r[i]).end <= (
        #[trigger] r[j]).start by {
            if j < s.len() {
                assert(s[i].end <= s[j].start);
            } else {
                assert(s[i].end <= last.start);
            }
        }
        assert forall|i: int| 0 <= i < r.len() implies USER_VAD_BASE <= (#[trigger] r[i]).start
            < r[i].end <= USER_VAD_LIMIT by {
            if i < s.len() {
                assert(s[i].start < s[i].end);
            } else {
                assert(vads[vads.len() - 1].start < vads[vads.len() - 1].end);
            }
        }
        assert forall|b: int| #[trigger] end_by(vads, b) && v.end <= b implies end_by(r, b) by {
            assert(vads[vads.len() - 1].end <= b);
            assert forall|i: int| 0 <= i < r.len() implies (#[trigger] r[i]).end <= b by {
                if i < s.len() {
                    assert(s[i].end <= last.start);
                }
            }
        }
    }
}

/// Insert a descriptor at its place.
fn insert_vad(vads: &Vec<Vad>, v: Vad) -> (out: Vec<Vad>)
    requires
        vads_wf(vads@),
    ensures
        out@ == inserted(vads@, v),
{
    let mut pos: usize = vads.len();
    proof {
        assert(vads@.take(pos as int) =~= vads@);
        assert(inserted(vads@, v) + vads@.skip(pos as int) =~= inserted(vads@, v));
    }
    while pos > 0 && vads[pos - 1].start >= v.start
        invariant
            pos <= vads@.len(),
            inserted(vads@, v) == inserted(vads@.take(pos as int), v) + vads@.skip(pos as int),
        decreases pos,
    {
        proof {
            let t = vads@.take(pos as int);
            assert(t.drop_last() =~= vads@.take(pos - 1));
            assert(t.last() == vads@[pos - 1]);
            assert(inserted(t.drop_last(), v).push(t.last()) + vads@.skip(pos as int)
                =~= inserted(vads@.take(pos - 1), v) + vads@.skip(pos - 1));
        }
        pos = pos - 1;
    }
    let mut out: Vec<Vad> = Vec::new();
    let mut i: usize = 0;
    while i < pos
        invariant
            i <= pos <= vads@.len(),
            out@ == vads@.take(i as int),
        decreases pos - i,
    {
        out.push(vads[i]);
        i = i + 1;
        assert(out@ =~= vads@.take(i as int));
    }
    out.push(v);
    assert(out@ =~= vads@.take(pos as int).push(v) + vads@.subrange(pos as int, i as int));
    while i < vads.len()
        invariant
            pos <= i <= vads@.len(),
            out@ == vads@.take(pos as int).push(v) + vads@.subrange(pos as int, i as int),
        decreases vads@.len() - i,
    {
        out.push(vads[i]);
        i = i + 1;
        assert(out@ =~= vads@.take(pos as int).push(v) + vads@.subrange(pos as int, i as int));
    }
    proof {
        let t = vads@.take(pos as int);
        if pos > 0 {
            assert(t.last() == vads@[pos - 1]);
        }
        assert(inserted(t, v) == t.push(v));
        assert(out@ =~= inserted(t, v) + vads@.skip(pos as int));
    }
    out
}

/// `NtAllocateVirtualMemory` (commit): record `pages` of user address space as
/// committed and return their base, the first fit in the arena. `None` when the
/// request is empty or does not fit. No page is mapped.
pub fn vad_allocate(
    db: &mut VadDatabase,
    pml4: PhysAddr,
    pages: usize,
    writable: bool,
    executable: bool,
) -> (r: Option<u64>)
    requires
        old(db).wf(),
    ensures
        final(db).wf(),
        final(db).same_elsewhere(old(db), pml4.0),
        match r {
            Some(base) => {
                let end = base + pages * 4096;
                &&& pages > 0
                &&& end <= USER_VAD_LIMIT
                &&& first_fit(old(db).of(pml4.0), pages * 4096, base as int)
                &&& final(db).of(pml4.0) == inserted(
                    old(db).of(pml4.0),
                    Vad { start: base, end: end as u64, writable, executable },
                )
            },
            None => {
                &&& final(db).of(pml4.0) == old(db).of(pml4.0)
                &&& pages == 0 || forall|c: int|
                    USER_VAD_BASE <= c && c + pages * 4096 <= USER_VAD_LIMIT ==> !#[trigger] free_gap(
                        old(db).of(pml4.0),
                        c,
                        pages * 4096,
                    )
            },
        },
{
    let len: u64 = match (pages as u64).checked_mul(4096) {
        Some(l) => l,
        None => {
            return None;
        },
    };
    if len == 0 {
        return None;
    }
    let si: usize = db.space_mut(pml4.0);
    let ghost vads = db.of(pml4.0);
    let mut cursor: u64 = USER_VAD_BASE;
    let mut i: usize = 0;
    while i < db.spaces[si].vads.len()
        invariant_except_break
            forall|k: int| 0 <= k < i ==> (#[trigger] vads[k]).end <= cursor,
            i <= vads.len(),
        invariant
            si < db.spaces@.len(),
            vads == db.spaces@[si as int].vads@,
            vads_wf(vads),
            len > 0,
            USER_VAD_BASE <= cursor <= USER_VAD_LIMIT,
            forall|b: int| USER_VAD_BASE <= b < cursor ==> !#[trigger] free_gap(vads, b, len as int),
        ensures
            free_gap(vads, cursor as int, len as int),
        decreases vads.len() - i,
    {
        let v = db.spaces[si].vads[i];
        assert(v == vads[i as int]);
        if v.start >= cursor && v.start - cursor >= len {
            proof {
                assert forall|k: int| 0 <= k < vads.len() implies (#[trigger] vads[k]).end
                    <= cursor || cursor + len <= vads[k].start by {
                    if k > i {
                        assert(vads[i as int].end <= vads[k].start);
                    }
                }
            }
            break ;
        }
        proof {
            assert forall|b: int| USER_VAD_BASE <= b < max_int(cursor as int, v.end as int) implies !
            #[trigger] free_gap(vads, b, len as int) by {
                if b >= cursor {
                    assert(!(vads[i as int].end <= b || b + len <= vads[i as int].start));
                }
            }
        }
        if v.end > cursor {
            cursor = v.end;
        }
        i = i + 1;
    }
    let fits: bool = len <= USER_VAD_LIMIT - cursor;
    if !fits {
        proof {
            assert forall|c: int|
                USER_VAD_BASE <= c && c + pages * 4096 <= USER_VAD_LIMIT implies !#[trigger] free_gap(
                vads,
                c,
                pages * 4096,
            ) by {
                assert(c < cursor);
            }
        }
        return None;
    }
    let end: u64 = cursor + len;
    let v = Vad { start: cursor, end, writable, executable };
    proof {
        lemma_inserted_wf(vads, v);
    }
    let new_vads = insert_vad(&db.spaces[si].vads, v);
    db.replace(si, new_vads);
    Some(cursor)
}

/// Is every page of `[va, va + len)` committed in the address space `pml4`? (An
/// empty range counts as covered where its address is committed, or where
/// nothing is committed from it on.)
pub fn vad_covers(db: &VadDatabase, pml4: PhysAddr, va: u64, len: usize) -> (r: bool)
    requires
        db.wf(),
    ensures
        len > 0 ==> r == (va + len <= u64::MAX && db.knows(pml4.0) && forall|a: int|
            va <= a < va + len ==> #[trigger] committed(db.of(pml4.0), a)),
        len == 0 ==> r == (db.knows(pml4.0) && (committed(db.of(pml4.0), va as int) || forall|i: int|
            0 <= i < db.of(pml4.0).len() ==> (#[trigger] db.of(pml4.0)[i]).end <= va)),
{
    let end: u64 = match va.checked_add(len as u64) {
        Some(e) => e,
        None => {
            return false;
        },
    };
    let si: usize = match db.find(pml4.0) {
        Some(i) => i,
        None => {
            return false;
        },
    };
    let ghost vads = db.of(pml4.0);
    let mut cursor: u64 = va;
    let mut i: usize = 0;
    while i < db.spaces[si].vads.len()
        invariant
            si < db.spaces@.len(),
            vads == db.spaces@[si as int].vads@,
            vads == db.of(pml4.0),
            db.knows(pml4.0),
            vads_wf(vads),
            end == va + len,
            i <= vads.len(),
            va <= cursor,
            cursor == va || cursor < end,
            forall|k: int| 0 <= k < i ==> (#[trigger] vads[k]).end <= cursor,
            forall|a: int| va <= a < cursor ==> #[trigger] committed(vads, a),
        decreases vads.len() - i,
    {
        let v = db.spaces[si].vads[i];
        assert(v == vads[i as int]);
        if v.end <= cursor {
            i = i + 1;
            continue ;
        }
        if v.start > cursor {
            proof {
                assert(!committed(vads, cursor as int)) by {
                    assert forall|k: int| 0 <= k < vads.len() implies !((
                    #[trigger] vads[k]).start <= cursor < vads[k].end) by {
                        if k > i {
                            assert(vads[i as int].end <= vads[k].start);
                        }
                    }
                }
                if len == 0 {
                    assert(vads[i as int].end > va);
                }
            }
            return false;
        }
        proof {
            assert forall|a: int| va <= a < v.end implies #[trigger] committed(vads, a) by {
                if a >= cursor {
                    assert(vads[i as int].start <= a < vads[i as int].end);
                }
            }
        }
        cursor = v.end;
        if cursor >= end {
            assert(committed(vads, va as int)) by {
                assert(va < cursor);
            }
            return true;
        }
        i = i + 1;
    }
    proof {
        if cursor < end {
            assert(!committed(vads, cursor as int));
        }
    }
    cursor >= end
}

/// Give a frame back if it is tracked and in use.
pub(crate) fn release_frame(phys: &mut PhysicalMemory, pa: PhysAddr)
    requires
        old(phys).wf(),
    ensures
        final(phys).wf(),
        final(phys)@ == release(old(phys)@, pa.0),
{
    let frames: usize = phys.bitmap.len();
    let f: u64 = pa.pfn();
    if f > 0 && f < frames as u64 && phys.bitmap.test_bit(f as usize) {
        mm_free_page(phys, pa);
    }
}

fn unmap_range(mmu: &mut Mmu, lo: u64, hi: u64)
    requires
        old(mmu).phys.wf(),
        hi <= u64::MAX - 4096,
    ensures
        final(mmu).phys.wf(),
        final(mmu).same_registers(old(mmu)),
        final(mmu).phys@ == unmap_pages(old(mmu).phys@, old(mmu).root(), lo as int, hi as int),
{
    let ghost before = mmu.phys@;
    let ghost root = mmu.root();
    proof {
        reveal_with_fuel(unmap_pages, 1);
    }
    let mut page: u64 = lo;
    while page < hi
        invariant
            mmu.phys.wf(),
            mmu.same_registers(old(mmu)),
            before == old(mmu).phys@,
            root == mmu.root(),
            hi <= u64::MAX - 4096,
            unmap_pages(mmu.phys@, root, page as int, hi as int) == unmap_pages(
                before,
                root,
                lo as int,
                hi as int,
            ),
        decreases hi + 4096 - page,
    {
        proof {
            reveal_with_fuel(unmap_pages, 1);
        }
        match mm_unmap_user_page(mmu, page) {
            Some(pa) => {
                release_frame(&mut mmu.phys, pa);
            },
            None => {},
        }
        page = page + 4096;
    }
}

fn protect_range(mmu: &mut Mmu, lo: u64, hi: u64, w: bool, x: bool)
    requires
        old(mmu).phys.wf(),
        hi <= u64::MAX - 4096,
    ensures
        final(mmu).phys.wf(),
        final(mmu).same_registers(old(mmu)),
        final(mmu).phys@ == (PhysState {
            ram: protect_backed(old(mmu).ram(), old(mmu).root(), lo as int, hi as int, w, x),
            ..old(mmu).phys@
        }),
{
    let ghost before = mmu.phys@;
    let ghost root = mmu.root();
    proof {
        reveal_with_fuel(protect_backed, 1);
    }
    let mut page: u64 = lo;
    while page < hi
        invariant
            mmu.phys.wf(),
            mmu.same_registers(old(mmu)),
            before == old(mmu).phys@,
            root == mmu.root(),
            hi <= u64::MAX - 4096,
            mmu.phys@ == (PhysState { ram: mmu.ram(), ..before }),
            protect_backed(mmu.ram(), root, page as int, hi as int, w, x) == protect_backed(
                before.ram,
                root,
                lo as int,
                hi as int,
                w,
                x,
            ),
        decreases hi + 4096 - page,
    {
        proof {
            reveal_with_fuel(protect_backed, 1);
        }
        mm_protect_user_page(mmu, page, w, x);
        page = page + 4096;
    }
}

/// The cut list is well-formed and stays within the bounds of the list it was cut from.
proof fn lemma_cut_wf(vads: Seq<Vad>, base: int, end: int)
    requires
        vads_wf(vads),
        0 <= base <= end <= u64::MAX,
    ensures
        vads_wf(cut(vads, base, end)),
        forall|b: int| #[trigger] end_by(vads, b) ==> end_by(cut(vads, base, end), b),
    decreases vads.len(),
{
    if vads.len() > 0 {
        let init = vads.drop_last();
        let v = vads.last();
        lemma_prefix_wf(vads);
        lemma_cut_wf(init, base, end);
        let s = cut(init, base, end);
        let t = cut_one(v, base, end);
        let r = cut(vads, base, end);
        assert(v.start < v.end && v == vads[vads.len() - 1]);
        assert forall|i: int| 0 <= i < s.len() implies (#[trigger] s[i]).end <= v.start by {
            assert(end_by(init, v.start as int));
        }
        assert forall|i: int| 0 <= i < t.len() implies v.start <= (#[trigger] t[i]).start
            < t[i].end <= v.end by {}
        assert forall|i: int, j: int| 0 <= i < j < r.len() implies (#[trigger] r[i]).end <= (
        #[trigger] r[j]).start by {
            if j < s.len() {
                assert(s[i].end <= s[j].start);
            } else if i < s.len() {
                assert(s[i].end <= v.start);
                assert(v.start <= t[j - s.len()].start);
            }
        }
        assert forall|i: int| 0 <= i < r.len() implies USER_VAD_BASE <= (#[trigger] r[i]).start
            < r[i].end <= USER_VAD_LIMIT by {
            if i < s.len() {
                assert(s[i].start < s[i].end);
            } else {
                assert(t[i - s.len()].start < t[i - s.len()].end);
            }
        }
        assert forall|b: int| #[trigger] end_by(vads, b) implies end_by(r, b) by {
            assert(vads[vads.len() - 1].end <= b);
            assert forall|i: int| 0 <= i < r.len() implies (#[trigger] r[i]).end <= b by {
                if i < s.len() {
                    assert(s[i].end <= v.start);
                } else {
                    assert(t[i - s.len()].end <= v.end);
                }
            }
        }
    }
}

/// Splitting for protection keeps the list well-formed and within its bounds.
proof fn lemma_reprotect_wf(vads: Seq<Vad>, base: int, end: int, w: bool, x: bool)
    requires
        vads_wf(vads),
        0 <= base < end <= u64::MAX,
    ensures
        vads_wf(reprotect(vads, base, end, w, x)),
        forall|b: int|
            #[trigger] end_by(vads, b) ==> end_by(reprotect(vads, base, end, w, x), b),
    decreases vads.len(),
{
    if vads.len() > 0 {
        let init = vads.drop_last();
        let v = vads.last();
        lemma_prefix_wf(vads);
        lemma_reprotect_wf(init, base, end, w, x);
        let s = reprotect(init, base, end, w, x);
        let t = protect_one(v, base, end, w, x);
        let r = reprotect(vads, base, end, w, x);
        assert(v.start < v.end && v == vads[vads.len() - 1]);
        assert forall|i: int| 0 <= i < s.len() implies (#[trigger] s[i]).end <= v.start by {
            assert(end_by(init, v.start as int));
        }
        assert forall|i: int| 0 <= i < t.len() implies v.start <= (#[trigger] t[i]).start
            < t[i].end <= v.end by {}
        assert forall|i: int, j: int| 0 <= i < j < t.len() implies (#[trigger] t[i]).end <= (
        #[trigger] t[j]).start by {}
        assert forall|i: int, j: int| 0 <= i < j < r.len() implies (#[trigger] r[i]).end <= (
        #[trigger] r[j]).start by {
            if j < s.len() {
                assert(s[i].end <= s[j].start);
            } else if i < s.len() {
                assert(s[i].end <= v.start);
                assert(v.start <= t[j - s.len()].start);
            } else {
                assert(t[i - s.len()].end <= t[j - s.len()].start);
            }
        }
        assert forall|i: int| 0 <= i < r.len() implies USER_VAD_BASE <= (#[trigger] r[i]).start
            < r[i].end <= USER_VAD_LIMIT by {
            if i < s.len() {
                assert(s[i].start < s[i].end);
            } else {
                assert(t[i - s.len()].start < t[i - s.len()].end);
            }
        }
        assert forall|b: int| #[trigger] end_by(vads, b) implies end_by(r, b) by {
            assert(vads[vads.len() - 1].end <= b);
            assert forall|i: int| 0 <= i < r.len() implies (#[trigger] r[i]).end <= b by {
                if i < s.len() {
                    assert(s[i].end <= v.start);
                } else {
                    assert(t[i - s.len()].end <= v.end);
                }
            }
        }
    }
}

/// `NtFreeVirtualMemory` (release): drop `[base, base + len)` from the
/// descriptors of the current address space and unmap and free whatever of it
/// is backed; paged-out pages of the range give their slots back. A surviving
/// head or tail of a descriptor is kept. Fails on a range that wraps around and
/// on an address space without descriptors.
pub fn vad_free(
    db: &mut VadDatabase,
    mmu: &mut Mmu,
    pf: &mut PageFile,
    base: u64,
    len: u64,
) -> (r: Result<(), NtStatus>)
    requires
        old(db).wf(),
        old(mmu).phys.wf(),
        old(pf).wf(),
    ensures
        final(db).wf(),
        final(mmu).phys.wf(),
        final(pf).wf(),
        final(mmu).same_registers(old(mmu)),
        final(db).same_elsewhere(old(db), old(mmu).root()),
        ({
            let root = old(mmu).root();
            let end = base + len;
            let vads = old(db).of(root);
            if end > u64::MAX {
                &&& r == Err::<(), _>(NtStatus(NtStatus::INVALID_PARAMETER))
                &&& final(db).of(root) == vads
                &&& final(mmu).phys@ == old(mmu).phys@
                &&& final(pf)@ == old(pf)@
            } else if !old(db).knows(root) {
                &&& r == Err::<(), _>(NtStatus(NtStatus::INVALID_PARAMETER))
                &&& final(db).of(root) == vads
                &&& final(mmu).phys@ == old(mmu).phys@
                &&& final(pf)@ == dropped(old(pf)@, root, false, base as int, end)
            } else {
                &&& r == Ok::<(), NtStatus>(())
                &&& final(db).of(root) == cut(vads, base as int, end)
                &&& final(mmu).phys@ == unmap_cut(old(mmu).phys@, root, vads, base as int, end)
                &&& final(pf)@ == dropped(old(pf)@, root, false, base as int, end)
            }
        }),
{
    let end: u64 = match base.checked_add(len) {
        Some(e) => e,
        None => {
            return Err(NtStatus(NtStatus::INVALID_PARAMETER));
        },
    };
    let root: u64 = mmu.cr3 & ADDR_MASK;
    drop_range(pf, root, base, len);
    let si: usize = match db.find(root) {
        Some(i) => i,
        None => {
            return Err(NtStatus(NtStatus::INVALID_PARAMETER));
        },
    };
    let ghost vads = db.of(root);
    let ghost st = mmu.phys@;
    let mut out: Vec<Vad> = Vec::new();
    let mut i: usize = 0;
    assert(vads.take(0) =~= Seq::empty());
    while i < db.spaces[si].vads.len()
        invariant
            si < db.spaces@.len(),
            vads == db.spaces@[si as int].vads@,
            vads_wf(vads),
            i <= vads.len(),
            base <= end,
            mmu.phys.wf(),
            mmu.same_registers(old(mmu)),
            root == mmu.root(),
            out@ == cut(vads.take(i as int), base as int, end as int),
            mmu.phys@ == unmap_cut(st, root, vads.take(i as int), base as int, end as int),
        decreases vads.len() - i,
    {
        let v = db.spaces[si].vads[i];
        proof {
            let t = vads.take(i + 1);
            assert(t.drop_last() =~= vads.take(i as int));
            assert(t.last() == v);
            assert(vads[i as int].end <= USER_VAD_LIMIT);
        }
        let ghost before = out@;
        let lo: u64 = if v.start >= base {
            v.start
        } else {
            base
        };
        let hi: u64 = if v.end <= end {
            v.end
        } else {
            end
        };
        unmap_range(mmu, lo, hi);
        if v.end <= base || v.start >= end {
            out.push(v);
        } else {
            if v.start < base {
                out.push(Vad { end: base, ..v });
            }
            if end < v.end {
                out.push(Vad { start: end, ..v });
            }
        }
        assert(out@ =~= before + cut_one(v, base as int, end as int));
        i = i + 1;
    }
    proof {
        assert(vads.take(i as int) =~= vads);
        lemma_cut_wf(vads, base as int, end as int);
    }
    db.replace(si, out);
    Ok(())
}

/// `NtProtectVirtualMemory`: change the protection of `[base, base + len)` in the
/// current address space, splitting descriptors on partial overlaps, and apply
/// the new bits to pages already backed. Fails on an empty or wrapping range and
/// where nothing is committed.
pub fn vad_protect(
    db: &mut VadDatabase,
    mmu: &mut Mmu,
    base: u64,
    len: u64,
    writable: bool,
    executable: bool,
) -> (r: Result<(), NtStatus>)
    requires
        old(db).wf(),
        old(mmu).phys.wf(),
    ensures
        final(db).wf(),
        final(mmu).phys.wf(),
        final(mmu).same_registers(old(mmu)),
        final(db).same_elsewhere(old(db), old(mmu).root()),
        ({
            let root = old(mmu).root();
            let end = base + len;
            let vads = old(db).of(root);
            if end > u64::MAX || len == 0 || !old(db).knows(root) || !overlaps(
                vads,
                base as int,
                end,
            ) {
                &&& r == Err::<(), _>(NtStatus(NtStatus::INVALID_PARAMETER))
                &&& final(db).of(root) == vads
                &&& final(mmu).phys@ == old(mmu).phys@
            } else {
                &&& r == Ok::<(), NtStatus>(())
                &&& final(db).of(root) == reprotect(vads, base as int, end, writable, executable)
                &&& final(mmu).phys@ == PhysState {
                    ram: protect_cut(
                        old(mmu).ram(),
                        root,
                        vads,
                        base as int,
                        end,
                        writable,
                        executable,
                    ),
                    ..old(mmu).phys@
                }
            }
        }),
{
    let end: u64 = match base.checked_add(len) {
        Some(e) => e,
        None => {
            return Err(NtStatus(NtStatus::INVALID_PARAMETER));
        },
    };
    if end <= base {
        return Err(NtStatus(NtStatus::INVALID_PARAMETER));
    }
    let root: u64 = mmu.cr3 & ADDR_MASK;
    let si: usize = match db.find(root) {
        Some(i) => i,
        None => {
            return Err(NtStatus(NtStatus::INVALID_PARAMETER));
        },
    };
    let ghost vads = db.of(root);
    let mut any: bool = false;
    let mut k: usize = 0;
    while k < db.spaces[si].vads.len()
        invariant
            si < db.spaces@.len(),
            vads == db.spaces@[si as int].vads@,
            k <= vads.len(),
            any == overlaps(vads.take(k as int), base as int, end as int),
        decreases vads.len() - k,
    {
        let v = db.spaces[si].vads[k];
        proof {
            let a = vads.take(k as int);
            let b = vads.take(k + 1);
            assert(b[k as int] == v);
            if overlaps(a, base as int, end as int) {
                let i = choose|i: int|
                    0 <= i < a.len() && (#[trigger] a[i]).start < end && base < a[i].end;
                assert(b[i] == a[i]);
            }
            if overlaps(b, base as int, end as int) && !(v.start < end && base < v.end) {
                let i = choose|i: int|
                    0 <= i < b.len() && (#[trigger] b[i]).start < end && base < b[i].end;
                assert(a[i] == b[i]);
            }
        }
        if v.start < end && base < v.end {
            any = true;
        }
        k = k + 1;
    }
    assert(vads.take(k as int) =~= vads);
    if !any {
        return Err(NtStatus(NtStatus::INVALID_PARAMETER));
    }
    let ghost st = mmu.phys@;
    let mut out: Vec<Vad> = Vec::new();
    let mut i: usize = 0;
    assert(vads.take(0) =~= Seq::empty());
    while i < db.spaces[si].vads.len()
        invariant
            si < db.spaces@.len(),
            vads == db.spaces@[si as int].vads@,
            vads_wf(vads),
            i <= vads.len(),
            base < end,
            mmu.phys.wf(),
            mmu.same_registers(old(mmu)),
            root == mmu.root(),
            out@ == reprotect(
                vads.take(i as int),
                base as int,
                end as int,
                writable,
                executable,
            ),
            mmu.phys@ == (PhysState {
                ram: protect_cut(
                    st.ram,
                    root,
                    vads.take(i as int),
                    base as int,
                    end as int,
                    writable,
                    executable,
                ),
                ..st
            }),
        decreases vads.len() - i,
    {
        let v = db.spaces[si].vads[i];
        proof {
            let t = vads.take(i + 1);
            assert(t.drop_last() =~= vads.take(i as int));
            assert(t.last() == v);
            assert(vads[i as int].end <= USER_VAD_LIMIT);
        }
        let ghost before = out@;
        let lo: u64 = if v.start >= base {
            v.start
        } else {
            base
        };
        let hi: u64 = if v.end <= end {
            v.end
        } else {
            end
        };
        protect_range(mmu, lo, hi, writable, executable);
        if v.end <= base || v.start >= end {
            out.push(v);
        } else {
            if v.start < base {
                out.push(Vad { end: lo, ..v });
            }
            out.push(Vad { start: lo, end: hi, writable, executable });
            if end < v.end {
                out.push(Vad { start: hi, ..v });
            }
        }
        assert(out@ =~= before + protect_one(
            v,
            base as int,
            end as int,
            writable,
            executable,
        ));
        i = i + 1;
    }
    proof {
        assert(vads.take(i as int) =~= vads);
        lemma_reprotect_wf(vads, base as int, end as int, writable, executable);
    }
    db.replace(si, out);
    Ok(())
}

/// Drop the descriptors of a dying address space and its paged-out pages.
pub fn vad_teardown(db: &mut VadDatabase, pf: &mut PageFile, pml4: PhysAddr)
    requires
        old(db).wf(),
        old(pf).wf(),
    ensures
        final(db).wf(),
        final(pf).wf(),
        final(pf)@ == dropped(old(pf)@, pml4.0, true, 0, 0),
        !final(db).knows(pml4.0),
        final(db).same_elsewhere(old(db), pml4.0),
{
    drop_process(pf, pml4.0);
    match db.find(pml4.0) {
        None => {},
        Some(i) => {
            let ghost before = *db;
            let gone = db.spaces.remove(i);
            proof {
                let now = *db;
                assert forall|a: int| 0 <= a < now.spaces@.len() implies #[trigger] now.spaces@[a]
                    == before.spaces@[if a < i {
                    a
                } else {
                    a + 1
                }] by {}
                assert forall|a: int| 0 <= a < now.spaces@.len() implies vads_wf(
                    (#[trigger] now.spaces@[a]).vads@,
                ) && now.spaces@[a].pml4 != pml4.0 by {
                    let k = if a < i {
                        a
                    } else {
                        a + 1
                    };
                    assert(now.spaces@[a] == before.spaces@[k]);
                    assert(vads_wf(before.spaces@[k].vads@));
                    if k < i {
                        assert(before.spaces@[k].pml4 != before.spaces@[i as int].pml4);
                    } else {
                        assert(before.spaces@[i as int].pml4 != before.spaces@[k].pml4);
                    }
                }
                assert forall|a: int, b: int| 0 <= a < b < now.spaces@.len() implies (
                #[trigger] now.spaces@[a]).pml4 != (#[trigger] now.spaces@[b]).pml4 by {
                    let ka = if a < i {
                        a
                    } else {
                        a + 1
                    };
                    let kb = if b < i {
                        b
                    } else {
                        b + 1
                    };
                    assert(before.spaces@[ka].pml4 != before.spaces@[kb].pml4);
                }
                assert forall|p: u64| p != pml4.0 implies #[trigger] now.knows(p)
                    == before.knows(p) && now.of(p) == before.of(p) by {
                    assert forall|k: int|
                        0 <= k < before.spaces@.len() && (#[trigger] before.spaces@[k]).pml4
                            == p implies exists|a: int|
                        0 <= a < now.spaces@.len() && #[trigger] now.spaces@[a]
                            == before.spaces@[k] by {
                        let a = if k < i {
                            k
                        } else {
                            k - 1
                        };
                        assert(now.spaces@[a] == before.spaces@[k]);
                    }
                    assert forall|k: int|
                        0 <= k < now.spaces@.len() && (#[trigger] now.spaces@[k]).pml4
                            == p implies exists|a: int|
                        0 <= a < before.spaces@.len() && #[trigger] before.spaces@[a]
                            == now.spaces@[k] by {
                        let a = if k < i {
                            k
                        } else {
                            k + 1
                        };
                        assert(now.spaces@[k] == before.spaces@[a]);
                    }
                    lemma_same_list(before, now, p);
                }
            }
        },
    }
}

/// Number of descriptors of an address space.
pub fn vad_count(db: &VadDatabase, pml4: PhysAddr) -> (n: usize)
    requires
        db.wf(),
    ensures
        n == db.of(pml4.0).len(),
{
    match db.find(pml4.0) {
        Some(i) => db.spaces[i].vads.len(),
        None => 0,
    }
}

// ---------------------------------------------------------------------------
// Demand commit
// ---------------------------------------------------------------------------
/// What a page fault in the current address space comes to.
#[derive(Debug, Clone, Copy, PartialEq, Eq)]
pub enum Resolve {
    /// Not resolvable: no committed range, or no memory.
    Fault,
    /// The page is there; retry. The page to evict for it, if any.
    Done(Option<(u64, u64)>),
    /// The page must be read back from the pagefile, then mapped with this
    /// protection.
    ReadBack(PageRead, bool, bool),
}

/// Backing a fresh page with a zeroed frame: memory, pagefile, and whether it
/// worked.
pub open spec fn zero_filled(
    st: PhysState,
    pf: PageFileState,
    root: u64,
    page: u64,
    w: bool,
    x: bool,
) -> (PhysState, PageFileState, Resolve) {
    let (s1, pa) = alloc_page(st);
    match pa {
        None => (st, pf, Resolve::Fault),
        Some(pa) => {
            let (s2, ok) = map_page(s1, root, page, pa, w, x);
            if ok {
                let (p2, victim) = registered(pf, root, page);
                (s2, p2, Resolve::Done(victim))
            } else {
                (release(s2, pa), pf, Resolve::Fault)
            }
        },
    }
}

/// What [`vad_resolve`] does for the page at `page`.
pub open spec fn resolved(
    vads: Seq<Vad>,
    st: PhysState,
    pf: PageFileState,
    root: u64,
    page: u64,
) -> (PhysState, PageFileState, Resolve) {
    match protection(vads, page as int) {
        None => (st, pf, Resolve::Fault),
        Some((w, x)) => {
            if backed_leaf(st.ram, root, page) is Some {
                (st, pf, Resolve::Done(None))
            } else {
                match record_of(pf.records, root, page, 0) {
                    None => zero_filled(st, pf, root, page, w, x),
                    Some(k) => {
                        let slot = pf.records[k].2;
                        let without = PageFileState { records: pf.records.remove(k), ..pf };
                        let (s1, pa) = alloc_page(st);
                        match pa {
                            Some(pa) => (
                                s1,
                                without,
                                Resolve::ReadBack(
                                    PageRead {
                                        cr3: root,
                                        va: page,
                                        pa: PhysAddr(pa),
                                        slot,
                                        sector: crate::mm::pageout::sector_of(pf.base, slot),
                                    },
                                    w,
                                    x,
                                ),
                            ),
                            None => (
                                st,
                                PageFileState {
                                    records: without.records.push((root, page, slot)),
                                    ..without
                                },
                                Resolve::Fault,
                            ),
                        }
                    },
                }
            }
        },
    }
}

proof fn lemma_protection(vads: Seq<Vad>, a: int, i: int)
    requires
        vads_wf(vads),
        0 <= i < vads.len(),
        vads[i].start <= a < vads[i].end,
    ensures
        protection(vads, a) == Some((vads[i].writable, vads[i].executable)),
    decreases vads.len(),
{
    let n = vads.len() - 1;
    if i < n {
        assert(vads[i].end <= vads[n].start);
        lemma_prefix_wf(vads);
        lemma_protection(vads.drop_last(), a, i);
    }
}

proof fn lemma_no_protection(vads: Seq<Vad>, a: int)
    requires
        forall|i: int| 0 <= i < vads.len() ==> !((#[trigger] vads[i]).start <= a < vads[i].end),
    ensures
        protection(vads, a) is None,
    decreases vads.len(),
{
    if vads.len() > 0 {
        let init = vads.drop_last();
        assert(!(vads[vads.len() - 1].start <= a < vads[vads.len() - 1].end));
        assert forall|i: int| 0 <= i < init.len() implies !((#[trigger] init[i]).start <= a
            < init[i].end) by {
            assert(!(vads[i].start <= a < vads[i].end));
        }
        lemma_no_protection(init, a);
    }
}

/// Back a page with a zeroed frame and queue it on the working set.
pub fn vad_zero_fill(
    mmu: &mut Mmu,
    pf: &mut PageFile,
    page: u64,
    writable: bool,
    executable: bool,
) -> (r: Resolve)
    requires
        old(mmu).phys.wf(),
        old(pf).wf(),
    ensures
        final(mmu).phys.wf(),
        final(pf).wf(),
        final(mmu).same_registers(old(mmu)),
        (final(mmu).phys@, final(pf)@, r) == zero_filled(
            old(mmu).phys@,
            old(pf)@,
            old(mmu).root(),
            page,
            writable,
            executable,
        ),
{
    let root: u64 = mmu.cr3 & ADDR_MASK;
    let pa: PhysAddr = match mm_allocate_page(&mut mmu.phys) {
        Some(p) => p,
        None => {
            return Resolve::Fault;
        },
    };
    if !map_user_page(&mut mmu.phys, root, page, pa.0, writable, executable) {
        release_frame(&mut mmu.phys, pa);
        return Resolve::Fault;
    }
    Resolve::Done(register_page(pf, root, page))
}

impl VadDatabase {
    /// Whether `va` is committed in the current address space.
    pub(crate) fn committed_at(&self, mmu: &Mmu, va: u64) -> (r: bool)
        requires
            self.wf(),
        ensures
            r == (protection(self.of(mmu.root()), va as int) is Some),
    {
        let root: u64 = mmu.cr3 & ADDR_MASK;
        let si: usize = match self.find(root) {
            Some(i) => i,
            None => {
                return false;
            },
        };
        let ghost vads = self.of(root);
        let mut i: usize = 0;
        while i < self.spaces[si].vads.len()
            invariant
                self.wf(),
                si < self.spaces@.len(),
                root == mmu.root(),
                vads == self.of(root),
                vads == self.spaces@[si as int].vads@,
                vads_wf(vads),
                i <= vads.len(),
                forall|k: int| 0 <= k < i ==> !((#[trigger] vads[k]).start <= va < vads[k].end),
            decreases vads.len() - i,
        {
            let v = self.spaces[si].vads[i];
            if v.start <= va && va < v.end {
                proof {
                    lemma_protection(vads, va as int, i as int);
                }
                return true;
            }
            i = i + 1;
        }
        proof {
            lemma_no_protection(vads, va as int);
        }
        false
    }
}

/// The page-fault half of demand commit: if `va` lies in a committed range of
/// the current address space, back its page with a zeroed frame, or with the
/// pagefile content when it was evicted. Anything else is a fault to report.
pub fn vad_resolve(db: &VadDatabase, mmu: &mut Mmu, pf: &mut PageFile, va: u64) -> (r: Resolve)
    requires
        db.wf(),
        old(mmu).phys.wf(),
        old(pf).wf(),
    ensures
        final(mmu).phys.wf(),
        final(pf).wf(),
        final(mmu).same_registers(old(mmu)),
        (final(mmu).phys@, final(pf)@, r) == resolved(
            db.of(old(mmu).root()),
            old(mmu).phys@,
            old(pf)@,
            old(mmu).root(),
            ((va / 4096) * 4096) as u64,
        ),
{
    let page: u64 = va / 4096 * 4096;
    let root: u64 = mmu.cr3 & ADDR_MASK;
    let si: usize = match db.find(root) {
        Some(i) => i,
        None => {
            return Resolve::Fault;
        },
    };
    let ghost vads = db.of(root);
    let mut i: usize = 0;
    while i < db.spaces[si].vads.len()
        invariant
            si < db.spaces@.len(),
            vads == db.spaces@[si as int].vads@,
            i <= vads.len(),
            forall|k: int| 0 <= k < i ==> !((#[trigger] vads[k]).start <= page < vads[k].end),
        ensures
            i < vads.len() ==> vads[i as int].start <= page < vads[i as int].end,
        decreases vads.len() - i,
    {
        let v = db.spaces[si].vads[i];
        if v.start <= page && page < v.end {
            break ;
        }
        i = i + 1;
    }
    if i >= db.spaces[si].vads.len() {
        proof {
            lemma_no_protection(vads, page as int);
        }
        return Resolve::Fault;
    }
    let v = db.spaces[si].vads[i];
    proof {
        lemma_protection(vads, page as int, i as int);
    }
    if mm_debug_pte(mmu, page).is_some() {
        return Resolve::Done(None);
    }
    match page_in(pf, &mut mmu.phys, root, page) {
        PageInStep::Read(read) => Resolve::ReadBack(read, v.writable, v.executable),
        PageInStep::NoFrame => Resolve::Fault,
        PageInStep::NotPagedOut => vad_zero_fill(mmu, pf, page, v.writable, v.executable),
    }
}

// ---------------------------------------------------------------------------
// Laws
// ---------------------------------------------------------------------------
proof fn lemma_protection_concat(a: Seq<Vad>, b: Seq<Vad>, x: int)
    ensures
        protection(a + b, x) == match protection(b, x) {
            Some(p) => Some(p),
            None => protection(a, x),
        },
    decreases b.len(),
{
    if b.len() > 0 {
        let s = a + b;
        assert(s.drop_last() =~= a + b.drop_last());
        assert(s.last() == b.last());
        lemma_protection_concat(a, b.drop_last(), x);
    } else {
        assert(a + b =~= a);
    }
}

/// Freeing a range decommits exactly that range: protection elsewhere stays.
pub proof fn free_decommits_exactly_the_range(vads: Seq<Vad>, base: int, end: int, a: int)
    requires
        0 <= base <= end <= u64::MAX,
        forall|i: int| 0 <= i < vads.len() ==> (#[trigger] vads[i]).start < vads[i].end,
    ensures
        protection(cut(vads, base, end), a) == if base <= a < end {
            None
        } else {
            protection(vads, a)
        },
    decreases vads.len(),
{
    if vads.len() > 0 {
        let init = vads.drop_last();
        let v = vads.last();
        assert(vads[vads.len() - 1] == v);
        assert forall|i: int| 0 <= i < init.len() implies (#[trigger] init[i]).start
            < init[i].end by {
            assert(vads[i].start < vads[i].end);
        }
        free_decommits_exactly_the_range(init, base, end, a);
        let pieces = cut_one(v, base, end);
        lemma_protection_concat(cut(init, base, end), pieces, a);
        reveal_with_fuel(protection, 3);
        if v.end <= base || v.start >= end {
            assert(pieces.drop_last() =~= Seq::empty());
        } else {
            if pieces.len() == 2 {
                assert(pieces.drop_last().drop_last() =~= Seq::empty());
                assert(pieces[0] == (Vad { end: base as u64, ..v }));
                assert(pieces[1] == (Vad { start: end as u64, ..v }));
            } else if pieces.len() == 1 {
                assert(pieces.drop_last() =~= Seq::empty());
            }
        }
    }
}

/// Protecting a range changes the protection of exactly its committed part.
pub proof fn protect_changes_exactly_the_range(
    vads: Seq<Vad>,
    base: int,
    end: int,
    w: bool,
    x: bool,
    a: int,
)
    requires
        0 <= base < end <= u64::MAX,
        forall|i: int| 0 <= i < vads.len() ==> (#[trigger] vads[i]).start < vads[i].end,
    ensures
        protection(reprotect(vads, base, end, w, x), a) == if base <= a < end && protection(
            vads,
            a,
        ) is Some {
            Some((w, x))
        } else {
            protection(vads, a)
        },
    decreases vads.len(),
{
    if vads.len() > 0 {
        let init = vads.drop_last();
        let v = vads.last();
        assert(vads[vads.len() - 1] == v);
        assert forall|i: int| 0 <= i < init.len() implies (#[trigger] init[i]).start
            < init[i].end by {
            assert(vads[i].start < vads[i].end);
        }
        protect_changes_exactly_the_range(init, base, end, w, x, a);
        let pieces = protect_one(v, base, end, w, x);
        lemma_protection_concat(reprotect(init, base, end, w, x), pieces, a);
        reveal_with_fuel(protection, 4);
        if pieces.len() == 3 {
            assert(pieces.drop_last().drop_last().drop_last() =~= Seq::empty());
            assert(pieces.drop_last()[1] == pieces[1] && pieces.drop_last()[0] == pieces[0]);
        } else if pieces.len() == 2 {
            assert(pieces.drop_last().drop_last() =~= Seq::empty());
            assert(pieces.drop_last()[0] == pieces[0]);
        } else {
            assert(pieces.drop_last() =~= Seq::empty());
        }
    }
}

/// An allocation commits exactly its own range, which was free before.
pub proof fn allocation_commits_exactly_its_range(vads: Seq<Vad>, v: Vad, a: int)
    requires
        vads_wf(vads),
        v.start < v.end,
        free_gap(vads, v.start as int, v.end - v.start),
    ensures
        protection(inserted(vads, v), a) == if v.start <= a < v.end {
            Some((v.writable, v.executable))
        } else {
            protection(vads, a)
        },
        v.start <= a < v.end ==> protection(vads, a) is None,
    decreases vads.len(),
{
    if v.start <= a < v.end {
        assert forall|i: int| 0 <= i < vads.len() implies !((#[trigger] vads[i]).start <= a
            < vads[i].end) by {
            assert(vads[i].end <= v.start || v.start + (v.end - v.start) <= vads[i].start);
        }
        lemma_no_protection(vads, a);
    }
    if vads.len() == 0 || vads.last().start < v.start {
        assert(inserted(vads, v).drop_last() =~= vads);
    } else {
        let init = vads.drop_last();
        lemma_prefix_wf(vads);
        assert(free_gap(init, v.start as int, v.end - v.start)) by {
            assert forall|i: int| 0 <= i < init.len() implies (#[trigger] init[i]).end <= v.start
                || v.start + (v.end - v.start) <= init[i].start by {
                assert(vads[i].end <= v.start || v.end <= vads[i].start);
            }
        }
        allocation_commits_exactly_its_range(init, v, a);
        let r = inserted(vads, v);
        assert(r.drop_last() =~= inserted(init, v));
        assert(vads[vads.len() - 1].end <= v.start || v.end <= vads[vads.len() - 1].start);
    }
}

/// A page is protected as the range that holds it says, and not at all outside of every
/// range.
pub proof fn a_page_is_protected_as_its_range(vads: Seq<Vad>, a: int, i: int)
    requires
        vads_wf(vads),
        0 <= i < vads.len(),
    ensures
        vads[i].start <= a < vads[i].end ==> protection(vads, a) == Some(
            (vads[i].writable, vads[i].executable),
        ),
        !committed(vads, a) ==> protection(vads, a) is None,
{
    if vads[i].start <= a < vads[i].end {
        lemma_protection(vads, a, i);
    }
    if !committed(vads, a) {
        lemma_no_protection(vads, a);
    }
}

/// A fault outside of every range is the program's, one on a page that is there is settled,
/// and in both cases nothing changes.
pub proof fn a_fault_is_settled_where_a_page_is(
    vads: Seq<Vad>,
    st: PhysState,
    pf: PageFileState,
    root: u64,
    page: u64,
)
    ensures
        protection(vads, page as int) is None ==> resolved(vads, st, pf, root, page) == (
            st,
            pf,
            Resolve::Fault,
        ),
        protection(vads, page as int) is Some && backed_leaf(st.ram, root, page) is Some
            ==> resolved(vads, st, pf, root, page) == (st, pf, Resolve::Done(None)),
{
}

/// A page that was never there is made of a fresh frame, mapped with the rights of its range
/// and put on the list of resident pages.
pub proof fn a_new_page_is_mapped_with_its_rights(
    st: PhysState,
    pf: PageFileState,
    root: u64,
    page: u64,
    w: bool,
    x: bool,
)
    ensures
        ({
            let (s, p, r) = zero_filled(st, pf, root, page, w, x);
            let (s1, pa) = alloc_page(st);
            &&& pa is None ==> s == st && p == pf && r == Resolve::Fault
            &&& pa is Some && map_page(s1, root, page, pa->0, w, x).1 ==> s == map_page(
                s1,
                root,
                page,
                pa->0,
                w,
                x,
            ).0 && (p, r) == (
                registered(pf, root, page).0,
                Resolve::Done(registered(pf, root, page).1),
            )
            &&& pa is Some && !map_page(s1, root, page, pa->0, w, x).1 ==> p == pf && r
                == Resolve::Fault
        }),
{
}

/// A page that is out is read back into a fresh frame from the slot that it was written to,
/// and gets the rights of its range; without a frame it stays out.
pub proof fn a_page_that_is_out_is_read_back(
    vads: Seq<Vad>,
    st: PhysState,
    pf: PageFileState,
    root: u64,
    page: u64,
    k: int,
)
    requires
        protection(vads, page as int) is Some,
        backed_leaf(st.ram, root, page) is None,
        record_of(pf.records, root, page, 0) == Some(k),
        pf.base + 8 * pf.records[k].2 <= u64::MAX,
    ensures
        ({
            let (s, p, r) = resolved(vads, st, pf, root, page);
            let (s1, pa) = alloc_page(st);
            match pa {
                Some(pa) => {
                    &&& r matches Resolve::ReadBack(read, w, x)
                    &&& (w, x) == protection(vads, page as int)->0
                    &&& read.cr3 == root
                    &&& read.va == page
                    &&& read.pa.0 == pa
                    &&& read.slot == pf.records[k].2
                    &&& read.sector == pf.base + 8 * pf.records[k].2
                    &&& s == s1
                    &&& p.records == pf.records.remove(k)
                },
                None => {
                    &&& r == Resolve::Fault
                    &&& s == st
                    &&& p.records == pf.records.remove(k).push((root, page, pf.records[k].2))
                },
            }
        }),
{
}

/// A frame is given back only if it is one that is in use, and never the first.
pub proof fn only_frames_in_use_are_given_back(st: PhysState, pa: u64)
    ensures
        pa < 4096 || pa as int / 4096 >= st.bits.len() || !st.bits[pa as int / 4096] ==> release(
            st,
            pa,
        ) == st,
        pa >= 4096 && (pa as int / 4096) < st.bits.len() && st.bits[pa as int / 4096] ==> release(
            st,
            pa,
        ) == free_page(st, pa),
{
}

/// Taking pages away goes page by page: each is unmapped and its frame given back.
pub proof fn pages_are_taken_away_in_turn(st: PhysState, root: u64, page: int, hi: int)
    ensures
        page >= hi ==> unmap_pages(st, root, page, hi) == st,
        page < hi ==> unmap_pages(st, root, page, hi) == unmap_pages(
            match backed_leaf(st.ram, root, page as u64) {
                Some(e) => release(
                    PhysState { ram: unmapped(st.ram, root, page as u64), ..st },
                    e & 0x000F_FFFF_FFFF_F000,
                ),
                None => PhysState { ram: unmapped(st.ram, root, page as u64), ..st },
            },
            root,
            page + 4096,
            hi,
        ),
{
    reveal_with_fuel(unmap_pages, 1);
}

/// Protection changes page by page, from the first page of the range to its last.
pub proof fn pages_are_protected_in_turn(
    ram: Seq<u8>,
    root: u64,
    page: int,
    hi: int,
    w: bool,
    x: bool,
)
    ensures
        page >= hi ==> protect_backed(ram, root, page, hi, w, x) == ram,
        page < hi ==> protect_backed(ram, root, page, hi, w, x) == protect_backed(
            protected(ram, root, page as u64, w, x),
            root,
            page + 4096,
            hi,
            w,
            x,
        ),
{
    reveal_with_fuel(protect_backed, 1);
}

/// Ranges outside of what is freed or protected are left alone.
pub proof fn ranges_elsewhere_are_left_alone(
    st: PhysState,
    root: u64,
    v: Vad,
    base: int,
    end: int,
    w: bool,
    x: bool,
)
    requires
        v.end <= base || end <= v.start,
        v.start <= v.end,
    ensures
        unmap_cut(st, root, seq![v], base, end) == st,
        protect_cut(st.ram, root, seq![v], base, end, w, x) == st.ram,
{
    reveal_with_fuel(unmap_cut, 2);
    reveal_with_fuel(protect_cut, 2);
    reveal_with_fuel(unmap_pages, 1);
    reveal_with_fuel(protect_backed, 1);
    assert(seq![v].drop_last() =~= Seq::<Vad>::empty());
}

/// A range within what is freed or protected loses, or changes, all of its pages.
pub proof fn a_range_inside_changes_whole(
    st: PhysState,
    root: u64,
    v: Vad,
    base: int,
    end: int,
    w: bool,
    x: bool,
)
    requires
        base <= v.start,
        v.end <= end,
    ensures
        unmap_cut(st, root, seq![v], base, end) == unmap_pages(
            st,
            root,
            v.start as int,
            v.end as int,
        ),
        protect_cut(st.ram, root, seq![v], base, end, w, x) == protect_backed(
            st.ram,
            root,
            v.start as int,
            v.end as int,
            w,
            x,
        ),
{
    reveal_with_fuel(unmap_cut, 2);
    reveal_with_fuel(protect_cut, 2);
    assert(seq![v].drop_last() =~= Seq::<Vad>::empty());
}

} // verus!
