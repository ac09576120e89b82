//! Page-out and page-in: the bookkeeping of evicted pages.
//!
//! Every demand-committed user page is queued (process, address) oldest first.
//! Eviction writes the oldest backed pages to slots of a pagefile, clears their
//! leaf entry and frees the frame; the next touch finds the record and reads the
//! content back. The block device is the caller's: an eviction or page-in is
//! begun here, the caller moves the page between memory and disk, and reports
//! how that went to the finishing routine.
use crate::mm::phys::{
    alloc_page, free_page, mm_allocate_page, mm_free_page, PhysState, PhysicalMemory,
};
use crate::mm::vad::{release, release_frame};
use crate::mm::virt::{
    backed_leaf, map_page, map_user_page, mm_debug_pte_in, mm_unmap_user_page_in, unmapped,
    ADDR_MASK, ENTRY_PRESENT,
};
use crate::mm::PhysAddr;
use crate::rtl::bitmap::RtlBitmap;
use vstd::prelude::*;

verus! {

/// Disk sectors per page.
pub const SECTORS_PER_PAGE: u64 = 8;

/// Most pages on the working set.
pub const REG_CAP: usize = 8192;

/// Most paged-out records.
pub const MAP_CAP: usize = 2048;

/// The pagefile and its records.
pub struct PageFile {
    base: u64,
    slots: RtlBitmap,
    hint: u32,
    registry: Vec<(u64, u64)>,
    records: Vec<(u64, u64, u32)>,
    last_slot: Option<u32>,
}

/// The abstract state of a [`PageFile`].
#[verifier::ext_equal]
pub struct PageFileState {
    /// First sector of the pagefile.
    pub base: u64,
    /// Which slots are taken.
    pub slots: Seq<bool>,
    /// Where the next slot search starts.
    pub hint: int,
    /// Working set, oldest first: (address space, page).
    pub registry: Seq<(u64, u64)>,
    /// Evicted pages: (address space, page, slot).
    pub records: Seq<(u64, u64, u32)>,
    /// The slot the last eviction wrote.
    pub last: Option<u32>,
}

impl View for PageFile {
    type V = PageFileState;

    closed spec fn view(&self) -> PageFileState {
        PageFileState {
            base: self.base,
            slots: self.slots.bits(),
            hint: self.hint as int,
            registry: self.registry@,
            records: self.records@,
            last: self.last_slot,
        }
    }
}

/// The slots of a pagefile fit 32 bits, no two evicted pages share a slot, and
/// every recorded slot is taken.
pub open spec fn records_sound(pf: PageFileState) -> bool {
    &&& forall|i: int|
        0 <= i < pf.records.len() ==> (#[trigger] pf.records[i]).2 < pf.slots.len()
            && pf.slots[pf.records[i].2 as int]
    &&& forall|i: int, j: int|
        0 <= i < j < pf.records.len() ==> (#[trigger] pf.records[i]).2 != (
        #[trigger] pf.records[j]).2
}

/// `slot` is taken but belongs to no record: a transfer is under way.
pub open spec fn in_flight(pf: PageFileState, slot: u32) -> bool {
    &&& slot < pf.slots.len()
    &&& pf.slots[slot as int]
    &&& forall|i: int| 0 <= i < pf.records.len() ==> (#[trigger] pf.records[i]).2 != slot
}

/// `s` is the first free slot in cyclic order from the hint.
pub open spec fn next_slot(pf: PageFileState, s: int) -> bool {
    let n = pf.slots.len() as int;
    &&& 0 <= s < n
    &&& !pf.slots[s]
    &&& exists|i: int|
        #![trigger at_step(pf, i)]
        0 <= i < n && s == at_step(pf, i) && forall|j: int|
            0 <= j < i ==> pf.slots[#[trigger] at_step(pf, j)]
}

/// The slot looked at in step `i` of a search.
pub open spec fn at_step(pf: PageFileState, i: int) -> int {
    (pf.hint + i) % (pf.slots.len() as int)
}

/// The state after slot `s` has been taken.
pub open spec fn take_slot(pf: PageFileState, s: int) -> PageFileState {
    PageFileState { slots: pf.slots.update(s, true), hint: s + 1, ..pf }
}

/// The state after slot `s` has been given back.
pub open spec fn give_slot(pf: PageFileState, s: int) -> PageFileState {
    PageFileState {
        slots: pf.slots.update(s, false),
        hint: if pf.hint <= s {
            pf.hint
        } else {
            s
        },
        ..pf
    }
}

/// Record `r` is dropped with the address space `cr3`, or, when not everything goes,
/// because its page overlaps the range `[base, end)`.
pub open spec fn doomed(r: (u64, u64, u32), cr3: u64, all: bool, base: int, end: int) -> bool {
    r.0 == cr3 && (all || (base < end && base < r.1 + 4096 && r.1 < end))
}

/// The records that stay.
pub open spec fn surviving(
    records: Seq<(u64, u64, u32)>,
    cr3: u64,
    all: bool,
    base: int,
    end: int,
) -> Seq<(u64, u64, u32)>
    decreases records.len(),
{
    if records.len() == 0 {
        records
    } else {
        let rest = surviving(records.drop_last(), cr3, all, base, end);
        if doomed(records.last(), cr3, all, base, end) {
            rest
        } else {
            rest.push(records.last())
        }
    }
}

/// The state after the slots of the doomed among `records` have been given back.
pub open spec fn give_back(
    pf: PageFileState,
    records: Seq<(u64, u64, u32)>,
    cr3: u64,
    all: bool,
    base: int,
    end: int,
) -> PageFileState
    decreases records.len(),
{
    if records.len() == 0 {
        pf
    } else {
        let rest = give_back(pf, records.drop_last(), cr3, all, base, end);
        if doomed(records.last(), cr3, all, base, end) {
            give_slot(rest, records.last().2 as int)
        } else {
            rest
        }
    }
}

/// The working set without the pages of `cr3`.
pub open spec fn other_pages(registry: Seq<(u64, u64)>, cr3: u64) -> Seq<(u64, u64)>
    decreases registry.len(),
{
    if registry.len() == 0 {
        registry
    } else {
        let rest = other_pages(registry.drop_last(), cr3);
        if registry.last().0 == cr3 {
            rest
        } else {
            rest.push(registry.last())
        }
    }
}

/// The state after dropping an address space (or a range of it).
pub open spec fn dropped(
    pf: PageFileState,
    cr3: u64,
    all: bool,
    base: int,
    end: int,
) -> PageFileState {
    PageFileState {
        records: surviving(pf.records, cr3, all, base, end),
        registry: if all {
            other_pages(pf.registry, cr3)
        } else {
            pf.registry
        },
        ..give_back(pf, pf.records, cr3, all, base, end)
    }
}

/// The index of the first record of `(cr3, va)`.
pub open spec fn record_of(records: Seq<(u64, u64, u32)>, cr3: u64, va: u64, i: int) -> Option<int>
    decreases records.len() - i,
{
    if i < 0 || i >= records.len() {
        None
    } else if records[i].0 == cr3 && records[i].1 == va {
        Some(i)
    } else {
        record_of(records, cr3, va, i + 1)
    }
}

proof fn lemma_record_of(records: Seq<(u64, u64, u32)>, cr3: u64, va: u64, i: int)
    requires
        0 <= i,
    ensures
        match record_of(records, cr3, va, i) {
            Some(k) => i <= k < records.len() && records[k].0 == cr3 && records[k].1 == va,
            None => forall|k: int|
                i <= k < records.len() ==> !((#[trigger] records[k]).0 == cr3 && records[k].1
                    == va),
        },
    decreases records.len() - i,
{
    if i < records.len() && !(records[i].0 == cr3 && records[i].1 == va) {
        lemma_record_of(records, cr3, va, i + 1);
    }
}

/// Every record that stays was there before, in the same order, and is not
/// doomed.
proof fn lemma_surviving(
    records: Seq<(u64, u64, u32)>,
    cr3: u64,
    all: bool,
    base: int,
    end: int,
)
    ensures
        surviving(records, cr3, all, base, end).len() <= records.len(),
        forall|i: int|
            0 <= i < surviving(records, cr3, all, base, end).len() ==> exists|k: int|
                0 <= k < records.len() && records[k] == #[trigger] surviving(
                    records,
                    cr3,
                    all,
                    base,
                    end,
                )[i] && !doomed(records[k], cr3, all, base, end),
    decreases records.len(),
{
    if records.len() > 0 {
        let init = records.drop_last();
        lemma_surviving(init, cr3, all, base, end);
        let s0 = surviving(init, cr3, all, base, end);
        let s = surviving(records, cr3, all, base, end);
        assert forall|i: int| 0 <= i < s.len() implies exists|k: int|
            0 <= k < records.len() && records[k] == #[trigger] s[i] && !doomed(
                records[k],
                cr3,
                all,
                base,
                end,
            ) by {
            if i < s0.len() {
                assert(s[i] == s0[i]);
                let k = choose|k: int|
                    0 <= k < init.len() && init[k] == s0[i] && !doomed(
                        init[k],
                        cr3,
                        all,
                        base,
                        end,
                    );
                assert(records[k] == s[i]);
            } else {
                assert(records[records.len() - 1] == s[i]);
            }
        }
    }
}

/// Distinct slots stay distinct among surviving records.
proof fn lemma_surviving_distinct(
    records: Seq<(u64, u64, u32)>,
    cr3: u64,
    all: bool,
    base: int,
    end: int,
)
    requires
        forall|i: int, j: int|
            0 <= i < j < records.len() ==> (#[trigger] records[i]).2 != (#[trigger] records[j]).2,
    ensures
        forall|i: int, j: int|
            0 <= i < j < surviving(records, cr3, all, base, end).len() ==> (
            #[trigger] surviving(records, cr3, all, base, end)[i]).2 != (
            #[trigger] surviving(records, cr3, all, base, end)[j]).2,
    decreases records.len(),
{
    if records.len() > 0 {
        let init = records.drop_last();
        let n = records.len() - 1;
        assert forall|i: int, j: int| 0 <= i < j < init.len() implies (#[trigger] init[i]).2 != (
        #[trigger] init[j]).2 by {
            assert(records[i].2 != records[j].2);
        }
        lemma_surviving_distinct(init, cr3, all, base, end);
        lemma_surviving(init, cr3, all, base, end);
        let s0 = surviving(init, cr3, all, base, end);
        let s = surviving(records, cr3, all, base, end);
        assert forall|i: int, j: int| 0 <= i < j < s.len() implies (#[trigger] s[i]).2 != (
        #[trigger] s[j]).2 by {
            if j < s0.len() {
                assert(s0[i].2 != s0[j].2);
            } else {
                let k = choose|k: int|
                    0 <= k < init.len() && init[k] == s0[i] && !doomed(
                        init[k],
                        cr3,
                        all,
                        base,
                        end,
                    );
                assert(records[k].2 != records[n].2);
            }
        }
    }
}

/// Giving back doomed slots: the slot count and everything else stay; a slot
/// stays taken unless a doomed record held it.
proof fn lemma_give_back(
    pf: PageFileState,
    records: Seq<(u64, u64, u32)>,
    cr3: u64,
    all: bool,
    base: int,
    end: int,
)
    requires
        forall|i: int| 0 <= i < records.len() ==> (#[trigger] records[i]).2 < pf.slots.len(),
        0 <= pf.hint,
    ensures
        ({
            let r = give_back(pf, records, cr3, all, base, end);
            &&& r.slots.len() == pf.slots.len()
            &&& r.registry == pf.registry
            &&& r.records == pf.records
            &&& r.base == pf.base
            &&& r.last == pf.last
            &&& 0 <= r.hint <= pf.hint
            &&& forall|s: int|
                0 <= s < pf.slots.len() ==> #[trigger] r.slots[s] == (pf.slots[s] && !(exists|k: int|
                    0 <= k < records.len() && (#[trigger] records[k]).2 == s && doomed(
                        records[k],
                        cr3,
                        all,
                        base,
                        end,
                    )))
        }),
    decreases records.len(),
{
    if records.len() > 0 {
        let init = records.drop_last();
        let n = records.len() - 1;
        assert forall|i: int| 0 <= i < init.len() implies (#[trigger] init[i]).2 < pf.slots.len() by {
            assert(records[i].2 < pf.slots.len());
        }
        lemma_give_back(pf, init, cr3, all, base, end);
        let a = give_back(pf, init, cr3, all, base, end);
        let r = give_back(pf, records, cr3, all, base, end);
        assert(records[n].2 < pf.slots.len());
        assert forall|s: int| 0 <= s < pf.slots.len() implies #[trigger] r.slots[s] == (
        pf.slots[s] && !(exists|k: int|
            0 <= k < records.len() && (#[trigger] records[k]).2 == s && doomed(
                records[k],
                cr3,
                all,
                base,
                end,
            ))) by {
            let was = exists|k: int|
                0 <= k < init.len() && (#[trigger] init[k]).2 == s && doomed(
                    init[k],
                    cr3,
                    all,
                    base,
                    end,
                );
            assert(a.slots[s] == (pf.slots[s] && !was));
            if was {
                let k = choose|k: int|
                    0 <= k < init.len() && (#[trigger] init[k]).2 == s && doomed(
                        init[k],
                        cr3,
                        all,
                        base,
                        end,
                    );
                assert(records[k].2 == s);
            }
            if exists|k: int|
                0 <= k < records.len() && (#[trigger] records[k]).2 == s && doomed(
                    records[k],
                    cr3,
                    all,
                    base,
                    end,
                ) {
                let k = choose|k: int|
                    0 <= k < records.len() && (#[trigger] records[k]).2 == s && doomed(
                        records[k],
                        cr3,
                        all,
                        base,
                        end,
                    );
                if k < n {
                    assert(init[k].2 == s);
                }
            }
        }
    }
}

/// A page whose content must be written to the pagefile before its frame goes.
#[derive(Debug, Clone, Copy, PartialEq, Eq, Structural)]
pub struct PageWrite {
    pub cr3: u64,
    pub va: u64,
    /// The frame to write out.
    pub pa: PhysAddr,
    /// The slot it goes to.
    pub slot: u32,
    /// First sector of that slot.
    pub sector: u64,
}

/// A page whose content must be read back from the pagefile.
#[derive(Debug, Clone, Copy, PartialEq, Eq, Structural)]
pub struct PageRead {
    pub cr3: u64,
    pub va: u64,
    /// The frame to read into.
    pub pa: PhysAddr,
    /// The slot it comes from.
    pub slot: u32,
    /// First sector of that slot.
    pub sector: u64,
}

/// What a page-in needs.
#[derive(Debug, Clone, Copy, PartialEq, Eq, Structural)]
pub enum PageInStep {
    /// The page is not paged out.
    NotPagedOut,
    /// There is no frame to read it into.
    NoFrame,
    /// Read it, then finish.
    Read(PageRead),
}

/// First sector of a slot.
pub open spec fn sector_of(base: u64, slot: u32) -> u64 {
    (base + slot * SECTORS_PER_PAGE) as u64
}

impl PageFile {
    /// Slots and records are consistent.
    pub closed spec fn wf(&self) -> bool {
        &&& self.slots.wf()
        &&& self.slots.bits().len() <= u32::MAX
        &&& self.hint <= self.slots.bits().len()
        &&& self.base + self.slots.bits().len() * SECTORS_PER_PAGE <= u64::MAX
        &&& records_sound(self@)
    }

    /// A pagefile that is not online.
    pub fn new() -> (pf: Self)
        ensures
            pf.wf(),
            pf@ == (PageFileState {
                base: 0,
                slots: Seq::empty(),
                hint: 0,
                registry: Seq::empty(),
                records: Seq::empty(),
                last: None,
            }),
    {
        let pf = PageFile {
            base: 0,
            slots: RtlBitmap::new(Vec::new(), 0),
            hint: 0,
            registry: Vec::new(),
            records: Vec::new(),
            last_slot: None,
        };
        assert(pf@.slots =~= Seq::empty());
        pf
    }

    fn slot_count(&self) -> (n: u32)
        requires
            self.wf(),
        ensures
            n == self@.slots.len(),
    {
        self.slots.len() as u32
    }

    fn base_sector(&self) -> (b: u64)
        ensures
            b == self@.base,
    {
        self.base
    }

    /// Whether a slot is free.
    fn slot_left(&self) -> (r: bool)
        requires
            self.wf(),
        ensures
            r == has_slot(self@),
    {
        let n: u32 = self.slot_count();
        let mut i: u32 = 0;
        while i < n
            invariant
                self.wf(),
                n == self@.slots.len(),
                i <= n,
                forall|s: int| 0 <= s < i ==> #[trigger] self@.slots[s],
            decreases n - i,
        {
            if !self.slots.test_bit(i as usize) {
                assert(!self@.slots[i as int]);
                return true;
            }
            i = i + 1;
        }
        false
    }

    /// Take the first free slot in cyclic order from the hint.
    fn slot_alloc(&mut self) -> (r: Option<u32>)
        requires
            old(self).wf(),
        ensures
            final(self).wf(),
            match r {
                Some(s) => next_slot(old(self)@, s as int) && final(self)@ == take_slot(
                    old(self)@,
                    s as int,
                ) && in_flight(final(self)@, s),
                None => final(self)@ == old(self)@ && forall|s: int|
                    0 <= s < old(self)@.slots.len() ==> #[trigger] old(self)@.slots[s],
            },
    {
        let ghost before = self@;
        let n: u32 = self.slot_count();
        if n == 0 {
            return None;
        }
        let mut i: u32 = 0;
        while i < n
            invariant
                self.wf(),
                self@ == before,
                before == old(self)@,
                n == before.slots.len(),
                i <= n,
                forall|j: int| 0 <= j < i ==> before.slots[#[trigger] at_step(before, j)],
            decreases n - i,
        {
            let s: u32 = ((self.hint as u64 + i as u64) % n as u64) as u32;
            assert(s == at_step(before, i as int));
            if !self.slots.test_bit(s as usize) {
                self.slots.set_bits(s as usize, 1);
                self.hint = s + 1;
                proof {
                    assert(self@.slots =~= before.slots.update(s as int, true));
                    assert(self@ =~= take_slot(before, s as int));
                    assert(next_slot(before, s as int));
                    assert forall|k: int| 0 <= k < before.records.len() implies (
                    #[trigger] before.records[k]).2 != s by {
                        assert(before.slots[before.records[k].2 as int]);
                    }
                }
                return Some(s);
            }
            i = i + 1;
        }
        proof {
            assert forall|s: int| 0 <= s < n implies #[trigger] before.slots[s] by {
                let h = before.hint;
                let j = if s >= h {
                    s - h
                } else {
                    s - h + n
                };
                assert(0 <= j < n);
                assert(at_step(before, j) == s) by {
                    if s < h {
                        assert((h + j) % (n as int) == s) by (nonlinear_arith)
                            requires
                                h + j == s + n,
                                0 <= s < n,
                                n > 0,
                        ;
                    } else {
                        assert((h + j) % (n as int) == s) by (nonlinear_arith)
                            requires
                                h + j == s,
                                0 <= s < n,
                                n > 0,
                        ;
                    }
                }
            }
        }
        None
    }

    /// Give a slot back.
    fn slot_free(&mut self, slot: u32)
        requires
            old(self).wf(),
            in_flight(old(self)@, slot),
        ensures
            final(self).wf(),
            final(self)@ == give_slot(old(self)@, slot as int),
    {
        let ghost before = self@;
        self.slots.clear_bits(slot as usize, 1);
        if self.hint > slot {
            self.hint = slot;
        }
        assert(self@.slots =~= before.slots.update(slot as int, false));
        assert(self@ =~= give_slot(before, slot as int));
    }

    fn drop_records(&mut self, cr3: u64, all: bool, base: u64, end: u64)
        requires
            old(self).wf(),
        ensures
            final(self).wf(),
            final(self)@ == (PageFileState {
                registry: old(self)@.registry,
                ..dropped(old(self)@, cr3, all, base as int, end as int)
            }),
    {
        let ghost before = self@;
        let mut kept: Vec<(u64, u64, u32)> = Vec::new();
        let mut i: usize = 0;
        proof {
            assert(before.records.take(0) =~= Seq::empty());
        }
        while i < self.records.len()
            invariant
                self.slots.wf(),
                self.slots.bits().len() == before.slots.len(),
                before.slots.len() <= u32::MAX,
                self.hint <= before.slots.len(),
                0 <= before.hint,
                self.base == before.base,
                before.base + before.slots.len() * SECTORS_PER_PAGE <= u64::MAX,
                records_sound(before),
                i <= before.records.len(),
                self.records@ == before.records,
                kept@ == surviving(
                    before.records.take(i as int),
                    cr3,
                    all,
                    base as int,
                    end as int,
                ),
                self@ == give_back(
                    before,
                    before.records.take(i as int),
                    cr3,
                    all,
                    base as int,
                    end as int,
                ),
            decreases before.records.len() - i,
        {
            let r = self.records[i];
            proof {
                let t = before.records.take(i + 1);
                assert(t.drop_last() =~= before.records.take(i as int));
                assert(t.last() == r);
                assert(before.records[i as int].2 < before.slots.len());
            }
            let behind: bool = base <= r.1 || base - r.1 < 4096;
            if r.0 == cr3 && (all || (base < end && behind && r.1 < end)) {
                let ghost prev = self@;
                self.slots.clear_bits(r.2 as usize, 1);
                if self.hint > r.2 {
                    self.hint = r.2;
                }
                assert(self@.slots =~= prev.slots.update(r.2 as int, false));
                assert(self@ =~= give_slot(prev, r.2 as int));
            } else {
                kept.push(r);
            }
            i = i + 1;
        }
        self.records = kept;
        proof {
            assert(before.records.take(i as int) =~= before.records);
            assert forall|k: int| 0 <= k < before.records.len() implies (
            #[trigger] before.records[k]).2 < before.slots.len() by {}
            lemma_give_back(before, before.records, cr3, all, base as int, end as int);
            lemma_surviving(before.records, cr3, all, base as int, end as int);
            lemma_surviving_distinct(before.records, cr3, all, base as int, end as int);
            let now = self@;
            assert(now =~= PageFileState {
                registry: before.registry,
                ..dropped(before, cr3, all, base as int, end as int)
            });
            assert forall|a: int| 0 <= a < now.records.len() implies (#[trigger] now.records[a]).2
                < now.slots.len() && now.slots[now.records[a].2 as int] by {
                let k = choose|k: int|
                    0 <= k < before.records.len() && before.records[k] == now.records[a]
                        && !doomed(before.records[k], cr3, all, base as int, end as int);
                let s = now.records[a].2 as int;
                assert(before.records[k].2 == s);
                assert(before.slots[s]);
                if exists|m: int|
                    0 <= m < before.records.len() && (#[trigger] before.records[m]).2 == s && doomed(
                        before.records[m],
                        cr3,
                        all,
                        base as int,
                        end as int,
                    ) {
                    let m = choose|m: int|
                        0 <= m < before.records.len() && (#[trigger] before.records[m]).2 == s
                            && doomed(before.records[m], cr3, all, base as int, end as int);
                    if m < k {
                        assert(before.records[m].2 != before.records[k].2);
                    } else if k < m {
                        assert(before.records[k].2 != before.records[m].2);
                    }
                }
            }
        }
    }
}

/// Bring the pagefile online: `slots` pages from sector `base` on. Records of an
/// earlier geometry must be gone.
pub fn init(pf: &mut PageFile, base: u64, slots: u32)
    requires
        old(pf).wf(),
        old(pf)@.records.len() == 0,
        base + slots * SECTORS_PER_PAGE <= u64::MAX,
        old(pf)@.hint <= slots,
    ensures
        final(pf).wf(),
        final(pf)@ == (PageFileState {
            base,
            slots: Seq::new(slots as nat, |i: int| false),
            ..old(pf)@
        }),
{
    let ghost before = pf@;
    let n: usize = slots as usize;
    let words: usize = if n % 64 == 0 {
        n / 64
    } else {
        n / 64 + 1
    };
    pf.base = base;
    let mut map = RtlBitmap::new(vec![0u64; words], n);
    map.clear_bits(0, n);
    pf.slots = map;
    assert(pf@.slots =~= Seq::new(slots as nat, |i: int| false));
    assert(pf@ =~= PageFileState {
        base,
        slots: Seq::new(slots as nat, |i: int| false),
        ..before
    });
}

/// Whether the pagefile is online.
pub fn online(pf: &PageFile) -> (r: bool)
    requires
        pf.wf(),
    ensures
        r == (pf@.slots.len() != 0),
{
    pf.slot_count() != 0
}

/// The slot the last eviction wrote.
pub fn last_evicted_slot(pf: &PageFile) -> (r: Option<u32>)
    ensures
        r == pf@.last,
{
    pf.last_slot
}

/// Number of paged-out pages.
pub fn paged_out_count(pf: &PageFile) -> (n: usize)
    ensures
        n == pf@.records.len(),
{
    pf.records.len()
}

/// A slot of the pagefile is free.
pub open spec fn has_slot(pf: PageFileState) -> bool {
    exists|s: int| 0 <= s < pf.slots.len() && !#[trigger] pf.slots[s]
}

/// The state after `(cr3, va)` has been queued, and the page that must be
/// evicted to make room, if the working set was full. Without a free slot no page
/// can be evicted, and none leaves the working set.
pub open spec fn registered(pf: PageFileState, cr3: u64, va: u64) -> (
    PageFileState,
    Option<(u64, u64)>,
) {
    if pf.registry.len() < REG_CAP || !has_slot(pf) {
        (PageFileState { registry: pf.registry.push((cr3, va)), ..pf }, None)
    } else {
        (
            PageFileState { registry: pf.registry.remove(0).push((cr3, va)), ..pf },
            Some(pf.registry[0]),
        )
    }
}

/// Record a demand-committed page on the working set. When the set is full the
/// oldest page leaves it and is returned: the caller evicts it. It stays while no
/// slot of the pagefile is free.
pub fn register_page(pf: &mut PageFile, cr3: u64, va: u64) -> (victim: Option<(u64, u64)>)
    requires
        old(pf).wf(),
    ensures
        final(pf).wf(),
        (final(pf)@, victim) == registered(old(pf)@, cr3, va),
{
    let ghost before = pf@;
    if pf.registry.len() < REG_CAP || !pf.slot_left() {
        pf.registry.push((cr3, va));
        assert(pf@ =~= registered(before, cr3, va).0);
        return None;
    }
    let victim: (u64, u64) = pf.registry.remove(0);
    pf.registry.push((cr3, va));
    assert(pf@ =~= registered(before, cr3, va).0);
    Some(victim)
}

/// Drop all records and working-set entries of a dying address space.
pub fn drop_process(pf: &mut PageFile, cr3: u64)
    requires
        old(pf).wf(),
    ensures
        final(pf).wf(),
        final(pf)@ == dropped(old(pf)@, cr3, true, 0, 0),
{
    let ghost before = pf@;
    pf.drop_records(cr3, true, 0, 0);
    let ghost mid = pf@;
    let mut kept: Vec<(u64, u64)> = Vec::new();
    let mut i: usize = 0;
    assert(mid.registry.take(0) =~= Seq::empty());
    while i < pf.registry.len()
        invariant
            pf.wf(),
            pf@ == mid,
            i <= mid.registry.len(),
            kept@ == other_pages(mid.registry.take(i as int), cr3),
        decreases mid.registry.len() - i,
    {
        let r: (u64, u64) = pf.registry[i];
        proof {
            let t = mid.registry.take(i + 1);
            assert(t.drop_last() =~= mid.registry.take(i as int));
            assert(t.last() == r);
        }
        if r.0 != cr3 {
            kept.push(r);
        }
        i = i + 1;
    }
    assert(mid.registry.take(i as int) =~= mid.registry);
    pf.registry = kept;
    assert(pf@.records == mid.records && pf@.slots == mid.slots);
    assert(pf@ =~= dropped(before, cr3, true, 0, 0));
}

/// Drop the records of `cr3` whose pages overlap `[base, base + len)`: their slots are
/// given back and their content is discarded.
pub fn drop_range(pf: &mut PageFile, cr3: u64, base: u64, len: u64)
    requires
        old(pf).wf(),
    ensures
        final(pf).wf(),
        final(pf)@ == dropped(
            old(pf)@,
            cr3,
            false,
            base as int,
            if base + len <= u64::MAX {
                base + len
            } else {
                u64::MAX as int
            },
        ),
{
    let ghost before = pf@;
    let end: u64 = base.saturating_add(len);
    pf.drop_records(cr3, false, base, end);
    assert(pf@ =~= dropped(before, cr3, false, base as int, end as int));
}

/// If `(cr3, va)` is paged out, take its record off the list; the caller owns
/// the slot from then on.
pub fn paged_out_take(pf: &mut PageFile, cr3: u64, va: u64) -> (r: Option<u32>)
    requires
        old(pf).wf(),
    ensures
        final(pf).wf(),
        match record_of(old(pf)@.records, cr3, va, 0) {
            Some(k) => {
                &&& r == Some(old(pf)@.records[k].2)
                &&& final(pf)@ == PageFileState {
                    records: old(pf)@.records.remove(k),
                    ..old(pf)@
                }
                &&& in_flight(final(pf)@, r->0)
            },
            None => r is None && final(pf)@ == old(pf)@,
        },
{
    let ghost before = pf@;
    let mut i: usize = 0;
    while i < pf.records.len()
        invariant
            pf.wf(),
            pf@ == before,
            before == old(pf)@,
            i <= before.records.len(),
            record_of(before.records, cr3, va, 0) == record_of(before.records, cr3, va, i as int),
        decreases before.records.len() - i,
    {
        let r = pf.records[i];
        if r.0 == cr3 && r.1 == va {
            let taken: (u64, u64, u32) = pf.records.remove(i);
            proof {
                let now = pf@;
                assert(now.records =~= before.records.remove(i as int));
                assert forall|a: int| 0 <= a < now.records.len() implies (
                #[trigger] now.records[a]).2 < now.slots.len() && now.slots[now.records[a].2 as int]
                    && now.records[a].2 != taken.2 by {
                    let k = if a < i {
                        a
                    } else {
                        a + 1
                    };
                    assert(now.records[a] == before.records[k]);
                    if k < i {
                        assert(before.records[k].2 != before.records[i as int].2);
                    } else {
                        assert(before.records[i as int].2 != before.records[k].2);
                    }
                }
                assert forall|a: int, b: int| 0 <= a < b < now.records.len() implies (
                #[trigger] now.records[a]).2 != (#[trigger] now.records[b]).2 by {
                    let ka = if a < i {
                        a
                    } else {
                        a + 1
                    };
                    let kb = if b < i {
                        b
                    } else {
                        b + 1
                    };
                    assert(before.records[ka].2 != before.records[kb].2);
                }
                assert(before.records[i as int].2 < before.slots.len());
            }
            return Some(taken.2);
        }
        i = i + 1;
    }
    None
}

/// An eviction can begin: the page is backed (its frame is given) and a slot is
/// free.
pub open spec fn evictable(pf: PageFileState, ram: Seq<u8>, cr3: u64, va: u64) -> Option<u64> {
    match backed_leaf(ram, cr3, va) {
        Some(e) => if has_slot(pf) {
            Some(e & ADDR_MASK)
        } else {
            None
        },
        None => None,
    }
}

/// Begin evicting `(cr3, va)`: take a slot for it. `None` (and no change) when
/// the page is not backed any more or the pagefile is full.
pub fn evict_begin(pf: &mut PageFile, phys: &PhysicalMemory, cr3: u64, va: u64) -> (r: Option<
    PageWrite,
>)
    requires
        old(pf).wf(),
    ensures
        final(pf).wf(),
        match r {
            Some(w) => {
                &&& evictable(old(pf)@, phys@.ram, cr3, va) == Some(w.pa.0)
                &&& w.cr3 == cr3
                &&& w.va == va
                &&& next_slot(old(pf)@, w.slot as int)
                &&& final(pf)@ == take_slot(old(pf)@, w.slot as int)
                &&& in_flight(final(pf)@, w.slot)
                &&& w.sector == sector_of(old(pf)@.base, w.slot)
            },
            None => evictable(old(pf)@, phys@.ram, cr3, va) is None && final(pf)@ == old(pf)@,
        },
{
    let e: u64 = match mm_debug_pte_in(phys, PhysAddr(cr3), va) {
        Some(e) => e,
        None => {
            return None;
        },
    };
    if e & ENTRY_PRESENT == 0 {
        return None;
    }
    let base: u64 = pf.base_sector();
    match pf.slot_alloc() {
        Some(slot) => {
            let ghost n = old(pf)@.slots.len();
            assert(!old(pf)@.slots[slot as int]);
            assert(slot * SECTORS_PER_PAGE <= n * SECTORS_PER_PAGE) by (nonlinear_arith)
                requires
                    slot < n,
            ;
            Some(
                PageWrite {
                    cr3,
                    va,
                    pa: PhysAddr(e & ADDR_MASK),
                    slot,
                    sector: base + slot as u64 * SECTORS_PER_PAGE,
                },
            )
        },
        None => None,
    }
}

/// The outcome of finishing an eviction.
pub open spec fn evict_finished(
    pf: PageFileState,
    st: PhysState,
    w: PageWrite,
    wrote: bool,
) -> (PageFileState, PhysState, int) {
    let leaf = backed_leaf(st.ram, w.cr3, w.va);
    let s1 = PhysState { ram: unmapped(st.ram, w.cr3, w.va), ..st };
    if !wrote {
        (give_slot(pf, w.slot as int), st, 0)
    } else if leaf is None || leaf->0 & ADDR_MASK != w.pa.0 {
        (give_slot(pf, w.slot as int), s1, 0)
    } else if pf.records.len() >= MAP_CAP {
        (give_slot(pf, w.slot as int), st, 0)
    } else {
        (
            PageFileState {
                records: pf.records.push((w.cr3, w.va, w.slot)),
                last: Some(w.slot),
                ..pf
            },
            free_page(s1, w.pa.0),
            1,
        )
    }
}

/// Finish an eviction after the page was written (or not). On success the page
/// is unmapped, recorded and its frame freed, and 1 is returned; 0 when the
/// write failed, the mapping changed meanwhile, or the records are full. A page
/// that cannot be recorded stays mapped as it is. The frame must still be in use.
pub fn evict_finish(pf: &mut PageFile, phys: &mut PhysicalMemory, w: PageWrite, wrote: bool) -> (n:
    u32)
    requires
        old(pf).wf(),
        old(phys).wf(),
        in_flight(old(pf)@, w.slot),
        w.pa.0 >= 4096,
        w.pa.0 as int / 4096 < old(phys)@.bits.len(),
        old(phys)@.bits[w.pa.0 as int / 4096],
    ensures
        final(pf).wf(),
        final(phys).wf(),
        (final(pf)@, final(phys)@, n as int) == evict_finished(old(pf)@, old(phys)@, w, wrote),
{
    if !wrote {
        pf.slot_free(w.slot);
        return 0;
    }
    if pf.records.len() >= MAP_CAP {
        if let Some(e) = mm_debug_pte_in(phys, PhysAddr(w.cr3), w.va) {
            if e & ENTRY_PRESENT != 0 && e & ADDR_MASK == w.pa.0 {
                pf.slot_free(w.slot);
                return 0;
            }
        }
    }
    let same: bool = match mm_unmap_user_page_in(phys, PhysAddr(w.cr3), w.va) {
        Some(pa) => pa.0 == w.pa.0,
        None => false,
    };
    if !same {
        pf.slot_free(w.slot);
        return 0;
    }
    let ghost before = pf@;
    pf.records.push((w.cr3, w.va, w.slot));
    pf.last_slot = Some(w.slot);
    proof {
        let now = pf@;
        assert(now.records =~= before.records.push((w.cr3, w.va, w.slot)));
        assert(records_sound(now));
    }
    mm_free_page(phys, w.pa);
    1
}

/// Finish the eviction of a page that came off the working set: as [`evict_finish`],
/// and a page that stays resident goes back to the front of the working set.
pub fn evict_settle(pf: &mut PageFile, phys: &mut PhysicalMemory, w: PageWrite, wrote: bool) -> (n:
    u32)
    requires
        old(pf).wf(),
        old(phys).wf(),
        in_flight(old(pf)@, w.slot),
        w.pa.0 >= 4096,
        w.pa.0 as int / 4096 < old(phys)@.bits.len(),
        old(phys)@.bits[w.pa.0 as int / 4096],
    ensures
        final(pf).wf(),
        final(phys).wf(),
        ({
            let (p1, st, count) = evict_finished(old(pf)@, old(phys)@, w, wrote);
            &&& n == count
            &&& final(phys)@ == st
            &&& final(pf)@ == if backed_leaf(st.ram, w.cr3, w.va) is Some {
                PageFileState { registry: seq![(w.cr3, w.va)] + p1.registry, ..p1 }
            } else {
                p1
            }
        }),
{
    let n: u32 = evict_finish(pf, phys, w, wrote);
    if resident(phys, w.cr3, w.va) {
        let ghost mid = pf@;
        pf.registry.insert(0, (w.cr3, w.va));
        assert(pf@ =~= PageFileState { registry: seq![(w.cr3, w.va)] + mid.registry, ..mid });
    }
    n
}

/// Whether a page is backed.
fn resident(phys: &PhysicalMemory, cr3: u64, va: u64) -> (r: bool)
    ensures
        r == (backed_leaf(phys@.ram, cr3, va) is Some),
{
    match mm_debug_pte_in(phys, PhysAddr(cr3), va) {
        Some(e) => e & ENTRY_PRESENT != 0,
        None => false,
    }
}

/// The place of the oldest page of the working set that is still backed, from `i` on;
/// the end of it when there is none.
pub open spec fn first_resident(registry: Seq<(u64, u64)>, ram: Seq<u8>, i: int) -> int
    decreases registry.len() - i,
{
    if i < 0 || i >= registry.len() {
        registry.len() as int
    } else if backed_leaf(ram, registry[i].0, registry[i].1) is Some {
        i
    } else {
        first_resident(registry, ram, i + 1)
    }
}

/// The next page to write out when `n` more frames are wanted: stale entries at
/// the front of the working set are dropped. `None` when no more are wanted, the
/// working set has run out, or no slot is free; the pages that are still backed stay
/// on the working set then.
pub fn evict_some(pf: &mut PageFile, phys: &PhysicalMemory, n: usize) -> (r: Option<PageWrite>)
    requires
        old(pf).wf(),
    ensures
        final(pf).wf(),
        n == 0 ==> r is None && final(pf)@ == old(pf)@,
        n > 0 ==> ({
            let k = first_resident(old(pf)@.registry, phys@.ram, 0);
            match r {
                Some(w) => {
                    &&& 0 <= k < old(pf)@.registry.len()
                    &&& old(pf)@.registry[k] == (w.cr3, w.va)
                    &&& evictable(old(pf)@, phys@.ram, w.cr3, w.va) == Some(w.pa.0)
                    &&& next_slot(old(pf)@, w.slot as int)
                    &&& w.sector == sector_of(old(pf)@.base, w.slot)
                    &&& in_flight(final(pf)@, w.slot)
                    &&& final(pf)@ == PageFileState {
                        registry: old(pf)@.registry.skip(k + 1),
                        ..take_slot(old(pf)@, w.slot as int)
                    }
                },
                None => {
                    &&& k == old(pf)@.registry.len() || !has_slot(old(pf)@)
                    &&& final(pf)@ == PageFileState {
                        registry: old(pf)@.registry.skip(k),
                        ..old(pf)@
                    }
                },
            }
        }),
{
    if n == 0 {
        return None;
    }
    let ghost before = pf@;
    let ghost mut k: int = 0;
    assert(before.registry.skip(0) =~= before.registry);
    while pf.registry.len() > 0
        invariant
            pf.wf(),
            before == old(pf)@,
            0 <= k <= before.registry.len(),
            pf@ == (PageFileState { registry: before.registry.skip(k), ..before }),
            n > 0,
            first_resident(before.registry, phys@.ram, 0) == first_resident(
                before.registry,
                phys@.ram,
                k,
            ),
        decreases before.registry.len() - k,
    {
        let ghost prev = pf@;
        assert(records_sound(prev));
        let v: (u64, u64) = pf.registry[0];
        assert(v == before.registry[k]);
        let backed: bool = resident(phys, v.0, v.1);
        if backed && !pf.slot_left() {
            assert(prev.slots == before.slots);
            assert(!has_slot(before));
            assert(first_resident(before.registry, phys@.ram, k) == k);
            return None;
        }
        let _first: (u64, u64) = pf.registry.remove(0);
        proof {
            assert(pf@.registry =~= before.registry.skip(k + 1));
            assert(pf@.records == prev.records && pf@.slots == prev.slots);
            assert(records_sound(pf@));
        }
        if backed {
            let ghost mid = pf@;
            match evict_begin(pf, phys, v.0, v.1) {
                Some(w) => {
                    proof {
                        let i = choose|i: int|
                            #![trigger at_step(mid, i)]
                            0 <= i < mid.slots.len() && w.slot == at_step(mid, i) && forall|j: int|
                                0 <= j < i ==> mid.slots[#[trigger] at_step(mid, j)];
                        assert(at_step(before, i) == at_step(mid, i));
                        assert forall|j: int| 0 <= j < i implies before.slots[#[trigger] at_step(
                            before,
                            j,
                        )] by {
                            assert(at_step(mid, j) == at_step(before, j));
                        }
                        assert(next_slot(before, w.slot as int));
                        assert(pf@ =~= PageFileState {
                            registry: before.registry.skip(k + 1),
                            ..take_slot(before, w.slot as int)
                        });
                    }
                    return Some(w);
                },
                None => {
                    assert(false);
                },
            }
        }
        proof {
            k = k + 1;
        }
    }
    assert(before.registry.skip(before.registry.len() as int) =~= Seq::empty());
    None
}

/// Begin one eviction of a given page.
pub fn evict_for_test(pf: &mut PageFile, phys: &PhysicalMemory, cr3: u64, va: u64) -> (r: Option<
    PageWrite,
>)
    requires
        old(pf).wf(),
    ensures
        final(pf).wf(),
        match r {
            Some(w) => {
                &&& evictable(old(pf)@, phys@.ram, cr3, va) == Some(w.pa.0)
                &&& w.cr3 == cr3
                &&& w.va == va
                &&& next_slot(old(pf)@, w.slot as int)
                &&& final(pf)@ == take_slot(old(pf)@, w.slot as int)
                &&& in_flight(final(pf)@, w.slot)
                &&& w.sector == sector_of(old(pf)@.base, w.slot)
            },
            None => evictable(old(pf)@, phys@.ram, cr3, va) is None && final(pf)@ == old(pf)@,
        },
{
    evict_begin(pf, phys, cr3, va)
}

/// Begin paging `(cr3, va)` back in: take its record and a frame.
pub fn page_in(pf: &mut PageFile, phys: &mut PhysicalMemory, cr3: u64, va: u64) -> (r: PageInStep)
    requires
        old(pf).wf(),
        old(phys).wf(),
    ensures
        final(pf).wf(),
        final(phys).wf(),
        match record_of(old(pf)@.records, cr3, va, 0) {
            None => r is NotPagedOut && final(pf)@ == old(pf)@ && final(phys)@ == old(phys)@,
            Some(k) => {
                let rec = old(pf)@.records[k];
                let (s1, pa) = alloc_page(old(phys)@);
                let without = PageFileState { records: old(pf)@.records.remove(k), ..old(pf)@ };
                match pa {
                    None => {
                        &&& r is NoFrame
                        &&& final(phys)@ == old(phys)@
                        &&& final(pf)@ == PageFileState {
                            records: without.records.push((cr3, va, rec.2)),
                            ..without
                        }
                    },
                    Some(pa) => {
                        &&& final(phys)@ == s1
                        &&& final(pf)@ == without
                        &&& in_flight(without, rec.2)
                        &&& r == PageInStep::Read(
                            PageRead {
                                cr3,
                                va,
                                pa: PhysAddr(pa),
                                slot: rec.2,
                                sector: sector_of(old(pf)@.base, rec.2),
                            },
                        )
                    },
                }
            },
        },
{
    let slot: u32 = match paged_out_take(pf, cr3, va) {
        Some(s) => s,
        None => {
            return PageInStep::NotPagedOut;
        },
    };
    match mm_allocate_page(phys) {
        None => {
            let ghost mid = pf@;
            pf.records.push((cr3, va, slot));
            assert(pf@.records =~= mid.records.push((cr3, va, slot)));
            PageInStep::NoFrame
        },
        Some(pa) => {
            let base: u64 = pf.base_sector();
            let ghost n = pf@.slots.len();
            assert(slot * SECTORS_PER_PAGE <= n * SECTORS_PER_PAGE) by (nonlinear_arith)
                requires
                    slot < n,
            ;
            PageInStep::Read(
                PageRead { cr3, va, pa, slot, sector: base + slot as u64 * SECTORS_PER_PAGE },
            )
        },
    }
}

/// The outcome of finishing a page-in: pagefile, memory, whether the page is
/// there now, and the page that must be evicted for it, if any.
pub open spec fn page_in_finished(
    pf: PageFileState,
    st: PhysState,
    r: PageRead,
    ok: bool,
    writable: bool,
    executable: bool,
) -> (PageFileState, PhysState, bool, Option<(u64, u64)>) {
    let (s1, mapped) = map_page(st, r.cr3, r.va, r.pa.0, writable, executable);
    let back = PageFileState { records: pf.records.push((r.cr3, r.va, r.slot)), ..pf };
    if !ok {
        (back, free_page(st, r.pa.0), false, None)
    } else if !mapped {
        (back, release(s1, r.pa.0), false, None)
    } else {
        let (p2, victim) = registered(give_slot(pf, r.slot as int), r.cr3, r.va);
        (p2, s1, true, victim)
    }
}

/// Finish a page-in after the page was read (or not). On success the slot is
/// given back, the page mapped with the given protection and queued; when the
/// read failed or no table could be allocated, the record goes back on the list and
/// the frame is freed.
pub fn page_in_finish(
    pf: &mut PageFile,
    phys: &mut PhysicalMemory,
    r: PageRead,
    ok: bool,
    writable: bool,
    executable: bool,
) -> (out: (bool, Option<(u64, u64)>))
    requires
        old(pf).wf(),
        old(phys).wf(),
        in_flight(old(pf)@, r.slot),
        r.pa.0 >= 4096,
        r.pa.0 as int / 4096 < old(phys)@.bits.len(),
        old(phys)@.bits[r.pa.0 as int / 4096],
    ensures
        final(pf).wf(),
        final(phys).wf(),
        (final(pf)@, final(phys)@, out.0, out.1) == page_in_finished(
            old(pf)@,
            old(phys)@,
            r,
            ok,
            writable,
            executable,
        ),
{
    let ghost before = pf@;
    if !ok {
        pf.records.push((r.cr3, r.va, r.slot));
        assert(pf@.records =~= before.records.push((r.cr3, r.va, r.slot)));
        mm_free_page(phys, r.pa);
        return (false, None);
    }
    if !map_user_page(phys, r.cr3, r.va, r.pa.0, writable, executable) {
        pf.records.push((r.cr3, r.va, r.slot));
        assert(pf@.records =~= before.records.push((r.cr3, r.va, r.slot)));
        release_frame(phys, r.pa);
        return (false, None);
    }
    pf.slot_free(r.slot);
    let victim = register_page(pf, r.cr3, r.va);
    (true, victim)
}

/// An evicted page is found again where it was written: the record made by a
/// successful eviction gives back its slot.
pub proof fn evicted_page_is_found(pf: PageFileState, st: PhysState, w: PageWrite)
    requires
        record_of(pf.records, w.cr3, w.va, 0) is None,
        evict_finished(pf, st, w, true).2 == 1,
    ensures
        ({
            let after = evict_finished(pf, st, w, true).0;
            let k = record_of(after.records, w.cr3, w.va, 0);
            k is Some && after.records[k->0].2 == w.slot
        }),
{
    let after = evict_finished(pf, st, w, true).0;
    lemma_record_of(pf.records, w.cr3, w.va, 0);
    lemma_record_of(after.records, w.cr3, w.va, 0);
    assert(after.records[pf.records.len() as int] == (w.cr3, w.va, w.slot));
    let k = record_of(after.records, w.cr3, w.va, 0)->0;
    if k < pf.records.len() {
        assert(after.records[k] == pf.records[k]);
    }
}

/// A page is evicted or stays: when the frame that was written is still the page's and
/// the eviction does not count, memory is as it was, and so is the list of records.
pub proof fn a_refused_eviction_keeps_the_page(
    pf: PageFileState,
    st: PhysState,
    w: PageWrite,
    wrote: bool,
)
    requires
        backed_leaf(st.ram, w.cr3, w.va) matches Some(e) && e & ADDR_MASK == w.pa.0,
        evict_finished(pf, st, w, wrote).2 == 0,
    ensures
        evict_finished(pf, st, w, wrote).1 == st,
        evict_finished(pf, st, w, wrote).0.records == pf.records,
{
}

/// A dropped address space leaves nothing behind.
pub proof fn dropped_process_is_gone(pf: PageFileState, cr3: u64)
    ensures
        forall|i: int|
            0 <= i < dropped(pf, cr3, true, 0, 0).records.len() ==> (
            #[trigger] dropped(pf, cr3, true, 0, 0).records[i]).0 != cr3,
{
    lemma_surviving(pf.records, cr3, true, 0, 0);
    let s = surviving(pf.records, cr3, true, 0, 0);
    assert forall|i: int| 0 <= i < s.len() implies (#[trigger] s[i]).0 != cr3 by {
        let k = choose|k: int|
            0 <= k < pf.records.len() && pf.records[k] == s[i] && !doomed(
                pf.records[k],
                cr3,
                true,
                0,
                0,
            );
    }
}

/// A slot of the page file is eight sectors: no two slots share one.
pub proof fn a_slot_is_eight_sectors(base: u64, a: u32, b: u32)
    requires
        base + 8 * a + 8 <= u64::MAX,
        base + 8 * b + 8 <= u64::MAX,
        a < b,
    ensures
        sector_of(base, 0) == base,
        sector_of(base, a) == base + 8 * a,
        sector_of(base, a) + 8 <= sector_of(base, b),
{
}

/// A slot that is taken is in use, the next search starts behind it, and no other slot
/// changes; one that is given back is free again, and the search starts there at the latest.
pub proof fn slots_are_taken_and_given_back(pf: PageFileState, s: int, k: int)
    requires
        0 <= s < pf.slots.len(),
        0 <= k < pf.slots.len(),
    ensures
        take_slot(pf, s).slots[k] == (pf.slots[k] || k == s),
        take_slot(pf, s).hint == s + 1,
        give_slot(pf, s).slots[k] == (pf.slots[k] && k != s),
        give_slot(pf, s).hint <= s,
        give_slot(pf, s).hint <= pf.hint,
        give_slot(pf, s).hint == s || give_slot(pf, s).hint == pf.hint,
{
}

/// A record goes with its process, or with the range that its page reaches into; every other
/// record stays.
pub proof fn a_record_goes_with_its_range(
    records: Seq<(u64, u64, u32)>,
    cr3: u64,
    all: bool,
    base: int,
    end: int,
    k: int,
)
    requires
        0 <= k < records.len(),
        base < end || all,
    ensures
        records[k].0 != cr3 || (!all && (records[k].1 + 4096 <= base || end <= records[k].1))
            ==> surviving(records, cr3, all, base, end).contains(records[k]),
        records[k].0 == cr3 && (all || (records[k].1 < end && base < records[k].1 + 4096))
            ==> doomed(records[k], cr3, all, base, end),
    decreases records.len(),
{
    let rest = surviving(records.drop_last(), cr3, all, base, end);
    let now = surviving(records, cr3, all, base, end);
    if records[k].0 != cr3 || (!all && (records[k].1 + 4096 <= base || end <= records[k].1)) {
        if k < records.len() - 1 {
            a_record_goes_with_its_range(records.drop_last(), cr3, all, base, end, k);
            assert(rest.contains(records[k]));
            let j = choose|j: int| 0 <= j < rest.len() && rest[j] == records[k];
            assert(now[j] == records[k]);
        } else {
            assert(now == rest.push(records.last()));
            assert(now[rest.len() as int] == records[k]);
        }
    }
}

/// Nothing that is doomed survives.
pub proof fn what_is_doomed_does_not_survive(
    records: Seq<(u64, u64, u32)>,
    cr3: u64,
    all: bool,
    base: int,
    end: int,
    r: (u64, u64, u32),
)
    requires
        doomed(r, cr3, all, base, end),
    ensures
        !surviving(records, cr3, all, base, end).contains(r),
    decreases records.len(),
{
    if records.len() > 0 {
        what_is_doomed_does_not_survive(records.drop_last(), cr3, all, base, end, r);
        let rest = surviving(records.drop_last(), cr3, all, base, end);
        let now = surviving(records, cr3, all, base, end);
        if now.contains(r) {
            let j = choose|j: int| 0 <= j < now.len() && now[j] == r;
            if j < rest.len() {
                assert(rest[j] == r);
            }
        }
    }
}

/// The list of resident pages is first in, first out: it grows up to 8192 pages, and from
/// then on the oldest makes room, as long as the page file has a slot for it.
pub proof fn the_oldest_page_makes_room(pf: PageFileState, cr3: u64, va: u64)
    ensures
        ({
            let (p, victim) = registered(pf, cr3, va);
            &&& p.registry.last() == (cr3, va)
            &&& p.records == pf.records
            &&& p.slots == pf.slots
            &&& pf.registry.len() < 8192 ==> victim is None && p.registry == pf.registry.push(
                (cr3, va),
            )
            &&& pf.registry.len() >= 8192 && has_slot(pf) ==> victim == Some(pf.registry[0])
                && p.registry.len() == pf.registry.len()
        }),
{
}

/// The page that is put out first is the oldest one that is there.
pub proof fn the_oldest_resident_page_goes_first(
    registry: Seq<(u64, u64)>,
    ram: Seq<u8>,
    i: int,
    k: int,
)
    requires
        0 <= i <= k <= registry.len(),
        forall|j: int|
            i <= j < k ==> backed_leaf(ram, (#[trigger] registry[j]).0, registry[j].1) is None,
        k < registry.len() ==> backed_leaf(ram, registry[k].0, registry[k].1) is Some,
    ensures
        first_resident(registry, ram, i) == k,
    decreases k - i,
{
    if i < k {
        assert(backed_leaf(ram, registry[i].0, registry[i].1) is None);
        the_oldest_resident_page_goes_first(registry, ram, i + 1, k);
    }
}

/// A page that was written out is unmapped and its frame is free; it is recorded with its slot.
/// A page that could not be written, or that is no longer where it was, is not recorded, and
/// its slot is given back.
pub proof fn a_page_is_out_once_it_is_written(pf: PageFileState, st: PhysState, w: PageWrite)
    ensures
        evict_finished(pf, st, w, false) == (give_slot(pf, w.slot as int), st, 0int),
        backed_leaf(st.ram, w.cr3, w.va) is None ==> evict_finished(pf, st, w, true).2 == 0
            && evict_finished(pf, st, w, true).0 == give_slot(pf, w.slot as int),
        pf.records.len() >= 2048 ==> evict_finished(pf, st, w, true).2 == 0,
        backed_leaf(st.ram, w.cr3, w.va) matches Some(e) && e & ADDR_MASK == w.pa.0
            && pf.records.len() < 2048 ==> {
            let (p, s, n) = evict_finished(pf, st, w, true);
            &&& n == 1
            &&& p.records == pf.records.push((w.cr3, w.va, w.slot))
            &&& p.last == Some(w.slot)
            &&& s.ram == unmapped(st.ram, w.cr3, w.va)
            &&& s == free_page(PhysState { ram: unmapped(st.ram, w.cr3, w.va), ..st }, w.pa.0)
        },
{
}

/// A page that was read back is mapped in its frame and its slot is free; where it could not
/// be read, or mapped, it is out as before.
pub proof fn a_page_is_back_once_it_is_mapped(
    pf: PageFileState,
    st: PhysState,
    r: PageRead,
    writable: bool,
    executable: bool,
)
    ensures
        ({
            let (s1, mapped) = map_page(st, r.cr3, r.va, r.pa.0, writable, executable);
            let (p, s, done, victim) = page_in_finished(pf, st, r, true, writable, executable);
            &&& done == mapped
            &&& mapped ==> s == s1 && p.slots == pf.slots.update(r.slot as int, false) && p.records
                == pf.records && p.registry.last() == (r.cr3, r.va)
            &&& !mapped ==> p.records == pf.records.push((r.cr3, r.va, r.slot)) && victim is None
        }),
        page_in_finished(pf, st, r, false, writable, executable) == (
            PageFileState { records: pf.records.push((r.cr3, r.va, r.slot)), ..pf },
            free_page(st, r.pa.0),
            false,
            None::<(u64, u64)>,
        ),
{
}

/// Only a page that is there can be put out, and only into a slot that is free.
pub proof fn what_is_there_can_be_put_out(pf: PageFileState, ram: Seq<u8>, cr3: u64, va: u64)
    ensures
        backed_leaf(ram, cr3, va) is None ==> evictable(pf, ram, cr3, va) is None,
        (forall|s: int| 0 <= s < pf.slots.len() ==> #[trigger] pf.slots[s]) ==> evictable(
            pf,
            ram,
            cr3,
            va,
        ) is None,
        backed_leaf(ram, cr3, va) is Some && has_slot(pf) ==> evictable(pf, ram, cr3, va) == Some(
            backed_leaf(ram, cr3, va)->0 & 0x000F_FFFF_FFFF_F000,
        ),
{
}

/// When records go, their slots are free again, and no others are.
pub proof fn slots_go_with_their_records(
    pf: PageFileState,
    records: Seq<(u64, u64, u32)>,
    cr3: u64,
    all: bool,
    base: int,
    end: int,
    s: int,
)
    requires
        0 <= s < pf.slots.len(),
        forall|i: int|
            0 <= i < records.len() ==> (#[trigger] records[i]).2 < pf.slots.len(),
    ensures
        give_back(pf, records, cr3, all, base, end).slots.len() == pf.slots.len(),
        give_back(pf, records, cr3, all, base, end).slots[s] == (pf.slots[s] && !exists|i: int|
            0 <= i < records.len() && (#[trigger] records[i]).2 == s && doomed(
                records[i],
                cr3,
                all,
                base,
                end,
            )),
    decreases records.len(),
{
    if records.len() > 0 {
        let init = records.drop_last();
        let n = records.len() - 1;
        assert forall|i: int| 0 <= i < init.len() implies (#[trigger] init[i]).2
            < pf.slots.len() by {
            assert(init[i] == records[i]);
        }
        slots_go_with_their_records(pf, init, cr3, all, base, end, s);
        let was = exists|i: int|
            0 <= i < init.len() && (#[trigger] init[i]).2 == s && doomed(
                init[i],
                cr3,
                all,
                base,
                end,
            );
        let now = exists|i: int|
            0 <= i < records.len() && (#[trigger] records[i]).2 == s && doomed(
                records[i],
                cr3,
                all,
                base,
                end,
            );
        if was {
            let i = choose|i: int|
                0 <= i < init.len() && (#[trigger] init[i]).2 == s && doomed(
                    init[i],
                    cr3,
                    all,
                    base,
                    end,
                );
            assert(records[i] == init[i]);
            assert(now);
        }
        if now {
            let i = choose|i: int|
                0 <= i < records.len() && (#[trigger] records[i]).2 == s && doomed(
                    records[i],
                    cr3,
                    all,
                    base,
                    end,
                );
            if i < n {
                assert(init[i] == records[i]);
                assert(was);
            }
        }
        assert(records[n] == records.last());
    }
}

/// A process that ends leaves the list of resident pages, and the pages of others stay in
/// their order.
pub proof fn resident_pages_go_with_their_process(registry: Seq<(u64, u64)>, cr3: u64, p: (u64, u64))
    ensures
        other_pages(registry.push(p), cr3) == if p.0 == cr3 {
            other_pages(registry, cr3)
        } else {
            other_pages(registry, cr3).push(p)
        },
        other_pages(Seq::empty(), cr3).len() == 0,
{
    assert(registry.push(p).drop_last() =~= registry);
}

/// The search for a slot starts at the hint, goes up, and starts over at the end: no slot that
/// is passed over on the way was free.
pub proof fn the_first_free_slot_from_the_hint_is_taken(pf: PageFileState, s: int, k: int)
    requires
        next_slot(pf, s),
        0 <= pf.hint < pf.slots.len(),
        0 <= k < pf.slots.len(),
        !pf.slots[k],
    ensures
        !pf.slots[s],
        k >= pf.hint ==> pf.hint <= s <= k,
        s < pf.hint ==> k < pf.hint && s <= k,
{
    let n = pf.slots.len() as int;
    let i = choose|i: int|
        #![trigger at_step(pf, i)]
        0 <= i < n && s == at_step(pf, i) && forall|j: int|
            0 <= j < i ==> pf.slots[#[trigger] at_step(pf, j)];
    let j = if k >= pf.hint {
        k - pf.hint
    } else {
        k - pf.hint + n
    };
    lemma_around(pf.hint + j, n);
    lemma_around(pf.hint + i, n);
    assert(at_step(pf, j) == k);
    if j < i {
        assert(pf.slots[at_step(pf, j)]);
    }
}

proof fn lemma_around(x: int, n: int)
    requires
        0 < n,
        0 <= x < 2 * n,
    ensures
        x % n == if x < n {
            x
        } else {
            x - n
        },
{
    if x < n {
        vstd::arithmetic::div_mod::lemma_small_mod(x as nat, n as nat);
    } else {
        vstd::arithmetic::div_mod::lemma_fundamental_div_mod_converse_mod(x, n, 1, x - n);
    }
}

} // verus!
