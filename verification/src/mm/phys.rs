//! Physical page allocator: the PFN database, bitmap edition.
//!
//! One bit per frame, set when the frame is in use. The bitmap's own storage
//! is carved out of the start of the largest usable region of the boot memory
//! map and reserved in the map it backs; frame 0 is never handed out.
use crate::bytes::{overlay, put_bytes};
use crate::mm::{PhysAddr, PAGE_SIZE};
use crate::rtl::bitmap::{
    clear_range_bounds_count, clear_range_subtracts_count, count_true, count_true_bounded,
    count_true_full, no_run, picks, run_at, set_range_adds_count, with_range, RtlBitmap,
};
use vstd::prelude::*;

verus! {

/// One entry of the boot memory map.
#[derive(Debug, Clone, Copy, PartialEq, Eq, Structural)]
pub struct MemoryRegion {
    pub start: u64,
    pub end: u64,
    /// RAM the kernel may use.
    pub usable: bool,
}

impl MemoryRegion {
    /// First frame of the region.
    pub open spec fn first(self) -> int {
        self.start as int / 4096
    }

    /// Whole pages in the region.
    pub open spec fn count(self) -> int {
        (self.end - self.start) / 4096
    }

    /// Frame `f` belongs to this usable region.
    pub open spec fn covers(self, f: int) -> bool {
        self.usable && self.first() <= f < self.first() + self.count()
    }
}

/// One past the highest usable frame.
pub open spec fn max_pfn(regions: Seq<MemoryRegion>) -> int
    decreases regions.len(),
{
    if regions.len() == 0 {
        0
    } else {
        let r = regions.last();
        let rest = max_pfn(regions.drop_last());
        if r.usable && r.end as int / 4096 > rest {
            r.end as int / 4096
        } else {
            rest
        }
    }
}

/// Pages in all usable regions.
pub open spec fn usable_pages(regions: Seq<MemoryRegion>) -> int
    decreases regions.len(),
{
    if regions.len() == 0 {
        0
    } else {
        usable_pages(regions.drop_last()) + if regions.last().usable {
            regions.last().count()
        } else {
            0
        }
    }
}

/// Region `h` is the home of the bitmap: the first of the largest usable ones.
pub open spec fn is_home(regions: Seq<MemoryRegion>, h: int) -> bool {
    let size = |i: int| regions[i].end - regions[i].start;
    &&& 0 <= h < regions.len()
    &&& regions[h].usable
    &&& size(h) > 0
    &&& forall|j: int| 0 <= j < h && (#[trigger] regions[j]).usable ==> size(j) < size(h)
    &&& forall|j: int| h < j < regions.len() && (#[trigger] regions[j]).usable ==> size(j) <= size(
        h,
    )
}

/// Bytes carved for a bitmap of `bits` bits, in whole pages.
pub open spec fn carve_bytes(bits: int) -> int {
    (((bits + 63) / 64) * 8 + 4095) / 4096 * 4096
}

/// A boot memory map the allocator can come up on: regions are ordered
/// intervals, some page is usable, the counts fit, and the bitmap fits at the
/// start of its home region.
pub open spec fn boot_map_ok(regions: Seq<MemoryRegion>, ram_len: int) -> bool {
    &&& forall|i: int|
        0 <= i < regions.len() && (#[trigger] regions[i]).usable ==> regions[i].start
            <= regions[i].end <= ram_len
    &&& 0 < max_pfn(regions)
    &&& usable_pages(regions) + max_pfn(regions) <= u64::MAX
    &&& forall|h: int| #[trigger]
        is_home(regions, h) ==> carve_bytes(max_pfn(regions)) <= regions[h].end
            - regions[h].start
}

/// Physical memory together with the map of its frames.
pub struct PhysicalMemory {
    /// Installed memory, from physical address 0 on.
    pub ram: Vec<u8>,
    /// One bit per frame, set when in use.
    pub bitmap: RtlBitmap,
    /// Where the next search starts.
    pub hint: usize,
    /// Pages found at start-up.
    pub total_pages: u64,
    /// Pages counted free.
    pub free_pages: u64,
}

/// `ram` with `[at, at + n)` zero.
pub open spec fn zeroed(ram: Seq<u8>, at: int, n: int) -> Seq<u8> {
    Seq::new(ram.len(), |i: int| if at <= i < at + n { 0u8 } else { ram[i] })
}

/// The abstract state of physical memory.
#[verifier::ext_equal]
pub struct PhysState {
    /// Contents, from physical address 0 on.
    pub ram: Seq<u8>,
    /// Which frames are in use.
    pub bits: Seq<bool>,
    /// Where the next search starts.
    pub hint: int,
    /// Pages found at start-up.
    pub total: int,
    /// Pages counted free.
    pub free: int,
}

impl View for PhysicalMemory {
    type V = PhysState;

    open spec fn view(&self) -> PhysState {
        PhysState {
            ram: self.ram@,
            bits: self.bits(),
            hint: self.hint(),
            total: self.total(),
            free: self.free(),
        }
    }
}

/// No frame in use in `a` is free in `b`, and as much memory is installed.
pub open spec fn keeps_frames(a: PhysState, b: PhysState) -> bool {
    &&& a.ram.len() == b.ram.len()
    &&& a.bits.len() == b.bits.len()
    &&& forall|f: int| 0 <= f < a.bits.len() && a.bits[f] ==> #[trigger] b.bits[f]
}

/// The first clear bit at or after `from`.
pub open spec fn first_clear(bits: Seq<bool>, from: int) -> Option<int>
    decreases bits.len() - from,
{
    if from >= bits.len() || from < 0 {
        None
    } else if !bits[from] {
        Some(from)
    } else {
        first_clear(bits, from + 1)
    }
}

/// The frame a single-page allocation takes: the first free one at or after the
/// hint, else the first free one.
pub open spec fn next_free(bits: Seq<bool>, hint: int) -> Option<int> {
    match first_clear(
        bits,
        if hint >= bits.len() {
            0
        } else {
            hint
        },
    ) {
        Some(f) => Some(f),
        None => first_clear(bits, 0),
    }
}

/// A single-page allocation: the frame's address (0 when none is free) and the
/// state after it.
pub open spec fn alloc_page(st: PhysState) -> (PhysState, Option<u64>) {
    match next_free(st.bits, st.hint) {
        Some(f) => (
            PhysState {
                ram: zeroed(st.ram, f * 4096, 4096),
                bits: st.bits.update(f, true),
                hint: f + 1,
                free: st.free - 1,
                ..st
            },
            Some((f * 4096) as u64),
        ),
        None => (st, None),
    }
}

/// The start that an allocation picks, if any.
pub open spec fn picked(bits: Seq<bool>, count: int, hint: int) -> int {
    choose|s: int| picks(bits, count, hint, s)
}

/// An allocation of `count` contiguous frames: the state after it and the address
/// of the first, if there is such a run of free frames.
pub open spec fn alloc_pages(st: PhysState, count: int) -> (PhysState, Option<u64>) {
    if exists|s: int| picks(st.bits, count, st.hint, s) {
        let first = picked(st.bits, count, st.hint);
        (
            PhysState {
                ram: zeroed(st.ram, first * 4096, count * 4096),
                bits: with_range(st.bits, first, count, true),
                hint: first + count,
                free: st.free - count,
                ..st
            },
            Some((first * 4096) as u64),
        )
    } else {
        (st, None)
    }
}

/// At most one start is picked.
proof fn lemma_picks_unique(bits: Seq<bool>, count: int, hint: int, s: int, t: int)
    requires
        picks(bits, count, hint, s),
        picks(bits, count, hint, t),
    ensures
        s == t,
{
    let n = bits.len() as int;
    let h = if hint >= n {
        0
    } else {
        hint
    };
    if no_run(bits, h, n, count) {
        assert(run_at(bits, 0, n, count, s) && run_at(bits, 0, n, count, t));
    } else {
        assert(run_at(bits, h, n, count, s) && run_at(bits, h, n, count, t));
    }
}

/// Nothing is picked when there is no run at all.
proof fn lemma_no_pick(bits: Seq<bool>, count: int, hint: int)
    requires
        count == 0 || no_run(bits, 0, bits.len() as int, count),
        0 <= hint,
    ensures
        forall|s: int| !#[trigger] picks(bits, count, hint, s),
{
    let n = bits.len() as int;
    assert forall|s: int| !#[trigger] picks(bits, count, hint, s) by {
        if picks(bits, count, hint, s) {
            assert(run_at(bits, 0, n, count, s));
        }
    }
}

/// Freeing one frame.
pub open spec fn free_page(st: PhysState, pa: u64) -> PhysState {
    let f = pa as int / 4096;
    PhysState {
        bits: st.bits.update(f, false),
        hint: if st.hint <= f {
            st.hint
        } else {
            f
        },
        free: st.free + 1,
        ..st
    }
}

/// Freeing `count` frames from `pa` on.
pub open spec fn free_pages(st: PhysState, pa: u64, count: int) -> PhysState {
    let f = pa as int / 4096;
    PhysState {
        bits: with_range(st.bits, f, count, false),
        hint: if st.hint <= f {
            st.hint
        } else {
            f
        },
        free: st.free + count,
        ..st
    }
}

proof fn lemma_first_clear(bits: Seq<bool>, from: int)
    requires
        0 <= from,
    ensures
        match first_clear(bits, from) {
            Some(f) => from <= f < bits.len() && !bits[f] && forall|t: int|
                from <= t < f ==> #[trigger] bits[t],
            None => forall|t: int| from <= t < bits.len() ==> #[trigger] bits[t],
        },
    decreases bits.len() - from,
{
    if from < bits.len() && bits[from] {
        lemma_first_clear(bits, from + 1);
    }
}

/// The frame a single-page allocation takes exists and was free; there is one
/// unless every frame is in use.
pub proof fn next_free_is_free(bits: Seq<bool>, hint: int)
    requires
        0 <= hint,
    ensures
        match next_free(bits, hint) {
            Some(f) => 0 <= f < bits.len() && !bits[f],
            None => forall|t: int| 0 <= t < bits.len() ==> #[trigger] bits[t],
        },
{
    lemma_first_clear(
        bits,
        if hint >= bits.len() {
            0
        } else {
            hint
        },
    );
    lemma_first_clear(bits, 0);
}

proof fn lemma_single_run(bits: Seq<bool>, from: int, to: int, s: int)
    requires
        0 <= from,
        to == bits.len(),
    ensures
        run_at(bits, from, to, 1, s) == (from <= s < to && !bits[s]),
{
}

proof fn lemma_picks_is_next_free(bits: Seq<bool>, hint: int, s: int)
    requires
        0 <= hint,
    ensures
        picks(bits, 1, hint, s) ==> next_free(bits, hint) == Some(s),
        no_run(bits, 0, bits.len() as int, 1) ==> next_free(bits, hint) is None,
{
    let n = bits.len() as int;
    let h = if hint >= n {
        0
    } else {
        hint
    };
    lemma_first_clear(bits, h);
    lemma_first_clear(bits, 0);
    if picks(bits, 1, hint, s) {
        match first_clear(bits, h) {
            Some(f) => {
                lemma_single_run(bits, h, n, f);
                assert(!no_run(bits, h, n, 1));
                lemma_single_run(bits, h, n, s);
                if f < s {
                    assert(!run_at(bits, h, n, 1, f));
                }
            },
            None => {
                assert forall|t: int| !#[trigger] run_at(bits, h, n, 1, t) by {
                    lemma_single_run(bits, h, n, t);
                }
                lemma_single_run(bits, 0, n, s);
                let f = first_clear(bits, 0)->0;
                assert(!bits[s]);
                lemma_single_run(bits, 0, n, f);
                if f < s {
                    assert(!run_at(bits, 0, n, 1, f));
                }
            },
        }
    }
    if no_run(bits, 0, n, 1) {
        assert forall|t: int| 0 <= t < n implies bits[t] by {
            lemma_single_run(bits, 0, n, t);
            assert(!run_at(bits, 0, n, 1, t));
        }
    }
}

impl PhysicalMemory {
    /// Which frames are in use.
    pub open spec fn bits(&self) -> Seq<bool> {
        self.bitmap.bits()
    }

    /// Where the next search starts.
    pub open spec fn hint(&self) -> int {
        self.hint as int
    }

    /// Pages found at start-up.
    pub open spec fn total(&self) -> int {
        self.total_pages as int
    }

    /// Pages counted as free.
    pub open spec fn free(&self) -> int {
        self.free_pages as int
    }

    /// Every tracked frame exists, frame 0 is never free, and at least as many pages are
    /// counted free as there are clear bits.
    pub open spec fn wf(&self) -> bool {
        &&& self.bitmap.wf()
        &&& self.bits().len() * 4096 <= self.ram@.len()
        &&& self.bits().len() > 0 ==> self.bits()[0]
        &&& self.free_pages + count_true(self.bits()) >= self.bits().len()
        &&& self.free_pages + count_true(self.bits()) <= u64::MAX
    }

    /// The allocator before start-up: it owns `ram` but tracks no frame.
    pub fn new(ram: Vec<u8>) -> (m: Self)
        ensures
            m.wf(),
            m.ram@ == ram@,
            m.bits().len() == 0,
            m.free() == 0,
            m.total() == 0,
            m.hint() == 0,
    {
        let bitmap = RtlBitmap::new(Vec::new(), 0);
        let m = PhysicalMemory { ram, bitmap, hint: 0, total_pages: 0, free_pages: 0 };
        proof {
            count_true_bounded(m.bits());
        }
        m
    }

    fn zero_range(&mut self, at: usize, n: usize)
        requires
            at + n <= old(self).ram.len(),
        ensures
            final(self).ram@ == zeroed(old(self).ram@, at as int, n as int),
            final(self).bitmap == old(self).bitmap,
            final(self).hint == old(self).hint,
            final(self).total_pages == old(self).total_pages,
            final(self).free_pages == old(self).free_pages,
    {
        let ghost before = *self;
        let mut i: usize = 0;
        while i < n
            invariant
                i <= n,
                at + n <= self.ram.len(),
                self.ram@ == zeroed(before.ram@, at as int, i as int),
                self.bitmap == before.bitmap,
                self.hint == before.hint,
                self.total_pages == before.total_pages,
                self.free_pages == before.free_pages,
            decreases n - i,
        {
            self.ram.set(at + i, 0);
            i = i + 1;
            assert(self.ram@ =~= zeroed(before.ram@, at as int, i as int));
        }
        assert(self.ram@ =~= zeroed(before.ram@, at as int, n as int));
    }
}

/// Where the bitmap went, for the boot log.
#[derive(Debug, Clone, Copy, PartialEq, Eq, Structural)]
pub struct InitReport {
    /// Physical start of the carve-out.
    pub home_start: u64,
    /// Size of the carve-out.
    pub carve_bytes: u64,
    /// Pages left free.
    pub free_pages: u64,
}

proof fn lemma_max_pfn_covers(regions: Seq<MemoryRegion>, i: int)
    requires
        0 <= i < regions.len(),
        regions[i].usable,
    ensures
        regions[i].end as int / 4096 <= max_pfn(regions),
    decreases regions.len(),
{
    if i < regions.len() - 1 {
        lemma_max_pfn_covers(regions.drop_last(), i);
    }
}

proof fn lemma_max_pfn_in_ram(regions: Seq<MemoryRegion>, ram_len: int)
    requires
        0 <= ram_len,
        forall|i: int|
            0 <= i < regions.len() && (#[trigger] regions[i]).usable ==> regions[i].end <= ram_len,
    ensures
        max_pfn(regions) * 4096 <= ram_len,
    decreases regions.len(),
{
    if regions.len() > 0 {
        let rest = regions.drop_last();
        assert forall|i: int| 0 <= i < rest.len() && (#[trigger] rest[i]).usable implies rest[i].end
            <= ram_len by {
            assert(regions[i].usable);
        }
        lemma_max_pfn_in_ram(rest, ram_len);
        if regions.last().usable {
            assert(regions[regions.len() - 1].usable);
        }
    }
}

proof fn lemma_max_pfn_nonneg(regions: Seq<MemoryRegion>)
    ensures
        0 <= max_pfn(regions),
    decreases regions.len(),
{
    if regions.len() > 0 {
        lemma_max_pfn_nonneg(regions.drop_last());
    }
}

proof fn lemma_prefix(regions: Seq<MemoryRegion>, i: int)
    requires
        0 <= i < regions.len(),
    ensures
        regions.take(i + 1).drop_last() == regions.take(i),
        regions.take(i + 1).last() == regions[i],
{
    assert(regions.take(i + 1).drop_last() =~= regions.take(i));
}

proof fn lemma_usable_monotone(regions: Seq<MemoryRegion>, i: int)
    requires
        0 <= i <= regions.len(),
        forall|k: int|
            0 <= k < regions.len() && (#[trigger] regions[k]).usable ==> regions[k].start
                <= regions[k].end,
    ensures
        0 <= usable_pages(regions.take(i)) <= usable_pages(regions),
    decreases regions.len(),
{
    if i < regions.len() {
        let rest = regions.drop_last();
        assert(rest.take(i) =~= regions.take(i));
        lemma_usable_monotone(rest, i);
        if regions.last().usable {
            assert(regions[regions.len() - 1].usable);
        }
    } else {
        assert(regions.take(i) =~= regions);
        if regions.len() > 0 {
            let rest = regions.drop_last();
            assert(rest.take(i - 1) =~= rest);
            lemma_usable_monotone(rest, i - 1);
            if regions.last().usable {
                assert(regions[regions.len() - 1].usable);
            }
        }
    }
}

/// `is_home` among the first `n` regions.
spec fn home_so_far(regions: Seq<MemoryRegion>, n: int, home: Option<usize>) -> bool {
    match home {
        Some(h) => h < n && is_home(regions.take(n), h as int),
        None => forall|j: int|
            0 <= j < n && (#[trigger] regions[j]).usable ==> regions[j].end == regions[j].start,
    }
}

/// Highest usable frame and the index of the bitmap's home.
fn survey(regions: &[MemoryRegion]) -> (r: (u64, Option<usize>))
    requires
        forall|i: int|
            0 <= i < regions@.len() && (#[trigger] regions@[i]).usable ==> regions@[i].start
                <= regions@[i].end,
    ensures
        r.0 == max_pfn(regions@),
        home_so_far(regions@, regions@.len() as int, r.1),
{
    let mut top: u64 = 0;
    let mut home: Option<usize> = None;
    let mut i: usize = 0;
    while i < regions.len()
        invariant
            i <= regions@.len(),
            top == max_pfn(regions@.take(i as int)),
            home_so_far(regions@, i as int, home),
            forall|i: int|
                0 <= i < regions@.len() && (#[trigger] regions@[i]).usable ==> regions@[i].start
                    <= regions@[i].end,
        decreases regions@.len() - i,
    {
        let r = regions[i];
        proof {
            lemma_prefix(regions@, i as int);
        }
        let ghost old_home = home;
        if r.usable {
            assert(regions@[i as int].usable);
            if r.end / 0x1000 > top {
                top = r.end / 0x1000;
            }
            let best: u64 = match home {
                Some(h) => regions[h].end - regions[h].start,
                None => 0,
            };
            if best < r.end - r.start {
                home = Some(i);
            }
        }
        proof {
            let n = i as int;
            let ext = regions@.take(n + 1);
            match old_home {
                Some(h) => {
                    let p = regions@.take(n);
                    assert(is_home(p, h as int));
                    assert(p[h as int] == ext[h as int]);
                    assert forall|j: int| 0 <= j < n implies p[j] == #[trigger] ext[j] by {}
                    assert(ext[n] == r);
                    if home == old_home {
                        assert(is_home(ext, h as int)) by {
                            assert forall|j: int|
                                h < j < ext.len() && (#[trigger] ext[j]).usable implies ext[j].end
                                - ext[j].start <= ext[h as int].end - ext[h as int].start by {
                                if j < n {
                                    assert(p[j].usable);
                                }
                            }
                            assert forall|j: int| 0 <= j < h && (#[trigger] ext[j]).usable implies ext[j].end
                                - ext[j].start < ext[h as int].end - ext[h as int].start by {
                                assert(p[j].usable);
                            }
                        }
                    } else {
                        assert(is_home(ext, n)) by {
                            assert forall|j: int| 0 <= j < n && (#[trigger] ext[j]).usable implies ext[j].end
                                - ext[j].start < ext[n].end - ext[n].start by {
                                assert(p[j].usable);
                            }
                        }
                    }
                },
                None => {
                    if home.is_some() {
                        assert(is_home(ext, n)) by {
                            assert forall|j: int| 0 <= j < n && (#[trigger] ext[j]).usable implies ext[j].end
                                - ext[j].start < ext[n].end - ext[n].start by {
                                assert(regions@[j].usable);
                            }
                        }
                    }
                },
            }
        }
        i = i + 1;
    }
    assert(regions@.take(regions@.len() as int) =~= regions@);
    (top, home)
}

proof fn lemma_home_exists(regions: Seq<MemoryRegion>)
    requires
        forall|j: int|
            0 <= j < regions.len() && (#[trigger] regions[j]).usable ==> regions[j].end
                == regions[j].start,
    ensures
        usable_pages(regions) == 0,
    decreases regions.len(),
{
    if regions.len() > 0 {
        let rest = regions.drop_last();
        assert forall|j: int| 0 <= j < rest.len() && (#[trigger] rest[j]).usable implies rest[j].end
            == rest[j].start by {
            assert(regions[j].usable);
        }
        lemma_home_exists(rest);
        if regions.last().usable {
            assert(regions[regions.len() - 1].usable);
        }
    }
}

/// The frames that are free after start-up.
pub open spec fn initially_free(
    regions: Seq<MemoryRegion>,
    home_first: int,
    carve_pages: int,
    f: int,
) -> bool {
    &&& f != 0
    &&& !(home_first <= f < home_first + carve_pages)
    &&& exists|i: int| 0 <= i < regions.len() && (#[trigger] regions[i]).covers(f)
}

/// The home region's page count is part of the total, and any other region
/// that covers a frame outside it adds at least one more page.
proof fn lemma_total_at_least(regions: Seq<MemoryRegion>, h: int, o: int)
    requires
        0 <= h < regions.len(),
        0 <= o < regions.len(),
        regions[h].usable,
        regions[o].usable,
        forall|k: int|
            0 <= k < regions.len() && (#[trigger] regions[k]).usable ==> regions[k].start
                <= regions[k].end,
    ensures
        usable_pages(regions) >= regions[h].count(),
        o != h ==> usable_pages(regions) >= regions[h].count() + regions[o].count(),
    decreases regions.len(),
{
    let rest = regions.drop_last();
    let n = regions.len() - 1;
    assert(rest =~= regions.take(n));
    lemma_usable_monotone(regions, n);
    if regions[n].usable {
        assert(regions[n].start <= regions[n].end);
    }
    if h < n && o < n {
        assert forall|k: int| 0 <= k < rest.len() && (#[trigger] rest[k]).usable implies rest[k].start
            <= rest[k].end by {
            assert(regions[k].usable);
        }
        lemma_total_at_least(rest, h, o);
    } else if h < n {
        assert forall|k: int| 0 <= k < rest.len() && (#[trigger] rest[k]).usable implies rest[k].start
            <= rest[k].end by {
            assert(regions[k].usable);
        }
        lemma_total_at_least(rest, h, h);
    } else if o < n {
        assert forall|k: int| 0 <= k < rest.len() && (#[trigger] rest[k]).usable implies rest[k].start
            <= rest[k].end by {
            assert(regions[k].usable);
        }
        lemma_total_at_least(rest, o, o);
    }
}

/// Bring the physical allocator online from the boot memory map.
#[verifier::rlimit(60)]
#[verifier::spinoff_prover]
pub fn init(memory: &mut PhysicalMemory, regions: &[MemoryRegion]) -> (rep: InitReport)
    requires
        old(memory).wf(),
        boot_map_ok(regions@, old(memory).ram@.len() as int),
        usable_pages(regions@) > 0,
    ensures
        ({
            let pages = rep.carve_bytes as int / 4096;
            let home = rep.home_start as int / 4096;
            &&& final(memory).wf()
            &&& exists|h: int| #[trigger]
                is_home(regions@, h) && rep.home_start == regions@[h].start
            &&& rep.carve_bytes == carve_bytes(max_pfn(regions@))
            &&& final(memory).ram@ == zeroed(
                old(memory).ram@,
                rep.home_start as int,
                rep.carve_bytes as int,
            )
            &&& final(memory).bits().len() == max_pfn(regions@)
            &&& forall|f: int|
                0 <= f < max_pfn(regions@) ==> #[trigger] final(memory).bits()[f]
                    == !initially_free(regions@, home, pages, f)
            &&& final(memory).hint() == old(memory).hint()
            &&& rep.free_pages == final(memory).free()
            &&& final(memory).free() == final(memory).total() - pages
            &&& final(memory).total() == usable_pages(regions@) - (if (exists|i: int|
                0 <= i < regions@.len() && (#[trigger] regions@[i]).covers(0)) && !(home <= 0 < home
                + pages) {
                1int
            } else {
                0int
            })
        }),
{
    let (top, home) = survey(regions);
    let h: usize = match home {
        Some(h) => h,
        None => {
            proof {
                lemma_home_exists(regions@);
            }
            0
        },
    };
    assert(regions@.take(regions@.len() as int) =~= regions@);
    assert(is_home(regions@, h as int));
    let home_region = regions[h];
    let ram_len: usize = memory.ram.len();
    proof {
        lemma_max_pfn_in_ram(regions@, ram_len as int);
        assert(regions@[h as int].usable);
    }
    let bits: usize = top as usize;
    let words: usize = if bits % 64 == 0 {
        bits / 64
    } else {
        bits / 64 + 1
    };
    let carve: usize = (words * 8 + (PAGE_SIZE - 1)) / PAGE_SIZE * PAGE_SIZE;
    assert(carve == carve_bytes(top as int));
    proof {
        lemma_max_pfn_covers(regions@, h as int);
    }
    memory.zero_range(home_region.start as usize, carve);
    let ghost ram1 = memory.ram@;
    let mut bm = RtlBitmap::new(vec![0u64; words], bits);
    bm.set_bits(0, bits);
    proof {
        count_true_full(bm.bits());
    }
    let mut total: u64 = 0;
    let mut i: usize = 0;
    while i < regions.len()
        invariant
            i <= regions@.len(),
            bm.wf(),
            bm.bits().len() == bits,
            bits == max_pfn(regions@),
            bits <= usize::MAX,
            boot_map_ok(regions@, ram_len as int),
            total == usable_pages(regions@.take(i as int)),
            total + count_true(bm.bits()) >= bits,
            forall|f: int|
                0 <= f < bits ==> #[trigger] bm.bits()[f] == !(exists|k: int|
                    0 <= k < i && (#[trigger] regions@[k]).covers(f)),
        decreases regions@.len() - i,
    {
        let r = regions[i];
        proof {
            lemma_prefix(regions@, i as int);
            lemma_usable_monotone(regions@, i + 1);
        }
        let ghost before = bm.bits();
        if r.usable {
            proof {
                assert(regions@[i as int].usable);
                lemma_max_pfn_covers(regions@, i as int);
                clear_range_bounds_count(before, r.first(), r.count());
            }
            let first: usize = (r.start / 0x1000) as usize;
            let count: usize = ((r.end - r.start) / 0x1000) as usize;
            bm.clear_bits(first, count);
            total = total + count as u64;
        }
        proof {
            assert forall|f: int| 0 <= f < bits implies #[trigger] bm.bits()[f] == !(exists|k: int|
                0 <= k < i + 1 && (#[trigger] regions@[k]).covers(f)) by {
                if exists|k: int| 0 <= k < i && (#[trigger] regions@[k]).covers(f) {
                    let k = choose|k: int| 0 <= k < i && (#[trigger] regions@[k]).covers(f);
                    assert(!before[f]);
                    assert(regions@[k].covers(f));
                }
                assert(before[f] == !(exists|k: int| 0 <= k < i && (#[trigger] regions@[k]).covers(f)));
                if regions@[i as int].covers(f) {
                } else if exists|k: int| 0 <= k < i + 1 && (#[trigger] regions@[k]).covers(f) {
                    let k = choose|k: int| 0 <= k < i + 1 && (#[trigger] regions@[k]).covers(f);
                    assert(k != i);
                }
            }
        }
        i = i + 1;
    }
    assert(regions@.take(regions@.len() as int) =~= regions@);
    let carve_pages: usize = carve / PAGE_SIZE;
    let home_first: usize = (home_region.start / 0x1000) as usize;
    let ghost cleared = bm.bits();
    proof {
        assert(carve <= home_region.end - home_region.start);
        assert(carve_pages * 4096 == carve);
        assert(carve_pages <= home_region.count());
        assert forall|k: int| home_first <= k < home_first + carve_pages implies !#[trigger] cleared[k] by {
            assert(regions@[h as int].covers(k));
        }
        set_range_adds_count(cleared, home_first as int, carve_pages as int);
        lemma_total_at_least(regions@, h as int, h as int);
    }
    bm.set_bits(home_first, carve_pages);
    let ghost carved = bm.bits();
    if !bm.test_bit(0) {
        proof {
            assert(!cleared[0]);
            let o = choose|k: int| 0 <= k < regions@.len() && (#[trigger] regions@[k]).covers(0);
            assert(regions@[o].covers(0));
            if o == h {
                assert(home_first == 0);
                assert(carve_pages > 0);
            }
            lemma_total_at_least(regions@, h as int, o);
            set_range_adds_count(carved, 0, 1);
        }
        bm.set_bits(0, 1);
        total = total - 1;
    }
    let free: u64 = total - carve_pages as u64;
    memory.bitmap = bm;
    memory.total_pages = total;
    memory.free_pages = free;
    proof {
        let fin = memory.bits();
        count_true_bounded(fin);
        assert forall|f: int| 0 <= f < bits implies #[trigger] fin[f] == !initially_free(
            regions@,
            home_first as int,
            carve_pages as int,
            f,
        ) by {
            assert(cleared[f] == !(exists|k: int|
                0 <= k < regions@.len() && (#[trigger] regions@[k]).covers(f)));
            assert(carved[f] == (cleared[f] || home_first <= f < home_first + carve_pages));
        }
        if home_first <= 0 < home_first + carve_pages {
            assert(carved[0]);
        }
        assert(cleared[0] == !(exists|k: int|
            0 <= k < regions@.len() && (#[trigger] regions@[k]).covers(0)));
        assert(is_home(regions@, h as int) && home_region.start == regions@[h as int].start);
    }
    InitReport { home_start: home_region.start, carve_bytes: carve as u64, free_pages: free }
}

/// Allocate `count` physically contiguous frames, zero-filled. `None` exactly
/// when no such run of free frames exists.
pub fn mm_allocate_contiguous_pages(memory: &mut PhysicalMemory, count: usize) -> (r: Option<
    PhysAddr,
>)
    requires
        old(memory).wf(),
    ensures
        final(memory).wf(),
        final(memory).total() == old(memory).total(),
        final(memory).ram@.len() == old(memory).ram@.len(),
        (final(memory)@, match r {
            Some(pa) => Some(pa.0),
            None => None,
        }) == alloc_pages(old(memory)@, count as int),
        match r {
            Some(pa) => {
                let first = pa.0 as int / 4096;
                &&& pa.0 as int == first * 4096
                &&& 0 < first
                &&& picks(old(memory).bits(), count as int, old(memory).hint(), first)
                &&& final(memory).bits() == with_range(
                    old(memory).bits(),
                    first,
                    count as int,
                    true,
                )
                &&& final(memory).hint() == first + count
                &&& final(memory).free() == old(memory).free() - count
                &&& final(memory).ram@ == zeroed(old(memory).ram@, pa.0 as int, count * 4096)
            },
            None => {
                &&& count == 0 || no_run(
                    old(memory).bits(),
                    0,
                    old(memory).bits().len() as int,
                    count as int,
                )
                &&& *final(memory) == *old(memory)
            },
        },
{
    let ghost before = *memory;
    let hint: usize = memory.hint;
    let ram_len: usize = memory.ram.len();
    let first: usize = match memory.bitmap.find_clear_bits_and_set(count, hint) {
        Some(f) => f,
        None => {
            proof {
                lemma_no_pick(before.bits(), count as int, before.hint());
            }
            return None;
        },
    };
    proof {
        let bits = before.bits();
        assert(picks(bits, count as int, before.hint(), first as int));
        lemma_picks_unique(
            bits,
            count as int,
            before.hint(),
            first as int,
            picked(bits, count as int, before.hint()),
        );
        assert(exists|from: int| run_at(bits, from, bits.len() as int, count as int, first as int));
        set_range_adds_count(bits, first as int, count as int);
        count_true_bounded(memory.bits());
    }
    memory.hint = first + count;
    memory.free_pages = memory.free_pages - count as u64;
    memory.zero_range(first * PAGE_SIZE, count * PAGE_SIZE);
    proof {
        let want = alloc_pages(before@, count as int).0;
        assert(picks(before@.bits, count as int, before@.hint, first as int));
        assert(first == picked(before@.bits, count as int, before@.hint));
        assert(memory@.ram =~= want.ram);
        assert(memory@.bits =~= want.bits);
        assert(memory@.hint == want.hint);
        assert(memory@.free == want.free);
        assert(memory@.total == want.total);
    }
    Some(PhysAddr(first as u64 * 0x1000))
}

/// Allocate a single zeroed frame. `None` exactly when every frame is in use.
pub fn mm_allocate_page(memory: &mut PhysicalMemory) -> (r: Option<PhysAddr>)
    requires
        old(memory).wf(),
    ensures
        final(memory).wf(),
        final(memory)@ == alloc_page(old(memory)@).0,
        r == (match alloc_page(old(memory)@).1 {
            Some(pa) => Some(PhysAddr(pa)),
            None => None::<PhysAddr>,
        }),
        r matches Some(pa) ==> {
            let f = pa.0 as int / 4096;
            &&& pa.0 as int == f * 4096
            &&& 0 < f < old(memory)@.bits.len()
            &&& !old(memory)@.bits[f]
            &&& final(memory)@.bits == old(memory)@.bits.update(f, true)
            &&& pa.0 + 4096 <= old(memory)@.ram.len()
        },
        r is None ==> forall|f: int|
            0 <= f < old(memory)@.bits.len() ==> #[trigger] old(memory)@.bits[f],
{
    let ghost before = *memory;
    let r = mm_allocate_contiguous_pages(memory, 1);
    proof {
        let bits = before.bits();
        let n = bits.len() as int;
        match r {
            Some(pa) => {
                let first = pa.0 as int / 4096;
                lemma_picks_is_next_free(bits, before.hint(), first);
                assert(!bits[first]);
                assert(memory.bits() =~= bits.update(first, true));
                assert(memory@ =~= alloc_page(before@).0);
            },
            None => {
                lemma_picks_is_next_free(bits, before.hint(), 0);
                assert forall|f: int| 0 <= f < n implies #[trigger] bits[f] by {
                    assert(!run_at(bits, 0, n, 1, f));
                }
            },
        }
    }
    r
}

/// Return frames to the free pool. Freeing a frame that is not in use is a
/// caller error.
pub fn mm_free_contiguous_pages(memory: &mut PhysicalMemory, pa: PhysAddr, count: usize)
    requires
        old(memory).wf(),
        count > 0 ==> pa.0 >= 4096,
        pa.0 as int / 4096 + count <= old(memory).bits().len(),
        forall|k: int|
            pa.0 as int / 4096 <= k < pa.0 as int / 4096 + count ==> #[trigger] old(memory).bits()[k],
    ensures
        final(memory).wf(),
        final(memory).total() == old(memory).total(),
        final(memory)@ == free_pages(old(memory)@, pa.0, count as int),
{
    proof {
        clear_range_subtracts_count(memory.bits(), pa.0 as int / 4096, count as int);
    }
    let frames: usize = memory.bitmap.len();
    assert(pa.0 / 0x1000 <= frames);
    let first: usize = (pa.0 / 0x1000) as usize;
    memory.bitmap.clear_bits(first, count);
    if memory.hint > first {
        memory.hint = first;
    }
    memory.free_pages = memory.free_pages + count as u64;
}

/// Return one frame to the free pool.
pub fn mm_free_page(memory: &mut PhysicalMemory, pa: PhysAddr)
    requires
        old(memory).wf(),
        pa.0 >= 4096,
        pa.0 as int / 4096 < old(memory)@.bits.len(),
        old(memory)@.bits[pa.0 as int / 4096],
    ensures
        final(memory).wf(),
        final(memory)@ == free_page(old(memory)@, pa.0),
{
    let ghost before = memory@;
    mm_free_contiguous_pages(memory, pa, 1);
    assert(memory@ =~= free_page(before, pa.0));
}

/// Write bytes to physical memory.
pub fn mm_write_physical(memory: &mut PhysicalMemory, pa: PhysAddr, data: &[u8])
    requires
        old(memory).wf(),
        pa.0 + data@.len() <= old(memory).ram.len(),
    ensures
        final(memory).wf(),
        final(memory)@ == (PhysState {
            ram: overlay(old(memory)@.ram, pa.0 as int, data@),
            ..old(memory)@
        }),
{
    put_bytes(&mut memory.ram, pa.0 as usize, data);
}

/// Pages currently counted free.
pub fn mm_free_page_count(memory: &PhysicalMemory) -> (n: u64)
    ensures
        n == memory.free(),
{
    memory.free_pages
}

/// Freeing what was just allocated gives back the frame map and the count.
pub proof fn allocate_then_free_restores(bits: Seq<bool>, count: int, hint: int, first: int)
    requires
        picks(bits, count, hint, first),
        0 <= hint,
    ensures
        with_range(with_range(bits, first, count, true), first, count, false) == bits,
{
    assert(with_range(with_range(bits, first, count, true), first, count, false) =~= bits);
}

/// A page that is allocated was free and is in use from then on; it holds zeroes. No other
/// frame and no other byte of memory changes, and one page less is free.
pub proof fn an_allocated_page_is_zero(st: PhysState, b: int, f: int)
    requires
        0 <= st.hint,
        st.bits.len() * 4096 <= st.ram.len() <= u64::MAX,
        0 <= b < st.ram.len(),
        0 <= f < st.bits.len(),
    ensures
        ({
            let (s, pa) = alloc_page(st);
            match pa {
                None => s == st && st.bits[f],
                Some(pa) => {
                    &&& pa % 4096 == 0
                    &&& pa as int / 4096 < st.bits.len()
                    &&& !st.bits[pa as int / 4096]
                    &&& s.bits[f] == (st.bits[f] || f == pa as int / 4096)
                    &&& s.ram[b] == if pa <= b < pa + 4096 {
                        0
                    } else {
                        st.ram[b]
                    }
                    &&& s.free == st.free - 1
                    &&& s.hint == pa as int / 4096 + 1
                    &&& s.total == st.total
                    &&& s.ram.len() == st.ram.len()
                },
            }
        }),
{
    next_free_is_free(st.bits, st.hint);
}

/// A page that is freed is free again and counted, and memory keeps what it holds.
pub proof fn a_freed_page_is_free(st: PhysState, pa: u64, f: int)
    requires
        pa as int / 4096 < st.bits.len(),
        0 <= f < st.bits.len(),
    ensures
        ({
            let s = free_page(st, pa);
            &&& s.bits[f] == (st.bits[f] && f != pa as int / 4096)
            &&& s.free == st.free + 1
            &&& s.ram == st.ram
            &&& s.hint <= st.hint
            &&& s.hint <= pa as int / 4096
            &&& s.hint == st.hint || s.hint == pa as int / 4096
        }),
{
}

/// Pages that are allocated together follow each other, were free, and hold zeroes; they are
/// in use from then on, and no other frame and no other byte changes.
pub proof fn pages_allocated_together_follow_each_other(st: PhysState, count: int, b: int, f: int)
    requires
        0 <= st.hint,
        st.bits.len() * 4096 <= st.ram.len() <= u64::MAX,
        0 <= b < st.ram.len(),
        0 <= f < st.bits.len(),
    ensures
        ({
            let (s, pa) = alloc_pages(st, count);
            match pa {
                None => s == st,
                Some(pa) => {
                    let first = pa as int / 4096;
                    &&& pa % 4096 == 0
                    &&& first + count <= st.bits.len()
                    &&& first <= f < first + count ==> !st.bits[f] && s.bits[f]
                    &&& !(first <= f < first + count) ==> s.bits[f] == st.bits[f]
                    &&& s.ram[b] == if pa <= b < pa + count * 4096 {
                        0
                    } else {
                        st.ram[b]
                    }
                    &&& s.free == st.free - count
                    &&& s.hint == first + count
                },
            }
        }),
{
    if exists|s: int| picks(st.bits, count, st.hint, s) {
        let first = picked(st.bits, count, st.hint);
        assert(picks(st.bits, count, st.hint, first));
        let n = st.bits.len() as int;
        assert(run_at(st.bits, 0, n, count, first) || run_at(st.bits, st.hint, n, count, first));
        assert((first * 4096) as u64 as int == first * 4096);
    }
}

/// Pages that are freed together are free again, and no others.
pub proof fn pages_freed_together_are_free(st: PhysState, pa: u64, count: int, f: int)
    requires
        0 <= f < st.bits.len(),
    ensures
        ({
            let s = free_pages(st, pa, count);
            let first = pa as int / 4096;
            &&& s.bits[f] == (st.bits[f] && !(first <= f < first + count))
            &&& s.free == st.free + count
            &&& s.ram == st.ram
            &&& s.hint <= first
        }),
{
}

/// The search for a free page starts at the hint and goes on from the front.
pub proof fn the_search_starts_at_the_hint(bits: Seq<bool>, hint: int, t: int)
    requires
        0 <= hint < bits.len(),
        0 <= t < bits.len(),
        !bits[t],
    ensures
        next_free(bits, hint) matches Some(f) && (t >= hint ==> hint <= f <= t),
{
    next_free_is_free(bits, hint);
    lemma_first_clear(bits, hint);
    lemma_lowest_clear(bits, hint, t);
}

proof fn lemma_lowest_clear(bits: Seq<bool>, from: int, t: int)
    requires
        0 <= from,
        t < bits.len(),
        !bits[t],
    ensures
        from <= t ==> (first_clear(bits, from) matches Some(f) && from <= f <= t),
    decreases t - from,
{
    if from < t {
        lemma_lowest_clear(bits, from + 1, t);
    }
}

/// Every usable region lies below the highest frame, and adds its whole pages to the count.
pub proof fn the_highest_frame_covers_every_region(regions: Seq<MemoryRegion>, r: MemoryRegion)
    ensures
        r.usable ==> max_pfn(regions.push(r)) >= r.end as int / 4096,
        max_pfn(regions.push(r)) >= max_pfn(regions),
        max_pfn(regions.push(r)) == max_pfn(regions) || (r.usable && max_pfn(regions.push(r))
            == r.end as int / 4096),
        r.usable ==> usable_pages(regions.push(r)) == usable_pages(regions) + (r.end - r.start)
            / 4096,
        !r.usable ==> usable_pages(regions.push(r)) == usable_pages(regions),
        max_pfn(Seq::empty()) == 0,
        usable_pages(Seq::empty()) == 0,
{
    assert(regions.push(r).drop_last() =~= regions);
}

/// The map of the frames has a bit for each, in whole pages.
pub proof fn the_frame_map_has_a_bit_for_each(bits: int)
    requires
        0 <= bits,
    ensures
        carve_bytes(bits) % 4096 == 0,
        carve_bytes(bits) * 8 >= bits,
        (carve_bytes(bits) - 4096) * 8 < bits + 64,
{
}

} // verus!
