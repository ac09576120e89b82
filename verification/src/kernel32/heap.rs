//! The process heap.
//!
//! An arena with a bump pointer and a free list. A block is a sixteen-byte header
//! with its size and what the caller gets; freed blocks go to the front of the
//! free list and are used again, the first that is big enough, without being split
//! or joined. The arena grows by chunks of virtual memory, which the caller asks
//! the kernel for.
use vstd::prelude::*;

verus! {

/// Smallest growth of the arena.
pub const HEAP_CHUNK: u64 = 0x1_0000;

/// Bytes before what the caller gets.
pub const HEAP_HEADER: u64 = 16;

/// A block: header address and size with the header.
#[derive(Debug, Clone, Copy, PartialEq, Eq, Structural)]
pub struct HeapBlock {
    pub at: u64,
    pub size: u64,
}

/// The heap.
pub struct Heap {
    /// Blocks handed out.
    pub live: Vec<HeapBlock>,
    /// Freed blocks, the last freed first.
    pub free: Vec<HeapBlock>,
    /// What is left of the newest chunk.
    pub bump: u64,
    pub end: u64,
}

/// The heap as a value.
#[verifier::ext_equal]
pub struct HeapState {
    pub live: Seq<HeapBlock>,
    pub free: Seq<HeapBlock>,
    pub bump: u64,
    pub end: u64,
}

impl View for Heap {
    type V = HeapState;

    open spec fn view(&self) -> HeapState {
        HeapState { live: self.live@, free: self.free@, bump: self.bump, end: self.end }
    }
}

/// `n` rounded up to sixteen.
pub open spec fn aligned(n: int) -> int {
    (n + 15) / 16 * 16
}

/// Round up to sixteen.
pub fn align16(n: u64) -> (r: u64)
    requires
        n <= u64::MAX - 15,
    ensures
        r == aligned(n as int),
{
    (n + 15) / 16 * 16
}

/// The size of the block that holds `bytes`.
pub open spec fn block_size(bytes: u64) -> int {
    aligned(bytes + HEAP_HEADER)
}

/// Two blocks do not share a byte.
pub open spec fn apart(a: HeapBlock, b: HeapBlock) -> bool {
    a.at + a.size <= b.at || b.at + b.size <= a.at
}

/// A block lies in the address space and outside the rest of the newest chunk.
pub open spec fn placed(b: HeapBlock, bump: u64, end: u64) -> bool {
    &&& HEAP_HEADER <= b.size
    &&& b.size % 16 == 0
    &&& b.at + b.size <= u64::MAX
    &&& b.at + b.size <= bump || end <= b.at
}

/// No two blocks of the heap overlap, and none reaches into what is left of the
/// newest chunk.
pub open spec fn heap_sound(h: HeapState) -> bool {
    &&& h.bump <= h.end
    &&& forall|i: int| 0 <= i < h.live.len() ==> placed(#[trigger] h.live[i], h.bump, h.end)
    &&& forall|i: int| 0 <= i < h.free.len() ==> placed(#[trigger] h.free[i], h.bump, h.end)
    &&& forall|i: int, j: int|
        0 <= i < j < h.live.len() ==> apart(#[trigger] h.live[i], #[trigger] h.live[j])
    &&& forall|i: int, j: int|
        0 <= i < j < h.free.len() ==> apart(#[trigger] h.free[i], #[trigger] h.free[j])
    &&& forall|i: int, j: int|
        0 <= i < h.live.len() && 0 <= j < h.free.len() ==> apart(
            #[trigger] h.live[i],
            #[trigger] h.free[j],
        )
}

/// The first freed block that is big enough, from `i` on.
pub open spec fn fitting(free: Seq<HeapBlock>, want: int, i: int) -> Option<int>
    decreases free.len() - i,
{
    if i < 0 || i >= free.len() {
        None
    } else if free[i].size >= want {
        Some(i)
    } else {
        fitting(free, want, i + 1)
    }
}

/// What an allocation comes to.
#[derive(Debug, Clone, Copy, PartialEq, Eq, Structural)]
pub enum HeapStep {
    /// The address for the caller.
    Block(u64),
    /// The arena must grow by this much first.
    Grow(u64),
}

/// Taking a block of `want` bytes from what is left of the newest chunk.
pub open spec fn bumped(h: HeapState, want: int) -> (HeapState, u64) {
    (
        HeapState {
            live: h.live.push(HeapBlock { at: h.bump, size: want as u64 }),
            bump: (h.bump + want) as u64,
            ..h
        },
        (h.bump + HEAP_HEADER) as u64,
    )
}

/// An allocation: from the free list, or from the newest chunk, or after growth.
pub open spec fn alloc_step(h: HeapState, bytes: u64) -> (HeapState, HeapStep) {
    let want = block_size(bytes);
    match fitting(h.free, want, 0) {
        Some(k) => (
            HeapState { live: h.live.push(h.free[k]), free: h.free.remove(k), ..h },
            HeapStep::Block((h.free[k].at + HEAP_HEADER) as u64),
        ),
        None => if h.bump + want > h.end {
            (
                h,
                HeapStep::Grow(
                    if want > HEAP_CHUNK {
                        want as u64
                    } else {
                        HEAP_CHUNK
                    },
                ),
            )
        } else {
            let (s, p) = bumped(h, want);
            (s, HeapStep::Block(p))
        },
    }
}

/// The heap with a new chunk.
pub open spec fn grown(h: HeapState, base: u64, chunk: u64) -> HeapState {
    HeapState { bump: base, end: (base + chunk) as u64, ..h }
}

/// A chunk that no block reaches into.
pub open spec fn fresh_chunk(h: HeapState, base: u64, chunk: u64) -> bool {
    &&& base + chunk <= u64::MAX
    &&& forall|i: int| 0 <= i < h.live.len() ==> placed(
        #[trigger] h.live[i],
        base,
        (base + chunk) as u64,
    )
    &&& forall|i: int| 0 <= i < h.free.len() ==> placed(
        #[trigger] h.free[i],
        base,
        (base + chunk) as u64,
    )
}

/// The position of the live block with header address `at`, from `i` on.
pub open spec fn live_at(live: Seq<HeapBlock>, at: int, i: int) -> Option<int>
    decreases live.len() - i,
{
    if i < 0 || i >= live.len() {
        None
    } else if live[i].at == at {
        Some(i)
    } else {
        live_at(live, at, i + 1)
    }
}

/// The caller's address names a live block.
pub open spec fn owns(h: HeapState, mem: u64) -> bool {
    live_at(h.live, mem - HEAP_HEADER, 0) is Some
}

/// The size of the caller's block, without the header.
pub open spec fn usable(h: HeapState, mem: u64) -> int {
    h.live[live_at(h.live, mem - HEAP_HEADER, 0)->Some_0].size - HEAP_HEADER
}

/// Freeing the caller's block.
pub open spec fn freed(h: HeapState, mem: u64) -> HeapState {
    let k = live_at(h.live, mem - HEAP_HEADER, 0)->Some_0;
    HeapState { live: h.live.remove(k), free: seq![h.live[k]] + h.free, ..h }
}

proof fn lemma_fitting(free: Seq<HeapBlock>, want: int, i: int)
    requires
        0 <= i,
    ensures
        match fitting(free, want, i) {
            Some(k) => i <= k < free.len() && free[k].size >= want,
            None => true,
        },
    decreases free.len() - i,
{
    if i < free.len() && free[i].size < want {
        lemma_fitting(free, want, i + 1);
    }
}

proof fn lemma_live_at(live: Seq<HeapBlock>, at: int, i: int)
    requires
        0 <= i,
    ensures
        match live_at(live, at, i) {
            Some(k) => i <= k < live.len() && live[k].at == at,
            None => forall|k: int| i <= k < live.len() ==> (#[trigger] live[k]).at != at,
        },
    decreases live.len() - i,
{
    if i < live.len() && live[i].at != at {
        lemma_live_at(live, at, i + 1);
    }
}

/// In a sound heap a live block is found by its address.
proof fn lemma_live_found(h: HeapState, k: int)
    requires
        heap_sound(h),
        0 <= k < h.live.len(),
    ensures
        live_at(h.live, h.live[k].at as int, 0) == Some(k),
{
    lemma_live_at(h.live, h.live[k].at as int, 0);
    let j = live_at(h.live, h.live[k].at as int, 0)->Some_0;
    assert(placed(h.live[k], h.bump, h.end) && placed(h.live[j], h.bump, h.end));
    if j < k {
        assert(apart(h.live[j], h.live[k]));
    } else if k < j {
        assert(apart(h.live[k], h.live[j]));
    }
}

proof fn lemma_reused(h: HeapState, k: int)
    requires
        heap_sound(h),
        0 <= k < h.free.len(),
    ensures
        heap_sound(HeapState { live: h.live.push(h.free[k]), free: h.free.remove(k), ..h }),
{
    let s = HeapState { live: h.live.push(h.free[k]), free: h.free.remove(k), ..h };
    assert forall|i: int| 0 <= i < s.free.len() implies placed(#[trigger] s.free[i], s.bump, s.end) by {
        assert(s.free[i] == h.free[if i < k { i } else { i + 1 }]);
    }
    assert forall|i: int, j: int| 0 <= i < j < s.free.len() implies apart(
        #[trigger] s.free[i],
        #[trigger] s.free[j],
    ) by {
        let x = if i < k { i } else { i + 1 };
        let y = if j < k { j } else { j + 1 };
        assert(apart(h.free[x], h.free[y]));
    }
    assert forall|i: int, j: int| 0 <= i < s.live.len() && 0 <= j < s.free.len() implies apart(
        #[trigger] s.live[i],
        #[trigger] s.free[j],
    ) by {
        let y = if j < k { j } else { j + 1 };
        if i < h.live.len() {
            assert(apart(h.live[i], h.free[y]));
        } else if y < k {
            assert(apart(h.free[y], h.free[k]));
        } else {
            assert(apart(h.free[k], h.free[y]));
        }
    }
    assert forall|i: int, j: int| 0 <= i < j < s.live.len() implies apart(
        #[trigger] s.live[i],
        #[trigger] s.live[j],
    ) by {
        if j < h.live.len() {
            assert(apart(h.live[i], h.live[j]));
        } else {
            assert(apart(h.live[i], h.free[k]));
        }
    }
    assert forall|i: int| 0 <= i < s.live.len() implies placed(#[trigger] s.live[i], s.bump, s.end) by {
        if i < h.live.len() {
            assert(placed(h.live[i], h.bump, h.end));
        } else {
            assert(placed(h.free[k], h.bump, h.end));
        }
    }
}

proof fn lemma_bumped(h: HeapState, want: int)
    requires
        heap_sound(h),
        HEAP_HEADER <= want,
        want % 16 == 0,
        h.bump + want <= h.end,
    ensures
        heap_sound(bumped(h, want).0),
{
    let s = bumped(h, want).0;
    assert forall|i: int| 0 <= i < s.live.len() implies placed(#[trigger] s.live[i], s.bump, s.end) by {
        if i < h.live.len() {
            assert(placed(h.live[i], h.bump, h.end));
        }
    }
    assert forall|i: int| 0 <= i < s.free.len() implies placed(#[trigger] s.free[i], s.bump, s.end) by {
        assert(placed(h.free[i], h.bump, h.end));
    }
    assert forall|i: int, j: int| 0 <= i < j < s.live.len() implies apart(
        #[trigger] s.live[i],
        #[trigger] s.live[j],
    ) by {
        assert(placed(h.live[i], h.bump, h.end));
        if j < h.live.len() {
            assert(apart(h.live[i], h.live[j]));
        }
    }
    assert forall|i: int, j: int| 0 <= i < s.live.len() && 0 <= j < s.free.len() implies apart(
        #[trigger] s.live[i],
        #[trigger] s.free[j],
    ) by {
        assert(placed(h.free[j], h.bump, h.end));
        if i < h.live.len() {
            assert(apart(h.live[i], h.free[j]));
        }
    }
}

proof fn lemma_freed(h: HeapState, k: int)
    requires
        heap_sound(h),
        0 <= k < h.live.len(),
    ensures
        heap_sound(HeapState { live: h.live.remove(k), free: seq![h.live[k]] + h.free, ..h }),
{
    let s = HeapState { live: h.live.remove(k), free: seq![h.live[k]] + h.free, ..h };
    assert forall|i: int| 0 <= i < s.live.len() implies placed(#[trigger] s.live[i], s.bump, s.end) by {
        assert(s.live[i] == h.live[if i < k { i } else { i + 1 }]);
    }
    assert forall|i: int| 0 <= i < s.free.len() implies placed(#[trigger] s.free[i], s.bump, s.end) by {
        if i == 0 {
            assert(s.free[i] == h.live[k]);
        } else {
            assert(s.free[i] == h.free[i - 1]);
        }
    }
    assert forall|i: int, j: int| 0 <= i < j < s.live.len() implies apart(
        #[trigger] s.live[i],
        #[trigger] s.live[j],
    ) by {
        let x = if i < k { i } else { i + 1 };
        let y = if j < k { j } else { j + 1 };
        assert(apart(h.live[x], h.live[y]));
    }
    assert forall|i: int, j: int| 0 <= i < j < s.free.len() implies apart(
        #[trigger] s.free[i],
        #[trigger] s.free[j],
    ) by {
        if i == 0 {
            assert(apart(h.live[k], h.free[j - 1]));
        } else {
            assert(apart(h.free[i - 1], h.free[j - 1]));
        }
    }
    assert forall|i: int, j: int| 0 <= i < s.live.len() && 0 <= j < s.free.len() implies apart(
        #[trigger] s.live[i],
        #[trigger] s.free[j],
    ) by {
        let x = if i < k { i } else { i + 1 };
        if j > 0 {
            assert(apart(h.live[x], h.free[j - 1]));
        } else if x < k {
            assert(apart(h.live[x], h.live[k]));
        } else {
            assert(apart(h.live[k], h.live[x]));
        }
    }
}

impl Heap {
    /// Blocks do not overlap.
    pub open spec fn wf(&self) -> bool {
        heap_sound(self@)
    }

    /// A heap with nothing in it.
    pub fn new() -> (h: Self)
        ensures
            h.wf(),
            h@.live.len() == 0,
            h@.free.len() == 0,
            h@.bump == 0,
            h@.end == 0,
    {
        Heap { live: Vec::new(), free: Vec::new(), bump: 0, end: 0 }
    }

    fn find_free(&self, want: u64) -> (r: Option<usize>)
        ensures
            match r {
                Some(k) => fitting(self@.free, want as int, 0) == Some(k as int) && k
                    < self@.free.len(),
                None => fitting(self@.free, want as int, 0) is None,
            },
    {
        let mut i: usize = 0;
        while i < self.free.len()
            invariant
                i <= self@.free.len(),
                fitting(self@.free, want as int, 0) == fitting(self@.free, want as int, i as int),
            decreases self@.free.len() - i,
        {
            if self.free[i].size >= want {
                return Some(i);
            }
            i = i + 1;
        }
        None
    }

    fn find_live(&self, mem: u64) -> (r: Option<usize>)
        ensures
            match r {
                Some(k) => live_at(self@.live, mem - HEAP_HEADER, 0) == Some(k as int) && k
                    < self@.live.len(),
                None => live_at(self@.live, mem - HEAP_HEADER, 0) is None,
            },
    {
        let mut i: usize = 0;
        while i < self.live.len()
            invariant
                i <= self@.live.len(),
                live_at(self@.live, mem - HEAP_HEADER, 0) == live_at(
                    self@.live,
                    mem - HEAP_HEADER,
                    i as int,
                ),
            decreases self@.live.len() - i,
        {
            if mem >= HEAP_HEADER && self.live[i].at == mem - HEAP_HEADER {
                return Some(i);
            }
            i = i + 1;
        }
        None
    }
}

/// `HeapAlloc`: the caller's block, or by how much the arena must grow first.
pub fn HeapAlloc(h: &mut Heap, bytes: u64) -> (r: HeapStep)
    requires
        old(h).wf(),
        bytes <= u64::MAX - 31,
        fitting(old(h)@.free, block_size(bytes), 0) is None ==> old(h)@.bump + block_size(bytes)
            <= u64::MAX,
    ensures
        final(h).wf(),
        (final(h)@, r) == alloc_step(old(h)@, bytes),
{
    let ghost st = h@;
    let want: u64 = align16(bytes + HEAP_HEADER);
    match h.find_free(want) {
        Some(k) => {
            proof {
                lemma_reused(st, k as int);
                assert(placed(st.free[k as int], st.bump, st.end));
            }
            let b: HeapBlock = h.free.remove(k);
            h.live.push(b);
            assert(h@ =~= alloc_step(st, bytes).0);
            HeapStep::Block(b.at + HEAP_HEADER)
        },
        None => {
            if h.bump + want > h.end {
                return HeapStep::Grow(
                    if want > HEAP_CHUNK {
                        want
                    } else {
                        HEAP_CHUNK
                    },
                );
            }
            proof {
                lemma_bumped(st, want as int);
            }
            let at: u64 = h.bump;
            h.bump = at + want;
            h.live.push(HeapBlock { at, size: want });
            assert(h@ =~= alloc_step(st, bytes).0);
            HeapStep::Block(at + HEAP_HEADER)
        },
    }
}

/// An allocation after growth: the heap and the caller's address.
pub open spec fn grown_alloc(h: HeapState, bytes: u64, base: u64, chunk: u64) -> (HeapState, u64) {
    if base == 0 {
        (h, 0)
    } else {
        bumped(grown(h, base, chunk), block_size(bytes))
    }
}

/// `HeapAlloc` after the kernel gave a chunk at `base`, or 0 when it had none: the
/// caller's block, 0 for none.
pub fn heap_grow(h: &mut Heap, bytes: u64, base: u64, chunk: u64) -> (mem: u64)
    requires
        old(h).wf(),
        alloc_step(old(h)@, bytes).1 == HeapStep::Grow(chunk),
        bytes <= u64::MAX - 31,
        base != 0 ==> fresh_chunk(old(h)@, base, chunk),
    ensures
        final(h).wf(),
        (final(h)@, mem) == grown_alloc(old(h)@, bytes, base, chunk),
{
    if base == 0 {
        return 0;
    }
    let ghost st = h@;
    let want: u64 = align16(bytes + HEAP_HEADER);
    h.bump = base;
    h.end = base + chunk;
    proof {
        assert(h@ =~= grown(st, base, chunk));
        assert(heap_sound(h@));
        lemma_bumped(h@, want as int);
    }
    h.bump = base + want;
    h.live.push(HeapBlock { at: base, size: want });
    assert(h@ =~= grown_alloc(st, bytes, base, chunk).0);
    base + HEAP_HEADER
}

/// `HeapFree`: put a block on the free list. A null pointer is refused.
pub fn HeapFree(h: &mut Heap, mem: u64) -> (r: i32)
    requires
        old(h).wf(),
        mem != 0 ==> owns(old(h)@, mem),
    ensures
        final(h).wf(),
        mem == 0 ==> r == 0 && final(h)@ == old(h)@,
        mem != 0 ==> r == 1 && final(h)@ == freed(old(h)@, mem),
{
    if mem == 0 {
        return 0;
    }
    let ghost st = h@;
    match h.find_live(mem) {
        Some(k) => {
            proof {
                lemma_freed(st, k as int);
            }
            let b: HeapBlock = h.live.remove(k);
            h.free.insert(0, b);
            assert(h@.free =~= seq![b] + st.free);
            assert(h@ =~= freed(st, mem));
            1
        },
        None => 1,
    }
}

/// `LocalFree`: give a block back to the process heap; the answer is always null.
pub fn LocalFree(h: &mut Heap, mem: u64) -> (r: u64)
    requires
        old(h).wf(),
        mem != 0 ==> owns(old(h)@, mem),
    ensures
        final(h).wf(),
        r == 0,
        final(h)@ == if mem == 0 {
            old(h)@
        } else {
            freed(old(h)@, mem)
        },
{
    if mem != 0 {
        HeapFree(h, mem);
    }
    0
}

/// `GlobalFree`: as [`LocalFree`].
pub fn GlobalFree(h: &mut Heap, mem: u64) -> (r: u64)
    requires
        old(h).wf(),
        mem != 0 ==> owns(old(h)@, mem),
    ensures
        final(h).wf(),
        r == 0,
        final(h)@ == if mem == 0 {
            old(h)@
        } else {
            freed(old(h)@, mem)
        },
{
    if mem != 0 {
        HeapFree(h, mem);
    }
    0
}

/// `HeapSize`: the bytes of a block that the caller may use.
pub fn HeapSize(h: &Heap, mem: u64) -> (r: u64)
    requires
        h.wf(),
        mem != 0 ==> owns(h@, mem),
    ensures
        r == if mem == 0 {
            u64::MAX as int
        } else {
            usable(h@, mem)
        },
{
    if mem == 0 {
        return 0xFFFF_FFFF_FFFF_FFFF;
    }
    match h.find_live(mem) {
        Some(k) => {
            assert(placed(h@.live[k as int], h@.bump, h@.end));
            h.live[k].size - HEAP_HEADER
        },
        None => 0,
    }
}

/// Bytes that move from an old block to a new one.
pub open spec fn moved(h: HeapState, mem: u64, bytes: u64) -> int {
    if usable(h, mem) < bytes {
        usable(h, mem)
    } else {
        bytes as int
    }
}

/// `HeapReAlloc` after a new block was allocated: how many bytes to move to it,
/// counted before the old block is freed. Without a new block the old one stays.
pub fn HeapReAlloc(h: &mut Heap, mem: u64, bytes: u64, new: u64) -> (n: u64)
    requires
        old(h).wf(),
        mem != 0 ==> owns(old(h)@, mem),
    ensures
        final(h).wf(),
        mem == 0 || new == 0 ==> n == 0 && final(h)@ == old(h)@,
        mem != 0 && new != 0 ==> n == moved(old(h)@, mem, bytes) && final(h)@ == freed(
            old(h)@,
            mem,
        ),
{
    if mem == 0 || new == 0 {
        return 0;
    }
    let size: u64 = HeapSize(h, mem);
    let n: u64 = if size < bytes {
        size
    } else {
        bytes
    };
    let _freed: i32 = HeapFree(h, mem);
    n
}

/// The flag of [`GlobalAlloc`] for a block of zeros.
pub const GMEM_ZEROINIT: u32 = 0x40;

/// `GlobalAlloc`: a block of the heap as [`HeapAlloc`] gives it, and how many of its
/// bytes to clear once it is there.
pub fn GlobalAlloc(h: &mut Heap, flags: u32, bytes: u64) -> (r: (HeapStep, u64))
    requires
        old(h).wf(),
        bytes <= u64::MAX - 31,
        fitting(old(h)@.free, block_size(bytes), 0) is None ==> old(h)@.bump + block_size(bytes)
            <= u64::MAX,
    ensures
        final(h).wf(),
        (final(h)@, r.0) == alloc_step(old(h)@, bytes),
        r.1 == if flags & GMEM_ZEROINIT != 0 {
            bytes
        } else {
            0
        },
{
    let step = HeapAlloc(h, bytes);
    if flags & GMEM_ZEROINIT != 0 {
        (step, bytes)
    } else {
        (step, 0)
    }
}

/// `VirtualFree`: the bytes to give back, at least a page; nothing for a null
/// pointer.
pub fn VirtualFree(address: u64, size: u64) -> (r: Option<u64>)
    ensures
        r == if address == 0 {
            None
        } else if size < 4096 {
            Some(4096u64)
        } else {
            Some(size)
        },
{
    if address == 0 {
        None
    } else if size < 4096 {
        Some(4096)
    } else {
        Some(size)
    }
}

// ---------------------------------------------------------------------------
// Laws
// ---------------------------------------------------------------------------
/// A new block is owned by the caller and holds at least what was asked for.
pub proof fn a_new_block_is_big_enough(h: HeapState, bytes: u64)
    requires
        heap_sound(h),
        h.bump + block_size(bytes) <= u64::MAX,
    ensures
        ({
            let (s, step) = alloc_step(h, bytes);
            step matches HeapStep::Block(mem) ==> owns(s, mem) && usable(s, mem) >= bytes
        }),
{
    let (s, step) = alloc_step(h, bytes);
    let want = block_size(bytes);
    lemma_fitting(h.free, want, 0);
    match step {
        HeapStep::Block(mem) => {
            match fitting(h.free, want, 0) {
                Some(k) => {
                    lemma_reused(h, k);
                    assert(placed(h.free[k], h.bump, h.end));
                },
                None => {
                    lemma_bumped(h, want);
                },
            }
            lemma_live_found(s, s.live.len() - 1);
            assert(mem - HEAP_HEADER == s.live.last().at);
        },
        HeapStep::Grow(_) => {},
    }
}

/// What two callers own never overlaps.
pub proof fn blocks_never_overlap(h: HeapState, a: u64, b: u64)
    requires
        heap_sound(h),
        owns(h, a),
        owns(h, b),
        a != b,
    ensures
        a + usable(h, a) <= b || b + usable(h, b) <= a,
{
    lemma_live_at(h.live, a - HEAP_HEADER, 0);
    lemma_live_at(h.live, b - HEAP_HEADER, 0);
    let i = live_at(h.live, a - HEAP_HEADER, 0)->Some_0;
    let j = live_at(h.live, b - HEAP_HEADER, 0)->Some_0;
    if i < j {
        assert(apart(h.live[i], h.live[j]));
    } else {
        assert(apart(h.live[j], h.live[i]));
    }
}

/// A freed block is the first to be used again: the next allocation that it can
/// hold gets it.
pub proof fn a_freed_block_is_used_again(h: HeapState, mem: u64, bytes: u64)
    requires
        heap_sound(h),
        mem != 0,
        owns(h, mem),
        bytes <= usable(h, mem),
    ensures
        alloc_step(freed(h, mem), bytes).1 == HeapStep::Block(mem),
{
    lemma_live_at(h.live, mem - HEAP_HEADER, 0);
    let k = live_at(h.live, mem - HEAP_HEADER, 0)->Some_0;
    let f = freed(h, mem);
    assert(f.free[0] == h.live[k]);
    assert(placed(h.live[k], h.bump, h.end));
    assert(block_size(bytes) <= h.live[k].size);
    assert(fitting(f.free, block_size(bytes), 0) == Some(0int));
}

/// Sizes are rounded up to the next multiple of sixteen.
pub proof fn sizes_are_rounded_up(n: int)
    requires
        0 <= n,
    ensures
        aligned(n) % 16 == 0,
        n <= aligned(n) < n + 16,
{
}

/// A request takes the first free block that is large enough, whole: its caller gets the
/// address behind the 16 bytes of the header, and the block leaves the free list.
pub proof fn the_first_block_that_fits_is_taken(h: HeapState, bytes: u64, k: int)
    requires
        0 <= k < h.free.len(),
        h.free[k].size >= block_size(bytes),
        forall|j: int| 0 <= j < k ==> (#[trigger] h.free[j]).size < block_size(bytes),
    ensures
        ({
            let (h1, step) = alloc_step(h, bytes);
            &&& step == HeapStep::Block((h.free[k].at + 16) as u64)
            &&& h1.free == h.free.remove(k)
            &&& h1.live == h.live.push(h.free[k])
            &&& h1.bump == h.bump
            &&& h1.end == h.end
        }),
{
    lemma_first_fit(h.free, block_size(bytes), k, 0);
}

proof fn lemma_first_fit(free: Seq<HeapBlock>, want: int, k: int, i: int)
    requires
        0 <= i <= k < free.len(),
        free[k].size >= want,
        forall|j: int| i <= j < k ==> (#[trigger] free[j]).size < want,
    ensures
        fitting(free, want, i) == Some(k),
    decreases k - i,
{
    if i < k {
        assert(free[i].size < want);
        lemma_first_fit(free, want, k, i + 1);
    }
}

/// Where no free block fits, a block is cut off the arena: it is as large as the request and
/// a header, rounded up, and the arena shrinks by just that.
pub proof fn a_new_block_is_cut_off_the_arena(h: HeapState, bytes: u64)
    requires
        bytes <= u64::MAX - 31,
        forall|j: int| 0 <= j < h.free.len() ==> (#[trigger] h.free[j]).size < block_size(bytes),
        h.bump + block_size(bytes) <= h.end,
    ensures
        ({
            let (h1, step) = alloc_step(h, bytes);
            &&& step == HeapStep::Block((h.bump + 16) as u64)
            &&& h1.free == h.free
            &&& h1.live.len() == h.live.len() + 1
            &&& h1.live.last().at == h.bump
            &&& bytes + 16 <= h1.live.last().size < bytes + 32
            &&& h1.bump == h.bump + h1.live.last().size
            &&& h1.end == h.end
        }),
{
    lemma_fitting(h.free, block_size(bytes), 0);
}

/// Where the arena is too small, nothing changes and a chunk is asked for: 64 KiB, or the
/// whole block where that is more. With such a chunk the request is met at its start.
pub proof fn a_full_arena_asks_for_a_chunk(h: HeapState, bytes: u64, base: u64)
    requires
        bytes <= u64::MAX - 31,
        forall|j: int| 0 <= j < h.free.len() ==> (#[trigger] h.free[j]).size < block_size(bytes),
        h.bump + block_size(bytes) > h.end,
        base != 0,
        base + 0x1_0000 <= u64::MAX,
        base + block_size(bytes) <= u64::MAX,
    ensures
        ({
            let (h1, step) = alloc_step(h, bytes);
            &&& h1 == h
            &&& step matches HeapStep::Grow(chunk)
            &&& chunk >= 0x1_0000
            &&& chunk >= bytes + 16
            &&& chunk == 0x1_0000 || chunk < bytes + 32
            &&& grown_alloc(h, bytes, base, chunk).1 == base + 16
            &&& grown_alloc(h, bytes, base, chunk).0.end == base + chunk
            &&& grown_alloc(h, bytes, base, chunk).0.bump <= base + chunk
            &&& grown_alloc(h, bytes, base, chunk).0.live.last().at == base
            &&& grown_alloc(h, bytes, 0, chunk) == (h, 0u64)
        }),
{
    lemma_fitting(h.free, block_size(bytes), 0);
}

/// A block that is given back is no longer live, every other live block stays, and the block
/// is the first of the free list, with its whole size.
pub proof fn a_freed_block_leaves_the_live_ones(h: HeapState, mem: u64, other: u64)
    requires
        heap_sound(h),
        owns(h, mem),
        owns(h, other),
        other != mem,
    ensures
        !owns(freed(h, mem), mem),
        owns(freed(h, mem), other),
        usable(freed(h, mem), other) == usable(h, other),
        freed(h, mem).free[0].at == mem - 16,
        freed(h, mem).free[0].size == usable(h, mem) + 16,
        freed(h, mem).free.skip(1) == h.free,
        freed(h, mem).live.len() == h.live.len() - 1,
{
    lemma_live_at(h.live, mem - HEAP_HEADER, 0);
    lemma_live_at(h.live, other - HEAP_HEADER, 0);
    let k = live_at(h.live, mem - HEAP_HEADER, 0)->Some_0;
    let o = live_at(h.live, other - HEAP_HEADER, 0)->Some_0;
    let l1 = h.live.remove(k);
    lemma_live_at(l1, mem - HEAP_HEADER, 0);
    lemma_live_at(l1, other - HEAP_HEADER, 0);
    let o1 = if o < k {
        o
    } else {
        o - 1
    };
    assert(l1[o1] == h.live[o]);
    if let Some(j) = live_at(l1, mem - HEAP_HEADER, 0) {
        let j0 = if j < k {
            j
        } else {
            j + 1
        };
        assert(h.live[j0] == l1[j]);
        assert(apart(h.live[j0], h.live[k]) || apart(h.live[k], h.live[j0]));
        assert(placed(h.live[j0], h.bump, h.end) && placed(h.live[k], h.bump, h.end));
    }
    if let Some(j) = live_at(l1, other - HEAP_HEADER, 0) {
        let j0 = if j < k {
            j
        } else {
            j + 1
        };
        assert(h.live[j0] == l1[j]);
        if j0 != o {
            assert(apart(h.live[j0], h.live[o]) || apart(h.live[o], h.live[j0]));
            assert(placed(h.live[j0], h.bump, h.end) && placed(h.live[o], h.bump, h.end));
        }
    }
    assert(freed(h, mem).free.skip(1) =~= h.free);
}

/// What moves to a larger or smaller block is what both of them can hold.
pub proof fn both_blocks_hold_what_moves(h: HeapState, mem: u64, bytes: u64)
    ensures
        moved(h, mem, bytes) <= usable(h, mem),
        moved(h, mem, bytes) <= bytes,
        moved(h, mem, bytes) == usable(h, mem) || moved(h, mem, bytes) == bytes,
{
}

} // verus!
