//! NonPagedPool: the tagged kernel heap.
//!
//! Pool hands out variable-size blocks, each with a header that records its size
//! and a four-byte tag naming its owner. It is a first-fit free list over 64 KiB
//! physically contiguous slabs taken from the frame allocator. Blocks are
//! 16-byte aligned with a 16-byte header; requests of about a page and more
//! bypass the list and take whole pages. A freed block joins the free block behind it
//! when that is the rest of the slab.
//!
//! Blocks are named by physical address: the caller reaches their bytes through
//! the physical-memory window.
use crate::bytes::get32;
use crate::mm::phys::{
    alloc_pages, free_pages, keeps_frames, mm_allocate_contiguous_pages, mm_free_contiguous_pages,
    PhysState, PhysicalMemory,
};
use crate::mm::PhysAddr;
use crate::rtl::bitmap::{picks, run_at, with_range};
use crate::rtl::NtStatus;
use vstd::prelude::*;

verus! {

/// Block alignment and header size.
pub const POOL_ALIGN: usize = 16;

/// Pages taken from the frame allocator when no free block fits.
pub const SLAB_PAGES: usize = 16;

/// Requests of this size and above take whole pages.
pub const LARGE_THRESHOLD: usize = 4080;

/// A pool tag from four ASCII characters.
pub fn pool_tag(tag: [u8; 4]) -> (r: u32)
    ensures
        r == get32(tag@, 0),
{
    tag[0] as u32 + tag[1] as u32 * 0x100 + tag[2] as u32 * 0x1_0000 + tag[3] as u32 * 0x100_0000
}

/// A block, with what its header records.
#[derive(Debug, Clone, Copy, PartialEq, Eq, Structural)]
pub struct PoolBlock {
    /// Physical address of the header.
    pub at: u64,
    /// Total size in bytes, header included.
    pub size: u64,
    /// Owner tag; 0 while free.
    pub tag: u32,
    /// Whole pages, outside the slabs.
    pub large: bool,
    /// The last block of its slab.
    pub tail: bool,
}

/// The pool: its free list (in search order), the blocks in use and the
/// statistics.
pub struct Pool {
    pub free_list: Vec<PoolBlock>,
    pub live: Vec<PoolBlock>,
    pub bytes_in_use: u64,
    pub allocations: u64,
    pub frees: u64,
}

/// The abstract state of the pool.
#[verifier::ext_equal]
pub struct PoolState {
    pub free: Seq<PoolBlock>,
    pub live: Seq<PoolBlock>,
    pub bytes: int,
    pub allocations: int,
    pub frees: int,
}

impl View for Pool {
    type V = PoolState;

    open spec fn view(&self) -> PoolState {
        PoolState {
            free: self.free_list@,
            live: self.live@,
            bytes: self.bytes_in_use as int,
            allocations: self.allocations as int,
            frees: self.frees as int,
        }
    }
}

/// Total size of some blocks.
pub open spec fn total_size(s: Seq<PoolBlock>) -> int
    decreases s.len(),
{
    if s.len() == 0 {
        0
    } else {
        total_size(s.drop_last()) + s.last().size
    }
}

/// Two blocks share no byte.
pub open spec fn disjoint(a: PoolBlock, b: PoolBlock) -> bool {
    a.at + a.size <= b.at || b.at + b.size <= a.at
}

/// No two blocks of a list share a byte.
pub open spec fn apart(s: Seq<PoolBlock>) -> bool {
    forall|i: int, j: int|
        0 <= i < s.len() && 0 <= j < s.len() && i != j ==> #[trigger] disjoint(s[i], s[j])
}

/// No block of one list shares a byte with one of the other.
pub open spec fn apart_from(a: Seq<PoolBlock>, b: Seq<PoolBlock>) -> bool {
    forall|i: int, j: int|
        0 <= i < a.len() && 0 <= j < b.len() ==> #[trigger] disjoint(a[i], b[j])
}

/// A block's shape: aligned, at least a header and a minimal payload, whole
/// pages when large, and in frames that are in use.
pub open spec fn sound_block(bits: Seq<bool>, b: PoolBlock) -> bool {
    &&& b.at >= 4096
    &&& b.at % 16 == 0
    &&& b.size % 16 == 0
    &&& b.size >= 32
    &&& b.large ==> b.at % 4096 == 0 && b.size % 4096 == 0
    &&& b.at + b.size <= bits.len() * 4096
    &&& forall|f: int|
        b.at < (f + 1) * 4096 && f * 4096 < b.at + b.size ==> #[trigger] bits[f]
}

pub open spec fn sound_blocks(bits: Seq<bool>, s: Seq<PoolBlock>) -> bool {
    forall|i: int| 0 <= i < s.len() ==> #[trigger] sound_block(bits, s[i])
}

/// What every operation keeps: all blocks are well-shaped and disjoint, free
/// ones are not large, and the statistics count the blocks in use.
pub open spec fn pool_sound(st: PoolState, bits: Seq<bool>) -> bool {
    &&& sound_blocks(bits, st.free)
    &&& sound_blocks(bits, st.live)
    &&& forall|i: int| 0 <= i < st.free.len() ==> !(#[trigger] st.free[i]).large
    &&& apart(st.free)
    &&& apart(st.live)
    &&& apart_from(st.free, st.live)
    &&& st.bytes == total_size(st.live)
    &&& st.allocations == st.frees + st.live.len()
}

/// A request rounded up to a whole block, header included.
pub open spec fn block_size(payload: int) -> int {
    (payload + 31) / 16 * 16
}

/// Round a request up to a whole 16-aligned block with its header.
pub fn block_size_for(payload: usize) -> (r: usize)
    requires
        payload <= usize::MAX - 31,
    ensures
        r == block_size(payload as int),
{
    (payload + 31) / 16 * 16
}

/// The first free block of at least `want` bytes, from index `from` on.
pub open spec fn fit(free: Seq<PoolBlock>, want: int, from: int) -> Option<int>
    decreases free.len() - from,
{
    if from < 0 || from >= free.len() {
        None
    } else if free[from].size >= want {
        Some(from)
    } else {
        fit(free, want, from + 1)
    }
}

/// What is taken of free block `b`: `want` bytes when the rest makes a block of
/// its own, else all of it.
pub open spec fn taken_size(b: PoolBlock, want: int) -> int {
    if b.size - want >= 32 {
        want
    } else {
        b.size as int
    }
}

/// The state after `want` bytes have been taken of free block `k`.
pub open spec fn take_block(st: PoolState, k: int, want: int, tag: u32) -> PoolState {
    let b = st.free[k];
    let n = taken_size(b, want);
    PoolState {
        free: if b.size - want >= 32 {
            st.free.update(
                k,
                PoolBlock {
                    at: (b.at + want) as u64,
                    size: (b.size - want) as u64,
                    tag: 0,
                    large: false,
                    tail: b.tail,
                },
            )
        } else {
            st.free.remove(k)
        },
        live: st.live.push(
            PoolBlock {
                at: b.at,
                size: n as u64,
                tag,
                large: false,
                tail: b.tail && b.size - want < 32,
            },
        ),
        bytes: st.bytes + n,
        allocations: st.allocations + 1,
        frees: st.frees,
    }
}

/// A range as one free block.
pub open spec fn free_block(at: u64, size: u64, tail: bool) -> PoolBlock {
    PoolBlock { at, size, tag: 0, large: false, tail }
}

/// The state with a range pushed on the free list.
pub open spec fn with_free(st: PoolState, at: u64, size: u64, tail: bool) -> PoolState {
    PoolState { free: seq![free_block(at, size, tail)] + st.free, ..st }
}

/// The free block that starts at `end` and reaches to the end of its slab, from index
/// `from` on.
pub open spec fn follower(free: Seq<PoolBlock>, end: int, from: int) -> Option<int>
    decreases free.len() - from,
{
    if from < 0 || from >= free.len() {
        None
    } else if free[from].at == end && free[from].tail {
        Some(from)
    } else {
        follower(free, end, from + 1)
    }
}

/// The free block that a block in use joins when it is freed: the rest of its slab, if
/// that lies right behind it.
pub open spec fn joined(free: Seq<PoolBlock>, b: PoolBlock) -> Option<int> {
    if b.tail {
        None
    } else {
        follower(free, b.at + b.size, 0)
    }
}

/// The free list after block `b` of a slab has been freed.
pub open spec fn with_freed(free: Seq<PoolBlock>, b: PoolBlock) -> Seq<PoolBlock> {
    match joined(free, b) {
        None => seq![free_block(b.at, b.size, b.tail)] + free,
        Some(j) => seq![free_block(b.at, (b.size + free[j].size) as u64, true)] + free.remove(j),
    }
}

/// Pages of a request that bypasses the list.
pub open spec fn large_pages(payload: int) -> int {
    (payload + 16 + 4095) / 4096
}

/// The state with a whole-page block in use.
pub open spec fn with_large(st: PoolState, at: u64, pages: int, tag: u32) -> PoolState {
    PoolState {
        live: st.live.push(PoolBlock { at, size: (pages * 4096) as u64, tag, large: true, tail: false }),
        bytes: st.bytes + pages * 4096,
        allocations: st.allocations + 1,
        ..st
    }
}

/// The block in use whose payload starts at `ptr`.
pub open spec fn live_index(live: Seq<PoolBlock>, ptr: u64, from: int) -> Option<int>
    decreases live.len() - from,
{
    if from < 0 || from >= live.len() {
        None
    } else if live[from].at + 16 == ptr {
        Some(from)
    } else {
        live_index(live, ptr, from + 1)
    }
}

/// The state after block `k` in use has been freed.
pub open spec fn release_block(st: PoolState, k: int) -> PoolState {
    let b = st.live[k];
    PoolState {
        free: if b.large {
            st.free
        } else {
            with_freed(st.free, b)
        },
        live: st.live.remove(k),
        bytes: st.bytes - b.size,
        allocations: st.allocations,
        frees: st.frees + 1,
    }
}

proof fn lemma_total_remove(s: Seq<PoolBlock>, k: int)
    requires
        0 <= k < s.len(),
    ensures
        total_size(s.remove(k)) == total_size(s) - s[k].size,
    decreases s.len(),
{
    if k == s.len() - 1 {
        assert(s.remove(k) =~= s.drop_last());
    } else {
        let r = s.remove(k);
        assert(r.drop_last() =~= s.drop_last().remove(k));
        assert(r.last() == s.last());
        lemma_total_remove(s.drop_last(), k);
    }
}

proof fn lemma_total_nonnegative(s: Seq<PoolBlock>)
    ensures
        total_size(s) >= 0,
    decreases s.len(),
{
    if s.len() > 0 {
        lemma_total_nonnegative(s.drop_last());
    }
}

/// Disjoint blocks below `top` add up to at most `top`.
proof fn lemma_total_bounded(s: Seq<PoolBlock>, top: int)
    requires
        apart(s),
        0 <= top,
        forall|i: int|
            0 <= i < s.len() ==> 0 < (#[trigger] s[i]).size && s[i].at + s[i].size <= top,
    ensures
        total_size(s) <= top,
    decreases s.len(),
{
    if s.len() > 0 {
        let m = highest(s);
        lemma_highest(s);
        let r = s.remove(m);
        assert forall|i: int| 0 <= i < r.len() implies 0 < (#[trigger] r[i]).size && r[i].at
            + r[i].size <= s[m].at by {
            let k = if i < m {
                i
            } else {
                i + 1
            };
            assert(r[i] == s[k]);
            assert(disjoint(s[k], s[m]));
            assert(s[k].at <= s[m].at);
        }
        assert(apart(r)) by {
            assert forall|i: int, j: int|
                0 <= i < r.len() && 0 <= j < r.len() && i != j implies #[trigger] disjoint(
                r[i],
                r[j],
            ) by {
                let ki = if i < m {
                    i
                } else {
                    i + 1
                };
                let kj = if j < m {
                    j
                } else {
                    j + 1
                };
                assert(disjoint(s[ki], s[kj]));
            }
        }
        lemma_total_bounded(r, s[m].at as int);
        lemma_total_remove(s, m);
    }
}

/// Index of a block with the highest address.
spec fn highest(s: Seq<PoolBlock>) -> int
    decreases s.len(),
{
    if s.len() <= 1 {
        0
    } else {
        let h = highest(s.drop_last());
        if s[h].at >= s.last().at {
            h
        } else {
            s.len() - 1
        }
    }
}

proof fn lemma_highest(s: Seq<PoolBlock>)
    requires
        s.len() > 0,
    ensures
        0 <= highest(s) < s.len(),
        forall|i: int| 0 <= i < s.len() ==> (#[trigger] s[i]).at <= s[highest(s)].at,
    decreases s.len(),
{
    if s.len() > 1 {
        let init = s.drop_last();
        lemma_highest(init);
        let h = highest(init);
        assert(init[h] == s[h]);
        assert forall|i: int| 0 <= i < s.len() implies (#[trigger] s[i]).at
            <= s[highest(s)].at by {
            if i < init.len() {
                assert(init[i].at <= init[h].at);
            }
        }
    }
}

proof fn lemma_fit(free: Seq<PoolBlock>, want: int, from: int)
    requires
        0 <= from,
    ensures
        fit(free, want, from) matches Some(k) ==> from <= k < free.len() && free[k].size >= want,
    decreases free.len() - from,
{
    if from < free.len() && free[from].size < want {
        lemma_fit(free, want, from + 1);
    }
}

proof fn lemma_live_index(live: Seq<PoolBlock>, ptr: u64, from: int)
    requires
        0 <= from,
    ensures
        live_index(live, ptr, from) matches Some(k) ==> from <= k < live.len() && live[k].at + 16
            == ptr,
    decreases live.len() - from,
{
    if from < live.len() && live[from].at + 16 != ptr {
        lemma_live_index(live, ptr, from + 1);
    }
}

/// Any part of a sound block is in frames that are in use.
proof fn lemma_part(bits: Seq<bool>, b: PoolBlock, c: PoolBlock)
    requires
        sound_block(bits, b),
        b.at <= c.at,
        c.at + c.size <= b.at + b.size,
        c.at % 16 == 0,
        c.size % 16 == 0,
        c.size >= 32,
        !c.large,
    ensures
        sound_block(bits, c),
{
    assert forall|f: int|
        c.at < (f + 1) * 4096 && f * 4096 < c.at + c.size implies #[trigger] bits[f] by {
        assert(b.at < (f + 1) * 4096 && f * 4096 < b.at + b.size);
    }
}

/// Taking a block keeps the pool sound.
proof fn lemma_take(st: PoolState, bits: Seq<bool>, k: int, want: int, tag: u32)
    requires
        pool_sound(st, bits),
        0 <= k < st.free.len(),
        st.free[k].size >= want,
        want >= 32,
        want % 16 == 0,
        bits.len() * 4096 <= u64::MAX,
    ensures
        pool_sound(take_block(st, k, want, tag), bits),
{
    let b = st.free[k];
    let r = take_block(st, k, want, tag);
    let n = taken_size(b, want);
    let used = PoolBlock {
        at: b.at,
        size: n as u64,
        tag,
        large: false,
        tail: b.tail && b.size - want < 32,
    };
    let rest = PoolBlock {
        at: (b.at + want) as u64,
        size: (b.size - want) as u64,
        tag: 0,
        large: false,
        tail: b.tail,
    };
    let split = b.size - want >= 32;
    assert(sound_block(bits, b));
    assert(b.at + b.size <= bits.len() * 4096);
    assert(!b.large);
    lemma_part(bits, b, used);
    if split {
        lemma_part(bits, b, rest);
    }
    assert(r.live.drop_last() =~= st.live);
    assert forall|i: int| 0 <= i < r.live.len() implies #[trigger] sound_block(
        bits,
        r.live[i],
    ) by {
        if i < st.live.len() {
            assert(sound_block(bits, st.live[i]));
        }
    }
    let old_of = |i: int|
        if split || i < k {
            i
        } else {
            i + 1
        };
    assert forall|i: int| 0 <= i < r.free.len() implies #[trigger] sound_block(bits, r.free[i])
        && !r.free[i].large && (r.free[i] == st.free[old_of(i)] || (split && i == k && r.free[i]
        == rest)) by {
        assert(sound_block(bits, st.free[old_of(i)]));
    }
    assert forall|i: int, j: int|
        0 <= i < r.free.len() && 0 <= j < r.free.len() && i != j implies #[trigger] disjoint(
        r.free[i],
        r.free[j],
    ) by {
        assert(sound_block(bits, r.free[i]) && sound_block(bits, r.free[j]));
        assert(disjoint(st.free[old_of(i)], st.free[old_of(j)]));
    }
    assert forall|i: int, j: int|
        0 <= i < r.live.len() && 0 <= j < r.live.len() && i != j implies #[trigger] disjoint(
        r.live[i],
        r.live[j],
    ) by {
        if i < st.live.len() && j < st.live.len() {
            assert(disjoint(st.live[i], st.live[j]));
        } else if i < st.live.len() {
            assert(disjoint(st.free[k], st.live[i]));
        } else {
            assert(disjoint(st.free[k], st.live[j]));
        }
    }
    assert forall|i: int, j: int|
        0 <= i < r.free.len() && 0 <= j < r.live.len() implies #[trigger] disjoint(
        r.free[i],
        r.live[j],
    ) by {
        assert(sound_block(bits, r.free[i]));
        if j < st.live.len() {
            assert(disjoint(st.free[old_of(i)], st.live[j]));
        } else if !(split && i == k) {
            assert(disjoint(st.free[old_of(i)], st.free[k]));
        }
    }
}

/// Pushing a range that no block touches keeps the pool sound.
proof fn lemma_with_free(st: PoolState, bits: Seq<bool>, at: u64, size: u64, tail: bool)
    requires
        pool_sound(st, bits),
        sound_block(bits, free_block(at, size, tail)),
        forall|i: int|
            0 <= i < st.free.len() ==> #[trigger] disjoint(
                free_block(at, size, tail),
                st.free[i],
            ),
        forall|i: int|
            0 <= i < st.live.len() ==> #[trigger] disjoint(
                free_block(at, size, tail),
                st.live[i],
            ),
    ensures
        pool_sound(with_free(st, at, size, tail), bits),
{
    let b = free_block(at, size, tail);
    let r = with_free(st, at, size, tail);
    assert forall|i: int| 0 <= i < r.free.len() implies #[trigger] sound_block(bits, r.free[i])
        && !r.free[i].large by {
        if i > 0 {
            assert(sound_block(bits, st.free[i - 1]));
        }
    }
    assert forall|i: int, j: int|
        0 <= i < r.free.len() && 0 <= j < r.free.len() && i != j implies #[trigger] disjoint(
        r.free[i],
        r.free[j],
    ) by {
        if i > 0 && j > 0 {
            assert(disjoint(st.free[i - 1], st.free[j - 1]));
        } else if i > 0 {
            assert(disjoint(b, st.free[i - 1]));
        } else {
            assert(disjoint(b, st.free[j - 1]));
        }
    }
    assert forall|i: int, j: int|
        0 <= i < r.free.len() && 0 <= j < r.live.len() implies #[trigger] disjoint(
        r.free[i],
        r.live[j],
    ) by {
        if i > 0 {
            assert(disjoint(st.free[i - 1], st.live[j]));
        } else {
            assert(disjoint(b, st.live[j]));
        }
    }
}

/// Frames that were free hold no block.
proof fn lemma_fresh_frames(st: PoolState, bits: Seq<bool>, first: int, n: int, b: PoolBlock)
    requires
        pool_sound(st, bits),
        run_at(bits, 0, bits.len() as int, n, first),
        0 < n,
        0 < first,
        b.at == first * 4096,
        b.size == n * 4096,
    ensures
        pool_sound(st, with_range(bits, first, n, true)),
        sound_block(with_range(bits, first, n, true), b),
        forall|i: int| 0 <= i < st.free.len() ==> #[trigger] disjoint(b, st.free[i]),
        forall|i: int| 0 <= i < st.live.len() ==> #[trigger] disjoint(b, st.live[i]),
{
    let nb = with_range(bits, first, n, true);
    assert forall|c: PoolBlock| #[trigger] sound_block(bits, c) implies disjoint(b, c)
        && sound_block(nb, c) by {
        if !disjoint(b, c) {
            let f = if c.at >= b.at {
                c.at as int / 4096
            } else {
                first
            };
            assert(c.at < (f + 1) * 4096 && f * 4096 < c.at + c.size);
            assert(bits[f]);
            assert(first <= f < first + n);
        }
        assert forall|f: int|
            c.at < (f + 1) * 4096 && f * 4096 < c.at + c.size implies #[trigger] nb[f] by {
            assert(bits[f]);
            assert(0 <= f < bits.len());
        }
    }
    assert forall|i: int| 0 <= i < st.free.len() implies #[trigger] disjoint(b, st.free[i]) by {
        assert(sound_block(bits, st.free[i]));
    }
    assert forall|i: int| 0 <= i < st.live.len() implies #[trigger] disjoint(b, st.live[i]) by {
        assert(sound_block(bits, st.live[i]));
    }
    assert forall|i: int| 0 <= i < st.free.len() implies #[trigger] sound_block(
        nb,
        st.free[i],
    ) by {
        assert(sound_block(bits, st.free[i]));
    }
    assert forall|i: int| 0 <= i < st.live.len() implies #[trigger] sound_block(
        nb,
        st.live[i],
    ) by {
        assert(sound_block(bits, st.live[i]));
    }
    assert forall|f: int|
        b.at < (f + 1) * 4096 && f * 4096 < b.at + b.size implies #[trigger] nb[f] by {
        assert(first <= f < first + n);
    }
}

/// A whole-page block on fresh frames keeps the pool sound.
proof fn lemma_with_large(st: PoolState, bits: Seq<bool>, first: int, n: int, tag: u32)
    requires
        pool_sound(st, bits),
        run_at(bits, 0, bits.len() as int, n, first),
        0 < n,
        0 < first,
        bits.len() * 4096 <= u64::MAX,
    ensures
        pool_sound(
            with_large(st, (first * 4096) as u64, n, tag),
            with_range(bits, first, n, true),
        ),
{
    let nb = with_range(bits, first, n, true);
    let b = PoolBlock {
        at: (first * 4096) as u64,
        size: (n * 4096) as u64,
        tag,
        large: true,
        tail: false,
    };
    lemma_fresh_frames(st, bits, first, n, b);
    let r = with_large(st, (first * 4096) as u64, n, tag);
    assert(r.live.drop_last() =~= st.live);
    assert forall|i: int| 0 <= i < r.live.len() implies #[trigger] sound_block(nb, r.live[i]) by {
        if i < st.live.len() {
            assert(sound_block(nb, st.live[i]));
        }
    }
    assert forall|i: int, j: int|
        0 <= i < r.live.len() && 0 <= j < r.live.len() && i != j implies #[trigger] disjoint(
        r.live[i],
        r.live[j],
    ) by {
        if i < st.live.len() && j < st.live.len() {
            assert(disjoint(st.live[i], st.live[j]));
        } else if i < st.live.len() {
            assert(disjoint(b, st.live[i]));
        } else {
            assert(disjoint(b, st.live[j]));
        }
    }
    assert forall|i: int, j: int|
        0 <= i < r.free.len() && 0 <= j < r.live.len() implies #[trigger] disjoint(
        r.free[i],
        r.live[j],
    ) by {
        if j < st.live.len() {
            assert(disjoint(st.free[i], st.live[j]));
        } else {
            assert(disjoint(b, st.free[i]));
        }
    }
}

proof fn lemma_follower(free: Seq<PoolBlock>, end: int, from: int)
    requires
        0 <= from,
    ensures
        match follower(free, end, from) {
            Some(j) => from <= j < free.len() && free[j].at == end && free[j].tail,
            None => forall|j: int|
                from <= j < free.len() ==> !((#[trigger] free[j]).at == end && free[j].tail),
        },
    decreases free.len() - from,
{
    if from < free.len() && !(free[from].at == end && free[from].tail) {
        lemma_follower(free, end, from + 1);
    }
}

/// Two blocks that touch make one, apart from all that both were apart from.
proof fn lemma_join(bits: Seq<bool>, b: PoolBlock, f: PoolBlock, c: PoolBlock)
    requires
        sound_block(bits, b),
        sound_block(bits, f),
        b.at + b.size == f.at,
        c.at == b.at,
        c.size == b.size + f.size,
        !c.large,
    ensures
        sound_block(bits, c),
        forall|x: PoolBlock|
            x.size > 0 && disjoint(b, x) && disjoint(f, x) ==> #[trigger] disjoint(c, x),
{
    assert forall|g: int|
        c.at < (g + 1) * 4096 && g * 4096 < c.at + c.size implies #[trigger] bits[g] by {
        if g * 4096 < b.at + b.size {
            assert(b.at < (g + 1) * 4096);
        } else {
            assert(f.at < (g + 1) * 4096 && g * 4096 < f.at + f.size);
        }
    }
}

/// A range that no block touches, joined with the free block behind it, keeps the pool
/// sound.
proof fn lemma_joined(st: PoolState, bits: Seq<bool>, b: PoolBlock, j: int)
    requires
        pool_sound(st, bits),
        sound_block(bits, b),
        bits.len() * 4096 <= u64::MAX,
        joined(st.free, b) == Some(j),
        forall|i: int|
            0 <= i < st.free.len() ==> #[trigger] disjoint(
                free_block(b.at, b.size, b.tail),
                st.free[i],
            ),
        forall|i: int|
            0 <= i < st.live.len() ==> #[trigger] disjoint(
                free_block(b.at, b.size, b.tail),
                st.live[i],
            ),
    ensures
        0 <= j < st.free.len(),
        pool_sound(
            with_free(
                PoolState { free: st.free.remove(j), ..st },
                b.at,
                (b.size + st.free[j].size) as u64,
                true,
            ),
            bits,
        ),
{
    lemma_follower(st.free, b.at + b.size, 0);
    let f = st.free[j];
    let less = PoolState { free: st.free.remove(j), ..st };
    let size = (b.size + f.size) as u64;
    let c = free_block(b.at, size, true);
    let a = free_block(b.at, b.size, b.tail);
    assert(sound_block(bits, f));
    lemma_join(bits, b, f, c);
    let old_of = |i: int|
        if i < j {
            i
        } else {
            i + 1
        };
    assert forall|i: int| 0 <= i < less.free.len() implies #[trigger] sound_block(
        bits,
        less.free[i],
    ) && !less.free[i].large by {
        assert(sound_block(bits, st.free[old_of(i)]));
    }
    assert forall|i: int, k: int|
        0 <= i < less.free.len() && 0 <= k < less.free.len() && i != k implies #[trigger] disjoint(
        less.free[i],
        less.free[k],
    ) by {
        assert(disjoint(st.free[old_of(i)], st.free[old_of(k)]));
    }
    assert forall|i: int, k: int|
        0 <= i < less.free.len() && 0 <= k < less.live.len() implies #[trigger] disjoint(
        less.free[i],
        less.live[k],
    ) by {
        assert(disjoint(st.free[old_of(i)], st.live[k]));
    }
    assert forall|i: int| 0 <= i < less.free.len() implies #[trigger] disjoint(
        c,
        less.free[i],
    ) by {
        assert(sound_block(bits, less.free[i]));
        assert(disjoint(a, st.free[old_of(i)]));
        assert(disjoint(f, st.free[old_of(i)]));
    }
    assert forall|i: int| 0 <= i < less.live.len() implies #[trigger] disjoint(
        c,
        less.live[i],
    ) by {
        assert(sound_block(bits, st.live[i]));
        assert(disjoint(a, st.live[i]));
        assert(disjoint(st.free[j], st.live[i]));
    }
    lemma_with_free(less, bits, b.at, size, true);
}

/// Freeing a block keeps the pool sound, also after a large block's frames have
/// gone back.
proof fn lemma_release(st: PoolState, bits: Seq<bool>, k: int)
    requires
        pool_sound(st, bits),
        bits.len() * 4096 <= u64::MAX,
        0 <= k < st.live.len(),
    ensures
        !st.live[k].large ==> pool_sound(release_block(st, k), bits),
        st.live[k].large ==> pool_sound(
            release_block(st, k),
            with_range(bits, st.live[k].at as int / 4096, st.live[k].size as int / 4096, false),
        ),
        st.live[k].large ==> forall|f: int|
            st.live[k].at as int / 4096 <= f < st.live[k].at as int / 4096 + st.live[k].size as int
                / 4096 ==> #[trigger] bits[f],
        total_size(st.live) >= st.live[k].size,
{
    let b = st.live[k];
    let live = st.live.remove(k);
    assert(sound_block(bits, b));
    lemma_total_remove(st.live, k);
    lemma_total_nonnegative(live);
    let first = b.at as int / 4096;
    let n = b.size as int / 4096;
    let nb = if b.large {
        with_range(bits, first, n, false)
    } else {
        bits
    };
    let old_of = |i: int|
        if i < k {
            i
        } else {
            i + 1
        };
    assert forall|c: PoolBlock| #[trigger] sound_block(bits, c) && disjoint(b, c) implies
        sound_block(nb, c) by {
        assert forall|f: int|
            c.at < (f + 1) * 4096 && f * 4096 < c.at + c.size implies #[trigger] nb[f] by {
            assert(bits[f]);
            assert(0 <= f < bits.len());
            if b.large {
                assert(!(first <= f < first + n));
            }
        }
    }
    assert forall|i: int| 0 <= i < live.len() implies #[trigger] sound_block(nb, live[i]) && disjoint(
        live[i],
        b,
    ) by {
        assert(live[i] == st.live[old_of(i)]);
        assert(sound_block(bits, st.live[old_of(i)]));
        assert(disjoint(st.live[old_of(i)], st.live[k]));
    }
    assert forall|i: int| 0 <= i < st.free.len() implies #[trigger] sound_block(nb, st.free[i])
        && disjoint(st.free[i], b) by {
        assert(sound_block(bits, st.free[i]));
        assert(disjoint(st.free[i], st.live[k]));
    }
    assert forall|i: int, j: int|
        0 <= i < live.len() && 0 <= j < live.len() && i != j implies #[trigger] disjoint(
        live[i],
        live[j],
    ) by {
        assert(disjoint(st.live[old_of(i)], st.live[old_of(j)]));
    }
    assert forall|i: int, j: int|
        0 <= i < st.free.len() && 0 <= j < live.len() implies #[trigger] disjoint(
        st.free[i],
        live[j],
    ) by {
        assert(disjoint(st.free[i], st.live[old_of(j)]));
    }
    if b.large {
        assert forall|f: int| first <= f < first + n implies #[trigger] bits[f] by {
            assert(b.at < (f + 1) * 4096 && f * 4096 < b.at + b.size);
        }
    } else {
        let mid = PoolState {
            live,
            bytes: st.bytes - b.size,
            frees: st.frees + 1,
            ..st
        };
        assert(pool_sound(mid, bits));
        let c = free_block(b.at, b.size, b.tail);
        assert(sound_block(bits, c)) by {
            lemma_part(bits, b, c);
        }
        assert forall|i: int| 0 <= i < mid.free.len() implies #[trigger] disjoint(
            c,
            mid.free[i],
        ) by {
            assert(disjoint(st.free[i], b));
        }
        assert forall|i: int| 0 <= i < mid.live.len() implies #[trigger] disjoint(
            c,
            mid.live[i],
        ) by {
            assert(disjoint(live[i], b));
        }
        match joined(st.free, b) {
            None => {
                lemma_with_free(mid, bits, b.at, b.size, b.tail);
                assert(with_free(mid, b.at, b.size, b.tail) =~= release_block(st, k));
            },
            Some(j) => {
                lemma_joined(mid, bits, b, j);
                let size = (b.size + st.free[j].size) as u64;
                let less = PoolState { free: mid.free.remove(j), ..mid };
                assert(with_free(less, b.at, size, true) =~= release_block(st, k));
            },
        }
    }
}

impl Pool {
    /// The pool and the frame allocator below it are consistent.
    pub open spec fn wf(&self, memory: &PhysicalMemory) -> bool {
        &&& memory.wf()
        &&& pool_sound(self@, memory.bits())
    }

    /// A pool that owns nothing yet.
    pub fn new() -> (p: Self)
        ensures
            p@ == (PoolState {
                free: Seq::empty(),
                live: Seq::empty(),
                bytes: 0,
                allocations: 0,
                frees: 0,
            }),
            forall|bits: Seq<bool>| #[trigger] pool_sound(p@, bits),
    {
        Pool {
            free_list: Vec::new(),
            live: Vec::new(),
            bytes_in_use: 0,
            allocations: 0,
            frees: 0,
        }
    }

    /// First fit with split.
    fn take_first_fit(&mut self, memory: &PhysicalMemory, want: u64, tag: u32) -> (r: Option<u64>)
        requires
            old(self).wf(memory),
            32 <= want <= 0x1000,
            want % 16 == 0,
            old(self).allocations < u64::MAX,
        ensures
            final(self).wf(memory),
            match fit(old(self)@.free, want as int, 0) {
                Some(k) => {
                    &&& r == Some((old(self)@.free[k].at + 16) as u64)
                    &&& final(self)@ == take_block(old(self)@, k, want as int, tag)
                },
                None => r is None && final(self)@ == old(self)@,
            },
    {
        let ghost st = self@;
        let ghost bits = memory.bits();
        let mut k: usize = 0;
        while k < self.free_list.len() && self.free_list[k].size < want
            invariant
                k <= self.free_list@.len(),
                self@ == st,
                fit(st.free, want as int, 0) == fit(st.free, want as int, k as int),
            decreases self.free_list@.len() - k,
        {
            k = k + 1;
        }
        if k >= self.free_list.len() {
            return None;
        }
        let b: PoolBlock = self.free_list[k];
        let ram_len: usize = memory.ram.len();
        proof {
            lemma_take(st, bits, k as int, want as int, tag);
            let after = take_block(st, k as int, want as int, tag);
            assert(sound_block(bits, b)) by {
                assert(sound_block(bits, st.free[k as int]));
            }
            assert(bits.len() * 4096 <= memory.ram.len());
            assert forall|i: int| 0 <= i < after.live.len() implies 0 < (
            #[trigger] after.live[i]).size && after.live[i].at + after.live[i].size <= bits.len()
                * 4096 by {
                assert(sound_block(bits, after.live[i]));
            }
            lemma_total_bounded(after.live, (bits.len() * 4096) as int);
            lemma_total_nonnegative(st.live);
        }
        let leftover: u64 = b.size - want;
        let size: u64 = if leftover >= 32 {
            self.free_list.set(
                k,
                PoolBlock {
                    at: b.at + want,
                    size: leftover,
                    tag: 0,
                    large: false,
                    tail: b.tail,
                },
            );
            want
        } else {
            let whole = self.free_list.remove(k);
            b.size
        };
        self.live.push(
            PoolBlock { at: b.at, size, tag, large: false, tail: b.tail && leftover < 32 },
        );
        self.bytes_in_use = self.bytes_in_use + size;
        self.allocations = self.allocations + 1;
        assert(self@ =~= take_block(st, k as int, want as int, tag));
        Some(b.at + 16)
    }

    /// The free block that a block in use joins when it is freed.
    fn find_joined(&self, b: PoolBlock) -> (r: Option<usize>)
        requires
            b.at + b.size <= u64::MAX,
        ensures
            match r {
                Some(j) => joined(self@.free, b) == Some(j as int) && j < self.free_list@.len(),
                None => joined(self@.free, b) is None,
            },
    {
        if b.tail {
            return None;
        }
        let end: u64 = b.at + b.size;
        let mut j: usize = 0;
        while j < self.free_list.len()
            invariant
                j <= self.free_list@.len(),
                !b.tail,
                end == b.at + b.size,
                follower(self@.free, end as int, 0) == follower(self@.free, end as int, j as int),
            decreases self.free_list@.len() - j,
        {
            if self.free_list[j].at == end && self.free_list[j].tail {
                return Some(j);
            }
            j = j + 1;
        }
        None
    }

    /// The index of the block whose payload starts at `ptr`.
    fn find_live(&self, ptr: u64) -> (r: Option<usize>)
        requires
            forall|i: int| 0 <= i < self.live@.len() ==> (#[trigger] self.live@[i]).at <= u64::MAX - 16,
        ensures
            match r {
                Some(k) => live_index(self@.live, ptr, 0) == Some(k as int) && k < self.live@.len(),
                None => live_index(self@.live, ptr, 0) is None,
            },
    {
        let mut k: usize = 0;
        while k < self.live.len()
            invariant
                k <= self.live@.len(),
                live_index(self@.live, ptr, 0) == live_index(self@.live, ptr, k as int),
                forall|i: int|
                    0 <= i < self.live@.len() ==> (#[trigger] self.live@[i]).at <= u64::MAX - 16,
            decreases self.live@.len() - k,
        {
            if self.live[k].at + 16 == ptr {
                return Some(k);
            }
            k = k + 1;
        }
        None
    }
}

/// Push a raw range onto the free list as one block.
fn free_block_insert(pool: &mut Pool, at: u64, size: u64, tail: bool)
    ensures
        final(pool)@ == with_free(old(pool)@, at, size, tail),
{
    pool.free_list.insert(0, PoolBlock { at, size, tag: 0, large: false, tail });
    assert(pool@ =~= with_free(old(pool)@, at, size, tail));
}

/// An allocation: the pool and memory after it, and the address of the payload.
/// Nothing for an empty request. A request of about a page and more takes whole
/// pages; a smaller one the first fit of the free list, which gets a fresh slab
/// in front when nothing fits.
pub open spec fn allocated(st: PoolState, mem: PhysState, payload: int, tag: u32) -> (
    PoolState,
    PhysState,
    Option<u64>,
) {
    let want = block_size(payload);
    if payload == 0 {
        (st, mem, None)
    } else if payload >= LARGE_THRESHOLD {
        match alloc_pages(mem, large_pages(payload)) {
            (m1, Some(pa)) => (
                with_large(st, pa, large_pages(payload), tag),
                m1,
                Some((pa + 16) as u64),
            ),
            (m1, None) => (st, m1, None),
        }
    } else {
        match fit(st.free, want, 0) {
            Some(k) => (
                take_block(st, k, want, tag),
                mem,
                Some((st.free[k].at + 16) as u64),
            ),
            None => match alloc_pages(mem, SLAB_PAGES as int) {
                (m1, Some(pa)) => (
                    take_block(with_free(st, pa, 0x1_0000, true), 0, want, tag),
                    m1,
                    Some((pa + 16) as u64),
                ),
                (m1, None) => (st, m1, None),
            },
        }
    }
}

/// `ExAllocatePoolWithTag`: allocate a block and return the address of its
/// payload. `None` for an empty request and when memory is exhausted.
pub fn pool_alloc(pool: &mut Pool, memory: &mut PhysicalMemory, payload: usize, tag: u32) -> (r:
    Option<u64>)
    requires
        old(pool).wf(old(memory)),
        old(pool).allocations < u64::MAX,
    ensures
        final(pool).wf(final(memory)),
        keeps_frames(old(memory)@, final(memory)@),
        (final(pool)@, final(memory)@, r) == allocated(
            old(pool)@,
            old(memory)@,
            payload as int,
            tag,
        ),
{
    let ghost st = pool@;
    let ghost bits = memory.bits();
    let ram_len: usize = memory.ram.len();
    if payload == 0 {
        return None;
    }
    if payload >= LARGE_THRESHOLD {
        let ghost n = large_pages(payload as int);
        if payload > usize::MAX - 4111 {
            proof {
                assert(n * 4096 >= payload + 16);
                assert(bits.len() * 4096 <= ram_len);
                assert(n * 4096 > bits.len() * 4096) by {
                    assert(n * 4096 + 4095 > usize::MAX);
                    assert(payload + 16 > usize::MAX - 4095);
                }
            }
            return None;
        }
        let pages: usize = (payload + 4111) / 4096;
        let pa: PhysAddr = match mm_allocate_contiguous_pages(memory, pages) {
            Some(p) => p,
            None => {
                return None;
            },
        };
        proof {
            let first = pa.0 as int / 4096;
            lemma_with_large(st, bits, first, n, tag);
            let after = with_large(st, pa.0, n, tag);
            let nb = memory.bits();
            assert forall|i: int| 0 <= i < after.live.len() implies 0 < (
            #[trigger] after.live[i]).size && after.live[i].at + after.live[i].size <= nb.len()
                * 4096 by {
                assert(sound_block(nb, after.live[i]));
            }
            lemma_total_bounded(after.live, (nb.len() * 4096) as int);
            lemma_total_nonnegative(st.live);
        }
        let size: u64 = pages as u64 * 4096;
        pool.live.push(PoolBlock { at: pa.0, size, tag, large: true, tail: false });
        pool.bytes_in_use = pool.bytes_in_use + size;
        pool.allocations = pool.allocations + 1;
        assert(pool@ =~= with_large(st, pa.0, n, tag));
        return Some(pa.0 + 16);
    }
    let want: u64 = block_size_for(payload) as u64;
    match pool.take_first_fit(memory, want, tag) {
        Some(ptr) => {
            return Some(ptr);
        },
        None => {},
    }
    let pa: PhysAddr = match mm_allocate_contiguous_pages(memory, SLAB_PAGES) {
        Some(p) => p,
        None => {
            return None;
        },
    };
    proof {
        let first = pa.0 as int / 4096;
        let b = free_block(pa.0, 0x1_0000, true);
        lemma_fresh_frames(st, bits, first, 16, b);
        lemma_with_free(st, memory.bits(), pa.0, 0x1_0000, true);
    }
    free_block_insert(pool, pa.0, 0x1_0000, true);
    assert(fit(pool@.free, want as int, 0) == Some(0int));
    pool.take_first_fit(memory, want, tag)
}

/// Memory after a block has been returned: the frames of a large one are freed.
pub open spec fn release_frames(m: PhysState, b: PoolBlock) -> PhysState {
    if b.large {
        free_pages(m, b.at, b.size as int / 4096)
    } else {
        m
    }
}

/// `ExFreePoolWithTag`: return a block. The tag is the one it was allocated
/// with; a null pointer is ignored.
pub fn pool_free(pool: &mut Pool, memory: &mut PhysicalMemory, ptr: u64, tag: u32)
    requires
        old(pool).wf(old(memory)),
        ptr != 0 ==> {
            let k = live_index(old(pool)@.live, ptr, 0);
            k is Some && old(pool)@.live[k->0].tag == tag
        },
    ensures
        final(pool).wf(final(memory)),
        ptr == 0 ==> final(pool)@ == old(pool)@ && final(memory)@ == old(memory)@,
        ptr != 0 ==> {
            let k = live_index(old(pool)@.live, ptr, 0)->0;
            &&& final(pool)@ == release_block(old(pool)@, k)
            &&& final(memory)@ == release_frames(old(memory)@, old(pool)@.live[k])
        },
{
    if ptr == 0 {
        return ;
    }
    pool_free_any(pool, memory, ptr);
}

/// `ExFreePool`: return a block whatever its tag.
pub fn pool_free_any(pool: &mut Pool, memory: &mut PhysicalMemory, ptr: u64)
    requires
        old(pool).wf(old(memory)),
        ptr != 0 ==> live_index(old(pool)@.live, ptr, 0) is Some,
    ensures
        final(pool).wf(final(memory)),
        ptr == 0 ==> final(pool)@ == old(pool)@ && final(memory)@ == old(memory)@,
        ptr != 0 ==> {
            let k = live_index(old(pool)@.live, ptr, 0)->0;
            &&& final(pool)@ == release_block(old(pool)@, k)
            &&& final(memory)@ == release_frames(old(memory)@, old(pool)@.live[k])
        },
{
    if ptr == 0 {
        return ;
    }
    let ghost st = pool@;
    let ghost bits = memory.bits();
    let ram_len: usize = memory.ram.len();
    proof {
        assert forall|i: int| 0 <= i < st.live.len() implies (#[trigger] st.live[i]).at <= u64::MAX
            - 16 by {
            assert(sound_block(bits, st.live[i]));
        }
    }
    let k: usize = match pool.find_live(ptr) {
        Some(k) => k,
        None => {
            return ;
        },
    };
    let b: PoolBlock = pool.live[k];
    proof {
        assert(sound_block(bits, st.live[k as int]));
        lemma_release(st, bits, k as int);
    }
    pool.bytes_in_use = pool.bytes_in_use - b.size;
    pool.frees = pool.frees + 1;
    let gone = pool.live.remove(k);
    if b.large {
        let pages: usize = (b.size / 4096) as usize;
        mm_free_contiguous_pages(memory, PhysAddr(b.at), pages);
        assert(pool@ =~= release_block(st, k as int));
    } else {
        match pool.find_joined(b) {
            None => {
                free_block_insert(pool, b.at, b.size, b.tail);
            },
            Some(j) => {
                proof {
                    lemma_follower(st.free, b.at + b.size, 0);
                    assert(sound_block(bits, st.free[j as int]));
                }
                let rest: PoolBlock = pool.free_list.remove(j);
                free_block_insert(pool, b.at, b.size + rest.size, true);
            },
        }
        assert(pool@ =~= release_block(st, k as int));
    }
}

/// Bytes currently allocated, headers included.
pub fn pool_bytes_in_use(pool: &Pool) -> (n: u64)
    ensures
        n == pool@.bytes,
{
    pool.bytes_in_use
}

/// [`pool_alloc`] with a status for exhaustion.
pub fn pool_alloc_checked(
    pool: &mut Pool,
    memory: &mut PhysicalMemory,
    size: usize,
    tag: u32,
) -> (r: Result<u64, NtStatus>)
    requires
        old(pool).wf(old(memory)),
        old(pool).allocations < u64::MAX,
    ensures
        final(pool).wf(final(memory)),
        keeps_frames(old(memory)@, final(memory)@),
        ({
            let (p, m, ptr) = allocated(old(pool)@, old(memory)@, size as int, tag);
            &&& final(pool)@ == p
            &&& final(memory)@ == m
            &&& r == match ptr {
                Some(a) => Ok::<u64, NtStatus>(a),
                None => Err(NtStatus(NtStatus::INSUFFICIENT_RESOURCES)),
            }
        }),
{
    match pool_alloc(pool, memory, size, tag) {
        Some(p) => Ok(p),
        None => Err(NtStatus(NtStatus::INSUFFICIENT_RESOURCES)),
    }
}

/// Where an over-aligned request of the language runtime is placed in a raw
/// block: past one pointer-sized slot, which then lies right below it and holds
/// the raw pointer. The raw block is `align + 8` bytes larger than the request.
pub fn over_aligned(raw: u64, align: u64) -> (p: u64)
    requires
        0 < align,
        raw + 8 + align <= u64::MAX,
    ensures
        p % align == 0,
        raw + 8 <= p < raw + 8 + align,
{
    let payload: u64 = raw + 8;
    let rem: u64 = payload % align;
    if rem == 0 {
        payload
    } else {
        proof {
            let p = payload + (align - rem);
            vstd::arithmetic::div_mod::lemma_fundamental_div_mod(payload as int, align as int);
            let q = payload as int / align as int;
            assert(p == (q + 1) * align) by (nonlinear_arith)
                requires
                    p == payload + (align - rem),
                    payload == align * q + rem,
            ;
            vstd::arithmetic::div_mod::lemma_mod_multiples_basic(q + 1, align as int);
        }
        payload + (align - rem)
    }
}

// ---------------------------------------------------------------------------
// Laws
// ---------------------------------------------------------------------------
/// A successful allocation adds one block, recorded last, with the tag and room
/// for the request past its header, inside installed memory; the blocks that
/// were in use stay as they were.
pub proof fn allocation_adds_one_block(
    st: PoolState,
    mem: PhysState,
    payload: int,
    tag: u32,
)
    requires
        pool_sound(st, mem.bits),
        mem.bits.len() * 4096 <= u64::MAX,
        0 <= mem.hint,
        payload >= 0,
    ensures
        ({
            let (p, m, ptr) = allocated(st, mem, payload, tag);
            match ptr {
                Some(a) => {
                    let b = p.live.last();
                    &&& p.live == st.live.push(b)
                    &&& b.at + 16 == a
                    &&& b.tag == tag
                    &&& b.size >= payload + 16
                    &&& b.at + b.size <= mem.bits.len() * 4096
                    &&& m.bits.len() == mem.bits.len()
                },
                None => p == st && m == mem,
            }
        }),
{
    let n = mem.bits.len() as int;
    let pages = if payload >= LARGE_THRESHOLD {
        large_pages(payload)
    } else {
        SLAB_PAGES as int
    };
    let want = block_size(payload);
    if exists|s: int| picks(mem.bits, pages, mem.hint, s) {
        let first = crate::mm::phys::picked(mem.bits, pages, mem.hint);
        assert(picks(mem.bits, pages, mem.hint, first));
        assert(run_at(mem.bits, 0, n, pages, first) || run_at(mem.bits, mem.hint, n, pages, first));
        assert(0 <= first && first + pages <= n);
    }
    lemma_fit(st.free, want, 0);
    match fit(st.free, want, 0) {
        Some(k) => {
            assert(sound_block(mem.bits, st.free[k]));
        },
        None => {},
    }
    let (p, m, ptr) = allocated(st, mem, payload, tag);
    if ptr is Some {
        assert(p.live =~= st.live.push(p.live.last()));
    }
}

/// A pool stays sound while its frames stay in use.
pub proof fn sound_while_frames_are_kept(st: PoolState, a: PhysState, b: PhysState)
    requires
        pool_sound(st, a.bits),
        keeps_frames(a, b),
    ensures
        pool_sound(st, b.bits),
{
    assert forall|c: PoolBlock| #[trigger] sound_block(a.bits, c) implies sound_block(b.bits, c) by {
        assert forall|f: int|
            c.at < (f + 1) * 4096 && f * 4096 < c.at + c.size implies #[trigger] b.bits[f] by {
            assert(0 <= f < a.bits.len());
            assert(a.bits[f]);
        }
    }
    assert forall|i: int| 0 <= i < st.free.len() implies #[trigger] sound_block(
        b.bits,
        st.free[i],
    ) by {
        assert(sound_block(a.bits, st.free[i]));
    }
    assert forall|i: int| 0 <= i < st.live.len() implies #[trigger] sound_block(
        b.bits,
        st.live[i],
    ) by {
        assert(sound_block(a.bits, st.live[i]));
    }
}

/// No two blocks in use ever share a byte, and none shares one with a free
/// block.
pub proof fn live_blocks_never_overlap(st: PoolState, bits: Seq<bool>, i: int, j: int)
    requires
        pool_sound(st, bits),
        0 <= i < st.live.len(),
        0 <= j < st.live.len(),
        i != j,
    ensures
        disjoint(st.live[i], st.live[j]),
        forall|k: int| 0 <= k < st.free.len() ==> disjoint(#[trigger] st.free[k], st.live[i]),
{
    assert forall|k: int| 0 <= k < st.free.len() implies disjoint(
        #[trigger] st.free[k],
        st.live[i],
    ) by {
        assert(disjoint(st.free[k], st.live[i]));
    }
}

/// Freeing what was just taken from the list gives back the same blocks in use
/// and the same count of bytes.
pub proof fn take_then_release_restores_use(st: PoolState, k: int, want: int, tag: u32)
    requires
        0 <= k < st.free.len(),
        32 <= want <= st.free[k].size,
    ensures
        ({
            let r = release_block(take_block(st, k, want, tag), st.live.len() as int);
            r.live == st.live && r.bytes == st.bytes
        }),
{
    let t = take_block(st, k, want, tag);
    assert(t.live.remove(st.live.len() as int) =~= st.live);
}

/// Freeing a block of a slab loses no byte: what was in use is now free.
pub proof fn release_conserves_bytes(st: PoolState, bits: Seq<bool>, k: int)
    requires
        pool_sound(st, bits),
        bits.len() * 4096 <= u64::MAX,
        0 <= k < st.live.len(),
        !st.live[k].large,
    ensures
        ({
            let r = release_block(st, k);
            total_size(r.free) + total_size(r.live) == total_size(st.free) + total_size(st.live)
        }),
{
    let b = st.live[k];
    let r = release_block(st, k);
    lemma_total_remove(st.live, k);
    lemma_follower(st.free, b.at + b.size, 0);
    assert(sound_block(bits, b));
    lemma_total_remove(r.free, 0);
    match joined(st.free, b) {
        None => {
            assert(r.free.remove(0) =~= st.free);
        },
        Some(j) => {
            assert(sound_block(bits, st.free[j]));
            lemma_total_remove(st.free, j);
            assert(r.free.remove(0) =~= st.free.remove(j));
        },
    }
}

/// A slab's rest gets back what it gave: a block that was split off it and is freed
/// again joins it, so that the same range is free as before.
pub proof fn the_rest_of_a_slab_grows_back(
    st: PoolState,
    bits: Seq<bool>,
    k: int,
    want: int,
    tag: u32,
)
    requires
        pool_sound(st, bits),
        bits.len() * 4096 <= u64::MAX,
        0 <= k < st.free.len(),
        st.free[k].tail,
        32 <= want,
        want + 32 <= st.free[k].size,
    ensures
        ({
            let r = release_block(take_block(st, k, want, tag), st.live.len() as int);
            r.free == seq![free_block(st.free[k].at, st.free[k].size, true)] + st.free.remove(k)
        }),
{
    let b = st.free[k];
    let t = take_block(st, k, want, tag);
    let used = t.live[st.live.len() as int];
    let end = b.at + want;
    assert(sound_block(bits, b));
    assert(t.free[k].at == end && t.free[k].tail);
    lemma_follower(t.free, end, 0);
    let j = follower(t.free, end, 0)->Some_0;
    if j != k {
        assert(disjoint(st.free[j], st.free[k]));
        assert(sound_block(bits, st.free[j]));
    }
    assert(t.free.remove(k) =~= st.free.remove(k));
    assert(joined(t.free, used) == Some(k));
}

/// Taking from the list and splitting loses no byte: what was free is now free
/// or in use.
pub proof fn take_conserves_bytes(st: PoolState, k: int, want: int, tag: u32)
    requires
        0 <= k < st.free.len(),
        32 <= want <= st.free[k].size,
        st.free[k].at + st.free[k].size <= u64::MAX,
    ensures
        ({
            let r = take_block(st, k, want, tag);
            total_size(r.free) + total_size(r.live) == total_size(st.free) + total_size(st.live)
        }),
{
    let r = take_block(st, k, want, tag);
    assert(r.live.drop_last() =~= st.live);
    lemma_total_remove(st.free, k);
    if st.free[k].size - want >= 32 {
        lemma_total_remove(r.free, k);
        assert(r.free.remove(k) =~= st.free.remove(k));
    }
}

/// A block holds its payload and a header of 16 bytes, in a multiple of 16.
pub proof fn a_block_holds_its_payload(payload: int)
    requires
        0 <= payload,
    ensures
        block_size(payload) % 16 == 0,
        payload + 16 <= block_size(payload) < payload + 32,
        large_pages(payload) * 4096 >= payload + 16,
        (large_pages(payload) - 1) * 4096 < payload + 16,
{
}

/// A block is split where 32 bytes or more are left over, and handed out whole where not.
pub proof fn a_block_is_split_where_enough_is_left(b: PoolBlock, want: int)
    requires
        0 < want <= b.size,
    ensures
        b.size - want >= 32 ==> taken_size(b, want) == want,
        b.size - want < 32 ==> taken_size(b, want) == b.size,
{
}

/// The first free block that is large enough is taken.
pub proof fn the_first_fit_is_taken(free: Seq<PoolBlock>, want: int, k: int, i: int)
    requires
        0 <= i <= k < free.len(),
        free[k].size >= want,
        forall|j: int| i <= j < k ==> (#[trigger] free[j]).size < want,
    ensures
        fit(free, want, i) == Some(k),
    decreases k - i,
{
    if i < k {
        assert(free[i].size < want);
        the_first_fit_is_taken(free, want, k, i + 1);
    }
}

/// Requests of 4080 bytes or more get pages of their own, smaller ones a block of a slab of
/// 64 KiB; a request for nothing gets nothing.
pub proof fn large_requests_get_their_own_pages(
    st: PoolState,
    mem: PhysState,
    payload: int,
    tag: u32,
)
    requires
        payload >= 0,
    ensures
        allocated(st, mem, 0, tag) == (st, mem, None::<u64>),
        payload >= 4080 && alloc_pages(mem, large_pages(payload)).1 is Some ==> {
            let (p, m, ptr) = allocated(st, mem, payload, tag);
            p.live.last().large && p.free == st.free && m == alloc_pages(mem, large_pages(payload)).0
                && ptr == Some((alloc_pages(mem, large_pages(payload)).1->0 + 16) as u64)
        },
        0 < payload < 4080 && fit(st.free, block_size(payload), 0) is Some ==> allocated(
            st,
            mem,
            payload,
            tag,
        ).1 == mem && !allocated(st, mem, payload, tag).0.live.last().large,
        0 < payload < 4080 && fit(st.free, block_size(payload), 0) is None ==> allocated(
            st,
            mem,
            payload,
            tag,
        ).1 == alloc_pages(mem, 16).0,
        0 < payload && allocated(st, mem, payload, tag).2 is None ==> allocated(
            st,
            mem,
            payload,
            tag,
        ).0 == st,
{
}

/// What is freed is found by its address, 16 bytes behind the start of its block.
pub proof fn a_block_is_found_by_its_address(live: Seq<PoolBlock>, ptr: u64)
    ensures
        match live_index(live, ptr, 0) {
            Some(k) => 0 <= k < live.len() && live[k].at + 16 == ptr,
            None => forall|k: int| 0 <= k < live.len() ==> (#[trigger] live[k]).at + 16 != ptr,
        },
{
    lemma_found_by_address(live, ptr, 0);
}

proof fn lemma_found_by_address(live: Seq<PoolBlock>, ptr: u64, i: int)
    requires
        0 <= i,
    ensures
        match live_index(live, ptr, i) {
            Some(k) => i <= k < live.len() && live[k].at + 16 == ptr,
            None => forall|k: int| i <= k < live.len() ==> (#[trigger] live[k]).at + 16 != ptr,
        },
    decreases live.len() - i,
{
    if i < live.len() && live[i].at + 16 != ptr {
        lemma_found_by_address(live, ptr, i + 1);
    }
}

/// Freeing a block takes it off the live ones and off the count of bytes, and counts one more
/// free; the frames of a large block go back, those of a small one stay with the pool.
pub proof fn a_freed_block_is_counted(st: PoolState, m: PhysState, k: int)
    requires
        pool_sound(st, m.bits),
        m.bits.len() * 4096 <= u64::MAX,
        0 <= k < st.live.len(),
    ensures
        release_block(st, k).live == st.live.remove(k),
        release_block(st, k).bytes == st.bytes - st.live[k].size,
        release_block(st, k).frees == st.frees + 1,
        release_block(st, k).allocations == st.allocations,
        st.live[k].large ==> release_block(st, k).free == st.free && release_frames(m, st.live[k])
            == free_pages(m, st.live[k].at, st.live[k].size as int / 4096),
        !st.live[k].large ==> release_block(st, k).free[0].at == st.live[k].at && release_block(
            st,
            k,
        ).free[0].size >= st.live[k].size && release_frames(m, st.live[k]) == m,
{
    let b = st.live[k];
    assert(sound_block(m.bits, b));
    if !b.large {
        lemma_follower(st.free, b.at + b.size, 0);
        if let Some(j) = joined(st.free, b) {
            assert(sound_block(m.bits, st.free[j]));
        }
    }
}

} // verus!
