//! What base relocation promises as a whole.
//!
//! The directory names addresses in the image; moving the image adds the displacement
//! to each. As long as no fix-up reaches into the directory and none overlaps another in
//! part, the order does not matter, and moving back undoes the move.
use crate::bytes::{
    bytes64, get16, get32, get64, in_bounds, lemma_bytes64, lemma_get64_in, lemma_get_put64,
    overlay, read16, read32,
};
use crate::ldr::pe::{
    add64, fixed_up, fixed_up_block, relocated, IMAGE_REL_BASED_ABSOLUTE, IMAGE_REL_BASED_DIR64,
};
use vstd::prelude::*;

verus! {

/// The addresses that the entries of one block from `i` on name; none when an entry
/// cannot be read or is of another kind.
pub open spec fn block_targets(img: Seq<u8>, at: int, page: int, i: int, n: int) -> Option<Seq<int>>
    decreases n - i,
{
    if i >= n {
        Some(Seq::empty())
    } else {
        match (read16(img, at + i * 2), block_targets(img, at, page, i + 1, n)) {
            (Some(e), Some(rest)) => if e / 0x1000 == IMAGE_REL_BASED_ABSOLUTE {
                Some(rest)
            } else if e / 0x1000 == IMAGE_REL_BASED_DIR64 {
                Some(seq![page + e % 0x1000] + rest)
            } else {
                None
            },
            _ => None,
        }
    }
}

/// The addresses that the directory `[off, end)` names, in order.
pub open spec fn targets(img: Seq<u8>, off: int, end: int) -> Option<Seq<int>>
    decreases end + 0x1_0000_0000 - off,
{
    if off + 8 > end {
        Some(Seq::empty())
    } else {
        match (read32(img, off), read32(img, off + 4)) {
            (Some(page), Some(size)) => if size < 8 {
                Some(Seq::empty())
            } else {
                match (
                    block_targets(img, off + 8, page as int, 0, (size - 8) / 2),
                    targets(img, off + size, end),
                ) {
                    (Some(a), Some(b)) => Some(a + b),
                    _ => None,
                }
            },
            _ => None,
        }
    }
}

/// How far the directory is read: to the end of its last block.
pub open spec fn read_to(img: Seq<u8>, off: int, end: int) -> int
    decreases end + 0x1_0000_0000 - off,
{
    if off + 8 > end {
        off
    } else {
        match (read32(img, off), read32(img, off + 4)) {
            (Some(page), Some(size)) => if size < 8 {
                off + 8
            } else {
                read_to(img, off + size, end)
            },
            _ => off + 8,
        }
    }
}

/// No address reaches into `[lo, hi)`.
pub open spec fn clear_of(ts: Seq<int>, lo: int, hi: int) -> bool {
    forall|k: int| 0 <= k < ts.len() ==> (#[trigger] ts[k]) + 8 <= lo || hi <= ts[k]
}

/// The word at `t` is one of the addresses or apart from it.
pub open spec fn whole(ts: Seq<int>, t: int) -> bool {
    forall|k: int| 0 <= k < ts.len() ==> (#[trigger] ts[k]) == t || ts[k] + 8 <= t || t + 8 <= ts[k]
}

/// No two addresses overlap in part.
pub open spec fn all_whole(ts: Seq<int>) -> bool {
    forall|k: int| 0 <= k < ts.len() ==> whole(ts, #[trigger] ts[k])
}

/// How often an address is named.
pub open spec fn times(ts: Seq<int>, t: int) -> int
    decreases ts.len(),
{
    if ts.len() == 0 {
        0
    } else {
        times(ts.skip(1), t) + if ts[0] == t {
            1int
        } else {
            0
        }
    }
}

/// The displacement added to the address at `t`.
#[verifier::opaque]
pub open spec fn bumped(img: Seq<u8>, t: int, delta: u64) -> Seq<u8> {
    overlay(img, t, bytes64(add64(get64(img, t) as u64, delta)))
}

/// The displacement added to one address after the other.
pub open spec fn moved(img: Seq<u8>, ts: Seq<int>, delta: u64) -> Option<Seq<u8>>
    decreases ts.len(),
{
    if ts.len() == 0 {
        Some(img)
    } else if !in_bounds(img, ts[0], 8) {
        None
    } else {
        moved(bumped(img, ts[0], delta), ts.skip(1), delta)
    }
}

/// What adding the displacement to one address does.
proof fn lemma_bumped(img: Seq<u8>, a: int, delta: u64)
    requires
        in_bounds(img, a, 8),
    ensures
        bumped(img, a, delta).len() == img.len(),
        get64(bumped(img, a, delta), a) == (get64(img, a) + delta) % 0x1_0000_0000_0000_0000,
        forall|i: int|
            0 <= i < img.len() && !(a <= i < a + 8) ==> #[trigger] bumped(img, a, delta)[i]
                == img[i],
{
    reveal(bumped);
    lemma_word_from_bytes(img, a);
    let v = add64(get64(img, a) as u64, delta);
    lemma_bytes64(v);
    lemma_get_put64(img, a, v);
}

/// A word apart from the address keeps its value.
proof fn lemma_bumped_apart(img: Seq<u8>, a: int, delta: u64, t: int)
    requires
        in_bounds(img, a, 8),
        in_bounds(img, t, 8),
        a + 8 <= t || t + 8 <= a,
    ensures
        get64(bumped(img, a, delta), t) == get64(img, t),
{
    lemma_bumped(img, a, delta);
    let next = bumped(img, a, delta);
    let w = img.subrange(t, t + 8);
    assert forall|k: int| 0 <= k < 8 implies next[t + k] == #[trigger] w[k] by {
        assert(next[t + k] == img[t + k]);
    }
    lemma_get64_in(img, t, w);
    lemma_get64_in(next, t, w);
}

/// The displacement back.
pub open spec fn negated(delta: u64) -> u64 {
    ((0 - delta) % 0x1_0000_0000_0000_0000) as u64
}

/// `x` with the displacement added `c` times.
pub open spec fn shifted(x: int, c: int, delta: u64) -> int {
    (x + c * delta) % 0x1_0000_0000_0000_0000
}

/// Two images agree on `[lo, hi)`.
spec fn agree(a: Seq<u8>, b: Seq<u8>, lo: int, hi: int) -> bool {
    a.len() == b.len() && forall|i: int|
        lo <= i < hi && 0 <= i < a.len() ==> #[trigger] a[i] == b[i]
}

proof fn lemma_times(ts: Seq<int>, t: int)
    ensures
        0 <= times(ts, t),
    decreases ts.len(),
{
    if ts.len() > 0 {
        lemma_times(ts.skip(1), t);
    }
}

proof fn lemma_word_from_bytes(a: Seq<u8>, t: int)
    requires
        in_bounds(a, t, 8),
    ensures
        0 <= get64(a, t) < 0x1_0000_0000_0000_0000,
        forall|b: Seq<u8>|
            #![trigger get64(b, t)]
            in_bounds(b, t, 8) && get64(b, t) == get64(a, t) ==> forall|k: int|
                0 <= k < 8 ==> #[trigger] b[t + k] == a[t + k],
{
    assert forall|b: Seq<u8>|
        #![trigger get64(b, t)]
        in_bounds(b, t, 8) && get64(b, t) == get64(a, t) implies forall|k: int|
        0 <= k < 8 ==> #[trigger] b[t + k] == a[t + k] by {
        assert(get32(b, t) == get32(a, t) && get32(b, t + 4) == get32(a, t + 4));
        assert(get16(b, t) == get16(a, t) && get16(b, t + 2) == get16(a, t + 2));
        assert(get16(b, t + 4) == get16(a, t + 4) && get16(b, t + 6) == get16(a, t + 6));
        assert(b[t + 0] == a[t + 0] && b[t + 1] == a[t + 1]);
        assert(b[t + 2] == a[t + 2] && b[t + 3] == a[t + 3]);
        assert(b[t + 4] == a[t + 4] && b[t + 5] == a[t + 5]);
        assert(b[t + 6] == a[t + 6] && b[t + 7] == a[t + 7]);
        assert forall|k: int| 0 <= k < 8 implies #[trigger] b[t + k] == a[t + k] by {
            assert(k == 0 || k == 1 || k == 2 || k == 3 || k == 4 || k == 5 || k == 6 || k == 7);
        }
    }
}

proof fn lemma_shift_once(x: int, c: int, delta: u64)
    ensures
        shifted((x + delta) % 0x1_0000_0000_0000_0000, c, delta) == shifted(x, c + 1, delta),
{
    let m = 0x1_0000_0000_0000_0000int;
    assert((c + 1) * delta == c * delta + delta) by (nonlinear_arith);
    vstd::arithmetic::div_mod::lemma_add_mod_noop_right(c * delta, x + delta, m);
}

proof fn lemma_shift_back(x: int, c: int, delta: u64)
    requires
        0 <= x < 0x1_0000_0000_0000_0000,
    ensures
        shifted(shifted(x, c, delta), c, negated(delta)) == x,
{
    let m = 0x1_0000_0000_0000_0000int;
    let b = negated(delta);
    vstd::arithmetic::div_mod::lemma_add_mod_noop_right(c * b, x + c * delta, m);
    if delta == 0 {
        assert(b == 0);
        assert(c * b == 0 && c * delta == 0) by (nonlinear_arith)
            requires
                b == 0,
                delta == 0,
        ;
    } else {
        assert(b == m - delta);
        assert(c * b + c * delta == c * m) by (nonlinear_arith)
            requires
                b == m - delta,
        ;
        vstd::arithmetic::div_mod::lemma_mod_multiples_vanish(c, x, m);
        assert(m * c == c * m) by (nonlinear_arith);
    }
}

/// What moving does: every word that the addresses leave whole has the displacement
/// added as often as it is named, and bytes that none of them holds stay.
proof fn lemma_moved(img: Seq<u8>, ts: Seq<int>, delta: u64, t: int, i: int)
    requires
        all_whole(ts),
        moved(img, ts, delta) is Some,
    ensures
        ({
            let r = moved(img, ts, delta)->Some_0;
            &&& r.len() == img.len()
            &&& in_bounds(img, t, 8) && whole(ts, t) ==> get64(r, t) == shifted(
                get64(img, t),
                times(ts, t),
                delta,
            )
            &&& 0 <= i < img.len() && clear_of(ts, i, i + 1) ==> r[i] == img[i]
            &&& forall|k: int| 0 <= k < ts.len() ==> in_bounds(img, #[trigger] ts[k], 8)
        }),
    decreases ts.len(),
{
    if ts.len() == 0 {
        if in_bounds(img, t, 8) {
            lemma_word_from_bytes(img, t);
            assert(0 * delta == 0) by (nonlinear_arith);
        }
    } else {
        let a = ts[0];
        let next = bumped(img, a, delta);
        let rest = ts.skip(1);
        lemma_bumped(img, a, delta);
        assert forall|k: int| 0 <= k < rest.len() implies whole(rest, #[trigger] rest[k]) by {
            assert(rest[k] == ts[k + 1]);
            assert(whole(ts, ts[k + 1]));
            assert forall|j: int| 0 <= j < rest.len() implies (#[trigger] rest[j]) == rest[k]
                || rest[j] + 8 <= rest[k] || rest[k] + 8 <= rest[j] by {
                assert(rest[j] == ts[j + 1]);
            }
        }
        lemma_moved(next, rest, delta, t, i);
        if in_bounds(img, t, 8) && whole(ts, t) {
            assert(whole(rest, t)) by {
                assert forall|j: int| 0 <= j < rest.len() implies (#[trigger] rest[j]) == t
                    || rest[j] + 8 <= t || t + 8 <= rest[j] by {
                    assert(rest[j] == ts[j + 1]);
                }
            }
            assert(ts[0] == t || ts[0] + 8 <= t || t + 8 <= ts[0]);
            if a == t {
                lemma_shift_once(get64(img, t), times(rest, t), delta);
            } else {
                lemma_bumped_apart(img, a, delta, t);
            }
        }
        if 0 <= i < img.len() && clear_of(ts, i, i + 1) {
            assert(ts[0] + 8 <= i || i + 1 <= ts[0]);
            assert(clear_of(rest, i, i + 1)) by {
                assert forall|j: int| 0 <= j < rest.len() implies (#[trigger] rest[j]) + 8 <= i
                    || i + 1 <= rest[j] by {
                    assert(rest[j] == ts[j + 1]);
                }
            }
        }
        assert forall|k: int| 0 <= k < ts.len() implies in_bounds(img, #[trigger] ts[k], 8) by {
            if k > 0 {
                assert(rest[k - 1] == ts[k]);
            }
        }
    }
}

/// Moving an image with room for every address succeeds.
proof fn lemma_can_move(img: Seq<u8>, ts: Seq<int>, delta: u64)
    requires
        forall|k: int| 0 <= k < ts.len() ==> in_bounds(img, #[trigger] ts[k], 8),
    ensures
        moved(img, ts, delta) is Some,
    decreases ts.len(),
{
    if ts.len() > 0 {
        let next = bumped(img, ts[0], delta);
        let rest = ts.skip(1);
        assert(in_bounds(img, ts[0], 8));
        lemma_bumped(img, ts[0], delta);
        assert forall|k: int| 0 <= k < rest.len() implies in_bounds(next, #[trigger] rest[k], 8) by {
            assert(rest[k] == ts[k + 1]);
        }
        lemma_can_move(next, rest, delta);
    }
}

proof fn lemma_moved_in_parts(img: Seq<u8>, a: Seq<int>, b: Seq<int>, delta: u64)
    ensures
        moved(img, a + b, delta) == match moved(img, a, delta) {
            Some(next) => moved(next, b, delta),
            None => None,
        },
    decreases a.len(),
{
    if a.len() == 0 {
        assert(a + b =~= b);
    } else {
        assert((a + b)[0] == a[0]);
        assert((a + b).skip(1) =~= a.skip(1) + b);
        if in_bounds(img, a[0], 8) {
            lemma_moved_in_parts(bumped(img, a[0], delta), a.skip(1), b, delta);
        }
    }
}

/// Moving leaves alone what no address reaches into.
proof fn lemma_moved_agrees(img: Seq<u8>, ts: Seq<int>, delta: u64, lo: int, hi: int)
    requires
        clear_of(ts, lo, hi),
        moved(img, ts, delta) is Some,
    ensures
        agree(img, moved(img, ts, delta)->Some_0, lo, hi),
    decreases ts.len(),
{
    if ts.len() > 0 {
        let next = bumped(img, ts[0], delta);
        lemma_bumped(img, ts[0], delta);
        assert(ts[0] + 8 <= lo || hi <= ts[0]);
        assert(clear_of(ts.skip(1), lo, hi)) by {
            assert forall|k: int| 0 <= k < ts.skip(1).len() implies (#[trigger] ts.skip(1)[k]) + 8
                <= lo || hi <= ts.skip(1)[k] by {
                assert(ts.skip(1)[k] == ts[k + 1]);
            }
        }
        lemma_moved_agrees(next, ts.skip(1), delta, lo, hi);
        let r = moved(img, ts, delta)->Some_0;
        assert forall|i: int| lo <= i < hi && 0 <= i < img.len() implies #[trigger] img[i]
            == r[i] by {
            assert(next[i] == img[i]);
        }
    }
}

proof fn lemma_block_reads(a: Seq<u8>, b: Seq<u8>, at: int, page: int, i: int, n: int)
    requires
        0 <= i,
        agree(a, b, at, at + 2 * n),
    ensures
        block_targets(a, at, page, i, n) == block_targets(b, at, page, i, n),
    decreases n - i,
{
    if i < n {
        lemma_block_reads(a, b, at, page, i + 1, n);
        assert(read16(a, at + i * 2) == read16(b, at + i * 2));
    }
}

proof fn lemma_read_to(img: Seq<u8>, off: int, end: int)
    ensures
        off <= read_to(img, off, end),
    decreases end + 0x1_0000_0000 - off,
{
    if off + 8 <= end {
        if let (Some(page), Some(size)) = (read32(img, off), read32(img, off + 4)) {
            if size >= 8 {
                lemma_read_to(img, off + size, end);
            }
        }
    }
}

/// The directory says the same in images that agree on it.
proof fn lemma_directory_reads(a: Seq<u8>, b: Seq<u8>, off: int, end: int)
    requires
        agree(a, b, off, read_to(a, off, end)),
    ensures
        targets(a, off, end) == targets(b, off, end),
        read_to(a, off, end) == read_to(b, off, end),
    decreases end + 0x1_0000_0000 - off,
{
    if off + 8 <= end {
        let top = read_to(a, off, end);
        if let (Some(page), Some(size)) = (read32(a, off), read32(a, off + 4)) {
            if size >= 8 {
                lemma_read_to(a, off + size, end);
                assert(off + 8 <= off + size <= top);
            }
        }
        assert(off + 8 <= top);
        assert(read32(a, off) == read32(b, off));
        assert(read32(a, off + 4) == read32(b, off + 4));
        if let (Some(page), Some(size)) = (read32(a, off), read32(a, off + 4)) {
            if size >= 8 {
                lemma_directory_reads(a, b, off + size, end);
                lemma_block_reads(a, b, off + 8, page as int, 0, (size - 8) / 2);
            }
        }
    }
}

proof fn lemma_block_moves(img: Seq<u8>, at: int, page: int, i: int, n: int, delta: u64)
    requires
        0 <= i,
        block_targets(img, at, page, i, n) matches Some(ts) && clear_of(ts, at, at + 2 * n),
    ensures
        fixed_up_block(img, at, page, i, n, delta) == moved(
            img,
            block_targets(img, at, page, i, n)->Some_0,
            delta,
        ),
    decreases n - i,
{
    reveal(fixed_up);
    if i < n {
        let e = read16(img, at + i * 2)->Some_0;
        let ts = block_targets(img, at, page, i, n)->Some_0;
        let rest = block_targets(img, at, page, i + 1, n)->Some_0;
        if e / 0x1000 == IMAGE_REL_BASED_ABSOLUTE {
            lemma_block_moves(img, at, page, i + 1, n, delta);
        } else {
            let t = page + e % 0x1000;
            assert(ts[0] == t);
            assert(ts.skip(1) =~= rest);
            assert(clear_of(rest, at, at + 2 * n)) by {
                assert forall|k: int| 0 <= k < rest.len() implies (#[trigger] rest[k]) + 8 <= at
                    || at + 2 * n <= rest[k] by {
                    assert(rest[k] == ts[k + 1]);
                }
            }
            if in_bounds(img, t, 8) {
                let next = bumped(img, t, delta);
                lemma_bumped(img, t, delta);
                assert(fixed_up(img, page, e, delta) == Some(next)) by {
                    reveal(bumped);
                }
                assert(agree(img, next, at, at + 2 * n));
                lemma_block_reads(img, next, at, page, i + 1, n);
                lemma_block_moves(next, at, page, i + 1, n, delta);
            }
        }
    }
}

/// Relocating is moving the addresses that the directory names.
proof fn lemma_relocated_moves(img: Seq<u8>, off: int, end: int, delta: u64)
    requires
        targets(img, off, end) matches Some(ts) && clear_of(ts, off, read_to(img, off, end)),
    ensures
        relocated(img, off, end, delta) == moved(img, targets(img, off, end)->Some_0, delta),
    decreases end + 0x1_0000_0000 - off,
{
    if off + 8 <= end {
        let ts = targets(img, off, end)->Some_0;
        let top = read_to(img, off, end);
        let page = read32(img, off)->Some_0;
        let size = read32(img, off + 4)->Some_0;
        if size >= 8 {
            let a = block_targets(img, off + 8, page as int, 0, (size - 8) / 2)->Some_0;
            let b = targets(img, off + size, end)->Some_0;
            lemma_read_to(img, off + size, end);
            assert(ts == a + b);
            assert(clear_of(a, off, top)) by {
                assert forall|k: int| 0 <= k < a.len() implies (#[trigger] a[k]) + 8 <= off || top
                    <= a[k] by {
                    assert(ts[k] == a[k]);
                }
            }
            assert(clear_of(b, off, top)) by {
                assert forall|k: int| 0 <= k < b.len() implies (#[trigger] b[k]) + 8 <= off || top
                    <= b[k] by {
                    assert(ts[a.len() + k] == b[k]);
                }
            }
            lemma_block_moves(img, off + 8, page as int, 0, (size - 8) / 2, delta);
            lemma_moved_in_parts(img, a, b, delta);
            if let Some(next) = moved(img, a, delta) {
                lemma_moved_agrees(img, a, delta, off, top);
                lemma_directory_reads(img, next, off + size, end);
                lemma_relocated_moves(next, off + size, end, delta);
            }
        }
    }
}

/// The directory `[rva, rva + size)` names the addresses `ts`; none of them reaches into
/// it, and no two overlap in part.
pub open spec fn names_exactly(img: Seq<u8>, rva: u32, size: u32, ts: Seq<int>) -> bool {
    &&& targets(img, rva as int, rva + size) == Some(ts)
    &&& clear_of(ts, rva as int, read_to(img, rva as int, rva + size))
    &&& all_whole(ts)
}

/// Relocation adds the displacement to each address that the directory names, once for
/// each time it is named, and changes no other byte.
pub proof fn relocation_moves_exactly_what_is_named(
    img: Seq<u8>,
    rva: u32,
    size: u32,
    ts: Seq<int>,
    delta: u64,
)
    requires
        names_exactly(img, rva, size, ts),
        relocated(img, rva as int, rva + size, delta) is Some,
    ensures
        ({
            let r = relocated(img, rva as int, rva + size, delta)->Some_0;
            &&& r.len() == img.len()
            &&& forall|k: int|
                0 <= k < ts.len() ==> get64(r, #[trigger] ts[k]) == shifted(
                    get64(img, ts[k]),
                    times(ts, ts[k]),
                    delta,
                )
            &&& forall|i: int|
                0 <= i < img.len() && clear_of(ts, i, i + 1) ==> #[trigger] r[i] == img[i]
        }),
{
    lemma_relocated_moves(img, rva as int, rva + size, delta);
    let r = relocated(img, rva as int, rva + size, delta)->Some_0;
    lemma_moved(img, ts, delta, 0, 0);
    assert forall|k: int| 0 <= k < ts.len() implies get64(r, #[trigger] ts[k]) == shifted(
        get64(img, ts[k]),
        times(ts, ts[k]),
        delta,
    ) by {
        lemma_moved(img, ts, delta, ts[k], 0);
    }
    assert forall|i: int| 0 <= i < img.len() && clear_of(ts, i, i + 1) implies #[trigger] r[i]
        == img[i] by {
        lemma_moved(img, ts, delta, 0, i);
    }
}

/// Relocating by a displacement and then by its negation gives the image back.
pub proof fn relocating_back_restores_the_image(
    img: Seq<u8>,
    rva: u32,
    size: u32,
    ts: Seq<int>,
    delta: u64,
)
    requires
        names_exactly(img, rva, size, ts),
        relocated(img, rva as int, rva + size, delta) is Some,
    ensures
        ({
            let r = relocated(img, rva as int, rva + size, delta)->Some_0;
            relocated(r, rva as int, rva + size, negated(delta)) == Some(img)
        }),
{
    let off = rva as int;
    let end = rva + size;
    let back = negated(delta);
    let r = relocated(img, off, end, delta)->Some_0;
    lemma_relocated_moves(img, off, end, delta);
    lemma_moved(img, ts, delta, 0, 0);
    lemma_moved_agrees(img, ts, delta, off, read_to(img, off, end));
    lemma_directory_reads(img, r, off, end);
    lemma_relocated_moves(r, off, end, back);
    lemma_can_move(r, ts, back);
    lemma_moved(r, ts, back, 0, 0);
    let q = moved(r, ts, back)->Some_0;
    assert forall|i: int| 0 <= i < img.len() implies q[i] == img[i] by {
        if clear_of(ts, i, i + 1) {
            lemma_moved(img, ts, delta, 0, i);
            lemma_moved(r, ts, back, 0, i);
        } else {
            let k = choose|k: int|
                0 <= k < ts.len() && !((#[trigger] ts[k]) + 8 <= i || i + 1 <= ts[k]);
            let t = ts[k];
            assert(whole(ts, t));
            assert(in_bounds(img, t, 8));
            lemma_moved(img, ts, delta, t, i);
            lemma_moved(r, ts, back, t, i);
            lemma_word_from_bytes(img, t);
            lemma_shift_back(get64(img, t), times(ts, t), delta);
            assert(get64(q, t) == get64(img, t));
            assert(q[t + (i - t)] == img[t + (i - t)]);
        }
    }
    assert(q =~= img);
}

/// A fix-up of a kind that is neither padding nor a 64-bit address is refused.
pub proof fn another_kind_of_fixup_is_refused(img: Seq<u8>, page: int, e: u16, delta: u64)
    requires
        e / 0x1000 != IMAGE_REL_BASED_ABSOLUTE,
        e / 0x1000 != IMAGE_REL_BASED_DIR64,
    ensures
        fixed_up(img, page, e, delta) is None,
{
    reveal(fixed_up);
}

} // verus!
