//! `RTL_BITMAP`, the kernel's run-finding bitmap.
//!
//! The hot operation is "find N contiguous clear bits and set them", which is
//! what makes the bitmap an allocator primitive.
use vstd::prelude::*;

verus! {

/// Bit `k` of a word.
pub open spec fn word_bit(w: u64, k: int) -> bool {
    (w >> (k as u64)) & 1 == 1
}

/// Bit `i` of an array of words.
pub open spec fn bit_of(words: Seq<u64>, i: int) -> bool {
    word_bit(words[i / 64], i % 64)
}

proof fn lemma_word_ops(w: u64, j: u64, k: u64)
    by (bit_vector)
    requires
        j < 64,
        k < 64,
    ensures
        j == k ==> (((w | (1u64 << j)) >> k) & 1 == 1),
        j != k ==> (((w | (1u64 << j)) >> k) & 1 == (w >> k) & 1),
        j == k ==> (((w & !(1u64 << j)) >> k) & 1 == 0),
        j != k ==> (((w & !(1u64 << j)) >> k) & 1 == (w >> k) & 1),
        (w & (1u64 << j) != 0) == ((w >> j) & 1 == 1),
        (0xFFFF_FFFF_FFFF_FFFFu64 >> k) & 1 == 1,
        k >= j ==> (((w | (0xFFFF_FFFF_FFFF_FFFFu64 << j)) >> k) & 1 == 1),
        k < j ==> (((w | (0xFFFF_FFFF_FFFF_FFFFu64 << j)) >> k) & 1 == (w >> k) & 1),
{
}

/// A bitmap: bit `i` lives in word `i / 64`, bit `i % 64`; set means in use.
pub struct RtlBitmap {
    words: Vec<u64>,
    /// Number of valid bits (may be less than `words.len() * 64`).
    size_in_bits: usize,
}

/// The number of `true`s in a sequence.
pub open spec fn count_true(s: Seq<bool>) -> nat
    decreases s.len(),
{
    if s.len() == 0 {
        0
    } else {
        count_true(s.drop_last()) + if s.last() {
            1nat
        } else {
            0nat
        }
    }
}

/// `count` clear bits starting at `s`, within `[from, to)`.
pub open spec fn run_at(bits: Seq<bool>, from: int, to: int, count: int, s: int) -> bool {
    &&& from <= s
    &&& s + count <= to
    &&& forall|k: int| s <= k < s + count ==> !#[trigger] bits[k]
}

/// `s` is the lowest start of a clear run of `count` within `[from, to)`.
pub open spec fn first_run(bits: Seq<bool>, from: int, to: int, count: int, s: int) -> bool {
    &&& run_at(bits, from, to, count, s)
    &&& forall|t: int| from <= t < s ==> !#[trigger] run_at(bits, from, to, count, t)
}

/// No clear run of `count` starts within `[from, to)`.
pub open spec fn no_run(bits: Seq<bool>, from: int, to: int, count: int) -> bool {
    forall|t: int| !#[trigger] run_at(bits, from, to, count, t)
}

/// The start that an allocation of `count` bits with this hint picks: the first
/// run at or after the hint, or the first run at all when none starts there.
pub open spec fn picks(bits: Seq<bool>, count: int, hint: int, s: int) -> bool {
    let n = bits.len() as int;
    let h = if hint >= n {
        0
    } else {
        hint
    };
    &&& 0 < count <= n
    &&& if no_run(bits, h, n, count) {
        first_run(bits, 0, n, count, s)
    } else {
        first_run(bits, h, n, count, s)
    }
}

/// `bits` with `[start, start + count)` all equal to `v`.
pub open spec fn with_range(bits: Seq<bool>, start: int, count: int, v: bool) -> Seq<bool> {
    Seq::new(bits.len(), |i: int| if start <= i < start + count { v } else { bits[i] })
}

impl RtlBitmap {
    /// The valid bits.
    pub closed spec fn bits(&self) -> Seq<bool> {
        Seq::new(
            self.size_in_bits as nat,
            |i: int| bit_of(self.words@, i),
        )
    }

    /// Storage covers the valid bits and every bit beyond them is set.
    pub closed spec fn wf(&self) -> bool {
        &&& self.size_in_bits <= self.words@.len() * 64
        &&& forall|i: int|
            self.size_in_bits <= i < self.words@.len() * 64 ==> #[trigger] bit_of(self.words@, i)
    }

    /// `RtlInitializeBitMap`: take over the storage. Valid bits keep their
    /// value; bits beyond `size_in_bits` become permanently set.
    pub fn new(words: Vec<u64>, size_in_bits: usize) -> (bm: Self)
        requires
            size_in_bits <= words@.len() * 64,
        ensures
            bm.wf(),
            bm.bits().len() == size_in_bits,
            forall|i: int|
                0 <= i < size_in_bits ==> #[trigger] bm.bits()[i] == bit_of(words@, i),
    {
        let ghost orig = words@;
        let mut bm = RtlBitmap { words, size_in_bits };
        let tail_bits: u64 = (size_in_bits % 64) as u64;
        let full_words: usize = size_in_bits / 64;
        let mut w: usize = full_words;
        if tail_bits != 0 {
            let old_word: u64 = bm.words[full_words];
            bm.words.set(full_words, old_word | (0xFFFF_FFFF_FFFF_FFFFu64 << tail_bits));
            w = full_words + 1;
        }
        let ghost masked = bm.words@;
        proof {
            assert forall|i: int| 0 <= i < size_in_bits implies #[trigger] bit_of(masked, i)
                == bit_of(orig, i) by {
                if tail_bits != 0 {
                    lemma_word_ops(orig[full_words as int], tail_bits, (i % 64) as u64);
                }
            }
            assert forall|i: int| size_in_bits <= i < w * 64 implies #[trigger] bit_of(masked, i) by {
                if tail_bits != 0 {
                    lemma_word_ops(orig[full_words as int], tail_bits, (i % 64) as u64);
                }
            }
        }
        while w < bm.words.len()
            invariant
                bm.size_in_bits == size_in_bits,
                bm.words@.len() == orig.len(),
                size_in_bits <= orig.len() * 64,
                size_in_bits <= w * 64,
                w <= bm.words@.len(),
                forall|i: int|
                    0 <= i < size_in_bits ==> #[trigger] bit_of(bm.words@, i)
                        == bit_of(orig, i),
                forall|i: int|
                    size_in_bits <= i < w * 64 ==> #[trigger] bit_of(bm.words@, i),
            decreases bm.words@.len() - w,
        {
            let ghost before = bm.words@;
            bm.words.set(w, 0xFFFF_FFFF_FFFF_FFFFu64);
            proof {
                assert forall|i: int| size_in_bits <= i < (w + 1) * 64 implies #[trigger] bit_of(bm.words@, i) by {
                    if i / 64 == w {
                        lemma_word_ops(0, 0, (i % 64) as u64);
                    } else {
                        assert(bit_of(before, i));
                    }
                }
                assert forall|i: int| 0 <= i < size_in_bits implies #[trigger] bit_of(bm.words@, i) == bit_of(orig, i) by {
                    assert(bit_of(before, i) == bit_of(orig, i));
                }
            }
            w = w + 1;
        }
        bm
    }

    /// Number of valid bits in the map.
    pub fn len(&self) -> (n: usize)
        ensures
            n == self.bits().len(),
    {
        self.size_in_bits
    }

    fn write_bit(&mut self, i: usize, v: bool)
        requires
            old(self).wf(),
            i < old(self).bits().len(),
        ensures
            final(self).wf(),
            final(self).bits() == old(self).bits().update(i as int, v),
    {
        let ghost before = *self;
        let j: u64 = (i % 64) as u64;
        let w: u64 = self.words[i / 64];
        let w2: u64 = if v {
            w | (1u64 << j)
        } else {
            w & !(1u64 << j)
        };
        self.words.set(i / 64, w2);
        proof {
            assert forall|n: int| 0 <= n < self.words@.len() * 64 implies #[trigger] bit_of(self.words@, n) == if n == i {
                v
            } else {
                bit_of(before.words@, n)
            } by {
                lemma_word_ops(w, j, (n % 64) as u64);
            }
            assert(self.bits() =~= before.bits().update(i as int, v));
        }
    }

    /// `RtlSetBits`: mark `[start, start + count)` as in use.
    pub fn set_bits(&mut self, start: usize, count: usize)
        requires
            old(self).wf(),
            start + count <= old(self).bits().len(),
        ensures
            final(self).wf(),
            final(self).bits() == with_range(old(self).bits(), start as int, count as int, true),
    {
        self.fill(start, count, true);
    }

    /// `RtlClearBits`: mark `[start, start + count)` as free.
    pub fn clear_bits(&mut self, start: usize, count: usize)
        requires
            old(self).wf(),
            start + count <= old(self).bits().len(),
        ensures
            final(self).wf(),
            final(self).bits() == with_range(old(self).bits(), start as int, count as int, false),
    {
        self.fill(start, count, false);
    }

    fn fill(&mut self, start: usize, count: usize, v: bool)
        requires
            old(self).wf(),
            start + count <= old(self).bits().len(),
        ensures
            final(self).wf(),
            final(self).bits() == with_range(old(self).bits(), start as int, count as int, v),
    {
        let ghost before = self.bits();
        let mut i: usize = 0;
        while i < count
            invariant
                self.wf(),
                i <= count,
                before.len() <= usize::MAX,
                start + count <= before.len(),
                self.bits() == with_range(before, start as int, i as int, v),
            decreases count - i,
        {
            self.write_bit(start + i, v);
            i = i + 1;
            assert(self.bits() =~= with_range(before, start as int, i as int, v));
        }
    }

    /// `RtlTestBit`: is bit `i` set?
    pub fn test_bit(&self, i: usize) -> (r: bool)
        requires
            self.wf(),
            i < self.bits().len(),
        ensures
            r == self.bits()[i as int],
    {
        let w: u64 = self.words[i / 64];
        proof {
            lemma_word_ops(w, (i % 64) as u64, 0);
        }
        w & (1u64 << ((i % 64) as u64)) != 0
    }

    /// `RtlNumberOfSetBits`.
    pub fn count_set(&self) -> (n: usize)
        requires
            self.wf(),
        ensures
            n == count_true(self.bits()),
    {
        let mut i: usize = 0;
        let mut n: usize = 0;
        while i < self.size_in_bits
            invariant
                self.wf(),
                i <= self.size_in_bits,
                self.bits().len() == self.size_in_bits,
                n <= i,
                n == count_true(self.bits().take(i as int)),
            decreases self.size_in_bits - i,
        {
            let b = self.test_bit(i);
            proof {
                let t = self.bits().take(i + 1);
                assert(t.drop_last() =~= self.bits().take(i as int));
                assert(t.last() == self.bits()[i as int]);
            }
            if b {
                n = n + 1;
            }
            i = i + 1;
        }
        assert(self.bits().take(i as int) =~= self.bits());
        n
    }

    /// Scan `[from, to)` for the first run of `count` clear bits. A fully set
    /// word cannot hold the start of a run, so it is skipped whole.
    fn find_run_from(&self, from: usize, to: usize, count: usize) -> (r: Option<usize>)
        requires
            self.wf(),
            count > 0,
            to <= self.bits().len(),
        ensures
            match r {
                Some(s) => first_run(self.bits(), from as int, to as int, count as int, s as int),
                None => no_run(self.bits(), from as int, to as int, count as int),
            },
    {
        let ghost bits = self.bits();
        let mut run_start: usize = from;
        let mut run_len: usize = 0;
        let mut i: usize = from;
        while i < to
            invariant
                self.wf(),
                bits == self.bits(),
                to <= bits.len(),
                bits.len() <= usize::MAX,
                count > 0,
                run_len < count,
                from <= run_start,
                from >= to || i <= to,
                run_start + run_len == i,
                forall|k: int| run_start <= k < i ==> !#[trigger] bits[k],
                forall|t: int|
                    from <= t < run_start ==> !#[trigger] run_at(
                        bits,
                        from as int,
                        to as int,
                        count as int,
                        t,
                    ),
            decreases to - i,
        {
            if run_len == 0 && i % 64 == 0 && to - i >= 64 && self.words[i / 64]
                == 0xFFFF_FFFF_FFFF_FFFFu64 {
                proof {
                    assert forall|t: int| i <= t < i + 64 implies bits[t] by {
                        lemma_word_ops(0, 0, (t % 64) as u64);
                        assert(t / 64 == i / 64);
                    }
                    assert forall|t: int| from <= t < i + 64 implies !#[trigger] run_at(
                        bits,
                        from as int,
                        to as int,
                        count as int,
                        t,
                    ) by {
                        if t >= i {
                            assert(bits[t]);
                        }
                    }
                }
                i = i + 64;
                run_start = i;
                continue ;
            }
            if self.test_bit(i) {
                proof {
                    assert forall|t: int| from <= t < i + 1 implies !#[trigger] run_at(
                        bits,
                        from as int,
                        to as int,
                        count as int,
                        t,
                    ) by {
                        if t >= run_start {
                            assert(t <= i < t + count);
                            assert(bits[i as int]);
                        }
                    }
                }
                run_len = 0;
                run_start = i + 1;
            } else {
                run_len = run_len + 1;
                if run_len == count {
                    assert(run_at(bits, from as int, to as int, count as int, run_start as int));
                    return Some(run_start);
                }
            }
            i = i + 1;
        }
        proof {
            assert forall|t: int| !#[trigger] run_at(
                bits,
                from as int,
                to as int,
                count as int,
                t,
            ) by {
                if t >= run_start {
                    assert(t + count > to);
                }
            }
        }
        None
    }

    /// `RtlFindClearBitsAndSet`: find `count` contiguous clear bits at or after
    /// `hint`, set them, and return where they start; wrap around to the
    /// beginning if nothing is free above the hint. `None` exactly when no run
    /// exists (or the request is empty or larger than the map).
    pub fn find_clear_bits_and_set(&mut self, count: usize, hint: usize) -> (r: Option<usize>)
        requires
            old(self).wf(),
        ensures
            final(self).wf(),
            match r {
                Some(s) => {
                    &&& picks(old(self).bits(), count as int, hint as int, s as int)
                    &&& final(self).bits() == with_range(
                        old(self).bits(),
                        s as int,
                        count as int,
                        true,
                    )
                },
                None => {
                    &&& count == 0 || no_run(
                        old(self).bits(),
                        0,
                        old(self).bits().len() as int,
                        count as int,
                    )
                    &&& *final(self) == *old(self)
                },
            },
    {
        let ghost bits = self.bits();
        let n: usize = self.size_in_bits;
        if count == 0 || count > n {
            proof {
                assert forall|t: int| count > n implies !#[trigger] run_at(
                    bits,
                    0,
                    n as int,
                    count as int,
                    t,
                ) by {}
            }
            return None;
        }
        let h: usize = if hint >= n {
            0
        } else {
            hint
        };
        match self.find_run_from(h, n, count) {
            Some(s) => {
                assert(run_at(bits, h as int, n as int, count as int, s as int));
                self.set_bits(s, count);
                return Some(s);
            },
            None => {},
        }
        let to: usize = if count >= n - h {
            n
        } else {
            h + count
        };
        proof {
            // A run that starts below the hint ends below `h + count`.
            assert forall|t: int| run_at(bits, 0, n as int, count as int, t) implies #[trigger] run_at(
                bits,
                0,
                to as int,
                count as int,
                t,
            ) by {
                assert(!run_at(bits, h as int, n as int, count as int, t));
            }
            assert forall|t: int| #[trigger] run_at(bits, 0, to as int, count as int, t) implies run_at(
                bits,
                0,
                n as int,
                count as int,
                t,
            ) by {}
        }
        match self.find_run_from(0, to, count) {
            Some(s) => {
                proof {
                    assert(run_at(bits, 0, to as int, count as int, s as int));
                    assert forall|t: int| 0 <= t < s implies !#[trigger] run_at(
                        bits,
                        0,
                        n as int,
                        count as int,
                        t,
                    ) by {
                        assert(!run_at(bits, 0, to as int, count as int, t));
                    }
                }
                self.set_bits(s, count);
                Some(s)
            },
            None => {
                proof {
                    assert forall|t: int| !#[trigger] run_at(bits, 0, n as int, count as int, t) by {
                        assert(!run_at(bits, 0, to as int, count as int, t));
                    }
                }
                None
            },
        }
    }
}

/// Setting a range and clearing it again gives back the map, when the range
/// was clear before.
pub proof fn set_then_clear_restores(bits: Seq<bool>, start: int, count: int)
    requires
        0 <= start,
        0 <= count,
        start + count <= bits.len(),
        forall|k: int| start <= k < start + count ==> !#[trigger] bits[k],
    ensures
        with_range(with_range(bits, start, count, true), start, count, false) == bits,
{
    assert(with_range(with_range(bits, start, count, true), start, count, false) =~= bits);
}

/// A run handed out by the allocator is disjoint from everything in use: two
/// successive allocations never overlap.
pub proof fn successive_runs_are_disjoint(
    bits: Seq<bool>,
    s1: int,
    c1: int,
    s2: int,
    c2: int,
    from: int,
)
    requires
        0 <= s1,
        0 < c1,
        0 < c2,
        s1 + c1 <= bits.len(),
        run_at(with_range(bits, s1, c1, true), from, bits.len() as int, c2, s2),
        0 <= from,
    ensures
        s1 + c1 <= s2 || s2 + c2 <= s1,
{
    let after = with_range(bits, s1, c1, true);
    if s1 < s2 + c2 && s2 < s1 + c1 {
        let k = if s1 >= s2 {
            s1
        } else {
            s2
        };
        assert(after[k]);
        assert(!after[k]);
    }
}

/// Setting a clear run raises the number of set bits by its length.
pub proof fn set_range_adds_count(bits: Seq<bool>, start: int, count: int)
    requires
        0 <= start,
        0 <= count,
        start + count <= bits.len(),
        forall|k: int| start <= k < start + count ==> !#[trigger] bits[k],
    ensures
        count_true(with_range(bits, start, count, true)) == count_true(bits) + count,
    decreases bits.len(),
{
    let after = with_range(bits, start, count, true);
    if bits.len() > 0 {
        let head = bits.drop_last();
        if start + count == bits.len() && count > 0 {
            set_range_adds_count(head, start, count - 1);
            assert(after.drop_last() =~= with_range(head, start, count - 1, true));
        } else if start + count < bits.len() {
            set_range_adds_count(head, start, count);
            assert(after.drop_last() =~= with_range(head, start, count, true));
        } else {
            assert(after =~= bits);
        }
    } else {
        assert(after =~= bits);
    }
}

/// Clearing a range lowers the number of set bits by at most its length.
pub proof fn clear_range_bounds_count(bits: Seq<bool>, start: int, count: int)
    requires
        0 <= start,
        0 <= count,
        start + count <= bits.len(),
    ensures
        count_true(with_range(bits, start, count, false)) + count >= count_true(bits),
        count_true(with_range(bits, start, count, false)) <= count_true(bits),
    decreases bits.len(),
{
    let after = with_range(bits, start, count, false);
    if bits.len() > 0 {
        let head = bits.drop_last();
        if start + count == bits.len() && count > 0 {
            clear_range_bounds_count(head, start, count - 1);
            assert(after.drop_last() =~= with_range(head, start, count - 1, false));
        } else if start + count < bits.len() {
            clear_range_bounds_count(head, start, count);
            assert(after.drop_last() =~= with_range(head, start, count, false));
        } else {
            assert(after =~= bits);
        }
    } else {
        assert(after =~= bits);
    }
}

/// Clearing a fully set run lowers the number of set bits by its length.
pub proof fn clear_range_subtracts_count(bits: Seq<bool>, start: int, count: int)
    requires
        0 <= start,
        0 <= count,
        start + count <= bits.len(),
        forall|k: int| start <= k < start + count ==> #[trigger] bits[k],
    ensures
        count_true(with_range(bits, start, count, false)) + count == count_true(bits),
{
    let after = with_range(bits, start, count, false);
    set_range_adds_count(after, start, count);
    assert(with_range(after, start, count, true) =~= bits);
}

/// The number of set bits is at most the number of bits.
pub proof fn count_true_bounded(bits: Seq<bool>)
    ensures
        count_true(bits) <= bits.len(),
    decreases bits.len(),
{
    if bits.len() > 0 {
        count_true_bounded(bits.drop_last());
    }
}

/// A fully set map counts every bit.
pub proof fn count_true_full(bits: Seq<bool>)
    requires
        forall|k: int| 0 <= k < bits.len() ==> #[trigger] bits[k],
    ensures
        count_true(bits) == bits.len(),
    decreases bits.len(),
{
    if bits.len() > 0 {
        count_true_full(bits.drop_last());
    }
}

/// Bits are numbered from the lowest of a word, 64 to a word.
pub proof fn bits_are_numbered_from_the_lowest(k: int, j: int)
    requires
        0 <= k < 64,
        0 <= j < 64,
    ensures
        word_bit(1u64 << (k as u64), j) == (j == k),
        !word_bit(0, k),
{
    let a = k as u64;
    let b = j as u64;
    assert(a < 64 && b < 64 ==> ((((1u64 << a) >> b) & 1 == 1) == (a == b)) && (0u64 >> a) & 1
        == 0) by (bit_vector);
}

/// Counting adds up: the set bits of two maps behind each other are those of both.
pub proof fn set_bits_add_up(a: Seq<bool>, b: Seq<bool>)
    ensures
        count_true(a + b) == count_true(a) + count_true(b),
        count_true(seq![true]) == 1,
        count_true(seq![false]) == 0,
    decreases b.len(),
{
    reveal_with_fuel(count_true, 2);
    assert(seq![true].drop_last() =~= Seq::<bool>::empty());
    assert(seq![false].drop_last() =~= Seq::<bool>::empty());
    if b.len() == 0 {
        assert(a + b =~= a);
    } else {
        set_bits_add_up(a, b.drop_last());
        assert((a + b).drop_last() =~= a + b.drop_last());
        assert((a + b).last() == b.last());
    }
}

/// A run that is picked is clear and lies in the map. It starts at the hint or behind it
/// wherever a run does.
pub proof fn a_picked_run_is_clear(bits: Seq<bool>, count: int, hint: int, s: int, k: int, t: int)
    requires
        picks(bits, count, hint, s),
        0 <= hint < bits.len(),
        0 <= k < count,
        hint <= t <= bits.len() - count,
        forall|j: int| t <= j < t + count ==> !#[trigger] bits[j],
    ensures
        hint <= s <= t,
        !bits[s + k],
{
    assert(run_at(bits, hint, bits.len() as int, count, t));
}

} // verus!
