//! String comparison.
use crate::kernel32::strings::{ended, lemma_nul_pos, nul_pos, text, wstrlen};
use crate::rtl::string::{lower_unit, to_lower_unit, units_equal_fold};
use crate::syscalls::buffers::{widen, widened};
use vstd::prelude::*;
use vstd::slice::slice_subrange;

verus! {

pub const CSTR_LESS: i32 = 1;

pub const CSTR_EQUAL: i32 = 2;

pub const CSTR_GREATER: i32 = 3;

/// Comparison ignores case.
pub const NORM_IGNORECASE: u32 = 1;

/// A unit as it is compared.
pub open spec fn folded(c: u16, fold: bool) -> u16 {
    if fold {
        lower_unit(c)
    } else {
        c
    }
}

fn fold_unit(c: u16, fold: bool) -> (r: u16)
    ensures
        r == folded(c, fold),
{
    if fold {
        to_lower_unit(c)
    } else {
        c
    }
}

// ---------------------------------------------------------------------------
// Strings with a NUL
// ---------------------------------------------------------------------------
/// The difference of the first two units that differ, from `i` on; 0 when the
/// strings end before that.
pub open spec fn difference(a: Seq<u16>, b: Seq<u16>, fold: bool, i: int) -> int
    decreases a.len() - i,
{
    if i < 0 || i >= a.len() || i >= b.len() {
        0
    } else {
        let x = folded(a[i], fold);
        let y = folded(b[i], fold);
        if x != y {
            x - y
        } else if x == 0 {
            0
        } else {
            difference(a, b, fold, i + 1)
        }
    }
}

fn first_difference(a: &[u16], b: &[u16], fold: bool) -> (r: i32)
    requires
        ended(a@),
        ended(b@),
    ensures
        r == difference(a@, b@, fold, 0),
{
    proof {
        lemma_nul_pos(a@, 0);
        lemma_nul_pos(b@, 0);
    }
    let mut i: usize = 0;
    while i < a.len() && i < b.len()
        invariant
            i <= a@.len(),
            i <= b@.len(),
            difference(a@, b@, fold, 0) == difference(a@, b@, fold, i as int),
        decreases a@.len() - i,
    {
        let x: u16 = fold_unit(a[i], fold);
        let y: u16 = fold_unit(b[i], fold);
        if x != y {
            return x as i32 - y as i32;
        }
        if x == 0 {
            return 0;
        }
        i = i + 1;
    }
    0
}

/// `lstrcmpW`.
pub fn lstrcmpW(a: &[u16], b: &[u16]) -> (r: i32)
    requires
        ended(a@),
        ended(b@),
    ensures
        r == difference(a@, b@, false, 0),
{
    first_difference(a, b, false)
}

/// `lstrcmpiW`: ASCII case is ignored.
pub fn lstrcmpiW(a: &[u16], b: &[u16]) -> (r: i32)
    requires
        ended(a@),
        ended(b@),
    ensures
        r == difference(a@, b@, true, 0),
{
    first_difference(a, b, true)
}

/// Two optional strings of bytes are ended.
pub open spec fn both_ended(a: Option<&[u8]>, b: Option<&[u8]>) -> bool {
    &&& a matches Some(x) ==> ended(widened(x@))
    &&& b matches Some(y) ==> ended(widened(y@))
}

/// The comparison of two optional strings: 0 when one is missing.
pub open spec fn byte_difference(a: Option<&[u8]>, b: Option<&[u8]>, fold: bool) -> int {
    match (a, b) {
        (Some(x), Some(y)) => difference(widened(x@), widened(y@), fold, 0),
        _ => 0,
    }
}

fn first_byte_difference(a: Option<&[u8]>, b: Option<&[u8]>, fold: bool) -> (r: i32)
    requires
        both_ended(a, b),
    ensures
        r == byte_difference(a, b, fold),
{
    match (a, b) {
        (Some(x), Some(y)) => {
            let u: Vec<u16> = widen(x);
            let v: Vec<u16> = widen(y);
            first_difference(&u, &v, fold)
        },
        _ => 0,
    }
}

/// `lstrcmpA`.
pub fn lstrcmpA(a: Option<&[u8]>, b: Option<&[u8]>) -> (r: i32)
    requires
        both_ended(a, b),
    ensures
        r == byte_difference(a, b, false),
{
    first_byte_difference(a, b, false)
}

/// `lstrcmpiA`: ASCII case is ignored.
pub fn lstrcmpiA(a: Option<&[u8]>, b: Option<&[u8]>) -> (r: i32)
    requires
        both_ended(a, b),
    ensures
        r == byte_difference(a, b, true),
{
    first_byte_difference(a, b, true)
}

// ---------------------------------------------------------------------------
// Strings of a given length
// ---------------------------------------------------------------------------
/// The string an argument pair names: the first `count` units, or all up to the
/// NUL for a negative count.
pub open spec fn counted_text(s: Seq<u16>, count: i32) -> Seq<u16> {
    if count < 0 {
        text(s)
    } else {
        s.take(count as int)
    }
}

/// The memory holds the string that an argument pair names.
pub open spec fn holds_text(s: Seq<u16>, count: i32) -> bool {
    if count < 0 {
        ended(s)
    } else {
        count <= s.len()
    }
}

/// The order of two strings, from `i` on: the first units that differ decide, and
/// a string comes before its extensions.
pub open spec fn order(a: Seq<u16>, b: Seq<u16>, fold: bool, i: int) -> int
    decreases a.len() - i,
{
    if i < 0 {
        CSTR_EQUAL as int
    } else if i >= a.len() && i >= b.len() {
        CSTR_EQUAL as int
    } else if i >= a.len() {
        CSTR_LESS as int
    } else if i >= b.len() {
        CSTR_GREATER as int
    } else if folded(a[i], fold) < folded(b[i], fold) {
        CSTR_LESS as int
    } else if folded(a[i], fold) > folded(b[i], fold) {
        CSTR_GREATER as int
    } else {
        order(a, b, fold, i + 1)
    }
}

pub(crate) fn order_of(a: &[u16], b: &[u16], fold: bool) -> (r: i32)
    ensures
        r == order(a@, b@, fold, 0),
{
    let mut i: usize = 0;
    while i < a.len() && i < b.len()
        invariant
            i <= a@.len(),
            i <= b@.len(),
            order(a@, b@, fold, 0) == order(a@, b@, fold, i as int),
        decreases a@.len() - i,
    {
        let x: u16 = fold_unit(a[i], fold);
        let y: u16 = fold_unit(b[i], fold);
        if x < y {
            return CSTR_LESS;
        }
        if x > y {
            return CSTR_GREATER;
        }
        i = i + 1;
    }
    if i < b.len() {
        CSTR_LESS
    } else if i < a.len() {
        CSTR_GREATER
    } else {
        CSTR_EQUAL
    }
}

fn take_text(s: &[u16], count: i32) -> (r: &[u16])
    requires
        holds_text(s@, count),
    ensures
        r@ == counted_text(s@, count),
{
    let n: usize = if count < 0 {
        wstrlen(s)
    } else {
        count as usize
    };
    let r = slice_subrange(s, 0, n);
    assert(r@ =~= counted_text(s@, count));
    r
}

/// `CompareStringW`: 1, 2 or 3 for less, equal or greater.
pub fn CompareStringW(flags: u32, s1: &[u16], c1: i32, s2: &[u16], c2: i32) -> (r: i32)
    requires
        holds_text(s1@, c1),
        holds_text(s2@, c2),
    ensures
        r == order(
            counted_text(s1@, c1),
            counted_text(s2@, c2),
            flags % 2 == NORM_IGNORECASE,
            0,
        ),
{
    order_of(take_text(s1, c1), take_text(s2, c2), flags % 2 == NORM_IGNORECASE)
}

/// `CompareStringA`.
pub fn CompareStringA(flags: u32, s1: &[u8], c1: i32, s2: &[u8], c2: i32) -> (r: i32)
    requires
        holds_text(widened(s1@), c1),
        holds_text(widened(s2@), c2),
    ensures
        r == order(
            counted_text(widened(s1@), c1),
            counted_text(widened(s2@), c2),
            flags % 2 == NORM_IGNORECASE,
            0,
        ),
{
    let u: Vec<u16> = widen(s1);
    let v: Vec<u16> = widen(s2);
    order_of(take_text(&u, c1), take_text(&v, c2), flags % 2 == NORM_IGNORECASE)
}

/// `CompareStringOrdinal`: by code units, with a switch for case.
pub fn CompareStringOrdinal(s1: &[u16], c1: i32, s2: &[u16], c2: i32, ignore_case: i32) -> (r: i32)
    requires
        holds_text(s1@, c1),
        holds_text(s2@, c2),
    ensures
        r == order(counted_text(s1@, c1), counted_text(s2@, c2), ignore_case != 0, 0),
{
    order_of(take_text(s1, c1), take_text(s2, c2), ignore_case != 0)
}

// ---------------------------------------------------------------------------
// Laws
// ---------------------------------------------------------------------------
/// Two strings compare equal exactly when they are the same, up to ASCII case if
/// case is ignored.
pub proof fn zero_means_equal(a: Seq<u16>, b: Seq<u16>, fold: bool)
    requires
        ended(a),
        ended(b),
    ensures
        difference(a, b, fold, 0) == 0 <==> if fold {
            units_equal_fold(text(a), text(b))
        } else {
            text(a) == text(b)
        },
{
    lemma_nul_pos(a, 0);
    lemma_nul_pos(b, 0);
    lemma_difference(a, b, fold, 0);
    let n = nul_pos(a, 0);
    if difference(a, b, fold, 0) == 0 {
        assert forall|k: int| 0 <= k < n implies folded(#[trigger] text(a)[k], fold) == folded(
            text(b)[k],
            fold,
        ) by {
            assert(folded(a[k], fold) == folded(b[k], fold));
        }
        if !fold {
            assert(text(a) =~= text(b));
        }
    } else {
        if fold && units_equal_fold(text(a), text(b)) {
            assert forall|k: int| 0 <= k <= n implies #[trigger] folded(a[k], fold) == folded(
                b[k],
                fold,
            ) by {
                if k < n {
                    assert(lower_unit(text(a)[k]) == lower_unit(text(b)[k]));
                }
            }
        }
        if !fold && text(a) == text(b) {
            assert(text(a).len() == text(b).len());
            assert forall|k: int| 0 <= k <= n implies #[trigger] folded(a[k], fold) == folded(
                b[k],
                fold,
            ) by {
                if k < n {
                    assert(text(a)[k] == text(b)[k]);
                }
            }
        }
    }
}

proof fn lemma_difference(a: Seq<u16>, b: Seq<u16>, fold: bool, i: int)
    requires
        ended(a),
        ended(b),
        0 <= i <= nul_pos(a, 0),
        i <= nul_pos(b, 0),
    ensures
        difference(a, b, fold, i) == 0 <==> nul_pos(a, 0) == nul_pos(b, 0) && forall|k: int|
            i <= k <= nul_pos(a, 0) ==> #[trigger] folded(a[k], fold) == folded(b[k], fold),
    decreases a.len() - i,
{
    lemma_nul_pos(a, 0);
    lemma_nul_pos(b, 0);
    let x = folded(a[i], fold);
    let y = folded(b[i], fold);
    if x == y && x != 0 {
        assert(a[i] != 0 && b[i] != 0);
        lemma_difference(a, b, fold, i + 1);
    } else if x == y {
        assert(a[i] == 0 && b[i] == 0);
        assert(i == nul_pos(a, 0)) by {
            if i < nul_pos(a, 0) {
                assert(a[i] != 0);
            }
        }
        assert(i == nul_pos(b, 0)) by {
            if i < nul_pos(b, 0) {
                assert(b[i] != 0);
            }
        }
    }
}

/// Swapping the strings turns the sign around.
pub proof fn comparing_is_antisymmetric(a: Seq<u16>, b: Seq<u16>, fold: bool, i: int)
    ensures
        difference(a, b, fold, i) == -difference(b, a, fold, i),
    decreases a.len() - i,
{
    if 0 <= i < a.len() && i < b.len() {
        comparing_is_antisymmetric(a, b, fold, i + 1);
    }
}

/// Swapping the strings turns the order around.
pub proof fn the_order_is_antisymmetric(a: Seq<u16>, b: Seq<u16>, fold: bool, i: int)
    ensures
        order(a, b, fold, i) == CSTR_LESS + CSTR_GREATER - order(b, a, fold, i),
    decreases a.len() - i,
{
    if 0 <= i < a.len() && i < b.len() {
        the_order_is_antisymmetric(a, b, fold, i + 1);
    }
}

/// Strings are sorted: what comes before a string that comes before a third also
/// comes before the third.
pub proof fn the_order_is_transitive(a: Seq<u16>, b: Seq<u16>, c: Seq<u16>, fold: bool, i: int)
    requires
        0 <= i,
        order(a, b, fold, i) == CSTR_LESS,
        order(b, c, fold, i) != CSTR_GREATER,
    ensures
        order(a, c, fold, i) == CSTR_LESS,
    decreases a.len() - i,
{
    if i < a.len() && i < b.len() && i < c.len() && folded(a[i], fold) == folded(b[i], fold)
        && folded(b[i], fold) == folded(c[i], fold) {
        the_order_is_transitive(a, b, c, fold, i + 1);
    }
}

/// Two strings are equal in the order exactly when they are the same, up to ASCII
/// case if case is ignored.
pub proof fn equal_in_the_order(a: Seq<u16>, b: Seq<u16>, fold: bool)
    ensures
        order(a, b, fold, 0) == CSTR_EQUAL <==> if fold {
            units_equal_fold(a, b)
        } else {
            a == b
        },
{
    lemma_order(a, b, fold, 0);
    if order(a, b, fold, 0) == CSTR_EQUAL {
        assert forall|k: int| 0 <= k < a.len() implies folded(#[trigger] a[k], fold) == folded(
            b[k],
            fold,
        ) by {
            assert(folded(a[k], fold) == folded(b[k], fold));
        }
        if !fold {
            assert(a =~= b);
        }
    }
}

proof fn lemma_order(a: Seq<u16>, b: Seq<u16>, fold: bool, i: int)
    requires
        0 <= i <= a.len(),
        i <= b.len(),
    ensures
        order(a, b, fold, i) == CSTR_EQUAL <==> a.len() == b.len() && forall|k: int|
            i <= k < a.len() ==> #[trigger] folded(a[k], fold) == folded(b[k], fold),
    decreases a.len() - i,
{
    if i < a.len() && i < b.len() {
        if folded(a[i], fold) == folded(b[i], fold) {
            lemma_order(a, b, fold, i + 1);
        } else {
            assert(!(folded(a[i], fold) == folded(b[i], fold)));
        }
    }
}

/// Folding maps `A` to `Z` onto `a` to `z` and keeps every other unit.
pub proof fn folding_changes_capitals_only(c: u16)
    ensures
        folded(c, false) == c,
        folded(c, true) == if 0x41 <= c <= 0x5A {
            c + 32
        } else {
            c as int
        },
{
}

/// Two strings compare as their first units that differ do.
pub proof fn the_first_difference_decides(a: Seq<u16>, b: Seq<u16>, fold: bool, k: int, i: int)
    requires
        0 <= i <= k < a.len(),
        k < b.len(),
        forall|j: int|
            i <= j < k ==> folded(#[trigger] a[j], fold) == folded(b[j], fold) && folded(a[j], fold)
                != 0,
        folded(a[k], fold) != folded(b[k], fold),
    ensures
        difference(a, b, fold, i) == folded(a[k], fold) - folded(b[k], fold),
    decreases k - i,
{
    if i < k {
        assert(folded(a[i], fold) == folded(b[i], fold));
        the_first_difference_decides(a, b, fold, k, i + 1);
    }
}

/// In the sorting order the first units that differ decide: the string with the smaller one
/// comes first.
pub proof fn the_first_difference_sorts(a: Seq<u16>, b: Seq<u16>, fold: bool, k: int, i: int)
    requires
        0 <= i <= k < a.len(),
        k < b.len(),
        forall|j: int| i <= j < k ==> folded(#[trigger] a[j], fold) == folded(b[j], fold),
        folded(a[k], fold) != folded(b[k], fold),
    ensures
        order(a, b, fold, i) == if folded(a[k], fold) < folded(b[k], fold) {
            1int
        } else {
            3
        },
    decreases k - i,
{
    if i < k {
        assert(folded(a[i], fold) == folded(b[i], fold));
        the_first_difference_sorts(a, b, fold, k, i + 1);
    }
}

/// A string comes before every longer one that starts with it.
pub proof fn a_prefix_sorts_first(a: Seq<u16>, b: Seq<u16>, fold: bool, i: int)
    requires
        0 <= i <= a.len() < b.len(),
        forall|j: int| i <= j < a.len() ==> folded(#[trigger] a[j], fold) == folded(b[j], fold),
    ensures
        order(a, b, fold, i) == 1,
    decreases a.len() - i,
{
    if i < a.len() {
        assert(folded(a[i], fold) == folded(b[i], fold));
        a_prefix_sorts_first(a, b, fold, i + 1);
    }
}

/// A counted comparison does not look behind the count: what stands there changes nothing.
pub proof fn a_count_ends_the_text(s: Seq<u16>, t: Seq<u16>, n: i32)
    requires
        0 <= n <= s.len(),
        n <= t.len(),
        forall|i: int| 0 <= i < n ==> #[trigger] s[i] == t[i],
    ensures
        counted_text(s, n) == counted_text(t, n),
        counted_text(s, n).len() == n,
{
    assert(s.take(n as int) =~= t.take(n as int));
}

/// A negative count leaves it to the NUL to end the text.
pub proof fn without_a_count_the_nul_ends_the_text(t: Seq<u16>, rest: Seq<u16>, n: i32)
    requires
        n < 0,
        forall|i: int| 0 <= i < t.len() ==> #[trigger] t[i] != 0,
    ensures
        counted_text(t.push(0) + rest, n) == t,
{
    let s = t.push(0) + rest;
    assert forall|i: int| 0 <= i < t.len() implies #[trigger] s[i] != 0 by {
        assert(t[i] != 0);
    }
    assert(s[t.len() as int] == 0);
    lemma_nul_pos(s, 0);
    assert(nul_pos(s, 0) == t.len()) by {
        let p = nul_pos(s, 0);
        if p < t.len() {
            assert(s[p] == t[p]);
        }
    }
    assert(s.take(t.len() as int) =~= t);
}

/// Strings of bytes compare as the same strings of units do, and without one of them there is
/// nothing to compare.
pub proof fn bytes_compare_as_units(a: &[u8], b: &[u8], fold: bool)
    ensures
        byte_difference(Some(a), Some(b), fold) == difference(widened(a@), widened(b@), fold, 0),
        byte_difference(None, Some(b), fold) == 0,
        byte_difference(Some(a), None, fold) == 0,
{
}

} // verus!
