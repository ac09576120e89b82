//! Fields at fixed offsets of a block of bytes.
//!
//! Thread and process blocks, trap contexts and find data are laid out by lists
//! of fields; what a list writes reads back, and nothing else changes.
use crate::bytes::{bytes16, bytes32, bytes64, get64, overlay, put64, put_bytes};
use vstd::prelude::*;

verus! {

/// `s` with a 64-bit field written.
pub open spec fn set64(s: Seq<u8>, o: int, v: u64) -> Seq<u8> {
    overlay(s, o, bytes64(v))
}

/// `s` with a 32-bit field written.
pub open spec fn set32(s: Seq<u8>, o: int, v: u32) -> Seq<u8> {
    overlay(s, o, bytes32(v))
}

/// `s` with a 16-bit field written.
pub open spec fn set16(s: Seq<u8>, o: int, v: u16) -> Seq<u8> {
    overlay(s, o, bytes16(v))
}

/// `s` with a byte written.
pub open spec fn set8(s: Seq<u8>, o: int, v: u8) -> Seq<u8> {
    overlay(s, o, seq![v])
}

/// Write a byte.
pub fn put8(buf: &mut Vec<u8>, o: usize, v: u8)
    requires
        o < old(buf).len(),
    ensures
        final(buf)@ == set8(old(buf)@, o as int, v),
{
    let one: [u8; 1] = [v];
    put_bytes(buf, o, &one);
    assert(one@ =~= seq![v]);
}

/// A 64-bit field of a block.
#[derive(Debug, Clone, Copy, PartialEq, Eq, Structural)]
pub struct Field {
    pub at: usize,
    pub value: u64,
}

/// `b` with some fields written, one after the other.
#[verifier::opaque]
pub open spec fn set_fields(b: Seq<u8>, fields: Seq<Field>) -> Seq<u8>
    decreases fields.len(),
{
    if fields.len() == 0 {
        b
    } else {
        let f = fields.last();
        set64(set_fields(b, fields.drop_last()), f.at as int, f.value)
    }
}

/// Write some 64-bit fields, one after the other.
pub fn put_fields(b: &mut Vec<u8>, fields: &[Field])
    requires
        forall|i: int| 0 <= i < fields@.len() ==> (#[trigger] fields@[i]).at + 8 <= old(b).len(),
    ensures
        final(b).len() == old(b).len(),
        final(b)@ == set_fields(old(b)@, fields@),
{
    let ghost before = b@;
    let mut i: usize = 0;
    proof {
        reveal_with_fuel(set_fields, 1);
        assert(fields@.take(0) =~= Seq::empty());
    }
    while i < fields.len()
        invariant
            i <= fields@.len(),
            b@.len() == before.len(),
            b.len() == old(b).len(),
            forall|i: int| 0 <= i < fields@.len() ==> (#[trigger] fields@[i]).at + 8 <= b.len(),
            b@ == set_fields(before, fields@.take(i as int)),
        decreases fields@.len() - i,
    {
        proof {
            reveal_with_fuel(set_fields, 1);
            let t = fields@.take(i + 1);
            assert(t.drop_last() =~= fields@.take(i as int));
            assert(t.last() == fields@[i as int]);
        }
        put64(b, fields[i].at, fields[i].value);
        i = i + 1;
    }
    assert(fields@.take(i as int) =~= fields@);
}

/// `b` differs from `a` only in `[lo, hi)`.
pub open spec fn only_in(a: Seq<u8>, b: Seq<u8>, lo: int, hi: int) -> bool {
    &&& a.len() == b.len()
    &&& forall|i: int| 0 <= i < a.len() && !(lo <= i < hi) ==> #[trigger] b[i] == a[i]
}

/// The 64-bit field at `o` holds `v`.
pub open spec fn holds64(s: Seq<u8>, o: int, v: u64) -> bool {
    0 <= o && o + 8 <= s.len() && get64(s, o) == v
}

/// Every field of a list holds its value.
#[verifier::opaque]
pub open spec fn hold_all(s: Seq<u8>, fields: Seq<Field>) -> bool {
    forall|k: int|
        0 <= k < fields.len() ==> holds64(s, (#[trigger] fields[k]).at as int, fields[k].value)
}

/// The fields lie in `[lo, hi)` and do not overlap.
pub open spec fn spread(fields: Seq<Field>, lo: int, hi: int) -> bool {
    &&& forall|k: int| 0 <= k < fields.len() ==> lo <= (#[trigger] fields[k]).at && fields[k].at + 8 <= hi
    &&& forall|j: int, k: int|
        0 <= j < k < fields.len() ==> (#[trigger] fields[j]).at + 8 <= (#[trigger] fields[k]).at
}

/// No field touches `[lo, hi)`.
pub open spec fn clear_of(fields: Seq<Field>, lo: int, hi: int) -> bool {
    forall|k: int| 0 <= k < fields.len() ==> (#[trigger] fields[k]).at + 8 <= lo || hi <= fields[k].at
}

/// Fields keep their values when what changes is elsewhere.
pub proof fn lemma_keep(a: Seq<u8>, b: Seq<u8>, lo: int, hi: int, fields: Seq<Field>)
    requires
        only_in(a, b, lo, hi),
        hold_all(a, fields),
        clear_of(fields, lo, hi),
    ensures
        hold_all(b, fields),
{
    reveal(hold_all);
    assert forall|k: int| 0 <= k < fields.len() implies holds64(
        b,
        (#[trigger] fields[k]).at as int,
        fields[k].value,
    ) by {
        let o = fields[k].at as int;
        assert(holds64(a, o, fields[k].value));
        assert(b[o] == a[o] && b[o + 1] == a[o + 1] && b[o + 2] == a[o + 2] && b[o + 3] == a[o + 3]
            && b[o + 4] == a[o + 4] && b[o + 5] == a[o + 5] && b[o + 6] == a[o + 6] && b[o + 7]
            == a[o + 7]);
    }
}

/// Fields that do not overlap all read back, and nothing else changes.
pub proof fn fields_read_back(b: Seq<u8>, fields: Seq<Field>, lo: int, hi: int)
    requires
        0 <= lo <= hi <= b.len(),
        spread(fields, lo, hi),
    ensures
        only_in(b, set_fields(b, fields), lo, hi),
        hold_all(set_fields(b, fields), fields),
    decreases fields.len(),
{
    reveal(hold_all);
    reveal_with_fuel(set_fields, 1);
    if fields.len() > 0 {
        let init = fields.drop_last();
        let f = fields.last();
        assert forall|j: int, k: int| 0 <= j < k < init.len() implies (#[trigger] init[j]).at + 8
            <= (#[trigger] init[k]).at by {
            assert(fields[j].at + 8 <= fields[k].at);
        }
        assert forall|k: int| 0 <= k < init.len() implies lo <= (#[trigger] init[k]).at
            && init[k].at + 8 <= hi && init[k].at + 8 <= f.at by {
            assert(fields[k].at + 8 <= fields[fields.len() - 1].at);
        }
        assert(lo <= fields[fields.len() - 1].at);
        fields_read_back(b, init, lo, hi);
        let s = set_fields(b, init);
        let r = set_fields(b, fields);
        crate::bytes::lemma_get_put64(s, f.at as int, f.value);
        assert(bytes64(f.value).len() == 8);
        assert(only_in(s, r, f.at as int, f.at + 8));
        assert(clear_of(init, f.at as int, f.at + 8));
        lemma_keep(s, r, f.at as int, f.at + 8, init);
        assert forall|k: int| 0 <= k < fields.len() implies holds64(
            r,
            (#[trigger] fields[k]).at as int,
            fields[k].value,
        ) by {
            if k < init.len() {
                assert(init[k] == fields[k]);
            }
        }
    }
}

/// A byte that no field touches keeps its value.
pub proof fn bytes_between_fields_stay(b: Seq<u8>, fields: Seq<Field>, i: int)
    requires
        0 <= i < b.len(),
        clear_of(fields, i, i + 1),
    ensures
        set_fields(b, fields).len() == b.len(),
        set_fields(b, fields)[i] == b[i],
    decreases fields.len(),
{
    reveal_with_fuel(set_fields, 1);
    if fields.len() > 0 {
        let init = fields.drop_last();
        assert forall|k: int| 0 <= k < init.len() implies (#[trigger] init[k]).at + 8 <= i || i + 1
            <= init[k].at by {
            assert(fields[k].at + 8 <= i || i + 1 <= fields[k].at);
        }
        bytes_between_fields_stay(b, init, i);
        let f = fields[fields.len() - 1];
        assert(f.at + 8 <= i || i + 1 <= f.at);
        assert(bytes64(f.value).len() == 8);
    }
}

} // verus!
