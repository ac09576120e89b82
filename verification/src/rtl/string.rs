//! `UNICODE_STRING`, NT's counted UTF-16 string.
//!
//! `Length` and `MaximumLength` are in **bytes**; the record is
//! `{ u16 Length @0; u16 MaximumLength @2; u64 Buffer @8 }`, sixteen bytes.
use crate::bytes::{
    bytes16, bytes64, get16, get64, lemma_bytes16, lemma_bytes64, lemma_get16_in, lemma_get64_in, put16,
    put64,
};
use vstd::prelude::*;

verus! {

/// Size of the in-memory record.
pub const UNICODE_STRING_SIZE: usize = 16;

/// Offset of `Length` in the record.
pub const LENGTH_OFFSET: usize = 0;

/// Offset of `MaximumLength` in the record.
pub const MAXIMUM_LENGTH_OFFSET: usize = 2;

/// Offset of `Buffer` in the record.
pub const BUFFER_OFFSET: usize = 8;

/// The most code units whose byte count fits the 16-bit `Length`.
pub const MAX_UNITS: usize = 0x7FFF;

/// A counted UTF-16 string that owns its units.
#[derive(Debug)]
pub struct UnicodeString {
    /// Bytes in use: twice the number of code units.
    pub length: u16,
    /// Bytes allocated in `buffer`.
    pub maximum_length: u16,
    /// The code units.
    pub buffer: Vec<u16>,
}

/// ASCII lower case of a UTF-16 unit.
pub open spec fn lower_unit(c: u16) -> u16 {
    if 0x41 <= c <= 0x5A {
        (c + 32) as u16
    } else {
        c
    }
}

/// Executable form of [`lower_unit`].
pub fn to_lower_unit(c: u16) -> (r: u16)
    ensures
        r == lower_unit(c),
{
    if 0x41 <= c && c <= 0x5A {
        c + 32
    } else {
        c
    }
}

/// Two unit sequences equal up to ASCII case.
pub open spec fn units_equal_fold(a: Seq<u16>, b: Seq<u16>) -> bool {
    a.len() == b.len() && forall|i: int|
        0 <= i < a.len() ==> lower_unit(#[trigger] a[i]) == lower_unit(b[i])
}

impl UnicodeString {
    /// The units in use.
    pub open spec fn units(&self) -> Seq<u16> {
        self.buffer@.take(self.length as int / 2)
    }

    /// The lengths are even, in order and covered by the buffer.
    pub open spec fn wf(&self) -> bool {
        &&& self.length % 2 == 0
        &&& self.length <= self.maximum_length
        &&& self.maximum_length <= 2 * self.buffer@.len()
    }

    /// An empty string with no buffer.
    pub fn empty() -> (s: Self)
        ensures
            s.wf(),
            s.units() == Seq::<u16>::empty(),
            s.length == 0,
            s.maximum_length == 0,
            s.buffer@.len() == 0,
    {
        UnicodeString { length: 0, maximum_length: 0, buffer: Vec::new() }
    }

    /// `RtlInitUnicodeString`: a string of exactly these units.
    pub fn from_units(units: &[u16]) -> (s: Self)
        requires
            units@.len() <= MAX_UNITS,
        ensures
            s.wf(),
            s.units() == units@,
            s.buffer@ == units@,
            s.length == 2 * units@.len(),
            s.maximum_length == 2 * units@.len(),
    {
        let n: u16 = (units.len() * 2) as u16;
        let buffer = vstd::slice::slice_to_vec(units);
        let s = UnicodeString { length: n, maximum_length: n, buffer };
        assert(s.units() =~= units@);
        s
    }

    /// Number of UTF-16 code units.
    pub fn char_len(&self) -> (n: usize)
        ensures
            n == self.length / 2,
            self.wf() ==> n == self.units().len(),
    {
        (self.length / 2) as usize
    }

    /// The in-use units.
    pub fn as_units(&self) -> (r: &[u16])
        requires
            self.wf(),
        ensures
            r@ == self.units(),
    {
        vstd::slice::slice_subrange(self.buffer.as_slice(), 0, self.char_len())
    }

    /// `RtlEqualUnicodeString` with case ignored, for the ASCII subset.
    pub fn eq_ignore_ascii_case(&self, other: &UnicodeString) -> (r: bool)
        requires
            self.wf(),
            other.wf(),
        ensures
            r == units_equal_fold(self.units(), other.units()),
    {
        let a = self.as_units();
        let b = other.as_units();
        if a.len() != b.len() {
            return false;
        }
        let mut i: usize = 0;
        while i < a.len()
            invariant
                a@ == self.units(),
                b@ == other.units(),
                a@.len() == b@.len(),
                i <= a@.len(),
                forall|k: int| 0 <= k < i ==> lower_unit(#[trigger] a@[k]) == lower_unit(b@[k]),
            decreases a@.len() - i,
        {
            if to_lower_unit(a[i]) != to_lower_unit(b[i]) {
                assert(lower_unit(a@[i as int]) != lower_unit(b@[i as int]));
                return false;
            }
            i = i + 1;
        }
        true
    }

    /// The string as shown in diagnostics.
    pub fn to_text(&self) -> (t: String)
        requires
            self.wf(),
        ensures
            t@ == rendered(self.units()),
    {
        let units = self.as_units();
        let mut t: String = String::new();
        let n: usize = units.len();
        let mut i: usize = 0;
        assert(units@.skip(0) =~= units@);
        assert(t@ + rendered(units@) =~= rendered(units@));
        while i < n
            invariant
                i <= n,
                n == units@.len(),
                t@ + rendered(units@.skip(i as int)) == rendered(units@),
            decreases n - i,
        {
            let u: u16 = units[i];
            let ghost rest = units@.skip(i as int);
            let ghost told = t@;
            let half: bool = 0xD800 <= u && u <= 0xDFFF;
            assert(rest[0] == u);
            assert(rest.skip(1) =~= units@.skip(i + 1));
            if half {
                push_char(&mut t, REPLACEMENT);
                let pair: bool = u <= 0xDBFF && n - i > 1 && 0xDC00 <= units[i + 1] && units[i + 1]
                    <= 0xDFFF;
                if pair {
                    assert(rest.skip(2) =~= units@.skip(i + 2));
                    assert(rest[1] == units@[i + 1]);
                    assert(t@ + rendered(units@.skip(i + 2)) =~= told + rendered(rest));
                    i = i + 2;
                } else {
                    assert(rest.len() > 1 ==> rest[1] == units@[i + 1]);
                    assert(t@ + rendered(units@.skip(i + 1)) =~= told + rendered(rest));
                    i = i + 1;
                }
            } else {
                match char_of(u as u32) {
                    Some(c) => {
                        push_char(&mut t, c);
                    },
                    None => {},
                }
                assert(t@ + rendered(units@.skip(i + 1)) =~= told + rendered(rest));
                i = i + 1;
            }
        }
        assert(units@.skip(n as int) =~= Seq::<u16>::empty());
        assert(t@ =~= t@ + rendered(units@.skip(n as int)));
        t
    }

    /// The sixteen-byte record for a string whose buffer lies at `buffer_va`.
    pub fn to_record(&self, buffer_va: u64) -> (r: Vec<u8>)
        ensures
            r@ == unicode_string_record(self.length, self.maximum_length, buffer_va),
            r@.len() == 16,
    {
        let mut r: Vec<u8> = vec![0u8; UNICODE_STRING_SIZE];
        let ghost zero = r@;
        put16(&mut r, LENGTH_OFFSET, self.length);
        put16(&mut r, MAXIMUM_LENGTH_OFFSET, self.maximum_length);
        put64(&mut r, BUFFER_OFFSET, buffer_va);
        assert(r@ =~= unicode_string_record(self.length, self.maximum_length, buffer_va));
        r
    }
}

/// What a unit that is half of a surrogate pair is shown as.
pub const REPLACEMENT: char = '\u{FFFD}';

/// First half of a surrogate pair.
pub open spec fn high_surrogate(u: u16) -> bool {
    0xD800 <= u <= 0xDBFF
}

/// Second half of a surrogate pair.
pub open spec fn low_surrogate(u: u16) -> bool {
    0xDC00 <= u <= 0xDFFF
}

/// Units as shown in diagnostics: a surrogate pair, and a half of one that stands
/// alone, is shown as a replacement character.
pub open spec fn rendered(units: Seq<u16>) -> Seq<char>
    decreases units.len(),
{
    if units.len() == 0 {
        Seq::empty()
    } else if high_surrogate(units[0]) && units.len() > 1 && low_surrogate(units[1]) {
        seq![REPLACEMENT] + rendered(units.skip(2))
    } else if high_surrogate(units[0]) || low_surrogate(units[0]) {
        seq![REPLACEMENT] + rendered(units.skip(1))
    } else {
        seq![units[0] as char] + rendered(units.skip(1))
    }
}

/// `char::from_u32`: the character with a code point, none outside the range of
/// code points and for surrogates.
#[verifier::external_body]
fn char_of(u: u32) -> (c: Option<char>)
    ensures
        c == if u <= 0xD7FF || 0xE000 <= u <= 0x10FFFF {
            Some(u as char)
        } else {
            None
        },
{
    char::from_u32(u)
}

/// `String::push`: append one character.
#[verifier::external_body]
fn push_char(s: &mut String, c: char)
    ensures
        final(s)@ == old(s)@.push(c),
{
    s.push(c);
}

/// The bytes of a `UNICODE_STRING` record.
pub open spec fn unicode_string_record(length: u16, maximum: u16, buffer_va: u64) -> Seq<u8> {
    bytes16(length) + bytes16(maximum) + seq![0u8, 0u8, 0u8, 0u8] + bytes64(buffer_va)
}

/// Case-insensitive equality is an equivalence relation.
pub proof fn equal_fold_is_equivalence(a: Seq<u16>, b: Seq<u16>, c: Seq<u16>)
    ensures
        units_equal_fold(a, a),
        units_equal_fold(a, b) ==> units_equal_fold(b, a),
        units_equal_fold(a, b) && units_equal_fold(b, c) ==> units_equal_fold(a, c),
{
    if units_equal_fold(a, b) {
        assert forall|i: int| 0 <= i < b.len() implies lower_unit(#[trigger] b[i]) == lower_unit(
            a[i],
        ) by {
            assert(lower_unit(a[i]) == lower_unit(b[i]));
        }
    }
    if units_equal_fold(a, b) && units_equal_fold(b, c) {
        assert forall|i: int| 0 <= i < a.len() implies lower_unit(#[trigger] a[i]) == lower_unit(
            c[i],
        ) by {
            assert(lower_unit(b[i]) == lower_unit(c[i]));
        }
    }
}

/// A counted string is told in 16 bytes: its length and its room in bytes, and behind four
/// bytes of padding where it stands.
pub proof fn a_string_record_reads_back(length: u16, maximum: u16, va: u64)
    ensures
        ({
            let r = unicode_string_record(length, maximum, va);
            &&& r.len() == 16
            &&& get16(r, 0) == length
            &&& get16(r, 2) == maximum
            &&& get64(r, 8) == va
        }),
{
    let r = unicode_string_record(length, maximum, va);
    lemma_bytes16(length);
    lemma_bytes16(maximum);
    lemma_bytes64(va);
    lemma_get16_in(r, 0, bytes16(length));
    lemma_get16_in(r, 2, bytes16(maximum));
    lemma_get64_in(r, 8, bytes64(va));
}

/// A unit that is no surrogate is rendered as its character, in front of the rest.
pub proof fn a_plain_unit_is_its_character(c: u16, rest: Seq<u16>)
    requires
        !(0xD800 <= c <= 0xDFFF),
    ensures
        rendered(seq![c] + rest) == seq![c as char] + rendered(rest),
        rendered(Seq::empty()).len() == 0,
{
    let s = seq![c] + rest;
    assert(s[0] == c);
    assert(s.skip(1) =~= rest);
}

/// A pair of surrogates, or a lone one, is rendered as one replacement character.
pub proof fn surrogates_are_replaced(hi: u16, lo: u16, rest: Seq<u16>)
    requires
        0xD800 <= hi <= 0xDBFF,
        0xDC00 <= lo <= 0xDFFF,
    ensures
        rendered(seq![hi, lo] + rest) == seq!['\u{FFFD}'] + rendered(rest),
        rendered(seq![lo] + rest) == seq!['\u{FFFD}'] + rendered(rest),
        rest.len() == 0 || !(0xDC00 <= rest[0] <= 0xDFFF) ==> rendered(seq![hi] + rest) == seq![
            '\u{FFFD}',
        ] + rendered(rest),
{
    let p = seq![hi, lo] + rest;
    assert(p[0] == hi && p[1] == lo);
    assert(p.skip(2) =~= rest);
    let l = seq![lo] + rest;
    assert(l[0] == lo);
    assert(l.skip(1) =~= rest);
    let h = seq![hi] + rest;
    assert(h[0] == hi);
    assert(h.skip(1) =~= rest);
    if rest.len() > 0 {
        assert(h[1] == rest[0]);
    }
}

} // verus!
