//! The run-time library: status codes, strings, lists and bitmaps.
use kernel::rtl::bitmap::RtlBitmap;
use kernel::rtl::list::ListArena;
use kernel::rtl::string::UnicodeString;
use kernel::rtl::NtStatus;

fn wide(s: &str) -> Vec<u16> {
    s.encode_utf16().collect()
}

#[test]
fn severity_bits_match_windows_semantics() {
    assert!(NtStatus(NtStatus::SUCCESS).is_success());
    assert!(NtStatus(NtStatus::PENDING).is_success());
    assert!(NtStatus(NtStatus::TIMEOUT).is_success());
    assert!(!NtStatus(NtStatus::ACCESS_VIOLATION).is_success());
    assert!(NtStatus(NtStatus::ACCESS_VIOLATION).is_error());
    assert!(!NtStatus(NtStatus::SUCCESS).is_error());
}

#[test]
fn a_warning_is_neither_success_nor_error() {
    let s = NtStatus(NtStatus::DATATYPE_MISALIGNMENT);
    assert!(!s.is_success());
    assert!(!s.is_error());
}

#[test]
fn well_known_values_are_bit_exact() {
    assert_eq!(NtStatus(NtStatus::ACCESS_VIOLATION).0, 0xC0000005);
    assert_eq!(NtStatus(NtStatus::INVALID_PARAMETER).0, 0xC000000D);
    assert_eq!(NtStatus(NtStatus::INSUFFICIENT_RESOURCES).0, 0xC000009A);
}

#[test]
fn a_result_becomes_a_status() {
    let ok: Result<(), NtStatus> = Ok(());
    let bad: Result<(), NtStatus> = Err(NtStatus(NtStatus::ACCESS_DENIED));
    assert_eq!(NtStatus::from(ok), NtStatus(NtStatus::SUCCESS));
    assert_eq!(NtStatus::from(bad), NtStatus(NtStatus::ACCESS_DENIED));
}

#[test]
fn w_macro_builds_utf16_and_lengths_are_bytes() {
    let s = UnicodeString::from_units(&wide("\\Device\\Null"));
    assert_eq!(s.char_len(), 12);
    assert_eq!(s.length, 24);
    assert_eq!(s.to_text(), "\\Device\\Null");
}

#[test]
fn case_insensitive_compare() {
    let a = UnicodeString::from_units(&wide("\\Device\\NULL"));
    let b = UnicodeString::from_units(&wide("\\device\\null"));
    let c = UnicodeString::from_units(&wide("\\device\\nul"));
    assert!(a.eq_ignore_ascii_case(&b));
    assert!(!a.eq_ignore_ascii_case(&c));
}

#[test]
fn text_replaces_what_is_outside_the_first_plane() {
    // One mark for a pair, one for a lone half, everything else as it is.
    let s = UnicodeString::from_units(&[0x41, 0xD83D, 0xDE00, 0xE9, 0xDC00, 0x20AC]);
    assert_eq!(s.to_text(), "A\u{FFFD}\u{E9}\u{FFFD}\u{20AC}");
    assert_eq!(UnicodeString::empty().to_text(), "");
}

#[test]
fn only_ascii_letters_are_folded() {
    let a = UnicodeString::from_units(&[0xC9]);
    let b = UnicodeString::from_units(&[0xE9]);
    assert!(!a.eq_ignore_ascii_case(&b));
}

#[test]
fn fifo_insert_tail_remove_head() {
    let mut l = ListArena::new();
    let head = l.add();
    l.init(head);
    assert!(l.is_empty(head));
    let a = l.add();
    let b = l.add();
    let c = l.add();
    let value = |e: u64| -> u32 {
        if e == a {
            1
        } else if e == b {
            2
        } else {
            3
        }
    };
    l.insert_tail(head, a);
    l.insert_tail(head, b);
    l.insert_tail(head, c);
    assert!(!l.is_empty(head));
    for expected in [1u32, 2, 3] {
        let e = l.remove_head(head).unwrap();
        assert_eq!(value(e), expected);
    }
    assert!(l.is_empty(head));
    assert!(l.remove_head(head).is_none());
}

#[test]
fn lifo_insert_head_and_middle_removal() {
    let mut l = ListArena::new();
    let head = l.add();
    l.init(head);
    let a = l.add();
    let b = l.add();
    let c = l.add();
    l.insert_head(head, a);
    l.insert_head(head, b);
    l.insert_head(head, c);
    l.remove(b);
    assert_eq!(l.get(b).flink, 0);
    let mut seen: Vec<u32> = Vec::new();
    for e in l.for_each(head) {
        seen.push(if e == a {
            1
        } else if e == b {
            2
        } else {
            3
        });
    }
    assert_eq!(seen, [3, 1]);
}

#[test]
fn set_clear_test_roundtrip() {
    let mut bm = RtlBitmap::new(vec![0u64; 4], 200);
    assert_eq!(bm.count_set(), 0);
    bm.set_bits(10, 5);
    assert!(bm.test_bit(10) && bm.test_bit(14) && !bm.test_bit(15));
    assert_eq!(bm.count_set(), 5);
    bm.clear_bits(10, 5);
    assert_eq!(bm.count_set(), 0);
}

#[test]
fn find_clear_bits_and_set_with_hint_and_wrap() {
    let mut bm = RtlBitmap::new(vec![0u64; 2], 128);
    bm.set_bits(0, 64);
    assert_eq!(bm.find_clear_bits_and_set(8, 64), Some(64));
    assert_eq!(bm.find_clear_bits_and_set(56, 120), Some(72));
    assert_eq!(bm.count_set(), 128);
    assert_eq!(bm.find_clear_bits_and_set(1, 0), None);
    bm.clear_bits(100, 4);
    assert_eq!(bm.find_clear_bits_and_set(4, 120), Some(100));
}

#[test]
fn tail_bits_are_never_allocatable() {
    let mut bm = RtlBitmap::new(vec![0u64; 1], 10);
    assert_eq!(bm.find_clear_bits_and_set(11, 0), None);
    assert_eq!(bm.find_clear_bits_and_set(10, 0), Some(0));
    assert_eq!(bm.find_clear_bits_and_set(1, 0), None);
}

/// The bitmap as a list of booleans.
struct Model {
    bits: Vec<bool>,
}

impl Model {
    fn scan(&self, from: usize, to: usize, count: usize) -> Option<usize> {
        let to = to.min(self.bits.len());
        let mut run = 0;
        for i in from..to {
            run = if self.bits[i] { 0 } else { run + 1 };
            if run == count {
                return Some(i + 1 - count);
            }
        }
        None
    }

    fn find_clear_bits_and_set(&mut self, count: usize, hint: usize) -> Option<usize> {
        let n = self.bits.len();
        if count == 0 || count > n {
            return None;
        }
        let hint = if hint >= n { 0 } else { hint };
        let found = self.scan(hint, n, count).or_else(|| self.scan(0, hint + count, count));
        if let Some(start) = found {
            for b in &mut self.bits[start..start + count] {
                *b = true;
            }
        }
        found
    }
}

/// A small generator of pseudo-random numbers.
fn next(seed: &mut u64) -> usize {
    *seed = seed.wrapping_mul(6364136223846793005).wrapping_add(1442695040888963407);
    (*seed >> 33) as usize
}

#[test]
fn bitmap_matches_model() {
    let mut seed = 1u64;
    for round in 0..100usize {
        let size = 1 + (round * 37) % 511;
        let mut bm = RtlBitmap::new(vec![0u64; (size + 63) / 64], size);
        let mut model = Model { bits: vec![false; size] };
        let mut live: Vec<(usize, usize)> = Vec::new();
        for k in 0..300usize {
            if next(&mut seed) % 2 == 0 {
                let count = (1 + next(&mut seed) % 39).min(size);
                let hint = next(&mut seed) % size;
                let got = bm.find_clear_bits_and_set(count, hint);
                assert_eq!(got, model.find_clear_bits_and_set(count, hint));
                if let Some(start) = got {
                    for &(s, c) in &live {
                        assert!(start + count <= s || s + c <= start);
                    }
                    live.push((start, count));
                }
            } else if !live.is_empty() {
                let i = k % live.len();
                let (s, c) = live.swap_remove(i);
                bm.clear_bits(s, c);
                for b in &mut model.bits[s..s + c] {
                    *b = false;
                }
            }
            assert_eq!(bm.count_set(), model.bits.iter().filter(|b| **b).count());
        }
    }
}

#[test]
fn allocated_runs_are_in_bounds() {
    let mut seed = 7u64;
    for size in [1usize, 5, 63, 64, 65, 127, 200, 255] {
        let mut bm = RtlBitmap::new(vec![0u64; (size + 63) / 64], size);
        for _ in 0..100 {
            let count = 1 + next(&mut seed) % 31;
            if let Some(start) = bm.find_clear_bits_and_set(count, 0) {
                assert!(start + count <= size);
                for i in start..start + count {
                    assert!(bm.test_bit(i));
                }
            }
        }
    }
}
