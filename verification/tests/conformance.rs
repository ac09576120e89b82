//! Values and layouts that the published headers fix.
use kernel::ke::irql;
use kernel::ke::selectors::{
    KGDT64_NULL, KGDT64_R0_CODE, KGDT64_R0_DATA, KGDT64_R3_CMCODE, KGDT64_R3_CODE, KGDT64_R3_DATA,
    KGDT64_SYS_TSS, RPL_USER,
};
use kernel::rtl::list::ListEntry;
use kernel::rtl::string::{
    UnicodeString, BUFFER_OFFSET, LENGTH_OFFSET, MAXIMUM_LENGTH_OFFSET, UNICODE_STRING_SIZE,
};
use kernel::rtl::NtStatus;
use std::mem::{align_of, size_of};

#[test]
fn gdt_selector_layout_matches_nt_amd64() {
    assert_eq!(KGDT64_NULL, 0x00);
    assert_eq!(KGDT64_R0_CODE, 0x10);
    assert_eq!(KGDT64_R0_DATA, 0x18);
    assert_eq!(KGDT64_R3_CMCODE, 0x20);
    assert_eq!(KGDT64_R3_DATA, 0x28);
    assert_eq!(KGDT64_R3_CODE, 0x30);
    assert_eq!(KGDT64_SYS_TSS, 0x40);
    // The fast-call instructions find the segments by their distance.
    assert_eq!(KGDT64_R0_DATA, KGDT64_R0_CODE + 8);
    assert_eq!(KGDT64_R3_DATA, KGDT64_R3_CMCODE + 8);
    assert_eq!(KGDT64_R3_CODE, KGDT64_R3_CMCODE + 16);
    assert_eq!(RPL_USER, 3);
}

#[test]
fn list_entry_is_two_pointers() {
    assert_eq!(size_of::<ListEntry>(), 16);
    let r = ListEntry { flink: 0x1122_3344_5566_7788, blink: 0x99 }.to_record();
    assert_eq!(r.len(), 16);
    assert_eq!(r[0..8], 0x1122_3344_5566_7788u64.to_le_bytes());
    assert_eq!(r[8..16], 0x99u64.to_le_bytes());
}

#[test]
fn unicode_string_layout() {
    let s = UnicodeString::from_units(&[0x41, 0x42, 0x43]);
    let r = s.to_record(0x1234_5678_9ABC);
    assert_eq!(r.len(), 16);
    assert_eq!(align_of::<UnicodeString>(), 8);
    assert_eq!(LENGTH_OFFSET, 0);
    assert_eq!(MAXIMUM_LENGTH_OFFSET, 2);
    assert_eq!(BUFFER_OFFSET, 8);
    assert_eq!(r[0..2], [6, 0]);
    assert_eq!(r[2..4], [6, 0]);
    assert_eq!(r[8..16], 0x1234_5678_9ABCu64.to_le_bytes());
}

#[test]
fn layout_matches_unicode_string() {
    assert_eq!(LENGTH_OFFSET, 0);
    assert_eq!(MAXIMUM_LENGTH_OFFSET, 2);
    assert_eq!(BUFFER_OFFSET, 8);
    assert_eq!(UNICODE_STRING_SIZE, 16);
}

#[test]
fn ntstatus_values_are_bit_exact() {
    assert_eq!(NtStatus::SUCCESS, 0x0000_0000);
    assert_eq!(NtStatus::TIMEOUT, 0x0000_0102);
    assert_eq!(NtStatus::PENDING, 0x0000_0103);
    assert_eq!(NtStatus::UNSUCCESSFUL, 0xC000_0001);
    assert_eq!(NtStatus::ACCESS_VIOLATION, 0xC000_0005);
    assert_eq!(NtStatus::INVALID_PARAMETER, 0xC000_000D);
    assert_eq!(NtStatus::OBJECT_NAME_COLLISION, 0xC000_0035);
    assert_eq!(NtStatus::INSUFFICIENT_RESOURCES, 0xC000_009A);
}

#[test]
fn irql_levels_and_clock_vector_mapping() {
    assert_eq!(irql::PASSIVE_LEVEL, 0);
    assert_eq!(irql::APC_LEVEL, 1);
    assert_eq!(irql::DISPATCH_LEVEL, 2);
    assert_eq!(irql::CLOCK_LEVEL, 13);
    assert_eq!(irql::IPI_LEVEL, 14);
    assert_eq!(irql::HIGH_LEVEL, 15);
    // A vector runs at the level in its high half; the clock is vector 0xD1.
    const CLOCK_VECTOR: u8 = 0xD1;
    assert_eq!((CLOCK_VECTOR >> 4) as u8, irql::CLOCK_LEVEL);
}
