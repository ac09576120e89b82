//! The memory manager.
use kernel::mm::pageout::{
    drop_process, drop_range, evict_begin, evict_finish, evict_for_test, evict_settle, evict_some,
    init as init_page_file, last_evicted_slot, online, page_in, page_in_finish, paged_out_count,
    paged_out_take, register_page, PageFile, PageInStep,
};
use kernel::mm::phys::{
    init, mm_allocate_contiguous_pages, mm_allocate_page, mm_free_contiguous_pages, mm_free_page,
    mm_free_page_count, mm_write_physical, MemoryRegion, PhysicalMemory,
};
use kernel::mm::pool::{
    block_size_for, over_aligned, pool_alloc, pool_alloc_checked, pool_bytes_in_use, pool_free,
    pool_free_any, pool_tag, Pool,
};
use kernel::mm::probe::{probe_for_read, probe_for_write};
use kernel::mm::space::{
    mm_free_privatized, mm_free_user_address_space, mm_privatize_pages, Privatized,
};
use kernel::mm::resident::make_resident;
use kernel::mm::user::{copy_from_user, copy_to_user, read_user, write_user, CopyStep};
use kernel::mm::vad::{
    vad_allocate, vad_count, vad_covers, vad_free, vad_protect, vad_resolve, vad_teardown, Resolve,
    VadDatabase, USER_VAD_BASE,
};
use kernel::mm::virt::{
    clear_nx_path, mm_create_address_space, mm_current_address_space, mm_kernel_address_space,
    mm_save_kernel_address_space, mm_set_smap, mm_switch_address_space, set_user_exec_path,
    user_access_begin, user_access_end, mm_debug_pte, mm_get_physical_address, mm_map_user_range,
    mm_protect_user_page, mm_set_user_executable, mm_unmap_user_page, page_present_and_user,
    table_index, Mmu, ENTRY_LARGE, ENTRY_NX, ENTRY_PRESENT, ENTRY_RW, ENTRY_USER,
};
use kernel::mm::{phys_to_virt, set_phys_offset, PhysAddr, PhysWindow};
use kernel::rtl::NtStatus;

const WINDOW: u64 = 0xFFFF_F000_0000_0000;

fn memory() -> PhysicalMemory {
    let mut m = PhysicalMemory::new(vec![0u8; 0x80_0000]);
    let regions = [
        MemoryRegion { start: 0, end: 0x10_0000, usable: true },
        MemoryRegion { start: 0x10_0000, end: 0x20_0000, usable: false },
        MemoryRegion { start: 0x20_0000, end: 0x80_0000, usable: true },
    ];
    init(&mut m, &regions);
    m
}

fn machine() -> Mmu {
    let mut phys = memory();
    let root = mm_allocate_page(&mut phys).unwrap();
    let mut window = PhysWindow::new();
    set_phys_offset(&mut window, WINDOW);
    Mmu { phys, window, cr3: root.0, kernel_pml4: root.0, smap_on: false }
}

/// A machine whose user pages at `va` are mapped to fresh frames.
fn mapped(va: u64, pages: usize, writable: bool) -> (Mmu, PhysAddr) {
    let mut mmu = machine();
    let pa = mm_allocate_contiguous_pages(&mut mmu.phys, pages).unwrap();
    let root = PhysAddr(mmu.cr3);
    assert!(mm_map_user_range(&mut mmu.phys, root, va, pa, pages, writable, false));
    (mmu, pa)
}

#[test]
fn start_up_reserves_the_bitmap_and_frame_zero() {
    let mut m = PhysicalMemory::new(vec![0u8; 0x80_0000]);
    let regions = [
        MemoryRegion { start: 0, end: 0x10_0000, usable: true },
        MemoryRegion { start: 0x10_0000, end: 0x20_0000, usable: false },
        MemoryRegion { start: 0x20_0000, end: 0x80_0000, usable: true },
    ];
    let rep = init(&mut m, &regions);
    assert_eq!(rep.home_start, 0x20_0000);
    assert_eq!(rep.carve_bytes, 4096);
    assert_eq!(rep.free_pages, 256 + 1536 - 1 - 1);
    assert_eq!(mm_free_page_count(&m), rep.free_pages);
    assert!(m.bitmap.test_bit(0));
    assert!(m.bitmap.test_bit(0x200));
    assert!(m.bitmap.test_bit(0x100));
    assert!(!m.bitmap.test_bit(1));
}

#[test]
fn pages_are_handed_out_zeroed_and_taken_back() {
    let mut m = memory();
    let before = mm_free_page_count(&m);
    let a = mm_allocate_contiguous_pages(&mut m, 3).unwrap();
    assert_eq!(a, PhysAddr(0x1000));
    mm_write_physical(&mut m, a, &[7u8; 100]);
    assert_eq!(mm_free_page_count(&m), before - 3);
    mm_free_contiguous_pages(&mut m, a, 3);
    assert_eq!(mm_free_page_count(&m), before);
    let b = mm_allocate_page(&mut m).unwrap();
    assert_eq!(b, a);
    assert!(m.ram[b.0 as usize..b.0 as usize + 4096].iter().all(|&x| x == 0));
    mm_free_page(&mut m, b);
    assert_eq!(mm_free_page_count(&m), before);
    assert_eq!(mm_allocate_contiguous_pages(&mut m, 100_000), None);
    assert_eq!(mm_allocate_contiguous_pages(&mut m, 0), None);
}

#[test]
fn frame_numbers_and_window_addresses() {
    assert_eq!(PhysAddr(0x12345).pfn(), 0x12);
    assert_eq!(PhysAddr::from_pfn(0x12), PhysAddr(0x12000));
    let mut w = PhysWindow::new();
    set_phys_offset(&mut w, WINDOW);
    assert_eq!(phys_to_virt(&w, PhysAddr(0x3000)), WINDOW + 0x3000);
}

#[test]
fn table_indices_are_nine_bits_each() {
    let va = 0x0000_7F12_3456_7000u64;
    assert_eq!(table_index(va, 4), ((va >> 39) & 0x1FF) as usize);
    assert_eq!(table_index(va, 3), ((va >> 30) & 0x1FF) as usize);
    assert_eq!(table_index(va, 2), ((va >> 21) & 0x1FF) as usize);
    assert_eq!(table_index(va, 1), ((va >> 12) & 0x1FF) as usize);
}

#[test]
fn a_mapped_page_translates_until_it_is_unmapped() {
    let va = 0x40_0000u64;
    let (mut mmu, pa) = mapped(va, 2, true);
    assert_eq!(mm_get_physical_address(&mmu, va + 0x123), Some(PhysAddr(pa.0 + 0x123)));
    assert_eq!(mm_get_physical_address(&mmu, va + 0x1FFF), Some(PhysAddr(pa.0 + 0x1FFF)));
    assert_eq!(mm_get_physical_address(&mmu, va + 0x2000), None);
    assert!(page_present_and_user(&mmu, va));
    let e = mm_debug_pte(&mmu, va).unwrap();
    assert_eq!(e & (ENTRY_PRESENT | ENTRY_RW | ENTRY_USER), ENTRY_PRESENT | ENTRY_RW | ENTRY_USER);
    assert_ne!(e & ENTRY_NX, 0);
    assert_eq!(mm_unmap_user_page(&mut mmu, va), Some(pa));
    assert_eq!(mm_get_physical_address(&mmu, va), None);
    assert_eq!(mm_unmap_user_page(&mut mmu, va), None);
    assert!(!page_present_and_user(&mmu, va));
}

#[test]
fn protection_changes_the_page_and_keeps_its_frame() {
    let va = 0x40_0000u64;
    let (mut mmu, pa) = mapped(va, 1, true);
    assert!(mm_protect_user_page(&mut mmu, va, false, true));
    let e = mm_debug_pte(&mmu, va).unwrap();
    assert_eq!(e & ENTRY_RW, 0);
    assert_eq!(e & ENTRY_NX, 0);
    assert_eq!(mm_get_physical_address(&mmu, va), Some(pa));
    assert!(!mm_protect_user_page(&mut mmu, va + 0x10_0000, false, true));
}

#[test]
fn opening_a_range_splits_a_large_page() {
    let mut mmu = machine();
    let root = mmu.cr3;
    let pdpt = mm_allocate_page(&mut mmu.phys).unwrap();
    let pd = mm_allocate_page(&mut mmu.phys).unwrap();
    let va = 0x8000_0000u64;
    let put = |mmu: &mut Mmu, at: u64, v: u64| {
        mm_write_physical(&mut mmu.phys, PhysAddr(at), &v.to_le_bytes());
    };
    put(&mut mmu, root + table_index(va, 4) as u64 * 8, pdpt.0 | ENTRY_PRESENT | ENTRY_RW);
    put(&mut mmu, pdpt.0 + table_index(va, 3) as u64 * 8, pd.0 | ENTRY_PRESENT | ENTRY_RW);
    put(
        &mut mmu,
        pd.0 + table_index(va, 2) as u64 * 8,
        0x20_0000 | ENTRY_PRESENT | ENTRY_RW | ENTRY_LARGE | ENTRY_NX,
    );
    assert_eq!(mm_get_physical_address(&mmu, va + 0x5678), Some(PhysAddr(0x20_5678)));
    assert!(!page_present_and_user(&mmu, va));
    assert!(mm_set_user_executable(&mut mmu, va + 0x1000, 0x1000));
    assert!(page_present_and_user(&mmu, va + 0x1000));
    assert!(!page_present_and_user(&mmu, va + 0x3000));
    assert_eq!(mm_get_physical_address(&mmu, va + 0x5678), Some(PhysAddr(0x20_5678)));
    let e = mm_debug_pte(&mmu, va + 0x1000).unwrap();
    assert_eq!(e & ENTRY_NX, 0);
    let f = mm_debug_pte(&mmu, va + 0x3000).unwrap();
    assert_ne!(f & ENTRY_NX, 0);
}

#[test]
fn opening_a_range_splits_a_giant_page_and_moves_nothing() {
    let mut mmu = machine();
    let root = mmu.cr3;
    let pdpt = mm_allocate_page(&mut mmu.phys).unwrap();
    let va = 0x8000_0000u64;
    let put = |mmu: &mut Mmu, at: u64, v: u64| {
        mm_write_physical(&mut mmu.phys, PhysAddr(at), &v.to_le_bytes());
    };
    put(&mut mmu, root + table_index(va, 4) as u64 * 8, pdpt.0 | ENTRY_PRESENT | ENTRY_RW);
    put(
        &mut mmu,
        pdpt.0 + table_index(va, 3) as u64 * 8,
        0x4000_0000 | ENTRY_PRESENT | ENTRY_RW | ENTRY_LARGE | ENTRY_NX,
    );
    let places = [0u64, 0x1000, 0x1FFF, 0x2345, 0x1F_FFFF, 0x20_0000, 0x3F_F123, 0x3FFF_FFFF];
    for p in places {
        assert_eq!(mm_get_physical_address(&mmu, va + p), Some(PhysAddr(0x4000_0000 + p)));
    }
    let free = mm_free_page_count(&mmu.phys);
    assert!(mm_set_user_executable(&mut mmu, va + 0x1000, 0x1000));
    assert_eq!(mm_free_page_count(&mmu.phys), free - 2);
    for p in places {
        assert_eq!(mm_get_physical_address(&mmu, va + p), Some(PhysAddr(0x4000_0000 + p)));
        assert_eq!(page_present_and_user(&mmu, va + p), p / 0x1000 == 1);
    }
}

#[test]
fn a_new_address_space_shares_the_kernel_half_only() {
    let mut mmu = machine();
    let root = mmu.cr3;
    mm_write_physical(&mut mmu.phys, PhysAddr(root + 8 * 300), &0xABC001u64.to_le_bytes());
    mm_write_physical(&mut mmu.phys, PhysAddr(root + 8 * 3), &0xDEF001u64.to_le_bytes());
    let s = mm_create_address_space(&mut mmu).unwrap();
    let word = |mmu: &Mmu, at: u64| -> u64 {
        let b: [u8; 8] = mmu.phys.ram[at as usize..at as usize + 8].try_into().unwrap();
        u64::from_le_bytes(b)
    };
    assert_eq!(word(&mmu, s.0 + 8 * 300), 0xABC001);
    assert_eq!(word(&mmu, s.0 + 8 * 3), 0);
}

#[test]
fn freeing_an_address_space_returns_its_frames() {
    let mut mmu = machine();
    let s = mm_create_address_space(&mut mmu).unwrap();
    let before = mm_free_page_count(&mmu.phys);
    let pa = mm_allocate_page(&mut mmu.phys).unwrap();
    assert!(mm_map_user_range(&mut mmu.phys, s, 0x40_0000, pa, 1, true, false));
    assert_eq!(mm_free_page_count(&mmu.phys), before - 4);
    mm_free_user_address_space(&mut mmu.phys, s);
    assert_eq!(mm_free_page_count(&mmu.phys), before + 1);
}

#[test]
fn a_private_copy_spares_the_shared_page() {
    let va = WINDOW + 0x60_0000;
    let mut mmu = machine();
    let shared = mm_allocate_page(&mut mmu.phys).unwrap();
    mm_write_physical(&mut mmu.phys, shared, &[0x11u8; 4096]);
    let root = PhysAddr(mmu.cr3);
    assert!(mm_map_user_range(&mut mmu.phys, root, va, shared, 1, true, false));
    let s = mm_create_address_space(&mut mmu).unwrap();
    let before = mm_free_page_count(&mmu.phys);
    let mut rec = Privatized::new();
    let seed = [0x22u8; 4096];
    let window = mmu.window;
    assert!(mm_privatize_pages(&mut mmu.phys, &window, s, va, 4096, &mut rec, &seed));
    assert_eq!(rec.frames.len(), 1);
    assert_eq!(mm_get_physical_address(&mmu, va), Some(shared));
    mmu.cr3 = s.0;
    let own = mm_get_physical_address(&mmu, va).unwrap();
    assert_ne!(own, shared);
    assert_eq!(mmu.phys.ram[own.0 as usize], 0x22);
    assert_eq!(mmu.phys.ram[shared.0 as usize], 0x11);
    mm_free_privatized(&mut mmu.phys, &mut rec);
    assert_eq!(mm_free_page_count(&mmu.phys), before);
}

#[test]
fn private_pages_hold_their_seed_and_move_nothing_else() {
    let mut mmu = machine();
    let root = mmu.cr3;
    let pdpt = mm_allocate_page(&mut mmu.phys).unwrap();
    let put = |mmu: &mut Mmu, at: u64, v: u64| {
        mm_write_physical(&mut mmu.phys, PhysAddr(at), &v.to_le_bytes());
    };
    // A giant page in the kernel's half, which two address spaces share.
    let giant = WINDOW + 0x4000_0000;
    put(&mut mmu, root + table_index(giant, 4) as u64 * 8, pdpt.0 | ENTRY_PRESENT | ENTRY_RW | ENTRY_USER);
    put(
        &mut mmu,
        pdpt.0 + table_index(giant, 3) as u64 * 8,
        0x4000_0000 | ENTRY_PRESENT | ENTRY_RW | ENTRY_USER | ENTRY_LARGE,
    );
    let a = mm_create_address_space(&mut mmu).unwrap();
    let b = mm_create_address_space(&mut mmu).unwrap();
    let va = giant + 0x1F_F000;
    let mut seed = vec![0x41u8; 4096];
    seed.extend_from_slice(&[0x42u8; 4096]);
    let window = mmu.window;
    let mut rec = Privatized::new();
    assert!(mm_privatize_pages(&mut mmu.phys, &window, a, va, 8192, &mut rec, &seed));
    // The pages lie below different tables: the PDPT, a directory and two tables.
    assert_eq!((rec.tables.len(), rec.frames.len()), (4, 2));
    let places = [0u64, 0x1F_EFFF, 0x20_1000, 0x20_1234, 0x3FFF_FFFF];
    for space in [a.0, b.0, root] {
        mmu.cr3 = space;
        for p in places {
            let at = PhysAddr(0x4000_0000 + p);
            assert_eq!(mm_get_physical_address(&mmu, giant + p), Some(at));
            assert!(page_present_and_user(&mmu, giant + p));
        }
        for k in 0..2u64 {
            let at = mm_get_physical_address(&mmu, va + k * 4096 + 5).unwrap();
            assert!(page_present_and_user(&mmu, va + k * 4096));
            if space == a.0 {
                assert_eq!(at, PhysAddr(rec.frames[k as usize] + 5));
                assert_eq!(mmu.phys.ram[at.0 as usize], 0x41 + k as u8);
            } else {
                assert_eq!(at, PhysAddr(0x4000_0000 + 0x1F_F005 + k * 4096));
            }
        }
    }
}

#[test]
fn a_failed_privatize_leaves_the_shared_pages() {
    let (mut mmu, shared) = mapped(0x40_0000, 1, true);
    let root = PhysAddr(mmu.cr3);
    let va = WINDOW + 0x1000_0000;
    assert!(mm_map_user_range(&mut mmu.phys, root, va, shared, 1, true, false));
    let s = mm_create_address_space(&mut mmu).unwrap();
    let before = mmu.phys.ram.clone();
    let free = mm_free_page_count(&mmu.phys);
    let window = mmu.window;
    let mut rec = Privatized::new();
    let seed = [0x22u8; 8192];
    // The second page is not mapped.
    assert!(!mm_privatize_pages(&mut mmu.phys, &window, s, va, 8192, &mut rec, &seed));
    assert_eq!((rec.pdpt, rec.tables.len(), rec.frames.len()), (PhysAddr(0), 0, 0));
    assert_eq!(mm_free_page_count(&mmu.phys), free);
    let at = s.0 as usize;
    assert!(mmu.phys.ram[at..at + 4096] == before[at..at + 4096]);
    mmu.cr3 = s.0;
    assert_eq!(mm_get_physical_address(&mmu, va), Some(shared));
    // With an own page already there, it stays as it is.
    assert!(mm_privatize_pages(&mut mmu.phys, &window, s, va, 4096, &mut rec, &seed));
    let own = mm_get_physical_address(&mmu, va).unwrap();
    assert_ne!(own, shared);
    let (tables, frames) = (rec.tables.clone(), rec.frames.clone());
    let free = mm_free_page_count(&mmu.phys);
    assert!(!mm_privatize_pages(&mut mmu.phys, &window, s, va, 8192, &mut rec, &seed));
    assert_eq!((&rec.tables, &rec.frames), (&tables, &frames));
    assert_eq!(mm_get_physical_address(&mmu, va), Some(own));
    assert_eq!(mm_free_page_count(&mmu.phys), free);
    // A seed that is too short.
    assert!(!mm_privatize_pages(&mut mmu.phys, &window, s, va, 8192, &mut rec, &seed[..4096]));
}

#[test]
fn probing_finds_bad_buffers() {
    let va = 0x40_0000u64;
    let (mmu, _) = mapped(va, 1, true);
    let db = VadDatabase::new();
    assert_eq!(probe_for_read(&mmu, &db, va, 4096, 1), Ok(()));
    assert_eq!(probe_for_write(&mmu, &db, va + 8, 8, 8), Ok(()));
    assert_eq!(probe_for_read(&mmu, &db, 0x1234_5001, 0, 8), Ok(()));
    assert_eq!(
        probe_for_read(&mmu, &db, va + 1, 8, 8),
        Err(NtStatus(NtStatus::DATATYPE_MISALIGNMENT))
    );
    assert_eq!(
        probe_for_read(&mmu, &db, va, 4097, 1),
        Err(NtStatus(NtStatus::ACCESS_VIOLATION))
    );
    assert_eq!(
        probe_for_read(&mmu, &db, u64::MAX, 2, 1),
        Err(NtStatus(NtStatus::ACCESS_VIOLATION))
    );
    assert_eq!(
        probe_for_read(&mmu, &db, WINDOW, 8, 8),
        Err(NtStatus(NtStatus::ACCESS_VIOLATION))
    );
}

#[test]
fn user_copies_cross_pages_and_stop_at_the_end() {
    let va = 0x40_0000u64;
    let (mut mmu, pa) = mapped(va, 2, true);
    let db = VadDatabase::new();
    let data: Vec<u8> = (0..200u32).map(|x| x as u8).collect();
    let mut pf = PageFile::new();
    let mut out = Vec::new();
    assert_eq!(
        copy_to_user(&mut mmu, &db, &mut pf, va + 0xF80, &data, &mut out),
        CopyStep::Done(Ok(()))
    );
    assert_eq!(
        copy_from_user(&mut mmu, &db, &mut pf, va + 0xF80, 200, &mut out),
        CopyStep::Done(Ok(data.clone()))
    );
    assert_eq!(mmu.phys.ram[(pa.0 + 0xF80) as usize], 0);
    assert_eq!(mmu.phys.ram[(pa.0 + 0x1000) as usize], 128);
    assert_eq!(read_user(&mmu, va + 0x1F00, 0x101), None);
    assert_eq!(
        copy_to_user(&mut mmu, &db, &mut pf, va + 0x1FF0, &data, &mut out),
        CopyStep::Done(Err(NtStatus(NtStatus::ACCESS_VIOLATION)))
    );
}

#[test]
fn a_read_only_page_cannot_be_written() {
    let va = 0x40_0000u64;
    let (mut mmu, _) = mapped(va, 1, false);
    let db = VadDatabase::new();
    let mut pf = PageFile::new();
    let mut out = Vec::new();
    assert!(!write_user(&mut mmu, va, &[1]));
    assert_eq!(
        copy_to_user(&mut mmu, &db, &mut pf, va, &[1], &mut out),
        CopyStep::Done(Err(NtStatus(NtStatus::ACCESS_VIOLATION)))
    );
    assert_eq!(
        copy_from_user(&mut mmu, &db, &mut pf, va, 1, &mut out),
        CopyStep::Done(Ok(vec![0]))
    );
}

#[test]
fn a_copy_brings_in_a_committed_buffer() {
    let mut mmu = machine();
    let mut db = VadDatabase::new();
    let mut pf = PageFile::new();
    let mut out = Vec::new();
    let s = PhysAddr(mmu.cr3);
    let a = vad_allocate(&mut db, s, 3, true, false).unwrap();
    assert_eq!(
        copy_from_user(&mut mmu, &db, &mut pf, a + 10, 20, &mut out),
        CopyStep::Done(Ok(vec![0; 20]))
    );
    let data = vec![7u8; 0x1800];
    assert_eq!(
        copy_to_user(&mut mmu, &db, &mut pf, a + 0x1000, &data, &mut out),
        CopyStep::Done(Ok(()))
    );
    assert_eq!(
        copy_from_user(&mut mmu, &db, &mut pf, a + 0x1000, 0x1800, &mut out),
        CopyStep::Done(Ok(data))
    );
    assert_eq!(
        copy_from_user(&mut mmu, &db, &mut pf, a + 0x2FFF, 2, &mut out),
        CopyStep::Done(Err(NtStatus(NtStatus::ACCESS_VIOLATION)))
    );
    assert_eq!(out, vec![]);
}

#[test]
fn a_copy_waits_for_a_page_on_disk() {
    let mut mmu = machine();
    let mut db = VadDatabase::new();
    let mut pf = PageFile::new();
    init_page_file(&mut pf, 0, 8);
    let mut out = Vec::new();
    let cr3 = mmu.cr3;
    let a = vad_allocate(&mut db, PhysAddr(cr3), 2, true, true).unwrap();
    assert_eq!(make_resident(&db, &mut mmu, &mut pf, a, 0x2000, &mut out), None);
    assert!(write_user(&mut mmu, a + 0x1000, &[5; 8]));
    let w = evict_begin(&mut pf, &mmu.phys, cr3, a + 0x1000).unwrap();
    assert_eq!(evict_finish(&mut pf, &mut mmu.phys, w, true), 1);
    match copy_from_user(&mut mmu, &db, &mut pf, a + 0xFFC, 8, &mut out) {
        CopyStep::Read(back) => {
            assert_eq!((back.read.va, back.read.slot), (a + 0x1000, w.slot));
            assert_eq!((back.writable, back.executable), (true, true));
            mm_write_physical(&mut mmu.phys, back.read.pa, &[5; 8]);
            let (ok, _) = page_in_finish(&mut pf, &mut mmu.phys, back.read, true, true, true);
            assert!(ok);
        }
        other => panic!("{:?}", other),
    }
    assert_eq!(
        copy_from_user(&mut mmu, &db, &mut pf, a + 0xFFC, 8, &mut out),
        CopyStep::Done(Ok(vec![0, 0, 0, 0, 5, 5, 5, 5]))
    );
}

#[test]
fn committed_ranges_are_placed_first_fit() {
    let mut mmu = machine();
    let mut pf = PageFile::new();
    let mut db = VadDatabase::new();
    let s = PhysAddr(mmu.cr3);
    let a = vad_allocate(&mut db, s, 4, true, false).unwrap();
    let b = vad_allocate(&mut db, s, 2, true, false).unwrap();
    assert_eq!(a, USER_VAD_BASE);
    assert_eq!(b, a + 4 * 4096);
    assert_eq!(vad_count(&db, s), 2);
    assert!(vad_covers(&db, s, a, 6 * 4096));
    assert!(!vad_covers(&db, s, a, 6 * 4096 + 1));
    assert_eq!(vad_allocate(&mut db, s, 0, true, false), None);
    assert_eq!(vad_free(&mut db, &mut mmu, &mut pf, a + 4096, 4096), Ok(()));
    assert!(!vad_covers(&db, s, a + 4096, 1));
    assert!(vad_covers(&db, s, a, 4096));
    assert_eq!(vad_count(&db, s), 3);
    assert_eq!(vad_allocate(&mut db, s, 1, true, false), Some(a + 4096));
    assert_eq!(
        vad_free(&mut db, &mut mmu, &mut pf, u64::MAX, 2),
        Err(NtStatus(NtStatus::INVALID_PARAMETER))
    );
    assert_eq!(
        vad_protect(&mut db, &mut mmu, 0x1000, 0x1000, true, true),
        Err(NtStatus(NtStatus::INVALID_PARAMETER))
    );
    vad_teardown(&mut db, &mut pf, s);
    assert_eq!(vad_count(&db, s), 0);
}

#[test]
fn a_first_touch_brings_in_a_zero_page() {
    let mut mmu = machine();
    let mut pf = PageFile::new();
    let mut db = VadDatabase::new();
    let s = PhysAddr(mmu.cr3);
    let a = vad_allocate(&mut db, s, 2, true, false).unwrap();
    assert_eq!(probe_for_write(&mmu, &db, a, 8192, 1), Ok(()));
    assert_eq!(read_user(&mmu, a, 1), None);
    assert!(matches!(vad_resolve(&db, &mut mmu, &mut pf, a + 5), Resolve::Done(None)));
    assert_eq!(read_user(&mmu, a, 4096), Some(vec![0u8; 4096]));
    assert!(write_user(&mut mmu, a + 100, &[9]));
    assert!(matches!(vad_resolve(&db, &mut mmu, &mut pf, a + 0x10000), Resolve::Fault));
    assert_eq!(vad_protect(&mut db, &mut mmu, a, 4096, false, false), Ok(()));
    assert!(!write_user(&mut mmu, a + 100, &[9]));
    assert_eq!(read_user(&mmu, a + 100, 1), Some(vec![9]));
}

#[test]
fn an_evicted_page_comes_back() {
    let va = 0x40_0000u64;
    let (mut mmu, pa) = mapped(va, 1, true);
    mm_write_physical(&mut mmu.phys, pa, &[0x5A; 4096]);
    let cr3 = mmu.cr3;
    let mut pf = PageFile::new();
    assert!(!online(&pf));
    assert_eq!(evict_begin(&mut pf, &mmu.phys, cr3, va), None);
    init_page_file(&mut pf, 1000, 16);
    assert!(online(&pf));
    register_page(&mut pf, cr3, va);
    let w = evict_some(&mut pf, &mmu.phys, 1).unwrap();
    assert_eq!((w.cr3, w.va, w.pa), (cr3, va, pa));
    assert_eq!(w.sector, 1000 + w.slot as u64 * 8);
    assert_eq!(evict_finish(&mut pf, &mut mmu.phys, w, true), 1);
    assert_eq!(mm_get_physical_address(&mmu, va), None);
    assert_eq!(paged_out_count(&pf), 1);
    assert_eq!(last_evicted_slot(&pf), Some(w.slot));
    match page_in(&mut pf, &mut mmu.phys, cr3, va) {
        PageInStep::Read(r) => {
            assert_eq!(r.slot, w.slot);
            assert_eq!(r.sector, w.sector);
            mm_write_physical(&mut mmu.phys, r.pa, &[0x5A; 4096]);
            let (ok, _) = page_in_finish(&mut pf, &mut mmu.phys, r, true, true, false);
            assert!(ok);
        }
        _ => panic!("the page was written out"),
    }
    assert_eq!(paged_out_count(&pf), 0);
    assert_eq!(read_user(&mmu, va, 4), Some(vec![0x5A; 4]));
    assert!(matches!(page_in(&mut pf, &mut mmu.phys, cr3, va), PageInStep::NotPagedOut));
}

#[test]
fn a_failed_write_keeps_the_page() {
    let va = 0x40_0000u64;
    let (mut mmu, pa) = mapped(va, 1, true);
    let cr3 = mmu.cr3;
    let mut pf = PageFile::new();
    init_page_file(&mut pf, 0, 4);
    let w = evict_begin(&mut pf, &mmu.phys, cr3, va).unwrap();
    assert_eq!(evict_finish(&mut pf, &mut mmu.phys, w, false), 0);
    assert_eq!(mm_get_physical_address(&mmu, va), Some(pa));
    assert_eq!(paged_out_count(&pf), 0);
}

/// A pagefile with `n` of the one-page ranges from `va` on written out.
fn written_out(mmu: &mut Mmu, pf: &mut PageFile, va: u64, n: u64) {
    let root = PhysAddr(mmu.cr3);
    for i in 0..n {
        let pa = mm_allocate_page(&mut mmu.phys).unwrap();
        assert!(mm_map_user_range(&mut mmu.phys, root, va + i * 4096, pa, 1, true, false));
        let w = evict_for_test(pf, &mmu.phys, root.0, va + i * 4096).unwrap();
        assert_eq!(evict_finish(pf, &mut mmu.phys, w, true), 1);
    }
}

#[test]
fn a_page_stays_when_the_records_are_full() {
    let last = 0x80_0000u64;
    let (mut mmu, pa) = mapped(last, 1, true);
    mm_write_physical(&mut mmu.phys, pa, &[0x5A; 4096]);
    let cr3 = mmu.cr3;
    let mut pf = PageFile::new();
    init_page_file(&mut pf, 0, 4096);
    written_out(&mut mmu, &mut pf, 0x100_0000, 2048);
    assert_eq!(paged_out_count(&pf), 2048);
    let free = mm_free_page_count(&mmu.phys);
    let w = evict_for_test(&mut pf, &mmu.phys, cr3, last).unwrap();
    assert_eq!(evict_finish(&mut pf, &mut mmu.phys, w, true), 0);
    assert_eq!(paged_out_count(&pf), 2048);
    assert_eq!(mm_get_physical_address(&mmu, last), Some(pa));
    assert_eq!(read_user(&mmu, last, 4), Some(vec![0x5A; 4]));
    assert_eq!(mm_free_page_count(&mmu.phys), free);
    // Its slot is free again.
    let again = evict_for_test(&mut pf, &mmu.phys, cr3, last).unwrap();
    assert_eq!(evict_settle(&mut pf, &mut mmu.phys, again, true), 0);
    assert_eq!(mm_get_physical_address(&mmu, last), Some(pa));
    // The page is a candidate again, before all others.
    register_page(&mut pf, cr3, 0x123_0000);
    let next = evict_some(&mut pf, &mmu.phys, 1).unwrap();
    assert_eq!((next.va, next.pa), (last, pa));
}

#[test]
fn a_full_pagefile_evicts_nothing_and_forgets_nothing() {
    let va = 0x40_0000u64;
    let (mut mmu, pa) = mapped(va, 2, true);
    let cr3 = mmu.cr3;
    let mut pf = PageFile::new();
    init_page_file(&mut pf, 0, 1);
    register_page(&mut pf, cr3, va);
    register_page(&mut pf, cr3, va + 4096);
    let w = evict_some(&mut pf, &mmu.phys, 2).unwrap();
    assert_eq!(evict_finish(&mut pf, &mut mmu.phys, w, true), 1);
    assert_eq!(evict_some(&mut pf, &mmu.phys, 1), None);
    assert_eq!(mm_get_physical_address(&mmu, va + 4096), Some(PhysAddr(pa.0 + 4096)));
    drop_range(&mut pf, cr3, va, 4096);
    let w = evict_some(&mut pf, &mmu.phys, 1).unwrap();
    assert_eq!(w.va, va + 4096);
}

#[test]
fn a_range_drops_the_pages_it_overlaps() {
    let mut mmu = machine();
    let cr3 = mmu.cr3;
    let mut pf = PageFile::new();
    init_page_file(&mut pf, 0, 8);
    written_out(&mut mmu, &mut pf, 0x40_0000, 4);
    drop_range(&mut pf, cr3, 0x40_1000, 0);
    drop_range(&mut pf, cr3 + 4096, 0x40_0000, 0x4000);
    assert_eq!(paged_out_count(&pf), 4);
    drop_range(&mut pf, cr3, 0x40_1800, 0x1000);
    assert_eq!(paged_out_count(&pf), 2);
    assert_eq!(paged_out_take(&mut pf, cr3, 0x40_1000), None);
    assert_eq!(paged_out_take(&mut pf, cr3, 0x40_2000), None);
    assert!(paged_out_take(&mut pf, cr3, 0x40_0000).is_some());
    assert!(paged_out_take(&mut pf, cr3, 0x40_3000).is_some());
}

#[test]
fn a_page_that_cannot_be_mapped_gives_its_frame_back() {
    let mut mmu = machine();
    let mut pf = PageFile::new();
    init_page_file(&mut pf, 0, 4);
    let cr3 = mmu.cr3;
    written_out(&mut mmu, &mut pf, 0x40_0000, 1);
    let before = mm_free_page_count(&mmu.phys);
    match page_in(&mut pf, &mut mmu.phys, cr3, 0x40_0000) {
        PageInStep::Read(r) => {
            assert_eq!(mm_free_page_count(&mmu.phys), before - 1);
            let (ok, _) = page_in_finish(&mut pf, &mut mmu.phys, r, false, true, false);
            assert!(!ok);
        }
        other => panic!("{:?}", other),
    }
    assert_eq!(mm_free_page_count(&mmu.phys), before);
}

#[test]
fn mapping_and_unmapping_leave_other_pages_alone() {
    let va = 0x40_0000u64;
    let (mut mmu, pa) = mapped(va, 3, true);
    let root = PhysAddr(mmu.cr3);
    let other = mm_create_address_space(&mut mmu).unwrap();
    let more = mm_allocate_contiguous_pages(&mut mmu.phys, 2).unwrap();
    assert!(mm_map_user_range(&mut mmu.phys, root, 0x9000_0000, more, 2, false, false));
    for i in 0..3 {
        let at = PhysAddr(pa.0 + i * 4096);
        assert_eq!(mm_get_physical_address(&mmu, va + i * 4096), Some(at));
    }
    assert_eq!(mm_get_physical_address(&mmu, 0x9000_1000), Some(PhysAddr(more.0 + 4096)));
    assert_eq!(mm_unmap_user_page(&mut mmu, va + 4096), Some(PhysAddr(pa.0 + 4096)));
    assert_eq!(mm_get_physical_address(&mmu, va + 4096), None);
    assert_eq!(mm_get_physical_address(&mmu, va), Some(pa));
    assert_eq!(mm_get_physical_address(&mmu, va + 0x2000), Some(PhysAddr(pa.0 + 0x2000)));
    assert_eq!(mm_get_physical_address(&mmu, 0x9000_0000), Some(more));
    mmu.cr3 = other.0;
    assert_eq!(mm_get_physical_address(&mmu, va), None);
}

#[test]
fn frame_zero_is_never_handed_out() {
    let mut m = memory();
    let mut n = 0;
    while let Some(pa) = mm_allocate_page(&mut m) {
        assert!(pa.0 >= 4096);
        n += 1;
    }
    assert_eq!(n, 256 + 1536 - 1 - 1);
}

#[test]
fn a_dropped_process_has_no_pages_on_disk() {
    let va = 0x40_0000u64;
    let (mut mmu, _) = mapped(va, 1, true);
    let cr3 = mmu.cr3;
    let mut pf = PageFile::new();
    init_page_file(&mut pf, 0, 4);
    let w = evict_begin(&mut pf, &mmu.phys, cr3, va).unwrap();
    evict_finish(&mut pf, &mut mmu.phys, w, true);
    drop_process(&mut pf, cr3);
    assert_eq!(paged_out_count(&pf), 0);
    assert!(matches!(page_in(&mut pf, &mut mmu.phys, cr3, va), PageInStep::NotPagedOut));
}

#[test]
fn pool_blocks_are_tagged_aligned_and_reused() {
    let mut m = memory();
    let mut pool = Pool::new();
    let tag = pool_tag(*b"Test");
    assert_eq!(tag, u32::from_le_bytes(*b"Test"));
    assert_eq!(block_size_for(1), 32);
    assert_eq!(block_size_for(16), 32);
    assert_eq!(block_size_for(17), 48);
    let a = pool_alloc(&mut pool, &mut m, 100, tag).unwrap();
    let b = pool_alloc(&mut pool, &mut m, 100, tag).unwrap();
    assert_eq!(a % 16, 0);
    assert!(b >= a + 100 || a >= b + 100);
    let used = pool_bytes_in_use(&pool);
    pool_free(&mut pool, &mut m, a, tag);
    assert!(pool_bytes_in_use(&pool) < used);
    let c = pool_alloc(&mut pool, &mut m, 100, tag).unwrap();
    assert_eq!(c, a);
    pool_free_any(&mut pool, &mut m, b);
    pool_free_any(&mut pool, &mut m, c);
    assert_eq!(pool_bytes_in_use(&pool), 0);
}

#[test]
fn a_freed_block_joins_the_rest_of_its_slab() {
    let mut m = memory();
    let mut pool = Pool::new();
    let tag = pool_tag(*b"Test");
    let a = pool_alloc(&mut pool, &mut m, 100, tag).unwrap();
    let b = pool_alloc(&mut pool, &mut m, 100, tag).unwrap();
    pool_free(&mut pool, &mut m, b, tag);
    assert_eq!(pool.free_list.len(), 1);
    let c = pool_alloc(&mut pool, &mut m, 3000, tag).unwrap();
    assert_eq!(c, b);
    // A block in front of one in use does not join anything.
    pool_free(&mut pool, &mut m, a, tag);
    assert_eq!(pool.free_list.len(), 2);
    pool_free(&mut pool, &mut m, c, tag);
    assert_eq!(pool.free_list.len(), 2);
    assert_eq!(pool_alloc(&mut pool, &mut m, 4000, tag), Some(c));
}

#[test]
fn large_blocks_take_whole_pages_and_give_them_back() {
    let mut m = memory();
    let mut pool = Pool::new();
    let before = mm_free_page_count(&m);
    let a = pool_alloc(&mut pool, &mut m, 5000, 1).unwrap();
    assert_eq!(mm_free_page_count(&m), before - 2);
    pool_free(&mut pool, &mut m, a, 1);
    assert_eq!(mm_free_page_count(&m), before);
    assert_eq!(
        pool_alloc_checked(&mut pool, &mut m, 0x100_0000, 1),
        Err(NtStatus(NtStatus::INSUFFICIENT_RESOURCES))
    );
    assert_eq!(pool_alloc(&mut pool, &mut m, 0, 1), None);
}

#[test]
fn over_alignment_leaves_room_for_the_block_address() {
    assert_eq!(over_aligned(0x1000, 64), 0x1040);
    assert_eq!(over_aligned(0x1038, 64), 0x1040);
    assert_eq!(over_aligned(0x1039, 64), 0x1080);
}

#[test]
fn address_spaces_are_switched_by_their_root() {
    let mut mmu = machine();
    let here = mm_current_address_space(&mmu);
    mm_save_kernel_address_space(&mut mmu);
    assert_eq!(mm_kernel_address_space(&mmu), here);
    mm_switch_address_space(&mut mmu, PhysAddr(0x7000));
    assert_eq!(mm_current_address_space(&mmu), PhysAddr(0x7000));
    assert_eq!(mm_kernel_address_space(&mmu), here);
    assert!(!user_access_begin(&mmu) && !user_access_end(&mmu));
    mm_set_smap(&mut mmu, true);
    assert!(user_access_begin(&mmu) && user_access_end(&mmu));
}

#[test]
fn access_bits_are_opened_along_the_path() {
    let (mut mmu, _) = mapped(0x60_0000, 1, true);
    assert!(mm_debug_pte(&mmu, 0x60_0000).unwrap() & ENTRY_NX != 0);
    clear_nx_path(&mut mmu, 0x60_0000);
    assert!(mm_debug_pte(&mmu, 0x60_0000).unwrap() & ENTRY_NX == 0);
    set_user_exec_path(&mut mmu, 0x60_0000);
    assert!(mm_debug_pte(&mmu, 0x60_0000).unwrap() & ENTRY_USER != 0);
    assert!(page_present_and_user(&mmu, 0x60_0000));
}
