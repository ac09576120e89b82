//! Images, programs and the modules they bind to.
use kernel::ldr::blocks::{build_blocks, BlockParams, PEB_BASE, TEB_BASE, USER_STACK_TOP};
use kernel::ldr::driver::{ldr_load_driver, ldr_unload_driver};
use kernel::ldr::exports::{
    export, resolve as resolve_kernel, rtl_init_unicode_string, stall_iterations, timeout_to_ticks,
    timer_due_tick, EXPORT_COUNT,
};
use kernel::ldr::load::{load, load_kernel32, load_msvcrt, load_ulib, load_user};
use kernel::ldr::loaded::{
    eq_fold, kernel32_range, module_base, msvcrt_range, ordinal_stub, proc_address, resolve,
    ulib_base_and_entry, ulib_range, unresolved_range, unresolved_stub, LoadedModules,
};
use kernel::ldr::mui::{load_message, load_message_from, load_string, load_string_from, register, MuiTable, MAX_MUI};
use kernel::ldr::ntdll::{
    build_stubs, export_names, init as init_trampoline, resolve_import, trampoline_base, Trampoline,
};
use kernel::ldr::pe::{
    apply_relocations, bad, data_directory, map_and_relocate, map_sections, parse_headers, read_cstr,
    resolve_export,
};
use kernel::ldr::process::{load_user_process, next_client_id, ClientIds};
use kernel::ldr::shim::{
    first_shim_data_va, free_shim_pages, privatize_shim_data, register_shim_data, ShimData, ShimSlots,
};
use kernel::mm::phys::{init, mm_allocate_page, mm_free_page_count, MemoryRegion, PhysicalMemory};
use kernel::mm::pool::Pool;
use kernel::mm::user::{read_user, write_user};
use kernel::mm::virt::{mm_get_physical_address, mm_map_user_range, Mmu};
use kernel::mm::{PhysAddr, PhysWindow};
use kernel::ob::{ob_create_object, ObjectManager, ObjectType};
use kernel::rtl::string::UnicodeString;
use kernel::rtl::NtStatus;

const WINDOW: u64 = 0xFFFF_F000_0000_0000;
const BASE: u64 = 0x1_4000_0000;

fn put(b: &mut [u8], at: usize, bytes: &[u8]) {
    b[at..at + bytes.len()].copy_from_slice(bytes);
}

fn put32(b: &mut [u8], at: usize, v: u32) {
    put(b, at, &v.to_le_bytes());
}

fn put64(b: &mut [u8], at: usize, v: u64) {
    put(b, at, &v.to_le_bytes());
}

fn get64(b: &[u8], at: usize) -> u64 {
    let mut w = [0u8; 8];
    w.copy_from_slice(&b[at..at + 8]);
    u64::from_le_bytes(w)
}

/// File offset of an address in the data section.
fn data(rva: usize) -> usize {
    0x800 + rva - 0x2000
}

/// An image with code at 0x1000, data at 0x2000, one fix-up, one import and one
/// export named `Answer`.
fn image(import: &str) -> Vec<u8> {
    let mut f = vec![0u8; 0x1000];
    put(&mut f, 0, b"MZ");
    put32(&mut f, 0x3C, 0x80);
    put(&mut f, 0x80, b"PE\0\0");
    put(&mut f, 0x84, &0x8664u16.to_le_bytes());
    put(&mut f, 0x86, &2u16.to_le_bytes());
    put(&mut f, 0x94, &0xF0u16.to_le_bytes());
    let opt = 0x98;
    put(&mut f, opt, &0x20Bu16.to_le_bytes());
    put32(&mut f, opt + 16, 0x1004);
    put64(&mut f, opt + 24, BASE);
    put32(&mut f, opt + 32, 0x1000);
    put32(&mut f, opt + 36, 0x200);
    put32(&mut f, opt + 56, 0x3000);
    put32(&mut f, opt + 60, 0x400);
    put32(&mut f, opt + 108, 16);
    let dir = |f: &mut [u8], i: usize, rva: u32, size: u32| {
        put32(f, opt + 112 + 8 * i, rva);
        put32(f, opt + 116 + 8 * i, size);
    };
    dir(&mut f, 0, 0x2200, 0x100);
    dir(&mut f, 1, 0x2100, 0x80);
    dir(&mut f, 5, 0x2000, 12);
    let sec = |f: &mut [u8], i: usize, va: u32, raw: u32| {
        let s = 0x188 + 40 * i;
        put32(f, s + 8, 0x400);
        put32(f, s + 12, va);
        put32(f, s + 16, 0x400);
        put32(f, s + 20, raw);
    };
    sec(&mut f, 0, 0x1000, 0x400);
    sec(&mut f, 1, 0x2000, 0x800);
    put(&mut f, 0x400, &[0xC3, 0x90, 0x90, 0x90, 0xCC]);
    put64(&mut f, 0x410, BASE + 0x1234);
    // One fix-up of the address at 0x1010.
    put32(&mut f, data(0x2000), 0x1000);
    put32(&mut f, data(0x2004), 12);
    put(&mut f, data(0x2008), &0xA010u16.to_le_bytes());
    // One import.
    put32(&mut f, data(0x2100), 0x2180);
    put32(&mut f, data(0x210C), 0x21C0);
    put32(&mut f, data(0x2110), 0x21A0);
    put64(&mut f, data(0x2180), 0x21D0);
    put64(&mut f, data(0x21A0), 0x21D0);
    put(&mut f, data(0x21C0), b"some.dll\0");
    put(&mut f, data(0x21D2), import.as_bytes());
    // One export.
    put32(&mut f, data(0x2214), 1);
    put32(&mut f, data(0x2218), 1);
    put32(&mut f, data(0x221C), 0x2240);
    put32(&mut f, data(0x2220), 0x2250);
    put32(&mut f, data(0x2224), 0x2260);
    put32(&mut f, data(0x2240), 0x1002);
    put32(&mut f, data(0x2250), 0x2270);
    put(&mut f, data(0x2270), b"Answer\0");
    f
}

/// A machine whose window is mapped.
fn machine() -> Mmu {
    let mut phys = PhysicalMemory::new(vec![0u8; 0x80_0000]);
    init(&mut phys, &[MemoryRegion { start: 0, end: 0x80_0000, usable: true }]);
    let root = mm_allocate_page(&mut phys).unwrap();
    assert!(mm_map_user_range(&mut phys, root, WINDOW, PhysAddr(0), 0x800, true, false));
    Mmu {
        phys,
        window: PhysWindow { offset: WINDOW },
        cr3: root.0,
        kernel_pml4: root.0,
        smap_on: false,
    }
}

fn modules() -> LoadedModules {
    LoadedModules::new((0..EXPORT_COUNT as u64).map(|i| 0xFFFF_8000_0000_0000 + i * 64).collect())
}

#[test]
fn headers_are_read() {
    let f = image("x");
    let h = parse_headers(&f).unwrap();
    assert_eq!(h.num_sections, 2);
    assert_eq!(h.entry_rva, 0x1004);
    assert_eq!(h.preferred_base, BASE);
    assert_eq!(h.size_of_image, 0x3000);
    assert_eq!(data_directory(&f, &h, 5), (0x2000, 12));
    assert_eq!(data_directory(&f, &h, 9), (0, 0));
}

#[test]
fn other_files_are_not_images() {
    assert!(parse_headers(&[]).is_none());
    assert!(parse_headers(&[0u8; 0x200]).is_none());
    let wrong = |at: usize| {
        let mut f = image("x");
        f[at] ^= 0xFF;
        parse_headers(&f).is_none()
    };
    assert!(wrong(0));
    assert!(wrong(0x80));
    assert!(wrong(0x84));
    assert!(wrong(0x98));
    assert_eq!(bad(), NtStatus(NtStatus::INVALID_IMAGE_FORMAT));
    let mut mmu = machine();
    let mut pool = Pool::new();
    let mut ms = modules();
    assert!(matches!(
        load(&mut mmu, &mut pool, &mut ms, b"not an image"),
        Err(NtStatus(NtStatus::INVALID_IMAGE_FORMAT))
    ));
}

#[test]
fn sections_are_mapped_at_their_addresses() {
    let f = image("x");
    let h = parse_headers(&f).unwrap();
    let m = map_sections(&f, &h).unwrap();
    assert_eq!(m.len(), 0x3000);
    assert_eq!(m[..0x400], f[..0x400]);
    assert_eq!(m[0x1000..0x1400], f[0x400..0x800]);
    assert_eq!(m[0x2000..0x2400], f[0x800..0xC00]);
    assert!(m[0x1400..0x2000].iter().all(|&b| b == 0));
    let mut cut = f.clone();
    cut.truncate(0x900);
    assert!(map_sections(&cut, &h).is_none());
}

#[test]
fn a_moved_image_is_fixed_up() {
    let f = image("x");
    let h = parse_headers(&f).unwrap();
    let same = map_and_relocate(&f, &h, BASE).unwrap();
    assert_eq!(get64(&same, 0x1010), BASE + 0x1234);
    let moved = map_and_relocate(&f, &h, 0x7_0000_0000).unwrap();
    assert_eq!(get64(&moved, 0x1010), 0x7_0000_1234);
    let differ: Vec<usize> = (0..0x3000).filter(|&i| same[i] != moved[i]).collect();
    assert!(differ.iter().all(|&i| (0x1010..0x1018).contains(&i)));
    let back = apply_relocations(moved, 0x2000, 12, BASE.wrapping_sub(0x7_0000_0000)).unwrap();
    assert!(back == same);
    let mut kind = same.clone();
    kind[0x2009] = 0x30;
    assert_eq!(apply_relocations(kind, 0x2000, 12, 1), Err(bad()));
}

#[test]
fn exports_are_found_by_name() {
    let f = image("x");
    let h = parse_headers(&f).unwrap();
    let m = map_sections(&f, &h).unwrap();
    assert_eq!(resolve_export(&m, 0x5000, b"Answer"), Some(0x6002));
    assert_eq!(resolve_export(&m, 0x5000, b"answer"), None);
    assert_eq!(resolve_export(&m, 0x5000, b"Answe"), None);
    assert_eq!(read_cstr(&m, 0x2270), Some(&b"Answer"[..]));
    assert_eq!(read_cstr(&m, 0x5000), None);
}

#[test]
fn a_driver_binds_to_the_kernel() {
    let mut mmu = machine();
    let mut pool = Pool::new();
    let mut ms = modules();
    let name = export(3);
    let l = load(&mut mmu, &mut pool, &mut ms, &image(name)).unwrap();
    assert_eq!(l.entry_va, l.base + 0x1004);
    assert_eq!(get64(&l.image, 0x21A0), 0xFFFF_8000_0000_0000 + 3 * 64);
    assert_eq!(get64(&l.image, 0x1010), l.base + 0x1234);
    let at = (l.base - WINDOW) as usize;
    assert!(mmu.phys.ram[at..at + 0x3000] == l.image[..]);
    let unknown = load(&mut mmu, &mut pool, &mut ms, &image("NoSuchRoutine")).unwrap();
    assert_eq!(get64(&unknown.image, 0x21A0), unresolved_range(&ms).0);
    let mut by_number = image("x");
    put64(&mut by_number, data(0x2180), 0x8000_0000_0000_0003);
    assert!(matches!(
        load(&mut mmu, &mut pool, &mut ms, &by_number),
        Err(NtStatus(NtStatus::PROCEDURE_NOT_FOUND))
    ));
}

#[test]
fn the_kernel_resolves_exactly_its_exports() {
    let ms = modules();
    for i in 0..EXPORT_COUNT {
        // A name that is listed twice resolves to the first.
        let first = (0..EXPORT_COUNT).position(|j| export(j) == export(i)).unwrap();
        assert_eq!(
            resolve_kernel(&ms.kernel_exports, export(i).as_bytes()),
            Some(0xFFFF_8000_0000_0000 + first as u64 * 64)
        );
    }
    assert_eq!(resolve_kernel(&ms.kernel_exports, b"NotExported"), None);
}

#[test]
fn times_are_counted_in_milliseconds() {
    assert_eq!(timeout_to_ticks(None), None);
    assert_eq!(timeout_to_ticks(Some(-10_000)), Some(1));
    assert_eq!(timeout_to_ticks(Some(-25_000)), Some(2));
    assert_eq!(timeout_to_ticks(Some(0)), Some(0));
    assert_eq!(timer_due_tick(100, -50_000), 105);
    assert_eq!(timer_due_tick(100, -1), 101);
    assert_eq!(stall_iterations(7), 2100);
    assert_eq!(rtl_init_unicode_string(Some(&[65, 66, 0, 67])), (4, 6));
    assert_eq!(rtl_init_unicode_string(None), (0, 2));
}

#[test]
fn stubs_call_their_services() {
    let page = build_stubs();
    assert_eq!(page.len(), 4096);
    assert_eq!(page[0x20..0x2B], [0x49, 0x89, 0xCA, 0xB8, 2, 0, 0, 0, 0x0F, 0x05, 0xC3]);
    let mut mmu = machine();
    let mut t = Trampoline::new();
    assert_eq!(resolve_import(&t, b"NtClose"), None);
    assert!(init_trampoline(&mut t, &mut mmu));
    let base = trampoline_base(&t);
    assert_ne!(base, 0);
    assert_eq!(resolve_import(&t, b"NtTerminateThread"), Some(base));
    assert_eq!(resolve_import(&t, b"NtWriteFile"), Some(base + 0x20));
    assert_eq!(resolve_import(&t, b"NtClose"), Some(base + 0x40));
    assert_eq!(resolve_import(&t, b"NtOpen"), None);
    assert_eq!(export_names().len(), 8);
    let at = (base - WINDOW) as usize;
    assert!(mmu.phys.ram[at..at + 4096] == page[..]);
}

#[test]
fn modules_are_found_by_name_and_routine() {
    let mut mmu = machine();
    let mut pool = Pool::new();
    let mut ms = modules();
    assert_eq!(module_base(&ms, b"kernel32.dll"), 0);
    let f = image("Missing");
    assert_eq!(load_kernel32(&mut mmu, &mut pool, &mut ms, &f), Ok(()));
    assert_eq!(load_msvcrt(&mut mmu, &mut pool, &mut ms, &f), Ok(()));
    assert_eq!(load_ulib(&mut mmu, &mut pool, &mut ms, &[]), Ok(()));
    assert_eq!(ulib_base_and_entry(&ms), (0, 0));
    assert_eq!(load_ulib(&mut mmu, &mut pool, &mut ms, &f), Ok(()));
    let (k, size) = kernel32_range(&ms);
    assert_eq!(size, 0x3000);
    assert_eq!(module_base(&ms, b"KERNEL32.dll"), k);
    assert_eq!(module_base(&ms, b"kernel32"), k);
    assert_eq!(module_base(&ms, b"msvcrt.DLL"), msvcrt_range(&ms).0);
    assert_eq!(module_base(&ms, b"ulib"), ulib_range(&ms).0);
    assert_eq!(module_base(&ms, b"other.dll"), 0);
    assert_eq!(module_base(&ms, b""), 0);
    assert_eq!(proc_address(&ms, k, b"Answer"), k + 0x1002);
    assert_eq!(proc_address(&ms, k, b"Question"), 0);
    assert_eq!(proc_address(&ms, 0x77, b"Answer"), 0);
    assert_eq!(resolve(&ms, b"Answer"), Some(k + 0x1002));
    assert_eq!(resolve(&ms, b"Question"), None);
    assert_eq!(ordinal_stub(&ms), None);
    assert!(eq_fold(b"AbC", b"aBc"));
    assert!(!eq_fold(b"AbC", b"aB"));
}

#[test]
fn an_unresolved_import_gets_a_stub_of_its_own() {
    let mut mmu = machine();
    let mut ms = modules();
    let a = unresolved_stub(&mut ms, &mut mmu).unwrap();
    let b = unresolved_stub(&mut ms, &mut mmu).unwrap();
    assert_eq!(b, a + 16);
    assert_eq!(unresolved_range(&ms), (a, 4096));
    let at = (a - WINDOW) as usize;
    assert_eq!(mmu.phys.ram[at..at + 3], [0x31, 0xC0, 0xC3]);
    let mut pool = Pool::new();
    let l = load_user(&mut mmu, &mut pool, &mut ms, &image("Missing")).unwrap();
    assert_eq!(get64(&l.image, 0x21A0), a + 32);
}

#[test]
fn a_program_gets_its_image_its_stack_and_its_blocks() {
    let mut mmu = machine();
    let mut ms = modules();
    assert!(init_trampoline(&mut ms.ntdll, &mut mmu));
    let mut ids = ClientIds::new();
    let p = load_user_process(&mut mmu, &mut ms, &mut ids, 0x44, &image("NtClose")).unwrap();
    assert_eq!((p.image_base, p.image_size), (BASE, 0x3000));
    assert_eq!(p.entry_va, BASE + 0x1004);
    assert_eq!(p.user_rsp, USER_STACK_TOP - 0x28);
    assert_eq!(p.teb, TEB_BASE);
    assert_eq!(ids.next, 0x108);
    mmu.cr3 = p.cr3;
    let code = read_user(&mmu, p.entry_va, 1).unwrap();
    assert_eq!(code, vec![0xCC]);
    let iat = read_user(&mmu, BASE + 0x21A0, 8).unwrap();
    assert_eq!(get64(&iat, 0), trampoline_base(&ms.ntdll) + 0x40);
    let teb = read_user(&mmu, TEB_BASE, 0x100).unwrap();
    assert_eq!(get64(&teb, 0x30), TEB_BASE);
    assert_eq!((get64(&teb, 0x40), get64(&teb, 0x48)), (0x100, 0x104));
    assert_eq!(get64(&teb, 0x60), PEB_BASE);
    assert!(read_user(&mmu, p.user_rsp, 8).is_some());
    let peb = read_user(&mmu, PEB_BASE, 0x20).unwrap();
    assert_eq!(get64(&peb, 0x10), BASE);
}

#[test]
fn programs_that_cannot_run_are_refused() {
    let mut mmu = machine();
    let mut ms = modules();
    let mut ids = ClientIds::new();
    let mut high = image("x");
    put64(&mut high, 0x98 + 24, 0xFFFF_8000_0000_0000);
    assert!(matches!(
        load_user_process(&mut mmu, &mut ms, &mut ids, 0, &high),
        Err(NtStatus(NtStatus::INVALID_IMAGE_FORMAT))
    ));
    assert_eq!(ids.next, 0x100);
    assert_eq!(next_client_id(&mut ids), (0x100, 0x104));
    assert_eq!(next_client_id(&mut ids), (0x108, 0x10C));
}

#[test]
fn blocks_point_at_each_other() {
    let p = BlockParams {
        stack_limit: 0x1000,
        pid: 8,
        tid: 12,
        image_base: BASE,
        entry_point: BASE + 4,
        image_size: 0x3000,
        console: 0x44,
    };
    let b = build_blocks(&p, Some(&[1, 2, 3]));
    assert_eq!(b.len(), 0x8000);
    assert_eq!(get64(&b, 0x30), TEB_BASE);
    assert_eq!(get64(&b, 0x60), PEB_BASE);
    assert_eq!(get64(&b, 0x2010), BASE);
    assert_eq!(get64(&b, 0x08), USER_STACK_TOP);
    assert_eq!(get64(&b, 0x10), 0x1000);
}

#[test]
fn an_unloaded_driver_gives_everything_back() {
    let mut mmu = machine();
    let mut pool = Pool::new();
    let mut ms = modules();
    let l = load(&mut mmu, &mut pool, &mut ms, &image(export(0))).unwrap();
    let mut om = ObjectManager::new();
    let kind = om.add_type(ObjectType { name: UnicodeString::empty(), delete: Some(9) });
    let driver = ob_create_object(&mut om, &mut pool, &mut mmu.phys, kind, 64);
    assert!(matches!(
        ldr_load_driver(&l, Err(NtStatus(NtStatus::INSUFFICIENT_RESOURCES))),
        Err(NtStatus(NtStatus::INSUFFICIENT_RESOURCES))
    ));
    let d = ldr_load_driver(&l, driver).unwrap();
    assert_eq!((d.image_base, d.image_size), (l.base, 0x3000));
    let live = pool.live.len();
    let dead = ldr_unload_driver(&mut om, &mut pool, &mut mmu.phys, WINDOW, &d).unwrap();
    assert_eq!(dead.body, d.driver);
    assert_eq!(dead.delete, Some(9));
    assert_eq!(pool.live.len(), live - 1);
}

/// A resource image: one section at 0x1000 that holds a resource directory with
/// string block 1 and message 5.
fn resources() -> Vec<u8> {
    let mut f = vec![0u8; 0x1000];
    put(&mut f, 0, b"MZ");
    put32(&mut f, 0x3C, 0x80);
    put(&mut f, 0x80, b"PE\0\0");
    put(&mut f, 0x84, &0x8664u16.to_le_bytes());
    put(&mut f, 0x86, &1u16.to_le_bytes());
    put(&mut f, 0x94, &0xF0u16.to_le_bytes());
    put(&mut f, 0x98, &0x20Bu16.to_le_bytes());
    put32(&mut f, 0x98 + 108, 16);
    put32(&mut f, 0x98 + 112 + 16, 0x1000);
    put32(&mut f, 0x98 + 116 + 16, 0x800);
    put(&mut f, 0x188, b".rsrc");
    put32(&mut f, 0x188 + 8, 0x800);
    put32(&mut f, 0x188 + 12, 0x1000);
    put32(&mut f, 0x188 + 16, 0x800);
    put32(&mut f, 0x188 + 20, 0x400);
    let r = 0x400;
    // Root: strings and messages.
    put(&mut f, r + 14, &2u16.to_le_bytes());
    put32(&mut f, r + 16, 6);
    put32(&mut f, r + 20, 0x8000_0040);
    put32(&mut f, r + 24, 11);
    put32(&mut f, r + 28, 0x8000_0080);
    let leaf = |f: &mut [u8], dir: usize, id: u32, lang: usize, entry: usize, rva: u32, size: u32| {
        put(f, r + dir + 14, &1u16.to_le_bytes());
        put32(f, r + dir + 16, id);
        put32(f, r + dir + 20, 0x8000_0000 | lang as u32);
        put(f, r + lang + 14, &1u16.to_le_bytes());
        put32(f, r + lang + 16, 0x409);
        put32(f, r + lang + 20, entry as u32);
        put32(f, r + entry, rva);
        put32(f, r + entry + 4, size);
    };
    leaf(&mut f, 0x40, 1, 0xC0, 0x140, 0x1200, 0x40);
    leaf(&mut f, 0x80, 1, 0x100, 0x160, 0x1300, 0x40);
    // String block: string 0 empty, string 1 "Hi".
    put(&mut f, r + 0x202, &[2, 0, b'H', 0, b'i', 0]);
    // Message table: block 5..=5 at offset 16, a wide entry.
    put32(&mut f, r + 0x300, 1);
    put32(&mut f, r + 0x304, 5);
    put32(&mut f, r + 0x308, 5);
    put32(&mut f, r + 0x30C, 16);
    put(&mut f, r + 0x310, &[12, 0, 1, 0, b'Y', 0, b'o', 0, 0, 0, 0, 0]);
    f
}

#[test]
fn texts_come_from_resources() {
    let f = resources();
    let mut out = vec![0u16; 8];
    assert_eq!(load_string_from(&f, 1, &mut out), 2);
    assert_eq!(out[..3], [72, 105, 0]);
    let mut small = vec![0u16; 1];
    assert_eq!(load_string_from(&f, 1, &mut small), 1);
    assert_eq!(small, vec![72]);
    assert_eq!(load_string_from(&f, 40, &mut out), 0);
    let mut msg = vec![9u16; 8];
    assert_eq!(load_message_from(&f, 5, &mut msg), 2);
    assert_eq!(msg[..2], [89, 111]);
    assert_eq!(load_message_from(&f, 6, &mut msg), 0);
    let mut t = MuiTable::new();
    assert_eq!(load_string(&t, 0x1000, 1, &mut out), 0);
    register(&mut t, 0x1000, f);
    assert_eq!(load_string(&t, 0x1000, 1, &mut out), 2);
    assert_eq!(load_message(&t, 0x1000, 5, &mut msg), 2);
    assert_eq!(load_message(&t, 0x2000, 5, &mut msg), 0);
}

#[test]
fn a_text_cut_off_by_the_end_of_the_file_is_written_so_far() {
    let mut f = resources();
    f.truncate(0x400 + 0x316);
    let mut msg = vec![9u16; 4];
    assert_eq!(load_message_from(&f, 5, &mut msg), 0);
    assert_eq!(msg, vec![89, 9, 9, 9]);
    // The same entry, narrow.
    f[0x400 + 0x312] = 0;
    f[0x400 + 0x315] = b'z';
    let mut msg = vec![9u16; 4];
    assert_eq!(load_message_from(&f, 5, &mut msg), 0);
    assert_eq!(msg, vec![89, 122, 9, 9]);
    let mut f = resources();
    f.truncate(0x400 + 0x207);
    let mut out = vec![9u16; 4];
    assert_eq!(load_string_from(&f, 1, &mut out), 0);
    assert_eq!(out, vec![72, 9, 9, 9]);
    let mut t = MuiTable::new();
    register(&mut t, 0x1000, f);
    let mut out = vec![7u16; 2];
    assert_eq!(load_string(&t, 0x1000, 1, &mut out), 0);
    assert_eq!(out, vec![72, 7]);
    // A destination that the cut does not reach is filled.
    let mut one = vec![9u16; 1];
    assert_eq!(load_string(&t, 0x1000, 1, &mut one), 1);
    assert_eq!(one, vec![72]);
}

#[test]
fn every_program_has_its_own_module_data() {
    let mut mmu = machine();
    let page = mm_allocate_page(&mut mmu.phys).unwrap();
    mmu.phys.ram[page.0 as usize] = 0x5A;
    let va = WINDOW + page.0;
    let mut shim = ShimData::new();
    assert_eq!(first_shim_data_va(&shim), 0);
    register_shim_data(&mut shim, &mmu, va, &[(0, 0x100)]);
    assert_eq!(first_shim_data_va(&shim), va);
    let mut slots = ShimSlots::new();
    let before = mm_free_page_count(&mmu.phys);
    let cr3 = mmu.cr3;
    mmu.phys.ram[page.0 as usize] = 0x77;
    privatize_shim_data(&mut slots, &shim, &mut mmu.phys, &mmu.window, cr3);
    assert_eq!(read_user(&mmu, va, 1), Some(vec![0x5A]));
    assert!(mm_free_page_count(&mmu.phys) < before);
    // A second request for the same program changes nothing.
    let taken = mm_free_page_count(&mmu.phys);
    let own = mm_get_physical_address(&mmu, va).unwrap();
    assert!(write_user(&mut mmu, va, &[0x33]));
    let ram = mmu.phys.ram.clone();
    privatize_shim_data(&mut slots, &shim, &mut mmu.phys, &mmu.window, cr3);
    assert_eq!(mm_free_page_count(&mmu.phys), taken);
    assert_eq!(mm_get_physical_address(&mmu, va), Some(own));
    assert!(mmu.phys.ram == ram);
    assert_eq!(read_user(&mmu, va, 1), Some(vec![0x33]));
    free_shim_pages(&mut slots, &mut mmu.phys, cr3);
    assert_eq!(mm_free_page_count(&mmu.phys), before);
    assert!(slots.slots.iter().all(|s| !s.in_use && s.cr3 == 0));
}

#[test]
fn modules_register_until_the_table_is_full() {
    let mut t = MuiTable::new();
    let mut out = vec![0u16; 8];
    register(&mut t, 0x1000, Vec::new());
    register(&mut t, 0x2000, resources());
    assert_eq!(load_string(&t, 0x2000, 1, &mut out), 2);
    assert_eq!(load_string(&t, 0x1000, 1, &mut out), 0);
    register(&mut t, 0x1000, resources());
    assert_eq!(load_string(&t, 0x1000, 1, &mut out), 2);
    for i in 2..MAX_MUI as u64 {
        register(&mut t, 0x10_0000 + i, resources());
    }
    register(&mut t, 0x9000, resources());
    assert_eq!(load_string(&t, 0x9000, 1, &mut out), 0);
    register(&mut t, 0x2000, Vec::new());
    assert_eq!(load_string(&t, 0x2000, 1, &mut out), 0);
}
