//! Loading a program into an address space of its own.
//!
//! The image is mapped at its preferred base in the low half, so it needs no
//! relocation; it gets a stack and the control blocks of [`crate::ldr::blocks`].
use crate::bytes::{bytes64, get32, get64, overlay, u32le, u64le};
use crate::ldr::bind::{resolve_imports, Link};
use crate::ldr::blocks::{
    block_region, build_blocks, BlockParams, TEB_BASE, USER_BLOCK_PAGES, USER_STACK_TOP,
};
use crate::ldr::load::bound;
use crate::ldr::loaded::{modules_wf, LoadedModules};
use crate::ldr::pe::{
    bad, data_directory, directory, headers, map_sections, mapped, parse_headers, ImageHeaders,
    DIR_IMPORT, DIR_TLS, MAX_IMAGE,
};
use crate::mm::phys::{
    alloc_page, alloc_pages, keeps_frames, mm_allocate_contiguous_pages, mm_write_physical,
    PhysState,
};
use crate::mm::virt::{
    fresh_space_entries, map_range, mm_create_address_space, mm_map_user_range, with_table, Mmu,
};
use crate::mm::PhysAddr;
use crate::rtl::NtStatus;
use vstd::prelude::*;
use vstd::slice::slice_subrange;

verus! {

/// User stack size in pages.
pub const USER_STACK_PAGES: usize = 64;

/// Bottom of the user stack.
pub const USER_STACK_BASE: u64 = 0x0000_7FFF_FFEC_0000;

/// Upper bound of the user half.
pub const USER_HALF: u64 = 0x0000_8000_0000_0000;

/// A user image in its own address space.
#[derive(Debug, Clone, Copy, PartialEq, Eq, Structural)]
pub struct LoadedProcess {
    /// The address space.
    pub cr3: u64,
    /// Address of the entry point.
    pub entry_va: u64,
    /// Initial user stack pointer.
    pub user_rsp: u64,
    /// The thread block, which is the user GS base.
    pub teb: u64,
    /// Where the image stands.
    pub image_base: u64,
    pub image_size: u64,
}

/// The source of client identifiers.
pub struct ClientIds {
    pub next: u64,
}

impl ClientIds {
    /// The first identifiers are 0x100 and 0x104.
    pub fn new() -> (c: Self)
        ensures
            c.next == 0x100,
    {
        ClientIds { next: 0x100 }
    }
}

/// The identifier eight past `n`, without carry.
pub open spec fn after_id(n: u64) -> u64 {
    ((n + 8) % 0x1_0000_0000_0000_0000) as u64
}

/// A fresh (process, thread) identifier pair.
pub fn next_client_id(ids: &mut ClientIds) -> (r: (u64, u64))
    requires
        old(ids).next <= u64::MAX - 4,
    ensures
        r == (old(ids).next, (old(ids).next + 4) as u64),
        final(ids).next == after_id(old(ids).next),
{
    let n: u64 = ids.next;
    ids.next = n.wrapping_add(8);
    (n, n + 4)
}

/// The headers describe a program: of an accepted size, for the user half, with
/// its entry inside.
pub open spec fn runnable(h: ImageHeaders) -> bool {
    &&& 0 < h.size_of_image <= MAX_IMAGE
    &&& 0 < h.preferred_base < USER_HALF
    &&& h.entry_rva < h.size_of_image
}

/// Pages of an image.
pub open spec fn image_pages(h: ImageHeaders) -> int {
    (h.size_of_image + 0xFFF) / 0x1000
}

/// The image in fresh frames, bound to the loaded modules.
#[verifier::opaque]
pub open spec fn image_placed(
    l: Link,
    root: u64,
    offset: u64,
    d: Seq<u8>,
    h: ImageHeaders,
) -> (Link, Result<u64, NtStatus>) {
    match alloc_pages(l.phys, image_pages(h)) {
        (p1, None) => (Link { phys: p1, ..l }, Err(NtStatus(NtStatus::INSUFFICIENT_RESOURCES))),
        (p1, Some(at)) => match mapped(d, h) {
            None => (Link { phys: p1, ..l }, Err(NtStatus(NtStatus::INVALID_IMAGE_FORMAT))),
            Some(img) => match bound(Link { phys: p1, ..l }, root, offset, d, h, true, img) {
                (l2, Err(e)) => (l2, Err(e)),
                (l2, Ok(image)) => (
                    Link {
                        phys: PhysState { ram: overlay(l2.phys.ram, at as int, image), ..l2.phys },
                        ..l2
                    },
                    Ok(at),
                ),
            },
        },
    }
}

fn place_image(mmu: &mut Mmu, modules: &mut LoadedModules, d: &[u8], h: &ImageHeaders) -> (r: Result<
    u64,
    NtStatus,
>)
    requires
        old(mmu).phys.wf(),
        old(mmu).windowed(),
        modules_wf(old(modules)@),
        h.bounded(),
        runnable(*h),
    ensures
        final(mmu).phys.wf(),
        final(mmu).windowed(),
        final(mmu).same_registers(old(mmu)),
        modules_wf(final(modules)@),
        keeps_frames(old(mmu).phys@, final(mmu).phys@),
        r matches Ok(at) ==> at + image_pages(*h) * 0x1000 <= final(mmu).phys@.ram.len(),
        (Link { phys: final(mmu).phys@, mods: final(modules)@ }, r) == image_placed(
            Link { phys: old(mmu).phys@, mods: old(modules)@ },
            old(mmu).root(),
            old(mmu).window.offset,
            d@,
            *h,
        ),
{
    reveal(image_placed);
    let pages: usize = ((h.size_of_image + 0xFFF) / 0x1000) as usize;
    let ghost bits0 = mmu.phys.bits();
    let ram_len: usize = mmu.phys.ram.len();
    let at: PhysAddr = match mm_allocate_contiguous_pages(&mut mmu.phys, pages) {
        Some(p) => p,
        None => {
            return Err(NtStatus(NtStatus::INSUFFICIENT_RESOURCES));
        },
    };
    proof {
        let first = at.0 as int / 4096;
        let n = bits0.len() as int;
        assert(exists|from: int|
            crate::rtl::bitmap::run_at(bits0, from, n, pages as int, first));
        assert(first + pages <= n);
    }
    let img: Vec<u8> = match map_sections(d, h) {
        Some(v) => v,
        None => {
            return Err(bad());
        },
    };
    let (import_rva, import_size) = data_directory(d, h, DIR_IMPORT);
    let image: Vec<u8> = if import_rva != 0 {
        match resolve_imports(img, import_rva, true, modules, mmu) {
            Ok(v) => v,
            Err(e) => {
                return Err(e);
            },
        }
    } else {
        img
    };
    assert(mmu.phys@.ram.len() == ram_len);
    let ram_now: usize = mmu.phys.ram.len();
    mm_write_physical(&mut mmu.phys, at, image.as_slice());
    Ok(at.0)
}

/// A fresh address space with the image and a stack mapped in it, and the return
/// address on the stack.
#[verifier::opaque]
pub open spec fn space_built(
    st: PhysState,
    kernel_pml4: u64,
    h: ImageHeaders,
    at: u64,
    ret: u64,
) -> (PhysState, Option<u64>) {
    match alloc_page(st) {
        (s1, None) => (st, None),
        (s1, Some(cr3)) => {
            let s2 = PhysState {
                ram: with_table(s1.ram, cr3 as int, fresh_space_entries(s1.ram, kernel_pml4)),
                ..s1
            };
            let (s3, ok3) = map_range(
                s2,
                cr3,
                h.preferred_base,
                at,
                0,
                image_pages(h),
                true,
                true,
            );
            if !ok3 {
                (s3, None)
            } else {
                match alloc_pages(s3, USER_STACK_PAGES as int) {
                    (s4, None) => (s4, None),
                    (s4, Some(stack)) => {
                        let (s5, ok5) = map_range(
                            s4,
                            cr3,
                            USER_STACK_BASE,
                            stack,
                            0,
                            USER_STACK_PAGES as int,
                            true,
                            false,
                        );
                        if !ok5 {
                            (s5, None)
                        } else {
                            (
                                PhysState {
                                    ram: overlay(s5.ram, stack + 0x3_FFD8, bytes64(ret)),
                                    ..s5
                                },
                                Some(cr3),
                            )
                        }
                    },
                }
            }
        },
    }
}

fn build_space(mmu: &mut Mmu, h: &ImageHeaders, at: u64, ret: u64) -> (r: Option<u64>)
    requires
        old(mmu).phys.wf(),
        old(mmu).windowed(),
        h.bounded(),
        runnable(*h),
        at + image_pages(*h) * 0x1000 <= old(mmu).phys@.ram.len(),
    ensures
        final(mmu).phys.wf(),
        final(mmu).windowed(),
        final(mmu).same_registers(old(mmu)),
        keeps_frames(old(mmu).phys@, final(mmu).phys@),
        (final(mmu).phys@, r) == space_built(
            old(mmu).phys@,
            old(mmu).kernel_pml4,
            *h,
            at,
            ret,
        ),
{
    reveal(space_built);
    let pages: usize = ((h.size_of_image + 0xFFF) / 0x1000) as usize;
    let ram_len: usize = mmu.phys.ram.len();
    let cr3: PhysAddr = match mm_create_address_space(mmu) {
        Some(p) => p,
        None => {
            return None;
        },
    };
    if !mm_map_user_range(
        &mut mmu.phys,
        cr3,
        h.preferred_base,
        PhysAddr(at),
        pages,
        true,
        true,
    ) {
        return None;
    }
    let ghost bits0 = mmu.phys.bits();
    let stack: PhysAddr = match mm_allocate_contiguous_pages(&mut mmu.phys, USER_STACK_PAGES) {
        Some(p) => p,
        None => {
            return None;
        },
    };
    proof {
        let first = stack.0 as int / 4096;
        let n = bits0.len() as int;
        assert(exists|from: int|
            crate::rtl::bitmap::run_at(bits0, from, n, USER_STACK_PAGES as int, first));
        assert(first + USER_STACK_PAGES <= n);
    }
    if !mm_map_user_range(
        &mut mmu.phys,
        cr3,
        USER_STACK_BASE,
        stack,
        USER_STACK_PAGES,
        true,
        false,
    ) {
        return None;
    }
    let mut word: Vec<u8> = vec![0u8; 8];
    crate::bytes::put64(&mut word, 0, ret);
    proof {
        assert(bytes64(ret).len() == 8);
        assert(word@ =~= bytes64(ret));
        assert(mmu.phys@.ram.len() == ram_len);
    }
    let ram_now: usize = mmu.phys.ram.len();
    mm_write_physical(&mut mmu.phys, PhysAddr(stack.0 + 0x3_FFD8), word.as_slice());
    Some(cr3.0)
}

/// Inputs for [`setup_user_blocks`].
#[derive(Debug, Clone, Copy)]
pub struct SetupBlocks {
    pub cr3: u64,
    pub preferred_base: u64,
    pub entry_rva: u64,
    pub size_of_image: u64,
    /// Physical address of the image.
    pub img_phys: u64,
    pub tls_rva: u64,
}

impl SetupBlocks {
    /// An address lies in the image.
    pub open spec fn in_image(self, va: int) -> bool {
        self.preferred_base <= va < self.preferred_base + self.size_of_image
    }

    pub open spec fn wf(self, ram_len: int) -> bool {
        &&& self.preferred_base < USER_HALF
        &&& self.size_of_image <= MAX_IMAGE
        &&& self.entry_rva < self.size_of_image
        &&& self.img_phys + self.size_of_image <= ram_len
        &&& self.tls_rva <= 0xFFFF_FFFF
    }
}

/// The image's thread-local template, as the span of physical memory it fills,
/// if it declares one that fits.
pub open spec fn tls_span(ram: Seq<u8>, s: SetupBlocks) -> Option<(int, int)> {
    let dir = s.img_phys + s.tls_rva;
    if s.tls_rva == 0 || s.tls_rva + 0x28 > s.size_of_image {
        None
    } else {
        let start = get64(ram, dir);
        let end = get64(ram, dir + 8);
        let zero_fill = get32(ram, dir + 0x20);
        let from = s.img_phys + (start - s.preferred_base);
        if end >= start && s.in_image(start) && (end - start) + zero_fill <= 0xF80 && from + (end
            - start) <= ram.len() {
            Some((from, from + (end - start)))
        } else {
            None
        }
    }
}

/// Where in physical memory the image keeps its thread-local index, if it does.
pub open spec fn tls_index(ram: Seq<u8>, s: SetupBlocks) -> Option<int> {
    let idx = get64(ram, s.img_phys + s.tls_rva + 0x10);
    let at = s.img_phys + (idx - s.preferred_base);
    if s.in_image(idx) && at + 4 <= ram.len() {
        Some(at)
    } else {
        None
    }
}

/// The parameters of the block region.
pub open spec fn block_params(s: SetupBlocks, console: u64, pid: u64, tid: u64) -> BlockParams {
    BlockParams {
        stack_limit: USER_STACK_BASE,
        pid,
        tid,
        image_base: s.preferred_base,
        entry_point: (s.preferred_base + s.entry_rva) as u64,
        image_size: s.size_of_image as u32,
        console,
    }
}

/// Memory with the control blocks of a process in it: the region in fresh frames,
/// mapped in its address space, and the image's thread-local index set to 0.
/// False when memory is exhausted.
#[verifier::opaque]
pub open spec fn blocks_set_up(
    st: PhysState,
    s: SetupBlocks,
    console: u64,
    pid: u64,
    tid: u64,
) -> (PhysState, bool) {
    match alloc_pages(st, USER_BLOCK_PAGES as int) {
        (s1, None) => (s1, false),
        (s1, Some(at)) => {
            let (s2, ok) = map_range(
                s1,
                s.cr3,
                TEB_BASE,
                at,
                0,
                USER_BLOCK_PAGES as int,
                true,
                false,
            );
            if !ok {
                (s2, false)
            } else {
                let p = block_params(s, console, pid, tid);
                match tls_span(s2.ram, s) {
                    None => (
                        PhysState {
                            ram: overlay(s2.ram, at as int, block_region(p, None)),
                            ..s2
                        },
                        true,
                    ),
                    Some((lo, hi)) => {
                        let region = block_region(p, Some(s2.ram.subrange(lo, hi)));
                        let r1 = overlay(s2.ram, at as int, region);
                        let r2 = match tls_index(s2.ram, s) {
                            Some(i) => overlay(r1, i, seq![0u8, 0, 0, 0]),
                            None => r1,
                        };
                        (PhysState { ram: r2, ..s2 }, true)
                    },
                }
            }
        },
    }
}

/// Read the thread-local directory: the span of the template and the place of
/// the index.
fn find_tls(ram: &Vec<u8>, s: &SetupBlocks) -> (r: (Option<(usize, usize)>, Option<u64>))
    requires
        s.wf(ram@.len() as int),
    ensures
        match r.0 {
            Some((lo, hi)) => tls_span(ram@, *s) == Some((lo as int, hi as int)) && lo <= hi
                <= ram@.len() && hi - lo <= 0xF80,
            None => tls_span(ram@, *s) is None,
        },
        r.0 is Some ==> match r.1 {
            Some(i) => tls_index(ram@, *s) == Some(i as int),
            None => tls_index(ram@, *s) is None,
        },
{
    if s.tls_rva == 0 || s.tls_rva + 0x28 > s.size_of_image {
        return (None, None);
    }
    let len: u64 = ram.len() as u64;
    let dir: u64 = s.img_phys + s.tls_rva;
    let b = ram.as_slice();
    let start: u64 = match u64le(b, dir) {
        Some(v) => v,
        None => 0,
    };
    let end: u64 = match u64le(b, dir + 8) {
        Some(v) => v,
        None => 0,
    };
    let idx: u64 = match u64le(b, dir + 0x10) {
        Some(v) => v,
        None => 0,
    };
    let zero_fill: u32 = match u32le(b, dir + 0x20) {
        Some(v) => v,
        None => 0,
    };
    let top: u64 = s.preferred_base + s.size_of_image;
    if end < start || start < s.preferred_base || start >= top {
        return (None, None);
    }
    let size: u64 = end - start;
    if size > 0xF80 || size + zero_fill as u64 > 0xF80 {
        return (None, None);
    }
    let from: u64 = s.img_phys + (start - s.preferred_base);
    if from > len || size > len - from {
        return (None, None);
    }
    let index: Option<u64> = if idx >= s.preferred_base && idx < top {
        let at: u64 = s.img_phys + (idx - s.preferred_base);
        if at <= len && 4 <= len - at {
            Some(at)
        } else {
            None
        }
    } else {
        None
    };
    (Some((from as usize, (from + size) as usize)), index)
}

/// Fill in the thread and process blocks, the process parameters, the module
/// list, the thread-local storage and the environment of a fresh process.
pub fn setup_user_blocks(
    mmu: &mut Mmu,
    s: &SetupBlocks,
    console: u64,
    pid: u64,
    tid: u64,
) -> (r: Result<(), NtStatus>)
    requires
        old(mmu).phys.wf(),
        s.wf(old(mmu).phys@.ram.len() as int),
    ensures
        final(mmu).phys.wf(),
        final(mmu).same_registers(old(mmu)),
        keeps_frames(old(mmu).phys@, final(mmu).phys@),
        ({
            let (st, ok) = blocks_set_up(old(mmu).phys@, *s, console, pid, tid);
            &&& final(mmu).phys@ == st
            &&& r == if ok {
                Ok::<(), NtStatus>(())
            } else {
                Err(NtStatus(NtStatus::INSUFFICIENT_RESOURCES))
            }
        }),
{
    reveal(blocks_set_up);
    let ghost bits0 = mmu.phys.bits();
    let ram_len: usize = mmu.phys.ram.len();
    let at: PhysAddr = match mm_allocate_contiguous_pages(&mut mmu.phys, USER_BLOCK_PAGES) {
        Some(p) => p,
        None => {
            return Err(NtStatus(NtStatus::INSUFFICIENT_RESOURCES));
        },
    };
    proof {
        let first = at.0 as int / 4096;
        let n = bits0.len() as int;
        assert(exists|from: int|
            crate::rtl::bitmap::run_at(bits0, from, n, USER_BLOCK_PAGES as int, first));
        assert(first + USER_BLOCK_PAGES <= n);
    }
    if !mm_map_user_range(
        &mut mmu.phys,
        PhysAddr(s.cr3),
        TEB_BASE,
        at,
        USER_BLOCK_PAGES,
        true,
        false,
    ) {
        return Err(NtStatus(NtStatus::INSUFFICIENT_RESOURCES));
    }
    let ghost s2 = mmu.phys@;
    assert(s2.ram.len() == ram_len);
    let p = BlockParams {
        stack_limit: USER_STACK_BASE,
        pid,
        tid,
        image_base: s.preferred_base,
        entry_point: s.preferred_base + s.entry_rva,
        image_size: s.size_of_image as u32,
        console,
    };
    let (span, index) = find_tls(&mmu.phys.ram, s);
    let ram_now: usize = mmu.phys.ram.len();
    match span {
        None => {
            let region: Vec<u8> = build_blocks(&p, None);
            mm_write_physical(&mut mmu.phys, at, region.as_slice());
        },
        Some((lo, hi)) => {
            let region: Vec<u8> = build_blocks(
                &p,
                Some(slice_subrange(mmu.phys.ram.as_slice(), lo, hi)),
            );
            mm_write_physical(&mut mmu.phys, at, region.as_slice());
            match index {
                Some(i) => {
                    let zero: [u8; 4] = [0, 0, 0, 0];
                    assert(zero@ =~= seq![0u8, 0, 0, 0]);
                    let ram_then: usize = mmu.phys.ram.len();
                    mm_write_physical(&mut mmu.phys, PhysAddr(i), &zero);
                },
                None => {},
            }
        },
    }
    Ok(())
}

/// The whole of loading a program.
pub open spec fn process_loaded(
    l: Link,
    root: u64,
    offset: u64,
    kernel_pml4: u64,
    id: u64,
    console: u64,
    d: Seq<u8>,
) -> (Link, u64, Result<LoadedProcess, NtStatus>) {
    let no_memory = NtStatus(NtStatus::INSUFFICIENT_RESOURCES);
    match headers(d) {
        None => (l, id, Err(NtStatus(NtStatus::INVALID_IMAGE_FORMAT))),
        Some(h) => if !runnable(h) {
            (l, id, Err(NtStatus(NtStatus::INVALID_IMAGE_FORMAT)))
        } else {
            match image_placed(l, root, offset, d, h) {
                (l1, Err(e)) => (l1, id, Err(e)),
                (l1, Ok(at)) => match space_built(l1.phys, kernel_pml4, h, at, l1.mods.ntdll) {
                    (p2, None) => (Link { phys: p2, ..l1 }, id, Err(no_memory)),
                    (p2, Some(cr3)) => {
                        let s = SetupBlocks {
                            cr3,
                            preferred_base: h.preferred_base,
                            entry_rva: h.entry_rva,
                            size_of_image: h.size_of_image,
                            img_phys: at,
                            tls_rva: directory(d, h, DIR_TLS as int).0 as u64,
                        };
                        let (p3, ok) = blocks_set_up(p2, s, console, id, (id + 4) as u64);
                        let l3 = Link { phys: p3, ..l1 };
                        if !ok {
                            (l3, id, Err(no_memory))
                        } else {
                            (
                                l3,
                                after_id(id),
                                Ok(
                                    LoadedProcess {
                                        cr3,
                                        entry_va: (h.preferred_base + h.entry_rva) as u64,
                                        user_rsp: (USER_STACK_TOP - 0x28) as u64,
                                        teb: TEB_BASE,
                                        image_base: h.preferred_base,
                                        image_size: h.size_of_image,
                                    },
                                ),
                            )
                        }
                    },
                },
            }
        },
    }
}

/// Load a program into a fresh address space, at its preferred base in the low
/// half, with a stack and its control blocks. `console` is the handle for its
/// standard streams.
pub fn load_user_process(
    mmu: &mut Mmu,
    modules: &mut LoadedModules,
    ids: &mut ClientIds,
    console: u64,
    d: &[u8],
) -> (r: Result<LoadedProcess, NtStatus>)
    requires
        old(mmu).phys.wf(),
        old(mmu).windowed(),
        modules_wf(old(modules)@),
        old(ids).next <= u64::MAX - 4,
    ensures
        final(mmu).phys.wf(),
        final(mmu).windowed(),
        final(mmu).same_registers(old(mmu)),
        modules_wf(final(modules)@),
        keeps_frames(old(mmu).phys@, final(mmu).phys@),
        (Link { phys: final(mmu).phys@, mods: final(modules)@ }, final(ids).next, r)
            == process_loaded(
            Link { phys: old(mmu).phys@, mods: old(modules)@ },
            old(mmu).root(),
            old(mmu).window.offset,
            old(mmu).kernel_pml4,
            old(ids).next,
            console,
            d@,
        ),
{
    let h: ImageHeaders = match parse_headers(d) {
        Some(h) => h,
        None => {
            return Err(bad());
        },
    };
    let (tls_rva, tls_size) = data_directory(d, &h, DIR_TLS);
    if h.size_of_image == 0 || h.size_of_image > MAX_IMAGE {
        return Err(bad());
    }
    if h.preferred_base == 0 || h.preferred_base >= USER_HALF {
        return Err(bad());
    }
    if h.entry_rva >= h.size_of_image {
        return Err(bad());
    }
    let at: u64 = match place_image(mmu, modules, d, &h) {
        Ok(p) => p,
        Err(e) => {
            return Err(e);
        },
    };
    let ret: u64 = modules.ntdll.base;
    let cr3: u64 = match build_space(mmu, &h, at, ret) {
        Some(c) => c,
        None => {
            return Err(NtStatus(NtStatus::INSUFFICIENT_RESOURCES));
        },
    };
    let s = SetupBlocks {
        cr3,
        preferred_base: h.preferred_base,
        entry_rva: h.entry_rva,
        size_of_image: h.size_of_image,
        img_phys: at,
        tls_rva: tls_rva as u64,
    };
    match setup_user_blocks(mmu, &s, console, ids.next, ids.next + 4) {
        Ok(()) => {},
        Err(e) => {
            return Err(e);
        },
    }
    let used: (u64, u64) = next_client_id(ids);
    Ok(
        LoadedProcess {
            cr3,
            entry_va: h.preferred_base + h.entry_rva,
            user_rsp: USER_STACK_TOP - 0x28,
            teb: TEB_BASE,
            image_base: h.preferred_base,
            image_size: h.size_of_image,
        },
    )
}

/// The stack ends right at its top, above the control blocks.
pub proof fn stack_and_blocks_are_apart()
    ensures
        USER_STACK_BASE + USER_STACK_PAGES * 0x1000 == USER_STACK_TOP,
        TEB_BASE + USER_BLOCK_PAGES * 0x1000 <= USER_STACK_BASE,
        USER_STACK_TOP < USER_HALF,
{
}

/// A program that is loaded starts inside its own image, in the user half, with
/// its stack pointer just below the stack top and eight off a multiple of
/// sixteen, as a called routine expects.
pub proof fn loaded_program_starts_inside_its_image(
    l: Link,
    root: u64,
    offset: u64,
    kernel_pml4: u64,
    id: u64,
    console: u64,
    d: Seq<u8>,
)
    ensures
        process_loaded(l, root, offset, kernel_pml4, id, console, d).2 matches Ok(p) ==> {
            &&& p.image_base <= p.entry_va < p.image_base + p.image_size
            &&& p.entry_va < USER_HALF + MAX_IMAGE
            &&& p.user_rsp % 16 == 8
            &&& USER_STACK_BASE <= p.user_rsp < USER_STACK_TOP
            &&& p.teb == TEB_BASE
        },
{
}

/// Client numbers never repeat: a process and its first thread are four apart, and the next
/// process comes four behind the thread.
pub proof fn client_numbers_are_four_apart(n: u64)
    requires
        n <= u64::MAX - 8,
    ensures
        after_id(n) == n + 8,
{
}

/// A program that is empty or too large, that has no base in the user half, or that starts
/// outside its image is refused as malformed, and nothing is allocated for it.
pub proof fn a_program_that_cannot_run_is_refused(
    l: Link,
    root: u64,
    offset: u64,
    kernel_pml4: u64,
    id: u64,
    console: u64,
    d: Seq<u8>,
    h: ImageHeaders,
)
    requires
        headers(d) == Some(h),
        h.size_of_image == 0 || h.size_of_image > 0x400_0000 || h.preferred_base == 0
            || h.preferred_base >= 0x8000_0000_0000 || h.entry_rva >= h.size_of_image,
    ensures
        process_loaded(l, root, offset, kernel_pml4, id, console, d) == (
            l,
            id,
            Err::<LoadedProcess, NtStatus>(NtStatus(0xC000_0193)),
        ),
{
}

/// The pages of an image hold all of it, and the last of them some of it.
pub proof fn the_pages_hold_the_image(h: ImageHeaders)
    requires
        h.size_of_image > 0,
    ensures
        image_pages(h) * 4096 >= h.size_of_image,
        (image_pages(h) - 1) * 4096 < h.size_of_image,
{
}

/// A program that is loaded stands at its preferred base and starts at its entry point, with
/// its stack pointer 40 bytes below the stack top, and its numbers are used up.
pub proof fn a_loaded_program_is_where_it_prefers(
    l: Link,
    root: u64,
    offset: u64,
    kernel_pml4: u64,
    id: u64,
    console: u64,
    d: Seq<u8>,
    h: ImageHeaders,
)
    requires
        headers(d) == Some(h),
        id <= u64::MAX - 8,
    ensures
        ({
            let (l1, next, r) = process_loaded(l, root, offset, kernel_pml4, id, console, d);
            match r {
                Ok(p) => {
                    &&& p.image_base == h.preferred_base
                    &&& p.image_size == h.size_of_image
                    &&& p.entry_va == h.preferred_base + h.entry_rva
                    &&& p.user_rsp == 0x7FFF_FFEF_FFD8
                    &&& p.teb == 0x7FFF_FFE0_0000
                    &&& next == id + 8
                },
                Err(_) => next == id,
            }
        }),
{
}

/// The memory `ram`, with the return address on the stack that stands at `stack`.
pub open spec fn return_address_in(after: Seq<u8>, ram: Seq<u8>, stack: u64, ret: u64) -> bool {
    after == overlay(ram, stack + (0x7FFF_FFEF_FFD8 - 0x7FFF_FFEC_0000), bytes64(ret))
}

/// The word under the initial stack pointer is the return address: it stands in the stack's
/// memory as far from its bottom as the stack pointer does.
pub proof fn the_stack_holds_the_return_address(
    st: PhysState,
    kernel_pml4: u64,
    h: ImageHeaders,
    at: u64,
    ret: u64,
)
    requires
        space_built(st, kernel_pml4, h, at, ret).1 is Some,
    ensures
        exists|s3: PhysState|
            #[trigger] alloc_pages(s3, 64).1 is Some && return_address_in(
                space_built(st, kernel_pml4, h, at, ret).0.ram,
                map_range(
                    alloc_pages(s3, 64).0,
                    space_built(st, kernel_pml4, h, at, ret).1->0,
                    0x7FFF_FFEC_0000,
                    alloc_pages(s3, 64).1->0,
                    0,
                    64,
                    true,
                    false,
                ).0.ram,
                alloc_pages(s3, 64).1->0,
                ret,
            ),
{
    reveal(space_built);
    let (s1, cr3) = alloc_page(st);
    let s2 = PhysState {
        ram: with_table(s1.ram, cr3->0 as int, fresh_space_entries(s1.ram, kernel_pml4)),
        ..s1
    };
    let (s3, ok3) = map_range(
        s2,
        cr3->0,
        h.preferred_base,
        at,
        0,
        image_pages(h),
        true,
        true,
    );
    let (s4, stack) = alloc_pages(s3, USER_STACK_PAGES as int);
    assert(stack is Some);
    let (s5, ok5) = map_range(s4, cr3->0, USER_STACK_BASE, stack->0, 0, 64, true, false);
    assert(s5 == map_range(
        alloc_pages(s3, 64).0,
        cr3->0,
        0x7FFF_FFEC_0000,
        stack->0,
        0,
        64,
        true,
        false,
    ).0);
}

/// The TLS directory of an image names the first and the last byte of the template by their
/// addresses: the template is copied from where the image has them, whole, if it fits with
/// its zeroes.
pub proof fn the_template_is_where_the_directory_says(
    ram: Seq<u8>,
    s: SetupBlocks,
    start: int,
    end: int,
)
    requires
        0 < s.tls_rva,
        s.tls_rva + 40 <= s.size_of_image,
        get64(ram, s.img_phys + s.tls_rva) == start,
        get64(ram, s.img_phys + s.tls_rva + 8) == end,
        s.preferred_base <= start <= end,
        start < s.preferred_base + s.size_of_image,
        s.img_phys + (end - s.preferred_base) <= ram.len(),
        end - start + get32(ram, s.img_phys + s.tls_rva + 32) <= 0xF80,
    ensures
        tls_span(ram, s) == Some(
            (s.img_phys + (start - s.preferred_base), s.img_phys + (end - s.preferred_base)),
        ),
{
}

/// A program without a TLS directory, with one outside its image, or with a template that
/// does not fit has no template.
pub proof fn a_template_that_does_not_fit_is_left_out(ram: Seq<u8>, s: SetupBlocks)
    requires
        s.tls_rva == 0 || s.tls_rva + 40 > s.size_of_image || get64(
            ram,
            s.img_phys + s.tls_rva + 8,
        ) - get64(ram, s.img_phys + s.tls_rva) + get32(ram, s.img_phys + s.tls_rva + 32) > 0xF80,
    ensures
        tls_span(ram, s) is None,
{
}

/// The index of the template is where the third word of the directory says.
pub proof fn the_index_is_where_the_directory_says(ram: Seq<u8>, s: SetupBlocks, va: int)
    requires
        get64(ram, s.img_phys + s.tls_rva + 16) == va,
    ensures
        s.preferred_base <= va < s.preferred_base + s.size_of_image && s.img_phys + (va
            - s.preferred_base) + 4 <= ram.len() ==> tls_index(ram, s) == Some(
            s.img_phys + (va - s.preferred_base),
        ),
        !(s.preferred_base <= va < s.preferred_base + s.size_of_image) ==> tls_index(ram, s) is None,
{
}

/// A program's image stands in frames of its own: as it is mapped, with its imports bound.
pub proof fn an_image_stands_in_its_own_frames(
    l: Link,
    root: u64,
    offset: u64,
    d: Seq<u8>,
    h: ImageHeaders,
)
    ensures
        ({
            let (l1, r) = image_placed(l, root, offset, d, h);
            let (p1, pa) = alloc_pages(l.phys, image_pages(h));
            match r {
                Ok(at) => {
                    let (l2, image) = bound(
                        Link { phys: p1, ..l },
                        root,
                        offset,
                        d,
                        h,
                        true,
                        mapped(d, h)->0,
                    );
                    &&& pa == Some(at)
                    &&& mapped(d, h) is Some
                    &&& image is Ok
                    &&& l1.phys.ram == overlay(l2.phys.ram, at as int, image->Ok_0)
                    &&& l1.mods == l2.mods
                },
                Err(e) => {
                    &&& pa is None ==> e == NtStatus(0xC000_009A)
                    &&& pa is Some && mapped(d, h) is None ==> e == NtStatus(0xC000_0193)
                },
            }
        }),
{
    reveal(image_placed);
}

/// The blocks of a program are mapped where programs look for them, and tell of its image.
pub proof fn the_blocks_tell_of_their_program(
    st: PhysState,
    s: SetupBlocks,
    console: u64,
    pid: u64,
    tid: u64,
)
    ensures
        ({
            let p = block_params(s, console, pid, tid);
            &&& p.image_base == s.preferred_base
            &&& p.entry_point == (s.preferred_base + s.entry_rva) as u64
            &&& p.image_size == s.size_of_image as u32
            &&& p.stack_limit == 0x7FFF_FFEC_0000
            &&& p.pid == pid
            &&& p.tid == tid
            &&& p.console == console
        }),
        alloc_pages(st, 8).1 is None ==> !blocks_set_up(st, s, console, pid, tid).1,
        alloc_pages(st, 8).1 matches Some(at) ==> {
            let (s2, ok) = map_range(
                alloc_pages(st, 8).0,
                s.cr3,
                0x7FFF_FFE0_0000,
                at,
                0,
                8,
                true,
                false,
            );
            let p = block_params(s, console, pid, tid);
            &&& blocks_set_up(st, s, console, pid, tid).1 == ok
            &&& ok && tls_span(s2.ram, s) is None ==> blocks_set_up(
                st,
                s,
                console,
                pid,
                tid,
            ).0.ram == overlay(s2.ram, at as int, block_region(p, None))
            &&& tls_span(s2.ram, s) matches Some(x) ==> (ok && tls_index(s2.ram, s) is None
                ==> blocks_set_up(st, s, console, pid, tid).0.ram == overlay(
                s2.ram,
                at as int,
                block_region(p, Some(s2.ram.subrange(x.0, x.1))),
            ))
        },
{
    reveal(blocks_set_up);
}

} // verus!
