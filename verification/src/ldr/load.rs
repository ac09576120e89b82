//! Loading images into shared memory: drivers, and the support modules that all
//! programs bind to.
use crate::bytes::overlay;
use crate::ldr::bind::{bound_imports, resolve_imports, Link};
use crate::ldr::loaded::{
    modules_wf, resolve_export_in, LoadedModules, Module, ModuleState, ModulesState,
};
use crate::ldr::pe::{
    bad, data_directory, directory, headers, image_at, loadable, map_and_relocate, parse_headers,
    ImageHeaders, DIR_IMPORT, MAX_IMAGE,
};
use crate::mm::phys::{keeps_frames, mm_write_physical, PhysState};
use crate::mm::pool::{
    allocated, allocation_adds_one_block, pool_alloc_checked, sound_while_frames_are_kept, Pool,
    PoolState,
};
use crate::mm::virt::{mm_set_executable, mm_set_user_executable, protect_range, Mmu, ENTRY_USER};
use crate::mm::{phys_to_virt, PhysAddr};
use crate::rtl::NtStatus;
use vstd::prelude::*;
use vstd::string::StringSliceAdditionalSpecFns;
use vstd::utf8::encode_utf8;

verus! {

/// Pool tag of image memory: "MmLd".
pub const TAG_IMAGE: u32 = 0x644C_6D4D;

/// A loaded image.
pub struct LoadedImage {
    /// Virtual address it runs at.
    pub base: u64,
    /// Its contents, `SizeOfImage` bytes.
    pub image: Vec<u8>,
    /// Address of its entry point.
    pub entry_va: u64,
}

impl View for LoadedImage {
    type V = ModuleState;

    open spec fn view(&self) -> ModuleState {
        ModuleState { base: self.base, image: self.image@, entry: self.entry_va }
    }
}

/// What loading works on.
#[verifier::ext_equal]
pub struct LoaderState {
    pub pool: PoolState,
    pub phys: PhysState,
    pub mods: ModulesState,
}

/// The image bound to the kernel's exports or to the loaded modules.
pub open spec fn bound(
    l: Link,
    root: u64,
    offset: u64,
    d: Seq<u8>,
    h: ImageHeaders,
    user: bool,
    img: Seq<u8>,
) -> (Link, Result<Seq<u8>, NtStatus>) {
    let rva = directory(d, h, DIR_IMPORT as int).0;
    if rva != 0 {
        bound_imports(l, root, offset, user, img, img.len() as int, rva as int)
    } else {
        (l, Ok(img))
    }
}

/// Loading an image: allocate its memory, map and relocate it there, bind its
/// imports, and make it executable (and reachable from user mode).
pub open spec fn image_loaded(st: LoaderState, root: u64, offset: u64, d: Seq<u8>, user: bool) -> (
    LoaderState,
    Result<ModuleState, NtStatus>,
) {
    if !loadable(d) {
        (st, Err(NtStatus(NtStatus::INVALID_IMAGE_FORMAT)))
    } else {
        let h = headers(d)->0;
        let (pool, phys, at) = allocated(st.pool, st.phys, h.size_of_image as int, TAG_IMAGE);
        let s1 = LoaderState { pool, phys, ..st };
        match at {
            None => (s1, Err(NtStatus(NtStatus::INSUFFICIENT_RESOURCES))),
            Some(at) => {
                let base = (offset + at) as u64;
                match image_at(d, h, base) {
                    None => (s1, Err(NtStatus(NtStatus::INVALID_IMAGE_FORMAT))),
                    Some(img) => {
                        let (l, r) = bound(
                            Link { phys, mods: st.mods },
                            root,
                            offset,
                            d,
                            h,
                            user,
                            img,
                        );
                        let s2 = LoaderState { pool, phys: l.phys, mods: l.mods };
                        match r {
                            Err(e) => (s2, Err(e)),
                            Ok(image) => {
                                let written = PhysState {
                                    ram: overlay(l.phys.ram, at as int, image),
                                    ..l.phys
                                };
                                let (p3, ok) = protect_range(
                                    written,
                                    root,
                                    (base / 0x1000) * 0x1000,
                                    base + h.size_of_image,
                                    if user {
                                        ENTRY_USER
                                    } else {
                                        0
                                    },
                                );
                                let s3 = LoaderState { phys: p3, ..s2 };
                                if ok {
                                    (
                                        s3,
                                        Ok(
                                            ModuleState {
                                                base,
                                                image,
                                                entry: (base + h.entry_rva) as u64,
                                            },
                                        ),
                                    )
                                } else {
                                    (s3, Err(NtStatus(NtStatus::INSUFFICIENT_RESOURCES)))
                                }
                            },
                        }
                    },
                }
            },
        }
    }
}

fn load_image(
    mmu: &mut Mmu,
    pool: &mut Pool,
    modules: &mut LoadedModules,
    d: &[u8],
    user: bool,
) -> (r: Result<LoadedImage, NtStatus>)
    requires
        old(pool).wf(&old(mmu).phys),
        old(pool).allocations < u64::MAX,
        old(mmu).windowed(),
        modules_wf(old(modules)@),
    ensures
        final(pool).wf(&final(mmu).phys),
        final(mmu).windowed(),
        final(mmu).same_registers(old(mmu)),
        modules_wf(final(modules)@),
        keeps_frames(old(mmu).phys@, final(mmu).phys@),
        r matches Ok(img) ==> img.base <= u64::MAX - 0xFFFF_FFFF,
        ({
            let (st, want) = image_loaded(
                LoaderState { pool: old(pool)@, phys: old(mmu).phys@, mods: old(modules)@ },
                old(mmu).root(),
                old(mmu).window.offset,
                d@,
                user,
            );
            &&& final(pool)@ == st.pool
            &&& final(mmu).phys@ == st.phys
            &&& final(modules)@ == st.mods
            &&& match want {
                Ok(m) => r is Ok && r->Ok_0@ == m,
                Err(e) => r == Err::<LoadedImage, NtStatus>(e),
            }
        }),
{
    let ghost st = pool@;
    let ghost mem = mmu.phys@;
    let ghost root = mmu.root();
    let ghost offset = mmu.window.offset;
    let h: ImageHeaders = match parse_headers(d) {
        Some(h) => h,
        None => {
            return Err(bad());
        },
    };
    if h.size_of_image == 0 || h.size_of_image > MAX_IMAGE {
        return Err(bad());
    }
    let ram_len: usize = mmu.phys.ram.len();
    proof {
        allocation_adds_one_block(st, mem, h.size_of_image as int, TAG_IMAGE);
    }
    let at: u64 = match pool_alloc_checked(
        pool,
        &mut mmu.phys,
        h.size_of_image as usize,
        TAG_IMAGE,
    ) {
        Ok(p) => p,
        Err(e) => {
            return Err(e);
        },
    };
    let ghost phys1 = mmu.phys@;
    let base: u64 = phys_to_virt(&mmu.window, PhysAddr(at));
    let img: Vec<u8> = match map_and_relocate(d, &h, base) {
        Ok(v) => v,
        Err(e) => {
            return Err(e);
        },
    };
    let (import_rva, import_size) = data_directory(d, &h, DIR_IMPORT);
    let bound_img: Result<Vec<u8>, NtStatus> = if import_rva != 0 {
        resolve_imports(img, import_rva, user, modules, mmu)
    } else {
        Ok(img)
    };
    proof {
        sound_while_frames_are_kept(pool@, phys1, mmu.phys@);
    }
    let image: Vec<u8> = match bound_img {
        Ok(v) => v,
        Err(e) => {
            return Err(e);
        },
    };
    let ghost phys2 = mmu.phys@;
    assert(mmu.phys@.ram.len() == ram_len);
    let ram_now: usize = mmu.phys.ram.len();
    mm_write_physical(&mut mmu.phys, PhysAddr(at), image.as_slice());
    let ok: bool = if user {
        mm_set_user_executable(mmu, base, h.size_of_image)
    } else {
        mm_set_executable(mmu, base, h.size_of_image)
    };
    proof {
        sound_while_frames_are_kept(pool@, phys2, mmu.phys@);
    }
    if !ok {
        return Err(NtStatus(NtStatus::INSUFFICIENT_RESOURCES));
    }
    Ok(LoadedImage { base, image, entry_va: base + h.entry_rva })
}

/// Load a driver: map, relocate, bind to the kernel's exports, and make it
/// executable.
pub fn load(mmu: &mut Mmu, pool: &mut Pool, modules: &mut LoadedModules, d: &[u8]) -> (r: Result<
    LoadedImage,
    NtStatus,
>)
    requires
        old(pool).wf(&old(mmu).phys),
        old(pool).allocations < u64::MAX,
        old(mmu).windowed(),
        modules_wf(old(modules)@),
    ensures
        final(pool).wf(&final(mmu).phys),
        final(mmu).windowed(),
        final(mmu).same_registers(old(mmu)),
        modules_wf(final(modules)@),
        ({
            let (st, want) = image_loaded(
                LoaderState { pool: old(pool)@, phys: old(mmu).phys@, mods: old(modules)@ },
                old(mmu).root(),
                old(mmu).window.offset,
                d@,
                false,
            );
            &&& final(pool)@ == st.pool
            &&& final(mmu).phys@ == st.phys
            &&& final(modules)@ == st.mods
            &&& match want {
                Ok(m) => r is Ok && r->Ok_0@ == m,
                Err(e) => r == Err::<LoadedImage, NtStatus>(e),
            }
        }),
{
    load_image(mmu, pool, modules, d, false)
}

/// Load a user-mode image into shared memory: map, relocate, bind to the loaded
/// modules, and make it user-accessible and executable.
pub fn load_user(
    mmu: &mut Mmu,
    pool: &mut Pool,
    modules: &mut LoadedModules,
    d: &[u8],
) -> (r: Result<LoadedImage, NtStatus>)
    requires
        old(pool).wf(&old(mmu).phys),
        old(pool).allocations < u64::MAX,
        old(mmu).windowed(),
        modules_wf(old(modules)@),
    ensures
        final(pool).wf(&final(mmu).phys),
        final(mmu).windowed(),
        final(mmu).same_registers(old(mmu)),
        modules_wf(final(modules)@),
        r matches Ok(img) ==> img.base <= u64::MAX - 0xFFFF_FFFF,
        ({
            let (st, want) = image_loaded(
                LoaderState { pool: old(pool)@, phys: old(mmu).phys@, mods: old(modules)@ },
                old(mmu).root(),
                old(mmu).window.offset,
                d@,
                true,
            );
            &&& final(pool)@ == st.pool
            &&& final(mmu).phys@ == st.phys
            &&& final(modules)@ == st.mods
            &&& match want {
                Ok(m) => r is Ok && r->Ok_0@ == m,
                Err(e) => r == Err::<LoadedImage, NtStatus>(e),
            }
        }),
{
    load_image(mmu, pool, modules, d, true)
}

/// The modules with `kernel32` loaded: user-mode exceptions go to its
/// dispatcher when it exports one.
pub open spec fn with_kernel32(ms: ModulesState, m: ModuleState) -> ModulesState {
    ModulesState {
        kernel32: m,
        dispatcher: match crate::ldr::loaded::module_export(
            m,
            encode_utf8("KiUserExceptionDispatcher"@),
        ) {
            Some(va) => va,
            None => ms.dispatcher,
        },
        ..ms
    }
}

/// Load the `kernel32` module.
pub fn load_kernel32(
    mmu: &mut Mmu,
    pool: &mut Pool,
    modules: &mut LoadedModules,
    image: &[u8],
) -> (r: Result<(), NtStatus>)
    requires
        old(pool).wf(&old(mmu).phys),
        old(pool).allocations < u64::MAX,
        old(mmu).windowed(),
        modules_wf(old(modules)@),
    ensures
        final(pool).wf(&final(mmu).phys),
        final(mmu).windowed(),
        final(mmu).same_registers(old(mmu)),
        modules_wf(final(modules)@),
        ({
            let (st, want) = image_loaded(
                LoaderState { pool: old(pool)@, phys: old(mmu).phys@, mods: old(modules)@ },
                old(mmu).root(),
                old(mmu).window.offset,
                image@,
                true,
            );
            &&& final(pool)@ == st.pool
            &&& final(mmu).phys@ == st.phys
            &&& match want {
                Ok(m) => r == Ok::<(), NtStatus>(()) && final(modules)@ == with_kernel32(
                    st.mods,
                    m,
                ),
                Err(e) => r == Err::<(), NtStatus>(e) && final(modules)@ == st.mods,
            }
        }),
{
    let l: LoadedImage = match load_user(mmu, pool, modules, image) {
        Ok(l) => l,
        Err(e) => {
            return Err(e);
        },
    };
    modules.kernel32 = Module { base: l.base, image: l.image, entry: l.entry_va };
    match resolve_export_in(&modules.kernel32, "KiUserExceptionDispatcher".as_bytes()) {
        Some(va) => {
            modules.exception_dispatcher = va;
        },
        None => {},
    }
    Ok(())
}

/// Load the `msvcrt` module.
pub fn load_msvcrt(
    mmu: &mut Mmu,
    pool: &mut Pool,
    modules: &mut LoadedModules,
    image: &[u8],
) -> (r: Result<(), NtStatus>)
    requires
        old(pool).wf(&old(mmu).phys),
        old(pool).allocations < u64::MAX,
        old(mmu).windowed(),
        modules_wf(old(modules)@),
    ensures
        final(pool).wf(&final(mmu).phys),
        final(mmu).windowed(),
        final(mmu).same_registers(old(mmu)),
        modules_wf(final(modules)@),
        ({
            let (st, want) = image_loaded(
                LoaderState { pool: old(pool)@, phys: old(mmu).phys@, mods: old(modules)@ },
                old(mmu).root(),
                old(mmu).window.offset,
                image@,
                true,
            );
            &&& final(pool)@ == st.pool
            &&& final(mmu).phys@ == st.phys
            &&& match want {
                Ok(m) => r == Ok::<(), NtStatus>(()) && final(modules)@ == (ModulesState {
                    msvcrt: m,
                    ..st.mods
                }),
                Err(e) => r == Err::<(), NtStatus>(e) && final(modules)@ == st.mods,
            }
        }),
{
    let l: LoadedImage = match load_user(mmu, pool, modules, image) {
        Ok(l) => l,
        Err(e) => {
            return Err(e);
        },
    };
    modules.msvcrt = Module { base: l.base, image: l.image, entry: l.entry_va };
    Ok(())
}

/// Load the `ulib` module, which binds to the modules loaded before it. An empty
/// image is skipped.
pub fn load_ulib(
    mmu: &mut Mmu,
    pool: &mut Pool,
    modules: &mut LoadedModules,
    image: &[u8],
) -> (r: Result<(), NtStatus>)
    requires
        old(pool).wf(&old(mmu).phys),
        old(pool).allocations < u64::MAX,
        old(mmu).windowed(),
        modules_wf(old(modules)@),
    ensures
        final(pool).wf(&final(mmu).phys),
        final(mmu).windowed(),
        final(mmu).same_registers(old(mmu)),
        modules_wf(final(modules)@),
        image@.len() == 0 ==> r == Ok::<(), NtStatus>(()) && final(pool)@ == old(pool)@
            && final(mmu).phys@ == old(mmu).phys@ && final(modules)@ == old(modules)@,
        image@.len() > 0 ==> {
            let (st, want) = image_loaded(
                LoaderState { pool: old(pool)@, phys: old(mmu).phys@, mods: old(modules)@ },
                old(mmu).root(),
                old(mmu).window.offset,
                image@,
                true,
            );
            &&& final(pool)@ == st.pool
            &&& final(mmu).phys@ == st.phys
            &&& match want {
                Ok(m) => r == Ok::<(), NtStatus>(()) && final(modules)@ == (ModulesState {
                    ulib: m,
                    ..st.mods
                }),
                Err(e) => r == Err::<(), NtStatus>(e) && final(modules)@ == st.mods,
            }
        },
{
    if image.len() == 0 {
        return Ok(());
    }
    let l: LoadedImage = match load_user(mmu, pool, modules, image) {
        Ok(l) => l,
        Err(e) => {
            return Err(e);
        },
    };
    modules.ulib = Module { base: l.base, image: l.image, entry: l.entry_va };
    Ok(())
}

/// An image without headers, of no size or of more than 64 MiB is refused as malformed, and
/// nothing changes.
pub proof fn a_malformed_image_is_refused(
    st: LoaderState,
    root: u64,
    offset: u64,
    d: Seq<u8>,
    user: bool,
)
    requires
        match headers(d) {
            Some(h) => h.size_of_image == 0 || h.size_of_image > 0x400_0000,
            None => true,
        },
    ensures
        image_loaded(st, root, offset, d, user) == (
            st,
            Err::<ModuleState, NtStatus>(NtStatus(0xC000_0193)),
        ),
{
}

/// An image that is loaded is entered at its base and its entry point, and stands in the
/// window on the memory that was allocated for it.
pub proof fn a_loaded_image_is_entered_at_its_base(
    st: LoaderState,
    root: u64,
    offset: u64,
    d: Seq<u8>,
    user: bool,
)
    ensures
        image_loaded(st, root, offset, d, user).1 matches Ok(m) ==> {
            let h = headers(d)->0;
            let (pool, phys, at) = allocated(st.pool, st.phys, h.size_of_image as int, 0x644C_6D4D);
            &&& at is Some
            &&& m.base == (offset + at->0) as u64
            &&& m.entry == (m.base + h.entry_rva) as u64
        },
{
}

/// Exceptions go to the dispatcher of the newest `kernel32` that has one.
pub proof fn the_dispatcher_comes_with_its_module(ms: ModulesState, m: ModuleState)
    ensures
        with_kernel32(ms, m).kernel32 == m,
        with_kernel32(ms, m).msvcrt == ms.msvcrt,
        with_kernel32(ms, m).ulib == ms.ulib,
        with_kernel32(ms, m).ntdll == ms.ntdll,
        match crate::ldr::loaded::module_export(m, encode_utf8("KiUserExceptionDispatcher"@)) {
            Some(va) => with_kernel32(ms, m).dispatcher == va,
            None => with_kernel32(ms, m).dispatcher == ms.dispatcher,
        },
{
}

} // verus!
