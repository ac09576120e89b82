//! Import binding.
//!
//! Each import descriptor lists the names a module wants from one library. The
//! binder looks every name up, in the kernel's exports for a driver and in the
//! loaded modules for a program, and writes the address into the import address
//! table. A missing name gets a return-0 stub of its own, an import by ordinal
//! the shared one.
use crate::bytes::{
    bytes64, get32, get64, in_bounds, lemma_bytes64, lemma_get64_in, overlay, put64, read32, read64,
    u32le, u64le,
};
use crate::ldr::exports;
use crate::ldr::loaded::{
    self, assign_stub, modules_wf, ordinal_target, user_import, LoadedModules, ModulesState,
};
use crate::ldr::pe::{bad, name_at, read_cstr};
use crate::mm::phys::{keeps_frames, PhysState};
use crate::mm::virt::Mmu;
use crate::rtl::NtStatus;
use vstd::prelude::*;

verus! {

/// An import whose top bit is set is by ordinal.
pub const IMAGE_ORDINAL_FLAG64: u64 = 0x8000_0000_0000_0000;

/// What binding works on: memory and the loaded modules.
#[verifier::ext_equal]
pub struct Link {
    pub phys: PhysState,
    pub mods: ModulesState,
}

/// What a name resolves to: in the loaded modules for a user image, in the
/// kernel's exports otherwise.
pub open spec fn lookup(ms: ModulesState, user: bool, name: Seq<u8>) -> Option<u64> {
    if user {
        user_import(ms, name)
    } else {
        exports::address_of(ms.kernel_exports, name)
    }
}

/// The address that one import entry binds to, and the state after any stub it
/// needed.
pub open spec fn import_target(
    l: Link,
    root: u64,
    offset: u64,
    user: bool,
    img: Seq<u8>,
    thunk: u64,
) -> (Link, Result<u64, NtStatus>) {
    if thunk >= IMAGE_ORDINAL_FLAG64 {
        match ordinal_target(l.mods) {
            Some(a) => (l, Ok(a)),
            None => (l, Err(NtStatus(NtStatus::PROCEDURE_NOT_FOUND))),
        }
    } else {
        match name_at(img, thunk + 2) {
            None => (l, Err(NtStatus(NtStatus::INVALID_IMAGE_FORMAT))),
            Some(name) => match lookup(l.mods, user, name) {
                Some(a) => (l, Ok(a)),
                None => {
                    let (phys, mods, r) = assign_stub(l.phys, l.mods, root, offset);
                    match r {
                        Some(a) => (Link { phys, mods }, Ok(a)),
                        None => (
                            Link { phys, mods },
                            Err(NtStatus(NtStatus::PROCEDURE_NOT_FOUND)),
                        ),
                    }
                },
            },
        }
    }
}

/// The imports of one library from entry `i` on, in an image of `size` bytes:
/// names are read from the table at `names` up to a zero entry, addresses
/// written to the one at `iat`.
pub open spec fn bound_thunks(
    l: Link,
    root: u64,
    offset: u64,
    user: bool,
    img: Seq<u8>,
    size: int,
    names: int,
    iat: int,
    i: int,
) -> (Link, Result<Seq<u8>, NtStatus>)
    decreases size - i * 8,
{
    if i < 0 || i * 8 + 8 > size {
        (l, Err(NtStatus(NtStatus::INVALID_IMAGE_FORMAT)))
    } else {
        match read64(img, names + i * 8) {
            None => (l, Err(NtStatus(NtStatus::INVALID_IMAGE_FORMAT))),
            Some(thunk) => if thunk == 0 {
                (l, Ok(img))
            } else {
                match import_target(l, root, offset, user, img, thunk) {
                    (l1, Err(e)) => (l1, Err(e)),
                    (l1, Ok(addr)) => if !in_bounds(img, iat + i * 8, 8) {
                        (l1, Err(NtStatus(NtStatus::INVALID_IMAGE_FORMAT)))
                    } else {
                        bound_thunks(
                            l1,
                            root,
                            offset,
                            user,
                            overlay(img, iat + i * 8, bytes64(addr)),
                            size,
                            names,
                            iat,
                            i + 1,
                        )
                    },
                }
            },
        }
    }
}

/// The import descriptors from offset `desc` on: each names the table of names
/// (or none, when the address table holds them), the library and the address
/// table; one of all zeros ends the list.
pub open spec fn bound_imports(
    l: Link,
    root: u64,
    offset: u64,
    user: bool,
    img: Seq<u8>,
    size: int,
    desc: int,
) -> (Link, Result<Seq<u8>, NtStatus>)
    decreases size - desc,
{
    if desc < 0 || desc + 20 > size {
        (l, Err(NtStatus(NtStatus::INVALID_IMAGE_FORMAT)))
    } else {
        match (read32(img, desc), read32(img, desc + 12), read32(img, desc + 16)) {
            (Some(oft), Some(name), Some(iat)) => if oft == 0 && name == 0 && iat == 0 {
                (l, Ok(img))
            } else {
                let names = if oft != 0 {
                    oft
                } else {
                    iat
                };
                match bound_thunks(
                    l,
                    root,
                    offset,
                    user,
                    img,
                    size,
                    names as int,
                    iat as int,
                    0,
                ) {
                    (l1, Err(e)) => (l1, Err(e)),
                    (l1, Ok(next)) => bound_imports(
                        l1,
                        root,
                        offset,
                        user,
                        next,
                        size,
                        desc + 20,
                    ),
                }
            },
            _ => (l, Err(NtStatus(NtStatus::INVALID_IMAGE_FORMAT))),
        }
    }
}

/// Find what one import entry binds to.
fn resolve_thunk(
    img: &Vec<u8>,
    thunk: u64,
    user: bool,
    modules: &mut LoadedModules,
    mmu: &mut Mmu,
) -> (r: Result<u64, NtStatus>)
    requires
        modules_wf(old(modules)@),
        old(mmu).phys.wf(),
        old(mmu).windowed(),
    ensures
        modules_wf(final(modules)@),
        final(mmu).phys.wf(),
        final(mmu).windowed(),
        final(mmu).same_registers(old(mmu)),
        keeps_frames(old(mmu).phys@, final(mmu).phys@),
        (Link { phys: final(mmu).phys@, mods: final(modules)@ }, r) == import_target(
            Link { phys: old(mmu).phys@, mods: old(modules)@ },
            old(mmu).root(),
            old(mmu).window.offset,
            user,
            img@,
            thunk,
        ),
{
    if thunk >= IMAGE_ORDINAL_FLAG64 {
        return match loaded::ordinal_stub(modules) {
            Some(a) => Ok(a),
            None => Err(NtStatus(NtStatus::PROCEDURE_NOT_FOUND)),
        };
    }
    let name = match read_cstr(img.as_slice(), thunk + 2) {
        Some(n) => n,
        None => {
            return Err(bad());
        },
    };
    let found: Option<u64> = if user {
        loaded::resolve(modules, name)
    } else {
        exports::resolve(&modules.kernel_exports, name)
    };
    match found {
        Some(a) => {
            return Ok(a);
        },
        None => {},
    }
    match loaded::unresolved_stub(modules, mmu) {
        Some(a) => Ok(a),
        None => Err(NtStatus(NtStatus::PROCEDURE_NOT_FOUND)),
    }
}

/// Bind the imports of one library.
fn bind_library(
    img: Vec<u8>,
    names: u32,
    iat: u32,
    user: bool,
    modules: &mut LoadedModules,
    mmu: &mut Mmu,
) -> (r: Result<Vec<u8>, NtStatus>)
    requires
        modules_wf(old(modules)@),
        old(mmu).phys.wf(),
        old(mmu).windowed(),
        img@.len() <= 0xFFFF_FFFF,
    ensures
        modules_wf(final(modules)@),
        final(mmu).phys.wf(),
        final(mmu).windowed(),
        final(mmu).same_registers(old(mmu)),
        keeps_frames(old(mmu).phys@, final(mmu).phys@),
        r matches Ok(out) ==> out@.len() == img@.len(),
        ({
            let (l, b) = bound_thunks(
                Link { phys: old(mmu).phys@, mods: old(modules)@ },
                old(mmu).root(),
                old(mmu).window.offset,
                user,
                img@,
                img@.len() as int,
                names as int,
                iat as int,
                0,
            );
            &&& l == Link { phys: final(mmu).phys@, mods: final(modules)@ }
            &&& match b {
                Ok(s) => r is Ok && r->Ok_0@ == s,
                Err(e) => r == Err::<Vec<u8>, NtStatus>(e),
            }
        }),
{
    let ghost first = img@;
    let ghost l0 = Link { phys: mmu.phys@, mods: modules@ };
    let ghost root = mmu.root();
    let ghost offset = mmu.window.offset;
    let size: u64 = img.len() as u64;
    let mut out: Vec<u8> = img;
    let mut i: u64 = 0;
    while i * 8 + 8 <= size
        invariant
            size == first.len(),
            first == img@,
            size <= 0xFFFF_FFFF,
            out@.len() == size,
            i * 8 <= size,
            modules_wf(modules@),
            mmu.phys.wf(),
            mmu.windowed(),
            mmu.same_registers(old(mmu)),
            keeps_frames(old(mmu).phys@, mmu.phys@),
            root == old(mmu).root(),
            offset == old(mmu).window.offset,
            l0 == (Link { phys: old(mmu).phys@, mods: old(modules)@ }),
            bound_thunks(
                l0,
                root,
                offset,
                user,
                first,
                size as int,
                names as int,
                iat as int,
                0,
            ) == bound_thunks(
                Link { phys: mmu.phys@, mods: modules@ },
                root,
                offset,
                user,
                out@,
                size as int,
                names as int,
                iat as int,
                i as int,
            ),
        decreases size - i * 8,
    {
        let thunk: u64 = match u64le(out.as_slice(), names as u64 + i * 8) {
            Some(t) => t,
            None => {
                return Err(bad());
            },
        };
        if thunk == 0 {
            return Ok(out);
        }
        let addr: u64 = match resolve_thunk(&out, thunk, user, modules, mmu) {
            Ok(a) => a,
            Err(e) => {
                return Err(e);
            },
        };
        let slot: u64 = iat as u64 + i * 8;
        if slot + 8 > size {
            return Err(bad());
        }
        put64(&mut out, slot as usize, addr);
        i = i + 1;
    }
    Err(bad())
}

/// Walk the import directory and bind every import of an image.
pub fn resolve_imports(
    img: Vec<u8>,
    import_rva: u32,
    user: bool,
    modules: &mut LoadedModules,
    mmu: &mut Mmu,
) -> (r: Result<Vec<u8>, NtStatus>)
    requires
        modules_wf(old(modules)@),
        old(mmu).phys.wf(),
        old(mmu).windowed(),
        img@.len() <= 0xFFFF_FFFF,
    ensures
        modules_wf(final(modules)@),
        final(mmu).phys.wf(),
        final(mmu).windowed(),
        final(mmu).same_registers(old(mmu)),
        keeps_frames(old(mmu).phys@, final(mmu).phys@),
        r matches Ok(out) ==> out@.len() == img@.len(),
        ({
            let (l, b) = bound_imports(
                Link { phys: old(mmu).phys@, mods: old(modules)@ },
                old(mmu).root(),
                old(mmu).window.offset,
                user,
                img@,
                img@.len() as int,
                import_rva as int,
            );
            &&& l == Link { phys: final(mmu).phys@, mods: final(modules)@ }
            &&& match b {
                Ok(s) => r is Ok && r->Ok_0@ == s,
                Err(e) => r == Err::<Vec<u8>, NtStatus>(e),
            }
        }),
{
    let ghost first = img@;
    let ghost l0 = Link { phys: mmu.phys@, mods: modules@ };
    let ghost root = mmu.root();
    let ghost offset = mmu.window.offset;
    let size: u64 = img.len() as u64;
    let mut out: Vec<u8> = img;
    let mut desc: u64 = import_rva as u64;
    while desc + 20 <= size
        invariant
            size == first.len(),
            first == img@,
            size <= 0xFFFF_FFFF,
            out@.len() == size,
            desc <= 0x1_0000_0000,
            modules_wf(modules@),
            mmu.phys.wf(),
            mmu.windowed(),
            mmu.same_registers(old(mmu)),
            keeps_frames(old(mmu).phys@, mmu.phys@),
            root == old(mmu).root(),
            offset == old(mmu).window.offset,
            l0 == (Link { phys: old(mmu).phys@, mods: old(modules)@ }),
            bound_imports(l0, root, offset, user, first, size as int, import_rva as int)
                == bound_imports(
                Link { phys: mmu.phys@, mods: modules@ },
                root,
                offset,
                user,
                out@,
                size as int,
                desc as int,
            ),
        decreases size + 20 - desc,
    {
        let oft: u32 = match u32le(out.as_slice(), desc) {
            Some(v) => v,
            None => {
                return Err(bad());
            },
        };
        let name_rva: u32 = match u32le(out.as_slice(), desc + 12) {
            Some(v) => v,
            None => {
                return Err(bad());
            },
        };
        let iat: u32 = match u32le(out.as_slice(), desc + 16) {
            Some(v) => v,
            None => {
                return Err(bad());
            },
        };
        if name_rva == 0 && iat == 0 && oft == 0 {
            return Ok(out);
        }
        let names: u32 = if oft != 0 {
            oft
        } else {
            iat
        };
        out = match bind_library(out, names, iat, user, modules, mmu) {
            Ok(v) => v,
            Err(e) => {
                return Err(e);
            },
        };
        desc = desc + 20;
    }
    Err(bad())
}

/// Binding goes up the address table: entries before the one it starts at keep
/// their bytes, and so does everything below the table.
proof fn lemma_below_is_kept(
    l: Link,
    root: u64,
    offset: u64,
    user: bool,
    img: Seq<u8>,
    size: int,
    names: int,
    iat: int,
    i: int,
)
    requires
        bound_thunks(l, root, offset, user, img, size, names, iat, i).1 is Ok,
    ensures
        ({
            let done = bound_thunks(l, root, offset, user, img, size, names, iat, i).1->Ok_0;
            &&& done.len() == img.len()
            &&& forall|k: int| 0 <= k < iat + i * 8 && k < img.len() ==> #[trigger] done[k] == img[k]
        }),
    decreases size - i * 8,
{
    let thunk = read64(img, names + i * 8)->Some_0;
    if thunk != 0 {
        let (l1, r) = import_target(l, root, offset, user, img, thunk);
        let next = overlay(img, iat + i * 8, bytes64(r->Ok_0));
        lemma_below_is_kept(l1, root, offset, user, next, size, names, iat, i + 1);
        let done = bound_thunks(l1, root, offset, user, next, size, names, iat, i + 1).1->Ok_0;
        assert forall|k: int| 0 <= k < iat + i * 8 && k < img.len() implies #[trigger] done[k]
            == img[k] by {
            assert(done[k] == next[k]);
        }
    }
}

/// Binding that succeeds resolves the import it starts at, leaves the resolved address in
/// its entry of the address table, and goes on with the next: no later import of the
/// library overwrites it.
pub proof fn a_bound_import_holds_its_target(
    l: Link,
    root: u64,
    offset: u64,
    user: bool,
    img: Seq<u8>,
    size: int,
    names: int,
    iat: int,
    i: int,
)
    requires
        bound_thunks(l, root, offset, user, img, size, names, iat, i).1 is Ok,
        read64(img, names + i * 8) != Some(0u64),
    ensures
        ({
            let thunk = read64(img, names + i * 8)->Some_0;
            let (l1, target) = import_target(l, root, offset, user, img, thunk);
            let done = bound_thunks(l, root, offset, user, img, size, names, iat, i);
            &&& target is Ok
            &&& read64(done.1->Ok_0, iat + i * 8) == Some(target->Ok_0)
            &&& done == bound_thunks(
                l1,
                root,
                offset,
                user,
                overlay(img, iat + i * 8, bytes64(target->Ok_0)),
                size,
                names,
                iat,
                i + 1,
            )
        }),
{
    let thunk = read64(img, names + i * 8)->Some_0;
    let (l1, target) = import_target(l, root, offset, user, img, thunk);
    let addr = target->Ok_0;
    let at = iat + i * 8;
    let next = overlay(img, at, bytes64(addr));
    lemma_below_is_kept(l1, root, offset, user, next, size, names, iat, i + 1);
    let done = bound_thunks(l1, root, offset, user, next, size, names, iat, i + 1).1->Ok_0;
    lemma_bytes64(addr);
    assert forall|k: int| 0 <= k < 8 implies done[at + k] == #[trigger] bytes64(addr)[k] by {
        assert(done[at + k] == next[at + k]);
    }
    lemma_get64_in(done, at, bytes64(addr));
}

/// An import by name is bound to what the name resolves to: the name stands two bytes
/// behind the address that the thunk holds. Nothing else changes.
pub proof fn an_import_is_bound_by_its_name(
    l: Link,
    root: u64,
    offset: u64,
    user: bool,
    img: Seq<u8>,
    at: u64,
    name: Seq<u8>,
    address: u64,
)
    requires
        at < 0x8000_0000_0000_0000,
        name_at(img, at + 2) == Some(name),
        user ==> user_import(l.mods, name) == Some(address),
        !user ==> exports::address_of(l.mods.kernel_exports, name) == Some(address),
    ensures
        import_target(l, root, offset, user, img, at) == (l, Ok::<u64, NtStatus>(address)),
{
}

/// An import by ordinal, which the top bit of a thunk tells, is bound to the ordinal stub,
/// whatever the number.
pub proof fn an_import_by_ordinal_gets_the_stub(
    l: Link,
    root: u64,
    offset: u64,
    user: bool,
    img: Seq<u8>,
    a: u64,
    b: u64,
)
    requires
        a >= 0x8000_0000_0000_0000,
        b >= 0x8000_0000_0000_0000,
    ensures
        import_target(l, root, offset, user, img, a) == import_target(
            l,
            root,
            offset,
            user,
            img,
            b,
        ),
        import_target(l, root, offset, user, img, a).0 == l,
        ordinal_target(l.mods) matches Some(stub) ==> import_target(
            l,
            root,
            offset,
            user,
            img,
            a,
        ).1 == Ok::<u64, NtStatus>(stub),
        ordinal_target(l.mods) is None ==> import_target(l, root, offset, user, img, a).1 == Err::<
            u64,
            NtStatus,
        >(NtStatus(0xC000_007A)),
{
}

/// A zero thunk ends the list of a library: nothing is bound from there on.
pub proof fn a_zero_thunk_ends_the_list(
    l: Link,
    root: u64,
    offset: u64,
    user: bool,
    img: Seq<u8>,
    names: int,
    iat: int,
    i: int,
)
    requires
        0 <= i,
        0 <= names,
        i * 8 + 8 <= img.len(),
        in_bounds(img, names + i * 8, 8),
        get64(img, names + i * 8) == 0,
    ensures
        bound_thunks(l, root, offset, user, img, img.len() as int, names, iat, i) == (
            l,
            Ok::<Seq<u8>, NtStatus>(img),
        ),
{
}

/// Import descriptors are twenty bytes each, and one of zeros ends them. A library's names
/// are those of its first table, or of its address table when it has no first; the
/// addresses go to the address table, which the last word names.
pub proof fn import_descriptors_follow_each_other(
    l: Link,
    root: u64,
    offset: u64,
    user: bool,
    img: Seq<u8>,
    desc: int,
    first: u32,
    name: u32,
    iat: u32,
)
    requires
        0 <= desc,
        desc + 20 <= img.len(),
        get32(img, desc) == first,
        get32(img, desc + 12) == name,
        get32(img, desc + 16) == iat,
    ensures
        first == 0 && name == 0 && iat == 0 ==> bound_imports(
            l,
            root,
            offset,
            user,
            img,
            img.len() as int,
            desc,
        ) == (l, Ok::<Seq<u8>, NtStatus>(img)),
        first != 0 || name != 0 || iat != 0 ==> {
            let size = img.len() as int;
            let names = if first == 0 {
                iat as int
            } else {
                first as int
            };
            let (l1, one) = bound_thunks(
                l,
                root,
                offset,
                user,
                img,
                size,
                names,
                iat as int,
                0,
            );
            let all = bound_imports(l, root, offset, user, img, size, desc);
            &&& one is Ok ==> all == bound_imports(
                l1,
                root,
                offset,
                user,
                one->Ok_0,
                size,
                desc + 20,
            )
            &&& one is Err ==> all == (l1, one)
        },
{
}

/// A name that nothing exports is bound to a stub of its own: the library and its next
/// missing name get different ones.
pub proof fn missing_imports_get_stubs_of_their_own(
    l: Link,
    root: u64,
    offset: u64,
    user: bool,
    img: Seq<u8>,
    a: u64,
    b: u64,
)
    requires
        a < 0x8000_0000_0000_0000,
        b < 0x8000_0000_0000_0000,
        name_at(img, a + 2) is Some,
        name_at(img, b + 2) is Some,
        lookup(l.mods, user, name_at(img, a + 2)->Some_0) is None,
        lookup(l.mods, user, name_at(img, b + 2)->Some_0) is None,
        l.mods.page != 0,
        l.mods.count < 255,
        l.mods.page <= u64::MAX - 4096,
    ensures
        ({
            let (l1, r1) = import_target(l, root, offset, user, img, a);
            let (l2, r2) = import_target(l1, root, offset, user, img, b);
            &&& r1 == Ok::<u64, NtStatus>((l.mods.page + 16 * l.mods.count) as u64)
            &&& r2 == Ok::<u64, NtStatus>((l.mods.page + 16 * l.mods.count + 16) as u64)
            &&& l2.mods.count == l.mods.count + 2
            &&& l2.phys == l.phys
        }),
{
    let l1 = import_target(l, root, offset, user, img, a).0;
    let n = name_at(img, b + 2)->Some_0;
    assert(lookup(l1.mods, user, n) == lookup(l.mods, user, n));
}

} // verus!
