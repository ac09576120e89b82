//! Loaded user-mode modules and the lookups against them.
//!
//! A program's imports resolve against the `ntdll` stubs and the exports of the
//! loaded support modules, in that order: `kernel32`, `msvcrt`, `ulib`. An
//! import that none of them has gets a return-0 stub of its own.
use crate::bytes::{overlay, put_bytes};
use crate::ldr::exports;
use crate::ldr::ntdll::{self, stub_address, Trampoline};
use crate::ldr::pe::{export_rva, resolve_export};
use crate::mm::phys::{alloc_page, keeps_frames, mm_allocate_page, mm_write_physical, PhysState};
use crate::mm::virt::{mm_set_user_executable, protect_range, Mmu, ENTRY_USER};
use crate::mm::{phys_to_virt, PhysAddr};
use vstd::prelude::*;
use vstd::slice::slice_subrange;
use vstd::string::StringSliceAdditionalSpecFns;
use vstd::utf8::encode_utf8;

verus! {

/// Stubs for unresolved imports that fit one page.
pub const UNRESOLVED_MAX: u64 = 256;

pub const UNRESOLVED_STRIDE: u64 = 16;

/// A loaded module.
pub struct Module {
    /// Load address, 0 while it is not loaded.
    pub base: u64,
    /// The mapped image.
    pub image: Vec<u8>,
    /// Address of its entry point.
    pub entry: u64,
}

/// The abstract state of a module.
#[verifier::ext_equal]
pub struct ModuleState {
    pub base: u64,
    pub image: Seq<u8>,
    pub entry: u64,
}

impl View for Module {
    type V = ModuleState;

    open spec fn view(&self) -> ModuleState {
        ModuleState { base: self.base, image: self.image@, entry: self.entry }
    }
}

impl Module {
    /// Not loaded.
    pub fn absent() -> (m: Self)
        ensures
            m@ == (ModuleState { base: 0, image: Seq::empty(), entry: 0 }),
    {
        Module { base: 0, image: Vec::new(), entry: 0 }
    }
}

/// The support modules and the stub page.
pub struct LoadedModules {
    pub ntdll: Trampoline,
    /// Addresses of the kernel's exports, in their order.
    pub kernel_exports: Vec<u64>,
    pub kernel32: Module,
    pub msvcrt: Module,
    pub ulib: Module,
    /// The page of stubs for unresolved imports, 0 until the first is needed.
    pub unresolved_page: u64,
    pub unresolved_count: u64,
    /// Where user-mode exceptions are dispatched to, 0 for the terminate stub.
    pub exception_dispatcher: u64,
}

/// The abstract state of the modules.
#[verifier::ext_equal]
pub struct ModulesState {
    pub ntdll: u64,
    pub kernel_exports: Seq<u64>,
    pub kernel32: ModuleState,
    pub msvcrt: ModuleState,
    pub ulib: ModuleState,
    pub page: u64,
    pub count: u64,
    pub dispatcher: u64,
}

impl View for LoadedModules {
    type V = ModulesState;

    open spec fn view(&self) -> ModulesState {
        ModulesState {
            ntdll: self.ntdll.base,
            kernel_exports: self.kernel_exports@,
            kernel32: self.kernel32@,
            msvcrt: self.msvcrt@,
            ulib: self.ulib@,
            page: self.unresolved_page,
            count: self.unresolved_count,
            dispatcher: self.exception_dispatcher,
        }
    }
}

/// Everything stands below the top four gigabytes of the address space.
pub open spec fn modules_wf(ms: ModulesState) -> bool {
    let top = u64::MAX - 0xFFFF_FFFF;
    &&& ms.kernel_exports.len() == exports::EXPORT_COUNT
    &&& ms.ntdll <= top
    &&& ms.kernel32.base <= top
    &&& ms.msvcrt.base <= top
    &&& ms.ulib.base <= top
    &&& ms.page <= top
}

/// The address of an export of a loaded module.
pub open spec fn module_export(m: ModuleState, name: Seq<u8>) -> Option<u64> {
    if m.base == 0 {
        None
    } else {
        match export_rva(m.image, name) {
            Some(rva) => Some((m.base + rva) as u64),
            None => None,
        }
    }
}

/// The `_o_` indirection prefix.
pub open spec fn has_alias_prefix(name: Seq<u8>) -> bool {
    name.len() >= 3 && name[0] == 0x5F && name[1] == 0x6F && name[2] == 0x5F
}

/// A name without its indirection prefixes.
pub open spec fn real_name(name: Seq<u8>) -> Seq<u8>
    decreases name.len(),
{
    if has_alias_prefix(name) {
        real_name(name.skip(3))
    } else {
        name
    }
}

/// What a user-mode import resolves to.
pub open spec fn user_import(ms: ModulesState, name: Seq<u8>) -> Option<u64> {
    let n = real_name(name);
    match stub_address(ms.ntdll, n) {
        Some(a) => Some(a),
        None => match module_export(ms.kernel32, n) {
            Some(a) => Some(a),
            None => match module_export(ms.msvcrt, n) {
                Some(a) => Some(a),
                None => module_export(ms.ulib, n),
            },
        },
    }
}

/// The address that imports by ordinal bind to.
pub open spec fn ordinal_target(ms: ModulesState) -> Option<u64> {
    module_export(ms.kernel32, encode_utf8("__ordinal_stub"@))
}

/// A page of `n` return-0 stubs.
pub open spec fn return_zero_page(n: int) -> Seq<u8>
    decreases n,
{
    if n <= 0 {
        Seq::new(4096, |i: int| 0u8)
    } else {
        overlay(return_zero_page(n - 1), (n - 1) * 16, seq![0x31u8, 0xC0, 0xC3])
    }
}

/// Memory with a stub page in it, and the page's address.
pub open spec fn with_stub_page(st: PhysState, root: u64, offset: u64) -> (PhysState, Option<u64>) {
    match alloc_page(st) {
        (s1, Some(pa)) => {
            let va = (offset + pa) as u64;
            let s2 = PhysState {
                ram: overlay(s1.ram, pa as int, return_zero_page(UNRESOLVED_MAX as int)),
                ..s1
            };
            let (s3, ok) = protect_range(s2, root, (va / 0x1000) * 0x1000, va + 4096, ENTRY_USER);
            if ok {
                (s3, Some(va))
            } else {
                (s3, None)
            }
        },
        (s1, None) => (s1, None),
    }
}

/// The modules after one more stub has been handed out, and the stub's address:
/// the next one of the page, or the shared one when the page is used up.
pub open spec fn next_stub(ms: ModulesState) -> (ModulesState, Option<u64>) {
    let after = ModulesState {
        count: if ms.count < u64::MAX {
            (ms.count + 1) as u64
        } else {
            ms.count
        },
        ..ms
    };
    if ms.count >= UNRESOLVED_MAX {
        (after, ordinal_target(ms))
    } else {
        (after, Some((ms.page + ms.count * 16) as u64))
    }
}

/// Memory and modules after an unresolved import has been given a stub.
pub open spec fn assign_stub(st: PhysState, ms: ModulesState, root: u64, offset: u64) -> (
    PhysState,
    ModulesState,
    Option<u64>,
) {
    if ms.page == 0 {
        match with_stub_page(st, root, offset) {
            (s1, Some(va)) => {
                let (m1, r) = next_stub(ModulesState { page: va, ..ms });
                (s1, m1, r)
            },
            (s1, None) => (s1, ms, None),
        }
    } else {
        let (m1, r) = next_stub(ms);
        (st, m1, r)
    }
}

impl LoadedModules {
    /// Nothing loaded; the kernel's own exports stand at `kernel_exports`.
    pub fn new(kernel_exports: Vec<u64>) -> (ms: Self)
        requires
            kernel_exports@.len() == exports::EXPORT_COUNT,
        ensures
            modules_wf(ms@),
            ms@.ntdll == 0,
            ms@.kernel_exports == kernel_exports@,
            ms@.kernel32.base == 0,
            ms@.msvcrt.base == 0,
            ms@.ulib.base == 0,
            ms@.page == 0,
            ms@.count == 0,
            ms@.dispatcher == 0,
    {
        LoadedModules {
            ntdll: Trampoline::new(),
            kernel_exports,
            kernel32: Module::absent(),
            msvcrt: Module::absent(),
            ulib: Module::absent(),
            unresolved_page: 0,
            unresolved_count: 0,
            exception_dispatcher: 0,
        }
    }
}

/// Look an export up in a loaded module.
pub fn resolve_export_in(m: &Module, name: &[u8]) -> (r: Option<u64>)
    requires
        m@.base <= u64::MAX - 0xFFFF_FFFF,
    ensures
        r == module_export(m@, name@),
{
    if m.base == 0 {
        return None;
    }
    resolve_export(m.image.as_slice(), m.base, name)
}

/// Address of the generic import-by-ordinal fallback; `None` until `kernel32` is
/// loaded.
pub fn ordinal_stub(ms: &LoadedModules) -> (r: Option<u64>)
    requires
        modules_wf(ms@),
    ensures
        r == ordinal_target(ms@),
{
    resolve_export_in(&ms.kernel32, "__ordinal_stub".as_bytes())
}

fn build_return_zero() -> (page: Vec<u8>)
    ensures
        page@ == return_zero_page(UNRESOLVED_MAX as int),
        page@.len() == 4096,
{
    let mut page: Vec<u8> = vec![0u8; 4096];
    assert(page@ =~= return_zero_page(0));
    let code: [u8; 3] = [0x31, 0xC0, 0xC3];
    assert(code@ =~= seq![0x31u8, 0xC0, 0xC3]);
    let mut i: usize = 0;
    while i < 256
        invariant
            i <= 256,
            page@.len() == 4096,
            page@ == return_zero_page(i as int),
            code@ == seq![0x31u8, 0xC0, 0xC3],
        decreases 256 - i,
    {
        put_bytes(&mut page, i * 16, &code);
        i = i + 1;
    }
    page
}

/// Give an unresolved import a stub. `None` when memory is exhausted, and when
/// the page is used up and `kernel32` is not loaded.
pub fn unresolved_stub(ms: &mut LoadedModules, mmu: &mut Mmu) -> (r: Option<u64>)
    requires
        modules_wf(old(ms)@),
        old(mmu).phys.wf(),
        old(mmu).windowed(),
    ensures
        modules_wf(final(ms)@),
        final(mmu).phys.wf(),
        final(mmu).same_registers(old(mmu)),
        keeps_frames(old(mmu).phys@, final(mmu).phys@),
        (final(mmu).phys@, final(ms)@, r) == assign_stub(
            old(mmu).phys@,
            old(ms)@,
            old(mmu).root(),
            old(mmu).window.offset,
        ),
{
    let ram_len: usize = mmu.phys.ram.len();
    if ms.unresolved_page == 0 {
        let pa: PhysAddr = match mm_allocate_page(&mut mmu.phys) {
            Some(p) => p,
            None => {
                return None;
            },
        };
        let page: Vec<u8> = build_return_zero();
        assert(mmu.phys@.ram.len() == ram_len);
        let ram_now: usize = mmu.phys.ram.len();
        mm_write_physical(&mut mmu.phys, pa, page.as_slice());
        let va: u64 = phys_to_virt(&mmu.window, pa);
        if !mm_set_user_executable(mmu, va, 4096) {
            return None;
        }
        ms.unresolved_page = va;
    }
    let i: u64 = ms.unresolved_count;
    if i < u64::MAX {
        ms.unresolved_count = i + 1;
    }
    if i >= UNRESOLVED_MAX {
        return ordinal_stub(ms);
    }
    Some(ms.unresolved_page + i * UNRESOLVED_STRIDE)
}

/// Base and size of the page of unresolved-import stubs.
pub fn unresolved_range(ms: &LoadedModules) -> (r: (u64, usize))
    ensures
        r == (ms@.page, 4096usize),
{
    (ms.unresolved_page, 4096)
}

/// Resolve a user-mode import.
pub fn resolve(ms: &LoadedModules, name: &[u8]) -> (r: Option<u64>)
    requires
        modules_wf(ms@),
    ensures
        r == user_import(ms@, name@),
{
    let mut start: usize = 0;
    assert(name@.skip(0) =~= name@);
    while name.len() - start >= 3 && name[start] == 0x5F && name[start + 1] == 0x6F && name[start
        + 2] == 0x5F
        invariant
            start <= name@.len(),
            real_name(name@) == real_name(name@.skip(start as int)),
        decreases name@.len() - start,
    {
        assert(name@.skip(start as int).skip(3) =~= name@.skip(start + 3));
        start = start + 3;
    }
    let target = slice_subrange(name, start, name.len());
    proof {
        assert(target@ =~= name@.skip(start as int));
        assert(real_name(name@) == target@);
    }
    match ntdll::resolve_import(&ms.ntdll, target) {
        Some(a) => {
            return Some(a);
        },
        None => {},
    }
    match resolve_export_in(&ms.kernel32, target) {
        Some(a) => {
            return Some(a);
        },
        None => {},
    }
    match resolve_export_in(&ms.msvcrt, target) {
        Some(a) => {
            return Some(a);
        },
        None => {},
    }
    resolve_export_in(&ms.ulib, target)
}

// ---------------------------------------------------------------------------
// Module handles
// ---------------------------------------------------------------------------
/// ASCII lower case.
pub open spec fn lower_byte(c: u8) -> u8 {
    if 0x41 <= c <= 0x5A {
        (c + 0x20) as u8
    } else {
        c
    }
}

/// Equality of byte strings up to ASCII case.
pub open spec fn same_fold(a: Seq<u8>, b: Seq<u8>) -> bool {
    a.len() == b.len() && forall|i: int|
        0 <= i < a.len() ==> lower_byte(#[trigger] a[i]) == lower_byte(b[i])
}

/// The lower-case form of an ASCII letter; any other byte as it is.
pub fn to_lower(c: u8) -> (r: u8)
    ensures
        r == lower_byte(c),
{
    if 0x41 <= c && c <= 0x5A {
        c + 0x20
    } else {
        c
    }
}

/// Are two byte strings equal up to ASCII case?
pub fn eq_fold(a: &[u8], b: &[u8]) -> (r: bool)
    ensures
        r == same_fold(a@, b@),
{
    if a.len() != b.len() {
        return false;
    }
    let mut i: usize = 0;
    while i < a.len()
        invariant
            i <= a@.len(),
            a@.len() == b@.len(),
            forall|k: int| 0 <= k < i ==> lower_byte(#[trigger] a@[k]) == lower_byte(b@[k]),
        decreases a@.len() - i,
    {
        if to_lower(a[i]) != to_lower(b[i]) {
            assert(lower_byte(a@[i as int]) != lower_byte(b@[i as int]));
            return false;
        }
        i = i + 1;
    }
    true
}

/// A module query without its optional `.dll`.
pub open spec fn stem(query: Seq<u8>) -> Seq<u8> {
    if query.len() >= 4 && same_fold(query.skip(query.len() - 4), encode_utf8(".dll"@)) {
        query.take(query.len() - 4)
    } else {
        query
    }
}

/// A query names a module: equal up to case, with or without `.dll`.
pub open spec fn names_module(query: Seq<u8>, name: Seq<char>) -> bool {
    same_fold(stem(query), encode_utf8(name))
}

fn module_name_matches(query: &[u8], name: &str) -> (r: bool)
    ensures
        r == names_module(query@, name@),
{
    let n: usize = query.len();
    if n >= 4 {
        let tail = slice_subrange(query, n - 4, n);
        assert(tail@ =~= query@.skip(n - 4));
        if eq_fold(tail, ".dll".as_bytes()) {
            let head = slice_subrange(query, 0, n - 4);
            assert(head@ =~= query@.take(n - 4));
            return eq_fold(head, name.as_bytes());
        }
    }
    eq_fold(query, name.as_bytes())
}

/// The base of a module by name.
pub open spec fn base_by_name(ms: ModulesState, query: Seq<u8>) -> u64 {
    if query.len() == 0 {
        0
    } else if names_module(query, "kernel32"@) {
        ms.kernel32.base
    } else if names_module(query, "ntdll"@) {
        ms.ntdll
    } else if names_module(query, "msvcrt"@) {
        ms.msvcrt.base
    } else if names_module(query, "ulib"@) {
        ms.ulib.base
    } else {
        0
    }
}

/// `GetModuleHandleA`: the base of a loaded module, 0 when it is unknown.
pub fn module_base(ms: &LoadedModules, name: &[u8]) -> (r: u64)
    ensures
        r == base_by_name(ms@, name@),
{
    if name.len() == 0 {
        return 0;
    }
    if module_name_matches(name, "kernel32") {
        return ms.kernel32.base;
    }
    if module_name_matches(name, "ntdll") {
        return ms.ntdll.base;
    }
    if module_name_matches(name, "msvcrt") {
        return ms.msvcrt.base;
    }
    if module_name_matches(name, "ulib") {
        return ms.ulib.base;
    }
    0
}

/// The address of a routine in the module at `base`; 0 when either is unknown.
pub open spec fn routine_in(ms: ModulesState, base: u64, name: Seq<u8>) -> u64 {
    let found = if base == 0 {
        None
    } else if base == ms.kernel32.base {
        module_export(ms.kernel32, name)
    } else if base == ms.msvcrt.base {
        module_export(ms.msvcrt, name)
    } else if base == ms.ulib.base {
        module_export(ms.ulib, name)
    } else if base == ms.ntdll {
        stub_address(ms.ntdll, name)
    } else {
        None
    };
    match found {
        Some(a) => a,
        None => 0,
    }
}

/// `GetProcAddress`: resolve a name within one module.
pub fn proc_address(ms: &LoadedModules, module_base: u64, name: &[u8]) -> (r: u64)
    requires
        modules_wf(ms@),
    ensures
        r == routine_in(ms@, module_base, name@),
{
    if module_base == 0 {
        return 0;
    }
    let found: Option<u64> = if module_base == ms.kernel32.base {
        resolve_export_in(&ms.kernel32, name)
    } else if module_base == ms.msvcrt.base {
        resolve_export_in(&ms.msvcrt, name)
    } else if module_base == ms.ulib.base {
        resolve_export_in(&ms.ulib, name)
    } else if module_base == ms.ntdll.base {
        ntdll::resolve_import(&ms.ntdll, name)
    } else {
        None
    };
    match found {
        Some(a) => a,
        None => 0,
    }
}

/// Base and size of `ulib`.
pub fn ulib_range(ms: &LoadedModules) -> (r: (u64, usize))
    ensures
        r.0 == ms@.ulib.base,
        r.1 == ms@.ulib.image.len(),
{
    (ms.ulib.base, ms.ulib.image.len())
}

/// Base and entry point of `ulib`; zero while it is not loaded.
pub fn ulib_base_and_entry(ms: &LoadedModules) -> (r: (u64, u64))
    ensures
        r == (ms@.ulib.base, ms@.ulib.entry),
{
    (ms.ulib.base, ms.ulib.entry)
}

/// Base and size of `kernel32`.
pub fn kernel32_range(ms: &LoadedModules) -> (r: (u64, usize))
    ensures
        r.0 == ms@.kernel32.base,
        r.1 == ms@.kernel32.image.len(),
{
    (ms.kernel32.base, ms.kernel32.image.len())
}

/// Base and size of `msvcrt`.
pub fn msvcrt_range(ms: &LoadedModules) -> (r: (u64, usize))
    ensures
        r.0 == ms@.msvcrt.base,
        r.1 == ms@.msvcrt.image.len(),
{
    (ms.msvcrt.base, ms.msvcrt.image.len())
}

// ---------------------------------------------------------------------------
// Laws
// ---------------------------------------------------------------------------
/// An indirection alias resolves to what its target resolves to.
pub proof fn alias_resolves_as_its_target(ms: ModulesState, name: Seq<u8>)
    requires
        has_alias_prefix(name),
    ensures
        user_import(ms, name) == user_import(ms, name.skip(3)),
{
}

/// Two unresolved imports get different stubs while the page lasts.
pub proof fn successive_stubs_differ(ms: ModulesState)
    requires
        modules_wf(ms),
        ms.page != 0,
        ms.count + 1 < UNRESOLVED_MAX,
    ensures
        ({
            let (m1, a) = next_stub(ms);
            let (m2, b) = next_stub(m1);
            a is Some && b is Some && a != b
        }),
{
}

/// A name found through a module's handle is the one that its importers get,
/// unless an earlier module shadows it.
pub proof fn handle_lookup_agrees_with_binding(ms: ModulesState, name: Seq<u8>)
    requires
        ms.kernel32.base != 0,
        !has_alias_prefix(name),
        stub_address(ms.ntdll, name) is None,
        module_export(ms.kernel32, name) is Some,
    ensures
        user_import(ms, name) == Some(routine_in(ms, ms.kernel32.base, name)),
{
}

/// Where several modules export a name, a program gets the system-call stub before the
/// routine of kernel32, that before the one of msvcrt, and that before the one of ulib.
pub proof fn names_are_looked_up_in_order(ms: ModulesState, name: Seq<u8>)
    requires
        !(name.len() >= 3 && name[0] == 0x5F && name[1] == 0x6F && name[2] == 0x5F),
    ensures
        stub_address(ms.ntdll, name) is Some ==> user_import(ms, name) == stub_address(
            ms.ntdll,
            name,
        ),
        stub_address(ms.ntdll, name) is None && module_export(ms.kernel32, name) is Some
            ==> user_import(ms, name) == module_export(ms.kernel32, name),
        stub_address(ms.ntdll, name) is None && module_export(ms.kernel32, name) is None
            && module_export(ms.msvcrt, name) is Some ==> user_import(ms, name) == module_export(
            ms.msvcrt,
            name,
        ),
        stub_address(ms.ntdll, name) is None && module_export(ms.kernel32, name) is None
            && module_export(ms.msvcrt, name) is None ==> user_import(ms, name) == module_export(
            ms.ulib,
            name,
        ),
{
}

/// The prefix `_o_`, however often it stands there, is not part of a name.
pub proof fn the_alias_prefix_is_dropped(ms: ModulesState, name: Seq<u8>)
    ensures
        user_import(ms, seq![0x5Fu8, 0x6F, 0x5F] + name) == user_import(ms, name),
{
    let n = seq![0x5Fu8, 0x6F, 0x5F] + name;
    assert(n[0] == 0x5F && n[1] == 0x6F && n[2] == 0x5F);
    assert(n.skip(3) =~= name);
    alias_resolves_as_its_target(ms, n);
}

/// A module's routine stands at its address in the image, counted from the module's base; a
/// module that is not loaded has none.
pub proof fn a_routine_is_counted_from_its_module(m: ModuleState, name: Seq<u8>)
    requires
        m.base <= u64::MAX - 0xFFFF_FFFF,
    ensures
        m.base == 0 ==> module_export(m, name) is None,
        m.base != 0 ==> (module_export(m, name) is Some <==> export_rva(m.image, name) is Some),
        module_export(m, name) matches Some(a) ==> a - m.base == export_rva(m.image, name)->Some_0,
{
}

proof fn lemma_zero_page_len(n: int)
    ensures
        return_zero_page(n).len() == 4096,
    decreases n,
{
    if n > 0 {
        lemma_zero_page_len(n - 1);
    }
}

/// Every stub of the page for missing routines returns zero: `xor eax, eax; ret`.
pub proof fn every_stub_returns_zero(n: int, k: int)
    requires
        0 <= k < n <= 256,
    ensures
        ({
            let page = return_zero_page(n);
            &&& page.len() == 4096
            &&& page[16 * k] == 0x31
            &&& page[16 * k + 1] == 0xC0
            &&& page[16 * k + 2] == 0xC3
        }),
    decreases n,
{
    lemma_zero_page_len(n);
    lemma_zero_page_len(n - 1);
    if k < n - 1 {
        every_stub_returns_zero(n - 1, k);
    }
}

/// Stubs are sixteen bytes apart, 256 of them; after that missing names share the ordinal
/// stub.
pub proof fn stubs_are_handed_out_one_by_one(ms: ModulesState)
    requires
        ms.page <= u64::MAX - 4096,
        ms.count < u64::MAX,
    ensures
        next_stub(ms).0.count == ms.count + 1,
        ms.count < 256 ==> next_stub(ms).1 == Some((ms.page + 16 * ms.count) as u64),
        ms.count >= 256 ==> next_stub(ms).1 == ordinal_target(ms),
{
}

/// Letters match whatever their case, nothing else does but itself.
pub proof fn folding_ignores_the_case_of_letters(a: u8, b: u8)
    ensures
        lower_byte(a) == lower_byte(b) <==> (a == b || (0x41 <= a <= 0x5A && b == a + 0x20) || (
        0x41 <= b <= 0x5A && a == b + 0x20)),
{
}

/// A module is found by its name whatever the case.
pub proof fn a_module_name_ignores_case(ms: ModulesState, a: Seq<u8>, b: Seq<u8>)
    requires
        a.len() == b.len(),
        forall|i: int| 0 <= i < a.len() ==> lower_byte(#[trigger] a[i]) == lower_byte(b[i]),
    ensures
        base_by_name(ms, a) == base_by_name(ms, b),
{
    let n = a.len() as int;
    let dll = encode_utf8(".dll"@);
    if n >= 4 {
        assert forall|x: Seq<u8>, y: Seq<u8>, z: Seq<u8>|
            #![trigger same_fold(x, z), same_fold(y, z)]
            same_fold(x, y) implies same_fold(x, z) == same_fold(y, z) by {
            lemma_fold_chain(x, y, z);
            lemma_fold_chain(y, x, z);
        }
        assert(same_fold(a.skip(n - 4), b.skip(n - 4))) by {
            assert forall|i: int| 0 <= i < 4 implies lower_byte(#[trigger] a.skip(n - 4)[i])
                == lower_byte(b.skip(n - 4)[i]) by {
                assert(lower_byte(a[n - 4 + i]) == lower_byte(b[n - 4 + i]));
            }
        }
        assert(same_fold(a.skip(n - 4), dll) == same_fold(b.skip(n - 4), dll));
    }
    assert(same_fold(stem(a), stem(b))) by {
        assert forall|i: int| 0 <= i < stem(a).len() implies lower_byte(#[trigger] stem(a)[i])
            == lower_byte(stem(b)[i]) by {
            assert(lower_byte(a[i]) == lower_byte(b[i]));
        }
    }
    lemma_names_alike(a, b, "kernel32"@);
    lemma_names_alike(a, b, "ntdll"@);
    lemma_names_alike(a, b, "msvcrt"@);
    lemma_names_alike(a, b, "ulib"@);
}

proof fn lemma_fold_chain(x: Seq<u8>, y: Seq<u8>, z: Seq<u8>)
    requires
        same_fold(x, y),
    ensures
        same_fold(y, x),
        same_fold(y, z) ==> same_fold(x, z),
{
    assert forall|i: int| 0 <= i < y.len() implies lower_byte(#[trigger] y[i]) == lower_byte(
        x[i],
    ) by {
        assert(lower_byte(x[i]) == lower_byte(y[i]));
    }
    if same_fold(y, z) {
        assert forall|i: int| 0 <= i < x.len() implies lower_byte(#[trigger] x[i]) == lower_byte(
            z[i],
        ) by {
            assert(lower_byte(y[i]) == lower_byte(z[i]));
        }
    }
}

proof fn lemma_names_alike(a: Seq<u8>, b: Seq<u8>, name: Seq<char>)
    requires
        same_fold(stem(a), stem(b)),
    ensures
        names_module(a, name) == names_module(b, name),
{
    lemma_fold_chain(stem(a), stem(b), encode_utf8(name));
    lemma_fold_chain(stem(b), stem(a), encode_utf8(name));
}

/// A module is found with and without `.dll` behind its name.
pub proof fn the_extension_of_a_module_is_optional(ms: ModulesState, name: Seq<u8>)
    requires
        name.len() > 0,
        !(name.len() >= 4 && same_fold(name.skip(name.len() - 4), encode_utf8(".dll"@))),
    ensures
        base_by_name(ms, name + encode_utf8(".dll"@)) == base_by_name(ms, name),
{
    let dll = encode_utf8(".dll"@);
    reveal_strlit(".dll");
    vstd::utf8::is_ascii_chars_encode_utf8(".dll"@);
    let q = name + dll;
    assert(q.skip(q.len() - 4) =~= dll);
    assert(same_fold(dll, dll));
    assert(q.take(q.len() - 4) =~= name);
}

/// A routine is looked for in the module whose base is given, and nowhere else; base 0 and
/// a base that is no module's have none.
pub proof fn a_handle_names_one_module(ms: ModulesState, base: u64, name: Seq<u8>)
    ensures
        base == 0 ==> routine_in(ms, base, name) == 0,
        base != 0 && base == ms.kernel32.base ==> routine_in(ms, base, name) == match module_export(
            ms.kernel32,
            name,
        ) {
            Some(a) => a,
            None => 0,
        },
        base != 0 && base != ms.kernel32.base && base == ms.msvcrt.base ==> routine_in(
            ms,
            base,
            name,
        ) == match module_export(ms.msvcrt, name) {
            Some(a) => a,
            None => 0,
        },
        base != ms.kernel32.base && base != ms.msvcrt.base && base != ms.ulib.base && base
            != ms.ntdll ==> routine_in(ms, base, name) == 0,
{
}

/// The stubs for missing imports stand in a page of their own, at its place in the window, and
/// programs may use it.
pub proof fn missing_imports_get_a_page_of_their_own(st: PhysState, root: u64, offset: u64)
    ensures
        ({
            let (s, base) = with_stub_page(st, root, offset);
            let (s1, pa) = alloc_page(st);
            &&& pa is None ==> base is None && s == s1
            &&& base matches Some(va) ==> pa is Some && va == (offset + pa->0) as u64
            &&& pa is Some ==> s == protect_range(
                PhysState {
                    ram: overlay(
                        s1.ram,
                        pa->0 as int,
                        return_zero_page(UNRESOLVED_MAX as int),
                    ),
                    ..s1
                },
                root,
                ((((offset + pa->0) as u64) / 0x1000) * 0x1000) as int,
                ((offset + pa->0) as u64) + 4096,
                0x4,
            ).0
        }),
{
}

} // verus!
