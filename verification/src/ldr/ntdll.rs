//! The user-mode `ntdll` stubs: the ring-3 system-call trampoline.
//!
//! A program does not issue `syscall` itself: it calls a thin stub that loads
//! the service number and executes it. The stubs live in one user-accessible,
//! executable page, one per service number:
//!
//! ```text
//!   mov r10, rcx
//!   mov eax, <service>
//!   syscall
//!   ret
//! ```
use crate::bytes::{
    bytes32, get32, lemma_bytes32, lemma_get32_in, overlay, put32, put_bytes,
};
use crate::mm::phys::{alloc_page, mm_allocate_page, mm_write_physical, PhysState};
use crate::mm::virt::{mm_set_user_executable, protect_range, Mmu, ENTRY_USER};
use crate::mm::{phys_to_virt, PhysAddr};
use vstd::prelude::*;
use vstd::string::StringSliceAdditionalSpecFns;
use vstd::utf8::encode_utf8;

verus! {

/// Bytes per stub slot: the 11-byte thunk, padded.
pub const STUB_STRIDE: u64 = 16;

/// Number of exported names.
pub const EXPORT_COUNT: usize = 8;

/// Number of stubs: one per service number up to the highest exported one.
pub const STUB_COUNT: usize = 9;

/// The trampoline page.
pub struct Trampoline {
    /// Virtual base of the page, 0 until it is built.
    pub base: u64,
}

/// Exported name `i`.
pub open spec fn export_name(i: int) -> Seq<char> {
    if i == 0 {
        "NtTerminateThread"@
    } else if i == 1 {
        "NtWriteFile"@
    } else if i == 2 {
        "NtCreateFile"@
    } else if i == 3 {
        "NtClose"@
    } else if i == 4 {
        "NtReadFile"@
    } else if i == 5 {
        "NtAllocateVirtualMemory"@
    } else if i == 6 {
        "NtFreeVirtualMemory"@
    } else {
        "NtProtectVirtualMemory"@
    }
}

/// The service that exported name `i` calls.
pub open spec fn export_service(i: int) -> int {
    if i == 0 {
        0
    } else {
        i + 1
    }
}

/// The index of an exported name, from `i` on.
pub open spec fn export_index(name: Seq<u8>, i: int) -> Option<int>
    decreases EXPORT_COUNT - i,
{
    if i >= EXPORT_COUNT {
        None
    } else if encode_utf8(export_name(i)) == name {
        Some(i)
    } else {
        export_index(name, i + 1)
    }
}

/// The stub address of a name, for a trampoline at `base`.
pub open spec fn stub_address(base: u64, name: Seq<u8>) -> Option<u64> {
    if base == 0 {
        None
    } else {
        match export_index(name, 0) {
            Some(i) => Some((base + export_service(i) * 16) as u64),
            None => None,
        }
    }
}

/// The code of the stub for a service.
pub open spec fn stub(service: u32) -> Seq<u8> {
    seq![0x49u8, 0x89, 0xCA, 0xB8] + bytes32(service) + seq![0x0Fu8, 0x05, 0xC3]
}

/// A page with the stubs of the services below `n`, and zero elsewhere.
pub open spec fn stubs_page(n: int) -> Seq<u8>
    decreases n,
{
    if n <= 0 {
        Seq::new(4096, |i: int| 0u8)
    } else {
        overlay(stubs_page(n - 1), (n - 1) * 16, stub((n - 1) as u32))
    }
}

fn name_of(i: usize) -> (s: &'static str)
    requires
        i < EXPORT_COUNT,
    ensures
        s@ == export_name(i as int),
{
    match i {
        0 => "NtTerminateThread",
        1 => "NtWriteFile",
        2 => "NtCreateFile",
        3 => "NtClose",
        4 => "NtReadFile",
        5 => "NtAllocateVirtualMemory",
        6 => "NtFreeVirtualMemory",
        _ => "NtProtectVirtualMemory",
    }
}

/// The page of stubs.
pub fn build_stubs() -> (page: Vec<u8>)
    ensures
        page@ == stubs_page(STUB_COUNT as int),
        page@.len() == 4096,
{
    let mut page: Vec<u8> = vec![0u8; 4096];
    assert(page@ =~= stubs_page(0));
    let mut svc: usize = 0;
    while svc < STUB_COUNT
        invariant
            svc <= STUB_COUNT,
            page@.len() == 4096,
            page@ == stubs_page(svc as int),
        decreases STUB_COUNT - svc,
    {
        let ghost before = page@;
        let off: usize = svc * 16;
        let head: [u8; 4] = [0x49, 0x89, 0xCA, 0xB8];
        let tail: [u8; 3] = [0x0F, 0x05, 0xC3];
        put_bytes(&mut page, off, &head);
        put32(&mut page, off + 4, svc as u32);
        put_bytes(&mut page, off + 8, &tail);
        svc = svc + 1;
        proof {
            assert(bytes32((svc - 1) as u32).len() == 4);
            assert(page@ =~= overlay(before, off as int, stub((svc - 1) as u32)));
        }
    }
    page
}

/// Memory after the trampoline page has been built, and its address.
pub open spec fn with_trampoline(st: PhysState, root: u64, offset: u64) -> (PhysState, Option<u64>) {
    match alloc_page(st) {
        (s1, Some(pa)) => {
            let va = (offset + pa) as u64;
            let s2 = PhysState {
                ram: overlay(s1.ram, pa as int, stubs_page(STUB_COUNT as int)),
                ..s1
            };
            let (s3, ok) = protect_range(s2, root, (va / 0x1000) * 0x1000, va + 4096, ENTRY_USER);
            if ok {
                (s3, Some(va))
            } else {
                (s3, None)
            }
        },
        (s1, None) => (s1, None),
    }
}

impl Trampoline {
    /// Not built yet.
    pub fn new() -> (t: Self)
        ensures
            t.base == 0,
    {
        Trampoline { base: 0 }
    }
}

/// Build the stub page: user-accessible and executable. False when memory is
/// exhausted, in which case there is still no trampoline.
pub fn init(t: &mut Trampoline, mmu: &mut Mmu) -> (ok: bool)
    requires
        old(mmu).phys.wf(),
        old(mmu).windowed(),
    ensures
        final(mmu).phys.wf(),
        final(mmu).same_registers(old(mmu)),
        ({
            let (st, va) = with_trampoline(
                old(mmu).phys@,
                old(mmu).root(),
                old(mmu).window.offset,
            );
            &&& final(mmu).phys@ == st
            &&& ok == (va is Some)
            &&& match va {
                Some(va) => final(t).base == va,
                None => final(t).base == old(t).base,
            }
        }),
{
    let ram_len: usize = mmu.phys.ram.len();
    let pa: PhysAddr = match mm_allocate_page(&mut mmu.phys) {
        Some(p) => p,
        None => {
            return false;
        },
    };
    let page: Vec<u8> = build_stubs();
    assert(mmu.phys@.ram.len() == ram_len);
    let ram_now: usize = mmu.phys.ram.len();
    mm_write_physical(&mut mmu.phys, pa, page.as_slice());
    let va: u64 = phys_to_virt(&mmu.window, pa);
    if !mm_set_user_executable(mmu, va, 4096) {
        return false;
    }
    t.base = va;
    true
}

/// Base of the trampoline page, 0 until it is built.
pub fn trampoline_base(t: &Trampoline) -> (r: u64)
    ensures
        r == t.base,
{
    t.base
}

/// The stub address of an imported name.
pub fn resolve_import(t: &Trampoline, name: &[u8]) -> (r: Option<u64>)
    requires
        t.base <= u64::MAX - 4096,
    ensures
        r == stub_address(t.base, name@),
{
    if t.base == 0 {
        return None;
    }
    let mut i: usize = 0;
    while i < EXPORT_COUNT
        invariant
            i <= EXPORT_COUNT,
            t.base <= u64::MAX - 4096,
            t.base != 0,
            export_index(name@, 0) == export_index(name@, i as int),
        decreases EXPORT_COUNT - i,
    {
        if crate::ldr::pe::same_bytes(name_of(i).as_bytes(), name) {
            let svc: u64 = if i == 0 {
                0
            } else {
                i as u64 + 1
            };
            return Some(t.base + svc * STUB_STRIDE);
        }
        i = i + 1;
    }
    None
}

/// The exported names.
pub fn export_names() -> (names: Vec<&'static str>)
    ensures
        names@.len() == EXPORT_COUNT,
        forall|i: int| 0 <= i < EXPORT_COUNT ==> (#[trigger] names@[i])@ == export_name(i),
{
    let mut names: Vec<&'static str> = Vec::new();
    let mut i: usize = 0;
    while i < EXPORT_COUNT
        invariant
            i <= EXPORT_COUNT,
            names@.len() == i,
            forall|k: int| 0 <= k < i ==> (#[trigger] names@[k])@ == export_name(k),
        decreases EXPORT_COUNT - i,
    {
        names.push(name_of(i));
        i = i + 1;
    }
    names
}

proof fn lemma_stubs(n: int, k: int, j: int)
    requires
        0 <= k < n <= 200,
        0 <= j < 11,
    ensures
        stubs_page(n).len() == 4096,
        stubs_page(n)[k * 16 + j] == stub(k as u32)[j],
    decreases n,
{
    lemma_stubs_len(n);
    lemma_stubs_len(n - 1);
    assert(stub((n - 1) as u32).len() == 11);
    if k < n - 1 {
        lemma_stubs(n - 1, k, j);
    }
}

proof fn lemma_stubs_len(n: int)
    ensures
        stubs_page(n).len() == 4096,
    decreases n,
{
    if n > 0 {
        lemma_stubs_len(n - 1);
    }
}

/// The code at a name's stub address loads exactly that name's service number.
pub proof fn stub_of_a_name_calls_its_service(base: u64, name: Seq<u8>)
    requires
        base <= u64::MAX - 4096,
    ensures
        stub_address(base, name) matches Some(a) ==> {
            let i = export_index(name, 0)->0;
            let o = a - base;
            &&& o == export_service(i) * 16
            &&& o + 11 <= 4096
            &&& stubs_page(STUB_COUNT as int).subrange(o, o + 11) == stub(export_service(i) as u32)
        },
{
    lemma_export_index(name, 0);
    if let Some(i) = export_index(name, 0) {
        let svc = export_service(i);
        lemma_stubs_len(STUB_COUNT as int);
        assert(stub(svc as u32).len() == 11);
        assert forall|j: int| 0 <= j < 11 implies stubs_page(STUB_COUNT as int)[svc * 16 + j]
            == #[trigger] stub(svc as u32)[j] by {
            lemma_stubs(STUB_COUNT as int, svc, j);
        }
        assert(stubs_page(STUB_COUNT as int).subrange(svc * 16, svc * 16 + 11) =~= stub(
            svc as u32,
        ));
    }
}

proof fn lemma_export_index(name: Seq<u8>, i: int)
    requires
        0 <= i,
    ensures
        export_index(name, i) matches Some(k) ==> i <= k < EXPORT_COUNT,
    decreases EXPORT_COUNT - i,
{
    if i < EXPORT_COUNT && encode_utf8(export_name(i)) != name {
        lemma_export_index(name, i + 1);
    }
}

/// A stub saves the return address, loads its service number, enters the kernel and returns:
/// eleven bytes of code with the number in the middle.
pub proof fn a_stub_loads_its_number(service: u32)
    ensures
        ({
            let s = stub(service);
            &&& s.len() == 11
            &&& s.take(4) == seq![0x49u8, 0x89, 0xCA, 0xB8]
            &&& get32(s, 4) == service
            &&& s.skip(8) == seq![0x0Fu8, 0x05, 0xC3]
        }),
{
    let s = stub(service);
    lemma_bytes32(service);
    lemma_get32_in(s, 4, bytes32(service));
    assert(s.take(4) =~= seq![0x49u8, 0x89, 0xCA, 0xB8]);
    assert(s.skip(8) =~= seq![0x0Fu8, 0x05, 0xC3]);
}

/// The stubs stand sixteen bytes apart, in the order of their numbers, and the rest of the
/// page is zero.
pub proof fn stubs_stand_sixteen_bytes_apart(service: int, j: int)
    requires
        0 <= service < 9,
        0 <= j < 11,
    ensures
        stubs_page(STUB_COUNT as int).len() == 4096,
        stubs_page(STUB_COUNT as int)[16 * service + j] == stub(service as u32)[j],
{
    lemma_stubs_len(STUB_COUNT as int);
    lemma_stubs(STUB_COUNT as int, service, j);
}

/// The names that programs import call the services of these numbers.
pub proof fn names_call_their_services(i: int)
    ensures
        export_name(0) == "NtTerminateThread"@ && export_service(0) == 0,
        export_name(1) == "NtWriteFile"@ && export_service(1) == 2,
        export_name(2) == "NtCreateFile"@ && export_service(2) == 3,
        export_name(3) == "NtClose"@ && export_service(3) == 4,
        export_name(4) == "NtReadFile"@ && export_service(4) == 5,
        export_name(5) == "NtAllocateVirtualMemory"@ && export_service(5) == 6,
        export_name(6) == "NtFreeVirtualMemory"@ && export_service(6) == 7,
        export_name(7) == "NtProtectVirtualMemory"@ && export_service(7) == 8,
        0 < i < 8 ==> export_service(i) == i + 1,
{
}

/// Before the stubs are built no name resolves.
pub proof fn without_stubs_no_name_resolves(name: Seq<u8>)
    ensures
        stub_address(0, name) is None,
{
}

/// The stubs stand in a page of their own, at its place in the window, and programs may use
/// it.
pub proof fn the_stubs_stand_in_their_own_page(st: PhysState, root: u64, offset: u64)
    ensures
        ({
            let (s, base) = with_trampoline(st, root, offset);
            let (s1, pa) = alloc_page(st);
            &&& pa is None ==> base is None && s == s1
            &&& base matches Some(va) ==> pa is Some && va == (offset + pa->0) as u64
            &&& pa is Some ==> s == protect_range(
                PhysState {
                    ram: overlay(s1.ram, pa->0 as int, stubs_page(9)),
                    ..s1
                },
                root,
                ((((offset + pa->0) as u64) / 0x1000) * 0x1000) as int,
                ((offset + pa->0) as u64) + 4096,
                0x4,
            ).0
        }),
{
}

} // verus!
