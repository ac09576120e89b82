//! The user buffers that services are handed.
//!
//! A committed page is part of a valid buffer before it was ever touched, and after it was
//! evicted. Before a service runs, the buffers that its arguments name are brought into
//! memory, then those that are named inside them.
use crate::bytes::{get16, get64, u16le, u64le};
use crate::mm::pageout::{PageFile, PageFileState};
use crate::mm::phys::PhysState;
use crate::mm::resident::{buffer_brought_in, make_resident, BroughtIn, ReadBack};
use crate::mm::user::{fetch, fetched, lemma_small_powers};
use crate::mm::vad::{Vad, VadDatabase};
use crate::mm::virt::Mmu;
use crate::syscalls::buffers::{read_user_req, user_request};
use crate::syscalls::files::{FIND_DATA_SIZE, MAX_CREATE_NAME, MAX_IO_LEN, MAX_PATH};
use crate::syscalls::process::{MAX_IMAGE_PATH, MAX_MODULE_NAME, MAX_PROC_NAME};
use crate::syscalls::registry::{MAX_KEY_UNITS, MAX_VALUE_BYTES};
use crate::syscalls::text::MAX_TEXT_UNITS;
use crate::syscalls::Service;
use vstd::prelude::*;

verus! {

/// The arguments of a service.
#[derive(Debug, Clone, Copy, PartialEq, Eq)]
pub struct Arguments {
    pub a1: u64,
    pub a2: u64,
    pub a3: u64,
    pub a4: u64,
}

/// The bytes of `n` items of `size` bytes, none when there are more than the service
/// takes.
#[verifier::opaque]
pub open spec fn at_most(n: u64, cap: u64, size: u64) -> u64 {
    if n <= cap {
        (n * size) as u64
    } else {
        0
    }
}

/// The bytes of the first `cap` of `n` items.
#[verifier::opaque]
pub open spec fn cut_to(n: u64, cap: u64, size: u64) -> u64 {
    if n <= cap {
        (n * size) as u64
    } else {
        (cap * size) as u64
    }
}

fn bytes_at_most(n: u64, cap: u64, size: u64) -> (r: u64)
    requires
        cap <= 0x100_0000,
        size <= 2,
    ensures
        r == at_most(n, cap, size),
{
    reveal(at_most);
    if n <= cap {
        assert(n * size <= 0x200_0000) by (nonlinear_arith)
            requires
                n <= 0x100_0000,
                size <= 2,
        ;
        n * size
    } else {
        0
    }
}

fn bytes_cut_to(n: u64, cap: u64, size: u64) -> (r: u64)
    requires
        cap <= 0x100_0000,
        size <= 2,
    ensures
        r == cut_to(n, cap, size),
{
    reveal(cut_to);
    let k: u64 = if n <= cap {
        n
    } else {
        cap
    };
    assert(k * size <= 0x200_0000) by (nonlinear_arith)
        requires
            k <= 0x100_0000,
            size <= 2,
    ;
    k * size
}

/// The buffers, by address and length, that the arguments of a service name.
pub open spec fn direct(service: Service, a: Arguments) -> Seq<(u64, u64)> {
    match service {
        Service::DebugWrite => seq![(a.a1, at_most(a.a2, 4095, 1))],
        Service::WriteFile | Service::ReadFile => seq![(a.a2, at_most(a.a3, MAX_IO_LEN, 1))],
        Service::CreateFile => seq![(a.a1, at_most(a.a2, MAX_CREATE_NAME as u64, 1))],
        Service::OpenFile => seq![(a.a1, 8u64), (a.a3, 0x18u64), (a.a4, 16u64)],
        Service::GetModuleHandle => seq![(a.a1, at_most(a.a2, MAX_MODULE_NAME as u64, 1))],
        Service::GetProcAddress => seq![(a.a2, at_most(a.a3, MAX_PROC_NAME as u64, 1))],
        Service::LoadMuiString | Service::LoadMessage => seq![
            (a.a3, cut_to(a.a4, (MAX_TEXT_UNITS + 1) as u64, 2)),
        ],
        Service::GetCommandLine => seq![(a.a1, cut_to(a.a2, MAX_IO_LEN, 1))],
        Service::RegOpenKey | Service::RegCreateKey => seq![
            (a.a2, at_most(a.a3, MAX_KEY_UNITS as u64, 2)),
        ],
        Service::RegQueryValue | Service::RegSetValue => seq![(a.a2, 40u64)],
        Service::RegEnumKey => seq![(a.a3, cut_to(a.a4, MAX_KEY_UNITS as u64, 2))],
        Service::CreateProcess => seq![
            (a.a1, at_most(a.a2, MAX_IMAGE_PATH as u64, 2)),
            (a.a3, at_most(a.a4, MAX_IMAGE_PATH as u64, 2)),
        ],
        Service::QueryAttributes => seq![(a.a1, at_most(a.a2, MAX_PATH as u64, 2))],
        Service::QueryDirectory => seq![
            (a.a1, at_most(a.a2, MAX_PATH as u64, 2)),
            (a.a4, FIND_DATA_SIZE as u64),
        ],
        Service::CreatePipe => seq![(a.a1, 16u64)],
        _ => Seq::empty(),
    }
}

/// The buffers that the arguments of a service name.
pub fn direct_buffers(service: Service, a: Arguments) -> (r: Vec<(u64, u64)>)
    ensures
        r@ == direct(service, a),
{
    let mut r: Vec<(u64, u64)> = Vec::new();
    match service {
        Service::DebugWrite => {
            r.push((a.a1, bytes_at_most(a.a2, 4095, 1)));
        },
        Service::WriteFile | Service::ReadFile => {
            r.push((a.a2, bytes_at_most(a.a3, MAX_IO_LEN, 1)));
        },
        Service::CreateFile => {
            r.push((a.a1, bytes_at_most(a.a2, MAX_CREATE_NAME as u64, 1)));
        },
        Service::OpenFile => {
            r.push((a.a1, 8));
            r.push((a.a3, 0x18));
            r.push((a.a4, 16));
        },
        Service::GetModuleHandle => {
            r.push((a.a1, bytes_at_most(a.a2, MAX_MODULE_NAME as u64, 1)));
        },
        Service::GetProcAddress => {
            r.push((a.a2, bytes_at_most(a.a3, MAX_PROC_NAME as u64, 1)));
        },
        Service::LoadMuiString | Service::LoadMessage => {
            r.push((a.a3, bytes_cut_to(a.a4, (MAX_TEXT_UNITS + 1) as u64, 2)));
        },
        Service::GetCommandLine => {
            r.push((a.a1, bytes_cut_to(a.a2, MAX_IO_LEN, 1)));
        },
        Service::RegOpenKey | Service::RegCreateKey => {
            r.push((a.a2, bytes_at_most(a.a3, MAX_KEY_UNITS as u64, 2)));
        },
        Service::RegQueryValue | Service::RegSetValue => {
            r.push((a.a2, 40));
        },
        Service::RegEnumKey => {
            r.push((a.a3, bytes_cut_to(a.a4, MAX_KEY_UNITS as u64, 2)));
        },
        Service::CreateProcess => {
            r.push((a.a1, bytes_at_most(a.a2, MAX_IMAGE_PATH as u64, 2)));
            r.push((a.a3, bytes_at_most(a.a4, MAX_IMAGE_PATH as u64, 2)));
        },
        Service::QueryAttributes => {
            r.push((a.a1, bytes_at_most(a.a2, MAX_PATH as u64, 2)));
        },
        Service::QueryDirectory => {
            r.push((a.a1, bytes_at_most(a.a2, MAX_PATH as u64, 2)));
            r.push((a.a4, FIND_DATA_SIZE as u64));
        },
        Service::CreatePipe => {
            r.push((a.a1, 16));
        },
        _ => {},
    }
    assert(r@ =~= direct(service, a));
    r
}

/// The name of a file to open, and its text where the name itself can be read.
pub open spec fn name_buffers(name: u64, s: Option<Seq<u8>>) -> Seq<(u64, u64)> {
    match s {
        None => seq![(name, 16u64)],
        Some(b) => seq![
            (name, 16u64),
            (get64(b, 8) as u64, cut_to((get16(b, 0) / 2) as u64, MAX_PATH as u64, 2)),
        ],
    }
}

/// The name and the data of a registry request, and where a query puts its kind.
pub open spec fn request_buffers(w: Seq<u64>, query: bool) -> Seq<(u64, u64)> {
    seq![
        (w[0], at_most(w[1], MAX_KEY_UNITS as u64, 2)),
        (w[3], cut_to(w[4], MAX_VALUE_BYTES as u64, 1)),
        (
            w[2],
            if query {
                4
            } else {
                0
            },
        ),
    ]
}

/// The buffers that are named inside those of the arguments, as far as they can be read:
/// the name of a file to open and its text, and the name and the data of a registry
/// request.
pub open spec fn nested(service: Service, a: Arguments, mmu: &Mmu, db: &VadDatabase) -> Seq<
    (u64, u64),
> {
    match service {
        Service::OpenFile => match fetched(mmu, db, a.a3, 0x18, 8) {
            None => Seq::empty(),
            Some(attributes) => {
                let name = get64(attributes, 0x10) as u64;
                name_buffers(name, fetched(mmu, db, name, 16, 8))
            },
        },
        Service::RegQueryValue | Service::RegSetValue => match user_request(mmu, db, a.a2, 5) {
            None => Seq::empty(),
            Some(w) => request_buffers(w, service is RegQueryValue),
        },
        _ => Seq::empty(),
    }
}

fn name_list(name: u64, s: Option<Vec<u8>>) -> (r: Vec<(u64, u64)>)
    requires
        s matches Some(b) ==> b@.len() == 16,
    ensures
        r@ == name_buffers(
            name,
            match s {
                Some(b) => Some(b@),
                None => None,
            },
        ),
{
    let mut r: Vec<(u64, u64)> = Vec::new();
    r.push((name, 16));
    if let Some(b) = s {
        let len: u16 = match u16le(&b, 0) {
            Some(v) => v,
            None => 0,
        };
        let text: u64 = match u64le(&b, 8) {
            Some(v) => v,
            None => 0,
        };
        r.push((text, bytes_cut_to((len / 2) as u64, MAX_PATH as u64, 2)));
    }
    r
}

fn request_list(w: Vec<u64>, query: bool) -> (r: Vec<(u64, u64)>)
    requires
        w@.len() == 5,
    ensures
        r@ == request_buffers(w@, query),
{
    let mut r: Vec<(u64, u64)> = Vec::new();
    r.push((w[0], bytes_at_most(w[1], MAX_KEY_UNITS as u64, 2)));
    r.push((w[3], bytes_cut_to(w[4], MAX_VALUE_BYTES as u64, 1)));
    r.push(
        (
            w[2],
            if query {
                4
            } else {
                0
            },
        ),
    );
    r
}

fn open_names(mmu: &Mmu, db: &VadDatabase, attributes: u64) -> (r: Vec<(u64, u64)>)
    requires
        db.wf(),
    ensures
        r@ == (match fetched(mmu, db, attributes, 0x18, 8) {
            None => Seq::empty(),
            Some(b) => {
                let name = get64(b, 0x10) as u64;
                name_buffers(name, fetched(mmu, db, name, 16, 8))
            },
        }),
{
    proof {
        lemma_small_powers();
    }
    match fetch(mmu, db, attributes, 0x18, 8) {
        None => Vec::new(),
        Some(b) => {
            let name: u64 = match u64le(&b, 0x10) {
                Some(v) => v,
                None => 0,
            };
            name_list(name, fetch(mmu, db, name, 16, 8))
        },
    }
}

fn request_names(mmu: &Mmu, db: &VadDatabase, request: u64, query: bool) -> (r: Vec<(u64, u64)>)
    requires
        db.wf(),
    ensures
        r@ == (match user_request(mmu, db, request, 5) {
            None => Seq::empty(),
            Some(w) => request_buffers(w, query),
        }),
{
    match read_user_req(mmu, db, request, 5) {
        None => Vec::new(),
        Some(w) => request_list(w, query),
    }
}

/// The buffers that are named inside those of the arguments.
pub fn nested_buffers(service: Service, a: Arguments, mmu: &Mmu, db: &VadDatabase) -> (r: Vec<
    (u64, u64),
>)
    requires
        db.wf(),
    ensures
        r@ == nested(service, a, mmu, db),
{
    match service {
        Service::OpenFile => open_names(mmu, db, a.a3),
        Service::RegQueryValue => request_names(mmu, db, a.a2, true),
        Service::RegSetValue => request_names(mmu, db, a.a2, false),
        _ => Vec::new(),
    }
}

/// Bringing in one buffer after the other, up to one with a page to read. Buffers that
/// reach beyond the address space are no buffers.
pub open spec fn all_brought_in(
    vads: Seq<Vad>,
    st: PhysState,
    pf: PageFileState,
    root: u64,
    list: Seq<(u64, u64)>,
) -> BroughtIn
    decreases list.len(),
{
    if list.len() == 0 {
        BroughtIn { phys: st, pf, victims: Seq::empty(), pending: None, complete: true }
    } else {
        let (address, length) = list[0];
        let b = if address + length > u64::MAX {
            BroughtIn { phys: st, pf, victims: Seq::empty(), pending: None, complete: true }
        } else {
            buffer_brought_in(vads, st, pf, root, address, length as int)
        };
        if b.pending is Some {
            b
        } else {
            let rest = all_brought_in(vads, b.phys, b.pf, root, list.skip(1));
            BroughtIn {
                victims: b.victims + rest.victims,
                complete: b.complete && rest.complete,
                ..rest
            }
        }
    }
}

fn bring_in_all(
    db: &VadDatabase,
    mmu: &mut Mmu,
    pf: &mut PageFile,
    list: &Vec<(u64, u64)>,
    victims: &mut Vec<(u64, u64)>,
) -> (r: Option<ReadBack>)
    requires
        db.wf(),
        old(mmu).phys.wf(),
        old(pf).wf(),
        all_short(list@),
    ensures
        final(mmu).phys.wf(),
        final(pf).wf(),
        final(mmu).same_registers(old(mmu)),
        ({
            let b = all_brought_in(
                db.of(old(mmu).root()),
                old(mmu).phys@,
                old(pf)@,
                old(mmu).root(),
                list@,
            );
            &&& final(mmu).phys@ == b.phys
            &&& final(pf)@ == b.pf
            &&& final(victims)@ == old(victims)@ + b.victims
            &&& r == b.pending
        }),
{
    let ghost root = mmu.root();
    let ghost vads = db.of(root);
    let ghost v0 = victims@;
    let ghost whole = all_brought_in(vads, mmu.phys@, pf@, root, list@);
    let mut i: usize = 0;
    assert(list@.skip(0) =~= list@);
    while i < list.len()
        invariant
            i <= list@.len(),
            db.wf(),
            mmu.phys.wf(),
            pf.wf(),
            mmu.same_registers(old(mmu)),
            root == old(mmu).root(),
            mmu.root() == root,
            vads == db.of(root),
            v0 == old(victims)@,
            whole == all_brought_in(
                db.of(old(mmu).root()),
                old(mmu).phys@,
                old(pf)@,
                old(mmu).root(),
                list@,
            ),
            all_short(list@),
            ({
                let rest = all_brought_in(vads, mmu.phys@, pf@, root, list@.skip(i as int));
                &&& whole.phys == rest.phys
                &&& whole.pf == rest.pf
                &&& whole.pending == rest.pending
                &&& v0 + whole.victims == victims@ + rest.victims
            }),
        decreases list@.len() - i,
    {
        let (address, length) = list[i];
        let ghost tail = list@.skip(i as int);
        let ghost st = mmu.phys@;
        let ghost p0 = pf@;
        let ghost before = victims@;
        proof {
            assert(tail[0] == list@[i as int]);
            assert(tail.skip(1) =~= list@.skip(i + 1));
        }
        if address <= u64::MAX - length {
            if let Some(p) = make_resident(db, mmu, pf, address, length as usize, victims) {
                return Some(p);
            }
        }
        proof {
            let rest = all_brought_in(vads, mmu.phys@, pf@, root, list@.skip(i + 1));
            assert(v0 + whole.victims =~= victims@ + rest.victims);
        }
        i = i + 1;
    }
    assert(victims@ =~= v0 + whole.victims);
    None
}

proof fn lemma_counted(n: u64, cap: u64, size: u64)
    requires
        cap <= 0x100_0000,
        size <= 2,
    ensures
        at_most(n, cap, size) <= 0x200_0000,
        cut_to(n, cap, size) <= 0x200_0000,
{
    reveal(at_most);
    reveal(cut_to);
    let k = if n <= cap {
        n
    } else {
        cap
    };
    assert(k * size <= 0x200_0000) by (nonlinear_arith)
        requires
            k <= 0x100_0000,
            size <= 2,
    ;
}

/// Every buffer of a list is short.
spec fn all_short(list: Seq<(u64, u64)>) -> bool {
    forall|k: int| 0 <= k < list.len() ==> (#[trigger] list[k]).1 <= 0x200_0000
}

#[verifier::spinoff_prover]
proof fn lemma_direct_short(service: Service, a: Arguments)
    ensures
        all_short(direct(service, a)),
{
    assert forall|n: u64, cap: u64, size: u64|
        cap <= 0x100_0000 && size <= 2 implies #[trigger] at_most(n, cap, size) <= 0x200_0000 by {
        lemma_counted(n, cap, size);
    }
    assert forall|n: u64, cap: u64, size: u64|
        cap <= 0x100_0000 && size <= 2 implies #[trigger] cut_to(n, cap, size) <= 0x200_0000 by {
        lemma_counted(n, cap, size);
    }
}

proof fn lemma_name_short(name: u64, s: Option<Seq<u8>>)
    ensures
        all_short(name_buffers(name, s)),
{
    if let Some(b) = s {
        lemma_counted((get16(b, 0) / 2) as u64, MAX_PATH as u64, 2);
    }
}

proof fn lemma_request_short(w: Seq<u64>, query: bool)
    ensures
        all_short(request_buffers(w, query)),
{
    lemma_counted(w[1], MAX_KEY_UNITS as u64, 2);
    lemma_counted(w[4], MAX_VALUE_BYTES as u64, 1);
}

#[verifier::spinoff_prover]
proof fn lemma_nested_short(service: Service, a: Arguments, mmu: &Mmu, db: &VadDatabase)
    ensures
        all_short(nested(service, a, mmu, db)),
{
    match service {
        Service::OpenFile => {
            if let Some(b) = fetched(mmu, db, a.a3, 0x18, 8) {
                let name = get64(b, 0x10) as u64;
                lemma_name_short(name, fetched(mmu, db, name, 16, 8));
            }
        },
        Service::RegQueryValue | Service::RegSetValue => {
            if let Some(w) = user_request(mmu, db, a.a2, 5) {
                lemma_request_short(w, service is RegQueryValue);
            }
        },
        _ => {},
    }
}

/// Bring the buffers that the arguments name into memory. Returns the page that has to be
/// read first, if there is one; after it was read the call is made again. When it returns
/// none, [`page_in_nested`] goes on with what those buffers name.
pub fn page_in_arguments(
    db: &VadDatabase,
    mmu: &mut Mmu,
    pf: &mut PageFile,
    service: Service,
    a: Arguments,
    victims: &mut Vec<(u64, u64)>,
) -> (r: Option<ReadBack>)
    requires
        db.wf(),
        old(mmu).phys.wf(),
        old(pf).wf(),
    ensures
        final(mmu).phys.wf(),
        final(pf).wf(),
        final(mmu).same_registers(old(mmu)),
        ({
            let b = all_brought_in(
                db.of(old(mmu).root()),
                old(mmu).phys@,
                old(pf)@,
                old(mmu).root(),
                direct(service, a),
            );
            &&& final(mmu).phys@ == b.phys
            &&& final(pf)@ == b.pf
            &&& final(victims)@ == old(victims)@ + b.victims
            &&& r == b.pending
        }),
{
    proof {
        lemma_direct_short(service, a);
    }
    let list: Vec<(u64, u64)> = direct_buffers(service, a);
    bring_in_all(db, mmu, pf, &list, victims)
}

/// Bring the buffers that are named inside those of the arguments into memory, as far as
/// they can be read. A name inside a name takes a second call.
pub fn page_in_nested(
    db: &VadDatabase,
    mmu: &mut Mmu,
    pf: &mut PageFile,
    service: Service,
    a: Arguments,
    victims: &mut Vec<(u64, u64)>,
) -> (r: Option<ReadBack>)
    requires
        db.wf(),
        old(mmu).phys.wf(),
        old(pf).wf(),
    ensures
        final(mmu).phys.wf(),
        final(pf).wf(),
        final(mmu).same_registers(old(mmu)),
        ({
            let b = all_brought_in(
                db.of(old(mmu).root()),
                old(mmu).phys@,
                old(pf)@,
                old(mmu).root(),
                nested(service, a, old(mmu), db),
            );
            &&& final(mmu).phys@ == b.phys
            &&& final(pf)@ == b.pf
            &&& final(victims)@ == old(victims)@ + b.victims
            &&& r == b.pending
        }),
{
    proof {
        lemma_nested_short(service, a, mmu, db);
    }
    let list: Vec<(u64, u64)> = nested_buffers(service, a, mmu, db);
    bring_in_all(db, mmu, pf, &list, victims)
}

/// A buffer that is limited is as long as its count, and no longer than its limit: one that
/// may not be longer is left out, any other is cut.
pub proof fn a_limit_is_kept(n: u64, cap: u64, size: u64)
    requires
        cap * size <= u64::MAX,
    ensures
        n <= cap ==> at_most(n, cap, size) == n * size && cut_to(n, cap, size) == n * size,
        n > cap ==> at_most(n, cap, size) == 0 && cut_to(n, cap, size) == cap * size,
{
    reveal(at_most);
    reveal(cut_to);
    assert(0 <= cap * size) by (nonlinear_arith)
        requires
            0 <= cap,
            0 <= size,
    ;
    if n <= cap {
        assert(0 <= n * size <= cap * size) by (nonlinear_arith)
            requires
                0 <= n <= cap,
                0 <= size,
        ;
    }
}

/// Each service names the buffers it is given, with their lengths in bytes.
pub proof fn services_name_their_buffers(a: Arguments)
    ensures
        a.a2 < 4096 ==> direct(Service::DebugWrite, a) == seq![(a.a1, a.a2)],
        a.a3 <= 0x100_0000 ==> direct(Service::WriteFile, a) == seq![(a.a2, a.a3)],
        a.a3 <= 0x100_0000 ==> direct(Service::ReadFile, a) == seq![(a.a2, a.a3)],
        a.a2 <= 128 ==> direct(Service::CreateFile, a) == seq![(a.a1, a.a2)],
        direct(Service::OpenFile, a) == seq![(a.a1, 8u64), (a.a3, 24u64), (a.a4, 16u64)],
        a.a2 <= 64 ==> direct(Service::GetModuleHandle, a) == seq![(a.a1, a.a2)],
        a.a3 <= 128 ==> direct(Service::GetProcAddress, a) == seq![(a.a2, a.a3)],
        a.a4 <= 513 ==> direct(Service::LoadMuiString, a) == seq![(a.a3, (2 * a.a4) as u64)],
        a.a4 <= 513 ==> direct(Service::LoadMessage, a) == seq![(a.a3, (2 * a.a4) as u64)],
        a.a4 > 513 ==> direct(Service::LoadMessage, a) == seq![(a.a3, 1026u64)],
        a.a2 <= 0x100_0000 ==> direct(Service::GetCommandLine, a) == seq![(a.a1, a.a2)],
        a.a3 <= 256 ==> direct(Service::RegOpenKey, a) == seq![(a.a2, (2 * a.a3) as u64)],
        a.a3 <= 256 ==> direct(Service::RegCreateKey, a) == seq![(a.a2, (2 * a.a3) as u64)],
        direct(Service::RegQueryValue, a) == seq![(a.a2, 40u64)],
        direct(Service::RegSetValue, a) == seq![(a.a2, 40u64)],
        a.a4 <= 256 ==> direct(Service::RegEnumKey, a) == seq![(a.a3, (2 * a.a4) as u64)],
        a.a2 <= 128 && a.a4 <= 128 ==> direct(Service::CreateProcess, a) == seq![
            (a.a1, (2 * a.a2) as u64),
            (a.a3, (2 * a.a4) as u64),
        ],
        a.a2 <= 260 ==> direct(Service::QueryAttributes, a) == seq![(a.a1, (2 * a.a2) as u64)],
        a.a2 <= 260 ==> direct(Service::QueryDirectory, a) == seq![
            (a.a1, (2 * a.a2) as u64),
            (a.a4, 592u64),
        ],
        direct(Service::CreatePipe, a) == seq![(a.a1, 16u64)],
        direct(Service::Close, a).len() == 0,
        direct(Service::ExitThread, a).len() == 0,
        direct(Service::SetConsoleMode, a).len() == 0,
{
    a_limit_is_kept(a.a2, 4095, 1);
    a_limit_is_kept(a.a3, 0x100_0000, 1);
    a_limit_is_kept(a.a2, 128, 1);
    a_limit_is_kept(a.a2, 64, 1);
    a_limit_is_kept(a.a3, 128, 1);
    a_limit_is_kept(a.a4, 513, 2);
    a_limit_is_kept(a.a2, 0x100_0000, 1);
    a_limit_is_kept(a.a3, 256, 2);
    a_limit_is_kept(a.a4, 256, 2);
    a_limit_is_kept(a.a2, 128, 2);
    a_limit_is_kept(a.a4, 128, 2);
    a_limit_is_kept(a.a2, 260, 2);
}

/// A registry request points to three more buffers: the name, the data, and for a query the
/// type.
pub proof fn a_request_points_to_its_buffers(w: Seq<u64>)
    requires
        w.len() == 5,
        w[1] <= 256,
        w[4] <= 256,
    ensures
        request_buffers(w, true) == seq![(w[0], (2 * w[1]) as u64), (w[3], w[4]), (w[2], 4u64)],
        request_buffers(w, false) == seq![(w[0], (2 * w[1]) as u64), (w[3], w[4]), (w[2], 0u64)],
{
    a_limit_is_kept(w[1], 256, 2);
    a_limit_is_kept(w[4], 256, 1);
}

/// A file name is a header of 16 bytes and the text that it counts.
pub proof fn a_name_is_a_header_and_its_text(name: u64, b: Seq<u8>)
    ensures
        name_buffers(name, None) == seq![(name, 16u64)],
        get16(b, 0) <= 520 && get16(b, 0) % 2 == 0 ==> name_buffers(name, Some(b)) == seq![
            (name, 16u64),
            (get64(b, 8) as u64, get16(b, 0) as u64),
        ],
{
    a_limit_is_kept((get16(b, 0) / 2) as u64, 260, 2);
}

/// Buffers are brought in one after the other. The first that must wait for the page file
/// stops the rest.
pub proof fn buffers_are_brought_in_in_turn(
    vads: Seq<Vad>,
    st: PhysState,
    pf: PageFileState,
    root: u64,
    address: u64,
    length: u64,
    rest: Seq<(u64, u64)>,
)
    requires
        address + length <= u64::MAX,
    ensures
        ({
            let b = buffer_brought_in(vads, st, pf, root, address, length as int);
            let all = all_brought_in(vads, st, pf, root, seq![(address, length)] + rest);
            let next = all_brought_in(vads, b.phys, b.pf, root, rest);
            &&& b.pending is Some ==> all == b
            &&& b.pending is None ==> all.phys == next.phys && all.pf == next.pf && all.pending
                == next.pending && all.victims == b.victims + next.victims && all.complete == (
            b.complete && next.complete)
        }),
        all_brought_in(vads, st, pf, root, Seq::empty()).phys == st,
        all_brought_in(vads, st, pf, root, Seq::empty()).complete,
{
    let list = seq![(address, length)] + rest;
    assert(list[0] == (address, length));
    assert(list.skip(1) =~= rest);
}

/// What a buffer points to is named as well: for a file the name behind its attributes, for
/// the registry what the request points to, for every other service nothing.
pub proof fn what_buffers_point_to_is_named(a: Arguments, mmu: &Mmu, db: &VadDatabase, w: Seq<u64>)
    ensures
        fetched(mmu, db, a.a3, 24, 8) is None ==> nested(Service::OpenFile, a, mmu, db).len() == 0,
        fetched(mmu, db, a.a3, 24, 8) matches Some(b) ==> nested(Service::OpenFile, a, mmu, db)
            == name_buffers(
            get64(b, 16) as u64,
            fetched(mmu, db, get64(b, 16) as u64, 16, 8),
        ),
        user_request(mmu, db, a.a2, 5) == Some(w) ==> nested(Service::RegQueryValue, a, mmu, db)
            == request_buffers(w, true) && nested(Service::RegSetValue, a, mmu, db)
            == request_buffers(w, false),
        user_request(mmu, db, a.a2, 5) is None ==> nested(Service::RegQueryValue, a, mmu, db).len()
            == 0,
        nested(Service::ReadFile, a, mmu, db).len() == 0,
        nested(Service::CreateProcess, a, mmu, db).len() == 0,
{
}

} // verus!
