//! Access to user memory through the page tables.
//!
//! Every access goes byte by byte through the current translation, so a write
//! that lands in a page table takes effect for the bytes after it. A byte whose
//! page is not mapped, or not writable for a write, stops the access there: what
//! came before it has been done. Committed pages that are not resident are brought in
//! beforehand: by [`copy_to_user`] and [`copy_from_user`] themselves, for the arguments of
//! a service with [`crate::syscalls::arguments::page_in_arguments`].
use crate::mm::pageout::{PageFile, PageFileState};
use crate::mm::phys::PhysState;
use crate::mm::probe::{probe_for_read, probe_for_write, probed, probed_in};
use crate::mm::resident::{buffer_brought_in, make_resident, ReadBack};
use crate::mm::vad::VadDatabase;
use crate::mm::virt::{
    large, mm_get_physical_address, pde, pdpte, pml4e, pte, read_entry, table_index, translate,
    Mmu, ADDR_MASK, ENTRY_LARGE, ENTRY_RW,
};
use crate::rtl::NtStatus;
use vstd::arithmetic::power2::{lemma2_to64, pow2};
use vstd::prelude::*;

verus! {

pub open spec fn writable(e: u64) -> bool {
    e & ENTRY_RW != 0
}

/// Every entry on the way to `va` allows writing.
pub open spec fn walk_writable(ram: Seq<u8>, root: u64, va: u64) -> bool {
    &&& writable(pml4e(ram, root, va))
    &&& writable(pdpte(ram, root, va))
    &&& large(pdpte(ram, root, va)) || {
        &&& writable(pde(ram, root, va))
        &&& large(pde(ram, root, va)) || writable(pte(ram, root, va))
    }
}

/// The physical address of byte `va + i`, if it can be read or written.
pub open spec fn reached(ram: Seq<u8>, root: u64, va: u64, i: int, write: bool) -> Option<int> {
    if va + i > u64::MAX {
        None
    } else {
        match translate(ram, root, (va + i) as u64) {
            Some(pa) => if pa < ram.len() && (write ==> walk_writable(ram, root, (va + i) as u64)) {
                Some(pa as int)
            } else {
                None
            },
            None => None,
        }
    }
}

/// The `n` bytes at `va`, if all of them can be read.
pub open spec fn user_bytes(ram: Seq<u8>, root: u64, va: u64, n: int) -> Option<Seq<u8>>
    decreases n,
{
    if n <= 0 {
        Some(Seq::empty())
    } else {
        match (user_bytes(ram, root, va, n - 1), reached(ram, root, va, n - 1, false)) {
            (Some(s), Some(pa)) => Some(s.push(ram[pa])),
            _ => None,
        }
    }
}

/// Memory after writing `data` at `va`, and whether all of it could be written.
pub open spec fn user_written(ram: Seq<u8>, root: u64, va: u64, data: Seq<u8>) -> (Seq<u8>, bool)
    decreases data.len(),
{
    if data.len() == 0 {
        (ram, true)
    } else {
        let (r, ok) = user_written(ram, root, va, data.drop_last());
        if !ok {
            (r, false)
        } else {
            match reached(r, root, va, data.len() - 1, true) {
                Some(pa) => (r.update(pa, data.last()), true),
                None => (r, false),
            }
        }
    }
}

/// Does every entry on the way to `va` allow writing?
fn path_writable(mmu: &Mmu, va: u64) -> (r: bool)
    ensures
        r == walk_writable(mmu.ram(), mmu.root(), va),
{
    let e4: u64 = read_entry(&mmu.phys, mmu.cr3 & ADDR_MASK, table_index(va, 4));
    let e3: u64 = read_entry(&mmu.phys, e4 & ADDR_MASK, table_index(va, 3));
    if e4 & ENTRY_RW == 0 || e3 & ENTRY_RW == 0 {
        return false;
    }
    if e3 & ENTRY_LARGE != 0 {
        return true;
    }
    let e2: u64 = read_entry(&mmu.phys, e3 & ADDR_MASK, table_index(va, 2));
    if e2 & ENTRY_RW == 0 {
        return false;
    }
    if e2 & ENTRY_LARGE != 0 {
        return true;
    }
    let e1: u64 = read_entry(&mmu.phys, e2 & ADDR_MASK, table_index(va, 1));
    e1 & ENTRY_RW != 0
}

fn reach(mmu: &Mmu, va: u64, i: usize, write: bool) -> (r: Option<usize>)
    ensures
        match r {
            Some(pa) => reached(mmu.ram(), mmu.root(), va, i as int, write) == Some(pa as int),
            None => reached(mmu.ram(), mmu.root(), va, i as int, write) is None,
        },
        r matches Some(pa) ==> pa < mmu.ram().len(),
{
    let a: u64 = match va.checked_add(i as u64) {
        Some(a) => a,
        None => {
            return None;
        },
    };
    match mm_get_physical_address(mmu, a) {
        Some(pa) => {
            let n: usize = mmu.phys.ram.len();
            if pa.0 < n as u64 && (!write || path_writable(mmu, a)) {
                Some(pa.0 as usize)
            } else {
                None
            }
        },
        None => None,
    }
}

proof fn lemma_unreadable(ram: Seq<u8>, root: u64, va: u64, i: int, n: int)
    requires
        0 <= i < n,
        reached(ram, root, va, i, false) is None,
    ensures
        user_bytes(ram, root, va, n) is None,
    decreases n,
{
    if i < n - 1 {
        lemma_unreadable(ram, root, va, i, n - 1);
    }
}

/// Read `n` bytes at a virtual address.
pub fn read_user(mmu: &Mmu, va: u64, n: usize) -> (r: Option<Vec<u8>>)
    ensures
        match r {
            Some(v) => user_bytes(mmu.ram(), mmu.root(), va, n as int) == Some(v@),
            None => user_bytes(mmu.ram(), mmu.root(), va, n as int) is None,
        },
        r matches Some(v) ==> v@.len() == n,
{
    let mut out: Vec<u8> = Vec::new();
    let mut i: usize = 0;
    assert(out@ =~= Seq::<u8>::empty());
    while i < n
        invariant
            i <= n,
            out@.len() == i,
            user_bytes(mmu.ram(), mmu.root(), va, i as int) == Some(out@),
        decreases n - i,
    {
        match reach(mmu, va, i, false) {
            Some(pa) => {
                out.push(mmu.phys.ram[pa]);
            },
            None => {
                proof {
                    lemma_unreadable(mmu.ram(), mmu.root(), va, i as int, n as int);
                }
                return None;
            },
        }
        i = i + 1;
    }
    Some(out)
}

proof fn lemma_unwritable(ram: Seq<u8>, root: u64, va: u64, data: Seq<u8>, i: int)
    requires
        0 <= i < data.len(),
        user_written(ram, root, va, data.take(i)).1,
        reached(user_written(ram, root, va, data.take(i)).0, root, va, i, true) is None,
    ensures
        user_written(ram, root, va, data) == (user_written(ram, root, va, data.take(i)).0, false),
    decreases data.len(),
{
    let init = data.drop_last();
    if i == data.len() - 1 {
        assert(data.take(i) =~= init);
    } else {
        assert(init.take(i) =~= data.take(i));
        lemma_unwritable(ram, root, va, init, i);
    }
}

/// Write bytes at a virtual address. Returns whether all of them were written.
pub fn write_user(mmu: &mut Mmu, va: u64, data: &[u8]) -> (ok: bool)
    requires
        old(mmu).phys.wf(),
    ensures
        final(mmu).phys.wf(),
        final(mmu).same_registers(old(mmu)),
        ({
            let (ram, all) = user_written(old(mmu).ram(), old(mmu).root(), va, data@);
            final(mmu).phys@ == (PhysState { ram, ..old(mmu).phys@ }) && ok == all
        }),
{
    let ghost st = mmu.phys@;
    let ghost root = mmu.root();
    let mut i: usize = 0;
    assert(data@.take(0) =~= Seq::empty());
    assert(mmu.phys@ =~= PhysState { ram: st.ram, ..st });
    while i < data.len()
        invariant
            i <= data@.len(),
            st == old(mmu).phys@,
            root == old(mmu).root(),
            mmu.root() == root,
            mmu.phys.wf(),
            mmu.same_registers(old(mmu)),
            user_written(st.ram, root, va, data@.take(i as int)) == (mmu.phys@.ram, true),
            mmu.phys@ == (PhysState { ram: mmu.phys@.ram, ..st }),
        decreases data@.len() - i,
    {
        match reach(mmu, va, i, true) {
            Some(pa) => {
                proof {
                    let next = data@.take(i + 1);
                    assert(next.drop_last() =~= data@.take(i as int));
                    assert(next.last() == data@[i as int]);
                }
                mmu.phys.ram.set(pa, data[i]);
            },
            None => {
                proof {
                    lemma_unwritable(st.ram, root, va, data@, i as int);
                }
                return false;
            },
        }
        i = i + 1;
    }
    assert(data@.take(i as int) =~= data@);
    true
}

/// The alignments of service arguments are powers of two.
pub proof fn lemma_small_powers()
    ensures
        exists|n: nat| n < 64 && 1 == #[trigger] pow2(n),
        exists|n: nat| n < 64 && 2 == #[trigger] pow2(n),
        exists|n: nat| n < 64 && 4 == #[trigger] pow2(n),
        exists|n: nat| n < 64 && 8 == #[trigger] pow2(n),
        exists|n: nat| n < 64 && 16 == #[trigger] pow2(n),
{
    lemma2_to64();
    assert(pow2(0) == 1);
    assert(pow2(1) == 2);
    assert(pow2(2) == 4);
    assert(pow2(3) == 8);
    assert(pow2(4) == 16);
}

/// How far a copy got.
#[derive(Debug, PartialEq, Eq)]
pub enum CopyStep<T> {
    /// It is over.
    Done(Result<T, NtStatus>),
    /// A page of the buffer has to be read from disk first.
    Read(ReadBack),
}

/// What copying `data` into the user buffer at `dst` gives: memory, the pagefile, the
/// pages to evict and how far it got.
pub open spec fn copied_to_user(
    vads: &VadDatabase,
    st: PhysState,
    pf: PageFileState,
    root: u64,
    dst: u64,
    data: Seq<u8>,
) -> (PhysState, PageFileState, Seq<(u64, u64)>, CopyStep<()>) {
    match probed_in(st.ram, root, vads, dst, data.len() as int, 1) {
        Err(e) => (st, pf, Seq::empty(), CopyStep::Done(Err(e))),
        Ok(_) => {
            let b = buffer_brought_in(vads.of(root), st, pf, root, dst, data.len() as int);
            match b.pending {
                Some(p) => (b.phys, b.pf, b.victims, CopyStep::Read(p)),
                None => {
                    let (ram, all) = user_written(b.phys.ram, root, dst, data);
                    (
                        PhysState { ram, ..b.phys },
                        b.pf,
                        b.victims,
                        CopyStep::Done(
                            if all {
                                Ok(())
                            } else {
                                Err(NtStatus(NtStatus::ACCESS_VIOLATION))
                            },
                        ),
                    )
                },
            }
        },
    }
}

/// Copy into a user buffer: probe the range, bring its pages in, then copy; a byte that
/// cannot be written all the same fails the copy with an access violation. Pages to evict
/// are added to `victims`.
pub fn copy_to_user(
    mmu: &mut Mmu,
    db: &VadDatabase,
    pf: &mut PageFile,
    dst: u64,
    src: &[u8],
    victims: &mut Vec<(u64, u64)>,
) -> (r: CopyStep<()>)
    requires
        db.wf(),
        old(mmu).phys.wf(),
        old(pf).wf(),
    ensures
        final(mmu).phys.wf(),
        final(pf).wf(),
        final(mmu).same_registers(old(mmu)),
        ({
            let (st, p1, evict, step) = copied_to_user(
                db,
                old(mmu).phys@,
                old(pf)@,
                old(mmu).root(),
                dst,
                src@,
            );
            &&& final(mmu).phys@ == st
            &&& final(pf)@ == p1
            &&& final(victims)@ == old(victims)@ + evict
            &&& r == step
        }),
{
    proof {
        lemma_small_powers();
    }
    match probe_for_write(mmu, db, dst, src.len(), 1) {
        Err(e) => {
            assert(victims@ =~= old(victims)@ + Seq::empty());
            return CopyStep::Done(Err(e));
        },
        Ok(_) => {},
    }
    if src.len() > 0 {
        if let Some(p) = make_resident(db, mmu, pf, dst, src.len(), victims) {
            return CopyStep::Read(p);
        }
    } else {
        assert(victims@ =~= old(victims)@ + Seq::empty());
    }
    if write_user(mmu, dst, src) {
        CopyStep::Done(Ok(()))
    } else {
        CopyStep::Done(Err(NtStatus(NtStatus::ACCESS_VIOLATION)))
    }
}

/// What copying `n` bytes out of the user buffer at `src` gives: memory, the pagefile,
/// the pages to evict, and the bytes, the status or the page to read first.
pub open spec fn copied_from_user(
    vads: &VadDatabase,
    st: PhysState,
    pf: PageFileState,
    root: u64,
    src: u64,
    n: int,
) -> (PhysState, PageFileState, Seq<(u64, u64)>, CopyStep<Seq<u8>>) {
    match probed_in(st.ram, root, vads, src, n, 1) {
        Err(e) => (st, pf, Seq::empty(), CopyStep::Done(Err(e))),
        Ok(_) => {
            let b = buffer_brought_in(vads.of(root), st, pf, root, src, n);
            let step = match b.pending {
                Some(p) => CopyStep::Read(p),
                None => CopyStep::Done(
                    match user_bytes(b.phys.ram, root, src, n) {
                        Some(s) => Ok(s),
                        None => Err(NtStatus(NtStatus::ACCESS_VIOLATION)),
                    },
                ),
            };
            (b.phys, b.pf, b.victims, step)
        },
    }
}

/// Copy out of a user buffer: the reading counterpart of [`copy_to_user`].
pub fn copy_from_user(
    mmu: &mut Mmu,
    db: &VadDatabase,
    pf: &mut PageFile,
    src: u64,
    n: usize,
    victims: &mut Vec<(u64, u64)>,
) -> (r: CopyStep<Vec<u8>>)
    requires
        db.wf(),
        old(mmu).phys.wf(),
        old(pf).wf(),
    ensures
        final(mmu).phys.wf(),
        final(pf).wf(),
        final(mmu).same_registers(old(mmu)),
        ({
            let (st, p1, evict, step) = copied_from_user(
                db,
                old(mmu).phys@,
                old(pf)@,
                old(mmu).root(),
                src,
                n as int,
            );
            &&& final(mmu).phys@ == st
            &&& final(pf)@ == p1
            &&& final(victims)@ == old(victims)@ + evict
            &&& match r {
                CopyStep::Done(Ok(v)) => step == CopyStep::Done(Ok(v@)) && v@.len() == n,
                CopyStep::Done(Err(e)) => step == CopyStep::<Seq<u8>>::Done(Err(e)),
                CopyStep::Read(p) => step == CopyStep::<Seq<u8>>::Read(p),
            }
        }),
{
    proof {
        lemma_small_powers();
    }
    match probe_for_read(mmu, db, src, n, 1) {
        Err(e) => {
            assert(victims@ =~= old(victims)@ + Seq::empty());
            return CopyStep::Done(Err(e));
        },
        Ok(_) => {},
    }
    if n > 0 {
        if let Some(p) = make_resident(db, mmu, pf, src, n, victims) {
            return CopyStep::Read(p);
        }
    } else {
        assert(victims@ =~= old(victims)@ + Seq::empty());
    }
    match read_user(mmu, src, n) {
        Some(v) => CopyStep::Done(Ok(v)),
        None => CopyStep::Done(Err(NtStatus(NtStatus::ACCESS_VIOLATION))),
    }
}

// ---------------------------------------------------------------------------
// Service arguments
// ---------------------------------------------------------------------------
/// Storing `data` in a user buffer of the address space `root`: memory, and
/// whether it was stored.
pub open spec fn stored_in(
    ram: Seq<u8>,
    root: u64,
    db: &VadDatabase,
    to: u64,
    data: Seq<u8>,
    align: u64,
) -> (Seq<u8>, bool) {
    if probed_in(ram, root, db, to, data.len() as int, align) is Err {
        (ram, false)
    } else {
        user_written(ram, root, to, data)
    }
}

/// Storing `data` in a user buffer of some alignment: memory, and whether it was
/// stored.
pub open spec fn stored(mmu: &Mmu, db: &VadDatabase, to: u64, data: Seq<u8>, align: u64) -> (
    Seq<u8>,
    bool,
) {
    stored_in(mmu.ram(), mmu.root(), db, to, data, align)
}

/// Store bytes in a user buffer that must be aligned to `align`.
pub fn store(mmu: &mut Mmu, db: &VadDatabase, to: u64, data: &[u8], align: u64) -> (ok: bool)
    requires
        db.wf(),
        old(mmu).phys.wf(),
        exists|n: nat| n < 64 && align == #[trigger] pow2(n),
    ensures
        final(mmu).phys.wf(),
        final(mmu).same_registers(old(mmu)),
        ({
            let (ram, all) = stored(old(mmu), db, to, data@, align);
            final(mmu).phys@ == (PhysState { ram, ..old(mmu).phys@ }) && ok == all
        }),
{
    if probe_for_write(mmu, db, to, data.len(), align).is_err() {
        assert(mmu.phys@ =~= PhysState { ram: mmu.phys@.ram, ..mmu.phys@ });
        return false;
    }
    write_user(mmu, to, data)
}

/// The `n` bytes of a user buffer of some alignment, if they can be read.
pub open spec fn fetched(mmu: &Mmu, db: &VadDatabase, from: u64, n: int, align: u64) -> Option<
    Seq<u8>,
> {
    if probed(mmu, db, from, n, align) is Err {
        None
    } else {
        user_bytes(mmu.ram(), mmu.root(), from, n)
    }
}

/// Fetch bytes from a user buffer that must be aligned to `align`.
pub fn fetch(mmu: &Mmu, db: &VadDatabase, from: u64, n: usize, align: u64) -> (r: Option<Vec<u8>>)
    requires
        db.wf(),
        exists|k: nat| k < 64 && align == #[trigger] pow2(k),
    ensures
        match r {
            Some(v) => fetched(mmu, db, from, n as int, align) == Some(v@),
            None => fetched(mmu, db, from, n as int, align) is None,
        },
        r matches Some(v) ==> v@.len() == n,
{
    if probe_for_read(mmu, db, from, n, align).is_err() {
        return None;
    }
    read_user(mmu, from, n)
}

/// `pa` holds one of the `n` bytes at `va`.
pub open spec fn holds_byte(ram: Seq<u8>, root: u64, va: u64, n: int, pa: int) -> bool {
    exists|i: int| 0 <= i < n && #[trigger] reached(ram, root, va, i, true) == Some(pa)
}

/// Two memories differ at most in the `n` bytes at `va`.
pub open spec fn differ_in(ram: Seq<u8>, other: Seq<u8>, root: u64, va: u64, n: int) -> bool {
    &&& other.len() == ram.len()
    &&& forall|pa: int|
        0 <= pa < ram.len() && !holds_byte(ram, root, va, n, pa) ==> #[trigger] other[pa] == ram[pa]
}

/// The `n` bytes at `va` are no part of the tables they are reached through, and no
/// two of them are the same byte of memory.
pub open spec fn plain_buffer(ram: Seq<u8>, root: u64, va: u64, n: int) -> bool {
    &&& forall|other: Seq<u8>, i: int, w: bool|
        differ_in(ram, other, root, va, n) && 0 <= i < n ==> #[trigger] reached(
            other,
            root,
            va,
            i,
            w,
        ) == reached(ram, root, va, i, w)
    &&& forall|i: int, j: int|
        #![trigger reached(ram, root, va, i, true), reached(ram, root, va, j, true)]
        0 <= i < j < n && reached(ram, root, va, i, true) is Some ==> reached(
            ram,
            root,
            va,
            i,
            true,
        ) != reached(ram, root, va, j, true)
}

proof fn lemma_written_bytes(ram: Seq<u8>, root: u64, va: u64, data: Seq<u8>, n: int)
    requires
        data.len() <= n,
        plain_buffer(ram, root, va, n),
        user_written(ram, root, va, data).1,
    ensures
        differ_in(ram, user_written(ram, root, va, data).0, root, va, n),
        forall|i: int|
            0 <= i < data.len() ==> (#[trigger] reached(ram, root, va, i, true)) is Some
                && user_written(ram, root, va, data).0[reached(ram, root, va, i, true)->0]
                == data[i],
    decreases data.len(),
{
    if data.len() > 0 {
        let init = data.drop_last();
        let last = data.len() - 1;
        let (r, ok) = user_written(ram, root, va, init);
        lemma_written_bytes(ram, root, va, init, n);
        assert(reached(r, root, va, last, true) == reached(ram, root, va, last, true));
        let pa = reached(ram, root, va, last, true)->0;
        let now = r.update(pa, data.last());
        assert(user_written(ram, root, va, data).0 == now);
        assert(holds_byte(ram, root, va, n, pa));
        assert forall|q: int|
            0 <= q < ram.len() && !holds_byte(ram, root, va, n, q) implies #[trigger] now[q]
            == ram[q] by {
            assert(r[q] == ram[q]);
        }
        assert forall|i: int| 0 <= i < data.len() implies (#[trigger] reached(
            ram,
            root,
            va,
            i,
            true,
        )) is Some && now[reached(ram, root, va, i, true)->0] == data[i] by {
            if i < last {
                assert(reached(ram, root, va, i, true) != reached(ram, root, va, last, true));
                assert(init[i] == data[i]);
            }
        }
    }
}

proof fn lemma_read_bytes(ram: Seq<u8>, root: u64, va: u64, data: Seq<u8>)
    requires
        forall|i: int|
            0 <= i < data.len() ==> (#[trigger] reached(ram, root, va, i, false)) is Some
                && ram[reached(ram, root, va, i, false)->0] == data[i],
    ensures
        user_bytes(ram, root, va, data.len() as int) == Some(data),
    decreases data.len(),
{
    if data.len() > 0 {
        let init = data.drop_last();
        assert forall|i: int| 0 <= i < init.len() implies (#[trigger] reached(
            ram,
            root,
            va,
            i,
            false,
        )) is Some && ram[reached(ram, root, va, i, false)->0] == init[i] by {
            assert(init[i] == data[i]);
        }
        lemma_read_bytes(ram, root, va, init);
        assert(reached(ram, root, va, data.len() - 1, false) is Some);
        assert(init.push(data.last()) =~= data);
    } else {
        assert(data =~= Seq::<u8>::empty());
    }
}

/// What was written to a user buffer is read back from it.
pub proof fn a_user_write_reads_back(ram: Seq<u8>, root: u64, va: u64, data: Seq<u8>)
    requires
        plain_buffer(ram, root, va, data.len() as int),
        user_written(ram, root, va, data).1,
    ensures
        user_bytes(user_written(ram, root, va, data).0, root, va, data.len() as int) == Some(data),
{
    let now = user_written(ram, root, va, data).0;
    lemma_written_bytes(ram, root, va, data, data.len() as int);
    assert forall|i: int| 0 <= i < data.len() implies (#[trigger] reached(
        now,
        root,
        va,
        i,
        false,
    )) is Some && now[reached(now, root, va, i, false)->0] == data[i] by {
        assert(reached(ram, root, va, i, true) is Some);
        assert(reached(now, root, va, i, false) == reached(ram, root, va, i, false));
        assert(reached(ram, root, va, i, false) == reached(ram, root, va, i, true));
    }
    lemma_read_bytes(now, root, va, data);
}

/// What is read from a program is what stands where its addresses lead, byte by byte.
pub proof fn a_read_gives_what_is_mapped(ram: Seq<u8>, root: u64, va: u64, n: int, i: int)
    requires
        0 <= i < n,
        user_bytes(ram, root, va, n) is Some,
    ensures
        user_bytes(ram, root, va, n)->0.len() == n,
        va + i <= u64::MAX,
        translate(ram, root, (va + i) as u64) is Some,
        user_bytes(ram, root, va, n)->0[i] == ram[translate(ram, root, (va + i) as u64)->0 as int],
    decreases n,
{
    if i < n - 1 {
        a_read_gives_what_is_mapped(ram, root, va, n - 1, i);
    } else {
        lemma_user_len(ram, root, va, n - 1);
    }
    lemma_user_len(ram, root, va, n);
}

proof fn lemma_user_len(ram: Seq<u8>, root: u64, va: u64, n: int)
    requires
        0 <= n,
        user_bytes(ram, root, va, n) is Some,
    ensures
        user_bytes(ram, root, va, n)->0.len() == n,
    decreases n,
{
    if n > 0 {
        lemma_user_len(ram, root, va, n - 1);
    }
}

/// Memory that is not there cannot be read.
pub proof fn what_is_not_there_cannot_be_read(ram: Seq<u8>, root: u64, va: u64, n: int, i: int)
    requires
        0 <= i < n,
        va + i <= u64::MAX ==> translate(ram, root, (va + i) as u64) is None,
    ensures
        user_bytes(ram, root, va, n) is None,
    decreases n,
{
    if i < n - 1 {
        what_is_not_there_cannot_be_read(ram, root, va, n - 1, i);
    }
}

/// A write to memory that is not there, or that cannot be written, fails, and where it fails
/// at its first byte nothing changes.
pub proof fn what_is_not_writable_is_not_written(ram: Seq<u8>, root: u64, va: u64, data: Seq<u8>)
    requires
        data.len() > 0,
        translate(ram, root, va) is None || !walk_writable(ram, root, va),
    ensures
        user_written(ram, root, va, data) == (ram, false),
    decreases data.len(),
{
    if data.len() > 1 {
        what_is_not_writable_is_not_written(ram, root, va, data.drop_last());
    } else {
        reveal_with_fuel(user_written, 2);
        assert(data.drop_last().len() == 0);
        assert(reached(ram, root, va, 0, true) is None);
    }
}

/// A page is writable where every table on the way to it says so.
pub proof fn every_table_must_allow_writing(ram: Seq<u8>, root: u64, va: u64)
    requires
        pml4e(ram, root, va) & 0x2 == 0 || pdpte(ram, root, va) & 0x2 == 0 || (!large(
            pdpte(ram, root, va),
        ) && pde(ram, root, va) & 0x2 == 0) || (!large(pdpte(ram, root, va)) && !large(
            pde(ram, root, va),
        ) && pte(ram, root, va) & 0x2 == 0),
    ensures
        !walk_writable(ram, root, va),
{
}

/// What fails its probe is neither read nor written.
pub proof fn a_probe_comes_first(
    mmu: &Mmu,
    db: &VadDatabase,
    at: u64,
    data: Seq<u8>,
    n: int,
    align: u64,
)
    ensures
        probed(mmu, db, at, data.len() as int, align) is Err ==> stored(mmu, db, at, data, align)
            == (mmu.ram(), false),
        probed(mmu, db, at, n, align) is Err ==> fetched(mmu, db, at, n, align) is None,
        probed(mmu, db, at, data.len() as int, align) is Ok ==> stored(mmu, db, at, data, align)
            == user_written(mmu.ram(), mmu.root(), at, data),
        probed(mmu, db, at, n, align) is Ok ==> fetched(mmu, db, at, n, align) == user_bytes(
            mmu.ram(),
            mmu.root(),
            at,
            n,
        ),
{
}

/// A copy ends as its probe does, waits for the page file where a page is out, and else says
/// whether it went through.
pub proof fn a_copy_ends_as_its_probe_does(
    vads: &VadDatabase,
    st: PhysState,
    pf: PageFileState,
    root: u64,
    at: u64,
    data: Seq<u8>,
)
    ensures
        ({
            let n = data.len() as int;
            let to = copied_to_user(vads, st, pf, root, at, data);
            let from = copied_from_user(vads, st, pf, root, at, n);
            let b = buffer_brought_in(vads.of(root), st, pf, root, at, n);
            match probed_in(st.ram, root, vads, at, n, 1) {
                Err(e) => to == (st, pf, Seq::<(u64, u64)>::empty(), CopyStep::<()>::Done(Err(e)))
                    && from == (
                    st,
                    pf,
                    Seq::<(u64, u64)>::empty(),
                    CopyStep::<Seq<u8>>::Done(Err(e)),
                ),
                Ok(_) => match b.pending {
                    Some(p) => to.3 == CopyStep::<()>::Read(p) && from.3 == CopyStep::<
                        Seq<u8>,
                    >::Read(p) && to.0 == b.phys && from.0 == b.phys,
                    None => {
                        &&& to.0.ram == user_written(b.phys.ram, root, at, data).0
                        &&& user_written(b.phys.ram, root, at, data).1 ==> to.3 == CopyStep::<
                            (),
                        >::Done(Ok(()))
                        &&& !user_written(b.phys.ram, root, at, data).1 ==> to.3 == CopyStep::<
                            (),
                        >::Done(Err(NtStatus(0xC000_0005)))
                        &&& user_bytes(b.phys.ram, root, at, n) is None ==> from.3 == CopyStep::<
                            Seq<u8>,
                        >::Done(Err(NtStatus(0xC000_0005)))
                        &&& user_bytes(b.phys.ram, root, at, n) matches Some(s) ==> from.3
                            == CopyStep::<Seq<u8>>::Done(Ok(s))
                    },
                },
            }
        }),
{
}

} // verus!
