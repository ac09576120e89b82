//! Bringing user buffers into memory.
//!
//! A committed page that was never touched, or was evicted, is a valid part of a buffer:
//! its first access faults and the page comes in. A copy to or from user memory therefore
//! brings the pages of its buffer in first. A page on disk has to be read by the caller:
//! the copy then stops with the transfer to make and is begun again after it.
use crate::mm::isolation::{
    clear_path, lemma_apart, lemma_walk, mapping_a_page_moves_no_other, same_page, spaces_sound, table_at,
    taking_a_frame_moves_no_page, USER_END,
};
use crate::mm::pageout::{PageFile, PageFileState, PageRead};
use crate::mm::phys::{alloc_page, PhysState};
use crate::mm::vad::{protection, resolved, vad_resolve, Resolve, Vad, VadDatabase};
use crate::mm::virt::{backed_leaf, map_page, translate, Mmu};
use vstd::prelude::*;

verus! {

/// A page to read back and the protection to map it with.
#[derive(Debug, Clone, Copy, PartialEq, Eq)]
pub struct ReadBack {
    pub read: PageRead,
    pub writable: bool,
    pub executable: bool,
}

/// What bringing a range in comes to.
#[verifier::ext_equal]
pub struct BroughtIn {
    pub phys: PhysState,
    pub pf: PageFileState,
    /// Pages that must be evicted for those that came in.
    pub victims: Seq<(u64, u64)>,
    /// The page that has to be read first, if there is one.
    pub pending: Option<ReadBack>,
    /// Nothing was left to read, and there was memory for every page.
    pub complete: bool,
}

/// Bringing in the committed pages from `page` on that lie below `end`, one after the
/// other, up to the first that must be read or that there is no memory for.
pub open spec fn brought_in(
    vads: Seq<Vad>,
    st: PhysState,
    pf: PageFileState,
    root: u64,
    page: int,
    end: int,
) -> BroughtIn
    decreases end + 4096 - page,
{
    if page >= end {
        BroughtIn { phys: st, pf, victims: Seq::empty(), pending: None, complete: true }
    } else if protection(vads, page) is None {
        brought_in(vads, st, pf, root, page + 4096, end)
    } else {
        match resolved(vads, st, pf, root, page as u64) {
            (s1, p1, Resolve::Done(victim)) => {
                let rest = brought_in(vads, s1, p1, root, page + 4096, end);
                BroughtIn {
                    victims: match victim {
                        Some(v) => seq![v] + rest.victims,
                        None => rest.victims,
                    },
                    ..rest
                }
            },
            (s1, p1, Resolve::ReadBack(read, writable, executable)) => BroughtIn {
                phys: s1,
                pf: p1,
                victims: Seq::empty(),
                pending: Some(ReadBack { read, writable, executable }),
                complete: false,
            },
            (s1, p1, Resolve::Fault) => BroughtIn {
                phys: s1,
                pf: p1,
                victims: Seq::empty(),
                pending: None,
                complete: false,
            },
        }
    }
}

/// Bringing in the buffer of `length` bytes at `address`.
pub open spec fn buffer_brought_in(
    vads: Seq<Vad>,
    st: PhysState,
    pf: PageFileState,
    root: u64,
    address: u64,
    length: int,
) -> BroughtIn {
    if length == 0 {
        BroughtIn { phys: st, pf, victims: Seq::empty(), pending: None, complete: true }
    } else {
        brought_in(vads, st, pf, root, (address as int / 4096) * 4096, address + length)
    }
}

/// Bring a buffer of the current address space into memory. Pages that must be evicted
/// for it are added to `victims`. Returns the page that has to be read first, if there is
/// one; after it was read the call is made again.
pub fn make_resident(
    db: &VadDatabase,
    mmu: &mut Mmu,
    pf: &mut PageFile,
    address: u64,
    length: usize,
    victims: &mut Vec<(u64, u64)>,
) -> (r: Option<ReadBack>)
    requires
        db.wf(),
        old(mmu).phys.wf(),
        old(pf).wf(),
        address + length <= u64::MAX,
    ensures
        final(mmu).phys.wf(),
        final(pf).wf(),
        final(mmu).same_registers(old(mmu)),
        ({
            let b = buffer_brought_in(
                db.of(old(mmu).root()),
                old(mmu).phys@,
                old(pf)@,
                old(mmu).root(),
                address,
                length as int,
            );
            &&& final(mmu).phys@ == b.phys
            &&& final(pf)@ == b.pf
            &&& final(victims)@ == old(victims)@ + b.victims
            &&& r == b.pending
        }),
{
    if length == 0 {
        assert(victims@ =~= old(victims)@ + Seq::empty());
        return None;
    }
    let ghost root = mmu.root();
    let ghost vads = db.of(root);
    let ghost st = mmu.phys@;
    let ghost p0 = pf@;
    let ghost v0 = victims@;
    let end: u64 = address + length as u64;
    let mut page: u64 = address / 4096 * 4096;
    let ghost first = page as int;
    let ghost whole = brought_in(vads, st, p0, root, first, end as int);
    assert(victims@ =~= v0 + Seq::empty());
    while page < end
        invariant
            db.wf(),
            mmu.phys.wf(),
            pf.wf(),
            mmu.same_registers(old(mmu)),
            root == old(mmu).root(),
            mmu.root() == root,
            vads == db.of(root),
            v0 == old(victims)@,
            whole == buffer_brought_in(
                db.of(old(mmu).root()),
                old(mmu).phys@,
                old(pf)@,
                old(mmu).root(),
                address,
                length as int,
            ),
            page % 4096 == 0,
            ({
                let rest = brought_in(vads, mmu.phys@, pf@, root, page as int, end as int);
                &&& whole.phys == rest.phys
                &&& whole.pf == rest.pf
                &&& whole.pending == rest.pending
                &&& v0 + whole.victims == victims@ + rest.victims
            }),
        decreases end + 4096 - page,
    {
        let ghost before = victims@;
        assert((page / 4096) * 4096 == page);
        if db.committed_at(mmu, page) {
            match vad_resolve(db, mmu, pf, page) {
                Resolve::Done(victim) => {
                    if let Some(v) = victim {
                        victims.push(v);
                    }
                },
                Resolve::ReadBack(read, writable, executable) => {
                    assert(victims@ =~= v0 + whole.victims);
                    return Some(ReadBack { read, writable, executable });
                },
                Resolve::Fault => {
                    assert(victims@ =~= v0 + whole.victims);
                    return None;
                },
            }
        }
        proof {
            let rest = brought_in(vads, mmu.phys@, pf@, root, page + 4096, end as int);
            assert(v0 + whole.victims =~= victims@ + rest.victims);
        }
        if page > u64::MAX - 4096 {
            assert(victims@ =~= v0 + whole.victims);
            return None;
        }
        page = page + 4096;
    }
    assert(victims@ =~= v0 + whole.victims);
    None
}

/// Without large pages on the way, a page is backed exactly when it translates.
proof fn lemma_backed(ram: Seq<u8>, root: u64, va: u64)
    requires
        clear_path(ram, root, va),
    ensures
        backed_leaf(ram, root, va) is Some <==> translate(ram, root, va) is Some,
{
    lemma_walk(ram, root, va);
    assert(table_at(ram, root, va, 4) is Some);
    if table_at(ram, root, va, 3) is Some {
        if table_at(ram, root, va, 2) is Some {
        }
    }
}

/// What resolving one page does to the others.
proof fn lemma_resolved(
    vads: Seq<Vad>,
    st: PhysState,
    pf: PageFileState,
    roots: Set<u64>,
    root: u64,
    page: u64,
)
    requires
        spaces_sound(st, roots),
        roots.contains(root),
        page < USER_END,
        clear_path(st.ram, root, page),
        protection(vads, page as int) is Some,
        resolved(vads, st, pf, root, page).2 is Done,
    ensures
        ({
            let s1 = resolved(vads, st, pf, root, page).0;
            &&& spaces_sound(s1, roots)
            &&& translate(s1.ram, root, page) is Some
            &&& forall|va2: u64|
                !same_page(page, va2) ==> #[trigger] translate(s1.ram, root, va2) == translate(
                    st.ram,
                    root,
                    va2,
                )
            &&& forall|va2: u64|
                clear_path(st.ram, root, va2) ==> #[trigger] clear_path(s1.ram, root, va2)
        }),
{
    lemma_backed(st.ram, root, page);
    if backed_leaf(st.ram, root, page) is None {
        let (w, x) = protection(vads, page as int)->Some_0;
        let (s1, pa) = alloc_page(st);
        taking_a_frame_moves_no_page(st, roots);
        assert(clear_path(s1.ram, root, page));
        mapping_a_page_moves_no_other(s1, roots, root, page, pa->Some_0, w, x);
        let s2 = map_page(s1, root, page, pa->Some_0, w, x).0;
        assert forall|va2: u64| !same_page(page, va2) implies #[trigger] translate(
            s2.ram,
            root,
            va2,
        ) == translate(st.ram, root, va2) by {
            assert(translate(s1.ram, root, va2) == translate(st.ram, root, va2));
        }
        assert forall|va2: u64| clear_path(st.ram, root, va2) implies #[trigger] clear_path(
            s2.ram,
            root,
            va2,
        ) by {
            assert(clear_path(s1.ram, root, va2));
        }
    }
}

proof fn lemma_next_page(page: int, q: u64)
    requires
        page % 4096 == 0,
        q % 4096 == 0,
        page <= q,
    ensures
        q == page || page + 4096 <= q,
{
}

/// What resolving the page at `page` does to the page at `q`.
proof fn lemma_resolved_at(
    vads: Seq<Vad>,
    st: PhysState,
    pf: PageFileState,
    roots: Set<u64>,
    root: u64,
    page: u64,
    q: u64,
)
    requires
        spaces_sound(st, roots),
        roots.contains(root),
        page < USER_END,
        page % 4096 == 0,
        q < USER_END,
        q % 4096 == 0,
        clear_path(st.ram, root, page),
        clear_path(st.ram, root, q),
        protection(vads, page as int) is Some,
        resolved(vads, st, pf, root, page).2 is Done,
    ensures
        ({
            let s1 = resolved(vads, st, pf, root, page).0;
            &&& clear_path(s1.ram, root, q)
            &&& q == page || backed_leaf(st.ram, root, q) is Some ==> backed_leaf(
                s1.ram,
                root,
                q,
            ) is Some
        }),
{
    let s1 = resolved(vads, st, pf, root, page).0;
    lemma_resolved(vads, st, pf, roots, root, page);
    assert(clear_path(s1.ram, root, q));
    lemma_backed(st.ram, root, q);
    lemma_backed(s1.ram, root, q);
    if q != page {
        assert(page as int / 4096 != q as int / 4096);
        lemma_apart(page, q);
        assert(translate(s1.ram, root, q) == translate(st.ram, root, q));
    }
}

/// Once a range was brought in, every committed page of it is there, and a page that was
/// there before still is. The address spaces stay sound.
#[verifier::spinoff_prover]
#[verifier::rlimit(30)]
pub proof fn a_range_brought_in_is_there(
    vads: Seq<Vad>,
    st: PhysState,
    pf: PageFileState,
    roots: Set<u64>,
    root: u64,
    page: int,
    end: int,
    q: u64,
)
    requires
        spaces_sound(st, roots),
        roots.contains(root),
        0 <= page,
        page % 4096 == 0,
        end <= USER_END,
        forall|va: u64| page <= va < end ==> #[trigger] clear_path(st.ram, root, va),
        brought_in(vads, st, pf, root, page, end).complete,
        q < USER_END,
        q % 4096 == 0,
        clear_path(st.ram, root, q),
    ensures
        ({
            let b = brought_in(vads, st, pf, root, page, end);
            &&& spaces_sound(b.phys, roots)
            &&& clear_path(b.phys.ram, root, q)
            &&& page <= q < end && protection(vads, q as int) is Some ==> backed_leaf(
                b.phys.ram,
                root,
                q,
            ) is Some
            &&& backed_leaf(st.ram, root, q) is Some ==> backed_leaf(b.phys.ram, root, q) is Some
        }),
    decreases end + 4096 - page,
{
    if page < end {
        if protection(vads, page) is None {
            a_range_brought_in_is_there(vads, st, pf, roots, root, page + 4096, end, q);
            if page <= q {
                lemma_next_page(page, q);
            }
        } else {
            let p = page as u64;
            let (s1, p1, r) = resolved(vads, st, pf, root, p);
            assert(clear_path(st.ram, root, p));
            lemma_resolved(vads, st, pf, roots, root, p);
            assert forall|va: u64| page + 4096 <= va < end implies #[trigger] clear_path(
                s1.ram,
                root,
                va,
            ) by {
                assert(clear_path(st.ram, root, va));
            }
            lemma_resolved_at(vads, st, pf, roots, root, p, q);
            a_range_brought_in_is_there(vads, s1, p1, roots, root, page + 4096, end, q);
            if page <= q {
                lemma_next_page(page, q);
            }
        }
    }
}

/// Bringing a buffer in starts with the page of its first byte.
pub proof fn a_buffer_is_brought_in_from_its_first_page(
    vads: Seq<Vad>,
    st: PhysState,
    pf: PageFileState,
    root: u64,
    address: u64,
    length: int,
)
    ensures
        length > 0 ==> exists|page: int|
            page % 4096 == 0 && page <= address < page + 4096 && buffer_brought_in(
                vads,
                st,
                pf,
                root,
                address,
                length,
            ) == #[trigger] brought_in(vads, st, pf, root, page, address + length),
        buffer_brought_in(vads, st, pf, root, address, 0).phys == st,
        buffer_brought_in(vads, st, pf, root, address, 0).complete,
{
    let page = (address as int / 4096) * 4096;
    if length > 0 {
        assert(buffer_brought_in(vads, st, pf, root, address, length) == brought_in(
            vads,
            st,
            pf,
            root,
            page,
            address + length,
        ));
    }
}

/// It goes on page by page; a page that belongs to no range is passed over.
pub proof fn pages_of_no_range_are_passed_over(
    vads: Seq<Vad>,
    st: PhysState,
    pf: PageFileState,
    root: u64,
    page: int,
    end: int,
)
    requires
        page >= end || protection(vads, page) is None,
    ensures
        page >= end ==> brought_in(vads, st, pf, root, page, end).complete && brought_in(
            vads,
            st,
            pf,
            root,
            page,
            end,
        ).phys == st,
        page < end ==> brought_in(vads, st, pf, root, page, end) == brought_in(
            vads,
            st,
            pf,
            root,
            page + 4096,
            end,
        ),
{
}

/// A page that must be read back stops the rest until it is there.
pub proof fn a_page_that_is_out_stops_the_rest(
    vads: Seq<Vad>,
    st: PhysState,
    pf: PageFileState,
    root: u64,
    page: int,
    end: int,
)
    requires
        page < end,
        protection(vads, page) is Some,
        !(resolved(vads, st, pf, root, page as u64).2 is Done),
    ensures
        !brought_in(vads, st, pf, root, page, end).complete,
        brought_in(vads, st, pf, root, page, end).phys == resolved(
            vads,
            st,
            pf,
            root,
            page as u64,
        ).0,
        brought_in(vads, st, pf, root, page, end).pending == match resolved(
            vads,
            st,
            pf,
            root,
            page as u64,
        ).2 {
            Resolve::ReadBack(read, writable, executable) => Some(
                ReadBack { read, writable, executable },
            ),
            _ => None,
        },
{
}

/// After a page that is there, or was made, the next one is 4096 bytes on.
pub proof fn a_page_that_is_there_is_followed_by_the_next(
    vads: Seq<Vad>,
    st: PhysState,
    pf: PageFileState,
    root: u64,
    page: int,
    end: int,
    victim: Option<(u64, u64)>,
)
    requires
        page < end,
        protection(vads, page) is Some,
        resolved(vads, st, pf, root, page as u64).2 == Resolve::Done(victim),
    ensures
        ({
            let (s1, p1, done) = resolved(vads, st, pf, root, page as u64);
            let rest = brought_in(vads, s1, p1, root, page + 4096, end);
            let b = brought_in(vads, st, pf, root, page, end);
            &&& b.phys == rest.phys
            &&& b.pf == rest.pf
            &&& b.pending == rest.pending
            &&& b.complete == rest.complete
            &&& victim is None ==> b.victims == rest.victims
            &&& victim is Some ==> b.victims == seq![victim->0] + rest.victims
        }),
{
}

} // verus!
