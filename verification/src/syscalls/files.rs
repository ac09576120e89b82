//! File and directory services.
//!
//! A path leads to the host drive `H:`, served over a transport, or to the RAM
//! volume. The routines here read the arguments, tell the two apart, match
//! wildcards and lay out what goes back to the caller; looking a file up and
//! moving its bytes is outside.
use crate::bytes::{
    bytes16, bytes32, bytes64, get16, get32, get64, lemma_bytes16, lemma_bytes32, lemma_get16_in,
    lemma_get32_in, put16, put32, u16le, u64le,
};
use crate::fields::{set16, set32};
use crate::ke::pcr::current_of;
use crate::ke::scheduler::Dispatcher;
use crate::ldr::loaded::{lower_byte, same_fold, to_lower};
use crate::ldr::pe::is_utf8;
use crate::mm::phys::PhysState;
use crate::mm::probe::{all_committed, probe_for_read, probe_for_write, probed, probed_in};
use crate::mm::user::{
    fetch, fetched, lemma_small_powers, store, stored, stored_in, user_written, write_user,
};
use crate::mm::vad::VadDatabase;
use crate::mm::virt::{user_mapped, Mmu};
use crate::ob::handle::{
    object_of, ob_create_handle, ob_reference_object_by_handle, opened, HandleEntry, HandleTables,
};
use crate::ob::{alive, refs, ObjectManager};
use crate::rtl::NtStatus;
use crate::syscalls::buffers::{read_user_path, user_path, word_bytes};
use vstd::prelude::*;
use vstd::slice::slice_subrange;
use vstd::utf8::valid_utf8;

verus! {

/// The largest transfer a service accepts.
pub const MAX_IO_LEN: u64 = 0x100_0000;

/// Units of the longest path.
pub const MAX_PATH: usize = 260;

/// `GetFileAttributes` on a path that does not exist.
pub const INVALID_FILE_ATTRIBUTES: u64 = 0xFFFF_FFFF;

/// `GetFileSize` on a handle that is not a file.
pub const INVALID_FILE_SIZE: u64 = 0xFFFF_FFFF;

/// Attributes of a plain file.
pub const FILE_ATTRIBUTE_NORMAL: u32 = 0x80;

// ---------------------------------------------------------------------------
// Names
// ---------------------------------------------------------------------------
/// Two bytes are equal up to ASCII case.
pub open spec fn same_letter(a: u8, b: u8) -> bool {
    lower_byte(a) == lower_byte(b)
}

fn letters_match(a: u8, b: u8) -> (r: bool)
    ensures
        r == same_letter(a, b),
{
    to_lower(a) == to_lower(b)
}

/// A byte that continues a character of several bytes.
pub open spec fn continues(b: u8) -> bool {
    0x80 <= b < 0xC0
}

/// The first place from `e` on at which a character starts.
pub open spec fn char_end(name: Seq<u8>, e: int) -> int
    decreases name.len() - e,
{
    if 0 <= e < name.len() && continues(name[e]) {
        char_end(name, e + 1)
    } else {
        e
    }
}

/// A name matches a pattern: `*` stands for any run, `?` for any one character,
/// everything else for itself up to case.
pub open spec fn glob(pat: Seq<u8>, name: Seq<u8>) -> bool
    decreases pat.len(),
{
    if pat.len() == 0 {
        name.len() == 0
    } else if pat[0] == 0x2A {
        exists|k: int| 0 <= k <= name.len() && glob(pat.skip(1), #[trigger] name.skip(k))
    } else if name.len() == 0 {
        false
    } else if pat[0] == 0x3F {
        glob(pat.skip(1), name.skip(char_end(name, 1)))
    } else {
        same_letter(pat[0], name[0]) && glob(pat.skip(1), name.skip(1))
    }
}

/// A host name matches a pattern; an empty pattern matches everything.
pub open spec fn host_match(pat: Seq<u8>, name: Seq<u8>) -> bool {
    pat.len() == 0 || glob(pat, name)
}

/// The first place from `e` on at which a character starts.
fn next_char(name: &[u8], from: usize, Ghost(base): Ghost<int>) -> (r: usize)
    requires
        0 <= base <= from <= name@.len(),
    ensures
        from <= r <= name@.len(),
        r - base == char_end(name@.skip(base), from - base),
{
    let ghost n = name@.skip(base);
    let mut e: usize = from;
    while e < name.len() && 0x80 <= name[e] && name[e] < 0xC0
        invariant
            0 <= base <= from <= e <= name@.len(),
            n == name@.skip(base),
            char_end(n, from - base) == char_end(n, e - base),
        decreases name@.len() - e,
    {
        assert(n[e - base] == name@[e as int]);
        e = e + 1;
    }
    if e < name.len() {
        assert(n[e - base] == name@[e as int]);
    }
    e
}

fn glob_from(pat: &[u8], i: usize, name: &[u8], j: usize) -> (r: bool)
    requires
        i <= pat@.len(),
        j <= name@.len(),
    ensures
        r == glob(pat@.skip(i as int), name@.skip(j as int)),
    decreases pat@.len() - i,
{
    let ghost p = pat@.skip(i as int);
    let ghost n = name@.skip(j as int);
    if i >= pat.len() {
        return j >= name.len();
    }
    assert(p[0] == pat@[i as int]);
    assert(p.skip(1) =~= pat@.skip(i + 1));
    if pat[i] == 0x2A {
        let len: usize = pat.len();
        let mut k: usize = j;
        while k <= name.len()
            invariant_except_break
                forall|t: int| 0 <= t < k - j ==> !glob(p.skip(1), #[trigger] n.skip(t)),
            invariant
                i < len,
                len == pat@.len(),
                j <= k <= name@.len(),
                p == pat@.skip(i as int),
                n == name@.skip(j as int),
                p.skip(1) == pat@.skip(i + 1),
                p.len() > 0,
                p[0] == 0x2A,
            ensures
                forall|t: int| 0 <= t <= n.len() ==> !glob(p.skip(1), #[trigger] n.skip(t)),
            decreases name@.len() + 1 - k,
        {
            assert(n.skip(k - j) =~= name@.skip(k as int));
            if glob_from(pat, i + 1, name, k) {
                assert(glob(p.skip(1), n.skip(k - j)));
                return true;
            }
            if k >= name.len() {
                break ;
            }
            k = k + 1;
        }
        return false;
    }
    if j >= name.len() {
        return false;
    }
    assert(n[0] == name@[j as int]);
    if pat[i] == 0x3F {
        let e: usize = next_char(name, j + 1, Ghost(j as int));
        assert(n.skip(e - j) =~= name@.skip(e as int));
        return glob_from(pat, i + 1, name, e);
    }
    assert(n.skip(1) =~= name@.skip(j + 1));
    letters_match(pat[i], name[j]) && glob_from(pat, i + 1, name, j + 1)
}

/// Match a host name against a pattern, case ignored.
pub fn host_glob(pat: &[u8], name: &[u8]) -> (r: bool)
    ensures
        r == host_match(pat@, name@),
{
    assert(pat@.skip(0) =~= pat@);
    assert(name@.skip(0) =~= name@);
    pat.len() == 0 || glob_from(pat, 0, name, 0)
}

/// The place of the `index`-th name that matches, from `i` on.
pub open spec fn match_at(pat: Seq<u8>, names: Seq<Seq<u8>>, index: int, i: int) -> Option<int>
    decreases names.len() - i,
{
    if i < 0 || i >= names.len() {
        None
    } else if host_match(pat, names[i]) {
        if index == 0 {
            Some(i)
        } else {
            match_at(pat, names, index - 1, i + 1)
        }
    } else {
        match_at(pat, names, index, i + 1)
    }
}

/// The names of a listing.
pub open spec fn listing(names: Seq<Vec<u8>>) -> Seq<Seq<u8>> {
    Seq::new(names.len(), |i: int| names[i]@)
}

/// The `index`-th name of a listing that matches a pattern.
pub fn nth_match(pat: &[u8], names: &Vec<Vec<u8>>, index: u64) -> (r: Option<usize>)
    ensures
        match r {
            Some(i) => match_at(pat@, listing(names@), index as int, 0) == Some(i as int) && i
                < names@.len(),
            None => match_at(pat@, listing(names@), index as int, 0) is None,
        },
{
    let mut left: u64 = index;
    let mut i: usize = 0;
    while i < names.len()
        invariant
            i <= names@.len(),
            match_at(pat@, listing(names@), index as int, 0) == match_at(
                pat@,
                listing(names@),
                left as int,
                i as int,
            ),
        decreases names@.len() - i,
    {
        assert(listing(names@)[i as int] == names@[i as int]@);
        if host_glob(pat, &names[i]) {
            if left == 0 {
                return Some(i);
            }
            left = left - 1;
        }
        i = i + 1;
    }
    None
}

/// A path starts with the NT prefix of DOS paths, `\??\`.
pub open spec fn has_nt_prefix(p: Seq<u8>) -> bool {
    p.len() >= 4 && p[0] == 0x5C && p[1] == 0x3F && p[2] == 0x3F && p[3] == 0x5C
}

/// A path without its NT prefix.
pub open spec fn bare(p: Seq<u8>) -> Seq<u8> {
    if has_nt_prefix(p) {
        p.skip(4)
    } else {
        p
    }
}

/// The part of a path after `H:\` or `H:/`, if it starts with one.
pub open spec fn host_rest(p: Seq<u8>) -> Option<Seq<u8>> {
    if p.len() >= 3 && same_letter(p[0], 0x68) && p[1] == 0x3A && (p[2] == 0x5C || p[2] == 0x2F) {
        Some(p.skip(3))
    } else {
        None
    }
}

fn strip_nt_prefix(p: &[u8]) -> (r: &[u8])
    ensures
        r@ == bare(p@),
{
    let n: usize = p.len();
    if n >= 4 && p[0] == 0x5C && p[1] == 0x3F && p[2] == 0x3F && p[3] == 0x5C {
        let r = slice_subrange(p, 4, n);
        assert(r@ =~= bare(p@));
        r
    } else {
        p
    }
}

/// Strip a leading host drive; none for any other path.
pub fn strip_host_drive(p: &[u8]) -> (r: Option<&[u8]>)
    ensures
        match r {
            Some(s) => host_rest(p@) == Some(s@),
            None => host_rest(p@) is None,
        },
{
    let n: usize = p.len();
    if n >= 3 && letters_match(p[0], 0x68) && p[1] == 0x3A && (p[2] == 0x5C || p[2] == 0x2F) {
        let r = slice_subrange(p, 3, n);
        assert(r@ =~= p@.skip(3));
        Some(r)
    } else {
        None
    }
}

/// A byte that separates path components.
pub open spec fn separator(b: u8) -> bool {
    b == 0x5C || b == 0x2F
}

/// What comes after the last separator of a path.
pub open spec fn file_part(p: Seq<u8>) -> Seq<u8>
    decreases p.len(),
{
    if p.len() == 0 || separator(p.last()) {
        Seq::empty()
    } else {
        file_part(p.drop_last()).push(p.last())
    }
}

/// The last component of a path.
pub fn last_component(p: &[u8]) -> (r: &[u8])
    ensures
        r@ == file_part(p@),
{
    let n: usize = p.len();
    let mut i: usize = n;
    assert(p@.take(n as int) =~= p@);
    assert(p@.subrange(n as int, n as int) =~= Seq::<u8>::empty());
    assert(file_part(p@) =~= file_part(p@.take(n as int)) + p@.subrange(n as int, n as int));
    while i > 0 && p[i - 1] != 0x5C && p[i - 1] != 0x2F
        invariant
            i <= n,
            n == p@.len(),
            file_part(p@) == file_part(p@.take(i as int)) + p@.subrange(i as int, n as int),
        decreases i,
    {
        proof {
            let t = p@.take(i as int);
            assert(t.drop_last() =~= p@.take(i - 1));
            assert(t.last() == p@[i - 1]);
            assert(file_part(p@.take(i - 1)).push(p@[i - 1]) + p@.subrange(i as int, n as int)
                =~= file_part(p@.take(i - 1)) + p@.subrange(i - 1, n as int));
        }
        i = i - 1;
    }
    proof {
        let t = p@.take(i as int);
        if i > 0 {
            assert(t.last() == p@[i - 1]);
        }
        assert(file_part(t) =~= Seq::<u8>::empty());
        assert(p@.subrange(i as int, n as int) =~= file_part(p@));
    }
    slice_subrange(p, i, n)
}

/// A pattern holds a wildcard.
pub open spec fn wild(p: Seq<u8>) -> bool {
    exists|i: int| 0 <= i < p.len() && (#[trigger] p[i] == 0x2A || p[i] == 0x3F)
}

fn has_wildcard(p: &[u8]) -> (r: bool)
    ensures
        r == wild(p@),
{
    let mut i: usize = 0;
    while i < p.len()
        invariant
            i <= p@.len(),
            forall|k: int| 0 <= k < i ==> #[trigger] p@[k] != 0x2A && p@[k] != 0x3F,
        decreases p@.len() - i,
    {
        if p[i] == 0x2A || p[i] == 0x3F {
            return true;
        }
        i = i + 1;
    }
    false
}

// ---------------------------------------------------------------------------
// Directory queries
// ---------------------------------------------------------------------------
/// What a directory query asks for.
#[derive(Debug)]
pub enum DirectoryQuery {
    /// Nothing: the query fails.
    Nothing,
    /// The match of a pattern in the host's listing.
    HostListing(Vec<u8>),
    /// One host file.
    HostFile(Vec<u8>),
    /// The match of a pattern on the RAM volume.
    Volume(Vec<u8>),
}

/// A directory query as a value.
pub enum Asked {
    Nothing,
    HostListing(Seq<u8>),
    HostFile(Seq<u8>),
    Volume(Seq<u8>),
}

impl View for DirectoryQuery {
    type V = Asked;

    open spec fn view(&self) -> Asked {
        match self {
            DirectoryQuery::Nothing => Asked::Nothing,
            DirectoryQuery::HostListing(p) => Asked::HostListing(p@),
            DirectoryQuery::HostFile(p) => Asked::HostFile(p@),
            DirectoryQuery::Volume(p) => Asked::Volume(p@),
        }
    }
}

/// What the query for the `index`-th match of a pattern asks for. A bare host
/// drive or a wildcard is a listing; a plain name is one file, asked for once.
pub open spec fn asked(pattern: Option<Seq<u8>>, index: u64) -> Asked {
    match pattern {
        None => Asked::Nothing,
        Some(p) => match host_rest(bare(p)) {
            Some(rest) => if rest.len() == 0 || wild(rest) {
                Asked::HostListing(rest)
            } else if index != 0 {
                Asked::Nothing
            } else {
                Asked::HostFile(rest)
            },
            None => Asked::Volume(p),
        },
    }
}

fn copy_of(s: &[u8]) -> (v: Vec<u8>)
    ensures
        v@ == s@,
{
    let mut v: Vec<u8> = Vec::new();
    v.extend_from_slice(s);
    assert(v@ =~= s@);
    v
}

/// `FindFirstFile`/`FindNextFile`: what the query for a user pattern asks for.
pub fn nt_query_directory(
    mmu: &Mmu,
    db: &VadDatabase,
    pat_ptr: u64,
    pat_len: u64,
    index: u64,
) -> (q: DirectoryQuery)
    requires
        db.wf(),
    ensures
        q@ == asked(user_path(mmu, db, pat_ptr, pat_len as int, MAX_PATH as int), index),
{
    let pattern: Vec<u8> = match read_user_path(mmu, db, pat_ptr, pat_len, MAX_PATH) {
        Some(p) => p,
        None => {
            return DirectoryQuery::Nothing;
        },
    };
    match strip_host_drive(strip_nt_prefix(&pattern)) {
        Some(rest) => {
            if rest.len() == 0 || has_wildcard(rest) {
                DirectoryQuery::HostListing(copy_of(rest))
            } else if index != 0 {
                DirectoryQuery::Nothing
            } else {
                DirectoryQuery::HostFile(copy_of(rest))
            }
        },
        None => DirectoryQuery::Volume(pattern),
    }
}

/// Size of a `WIN32_FIND_DATAW`.
pub const FIND_DATA_SIZE: usize = 592;

/// Bytes of a name that find data holds.
pub open spec fn shown(name: Seq<u8>) -> int {
    if name.len() > 259 {
        259
    } else {
        name.len() as int
    }
}

/// A `WIN32_FIND_DATAW`: attributes at 0, the size in two halves at 28 and 32,
/// the name in UTF-16 at 44, and zeros.
pub open spec fn find_data(name: Seq<u8>, attributes: u32, size: u64) -> Seq<u8> {
    let b = set32(
        set32(
            set32(Seq::new(FIND_DATA_SIZE as nat, |i: int| 0u8), 0, attributes),
            28,
            (size / 0x1_0000_0000) as u32,
        ),
        32,
        (size % 0x1_0000_0000) as u32,
    );
    with_name(b, name, shown(name))
}

/// The first `n` bytes of a name written as UTF-16.
pub open spec fn with_name(b: Seq<u8>, name: Seq<u8>, n: int) -> Seq<u8>
    decreases n,
{
    if n <= 0 {
        b
    } else {
        set16(with_name(b, name, n - 1), 44 + 2 * (n - 1), name[n - 1] as u16)
    }
}

fn build_find_data(name: &[u8], attributes: u32, size: u64) -> (b: Vec<u8>)
    ensures
        b@ == find_data(name@, attributes, size),
        b@.len() == FIND_DATA_SIZE,
{
    let mut b: Vec<u8> = vec![0u8; FIND_DATA_SIZE];
    assert(b@ =~= Seq::new(FIND_DATA_SIZE as nat, |i: int| 0u8));
    put32(&mut b, 0, attributes);
    put32(&mut b, 28, (size / 0x1_0000_0000) as u32);
    put32(&mut b, 32, (size % 0x1_0000_0000) as u32);
    let ghost base = b@;
    let n: usize = if name.len() > 259 {
        259
    } else {
        name.len()
    };
    let mut i: usize = 0;
    while i < n
        invariant
            i <= n,
            n == shown(name@),
            b@ == with_name(base, name@, i as int),
            b@.len() == FIND_DATA_SIZE,
        decreases n - i,
    {
        put16(&mut b, 44 + 2 * i, name[i] as u16);
        i = i + 1;
    }
    b
}

/// Storing find data in a user buffer: memory and what is returned.
pub open spec fn find_data_stored(
    mmu: &Mmu,
    db: &VadDatabase,
    out_ptr: u64,
    name: Seq<u8>,
    attributes: u32,
    size: u64,
) -> (Seq<u8>, u64) {
    if out_ptr == 0 {
        (mmu.ram(), 0)
    } else {
        let (ram, ok) = stored(mmu, db, out_ptr, find_data(name, attributes, size), 2);
        (
            ram,
            if ok {
                1
            } else {
                0
            },
        )
    }
}

/// Fill a user's find data: 1, or 0 when the buffer cannot be written.
pub fn write_find_data(
    mmu: &mut Mmu,
    db: &VadDatabase,
    out_ptr: u64,
    name: &[u8],
    attributes: u32,
    size: u64,
) -> (r: u64)
    requires
        db.wf(),
        old(mmu).phys.wf(),
    ensures
        final(mmu).phys.wf(),
        final(mmu).same_registers(old(mmu)),
        ({
            let (ram, n) = find_data_stored(old(mmu), db, out_ptr, name@, attributes, size);
            final(mmu).phys@ == (PhysState { ram, ..old(mmu).phys@ }) && r == n
        }),
{
    assert(mmu.phys@ =~= PhysState { ram: mmu.phys@.ram, ..mmu.phys@ });
    if out_ptr == 0 {
        return 0;
    }
    proof {
        lemma_small_powers();
    }
    let b: Vec<u8> = build_find_data(name, attributes, size);
    if store(mmu, db, out_ptr, &b, 2) {
        1
    } else {
        0
    }
}

/// `GetFileAttributes`: the path to look up on the RAM volume; without one the
/// service returns [`INVALID_FILE_ATTRIBUTES`].
pub fn nt_query_attributes(mmu: &Mmu, db: &VadDatabase, path_ptr: u64, path_len: u64) -> (r: Option<
    Vec<u8>,
>)
    requires
        db.wf(),
    ensures
        match r {
            Some(v) => user_path(mmu, db, path_ptr, path_len as int, MAX_PATH as int) == Some(v@),
            None => user_path(mmu, db, path_ptr, path_len as int, MAX_PATH as int) is None,
        },
{
    read_user_path(mmu, db, path_ptr, path_len, MAX_PATH)
}

// ---------------------------------------------------------------------------
// Opening
// ---------------------------------------------------------------------------
/// Where a path leads.
#[derive(Debug)]
pub enum FileTarget {
    /// A file of the host.
    Host(Vec<u8>),
    /// A file of the RAM volume.
    Volume(Vec<u8>),
}

/// Where a path leads, as a value.
pub enum Target {
    Host(Seq<u8>),
    Volume(Seq<u8>),
}

impl View for FileTarget {
    type V = Target;

    open spec fn view(&self) -> Target {
        match self {
            FileTarget::Host(p) => Target::Host(p@),
            FileTarget::Volume(p) => Target::Volume(p@),
        }
    }
}

/// Longest name [`nt_create_file`] takes.
pub const MAX_CREATE_NAME: usize = 128;

/// The name of a file to create or a device to open.
pub open spec fn create_name(mmu: &Mmu, db: &VadDatabase, ptr: u64, len: u64) -> Option<Seq<u8>> {
    if ptr == 0 || len == 0 || len > MAX_CREATE_NAME {
        None
    } else {
        fetched(mmu, db, ptr, len as int, 1)
    }
}

/// `NtCreateFile`: the name to open, first as a device; none when the arguments
/// are bad.
pub fn nt_create_file(mmu: &Mmu, db: &VadDatabase, ptr: u64, len: u64) -> (r: Option<Vec<u8>>)
    requires
        db.wf(),
    ensures
        match r {
            Some(v) => create_name(mmu, db, ptr, len) == Some(v@),
            None => create_name(mmu, db, ptr, len) is None,
        },
{
    if ptr == 0 || len == 0 || len > MAX_CREATE_NAME as u64 {
        return None;
    }
    proof {
        lemma_small_powers();
    }
    fetch(mmu, db, ptr, len as usize, 1)
}

/// Where the name of [`nt_create_file`] leads when it is no device: nowhere when
/// it is not text.
pub open spec fn created_target(name: Seq<u8>) -> Option<Target> {
    if !valid_utf8(name) {
        None
    } else {
        match host_rest(bare(name)) {
            Some(rest) => Some(Target::Host(rest)),
            None => Some(Target::Volume(name)),
        }
    }
}

/// Where a name that is no device leads.
pub fn create_target(name: &[u8]) -> (r: Option<FileTarget>)
    ensures
        match r {
            Some(t) => created_target(name@) == Some(t@),
            None => created_target(name@) is None,
        },
{
    if !is_utf8(name) {
        return None;
    }
    match strip_host_drive(strip_nt_prefix(name)) {
        Some(rest) => Some(FileTarget::Host(copy_of(rest))),
        None => Some(FileTarget::Volume(copy_of(name))),
    }
}

/// The answer to bad arguments of [`nt_open_file`].
pub const STATUS_INVALID_PARAMETER: u64 = 0xC000_000D;

/// The answer when the file does not exist.
pub const STATUS_OBJECT_NAME_NOT_FOUND: u64 = 0xC000_0034;

/// The path that the object attributes at `oa` name: their name pointer is at
/// 0x10 and leads to a counted string.
pub open spec fn attributes_path(mmu: &Mmu, db: &VadDatabase, oa: u64) -> Option<Seq<u8>> {
    match fetched(mmu, db, oa, 0x18, 8) {
        None => None,
        Some(a) => {
            let name = get64(a, 0x10) as u64;
            if name == 0 {
                None
            } else {
                match fetched(mmu, db, name, 16, 8) {
                    None => None,
                    Some(s) => {
                        let n = get16(s, 0) / 2;
                        user_path(
                            mmu,
                            db,
                            get64(s, 8) as u64,
                            if n > MAX_PATH {
                                MAX_PATH as int
                            } else {
                                n
                            },
                            MAX_PATH as int,
                        )
                    },
                }
            }
        },
    }
}

/// What [`nt_open_file`] goes on to open.
pub open spec fn open_target(mmu: &Mmu, db: &VadDatabase, handle_out: u64, oa: u64) -> Option<
    Target,
> {
    if handle_out == 0 || oa == 0 {
        None
    } else {
        match attributes_path(mmu, db, oa) {
            None => None,
            Some(p) => match host_rest(bare(p)) {
                Some(rest) => Some(Target::Host(rest)),
                None => Some(Target::Volume(bare(p))),
            },
        }
    }
}

/// `NtOpenFile`: the file to open; without one the service returns
/// [`STATUS_INVALID_PARAMETER`].
pub fn nt_open_file(mmu: &Mmu, db: &VadDatabase, handle_out: u64, oa: u64) -> (r: Option<
    FileTarget,
>)
    requires
        db.wf(),
    ensures
        match r {
            Some(t) => open_target(mmu, db, handle_out, oa) == Some(t@),
            None => open_target(mmu, db, handle_out, oa) is None,
        },
{
    if handle_out == 0 || oa == 0 {
        return None;
    }
    proof {
        lemma_small_powers();
    }
    let a: Vec<u8> = match fetch(mmu, db, oa, 0x18, 8) {
        Some(a) => a,
        None => {
            return None;
        },
    };
    let name: u64 = match u64le(&a, 0x10) {
        Some(v) => v,
        None => 0,
    };
    if name == 0 {
        return None;
    }
    let s: Vec<u8> = match fetch(mmu, db, name, 16, 8) {
        Some(s) => s,
        None => {
            return None;
        },
    };
    let len: u16 = match u16le(&s, 0) {
        Some(v) => v,
        None => 0,
    };
    let buffer: u64 = match u64le(&s, 8) {
        Some(v) => v,
        None => 0,
    };
    let n: u64 = (len / 2) as u64;
    let count: u64 = if n > MAX_PATH as u64 {
        MAX_PATH as u64
    } else {
        n
    };
    let path: Vec<u8> = match read_user_path(mmu, db, buffer, count, MAX_PATH) {
        Some(p) => p,
        None => {
            return None;
        },
    };
    let short = strip_nt_prefix(&path);
    match strip_host_drive(short) {
        Some(rest) => Some(FileTarget::Host(copy_of(rest))),
        None => Some(FileTarget::Volume(copy_of(short))),
    }
}

/// What [`open_finish`] writes: the handle, then the status block (success and
/// "opened"), each only where the probe allows it.
pub open spec fn open_written(
    ram: Seq<u8>,
    root: u64,
    db: &VadDatabase,
    handle: u64,
    handle_out: u64,
    iosb: u64,
) -> Seq<u8> {
    let r1 = stored_in(ram, root, db, handle_out, bytes64(handle), 8).0;
    if iosb == 0 || probed_in(r1, root, db, iosb, 16, 8) is Err {
        r1
    } else {
        let r2 = user_written(r1, root, iosb, bytes32(0)).0;
        user_written(r2, root, (iosb + 8) as u64, bytes64(1)).0
    }
}

/// `NtOpenFile` after the file was opened: give the caller a handle to it.
#[verifier::rlimit(60)]
pub fn open_finish(
    tables: &mut HandleTables,
    om: &mut ObjectManager,
    d: &Dispatcher,
    mmu: &mut Mmu,
    db: &VadDatabase,
    file: u64,
    handle_out: u64,
    iosb: u64,
) -> (status: u64)
    requires
        old(tables).wf(),
        old(om).wf(),
        d.wf(),
        db.wf(),
        old(mmu).phys.wf(),
        alive(old(om).objects@, file),
        refs(old(om).objects@, file) < i64::MAX,
    ensures
        final(tables).wf(),
        final(om).wf(),
        final(om).types@ == old(om).types@,
        final(mmu).phys.wf(),
        final(mmu).same_registers(old(mmu)),
        status == 0,
        ({
            let (ts, objects, h) = opened(
                old(tables)@,
                old(om).objects@,
                current_of(d@).cr3,
                HandleEntry { object: file, granted_access: 0 },
            );
            &&& final(tables)@ == ts
            &&& final(om).objects@ == objects
            &&& final(mmu).phys@ == (PhysState {
                ram: open_written(old(mmu).ram(), old(mmu).root(), db, h, handle_out, iosb),
                ..old(mmu).phys@
            })
        }),
{
    proof {
        lemma_small_powers();
    }
    let h: u64 = ob_create_handle(tables, om, d, file, 0);
    let hb: Vec<u8> = word_bytes(h);
    let _stored: bool = store(mmu, db, handle_out, &hb, 8);
    if iosb != 0 && probe_for_write(mmu, db, iosb, 16, 8).is_ok() {
        let zero: [u8; 4] = [0, 0, 0, 0];
        assert(zero@ =~= bytes32(0));
        let one: Vec<u8> = word_bytes(1);
        let _status: bool = write_user(mmu, iosb, &zero);
        let _information: bool = write_user(mmu, iosb + 8, &one);
    }
    0
}

// ---------------------------------------------------------------------------
// Transfers
// ---------------------------------------------------------------------------
/// What a write goes to, or the status it fails with: arguments, buffer and
/// handle are tested in that order.
pub open spec fn write_target(
    mmu: &Mmu,
    db: &VadDatabase,
    object: Result<u64, NtStatus>,
    buffer: u64,
    length: u64,
) -> Result<u64, NtStatus> {
    if buffer == 0 || length > MAX_IO_LEN {
        Err(NtStatus(NtStatus::INVALID_PARAMETER))
    } else if probed(mmu, db, buffer, length as int, 1) is Err {
        Err(NtStatus(NtStatus::ACCESS_VIOLATION))
    } else {
        object
    }
}

/// `NtWriteFile`: the object to write to. A pipe end takes the bytes at once and
/// the service succeeds; a device answers with a status of its own.
pub fn nt_write_file(
    tables: &HandleTables,
    d: &Dispatcher,
    mmu: &Mmu,
    db: &VadDatabase,
    handle: u64,
    buffer: u64,
    length: u64,
) -> (r: Result<u64, NtStatus>)
    requires
        tables.wf(),
        d.wf(),
        db.wf(),
    ensures
        r == write_target(
            mmu,
            db,
            object_of(tables@, current_of(d@).cr3, handle),
            buffer,
            length,
        ),
{
    if buffer == 0 || length > MAX_IO_LEN {
        return Err(NtStatus(NtStatus::INVALID_PARAMETER));
    }
    proof {
        lemma_small_powers();
    }
    if probe_for_read(mmu, db, buffer, length as usize, 1).is_err() {
        return Err(NtStatus(NtStatus::ACCESS_VIOLATION));
    }
    ob_reference_object_by_handle(tables, d, handle)
}

/// What a read comes from, if its arguments are good.
pub open spec fn read_source(
    mmu: &Mmu,
    db: &VadDatabase,
    object: Result<u64, NtStatus>,
    buffer: u64,
    length: u64,
) -> Option<u64> {
    if buffer == 0 || length > MAX_IO_LEN || probed(mmu, db, buffer, length as int, 1) is Err {
        None
    } else {
        match object {
            Ok(o) => Some(o),
            Err(_) => None,
        }
    }
}

/// `NtReadFile`: the object to read from; without one the service returns that no
/// bytes were read.
pub fn nt_read_file(
    tables: &HandleTables,
    d: &Dispatcher,
    mmu: &Mmu,
    db: &VadDatabase,
    handle: u64,
    buffer: u64,
    length: u64,
) -> (r: Option<u64>)
    requires
        tables.wf(),
        d.wf(),
        db.wf(),
    ensures
        r == read_source(mmu, db, object_of(tables@, current_of(d@).cr3, handle), buffer, length),
{
    if buffer == 0 || length > MAX_IO_LEN {
        return None;
    }
    proof {
        lemma_small_powers();
    }
    if probe_for_write(mmu, db, buffer, length as usize, 1).is_err() {
        return None;
    }
    match ob_reference_object_by_handle(tables, d, handle) {
        Ok(o) => Some(o),
        Err(_) => None,
    }
}

/// Turns after which a reader gives an empty pipe up.
pub const MAX_PIPE_TURNS: u64 = 2_000_000_000;

/// One turn of waiting on a pipe that gave `n` bytes: the number of turns, and
/// what the service returns if it is done.
pub open spec fn pipe_turn(turns: u64, n: u64, eof: bool) -> (u64, Option<u64>) {
    if n > 0 {
        (turns, Some(n))
    } else if eof {
        (turns, Some(0))
    } else if turns >= MAX_PIPE_TURNS {
        ((turns + 1) as u64, Some(0))
    } else {
        ((turns + 1) as u64, None)
    }
}

/// `NtReadFile` on a pipe: after each attempt to drain it, decide whether the
/// service is done.
pub fn pipe_read_turn(turns: &mut u64, n: u64, eof: bool) -> (r: Option<u64>)
    requires
        *old(turns) <= MAX_PIPE_TURNS,
    ensures
        (*final(turns), r) == pipe_turn(*old(turns), n, eof),
        r is None ==> *old(turns) < *final(turns) <= MAX_PIPE_TURNS,
{
    if n > 0 {
        return Some(n);
    }
    if eof {
        return Some(0);
    }
    *turns = *turns + 1;
    if *turns > MAX_PIPE_TURNS {
        return Some(0);
    }
    None
}

/// `GetFileSize`: the size of a file, if the handle names one.
pub fn nt_query_file_size(size: Option<u64>) -> (r: u64)
    ensures
        r == match size {
            Some(n) => n,
            None => INVALID_FILE_SIZE,
        },
{
    match size {
        Some(n) => n,
        None => INVALID_FILE_SIZE,
    }
}

// ---------------------------------------------------------------------------
// Laws
// ---------------------------------------------------------------------------
/// A transfer is refused when its buffer touches a page that user mode may not
/// access, unless all of it is committed: such a pointer gives an error, whatever
/// the handle names.
pub proof fn a_bad_buffer_is_refused(
    mmu: &Mmu,
    db: &VadDatabase,
    object: Result<u64, NtStatus>,
    buffer: u64,
    length: u64,
    page: u64,
)
    requires
        page % 4096 == 0,
        page < buffer + length,
        buffer < page + 4096,
        length > 0,
        !user_mapped(mmu.ram(), mmu.root(), page),
        !all_committed(db, mmu.root(), buffer, buffer + length),
    ensures
        write_target(mmu, db, object, buffer, length) is Err,
        read_source(mmu, db, object, buffer, length) is None,
{
}

/// `*` matches every name.
pub proof fn star_matches_every_name(name: Seq<u8>)
    ensures
        host_match(seq![0x2Au8], name),
{
    let pat = seq![0x2Au8];
    assert(pat.skip(1) =~= Seq::<u8>::empty());
    assert(name.skip(name.len() as int) =~= Seq::<u8>::empty());
    assert(glob(pat.skip(1), name.skip(name.len() as int)));
}

/// A pattern without wildcards matches a name exactly when the two are equal up
/// to case.
pub proof fn a_plain_pattern_matches_itself(pat: Seq<u8>, name: Seq<u8>)
    requires
        !wild(pat),
    ensures
        glob(pat, name) <==> same_fold(pat, name),
    decreases pat.len(),
{
    if pat.len() > 0 {
        assert(pat[0] != 0x2A && pat[0] != 0x3F);
        let p = pat.skip(1);
        assert forall|i: int| 0 <= i < p.len() implies #[trigger] p[i] != 0x2A && p[i] != 0x3F by {
            assert(p[i] == pat[i + 1]);
        }
        if name.len() > 0 {
            let n = name.skip(1);
            a_plain_pattern_matches_itself(p, n);
            if same_fold(pat, name) {
                assert forall|i: int| 0 <= i < p.len() implies lower_byte(#[trigger] p[i])
                    == lower_byte(n[i]) by {
                    assert(lower_byte(pat[i + 1]) == lower_byte(name[i + 1]));
                }
                assert(lower_byte(pat[0]) == lower_byte(name[0]));
            }
            if glob(pat, name) {
                assert forall|i: int| 0 <= i < pat.len() implies lower_byte(#[trigger] pat[i])
                    == lower_byte(name[i]) by {
                    if i > 0 {
                        assert(lower_byte(p[i - 1]) == lower_byte(n[i - 1]));
                    }
                }
            }
        }
    }
}

/// Matching ignores the case of the pattern and of the name.
pub proof fn matching_ignores_case(pat: Seq<u8>, pat2: Seq<u8>, name: Seq<u8>, name2: Seq<u8>)
    requires
        same_fold(pat, pat2),
        same_fold(name, name2),
        glob(pat, name),
    ensures
        glob(pat2, name2),
    decreases pat.len(),
{
    if pat.len() > 0 {
        assert(lower_byte(pat[0]) == lower_byte(pat2[0]));
        lemma_fold_skip(pat, pat2, 1);
        if pat[0] == 0x2A {
            let k = choose|k: int|
                0 <= k <= name.len() && glob(pat.skip(1), #[trigger] name.skip(k));
            lemma_fold_skip(name, name2, k);
            matching_ignores_case(pat.skip(1), pat2.skip(1), name.skip(k), name2.skip(k));
        } else {
            assert(lower_byte(name[0]) == lower_byte(name2[0]));
            if pat[0] == 0x3F {
                lemma_fold_end(name, name2, 1);
                let e = char_end(name, 1);
                lemma_fold_skip(name, name2, e);
                matching_ignores_case(pat.skip(1), pat2.skip(1), name.skip(e), name2.skip(e));
            } else {
                lemma_fold_skip(name, name2, 1);
                matching_ignores_case(pat.skip(1), pat2.skip(1), name.skip(1), name2.skip(1));
            }
        }
    }
}

proof fn lemma_fold_skip(a: Seq<u8>, b: Seq<u8>, k: int)
    requires
        same_fold(a, b),
        0 <= k <= a.len(),
    ensures
        same_fold(a.skip(k), b.skip(k)),
{
    assert forall|i: int| 0 <= i < a.skip(k).len() implies lower_byte(#[trigger] a.skip(k)[i])
        == lower_byte(b.skip(k)[i]) by {
        assert(lower_byte(a[i + k]) == lower_byte(b[i + k]));
    }
}

proof fn lemma_fold_end(a: Seq<u8>, b: Seq<u8>, e: int)
    requires
        same_fold(a, b),
        0 <= e <= a.len(),
    ensures
        char_end(a, e) == char_end(b, e),
        e <= char_end(a, e) <= a.len(),
    decreases a.len() - e,
{
    if e < a.len() {
        assert(lower_byte(a[e]) == lower_byte(b[e]));
        assert(continues(a[e]) == continues(b[e]));
        if continues(a[e]) {
            lemma_fold_end(a, b, e + 1);
        }
    }
}

/// A question mark stands for one character, be it of one byte or of several: a byte and
/// those that continue it.
pub proof fn a_question_mark_matches_one_character(
    pat: Seq<u8>,
    c: u8,
    tail: Seq<u8>,
    rest: Seq<u8>,
)
    requires
        forall|i: int| 0 <= i < tail.len() ==> 0x80 <= #[trigger] tail[i] < 0xC0,
        rest.len() > 0 ==> !(0x80 <= rest[0] < 0xC0),
    ensures
        glob(seq![0x3Fu8] + pat, seq![c] + tail + rest) == glob(pat, rest),
        !glob(seq![0x3Fu8] + pat, Seq::empty()),
{
    let p = seq![0x3Fu8] + pat;
    let name = seq![c] + tail + rest;
    assert(p.skip(1) =~= pat);
    lemma_char_end(name, 1, 1 + tail.len() as int, tail, rest, c);
    assert(name.skip(1 + tail.len() as int) =~= rest);
}

proof fn lemma_char_end(name: Seq<u8>, e: int, end: int, tail: Seq<u8>, rest: Seq<u8>, c: u8)
    requires
        name == seq![c] + tail + rest,
        end == 1 + tail.len(),
        1 <= e <= end,
        forall|i: int| 0 <= i < tail.len() ==> 0x80 <= #[trigger] tail[i] < 0xC0,
        rest.len() > 0 ==> !(0x80 <= rest[0] < 0xC0),
    ensures
        char_end(name, e) == end,
    decreases end - e,
{
    if e < end {
        assert(name[e] == tail[e - 1]);
        lemma_char_end(name, e + 1, end, tail, rest, c);
    } else if e < name.len() {
        assert(name[e] == rest[0]);
    }
}

/// A star stands for any text, also for none.
pub proof fn a_star_matches_any_text(pat: Seq<u8>, a: Seq<u8>, b: Seq<u8>)
    requires
        glob(pat, b),
    ensures
        glob(seq![0x2Au8] + pat, a + b),
{
    let p = seq![0x2Au8] + pat;
    assert(p.skip(1) =~= pat);
    assert((a + b).skip(a.len() as int) =~= b);
    assert(glob(p.skip(1), (a + b).skip(a.len() as int)));
}

/// Any other character stands for itself, in either case, and at its own place.
pub proof fn a_letter_matches_itself(pat: Seq<u8>, c: u8, d: u8, rest: Seq<u8>)
    requires
        c != 0x2A,
        c != 0x3F,
    ensures
        glob(seq![c] + pat, seq![d] + rest) == ((c == d || (0x41 <= c <= 0x5A && d == c + 32) || (
        0x41 <= d <= 0x5A && c == d + 32)) && glob(pat, rest)),
        !glob(seq![c] + pat, Seq::empty()),
        !glob(Seq::empty(), seq![d] + rest),
        glob(Seq::empty(), Seq::empty()),
{
    let p = seq![c] + pat;
    let n = seq![d] + rest;
    assert(p.skip(1) =~= pat);
    assert(n.skip(1) =~= rest);
}

/// How many of the first `n` names match.
pub open spec fn matches_before(pat: Seq<u8>, names: Seq<Seq<u8>>, n: int) -> int
    decreases n,
{
    if n <= 0 {
        0
    } else if host_match(pat, names[n - 1]) {
        matches_before(pat, names, n - 1) + 1
    } else {
        matches_before(pat, names, n - 1)
    }
}

/// A listing is walked by the number of the match: the name that is found matches, and as
/// many names in front of it match as the number says.
pub proof fn a_match_is_found_by_its_number(pat: Seq<u8>, names: Seq<Seq<u8>>, index: int)
    requires
        0 <= index,
    ensures
        match match_at(pat, names, index, 0) {
            Some(i) => 0 <= i < names.len() && host_match(pat, names[i]) && matches_before(
                pat,
                names,
                i,
            ) == index,
            None => matches_before(pat, names, names.len() as int) <= index,
        },
{
    lemma_match_at(pat, names, index, 0);
}

proof fn lemma_match_at(pat: Seq<u8>, names: Seq<Seq<u8>>, index: int, i: int)
    requires
        0 <= index,
        0 <= i <= names.len(),
    ensures
        match match_at(pat, names, index, i) {
            Some(k) => i <= k < names.len() && host_match(pat, names[k]) && matches_before(
                pat,
                names,
                k,
            ) == index + matches_before(pat, names, i),
            None => matches_before(pat, names, names.len() as int) <= index + matches_before(
                pat,
                names,
                i,
            ),
        },
    decreases names.len() - i,
{
    if i < names.len() {
        if host_match(pat, names[i]) {
            if index > 0 {
                lemma_match_at(pat, names, index - 1, i + 1);
            }
        } else {
            lemma_match_at(pat, names, index, i + 1);
        }
    }
}

/// The prefix of the object namespace is dropped from a path.
pub proof fn the_namespace_prefix_is_dropped(p: Seq<u8>)
    ensures
        bare(seq![0x5Cu8, 0x3F, 0x3F, 0x5C] + p) == p,
        !has_nt_prefix(p) ==> bare(p) == p,
{
    assert((seq![0x5Cu8, 0x3F, 0x3F, 0x5C] + p).skip(4) =~= p);
}

/// The drive `H:` is the host's, written with either slash; every other path is not.
pub proof fn the_host_drive_is_h(d: u8, s: u8, rest: Seq<u8>)
    ensures
        host_rest(seq![d, 0x3Au8, s] + rest) == if (d == 0x48 || d == 0x68) && (s == 0x5C || s
            == 0x2F) {
            Some(rest)
        } else {
            None
        },
        rest.len() < 3 ==> host_rest(rest) is None,
        rest.len() >= 2 && rest[1] != 0x3A ==> host_rest(rest) is None,
{
    let p = seq![d, 0x3Au8, s] + rest;
    assert(p.skip(3) =~= rest);
    assert(p[0] == d && p[1] == 0x3A && p[2] == s);
}

/// The last component of a path is what stands behind its last slash, or the whole path.
pub proof fn the_last_component_follows_the_last_slash(a: Seq<u8>, s: u8, b: Seq<u8>)
    requires
        s == 0x5C || s == 0x2F,
        forall|i: int| 0 <= i < b.len() ==> (#[trigger] b[i]) != 0x5C && b[i] != 0x2F,
    ensures
        file_part(a.push(s) + b) == b,
        file_part(b) == b,
    decreases b.len(),
{
    let p = a.push(s) + b;
    if b.len() == 0 {
        assert(p.last() == s);
        assert(file_part(p) =~= b);
        assert(file_part(b) =~= b);
    } else {
        the_last_component_follows_the_last_slash(a, s, b.drop_last());
        assert(p.last() == b.last());
        assert(p.drop_last() =~= a.push(s) + b.drop_last());
        assert(b[b.len() - 1] == b.last());
        assert(file_part(p) =~= b);
        assert(file_part(b) =~= b);
    }
}

/// A directory is asked for on the host for patterns of its drive and on the volume for all
/// others. A name without wildcards is one file, found once.
pub proof fn patterns_go_where_their_drive_is(p: Seq<u8>, rest: Seq<u8>, index: u64)
    ensures
        host_rest(bare(p)) is None ==> asked(Some(p), index) == Asked::Volume(p),
        host_rest(bare(p)) == Some(rest) && rest.len() > 0 && (forall|i: int|
            0 <= i < rest.len() ==> #[trigger] rest[i] != 0x2A && rest[i] != 0x3F) ==> asked(
            Some(p),
            index,
        ) == if index == 0 {
            Asked::HostFile(rest)
        } else {
            Asked::Nothing
        },
        host_rest(bare(p)) == Some(rest) && (rest.len() == 0 || exists|i: int|
            0 <= i < rest.len() && (#[trigger] rest[i] == 0x2A || rest[i] == 0x3F)) ==> asked(
            Some(p),
            index,
        ) == Asked::HostListing(rest),
        asked(None, index) == Asked::Nothing,
{
}

/// A found file is told in 592 bytes: its attributes first, its size in two halves, the high
/// one first, and its name in units of two bytes, ended by NUL.
pub proof fn found_data_reads_back(name: Seq<u8>, attributes: u32, size: u64, i: int)
    requires
        0 <= i < 260,
    ensures
        ({
            let b = find_data(name, attributes, size);
            &&& b.len() == 592
            &&& get32(b, 0) == attributes
            &&& get32(b, 28) * 0x1_0000_0000 + get32(b, 32) == size
            &&& get16(b, 44 + 2 * i) == if i < name.len() && i < 259 {
                name[i] as int
            } else {
                0
            }
        }),
{
    let z = Seq::new(FIND_DATA_SIZE as nat, |i: int| 0u8);
    let hi = (size / 0x1_0000_0000) as u32;
    let lo = (size % 0x1_0000_0000) as u32;
    let b1 = set32(z, 0, attributes);
    let b2 = set32(b1, 28, hi);
    let b3 = set32(b2, 32, lo);
    lemma_bytes32(attributes);
    lemma_bytes32(hi);
    lemma_bytes32(lo);
    let b = find_data(name, attributes, size);
    lemma_with_name(b3, name, shown(name), i);
    lemma_get32_in(b, 0, bytes32(attributes));
    lemma_get32_in(b, 28, bytes32(hi));
    lemma_get32_in(b, 32, bytes32(lo));
    assert(b3[44 + 2 * i] == 0 && b3[45 + 2 * i] == 0);
}

proof fn lemma_with_name(b: Seq<u8>, name: Seq<u8>, n: int, i: int)
    requires
        b.len() == 592,
        0 <= n <= 259,
        n <= name.len(),
        0 <= i < 260,
    ensures
        with_name(b, name, n).len() == 592,
        forall|k: int| 0 <= k < 44 ==> #[trigger] with_name(b, name, n)[k] == b[k],
        get16(with_name(b, name, n), 44 + 2 * i) == if i < n {
            name[i] as int
        } else {
            get16(b, 44 + 2 * i)
        },
    decreases n,
{
    if n > 0 {
        lemma_with_name(b, name, n - 1, i);
        let w = with_name(b, name, n - 1);
        let c = name[n - 1] as u16;
        lemma_bytes16(c);
        let r = set16(w, 44 + 2 * (n - 1), c);
        assert forall|k: int| 0 <= k < 44 implies #[trigger] r[k] == b[k] by {
            assert(r[k] == w[k]);
        }
        if i == n - 1 {
            lemma_get16_in(r, 44 + 2 * i, bytes16(c));
        } else {
            assert(r[44 + 2 * i] == w[44 + 2 * i] && r[45 + 2 * i] == w[45 + 2 * i]);
        }
    }
}

/// A file is opened by the name that its attributes point to: a counted string whose length
/// is in bytes, of which at most 260 units count.
pub proof fn a_file_is_named_by_its_attributes(
    mmu: &Mmu,
    db: &VadDatabase,
    oa: u64,
    a: Seq<u8>,
    s: Seq<u8>,
)
    requires
        fetched(mmu, db, oa, 24, 8) == Some(a),
        get64(a, 16) as u64 != 0,
        fetched(mmu, db, get64(a, 16) as u64, 16, 8) == Some(s),
    ensures
        get16(s, 0) <= 520 ==> attributes_path(mmu, db, oa) == user_path(
            mmu,
            db,
            get64(s, 8) as u64,
            get16(s, 0) / 2,
            260,
        ),
        get16(s, 0) > 520 ==> attributes_path(mmu, db, oa) == user_path(
            mmu,
            db,
            get64(s, 8) as u64,
            260,
            260,
        ),
{
}

/// A transfer is refused without a buffer, of more than 16 MiB and into memory that is not
/// the caller's, in this order; else it goes to the object of the handle.
pub proof fn a_transfer_needs_a_good_buffer(
    mmu: &Mmu,
    db: &VadDatabase,
    object: Result<u64, NtStatus>,
    buffer: u64,
    length: u64,
)
    ensures
        buffer == 0 || length > 0x100_0000 ==> write_target(mmu, db, object, buffer, length) == Err::<
            u64,
            NtStatus,
        >(NtStatus(0xC000_000D)) && read_source(mmu, db, object, buffer, length) is None,
        buffer != 0 && length <= 0x100_0000 && probed(mmu, db, buffer, length as int, 1) is Err
            ==> write_target(mmu, db, object, buffer, length) == Err::<u64, NtStatus>(
            NtStatus(0xC000_0005),
        ) && read_source(mmu, db, object, buffer, length) is None,
        buffer != 0 && length <= 0x100_0000 && probed(mmu, db, buffer, length as int, 1) is Ok
            ==> write_target(mmu, db, object, buffer, length) == object,
        buffer != 0 && length <= 0x100_0000 && probed(mmu, db, buffer, length as int, 1) is Ok
            && object is Ok ==> read_source(mmu, db, object, buffer, length) == Some(object->Ok_0),
        object is Err ==> read_source(mmu, db, object, buffer, length) is None,
{
}

/// A read from a pipe ends with the bytes that are there, or with none at its end; while the
/// pipe is open and empty it goes on, for two thousand million turns.
pub proof fn an_empty_pipe_is_read_again(turns: u64, n: u64)
    ensures
        n > 0 ==> pipe_turn(turns, n, false).1 == Some(n) && pipe_turn(turns, n, true).1 == Some(n),
        pipe_turn(turns, 0, true).1 == Some(0u64),
        turns < 2_000_000_000 ==> pipe_turn(turns, 0, false) == ((turns + 1) as u64, None::<u64>),
        turns >= 2_000_000_000 ==> pipe_turn(turns, 0, false).1 == Some(0u64),
{
}

/// A name to be created has between 1 and 128 bytes of valid text; on the host drive the
/// drive is dropped from it.
pub proof fn a_created_name_is_short(mmu: &Mmu, db: &VadDatabase, ptr: u64, len: u64, name: Seq<u8>)
    ensures
        ptr == 0 || len == 0 || len > 128 ==> create_name(mmu, db, ptr, len) is None,
        ptr != 0 && 0 < len <= 128 ==> create_name(mmu, db, ptr, len) == fetched(
            mmu,
            db,
            ptr,
            len as int,
            1,
        ),
        !valid_utf8(name) ==> created_target(name) is None,
        valid_utf8(name) && host_rest(bare(name)) is None ==> created_target(name) == Some(
            Target::Volume(name),
        ),
        valid_utf8(name) && host_rest(bare(name)) is Some ==> created_target(name) == Some(
            Target::Host(host_rest(bare(name))->0),
        ),
{
}

/// A found file is told through the caller's buffer: the answer is 1 where it could be
/// written, and 0 where not.
pub proof fn a_found_file_is_told_through_the_buffer(
    mmu: &Mmu,
    db: &VadDatabase,
    out_ptr: u64,
    name: Seq<u8>,
    attributes: u32,
    size: u64,
)
    ensures
        find_data_stored(mmu, db, 0, name, attributes, size) == (mmu.ram(), 0u64),
        out_ptr != 0 ==> {
            let (ram, ok) = stored(mmu, db, out_ptr, find_data(name, attributes, size), 2);
            find_data_stored(mmu, db, out_ptr, name, attributes, size) == (
                ram,
                if ok {
                    1u64
                } else {
                    0
                },
            )
        },
{
}

/// A file is opened on the host where its path is of the host's drive, and on the volume
/// where not; in both cases without the prefix of the namespace.
pub proof fn a_file_is_opened_where_its_drive_is(
    mmu: &Mmu,
    db: &VadDatabase,
    handle_out: u64,
    oa: u64,
    p: Seq<u8>,
)
    ensures
        open_target(mmu, db, 0, oa) is None,
        open_target(mmu, db, handle_out, 0) is None,
        handle_out != 0 && oa != 0 && attributes_path(mmu, db, oa) is None ==> open_target(
            mmu,
            db,
            handle_out,
            oa,
        ) is None,
        handle_out != 0 && oa != 0 && attributes_path(mmu, db, oa) == Some(p) ==> open_target(
            mmu,
            db,
            handle_out,
            oa,
        ) == Some(
            match host_rest(bare(p)) {
                Some(rest) => Target::Host(rest),
                None => Target::Volume(bare(p)),
            },
        ),
{
}

/// An opened file is told by its handle, and by a status of success and the information 1
/// where there is a block for them.
pub proof fn an_opened_file_is_told_by_its_handle(
    ram: Seq<u8>,
    root: u64,
    db: &VadDatabase,
    handle: u64,
    handle_out: u64,
    iosb: u64,
)
    requires
        iosb <= u64::MAX - 8,
    ensures
        ({
            let told = stored_in(ram, root, db, handle_out, bytes64(handle), 8).0;
            &&& open_written(ram, root, db, handle, handle_out, 0) == told
            &&& probed_in(told, root, db, iosb, 16, 8) is Err ==> open_written(
                ram,
                root,
                db,
                handle,
                handle_out,
                iosb,
            ) == told
            &&& iosb != 0 && probed_in(told, root, db, iosb, 16, 8) is Ok ==> open_written(
                ram,
                root,
                db,
                handle,
                handle_out,
                iosb,
            ) == user_written(
                user_written(told, root, iosb, bytes32(0)).0,
                root,
                (iosb + 8) as u64,
                bytes64(1),
            ).0
        }),
{
}

} // verus!
