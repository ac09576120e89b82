//! Strings and messages from `.mui` resource modules.
//!
//! Programs keep their user-interface text in a side-by-side resource-only
//! module, `<exe>.mui`. One is registered against a module's base address, and
//! [`load_string`] and [`load_message`] read its `RT_STRING` and
//! `RT_MESSAGETABLE` resources. The module is raw file bytes (not a mapped
//! image), so resource addresses are turned into file offsets through the
//! section table.
use crate::bytes::{
    bytes16, get16, get32, in_bounds, lemma_bytes16, lemma_get16_in, read16, read32, u16le, u32le,
};
use vstd::prelude::*;

verus! {

/// Registrations the table holds.
pub const MAX_MUI: usize = 8;

pub const RT_STRING: u32 = 6;

pub const RT_MESSAGETABLE: u32 = 11;

/// One registration: a module base and its resource module.
pub struct MuiEntry {
    pub module_base: u64,
    pub mui: Vec<u8>,
}

/// The registrations, oldest first.
pub struct MuiTable {
    pub entries: Vec<MuiEntry>,
}

/// The first registration for a base.
pub open spec fn entry_index(entries: Seq<MuiEntry>, base: u64, from: int) -> Option<int>
    decreases entries.len() - from,
{
    if from < 0 || from >= entries.len() {
        None
    } else if entries[from].module_base == base {
        Some(from)
    } else {
        entry_index(entries, base, from + 1)
    }
}

/// The resource module registered for a base.
pub open spec fn registered_mui(t: &MuiTable, base: u64) -> Option<Seq<u8>> {
    match entry_index(t.entries@, base, 0) {
        Some(i) => Some(t.entries@[i].mui@),
        None => None,
    }
}

proof fn lemma_entry_index(entries: Seq<MuiEntry>, base: u64, from: int)
    requires
        0 <= from,
    ensures
        match entry_index(entries, base, from) {
            Some(k) => from <= k < entries.len() && entries[k].module_base == base && forall|i: int|
                from <= i < k ==> (#[trigger] entries[i]).module_base != base,
            None => forall|i: int|
                from <= i < entries.len() ==> (#[trigger] entries[i]).module_base != base,
        },
    decreases entries.len() - from,
{
    if from < entries.len() && entries[from].module_base != base {
        lemma_entry_index(entries, base, from + 1);
    }
}

proof fn lemma_entry_index_is(entries: Seq<MuiEntry>, base: u64, from: int, k: int)
    requires
        0 <= from <= k < entries.len(),
        entries[k].module_base == base,
        forall|i: int| from <= i < k ==> (#[trigger] entries[i]).module_base != base,
    ensures
        entry_index(entries, base, from) == Some(k),
    decreases k - from,
{
    if from < k {
        assert(entries[from].module_base != base);
        lemma_entry_index_is(entries, base, from + 1, k);
    }
}

impl MuiTable {
    /// The table holds at most [`MAX_MUI`] registrations, one for a base.
    pub open spec fn wf(&self) -> bool {
        &&& self.entries@.len() <= MAX_MUI
        &&& forall|i: int, j: int|
            0 <= i < j < self.entries@.len() ==> (#[trigger] self.entries@[i]).module_base != (
            #[trigger] self.entries@[j]).module_base
    }

    /// No registration.
    pub fn new() -> (t: Self)
        ensures
            t.wf(),
            t.entries@.len() == 0,
            forall|base: u64| #[trigger] registered_mui(&t, base) is None,
    {
        MuiTable { entries: Vec::new() }
    }
}

/// The position of a base's registration.
fn find(t: &MuiTable, base: u64) -> (r: Option<usize>)
    ensures
        match r {
            Some(i) => entry_index(t.entries@, base, 0) == Some(i as int) && i < t.entries@.len(),
            None => entry_index(t.entries@, base, 0) is None,
        },
{
    let mut i: usize = 0;
    while i < t.entries.len()
        invariant
            i <= t.entries@.len(),
            entry_index(t.entries@, base, 0) == entry_index(t.entries@, base, i as int),
        decreases t.entries@.len() - i,
    {
        if t.entries[i].module_base == base {
            return Some(i);
        }
        i = i + 1;
    }
    None
}

/// Register a resource module for `module_base`, replacing an earlier one. A
/// new base is dropped when the table is full.
pub fn register(t: &mut MuiTable, module_base: u64, mui: Vec<u8>)
    requires
        old(t).wf(),
    ensures
        final(t).wf(),
        final(t).entries@.len() == if registered_mui(old(t), module_base) is None
            && old(t).entries@.len() < MAX_MUI {
            old(t).entries@.len() + 1
        } else {
            old(t).entries@.len()
        },
        registered_mui(final(t), module_base) == if registered_mui(old(t), module_base) is Some
            || old(t).entries@.len() < MAX_MUI {
            Some(mui@)
        } else {
            None
        },
        forall|b: u64|
            b != module_base ==> #[trigger] registered_mui(final(t), b) == registered_mui(old(t), b),
{
    let ghost before = t.entries@;
    match find(t, module_base) {
        Some(i) => {
            t.entries.set(i, MuiEntry { module_base, mui });
            proof {
                let now = t.entries@;
                lemma_entry_index(before, module_base, 0);
                lemma_entry_index_is(now, module_base, 0, i as int);
                assert forall|b: u64| b != module_base implies #[trigger] registered_mui(t, b)
                    == registered_mui(old(t), b) by {
                    lemma_same_index(before, now, b, 0, i as int);
                }
            }
        },
        None => {
            if t.entries.len() < MAX_MUI {
                let n: usize = t.entries.len();
                t.entries.push(MuiEntry { module_base, mui });
                proof {
                    let now = t.entries@;
                    lemma_entry_index(before, module_base, 0);
                    lemma_entry_index_is(now, module_base, 0, n as int);
                    assert forall|b: u64| b != module_base implies #[trigger] registered_mui(t, b)
                        == registered_mui(old(t), b) by {
                        lemma_entry_index(before, b, 0);
                        lemma_entry_index(now, b, 0);
                        match entry_index(before, b, 0) {
                            Some(k) => {
                                lemma_entry_index_is(now, b, 0, k);
                            },
                            None => {},
                        }
                    }
                }
            }
        },
    }
}

/// Replacing the entry at `k`, of another base, moves no lookup of `b`.
proof fn lemma_same_index(a: Seq<MuiEntry>, c: Seq<MuiEntry>, b: u64, from: int, k: int)
    requires
        0 <= from,
        a.len() == c.len(),
        0 <= k < a.len(),
        a[k].module_base != b,
        c[k].module_base != b,
        forall|i: int| 0 <= i < a.len() && i != k ==> #[trigger] a[i] == c[i],
    ensures
        entry_index(a, b, from) == entry_index(c, b, from),
        entry_index(a, b, from) matches Some(i) ==> i != k && 0 <= i < a.len() && a[i] == c[i],
    decreases a.len() - from,
{
    if from < a.len() {
        if from != k {
            assert(a[from] == c[from]);
        }
        lemma_same_index(a, c, b, from + 1, k);
    }
}

// ---------------------------------------------------------------------------
// The file's section table
// ---------------------------------------------------------------------------
/// The number of sections and the offset of their table.
pub open spec fn section_table(m: Seq<u8>) -> Option<(int, int)> {
    match read32(m, 0x3C) {
        None => None,
        Some(e) => match (read16(m, e + 6), read16(m, e + 20)) {
            (Some(n), Some(opt)) => Some((n as int, e + 24 + opt)),
            _ => None,
        },
    }
}

/// The file offset of an address, searched from section `i` on. A section covers
/// the larger of its virtual and its raw size.
pub open spec fn offset_from(m: Seq<u8>, sec: int, n: int, rva: u32, i: int) -> Option<int>
    decreases n - i,
{
    if i >= n {
        None
    } else {
        let o = sec + i * 40;
        match (read32(m, o + 12), read32(m, o + 8), read32(m, o + 16), read32(m, o + 20)) {
            (Some(va), Some(vsz), Some(rsz), Some(rptr)) => {
                let span = if vsz >= rsz {
                    vsz
                } else {
                    rsz
                };
                if va <= rva < va + span {
                    Some(rptr + (rva - va))
                } else {
                    offset_from(m, sec, n, rva, i + 1)
                }
            },
            _ => None,
        }
    }
}

/// The file offset of an address.
pub open spec fn file_offset(m: Seq<u8>, rva: u32) -> Option<int> {
    match section_table(m) {
        None => None,
        Some((n, sec)) => offset_from(m, sec, n, rva, 0),
    }
}

/// The address of the `.rsrc` section, searched from section `i` on.
pub open spec fn resource_rva_from(m: Seq<u8>, sec: int, n: int, i: int) -> Option<u32>
    decreases n - i,
{
    if i >= n {
        None
    } else {
        let o = sec + i * 40;
        if !in_bounds(m, o, 5) {
            None
        } else if m.subrange(o, o + 5) == seq![0x2Eu8, 0x72, 0x73, 0x72, 0x63] {
            read32(m, o + 12)
        } else {
            resource_rva_from(m, sec, n, i + 1)
        }
    }
}

/// The file offset of the resource directory.
pub open spec fn resource_offset(m: Seq<u8>) -> Option<int> {
    match section_table(m) {
        None => None,
        Some((n, sec)) => match resource_rva_from(m, sec, n, 0) {
            None => None,
            Some(rva) => file_offset(m, rva),
        },
    }
}

fn sections(m: &[u8]) -> (r: Option<(u64, u64)>)
    ensures
        match r {
            Some((n, sec)) => section_table(m@) == Some((n as int, sec as int)) && n <= 0xFFFF && sec
                <= 0x2_0000_0000,
            None => section_table(m@) is None,
        },
{
    let e: u64 = u32le(m, 0x3C)? as u64;
    let nsec: u64 = u16le(m, e + 6)? as u64;
    let opt_size: u64 = u16le(m, e + 20)? as u64;
    Some((nsec, e + 24 + opt_size))
}

/// Translate a resource address to a file offset.
fn rva_to_off(m: &[u8], rva: u32) -> (r: Option<u64>)
    ensures
        match r {
            Some(o) => file_offset(m@, rva) == Some(o as int) && o <= 0x2_0000_0000,
            None => file_offset(m@, rva) is None,
        },
{
    let (nsec, sec) = sections(m)?;
    let mut i: u64 = 0;
    while i < nsec
        invariant
            i <= nsec <= 0xFFFF,
            sec <= 0x2_0000_0000,
            file_offset(m@, rva) == offset_from(m@, sec as int, nsec as int, rva, i as int),
        decreases nsec - i,
    {
        let o: u64 = sec + i * 40;
        let va: u32 = u32le(m, o + 12)?;
        let vsz: u32 = u32le(m, o + 8)?;
        let rsz: u32 = u32le(m, o + 16)?;
        let rptr: u32 = u32le(m, o + 20)?;
        let span: u32 = if vsz >= rsz {
            vsz
        } else {
            rsz
        };
        if rva >= va && rva - va < span {
            return Some(rptr as u64 + (rva - va) as u64);
        }
        i = i + 1;
    }
    None
}

/// Find the `.rsrc` section's address.
fn rsrc_rva(m: &[u8]) -> (r: Option<u32>)
    ensures
        r == match section_table(m@) {
            None => None,
            Some((n, sec)) => resource_rva_from(m@, sec, n, 0),
        },
{
    let (nsec, sec) = sections(m)?;
    let mut i: u64 = 0;
    while i < nsec
        invariant
            i <= nsec <= 0xFFFF,
            sec <= 0x2_0000_0000,
            section_table(m@) == Some((nsec as int, sec as int)),
            resource_rva_from(m@, sec as int, nsec as int, 0) == resource_rva_from(
                m@,
                sec as int,
                nsec as int,
                i as int,
            ),
        decreases nsec - i,
    {
        let o: u64 = sec + i * 40;
        if m.len() < 5 || o > (m.len() - 5) as u64 {
            return None;
        }
        let k: usize = o as usize;
        let hit: bool = m[k] == 0x2E && m[k + 1] == 0x72 && m[k + 2] == 0x73 && m[k + 3] == 0x72
            && m[k + 4] == 0x63;
        proof {
            let s = m@.subrange(o as int, o + 5);
            let name = seq![0x2Eu8, 0x72, 0x73, 0x72, 0x63];
            if hit {
                assert(s =~= name);
            } else {
                assert(s[0] == m@[o as int] && s[1] == m@[o + 1] && s[2] == m@[o + 2] && s[3]
                    == m@[o + 3] && s[4] == m@[o + 4]);
                assert(name[0] == 0x2E && name[1] == 0x72 && name[2] == 0x73 && name[3] == 0x72
                    && name[4] == 0x63);
                assert(s != name);
            }
        }
        if hit {
            return u32le(m, o + 12);
        }
        i = i + 1;
    }
    None
}

// ---------------------------------------------------------------------------
// The resource directory
// ---------------------------------------------------------------------------
/// The target of the directory entry with id `want`, searched from entry `i` on.
pub open spec fn dir_from(m: Seq<u8>, ent: int, ids: int, want: u32, i: int) -> Option<int>
    decreases ids - i,
{
    if i >= ids {
        None
    } else {
        match read32(m, ent + i * 8) {
            None => None,
            Some(id) => if id == want {
                match read32(m, ent + i * 8 + 4) {
                    None => None,
                    Some(t) => Some((t % 0x8000_0000) as int),
                }
            } else {
                dir_from(m, ent, ids, want, i + 1)
            },
        }
    }
}

/// The target of the entry with id `want` in the directory at `dir_rel` past the
/// resource base. Named entries come first and are skipped.
pub open spec fn dir_entry(m: Seq<u8>, res: int, dir_rel: int, want: u32) -> Option<int> {
    let base = res + dir_rel;
    match (read16(m, base + 12), read16(m, base + 14)) {
        (Some(named), Some(ids)) => dir_from(m, base + 16 + named * 8, ids as int, want, 0),
        _ => None,
    }
}

/// The entry with an id in a directory.
pub(crate) fn dir_find(m: &[u8], res_off: u64, dir_rel: u64, want_id: u32) -> (r: Option<u64>)
    requires
        res_off <= 0x2_0000_0000,
        dir_rel <= 0x8000_0000,
    ensures
        match r {
            Some(o) => dir_entry(m@, res_off as int, dir_rel as int, want_id) == Some(o as int) && o
                < 0x8000_0000,
            None => dir_entry(m@, res_off as int, dir_rel as int, want_id) is None,
        },
{
    let base: u64 = res_off + dir_rel;
    let named: u64 = u16le(m, base + 12)? as u64;
    let ids: u64 = u16le(m, base + 14)? as u64;
    let ent: u64 = base + 16 + named * 8;
    let mut i: u64 = 0;
    while i < ids
        invariant
            i <= ids <= 0xFFFF,
            ent <= 0x4_0000_0000,
            dir_entry(m@, res_off as int, dir_rel as int, want_id) == dir_from(
                m@,
                ent as int,
                ids as int,
                want_id,
                i as int,
            ),
        decreases ids - i,
    {
        let o: u64 = ent + i * 8;
        if u32le(m, o)? == want_id {
            let target: u32 = u32le(m, o + 4)?;
            return Some((target % 0x8000_0000) as u64);
        }
        i = i + 1;
    }
    None
}

/// The file offset of the data that the first language entry of the directory
/// at `name_dir` leads to.
pub open spec fn data_offset(m: Seq<u8>, res: int, name_dir: int) -> Option<int> {
    match read32(m, res + name_dir + 16 + 4) {
        None => None,
        Some(rel) => match read32(m, res + (rel % 0x8000_0000)) {
            None => None,
            Some(rva) => file_offset(m, rva),
        },
    }
}

fn data_off(m: &[u8], res_off: u64, name_dir: u64) -> (r: Option<u64>)
    requires
        res_off <= 0x2_0000_0000,
        name_dir <= 0x8000_0000,
    ensures
        match r {
            Some(o) => data_offset(m@, res_off as int, name_dir as int) == Some(o as int) && o
                <= 0x2_0000_0000,
            None => data_offset(m@, res_off as int, name_dir as int) is None,
        },
{
    let rel: u32 = u32le(m, res_off + name_dir + 16 + 4)?;
    let blob_rva: u32 = u32le(m, res_off + (rel % 0x8000_0000) as u64)?;
    rva_to_off(m, blob_rva)
}

fn res_base(m: &[u8]) -> (r: Option<u64>)
    ensures
        match r {
            Some(o) => resource_offset(m@) == Some(o as int) && o <= 0x2_0000_0000,
            None => resource_offset(m@) is None,
        },
{
    let rva: u32 = rsrc_rva(m)?;
    rva_to_off(m, rva)
}

// ---------------------------------------------------------------------------
// Strings
// ---------------------------------------------------------------------------
/// The offset after skipping `k` counted strings from `p` on.
pub open spec fn skip_strings(m: Seq<u8>, p: int, k: int) -> Option<int>
    decreases k,
{
    if k <= 0 {
        Some(p)
    } else {
        match read16(m, p) {
            None => None,
            Some(len) => skip_strings(m, p + 2 + len * 2, k - 1),
        }
    }
}

/// Text as read from a file: the units that the file holds, and whether these are all.
/// What is not found at all has no units and is not whole.
pub struct Excerpt {
    pub units: Seq<u16>,
    pub whole: bool,
}

/// Nothing could be read.
pub open spec fn nothing() -> Excerpt {
    Excerpt { units: Seq::empty(), whole: false }
}

/// The text, unless the file's end cuts it off.
pub open spec fn whole_text(x: Excerpt) -> Option<Seq<u16>> {
    if x.whole {
        Some(x.units)
    } else {
        None
    }
}

/// How many code units stand between `p` and the end of the file.
pub open spec fn units_left(m: Seq<u8>, p: int) -> int {
    if p <= m.len() {
        (m.len() - p) / 2
    } else {
        0
    }
}

/// The `n` code units at `p`, as far as the file goes.
pub open spec fn units_at(m: Seq<u8>, p: int, n: int) -> Excerpt {
    let k = if n <= units_left(m, p) {
        n
    } else {
        units_left(m, p)
    };
    Excerpt {
        units: Seq::new(k as nat, |i: int| get16(m, p + 2 * i) as u16),
        whole: n <= units_left(m, p),
    }
}

/// String `k` of the bundle at `p0`, cut to `cap` code units, as far as it can be read.
pub open spec fn bundled_excerpt(m: Seq<u8>, p0: int, k: int, cap: int) -> Excerpt {
    match skip_strings(m, p0, k) {
        None => nothing(),
        Some(p) => match read16(m, p) {
            None => nothing(),
            Some(len) => units_at(
                m,
                p + 2,
                if len <= cap {
                    len as int
                } else {
                    cap
                },
            ),
        },
    }
}

/// String `k` of the bundle at `p0`, cut to `cap` code units.
pub open spec fn bundled_string(m: Seq<u8>, p0: int, k: int, cap: int) -> Option<Seq<u16>> {
    whole_text(bundled_excerpt(m, p0, k, cap))
}

/// String `id` of a resource module, cut to `cap` code units, as far as it can be read:
/// item `id % 16` of bundle `id / 16 + 1`, each item a 16-bit length and that many units.
pub open spec fn string_excerpt(m: Seq<u8>, id: u32, cap: int) -> Excerpt {
    match resource_offset(m) {
        None => nothing(),
        Some(res) => match dir_entry(m, res, 0, RT_STRING) {
            None => nothing(),
            Some(type_dir) => match dir_entry(m, res, type_dir, (id / 16 + 1) as u32) {
                None => nothing(),
                Some(name_dir) => match data_offset(m, res, name_dir) {
                    None => nothing(),
                    Some(p0) => bundled_excerpt(m, p0, (id % 16) as int, cap),
                },
            },
        },
    }
}

/// String `id` of a resource module, cut to `cap` code units.
pub open spec fn string_resource(m: Seq<u8>, id: u32, cap: int) -> Option<Seq<u16>> {
    whole_text(string_excerpt(m, id, cap))
}

/// `out` with `text` written over its start.
pub open spec fn filled(out: Seq<u16>, text: Seq<u16>) -> Seq<u16> {
    text + out.skip(text.len() as int)
}

fn fill(out: &mut Vec<u16>, text: &Vec<u16>)
    requires
        text@.len() <= old(out)@.len(),
    ensures
        final(out)@ == filled(old(out)@, text@),
{
    let ghost before = out@;
    let mut i: usize = 0;
    while i < text.len()
        invariant
            i <= text@.len() <= out@.len(),
            before.len() == out@.len(),
            out@ == text@.take(i as int) + before.skip(i as int),
        decreases text@.len() - i,
    {
        out.set(i, text[i]);
        i = i + 1;
        assert(out@ =~= text@.take(i as int) + before.skip(i as int));
    }
    assert(text@.take(i as int) =~= text@);
}

/// What was read of a text, and whether that is all of it.
struct Found {
    units: Vec<u16>,
    whole: bool,
}

impl Found {
    spec fn excerpt(self) -> Excerpt {
        Excerpt { units: self.units@, whole: self.whole }
    }

    fn none() -> (f: Self)
        ensures
            f.excerpt() == nothing(),
    {
        let f = Found { units: Vec::new(), whole: false };
        assert(f.units@ =~= Seq::<u16>::empty());
        f
    }
}

fn read_units(m: &[u8], p: u64, n: usize) -> (f: Found)
    requires
        p <= 0x4_0000_0000,
        n <= 0xFFFF,
    ensures
        f.excerpt() == units_at(m@, p as int, n as int),
        f.units@.len() <= n,
{
    let mut v: Vec<u16> = Vec::new();
    let mut i: usize = 0;
    while i < n
        invariant
            i <= n <= 0xFFFF,
            p <= 0x4_0000_0000,
            i <= units_left(m@, p as int),
            v@ == units_at(m@, p as int, i as int).units,
        decreases n - i,
    {
        match u16le(m, p + 2 * i as u64) {
            Some(c) => {
                v.push(c);
                i = i + 1;
                assert(v@ =~= units_at(m@, p as int, i as int).units);
            },
            None => {
                assert(v@ =~= units_at(m@, p as int, n as int).units);
                return Found { units: v, whole: false };
            },
        }
    }
    Found { units: v, whole: true }
}

fn find_string(m: &[u8], id: u32, cap: usize) -> (f: Found)
    ensures
        f.excerpt() == string_excerpt(m@, id, cap as int),
        f.units@.len() <= cap,
{
    match string_bundle(m, id) {
        Some(start) => read_bundled(m, start, id % 16, cap),
        None => Found::none(),
    }
}

fn string_bundle(m: &[u8], id: u32) -> (r: Option<u64>)
    ensures
        match r {
            Some(p) => p <= 0x2_0000_0000 && forall|cap: int| #[trigger]
                string_excerpt(m@, id, cap) == bundled_excerpt(
                    m@,
                    p as int,
                    (id % 16) as int,
                    cap,
                ),
            None => forall|cap: int| #[trigger] string_excerpt(m@, id, cap) == nothing(),
        },
{
    let res_off: u64 = res_base(m)?;
    let type_dir: u64 = dir_find(m, res_off, 0, RT_STRING)?;
    let name_dir: u64 = dir_find(m, res_off, type_dir, id / 16 + 1)?;
    data_off(m, res_off, name_dir)
}

fn bundled_item(m: &[u8], start: u64, index: u32) -> (r: Option<u64>)
    requires
        start <= 0x2_0000_0000,
        index <= 15,
    ensures
        match r {
            Some(p) => skip_strings(m@, start as int, index as int) == Some(p as int) && p
                <= 0x2_0020_0000,
            None => skip_strings(m@, start as int, index as int) is None,
        },
{
    let mut p: u64 = start;
    let mut k: u32 = index;
    while k > 0
        invariant
            k <= 15,
            p <= 0x2_0000_0000 + (15 - k) * 0x2_0000,
            skip_strings(m@, start as int, index as int) == skip_strings(m@, p as int, k as int),
        decreases k,
    {
        let len: u64 = u16le(m, p)? as u64;
        p = p + 2 + len * 2;
        k = k - 1;
    }
    Some(p)
}

/// String `index` of the bundle at `start`, cut to `cap` code units.
fn read_bundled(m: &[u8], start: u64, index: u32, cap: usize) -> (f: Found)
    requires
        start <= 0x2_0000_0000,
        index <= 15,
    ensures
        f.excerpt() == bundled_excerpt(m@, start as int, index as int, cap as int),
        f.units@.len() <= cap,
{
    match bundled_item(m, start, index) {
        Some(p) => match u16le(m, p) {
            Some(len) => {
                let n: usize = if len as usize <= cap {
                    len as usize
                } else {
                    cap
                };
                read_units(m, p + 2, n)
            },
            None => Found::none(),
        },
        None => Found::none(),
    }
}

/// String `index` of the bundle at `start`, cut to `cap` code units.
pub(crate) fn find_bundled(m: &[u8], start: u64, index: u32, cap: usize) -> (r: Option<Vec<u16>>)
    requires
        start <= 0x2_0000_0000,
        index <= 15,
    ensures
        match r {
            Some(v) => bundled_string(m@, start as int, index as int, cap as int) == Some(v@)
                && v@.len() <= cap,
            None => bundled_string(m@, start as int, index as int, cap as int) is None,
        },
{
    let f = read_bundled(m, start, index, cap);
    if f.whole {
        Some(f.units)
    } else {
        None
    }
}

/// Write what was read over the start of `out`; the number of units if that is the whole
/// text, 0 otherwise.
fn deliver(out: &mut Vec<u16>, f: &Found) -> (n: usize)
    requires
        f.units@.len() <= old(out)@.len(),
    ensures
        delivered(f.excerpt(), old(out)@, final(out)@, n as int),
{
    fill(out, &f.units);
    if f.whole {
        f.units.len()
    } else {
        0
    }
}

/// `out` has become `out1`: the units read stand at its start, and the count is that of
/// a whole text, or 0.
pub open spec fn delivered(x: Excerpt, out: Seq<u16>, out1: Seq<u16>, n: int) -> bool {
    &&& out1 == filled(out, x.units)
    &&& out1.len() == out.len()
    &&& 0 <= n <= out.len()
    &&& n == if x.whole {
        x.units.len() as int
    } else {
        0
    }
}

/// Load string `id` from the resource module registered for `module_base` into
/// `out`. Returns the number of code units written, 0 if it is not found. Of a text that
/// the end of the file cuts off, the units before the cut are written, and 0 is returned.
pub fn load_string(t: &MuiTable, module_base: u64, id: u32, out: &mut Vec<u16>) -> (n: usize)
    ensures
        match registered_mui(t, module_base) {
            Some(m) => delivered(
                string_excerpt(m, id, old(out)@.len() as int),
                old(out)@,
                final(out)@,
                n as int,
            ),
            None => n == 0 && final(out)@ == old(out)@,
        },
{
    let i: usize = match find(t, module_base) {
        Some(i) => i,
        None => {
            return 0;
        },
    };
    load_string_from(t.entries[i].mui.as_slice(), id, out)
}

/// Load string `id` from a given resource module.
pub fn load_string_from(mui: &[u8], id: u32, out: &mut Vec<u16>) -> (n: usize)
    ensures
        delivered(
            string_excerpt(mui@, id, old(out)@.len() as int),
            old(out)@,
            final(out)@,
            n as int,
        ),
{
    let f = find_string(mui, id, out.len());
    deliver(out, &f)
}

// ---------------------------------------------------------------------------
// Messages
// ---------------------------------------------------------------------------
/// The offset after skipping `k` message entries from `p` on, by their lengths.
pub open spec fn skip_messages(m: Seq<u8>, p: int, k: int) -> Option<int>
    decreases k,
{
    if k <= 0 {
        Some(p)
    } else {
        match read16(m, p) {
            None => None,
            Some(len) => skip_messages(m, p + len, k - 1),
        }
    }
}

/// Up to `left` code units from `o` on, up to the first NUL, as far as the file goes.
pub open spec fn wide_text(m: Seq<u8>, o: int, left: int) -> Excerpt
    decreases left,
{
    if left <= 0 {
        Excerpt { units: Seq::empty(), whole: true }
    } else {
        match read16(m, o) {
            None => nothing(),
            Some(c) => if c == 0 {
                Excerpt { units: Seq::empty(), whole: true }
            } else {
                after(seq![c], wide_text(m, o + 2, left - 1))
            },
        }
    }
}

/// Up to `left` bytes from `o` on, up to the first NUL, as code units, as far as the
/// file goes.
pub open spec fn narrow_text(m: Seq<u8>, o: int, left: int) -> Excerpt
    decreases left,
{
    if left <= 0 {
        Excerpt { units: Seq::empty(), whole: true }
    } else if !in_bounds(m, o, 1) {
        nothing()
    } else if m[o] == 0 {
        Excerpt { units: Seq::empty(), whole: true }
    } else {
        after(seq![m[o] as u16], narrow_text(m, o + 1, left - 1))
    }
}

/// A text that starts with `s` and goes on with `x`.
pub open spec fn after(s: Seq<u16>, x: Excerpt) -> Excerpt {
    Excerpt { units: s + x.units, whole: x.whole }
}

/// The text of the message entry at `p`, cut to `cap` units: its length counts
/// the four header bytes, and the low bit of its flags says whether it is wide.
pub open spec fn message_at(m: Seq<u8>, p: int, cap: int) -> Excerpt {
    match (read16(m, p), read16(m, p + 2)) {
        (Some(len), Some(flags)) => {
            let bytes = if len >= 4 {
                len - 4
            } else {
                0
            };
            if flags % 2 == 1 {
                wide_text(
                    m,
                    p + 4,
                    if bytes / 2 <= cap {
                        bytes / 2
                    } else {
                        cap
                    },
                )
            } else {
                narrow_text(
                    m,
                    p + 4,
                    if bytes <= cap {
                        bytes
                    } else {
                        cap
                    },
                )
            }
        },
        _ => nothing(),
    }
}

/// Message `id` in the message table at `mdo`, searched from block `b` on.
pub open spec fn message_from(
    m: Seq<u8>,
    mdo: int,
    nblocks: int,
    id: u32,
    cap: int,
    b: int,
) -> Excerpt
    decreases nblocks - b,
{
    if b >= nblocks {
        nothing()
    } else {
        let bo = mdo + 4 + b * 12;
        match (read32(m, bo), read32(m, bo + 4), read32(m, bo + 8)) {
            (Some(low), Some(high), Some(off)) => if low <= id <= high {
                match skip_messages(m, mdo + off, id - low) {
                    None => nothing(),
                    Some(p) => message_at(m, p, cap),
                }
            } else {
                message_from(m, mdo, nblocks, id, cap, b + 1)
            },
            _ => nothing(),
        }
    }
}

/// The file offset of the message table: the data of the first name under the
/// message-table type.
pub open spec fn message_table(m: Seq<u8>) -> Option<int> {
    match resource_offset(m) {
        None => None,
        Some(res) => match dir_entry(m, res, 0, RT_MESSAGETABLE) {
            None => None,
            Some(type_dir) => match read16(m, res + type_dir + 12) {
                None => None,
                Some(named) => match read32(m, res + type_dir + 16 + named * 8 + 4) {
                    None => None,
                    Some(t) => data_offset(m, res, (t % 0x8000_0000) as int),
                },
            },
        },
    }
}

/// Message `id` of a resource module, cut to `cap` code units, as far as it can be read.
pub open spec fn message_excerpt(m: Seq<u8>, id: u32, cap: int) -> Excerpt {
    match message_table(m) {
        None => nothing(),
        Some(mdo) => match read32(m, mdo) {
            None => nothing(),
            Some(nblocks) => message_from(m, mdo, nblocks as int, id, cap, 0),
        },
    }
}

/// Message `id` of a resource module, cut to `cap` code units.
pub open spec fn message_resource(m: Seq<u8>, id: u32, cap: int) -> Option<Seq<u16>> {
    whole_text(message_excerpt(m, id, cap))
}

fn msg_table(m: &[u8]) -> (r: Option<u64>)
    ensures
        match r {
            Some(o) => message_table(m@) == Some(o as int) && o <= 0x2_0000_0000,
            None => message_table(m@) is None,
        },
{
    let res_off: u64 = res_base(m)?;
    let type_dir: u64 = dir_find(m, res_off, 0, RT_MESSAGETABLE)?;
    let named: u64 = u16le(m, res_off + type_dir + 12)? as u64;
    let target: u32 = u32le(m, res_off + type_dir + 16 + named * 8 + 4)?;
    data_off(m, res_off, (target % 0x8000_0000) as u64)
}

fn read_wide(m: &[u8], start: u64, n: usize) -> (f: Found)
    requires
        start <= 0x4_0000_0000_0000,
        n <= 0xFFFF,
    ensures
        f.excerpt() == wide_text(m@, start as int, n as int),
        f.units@.len() <= n,
{
    let mut v: Vec<u16> = Vec::new();
    let mut o: u64 = start;
    let mut left: usize = n;
    assert(after(v@, wide_text(m@, o as int, n as int)).units =~= wide_text(
        m@,
        o as int,
        n as int,
    ).units);
    while left > 0
        invariant
            left <= n <= 0xFFFF,
            o == start + 2 * (n - left),
            start <= 0x4_0000_0000_0000,
            v@.len() + left == n,
            wide_text(m@, start as int, n as int) == after(
                v@,
                wide_text(m@, o as int, left as int),
            ),
        decreases left,
    {
        let ghost acc = v@;
        assert(acc + Seq::<u16>::empty() =~= acc);
        match u16le(m, o) {
            None => {
                return Found { units: v, whole: false };
            },
            Some(c) => {
                if c == 0 {
                    return Found { units: v, whole: true };
                }
                v.push(c);
                o = o + 2;
                left = left - 1;
                proof {
                    let rest = wide_text(m@, o as int, left as int);
                    assert(acc + (seq![c] + rest.units) =~= v@ + rest.units);
                }
            },
        }
    }
    assert(v@ + Seq::<u16>::empty() =~= v@);
    Found { units: v, whole: true }
}

fn read_narrow(m: &[u8], start: u64, n: usize) -> (f: Found)
    requires
        start <= 0x4_0000_0000_0000,
        n <= 0xFFFF,
    ensures
        f.excerpt() == narrow_text(m@, start as int, n as int),
        f.units@.len() <= n,
{
    let mut v: Vec<u16> = Vec::new();
    let mut o: u64 = start;
    let mut left: usize = n;
    assert(after(v@, narrow_text(m@, o as int, n as int)).units =~= narrow_text(
        m@,
        o as int,
        n as int,
    ).units);
    while left > 0
        invariant
            left <= n <= 0xFFFF,
            o == start + (n - left),
            start <= 0x4_0000_0000_0000,
            v@.len() + left == n,
            narrow_text(m@, start as int, n as int) == after(
                v@,
                narrow_text(m@, o as int, left as int),
            ),
        decreases left,
    {
        let ghost acc = v@;
        assert(acc + Seq::<u16>::empty() =~= acc);
        if o >= m.len() as u64 {
            return Found { units: v, whole: false };
        }
        let c: u8 = m[o as usize];
        if c == 0 {
            return Found { units: v, whole: true };
        }
        v.push(c as u16);
        o = o + 1;
        left = left - 1;
        proof {
            let rest = narrow_text(m@, o as int, left as int);
            assert(acc + (seq![c as u16] + rest.units) =~= v@ + rest.units);
        }
    }
    assert(v@ + Seq::<u16>::empty() =~= v@);
    Found { units: v, whole: true }
}

fn message_text(m: &[u8], p: u64, cap: usize) -> (f: Found)
    requires
        p <= 0x2_0000_0000_0000,
    ensures
        f.excerpt() == message_at(m@, p as int, cap as int),
        f.units@.len() <= cap,
{
    match (u16le(m, p), u16le(m, p + 2)) {
        (Some(len), Some(flags)) => {
            let bytes: usize = if len >= 4 {
                (len - 4) as usize
            } else {
                0
            };
            let held: usize = if flags % 2 == 1 {
                bytes / 2
            } else {
                bytes
            };
            let n: usize = if held <= cap {
                held
            } else {
                cap
            };
            if flags % 2 == 1 {
                read_wide(m, p + 4, n)
            } else {
                read_narrow(m, p + 4, n)
            }
        },
        _ => Found::none(),
    }
}

fn find_message(m: &[u8], id: u32, cap: usize) -> (f: Found)
    ensures
        f.excerpt() == message_excerpt(m@, id, cap as int),
        f.units@.len() <= cap,
{
    match message_entry(m, id) {
        Some(p) => message_text(m, p, cap),
        None => Found::none(),
    }
}

fn message_entry(m: &[u8], id: u32) -> (r: Option<u64>)
    ensures
        match r {
            Some(p) => p <= 0x2_0000_0000_0000 && forall|cap: int| #[trigger]
                message_excerpt(m@, id, cap) == message_at(m@, p as int, cap),
            None => forall|cap: int| #[trigger] message_excerpt(m@, id, cap) == nothing(),
        },
{
    let mdo: u64 = msg_table(m)?;
    let nblocks: u64 = u32le(m, mdo)? as u64;
    let mut b: u64 = 0;
    while b < nblocks
        invariant
            b <= nblocks <= 0xFFFF_FFFF,
            mdo <= 0x2_0000_0000,
            forall|cap: int| #[trigger]
                message_excerpt(m@, id, cap) == message_from(
                    m@,
                    mdo as int,
                    nblocks as int,
                    id,
                    cap,
                    b as int,
                ),
        decreases nblocks - b,
    {
        let bo: u64 = mdo + 4 + b * 12;
        let low: u32 = u32le(m, bo)?;
        let high: u32 = u32le(m, bo + 4)?;
        let off: u64 = u32le(m, bo + 8)? as u64;
        if id >= low && id <= high {
            let mut p: u64 = mdo + off;
            let mut k: u32 = id - low;
            while k > 0
                invariant
                    low <= id,
                    k <= id - low,
                    p <= 0x4_0000_0000 + (id - low - k) * 0x1_0000,
                    forall|cap: int| #[trigger]
                        message_excerpt(m@, id, cap) == match skip_messages(
                            m@,
                            p as int,
                            k as int,
                        ) {
                            None => nothing(),
                            Some(p) => message_at(m@, p, cap),
                        },
                decreases k,
            {
                let len: u64 = u16le(m, p)? as u64;
                p = p + len;
                k = k - 1;
            }
            return Some(p);
        }
        b = b + 1;
    }
    None
}

/// Load message `id` from the message table of the resource module registered
/// for `module_base` into `out`. Returns the number of code units written, 0 if it is not
/// found. Of a text that the end of the file cuts off, the units before the cut are
/// written, and 0 is returned.
pub fn load_message(t: &MuiTable, module_base: u64, id: u32, out: &mut Vec<u16>) -> (n: usize)
    ensures
        match registered_mui(t, module_base) {
            Some(m) => delivered(
                message_excerpt(m, id, old(out)@.len() as int),
                old(out)@,
                final(out)@,
                n as int,
            ),
            None => n == 0 && final(out)@ == old(out)@,
        },
{
    let i: usize = match find(t, module_base) {
        Some(i) => i,
        None => {
            return 0;
        },
    };
    load_message_from(t.entries[i].mui.as_slice(), id, out)
}

/// Load message `id` from a given resource module.
pub fn load_message_from(mui: &[u8], id: u32, out: &mut Vec<u16>) -> (n: usize)
    ensures
        delivered(
            message_excerpt(mui@, id, old(out)@.len() as int),
            old(out)@,
            final(out)@,
            n as int,
        ),
{
    let f = find_message(mui, id, out.len());
    deliver(out, &f)
}

/// A message never runs past its first NUL.
pub proof fn message_text_has_no_nul(m: Seq<u8>, o: int, left: int)
    ensures
        wide_text(m, o, left).units.len() <= vstd::math::max(0, left),
        forall|i: int|
            0 <= i < wide_text(m, o, left).units.len() ==> #[trigger] wide_text(
                m,
                o,
                left,
            ).units[i] != 0,
        narrow_text(m, o, left).units.len() <= vstd::math::max(0, left),
        forall|i: int|
            0 <= i < narrow_text(m, o, left).units.len() ==> #[trigger] narrow_text(
                m,
                o,
                left,
            ).units[i] != 0,
    decreases left,
{
    if left > 0 {
        message_text_has_no_nul(m, o + 2, left - 1);
        message_text_has_no_nul(m, o + 1, left - 1);
    }
}

// ---------------------------------------------------------------------------
// Laws
// ---------------------------------------------------------------------------
/// Code units as bytes, low byte first.
pub open spec fn unit_bytes(u: Seq<u16>) -> Seq<u8>
    decreases u.len(),
{
    if u.len() == 0 {
        Seq::empty()
    } else {
        unit_bytes(u.drop_last()) + bytes16(u.last())
    }
}

/// A string as it stands in a bundle: its length and its units.
pub open spec fn item_bytes(u: Seq<u16>) -> Seq<u8> {
    bytes16(u.len() as u16) + unit_bytes(u)
}

/// A bundle: its strings one after the other.
pub open spec fn bundle_bytes(items: Seq<Seq<u16>>) -> Seq<u8>
    decreases items.len(),
{
    if items.len() == 0 {
        Seq::empty()
    } else {
        item_bytes(items[0]) + bundle_bytes(items.skip(1))
    }
}

/// `b` stands at `p` in a file.
pub open spec fn stands_at(m: Seq<u8>, p: int, b: Seq<u8>) -> bool {
    0 <= p && p + b.len() <= m.len() && m.subrange(p, p + b.len()) == b
}

proof fn lemma_stands_parts(m: Seq<u8>, p: int, a: Seq<u8>, b: Seq<u8>)
    requires
        stands_at(m, p, a + b),
    ensures
        stands_at(m, p, a),
        stands_at(m, p + a.len(), b),
{
    let w = m.subrange(p, p + (a + b).len());
    assert(m.subrange(p, p + a.len()) =~= w.subrange(0, a.len() as int));
    assert(w.subrange(0, a.len() as int) =~= a);
    assert(m.subrange(p + a.len(), p + a.len() + b.len()) =~= w.subrange(
        a.len() as int,
        (a + b).len() as int,
    ));
    assert(w.subrange(a.len() as int, (a + b).len() as int) =~= b);
}

proof fn lemma_word_at(m: Seq<u8>, p: int, v: u16)
    requires
        stands_at(m, p, bytes16(v)),
    ensures
        in_bounds(m, p, 2),
        read16(m, p) == Some(v),
        get16(m, p) == v,
{
    lemma_bytes16(v);
    let w = m.subrange(p, p + 2);
    assert forall|k: int| 0 <= k < 2 implies m[p + k] == #[trigger] bytes16(v)[k] by {
        assert(w[k] == m[p + k]);
    }
    lemma_get16_in(m, p, bytes16(v));
}

proof fn lemma_unit_bytes(u: Seq<u16>)
    ensures
        unit_bytes(u).len() == 2 * u.len(),
    decreases u.len(),
{
    if u.len() > 0 {
        lemma_unit_bytes(u.drop_last());
    }
}

proof fn lemma_units_stand(m: Seq<u8>, p: int, u: Seq<u16>, i: int)
    requires
        stands_at(m, p, unit_bytes(u)),
        0 <= i < u.len(),
    ensures
        in_bounds(m, p + 2 * i, 2),
        get16(m, p + 2 * i) == u[i],
    decreases u.len(),
{
    lemma_unit_bytes(u);
    lemma_unit_bytes(u.drop_last());
    lemma_stands_parts(m, p, unit_bytes(u.drop_last()), bytes16(u.last()));
    if i < u.len() - 1 {
        lemma_units_stand(m, p, u.drop_last(), i);
    } else {
        lemma_word_at(m, p + 2 * i, u.last());
    }
}

proof fn lemma_skip_to(m: Seq<u8>, p: int, items: Seq<Seq<u16>>, k: int)
    requires
        stands_at(m, p, bundle_bytes(items)),
        0 <= k < items.len(),
        forall|i: int| 0 <= i < items.len() ==> (#[trigger] items[i]).len() <= 0xFFFF,
    ensures
        skip_strings(m, p, k) matches Some(q) && stands_at(m, q, item_bytes(items[k])),
    decreases k,
{
    let first = items[0];
    let rest = items.skip(1);
    lemma_stands_parts(m, p, item_bytes(first), bundle_bytes(rest));
    if k > 0 {
        lemma_stands_parts(m, p, bytes16(first.len() as u16), unit_bytes(first));
        lemma_word_at(m, p, first.len() as u16);
        lemma_unit_bytes(first);
        assert(items[0].len() <= 0xFFFF);
        assert(rest[k - 1] == items[k]);
        assert forall|i: int| 0 <= i < rest.len() implies (#[trigger] rest[i]).len()
            <= 0xFFFF by {
            assert(items[i + 1].len() <= 0xFFFF);
        }
        lemma_skip_to(m, p + item_bytes(first).len(), rest, k - 1);
    }
}

/// A bundle gives back its strings: whatever the lengths of those before it, string `k` is
/// found, cut to the room there is.
pub proof fn a_bundle_gives_back_its_strings(
    m: Seq<u8>,
    p: int,
    items: Seq<Seq<u16>>,
    k: int,
    cap: int,
)
    requires
        stands_at(m, p, bundle_bytes(items)),
        0 <= k < items.len(),
        forall|i: int| 0 <= i < items.len() ==> (#[trigger] items[i]).len() <= 0xFFFF,
        0 <= cap,
    ensures
        bundled_string(m, p, k, cap) == Some(
            if items[k].len() <= cap {
                items[k]
            } else {
                items[k].take(cap)
            },
        ),
{
    lemma_skip_to(m, p, items, k);
    let q = skip_strings(m, p, k)->Some_0;
    let u = items[k];
    let len = u.len() as u16;
    assert(u.len() <= 0xFFFF);
    lemma_stands_parts(m, q, bytes16(len), unit_bytes(u));
    lemma_word_at(m, q, len);
    lemma_unit_bytes(u);
    let n = if len <= cap {
        len as int
    } else {
        cap
    };
    let x = units_at(m, q + 2, n);
    assert(x.whole);
    assert forall|i: int| 0 <= i < n implies #[trigger] x.units[i] == u[i] by {
        lemma_units_stand(m, q + 2, u, i);
    }
    if len <= cap {
        assert(x.units =~= u);
    } else {
        assert(x.units =~= u.take(cap));
    }
}

/// String `id` of a resource module is item `id % 16` of the string bundle `id / 16 + 1`,
/// under the type 6: for a module whose bundle is laid out from `items`, it is their item.
pub proof fn a_string_is_found_by_its_number(
    m: Seq<u8>,
    res: int,
    type_dir: int,
    name_dir: int,
    p: int,
    items: Seq<Seq<u16>>,
    id: u32,
    cap: int,
)
    requires
        resource_offset(m) == Some(res),
        dir_entry(m, res, 0, 6) == Some(type_dir),
        dir_entry(m, res, type_dir, (id / 16 + 1) as u32) == Some(name_dir),
        data_offset(m, res, name_dir) == Some(p),
        stands_at(m, p, bundle_bytes(items)),
        items.len() == 16,
        forall|i: int| 0 <= i < items.len() ==> (#[trigger] items[i]).len() <= 0xFFFF,
        items[(id % 16) as int].len() <= cap,
    ensures
        string_resource(m, id, cap) == Some(items[(id % 16) as int]),
{
    a_bundle_gives_back_its_strings(m, p, items, (id % 16) as int, cap);
}

/// A resource directory holds its named entries first and its numbered ones behind them,
/// eight bytes each; an entry is found by its number, and its target lacks the top bit.
pub proof fn a_directory_entry_is_found_by_its_number(
    m: Seq<u8>,
    res: int,
    dir: int,
    named: int,
    ids: int,
    want: u32,
    i: int,
)
    requires
        0 <= res,
        0 <= dir,
        in_bounds(m, res + dir, 16 + 8 * named + 8 * ids),
        get16(m, res + dir + 12) == named,
        get16(m, res + dir + 14) == ids,
        0 <= i < ids,
        get32(m, res + dir + 16 + 8 * (named + i)) == want,
        forall|k: int|
            0 <= k < i ==> #[trigger] get32(m, res + dir + 16 + 8 * (named + k)) != want,
    ensures
        dir_entry(m, res, dir, want) == Some(
            get32(m, res + dir + 20 + 8 * (named + i)) % 0x8000_0000,
        ),
{
    let ent = res + dir + 16 + 8 * named;
    assert forall|k: int| 0 <= k < i implies #[trigger] get32(m, ent + 8 * k) != want by {
        assert(get32(m, res + dir + 16 + 8 * (named + k)) != want);
    }
    lemma_dir_from(m, ent, ids, want, 0, i);
}

proof fn lemma_dir_from(m: Seq<u8>, ent: int, ids: int, want: u32, from: int, i: int)
    requires
        0 <= from <= i < ids,
        in_bounds(m, ent, 8 * ids),
        get32(m, ent + 8 * i) == want,
        forall|k: int| from <= k < i ==> #[trigger] get32(m, ent + 8 * k) != want,
    ensures
        dir_from(m, ent, ids, want, from) == Some(get32(m, ent + 8 * i + 4) % 0x8000_0000),
    decreases i - from,
{
    if from < i {
        assert(get32(m, ent + 8 * from) != want);
        lemma_dir_from(m, ent, ids, want, from + 1, i);
    }
}

/// Addresses of one section lie as far apart in the file as they do in memory.
pub proof fn file_offsets_keep_distances(m: Seq<u8>, sec: int, n: int, rva: u32, d: u32, i: int)
    requires
        0 <= i < n,
        0 <= sec,
        in_bounds(m, sec, 40 * n),
        get32(m, sec + 40 * i + 12) <= rva,
        rva + d < get32(m, sec + 40 * i + 12) + get32(m, sec + 40 * i + 16),
        forall|k: int|
            0 <= k < i ==> {
                let va = #[trigger] get32(m, sec + 40 * k + 12);
                rva + d < va || (va + get32(m, sec + 40 * k + 8) <= rva && va + get32(
                    m,
                    sec + 40 * k + 16,
                ) <= rva)
            },
        section_table(m) == Some((n, sec)),
        rva + d <= u32::MAX,
    ensures
        file_offset(m, rva) == Some(
            get32(m, sec + 40 * i + 20) + (rva - get32(m, sec + 40 * i + 12)),
        ),
        file_offset(m, (rva + d) as u32) == Some(file_offset(m, rva)->Some_0 + d),
{
    lemma_offset_from(m, sec, n, rva, d, 0, i);
    lemma_offset_from(m, sec, n, rva, 0, 0, i);
}

proof fn lemma_offset_from(m: Seq<u8>, sec: int, n: int, rva: u32, d: u32, from: int, i: int)
    requires
        0 <= from <= i < n,
        0 <= sec,
        in_bounds(m, sec, 40 * n),
        get32(m, sec + 40 * i + 12) <= rva,
        rva + d < get32(m, sec + 40 * i + 12) + get32(m, sec + 40 * i + 16),
        rva + d <= u32::MAX,
        forall|k: int|
            from <= k < i ==> {
                let va = #[trigger] get32(m, sec + 40 * k + 12);
                rva + d < va || (va + get32(m, sec + 40 * k + 8) <= rva && va + get32(
                    m,
                    sec + 40 * k + 16,
                ) <= rva)
            },
    ensures
        offset_from(m, sec, n, (rva + d) as u32, from) == Some(
            get32(m, sec + 40 * i + 20) + (rva + d - get32(m, sec + 40 * i + 12)),
        ),
    decreases i - from,
{
    if from < i {
        let va = get32(m, sec + 40 * from + 12);
        lemma_offset_from(m, sec, n, rva, d, from + 1, i);
    }
}

/// A message entry: its length, its flags and its text.
pub open spec fn entry_bytes(flags: u16, text: Seq<u8>) -> Seq<u8> {
    bytes16((4 + text.len()) as u16) + bytes16(flags) + text
}

/// Message entries one after the other.
pub open spec fn entries_bytes(entries: Seq<(u16, Seq<u8>)>) -> Seq<u8>
    decreases entries.len(),
{
    if entries.len() == 0 {
        Seq::empty()
    } else {
        entry_bytes(entries[0].0, entries[0].1) + entries_bytes(entries.skip(1))
    }
}

proof fn lemma_skip_entries(m: Seq<u8>, p: int, entries: Seq<(u16, Seq<u8>)>, k: int)
    requires
        stands_at(m, p, entries_bytes(entries)),
        0 <= k < entries.len(),
        forall|i: int| 0 <= i < entries.len() ==> (#[trigger] entries[i]).1.len() <= 0xFFFB,
    ensures
        skip_messages(m, p, k) matches Some(q) && stands_at(
            m,
            q,
            entry_bytes(entries[k].0, entries[k].1),
        ),
    decreases k,
{
    let (flags, text) = entries[0];
    let rest = entries.skip(1);
    lemma_stands_parts(m, p, entry_bytes(flags, text), entries_bytes(rest));
    if k > 0 {
        assert(entries[0].1.len() <= 0xFFFB);
        let head = bytes16((4 + text.len()) as u16) + bytes16(flags);
        lemma_stands_parts(m, p, head, text);
        lemma_stands_parts(m, p, bytes16((4 + text.len()) as u16), bytes16(flags));
        lemma_word_at(m, p, (4 + text.len()) as u16);
        assert(rest[k - 1] == entries[k]);
        assert forall|i: int| 0 <= i < rest.len() implies (#[trigger] rest[i]).1.len()
            <= 0xFFFB by {
            assert(entries[i + 1].1.len() <= 0xFFFB);
        }
        lemma_skip_entries(m, p + entry_bytes(flags, text).len(), rest, k - 1);
    }
}

proof fn lemma_wide_text(m: Seq<u8>, o: int, u: Seq<u16>, at: int, left: int)
    requires
        stands_at(m, o, unit_bytes(u)),
        0 <= at <= u.len(),
        forall|i: int| 0 <= i < u.len() ==> #[trigger] u[i] != 0,
        left == u.len() - at || (left > u.len() - at && in_bounds(m, o + 2 * u.len(), 2) && get16(
            m,
            o + 2 * u.len(),
        ) == 0),
    ensures
        wide_text(m, o + 2 * at, left).units == u.skip(at),
        wide_text(m, o + 2 * at, left).whole,
    decreases u.len() - at,
{
    if at < u.len() {
        lemma_units_stand(m, o, u, at);
        lemma_wide_text(m, o, u, at + 1, left - 1);
        assert(seq![u[at]] + u.skip(at + 1) =~= u.skip(at));
    } else {
        assert(u.skip(at) =~= Seq::<u16>::empty());
    }
}

/// Bytes as code units.
pub open spec fn widened_bytes(b: Seq<u8>) -> Seq<u16> {
    Seq::new(b.len(), |i: int| b[i] as u16)
}

proof fn lemma_narrow_text(m: Seq<u8>, o: int, b: Seq<u8>, at: int, left: int)
    requires
        stands_at(m, o, b),
        0 <= at <= b.len(),
        forall|i: int| 0 <= i < b.len() ==> #[trigger] b[i] != 0,
        left == b.len() - at || (left > b.len() - at && in_bounds(m, o + b.len(), 1) && m[o
            + b.len()] == 0),
    ensures
        narrow_text(m, o + at, left).units == widened_bytes(b).skip(at),
        narrow_text(m, o + at, left).whole,
    decreases b.len() - at,
{
    if at < b.len() {
        assert(m.subrange(o, o + b.len())[at] == b[at]);
        lemma_narrow_text(m, o, b, at + 1, left - 1);
        assert(seq![b[at] as u16] + widened_bytes(b).skip(at + 1) =~= widened_bytes(b).skip(at));
    } else {
        assert(widened_bytes(b).skip(at) =~= Seq::<u16>::empty());
    }
}

/// Entries of a message table give back their texts: wide ones by their units, others by
/// their bytes, whatever the lengths of the entries before them. A NUL ends the text.
pub proof fn message_entries_give_back_their_texts(
    m: Seq<u8>,
    p: int,
    entries: Seq<(u16, Seq<u8>)>,
    k: int,
    wide: Seq<u16>,
    narrow: Seq<u8>,
    padding: Seq<u8>,
    cap: int,
)
    requires
        stands_at(m, p, entries_bytes(entries)),
        0 <= k < entries.len(),
        forall|i: int| 0 <= i < entries.len() ==> (#[trigger] entries[i]).1.len() <= 0xFFFB,
        if entries[k].0 % 2 == 1 {
            &&& entries[k].1 == unit_bytes(wide) + padding
            &&& padding.len() % 2 == 0
            &&& padding.len() > 0 ==> padding[0] == 0 && padding[1] == 0
            &&& forall|i: int| 0 <= i < wide.len() ==> #[trigger] wide[i] != 0
            &&& wide.len() <= cap
        } else {
            &&& entries[k].1 == narrow + padding
            &&& padding.len() > 0 ==> padding[0] == 0
            &&& forall|i: int| 0 <= i < narrow.len() ==> #[trigger] narrow[i] != 0
            &&& narrow.len() <= cap
        },
    ensures
        skip_messages(m, p, k) matches Some(q) && whole_text(message_at(m, q, cap)) == Some(
            if entries[k].0 % 2 == 1 {
                wide
            } else {
                widened_bytes(narrow)
            },
        ),
{
    lemma_skip_entries(m, p, entries, k);
    let q = skip_messages(m, p, k)->Some_0;
    let (flags, text) = entries[k];
    assert(text.len() <= 0xFFFB);
    let len = (4 + text.len()) as u16;
    let head = bytes16(len) + bytes16(flags);
    lemma_stands_parts(m, q, head, text);
    lemma_stands_parts(m, q, bytes16(len), bytes16(flags));
    lemma_word_at(m, q, len);
    lemma_word_at(m, q + 2, flags);
    if flags % 2 == 1 {
        lemma_unit_bytes(wide);
        lemma_stands_parts(m, q + 4, unit_bytes(wide), padding);
        let n = if text.len() / 2 <= cap {
            text.len() as int / 2
        } else {
            cap
        };
        if padding.len() > 0 {
            let w = m.subrange(
                q + 4 + 2 * wide.len(),
                q + 4 + 2 * wide.len() + padding.len(),
            );
            assert(w[0] == padding[0] && w[1] == padding[1]);
        }
        lemma_wide_text(m, q + 4, wide, 0, n);
        assert(wide.skip(0) =~= wide);
    } else {
        lemma_stands_parts(m, q + 4, narrow, padding);
        let n = if text.len() <= cap {
            text.len() as int
        } else {
            cap
        };
        if padding.len() > 0 {
            let w = m.subrange(q + 4 + narrow.len(), q + 4 + narrow.len() + padding.len());
            assert(w[0] == padding[0]);
        }
        lemma_narrow_text(m, q + 4, narrow, 0, n);
        assert(widened_bytes(narrow).skip(0) =~= widened_bytes(narrow));
    }
}

/// Message `id` is entry `id - low` of the first block whose range `low ..= high` holds it;
/// a block is twelve bytes, and its entries stand as far from the table's start as it says.
pub proof fn a_message_is_found_in_its_block(
    m: Seq<u8>,
    mdo: int,
    nblocks: int,
    id: u32,
    cap: int,
    b: int,
)
    requires
        0 <= mdo,
        0 <= b < nblocks,
        in_bounds(m, mdo, 4 + 12 * nblocks),
        message_table(m) == Some(mdo),
        get32(m, mdo) == nblocks,
        get32(m, mdo + 4 + 12 * b) <= id <= get32(m, mdo + 8 + 12 * b),
        forall|k: int|
            0 <= k < b ==> {
                ||| id < #[trigger] get32(m, mdo + 4 + 12 * k)
                ||| id > get32(m, mdo + 8 + 12 * k)
            },
    ensures
        message_excerpt(m, id, cap) == match skip_messages(
            m,
            mdo + get32(m, mdo + 12 + 12 * b),
            id - get32(m, mdo + 4 + 12 * b),
        ) {
            Some(p) => message_at(m, p, cap),
            None => nothing(),
        },
{
    lemma_block_found(m, mdo, nblocks, id, cap, 0, b);
}

proof fn lemma_block_found(
    m: Seq<u8>,
    mdo: int,
    nblocks: int,
    id: u32,
    cap: int,
    from: int,
    b: int,
)
    requires
        0 <= mdo,
        0 <= from <= b < nblocks,
        in_bounds(m, mdo, 4 + 12 * nblocks),
        get32(m, mdo + 4 + 12 * b) <= id <= get32(m, mdo + 8 + 12 * b),
        forall|k: int|
            from <= k < b ==> {
                ||| id < #[trigger] get32(m, mdo + 4 + 12 * k)
                ||| id > get32(m, mdo + 8 + 12 * k)
            },
    ensures
        message_from(m, mdo, nblocks, id, cap, from) == match skip_messages(
            m,
            mdo + get32(m, mdo + 12 + 12 * b),
            id - get32(m, mdo + 4 + 12 * b),
        ) {
            Some(p) => message_at(m, p, cap),
            None => nothing(),
        },
    decreases b - from,
{
    if from < b {
        let low = get32(m, mdo + 4 + 12 * from);
        lemma_block_found(m, mdo, nblocks, id, cap, from + 1, b);
    }
}

/// The sections of a module stand behind its headers: their number and the size of the
/// optional header are in the file header.
pub proof fn sections_stand_behind_the_headers(m: Seq<u8>, e: int)
    requires
        in_bounds(m, 0, 64),
        get32(m, 0x3C) == e,
        in_bounds(m, e, 24),
    ensures
        section_table(m) == Some((get16(m, e + 6), e + 24 + get16(m, e + 20))),
{
}

/// The resources are in the first section whose name starts with `.rsrc`, at that section's
/// address.
pub proof fn resources_are_in_their_section(m: Seq<u8>, sec: int, n: int, k: int, i: int)
    requires
        0 <= i <= k < n,
        0 <= sec,
        in_bounds(m, sec, 40 * n),
        forall|j: int|
            i <= j < k ==> !(#[trigger] m.subrange(sec + 40 * j, sec + 40 * j + 5) == seq![
                0x2Eu8,
                0x72,
                0x73,
                0x72,
                0x63,
            ]),
        m.subrange(sec + 40 * k, sec + 40 * k + 5) == seq![0x2Eu8, 0x72, 0x73, 0x72, 0x63],
    ensures
        resource_rva_from(m, sec, n, i) == Some(get32(m, sec + 40 * k + 12) as u32),
    decreases k - i,
{
    if i < k {
        assert(!(m.subrange(sec + 40 * i, sec + 40 * i + 5) == seq![
            0x2Eu8,
            0x72,
            0x73,
            0x72,
            0x63,
        ]));
        resources_are_in_their_section(m, sec, n, k, i + 1);
    }
}

/// The data of a resource is where the first entry of its last directory leads: the entry
/// names a record without the top bit, and the record starts with the address of the data.
pub proof fn data_is_where_its_record_says(m: Seq<u8>, res: int, dir: int, rel: int)
    requires
        0 <= res,
        0 <= dir,
        in_bounds(m, res + dir, 24),
        get32(m, res + dir + 20) % 0x8000_0000 == rel,
        in_bounds(m, res + rel, 4),
    ensures
        data_offset(m, res, dir) == file_offset(m, get32(m, res + rel) as u32),
{
}

/// A string is looked up by its type, 6, then by its bundle of sixteen, counted from one, then
/// by its place in the bundle.
pub proof fn a_string_is_looked_up_by_its_bundle(
    m: Seq<u8>,
    id: u32,
    cap: int,
    res: int,
    t: int,
    n: int,
    p: int,
)
    requires
        resource_offset(m) == Some(res),
        dir_entry(m, res, 0, 6) == Some(t),
        dir_entry(m, res, t, (id / 16 + 1) as u32) == Some(n),
        data_offset(m, res, n) == Some(p),
    ensures
        string_excerpt(m, id, cap) == bundled_excerpt(m, p, (id % 16) as int, cap),
{
}

/// Messages are in one table: of type 11, behind the named entries of its directory.
pub proof fn messages_are_in_one_table(m: Seq<u8>, res: int, t: int, named: int)
    requires
        resource_offset(m) == Some(res),
        dir_entry(m, res, 0, 11) == Some(t),
        0 <= res,
        0 <= t,
        in_bounds(m, res + t, 16 + 8 * named + 8),
        get16(m, res + t + 12) == named,
    ensures
        message_table(m) == data_offset(
            m,
            res,
            get32(m, res + t + 16 + 8 * named + 4) % 0x8000_0000,
        ),
{
}

} // verus!
