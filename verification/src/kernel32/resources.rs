//! Resources of a mapped image: strings and the version block.
use crate::bytes::{get16, get32, in_bounds, read16, read32, u16le, u32le};
use crate::kernel32::strings::{ended, text, wstrlen};
use crate::ldr::mui::{bundled_string, dir_entry, dir_find, find_bundled, RT_STRING};
use crate::ldr::pe::{directory, headers, ImageHeaders};
use crate::rtl::string::{lower_unit, to_lower_unit};
use vstd::prelude::*;
use vstd::slice::slice_subrange;

verus! {

pub const RT_VERSION: u32 = 16;

/// The address of the resource directory: the third data directory of an image
/// that starts with `MZ`.
pub open spec fn resource_base(m: Seq<u8>) -> Option<int> {
    if read16(m, 0) != Some(0x5A4Du16) {
        None
    } else {
        match read32(m, 0x3C) {
            None => None,
            Some(e) => match read32(m, e + 24 + 112 + 16) {
                None => None,
                Some(rva) => if rva == 0 {
                    None
                } else {
                    Some(rva as int)
                },
            },
        }
    }
}

fn find_resource_base(m: &[u8]) -> (r: Option<u64>)
    ensures
        match r {
            Some(o) => resource_base(m@) == Some(o as int) && o <= 0xFFFF_FFFF,
            None => resource_base(m@) is None,
        },
{
    if u16le(m, 0)? != 0x5A4D {
        return None;
    }
    let e: u64 = u32le(m, 0x3C)? as u64;
    let rva: u64 = u32le(m, e + 24 + 112 + 16)? as u64;
    if rva == 0 {
        None
    } else {
        Some(rva)
    }
}

// ---------------------------------------------------------------------------
// Strings
// ---------------------------------------------------------------------------
/// String `id` of a mapped image, cut to `cap` units.
pub open spec fn image_string(m: Seq<u8>, id: u32, cap: int) -> Option<Seq<u16>> {
    match resource_base(m) {
        None => None,
        Some(res) => match dir_entry(m, res, 0, RT_STRING) {
            None => None,
            Some(type_dir) => match dir_entry(m, res, type_dir, (id / 16 + 1) as u32) {
                None => None,
                Some(name_dir) => match read32(m, res + name_dir + 16 + 4) {
                    None => None,
                    Some(rel) => match read32(m, res + (rel % 0x8000_0000)) {
                        None => None,
                        Some(rva) => bundled_string(m, rva as int, (id % 16) as int, cap),
                    },
                },
            },
        },
    }
}

/// A string resource of a mapped image.
pub fn load_string_from_image(m: &[u8], id: u32, cap: usize) -> (r: Option<Vec<u16>>)
    ensures
        match r {
            Some(v) => image_string(m@, id, cap as int) == Some(v@) && v@.len() <= cap,
            None => image_string(m@, id, cap as int) is None,
        },
{
    let res: u64 = find_resource_base(m)?;
    let type_dir: u64 = dir_find(m, res, 0, RT_STRING)?;
    let name_dir: u64 = dir_find(m, res, type_dir, id / 16 + 1)?;
    let rel: u32 = u32le(m, res + name_dir + 16 + 4)?;
    let rva: u32 = u32le(m, res + (rel % 0x8000_0000) as u64)?;
    find_bundled(m, rva as u64, id % 16, cap)
}

/// The module whose resources are meant: the given one, or the caller's own image when
/// none is given.
pub fn asked_module(given: u64, image_base: u64) -> (m: u64)
    ensures
        m == if given != 0 {
            given
        } else {
            image_base
        },
{
    if given != 0 {
        given
    } else {
        image_base
    }
}

/// What `LoadStringW` comes to.
#[derive(Debug)]
pub enum StringSource {
    /// The arguments are bad: 0.
    Nothing,
    /// The string with its NUL, to be written; the result is its length.
    Image(Vec<u16>),
    /// The image has no such string: the kernel looks in the resource modules.
    Kernel,
}

/// `LoadStringW`: a string of the module's own image, cut to the caller's buffer.
pub fn LoadStringW(image: Option<&[u8]>, id: u32, has_buffer: bool, cch_max: i32) -> (r: StringSource)
    ensures
        match image {
            None => r is Nothing,
            Some(m) => if !has_buffer || cch_max <= 0 {
                r is Nothing
            } else {
                match image_string(m@, id, cch_max - 1) {
                    Some(s) => r is Image && r->Image_0@ == s.push(0),
                    None => r is Kernel,
                }
            },
        },
{
    match image {
        None => StringSource::Nothing,
        Some(m) => {
            if !has_buffer || cch_max <= 0 {
                return StringSource::Nothing;
            }
            match load_string_from_image(m, id, (cch_max - 1) as usize) {
                Some(s) => {
                    let mut out: Vec<u16> = s;
                    out.push(0);
                    StringSource::Image(out)
                },
                None => StringSource::Kernel,
            }
        },
    }
}

// ---------------------------------------------------------------------------
// The version block
// ---------------------------------------------------------------------------
/// The target of the first entry with an id in a directory.
pub open spec fn first_target(m: Seq<u8>, res: int, dir: int) -> Option<int> {
    match read16(m, res + dir + 12) {
        None => None,
        Some(named) => match read32(m, res + dir + 16 + named * 8 + 4) {
            None => None,
            Some(t) => Some((t % 0x8000_0000) as int),
        },
    }
}

fn first_entry(m: &[u8], res: u64, dir: u64) -> (r: Option<u64>)
    requires
        res <= 0xFFFF_FFFF,
        dir < 0x8000_0000,
    ensures
        match r {
            Some(o) => first_target(m@, res as int, dir as int) == Some(o as int) && o < 0x8000_0000,
            None => first_target(m@, res as int, dir as int) is None,
        },
{
    let named: u64 = u16le(m, res + dir + 12)? as u64;
    let t: u32 = u32le(m, res + dir + 16 + named * 8 + 4)?;
    Some((t % 0x8000_0000) as u64)
}

/// Where the version block of a mapped image lies, and its size.
pub open spec fn version_resource(m: Seq<u8>) -> Option<(u32, u32)> {
    match resource_base(m) {
        None => None,
        Some(res) => match dir_entry(m, res, 0, RT_VERSION) {
            None => None,
            Some(type_dir) => match first_target(m, res, type_dir) {
                None => None,
                Some(name_dir) => match first_target(m, res, name_dir) {
                    None => None,
                    Some(data) => match (read32(m, res + data), read32(m, res + data + 4)) {
                        (Some(rva), Some(size)) => Some((rva, size)),
                        _ => None,
                    },
                },
            },
        },
    }
}

/// Locate the version block of a mapped image.
pub fn find_version_resource(m: &[u8]) -> (r: Option<(u32, u32)>)
    ensures
        r == version_resource(m@),
{
    let res: u64 = find_resource_base(m)?;
    let type_dir: u64 = dir_find(m, res, 0, RT_VERSION)?;
    let name_dir: u64 = first_entry(m, res, type_dir)?;
    let data: u64 = first_entry(m, res, name_dir)?;
    let rva: u32 = u32le(m, res + data)?;
    let size: u32 = u32le(m, res + data + 4)?;
    Some((rva, size))
}

/// `GetFileVersionInfoSizeExW`: the size of the version block, 0 without one.
pub fn GetFileVersionInfoSizeExW(m: &[u8]) -> (size: u32)
    ensures
        size == match version_resource(m@) {
            Some((rva, size)) => size,
            None => 0,
        },
{
    match find_version_resource(m) {
        Some((_, size)) => size,
        None => 0,
    }
}

/// `GetFileVersionInfoExW`: the version block, if the caller has room for it.
pub fn GetFileVersionInfoExW(m: &[u8], has_data: bool, len: u32) -> (r: Option<Vec<u8>>)
    ensures
        match version_resource(m@) {
            None => r is None,
            Some((rva, size)) => if !has_data || len < size || rva + size > m@.len() {
                r is None
            } else {
                r is Some && r->Some_0@ == m@.subrange(rva as int, rva + size)
            },
        },
{
    match find_version_resource(m) {
        None => None,
        Some((rva, size)) => {
            if !has_data || len < size || rva as u64 + size as u64 > m.len() as u64 {
                return None;
            }
            let mut out: Vec<u8> = Vec::new();
            let at: usize = rva as usize;
            out.extend_from_slice(slice_subrange(m, at, at + size as usize));
            assert(out@ =~= m@.subrange(rva as int, rva + size));
            Some(out)
        },
    }
}

/// `n` rounded up to four.
pub open spec fn up4(n: int) -> int {
    (n + 3) / 4 * 4
}

/// Round up to four.
pub fn align4(n: u64) -> (r: u64)
    requires
        n <= u64::MAX - 3,
    ensures
        r == up4(n as int),
{
    (n + 3) / 4 * 4
}

/// Where the units from `k` on end: past the first NUL.
pub open spec fn key_end(m: Seq<u8>, k: int) -> Option<int>
    decreases m.len() - k,
{
    if k < 0 {
        None
    } else {
        match read16(m, k) {
            None => None,
            Some(c) => if c == 0 {
                Some(k + 2)
            } else if k + 2 <= m.len() {
                key_end(m, k + 2)
            } else {
                None
            },
        }
    }
}

/// A node of a version block: where its value lies, the length it gives, and
/// whether it is text (1) or binary.
#[derive(Debug, Clone, Copy, PartialEq, Eq, Structural)]
pub struct VersionValue {
    pub at: u64,
    pub len: u16,
    pub kind: u16,
}

/// The value of the node at `node`: behind its key, at a multiple of four.
pub open spec fn node_value(m: Seq<u8>, node: int) -> Option<VersionValue> {
    match (read16(m, node + 2), read16(m, node + 4), key_end(m, node + 6)) {
        (Some(len), Some(kind), Some(e)) => Some(VersionValue { at: up4(e) as u64, len, kind }),
        _ => None,
    }
}

/// The key at `at` is `want`, up to ASCII case.
pub open spec fn key_is(m: Seq<u8>, at: int, want: Seq<u16>) -> bool {
    &&& forall|i: int|
        0 <= i < want.len() ==> same_key_unit(m, at, i, #[trigger] want[i])
    &&& read16(m, at + 2 * want.len()) == Some(0u16)
}

/// Unit `i` of the key at `at` is `w`, up to ASCII case.
pub open spec fn same_key_unit(m: Seq<u8>, at: int, i: int, w: u16) -> bool {
    read16(m, at + 2 * i) matches Some(k) && lower_unit(k) == lower_unit(w)
}

/// The child with a key among those from `child` on, in a node that ends at `end`.
pub open spec fn child_from(m: Seq<u8>, child: int, end: int, want: Seq<u16>) -> Option<int>
    decreases
            if child <= end {
                end - child + 1
            } else {
                0
            },
{
    if child < 0 || child + 6 > end {
        None
    } else {
        match read16(m, child) {
            None => None,
            Some(len) => if len == 0 {
                None
            } else if key_is(m, child + 6, want) {
                Some(child)
            } else {
                child_from(m, up4(child + len), end, want)
            },
        }
    }
}

/// The child of a node with a key.
pub open spec fn child_of(m: Seq<u8>, node: int, want: Seq<u16>) -> Option<int> {
    match (read16(m, node), node_value(m, node)) {
        (Some(len), Some(v)) => child_from(
            m,
            up4(
                v.at + if v.kind == 1 {
                    v.len * 2
                } else {
                    v.len as int
                },
            ),
            node + len,
            want,
        ),
        _ => None,
    }
}

/// Where the next backslash at or after `p` is, or the end.
pub open spec fn slash_pos(s: Seq<u16>, p: int) -> int
    decreases s.len() - p,
{
    if p < 0 || p >= s.len() || s[p] == 0x5C {
        p
    } else {
        slash_pos(s, p + 1)
    }
}

/// The node that the components of a path from `p` on lead to.
pub open spec fn node_at(m: Seq<u8>, node: int, path: Seq<u16>, p: int) -> Option<int>
    decreases path.len() - p,
{
    if p < 0 || p >= path.len() {
        Some(node)
    } else {
        let e = slash_pos(path, p);
        match child_of(m, node, path.subrange(p, e)) {
            None => None,
            Some(c) => if e >= path.len() || e < p {
                Some(c)
            } else {
                node_at(m, c, path, e + 1)
            },
        }
    }
}

/// A path without one leading backslash.
pub open spec fn relative(path: Seq<u16>) -> Seq<u16> {
    if path.len() > 0 && path[0] == 0x5C {
        path.skip(1)
    } else {
        path
    }
}

/// The value that a path names in a version block.
pub open spec fn version_value(m: Seq<u8>, path: Seq<u16>) -> Option<VersionValue> {
    match node_at(m, 0, relative(path), 0) {
        None => None,
        Some(node) => node_value(m, node),
    }
}

fn find_key_end(m: &[u8], from: u64) -> (r: Option<u64>)
    requires
        from <= 0x1_0000_0000_0000,
        m@.len() <= 0x1_0000_0000_0000,
    ensures
        match r {
            Some(e) => key_end(m@, from as int) == Some(e as int) && e <= m@.len(),
            None => key_end(m@, from as int) is None,
        },
{
    let mut k: u64 = from;
    let size: u64 = m.len() as u64;
    while k < size
        invariant
            size == m@.len(),
            size <= 0x1_0000_0000_0000,
            k <= size || k == from,
            key_end(m@, from as int) == key_end(m@, k as int),
        decreases size - k,
    {
        let c: u16 = u16le(m, k)?;
        if c == 0 {
            return Some(k + 2);
        }
        k = k + 2;
    }
    None
}

fn read_node(m: &[u8], node: u64) -> (r: Option<VersionValue>)
    requires
        node <= 0xFFFF_FFFF_FFFF,
        m@.len() <= 0x1_0000_0000_0000,
    ensures
        r == node_value(m@, node as int),
        r matches Some(v) ==> v.at <= m@.len() + 3,
{
    let len: u16 = u16le(m, node + 2)?;
    let kind: u16 = u16le(m, node + 4)?;
    let e: u64 = find_key_end(m, node + 6)?;
    Some(VersionValue { at: align4(e), len, kind })
}

/// Compare a stored key with `want`, ASCII case ignored.
fn wkey_eq(m: &[u8], at: u64, want: &[u16]) -> (r: bool)
    requires
        at <= 0x1_0000_0000_0000,
        want@.len() <= 0x1_0000_0000_0000,
    ensures
        r == key_is(m@, at as int, want@),
{
    let mut i: usize = 0;
    while i < want.len()
        invariant
            i <= want@.len(),
            want@.len() <= 0x1_0000_0000_0000,
            at <= 0x1_0000_0000_0000,
            forall|j: int|
                0 <= j < i ==> same_key_unit(m@, at as int, j, #[trigger] want@[j]),
        decreases want@.len() - i,
    {
        let same: bool = match u16le(m, at + 2 * i as u64) {
            Some(k) => to_lower_unit(k) == to_lower_unit(want[i]),
            None => false,
        };
        if !same {
            assert(!same_key_unit(m@, at as int, i as int, want@[i as int]));
            return false;
        }
        i = i + 1;
    }
    match u16le(m, at + 2 * want.len() as u64) {
        Some(c) => c == 0,
        None => false,
    }
}

fn find_child(m: &[u8], node: u64, want: &[u16]) -> (r: Option<u64>)
    requires
        node <= m@.len(),
        m@.len() <= 0xFFFF_FFFF,
        want@.len() <= 0x1_0000_0000_0000,
    ensures
        match r {
            Some(c) => child_of(m@, node as int, want@) == Some(c as int) && c <= m@.len(),
            None => child_of(m@, node as int, want@) is None,
        },
{
    let len: u64 = u16le(m, node)? as u64;
    let v: VersionValue = read_node(m, node)?;
    let bytes: u64 = if v.kind == 1 {
        v.len as u64 * 2
    } else {
        v.len as u64
    };
    let mut child: u64 = align4(v.at + bytes);
    let end: u64 = node + len;
    while child + 6 <= end
        invariant
            m@.len() <= 0xFFFF_FFFF,
            end <= 0x1_0000_FFFF,
            child <= 0x1_1000_0000,
            want@.len() <= 0x1_0000_0000_0000,
            child_of(m@, node as int, want@) == child_from(
                m@,
                child as int,
                end as int,
                want@,
            ),
        decreases
                if child <= end {
                    end - child + 1
                } else {
                    0
                },
    {
        let size: u64 = u16le(m, child)? as u64;
        if size == 0 {
            return None;
        }
        if wkey_eq(m, child + 6, want) {
            return Some(child);
        }
        child = align4(child + size);
    }
    None
}

fn find_slash(s: &[u16], from: usize) -> (e: usize)
    requires
        from <= s@.len(),
    ensures
        e == slash_pos(s@, from as int),
        from <= e <= s@.len(),
{
    let mut e: usize = from;
    while e < s.len() && s[e] != 0x5C
        invariant
            from <= e <= s@.len(),
            slash_pos(s@, from as int) == slash_pos(s@, e as int),
        decreases s@.len() - e,
    {
        e = e + 1;
    }
    e
}

/// `VerQueryValueW`: where the value that a path names lies in a version block,
/// and its length (in units for text, in bytes otherwise). Without a path, the
/// root's value.
pub fn VerQueryValueW(m: &[u8], sub_block: Option<&[u16]>) -> (r: Option<VersionValue>)
    requires
        m@.len() <= 0xFFFF_FFFF,
        sub_block matches Some(s) ==> ended(s@) && s@.len() <= 0x1_0000_0000_0000,
    ensures
        r == version_value(
            m@,
            match sub_block {
                Some(s) => text(s@),
                None => Seq::empty(),
            },
        ),
{
    let given = match sub_block {
        None => {
            assert(relative(Seq::<u16>::empty()) =~= Seq::<u16>::empty());
            return read_node(m, 0);
        },
        Some(s) => s,
    };
    let n: usize = wstrlen(given);
    let from: usize = if n > 0 && given[0] == 0x5C {
        1
    } else {
        0
    };
    let path = slice_subrange(given, from, n);
    proof {
        assert(text(given@).len() == n);
        assert(path@ =~= relative(text(given@)));
    }
    let mut node: u64 = 0;
    let mut p: usize = 0;
    while p < path.len()
        invariant
            sub_block == Some(given),
            path@ == relative(text(given@)),
            p <= path@.len(),
            path@.len() <= 0x1_0000_0000_0000,
            m@.len() <= 0xFFFF_FFFF,
            node <= m@.len(),
            node_at(m@, 0, path@, 0) == node_at(m@, node as int, path@, p as int),
        decreases path@.len() - p,
    {
        let e: usize = find_slash(path, p);
        let comp = slice_subrange(path, p, e);
        assert(comp@ =~= path@.subrange(p as int, e as int));
        let c: u64 = find_child(m, node, comp)?;
        node = c;
        p = if e < path.len() {
            e + 1
        } else {
            e
        };
    }
    read_node(m, node)
}

/// The root of a version block is named by nothing and by a single backslash
/// alike.
pub proof fn a_backslash_names_the_root(m: Seq<u8>)
    ensures
        version_value(m, seq![0x5Cu16]) == node_value(m, 0),
        version_value(m, Seq::<u16>::empty()) == node_value(m, 0),
{
    assert(relative(seq![0x5Cu16]) =~= Seq::<u16>::empty());
}

/// The resources of an image are where its third data directory says.
pub proof fn resources_are_in_the_third_directory(m: Seq<u8>, h: ImageHeaders)
    requires
        headers(m) == Some(h),
        h.num_dirs > 2,
    ensures
        resource_base(m) == if directory(m, h, 2).0 == 0 {
            None
        } else {
            Some(directory(m, h, 2).0 as int)
        },
        m[0] != 0x4D ==> resource_base(m) is None,
{
}

/// Places in a version block are rounded up to the next multiple of four.
pub proof fn places_are_rounded_up(n: int)
    ensures
        up4(n) % 4 == 0,
        n <= up4(n) < n + 4,
{
}

/// The value of a node stands behind its key, at the next multiple of four; its length and
/// its kind are the second and third of its three numbers.
pub proof fn a_value_stands_behind_its_key(m: Seq<u8>, node: int, n: int)
    requires
        0 <= node,
        0 <= n,
        m.len() <= 0xFFFF_FFFF,
        in_bounds(m, node, 6 + 2 * n + 2),
        forall|k: int| node + 6 <= k < node + 6 + 2 * n && (k - node) % 2 == 0 ==> #[trigger] get16(m, k) != 0,
        get16(m, node + 6 + 2 * n) == 0,
    ensures
        node_value(m, node) matches Some(v) && v.len == get16(m, node + 2) && v.kind == get16(
            m,
            node + 4,
        ) && v.at % 4 == 0 && node + 6 + 2 * n + 2 <= v.at < node + 6 + 2 * n + 2 + 4,
{
    lemma_key_end(m, node + 6, n);
}

proof fn lemma_key_end(m: Seq<u8>, at: int, n: int)
    requires
        0 <= at,
        0 <= n,
        in_bounds(m, at, 2 * n + 2),
        forall|k: int| at <= k < at + 2 * n && (k - at) % 2 == 0 ==> #[trigger] get16(m, k) != 0,
        get16(m, at + 2 * n) == 0,
    ensures
        key_end(m, at) == Some(at + 2 * n + 2),
    decreases n,
{
    if n > 0 {
        assert(get16(m, at) != 0);
        assert forall|k: int| at + 2 <= k < at + 2 + 2 * (n - 1) && (k - (at + 2)) % 2 == 0 implies
            #[trigger] get16(m, k) != 0 by {
            assert((k - at) % 2 == 0);
        }
        lemma_key_end(m, at + 2, n - 1);
    }
}

/// Keys match without regard to case, and only whole: the unit behind the name must be NUL.
pub proof fn keys_match_whole(m: Seq<u8>, at: int, want: Seq<u16>, i: int)
    requires
        key_is(m, at, want),
        0 <= i < want.len(),
    ensures
        lower_unit(get16(m, at + 2 * i) as u16) == lower_unit(want[i]),
        get16(m, at + 2 * want.len()) == 0,
{
    assert(same_key_unit(m, at, i, want[i]));
}

/// The children of a node follow each other at multiples of four: the first is the one that
/// is wanted, or the search goes on behind it.
pub proof fn children_follow_each_other(m: Seq<u8>, child: int, end: int, want: Seq<u16>)
    requires
        0 <= child,
        child + 6 <= end,
        in_bounds(m, child, 2),
        get16(m, child) != 0,
    ensures
        key_is(m, child + 6, want) ==> child_from(m, child, end, want) == Some(child),
        !key_is(m, child + 6, want) ==> exists|next: int|
            next % 4 == 0 && child + get16(m, child) <= next < child + get16(m, child) + 4
                && child_from(m, child, end, want) == #[trigger] child_from(m, next, end, want),
{
    let next = up4(child + get16(m, child));
    if !key_is(m, child + 6, want) {
        assert(child_from(m, child, end, want) == child_from(m, next, end, want));
    }
}

/// No child stands outside its parent.
pub proof fn children_stay_inside(m: Seq<u8>, child: int, end: int, want: Seq<u16>)
    requires
        child + 6 > end,
    ensures
        child_from(m, child, end, want) is None,
{
}

/// The children of a node stand behind its value. A value of text is counted in units of two
/// bytes, any other in bytes.
pub proof fn children_stand_behind_the_value(m: Seq<u8>, node: int, want: Seq<u16>, v: VersionValue)
    requires
        node_value(m, node) == Some(v),
        in_bounds(m, node, 2),
    ensures
        exists|first: int|
            first % 4 == 0 && v.at + (if v.kind == 1 {
                2 * v.len
            } else {
                1 * v.len
            }) <= first < v.at + (if v.kind == 1 {
                2 * v.len
            } else {
                1 * v.len
            }) + 4 && child_of(m, node, want) == #[trigger] child_from(
                m,
                first,
                node + get16(m, node),
                want,
            ),
{
    let first = up4(
        v.at + if v.kind == 1 {
            v.len * 2
        } else {
            v.len as int
        },
    );
    assert(child_of(m, node, want) == child_from(m, first, node + get16(m, node), want));
}

/// A path is followed name by name, from backslash to backslash.
pub proof fn a_path_is_followed_name_by_name(m: Seq<u8>, node: int, name: Seq<u16>, rest: Seq<u16>)
    requires
        name.len() > 0,
        forall|k: int| 0 <= k < name.len() ==> #[trigger] name[k] != 0x5C,
    ensures
        node_at(m, node, name + seq![0x5Cu16] + rest, 0) == match child_of(m, node, name) {
            Some(c) => node_at(m, c, rest, 0),
            None => None,
        },
        node_at(m, node, name, 0) == child_of(m, node, name),
        node_at(m, node, Seq::empty(), 0) == Some(node),
{
    let path = name + seq![0x5Cu16] + rest;
    lemma_slash(path, 0, name.len() as int);
    assert(path.subrange(0, name.len() as int) =~= name);
    lemma_slash(name, 0, name.len() as int);
    assert(name.subrange(0, name.len() as int) =~= name);
    match child_of(m, node, name) {
        Some(c) => {
            lemma_node_skip(m, c, path, name.len() as int + 1, 0);
            assert(path.skip(name.len() as int + 1) =~= rest);
        },
        None => {},
    }
}

proof fn lemma_slash(s: Seq<u16>, p: int, e: int)
    requires
        0 <= p <= e <= s.len(),
        forall|k: int| p <= k < e ==> #[trigger] s[k] != 0x5C,
        e < s.len() ==> s[e] == 0x5C,
    ensures
        slash_pos(s, p) == e,
    decreases e - p,
{
    if p < e {
        lemma_slash(s, p + 1, e);
    }
}

proof fn lemma_slash_skip(s: Seq<u16>, i: int, k: int)
    requires
        0 <= i <= s.len(),
        0 <= k <= s.len() - i,
    ensures
        slash_pos(s, i + k) == i + slash_pos(s.skip(i), k),
        k <= slash_pos(s.skip(i), k) <= s.len() - i,
    decreases s.len() - i - k,
{
    if i + k < s.len() {
        assert(s.skip(i)[k] == s[i + k]);
        if s[i + k] != 0x5C {
            lemma_slash_skip(s, i, k + 1);
        }
    }
}

proof fn lemma_node_skip(m: Seq<u8>, node: int, path: Seq<u16>, i: int, k: int)
    requires
        0 <= i <= path.len(),
        0 <= k <= path.len() - i,
    ensures
        node_at(m, node, path, i + k) == node_at(m, node, path.skip(i), k),
    decreases path.len() - i - k,
{
    if i + k < path.len() {
        lemma_slash_skip(path, i, k);
        let e = slash_pos(path, i + k);
        assert(path.subrange(i + k, e) =~= path.skip(i).subrange(k, e - i));
        match child_of(m, node, path.subrange(i + k, e)) {
            Some(c) => {
                if e < path.len() {
                    lemma_node_skip(m, c, path, i, e + 1 - i);
                }
            },
            None => {},
        }
    }
}

/// A leading backslash changes nothing.
pub proof fn a_leading_backslash_is_dropped(m: Seq<u8>, path: Seq<u16>)
    requires
        path.len() > 0 ==> path[0] != 0x5C,
    ensures
        version_value(m, seq![0x5Cu16] + path) == version_value(m, path),
{
    assert((seq![0x5Cu16] + path).skip(1) =~= path);
}

/// The version resource is the first of the first: of type sixteen, the first entry behind the
/// named ones, then again, and there the place and the size of the data.
pub proof fn the_version_is_the_first_entry(m: Seq<u8>, res: int, dir: int, named: int)
    requires
        0 <= res,
        0 <= dir,
        in_bounds(m, res + dir, 16 + 8 * named + 8),
        get16(m, res + dir + 12) == named,
    ensures
        first_target(m, res, dir) == Some(get32(m, res + dir + 16 + 8 * named + 4) % 0x8000_0000),
{
}

/// A string of an image is looked up by its type, 6, then by its bundle of sixteen, counted
/// from one, then by its place in the bundle.
pub proof fn an_image_string_is_looked_up_by_its_bundle(
    m: Seq<u8>,
    id: u32,
    cap: int,
    res: int,
    t: int,
    n: int,
    rel: int,
)
    requires
        resource_base(m) == Some(res),
        dir_entry(m, res, 0, 6) == Some(t),
        dir_entry(m, res, t, (id / 16 + 1) as u32) == Some(n),
        in_bounds(m, res + n, 24),
        get32(m, res + n + 20) % 0x8000_0000 == rel,
        in_bounds(m, res + rel, 4),
        0 <= res + n,
    ensures
        image_string(m, id, cap) == bundled_string(m, get32(m, res + rel), (id % 16) as int, cap),
{
}

/// The version of an image is looked up by its type, 16, and then twice by the first entry; it
/// is told by its address and its size.
pub proof fn the_version_is_looked_up_by_its_type(
    m: Seq<u8>,
    res: int,
    t: int,
    n: int,
    data: int,
)
    requires
        resource_base(m) == Some(res),
        dir_entry(m, res, 0, 16) == Some(t),
        first_target(m, res, t) == Some(n),
        first_target(m, res, n) == Some(data),
        in_bounds(m, res + data, 8),
    ensures
        version_resource(m) == Some(
            (get32(m, res + data) as u32, get32(m, res + data + 4) as u32),
        ),
{
}

} // verus!
