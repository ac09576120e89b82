//! PE32+ images: headers, section mapping, base relocations and exports.
//!
//! Loading does three jobs: copy the headers and each section to its address in
//! a zeroed image of `SizeOfImage` bytes, add the difference between the actual
//! and the preferred base to every absolute address the relocation directory
//! names, and write the address of each imported routine into the import address
//! table ([`crate::ldr::bind`]). Anything malformed is
//! `STATUS_INVALID_IMAGE_FORMAT`.
use crate::bytes::{
    bytes64, get16, get32, get64, in_bounds, overlay, put64, put_bytes, read16, read32, read64, u16le, u32le,
    u64le,
};
use crate::rtl::NtStatus;
use vstd::prelude::*;
use vstd::slice::slice_subrange;
use vstd::utf8::valid_utf8;

verus! {

/// "MZ".
pub const IMAGE_DOS_SIGNATURE: u16 = 0x5A4D;

/// "PE\0\0".
pub const IMAGE_NT_SIGNATURE: u32 = 0x0000_4550;

pub const IMAGE_FILE_MACHINE_AMD64: u16 = 0x8664;

pub const IMAGE_NT_OPTIONAL_HDR64_MAGIC: u16 = 0x20B;

pub const DIR_IMPORT: u64 = 1;

pub const DIR_BASERELOC: u64 = 5;

pub const DIR_TLS: u64 = 9;

pub const IMAGE_REL_BASED_ABSOLUTE: u16 = 0;

pub const IMAGE_REL_BASED_DIR64: u16 = 10;

/// Largest image accepted.
pub const MAX_IMAGE: u64 = 0x400_0000;

/// The status of a malformed image.
pub fn bad() -> (r: NtStatus)
    ensures
        r == NtStatus(NtStatus::INVALID_IMAGE_FORMAT),
{
    NtStatus(NtStatus::INVALID_IMAGE_FORMAT)
}

/// The header fields that loading uses.
#[derive(Debug, Clone, Copy, PartialEq, Eq, Structural)]
pub struct ImageHeaders {
    /// Offset of the optional header.
    pub opt: u64,
    /// Offset of the section table.
    pub sec_table: u64,
    pub num_sections: u64,
    pub entry_rva: u64,
    pub preferred_base: u64,
    pub size_of_image: u64,
    pub size_of_headers: u64,
    /// Number of data directories.
    pub num_dirs: u64,
}

impl ImageHeaders {
    /// Bounds that the field widths give.
    pub open spec fn bounded(&self) -> bool {
        &&& self.opt <= 0x1_0000_0100
        &&& self.sec_table <= 0x1_0002_0000
        &&& self.num_sections <= 0xFFFF
        &&& self.entry_rva <= 0xFFFF_FFFF
        &&& self.size_of_image <= 0xFFFF_FFFF
        &&& self.size_of_headers <= 0xFFFF_FFFF
        &&& self.num_dirs <= 0xFFFF_FFFF
    }
}

/// The headers of a PE32+ image for x86-64; `None` when they are malformed.
pub open spec fn headers(d: Seq<u8>) -> Option<ImageHeaders> {
    match read32(d, 0x3C) {
        None => None,
        Some(e) => {
            let coff = e + 4;
            let opt = e + 24;
            if read16(d, 0) != Some(IMAGE_DOS_SIGNATURE) || read32(d, e as int) != Some(
                IMAGE_NT_SIGNATURE,
            ) || read16(d, coff) != Some(IMAGE_FILE_MACHINE_AMD64) || read16(d, opt) != Some(
                IMAGE_NT_OPTIONAL_HDR64_MAGIC,
            ) {
                None
            } else {
                match (
                    read16(d, coff + 2),
                    read16(d, coff + 16),
                    read32(d, opt + 16),
                    read64(d, opt + 24),
                    read32(d, opt + 56),
                    read32(d, opt + 60),
                    read32(d, opt + 108),
                ) {
                    (
                        Some(num_sections),
                        Some(opt_size),
                        Some(entry_rva),
                        Some(preferred_base),
                        Some(size_of_image),
                        Some(size_of_headers),
                        Some(num_dirs),
                    ) => Some(
                        ImageHeaders {
                            opt: opt as u64,
                            sec_table: (opt + opt_size) as u64,
                            num_sections: num_sections as u64,
                            entry_rva: entry_rva as u64,
                            preferred_base,
                            size_of_image: size_of_image as u64,
                            size_of_headers: size_of_headers as u64,
                            num_dirs: num_dirs as u64,
                        },
                    ),
                    _ => None,
                }
            }
        },
    }
}

/// Parse the headers.
pub fn parse_headers(d: &[u8]) -> (r: Option<ImageHeaders>)
    ensures
        r == headers(d@),
        r matches Some(h) ==> h.bounded(),
{
    let magic: u16 = u16le(d, 0)?;
    if magic != IMAGE_DOS_SIGNATURE {
        return None;
    }
    let e: u64 = u32le(d, 0x3C)? as u64;
    let sig: u32 = u32le(d, e)?;
    if sig != IMAGE_NT_SIGNATURE {
        return None;
    }
    let coff: u64 = e + 4;
    let machine: u16 = u16le(d, coff)?;
    if machine != IMAGE_FILE_MACHINE_AMD64 {
        return None;
    }
    let num_sections: u64 = u16le(d, coff + 2)? as u64;
    let opt_size: u64 = u16le(d, coff + 16)? as u64;
    let opt: u64 = coff + 20;
    let opt_magic: u16 = u16le(d, opt)?;
    if opt_magic != IMAGE_NT_OPTIONAL_HDR64_MAGIC {
        return None;
    }
    let entry_rva: u64 = u32le(d, opt + 16)? as u64;
    let preferred_base: u64 = u64le(d, opt + 24)?;
    let size_of_image: u64 = u32le(d, opt + 56)? as u64;
    let size_of_headers: u64 = u32le(d, opt + 60)? as u64;
    let num_dirs: u64 = u32le(d, opt + 108)? as u64;
    Some(
        ImageHeaders {
            opt,
            sec_table: opt + opt_size,
            num_sections,
            entry_rva,
            preferred_base,
            size_of_image,
            size_of_headers,
            num_dirs,
        },
    )
}

/// Address and size of data directory `i`; zero when it is absent.
pub open spec fn directory(d: Seq<u8>, h: ImageHeaders, i: int) -> (u32, u32) {
    if i >= h.num_dirs {
        (0, 0)
    } else {
        let o = h.opt + 112 + i * 8;
        (
            match read32(d, o) {
                Some(v) => v,
                None => 0,
            },
            match read32(d, o + 4) {
                Some(v) => v,
                None => 0,
            },
        )
    }
}

/// Read data directory `i`.
pub fn data_directory(d: &[u8], h: &ImageHeaders, i: u64) -> (r: (u32, u32))
    requires
        h.bounded(),
        i < 16,
    ensures
        r == directory(d@, *h, i as int),
{
    if i >= h.num_dirs {
        return (0, 0);
    }
    let o: u64 = h.opt + 112 + i * 8;
    let rva: u32 = match u32le(d, o) {
        Some(v) => v,
        None => 0,
    };
    let size: u32 = match u32le(d, o + 4) {
        Some(v) => v,
        None => 0,
    };
    (rva, size)
}

// ---------------------------------------------------------------------------
// Section mapping
// ---------------------------------------------------------------------------
/// Address, size and file offset of section `s`'s raw data.
pub open spec fn section(d: Seq<u8>, h: ImageHeaders, s: int) -> Option<(u32, u32, u32)> {
    let o = h.sec_table + s * 40;
    match (read32(d, o + 12), read32(d, o + 16), read32(d, o + 20)) {
        (Some(va), Some(size), Some(ptr)) => Some((va, size, ptr)),
        _ => None,
    }
}

/// A section's raw data can be placed: it is in the file and fits the image.
pub open spec fn placeable(d: Seq<u8>, h: ImageHeaders, s: int) -> bool {
    section(d, h, s) matches Some((va, size, ptr)) && (size == 0 || (ptr + size <= d.len() && va
        + size <= h.size_of_image))
}

/// `img` with the raw data of section `s` at its address.
pub open spec fn with_section(d: Seq<u8>, h: ImageHeaders, img: Seq<u8>, s: int) -> Seq<u8> {
    let (va, size, ptr) = section(d, h, s)->0;
    if size == 0 {
        img
    } else {
        overlay(img, va as int, d.subrange(ptr as int, ptr + size))
    }
}

/// `img` with the sections from `s` on placed.
pub open spec fn with_sections(d: Seq<u8>, h: ImageHeaders, img: Seq<u8>, s: int) -> Option<Seq<u8>>
    decreases h.num_sections - s,
{
    if s >= h.num_sections {
        Some(img)
    } else if !placeable(d, h, s) {
        None
    } else {
        with_sections(d, h, with_section(d, h, img, s), s + 1)
    }
}

/// How much of the file start is copied as headers.
pub open spec fn header_len(d: Seq<u8>, h: ImageHeaders) -> int {
    if h.size_of_headers <= d.len() {
        h.size_of_headers as int
    } else {
        d.len() as int
    }
}

/// A zeroed image with the headers at its start.
pub open spec fn header_image(d: Seq<u8>, h: ImageHeaders) -> Seq<u8> {
    overlay(Seq::new(h.size_of_image as nat, |i: int| 0u8), 0, d.take(header_len(d, h)))
}

/// The image as linked for its preferred base; `None` when headers or sections
/// do not fit.
pub open spec fn mapped(d: Seq<u8>, h: ImageHeaders) -> Option<Seq<u8>> {
    if header_len(d, h) > h.size_of_image {
        None
    } else {
        with_sections(d, h, header_image(d, h), 0)
    }
}

/// Lay the image out from the file.
pub fn map_sections(d: &[u8], h: &ImageHeaders) -> (r: Option<Vec<u8>>)
    requires
        h.bounded(),
    ensures
        match r {
            Some(img) => mapped(d@, *h) == Some(img@) && img@.len() == h.size_of_image,
            None => mapped(d@, *h) is None,
        },
{
    let hdr_len: usize = if h.size_of_headers <= d.len() as u64 {
        h.size_of_headers as usize
    } else {
        d.len()
    };
    if hdr_len as u64 > h.size_of_image {
        return None;
    }
    let size: usize = h.size_of_image as usize;
    let mut img: Vec<u8> = vec![0u8; size];
    put_bytes(&mut img, 0, slice_subrange(d, 0, hdr_len));
    proof {
        assert(d@.subrange(0, hdr_len as int) =~= d@.take(hdr_len as int));
        assert(img@ =~= header_image(d@, *h));
    }
    let mut s: u64 = 0;
    while s < h.num_sections
        invariant
            s <= h.num_sections,
            h.bounded(),
            size == h.size_of_image,
            img@.len() == size,
            mapped(d@, *h) == with_sections(d@, *h, img@, s as int),
        decreases h.num_sections - s,
    {
        let sh: u64 = h.sec_table + s * 40;
        let virt_addr: u64 = u32le(d, sh + 12)? as u64;
        let raw_size: u64 = u32le(d, sh + 16)? as u64;
        let raw_off: u64 = u32le(d, sh + 20)? as u64;
        if raw_size != 0 {
            if raw_off + raw_size > d.len() as u64 {
                return None;
            }
            if virt_addr + raw_size > h.size_of_image {
                return None;
            }
            let from: usize = raw_off as usize;
            let to: usize = (raw_off + raw_size) as usize;
            put_bytes(&mut img, virt_addr as usize, slice_subrange(d, from, to));
        }
        s = s + 1;
    }
    Some(img)
}

// ---------------------------------------------------------------------------
// Base relocations
// ---------------------------------------------------------------------------
/// 64-bit addition without carry.
pub open spec fn add64(a: u64, b: u64) -> u64 {
    ((a + b) % 0x1_0000_0000_0000_0000) as u64
}

/// 64-bit subtraction without borrow.
pub open spec fn sub64(a: u64, b: u64) -> u64 {
    ((a - b) % 0x1_0000_0000_0000_0000) as u64
}

/// One fix-up: the high four bits of `e` are its kind, the low twelve the offset
/// in the page.
#[verifier::opaque]
pub open spec fn fixed_up(img: Seq<u8>, page: int, e: u16, delta: u64) -> Option<Seq<u8>> {
    let kind = e / 0x1000;
    let target = page + e % 0x1000;
    if kind == IMAGE_REL_BASED_ABSOLUTE {
        Some(img)
    } else if kind == IMAGE_REL_BASED_DIR64 {
        match read64(img, target) {
            Some(cur) => Some(overlay(img, target, bytes64(add64(cur, delta)))),
            None => None,
        }
    } else {
        None
    }
}

/// The fix-ups of one block from entry `i` on.
pub open spec fn fixed_up_block(
    img: Seq<u8>,
    at: int,
    page: int,
    i: int,
    n: int,
    delta: u64,
) -> Option<Seq<u8>>
    decreases n - i,
{
    if i >= n {
        Some(img)
    } else {
        match read16(img, at + i * 2) {
            None => None,
            Some(e) => match fixed_up(img, page, e, delta) {
                None => None,
                Some(next) => fixed_up_block(next, at, page, i + 1, n, delta),
            },
        }
    }
}

/// The relocation blocks of `[off, end)`: each names a page and its size, and a
/// size below that of a block header ends the list.
pub open spec fn relocated(img: Seq<u8>, off: int, end: int, delta: u64) -> Option<Seq<u8>>
    decreases end + 0x1_0000_0000 - off,
{
    if off + 8 > end {
        Some(img)
    } else {
        match (read32(img, off), read32(img, off + 4)) {
            (Some(page), Some(size)) => if size < 8 {
                Some(img)
            } else {
                match fixed_up_block(img, off + 8, page as int, 0, (size - 8) / 2, delta) {
                    None => None,
                    Some(next) => relocated(next, off + size, end, delta),
                }
            },
            _ => None,
        }
    }
}

fn fix_up(img: &mut Vec<u8>, page: u64, e: u16, delta: u64) -> (ok: bool)
    requires
        page <= 0xFFFF_FFFF,
    ensures
        final(img)@.len() == old(img)@.len(),
        match fixed_up(old(img)@, page as int, e, delta) {
            Some(next) => ok && final(img)@ == next,
            None => !ok,
        },
{
    proof {
        reveal(fixed_up);
    }
    let kind: u16 = e / 0x1000;
    if kind == IMAGE_REL_BASED_ABSOLUTE {
        return true;
    }
    if kind != IMAGE_REL_BASED_DIR64 {
        return false;
    }
    let target: u64 = page + (e % 0x1000) as u64;
    match u64le(img.as_slice(), target) {
        None => false,
        Some(cur) => {
            let patched: u64 = cur.wrapping_add(delta);
            assert(patched == add64(cur, delta));
            let n: usize = img.len();
            assert(target + 8 <= n);
            put64(img, target as usize, patched);
            true
        },
    }
}

fn fix_up_block(img: &mut Vec<u8>, at: u64, page: u64, n: u64, delta: u64) -> (ok: bool)
    requires
        at <= 0x4_0000_0000,
        page <= 0xFFFF_FFFF,
        n <= 0x8000_0000,
    ensures
        final(img)@.len() == old(img)@.len(),
        match fixed_up_block(old(img)@, at as int, page as int, 0, n as int, delta) {
            Some(next) => ok && final(img)@ == next,
            None => !ok,
        },
{
    let ghost first = img@;
    let mut i: u64 = 0;
    while i < n
        invariant
            i <= n <= 0x8000_0000,
            at <= 0x4_0000_0000,
            page <= 0xFFFF_FFFF,
            first == old(img)@,
            img@.len() == first.len(),
            fixed_up_block(first, at as int, page as int, 0, n as int, delta) == fixed_up_block(
                img@,
                at as int,
                page as int,
                i as int,
                n as int,
                delta,
            ),
        decreases n - i,
    {
        let e: u16 = match u16le(img.as_slice(), at + i * 2) {
            Some(v) => v,
            None => {
                return false;
            },
        };
        if !fix_up(img, page, e, delta) {
            return false;
        }
        i = i + 1;
    }
    true
}

/// Walk the relocation directory and apply its fix-ups for an image moved by
/// `delta`.
pub fn apply_relocations(img: Vec<u8>, reloc_rva: u32, reloc_size: u32, delta: u64) -> (r: Result<
    Vec<u8>,
    NtStatus,
>)
    ensures
        match relocated(img@, reloc_rva as int, reloc_rva + reloc_size, delta) {
            Some(next) => r is Ok && r->Ok_0@ == next && next.len() == img@.len(),
            None => r == Err::<Vec<u8>, _>(NtStatus(NtStatus::INVALID_IMAGE_FORMAT)),
        },
{
    let ghost first = img@;
    let mut out: Vec<u8> = img;
    let end: u64 = reloc_rva as u64 + reloc_size as u64;
    let mut off: u64 = reloc_rva as u64;
    while off + 8 <= end
        invariant
            first == img@,
            end == reloc_rva + reloc_size,
            off <= end + 0x1_0000_0000,
            out@.len() == first.len(),
            relocated(first, reloc_rva as int, end as int, delta) == relocated(
                out@,
                off as int,
                end as int,
                delta,
            ),
        decreases end + 0x1_0000_0000 - off,
    {
        let page_rva: u64 = match u32le(out.as_slice(), off) {
            Some(v) => v as u64,
            None => {
                return Err(bad());
            },
        };
        let block_size: u64 = match u32le(out.as_slice(), off + 4) {
            Some(v) => v as u64,
            None => {
                return Err(bad());
            },
        };
        if block_size < 8 {
            return Ok(out);
        }
        if !fix_up_block(&mut out, off + 8, page_rva, (block_size - 8) / 2, delta) {
            return Err(bad());
        }
        off = off + block_size;
    }
    Ok(out)
}

/// The image as it runs at `base`: mapped, and relocated when it does not stand
/// at its preferred base; `None` when it is malformed.
pub open spec fn image_at(d: Seq<u8>, h: ImageHeaders, base: u64) -> Option<Seq<u8>> {
    let (rva, size) = directory(d, h, DIR_BASERELOC as int);
    let delta = sub64(base, h.preferred_base);
    if h.entry_rva >= h.size_of_image {
        None
    } else {
        match mapped(d, h) {
            None => None,
            Some(img) => if delta != 0 && size != 0 {
                relocated(img, rva as int, rva + size, delta)
            } else {
                Some(img)
            },
        }
    }
}

/// The headers describe an image of an accepted size.
pub open spec fn loadable(d: Seq<u8>) -> bool {
    headers(d) matches Some(h) && 0 < h.size_of_image <= MAX_IMAGE
}

/// Map an image and relocate it to `base`.
pub fn map_and_relocate(d: &[u8], h: &ImageHeaders, base: u64) -> (r: Result<Vec<u8>, NtStatus>)
    requires
        h.bounded(),
    ensures
        match image_at(d@, *h, base) {
            Some(img) => r is Ok && r->Ok_0@ == img && img.len() == h.size_of_image,
            None => r == Err::<Vec<u8>, _>(NtStatus(NtStatus::INVALID_IMAGE_FORMAT)),
        },
{
    let img: Vec<u8> = match map_sections(d, h) {
        Some(v) => v,
        None => {
            return Err(bad());
        },
    };
    if h.entry_rva >= h.size_of_image {
        return Err(bad());
    }
    let (reloc_rva, reloc_size) = data_directory(d, h, DIR_BASERELOC);
    let delta: u64 = base.wrapping_sub(h.preferred_base);
    assert(delta == sub64(base, h.preferred_base));
    if delta != 0 && reloc_size != 0 {
        apply_relocations(img, reloc_rva, reloc_size, delta)
    } else {
        Ok(img)
    }
}

// ---------------------------------------------------------------------------
// Names and exports
// ---------------------------------------------------------------------------
/// Whether bytes are well-formed UTF-8. The wrapped function is
/// `core::str::from_utf8`, which succeeds exactly on well-formed UTF-8.
#[verifier::external_body]
pub(crate) fn is_utf8(b: &[u8]) -> (r: bool)
    ensures
        r == valid_utf8(b@),
{
    core::str::from_utf8(b).is_ok()
}

/// The position of the first NUL at or after `o`.
pub open spec fn nul_from(img: Seq<u8>, o: int) -> Option<int>
    decreases img.len() - o,
{
    if o < 0 || o >= img.len() {
        None
    } else if img[o] == 0 {
        Some(o)
    } else {
        nul_from(img, o + 1)
    }
}

/// The NUL-terminated name at `o`; `None` when it is unterminated or not UTF-8.
pub open spec fn name_at(img: Seq<u8>, o: int) -> Option<Seq<u8>> {
    match nul_from(img, o) {
        None => None,
        Some(e) => if valid_utf8(img.subrange(o, e)) {
            Some(img.subrange(o, e))
        } else {
            None
        },
    }
}

/// Read the NUL-terminated name at `rva`.
pub fn read_cstr(img: &[u8], rva: u64) -> (r: Option<&[u8]>)
    ensures
        match r {
            Some(s) => name_at(img@, rva as int) == Some(s@),
            None => name_at(img@, rva as int) is None,
        },
{
    if rva >= img.len() as u64 {
        return None;
    }
    let start: usize = rva as usize;
    let mut e: usize = start;
    while e < img.len()
        invariant
            start <= e <= img@.len(),
            start == rva,
            nul_from(img@, start as int) == nul_from(img@, e as int),
        decreases img@.len() - e,
    {
        if img[e] == 0 {
            let s = slice_subrange(img, start, e);
            if is_utf8(s) {
                return Some(s);
            }
            return None;
        }
        e = e + 1;
    }
    None
}

/// Are two byte strings equal?
pub fn same_bytes(a: &[u8], b: &[u8]) -> (r: bool)
    ensures
        r == (a@ == b@),
{
    if a.len() != b.len() {
        return false;
    }
    let mut i: usize = 0;
    while i < a.len()
        invariant
            i <= a@.len(),
            a@.len() == b@.len(),
            forall|k: int| 0 <= k < i ==> a@[k] == b@[k],
        decreases a@.len() - i,
    {
        if a[i] != b[i] {
            return false;
        }
        i = i + 1;
    }
    assert(a@ =~= b@);
    true
}

/// The export directory's tables: number of names, and the addresses of the
/// function, name and ordinal tables.
pub open spec fn export_tables(img: Seq<u8>) -> Option<(u32, u32, u32, u32)> {
    match read32(img, 0x3C) {
        None => None,
        Some(e) => {
            let opt = e + 24;
            if read16(img, 0) != Some(IMAGE_DOS_SIGNATURE) || read32(img, e as int) != Some(
                IMAGE_NT_SIGNATURE,
            ) {
                None
            } else {
                match (read32(img, opt + 108), read32(img, opt + 112)) {
                    (Some(dirs), Some(rva)) => if dirs == 0 || rva == 0 {
                        None
                    } else {
                        match (
                            read32(img, rva + 0x18),
                            read32(img, rva + 0x1C),
                            read32(img, rva + 0x20),
                            read32(img, rva + 0x24),
                        ) {
                            (Some(n), Some(funcs), Some(names), Some(ords)) => Some(
                                (n, funcs, names, ords),
                            ),
                            _ => None,
                        }
                    },
                    _ => None,
                }
            }
        },
    }
}

/// The address of the first export called `name`, from name `i` on. A name that
/// cannot be read ends the search.
pub open spec fn export_from(
    img: Seq<u8>,
    t: (u32, u32, u32, u32),
    name: Seq<u8>,
    i: int,
) -> Option<u32>
    decreases t.0 - i,
{
    let (n, funcs, names, ords) = t;
    if i >= n {
        None
    } else {
        match read32(img, names + i * 4) {
            None => None,
            Some(p) => match name_at(img, p as int) {
                None => None,
                Some(s) => if s == name {
                    match read16(img, ords + i * 2) {
                        None => None,
                        Some(ord) => read32(img, funcs + ord * 4),
                    }
                } else {
                    export_from(img, t, name, i + 1)
                },
            },
        }
    }
}

/// The address, relative to the image, of the export called `name`.
pub open spec fn export_rva(img: Seq<u8>, name: Seq<u8>) -> Option<u32> {
    match export_tables(img) {
        None => None,
        Some(t) => export_from(img, t, name, 0),
    }
}

fn tables(img: &[u8]) -> (r: Option<(u32, u32, u32, u32)>)
    ensures
        r == export_tables(img@),
{
    let magic: u16 = u16le(img, 0)?;
    if magic != IMAGE_DOS_SIGNATURE {
        return None;
    }
    let e: u64 = u32le(img, 0x3C)? as u64;
    let sig: u32 = u32le(img, e)?;
    if sig != IMAGE_NT_SIGNATURE {
        return None;
    }
    let opt: u64 = e + 24;
    let dirs: u32 = u32le(img, opt + 108)?;
    if dirs == 0 {
        return None;
    }
    let rva: u64 = u32le(img, opt + 112)? as u64;
    if rva == 0 {
        return None;
    }
    let n: u32 = u32le(img, rva + 0x18)?;
    let funcs: u32 = u32le(img, rva + 0x1C)?;
    let names: u32 = u32le(img, rva + 0x20)?;
    let ords: u32 = u32le(img, rva + 0x24)?;
    Some((n, funcs, names, ords))
}

/// Resolve an exported name within a mapped image at `base`.
pub fn resolve_export(img: &[u8], base: u64, name: &[u8]) -> (r: Option<u64>)
    requires
        base <= u64::MAX - 0xFFFF_FFFF,
    ensures
        r == match export_rva(img@, name@) {
            Some(rva) => Some((base + rva) as u64),
            None => None::<u64>,
        },
{
    let (n, funcs, names, ords) = tables(img)?;
    let ghost t = (n, funcs, names, ords);
    let mut i: u64 = 0;
    while i < n as u64
        invariant
            i <= n,
            t == (n, funcs, names, ords),
            export_rva(img@, name@) == export_from(img@, t, name@, i as int),
            base <= u64::MAX - 0xFFFF_FFFF,
        decreases n - i,
    {
        let p: u64 = u32le(img, names as u64 + i * 4)? as u64;
        let s = read_cstr(img, p)?;
        if same_bytes(s, name) {
            let ord: u64 = u16le(img, ords as u64 + i * 2)? as u64;
            let rva: u32 = u32le(img, funcs as u64 + ord * 4)?;
            return Some(base + rva as u64);
        }
        i = i + 1;
    }
    None
}

// ---------------------------------------------------------------------------
// Laws
// ---------------------------------------------------------------------------
/// Section `s` covers image byte `a`.
pub open spec fn covers(d: Seq<u8>, h: ImageHeaders, s: int, a: int) -> bool {
    section(d, h, s) matches Some((va, size, ptr)) && va <= a < va + size
}

proof fn lemma_uncovered(d: Seq<u8>, h: ImageHeaders, img: Seq<u8>, s: int, a: int)
    requires
        0 <= s,
        0 <= a < img.len(),
        forall|k: int| s <= k < h.num_sections ==> !#[trigger] covers(d, h, k, a),
    ensures
        with_sections(d, h, img, s) matches Some(r) ==> r.len() == img.len() && r[a] == img[a],
    decreases h.num_sections - s,
{
    if s < h.num_sections && placeable(d, h, s) {
        assert(!covers(d, h, s, a));
        lemma_uncovered(d, h, with_section(d, h, img, s), s + 1, a);
    }
}

proof fn lemma_covered(d: Seq<u8>, h: ImageHeaders, img: Seq<u8>, from: int, s: int, a: int)
    requires
        0 <= from <= s < h.num_sections,
        img.len() == h.size_of_image,
        covers(d, h, s, a),
        forall|k: int| s < k < h.num_sections ==> !#[trigger] covers(d, h, k, a),
    ensures
        with_sections(d, h, img, from) matches Some(r) ==> {
            let (va, size, ptr) = section(d, h, s)->0;
            &&& 0 <= a < r.len()
            &&& r[a] == d[ptr + (a - va)]
        },
    decreases s - from,
{
    if placeable(d, h, from) {
        let next = with_section(d, h, img, from);
        if from < s {
            lemma_covered(d, h, next, from + 1, s, a);
        } else {
            assert(next.len() == img.len());
            let (va, size, ptr) = section(d, h, s)->0;
            assert(next[a] == d[ptr + (a - va)]);
            lemma_uncovered(d, h, next, s + 1, a);
        }
    }
}

/// Every byte of a section's raw data stands at its address in the mapped
/// image, unless a later section overlaps it there.
pub proof fn section_bytes_stand_at_their_address(d: Seq<u8>, h: ImageHeaders, s: int, a: int)
    requires
        0 <= s < h.num_sections,
        covers(d, h, s, a),
        forall|k: int| s < k < h.num_sections ==> !#[trigger] covers(d, h, k, a),
    ensures
        mapped(d, h) matches Some(r) ==> {
            let (va, size, ptr) = section(d, h, s)->0;
            &&& 0 <= a < r.len()
            &&& r[a] == d[ptr + (a - va)]
        },
{
    if header_len(d, h) <= h.size_of_image {
        lemma_covered(d, h, header_image(d, h), 0, s, a);
    }
}

/// Every image byte that neither the headers nor a section cover is zero.
pub proof fn uncovered_bytes_are_zero(d: Seq<u8>, h: ImageHeaders, a: int)
    requires
        header_len(d, h) <= a < h.size_of_image,
        forall|k: int| 0 <= k < h.num_sections ==> !#[trigger] covers(d, h, k, a),
    ensures
        mapped(d, h) matches Some(r) ==> r.len() == h.size_of_image && r[a] == 0,
{
    if header_len(d, h) <= h.size_of_image {
        lemma_uncovered(d, h, header_image(d, h), 0, a);
    }
}

/// An image at its preferred base needs no fix-up.
pub proof fn preferred_base_needs_no_fixup(d: Seq<u8>, h: ImageHeaders)
    requires
        h.entry_rva < h.size_of_image,
    ensures
        image_at(d, h, h.preferred_base) == mapped(d, h),
{
}

/// A fix-up adds the displacement to the address it names and changes no other
/// byte.
pub proof fn fixup_moves_one_address(img: Seq<u8>, page: int, e: u16, delta: u64)
    requires
        0 <= page,
        e / 0x1000 == IMAGE_REL_BASED_DIR64,
    ensures
        ({
            let t = page + e % 0x1000;
            fixed_up(img, page, e, delta) matches Some(r) ==> {
                &&& r.len() == img.len()
                &&& read64(r, t) == Some(add64(read64(img, t)->0, delta))
                &&& forall|i: int|
                    0 <= i < img.len() && !(t <= i < t + 8) ==> #[trigger] r[i] == img[i]
            }
        }),
{
    reveal(fixed_up);
    let t = page + e % 0x1000;
    match read64(img, t) {
        Some(cur) => {
            crate::bytes::lemma_get_put64(img, t, add64(cur, delta));
        },
        None => {},
    }
}

/// Name `i` of the name table of an image is `name`.
pub open spec fn names_export(img: Seq<u8>, t: (u32, u32, u32, u32), i: int, name: Seq<u8>) -> bool {
    read32(img, t.2 + i * 4) matches Some(p) && name_at(img, p as int) == Some(name)
}

/// Name `i` of the name table of an image can be read and is not `name`.
pub open spec fn names_another(
    img: Seq<u8>,
    t: (u32, u32, u32, u32),
    i: int,
    name: Seq<u8>,
) -> bool {
    read32(img, t.2 + i * 4) matches Some(p) && (name_at(img, p as int) matches Some(s) && s
        != name)
}

proof fn lemma_first_name(
    img: Seq<u8>,
    t: (u32, u32, u32, u32),
    name: Seq<u8>,
    from: int,
    i: int,
)
    requires
        0 <= from <= i < t.0,
        names_export(img, t, i, name),
        forall|k: int|
            from <= k < i ==> #[trigger] names_another(img, t, k, name),
    ensures
        export_from(img, t, name, from) == match read16(img, t.3 + i * 2) {
            Some(ord) => read32(img, t.1 + ord * 4),
            None => None,
        },
    decreases i - from,
{
    if from < i {
        assert(names_another(img, t, from, name));
        lemma_first_name(img, t, name, from + 1, i);
    }
}

/// An export is found through the ordinal table: if name `i` is the first that equals the
/// name asked for, and the ordinal table holds `ord` there, the address is word `ord` of
/// the function table.
pub proof fn an_export_is_found_by_its_ordinal(
    img: Seq<u8>,
    n: u32,
    funcs: u32,
    names: u32,
    ords: u32,
    name: Seq<u8>,
    i: int,
    ord: u16,
    rva: u32,
)
    requires
        export_tables(img) == Some((n, funcs, names, ords)),
        0 <= i < n,
        names_export(img, (n, funcs, names, ords), i, name),
        forall|k: int|
            0 <= k < i ==> #[trigger] names_another(img, (n, funcs, names, ords), k, name),
        in_bounds(img, ords + i * 2, 2),
        get16(img, ords + i * 2) == ord,
        in_bounds(img, funcs + ord * 4, 4),
        get32(img, funcs + ord * 4) == rva,
    ensures
        export_rva(img, name) == Some(rva),
{
    lemma_first_name(img, (n, funcs, names, ords), name, 0, i);
}

/// No name equals the one asked for: nothing is found.
pub proof fn an_absent_export_is_not_found(
    img: Seq<u8>,
    t: (u32, u32, u32, u32),
    name: Seq<u8>,
    from: int,
)
    requires
        0 <= from,
        forall|k: int| from <= k < t.0 ==> !#[trigger] names_export(img, t, k, name),
    ensures
        export_from(img, t, name, from) is None,
        export_tables(img) == Some(t) && from == 0 ==> export_rva(img, name) is None,
    decreases t.0 - from,
{
    if from < t.0 {
        assert(!names_export(img, t, from, name));
        an_absent_export_is_not_found(img, t, name, from + 1);
    }
}

/// In two images whose name tables list the same names in different orders, each with its
/// ordinal, and whose function tables agree, a name that occurs once is found at the same
/// address.
pub proof fn the_order_of_names_changes_no_lookup(
    a: Seq<u8>,
    b: Seq<u8>,
    ta: (u32, u32, u32, u32),
    tb: (u32, u32, u32, u32),
    name: Seq<u8>,
    i: int,
    j: int,
    ord: u16,
)
    requires
        export_tables(a) == Some(ta),
        export_tables(b) == Some(tb),
        0 <= i < ta.0,
        0 <= j < tb.0,
        names_export(a, ta, i, name),
        names_export(b, tb, j, name),
        forall|k: int|
            0 <= k < i ==> #[trigger] names_another(a, ta, k, name),
        forall|k: int|
            0 <= k < j ==> #[trigger] names_another(b, tb, k, name),
        in_bounds(a, ta.3 + i * 2, 2) && get16(a, ta.3 + i * 2) == ord,
        in_bounds(b, tb.3 + j * 2, 2) && get16(b, tb.3 + j * 2) == ord,
        in_bounds(a, ta.1 + ord * 4, 4),
        in_bounds(b, tb.1 + ord * 4, 4),
        get32(a, ta.1 + ord * 4) == get32(b, tb.1 + ord * 4),
    ensures
        export_rva(a, name) is Some,
        export_rva(a, name) == export_rva(b, name),
{
    lemma_first_name(a, ta, name, 0, i);
    lemma_first_name(b, tb, name, 0, j);
}

proof fn lemma_nul_from(img: Seq<u8>, o: int, e: int)
    requires
        0 <= o <= e < img.len(),
        img[e] == 0,
        forall|k: int| o <= k < e ==> #[trigger] img[k] != 0,
    ensures
        nul_from(img, o) == Some(e),
    decreases e - o,
{
    if o < e {
        assert(img[o] != 0);
        lemma_nul_from(img, o + 1, e);
    }
}

/// A name is read back: valid text without a NUL, put at `o` with a NUL behind it.
pub proof fn a_name_reads_back(img: Seq<u8>, o: int, text: Seq<u8>)
    requires
        0 <= o,
        o + text.len() < img.len(),
        img.subrange(o, o + text.len()) == text,
        img[o + text.len()] == 0,
        forall|k: int| 0 <= k < text.len() ==> #[trigger] text[k] != 0,
        valid_utf8(text),
    ensures
        name_at(img, o) == Some(text),
{
    assert forall|k: int| o <= k < o + text.len() implies #[trigger] img[k] != 0 by {
        assert(img.subrange(o, o + text.len())[k - o] == text[k - o]);
    }
    lemma_nul_from(img, o, o + text.len() as int);
}

/// The export directory is that of the first data directory: its address stands 112 bytes
/// into the optional header, and the counts and tables at 0x18 to 0x24 of it.
pub proof fn the_export_tables_stand_in_the_first_directory(img: Seq<u8>, e: u32, rva: u32)
    requires
        in_bounds(img, 0, 0x40),
        get16(img, 0) == 0x5A4D,
        get32(img, 0x3C) == e,
        in_bounds(img, e as int, 140),
        get32(img, e as int) == 0x4550,
        get32(img, e + 24 + 108) > 0,
        get32(img, e + 24 + 112) == rva,
        rva != 0,
        in_bounds(img, rva as int, 0x28),
    ensures
        export_tables(img) == Some(
            (
                get32(img, rva + 0x18) as u32,
                get32(img, rva + 0x1C) as u32,
                get32(img, rva + 0x20) as u32,
                get32(img, rva + 0x24) as u32,
            ),
        ),
{
}

/// The headers of an image say what stands at the fixed places of the format: the signature
/// words, the machine, and the fields of the COFF and optional headers at `e`.
pub proof fn headers_stand_at_their_places(d: Seq<u8>, e: u32)
    requires
        in_bounds(d, 0, 0x40),
        get16(d, 0) == 0x5A4D,
        get32(d, 0x3C) == e,
        in_bounds(d, e as int, 136),
        get32(d, e as int) == 0x4550,
        get16(d, e + 4) == 0x8664,
        get16(d, e + 24) == 0x20B,
    ensures
        headers(d) matches Some(h) && {
            &&& h.num_sections == get16(d, e + 6)
            &&& h.sec_table == e + 24 + get16(d, e + 20)
            &&& h.opt == e + 24
            &&& h.entry_rva == get32(d, e + 40)
            &&& h.preferred_base == get64(d, e + 48)
            &&& h.size_of_image == get32(d, e + 80)
            &&& h.size_of_headers == get32(d, e + 84)
            &&& h.num_dirs == get32(d, e + 132)
        },
{
}

/// A file that does not carry the signatures of a 64-bit image for this machine has no
/// headers.
pub proof fn a_foreign_image_has_no_headers(d: Seq<u8>)
    requires
        ({
            ||| !in_bounds(d, 0, 0x40)
            ||| get16(d, 0) != 0x5A4D
            ||| !in_bounds(d, get32(d, 0x3C), 136)
            ||| get32(d, get32(d, 0x3C)) != 0x4550
            ||| get16(d, get32(d, 0x3C) + 4) != 0x8664
            ||| get16(d, get32(d, 0x3C) + 24) != 0x20B
        }),
    ensures
        headers(d) is None,
{
}

/// A data directory is an address and a size, eight bytes each from 112 bytes into the
/// optional header on; those past the stated number are absent.
pub proof fn directories_follow_each_other(d: Seq<u8>, h: ImageHeaders, i: int)
    requires
        0 <= i < 16,
    ensures
        i >= h.num_dirs ==> directory(d, h, i) == (0u32, 0u32),
        i < h.num_dirs && in_bounds(d, h.opt + 112 + 8 * i, 8) ==> directory(d, h, i).0 == get32(
            d,
            h.opt + 112 + 8 * i,
        ) && directory(d, h, i).1 == get32(d, h.opt + 116 + 8 * i),
{
}

/// A section header is forty bytes: the address, the size of the raw data and its place in
/// the file stand at 12, 16 and 20.
pub proof fn section_headers_follow_each_other(d: Seq<u8>, h: ImageHeaders, s: int)
    requires
        0 <= s < h.num_sections,
        in_bounds(d, h.sec_table + 40 * s, 40),
    ensures
        section(d, h, s) matches Some((va, size, ptr)) && {
            &&& va == get32(d, h.sec_table + 40 * s + 12)
            &&& size == get32(d, h.sec_table + 40 * s + 16)
            &&& ptr == get32(d, h.sec_table + 40 * s + 20)
        },
{
}

/// The headers of the file stand at the start of the image, where no section covers them.
pub proof fn headers_are_copied(d: Seq<u8>, h: ImageHeaders, a: int)
    requires
        0 <= a < d.len(),
        a < h.size_of_headers,
        a < h.size_of_image,
        forall|k: int| 0 <= k < h.num_sections ==> !#[trigger] covers(d, h, k, a),
    ensures
        mapped(d, h) matches Some(r) ==> r.len() == h.size_of_image && r[a] == d[a],
{
    if header_len(d, h) <= h.size_of_image {
        lemma_uncovered(d, h, header_image(d, h), 0, a);
    }
}

/// An image is refused whose headers, or the raw data of a section, are not in the file or
/// do not fit the image.
pub proof fn what_does_not_fit_is_refused(d: Seq<u8>, h: ImageHeaders, s: int)
    requires
        0 <= s < h.num_sections,
        section(d, h, s) matches Some((va, size, ptr)) ==> size > 0 && (ptr + size > d.len() || va
            + size > h.size_of_image),
    ensures
        mapped(d, h) is None,
{
    lemma_refused(d, h, header_image(d, h), 0, s);
}

proof fn lemma_refused(d: Seq<u8>, h: ImageHeaders, img: Seq<u8>, from: int, s: int)
    requires
        0 <= from <= s < h.num_sections,
        !placeable(d, h, s),
    ensures
        with_sections(d, h, img, from) is None,
    decreases s - from,
{
    if from < s && placeable(d, h, from) {
        lemma_refused(d, h, with_section(d, h, img, from), from + 1, s);
    }
}

/// An image runs at its preferred base as it is mapped. Elsewhere its fixups are moved by the
/// distance from there to where it stands.
pub proof fn an_image_is_moved_by_its_distance(d: Seq<u8>, h: ImageHeaders, base: u64)
    requires
        h.entry_rva < h.size_of_image,
        mapped(d, h) is Some,
    ensures
        image_at(d, h, h.preferred_base) == mapped(d, h),
        directory(d, h, 5).1 == 0 ==> image_at(d, h, base) == mapped(d, h),
        base != h.preferred_base && directory(d, h, 5).1 != 0 ==> exists|delta: u64|
            (h.preferred_base + delta) % 0x1_0000_0000_0000_0000 == base && image_at(d, h, base)
                == #[trigger] relocated(
                mapped(d, h)->0,
                directory(d, h, 5).0 as int,
                directory(d, h, 5).0 + directory(d, h, 5).1,
                delta,
            ),
{
    let delta = sub64(base, h.preferred_base);
    assert((h.preferred_base + delta) % 0x1_0000_0000_0000_0000 == base);
    let (rva, size) = directory(d, h, 5);
    if delta != 0 && size != 0 {
        assert(image_at(d, h, base) == relocated(
            mapped(d, h)->0,
            rva as int,
            rva + size,
            delta,
        ));
    }
}

/// An image that starts outside itself does not run anywhere.
pub proof fn an_entry_outside_the_image_is_refused(d: Seq<u8>, h: ImageHeaders, base: u64)
    requires
        h.entry_rva >= h.size_of_image,
    ensures
        image_at(d, h, base) is None,
{
}

} // verus!
