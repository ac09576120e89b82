//! Formatted messages.
use crate::kernel32::strings::{nul_pos, wstrlen};
use crate::syscalls::buffers::{widen, widened};
use vstd::prelude::*;
use vstd::slice::slice_subrange;

verus! {

pub const FORMAT_MESSAGE_IGNORE_INSERTS: u32 = 0x200;

pub const FORMAT_MESSAGE_FROM_HMODULE: u32 = 0x800;

pub const FORMAT_MESSAGE_FROM_SYSTEM: u32 = 0x1000;

/// Units of an insert that are used.
pub const MAX_INSERT: usize = 256;

/// `Unknown error`.
pub open spec fn unknown_error() -> Seq<u8> {
    seq![0x55u8, 0x6E, 0x6B, 0x6E, 0x6F, 0x77, 0x6E, 0x20, 0x65, 0x72, 0x72, 0x6F, 0x72]
}

fn unknown_text() -> (v: Vec<u8>)
    ensures
        v@ == unknown_error(),
{
    let v: Vec<u8> = vec![
        0x55u8, 0x6E, 0x6B, 0x6E, 0x6F, 0x77, 0x6E, 0x20, 0x65, 0x72, 0x72, 0x6F, 0x72,
    ];
    assert(v@ =~= unknown_error());
    v
}

/// `FormatMessageA`: the number of characters, and the bytes to write. There is
/// one message, cut to the buffer with its NUL.
pub fn FormatMessageA(has_buffer: bool, size: u32) -> (r: (u32, Vec<u8>))
    ensures
        if !has_buffer || size == 0 {
            r.0 == 0 && r.1@.len() == 0
        } else {
            let n = if size <= 13 {
                size - 1
            } else {
                13
            };
            r.0 == n && r.1@ == unknown_error().take(n).push(0)
        },
{
    if !has_buffer || size == 0 {
        return (0, Vec::new());
    }
    let mut out: Vec<u8> = unknown_text();
    let n: u32 = if size <= 13 {
        size - 1
    } else {
        13
    };
    out.truncate(n as usize);
    assert(out@ =~= unknown_error().take(n as int));
    out.push(0);
    (n, out)
}

/// `FormatMessageW`: whether the kernel is asked for the message, of the module that
/// [`asked_module`](crate::kernel32::resources::asked_module) gives.
pub fn asks_for_message(flags: u32) -> (r: bool)
    ensures
        r == (flags & (FORMAT_MESSAGE_FROM_HMODULE | FORMAT_MESSAGE_FROM_SYSTEM) != 0),
{
    flags & (FORMAT_MESSAGE_FROM_HMODULE | FORMAT_MESSAGE_FROM_SYSTEM) != 0
}

/// Whether an argument of a message can be a string: a small number is no pointer.
pub fn is_insert(p: u64) -> (r: bool)
    ensures
        r == (p >= 0x1_0000),
{
    p >= 0x1_0000
}

/// Where the first `!` at or after `j` is, or the end.
pub open spec fn bang_pos(t: Seq<u16>, j: int) -> int
    decreases t.len() - j,
{
    if j < 0 || j >= t.len() || t[j] == 0x21 {
        j
    } else {
        bang_pos(t, j + 1)
    }
}

/// Past the `!format!` at `j`, if there is one.
pub open spec fn after_format(t: Seq<u16>, j: int) -> int {
    if 0 <= j < t.len() && t[j] == 0x21 {
        let e = bang_pos(t, j + 1);
        if e < t.len() {
            e + 1
        } else {
            e
        }
    } else {
        j
    }
}

/// The text of insert `k`: the argument's string, cut to [`MAX_INSERT`] units.
pub open spec fn insert_text(args: Seq<Option<Vec<u16>>>, k: int) -> Seq<u16> {
    if 0 <= k < args.len() {
        match args[k] {
            Some(s) => {
                let n = nul_pos(s@, 0);
                s@.take(
                    if n <= MAX_INSERT {
                        n
                    } else {
                        MAX_INSERT as int
                    },
                )
            },
            None => Seq::empty(),
        }
    } else {
        Seq::empty()
    }
}

/// A template from `i` on with `%1` to `%9` replaced by the arguments (a format in
/// exclamation marks behind the number is dropped) and `%%` by `%`.
pub open spec fn formatted(t: Seq<u16>, args: Seq<Option<Vec<u16>>>, i: int) -> Seq<u16>
    decreases t.len() - i,
{
    if i < 0 || i >= t.len() {
        Seq::empty()
    } else if t[i] == 0x25 && i + 1 < t.len() && 0x31 <= t[i + 1] <= 0x39 {
        let j = after_format(t, i + 2);
        if i < j <= t.len() {
            insert_text(args, t[i + 1] - 0x31) + formatted(t, args, j)
        } else {
            Seq::empty()
        }
    } else if t[i] == 0x25 && i + 1 < t.len() && t[i + 1] == 0x25 {
        seq![0x25u16] + formatted(t, args, i + 2)
    } else {
        seq![t[i]] + formatted(t, args, i + 1)
    }
}

/// The whole message: the template, with inserts if they are wanted, or the
/// message for an unknown error when there is no template.
pub open spec fn message(flags: u32, t: Seq<u16>, args: Option<Seq<Option<Vec<u16>>>>) -> Seq<u16> {
    if t.len() == 0 {
        widened(unknown_error())
    } else if flags & FORMAT_MESSAGE_IGNORE_INSERTS == 0 && args is Some {
        formatted(t, args->Some_0, 0)
    } else {
        t
    }
}

fn skip_format(t: &[u16], j: usize) -> (r: usize)
    requires
        j <= t@.len(),
    ensures
        r == after_format(t@, j as int),
        j <= r <= t@.len(),
{
    if j < t.len() && t[j] == 0x21 {
        let mut e: usize = j + 1;
        while e < t.len() && t[e] != 0x21
            invariant
                j < e <= t@.len(),
                bang_pos(t@, j + 1) == bang_pos(t@, e as int),
            decreases t@.len() - e,
        {
            e = e + 1;
        }
        if e < t.len() {
            e + 1
        } else {
            e
        }
    } else {
        j
    }
}

proof fn lemma_nul_range(s: Seq<u16>)
    ensures
        0 <= nul_pos(s, 0) <= s.len(),
{
    crate::kernel32::strings::lemma_nul_pos(s, 0);
}

fn format_template(t: &[u16], args: &Vec<Option<Vec<u16>>>) -> (out: Vec<u16>)
    ensures
        out@ == formatted(t@, args@, 0),
{
    let ghost whole = formatted(t@, args@, 0);
    let mut out: Vec<u16> = Vec::new();
    let mut i: usize = 0;
    assert(out@ + formatted(t@, args@, 0) =~= whole);
    while i < t.len()
        invariant
            i <= t@.len(),
            out@ + formatted(t@, args@, i as int) == whole,
        decreases t@.len() - i,
    {
        let ghost before = out@;
        let c: u16 = t[i];
        if c == 0x25 && i + 1 < t.len() && 0x31 <= t[i + 1] && t[i + 1] <= 0x39 {
            let k: usize = (t[i + 1] - 0x31) as usize;
            let j: usize = skip_format(t, i + 2);
            let ghost ins = insert_text(args@, k as int);
            if k < args.len() {
                match &args[k] {
                    Some(s) => {
                        proof {
                            lemma_nul_range(s@);
                        }
                        let n: usize = wstrlen(s);
                        let m: usize = if n <= MAX_INSERT {
                            n
                        } else {
                            MAX_INSERT
                        };
                        out.extend_from_slice(slice_subrange(s.as_slice(), 0, m));
                        assert(out@ =~= before + ins);
                    },
                    None => {
                        assert(out@ =~= before + ins);
                    },
                }
            } else {
                assert(out@ =~= before + ins);
            }
            proof {
                assert(out@ + formatted(t@, args@, j as int) =~= before + (ins + formatted(
                    t@,
                    args@,
                    j as int,
                )));
            }
            i = j;
        } else if c == 0x25 && i + 1 < t.len() && t[i + 1] == 0x25 {
            out.push(0x25);
            proof {
                assert(out@ + formatted(t@, args@, i + 2) =~= before + (seq![0x25u16] + formatted(
                    t@,
                    args@,
                    i + 2,
                )));
            }
            i = i + 2;
        } else {
            out.push(c);
            proof {
                assert(out@ + formatted(t@, args@, i + 1) =~= before + (seq![c] + formatted(
                    t@,
                    args@,
                    i + 1,
                )));
            }
            i = i + 1;
        }
    }
    assert(out@ =~= whole);
    out
}

/// `FormatMessageW` after the kernel gave a template, or none: the number of
/// characters, and the units to write, cut to the buffer with a NUL.
pub fn FormatMessageW(
    flags: u32,
    template: &[u16],
    has_buffer: bool,
    size: u32,
    args: Option<&Vec<Option<Vec<u16>>>>,
) -> (r: (u32, Vec<u16>))
    ensures
        if !has_buffer || size == 0 {
            r.0 == 0 && r.1@.len() == 0
        } else {
            let m = message(
                flags,
                template@,
                match args {
                    Some(a) => Some(a@),
                    None => None,
                },
            );
            let n = if m.len() < size {
                m.len() as int
            } else {
                size - 1
            };
            r.0 == n && r.1@ == m.take(n).push(0)
        },
{
    if !has_buffer || size == 0 {
        return (0, Vec::new());
    }
    let mut out: Vec<u16> = Vec::new();
    if template.len() == 0 {
        let text: Vec<u8> = unknown_text();
        out = widen(&text);
    } else {
        match args {
            Some(a) => {
                if flags & FORMAT_MESSAGE_IGNORE_INSERTS == 0 {
                    out = format_template(template, a);
                } else {
                    out.extend_from_slice(template);
                    assert(out@ =~= template@);
                }
            },
            None => {
                out.extend_from_slice(template);
                assert(out@ =~= template@);
            },
        }
    }
    let ghost m = out@;
    let n: u32 = if out.len() < size as usize {
        out.len() as u32
    } else {
        size - 1
    };
    if out.len() > n as usize {
        out.truncate(n as usize);
    }
    assert(out@ =~= m.take(n as int));
    out.push(0);
    (n, out)
}

/// A template without `%` is its own message, whatever the arguments.
pub proof fn plain_text_is_kept(t: Seq<u16>, args: Seq<Option<Vec<u16>>>, i: int)
    requires
        0 <= i <= t.len(),
        !t.contains(0x25u16),
    ensures
        formatted(t, args, i) == t.skip(i),
    decreases t.len() - i,
{
    if i < t.len() {
        assert(t.contains(t[i]));
        plain_text_is_kept(t, args, i + 1);
        assert(seq![t[i]] + t.skip(i + 1) =~= t.skip(i));
    } else {
        assert(t.skip(i) =~= Seq::<u16>::empty());
    }
}

proof fn lemma_bang_shift(t: Seq<u16>, i: int, j: int)
    requires
        0 <= i <= j <= t.len(),
    ensures
        bang_pos(t.skip(i), j - i) == bang_pos(t, j) - i,
        j <= bang_pos(t, j) <= t.len(),
    decreases t.len() - j,
{
    if j < t.len() {
        assert(t.skip(i)[j - i] == t[j]);
        if t[j] != 0x21 {
            lemma_bang_shift(t, i, j + 1);
        }
    }
}

/// What has been formatted does not bear on what follows.
pub proof fn formatting_looks_ahead_only(
    t: Seq<u16>,
    args: Seq<Option<Vec<u16>>>,
    i: int,
    j: int,
)
    requires
        0 <= i <= j <= t.len(),
    ensures
        formatted(t, args, j) == formatted(t.skip(i), args, j - i),
    decreases t.len() - j,
{
    let u = t.skip(i);
    if j < t.len() {
        assert(u[j - i] == t[j]);
        if j + 1 < t.len() {
            assert(u[j + 1 - i] == t[j + 1]);
        }
        if t[j] == 0x25 && j + 1 < t.len() && 0x31 <= t[j + 1] <= 0x39 {
            if j + 2 < t.len() {
                assert(u[j + 2 - i] == t[j + 2]);
                if t[j + 2] == 0x21 {
                    lemma_bang_shift(t, i, j + 3);
                }
            }
            let k = after_format(t, j + 2);
            assert(after_format(u, j + 2 - i) == k - i);
            assert(j < k <= t.len());
            formatting_looks_ahead_only(t, args, i, k);
        } else if t[j] == 0x25 && j + 1 < t.len() && t[j + 1] == 0x25 {
            formatting_looks_ahead_only(t, args, i, j + 2);
        } else {
            formatting_looks_ahead_only(t, args, i, j + 1);
        }
    }
}

/// Text without `%` in front of a template stands in front of its message.
pub proof fn plain_text_stays_in_front(a: Seq<u16>, t: Seq<u16>, args: Seq<Option<Vec<u16>>>)
    requires
        !a.contains(0x25u16),
    ensures
        formatted(a + t, args, 0) == a + formatted(t, args, 0),
    decreases a.len(),
{
    if a.len() == 0 {
        assert(a + t =~= t);
        assert(a + formatted(t, args, 0) =~= formatted(t, args, 0));
    } else {
        let b = a.skip(1);
        assert(a.contains(a[0]));
        assert forall|x: u16| b.contains(x) implies a.contains(x) by {
            let k = choose|k: int| 0 <= k < b.len() && b[k] == x;
            assert(a[k + 1] == x);
        }
        plain_text_stays_in_front(b, t, args);
        formatting_looks_ahead_only(a + t, args, 1, 1);
        assert((a + t).skip(1) =~= b + t);
        assert((a + t)[0] == a[0]);
        assert(seq![a[0]] + (b + formatted(t, args, 0)) =~= a + formatted(t, args, 0));
    }
}

/// `%1` to `%9` stand for the first to the ninth argument: its text up to the NUL, at most
/// 256 units. What follows is formatted on its own.
pub proof fn an_insert_is_replaced_by_its_argument(
    n: int,
    t: Seq<u16>,
    args: Seq<Option<Vec<u16>>>,
    text: Seq<u16>,
)
    requires
        1 <= n <= args.len(),
        n <= 9,
        t.len() > 0 ==> t[0] != 0x21,
        args[n - 1] matches Some(v) && {
            &&& text.len() <= 256
            &&& text.len() <= v@.len()
            &&& v@.take(text.len() as int) == text
            &&& forall|i: int| 0 <= i < text.len() ==> #[trigger] text[i] != 0
            &&& v@.len() == text.len() || v@[text.len() as int] == 0 || text.len() == 256
        },
    ensures
        formatted(seq![0x25u16, (0x30 + n) as u16] + t, args, 0) == text + formatted(t, args, 0),
{
    let whole = seq![0x25u16, (0x30 + n) as u16] + t;
    let v = args[n - 1]->Some_0@;
    assert(whole[0] == 0x25 && whole[1] == 0x30 + n);
    if t.len() > 0 {
        assert(whole[2] == t[0]);
    }
    assert(after_format(whole, 2) == 2);
    formatting_looks_ahead_only(whole, args, 2, 2);
    assert(whole.skip(2) =~= t);
    lemma_insert(v, text, 0);
    assert(insert_text(args, n - 1) =~= text);
}

proof fn lemma_insert(v: Seq<u16>, text: Seq<u16>, i: int)
    requires
        0 <= i <= text.len() <= v.len(),
        v.take(text.len() as int) == text,
        forall|k: int| 0 <= k < text.len() ==> #[trigger] text[k] != 0,
        v.len() == text.len() || v[text.len() as int] == 0 || text.len() == 256,
    ensures
        text.len() == 256 ==> nul_pos(v, i) >= 256,
        text.len() < 256 ==> nul_pos(v, i) == text.len(),
    decreases text.len() - i,
{
    crate::kernel32::strings::lemma_nul_pos(v, i);
    if i < text.len() {
        assert(v.take(text.len() as int)[i] == v[i]);
        assert(text[i] != 0);
        lemma_insert(v, text, i + 1);
    }
}

/// An argument that is missing or no string leaves nothing in its place.
pub proof fn a_missing_argument_leaves_nothing(n: int, t: Seq<u16>, args: Seq<Option<Vec<u16>>>)
    requires
        1 <= n <= 9,
        n > args.len() || args[n - 1] is None,
        t.len() > 0 ==> t[0] != 0x21,
    ensures
        formatted(seq![0x25u16, (0x30 + n) as u16] + t, args, 0) == formatted(t, args, 0),
{
    let whole = seq![0x25u16, (0x30 + n) as u16] + t;
    assert(whole[0] == 0x25 && whole[1] == 0x30 + n);
    if t.len() > 0 {
        assert(whole[2] == t[0]);
    }
    formatting_looks_ahead_only(whole, args, 2, 2);
    assert(whole.skip(2) =~= t);
    assert(Seq::<u16>::empty() + formatted(t, args, 0) =~= formatted(t, args, 0));
}

/// A format between exclamation marks behind the number of an insert is dropped.
pub proof fn an_insert_format_is_dropped(
    n: int,
    format: Seq<u16>,
    t: Seq<u16>,
    args: Seq<Option<Vec<u16>>>,
)
    requires
        1 <= n <= 9,
        !format.contains(0x21u16),
        t.len() > 0 ==> t[0] != 0x21,
    ensures
        formatted(
            seq![0x25u16, (0x30 + n) as u16, 0x21u16] + format + seq![0x21u16] + t,
            args,
            0,
        ) == formatted(seq![0x25u16, (0x30 + n) as u16] + t, args, 0),
{
    let a = seq![0x25u16, (0x30 + n) as u16, 0x21u16] + format + seq![0x21u16] + t;
    let b = seq![0x25u16, (0x30 + n) as u16] + t;
    let e = 3 + format.len() as int;
    assert(a[0] == 0x25 && a[1] == 0x30 + n && a[2] == 0x21);
    assert(a[e] == 0x21);
    assert forall|k: int| 3 <= k < e implies a[k] != 0x21 by {
        assert(format.contains(format[k - 3]));
    }
    lemma_bang_at(a, 3, e);
    assert(after_format(a, 2) == e + 1);
    formatting_looks_ahead_only(a, args, e + 1, e + 1);
    assert(a.skip(e + 1) =~= t);
    assert(b[0] == 0x25 && b[1] == 0x30 + n);
    if t.len() > 0 {
        assert(b[2] == t[0]);
    }
    assert(after_format(b, 2) == 2);
    formatting_looks_ahead_only(b, args, 2, 2);
    assert(b.skip(2) =~= t);
}

proof fn lemma_bang_at(t: Seq<u16>, j: int, e: int)
    requires
        0 <= j <= e < t.len(),
        t[e] == 0x21,
        forall|k: int| j <= k < e ==> t[k] != 0x21,
    ensures
        bang_pos(t, j) == e,
    decreases e - j,
{
    if j < e {
        lemma_bang_at(t, j + 1, e);
    }
}

/// `%%` stands for one `%`.
pub proof fn a_doubled_percent_is_one(t: Seq<u16>, args: Seq<Option<Vec<u16>>>)
    ensures
        formatted(seq![0x25u16, 0x25u16] + t, args, 0) == seq![0x25u16] + formatted(t, args, 0),
{
    let whole = seq![0x25u16, 0x25u16] + t;
    assert(whole[0] == 0x25 && whole[1] == 0x25);
    formatting_looks_ahead_only(whole, args, 2, 2);
    assert(whole.skip(2) =~= t);
}

/// A message is the formatted template when inserts are wanted and there are arguments, the
/// template itself when they are not, and `Unknown error` when there is none.
pub proof fn inserts_can_be_declined(flags: u32, t: Seq<u16>, args: Seq<Option<Vec<u16>>>)
    requires
        t.len() > 0,
    ensures
        flags & 0x200 != 0 ==> message(flags, t, Some(args)) == t,
        flags & 0x200 == 0 ==> message(flags, t, Some(args)) == formatted(t, args, 0),
        message(flags, t, None) == t,
        message(flags, Seq::empty(), Some(args)) == message(0, Seq::empty(), None),
        message(flags, Seq::empty(), None).len() == 13,
{
}

/// What has no message is an unknown error.
pub proof fn what_has_no_message_is_unknown(i: int)
    requires
        0 <= i < 13,
    ensures
        unknown_error().len() == 13,
        unknown_error()[i] as char == "Unknown error"@[i],
{
    reveal_strlit("Unknown error");
}

} // verus!
