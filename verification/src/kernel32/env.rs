//! Environment variables.
//!
//! The environment is a list of entries `NAME=value`. Programs see it as one block
//! of units: each entry with a NUL, and a NUL after the last. Entries are sorted by
//! name without regard to ASCII case, and names are found the same way; setting a
//! variable drops the old entry and puts the new one in its place in the order.
use crate::kernel32::compare::{
    order, order_of, the_order_is_antisymmetric, the_order_is_transitive, CSTR_GREATER, CSTR_LESS,
};
use crate::kernel32::strings::{ended, lemma_nul_pos, nul_pos, text, wstrlen};
use crate::rtl::string::{lower_unit, to_lower_unit, units_equal_fold};
use crate::syscalls::buffers::{widen, widened};
use vstd::prelude::*;
use vstd::slice::slice_subrange;

verus! {

/// Units that the block can hold.
pub const ENV_UNITS: usize = 4096;

/// The error code for a variable that is not set.
pub const ERROR_ENVVAR_NOT_FOUND: u32 = 203;

/// The environment.
pub struct Environment {
    pub entries: Vec<Vec<u16>>,
}

impl View for Environment {
    type V = Seq<Seq<u16>>;

    open spec fn view(&self) -> Seq<Seq<u16>> {
        Seq::new(self.entries@.len(), |i: int| self.entries@[i]@)
    }
}

/// Units of the block.
pub open spec fn block_len(es: Seq<Seq<u16>>) -> int
    decreases es.len(),
{
    if es.len() == 0 {
        1
    } else {
        block_len(es.drop_last()) + es.last().len() + 1
    }
}

/// The entries, each with its NUL.
pub open spec fn rows(es: Seq<Seq<u16>>) -> Seq<u16>
    decreases es.len(),
{
    if es.len() == 0 {
        Seq::empty()
    } else {
        rows(es.drop_last()) + es.last().push(0)
    }
}

/// The block that programs see.
pub open spec fn block(es: Seq<Seq<u16>>) -> Seq<u16> {
    rows(es).push(0)
}

/// An entry is not empty and holds no NUL.
pub open spec fn entry_ok(e: Seq<u16>) -> bool {
    e.len() > 0 && !e.contains(0u16)
}

/// The entries make a block that fits and is sorted.
pub open spec fn env_sound(es: Seq<Seq<u16>>) -> bool {
    &&& block_len(es) <= ENV_UNITS
    &&& forall|i: int| 0 <= i < es.len() ==> entry_ok(#[trigger] es[i])
    &&& name_sorted(es)
}

/// The name of an entry.
pub open spec fn key_of(e: Seq<u16>) -> Seq<u16> {
    e.take(equals_pos(e, 0))
}

/// The entries are in the order of their names, without regard to ASCII case.
pub open spec fn name_sorted(es: Seq<Seq<u16>>) -> bool {
    forall|i: int, j: int|
        0 <= i < j < es.len() ==> order(
            key_of(#[trigger] es[i]),
            key_of(#[trigger] es[j]),
            true,
            0,
        ) != CSTR_GREATER
}

/// The place of a name: before the first entry from `i` on whose name comes after it.
pub open spec fn place(es: Seq<Seq<u16>>, key: Seq<u16>, i: int) -> int
    decreases es.len() - i,
{
    if i < 0 || i >= es.len() {
        es.len() as int
    } else if order(key, key_of(es[i]), true, 0) == CSTR_LESS {
        i
    } else {
        place(es, key, i + 1)
    }
}

/// Where the first `=` at or after `i` is, or the end.
pub open spec fn equals_pos(e: Seq<u16>, i: int) -> int
    decreases e.len() - i,
{
    if i < 0 || i >= e.len() || e[i] == 0x3D {
        i
    } else {
        equals_pos(e, i + 1)
    }
}

/// An entry is for a name.
pub open spec fn is_for(e: Seq<u16>, name: Seq<u16>) -> bool {
    let k = equals_pos(e, 0);
    k < e.len() && units_equal_fold(e.take(k), name)
}

/// The value of an entry.
pub open spec fn value_of(e: Seq<u16>) -> Seq<u16> {
    e.skip(equals_pos(e, 0) + 1)
}

/// The first entry for a name, from `i` on.
pub open spec fn entry_for(es: Seq<Seq<u16>>, name: Seq<u16>, i: int) -> Option<int>
    decreases es.len() - i,
{
    if i < 0 || i >= es.len() {
        None
    } else if is_for(es[i], name) {
        Some(i)
    } else {
        entry_for(es, name, i + 1)
    }
}

/// The value of a variable.
pub open spec fn lookup(es: Seq<Seq<u16>>, name: Seq<u16>) -> Option<Seq<u16>> {
    match entry_for(es, name, 0) {
        Some(k) => Some(value_of(es[k])),
        None => None,
    }
}

/// The entry of a variable.
pub open spec fn entry(name: Seq<u16>, value: Seq<u16>) -> Seq<u16> {
    name.push(0x3D) + value
}

/// The entries without the one for a name.
pub open spec fn unset(es: Seq<Seq<u16>>, name: Seq<u16>) -> Seq<Seq<u16>> {
    match entry_for(es, name, 0) {
        Some(k) => es.remove(k),
        None => es,
    }
}

/// Setting a variable, or deleting it: the entries, and whether there was room.
pub open spec fn assigned(es: Seq<Seq<u16>>, name: Seq<u16>, value: Option<Seq<u16>>) -> (
    Seq<Seq<u16>>,
    bool,
) {
    let rest = unset(es, name);
    match value {
        None => (rest, true),
        Some(v) => if block_len(rest) + entry(name, v).len() + 1 > ENV_UNITS {
            (rest, false)
        } else {
            let e = entry(name, v);
            (rest.insert(place(rest, key_of(e), 0), e), true)
        },
    }
}

proof fn lemma_equals_pos(e: Seq<u16>, i: int)
    requires
        0 <= i <= e.len(),
    ensures
        i <= equals_pos(e, i) <= e.len(),
        equals_pos(e, i) < e.len() ==> e[equals_pos(e, i)] == 0x3D,
    decreases e.len() - i,
{
    if i < e.len() && e[i] != 0x3D {
        lemma_equals_pos(e, i + 1);
    }
}

proof fn lemma_entry_for(es: Seq<Seq<u16>>, name: Seq<u16>, i: int)
    requires
        0 <= i,
    ensures
        match entry_for(es, name, i) {
            Some(k) => i <= k < es.len() && is_for(es[k], name) && forall|j: int|
                i <= j < k ==> !is_for(#[trigger] es[j], name),
            None => forall|j: int| i <= j < es.len() ==> !is_for(#[trigger] es[j], name),
        },
    decreases es.len() - i,
{
    if i < es.len() && !is_for(es[i], name) {
        lemma_entry_for(es, name, i + 1);
    }
}

proof fn lemma_block_len_remove(es: Seq<Seq<u16>>, k: int)
    requires
        0 <= k < es.len(),
    ensures
        block_len(es.remove(k)) == block_len(es) - es[k].len() - 1,
    decreases es.len(),
{
    let r = es.remove(k);
    if k == es.len() - 1 {
        assert(r =~= es.drop_last());
    } else {
        assert(r.drop_last() =~= es.drop_last().remove(k));
        assert(r.last() == es.last());
        lemma_block_len_remove(es.drop_last(), k);
    }
}

proof fn lemma_block_len(es: Seq<Seq<u16>>)
    ensures
        block_len(es) >= 1,
        block(es).len() == block_len(es),
    decreases es.len(),
{
    if es.len() > 0 {
        lemma_block_len(es.drop_last());
    }
}

/// The position of the entry for a name in a changed list.
proof fn lemma_unset(es: Seq<Seq<u16>>, name: Seq<u16>)
    requires
        env_sound(es),
    ensures
        env_sound(unset(es, name)),
{
    lemma_entry_for(es, name, 0);
    match entry_for(es, name, 0) {
        Some(k) => {
            lemma_block_len_remove(es, k);
            let r = es.remove(k);
            assert forall|i: int| 0 <= i < r.len() implies entry_ok(#[trigger] r[i]) by {
                assert(r[i] == es[if i < k { i } else { i + 1 }]);
            }
            assert forall|i: int, j: int| 0 <= i < j < r.len() implies order(
                key_of(#[trigger] r[i]),
                key_of(#[trigger] r[j]),
                true,
                0,
            ) != CSTR_GREATER by {
                assert(r[i] == es[if i < k { i } else { i + 1 }]);
                assert(r[j] == es[if j < k { j } else { j + 1 }]);
            }
        },
        None => {},
    }
}

proof fn lemma_place(es: Seq<Seq<u16>>, key: Seq<u16>, i: int)
    requires
        0 <= i <= es.len(),
    ensures
        i <= place(es, key, i) <= es.len(),
        forall|j: int|
            i <= j < place(es, key, i) ==> order(key, key_of(#[trigger] es[j]), true, 0)
                != CSTR_LESS,
        place(es, key, i) < es.len() ==> order(key, key_of(es[place(es, key, i)]), true, 0)
            == CSTR_LESS,
    decreases es.len() - i,
{
    if i < es.len() && order(key, key_of(es[i]), true, 0) != CSTR_LESS {
        lemma_place(es, key, i + 1);
    }
}

/// An entry put in its place keeps the entries sound.
proof fn lemma_inserted(es: Seq<Seq<u16>>, e: Seq<u16>)
    requires
        env_sound(es),
        entry_ok(e),
        block_len(es) + e.len() + 1 <= ENV_UNITS,
    ensures
        env_sound(es.insert(place(es, key_of(e), 0), e)),
{
    let key = key_of(e);
    let p = place(es, key, 0);
    let r = es.insert(p, e);
    lemma_place(es, key, 0);
    assert(r.remove(p) =~= es);
    lemma_block_len_remove(r, p);
    assert forall|i: int| 0 <= i < r.len() implies entry_ok(#[trigger] r[i]) by {
        if i < p {
            assert(r[i] == es[i]);
        } else if i > p {
            assert(r[i] == es[i - 1]);
        }
    }
    assert forall|i: int, j: int| 0 <= i < j < r.len() implies order(
        key_of(#[trigger] r[i]),
        key_of(#[trigger] r[j]),
        true,
        0,
    ) != CSTR_GREATER by {
        if j < p {
            assert(r[i] == es[i] && r[j] == es[j]);
        } else if j == p {
            assert(r[i] == es[i]);
            the_order_is_antisymmetric(key, key_of(es[i]), true, 0);
        } else if i < p {
            assert(r[i] == es[i] && r[j] == es[j - 1]);
        } else if i > p {
            assert(r[i] == es[i - 1] && r[j] == es[j - 1]);
        } else {
            assert(r[j] == es[j - 1]);
            if j - 1 > p {
                assert(order(key_of(es[p]), key_of(es[j - 1]), true, 0) != CSTR_GREATER);
                the_order_is_transitive(key, key_of(es[p]), key_of(es[j - 1]), true, 0);
            }
        }
    }
}

/// The default entries are sorted.
#[verifier::spinoff_prover]
proof fn lemma_defaults_sorted(es: Seq<Seq<u16>>)
    requires
        es.len() == 6,
        es[0] == widened(default_comspec()),
        es[1] == widened(default_os()),
        es[2] == widened(default_path()),
        es[3] == widened(default_pathext()),
        es[4] == widened(default_prompt()),
        es[5] == widened(default_root()),
    ensures
        name_sorted(es),
{
    reveal_with_fuel(equals_pos, 12);
    assert(equals_pos(es[0], 0) == 7);
    assert(equals_pos(es[1], 0) == 2);
    assert(equals_pos(es[2], 0) == 4);
    assert(equals_pos(es[3], 0) == 7);
    assert(equals_pos(es[4], 0) == 6);
    assert(equals_pos(es[5], 0) == 10);
    assert(key_of(es[0])[0] == 0x43);
    assert(key_of(es[1])[0] == 0x4F);
    assert(key_of(es[2])[0] == 0x50 && key_of(es[2])[1] == 0x41 && key_of(es[2])[2] == 0x54
        && key_of(es[2])[3] == 0x48);
    assert(key_of(es[3])[0] == 0x50 && key_of(es[3])[1] == 0x41 && key_of(es[3])[2] == 0x54
        && key_of(es[3])[3] == 0x48);
    assert(key_of(es[4])[0] == 0x50 && key_of(es[4])[1] == 0x52);
    assert(key_of(es[5])[0] == 0x53);
    reveal_with_fuel(order, 6);
    assert forall|i: int, j: int| 0 <= i < j < es.len() implies order(
        key_of(#[trigger] es[i]),
        key_of(#[trigger] es[j]),
        true,
        0,
    ) != CSTR_GREATER by {
        if i == 2 && j == 3 {
            assert(order(key_of(es[2]), key_of(es[3]), true, 4) == CSTR_LESS);
        } else if i == 2 && j == 4 {
            assert(order(key_of(es[2]), key_of(es[4]), true, 1) == CSTR_LESS);
        } else if i == 3 && j == 4 {
            assert(order(key_of(es[3]), key_of(es[4]), true, 1) == CSTR_LESS);
        }
    }
}

impl Environment {
    /// The block fits.
    pub open spec fn wf(&self) -> bool {
        env_sound(self@)
    }

    /// The default environment.
    pub fn new() -> (env: Self)
        ensures
            env.wf(),
            env@.len() == 6,
            env@[0] == widened(default_comspec()),
            env@[1] == widened(default_os()),
            env@[2] == widened(default_path()),
            env@[3] == widened(default_pathext()),
            env@[4] == widened(default_prompt()),
            env@[5] == widened(default_root()),
    {
        let a: [u8; 18] = [
            0x43, 0x4F, 0x4D, 0x53, 0x50, 0x45, 0x43, 0x3D, 0x43, 0x3A, 0x5C, 0x63, 0x6D, 0x64,
            0x2E, 0x65, 0x78, 0x65,
        ];
        let b: [u8; 11] = [0x4F, 0x53, 0x3D, 0x6E, 0x61, 0x6E, 0x6F, 0x6B, 0x72, 0x6E, 0x6C];
        let c: [u8; 8] = [0x50, 0x41, 0x54, 0x48, 0x3D, 0x43, 0x3A, 0x5C];
        let d: [u8; 22] = [
            0x50, 0x41, 0x54, 0x48, 0x45, 0x58, 0x54, 0x3D, 0x2E, 0x45, 0x58, 0x45, 0x3B, 0x2E,
            0x42, 0x41, 0x54, 0x3B, 0x2E, 0x43, 0x4D, 0x44,
        ];
        let e: [u8; 11] = [0x50, 0x52, 0x4F, 0x4D, 0x50, 0x54, 0x3D, 0x24, 0x50, 0x24, 0x47];
        let f: [u8; 21] = [
            0x53, 0x79, 0x73, 0x74, 0x65, 0x6D, 0x52, 0x6F, 0x6F, 0x74, 0x3D, 0x43, 0x3A, 0x5C,
            0x66, 0x78, 0x63, 0x6B, 0x6E, 0x6D, 0x63,
        ];
        let mut entries: Vec<Vec<u16>> = Vec::new();
        entries.push(widen(&a));
        entries.push(widen(&b));
        entries.push(widen(&c));
        entries.push(widen(&d));
        entries.push(widen(&e));
        entries.push(widen(&f));
        let env = Environment { entries };
        proof {
            assert(a@ =~= default_comspec());
            assert(b@ =~= default_os());
            assert(c@ =~= default_path());
            assert(d@ =~= default_pathext());
            assert(e@ =~= default_prompt());
            assert(f@ =~= default_root());
            let es = env@;
            lemma_defaults_sorted(es);
            reveal_with_fuel(block_len, 7);
            assert(es.drop_last().len() == 5);
            assert(block_len(es) == 98);
            assert forall|i: int| 0 <= i < es.len() implies entry_ok(#[trigger] es[i]) by {
                assert forall|k: int| 0 <= k < es[i].len() implies #[trigger] es[i][k] != 0 by {
                    if i == 0 {
                        assert(es[i][k] == default_comspec()[k]);
                    } else if i == 1 {
                        assert(es[i][k] == default_os()[k]);
                    } else if i == 2 {
                        assert(es[i][k] == default_path()[k]);
                    } else if i == 3 {
                        assert(es[i][k] == default_pathext()[k]);
                    } else if i == 4 {
                        assert(es[i][k] == default_prompt()[k]);
                    } else {
                        assert(es[i][k] == default_root()[k]);
                    }
                }
            }
        }
        env
    }

    fn find(&self, name: &[u16]) -> (r: Option<usize>)
        ensures
            match r {
                Some(k) => entry_for(self@, name@, 0) == Some(k as int) && k < self@.len(),
                None => entry_for(self@, name@, 0) is None,
            },
    {
        let mut i: usize = 0;
        while i < self.entries.len()
            invariant
                i <= self@.len(),
                entry_for(self@, name@, 0) == entry_for(self@, name@, i as int),
            decreases self@.len() - i,
        {
            assert(self@[i as int] == self.entries@[i as int]@);
            if matches_name(&self.entries[i], name) {
                return Some(i);
            }
            i = i + 1;
        }
        None
    }

    fn place_for(&self, key: &[u16]) -> (p: usize)
        ensures
            p == place(self@, key@, 0),
            p <= self@.len(),
    {
        let mut i: usize = 0;
        while i < self.entries.len()
            invariant
                i <= self@.len(),
                place(self@, key@, 0) == place(self@, key@, i as int),
            decreases self@.len() - i,
        {
            assert(self@[i as int] == self.entries@[i as int]@);
            let e = self.entries[i].as_slice();
            let k = slice_subrange(e, 0, key_len(e));
            assert(k@ =~= key_of(self@[i as int]));
            if order_of(key, k, true) == CSTR_LESS {
                return i;
            }
            i = i + 1;
        }
        i
    }

    fn total(&self) -> (n: usize)
        requires
            self.wf(),
        ensures
            n == block_len(self@),
    {
        let mut n: usize = 1;
        let mut i: usize = 0;
        let ghost es = self@;
        assert(es.take(0) =~= Seq::empty());
        while i < self.entries.len()
            invariant
                es == self@,
                self.wf(),
                i <= es.len(),
                n == block_len(es.take(i as int)),
            decreases es.len() - i,
        {
            proof {
                let t = es.take(i + 1);
                assert(t.drop_last() =~= es.take(i as int));
                assert(t.last() == es[i as int]);
                lemma_block_len_mono(es, i + 1);
                assert(es[i as int] == self.entries@[i as int]@);
            }
            n = n + self.entries[i].len() + 1;
            i = i + 1;
        }
        assert(es.take(i as int) =~= es);
        n
    }
}

proof fn lemma_block_len_mono(es: Seq<Seq<u16>>, i: int)
    requires
        0 <= i <= es.len(),
    ensures
        block_len(es.take(i)) <= block_len(es),
    decreases es.len(),
{
    if i == es.len() {
        assert(es.take(i) =~= es);
    } else {
        assert(es.drop_last().take(i) =~= es.take(i));
        lemma_block_len_mono(es.drop_last(), i);
    }
}

/// `COMSPEC=C:\cmd.exe`
pub open spec fn default_comspec() -> Seq<u8> {
    seq![
        0x43u8, 0x4F, 0x4D, 0x53, 0x50, 0x45, 0x43, 0x3D, 0x43, 0x3A, 0x5C, 0x63, 0x6D, 0x64, 0x2E,
        0x65, 0x78, 0x65,
    ]
}

/// `OS=nanokrnl`
pub open spec fn default_os() -> Seq<u8> {
    seq![0x4Fu8, 0x53, 0x3D, 0x6E, 0x61, 0x6E, 0x6F, 0x6B, 0x72, 0x6E, 0x6C]
}

/// `PATH=C:\`
pub open spec fn default_path() -> Seq<u8> {
    seq![0x50u8, 0x41, 0x54, 0x48, 0x3D, 0x43, 0x3A, 0x5C]
}

/// `PATHEXT=.EXE;.BAT;.CMD`
pub open spec fn default_pathext() -> Seq<u8> {
    seq![
        0x50u8, 0x41, 0x54, 0x48, 0x45, 0x58, 0x54, 0x3D, 0x2E, 0x45, 0x58, 0x45, 0x3B, 0x2E, 0x42,
        0x41, 0x54, 0x3B, 0x2E, 0x43, 0x4D, 0x44,
    ]
}

/// `PROMPT=$P$G`
pub open spec fn default_prompt() -> Seq<u8> {
    seq![0x50u8, 0x52, 0x4F, 0x4D, 0x50, 0x54, 0x3D, 0x24, 0x50, 0x24, 0x47]
}

/// `SystemRoot=C:\fxcknmc`
pub open spec fn default_root() -> Seq<u8> {
    seq![
        0x53u8, 0x79, 0x73, 0x74, 0x65, 0x6D, 0x52, 0x6F, 0x6F, 0x74, 0x3D, 0x43, 0x3A, 0x5C, 0x66,
        0x78, 0x63, 0x6B, 0x6E, 0x6D, 0x63,
    ]
}

fn key_len(e: &[u16]) -> (k: usize)
    ensures
        k == equals_pos(e@, 0),
        k <= e@.len(),
{
    let mut k: usize = 0;
    while k < e.len() && e[k] != 0x3D
        invariant
            k <= e@.len(),
            equals_pos(e@, 0) == equals_pos(e@, k as int),
        decreases e@.len() - k,
    {
        k = k + 1;
    }
    k
}

fn matches_name(e: &Vec<u16>, name: &[u16]) -> (r: bool)
    ensures
        r == is_for(e@, name@),
{
    let k: usize = key_len(e);
    if k >= e.len() || k != name.len() {
        return false;
    }
    let mut i: usize = 0;
    while i < k
        invariant
            i <= k,
            k < e@.len(),
            k == name@.len(),
            k == equals_pos(e@, 0),
            forall|j: int| 0 <= j < i ==> lower_unit(#[trigger] e@[j]) == lower_unit(name@[j]),
        decreases k - i,
    {
        if to_lower_unit(e[i]) != to_lower_unit(name[i]) {
            assert(lower_unit(e@.take(k as int)[i as int]) != lower_unit(name@[i as int]));
            return false;
        }
        i = i + 1;
    }
    assert forall|j: int| 0 <= j < e@.take(k as int).len() implies lower_unit(
        #[trigger] e@.take(k as int)[j],
    ) == lower_unit(name@[j]) by {
        assert(lower_unit(e@[j]) == lower_unit(name@[j]));
    }
    true
}

/// `GetEnvironmentStringsW`: the block.
pub fn GetEnvironmentStringsW(env: &Environment) -> (b: Vec<u16>)
    ensures
        b@ == block(env@),
{
    let mut b: Vec<u16> = Vec::new();
    let ghost es = env@;
    let mut i: usize = 0;
    assert(es.take(0) =~= Seq::empty());
    assert(b@ =~= rows(es.take(0)));
    while i < env.entries.len()
        invariant
            es == env@,
            i <= es.len(),
            b@ == rows(es.take(i as int)),
        decreases es.len() - i,
    {
        let ghost before = b@;
        b.extend_from_slice(env.entries[i].as_slice());
        b.push(0);
        proof {
            let t = es.take(i + 1);
            assert(t.drop_last() =~= es.take(i as int));
            assert(t.last() == es[i as int]);
            assert(b@ =~= before + es[i as int].push(0));
        }
        i = i + 1;
    }
    assert(es.take(i as int) =~= es);
    b.push(0);
    b
}

/// What reading a variable gives: the result, the units to write, and whether the
/// last error becomes "not found".
#[derive(Debug)]
pub struct EnvRead {
    pub result: u32,
    pub units: Vec<u16>,
    pub not_found: bool,
}

/// `GetEnvironmentVariableW`: the value with its NUL if it fits, and its length;
/// else the room it needs.
pub fn GetEnvironmentVariableW(
    env: &Environment,
    name: Option<&[u16]>,
    has_buffer: bool,
    size: u32,
) -> (r: EnvRead)
    requires
        env.wf(),
        name matches Some(n) ==> ended(n@),
    ensures
        match name {
            None => r.result == 0 && r.units@.len() == 0 && !r.not_found,
            Some(n) => match lookup(env@, text(n@)) {
                Some(v) => if !has_buffer || size < v.len() + 1 {
                    r.result == v.len() + 1 && r.units@.len() == 0 && !r.not_found
                } else {
                    r.result == v.len() && r.units@ == v.push(0) && !r.not_found
                },
                None => r.result == 0 && r.units@.len() == 0 && r.not_found,
            },
        },
{
    let none: Vec<u16> = Vec::new();
    let given = match name {
        None => {
            return EnvRead { result: 0, units: none, not_found: false };
        },
        Some(n) => n,
    };
    let key = c_text(given);
    match env.find(key) {
        None => EnvRead { result: 0, units: none, not_found: true },
        Some(k) => {
            proof {
                lemma_entry_bound(env@, k as int);
                lemma_entry_for(env@, key@, 0);
                lemma_equals_pos(env@[k as int], 0);
                assert(env@[k as int] == env.entries@[k as int]@);
            }
            let e = env.entries[k].as_slice();
            let at: usize = key_len(e) + 1;
            let v = slice_subrange(e, at, e.len());
            assert(v@ =~= value_of(env@[k as int]));
            if !has_buffer || (size as usize) < v.len() + 1 {
                return EnvRead { result: (v.len() + 1) as u32, units: none, not_found: false };
            }
            let mut units: Vec<u16> = Vec::new();
            units.extend_from_slice(v);
            units.push(0);
            assert(units@ =~= v@.push(0));
            EnvRead { result: v.len() as u32, units, not_found: false }
        },
    }
}

proof fn lemma_entry_bound(es: Seq<Seq<u16>>, k: int)
    requires
        env_sound(es),
        0 <= k < es.len(),
    ensures
        es[k].len() + 2 <= ENV_UNITS,
{
    lemma_block_len_remove(es, k);
    lemma_block_len(es.remove(k));
}

fn c_text(s: &[u16]) -> (t: &[u16])
    ensures
        t@ == text(s@),
{
    let n: usize = wstrlen(s);
    let t = slice_subrange(s, 0, n);
    assert(t@ =~= text(s@));
    t
}

/// `SetEnvironmentVariableW`: set a variable, or delete it when there is no value.
/// Fails without a name, and when the block has no room; the old entry is gone
/// then too.
pub fn SetEnvironmentVariableW(
    env: &mut Environment,
    name: Option<&[u16]>,
    value: Option<&[u16]>,
) -> (r: i32)
    requires
        old(env).wf(),
        name matches Some(n) ==> ended(n@),
        value matches Some(v) ==> ended(v@),
    ensures
        final(env).wf(),
        match name {
            None => r == 0 && final(env)@ == old(env)@,
            Some(n) => {
                let (es, ok) = assigned(
                    old(env)@,
                    text(n@),
                    match value {
                        Some(v) => Some(text(v@)),
                        None => None,
                    },
                );
                final(env)@ == es && r == if ok {
                    1int
                } else {
                    0
                }
            },
        },
{
    let given = match name {
        None => {
            return 0;
        },
        Some(n) => n,
    };
    let key = c_text(given);
    let ghost before = env@;
    proof {
        lemma_unset(before, key@);
    }
    match env.find(key) {
        Some(k) => {
            let _old: Vec<u16> = env.entries.remove(k);
            assert(env@ =~= before.remove(k as int));
        },
        None => {},
    }
    let ghost rest = env@;
    assert(rest == unset(before, key@));
    let v = match value {
        None => {
            return 1;
        },
        Some(v) => c_text(v),
    };
    let used: usize = env.total();
    proof {
        lemma_nul_pos(given@, 0);
        lemma_block_len(rest);
    }
    if key.len() > ENV_UNITS || v.len() > ENV_UNITS || used + key.len() + 1 + v.len() + 1
        > ENV_UNITS {
        return 0;
    }
    let mut e: Vec<u16> = Vec::new();
    e.extend_from_slice(key);
    e.push(0x3D);
    e.extend_from_slice(v);
    assert(e@ =~= entry(key@, v@));
    let ghost ev = e@;
    let k: usize = key_len(&e);
    let head = slice_subrange(e.as_slice(), 0, k);
    assert(head@ =~= key_of(ev));
    let at: usize = env.place_for(head);
    env.entries.insert(at, e);
    proof {
        assert(env@ =~= rest.insert(at as int, ev));
        lemma_nul_pos(value->Some_0@, 0);
        assert(entry_ok(ev)) by {
            assert forall|i: int| 0 <= i < ev.len() implies #[trigger] ev[i] != 0 by {
                if i < key@.len() {
                    assert(ev[i] == given@[i]);
                } else if i > key@.len() {
                    assert(ev[i] == value->Some_0@[i - key@.len() - 1]);
                }
            }
        }
        lemma_inserted(rest, ev);
    }
    1
}

// ---------------------------------------------------------------------------
// Expansion
// ---------------------------------------------------------------------------
/// Where the first `%` at or after `i` is, or the end.
pub open spec fn percent_pos(s: Seq<u16>, i: int) -> int
    decreases s.len() - i,
{
    if i < 0 || i >= s.len() || s[i] == 0x25 {
        i
    } else {
        percent_pos(s, i + 1)
    }
}

/// The value that the `%NAME%` at `i` stands for, if there is one.
pub open spec fn insert_at(es: Seq<Seq<u16>>, s: Seq<u16>, i: int) -> Option<Seq<u16>> {
    let j = percent_pos(s, i + 1);
    if s[i] == 0x25 && j < s.len() && j > i + 1 {
        lookup(es, s.subrange(i + 1, j))
    } else {
        None
    }
}

/// A string from `i` on with every `%NAME%` of a variable replaced by its value.
/// Everything else stays.
pub open spec fn expanded(es: Seq<Seq<u16>>, s: Seq<u16>, i: int) -> Seq<u16>
    decreases s.len() - i,
{
    if i < 0 || i >= s.len() {
        Seq::empty()
    } else {
        match insert_at(es, s, i) {
            Some(v) => {
                let j = percent_pos(s, i + 1);
                if j > i {
                    v + expanded(es, s, j + 1)
                } else {
                    v
                }
            },
            None => seq![s[i]] + expanded(es, s, i + 1),
        }
    }
}

fn find_percent(s: &[u16], from: usize) -> (j: usize)
    requires
        from <= s@.len(),
    ensures
        j == percent_pos(s@, from as int),
        from <= j <= s@.len(),
{
    let mut j: usize = from;
    while j < s.len() && s[j] != 0x25
        invariant
            from <= j <= s@.len(),
            percent_pos(s@, from as int) == percent_pos(s@, j as int),
        decreases s@.len() - j,
    {
        j = j + 1;
    }
    j
}

fn find_insert(env: &Environment, s: &[u16], i: usize) -> (r: Option<(Vec<u16>, usize)>)
    requires
        i < s@.len(),
    ensures
        match r {
            Some((v, j)) => insert_at(env@, s@, i as int) == Some(v@) && j == percent_pos(
                s@,
                i + 1,
            ) && i < j < s@.len(),
            None => insert_at(env@, s@, i as int) is None,
        },
{
    if s[i] != 0x25 {
        return None;
    }
    let j: usize = find_percent(s, i + 1);
    if j >= s.len() || j <= i + 1 {
        return None;
    }
    let name = slice_subrange(s, i + 1, j);
    assert(name@ =~= s@.subrange(i + 1, j as int));
    match env.find(name) {
        None => None,
        Some(k) => {
            proof {
                lemma_entry_for(env@, name@, 0);
                lemma_equals_pos(env@[k as int], 0);
                assert(env@[k as int] == env.entries@[k as int]@);
            }
            let e = env.entries[k].as_slice();
            let at: usize = key_len(e) + 1;
            let mut v: Vec<u16> = Vec::new();
            v.extend_from_slice(slice_subrange(e, at, e.len()));
            assert(v@ =~= value_of(env@[k as int]));
            Some((v, j))
        },
    }
}

/// The expanded string with its NUL, cut to the buffer.
pub open spec fn cut_to(s: Seq<u16>, has_dst: bool, count: u32) -> Seq<u16> {
    if !has_dst {
        Seq::empty()
    } else if s.len() > count {
        s.take(count as int)
    } else {
        s
    }
}

/// `ExpandEnvironmentStringsW`: the units of the whole result with its NUL, and
/// those to write.
pub fn ExpandEnvironmentStringsW(
    env: &Environment,
    src: Option<&[u16]>,
    has_dst: bool,
    count: u32,
) -> (r: (u32, Vec<u16>))
    requires
        src matches Some(s) ==> ended(s@) && expanded(env@, text(s@), 0).len() < u32::MAX,
    ensures
        match src {
            None => r.0 == 0 && r.1@.len() == 0,
            Some(s) => {
                let e = expanded(env@, text(s@), 0);
                r.0 == e.len() + 1 && r.1@ == cut_to(e.push(0), has_dst, count)
            },
        },
{
    let given = match src {
        None => {
            return (0, Vec::new());
        },
        Some(s) => s,
    };
    let s = c_text(given);
    let ghost whole = expanded(env@, s@, 0);
    let mut out: Vec<u16> = Vec::new();
    let mut i: usize = 0;
    assert(out@ + expanded(env@, s@, 0) =~= whole);
    while i < s.len()
        invariant
            i <= s@.len(),
            out@ + expanded(env@, s@, i as int) == whole,
        decreases s@.len() - i,
    {
        let ghost before = out@;
        match find_insert(env, s, i) {
            Some((v, j)) => {
                out.extend_from_slice(v.as_slice());
                proof {
                    assert(out@ =~= before + v@);
                    assert(out@ + expanded(env@, s@, j + 1) =~= before + (v@ + expanded(
                        env@,
                        s@,
                        j + 1,
                    )));
                }
                i = j + 1;
            },
            None => {
                out.push(s[i]);
                proof {
                    assert(out@ + expanded(env@, s@, i + 1) =~= before + (seq![s@[i as int]]
                        + expanded(env@, s@, i + 1)));
                }
                i = i + 1;
            },
        }
    }
    assert(out@ =~= whole);
    let total: u32 = out.len() as u32 + 1;
    out.push(0);
    if !has_dst {
        let none: Vec<u16> = Vec::new();
        assert(none@ =~= cut_to(whole.push(0), has_dst, count));
        return (total, none);
    }
    if total > count {
        out.truncate(count as usize);
        assert(out@ =~= whole.push(0).take(count as int));
    }
    (total, out)
}

// ---------------------------------------------------------------------------
// The ANSI environment
// ---------------------------------------------------------------------------
/// `OS=ntoskrnl-rs` and `ARCH=x86_64`, each with a NUL, and a NUL at the end.
pub open spec fn ansi_block() -> Seq<u8> {
    seq![
        0x4Fu8, 0x53, 0x3D, 0x6E, 0x74, 0x6F, 0x73, 0x6B, 0x72, 0x6E, 0x6C, 0x2D, 0x72, 0x73, 0,
        0x41, 0x52, 0x43, 0x48, 0x3D, 0x78, 0x38, 0x36, 0x5F, 0x36, 0x34, 0, 0,
    ]
}

/// `GetEnvironmentStringsA`: the block of bytes.
pub fn GetEnvironmentStringsA() -> (b: Vec<u8>)
    ensures
        b@ == ansi_block(),
{
    let b: Vec<u8> = vec![
        0x4Fu8, 0x53, 0x3D, 0x6E, 0x74, 0x6F, 0x73, 0x6B, 0x72, 0x6E, 0x6C, 0x2D, 0x72, 0x73, 0,
        0x41, 0x52, 0x43, 0x48, 0x3D, 0x78, 0x38, 0x36, 0x5F, 0x36, 0x34, 0, 0,
    ];
    assert(b@ =~= ansi_block());
    b
}

/// The value of a variable in a block of bytes, searched from the entry at `p` on.
/// Case counts. An empty entry ends the block.
pub open spec fn ansi_value(b: Seq<u16>, name: Seq<u16>, p: int) -> Option<Seq<u16>>
    decreases b.len() - p,
{
    let e = nul_pos(b, p);
    if p < 0 || p >= b.len() || e <= p {
        None
    } else {
        let n = name.len() as int;
        if e - p > n && b[p + n] == 0x3D && b.subrange(p, p + n) == name {
            Some(b.subrange(p + n + 1, e))
        } else if e >= b.len() {
            None
        } else {
            ansi_value(b, name, e + 1)
        }
    }
}

/// `GetEnvironmentVariableA` on a block: the length of the value, the bytes to
/// write (cut to the buffer, with a NUL), and whether it was found.
pub fn GetEnvironmentVariableA(block: &[u8], name: &[u8], size: u32) -> (r: (u32, Vec<u8>, bool))
    requires
        ended(widened(name@)),
        block@.len() <= u32::MAX,
    ensures
        match ansi_value(widened(block@), text(widened(name@)), 0) {
            None => r.0 == 0 && r.1@.len() == 0 && !r.2,
            Some(v) => {
                let n = if v.len() <= size - 1 {
                    v.len() as int
                } else {
                    size - 1
                };
                &&& r.0 == v.len()
                &&& r.2
                &&& widened(r.1@) == if size == 0 {
                    Seq::<u16>::empty()
                } else {
                    v.take(n).push(0)
                }
            },
        },
{
    let b: Vec<u16> = widen(block);
    let wide: Vec<u16> = widen(name);
    let key = c_text(&wide);
    let mut p: usize = 0;
    while p < b.len()
        invariant
            b@ == widened(block@),
            b@.len() <= u32::MAX,
            key@ == text(widened(name@)),
            p <= b@.len(),
            ansi_value(b@, key@, 0) == ansi_value(b@, key@, p as int),
        decreases b@.len() - p,
    {
        let e: usize = find_nul(&b, p);
        if e <= p {
            return (0, Vec::new(), false);
        }
        if e - p > key.len() && b[p + key.len()] == 0x3D && same_units(&b, p, key) {
            let at: usize = p + key.len() + 1;
            let ghost v = b@.subrange(at as int, e as int);
            let len: usize = e - at;
            let mut out: Vec<u8> = Vec::new();
            if size > 0 {
                let room: usize = (size - 1) as usize;
                let n: usize = if len <= room {
                    len
                } else {
                    room
                };
                out.extend_from_slice(slice_subrange(block, at, at + n));
                out.push(0);
                assert(widened(out@) =~= v.take(n as int).push(0));
            } else {
                assert(widened(out@) =~= Seq::<u16>::empty());
            }
            return (len as u32, out, true);
        }
        if e >= b.len() {
            return (0, Vec::new(), false);
        }
        p = e + 1;
    }
    (0, Vec::new(), false)
}

fn find_nul(b: &Vec<u16>, from: usize) -> (e: usize)
    requires
        from <= b@.len(),
    ensures
        e == nul_pos(b@, from as int),
        from <= e <= b@.len(),
{
    let mut e: usize = from;
    while e < b.len() && b[e] != 0
        invariant
            from <= e <= b@.len(),
            nul_pos(b@, from as int) == nul_pos(b@, e as int),
        decreases b@.len() - e,
    {
        e = e + 1;
    }
    e
}

fn same_units(b: &Vec<u16>, p: usize, key: &[u16]) -> (r: bool)
    requires
        p + key@.len() <= b@.len(),
    ensures
        r == (b@.subrange(p as int, p + key@.len()) == key@),
{
    let held: usize = b.len();
    let mut i: usize = 0;
    while i < key.len()
        invariant
            i <= key@.len(),
            p + key@.len() <= held,
            held == b@.len(),
            forall|j: int| 0 <= j < i ==> b@[p + j] == #[trigger] key@[j],
        decreases key@.len() - i,
    {
        if b[p + i] != key[i] {
            assert(b@.subrange(p as int, p + key@.len())[i as int] != key@[i as int]);
            return false;
        }
        i = i + 1;
    }
    assert(b@.subrange(p as int, p + key@.len()) =~= key@);
    true
}

// ---------------------------------------------------------------------------
// Laws
// ---------------------------------------------------------------------------
/// No name has two entries.
pub open spec fn one_entry_each(es: Seq<Seq<u16>>) -> bool {
    forall|i: int, j: int, name: Seq<u16>|
        0 <= i < j < es.len() ==> !(#[trigger] is_for(es[i], name) && #[trigger] is_for(
            es[j],
            name,
        ))
}

proof fn lemma_entry_for_is(es: Seq<Seq<u16>>, name: Seq<u16>, k: int, i: int)
    requires
        0 <= i <= k < es.len(),
        is_for(es[k], name),
        forall|j: int| i <= j < k ==> !is_for(#[trigger] es[j], name),
    ensures
        entry_for(es, name, i) == Some(k),
    decreases k - i,
{
    if i < k {
        assert(!is_for(es[i], name));
        lemma_entry_for_is(es, name, k, i + 1);
    }
}

proof fn lemma_new_entry(name: Seq<u16>, value: Seq<u16>, i: int)
    requires
        !name.contains(0x3Du16),
        0 <= i <= name.len(),
    ensures
        equals_pos(entry(name, value), i) == name.len(),
    decreases name.len() - i,
{
    let e = entry(name, value);
    if i < name.len() {
        assert(e[i] == name[i]);
        assert(name.contains(name[i]));
        lemma_new_entry(name, value, i + 1);
    } else {
        assert(e[i] == 0x3D);
    }
}

/// An entry for one name is for every name that differs in case only, and for no
/// other.
proof fn lemma_is_for_fold(e: Seq<u16>, a: Seq<u16>, b: Seq<u16>)
    requires
        is_for(e, a),
    ensures
        is_for(e, b) <==> units_equal_fold(a, b),
{
    let k = equals_pos(e, 0);
    let key = e.take(k);
    if units_equal_fold(a, b) {
        assert forall|i: int| 0 <= i < key.len() implies lower_unit(#[trigger] key[i])
            == lower_unit(b[i]) by {
            assert(lower_unit(key[i]) == lower_unit(a[i]));
            assert(lower_unit(a[i]) == lower_unit(b[i]));
        }
    }
    if is_for(e, b) {
        assert forall|i: int| 0 <= i < a.len() implies lower_unit(#[trigger] a[i]) == lower_unit(
            b[i],
        ) by {
            assert(lower_unit(key[i]) == lower_unit(a[i]));
            assert(lower_unit(key[i]) == lower_unit(b[i]));
        }
    }
}

/// After the first entry for a name is gone, another name is found as before; the
/// name itself is not found if it had one entry.
proof fn lemma_unset_lookup(es: Seq<Seq<u16>>, name: Seq<u16>, other: Seq<u16>)
    requires
        0 <= es.len(),
    ensures
        !units_equal_fold(name, other) ==> lookup(unset(es, name), other) == lookup(es, other),
        one_entry_each(es) && units_equal_fold(name, other) ==> lookup(unset(es, name), other)
            is None,
{
    let r = unset(es, name);
    lemma_entry_for(es, name, 0);
    lemma_entry_for(es, other, 0);
    lemma_entry_for(r, other, 0);
    match entry_for(es, name, 0) {
        None => {
            if units_equal_fold(name, other) {
                assert forall|j: int| 0 <= j < es.len() implies !is_for(#[trigger] es[j], other) by {
                    if is_for(es[j], other) {
                        lemma_fold_symmetric(name, other);
                        lemma_is_for_fold(es[j], other, name);
                    }
                }
            }
        },
        Some(k) => {
            lemma_is_for_fold(es[k], name, other);
            assert forall|j: int| 0 <= j < r.len() implies #[trigger] r[j] == es[if j < k {
                j
            } else {
                j + 1
            }] by {}
            if units_equal_fold(name, other) {
                if one_entry_each(es) {
                    assert forall|j: int| 0 <= j < r.len() implies !is_for(#[trigger] r[j], other) by {
                        let x = if j < k {
                            j
                        } else {
                            j + 1
                        };
                        assert(r[j] == es[x]);
                        assert(is_for(es[k], other));
                        if is_for(es[x], other) {
                            if x < k {
                                assert(!(is_for(es[x], other) && is_for(es[k], other)));
                            } else {
                                assert(!(is_for(es[k], other) && is_for(es[x], other)));
                            }
                        }
                    }
                }
            } else {
                match entry_for(es, other, 0) {
                    None => {
                        assert forall|j: int| 0 <= j < r.len() implies !is_for(
                            #[trigger] r[j],
                            other,
                        ) by {
                            assert(r[j] == es[if j < k {
                                j
                            } else {
                                j + 1
                            }]);
                        }
                    },
                    Some(j) => {
                        assert(j != k);
                        let y = if j < k {
                            j
                        } else {
                            j - 1
                        };
                        assert(r[y] == es[j]);
                        assert forall|x: int| 0 <= x < y implies !is_for(#[trigger] r[x], other) by {
                            assert(r[x] == es[if x < k {
                                x
                            } else {
                                x + 1
                            }]);
                        }
                        lemma_entry_for_is(r, other, y, 0);
                    },
                }
            }
        },
    }
}

proof fn lemma_fold_symmetric(a: Seq<u16>, b: Seq<u16>)
    requires
        units_equal_fold(a, b),
    ensures
        units_equal_fold(b, a),
{
    assert forall|i: int| 0 <= i < b.len() implies lower_unit(#[trigger] b[i]) == lower_unit(
        a[i],
    ) by {
        assert(lower_unit(a[i]) == lower_unit(b[i]));
    }
}

proof fn lemma_insert_lookup(es: Seq<Seq<u16>>, p: int, e: Seq<u16>, name: Seq<u16>)
    requires
        0 <= p <= es.len(),
    ensures
        !is_for(e, name) ==> lookup(es.insert(p, e), name) == lookup(es, name),
        is_for(e, name) && entry_for(es, name, 0) is None ==> lookup(es.insert(p, e), name) == Some(
            value_of(e),
        ),
{
    let r = es.insert(p, e);
    lemma_entry_for(es, name, 0);
    lemma_entry_for(r, name, 0);
    assert forall|j: int| 0 <= j < r.len() && j != p implies #[trigger] r[j] == es[if j < p {
        j
    } else {
        j - 1
    }] by {}
    if is_for(e, name) {
        if entry_for(es, name, 0) is None {
            assert forall|j: int| 0 <= j < p implies !is_for(#[trigger] r[j], name) by {
                assert(r[j] == es[j]);
            }
            lemma_entry_for_is(r, name, p, 0);
        }
    } else {
        match entry_for(es, name, 0) {
            Some(k) => {
                let at = if k < p {
                    k
                } else {
                    k + 1
                };
                assert(r[at] == es[k]);
                assert forall|j: int| 0 <= j < at implies !is_for(#[trigger] r[j], name) by {
                    if j != p {
                        assert(r[j] == es[if j < p {
                            j
                        } else {
                            j - 1
                        }]);
                    }
                }
                lemma_entry_for_is(r, name, at, 0);
            },
            None => {
                assert forall|j: int| 0 <= j < r.len() implies !is_for(#[trigger] r[j], name) by {
                    if j != p {
                        assert(r[j] == es[if j < p {
                            j
                        } else {
                            j - 1
                        }]);
                    }
                }
            },
        }
    }
}

/// A variable that was set is read back with its value, whatever the case of the
/// name.
pub proof fn what_was_set_is_read_back(
    es: Seq<Seq<u16>>,
    name: Seq<u16>,
    value: Seq<u16>,
    other: Seq<u16>,
)
    requires
        one_entry_each(es),
        !name.contains(0x3Du16),
        units_equal_fold(name, other),
        assigned(es, name, Some(value)).1,
    ensures
        lookup(assigned(es, name, Some(value)).0, other) == Some(value),
{
    let e = entry(name, value);
    lemma_unset_lookup(es, name, other);
    lemma_new_entry(name, value, 0);
    assert(e.take(name.len() as int) =~= name);
    assert(value_of(e) =~= value);
    assert(is_for(e, name));
    lemma_is_for_fold(e, name, other);
    let rest = unset(es, name);
    lemma_place(rest, key_of(e), 0);
    lemma_entry_for(rest, other, 0);
    lemma_insert_lookup(rest, place(rest, key_of(e), 0), e, other);
}

/// Setting or deleting one variable leaves every other as it was.
pub proof fn other_variables_stay(
    es: Seq<Seq<u16>>,
    name: Seq<u16>,
    value: Option<Seq<u16>>,
    other: Seq<u16>,
)
    requires
        !name.contains(0x3Du16),
        !units_equal_fold(name, other),
    ensures
        lookup(assigned(es, name, value).0, other) == lookup(es, other),
{
    lemma_unset_lookup(es, name, other);
    match value {
        Some(v) => {
            let e = entry(name, v);
            lemma_new_entry(name, v, 0);
            assert(e.take(name.len() as int) =~= name);
            assert(is_for(e, name));
            lemma_is_for_fold(e, name, other);
            let rest = unset(es, name);
            lemma_place(rest, key_of(e), 0);
            lemma_insert_lookup(rest, place(rest, key_of(e), 0), e, other);
        },
        None => {},
    }
}

/// A deleted variable is not found.
pub proof fn a_deleted_variable_is_gone(es: Seq<Seq<u16>>, name: Seq<u16>)
    requires
        one_entry_each(es),
    ensures
        lookup(assigned(es, name, None).0, name) is None,
{
    lemma_unset_lookup(es, name, name);
}

/// Setting variables keeps every name to one entry.
pub proof fn names_stay_single(es: Seq<Seq<u16>>, name: Seq<u16>, value: Option<Seq<u16>>)
    requires
        one_entry_each(es),
        !name.contains(0x3Du16),
    ensures
        one_entry_each(assigned(es, name, value).0),
{
    let r = unset(es, name);
    lemma_entry_for(es, name, 0);
    assert(one_entry_each(r)) by {
        assert forall|i: int, j: int, n: Seq<u16>| 0 <= i < j < r.len() implies !(
        #[trigger] is_for(r[i], n) && #[trigger] is_for(r[j], n)) by {
            match entry_for(es, name, 0) {
                Some(k) => {
                    let x = if i < k {
                        i
                    } else {
                        i + 1
                    };
                    let y = if j < k {
                        j
                    } else {
                        j + 1
                    };
                    assert(r[i] == es[x] && r[j] == es[y]);
                    assert(!(is_for(es[x], n) && is_for(es[y], n)));
                },
                None => {},
            }
        }
    }
    match value {
        None => {},
        Some(v) => {
            let e = entry(name, v);
            let at = place(r, key_of(e), 0);
            let p = r.insert(at, e);
            lemma_place(r, key_of(e), 0);
            lemma_new_entry(name, v, 0);
            assert(e.take(name.len() as int) =~= name);
            assert(is_for(e, name));
            lemma_unset_lookup(es, name, name);
            lemma_entry_for(r, name, 0);
            assert forall|i: int, j: int, n: Seq<u16>| 0 <= i < j < p.len() implies !(
            #[trigger] is_for(p[i], n) && #[trigger] is_for(p[j], n)) by {
                let x = if i < at {
                    i
                } else {
                    i - 1
                };
                let y = if j < at {
                    j
                } else {
                    j - 1
                };
                if i != at && j != at {
                    assert(p[i] == r[x] && p[j] == r[y]);
                    assert(!(is_for(r[x], n) && is_for(r[y], n)));
                } else if is_for(p[i], n) && is_for(p[j], n) {
                    let z = if i == at {
                        y
                    } else {
                        x
                    };
                    assert(r[z] == if i == at {
                        p[j]
                    } else {
                        p[i]
                    });
                    lemma_is_for_fold(e, n, name);
                    lemma_is_for_fold(r[z], n, name);
                }
            }
        },
    }
}

/// Setting or deleting a variable keeps the block sorted by name.
pub proof fn the_block_stays_sorted(es: Seq<Seq<u16>>, name: Seq<u16>, value: Option<Seq<u16>>)
    requires
        env_sound(es),
        !name.contains(0u16),
        value matches Some(v) ==> !v.contains(0u16),
    ensures
        name_sorted(assigned(es, name, value).0),
{
    lemma_unset(es, name);
    match value {
        None => {},
        Some(v) => {
            let e = entry(name, v);
            let rest = unset(es, name);
            assert forall|i: int| 0 <= i < e.len() implies #[trigger] e[i] != 0 by {
                if i < name.len() {
                    assert(e[i] == name[i] && name.contains(name[i]));
                } else if i > name.len() {
                    let k = i - name.len() - 1;
                    assert(e[i] == v[k] && v.contains(v[k]));
                }
            }
            if block_len(rest) + e.len() + 1 <= ENV_UNITS {
                lemma_inserted(rest, e);
            }
        },
    }
}

/// The block ends with the NUL of its last entry and one more.
pub proof fn the_block_ends_with_two_nuls(es: Seq<Seq<u16>>)
    ensures
        block(es).last() == 0,
        es.len() > 0 ==> block(es)[block(es).len() - 2] == 0,
{
    if es.len() > 0 {
        assert(rows(es).last() == 0);
        assert(block(es)[block(es).len() - 2] == rows(es).last());
    }
}

/// The block holds the entries one behind the other, each with a NUL, and a last NUL.
pub proof fn the_block_holds_the_entries_in_order(e: Seq<u16>, es: Seq<Seq<u16>>)
    ensures
        block(seq![e] + es) == e.push(0) + block(es),
        block(Seq::empty()) == seq![0u16],
{
    lemma_rows(e, es);
    assert(block(seq![e] + es) =~= e.push(0) + block(es));
    assert(block(Seq::empty()) =~= seq![0u16]);
}

proof fn lemma_rows(e: Seq<u16>, es: Seq<Seq<u16>>)
    ensures
        rows(seq![e] + es) == e.push(0) + rows(es),
    decreases es.len(),
{
    reveal_with_fuel(rows, 2);
    if es.len() == 0 {
        assert(seq![e] + es =~= seq![e]);
        assert(seq![e].drop_last() =~= Seq::<Seq<u16>>::empty());
        assert(rows(seq![e] + es) =~= e.push(0) + rows(es));
    } else {
        lemma_rows(e, es.drop_last());
        assert((seq![e] + es).drop_last() =~= seq![e] + es.drop_last());
        assert(rows(seq![e] + es) =~= e.push(0) + rows(es));
    }
}

/// An entry is its name, an equals sign and its value: it is the entry of that name, in
/// whatever case, and has that value.
pub proof fn an_entry_is_name_and_value(name: Seq<u16>, value: Seq<u16>, rest: Seq<Seq<u16>>)
    requires
        !name.contains(0x3Du16),
    ensures
        lookup(seq![name + seq![0x3Du16] + value] + rest, name) == Some(value),
        entry(name, value) == name + seq![0x3Du16] + value,
{
    let e = name + seq![0x3Du16] + value;
    assert(e =~= entry(name, value));
    lemma_new_entry(name, value, 0);
    assert(e.take(name.len() as int) =~= name);
    assert(e.skip(name.len() as int + 1) =~= value);
    assert((seq![e] + rest)[0] == e);
}

/// A value can be set as long as the whole block, with the new entry in place of an old one,
/// fits into 4096 units. Where it does not, the old entry is gone all the same.
pub proof fn a_value_must_fit_the_block(es: Seq<Seq<u16>>, name: Seq<u16>, value: Seq<u16>)
    ensures
        ({
            let rest = assigned(es, name, None).0;
            let (after, ok) = assigned(es, name, Some(value));
            &&& assigned(es, name, None).1
            &&& ok == (block(rest).len() + name.len() + 1 + value.len() + 1 <= 4096)
            &&& !ok ==> after == rest
            &&& ok ==> after.len() == rest.len() + 1
        }),
{
    lemma_block_len(unset(es, name));
    let rest = unset(es, name);
    let e = entry(name, value);
    lemma_place(rest, key_of(e), 0);
}

proof fn lemma_percent(s: Seq<u16>, i: int)
    requires
        0 <= i <= s.len(),
    ensures
        i <= percent_pos(s, i) <= s.len(),
        percent_pos(s, i) == i + percent_pos(s.skip(i), 0),
        forall|k: int| i <= k < percent_pos(s, i) ==> #[trigger] s[k] != 0x25,
        percent_pos(s, i) < s.len() ==> s[percent_pos(s, i)] == 0x25,
    decreases s.len() - i,
{
    lemma_percent_skip(s, i, 0);
    if i < s.len() && s[i] != 0x25 {
        lemma_percent(s, i + 1);
    }
}

proof fn lemma_percent_skip(s: Seq<u16>, i: int, k: int)
    requires
        0 <= i <= s.len(),
        0 <= k <= s.len() - i,
    ensures
        percent_pos(s, i + k) == i + percent_pos(s.skip(i), k),
    decreases s.len() - i - k,
{
    if i + k < s.len() {
        assert(s.skip(i)[k] == s[i + k]);
        if s[i + k] != 0x25 {
            lemma_percent_skip(s, i, k + 1);
        }
    }
}

/// Expansion goes from left to right: what it makes of the rest of a text does not depend on
/// what stands in front.
pub proof fn expansion_looks_ahead_only(es: Seq<Seq<u16>>, s: Seq<u16>, i: int)
    requires
        0 <= i <= s.len(),
    ensures
        expanded(es, s, i) == expanded(es, s.skip(i), 0),
{
    lemma_expanded_skip(es, s, i, 0);
}

proof fn lemma_expanded_skip(es: Seq<Seq<u16>>, s: Seq<u16>, i: int, k: int)
    requires
        0 <= i <= s.len(),
        0 <= k <= s.len() - i,
    ensures
        expanded(es, s, i + k) == expanded(es, s.skip(i), k),
    decreases s.len() - i - k,
{
    let t = s.skip(i);
    if i + k < s.len() {
        assert(t[k] == s[i + k]);
        lemma_percent_skip(s, i, k + 1);
        lemma_percent(s, i + k + 1);
        let j = percent_pos(s, i + k + 1);
        assert(percent_pos(t, k + 1) == j - i);
        if j <= s.len() {
            assert(s.subrange(i + k + 1, j) =~= t.subrange(k + 1, j - i));
        }
        assert(insert_at(es, s, i + k) == insert_at(es, t, k));
        match insert_at(es, s, i + k) {
            Some(v) => {
                if j + 1 <= s.len() {
                    lemma_expanded_skip(es, s, i, j + 1 - i);
                }
            },
            None => {
                lemma_expanded_skip(es, s, i, k + 1);
            },
        }
    }
}

/// Text that is no percent sign stays as it is, in front of the expansion of the rest.
pub proof fn plain_text_is_not_expanded(es: Seq<Seq<u16>>, a: Seq<u16>, t: Seq<u16>)
    requires
        forall|k: int| 0 <= k < a.len() ==> #[trigger] a[k] != 0x25,
    ensures
        expanded(es, a + t, 0) == a + expanded(es, t, 0),
        expanded(es, a, 0) == a,
    decreases a.len(),
{
    if a.len() == 0 {
        assert(a + t =~= t);
        assert(a + expanded(es, t, 0) =~= expanded(es, t, 0));
        assert(expanded(es, a, 0) =~= a);
    } else {
        let s = a + t;
        assert(s[0] == a[0]);
        plain_text_is_not_expanded(es, a.skip(1), t);
        expansion_looks_ahead_only(es, s, 1);
        assert(s.skip(1) =~= a.skip(1) + t);
        assert(expanded(es, s, 0) =~= a + expanded(es, t, 0));
        expansion_looks_ahead_only(es, a, 1);
        assert(expanded(es, a, 0) =~= a);
    }
}

/// A variable's name between percent signs is replaced by its value; where there is no such
/// variable the text stays, percent sign and all.
pub proof fn a_name_between_percents_is_expanded(es: Seq<Seq<u16>>, name: Seq<u16>, t: Seq<u16>)
    requires
        name.len() > 0,
        forall|k: int| 0 <= k < name.len() ==> #[trigger] name[k] != 0x25,
    ensures
        ({
            let s = seq![0x25u16] + name + seq![0x25u16] + t;
            expanded(es, s, 0) == match lookup(es, name) {
                Some(v) => v + expanded(es, t, 0),
                None => seq![0x25u16] + name + expanded(es, seq![0x25u16] + t, 0),
            }
        }),
{
    let s = seq![0x25u16] + name + seq![0x25u16] + t;
    let j = name.len() as int + 1;
    lemma_percent(s, 1);
    assert(s[j] == 0x25);
    assert(percent_pos(s, 1) == j) by {
        let p = percent_pos(s, 1);
        if p < j {
            assert(s[p] == name[p - 1]);
        }
    }
    assert(s.subrange(1, j) =~= name);
    assert(s[0] == 0x25);
    assert(insert_at(es, s, 0) == lookup(es, name));
    match lookup(es, name) {
        Some(v) => {
            expansion_looks_ahead_only(es, s, j + 1);
            assert(s.skip(j + 1) =~= t);
        },
        None => {
            let u = seq![0x25u16] + t;
            expansion_looks_ahead_only(es, s, 1);
            assert(s.skip(1) =~= name + u);
            plain_text_is_not_expanded(es, name, u);
            assert(expanded(es, s, 0) =~= seq![0x25u16] + name + expanded(es, u, 0));
        },
    }
}

/// What is handed over of an expansion is its start, as far as the buffer goes.
pub proof fn a_buffer_gets_the_start_of_the_text(s: Seq<u16>, count: u32)
    ensures
        cut_to(s, false, count).len() == 0,
        cut_to(s, true, count).len() <= count,
        cut_to(s, true, count) == s.take(cut_to(s, true, count).len() as int),
        cut_to(s, true, count).len() == s.len() || cut_to(s, true, count).len() == count,
{
    assert(s.take(s.len() as int) =~= s);
}

/// In a block of bytes the first entry of a name gives its value, and entries of other names
/// are passed over.
pub proof fn a_value_is_found_in_a_block(name: Seq<u16>, value: Seq<u16>, rest: Seq<u16>)
    requires
        name.len() > 0,
        forall|k: int| 0 <= k < name.len() ==> #[trigger] name[k] != 0,
        forall|k: int| 0 <= k < value.len() ==> #[trigger] value[k] != 0,
    ensures
        ansi_value(name + seq![0x3Du16] + value + seq![0u16] + rest, name, 0) == Some(value),
{
    let b = name + seq![0x3Du16] + value + seq![0u16] + rest;
    let n = name.len() as int;
    let e = n + 1 + value.len();
    lemma_nul_pos(b, 0);
    assert(b[e] == 0);
    assert(nul_pos(b, 0) == e) by {
        let p = nul_pos(b, 0);
        if p < n {
            assert(b[p] == name[p]);
        } else if p == n {
            assert(b[p] == 0x3D);
        } else if p < e {
            assert(b[p] == value[p - n - 1]);
        }
    }
    assert(b[n] == 0x3D);
    assert(b.subrange(0, n) =~= name);
    assert(b.subrange(n + 1, e) =~= value);
}

/// An entry that does not start with the name and an equals sign is passed over with its NUL;
/// the empty entry at the end of a block ends the search.
pub proof fn other_entries_are_passed_over(name: Seq<u16>, e: Seq<u16>, rest: Seq<u16>)
    requires
        e.len() > 0,
        forall|k: int| 0 <= k < e.len() ==> #[trigger] e[k] != 0,
        !(e.len() > name.len() && e.take(name.len() as int) == name && e[name.len() as int] == 0x3D),
    ensures
        ansi_value(e + seq![0u16] + rest, name, 0) == ansi_value(
            e + seq![0u16] + rest,
            name,
            e.len() as int + 1,
        ),
        ansi_value(seq![0u16] + rest, name, 0) is None,
{
    let b = e + seq![0u16] + rest;
    let n = name.len() as int;
    lemma_nul_pos(b, 0);
    assert(b[e.len() as int] == 0);
    assert(nul_pos(b, 0) == e.len()) by {
        let p = nul_pos(b, 0);
        if p < e.len() {
            assert(b[p] == e[p]);
        }
    }
    if e.len() > n {
        assert(b.subrange(0, n) =~= e.take(n));
        assert(b[n] == e[n]);
    }
    assert((seq![0u16] + rest)[0] == 0);
}

/// The environment starts with these variables.
pub proof fn the_environment_starts_with_its_defaults(i: int)
    ensures
        default_comspec().len() == 18 && (0 <= i < 18 ==> default_comspec()[i] as char
            == "COMSPEC=C:\\cmd.exe"@[i]),
        default_os().len() == 11 && (0 <= i < 11 ==> default_os()[i] as char == "OS=nanokrnl"@[i]),
        default_path().len() == 8 && (0 <= i < 8 ==> default_path()[i] as char == "PATH=C:\\"@[i]),
        default_pathext().len() == 22 && (0 <= i < 22 ==> default_pathext()[i] as char
            == "PATHEXT=.EXE;.BAT;.CMD"@[i]),
        default_prompt().len() == 11 && (0 <= i < 11 ==> default_prompt()[i] as char
            == "PROMPT=$P$G"@[i]),
        default_root().len() == 21 && (0 <= i < 21 ==> default_root()[i] as char
            == "SystemRoot=C:\\fxcknmc"@[i]),
        ansi_block().len() == 28 && (0 <= i < 28 ==> ansi_block()[i] as char
            == "OS=ntoskrnl-rs\0ARCH=x86_64\0\0"@[i]),
{
    reveal_strlit("COMSPEC=C:\\cmd.exe");
    reveal_strlit("OS=nanokrnl");
    reveal_strlit("PATH=C:\\");
    reveal_strlit("PATHEXT=.EXE;.BAT;.CMD");
    reveal_strlit("PROMPT=$P$G");
    reveal_strlit("SystemRoot=C:\\fxcknmc");
    reveal_strlit("OS=ntoskrnl-rs\0ARCH=x86_64\0\0");
}

} // verus!
