//! Handle tables.
//!
//! User mode holds handles, not pointers. Each address space has a table of its
//! own, kernel threads share one; a handle is a multiple of four and owns one
//! reference to its object, so an object outlives every handle to it but the
//! last.
use crate::ke::pcr::{current, current_of};
use crate::ke::scheduler::Dispatcher;
use crate::ob::{
    alive, dereferenced, found, lemma_dereferenced, lemma_found, lemma_referenced,
    ob_dereference_object, ob_reference_object, objects_sound, referenced, refs, Deletion,
    ObjectHeader, ObjectManager, ObjectType,
};
use crate::rtl::NtStatus;
use vstd::prelude::*;

verus! {

/// Open handles per table; index 0 stands for no handle.
pub const MAX_HANDLES: usize = 256;

/// Tables.
pub const MAX_TABLES: usize = 16;

/// An open handle.
#[derive(Debug, Clone, Copy, PartialEq, Eq)]
pub struct HandleEntry {
    /// Body of the object.
    pub object: u64,
    pub granted_access: u32,
}

/// A table.
pub struct TableSlot {
    /// The address space it belongs to, 0 for the kernel.
    pub cr3: u64,
    pub in_use: bool,
    pub entries: Vec<Option<HandleEntry>>,
}

/// All tables.
pub struct HandleTables {
    pub slots: Vec<TableSlot>,
}

/// A table as a value.
#[verifier::ext_equal]
pub struct Table {
    pub cr3: u64,
    pub in_use: bool,
    pub entries: Seq<Option<HandleEntry>>,
}

impl View for TableSlot {
    type V = Table;

    open spec fn view(&self) -> Table {
        Table { cr3: self.cr3, in_use: self.in_use, entries: self.entries@ }
    }
}

impl View for HandleTables {
    type V = Seq<Table>;

    open spec fn view(&self) -> Seq<Table> {
        Seq::new(self.slots@.len(), |i: int| self.slots@[i]@)
    }
}

/// The handle of an index.
pub open spec fn handle_of(i: int) -> u64 {
    (i * 4) as u64
}

/// The index of a handle; the two low bits do not count.
pub open spec fn index_of(h: u64) -> int {
    h as int / 4
}

/// No entry.
pub open spec fn no_entries() -> Seq<Option<HandleEntry>> {
    Seq::new(MAX_HANDLES as nat, |i: int| None::<HandleEntry>)
}

/// The tables have their size, and a table that is not in use is empty.
pub open spec fn tables_sound(ts: Seq<Table>) -> bool {
    &&& ts.len() == MAX_TABLES
    &&& forall|s: int|
        0 <= s < ts.len() ==> {
            &&& (#[trigger] ts[s]).entries.len() == MAX_HANDLES
            &&& ts[s].entries[0] is None
            &&& !ts[s].in_use ==> ts[s].entries == no_entries()
        }
}

/// The table of an address space, from slot `s` on.
pub open spec fn slot_of(ts: Seq<Table>, cr3: u64, s: int) -> Option<int>
    decreases ts.len() - s,
{
    if s < 0 || s >= ts.len() {
        None
    } else if ts[s].in_use && ts[s].cr3 == cr3 {
        Some(s)
    } else {
        slot_of(ts, cr3, s + 1)
    }
}

/// The first table that is not in use, from slot `s` on.
pub open spec fn free_slot(ts: Seq<Table>, s: int) -> Option<int>
    decreases ts.len() - s,
{
    if s < 0 || s >= ts.len() {
        None
    } else if !ts[s].in_use {
        Some(s)
    } else {
        free_slot(ts, s + 1)
    }
}

/// The tables with one for an address space, and its slot.
pub open spec fn slot_made(ts: Seq<Table>, cr3: u64) -> (Seq<Table>, Option<int>) {
    match slot_of(ts, cr3, 0) {
        Some(s) => (ts, Some(s)),
        None => match free_slot(ts, 0) {
            Some(s) => (
                ts.update(s, Table { cr3, in_use: true, entries: no_entries() }),
                Some(s),
            ),
            None => (ts, None),
        },
    }
}

/// The first free index of a table, from `i` on.
pub open spec fn free_index(es: Seq<Option<HandleEntry>>, i: int) -> Option<int>
    decreases es.len() - i,
{
    if i < 0 || i >= es.len() {
        None
    } else if es[i] is None {
        Some(i)
    } else {
        free_index(es, i + 1)
    }
}

/// The tables with a table's entry replaced.
pub open spec fn with_entry(ts: Seq<Table>, s: int, i: int, e: Option<HandleEntry>) -> Seq<Table> {
    ts.update(s, Table { entries: ts[s].entries.update(i, e), ..ts[s] })
}

/// Opening a handle to an object: tables, objects and the handle, 0 when there is
/// no room.
pub open spec fn opened(
    ts: Seq<Table>,
    objects: Seq<ObjectHeader>,
    cr3: u64,
    e: HandleEntry,
) -> (Seq<Table>, Seq<ObjectHeader>, u64) {
    let (t1, slot) = slot_made(ts, cr3);
    match slot {
        None => (t1, objects, 0),
        Some(s) => match free_index(t1[s].entries, 1) {
            None => (t1, objects, 0),
            Some(i) => (
                with_entry(t1, s, i, Some(e)),
                referenced(objects, e.object),
                handle_of(i),
            ),
        },
    }
}

/// The entry of a handle in the table of an address space.
pub open spec fn entry_of(ts: Seq<Table>, cr3: u64, h: u64) -> Option<HandleEntry> {
    let i = index_of(h);
    match slot_of(ts, cr3, 0) {
        Some(s) => if 1 <= i < MAX_HANDLES {
            ts[s].entries[i]
        } else {
            None
        },
        None => None,
    }
}

/// The object a handle names.
pub open spec fn object_of(ts: Seq<Table>, cr3: u64, h: u64) -> Result<u64, NtStatus> {
    match entry_of(ts, cr3, h) {
        Some(e) => Ok(e.object),
        None => Err(NtStatus(NtStatus::INVALID_HANDLE)),
    }
}

/// Closing a handle: tables and objects.
pub open spec fn closed(ts: Seq<Table>, objects: Seq<ObjectHeader>, cr3: u64, h: u64) -> (
    Seq<Table>,
    Seq<ObjectHeader>,
    NtStatus,
) {
    match entry_of(ts, cr3, h) {
        Some(e) => (
            with_entry(ts, slot_of(ts, cr3, 0)->Some_0, index_of(h), None),
            dereferenced(objects, e.object).0,
            NtStatus(NtStatus::SUCCESS),
        ),
        None => (ts, objects, NtStatus(NtStatus::INVALID_HANDLE)),
    }
}

// ---------------------------------------------------------------------------
// Counting handles
// ---------------------------------------------------------------------------
/// Handles to an object among some entries.
pub open spec fn entry_count(es: Seq<Option<HandleEntry>>, o: u64) -> int
    decreases es.len(),
{
    if es.len() == 0 {
        0
    } else {
        entry_count(es.drop_last(), o) + names(es.last(), o)
    }
}

/// 1 if an entry names an object.
pub open spec fn names(e: Option<HandleEntry>, o: u64) -> int {
    match e {
        Some(e) => if e.object == o {
            1
        } else {
            0
        },
        None => 0,
    }
}

/// Handles to an object in all tables.
pub open spec fn handle_count(ts: Seq<Table>, o: u64) -> int
    decreases ts.len(),
{
    if ts.len() == 0 {
        0
    } else {
        handle_count(ts.drop_last(), o) + entry_count(ts.last().entries, o)
    }
}

/// Every handle holds a reference: an object has at least as many references as
/// handles name it.
pub open spec fn handles_held(ts: Seq<Table>, objects: Seq<ObjectHeader>) -> bool {
    forall|o: u64| #[trigger] handle_count(ts, o) <= refs(objects, o)
}

proof fn lemma_entry_count(es: Seq<Option<HandleEntry>>, o: u64)
    ensures
        0 <= entry_count(es, o),
    decreases es.len(),
{
    if es.len() > 0 {
        lemma_entry_count(es.drop_last(), o);
    }
}

proof fn lemma_handle_count(ts: Seq<Table>, o: u64)
    ensures
        0 <= handle_count(ts, o),
    decreases ts.len(),
{
    if ts.len() > 0 {
        lemma_handle_count(ts.drop_last(), o);
        lemma_entry_count(ts.last().entries, o);
    }
}

proof fn lemma_no_entries(n: nat, o: u64)
    ensures
        entry_count(Seq::new(n, |i: int| None::<HandleEntry>), o) == 0,
    decreases n,
{
    if n > 0 {
        let s = Seq::new(n, |i: int| None::<HandleEntry>);
        assert(s.drop_last() =~= Seq::new((n - 1) as nat, |i: int| None::<HandleEntry>));
        lemma_no_entries((n - 1) as nat, o);
    }
}

proof fn lemma_entry_update(es: Seq<Option<HandleEntry>>, i: int, e: Option<HandleEntry>, o: u64)
    requires
        0 <= i < es.len(),
    ensures
        entry_count(es.update(i, e), o) == entry_count(es, o) - names(es[i], o) + names(e, o),
    decreases es.len(),
{
    let u = es.update(i, e);
    if i == es.len() - 1 {
        assert(u.drop_last() =~= es.drop_last());
    } else {
        assert(u.drop_last() =~= es.drop_last().update(i, e));
        lemma_entry_update(es.drop_last(), i, e, o);
    }
}

proof fn lemma_table_update(ts: Seq<Table>, s: int, t: Table, o: u64)
    requires
        0 <= s < ts.len(),
    ensures
        handle_count(ts.update(s, t), o) == handle_count(ts, o) - entry_count(ts[s].entries, o)
            + entry_count(t.entries, o),
    decreases ts.len(),
{
    let u = ts.update(s, t);
    if s == ts.len() - 1 {
        assert(u.drop_last() =~= ts.drop_last());
    } else {
        assert(u.drop_last() =~= ts.drop_last().update(s, t));
        lemma_table_update(ts.drop_last(), s, t, o);
    }
}

/// A table with an entry holds a handle.
proof fn lemma_counted(ts: Seq<Table>, s: int, i: int)
    requires
        0 <= s < ts.len(),
        0 <= i < ts[s].entries.len(),
        ts[s].entries[i] is Some,
    ensures
        handle_count(ts, ts[s].entries[i]->Some_0.object) >= 1,
{
    let o = ts[s].entries[i]->Some_0.object;
    lemma_with_entry(ts, s, i, None, o);
    lemma_handle_count(with_entry(ts, s, i, None), o);
}

proof fn lemma_with_entry(ts: Seq<Table>, s: int, i: int, e: Option<HandleEntry>, o: u64)
    requires
        0 <= s < ts.len(),
        0 <= i < ts[s].entries.len(),
    ensures
        handle_count(with_entry(ts, s, i, e), o) == handle_count(ts, o) - names(
            ts[s].entries[i],
            o,
        ) + names(e, o),
{
    lemma_entry_update(ts[s].entries, i, e, o);
    lemma_table_update(
        ts,
        s,
        Table { entries: ts[s].entries.update(i, e), ..ts[s] },
        o,
    );
}

proof fn lemma_slot_of(ts: Seq<Table>, cr3: u64, s: int)
    requires
        0 <= s,
    ensures
        slot_of(ts, cr3, s) matches Some(k) ==> s <= k < ts.len() && ts[k].in_use && ts[k].cr3
            == cr3,
    decreases ts.len() - s,
{
    if s < ts.len() && !(ts[s].in_use && ts[s].cr3 == cr3) {
        lemma_slot_of(ts, cr3, s + 1);
    }
}

proof fn lemma_free_slot(ts: Seq<Table>, s: int)
    requires
        0 <= s,
    ensures
        free_slot(ts, s) matches Some(k) ==> s <= k < ts.len() && !ts[k].in_use,
    decreases ts.len() - s,
{
    if s < ts.len() && ts[s].in_use {
        lemma_free_slot(ts, s + 1);
    }
}

proof fn lemma_free_index(es: Seq<Option<HandleEntry>>, i: int)
    requires
        0 <= i,
    ensures
        free_index(es, i) matches Some(k) ==> i <= k < es.len() && es[k] is None,
    decreases es.len() - i,
{
    if i < es.len() && es[i] is Some {
        lemma_free_index(es, i + 1);
    }
}

/// Making a table opens no handle.
proof fn lemma_slot_made(ts: Seq<Table>, cr3: u64)
    requires
        tables_sound(ts),
    ensures
        tables_sound(slot_made(ts, cr3).0),
        slot_made(ts, cr3).1 matches Some(s) ==> 0 <= s < MAX_TABLES && slot_made(
            ts,
            cr3,
        ).0[s].in_use && slot_made(ts, cr3).0[s].cr3 == cr3,
        forall|o: u64| #[trigger] handle_count(slot_made(ts, cr3).0, o) == handle_count(ts, o),
{
    lemma_slot_of(ts, cr3, 0);
    lemma_free_slot(ts, 0);
    if slot_of(ts, cr3, 0) is None {
        if let Some(s) = free_slot(ts, 0) {
            let t = Table { cr3, in_use: true, entries: no_entries() };
            assert forall|o: u64| #[trigger] handle_count(ts.update(s, t), o) == handle_count(
                ts,
                o,
            ) by {
                lemma_table_update(ts, s, t, o);
                assert(ts[s].entries == no_entries());
            }
        }
    }
}

/// Opening a handle keeps every handle held.
pub proof fn an_open_handle_holds_its_object(
    ts: Seq<Table>,
    objects: Seq<ObjectHeader>,
    cr3: u64,
    e: HandleEntry,
)
    requires
        tables_sound(ts),
        objects_sound(objects),
        handles_held(ts, objects),
        alive(objects, e.object),
        refs(objects, e.object) < i64::MAX,
    ensures
        ({
            let (t2, o2, h) = opened(ts, objects, cr3, e);
            &&& tables_sound(t2)
            &&& objects_sound(o2)
            &&& handles_held(t2, o2)
            &&& h != 0 ==> h % 4 == 0 && refs(o2, e.object) == refs(objects, e.object) + 1
        }),
{
    lemma_slot_made(ts, cr3);
    lemma_referenced(objects, e.object);
    let (t1, slot) = slot_made(ts, cr3);
    assert forall|o: u64| #[trigger] handle_count(t1, o) <= refs(objects, o) by {
        assert(handle_count(t1, o) == handle_count(ts, o));
    }
    if let Some(s) = slot {
        lemma_free_index(t1[s].entries, 1);
        if let Some(i) = free_index(t1[s].entries, 1) {
            let t2 = with_entry(t1, s, i, Some(e));
            let o2 = referenced(objects, e.object);
            assert forall|o: u64| #[trigger] handle_count(t2, o) <= refs(o2, o) by {
                lemma_with_entry(t1, s, i, Some(e), o);
                assert(handle_count(t1, o) <= refs(objects, o));
                assert(refs(o2, o) == refs(objects, o) + if o == e.object {
                    1int
                } else {
                    0
                });
            }
        }
    }
}

/// Closing a handle keeps every other handle held: an object lives as long as a
/// handle names it.
pub proof fn an_object_outlives_its_handles_but_the_last(
    ts: Seq<Table>,
    objects: Seq<ObjectHeader>,
    cr3: u64,
    h: u64,
)
    requires
        tables_sound(ts),
        objects_sound(objects),
        handles_held(ts, objects),
    ensures
        ({
            let (t2, o2, status) = closed(ts, objects, cr3, h);
            &&& tables_sound(t2)
            &&& objects_sound(o2)
            &&& handles_held(t2, o2)
            &&& entry_of(t2, cr3, h) is None
            &&& forall|o: u64| #[trigger] handle_count(t2, o) > 0 ==> alive(o2, o)
        }),
{
    let (t2, o2, status) = closed(ts, objects, cr3, h);
    lemma_slot_of(ts, cr3, 0);
    match entry_of(ts, cr3, h) {
        Some(e) => {
            let s = slot_of(ts, cr3, 0)->Some_0;
            let i = index_of(h);
            lemma_counted(ts, s, i);
            assert(handle_count(ts, e.object) <= refs(objects, e.object));
            lemma_found(objects, e.object, 0);
            assert(alive(objects, e.object));
            lemma_dereferenced(objects, e.object);
            assert forall|o: u64| #[trigger] handle_count(t2, o) <= refs(o2, o) by {
                lemma_with_entry(ts, s, i, None, o);
                assert(handle_count(ts, o) <= refs(objects, o));
                assert(refs(o2, o) == refs(objects, o) - if o == e.object {
                    1int
                } else {
                    0
                });
            }
            lemma_same_slot(ts, t2, cr3, 0);
        },
        None => {},
    }
    assert forall|o: u64| #[trigger] handle_count(t2, o) > 0 implies alive(o2, o) by {
        assert(handle_count(t2, o) <= refs(o2, o));
    }
}

proof fn lemma_same_slot(a: Seq<Table>, b: Seq<Table>, cr3: u64, s: int)
    requires
        0 <= s,
        a.len() == b.len(),
        forall|k: int|
            0 <= k < a.len() ==> (#[trigger] a[k]).in_use == b[k].in_use && a[k].cr3 == b[k].cr3,
    ensures
        slot_of(a, cr3, s) == slot_of(b, cr3, s),
    decreases a.len() - s,
{
    if s < a.len() {
        assert(a[s].in_use == b[s].in_use && a[s].cr3 == b[s].cr3);
        lemma_same_slot(a, b, cr3, s + 1);
    }
}

// ---------------------------------------------------------------------------
// The tables
// ---------------------------------------------------------------------------
impl HandleTables {
    pub open spec fn wf(&self) -> bool {
        tables_sound(self@)
    }

    /// No table in use.
    pub fn new() -> (t: Self)
        ensures
            t.wf(),
            forall|s: int| 0 <= s < MAX_TABLES ==> !(#[trigger] t@[s]).in_use,
            forall|o: u64| #[trigger] handle_count(t@, o) == 0,
    {
        let mut slots: Vec<TableSlot> = Vec::new();
        let mut s: usize = 0;
        while s < MAX_TABLES
            invariant
                s <= MAX_TABLES,
                slots@.len() == s,
                forall|k: int|
                    0 <= k < s ==> (#[trigger] slots@[k])@ == (Table {
                        cr3: 0,
                        in_use: false,
                        entries: no_entries(),
                    }),
            decreases MAX_TABLES - s,
        {
            let entries: Vec<Option<HandleEntry>> = empty_entries();
            slots.push(TableSlot { cr3: 0, in_use: false, entries });
            s = s + 1;
        }
        let t = HandleTables { slots };
        proof {
            assert forall|o: u64| #[trigger] handle_count(t@, o) == 0 by {
                lemma_all_empty(t@, o);
            }
        }
        t
    }

    fn find(&self, cr3: u64) -> (r: Option<usize>)
        ensures
            match r {
                Some(s) => slot_of(self@, cr3, 0) == Some(s as int) && s < self@.len(),
                None => slot_of(self@, cr3, 0) is None,
            },
    {
        let mut s: usize = 0;
        while s < self.slots.len()
            invariant
                s <= self.slots@.len(),
                slot_of(self@, cr3, 0) == slot_of(self@, cr3, s as int),
            decreases self.slots@.len() - s,
        {
            assert(self@[s as int] == self.slots@[s as int]@);
            if self.slots[s].in_use && self.slots[s].cr3 == cr3 {
                return Some(s);
            }
            s = s + 1;
        }
        None
    }

    fn find_free(&self) -> (r: Option<usize>)
        ensures
            match r {
                Some(s) => free_slot(self@, 0) == Some(s as int) && s < self@.len(),
                None => free_slot(self@, 0) is None,
            },
    {
        let mut s: usize = 0;
        while s < self.slots.len()
            invariant
                s <= self.slots@.len(),
                free_slot(self@, 0) == free_slot(self@, s as int),
            decreases self.slots@.len() - s,
        {
            assert(self@[s as int] == self.slots@[s as int]@);
            if !self.slots[s].in_use {
                return Some(s);
            }
            s = s + 1;
        }
        None
    }

    /// The slot of an address space's table, made if there is none.
    fn slot_for(&mut self, cr3: u64) -> (r: Option<usize>)
        requires
            old(self).wf(),
        ensures
            final(self).wf(),
            ({
                let (ts, slot) = slot_made(old(self)@, cr3);
                &&& final(self)@ == ts
                &&& match r {
                    Some(s) => slot == Some(s as int) && s < MAX_TABLES,
                    None => slot is None,
                }
            }),
    {
        proof {
            lemma_slot_made(self@, cr3);
        }
        match self.find(cr3) {
            Some(s) => {
                return Some(s);
            },
            None => {},
        }
        match self.find_free() {
            Some(s) => {
                let ghost before = self@;
                let mut slot = TableSlot { cr3, in_use: true, entries: empty_entries() };
                std::mem::swap(&mut self.slots[s], &mut slot);
                assert(self@ =~= slot_made(before, cr3).0);
                Some(s)
            },
            None => None,
        }
    }

    /// Replace an entry.
    fn set_entry(&mut self, s: usize, i: usize, e: Option<HandleEntry>)
        requires
            old(self).wf(),
            s < MAX_TABLES,
            1 <= i < MAX_HANDLES,
            old(self)@[s as int].in_use,
        ensures
            final(self).wf(),
            final(self)@ == with_entry(old(self)@, s as int, i as int, e),
    {
        let ghost before = self@;
        assert(before[s as int].entries.len() == MAX_HANDLES);
        let mut slot = TableSlot { cr3: 0, in_use: false, entries: Vec::new() };
        std::mem::swap(&mut self.slots[s], &mut slot);
        slot.entries.set(i, e);
        std::mem::swap(&mut self.slots[s], &mut slot);
        proof {
            assert(self@ =~= with_entry(before, s as int, i as int, e));
            assert forall|k: int| 0 <= k < self@.len() implies {
                &&& (#[trigger] self@[k]).entries.len() == MAX_HANDLES
                &&& self@[k].entries[0] is None
                &&& !self@[k].in_use ==> self@[k].entries == no_entries()
            } by {
                assert(before[k].entries.len() == MAX_HANDLES);
            }
        }
    }

    /// Open a handle in the table of an address space.
    fn create_in(&mut self, om: &mut ObjectManager, cr3: u64, object: u64, granted_access: u32) -> (
    h: u64)
        requires
            old(self).wf(),
            old(om).wf(),
            alive(old(om).objects@, object),
            refs(old(om).objects@, object) < i64::MAX,
        ensures
            final(self).wf(),
            final(om).wf(),
            final(om).types@ == old(om).types@,
            (final(self)@, final(om).objects@, h) == opened(
                old(self)@,
                old(om).objects@,
                cr3,
                HandleEntry { object, granted_access },
            ),
    {
        let s: usize = match self.slot_for(cr3) {
            Some(s) => s,
            None => {
                return 0;
            },
        };
        proof {
            lemma_slot_made(old(self)@, cr3);
        }
        let ghost ts = self@;
        assert(ts[s as int].entries.len() == MAX_HANDLES);
        let mut i: usize = 1;
        while i < MAX_HANDLES
            invariant
                1 <= i <= MAX_HANDLES,
                s < MAX_TABLES,
                self.wf(),
                om.wf(),
                ts == self@,
                ts[s as int].in_use,
                om.objects@ == old(om).objects@,
                om.types@ == old(om).types@,
                alive(om.objects@, object),
                refs(om.objects@, object) < i64::MAX,
                slot_made(old(self)@, cr3) == (ts, Some(s as int)),
                free_index(ts[s as int].entries, 1) == free_index(ts[s as int].entries, i as int),
            decreases MAX_HANDLES - i,
        {
            assert(ts[s as int] == self.slots@[s as int]@);
            assert(ts[s as int].entries.len() == MAX_HANDLES);
            if self.slots[s].entries[i].is_none() {
                self.set_entry(s, i, Some(HandleEntry { object, granted_access }));
                ob_reference_object(om, object);
                return i as u64 * 4;
            }
            i = i + 1;
        }
        0
    }
}

fn empty_entries() -> (v: Vec<Option<HandleEntry>>)
    ensures
        v@ == no_entries(),
{
    let mut v: Vec<Option<HandleEntry>> = Vec::new();
    let mut i: usize = 0;
    while i < MAX_HANDLES
        invariant
            i <= MAX_HANDLES,
            v@.len() == i,
            forall|k: int| 0 <= k < i ==> #[trigger] v@[k] is None,
        decreases MAX_HANDLES - i,
    {
        v.push(None);
        i = i + 1;
    }
    assert(v@ =~= no_entries());
    v
}

proof fn lemma_all_empty(ts: Seq<Table>, o: u64)
    requires
        forall|s: int| 0 <= s < ts.len() ==> (#[trigger] ts[s]).entries == no_entries(),
    ensures
        handle_count(ts, o) == 0,
    decreases ts.len(),
{
    if ts.len() > 0 {
        assert(ts.last() == ts[ts.len() - 1]);
        lemma_no_entries(MAX_HANDLES as nat, o);
        assert forall|s: int| 0 <= s < ts.drop_last().len() implies (
        #[trigger] ts.drop_last()[s]).entries == no_entries() by {
            assert(ts.drop_last()[s] == ts[s]);
        }
        lemma_all_empty(ts.drop_last(), o);
    }
}

/// `ObCreateHandle` in the calling process's table. 0 when there is no room.
pub fn ob_create_handle(
    tables: &mut HandleTables,
    om: &mut ObjectManager,
    d: &Dispatcher,
    object: u64,
    granted_access: u32,
) -> (h: u64)
    requires
        old(tables).wf(),
        old(om).wf(),
        d.wf(),
        alive(old(om).objects@, object),
        refs(old(om).objects@, object) < i64::MAX,
    ensures
        final(tables).wf(),
        final(om).wf(),
        final(om).types@ == old(om).types@,
        (final(tables)@, final(om).objects@, h) == opened(
            old(tables)@,
            old(om).objects@,
            current_of(d@).cr3,
            HandleEntry { object, granted_access },
        ),
{
    tables.create_in(om, current(d).cr3, object, granted_access)
}

/// `ObCreateHandle` in the table of a given address space.
pub fn ob_create_handle_in(
    tables: &mut HandleTables,
    om: &mut ObjectManager,
    cr3: u64,
    object: u64,
    granted_access: u32,
) -> (h: u64)
    requires
        old(tables).wf(),
        old(om).wf(),
        alive(old(om).objects@, object),
        refs(old(om).objects@, object) < i64::MAX,
    ensures
        final(tables).wf(),
        final(om).wf(),
        final(om).types@ == old(om).types@,
        (final(tables)@, final(om).objects@, h) == opened(
            old(tables)@,
            old(om).objects@,
            cr3,
            HandleEntry { object, granted_access },
        ),
{
    tables.create_in(om, cr3, object, granted_access)
}

/// The object a handle of the calling process names. No reference is taken: the
/// handle's own keeps the object alive.
pub fn ob_reference_object_by_handle(tables: &HandleTables, d: &Dispatcher, handle: u64) -> (r:
    Result<u64, NtStatus>)
    requires
        tables.wf(),
        d.wf(),
    ensures
        r == object_of(tables@, current_of(d@).cr3, handle),
{
    let cr3: u64 = current(d).cr3;
    let i: u64 = handle / 4;
    match tables.find(cr3) {
        Some(s) => {
            if i >= 1 && i < MAX_HANDLES as u64 {
                assert(tables@[s as int] == tables.slots@[s as int]@);
                assert(tables@[s as int].entries.len() == MAX_HANDLES);
                match tables.slots[s].entries[i as usize] {
                    Some(e) => {
                        return Ok(e.object);
                    },
                    None => {},
                }
            }
        },
        None => {},
    }
    Err(NtStatus(NtStatus::INVALID_HANDLE))
}

/// Open a second handle to the object of a handle; 0 for an invalid one.
pub fn duplicate_handle(
    tables: &mut HandleTables,
    om: &mut ObjectManager,
    d: &Dispatcher,
    handle: u64,
) -> (h: u64)
    requires
        old(tables).wf(),
        old(om).wf(),
        d.wf(),
        handles_held(old(tables)@, old(om).objects@),
        forall|o: u64| #[trigger] refs(old(om).objects@, o) < i64::MAX,
    ensures
        final(tables).wf(),
        final(om).wf(),
        final(om).types@ == old(om).types@,
        ({
            let cr3 = current_of(d@).cr3;
            match object_of(old(tables)@, cr3, handle) {
                Ok(object) => (final(tables)@, final(om).objects@, h) == opened(
                    old(tables)@,
                    old(om).objects@,
                    cr3,
                    HandleEntry { object, granted_access: 0 },
                ),
                Err(_) => h == 0 && final(tables)@ == old(tables)@ && final(om).objects@ == old(
                    om,
                ).objects@,
            }
        }),
{
    match ob_reference_object_by_handle(tables, d, handle) {
        Ok(object) => {
            proof {
                let ts = tables@;
                let cr3 = current_of(d@).cr3;
                lemma_slot_of(ts, cr3, 0);
                lemma_counted(ts, slot_of(ts, cr3, 0)->Some_0, index_of(handle));
                assert(handle_count(ts, object) <= refs(om.objects@, object));
            }
            ob_create_handle(tables, om, d, object, 0)
        },
        Err(_) => 0,
    }
}

/// How an object is deleted: by its type's procedure.
pub open spec fn deletion_of(
    objects: Seq<ObjectHeader>,
    types: Seq<ObjectType>,
    body: u64,
) -> Deletion {
    let k = found(objects, body, 0)->Some_0;
    Deletion { body, delete: types[objects[k].object_type as int].delete }
}

/// What closing a handle deletes: the object it names, if that was its last reference.
pub open spec fn close_deletion(
    ts: Seq<Table>,
    objects: Seq<ObjectHeader>,
    types: Seq<ObjectType>,
    cr3: u64,
    handle: u64,
) -> Option<Deletion> {
    match entry_of(ts, cr3, handle) {
        Some(e) => if refs(objects, e.object) == 1 {
            Some(deletion_of(objects, types, e.object))
        } else {
            None
        },
        None => None,
    }
}

/// `NtClose`: close a handle of the calling process and drop its reference.
pub fn ob_close_handle(
    tables: &mut HandleTables,
    om: &mut ObjectManager,
    d: &Dispatcher,
    handle: u64,
) -> (r: (NtStatus, Option<Deletion>))
    requires
        old(tables).wf(),
        old(om).wf(),
        d.wf(),
        handles_held(old(tables)@, old(om).objects@),
    ensures
        final(tables).wf(),
        final(om).wf(),
        final(om).types@ == old(om).types@,
        handles_held(final(tables)@, final(om).objects@),
        (final(tables)@, final(om).objects@, r.0) == closed(
            old(tables)@,
            old(om).objects@,
            current_of(d@).cr3,
            handle,
        ),
        r.1 == close_deletion(
            old(tables)@,
            old(om).objects@,
            old(om).types@,
            current_of(d@).cr3,
            handle,
        ),
{
    let cr3: u64 = current(d).cr3;
    let i: u64 = handle / 4;
    let ghost ts = tables@;
    let ghost objs = om.objects@;
    proof {
        an_object_outlives_its_handles_but_the_last(ts, objs, cr3, handle);
    }
    let s: usize = match tables.find(cr3) {
        Some(s) => s,
        None => {
            return (NtStatus(NtStatus::INVALID_HANDLE), None);
        },
    };
    if i < 1 || i >= MAX_HANDLES as u64 {
        return (NtStatus(NtStatus::INVALID_HANDLE), None);
    }
    proof {
        lemma_slot_of(ts, cr3, 0);
        assert(ts[s as int] == tables.slots@[s as int]@);
        assert(ts[s as int].entries.len() == MAX_HANDLES);
    }
    match tables.slots[s].entries[i as usize] {
        Some(e) => {
            proof {
                lemma_counted(ts, s as int, i as int);
                assert(handle_count(ts, e.object) <= refs(objs, e.object));
                lemma_dereferenced(objs, e.object);
            }
            tables.set_entry(s, i as usize, None);
            let del: Option<Deletion> = ob_dereference_object(om, e.object);
            (NtStatus(NtStatus::SUCCESS), del)
        },
        None => (NtStatus(NtStatus::INVALID_HANDLE), None),
    }
}

// ---------------------------------------------------------------------------
// Freeing a table
// ---------------------------------------------------------------------------
/// The objects named by the entries of a table below `i`, in order.
pub open spec fn named_objects(es: Seq<Option<HandleEntry>>, i: int) -> Seq<u64>
    decreases i,
{
    if i <= 0 {
        Seq::empty()
    } else {
        match es[i - 1] {
            Some(e) => named_objects(es, i - 1).push(e.object),
            None => named_objects(es, i - 1),
        }
    }
}

/// The objects with a reference dropped for each of `list`, and the deletions of those
/// that die.
pub open spec fn all_dereferenced(
    objects: Seq<ObjectHeader>,
    types: Seq<ObjectType>,
    list: Seq<u64>,
) -> (Seq<ObjectHeader>, Seq<Deletion>)
    decreases list.len(),
{
    if list.len() == 0 {
        (objects, Seq::empty())
    } else {
        let (o, dead) = all_dereferenced(objects, types, list.drop_last());
        let (o2, last) = dereferenced(o, list.last());
        (
            o2,
            if last {
                dead.push(deletion_of(o, types, list.last()))
            } else {
                dead
            },
        )
    }
}

/// The tables without that of an address space.
pub open spec fn table_freed(ts: Seq<Table>, cr3: u64) -> Seq<Table> {
    match slot_of(ts, cr3, 0) {
        Some(s) => ts.update(s, Table { cr3: 0, in_use: false, entries: no_entries() }),
        None => ts,
    }
}

/// The objects whose handles go with a table.
pub open spec fn table_objects(ts: Seq<Table>, cr3: u64) -> Seq<u64> {
    match slot_of(ts, cr3, 0) {
        Some(s) => named_objects(ts[s].entries, MAX_HANDLES as int),
        None => Seq::empty(),
    }
}

/// How often an object occurs in a list.
pub open spec fn occurrences(list: Seq<u64>, o: u64) -> int
    decreases list.len(),
{
    if list.len() == 0 {
        0
    } else {
        occurrences(list.drop_last(), o) + if list.last() == o {
            1int
        } else {
            0
        }
    }
}

proof fn lemma_occurrences(list: Seq<u64>, o: u64)
    ensures
        0 <= occurrences(list, o),
    decreases list.len(),
{
    if list.len() > 0 {
        lemma_occurrences(list.drop_last(), o);
    }
}

proof fn lemma_named_count(es: Seq<Option<HandleEntry>>, i: int, o: u64)
    requires
        0 <= i <= es.len(),
    ensures
        occurrences(named_objects(es, i), o) == entry_count(es.take(i), o),
    decreases i,
{
    if i > 0 {
        lemma_named_count(es, i - 1, o);
        assert(es.take(i).drop_last() =~= es.take(i - 1));
        assert(es.take(i).last() == es[i - 1]);
        if let Some(e) = es[i - 1] {
            let l = named_objects(es, i - 1);
            assert(l.push(e.object).drop_last() =~= l);
        }
    } else {
        assert(es.take(0).len() == 0);
    }
}

/// `list[i..]` still to be dropped, handles and references are in balance.
spec fn balanced(ts: Seq<Table>, objects: Seq<ObjectHeader>, rest: Seq<u64>) -> bool {
    forall|o: u64| #[trigger] handle_count(ts, o) + occurrences(rest, o) <= refs(objects, o)
}

proof fn lemma_occurrences_skip(list: Seq<u64>, i: int, o: u64)
    requires
        0 <= i < list.len(),
    ensures
        occurrences(list.skip(i), o) == occurrences(list.skip(i + 1), o) + if list[i] == o {
            1int
        } else {
            0
        },
    decreases list.len(),
{
    let s = list.skip(i);
    if i == list.len() - 1 {
        assert(s.drop_last() =~= Seq::empty());
        assert(list.skip(i + 1) =~= Seq::empty());
        assert(s.last() == list[i]);
    } else {
        lemma_occurrences_skip(list.drop_last(), i, o);
        assert(s.drop_last() =~= list.drop_last().skip(i));
        assert(list.skip(i + 1).drop_last() =~= list.drop_last().skip(i + 1));
        assert(s.last() == list.last() && list.skip(i + 1).last() == list.last());
    }
}

/// Tear down the table of an address space when its process ends: close every
/// handle and free the slot. The kernel's table stays. Returns the objects to be
/// deleted, in the order of their handles.
pub fn ob_free_table(tables: &mut HandleTables, om: &mut ObjectManager, cr3: u64) -> (dead: Vec<
    Deletion,
>)
    requires
        old(tables).wf(),
        old(om).wf(),
        handles_held(old(tables)@, old(om).objects@),
    ensures
        final(tables).wf(),
        final(om).wf(),
        final(om).types@ == old(om).types@,
        handles_held(final(tables)@, final(om).objects@),
        cr3 == 0 ==> final(tables)@ == old(tables)@ && final(om).objects@ == old(om).objects@
            && dead@.len() == 0,
        cr3 != 0 ==> {
            let (objects, deletions) = all_dereferenced(
                old(om).objects@,
                old(om).types@,
                table_objects(old(tables)@, cr3),
            );
            &&& final(tables)@ == table_freed(old(tables)@, cr3)
            &&& final(om).objects@ == objects
            &&& dead@ == deletions
        },
{
    let mut dead: Vec<Deletion> = Vec::new();
    if cr3 == 0 {
        return dead;
    }
    let ghost ts = tables@;
    let ghost objs = om.objects@;
    let s: usize = match tables.find(cr3) {
        Some(s) => s,
        None => {
            assert(dead@ =~= Seq::<Deletion>::empty());
            return dead;
        },
    };
    proof {
        lemma_slot_of(ts, cr3, 0);
        assert(ts[s as int].entries.len() == MAX_HANDLES);
    }
    let ghost es = ts[s as int].entries;
    let mut slot = TableSlot { cr3: 0, in_use: false, entries: empty_entries() };
    std::mem::swap(&mut tables.slots[s], &mut slot);
    let ghost t2 = table_freed(ts, cr3);
    assert(slot@ == ts[s as int]);
    assert(tables@ =~= t2);
    assert(tables_sound(t2));
    let mut list: Vec<u64> = Vec::new();
    let mut i: usize = 0;
    while i < MAX_HANDLES
        invariant
            i <= MAX_HANDLES,
            slot.entries@ == es,
            es.len() == MAX_HANDLES,
            list@ == named_objects(es, i as int),
        decreases MAX_HANDLES - i,
    {
        match slot.entries[i] {
            Some(e) => {
                list.push(e.object);
            },
            None => {},
        }
        i = i + 1;
    }
    proof {
        assert forall|o: u64| #[trigger] handle_count(t2, o) + occurrences(list@.skip(0), o)
            <= refs(objs, o) by {
            assert(list@.skip(0) =~= list@);
            lemma_named_count(es, MAX_HANDLES as int, o);
            assert(es.take(MAX_HANDLES as int) =~= es);
            lemma_table_update(
                ts,
                s as int,
                Table { cr3: 0, in_use: false, entries: no_entries() },
                o,
            );
            lemma_no_entries(MAX_HANDLES as nat, o);
            assert(handle_count(ts, o) <= refs(objs, o));
        }
        assert(list@.take(0) =~= Seq::<u64>::empty());
        assert(dead@ =~= Seq::<Deletion>::empty());
    }
    let n: usize = list.len();
    let mut k: usize = 0;
    while k < n
        invariant
            k <= n,
            n == list@.len(),
            om.wf(),
            om.types@ == old(om).types@,
            balanced(t2, om.objects@, list@.skip(k as int)),
            all_dereferenced(objs, om.types@, list@.take(k as int)) == (om.objects@, dead@),
        decreases n - k,
    {
        let ghost prev = om.objects@;
        let ghost dead0 = dead@;
        let o: u64 = list[k];
        proof {
            lemma_occurrences_skip(list@, k as int, o);
            lemma_handle_count(t2, o);
            lemma_occurrences(list@.skip(k + 1), o);
            assert(handle_count(t2, o) + occurrences(list@.skip(k as int), o) <= refs(prev, o));
            lemma_dereferenced(prev, o);
            let t = list@.take(k + 1);
            assert(t.drop_last() =~= list@.take(k as int));
            assert(t.last() == o);
        }
        match ob_dereference_object(om, o) {
            Some(d) => {
                dead.push(d);
                assert(dead@ =~= dead0.push(deletion_of(prev, om.types@, o)));
            },
            None => {},
        }
        proof {
            assert forall|x: u64| #[trigger] handle_count(t2, x) + occurrences(
                list@.skip(k + 1),
                x,
            ) <= refs(om.objects@, x) by {
                lemma_occurrences_skip(list@, k as int, x);
                assert(handle_count(t2, x) + occurrences(list@.skip(k as int), x) <= refs(prev, x));
                assert(refs(om.objects@, x) == refs(prev, x) - if x == o {
                    1int
                } else {
                    0
                });
            }
        }
        k = k + 1;
    }
    proof {
        assert(list@.take(n as int) =~= list@);
        assert forall|o: u64| #[trigger] handle_count(t2, o) <= refs(om.objects@, o) by {
            assert(list@.skip(n as int) =~= Seq::<u64>::empty());
            assert(handle_count(t2, o) + occurrences(list@.skip(n as int), o) <= refs(
                om.objects@,
                o,
            ));
        }
    }
    dead
}

/// A duplicate keeps the object alive when the first handle is closed.
pub proof fn a_duplicate_is_independent(
    ts: Seq<Table>,
    objects: Seq<ObjectHeader>,
    cr3: u64,
    h: u64,
)
    requires
        tables_sound(ts),
        objects_sound(objects),
        handles_held(ts, objects),
        entry_of(ts, cr3, h) is Some,
        refs(objects, entry_of(ts, cr3, h)->Some_0.object) < i64::MAX,
    ensures
        ({
            let object = entry_of(ts, cr3, h)->Some_0.object;
            let (t1, o1, dup) = opened(
                ts,
                objects,
                cr3,
                HandleEntry { object, granted_access: 0 },
            );
            let (t2, o2, status) = closed(t1, o1, cr3, h);
            dup != 0 ==> alive(o2, object) && object_of(t2, cr3, dup) == Ok::<u64, NtStatus>(
                object,
            )
        }),
{
    let object = entry_of(ts, cr3, h)->Some_0.object;
    let e = HandleEntry { object, granted_access: 0 };
    lemma_slot_of(ts, cr3, 0);
    let s = slot_of(ts, cr3, 0)->Some_0;
    lemma_counted(ts, s, index_of(h));
    assert(handle_count(ts, object) <= refs(objects, object));
    assert(alive(objects, object));
    an_open_handle_holds_its_object(ts, objects, cr3, e);
    let (t1, o1, dup) = opened(ts, objects, cr3, e);
    an_object_outlives_its_handles_but_the_last(t1, o1, cr3, h);
    let (t2, o2, status) = closed(t1, o1, cr3, h);
    if dup != 0 {
        lemma_free_index(ts[s].entries, 1);
        let i = free_index(ts[s].entries, 1)->Some_0;
        assert(t1 == with_entry(ts, s, i, Some(e)));
        lemma_same_slot(ts, t1, cr3, 0);
        assert(i != index_of(h));
        assert(entry_of(t1, cr3, h) == entry_of(ts, cr3, h));
        lemma_same_slot(t1, t2, cr3, 0);
        assert(index_of(dup) == i);
        assert(t2[s].entries[i] == Some(e));
        lemma_counted(t2, s, i);
        assert(handle_count(t2, object) > 0);
    }
}

/// Handles are the multiples of four; the first of a table is 4.
pub proof fn handles_are_multiples_of_four(i: int)
    requires
        0 <= i < 256,
    ensures
        handle_of(i) == 4 * i,
        index_of(handle_of(i)) == i,
{
}

/// A new handle names its object, with the access that was granted. It was not in use, it is
/// the lowest that was not, and all other handles of the space name what they did.
pub proof fn a_new_handle_names_its_object(
    ts: Seq<Table>,
    objects: Seq<ObjectHeader>,
    cr3: u64,
    e: HandleEntry,
    other: u64,
)
    requires
        tables_sound(ts),
        slot_of(ts, cr3, 0) is Some,
    ensures
        ({
            let (t1, o1, h) = opened(ts, objects, cr3, e);
            if h == 0 {
                t1 == ts && o1 == objects
            } else {
                &&& h % 4 == 0
                &&& 4 <= h < 1024
                &&& entry_of(ts, cr3, h) is None
                &&& entry_of(t1, cr3, h) == Some(e)
                &&& object_of(t1, cr3, h) == Ok::<u64, NtStatus>(e.object)
                &&& other / 4 != h / 4 ==> entry_of(t1, cr3, other) == entry_of(ts, cr3, other)
                &&& 4 <= other < h ==> entry_of(ts, cr3, other) is Some
                &&& o1 == referenced(objects, e.object)
            }
        }),
{
    lemma_slot_of(ts, cr3, 0);
    let s = slot_of(ts, cr3, 0)->Some_0;
    lemma_free_index(ts[s].entries, 1);
    lemma_lowest(ts[s].entries, 1);
    let (t1, o1, h) = opened(ts, objects, cr3, e);
    match free_index(ts[s].entries, 1) {
        Some(i) => {
            assert(t1 == with_entry(ts, s, i, Some(e)));
            lemma_same_slot(ts, t1, cr3, 0);
        },
        None => {},
    }
}

proof fn lemma_lowest(es: Seq<Option<HandleEntry>>, i: int)
    requires
        0 <= i,
    ensures
        match free_index(es, i) {
            Some(k) => forall|j: int| i <= j < k ==> (#[trigger] es[j]) is Some,
            None => forall|j: int| i <= j < es.len() ==> (#[trigger] es[j]) is Some,
        },
    decreases es.len() - i,
{
    if i < es.len() {
        lemma_lowest(es, i + 1);
    }
}

/// A handle that is closed names nothing any more; all other handles of the space name what
/// they did, and closing what is no handle changes nothing.
pub proof fn a_closed_handle_names_nothing(
    ts: Seq<Table>,
    objects: Seq<ObjectHeader>,
    cr3: u64,
    h: u64,
    other: u64,
)
    requires
        tables_sound(ts),
    ensures
        ({
            let (t1, o1, status) = closed(ts, objects, cr3, h);
            match entry_of(ts, cr3, h) {
                None => t1 == ts && o1 == objects && status == NtStatus(0xC000_0008),
                Some(e) => {
                    &&& status == NtStatus(0)
                    &&& entry_of(t1, cr3, h) is None
                    &&& object_of(t1, cr3, h) == Err::<u64, NtStatus>(NtStatus(0xC000_0008))
                    &&& other / 4 != h / 4 ==> entry_of(t1, cr3, other) == entry_of(ts, cr3, other)
                    &&& o1 == dereferenced(objects, e.object).0
                },
            }
        }),
{
    lemma_slot_of(ts, cr3, 0);
    if let Some(e) = entry_of(ts, cr3, h) {
        let s = slot_of(ts, cr3, 0)->Some_0;
        let t1 = closed(ts, objects, cr3, h).0;
        assert(t1 == with_entry(ts, s, index_of(h), None));
        lemma_same_slot(ts, t1, cr3, 0);
    }
}

/// Zero, and everything from 1024 on, is no handle.
pub proof fn handles_have_a_range(ts: Seq<Table>, cr3: u64, h: u64)
    requires
        h < 4 || h >= 1024,
    ensures
        entry_of(ts, cr3, h) is None,
{
}

/// The handles of one space are not those of another.
pub proof fn spaces_have_their_own_handles(
    ts: Seq<Table>,
    objects: Seq<ObjectHeader>,
    cr3: u64,
    other: u64,
    h: u64,
    x: u64,
)
    requires
        tables_sound(ts),
        other != cr3,
    ensures
        entry_of(closed(ts, objects, cr3, h).0, other, x) == entry_of(ts, other, x),
{
    lemma_slot_of(ts, cr3, 0);
    lemma_slot_of(ts, other, 0);
    let t1 = closed(ts, objects, cr3, h).0;
    if entry_of(ts, cr3, h) is Some {
        let s = slot_of(ts, cr3, 0)->Some_0;
        assert(t1 == with_entry(ts, s, index_of(h), None));
        lemma_same_slot(ts, t1, other, 0);
    }
}

/// When a space ends, every one of its handles gives back its reference: an object is named
/// in the list as often as the table names it.
pub proof fn an_ending_space_gives_every_reference_back(ts: Seq<Table>, cr3: u64, o: u64)
    requires
        tables_sound(ts),
    ensures
        match slot_of(ts, cr3, 0) {
            Some(s) => occurrences(table_objects(ts, cr3), o) == entry_count(ts[s].entries, o),
            None => table_objects(ts, cr3).len() == 0,
        },
{
    lemma_slot_of(ts, cr3, 0);
    if let Some(s) = slot_of(ts, cr3, 0) {
        lemma_named_count(ts[s].entries, 256, o);
        assert(ts[s].entries.take(256) =~= ts[s].entries);
    }
}

/// The table of a space that ended is free and empty, and no other table changes.
pub proof fn an_ended_space_has_no_table(ts: Seq<Table>, cr3: u64, s: int, i: int)
    requires
        tables_sound(ts),
        0 <= s < 16,
        0 <= i < 256,
    ensures
        slot_of(ts, cr3, 0) == Some(s) ==> !table_freed(ts, cr3)[s].in_use && table_freed(
            ts,
            cr3,
        )[s].entries[i] is None,
        slot_of(ts, cr3, 0) != Some(s) ==> table_freed(ts, cr3)[s] == ts[s],
{
    lemma_slot_of(ts, cr3, 0);
}

/// An object is deleted with its last handle, and not before.
pub proof fn the_last_handle_deletes_the_object(
    ts: Seq<Table>,
    objects: Seq<ObjectHeader>,
    types: Seq<ObjectType>,
    cr3: u64,
    h: u64,
)
    ensures
        match entry_of(ts, cr3, h) {
            None => close_deletion(ts, objects, types, cr3, h) is None,
            Some(e) => {
                &&& refs(objects, e.object) > 1 ==> close_deletion(ts, objects, types, cr3, h) is None
                &&& refs(objects, e.object) == 1 ==> (close_deletion(
                    ts,
                    objects,
                    types,
                    cr3,
                    h,
                ) matches Some(d) && d.body == e.object)
            },
        },
{
}

/// Giving back a list of references takes from every object as many as the list names it.
pub proof fn a_list_of_references_is_given_back(
    objects: Seq<ObjectHeader>,
    types: Seq<ObjectType>,
    list: Seq<u64>,
    o: u64,
)
    requires
        objects_sound(objects),
        forall|x: u64| #[trigger] occurrences(list, x) <= refs(objects, x),
    ensures
        objects_sound(all_dereferenced(objects, types, list).0),
        refs(all_dereferenced(objects, types, list).0, o) == refs(objects, o) - occurrences(
            list,
            o,
        ),
    decreases list.len(),
{
    if list.len() > 0 {
        let init = list.drop_last();
        let x = list.last();
        assert forall|y: u64| #[trigger] occurrences(init, y) <= refs(objects, y) by {
            assert(occurrences(list, y) <= refs(objects, y));
        }
        a_list_of_references_is_given_back(objects, types, init, o);
        a_list_of_references_is_given_back(objects, types, init, x);
        let before = all_dereferenced(objects, types, init).0;
        assert(occurrences(list, x) == occurrences(init, x) + 1);
        assert(occurrences(list, x) <= refs(objects, x));
        assert(refs(before, x) >= 1);
        assert(alive(before, x));
        lemma_dereferenced(before, x);
    }
}

/// An object dies when a list of references gives back its last, and is then on the list of
/// the dead.
pub proof fn the_last_of_a_list_kills(
    objects: Seq<ObjectHeader>,
    types: Seq<ObjectType>,
    list: Seq<u64>,
    x: u64,
)
    ensures
        ({
            let (o1, d1) = all_dereferenced(objects, types, list);
            let (o2, d2) = all_dereferenced(objects, types, list.push(x));
            &&& o2 == dereferenced(o1, x).0
            &&& dereferenced(o1, x).1 ==> d2.len() == d1.len() + 1 && d2.last().body == x
            &&& !dereferenced(o1, x).1 ==> d2 == d1
        }),
        all_dereferenced(objects, types, Seq::empty()).0 == objects,
        all_dereferenced(objects, types, Seq::empty()).1.len() == 0,
{
    assert(list.push(x).drop_last() =~= list);
}

} // verus!
