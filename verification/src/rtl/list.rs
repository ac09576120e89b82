//! `LIST_ENTRY`: the intrusive circular doubly-linked list.
//!
//! A head and its entries are the same two-link record; an empty list is a head
//! whose links lead to itself. The records live in one arena and are named by
//! their address in it, counted from one; 0 is no record. An entry that has been
//! removed has its links cleared, so that a use after removal is noticed.
use crate::bytes::{bytes64, put64};
use vstd::prelude::*;

verus! {

/// A list head or an entry.
#[derive(Debug, Clone, Copy, PartialEq, Eq, Structural)]
pub struct ListEntry {
    /// Next entry toward the tail.
    pub flink: u64,
    /// Previous entry toward the head.
    pub blink: u64,
}

impl ListEntry {
    /// A record that is not linked.
    pub fn new() -> (e: Self)
        ensures
            e == (ListEntry { flink: 0, blink: 0 }),
    {
        ListEntry { flink: 0, blink: 0 }
    }

    /// The sixteen-byte record: the forward link, then the backward one.
    pub fn to_record(&self) -> (r: Vec<u8>)
        ensures
            r@ == bytes64(self.flink) + bytes64(self.blink),
    {
        let mut r: Vec<u8> = vec![0u8; 16];
        put64(&mut r, 0, self.flink);
        put64(&mut r, 8, self.blink);
        assert(r@ =~= bytes64(self.flink) + bytes64(self.blink));
        r
    }
}

/// The records of some lists.
pub struct ListArena {
    pub entries: Vec<ListEntry>,
}

/// `a` is the address of a record.
pub open spec fn valid(es: Seq<ListEntry>, a: u64) -> bool {
    1 <= a <= es.len()
}

/// The record at an address.
pub open spec fn at(es: Seq<ListEntry>, a: u64) -> ListEntry {
    es[a - 1]
}

/// The head followed by the members: the records in the order the links go round.
pub open spec fn ring(head: u64, members: Seq<u64>) -> Seq<u64> {
    seq![head] + members
}

/// The position after `i` in a ring of `n`.
pub open spec fn next(i: int, n: int) -> int {
    if i + 1 >= n {
        0
    } else {
        i + 1
    }
}

/// The position before `i` in a ring of `n`.
pub open spec fn prev(i: int, n: int) -> int {
    if i <= 0 {
        n - 1
    } else {
        i - 1
    }
}

/// The links of the record at position `i` of a ring lead to its neighbours.
pub open spec fn linked(es: Seq<ListEntry>, r: Seq<u64>, i: int) -> bool {
    at(es, r[i]) == (ListEntry {
        flink: r[next(i, r.len() as int)],
        blink: r[prev(i, r.len() as int)],
    })
}

/// `head` is the head of a list of these members: all records are different, and
/// the links lead round in this order.
pub open spec fn is_list(es: Seq<ListEntry>, head: u64, members: Seq<u64>) -> bool {
    let r = ring(head, members);
    &&& forall|i: int| 0 <= i < r.len() ==> #[trigger] valid(es, r[i])
    &&& forall|i: int, j: int| 0 <= i < j < r.len() ==> #[trigger] r[i] != #[trigger] r[j]
    &&& forall|i: int| 0 <= i < r.len() ==> #[trigger] linked(es, r, i)
}

/// `head` is the head of some list.
pub open spec fn is_head(es: Seq<ListEntry>, head: u64) -> bool {
    exists|m: Seq<u64>| is_list(es, head, m)
}

/// The members of the list at `head`.
pub open spec fn members_of(es: Seq<ListEntry>, head: u64) -> Seq<u64> {
    choose|m: Seq<u64>| is_list(es, head, m)
}

/// A list has one sequence of members.
pub proof fn a_list_has_one_order(es: Seq<ListEntry>, head: u64, a: Seq<u64>, b: Seq<u64>)
    requires
        is_list(es, head, a),
        is_list(es, head, b),
    ensures
        a == b,
{
    if a.len() <= b.len() {
        lemma_same_prefix(es, head, a, b);
    } else {
        lemma_same_prefix(es, head, b, a);
    }
}

proof fn lemma_same_prefix(es: Seq<ListEntry>, head: u64, a: Seq<u64>, b: Seq<u64>)
    requires
        is_list(es, head, a),
        is_list(es, head, b),
        a.len() <= b.len(),
    ensures
        a == b,
{
    let ra = ring(head, a);
    let rb = ring(head, b);
    assert forall|i: int| 0 <= i < ra.len() implies ra[i] == rb[i] by {
        lemma_same_at(es, head, a, b, i);
    }
    let n = a.len() as int;
    assert(linked(es, ra, n));
    assert(at(es, ra[n]).flink == head);
    if b.len() > n {
        assert(linked(es, rb, n));
        assert(at(es, rb[n]).flink == rb[n + 1]);
        assert(rb[0] != rb[n + 1]);
    }
    assert forall|i: int| 0 <= i < a.len() implies a[i] == b[i] by {
        assert(ra[i + 1] == rb[i + 1]);
    }
    assert(a =~= b);
}

proof fn lemma_same_at(es: Seq<ListEntry>, head: u64, a: Seq<u64>, b: Seq<u64>, i: int)
    requires
        is_list(es, head, a),
        is_list(es, head, b),
        a.len() <= b.len(),
        0 <= i <= a.len(),
    ensures
        ring(head, a)[i] == ring(head, b)[i],
    decreases i,
{
    if i > 0 {
        lemma_same_at(es, head, a, b, i - 1);
        let ra = ring(head, a);
        let rb = ring(head, b);
        assert(linked(es, ra, i - 1));
        assert(linked(es, rb, i - 1));
    }
}

proof fn lemma_members(es: Seq<ListEntry>, head: u64, m: Seq<u64>)
    requires
        is_list(es, head, m),
    ensures
        is_head(es, head),
        members_of(es, head) == m,
{
    a_list_has_one_order(es, head, m, members_of(es, head));
}

impl ListArena {
    /// No records.
    pub fn new() -> (l: Self)
        ensures
            l.entries@ == Seq::<ListEntry>::empty(),
    {
        ListArena { entries: Vec::new() }
    }

    /// Add a record that is not linked; its address.
    pub fn add(&mut self) -> (a: u64)
        requires
            old(self).entries@.len() < u64::MAX,
        ensures
            a == old(self).entries@.len() + 1,
            final(self).entries@ == old(self).entries@.push(ListEntry { flink: 0, blink: 0 }),
            forall|h: u64, m: Seq<u64>|
                is_list(old(self).entries@, h, m) ==> #[trigger] is_list(
                    final(self).entries@,
                    h,
                    m,
                ),
    {
        let ghost before = self.entries@;
        self.entries.push(ListEntry::new());
        proof {
            assert forall|h: u64, m: Seq<u64>| is_list(before, h, m) implies #[trigger] is_list(
                self.entries@,
                h,
                m,
            ) by {
                let r = ring(h, m);
                assert forall|i: int| 0 <= i < r.len() implies #[trigger] valid(
                    self.entries@,
                    r[i],
                ) && at(self.entries@, r[i]) == at(before, r[i]) by {
                    assert(valid(before, r[i]));
                }
                assert forall|i: int| 0 <= i < r.len() implies #[trigger] linked(
                    self.entries@,
                    r,
                    i,
                ) by {
                    assert(linked(before, r, i));
                    assert(valid(self.entries@, r[i]));
                }
            }
        }
        self.entries.len() as u64
    }

    /// The record at an address.
    pub fn get(&self, a: u64) -> (e: ListEntry)
        requires
            valid(self.entries@, a),
        ensures
            e == at(self.entries@, a),
    {
        let n: usize = self.entries.len();
        self.entries[(a - 1) as usize]
    }

    fn put(&mut self, a: u64, e: ListEntry)
        requires
            valid(old(self).entries@, a),
        ensures
            final(self).entries@ == old(self).entries@.update(a - 1, e),
    {
        let n: usize = self.entries.len();
        self.entries.set((a - 1) as usize, e);
    }

    /// `InitializeListHead`: make a record the head of an empty list.
    pub fn init(&mut self, head: u64)
        requires
            valid(old(self).entries@, head),
        ensures
            final(self).entries@ == old(self).entries@.update(
                head - 1,
                ListEntry { flink: head, blink: head },
            ),
            is_list(final(self).entries@, head, Seq::empty()),
            is_head(final(self).entries@, head),
            members_of(final(self).entries@, head) == Seq::<u64>::empty(),
    {
        self.put(head, ListEntry { flink: head, blink: head });
        proof {
            assert(ring(head, Seq::empty()) =~= seq![head]);
            assert(linked(self.entries@, ring(head, Seq::empty()), 0));
            lemma_members(self.entries@, head, Seq::empty());
        }
    }

    /// `IsListEmpty`.
    pub fn is_empty(&self, head: u64) -> (r: bool)
        requires
            is_head(self.entries@, head),
        ensures
            r == (members_of(self.entries@, head).len() == 0),
    {
        proof {
            let m = members_of(self.entries@, head);
            let ring_ = ring(head, m);
            assert(ring_[0] == head);
            assert(valid(self.entries@, ring_[0]));
            assert(linked(self.entries@, ring_, 0));
            if m.len() > 0 {
                assert(ring_[0] != ring_[1]);
            }
        }
        self.get(head).flink == head
    }

    /// `InsertTailList`: link an entry before the head.
    pub fn insert_tail(&mut self, head: u64, entry: u64)
        requires
            is_head(old(self).entries@, head),
            valid(old(self).entries@, entry),
            entry != head,
            !members_of(old(self).entries@, head).contains(entry),
        ensures
            final(self).entries@.len() == old(self).entries@.len(),
            is_head(final(self).entries@, head),
            members_of(final(self).entries@, head) == members_of(old(self).entries@, head).push(
                entry,
            ),
    {
        let ghost es = self.entries@;
        let ghost m = members_of(es, head);
        let ghost r = ring(head, m);
        let ghost n = r.len() as int;
        proof {
            assert(r[0] == head && valid(es, r[0]) && linked(es, r, 0));
            assert(valid(es, r[n - 1]));
        }
        let mut h: ListEntry = self.get(head);
        let old_tail: u64 = h.blink;
        assert(old_tail == r[n - 1]);
        self.put(entry, ListEntry { flink: head, blink: old_tail });
        let ghost es1 = self.entries@;
        assert(at(es1, old_tail) == at(es, old_tail)) by {
            if n > 1 {
                assert(m.contains(m[n - 2]));
            }
        }
        let mut t: ListEntry = self.get(old_tail);
        t.flink = entry;
        self.put(old_tail, t);
        h = self.get(head);
        h.blink = entry;
        self.put(head, h);
        proof {
            let m2 = m.push(entry);
            let r2 = ring(head, m2);
            assert(r2 =~= r.push(entry));
            assert forall|i: int| 0 <= i < n implies r[i] != entry by {
                if i > 0 {
                    assert(m.contains(m[i - 1]));
                }
            }
            assert forall|i: int| 0 <= i < r2.len() implies #[trigger] valid(
                self.entries@,
                r2[i],
            ) by {
                if i < n {
                    assert(valid(es, r[i]));
                }
            }
            assert forall|i: int| 0 <= i < r2.len() implies #[trigger] linked(
                self.entries@,
                r2,
                i,
            ) by {
                if i < n {
                    assert(valid(es, r[i]));
                    assert(linked(es, r, i));
                    if 0 < i && i < n - 1 {
                        assert(r[i] != r[0]);
                        assert(r[i] != r[n - 1]);
                    }
                }
            }
            assert forall|i: int, j: int| 0 <= i < j < r2.len() implies #[trigger] r2[i]
                != #[trigger] r2[j] by {
                if j < n {
                    assert(r[i] != r[j]);
                }
            }
            lemma_members(self.entries@, head, m2);
        }
    }

    /// `InsertHeadList`: link an entry after the head.
    pub fn insert_head(&mut self, head: u64, entry: u64)
        requires
            is_head(old(self).entries@, head),
            valid(old(self).entries@, entry),
            entry != head,
            !members_of(old(self).entries@, head).contains(entry),
        ensures
            final(self).entries@.len() == old(self).entries@.len(),
            is_head(final(self).entries@, head),
            members_of(final(self).entries@, head) == seq![entry] + members_of(
                old(self).entries@,
                head,
            ),
    {
        let ghost es = self.entries@;
        let ghost m = members_of(es, head);
        let ghost r = ring(head, m);
        let ghost n = r.len() as int;
        proof {
            assert(r[0] == head && valid(es, r[0]) && linked(es, r, 0));
            assert(valid(es, r[next(0, n)]));
        }
        let mut h: ListEntry = self.get(head);
        let old_first: u64 = h.flink;
        assert(old_first == r[next(0, n)]);
        self.put(entry, ListEntry { flink: old_first, blink: head });
        assert(at(self.entries@, old_first) == at(es, old_first)) by {
            if n > 1 {
                assert(m.contains(m[0]));
            }
        }
        let mut f: ListEntry = self.get(old_first);
        f.blink = entry;
        self.put(old_first, f);
        h = self.get(head);
        h.flink = entry;
        self.put(head, h);
        proof {
            let m2 = seq![entry] + m;
            let r2 = ring(head, m2);
            assert forall|i: int| 0 <= i < n implies r[i] != entry by {
                if i > 0 {
                    assert(m.contains(m[i - 1]));
                }
            }
            assert(r2[0] == head && r2[1] == entry);
            assert forall|i: int| 2 <= i < r2.len() implies r2[i] == r[i - 1] by {}
            assert forall|i: int| 0 <= i < r2.len() implies #[trigger] valid(
                self.entries@,
                r2[i],
            ) by {
                if i >= 2 {
                    assert(valid(es, r[i - 1]));
                }
            }
            assert forall|i: int| 0 <= i < r2.len() implies #[trigger] linked(
                self.entries@,
                r2,
                i,
            ) by {
                if i >= 2 {
                    let k = i - 1;
                    assert(valid(es, r[k]));
                    assert(linked(es, r, k));
                    assert(r[0] != r[k]);
                    if k > 1 {
                        assert(r[1] != r[k]);
                    }
                }
            }
            assert forall|i: int, j: int| 0 <= i < j < r2.len() implies #[trigger] r2[i]
                != #[trigger] r2[j] by {
                if i == 0 && j >= 2 {
                    assert(r[0] != r[j - 1]);
                } else if i >= 2 {
                    assert(r[i - 1] != r[j - 1]);
                }
            }
            lemma_members(self.entries@, head, m2);
        }
    }

    /// `RemoveEntryList`: unlink an entry and clear its links.
    pub fn remove(&mut self, entry: u64)
        requires
            exists|h: u64| #[trigger]
                is_head(old(self).entries@, h) && members_of(old(self).entries@, h).contains(entry),
        ensures
            final(self).entries@.len() == old(self).entries@.len(),
            at(final(self).entries@, entry) == (ListEntry { flink: 0, blink: 0 }),
            forall|h: u64, k: int|
                #![trigger is_head(old(self).entries@, h), members_of(old(self).entries@, h)[k]]
                is_head(old(self).entries@, h) && 0 <= k < members_of(
                    old(self).entries@,
                    h,
                ).len() && members_of(old(self).entries@, h)[k] == entry ==> {
                    &&& is_head(final(self).entries@, h)
                    &&& members_of(final(self).entries@, h) == members_of(
                        old(self).entries@,
                        h,
                    ).remove(k)
                },
    {
        let ghost es = self.entries@;
        let ghost h0 = choose|h: u64| #[trigger]
            is_head(es, h) && members_of(es, h).contains(entry);
        let ghost m0 = members_of(es, h0);
        let ghost r0 = ring(h0, m0);
        let ghost n0 = r0.len() as int;
        let ghost k0 = choose|k: int| 0 <= k < m0.len() && m0[k] == entry;
        proof {
            assert(r0[k0 + 1] == entry);
            assert(valid(es, r0[k0 + 1]) && linked(es, r0, k0 + 1));
            assert(valid(es, r0[next(k0 + 1, n0)]));
            assert(valid(es, r0[prev(k0 + 1, n0)]));
            assert(r0[k0 + 1] != r0[prev(k0 + 1, n0)]);
            if k0 + 2 < n0 {
                assert(r0[k0 + 1] != r0[k0 + 2]);
            } else {
                assert(r0[0] != r0[k0 + 1]);
            }
        }
        let e: ListEntry = self.get(entry);
        let mut b: ListEntry = self.get(e.blink);
        b.flink = e.flink;
        self.put(e.blink, b);
        let mut f: ListEntry = self.get(e.flink);
        f.blink = e.blink;
        self.put(e.flink, f);
        self.put(entry, ListEntry { flink: 0, blink: 0 });
        proof {
            assert(self.entries@ == without(es, entry));
            assert forall|h: u64, k: int|
                #![trigger is_head(es, h), members_of(es, h)[k]]
                is_head(es, h) && 0 <= k < members_of(es, h).len() && members_of(es, h)[k]
                    == entry implies is_head(self.entries@, h) && members_of(self.entries@, h)
                == members_of(es, h).remove(k) by {
                lemma_removed(es, h, members_of(es, h), k);
            }
        }
    }

    /// `RemoveHeadList`: unlink and return the first entry, none of an empty list.
    pub fn remove_head(&mut self, head: u64) -> (r: Option<u64>)
        requires
            is_head(old(self).entries@, head),
        ensures
            final(self).entries@.len() == old(self).entries@.len(),
            is_head(final(self).entries@, head),
            ({
                let m = members_of(old(self).entries@, head);
                if m.len() == 0 {
                    r is None && final(self).entries@ == old(self).entries@
                } else {
                    &&& r == Some(m[0])
                    &&& members_of(final(self).entries@, head) == m.skip(1)
                    &&& at(final(self).entries@, m[0]) == (ListEntry { flink: 0, blink: 0 })
                }
            }),
    {
        if self.is_empty(head) {
            return None;
        }
        let ghost es = self.entries@;
        let ghost m = members_of(es, head);
        proof {
            let r = ring(head, m);
            assert(r[0] == head && r[1] == m[0]);
            assert(valid(es, r[0]));
            assert(m.contains(m[0]));
            assert(linked(es, r, 0));
        }
        let entry: u64 = self.get(head).flink;
        self.remove(entry);
        assert(is_head(es, head) && members_of(es, head)[0] == entry);
        assert(m.remove(0) =~= m.skip(1));
        Some(entry)
    }

    /// The members of a list in order, for a walk that does not unlink.
    pub fn for_each(&self, head: u64) -> (v: Vec<u64>)
        requires
            is_head(self.entries@, head),
        ensures
            v@ == members_of(self.entries@, head),
    {
        let ghost es = self.entries@;
        let ghost m = members_of(es, head);
        let ghost r = ring(head, m);
        let ghost n = r.len() as int;
        proof {
            assert(r[0] == head && valid(es, r[0]) && linked(es, r, 0));
        }
        let mut v: Vec<u64> = Vec::new();
        let mut cur: u64 = self.get(head).flink;
        let ghost mut i: int = 0;
        assert(m.take(0) =~= Seq::<u64>::empty());
        while cur != head
            invariant
                es == self.entries@,
                is_list(es, head, m),
                r == ring(head, m),
                n == r.len(),
                0 <= i < n,
                cur == r[next(i, n)],
                v@ == m.take(i),
            decreases n - i,
        {
            proof {
                assert(r[0] == head);
                assert(next(i, n) == i + 1);
                assert(valid(es, r[i + 1]));
                assert(m.take(i + 1) =~= m.take(i).push(m[i]));
            }
            v.push(cur);
            cur = self.get(cur).flink;
            proof {
                assert(linked(es, r, i + 1));
                i = i + 1;
            }
        }
        proof {
            if i + 1 < n {
                assert(r[0] != r[i + 1]);
            }
            assert(m.take(i) =~= m);
        }
        v
    }
}

/// The records after `entry` has been unlinked.
spec fn without(es: Seq<ListEntry>, entry: u64) -> Seq<ListEntry> {
    let e = at(es, entry);
    let es1 = es.update(e.blink - 1, ListEntry { flink: e.flink, ..at(es, e.blink) });
    let es2 = es1.update(e.flink - 1, ListEntry { blink: e.blink, ..at(es1, e.flink) });
    es2.update(entry - 1, ListEntry { flink: 0, blink: 0 })
}

proof fn lemma_without(es: Seq<ListEntry>, entry: u64, x: u64)
    requires
        valid(es, entry),
        valid(es, at(es, entry).flink),
        valid(es, at(es, entry).blink),
        valid(es, x),
        x != entry,
        at(es, entry).flink != entry,
        at(es, entry).blink != entry,
    ensures
        without(es, entry).len() == es.len(),
        at(without(es, entry), x).flink == if x == at(es, entry).blink {
            at(es, entry).flink
        } else {
            at(es, x).flink
        },
        at(without(es, entry), x).blink == if x == at(es, entry).flink {
            at(es, entry).blink
        } else {
            at(es, x).blink
        },
{
}

/// Where position `i` of a ring without position `p` stood in it.
spec fn widened(i: int, p: int) -> int {
    if i < p {
        i
    } else {
        i + 1
    }
}

proof fn lemma_distinct(es: Seq<ListEntry>, head: u64, m: Seq<u64>, i: int, j: int)
    requires
        is_list(es, head, m),
        0 <= i < m.len() + 1,
        0 <= j < m.len() + 1,
    ensures
        ring(head, m)[i] == ring(head, m)[j] ==> i == j,
{
    let r = ring(head, m);
    if i < j {
        assert(r[i] != r[j]);
    } else if j < i {
        assert(r[j] != r[i]);
    }
}

proof fn lemma_removed_links(es: Seq<ListEntry>, head: u64, m: Seq<u64>, k: int, i: int)
    requires
        is_list(es, head, m),
        0 <= k < m.len(),
        0 <= i < m.len(),
    ensures
        ({
            let r2 = ring(head, m.remove(k));
            &&& valid(without(es, m[k]), r2[i])
            &&& linked(without(es, m[k]), r2, i)
        }),
{
    let r = ring(head, m);
    let n = r.len() as int;
    let p = k + 1;
    let r2 = ring(head, m.remove(k));
    let a = widened(i, p);
    let lo = prev(p, n);
    let hi = next(p, n);
    let i2 = next(i, n - 1);
    let j2 = prev(i, n - 1);
    assert(r[p] == m[k]);
    assert(r2[i] == r[a]);
    assert(r2[i2] == r[widened(i2, p)]);
    assert(r2[j2] == r[widened(j2, p)]);
    assert(valid(es, r[p]) && valid(es, r[lo]) && valid(es, r[hi]) && valid(es, r[a]));
    assert(linked(es, r, p));
    assert(linked(es, r, a));
    lemma_distinct(es, head, m, a, p);
    lemma_distinct(es, head, m, a, lo);
    lemma_distinct(es, head, m, a, hi);
    lemma_distinct(es, head, m, hi, p);
    lemma_distinct(es, head, m, lo, p);
    lemma_without(es, m[k], r[a]);
}

proof fn lemma_removed(es: Seq<ListEntry>, head: u64, m: Seq<u64>, k: int)
    requires
        is_list(es, head, m),
        0 <= k < m.len(),
    ensures
        is_head(without(es, m[k]), head),
        members_of(without(es, m[k]), head) == m.remove(k),
{
    let out = without(es, m[k]);
    let m2 = m.remove(k);
    let r = ring(head, m);
    let r2 = ring(head, m2);
    assert forall|i: int| 0 <= i < r2.len() implies #[trigger] valid(out, r2[i]) by {
        lemma_removed_links(es, head, m, k, i);
    }
    assert forall|i: int| 0 <= i < r2.len() implies #[trigger] linked(out, r2, i) by {
        lemma_removed_links(es, head, m, k, i);
    }
    assert forall|i: int, j: int| 0 <= i < j < r2.len() implies #[trigger] r2[i]
        != #[trigger] r2[j] by {
        assert(r2[i] == r[widened(i, k + 1)]);
        assert(r2[j] == r[widened(j, k + 1)]);
        lemma_distinct(es, head, m, widened(i, k + 1), widened(j, k + 1));
    }
    lemma_members(out, head, m2);
}

} // verus!
