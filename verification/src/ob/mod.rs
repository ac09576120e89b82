//! The object manager.
//!
//! An object is a typed, reference-counted allocation: a header directly before
//! its body in one pool block. Pointers and handles each hold one reference; the
//! object dies exactly when the last one is dropped: first its type's delete
//! procedure runs, then its block goes back to the pool.
//!
//! The headers of the live objects are kept in one table, by body address.
pub mod handle;

use crate::mm::phys::PhysicalMemory;
use crate::mm::pool::{
    allocated, allocation_adds_one_block, apart, disjoint, live_index, pool_alloc_checked,
    pool_free, release_block, release_frames, sound_block, Pool, PoolBlock,
};
use crate::rtl::string::UnicodeString;
use crate::rtl::NtStatus;
use vstd::prelude::*;

verus! {

/// Pool tag of objects: `Obje`.
pub const TAG_OBJECT: u32 = 0x656A_624F;

/// Size of a header.
pub const HEADER_SIZE: usize = 24;

/// What is common to all objects of a type.
pub struct ObjectType {
    pub name: UnicodeString,
    /// Address of the procedure that is called with the body when the last
    /// reference is dropped.
    pub delete: Option<u64>,
}

/// The header of an object.
#[derive(Debug, Clone, Copy, PartialEq, Eq, Structural)]
pub struct ObjectHeader {
    /// Address of the body.
    pub body: u64,
    pub ref_count: i64,
    /// The type, by its place in the manager's list.
    pub object_type: usize,
    /// Size of header and body together, as far as 32 bits hold it.
    pub total_size: u32,
}

/// The object manager.
pub struct ObjectManager {
    pub types: Vec<ObjectType>,
    pub objects: Vec<ObjectHeader>,
}

/// What is left to do for an object whose last reference is gone: call its
/// type's procedure with the body, then free the object.
#[derive(Debug, Clone, Copy, PartialEq, Eq)]
pub struct Deletion {
    pub body: u64,
    pub delete: Option<u64>,
}

/// The place of the object with a body, from `i` on.
pub open spec fn found(objects: Seq<ObjectHeader>, body: u64, i: int) -> Option<int>
    decreases objects.len() - i,
{
    if i < 0 || i >= objects.len() {
        None
    } else if objects[i].body == body {
        Some(i)
    } else {
        found(objects, body, i + 1)
    }
}

/// An object is alive.
pub open spec fn alive(objects: Seq<ObjectHeader>, body: u64) -> bool {
    found(objects, body, 0) is Some
}

/// The reference count of an object, 0 for a dead one.
pub open spec fn refs(objects: Seq<ObjectHeader>, body: u64) -> int {
    match found(objects, body, 0) {
        Some(k) => objects[k].ref_count as int,
        None => 0,
    }
}

/// Live objects have different bodies and at least one reference each.
pub open spec fn objects_sound(objects: Seq<ObjectHeader>) -> bool {
    &&& forall|i: int, j: int|
        0 <= i < j < objects.len() ==> (#[trigger] objects[i]).body != (#[trigger] objects[j]).body
    &&& forall|i: int| 0 <= i < objects.len() ==> (#[trigger] objects[i]).ref_count >= 1
}

/// An object's block is one of the pool's blocks in use.
pub open spec fn backed(live: Seq<PoolBlock>, body: u64) -> bool {
    &&& body >= HEADER_SIZE
    &&& live_index(live, (body - HEADER_SIZE) as u64, 0) matches Some(k) && live[k].tag
        == TAG_OBJECT
}

/// Every live object stands in a pool block of its own.
pub open spec fn all_backed(objects: Seq<ObjectHeader>, live: Seq<PoolBlock>) -> bool {
    forall|i: int| 0 <= i < objects.len() ==> backed(live, (#[trigger] objects[i]).body)
}

/// The objects with one more reference to `body`.
pub open spec fn referenced(objects: Seq<ObjectHeader>, body: u64) -> Seq<ObjectHeader> {
    match found(objects, body, 0) {
        Some(k) => objects.update(
            k,
            ObjectHeader { ref_count: (objects[k].ref_count + 1) as i64, ..objects[k] },
        ),
        None => objects,
    }
}

/// The objects with one reference less to `body`, and whether it was the last.
pub open spec fn dereferenced(objects: Seq<ObjectHeader>, body: u64) -> (Seq<ObjectHeader>, bool) {
    match found(objects, body, 0) {
        Some(k) => if objects[k].ref_count == 1 {
            (objects.remove(k), true)
        } else {
            (
                objects.update(
                    k,
                    ObjectHeader { ref_count: (objects[k].ref_count - 1) as i64, ..objects[k] },
                ),
                false,
            )
        },
        None => (objects, false),
    }
}

pub proof fn lemma_found(objects: Seq<ObjectHeader>, body: u64, i: int)
    requires
        0 <= i,
    ensures
        match found(objects, body, i) {
            Some(k) => i <= k < objects.len() && objects[k].body == body,
            None => forall|k: int| i <= k < objects.len() ==> (#[trigger] objects[k]).body != body,
        },
    decreases objects.len() - i,
{
    if i < objects.len() && objects[i].body != body {
        lemma_found(objects, body, i + 1);
    }
}

/// In a sound table an object is found wherever it stands.
pub proof fn lemma_found_at(objects: Seq<ObjectHeader>, k: int)
    requires
        objects_sound(objects),
        0 <= k < objects.len(),
    ensures
        found(objects, objects[k].body, 0) == Some(k),
{
    lemma_found(objects, objects[k].body, 0);
    match found(objects, objects[k].body, 0) {
        Some(j) => {
            if j < k {
                assert(objects[j].body != objects[k].body);
            } else if k < j {
                assert(objects[k].body != objects[j].body);
            }
        },
        None => {},
    }
}

/// Taking a reference keeps the table sound and counts one more.
pub proof fn lemma_referenced(objects: Seq<ObjectHeader>, body: u64)
    requires
        objects_sound(objects),
        alive(objects, body),
        refs(objects, body) < i64::MAX,
    ensures
        objects_sound(referenced(objects, body)),
        forall|o: u64| #[trigger]
            refs(referenced(objects, body), o) == refs(objects, o) + if o == body {
                1int
            } else {
                0
            },
        forall|o: u64| #[trigger] alive(referenced(objects, body), o) == alive(objects, o),
{
    let r = referenced(objects, body);
    lemma_found(objects, body, 0);
    let k = found(objects, body, 0)->Some_0;
    assert(objects[k].ref_count >= 1);
    assert forall|i: int, j: int| 0 <= i < j < r.len() implies (#[trigger] r[i]).body != (
    #[trigger] r[j]).body by {
        assert(objects[i].body != objects[j].body);
    }
    assert forall|i: int| 0 <= i < r.len() implies (#[trigger] r[i]).ref_count >= 1 by {
        assert(objects[i].ref_count >= 1);
    }
    assert forall|o: u64| found(r, o, 0) == #[trigger] found(objects, o, 0) by {
        lemma_same_bodies(objects, r, o, 0);
    }
    assert forall|o: u64| #[trigger] refs(r, o) == refs(objects, o) + if o == body {
        1int
    } else {
        0
    } by {
        assert(found(r, o, 0) == found(objects, o, 0));
        lemma_found(objects, o, 0);
    }
    assert forall|o: u64| #[trigger] alive(r, o) == alive(objects, o) by {
        assert(found(r, o, 0) == found(objects, o, 0));
    }
}

proof fn lemma_same_bodies(a: Seq<ObjectHeader>, b: Seq<ObjectHeader>, o: u64, i: int)
    requires
        0 <= i,
        a.len() == b.len(),
        forall|k: int| 0 <= k < a.len() ==> (#[trigger] a[k]).body == b[k].body,
    ensures
        found(a, o, i) == found(b, o, i),
    decreases a.len() - i,
{
    if i < a.len() {
        assert(a[i].body == b[i].body);
        lemma_same_bodies(a, b, o, i + 1);
    }
}

/// Dropping a reference keeps the table sound and counts one less; the object is
/// gone exactly when it was the last.
pub proof fn lemma_dereferenced(objects: Seq<ObjectHeader>, body: u64)
    requires
        objects_sound(objects),
        alive(objects, body),
    ensures
        objects_sound(dereferenced(objects, body).0),
        dereferenced(objects, body).1 == (refs(objects, body) == 1),
        forall|o: u64| #[trigger]
            refs(dereferenced(objects, body).0, o) == refs(objects, o) - if o == body {
                1int
            } else {
                0
            },
        forall|o: u64| #[trigger]
            alive(dereferenced(objects, body).0, o) == (alive(objects, o) && !(o == body && refs(
                objects,
                body,
            ) == 1)),
{
    let (r, last) = dereferenced(objects, body);
    lemma_found(objects, body, 0);
    let k = found(objects, body, 0)->Some_0;
    assert(objects[k].ref_count >= 1);
    if last {
        assert forall|i: int| 0 <= i < r.len() implies #[trigger] r[i] == objects[if i < k {
            i
        } else {
            i + 1
        }] by {}
        assert forall|i: int, j: int| 0 <= i < j < r.len() implies (#[trigger] r[i]).body != (
        #[trigger] r[j]).body by {
            let a = if i < k {
                i
            } else {
                i + 1
            };
            let b = if j < k {
                j
            } else {
                j + 1
            };
            assert(objects[a].body != objects[b].body);
        }
        assert forall|i: int| 0 <= i < r.len() implies (#[trigger] r[i]).ref_count >= 1 by {
            assert(objects[if i < k {
                i
            } else {
                i + 1
            }].ref_count >= 1);
        }
        assert forall|o: u64| (#[trigger] refs(r, o)) == refs(objects, o) - (if o == body {
            1int
        } else {
            0
        }) && alive(r, o) == (alive(objects, o) && o != body) by {
            lemma_found(r, o, 0);
            lemma_found(objects, o, 0);
            match found(r, o, 0) {
                Some(i) => {
                    let a = if i < k {
                        i
                    } else {
                        i + 1
                    };
                    assert(objects[a].body == o);
                    lemma_found_at(objects, a);
                },
                None => {
                    match found(objects, o, 0) {
                        Some(a) => {
                            if a != k {
                                let i = if a < k {
                                    a
                                } else {
                                    a - 1
                                };
                                assert(r[i].body == o);
                            }
                        },
                        None => {},
                    }
                },
            }
        }
        assert forall|o: u64| #[trigger] alive(r, o) == (alive(objects, o) && !(o == body && refs(
            objects,
            body,
        ) == 1)) by {
            assert(refs(r, o) == refs(objects, o) - (if o == body {
                1int
            } else {
                0
            }));
        }
    } else {
        assert forall|i: int, j: int| 0 <= i < j < r.len() implies (#[trigger] r[i]).body != (
        #[trigger] r[j]).body by {
            assert(objects[i].body != objects[j].body);
        }
        assert forall|i: int| 0 <= i < r.len() implies (#[trigger] r[i]).ref_count >= 1 by {
            assert(objects[i].ref_count >= 1);
        }
        assert forall|o: u64| found(r, o, 0) == #[trigger] found(objects, o, 0) by {
            lemma_same_bodies(objects, r, o, 0);
        }
        assert forall|o: u64| #[trigger] refs(r, o) == refs(objects, o) - if o == body {
            1int
        } else {
            0
        } by {
            assert(found(r, o, 0) == found(objects, o, 0));
            lemma_found(objects, o, 0);
        }
        assert forall|o: u64| #[trigger] alive(r, o) == (alive(objects, o) && !(o == body && refs(
            objects,
            body,
        ) == 1)) by {
            assert(found(r, o, 0) == found(objects, o, 0));
        }
    }
}

impl ObjectManager {
    pub open spec fn wf(&self) -> bool {
        &&& objects_sound(self.objects@)
        &&& forall|i: int|
            0 <= i < self.objects@.len() ==> (#[trigger] self.objects@[i]).object_type
                < self.types@.len()
    }

    /// No types and no objects.
    pub fn new() -> (om: Self)
        ensures
            om.wf(),
            om.objects@ == Seq::<ObjectHeader>::empty(),
            om.types@ == Seq::<ObjectType>::empty(),
    {
        ObjectManager { types: Vec::new(), objects: Vec::new() }
    }

    /// Register a type.
    pub fn add_type(&mut self, t: ObjectType) -> (id: usize)
        requires
            old(self).wf(),
        ensures
            final(self).wf(),
            id == old(self).types@.len(),
            final(self).types@ == old(self).types@.push(t),
            final(self).objects@ == old(self).objects@,
    {
        let id: usize = self.types.len();
        self.types.push(t);
        id
    }

    fn find(&self, body: u64) -> (r: Option<usize>)
        ensures
            match r {
                Some(k) => found(self.objects@, body, 0) == Some(k as int) && k
                    < self.objects@.len(),
                None => found(self.objects@, body, 0) is None,
            },
    {
        let mut i: usize = 0;
        while i < self.objects.len()
            invariant
                i <= self.objects@.len(),
                found(self.objects@, body, 0) == found(self.objects@, body, i as int),
            decreases self.objects@.len() - i,
        {
            if self.objects[i].body == body {
                return Some(i);
            }
            i = i + 1;
        }
        None
    }
}

proof fn lemma_live_index(live: Seq<PoolBlock>, ptr: u64, i: int)
    requires
        0 <= i,
    ensures
        match live_index(live, ptr, i) {
            Some(k) => i <= k < live.len() && live[k].at + 16 == ptr,
            None => forall|k: int| i <= k < live.len() ==> (#[trigger] live[k]).at + 16 != ptr,
        },
    decreases live.len() - i,
{
    if i < live.len() && live[i].at + 16 != ptr {
        lemma_live_index(live, ptr, i + 1);
    }
}

proof fn lemma_live_index_push(live: Seq<PoolBlock>, b: PoolBlock, ptr: u64, i: int)
    requires
        0 <= i,
        live_index(live, ptr, i) is Some,
    ensures
        live_index(live.push(b), ptr, i) == live_index(live, ptr, i),
    decreases live.len() - i,
{
    if i < live.len() {
        assert(live.push(b)[i] == live[i]);
        if live[i].at + 16 != ptr {
            lemma_live_index_push(live, b, ptr, i + 1);
        }
    }
}

/// In a pool whose blocks do not overlap a block is found wherever it stands.
proof fn lemma_live_index_at(live: Seq<PoolBlock>, bits: Seq<bool>, k: int)
    requires
        apart(live),
        forall|i: int| 0 <= i < live.len() ==> #[trigger] sound_block(bits, live[i]),
        0 <= k < live.len(),
    ensures
        live[k].at + 16 <= u64::MAX ==> live_index(live, (live[k].at + 16) as u64, 0) == Some(k),
{
    if live[k].at + 16 <= u64::MAX {
        lemma_live_index(live, (live[k].at + 16) as u64, 0);
        match live_index(live, (live[k].at + 16) as u64, 0) {
            Some(j) => {
                if j != k {
                    assert(disjoint(live[j], live[k]));
                    assert(sound_block(bits, live[j]) && sound_block(bits, live[k]));
                }
            },
            None => {},
        }
    }
}

/// Size of header and body.
pub open spec fn object_size(body_size: int) -> int {
    HEADER_SIZE + body_size
}

/// `ObCreateObject`: allocate header and body in one pool block. The body is
/// `body_size` bytes; its address is returned, with the creator's reference held.
pub fn ob_create_object(
    om: &mut ObjectManager,
    pool: &mut Pool,
    memory: &mut PhysicalMemory,
    object_type: usize,
    body_size: usize,
) -> (r: Result<u64, NtStatus>)
    requires
        old(om).wf(),
        old(pool).wf(old(memory)),
        old(pool).allocations < u64::MAX,
        all_backed(old(om).objects@, old(pool)@.live),
        object_type < old(om).types@.len(),
        body_size <= usize::MAX - HEADER_SIZE,
    ensures
        final(om).wf(),
        final(pool).wf(final(memory)),
        final(om).types@ == old(om).types@,
        all_backed(final(om).objects@, final(pool)@.live),
        ({
            let (p, m, raw) = allocated(
                old(pool)@,
                old(memory)@,
                object_size(body_size as int),
                TAG_OBJECT,
            );
            &&& final(pool)@ == p
            &&& final(memory)@ == m
            &&& match r {
                Ok(body) => {
                    &&& raw == Some((body - HEADER_SIZE) as u64)
                    &&& body >= HEADER_SIZE
                    &&& final(om).objects@ == old(om).objects@.push(
                        ObjectHeader {
                            body,
                            ref_count: 1,
                            object_type,
                            total_size: (object_size(body_size as int) % 0x1_0000_0000) as u32,
                        },
                    )
                    &&& !alive(old(om).objects@, body)
                },
                Err(e) => {
                    &&& raw is None
                    &&& e == NtStatus(NtStatus::INSUFFICIENT_RESOURCES)
                    &&& final(om).objects@ == old(om).objects@
                },
            }
        }),
{
    let ghost st = pool@;
    let ghost mem = memory@;
    let ghost objs = om.objects@;
    let ram_len: usize = memory.ram.len();
    let total: usize = HEADER_SIZE + body_size;
    proof {
        assert(mem.bits.len() * 4096 <= ram_len);
        allocation_adds_one_block(st, mem, total as int, TAG_OBJECT);
    }
    let raw: u64 = match pool_alloc_checked(pool, memory, total, TAG_OBJECT) {
        Ok(p) => p,
        Err(e) => {
            return Err(e);
        },
    };
    let ghost b = pool@.live.last();
    proof {
        assert(pool@.live == st.live.push(b));
        assert(raw + HEADER_SIZE <= u64::MAX) by {
            assert(b.at + b.size <= mem.bits.len() * 4096);
        }
    }
    let body: u64 = raw + HEADER_SIZE as u64;
    let n: usize = om.objects.len();
    om.objects.push(
        ObjectHeader {
            body,
            ref_count: 1,
            object_type,
            total_size: (total as u64 % 0x1_0000_0000) as u32,
        },
    );
    proof {
        let r = om.objects@;
        let live = pool@.live;
        assert forall|i: int| 0 <= i < live.len() implies #[trigger] sound_block(
            memory@.bits,
            live[i],
        ) by {
            assert(sound_block(memory@.bits, live[i]));
        }
        let last = live.len() - 1;
        assert(live[last] == b);
        lemma_live_index_at(live, memory@.bits, last);
        assert forall|i: int| 0 <= i < objs.len() implies (#[trigger] objs[i]).body != body
            && backed(live, objs[i].body) by {
            let ptr = (objs[i].body - HEADER_SIZE) as u64;
            assert(backed(st.live, objs[i].body));
            lemma_live_index(st.live, ptr, 0);
            lemma_live_index_push(st.live, b, ptr, 0);
            let k = live_index(st.live, ptr, 0)->Some_0;
            assert(live[k] == st.live[k]);
            assert(disjoint(live[k], live[last]));
            assert(sound_block(memory@.bits, live[k]) && sound_block(memory@.bits, live[last]));
        }
        assert forall|i: int| 0 <= i < r.len() implies backed(live, (#[trigger] r[i]).body) by {
            if i < objs.len() {
                assert(backed(live, objs[i].body));
            }
        }
        lemma_found(objs, body, 0);
        if let Some(k) = found(objs, body, 0) {
            assert(objs[k].body == body);
        }
    }
    Ok(body)
}

/// `ObReferenceObject`: take one more reference to a live object.
pub fn ob_reference_object(om: &mut ObjectManager, body: u64)
    requires
        old(om).wf(),
        alive(old(om).objects@, body),
        refs(old(om).objects@, body) < i64::MAX,
    ensures
        final(om).wf(),
        final(om).types@ == old(om).types@,
        final(om).objects@ == referenced(old(om).objects@, body),
{
    proof {
        lemma_referenced(om.objects@, body);
    }
    match om.find(body) {
        Some(k) => {
            let mut h: ObjectHeader = om.objects[k];
            h.ref_count = h.ref_count + 1;
            om.objects.set(k, h);
        },
        None => {},
    }
}

/// `ObDereferenceObject`: drop a reference. After the last one the object is to
/// be deleted and freed.
pub fn ob_dereference_object(om: &mut ObjectManager, body: u64) -> (r: Option<Deletion>)
    requires
        old(om).wf(),
        alive(old(om).objects@, body),
    ensures
        final(om).wf(),
        final(om).types@ == old(om).types@,
        ({
            let (objects, last) = dereferenced(old(om).objects@, body);
            let k = found(old(om).objects@, body, 0)->Some_0;
            &&& final(om).objects@ == objects
            &&& r == if last {
                Some(
                    Deletion {
                        body,
                        delete: old(om).types@[old(
                            om,
                        ).objects@[k].object_type as int].delete,
                    },
                )
            } else {
                None
            }
        }),
{
    proof {
        lemma_dereferenced(om.objects@, body);
    }
    match om.find(body) {
        Some(k) => {
            let mut h: ObjectHeader = om.objects[k];
            assert(om.objects@[k as int].ref_count >= 1);
            if h.ref_count == 1 {
                let delete: Option<u64> = om.types[h.object_type].delete;
                let _ = om.objects.remove(k);
                Some(Deletion { body, delete })
            } else {
                h.ref_count = h.ref_count - 1;
                om.objects.set(k, h);
                None
            }
        },
        None => None,
    }
}

/// Give the block of a deleted object back to the pool.
pub fn ob_free_object(
    om: &ObjectManager,
    pool: &mut Pool,
    memory: &mut PhysicalMemory,
    body: u64,
)
    requires
        om.wf(),
        old(pool).wf(old(memory)),
        !alive(om.objects@, body),
        body > HEADER_SIZE,
        backed(old(pool)@.live, body),
    ensures
        final(pool).wf(final(memory)),
        final(pool)@ == release_block(
            old(pool)@,
            live_index(old(pool)@.live, (body - HEADER_SIZE) as u64, 0)->Some_0,
        ),
        final(memory)@ == release_frames(
            old(memory)@,
            old(pool)@.live[live_index(
                old(pool)@.live,
                (body - HEADER_SIZE) as u64,
                0,
            )->Some_0],
        ),
        all_backed(om.objects@, old(pool)@.live) ==> all_backed(om.objects@, final(pool)@.live),
{
    let ghost live = pool@.live;
    let ghost ptr = (body - HEADER_SIZE) as u64;
    proof {
        lemma_live_index(live, ptr, 0);
    }
    pool_free(pool, memory, body - HEADER_SIZE as u64, TAG_OBJECT);
    proof {
        let k = live_index(live, ptr, 0)->Some_0;
        let rest = pool@.live;
        let objs = om.objects@;
        assert(rest == live.remove(k));
        assert forall|i: int| 0 <= i < rest.len() implies #[trigger] sound_block(
            memory@.bits,
            rest[i],
        ) by {
            assert(sound_block(memory@.bits, rest[i]));
        }
        if all_backed(objs, live) {
            assert forall|i: int| 0 <= i < objs.len() implies backed(
                rest,
                (#[trigger] objs[i]).body,
            ) by {
                let p = (objs[i].body - HEADER_SIZE) as u64;
                assert(backed(live, objs[i].body));
                lemma_live_index(live, p, 0);
                let j = live_index(live, p, 0)->Some_0;
                lemma_found(objs, body, 0);
                assert(objs[i].body != body);
                let at = if j < k {
                    j
                } else {
                    j - 1
                };
                assert(rest[at] == live[j]);
                lemma_live_index_at(rest, memory@.bits, at);
            }
        }
    }
}

/// Check an object against an expected type.
pub fn ob_check_type(om: &ObjectManager, body: u64, expected: usize) -> (r: Result<(), NtStatus>)
    requires
        alive(om.objects@, body),
    ensures
        r == if om.objects@[found(om.objects@, body, 0)->Some_0].object_type == expected {
            Ok(())
        } else {
            Err(NtStatus(NtStatus::OBJECT_TYPE_MISMATCH))
        },
{
    match om.find(body) {
        Some(k) => {
            if om.objects[k].object_type == expected {
                Ok(())
            } else {
                Err(NtStatus(NtStatus::OBJECT_TYPE_MISMATCH))
            }
        },
        None => Err(NtStatus(NtStatus::OBJECT_TYPE_MISMATCH)),
    }
}

/// The reference count of a live object.
pub fn ob_ref_count(om: &ObjectManager, body: u64) -> (n: i64)
    requires
        alive(om.objects@, body),
    ensures
        n == refs(om.objects@, body),
{
    proof {
        lemma_found(om.objects@, body, 0);
    }
    match om.find(body) {
        Some(k) => om.objects[k].ref_count,
        None => 0,
    }
}

/// A reference taken and dropped leaves everything as it was.
pub proof fn a_reference_is_undone(objects: Seq<ObjectHeader>, body: u64)
    requires
        objects_sound(objects),
        alive(objects, body),
        refs(objects, body) < i64::MAX,
    ensures
        dereferenced(referenced(objects, body), body) == (objects, false),
{
    lemma_found(objects, body, 0);
    let k = found(objects, body, 0)->Some_0;
    let r = referenced(objects, body);
    lemma_same_bodies(objects, r, body, 0);
    assert(objects[k].ref_count >= 1);
    assert(dereferenced(r, body).0 =~= objects);
}

/// A new object has one reference, and dropping it is the end of the object.
pub proof fn a_new_object_dies_with_its_first_reference(objects: Seq<ObjectHeader>, h: ObjectHeader)
    requires
        objects_sound(objects),
        h.ref_count == 1,
        !alive(objects, h.body),
    ensures
        refs(objects.push(h), h.body) == 1,
        dereferenced(objects.push(h), h.body) == (objects, true),
{
    let r = objects.push(h);
    lemma_found(objects, h.body, 0);
    assert(objects_sound(r));
    assert(r[objects.len() as int] == h);
    lemma_found_at(r, objects.len() as int);
    assert(r.remove(objects.len() as int) =~= objects);
}

/// Taking a reference counts one more for its object and leaves every other as it is.
pub proof fn taking_a_reference_counts_one_more(objects: Seq<ObjectHeader>, body: u64, o: u64)
    requires
        objects_sound(objects),
        alive(objects, body),
        refs(objects, body) < i64::MAX,
    ensures
        refs(referenced(objects, body), body) == refs(objects, body) + 1,
        o != body ==> refs(referenced(objects, body), o) == refs(objects, o),
        alive(referenced(objects, body), o) == alive(objects, o),
{
    lemma_referenced(objects, body);
}

/// Giving a reference back counts one less. An object goes away with its last reference, and
/// only then, and no other object does.
pub proof fn giving_a_reference_back_counts_one_less(
    objects: Seq<ObjectHeader>,
    body: u64,
    o: u64,
)
    requires
        objects_sound(objects),
        alive(objects, body),
    ensures
        ({
            let (after, last) = dereferenced(objects, body);
            &&& last == (refs(objects, body) == 1)
            &&& alive(after, body) == (refs(objects, body) > 1)
            &&& refs(after, body) == refs(objects, body) - 1
            &&& o != body ==> refs(after, o) == refs(objects, o) && alive(after, o) == alive(
                objects,
                o,
            )
        }),
{
    lemma_dereferenced(objects, body);
    lemma_found(objects, body, 0);
    let k = found(objects, body, 0)->Some_0;
    assert(objects[k].ref_count >= 1);
}

/// Only the count of an object changes while it is referenced.
pub proof fn a_reference_changes_only_the_count(objects: Seq<ObjectHeader>, body: u64, i: int)
    requires
        0 <= i < objects.len(),
    ensures
        referenced(objects, body).len() == objects.len(),
        referenced(objects, body)[i].body == objects[i].body,
        referenced(objects, body)[i].object_type == objects[i].object_type,
        referenced(objects, body)[i].total_size == objects[i].total_size,
{
    lemma_found(objects, body, 0);
}

/// An object takes its body and a header of 24 bytes.
pub proof fn an_object_takes_its_body_and_a_header(n: int)
    ensures
        object_size(n) == n + 24,
{
}

} // verus!
