use vstd::prelude::*;

use crate::object::{obj_refs, value_refs, GcObject, Obj};
use crate::value::Value;

verus! {

/// A reference to a heap slot.
#[derive(Debug, Copy, Clone, PartialEq, Eq, Hash, Structural)]
pub struct GcRef(pub usize);

/// The factor by which the heap and the collection threshold grow.
pub const GC_HEAP_GROW_FACTOR: usize = 2;

/// The number of slots of a new heap, and its first collection threshold.
pub const GC_INITIAL_CAPACITY: usize = 1024;

/// A mark-and-sweep heap. Freed slots are reused before new ones are taken.
pub struct Gc {
    pub objects: Vec<Option<GcObject>>,
    pub capacity: usize,
    pub object_count: usize,
    pub free_slots: Vec<usize>,
    pub gray_stack: Vec<usize>,
    pub bytes_allocated: usize,
    pub next_gc: usize,
}

/// The number of occupied slots.
pub open spec fn live_count(s: Seq<Option<GcObject>>) -> nat
    decreases s.len(),
{
    if s.len() == 0 {
        0
    } else {
        live_count(s.drop_last()) + if s.last() is Some {
            1nat
        } else {
            0nat
        }
    }
}

/// The number of occupied slots whose object is not marked.
pub open spec fn unmarked_count(s: Seq<Option<GcObject>>) -> nat
    decreases s.len(),
{
    if s.len() == 0 {
        0
    } else {
        unmarked_count(s.drop_last()) + if s.last() is Some && !s.last().unwrap().is_marked {
            1nat
        } else {
            0nat
        }
    }
}

pub open spec fn slot_live(x: Option<GcObject>) -> nat {
    if x is Some {
        1
    } else {
        0
    }
}

pub open spec fn slot_unmarked(x: Option<GcObject>) -> nat {
    if x is Some && !x.unwrap().is_marked {
        1
    } else {
        0
    }
}

pub proof fn lemma_counts_update(s: Seq<Option<GcObject>>, i: int, x: Option<GcObject>)
    requires
        0 <= i < s.len(),
    ensures
        live_count(s.update(i, x)) + slot_live(s[i]) == live_count(s) + slot_live(x),
        unmarked_count(s.update(i, x)) + slot_unmarked(s[i]) == unmarked_count(s) + slot_unmarked(
            x,
        ),
    decreases s.len(),
{
    let u = s.update(i, x);
    if i == s.len() - 1 {
        assert(u.drop_last() =~= s.drop_last());
    } else {
        lemma_counts_update(s.drop_last(), i, x);
        assert(u.drop_last() =~= s.drop_last().update(i, x));
    }
}

pub proof fn lemma_counts_bound(s: Seq<Option<GcObject>>)
    ensures
        live_count(s) <= s.len(),
        unmarked_count(s) <= s.len(),
    decreases s.len(),
{
    if s.len() > 0 {
        lemma_counts_bound(s.drop_last());
    }
}

pub proof fn lemma_counts_push_none(s: Seq<Option<GcObject>>)
    ensures
        live_count(s.push(None)) == live_count(s),
        unmarked_count(s.push(None)) == unmarked_count(s),
{
    assert(s.push(None).drop_last() =~= s);
}

/// `path` is a chain of references in `gc`: each slot on it but the last
/// holds an object that refers to the next.
pub open spec fn is_path(gc: Gc, path: Seq<usize>) -> bool {
    forall|k: int|
        0 <= k < path.len() - 1 ==> gc.is_live(path[k]) && obj_refs(#[trigger] gc.obj_at(path[k])).contains(
            path[k + 1],
        )
}

/// A chain of references in `gc` leads from `from` to `to`.
pub open spec fn reaches(gc: Gc, from: usize, to: usize) -> bool {
    exists|path: Seq<usize>| #[trigger] is_path(gc, path) && path.len() > 0 && path[0] == from && path.last() == to
}

/// Some marked object of `gc` reaches `i`.
pub open spec fn reachable_from_marked(gc: Gc, i: usize) -> bool {
    exists|m: usize| gc.marked(m) && #[trigger] reaches(gc, m, i)
}

/// Every slot reaches itself.
pub proof fn lemma_reaches_self(gc: Gc, i: usize)
    ensures
        reaches(gc, i, i),
{
    let p = seq![i];
    assert(is_path(gc, p));
}

/// A chain that reaches a live object extends to what that object refers to.
pub proof fn lemma_reaches_step(gc: Gc, from: usize, mid: usize, to: usize)
    requires
        reaches(gc, from, mid),
        gc.is_live(mid),
        obj_refs(gc.obj_at(mid)).contains(to),
    ensures
        reaches(gc, from, to),
{
    let p = choose|p: Seq<usize>| #[trigger] is_path(gc, p) && p.len() > 0 && p[0] == from && p.last() == mid;
    let q = p.push(to);
    assert forall|k: int| 0 <= k < q.len() - 1 implies gc.is_live(q[k]) && obj_refs(
        #[trigger] gc.obj_at(q[k]),
    ).contains(q[k + 1]) by {
        if k < p.len() - 1 {
            assert(q[k] == p[k] && q[k + 1] == p[k + 1]);
            assert(gc.obj_at(p[k]) == gc.obj_at(q[k]));
        } else {
            assert(q[k] == mid);
        }
    }
    assert(is_path(gc, q));
}

/// Two heaps with the same objects have the same chains of references.
pub proof fn lemma_same_objects_reaches(a: Gc, b: Gc, from: usize, to: usize)
    requires
        forall|i: usize| #[trigger] a.is_live(i) == b.is_live(i),
        forall|i: usize| a.is_live(i) ==> #[trigger] a.obj_at(i) == b.obj_at(i),
        reaches(a, from, to),
    ensures
        reaches(b, from, to),
{
    let p = choose|p: Seq<usize>| #[trigger] is_path(a, p) && p.len() > 0 && p[0] == from && p.last() == to;
    assert(is_path(a, p));
    assert forall|k: int| 0 <= k < p.len() - 1 implies b.is_live(p[k]) && obj_refs(
        #[trigger] b.obj_at(p[k]),
    ).contains(p[k + 1]) by {
        assert(a.is_live(p[k]) && obj_refs(a.obj_at(p[k])).contains(p[k + 1]));
        assert(b.is_live(p[k]));
        assert(b.obj_at(p[k]) == a.obj_at(p[k]));
    }
    assert(is_path(b, p));
}

/// What a collection leaves: a well-formed heap without marks that holds
/// every object that was marked, no object that was not there, and each
/// object that it holds unchanged.
pub open spec fn collected(before: Gc, after: Gc) -> bool {
    &&& after.wf()
    &&& after.unmarked()
    &&& forall|i: usize| #[trigger] before.marked(i) ==> after.is_live(i)
    &&& forall|i: usize| #[trigger] after.is_live(i) ==> before.is_live(i)
    &&& forall|i: usize| after.is_live(i) ==> #[trigger] after.obj_at(i) == before.obj_at(i)
}

proof fn lemma_path_survives(before: Gc, after: Gc, path: Seq<usize>, k: int)
    requires
        after.wf(),
        forall|i: usize| after.is_live(i) ==> #[trigger] after.obj_at(i) == before.obj_at(i),
        is_path(before, path),
        0 <= k < path.len(),
        after.is_live(path[0]),
    ensures
        after.is_live(path[k]),
    decreases k,
{
    if k > 0 {
        lemma_path_survives(before, after, path, k - 1);
        let prev = path[k - 1];
        assert(obj_refs(before.obj_at(prev)).contains(path[k]));
        assert(after.obj_at(prev) == before.obj_at(prev));
        assert(after.all_live(obj_refs(after.obj_at(prev))));
    }
}

/// In a heap where no object refers to a free slot, whatever a live object
/// reaches is live.
pub proof fn lemma_reaches_live(gc: Gc, from: usize, to: usize)
    requires
        gc.wf(),
        gc.is_live(from),
        reaches(gc, from, to),
    ensures
        gc.is_live(to),
{
    let p = choose|p: Seq<usize>| #[trigger] is_path(gc, p) && p.len() > 0 && p[0] == from && p.last() == to;
    lemma_path_survives(gc, gc, p, p.len() - 1);
}

/// A collection frees nothing that a marked object reaches.
pub proof fn lemma_collection_keeps_reachable(before: Gc, after: Gc, from: usize, to: usize)
    requires
        collected(before, after),
        before.marked(from),
        reaches(before, from, to),
    ensures
        after.is_live(to),
        after.obj_at(to) == before.obj_at(to),
{
    let p = choose|p: Seq<usize>| #[trigger] is_path(before, p) && p.len() > 0 && p[0] == from && p.last() == to;
    lemma_path_survives(before, after, p, p.len() - 1);
}

impl Gc {
    pub open spec fn is_live(&self, i: usize) -> bool {
        (i as int) < self.objects@.len() && self.objects@[i as int] is Some
    }

    pub open spec fn obj_at(&self, i: usize) -> Obj {
        self.objects@[i as int].unwrap().obj
    }

    pub open spec fn marked(&self, i: usize) -> bool {
        self.is_live(i) && self.objects@[i as int].unwrap().is_marked
    }

    /// Every slot in `s` holds an object.
    pub open spec fn all_live(&self, s: Set<usize>) -> bool {
        forall|j: usize| #[trigger] s.contains(j) ==> self.is_live(j)
    }

    /// Every slot in `s` holds a marked object.
    pub open spec fn all_marked(&self, s: Set<usize>) -> bool {
        forall|j: usize| #[trigger] s.contains(j) ==> self.marked(j)
    }

    /// No object refers to a free slot.
    pub open spec fn closed(&self) -> bool {
        forall|i: usize| #[trigger] self.is_live(i) ==> self.all_live(obj_refs(self.obj_at(i)))
    }

    /// Every marked object that is not waiting on the gray stack, other than
    /// the one at `except`, refers only to marked objects.
    pub open spec fn tricolor_except(&self, except: int) -> bool {
        forall|i: usize|
            #[trigger] self.marked(i) && !self.gray_stack@.contains(i) && i != except
                ==> self.all_marked(obj_refs(self.obj_at(i)))
    }

    /// The bookkeeping of the heap, without the marking invariant.
    pub open spec fn wf_core(&self) -> bool {
        &&& self.objects@.len() == self.capacity
        &&& 1 <= self.capacity
        &&& self.object_count <= self.capacity
        &&& forall|i: int| self.object_count <= i < self.capacity ==> self.objects@[i] is None
        &&& forall|k: int|
            0 <= k < self.free_slots@.len() ==> #[trigger] self.free_slots@[k] < self.object_count
                && self.objects@[self.free_slots@[k] as int] is None
        &&& forall|k1: int, k2: int|
            0 <= k1 < k2 < self.free_slots@.len() ==> #[trigger] self.free_slots@[k1]
                != #[trigger] self.free_slots@[k2]
        &&& forall|k: int|
            0 <= k < self.gray_stack@.len() ==> self.marked(#[trigger] self.gray_stack@[k])
        &&& self.closed()
        &&& self.bytes_allocated == live_count(self.objects@)
    }

    pub open spec fn wf(&self) -> bool {
        self.wf_core() && self.tricolor_except(-1)
    }

    /// No object is marked and none waits on the gray stack.
    pub open spec fn unmarked(&self) -> bool {
        &&& self.gray_stack@.len() == 0
        &&& forall|i: usize| !#[trigger] self.marked(i)
    }

    /// The same objects in the same slots, whatever their marks.
    pub open spec fn same_objects(&self, other: &Gc) -> bool {
        &&& self.objects@.len() == other.objects@.len()
        &&& forall|i: usize| #[trigger] self.is_live(i) == other.is_live(i)
        &&& forall|i: usize| self.is_live(i) ==> #[trigger] self.obj_at(i) == other.obj_at(i)
        &&& self.capacity == other.capacity
        &&& self.object_count == other.object_count
        &&& self.free_slots@ == other.free_slots@
        &&& self.bytes_allocated == other.bytes_allocated
        &&& self.next_gc == other.next_gc
    }

    /// Two heaps whose contents are equal are alike in every property.
    pub proof fn lemma_same_views(a: &Gc, b: &Gc)
        requires
            a.objects@ == b.objects@,
            a.gray_stack@ == b.gray_stack@,
            a.free_slots@ == b.free_slots@,
            a.capacity == b.capacity,
            a.object_count == b.object_count,
            a.bytes_allocated == b.bytes_allocated,
        ensures
            b.wf() ==> a.wf(),
            b.unmarked() ==> a.unmarked(),
            a.next_gc == b.next_gc ==> a.same_objects(b),
            forall|i: usize| #[trigger] a.marked(i) == b.marked(i),
    {
        assert forall|i: usize| #[trigger] a.marked(i) == b.marked(i) by {
            assert(a.is_live(i) == b.is_live(i));
        }
        if b.wf() {
            assert forall|i: usize| #[trigger] a.is_live(i) implies a.all_live(obj_refs(a.obj_at(i))) by {
                assert(b.is_live(i));
            }
            assert forall|k: int| 0 <= k < a.gray_stack@.len() implies a.marked(
                #[trigger] a.gray_stack@[k],
            ) by {
                assert(b.marked(b.gray_stack@[k]));
            }
            assert forall|i: usize|
                #[trigger] a.marked(i) && !a.gray_stack@.contains(i) && i != -1 implies a.all_marked(
                obj_refs(a.obj_at(i)),
            ) by {
                assert(b.marked(i));
                assert(b.all_marked(obj_refs(b.obj_at(i))));
                assert forall|j: usize| #[trigger] obj_refs(a.obj_at(i)).contains(j) implies a.marked(j) by {
                    assert(b.marked(j));
                }
            }
        }
        assert forall|i: usize| #[trigger] a.is_live(i) == b.is_live(i) by {}
    }

    pub proof fn lemma_same_objects_trans(a: &Gc, b: &Gc, c: &Gc)
        requires
            a.same_objects(b),
            b.same_objects(c),
        ensures
            a.same_objects(c),
    {
        assert forall|i: usize| a.is_live(i) implies #[trigger] a.obj_at(i) == c.obj_at(i) by {
            assert(b.is_live(i));
        }
    }

    /// The measure that tracing decreases.
    pub open spec fn trace_measure(&self) -> int {
        (2 * unmarked_count(self.objects@) + self.gray_stack@.len()) as int
    }

    pub fn new() -> (gc: Self)
        ensures
            gc.wf(),
            gc.unmarked(),
            gc.capacity == GC_INITIAL_CAPACITY,
            gc.next_gc == GC_INITIAL_CAPACITY,
            gc.bytes_allocated == 0,
            forall|i: usize| !#[trigger] gc.is_live(i),
    {
        let mut objects: Vec<Option<GcObject>> = Vec::new();
        let mut k: usize = 0;
        while k < GC_INITIAL_CAPACITY
            invariant
                k <= GC_INITIAL_CAPACITY,
                objects@.len() == k,
                forall|i: int| 0 <= i < k ==> objects@[i] is None,
                live_count(objects@) == 0,
            decreases GC_INITIAL_CAPACITY - k,
        {
            proof {
                lemma_counts_push_none(objects@);
            }
            objects.push(None);
            k += 1;
        }
        Self {
            objects,
            capacity: GC_INITIAL_CAPACITY,
            object_count: 0,
            free_slots: Vec::new(),
            gray_stack: Vec::new(),
            bytes_allocated: 0,
            next_gc: GC_INITIAL_CAPACITY,
        }
    }

    /// Multiplies the number of slots by the growth factor.
    fn grow(&mut self)
        requires
            old(self).wf(),
            old(self).capacity <= usize::MAX / GC_HEAP_GROW_FACTOR,
        ensures
            final(self).wf(),
            final(self).capacity == old(self).capacity * GC_HEAP_GROW_FACTOR,
            final(self).objects@ =~= old(self).objects@ + Seq::new(
                old(self).capacity as nat,
                |i: int| None,
            ),
            final(self).object_count == old(self).object_count,
            final(self).free_slots@ == old(self).free_slots@,
            final(self).gray_stack@ == old(self).gray_stack@,
            final(self).bytes_allocated == old(self).bytes_allocated,
            final(self).next_gc == old(self).next_gc,
    {
        let old_capacity = self.capacity;
        let new_capacity = old_capacity * GC_HEAP_GROW_FACTOR;
        let ghost old_objects = self.objects@;
        let mut k: usize = old_capacity;
        while k < new_capacity
            invariant
                old_capacity <= k <= new_capacity,
                new_capacity == old_capacity * GC_HEAP_GROW_FACTOR,
                old_objects.len() == old_capacity,
                self.objects@ =~= old_objects + Seq::new((k - old_capacity) as nat, |i: int| None),
                live_count(self.objects@) == live_count(old_objects),
                unmarked_count(self.objects@) == unmarked_count(old_objects),
                self.capacity == old(self).capacity,
                self.object_count == old(self).object_count,
                self.free_slots@ == old(self).free_slots@,
                self.gray_stack@ == old(self).gray_stack@,
                self.bytes_allocated == old(self).bytes_allocated,
                self.next_gc == old(self).next_gc,
            decreases new_capacity - k,
        {
            proof {
                lemma_counts_push_none(self.objects@);
            }
            self.objects.push(None);
            k += 1;
        }
        self.capacity = new_capacity;
        proof {
            let ext = Seq::new(old_capacity as nat, |i: int| None::<GcObject>);
            assert forall|i: usize| #[trigger] self.is_live(i) == old(self).is_live(i) by {
                if (i as int) >= old_capacity && (i as int) < new_capacity {
                    assert(self.objects@[i as int] == ext[i - old_capacity]);
                }
            }
            assert forall|i: usize| self.is_live(i) implies #[trigger] self.obj_at(i) == old(
                self,
            ).obj_at(i) && self.marked(i) == old(self).marked(i) by {
                assert(self.objects@[i as int] == old_objects[i as int]);
            }
            assert(forall|i: usize| #[trigger] self.marked(i) == old(self).marked(i));
            assert forall|i: int| self.object_count <= i < self.capacity implies self.objects@[i]
                is None by {
                if i >= old_capacity {
                    assert(self.objects@[i] == ext[i - old_capacity]);
                }
            }
        }
    }

    /// Places `obj` in a free slot (growing the heap when there is none) and
    /// returns its reference. The new object is not marked.
    pub fn allocate(&mut self, obj: Obj) -> (r: GcRef)
        requires
            old(self).wf(),
            old(self).capacity <= usize::MAX / GC_HEAP_GROW_FACTOR,
            old(self).all_live(obj_refs(obj)),
        ensures
            final(self).wf(),
            !old(self).is_live(r.0),
            final(self).is_live(r.0),
            final(self).obj_at(r.0) == obj,
            !final(self).marked(r.0),
            forall|i: usize|
                i != r.0 ==> #[trigger] final(self).is_live(i) == old(self).is_live(i),
            forall|i: usize|
                i != r.0 && old(self).is_live(i) ==> #[trigger] final(self).objects@[i as int]
                    == old(self).objects@[i as int],
            final(self).gray_stack@ == old(self).gray_stack@,
            final(self).next_gc == old(self).next_gc,
            final(self).bytes_allocated == old(self).bytes_allocated + 1,
            final(self).capacity >= old(self).capacity,
            final(self).capacity <= old(self).capacity * GC_HEAP_GROW_FACTOR,
            old(self).free_slots@.len() > 0 ==> r.0 == old(self).free_slots@.last()
                && final(self).free_slots@ == old(self).free_slots@.drop_last()
                && final(self).object_count == old(self).object_count,
            old(self).free_slots@.len() == 0 ==> r.0 == old(self).object_count && final(self).free_slots@
                == old(self).free_slots@ && final(self).object_count == old(self).object_count + 1,
    {
        if self.free_slots.len() == 0 && self.object_count >= self.capacity {
            self.grow();
        }
        let ghost mid = *self;
        proof {
            lemma_counts_bound(self.objects@);
        }
        self.bytes_allocated += 1;
        let gc_obj = GcObject::new(obj);
        let index = match self.free_slots.pop() {
            Some(index) => index,
            None => {
                let index = self.object_count;
                self.object_count += 1;
                index
            },
        };
        proof {
            lemma_counts_update(self.objects@, index as int, Some(gc_obj));
        }
        self.objects.set(index, Some(gc_obj));
        proof {
            assert forall|i: usize| #[trigger] self.is_live(i) implies self.all_live(
                obj_refs(self.obj_at(i)),
            ) by {
                if i != index {
                    assert(mid.is_live(i));
                    assert(mid.all_live(obj_refs(mid.obj_at(i))));
                }
            }
            assert forall|i: usize|
                #[trigger] self.marked(i) && !self.gray_stack@.contains(i) && i != -1 implies self.all_marked(
                obj_refs(self.obj_at(i)),
            ) by {
                assert(mid.marked(i));
                assert(mid.all_marked(obj_refs(mid.obj_at(i))));
                assert forall|j: usize| #[trigger] obj_refs(self.obj_at(i)).contains(j) implies self.marked(j) by {
                    assert(mid.marked(j));
                }
            }
            assert forall|k: int| 0 <= k < self.gray_stack@.len() implies self.marked(
                #[trigger] self.gray_stack@[k],
            ) by {
                assert(mid.marked(mid.gray_stack@[k]));
            }
            assert forall|k: int| 0 <= k < self.free_slots@.len() implies #[trigger] self.free_slots@[k]
                < self.object_count && self.objects@[self.free_slots@[k] as int] is None by {
                assert(mid.free_slots@[k] != index);
            }
        }
        GcRef(index)
    }

    /// The object in a slot.
    pub fn deref(&self, gc_ref: GcRef) -> (o: &Obj)
        requires
            self.is_live(gc_ref.0),
        ensures
            *o == self.obj_at(gc_ref.0),
    {
        &self.objects[gc_ref.0].as_ref().unwrap().obj
    }

    /// Whether a slot holds an object.
    pub fn is_allocated(&self, gc_ref: GcRef) -> (b: bool)
        ensures
            b == self.is_live(gc_ref.0),
    {
        gc_ref.0 < self.objects.len() && self.objects[gc_ref.0].is_some()
    }
}


impl Gc {
    /// The object in a slot, to be changed in place.
    pub fn deref_mut(&mut self, gc_ref: GcRef) -> (o: &mut Obj)
        requires
            old(self).is_live(gc_ref.0),
        ensures
            *o == old(self).obj_at(gc_ref.0),
            final(self).objects@ == old(self).objects@.update(
                gc_ref.0 as int,
                Some(
                    GcObject {
                        is_marked: old(self).objects@[gc_ref.0 as int].unwrap().is_marked,
                        obj: *final(o),
                    },
                ),
            ),
            final(self).capacity == old(self).capacity,
            final(self).object_count == old(self).object_count,
            final(self).free_slots@ == old(self).free_slots@,
            final(self).gray_stack@ == old(self).gray_stack@,
            final(self).bytes_allocated == old(self).bytes_allocated,
            final(self).next_gc == old(self).next_gc,
    {
        &mut self.objects[gc_ref.0].as_mut().unwrap().obj
    }

    /// Marks the object that a value refers to, if any.
    pub fn mark_value(&mut self, value: &Value)
        requires
            old(self).wf_core(),
            old(self).all_live(value_refs(*value)),
        ensures
            final(self).wf_core(),
            final(self).same_objects(&*old(self)),
            forall|e: int| #[trigger] old(self).tricolor_except(e) ==> final(self).tricolor_except(e),
            forall|i: usize| #[trigger] final(self).marked(i) <==> old(self).marked(i) || value_refs(*value).contains(i),
            forall|i: usize| #[trigger] old(self).gray_stack@.contains(i) ==> final(self).gray_stack@.contains(i),
            final(self).trace_measure() <= old(self).trace_measure(),
    {
        if let Value::Obj(gc_ref) = value {
            assert(value_refs(*value).contains(gc_ref.0));
            self.mark_object(*gc_ref);
        }
    }

    /// Marks an object and puts it on the gray stack, unless it is marked
    /// already.
    pub fn mark_object(&mut self, gc_ref: GcRef)
        requires
            old(self).wf_core(),
            old(self).is_live(gc_ref.0),
        ensures
            final(self).wf_core(),
            final(self).same_objects(&*old(self)),
            forall|e: int| #[trigger] old(self).tricolor_except(e) ==> final(self).tricolor_except(e),
            forall|i: usize| #[trigger] final(self).marked(i) <==> old(self).marked(i) || i == gc_ref.0,
            old(self).marked(gc_ref.0) ==> final(self).gray_stack@ == old(self).gray_stack@,
            !old(self).marked(gc_ref.0) ==> final(self).gray_stack@ == old(self).gray_stack@.push(
                gc_ref.0,
            ),
            forall|i: usize| #[trigger] old(self).gray_stack@.contains(i) ==> final(self).gray_stack@.contains(i),
            final(self).trace_measure() <= old(self).trace_measure(),
    {
        let index = gc_ref.0;
        let object = self.objects[index].as_ref().unwrap();
        if object.is_marked {
            return;
        }
        let ghost before = *self;
        let marked_obj = GcObject { is_marked: true, obj: self.objects[index].take().unwrap().obj };
        let ghost mid = self.objects@;
        proof {
            lemma_counts_update(before.objects@, index as int, Some(marked_obj));
            assert(mid =~= before.objects@.update(index as int, None));
        }
        self.objects.set(index, Some(marked_obj));
        assert(self.objects@ =~= before.objects@.update(index as int, Some(marked_obj)));
        proof {
            lemma_counts_update(before.objects@, index as int, Some(marked_obj));
        }
        self.gray_stack.push(index);
        proof {
            assert(self.gray_stack@[self.gray_stack@.len() - 1] == index);
            assert forall|i: usize| #[trigger] before.gray_stack@.contains(i) implies self.gray_stack@.contains(i) by {
                let k = choose|k: int| 0 <= k < before.gray_stack@.len() && before.gray_stack@[k] == i;
                assert(self.gray_stack@[k] == i);
            }
            assert forall|i: usize| #[trigger] self.is_live(i) implies self.all_live(
                obj_refs(self.obj_at(i)),
            ) by {
                assert(before.is_live(i));
                assert(before.all_live(obj_refs(before.obj_at(i))));
            }
            assert forall|k: int| 0 <= k < self.gray_stack@.len() implies self.marked(
                #[trigger] self.gray_stack@[k],
            ) by {
                if k < before.gray_stack@.len() {
                    assert(before.marked(before.gray_stack@[k]));
                }
            }
            assert forall|e: int| #[trigger] before.tricolor_except(e) implies self.tricolor_except(e) by {
                assert forall|i: usize|
                    #[trigger] self.marked(i) && !self.gray_stack@.contains(i) && i != e implies self.all_marked(
                    obj_refs(self.obj_at(i)),
                ) by {
                    assert(i != index);
                    assert(before.marked(i));
                    assert(!before.gray_stack@.contains(i)) by {
                        if before.gray_stack@.contains(i) {
                            let k = choose|k: int| 0 <= k < before.gray_stack@.len() && before.gray_stack@[k] == i;
                            assert(self.gray_stack@[k] == i);
                        }
                    }
                    assert(before.all_marked(obj_refs(before.obj_at(i))));
                    assert forall|j: usize| #[trigger] obj_refs(self.obj_at(i)).contains(j) implies self.marked(j) by {
                        assert(before.marked(j));
                    }
                }
            }
        }
    }

    /// Marks every object that the object at `index` refers to.
    pub fn blacken_object(&mut self, index: usize)
        requires
            old(self).wf_core(),
            old(self).is_live(index),
        ensures
            final(self).wf_core(),
            old(self).marked(index) && old(self).tricolor_except(index as int) ==> final(self).wf(),
            forall|i: usize| #[trigger] final(self).marked(i) && !old(self).marked(i) ==> final(self).gray_stack@.contains(i),
            final(self).same_objects(&*old(self)),
            forall|i: usize| #[trigger] old(self).marked(i) ==> final(self).marked(i),
            forall|i: usize| #[trigger] final(self).marked(i) ==> old(self).marked(i) || obj_refs(
                old(self).obj_at(index),
            ).contains(i),
            forall|i: usize| #[trigger] obj_refs(old(self).obj_at(index)).contains(i) ==> final(self).marked(i),
            forall|i: usize| #[trigger] old(self).gray_stack@.contains(i) ==> final(self).gray_stack@.contains(i),
            final(self).trace_measure() <= old(self).trace_measure(),
    {
        let children = self.deref(GcRef(index)).references();
        let ghost refs = obj_refs(old(self).obj_at(index));
        proof {
            assert(old(self).is_live(index));
        }
        let mut k: usize = 0;
        while k < children.len()
            invariant
                self.wf_core(),
                self.same_objects(&*old(self)),
                old(self).marked(index) && old(self).tricolor_except(index as int) ==> self.tricolor_except(
                    index as int,
                ) && self.marked(index),
                forall|i: usize| #[trigger] self.marked(i) && !old(self).marked(i) ==> self.gray_stack@.contains(i),
                k <= children.len(),
                crate::object::gcrefs_set(children@) == refs,
                self.is_live(index),
                refs == obj_refs(self.obj_at(index)),
                self.all_live(refs),
                forall|i: usize| #[trigger] old(self).marked(i) ==> self.marked(i),
                forall|i: usize| #[trigger] self.marked(i) ==> old(self).marked(i) || refs.contains(i),
                forall|i: usize| #[trigger] old(self).gray_stack@.contains(i) ==> self.gray_stack@.contains(i),
                forall|m: int| 0 <= m < k ==> self.marked(#[trigger] children@[m].0),
                self.trace_measure() <= old(self).trace_measure(),
            decreases children.len() - k,
        {
            let child = children[k];
            assert(refs.contains(child.0)) by {
                assert(children@[k as int] == child);
            }
            let ghost before = *self;
            self.mark_object(child);
            proof {
                if old(self).marked(index) && old(self).tricolor_except(index as int) {
                    assert(before.tricolor_except(index as int));
                }
                assert forall|i: usize| #[trigger] self.marked(i) && !old(self).marked(i) implies self.gray_stack@.contains(i) by {
                    if before.marked(i) {
                        assert(before.gray_stack@.contains(i));
                    } else {
                        assert(i == child.0);
                        assert(self.gray_stack@[self.gray_stack@.len() - 1] == i);
                    }
                }
            }
            k += 1;
        }
        proof {
            assert forall|j: usize| #[trigger] refs.contains(j) implies self.marked(j) by {
                let m = choose|m: int| 0 <= m < children@.len() && children@[m] == GcRef(j);
                assert(self.marked(children@[m].0));
            }
            if old(self).marked(index) && old(self).tricolor_except(index as int) {
                assert forall|i: usize|
                    #[trigger] self.marked(i) && !self.gray_stack@.contains(i) && i != -1 implies self.all_marked(
                    obj_refs(self.obj_at(i)),
                ) by {
                    if i != index {
                        assert(self.tricolor_except(index as int));
                    }
                }
            }
        }
    }

    /// Blackens gray objects until none is left: afterwards every marked
    /// object refers only to marked objects.
    pub fn trace_references(&mut self)
        requires
            old(self).wf(),
        ensures
            final(self).wf(),
            final(self).same_objects(&*old(self)),
            final(self).gray_stack@.len() == 0,
            forall|i: usize| #[trigger] old(self).marked(i) ==> final(self).marked(i),
            forall|i: usize| #[trigger] final(self).marked(i) ==> final(self).all_marked(obj_refs(final(self).obj_at(i))),
            forall|i: usize| #[trigger] final(self).marked(i) ==> reachable_from_marked(*old(self), i),
    {
        proof {
            assert forall|i: usize| #[trigger] self.marked(i) implies reachable_from_marked(*old(self), i) by {
                lemma_reaches_self(*old(self), i);
            }
        }
        loop
            invariant_except_break
                self.wf(),
                self.same_objects(&*old(self)),
                forall|i: usize| #[trigger] old(self).marked(i) ==> self.marked(i),
                forall|i: usize| #[trigger] self.marked(i) ==> reachable_from_marked(*old(self), i),
            ensures
                self.wf(),
                self.same_objects(&*old(self)),
                self.gray_stack@.len() == 0,
                forall|i: usize| #[trigger] old(self).marked(i) ==> self.marked(i),
                forall|i: usize| #[trigger] self.marked(i) ==> reachable_from_marked(*old(self), i),
            decreases self.trace_measure(),
        {
            let ghost before = *self;
            assert(before.wf());
            match self.gray_stack.pop() {
                Some(index) => {
                    proof {
                        assert(before.marked(before.gray_stack@[before.gray_stack@.len() - 1]));
                        assert forall|k: int| 0 <= k < self.gray_stack@.len() implies self.marked(
                            #[trigger] self.gray_stack@[k],
                        ) by {
                            assert(before.marked(before.gray_stack@[k]));
                        }
                        assert forall|i: usize|
                            #[trigger] self.marked(i) && !self.gray_stack@.contains(i) && i != index implies self.all_marked(
                            obj_refs(self.obj_at(i)),
                        ) by {
                            assert(!before.gray_stack@.contains(i)) by {
                                if before.gray_stack@.contains(i) {
                                    let k = choose|k: int| 0 <= k < before.gray_stack@.len() && before.gray_stack@[k] == i;
                                    if k < self.gray_stack@.len() {
                                        assert(self.gray_stack@[k] == i);
                                    }
                                }
                            }
                            assert(before.marked(i));
                            assert(before.all_marked(obj_refs(before.obj_at(i))));
                        }
                        assert(self.objects@ =~= before.objects@);
                        assert forall|i: usize| #[trigger] self.is_live(i) implies self.all_live(
                            obj_refs(self.obj_at(i)),
                        ) by {
                            assert(before.is_live(i));
                        }
                        assert(self.wf_core());
                    }
                    let ghost mid = *self;
                    self.blacken_object(index);
                    proof {
                        Self::lemma_same_objects_trans(&*self, &mid, &before);
                        Self::lemma_same_objects_trans(&*self, &before, &*old(self));
                        assert forall|i: usize| #[trigger] old(self).marked(i) implies self.marked(i) by {
                            assert(before.marked(i));
                            assert(mid.marked(i));
                        }
                        assert(before.marked(index));
                        assert(reachable_from_marked(*old(self), index));
                        assert forall|i: usize| #[trigger] self.marked(i) implies reachable_from_marked(*old(self), i) by {
                            if mid.marked(i) {
                                assert(before.marked(i));
                            } else {
                                assert(obj_refs(mid.obj_at(index)).contains(i));
                                assert(mid.obj_at(index) == old(self).obj_at(index));
                                assert(old(self).is_live(index));
                                let m = choose|m: usize| old(self).marked(m) && #[trigger] reaches(*old(self), m, index);
                                lemma_reaches_step(*old(self), m, index, i);
                                assert(reaches(*old(self), m, i));
                            }
                        }
                    }
                },
                None => {
                    assert(self.gray_stack@ =~= before.gray_stack@);
                    assert(self.objects@ =~= before.objects@);
                    proof {
                        Self::lemma_same_views(&*self, &before);
                        Self::lemma_same_objects_trans(&*self, &before, &*old(self));
                        assert forall|i: usize| #[trigger] old(self).marked(i) implies self.marked(i) by {
                            assert(before.marked(i));
                        }
                        assert forall|i: usize| #[trigger] self.marked(i) implies reachable_from_marked(*old(self), i) by {
                            assert(before.marked(i));
                        }
                    }
                    break;
                },
            }
        }
        proof {
            assert forall|i: usize| #[trigger] self.marked(i) implies self.all_marked(obj_refs(self.obj_at(i))) by {
                assert(!self.gray_stack@.contains(i));
            }
        }
    }

    /// Frees every object that is not marked, and unmarks the others.
    fn sweep(&mut self)
        requires
            old(self).wf(),
            old(self).gray_stack@.len() == 0,
        ensures
            final(self).wf(),
            final(self).unmarked(),
            forall|i: usize| #[trigger] final(self).is_live(i) == old(self).marked(i),
            forall|i: usize| final(self).is_live(i) ==> #[trigger] final(self).obj_at(i) == old(self).obj_at(i),
            final(self).capacity == old(self).capacity,
            final(self).next_gc == old(self).next_gc,
            forall|i: usize| old(self).is_live(i) && !final(self).is_live(i) ==> #[trigger] final(self).free_slots@.contains(i),
    {
        let n = self.object_count;
        let mut i: usize = 0;
        while i < n
            invariant
                n == self.object_count == old(self).object_count,
                i <= n,
                self.objects@.len() == old(self).objects@.len() == self.capacity == old(self).capacity,
                1 <= self.capacity,
                n <= self.capacity,
                self.gray_stack@.len() == 0,
                self.next_gc == old(self).next_gc,
                forall|j: int| n <= j < self.capacity ==> self.objects@[j] is None,
                forall|j: usize| i <= j < self.capacity ==> #[trigger] self.objects@[j as int] == old(self).objects@[j as int],
                forall|j: usize| j < i ==> #[trigger] self.is_live(j) == old(self).marked(j),
                forall|j: usize| j < i && self.is_live(j) ==> !#[trigger] self.marked(j),
                forall|j: usize| j < i && self.is_live(j) ==> #[trigger] self.obj_at(j) == old(self).obj_at(j),
                forall|k: int|
                    0 <= k < self.free_slots@.len() ==> #[trigger] self.free_slots@[k] < n
                        && self.objects@[self.free_slots@[k] as int] is None,
                forall|k1: int, k2: int|
                    0 <= k1 < k2 < self.free_slots@.len() ==> #[trigger] self.free_slots@[k1]
                        != #[trigger] self.free_slots@[k2],
                forall|k: int| 0 <= k < self.free_slots@.len() ==> (#[trigger] self.free_slots@[k]) < i || old(self).free_slots@.contains(self.free_slots@[k]),
                self.bytes_allocated == live_count(self.objects@),
                old(self).wf(),
                forall|j: usize| j < i && old(self).is_live(j) && !old(self).marked(j) ==> #[trigger] self.free_slots@.contains(j),
            decreases n - i,
        {
            let ghost before = *self;
            proof {
                lemma_counts_bound(self.objects@);
            }
            if self.objects[i].is_some() {
                let g = self.objects[i].take().unwrap();
                if g.is_marked {
                    let unmarked = GcObject { is_marked: false, obj: g.obj };
                    proof {
                        lemma_counts_update(before.objects@, i as int, Some(unmarked));
                    }
                    self.objects.set(i, Some(unmarked));
                    assert(self.objects@ =~= before.objects@.update(i as int, Some(unmarked)));
                } else {
                    proof {
                        lemma_counts_update(before.objects@, i as int, None);
                        assert(self.objects@ =~= before.objects@.update(i as int, None));
                        assert(!before.free_slots@.contains(i)) by {
                            if before.free_slots@.contains(i) {
                                let k = choose|k: int| 0 <= k < before.free_slots@.len() && before.free_slots@[k] == i;
                                assert(before.objects@[before.free_slots@[k] as int] is None);
                            }
                        }
                    }
                    self.free_slots.push(i);
                    self.bytes_allocated -= 1;
                    proof {
                        assert(self.free_slots@[self.free_slots@.len() - 1] == i);
                        assert forall|j: usize| j < i && old(self).is_live(j) && !old(self).marked(j) implies #[trigger] self.free_slots@.contains(j) by {
                            assert(before.free_slots@.contains(j));
                            let k = choose|k: int| 0 <= k < before.free_slots@.len() && before.free_slots@[k] == j;
                            assert(self.free_slots@[k] == j);
                        }
                        assert forall|k1: int, k2: int|
                            0 <= k1 < k2 < self.free_slots@.len() implies #[trigger] self.free_slots@[k1]
                                != #[trigger] self.free_slots@[k2] by {
                            if k2 == self.free_slots@.len() - 1 {
                                assert(before.free_slots@.contains(before.free_slots@[k1]));
                            }
                        }
                    }
                }
            }
            proof {
                assert(before.objects@[i as int] == old(self).objects@[i as int]);
                assert forall|j: usize| i + 1 <= j < self.capacity implies #[trigger] self.objects@[j as int] == old(self).objects@[j as int] by {
                    assert(before.objects@[j as int] == old(self).objects@[j as int]);
                }
                assert forall|j: usize| j < i + 1 implies #[trigger] self.is_live(j) == old(self).marked(j) by {
                    if j < i {
                        assert(before.is_live(j) == old(self).marked(j));
                    }
                }
                assert forall|j: usize| j < i + 1 && self.is_live(j) implies !#[trigger] self.marked(j) by {
                    if j < i {
                        assert(!before.marked(j));
                    }
                }
                assert forall|j: usize| j < i + 1 && self.is_live(j) implies #[trigger] self.obj_at(j) == old(self).obj_at(j) by {
                    if j < i {
                        assert(before.obj_at(j) == old(self).obj_at(j));
                    }
                }
            }
            i += 1;
        }
        proof {
            assert forall|j: usize| #[trigger] self.is_live(j) == old(self).marked(j) by {
                if j >= n {
                    if (j as int) < self.capacity {
                        assert(self.objects@[j as int] is None);
                        assert(old(self).objects@[j as int] is None);
                    }
                }
            }
            assert forall|j: usize| #[trigger] self.is_live(j) implies self.all_live(obj_refs(self.obj_at(j))) by {
                assert(old(self).marked(j));
                assert(old(self).all_marked(obj_refs(old(self).obj_at(j))));
                assert forall|m: usize| #[trigger] obj_refs(self.obj_at(j)).contains(m) implies self.is_live(m) by {
                    assert(old(self).marked(m));
                }
            }
        }
    }

    /// A full collection: traces from the marked objects, frees what was not
    /// reached, and doubles the collection threshold.
    pub fn collect_garbage(&mut self)
        requires
            old(self).wf(),
        ensures
            final(self).wf(),
            final(self).unmarked(),
            forall|i: usize| #[trigger] old(self).marked(i) ==> final(self).is_live(i),
            forall|i: usize| #[trigger] final(self).is_live(i) ==> old(self).is_live(i),
            forall|i: usize|
                final(self).is_live(i) ==> #[trigger] final(self).obj_at(i) == old(self).obj_at(i),
            collected(*old(self), *final(self)),
            forall|i: usize| old(self).is_live(i) && !final(self).is_live(i) ==> #[trigger] final(self).free_slots@.contains(i),
            forall|i: usize| #[trigger] final(self).is_live(i) <==> reachable_from_marked(*old(self), i),
            final(self).capacity == old(self).capacity,
            final(self).next_gc == if old(self).next_gc <= usize::MAX / GC_HEAP_GROW_FACTOR {
                old(self).next_gc * GC_HEAP_GROW_FACTOR
            } else {
                usize::MAX as int
            },
    {
        self.trace_references();
        let ghost traced = *self;
        self.sweep();
        let ghost swept = *self;
        self.next_gc = match self.next_gc.checked_mul(GC_HEAP_GROW_FACTOR) {
            Some(n) => n,
            None => usize::MAX,
        };
        proof {
            Self::lemma_same_views(&*self, &swept);
            assert forall|i: usize| #[trigger] self.is_live(i) implies old(self).is_live(i) by {
                assert(swept.is_live(i));
            }
            assert forall|i: usize| #[trigger] old(self).marked(i) implies self.is_live(i) by {
                assert(swept.is_live(i));
            }
            assert forall|i: usize| self.is_live(i) implies #[trigger] self.obj_at(i) == old(self).obj_at(i) by {
                assert(swept.is_live(i));
            }
            assert(collected(*old(self), *self));
            assert forall|i: usize| #[trigger] self.is_live(i) <==> reachable_from_marked(*old(self), i) by {
                if reachable_from_marked(*old(self), i) {
                    let m = choose|m: usize| old(self).marked(m) && #[trigger] reaches(*old(self), m, i);
                    lemma_collection_keeps_reachable(*old(self), *self, m, i);
                }
                if self.is_live(i) {
                    assert(swept.is_live(i));
                    assert(traced.marked(i));
                }
            }
        }
    }
}

impl Gc {
    /// Puts `obj` in the live slot `gc_ref` and returns the object that was
    /// there. No object may be marked; the marks stay clear.
    pub fn swap_obj(&mut self, gc_ref: GcRef, obj: Obj) -> (prev: Obj)
        requires
            old(self).wf(),
            old(self).unmarked(),
            old(self).is_live(gc_ref.0),
            old(self).all_live(obj_refs(obj)),
        ensures
            final(self).wf(),
            final(self).unmarked(),
            prev == old(self).obj_at(gc_ref.0),
            final(self).obj_at(gc_ref.0) == obj,
            forall|i: usize| #[trigger] final(self).is_live(i) == old(self).is_live(i),
            forall|i: usize|
                i != gc_ref.0 && old(self).is_live(i) ==> #[trigger] final(self).objects@[i as int]
                    == old(self).objects@[i as int],
            final(self).capacity == old(self).capacity,
            final(self).bytes_allocated == old(self).bytes_allocated,
            final(self).next_gc == old(self).next_gc,
    {
        let ghost before = *self;
        assert(!before.marked(gc_ref.0));
        let mut o = obj;
        {
            let slot = self.deref_mut(gc_ref);
            std::mem::swap(slot, &mut o);
        }
        proof {
            let g = GcObject { is_marked: false, obj };
            assert(self.objects@ == before.objects@.update(gc_ref.0 as int, Some(g)));
            lemma_counts_update(before.objects@, gc_ref.0 as int, Some(g));
            assert forall|i: usize| #[trigger] self.is_live(i) implies self.all_live(
                obj_refs(self.obj_at(i)),
            ) by {
                if i != gc_ref.0 {
                    assert(before.is_live(i));
                    assert(before.all_live(obj_refs(before.obj_at(i))));
                }
            }
            assert forall|i: usize| !#[trigger] self.marked(i) by {
                if i != gc_ref.0 {
                    assert(!before.marked(i));
                }
            }
            assert forall|k: int|
                0 <= k < self.free_slots@.len() implies #[trigger] self.free_slots@[k] < self.object_count
                && self.objects@[self.free_slots@[k] as int] is None by {
                assert(before.objects@[before.free_slots@[k] as int] is None);
            }
        }
        o
    }
}
} // verus!
