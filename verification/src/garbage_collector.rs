//! The garbage-collected heap: slots that hold heap objects, mark bits, marking by
//! reachability, and sweeping of what is not marked.
use vstd::prelude::*;
use vstd::set_lib::{lemma_int_range, lemma_len_subset, set_int_range};
use crate::object::{
    GcObject, HeapView, NyaHashableType, NyaHeapObject, NyaPrimitiveObject, entries_insert,
    heap_view_wf,
};

verus! {

/// Whether `o` refers to the heap slot `j`.
pub open spec fn refers_to(o: NyaPrimitiveObject, j: int) -> bool {
    o matches NyaPrimitiveObject::HeapRef(g) && g.index == j
}

/// Whether slot `j` of the heap `h` holds an object.
pub open spec fn live(h: Seq<Option<HeapView>>, j: int) -> bool {
    0 <= j < h.len() && h[j] is Some
}

/// Whether the heap object `v` is a table holding a reference to slot `j`.
pub open spec fn holds_ref(v: HeapView, j: int) -> bool {
    match v {
        HeapView::Table(e) => exists|k: int| 0 <= k < e.len() && refers_to((#[trigger] e[k]).1, j),
        HeapView::Str(_) => false,
    }
}

/// Whether the live object in slot `i` is a table holding a reference to the live slot `j`.
pub open spec fn edge(h: Seq<Option<HeapView>>, i: int, j: int) -> bool {
    &&& live(h, i)
    &&& live(h, j)
    &&& holds_ref(h[i]->0, j)
}

/// Whether `p` is a chain of live slots, each referring to the next.
pub open spec fn is_path(h: Seq<Option<HeapView>>, p: Seq<int>) -> bool {
    &&& p.len() > 0
    &&& live(h, p[0])
    &&& forall|k: int| 0 <= k < p.len() - 1 ==> edge(h, #[trigger] p[k], p[k + 1])
}

/// Whether some value of `roots` refers to slot `i`.
pub open spec fn is_root(roots: Seq<NyaPrimitiveObject>, i: int) -> bool {
    exists|r: int| 0 <= r < roots.len() && refers_to(#[trigger] roots[r], i)
}

/// Whether slot `j` can be reached from one of `roots` through live objects.
pub open spec fn reachable(h: Seq<Option<HeapView>>, roots: Seq<NyaPrimitiveObject>, j: int) -> bool {
    exists|p: Seq<int>| #[trigger] is_path(h, p) && is_root(roots, p[0]) && p.last() == j
}

/// The objects that sweeping frees, in the order it frees them: it goes through the heap's
/// list of objects `ord` from the last to the first and frees each live one whose mark is
/// clear.
pub open spec fn swept(h: Seq<Option<HeapView>>, m: Seq<bool>, ord: Seq<usize>) -> Seq<HeapView>
    decreases ord.len(),
{
    if ord.len() == 0 {
        Seq::empty()
    } else {
        let k = ord.last() as int;
        let rest = swept(h, m, ord.drop_last());
        if live(h, k) && !m[k] {
            seq![h[k]->0].add(rest)
        } else {
            rest
        }
    }
}

/// The heap's list of objects after a sweep has gone through its first `i` entries from the
/// last to the first: each entry it frees is replaced by the list's last entry, which is then
/// dropped.
pub open spec fn compacted(ord: Seq<usize>, h: Seq<Option<HeapView>>, m: Seq<bool>, i: int) -> Seq<usize>
    decreases i,
{
    if i <= 0 || i > ord.len() {
        ord
    } else {
        let k = ord[i - 1] as int;
        let next = if live(h, k) && !m[k] {
            ord.update(i - 1, ord.last()).drop_last()
        } else {
            ord
        };
        compacted(next, h, m, i - 1)
    }
}

/// Whether `ord` lists each live slot of `h` exactly once, and nothing else.
pub open spec fn lists_live(h: Seq<Option<HeapView>>, ord: Seq<usize>) -> bool {
    &&& forall|k: int| 0 <= k < ord.len() ==> live(h, #[trigger] ord[k] as int)
    &&& forall|a: int, b: int| 0 <= a < b < ord.len() ==> #[trigger] ord[a] != #[trigger] ord[b]
    &&& forall|i: int| #[trigger] live(h, i) ==> ord.contains(i as usize)
}

/// The heap after a sweep: live slots whose mark is clear are emptied.
pub open spec fn after_sweep(h: Seq<Option<HeapView>>, m: Seq<bool>) -> Seq<Option<HeapView>> {
    Seq::new(h.len(), |i: int| if h[i] is Some && !m[i] { None } else { h[i] })
}

/// The heap of the virtual machine.
pub struct GarbageCollector {
    heap: Vec<Option<NyaHeapObject>>,
    marks: Vec<bool>,
    order: Vec<usize>,
}

/// The mathematical content of a heap slot.
pub open spec fn slot_view(s: Option<NyaHeapObject>) -> Option<HeapView> {
    match s {
        Some(o) => Some(o@),
        None => None,
    }
}

impl GarbageCollector {
    /// The contents of the heap slots.
    pub closed spec fn objects(&self) -> Seq<Option<HeapView>> {
        slot_views(self.heap@)
    }

    /// The mark bits of the heap slots.
    pub closed spec fn marks(&self) -> Seq<bool> {
        self.marks@
    }

    /// The heap's list of its objects, by slot: allocation appends to it, and a sweep
    /// replaces each object it frees by the list's last one.
    pub closed spec fn order(&self) -> Seq<usize> {
        self.order@
    }

    /// One mark bit per slot; every table on the heap has distinct keys; the list of objects
    /// holds each live slot once.
    pub closed spec fn wf(&self) -> bool {
        &&& self.heap@.len() == self.marks@.len()
        &&& forall|i: int| #[trigger] live(self.objects(), i) ==> heap_view_wf(self.objects()[i]->0)
        &&& lists_live(self.objects(), self.order@)
    }

    /// A well-formed collector has one mark bit per heap slot.
    pub proof fn lemma_marks_len(&self)
        requires
            self.wf(),
        ensures
            self.marks().len() == self.objects().len(),
    {
    }

    /// A heap has at most `usize::MAX` slots.
    pub proof fn lemma_len_bound(&self)
        ensures
            self.objects().len() <= usize::MAX,
    {
        assert(self.heap.len() == self.heap@.len());
    }

    /// An empty heap.
    pub fn new() -> (r: Self)
        ensures
            r.wf(),
            r.objects() == Seq::<Option<HeapView>>::empty(),
            r.marks() == Seq::<bool>::empty(),
            r.order() == Seq::<usize>::empty(),
    {
        let r = Self { heap: Vec::new(), marks: Vec::new(), order: Vec::new() };
        assert(r.objects() =~= Seq::<Option<HeapView>>::empty());
        r
    }

    /// The number of slots.
    pub fn len(&self) -> (r: usize)
        requires
            self.wf(),
        ensures
            r == self.objects().len(),
    {
        self.heap.len()
    }

    /// Puts `obj` in a new, unmarked slot at the end and returns a reference to it.
    pub fn allocate(&mut self, obj: NyaHeapObject) -> (r: GcObject)
        requires
            old(self).wf(),
            heap_view_wf(obj@),
        ensures
            final(self).wf(),
            r.index == old(self).objects().len(),
            final(self).objects() == old(self).objects().push(Some(obj@)),
            final(self).marks() == old(self).marks().push(false),
            final(self).order() == old(self).order().push(r.index),
    {
        let index = self.heap.len();
        self.heap.push(Some(obj));
        self.marks.push(false);
        self.order.push(index);
        assert(self.objects() =~= old(self).objects().push(Some(obj@)));
        proof {
            let h0 = old(self).objects();
            let o0 = old(self).order@;
            let o = self.order@;
            assert forall|k: int| 0 <= k < o.len() implies live(self.objects(), #[trigger] o[k] as int) by {
                if k < o0.len() {
                    assert(o[k] == o0[k]);
                    assert(live(h0, o0[k] as int));
                }
            }
            assert forall|a: int, b: int| 0 <= a < b < o.len() implies #[trigger] o[a] != #[trigger] o[b] by {
                assert(o[a] == o0[a]);
                assert(live(h0, o0[a] as int));
                if b < o0.len() {
                    assert(o[b] == o0[b]);
                }
            }
            assert forall|i: int| #[trigger] live(self.objects(), i) implies o.contains(i as usize) by {
                if i < index {
                    assert(live(h0, i));
                    let k = choose|k: int| 0 <= k < o0.len() && o0[k] == i as usize;
                    assert(o[k] == i as usize);
                } else {
                    assert(o[o.len() - 1] == i as usize);
                }
            }
        }
        assert forall|i: int| #[trigger] live(self.objects(), i) implies heap_view_wf(
            self.objects()[i]->0,
        ) by {
            if i < index {
                assert(live(old(self).objects(), i));
            }
        }
        GcObject { index }
    }

    /// The object that `g` refers to, if its slot holds one.
    pub fn get(&self, g: GcObject) -> (r: Option<&NyaHeapObject>)
        ensures
            match r {
                Some(o) => live(self.objects(), g.index as int) && self.objects()[g.index as int]
                    == Some(o@) && (self.wf() ==> heap_view_wf(o@)),
                None => !live(self.objects(), g.index as int),
            },
    {
        if g.index < self.heap.len() {
            match &self.heap[g.index] {
                Some(o) => {
                    assert(self.objects()[g.index as int] == slot_view(self.heap@[g.index as int]));
                    Some(o)
                },
                None => None,
            }
        } else {
            None
        }
    }

    /// The slots that the live table in slot `i` refers to and that hold objects.
    fn children(&self, i: usize) -> (r: Vec<usize>)
        requires
            i < self.objects().len(),
        ensures
            forall|c: int| 0 <= c < r@.len() ==> edge(self.objects(), i as int, #[trigger] r@[c] as int),
            forall|j: int| edge(self.objects(), i as int, j) ==> #[trigger] r@.contains(j as usize),
    {
        let mut out: Vec<usize> = Vec::new();
        let ghost h = self.objects();
        assert(h[i as int] == slot_view(self.heap@[i as int]));
        match &self.heap[i] {
            Some(NyaHeapObject::Table(t)) => {
                let ghost e = t.entries();
                assert(h[i as int] == Some(HeapView::Table(e)));
                let mut k: usize = 0;
                while k < t.len()
                    invariant
                        h == self.objects(),
                        h[i as int] == Some(HeapView::Table(e)),
                        e == t.entries(),
                        k <= e.len(),
                        i < h.len(),
                        forall|c: int|
                            0 <= c < out@.len() ==> live(h, #[trigger] out@[c] as int) && exists|q: int|
                                0 <= q < k && refers_to((#[trigger] e[q]).1, out@[c] as int),
                        forall|q: int, j: int|
                            0 <= q < k && #[trigger] refers_to(e[q].1, j) && live(h, j) ==> out@.contains(
                                j as usize,
                            ),
                    decreases e.len() - k,
                {
                    let ghost old_out = out@;
                    let v = t.value_at(k);
                    if let NyaPrimitiveObject::HeapRef(g) = v {
                        if g.index < self.heap.len() && self.heap[g.index].is_some() {
                            assert(h[g.index as int] == slot_view(self.heap@[g.index as int]));
                            out.push(g.index);
                            assert(out@[out@.len() - 1] == g.index);
                        }
                    }
                    proof {
                        assert forall|c: int| 0 <= c < out@.len() implies live(
                            h,
                            #[trigger] out@[c] as int,
                        ) && exists|q: int| 0 <= q < k + 1 && refers_to((#[trigger] e[q]).1, out@[c] as int) by {
                            if v matches NyaPrimitiveObject::HeapRef(g) && c == out@.len() - 1 && out@[c] == g.index {
                                assert(refers_to(e[k as int].1, out@[c] as int));
                            }
                        }
                        assert forall|q: int, j: int|
                            0 <= q < k + 1 && #[trigger] refers_to(e[q].1, j) && live(h, j) implies out@.contains(
                                j as usize,
                            ) by {
                            if q == k {
                                assert(v == e[q].1);
                                assert(h[j] == slot_view(self.heap@[j]));
                                assert(out@[out@.len() - 1] == j as usize);
                            } else {
                                assert(old_out.contains(j as usize));
                                let w = choose|w: int| 0 <= w < old_out.len() && old_out[w] == j as usize;
                                assert(out@[w] == j as usize);
                            }
                        }
                    }
                    k = k + 1;
                }
                assert forall|c: int| 0 <= c < out@.len() implies edge(h, i as int, #[trigger] out@[c] as int) by {
                    assert(live(h, out@[c] as int));
                    let q = choose|q: int| 0 <= q < k && refers_to((#[trigger] e[q]).1, out@[c] as int);
                    assert(refers_to(e[q].1, out@[c] as int));
                    assert(live(h, i as int));
                    let j = out@[c] as int;
                    assert(exists|k: int| 0 <= k < e.len() && refers_to((#[trigger] e[k]).1, j));
                    assert(h[i as int]->0 == HeapView::Table(e));
                    let hv = h[i as int]->0;
                    assert(hv matches HeapView::Table(x) && x == e);
                    assert(holds_ref(hv, j));
                    assert(live(h, i as int));
                    assert(live(h, j));
                }
            },
            Some(NyaHeapObject::String(_)) => {
                assert(h[i as int] matches Some(HeapView::Str(_)));
            },
            None => {},
        }
        out
    }
}


/// Extending a path by a reference from its last slot gives a path.
pub proof fn lemma_path_push(h: Seq<Option<HeapView>>, p: Seq<int>, j: int)
    requires
        is_path(h, p),
        edge(h, p.last(), j),
    ensures
        is_path(h, p.push(j)),
        p.push(j)[0] == p[0],
        p.push(j).last() == j,
{
    let q = p.push(j);
    assert forall|k: int| 0 <= k < q.len() - 1 implies edge(h, #[trigger] q[k], q[k + 1]) by {
        if k < p.len() - 1 {
            assert(q[k] == p[k] && q[k + 1] == p[k + 1]);
        } else {
            assert(q[k] == p.last());
        }
    }
}

/// A set of slots that holds every live root and is closed under references holds every
/// reachable slot.
pub proof fn lemma_closed_holds_reachable(
    h: Seq<Option<HeapView>>,
    roots: Seq<NyaPrimitiveObject>,
    vis: Seq<bool>,
    p: Seq<int>,
)
    requires
        vis.len() == h.len(),
        is_path(h, p),
        is_root(roots, p[0]),
        forall|i: int| live(h, i) && is_root(roots, i) ==> #[trigger] vis[i],
        forall|i: int, j: int| 0 <= i < h.len() && vis[i] && #[trigger] edge(h, i, j) ==> vis[j],
    ensures
        vis[p.last()],
    decreases p.len(),
{
    if p.len() > 1 {
        let d = p.drop_last();
        assert forall|k: int| 0 <= k < d.len() - 1 implies edge(h, #[trigger] d[k], d[k + 1]) by {
            assert(d[k] == p[k] && d[k + 1] == p[k + 1]);
        }
        lemma_closed_holds_reachable(h, roots, vis, d);
        assert(edge(h, p[p.len() - 2], p[p.len() - 1]));
    }
}

/// The number of set flags.
pub open spec fn count_true(s: Seq<bool>) -> nat
    decreases s.len(),
{
    if s.len() == 0 {
        0
    } else {
        count_true(s.drop_last()) + if s.last() {
            1nat
        } else {
            0nat
        }
    }
}

/// At most every flag is set.
pub proof fn lemma_count_true_bound(s: Seq<bool>)
    ensures
        count_true(s) <= s.len(),
    decreases s.len(),
{
    if s.len() > 0 {
        lemma_count_true_bound(s.drop_last());
    }
}

/// Setting a clear flag adds one to the count.
pub proof fn lemma_count_true_set(s: Seq<bool>, j: int)
    requires
        0 <= j < s.len(),
        !s[j],
    ensures
        count_true(s.update(j, true)) == count_true(s) + 1,
    decreases s.len(),
{
    let t = s.update(j, true);
    if j == s.len() - 1 {
        assert(t.drop_last() =~= s.drop_last());
    } else {
        assert(t.drop_last() =~= s.drop_last().update(j, true));
        lemma_count_true_set(s.drop_last(), j);
    }
}

/// What holds during marking from `roots`: every visited slot is live and reachable and
/// marked on top of the marks `m0`; every slot waiting in `work` is visited, and waits once.
pub open spec fn marking(
    h: Seq<Option<HeapView>>,
    roots: Seq<NyaPrimitiveObject>,
    m0: Seq<bool>,
    marks: Seq<bool>,
    visited: Seq<bool>,
    work: Seq<usize>,
) -> bool {
    &&& visited.len() == h.len()
    &&& marks.len() == h.len()
    &&& m0.len() == h.len()
    &&& forall|i: int| 0 <= i < h.len() && #[trigger] visited[i] ==> live(h, i) && reachable(h, roots, i)
    &&& forall|i: int| 0 <= i < h.len() ==> #[trigger] marks[i] == (m0[i] || visited[i])
    &&& forall|w: int| 0 <= w < work.len() ==> #[trigger] work[w] < h.len() && visited[work[w] as int]
    &&& work.no_duplicates()
}

/// Every visited slot that no longer waits, other than `skip`, has all its references
/// visited.
pub open spec fn closed_except(
    h: Seq<Option<HeapView>>,
    visited: Seq<bool>,
    work: Seq<usize>,
    skip: int,
) -> bool {
    forall|x: int, y: int|
        0 <= x < h.len() && x != skip && visited[x] && !work.contains(x as usize) && #[trigger] edge(
            h,
            x,
            y,
        ) ==> visited[y]
}

impl GarbageCollector {
    /// Visits slot `j`, which is live and reachable: marks it and queues it unless it was
    /// visited already.
    fn visit(
        &mut self,
        visited: &mut Vec<bool>,
        work: &mut Vec<usize>,
        j: usize,
        Ghost(h): Ghost<Seq<Option<HeapView>>>,
        Ghost(roots): Ghost<Seq<NyaPrimitiveObject>>,
        Ghost(m0): Ghost<Seq<bool>>,
    )
        requires
            old(self).wf(),
            old(self).objects() == h,
            marking(h, roots, m0, old(self).marks(), old(visited)@, old(work)@),
            live(h, j as int),
            reachable(h, roots, j as int),
        ensures
            final(self).wf(),
            final(self).objects() == h,
            final(self).order() == old(self).order(),
            marking(h, roots, m0, final(self).marks(), final(visited)@, final(work)@),
            final(visited)@ == old(visited)@.update(j as int, true),
            old(visited)@[j as int] ==> final(work)@ == old(work)@,
            !old(visited)@[j as int] ==> final(work)@ == old(work)@.push(j),
            !old(visited)@[j as int] ==> count_true(final(visited)@) == count_true(old(visited)@) + 1,
    {
        if visited[j] {
            assert(visited@.update(j as int, true) =~= visited@);
            return;
        }
        let ghost old_work = work@;
        proof {
            lemma_count_true_set(visited@, j as int);
            assert(!old_work.contains(j)) by {
                if old_work.contains(j) {
                    let w = choose|w: int| 0 <= w < old_work.len() && old_work[w] == j;
                    assert(visited@[old_work[w] as int]);
                }
            }
        }
        visited.set(j, true);
        self.marks.set(j, true);
        work.push(j);
        proof {
            assert(work@ == old_work.push(j));
            assert forall|x: int, y: int|
                0 <= x < work@.len() && 0 <= y < work@.len() && x != y implies work@[x] != work@[y] by {
                if x < old_work.len() && y < old_work.len() {
                    assert(work@[x] == old_work[x] && work@[y] == old_work[y]);
                } else if x < old_work.len() {
                    assert(old_work[x] == work@[x]);
                } else {
                    assert(old_work[y] == work@[y]);
                }
            }
        }
    }

    /// Marks every object that one of `objects` reaches through live tables; other marks are
    /// kept.
    pub fn mark_slice(&mut self, objects: &[NyaPrimitiveObject])
        requires
            old(self).wf(),
        ensures
            final(self).wf(),
            final(self).objects() == old(self).objects(),
            final(self).order() == old(self).order(),
            final(self).marks().len() == old(self).marks().len(),
            forall|i: int|
                0 <= i < old(self).marks().len() ==> #[trigger] final(self).marks()[i] == (old(
                    self,
                ).marks()[i] || reachable(old(self).objects(), objects@, i)),
    {
        let n = self.heap.len();
        let ghost h = self.objects();
        let ghost m0 = self.marks();
        let ghost roots = objects@;
        let mut visited: Vec<bool> = Vec::new();
        let mut z: usize = 0;
        while z < n
            invariant
                z <= n,
                visited@.len() == z,
                forall|i: int| 0 <= i < z ==> !#[trigger] visited@[i],
            decreases n - z,
        {
            visited.push(false);
            z = z + 1;
        }
        let mut work: Vec<usize> = Vec::new();
        let mut r: usize = 0;
        while r < objects.len()
            invariant
                self.wf(),
                self.objects() == h,
                self.order() == old(self).order(),
                n == h.len(),
                roots == objects@,
                marking(h, roots, m0, self.marks(), visited@, work@),
                forall|i: int| 0 <= i < n && #[trigger] visited@[i] ==> work@.contains(i as usize),
                r <= roots.len(),
                forall|q: int, i: int|
                    0 <= q < r && #[trigger] refers_to(roots[q], i) && live(h, i) ==> visited@[i],
            decreases roots.len() - r,
        {
            if let NyaPrimitiveObject::HeapRef(g) = objects[r] {
                let i = g.index;
                if i < n && self.heap[i].is_some() {
                    let ghost old_work = work@;
                    let ghost old_vis = visited@;
                    proof {
                        assert(h[i as int] == slot_view(self.heap@[i as int]));
                        let p = seq![i as int];
                        assert(refers_to(roots[r as int], i as int));
                        assert(is_path(h, p));
                        assert(is_root(roots, p[0]));
                    }
                    self.visit(&mut visited, &mut work, i, Ghost(h), Ghost(roots), Ghost(m0));
                    proof {
                        assert forall|j: int| 0 <= j < n && #[trigger] visited@[j] implies work@.contains(
                            j as usize,
                        ) by {
                            if j != i {
                                assert(old_vis[j]);
                                let w = choose|w: int| 0 <= w < old_work.len() && old_work[w] == j as usize;
                                assert(work@[w] == j as usize);
                            } else if !old_vis[j] {
                                assert(work@[work@.len() - 1] == i);
                            }
                        }
                    }
                }
            }
            r = r + 1;
        }
        proof {
            assert forall|i: int| live(h, i) && is_root(roots, i) implies #[trigger] visited@[i] by {
                let q = choose|q: int| 0 <= q < roots.len() && refers_to(#[trigger] roots[q], i);
                assert(refers_to(roots[q], i));
            }
        }
        while work.len() > 0
            invariant
                self.wf(),
                self.objects() == h,
                self.order() == old(self).order(),
                n == h.len(),
                roots == objects@,
                marking(h, roots, m0, self.marks(), visited@, work@),
                closed_except(h, visited@, work@, -1),
                forall|i: int| live(h, i) && is_root(roots, i) ==> #[trigger] visited@[i],
            decreases 2 * (n - count_true(visited@)) + work@.len(),
        {
            proof {
                lemma_count_true_bound(visited@);
            }
            let ghost measure0 = 2 * (n - count_true(visited@)) + work@.len();
            let ghost work0 = work@;
            let i = work.pop().unwrap();
            proof {
                assert(work0 == work@.push(i));
                assert(!work@.contains(i)) by {
                    if work@.contains(i) {
                        let w = choose|w: int| 0 <= w < work@.len() && work@[w] == i;
                        assert(work0[w] == i);
                        assert(work0[work0.len() - 1] == i);
                    }
                }
                assert forall|x: int| 0 <= x < n && x != i && #[trigger] work0.contains(x as usize)
                    implies work@.contains(x as usize) by {
                    let w = choose|w: int| 0 <= w < work0.len() && work0[w] == x as usize;
                    assert(work@[w] == x as usize);
                }
                assert forall|w: int| 0 <= w < work@.len() implies #[trigger] work@[w] < h.len()
                    && visited@[work@[w] as int] by {
                    assert(work@[w] == work0[w]);
                }
                assert(work@.no_duplicates()) by {
                    assert forall|x: int, y: int|
                        0 <= x < work@.len() && 0 <= y < work@.len() && x != y implies work@[x]
                        != work@[y] by {
                        assert(work@[x] == work0[x] && work@[y] == work0[y]);
                    }
                }
                assert(closed_except(h, visited@, work@, i as int));
            }
            let kids = self.children(i);
            let mut c: usize = 0;
            while c < kids.len()
                invariant
                    self.wf(),
                    self.objects() == h,
                    self.order() == old(self).order(),
                    n == h.len(),
                    i < n,
                    roots == objects@,
                    marking(h, roots, m0, self.marks(), visited@, work@),
                    visited@[i as int],
                    !work@.contains(i),
                    c <= kids@.len(),
                    forall|q: int| 0 <= q < kids@.len() ==> edge(h, i as int, #[trigger] kids@[q] as int),
                    forall|q: int| 0 <= q < c ==> #[trigger] visited@[kids@[q] as int],
                    closed_except(h, visited@, work@, i as int),
                    forall|x: int| live(h, x) && is_root(roots, x) ==> #[trigger] visited@[x],
                    2 * (n - count_true(visited@)) + work@.len() < measure0,
                    count_true(visited@) <= n,
                decreases kids@.len() - c,
            {
                let j = kids[c];
                assert(edge(h, i as int, j as int));
                let ghost old_work = work@;
                let ghost old_vis = visited@;
                proof {
                    let p = choose|p: Seq<int>| #[trigger] is_path(h, p) && is_root(roots, p[0])
                        && p.last() == i as int;
                    lemma_path_push(h, p, j as int);
                }
                self.visit(&mut visited, &mut work, j, Ghost(h), Ghost(roots), Ghost(m0));
                proof {
                    if old_vis[j as int] {
                        assert(visited@ =~= old_vis);
                    }
                    lemma_count_true_bound(visited@);
                    assert(!work@.contains(i)) by {
                        if work@.contains(i) {
                            let w = choose|w: int| 0 <= w < work@.len() && work@[w] == i;
                            if w < old_work.len() {
                                assert(old_work[w] == i);
                            }
                        }
                    }
                    assert forall|x: int, y: int|
                        0 <= x < h.len() && x != i && visited@[x] && !work@.contains(x as usize)
                            && #[trigger] edge(h, x, y) implies visited@[y] by {
                        if x != j {
                            assert(old_vis[x]);
                            if old_work.contains(x as usize) {
                                let w = choose|w: int| 0 <= w < old_work.len() && old_work[w] == x as usize;
                                assert(work@[w] == x as usize);
                            }
                            assert(old_vis[y]);
                        } else if !old_vis[j as int] {
                            assert(work@[work@.len() - 1] == j);
                        }
                    }
                    assert forall|q: int| 0 <= q < c + 1 implies #[trigger] visited@[kids@[q] as int] by {
                        if q < c {
                            assert(old_vis[kids@[q] as int]);
                        }
                    }
                }
                c = c + 1;
            }
            proof {
                assert forall|x: int, y: int|
                    0 <= x < h.len() && visited@[x] && !work@.contains(x as usize) && #[trigger] edge(h, x, y)
                        implies visited@[y] by {
                    if x == i {
                        assert(kids@.contains(y as usize));
                        let q = choose|q: int| 0 <= q < kids@.len() && kids@[q] == y as usize;
                        assert(visited@[kids@[q] as int]);
                    }
                }
            }
        }
        proof {
            assert forall|i: int, j: int| 0 <= i < h.len() && visited@[i] && #[trigger] edge(h, i, j)
                implies visited@[j] by {
                assert(!work@.contains(i as usize));
            }
            assert forall|i: int| 0 <= i < n implies #[trigger] self.marks()[i] == (m0[i]
                || reachable(h, roots, i)) by {
                if reachable(h, roots, i) {
                    let p = choose|p: Seq<int>| #[trigger] is_path(h, p) && is_root(roots, p[0])
                        && p.last() == i;
                    lemma_closed_holds_reachable(h, roots, visited@, p);
                }
            }
        }
    }

    /// Marks every object that `object` reaches through live tables; other marks are kept.
    pub fn mark(&mut self, object: &NyaPrimitiveObject)
        requires
            old(self).wf(),
        ensures
            final(self).wf(),
            final(self).objects() == old(self).objects(),
            final(self).order() == old(self).order(),
            final(self).marks().len() == old(self).marks().len(),
            forall|i: int|
                0 <= i < old(self).marks().len() ==> #[trigger] final(self).marks()[i] == (old(
                    self,
                ).marks()[i] || reachable(old(self).objects(), seq![*object], i)),
    {
        let one = [*object];
        assert(one@ =~= seq![*object]);
        self.mark_slice(&one);
    }
}



impl GarbageCollector {
    /// Frees every live object whose mark is clear and clears all marks.  It goes through the
    /// heap's list of objects from the last to the first, and each object it frees is replaced
    /// in the list by the list's last one.  Returns the freed objects in the order they were
    /// freed.
    pub fn sweep(&mut self) -> (freed: Vec<NyaHeapObject>)
        requires
            old(self).wf(),
        ensures
            final(self).wf(),
            final(self).objects() == after_sweep(old(self).objects(), old(self).marks()),
            final(self).marks() == Seq::new(old(self).marks().len(), |i: int| false),
            final(self).order() == compacted(
                old(self).order(),
                old(self).objects(),
                old(self).marks(),
                old(self).order().len() as int,
            ),
            freed@.map_values(|o: NyaHeapObject| o@) == swept(
                old(self).objects(),
                old(self).marks(),
                old(self).order(),
            ),
    {
        let ghost h = self.objects();
        let ghost m = self.marks();
        let ghost o0 = self.order@;
        let n = self.heap.len();
        let mut freed: Vec<NyaHeapObject> = Vec::new();
        let mut i = self.order.len();
        assert(o0.take(i as int) =~= o0);
        assert(freed@.map_values(|o: NyaHeapObject| o@).add(swept(h, m, o0)) =~= swept(h, m, o0));
        assert forall|j: int| 0 <= j < n implies #[trigger] self.objects()[j] == (if h[j] is Some
            && !m[j] && !o0.take(i as int).contains(j as usize) {
            None
        } else {
            h[j]
        }) by {
            if h[j] is Some {
                assert(live(h, j));
            }
        }
        while i > 0
            invariant
                h.len() == n,
                m.len() == n,
                self.heap@.len() == n,
                self.marks@ == m,
                lists_live(h, o0),
                i <= self.order@.len(),
                self.order@.take(i as int) == o0.take(i as int),
                i <= o0.len(),
                compacted(o0, h, m, o0.len() as int) == compacted(self.order@, h, m, i as int),
                freed@.map_values(|o: NyaHeapObject| o@).add(swept(h, m, o0.take(i as int)))
                    == swept(h, m, o0),
                forall|j: int| 0 <= j < n ==> #[trigger] self.objects()[j] == (if h[j] is Some
                    && !m[j] && !o0.take(i as int).contains(j as usize) {
                    None
                } else {
                    h[j]
                }),
                lists_live(self.objects(), self.order@),
                forall|j: int| #[trigger] live(self.objects(), j) ==> heap_view_wf(
                    self.objects()[j]->0,
                ),
            decreases i,
        {
            let ghost ord = self.order@;
            let ghost cur = self.objects();
            let ghost old_freed = freed@.map_values(|o: NyaHeapObject| o@);
            let k = self.order[i - 1];
            proof {
                assert(ord[i - 1] == ord.take(i as int)[i - 1]);
                assert(k == o0[i - 1]);
                assert(live(h, k as int));
                assert(o0.take(i as int).drop_last() =~= o0.take(i - 1));
                assert(o0.take(i as int).last() == k);
                assert(!o0.take(i - 1).contains(k)) by {
                    if o0.take(i - 1).contains(k) {
                        let a = choose|a: int| 0 <= a < i - 1 && #[trigger] o0.take(i - 1)[a] == k;
                        assert(o0[a] == o0[i - 1]);
                    }
                }
                assert(o0.take(i as int).contains(k)) by {
                    assert(o0.take(i as int)[i - 1] == k);
                }
                assert(cur[k as int] == h[k as int]);
                assert(cur[k as int] == slot_view(self.heap@[k as int]));
            }
            if !self.marks[k] {
                let mut slot: Option<NyaHeapObject> = None;
                std::mem::swap(&mut slot, &mut self.heap[k]);
                let obj = slot.unwrap();
                freed.push(obj);
                self.order.swap_remove(i - 1);
                proof {
                    assert(freed@.map_values(|o: NyaHeapObject| o@) =~= old_freed.push(
                        h[k as int]->0,
                    ));
                    assert(old_freed.push(h[k as int]->0).add(swept(h, m, o0.take(i - 1)))
                        =~= old_freed.add(seq![h[k as int]->0].add(swept(h, m, o0.take(i - 1)))));
                    assert(self.objects() =~= cur.update(k as int, None));
                    let o = self.order@;
                    assert(o == ord.update(i - 1, ord.last()).drop_last());
                    assert(o.take(i - 1) =~= o0.take(i - 1)) by {
                        assert forall|a: int| 0 <= a < i - 1 implies o[a] == o0[a] by {
                            assert(o[a] == ord[a]);
                            assert(ord[a] == ord.take(i as int)[a]);
                        }
                    }
                    assert forall|kk: int| 0 <= kk < o.len() implies live(
                        self.objects(),
                        #[trigger] o[kk] as int,
                    ) by {
                        if kk == i - 1 {
                            assert(o[kk] == ord[ord.len() - 1]);
                            assert(live(cur, ord[ord.len() - 1] as int));
                            if i - 1 != ord.len() - 1 {
                                assert(ord[i - 1] != ord[ord.len() - 1]);
                            }
                        } else {
                            assert(o[kk] == ord[kk]);
                            assert(live(cur, ord[kk] as int));
                            assert(ord[kk] != ord[i - 1]);
                        }
                    }
                    assert forall|a: int, b: int| 0 <= a < b < o.len() implies #[trigger] o[a]
                        != #[trigger] o[b] by {
                        let ia = if a == i - 1 { ord.len() - 1 } else { a };
                        let ib = if b == i - 1 { ord.len() - 1 } else { b };
                        assert(o[a] == ord[ia]);
                        assert(o[b] == ord[ib]);
                        if ia < ib {
                            assert(ord[ia] != ord[ib]);
                        } else {
                            assert(ord[ib] != ord[ia]);
                        }
                    }
                    assert forall|jj: int| #[trigger] live(self.objects(), jj) implies o.contains(
                        jj as usize,
                    ) by {
                        assert(live(cur, jj));
                        let a = choose|a: int| 0 <= a < ord.len() && #[trigger] ord[a] == jj as usize;
                        if a == ord.len() - 1 {
                            if a == i - 1 {
                                assert(jj == k);
                            } else {
                                assert(o[i - 1] == jj as usize);
                            }
                        } else {
                            assert(a != i - 1);
                            assert(o[a] == jj as usize);
                        }
                    }
                    assert forall|jj: int| #[trigger] live(self.objects(), jj) implies heap_view_wf(
                        self.objects()[jj]->0,
                    ) by {
                        assert(live(cur, jj));
                    }
                    assert forall|jj: int| 0 <= jj < n implies #[trigger] self.objects()[jj] == (if h[jj] is Some
                        && !m[jj] && !o0.take(i - 1).contains(jj as usize) {
                        None
                    } else {
                        h[jj]
                    }) by {
                        if jj != k {
                            assert(o0.take(i as int).contains(jj as usize) == o0.take(i - 1).contains(jj as usize)) by {
                                if o0.take(i as int).contains(jj as usize) {
                                    let a = choose|a: int| 0 <= a < i && #[trigger] o0.take(i as int)[a] == jj as usize;
                                    assert(o0.take(i - 1)[a] == jj as usize);
                                }
                                if o0.take(i - 1).contains(jj as usize) {
                                    let a = choose|a: int| 0 <= a < i - 1 && #[trigger] o0.take(i - 1)[a] == jj as usize;
                                    assert(o0.take(i as int)[a] == jj as usize);
                                }
                            }
                        }
                    }
                }
            } else {
                proof {
                    assert(freed@.map_values(|o: NyaHeapObject| o@) == old_freed);
                    assert(self.order@.take(i - 1) =~= o0.take(i - 1)) by {
                        assert forall|a: int| 0 <= a < i - 1 implies self.order@[a] == o0[a] by {
                            assert(self.order@[a] == self.order@.take(i as int)[a]);
                        }
                    }
                    assert forall|jj: int| 0 <= jj < n implies #[trigger] self.objects()[jj] == (if h[jj] is Some
                        && !m[jj] && !o0.take(i - 1).contains(jj as usize) {
                        None
                    } else {
                        h[jj]
                    }) by {
                        if jj != k {
                            assert(o0.take(i as int).contains(jj as usize) == o0.take(i - 1).contains(jj as usize)) by {
                                if o0.take(i as int).contains(jj as usize) {
                                    let a = choose|a: int| 0 <= a < i && #[trigger] o0.take(i as int)[a] == jj as usize;
                                    assert(o0.take(i - 1)[a] == jj as usize);
                                }
                                if o0.take(i - 1).contains(jj as usize) {
                                    let a = choose|a: int| 0 <= a < i - 1 && #[trigger] o0.take(i - 1)[a] == jj as usize;
                                    assert(o0.take(i as int)[a] == jj as usize);
                                }
                            }
                        }
                    }
                }
            }
            i = i - 1;
        }
        let mut marks: Vec<bool> = Vec::new();
        let mut z: usize = 0;
        while z < n
            invariant
                z <= n,
                marks@.len() == z,
                forall|q: int| 0 <= q < z ==> !#[trigger] marks@[q],
            decreases n - z,
        {
            marks.push(false);
            z = z + 1;
        }
        self.marks = marks;
        proof {
            assert(o0.take(0) =~= Seq::<usize>::empty());
            assert(self.objects() =~= after_sweep(h, m));
            assert(self.marks@ =~= Seq::new(n as nat, |q: int| false));
            assert(freed@.map_values(|o: NyaHeapObject| o@).add(Seq::empty()) =~= freed@.map_values(
                |o: NyaHeapObject| o@,
            ));
        }
        freed
    }
}

impl GarbageCollector {
    /// A mutable borrow of the string that `g` refers to, if it refers to one.  Whatever is
    /// written through the borrow becomes the text of that slot; nothing else changes.
    pub fn string_mut(&mut self, g: GcObject) -> (r: Option<&mut String>)
        ensures
            r is Some <==> live(old(self).objects(), g.index as int) && old(self).objects()[g.index
                as int]->0 is Str,
            r matches Some(s) ==> old(self).objects()[g.index as int] == Some(HeapView::Str((*s)@)),
            r matches Some(s) ==> final(self).objects() == old(self).objects().update(
                g.index as int,
                Some(HeapView::Str((*final(s))@)),
            ),
            r is None ==> final(self).objects() == old(self).objects(),
            final(self).marks() == old(self).marks(),
            final(self).order() == old(self).order(),
            old(self).wf() ==> final(self).wf(),
    {
        if g.index < self.heap.len() {
            proof {
                lemma_store_string(self.heap@, g.index as int);
                if self.wf() {
                    lemma_store_keeps_wf(*self, g.index as int);
                }
            }
            match &mut self.heap[g.index] {
                Some(NyaHeapObject::String(s)) => Some(s),
                _ => None,
            }
        } else {
            None
        }
    }

    /// Puts `value` under `key` in the table that `g` refers to; false (and no change) where
    /// `g` does not refer to a live table.
    pub fn table_insert(&mut self, g: GcObject, key: NyaHashableType, value: NyaPrimitiveObject) -> (r: bool)
        requires
            old(self).wf(),
        ensures
            final(self).wf(),
            final(self).marks() == old(self).marks(),
            final(self).order() == old(self).order(),
            r == (live(old(self).objects(), g.index as int) && old(self).objects()[g.index as int]->0 is Table),
            r ==> final(self).objects().len() == old(self).objects().len(),
            r ==> forall|i: int| 0 <= i < old(self).objects().len() && i != g.index ==> #[trigger] final(self).objects()[i]
                == old(self).objects()[i],
            r ==> final(self).objects()[g.index as int] == Some(HeapView::Table(entries_insert(
                old(self).objects()[g.index as int]->0->Table_0,
                key@,
                value,
            ))),
            !r ==> final(self).objects() == old(self).objects(),
    {
        if g.index >= self.heap.len() {
            return false;
        }
        let ghost h = self.objects();
        assert(h[g.index as int] == slot_view(self.heap@[g.index as int]));
        let mut slot: Option<NyaHeapObject> = None;
        std::mem::swap(&mut slot, &mut self.heap[g.index]);
        let (result, back) = match slot {
            Some(NyaHeapObject::Table(mut t)) => {
                proof {
                    assert(live(h, g.index as int));
                }
                t.insert(key, value);
                (true, Some(NyaHeapObject::Table(t)))
            },
            other => (false, other),
        };
        let mut back = back;
        std::mem::swap(&mut back, &mut self.heap[g.index]);
        proof {
            if !result {
                assert(self.objects() =~= h);
            } else {
                assert forall|i: int| 0 <= i < h.len() && i != g.index implies #[trigger] self.objects()[i]
                    == h[i] by {
                    assert(self.heap@[i] == old(self).heap@[i]);
                }
            }
            assert forall|i: int| #[trigger] live(self.objects(), i) implies heap_view_wf(
                self.objects()[i]->0,
            ) by {
                if i != g.index {
                    assert(self.heap@[i] == old(self).heap@[i]);
                    assert(live(h, i));
                }
            }
            assert forall|i: int| #[trigger] live(self.objects(), i) == live(h, i) by {
                if 0 <= i < h.len() && i != g.index {
                    assert(self.heap@[i] == old(self).heap@[i]);
                }
            }
        }
        result
    }
}


/// The views of heap slots.
pub open spec fn slot_views(h: Seq<Option<NyaHeapObject>>) -> Seq<Option<HeapView>> {
    h.map_values(|s: Option<NyaHeapObject>| slot_view(s))
}

/// Storing a string in slot `i` changes the view of that slot alone.
pub proof fn lemma_store_string(h: Seq<Option<NyaHeapObject>>, i: int)
    requires
        0 <= i < h.len(),
    ensures
        forall|t: String|
            slot_views(#[trigger] h.update(i, Some(NyaHeapObject::String(t)))) == slot_views(h).update(
                i,
                Some(HeapView::Str(t@)),
            ),
{
    assert forall|t: String|
        slot_views(#[trigger] h.update(i, Some(NyaHeapObject::String(t)))) == slot_views(h).update(
            i,
            Some(HeapView::Str(t@)),
        ) by {
        assert(slot_views(h.update(i, Some(NyaHeapObject::String(t)))) =~= slot_views(h).update(
            i,
            Some(HeapView::Str(t@)),
        ));
    }
}


/// A heap whose one slot `i` is given a string, with the same marks, is as well-formed as
/// before.
proof fn lemma_store_keeps_wf(a: GarbageCollector, i: int)
    requires
        a.wf(),
        0 <= i < a.objects().len(),
    ensures
        forall|b: GarbageCollector, t: Seq<char>|
            #![trigger b.wf(), a.objects().update(i, Some(HeapView::Str(t)))]
            b.marks@ == a.marks@ && b.order@ == a.order@ && live(a.objects(), i) && b.objects()
                == a.objects().update(i, Some(HeapView::Str(t))) ==> b.wf(),
{
    assert forall|b: GarbageCollector, t: Seq<char>|
        #![trigger b.wf(), a.objects().update(i, Some(HeapView::Str(t)))]
        b.marks@ == a.marks@ && b.order@ == a.order@ && live(a.objects(), i) && b.objects()
            == a.objects().update(i, Some(HeapView::Str(t))) implies b.wf() by {
        assert forall|j: int| #[trigger] live(b.objects(), j) == live(a.objects(), j) by {}
        assert(b.heap@.len() == b.objects().len());
        assert forall|j: int| #[trigger] live(b.objects(), j) implies heap_view_wf(
            b.objects()[j]->0,
        ) by {
            if j != i {
                assert(live(a.objects(), j));
            }
        }
    }
}

} // verus!
