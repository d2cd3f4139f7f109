//! Conversions between Rust values and values of the virtual machine.
use vstd::prelude::*;
use crate::object::{
    GcObject, HeapView, KeyView, Nil, NyaHashableType, NyaHeapObject, NyaPrimitiveObject,
    NyaTable, entries_insert, heap_view_wf,
};
use crate::state::{NyaState, StateView, heap_with, order_with, push_top, spec_hashable, stack_object, string_of};
use crate::assoc::{assoc_map, keys_unique, lemma_assoc_contains};

verus! {

/// The state after a conversion that appended the heap objects `objs`.
pub open spec fn allocated(v: StateView, objs: Seq<HeapView>) -> StateView {
    StateView {
        heap: heap_with(v.heap, objs),
        heap_order: order_with(v.heap_order, v.heap.len(), objs.len()),
        ..v
    }
}

/// A reference to slot `i`.
pub open spec fn heap_ref(i: int) -> NyaPrimitiveObject {
    NyaPrimitiveObject::HeapRef(GcObject { index: i as usize })
}

/// Turns a Rust value into a value of the virtual machine, allocating on the heap of the
/// state where the value needs it.
pub trait IntoNyaObject: Sized {
    /// The heap objects that converting `self` appends, in order, to a heap of `base` slots.
    spec fn allocations(self, base: nat) -> Seq<HeapView>;

    /// The value that converting `self` gives on a heap of `base` slots.
    spec fn converted(self, base: nat) -> NyaPrimitiveObject;

    /// Converts `self`, appending its heap objects to the state's heap.
    fn into_nya_object(self, state: &mut NyaState) -> (r: NyaPrimitiveObject)
        requires
            old(state).wf(),
        ensures
            final(state).wf(),
            final(state)@ == allocated(old(state)@, self.allocations(old(state)@.heap.len())),
            r == self.converted(old(state)@.heap.len()),
    ;
}

impl IntoNyaObject for NyaPrimitiveObject {
    open spec fn allocations(self, base: nat) -> Seq<HeapView> {
        Seq::empty()
    }

    open spec fn converted(self, base: nat) -> NyaPrimitiveObject {
        self
    }

    fn into_nya_object(self, state: &mut NyaState) -> (r: NyaPrimitiveObject) {
        assert(allocated(state@, Seq::empty()).heap =~= state@.heap);
        self
    }
}

impl IntoNyaObject for Nil {
    open spec fn allocations(self, base: nat) -> Seq<HeapView> {
        Seq::empty()
    }

    open spec fn converted(self, base: nat) -> NyaPrimitiveObject {
        NyaPrimitiveObject::Nil
    }

    fn into_nya_object(self, state: &mut NyaState) -> (r: NyaPrimitiveObject) {
        assert(allocated(state@, Seq::empty()).heap =~= state@.heap);
        NyaPrimitiveObject::Nil
    }
}

impl<'a> IntoNyaObject for &'a str {
    open spec fn allocations(self, base: nat) -> Seq<HeapView> {
        seq![HeapView::Str(self@)]
    }

    open spec fn converted(self, base: nat) -> NyaPrimitiveObject {
        heap_ref(base as int)
    }

    fn into_nya_object(self, state: &mut NyaState) -> (r: NyaPrimitiveObject) {
        let obj = state.alloc_heap_object(NyaHeapObject::String(self.to_owned()));
        assert(state@.heap =~= heap_with(old(state)@.heap, seq![HeapView::Str(self@)]));
        assert(state@.heap_order =~= order_with(old(state)@.heap_order, old(state)@.heap.len(), 1));
        NyaPrimitiveObject::HeapRef(obj)
    }
}

impl IntoNyaObject for String {
    open spec fn allocations(self, base: nat) -> Seq<HeapView> {
        seq![HeapView::Str(self@)]
    }

    open spec fn converted(self, base: nat) -> NyaPrimitiveObject {
        heap_ref(base as int)
    }

    fn into_nya_object(self, state: &mut NyaState) -> (r: NyaPrimitiveObject) {
        let ghost text = self@;
        let obj = state.alloc_heap_object(NyaHeapObject::String(self));
        assert(state@.heap =~= heap_with(old(state)@.heap, seq![HeapView::Str(text)]));
        assert(state@.heap_order =~= order_with(old(state)@.heap_order, old(state)@.heap.len(), 1));
        NyaPrimitiveObject::HeapRef(obj)
    }
}

impl IntoNyaObject for i64 {
    open spec fn allocations(self, base: nat) -> Seq<HeapView> {
        Seq::empty()
    }

    open spec fn converted(self, base: nat) -> NyaPrimitiveObject {
        NyaPrimitiveObject::Int(self)
    }

    fn into_nya_object(self, state: &mut NyaState) -> (r: NyaPrimitiveObject) {
        assert(allocated(state@, Seq::empty()).heap =~= state@.heap);
        NyaPrimitiveObject::Int(self)
    }
}

impl IntoNyaObject for i32 {
    open spec fn allocations(self, base: nat) -> Seq<HeapView> {
        Seq::empty()
    }

    open spec fn converted(self, base: nat) -> NyaPrimitiveObject {
        NyaPrimitiveObject::Int(self as i64)
    }

    fn into_nya_object(self, state: &mut NyaState) -> (r: NyaPrimitiveObject) {
        assert(allocated(state@, Seq::empty()).heap =~= state@.heap);
        NyaPrimitiveObject::Int(self as i64)
    }
}

impl IntoNyaObject for i16 {
    open spec fn allocations(self, base: nat) -> Seq<HeapView> {
        Seq::empty()
    }

    open spec fn converted(self, base: nat) -> NyaPrimitiveObject {
        NyaPrimitiveObject::Int(self as i64)
    }

    fn into_nya_object(self, state: &mut NyaState) -> (r: NyaPrimitiveObject) {
        assert(allocated(state@, Seq::empty()).heap =~= state@.heap);
        NyaPrimitiveObject::Int(self as i64)
    }
}

impl IntoNyaObject for i8 {
    open spec fn allocations(self, base: nat) -> Seq<HeapView> {
        Seq::empty()
    }

    open spec fn converted(self, base: nat) -> NyaPrimitiveObject {
        NyaPrimitiveObject::Int(self as i64)
    }

    fn into_nya_object(self, state: &mut NyaState) -> (r: NyaPrimitiveObject) {
        assert(allocated(state@, Seq::empty()).heap =~= state@.heap);
        NyaPrimitiveObject::Int(self as i64)
    }
}

impl IntoNyaObject for u64 {
    open spec fn allocations(self, base: nat) -> Seq<HeapView> {
        Seq::empty()
    }

    open spec fn converted(self, base: nat) -> NyaPrimitiveObject {
        NyaPrimitiveObject::Int(self as i64)
    }

    fn into_nya_object(self, state: &mut NyaState) -> (r: NyaPrimitiveObject) {
        assert(allocated(state@, Seq::empty()).heap =~= state@.heap);
        NyaPrimitiveObject::Int(self as i64)
    }
}

impl IntoNyaObject for u32 {
    open spec fn allocations(self, base: nat) -> Seq<HeapView> {
        Seq::empty()
    }

    open spec fn converted(self, base: nat) -> NyaPrimitiveObject {
        NyaPrimitiveObject::Int(self as i64)
    }

    fn into_nya_object(self, state: &mut NyaState) -> (r: NyaPrimitiveObject) {
        assert(allocated(state@, Seq::empty()).heap =~= state@.heap);
        NyaPrimitiveObject::Int(self as i64)
    }
}

impl IntoNyaObject for u16 {
    open spec fn allocations(self, base: nat) -> Seq<HeapView> {
        Seq::empty()
    }

    open spec fn converted(self, base: nat) -> NyaPrimitiveObject {
        NyaPrimitiveObject::Int(self as i64)
    }

    fn into_nya_object(self, state: &mut NyaState) -> (r: NyaPrimitiveObject) {
        assert(allocated(state@, Seq::empty()).heap =~= state@.heap);
        NyaPrimitiveObject::Int(self as i64)
    }
}

impl IntoNyaObject for u8 {
    open spec fn allocations(self, base: nat) -> Seq<HeapView> {
        Seq::empty()
    }

    open spec fn converted(self, base: nat) -> NyaPrimitiveObject {
        NyaPrimitiveObject::Int(self as i64)
    }

    fn into_nya_object(self, state: &mut NyaState) -> (r: NyaPrimitiveObject) {
        assert(allocated(state@, Seq::empty()).heap =~= state@.heap);
        NyaPrimitiveObject::Int(self as i64)
    }
}

/// The heap objects that converting the elements `s` in order appends to a heap of `base`
/// slots.
pub open spec fn elems_allocations<T: IntoNyaObject>(s: Seq<T>, base: nat) -> Seq<HeapView>
    decreases s.len(),
{
    if s.len() == 0 {
        Seq::empty()
    } else {
        let pre = elems_allocations(s.drop_last(), base);
        pre + s.last().allocations(base + pre.len())
    }
}

/// The entries of the table made of the elements `s`: element `i` under the integer key `i`.
pub open spec fn elems_entries<T: IntoNyaObject>(s: Seq<T>, base: nat) -> Seq<(KeyView, NyaPrimitiveObject)>
    decreases s.len(),
{
    if s.len() == 0 {
        Seq::empty()
    } else {
        let d = s.drop_last();
        entries_insert(
            elems_entries(d, base),
            KeyView::Int((s.len() - 1) as i64),
            s.last().converted(base + elems_allocations(d, base).len()),
        )
    }
}

/// Calls `Vec::from` on an array: the vector holds the array's elements, in order.
#[verifier::external_body]
fn array_into_vec<T, const N: usize>(a: [T; N]) -> (v: Vec<T>)
    ensures
        v@ == a@,
{
    Vec::from(a)
}

impl<T: IntoNyaObject, const N: usize> IntoNyaObject for [T; N] {
    open spec fn allocations(self, base: nat) -> Seq<HeapView> {
        elems_allocations(self@, base).push(HeapView::Table(elems_entries(self@, base)))
    }

    open spec fn converted(self, base: nat) -> NyaPrimitiveObject {
        heap_ref((base + elems_allocations(self@, base).len()) as int)
    }

    fn into_nya_object(self, state: &mut NyaState) -> (r: NyaPrimitiveObject) {
        array_into_vec(self).into_nya_object(state)
    }
}

/// Inserting keeps keys distinct.
pub proof fn lemma_entries_insert_unique(e: Seq<(KeyView, NyaPrimitiveObject)>, k: KeyView, v: NyaPrimitiveObject)
    requires
        keys_unique(e),
    ensures
        keys_unique(entries_insert(e, k, v)),
{
    let t = entries_insert(e, k, v);
    if exists|i: int| 0 <= i < e.len() && (#[trigger] e[i]).0 == k {
        let i = choose|i: int| 0 <= i < e.len() && (#[trigger] e[i]).0 == k;
        assert forall|a: int, b: int| 0 <= a < b < t.len() implies #[trigger] t[a].0 != #[trigger] t[b].0 by {
            assert(t[a].0 == e[a].0 && t[b].0 == e[b].0);
        }
    } else {
        assert forall|a: int, b: int| 0 <= a < b < t.len() implies #[trigger] t[a].0 != #[trigger] t[b].0 by {
            if b == e.len() {
                assert(t[a] == e[a]);
            } else {
                assert(t[a] == e[a] && t[b] == e[b]);
            }
        }
    }
}

/// The table made of a prefix of elements has distinct keys.
pub proof fn lemma_elems_entries_unique<T: IntoNyaObject>(s: Seq<T>, base: nat)
    ensures
        keys_unique(elems_entries(s, base)),
    decreases s.len(),
{
    if s.len() == 0 {
        assert(elems_entries(s, base) =~= Seq::<(KeyView, NyaPrimitiveObject)>::empty());
    } else {
        lemma_elems_entries_unique(s.drop_last(), base);
        lemma_entries_insert_unique(
            elems_entries(s.drop_last(), base),
            KeyView::Int((s.len() - 1) as i64),
            s.last().converted(base + elems_allocations(s.drop_last(), base).len()),
        );
    }
}

impl<T: IntoNyaObject> IntoNyaObject for Vec<T> {
    open spec fn allocations(self, base: nat) -> Seq<HeapView> {
        elems_allocations(self@, base).push(HeapView::Table(elems_entries(self@, base)))
    }

    open spec fn converted(self, base: nat) -> NyaPrimitiveObject {
        heap_ref((base + elems_allocations(self@, base).len()) as int)
    }

    fn into_nya_object(self, state: &mut NyaState) -> (r: NyaPrimitiveObject) {
        let ghost s = self@;
        let ghost base = state@.heap.len();
        let ghost v0 = state@;
        let n = self.len();
        let mut v = self;
        let mut rev: Vec<T> = Vec::new();
        while v.len() > 0
            invariant
                n == s.len(),
                v@.len() + rev@.len() == n,
                v@ == s.take(v@.len() as int),
                forall|t: int| 0 <= t < rev@.len() ==> #[trigger] rev@[t] == s[n - 1 - t],
            decreases v@.len(),
        {
            let ghost before = v@;
            let x = v.pop().unwrap();
            proof {
                assert(x == s[before.len() - 1]);
                assert(v@ =~= s.take(v@.len() as int));
            }
            rev.push(x);
        }
        let mut map = NyaTable::new();
        let mut i: usize = 0;
        assert(s.take(0) =~= Seq::<T>::empty());
        while rev.len() > 0
            invariant
                n == s.len(),
                i + rev@.len() == n,
                forall|t: int| 0 <= t < rev@.len() ==> #[trigger] rev@[t] == s[n - 1 - t],
                state.wf(),
                map.wf(),
                state@ == allocated(v0, elems_allocations(s.take(i as int), base)),
                map.entries() == elems_entries(s.take(i as int), base),
                base == v0.heap.len(),
            decreases rev@.len(),
        {
            let ghost rbefore = rev@;
            let x = rev.pop().unwrap();
            let ghost pre = elems_allocations(s.take(i as int), base);
            proof {
                assert(x == s[i as int]);
                assert(s.take(i + 1).drop_last() =~= s.take(i as int));
                assert(s.take(i + 1).last() == x);
                assert forall|t: int| 0 <= t < rev@.len() implies #[trigger] rev@[t] == s[n - 1 - t] by {
                    assert(rev@[t] == rbefore[t]);
                }
                assert(state@.heap.len() == base + pre.len());
            }
            let obj = x.into_nya_object(state);
            map.insert(NyaHashableType::Int(i as i64), obj);
            proof {
                assert(state@.heap =~= heap_with(v0.heap, elems_allocations(s.take(i + 1), base)));
                assert(state@.heap_order =~= order_with(
                    v0.heap_order,
                    base,
                    elems_allocations(s.take(i + 1), base).len(),
                ));
            }
            i = i + 1;
        }
        proof {
            assert(s.take(n as int) =~= s);
            lemma_elems_entries_unique(s, base);
        }
        let ghost mid = state@;
        let table = state.alloc_heap_object(NyaHeapObject::Table(map));
        assert(state@.heap =~= heap_with(v0.heap, self.allocations(base)));
        assert(state@.heap_order =~= order_with(v0.heap_order, base, self.allocations(base).len()));
        NyaPrimitiveObject::HeapRef(table)
    }
}

/// Turns a value of the virtual machine into a Rust value, where it has the right kind.
pub trait FromNyaObject: Sized {
    /// The Rust value that `object` stands for, if any.
    spec fn from_spec(object: NyaPrimitiveObject) -> Option<Self>;

    /// The Rust value that `object` stands for, if any.
    fn from_nya_object(object: NyaPrimitiveObject) -> (r: Option<Self>)
        ensures
            r == Self::from_spec(object),
    ;
}

impl FromNyaObject for () {
    open spec fn from_spec(object: NyaPrimitiveObject) -> Option<()> {
        match object {
            NyaPrimitiveObject::Nil => Some(()),
            _ => None,
        }
    }

    fn from_nya_object(object: NyaPrimitiveObject) -> (r: Option<()>) {
        match object {
            NyaPrimitiveObject::Nil => Some(()),
            _ => None,
        }
    }
}

impl FromNyaObject for Nil {
    open spec fn from_spec(object: NyaPrimitiveObject) -> Option<Nil> {
        match object {
            NyaPrimitiveObject::Nil => Some(Nil),
            _ => None,
        }
    }

    fn from_nya_object(object: NyaPrimitiveObject) -> (r: Option<Nil>) {
        match object {
            NyaPrimitiveObject::Nil => Some(Nil),
            _ => None,
        }
    }
}

impl FromNyaObject for i64 {
    open spec fn from_spec(object: NyaPrimitiveObject) -> Option<i64> {
        match object {
            NyaPrimitiveObject::Int(i) => Some(i),
            _ => None,
        }
    }

    fn from_nya_object(object: NyaPrimitiveObject) -> (r: Option<i64>) {
        match object {
            NyaPrimitiveObject::Int(i) => Some(i),
            _ => None,
        }
    }
}

impl FromNyaObject for u64 {
    open spec fn from_spec(object: NyaPrimitiveObject) -> Option<u64> {
        match object {
            NyaPrimitiveObject::Int(i) => Some(i as u64),
            _ => None,
        }
    }

    fn from_nya_object(object: NyaPrimitiveObject) -> (r: Option<u64>) {
        match i64::from_nya_object(object) {
            Some(i) => Some(i as u64),
            None => None,
        }
    }
}

impl FromNyaObject for usize {
    open spec fn from_spec(object: NyaPrimitiveObject) -> Option<usize> {
        match object {
            NyaPrimitiveObject::Int(i) => Some(i as usize),
            _ => None,
        }
    }

    fn from_nya_object(object: NyaPrimitiveObject) -> (r: Option<usize>) {
        match i64::from_nya_object(object) {
            Some(i) => Some(i as usize),
            None => None,
        }
    }
}


/// The state after `push_value(x)` on `v`.
pub open spec fn pushed<T: IntoNyaObject>(v: StateView, x: T) -> StateView {
    push_top(allocated(v, x.allocations(v.heap.len())), x.converted(v.heap.len()))
}

/// An `i64` pushed with `push_value` is what `get_stack(-1)` reads back as an `i64`.
pub proof fn lemma_i64_round_trip(v: StateView, x: i64)
    requires
        v.stack.len() > 0,
    ensures
        stack_object(pushed(v, x), -1isize) == Some(NyaPrimitiveObject::Int(x)),
        <i64 as FromNyaObject>::from_spec(NyaPrimitiveObject::Int(x)) == Some(x),
{
    let w = pushed(v, x);
    assert(w.stack.last() == v.stack.last().push(NyaPrimitiveObject::Int(x)));
}

/// A `u64` pushed with `push_value` is what `get_stack(-1)` reads back as a `u64`: it is kept
/// as the `i64` with the same bits.
pub proof fn lemma_u64_round_trip(v: StateView, x: u64)
    requires
        v.stack.len() > 0,
    ensures
        stack_object(pushed(v, x), -1isize) == Some(NyaPrimitiveObject::Int(x as i64)),
        <u64 as FromNyaObject>::from_spec(NyaPrimitiveObject::Int(x as i64)) == Some(x),
{
    let w = pushed(v, x);
    assert(w.stack.last() == v.stack.last().push(NyaPrimitiveObject::Int(x as i64)));
    assert((x as i64) as u64 == x) by (bit_vector);
}

/// A string pushed with `push_value` goes to a new heap slot, and `get_string(-1)` reads its
/// text back.
pub proof fn lemma_str_round_trip(v: StateView, x: &str)
    requires
        v.stack.len() > 0,
        v.heap.len() < usize::MAX,
    ensures
        stack_object(pushed(v, x), -1isize) == Some(heap_ref(v.heap.len() as int)),
        string_of(pushed(v, x).heap, heap_ref(v.heap.len() as int)) == Some(x@),
{
    let w = pushed(v, x);
    assert(w.stack.last() == v.stack.last().push(heap_ref(v.heap.len() as int)));
    assert(w.heap[v.heap.len() as int] == Some(HeapView::Str(x@)));
}


/// Converting the pairs `p` in order for a table on `v`: the state after each key is
/// converted, and after each value whose key converts to a table key, and the table's entries.
pub open spec fn pairs_converted<K: IntoNyaObject, V: IntoNyaObject>(v: StateView, p: Seq<(K, V)>) -> (
    StateView,
    Seq<(KeyView, NyaPrimitiveObject)>,
)
    decreases p.len(),
{
    if p.len() == 0 {
        (v, Seq::empty())
    } else {
        let (w, e) = pairs_converted(v, p.drop_last());
        let k = p.last().0;
        let x = p.last().1;
        let w1 = allocated(w, k.allocations(w.heap.len()));
        match spec_hashable(w1.heap, k.converted(w.heap.len())) {
            Some(key) => (
                allocated(w1, x.allocations(w1.heap.len())),
                entries_insert(e, key, x.converted(w1.heap.len())),
            ),
            None => (w1, e),
        }
    }
}

impl NyaState {
    /// Makes a table of `pairs`, in the order given: each key is converted, and where it
    /// converts to a table key (an integer or a string) its value is converted and put under
    /// it; pairs whose key does not are left out.  The table is then put on the heap, and a
    /// reference to it returned.
    pub fn table_from_pairs<K: IntoNyaObject, V: IntoNyaObject>(&mut self, pairs: Vec<(K, V)>) -> (r:
        NyaPrimitiveObject)
        requires
            old(self).wf(),
        ensures
            final(self).wf(),
            ({
                let (w, e) = pairs_converted(old(self)@, pairs@);
                &&& final(self)@ == (StateView {
                    heap: w.heap.push(Some(HeapView::Table(e))),
                    heap_order: w.heap_order.push(w.heap.len() as usize),
                    ..w
                })
                &&& r == heap_ref(w.heap.len() as int)
            }),
    {
        let ghost s = pairs@;
        let ghost v0 = self@;
        let n = pairs.len();
        let mut v = pairs;
        let mut rev: Vec<(K, V)> = Vec::new();
        while v.len() > 0
            invariant
                n == s.len(),
                v@.len() + rev@.len() == n,
                v@ == s.take(v@.len() as int),
                forall|t: int| 0 <= t < rev@.len() ==> #[trigger] rev@[t] == s[n - 1 - t],
            decreases v@.len(),
        {
            let ghost before = v@;
            let x = v.pop().unwrap();
            proof {
                assert(x == s[before.len() - 1]);
                assert(v@ =~= s.take(v@.len() as int));
            }
            rev.push(x);
        }
        let mut table = NyaTable::new();
        let mut i: usize = 0;
        assert(s.take(0) =~= Seq::<(K, V)>::empty());
        while rev.len() > 0
            invariant
                n == s.len(),
                i + rev@.len() == n,
                forall|t: int| 0 <= t < rev@.len() ==> #[trigger] rev@[t] == s[n - 1 - t],
                self.wf(),
                table.wf(),
                self@ == pairs_converted(v0, s.take(i as int)).0,
                table.entries() == pairs_converted(v0, s.take(i as int)).1,
            decreases rev@.len(),
        {
            let ghost rbefore = rev@;
            let (k, x) = rev.pop().unwrap();
            proof {
                assert((k, x) == s[i as int]);
                assert(s.take(i + 1).drop_last() =~= s.take(i as int));
                assert(s.take(i + 1).last() == (k, x));
                assert forall|t: int| 0 <= t < rev@.len() implies #[trigger] rev@[t] == s[n - 1 - t] by {
                    assert(rev@[t] == rbefore[t]);
                }
            }
            let key_obj = k.into_nya_object(self);
            match self.hashable(key_obj) {
                Some(key) => {
                    let val = x.into_nya_object(self);
                    table.insert(key, val);
                },
                None => {},
            }
            i = i + 1;
        }
        proof {
            assert(s.take(n as int) =~= s);
        }
        let r = self.alloc_heap_object(NyaHeapObject::Table(table));
        NyaPrimitiveObject::HeapRef(r)
    }
}


/// A smaller integer pushed with `push_value` keeps its value: `get_stack::<i64>(-1)` reads
/// back the same number.
pub proof fn lemma_small_int_round_trip(v: StateView, x_i8: i8, x_i16: i16, x_i32: i32, x_u8: u8, x_u16: u16, x_u32: u32)
    requires
        v.stack.len() > 0,
    ensures
        stack_object(pushed(v, x_i8), -1isize) matches Some(o) && <i64 as FromNyaObject>::from_spec(
            o,
        ) matches Some(y) && y == x_i8,
        stack_object(pushed(v, x_i16), -1isize) matches Some(o) && <i64 as FromNyaObject>::from_spec(
            o,
        ) matches Some(y) && y == x_i16,
        stack_object(pushed(v, x_i32), -1isize) matches Some(o) && <i64 as FromNyaObject>::from_spec(
            o,
        ) matches Some(y) && y == x_i32,
        stack_object(pushed(v, x_u8), -1isize) matches Some(o) && <i64 as FromNyaObject>::from_spec(
            o,
        ) matches Some(y) && y == x_u8,
        stack_object(pushed(v, x_u16), -1isize) matches Some(o) && <i64 as FromNyaObject>::from_spec(
            o,
        ) matches Some(y) && y == x_u16,
        stack_object(pushed(v, x_u32), -1isize) matches Some(o) && <i64 as FromNyaObject>::from_spec(
            o,
        ) matches Some(y) && y == x_u32,
{
    assert(pushed(v, x_i8).stack.last() == v.stack.last().push(NyaPrimitiveObject::Int(x_i8 as i64)));
    assert(pushed(v, x_i16).stack.last() == v.stack.last().push(NyaPrimitiveObject::Int(x_i16 as i64)));
    assert(pushed(v, x_i32).stack.last() == v.stack.last().push(NyaPrimitiveObject::Int(x_i32 as i64)));
    assert(pushed(v, x_u8).stack.last() == v.stack.last().push(NyaPrimitiveObject::Int(x_u8 as i64)));
    assert(pushed(v, x_u16).stack.last() == v.stack.last().push(NyaPrimitiveObject::Int(x_u16 as i64)));
    assert(pushed(v, x_u32).stack.last() == v.stack.last().push(NyaPrimitiveObject::Int(x_u32 as i64)));
}

} // verus!
