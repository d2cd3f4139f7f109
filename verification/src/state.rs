//! The state of the virtual machine: stack frames, variable frames, globals, the constant
//! pool and the heap, and the operations on them.
use vstd::prelude::*;
use crate::assoc::{assoc_map, keys_unique, lemma_assoc_contains, lemma_assoc_index};
use crate::convert::{FromNyaObject, IntoNyaObject, allocated};
use crate::garbage_collector::{
    GarbageCollector, after_sweep, compacted, edge, is_path, is_root, live, reachable, refers_to,
    swept,
};
use crate::object::{
    GcObject, HeapView, KeyView, NyaHashableType, NyaHeapObject, NyaPrimitiveObject, NyaTable,
    entries_insert, heap_view_wf,
};

verus! {

/// The index that `idx` denotes in a sequence of length `len`: counted from the end when
/// negative.  A negative index before the start becomes a huge index past the end.
pub open spec fn spec_calc_idx(len: usize, idx: isize) -> usize {
    if idx < 0 {
        (len as isize + idx) as usize
    } else {
        idx as usize
    }
}

/// A negative index reinterpreted as unsigned lies beyond every length that fits in `isize`.
pub proof fn lemma_negative_index(k: isize, len: usize)
    requires
        k < 0,
        len <= isize::MAX,
    ensures
        k as usize > len,
{
    assert(len as isize >= 0);
    assert(k < 0 && (len as isize) >= 0 ==> (k as usize) > len) by (bit_vector);
}

/// The index that `idx` denotes in a sequence of length `len`, counting from the end when
/// negative: `calc_idx(10, -1) == 9`.
pub fn calc_idx(len: usize, idx: isize) -> (r: usize)
    requires
        len <= isize::MAX,
    ensures
        r == spec_calc_idx(len, idx),
        idx >= 0 ==> r == idx,
        idx < 0 && len + idx >= 0 ==> r == len + idx,
        idx < 0 && len + idx < 0 ==> r > len,
{
    proof {
        if idx < 0 && len + idx < 0 {
            lemma_negative_index((len as isize + idx) as isize, len);
        }
    }
    (if idx < 0 {
        len as isize + idx
    } else {
        idx
    }) as usize
}

/// The mathematical content of the virtual machine's state.
pub struct StateView {
    /// The heap slots.
    pub heap: Seq<Option<HeapView>>,
    /// The heap's list of its objects, by slot, in the order a collection goes through
    /// backwards.
    pub heap_order: Seq<usize>,
    /// The stack frames, the last one current.
    pub stack: Seq<Seq<NyaPrimitiveObject>>,
    /// The globals, keyed by their names (as string keys).
    pub globals: Map<KeyView, NyaPrimitiveObject>,
    /// The variable frames, the last one current.
    pub variables: Seq<Seq<NyaPrimitiveObject>>,
    /// The constant pool.
    pub constants: Seq<NyaPrimitiveObject>,
}

/// The object at `idx` (counted from the end when negative) of the current stack frame.
pub open spec fn stack_object(v: StateView, idx: isize) -> Option<NyaPrimitiveObject> {
    let top = v.stack.last();
    let j = if idx < 0 { top.len() + idx } else { idx as int };
    if 0 <= j < top.len() {
        Some(top[j])
    } else {
        None
    }
}

/// The state with `o` pushed on the current stack frame.
pub open spec fn push_top(v: StateView, o: NyaPrimitiveObject) -> StateView {
    StateView { stack: v.stack.update(v.stack.len() - 1, v.stack.last().push(o)), ..v }
}

/// The key under which a global named `name` is kept.
pub open spec fn global_key(name: Seq<char>) -> KeyView {
    KeyView::Str(name)
}

/// The heap slots holding the objects `objs`, appended.
pub open spec fn heap_with(h: Seq<Option<HeapView>>, objs: Seq<HeapView>) -> Seq<Option<HeapView>> {
    h + objs.map_values(|o: HeapView| Some(o))
}

/// The heap's list of objects with the slots `base .. base + n` appended.
pub open spec fn order_with(ord: Seq<usize>, base: nat, n: nat) -> Seq<usize> {
    ord + Seq::new(n, |k: int| (base + k) as usize)
}

/// The value whose heap object the hashable key of `o` is: an integer, or the text of a live
/// string.
pub open spec fn spec_hashable(h: Seq<Option<HeapView>>, o: NyaPrimitiveObject) -> Option<KeyView> {
    match o {
        NyaPrimitiveObject::Int(i) => Some(KeyView::Int(i)),
        NyaPrimitiveObject::HeapRef(g) => if live(h, g.index as int) {
            match h[g.index as int]->0 {
                HeapView::Str(s) => Some(KeyView::Str(s)),
                HeapView::Table(_) => None,
            }
        } else {
            None
        },
        _ => None,
    }
}

/// Whether a stack frame, a variable frame, a global or the constant pool refers to slot `i`.
pub open spec fn is_state_root(v: StateView, i: int) -> bool {
    ||| exists|f: int, k: int|
        0 <= f < v.stack.len() && 0 <= k < v.stack[f].len() && refers_to(#[trigger] v.stack[f][k], i)
    ||| exists|f: int, k: int|
        0 <= f < v.variables.len() && 0 <= k < v.variables[f].len() && refers_to(
            #[trigger] v.variables[f][k],
            i,
        )
    ||| exists|name: KeyView| #[trigger] v.globals.contains_key(name) && refers_to(v.globals[name], i)
    ||| exists|k: int| 0 <= k < v.constants.len() && refers_to(#[trigger] v.constants[k], i)
}

/// Whether slot `j` can be reached from the stacks, variables, globals or constants through
/// live tables.
pub open spec fn reachable_from_state(v: StateView, j: int) -> bool {
    exists|p: Seq<int>| #[trigger] is_path(v.heap, p) && is_state_root(v, p[0]) && p.last() == j
}

/// The state of the virtual machine.
pub struct NyaState {
    gc: GarbageCollector,
    stack: Vec<Vec<NyaPrimitiveObject>>,
    globals: NyaTable,
    variables: Vec<Vec<NyaPrimitiveObject>>,
    constant_pool: Vec<NyaPrimitiveObject>,
}

impl View for NyaState {
    type V = StateView;

    closed spec fn view(&self) -> StateView {
        StateView {
            heap: self.gc.objects(),
            heap_order: self.gc.order(),
            stack: self.stack@.map_values(|f: Vec<NyaPrimitiveObject>| f@),
            globals: assoc_map(self.globals.entries()),
            variables: self.variables@.map_values(|f: Vec<NyaPrimitiveObject>| f@),
            constants: self.constant_pool@,
        }
    }
}

impl NyaState {
    /// The heap is consistent and unmarked and the globals have distinct names.
    pub closed spec fn wf(&self) -> bool {
        &&& self.gc.wf()
        &&& forall|i: int| 0 <= i < self.gc.marks().len() ==> !#[trigger] self.gc.marks()[i]
        &&& self.globals.wf()
    }

    /// A state with one empty stack frame, one empty variable frame, no globals, no
    /// constants and an empty heap.
    pub fn new() -> (r: Self)
        ensures
            r.wf(),
            r@ == (StateView {
                heap: Seq::empty(),
                heap_order: Seq::empty(),
                stack: seq![Seq::empty()],
                globals: Map::empty(),
                variables: seq![Seq::empty()],
                constants: Seq::empty(),
            }),
    {
        let mut stack: Vec<Vec<NyaPrimitiveObject>> = Vec::new();
        stack.push(Vec::new());
        let mut variables: Vec<Vec<NyaPrimitiveObject>> = Vec::new();
        variables.push(Vec::new());
        let r = Self {
            gc: GarbageCollector::new(),
            stack,
            globals: NyaTable::new(),
            variables,
            constant_pool: Vec::new(),
        };
        assert(r@.stack =~= seq![Seq::<NyaPrimitiveObject>::empty()]);
        assert(r@.variables =~= seq![Seq::<NyaPrimitiveObject>::empty()]);
        assert(r@.globals =~= Map::empty());
        r
    }

    /// Starts a new, empty variable frame; variable operations use it from now on.
    pub fn create_variable_frame(&mut self)
        requires
            old(self).wf(),
        ensures
            final(self).wf(),
            final(self)@ == (StateView { variables: old(self)@.variables.push(Seq::empty()), ..old(self)@ }),
    {
        self.variables.push(Vec::new());
        assert(self@.variables =~= old(self)@.variables.push(Seq::empty()));
    }

    /// Starts a new, empty stack frame; stack operations use it from now on.
    pub fn create_stack_frame(&mut self)
        requires
            old(self).wf(),
        ensures
            final(self).wf(),
            final(self)@ == (StateView { stack: old(self)@.stack.push(Seq::empty()), ..old(self)@ }),
    {
        self.stack.push(Vec::new());
        assert(self@.stack =~= old(self)@.stack.push(Seq::empty()));
    }

    /// Sets variable `id` of the current variable frame to `val`, growing the frame with
    /// `Nil` as needed.
    pub fn set_local(&mut self, id: usize, val: NyaPrimitiveObject)
        requires
            old(self).wf(),
            old(self)@.variables.len() > 0,
            id < usize::MAX,
        ensures
            final(self).wf(),
            final(self)@ == (StateView {
                variables: old(self)@.variables.update(
                    old(self)@.variables.len() - 1,
                    set_slot(old(self)@.variables.last(), id as int, val),
                ),
                ..old(self)@
            }),
    {
        let mut block = self.variables.pop().unwrap();
        let ghost b0 = block@;
        while block.len() <= id
            invariant
                b0.len() <= block@.len(),
                block@.len() <= id + 1 || block@.len() == b0.len(),
                block@.subrange(0, b0.len() as int) == b0,
                forall|k: int| b0.len() <= k < block@.len() ==> #[trigger] block@[k] == NyaPrimitiveObject::Nil,
            decreases id + 1 - block@.len(),
        {
            block.push(NyaPrimitiveObject::Nil);
            assert(block@.subrange(0, b0.len() as int) =~= b0);
        }
        block.set(id, val);
        self.variables.push(block);
        assert(block@ =~= set_slot(b0, id as int, val));
        assert(self@.variables =~= old(self)@.variables.update(
            old(self)@.variables.len() - 1,
            set_slot(old(self)@.variables.last(), id as int, val),
        ));
    }

    /// Variable `id` of the current variable frame, if the frame has it.
    pub fn get_local(&self, id: usize) -> (r: Option<&NyaPrimitiveObject>)
        ensures
            r == (if self@.variables.len() > 0 && id < self@.variables.last().len() {
                Some(&self@.variables.last()[id as int])
            } else {
                None
            }),
    {
        match self.variables.last() {
            Some(block) => {
                if id < block.len() {
                    Some(&block[id])
                } else {
                    None
                }
            },
            None => None,
        }
    }

    /// The object at `idx` of the current stack frame (counted from the end when negative).
    pub(crate) fn get_stack_object(&self, idx: isize) -> (r: Option<NyaPrimitiveObject>)
        requires
            self@.stack.len() > 0,
        ensures
            r == stack_object(self@, idx),
    {
        let stack = self.stack.last().unwrap();
        assert(stack@ == self@.stack.last());
        let len = stack.len();
        let i = if len <= isize::MAX as usize {
            calc_idx(len, idx)
        } else if idx >= 0 {
            idx as usize
        } else {
            len - 1 - ((-(idx + 1)) as usize)
        };
        if i < stack.len() {
            Some(stack[i])
        } else {
            None
        }
    }

    /// Pushes `obj` on the current stack frame.
    pub(crate) fn push_stack_object(&mut self, obj: NyaPrimitiveObject)
        requires
            old(self).wf(),
            old(self)@.stack.len() > 0,
        ensures
            final(self).wf(),
            final(self)@ == push_top(old(self)@, obj),
    {
        let mut top = self.stack.pop().unwrap();
        top.push(obj);
        self.stack.push(top);
        assert(self@.stack =~= push_top(old(self)@, obj).stack);
    }

    /// Pops the top of the current stack frame, if there is a frame and it is not empty.
    pub(crate) fn pop_stack_and_take(&mut self) -> (r: Option<NyaPrimitiveObject>)
        requires
            old(self).wf(),
        ensures
            final(self).wf(),
            final(self)@ == pop_top(old(self)@),
            r == (if old(self)@.stack.len() > 0 && old(self)@.stack.last().len() > 0 {
                Some(old(self)@.stack.last().last())
            } else {
                None
            }),
    {
        let mut top = match self.stack.pop() {
            Some(t) => t,
            None => {
                return None;
            },
        };
        let r = top.pop();
        self.stack.push(top);
        assert(self@.stack =~= pop_top(old(self)@).stack);
        r
    }

    /// Pops `n` objects from the current stack frame, or as many as there are.
    pub fn pop_stack(&mut self, n: usize)
        requires
            old(self).wf(),
        ensures
            final(self).wf(),
            final(self)@ == pop_top_n(old(self)@, n as nat),
    {
        let mut i: usize = 0;
        while i < n
            invariant
                self.wf(),
                i <= n,
                self@ == pop_top_n(old(self)@, i as nat),
            decreases n - i,
        {
            self.pop_stack_and_take();
            i = i + 1;
        }
    }

    /// Puts `obj` on the heap and returns a reference to it.
    pub fn alloc_heap_object(&mut self, obj: NyaHeapObject) -> (r: GcObject)
        requires
            old(self).wf(),
            heap_view_wf(obj@),
        ensures
            final(self).wf(),
            r.index == old(self)@.heap.len(),
            final(self)@ == (StateView {
                heap: old(self)@.heap.push(Some(obj@)),
                heap_order: old(self)@.heap_order.push(old(self)@.heap.len() as usize),
                ..old(self)@
            }),
    {
        let r = self.gc.allocate(obj);
        assert forall|i: int| 0 <= i < self.gc.marks().len() implies !#[trigger] self.gc.marks()[i] by {
            if i < old(self).gc.marks().len() {
                assert(self.gc.marks()[i] == old(self).gc.marks()[i]);
            }
        }
        r
    }
}

/// A frame with slot `id` set to `val`, grown with `Nil` up to it as needed.
pub open spec fn set_slot(b: Seq<NyaPrimitiveObject>, id: int, val: NyaPrimitiveObject) -> Seq<NyaPrimitiveObject> {
    Seq::new(
        if b.len() > id { b.len() } else { (id + 1) as nat },
        |k: int| if k == id { val } else if k < b.len() { b[k] } else { NyaPrimitiveObject::Nil },
    )
}

/// The state with the top of the current stack frame popped, if there is one.
pub open spec fn pop_top(v: StateView) -> StateView {
    if v.stack.len() > 0 && v.stack.last().len() > 0 {
        StateView { stack: v.stack.update(v.stack.len() - 1, v.stack.last().drop_last()), ..v }
    } else {
        v
    }
}

/// The state with the top `n` objects of the current stack frame popped (or all of them).
pub open spec fn pop_top_n(v: StateView, n: nat) -> StateView
    decreases n,
{
    if n == 0 {
        v
    } else {
        pop_top(pop_top_n(v, (n - 1) as nat))
    }
}


/// The text of the live string that `o` refers to, if it does.
pub open spec fn string_of(h: Seq<Option<HeapView>>, o: NyaPrimitiveObject) -> Option<Seq<char>> {
    match o {
        NyaPrimitiveObject::HeapRef(g) => if live(h, g.index as int) {
            match h[g.index as int]->0 {
                HeapView::Str(s) => Some(s),
                _ => None,
            }
        } else {
            None
        },
        _ => None,
    }
}

/// The entries of the live table that `o` refers to, if it does.
pub open spec fn table_of(h: Seq<Option<HeapView>>, o: NyaPrimitiveObject) -> Option<Seq<(KeyView, NyaPrimitiveObject)>> {
    match o {
        NyaPrimitiveObject::HeapRef(g) => if live(h, g.index as int) {
            match h[g.index as int]->0 {
                HeapView::Table(e) => Some(e),
                _ => None,
            }
        } else {
            None
        },
        _ => None,
    }
}

/// The value under `k` in the table with entries `e`, or `Nil`.
pub open spec fn lookup_or_nil(e: Seq<(KeyView, NyaPrimitiveObject)>, k: Option<KeyView>) -> NyaPrimitiveObject {
    match k {
        Some(k) => if assoc_map(e).contains_key(k) {
            assoc_map(e)[k]
        } else {
            NyaPrimitiveObject::Nil
        },
        None => NyaPrimitiveObject::Nil,
    }
}

impl NyaPrimitiveObject {
    /// The table key this value stands for: an integer, or the text of a live string on the
    /// heap `gc`; numbers, `Nil` and tables are not keys.
    pub fn into_hashable(self, gc: &GarbageCollector) -> (r: Option<NyaHashableType>)
        ensures
            match r {
                Some(k) => spec_hashable(gc.objects(), self) == Some(k@),
                None => spec_hashable(gc.objects(), self) is None,
            },
    {
        match self {
            NyaPrimitiveObject::Number(_) | NyaPrimitiveObject::Nil => None,
            NyaPrimitiveObject::Int(i) => Some(NyaHashableType::Int(i)),
            NyaPrimitiveObject::HeapRef(heap_obj) => match gc.get(heap_obj) {
                Some(NyaHeapObject::String(s)) => Some(NyaHashableType::String(s.clone())),
                _ => None,
            },
        }
    }
}

impl NyaState {
    /// The table key that `obj` stands for on this state's heap.
    pub fn hashable(&self, obj: NyaPrimitiveObject) -> (r: Option<NyaHashableType>)
        ensures
            match r {
                Some(k) => spec_hashable(self@.heap, obj) == Some(k@),
                None => spec_hashable(self@.heap, obj) is None,
            },
    {
        obj.into_hashable(&self.gc)
    }

    /// Converts `object` and pushes it on the current stack frame.
    pub fn push_value<T: IntoNyaObject>(&mut self, object: T)
        requires
            old(self).wf(),
            old(self)@.stack.len() > 0,
        ensures
            final(self).wf(),
            final(self)@ == push_top(
                allocated(old(self)@, object.allocations(old(self)@.heap.len())),
                object.converted(old(self)@.heap.len()),
            ),
    {
        let obj = object.into_nya_object(self);
        self.push_stack_object(obj);
    }

    /// The object at `stack_idx` of the current stack frame, converted to `T`.
    pub fn get_stack<T: FromNyaObject>(&self, stack_idx: isize) -> (r: Option<T>)
        requires
            self@.stack.len() > 0,
        ensures
            r == (match stack_object(self@, stack_idx) {
                Some(o) => T::from_spec(o),
                None => None,
            }),
    {
        if let Some(obj) = self.get_stack_object(stack_idx) {
            T::from_nya_object(obj)
        } else {
            None
        }
    }

    /// The string on this state's heap that `obj` refers to, if it refers to one.
    pub fn heap_string(&self, obj: NyaPrimitiveObject) -> (r: Option<&String>)
        ensures
            match r {
                Some(s) => string_of(self@.heap, obj) == Some(s@),
                None => string_of(self@.heap, obj) is None,
            },
    {
        match obj {
            NyaPrimitiveObject::HeapRef(g) => match self.gc.get(g) {
                Some(NyaHeapObject::String(s)) => Some(s),
                _ => None,
            },
            _ => None,
        }
    }

    /// The string that the object at `stack_idx` of the current stack frame refers to.
    pub fn get_string(&self, stack_idx: isize) -> (r: Option<&String>)
        requires
            self@.stack.len() > 0,
        ensures
            match r {
                Some(s) => stack_object(self@, stack_idx) matches Some(o) && string_of(self@.heap, o)
                    == Some(s@),
                None => !(stack_object(self@, stack_idx) matches Some(o) && string_of(self@.heap, o) is Some),
            },
    {
        match self.get_stack_object(stack_idx) {
            Some(NyaPrimitiveObject::HeapRef(g)) => match self.gc.get(g) {
                Some(NyaHeapObject::String(s)) => Some(s),
                _ => None,
            },
            _ => None,
        }
    }

    /// A mutable borrow of the string that the object at `stack_idx` of the current stack
    /// frame refers to, if it refers to one.  Whatever is written through the borrow becomes
    /// the text of that heap object; nothing else changes.
    pub fn get_string_mut(&mut self, stack_idx: isize) -> (r: Option<&mut String>)
        requires
            old(self).wf(),
            old(self)@.stack.len() > 0,
        ensures
            final(self).wf(),
            r is Some <==> (stack_object(old(self)@, stack_idx) matches Some(o) && string_of(
                old(self)@.heap,
                o,
            ) is Some),
            r matches Some(s) ==> (stack_object(old(self)@, stack_idx) matches Some(
                NyaPrimitiveObject::HeapRef(g),
            ) && string_of(old(self)@.heap, NyaPrimitiveObject::HeapRef(g)) == Some((*s)@)
                && final(self)@ == (StateView {
                heap: old(self)@.heap.update(g.index as int, Some(HeapView::Str((*final(s))@))),
                ..old(self)@
            })),
            r is None ==> final(self)@ == old(self)@,
    {
        match self.get_stack_object(stack_idx) {
            Some(NyaPrimitiveObject::HeapRef(g)) => self.gc.string_mut(g),
            _ => None,
        }
    }

    /// Looks up `field` in the table at `stack_idx` of the current stack frame and pushes the
    /// value found, or `Nil`.  The field is converted (allocating as its conversion does) only
    /// where that object is a table.
    pub fn push_field<T: IntoNyaObject>(&mut self, stack_idx: isize, field: T)
        requires
            old(self).wf(),
            old(self)@.stack.len() > 0,
        ensures
            final(self).wf(),
            ({
                let v = old(self)@;
                match stack_object(v, stack_idx) {
                    Some(o) => match table_of(v.heap, o) {
                        Some(e) => {
                            let w = allocated(v, field.allocations(v.heap.len()));
                            let k = spec_hashable(w.heap, field.converted(v.heap.len()));
                            final(self)@ == push_top(w, lookup_or_nil(e, k))
                        },
                        None => final(self)@ == push_top(v, NyaPrimitiveObject::Nil),
                    },
                    None => final(self)@ == push_top(v, NyaPrimitiveObject::Nil),
                }
            }),
    {
        let ghost v = self@;
        if let Some(NyaPrimitiveObject::HeapRef(heap_obj)) = self.get_stack_object(stack_idx) {
            if let Some(NyaHeapObject::Table(_)) = self.gc.get(heap_obj) {
                let ghost e = table_of(v.heap, NyaPrimitiveObject::HeapRef(heap_obj))->0;
                let converted = field.into_nya_object(self);
                let key = self.hashable(converted);
                let ghost w = self@;
                proof {
                    assert(w.heap[heap_obj.index as int] == v.heap[heap_obj.index as int]);
                }
                let found = match key {
                    Some(key) => match self.gc.get(heap_obj) {
                        Some(NyaHeapObject::Table(table)) => table.get(&key),
                        _ => None,
                    },
                    None => None,
                };
                match found {
                    Some(obj) => self.push_stack_object(obj),
                    None => self.push_stack_object(NyaPrimitiveObject::Nil),
                }
                return;
            }
        }
        self.push_stack_object(NyaPrimitiveObject::Nil);
    }
}


/// Which slots a collection keeps: the ones reachable from the stacks, variables, globals and
/// constants.
pub open spec fn kept(v: StateView) -> Seq<bool> {
    Seq::new(v.heap.len(), |i: int| reachable_from_state(v, i))
}

impl NyaState {
    /// Pops the top of the current stack frame (or takes `Nil`) and puts it under the key
    /// `field` in the table at `stack_idx`.  Where that object is not a table, nothing
    /// happens; otherwise the field name is first put on the heap as a string.
    pub fn pop_field(&mut self, stack_idx: isize, field: &str)
        requires
            old(self).wf(),
            old(self)@.stack.len() > 0,
        ensures
            final(self).wf(),
            ({
                let v = old(self)@;
                match stack_object(v, stack_idx) {
                    Some(o) => match table_of(v.heap, o) {
                        Some(e) => {
                            let w = allocated(v, seq![HeapView::Str(field@)]);
                            let p = pop_top(w);
                            let val = if w.stack.last().len() > 0 {
                                w.stack.last().last()
                            } else {
                                NyaPrimitiveObject::Nil
                            };
                            final(self)@ == (StateView {
                                heap: p.heap.update(
                                    o->HeapRef_0.index as int,
                                    Some(HeapView::Table(entries_insert(e, KeyView::Str(field@), val))),
                                ),
                                ..p
                            })
                        },
                        None => final(self)@ == v,
                    },
                    None => final(self)@ == v,
                }
            }),
    {
        let ghost v = self@;
        if let Some(NyaPrimitiveObject::HeapRef(heap_obj)) = self.get_stack_object(stack_idx) {
            if let Some(NyaHeapObject::Table(_)) = self.gc.get(heap_obj) {
                let converted = field.into_nya_object(self);
                let key = self.hashable(converted);
                proof {
                    self.gc.lemma_len_bound();
                    assert(self@.heap[heap_obj.index as int] == v.heap[heap_obj.index as int]);
                    assert(self@.heap[v.heap.len() as int] == Some(HeapView::Str(field@)));
                    assert(spec_hashable(self@.heap, converted) == Some(KeyView::Str(field@)));
                }
                if let Some(key) = key {
                    let obj = match self.pop_stack_and_take() {
                        Some(obj) => obj,
                        None => NyaPrimitiveObject::Nil,
                    };
                    let ghost p = self@;
                    self.gc.table_insert(heap_obj, key, obj);
                    proof {
                        assert(self@.heap =~= p.heap.update(
                            heap_obj.index as int,
                            Some(HeapView::Table(entries_insert(
                                table_of(v.heap, NyaPrimitiveObject::HeapRef(heap_obj))->0,
                                KeyView::Str(field@),
                                obj,
                            ))),
                        ));
                    }
                }
            }
        }
    }

    /// Converts `obj`, adds it to the constant pool and returns its index.
    pub fn add_constant<T: IntoNyaObject>(&mut self, obj: T) -> (r: usize)
        requires
            old(self).wf(),
        ensures
            final(self).wf(),
            final(self)@ == (StateView {
                constants: old(self)@.constants.push(obj.converted(old(self)@.heap.len())),
                ..allocated(old(self)@, obj.allocations(old(self)@.heap.len()))
            }),
            r == old(self)@.constants.len(),
    {
        let obj = obj.into_nya_object(self);
        self.constant_pool.push(obj);
        self.constant_pool.len() - 1
    }

    /// Constant `idx` of the constant pool.
    pub fn get_constant(&mut self, idx: usize) -> (r: Option<NyaPrimitiveObject>)
        ensures
            final(self)@ == old(self)@,
            final(self).wf() == old(self).wf(),
            r == (if idx < old(self)@.constants.len() {
                Some(old(self)@.constants[idx as int])
            } else {
                None
            }),
    {
        if idx < self.constant_pool.len() {
            Some(self.constant_pool[idx])
        } else {
            None
        }
    }

    /// Pushes constant `idx` on the current stack frame, or `Nil` if there is none.
    pub fn push_constant(&mut self, idx: usize)
        requires
            old(self).wf(),
            old(self)@.stack.len() > 0,
        ensures
            final(self).wf(),
            final(self)@ == push_top(
                old(self)@,
                if idx < old(self)@.constants.len() {
                    old(self)@.constants[idx as int]
                } else {
                    NyaPrimitiveObject::Nil
                },
            ),
    {
        if idx < self.constant_pool.len() {
            let obj = self.constant_pool[idx];
            self.push_stack_object(obj);
        } else {
            self.push_stack_object(NyaPrimitiveObject::Nil);
        }
    }

    /// Converts `object` and makes it the value of the global `name`.
    pub fn set_global_direct<T: IntoNyaObject>(&mut self, name: &str, object: T)
        requires
            old(self).wf(),
        ensures
            final(self).wf(),
            final(self)@ == (StateView {
                globals: old(self)@.globals.insert(
                    global_key(name@),
                    object.converted(old(self)@.heap.len()),
                ),
                ..allocated(old(self)@, object.allocations(old(self)@.heap.len()))
            }),
    {
        let obj = object.into_nya_object(self);
        self.globals.insert(NyaHashableType::String(name.to_string()), obj);
    }

    /// Removes the global `name`.
    pub fn remove_global(&mut self, name: &str)
        requires
            old(self).wf(),
        ensures
            final(self).wf(),
            final(self)@ == (StateView {
                globals: old(self)@.globals.remove(global_key(name@)),
                ..old(self)@
            }),
    {
        self.globals.remove(&NyaHashableType::String(name.to_string()));
    }

    /// Pushes the value of the global `name`, or `Nil` if there is none.
    pub fn push_global(&mut self, name: &str)
        requires
            old(self).wf(),
            old(self)@.stack.len() > 0,
        ensures
            final(self).wf(),
            final(self)@ == push_top(
                old(self)@,
                if old(self)@.globals.contains_key(global_key(name@)) {
                    old(self)@.globals[global_key(name@)]
                } else {
                    NyaPrimitiveObject::Nil
                },
            ),
    {
        let obj = match self.globals.get(&NyaHashableType::String(name.to_string())) {
            Some(obj) => obj,
            None => NyaPrimitiveObject::Nil,
        };
        self.push_stack_object(obj);
    }

    /// Pops the top of the current stack frame (or takes `Nil`) into the global `name`.
    pub fn pop_global(&mut self, name: &str)
        requires
            old(self).wf(),
        ensures
            final(self).wf(),
            ({
                let v = old(self)@;
                let val = if v.stack.len() > 0 && v.stack.last().len() > 0 {
                    v.stack.last().last()
                } else {
                    NyaPrimitiveObject::Nil
                };
                final(self)@ == (StateView {
                    globals: v.globals.insert(global_key(name@), val),
                    ..pop_top(v)
                })
            }),
    {
        let obj = match self.pop_stack_and_take() {
            Some(obj) => obj,
            None => NyaPrimitiveObject::Nil,
        };
        self.set_global_direct(name, obj);
        assert(allocated(self@, Seq::empty()).heap =~= self@.heap);
    }
}


/// Whether slot `i` is reached from some stack frame, some variable frame, some global or the
/// constant pool, each taken as its own set of roots.
pub open spec fn reached_piecewise(v: StateView, i: int) -> bool {
    ||| exists|f: int| 0 <= f < v.stack.len() && reachable(v.heap, #[trigger] v.stack[f], i)
    ||| exists|f: int| 0 <= f < v.variables.len() && reachable(v.heap, #[trigger] v.variables[f], i)
    ||| exists|name: KeyView| #[trigger] v.globals.contains_key(name) && reachable(v.heap, seq![v.globals[name]], i)
    ||| reachable(v.heap, v.constants, i)
}

/// Being reached from the state as a whole is being reached from one of its parts.
pub proof fn lemma_reached_piecewise(v: StateView, i: int)
    ensures
        reached_piecewise(v, i) <==> reachable_from_state(v, i),
{
    if reachable_from_state(v, i) {
        let p = choose|p: Seq<int>| #[trigger] is_path(v.heap, p) && is_state_root(v, p[0]) && p.last() == i;
        if exists|f: int, k: int| 0 <= f < v.stack.len() && 0 <= k < v.stack[f].len() && refers_to(#[trigger] v.stack[f][k], p[0]) {
            let (f, k) = choose|f: int, k: int| 0 <= f < v.stack.len() && 0 <= k < v.stack[f].len() && refers_to(#[trigger] v.stack[f][k], p[0]);
            assert(is_root(v.stack[f], p[0]));
            assert(reachable(v.heap, v.stack[f], i));
        } else if exists|f: int, k: int| 0 <= f < v.variables.len() && 0 <= k < v.variables[f].len() && refers_to(#[trigger] v.variables[f][k], p[0]) {
            let (f, k) = choose|f: int, k: int| 0 <= f < v.variables.len() && 0 <= k < v.variables[f].len() && refers_to(#[trigger] v.variables[f][k], p[0]);
            assert(is_root(v.variables[f], p[0]));
            assert(reachable(v.heap, v.variables[f], i));
        } else if exists|name: KeyView| #[trigger] v.globals.contains_key(name) && refers_to(v.globals[name], p[0]) {
            let name = choose|name: KeyView| #[trigger] v.globals.contains_key(name) && refers_to(v.globals[name], p[0]);
            assert(seq![v.globals[name]][0] == v.globals[name]);
            assert(is_root(seq![v.globals[name]], p[0]));
            assert(reachable(v.heap, seq![v.globals[name]], i));
        } else {
            assert(is_root(v.constants, p[0]));
            assert(reachable(v.heap, v.constants, i));
        }
    }
    if reached_piecewise(v, i) {
        if exists|f: int| 0 <= f < v.stack.len() && reachable(v.heap, #[trigger] v.stack[f], i) {
            let f = choose|f: int| 0 <= f < v.stack.len() && reachable(v.heap, #[trigger] v.stack[f], i);
            let p = choose|p: Seq<int>| #[trigger] is_path(v.heap, p) && is_root(v.stack[f], p[0]) && p.last() == i;
            let k = choose|k: int| 0 <= k < v.stack[f].len() && refers_to(#[trigger] v.stack[f][k], p[0]);
            assert(refers_to(v.stack[f][k], p[0]));
            assert(is_state_root(v, p[0]));
        } else if exists|f: int| 0 <= f < v.variables.len() && reachable(v.heap, #[trigger] v.variables[f], i) {
            let f = choose|f: int| 0 <= f < v.variables.len() && reachable(v.heap, #[trigger] v.variables[f], i);
            let p = choose|p: Seq<int>| #[trigger] is_path(v.heap, p) && is_root(v.variables[f], p[0]) && p.last() == i;
            let k = choose|k: int| 0 <= k < v.variables[f].len() && refers_to(#[trigger] v.variables[f][k], p[0]);
            assert(refers_to(v.variables[f][k], p[0]));
            assert(is_state_root(v, p[0]));
        } else if exists|name: KeyView| #[trigger] v.globals.contains_key(name) && reachable(v.heap, seq![v.globals[name]], i) {
            let name = choose|name: KeyView| #[trigger] v.globals.contains_key(name) && reachable(v.heap, seq![v.globals[name]], i);
            let p = choose|p: Seq<int>| #[trigger] is_path(v.heap, p) && is_root(seq![v.globals[name]], p[0]) && p.last() == i;
            let k = choose|k: int| 0 <= k < 1 && refers_to(#[trigger] seq![v.globals[name]][k], p[0]);
            assert(refers_to(v.globals[name], p[0]));
            assert(is_state_root(v, p[0]));
        } else {
            let p = choose|p: Seq<int>| #[trigger] is_path(v.heap, p) && is_root(v.constants, p[0]) && p.last() == i;
            let k = choose|k: int| 0 <= k < v.constants.len() && refers_to(#[trigger] v.constants[k], p[0]);
            assert(refers_to(v.constants[k], p[0]));
            assert(is_state_root(v, p[0]));
        }
    }
}

impl NyaState {
    /// Frees every heap object that the stacks, variables, globals and constants do not
    /// reach, and returns the freed objects in the order it frees them: backwards through the
    /// heap's list of objects, where each freed object is replaced by the list's last one.
    /// Objects still in use keep their slots and contents.
    pub fn garbage_collect(&mut self) -> (freed: Vec<NyaHeapObject>)
        requires
            old(self).wf(),
        ensures
            final(self).wf(),
            final(self)@ == collected(old(self)@),
            freed@.map_values(|o: NyaHeapObject| o@) == swept(
                old(self)@.heap,
                kept(old(self)@),
                old(self)@.heap_order,
            ),
    {
        let ghost v = self@;
        let ghost h = v.heap;
        let ghost n = h.len();
        proof {
            self.gc.lemma_marks_len();
            assert(v.heap == self.gc.objects());
        }
        let mut f: usize = 0;
        while f < self.stack.len()
            invariant
                v == (StateView { heap: self.gc.objects(), ..self@ }),
                self.gc.wf(),
                self.gc.objects() == h,
                self.gc.marks().len() == n,
                self.globals.wf(),
                f <= v.stack.len(),
                forall|i: int| 0 <= i < n ==> #[trigger] self.gc.marks()[i] == exists|g: int|
                    0 <= g < f && reachable(h, #[trigger] v.stack[g], i),
            decreases v.stack.len() - f,
        {
            let ghost m = self.gc.marks();
            self.gc.mark_slice(self.stack[f].as_slice());
            proof {
                assert(self.stack@[f as int]@ == v.stack[f as int]);
                assert forall|i: int| 0 <= i < n implies #[trigger] self.gc.marks()[i] == exists|g: int|
                    0 <= g < f + 1 && reachable(h, #[trigger] v.stack[g], i) by {
                    if reachable(h, v.stack[f as int], i) {
                        assert(0 <= f < f + 1);
                    }
                    if exists|g: int| 0 <= g < f + 1 && reachable(h, #[trigger] v.stack[g], i) {
                        let g = choose|g: int| 0 <= g < f + 1 && reachable(h, #[trigger] v.stack[g], i);
                        if g < f {
                            assert(m[i]);
                        }
                    }
                }
            }
            f = f + 1;
        }
        let mut f: usize = 0;
        while f < self.variables.len()
            invariant
                v == (StateView { heap: self.gc.objects(), ..self@ }),
                self.gc.wf(),
                self.gc.objects() == h,
                self.gc.marks().len() == n,
                self.globals.wf(),
                f <= v.variables.len(),
                forall|i: int| 0 <= i < n ==> #[trigger] self.gc.marks()[i] == ((exists|g: int|
                    0 <= g < v.stack.len() && reachable(h, #[trigger] v.stack[g], i)) || exists|g: int|
                    0 <= g < f && reachable(h, #[trigger] v.variables[g], i)),
            decreases v.variables.len() - f,
        {
            let ghost m = self.gc.marks();
            self.gc.mark_slice(self.variables[f].as_slice());
            proof {
                assert(self.variables@[f as int]@ == v.variables[f as int]);
                assert forall|i: int| 0 <= i < n implies #[trigger] self.gc.marks()[i] == ((exists|g: int|
                    0 <= g < v.stack.len() && reachable(h, #[trigger] v.stack[g], i)) || exists|g: int|
                    0 <= g < f + 1 && reachable(h, #[trigger] v.variables[g], i)) by {
                    if reachable(h, v.variables[f as int], i) {
                        assert(0 <= f < f + 1);
                    }
                    if exists|g: int| 0 <= g < f + 1 && reachable(h, #[trigger] v.variables[g], i) {
                        let g = choose|g: int| 0 <= g < f + 1 && reachable(h, #[trigger] v.variables[g], i);
                        if g < f {
                            assert(m[i]);
                        }
                    }
                }
            }
            f = f + 1;
        }
        let ghost e = self.globals.entries();
        assert(keys_unique(e));
        let mut k: usize = 0;
        while k < self.globals.len()
            invariant
                v == (StateView { heap: self.gc.objects(), ..self@ }),
                e == self.globals.entries(),
                keys_unique(e),
                self.gc.wf(),
                self.gc.objects() == h,
                self.gc.marks().len() == n,
                k <= e.len(),
                forall|i: int| 0 <= i < n ==> #[trigger] self.gc.marks()[i] == ((exists|g: int|
                    0 <= g < v.stack.len() && reachable(h, #[trigger] v.stack[g], i)) || (exists|g: int|
                    0 <= g < v.variables.len() && reachable(h, #[trigger] v.variables[g], i)) || exists|q: int|
                    0 <= q < k && reachable(h, seq![(#[trigger] e[q]).1], i)),
            decreases e.len() - k,
        {
            let ghost m = self.gc.marks();
            let val = self.globals.value_at(k);
            self.gc.mark(&val);
            proof {
                assert forall|i: int| 0 <= i < n implies #[trigger] self.gc.marks()[i] == ((exists|g: int|
                    0 <= g < v.stack.len() && reachable(h, #[trigger] v.stack[g], i)) || (exists|g: int|
                    0 <= g < v.variables.len() && reachable(h, #[trigger] v.variables[g], i)) || exists|q: int|
                    0 <= q < k + 1 && reachable(h, seq![(#[trigger] e[q]).1], i)) by {
                    if reachable(h, seq![val], i) {
                        assert(e[k as int].1 == val);
                    }
                    if exists|q: int| 0 <= q < k + 1 && reachable(h, seq![(#[trigger] e[q]).1], i) {
                        let q = choose|q: int| 0 <= q < k + 1 && reachable(h, seq![(#[trigger] e[q]).1], i);
                        if q < k {
                            assert(m[i]);
                        }
                    }
                }
            }
            k = k + 1;
        }
        let ghost m = self.gc.marks();
        self.gc.mark_slice(self.constant_pool.as_slice());
        let ghost marks = self.gc.marks();
        proof {
            assert forall|i: int| 0 <= i < n implies #[trigger] marks[i] == reachable_from_state(v, i) by {
                lemma_reached_piecewise(v, i);
                if exists|q: int| 0 <= q < e.len() && reachable(h, seq![(#[trigger] e[q]).1], i) {
                    let q = choose|q: int| 0 <= q < e.len() && reachable(h, seq![(#[trigger] e[q]).1], i);
                    lemma_assoc_index(e, q);
                    assert(v.globals.contains_key(e[q].0));
                    assert(v.globals[e[q].0] == e[q].1);
                }
                if exists|name: KeyView| #[trigger] v.globals.contains_key(name) && reachable(h, seq![v.globals[name]], i) {
                    let name = choose|name: KeyView| #[trigger] v.globals.contains_key(name) && reachable(h, seq![v.globals[name]], i);
                    lemma_assoc_contains(e, name);
                    let q = choose|q: int| 0 <= q < e.len() && (#[trigger] e[q]).0 == name;
                    lemma_assoc_index(e, q);
                    assert(e[q].1 == v.globals[name]);
                    assert(reachable(h, seq![e[q].1], i));
                }
            }
            assert(marks =~= kept(v));
        }
        let freed = self.gc.sweep();
        proof {
            assert forall|i: int| 0 <= i < self.gc.marks().len() implies !#[trigger] self.gc.marks()[i] by {}
        }
        freed
    }
}


/// A sweep with every live slot marked frees nothing and changes nothing, whatever the list
/// of objects it goes through.
pub proof fn lemma_sweep_all_marked(h: Seq<Option<HeapView>>, m: Seq<bool>, ord: Seq<usize>, i: int)
    requires
        m.len() == h.len(),
        forall|j: int| 0 <= j < h.len() && (#[trigger] h[j]) is Some ==> m[j],
    ensures
        swept(h, m, ord) == Seq::<HeapView>::empty(),
        after_sweep(h, m) == h,
        compacted(ord, h, m, i) == ord,
    decreases ord.len() + (if i < 0 { 0 } else { i }),
{
    if ord.len() > 0 {
        let k = ord.last() as int;
        if live(h, k) {
            assert(m[k]);
        }
        lemma_sweep_all_marked(h, m, ord.drop_last(), 0);
    }
    if 0 < i <= ord.len() {
        let k = ord[i - 1] as int;
        if live(h, k) {
            assert(m[k]);
        }
        lemma_sweep_all_marked(h, m, ord, i - 1);
    }
    assert(after_sweep(h, m) =~= h);
}

/// The state after a collection: the heap swept of everything the state does not reach.
pub open spec fn collected(v: StateView) -> StateView {
    StateView {
        heap: after_sweep(v.heap, kept(v)),
        heap_order: compacted(v.heap_order, v.heap, kept(v), v.heap_order.len() as int),
        ..v
    }
}

/// After a collection every object left on the heap is reachable, so a second collection
/// right after the first frees nothing and changes nothing.
pub proof fn lemma_collect_twice(v: StateView)
    ensures
        swept(collected(v).heap, kept(collected(v)), collected(v).heap_order) == Seq::<
            HeapView,
        >::empty(),
        collected(collected(v)) == collected(v),
{
    let w = collected(v);
    let h = v.heap;
    let hw = w.heap;
    assert forall|i: int| 0 <= i < hw.len() && (#[trigger] hw[i]) is Some implies kept(w)[i] by {
        assert(kept(v)[i]);
        let p = choose|p: Seq<int>| #[trigger] is_path(h, p) && is_state_root(v, p[0]) && p.last() == i;
        assert forall|k: int| 0 <= k < p.len() implies #[trigger] hw[p[k]] == h[p[k]] && live(h, p[k]) by {
            let q = p.take(k + 1);
            if k > 0 {
                assert(edge(h, p[k - 1], p[k]));
            }
            assert(live(h, p[k]));
            assert(is_path(h, q)) by {
                assert forall|j: int| 0 <= j < q.len() - 1 implies edge(h, #[trigger] q[j], q[j + 1]) by {
                    assert(q[j] == p[j] && q[j + 1] == p[j + 1]);
                    assert(edge(h, p[j], p[j + 1]));
                }
            }
            assert(q[0] == p[0] && q.last() == p[k]);
            assert(reachable_from_state(v, p[k]));
        }
        assert(is_path(hw, p)) by {
            assert(hw[p[0]] == h[p[0]]);
            assert forall|j: int| 0 <= j < p.len() - 1 implies edge(hw, #[trigger] p[j], p[j + 1]) by {
                assert(edge(h, p[j], p[j + 1]));
                assert(hw[p[j]] == h[p[j]]);
                assert(hw[p[j + 1]] == h[p[j + 1]]);
            }
        }
        assert(w.stack == v.stack && w.variables == v.variables && w.globals == v.globals
            && w.constants == v.constants);
        assert(is_state_root(w, p[0]));
        assert(reachable_from_state(w, i));
    }
    lemma_sweep_all_marked(hw, kept(w), w.heap_order, w.heap_order.len() as int);
    assert(collected(w) =~= w);
}


/// A collection keeps exactly the objects that the state reaches, with their contents, and
/// empties every other slot; an object that a stack frame, a variable frame, a global or a
/// constant refers to directly is always reached.
pub proof fn lemma_collect_keeps_reached(v: StateView, i: int)
    requires
        0 <= i < v.heap.len(),
    ensures
        collected(v).heap.len() == v.heap.len(),
        reachable_from_state(v, i) ==> collected(v).heap[i] == v.heap[i],
        !reachable_from_state(v, i) ==> collected(v).heap[i] is None,
        live(v.heap, i) && is_state_root(v, i) ==> reachable_from_state(v, i),
{
    if live(v.heap, i) && is_state_root(v, i) {
        let p = seq![i];
        assert(is_path(v.heap, p));
        assert(p[0] == i && p.last() == i);
    }
    if reachable_from_state(v, i) {
        let p = choose|p: Seq<int>| #[trigger] is_path(v.heap, p) && is_state_root(v, p[0]) && p.last() == i;
        if p.len() > 1 {
            assert(edge(v.heap, p[p.len() - 2], p[p.len() - 1]));
        }
        assert(live(v.heap, i));
    }
}

} // verus!
