//! Values of the virtual machine: primitives that live on its stacks, the objects that live on
//! its garbage-collected heap, and the tables those objects can be.
use vstd::prelude::*;
use crate::assoc::{
    assoc_map, keys_unique, lemma_assoc_contains, lemma_assoc_index, lemma_assoc_push_unique,
    lemma_assoc_remove, lemma_assoc_update,
};

use crate::convert::lemma_entries_insert_unique;

verus! {

/// A reference to an object on the garbage-collected heap: the index of its slot.
#[derive(Debug, Clone, Copy, PartialEq, Eq, Hash, Structural)]
pub struct GcObject {
    pub index: usize,
}

/// A value on a stack, in a variable, a global or a table.  `Number` holds the bit pattern of
/// a 64-bit floating-point number (as `f64::to_bits` gives it).
#[derive(Debug, Clone, Copy, PartialEq, Eq, Structural)]
pub enum NyaPrimitiveObject {
    HeapRef(GcObject),
    Number(u64),
    Int(i64),
    Nil,
}

/// A value that can key a table.
#[derive(Debug, Clone, PartialEq, Eq, Hash)]
pub enum NyaHashableType {
    Int(i64),
    String(String),
}

/// The mathematical content of a table key.
pub enum KeyView {
    Int(i64),
    Str(Seq<char>),
}

impl View for NyaHashableType {
    type V = KeyView;

    open spec fn view(&self) -> KeyView {
        match self {
            NyaHashableType::Int(i) => KeyView::Int(*i),
            NyaHashableType::String(s) => KeyView::Str(s@),
        }
    }
}

/// Whether two keys are equal.
pub fn key_eq(a: &NyaHashableType, b: &NyaHashableType) -> (r: bool)
    ensures
        r == (a@ == b@),
{
    match (a, b) {
        (NyaHashableType::Int(x), NyaHashableType::Int(y)) => *x == *y,
        (NyaHashableType::String(x), NyaHashableType::String(y)) => x.eq(y),
        _ => false,
    }
}

/// A copy of a key.
pub fn key_clone(a: &NyaHashableType) -> (r: NyaHashableType)
    ensures
        r@ == a@,
{
    match a {
        NyaHashableType::Int(x) => NyaHashableType::Int(*x),
        NyaHashableType::String(s) => NyaHashableType::String(s.clone()),
    }
}

/// The entries after putting `v` under `k`: the pair with key `k` gets the new value, or a
/// new pair is appended.
pub open spec fn entries_insert(
    e: Seq<(KeyView, NyaPrimitiveObject)>,
    k: KeyView,
    v: NyaPrimitiveObject,
) -> Seq<(KeyView, NyaPrimitiveObject)> {
    if exists|i: int| 0 <= i < e.len() && (#[trigger] e[i]).0 == k {
        let i = choose|i: int| 0 <= i < e.len() && (#[trigger] e[i]).0 == k;
        e.update(i, (k, v))
    } else {
        e.push((k, v))
    }
}

/// A table: values under distinct keys, kept in the order their keys were first inserted.
#[derive(Debug, Clone)]
pub struct NyaTable {
    entries: Vec<(NyaHashableType, NyaPrimitiveObject)>,
}

/// The mathematical content of a table's entries.
pub open spec fn entry_views(s: Seq<(NyaHashableType, NyaPrimitiveObject)>) -> Seq<
    (KeyView, NyaPrimitiveObject),
> {
    s.map_values(|e: (NyaHashableType, NyaPrimitiveObject)| (e.0@, e.1))
}

impl NyaTable {
    /// The entries of the table, in order.
    pub closed spec fn entries(&self) -> Seq<(KeyView, NyaPrimitiveObject)> {
        entry_views(self.entries@)
    }

    /// The keys of the table are distinct.
    pub open spec fn wf(&self) -> bool {
        keys_unique(self.entries())
    }

    /// An empty table.
    pub fn new() -> (r: Self)
        ensures
            r.wf(),
            r.entries() == Seq::<(KeyView, NyaPrimitiveObject)>::empty(),
    {
        let r = NyaTable { entries: Vec::new() };
        assert(r.entries() =~= Seq::<(KeyView, NyaPrimitiveObject)>::empty());
        r
    }

    /// The number of entries.
    pub fn len(&self) -> (r: usize)
        ensures
            r == self.entries().len(),
    {
        self.entries.len()
    }

    /// The value of entry `i`.
    pub fn value_at(&self, i: usize) -> (r: NyaPrimitiveObject)
        requires
            i < self.entries().len(),
        ensures
            r == self.entries()[i as int].1,
    {
        self.entries[i].1
    }

    /// The index of the entry keyed `key`.
    fn find(&self, key: &NyaHashableType) -> (r: Option<usize>)
        ensures
            match r {
                Some(i) => i < self.entries().len() && self.entries()[i as int].0 == key@,
                None => !assoc_map(self.entries()).contains_key(key@),
            },
    {
        let mut i: usize = 0;
        while i < self.entries.len()
            invariant
                i <= self.entries@.len(),
                forall|j: int| 0 <= j < i ==> (#[trigger] self.entries()[j]).0 != key@,
            decreases self.entries@.len() - i,
        {
            if key_eq(&self.entries[i].0, key) {
                return Some(i);
            }
            i = i + 1;
        }
        proof {
            lemma_assoc_contains(self.entries(), key@);
        }
        None
    }

    /// The value under `key`, if any.
    pub fn get(&self, key: &NyaHashableType) -> (r: Option<NyaPrimitiveObject>)
        requires
            self.wf(),
        ensures
            r == (if assoc_map(self.entries()).contains_key(key@) {
                Some(assoc_map(self.entries())[key@])
            } else {
                None
            }),
    {
        match self.find(key) {
            Some(i) => {
                proof {
                    lemma_assoc_index(self.entries(), i as int);
                }
                Some(self.entries[i].1)
            },
            None => None,
        }
    }

    /// Puts `value` under `key`, replacing what was there.
    pub fn insert(&mut self, key: NyaHashableType, value: NyaPrimitiveObject)
        requires
            old(self).wf(),
        ensures
            final(self).wf(),
            assoc_map(final(self).entries()) == assoc_map(old(self).entries()).insert(key@, value),
            final(self).entries() == entries_insert(old(self).entries(), key@, value),
    {
        match self.find(&key) {
            Some(i) => {
                proof {
                    lemma_assoc_update(self.entries(), i as int, value);
                    let e = self.entries();
                    let c = choose|c: int| 0 <= c < e.len() && (#[trigger] e[c]).0 == key@;
                    if c != i {
                        if c < i {
                            assert(e[c].0 != e[i as int].0);
                        } else {
                            assert(e[i as int].0 != e[c].0);
                        }
                    }
                }
                let k = key_clone(&self.entries[i].0);
                self.entries.set(i, (k, value));
                assert(self.entries() =~= old(self).entries().update(
                    i as int,
                    (old(self).entries()[i as int].0, value),
                ));
            },
            None => {
                proof {
                    lemma_assoc_push_unique(self.entries(), key@, value);
                    lemma_assoc_contains(self.entries(), key@);
                }
                self.entries.push((key, value));
                assert(self.entries() =~= old(self).entries().push((key@, value)));
            },
        }
    }

    /// Removes the entry under `key`, if any.
    pub fn remove(&mut self, key: &NyaHashableType)
        requires
            old(self).wf(),
        ensures
            final(self).wf(),
            assoc_map(final(self).entries()) == assoc_map(old(self).entries()).remove(key@),
    {
        match self.find(key) {
            Some(i) => {
                proof {
                    lemma_assoc_remove(self.entries(), i as int);
                }
                self.entries.remove(i);
                assert(self.entries() =~= old(self).entries().remove(i as int));
            },
            None => {
                assert(assoc_map(self.entries()) =~= assoc_map(self.entries()).remove(key@));
            },
        }
    }
}

/// An object on the heap: a table or a string.
#[derive(Debug, Clone)]
pub enum NyaHeapObject {
    Table(NyaTable),
    String(String),
}

/// The mathematical content of a heap object.
pub enum HeapView {
    Table(Seq<(KeyView, NyaPrimitiveObject)>),
    Str(Seq<char>),
}

/// A heap object's table, if it is one, has distinct keys.
pub open spec fn heap_view_wf(h: HeapView) -> bool {
    h matches HeapView::Table(e) ==> keys_unique(e)
}

impl View for NyaHeapObject {
    type V = HeapView;

    open spec fn view(&self) -> HeapView {
        match self {
            NyaHeapObject::Table(t) => HeapView::Table(t.entries()),
            NyaHeapObject::String(s) => HeapView::Str(s@),
        }
    }
}

/// The unit value `Nil`.
#[derive(Debug, Clone, Copy)]
pub struct Nil;


/// Putting `v` under `k` in a table with distinct keys: the table then gives `v` under `k`,
/// every other key keeps its value, the keys stay distinct, a key already there keeps its
/// place and a new key comes last.
pub proof fn lemma_table_insert(e: Seq<(KeyView, NyaPrimitiveObject)>, k: KeyView, v: NyaPrimitiveObject)
    requires
        keys_unique(e),
    ensures
        assoc_map(entries_insert(e, k, v)) == assoc_map(e).insert(k, v),
        keys_unique(entries_insert(e, k, v)),
        assoc_map(e).contains_key(k) ==> entries_insert(e, k, v).len() == e.len(),
        !assoc_map(e).contains_key(k) ==> entries_insert(e, k, v) == e.push((k, v)),
{
    lemma_entries_insert_unique(e, k, v);
    lemma_assoc_contains(e, k);
    if exists|i: int| 0 <= i < e.len() && (#[trigger] e[i]).0 == k {
        let i = choose|i: int| 0 <= i < e.len() && (#[trigger] e[i]).0 == k;
        lemma_assoc_update(e, i, v);
    } else {
        lemma_assoc_push_unique(e, k, v);
    }
}

} // verus!
