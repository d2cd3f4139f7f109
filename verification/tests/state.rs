use lib::object::{GcObject, Nil, NyaHeapObject, NyaPrimitiveObject, NyaTable};
use lib::state::{calc_idx, NyaState};

#[test]
fn test_mutable_borrow() {
    let mut ns = NyaState::new();
    ns.create_stack_frame();

    ns.push_value("test string");

    {
        let s = ns.get_string_mut(-1).unwrap();
        s.push_str(". Whooo!! :3");
    }

    let s2 = ns.get_string(-1).unwrap();

    assert_eq!(*s2, "test string. Whooo!! :3");

    ns.pop_stack(1);
    ns.garbage_collect();
}

// Further cases.

#[test]
fn calc_idx_counts_negative_indices_from_the_end() {
    assert_eq!(calc_idx(10, -1), 9);
    assert_eq!(calc_idx(10, -10), 0);
    assert_eq!(calc_idx(10, 3), 3);
    assert!(calc_idx(10, -11) > 10);
}

#[test]
fn push_value_and_get_stack_read_back() {
    let mut ns = NyaState::new();
    ns.push_value(42i64);
    ns.push_value(7u64);
    ns.push_value(Nil);
    assert_eq!(ns.get_stack::<i64>(-3), Some(42));
    assert_eq!(ns.get_stack::<u64>(-2), Some(7));
    assert!(ns.get_stack::<Nil>(-1).is_some());
    assert_eq!(ns.get_stack::<i64>(-1), None);
    assert_eq!(ns.get_stack::<i64>(0), Some(42));
    assert_eq!(ns.get_stack::<i64>(5), None);
    assert_eq!(ns.get_stack::<usize>(0), Some(42));
    assert_eq!(ns.get_stack::<()>(2), Some(()));
}

#[test]
fn small_integers_widen_to_i64() {
    let mut ns = NyaState::new();
    ns.push_value(-5i8);
    ns.push_value(300i16);
    ns.push_value(70000i32);
    ns.push_value(200u8);
    ns.push_value(60000u16);
    ns.push_value(4000000000u32);
    assert_eq!(ns.get_stack::<i64>(0), Some(-5));
    assert_eq!(ns.get_stack::<i64>(1), Some(300));
    assert_eq!(ns.get_stack::<i64>(2), Some(70000));
    assert_eq!(ns.get_stack::<i64>(3), Some(200));
    assert_eq!(ns.get_stack::<i64>(4), Some(60000));
    assert_eq!(ns.get_stack::<i64>(5), Some(4000000000));
}

#[test]
fn u64_keeps_its_bits() {
    let mut ns = NyaState::new();
    ns.push_value(u64::MAX);
    assert_eq!(ns.get_stack::<i64>(-1), Some(-1));
    assert_eq!(ns.get_stack::<u64>(-1), Some(u64::MAX));
}

#[test]
fn pop_stack_pops_at_most_what_is_there() {
    let mut ns = NyaState::new();
    ns.push_value(1i64);
    ns.push_value(2i64);
    ns.pop_stack(1);
    assert_eq!(ns.get_stack::<i64>(-1), Some(1));
    ns.pop_stack(5);
    assert_eq!(ns.get_stack::<i64>(-1), None);
}

#[test]
fn stack_frames_are_separate() {
    let mut ns = NyaState::new();
    ns.push_value(1i64);
    ns.create_stack_frame();
    assert_eq!(ns.get_stack::<i64>(-1), None);
    ns.push_value(2i64);
    assert_eq!(ns.get_stack::<i64>(0), Some(2));
}

#[test]
fn locals_grow_with_nil() {
    let mut ns = NyaState::new();
    ns.set_local(2, NyaPrimitiveObject::Int(9));
    assert_eq!(ns.get_local(2), Some(&NyaPrimitiveObject::Int(9)));
    assert_eq!(ns.get_local(0), Some(&NyaPrimitiveObject::Nil));
    assert_eq!(ns.get_local(3), None);
    ns.set_local(0, NyaPrimitiveObject::Int(1));
    assert_eq!(ns.get_local(0), Some(&NyaPrimitiveObject::Int(1)));
    assert_eq!(ns.get_local(2), Some(&NyaPrimitiveObject::Int(9)));
    ns.create_variable_frame();
    assert_eq!(ns.get_local(0), None);
}

#[test]
fn globals_set_read_and_remove() {
    let mut ns = NyaState::new();
    ns.set_global_direct("answer", 42i64);
    ns.push_global("answer");
    assert_eq!(ns.get_stack::<i64>(-1), Some(42));
    ns.push_value(5i64);
    ns.pop_global("answer");
    ns.push_global("answer");
    assert_eq!(ns.get_stack::<i64>(-1), Some(5));
    ns.remove_global("answer");
    ns.push_global("answer");
    assert!(ns.get_stack::<Nil>(-1).is_some());
    ns.push_global("missing");
    assert!(ns.get_stack::<Nil>(-1).is_some());
}

#[test]
fn pop_global_on_an_empty_stack_stores_nil() {
    let mut ns = NyaState::new();
    ns.pop_global("g");
    ns.push_global("g");
    assert!(ns.get_stack::<Nil>(-1).is_some());
}

#[test]
fn constants_are_numbered_in_order() {
    let mut ns = NyaState::new();
    assert_eq!(ns.add_constant(10i64), 0);
    assert_eq!(ns.add_constant("name"), 1);
    assert_eq!(ns.get_constant(0), Some(NyaPrimitiveObject::Int(10)));
    assert!(matches!(ns.get_constant(1), Some(NyaPrimitiveObject::HeapRef(_))));
    assert_eq!(ns.get_constant(2), None);
    ns.push_constant(0);
    assert_eq!(ns.get_stack::<i64>(-1), Some(10));
    ns.push_constant(7);
    assert!(ns.get_stack::<Nil>(-1).is_some());
    ns.push_constant(1);
    assert_eq!(ns.get_string(-1).unwrap(), "name");
}

#[test]
fn vec_becomes_a_table_keyed_by_index() {
    let mut ns = NyaState::new();
    ns.push_value(vec![10i64, 20, 30]);
    ns.push_field(-1, 1i64);
    assert_eq!(ns.get_stack::<i64>(-1), Some(20));
    ns.pop_stack(1);
    ns.push_field(-1, 3i64);
    assert!(ns.get_stack::<Nil>(-1).is_some());
    ns.pop_stack(1);
    ns.push_field(-1, Nil);
    assert!(ns.get_stack::<Nil>(-1).is_some());
}

#[test]
fn fields_set_and_read_by_name() {
    let mut ns = NyaState::new();
    let table = ns.alloc_heap_object(NyaHeapObject::Table(NyaTable::new()));
    ns.push_value(NyaPrimitiveObject::HeapRef(table));
    ns.push_value(5i64);
    ns.pop_field(-2, "x");
    ns.push_field(-1, "x");
    assert_eq!(ns.get_stack::<i64>(-1), Some(5));
    ns.pop_stack(1);
    ns.push_field(-1, "y");
    assert!(ns.get_stack::<Nil>(-1).is_some());
}

#[test]
fn fields_of_what_is_not_a_table() {
    let mut ns = NyaState::new();
    ns.push_value(1i64);
    ns.push_value(2i64);
    ns.pop_field(-2, "x");
    assert_eq!(ns.get_stack::<i64>(-1), Some(2));
    ns.push_field(-1, "x");
    assert!(ns.get_stack::<Nil>(-1).is_some());
}

#[test]
fn get_string_mut_of_a_non_string_is_none() {
    let mut ns = NyaState::new();
    ns.push_value(1i64);
    assert!(ns.get_string_mut(-1).is_none());
    assert_eq!(ns.get_stack::<i64>(-1), Some(1));
    assert!(ns.get_string(-1).is_none());
}

#[test]
fn hashable_keys() {
    let mut ns = NyaState::new();
    ns.push_value("key");
    let s = NyaPrimitiveObject::HeapRef(GcObject { index: 0 });
    assert!(ns.hashable(s).is_some());
    assert!(ns.hashable(NyaPrimitiveObject::Int(3)).is_some());
    assert!(ns.hashable(NyaPrimitiveObject::Nil).is_none());
    assert!(ns.hashable(NyaPrimitiveObject::Number(0)).is_none());
    assert!(ns.hashable(NyaPrimitiveObject::HeapRef(GcObject { index: 9 })).is_none());
}

#[test]
fn garbage_collect_frees_what_nothing_reaches() {
    let mut ns = NyaState::new();
    ns.push_value("kept");
    ns.push_value("dropped");
    ns.pop_stack(1);
    let freed = ns.garbage_collect();
    assert_eq!(freed.len(), 1);
    assert!(matches!(&freed[0], NyaHeapObject::String(s) if s == "dropped"));
    assert_eq!(ns.get_string(-1).unwrap(), "kept");
    let again = ns.garbage_collect();
    assert!(again.is_empty());
}

#[test]
fn garbage_collect_follows_tables_globals_and_constants() {
    let mut ns = NyaState::new();
    ns.push_value(vec!["a", "b"]);
    ns.set_global_direct("g", "global text");
    ns.add_constant("constant text");
    ns.push_value("loose");
    ns.pop_stack(1);
    let freed = ns.garbage_collect();
    assert_eq!(freed.len(), 1);
    assert!(matches!(&freed[0], NyaHeapObject::String(s) if s == "loose"));
    ns.push_field(-1, 0i64);
    assert_eq!(ns.get_string(-1).unwrap(), "a");
    ns.push_global("g");
    assert_eq!(ns.get_string(-1).unwrap(), "global text");
}

#[test]
fn garbage_collect_frees_from_the_highest_slot_down() {
    let mut ns = NyaState::new();
    ns.push_value("first");
    ns.push_value("second");
    ns.pop_stack(2);
    let freed = ns.garbage_collect();
    assert_eq!(freed.len(), 2);
    assert!(matches!(&freed[0], NyaHeapObject::String(s) if s == "second"));
    assert!(matches!(&freed[1], NyaHeapObject::String(s) if s == "first"));
}

#[test]
fn table_insert_get_remove() {
    let mut t = NyaTable::new();
    t.insert(lib::object::NyaHashableType::Int(1), NyaPrimitiveObject::Int(10));
    t.insert(lib::object::NyaHashableType::String("k".to_string()), NyaPrimitiveObject::Nil);
    t.insert(lib::object::NyaHashableType::Int(1), NyaPrimitiveObject::Int(11));
    assert_eq!(t.len(), 2);
    assert_eq!(t.get(&lib::object::NyaHashableType::Int(1)), Some(NyaPrimitiveObject::Int(11)));
    assert_eq!(t.value_at(0), NyaPrimitiveObject::Int(11));
    t.remove(&lib::object::NyaHashableType::Int(1));
    assert_eq!(t.get(&lib::object::NyaHashableType::Int(1)), None);
    assert_eq!(t.len(), 1);
}

#[test]
fn array_becomes_a_table_keyed_by_index() {
    let mut ns = NyaState::new();
    ns.push_value(["x", "y"]);
    ns.push_field(-1, 1i64);
    assert_eq!(ns.get_string(-1).unwrap(), "y");
}

#[test]
fn garbage_collect_keeps_what_a_local_variable_holds() {
    let mut ns = NyaState::new();
    ns.push_value("held by a local");
    let obj = NyaPrimitiveObject::HeapRef(GcObject { index: 0 });
    ns.set_local(0, obj);
    ns.pop_stack(1);
    let freed = ns.garbage_collect();
    assert!(freed.is_empty());
    ns.push_value(obj);
    assert_eq!(ns.get_string(-1).unwrap(), "held by a local");
}

#[test]
fn table_from_pairs_keeps_pairs_with_table_keys() {
    let mut ns = NyaState::new();
    let pairs: Vec<(NyaPrimitiveObject, i64)> = vec![
        (NyaPrimitiveObject::Int(1), 10),
        (NyaPrimitiveObject::Nil, 20),
        (NyaPrimitiveObject::Int(1), 30),
        (NyaPrimitiveObject::Int(2), 40),
    ];
    let t = ns.table_from_pairs(pairs);
    ns.push_value(t);
    ns.push_field(-1, 1i64);
    assert_eq!(ns.get_stack::<i64>(-1), Some(30));
    ns.pop_stack(1);
    ns.push_field(-1, 2i64);
    assert_eq!(ns.get_stack::<i64>(-1), Some(40));
}

#[test]
fn table_from_pairs_with_string_keys() {
    let mut ns = NyaState::new();
    let t = ns.table_from_pairs(vec![("a", 1i64), ("b", 2i64)]);
    ns.push_value(t);
    ns.push_field(-1, "b");
    assert_eq!(ns.get_stack::<i64>(-1), Some(2));
}

#[test]
fn garbage_collect_goes_through_the_heap_list_backwards() {
    let mut ns = NyaState::new();
    ns.push_value("a");
    ns.push_value("b");
    ns.pop_stack(1);
    ns.push_value("c");
    ns.push_value("d");
    let freed = ns.garbage_collect();
    assert_eq!(freed.len(), 1);
    assert!(matches!(&freed[0], NyaHeapObject::String(s) if s == "b"));
    // Freeing "b" moved the last object of the list, "d", into its place.
    ns.pop_stack(3);
    let freed = ns.garbage_collect();
    let texts: Vec<String> = freed
        .iter()
        .map(|o| match o {
            NyaHeapObject::String(s) => s.clone(),
            NyaHeapObject::Table(_) => String::new(),
        })
        .collect();
    assert_eq!(texts, vec!["c".to_string(), "d".to_string(), "a".to_string()]);
}
