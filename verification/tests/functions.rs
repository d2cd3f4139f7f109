use lib::functions::{CallableRustClosure, FunctionGenericType, IntoFunctionGenericType};
use lib::object::Nil;
use lib::state::NyaState;

#[test]
fn call_pops_arguments_and_pushes_the_result() {
    let mut ns = NyaState::new();
    ns.create_stack_frame();
    ns.push_value(10i64);
    ns.push_value(5i64);

    let add = |a: i64, b: i64| -> i64 { a - b };
    let func: FunctionGenericType<_, i64, (i64, i64)> = add.into_function_generic();
    assert_eq!(func.call(&mut ns), Some(()));

    assert_eq!(ns.get_stack::<i64>(-1), Some(5));
    assert_eq!(ns.get_stack::<i64>(-2), None);
}

#[test]
fn call_with_arguments_of_other_types_changes_nothing() {
    let mut ns = NyaState::new();
    ns.push_value(Nil);
    let twice = FunctionGenericType::<_, i64, (i64,)>::new(|a: i64| -> i64 { 2 * a });
    assert_eq!(twice.call(&mut ns), None);
    assert!(ns.get_stack::<Nil>(-1).is_some());
    assert_eq!(ns.get_stack::<i64>(-2), None);
}

#[test]
fn call_with_too_few_arguments_changes_nothing() {
    let mut ns = NyaState::new();
    ns.push_value(1i64);
    let sum3 = FunctionGenericType::<_, i64, (i64, i64, i64)>::new(|a: i64, b: i64, c: i64| -> i64 { a + b + c });
    assert_eq!(sum3.call(&mut ns), None);
    assert_eq!(ns.get_stack::<i64>(-1), Some(1));
}

#[test]
fn call_can_return_a_string() {
    let mut ns = NyaState::new();
    ns.push_value(3i64);
    let text = FunctionGenericType::<_, String, (i64,)>::new(|a: i64| -> String { format!("n={}", a) });
    assert_eq!(text.call(&mut ns), Some(()));
    assert_eq!(ns.get_string(-1).unwrap(), "n=3");
}
