use lib::instruction::{integer_text, Instruction, RunEnd, Step, VmError};
use lib::object::{GcObject, NyaPrimitiveObject};
use lib::state::NyaState;

fn running(arguments: Vec<NyaPrimitiveObject>) -> NyaState {
    let mut ns = NyaState::new();
    ns.begin_run(arguments);
    ns
}

/// Checks `instr`, and carries it out where the check passes.
fn step(ns: &mut NyaState, instr: Instruction) -> Result<Step, VmError> {
    ns.check_instruction(&instr)?;
    Ok(ns.execute(&instr))
}

#[test]
fn begin_run_puts_arguments_in_a_new_variable_frame() {
    let ns = running(vec![NyaPrimitiveObject::Int(4), NyaPrimitiveObject::Nil]);
    assert_eq!(ns.get_local(0), Some(&NyaPrimitiveObject::Int(4)));
    assert_eq!(ns.get_local(1), Some(&NyaPrimitiveObject::Nil));
    assert_eq!(ns.get_local(2), None);
    assert_eq!(ns.get_stack::<i64>(-1), None);
}

#[test]
fn push_pop_and_print() {
    let mut ns = running(Vec::new());
    assert_eq!(step(&mut ns, Instruction::Push(NyaPrimitiveObject::Int(3))), Ok(Step::Next));
    assert_eq!(step(&mut ns, Instruction::Print), Ok(Step::Print(NyaPrimitiveObject::Int(3))));
    assert_eq!(step(&mut ns, Instruction::Print), Ok(Step::Next));
    assert_eq!(step(&mut ns, Instruction::Push(NyaPrimitiveObject::Nil)), Ok(Step::Next));
    assert_eq!(step(&mut ns, Instruction::Pop), Ok(Step::Next));
    assert_eq!(ns.get_stack::<i64>(-1), None);
    assert_eq!(step(&mut ns, Instruction::Halt), Ok(Step::Halt));
}

#[test]
fn add_integers() {
    let mut ns = running(Vec::new());
    step(&mut ns, Instruction::Push(NyaPrimitiveObject::Int(40))).unwrap();
    step(&mut ns, Instruction::Push(NyaPrimitiveObject::Int(2))).unwrap();
    assert_eq!(step(&mut ns, Instruction::Add), Ok(Step::Next));
    assert_eq!(ns.get_stack::<i64>(-1), Some(42));
    assert_eq!(ns.get_stack::<i64>(-2), None);
}

#[test]
fn add_overflow_is_an_error() {
    let mut ns = running(Vec::new());
    step(&mut ns, Instruction::Push(NyaPrimitiveObject::Int(i64::MAX))).unwrap();
    step(&mut ns, Instruction::Push(NyaPrimitiveObject::Int(1))).unwrap();
    assert_eq!(ns.check_instruction(&Instruction::Add), Err(VmError::IntegerOverflow));
    assert_eq!(ns.get_stack::<i64>(-1), Some(1));
}

#[test]
fn add_of_numbers_is_left_to_the_caller() {
    let mut ns = running(Vec::new());
    let a = NyaPrimitiveObject::Number(1.5f64.to_bits());
    let b = NyaPrimitiveObject::Int(2);
    step(&mut ns, Instruction::Push(b)).unwrap();
    step(&mut ns, Instruction::Push(a)).unwrap();
    assert_eq!(step(&mut ns, Instruction::Add), Ok(Step::AddNumbers(a, b)));
    assert_eq!(ns.get_stack::<i64>(-1), None);
}

#[test]
fn add_errors() {
    let mut ns = running(Vec::new());
    assert_eq!(ns.check_instruction(&Instruction::Add), Err(VmError::StackUnderflow));
    step(&mut ns, Instruction::Push(NyaPrimitiveObject::Int(1))).unwrap();
    assert_eq!(ns.check_instruction(&Instruction::Add), Err(VmError::StackUnderflow));
    step(&mut ns, Instruction::Push(NyaPrimitiveObject::Nil)).unwrap();
    assert_eq!(ns.check_instruction(&Instruction::Add), Err(VmError::TypesCannotBeAdded));
    assert_eq!(ns.check_instruction(&Instruction::Pop), Ok(()));
}

#[test]
fn locals() {
    let mut ns = running(vec![NyaPrimitiveObject::Int(8)]);
    assert_eq!(step(&mut ns, Instruction::GetLocal(0)), Ok(Step::Next));
    assert_eq!(ns.get_stack::<i64>(-1), Some(8));
    assert_eq!(ns.check_instruction(&Instruction::SetLocal(usize::MAX)), Err(VmError::OutOfMemory));
    assert_eq!(step(&mut ns, Instruction::SetLocal(3)), Ok(Step::Next));
    assert_eq!(ns.get_local(3), Some(&NyaPrimitiveObject::Int(8)));
    assert_eq!(ns.check_instruction(&Instruction::GetLocal(7)), Err(VmError::MissingVariable(7)));
    assert_eq!(ns.check_instruction(&Instruction::SetLocal(0)), Err(VmError::MissingValue));
    assert_eq!(ns.check_instruction(&Instruction::SetLocal(usize::MAX)), Err(VmError::MissingValue));
}

#[test]
fn globals_through_string_constants() {
    let mut ns = NyaState::new();
    let name = ns.add_constant("variable");
    let number = ns.add_constant(5i64);
    ns.set_global_direct("variable", "Hello world");
    ns.begin_run(Vec::new());
    assert_eq!(step(&mut ns, Instruction::GetGlobal(name)), Ok(Step::Next));
    assert_eq!(ns.get_string(-1).unwrap(), "Hello world");
    step(&mut ns, Instruction::Push(NyaPrimitiveObject::Int(6))).unwrap();
    assert_eq!(step(&mut ns, Instruction::SetGlobal(name)), Ok(Step::Next));
    step(&mut ns, Instruction::GetGlobal(name)).unwrap();
    assert_eq!(ns.get_stack::<i64>(-1), Some(6));
    assert_eq!(ns.check_instruction(&Instruction::GetGlobal(number)), Err(VmError::InvalidConstant(number)));
    assert_eq!(ns.check_instruction(&Instruction::SetGlobal(99)), Err(VmError::InvalidConstant(99)));
    let dangling = ns.add_constant(NyaPrimitiveObject::HeapRef(GcObject { index: 1000 }));
    assert_eq!(ns.check_instruction(&Instruction::GetGlobal(dangling)), Err(VmError::GlobalNameNotString));
}

#[test]
fn get_const() {
    let mut ns = NyaState::new();
    let c = ns.add_constant(11i64);
    ns.begin_run(Vec::new());
    step(&mut ns, Instruction::GetConst(c)).unwrap();
    assert_eq!(ns.get_stack::<i64>(-1), Some(11));
    step(&mut ns, Instruction::GetConst(c + 1)).unwrap();
    assert_eq!(ns.get_stack::<i64>(-1), None);
}

#[test]
fn run_prints_and_stops_at_halt() {
    let program = [
        Instruction::Push(NyaPrimitiveObject::Int(1)),
        Instruction::Push(NyaPrimitiveObject::Int(2)),
        Instruction::Add,
        Instruction::Print,
        Instruction::Halt,
        Instruction::Push(NyaPrimitiveObject::Int(9)),
        Instruction::Print,
    ];
    let mut ns = running(Vec::new());
    let (printed, end) = ns.run(&program, 0);
    assert_eq!(printed, vec![NyaPrimitiveObject::Int(3)]);
    assert_eq!(end, RunEnd::Halted);
    assert_eq!(ns.get_stack::<i64>(-1), None);

    let mut ns2 = running(Vec::new());
    let (printed2, end2) = ns2.run(&program[..4], 0);
    assert_eq!(printed2, printed);
    assert_eq!(end2, RunEnd::Finished);
}

#[test]
fn run_stops_before_an_instruction_that_fails() {
    let program = [Instruction::Push(NyaPrimitiveObject::Int(1)), Instruction::Add];
    let mut ns = running(Vec::new());
    let (printed, end) = ns.run(&program, 0);
    assert!(printed.is_empty());
    assert_eq!(end, RunEnd::Failed(1, VmError::StackUnderflow));
    assert_eq!(ns.get_stack::<i64>(-1), Some(1));
}

#[test]
fn run_pauses_at_a_floating_point_sum() {
    let a = NyaPrimitiveObject::Number(0.5f64.to_bits());
    let program = [
        Instruction::Push(NyaPrimitiveObject::Int(1)),
        Instruction::Push(a),
        Instruction::Add,
        Instruction::Print,
    ];
    let mut ns = running(Vec::new());
    let (_, end) = ns.run(&program, 0);
    assert_eq!(end, RunEnd::AddNumbers(2, a, NyaPrimitiveObject::Int(1)));
    ns.push_value(NyaPrimitiveObject::Number(1.5f64.to_bits()));
    let (printed, end) = ns.run(&program, 3);
    assert_eq!(printed, vec![NyaPrimitiveObject::Number(1.5f64.to_bits())]);
    assert_eq!(end, RunEnd::Finished);
}

#[test]
fn integer_text_values() {
    assert_eq!(integer_text(0), "0");
    assert_eq!(integer_text(7), "7");
    assert_eq!(integer_text(-120), "-120");
    assert_eq!(integer_text(i64::MAX), i64::MAX.to_string());
    assert_eq!(integer_text(i64::MIN), i64::MIN.to_string());
}

#[test]
fn display_text_of_values() {
    let mut ns = NyaState::new();
    ns.push_value("shown");
    let s = NyaPrimitiveObject::HeapRef(GcObject { index: 0 });
    assert_eq!(ns.display_text(s), Some("shown".to_string()));
    assert_eq!(ns.display_text(NyaPrimitiveObject::Int(-3)), Some("-3".to_string()));
    assert_eq!(ns.display_text(NyaPrimitiveObject::Nil), Some("nil".to_string()));
    assert_eq!(ns.display_text(NyaPrimitiveObject::Number(0)), None);
    ns.push_value(vec![1i64]);
    let t = NyaPrimitiveObject::HeapRef(GcObject { index: 1 });
    assert_eq!(ns.display_text(t), Some("invalid type".to_string()));
}
