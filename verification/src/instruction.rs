//! The instructions of the virtual machine and the execution of one of them.
use vstd::prelude::*;
use crate::chars::string_from_chars;
use crate::object::{HeapView, NyaPrimitiveObject};
use crate::state::{
    NyaState, StateView, global_key, pop_top, pop_top_n, push_top, set_slot, stack_object,
    string_of,
};

verus! {

/// One instruction of a program.
#[derive(Debug, Clone, Copy, PartialEq, Eq, Structural)]
pub enum Instruction {
    /// Push the object.
    Push(NyaPrimitiveObject),
    /// Pop the top of the stack.
    Pop,
    /// Pop the top of the stack into the global named by the string constant.
    SetGlobal(usize),
    /// Push the global named by the string constant.
    GetGlobal(usize),
    /// Push the constant.
    GetConst(usize),
    /// Push the local variable.
    GetLocal(usize),
    /// Pop the top of the stack into the local variable.
    SetLocal(usize),
    /// Pop two values and push their sum.
    Add,
    /// Pop a value and print it.
    Print,
    /// Stop the program.
    Halt,
}

/// Why an instruction cannot be carried out.
#[derive(Debug, Clone, Copy, PartialEq, Eq, Structural)]
pub enum VmError {
    /// The constant that should name a global does not exist or is not a heap reference.
    InvalidConstant(usize),
    /// The constant that should name a global refers to no string.
    GlobalNameNotString,
    /// `Add` found fewer than two values on the stack.
    StackUnderflow,
    /// `Add` found values that are not numbers.
    TypesCannotBeAdded,
    /// `GetLocal` named a variable that the current frame does not have.
    MissingVariable(usize),
    /// `SetLocal` found no value on the stack.
    MissingValue,
    /// `Add` of two integers left the range of `i64`.
    IntegerOverflow,
    /// `SetLocal` named the variable with the greatest index, for which no frame can be
    /// long enough.
    OutOfMemory,
}

/// What the caller has to do after an instruction was carried out.
#[derive(Debug, Clone, Copy, PartialEq, Eq, Structural)]
pub enum Step {
    /// Go on with the next instruction.
    Next,
    /// Stop the program.
    Halt,
    /// Print the value.
    Print(NyaPrimitiveObject),
    /// Push the floating-point sum of the two values (the first one popped first): one of
    /// them is a `Number`, the other a `Number` or an `Int`.
    AddNumbers(NyaPrimitiveObject, NyaPrimitiveObject),
}

/// The top of the current stack frame, if there is one.
pub open spec fn top_value(v: StateView) -> Option<NyaPrimitiveObject> {
    if v.stack.len() > 0 && v.stack.last().len() > 0 {
        Some(v.stack.last().last())
    } else {
        None
    }
}

/// The name of a global given by constant `c`: the text of the string it refers to.
pub open spec fn constant_name(v: StateView, c: usize) -> Result<Seq<char>, VmError> {
    if c < v.constants.len() && v.constants[c as int] is HeapRef {
        match string_of(v.heap, v.constants[c as int]) {
            Some(s) => Ok(s),
            None => Err(VmError::GlobalNameNotString),
        }
    } else {
        Err(VmError::InvalidConstant(c))
    }
}

/// The value of the global `name`, or `Nil`.
pub open spec fn global_or_nil(v: StateView, name: Seq<char>) -> NyaPrimitiveObject {
    if v.globals.contains_key(global_key(name)) {
        v.globals[global_key(name)]
    } else {
        NyaPrimitiveObject::Nil
    }
}

/// The constant `c`, or `Nil`.
pub open spec fn constant_or_nil(v: StateView, c: usize) -> NyaPrimitiveObject {
    if c < v.constants.len() {
        v.constants[c as int]
    } else {
        NyaPrimitiveObject::Nil
    }
}

/// Whether `a + b` is a sum of numbers that is computed in floating point.
pub open spec fn float_sum(a: NyaPrimitiveObject, b: NyaPrimitiveObject) -> bool {
    ||| (a is Number && (b is Number || b is Int))
    ||| (a is Int && b is Number)
}

/// `Add` on the state `v2` from which `a` and then `b` were popped.
pub open spec fn add_popped(v2: StateView, a: NyaPrimitiveObject, b: NyaPrimitiveObject) -> (
    StateView,
    Result<Step, VmError>,
) {
    if a is Int && b is Int {
        let s = a->Int_0 + b->Int_0;
        if i64::MIN <= s <= i64::MAX {
            (push_top(v2, NyaPrimitiveObject::Int(s as i64)), Ok(Step::Next))
        } else {
            (v2, Err(VmError::IntegerOverflow))
        }
    } else if float_sum(a, b) {
        (v2, Ok(Step::AddNumbers(a, b)))
    } else {
        (v2, Err(VmError::TypesCannotBeAdded))
    }
}

/// `Add`: pops two values and adds them.
pub open spec fn add_step(v: StateView) -> (StateView, Result<Step, VmError>) {
    match top_value(v) {
        None => (v, Err(VmError::StackUnderflow)),
        Some(a) => match top_value(pop_top(v)) {
            None => (pop_top(v), Err(VmError::StackUnderflow)),
            Some(b) => add_popped(pop_top(pop_top(v)), a, b),
        },
    }
}

/// The state with variable `id` of the current variable frame set to `val`.
pub open spec fn with_local(v: StateView, id: usize, val: NyaPrimitiveObject) -> StateView {
    StateView {
        variables: v.variables.update(
            v.variables.len() - 1,
            set_slot(v.variables.last(), id as int, val),
        ),
        ..v
    }
}

/// The state after carrying out `instr` on `v`, and what the caller has to do next.
pub open spec fn instruction_step(v: StateView, instr: Instruction) -> (
    StateView,
    Result<Step, VmError>,
) {
    match instr {
        Instruction::Push(o) => (push_top(v, o), Ok(Step::Next)),
        Instruction::Pop => (pop_top_n(v, 1), Ok(Step::Next)),
        Instruction::SetGlobal(c) => match constant_name(v, c) {
            Ok(name) => (
                StateView {
                    globals: v.globals.insert(
                        global_key(name),
                        match top_value(v) {
                            Some(o) => o,
                            None => NyaPrimitiveObject::Nil,
                        },
                    ),
                    ..pop_top(v)
                },
                Ok(Step::Next),
            ),
            Err(e) => (v, Err(e)),
        },
        Instruction::GetGlobal(c) => match constant_name(v, c) {
            Ok(name) => (push_top(v, global_or_nil(v, name)), Ok(Step::Next)),
            Err(e) => (v, Err(e)),
        },
        Instruction::GetConst(c) => (push_top(v, constant_or_nil(v, c)), Ok(Step::Next)),
        Instruction::GetLocal(id) => if v.variables.len() > 0 && id < v.variables.last().len() {
            (push_top(v, v.variables.last()[id as int]), Ok(Step::Next))
        } else {
            (v, Err(VmError::MissingVariable(id)))
        },
        Instruction::SetLocal(id) => match top_value(v) {
            Some(o) => if id == usize::MAX {
                (v, Err(VmError::OutOfMemory))
            } else {
                (with_local(pop_top(v), id, o), Ok(Step::Next))
            },
            None => (v, Err(VmError::MissingValue)),
        },
        Instruction::Add => add_step(v),
        Instruction::Print => match top_value(v) {
            Some(o) => (pop_top(v), Ok(Step::Print(o))),
            None => (v, Ok(Step::Next)),
        },
        Instruction::Halt => (v, Ok(Step::Halt)),
    }
}

/// Whether the state has a current stack frame and a current variable frame.
pub open spec fn has_frames(v: StateView) -> bool {
    v.stack.len() > 0 && v.variables.len() > 0
}

/// The digit character of `d`, for `0 <= d < 10`.
pub open spec fn digit_char(d: nat) -> char {
    (d + 48) as char
}

/// The decimal digits of `n`, most significant first, without leading zeros.
pub open spec fn decimal_digits(n: nat) -> Seq<char>
    decreases n,
{
    if n < 10 {
        seq![digit_char(n)]
    } else {
        decimal_digits(n / 10).push(digit_char(n % 10))
    }
}

/// The text of the integer `i` in decimal, with a leading `-` when negative.
pub open spec fn int_text(i: int) -> Seq<char> {
    if i < 0 {
        seq!['-'] + decimal_digits((-i) as nat)
    } else {
        decimal_digits(i as nat)
    }
}

/// The text that `Print` shows for `val`, or `None` for a floating-point number (whose text
/// is that of `f64`'s `Display`).  A reference to anything but a string shows as
/// `invalid type`.
pub open spec fn display_of(h: Seq<Option<HeapView>>, val: NyaPrimitiveObject) -> Option<Seq<char>> {
    match val {
        NyaPrimitiveObject::Number(_) => None,
        NyaPrimitiveObject::Int(i) => Some(int_text(i as int)),
        NyaPrimitiveObject::Nil => Some("nil"@),
        NyaPrimitiveObject::HeapRef(_) => match string_of(h, val) {
            Some(s) => Some(s),
            None => Some("invalid type"@),
        },
    }
}

/// Appends the decimal digits of `n` to `out`.
fn push_digits(n: u64, out: &mut Vec<char>)
    ensures
        final(out)@ == old(out)@ + decimal_digits(n as nat),
    decreases n,
{
    if n >= 10 {
        push_digits(n / 10, out);
    }
    let d: u8 = (n % 10) as u8;
    let c = (d + 48u8) as char;
    proof {
        assert(c == digit_char((n % 10) as nat));
    }
    out.push(c);
    proof {
        if n >= 10 {
            assert(decimal_digits(n as nat) == decimal_digits((n / 10) as nat).push(digit_char((n % 10) as nat)));
        }
    }
    assert(out@ =~= old(out)@ + decimal_digits(n as nat));
}

/// The decimal text of `i`, as `i64`'s `to_string` writes it.
pub fn integer_text(i: i64) -> (r: String)
    ensures
        r@ == int_text(i as int),
{
    let mut out: Vec<char> = Vec::new();
    let magnitude: u64 = if i < 0 {
        out.push('-');
        (-(i as i128)) as u64
    } else {
        i as u64
    };
    push_digits(magnitude, &mut out);
    assert(out@ =~= int_text(i as int));
    string_from_chars(out.as_slice())
}

impl NyaState {
    /// Starts running a program: a new variable frame holding `arguments` as its first
    /// variables, then a new, empty stack frame.
    pub fn begin_run(&mut self, arguments: Vec<NyaPrimitiveObject>)
        requires
            old(self).wf(),
        ensures
            final(self).wf(),
            final(self)@ == (StateView {
                variables: old(self)@.variables.push(arguments@),
                stack: old(self)@.stack.push(Seq::empty()),
                ..old(self)@
            }),
    {
        self.create_variable_frame();
        let mut i: usize = 0;
        assert(arguments@.take(0) =~= Seq::<NyaPrimitiveObject>::empty());
        while i < arguments.len()
            invariant
                self.wf(),
                i <= arguments@.len(),
                self@ == (StateView {
                    variables: old(self)@.variables.push(arguments@.take(i as int)),
                    ..old(self)@
                }),
            decreases arguments@.len() - i,
        {
            self.set_local(i, arguments[i]);
            assert(set_slot(arguments@.take(i as int), i as int, arguments@[i as int])
                =~= arguments@.take(i + 1));
            assert(self@.variables =~= old(self)@.variables.push(arguments@.take(i + 1)));
            i = i + 1;
        }
        assert(arguments@.take(i as int) =~= arguments@);
        self.create_stack_frame();
    }

    /// The text that `Print` shows for `val`, or `None` for a floating-point number.
    pub fn display_text(&self, val: NyaPrimitiveObject) -> (r: Option<String>)
        ensures
            match r {
                Some(s) => display_of(self@.heap, val) == Some(s@),
                None => display_of(self@.heap, val) is None,
            },
    {
        match val {
            NyaPrimitiveObject::Number(_) => None,
            NyaPrimitiveObject::Int(i) => Some(integer_text(i)),
            NyaPrimitiveObject::Nil => Some("nil".to_string()),
            NyaPrimitiveObject::HeapRef(_) => match self.heap_string(val) {
                Some(s) => Some(s.clone()),
                None => Some("invalid type".to_string()),
            },
        }
    }

    /// The name of the global that constant `c` gives.
    fn constant_name(&mut self, c: usize) -> (r: Result<String, VmError>)
        ensures
            final(self)@ == old(self)@,
            final(self).wf() == old(self).wf(),
            match r {
                Ok(s) => constant_name(old(self)@, c) == Ok::<Seq<char>, VmError>(s@),
                Err(e) => constant_name(old(self)@, c) == Err::<Seq<char>, VmError>(e),
            },
    {
        match self.get_constant(c) {
            Some(NyaPrimitiveObject::HeapRef(g)) => match self.heap_string(NyaPrimitiveObject::HeapRef(g)) {
                Some(s) => Ok(s.clone()),
                None => Err(VmError::GlobalNameNotString),
            },
            _ => Err(VmError::InvalidConstant(c)),
        }
    }

    /// Whether `instr` can be carried out on this state, and if not, why not.  The state is
    /// left as it was.
    pub fn check_instruction(&mut self, instr: &Instruction) -> (r: Result<(), VmError>)
        requires
            old(self).wf(),
            has_frames(old(self)@),
        ensures
            final(self).wf(),
            final(self)@ == old(self)@,
            match r {
                Ok(_) => instruction_step(old(self)@, *instr).1 is Ok,
                Err(e) => instruction_step(old(self)@, *instr).1 == Err::<Step, VmError>(e),
            },
    {
        proof {
            lemma_top_values(self@);
        }
        match *instr {
            Instruction::SetGlobal(c) | Instruction::GetGlobal(c) => match self.constant_name(c) {
                Ok(_) => Ok(()),
                Err(e) => Err(e),
            },
            Instruction::GetLocal(id) => match self.get_local(id) {
                Some(_) => Ok(()),
                None => Err(VmError::MissingVariable(id)),
            },
            Instruction::SetLocal(id) => match self.get_stack_object(-1isize) {
                Some(_) => if id == usize::MAX {
                    Err(VmError::OutOfMemory)
                } else {
                    Ok(())
                },
                None => Err(VmError::MissingValue),
            },
            Instruction::Add => {
                let a = self.get_stack_object(-1isize);
                let b = self.get_stack_object(-2isize);
                match (a, b) {
                    (Some(NyaPrimitiveObject::Int(x)), Some(NyaPrimitiveObject::Int(y))) => match x.checked_add(y) {
                        Some(_) => Ok(()),
                        None => Err(VmError::IntegerOverflow),
                    },
                    (Some(NyaPrimitiveObject::Number(_)), Some(NyaPrimitiveObject::Int(_)))
                    | (Some(NyaPrimitiveObject::Int(_)), Some(NyaPrimitiveObject::Number(_)))
                    | (Some(NyaPrimitiveObject::Number(_)), Some(NyaPrimitiveObject::Number(_))) => Ok(()),
                    (Some(_), Some(_)) => Err(VmError::TypesCannotBeAdded),
                    _ => Err(VmError::StackUnderflow),
                }
            },
            _ => Ok(()),
        }
    }

    /// Carries out one instruction that can be carried out, and says what the caller has to
    /// do next.
    pub fn execute(&mut self, instr: &Instruction) -> (r: Step)
        requires
            old(self).wf(),
            has_frames(old(self)@),
            instruction_step(old(self)@, *instr).1 is Ok,
        ensures
            final(self).wf(),
            has_frames(final(self)@),
            final(self)@ == instruction_step(old(self)@, *instr).0,
            instruction_step(old(self)@, *instr).1 == Ok::<Step, VmError>(r),
    {
        match self.try_execute(instr) {
            Ok(step) => step,
            Err(_) => {
                proof {
                    assert(false);
                }
                Step::Halt
            },
        }
    }

    /// Carries out one instruction, or fails as the instruction's error says.
    fn try_execute(&mut self, instr: &Instruction) -> (r: Result<Step, VmError>)
        requires
            old(self).wf(),
            has_frames(old(self)@),
        ensures
            final(self).wf(),
            has_frames(final(self)@),
            (final(self)@, r) == instruction_step(old(self)@, *instr),
    {
        match *instr {
            Instruction::Push(obj) => {
                self.push_stack_object(obj);
                Ok(Step::Next)
            },
            Instruction::Pop => {
                self.pop_stack(1);
                assert(pop_top_n(old(self)@, 1) == pop_top(old(self)@)) by {
                    reveal_with_fuel(pop_top_n, 2);
                }
                Ok(Step::Next)
            },
            Instruction::SetGlobal(c) => {
                let name = match self.constant_name(c) {
                    Ok(name) => name,
                    Err(e) => {
                        return Err(e);
                    },
                };
                self.pop_global(name.as_str());
                Ok(Step::Next)
            },
            Instruction::GetGlobal(c) => {
                let name = match self.constant_name(c) {
                    Ok(name) => name,
                    Err(e) => {
                        return Err(e);
                    },
                };
                self.push_global(name.as_str());
                Ok(Step::Next)
            },
            Instruction::GetConst(c) => {
                self.push_constant(c);
                Ok(Step::Next)
            },
            Instruction::GetLocal(id) => {
                let val = match self.get_local(id) {
                    Some(val) => *val,
                    None => {
                        return Err(VmError::MissingVariable(id));
                    },
                };
                self.push_stack_object(val);
                Ok(Step::Next)
            },
            Instruction::SetLocal(id) => {
                if id == usize::MAX {
                    proof {
                        lemma_top_values(self@);
                    }
                    return match self.get_stack_object(-1isize) {
                        Some(_) => Err(VmError::OutOfMemory),
                        None => Err(VmError::MissingValue),
                    };
                }
                let val = match self.pop_stack_and_take() {
                    Some(val) => val,
                    None => {
                        return Err(VmError::MissingValue);
                    },
                };
                self.set_local(id, val);
                Ok(Step::Next)
            },
            Instruction::Add => self.add(),
            Instruction::Print => match self.pop_stack_and_take() {
                Some(val) => Ok(Step::Print(val)),
                None => Ok(Step::Next),
            },
            Instruction::Halt => Ok(Step::Halt),
        }
    }

    /// `Add`: pops two values and pushes their sum where it is an integer.
    fn add(&mut self) -> (r: Result<Step, VmError>)
        requires
            old(self).wf(),
            has_frames(old(self)@),
        ensures
            final(self).wf(),
            has_frames(final(self)@),
            (final(self)@, r) == add_step(old(self)@),
    {
        let a = match self.pop_stack_and_take() {
            Some(a) => a,
            None => {
                return Err(VmError::StackUnderflow);
            },
        };
        let b = match self.pop_stack_and_take() {
            Some(b) => b,
            None => {
                return Err(VmError::StackUnderflow);
            },
        };
        match (a, b) {
            (NyaPrimitiveObject::Int(x), NyaPrimitiveObject::Int(y)) => match x.checked_add(y) {
                Some(s) => {
                    self.push_stack_object(NyaPrimitiveObject::Int(s));
                    Ok(Step::Next)
                },
                None => Err(VmError::IntegerOverflow),
            },
            (NyaPrimitiveObject::Number(_), NyaPrimitiveObject::Int(_))
            | (NyaPrimitiveObject::Int(_), NyaPrimitiveObject::Number(_))
            | (NyaPrimitiveObject::Number(_), NyaPrimitiveObject::Number(_)) => Ok(
                Step::AddNumbers(a, b),
            ),
            _ => Err(VmError::TypesCannotBeAdded),
        }
    }
}


/// A value pushed on the stack is the one popped next, and popping it gives back the state
/// from before the push.
pub proof fn lemma_push_then_pop(v: StateView, o: NyaPrimitiveObject)
    requires
        v.stack.len() > 0,
    ensures
        top_value(push_top(v, o)) == Some(o),
        pop_top(push_top(v, o)) == v,
{
    let w = push_top(v, o);
    assert(w.stack.last() == v.stack.last().push(o));
    assert(w.stack.last().drop_last() =~= v.stack.last());
    assert(pop_top(w).stack =~= v.stack);
}

/// Setting a local variable and reading it back gives the value set; the other variables of
/// the frame keep their values, and the other frames are untouched.
pub proof fn lemma_set_then_get_local(v: StateView, id: usize, val: NyaPrimitiveObject, j: int)
    requires
        v.variables.len() > 0,
    ensures
        with_local(v, id, val).variables.len() == v.variables.len(),
        id < with_local(v, id, val).variables.last().len(),
        with_local(v, id, val).variables.last()[id as int] == val,
        0 <= j < v.variables.last().len() && j != id ==> with_local(v, id, val).variables.last()[j]
            == v.variables.last()[j],
        0 <= j < v.variables.len() - 1 ==> with_local(v, id, val).variables[j] == v.variables[j],
{
}

/// A global set by `SetGlobal` is what `GetGlobal` of the same constant pushes next.
pub proof fn lemma_set_then_get_global(v: StateView, c: usize, o: NyaPrimitiveObject)
    requires
        has_frames(v),
        constant_name(v, c) is Ok,
    ensures
        ({
            let w = instruction_step(push_top(v, o), Instruction::SetGlobal(c)).0;
            instruction_step(w, Instruction::GetGlobal(c)) == (push_top(w, o), Ok::<
                Step,
                VmError,
            >(Step::Next))
        }),
{
    let v1 = push_top(v, o);
    lemma_push_then_pop(v, o);
    assert(v1.heap == v.heap && v1.constants == v.constants);
    assert(constant_name(v1, c) == constant_name(v, c));
    let w = instruction_step(v1, Instruction::SetGlobal(c)).0;
    assert(w.heap == v.heap && w.constants == v.constants);
    assert(constant_name(w, c) == constant_name(v, c));
}

/// `Push` followed by `Pop` leaves the state as it was.
pub proof fn lemma_push_then_pop_program(v: StateView, o: NyaPrimitiveObject)
    requires
        has_frames(v),
    ensures
        instruction_step(instruction_step(v, Instruction::Push(o)).0, Instruction::Pop) == (v, Ok::<
            Step,
            VmError,
        >(Step::Next)),
{
    lemma_push_then_pop(v, o);
    reveal_with_fuel(pop_top_n, 2);
}

/// Adding two integers pushed in turn pushes their sum in place of both, or fails where the
/// sum leaves the range of `i64`; the order of the two does not matter.
pub proof fn lemma_add_integers(v: StateView, a: i64, b: i64)
    requires
        has_frames(v),
    ensures
        ({
            let w = push_top(push_top(v, NyaPrimitiveObject::Int(a)), NyaPrimitiveObject::Int(b));
            let w2 = push_top(push_top(v, NyaPrimitiveObject::Int(b)), NyaPrimitiveObject::Int(a));
            &&& i64::MIN <= a + b <= i64::MAX ==> instruction_step(w, Instruction::Add) == (
                push_top(v, NyaPrimitiveObject::Int((a + b) as i64)),
                Ok::<Step, VmError>(Step::Next),
            )
            &&& !(i64::MIN <= a + b <= i64::MAX) ==> instruction_step(w, Instruction::Add) == (
                v,
                Err::<Step, VmError>(VmError::IntegerOverflow),
            )
            &&& instruction_step(w, Instruction::Add) == instruction_step(w2, Instruction::Add)
        }),
{
    let va = push_top(v, NyaPrimitiveObject::Int(a));
    let vb = push_top(v, NyaPrimitiveObject::Int(b));
    lemma_push_then_pop(v, NyaPrimitiveObject::Int(a));
    lemma_push_then_pop(v, NyaPrimitiveObject::Int(b));
    assert(va.stack.len() > 0);
    assert(vb.stack.len() > 0);
    lemma_push_then_pop(va, NyaPrimitiveObject::Int(b));
    lemma_push_then_pop(vb, NyaPrimitiveObject::Int(a));
}

/// `Halt` changes nothing.
pub proof fn lemma_halt_changes_nothing(v: StateView)
    ensures
        instruction_step(v, Instruction::Halt) == (v, Ok::<Step, VmError>(Step::Halt)),
{
}


/// The top of the current stack frame is the object at `-1`, and the one below it is the top
/// after a pop.
pub proof fn lemma_top_values(v: StateView)
    requires
        v.stack.len() > 0,
    ensures
        top_value(v) == stack_object(v, -1isize),
        top_value(v) is Some ==> top_value(pop_top(v)) == stack_object(v, -2isize),
        top_value(v) is None ==> stack_object(v, -2isize) is None,
{
    let t = v.stack.last();
    if t.len() > 0 {
        let p = pop_top(v);
        assert(p.stack.last() == t.drop_last());
    }
}


/// How running a program stops.
#[derive(Debug, Clone, Copy, PartialEq, Eq, Structural)]
pub enum RunEnd {
    /// The last instruction was carried out.
    Finished,
    /// A `Halt` was reached.
    Halted,
    /// The instruction at the index cannot be carried out, for the reason given; it was not
    /// carried out.
    Failed(usize, VmError),
    /// The `Add` at the index popped the two values; their floating-point sum is for the
    /// caller to push before running on from the next instruction.
    AddNumbers(usize, NyaPrimitiveObject, NyaPrimitiveObject),
}

/// Running `ins` from index `pc` on `v`: the state it stops in, the values it prints, in
/// order, and how it stops.
pub open spec fn run_from(v: StateView, ins: Seq<Instruction>, pc: int) -> (
    StateView,
    Seq<NyaPrimitiveObject>,
    RunEnd,
)
    decreases ins.len() - pc,
{
    if pc < 0 || pc >= ins.len() {
        (v, Seq::empty(), RunEnd::Finished)
    } else {
        let (w, r) = instruction_step(v, ins[pc]);
        match r {
            Err(e) => (v, Seq::empty(), RunEnd::Failed(pc as usize, e)),
            Ok(Step::Halt) => (w, Seq::empty(), RunEnd::Halted),
            Ok(Step::Next) => run_from(w, ins, pc + 1),
            Ok(Step::Print(o)) => {
                let rest = run_from(w, ins, pc + 1);
                (rest.0, seq![o] + rest.1, rest.2)
            },
            Ok(Step::AddNumbers(a, b)) => (w, Seq::empty(), RunEnd::AddNumbers(pc as usize, a, b)),
        }
    }
}

/// Whether `j` is the index of the first `Halt` of `ins`.
pub open spec fn first_halt(ins: Seq<Instruction>, j: int) -> bool {
    &&& 0 <= j < ins.len()
    &&& ins[j] == Instruction::Halt
    &&& forall|k: int| 0 <= k < j ==> ins[k] != Instruction::Halt
}

/// Instructions after the first `Halt` have no effect: running the program stops where
/// running only the instructions before that `Halt` does, with the same state and the same
/// printed values, except that the one ends halted where the other finishes.
pub proof fn lemma_after_halt_no_effect(v: StateView, ins: Seq<Instruction>, j: int)
    requires
        first_halt(ins, j),
    ensures
        run_from(v, ins, 0).0 == run_from(v, ins.take(j), 0).0,
        run_from(v, ins, 0).1 == run_from(v, ins.take(j), 0).1,
        run_from(v, ins.take(j), 0).2 == RunEnd::Finished ==> run_from(v, ins, 0).2
            == RunEnd::Halted,
        run_from(v, ins.take(j), 0).2 != RunEnd::Finished ==> run_from(v, ins, 0).2 == run_from(
            v,
            ins.take(j),
            0,
        ).2,
{
    lemma_run_prefix(v, ins, j, 0);
}

/// The induction behind `lemma_after_halt_no_effect`, from any index up to the `Halt`.
proof fn lemma_run_prefix(v: StateView, ins: Seq<Instruction>, j: int, pc: int)
    requires
        first_halt(ins, j),
        0 <= pc <= j,
    ensures
        run_from(v, ins, pc).0 == run_from(v, ins.take(j), pc).0,
        run_from(v, ins, pc).1 == run_from(v, ins.take(j), pc).1,
        run_from(v, ins.take(j), pc).2 == RunEnd::Finished ==> run_from(v, ins, pc).2
            == RunEnd::Halted,
        run_from(v, ins.take(j), pc).2 != RunEnd::Finished ==> run_from(v, ins, pc).2 == run_from(
            v,
            ins.take(j),
            pc,
        ).2,
    decreases j - pc,
{
    let t = ins.take(j);
    if pc < j {
        assert(t[pc] == ins[pc]);
        let (w, r) = instruction_step(v, ins[pc]);
        assert(ins[pc] != Instruction::Halt);
        lemma_run_prefix(w, ins, j, pc + 1);
    }
}

impl NyaState {
    /// Runs `instructions` from index `pc` until the program ends, halts, reaches an
    /// instruction that cannot be carried out, or reaches an `Add` whose sum is a
    /// floating-point number; returns the values printed on the way, in order, and how the
    /// run stopped.
    pub fn run(&mut self, instructions: &[Instruction], pc: usize) -> (r: (
        Vec<NyaPrimitiveObject>,
        RunEnd,
    ))
        requires
            old(self).wf(),
            has_frames(old(self)@),
        ensures
            final(self).wf(),
            has_frames(final(self)@),
            (final(self)@, r.0@, r.1) == run_from(old(self)@, instructions@, pc as int),
    {
        let ghost v0 = self@;
        let ghost ins = instructions@;
        let mut out: Vec<NyaPrimitiveObject> = Vec::new();
        let mut i = pc;
        while i < instructions.len()
            invariant
                self.wf(),
                has_frames(self@),
                ins == instructions@,
                v0 == old(self)@,
                pc <= i,
                run_from(v0, ins, pc as int) == ({
                    let rest = run_from(self@, ins, i as int);
                    (rest.0, out@ + rest.1, rest.2)
                }),
            decreases instructions@.len() - i,
        {
            let ghost cur = self@;
            let instr = &instructions[i];
            assert(ins[i as int] == *instr);
            match self.check_instruction(instr) {
                Err(e) => {
                    assert(out@ + Seq::<NyaPrimitiveObject>::empty() =~= out@);
                    return (out, RunEnd::Failed(i, e));
                },
                Ok(_) => {},
            }
            let step = self.execute(instr);
            match step {
                Step::Next => {},
                Step::Halt => {
                    assert(out@ + Seq::<NyaPrimitiveObject>::empty() =~= out@);
                    return (out, RunEnd::Halted);
                },
                Step::Print(o) => {
                    let ghost rest = run_from(self@, ins, i + 1);
                    assert(out@ + (seq![o] + rest.1) == out@.push(o) + rest.1);
                    out.push(o);
                },
                Step::AddNumbers(a, b) => {
                    assert(out@ + Seq::<NyaPrimitiveObject>::empty() == out@);
                    return (out, RunEnd::AddNumbers(i, a, b));
                },
            }
            i = i + 1;
        }
        assert(out@ + Seq::<NyaPrimitiveObject>::empty() == out@);
        (out, RunEnd::Finished)
    }
}


/// The program that pushes and prints each value of `xs` in turn.
pub open spec fn echo_program(xs: Seq<NyaPrimitiveObject>) -> Seq<Instruction> {
    Seq::new(
        2 * xs.len(),
        |i: int| if i % 2 == 0 { Instruction::Push(xs[i / 2]) } else { Instruction::Print },
    )
}

/// Values are printed in program order: a program that pushes and prints each value of `xs`
/// in turn prints exactly `xs`, in that order, and ends where it began.
pub proof fn lemma_prints_in_program_order(v: StateView, xs: Seq<NyaPrimitiveObject>)
    requires
        has_frames(v),
    ensures
        run_from(v, echo_program(xs), 0) == (v, xs, RunEnd::Finished),
{
    lemma_echo_from(v, xs, 0);
    assert(xs.skip(0) =~= xs);
}

/// The induction behind `lemma_prints_in_program_order`, from the `k`-th value on.
proof fn lemma_echo_from(v: StateView, xs: Seq<NyaPrimitiveObject>, k: int)
    requires
        has_frames(v),
        0 <= k <= xs.len(),
    ensures
        run_from(v, echo_program(xs), 2 * k) == (v, xs.skip(k), RunEnd::Finished),
    decreases xs.len() - k,
{
    let p = echo_program(xs);
    if k == xs.len() {
        assert(xs.skip(k) =~= Seq::<NyaPrimitiveObject>::empty());
    } else {
        let x = xs[k];
        assert((2 * k) % 2 == 0 && (2 * k) / 2 == k);
        assert((2 * k + 1) % 2 == 1);
        assert(p[2 * k] == Instruction::Push(x));
        assert(p[2 * k + 1] == Instruction::Print);
        lemma_push_then_pop(v, x);
        let w = push_top(v, x);
        assert(has_frames(w));
        lemma_echo_from(v, xs, k + 1);
        assert(2 * (k + 1) == 2 * k + 2);
        assert(run_from(w, p, 2 * k + 1) == (v, seq![x] + xs.skip(k + 1), RunEnd::Finished));
        assert(seq![x] + xs.skip(k + 1) =~= xs.skip(k));
    }
}

/// Adding two floating-point numbers, or a number and an integer in either order, pops both
/// and leaves their sum to the caller; such an `Add` never fails.
pub proof fn lemma_add_floating(v: StateView, x: u64, y: u64, i: i64)
    requires
        has_frames(v),
    ensures
        ({
            let nx = NyaPrimitiveObject::Number(x);
            let ny = NyaPrimitiveObject::Number(y);
            let ni = NyaPrimitiveObject::Int(i);
            &&& instruction_step(push_top(push_top(v, ny), nx), Instruction::Add) == (
                v,
                Ok::<Step, VmError>(Step::AddNumbers(nx, ny)),
            )
            &&& instruction_step(push_top(push_top(v, ni), nx), Instruction::Add) == (
                v,
                Ok::<Step, VmError>(Step::AddNumbers(nx, ni)),
            )
            &&& instruction_step(push_top(push_top(v, nx), ni), Instruction::Add) == (
                v,
                Ok::<Step, VmError>(Step::AddNumbers(ni, nx)),
            )
        }),
{
    let nx = NyaPrimitiveObject::Number(x);
    let ny = NyaPrimitiveObject::Number(y);
    let ni = NyaPrimitiveObject::Int(i);
    lemma_push_then_pop(v, nx);
    lemma_push_then_pop(v, ny);
    lemma_push_then_pop(v, ni);
    lemma_push_then_pop(push_top(v, ny), nx);
    lemma_push_then_pop(push_top(v, ni), nx);
    lemma_push_then_pop(push_top(v, nx), ni);
}

/// `SetGlobal` pops the value it stores: after it, the stack, the variables, the heap and the
/// constants are as before the value was pushed, and the global holds the value.
pub proof fn lemma_set_global_pops(v: StateView, c: usize, o: NyaPrimitiveObject)
    requires
        has_frames(v),
        constant_name(v, c) is Ok,
    ensures
        ({
            let w = instruction_step(push_top(v, o), Instruction::SetGlobal(c));
            &&& w.1 == Ok::<Step, VmError>(Step::Next)
            &&& w.0.stack == v.stack
            &&& w.0.variables == v.variables
            &&& w.0.heap == v.heap
            &&& w.0.heap_order == v.heap_order
            &&& w.0.constants == v.constants
            &&& w.0.globals == v.globals.insert(global_key(constant_name(v, c)->Ok_0), o)
        }),
{
    let v1 = push_top(v, o);
    lemma_push_then_pop(v, o);
    assert(v1.heap == v.heap && v1.constants == v.constants);
    assert(constant_name(v1, c) == constant_name(v, c));
}

} // verus!
