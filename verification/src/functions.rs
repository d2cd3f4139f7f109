//! Rust functions that the virtual machine can call: their arguments are read from the stack
//! and their result is pushed on it.
use vstd::prelude::*;
use core::marker::PhantomData;
use crate::convert::{FromNyaObject, IntoNyaObject, pushed};
use crate::state::{NyaState, StateView, pop_top_n, stack_object};

verus! {

/// Turns a function into a callable value of `Self`.
pub trait FromGenericCallable<F, R0, Args>: Sized where F: IntoFunctionGenericType<R0, Args> + 'static {
    /// The callable value made from `func`.
    fn from_callable(func: F) -> Self;
}

/// A Rust function together with the types of its arguments and result.
pub struct FunctionGenericType<F, R, Args> {
    pub inner: F,
    _args_marker: PhantomData<Args>,
    _return_marker: PhantomData<R>,
}

impl<F, R, Args> FunctionGenericType<F, R, Args> {
    /// The function held.
    pub closed spec fn function(&self) -> F {
        self.inner
    }

    /// The function `inner`, typed by its arguments and result.
    pub fn new(inner: F) -> (r: Self)
        ensures
            r.function() == inner,
    {
        FunctionGenericType { inner, _args_marker: PhantomData, _return_marker: PhantomData }
    }
}

/// Turns `Self` into a [`FunctionGenericType`].
pub trait IntoFunctionGenericType<R, Args> where Self: Sized {
    /// `self`, typed by its arguments and result.
    fn into_function_generic(self) -> (r: FunctionGenericType<Self, R, Args>)
        ensures
            r.function() == self,
    ;
}

/// The value at `idx` of the current stack frame, converted to `T`.
pub open spec fn stack_arg<T: FromNyaObject>(v: StateView, idx: isize) -> Option<T> {
    match stack_object(v, idx) {
        Some(o) => T::from_spec(o),
        None => None,
    }
}

/// A function that can be called on the stack of a state.
pub trait CallableRustClosure {
    /// Whether the function can be called on every list of arguments of its types.
    spec fn accepts_all(&self) -> bool;

    /// Whether the top values of the current stack frame convert to the argument types.
    spec fn args_ready(&self, v: StateView) -> bool;

    /// Reads the arguments from the top of the current stack frame (the last argument on
    /// top), pops them, calls the function and pushes its result.  Where an argument is
    /// missing or of another type, nothing changes and `None` is returned.
    fn call(&self, state: &mut NyaState) -> (r: Option<()>)
        requires
            old(state).wf(),
            old(state)@.stack.len() > 0,
            self.accepts_all(),
        ensures
            final(state).wf(),
            final(state)@.stack.len() == old(state)@.stack.len(),
            r is Some <==> self.args_ready(old(state)@),
            r is None ==> final(state)@ == old(state)@,
    ;
}

impl<F, R0, T1> IntoFunctionGenericType<R0, (T1,)> for F where F: Fn(T1) -> R0 {
    fn into_function_generic(self) -> (r: FunctionGenericType<Self, R0, (T1,)>) {
        FunctionGenericType::new(self)
    }
}

impl<F, R0, T1> CallableRustClosure for FunctionGenericType<F, R0, (T1,)> where
    F: Fn(T1) -> R0,
    R0: IntoNyaObject,
    T1: FromNyaObject,
 {
    open spec fn accepts_all(&self) -> bool {
        forall|a1: T1| call_requires(self.function(), (a1,))
    }

    open spec fn args_ready(&self, v: StateView) -> bool {
        stack_arg::<T1>(v, -1isize) is Some
    }

    fn call(&self, state: &mut NyaState) -> (r: Option<()>)
        ensures
            r is Some ==> exists|r0: R0|
                call_ensures(self.function(), (stack_arg::<T1>(old(state)@, -1isize)->0,), r0) && final(state)@ == #[trigger] pushed(
                    pop_top_n(old(state)@, 1),
                    r0,
                ),
    {
        proof {
            lemma_pop_keeps_frames(state@, 1);
        }
        let a1: T1 = match state.get_stack(-1isize) {
            Some(x) => x,
            None => {
                return None;
            },
        };
        proof {
            assert(self.function() == self.inner);
            assert(call_requires(self.function(), (a1,)));
        }
        let ghost before = state@;
        let r0 = (self.inner)(a1);
        state.pop_stack(1);
        state.push_value(r0);
        assert(call_ensures(self.function(), (a1,), r0) && state@ == pushed(
            pop_top_n(before, 1),
            r0,
        ));
        Some(())
    }
}

impl<F, R0, T1, T2> IntoFunctionGenericType<R0, (T1, T2,)> for F where F: Fn(T1, T2) -> R0 {
    fn into_function_generic(self) -> (r: FunctionGenericType<Self, R0, (T1, T2,)>) {
        FunctionGenericType::new(self)
    }
}

impl<F, R0, T1, T2> CallableRustClosure for FunctionGenericType<F, R0, (T1, T2,)> where
    F: Fn(T1, T2) -> R0,
    R0: IntoNyaObject,
    T1: FromNyaObject,
    T2: FromNyaObject,
 {
    open spec fn accepts_all(&self) -> bool {
        forall|a1: T1, a2: T2| call_requires(self.function(), (a1, a2,))
    }

    open spec fn args_ready(&self, v: StateView) -> bool {
        stack_arg::<T1>(v, -2isize) is Some && stack_arg::<T2>(v, -1isize) is Some
    }

    fn call(&self, state: &mut NyaState) -> (r: Option<()>)
        ensures
            r is Some ==> exists|r0: R0|
                call_ensures(self.function(), (stack_arg::<T1>(old(state)@, -2isize)->0, stack_arg::<T2>(old(state)@, -1isize)->0,), r0) && final(state)@ == #[trigger] pushed(
                    pop_top_n(old(state)@, 2),
                    r0,
                ),
    {
        proof {
            lemma_pop_keeps_frames(state@, 2);
        }
        let a1: T1 = match state.get_stack(-2isize) {
            Some(x) => x,
            None => {
                return None;
            },
        };
        let a2: T2 = match state.get_stack(-1isize) {
            Some(x) => x,
            None => {
                return None;
            },
        };
        proof {
            assert(self.function() == self.inner);
            assert(call_requires(self.function(), (a1, a2,)));
        }
        let ghost before = state@;
        let r0 = (self.inner)(a1, a2);
        state.pop_stack(2);
        state.push_value(r0);
        assert(call_ensures(self.function(), (a1, a2,), r0) && state@ == pushed(
            pop_top_n(before, 2),
            r0,
        ));
        Some(())
    }
}

impl<F, R0, T1, T2, T3> IntoFunctionGenericType<R0, (T1, T2, T3,)> for F where F: Fn(T1, T2, T3) -> R0 {
    fn into_function_generic(self) -> (r: FunctionGenericType<Self, R0, (T1, T2, T3,)>) {
        FunctionGenericType::new(self)
    }
}

impl<F, R0, T1, T2, T3> CallableRustClosure for FunctionGenericType<F, R0, (T1, T2, T3,)> where
    F: Fn(T1, T2, T3) -> R0,
    R0: IntoNyaObject,
    T1: FromNyaObject,
    T2: FromNyaObject,
    T3: FromNyaObject,
 {
    open spec fn accepts_all(&self) -> bool {
        forall|a1: T1, a2: T2, a3: T3| call_requires(self.function(), (a1, a2, a3,))
    }

    open spec fn args_ready(&self, v: StateView) -> bool {
        stack_arg::<T1>(v, -3isize) is Some && stack_arg::<T2>(v, -2isize) is Some && stack_arg::<T3>(v, -1isize) is Some
    }

    fn call(&self, state: &mut NyaState) -> (r: Option<()>)
        ensures
            r is Some ==> exists|r0: R0|
                call_ensures(self.function(), (stack_arg::<T1>(old(state)@, -3isize)->0, stack_arg::<T2>(old(state)@, -2isize)->0, stack_arg::<T3>(old(state)@, -1isize)->0,), r0) && final(state)@ == #[trigger] pushed(
                    pop_top_n(old(state)@, 3),
                    r0,
                ),
    {
        proof {
            lemma_pop_keeps_frames(state@, 3);
        }
        let a1: T1 = match state.get_stack(-3isize) {
            Some(x) => x,
            None => {
                return None;
            },
        };
        let a2: T2 = match state.get_stack(-2isize) {
            Some(x) => x,
            None => {
                return None;
            },
        };
        let a3: T3 = match state.get_stack(-1isize) {
            Some(x) => x,
            None => {
                return None;
            },
        };
        proof {
            assert(self.function() == self.inner);
            assert(call_requires(self.function(), (a1, a2, a3,)));
        }
        let ghost before = state@;
        let r0 = (self.inner)(a1, a2, a3);
        state.pop_stack(3);
        state.push_value(r0);
        assert(call_ensures(self.function(), (a1, a2, a3,), r0) && state@ == pushed(
            pop_top_n(before, 3),
            r0,
        ));
        Some(())
    }
}

impl<F, R0, T1, T2, T3, T4> IntoFunctionGenericType<R0, (T1, T2, T3, T4,)> for F where F: Fn(T1, T2, T3, T4) -> R0 {
    fn into_function_generic(self) -> (r: FunctionGenericType<Self, R0, (T1, T2, T3, T4,)>) {
        FunctionGenericType::new(self)
    }
}

impl<F, R0, T1, T2, T3, T4> CallableRustClosure for FunctionGenericType<F, R0, (T1, T2, T3, T4,)> where
    F: Fn(T1, T2, T3, T4) -> R0,
    R0: IntoNyaObject,
    T1: FromNyaObject,
    T2: FromNyaObject,
    T3: FromNyaObject,
    T4: FromNyaObject,
 {
    open spec fn accepts_all(&self) -> bool {
        forall|a1: T1, a2: T2, a3: T3, a4: T4| call_requires(self.function(), (a1, a2, a3, a4,))
    }

    open spec fn args_ready(&self, v: StateView) -> bool {
        stack_arg::<T1>(v, -4isize) is Some && stack_arg::<T2>(v, -3isize) is Some && stack_arg::<T3>(v, -2isize) is Some && stack_arg::<T4>(v, -1isize) is Some
    }

    fn call(&self, state: &mut NyaState) -> (r: Option<()>)
        ensures
            r is Some ==> exists|r0: R0|
                call_ensures(self.function(), (stack_arg::<T1>(old(state)@, -4isize)->0, stack_arg::<T2>(old(state)@, -3isize)->0, stack_arg::<T3>(old(state)@, -2isize)->0, stack_arg::<T4>(old(state)@, -1isize)->0,), r0) && final(state)@ == #[trigger] pushed(
                    pop_top_n(old(state)@, 4),
                    r0,
                ),
    {
        proof {
            lemma_pop_keeps_frames(state@, 4);
        }
        let a1: T1 = match state.get_stack(-4isize) {
            Some(x) => x,
            None => {
                return None;
            },
        };
        let a2: T2 = match state.get_stack(-3isize) {
            Some(x) => x,
            None => {
                return None;
            },
        };
        let a3: T3 = match state.get_stack(-2isize) {
            Some(x) => x,
            None => {
                return None;
            },
        };
        let a4: T4 = match state.get_stack(-1isize) {
            Some(x) => x,
            None => {
                return None;
            },
        };
        proof {
            assert(self.function() == self.inner);
            assert(call_requires(self.function(), (a1, a2, a3, a4,)));
        }
        let ghost before = state@;
        let r0 = (self.inner)(a1, a2, a3, a4);
        state.pop_stack(4);
        state.push_value(r0);
        assert(call_ensures(self.function(), (a1, a2, a3, a4,), r0) && state@ == pushed(
            pop_top_n(before, 4),
            r0,
        ));
        Some(())
    }
}

impl<F, R0, T1, T2, T3, T4, T5> IntoFunctionGenericType<R0, (T1, T2, T3, T4, T5,)> for F where F: Fn(T1, T2, T3, T4, T5) -> R0 {
    fn into_function_generic(self) -> (r: FunctionGenericType<Self, R0, (T1, T2, T3, T4, T5,)>) {
        FunctionGenericType::new(self)
    }
}

impl<F, R0, T1, T2, T3, T4, T5> CallableRustClosure for FunctionGenericType<F, R0, (T1, T2, T3, T4, T5,)> where
    F: Fn(T1, T2, T3, T4, T5) -> R0,
    R0: IntoNyaObject,
    T1: FromNyaObject,
    T2: FromNyaObject,
    T3: FromNyaObject,
    T4: FromNyaObject,
    T5: FromNyaObject,
 {
    open spec fn accepts_all(&self) -> bool {
        forall|a1: T1, a2: T2, a3: T3, a4: T4, a5: T5| call_requires(self.function(), (a1, a2, a3, a4, a5,))
    }

    open spec fn args_ready(&self, v: StateView) -> bool {
        stack_arg::<T1>(v, -5isize) is Some && stack_arg::<T2>(v, -4isize) is Some && stack_arg::<T3>(v, -3isize) is Some && stack_arg::<T4>(v, -2isize) is Some && stack_arg::<T5>(v, -1isize) is Some
    }

    fn call(&self, state: &mut NyaState) -> (r: Option<()>)
        ensures
            r is Some ==> exists|r0: R0|
                call_ensures(self.function(), (stack_arg::<T1>(old(state)@, -5isize)->0, stack_arg::<T2>(old(state)@, -4isize)->0, stack_arg::<T3>(old(state)@, -3isize)->0, stack_arg::<T4>(old(state)@, -2isize)->0, stack_arg::<T5>(old(state)@, -1isize)->0,), r0) && final(state)@ == #[trigger] pushed(
                    pop_top_n(old(state)@, 5),
                    r0,
                ),
    {
        proof {
            lemma_pop_keeps_frames(state@, 5);
        }
        let a1: T1 = match state.get_stack(-5isize) {
            Some(x) => x,
            None => {
                return None;
            },
        };
        let a2: T2 = match state.get_stack(-4isize) {
            Some(x) => x,
            None => {
                return None;
            },
        };
        let a3: T3 = match state.get_stack(-3isize) {
            Some(x) => x,
            None => {
                return None;
            },
        };
        let a4: T4 = match state.get_stack(-2isize) {
            Some(x) => x,
            None => {
                return None;
            },
        };
        let a5: T5 = match state.get_stack(-1isize) {
            Some(x) => x,
            None => {
                return None;
            },
        };
        proof {
            assert(self.function() == self.inner);
            assert(call_requires(self.function(), (a1, a2, a3, a4, a5,)));
        }
        let ghost before = state@;
        let r0 = (self.inner)(a1, a2, a3, a4, a5);
        state.pop_stack(5);
        state.push_value(r0);
        assert(call_ensures(self.function(), (a1, a2, a3, a4, a5,), r0) && state@ == pushed(
            pop_top_n(before, 5),
            r0,
        ));
        Some(())
    }
}

impl<F, R0, T1, T2, T3, T4, T5, T6> IntoFunctionGenericType<R0, (T1, T2, T3, T4, T5, T6,)> for F where F: Fn(T1, T2, T3, T4, T5, T6) -> R0 {
    fn into_function_generic(self) -> (r: FunctionGenericType<Self, R0, (T1, T2, T3, T4, T5, T6,)>) {
        FunctionGenericType::new(self)
    }
}

impl<F, R0, T1, T2, T3, T4, T5, T6> CallableRustClosure for FunctionGenericType<F, R0, (T1, T2, T3, T4, T5, T6,)> where
    F: Fn(T1, T2, T3, T4, T5, T6) -> R0,
    R0: IntoNyaObject,
    T1: FromNyaObject,
    T2: FromNyaObject,
    T3: FromNyaObject,
    T4: FromNyaObject,
    T5: FromNyaObject,
    T6: FromNyaObject,
 {
    open spec fn accepts_all(&self) -> bool {
        forall|a1: T1, a2: T2, a3: T3, a4: T4, a5: T5, a6: T6| call_requires(self.function(), (a1, a2, a3, a4, a5, a6,))
    }

    open spec fn args_ready(&self, v: StateView) -> bool {
        stack_arg::<T1>(v, -6isize) is Some && stack_arg::<T2>(v, -5isize) is Some && stack_arg::<T3>(v, -4isize) is Some && stack_arg::<T4>(v, -3isize) is Some && stack_arg::<T5>(v, -2isize) is Some && stack_arg::<T6>(v, -1isize) is Some
    }

    fn call(&self, state: &mut NyaState) -> (r: Option<()>)
        ensures
            r is Some ==> exists|r0: R0|
                call_ensures(self.function(), (stack_arg::<T1>(old(state)@, -6isize)->0, stack_arg::<T2>(old(state)@, -5isize)->0, stack_arg::<T3>(old(state)@, -4isize)->0, stack_arg::<T4>(old(state)@, -3isize)->0, stack_arg::<T5>(old(state)@, -2isize)->0, stack_arg::<T6>(old(state)@, -1isize)->0,), r0) && final(state)@ == #[trigger] pushed(
                    pop_top_n(old(state)@, 6),
                    r0,
                ),
    {
        proof {
            lemma_pop_keeps_frames(state@, 6);
        }
        let a1: T1 = match state.get_stack(-6isize) {
            Some(x) => x,
            None => {
                return None;
            },
        };
        let a2: T2 = match state.get_stack(-5isize) {
            Some(x) => x,
            None => {
                return None;
            },
        };
        let a3: T3 = match state.get_stack(-4isize) {
            Some(x) => x,
            None => {
                return None;
            },
        };
        let a4: T4 = match state.get_stack(-3isize) {
            Some(x) => x,
            None => {
                return None;
            },
        };
        let a5: T5 = match state.get_stack(-2isize) {
            Some(x) => x,
            None => {
                return None;
            },
        };
        let a6: T6 = match state.get_stack(-1isize) {
            Some(x) => x,
            None => {
                return None;
            },
        };
        proof {
            assert(self.function() == self.inner);
            assert(call_requires(self.function(), (a1, a2, a3, a4, a5, a6,)));
        }
        let ghost before = state@;
        let r0 = (self.inner)(a1, a2, a3, a4, a5, a6);
        state.pop_stack(6);
        state.push_value(r0);
        assert(call_ensures(self.function(), (a1, a2, a3, a4, a5, a6,), r0) && state@ == pushed(
            pop_top_n(before, 6),
            r0,
        ));
        Some(())
    }
}

impl<F, R0, T1, T2, T3, T4, T5, T6, T7> IntoFunctionGenericType<R0, (T1, T2, T3, T4, T5, T6, T7,)> for F where F: Fn(T1, T2, T3, T4, T5, T6, T7) -> R0 {
    fn into_function_generic(self) -> (r: FunctionGenericType<Self, R0, (T1, T2, T3, T4, T5, T6, T7,)>) {
        FunctionGenericType::new(self)
    }
}

impl<F, R0, T1, T2, T3, T4, T5, T6, T7> CallableRustClosure for FunctionGenericType<F, R0, (T1, T2, T3, T4, T5, T6, T7,)> where
    F: Fn(T1, T2, T3, T4, T5, T6, T7) -> R0,
    R0: IntoNyaObject,
    T1: FromNyaObject,
    T2: FromNyaObject,
    T3: FromNyaObject,
    T4: FromNyaObject,
    T5: FromNyaObject,
    T6: FromNyaObject,
    T7: FromNyaObject,
 {
    open spec fn accepts_all(&self) -> bool {
        forall|a1: T1, a2: T2, a3: T3, a4: T4, a5: T5, a6: T6, a7: T7| call_requires(self.function(), (a1, a2, a3, a4, a5, a6, a7,))
    }

    open spec fn args_ready(&self, v: StateView) -> bool {
        stack_arg::<T1>(v, -7isize) is Some && stack_arg::<T2>(v, -6isize) is Some && stack_arg::<T3>(v, -5isize) is Some && stack_arg::<T4>(v, -4isize) is Some && stack_arg::<T5>(v, -3isize) is Some && stack_arg::<T6>(v, -2isize) is Some && stack_arg::<T7>(v, -1isize) is Some
    }

    fn call(&self, state: &mut NyaState) -> (r: Option<()>)
        ensures
            r is Some ==> exists|r0: R0|
                call_ensures(self.function(), (stack_arg::<T1>(old(state)@, -7isize)->0, stack_arg::<T2>(old(state)@, -6isize)->0, stack_arg::<T3>(old(state)@, -5isize)->0, stack_arg::<T4>(old(state)@, -4isize)->0, stack_arg::<T5>(old(state)@, -3isize)->0, stack_arg::<T6>(old(state)@, -2isize)->0, stack_arg::<T7>(old(state)@, -1isize)->0,), r0) && final(state)@ == #[trigger] pushed(
                    pop_top_n(old(state)@, 7),
                    r0,
                ),
    {
        proof {
            lemma_pop_keeps_frames(state@, 7);
        }
        let a1: T1 = match state.get_stack(-7isize) {
            Some(x) => x,
            None => {
                return None;
            },
        };
        let a2: T2 = match state.get_stack(-6isize) {
            Some(x) => x,
            None => {
                return None;
            },
        };
        let a3: T3 = match state.get_stack(-5isize) {
            Some(x) => x,
            None => {
                return None;
            },
        };
        let a4: T4 = match state.get_stack(-4isize) {
            Some(x) => x,
            None => {
                return None;
            },
        };
        let a5: T5 = match state.get_stack(-3isize) {
            Some(x) => x,
            None => {
                return None;
            },
        };
        let a6: T6 = match state.get_stack(-2isize) {
            Some(x) => x,
            None => {
                return None;
            },
        };
        let a7: T7 = match state.get_stack(-1isize) {
            Some(x) => x,
            None => {
                return None;
            },
        };
        proof {
            assert(self.function() == self.inner);
            assert(call_requires(self.function(), (a1, a2, a3, a4, a5, a6, a7,)));
        }
        let ghost before = state@;
        let r0 = (self.inner)(a1, a2, a3, a4, a5, a6, a7);
        state.pop_stack(7);
        state.push_value(r0);
        assert(call_ensures(self.function(), (a1, a2, a3, a4, a5, a6, a7,), r0) && state@ == pushed(
            pop_top_n(before, 7),
            r0,
        ));
        Some(())
    }
}

impl<F, R0, T1, T2, T3, T4, T5, T6, T7, T8> IntoFunctionGenericType<R0, (T1, T2, T3, T4, T5, T6, T7, T8,)> for F where F: Fn(T1, T2, T3, T4, T5, T6, T7, T8) -> R0 {
    fn into_function_generic(self) -> (r: FunctionGenericType<Self, R0, (T1, T2, T3, T4, T5, T6, T7, T8,)>) {
        FunctionGenericType::new(self)
    }
}

impl<F, R0, T1, T2, T3, T4, T5, T6, T7, T8> CallableRustClosure for FunctionGenericType<F, R0, (T1, T2, T3, T4, T5, T6, T7, T8,)> where
    F: Fn(T1, T2, T3, T4, T5, T6, T7, T8) -> R0,
    R0: IntoNyaObject,
    T1: FromNyaObject,
    T2: FromNyaObject,
    T3: FromNyaObject,
    T4: FromNyaObject,
    T5: FromNyaObject,
    T6: FromNyaObject,
    T7: FromNyaObject,
    T8: FromNyaObject,
 {
    open spec fn accepts_all(&self) -> bool {
        forall|a1: T1, a2: T2, a3: T3, a4: T4, a5: T5, a6: T6, a7: T7, a8: T8| call_requires(self.function(), (a1, a2, a3, a4, a5, a6, a7, a8,))
    }

    open spec fn args_ready(&self, v: StateView) -> bool {
        stack_arg::<T1>(v, -8isize) is Some && stack_arg::<T2>(v, -7isize) is Some && stack_arg::<T3>(v, -6isize) is Some && stack_arg::<T4>(v, -5isize) is Some && stack_arg::<T5>(v, -4isize) is Some && stack_arg::<T6>(v, -3isize) is Some && stack_arg::<T7>(v, -2isize) is Some && stack_arg::<T8>(v, -1isize) is Some
    }

    fn call(&self, state: &mut NyaState) -> (r: Option<()>)
        ensures
            r is Some ==> exists|r0: R0|
                call_ensures(self.function(), (stack_arg::<T1>(old(state)@, -8isize)->0, stack_arg::<T2>(old(state)@, -7isize)->0, stack_arg::<T3>(old(state)@, -6isize)->0, stack_arg::<T4>(old(state)@, -5isize)->0, stack_arg::<T5>(old(state)@, -4isize)->0, stack_arg::<T6>(old(state)@, -3isize)->0, stack_arg::<T7>(old(state)@, -2isize)->0, stack_arg::<T8>(old(state)@, -1isize)->0,), r0) && final(state)@ == #[trigger] pushed(
                    pop_top_n(old(state)@, 8),
                    r0,
                ),
    {
        proof {
            lemma_pop_keeps_frames(state@, 8);
        }
        let a1: T1 = match state.get_stack(-8isize) {
            Some(x) => x,
            None => {
                return None;
            },
        };
        let a2: T2 = match state.get_stack(-7isize) {
            Some(x) => x,
            None => {
                return None;
            },
        };
        let a3: T3 = match state.get_stack(-6isize) {
            Some(x) => x,
            None => {
                return None;
            },
        };
        let a4: T4 = match state.get_stack(-5isize) {
            Some(x) => x,
            None => {
                return None;
            },
        };
        let a5: T5 = match state.get_stack(-4isize) {
            Some(x) => x,
            None => {
                return None;
            },
        };
        let a6: T6 = match state.get_stack(-3isize) {
            Some(x) => x,
            None => {
                return None;
            },
        };
        let a7: T7 = match state.get_stack(-2isize) {
            Some(x) => x,
            None => {
                return None;
            },
        };
        let a8: T8 = match state.get_stack(-1isize) {
            Some(x) => x,
            None => {
                return None;
            },
        };
        proof {
            assert(self.function() == self.inner);
            assert(call_requires(self.function(), (a1, a2, a3, a4, a5, a6, a7, a8,)));
        }
        let ghost before = state@;
        let r0 = (self.inner)(a1, a2, a3, a4, a5, a6, a7, a8);
        state.pop_stack(8);
        state.push_value(r0);
        assert(call_ensures(self.function(), (a1, a2, a3, a4, a5, a6, a7, a8,), r0) && state@ == pushed(
            pop_top_n(before, 8),
            r0,
        ));
        Some(())
    }
}

impl<F, R0, T1, T2, T3, T4, T5, T6, T7, T8, T9> IntoFunctionGenericType<R0, (T1, T2, T3, T4, T5, T6, T7, T8, T9,)> for F where F: Fn(T1, T2, T3, T4, T5, T6, T7, T8, T9) -> R0 {
    fn into_function_generic(self) -> (r: FunctionGenericType<Self, R0, (T1, T2, T3, T4, T5, T6, T7, T8, T9,)>) {
        FunctionGenericType::new(self)
    }
}

impl<F, R0, T1, T2, T3, T4, T5, T6, T7, T8, T9> CallableRustClosure for FunctionGenericType<F, R0, (T1, T2, T3, T4, T5, T6, T7, T8, T9,)> where
    F: Fn(T1, T2, T3, T4, T5, T6, T7, T8, T9) -> R0,
    R0: IntoNyaObject,
    T1: FromNyaObject,
    T2: FromNyaObject,
    T3: FromNyaObject,
    T4: FromNyaObject,
    T5: FromNyaObject,
    T6: FromNyaObject,
    T7: FromNyaObject,
    T8: FromNyaObject,
    T9: FromNyaObject,
 {
    open spec fn accepts_all(&self) -> bool {
        forall|a1: T1, a2: T2, a3: T3, a4: T4, a5: T5, a6: T6, a7: T7, a8: T8, a9: T9| call_requires(self.function(), (a1, a2, a3, a4, a5, a6, a7, a8, a9,))
    }

    open spec fn args_ready(&self, v: StateView) -> bool {
        stack_arg::<T1>(v, -9isize) is Some && stack_arg::<T2>(v, -8isize) is Some && stack_arg::<T3>(v, -7isize) is Some && stack_arg::<T4>(v, -6isize) is Some && stack_arg::<T5>(v, -5isize) is Some && stack_arg::<T6>(v, -4isize) is Some && stack_arg::<T7>(v, -3isize) is Some && stack_arg::<T8>(v, -2isize) is Some && stack_arg::<T9>(v, -1isize) is Some
    }

    fn call(&self, state: &mut NyaState) -> (r: Option<()>)
        ensures
            r is Some ==> exists|r0: R0|
                call_ensures(self.function(), (stack_arg::<T1>(old(state)@, -9isize)->0, stack_arg::<T2>(old(state)@, -8isize)->0, stack_arg::<T3>(old(state)@, -7isize)->0, stack_arg::<T4>(old(state)@, -6isize)->0, stack_arg::<T5>(old(state)@, -5isize)->0, stack_arg::<T6>(old(state)@, -4isize)->0, stack_arg::<T7>(old(state)@, -3isize)->0, stack_arg::<T8>(old(state)@, -2isize)->0, stack_arg::<T9>(old(state)@, -1isize)->0,), r0) && final(state)@ == #[trigger] pushed(
                    pop_top_n(old(state)@, 9),
                    r0,
                ),
    {
        proof {
            lemma_pop_keeps_frames(state@, 9);
        }
        let a1: T1 = match state.get_stack(-9isize) {
            Some(x) => x,
            None => {
                return None;
            },
        };
        let a2: T2 = match state.get_stack(-8isize) {
            Some(x) => x,
            None => {
                return None;
            },
        };
        let a3: T3 = match state.get_stack(-7isize) {
            Some(x) => x,
            None => {
                return None;
            },
        };
        let a4: T4 = match state.get_stack(-6isize) {
            Some(x) => x,
            None => {
                return None;
            },
        };
        let a5: T5 = match state.get_stack(-5isize) {
            Some(x) => x,
            None => {
                return None;
            },
        };
        let a6: T6 = match state.get_stack(-4isize) {
            Some(x) => x,
            None => {
                return None;
            },
        };
        let a7: T7 = match state.get_stack(-3isize) {
            Some(x) => x,
            None => {
                return None;
            },
        };
        let a8: T8 = match state.get_stack(-2isize) {
            Some(x) => x,
            None => {
                return None;
            },
        };
        let a9: T9 = match state.get_stack(-1isize) {
            Some(x) => x,
            None => {
                return None;
            },
        };
        proof {
            assert(self.function() == self.inner);
            assert(call_requires(self.function(), (a1, a2, a3, a4, a5, a6, a7, a8, a9,)));
        }
        let ghost before = state@;
        let r0 = (self.inner)(a1, a2, a3, a4, a5, a6, a7, a8, a9);
        state.pop_stack(9);
        state.push_value(r0);
        assert(call_ensures(self.function(), (a1, a2, a3, a4, a5, a6, a7, a8, a9,), r0) && state@ == pushed(
            pop_top_n(before, 9),
            r0,
        ));
        Some(())
    }
}

impl<F, R0, T1, T2, T3, T4, T5, T6, T7, T8, T9, T10> IntoFunctionGenericType<R0, (T1, T2, T3, T4, T5, T6, T7, T8, T9, T10,)> for F where F: Fn(T1, T2, T3, T4, T5, T6, T7, T8, T9, T10) -> R0 {
    fn into_function_generic(self) -> (r: FunctionGenericType<Self, R0, (T1, T2, T3, T4, T5, T6, T7, T8, T9, T10,)>) {
        FunctionGenericType::new(self)
    }
}

impl<F, R0, T1, T2, T3, T4, T5, T6, T7, T8, T9, T10> CallableRustClosure for FunctionGenericType<F, R0, (T1, T2, T3, T4, T5, T6, T7, T8, T9, T10,)> where
    F: Fn(T1, T2, T3, T4, T5, T6, T7, T8, T9, T10) -> R0,
    R0: IntoNyaObject,
    T1: FromNyaObject,
    T2: FromNyaObject,
    T3: FromNyaObject,
    T4: FromNyaObject,
    T5: FromNyaObject,
    T6: FromNyaObject,
    T7: FromNyaObject,
    T8: FromNyaObject,
    T9: FromNyaObject,
    T10: FromNyaObject,
 {
    open spec fn accepts_all(&self) -> bool {
        forall|a1: T1, a2: T2, a3: T3, a4: T4, a5: T5, a6: T6, a7: T7, a8: T8, a9: T9, a10: T10| call_requires(self.function(), (a1, a2, a3, a4, a5, a6, a7, a8, a9, a10,))
    }

    open spec fn args_ready(&self, v: StateView) -> bool {
        stack_arg::<T1>(v, -10isize) is Some && stack_arg::<T2>(v, -9isize) is Some && stack_arg::<T3>(v, -8isize) is Some && stack_arg::<T4>(v, -7isize) is Some && stack_arg::<T5>(v, -6isize) is Some && stack_arg::<T6>(v, -5isize) is Some && stack_arg::<T7>(v, -4isize) is Some && stack_arg::<T8>(v, -3isize) is Some && stack_arg::<T9>(v, -2isize) is Some && stack_arg::<T10>(v, -1isize) is Some
    }

    fn call(&self, state: &mut NyaState) -> (r: Option<()>)
        ensures
            r is Some ==> exists|r0: R0|
                call_ensures(self.function(), (stack_arg::<T1>(old(state)@, -10isize)->0, stack_arg::<T2>(old(state)@, -9isize)->0, stack_arg::<T3>(old(state)@, -8isize)->0, stack_arg::<T4>(old(state)@, -7isize)->0, stack_arg::<T5>(old(state)@, -6isize)->0, stack_arg::<T6>(old(state)@, -5isize)->0, stack_arg::<T7>(old(state)@, -4isize)->0, stack_arg::<T8>(old(state)@, -3isize)->0, stack_arg::<T9>(old(state)@, -2isize)->0, stack_arg::<T10>(old(state)@, -1isize)->0,), r0) && final(state)@ == #[trigger] pushed(
                    pop_top_n(old(state)@, 10),
                    r0,
                ),
    {
        proof {
            lemma_pop_keeps_frames(state@, 10);
        }
        let a1: T1 = match state.get_stack(-10isize) {
            Some(x) => x,
            None => {
                return None;
            },
        };
        let a2: T2 = match state.get_stack(-9isize) {
            Some(x) => x,
            None => {
                return None;
            },
        };
        let a3: T3 = match state.get_stack(-8isize) {
            Some(x) => x,
            None => {
                return None;
            },
        };
        let a4: T4 = match state.get_stack(-7isize) {
            Some(x) => x,
            None => {
                return None;
            },
        };
        let a5: T5 = match state.get_stack(-6isize) {
            Some(x) => x,
            None => {
                return None;
            },
        };
        let a6: T6 = match state.get_stack(-5isize) {
            Some(x) => x,
            None => {
                return None;
            },
        };
        let a7: T7 = match state.get_stack(-4isize) {
            Some(x) => x,
            None => {
                return None;
            },
        };
        let a8: T8 = match state.get_stack(-3isize) {
            Some(x) => x,
            None => {
                return None;
            },
        };
        let a9: T9 = match state.get_stack(-2isize) {
            Some(x) => x,
            None => {
                return None;
            },
        };
        let a10: T10 = match state.get_stack(-1isize) {
            Some(x) => x,
            None => {
                return None;
            },
        };
        proof {
            assert(self.function() == self.inner);
            assert(call_requires(self.function(), (a1, a2, a3, a4, a5, a6, a7, a8, a9, a10,)));
        }
        let ghost before = state@;
        let r0 = (self.inner)(a1, a2, a3, a4, a5, a6, a7, a8, a9, a10);
        state.pop_stack(10);
        state.push_value(r0);
        assert(call_ensures(self.function(), (a1, a2, a3, a4, a5, a6, a7, a8, a9, a10,), r0) && state@ == pushed(
            pop_top_n(before, 10),
            r0,
        ));
        Some(())
    }
}

/// Popping values keeps the number of stack frames.
pub proof fn lemma_pop_keeps_frames(v: StateView, n: nat)
    ensures
        pop_top_n(v, n).stack.len() == v.stack.len(),
        pop_top_n(v, n).heap == v.heap,
    decreases n,
{
    if n > 0 {
        lemma_pop_keeps_frames(v, (n - 1) as nat);
    }
}

} // verus!

