//! The runtime as the array engine sees it: the stacks of values and of
//! functions, the fill values that are set, and its errors.

use vstd::prelude::*;
use vstd::string::StringExecFns;
use crate::array::Array;
use crate::context::{
    array_answer, scalar_array_fill, ArrayValue, ErrorContext, FillContext, FillError, Fills,
};
use crate::function::{CodeSpan, Function};
use crate::text::{decimal, decimal_string};
use crate::value::{value_views, Value, ValueView};

verus! {

/// An error of the runtime: its message, and whether it came of a fill that
/// failed.
#[derive(Debug, PartialEq, Eq)]
pub struct UiuaError {
    pub message: String,
    pub fill: bool,
}

/// What an operation of the runtime gives back.
pub type UiuaResult<T> = Result<T, UiuaError>;

impl FillError for UiuaError {
    open spec fn fill_class(&self) -> bool {
        self.fill
    }

    fn is_fill(&self) -> (b: bool) {
        self.fill
    }
}

/// The runtime.
pub struct Uiua {
    /// The stack of values, the top last.
    pub stack: Vec<Value>,
    /// The stack of functions, the top last.
    pub function_stack: Vec<Function>,
    /// The stack of values that are kept to undo a function.
    pub under_stack: Vec<Value>,
    /// The fill values that are set.
    pub fills: Fills,
    /// The number of steps that one enumeration may take.
    pub execution_limit: usize,
}

/// The mathematical value of the runtime.
pub struct UiuaView {
    pub stack: Seq<ValueView>,
    pub function_stack: Seq<Function>,
    pub under_stack: Seq<ValueView>,
    pub fills: Fills,
    pub execution_limit: usize,
}

impl View for Uiua {
    type V = UiuaView;

    open spec fn view(&self) -> UiuaView {
        UiuaView {
            stack: value_views(self.stack@),
            function_stack: self.function_stack@,
            under_stack: value_views(self.under_stack@),
            fills: self.fills,
            execution_limit: self.execution_limit,
        }
    }
}

/// Whether every value of a list is well formed.
pub open spec fn all_wf(values: Seq<ValueView>) -> bool {
    forall|i: int| 0 <= i < values.len() ==> (#[trigger] values[i]).wf()
}

impl UiuaView {
    /// The runtime is well formed when every value on its stacks is.
    pub open spec fn wf(self) -> bool {
        all_wf(self.stack) && all_wf(self.under_stack)
    }
}

/// The message for a value that is missing on the stack.
pub open spec fn missing_text(what: Seq<char>) -> Seq<char> {
    "Stack was empty when getting "@ + what
}

/// The message for an argument that is missing on the stack.
pub open spec fn missing_argument_text(n: nat) -> Seq<char> {
    "Stack was empty when getting argument "@ + decimal(n)
}

/// The message for a function that is missing on the function stack.
pub open spec fn missing_function_text() -> Seq<char> {
    "Function stack was empty"@
}

impl ErrorContext for Uiua {
    type Error = UiuaError;

    open spec fn reports(&self, msg: Seq<char>, e: UiuaError) -> bool {
        e.message@ == msg && !e.fill
    }

    fn error(&self, msg: String) -> (e: UiuaError) {
        UiuaError { message: msg, fill: false }
    }
}

impl FillContext for Uiua {
    open spec fn fills(&self) -> Fills {
        self.fills
    }

    open spec fn marks_fill(raw: UiuaError, e: UiuaError) -> bool {
        e.message@ == raw.message@ && e.fill
    }

    fn scalar_fill<T: ArrayValue>(&self) -> (r: Result<T, &'static str>) {
        T::get_scalar_fill(&self.fills)
    }

    /// The scalar fill value of the kind, as an array of rank zero.
    fn array_fill<T: ArrayValue>(&self) -> (r: Result<Array<T>, &'static str>)
        ensures
            array_answer(r) == scalar_array_fill::<T>(self.fills),
    {
        match T::get_scalar_fill(&self.fills) {
            Ok(v) => Ok(Array::scalar(v)),
            Err(e) => Err(e),
        }
    }

    fn fill_error(error: UiuaError) -> (e: UiuaError) {
        UiuaError { message: error.message, fill: true }
    }

    fn is_fill_error(error: &UiuaError) -> (b: bool) {
        error.fill
    }
}

/// No fill value set for any kind of element.
pub open spec fn no_fills() -> Fills {
    Fills { num: None, byte: None, complex: None, character: None, boxed: None }
}

/// A stretch of source text as a context: its errors are errors of the
/// runtime, and no fill value is set in it.
impl ErrorContext for CodeSpan {
    type Error = UiuaError;

    open spec fn reports(&self, msg: Seq<char>, e: UiuaError) -> bool {
        e.message@ == msg && !e.fill
    }

    fn error(&self, msg: String) -> (e: UiuaError) {
        UiuaError { message: msg, fill: false }
    }
}

impl FillContext for CodeSpan {
    open spec fn fills(&self) -> Fills {
        no_fills()
    }

    open spec fn marks_fill(raw: UiuaError, e: UiuaError) -> bool {
        e.message@ == raw.message@ && e.fill
    }

    fn scalar_fill<T: ArrayValue>(&self) -> (r: Result<T, &'static str>) {
        let none = Fills { num: None, byte: None, complex: None, character: None, boxed: None };
        T::get_scalar_fill(&none)
    }

    fn array_fill<T: ArrayValue>(&self) -> (r: Result<Array<T>, &'static str>)
        ensures
            r is Err,
    {
        Err(". No fill is set.")
    }

    fn fill_error(error: UiuaError) -> (e: UiuaError) {
        UiuaError { message: error.message, fill: true }
    }

    fn is_fill_error(error: &UiuaError) -> (b: bool) {
        error.fill
    }
}

impl Uiua {
    /// A runtime with empty stacks, no fill value set, and no limit on
    /// the steps of an enumeration but the machine word.
    pub fn new() -> (env: Uiua)
        ensures
            env@.execution_limit == usize::MAX,
            env@.stack.len() == 0,
            env@.function_stack.len() == 0,
            env@.under_stack.len() == 0,
            env@.fills == (Fills {
                num: None,
                byte: None,
                complex: None,
                character: None,
                boxed: None,
            }),
            env@.wf(),
    {
        let env = Uiua {
            stack: Vec::new(),
            function_stack: Vec::new(),
            under_stack: Vec::new(),
            fills: Fills { num: None, byte: None, complex: None, character: None, boxed: None },
            execution_limit: usize::MAX,
        };
        assert(env@.stack =~= Seq::<ValueView>::empty());
        assert(env@.under_stack =~= Seq::<ValueView>::empty());
        env
    }

    /// Whether the runtime is well formed: every value on its stacks is.
    pub fn is_well_formed(&self) -> (ok: bool)
        ensures
            ok == self@.wf(),
    {
        let mut i: usize = 0;
        while i < self.stack.len()
            invariant
                i <= self.stack.len(),
                forall|j: int| 0 <= j < i ==> (#[trigger] value_views(self.stack@)[j]).wf(),
            decreases self.stack.len() - i,
        {
            assert(value_views(self.stack@)[i as int] == self.stack@[i as int]@);
            if !self.stack[i].is_well_formed() {
                return false;
            }
            i += 1;
        }
        let mut k: usize = 0;
        while k < self.under_stack.len()
            invariant
                k <= self.under_stack.len(),
                all_wf(value_views(self.stack@)),
                forall|j: int| 0 <= j < k ==> (#[trigger] value_views(self.under_stack@)[j]).wf(),
            decreases self.under_stack.len() - k,
        {
            assert(value_views(self.under_stack@)[k as int] == self.under_stack@[k as int]@);
            if !self.under_stack[k].is_well_formed() {
                return false;
            }
            k += 1;
        }
        true
    }

    /// The number of values on the stack.
    pub fn stack_height(&self) -> (height: usize)
        ensures
            height == self@.stack.len(),
    {
        self.stack.len()
    }

    /// Puts a value on the stack.
    pub fn push(&mut self, value: Value)
        requires
            old(self)@.wf(),
            value@.wf(),
        ensures
            final(self)@ == (UiuaView { stack: old(self)@.stack.push(value@), ..old(self)@ }),
            final(self)@.wf(),
    {
        self.stack.push(value);
        assert(value_views(self.stack@) =~= old(self)@.stack.push(value@));
    }

    /// Puts a function on the function stack.
    pub fn push_function(&mut self, f: Function)
        ensures
            final(self)@ == (UiuaView {
                function_stack: old(self)@.function_stack.push(f),
                ..old(self)@
            }),
    {
        self.function_stack.push(f);
    }

    /// Puts a value on the stack of values that are kept to undo a function.
    pub fn push_under(&mut self, value: Value)
        requires
            old(self)@.wf(),
            value@.wf(),
        ensures
            final(self)@ == (UiuaView {
                under_stack: old(self)@.under_stack.push(value@),
                ..old(self)@
            }),
            final(self)@.wf(),
    {
        self.under_stack.push(value);
        assert(value_views(self.under_stack@) =~= old(self)@.under_stack.push(value@));
    }

    /// Takes the top value off the stack; `what` names it in the message
    /// for an empty stack.
    pub fn pop(&mut self, what: &str) -> (result: UiuaResult<Value>)
        requires
            old(self)@.wf(),
        ensures
            final(self)@.wf(),
            match result {
                Ok(v) => old(self)@.stack.len() > 0 && v@ == old(self)@.stack.last() && v@.wf()
                    && final(self)@ == (UiuaView {
                    stack: old(self)@.stack.drop_last(),
                    ..old(self)@
                }),
                Err(e) => old(self)@.stack.len() == 0 && final(self)@ == old(self)@
                    && e.message@ == missing_text(what@) && !e.fill,
            },
    {
        match self.stack.pop() {
            Some(v) => {
                assert(value_views(self.stack@) =~= old(self)@.stack.drop_last());
                assert(old(self)@.stack.last() == v@);
                Ok(v)
            },
            None => {
                let mut msg = String::from_str("Stack was empty when getting ");
                msg.append(what);
                Err(UiuaError { message: msg, fill: false })
            },
        }
    }

    /// Takes the top value off the stack as the argument number `n`.
    pub fn pop_arg(&mut self, n: usize) -> (result: UiuaResult<Value>)
        requires
            old(self)@.wf(),
        ensures
            final(self)@.wf(),
            match result {
                Ok(v) => old(self)@.stack.len() > 0 && v@ == old(self)@.stack.last() && v@.wf()
                    && final(self)@ == (UiuaView {
                    stack: old(self)@.stack.drop_last(),
                    ..old(self)@
                }),
                Err(e) => old(self)@.stack.len() == 0 && final(self)@ == old(self)@
                    && e.message@ == missing_argument_text(n as nat) && !e.fill,
            },
    {
        match self.stack.pop() {
            Some(v) => {
                assert(value_views(self.stack@) =~= old(self)@.stack.drop_last());
                assert(old(self)@.stack.last() == v@);
                Ok(v)
            },
            None => {
                let mut msg = String::from_str("Stack was empty when getting argument ");
                let number = decimal_string(n);
                msg.append(number.as_str());
                Err(UiuaError { message: msg, fill: false })
            },
        }
    }

    /// Takes the top function off the function stack.
    pub fn pop_function(&mut self) -> (result: UiuaResult<Function>)
        ensures
            match result {
                Ok(f) => old(self)@.function_stack.len() > 0 && f == old(
                    self,
                )@.function_stack.last() && final(self)@ == (UiuaView {
                    function_stack: old(self)@.function_stack.drop_last(),
                    ..old(self)@
                }),
                Err(e) => old(self)@.function_stack.len() == 0 && final(self)@ == old(self)@
                    && e.message@ == missing_function_text() && !e.fill,
            },
    {
        match self.function_stack.pop() {
            Some(f) => Ok(f),
            None => Err(
                UiuaError { message: String::from_str("Function stack was empty"), fill: false },
            ),
        }
    }

    /// Copies of the top `n` values of the stack, the top last.
    pub fn clone_stack_top(&self, n: usize) -> (result: UiuaResult<Vec<Value>>)
        requires
            self@.wf(),
        ensures
            match result {
                Ok(top) => n <= self@.stack.len() && value_views(top@) == self@.stack.skip(
                    self@.stack.len() - n,
                ) && all_wf(value_views(top@)),
                Err(e) => n > self@.stack.len() && e.message@ == missing_argument_text(
                    (self@.stack.len() + 1) as nat,
                ) && !e.fill,
            },
    {
        let height: usize = self.stack.len();
        if height < n {
            let mut msg = String::from_str("Stack was empty when getting argument ");
            let number = decimal_string(height + 1);
            msg.append(number.as_str());
            return Err(UiuaError { message: msg, fill: false });
        }
        let from: usize = height - n;
        let mut top: Vec<Value> = Vec::new();
        let mut i: usize = from;
        while i < height
            invariant
                from <= i <= height,
                height == self.stack@.len(),
                top@.len() == i - from,
                forall|j: int| 0 <= j < i - from ==> (#[trigger] top@[j])@ == self.stack@[from + j]@,
            decreases height - i,
        {
            top.push(self.stack[i].duplicate());
            i += 1;
        }
        assert(value_views(top@) =~= self@.stack.skip(self@.stack.len() - n));
        assert(all_wf(value_views(top@))) by {
            assert forall|j: int| 0 <= j < value_views(top@).len() implies (#[trigger] value_views(
                top@,
            )[j]).wf() by {
                assert(value_views(top@)[j] == self@.stack[from + j]);
            }
        }
        Ok(top)
    }
}

} // verus!
