//! Dispatch: the choice among functions by a selector, and the attempt of
//! a function with a handler for its failure. The runtime calls the
//! functions; what is decided before and after each call is decided here.

use vstd::prelude::*;
use vstd::string::StringExecFns;
use tinyvec::TinyVec;
use crate::array::Array;
use crate::function::{Function, Signature};
use crate::runtime::{
    all_wf, missing_argument_text, missing_function_text, missing_text, Uiua, UiuaError,
    UiuaResult, UiuaView,
};
use crate::shape::{
    elements, fits, lemma_elements_concat, lemma_elements_skip, lemma_fits_skip, shape_fits,
    suffix_elements,
};
use crate::size::{size_error_text, SizeError};
use crate::text::{decimal, decimal_string, shape_string, shape_text};
use crate::value::{copy_dims, join_outcome, value_views, Value, ValueView};

verus! {

/// What a first function and a handler for its failure need before the
/// first is called: the two functions, and copies of the arguments that
/// the handler shall find again.
pub struct TryPlan {
    pub tried: Function,
    pub handler: Function,
    pub backup: Vec<Value>,
}

/// The smaller of two numbers.
pub open spec fn lesser(a: usize, b: usize) -> usize {
    if a <= b {
        a
    } else {
        b
    }
}

/// Prepares the attempt of a function: takes the function and then its
/// handler off the function stack and copies as many of the top values of
/// the stack as both take.
///
/// Where the stack holds fewer values than the function takes, all of them
/// are dropped and the first missing argument is reported.
#[verifier::rlimit(60)]
pub fn try_(env: &mut Uiua) -> (result: UiuaResult<TryPlan>)
    requires
        old(env)@.wf(),
    ensures
        final(env)@.wf(),
        final(env)@.fills == old(env)@.fills,
        final(env)@.under_stack == old(env)@.under_stack,
        final(env)@.execution_limit == old(env)@.execution_limit,
        match result {
            Ok(plan) => {
                let fs = old(env)@.function_stack;
                &&& fs.len() >= 2
                &&& plan.tried == fs[fs.len() - 1]
                &&& plan.handler == fs[fs.len() - 2]
                &&& plan.tried.signature.args <= old(env)@.stack.len()
                &&& final(env)@.stack == old(env)@.stack
                &&& final(env)@.function_stack == fs.take(fs.len() - 2)
                &&& value_views(plan.backup@) == old(env)@.stack.skip(
                    old(env)@.stack.len() - lesser(
                        plan.tried.signature.args,
                        plan.handler.signature.args,
                    ),
                )
                &&& all_wf(value_views(plan.backup@))
            },
            Err(e) => {
                let fs = old(env)@.function_stack;
                &&& !e.fill
                &&& if fs.len() < 2 {
                    &&& e.message@ == missing_function_text()
                    &&& final(env)@.stack == old(env)@.stack
                    &&& final(env)@.function_stack == Seq::<Function>::empty()
                } else {
                    &&& fs[fs.len() - 1].signature.args > old(env)@.stack.len()
                    &&& e.message@ == missing_argument_text((old(env)@.stack.len() + 1) as nat)
                    &&& final(env)@.stack == Seq::<ValueView>::empty()
                    &&& final(env)@.function_stack == fs.take(fs.len() - 2)
                }
            },
        },
{
    let ghost fs = env@.function_stack;
    let ghost stack = env@.stack;
    let f = match env.pop_function() {
        Ok(f) => f,
        Err(e) => {
            assert(env@.function_stack =~= Seq::<Function>::empty());
            return Err(e);
        },
    };
    let handler = match env.pop_function() {
        Ok(h) => h,
        Err(e) => {
            assert(env@.function_stack =~= Seq::<Function>::empty());
            return Err(e);
        },
    };
    assert(env@.function_stack =~= fs.take(fs.len() - 2));
    let f_sig = f.signature();
    let h_sig = handler.signature();
    let height: usize = env.stack_height();
    if height < f_sig.args {
        let mut i: usize = 0;
        assert(env@.stack =~= stack.take(height - 0));
        while i < f_sig.args
            invariant
                i <= height < f_sig.args,
                height == stack.len(),
                env@.wf(),
                env@.stack == stack.take(height - i),
                env@.function_stack == fs.take(fs.len() - 2),
                env@.fills == old(env)@.fills,
                env@.execution_limit == old(env)@.execution_limit,
                env@.under_stack == old(env)@.under_stack,
                fs == old(env)@.function_stack,
                stack == old(env)@.stack,
                fs.len() >= 2,
                f == fs[fs.len() - 1],
                f_sig == f.signature,
            decreases f_sig.args - i,
        {
            match env.pop_arg(i + 1) {
                Ok(_) => {
                    assert(env@.stack =~= stack.take(height - (i + 1)));
                },
                Err(e) => {
                    assert(env@.stack =~= Seq::<ValueView>::empty());
                    assert(i == height);
                    return Err(e);
                },
            }
            i += 1;
        }
    }
    let n: usize = if f_sig.args <= h_sig.args { f_sig.args } else { h_sig.args };
    match env.clone_stack_top(n) {
        Ok(backup) => Ok(TryPlan { tried: f, handler, backup }),
        Err(e) => Err(e),
    }
}

/// After the tried function has failed and the runtime has dropped what
/// the failed call left: gives the handler the value of the error, if it
/// takes more arguments than the tried function, and the arguments that
/// were kept, and says that the handler is to be called.
pub fn try_recover(plan: TryPlan, error_value: Value, env: &mut Uiua) -> (handler: Function)
    requires
        old(env)@.wf(),
        error_value@.wf(),
        all_wf(value_views(plan.backup@)),
    ensures
        handler == plan.handler,
        final(env)@.wf(),
        final(env)@ == (UiuaView {
            stack: old(env)@.stack + (if plan.handler.signature.args
                > plan.tried.signature.args {
                seq![error_value@]
            } else {
                Seq::<ValueView>::empty()
            }) + value_views(plan.backup@),
            ..old(env)@
        }),
{
    let ghost start = env@.stack;
    let ghost lead = if plan.handler.signature.args > plan.tried.signature.args {
        seq![error_value@]
    } else {
        Seq::<ValueView>::empty()
    };
    if plan.handler.signature.args > plan.tried.signature.args {
        env.push(error_value);
    }
    assert(env@.stack =~= start + lead);
    let ghost kept = value_views(plan.backup@);
    let mut i: usize = 0;
    assert(env@.stack =~= start + lead + kept.take(0));
    while i < plan.backup.len()
        invariant
            i <= plan.backup.len(),
            kept == value_views(plan.backup@),
            all_wf(kept),
            env@.wf(),
            env@.stack == start + lead + kept.take(i as int),
            env@.function_stack == old(env)@.function_stack,
            env@.under_stack == old(env)@.under_stack,
            env@.fills == old(env)@.fills,
            env@.execution_limit == old(env)@.execution_limit,
        decreases plan.backup.len() - i,
    {
        assert(kept[i as int] == plan.backup@[i as int]@);
        assert(kept[i as int].wf());
        env.push(plan.backup[i].duplicate());
        i += 1;
        assert(env@.stack =~= start + lead + kept.take(i as int));
    }
    assert(kept.take(i as int) =~= kept);
    plan.handler
}

/// One list of values for each output of a switch: a `TinyVec` that holds
/// one list in place.
#[verifier::external_body]
pub struct OutputSlots {
    inner: TinyVec<[Vec<Value>; 1]>,
}

/// The lists of values that the slots hold.
pub uninterp spec fn slot_values(s: OutputSlots) -> Seq<Seq<Value>>;

/// `TinyVec::with_capacity`, for a capacity that no allocation can refuse
/// as too large: slots that hold no list.
#[verifier::external_body]
fn slots_with_capacity(cap: usize) -> (s: OutputSlots)
    requires
        cap <= 1024,
    ensures
        slot_values(s) == Seq::<Seq<Value>>::empty(),
{
    OutputSlots { inner: TinyVec::with_capacity(cap) }
}

/// `TinyVec::push`: one more list, after the others.
#[verifier::external_body]
fn slots_push(s: &mut OutputSlots, list: Vec<Value>)
    ensures
        slot_values(*final(s)) == slot_values(*old(s)).push(list@),
{
    s.inner.push(list)
}

/// `TinyVec::as_mut_slice`, at one place: the list that is held there, for
/// changes; the slots hold the changed list at that place and are the same
/// otherwise.
#[verifier::external_body]
fn slot_mut(s: &mut OutputSlots, i: usize) -> (list: &mut Vec<Value>)
    requires
        i < slot_values(*old(s)).len(),
    ensures
        list@ == slot_values(*old(s))[i as int],
        slot_values(*final(s)) == slot_values(*old(s)).update(i as int, final(list)@),
{
    &mut s.inner.as_mut_slice()[i]
}

/// Slots for `n` outputs, each with an empty list.
pub fn multi_output(n: usize) -> (slots: OutputSlots)
    ensures
        slot_values(slots) == Seq::new(n as nat, |i: int| Seq::<Value>::empty()),
{
    let room: usize = if n <= 1024 { n } else { 1024 };
    let mut slots = slots_with_capacity(room);
    let mut i: usize = 0;
    assert(slot_values(slots) =~= Seq::new(0, |i: int| Seq::<Value>::empty()));
    while i < n
        invariant
            i <= n,
            slot_values(slots) == Seq::new(i as nat, |i: int| Seq::<Value>::empty()),
        decreases n - i,
    {
        slots_push(&mut slots, Vec::new());
        i += 1;
        assert(slot_values(slots) =~= Seq::new(i as nat, |i: int| Seq::<Value>::empty()));
    }
    slots
}

/// Whether the values of a list are well formed.
pub open spec fn values_wf(list: Seq<Value>) -> bool {
    forall|i: int| 0 <= i < list.len() ==> (#[trigger] list[i])@.wf()
}

/// The views of lists of values.
pub open spec fn lists_views(lists: Seq<Vec<Value>>) -> Seq<Seq<ValueView>> {
    lists.map_values(|l: Vec<Value>| value_views(l@))
}

/// The message for a selector that is no array of natural numbers.
pub open spec fn naturals_text() -> Seq<char> {
    "Switch index must be an array of naturals"@
}

/// The message for a selector element beyond the branches.
pub open spec fn out_of_bounds_text(i: usize, count: usize) -> Seq<char> {
    "Switch index "@ + decimal(i as nat) + " is out of bounds for switch of size "@ + decimal(
        count as nat,
    )
}

/// The message for a function stack that holds fewer functions than the
/// switch has branches.
pub open spec fn missing_branches_text() -> Seq<char> {
    "Function stack was empty when getting switch function."@
        + " This is a bug in the interpreter."@
}

/// The message for a stack that is too low for the values that a scalar
/// switch would discard.
pub open spec fn excess_text() -> Seq<char> {
    "Stack was empty when discarding excess switch arguments."@
}

/// The message for an argument whose shape does not begin with the shape
/// of the selector.
pub open spec fn incompatible_text(selector: Seq<usize>, number: nat, shape: Seq<usize>) -> Seq<
    char,
> {
    "The selector's shape "@ + shape_text(selector) + " is not compatible with the argument "@
        + decimal(number) + "'s shape "@ + shape_text(shape)
}

/// A sum that stops at the largest machine word.
pub open spec fn sat_add(a: usize, b: usize) -> usize {
    if a + b > usize::MAX {
        usize::MAX
    } else {
        (a + b) as usize
    }
}

/// A difference that stops at zero.
pub open spec fn sat_sub(a: usize, b: usize) -> usize {
    if a < b {
        0
    } else {
        (a - b) as usize
    }
}

/// Where the values that a scalar switch discards end, if they begin at
/// `start`: the values that the call site takes and the branch leaves, less
/// those that the branch takes and the call site leaves; never before
/// `start`.
pub open spec fn discard_end(start: usize, sig: Signature, branch: Signature) -> usize {
    let gross = sat_add(sat_add(start, sig.args), branch.outputs);
    let net = sat_sub(gross, sat_add(branch.args, sig.outputs));
    if net >= start {
        net
    } else {
        start
    }
}

/// The number of arguments that a branch is given rows of: its own, and one
/// more for each output that it leaves short of the call site's.
pub open spec fn take_of(branch: Signature, sig: Signature) -> usize {
    if branch.outputs < sig.outputs {
        sat_add(branch.args, (sig.outputs - branch.outputs) as usize)
    } else {
        branch.args
    }
}

/// The place of the first of the first `k` numbers that is not below
/// `count`, or `k`.
pub open spec fn first_beyond(data: Seq<usize>, count: usize, k: int) -> int
    decreases k,
{
    if k <= 0 {
        0
    } else {
        let before = first_beyond(data, count, k - 1);
        if before < k - 1 {
            before
        } else if data[k - 1] < count {
            k
        } else {
            k - 1
        }
    }
}

/// Whether a shape begins with the dimensions of `lead`.
pub open spec fn starts_with(shape: Seq<usize>, lead: Seq<usize>) -> bool {
    shape.len() >= lead.len() && forall|i: int| 0 <= i < lead.len() ==> shape[i] == lead[i]
}

/// The argument that is popped as number `j`, counted from zero.
pub open spec fn popped(stack: Seq<ValueView>, j: int) -> ValueView {
    stack[stack.len() - 1 - j]
}

/// The place of the first of the first `k` popped arguments whose shape
/// does not begin with the shape of the selector, or `k`.
pub open spec fn first_unfit(stack: Seq<ValueView>, lead: Seq<usize>, k: int) -> int
    decreases k,
{
    if k <= 0 {
        0
    } else {
        let before = first_unfit(stack, lead, k - 1);
        if before < k - 1 {
            before
        } else if starts_with(popped(stack, k - 1).shape(), lead) {
            k
        } else {
            k - 1
        }
    }
}

/// A value cut into `count` values of the shape `shape`, one after the other.
pub open spec fn chunks_of(v: ValueView, count: nat, shape: Seq<usize>) -> Seq<ValueView> {
    Seq::new(
        count,
        |c: int| v.part(c * elements(shape), (c + 1) * elements(shape), shape),
    )
}

/// How a switch begins.
pub enum SwitchOutcome {
    /// The switch is refused with a message; the stacks as they are left.
    Refused { message: Seq<char>, stack: Seq<ValueView>, function_stack: Seq<Function> },
    /// A scalar selector: the branch to call, the selector if it is kept,
    /// and the stacks as they are left.
    Call {
        function: Function,
        copied: Option<ValueView>,
        stack: Seq<ValueView>,
        function_stack: Seq<Function>,
    },
    /// An array selector: the selector, the rows of each argument in the
    /// order in which the arguments were popped, the branches with the
    /// number of arguments that each is given, the selector if it is kept,
    /// and the stacks as they are left.
    Rows {
        selector_shape: Seq<usize>,
        selector: Seq<usize>,
        args_rows: Seq<Seq<ValueView>>,
        functions: Seq<Function>,
        takes: Seq<usize>,
        copied: Option<ValueView>,
        stack: Seq<ValueView>,
        function_stack: Seq<Function>,
    },
}

/// How the switch among `count` branches begins on the runtime `env`, for
/// the signature `sig` of the call site.
///
/// The selector is taken off the stack, and stays off it where the switch
/// is refused after that. A scalar selector looks for its branches first,
/// and takes them off the function stack before it looks at the values
/// that it discards. An array selector looks at its arguments first, one
/// after the other from the top of the stack: each is taken off before it
/// is looked at, and the first that is missing or does not fit is
/// reported; only then it looks for its branches.
pub open spec fn switch_outcome(env: UiuaView, count: usize, sig: Signature, copy: bool)
    -> SwitchOutcome {
    let fs = env.function_stack;
    if env.stack.len() == 0 {
        SwitchOutcome::Refused {
            message: missing_text("switch index"@),
            stack: env.stack,
            function_stack: fs,
        }
    } else {
        let selector = env.stack.last();
        let rest = env.stack.drop_last();
        match selector.naturals() {
            None => SwitchOutcome::Refused {
                message: naturals_text(),
                stack: rest,
                function_stack: fs,
            },
            Some(data) => {
                let bad = first_beyond(data, count, data.len() as int);
                let copied = if copy {
                    Some(selector)
                } else {
                    None
                };
                if bad < data.len() {
                    SwitchOutcome::Refused {
                        message: out_of_bounds_text(data[bad], count),
                        stack: rest,
                        function_stack: fs,
                    }
                } else if selector.shape().len() == 0 {
                    scalar_outcome(rest, fs, data[0], count, sig, copied)
                } else {
                    rows_outcome(rest, fs, selector.shape(), data, count, sig, copied)
                }
            },
        }
    }
}

/// How a switch by the scalar selector `pick` begins, with the stack
/// `rest` under the selector.
pub open spec fn scalar_outcome(
    rest: Seq<ValueView>,
    fs: Seq<Function>,
    pick: usize,
    count: usize,
    sig: Signature,
    copied: Option<ValueView>,
) -> SwitchOutcome {
    if fs.len() < count {
        SwitchOutcome::Refused {
            message: missing_branches_text(),
            stack: rest,
            function_stack: fs,
        }
    } else {
        let branches = fs.skip(fs.len() - count);
        let left = fs.take(fs.len() - count);
        let f = branches[pick as int];
        let start = sat_sub(rest.len() as usize, sig.args);
        let end = discard_end(start, sig, f.signature);
        if end > rest.len() {
            SwitchOutcome::Refused { message: excess_text(), stack: rest, function_stack: left }
        } else {
            SwitchOutcome::Call {
                function: f,
                copied,
                stack: rest.take(start as int) + rest.skip(end as int),
                function_stack: left,
            }
        }
    }
}

/// How a switch by an array selector of the shape `lead` and the elements
/// `data` begins, with the stack `rest` under the selector.
pub open spec fn rows_outcome(
    rest: Seq<ValueView>,
    fs: Seq<Function>,
    lead: Seq<usize>,
    data: Seq<usize>,
    count: usize,
    sig: Signature,
    copied: Option<ValueView>,
) -> SwitchOutcome {
    let have = if rest.len() < sig.args {
        rest.len() as int
    } else {
        sig.args as int
    };
    let unfit = first_unfit(rest, lead, have);
    if unfit < have {
        SwitchOutcome::Refused {
            message: incompatible_text(lead, (unfit + 1) as nat, popped(rest, unfit).shape()),
            stack: rest.take(rest.len() - (unfit + 1)),
            function_stack: fs,
        }
    } else if rest.len() < sig.args {
        SwitchOutcome::Refused {
            message: missing_argument_text((rest.len() + 1) as nat),
            stack: Seq::empty(),
            function_stack: fs,
        }
    } else if fs.len() < count {
        SwitchOutcome::Refused {
            message: missing_branches_text(),
            stack: rest.take(rest.len() - sig.args),
            function_stack: fs,
        }
    } else {
        let branches = fs.skip(fs.len() - count);
        SwitchOutcome::Rows {
            selector_shape: lead,
            selector: data,
            args_rows: Seq::new(
                sig.args as nat,
                |j: int|
                    chunks_of(
                        popped(rest, j),
                        data.len(),
                        popped(rest, j).shape().skip(lead.len() as int),
                    ),
            ),
            functions: branches,
            takes: Seq::new(count as nat, |i: int| take_of(branches[i].signature, sig)),
            copied,
            stack: rest.take(rest.len() - sig.args),
            function_stack: fs.take(fs.len() - count),
        }
    }
}

/// A switch by an array selector, between two calls of its branches.
pub struct RowSwitch {
    pub selector_shape: Vec<usize>,
    pub selector: Vec<usize>,
    /// The number of selector elements whose branch has been called and
    /// whose outputs have been collected.
    pub position: usize,
    pub args_rows: Vec<Vec<Value>>,
    pub functions: Vec<Function>,
    pub takes: Vec<usize>,
    pub outputs: OutputSlots,
    pub sig: Signature,
    pub copied: Option<Value>,
}

/// How a switch goes on after it has begun.
pub enum SwitchPlan {
    /// Call this function, then finish with `switch_finish`.
    Call { function: Function, copied: Option<Value> },
    /// Call the branches of the row switch in turn.
    Rows(RowSwitch),
}

impl RowSwitch {
    /// The values that each output has collected.
    pub open spec fn collected(&self) -> Seq<Seq<ValueView>> {
        slot_values(self.outputs).map_values(|l: Seq<Value>| value_views(l))
    }

    /// The switch is well formed when its position lies within the
    /// selector, every selector element names a branch, every argument
    /// has a row for each selector element, and every output has collected
    /// a value for each element before the position.
    pub open spec fn wf(&self) -> bool {
        &&& self.position <= self.selector@.len()
        &&& fits(self.selector_shape@)
        &&& self.selector@.len() == elements(self.selector_shape@)
        &&& self.functions@.len() == self.takes@.len()
        &&& forall|i: int|
            0 <= i < self.selector@.len() ==> #[trigger] self.selector@[i] < self.functions@.len()
        &&& self.args_rows@.len() == self.sig.args
        &&& forall|j: int|
            0 <= j < self.args_rows@.len() ==> (#[trigger] self.args_rows@[j])@.len()
                == self.selector@.len() && values_wf(self.args_rows@[j]@)
        &&& slot_values(self.outputs).len() == self.sig.outputs
        &&& forall|o: int|
            0 <= o < slot_values(self.outputs).len() ==> values_wf(
                #[trigger] slot_values(self.outputs)[o],
            ) && slot_values(self.outputs)[o].len() == self.position
        &&& match self.copied {
            Some(v) => v@.wf(),
            None => true,
        }
    }

    /// The rows that the arguments from number `j` on give the branch at
    /// the current selector element, the deepest argument first: a row of
    /// each argument that the branch takes.
    pub open spec fn pushed_from(&self, j: int) -> Seq<ValueView>
        decreases self.args_rows@.len() - j,
    {
        if j < 0 || j >= self.args_rows@.len() {
            Seq::empty()
        } else {
            let take = self.takes@[self.selector@[self.position as int] as int];
            let more = self.pushed_from(j + 1);
            if j < take {
                more.push(self.args_rows@[j]@[self.position as int]@)
            } else {
                more
            }
        }
    }

    /// Gives the branch of the next selector element its rows, and says
    /// that it is to be called; says nothing where every element has had
    /// its call.
    pub fn next(&self, env: &mut Uiua) -> (f: Option<Function>)
        requires
            self.wf(),
            old(env)@.wf(),
        ensures
            final(env)@.wf(),
            self.position == self.selector@.len() ==> f is None && final(env)@ == old(env)@,
            self.position < self.selector@.len() ==> f == Some(
                self.functions@[self.selector@[self.position as int] as int],
            ) && final(env)@ == (UiuaView {
                stack: old(env)@.stack + self.pushed_from(0),
                ..old(env)@
            }),
    {
        if self.position >= self.selector.len() {
            return None;
        }
        let elem: usize = self.selector[self.position];
        let take: usize = self.takes[elem];
        let ghost start = env@.stack;
        let mut j: usize = self.args_rows.len();
        assert(env@.stack =~= start + self.pushed_from(j as int));
        while j > 0
            invariant
                j <= self.args_rows@.len(),
                self.wf(),
                self.position < self.selector@.len(),
                elem == self.selector@[self.position as int],
                take == self.takes@[elem as int],
                env@.wf(),
                env@.stack == start + self.pushed_from(j as int),
                env@.function_stack == old(env)@.function_stack,
                env@.under_stack == old(env)@.under_stack,
                env@.fills == old(env)@.fills,
                env@.execution_limit == old(env)@.execution_limit,
            decreases j,
        {
            j -= 1;
            if j < take {
                let rows = &self.args_rows[j];
                assert(values_wf(self.args_rows@[j as int]@));
                env.push(rows[self.position].duplicate());
            }
            assert(env@.stack =~= start + self.pushed_from(j as int));
        }
        Some(self.functions[elem])
    }

    /// After the call of a branch: takes its outputs off the stack, the
    /// first output from the top, and goes on to the next selector element.
    #[verifier::rlimit(60)]
    pub fn collect(&mut self, env: &mut Uiua) -> (result: UiuaResult<()>)
        requires
            old(self).wf(),
            old(self).position < old(self).selector@.len(),
            old(env)@.wf(),
        ensures
            final(env)@.wf(),
            final(env)@.function_stack == old(env)@.function_stack,
            final(env)@.under_stack == old(env)@.under_stack,
            final(env)@.fills == old(env)@.fills,
            final(env)@.execution_limit == old(env)@.execution_limit,
            match result {
                Ok(_) => {
                    &&& old(env)@.stack.len() >= old(self).sig.outputs
                    &&& final(env)@.stack == old(env)@.stack.take(
                        old(env)@.stack.len() - old(self).sig.outputs,
                    )
                    &&& final(self).wf()
                    &&& final(self).position == old(self).position + 1
                    &&& final(self).collected().len() == old(self).collected().len()
                    &&& forall|o: int|
                        0 <= o < old(self).sig.outputs ==> #[trigger] final(self).collected()[o]
                            == old(self).collected()[o].push(popped(old(env)@.stack, o))
                    &&& final(self).selector_shape == old(self).selector_shape
                    &&& final(self).selector == old(self).selector
                    &&& final(self).args_rows == old(self).args_rows
                    &&& final(self).functions == old(self).functions
                    &&& final(self).takes == old(self).takes
                    &&& final(self).sig == old(self).sig
                    &&& final(self).copied == old(self).copied
                },
                Err(e) => old(env)@.stack.len() < old(self).sig.outputs && e.message@
                    == missing_text("switch output"@) && !e.fill && final(env)@.stack
                    == Seq::<ValueView>::empty(),
            },
    {
        let ghost start = env@.stack;
        let ghost before = slot_values(self.outputs);
        let outputs: usize = self.sig.outputs;
        let mut o: usize = 0;
        assert(env@.stack =~= start.take(start.len() - 0));
        while o < outputs
            invariant
                o <= outputs,
                outputs == self.sig.outputs,
                o <= start.len(),
                start == old(env)@.stack,
                env@.wf(),
                env@.stack == start.take(start.len() - o),
                env@.function_stack == old(env)@.function_stack,
                env@.under_stack == old(env)@.under_stack,
                env@.fills == old(env)@.fills,
                env@.execution_limit == old(env)@.execution_limit,
                before == slot_values(old(self).outputs),
                before.len() == outputs,
                slot_values(self.outputs).len() == outputs,
                forall|p: int| 0 <= p < outputs ==> values_wf(#[trigger] slot_values(self.outputs)[p]),
                forall|p: int|
                    0 <= p < o ==> value_views(#[trigger] slot_values(self.outputs)[p])
                        == value_views(before[p]).push(popped(start, p)) && slot_values(
                        self.outputs,
                    )[p].len() == before[p].len() + 1,
                forall|p: int| o <= p < outputs ==> #[trigger] slot_values(self.outputs)[p] == before[p],
                self.selector_shape == old(self).selector_shape,
                self.selector == old(self).selector,
                self.args_rows == old(self).args_rows,
                self.functions == old(self).functions,
                self.takes == old(self).takes,
                self.sig == old(self).sig,
                self.copied == old(self).copied,
                self.position == old(self).position,
                old(self).wf(),
                old(self).position < old(self).selector@.len(),
            decreases outputs - o,
        {
            let value = match env.pop("switch output") {
                Ok(v) => v,
                Err(e) => {
                    return Err(e);
                },
            };
            let ghost lists = slot_values(self.outputs);
            assert(value@ == popped(start, o as int));
            slot_mut(&mut self.outputs, o).push(value);
            proof {
                let now = slot_values(self.outputs);
                assert(now[o as int] == lists[o as int].push(value));
                assert(value_views(now[o as int]) =~= value_views(before[o as int]).push(
                    popped(start, o as int),
                ));
                assert forall|p: int| 0 <= p < outputs implies values_wf(#[trigger] now[p]) by {
                    if p != o {
                        assert(now[p] == lists[p]);
                    } else {
                        assert(values_wf(lists[o as int]));
                    }
                }
                assert(env@.stack =~= start.take(start.len() - (o + 1)));
            }
            o += 1;
        }
        let n: usize = self.selector.len();
        assert(self.position < n);
        self.position = self.position + 1;
        proof {
            assert forall|p: int| 0 <= p < old(self).sig.outputs implies #[trigger] self.collected()[p]
                == old(self).collected()[p].push(popped(old(env)@.stack, p)) by {
                assert(self.collected()[p] == value_views(slot_values(self.outputs)[p]));
                assert(old(self).collected()[p] == value_views(before[p]));
            }
        }
        Ok(())
    }
}

/// After the call of the branch of a scalar switch: keeps the selector, if
/// it was copied, on the stack of values that undo a function.
pub fn switch_finish(copied: Option<Value>, env: &mut Uiua)
    requires
        old(env)@.wf(),
        copied matches Some(v) ==> v@.wf(),
    ensures
        final(env)@.wf(),
        final(env)@ == (UiuaView {
            under_stack: match copied {
                Some(v) => old(env)@.under_stack.push(v@),
                None => old(env)@.under_stack,
            },
            ..old(env)@
        }),
{
    match copied {
        Some(v) => {
            env.push_under(v);
        },
        None => {},
    }
}

impl RowSwitch {
    /// The value that an output gives: its collected values as the rows of
    /// one value, under the shape of the selector.
    pub open spec fn assembled(lead: Seq<usize>, rows: Seq<ValueView>) -> Result<
        ValueView,
        Seq<char>,
    > {
        match join_outcome(rows) {
            Err(msg) => Err(msg),
            Ok(v) => {
                let shape = lead + v.shape().skip(1);
                if fits(shape) {
                    Ok(v.with_shape(shape))
                } else {
                    Err(size_error_text(SizeError::Overflow))
                }
            },
        }
    }

    /// The values of the outputs from number `o` on, the last output first.
    pub open spec fn outputs_from(&self, o: int) -> Seq<ValueView>
        decreases self.collected().len() - o,
    {
        if o < 0 || o >= self.collected().len() {
            Seq::empty()
        } else {
            self.outputs_from(o + 1).push(
                RowSwitch::assembled(self.selector_shape@, self.collected()[o])->Ok_0,
            )
        }
    }

    /// Whether a switch ends in a failure at the output `o` with the error
    /// message `msg` and the stack `stack`: the collected values of that
    /// output give no value, for the reason that `msg` names; every later
    /// output gives one, and these are on the stack `before`.
    pub open spec fn fails_at(&self, o: int, msg: Seq<char>, before: Seq<ValueView>, stack: Seq<
        ValueView,
    >) -> bool {
        &&& 0 <= o < self.collected().len()
        &&& RowSwitch::assembled(self.selector_shape@, self.collected()[o]) == Err::<
            ValueView,
            Seq<char>,
        >(msg)
        &&& forall|p: int|
            o < p < self.collected().len() ==> RowSwitch::assembled(
                self.selector_shape@,
                #[trigger] self.collected()[p],
            ) is Ok
        &&& stack == before + self.outputs_from(o + 1)
    }

    /// After the last call: puts the value of each output on the stack, the
    /// last output first, and keeps the selector, if it was copied, on the
    /// stack of values that undo a function.
    ///
    /// Where the collected values of an output give no value, the outputs
    /// after it are on the stack already, and the selector is not kept.
    #[verifier::rlimit(60)]
    pub fn finish(self, env: &mut Uiua) -> (result: UiuaResult<()>)
        requires
            self.wf(),
            self.position == self.selector@.len(),
            old(env)@.wf(),
        ensures
            final(env)@.wf(),
            final(env)@.function_stack == old(env)@.function_stack,
            final(env)@.fills == old(env)@.fills,
            final(env)@.execution_limit == old(env)@.execution_limit,
            match result {
                Ok(_) => {
                    &&& forall|o: int|
                        0 <= o < self.collected().len() ==> RowSwitch::assembled(
                            self.selector_shape@,
                            #[trigger] self.collected()[o],
                        ) is Ok
                    &&& final(env)@.stack == old(env)@.stack + self.outputs_from(0)
                    &&& final(env)@.under_stack == (match self.copied {
                        Some(v) => old(env)@.under_stack.push(v@),
                        None => old(env)@.under_stack,
                    })
                },
                Err(e) => {
                    &&& !e.fill
                    &&& final(env)@.under_stack == old(env)@.under_stack
                    &&& exists|o: int| #[trigger]
                        self.fails_at(o, e.message@, old(env)@.stack, final(env)@.stack)
                },
            },
    {
        let ghost start = env@.stack;
        let ghost lists = self.collected();
        let ghost lead = self.selector_shape@;
        let mut me = self;
        let mut o: usize = me.sig.outputs;
        assert(env@.stack =~= start + self.outputs_from(o as int));
        while o > 0
            invariant
                o <= self.sig.outputs,
                self.wf(),
                self.position == self.selector@.len(),
                lists == self.collected(),
                lead == self.selector_shape@,
                me.selector_shape@ == lead,
                me.copied == self.copied,
                slot_values(me.outputs).len() == slot_values(self.outputs).len(),
                forall|p: int|
                    0 <= p < o ==> #[trigger] slot_values(me.outputs)[p] == slot_values(
                        self.outputs,
                    )[p],
                env@.wf(),
                start == old(env)@.stack,
                env@.stack == start + self.outputs_from(o as int),
                env@.function_stack == old(env)@.function_stack,
                env@.under_stack == old(env)@.under_stack,
                env@.fills == old(env)@.fills,
                env@.execution_limit == old(env)@.execution_limit,
                forall|p: int|
                    o <= p < lists.len() ==> RowSwitch::assembled(lead, #[trigger] lists[p]) is Ok,
            decreases o,
        {
            o -= 1;
            let mut list: Vec<Value> = Vec::new();
            core::mem::swap(slot_mut(&mut me.outputs, o), &mut list);
            proof {
                assert(list@ == slot_values(self.outputs)[o as int]);
                assert(lists[o as int] == value_views(list@));
                assert(values_wf(list@));
            }
            let mut value = match Value::from_row_values(&list, &*env) {
                Ok(v) => v,
                Err(e) => {
                    assert(RowSwitch::assembled(lead, lists[o as int]) == Err::<
                        ValueView,
                        Seq<char>,
                    >(e.message@));
                    assert(self.fails_at(o as int, e.message@, start, env@.stack));
                    return Err(e);
                },
            };
            let mut shape: Vec<usize> = copy_dims(&me.selector_shape);
            let inner = value.shape();
            let mut i: usize = 1;
            while i < inner.len()
                invariant
                    1 <= i || inner.len() == 0,
                    i <= inner.len() || inner.len() == 0,
                    inner@ == value@.shape(),
                    inner.len() > 0 ==> shape@ == lead + inner@.subrange(1, i as int),
                    inner.len() == 0 ==> shape@ == lead,
                decreases inner.len() - i,
            {
                shape.push(inner[i]);
                i += 1;
                assert(shape@ =~= lead + inner@.subrange(1, i as int));
            }
            assert(inner.len() > 0);
            assert(shape@ =~= lead + value@.shape().skip(1));
            if !shape_fits(shape.as_slice()) {
                let e = UiuaError { message: SizeError::Overflow.message(), fill: false };
                assert(RowSwitch::assembled(lead, lists[o as int]) == Err::<ValueView, Seq<char>>(
                    e.message@,
                ));
                assert(self.fails_at(o as int, e.message@, start, env@.stack));
                return Err(e);
            }
            proof {
                let rows = lists[o as int];
                let v = value@;
                let tail = v.shape().skip(1);
                lemma_elements_concat(lead, tail);
                lemma_elements_skip(v.shape(), 0);
                assert(v.shape().skip(0) =~= v.shape());
                assert(rows.len() == self.selector@.len());
                if rows.len() == 0 {
                    assert(v.shape() =~= seq![0usize]);
                    assert(tail =~= Seq::<usize>::empty());
                } else {
                    assert(v.shape()[0] == rows.len());
                }
                assert(elements(shape@) == v.data_len()) by (nonlinear_arith)
                    requires
                        elements(shape@) == elements(lead) * elements(tail),
                        elements(lead) == rows.len(),
                        v.data_len() == (v.shape()[0] as nat) * elements(tail),
                        v.shape()[0] == rows.len(),
                ;
            }
            value.set_shape(shape);
            env.push(value);
            assert(env@.stack =~= start + self.outputs_from(o as int));
        }
        match me.copied {
            Some(v) => {
                env.push_under(v);
            },
            None => {},
        }
        Ok(())
    }
}

/// A selector without an element beyond the branches has every element
/// below their number.
pub proof fn lemma_first_beyond_all(data: Seq<usize>, count: usize, k: int)
    requires
        0 <= k <= data.len(),
        first_beyond(data, count, k) == k,
    ensures
        forall|i: int| 0 <= i < k ==> data[i] < count,
    decreases k,
{
    if k > 0 {
        lemma_first_beyond_all(data, count, k - 1);
    }
}

/// Once an element is beyond the branches, the first such element stays
/// where it is.
pub proof fn lemma_first_beyond_stays(data: Seq<usize>, count: usize, k: int, n: int)
    requires
        0 <= k < n <= data.len(),
        first_beyond(data, count, k) == k,
        data[k] >= count,
    ensures
        first_beyond(data, count, n) == k,
    decreases n - k,
{
    if k + 1 < n {
        lemma_first_beyond_stays(data, count, k, n - 1);
    } else {
        assert(first_beyond(data, count, k + 1) == k);
    }
}

/// Once an argument does not fit the selector, the first such argument
/// stays where it is.
pub proof fn lemma_first_unfit_stays(stack: Seq<ValueView>, lead: Seq<usize>, k: int, n: int)
    requires
        0 <= k < n,
        first_unfit(stack, lead, k) == k,
        !starts_with(popped(stack, k).shape(), lead),
    ensures
        first_unfit(stack, lead, n) == k,
    decreases n - k,
{
    if k + 1 < n {
        lemma_first_unfit_stays(stack, lead, k, n - 1);
    } else {
        assert(first_unfit(stack, lead, k + 1) == k);
    }
}

fn refuse(msg: &str) -> (e: UiuaError)
    ensures
        e.message@ == msg@,
        !e.fill,
{
    UiuaError { message: String::from_str(msg), fill: false }
}

fn no_branches() -> (e: UiuaError)
    ensures
        e.message@ == missing_branches_text(),
        !e.fill,
{
    let mut msg = String::from_str("Function stack was empty when getting switch function.");
    msg.append(" This is a bug in the interpreter.");
    UiuaError { message: msg, fill: false }
}

fn begins_with(shape: &Vec<usize>, lead: &Vec<usize>) -> (yes: bool)
    ensures
        yes == starts_with(shape@, lead@),
{
    if shape.len() < lead.len() {
        return false;
    }
    let mut i: usize = 0;
    while i < lead.len()
        invariant
            i <= lead.len() <= shape.len(),
            forall|j: int| 0 <= j < i ==> shape@[j] == lead@[j],
        decreases lead.len() - i,
    {
        if shape[i] != lead[i] {
            return false;
        }
        i += 1;
    }
    true
}

/// Cuts a value whose shape begins with `lead` into one value for each
/// element that `lead` describes.
#[verifier::rlimit(60)]
fn cut_rows(arg: &Value, lead: &Vec<usize>, count: usize) -> (rows: Vec<Value>)
    requires
        arg@.wf(),
        starts_with(arg@.shape(), lead@),
        count == elements(lead@),
    ensures
        value_views(rows@) == chunks_of(arg@, count as nat, arg@.shape().skip(lead@.len() as int)),
        values_wf(rows@),
        rows@.len() == count,
{
    let shape = arg.shape();
    let ghost tail = shape@.skip(lead@.len() as int);
    proof {
        assert(shape@ =~= lead@ + tail);
        lemma_elements_concat(lead@, tail);
        lemma_fits_skip(shape@, lead@.len() as int);
    }
    let len: usize = suffix_elements(shape.as_slice(), lead.len());
    let total: usize = arg.data_len();
    let mut rows: Vec<Value> = Vec::new();
    let mut c: usize = 0;
    while c < count
        invariant
            c <= count,
            arg@.wf(),
            shape@ == arg@.shape(),
            tail == shape@.skip(lead@.len() as int),
            fits(tail),
            len == elements(tail),
            total == arg@.data_len(),
            total == count * len,
            lead@.len() <= shape@.len(),
            rows@.len() == c,
            forall|j: int|
                0 <= j < c ==> (#[trigger] rows@[j])@ == arg@.part(j * len, (j + 1) * len, tail)
                    && rows@[j]@.wf(),
        decreases count - c,
    {
        proof {
            crate::array::lemma_row_bounds(count as int, len as int, c as int);
        }
        let mut row_shape: Vec<usize> = Vec::new();
        let mut i: usize = lead.len();
        while i < shape.len()
            invariant
                lead.len() <= i <= shape.len(),
                row_shape@ == shape@.subrange(lead@.len() as int, i as int),
            decreases shape.len() - i,
        {
            row_shape.push(shape[i]);
            i += 1;
            assert(row_shape@ =~= shape@.subrange(lead@.len() as int, i as int));
        }
        assert(row_shape@ =~= tail);
        let row = arg.part(c * len, c * len + len, row_shape);
        rows.push(row);
        c += 1;
    }
    assert(value_views(rows@) =~= chunks_of(arg@, count as nat, tail));
    rows
}

/// Begins a switch among the top `count` functions of the function stack
/// by the selector on top of the stack, for the signature `sig` of the
/// call site.
///
/// A scalar selector picks the branch that is to be called, and values
/// that the branch does not take are discarded from the stack. An array
/// selector takes the arguments of the call site off the stack, each cut
/// into one value for each selector element. With `copy_condition_under`
/// the selector is kept for the stack of values that undo a function.
#[verifier::rlimit(60)]
pub fn switch(count: usize, sig: Signature, copy_condition_under: bool, env: &mut Uiua) -> (result:
    UiuaResult<SwitchPlan>)
    requires
        old(env)@.wf(),
    ensures
        final(env)@.wf(),
        final(env)@.fills == old(env)@.fills,
        final(env)@.execution_limit == old(env)@.execution_limit,
        final(env)@.under_stack == old(env)@.under_stack,
        match switch_outcome(old(env)@, count, sig, copy_condition_under) {
            SwitchOutcome::Refused { message, stack, function_stack } => {
                &&& result is Err
                &&& result->Err_0.message@ == message
                &&& !result->Err_0.fill
                &&& final(env)@.stack == stack
                &&& final(env)@.function_stack == function_stack
            },
            SwitchOutcome::Call { function, copied, stack, function_stack } => {
                &&& result matches Ok(SwitchPlan::Call { function: f, copied: c })
                &&& f == function
                &&& match c {
                    Some(v) => copied == Some(v@) && v@.wf(),
                    None => copied is None,
                }
                &&& final(env)@.stack == stack
                &&& final(env)@.function_stack == function_stack
            },
            SwitchOutcome::Rows {
                selector_shape,
                selector,
                args_rows,
                functions,
                takes,
                copied,
                stack,
                function_stack,
            } => {
                &&& result matches Ok(SwitchPlan::Rows(plan))
                &&& plan.wf()
                &&& plan.position == 0
                &&& plan.sig == sig
                &&& plan.selector_shape@ == selector_shape
                &&& plan.selector@ == selector
                &&& lists_views(plan.args_rows@) == args_rows
                &&& plan.functions@ == functions
                &&& plan.takes@ == takes
                &&& match plan.copied {
                    Some(v) => copied == Some(v@),
                    None => copied is None,
                }
                &&& final(env)@.stack == stack
                &&& final(env)@.function_stack == function_stack
            },
        },
{
    let ghost before = env@;
    let selector = match env.pop("switch index") {
        Ok(v) => v,
        Err(e) => {
            return Err(e);
        },
    };
    let ghost rest = env@.stack;
    let copied: Option<Value> = if copy_condition_under {
        Some(selector.duplicate())
    } else {
        None
    };
    let sel: Array<usize> = match selector.as_natural_array(
        &*env,
        "Switch index must be an array of naturals",
    ) {
        Ok(a) => a,
        Err(e) => {
            return Err(e);
        },
    };
    let ghost data = sel@.data;
    let mut i: usize = 0;
    while i < sel.data.len()
        invariant
            i <= sel.data.len(),
            data == sel@.data,
            first_beyond(data, count, i as int) == i,
            env@.wf(),
            env@.stack == old(env)@.stack.drop_last(),
            env@.function_stack == old(env)@.function_stack,
            env@.fills == old(env)@.fills,
            env@.execution_limit == old(env)@.execution_limit,
            env@.under_stack == old(env)@.under_stack,
            old(env)@.stack.len() > 0,
            old(env)@.stack.last().naturals() == Some(data),
        decreases sel.data.len() - i,
    {
        if sel.data[i] >= count {
            proof {
                lemma_first_beyond_stays(data, count, i as int, data.len() as int);
            }
            let mut msg = String::from_str("Switch index ");
            let which = decimal_string(sel.data[i]);
            msg.append(which.as_str());
            msg.append(" is out of bounds for switch of size ");
            let size = decimal_string(count);
            msg.append(size.as_str());
            return Err(UiuaError { message: msg, fill: false });
        }
        i += 1;
    }
    proof {
        lemma_first_beyond_all(data, count, data.len() as int);
    }
    let have: usize = env.function_stack.len();
    let ghost fs = env@.function_stack;
    if sel.shape.len() == 0 {
        proof {
            assert(data.len() == 1);
        }
        if have < count {
            return Err(no_branches());
        }
        let f: Function = env.function_stack[have - count + sel.data[0]];
        assert(f == fs.skip(fs.len() - count)[data[0] as int]);
        env.function_stack.truncate(have - count);
        assert(env@.function_stack =~= fs.take(fs.len() - count));
        let height: usize = env.stack.len();
        let start: usize = height.saturating_sub(sig.args);
        let gross: usize = start.saturating_add(sig.args).saturating_add(f.signature.outputs);
        let net: usize = gross.saturating_sub(f.signature.args.saturating_add(sig.outputs));
        let end: usize = if net >= start { net } else { start };
        if end > height {
            return Err(refuse("Stack was empty when discarding excess switch arguments."));
        }
        let mut tail = env.stack.split_off(end);
        env.stack.truncate(start);
        env.stack.append(&mut tail);
        proof {
            assert(env@.stack =~= rest.take(start as int) + rest.skip(end as int));
            assert(env@.wf()) by {
                assert forall|p: int| 0 <= p < env@.stack.len() implies (
                #[trigger] env@.stack[p]).wf() by {
                    if p < start {
                        assert(env@.stack[p] == rest[p]);
                    } else {
                        assert(env@.stack[p] == rest[p - start + end]);
                    }
                }
            }
        }
        return Ok(SwitchPlan::Call { function: f, copied });
    }
    let ghost lead = sel@.shape;
    let mut args_rows: Vec<Vec<Value>> = Vec::new();
    let mut j: usize = 0;
    assert(env@.stack =~= rest.take(rest.len() - 0));
    assert(lists_views(args_rows@) =~= Seq::<Seq<ValueView>>::empty());
    while j < sig.args
        invariant
            j <= sig.args,
            j <= rest.len(),
            env@.wf(),
            env@.stack == rest.take(rest.len() - j),
            env@.function_stack == fs,
            env@.under_stack == before.under_stack,
            env@.fills == before.fills,
            env@.execution_limit == before.execution_limit,
            before == old(env)@,
            before.stack.len() > 0,
            rest == before.stack.drop_last(),
            fs == before.function_stack,
            before.stack.last().naturals() == Some(data),
            before.stack.last().shape() == lead,
            lead.len() > 0,
            first_beyond(data, count, data.len() as int) == data.len(),
            lead == sel@.shape,
            sel@.wf(),
            data == sel@.data,
            first_unfit(rest, lead, j as int) == j,
            args_rows@.len() == j,
            forall|q: int|
                0 <= q < j ==> value_views((#[trigger] args_rows@[q])@) == chunks_of(
                    popped(rest, q),
                    data.len(),
                    popped(rest, q).shape().skip(lead.len() as int),
                ) && values_wf(args_rows@[q]@) && args_rows@[q]@.len() == data.len(),
        decreases sig.args - j,
    {
        let arg = match env.pop_arg(j + 1) {
            Ok(v) => v,
            Err(e) => {
                return Err(e);
            },
        };
        assert(arg@ == popped(rest, j as int));
        assert(env@.stack =~= rest.take(rest.len() - (j + 1)));
        if !begins_with(arg.shape(), &sel.shape) {
            proof {
                if (j as int) + 1 < (if rest.len() < sig.args {
                    rest.len() as int
                } else {
                    sig.args as int
                }) {
                    lemma_first_unfit_stays(
                        rest,
                        lead,
                        j as int,
                        if rest.len() < sig.args {
                            rest.len() as int
                        } else {
                            sig.args as int
                        },
                    );
                } else {
                    assert(first_unfit(rest, lead, j + 1) == j);
                }
            }
            let mut msg = String::from_str("The selector's shape ");
            let a = shape_string(sel.shape.as_slice());
            msg.append(a.as_str());
            msg.append(" is not compatible with the argument ");
            let number = decimal_string(j + 1);
            msg.append(number.as_str());
            msg.append("'s shape ");
            let sh = shape_string(arg.shape().as_slice());
            msg.append(sh.as_str());
            return Err(UiuaError { message: msg, fill: false });
        }
        let rows = cut_rows(&arg, &sel.shape, sel.data.len());
        args_rows.push(rows);
        j += 1;
    }
    if have < count {
        return Err(no_branches());
    }
    let mut functions: Vec<Function> = Vec::new();
    let mut takes: Vec<usize> = Vec::new();
    let mut b: usize = 0;
    while b < count
        invariant
            b <= count <= have,
            have == env.function_stack@.len(),
            fs == env.function_stack@,
            functions@ == fs.subrange(have - count, have - count + b),
            takes@.len() == b,
            forall|q: int| 0 <= q < b ==> takes@[q] == take_of(fs[have - count + q].signature, sig),
        decreases count - b,
    {
        let f: Function = env.function_stack[have - count + b];
        let take: usize = if f.signature.outputs < sig.outputs {
            f.signature.args.saturating_add(sig.outputs - f.signature.outputs)
        } else {
            f.signature.args
        };
        functions.push(f);
        takes.push(take);
        b += 1;
        assert(functions@ =~= fs.subrange(have - count, have - count + b));
    }
    assert(functions@ =~= fs.skip(fs.len() - count));
    assert(takes@ =~= Seq::new(
        count as nat,
        |q: int| take_of(fs.skip(fs.len() - count)[q].signature, sig),
    ));
    env.function_stack.truncate(have - count);
    assert(env@.function_stack =~= fs.take(fs.len() - count));
    let outputs = multi_output(sig.outputs);
    proof {
        assert(lists_views(args_rows@) =~= Seq::new(
            sig.args as nat,
            |q: int|
                chunks_of(
                    popped(rest, q),
                    data.len(),
                    popped(rest, q).shape().skip(lead.len() as int),
                ),
        ));
    }
    let plan = RowSwitch {
        selector_shape: sel.shape,
        selector: sel.data,
        position: 0,
        args_rows,
        functions,
        takes,
        outputs,
        sig,
        copied,
    };
    Ok(SwitchPlan::Rows(plan))
}

} // verus!
