//! Tuples of rows by a function of the language: the prefixes of an array,
//! or the tuples of rows that the function allows. The runtime calls the
//! function; what is decided before and after each call is decided here.

use vstd::prelude::*;
use vstd::string::StringExecFns;
use crate::array::{Array, PersistentMeta};
use crate::context::{Fills, Num};
use crate::enumerate::{all_top, valid_tuple};
use crate::function::{Function, Primitive, Signature};
use crate::num::{nat_bits, HIDDEN_BIT};
use crate::permute::{
    choose_value, explosion_text, limit_text, listed_value, natural_of, permute_value,
};
use crate::size::{size_error_text, SizeError};
use crate::runtime::{all_wf, Uiua, UiuaError, UiuaResult, UiuaView};
use crate::shape::{elements, fits, lemma_elements_skip, lemma_fits_skip, suffix_elements};
use crate::text::{decimal, decimal_string};
use crate::value::{value_views, Value, ValueView};

verus! {

/// The message for a function that does not leave exactly one value.
pub open spec fn outputs_text(sig: Signature) -> Seq<char> {
    "tuples's function must have 1 output, but its signature is "@ + sig.short_text()
}

/// The message for a function that takes neither one nor two values.
pub open spec fn arguments_text(sig: Signature) -> Seq<char> {
    "tuples's function must have 1 or 2 arguments, but its signature is "@ + sig.short_text()
}

fn refuse(msg: &str) -> (e: UiuaError)
    ensures
        e.message@ == msg@,
        !e.fill,
{
    UiuaError { message: String::from_str(msg), fill: false }
}

fn refuse_signature(lead: &str, sig: Signature) -> (e: UiuaError)
    ensures
        e.message@ == lead@ + sig.short_text(),
        !e.fill,
{
    let mut msg = String::from_str(lead);
    let text = sig.text();
    msg.append(text.as_str());
    UiuaError { message: msg, fill: false }
}

/// The dimensions of a row under a new leading dimension.
fn under(lead: usize, shape: &Vec<usize>) -> (dims: Vec<usize>)
    requires
        shape@.len() > 0,
    ensures
        dims@ == seq![lead] + shape@.skip(1),
{
    let mut dims: Vec<usize> = Vec::new();
    dims.push(lead);
    let mut i: usize = 1;
    while i < shape.len()
        invariant
            1 <= i <= shape.len(),
            dims@ == seq![lead] + shape@.subrange(1, i as int),
        decreases shape.len() - i,
    {
        dims.push(shape[i]);
        i += 1;
        assert(dims@ =~= seq![lead] + shape@.subrange(1, i as int));
    }
    assert(dims@ =~= seq![lead] + shape@.skip(1));
    dims
}

/// Dimensions under a leading dimension that is no larger than their own
/// fit as they did.
pub proof fn lemma_fits_lower_head(shape: Seq<usize>, lead: usize)
    requires
        shape.len() > 0,
        fits(shape),
        lead <= shape[0],
    ensures
        fits(seq![lead] + shape.skip(1)),
        elements(seq![lead] + shape.skip(1)) == lead * elements(shape.skip(1)),
        elements(shape) == shape[0] * elements(shape.skip(1)),
{
    let lower = seq![lead] + shape.skip(1);
    let rest = elements(shape.skip(1));
    lemma_elements_skip(shape, 0);
    lemma_elements_skip(lower, 0);
    assert(shape.skip(0) =~= shape);
    assert(lower.skip(0) =~= lower);
    assert(lower.skip(1) =~= shape.skip(1));
    assert(lead * rest <= shape[0] * rest) by (nonlinear_arith)
        requires
            lead <= shape[0],
            rest >= 0,
    ;
    assert forall|j: int| 0 <= j <= lower.len() implies #[trigger] elements(lower.skip(j))
        <= usize::MAX by {
        if j > 0 {
            assert(lower.skip(j) =~= shape.skip(j));
            assert(elements(shape.skip(j)) <= usize::MAX);
        }
    }
}

/// The first `n` rows of a value as a value.
pub open spec fn prefix_rows(v: ValueView, n: int) -> ValueView {
    v.part(0, n * crate::shape::row_len(v.shape()), seq![n as usize] + v.shape().skip(1))
}

/// What is put on the stack for the call number `call` of the function
/// that is given the prefixes of `xs`: a single proxy row where `xs` has no
/// rows, else the first `call` rows.
pub open spec fn prefix_argument(xs: ValueView, call: int) -> ValueView {
    if xs.row_count() == 0 {
        xs.proxy(seq![1usize] + xs.shape().skip(1))
    } else {
        prefix_rows(xs, call)
    }
}

/// The calls of a function on the prefixes of an array, between two calls.
pub struct PrefixRun {
    pub xs: Value,
    pub function: Function,
    /// What each call so far has left.
    pub results: Vec<Value>,
    /// The fill values that are set again when all calls are made.
    pub saved_fills: Fills,
}

impl PrefixRun {
    /// The run is well formed when its array is one with rows to count,
    /// and what the calls have left is well formed and no more than the
    /// calls.
    pub open spec fn wf(&self) -> bool {
        &&& self.xs@.wf()
        &&& self.xs@.rank() > 0
        &&& all_wf(value_views(self.results@))
        &&& self.results@.len() <= self.calls()
    }

    /// The number of calls: one for each prefix, the empty one too, and a
    /// single one for an array without rows.
    pub open spec fn calls(&self) -> nat {
        if self.xs@.row_count() == 0 {
            1
        } else {
            self.xs@.row_count() + 1
        }
    }

    /// What a call is to leave on the stack, as the message for a stack
    /// without it names it.
    pub open spec fn awaited(&self) -> Seq<char> {
        if self.xs@.row_count() == 0 {
            "rows' function result"@
        } else {
            "tuples's function result"@
        }
    }

    /// Puts the argument of the next call on the stack and says that the
    /// function is to be called; says nothing where all calls are made.
    pub fn next(&self, env: &mut Uiua) -> (f: Option<Function>)
        requires
            self.wf(),
            old(env)@.wf(),
        ensures
            final(env)@.wf(),
            self.results@.len() == self.calls() ==> f is None && final(env)@ == old(env)@,
            self.results@.len() < self.calls() ==> f == Some(self.function) && final(env)@ == (
            UiuaView {
                stack: old(env)@.stack.push(
                    prefix_argument(self.xs@, self.results@.len() as int),
                ),
                ..old(env)@
            }),
    {
        let shape = self.xs.shape();
        let rows: usize = shape[0];
        let made: usize = self.results.len();
        proof {
            lemma_fits_skip(shape@, 1);
        }
        if rows == 0 {
            if made >= 1 {
                return None;
            }
            let dims = under(1, shape);
            proof {
                let rest = shape@.skip(1);
                lemma_elements_skip(dims@, 0);
                assert(dims@.skip(0) =~= dims@);
                assert(dims@.skip(1) =~= rest);
                assert(1 * elements(rest) == elements(rest)) by (nonlinear_arith);
                assert forall|j: int| 0 <= j <= dims@.len() implies #[trigger] elements(
                    dims@.skip(j),
                ) <= usize::MAX by {
                    if j > 0 {
                        assert(dims@.skip(j) =~= rest.skip(j - 1));
                        assert(elements(rest.skip(j - 1)) <= usize::MAX);
                    }
                }
            }
            env.push(self.xs.proxy(dims));
            return Some(self.function);
        }
        if made > rows {
            return None;
        }
        let len: usize = suffix_elements(shape.as_slice(), 1);
        let total: usize = self.xs.data_len();
        proof {
            lemma_fits_lower_head(shape@, made);
            assert(made * len <= rows * len) by (nonlinear_arith)
                requires
                    made <= rows,
                    len >= 0,
            ;
        }
        let dims = under(made, shape);
        env.push(self.xs.part(0, made * len, dims));
        Some(self.function)
    }

    /// After a call: takes what the function left off the stack.
    pub fn collect(&mut self, env: &mut Uiua) -> (result: UiuaResult<()>)
        requires
            old(self).wf(),
            old(self).results@.len() < old(self).calls(),
            old(env)@.wf(),
        ensures
            final(env)@.wf(),
            match result {
                Ok(_) => {
                    &&& old(env)@.stack.len() > 0
                    &&& final(env)@ == (UiuaView {
                        stack: old(env)@.stack.drop_last(),
                        ..old(env)@
                    })
                    &&& final(self).wf()
                    &&& value_views(final(self).results@) == value_views(old(self).results@).push(
                        old(env)@.stack.last(),
                    )
                    &&& final(self).xs == old(self).xs
                    &&& final(self).function == old(self).function
                    &&& final(self).saved_fills == old(self).saved_fills
                },
                Err(e) => old(env)@.stack.len() == 0 && final(env)@ == old(env)@ && e.message@
                    == crate::runtime::missing_text(old(self).awaited()) && !e.fill && *final(self)
                    == *old(self),
            },
    {
        let what = if self.xs.row_count() == 0 {
            "rows' function result"
        } else {
            "tuples's function result"
        };
        let value = match env.pop(what) {
            Ok(v) => v,
            Err(e) => {
                return Err(e);
            },
        };
        let ghost before = value_views(self.results@);
        self.results.push(value);
        proof {
            assert(value_views(self.results@) =~= before.push(value@));
            assert(all_wf(value_views(self.results@))) by {
                assert forall|i: int| 0 <= i < value_views(self.results@).len() implies (
                #[trigger] value_views(self.results@)[i]).wf() by {
                    if i < before.len() {
                        assert(value_views(self.results@)[i] == before[i]);
                    }
                }
            }
        }
        Ok(())
    }

    /// The value that the calls give: what they left as the rows of one
    /// value, and that value without rows where the array had none.
    pub open spec fn outcome(&self) -> Result<ValueView, Seq<char>> {
        match crate::value::join_outcome(value_views(self.results@)) {
            Err(msg) => Err(msg),
            Ok(v) => if self.xs@.row_count() == 0 {
                Ok(v.part(0, 0, seq![0usize] + v.shape().skip(1)))
            } else {
                Ok(v)
            },
        }
    }

    /// After the last call: puts the value that the calls give on the
    /// stack, and sets the fill values again that were set before.
    pub fn finish(self, env: &mut Uiua) -> (result: UiuaResult<()>)
        requires
            self.wf(),
            self.results@.len() == self.calls(),
            old(env)@.wf(),
        ensures
            final(env)@.wf(),
            match self.outcome() {
                Ok(v) => result is Ok && final(env)@ == (UiuaView {
                    stack: old(env)@.stack.push(v),
                    fills: self.saved_fills,
                    ..old(env)@
                }),
                Err(msg) => result is Err && result->Err_0.message@ == msg && !result->Err_0.fill
                    && final(env)@ == (UiuaView { fills: self.saved_fills, ..old(env)@ }),
            },
    {
        env.fills = self.saved_fills;
        proof {
            assert forall|i: int| 0 <= i < self.results@.len() implies (
            #[trigger] self.results@[i])@.wf() by {
                assert(value_views(self.results@)[i] == self.results@[i]@);
            }
        }
        let joined = match Value::from_row_values(&self.results, &*env) {
            Ok(v) => v,
            Err(e) => {
                return Err(e);
            },
        };
        let value = if self.xs.row_count() == 0 {
            let shape = joined.shape();
            let dims = under(0, shape);
            proof {
                lemma_fits_lower_head(shape@, 0);
                assert(0 * elements(shape@.skip(1)) == 0) by (nonlinear_arith);
            }
            joined.part(0, 0, dims)
        } else {
            joined
        };
        env.push(value);
        Ok(())
    }

    /// After a call that failed: sets the fill values again that were set
    /// before, and gives the calls up.
    pub fn abandon(self, env: &mut Uiua)
        ensures
            final(env)@ == (UiuaView { fills: self.saved_fills, ..old(env)@ }),
    {
        env.fills = self.saved_fills;
    }
}

/// How the listing of tuples by a function goes on.
pub enum TuplesPlan {
    /// The function takes one value: call it on each prefix.
    Prefixes(PrefixRun),
    /// The result is on the stack.
    Done,
    /// Pairs: the row numbers are on the stack twice; make the table of
    /// the function over them, then finish with `TableRun::finish`.
    Table(TableRun),
    /// Tuples of three or more: ask the function about pairs of row numbers.
    Sift(SiftRun),
}

/// The listing of pairs, while the table of the function is made.
pub struct TableRun {
    pub xs: Value,
    pub function: Function,
}

/// The listing of tuples of three or more rows, between two calls.
pub struct SiftRun {
    pub xs: Value,
    pub function: Function,
    pub k: usize,
    /// The tuple that is being asked about.
    pub curr: Vec<usize>,
    /// The places in the tuple of the pair that is asked about next.
    pub first: usize,
    pub second: usize,
    /// The tuples that the function has allowed.
    pub picked: Vec<Vec<usize>>,
    /// The number of tuples that are decided.
    pub steps: usize,
    /// Whether every tuple is decided.
    pub done: bool,
}

/// The message for tuples of a scalar.
pub open spec fn scalar_text() -> Seq<char> {
    "Cannot get tuples of scalar"@
}

/// The message for a tuple size that is no natural number.
pub open spec fn size_text() -> Seq<char> {
    "Tuple size must be a natural number"@
}

/// The message for a table of more than two dimensions.
pub open spec fn table_rank_text(rank: nat) -> Seq<char> {
    "tuples's function must return a scalar, but the result is rank-"@ + decimal(rank)
}

/// The message for a table that does not hold one natural number for each
/// pair of rows.
pub open spec fn table_text() -> Seq<char> {
    "tuples's function must return an array of naturals"@
}

/// The message for an answer that is neither zero nor one.
pub open spec fn boolean_text() -> Seq<char> {
    "tuples of 3 or more must return a boolean"@
}

/// The row numbers below `n` as a value: bytes where all are bytes, else
/// numbers.
pub open spec fn range_value(n: nat) -> ValueView {
    if n <= 256 {
        ValueView::Byte(
            crate::array::ArrayView {
                shape: seq![n as usize],
                data: Seq::new(n, |i: int| i as u8),
                meta: PersistentMeta::empty(),
            },
        )
    } else {
        ValueView::Num(
            crate::array::ArrayView {
                shape: seq![n as usize],
                data: Seq::new(n, |i: int| Num { bits: nat_bits(i as nat) as u64 }),
                meta: PersistentMeta::empty(),
            },
        )
    }
}

/// Which rows a primitive chooses, where it stands for a choice: whether
/// the rows of a tuple fall, and whether a row may come twice.
pub open spec fn choice_of(p: Primitive) -> Option<(bool, bool)> {
    match p {
        Primitive::Lt => Some((false, false)),
        Primitive::Le => Some((false, true)),
        Primitive::Gt => Some((true, false)),
        Primitive::Ge => Some((true, true)),
        _ => None,
    }
}

/// How the listing of tuples by a function of two values begins.
pub enum PairsOutcome {
    /// Refused with a message.
    Refused(Seq<char>),
    /// The value that is put on the stack.
    Pushed(ValueView),
    /// Pairs: the row numbers `range` are put on the stack twice.
    Table { xs: ValueView, range: ValueView },
    /// Tuples of `k` rows out of `n`: the function is asked.
    Sift { xs: ValueView, k: usize, n: usize },
}

/// What a function that is a comparison or an inequality lists without a
/// call: the combinations, or the permutations; nothing for another
/// function.
pub open spec fn quick_listing(k: ValueView, xs: ValueView, f: Function, limit: usize) -> Option<
    Result<ValueView, Seq<char>>,
> {
    match f.id {
        crate::function::FunctionId::Primitive(p) => match choice_of(p) {
            Some((rev, same)) => Some(choose_value(k, xs, rev, same, limit as nat)),
            None => if p == Primitive::Ne {
                Some(permute_value(k, xs))
            } else {
                None
            },
        },
        _ => None,
    }
}

/// The list of the one tuple of no rows of `xs`.
pub open spec fn no_rows_of(xs: ValueView) -> ValueView {
    xs.part(0, 0, seq![1usize, 0usize] + xs.shape().skip(1))
}

/// The list of the tuples of one row of `xs`.
pub open spec fn single_rows_of(xs: ValueView) -> ValueView {
    xs.with_shape(seq![xs.shape()[0], 1usize] + xs.shape().skip(1))
}

/// How the listing of tuples by the function `f` of two values begins,
/// for the tuple size `k` on top of the stack and the array `xs` under it.
pub open spec fn pairs_outcome(k: ValueView, xs: ValueView, f: Function, limit: usize)
    -> PairsOutcome {
    match quick_listing(k, xs, f, limit) {
        Some(Ok(v)) => PairsOutcome::Pushed(v),
        Some(Err(msg)) => PairsOutcome::Refused(msg),
        None => if xs.rank() == 0 {
            PairsOutcome::Refused(scalar_text())
        } else {
            match k.natural() {
                None => PairsOutcome::Refused(size_text()),
                Some(size) => {
                    let n = xs.shape()[0];
                    if size == 0 {
                        PairsOutcome::Pushed(no_rows_of(xs))
                    } else if size == 1 {
                        PairsOutcome::Pushed(single_rows_of(xs))
                    } else if size == 2 {
                        if n >= 2 * HIDDEN_BIT {
                            PairsOutcome::Refused(explosion_text())
                        } else {
                            PairsOutcome::Table { xs, range: range_value(n as nat) }
                        }
                    } else if n > 0 && limit == 0 {
                        PairsOutcome::Refused(limit_text())
                    } else {
                        PairsOutcome::Sift { xs, k: size, n }
                    }
                },
            }
        },
    }
}

impl SiftRun {
    /// The run is well formed when its tuple has the size asked for, the
    /// pair that is asked about lies within it, and every tuple, the
    /// picked ones too, holds row numbers of the array.
    pub open spec fn wf(&self) -> bool {
        &&& self.xs@.wf()
        &&& self.xs@.rank() > 0
        &&& self.k >= 3
        &&& self.curr@.len() == self.k
        &&& self.first < self.second < self.k
        &&& !self.done ==> forall|e: int|
            0 <= e < self.curr@.len() ==> self.curr@[e] < self.xs@.shape()[0]
        &&& forall|t: int|
            0 <= t < self.picked@.len() ==> valid_tuple(
                (#[trigger] self.picked@[t])@,
                self.xs@.shape()[0] as nat,
                self.k as nat,
            )
        &&& (self.xs@.shape()[0] == 0 ==> self.done)
    }
}

/// The row numbers as a value.
fn range(n: usize) -> (v: Option<Value>)
    ensures
        n < 2 * HIDDEN_BIT ==> v is Some && v->0@ == range_value(n as nat) && v->0@.wf(),
        n >= 2 * HIDDEN_BIT ==> v is None,
{
    let mut shape: Vec<usize> = Vec::new();
    shape.push(n);
    proof {
        crate::array::lemma_elements_one(n);
        assert(shape@ =~= seq![n]);
        assert forall|k: int| 0 <= k <= shape@.len() implies #[trigger] elements(shape@.skip(k))
            <= usize::MAX by {
            if k == 0 {
                assert(shape@.skip(0) =~= shape@);
            } else {
                assert(shape@.skip(k) =~= Seq::<usize>::empty());
            }
        }
    }
    if n <= 256 {
        let mut data: Vec<u8> = Vec::new();
        let mut i: usize = 0;
        while i < n
            invariant
                i <= n <= 256,
                data@.len() == i,
                forall|j: int| 0 <= j < i ==> data@[j] == j as u8,
            decreases n - i,
        {
            data.push(i as u8);
            i += 1;
        }
        assert(data@ =~= Seq::new(n as nat, |i: int| i as u8));
        return Some(Value::Byte(Array { shape, data, meta: PersistentMeta::new() }));
    }
    if n as u64 >= 2 * HIDDEN_BIT {
        return None;
    }
    let mut data: Vec<Num> = Vec::new();
    let mut i: usize = 0;
    while i < n
        invariant
            i <= n < 2 * HIDDEN_BIT,
            data@.len() == i,
            forall|j: int| 0 <= j < i ==> data@[j] == (Num { bits: nat_bits(j as nat) as u64 }),
        decreases n - i,
    {
        match Num::from_nat(i) {
            Some(x) => {
                data.push(x);
            },
            None => {
                return None;
            },
        }
        i += 1;
    }
    assert(data@ =~= Seq::new(n as nat, |i: int| Num { bits: nat_bits(i as nat) as u64 }));
    Some(Value::Num(Array { shape, data, meta: PersistentMeta::new() }))
}

/// Whether the listing of the prefixes for the function `f` has begun as
/// it should: `before` is the runtime at the start, `after` the runtime
/// left, `result` what was given back.
///
/// The array is taken from the stack. A stack without a value and a
/// scalar are refused. While the function is called, no fill value is set,
/// unless the array has no rows.
pub open spec fn prefixes_begun(
    f: Function,
    before: UiuaView,
    after: UiuaView,
    result: UiuaResult<PrefixRun>,
) -> bool {
    match result {
        Ok(run) => {
            &&& before.stack.len() > 0
            &&& before.stack.last().rank() > 0
            &&& run.wf()
            &&& run.xs@ == before.stack.last().with_meta(PersistentMeta::empty())
            &&& run.function == f
            &&& run.results@.len() == 0
            &&& run.saved_fills == before.fills
            &&& after.stack == before.stack.drop_last()
            &&& after.fills == (if before.stack.last().row_count() == 0 {
                before.fills
            } else {
                Fills { num: None, byte: None, complex: None, character: None, boxed: None }
            })
        },
        Err(e) => {
            &&& !e.fill
            &&& after.fills == before.fills
            &&& if before.stack.len() == 0 {
                e.message@ == crate::runtime::missing_argument_text(1) && after.stack
                    == before.stack
            } else {
                before.stack.last().rank() == 0 && e.message@ == scalar_text() && after.stack
                    == before.stack.drop_last()
            }
        },
    }
}

/// Begins the listing of the prefixes of the array on top of the stack for
/// the function `f` of one value, as `prefixes_begun` describes.
pub fn tuple1(f: Function, env: &mut Uiua) -> (result: UiuaResult<PrefixRun>)
    requires
        old(env)@.wf(),
    ensures
        final(env)@.wf(),
        final(env)@.function_stack == old(env)@.function_stack,
        final(env)@.under_stack == old(env)@.under_stack,
        final(env)@.execution_limit == old(env)@.execution_limit,
        prefixes_begun(f, old(env)@, final(env)@, result),
{
    let mut xs = match env.pop_arg(1) {
        Ok(v) => v,
        Err(e) => {
            return Err(e);
        },
    };
    if xs.rank() == 0 {
        return Err(refuse("Cannot get tuples of scalar"));
    }
    let _ = xs.take_per_meta();
    let saved_fills = env.fills;
    if xs.row_count() != 0 {
        env.fills = Fills { num: None, byte: None, complex: None, character: None, boxed: None };
    }
    let results: Vec<Value> = Vec::new();
    assert(value_views(results@) =~= Seq::<ValueView>::empty());
    Ok(PrefixRun { xs, function: f, results, saved_fills })
}

/// Whether the listing of tuples for the function `f` of two values has
/// begun as it should: `before` is the runtime at the start, `after` the
/// runtime left, `result` what was given back.
///
/// The tuple size is on top of the stack, the array under it; both are
/// taken, and what `pairs_outcome` names is put in their place. After a
/// refusal both stay off the stack and nothing is put in their place.
pub open spec fn pairs_begun(
    f: Function,
    before: UiuaView,
    after: UiuaView,
    result: UiuaResult<TuplesPlan>,
) -> bool {
    let stack = before.stack;
    if stack.len() == 0 {
        result is Err && result->Err_0.message@ == crate::runtime::missing_argument_text(1)
            && !result->Err_0.fill && after.stack == stack
    } else if stack.len() == 1 {
        result is Err && result->Err_0.message@ == crate::runtime::missing_argument_text(2)
            && !result->Err_0.fill && after.stack == stack.drop_last()
    } else {
        let rest = stack.take(stack.len() - 2);
        match pairs_outcome(
            stack[stack.len() - 1],
            stack[stack.len() - 2],
            f,
            before.execution_limit,
        ) {
            PairsOutcome::Refused(msg) => result is Err && result->Err_0.message@ == msg
                && !result->Err_0.fill && after.stack == rest,
            PairsOutcome::Pushed(v) => result matches Ok(TuplesPlan::Done) && after.stack
                == rest.push(v),
            PairsOutcome::Table { xs, range } => {
                &&& result matches Ok(TuplesPlan::Table(run))
                &&& run.xs@ == xs
                &&& run.function == f
                &&& after.stack == rest.push(range).push(range)
            },
            PairsOutcome::Sift { xs, k, n } => {
                &&& result matches Ok(TuplesPlan::Sift(run))
                &&& run.wf()
                &&& run.xs@ == xs
                &&& run.function == f
                &&& run.k == k
                &&& run.curr@ == Seq::new(k as nat, |i: int| 0usize)
                &&& run.first == 0
                &&& run.second == 1
                &&& run.picked@.len() == 0
                &&& run.steps == 0
                &&& run.done == (n == 0)
                &&& after.stack == rest
            },
        }
    }
}

/// Begins the listing of tuples of rows for the function `f` of two
/// values, as `pairs_begun` describes.
///
/// A comparison lists the combinations, and an inequality the
/// permutations, without a call. Else tuples of no row and of one row are
/// listed at once; for pairs the row numbers are put on the stack twice,
/// for the table of the function; for larger tuples the function is asked
/// about pairs of row numbers.
#[verifier::rlimit(60)]
pub fn tuple2(f: Function, env: &mut Uiua) -> (result: UiuaResult<TuplesPlan>)
    requires
        old(env)@.wf(),
    ensures
        final(env)@.wf(),
        final(env)@.function_stack == old(env)@.function_stack,
        final(env)@.under_stack == old(env)@.under_stack,
        final(env)@.fills == old(env)@.fills,
        final(env)@.execution_limit == old(env)@.execution_limit,
        pairs_begun(f, old(env)@, final(env)@, result),
{
    let ghost stack = env@.stack;
    let k = match env.pop_arg(1) {
        Ok(v) => v,
        Err(e) => {
            return Err(e);
        },
    };
    let xs = match env.pop_arg(2) {
        Ok(v) => v,
        Err(e) => {
            return Err(e);
        },
    };
    let ghost rest = env@.stack;
    assert(rest =~= stack.take(stack.len() - 2));
    assert(k@ == stack[stack.len() - 1] && xs@ == stack[stack.len() - 2]);
    let limit: usize = env.execution_limit;
    match list_quickly(&k, &xs, f, limit, &*env) {
        Some(Ok(v)) => {
            env.push(v);
            return Ok(TuplesPlan::Done);
        },
        Some(Err(e)) => {
            return Err(e);
        },
        None => {},
    }
    if xs.rank() == 0 {
        return Err(refuse("Cannot get tuples of scalar"));
    }
    let size: usize = match k.as_nat(&*env, "Tuple size must be a natural number") {
        Ok(n) => n,
        Err(e) => {
            return Err(e);
        },
    };
    let n: usize = xs.row_count();
    if size == 0 {
        env.push(no_rows(&xs));
        return Ok(TuplesPlan::Done);
    }
    if size == 1 {
        env.push(single_rows(&xs));
        return Ok(TuplesPlan::Done);
    }
    if size == 2 {
        let numbers = match range(n) {
            Some(v) => v,
            None => {
                return Err(refuse("Combinatorial explosion"));
            },
        };
        env.push(numbers.duplicate());
        env.push(numbers);
        return Ok(TuplesPlan::Table(TableRun { xs, function: f }));
    }
    if n > 0 && limit == 0 {
        return Err(refuse("Maximum execution time exceeded"));
    }
    Ok(TuplesPlan::Sift(begin_sift(xs, f, size)))
}

fn list_quickly(k: &Value, xs: &Value, f: Function, limit: usize, env: &Uiua) -> (r: Option<
    UiuaResult<Value>,
>)
    requires
        k@.wf(),
        xs@.wf(),
    ensures
        match quick_listing(k@, xs@, f, limit) {
            None => r is None,
            Some(out) => r is Some && crate::permute::value_reported(env, out, r->0),
        },
{
    match f.as_primitive() {
        Some(Primitive::Lt) => Some(k.choose_rows(xs, false, false, limit, env)),
        Some(Primitive::Le) => Some(k.choose_rows(xs, false, true, limit, env)),
        Some(Primitive::Gt) => Some(k.choose_rows(xs, true, false, limit, env)),
        Some(Primitive::Ge) => Some(k.choose_rows(xs, true, true, limit, env)),
        Some(Primitive::Ne) => Some(k.permute(xs, env)),
        _ => None,
    }
}

fn no_rows(xs: &Value) -> (v: Value)
    requires
        xs@.wf(),
        xs@.rank() > 0,
    ensures
        v@ == no_rows_of(xs@),
        v@.wf(),
{
    let shape = xs.shape();
    let mut dims: Vec<usize> = Vec::new();
    dims.push(1);
    dims.push(0);
    let mut i: usize = 1;
    while i < shape.len()
        invariant
            1 <= i <= shape.len(),
            dims@ == seq![1usize, 0usize] + shape@.subrange(1, i as int),
        decreases shape.len() - i,
    {
        dims.push(shape[i]);
        i += 1;
        assert(dims@ =~= seq![1usize, 0usize] + shape@.subrange(1, i as int));
    }
    proof {
        let tail = shape@.skip(1);
        lemma_fits_skip(shape@, 1);
        assert(dims@ =~= seq![1usize, 0usize] + tail);
        assert forall|j: int| 0 <= j <= dims@.len() implies #[trigger] elements(dims@.skip(j))
            <= usize::MAX by {
            if j >= 2 {
                assert(dims@.skip(j) =~= tail.skip(j - 2));
                assert(elements(tail.skip(j - 2)) <= usize::MAX);
            } else {
                assert(dims@.skip(j)[1 - j] == 0usize);
                crate::shape::lemma_elements_zero(dims@.skip(j));
            }
        }
        assert(dims@[1] == 0usize);
        crate::shape::lemma_elements_zero(dims@);
    }
    xs.part(0, 0, dims)
}

fn single_rows(xs: &Value) -> (v: Value)
    requires
        xs@.wf(),
        xs@.rank() > 0,
    ensures
        v@ == single_rows_of(xs@),
        v@.wf(),
{
    let shape = xs.shape();
    let n: usize = shape[0];
    let mut dims: Vec<usize> = Vec::new();
    dims.push(n);
    dims.push(1);
    let mut i: usize = 1;
    while i < shape.len()
        invariant
            1 <= i <= shape.len(),
            dims@ == seq![n, 1usize] + shape@.subrange(1, i as int),
        decreases shape.len() - i,
    {
        dims.push(shape[i]);
        i += 1;
        assert(dims@ =~= seq![n, 1usize] + shape@.subrange(1, i as int));
    }
    proof {
        let tail = shape@.skip(1);
        lemma_fits_skip(shape@, 1);
        lemma_elements_skip(shape@, 0);
        assert(shape@.skip(0) =~= shape@);
        assert(dims@ =~= seq![n, 1usize] + tail);
        let inner = seq![1usize] + tail;
        assert(dims@.skip(1) =~= inner);
        assert(inner.skip(1) =~= tail);
        assert(dims@.skip(0) =~= dims@);
        assert(inner.skip(0) =~= inner);
        lemma_elements_skip(dims@, 0);
        lemma_elements_skip(inner, 0);
        assert(elements(inner) == elements(tail)) by (nonlinear_arith)
            requires
                elements(inner) == 1 * elements(tail),
        ;
        assert forall|j: int| 0 <= j <= dims@.len() implies #[trigger] elements(dims@.skip(j))
            <= usize::MAX by {
            if j >= 2 {
                assert(dims@.skip(j) =~= tail.skip(j - 2));
                assert(elements(tail.skip(j - 2)) <= usize::MAX);
            } else if j == 1 {
                assert(tail.skip(0) =~= tail);
            }
        }
    }
    let mut v = xs.duplicate();
    v.set_shape(dims);
    v
}

fn begin_sift(xs: Value, f: Function, size: usize) -> (run: SiftRun)
    requires
        xs@.wf(),
        xs@.rank() > 0,
        size >= 3,
    ensures
        run.wf(),
        run.xs@ == xs@,
        run.function == f,
        run.k == size,
        run.curr@ == Seq::new(size as nat, |i: int| 0usize),
        run.first == 0,
        run.second == 1,
        run.picked@.len() == 0,
        run.steps == 0,
        run.done == (xs@.shape()[0] == 0),
{
    let n: usize = xs.row_count();
    let mut curr: Vec<usize> = Vec::new();
    let mut z: usize = 0;
    while z < size
        invariant
            z <= size,
            curr@ == Seq::new(z as nat, |i: int| 0usize),
        decreases size - z,
    {
        curr.push(0);
        z += 1;
        assert(curr@ =~= Seq::new(z as nat, |i: int| 0usize));
    }
    SiftRun {
        xs,
        function: f,
        k: size,
        curr,
        first: 0,
        second: 1,
        picked: Vec::new(),
        steps: 0,
        done: n == 0,
    }
}

/// Whether the listing of tuples by the function on top of the function
/// stack has begun as it should: `before` is the runtime at the start,
/// `after` the runtime left, `result` what was given back.
///
/// The function is taken from the function stack; it must leave one
/// value. One that takes one value is given the prefixes of the array, as
/// `prefixes_begun` describes, one that takes two the tuples, as
/// `pairs_begun` describes; any other is refused.
pub open spec fn tuples_begun(before: UiuaView, after: UiuaView, result: UiuaResult<TuplesPlan>)
    -> bool {
    if before.function_stack.len() == 0 {
        result is Err && result->Err_0.message@ == crate::runtime::missing_function_text()
            && after == before
    } else {
        let f = before.function_stack.last();
        &&& after.function_stack == before.function_stack.drop_last()
        &&& if f.signature.outputs != 1 {
            result is Err && result->Err_0.message@ == outputs_text(f.signature) && after.stack
                == before.stack && after.fills == before.fills
        } else if f.signature.args == 1 {
            match result {
                Ok(TuplesPlan::Prefixes(run)) => prefixes_begun(
                    f,
                    before,
                    after,
                    Ok::<PrefixRun, UiuaError>(run),
                ),
                Ok(_) => false,
                Err(e) => prefixes_begun(f, before, after, Err::<PrefixRun, UiuaError>(e)),
            }
        } else if f.signature.args == 2 {
            after.fills == before.fills && pairs_begun(f, before, after, result)
        } else {
            result is Err && result->Err_0.message@ == arguments_text(f.signature) && after.stack
                == before.stack && after.fills == before.fills
        }
    }
}

/// Begins the listing of tuples of rows by the function on top of the
/// function stack, as `tuples_begun` describes.
#[verifier::rlimit(60)]
pub fn tuples(env: &mut Uiua) -> (result: UiuaResult<TuplesPlan>)
    requires
        old(env)@.wf(),
    ensures
        final(env)@.wf(),
        final(env)@.under_stack == old(env)@.under_stack,
        final(env)@.execution_limit == old(env)@.execution_limit,
        tuples_begun(old(env)@, final(env)@, result),
{
    let f = match env.pop_function() {
        Ok(f) => f,
        Err(e) => {
            return Err(e);
        },
    };
    let sig = f.signature();
    if sig.outputs != 1 {
        return Err(
            refuse_signature("tuples's function must have 1 output, but its signature is ", sig),
        );
    }
    if sig.args == 1 {
        match tuple1(f, env) {
            Ok(run) => Ok(TuplesPlan::Prefixes(run)),
            Err(e) => Err(e),
        }
    } else if sig.args == 2 {
        tuple2(f, env)
    } else {
        Err(
            refuse_signature(
                "tuples's function must have 1 or 2 arguments, but its signature is ",
                sig,
            ),
        )
    }
}

/// The digits of the number after the one with the digits `d`, to the base
/// `n`, the last digit counting fastest.
pub open spec fn bumped_back(d: Seq<usize>, n: nat) -> Seq<usize>
    decreases d.len(),
{
    if d.len() == 0 {
        d
    } else if d.last() + 1 < n {
        d.update(d.len() - 1, (d.last() + 1) as usize)
    } else {
        bumped_back(d.drop_last(), n).push(0usize)
    }
}

/// Counts the digits of `indices` up by one, to the base `n`, the last
/// digit fastest. Says whether a digit was left to grow.
pub fn advance_back(indices: &mut Vec<usize>, n: usize) -> (more: bool)
    requires
        forall|e: int| 0 <= e < old(indices)@.len() ==> old(indices)@[e] < n,
    ensures
        more == !all_top(old(indices)@, n as nat),
        more ==> final(indices)@ == bumped_back(old(indices)@, n as nat),
        more ==> forall|e: int| 0 <= e < final(indices)@.len() ==> final(indices)@[e] < n,
        final(indices)@.len() == old(indices)@.len(),
{
    let ghost first = indices@;
    let k: usize = indices.len();
    let mut i: usize = k;
    assert(first.take(k as int) =~= first);
    assert(indices@ =~= first.take(i as int) + Seq::new((k - i) as nat, |p: int| 0usize));
    assert(bumped_back(first, n as nat) =~= bumped_back(first.take(i as int), n as nat)
        + Seq::new((k - i) as nat, |p: int| 0usize));
    while i > 0
        invariant
            i <= k,
            k == first.len(),
            first == old(indices)@,
            indices@.len() == k,
            forall|e: int| 0 <= e < k ==> first[e] < n,
            forall|e: int| i <= e < k ==> first[e] + 1 >= n,
            indices@ == first.take(i as int) + Seq::new((k - i) as nat, |p: int| 0usize),
            bumped_back(first, n as nat) == bumped_back(first.take(i as int), n as nat)
                + Seq::new((k - i) as nat, |p: int| 0usize),
        decreases i,
    {
        i -= 1;
        let digit: usize = indices[i];
        let ghost head = first.take(i + 1);
        assert(head.last() == first[i as int]);
        assert(digit == first[i as int]);
        assert(head.drop_last() =~= first.take(i as int));
        if digit + 1 < n {
            indices.set(i, digit + 1);
            proof {
                assert(bumped_back(head, n as nat) == head.update(i as int, (digit + 1) as usize));
                assert(indices@ =~= head.update(i as int, (digit + 1) as usize) + Seq::new(
                    (k - i - 1) as nat,
                    |p: int| 0usize,
                ));
                assert(!(first[i as int] + 1 >= n));
            }
            return true;
        }
        indices.set(i, 0);
        proof {
            assert(bumped_back(head, n as nat) == bumped_back(first.take(i as int), n as nat).push(
                0usize,
            ));
            assert(bumped_back(first.take(i as int), n as nat).push(0usize) + Seq::new(
                (k - i - 1) as nat,
                |p: int| 0usize,
            ) =~= bumped_back(first.take(i as int), n as nat) + Seq::new(
                (k - i) as nat,
                |p: int| 0usize,
            ));
            assert(indices@ =~= first.take(i as int) + Seq::new((k - i) as nat, |p: int| 0usize));
        }
    }
    false
}

/// The scalar number that equals a row number.
pub open spec fn number_value(i: usize) -> ValueView {
    ValueView::Num(
        crate::array::ArrayView {
            shape: Seq::empty(),
            data: seq![Num { bits: nat_bits(i as nat) as u64 }],
            meta: PersistentMeta::empty(),
        },
    )
}

/// Whether the pair that is asked about is the last of its tuple.
pub open spec fn last_pair(first: usize, second: usize, k: usize) -> bool {
    first + 2 == k && second + 1 == k
}

impl SiftRun {
    /// Puts the two row numbers of the pair that is asked about next on
    /// the stack and says that the function is to be called; says nothing
    /// where every tuple is decided. A row number that has no number of its
    /// own is a combinatorial explosion.
    pub fn next(&self, env: &mut Uiua) -> (result: UiuaResult<Option<Function>>)
        requires
            self.wf(),
            old(env)@.wf(),
        ensures
            final(env)@.wf(),
            self.done ==> result == Ok::<Option<Function>, UiuaError>(None) && final(env)@
                == old(env)@,
            !self.done ==> if self.curr@[self.first as int] < 2 * HIDDEN_BIT
                && self.curr@[self.second as int] < 2 * HIDDEN_BIT {
                result == Ok::<Option<Function>, UiuaError>(Some(self.function)) && final(env)@
                    == (UiuaView {
                    stack: old(env)@.stack.push(
                        number_value(self.curr@[self.first as int]),
                    ).push(number_value(self.curr@[self.second as int])),
                    ..old(env)@
                })
            } else {
                result is Err && result->Err_0.message@ == explosion_text() && final(env)@
                    == old(env)@
            },
    {
        if self.done {
            return Ok(None);
        }
        let a = match Num::from_nat(self.curr[self.first]) {
            Some(x) => x,
            None => {
                return Err(refuse("Combinatorial explosion"));
            },
        };
        let b = match Num::from_nat(self.curr[self.second]) {
            Some(x) => x,
            None => {
                return Err(refuse("Combinatorial explosion"));
            },
        };
        env.push(Value::Num(Array::scalar(a)));
        env.push(Value::Num(Array::scalar(b)));
        Ok(Some(self.function))
    }

    /// After a call: takes the answer off the stack. A pair that is allowed
    /// leads to the next pair of the tuple, and after the last pair the
    /// tuple is picked; a pair that is not allowed decides against the
    /// tuple. After a tuple is decided the next tuple is counted up to,
    /// which takes one step of the limit on steps.
    #[verifier::rlimit(60)]
    pub fn answer(&mut self, env: &mut Uiua) -> (result: UiuaResult<()>)
        requires
            old(self).wf(),
            !old(self).done,
            old(env)@.wf(),
        ensures
            final(env)@.wf(),
            final(env)@.function_stack == old(env)@.function_stack,
            final(env)@.under_stack == old(env)@.under_stack,
            final(env)@.fills == old(env)@.fills,
            final(env)@.execution_limit == old(env)@.execution_limit,
            result is Err ==> !result->Err_0.fill,
            old(env)@.stack.len() == 0 ==> result is Err && result->Err_0.message@
                == crate::runtime::missing_text("tuples's function result"@) && final(env)@.stack
                == old(env)@.stack,
            old(env)@.stack.len() > 0 ==> final(env)@.stack == old(env)@.stack.drop_last() && ({
                let said = old(env)@.stack.last().natural();
                let n = old(self).xs@.shape()[0];
                if said != Some(0usize) && said != Some(1usize) {
                    result is Err && result->Err_0.message@ == boolean_text()
                } else if said == Some(1usize) && !last_pair(
                    old(self).first,
                    old(self).second,
                    old(self).k,
                ) {
                    &&& result is Ok
                    &&& final(self).wf()
                    &&& final(self).curr@ == old(self).curr@
                    &&& final(self).picked@ == old(self).picked@
                    &&& final(self).steps == old(self).steps
                    &&& !final(self).done
                    &&& final(self).first == (if old(self).second + 1 < old(self).k {
                        old(self).first
                    } else {
                        (old(self).first + 1) as usize
                    })
                    &&& final(self).second == (if old(self).second + 1 < old(self).k {
                        (old(self).second + 1) as usize
                    } else {
                        (old(self).first + 2) as usize
                    })
                } else if all_top(old(self).curr@, n as nat) {
                    &&& result is Ok
                    &&& final(self).wf()
                    &&& final(self).done
                    &&& final(self).picked@.map_values(|t: Vec<usize>| t@) == (if said == Some(
                        1usize,
                    ) {
                        old(self).picked@.map_values(|t: Vec<usize>| t@).push(old(self).curr@)
                    } else {
                        old(self).picked@.map_values(|t: Vec<usize>| t@)
                    })
                } else if old(self).steps >= old(env)@.execution_limit
                    || old(env)@.execution_limit - old(self).steps <= 1 {
                    result is Err && result->Err_0.message@ == limit_text()
                } else {
                    &&& result is Ok
                    &&& final(self).wf()
                    &&& !final(self).done
                    &&& final(self).curr@ == bumped_back(old(self).curr@, n as nat)
                    &&& final(self).first == 0
                    &&& final(self).second == 1
                    &&& final(self).steps == old(self).steps + 1
                    &&& final(self).picked@.map_values(|t: Vec<usize>| t@) == (if said == Some(
                        1usize,
                    ) {
                        old(self).picked@.map_values(|t: Vec<usize>| t@).push(old(self).curr@)
                    } else {
                        old(self).picked@.map_values(|t: Vec<usize>| t@)
                    })
                }
            }),
            final(self).xs == old(self).xs,
            final(self).function == old(self).function,
            final(self).k == old(self).k,
    {
        let value = match env.pop("tuples's function result") {
            Ok(v) => v,
            Err(e) => {
                return Err(e);
            },
        };
        let ok: bool = match natural_of(&value) {
            Some(0) => false,
            Some(1) => true,
            _ => {
                return Err(refuse("tuples of 3 or more must return a boolean"));
            },
        };
        let n: usize = self.xs.row_count();
        if ok && !(self.first + 2 == self.k && self.second + 1 == self.k) {
            if self.second + 1 < self.k {
                self.second = self.second + 1;
            } else {
                self.first = self.first + 1;
                self.second = self.first + 1;
            }
            return Ok(());
        }
        let ghost before = self.picked@.map_values(|t: Vec<usize>| t@);
        if ok {
            let mut tuple: Vec<usize> = Vec::new();
            let mut c: usize = 0;
            while c < self.curr.len()
                invariant
                    c <= self.curr.len(),
                    tuple@ == self.curr@.take(c as int),
                decreases self.curr.len() - c,
            {
                tuple.push(self.curr[c]);
                c += 1;
                assert(tuple@ =~= self.curr@.take(c as int));
            }
            assert(tuple@ =~= self.curr@);
            let ghost had = self.picked@;
            self.picked.push(tuple);
            proof {
                assert(self.picked@.map_values(|t: Vec<usize>| t@) =~= before.push(self.curr@));
                assert forall|t: int| 0 <= t < self.picked@.len() implies valid_tuple(
                    (#[trigger] self.picked@[t])@,
                    n as nat,
                    self.k as nat,
                ) by {
                    if t < had.len() {
                        assert(self.picked@[t] == had[t]);
                    }
                }
            }
        }
        let more = advance_back(&mut self.curr, n);
        if !more {
            self.done = true;
            return Ok(());
        }
        let limit: usize = env.execution_limit;
        if self.steps >= limit || limit - self.steps <= 1 {
            return Err(refuse("Maximum execution time exceeded"));
        }
        self.steps = self.steps + 1;
        self.first = 0;
        self.second = 1;
        Ok(())
    }

    /// After every tuple is decided: puts the list of the tuples that were
    /// picked on the stack.
    pub fn finish(self, env: &mut Uiua) -> (result: UiuaResult<()>)
        requires
            self.wf(),
            old(env)@.wf(),
        ensures
            final(env)@.wf(),
            if !fits(seq![self.picked@.len() as usize, self.k] + self.xs@.shape().skip(1)) {
                result is Err && result->Err_0.message@ == size_error_text(SizeError::Overflow)
                    && final(env)@ == old(env)@
            } else {
                result is Ok && final(env)@ == (UiuaView {
                    stack: old(env)@.stack.push(
                        listed_value(
                            self.xs@,
                            self.k as nat,
                            self.picked@.map_values(|t: Vec<usize>| t@),
                        ),
                    ),
                    ..old(env)@
                })
            },
    {
        let value = match self.xs.list_rows(&self.picked, self.k, &*env) {
            Ok(v) => v,
            Err(e) => {
                return Err(e);
            },
        };
        env.push(value);
        Ok(())
    }
}

/// The pairs of row numbers that a table of counts asks for, up to the
/// pair `(i, j)`: each pair as often as the table says at its place, the
/// pairs in the order of their first and then of their second row number.
/// The count for the pair `(i, j)` stands in row `j` of the table, at
/// place `i`.
pub open spec fn table_pairs(table: Seq<usize>, n: int, i: int, j: int) -> Seq<Seq<usize>>
    decreases i, j,
{
    if i < 0 || j < 0 || n <= 0 || (i == 0 && j == 0) {
        Seq::empty()
    } else if j == 0 {
        table_pairs(table, n, i - 1, n)
    } else {
        table_pairs(table, n, i, j - 1) + Seq::new(
            table[(j - 1) * n + i] as nat,
            |c: int| seq![i as usize, (j - 1) as usize],
        )
    }
}

impl TableRun {
    /// What the table on top of the stack makes of the array: refused for a
    /// table of more than two dimensions or one that does not hold a
    /// natural number for each pair of rows, else the list of the pairs that
    /// the table asks for.
    pub open spec fn outcome(&self, table: ValueView) -> Result<ValueView, Seq<char>> {
        let n = self.xs@.shape()[0];
        if table.rank() > 2 {
            Err(table_rank_text((table.rank() - 2) as nat))
        } else if table.naturals() is None || table.shape() != seq![n, n] {
            Err(table_text())
        } else {
            let pairs = table_pairs(table.naturals()->0, n as int, n as int, 0);
            if !fits(seq![pairs.len() as usize, 2usize] + self.xs@.shape().skip(1)) {
                Err(size_error_text(SizeError::Overflow))
            } else {
                Ok(listed_value(self.xs@, 2, pairs))
            }
        }
    }

    /// After the table of the function is made: takes the table off the
    /// stack and puts the list of the pairs that it asks for in its place.
    #[verifier::rlimit(60)]
    pub fn finish(self, env: &mut Uiua) -> (result: UiuaResult<()>)
        requires
            self.xs@.wf(),
            self.xs@.rank() > 0,
            old(env)@.wf(),
        ensures
            final(env)@.wf(),
            final(env)@.function_stack == old(env)@.function_stack,
            final(env)@.under_stack == old(env)@.under_stack,
            final(env)@.fills == old(env)@.fills,
            final(env)@.execution_limit == old(env)@.execution_limit,
            result is Err ==> !result->Err_0.fill,
            old(env)@.stack.len() == 0 ==> result is Err && result->Err_0.message@
                == crate::runtime::missing_text("table's function result"@) && final(env)@.stack
                == old(env)@.stack,
            old(env)@.stack.len() > 0 ==> match self.outcome(old(env)@.stack.last()) {
                Err(msg) => result is Err && result->Err_0.message@ == msg && final(env)@.stack
                    == old(env)@.stack.drop_last(),
                Ok(v) => result is Ok && final(env)@.stack == old(env)@.stack.drop_last().push(v),
            },
    {
        let table = match env.pop("table's function result") {
            Ok(v) => v,
            Err(e) => {
                return Err(e);
            },
        };
        let rank: usize = table.rank();
        if rank > 2 {
            let mut msg = String::from_str(
                "tuples's function must return a scalar, but the result is rank-",
            );
            let r = decimal_string(rank - 2);
            msg.append(r.as_str());
            return Err(UiuaError { message: msg, fill: false });
        }
        let counts = match table.as_natural_array(
            &*env,
            "tuples's function must return an array of naturals",
        ) {
            Ok(a) => a,
            Err(e) => {
                return Err(e);
            },
        };
        let n: usize = self.xs.row_count();
        if counts.shape.len() != 2 || counts.shape[0] != n || counts.shape[1] != n {
            assert(counts@.shape != seq![n, n]);
            return Err(refuse("tuples's function must return an array of naturals"));
        }
        assert(counts@.shape =~= seq![n, n]);
        let ghost t = counts@.data;
        proof {
            lemma_elements_skip(counts@.shape, 0);
            lemma_elements_skip(counts@.shape, 1);
            assert(counts@.shape.skip(0) =~= counts@.shape);
            assert(counts@.shape.skip(2) =~= Seq::<usize>::empty());
            assert(t.len() == n * n) by (nonlinear_arith)
                requires
                    t.len() == (n as nat) * ((n as nat) * 1),
            ;
        }
        let cells: usize = counts.data.len();
        let mut tuples: Vec<Vec<usize>> = Vec::new();
        let mut i: usize = 0;
        assert(tuples@.map_values(|p: Vec<usize>| p@) =~= table_pairs(t, n as int, 0, 0));
        while i < n
            invariant
                i <= n,
                t == counts@.data,
                t.len() == n * n,
                cells == n * n,
                tuples@.map_values(|p: Vec<usize>| p@) == table_pairs(t, n as int, i as int, 0),
                forall|q: int|
                    0 <= q < tuples@.len() ==> valid_tuple((#[trigger] tuples@[q])@, n as nat, 2),
            decreases n - i,
        {
            let mut j: usize = 0;
            while j < n
                invariant
                    j <= n,
                    i < n,
                    t == counts@.data,
                    t.len() == n * n,
                    cells == n * n,
                    tuples@.map_values(|p: Vec<usize>| p@) == table_pairs(
                        t,
                        n as int,
                        i as int,
                        j as int,
                    ),
                    forall|q: int|
                        0 <= q < tuples@.len() ==> valid_tuple(
                            (#[trigger] tuples@[q])@,
                            n as nat,
                            2,
                        ),
                decreases n - j,
            {
                proof {
                    assert(0 <= j * n && j * n + i < n * n) by (nonlinear_arith)
                        requires
                            0 <= j < n,
                            0 <= i < n,
                    ;
                }
                let count: usize = counts.data[j * n + i];
                let ghost start = tuples@.map_values(|p: Vec<usize>| p@);
                let mut c: usize = 0;
                assert(tuples@.map_values(|p: Vec<usize>| p@) =~= start + Seq::new(
                    0,
                    |c: int| seq![i, j],
                ));
                while c < count
                    invariant
                        c <= count,
                        i < n,
                        j < n,
                        tuples@.map_values(|p: Vec<usize>| p@) == start + Seq::new(
                            c as nat,
                            |c: int| seq![i, j],
                        ),
                        forall|q: int|
                            0 <= q < tuples@.len() ==> valid_tuple(
                                (#[trigger] tuples@[q])@,
                                n as nat,
                                2,
                            ),
                    decreases count - c,
                {
                    let mut pair: Vec<usize> = Vec::new();
                    pair.push(i);
                    pair.push(j);
                    assert(pair@ =~= seq![i, j]);
                    let ghost had = tuples@;
                    tuples.push(pair);
                    c += 1;
                    proof {
                        assert(tuples@.map_values(|p: Vec<usize>| p@) =~= had.map_values(
                            |p: Vec<usize>| p@,
                        ).push(seq![i, j]));
                        assert(tuples@.map_values(|p: Vec<usize>| p@) =~= start + Seq::new(
                            c as nat,
                            |c: int| seq![i, j],
                        ));
                        assert forall|q: int| 0 <= q < tuples@.len() implies valid_tuple(
                            (#[trigger] tuples@[q])@,
                            n as nat,
                            2,
                        ) by {
                            if q < had.len() {
                                assert(tuples@[q] == had[q]);
                            }
                        }
                    }
                }
                j += 1;
            }
            proof {
                assert(table_pairs(t, n as int, i as int + 1, 0) == table_pairs(
                    t,
                    n as int,
                    i as int,
                    n as int,
                ));
            }
            i += 1;
        }
        let value = match self.xs.list_rows(&tuples, 2, &*env) {
            Ok(v) => v,
            Err(e) => {
                return Err(e);
            },
        };
        env.push(value);
        Ok(())
    }
}

} // verus!
