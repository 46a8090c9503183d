//! Filling: making the shape of an array agree with a target shape, by
//! stretching fixed axes or by padding with the fill value that is set.

use vstd::prelude::*;
use vstd::string::StringExecFns;
use crate::array::{
    all_shaped, lemma_elements_ones, rows_of_view, stacked, views, Array, ArrayView,
};
use crate::context::{
    fill_answer, fill_failure, make_fill_error, plain_failure, ArrayValue, FillContext, FillError,
    Fills, Num,
};
use crate::value::{as_nums, bytes_to_nums, Value, ValueView};
use crate::shape::{
    elements, max_dims, max_shape, prefixes_match, row_count, shape_prefixes_match,
};
use crate::size::{alloc_outcome, size_error_text, SizeError};
use crate::text::{shape_string, shape_text};

verus! {

/// The number of leading dimensions of size one: the fixed axes.
pub open spec fn leading_ones(shape: Seq<usize>) -> nat
    decreases shape.len(),
{
    if shape.len() > 0 && shape[0] == 1 {
        1 + leading_ones(shape.skip(1))
    } else {
        0
    }
}

/// Whether two shapes agree dimension by dimension from their trailing
/// ends, over the shorter one.
pub open spec fn trailing_match(a: Seq<usize>, b: Seq<usize>) -> bool {
    forall|i: int|
        0 <= i < a.len() && 0 <= i + b.len() - a.len() ==> #[trigger] a[i] == b[i + b.len()
            - a.len()]
}

/// The part of `target` that lies beyond the first `fixes` dimensions.
pub open spec fn beyond(target: Seq<usize>, fixes: nat) -> Seq<usize> {
    if fixes <= target.len() {
        target.skip(fixes as int)
    } else {
        Seq::empty()
    }
}

/// Whether the fixed axes of `shape` may stretch towards `target`: what
/// lies under them agrees with what `target` has beyond as many dimensions.
pub open spec fn fixed_applies(shape: Seq<usize>, target: Seq<usize>) -> bool {
    let fixes = leading_ones(shape);
    trailing_match(beyond(target, fixes), shape.skip(fixes as int))
}

/// The dimensions that take the place of the fixed axes of `shape`: the
/// leading dimensions of `target`, or, where `target` is shorter than the
/// fixed axes and equal to what lies under them, its dimensions taken in a
/// cycle, the first of them innermost.
pub open spec fn fixed_lead(shape: Seq<usize>, target: Seq<usize>) -> Seq<usize> {
    let fixes = leading_ones(shape);
    if target.len() >= fixes {
        target.take(fixes as int)
    } else if shape.skip(fixes as int) == target && target.len() > 0 {
        Seq::new(fixes, |p: int| target[(fixes - 1 - p) % (target.len() as int)])
    } else {
        Seq::empty()
    }
}

/// How a fill ended.
pub enum FillEnd {
    /// The shape agrees with the target.
    Match,
    /// The shape does not agree; the reason is appended to the message.
    Mismatch { reason: Seq<char> },
    /// A size that the fill asked for was refused.
    TooBig(SizeError),
}

/// The array after a fill, and how the fill ended.
pub struct FillRun<T> {
    pub array: ArrayView<T>,
    pub end: FillEnd,
}

/// The end of a fill: a pending reason, or a shape that still disagrees,
/// is a mismatch.
pub open spec fn run_end<T>(arr: ArrayView<T>, target: Seq<usize>, pending: Option<Seq<char>>)
    -> FillRun<T> {
    let reason = if !prefixes_match(arr.shape, target) && pending is None {
        Some(Seq::<char>::empty())
    } else {
        pending
    };
    match reason {
        Some(r) => FillRun { array: arr, end: FillEnd::Mismatch { reason: r } },
        None => FillRun { array: arr, end: FillEnd::Match },
    }
}

/// Rank completion and dimension widening: an array of lower rank than the
/// target gets a new leading dimension, the target's own; one of the same
/// rank grows to the larger of each pair of dimensions. Both need a fill
/// value.
#[verifier::opaque]
pub open spec fn run_rank<T>(
    arr: ArrayView<T>,
    target: Seq<usize>,
    fill: Result<T, Seq<char>>,
    size: nat,
    pending: Option<Seq<char>>,
) -> FillRun<T> {
    if arr.shape.len() < target.len() {
        match fill {
            Ok(v) => {
                let goal = seq![row_count(target) as usize] + arr.shape;
                match alloc_outcome(size, goal) {
                    Err(e) => FillRun { array: arr, end: FillEnd::TooBig(e) },
                    Ok(_) => run_end(arr.padded_to(goal, v), target, None),
                }
            },
            Err(e) => run_end(arr, target, Some(e)),
        }
    } else if arr.shape.len() > target.len() {
        run_end(arr, target, pending)
    } else {
        let goal = max_dims(arr.shape, target);
        if arr.shape != goal {
            match fill {
                Ok(v) => match alloc_outcome(size, goal) {
                    Err(e) => FillRun { array: arr, end: FillEnd::TooBig(e) },
                    Ok(_) => run_end(arr.padded_to(goal, v), target, None),
                },
                Err(e) => run_end(arr, target, Some(e)),
            }
        } else {
            run_end(arr, target, pending)
        }
    }
}

/// Row completion: an array with fewer rows than the target gets rows of
/// the fill value; then the fill goes on with `run_rank`.
#[verifier::opaque]
pub open spec fn run_rows<T>(
    arr: ArrayView<T>,
    target: Seq<usize>,
    fill: Result<T, Seq<char>>,
    size: nat,
) -> FillRun<T> {
    let rows = row_count(target);
    if arr.row_count() < rows {
        match fill {
            Ok(v) => {
                let goal = arr.shape.update(0, rows as usize);
                match alloc_outcome(size, goal) {
                    Err(e) => FillRun { array: arr, end: FillEnd::TooBig(e) },
                    Ok(_) => {
                        let grown = arr.padded_to(goal, v);
                        if prefixes_match(grown.shape, target) {
                            FillRun { array: grown, end: FillEnd::Match }
                        } else {
                            run_rank(grown, target, fill, size, None)
                        }
                    },
                }
            },
            Err(e) => run_rank(arr, target, fill, size, Some(e)),
        }
    } else if arr.row_count() == rows {
        run_rank(arr, target, fill, size, Some(Seq::<char>::empty()))
    } else {
        run_rank(arr, target, fill, size, None)
    }
}

/// Whether a fill takes the way of the fixed axes: it is allowed, the
/// array has one row, no fill value is set, and the fixed axes may stretch.
pub open spec fn takes_fixed<T>(
    arr: ArrayView<T>,
    target: Seq<usize>,
    expand_fixed: bool,
    fill: Result<T, Seq<char>>,
) -> bool {
    expand_fixed && arr.row_count() == 1 && fill is Err && fixed_applies(arr.shape, target)
}

/// The whole fill of `arr` towards `target`.
///
/// A shape that agrees with the target over the shorter of the two is left
/// as it is. Else, the fixed axes stretch where `takes_fixed` holds; then
/// rows, rank and dimensions are completed with the fill value.
pub open spec fn run_fill<T>(
    arr: ArrayView<T>,
    target: Seq<usize>,
    expand_fixed: bool,
    fill: Result<T, Seq<char>>,
    size: nat,
) -> FillRun<T> {
    if prefixes_match(arr.shape, target) {
        FillRun { array: arr, end: FillEnd::Match }
    } else if takes_fixed(arr, target, expand_fixed, fill) {
        let lead = fixed_lead(arr.shape, target);
        let rest = arr.with_shape(arr.shape.skip(leading_ones(arr.shape) as int));
        match alloc_outcome(size, lead + rest.shape) {
            Err(e) => FillRun { array: arr, end: FillEnd::TooBig(e) },
            Ok(_) => {
                let stretched = rest.tiled(lead);
                if prefixes_match(stretched.shape, target) {
                    FillRun { array: stretched, end: FillEnd::Match }
                } else {
                    run_rows(stretched, target, fill, size)
                }
            },
        }
    } else {
        run_rows(arr, target, fill, size)
    }
}

/// The message of a shape mismatch: it names both shapes, and ends with
/// the reason.
pub open spec fn mismatch_text(shape: Seq<usize>, target: Seq<usize>, reason: Seq<char>) -> Seq<
    char,
> {
    "Shapes "@ + shape_text(shape) + " and "@ + shape_text(target) + " do not match"@ + reason
}

/// Whether `result` reports how the fill `run` ended: success for a match,
/// the fill-class error with the mismatch message, or the error with the
/// message of the size error.
pub open spec fn fill_reported<T, C: FillContext>(
    ctx: &C,
    run: FillRun<T>,
    target: Seq<usize>,
    result: Result<(), C::Error>,
) -> bool {
    end_reported(ctx, run.end, run.array.shape, target, result)
}

/// Whether `result` reports the end `end` of a fill that left the shape
/// `shape` before the target `target`.
pub open spec fn end_reported<C: FillContext>(
    ctx: &C,
    end: FillEnd,
    shape: Seq<usize>,
    target: Seq<usize>,
    result: Result<(), C::Error>,
) -> bool {
    match end {
        FillEnd::Match => result is Ok,
        FillEnd::Mismatch { reason } => result is Err && fill_failure(
            ctx,
            mismatch_text(shape, target, reason),
            result->Err_0,
        ),
        FillEnd::TooBig(e) => result is Err && plain_failure(
            ctx,
            size_error_text(e),
            result->Err_0,
        ),
    }
}

/// Writes the message of a shape mismatch.
pub fn mismatch_message(shape: &[usize], target: &[usize], reason: &str) -> (msg: String)
    ensures
        msg@ == mismatch_text(shape@, target@, reason@),
{
    let mut msg = String::from_str("Shapes ");
    let a = shape_string(shape);
    msg.append(a.as_str());
    msg.append(" and ");
    let b = shape_string(target);
    msg.append(b.as_str());
    msg.append(" do not match");
    msg.append(reason);
    msg
}

fn count_fixes(shape: &[usize]) -> (fixes: usize)
    ensures
        fixes == leading_ones(shape@),
        fixes <= shape.len(),
        forall|i: int| 0 <= i < fixes ==> shape@[i] == 1,
{
    let mut i: usize = 0;
    assert(shape@.skip(0) =~= shape@);
    while i < shape.len() && shape[i] == 1
        invariant
            i <= shape.len(),
            leading_ones(shape@) == i + leading_ones(shape@.skip(i as int)),
            forall|j: int| 0 <= j < i ==> shape@[j] == 1,
        decreases shape.len() - i,
    {
        assert(shape@.skip(i as int).skip(1) =~= shape@.skip(i + 1));
        i += 1;
    }
    i
}

fn trailing_agree(a: &[usize], from_a: usize, b: &[usize], from_b: usize) -> (same: bool)
    requires
        from_a <= a.len(),
        from_b <= b.len(),
    ensures
        same == trailing_match(a@.skip(from_a as int), b@.skip(from_b as int)),
{
    let la: usize = a.len() - from_a;
    let lb: usize = b.len() - from_b;
    let n: usize = if la < lb { la } else { lb };
    let ghost sa = a@.skip(from_a as int);
    let ghost sb = b@.skip(from_b as int);
    let mut i: usize = 0;
    while i < n
        invariant
            i <= n,
            n <= la,
            n <= lb,
            la == a.len() - from_a,
            lb == b.len() - from_b,
            sa == a@.skip(from_a as int),
            sb == b@.skip(from_b as int),
            forall|p: int|
                la - i <= p < la && 0 <= p + lb - la ==> #[trigger] sa[p] == sb[p + lb - la],
        decreases n - i,
    {
        if a[a.len() - 1 - i] != b[b.len() - 1 - i] {
            assert(sa[la - 1 - i] != sb[la - 1 - i + lb - la]);
            return false;
        }
        i += 1;
    }
    true
}

fn same_dims(a: &[usize], from_a: usize, b: &[usize]) -> (same: bool)
    requires
        from_a <= a.len(),
    ensures
        same == (a@.skip(from_a as int) == b@),
{
    if a.len() - from_a != b.len() {
        return false;
    }
    let mut i: usize = 0;
    while i < b.len()
        invariant
            i <= b.len(),
            from_a <= a.len(),
            a.len() - from_a == b.len(),
            forall|j: int| 0 <= j < i ==> a@[from_a + j] == b@[j],
        decreases b.len() - i,
    {
        if a[from_a + i] != b[i] {
            assert(a@.skip(from_a as int)[i as int] != b@[i as int]);
            return false;
        }
        i += 1;
    }
    assert(a@.skip(from_a as int) =~= b@);
    true
}

fn lead_dims(shape: &[usize], fixes: usize, target: &[usize]) -> (lead: Vec<usize>)
    requires
        fixes == leading_ones(shape@),
        fixes <= shape.len(),
    ensures
        lead@ == fixed_lead(shape@, target@),
{
    let mut lead: Vec<usize> = Vec::new();
    if target.len() >= fixes {
        let mut i: usize = 0;
        while i < fixes
            invariant
                i <= fixes <= target.len(),
                lead@ == target@.take(i as int),
            decreases fixes - i,
        {
            lead.push(target[i]);
            i += 1;
            assert(lead@ =~= target@.take(i as int));
        }
    } else if same_dims(shape, fixes, target) && target.len() > 0 {
        let mut p: usize = 0;
        while p < fixes
            invariant
                p <= fixes,
                target.len() > 0,
                lead@.len() == p,
                forall|q: int|
                    0 <= q < p ==> lead@[q] == target@[(fixes - 1 - q) % (target.len() as int)],
            decreases fixes - p,
        {
            lead.push(target[(fixes - 1 - p) % target.len()]);
            p += 1;
        }
        assert(lead@ =~= fixed_lead(shape@, target@));
    }
    lead
}

fn fail_size<C: FillContext>(ctx: &C, e: SizeError) -> (err: C::Error)
    ensures
        plain_failure(ctx, size_error_text(e), err),
{
    ctx.error(e.message())
}

fn finish<T: ArrayValue, C: FillContext>(
    arr: &Array<T>,
    target: &[usize],
    pending: Option<&'static str>,
    ctx: &C,
) -> (result: Result<(), C::Error>)
    ensures
        fill_reported(
            ctx,
            run_end(
                arr@,
                target@,
                match pending {
                    Some(r) => Some(r@),
                    None => None,
                },
            ),
            target@,
            result,
        ),
{
    let reason: Option<&'static str> = if !shape_prefixes_match(arr.shape.as_slice(), target)
        && pending.is_none() {
        proof {
            reveal_strlit("");
            assert(""@ =~= Seq::<char>::empty());
        }
        Some("")
    } else {
        pending
    };
    match reason {
        Some(r) => Err(make_fill_error(ctx, mismatch_message(arr.shape.as_slice(), target, r))),
        None => Ok(()),
    }
}

fn target_rows(target: &[usize]) -> (rows: usize)
    ensures
        rows == row_count(target@),
{
    if target.len() == 0 {
        1
    } else {
        target[0]
    }
}

#[verifier::rlimit(60)]
fn fill_rank<T: ArrayValue, C: FillContext>(
    arr: &mut Array<T>,
    target: &[usize],
    fill: Result<T, &'static str>,
    pending: Option<&'static str>,
    ctx: &C,
) -> (result: Result<(), C::Error>)
    requires
        old(arr)@.wf(),
    ensures
        ({
            let run = run_rank(
                old(arr)@,
                target@,
                fill_answer(fill),
                vstd::layout::size_of::<T>(),
                match pending {
                    Some(r) => Some(r@),
                    None => None,
                },
            );
            &&& final(arr)@ == run.array
            &&& final(arr)@.wf()
            &&& fill_reported(ctx, run, target@, result)
        }),
{
    proof {
        reveal(run_rank);
    }
    let rank: usize = arr.shape.len();
    if rank < target.len() {
        match fill {
            Ok(v) => {
                let mut goal: Vec<usize> = Vec::new();
                goal.push(target_rows(target));
                crate::array::push_range_slice(&mut goal, arr.shape.as_slice());
                assert(goal@ =~= seq![row_count(target@) as usize] + arr@.shape);
                match arr.fill_to_shape(goal.as_slice(), v) {
                    Err(e) => Err(fail_size(ctx, e)),
                    Ok(_) => finish(arr, target, None, ctx),
                }
            },
            Err(e) => finish(arr, target, Some(e), ctx),
        }
    } else if rank > target.len() {
        finish(arr, target, pending, ctx)
    } else {
        let goal = max_shape(arr.shape.as_slice(), target);
        if !same_dims(arr.shape.as_slice(), 0, goal.as_slice()) {
            assert(arr@.shape.skip(0) =~= arr@.shape);
            match fill {
                Ok(v) => match arr.fill_to_shape(goal.as_slice(), v) {
                    Err(e) => Err(fail_size(ctx, e)),
                    Ok(_) => finish(arr, target, None, ctx),
                },
                Err(e) => finish(arr, target, Some(e), ctx),
            }
        } else {
            assert(arr@.shape.skip(0) =~= arr@.shape);
            finish(arr, target, pending, ctx)
        }
    }
}

#[verifier::rlimit(60)]
fn fill_rows<T: ArrayValue, C: FillContext>(
    arr: &mut Array<T>,
    target: &[usize],
    fill: Result<T, &'static str>,
    ctx: &C,
) -> (result: Result<(), C::Error>)
    requires
        old(arr)@.wf(),
        old(arr)@.shape.len() > 0,
    ensures
        ({
            let run = run_rows(
                old(arr)@,
                target@,
                fill_answer(fill),
                vstd::layout::size_of::<T>(),
            );
            &&& final(arr)@ == run.array
            &&& final(arr)@.wf()
            &&& fill_reported(ctx, run, target@, result)
        }),
{
    proof {
        reveal(run_rows);
    }
    let rows: usize = target_rows(target);
    let have: usize = arr.row_count();
    if have < rows {
        match fill {
            Ok(v) => {
                let mut goal: Vec<usize> = Vec::new();
                goal.push(rows);
                crate::array::push_range_slice(&mut goal, arr.shape.as_slice());
                let _ = goal.remove(1);
                assert(goal@ =~= arr@.shape.update(0, rows));
                match arr.fill_to_shape(goal.as_slice(), v) {
                    Err(e) => Err(fail_size(ctx, e)),
                    Ok(_) => {
                        if shape_prefixes_match(arr.shape.as_slice(), target) {
                            Ok(())
                        } else {
                            fill_rank(arr, target, fill, None, ctx)
                        }
                    },
                }
            },
            Err(e) => fill_rank(arr, target, fill, Some(e), ctx),
        }
    } else if have == rows {
        proof {
            reveal_strlit("");
            assert(""@ =~= Seq::<char>::empty());
        }
        fill_rank(arr, target, fill, Some(""), ctx)
    } else {
        fill_rank(arr, target, fill, None, ctx)
    }
}

/// Makes the shape of `arr` agree with `target` over the shorter of the
/// two, or says why it cannot.
///
/// A shape that agrees already is left untouched. Else, where
/// `expand_fixed` is set, the array has one row and no fill value is set,
/// its leading dimensions of one stretch to the target's. Else rows, rank
/// and dimensions are completed with the fill value that `ctx` has for the
/// kind of element. A mismatch that remains is a fill-class error whose
/// message names both shapes; a size that is refused is an error with the
/// message of the size error, and leaves the array as the last step made it.
#[verifier::rlimit(60)]
pub fn fill_array_shape<T: ArrayValue, C: FillContext>(
    arr: &mut Array<T>,
    target: &[usize],
    expand_fixed: bool,
    ctx: &C,
) -> (result: Result<(), C::Error>)
    requires
        old(arr)@.wf(),
    ensures
        ({
            let run = run_fill(
                old(arr)@,
                target@,
                expand_fixed,
                T::fill_from(ctx.fills()),
                vstd::layout::size_of::<T>(),
            );
            &&& final(arr)@ == run.array
            &&& final(arr)@.wf()
            &&& fill_reported(ctx, run, target@, result)
        }),
        prefixes_match(old(arr)@.shape, target@) ==> result is Ok && final(arr)@ == old(arr)@,
{
    if shape_prefixes_match(arr.shape.as_slice(), target) {
        return Ok(());
    }
    let fill: Result<T, &'static str> = ctx.scalar_fill::<T>();
    if expand_fixed && arr.row_count() == 1 && fill.is_err() {
        let fixes: usize = count_fixes(arr.shape.as_slice());
        let from: usize = if fixes <= target.len() { fixes } else { target.len() };
        assert(target@.skip(from as int) =~= beyond(target@, fixes as nat));
        if trailing_agree(target, from, arr.shape.as_slice(), fixes) {
            let lead = lead_dims(arr.shape.as_slice(), fixes, target);
            let mut rest: Vec<usize> = Vec::new();
            let mut i: usize = fixes;
            while i < arr.shape.len()
                invariant
                    fixes <= i <= arr.shape.len(),
                    rest@ == arr.shape@.subrange(fixes as int, i as int),
                decreases arr.shape.len() - i,
            {
                rest.push(arr.shape[i]);
                i += 1;
                assert(rest@ =~= arr.shape@.subrange(fixes as int, i as int));
            }
            assert(rest@ =~= arr.shape@.skip(fixes as int));
            let ghost before = arr@;
            proof {
                let ones = arr.shape@.take(fixes as int);
                assert(arr.shape@ =~= ones + rest@);
                crate::shape::lemma_fits_skip(arr.shape@, fixes as int);
                lemma_elements_ones(ones, rest@);
            }
            let mut stretched = Array { shape: rest, data: Vec::new(), meta: arr.meta };
            core::mem::swap(&mut stretched.data, &mut arr.data);
            assert(stretched@ == before.with_shape(before.shape.skip(fixes as int)));
            match stretched.tile(lead.as_slice()) {
                Err(e) => {
                    core::mem::swap(&mut stretched.data, &mut arr.data);
                    return Err(fail_size(ctx, e));
                },
                Ok(_) => {
                    *arr = stretched;
                },
            }
            if shape_prefixes_match(arr.shape.as_slice(), target) {
                return Ok(());
            }
        }
    }
    fill_rows(arr, target, fill, ctx)
}

/// The value after a fill, how the fill ended, and the shape that the
/// filled array had at its end.
pub struct ValueRun {
    pub value: ValueView,
    pub end: FillEnd,
    pub shape: Seq<usize>,
}

/// The fill of an array that stands in a value of the kind `wrap`.
pub open spec fn run_kind<T>(
    run: FillRun<T>,
    wrap: spec_fn(ArrayView<T>) -> ValueView,
) -> ValueRun {
    ValueRun { value: wrap(run.array), end: run.end, shape: run.array.shape }
}

/// The fill of a value towards `target`.
///
/// A value of numbers, complex numbers, characters or boxes is filled as
/// its array is. An array of bytes is filled as bytes; where that ends in a
/// mismatch, its numbers are filled in its place, and the value becomes one
/// of numbers if that succeeds. A failed fill leaves an array of bytes as
/// it was.
pub open spec fn run_fill_value(
    v: ValueView,
    target: Seq<usize>,
    expand_fixed: bool,
    fills: Fills,
) -> ValueRun {
    match v {
        ValueView::Num(a) => run_kind(
            run_fill(
                a,
                target,
                expand_fixed,
                <Num as ArrayValue>::fill_from(fills),
                vstd::layout::size_of::<Num>(),
            ),
            |x: ArrayView<Num>| ValueView::Num(x),
        ),
        ValueView::Complex(a) => run_kind(
            run_fill(
                a,
                target,
                expand_fixed,
                <crate::context::Complex as ArrayValue>::fill_from(fills),
                vstd::layout::size_of::<crate::context::Complex>(),
            ),
            |x: ArrayView<crate::context::Complex>| ValueView::Complex(x),
        ),
        ValueView::Char(a) => run_kind(
            run_fill(
                a,
                target,
                expand_fixed,
                <char as ArrayValue>::fill_from(fills),
                vstd::layout::size_of::<char>(),
            ),
            |x: ArrayView<char>| ValueView::Char(x),
        ),
        ValueView::Box(a) => run_kind(
            run_fill(
                a,
                target,
                expand_fixed,
                <crate::context::Boxed as ArrayValue>::fill_from(fills),
                vstd::layout::size_of::<crate::context::Boxed>(),
            ),
            |x: ArrayView<crate::context::Boxed>| ValueView::Box(x),
        ),
        ValueView::Byte(a) => {
            let bytes = run_fill(
                a,
                target,
                expand_fixed,
                <u8 as ArrayValue>::fill_from(fills),
                vstd::layout::size_of::<u8>(),
            );
            match bytes.end {
                FillEnd::Match => ValueRun {
                    value: ValueView::Byte(bytes.array),
                    end: FillEnd::Match,
                    shape: bytes.array.shape,
                },
                FillEnd::TooBig(e) => ValueRun { value: v, end: bytes.end, shape: bytes.array.shape },
                FillEnd::Mismatch { reason } => {
                    let nums = run_fill(
                        as_nums(a),
                        target,
                        expand_fixed,
                        <Num as ArrayValue>::fill_from(fills),
                        vstd::layout::size_of::<Num>(),
                    );
                    match nums.end {
                        FillEnd::Match => ValueRun {
                            value: ValueView::Num(nums.array),
                            end: FillEnd::Match,
                            shape: nums.array.shape,
                        },
                        _ => ValueRun { value: v, end: nums.end, shape: nums.array.shape },
                    }
                },
            }
        },
    }
}

fn fill_bytes<C: FillContext>(
    arr: &Array<u8>,
    target: &[usize],
    expand_fixed: bool,
    ctx: &C,
) -> (result: Result<Value, C::Error>)
    requires
        arr@.wf(),
    ensures
        ({
            let run = run_fill_value(ValueView::Byte(arr@), target@, expand_fixed, ctx.fills());
            &&& match result {
                Ok(v) => v@ == run.value && v@.wf() && run.end is Match,
                Err(e) => run.value == ValueView::Byte(arr@) && end_reported(
                    ctx,
                    run.end,
                    run.shape,
                    target@,
                    Err::<(), C::Error>(e),
                ),
            }
        }),
{
    let mut bytes = arr.duplicate();
    match fill_array_shape(&mut bytes, target, expand_fixed, ctx) {
        Ok(_) => Ok(Value::Byte(bytes)),
        Err(e) => {
            if e.is_fill() {
                let mut nums = bytes_to_nums(arr);
                match fill_array_shape(&mut nums, target, expand_fixed, ctx) {
                    Ok(_) => Ok(Value::Num(nums)),
                    Err(e2) => Err(e2),
                }
            } else {
                Err(e)
            }
        },
    }
}

/// Makes the shape of a value agree with `target`, as `fill_array_shape`
/// does for its array; an array of bytes that cannot be filled as bytes is
/// tried again as numbers.
pub fn fill_value_shape<C: FillContext>(
    val: &mut Value,
    target: &[usize],
    expand_fixed: bool,
    ctx: &C,
) -> (result: Result<(), C::Error>)
    requires
        old(val)@.wf(),
    ensures
        ({
            let run = run_fill_value(old(val)@, target@, expand_fixed, ctx.fills());
            &&& final(val)@ == run.value
            &&& final(val)@.wf()
            &&& end_reported(ctx, run.end, run.shape, target@, result)
        }),
        prefixes_match(old(val)@.shape(), target@) ==> result is Ok && final(val)@ == old(val)@,
{
    match val {
        Value::Num(arr) => fill_array_shape(arr, target, expand_fixed, ctx),
        Value::Complex(arr) => fill_array_shape(arr, target, expand_fixed, ctx),
        Value::Char(arr) => fill_array_shape(arr, target, expand_fixed, ctx),
        Value::Box(arr) => fill_array_shape(arr, target, expand_fixed, ctx),
        Value::Byte(arr) => {
            match fill_bytes(arr, target, expand_fixed, ctx) {
                Ok(v) => {
                    *val = v;
                    Ok(())
                },
                Err(e) => Err(e),
            }
        },
    }
}

/// Whether a shape begins with a dimension of one.
pub open spec fn starts_fixed(shape: Seq<usize>) -> bool {
    shape.len() > 0 && shape[0] == 1
}

/// Whether two values pass for compatible after both were filled: the
/// shapes that they have then agree over the shorter one, or, where fixed
/// axes do not stretch, one of the shapes that they had before begins with
/// a dimension of one.
pub open spec fn shapes_pass(
    a_before: Seq<usize>,
    b_before: Seq<usize>,
    a: Seq<usize>,
    b: Seq<usize>,
    expand_fixed: bool,
) -> bool {
    prefixes_match(a, b) || (!expand_fixed && (starts_fixed(a_before) || starts_fixed(b_before)))
}

/// Fills each of two values towards the shape of the other, the second
/// towards the shape that the first has after its fill.
///
/// Succeeds where the shapes then agree over the shorter one, and, where
/// fixed axes do not stretch, also where one of the two shapes began with
/// a dimension of one before the fills. Else the error is that of the first
/// fill that failed, or, where none did, the fill-class error that names
/// both shapes.
#[verifier::rlimit(60)]
pub fn fill_value_shapes<C: FillContext>(
    a: &mut Value,
    b: &mut Value,
    expand_fixed: bool,
    ctx: &C,
) -> (result: Result<(), C::Error>)
    requires
        old(a)@.wf(),
        old(b)@.wf(),
    ensures
        ({
            let first = run_fill_value(old(a)@, old(b)@.shape(), expand_fixed, ctx.fills());
            let second = run_fill_value(old(b)@, first.value.shape(), expand_fixed, ctx.fills());
            &&& final(a)@ == first.value
            &&& final(b)@ == second.value
            &&& final(a)@.wf()
            &&& final(b)@.wf()
            &&& if shapes_pass(
                old(a)@.shape(),
                old(b)@.shape(),
                first.value.shape(),
                second.value.shape(),
                expand_fixed,
            ) {
                result is Ok
            } else if !(first.end is Match) {
                end_reported(ctx, first.end, first.shape, old(b)@.shape(), result)
            } else if !(second.end is Match) {
                end_reported(ctx, second.end, second.shape, first.value.shape(), result)
            } else {
                result is Err && fill_failure(
                    ctx,
                    mismatch_text(first.value.shape(), second.value.shape(), Seq::empty()),
                    result->Err_0,
                )
            }
        }),
        prefixes_match(old(a)@.shape(), old(b)@.shape()) ==> result is Ok && final(a)@ == old(a)@
            && final(b)@ == old(b)@,
{
    let a_fixed: bool = a.shape().len() > 0 && a.shape()[0] == 1;
    let b_fixed: bool = b.shape().len() > 0 && b.shape()[0] == 1;
    let a_res = fill_value_shape(a, b.shape().as_slice(), expand_fixed, ctx);
    let b_res = fill_value_shape(b, a.shape().as_slice(), expand_fixed, ctx);
    let sa = a.shape();
    let sb = b.shape();
    if shape_prefixes_match(sa.as_slice(), sb.as_slice()) || (!expand_fixed && (a_fixed
        || b_fixed)) {
        Ok(())
    } else {
        match a_res {
            Err(e) => Err(e),
            Ok(_) => match b_res {
                Err(e) => Err(e),
                Ok(_) => {
                    proof {
                        reveal_strlit("");
                        assert(""@ =~= Seq::<char>::empty());
                    }
                    Err(make_fill_error(ctx, mismatch_message(sa.as_slice(), sb.as_slice(), "")))
                },
            },
        }
    }
}

/// The depth to which two arrays are taken apart: the depth asked for, at
/// most the rank.
pub open spec fn clamp(depth: nat, rank: nat) -> nat {
    if depth <= rank {
        depth
    } else {
        rank
    }
}

/// One less, but not below zero.
pub open spec fn lowered(depth: nat) -> nat {
    if depth == 0 {
        0
    } else {
        (depth - 1) as nat
    }
}

/// Two arrays after they were filled towards each other, how that ended,
/// and the two shapes that the message of a mismatch names.
pub struct PairRun<A, B> {
    pub a: ArrayView<A>,
    pub b: ArrayView<B>,
    pub end: FillEnd,
    pub shape: Seq<usize>,
    pub target: Seq<usize>,
}

/// The rows of two arrays after the first `k` pairs of them were filled
/// towards each other, or the first pair that failed.
pub struct PairRows<A, B> {
    pub a_rows: Seq<ArrayView<A>>,
    pub b_rows: Seq<ArrayView<B>>,
    pub failed: Option<PairRun<A, B>>,
}

/// The fill of two arrays towards each other as wholes: `a` towards the
/// shape of `b`, then `b` towards the shape that `a` has by then, both with
/// fixed axes free to stretch. It succeeds where the shapes then agree;
/// else it ends as the first of the two fills that failed.
#[verifier::opaque]
pub open spec fn pair_base<A, B>(
    a: ArrayView<A>,
    b: ArrayView<B>,
    fa: Result<A, Seq<char>>,
    fb: Result<B, Seq<char>>,
    sa: nat,
    sb: nat,
) -> PairRun<A, B> {
    let first = run_fill(a, b.shape, true, fa, sa);
    let second = run_fill(b, first.array.shape, true, fb, sb);
    if prefixes_match(first.array.shape, second.array.shape) {
        PairRun {
            a: first.array,
            b: second.array,
            end: FillEnd::Match,
            shape: first.array.shape,
            target: second.array.shape,
        }
    } else if !(first.end is Match) {
        PairRun {
            a: first.array,
            b: second.array,
            end: first.end,
            shape: first.array.shape,
            target: b.shape,
        }
    } else if !(second.end is Match) {
        PairRun {
            a: first.array,
            b: second.array,
            end: second.end,
            shape: second.array.shape,
            target: first.array.shape,
        }
    } else {
        PairRun {
            a: first.array,
            b: second.array,
            end: FillEnd::Mismatch { reason: Seq::empty() },
            shape: first.array.shape,
            target: second.array.shape,
        }
    }
}

/// The shapes in which `pair_base` leaves two arrays, and whether it
/// succeeds, depend on their shapes alone.
pub proof fn lemma_pair_base_by_shape<A, B>(
    a1: ArrayView<A>,
    b1: ArrayView<B>,
    a2: ArrayView<A>,
    b2: ArrayView<B>,
    fa: Result<A, Seq<char>>,
    fb: Result<B, Seq<char>>,
    sa: nat,
    sb: nat,
)
    requires
        a1.shape == a2.shape,
        b1.shape == b2.shape,
    ensures
        pair_base(a1, b1, fa, fb, sa, sb).a.shape == pair_base(a2, b2, fa, fb, sa, sb).a.shape,
        pair_base(a1, b1, fa, fb, sa, sb).b.shape == pair_base(a2, b2, fa, fb, sa, sb).b.shape,
        pair_base(a1, b1, fa, fb, sa, sb).end is Match == pair_base(
            a2,
            b2,
            fa,
            fb,
            sa,
            sb,
        ).end is Match,
{
    reveal(pair_base);
    let f1 = run_fill(a1, b1.shape, true, fa, sa);
    let f2 = run_fill(a2, b2.shape, true, fa, sa);
    assert(f1.array.shape == f2.array.shape && f1.end == f2.end) by {
        lemma_run_fill_by_shape(a1, a2, b1.shape, true, fa, sa);
    }
    let s1 = run_fill(b1, f1.array.shape, true, fb, sb);
    let s2 = run_fill(b2, f2.array.shape, true, fb, sb);
    assert(s1.array.shape == s2.array.shape && s1.end == s2.end) by {
        lemma_run_fill_by_shape(b1, b2, f1.array.shape, true, fb, sb);
    }
}

/// The fill of two arrays towards each other, `a` taken apart to the depth
/// `a_depth` and `b` to the depth `b_depth`.
///
/// At depth zero on both sides, `a` is filled towards the shape of `b` and
/// `b` towards the shape that `a` then has, both with fixed axes free to
/// stretch; the fill succeeds where the shapes then agree. At a greater
/// depth the arrays must have as many rows as each other; where their
/// shapes beyond the depths disagree, each pair of rows is filled one level
/// lower, and the arrays are put together again from their rows. The first
/// pair of rows that fails makes the whole fill fail, and leaves both arrays
/// as they were.
pub open spec fn run_pair<A, B>(
    a: ArrayView<A>,
    b: ArrayView<B>,
    a_depth: nat,
    b_depth: nat,
    fa: Result<A, Seq<char>>,
    fb: Result<B, Seq<char>>,
    sa: nat,
    sb: nat,
) -> PairRun<A, B>
    decreases clamp(a_depth, a.shape.len()) + clamp(b_depth, b.shape.len()), 1int, 0int,
{
    let da = clamp(a_depth, a.shape.len());
    let db = clamp(b_depth, b.shape.len());
    if da == 0 && db == 0 {
        pair_base(a, b, fa, fb, sa, sb)
    } else if a.row_count() != b.row_count() {
        PairRun {
            a,
            b,
            end: FillEnd::Mismatch { reason: Seq::empty() },
            shape: a.shape,
            target: b.shape,
        }
    } else if prefixes_match(a.shape.skip(da as int), b.shape.skip(db as int)) {
        PairRun { a, b, end: FillEnd::Match, shape: a.shape, target: b.shape }
    } else {
        let rows = pair_rows(a, b, a_depth, b_depth, fa, fb, sa, sb, a.row_count() as int);
        match rows.failed {
            Some(run) => PairRun { a, b, end: run.end, shape: run.shape, target: run.target },
            None => PairRun {
                a: stacked(rows.a_rows, a.meta),
                b: stacked(rows.b_rows, b.meta),
                end: FillEnd::Match,
                shape: a.shape,
                target: b.shape,
            },
        }
    }
}

/// The first `k` pairs of rows of `run_pair`.
pub open spec fn pair_rows<A, B>(
    a: ArrayView<A>,
    b: ArrayView<B>,
    a_depth: nat,
    b_depth: nat,
    fa: Result<A, Seq<char>>,
    fb: Result<B, Seq<char>>,
    sa: nat,
    sb: nat,
    k: int,
) -> PairRows<A, B>
    decreases clamp(a_depth, a.shape.len()) + clamp(b_depth, b.shape.len()), 0int, k,
{
    let da = clamp(a_depth, a.shape.len());
    let db = clamp(b_depth, b.shape.len());
    if k <= 0 || a.shape.len() == 0 || b.shape.len() == 0 || da + db == 0 {
        PairRows { a_rows: Seq::empty(), b_rows: Seq::empty(), failed: None }
    } else {
        let before = pair_rows(a, b, a_depth, b_depth, fa, fb, sa, sb, k - 1);
        if before.failed is Some {
            before
        } else {
            let run = run_pair(a.row(k - 1), b.row(k - 1), lowered(da), lowered(db), fa, fb, sa, sb);
            if run.end is Match {
                PairRows {
                    a_rows: before.a_rows.push(run.a),
                    b_rows: before.b_rows.push(run.b),
                    failed: None,
                }
            } else {
                PairRows { a_rows: before.a_rows, b_rows: before.b_rows, failed: Some(run) }
            }
        }
    }
}

/// The shape after rank completion, and how it ends, depend on the shape
/// of the array alone.
pub proof fn lemma_run_rank_by_shape<T>(
    x: ArrayView<T>,
    y: ArrayView<T>,
    target: Seq<usize>,
    fill: Result<T, Seq<char>>,
    size: nat,
    pending: Option<Seq<char>>,
)
    requires
        x.shape == y.shape,
    ensures
        run_rank(x, target, fill, size, pending).array.shape == run_rank(
            y,
            target,
            fill,
            size,
            pending,
        ).array.shape,
        run_rank(x, target, fill, size, pending).end == run_rank(
            y,
            target,
            fill,
            size,
            pending,
        ).end,
{
    reveal(run_rank);
}

/// The shape after row completion, and how it ends, depend on the shape of
/// the array alone.
pub proof fn lemma_run_rows_by_shape<T>(
    x: ArrayView<T>,
    y: ArrayView<T>,
    target: Seq<usize>,
    fill: Result<T, Seq<char>>,
    size: nat,
)
    requires
        x.shape == y.shape,
    ensures
        run_rows(x, target, fill, size).array.shape == run_rows(y, target, fill, size).array.shape,
        run_rows(x, target, fill, size).end == run_rows(y, target, fill, size).end,
{
    reveal(run_rows);
    let rows = row_count(target);
    if x.row_count() < rows {
        match fill {
            Ok(v) => {
                let goal = x.shape.update(0, rows as usize);
                if alloc_outcome(size, goal) is Ok {
                    lemma_run_rank_by_shape(
                        x.padded_to(goal, v),
                        y.padded_to(goal, v),
                        target,
                        fill,
                        size,
                        None,
                    );
                }
            },
            Err(e) => {
                lemma_run_rank_by_shape(x, y, target, fill, size, Some(e));
            },
        }
    } else if x.row_count() == rows {
        lemma_run_rank_by_shape(x, y, target, fill, size, Some(Seq::<char>::empty()));
    } else {
        lemma_run_rank_by_shape(x, y, target, fill, size, None);
    }
}

/// The shape in which a fill leaves an array, and whether it succeeds,
/// depend on the shape of the array alone, not on its elements.
pub proof fn lemma_run_fill_by_shape<T>(
    x: ArrayView<T>,
    y: ArrayView<T>,
    target: Seq<usize>,
    expand_fixed: bool,
    fill: Result<T, Seq<char>>,
    size: nat,
)
    requires
        x.shape == y.shape,
    ensures
        run_fill(x, target, expand_fixed, fill, size).array.shape == run_fill(
            y,
            target,
            expand_fixed,
            fill,
            size,
        ).array.shape,
        run_fill(x, target, expand_fixed, fill, size).end == run_fill(
            y,
            target,
            expand_fixed,
            fill,
            size,
        ).end,
{
    if prefixes_match(x.shape, target) {
    } else if takes_fixed(x, target, expand_fixed, fill) {
        let lead = fixed_lead(x.shape, target);
        let fixes = leading_ones(x.shape) as int;
        let rx = x.with_shape(x.shape.skip(fixes));
        let ry = y.with_shape(y.shape.skip(fixes));
        if alloc_outcome(size, lead + rx.shape) is Ok {
            lemma_run_rows_by_shape(rx.tiled(lead), ry.tiled(lead), target, fill, size);
        }
    } else {
        lemma_run_rows_by_shape(x, y, target, fill, size);
    }
}

/// The shapes in which a fill of two arrays towards each other leaves
/// them, and whether it succeeds, depend on their shapes alone.
#[verifier::rlimit(60)]
pub proof fn lemma_run_pair_by_shape<A, B>(
    a1: ArrayView<A>,
    b1: ArrayView<B>,
    a2: ArrayView<A>,
    b2: ArrayView<B>,
    a_depth: nat,
    b_depth: nat,
    fa: Result<A, Seq<char>>,
    fb: Result<B, Seq<char>>,
    sa: nat,
    sb: nat,
)
    requires
        a1.shape == a2.shape,
        b1.shape == b2.shape,
    ensures
        run_pair(a1, b1, a_depth, b_depth, fa, fb, sa, sb).a.shape == run_pair(
            a2,
            b2,
            a_depth,
            b_depth,
            fa,
            fb,
            sa,
            sb,
        ).a.shape,
        run_pair(a1, b1, a_depth, b_depth, fa, fb, sa, sb).b.shape == run_pair(
            a2,
            b2,
            a_depth,
            b_depth,
            fa,
            fb,
            sa,
            sb,
        ).b.shape,
        run_pair(a1, b1, a_depth, b_depth, fa, fb, sa, sb).end is Match == run_pair(
            a2,
            b2,
            a_depth,
            b_depth,
            fa,
            fb,
            sa,
            sb,
        ).end is Match,
    decreases clamp(a_depth, a1.shape.len()) + clamp(b_depth, b1.shape.len()), 1int, 0int,
{
    let da = clamp(a_depth, a1.shape.len());
    let db = clamp(b_depth, b1.shape.len());
    if da == 0 && db == 0 {
        lemma_pair_base_by_shape(a1, b1, a2, b2, fa, fb, sa, sb);
    } else if a1.row_count() != b1.row_count() {
    } else if prefixes_match(a1.shape.skip(da as int), b1.shape.skip(db as int)) {
    } else {
        lemma_pair_rows_by_shape(
            a1,
            b1,
            a2,
            b2,
            a_depth,
            b_depth,
            fa,
            fb,
            sa,
            sb,
            a1.row_count() as int,
        );
    }
}

/// The rows of `lemma_run_pair_by_shape`: as many succeed, and in the same
/// shapes.
#[verifier::rlimit(60)]
pub proof fn lemma_pair_rows_by_shape<A, B>(
    a1: ArrayView<A>,
    b1: ArrayView<B>,
    a2: ArrayView<A>,
    b2: ArrayView<B>,
    a_depth: nat,
    b_depth: nat,
    fa: Result<A, Seq<char>>,
    fb: Result<B, Seq<char>>,
    sa: nat,
    sb: nat,
    k: int,
)
    requires
        a1.shape == a2.shape,
        b1.shape == b2.shape,
    ensures
        ({
            let r1 = pair_rows(a1, b1, a_depth, b_depth, fa, fb, sa, sb, k);
            let r2 = pair_rows(a2, b2, a_depth, b_depth, fa, fb, sa, sb, k);
            &&& r1.failed is Some == r2.failed is Some
            &&& r1.failed is Some ==> !(r1.failed->0.end is Match)
            &&& r2.failed is Some ==> !(r2.failed->0.end is Match)
            &&& r1.a_rows.len() == r2.a_rows.len()
            &&& r1.b_rows.len() == r2.b_rows.len()
            &&& r1.a_rows.len() == r1.b_rows.len()
            &&& r1.failed is None ==> r1.a_rows.len() == (if k <= 0 || a1.shape.len() == 0
                || b1.shape.len() == 0 || clamp(a_depth, a1.shape.len()) + clamp(
                b_depth,
                b1.shape.len(),
            ) == 0 {
                0
            } else {
                k
            })
            &&& forall|i: int|
                0 <= i < r1.a_rows.len() ==> (#[trigger] r1.a_rows[i]).shape == r2.a_rows[i].shape
            &&& forall|i: int|
                0 <= i < r1.b_rows.len() ==> (#[trigger] r1.b_rows[i]).shape == r2.b_rows[i].shape
        }),
    decreases clamp(a_depth, a1.shape.len()) + clamp(b_depth, b1.shape.len()), 0int, k,
{
    let da = clamp(a_depth, a1.shape.len());
    let db = clamp(b_depth, b1.shape.len());
    if k <= 0 || a1.shape.len() == 0 || b1.shape.len() == 0 || da + db == 0 {
    } else {
        lemma_pair_rows_by_shape(a1, b1, a2, b2, a_depth, b_depth, fa, fb, sa, sb, k - 1);
        lemma_run_pair_by_shape(
            a1.row(k - 1),
            b1.row(k - 1),
            a2.row(k - 1),
            b2.row(k - 1),
            lowered(da),
            lowered(db),
            fa,
            fb,
            sa,
            sb,
        );
    }
}

/// Once a pair of rows has failed, the rows after it are not tried.
pub proof fn lemma_pair_rows_failed_stays<A, B>(
    a: ArrayView<A>,
    b: ArrayView<B>,
    a_depth: nat,
    b_depth: nat,
    fa: Result<A, Seq<char>>,
    fb: Result<B, Seq<char>>,
    sa: nat,
    sb: nat,
    k: int,
    n: int,
)
    requires
        0 < k <= n,
        pair_rows(a, b, a_depth, b_depth, fa, fb, sa, sb, k).failed is Some,
    ensures
        pair_rows(a, b, a_depth, b_depth, fa, fb, sa, sb, n) == pair_rows(
            a,
            b,
            a_depth,
            b_depth,
            fa,
            fb,
            sa,
            sb,
            k,
        ),
    decreases n - k,
{
    if k < n {
        lemma_pair_rows_failed_stays(a, b, a_depth, b_depth, fa, fb, sa, sb, k, n - 1);
    }
}

fn prefix_match_from(a: &[usize], from_a: usize, b: &[usize], from_b: usize) -> (same: bool)
    requires
        from_a <= a.len(),
        from_b <= b.len(),
    ensures
        same == prefixes_match(a@.skip(from_a as int), b@.skip(from_b as int)),
{
    let la: usize = a.len() - from_a;
    let lb: usize = b.len() - from_b;
    let n: usize = if la < lb { la } else { lb };
    let mut i: usize = 0;
    while i < n
        invariant
            i <= n,
            n <= a.len() - from_a,
            n <= b.len() - from_b,
            from_a <= a.len(),
            from_b <= b.len(),
            forall|j: int| 0 <= j < i ==> a@.skip(from_a as int)[j] == b@.skip(from_b as int)[j],
        decreases n - i,
    {
        if a[from_a + i] != b[from_b + i] {
            assert(a@.skip(from_a as int)[i as int] != b@.skip(from_b as int)[i as int]);
            return false;
        }
        i += 1;
    }
    true
}

/// Fills two arrays towards each other, `a` taken apart to the depth
/// `a_depth` and `b` to the depth `b_depth`, as `run_pair` describes; a
/// depth of zero stays zero one level lower.
#[verifier::rlimit(60)]
pub fn fill_array_shapes<A: ArrayValue, B: ArrayValue, C: FillContext>(
    a: &mut Array<A>,
    b: &mut Array<B>,
    a_depth: usize,
    b_depth: usize,
    ctx: &C,
) -> (result: Result<(), C::Error>)
    requires
        old(a)@.wf(),
        old(b)@.wf(),
    ensures
        ({
            let run = run_pair(
                old(a)@,
                old(b)@,
                a_depth as nat,
                b_depth as nat,
                A::fill_from(ctx.fills()),
                B::fill_from(ctx.fills()),
                vstd::layout::size_of::<A>(),
                vstd::layout::size_of::<B>(),
            );
            &&& final(a)@ == run.a
            &&& final(b)@ == run.b
            &&& final(a)@.wf()
            &&& final(b)@.wf()
            &&& end_reported(ctx, run.end, run.shape, run.target, result)
        }),
    decreases
            clamp(a_depth as nat, old(a)@.shape.len()) + clamp(b_depth as nat, old(b)@.shape.len()),
{
    let da: usize = if a_depth <= a.shape.len() { a_depth } else { a.shape.len() };
    let db: usize = if b_depth <= b.shape.len() { b_depth } else { b.shape.len() };
    let ghost a0 = a@;
    let ghost b0 = b@;
    let ghost fa = A::fill_from(ctx.fills());
    let ghost fb = B::fill_from(ctx.fills());
    let ghost sa = vstd::layout::size_of::<A>();
    let ghost sb = vstd::layout::size_of::<B>();
    if da == 0 && db == 0 {
        proof {
            reveal(pair_base);
        }
        let a_res = fill_array_shape(a, b.shape.as_slice(), true, ctx);
        let b_res = fill_array_shape(b, a.shape.as_slice(), true, ctx);
        if shape_prefixes_match(a.shape.as_slice(), b.shape.as_slice()) {
            return Ok(());
        }
        return match a_res {
            Err(e) => Err(e),
            Ok(_) => match b_res {
                Err(e) => Err(e),
                Ok(_) => {
                    proof {
                        reveal_strlit("");
                        assert(""@ =~= Seq::<char>::empty());
                    }
                    Err(
                        make_fill_error(
                            ctx,
                            mismatch_message(a.shape.as_slice(), b.shape.as_slice(), ""),
                        ),
                    )
                },
            },
        };
    }
    if a.row_count() != b.row_count() {
        proof {
            reveal_strlit("");
            assert(""@ =~= Seq::<char>::empty());
        }
        return Err(
            make_fill_error(ctx, mismatch_message(a.shape.as_slice(), b.shape.as_slice(), "")),
        );
    }
    if prefix_match_from(a.shape.as_slice(), da, b.shape.as_slice(), db) {
        return Ok(());
    }
    assert(a0.shape.skip(da as int).len() > 0 && b0.shape.skip(db as int).len() > 0);
    let a_rows = a.rows();
    let b_rows = b.rows();
    let n: usize = a_rows.len();
    assert(views(a_rows@).len() == a_rows@.len());
    assert(views(b_rows@).len() == b_rows@.len());
    let next_a: usize = if da == 0 { 0 } else { da - 1 };
    let next_b: usize = if db == 0 { 0 } else { db - 1 };
    let mut new_a: Vec<Array<A>> = Vec::new();
    let mut new_b: Vec<Array<B>> = Vec::new();
    let mut i: usize = 0;
    assert(views(new_a@) =~= Seq::<ArrayView<A>>::empty());
    assert(views(new_b@) =~= Seq::<ArrayView<B>>::empty());
    while i < n
        invariant
            i <= n,
            n == a0.row_count(),
            n == b0.row_count(),
            a@ == a0,
            b@ == b0,
            a0 == old(a)@,
            b0 == old(b)@,
            !prefixes_match(a0.shape.skip(da as int), b0.shape.skip(db as int)),
            a0.wf(),
            b0.wf(),
            a0.shape.len() > 0,
            b0.shape.len() > 0,
            da == clamp(a_depth as nat, a0.shape.len()),
            db == clamp(b_depth as nat, b0.shape.len()),
            da + db > 0,
            next_a == lowered(da as nat),
            next_b == lowered(db as nat),
            fa == A::fill_from(ctx.fills()),
            fb == B::fill_from(ctx.fills()),
            sa == vstd::layout::size_of::<A>(),
            sb == vstd::layout::size_of::<B>(),
            views(a_rows@) == rows_of_view(a0),
            views(b_rows@) == rows_of_view(b0),
            a_rows@.len() == n,
            b_rows@.len() == n,
            pair_rows(a0, b0, a_depth as nat, b_depth as nat, fa, fb, sa, sb, i as int).failed is None,
            views(new_a@) == pair_rows(
                a0,
                b0,
                a_depth as nat,
                b_depth as nat,
                fa,
                fb,
                sa,
                sb,
                i as int,
            ).a_rows,
            views(new_b@) == pair_rows(
                a0,
                b0,
                a_depth as nat,
                b_depth as nat,
                fa,
                fb,
                sa,
                sb,
                i as int,
            ).b_rows,
            new_a@.len() == i,
            new_b@.len() == i,
            forall|j: int| 0 <= j < i ==> (#[trigger] new_a@[j])@.wf() && new_a@[j]@.shape == run_pair(
                a0.row(0),
                b0.row(0),
                next_a as nat,
                next_b as nat,
                fa,
                fb,
                sa,
                sb,
            ).a.shape,
            forall|j: int| 0 <= j < i ==> (#[trigger] new_b@[j])@.wf() && new_b@[j]@.shape == run_pair(
                a0.row(0),
                b0.row(0),
                next_a as nat,
                next_b as nat,
                fa,
                fb,
                sa,
                sb,
            ).b.shape,
        decreases n - i,
    {
        let mut ar = a_rows[i].duplicate();
        let mut br = b_rows[i].duplicate();
        proof {
            assert(views(a_rows@)[i as int] == a_rows@[i as int]@);
            assert(views(b_rows@)[i as int] == b_rows@[i as int]@);
            assert(ar@ == a0.row(i as int));
            assert(br@ == b0.row(i as int));
            crate::shape::lemma_fits_skip(a0.shape, 1);
            crate::shape::lemma_fits_skip(b0.shape, 1);
            crate::shape::lemma_elements_skip(a0.shape, 0);
            crate::shape::lemma_elements_skip(b0.shape, 0);
            assert(a0.shape.skip(0) =~= a0.shape);
            assert(b0.shape.skip(0) =~= b0.shape);
            crate::array::lemma_row_bounds(n as int, a0.row_len() as int, i as int);
            crate::array::lemma_row_bounds(n as int, b0.row_len() as int, i as int);
            lemma_run_pair_by_shape(
                a0.row(i as int),
                b0.row(i as int),
                a0.row(0),
                b0.row(0),
                next_a as nat,
                next_b as nat,
                fa,
                fb,
                sa,
                sb,
            );
            assert(ar@.shape.len() == a0.shape.len() - 1);
            assert(br@.shape.len() == b0.shape.len() - 1);
            assert(clamp(next_a as nat, ar@.shape.len()) + clamp(next_b as nat, br@.shape.len())
                < da + db);
        }
        match fill_array_shapes(&mut ar, &mut br, next_a, next_b, ctx) {
            Err(e) => {
                proof {
                    lemma_pair_rows_failed_stays(
                        a0,
                        b0,
                        a_depth as nat,
                        b_depth as nat,
                        fa,
                        fb,
                        sa,
                        sb,
                        i + 1,
                        n as int,
                    );
                }
                return Err(e);
            },
            Ok(_) => {},
        }
        new_a.push(ar);
        new_b.push(br);
        i += 1;
        proof {
            let rows = pair_rows(a0, b0, a_depth as nat, b_depth as nat, fa, fb, sa, sb, i as int);
            assert(views(new_a@) =~= rows.a_rows);
            assert(views(new_b@) =~= rows.b_rows);
        }
    }
    proof {
        if n > 0 {
            assert(all_shaped(views(new_a@), new_a@[0]@.shape)) by {
                assert forall|j: int| 0 <= j < views(new_a@).len() implies (#[trigger] views(
                    new_a@,
                )[j]).wf() && views(new_a@)[j].shape == new_a@[0]@.shape by {
                    assert(views(new_a@)[j] == new_a@[j]@);
                }
            }
            assert(all_shaped(views(new_b@), new_b@[0]@.shape)) by {
                assert forall|j: int| 0 <= j < views(new_b@).len() implies (#[trigger] views(
                    new_b@,
                )[j]).wf() && views(new_b@)[j].shape == new_b@[0]@.shape by {
                    assert(views(new_b@)[j] == new_b@[j]@);
                }
            }
        }
    }
    let a_meta = a.meta;
    let b_meta = b.meta;
    *a = Array::from_row_arrays(&new_a, a_meta);
    *b = Array::from_row_arrays(&new_b, b_meta);
    Ok(())
}

/// A shape that agrees with the target already is left as it is, and the
/// fill succeeds.
pub proof fn lemma_fill_idempotent<T>(
    arr: ArrayView<T>,
    target: Seq<usize>,
    expand_fixed: bool,
    fill: Result<T, Seq<char>>,
    size: nat,
)
    requires
        prefixes_match(arr.shape, target),
    ensures
        run_fill(arr, target, expand_fixed, fill, size) == (FillRun {
            array: arr,
            end: FillEnd::Match,
        }),
{
}

/// Rank completion ends in a match only with a shape that agrees with the
/// target; without a fill value it leaves the array as it is, and a shape
/// that disagrees stays a mismatch.
pub proof fn lemma_run_rank_ends<T>(
    arr: ArrayView<T>,
    target: Seq<usize>,
    fill: Result<T, Seq<char>>,
    size: nat,
    pending: Option<Seq<char>>,
)
    ensures
        run_rank(arr, target, fill, size, pending).end is Match ==> prefixes_match(
            run_rank(arr, target, fill, size, pending).array.shape,
            target,
        ),
        fill is Err ==> run_rank(arr, target, fill, size, pending).array == arr,
        fill is Err && !prefixes_match(arr.shape, target) ==> run_rank(
            arr,
            target,
            fill,
            size,
            pending,
        ).end is Mismatch,
{
    reveal(run_rank);
}

/// Row completion ends in a match only with a shape that agrees with the
/// target; without a fill value it leaves the array as it is, and a shape
/// that disagrees stays a mismatch.
pub proof fn lemma_run_rows_ends<T>(
    arr: ArrayView<T>,
    target: Seq<usize>,
    fill: Result<T, Seq<char>>,
    size: nat,
)
    ensures
        run_rows(arr, target, fill, size).end is Match ==> prefixes_match(
            run_rows(arr, target, fill, size).array.shape,
            target,
        ),
        fill is Err ==> run_rows(arr, target, fill, size).array == arr,
        fill is Err && !prefixes_match(arr.shape, target) ==> run_rows(
            arr,
            target,
            fill,
            size,
        ).end is Mismatch,
{
    reveal(run_rows);
    let rows = row_count(target);
    if arr.row_count() < rows {
        match fill {
            Ok(v) => {
                let goal = arr.shape.update(0, rows as usize);
                lemma_run_rank_ends(arr.padded_to(goal, v), target, fill, size, None);
            },
            Err(e) => {
                lemma_run_rank_ends(arr, target, fill, size, Some(e));
            },
        }
    } else if arr.row_count() == rows {
        lemma_run_rank_ends(arr, target, fill, size, Some(Seq::<char>::empty()));
    } else {
        lemma_run_rank_ends(arr, target, fill, size, None);
    }
}

/// A fill that has succeeded has nothing left to do: the array agrees with
/// the target, and another fill leaves it as it is.
pub proof fn lemma_fill_settles<T>(
    arr: ArrayView<T>,
    target: Seq<usize>,
    expand_fixed: bool,
    fill: Result<T, Seq<char>>,
    size: nat,
)
    requires
        run_fill(arr, target, expand_fixed, fill, size).end is Match,
    ensures
        prefixes_match(run_fill(arr, target, expand_fixed, fill, size).array.shape, target),
        run_fill(
            run_fill(arr, target, expand_fixed, fill, size).array,
            target,
            expand_fixed,
            fill,
            size,
        ) == run_fill(arr, target, expand_fixed, fill, size),
{
    lemma_run_rows_ends(arr, target, fill, size);
    if takes_fixed(arr, target, expand_fixed, fill) {
        let lead = fixed_lead(arr.shape, target);
        let rest = arr.with_shape(arr.shape.skip(leading_ones(arr.shape) as int));
        lemma_run_rows_ends(rest.tiled(lead), target, fill, size);
    }
}

/// Whether the fixed axes of an array stretch so that the fill ends
/// without a fill value: the fill takes the way of the fixed axes, and the
/// stretched array is refused for its size or agrees with the target.
pub open spec fn fixed_decides<T>(
    arr: ArrayView<T>,
    target: Seq<usize>,
    expand_fixed: bool,
    fill: Result<T, Seq<char>>,
    size: nat,
) -> bool {
    let lead = fixed_lead(arr.shape, target);
    let rest = arr.shape.skip(leading_ones(arr.shape) as int);
    takes_fixed(arr, target, expand_fixed, fill) && (alloc_outcome(size, lead + rest) is Err
        || prefixes_match(lead + rest, target))
}

/// Without a fill value, an array whose shape disagrees with the target
/// cannot be filled, unless its fixed axes decide: the fill ends in a
/// mismatch, whose message names the shape that the array has by then and
/// the target, and the array is as it was unless its fixed axes stretched.
pub proof fn lemma_fill_fails_without_fill<T>(
    arr: ArrayView<T>,
    target: Seq<usize>,
    expand_fixed: bool,
    reason: Seq<char>,
    size: nat,
)
    requires
        !prefixes_match(arr.shape, target),
        !fixed_decides(arr, target, expand_fixed, Err::<T, Seq<char>>(reason), size),
    ensures
        ({
            let run = run_fill(arr, target, expand_fixed, Err::<T, Seq<char>>(reason), size);
            &&& run.end is Mismatch
            &&& !prefixes_match(run.array.shape, target)
            &&& !takes_fixed(arr, target, expand_fixed, Err::<T, Seq<char>>(reason)) ==> run.array
                == arr
            &&& mismatch_text(run.array.shape, target, run.end->reason) == "Shapes "@ + shape_text(
                run.array.shape,
            ) + " and "@ + shape_text(target) + " do not match"@ + run.end->reason
        }),
{
    let fill = Err::<T, Seq<char>>(reason);
    lemma_run_rows_ends(arr, target, fill, size);
    if takes_fixed(arr, target, expand_fixed, fill) {
        let lead = fixed_lead(arr.shape, target);
        let rest = arr.with_shape(arr.shape.skip(leading_ones(arr.shape) as int));
        lemma_run_rows_ends(rest.tiled(lead), target, fill, size);
    }
}

/// Works on an array of bytes, and, where that fails with an error of the
/// fill class, on the array of the numbers that equal the bytes instead.
pub fn op_bytes_retry_fill<T, E: FillError>(
    bytes: Array<u8>,
    on_bytes: impl FnOnce(Array<u8>) -> Result<T, E>,
    on_nums: impl FnOnce(Array<Num>) -> Result<T, E>,
) -> (result: Result<T, E>)
    requires
        forall|b: Array<u8>| b@ == bytes@ ==> call_requires(on_bytes, (b,)),
        forall|n: Array<Num>| n@ == as_nums(bytes@) ==> call_requires(on_nums, (n,)),
    ensures
        exists|b: Array<u8>, first: Result<T, E>|
            b@ == bytes@ && #[trigger] call_ensures(on_bytes, (b,), first) && if first is Err
                && first->Err_0.fill_class() {
                exists|n: Array<Num>|
                    n@ == as_nums(bytes@) && #[trigger] call_ensures(on_nums, (n,), result)
            } else {
                result == first
            },
{
    let copy = bytes.duplicate();
    let ghost given = copy;
    let first = on_bytes(copy);
    let ghost tried = first;
    match first {
        Ok(res) => {
            let result = Ok(res);
            assert(call_ensures(on_bytes, (given,), tried) && result == tried);
            result
        },
        Err(err) => {
            if err.is_fill() {
                let nums = bytes_to_nums(&bytes);
                let ghost numbers = nums;
                let result = on_nums(nums);
                assert(call_ensures(on_nums, (numbers,), result));
                assert(call_ensures(on_bytes, (given,), tried));
                result
            } else {
                let result = Err(err);
                assert(call_ensures(on_bytes, (given,), tried) && result == tried);
                result
            }
        },
    }
}

/// Works on a borrowed array of bytes, and, where that fails with an error
/// of the fill class, on the array of the numbers that equal the bytes
/// instead.
pub fn op_bytes_ref_retry_fill<T, E: FillError>(
    bytes: &Array<u8>,
    on_bytes: impl FnOnce(&Array<u8>) -> Result<T, E>,
    on_nums: impl FnOnce(&Array<Num>) -> Result<T, E>,
) -> (result: Result<T, E>)
    requires
        call_requires(on_bytes, (bytes,)),
        forall|n: Array<Num>| n@ == as_nums(bytes@) ==> call_requires(on_nums, (&n,)),
    ensures
        exists|first: Result<T, E>| #[trigger]
            call_ensures(on_bytes, (bytes,), first) && if first is Err
                && first->Err_0.fill_class() {
                exists|n: Array<Num>|
                    n@ == as_nums(bytes@) && #[trigger] call_ensures(on_nums, (&n,), result)
            } else {
                result == first
            },
{
    let first = on_bytes(bytes);
    let ghost tried = first;
    match first {
        Ok(res) => {
            let result = Ok(res);
            assert(call_ensures(on_bytes, (bytes,), tried) && result == tried);
            result
        },
        Err(err) => {
            if err.is_fill() {
                let nums = bytes_to_nums(bytes);
                let result = on_nums(&nums);
                assert(call_ensures(on_nums, (&nums,), result));
                assert(call_ensures(on_bytes, (bytes,), tried));
                result
            } else {
                let result = Err(err);
                assert(call_ensures(on_bytes, (bytes,), tried) && result == tried);
                result
            }
        },
    }
}

/// Works on two arrays of bytes, and, where a fill value for numbers is
/// set and the work fails with an error of the fill class, on the arrays
/// of the numbers that equal the bytes instead.
pub fn op2_bytes_retry_fill<T, C: FillContext>(
    a: Array<u8>,
    b: Array<u8>,
    ctx: &C,
    on_bytes: impl FnOnce(Array<u8>, Array<u8>) -> Result<T, C::Error>,
    on_nums: impl FnOnce(Array<Num>, Array<Num>) -> Result<T, C::Error>,
) -> (result: Result<T, C::Error>)
    requires
        forall|x: Array<u8>, y: Array<u8>|
            x@ == a@ && y@ == b@ ==> call_requires(on_bytes, (x, y)),
        forall|x: Array<Num>, y: Array<Num>|
            x@ == as_nums(a@) && y@ == as_nums(b@) ==> call_requires(on_nums, (x, y)),
    ensures
        exists|x: Array<u8>, y: Array<u8>, first: Result<T, C::Error>|
            x@ == a@ && y@ == b@ && #[trigger] call_ensures(on_bytes, (x, y), first)
                && if <Num as ArrayValue>::fill_from(ctx.fills()) is Ok && first is Err
                && first->Err_0.fill_class() {
                exists|p: Array<Num>, q: Array<Num>|
                    p@ == as_nums(a@) && q@ == as_nums(b@) && #[trigger] call_ensures(
                        on_nums,
                        (p, q),
                        result,
                    )
            } else {
                result == first
            },
{
    if ctx.scalar_fill::<Num>().is_ok() {
        let x = a.duplicate();
        let y = b.duplicate();
        let ghost gx = x;
        let ghost gy = y;
        let first = on_bytes(x, y);
        let ghost tried = first;
        match first {
            Ok(res) => {
                let result = Ok(res);
                assert(call_ensures(on_bytes, (gx, gy), tried) && result == tried);
                result
            },
            Err(err) => {
                if C::is_fill_error(&err) {
                    let p = bytes_to_nums(&a);
                    let q = bytes_to_nums(&b);
                    let ghost gp = p;
                    let ghost gq = q;
                    let result = on_nums(p, q);
                    assert(call_ensures(on_nums, (gp, gq), result));
                    assert(call_ensures(on_bytes, (gx, gy), tried));
                    result
                } else {
                    let result = Err(err);
                    assert(call_ensures(on_bytes, (gx, gy), tried) && result == tried);
                    result
                }
            },
        }
    } else {
        let ghost gx = a;
        let ghost gy = b;
        let result = on_bytes(a, b);
        assert(call_ensures(on_bytes, (gx, gy), result));
        result
    }
}

} // verus!
