//! Row alignment: what an operation that works row by row on several
//! arguments needs before it starts.

use vstd::prelude::*;
use vstd::string::StringExecFns;
use crate::array::{lengthened, Lengthened, PersistentMeta};
use crate::context::{
    plain_failure, ArrayValue, Boxed, Complex, FillContext, Fills, Num,
};
use crate::shape::{elements, fits, lemma_elements_skip, lemma_fits_skip, suffix_elements};
use crate::size::{size_error_text, SizeError};
use crate::text::{shape_string, shape_text};
use crate::runtime::all_wf;
use crate::value::{value_views, Value, ValueView};

verus! {

/// Whether a value can be given more rows: it has rows, and a fill value
/// of its kind is set.
pub open spec fn fillable(v: ValueView, fills: Fills) -> bool {
    v.rank() > 0 && match v {
        ValueView::Num(_) => <Num as ArrayValue>::fill_from(fills) is Ok,
        ValueView::Byte(_) => <u8 as ArrayValue>::fill_from(fills) is Ok,
        ValueView::Complex(_) => <Complex as ArrayValue>::fill_from(fills) is Ok,
        ValueView::Char(_) => <char as ArrayValue>::fill_from(fills) is Ok,
        ValueView::Box(_) => <Boxed as ArrayValue>::fill_from(fills) is Ok,
    }
}

/// What becomes of a value that is given more rows.
pub enum LengthFill {
    Done(ValueView),
    NoFill(Seq<char>),
    TooBig(SizeError),
}

/// A value given rows of the fill value of its kind until it has `len` rows.
pub open spec fn length_filled(v: ValueView, len: usize, fills: Fills) -> LengthFill {
    match v {
        ValueView::Num(a) => match lengthened(
            a,
            len,
            <Num as ArrayValue>::fill_from(fills),
            vstd::layout::size_of::<Num>(),
        ) {
            Lengthened::Done(x) => LengthFill::Done(ValueView::Num(x)),
            Lengthened::NoFill(r) => LengthFill::NoFill(r),
            Lengthened::TooBig(e) => LengthFill::TooBig(e),
        },
        ValueView::Byte(a) => match lengthened(
            a,
            len,
            <u8 as ArrayValue>::fill_from(fills),
            vstd::layout::size_of::<u8>(),
        ) {
            Lengthened::Done(x) => LengthFill::Done(ValueView::Byte(x)),
            Lengthened::NoFill(r) => LengthFill::NoFill(r),
            Lengthened::TooBig(e) => LengthFill::TooBig(e),
        },
        ValueView::Complex(a) => match lengthened(
            a,
            len,
            <Complex as ArrayValue>::fill_from(fills),
            vstd::layout::size_of::<Complex>(),
        ) {
            Lengthened::Done(x) => LengthFill::Done(ValueView::Complex(x)),
            Lengthened::NoFill(r) => LengthFill::NoFill(r),
            Lengthened::TooBig(e) => LengthFill::TooBig(e),
        },
        ValueView::Char(a) => match lengthened(
            a,
            len,
            <char as ArrayValue>::fill_from(fills),
            vstd::layout::size_of::<char>(),
        ) {
            Lengthened::Done(x) => LengthFill::Done(ValueView::Char(x)),
            Lengthened::NoFill(r) => LengthFill::NoFill(r),
            Lengthened::TooBig(e) => LengthFill::TooBig(e),
        },
        ValueView::Box(a) => match lengthened(
            a,
            len,
            <Boxed as ArrayValue>::fill_from(fills),
            vstd::layout::size_of::<Boxed>(),
        ) {
            Lengthened::Done(x) => LengthFill::Done(ValueView::Box(x)),
            Lengthened::NoFill(r) => LengthFill::NoFill(r),
            Lengthened::TooBig(e) => LengthFill::TooBig(e),
        },
    }
}

/// Why arguments cannot be aligned.
pub enum RowsFailure {
    /// Two arguments have different numbers of rows, neither of them one.
    Mismatch { a: Seq<usize>, b: Seq<usize>, reason: Seq<char> },
    /// A size that a fill asked for was refused.
    TooBig(SizeError),
}

/// What becomes of two arguments that are aligned with each other.
pub enum PairFit {
    Fit(ValueView, ValueView),
    Failed(RowsFailure),
}

/// Two arguments aligned with each other: the first, if it can be given
/// rows, is given as many as the second has; then the second, if it can,
/// as many as the first has by then. Their numbers of rows must then be
/// the same, or one of them one.
pub open spec fn fit_pair(a: ValueView, b: ValueView, fills: Fills) -> PairFit {
    let first = if fillable(a, fills) {
        length_filled(a, b.row_count() as usize, fills)
    } else {
        LengthFill::Done(a)
    };
    match first {
        LengthFill::TooBig(e) => PairFit::Failed(RowsFailure::TooBig(e)),
        LengthFill::NoFill(reason) => PairFit::Failed(
            RowsFailure::Mismatch { a: a.shape(), b: b.shape(), reason },
        ),
        LengthFill::Done(x) => {
            let second = if fillable(b, fills) {
                length_filled(b, x.row_count() as usize, fills)
            } else {
                LengthFill::Done(b)
            };
            match second {
                LengthFill::TooBig(e) => PairFit::Failed(RowsFailure::TooBig(e)),
                LengthFill::NoFill(reason) => PairFit::Failed(
                    RowsFailure::Mismatch { a: x.shape(), b: b.shape(), reason },
                ),
                LengthFill::Done(y) => if x.row_count() != y.row_count() && x.row_count() != 1
                    && y.row_count() != 1 {
                    PairFit::Failed(
                        RowsFailure::Mismatch {
                            a: x.shape(),
                            b: y.shape(),
                            reason: Seq::empty(),
                        },
                    )
                } else {
                    PairFit::Fit(x, y)
                },
            }
        },
    }
}

/// The arguments after every pair of them from the pair `(a, b)` on was
/// aligned, each argument with every later one in turn, or the first
/// failure.
pub open spec fn aligned_from(values: Seq<ValueView>, fills: Fills, a: int, b: int) -> Result<
    Seq<ValueView>,
    RowsFailure,
>
    decreases values.len() - a, values.len() - b,
{
    if a < 0 || b <= a || a >= values.len() {
        Ok(values)
    } else if b >= values.len() {
        aligned_from(values, fills, a + 1, a + 2)
    } else {
        match fit_pair(values[a], values[b], fills) {
            PairFit::Fit(x, y) => aligned_from(values.update(a, x).update(b, y), fills, a, b + 1),
            PairFit::Failed(f) => Err(f),
        }
    }
}

/// The message for arguments that cannot be aligned.
pub open spec fn rows_failure_text(prim: Seq<char>, f: RowsFailure) -> Seq<char> {
    match f {
        RowsFailure::Mismatch { a, b, reason } => "Cannot "@ + prim
            + " arrays with different number of rows, shapes "@ + shape_text(a) + " and "@
            + shape_text(b) + reason,
        RowsFailure::TooBig(e) => size_error_text(e),
    }
}

/// The rows that one argument gives.
pub enum FixedRowView {
    /// One row for each row of the result, and a proxy row after them
    /// where the operation is empty.
    Rows(Seq<ValueView>),
    /// The same value for every row of the result.
    Constant(ValueView),
}

/// A value without its leading dimension, if that is one.
pub open spec fn unfixed(v: ValueView) -> ValueView {
    if v.shape().len() > 0 && v.shape()[0] == 1 {
        v.with_shape(v.shape().skip(1))
    } else {
        v
    }
}

/// The row that stands for the rows of a value without rows.
pub open spec fn proxy_row(v: ValueView) -> ValueView {
    v.proxy(v.shape().skip(1))
}

/// The rows that an aligned argument gives: a value with one row is
/// constant, without its fixed axis; any other gives its rows.
pub open spec fn fixed_row(v: ValueView, is_empty: bool) -> FixedRowView {
    if v.row_count() == 1 {
        FixedRowView::Constant(unfixed(v))
    } else {
        let rows = Seq::new(v.row_count(), |i: int| v.row(i));
        FixedRowView::Rows(
            if is_empty {
                rows.push(proxy_row(v))
            } else {
                rows
            },
        )
    }
}

/// The largest number of rows among the first `k` arguments that do not
/// have exactly one row, and zero for none.
pub open spec fn most_rows(values: Seq<ValueView>, k: int) -> nat
    decreases k,
{
    if k <= 0 {
        0
    } else {
        let before = most_rows(values, k - 1);
        let rows = values[k - 1].row_count();
        if rows != 1 && rows > before {
            rows
        } else {
            before
        }
    }
}

/// The tags of the first `k` arguments.
pub open spec fn metas_of(values: Seq<ValueView>, k: int) -> Seq<PersistentMeta>
    decreases k,
{
    if k <= 0 {
        Seq::empty()
    } else {
        metas_of(values, k - 1).push(values[k - 1].meta())
    }
}

/// What row alignment gives for arguments that are aligned already.
pub struct FixedRowsView {
    pub rows: Seq<FixedRowView>,
    pub row_count: nat,
    pub is_empty: bool,
    pub all_scalar: bool,
    pub per_meta: PersistentMeta,
}

/// The rows of aligned arguments for an operation with `outputs` outputs.
///
/// The operation is empty where it has outputs and some argument has no
/// rows. The number of rows is the largest among the arguments that are not
/// constant, and one where all are constant; the proxy rows of an empty
/// operation are not counted. The tags of all arguments are merged.
pub open spec fn fixed_view(values: Seq<ValueView>, outputs: usize) -> FixedRowsView {
    let is_empty = outputs > 0 && exists|i: int|
        0 <= i < values.len() && (#[trigger] values[i]).row_count() == 0;
    let all_one = forall|i: int| 0 <= i < values.len() ==> (#[trigger] values[i]).row_count() == 1;
    let most = if all_one {
        1
    } else {
        most_rows(values, values.len() as int)
    };
    FixedRowsView {
        rows: Seq::new(values.len(), |i: int| fixed_row(values[i], is_empty)),
        row_count: most,
        is_empty,
        all_scalar: forall|i: int| 0 <= i < values.len() ==> (#[trigger] values[i]).rank() == 0,
        per_meta: PersistentMeta::merged_all(metas_of(values, values.len() as int)),
    }
}

/// The tags of the first `k` arguments are the tags of the arguments, in
/// their order.
pub proof fn lemma_metas_of(values: Seq<ValueView>, k: int)
    requires
        0 <= k <= values.len(),
    ensures
        metas_of(values, k) == Seq::new(k as nat, |i: int| values[i].meta()),
    decreases k,
{
    if k > 0 {
        lemma_metas_of(values, k - 1);
    }
    assert(metas_of(values, k) =~= Seq::new(k as nat, |i: int| values[i].meta()));
}

/// The tag that row alignment gives does not depend on the order of the
/// arguments: it stays the same where two arguments change places.
pub proof fn lemma_fixed_tags_any_order(values: Seq<ValueView>, outputs: usize, i: int, j: int)
    requires
        0 <= i < j < values.len(),
    ensures
        fixed_view(values.update(i, values[j]).update(j, values[i]), outputs).per_meta
            == fixed_view(values, outputs).per_meta,
{
    let other = values.update(i, values[j]).update(j, values[i]);
    let n = values.len() as int;
    lemma_metas_of(values, n);
    lemma_metas_of(other, n);
    let metas = metas_of(values, n);
    assert(metas_of(other, n) =~= metas.update(i, metas[j]).update(j, metas[i]));
    crate::array::lemma_merged_any_order(metas, i, j);
}

/// The rows that one argument gives.
pub enum FixedRow {
    Rows(Vec<Value>),
    Constant(Value),
}

impl View for FixedRow {
    type V = FixedRowView;

    open spec fn view(&self) -> FixedRowView {
        match self {
            FixedRow::Rows(rows) => FixedRowView::Rows(value_views(rows@)),
            FixedRow::Constant(v) => FixedRowView::Constant(v@),
        }
    }
}

/// What an operation that works row by row needs: the rows of each
/// argument, the number of rows, whether the operation is empty, whether
/// all arguments are scalars, and the merged tag.
pub struct FixedRowsData {
    pub rows: Vec<FixedRow>,
    pub row_count: usize,
    pub is_empty: bool,
    pub all_scalar: bool,
    pub per_meta: PersistentMeta,
}

impl View for FixedRowsData {
    type V = FixedRowsView;

    open spec fn view(&self) -> FixedRowsView {
        FixedRowsView {
            rows: self.rows@.map_values(|r: FixedRow| r@),
            row_count: self.row_count as nat,
            is_empty: self.is_empty,
            all_scalar: self.all_scalar,
            per_meta: self.per_meta,
        }
    }
}

/// Whether a value can be given more rows.
pub fn length_is_fillable<C: FillContext>(v: &Value, ctx: &C) -> (yes: bool)
    ensures
        yes == fillable(v@, ctx.fills()),
{
    if v.shape().len() == 0 {
        return false;
    }
    match v {
        Value::Num(_) => ctx.scalar_fill::<Num>().is_ok(),
        Value::Byte(_) => ctx.scalar_fill::<u8>().is_ok(),
        Value::Complex(_) => ctx.scalar_fill::<Complex>().is_ok(),
        Value::Char(_) => ctx.scalar_fill::<char>().is_ok(),
        Value::Box(_) => ctx.scalar_fill::<Boxed>().is_ok(),
    }
}

/// Gives a value rows of the fill value of its kind until it has `len` rows.
pub fn fill_length_to<C: FillContext>(v: &mut Value, len: usize, ctx: &C) -> (result: Result<
    Result<(), SizeError>,
    &'static str,
>)
    requires
        old(v)@.wf(),
    ensures
        final(v)@.wf(),
        match length_filled(old(v)@, len, ctx.fills()) {
            LengthFill::Done(x) => result == Ok::<Result<(), SizeError>, &'static str>(Ok(()))
                && final(v)@ == x,
            LengthFill::NoFill(reason) => result is Err && result->Err_0@ == reason && final(v)@
                == old(v)@,
            LengthFill::TooBig(e) => result == Ok::<Result<(), SizeError>, &'static str>(Err(e))
                && final(v)@ == old(v)@,
        },
{
    match v {
        Value::Num(a) => a.fill_length_to(len, ctx.scalar_fill::<Num>()),
        Value::Byte(a) => a.fill_length_to(len, ctx.scalar_fill::<u8>()),
        Value::Complex(a) => a.fill_length_to(len, ctx.scalar_fill::<Complex>()),
        Value::Char(a) => a.fill_length_to(len, ctx.scalar_fill::<char>()),
        Value::Box(a) => a.fill_length_to(len, ctx.scalar_fill::<Boxed>()),
    }
}

fn rows_error<C: FillContext>(prim: &str, a: &Value, b: &Value, reason: &str, ctx: &C) -> (e: C::Error)
    ensures
        plain_failure(
            ctx,
            rows_failure_text(
                prim@,
                RowsFailure::Mismatch { a: a@.shape(), b: b@.shape(), reason: reason@ },
            ),
            e,
        ),
{
    let mut msg = String::from_str("Cannot ");
    msg.append(prim);
    msg.append(" arrays with different number of rows, shapes ");
    let sa = shape_string(a.shape().as_slice());
    msg.append(sa.as_str());
    msg.append(" and ");
    let sb = shape_string(b.shape().as_slice());
    msg.append(sb.as_str());
    msg.append(reason);
    ctx.error(msg)
}

/// Aligns two arguments with each other, as `fit_pair` describes.
#[verifier::rlimit(60)]
fn align_pair<C: FillContext>(prim: &str, a: &mut Value, b: &mut Value, ctx: &C) -> (result: Result<
    (),
    C::Error,
>)
    requires
        old(a)@.wf(),
        old(b)@.wf(),
    ensures
        final(a)@.wf(),
        final(b)@.wf(),
        match fit_pair(old(a)@, old(b)@, ctx.fills()) {
            PairFit::Fit(x, y) => result is Ok && final(a)@ == x && final(b)@ == y,
            PairFit::Failed(f) => result is Err && plain_failure(
                ctx,
                rows_failure_text(prim@, f),
                result->Err_0,
            ),
        },
{
    if length_is_fillable(a, ctx) {
        let rows: usize = b.row_count();
        match fill_length_to(a, rows, ctx) {
            Ok(Ok(_)) => {},
            Ok(Err(e)) => {
                return Err(ctx.error(e.message()));
            },
            Err(reason) => {
                return Err(rows_error(prim, a, b, reason, ctx));
            },
        }
    }
    if length_is_fillable(b, ctx) {
        let rows: usize = a.row_count();
        match fill_length_to(b, rows, ctx) {
            Ok(Ok(_)) => {},
            Ok(Err(e)) => {
                return Err(ctx.error(e.message()));
            },
            Err(reason) => {
                return Err(rows_error(prim, a, b, reason, ctx));
            },
        }
    }
    if a.row_count() != b.row_count() && a.row_count() != 1 && b.row_count() != 1 {
        proof {
            reveal_strlit("");
            assert(""@ =~= Seq::<char>::empty());
        }
        return Err(rows_error(prim, a, b, "", ctx));
    }
    Ok(())
}

/// The rows that one aligned argument gives, as `fixed_row` describes.
#[verifier::rlimit(60)]
fn one_fixed_row(v: &Value, is_empty: bool) -> (row: FixedRow)
    requires
        v@.wf(),
    ensures
        row@ == fixed_row(v@, is_empty),
        is_empty && v@.row_count() != 1 ==> v@.row_count() + 1 <= usize::MAX,
{
    let shape = v.shape();
    if v.row_count() == 1 {
        let mut c = v.duplicate();
        if shape.len() > 0 {
            let mut rest: Vec<usize> = Vec::new();
            let mut i: usize = 1;
            while i < shape.len()
                invariant
                    1 <= i <= shape.len(),
                    rest@ == shape@.subrange(1, i as int),
                decreases shape.len() - i,
            {
                rest.push(shape[i]);
                i += 1;
                assert(rest@ =~= shape@.subrange(1, i as int));
            }
            assert(rest@ =~= shape@.skip(1));
            proof {
                lemma_elements_skip(shape@, 0);
                assert(shape@.skip(0) =~= shape@);
                lemma_fits_skip(shape@, 1);
                assert(1 * elements(shape@.skip(1)) == elements(shape@.skip(1)))
                    by (nonlinear_arith);
            }
            c.set_shape(rest);
        }
        return FixedRow::Constant(c);
    }
    let n: usize = shape[0];
    proof {
        lemma_elements_skip(shape@, 0);
        assert(shape@.skip(0) =~= shape@);
        lemma_fits_skip(shape@, 1);
    }
    let len: usize = suffix_elements(shape.as_slice(), 1);
    let total: usize = v.data_len();
    let mut rows: Vec<Value> = Vec::new();
    let mut r: usize = 0;
    while r < n
        invariant
            r <= n,
            total == n * len,
            v@.wf(),
            shape@ == v@.shape(),
            shape@.len() > 0,
            n == shape@[0],
            len == elements(shape@.skip(1)),
            fits(shape@.skip(1)),
            v@.data_len() == n * len,
            rows@.len() == r,
            forall|j: int| 0 <= j < r ==> (#[trigger] rows@[j])@ == v@.row(j),
        decreases n - r,
    {
        proof {
            crate::array::lemma_row_bounds(n as int, len as int, r as int);
        }
        let mut row_shape: Vec<usize> = Vec::new();
        let mut i: usize = 1;
        while i < shape.len()
            invariant
                1 <= i <= shape.len(),
                row_shape@ == shape@.subrange(1, i as int),
            decreases shape.len() - i,
        {
            row_shape.push(shape[i]);
            i += 1;
            assert(row_shape@ =~= shape@.subrange(1, i as int));
        }
        assert(row_shape@ =~= shape@.skip(1));
        rows.push(v.part(r * len, r * len + len, row_shape));
        r += 1;
    }
    assert(value_views(rows@) =~= Seq::new(v@.row_count(), |i: int| v@.row(i)));
    if is_empty {
        let mut row_shape: Vec<usize> = Vec::new();
        let mut i: usize = 1;
        while i < shape.len()
            invariant
                1 <= i <= shape.len(),
                row_shape@ == shape@.subrange(1, i as int),
            decreases shape.len() - i,
        {
            row_shape.push(shape[i]);
            i += 1;
            assert(row_shape@ =~= shape@.subrange(1, i as int));
        }
        assert(row_shape@ =~= shape@.skip(1));
        let ghost before = value_views(rows@);
        rows.push(v.proxy(row_shape));
        let held: usize = rows.len();
        assert(value_views(rows@) =~= before.push(proxy_row(v@)));
    }
    FixedRow::Rows(rows)
}

/// Prepares the arguments of an operation that works row by row.
///
/// Each argument is aligned with every later one in turn: an argument that
/// can be given rows, because a fill value of its kind is set, is given as
/// many as the other has; two arguments must then have the same number of
/// rows, or one of them one row. Then each argument gives its rows, as
/// `fixed_view` describes. `prim` names the operation in the message.
#[verifier::rlimit(60)]
pub fn fixed_rows<C: FillContext>(prim: &str, outputs: usize, args: Vec<Value>, ctx: &C) -> (result:
    Result<FixedRowsData, C::Error>)
    requires
        all_wf(value_views(args@)),
    ensures
        match aligned_from(value_views(args@), ctx.fills(), 0, 1) {
            Err(f) => result is Err && plain_failure(
                ctx,
                rows_failure_text(prim@, f),
                result->Err_0,
            ),
            Ok(values) => result is Ok && result->Ok_0@ == fixed_view(values, outputs),
        },
{
    let ghost first = value_views(args@);
    let ghost fills = ctx.fills();
    let mut list = args;
    let n: usize = list.len();
    let mut a: usize = 0;
    while a < n
        invariant
            a <= n,
            n == list@.len(),
            first == value_views(args@),
            fills == ctx.fills(),
            all_wf(value_views(list@)),
            aligned_from(first, fills, 0, 1) == aligned_from(
                value_views(list@),
                fills,
                a as int,
                a + 1,
            ),
        decreases n - a,
    {
        let mut b: usize = a + 1;
        while b < n
            invariant
                a < b <= n,
                n == list@.len(),
                first == value_views(args@),
                fills == ctx.fills(),
                all_wf(value_views(list@)),
                aligned_from(first, fills, 0, 1) == aligned_from(
                    value_views(list@),
                    fills,
                    a as int,
                    b as int,
                ),
            decreases n - b,
        {
            let ghost now = value_views(list@);
            let mut va = list[a].duplicate();
            let mut vb = list[b].duplicate();
            assert(now[a as int] == list@[a as int]@ && now[b as int] == list@[b as int]@);
            assert(now[a as int].wf() && now[b as int].wf());
            match align_pair(prim, &mut va, &mut vb, ctx) {
                Err(e) => {
                    return Err(e);
                },
                Ok(_) => {},
            }
            list.set(a, va);
            list.set(b, vb);
            proof {
                assert(value_views(list@) =~= now.update(a as int, va@).update(b as int, vb@));
                assert(all_wf(value_views(list@))) by {
                    assert forall|i: int| 0 <= i < value_views(list@).len() implies (
                    #[trigger] value_views(list@)[i]).wf() by {
                        if i != a && i != b {
                            assert(value_views(list@)[i] == now[i]);
                        }
                    }
                }
            }
            b += 1;
        }
        a += 1;
    }
    let ghost values = value_views(list@);
    let mut any_empty: bool = false;
    let mut i: usize = 0;
    while i < n
        invariant
            i <= n,
            n == list@.len(),
            values == value_views(list@),
            any_empty == exists|j: int| 0 <= j < i && (#[trigger] values[j]).row_count() == 0,
        decreases n - i,
    {
        assert(values[i as int] == list@[i as int]@);
        if list[i].row_count() == 0 {
            any_empty = true;
        }
        i += 1;
    }
    let is_empty: bool = outputs > 0 && any_empty;
    let mut rows: Vec<FixedRow> = Vec::new();
    let mut metas: Vec<PersistentMeta> = Vec::new();
    let mut most: usize = 0;
    let mut all_one: bool = true;
    let mut all_scalar: bool = true;
    let mut k: usize = 0;
    while k < n
        invariant
            k <= n,
            n == list@.len(),
            values == value_views(list@),
            all_wf(values),
            rows@.len() == k,
            forall|j: int| 0 <= j < k ==> (#[trigger] rows@[j])@ == fixed_row(values[j], is_empty),
            metas@ == metas_of(values, k as int),
            most == most_rows(values, k as int),
            all_one == forall|j: int| 0 <= j < k ==> (#[trigger] values[j]).row_count() == 1,
            all_scalar == forall|j: int| 0 <= j < k ==> (#[trigger] values[j]).rank() == 0,
        decreases n - k,
    {
        assert(values[k as int] == list@[k as int]@);
        assert(values[k as int].wf());
        let v = &list[k];
        if v.rank() != 0 {
            all_scalar = false;
        }
        let count: usize = v.row_count();
        metas.push(v.meta());
        if count != 1 {
            all_one = false;
            if count > most {
                most = count;
            }
        }
        rows.push(one_fixed_row(v, is_empty));
        k += 1;
    }
    let per_meta = PersistentMeta::xor_all(&metas);
    let row_count: usize = if all_one { 1 } else { most };
    let data = FixedRowsData { rows, row_count, is_empty, all_scalar, per_meta };
    proof {
        let want = fixed_view(values, outputs);
        assert(data@.rows =~= want.rows);
        assert(data@.is_empty == want.is_empty);
    }
    Ok(data)
}

} // verus!
