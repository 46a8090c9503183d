//! Values: an array of one of the five kinds of element.

use vstd::prelude::*;
use vstd::string::StringExecFns;
use crate::array::{views, Array, ArrayView, PersistentMeta};
use crate::context::{plain_failure, ArrayValue, Boxed, Complex, ErrorContext, Num};
use crate::num::{bits_nat, nat_bits};
use crate::shape::{elements, fits, lemma_elements_skip};
use crate::text::{shape_string, shape_text};

verus! {

/// A value of the language: an array of numbers, bytes, complex numbers,
/// characters or boxes.
#[derive(Clone, Debug, PartialEq, Eq)]
pub enum Value {
    Num(Array<Num>),
    Byte(Array<u8>),
    Complex(Array<Complex>),
    Char(Array<char>),
    Box(Array<Boxed>),
}

/// The mathematical value of a value.
pub enum ValueView {
    Num(ArrayView<Num>),
    Byte(ArrayView<u8>),
    Complex(ArrayView<Complex>),
    Char(ArrayView<char>),
    Box(ArrayView<Boxed>),
}

impl ValueView {
    /// The shape of the array that the value is.
    pub open spec fn shape(self) -> Seq<usize> {
        match self {
            ValueView::Num(a) => a.shape,
            ValueView::Byte(a) => a.shape,
            ValueView::Complex(a) => a.shape,
            ValueView::Char(a) => a.shape,
            ValueView::Box(a) => a.shape,
        }
    }

    /// The tag of the array that the value is.
    pub open spec fn meta(self) -> PersistentMeta {
        match self {
            ValueView::Num(a) => a.meta,
            ValueView::Byte(a) => a.meta,
            ValueView::Complex(a) => a.meta,
            ValueView::Char(a) => a.meta,
            ValueView::Box(a) => a.meta,
        }
    }

    /// Whether the array that the value is is well formed.
    pub open spec fn wf(self) -> bool {
        match self {
            ValueView::Num(a) => a.wf(),
            ValueView::Byte(a) => a.wf(),
            ValueView::Complex(a) => a.wf(),
            ValueView::Char(a) => a.wf(),
            ValueView::Box(a) => a.wf(),
        }
    }

    /// The number of dimensions.
    pub open spec fn rank(self) -> nat {
        self.shape().len()
    }

    /// The number of rows: the leading dimension, or one for a scalar.
    pub open spec fn row_count(self) -> nat {
        crate::shape::row_count(self.shape())
    }
}

impl View for Value {
    type V = ValueView;

    open spec fn view(&self) -> ValueView {
        match self {
            Value::Num(a) => ValueView::Num(a@),
            Value::Byte(a) => ValueView::Byte(a@),
            Value::Complex(a) => ValueView::Complex(a@),
            Value::Char(a) => ValueView::Char(a@),
            Value::Box(a) => ValueView::Box(a@),
        }
    }
}

/// The number that equals a byte.
pub open spec fn byte_num(b: u8) -> Num {
    Num { bits: nat_bits(b as nat) as u64 }
}

/// An array of bytes as the array of the numbers that equal them.
pub open spec fn as_nums(a: ArrayView<u8>) -> ArrayView<Num> {
    ArrayView { shape: a.shape, data: a.data.map_values(|b: u8| byte_num(b)), meta: a.meta }
}

/// Turns an array of bytes into the array of the numbers that equal them.
pub fn bytes_to_nums(arr: &Array<u8>) -> (nums: Array<Num>)
    ensures
        nums@ == as_nums(arr@),
{
    let mut shape: Vec<usize> = Vec::new();
    crate::array::push_range_slice(&mut shape, arr.shape.as_slice());
    let mut data: Vec<Num> = Vec::new();
    let mut i: usize = 0;
    while i < arr.data.len()
        invariant
            i <= arr.data.len(),
            data@.len() == i,
            forall|j: int| 0 <= j < i ==> data@[j] == byte_num(arr.data@[j]),
        decreases arr.data.len() - i,
    {
        data.push(Num::from_byte(arr.data[i]));
        i += 1;
    }
    assert(shape@ =~= arr.shape@);
    assert(data@ =~= arr.data@.map_values(|b: u8| byte_num(b)));
    Array { shape, data, meta: arr.meta }
}

impl Value {
    /// The shape of the value.
    pub fn shape(&self) -> (shape: &Vec<usize>)
        ensures
            shape@ == self@.shape(),
    {
        match self {
            Value::Num(a) => &a.shape,
            Value::Byte(a) => &a.shape,
            Value::Complex(a) => &a.shape,
            Value::Char(a) => &a.shape,
            Value::Box(a) => &a.shape,
        }
    }

    /// The number of dimensions.
    pub fn rank(&self) -> (rank: usize)
        ensures
            rank == self@.rank(),
    {
        self.shape().len()
    }

    /// The number of rows: the leading dimension, or one for a scalar.
    pub fn row_count(&self) -> (rows: usize)
        ensures
            rows == self@.row_count(),
    {
        let shape = self.shape();
        if shape.len() == 0 {
            1
        } else {
            shape[0]
        }
    }
}

/// The kind of the elements of a value.
#[derive(Clone, Copy, Debug, PartialEq, Eq)]
pub enum Kind {
    Num,
    Byte,
    Complex,
    Char,
    Box,
}

impl ValueView {
    /// The kind of the elements.
    pub open spec fn kind(self) -> Kind {
        match self {
            ValueView::Num(_) => Kind::Num,
            ValueView::Byte(_) => Kind::Byte,
            ValueView::Complex(_) => Kind::Complex,
            ValueView::Char(_) => Kind::Char,
            ValueView::Box(_) => Kind::Box,
        }
    }

    /// The number of elements that the buffer holds.
    pub open spec fn data_len(self) -> nat {
        match self {
            ValueView::Num(a) => a.data.len(),
            ValueView::Byte(a) => a.data.len(),
            ValueView::Complex(a) => a.data.len(),
            ValueView::Char(a) => a.data.len(),
            ValueView::Box(a) => a.data.len(),
        }
    }

    /// The value with another shape over the same elements.
    pub open spec fn with_shape(self, shape: Seq<usize>) -> ValueView {
        match self {
            ValueView::Num(a) => ValueView::Num(a.with_shape(shape)),
            ValueView::Byte(a) => ValueView::Byte(a.with_shape(shape)),
            ValueView::Complex(a) => ValueView::Complex(a.with_shape(shape)),
            ValueView::Char(a) => ValueView::Char(a.with_shape(shape)),
            ValueView::Box(a) => ValueView::Box(a.with_shape(shape)),
        }
    }

    /// The value with another tag.
    pub open spec fn with_meta(self, meta: PersistentMeta) -> ValueView {
        match self {
            ValueView::Num(a) => ValueView::Num(a.with_meta(meta)),
            ValueView::Byte(a) => ValueView::Byte(a.with_meta(meta)),
            ValueView::Complex(a) => ValueView::Complex(a.with_meta(meta)),
            ValueView::Char(a) => ValueView::Char(a.with_meta(meta)),
            ValueView::Box(a) => ValueView::Box(a.with_meta(meta)),
        }
    }

    /// The elements from `start` to `end` as a value of the shape `shape`.
    pub open spec fn part(self, start: int, end: int, shape: Seq<usize>) -> ValueView {
        match self {
            ValueView::Num(a) => ValueView::Num(a.part(start, end, shape)),
            ValueView::Byte(a) => ValueView::Byte(a.part(start, end, shape)),
            ValueView::Complex(a) => ValueView::Complex(a.part(start, end, shape)),
            ValueView::Char(a) => ValueView::Char(a.part(start, end, shape)),
            ValueView::Box(a) => ValueView::Box(a.part(start, end, shape)),
        }
    }

    /// The `i`-th row as a value of its own.
    pub open spec fn row(self, i: int) -> ValueView {
        let len = crate::shape::row_len(self.shape());
        self.part(i * len, (i + 1) * len, self.shape().skip(1))
    }

    /// The value of the same kind and of the shape `shape` whose elements
    /// all are the element that stands in for the kind.
    pub open spec fn proxy(self, shape: Seq<usize>) -> ValueView {
        let n = elements(shape);
        let meta = PersistentMeta::empty();
        match self {
            ValueView::Num(_) => ValueView::Num(
                ArrayView {
                    shape,
                    data: crate::array::filled(<Num as ArrayValue>::proxy_value(), n),
                    meta,
                },
            ),
            ValueView::Byte(_) => ValueView::Byte(
                ArrayView {
                    shape,
                    data: crate::array::filled(<u8 as ArrayValue>::proxy_value(), n),
                    meta,
                },
            ),
            ValueView::Complex(_) => ValueView::Complex(
                ArrayView {
                    shape,
                    data: crate::array::filled(<Complex as ArrayValue>::proxy_value(), n),
                    meta,
                },
            ),
            ValueView::Char(_) => ValueView::Char(
                ArrayView {
                    shape,
                    data: crate::array::filled(<char as ArrayValue>::proxy_value(), n),
                    meta,
                },
            ),
            ValueView::Box(_) => ValueView::Box(
                ArrayView {
                    shape,
                    data: crate::array::filled(<Boxed as ArrayValue>::proxy_value(), n),
                    meta,
                },
            ),
        }
    }

    /// The natural numbers that the value holds, if it holds nothing else:
    /// its bytes, or its numbers where each equals a natural number that
    /// the machine word holds.
    pub open spec fn naturals(self) -> Option<Seq<usize>> {
        match self {
            ValueView::Byte(a) => Some(a.data.map_values(|b: u8| b as usize)),
            ValueView::Num(a) => if forall|i: int|
                0 <= i < a.data.len() ==> natural(#[trigger] a.data[i]) is Some {
                Some(a.data.map_values(|n: Num| natural(n)->0))
            } else {
                None
            },
            _ => None,
        }
    }

    /// The natural number that the value is, if it is a scalar that is one.
    pub open spec fn natural(self) -> Option<usize> {
        if self.shape().len() == 0 && self.data_len() == 1 && self.naturals() is Some {
            Some(self.naturals()->0[0])
        } else {
            None
        }
    }
}

/// The natural number that a number equals, if the machine word holds it.
pub open spec fn natural(n: Num) -> Option<usize> {
    match bits_nat(n.bits) {
        Some(v) => if v <= usize::MAX {
            Some(v as usize)
        } else {
            None
        },
        None => None,
    }
}

/// The views of a list of values.
pub open spec fn value_views(vs: Seq<Value>) -> Seq<ValueView> {
    vs.map_values(|v: Value| v@)
}

impl Value {
    /// The kind of the elements.
    pub fn kind(&self) -> (kind: Kind)
        ensures
            kind == self@.kind(),
    {
        match self {
            Value::Num(_) => Kind::Num,
            Value::Byte(_) => Kind::Byte,
            Value::Complex(_) => Kind::Complex,
            Value::Char(_) => Kind::Char,
            Value::Box(_) => Kind::Box,
        }
    }

    /// Whether the value is well formed, as its array is.
    pub fn is_well_formed(&self) -> (ok: bool)
        ensures
            ok == self@.wf(),
    {
        match self {
            Value::Num(a) => a.is_well_formed(),
            Value::Byte(a) => a.is_well_formed(),
            Value::Complex(a) => a.is_well_formed(),
            Value::Char(a) => a.is_well_formed(),
            Value::Box(a) => a.is_well_formed(),
        }
    }

    /// The number of elements.
    pub fn data_len(&self) -> (len: usize)
        ensures
            len == self@.data_len(),
    {
        match self {
            Value::Num(a) => a.data.len(),
            Value::Byte(a) => a.data.len(),
            Value::Complex(a) => a.data.len(),
            Value::Char(a) => a.data.len(),
            Value::Box(a) => a.data.len(),
        }
    }

    /// The tag of the value.
    pub fn meta(&self) -> (meta: PersistentMeta)
        ensures
            meta == self@.meta(),
    {
        match self {
            Value::Num(a) => a.meta,
            Value::Byte(a) => a.meta,
            Value::Complex(a) => a.meta,
            Value::Char(a) => a.meta,
            Value::Box(a) => a.meta,
        }
    }

    /// Gives the value another tag.
    pub fn set_meta(&mut self, meta: PersistentMeta)
        ensures
            final(self)@ == old(self)@.with_meta(meta),
    {
        match self {
            Value::Num(a) => {
                a.meta = meta;
            },
            Value::Byte(a) => {
                a.meta = meta;
            },
            Value::Complex(a) => {
                a.meta = meta;
            },
            Value::Char(a) => {
                a.meta = meta;
            },
            Value::Box(a) => {
                a.meta = meta;
            },
        }
    }

    /// Takes the tag off the value.
    pub fn take_per_meta(&mut self) -> (meta: PersistentMeta)
        ensures
            meta == old(self)@.meta(),
            final(self)@ == old(self)@.with_meta(PersistentMeta::empty()),
    {
        let meta = self.meta();
        self.set_meta(PersistentMeta::new());
        meta
    }

    /// Gives the value another shape over the same elements.
    pub fn set_shape(&mut self, shape: Vec<usize>)
        requires
            elements(shape@) == old(self)@.data_len(),
            fits(shape@),
        ensures
            final(self)@ == old(self)@.with_shape(shape@),
            final(self)@.wf(),
    {
        match self {
            Value::Num(a) => a.set_shape(shape),
            Value::Byte(a) => a.set_shape(shape),
            Value::Complex(a) => a.set_shape(shape),
            Value::Char(a) => a.set_shape(shape),
            Value::Box(a) => a.set_shape(shape),
        }
    }

    /// The elements from `start` to `end` as a value of the shape `shape`.
    pub fn part(&self, start: usize, end: usize, shape: Vec<usize>) -> (v: Value)
        requires
            start <= end <= self@.data_len(),
            elements(shape@) == end - start,
            fits(shape@),
        ensures
            v@ == self@.part(start as int, end as int, shape@),
            v@.wf(),
    {
        match self {
            Value::Num(a) => Value::Num(a.part(start, end, shape)),
            Value::Byte(a) => Value::Byte(a.part(start, end, shape)),
            Value::Complex(a) => Value::Complex(a.part(start, end, shape)),
            Value::Char(a) => Value::Char(a.part(start, end, shape)),
            Value::Box(a) => Value::Box(a.part(start, end, shape)),
        }
    }

    /// A copy of the value.
    pub fn duplicate(&self) -> (v: Value)
        ensures
            v@ == self@,
    {
        match self {
            Value::Num(a) => Value::Num(a.duplicate()),
            Value::Byte(a) => Value::Byte(a.duplicate()),
            Value::Complex(a) => Value::Complex(a.duplicate()),
            Value::Char(a) => Value::Char(a.duplicate()),
            Value::Box(a) => Value::Box(a.duplicate()),
        }
    }

    /// The value of the same kind and of the shape `shape` whose elements
    /// all are the element that stands in for the kind.
    pub fn proxy(&self, shape: Vec<usize>) -> (v: Value)
        requires
            fits(shape@),
        ensures
            v@ == self@.proxy(shape@),
            v@.wf(),
    {
        match self {
            Value::Num(_) => Value::Num(Array::full(shape, <Num as ArrayValue>::proxy())),
            Value::Byte(_) => Value::Byte(Array::full(shape, <u8 as ArrayValue>::proxy())),
            Value::Complex(_) => Value::Complex(
                Array::full(shape, <Complex as ArrayValue>::proxy()),
            ),
            Value::Char(_) => Value::Char(Array::full(shape, <char as ArrayValue>::proxy())),
            Value::Box(_) => Value::Box(Array::full(shape, <Boxed as ArrayValue>::proxy())),
        }
    }

    /// The natural numbers that the value holds, or the error that `ctx`
    /// makes of the message `requirement` where it holds anything else.
    pub fn as_natural_array<C: ErrorContext>(&self, ctx: &C, requirement: &str) -> (result: Result<
        Array<usize>,
        C::Error,
    >)
        requires
            self@.wf(),
        ensures
            match self@.naturals() {
                Some(data) => result is Ok && result->Ok_0@.data == data && result->Ok_0@.shape
                    == self@.shape() && result->Ok_0@.wf(),
                None => result is Err && plain_failure(ctx, requirement@, result->Err_0),
            },
    {
        let mut data: Vec<usize> = Vec::new();
        match self {
            Value::Byte(a) => {
                let mut i: usize = 0;
                while i < a.data.len()
                    invariant
                        i <= a.data.len(),
                        data@.len() == i,
                        forall|j: int| 0 <= j < i ==> data@[j] == a.data@[j] as usize,
                    decreases a.data.len() - i,
                {
                    data.push(a.data[i] as usize);
                    i += 1;
                }
                assert(data@ =~= a.data@.map_values(|b: u8| b as usize));
                Ok(Array { shape: copy_dims(&a.shape), data, meta: PersistentMeta::new() })
            },
            Value::Num(a) => {
                let mut i: usize = 0;
                while i < a.data.len()
                    invariant
                        i <= a.data.len(),
                        data@.len() == i,
                        self@ == ValueView::Num(a@),
                        forall|j: int| 0 <= j < i ==> natural(#[trigger] a.data@[j]) == Some(data@[j]),
                    decreases a.data.len() - i,
                {
                    match a.data[i].as_nat() {
                        Some(v) => {
                            data.push(v);
                        },
                        None => {
                            assert(!(natural(a.data@[i as int]) is Some));
                            return Err(ctx.error(String::from_str(requirement)));
                        },
                    }
                    i += 1;
                }
                assert(data@ =~= a.data@.map_values(|n: Num| natural(n)->0));
                Ok(Array { shape: copy_dims(&a.shape), data, meta: PersistentMeta::new() })
            },
            _ => Err(ctx.error(String::from_str(requirement))),
        }
    }

    /// The natural number that the value is, or the error that `ctx` makes
    /// of the message `requirement` where it is not a scalar that is one.
    pub fn as_nat<C: ErrorContext>(&self, ctx: &C, requirement: &str) -> (result: Result<
        usize,
        C::Error,
    >)
        requires
            self@.wf(),
        ensures
            match self@.natural() {
                Some(n) => result == Ok::<usize, C::Error>(n),
                None => result is Err && plain_failure(ctx, requirement@, result->Err_0),
            },
    {
        if self.shape().len() != 0 || self.data_len() != 1 {
            return Err(ctx.error(String::from_str(requirement)));
        }
        match self.as_natural_array(ctx, requirement) {
            Ok(arr) => Ok(arr.data[0]),
            Err(e) => Err(e),
        }
    }
}

/// A copy of dimensions.
pub fn copy_dims(dims: &Vec<usize>) -> (copy: Vec<usize>)
    ensures
        copy@ == dims@,
{
    let mut copy: Vec<usize> = Vec::new();
    crate::array::push_range_slice(&mut copy, dims.as_slice());
    assert(copy@ =~= dims@);
    copy
}

impl ValueView {
    /// The value with the elements of another value of the same kind after
    /// its own.
    pub open spec fn appended(self, other: ValueView) -> ValueView {
        match (self, other) {
            (ValueView::Num(a), ValueView::Num(b)) => ValueView::Num(
                ArrayView { shape: a.shape, data: a.data + b.data, meta: a.meta },
            ),
            (ValueView::Byte(a), ValueView::Byte(b)) => ValueView::Byte(
                ArrayView { shape: a.shape, data: a.data + b.data, meta: a.meta },
            ),
            (ValueView::Complex(a), ValueView::Complex(b)) => ValueView::Complex(
                ArrayView { shape: a.shape, data: a.data + b.data, meta: a.meta },
            ),
            (ValueView::Char(a), ValueView::Char(b)) => ValueView::Char(
                ArrayView { shape: a.shape, data: a.data + b.data, meta: a.meta },
            ),
            (ValueView::Box(a), ValueView::Box(b)) => ValueView::Box(
                ArrayView { shape: a.shape, data: a.data + b.data, meta: a.meta },
            ),
            _ => self,
        }
    }
}

/// The first of a list of values with the elements of the next `k - 1`
/// values after its own.
pub open spec fn appended_all(vs: Seq<ValueView>, k: int) -> ValueView
    decreases k,
{
    if k <= 1 {
        vs[0]
    } else {
        appended_all(vs, k - 1).appended(vs[k - 1])
    }
}

/// The place of the first value that is of another kind or shape than the
/// first of the list, or the length of the list.
pub open spec fn first_odd(vs: Seq<ValueView>, k: int) -> int
    decreases k,
{
    if k <= 0 {
        0
    } else {
        let before = first_odd(vs, k - 1);
        if before < k - 1 {
            before
        } else if vs[k - 1].kind() == vs[0].kind() && vs[k - 1].shape() == vs[0].shape() {
            k
        } else {
            k - 1
        }
    }
}

/// The value whose rows are the values of a list, which all are of one
/// kind and shape; from no values, bytes without rows. It carries no tag.
pub open spec fn joined_value(vs: Seq<ValueView>) -> ValueView {
    if vs.len() == 0 {
        ValueView::Byte(
            ArrayView { shape: seq![0usize], data: Seq::empty(), meta: PersistentMeta::empty() },
        )
    } else {
        appended_all(vs, vs.len() as int).with_shape(
            seq![vs.len() as usize] + vs[0].shape(),
        ).with_meta(PersistentMeta::empty())
    }
}

/// The message for values of different kinds that are to be rows of one.
pub open spec fn kinds_text() -> Seq<char> {
    "Cannot combine arrays of different types"@
}

/// The message for values of different shapes that are to be rows of one.
pub open spec fn shapes_text(a: Seq<usize>, b: Seq<usize>) -> Seq<char> {
    "Cannot combine arrays with shapes "@ + shape_text(a) + " and "@ + shape_text(b)
}

/// What making one value of a list of rows gives: the value, or the
/// message for the first row that does not go with the first.
pub open spec fn join_outcome(vs: Seq<ValueView>) -> Result<ValueView, Seq<char>> {
    let odd = first_odd(vs, vs.len() as int);
    if odd >= vs.len() {
        Ok(joined_value(vs))
    } else if vs[odd].kind() != vs[0].kind() {
        Err(kinds_text())
    } else {
        Err(shapes_text(vs[0].shape(), vs[odd].shape()))
    }
}

/// The elements of the first `k` of values of one kind and shape are `k`
/// times the elements of one.
pub proof fn lemma_appended_len(vs: Seq<ValueView>, k: int)
    requires
        1 <= k <= vs.len(),
        first_odd(vs, k) == k,
        forall|i: int| 0 <= i < vs.len() ==> (#[trigger] vs[i]).wf(),
    ensures
        appended_all(vs, k).data_len() == k * elements(vs[0].shape()),
        appended_all(vs, k).kind() == vs[0].kind(),
        appended_all(vs, k).shape() == vs[0].shape(),
    decreases k,
{
    let e = elements(vs[0].shape());
    assert(vs[0].wf());
    if k > 1 {
        assert(first_odd(vs, k - 1) == k - 1);
        lemma_appended_len(vs, k - 1);
        assert(vs[k - 1].wf());
        assert((k - 1) * e + e == k * e) by (nonlinear_arith);
    } else {
        assert(1 * e == e) by (nonlinear_arith);
    }
}

impl Value {
    /// Puts the elements of another value of the same kind after its own.
    pub fn append(&mut self, other: &Value)
        requires
            old(self)@.kind() == other@.kind(),
        ensures
            final(self)@ == old(self)@.appended(other@),
    {
        match (self, other) {
            (Value::Num(a), Value::Num(b)) => {
                push_all(&mut a.data, &b.data);
            },
            (Value::Byte(a), Value::Byte(b)) => {
                push_all(&mut a.data, &b.data);
            },
            (Value::Complex(a), Value::Complex(b)) => {
                push_all(&mut a.data, &b.data);
            },
            (Value::Char(a), Value::Char(b)) => {
                push_all(&mut a.data, &b.data);
            },
            (Value::Box(a), Value::Box(b)) => {
                push_all(&mut a.data, &b.data);
            },
            _ => {},
        }
    }

    /// Makes the value whose rows are the values of `values`, which all
    /// must be of the kind and the shape of the first.
    #[verifier::rlimit(60)]
    pub fn from_row_values<C: ErrorContext>(values: &Vec<Value>, ctx: &C) -> (result: Result<
        Value,
        C::Error,
    >)
        requires
            forall|i: int| 0 <= i < values@.len() ==> (#[trigger] values@[i])@.wf(),
        ensures
            match join_outcome(value_views(values@)) {
                Ok(v) => result is Ok && result->Ok_0@ == v && v.wf(),
                Err(msg) => result is Err && plain_failure(ctx, msg, result->Err_0),
            },
    {
        let ghost vs = value_views(values@);
        if values.len() == 0 {
            let mut shape: Vec<usize> = Vec::new();
            shape.push(0);
            proof {
                crate::array::lemma_elements_one(0);
                assert(shape@ =~= seq![0usize]);
                assert forall|k: int| 0 <= k <= shape@.len() implies #[trigger] elements(
                    shape@.skip(k),
                ) <= usize::MAX by {
                    if k == 0 {
                        assert(shape@.skip(0) =~= shape@);
                    } else {
                        assert(shape@.skip(k) =~= Seq::<usize>::empty());
                    }
                }
            }
            let data: Vec<u8> = Vec::new();
            return Ok(Value::Byte(Array { shape, data, meta: PersistentMeta::new() }));
        }
        let mut acc = values[0].duplicate();
        assert(vs[0] == values@[0]@);
        assert(first_odd(vs, 0) == 0);
        assert(first_odd(vs, 1) == 1);
        let mut i: usize = 1;
        while i < values.len()
            invariant
                1 <= i <= values.len(),
                vs == value_views(values@),
                forall|j: int| 0 <= j < values@.len() ==> (#[trigger] values@[j])@.wf(),
                first_odd(vs, i as int) == i,
                acc@ == appended_all(vs, i as int),
            decreases values.len() - i,
        {
            assert(vs[i as int] == values@[i as int]@);
            assert(vs[0] == values@[0]@);
            proof {
                assert forall|j: int| 0 <= j < vs.len() implies (#[trigger] vs[j]).wf() by {
                    assert(vs[j] == values@[j]@);
                }
                lemma_appended_len(vs, i as int);
            }
            if !same_kind(values[i].kind(), values[0].kind()) {
                proof {
                    lemma_first_odd_stays(vs, i as int, vs.len() as int);
                }
                return Err(ctx.error(String::from_str("Cannot combine arrays of different types")));
            }
            if !same_shape(values[i].shape(), values[0].shape()) {
                proof {
                    lemma_first_odd_stays(vs, i as int, vs.len() as int);
                }
                let mut msg = String::from_str("Cannot combine arrays with shapes ");
                let a = shape_string(values[0].shape().as_slice());
                msg.append(a.as_str());
                msg.append(" and ");
                let b = shape_string(values[i].shape().as_slice());
                msg.append(b.as_str());
                return Err(ctx.error(msg));
            }
            acc.append(&values[i]);
            i += 1;
        }
        let mut shape: Vec<usize> = Vec::new();
        shape.push(values.len());
        crate::array::push_range_slice(&mut shape, values[0].shape().as_slice());
        let held: usize = acc.data_len();
        proof {
            assert forall|j: int| 0 <= j < vs.len() implies (#[trigger] vs[j]).wf() by {
                assert(vs[j] == values@[j]@);
            }
            lemma_appended_len(vs, vs.len() as int);
            let inner = vs[0].shape();
            assert(shape@ =~= seq![values.len()] + inner);
            lemma_elements_skip(shape@, 0);
            assert(shape@.skip(0) =~= shape@);
            assert(shape@.skip(1) =~= inner);
            assert(vs[0].wf());
            assert(fits(inner));
            assert forall|k: int| 0 <= k <= shape@.len() implies #[trigger] elements(
                shape@.skip(k),
            ) <= usize::MAX by {
                if k > 0 {
                    assert(shape@.skip(k) =~= inner.skip(k - 1));
                    assert(elements(inner.skip(k - 1)) <= usize::MAX);
                }
            }
        }
        acc.set_shape(shape);
        acc.set_meta(PersistentMeta::new());
        Ok(acc)
    }
}

/// Once a value is odd, the first odd value stays where it is.
pub proof fn lemma_first_odd_stays(vs: Seq<ValueView>, k: int, n: int)
    requires
        0 <= k < n <= vs.len(),
        first_odd(vs, k) == k,
        !(vs[k].kind() == vs[0].kind() && vs[k].shape() == vs[0].shape()),
    ensures
        first_odd(vs, n) == k,
    decreases n - k,
{
    if k + 1 < n {
        lemma_first_odd_stays(vs, k, n - 1);
    } else {
        assert(first_odd(vs, k + 1) == k);
    }
}

fn same_kind(a: Kind, b: Kind) -> (same: bool)
    ensures
        same == (a == b),
{
    match (a, b) {
        (Kind::Num, Kind::Num) => true,
        (Kind::Byte, Kind::Byte) => true,
        (Kind::Complex, Kind::Complex) => true,
        (Kind::Char, Kind::Char) => true,
        (Kind::Box, Kind::Box) => true,
        _ => false,
    }
}

/// Whether two lists of dimensions are the same.
pub fn same_shape(a: &Vec<usize>, b: &Vec<usize>) -> (same: bool)
    ensures
        same == (a@ == b@),
{
    if a.len() != b.len() {
        return false;
    }
    let mut i: usize = 0;
    while i < a.len()
        invariant
            i <= a.len(),
            a.len() == b.len(),
            forall|j: int| 0 <= j < i ==> a@[j] == b@[j],
        decreases a.len() - i,
    {
        if a[i] != b[i] {
            return false;
        }
        i += 1;
    }
    assert(a@ =~= b@);
    true
}

fn push_all<T: Copy>(out: &mut Vec<T>, more: &Vec<T>)
    ensures
        final(out)@ == old(out)@ + more@,
{
    let ghost before = out@;
    let mut i: usize = 0;
    assert(out@ =~= before + more@.take(0));
    while i < more.len()
        invariant
            i <= more.len(),
            out@ == before + more@.take(i as int),
        decreases more.len() - i,
    {
        out.push(more[i]);
        i += 1;
        assert(out@ =~= before + more@.take(i as int));
    }
    assert(more@.take(i as int) =~= more@);
}

} // verus!
