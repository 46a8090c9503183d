//! What the array engine asks of its surroundings: a way to report an
//! error, and the fill values that are set.

use vstd::prelude::*;
use crate::array::{Array, ArrayView, PersistentMeta};

verus! {

/// A number: the bit pattern of a double-precision float.
#[derive(Clone, Copy, Debug, PartialEq, Eq)]
pub struct Num {
    pub bits: u64,
}

/// A complex number: the bit patterns of its real and imaginary parts.
#[derive(Clone, Copy, Debug, PartialEq, Eq)]
pub struct Complex {
    pub re: u64,
    pub im: u64,
}

/// A boxed value: the handle under which the runtime keeps the value.
#[derive(Clone, Copy, Debug, PartialEq, Eq)]
pub struct Boxed {
    pub id: usize,
}

/// The scalar fill value that is set for each kind of element, if any.
#[derive(Clone, Copy, Debug, PartialEq, Eq)]
pub struct Fills {
    pub num: Option<Num>,
    pub byte: Option<u8>,
    pub complex: Option<Complex>,
    pub character: Option<char>,
    pub boxed: Option<Boxed>,
}

/// The reason that is given where no fill value is set.
pub open spec fn no_fill_text() -> Seq<char> {
    ". No fill is set."@
}

/// The answer to a request for a fill value, with the reason as text.
pub open spec fn fill_answer<T>(r: Result<T, &'static str>) -> Result<T, Seq<char>> {
    match r {
        Ok(v) => Ok(v),
        Err(e) => Err(e@),
    }
}

/// The answer to a request for an array fill value, as a view, with the
/// reason as text.
pub open spec fn array_answer<T>(r: Result<Array<T>, &'static str>) -> Result<
    ArrayView<T>,
    Seq<char>,
> {
    match r {
        Ok(a) => Ok(a@),
        Err(e) => Err(e@),
    }
}

/// The scalar fill value of a kind among `fills` as an array of rank zero.
pub open spec fn scalar_array_fill<T: ArrayValue>(fills: Fills) -> Result<ArrayView<T>, Seq<char>> {
    match T::fill_from(fills) {
        Ok(v) => Ok(
            ArrayView { shape: Seq::<usize>::empty(), data: seq![v], meta: PersistentMeta::empty() },
        ),
        Err(e) => Err(e),
    }
}

/// A kind of array element.
pub trait ArrayValue: Copy {
    /// The scalar fill value of this kind among `fills`, or the reason why
    /// there is none.
    spec fn fill_from(fills: Fills) -> Result<Self, Seq<char>>;

    /// The element that stands in the rows of an empty array.
    spec fn proxy_value() -> Self;

    fn get_scalar_fill(fills: &Fills) -> (r: Result<Self, &'static str>)
        ensures
            fill_answer(r) == Self::fill_from(*fills),
    ;

    fn proxy() -> (p: Self)
        ensures
            p == Self::proxy_value(),
    ;
}

impl ArrayValue for Num {
    open spec fn fill_from(fills: Fills) -> Result<Self, Seq<char>> {
        match fills.num {
            Some(v) => Ok(v),
            None => Err(no_fill_text()),
        }
    }

    open spec fn proxy_value() -> Self {
        Num { bits: 0 }
    }

    fn get_scalar_fill(fills: &Fills) -> (r: Result<Self, &'static str>) {
        match fills.num {
            Some(v) => Ok(v),
            None => Err(". No fill is set."),
        }
    }

    fn proxy() -> (p: Self) {
        Num { bits: 0 }
    }
}

impl ArrayValue for u8 {
    open spec fn fill_from(fills: Fills) -> Result<Self, Seq<char>> {
        match fills.byte {
            Some(v) => Ok(v),
            None => Err(no_fill_text()),
        }
    }

    open spec fn proxy_value() -> Self {
        0u8
    }

    fn get_scalar_fill(fills: &Fills) -> (r: Result<Self, &'static str>) {
        match fills.byte {
            Some(v) => Ok(v),
            None => Err(". No fill is set."),
        }
    }

    fn proxy() -> (p: Self) {
        0
    }
}

impl ArrayValue for Complex {
    open spec fn fill_from(fills: Fills) -> Result<Self, Seq<char>> {
        match fills.complex {
            Some(v) => Ok(v),
            None => Err(no_fill_text()),
        }
    }

    open spec fn proxy_value() -> Self {
        Complex { re: 0, im: 0 }
    }

    fn get_scalar_fill(fills: &Fills) -> (r: Result<Self, &'static str>) {
        match fills.complex {
            Some(v) => Ok(v),
            None => Err(". No fill is set."),
        }
    }

    fn proxy() -> (p: Self) {
        Complex { re: 0, im: 0 }
    }
}

impl ArrayValue for char {
    open spec fn fill_from(fills: Fills) -> Result<Self, Seq<char>> {
        match fills.character {
            Some(v) => Ok(v),
            None => Err(no_fill_text()),
        }
    }

    open spec fn proxy_value() -> Self {
        ' '
    }

    fn get_scalar_fill(fills: &Fills) -> (r: Result<Self, &'static str>) {
        match fills.character {
            Some(v) => Ok(v),
            None => Err(". No fill is set."),
        }
    }

    fn proxy() -> (p: Self) {
        ' '
    }
}

impl ArrayValue for Boxed {
    open spec fn fill_from(fills: Fills) -> Result<Self, Seq<char>> {
        match fills.boxed {
            Some(v) => Ok(v),
            None => Err(no_fill_text()),
        }
    }

    open spec fn proxy_value() -> Self {
        Boxed { id: 0 }
    }

    fn get_scalar_fill(fills: &Fills) -> (r: Result<Self, &'static str>) {
        match fills.boxed {
            Some(v) => Ok(v),
            None => Err(". No fill is set."),
        }
    }

    fn proxy() -> (p: Self) {
        Boxed { id: 0 }
    }
}

/// An error that tells whether it came of a failed fill.
pub trait FillError {
    /// Whether the error is of the fill class.
    spec fn fill_class(&self) -> bool;

    fn is_fill(&self) -> (b: bool)
        ensures
            b == self.fill_class(),
    ;
}

impl FillError for () {
    open spec fn fill_class(&self) -> bool {
        false
    }

    fn is_fill(&self) -> (b: bool) {
        false
    }
}

/// Something that can make an error of a message.
pub trait ErrorContext {
    type Error: FillError;

    /// Whether `e` is an error that this context makes of the message `msg`.
    spec fn reports(&self, msg: Seq<char>, e: Self::Error) -> bool;

    fn error(&self, msg: String) -> (e: Self::Error)
        ensures
            self.reports(msg@, e),
            !e.fill_class(),
    ;
}

/// The context that drops every message.
pub struct IgnoreError;

impl ErrorContext for IgnoreError {
    type Error = ();

    open spec fn reports(&self, msg: Seq<char>, e: ()) -> bool {
        true
    }

    fn error(&self, msg: String) -> (e: ()) {
    }
}

/// A context that also knows the fill values that are set.
pub trait FillContext: ErrorContext {
    /// The fill values that are set.
    spec fn fills(&self) -> Fills;

    /// Whether `e` is the error `raw` marked as one of the fill class.
    spec fn marks_fill(raw: Self::Error, e: Self::Error) -> bool;

    fn scalar_fill<T: ArrayValue>(&self) -> (r: Result<T, &'static str>)
        ensures
            fill_answer(r) == T::fill_from(self.fills()),
    ;

    /// The array fill value of a kind of element, or the reason why there
    /// is none.
    fn array_fill<T: ArrayValue>(&self) -> (r: Result<Array<T>, &'static str>)
        ensures
            r is Ok ==> r->Ok_0@.wf(),
    ;

    fn fill_error(error: Self::Error) -> (e: Self::Error)
        ensures
            Self::marks_fill(error, e),
            e.fill_class(),
    ;

    fn is_fill_error(error: &Self::Error) -> (b: bool)
        ensures
            b == error.fill_class(),
    ;
}

/// Whether `e` is the fill-class error that `ctx` makes of the message `msg`.
pub open spec fn fill_failure<C: FillContext>(ctx: &C, msg: Seq<char>, e: C::Error) -> bool {
    e.fill_class() && exists|raw: C::Error| #[trigger]
        ctx.reports(msg, raw) && C::marks_fill(raw, e)
}

/// Whether `e` is the plain error that `ctx` makes of the message `msg`.
pub open spec fn plain_failure<C: ErrorContext>(ctx: &C, msg: Seq<char>, e: C::Error) -> bool {
    !e.fill_class() && ctx.reports(msg, e)
}

/// Makes the fill-class error of a message.
pub fn make_fill_error<C: FillContext>(ctx: &C, msg: String) -> (e: C::Error)
    ensures
        fill_failure(ctx, msg@, e),
{
    let raw = ctx.error(msg);
    let ghost witness = raw;
    let e = C::fill_error(raw);
    assert(ctx.reports(msg@, witness) && C::marks_fill(witness, e));
    e
}

} // verus!
