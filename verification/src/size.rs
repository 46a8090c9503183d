//! Size validation: the element count of a shape, guarded against overflow
//! and against a ceiling on the bytes that one array may take.

use vstd::prelude::*;
use vstd::string::StringExecFns;
use crate::context::{plain_failure, ErrorContext};
use crate::text::{decimal, decimal_string};
use crate::shape::{elements, fits, lemma_elements_push, lemma_elements_zero, shape_fits};

verus! {

/// Why a shape cannot be allocated.
#[derive(Clone, Copy, Debug, PartialEq, Eq)]
pub enum SizeError {
    /// The element count, or the byte count, does not fit the machine word.
    Overflow,
    /// The array of this many elements would exceed the byte ceiling.
    TooLarge(usize),
}

/// The most bytes one array may take: 256 MiB where the machine word has
/// 32 bits, 4096 MiB otherwise.
pub open spec fn size_ceiling() -> nat {
    if usize::BITS == 32 {
        256 * 1048576
    } else {
        4096 * 1048576
    }
}

/// What size validation answers for elements of `elem_size` bytes in an
/// array of dimensions `dims`.
pub open spec fn size_outcome(elem_size: nat, dims: Seq<usize>) -> Result<usize, SizeError> {
    let count = elements(dims);
    if count > usize::MAX || count * elem_size > usize::MAX {
        Err(SizeError::Overflow)
    } else if count * elem_size > size_ceiling() {
        Err(SizeError::TooLarge(count as usize))
    } else {
        Ok(count as usize)
    }
}

/// Without a zero dimension, a product of dimensions is at least the
/// product of any leading part of them.
pub proof fn lemma_elements_prefix_le(dims: Seq<usize>, n: int)
    requires
        0 <= n <= dims.len(),
        !dims.contains(0usize),
    ensures
        elements(dims.take(n)) <= elements(dims),
        elements(dims) >= 1,
    decreases dims.len() - n,
{
    lemma_elements_zero(dims);
    if n == dims.len() {
        assert(dims.take(n) =~= dims);
    } else {
        lemma_elements_prefix_le(dims, n + 1);
        assert(dims.take(n + 1) =~= dims.take(n).push(dims[n]));
        lemma_elements_push(dims.take(n), dims[n]);
        assert(dims.contains(dims[n]));
        let p = elements(dims.take(n));
        let d = dims[n] as nat;
        assert(d >= 1);
        assert(p <= p * d) by (nonlinear_arith)
            requires
                d >= 1,
        ;
    }
}

/// The byte ceiling as a machine word.
fn ceiling_bytes() -> (bytes: usize)
    ensures
        bytes == size_ceiling(),
{
    if usize::BITS == 32 {
        256 * 1048576
    } else {
        4096 * 1048576
    }
}

/// Computes the element count of an array of dimensions `sizes` whose
/// elements take `size` bytes each.
///
/// A zero dimension gives `Ok(0)` whatever the other dimensions are. A
/// count or byte total beyond the machine word gives `Overflow`; a byte
/// total beyond the ceiling gives `TooLarge` with the count.
pub fn validate_size_impl(size: usize, sizes: &[usize]) -> (result: Result<usize, SizeError>)
    ensures
        result == size_outcome(size as nat, sizes@),
        sizes@.contains(0usize) ==> result == Ok::<usize, SizeError>(0),
{
    let ghost dims = sizes@;
    proof {
        lemma_elements_zero(dims);
    }
    let mut i: usize = 0;
    while i < sizes.len()
        invariant
            i <= sizes.len(),
            dims == sizes@,
            forall|j: int| 0 <= j < i ==> dims[j] != 0,
        decreases sizes.len() - i,
    {
        if sizes[i] == 0 {
            assert(dims.contains(0usize));
            proof {
                lemma_elements_zero(dims);
            }
            assert(0nat * (size as nat) == 0) by (nonlinear_arith);
            return Ok(0);
        }
        i += 1;
    }
    assert(!dims.contains(0usize));
    let mut count: usize = 1;
    let mut k: usize = 0;
    assert(dims.take(0) =~= Seq::<usize>::empty());
    while k < sizes.len()
        invariant
            k <= sizes.len(),
            dims == sizes@,
            !dims.contains(0usize),
            count == elements(dims.take(k as int)),
        decreases sizes.len() - k,
    {
        proof {
            assert(dims.take(k + 1) =~= dims.take(k as int).push(dims[k as int]));
            lemma_elements_push(dims.take(k as int), dims[k as int]);
            lemma_elements_prefix_le(dims, k + 1);
        }
        match count.checked_mul(sizes[k]) {
            Some(next) => {
                count = next;
            },
            None => {
                return Err(SizeError::Overflow);
            },
        }
        k += 1;
    }
    assert(dims.take(k as int) =~= dims);
    match count.checked_mul(size) {
        None => Err(SizeError::Overflow),
        Some(bytes) => {
            if bytes > ceiling_bytes() {
                Err(SizeError::TooLarge(count))
            } else {
                Ok(count)
            }
        },
    }
}

/// Size validation never shrinks a count when a dimension of at least one
/// is added at any place: if both shapes validate, the longer one's count
/// is no smaller.
pub proof fn lemma_validate_size_monotonic(elem_size: nat, dims: Seq<usize>, at: int, d: usize)
    requires
        0 <= at <= dims.len(),
        d >= 1,
        size_outcome(elem_size, dims) is Ok,
        size_outcome(elem_size, dims.insert(at, d)) is Ok,
    ensures
        size_outcome(elem_size, dims.insert(at, d))->Ok_0 >= size_outcome(elem_size, dims)->Ok_0,
{
    let front = dims.take(at);
    let back = dims.skip(at);
    assert(dims =~= front + back);
    assert(dims.insert(at, d) =~= front.push(d) + back);
    crate::shape::lemma_elements_concat(front, back);
    crate::shape::lemma_elements_concat(front.push(d), back);
    lemma_elements_push(front, d);
    let p = elements(front);
    let q = elements(back);
    let dn = d as nat;
    assert(p * q <= (p * dn) * q) by (nonlinear_arith)
        requires
            dn >= 1,
    ;
}

/// A shape with a dimension of zero has no elements, whatever its other
/// dimensions are, and is never refused.
pub proof fn lemma_zero_dimension(elem_size: nat, dims: Seq<usize>)
    requires
        dims.contains(0usize),
    ensures
        size_outcome(elem_size, dims) == Ok::<usize, SizeError>(0usize),
{
    lemma_elements_zero(dims);
    assert(0nat * elem_size == 0) by (nonlinear_arith);
}

/// What size validation answers for an array that is to be built: the
/// dimensions must fit the machine word at every depth, and then pass
/// `size_outcome`.
pub open spec fn alloc_outcome(elem_size: nat, dims: Seq<usize>) -> Result<usize, SizeError> {
    if !fits(dims) {
        Err(SizeError::Overflow)
    } else {
        size_outcome(elem_size, dims)
    }
}

/// Validates the dimensions of an array that is to be built, with
/// elements of `size` bytes: `Overflow` where a row length at some depth
/// does not fit the machine word, else as `validate_size_impl`.
pub fn validate_shape(size: usize, sizes: &[usize]) -> (result: Result<usize, SizeError>)
    ensures
        result == alloc_outcome(size as nat, sizes@),
{
    if !shape_fits(sizes) {
        return Err(SizeError::Overflow);
    }
    validate_size_impl(size, sizes)
}

/// The message of a size error.
pub open spec fn size_error_text(e: SizeError) -> Seq<char> {
    match e {
        SizeError::Overflow => "Array size calculation overflowed"@,
        SizeError::TooLarge(n) => "Array of "@ + decimal(n as nat) + " elements would be too large"@,
    }
}

impl SizeError {
    /// The message of the error.
    pub fn message(&self) -> (msg: String)
        ensures
            msg@ == size_error_text(*self),
    {
        match self {
            SizeError::Overflow => String::from_str("Array size calculation overflowed"),
            SizeError::TooLarge(n) => {
                let mut msg = String::from_str("Array of ");
                let count = decimal_string(*n);
                msg.append(count.as_str());
                msg.append(" elements would be too large");
                msg
            },
        }
    }
}

/// Computes the element count of an array of elements of the type `T`
/// with the dimensions `sizes`, as `validate_size_impl` does for the size
/// of `T`; a refusal becomes the error that `ctx` makes of its message.
pub fn validate_size<T, C: ErrorContext>(sizes: &[usize], ctx: &C) -> (result: Result<
    usize,
    C::Error,
>)
    ensures
        match size_outcome(vstd::layout::size_of::<T>(), sizes@) {
            Ok(n) => result == Ok::<usize, C::Error>(n),
            Err(e) => result is Err && plain_failure(ctx, size_error_text(e), result->Err_0),
        },
        sizes@.contains(0usize) ==> result == Ok::<usize, C::Error>(0),
{
    match validate_size_impl(core::mem::size_of::<T>(), sizes) {
        Ok(n) => Ok(n),
        Err(e) => Err(ctx.error(e.message())),
    }
}

} // verus!
