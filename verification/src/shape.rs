//! Shapes: the ordered dimension sizes of an array, outermost first.

use vstd::prelude::*;

verus! {

/// The number of elements that a shape describes: the product of its
/// dimensions. The empty shape (a scalar) describes one element.
pub open spec fn elements(dims: Seq<usize>) -> nat
    decreases dims.len(),
{
    if dims.len() == 0 {
        1
    } else {
        (dims[0] as nat) * elements(dims.skip(1))
    }
}

/// The number of rows of a shape: its leading dimension, or one for a scalar.
pub open spec fn row_count(dims: Seq<usize>) -> nat {
    if dims.len() == 0 {
        1
    } else {
        dims[0] as nat
    }
}

/// The number of elements in one row of a shape.
pub open spec fn row_len(dims: Seq<usize>) -> nat {
    if dims.len() == 0 {
        1
    } else {
        elements(dims.skip(1))
    }
}

/// Whether two shapes agree dimension by dimension over the shorter one.
pub open spec fn prefixes_match(a: Seq<usize>, b: Seq<usize>) -> bool {
    forall|i: int| 0 <= i < a.len() && i < b.len() ==> a[i] == b[i]
}

/// The dimension of `max_dims(a, b)` at position `j`, with both shapes
/// aligned at their trailing ends.
pub open spec fn max_dim_at(a: Seq<usize>, b: Seq<usize>, j: int) -> usize {
    let len = if a.len() >= b.len() { a.len() } else { b.len() };
    let ia = j - (len - a.len());
    let ib = j - (len - b.len());
    if ia >= 0 && ib >= 0 {
        if a[ia] >= b[ib] { a[ia] } else { b[ib] }
    } else if ia >= 0 {
        a[ia]
    } else {
        b[ib]
    }
}

/// The element-wise maximum of two shapes aligned at their trailing ends.
pub open spec fn max_dims(a: Seq<usize>, b: Seq<usize>) -> Seq<usize> {
    let len = if a.len() >= b.len() { a.len() } else { b.len() };
    Seq::new(len, |j: int| max_dim_at(a, b, j))
}

/// A product of dimensions extends by one factor at the end.
pub proof fn lemma_elements_push(dims: Seq<usize>, d: usize)
    ensures
        elements(dims.push(d)) == elements(dims) * (d as nat),
    decreases dims.len(),
{
    let longer = dims.push(d);
    if dims.len() == 0 {
        assert(longer.skip(1) =~= Seq::<usize>::empty());
        assert(elements(longer.skip(1)) == 1);
        assert(longer[0] == d);
        assert(elements(longer) == (d as nat) * 1);
        assert(elements(dims) == 1);
    } else {
        assert(longer.skip(1) =~= dims.skip(1).push(d));
        lemma_elements_push(dims.skip(1), d);
        assert(longer[0] == dims[0]);
        let head = dims[0] as nat;
        let rest = elements(dims.skip(1));
        let last = d as nat;
        assert(elements(longer) == head * (rest * last));
        assert(elements(dims) == head * rest);
        assert(head * (rest * last) == head * rest * last) by (nonlinear_arith);
    }
}

/// A product of dimensions is zero exactly when some dimension is zero.
pub proof fn lemma_elements_zero(dims: Seq<usize>)
    ensures
        elements(dims) == 0 <==> dims.contains(0usize),
    decreases dims.len(),
{
    if dims.len() == 0 {
    } else {
        lemma_elements_zero(dims.skip(1));
        let rest = elements(dims.skip(1));
        assert((dims[0] as nat) * rest == 0 <==> (dims[0] == 0 || rest == 0)) by (nonlinear_arith);
        if dims.contains(0usize) {
            let i = choose|i: int| 0 <= i < dims.len() && dims[i] == 0usize;
            if i > 0 {
                assert(dims.skip(1)[i - 1] == 0usize);
            }
        }
        if dims.skip(1).contains(0usize) {
            let i = choose|i: int| 0 <= i < dims.skip(1).len() && dims.skip(1)[i] == 0usize;
            assert(dims[i + 1] == 0usize);
        }
    }
}

/// Whether two shapes agree dimension by dimension over the shorter one.
pub fn shape_prefixes_match(a: &[usize], b: &[usize]) -> (same: bool)
    ensures
        same == prefixes_match(a@, b@),
{
    let n: usize = if a.len() < b.len() { a.len() } else { b.len() };
    let mut i: usize = 0;
    while i < n
        invariant
            i <= n,
            n <= a.len(),
            n <= b.len(),
            forall|j: int| 0 <= j < i ==> a@[j] == b@[j],
        decreases n - i,
    {
        if a[i] != b[i] {
            return false;
        }
        i += 1;
    }
    true
}

/// The element-wise maximum of two shapes aligned at their trailing ends:
/// the result is as long as the longer shape, and a position that only one
/// shape reaches keeps that shape's dimension.
pub fn max_shape(a: &[usize], b: &[usize]) -> (shape: Vec<usize>)
    ensures
        shape@ == max_dims(a@, b@),
{
    let len: usize = if a.len() >= b.len() { a.len() } else { b.len() };
    let mut shape: Vec<usize> = Vec::with_capacity(len);
    let mut j: usize = 0;
    while j < len
        invariant
            j <= len,
            len == (if a.len() >= b.len() { a.len() } else { b.len() }),
            shape@.len() == j,
            forall|p: int| 0 <= p < j ==> shape@[p] == max_dim_at(a@, b@, p),
        decreases len - j,
    {
        let skip_a: usize = len - a.len();
        let skip_b: usize = len - b.len();
        let mut dim: usize = 0;
        if j >= skip_a {
            dim = a[j - skip_a];
        }
        if j >= skip_b {
            let other: usize = b[j - skip_b];
            if other > dim {
                dim = other;
            }
        }
        shape.push(dim);
        j += 1;
    }
    assert(shape@ =~= max_dims(a@, b@));
    shape
}

/// Whether every trailing product of the dimensions fits the machine word,
/// so that the length of a row, at any depth, can be held.
pub open spec fn fits(dims: Seq<usize>) -> bool {
    forall|k: int| 0 <= k <= dims.len() ==> #[trigger] elements(dims.skip(k)) <= usize::MAX
}

/// A trailing product is its first dimension times the next trailing product.
pub proof fn lemma_elements_skip(dims: Seq<usize>, k: int)
    requires
        0 <= k < dims.len(),
    ensures
        elements(dims.skip(k)) == (dims[k] as nat) * elements(dims.skip(k + 1)),
{
    assert(dims.skip(k).skip(1) =~= dims.skip(k + 1));
    assert(dims.skip(k)[0] == dims[k]);
}

/// The product of a concatenation is the product of the two products.
pub proof fn lemma_elements_concat(a: Seq<usize>, b: Seq<usize>)
    ensures
        elements(a + b) == elements(a) * elements(b),
    decreases a.len(),
{
    if a.len() == 0 {
        assert(a + b =~= b);
        assert(1 * elements(b) == elements(b)) by (nonlinear_arith);
    } else {
        assert((a + b).skip(1) =~= a.skip(1) + b);
        assert((a + b)[0] == a[0]);
        lemma_elements_concat(a.skip(1), b);
        let h = a[0] as nat;
        let x = elements(a.skip(1));
        let y = elements(b);
        assert(elements(a + b) == h * (x * y));
        assert(h * (x * y) == (h * x) * y) by (nonlinear_arith);
    }
}

/// A trailing part of dimensions that fit fits as well.
pub proof fn lemma_fits_skip(dims: Seq<usize>, k: int)
    requires
        fits(dims),
        0 <= k <= dims.len(),
    ensures
        fits(dims.skip(k)),
{
    assert forall|j: int| 0 <= j <= dims.skip(k).len() implies #[trigger] elements(
        dims.skip(k).skip(j),
    ) <= usize::MAX by {
        assert(dims.skip(k).skip(j) =~= dims.skip(k + j));
        assert(elements(dims.skip(k + j)) <= usize::MAX);
    }
}

/// Dimensions without a zero whose product fits the machine word fit.
pub proof fn lemma_fits_nonzero(dims: Seq<usize>)
    requires
        !dims.contains(0usize),
        elements(dims) <= usize::MAX,
    ensures
        fits(dims),
    decreases dims.len(),
{
    assert(dims.skip(0) =~= dims);
    if dims.len() > 0 {
        let rest = dims.skip(1);
        assert forall|i: int| 0 <= i < rest.len() implies rest[i] != 0usize by {
            assert(dims.contains(dims[i + 1]));
        }
        assert(dims.contains(dims[0]));
        let h = dims[0] as nat;
        let x = elements(rest);
        assert(x <= h * x) by (nonlinear_arith)
            requires
                h >= 1,
        ;
        lemma_fits_nonzero(rest);
        assert forall|k: int| 0 <= k <= dims.len() implies #[trigger] elements(dims.skip(k))
            <= usize::MAX by {
            if k > 0 {
                assert(dims.skip(k) =~= rest.skip(k - 1));
                assert(elements(rest.skip(k - 1)) <= usize::MAX);
            }
        }
    } else {
        assert forall|k: int| 0 <= k <= dims.len() implies #[trigger] elements(dims.skip(k))
            <= usize::MAX by {
            assert(dims.skip(k) =~= dims);
        }
    }
}

/// Whether every trailing product of the dimensions fits the machine word.
pub fn shape_fits(dims: &[usize]) -> (ok: bool)
    ensures
        ok == fits(dims@),
{
    let mut k: usize = dims.len();
    let mut acc: usize = 1;
    assert(dims@.skip(k as int) =~= Seq::<usize>::empty());
    while k > 0
        invariant
            k <= dims.len(),
            acc == elements(dims@.skip(k as int)),
            forall|j: int| k <= j <= dims.len() ==> #[trigger] elements(dims@.skip(j)) <= usize::MAX,
        decreases k,
    {
        k -= 1;
        proof {
            lemma_elements_skip(dims@, k as int);
        }
        if dims[k] == 0 {
            assert forall|j: int| 0 <= j <= dims.len() implies #[trigger] elements(dims@.skip(j))
                <= usize::MAX by {
                if j <= k {
                    assert(dims@.skip(j)[k - j] == 0usize);
                    lemma_elements_zero(dims@.skip(j));
                }
            }
            return true;
        }
        match acc.checked_mul(dims[k]) {
            None => {
                assert(elements(dims@.skip(k as int)) > usize::MAX) by (nonlinear_arith)
                    requires
                        elements(dims@.skip(k as int)) == (dims@[k as int] as nat) * (acc as nat),
                        acc * dims@[k as int] > usize::MAX,
                ;
                return false;
            },
            Some(next) => {
                assert(next == (dims@[k as int] as nat) * (acc as nat)) by (nonlinear_arith)
                    requires
                        next == acc * dims@[k as int],
                ;
                acc = next;
            },
        }
    }
    true
}

/// The product of the dimensions from position `from` on.
pub fn suffix_elements(dims: &[usize], from: usize) -> (count: usize)
    requires
        fits(dims@),
        from <= dims.len(),
    ensures
        count == elements(dims@.skip(from as int)),
{
    let mut k: usize = dims.len();
    let mut acc: usize = 1;
    assert(dims@.skip(k as int) =~= Seq::<usize>::empty());
    while k > from
        invariant
            from <= k <= dims.len(),
            fits(dims@),
            acc == elements(dims@.skip(k as int)),
        decreases k,
    {
        k -= 1;
        proof {
            lemma_elements_skip(dims@, k as int);
            assert(elements(dims@.skip(k as int)) <= usize::MAX);
            assert((dims@[k as int] as nat) * (acc as nat) == dims@[k as int] * acc)
                by (nonlinear_arith);
        }
        acc = dims[k] * acc;
    }
    acc
}

} // verus!
