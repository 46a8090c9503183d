//! Arrays: a shape and a flat, row-major buffer of elements of one kind.

use vstd::prelude::*;
use crate::shape::{
    elements, fits, lemma_elements_skip, lemma_fits_skip, shape_fits, suffix_elements,
};
use crate::size::{alloc_outcome, validate_shape, SizeError};

verus! {

/// An order-independent tag that an array carries along.
#[derive(Clone, Copy, Debug, PartialEq, Eq)]
pub struct PersistentMeta {
    pub bits: u64,
}

impl PersistentMeta {
    /// The tag of an array that carries nothing.
    pub open spec fn empty() -> PersistentMeta {
        PersistentMeta { bits: 0 }
    }

    /// The merge of two tags.
    pub open spec fn merged(self, other: PersistentMeta) -> PersistentMeta {
        PersistentMeta { bits: self.bits ^ other.bits }
    }

    /// The merge of a sequence of tags, from the empty tag on.
    pub open spec fn merged_all(metas: Seq<PersistentMeta>) -> PersistentMeta
        decreases metas.len(),
    {
        if metas.len() == 0 {
            PersistentMeta::empty()
        } else {
            PersistentMeta::merged_all(metas.drop_last()).merged(metas.last())
        }
    }

    /// The tag of an array that carries nothing.
    pub fn new() -> (meta: PersistentMeta)
        ensures
            meta == PersistentMeta::empty(),
    {
        PersistentMeta { bits: 0 }
    }

    /// Merges two tags; the merge is commutative and undoes itself.
    pub fn xor(self, other: PersistentMeta) -> (meta: PersistentMeta)
        ensures
            meta == self.merged(other),
    {
        PersistentMeta { bits: self.bits ^ other.bits }
    }

    /// Merges all the tags of a list.
    pub fn xor_all(metas: &Vec<PersistentMeta>) -> (meta: PersistentMeta)
        ensures
            meta == PersistentMeta::merged_all(metas@),
    {
        let mut acc = PersistentMeta::new();
        let mut i: usize = 0;
        assert(metas@.take(0) =~= Seq::<PersistentMeta>::empty());
        while i < metas.len()
            invariant
                i <= metas.len(),
                acc == PersistentMeta::merged_all(metas@.take(i as int)),
            decreases metas.len() - i,
        {
            assert(metas@.take(i + 1).drop_last() =~= metas@.take(i as int));
            acc = acc.xor(metas[i]);
            i += 1;
        }
        assert(metas@.take(i as int) =~= metas@);
        acc
    }
}

/// Merging two tags does not depend on their order.
pub proof fn lemma_meta_merge_commutes(a: PersistentMeta, b: PersistentMeta)
    ensures
        a.merged(b) == b.merged(a),
{
    let x = a.bits;
    let y = b.bits;
    assert(x ^ y == y ^ x) by (bit_vector);
}

/// Merging the same tag in twice gives the first tag back.
pub proof fn lemma_meta_merge_undoes(a: PersistentMeta, b: PersistentMeta)
    ensures
        a.merged(b).merged(b) == a,
{
    let x = a.bits;
    let y = b.bits;
    assert((x ^ y) ^ y == x) by (bit_vector);
}

/// The merge of two runs of tags joined is the merge of their merges.
pub proof fn lemma_merged_joined(a: Seq<PersistentMeta>, b: Seq<PersistentMeta>)
    ensures
        PersistentMeta::merged_all(a + b) == PersistentMeta::merged_all(a).merged(
            PersistentMeta::merged_all(b),
        ),
    decreases b.len(),
{
    let ma = PersistentMeta::merged_all(a).bits;
    if b.len() == 0 {
        assert(a + b =~= a);
        assert(ma ^ 0 == ma) by (bit_vector);
    } else {
        lemma_merged_joined(a, b.drop_last());
        assert((a + b).drop_last() =~= a + b.drop_last());
        assert((a + b).last() == b.last());
        let mb = PersistentMeta::merged_all(b.drop_last()).bits;
        let x = b.last().bits;
        assert((ma ^ mb) ^ x == ma ^ (mb ^ x)) by (bit_vector);
    }
}

/// The merge of a run of tags does not depend on their order: it stays
/// the same where two of them change places.
pub proof fn lemma_merged_any_order(metas: Seq<PersistentMeta>, i: int, j: int)
    requires
        0 <= i < j < metas.len(),
    ensures
        PersistentMeta::merged_all(metas.update(i, metas[j]).update(j, metas[i]))
            == PersistentMeta::merged_all(metas),
{
    let other = metas.update(i, metas[j]).update(j, metas[i]);
    let front = metas.take(i);
    let middle = metas.subrange(i + 1, j);
    let back = metas.skip(j + 1);
    let x = seq![metas[i]];
    let y = seq![metas[j]];
    assert(metas =~= front + x + middle + y + back);
    assert(other =~= front + y + middle + x + back);
    lemma_merged_joined(front, x);
    lemma_merged_joined(front + x, middle);
    lemma_merged_joined(front + x + middle, y);
    lemma_merged_joined(front + x + middle + y, back);
    lemma_merged_joined(front, y);
    lemma_merged_joined(front + y, middle);
    lemma_merged_joined(front + y + middle, x);
    lemma_merged_joined(front + y + middle + x, back);
    assert(x.drop_last() =~= Seq::<PersistentMeta>::empty());
    assert(y.drop_last() =~= Seq::<PersistentMeta>::empty());
    let f = PersistentMeta::merged_all(front).bits;
    let m = PersistentMeta::merged_all(middle).bits;
    let b = PersistentMeta::merged_all(back).bits;
    let p = metas[i].bits;
    let q = metas[j].bits;
    assert(PersistentMeta::merged_all(x.drop_last()) == PersistentMeta::empty());
    assert(PersistentMeta::merged_all(y.drop_last()) == PersistentMeta::empty());
    assert(x.last() == metas[i] && y.last() == metas[j]);
    assert(PersistentMeta::merged_all(x) == PersistentMeta::empty().merged(metas[i]));
    assert(PersistentMeta::merged_all(y) == PersistentMeta::empty().merged(metas[j]));
    assert(PersistentMeta::merged_all(x).bits == 0 ^ p);
    assert(PersistentMeta::merged_all(y).bits == 0 ^ q);
    assert((((f ^ (0 ^ p)) ^ m) ^ (0 ^ q)) ^ b == (((f ^ (0 ^ q)) ^ m) ^ (0 ^ p)) ^ b)
        by (bit_vector);
}

/// `n` copies of `v`.
pub open spec fn filled<T>(v: T, n: nat) -> Seq<T> {
    Seq::new(n, |i: int| v)
}

/// `s` written `n` times in a row.
pub open spec fn repeated<T>(s: Seq<T>, n: nat) -> Seq<T>
    decreases n,
{
    if n == 0 {
        Seq::empty()
    } else {
        repeated(s, (n - 1) as nat) + s
    }
}

/// The block of shape `shape` from depth `d` on, held in `data`, padded or
/// cut to the dimensions of `target`: each row that the block has is padded
/// in turn, and each row that it lacks is made of `fill`.
pub open spec fn pad_block<T>(
    shape: Seq<usize>,
    target: Seq<usize>,
    d: int,
    data: Seq<T>,
    fill: T,
) -> Seq<T>
    decreases shape.len() - d, 1int, 0int,
{
    if d < 0 || d >= shape.len() {
        data
    } else {
        pad_rows(shape, target, d, data, fill, target[d] as int)
    }
}

/// The first `k` rows of `pad_block` at depth `d`.
pub open spec fn pad_rows<T>(
    shape: Seq<usize>,
    target: Seq<usize>,
    d: int,
    data: Seq<T>,
    fill: T,
    k: int,
) -> Seq<T>
    decreases shape.len() - d, 0int, k,
{
    if d < 0 || d >= shape.len() || k <= 0 {
        Seq::empty()
    } else {
        let len = elements(shape.skip(d + 1)) as int;
        let row = if k - 1 < shape[d] {
            pad_block(shape, target, d + 1, data.subrange((k - 1) * len, k * len), fill)
        } else {
            filled(fill, elements(target.skip(d + 1)))
        };
        pad_rows(shape, target, d, data, fill, k - 1) + row
    }
}

/// The mathematical value of an array.
pub struct ArrayView<T> {
    pub shape: Seq<usize>,
    pub data: Seq<T>,
    pub meta: PersistentMeta,
}

impl<T> ArrayView<T> {
    /// An array is well formed when its buffer holds as many elements
    /// as its shape describes and every row length fits the machine word.
    pub open spec fn wf(self) -> bool {
        self.data.len() == elements(self.shape) && fits(self.shape)
    }

    /// The number of dimensions.
    pub open spec fn rank(self) -> nat {
        self.shape.len()
    }

    /// The number of rows: the leading dimension, or one for a scalar.
    pub open spec fn row_count(self) -> nat {
        crate::shape::row_count(self.shape)
    }

    /// The number of elements in one row.
    pub open spec fn row_len(self) -> nat {
        crate::shape::row_len(self.shape)
    }

    /// The `i`-th row as an array of its own; it carries no tag.
    pub open spec fn row(self, i: int) -> ArrayView<T> {
        ArrayView {
            shape: self.shape.skip(1),
            data: self.data.subrange(i * self.row_len(), (i + 1) * self.row_len()),
            meta: PersistentMeta::empty(),
        }
    }

    /// The array with `n` copies of itself as rows.
    pub open spec fn repeated_rows(self, n: usize) -> ArrayView<T> {
        ArrayView {
            shape: seq![n] + self.shape,
            data: repeated(self.data, n as nat),
            meta: self.meta,
        }
    }

    /// The array under the new leading dimensions `lead`: as many copies
    /// of itself in a row as `lead` describes.
    pub open spec fn tiled(self, lead: Seq<usize>) -> ArrayView<T> {
        ArrayView {
            shape: lead + self.shape,
            data: repeated(self.data, elements(lead)),
            meta: self.meta,
        }
    }

    /// The array with another shape over the same elements.
    pub open spec fn with_shape(self, shape: Seq<usize>) -> ArrayView<T> {
        ArrayView { shape, data: self.data, meta: self.meta }
    }

    /// The array raised to the rank of `target` by leading dimensions of one,
    /// then padded with `fill`, or cut, to the dimensions of `target`.
    pub open spec fn padded_to(self, target: Seq<usize>, fill: T) -> ArrayView<T> {
        let ones = Seq::new((target.len() - self.shape.len()) as nat, |i: int| 1usize);
        ArrayView {
            shape: target,
            data: pad_block(ones + self.shape, target, 0, self.data, fill),
            meta: self.meta,
        }
    }
}

/// An array: its shape, its elements in row-major order, and its tag.
///
/// The elements stand in a `Vec`, of which a contract can speak for every
/// kind of element alike.
#[derive(Clone, Debug, PartialEq, Eq)]
pub struct Array<T> {
    pub shape: Vec<usize>,
    pub data: Vec<T>,
    pub meta: PersistentMeta,
}

impl<T> View for Array<T> {
    type V = ArrayView<T>;

    open spec fn view(&self) -> ArrayView<T> {
        ArrayView { shape: self.shape@, data: self.data@, meta: self.meta }
    }
}

/// The length of a padded block is the product of the target dimensions.
pub proof fn lemma_pad_block_len<T>(
    shape: Seq<usize>,
    target: Seq<usize>,
    d: int,
    data: Seq<T>,
    fill: T,
)
    requires
        shape.len() == target.len(),
        0 <= d <= shape.len(),
        data.len() == elements(shape.skip(d)),
    ensures
        pad_block(shape, target, d, data, fill).len() == elements(target.skip(d)),
    decreases shape.len() - d, 1int, 0int,
{
    if d < shape.len() {
        lemma_pad_rows_len(shape, target, d, data, fill, target[d] as int);
        lemma_elements_skip(target, d);
    } else {
        assert(shape.skip(d) =~= Seq::<usize>::empty());
        assert(target.skip(d) =~= Seq::<usize>::empty());
    }
}

/// The length of the first `k` padded rows.
pub proof fn lemma_pad_rows_len<T>(
    shape: Seq<usize>,
    target: Seq<usize>,
    d: int,
    data: Seq<T>,
    fill: T,
    k: int,
)
    requires
        shape.len() == target.len(),
        0 <= d < shape.len(),
        data.len() == elements(shape.skip(d)),
        0 <= k,
    ensures
        pad_rows(shape, target, d, data, fill, k).len() == k * elements(target.skip(d + 1)),
    decreases shape.len() - d, 0int, k,
{
    let tlen = elements(target.skip(d + 1)) as int;
    if k > 0 {
        lemma_pad_rows_len(shape, target, d, data, fill, k - 1);
        let len = elements(shape.skip(d + 1)) as int;
        if k - 1 < shape[d] {
            lemma_elements_skip(shape, d);
            lemma_row_bounds(shape[d] as int, len, k - 1);
            lemma_pad_block_len(
                shape,
                target,
                d + 1,
                data.subrange((k - 1) * len, k * len),
                fill,
            );
        }
        assert((k - 1) * tlen + tlen == k * tlen) by (nonlinear_arith);
    } else {
        assert(0 * tlen == 0) by (nonlinear_arith);
    }
}

/// Row `i` of `rows` rows of length `len` lies within the buffer.
pub proof fn lemma_row_bounds(rows: int, len: int, i: int)
    requires
        0 <= i < rows,
        0 <= len,
    ensures
        0 <= i * len,
        i * len + len == (i + 1) * len,
        (i + 1) * len <= rows * len,
{
    assert(0 <= i * len) by (nonlinear_arith)
        requires
            0 <= i,
            0 <= len,
    ;
    assert(i * len + len == (i + 1) * len) by (nonlinear_arith);
    assert((i + 1) * len <= rows * len) by (nonlinear_arith)
        requires
            i + 1 <= rows,
            0 <= len,
    ;
}

/// Appends `count` copies of `fill`.
fn push_fill<T: Copy>(out: &mut Vec<T>, count: usize, fill: T)
    ensures
        final(out)@ == old(out)@ + filled(fill, count as nat),
{
    let ghost before = out@;
    let mut i: usize = 0;
    assert(out@ =~= before + filled(fill, 0));
    while i < count
        invariant
            i <= count,
            out@ == before + filled(fill, i as nat),
        decreases count - i,
    {
        out.push(fill);
        i += 1;
        assert(out@ =~= before + filled(fill, i as nat));
    }
}

/// Appends the elements of `data` from `start` to `end`.
fn push_range<T: Copy>(out: &mut Vec<T>, data: &Vec<T>, start: usize, end: usize)
    requires
        start <= end <= data.len(),
    ensures
        final(out)@ == old(out)@ + data@.subrange(start as int, end as int),
{
    let ghost before = out@;
    let mut i: usize = start;
    assert(out@ =~= before + data@.subrange(start as int, start as int));
    while i < end
        invariant
            start <= i <= end <= data.len(),
            out@ == before + data@.subrange(start as int, i as int),
        decreases end - i,
    {
        out.push(data[i]);
        i += 1;
        assert(out@ =~= before + data@.subrange(start as int, i as int));
    }
}

/// Appends the block that starts at `start` of `data`, at depth `depth`
/// of `shape`, padded or cut to `target`.
#[verifier::rlimit(60)]
fn pad_into<T: Copy>(
    out: &mut Vec<T>,
    shape: &Vec<usize>,
    data: &Vec<T>,
    start: usize,
    target: &[usize],
    depth: usize,
    fill: T,
)
    requires
        shape.len() == target.len(),
        depth <= shape.len(),
        fits(shape@),
        fits(target@),
        start + elements(shape@.skip(depth as int)) <= data.len(),
    ensures
        final(out)@ == old(out)@ + pad_block(
            shape@,
            target@,
            depth as int,
            data@.subrange(start as int, start + elements(shape@.skip(depth as int))),
            fill,
        ),
    decreases shape.len() - depth,
{
    let ghost before = out@;
    let ghost block = data@.subrange(start as int, start + elements(shape@.skip(depth as int)));
    if depth == shape.len() {
        assert(shape@.skip(depth as int) =~= Seq::<usize>::empty());
        out.push(data[start]);
        assert(out@ =~= before + block);
        return ;
    }
    let len: usize = suffix_elements(shape.as_slice(), depth + 1);
    let fill_len: usize = suffix_elements(target, depth + 1);
    let rows: usize = shape[depth];
    let goal: usize = target[depth];
    proof {
        lemma_elements_skip(shape@, depth as int);
    }
    let mut i: usize = 0;
    assert(out@ =~= before + pad_rows(shape@, target@, depth as int, block, fill, 0));
    while i < goal
        invariant
            i <= goal,
            goal == target@[depth as int],
            rows == shape@[depth as int],
            shape.len() == target.len(),
            depth < shape.len(),
            fits(shape@),
            fits(target@),
            len == elements(shape@.skip(depth + 1)),
            fill_len == elements(target@.skip(depth + 1)),
            elements(shape@.skip(depth as int)) == rows * len,
            start + rows * len <= data.len(),
            block == data@.subrange(start as int, start + rows * len),
            out@ == before + pad_rows(shape@, target@, depth as int, block, fill, i as int),
        decreases goal - i,
    {
        let ghost so_far = out@;
        if i < rows {
            proof {
                lemma_row_bounds(rows as int, len as int, i as int);
            }
            let at: usize = start + i * len;
            pad_into(out, shape, data, at, target, depth + 1, fill);
            assert(data@.subrange(at as int, at + len) =~= block.subrange(
                i * len,
                (i + 1) * len,
            ));
        } else {
            push_fill(out, fill_len, fill);
        }
        i += 1;
        assert(out@ =~= before + pad_rows(shape@, target@, depth as int, block, fill, i as int));
    }
}

impl<T: Copy> Array<T> {
    /// Makes an array of a shape and the elements that the shape describes.
    pub fn new(shape: Vec<usize>, data: Vec<T>) -> (arr: Array<T>)
        requires
            data.len() == elements(shape@),
            fits(shape@),
        ensures
            arr@.wf(),
            arr@.shape == shape@,
            arr@.data == data@,
            arr@.meta == PersistentMeta::empty(),
    {
        Array { shape, data, meta: PersistentMeta::new() }
    }

    /// Makes the array of rank zero that holds `value`.
    pub fn scalar(value: T) -> (arr: Array<T>)
        ensures
            arr@.wf(),
            arr@.shape == Seq::<usize>::empty(),
            arr@.data == seq![value],
            arr@.meta == PersistentMeta::empty(),
    {
        let mut data: Vec<T> = Vec::new();
        data.push(value);
        let shape: Vec<usize> = Vec::new();
        assert(shape@.skip(0) =~= shape@);
        assert forall|k: int| 0 <= k <= shape@.len() implies #[trigger] elements(shape@.skip(k))
            <= usize::MAX by {
            assert(shape@.skip(k) =~= shape@);
        }
        Array { shape, data, meta: PersistentMeta::new() }
    }

    /// Whether the array is well formed: its buffer holds as many elements
    /// as its shape describes, and every row length fits the machine word.
    pub fn is_well_formed(&self) -> (ok: bool)
        ensures
            ok == self@.wf(),
    {
        if !shape_fits(self.shape.as_slice()) {
            return false;
        }
        assert(self.shape@.skip(0) =~= self.shape@);
        suffix_elements(self.shape.as_slice(), 0) == self.data.len()
    }

    /// A copy of the array.
    pub fn duplicate(&self) -> (copy: Array<T>)
        ensures
            copy@ == self@,
    {
        let mut shape: Vec<usize> = Vec::new();
        push_range(&mut shape, &self.shape, 0, self.shape.len());
        let mut data: Vec<T> = Vec::new();
        push_range(&mut data, &self.data, 0, self.data.len());
        assert(shape@ =~= self.shape@);
        assert(data@ =~= self.data@);
        Array { shape, data, meta: self.meta }
    }

    /// The number of dimensions.
    pub fn rank(&self) -> (rank: usize)
        ensures
            rank == self@.rank(),
    {
        self.shape.len()
    }

    /// The number of rows: the leading dimension, or one for a scalar.
    pub fn row_count(&self) -> (rows: usize)
        ensures
            rows == self@.row_count(),
    {
        if self.shape.len() == 0 {
            1
        } else {
            self.shape[0]
        }
    }

    /// The number of elements in one row.
    pub fn row_len(&self) -> (len: usize)
        requires
            self@.wf(),
        ensures
            len == self@.row_len(),
    {
        if self.shape.len() == 0 {
            1
        } else {
            suffix_elements(self.shape.as_slice(), 1)
        }
    }

    /// The number of elements.
    pub fn element_count(&self) -> (count: usize)
        ensures
            count == self@.data.len(),
    {
        self.data.len()
    }

    /// The `i`-th row as an array of its own.
    pub fn row(&self, i: usize) -> (row: Array<T>)
        requires
            self@.wf(),
            self@.rank() > 0,
            i < self@.row_count(),
        ensures
            row@ == self@.row(i as int),
            row@.wf(),
    {
        let len: usize = suffix_elements(self.shape.as_slice(), 1);
        proof {
            lemma_elements_skip(self.shape@, 0);
            assert(self.shape@.skip(0) =~= self.shape@);
            lemma_row_bounds(self.shape@[0] as int, len as int, i as int);
            lemma_fits_skip(self.shape@, 1);
        }
        let mut shape: Vec<usize> = Vec::new();
        push_range(&mut shape, &self.shape, 1, self.shape.len());
        assert(shape@ =~= self.shape@.skip(1));
        let mut data: Vec<T> = Vec::new();
        push_range(&mut data, &self.data, i * len, i * len + len);
        assert(data@ =~= self@.data.subrange(i * self@.row_len(), (i + 1) * self@.row_len()));
        Array { shape, data, meta: PersistentMeta::new() }
    }

    /// Puts the array under the new leading dimensions `lead`, as many
    /// copies of it in a row as `lead` describes. Nothing changes where the
    /// new size is refused.
    #[verifier::rlimit(60)]
    pub fn tile(&mut self, lead: &[usize]) -> (result: Result<(), SizeError>)
        requires
            old(self)@.wf(),
        ensures
            match alloc_outcome(vstd::layout::size_of::<T>(), lead@ + old(self)@.shape) {
                Ok(_) => result is Ok && final(self)@ == old(self)@.tiled(lead@)
                    && final(self)@.wf(),
                Err(e) => result == Err::<(), SizeError>(e) && final(self)@ == old(self)@,
            },
    {
        let mut shape: Vec<usize> = Vec::new();
        push_range_slice(&mut shape, lead);
        push_range(&mut shape, &self.shape, 0, self.shape.len());
        assert(shape@ =~= lead@ + self.shape@);
        let total: usize = match validate_shape(core::mem::size_of::<T>(), shape.as_slice()) {
            Err(e) => {
                return Err(e);
            },
            Ok(n) => n,
        };
        let ghost old_data = self.data@;
        let ghost old_shape = self.shape@;
        proof {
            crate::shape::lemma_elements_concat(lead@, old_shape);
        }
        let mut data: Vec<T> = Vec::new();
        if total == 0 {
            proof {
                lemma_repeated_len(old_data, elements(lead@));
                assert(elements(lead@) * old_data.len() == 0) by (nonlinear_arith)
                    requires
                        elements(lead@) * elements(old_shape) == 0,
                        old_data.len() == elements(old_shape),
                ;
                assert(data@ =~= repeated(old_data, elements(lead@)));
            }
        } else {
            proof {
                crate::shape::lemma_elements_zero(lead@);
                crate::shape::lemma_elements_zero(old_shape);
                let x = elements(lead@);
                let y = elements(old_shape);
                assert(x != 0 && y != 0 && x <= x * y) by (nonlinear_arith)
                    requires
                        x * y != 0,
                ;
                crate::shape::lemma_fits_nonzero(lead@);
                assert(lead@.skip(0) =~= lead@);
            }
            let times: usize = suffix_elements(lead, 0);
            let mut i: usize = 0;
            assert(data@ =~= repeated(old_data, 0));
            while i < times
                invariant
                    i <= times,
                    old_data == self.data@,
                    data@ == repeated(old_data, i as nat),
                decreases times - i,
            {
                push_range(&mut data, &self.data, 0, self.data.len());
                assert(old_data.subrange(0, old_data.len() as int) =~= old_data);
                i += 1;
            }
            proof {
                lemma_repeated_len(old_data, times as nat);
            }
        }
        self.shape = shape;
        self.data = data;
        Ok(())
    }

    /// Makes the array whose rows are `n` copies of this one: a new leading
    /// dimension of `n`. Nothing changes where the new size is refused.
    pub fn reshape_scalar(&mut self, n: usize) -> (result: Result<(), SizeError>)
        requires
            old(self)@.wf(),
        ensures
            match alloc_outcome(
                vstd::layout::size_of::<T>(),
                seq![n] + old(self)@.shape,
            ) {
                Ok(_) => result is Ok && final(self)@ == old(self)@.repeated_rows(n)
                    && final(self)@.wf(),
                Err(e) => result == Err::<(), SizeError>(e) && final(self)@ == old(self)@,
            },
    {
        let mut lead: Vec<usize> = Vec::new();
        lead.push(n);
        proof {
            assert(lead@ =~= seq![n]);
            lemma_elements_one(n);
        }
        self.tile(lead.as_slice())
    }

    /// Pads the array with `fill`, or cuts it, to the shape `target`, after
    /// raising it to the rank of `target` by leading dimensions of one.
    /// Nothing changes where the new size is refused.
    pub fn fill_to_shape(&mut self, target: &[usize], fill: T) -> (result: Result<(), SizeError>)
        requires
            old(self)@.wf(),
            old(self)@.rank() <= target.len(),
        ensures
            match alloc_outcome(vstd::layout::size_of::<T>(), target@) {
                Ok(_) => result is Ok && final(self)@ == old(self)@.padded_to(target@, fill)
                    && final(self)@.wf(),
                Err(e) => result == Err::<(), SizeError>(e) && final(self)@ == old(self)@,
            },
    {
        match validate_shape(core::mem::size_of::<T>(), target) {
            Err(e) => {
                return Err(e);
            },
            Ok(_) => {},
        }
        let extra: usize = target.len() - self.shape.len();
        let mut raised: Vec<usize> = Vec::new();
        push_fill(&mut raised, extra, 1usize);
        push_range(&mut raised, &self.shape, 0, self.shape.len());
        let ghost ones = Seq::new(extra as nat, |i: int| 1usize);
        proof {
            assert(raised@ =~= ones + self.shape@);
            lemma_elements_ones(ones, self.shape@);
            assert(raised@.skip(0) =~= raised@);
        }
        let mut shape: Vec<usize> = Vec::new();
        push_range_slice(&mut shape, target);
        let mut data: Vec<T> = Vec::new();
        pad_into(&mut data, &raised, &self.data, 0, target, 0, fill);
        proof {
            assert(self.data@.subrange(0, 0 + elements(raised@.skip(0)) as int) =~= self.data@);
            lemma_pad_block_len(raised@, target@, 0, self.data@, fill);
            assert(target@.skip(0) =~= target@);
        }
        self.shape = shape;
        self.data = data;
        Ok(())
    }
}

/// The length of a sequence written `n` times.
pub proof fn lemma_repeated_len<T>(s: Seq<T>, n: nat)
    ensures
        repeated(s, n).len() == n * s.len(),
    decreases n,
{
    if n > 0 {
        lemma_repeated_len(s, (n - 1) as nat);
        assert((n - 1) * s.len() + s.len() == n * s.len()) by (nonlinear_arith);
    } else {
        assert(0 * s.len() == 0) by (nonlinear_arith);
    }
}

/// The product of a single dimension is that dimension.
pub proof fn lemma_elements_one(n: usize)
    ensures
        elements(seq![n]) == n,
{
    assert(seq![n].skip(1) =~= Seq::<usize>::empty());
    assert(elements(seq![n].skip(1)) == 1);
    assert(seq![n][0] == n);
    assert((n as nat) * 1 == n) by (nonlinear_arith);
}

/// Leading dimensions of one change neither the product nor the fit.
pub proof fn lemma_elements_ones(ones: Seq<usize>, dims: Seq<usize>)
    requires
        forall|i: int| 0 <= i < ones.len() ==> ones[i] == 1,
        fits(dims),
    ensures
        elements(ones + dims) == elements(dims),
        fits(ones + dims),
    decreases ones.len(),
{
    let all = ones + dims;
    assert(dims.skip(0) =~= dims);
    if ones.len() == 0 {
        assert(all =~= dims);
    } else {
        let rest = ones.skip(1);
        assert(all.skip(1) =~= rest + dims);
        lemma_elements_ones(rest, dims);
        assert(all[0] == 1);
        assert(elements(all) == 1 * elements(all.skip(1)));
        assert forall|k: int| 0 <= k <= all.len() implies #[trigger] elements(all.skip(k))
            <= usize::MAX by {
            if k == 0 {
                assert(all.skip(0) =~= all);
            } else {
                assert(all.skip(k) =~= (rest + dims).skip(k - 1));
                assert(elements((rest + dims).skip(k - 1)) <= usize::MAX);
            }
        }
    }
}

/// Appends the elements of a slice.
pub fn push_range_slice(out: &mut Vec<usize>, dims: &[usize])
    ensures
        final(out)@ == old(out)@ + dims@,
{
    let ghost before = out@;
    let mut i: usize = 0;
    assert(out@ =~= before + dims@.take(0));
    while i < dims.len()
        invariant
            i <= dims.len(),
            out@ == before + dims@.take(i as int),
        decreases dims.len() - i,
    {
        out.push(dims[i]);
        i += 1;
        assert(out@ =~= before + dims@.take(i as int));
    }
    assert(dims@.take(i as int) =~= dims@);
}

/// The elements of a list of arrays, one array after the other.
pub open spec fn joined<T>(rows: Seq<ArrayView<T>>) -> Seq<T>
    decreases rows.len(),
{
    if rows.len() == 0 {
        Seq::empty()
    } else {
        joined(rows.drop_last()) + rows.last().data
    }
}

/// The views of a list of arrays.
pub open spec fn views<T>(rows: Seq<Array<T>>) -> Seq<ArrayView<T>> {
    rows.map_values(|a: Array<T>| a@)
}

/// Whether every array of a list is well formed and has the shape `shape`.
pub open spec fn all_shaped<T>(rows: Seq<ArrayView<T>>, shape: Seq<usize>) -> bool {
    forall|i: int| 0 <= i < rows.len() ==> (#[trigger] rows[i]).wf() && rows[i].shape == shape
}

/// The array whose rows are the arrays of a list, all of one shape; from an
/// empty list, the array without rows.
pub open spec fn stacked<T>(rows: Seq<ArrayView<T>>, meta: PersistentMeta) -> ArrayView<T> {
    ArrayView {
        shape: if rows.len() == 0 {
            seq![0usize]
        } else {
            seq![rows.len() as usize] + rows[0].shape
        },
        data: joined(rows),
        meta,
    }
}

/// The rows of an array, in order.
pub open spec fn rows_of_view<T>(a: ArrayView<T>) -> Seq<ArrayView<T>> {
    Seq::new(a.row_count(), |i: int| a.row(i))
}

/// The elements of arrays of one shape are as many as the arrays times the
/// elements of one.
pub proof fn lemma_joined_len<T>(rows: Seq<ArrayView<T>>, shape: Seq<usize>)
    requires
        all_shaped(rows, shape),
    ensures
        joined(rows).len() == rows.len() * elements(shape),
    decreases rows.len(),
{
    if rows.len() > 0 {
        let front = rows.drop_last();
        assert(all_shaped(front, shape)) by {
            assert forall|i: int| 0 <= i < front.len() implies (#[trigger] front[i]).wf()
                && front[i].shape == shape by {
                assert(front[i] == rows[i]);
            }
        }
        lemma_joined_len(front, shape);
        assert(rows[rows.len() - 1].wf());
        assert((rows.len() - 1) * elements(shape) + elements(shape) == rows.len() * elements(
            shape,
        )) by (nonlinear_arith);
    } else {
        assert(0 * elements(shape) == 0) by (nonlinear_arith);
    }
}

impl<T: Copy> Array<T> {
    /// The rows of the array, each as an array of its own.
    pub fn rows(&self) -> (rows: Vec<Array<T>>)
        requires
            self@.wf(),
            self@.rank() > 0,
        ensures
            views(rows@) == rows_of_view(self@),
            all_shaped(views(rows@), self@.shape.skip(1)),
    {
        let n: usize = self.shape[0];
        let mut rows: Vec<Array<T>> = Vec::new();
        let mut i: usize = 0;
        while i < n
            invariant
                i <= n,
                n == self@.shape[0],
                self@.wf(),
                self@.rank() > 0,
                rows@.len() == i,
                forall|j: int| 0 <= j < i ==> (#[trigger] rows@[j])@ == self@.row(j) && rows@[j]@.wf(),
            decreases n - i,
        {
            let row = self.row(i);
            rows.push(row);
            i += 1;
        }
        assert(views(rows@) =~= rows_of_view(self@));
        rows
    }

    /// Makes the array whose rows are the arrays of `rows`, which all have
    /// one shape; from no rows, the array without rows.
    #[verifier::rlimit(60)]
    pub fn from_row_arrays(rows: &Vec<Array<T>>, meta: PersistentMeta) -> (arr: Array<T>)
        requires
            rows@.len() > 0 ==> all_shaped(views(rows@), rows@[0]@.shape),
        ensures
            arr@ == stacked(views(rows@), meta),
            arr@.wf(),
    {
        let mut shape: Vec<usize> = Vec::new();
        let mut data: Vec<T> = Vec::new();
        if rows.len() == 0 {
            shape.push(0);
            proof {
                assert(views(rows@) =~= Seq::<ArrayView<T>>::empty());
                lemma_elements_one(0);
                assert(shape@ =~= seq![0usize]);
                assert forall|k: int| 0 <= k <= shape@.len() implies #[trigger] elements(
                    shape@.skip(k),
                ) <= usize::MAX by {
                    if k == 0 {
                        assert(shape@.skip(0) =~= shape@);
                    } else {
                        assert(shape@.skip(k) =~= Seq::<usize>::empty());
                    }
                }
            }
            return Array { shape, data, meta };
        }
        let ghost all = views(rows@);
        let ghost inner = rows@[0]@.shape;
        shape.push(rows.len());
        push_range(&mut shape, &rows[0].shape, 0, rows[0].shape.len());
        assert(all[0] == rows@[0]@);
        assert(shape@ =~= seq![rows.len()] + inner);
        let mut i: usize = 0;
        assert(all.take(0) =~= Seq::<ArrayView<T>>::empty());
        while i < rows.len()
            invariant
                i <= rows.len(),
                all == views(rows@),
                data@ == joined(all.take(i as int)),
            decreases rows.len() - i,
        {
            push_range(&mut data, &rows[i].data, 0, rows[i].data.len());
            proof {
                assert(all.take(i + 1).drop_last() =~= all.take(i as int));
                assert(all.take(i + 1).last() == rows@[i as int]@);
                assert(rows@[i as int].data@.subrange(0, rows@[i as int].data@.len() as int)
                    =~= rows@[i as int]@.data);
            }
            i += 1;
        }
        assert(all.take(i as int) =~= all);
        let held: usize = data.len();
        proof {
            lemma_joined_len(all, inner);
            lemma_elements_skip(shape@, 0);
            assert(shape@.skip(0) =~= shape@);
            assert(shape@.skip(1) =~= inner);
            assert(all[0].wf());
            assert forall|k: int| 0 <= k <= shape@.len() implies #[trigger] elements(
                shape@.skip(k),
            ) <= usize::MAX by {
                if k > 0 {
                    assert(shape@.skip(k) =~= inner.skip(k - 1));
                    assert(elements(inner.skip(k - 1)) <= usize::MAX);
                }
            }
        }
        Array { shape, data, meta }
    }
}

impl<T> ArrayView<T> {
    /// The elements from `start` to `end` as an array of the shape `shape`;
    /// it carries no tag.
    pub open spec fn part(self, start: int, end: int, shape: Seq<usize>) -> ArrayView<T> {
        ArrayView { shape, data: self.data.subrange(start, end), meta: PersistentMeta::empty() }
    }

    /// The array with another tag.
    pub open spec fn with_meta(self, meta: PersistentMeta) -> ArrayView<T> {
        ArrayView { shape: self.shape, data: self.data, meta }
    }
}

impl<T: Copy> Array<T> {
    /// The elements from `start` to `end` as an array of the shape `shape`.
    pub fn part(&self, start: usize, end: usize, shape: Vec<usize>) -> (arr: Array<T>)
        requires
            start <= end <= self@.data.len(),
            elements(shape@) == end - start,
            fits(shape@),
        ensures
            arr@ == self@.part(start as int, end as int, shape@),
            arr@.wf(),
    {
        let mut data: Vec<T> = Vec::new();
        push_range(&mut data, &self.data, start, end);
        assert(data@ =~= self@.data.subrange(start as int, end as int));
        Array { shape, data, meta: PersistentMeta::new() }
    }

    /// An array of the shape `shape`, every element `value`.
    pub fn full(shape: Vec<usize>, value: T) -> (arr: Array<T>)
        requires
            fits(shape@),
        ensures
            arr@ == (ArrayView {
                shape: shape@,
                data: filled(value, elements(shape@)),
                meta: PersistentMeta::empty(),
            }),
            arr@.wf(),
    {
        assert(shape@.skip(0) =~= shape@);
        let count: usize = suffix_elements(shape.as_slice(), 0);
        let mut data: Vec<T> = Vec::new();
        push_fill(&mut data, count, value);
        assert(data@ =~= filled(value, elements(shape@)));
        Array { shape, data, meta: PersistentMeta::new() }
    }

    /// Gives the array another shape over the same elements.
    pub fn set_shape(&mut self, shape: Vec<usize>)
        requires
            elements(shape@) == old(self)@.data.len(),
            fits(shape@),
        ensures
            final(self)@ == old(self)@.with_shape(shape@),
            final(self)@.wf(),
    {
        self.shape = shape;
    }

    /// Adds rows of the fill value until there are `len` rows; an array
    /// of rank zero, or one with as many rows already, stays as it is. The
    /// reason is returned where no fill value is given, and nothing changes
    /// where the new size is refused.
    pub fn fill_length_to(&mut self, len: usize, fill: Result<T, &'static str>) -> (result: Result<
        Result<(), SizeError>,
        &'static str,
    >)
        requires
            old(self)@.wf(),
        ensures
            final(self)@.wf(),
            match lengthened(
                old(self)@,
                len,
                crate::context::fill_answer(fill),
                vstd::layout::size_of::<T>(),
            ) {
                Lengthened::Done(a) => result == Ok::<Result<(), SizeError>, &'static str>(Ok(()))
                    && final(self)@ == a,
                Lengthened::NoFill(reason) => result is Err && result->Err_0@ == reason && final(self)@
                    == old(self)@,
                Lengthened::TooBig(e) => result == Ok::<Result<(), SizeError>, &'static str>(
                    Err(e),
                ) && final(self)@ == old(self)@,
            },
    {
        if self.shape.len() == 0 || self.shape[0] >= len {
            return Ok(Ok(()));
        }
        let v: T = match fill {
            Ok(v) => v,
            Err(reason) => {
                return Err(reason);
            },
        };
        let mut goal: Vec<usize> = Vec::new();
        goal.push(len);
        push_range(&mut goal, &self.shape, 1, self.shape.len());
        assert(goal@ =~= self@.shape.update(0, len));
        match self.fill_to_shape(goal.as_slice(), v) {
            Ok(_) => Ok(Ok(())),
            Err(e) => Ok(Err(e)),
        }
    }
}

/// What becomes of an array that is given more rows.
pub enum Lengthened<T> {
    /// The array as it is afterwards.
    Done(ArrayView<T>),
    /// There is no fill value, for this reason.
    NoFill(Seq<char>),
    /// The new size is refused.
    TooBig(SizeError),
}

/// An array given rows of the fill value until it has `len` rows; an array
/// of rank zero, or one with as many rows already, stays as it is.
pub open spec fn lengthened<T>(a: ArrayView<T>, len: usize, fill: Result<T, Seq<char>>, size: nat)
    -> Lengthened<T> {
    if a.rank() == 0 || a.row_count() >= len {
        Lengthened::Done(a)
    } else {
        match fill {
            Err(reason) => Lengthened::NoFill(reason),
            Ok(v) => match alloc_outcome(size, a.shape.update(0, len)) {
                Ok(_) => Lengthened::Done(a.padded_to(a.shape.update(0, len), v)),
                Err(e) => Lengthened::TooBig(e),
            },
        }
    }
}

} // verus!
