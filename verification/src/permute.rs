//! Combinations and permutations of the rows of an array: how many there
//! are, and the arrays that list them.

use vstd::prelude::*;
use vstd::string::StringExecFns;
use vstd::arithmetic::div_mod::{lemma_div_is_ordered, lemma_div_multiples_vanish};
use crate::array::{Array, ArrayView, PersistentMeta};
use crate::context::{plain_failure, Boxed, Complex, ErrorContext, Num};
use crate::num::{nat_bits, HIDDEN_BIT};
use crate::value::{Value, ValueView};
use crate::enumerate::{
    advance, counting, emit_mono, emit_swaps, gathered, in_order,
    lemma_bumped_tuple, lemma_gathered_len, lemma_tuple_at_valid, mono, passes, power, reversed,
    sifted, skipping, swap_perms, tuple_at, valid_tuple, Sink,
};
use crate::shape::{elements, fits, lemma_elements_skip, shape_fits};
use crate::size::{alloc_outcome, size_error_text, validate_shape, SizeError};
use crate::text::{decimal, decimal_string};

verus! {

/// The product of the first `j` ratios `(m + 1 - i) / i`, each division
/// taken as soon as its factor is multiplied in: the number of ways to pick
/// `j` of `m` things.
pub open spec fn ratio_product(m: nat, j: nat) -> nat
    decreases j,
{
    if j == 0 {
        1
    } else {
        (ratio_product(m, (j - 1) as nat) * (m + 1 - j) / (j as int)) as nat
    }
}

/// The number of things to pick from when `k` of `n` rows are chosen: with
/// repetition, `n + k - 1`.
pub open spec fn pick_from(n: nat, k: nat, same: bool) -> nat {
    if same && n + k > 0 {
        (n + k - 1) as nat
    } else {
        n
    }
}

/// The number of ratios that are multiplied: the smaller of `k` and what
/// is left beside it.
pub open spec fn pick_steps(n: nat, k: nat, same: bool) -> nat {
    let m = pick_from(n, k, same);
    if k <= m - k {
        k
    } else {
        (m - k) as nat
    }
}

/// The number of ways to choose `k` of `n` rows, where `k` is at most `n`.
pub open spec fn combination_count(n: nat, k: nat, same: bool) -> nat {
    ratio_product(pick_from(n, k, same), pick_steps(n, k, same))
}

/// The number of ordered selections of `k` of `n` rows, where `k` is at
/// most `n`: the product of `n`, `n - 1`, down to `n - k + 1`.
pub open spec fn permutation_count(n: nat, k: nat) -> nat
    decreases k,
{
    if k == 0 {
        1
    } else {
        (permutation_count(n, (k - 1) as nat) * (n - (k - 1))) as nat
    }
}

/// The message for a choice of more rows than there are.
pub open spec fn choose_refusal_text(n: nat, k: nat) -> Seq<char> {
    "Cannot choose combinations of "@ + decimal(k) + " rows from array of shape "@ + decimal(n)
}

/// The message for a permutation of more rows than there are.
pub open spec fn permute_refusal_text(n: nat, k: nat) -> Seq<char> {
    "Cannot get permutations of "@ + decimal(k) + " rows from array of shape "@ + decimal(n)
}

/// The message for a count that the machine word cannot hold.
pub open spec fn explosion_text() -> Seq<char> {
    "Combinatorial explosion"@
}

/// Up to the middle, the product of ratios does not shrink.
pub proof fn lemma_ratio_product_grows(m: nat, i: nat, j: nat)
    requires
        i <= j,
        2 * j <= m,
    ensures
        ratio_product(m, i) <= ratio_product(m, j),
    decreases j - i,
{
    if i < j {
        lemma_ratio_product_grows(m, i, (j - 1) as nat);
        let a = ratio_product(m, (j - 1) as nat) as int;
        let b = (m + 1 - j) as int;
        let d = j as int;
        assert(d * a <= a * b) by (nonlinear_arith)
            requires
                d <= b,
                0 <= a,
        ;
        lemma_div_is_ordered(d * a, a * b, d);
        lemma_div_multiples_vanish(a, d);
    }
}

/// While factors of at least one remain, the falling product does not shrink.
pub proof fn lemma_permutation_count_grows(n: nat, i: nat, k: nat)
    requires
        i <= k <= n,
    ensures
        permutation_count(n, i) <= permutation_count(n, k),
    decreases k - i,
{
    if i < k {
        lemma_permutation_count_grows(n, i, (k - 1) as nat);
        let a = permutation_count(n, (k - 1) as nat) as int;
        let b = (n - (k - 1)) as int;
        assert(a <= a * b) by (nonlinear_arith)
            requires
                1 <= b,
                0 <= a,
        ;
    }
}

fn refusal<C: ErrorContext>(lead: &str, n: usize, k: usize, ctx: &C) -> (e: C::Error)
    ensures
        plain_failure(
            ctx,
            lead@ + decimal(k as nat) + " rows from array of shape "@ + decimal(n as nat),
            e,
        ),
{
    let mut msg = String::from_str(lead);
    let rows = decimal_string(k);
    msg.append(rows.as_str());
    msg.append(" rows from array of shape ");
    let of = decimal_string(n);
    msg.append(of.as_str());
    ctx.error(msg)
}

fn explosion<C: ErrorContext>(ctx: &C) -> (e: C::Error)
    ensures
        plain_failure(ctx, explosion_text(), e),
{
    ctx.error(String::from_str("Combinatorial explosion"))
}

/// Counts the ways to choose `k` of `n` rows, with repetition where `same`
/// is set.
///
/// More rows than there are is refused with a message that names both
/// numbers; a count beyond the machine word is a combinatorial explosion.
#[verifier::rlimit(60)]
pub fn combinations<C: ErrorContext>(n: usize, k: usize, same: bool, ctx: &C) -> (result: Result<
    usize,
    C::Error,
>)
    ensures
        match result {
            Ok(count) => k <= n && count == combination_count(n as nat, k as nat, same),
            Err(e) => if k > n {
                plain_failure(ctx, choose_refusal_text(n as nat, k as nat), e)
            } else {
                combination_count(n as nat, k as nat, same) > usize::MAX && plain_failure(
                    ctx,
                    explosion_text(),
                    e,
                )
            },
        },
{
    if k > n {
        return Err(refusal("Cannot choose combinations of ", n, k, ctx));
    }
    let ghost steps = pick_steps(n as nat, k as nat, same);
    let ghost from = pick_from(n as nat, k as nat, same);
    let m: usize = if same && (n > 0 || k > 0) {
        match (n - 1).checked_add(k) {
            Some(sum) => sum,
            None => {
                proof {
                    assert(from == n + k - 1);
                    assert(steps >= 1);
                    assert(2 * steps <= from);
                    lemma_ratio_product_grows(from, 1, steps);
                    let start = ratio_product(from, 0) as int;
                    assert(start == 1);
                    let product = start * (from + 1 - 1);
                    assert(product == from) by (nonlinear_arith)
                        requires
                            start == 1,
                            product == start * (from + 1 - 1),
                    ;
                    assert(ratio_product(from, 1) == (product / 1) as nat);
                    assert(product / 1 == product);
                    assert(ratio_product(from, 1) == from);
                }
                return Err(explosion(ctx));
            },
        }
    } else {
        n
    };
    let j: usize = if k <= m - k { k } else { m - k };
    let mut count: usize = 1;
    let mut i: usize = 0;
    while i < j
        invariant
            i <= j,
            k <= n,
            j == steps,
            m == from,
            steps == pick_steps(n as nat, k as nat, same),
            from == pick_from(n as nat, k as nat, same),
            2 * j <= m,
            count == ratio_product(m as nat, i as nat),
        decreases j - i,
    {
        i += 1;
        let factor: usize = m - i + 1;
        assert((count as int) * (factor as int) <= 0xffff_ffff_ffff_ffff * 0xffff_ffff_ffff_ffff)
            by (nonlinear_arith)
            requires
                0 <= count <= 0xffff_ffff_ffff_ffff,
                0 <= factor <= 0xffff_ffff_ffff_ffff,
        ;
        let wide: u128 = (count as u128) * (factor as u128);
        let next: u128 = wide / (i as u128);
        assert(next == ratio_product(m as nat, i as nat));
        if next > usize::MAX as u128 {
            proof {
                lemma_ratio_product_grows(m as nat, i as nat, j as nat);
            }
            return Err(explosion(ctx));
        }
        count = next as usize;
    }
    Ok(count)
}

/// Counts the ordered selections of `k` of `n` rows.
///
/// More rows than there are is refused with a message that names both
/// numbers; a count beyond the machine word is a combinatorial explosion.
pub fn permutations<C: ErrorContext>(n: usize, k: usize, ctx: &C) -> (result: Result<usize, C::Error>)
    ensures
        match result {
            Ok(count) => k <= n && count == permutation_count(n as nat, k as nat),
            Err(e) => if k > n {
                plain_failure(ctx, permute_refusal_text(n as nat, k as nat), e)
            } else {
                permutation_count(n as nat, k as nat) > usize::MAX && plain_failure(
                    ctx,
                    explosion_text(),
                    e,
                )
            },
        },
{
    if k > n {
        return Err(refusal("Cannot get permutations of ", n, k, ctx));
    }
    let mut count: usize = 1;
    let mut i: usize = 0;
    while i < k
        invariant
            i <= k <= n,
            count == permutation_count(n as nat, i as nat),
        decreases k - i,
    {
        match count.checked_mul(n - i) {
            Some(next) => {
                count = next;
            },
            None => {
                proof {
                    lemma_permutation_count_grows(n as nat, (i + 1) as nat, k as nat);
                }
                return Err(explosion(ctx));
            },
        }
        i += 1;
    }
    Ok(count)
}

/// The message for an enumeration that outlasts its budget of steps.
pub open spec fn limit_text() -> Seq<char> {
    "Maximum execution time exceeded"@
}

/// Whether the choice of `k` of `n` rows counts through all tuples and
/// sifts them, which takes `n` to the power of `k` steps.
pub open spec fn sifts(n: nat, k: nat, same: bool) -> bool {
    k != 1 && !(k == n && !same) && !(k + 1 == n && !same) && k != 2 && k != 3
}

/// The tuples of row numbers that a choice of `k` of `n` rows lists.
///
/// One row at a time: each row. All rows without repetition: the rows as
/// they stand. All rows but one, without repetition: for each row from the
/// last to the first, the others. Else the tuples in order, earlier row
/// numbers weighing more.
pub open spec fn chosen(n: nat, k: nat, rev: bool, same: bool) -> Seq<Seq<usize>> {
    if k == 1 {
        Seq::new(n, |i: int| seq![i as usize])
    } else if k == n && !same {
        seq![counting(n)]
    } else if k + 1 == n && !same {
        Seq::new(n, |b: int| skipping(n, n - 1 - b, rev))
    } else {
        mono(Seq::empty(), k, 0, n as int, n as int, rev, same, false)
    }
}

/// The tuples of row numbers that a permutation of `k` of `n` rows lists:
/// all orderings of all rows, or all orderings of each choice of `k` rows
/// in rising order.
pub open spec fn permuted(n: nat, k: nat) -> Seq<Seq<usize>> {
    if k == n {
        swap_perms(counting(n), 0)
    } else {
        mono(Seq::empty(), k, 0, n as int, n as int, false, false, true)
    }
}

/// How a listing ends: with its tuples, or refused with a message.
pub enum Listing {
    Done(Seq<Seq<usize>>),
    Refused(Seq<char>),
}

/// How the choice of `k` rows of an array of shape `shape` ends, for
/// elements of `size` bytes and a budget of `budget` steps.
pub open spec fn choose_outcome(
    shape: Seq<usize>,
    k: nat,
    rev: bool,
    same: bool,
    budget: nat,
    size: nat,
) -> Listing {
    if shape.len() == 0 {
        Listing::Refused("Cannot choose from scalar"@)
    } else {
        let n = shape[0] as nat;
        if k > n {
            Listing::Refused(choose_refusal_text(n, k))
        } else if combination_count(n, k, same) > usize::MAX || k > usize::MAX {
            Listing::Refused(explosion_text())
        } else {
            match alloc_outcome(
                size,
                seq![combination_count(n, k, same) as usize, k as usize] + shape.skip(1),
            ) {
                Err(e) => Listing::Refused(size_error_text(e)),
                Ok(_) => if sifts(n, k, same) && power(n, k) > budget {
                    Listing::Refused(limit_text())
                } else {
                    Listing::Done(chosen(n, k, rev, same))
                },
            }
        }
    }
}

/// How the permutation of `k` rows of an array of shape `shape` ends.
pub open spec fn permute_outcome(shape: Seq<usize>, k: nat, size: nat) -> Listing {
    if shape.len() == 0 {
        Listing::Refused("Cannot permute scalar"@)
    } else {
        let n = shape[0] as nat;
        if k > n {
            Listing::Refused(permute_refusal_text(n, k))
        } else if permutation_count(n, k) > usize::MAX {
            Listing::Refused(explosion_text())
        } else {
            match alloc_outcome(
                size,
                seq![permutation_count(n, k) as usize, k as usize] + shape.skip(1),
            ) {
                Err(e) => Listing::Refused(size_error_text(e)),
                Ok(_) => Listing::Done(permuted(n, k)),
            }
        }
    }
}

/// The array that lists the rows that tuples of `k` row numbers pick from
/// `a`: one row for each tuple, of `k` rows of `a` each.
pub open spec fn listed<T>(a: ArrayView<T>, k: nat, tuples: Seq<Seq<usize>>) -> ArrayView<T> {
    ArrayView {
        shape: seq![tuples.len() as usize, k as usize] + a.shape.skip(1),
        data: gathered(a.data, a.row_len(), tuples),
        meta: PersistentMeta::empty(),
    }
}

/// Whether `result` gives what the listing `outcome` asks for.
pub open spec fn listing_reported<T, C: ErrorContext>(
    ctx: &C,
    a: ArrayView<T>,
    k: nat,
    outcome: Listing,
    result: Result<Array<T>, C::Error>,
) -> bool {
    match outcome {
        Listing::Refused(msg) => result is Err && plain_failure(ctx, msg, result->Err_0),
        Listing::Done(tuples) => result is Ok && result->Ok_0@ == listed(a, k, tuples)
            && result->Ok_0@.wf(),
    }
}

/// All digits of zero are zero.
pub proof fn lemma_tuple_at_zero(n: nat, k: nat)
    requires
        n >= 1,
    ensures
        tuple_at(n, k, 0) == Seq::new(k, |p: int| 0usize),
    decreases k,
{
    if k > 0 {
        lemma_tuple_at_zero(n, (k - 1) as nat);
        assert(0nat % n == 0 && 0nat / n == 0) by (nonlinear_arith)
            requires
                n >= 1,
        ;
        assert(tuple_at(n, k, 0) =~= Seq::new(k, |p: int| 0usize));
    } else {
        assert(tuple_at(n, k, 0) =~= Seq::new(k, |p: int| 0usize));
    }
}

/// A power of a positive number is positive.
pub proof fn lemma_power_positive(n: nat, k: nat)
    requires
        n >= 1,
    ensures
        power(n, k) >= 1,
    decreases k,
{
    if k > 0 {
        lemma_power_positive(n, (k - 1) as nat);
        assert(n * power(n, (k - 1) as nat) >= 1) by (nonlinear_arith)
            requires
                n >= 1,
                power(n, (k - 1) as nat) >= 1,
        ;
    }
}

fn check_passes(indices: &Vec<usize>, rev: bool, same: bool) -> (ok: bool)
    ensures
        ok == passes(indices@, rev, same),
{
    if indices.len() < 2 {
        return true;
    }
    let mut a: usize = 0;
    while a < indices.len() - 1
        invariant
            a <= indices.len() - 1,
            indices.len() >= 2,
            forall|b: int| 0 <= b < a ==> in_order(#[trigger] indices@[b + 1], indices@[b], rev, same),
        decreases indices.len() - a,
    {
        let x: usize = indices[a + 1];
        let y: usize = indices[a];
        let fine: bool = if rev {
            if same {
                x >= y
            } else {
                x > y
            }
        } else {
            if same {
                x <= y
            } else {
                x < y
            }
        };
        if !fine {
            assert(!in_order(indices@[a + 1], indices@[a as int], rev, same));
            return false;
        }
        a += 1;
    }
    true
}

fn reverse_of(indices: &Vec<usize>) -> (back: Vec<usize>)
    ensures
        back@ == reversed(indices@),
{
    let mut back: Vec<usize> = Vec::new();
    let mut p: usize = 0;
    while p < indices.len()
        invariant
            p <= indices.len(),
            back@.len() == p,
            forall|q: int| 0 <= q < p ==> back@[q] == indices@[indices@.len() - 1 - q],
        decreases indices.len() - p,
    {
        back.push(indices[indices.len() - 1 - p]);
        p += 1;
    }
    assert(back@ =~= reversed(indices@));
    back
}

/// Counts through all tuples of `k` row numbers below `n` and writes those
/// that pass, one step of the budget for each tuple counted. Says whether
/// the budget sufficed.
#[verifier::rlimit(60)]
fn emit_sifted<T: Copy>(
    sink: &mut Sink<T>,
    src: &Vec<T>,
    len: usize,
    n: usize,
    k: usize,
    rev: bool,
    same: bool,
    budget: usize,
) -> (done: bool)
    requires
        old(sink).holds(src@, len as nat, n as nat, k as nat),
        old(sink).tuples@ == Seq::<Seq<usize>>::empty(),
        n * len <= src.len(),
        k == 0 || n >= 1,
    ensures
        final(sink).holds(src@, len as nat, n as nat, k as nat),
        done == (power(n as nat, k as nat) <= budget),
        done ==> final(sink).tuples@ == sifted(
            n as nat,
            k as nat,
            rev,
            same,
            power(n as nat, k as nat),
        ),
{
    let mut indices: Vec<usize> = Vec::new();
    let mut z: usize = 0;
    while z < k
        invariant
            z <= k,
            indices@ == Seq::new(z as nat, |p: int| 0usize),
        decreases k - z,
    {
        indices.push(0);
        z += 1;
        assert(indices@ =~= Seq::new(z as nat, |p: int| 0usize));
    }
    if k == 0 {
        assert(indices@ =~= tuple_at(n as nat, 0, 0));
        assert(power(n as nat, 0) == 1);
        if budget == 0 {
            return false;
        }
        sink.emit(src, len, &indices, Ghost(n as nat));
        proof {
            assert(passes(indices@, rev, same));
            assert(reversed(indices@) =~= indices@);
            assert(sifted(n as nat, 0, rev, same, 0) =~= Seq::<Seq<usize>>::empty());
            assert(sink.tuples@ =~= sifted(n as nat, 0, rev, same, 1));
        }
        return true;
    }
    proof {
        lemma_tuple_at_zero(n as nat, k as nat);
        lemma_power_positive(n as nat, k as nat);
    }
    let mut m: usize = 0;
    loop
        invariant
            n >= 1,
            k >= 1,
            n * len <= src.len(),
            indices@ == tuple_at(n as nat, k as nat, m as nat),
            m < power(n as nat, k as nat),
            m <= budget,
            sink.holds(src@, len as nat, n as nat, k as nat),
            sink.tuples@ == sifted(n as nat, k as nat, rev, same, m as nat),
        decreases budget - m,
    {
        if m >= budget {
            return false;
        }
        proof {
            lemma_tuple_at_valid(n as nat, k as nat, m as nat);
            lemma_bumped_tuple(n as nat, k as nat, m as nat);
        }
        if check_passes(&indices, rev, same) {
            let back = reverse_of(&indices);
            sink.emit(src, len, &back, Ghost(n as nat));
        }
        assert(sink.tuples@ == sifted(n as nat, k as nat, rev, same, (m + 1) as nat));
        let more = advance(&mut indices, n);
        m += 1;
        if !more {
            return true;
        }
    }
}

/// Dimensions that fit still fit with another leading dimension, as long
/// as their product fits the machine word.
pub proof fn lemma_fits_head(x: usize, c: usize, tail: Seq<usize>)
    requires
        fits(seq![x] + tail),
        elements(seq![c] + tail) <= usize::MAX,
    ensures
        fits(seq![c] + tail),
{
    let a = seq![x] + tail;
    let b = seq![c] + tail;
    assert forall|j: int| 0 <= j <= b.len() implies #[trigger] elements(b.skip(j))
        <= usize::MAX by {
        if j == 0 {
            assert(b.skip(0) =~= b);
        } else {
            assert(b.skip(j) =~= a.skip(j));
            assert(elements(a.skip(j)) <= usize::MAX);
        }
    }
}

#[verifier::rlimit(60)]
fn finish_listing<T: Copy, C: ErrorContext>(
    source: &Array<T>,
    sink: Sink<T>,
    k: usize,
    ctx: &C,
    Ghost(planned): Ghost<usize>,
) -> (result: Result<Array<T>, C::Error>)
    requires
        source@.wf(),
        source@.shape.len() > 0,
        sink.holds(source@.data, source@.row_len(), source@.shape[0] as nat, k as nat),
        fits(seq![planned, k] + source@.shape.skip(1)),
        sink.tuples@.len() <= usize::MAX,
    ensures
        listing_reported(ctx, source@, k as nat, Listing::Done(sink.tuples@), result),
{
    let ghost tuples = sink.tuples@;
    let ghost rest = source@.shape.skip(1);
    let mut shape: Vec<usize> = Vec::new();
    shape.push(sink.count);
    shape.push(k);
    let mut i: usize = 1;
    while i < source.shape.len()
        invariant
            1 <= i <= source.shape.len(),
            shape@ == seq![sink.count, k] + source.shape@.subrange(1, i as int),
        decreases source.shape.len() - i,
    {
        shape.push(source.shape[i]);
        i += 1;
        assert(shape@ =~= seq![sink.count, k] + source.shape@.subrange(1, i as int));
    }
    assert(shape@ =~= seq![sink.count, k] + rest);
    let held: usize = sink.data.len();
    proof {
        let n = source@.shape[0] as nat;
        let len = source@.row_len();
        lemma_elements_skip(source@.shape, 0);
        assert(source@.shape.skip(0) =~= source@.shape);
        lemma_gathered_len(source@.data, len, tuples, n, k as nat);
        let inner = seq![k] + rest;
        assert(shape@.skip(1) =~= inner);
        assert(shape@.skip(0) =~= shape@);
        assert(inner.skip(1) =~= rest);
        lemma_elements_skip(shape@, 0);
        lemma_elements_skip(inner, 0);
        assert(inner.skip(0) =~= inner);
        assert(elements(shape@) == tuples.len() * (k * len)) by (nonlinear_arith)
            requires
                elements(shape@) == (sink.count as nat) * elements(inner),
                elements(inner) == (k as nat) * elements(rest),
                elements(rest) == len,
                sink.count == tuples.len(),
        ;
        assert(seq![planned, k] + rest =~= seq![planned] + inner);
        assert(shape@ =~= seq![sink.count] + inner);
        assert(elements(shape@) == held);
        lemma_fits_head(planned, sink.count, inner);
    }
    Ok(Array { shape, data: sink.data, meta: PersistentMeta::new() })
}

fn plain<C: ErrorContext>(ctx: &C, msg: &str) -> (e: C::Error)
    ensures
        plain_failure(ctx, msg@, e),
{
    ctx.error(String::from_str(msg))
}

fn size_refusal<C: ErrorContext>(ctx: &C, e: SizeError) -> (err: C::Error)
    ensures
        plain_failure(ctx, size_error_text(e), err),
{
    ctx.error(e.message())
}

fn planned_shape(count: usize, k: usize, shape: &Vec<usize>) -> (planned: Vec<usize>)
    requires
        shape@.len() > 0,
    ensures
        planned@ == seq![count, k] + shape@.skip(1),
{
    let mut planned: Vec<usize> = Vec::new();
    planned.push(count);
    planned.push(k);
    let mut i: usize = 1;
    while i < shape.len()
        invariant
            1 <= i <= shape.len(),
            planned@ == seq![count, k] + shape@.subrange(1, i as int),
        decreases shape.len() - i,
    {
        planned.push(shape[i]);
        i += 1;
        assert(planned@ =~= seq![count, k] + shape@.subrange(1, i as int));
    }
    assert(planned@ =~= seq![count, k] + shape@.skip(1));
    planned
}

impl<T: Copy> Array<T> {
    /// Lists the combinations of `k` rows of the array: an array with one row
    /// for each combination, of `k` rows each, in the order that `chosen`
    /// gives. With `same`, a row may be chosen more than once; with `rev`,
    /// the rows of a combination come in falling order.
    ///
    /// A scalar, more rows than there are, a count beyond the machine word,
    /// a size that is refused and, where all tuples are counted through, a
    /// budget that does not suffice are refused, each with its message.
    #[verifier::rlimit(60)]
    pub fn choose_rows<C: ErrorContext>(
        &self,
        k: usize,
        rev: bool,
        same: bool,
        budget: usize,
        ctx: &C,
    ) -> (result: Result<Array<T>, C::Error>)
        requires
            self@.wf(),
        ensures
            listing_reported(
                ctx,
                self@,
                k as nat,
                choose_outcome(
                    self@.shape,
                    k as nat,
                    rev,
                    same,
                    budget as nat,
                    vstd::layout::size_of::<T>(),
                ),
                result,
            ),
    {
        if self.shape.len() == 0 {
            return Err(plain(ctx, "Cannot choose from scalar"));
        }
        let n: usize = self.shape[0];
        let count: usize = match combinations(n, k, same, ctx) {
            Ok(c) => c,
            Err(e) => {
                return Err(e);
            },
        };
        let planned = planned_shape(count, k, &self.shape);
        match validate_shape(core::mem::size_of::<T>(), planned.as_slice()) {
            Err(e) => {
                return Err(size_refusal(ctx, e));
            },
            Ok(_) => {},
        }
        let len: usize = self.row_len();
        proof {
            lemma_elements_skip(self.shape@, 0);
            assert(self.shape@.skip(0) =~= self.shape@);
        }
        let mut sink: Sink<T> = Sink::new(
            Ghost(self.data@),
            Ghost(len as nat),
            Ghost(n as nat),
            Ghost(k as nat),
        );
        if k == 1 {
            let mut i: usize = 0;
            assert(sink.tuples@ =~= Seq::new(0, |x: int| seq![x as usize]));
            while i < n
                invariant
                    i <= n,
                    n * len <= self.data.len(),
                    sink.holds(self.data@, len as nat, n as nat, 1),
                    sink.tuples@ == Seq::new(i as nat, |x: int| seq![x as usize]),
                decreases n - i,
            {
                let mut tuple: Vec<usize> = Vec::new();
                tuple.push(i);
                sink.emit(&self.data, len, &tuple, Ghost(n as nat));
                i += 1;
                assert(tuple@ =~= seq![(i - 1) as usize]);
                assert(sink.tuples@ =~= Seq::new(i as nat, |x: int| seq![x as usize]));
            }
        } else if k == n && !same {
            let mut tuple: Vec<usize> = Vec::new();
            let mut i: usize = 0;
            while i < n
                invariant
                    i <= n,
                    tuple@ == counting(i as nat),
                decreases n - i,
            {
                tuple.push(i);
                i += 1;
                assert(tuple@ =~= counting(i as nat));
            }
            sink.emit(&self.data, len, &tuple, Ghost(n as nat));
            assert(sink.tuples@ =~= seq![counting(n as nat)]);
        } else if n - k == 1 && !same {
            let mut b: usize = 0;
            assert(sink.tuples@ =~= Seq::new(0, |x: int| skipping(n as nat, n - 1 - x, rev)));
            while b < n
                invariant
                    b <= n,
                    k + 1 == n,
                    n * len <= self.data.len(),
                    sink.holds(self.data@, len as nat, n as nat, k as nat),
                    sink.tuples@ == Seq::new(b as nat, |x: int| skipping(n as nat, n - 1 - x, rev)),
                decreases n - b,
            {
                let skip: usize = n - 1 - b;
                let mut tuple: Vec<usize> = Vec::new();
                let mut p: usize = 0;
                while p < n - 1
                    invariant
                        p <= n - 1,
                        skip < n,
                        tuple@.len() == p,
                        forall|q: int|
                            0 <= q < p ==> tuple@[q] == skipping(n as nat, skip as int, rev)[q],
                    decreases n - 1 - p,
                {
                    let row: usize = if rev {
                        if n - 1 - p > skip {
                            n - 1 - p
                        } else {
                            n - 2 - p
                        }
                    } else {
                        if p < skip {
                            p
                        } else {
                            p + 1
                        }
                    };
                    tuple.push(row);
                    p += 1;
                }
                assert(tuple@ =~= skipping(n as nat, skip as int, rev));
                sink.emit(&self.data, len, &tuple, Ghost(n as nat));
                b += 1;
                assert(sink.tuples@ =~= Seq::new(
                    b as nat,
                    |x: int| skipping(n as nat, n - 1 - x, rev),
                ));
            }
        } else if k == 2 || k == 3 {
            let mut prefix: Vec<usize> = Vec::new();
            emit_mono(&mut sink, &self.data, len, &mut prefix, k, 0, n, n, rev, same, false);
            assert(sink.tuples@ =~= mono(
                Seq::empty(),
                k as nat,
                0,
                n as int,
                n as int,
                rev,
                same,
                false,
            ));
        } else {
            if !emit_sifted(&mut sink, &self.data, len, n, k, rev, same, budget) {
                return Err(plain(ctx, "Maximum execution time exceeded"));
            }
            proof {
                crate::sifting::lemma_sifted_is_mono(n as nat, k as nat, rev, same);
            }
        }
        proof {
            crate::counting::lemma_chosen_count(n as nat, k as nat, rev, same);
        }
        finish_listing(self, sink, k, ctx, Ghost(count))
    }

    /// Lists the permutations of `k` rows of the array: an array with one
    /// row for each ordered selection of `k` different rows, in the order
    /// that `permuted` gives.
    ///
    /// A scalar, more rows than there are, a count beyond the machine word
    /// and a size that is refused are refused, each with its message.
    pub fn permute<C: ErrorContext>(&self, k: usize, ctx: &C) -> (result: Result<Array<T>, C::Error>)
        requires
            self@.wf(),
        ensures
            listing_reported(
                ctx,
                self@,
                k as nat,
                permute_outcome(self@.shape, k as nat, vstd::layout::size_of::<T>()),
                result,
            ),
    {
        if self.shape.len() == 0 {
            return Err(plain(ctx, "Cannot permute scalar"));
        }
        let n: usize = self.shape[0];
        let count: usize = match permutations(n, k, ctx) {
            Ok(c) => c,
            Err(e) => {
                return Err(e);
            },
        };
        let planned = planned_shape(count, k, &self.shape);
        match validate_shape(core::mem::size_of::<T>(), planned.as_slice()) {
            Err(e) => {
                return Err(size_refusal(ctx, e));
            },
            Ok(_) => {},
        }
        let len: usize = self.row_len();
        proof {
            lemma_elements_skip(self.shape@, 0);
            assert(self.shape@.skip(0) =~= self.shape@);
        }
        let mut sink: Sink<T> = Sink::new(
            Ghost(self.data@),
            Ghost(len as nat),
            Ghost(n as nat),
            Ghost(k as nat),
        );
        if k == n {
            let mut tuple: Vec<usize> = Vec::new();
            let mut i: usize = 0;
            while i < n
                invariant
                    i <= n,
                    tuple@ == counting(i as nat),
                decreases n - i,
            {
                tuple.push(i);
                i += 1;
                assert(tuple@ =~= counting(i as nat));
            }
            emit_swaps(&mut sink, &self.data, len, &tuple, 0, Ghost(n as nat));
            assert(sink.tuples@ =~= swap_perms(counting(n as nat), 0));
        } else {
            let mut prefix: Vec<usize> = Vec::new();
            emit_mono(&mut sink, &self.data, len, &mut prefix, k, 0, n, n, false, false, true);
            assert(sink.tuples@ =~= mono(
                Seq::empty(),
                k as nat,
                0,
                n as int,
                n as int,
                false,
                false,
                true,
            ));
        }
        proof {
            crate::counting::lemma_permuted_count(n as nat, k as nat);
        }
        finish_listing(self, sink, k, ctx, Ghost(count))
    }
}

/// The size in bytes of one element of a value.
pub open spec fn element_size(v: ValueView) -> nat {
    match v {
        ValueView::Num(_) => vstd::layout::size_of::<Num>(),
        ValueView::Byte(_) => vstd::layout::size_of::<u8>(),
        ValueView::Complex(_) => vstd::layout::size_of::<Complex>(),
        ValueView::Char(_) => vstd::layout::size_of::<char>(),
        ValueView::Box(_) => vstd::layout::size_of::<Boxed>(),
    }
}

/// The value that lists the rows that tuples of `k` row numbers pick from
/// a value.
pub open spec fn listed_value(from: ValueView, k: nat, tuples: Seq<Seq<usize>>) -> ValueView {
    match from {
        ValueView::Num(a) => ValueView::Num(listed(a, k, tuples)),
        ValueView::Byte(a) => ValueView::Byte(listed(a, k, tuples)),
        ValueView::Complex(a) => ValueView::Complex(listed(a, k, tuples)),
        ValueView::Char(a) => ValueView::Char(listed(a, k, tuples)),
        ValueView::Box(a) => ValueView::Box(listed(a, k, tuples)),
    }
}

/// The scalar number that equals a count, where the count has a double of
/// its own; else the count is a combinatorial explosion.
pub open spec fn count_value(count: nat) -> Result<ValueView, Seq<char>> {
    if count < 2 * HIDDEN_BIT {
        Ok(
            ValueView::Num(
                ArrayView {
                    shape: Seq::empty(),
                    data: seq![Num { bits: nat_bits(count) as u64 }],
                    meta: PersistentMeta::empty(),
                },
            ),
        )
    } else {
        Err(explosion_text())
    }
}

/// The number of combinations, or the message of its refusal.
pub open spec fn combinations_outcome(n: nat, k: nat, same: bool) -> Result<nat, Seq<char>> {
    if k > n {
        Err(choose_refusal_text(n, k))
    } else if combination_count(n, k, same) > usize::MAX {
        Err(explosion_text())
    } else {
        Ok(combination_count(n, k, same))
    }
}

/// The number of permutations, or the message of its refusal.
pub open spec fn permutations_outcome(n: nat, k: nat) -> Result<nat, Seq<char>> {
    if k > n {
        Err(permute_refusal_text(n, k))
    } else if permutation_count(n, k) > usize::MAX {
        Err(explosion_text())
    } else {
        Ok(permutation_count(n, k))
    }
}

/// What the choice of `k` rows of `from` gives: the number of combinations
/// where `from` is a natural number, else the list of the combinations of
/// its rows; or a refusal with its message.
pub open spec fn choose_value(k: ValueView, from: ValueView, rev: bool, same: bool, budget: nat)
    -> Result<ValueView, Seq<char>> {
    match k.natural() {
        None => Err("Choose k must be an integer"@),
        Some(k) => match from.natural() {
            Some(n) => match combinations_outcome(n as nat, k as nat, same) {
                Err(msg) => Err(msg),
                Ok(c) => count_value(c),
            },
            None => match choose_outcome(
                from.shape(),
                k as nat,
                rev,
                same,
                budget,
                element_size(from),
            ) {
                Listing::Refused(msg) => Err(msg),
                Listing::Done(tuples) => Ok(listed_value(from, k as nat, tuples)),
            },
        },
    }
}

/// What the permutation of `k` rows of `from` gives: the number of
/// permutations where `from` is a natural number, else the list of the
/// permutations of its rows; or a refusal with its message.
pub open spec fn permute_value(k: ValueView, from: ValueView) -> Result<ValueView, Seq<char>> {
    match k.natural() {
        None => Err("Permute k must be an integer"@),
        Some(k) => match from.natural() {
            Some(n) => match permutations_outcome(n as nat, k as nat) {
                Err(msg) => Err(msg),
                Ok(c) => count_value(c),
            },
            None => match permute_outcome(from.shape(), k as nat, element_size(from)) {
                Listing::Refused(msg) => Err(msg),
                Listing::Done(tuples) => Ok(listed_value(from, k as nat, tuples)),
            },
        },
    }
}

/// Whether `result` gives what `outcome` asks for.
pub open spec fn value_reported<C: ErrorContext>(
    ctx: &C,
    outcome: Result<ValueView, Seq<char>>,
    result: Result<Value, C::Error>,
) -> bool {
    match outcome {
        Ok(v) => result is Ok && result->Ok_0@ == v && v.wf(),
        Err(msg) => result is Err && plain_failure(ctx, msg, result->Err_0),
    }
}

fn count_scalar<C: ErrorContext>(count: usize, ctx: &C) -> (result: Result<Value, C::Error>)
    ensures
        value_reported(ctx, count_value(count as nat), result),
{
    match Num::from_nat(count) {
        Some(n) => Ok(Value::Num(Array::scalar(n))),
        None => Err(explosion(ctx)),
    }
}

impl Value {
    /// Chooses `self` rows of `from`: the number of combinations where
    /// `from` is a natural number, else the value that lists the
    /// combinations of the rows of `from`, as `Array::choose_rows` does.
    pub fn choose_rows<C: ErrorContext>(
        &self,
        from: &Value,
        reverse: bool,
        same: bool,
        budget: usize,
        ctx: &C,
    ) -> (result: Result<Value, C::Error>)
        requires
            self@.wf(),
            from@.wf(),
        ensures
            value_reported(
                ctx,
                choose_value(self@, from@, reverse, same, budget as nat),
                result,
            ),
    {
        let k: usize = match self.as_nat(ctx, "Choose k must be an integer") {
            Ok(k) => k,
            Err(e) => {
                return Err(e);
            },
        };
        if let Some(n) = natural_of(from) {
            return match combinations(n, k, same, ctx) {
                Ok(count) => count_scalar(count, ctx),
                Err(e) => Err(e),
            };
        }
        match from {
            Value::Num(a) => match a.choose_rows(k, reverse, same, budget, ctx) {
                Ok(r) => Ok(Value::Num(r)),
                Err(e) => Err(e),
            },
            Value::Byte(a) => match a.choose_rows(k, reverse, same, budget, ctx) {
                Ok(r) => Ok(Value::Byte(r)),
                Err(e) => Err(e),
            },
            Value::Complex(a) => match a.choose_rows(k, reverse, same, budget, ctx) {
                Ok(r) => Ok(Value::Complex(r)),
                Err(e) => Err(e),
            },
            Value::Char(a) => match a.choose_rows(k, reverse, same, budget, ctx) {
                Ok(r) => Ok(Value::Char(r)),
                Err(e) => Err(e),
            },
            Value::Box(a) => match a.choose_rows(k, reverse, same, budget, ctx) {
                Ok(r) => Ok(Value::Box(r)),
                Err(e) => Err(e),
            },
        }
    }

    /// Permutes `self` rows of `from`: the number of permutations where
    /// `from` is a natural number, else the value that lists the
    /// permutations of the rows of `from`, as `Array::permute` does.
    pub fn permute<C: ErrorContext>(&self, from: &Value, ctx: &C) -> (result: Result<Value, C::Error>)
        requires
            self@.wf(),
            from@.wf(),
        ensures
            value_reported(ctx, permute_value(self@, from@), result),
    {
        let k: usize = match self.as_nat(ctx, "Permute k must be an integer") {
            Ok(k) => k,
            Err(e) => {
                return Err(e);
            },
        };
        if let Some(n) = natural_of(from) {
            return match permutations(n, k, ctx) {
                Ok(count) => count_scalar(count, ctx),
                Err(e) => Err(e),
            };
        }
        match from {
            Value::Num(a) => match a.permute(k, ctx) {
                Ok(r) => Ok(Value::Num(r)),
                Err(e) => Err(e),
            },
            Value::Byte(a) => match a.permute(k, ctx) {
                Ok(r) => Ok(Value::Byte(r)),
                Err(e) => Err(e),
            },
            Value::Complex(a) => match a.permute(k, ctx) {
                Ok(r) => Ok(Value::Complex(r)),
                Err(e) => Err(e),
            },
            Value::Char(a) => match a.permute(k, ctx) {
                Ok(r) => Ok(Value::Char(r)),
                Err(e) => Err(e),
            },
            Value::Box(a) => match a.permute(k, ctx) {
                Ok(r) => Ok(Value::Box(r)),
                Err(e) => Err(e),
            },
        }
    }
}

/// The natural number that a value is, if it is one.
pub fn natural_of(v: &Value) -> (n: Option<usize>)
    requires
        v@.wf(),
    ensures
        n == v@.natural(),
{
    if v.shape().len() != 0 || v.data_len() != 1 {
        return None;
    }
    match v {
        Value::Byte(a) => {
            assert(v@.naturals()->0[0] == a@.data[0] as usize);
            Some(a.data[0] as usize)
        },
        Value::Num(a) => {
            let r = a.data[0].as_nat();
            proof {
                if r is Some {
                    assert forall|i: int| 0 <= i < a@.data.len() implies crate::value::natural(
                        #[trigger] a@.data[i],
                    ) is Some by {
                        assert(i == 0);
                    }
                } else {
                    assert(!(crate::value::natural(a@.data[0]) is Some));
                }
            }
            r
        },
        _ => None,
    }
}

impl<T: Copy> Array<T> {
    /// Lists the rows that tuples of `k` row numbers pick from the array:
    /// an array with one row for each tuple, of `k` rows each. Refused with
    /// the message of the size error where the shape of the list does not
    /// fit the machine word.
    pub fn list_rows<C: ErrorContext>(&self, tuples: &Vec<Vec<usize>>, k: usize, ctx: &C) -> (result:
        Result<Array<T>, C::Error>)
        requires
            self@.wf(),
            self@.shape.len() > 0,
            forall|t: int|
                0 <= t < tuples@.len() ==> valid_tuple(
                    (#[trigger] tuples@[t])@,
                    self@.shape[0] as nat,
                    k as nat,
                ),
        ensures
            listing_reported(
                ctx,
                self@,
                k as nat,
                if !fits(seq![tuples@.len() as usize, k] + self@.shape.skip(1)) {
                    Listing::Refused(size_error_text(SizeError::Overflow))
                } else {
                    Listing::Done(tuples@.map_values(|t: Vec<usize>| t@))
                },
                result,
            ),
    {
        let planned = planned_shape(tuples.len(), k, &self.shape);
        if !shape_fits(planned.as_slice()) {
            return Err(size_refusal(ctx, SizeError::Overflow));
        }
        let n: usize = self.shape[0];
        let len: usize = self.row_len();
        proof {
            lemma_elements_skip(self.shape@, 0);
            assert(self.shape@.skip(0) =~= self.shape@);
        }
        let mut sink: Sink<T> = Sink::new(
            Ghost(self.data@),
            Ghost(len as nat),
            Ghost(n as nat),
            Ghost(k as nat),
        );
        let ghost all = tuples@.map_values(|t: Vec<usize>| t@);
        let mut i: usize = 0;
        assert(sink.tuples@ =~= all.take(0));
        while i < tuples.len()
            invariant
                i <= tuples.len(),
                all == tuples@.map_values(|t: Vec<usize>| t@),
                n * len <= self.data.len(),
                n == self@.shape[0],
                forall|t: int|
                    0 <= t < tuples@.len() ==> valid_tuple(
                        (#[trigger] tuples@[t])@,
                        n as nat,
                        k as nat,
                    ),
                sink.holds(self.data@, len as nat, n as nat, k as nat),
                sink.tuples@ == all.take(i as int),
            decreases tuples.len() - i,
        {
            assert(valid_tuple(tuples@[i as int]@, n as nat, k as nat));
            sink.emit(&self.data, len, &tuples[i], Ghost(n as nat));
            i += 1;
            assert(sink.tuples@ =~= all.take(i as int));
        }
        assert(all.take(i as int) =~= all);
        finish_listing(self, sink, k, ctx, Ghost(tuples.len()))
    }
}

impl Value {
    /// Lists the rows that tuples of `k` row numbers pick from the value,
    /// as `Array::list_rows` does.
    pub fn list_rows<C: ErrorContext>(&self, tuples: &Vec<Vec<usize>>, k: usize, ctx: &C) -> (result:
        Result<Value, C::Error>)
        requires
            self@.wf(),
            self@.shape().len() > 0,
            forall|t: int|
                0 <= t < tuples@.len() ==> valid_tuple(
                    (#[trigger] tuples@[t])@,
                    self@.shape()[0] as nat,
                    k as nat,
                ),
        ensures
            value_reported(
                ctx,
                if !fits(seq![tuples@.len() as usize, k] + self@.shape().skip(1)) {
                    Err(size_error_text(SizeError::Overflow))
                } else {
                    Ok(listed_value(self@, k as nat, tuples@.map_values(|t: Vec<usize>| t@)))
                },
                result,
            ),
    {
        match self {
            Value::Num(a) => match a.list_rows(tuples, k, ctx) {
                Ok(r) => Ok(Value::Num(r)),
                Err(e) => Err(e),
            },
            Value::Byte(a) => match a.list_rows(tuples, k, ctx) {
                Ok(r) => Ok(Value::Byte(r)),
                Err(e) => Err(e),
            },
            Value::Complex(a) => match a.list_rows(tuples, k, ctx) {
                Ok(r) => Ok(Value::Complex(r)),
                Err(e) => Err(e),
            },
            Value::Char(a) => match a.list_rows(tuples, k, ctx) {
                Ok(r) => Ok(Value::Char(r)),
                Err(e) => Err(e),
            },
            Value::Box(a) => match a.list_rows(tuples, k, ctx) {
                Ok(r) => Ok(Value::Box(r)),
                Err(e) => Err(e),
            },
        }
    }
}

} // verus!
