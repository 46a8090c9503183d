//! Binomial coefficients, and the counts of combinations as binomial
//! coefficients.

use vstd::prelude::*;
use vstd::arithmetic::div_mod::lemma_div_multiples_vanish;
use crate::enumerate::{
    counting, heap_all, heap_steps, leaf, mono, next_hi, next_lo, swap_perms, swap_range, swapped,
};
use crate::permute::{
    chosen, combination_count, permutation_count, permuted, pick_from, pick_steps, ratio_product,
};

verus! {

/// The number of ways to pick `r` of `m` things, by the rule that a thing
/// is either picked or not.
pub open spec fn binomial(m: nat, r: nat) -> nat
    decreases m,
{
    if r == 0 {
        1
    } else if m == 0 {
        0
    } else {
        binomial((m - 1) as nat, (r - 1) as nat) + binomial((m - 1) as nat, r)
    }
}

/// More things than there are cannot be picked.
pub proof fn lemma_binomial_beyond(m: nat, r: nat)
    requires
        r > m,
    ensures
        binomial(m, r) == 0,
    decreases m,
{
    if m > 0 {
        lemma_binomial_beyond((m - 1) as nat, (r - 1) as nat);
        lemma_binomial_beyond((m - 1) as nat, r);
    }
}

/// There is one way to pick all things.
pub proof fn lemma_binomial_full(m: nat)
    ensures
        binomial(m, m) == 1,
    decreases m,
{
    if m > 0 {
        lemma_binomial_full((m - 1) as nat);
        lemma_binomial_beyond((m - 1) as nat, m);
    }
}

/// Picking `j` things and marking one of them is picking one of all things
/// and `j - 1` of the others, and is picking `j - 1` things and one of the
/// rest.
pub proof fn lemma_binomial_absorb(m: nat, j: nat)
    requires
        1 <= j <= m,
    ensures
        binomial(m, j) * j == m * binomial((m - 1) as nat, (j - 1) as nat),
        binomial(m, (j - 1) as nat) * (m - j + 1) == m * binomial(
            (m - 1) as nat,
            (j - 1) as nat,
        ),
    decreases m,
{
    let inner = binomial((m - 1) as nat, (j - 1) as nat) as int;
    let mm = m as int;
    let jj = j as int;
    if j < m {
        lemma_binomial_absorb((m - 1) as nat, j);
        let up = binomial((m - 1) as nat, j) as int;
        let low = binomial((m - 2) as nat, (j - 1) as nat) as int;
        assert(binomial(m, j) == inner + up);
        assert(up * jj == (mm - 1) * low);
        assert(inner * (mm - jj) == (mm - 1) * low);
        assert((inner + up) * jj == mm * inner) by (nonlinear_arith)
            requires
                up * jj == (mm - 1) * low,
                inner * (mm - jj) == (mm - 1) * low,
        ;
    } else {
        lemma_binomial_beyond((m - 1) as nat, j);
        assert(binomial(m, j) == inner);
        assert(inner * jj == mm * inner) by (nonlinear_arith)
            requires
                jj == mm,
        ;
    }
    if j == 1 {
        assert(binomial(m, 0) == 1);
        assert(inner == 1);
        assert(1 * (mm - jj + 1) == mm * 1) by (nonlinear_arith)
            requires
                jj == 1,
        ;
    } else {
        lemma_binomial_absorb((m - 1) as nat, (j - 1) as nat);
        let down = binomial((m - 1) as nat, (j - 2) as nat) as int;
        let low = binomial((m - 2) as nat, (j - 2) as nat) as int;
        assert(binomial(m, (j - 1) as nat) == down + inner);
        assert(inner * (jj - 1) == (mm - 1) * low);
        assert(down * (mm - jj + 1) == (mm - 1) * low);
        assert((down + inner) * (mm - jj + 1) == mm * inner) by (nonlinear_arith)
            requires
                inner * (jj - 1) == (mm - 1) * low,
                down * (mm - jj + 1) == (mm - 1) * low,
        ;
    }
}

/// The product of ratios is the binomial coefficient.
pub proof fn lemma_ratio_product_is_binomial(m: nat, j: nat)
    requires
        j <= m,
    ensures
        ratio_product(m, j) == binomial(m, j),
    decreases j,
{
    if j > 0 {
        lemma_ratio_product_is_binomial(m, (j - 1) as nat);
        lemma_binomial_absorb(m, j);
        let before = binomial(m, (j - 1) as nat) as int;
        let now = binomial(m, j) as int;
        let jj = j as int;
        assert(before * (m + 1 - j) == jj * now) by (nonlinear_arith)
            requires
                now * jj == m * binomial((m - 1) as nat, (j - 1) as nat),
                before * (m - j + 1) == m * binomial((m - 1) as nat, (j - 1) as nat),
        ;
        lemma_div_multiples_vanish(now, jj);
    }
}

/// Picking `k` of `m` things is leaving out `m - k` of them.
pub proof fn lemma_binomial_symmetric(m: nat, k: nat)
    requires
        k <= m,
    ensures
        binomial(m, k) == binomial(m, (m - k) as nat),
    decreases m,
{
    if k == 0 {
        lemma_binomial_full(m);
    } else if k == m {
        lemma_binomial_full(m);
    } else {
        lemma_binomial_symmetric((m - 1) as nat, (k - 1) as nat);
        lemma_binomial_symmetric((m - 1) as nat, k);
    }
}

/// The count of combinations is a binomial coefficient: of the rows and
/// the size, or, with repetition, of the rows and the size less one
/// together, and the size.
pub proof fn lemma_combination_count_is_binomial(n: nat, k: nat, same: bool)
    requires
        k <= n,
    ensures
        combination_count(n, k, same) == binomial(pick_from(n, k, same), k),
{
    let m = pick_from(n, k, same);
    let steps = pick_steps(n, k, same);
    lemma_ratio_product_is_binomial(m, steps);
    lemma_binomial_symmetric(m, k);
}

/// The binomial coefficient that the tuples up to a first row number do
/// not reach: what `mono_upper` is for the start of the range.
pub open spec fn mono_lower(r: nat, lo: int, upto: int, n: int, rev: bool, same: bool) -> nat {
    if rev {
        if same {
            binomial((lo + r - 1) as nat, r)
        } else {
            binomial(lo as nat, r)
        }
    } else {
        if same {
            binomial((n - upto + r - 1) as nat, r)
        } else {
            binomial((n - upto) as nat, r)
        }
    }
}

/// The binomial coefficient that counts the tuples of `r` row numbers
/// whose first row number is free on one side and bounded by the range on
/// the other.
pub open spec fn mono_upper(r: nat, lo: int, upto: int, n: int, rev: bool, same: bool) -> nat {
    if rev {
        if same {
            binomial((upto + r - 1) as nat, r)
        } else {
            binomial(upto as nat, r)
        }
    } else {
        if same {
            binomial((n - lo + r - 1) as nat, r)
        } else {
            binomial((n - lo) as nat, r)
        }
    }
}

/// The tuples in order are counted by binomial coefficients: those whose
/// first row number lies in a range are as many as the difference of two
/// coefficients.
pub proof fn lemma_mono_count(
    prefix: Seq<usize>,
    r: nat,
    lo: int,
    upto: int,
    n: int,
    rev: bool,
    same: bool,
)
    requires
        0 <= lo <= upto <= n,
    ensures
        r == 0 ==> mono(prefix, r, lo, upto, n, rev, same, false).len() == 1,
        r > 0 ==> mono(prefix, r, lo, upto, n, rev, same, false).len() + mono_lower(
            r,
            lo,
            upto,
            n,
            rev,
            same,
        ) == mono_upper(r, lo, upto, n, rev, same),
    decreases r, upto - lo,
{
    if r == 0 {
    } else if upto <= lo {
    } else {
        let i = upto - 1;
        let below = (r - 1) as nat;
        let a = next_lo(i, rev, same);
        let b = next_hi(i, n, rev, same);
        lemma_mono_count(prefix, r, lo, i, n, rev, same);
        lemma_mono_count(prefix.push(i as usize), below, a, b, n, rev, same);
        let inner = mono(prefix.push(i as usize), below, a, b, n, rev, same, false).len();
        if below > 0 {
            if rev {
                if same {
                    lemma_binomial_beyond((below - 1) as nat, below);
                    assert(inner == binomial((i + below) as nat, below));
                } else {
                    lemma_binomial_beyond(0, below);
                    assert(inner == binomial(i as nat, below));
                }
            } else {
                if same {
                    lemma_binomial_beyond((below - 1) as nat, below);
                    assert(inner == binomial((n - i + below - 1) as nat, below));
                } else {
                    lemma_binomial_beyond(0, below);
                    assert(inner == binomial((n - i - 1) as nat, below));
                }
            }
        }
        if rev {
            if same {
                assert(binomial((upto + r - 1) as nat, r) == binomial((i + r - 1) as nat, below)
                    + binomial((i + r - 1) as nat, r));
            } else {
                assert(binomial(upto as nat, r) == binomial(i as nat, below) + binomial(
                    i as nat,
                    r,
                ));
            }
        } else {
            if same {
                assert(binomial((n - i + r - 1) as nat, r) == binomial(
                    (n - i + r - 2) as nat,
                    below,
                ) + binomial((n - i + r - 2) as nat, r));
            } else {
                assert(binomial((n - i) as nat, r) == binomial((n - i - 1) as nat, below)
                    + binomial((n - i - 1) as nat, r));
            }
        }
    }
}

/// The tuples of `k` of `n` rows in order are as many as the count of
/// combinations says.
pub proof fn lemma_mono_count_is_combination_count(n: nat, k: nat, rev: bool, same: bool)
    requires
        k <= n,
    ensures
        mono(Seq::empty(), k, 0, n as int, n as int, rev, same, false).len() == combination_count(
            n,
            k,
            same,
        ),
{
    lemma_mono_count(Seq::empty(), k, 0, n as int, n as int, rev, same);
    lemma_combination_count_is_binomial(n, k, same);
    if k > 0 {
        lemma_binomial_beyond(0, k);
        lemma_binomial_beyond((k - 1) as nat, k);
    }
}

/// There are as many ways to pick one thing as there are things.
pub proof fn lemma_binomial_one(m: nat)
    ensures
        binomial(m, 1) == m,
    decreases m,
{
    if m > 0 {
        lemma_binomial_one((m - 1) as nat);
        assert(binomial((m - 1) as nat, 0) == 1);
        assert(binomial(m, 1) == binomial((m - 1) as nat, 0) + binomial((m - 1) as nat, 1));
    } else {
        assert(binomial(0, 1) == 0);
    }
}

/// Each row on its own is what the tuples of one row in order are.
pub proof fn lemma_singles_are_mono(n: nat, upto: int, rev: bool, same: bool)
    requires
        0 <= upto <= n,
    ensures
        Seq::new(upto as nat, |i: int| seq![i as usize]) == mono(
            Seq::empty(),
            1,
            0,
            upto,
            n as int,
            rev,
            same,
            false,
        ),
    decreases upto,
{
    let none = Seq::<usize>::empty();
    let all = mono(none, 1, 0, upto, n as int, rev, same, false);
    if upto > 0 {
        lemma_singles_are_mono(n, upto - 1, rev, same);
        let i = upto - 1;
        let last = none.push(i as usize);
        assert(last =~= seq![i as usize]);
        let rest = mono(
            last,
            0,
            next_lo(i, rev, same),
            next_hi(i, n as int, rev, same),
            n as int,
            rev,
            same,
            false,
        );
        assert(rest == leaf(last, false));
        assert(all == mono(none, 1, 0, i, n as int, rev, same, false) + rest);
        assert(all =~= Seq::new(upto as nat, |i: int| seq![i as usize]));
    } else {
        assert(all =~= Seq::new(upto as nat, |i: int| seq![i as usize]));
    }
}

/// The combinations that are listed are as many as the count of
/// combinations says.
pub proof fn lemma_chosen_count(n: nat, k: nat, rev: bool, same: bool)
    requires
        k <= n,
    ensures
        chosen(n, k, rev, same).len() == combination_count(n, k, same),
{
    lemma_combination_count_is_binomial(n, k, same);
    if k == 1 {
        lemma_binomial_one(pick_from(n, k, same));
    } else if k == n && !same {
        lemma_binomial_full(n);
    } else if k + 1 == n && !same {
        lemma_binomial_symmetric(n, k);
        lemma_binomial_one(n);
    } else {
        lemma_mono_count_is_combination_count(n, k, rev, same);
    }
}

/// The falling product from `m` takes `m` as its first factor.
pub proof fn lemma_permutation_count_first(m: nat, j: nat)
    requires
        1 <= j <= m,
    ensures
        permutation_count(m, j) == m * permutation_count((m - 1) as nat, (j - 1) as nat),
    decreases j,
{
    if j > 1 {
        lemma_permutation_count_first(m, (j - 1) as nat);
        let inner = permutation_count((m - 1) as nat, (j - 2) as nat) as int;
        let mm = m as int;
        let f = (m - (j - 1)) as int;
        assert(permutation_count(m, j) == permutation_count(m, (j - 1) as nat) * f);
        assert(permutation_count((m - 1) as nat, (j - 1) as nat) == inner * f);
        assert((mm * inner) * f == mm * (inner * f)) by (nonlinear_arith);
    } else {
        assert(permutation_count(m, 0) == 1);
        assert(permutation_count((m - 1) as nat, 0) == 1);
        assert(permutation_count(m, 1) == 1 * (m - 0));
        assert(1 * (m - 0) == m * 1) by (nonlinear_arith);
    }
}

/// The orderings of a tuple from a position on are as many as the
/// orderings of that many things.
pub proof fn lemma_swap_perms_count(curr: Seq<usize>, start: nat)
    requires
        start <= curr.len(),
    ensures
        swap_perms(curr, start).len() == permutation_count(
            (curr.len() - start) as nat,
            (curr.len() - start) as nat,
        ),
    decreases curr.len() - start, curr.len() + 1,
{
    if start < curr.len() {
        lemma_swap_range_count(curr, start, curr.len());
        let m = (curr.len() - start) as nat;
        lemma_permutation_count_first(m, m);
    }
}

/// The orderings for the exchanges with positions below `upto`.
pub proof fn lemma_swap_range_count(curr: Seq<usize>, start: nat, upto: nat)
    requires
        start < curr.len(),
        start <= upto <= curr.len(),
    ensures
        swap_range(curr, start, upto).len() == (upto - start) * permutation_count(
            (curr.len() - start - 1) as nat,
            (curr.len() - start - 1) as nat,
        ),
    decreases curr.len() - start, upto,
{
    let each = permutation_count(
        (curr.len() - start - 1) as nat,
        (curr.len() - start - 1) as nat,
    ) as int;
    if upto > start {
        lemma_swap_range_count(curr, start, (upto - 1) as nat);
        let next = swapped(curr, start as int, upto - 1);
        lemma_swap_perms_count(next, start + 1);
        assert((upto - 1 - start) * each + each == (upto - start) * each) by (nonlinear_arith);
    } else {
        assert(0 * each == 0) by (nonlinear_arith);
    }
}

/// The orderings of the first `size` row numbers of a tuple are as many as
/// the orderings of that many things.
pub proof fn lemma_heap_all_count(a: Seq<usize>, size: nat)
    ensures
        heap_all(a, size).0.len() == permutation_count(size, size),
    decreases size, size,
{
    if size <= 1 {
        assert(permutation_count(0, 0) == 1);
        assert(permutation_count(1, 0) == 1);
        assert(permutation_count(1, 1) == 1 * (1 - 0));
    } else {
        lemma_heap_steps_count(a, size, (size - 1) as nat);
        lemma_permutation_count_first(size, size);
        let each = permutation_count((size - 1) as nat, (size - 1) as nat) as int;
        assert((size - 1 + 1) * each == size * each);
    }
}

/// The orderings after `t` exchanges.
pub proof fn lemma_heap_steps_count(a: Seq<usize>, size: nat, t: nat)
    requires
        size >= 2,
        t < size,
    ensures
        heap_steps(a, size, t).0.len() == (t + 1) * permutation_count(
            (size - 1) as nat,
            (size - 1) as nat,
        ),
    decreases size, t,
{
    let each = permutation_count((size - 1) as nat, (size - 1) as nat) as int;
    if t == 0 {
        lemma_heap_all_count(a, (size - 1) as nat);
        assert(heap_steps(a, size, t) == heap_all(a, (size - 1) as nat));
        assert(1 * each == each) by (nonlinear_arith);
    } else {
        lemma_heap_steps_count(a, size, (t - 1) as nat);
        let before = heap_steps(a, size, (t - 1) as nat);
        let at = if size % 2 == 0 {
            t - 1
        } else {
            0
        };
        let turned = swapped(before.1, at, size - 1);
        lemma_heap_all_count(turned, (size - 1) as nat);
        let after = heap_all(turned, (size - 1) as nat);
        assert(heap_steps(a, size, t) == (before.0 + after.0, after.1));
        assert(t * each + each == (t + 1) * each) by (nonlinear_arith);
    }
}

/// The orderings of the tuples in order are as many as the tuples times
/// the orderings of one tuple.
pub proof fn lemma_mono_permuted_count(
    prefix: Seq<usize>,
    r: nat,
    lo: int,
    upto: int,
    n: int,
)
    ensures
        mono(prefix, r, lo, upto, n, false, false, true).len() == mono(
            prefix,
            r,
            lo,
            upto,
            n,
            false,
            false,
            false,
        ).len() * permutation_count(prefix.len() + r, prefix.len() + r),
    decreases r, upto - lo,
{
    let k = prefix.len() + r;
    let each = permutation_count(k, k) as int;
    if r == 0 {
        lemma_heap_all_count(prefix, prefix.len());
        assert(1 * each == each) by (nonlinear_arith);
    } else if upto <= lo {
        assert(0 * each == 0) by (nonlinear_arith);
    } else {
        let i = upto - 1;
        lemma_mono_permuted_count(prefix, r, lo, i, n);
        lemma_mono_permuted_count(
            prefix.push(i as usize),
            (r - 1) as nat,
            next_lo(i, false, false),
            next_hi(i, n, false, false),
            n,
        );
        let x = mono(prefix, r, lo, i, n, false, false, false).len() as int;
        let y = mono(
            prefix.push(i as usize),
            (r - 1) as nat,
            next_lo(i, false, false),
            next_hi(i, n, false, false),
            n,
            false,
            false,
            false,
        ).len() as int;
        assert(x * each + y * each == (x + y) * each) by (nonlinear_arith);
    }
}

/// The falling product is the binomial coefficient times the orderings of
/// what is picked.
pub proof fn lemma_permutation_count_is_binomial(n: nat, k: nat)
    requires
        k <= n,
    ensures
        permutation_count(n, k) == binomial(n, k) * permutation_count(k, k),
    decreases k,
{
    if k > 0 {
        lemma_permutation_count_is_binomial(n, (k - 1) as nat);
        lemma_binomial_absorb(n, k);
        lemma_permutation_count_first(k, k);
        let before = binomial(n, (k - 1) as nat) as int;
        let now = binomial(n, k) as int;
        let inner = permutation_count((k - 1) as nat, (k - 1) as nat) as int;
        let f = (n - (k - 1)) as int;
        let kk = k as int;
        assert(permutation_count(n, k) == permutation_count(n, (k - 1) as nat) * f);
        assert((before * inner) * f == now * (kk * inner)) by (nonlinear_arith)
            requires
                before * f == now * kk,
        ;
    } else {
        assert(permutation_count(0, 0) == 1);
        assert(1 * 1 == 1);
    }
}

/// The permutations that are listed are as many as the count of
/// permutations says.
pub proof fn lemma_permuted_count(n: nat, k: nat)
    requires
        k <= n,
    ensures
        permuted(n, k).len() == permutation_count(n, k),
{
    if k == n {
        lemma_swap_perms_count(counting(n), 0);
    } else {
        lemma_mono_permuted_count(Seq::empty(), k, 0, n as int, n as int);
        lemma_mono_count(Seq::empty(), k, 0, n as int, n as int, false, false);
        lemma_permutation_count_is_binomial(n, k);
        if k > 0 {
            lemma_binomial_beyond(0, k);
        }
    }
}

} // verus!
