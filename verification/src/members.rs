//! What the lists hold: the list of combinations every tuple whose row
//! numbers follow one another as the order asks, the list of the
//! permutations of all rows every ordering of the row numbers, and each
//! of them once.

use vstd::prelude::*;
use crate::counting::lemma_singles_are_mono;
use crate::enumerate::{
    counting, mono, next_hi, next_lo, reversed, skipping, swap_perms, swap_range, swapped,
    valid_tuple,
};
use crate::permute::{chosen, permuted};

verus! {

/// Whether the row number `next` may stand after the row number `i` in a
/// tuple of row numbers below `n`.
pub open spec fn may_follow(i: usize, next: usize, n: nat, rev: bool, same: bool) -> bool {
    next_lo(i as int, rev, same) <= next < next_hi(i as int, n as int, rev, same)
}

/// Whether, from the place `from` on, each row number of a tuple may stand
/// after the one before it.
pub open spec fn chained(t: Seq<usize>, from: int, n: nat, rev: bool, same: bool) -> bool {
    forall|j: int|
        from <= j && j + 1 < t.len() ==> #[trigger] may_follow(t[j], t[j + 1], n, rev, same)
}

/// Whether a tuple extends `prefix` by `r` row numbers, the first of them
/// from `lo` up to `upto`, each next one after the one before it.
pub open spec fn extends(
    prefix: Seq<usize>,
    r: nat,
    lo: int,
    upto: int,
    n: nat,
    rev: bool,
    same: bool,
    t: Seq<usize>,
) -> bool {
    &&& t.len() == prefix.len() + r
    &&& t.take(prefix.len() as int) == prefix
    &&& r > 0 ==> lo <= t[prefix.len() as int] < upto
    &&& chained(t, prefix.len() as int, n, rev, same)
}

/// A list made of two holds what either of them holds.
pub proof fn lemma_joined_contains(a: Seq<Seq<usize>>, b: Seq<Seq<usize>>, t: Seq<usize>)
    ensures
        (a + b).contains(t) <==> a.contains(t) || b.contains(t),
{
    if a.contains(t) {
        let i = choose|i: int| 0 <= i < a.len() && a[i] == t;
        assert((a + b)[i] == t);
    }
    if b.contains(t) {
        let i = choose|i: int| 0 <= i < b.len() && b[i] == t;
        assert((a + b)[a.len() + i] == t);
    }
    if (a + b).contains(t) {
        let i = choose|i: int| 0 <= i < (a + b).len() && (a + b)[i] == t;
        if i < a.len() {
            assert(a[i] == t);
        } else {
            assert(b[i - a.len()] == t);
        }
    }
}

/// The list of the tuples in order holds exactly the tuples that extend
/// the prefix as the order asks.
pub proof fn lemma_mono_holds(
    prefix: Seq<usize>,
    r: nat,
    lo: int,
    upto: int,
    n: nat,
    rev: bool,
    same: bool,
    t: Seq<usize>,
)
    requires
        0 <= lo,
        upto <= n <= usize::MAX,
    ensures
        mono(prefix, r, lo, upto, n as int, rev, same, false).contains(t) <==> extends(
            prefix,
            r,
            lo,
            upto,
            n,
            rev,
            same,
            t,
        ),
    decreases r, upto - lo,
{
    let all = mono(prefix, r, lo, upto, n as int, rev, same, false);
    let at = prefix.len() as int;
    if r == 0 {
        assert(all == seq![prefix]);
        if all.contains(t) {
            let i = choose|i: int| 0 <= i < all.len() && all[i] == t;
            assert(t == prefix);
            assert(t.take(at) =~= t);
        }
        if extends(prefix, r, lo, upto, n, rev, same, t) {
            assert(t.take(at) =~= t);
            assert(all[0] == t);
        }
    } else if upto <= lo {
        assert(all =~= Seq::<Seq<usize>>::empty());
    } else {
        let i = upto - 1;
        let longer = prefix.push(i as usize);
        let nlo = next_lo(i, rev, same);
        let nhi = next_hi(i, n as int, rev, same);
        let before = mono(prefix, r, lo, i, n as int, rev, same, false);
        let with = mono(longer, (r - 1) as nat, nlo, nhi, n as int, rev, same, false);
        assert(all == before + with);
        lemma_joined_contains(before, with, t);
        lemma_mono_holds(prefix, r, lo, i, n, rev, same, t);
        lemma_mono_holds(longer, (r - 1) as nat, nlo, nhi, n, rev, same, t);
        let whole = extends(prefix, r, lo, upto, n, rev, same, t);
        let first = extends(prefix, r, lo, i, n, rev, same, t);
        let second = extends(longer, (r - 1) as nat, nlo, nhi, n, rev, same, t);
        if second {
            assert(t.take(at) =~= t.take(at + 1).take(at));
            assert(longer.take(at) =~= prefix);
            assert(t[at] == t.take(at + 1)[at]);
            assert(t[at] == i);
            assert forall|j: int| at <= j && j + 1 < t.len() implies #[trigger] may_follow(
                t[j],
                t[j + 1],
                n,
                rev,
                same,
            ) by {
                if j == at {
                    assert(r - 1 > 0);
                }
            }
            assert(whole);
        }
        if whole && !first {
            assert(t[at] == i);
            assert(t.take(at + 1) =~= longer);
            if r - 1 > 0 {
                assert(may_follow(t[at], t[at + 1], n, rev, same));
            }
            assert(second);
        }
    }
}

/// The list of the tuples in order holds no tuple twice.
pub proof fn lemma_mono_distinct(
    prefix: Seq<usize>,
    r: nat,
    lo: int,
    upto: int,
    n: nat,
    rev: bool,
    same: bool,
    a: int,
    b: int,
)
    requires
        0 <= lo,
        upto <= n <= usize::MAX,
        0 <= a < b < mono(prefix, r, lo, upto, n as int, rev, same, false).len(),
    ensures
        mono(prefix, r, lo, upto, n as int, rev, same, false)[a] != mono(
            prefix,
            r,
            lo,
            upto,
            n as int,
            rev,
            same,
            false,
        )[b],
    decreases r, upto - lo,
{
    let all = mono(prefix, r, lo, upto, n as int, rev, same, false);
    let at = prefix.len() as int;
    if r == 0 {
        assert(all == seq![prefix]);
    } else if upto <= lo {
    } else {
        let i = upto - 1;
        let longer = prefix.push(i as usize);
        let nlo = next_lo(i, rev, same);
        let nhi = next_hi(i, n as int, rev, same);
        let before = mono(prefix, r, lo, i, n as int, rev, same, false);
        let with = mono(longer, (r - 1) as nat, nlo, nhi, n as int, rev, same, false);
        assert(all == before + with);
        if b < before.len() {
            lemma_mono_distinct(prefix, r, lo, i, n, rev, same, a, b);
        } else if a >= before.len() {
            lemma_mono_distinct(
                longer,
                (r - 1) as nat,
                nlo,
                nhi,
                n,
                rev,
                same,
                a - before.len(),
                b - before.len(),
            );
        } else {
            let x = before[a];
            let y = with[b - before.len()];
            assert(before.contains(x));
            assert(with.contains(y));
            lemma_mono_holds(prefix, r, lo, i, n, rev, same, x);
            lemma_mono_holds(longer, (r - 1) as nat, nlo, nhi, n, rev, same, y);
            assert(x[at] < i);
            assert(y[at] == y.take(at + 1)[at]);
            assert(y[at] == i);
        }
    }
}

/// Whether a tuple holds `k` row numbers below `n`, each after the one
/// before it as the order asks.
pub open spec fn in_turn(t: Seq<usize>, n: nat, k: nat, rev: bool, same: bool) -> bool {
    valid_tuple(t, n, k) && chained(t, 0, n, rev, same)
}

/// Whether the rows of a combination come in falling order: where that is
/// asked for, unless all rows are chosen without repetition, which come as
/// they stand.
pub open spec fn falls(n: nat, k: nat, rev: bool, same: bool) -> bool {
    rev && !(k == n && !same && k != 1)
}

/// Row numbers that rise are no less than their place asks, counted from
/// the first.
pub proof fn lemma_rising_floor(t: Seq<usize>, n: nat, j: int)
    requires
        chained(t, 0, n, false, false),
        0 <= j < t.len(),
    ensures
        t[j] >= t[0] + j,
    decreases j,
{
    if j > 0 {
        lemma_rising_floor(t, n, j - 1);
        let q = j - 1;
        assert(may_follow(t[q], t[q + 1], n, false, false));
    }
}

/// Row numbers that rise are no more than their place leaves room for,
/// counted from the last.
pub proof fn lemma_rising_ceiling(t: Seq<usize>, n: nat, j: int)
    requires
        chained(t, 0, n, false, false),
        0 <= j < t.len(),
        t[t.len() - 1] < n,
    ensures
        t[j] + (t.len() - 1 - j) < n,
    decreases t.len() - j,
{
    if j + 1 < t.len() {
        lemma_rising_ceiling(t, n, j + 1);
        assert(may_follow(t[j], t[j + 1], n, false, false));
    }
}

/// The first place from `from` on whose row number is not the place
/// itself, or the length where there is none.
pub open spec fn first_gap(t: Seq<usize>, from: int) -> int
    decreases t.len() - from,
{
    if from < 0 || from >= t.len() || t[from] != from {
        from
    } else {
        first_gap(t, from + 1)
    }
}

/// Up to the first gap each row number is its place.
pub proof fn lemma_first_gap(t: Seq<usize>, from: int)
    requires
        0 <= from <= t.len(),
    ensures
        from <= first_gap(t, from) <= t.len(),
        forall|p: int| from <= p < first_gap(t, from) ==> t[p] == p,
        first_gap(t, from) < t.len() ==> t[first_gap(t, from)] != first_gap(t, from),
    decreases t.len() - from,
{
    if from < t.len() && t[from] == from {
        lemma_first_gap(t, from + 1);
    }
}

/// After a gap each of the rising row numbers of all but one row is one
/// more than its place.
pub proof fn lemma_after_gap(t: Seq<usize>, n: nat, g: int, p: int)
    requires
        chained(t, 0, n, false, false),
        valid_tuple(t, n, (n - 1) as nat),
        n >= 1,
        0 <= g <= p < t.len(),
        t[g] != g,
    ensures
        t[p] == p + 1,
    decreases p - g,
{
    lemma_rising_floor(t, n, p);
    lemma_rising_ceiling(t, n, p);
    if p > g {
        lemma_after_gap(t, n, g, p - 1);
        let q = p - 1;
        assert(may_follow(t[q], t[q + 1], n, false, false));
    }
}

/// The rising row numbers of all rows but one are the row numbers without
/// the one at their first gap.
pub proof fn lemma_rising_skips(t: Seq<usize>, n: nat)
    requires
        n >= 1,
        n <= usize::MAX,
        in_turn(t, n, (n - 1) as nat, false, false),
    ensures
        0 <= first_gap(t, 0) < n,
        t == skipping(n, first_gap(t, 0), false),
{
    let g = first_gap(t, 0);
    lemma_first_gap(t, 0);
    let s = skipping(n, g, false);
    assert forall|p: int| 0 <= p < t.len() implies t[p] == s[p] by {
        if p >= g {
            lemma_after_gap(t, n, g, p);
        }
    }
    assert(t =~= s);
}

/// A tuple falls where the tuple read from its end rises.
pub proof fn lemma_falling_reversed(t: Seq<usize>, n: nat, k: nat)
    requires
        valid_tuple(t, n, k),
    ensures
        in_turn(t, n, k, true, false) <==> in_turn(reversed(t), n, k, false, false),
{
    let back = reversed(t);
    if in_turn(t, n, k, true, false) {
        assert forall|j: int| 0 <= j && j + 1 < back.len() implies #[trigger] may_follow(
            back[j],
            back[j + 1],
            n,
            false,
            false,
        ) by {
            let q = t.len() - 2 - j;
            assert(may_follow(t[q], t[q + 1], n, true, false));
        }
    }
    if in_turn(back, n, k, false, false) {
        assert forall|j: int| 0 <= j && j + 1 < t.len() implies #[trigger] may_follow(
            t[j],
            t[j + 1],
            n,
            true,
            false,
        ) by {
            let q = t.len() - 2 - j;
            assert(may_follow(back[q], back[q + 1], n, false, false));
        }
    }
}

/// The row numbers without one of them, from the last down, are those from
/// the first up read from their end.
pub proof fn lemma_skipping_reversed(n: nat, i: int)
    requires
        n >= 1,
    ensures
        skipping(n, i, true) == reversed(skipping(n, i, false)),
        skipping(n, i, false) == reversed(skipping(n, i, true)),
{
    assert(skipping(n, i, true) =~= reversed(skipping(n, i, false)));
    assert(skipping(n, i, false) =~= reversed(skipping(n, i, true)));
}

/// The row numbers without one of them come in turn.
pub proof fn lemma_skipping_in_turn(n: nat, i: int, rev: bool)
    requires
        n >= 1,
        n <= usize::MAX,
        0 <= i < n,
    ensures
        in_turn(skipping(n, i, rev), n, (n - 1) as nat, rev, false),
{
    let s = skipping(n, i, rev);
    assert forall|j: int| 0 <= j && j + 1 < s.len() implies #[trigger] may_follow(
        s[j],
        s[j + 1],
        n,
        rev,
        false,
    ) by {}
}

/// Row numbers that follow one another from a row number below `n` are
/// below `n`.
pub proof fn lemma_chain_below(t: Seq<usize>, n: nat, rev: bool, same: bool, e: int)
    requires
        chained(t, 0, n, rev, same),
        0 <= e < t.len(),
        t[0] < n,
    ensures
        t[e] < n,
    decreases e,
{
    if e > 0 {
        lemma_chain_below(t, n, rev, same, e - 1);
        let q = e - 1;
        assert(may_follow(t[q], t[q + 1], n, rev, same));
    }
}

/// The list of the tuples in order from no prefix holds exactly the
/// tuples that come in turn.
pub proof fn lemma_mono_in_turn(n: nat, k: nat, rev: bool, same: bool, t: Seq<usize>)
    requires
        n <= usize::MAX,
    ensures
        mono(Seq::empty(), k, 0, n as int, n as int, rev, same, false).contains(t) <==> in_turn(
            t,
            n,
            k,
            rev,
            same,
        ),
{
    let none = Seq::<usize>::empty();
    lemma_mono_holds(none, k, 0, n as int, n, rev, same, t);
    if t.len() == k {
        assert(t.take(0) =~= none);
    }
    if extends(none, k, 0, n as int, n, rev, same, t) {
        assert forall|e: int| 0 <= e < t.len() implies t[e] < n by {
            lemma_chain_below(t, n, rev, same, e);
        }
    }
    if in_turn(t, n, k, rev, same) && k > 0 {
        assert(t[0] < n);
    }
}

/// The row numbers as they stand are the one tuple of all row numbers
/// that rises.
pub proof fn lemma_all_rows_rise(n: nat, t: Seq<usize>)
    requires
        n <= usize::MAX,
    ensures
        t == counting(n) <==> in_turn(t, n, n, false, false),
{
    let id = counting(n);
    if t == id {
        assert forall|j: int| 0 <= j && j + 1 < t.len() implies #[trigger] may_follow(
            t[j],
            t[j + 1],
            n,
            false,
            false,
        ) by {}
    }
    if in_turn(t, n, n, false, false) {
        assert forall|p: int| 0 <= p < t.len() implies t[p] == id[p] by {
            lemma_rising_floor(t, n, p);
            lemma_rising_ceiling(t, n, p);
        }
        assert(t =~= id);
    }
}

/// The tuples of all row numbers but one, each row number left out in
/// turn, are exactly the tuples of that size that come in turn.
pub proof fn lemma_all_but_one(n: nat, rev: bool, t: Seq<usize>)
    requires
        1 <= n <= usize::MAX,
    ensures
        Seq::new(n, |b: int| skipping(n, n - 1 - b, rev)).contains(t) <==> in_turn(
            t,
            n,
            (n - 1) as nat,
            rev,
            false,
        ),
{
    let all = Seq::new(n, |b: int| skipping(n, n - 1 - b, rev));
    let k = (n - 1) as nat;
    if all.contains(t) {
        let b = choose|b: int| 0 <= b < all.len() && all[b] == t;
        lemma_skipping_in_turn(n, n - 1 - b, rev);
    }
    if in_turn(t, n, k, rev, false) {
        if rev {
            lemma_falling_reversed(t, n, k);
            let back = reversed(t);
            lemma_rising_skips(back, n);
            let g = first_gap(back, 0);
            lemma_skipping_reversed(n, g);
            assert(t =~= reversed(back));
            assert(all[n - 1 - g] == skipping(n, g, true));
        } else {
            lemma_rising_skips(t, n);
            let g = first_gap(t, 0);
            assert(all[n - 1 - g] == skipping(n, g, false));
        }
    }
}

/// The list of combinations holds exactly the tuples of `k` row numbers
/// below `n` that come in turn: rising, or falling where `falls` says so;
/// with repetition a row number may stand after itself.
pub proof fn lemma_chosen_holds(n: nat, k: nat, rev: bool, same: bool, t: Seq<usize>)
    requires
        k <= n <= usize::MAX,
    ensures
        chosen(n, k, rev, same).contains(t) <==> in_turn(t, n, k, falls(n, k, rev, same), same),
{
    let all = chosen(n, k, rev, same);
    if k == 1 {
        lemma_singles_are_mono(n, n as int, rev, same);
        lemma_mono_in_turn(n, k, rev, same, t);
        if t.len() == 1 {
            assert(chained(t, 0, n, rev, same));
            assert(chained(t, 0, n, false, same));
        }
    } else if k == n && !same {
        assert(all == seq![counting(n)]);
        assert(all[0] == counting(n));
        lemma_all_rows_rise(n, t);
    } else if k + 1 == n && !same {
        lemma_all_but_one(n, rev, t);
    } else {
        lemma_mono_in_turn(n, k, rev, same, t);
    }
}

/// The list of combinations holds no tuple twice.
pub proof fn lemma_chosen_distinct(n: nat, k: nat, rev: bool, same: bool, a: int, b: int)
    requires
        k <= n <= usize::MAX,
        0 <= a < b < chosen(n, k, rev, same).len(),
    ensures
        chosen(n, k, rev, same)[a] != chosen(n, k, rev, same)[b],
{
    let all = chosen(n, k, rev, same);
    let none = Seq::<usize>::empty();
    if k == 1 {
        assert(all[a][0] == a);
        assert(all[b][0] == b);
    } else if k == n && !same {
    } else if k + 1 == n && !same {
        let x = skipping(n, n - 1 - a, rev);
        let y = skipping(n, n - 1 - b, rev);
        if rev {
            let p = a;
            assert(x[p] != y[p]);
        } else {
            let p = n - 1 - b;
            assert(x[p] != y[p]);
        }
    } else {
        lemma_mono_distinct(none, k, 0, n as int, n, rev, same, a, b);
    }
}

/// Whether the tuple `x` comes before the tuple `y` as words do in a
/// dictionary: at the first place where they differ, `x` has the smaller
/// row number.
pub open spec fn comes_before(x: Seq<usize>, y: Seq<usize>) -> bool {
    exists|p: int|
        0 <= p < x.len() && p < y.len() && x.take(p) == y.take(p) && x[p] < #[trigger] y[p]
}

/// The list of the tuples in order holds its tuples in the order of a
/// dictionary.
pub proof fn lemma_mono_ordered(
    prefix: Seq<usize>,
    r: nat,
    lo: int,
    upto: int,
    n: nat,
    rev: bool,
    same: bool,
    a: int,
    b: int,
)
    requires
        0 <= lo,
        upto <= n <= usize::MAX,
        0 <= a < b < mono(prefix, r, lo, upto, n as int, rev, same, false).len(),
    ensures
        comes_before(
            mono(prefix, r, lo, upto, n as int, rev, same, false)[a],
            mono(prefix, r, lo, upto, n as int, rev, same, false)[b],
        ),
    decreases r, upto - lo,
{
    let all = mono(prefix, r, lo, upto, n as int, rev, same, false);
    let at = prefix.len() as int;
    if r == 0 {
        assert(all == seq![prefix]);
    } else if upto <= lo {
    } else {
        let i = upto - 1;
        let longer = prefix.push(i as usize);
        let nlo = next_lo(i, rev, same);
        let nhi = next_hi(i, n as int, rev, same);
        let before = mono(prefix, r, lo, i, n as int, rev, same, false);
        let with = mono(longer, (r - 1) as nat, nlo, nhi, n as int, rev, same, false);
        assert(all == before + with);
        if b < before.len() {
            lemma_mono_ordered(prefix, r, lo, i, n, rev, same, a, b);
        } else if a >= before.len() {
            lemma_mono_ordered(
                longer,
                (r - 1) as nat,
                nlo,
                nhi,
                n,
                rev,
                same,
                a - before.len(),
                b - before.len(),
            );
        } else {
            let x = before[a];
            let y = with[b - before.len()];
            assert(before.contains(x));
            assert(with.contains(y));
            lemma_mono_holds(prefix, r, lo, i, n, rev, same, x);
            lemma_mono_holds(longer, (r - 1) as nat, nlo, nhi, n, rev, same, y);
            assert(y[at] == y.take(at + 1)[at]);
            assert(y.take(at) =~= y.take(at + 1).take(at));
            assert(longer.take(at) =~= prefix);
            assert(x.take(at) == y.take(at) && x[at] < y[at]);
        }
    }
}

/// The list of combinations holds its tuples in the order of a
/// dictionary.
pub proof fn lemma_chosen_ordered(n: nat, k: nat, rev: bool, same: bool, a: int, b: int)
    requires
        k <= n <= usize::MAX,
        0 <= a < b < chosen(n, k, rev, same).len(),
    ensures
        comes_before(chosen(n, k, rev, same)[a], chosen(n, k, rev, same)[b]),
{
    let all = chosen(n, k, rev, same);
    let x = all[a];
    let y = all[b];
    if k == 1 {
        assert(x.take(0) =~= y.take(0));
        assert(x[0] < y[0]);
    } else if k == n && !same {
    } else if k + 1 == n && !same {
        if rev {
            let p = a;
            assert(x.take(p) =~= y.take(p));
            assert(x[p] < y[p]);
        } else {
            let p = n - 1 - b;
            assert(x.take(p) =~= y.take(p));
            assert(x[p] < y[p]);
        }
    } else {
        lemma_mono_ordered(Seq::empty(), k, 0, n as int, n, rev, same, a, b);
    }
}

/// Whether no row number stands twice in a tuple.
pub open spec fn no_repeat(t: Seq<usize>) -> bool {
    forall|i: int, j: int| 0 <= i < j < t.len() ==> t[i] != t[j]
}

/// Whether `t` is an ordering of `curr`: as long, with no row number
/// twice, and each of its row numbers one of `curr`.
pub open spec fn ordering_of(t: Seq<usize>, curr: Seq<usize>) -> bool {
    &&& t.len() == curr.len()
    &&& no_repeat(t)
    &&& forall|i: int| 0 <= i < t.len() ==> curr.contains(#[trigger] t[i])
}

/// An exchange of two row numbers changes neither which row numbers a
/// tuple holds nor that it holds none twice.
pub proof fn lemma_swapped_same(curr: Seq<usize>, i: int, j: int, t: Seq<usize>)
    requires
        0 <= i < curr.len(),
        0 <= j < curr.len(),
    ensures
        ordering_of(t, swapped(curr, i, j)) <==> ordering_of(t, curr),
        no_repeat(curr) ==> no_repeat(swapped(curr, i, j)),
{
    let next = swapped(curr, i, j);
    assert forall|v: usize| next.contains(v) <==> curr.contains(v) by {
        if curr.contains(v) {
            let p = choose|p: int| 0 <= p < curr.len() && curr[p] == v;
            if p == i {
                assert(next[j] == v);
            } else if p == j {
                assert(next[i] == v);
            } else {
                assert(next[p] == v);
            }
        }
        if next.contains(v) {
            let p = choose|p: int| 0 <= p < next.len() && next[p] == v;
            if p == i {
                assert(curr[j] == v);
            } else if p == j {
                assert(curr[i] == v);
            } else {
                assert(curr[p] == v);
            }
        }
    }
}

/// The orderings by exchange from the place `start` on are exactly the
/// orderings of the tuple that leave it as it is before that place.
pub proof fn lemma_swap_perms_holds(curr: Seq<usize>, start: nat, t: Seq<usize>)
    requires
        no_repeat(curr),
        start <= curr.len(),
    ensures
        swap_perms(curr, start).contains(t) <==> ordering_of(t, curr) && t.take(start as int)
            == curr.take(start as int),
    decreases curr.len() - start, curr.len() + 1,
{
    let all = swap_perms(curr, start);
    let at = start as int;
    if start >= curr.len() {
        assert(all == seq![curr]);
        assert(all[0] == curr);
        assert(curr.take(at) =~= curr);
        if t.len() == curr.len() {
            assert(t.take(at) =~= t);
        }
        assert forall|i: int| 0 <= i < curr.len() implies curr.contains(#[trigger] curr[i]) by {}
    } else {
        lemma_swap_range_holds(curr, start, curr.len(), t);
        if ordering_of(t, curr) && t.take(at) == curr.take(at) {
            assert(curr.contains(t[at]));
            let j = choose|j: int| 0 <= j < curr.len() && curr[j] == t[at];
            if j < at {
                assert(t.take(at)[j] == curr.take(at)[j]);
                assert(t[j] == t[at]);
            }
            assert(at <= j < curr.len() && t[at] == curr[j]);
        }
    }
}

/// The orderings by the exchanges with the places below `upto` are the
/// orderings whose row number at `start` stood at one of those places.
pub proof fn lemma_swap_range_holds(curr: Seq<usize>, start: nat, upto: nat, t: Seq<usize>)
    requires
        no_repeat(curr),
        start < curr.len(),
        start <= upto <= curr.len(),
    ensures
        swap_range(curr, start, upto).contains(t) <==> ordering_of(t, curr) && t.take(
            start as int,
        ) == curr.take(start as int) && exists|j: int|
            start <= j < upto && t[start as int] == #[trigger] curr[j],
    decreases curr.len() - start, upto,
{
    let all = swap_range(curr, start, upto);
    let at = start as int;
    if upto <= start {
        assert(all =~= Seq::<Seq<usize>>::empty());
    } else {
        let last = upto - 1;
        let next = swapped(curr, at, last);
        let before = swap_range(curr, start, (upto - 1) as nat);
        let with = swap_perms(next, start + 1);
        assert(all == before + with);
        lemma_joined_contains(before, with, t);
        lemma_swapped_same(curr, at, last, t);
        lemma_swap_range_holds(curr, start, (upto - 1) as nat, t);
        lemma_swap_perms_holds(next, start + 1, t);
        if with.contains(t) {
            assert(t.take(at) =~= t.take(at + 1).take(at));
            assert(next.take(at + 1).take(at) =~= curr.take(at));
            assert(t[at] == t.take(at + 1)[at]);
            assert(next.take(at + 1)[at] == next[at]);
            assert(t[at] == curr[last]);
        }
        if before.contains(t) {
            let j = choose|j: int| start <= j < upto - 1 && t[at] == #[trigger] curr[j];
            assert(start <= j < upto && t[at] == curr[j]);
        }
        if ordering_of(t, curr) && t.take(at) == curr.take(at) && exists|j: int|
            start <= j < upto && t[at] == #[trigger] curr[j] {
            let j = choose|j: int| start <= j < upto && t[at] == #[trigger] curr[j];
            if j == last {
                let head = t.take(at + 1);
                let goal = next.take(at + 1);
                assert forall|p: int| 0 <= p < at + 1 implies #[trigger] head[p] == goal[p] by {
                    if p < at {
                        assert(t.take(at)[p] == curr.take(at)[p]);
                    }
                }
                assert(head =~= goal);
                assert(with.contains(t));
            } else {
                assert(start <= j < upto - 1 && t[at] == curr[j]);
                assert(before.contains(t));
            }
        }
    }
}

/// The orderings by exchange hold no tuple twice.
pub proof fn lemma_swap_perms_distinct(curr: Seq<usize>, start: nat, a: int, b: int)
    requires
        no_repeat(curr),
        start <= curr.len(),
        0 <= a < b < swap_perms(curr, start).len(),
    ensures
        swap_perms(curr, start)[a] != swap_perms(curr, start)[b],
    decreases curr.len() - start, curr.len() + 1,
{
    if start < curr.len() {
        lemma_swap_range_distinct(curr, start, curr.len(), a, b);
    }
}

/// The orderings by the exchanges with the places below `upto` hold no
/// tuple twice.
pub proof fn lemma_swap_range_distinct(curr: Seq<usize>, start: nat, upto: nat, a: int, b: int)
    requires
        no_repeat(curr),
        start < curr.len(),
        start <= upto <= curr.len(),
        0 <= a < b < swap_range(curr, start, upto).len(),
    ensures
        swap_range(curr, start, upto)[a] != swap_range(curr, start, upto)[b],
    decreases curr.len() - start, upto,
{
    let at = start as int;
    if upto > start {
        let last = upto - 1;
        let next = swapped(curr, at, last);
        let before = swap_range(curr, start, (upto - 1) as nat);
        let with = swap_perms(next, start + 1);
        assert(swap_range(curr, start, upto) == before + with);
        lemma_swapped_same(curr, at, last, curr);
        if b < before.len() {
            lemma_swap_range_distinct(curr, start, (upto - 1) as nat, a, b);
        } else if a >= before.len() {
            lemma_swap_perms_distinct(next, start + 1, a - before.len(), b - before.len());
        } else {
            let x = before[a];
            let y = with[b - before.len()];
            assert(before.contains(x));
            assert(with.contains(y));
            lemma_swap_range_holds(curr, start, (upto - 1) as nat, x);
            lemma_swap_perms_holds(next, start + 1, y);
            let j = choose|j: int| start <= j < upto - 1 && x[at] == #[trigger] curr[j];
            assert(y[at] == y.take(at + 1)[at]);
            assert(next.take(at + 1)[at] == next[at]);
            assert(y[at] == curr[last]);
            assert(curr[j] != curr[last]);
        }
    }
}

/// The list of the permutations of all rows holds exactly the tuples of
/// all row numbers, each row number once.
pub proof fn lemma_permuted_all_holds(n: nat, t: Seq<usize>)
    requires
        n <= usize::MAX,
    ensures
        permuted(n, n).contains(t) <==> valid_tuple(t, n, n) && no_repeat(t),
{
    let id = counting(n);
    lemma_swap_perms_holds(id, 0, t);
    assert(t.take(0) =~= id.take(0));
    if valid_tuple(t, n, n) {
        assert forall|i: int| 0 <= i < t.len() implies id.contains(#[trigger] t[i]) by {
            assert(id[t[i] as int] == t[i]);
        }
    }
    if ordering_of(t, id) {
        assert forall|e: int| 0 <= e < t.len() implies t[e] < n by {
            assert(id.contains(t[e]));
            let p = choose|p: int| 0 <= p < id.len() && id[p] == t[e];
        }
    }
}

/// The list of the permutations of all rows holds no tuple twice.
pub proof fn lemma_permuted_all_distinct(n: nat, a: int, b: int)
    requires
        n <= usize::MAX,
        0 <= a < b < permuted(n, n).len(),
    ensures
        permuted(n, n)[a] != permuted(n, n)[b],
{
    lemma_swap_perms_distinct(counting(n), 0, a, b);
}

} // verus!
