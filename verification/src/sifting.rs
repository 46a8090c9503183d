//! Counting through all tuples and sifting them lists the same tuples, in
//! the same order, as building the tuples in order.

use vstd::prelude::*;
use vstd::arithmetic::div_mod::{lemma_fundamental_div_mod, lemma_fundamental_div_mod_converse};
use crate::enumerate::{
    in_order, mono, next_hi, next_lo, passes, power, reversed, sifted, tuple_at,
};

verus! {

/// The tuples among the numbers from `a` up to `b` that pass, each with
/// its highest digit first.
pub open spec fn sift_range(n: nat, k: nat, rev: bool, same: bool, a: int, b: int) -> Seq<
    Seq<usize>,
>
    decreases b - a,
{
    if b <= a || b <= 0 {
        Seq::empty()
    } else {
        let d = tuple_at(n, k, (b - 1) as nat);
        let rest = sift_range(n, k, rev, same, a, b - 1);
        if passes(d, rev, same) {
            rest.push(reversed(d))
        } else {
            rest
        }
    }
}

/// The tuples among the first `q` numbers of `j` digits that pass under a
/// further digit `h` above their highest, each with its highest digit
/// first and without `h`.
pub open spec fn sift_under(n: nat, j: nat, rev: bool, same: bool, h: usize, q: int) -> Seq<
    Seq<usize>,
>
    decreases q,
{
    if q <= 0 {
        Seq::empty()
    } else {
        let d = tuple_at(n, j, (q - 1) as nat);
        let rest = sift_under(n, j, rev, same, h, q - 1);
        if passes(d.push(h), rev, same) {
            rest.push(reversed(d))
        } else {
            rest
        }
    }
}

/// Each tuple of a list after the row numbers `p`.
pub open spec fn prepend_all(p: Seq<usize>, tuples: Seq<Seq<usize>>) -> Seq<Seq<usize>> {
    Seq::new(tuples.len(), |i: int| p + tuples[i])
}

/// Sifting from the first number on is sifting a range that begins at zero.
pub proof fn lemma_sifted_is_range(n: nat, k: nat, rev: bool, same: bool, m: nat)
    ensures
        sifted(n, k, rev, same, m) == sift_range(n, k, rev, same, 0, m as int),
    decreases m,
{
    if m > 0 {
        lemma_sifted_is_range(n, k, rev, same, (m - 1) as nat);
    }
}

/// Sifting a range is sifting its two parts, one after the other.
pub proof fn lemma_sift_range_split(n: nat, k: nat, rev: bool, same: bool, a: int, b: int, c: int)
    requires
        0 <= a <= b <= c,
    ensures
        sift_range(n, k, rev, same, a, c) == sift_range(n, k, rev, same, a, b) + sift_range(
            n,
            k,
            rev,
            same,
            b,
            c,
        ),
    decreases c - b,
{
    let whole = sift_range(n, k, rev, same, a, c);
    let left = sift_range(n, k, rev, same, a, b);
    let right = sift_range(n, k, rev, same, b, c);
    if c == b {
        assert(whole =~= left + right);
    } else {
        lemma_sift_range_split(n, k, rev, same, a, b, c - 1);
        let d = tuple_at(n, k, (c - 1) as nat);
        let before = sift_range(n, k, rev, same, a, c - 1);
        let inner = sift_range(n, k, rev, same, b, c - 1);
        if passes(d, rev, same) {
            assert(whole == before.push(reversed(d)));
            assert(right == inner.push(reversed(d)));
            assert(whole =~= left + right);
        } else {
            assert(whole =~= left + right);
        }
    }
}

/// The digits of a number are the digits of what lies under its highest
/// digit, and then that digit.
pub proof fn lemma_tuple_at_top(n: nat, k: nat, h: nat, q: nat)
    requires
        k >= 1,
        n >= 1,
        h < n,
        n <= usize::MAX,
        q < power(n, (k - 1) as nat),
    ensures
        tuple_at(n, k, h * power(n, (k - 1) as nat) + q) == tuple_at(n, (k - 1) as nat, q).push(
            h as usize,
        ),
    decreases k,
{
    let big = power(n, (k - 1) as nat);
    let m = h * big + q;
    if k == 1 {
        assert(big == 1);
        assert(q == 0);
        assert(m == h) by (nonlinear_arith)
            requires
                m == h * big + q,
                big == 1,
                q == 0,
        ;
        lemma_fundamental_div_mod_converse(h as int, n as int, 0, h as int);
        assert(tuple_at(n, 0, m / n) =~= Seq::<usize>::empty());
        assert(tuple_at(n, 1, m) =~= tuple_at(n, 0, q).push(h as usize));
    } else {
        let small = power(n, (k - 2) as nat);
        assert(big == n * small);
        lemma_fundamental_div_mod(q as int, n as int);
        let qd = q / n;
        let qr = q % n;
        assert(0 <= qr < n) by (nonlinear_arith)
            requires
                qr == q % n,
                n >= 1,
        ;
        assert(qd < small) by (nonlinear_arith)
            requires
                q == n * qd + qr,
                q < n * small,
                qr >= 0,
                n >= 1,
        ;
        assert(m == (h * small + qd) * n + qr) by (nonlinear_arith)
            requires
                m == h * big + q,
                big == n * small,
                q == n * qd + qr,
        ;
        lemma_fundamental_div_mod_converse(
            m as int,
            n as int,
            (h * small + qd) as int,
            qr as int,
        );
        lemma_tuple_at_top(n, (k - 1) as nat, h, qd);
        let lower = tuple_at(n, (k - 2) as nat, qd);
        assert(tuple_at(n, k, m) == seq![qr as usize] + tuple_at(n, (k - 1) as nat, m / n));
        assert(tuple_at(n, (k - 1) as nat, q) == seq![qr as usize] + lower);
        assert(tuple_at(n, k, m) =~= tuple_at(n, (k - 1) as nat, q).push(h as usize));
    }
}

/// Digits with a further digit above them pass where they pass and the
/// further digit is in order with their highest.
pub proof fn lemma_passes_push(d: Seq<usize>, h: usize, rev: bool, same: bool)
    ensures
        passes(d.push(h), rev, same) == (passes(d, rev, same) && (d.len() == 0 || in_order(
            h,
            d.last(),
            rev,
            same,
        ))),
{
    let e = d.push(h);
    if passes(e, rev, same) {
        assert forall|a: int| 0 <= a < d.len() - 1 implies in_order(
            #[trigger] d[a + 1],
            d[a],
            rev,
            same,
        ) by {
            assert(e[a + 1] == d[a + 1] && e[a] == d[a]);
        }
        if d.len() > 0 {
            assert(e[(d.len() - 1) + 1] == h);
            assert(e[d.len() - 1] == d.last());
        }
    }
    if passes(d, rev, same) && (d.len() == 0 || in_order(h, d.last(), rev, same)) {
        assert forall|a: int| 0 <= a < e.len() - 1 implies in_order(
            #[trigger] e[a + 1],
            e[a],
            rev,
            same,
        ) by {
            if a + 1 < d.len() {
                assert(e[a + 1] == d[a + 1] && e[a] == d[a]);
            } else {
                assert(e[a + 1] == h && e[a] == d.last());
            }
        }
    }
}

/// The tuple of digits with a further digit above them begins with that digit.
pub proof fn lemma_reversed_push(d: Seq<usize>, h: usize)
    ensures
        reversed(d.push(h)) == seq![h] + reversed(d),
{
    assert(reversed(d.push(h)) =~= seq![h] + reversed(d));
}

/// Within the numbers with the highest digit `h`, sifting is sifting what
/// lies under `h`.
pub proof fn lemma_block_under(n: nat, k: nat, rev: bool, same: bool, h: usize, q: int)
    requires
        k >= 1,
        1 <= n <= usize::MAX,
        h < n,
        0 <= q <= power(n, (k - 1) as nat),
    ensures
        sift_range(
            n,
            k,
            rev,
            same,
            h * power(n, (k - 1) as nat),
            h * power(n, (k - 1) as nat) + q,
        ) == prepend_all(seq![h], sift_under(n, (k - 1) as nat, rev, same, h, q)),
    decreases q,
{
    let big = power(n, (k - 1) as nat);
    let start = h * big;
    let now = sift_range(n, k, rev, same, start as int, start + q);
    let under = sift_under(n, (k - 1) as nat, rev, same, h, q);
    assert(start >= 0) by (nonlinear_arith)
        requires
            start == h * big,
    ;
    if q == 0 {
        assert(now =~= prepend_all(seq![h], under));
    } else {
        lemma_block_under(n, k, rev, same, h, q - 1);
        lemma_tuple_at_top(n, k, h as nat, (q - 1) as nat);
        let low = tuple_at(n, (k - 1) as nat, (q - 1) as nat);
        let d = tuple_at(n, k, (start + q - 1) as nat);
        assert(d == low.push(h));
        lemma_reversed_push(low, h);
        let before = sift_range(n, k, rev, same, start as int, start + q - 1);
        let under_before = sift_under(n, (k - 1) as nat, rev, same, h, q - 1);
        if passes(d, rev, same) {
            assert(now == before.push(reversed(d)));
            assert(under == under_before.push(reversed(low)));
            assert(now =~= prepend_all(seq![h], under));
        } else {
            assert(now =~= prepend_all(seq![h], under));
        }
    }
}

/// A row number is in order under `h` where it lies in the range that `h`
/// allows to follow.
pub proof fn lemma_in_order_range(h: usize, y: usize, n: nat, rev: bool, same: bool)
    requires
        y < n,
    ensures
        in_order(h, y, rev, same) == (next_lo(h as int, rev, same) <= y < next_hi(
            h as int,
            n as int,
            rev,
            same,
        )),
{
}

/// The first number of the range that `h` allows, and the end of it.
pub open spec fn clip(q: int, lo: int, hi: int) -> int {
    if q < lo {
        lo
    } else if q > hi {
        hi
    } else {
        q
    }
}

/// Sifting under `h` is sifting the range of the highest digits that `h`
/// allows to follow.
pub proof fn lemma_under_is_range(n: nat, j: nat, rev: bool, same: bool, h: usize, q: int)
    requires
        j >= 1,
        1 <= n <= usize::MAX,
        h < n,
        0 <= q <= power(n, j),
    ensures
        ({
            let part = power(n, (j - 1) as nat);
            let a = next_lo(h as int, rev, same) * part;
            let b = next_hi(h as int, n as int, rev, same) * part;
            sift_under(n, j, rev, same, h, q) == sift_range(n, j, rev, same, a, clip(q, a, b))
        }),
    decreases q,
{
    let part = power(n, (j - 1) as nat);
    let lo = next_lo(h as int, rev, same);
    let hi = next_hi(h as int, n as int, rev, same);
    let a = lo * part;
    let b = hi * part;
    assert(0 <= lo <= n && 0 <= hi <= n);
    assert(0 <= a && 0 <= b) by (nonlinear_arith)
        requires
            a == lo * part,
            b == hi * part,
            0 <= lo,
            0 <= hi,
            0 <= part,
    ;
    if q > 0 {
        lemma_under_is_range(n, j, rev, same, h, q - 1);
        let m = (q - 1) as nat;
        crate::permute::lemma_power_positive(n, (j - 1) as nat);
        lemma_fundamental_div_mod(m as int, part as int);
        let top = m / part;
        let rest = m % part;
        assert(0 <= rest < part) by (nonlinear_arith)
            requires
                rest == m % part,
                part >= 1,
        ;
        assert(power(n, j) == n * part);
        assert(top < n) by (nonlinear_arith)
            requires
                m == part * top + rest,
                m < n * part,
                rest >= 0,
                part >= 1,
        ;
        assert(m == top * part + rest) by (nonlinear_arith)
            requires
                m == part * top + rest,
        ;
        lemma_tuple_at_top(n, j, top, rest);
        let d = tuple_at(n, j, m);
        let low = tuple_at(n, (j - 1) as nat, rest);
        assert(d == low.push(top as usize));
        assert(d.last() == top);
        crate::enumerate::lemma_tuple_at_valid(n, j, m);
        lemma_passes_push(d, h, rev, same);
        lemma_in_order_range(h, top as usize, n, rev, same);
        let inside = lo <= top < hi;
        assert(inside == (a <= m < b)) by (nonlinear_arith)
            requires
                m == top * part + rest,
                0 <= rest < part,
                a == lo * part,
                b == hi * part,
                inside == (lo <= top < hi),
        ;
        let under = sift_under(n, j, rev, same, h, q);
        let under_before = sift_under(n, j, rev, same, h, q - 1);
        if inside {
            assert(clip(q, a, b) == q && clip(q - 1, a, b) == q - 1);
            if passes(d, rev, same) {
                assert(under == under_before.push(reversed(d)));
            } else {
                assert(under == under_before);
            }
        } else {
            assert(clip(q, a, b) == clip(q - 1, a, b));
            assert(under == under_before);
        }
    } else {
        assert(clip(q, a, b) == a);
    }
}

/// The tuples in order after a prefix are the tuples in order, each after
/// the prefix.
pub proof fn lemma_mono_prefix(
    prefix: Seq<usize>,
    r: nat,
    lo: int,
    upto: int,
    n: int,
    rev: bool,
    same: bool,
)
    ensures
        mono(prefix, r, lo, upto, n, rev, same, false) == prepend_all(
            prefix,
            mono(Seq::empty(), r, lo, upto, n, rev, same, false),
        ),
    decreases r, upto - lo,
{
    let none = Seq::<usize>::empty();
    let all = mono(prefix, r, lo, upto, n, rev, same, false);
    let bare = mono(none, r, lo, upto, n, rev, same, false);
    if r == 0 {
        assert(prefix + none =~= prefix);
        assert(all =~= prepend_all(prefix, bare));
    } else if upto <= lo {
        assert(all =~= prepend_all(prefix, bare));
    } else {
        let i = upto - 1;
        let a = next_lo(i, rev, same);
        let b = next_hi(i, n, rev, same);
        let below = (r - 1) as nat;
        lemma_mono_prefix(prefix, r, lo, i, n, rev, same);
        lemma_mono_prefix(prefix.push(i as usize), below, a, b, n, rev, same);
        lemma_mono_prefix(none.push(i as usize), below, a, b, n, rev, same);
        let inner = mono(none, below, a, b, n, rev, same, false);
        let first = mono(none, r, lo, i, n, rev, same, false);
        let second = prepend_all(none.push(i as usize), inner);
        assert(bare == first + second);
        assert(all == prepend_all(prefix, first) + prepend_all(prefix.push(i as usize), inner));
        assert forall|t: int| 0 <= t < inner.len() implies prefix + second[t] == prefix.push(
            i as usize,
        ) + inner[t] by {
            assert(prefix + (none.push(i as usize) + inner[t]) =~= prefix.push(i as usize)
                + inner[t]);
        }
        assert(all =~= prepend_all(prefix, bare));
    }
}

/// Sifting the numbers whose highest digit lies in a range lists the
/// tuples in order whose first row number lies in that range.
pub proof fn lemma_sift_range_is_mono(n: nat, k: nat, rev: bool, same: bool, lo: int, hi: int)
    requires
        k >= 1,
        1 <= n <= usize::MAX,
        0 <= lo <= hi <= n,
    ensures
        sift_range(
            n,
            k,
            rev,
            same,
            lo * power(n, (k - 1) as nat),
            hi * power(n, (k - 1) as nat),
        ) == mono(Seq::empty(), k, lo, hi, n as int, rev, same, false),
    decreases k, hi - lo,
{
    let big = power(n, (k - 1) as nat);
    let none = Seq::<usize>::empty();
    if hi > lo {
        let h = hi - 1;
        let a = next_lo(h, rev, same);
        let b = next_hi(h, n as int, rev, same);
        lemma_sift_range_is_mono(n, k, rev, same, lo, h);
        assert(0 <= lo * big <= h * big && h * big + big == hi * big) by (nonlinear_arith)
            requires
                0 <= lo <= h,
                hi == h + 1,
                big >= 0,
        ;
        lemma_sift_range_split(n, k, rev, same, lo * big, h * big, hi * big);
        lemma_block_under(n, k, rev, same, h as usize, big as int);
        let under = sift_under(n, (k - 1) as nat, rev, same, h as usize, big as int);
        let inner = mono(none, (k - 1) as nat, a, b, n as int, rev, same, false);
        if k == 1 {
            assert(big == 1);
            lemma_passes_push(tuple_at(n, 0, 0), h as usize, rev, same);
            assert(sift_under(n, 0, rev, same, h as usize, 0) =~= Seq::<Seq<usize>>::empty());
            assert(reversed(tuple_at(n, 0, 0)) =~= none);
            assert(under =~= seq![none]);
            assert(inner =~= seq![none]);
        } else {
            lemma_under_is_range(n, (k - 1) as nat, rev, same, h as usize, big as int);
            let part = power(n, (k - 2) as nat);
            assert(big == n * part);
            assert(a * part <= b * part <= big || b * part <= a * part) by (nonlinear_arith)
                requires
                    0 <= a <= n,
                    0 <= b <= n,
                    big == n * part,
                    part >= 0,
            ;
            if a <= b {
                assert(a * part <= b * part <= big) by (nonlinear_arith)
                    requires
                        0 <= a <= b <= n,
                        big == n * part,
                        part >= 0,
                ;
                lemma_sift_range_is_mono(n, (k - 1) as nat, rev, same, a, b);
            } else {
                assert(b * part <= a * part) by (nonlinear_arith)
                    requires
                        0 <= b < a,
                        part >= 0,
                ;
                assert(under =~= Seq::<Seq<usize>>::empty());
                assert(inner =~= Seq::<Seq<usize>>::empty());
            }
        }
        lemma_mono_prefix(none.push(h as usize), (k - 1) as nat, a, b, n as int, rev, same);
        assert(none.push(h as usize) =~= seq![h as usize]);
    } else {
        assert(lo * big == hi * big);
    }
}

/// Counting through all tuples of `k` row numbers below `n` and sifting
/// them lists the tuples in order.
pub proof fn lemma_sifted_is_mono(n: nat, k: nat, rev: bool, same: bool)
    requires
        n <= usize::MAX,
        k == 0 || n >= 1,
    ensures
        sifted(n, k, rev, same, power(n, k)) == mono(
            Seq::empty(),
            k,
            0,
            n as int,
            n as int,
            rev,
            same,
            false,
        ),
{
    let none = Seq::<usize>::empty();
    lemma_sifted_is_range(n, k, rev, same, power(n, k));
    if k == 0 {
        assert(power(n, 0) == 1);
        assert(tuple_at(n, 0, 0) =~= none);
        assert(passes(none, rev, same));
        assert(reversed(none) =~= none);
        assert(sift_range(n, 0, rev, same, 0, 0) =~= Seq::<Seq<usize>>::empty());
        assert(sift_range(n, 0, rev, same, 0, 1) =~= seq![none]);
    } else {
        let big = power(n, (k - 1) as nat);
        assert(power(n, k) == n * big);
        assert(0 * big == 0) by (nonlinear_arith);
        lemma_sift_range_is_mono(n, k, rev, same, 0, n as int);
    }
}

} // verus!
