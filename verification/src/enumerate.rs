//! Tuples of row numbers, and the rows that they pick: the orders in which
//! combinations and permutations are listed.

use vstd::prelude::*;
use crate::array::lemma_row_bounds;

verus! {

/// Row `i` of a buffer whose rows have `len` elements.
pub open spec fn row_at<T>(src: Seq<T>, len: nat, i: int) -> Seq<T> {
    src.subrange(i * len, (i + 1) * len)
}

/// The rows that a tuple picks, one after the other.
pub open spec fn rows_of<T>(src: Seq<T>, len: nat, tuple: Seq<usize>) -> Seq<T>
    decreases tuple.len(),
{
    if tuple.len() == 0 {
        Seq::empty()
    } else {
        rows_of(src, len, tuple.drop_last()) + row_at(src, len, tuple.last() as int)
    }
}

/// The rows that a list of tuples picks, tuple after tuple.
pub open spec fn gathered<T>(src: Seq<T>, len: nat, tuples: Seq<Seq<usize>>) -> Seq<T>
    decreases tuples.len(),
{
    if tuples.len() == 0 {
        Seq::empty()
    } else {
        gathered(src, len, tuples.drop_last()) + rows_of(src, len, tuples.last())
    }
}

/// Whether a tuple has `k` row numbers, each below `n`.
pub open spec fn valid_tuple(tuple: Seq<usize>, n: nat, k: nat) -> bool {
    tuple.len() == k && forall|e: int| 0 <= e < tuple.len() ==> tuple[e] < n
}

/// Whether every tuple of a list has `k` row numbers, each below `n`.
pub open spec fn all_valid(tuples: Seq<Seq<usize>>, n: nat, k: nat) -> bool {
    forall|t: int| 0 <= t < tuples.len() ==> valid_tuple(#[trigger] tuples[t], n, k)
}

/// A tuple with two of its row numbers exchanged.
pub open spec fn swapped(a: Seq<usize>, i: int, j: int) -> Seq<usize> {
    a.update(i, a[j]).update(j, a[i])
}

/// The first row number that may follow the row number `i`.
pub open spec fn next_lo(i: int, rev: bool, same: bool) -> int {
    if rev {
        0
    } else if same {
        i
    } else {
        i + 1
    }
}

/// The end of the row numbers that may follow the row number `i`.
pub open spec fn next_hi(i: int, n: int, rev: bool, same: bool) -> int {
    if rev {
        if same {
            i + 1
        } else {
            i
        }
    } else {
        n
    }
}

/// The orderings of the first `size` row numbers of `a` and the arrangement
/// that is left, by exchanges of one pair at a time: all orderings of the
/// first `size - 1`, then, `size - 1` times, an exchange with the last of
/// the `size` and all orderings of the first `size - 1` again. For an even
/// `size` the exchanges take the row numbers in turn, for an odd one
/// always the first.
pub open spec fn heap_all(a: Seq<usize>, size: nat) -> (Seq<Seq<usize>>, Seq<usize>)
    decreases size, size,
{
    if size <= 1 {
        (seq![a], a)
    } else {
        heap_steps(a, size, (size - 1) as nat)
    }
}

/// `heap_all` after `t` of its exchanges.
pub open spec fn heap_steps(a: Seq<usize>, size: nat, t: nat) -> (Seq<Seq<usize>>, Seq<usize>)
    decreases size, t,
{
    if size <= 1 || t >= size {
        (seq![a], a)
    } else if t == 0 {
        heap_all(a, (size - 1) as nat)
    } else {
        let before = heap_steps(a, size, (t - 1) as nat);
        let at = if size % 2 == 0 {
            t - 1
        } else {
            0
        };
        let after = heap_all(swapped(before.1, at, size - 1), (size - 1) as nat);
        (before.0 + after.0, after.1)
    }
}

/// What a complete tuple stands for: itself, or all its orderings.
pub open spec fn leaf(tuple: Seq<usize>, permuted: bool) -> Seq<Seq<usize>> {
    if permuted {
        heap_all(tuple, tuple.len()).0
    } else {
        seq![tuple]
    }
}

/// The tuples that extend `prefix` by `r` row numbers, the first of them
/// from `lo` up to `upto`, each next one from the range that the one
/// before it allows; in the order of the row numbers, earlier ones
/// weighing more.
pub open spec fn mono(
    prefix: Seq<usize>,
    r: nat,
    lo: int,
    upto: int,
    n: int,
    rev: bool,
    same: bool,
    permuted: bool,
) -> Seq<Seq<usize>>
    decreases r, upto - lo,
{
    if r == 0 {
        leaf(prefix, permuted)
    } else if upto <= lo {
        Seq::empty()
    } else {
        let i = upto - 1;
        mono(prefix, r, lo, i, n, rev, same, permuted) + mono(
            prefix.push(i as usize),
            (r - 1) as nat,
            next_lo(i, rev, same),
            next_hi(i, n, rev, same),
            n,
            rev,
            same,
            permuted,
        )
    }
}

/// All orderings of a tuple from position `start` on: each row number from
/// there on comes to the position `start` in turn, by an exchange, and the
/// rest is ordered in the same way.
pub open spec fn swap_perms(curr: Seq<usize>, start: nat) -> Seq<Seq<usize>>
    decreases curr.len() - start, curr.len() + 1,
{
    if start >= curr.len() {
        seq![curr]
    } else {
        swap_range(curr, start, curr.len())
    }
}

/// The orderings of `swap_perms` for the exchanges with positions below `upto`.
pub open spec fn swap_range(curr: Seq<usize>, start: nat, upto: nat) -> Seq<Seq<usize>>
    decreases curr.len() - start, upto,
{
    if start >= curr.len() || upto <= start || upto > curr.len() {
        Seq::empty()
    } else {
        swap_range(curr, start, (upto - 1) as nat) + swap_perms(
            swapped(curr, start as int, upto - 1),
            start + 1,
        )
    }
}

/// `n` to the power of `k`.
pub open spec fn power(n: nat, k: nat) -> nat
    decreases k,
{
    if k == 0 {
        1
    } else {
        n * power(n, (k - 1) as nat)
    }
}

/// The `k` digits of `m` to the base `n`, the lowest first.
pub open spec fn tuple_at(n: nat, k: nat, m: nat) -> Seq<usize>
    decreases k,
{
    if k == 0 {
        Seq::empty()
    } else {
        seq![(m % n) as usize] + tuple_at(n, (k - 1) as nat, m / n)
    }
}

/// A tuple read from its end.
pub open spec fn reversed(d: Seq<usize>) -> Seq<usize> {
    Seq::new(d.len(), |p: int| d[d.len() - 1 - p])
}

/// The digits of the number after the one with the digits `d`, to the base
/// `n`: the lowest digit that is not the highest possible grows by one, and
/// those below it become zero.
pub open spec fn bumped(d: Seq<usize>, n: nat) -> Seq<usize>
    decreases d.len(),
{
    if d.len() == 0 {
        d
    } else if d[0] + 1 < n {
        d.update(0, (d[0] + 1) as usize)
    } else {
        seq![0usize] + bumped(d.skip(1), n)
    }
}

/// Whether every digit is the highest possible to the base `n`.
pub open spec fn all_top(d: Seq<usize>, n: nat) -> bool {
    forall|e: int| 0 <= e < d.len() ==> d[e] + 1 >= n
}

/// Whether the row number `x` may stand next to `y`, the one that counts
/// faster.
pub open spec fn in_order(x: usize, y: usize, rev: bool, same: bool) -> bool {
    if rev {
        if same {
            x >= y
        } else {
            x > y
        }
    } else {
        if same {
            x <= y
        } else {
            x < y
        }
    }
}

/// Whether every digit is in order with the one before it.
pub open spec fn passes(d: Seq<usize>, rev: bool, same: bool) -> bool {
    forall|a: int| 0 <= a < d.len() - 1 ==> in_order(#[trigger] d[a + 1], d[a], rev, same)
}

/// The tuples among the first `m` of all `k`-digit numbers to the base `n`
/// that pass, each with its highest digit first.
pub open spec fn sifted(n: nat, k: nat, rev: bool, same: bool, m: nat) -> Seq<Seq<usize>>
    decreases m,
{
    if m == 0 {
        Seq::empty()
    } else {
        let d = tuple_at(n, k, (m - 1) as nat);
        let rest = sifted(n, k, rev, same, (m - 1) as nat);
        if passes(d, rev, same) {
            rest.push(reversed(d))
        } else {
            rest
        }
    }
}

/// The row numbers from `n - 1` down or from 0 up, without `i`.
pub open spec fn skipping(n: nat, i: int, rev: bool) -> Seq<usize> {
    Seq::new(
        (n - 1) as nat,
        |p: int|
            if rev {
                if n - 1 - p > i {
                    (n - 1 - p) as usize
                } else {
                    (n - 2 - p) as usize
                }
            } else {
                if p < i {
                    p as usize
                } else {
                    (p + 1) as usize
                }
            },
    )
}

/// The row numbers from 0 up.
pub open spec fn counting(n: nat) -> Seq<usize> {
    Seq::new(n, |i: int| i as usize)
}

/// The rows of valid tuples are as many as the tuples pick.
pub proof fn lemma_rows_of_len<T>(src: Seq<T>, len: nat, tuple: Seq<usize>, n: nat)
    requires
        n * len <= src.len(),
        forall|e: int| 0 <= e < tuple.len() ==> tuple[e] < n,
    ensures
        rows_of(src, len, tuple).len() == tuple.len() * len,
    decreases tuple.len(),
{
    if tuple.len() > 0 {
        lemma_rows_of_len(src, len, tuple.drop_last(), n);
        let i = tuple.last() as int;
        assert(tuple[tuple.len() - 1] < n);
        lemma_row_bounds(n as int, len as int, i);
        assert((tuple.len() - 1) * len + len == tuple.len() * len) by (nonlinear_arith);
    } else {
        assert(0 * len == 0) by (nonlinear_arith);
    }
}

/// The rows of a list of valid tuples are as many as the tuples pick.
pub proof fn lemma_gathered_len<T>(
    src: Seq<T>,
    len: nat,
    tuples: Seq<Seq<usize>>,
    n: nat,
    k: nat,
)
    requires
        n * len <= src.len(),
        all_valid(tuples, n, k),
    ensures
        gathered(src, len, tuples).len() == tuples.len() * (k * len),
    decreases tuples.len(),
{
    if tuples.len() > 0 {
        assert(all_valid(tuples.drop_last(), n, k)) by {
            assert forall|t: int| 0 <= t < tuples.drop_last().len() implies valid_tuple(
                #[trigger] tuples.drop_last()[t],
                n,
                k,
            ) by {
                assert(tuples.drop_last()[t] == tuples[t]);
            }
        }
        lemma_gathered_len(src, len, tuples.drop_last(), n, k);
        assert(valid_tuple(tuples[tuples.len() - 1], n, k));
        lemma_rows_of_len(src, len, tuples.last(), n);
        assert((tuples.len() - 1) * (k * len) + k * len == tuples.len() * (k * len))
            by (nonlinear_arith);
    } else {
        assert(0 * (k * len) == 0) by (nonlinear_arith);
    }
}

/// Where rows are gathered: the buffer, the number of tuples written, and
/// whether that number has passed the machine word.
pub(crate) struct Sink<T> {
    pub(crate) data: Vec<T>,
    pub(crate) count: usize,
    pub(crate) overflow: bool,
    pub(crate) tuples: Ghost<Seq<Seq<usize>>>,
}

impl<T: Copy> Sink<T> {
    /// The sink holds the rows of its tuples, gathered from `src`.
    pub(crate) open spec fn holds(&self, src: Seq<T>, len: nat, n: nat, k: nat) -> bool {
        &&& self.data@ == gathered(src, len, self.tuples@)
        &&& all_valid(self.tuples@, n, k)
        &&& if self.overflow {
            self.tuples@.len() > usize::MAX
        } else {
            self.count == self.tuples@.len()
        }
    }

    pub(crate) fn new(
        Ghost(src): Ghost<Seq<T>>,
        Ghost(len): Ghost<nat>,
        Ghost(n): Ghost<nat>,
        Ghost(k): Ghost<nat>,
    ) -> (sink: Sink<T>)
        ensures
            sink.holds(src, len, n, k),
            sink.tuples@ == Seq::<Seq<usize>>::empty(),
    {
        Sink { data: Vec::new(), count: 0, overflow: false, tuples: Ghost(Seq::empty()) }
    }

    /// Writes the rows that `tuple` picks.
    pub(crate) fn emit(&mut self, src: &Vec<T>, len: usize, tuple: &Vec<usize>, Ghost(n): Ghost<nat>)
        requires
            old(self).holds(src@, len as nat, n, tuple@.len()),
            n * len <= src.len(),
            forall|e: int| 0 <= e < tuple@.len() ==> tuple@[e] < n,
        ensures
            final(self).holds(src@, len as nat, n, tuple@.len()),
            final(self).tuples@ == old(self).tuples@.push(tuple@),
    {
        let ghost before = self.data@;
        let ghost k = tuple@.len();
        let mut j: usize = 0;
        assert(tuple@.take(0) =~= Seq::<usize>::empty());
        assert(self.data@ =~= before + rows_of(src@, len as nat, tuple@.take(0)));
        while j < tuple.len()
            invariant
                j <= tuple.len(),
                n * len <= src.len(),
                forall|e: int| 0 <= e < tuple@.len() ==> tuple@[e] < n,
                self.data@ == before + rows_of(src@, len as nat, tuple@.take(j as int)),
                self.count == old(self).count,
                self.overflow == old(self).overflow,
                self.tuples@ == old(self).tuples@,
            decreases tuple.len() - j,
        {
            let i: usize = tuple[j];
            proof {
                lemma_row_bounds(n as int, len as int, i as int);
                assert(tuple@.take(j + 1).drop_last() =~= tuple@.take(j as int));
                assert(tuple@.take(j + 1).last() == i);
            }
            let start: usize = i * len;
            let mut p: usize = 0;
            let ghost so_far = self.data@;
            assert(self.data@ =~= so_far + src@.subrange(start as int, start as int));
            while p < len
                invariant
                    p <= len,
                    start + len <= src.len(),
                    self.data@ == so_far + src@.subrange(start as int, start + p),
                    self.count == old(self).count,
                    self.overflow == old(self).overflow,
                    self.tuples@ == old(self).tuples@,
                decreases len - p,
            {
                self.data.push(src[start + p]);
                p += 1;
                assert(self.data@ =~= so_far + src@.subrange(start as int, start + p));
            }
            j += 1;
            assert(self.data@ =~= before + rows_of(src@, len as nat, tuple@.take(j as int)));
        }
        assert(tuple@.take(j as int) =~= tuple@);
        proof {
            let grown = self.tuples@.push(tuple@);
            assert(grown.drop_last() =~= self.tuples@);
            assert(grown.last() == tuple@);
            assert(all_valid(grown, n, k)) by {
                assert forall|t: int| 0 <= t < grown.len() implies valid_tuple(
                    #[trigger] grown[t],
                    n,
                    k,
                ) by {
                    if t < self.tuples@.len() {
                        assert(grown[t] == self.tuples@[t]);
                    }
                }
            }
            self.tuples@ = grown;
        }
        if !self.overflow {
            if self.count == usize::MAX {
                self.overflow = true;
            } else {
                self.count = self.count + 1;
            }
        }
    }
}

/// Writes all orderings of the first `size` row numbers of `arr`.
#[verifier::rlimit(60)]
pub(crate) fn heap_emit<T: Copy>(
    sink: &mut Sink<T>,
    src: &Vec<T>,
    len: usize,
    arr: &mut Vec<usize>,
    size: usize,
    Ghost(n): Ghost<nat>,
)
    requires
        old(sink).holds(src@, len as nat, n, old(arr)@.len()),
        n * len <= src.len(),
        size <= old(arr)@.len(),
        forall|e: int| 0 <= e < old(arr)@.len() ==> old(arr)@[e] < n,
    ensures
        final(sink).holds(src@, len as nat, n, old(arr)@.len()),
        final(sink).tuples@ == old(sink).tuples@ + heap_all(old(arr)@, size as nat).0,
        final(arr)@ == heap_all(old(arr)@, size as nat).1,
        final(arr)@.len() == old(arr)@.len(),
        forall|e: int| 0 <= e < final(arr)@.len() ==> final(arr)@[e] < n,
    decreases size, 1int,
{
    let ghost first = arr@;
    let ghost had = sink.tuples@;
    if size <= 1 {
        sink.emit(src, len, arr, Ghost(n));
        assert(sink.tuples@ =~= had + seq![first]);
        return ;
    }
    heap_emit(sink, src, len, arr, size - 1, Ghost(n));
    let mut t: usize = 0;
    while t < size - 1
        invariant
            t <= size - 1,
            2 <= size <= arr@.len(),
            arr@.len() == first.len(),
            n * len <= src.len(),
            sink.holds(src@, len as nat, n, first.len()),
            forall|e: int| 0 <= e < arr@.len() ==> arr@[e] < n,
            sink.tuples@ == had + heap_steps(first, size as nat, t as nat).0,
            arr@ == heap_steps(first, size as nat, t as nat).1,
        decreases size - 1 - t,
    {
        let at: usize = if size % 2 == 0 { t } else { 0 };
        let ghost before = arr@;
        let x: usize = arr[at];
        let y: usize = arr[size - 1];
        arr.set(at, y);
        arr.set(size - 1, x);
        assert(arr@ =~= swapped(before, at as int, size - 1));
        let ghost mid = sink.tuples@;
        heap_emit(sink, src, len, arr, size - 1, Ghost(n));
        t += 1;
        assert(sink.tuples@ =~= had + heap_steps(first, size as nat, t as nat).0);
    }
}

/// Writes the tuples that extend `prefix` by `r` row numbers.
#[verifier::rlimit(60)]
pub(crate) fn emit_mono<T: Copy>(
    sink: &mut Sink<T>,
    src: &Vec<T>,
    len: usize,
    prefix: &mut Vec<usize>,
    r: usize,
    lo: usize,
    hi: usize,
    n: usize,
    rev: bool,
    same: bool,
    permuted: bool,
)
    requires
        old(sink).holds(src@, len as nat, n as nat, (old(prefix)@.len() + r) as nat),
        n * len <= src.len(),
        lo <= hi <= n,
        forall|e: int| 0 <= e < old(prefix)@.len() ==> old(prefix)@[e] < n,
        old(prefix)@.len() + r <= usize::MAX,
    ensures
        final(sink).holds(src@, len as nat, n as nat, (old(prefix)@.len() + r) as nat),
        final(sink).tuples@ == old(sink).tuples@ + mono(
            old(prefix)@,
            r as nat,
            lo as int,
            hi as int,
            n as int,
            rev,
            same,
            permuted,
        ),
        final(prefix)@ == old(prefix)@,
    decreases r, hi - lo,
{
    let ghost had = sink.tuples@;
    let ghost base = prefix@;
    if r == 0 {
        if permuted {
            let mut arr: Vec<usize> = Vec::new();
            let mut c: usize = 0;
            while c < prefix.len()
                invariant
                    c <= prefix.len(),
                    arr@ == prefix@.take(c as int),
                decreases prefix.len() - c,
            {
                arr.push(prefix[c]);
                c += 1;
                assert(arr@ =~= prefix@.take(c as int));
            }
            assert(arr@ =~= prefix@);
            let size: usize = arr.len();
            heap_emit(sink, src, len, &mut arr, size, Ghost(n as nat));
        } else {
            sink.emit(src, len, prefix, Ghost(n as nat));
            assert(sink.tuples@ =~= had + seq![base]);
        }
        return ;
    }
    let mut i: usize = lo;
    assert(sink.tuples@ =~= had + mono(base, r as nat, lo as int, lo as int, n as int, rev, same, permuted));
    while i < hi
        invariant
            lo <= i <= hi <= n,
            r > 0,
            prefix@ == base,
            base.len() + r <= usize::MAX,
            n * len <= src.len(),
            forall|e: int| 0 <= e < base.len() ==> base[e] < n,
            sink.holds(src@, len as nat, n as nat, (base.len() + r) as nat),
            sink.tuples@ == had + mono(
                base,
                r as nat,
                lo as int,
                i as int,
                n as int,
                rev,
                same,
                permuted,
            ),
        decreases hi - i,
    {
        prefix.push(i);
        let next_from: usize = if rev {
            0
        } else if same {
            i
        } else {
            i + 1
        };
        let next_to: usize = if rev {
            if same {
                i + 1
            } else {
                i
            }
        } else {
            n
        };
        emit_mono(sink, src, len, prefix, r - 1, next_from, next_to, n, rev, same, permuted);
        let _ = prefix.pop();
        assert(prefix@ =~= base);
        i += 1;
        assert(sink.tuples@ =~= had + mono(
            base,
            r as nat,
            lo as int,
            i as int,
            n as int,
            rev,
            same,
            permuted,
        ));
    }
}

/// Writes all orderings of `curr` from position `start` on.
pub(crate) fn emit_swaps<T: Copy>(
    sink: &mut Sink<T>,
    src: &Vec<T>,
    len: usize,
    curr: &Vec<usize>,
    start: usize,
    Ghost(n): Ghost<nat>,
)
    requires
        old(sink).holds(src@, len as nat, n, curr@.len()),
        n * len <= src.len(),
        start <= curr@.len(),
        forall|e: int| 0 <= e < curr@.len() ==> curr@[e] < n,
    ensures
        final(sink).holds(src@, len as nat, n, curr@.len()),
        final(sink).tuples@ == old(sink).tuples@ + swap_perms(curr@, start as nat),
    decreases curr@.len() - start,
{
    let ghost had = sink.tuples@;
    if start == curr.len() {
        sink.emit(src, len, curr, Ghost(n));
        assert(sink.tuples@ =~= had + seq![curr@]);
        return ;
    }
    let mut i: usize = start;
    assert(sink.tuples@ =~= had + swap_range(curr@, start as nat, start as nat));
    while i < curr.len()
        invariant
            start <= i <= curr.len(),
            start < curr.len(),
            n * len <= src.len(),
            forall|e: int| 0 <= e < curr@.len() ==> curr@[e] < n,
            sink.holds(src@, len as nat, n, curr@.len()),
            sink.tuples@ == had + swap_range(curr@, start as nat, i as nat),
        decreases curr.len() - i,
    {
        let mut next: Vec<usize> = Vec::new();
        let mut c: usize = 0;
        while c < curr.len()
            invariant
                c <= curr.len(),
                next@ == curr@.take(c as int),
            decreases curr.len() - c,
        {
            next.push(curr[c]);
            c += 1;
            assert(next@ =~= curr@.take(c as int));
        }
        assert(next@ =~= curr@);
        let x: usize = next[start];
        let y: usize = next[i];
        next.set(start, y);
        next.set(i, x);
        assert(next@ =~= swapped(curr@, start as int, i as int));
        emit_swaps(sink, src, len, &next, start + 1, Ghost(n));
        i += 1;
        assert(sink.tuples@ =~= had + swap_range(curr@, start as nat, i as nat));
    }
}

/// The digits of a number are below the base.
pub proof fn lemma_tuple_at_valid(n: nat, k: nat, m: nat)
    requires
        n >= 1,
        n <= usize::MAX,
    ensures
        valid_tuple(tuple_at(n, k, m), n, k),
    decreases k,
{
    if k > 0 {
        lemma_tuple_at_valid(n, (k - 1) as nat, m / n);
        let d = tuple_at(n, k, m);
        let rest = tuple_at(n, (k - 1) as nat, m / n);
        assert(d.len() == k);
        assert forall|e: int| 0 <= e < d.len() implies d[e] < n by {
            if e > 0 {
                assert(d[e] == rest[e - 1]);
            } else {
                assert(0 <= (m % n) < n) by (nonlinear_arith)
                    requires
                        n >= 1,
                ;
            }
        }
    }
}

/// Counting up by one: the digits of `m + 1` are the digits of `m`, bumped,
/// unless `m` is the last number of `k` digits, whose digits are all the
/// highest.
#[verifier::rlimit(60)]
pub proof fn lemma_bumped_tuple(n: nat, k: nat, m: nat)
    requires
        1 <= n <= usize::MAX,
        m < power(n, k),
    ensures
        m + 1 < power(n, k) ==> bumped(tuple_at(n, k, m), n) == tuple_at(n, k, m + 1) && !all_top(
            tuple_at(n, k, m),
            n,
        ),
        m + 1 >= power(n, k) ==> all_top(tuple_at(n, k, m), n),
    decreases k,
{
    let d = tuple_at(n, k, m);
    if k == 0 {
    } else {
        let q = m / n;
        let r = m % n;
        let below = power(n, (k - 1) as nat);
        let rest = tuple_at(n, (k - 1) as nat, q);
        vstd::arithmetic::div_mod::lemma_fundamental_div_mod(m as int, n as int);
        assert(0 <= r < n) by (nonlinear_arith)
            requires
                r == m % n,
                n >= 1,
        ;
        assert(q < below) by (nonlinear_arith)
            requires
                m == n * q + r,
                m < n * below,
                r >= 0,
                n >= 1,
        ;
        assert(d.skip(1) =~= rest);
        assert(d[0] == r);
        lemma_bumped_tuple(n, (k - 1) as nat, q);
        if r + 1 < n {
            vstd::arithmetic::div_mod::lemma_fundamental_div_mod_converse(
                (m + 1) as int,
                n as int,
                q as int,
                (r + 1) as int,
            );
            assert(m + 1 < n * below) by (nonlinear_arith)
                requires
                    m == n * q + r,
                    q + 1 <= below,
                    r + 1 < n,
            ;
            assert(tuple_at(n, k, m + 1) =~= d.update(0, (r + 1) as usize));
            assert(d[0] + 1 < n);
        } else {
            assert(m + 1 == (q + 1) * n + 0) by (nonlinear_arith)
                requires
                    m == n * q + r,
                    r + 1 == n,
            ;
            vstd::arithmetic::div_mod::lemma_fundamental_div_mod_converse(
                (m + 1) as int,
                n as int,
                (q + 1) as int,
                0,
            );
            if q + 1 < below {
                assert(m + 1 < n * below) by (nonlinear_arith)
                    requires
                        m == n * q + r,
                        q + 2 <= below,
                        r + 1 == n,
                ;
                assert(tuple_at(n, k, m + 1) =~= seq![0usize] + tuple_at(
                    n,
                    (k - 1) as nat,
                    q + 1,
                ));
                assert(!all_top(rest, n));
                let e = choose|e: int| 0 <= e < rest.len() && !(rest[e] + 1 >= n);
                assert(d[e + 1] == rest[e]);
            } else {
                assert(m + 1 >= n * below) by (nonlinear_arith)
                    requires
                        m == n * q + r,
                        q + 1 >= below,
                        r + 1 == n,
                ;
                assert forall|e: int| 0 <= e < d.len() implies d[e] + 1 >= n by {
                    if e > 0 {
                        assert(d[e] == rest[e - 1]);
                    }
                }
            }
        }
    }
}

/// Counts the digits of `indices` up by one, to the base `n`. Says whether
/// a digit was left to grow; if none was, all digits are zero again.
#[verifier::rlimit(60)]
pub fn advance(indices: &mut Vec<usize>, n: usize) -> (more: bool)
    requires
        forall|e: int| 0 <= e < old(indices)@.len() ==> old(indices)@[e] < n,
    ensures
        more == !all_top(old(indices)@, n as nat),
        more ==> final(indices)@ == bumped(old(indices)@, n as nat),
        final(indices)@.len() == old(indices)@.len(),
{
    let ghost first = indices@;
    let mut i: usize = 0;
    assert(first.skip(0) =~= first);
    assert(indices@ =~= Seq::new(0, |p: int| 0usize) + first.skip(0));
    while i < indices.len()
        invariant
            i <= indices.len(),
            first == old(indices)@,
            indices@.len() == first.len(),
            forall|e: int| 0 <= e < first.len() ==> first[e] < n,
            forall|e: int| 0 <= e < i ==> first[e] + 1 >= n,
            indices@ == Seq::new(i as nat, |p: int| 0usize) + first.skip(i as int),
            bumped(first, n as nat) == Seq::new(i as nat, |p: int| 0usize) + bumped(
                first.skip(i as int),
                n as nat,
            ),
        decreases indices.len() - i,
    {
        let digit: usize = indices[i];
        assert(digit == first[i as int]);
        let ghost tail = first.skip(i as int);
        assert(tail[0] == digit);
        if digit + 1 < n {
            indices.set(i, digit + 1);
            assert(indices@ =~= Seq::new(i as nat, |p: int| 0usize) + tail.update(
                0,
                (digit + 1) as usize,
            ));
            assert(bumped(tail, n as nat) == tail.update(0, (digit + 1) as usize));
            assert(!(first[i as int] + 1 >= n));
            return true;
        }
        indices.set(i, 0);
        proof {
            assert(tail.skip(1) =~= first.skip(i + 1));
            assert(Seq::new(i as nat, |p: int| 0usize) + (seq![0usize] + bumped(
                first.skip(i + 1),
                n as nat,
            )) =~= Seq::new((i + 1) as nat, |p: int| 0usize) + bumped(
                first.skip(i + 1),
                n as nat,
            ));
            assert(indices@ =~= Seq::new((i + 1) as nat, |p: int| 0usize) + first.skip(i + 1));
        }
        i += 1;
    }
    false
}

} // verus!
