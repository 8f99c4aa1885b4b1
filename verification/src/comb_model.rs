//! The mathematical model of combinations: validity, how many there are,
//! and the rank of each in lexicographic order.
use vstd::prelude::*;
use crate::counting::{
    binomial, falling, lemma_binomial_above, lemma_falling_grows_in_k,
    lemma_falling_grows_in_m, lemma_binomial_diagonal, lemma_falling_binomial,
    lemma_factorial_positive, factorial,
};
use crate::sequences::{lex_less, lemma_lex_total};

verus! {

/// Number of combinations of length `k` drawn from `n` elements:
/// `C(n, k)` without replacement, `C(n + k - 1, k)` with replacement.
pub open spec fn comb_count(w: bool, n: nat, k: nat) -> nat {
    if w {
        if k == 0 {
            1
        } else {
            binomial((n + k - 1) as nat, k)
        }
    } else {
        binomial(n, k)
    }
}

/// What `comb_len` needs to compute its result without overflowing: the
/// elements suffice (without replacement) and the falling factorial that it
/// builds up fits in a `usize`.
pub open spec fn comb_len_fits(w: bool, n: int, k: int) -> bool {
    k == 0 || (if w {
        n >= 1 && falling(n + k - 1, k as nat) <= usize::MAX
    } else {
        n >= k && falling(n, k as nat) <= usize::MAX
    })
}

/// The pool left after a first element drawn from a pool of `p`.
pub open spec fn pool_after(w: bool, p: nat) -> nat {
    if w {
        p
    } else {
        (p - 1) as nat
    }
}

/// Splitting on whether the smallest element of the pool is drawn first.
pub proof fn lemma_comb_count_split(w: bool, p: nat, k: nat)
    requires
        p >= 1,
        k >= 1,
    ensures
        comb_count(w, p, k) == comb_count(w, pool_after(w, p), (k - 1) as nat) + comb_count(
            w,
            (p - 1) as nat,
            k,
        ),
{
    if w {
        assert(binomial((p + k - 1) as nat, k) == binomial((p + k - 2) as nat, (k - 1) as nat)
            + binomial((p + k - 2) as nat, k));
    }
}

pub proof fn lemma_comb_count_empty_pool(w: bool, k: nat)
    requires
        k >= 1,
    ensures
        comb_count(w, 0, k) == 0,
{
    if w {
        lemma_binomial_above((k - 1) as nat, k);
    }
}

/// A combination exists only when the pool is large enough.
pub proof fn lemma_comb_count_needs_pool(w: bool, p: nat, k: nat)
    requires
        comb_count(w, p, k) >= 1,
    ensures
        if w {
            p >= 1 || k == 0
        } else {
            p >= k
        },
{
    if w {
        if k > 0 && p == 0 {
            lemma_comb_count_empty_pool(w, k);
        }
    } else if p < k {
        lemma_binomial_above(p, k);
    }
}

/// A larger pool has at least as many combinations.
pub proof fn lemma_comb_count_monotone(w: bool, p: nat, q: nat, k: nat)
    requires
        p <= q,
    ensures
        comb_count(w, p, k) <= comb_count(w, q, k),
    decreases q,
{
    if p < q && k > 0 {
        lemma_comb_count_monotone(w, p, (q - 1) as nat, k);
        lemma_comb_count_split(w, q, k);
    }
}

/// The least element that may follow `a`.
pub open spec fn step(w: bool, a: int) -> int {
    if w {
        a
    } else {
        a + 1
    }
}

/// Position `i` of `c` respects the order: strictly above its predecessor,
/// or (with replacement) not below it.
pub open spec fn comb_link(w: bool, c: Seq<usize>, i: int) -> bool {
    step(w, c[i - 1] as int) <= c[i] as int
}

/// Position `i` of `c` holds the least element allowed after its predecessor.
pub open spec fn comb_tight(w: bool, c: Seq<usize>, i: int) -> bool {
    c[i] as int == step(w, c[i - 1] as int)
}

/// `c` is a combination of the elements `lo..n`, listed in increasing order
/// (non-decreasing with replacement).
pub open spec fn comb_valid_from(w: bool, n: int, lo: int, c: Seq<usize>) -> bool {
    &&& c.len() > 0 ==> lo <= c[0] as int
    &&& forall|i: int| 0 <= i < c.len() ==> #[trigger] c[i] < n
    &&& forall|i: int| 0 < i < c.len() ==> #[trigger] comb_link(w, c, i)
}

/// `c` is a combination of length `k` of the elements `0..n`.
pub open spec fn comb_valid(w: bool, n: int, k: nat, c: Seq<usize>) -> bool {
    c.len() == k && comb_valid_from(w, n, 0, c)
}

/// The number of combinations of length `k` from `lo..n` that come before
/// `c` in lexicographic order: at each position, those that agree with `c`
/// before it and hold a smaller element there.
pub open spec fn comb_rank_from(w: bool, n: int, k: nat, lo: int, c: Seq<usize>) -> int
    decreases c.len(),
{
    if c.len() == 0 || k == 0 {
        0
    } else {
        (comb_count(w, (n - lo) as nat, k) - comb_count(w, (n - c[0]) as nat, k))
            + comb_rank_from(w, n, (k - 1) as nat, step(w, c[0] as int), c.drop_first())
    }
}

/// The index of the combination `c` of `0..n` in lexicographic order.
pub open spec fn comb_rank(w: bool, n: int, c: Seq<usize>) -> int {
    comb_rank_from(w, n, c.len(), 0, c)
}

pub proof fn lemma_comb_valid_tail(w: bool, n: int, lo: int, c: Seq<usize>)
    requires
        comb_valid_from(w, n, lo, c),
        c.len() > 0,
    ensures
        comb_valid_from(w, n, step(w, c[0] as int), c.drop_first()),
{
    let t = c.drop_first();
    assert forall|i: int| 0 <= i < t.len() implies #[trigger] t[i] < n by {
        assert(t[i] == c[i + 1]);
    }
    assert forall|i: int| 0 < i < t.len() implies #[trigger] comb_link(w, t, i) by {
        assert(comb_link(w, c, i + 1));
    }
    if t.len() > 0 {
        assert(comb_link(w, c, 1));
    }
}

pub proof fn lemma_comb_valid_cons(w: bool, n: int, lo: int, a: usize, t: Seq<usize>)
    requires
        lo <= a < n,
        comb_valid_from(w, n, step(w, a as int), t),
    ensures
        comb_valid_from(w, n, lo, seq![a] + t),
{
    let c = seq![a] + t;
    assert forall|i: int| 0 <= i < c.len() implies #[trigger] c[i] < n by {
        if i > 0 {
            assert(c[i] == t[i - 1]);
        }
    }
    assert forall|i: int| 0 < i < c.len() implies #[trigger] comb_link(w, c, i) by {
        if i > 1 {
            assert(comb_link(w, t, i - 1));
        }
    }
}

/// The rank of a combination lies below the number of combinations.
pub proof fn lemma_comb_rank_bound(w: bool, n: int, lo: int, c: Seq<usize>)
    requires
        comb_valid_from(w, n, lo, c),
        lo <= n,
    ensures
        0 <= comb_rank_from(w, n, c.len(), lo, c) < comb_count(w, (n - lo) as nat, c.len()),
    decreases c.len(),
{
    if c.len() > 0 {
        let k = c.len();
        let a = c[0] as int;
        lemma_comb_valid_tail(w, n, lo, c);
        lemma_comb_rank_bound(w, n, step(w, a), c.drop_first());
        lemma_comb_count_split(w, (n - a) as nat, k);
        lemma_comb_count_monotone(w, (n - a) as nat, (n - lo) as nat, k);
        assert(pool_after(w, (n - a) as nat) == n - step(w, a));
    }
}

/// Lexicographic order of combinations is the order of their ranks.
pub proof fn lemma_comb_rank_lex(w: bool, n: int, lo: int, a: Seq<usize>, b: Seq<usize>)
    requires
        comb_valid_from(w, n, lo, a),
        comb_valid_from(w, n, lo, b),
        a.len() == b.len(),
        lex_less(a, b),
        lo <= n,
    ensures
        comb_rank_from(w, n, a.len(), lo, a) < comb_rank_from(w, n, b.len(), lo, b),
    decreases a.len(),
{
    let k = a.len();
    let a0 = a[0] as int;
    let b0 = b[0] as int;
    lemma_comb_valid_tail(w, n, lo, a);
    lemma_comb_valid_tail(w, n, lo, b);
    lemma_comb_rank_bound(w, n, step(w, b0), b.drop_first());
    if a0 < b0 {
        lemma_comb_rank_bound(w, n, step(w, a0), a.drop_first());
        lemma_comb_count_split(w, (n - a0) as nat, k);
        assert(pool_after(w, (n - a0) as nat) == n - step(w, a0));
        lemma_comb_count_monotone(w, (n - b0) as nat, (n - a0 - 1) as nat, k);
    } else {
        lemma_comb_rank_lex(w, n, step(w, a0), a.drop_first(), b.drop_first());
    }
}

/// The combination of length `k` from `lo..n` whose rank is `idx`, found by
/// skipping whole blocks of combinations that share a first element.
pub open spec fn comb_unrank(w: bool, n: int, k: nat, lo: int, idx: int) -> Seq<usize>
    decreases k, n - lo,
{
    if k == 0 || lo >= n {
        seq![]
    } else {
        let block = comb_count(w, (n - step(w, lo)) as nat, (k - 1) as nat) as int;
        if idx < block {
            seq![lo as usize] + comb_unrank(w, n, (k - 1) as nat, step(w, lo), idx)
        } else {
            comb_unrank(w, n, k, lo + 1, idx - block)
        }
    }
}

/// Every index below the count names a combination, with that rank.
pub proof fn lemma_comb_unrank(w: bool, n: int, k: nat, lo: int, idx: int)
    requires
        0 <= lo <= n <= usize::MAX,
        0 <= idx < comb_count(w, (n - lo) as nat, k),
    ensures
        comb_unrank(w, n, k, lo, idx).len() == k,
        comb_valid_from(w, n, lo, comb_unrank(w, n, k, lo, idx)),
        comb_rank_from(w, n, k, lo, comb_unrank(w, n, k, lo, idx)) == idx,
    decreases k, n - lo,
{
    let c = comb_unrank(w, n, k, lo, idx);
    if k == 0 {
    } else {
        if lo >= n {
            lemma_comb_count_empty_pool(w, k);
        }
        let p = (n - lo) as nat;
        lemma_comb_count_split(w, p, k);
        assert(pool_after(w, p) == n - step(w, lo));
        let block = comb_count(w, (n - step(w, lo)) as nat, (k - 1) as nat) as int;
        if idx < block {
            let t = comb_unrank(w, n, (k - 1) as nat, step(w, lo), idx);
            lemma_comb_unrank(w, n, (k - 1) as nat, step(w, lo), idx);
            lemma_comb_valid_cons(w, n, lo, lo as usize, t);
            assert(c == seq![lo as usize] + t);
            assert(c.drop_first() =~= t);
        } else {
            lemma_comb_unrank(w, n, k, lo + 1, idx - block);
            assert(c == comb_unrank(w, n, k, lo + 1, idx - block));
        }
    }
}

/// A smaller instance of a computable count is computable too.
pub proof fn lemma_comb_fits_shrink(w: bool, n: int, k: int, p: int, j: int)
    requires
        comb_len_fits(w, n, k),
        0 <= p <= n,
        0 <= j <= k,
        if w {
            p >= 1 || j == 0
        } else {
            p >= j
        },
    ensures
        comb_len_fits(w, p, j),
{
    if j > 0 {
        if w {
            lemma_falling_grows_in_m(p + j - 1, n + j - 1, j as nat);
            lemma_falling_grows_in_m(n + j - 1, n + k - 1, j as nat);
            lemma_falling_grows_in_k(n + k - 1, j as nat, k as nat);
        } else {
            lemma_falling_grows_in_m(p, n, j as nat);
            lemma_falling_grows_in_k(n, j as nat, k as nat);
        }
    }
}

/// The largest element that position `j` of a combination of length `k`
/// from `0..n` can hold.
pub open spec fn max_at(w: bool, n: int, k: int, j: int) -> int {
    if w {
        n - 1
    } else {
        n - k + j
    }
}

/// The least element that position `j` of `c` can hold, given the one before.
pub open spec fn min_at(w: bool, c: Seq<usize>, j: int) -> int {
    if j == 0 {
        0
    } else {
        step(w, c[j - 1] as int)
    }
}

/// The state a cursor reaches when stepped past the last combination.
pub open spec fn comb_past_end(w: bool, n: int, k: nat) -> Seq<usize> {
    Seq::new(k, |j: int| (if w { n } else { n - k + 1 + j }) as usize)
}

/// Elements further right are larger (at least as large with replacement).
pub proof fn lemma_comb_valid_chain(w: bool, n: int, lo: int, c: Seq<usize>, i: int, j: int)
    requires
        comb_valid_from(w, n, lo, c),
        0 <= i <= j < c.len(),
    ensures
        c[i] + (if w { 0 } else { j - i }) <= c[j],
    decreases j - i,
{
    if i < j {
        lemma_comb_valid_chain(w, n, lo, c, i, j - 1);
        assert(comb_link(w, c, j));
    }
}

/// No position exceeds its largest possible element.
pub proof fn lemma_comb_valid_max(w: bool, n: int, c: Seq<usize>, j: int)
    requires
        comb_valid_from(w, n, 0, c),
        0 <= j < c.len(),
    ensures
        c[j] <= max_at(w, n, c.len() as int, j),
{
    lemma_comb_valid_chain(w, n, 0, c, j, c.len() - 1);
}

/// The rank of a concatenation: the prefix's share plus the rank of the rest
/// among the combinations that may follow the prefix.
pub proof fn lemma_comb_rank_concat(w: bool, n: int, k: nat, lo: int, p: Seq<usize>, t: Seq<usize>)
    requires
        p.len() <= k,
    ensures
        comb_rank_from(w, n, k, lo, p + t) == comb_rank_from(w, n, k, lo, p) + comb_rank_from(
            w,
            n,
            (k - p.len()) as nat,
            if p.len() == 0 {
                lo
            } else {
                step(w, p.last() as int)
            },
            t,
        ),
    decreases p.len(),
{
    if p.len() == 0 {
        assert(p + t =~= t);
    } else {
        let a = p[0] as int;
        assert((p + t).drop_first() =~= p.drop_first() + t);
        lemma_comb_rank_concat(w, n, (k - 1) as nat, step(w, a), p.drop_first(), t);
        if p.len() > 1 {
            assert(p.drop_first().last() == p.last());
        }
    }
}

/// The combination holding the largest possible elements has the last rank.
pub proof fn lemma_comb_rank_max(w: bool, n: int, lo: int, c: Seq<usize>)
    requires
        comb_valid_from(w, n, lo, c),
        lo <= n,
        forall|j: int| 0 <= j < c.len() ==> c[j] == max_at(w, n, c.len() as int, j),
    ensures
        comb_rank_from(w, n, c.len(), lo, c) == comb_count(w, (n - lo) as nat, c.len()) - 1,
    decreases c.len(),
{
    let k = c.len();
    if k == 0 {
    } else {
        let t = c.drop_first();
        lemma_comb_valid_tail(w, n, lo, c);
        assert forall|j: int| 0 <= j < t.len() implies t[j] == max_at(w, n, t.len() as int, j) by {
            assert(t[j] == c[j + 1]);
        }
        lemma_comb_rank_max(w, n, step(w, c[0] as int), t);
        lemma_binomial_diagonal(k);
        lemma_binomial_diagonal((k - 1) as nat);
        if w {
            assert(comb_count(w, 1, k) == 1);
            assert(comb_count(w, 1, (k - 1) as nat) == 1);
        } else {
            assert(comb_count(w, k, k) == 1);
        }
    }
}

/// The combination holding the smallest possible elements has rank zero.
pub proof fn lemma_comb_rank_min(w: bool, n: int, k: nat, lo: int, c: Seq<usize>)
    requires
        c.len() > 0 ==> c[0] == lo,
        forall|j: int| 0 < j < c.len() ==> #[trigger] comb_tight(w, c, j),
    ensures
        comb_rank_from(w, n, k, lo, c) == 0,
    decreases c.len(),
{
    if c.len() > 0 && k > 0 {
        let t = c.drop_first();
        assert forall|j: int| 0 < j < t.len() implies #[trigger] comb_tight(w, t, j) by {
            assert(comb_tight(w, c, j + 1));
            assert(t[j] == c[j + 1]);
            assert(t[j - 1] == c[j]);
        }
        if t.len() > 0 {
            assert(comb_tight(w, c, 1));
            assert(t[0] == c[1]);
        }
        lemma_comb_rank_min(w, n, (k - 1) as nat, step(w, c[0] as int), t);
    }
}

/// Incrementing position `p` and refilling the positions after it with the
/// smallest elements allowed, when every position after `p` held its largest
/// element, yields the next combination.
pub proof fn lemma_comb_successor(
    w: bool,
    n: int,
    k: nat,
    c: Seq<usize>,
    d: Seq<usize>,
    p: int,
)
    requires
        comb_valid(w, n, k, c),
        0 <= p < k,
        d.len() == k,
        forall|j: int| 0 <= j < p ==> d[j] == c[j],
        d[p] == c[p] + 1,
        c[p] + 1 <= max_at(w, n, k as int, p),
        forall|j: int| p < j < k ==> #[trigger] comb_tight(w, d, j),
        forall|j: int| p < j < k ==> c[j] == max_at(w, n, k as int, j),
    ensures
        comb_valid(w, n, k, d),
        comb_rank(w, n, d) == comb_rank(w, n, c) + 1,
{
    // `d` is a combination.
    assert forall|j: int| p <= j < k implies d[j] <= max_at(w, n, k as int, j) by {
        lemma_d_within(w, n, k, d, p, j);
    }
    assert forall|i: int| 0 <= i < d.len() implies #[trigger] d[i] < n by {
        if i < p {
            assert(d[i] == c[i]);
        }
    }
    assert forall|i: int| 0 < i < d.len() implies #[trigger] comb_link(w, d, i) by {
        if i < p {
            assert(comb_link(w, c, i));
        } else if i == p {
            assert(comb_link(w, c, i));
        } else {
            assert(comb_tight(w, d, i));
        }
    }
    // Ranks of the two, split after the common prefix.
    let pre = c.take(p);
    assert(d.take(p) =~= pre);
    let lo = if p == 0 {
        0
    } else {
        step(w, pre.last() as int)
    };
    let m = (k - p) as nat;
    let cs = c.skip(p);
    let ds = d.skip(p);
    assert(c =~= pre + cs);
    assert(d =~= pre + ds);
    lemma_comb_rank_concat(w, n, k, 0, pre, cs);
    lemma_comb_rank_concat(w, n, k, 0, pre, ds);
    let x = c[p] as int;
    // The rest of `c` after `p` is the largest combination that may follow `x`.
    let ct = cs.drop_first();
    lemma_comb_valid_skip(w, n, c, p + 1);
    assert(ct =~= c.skip(p + 1));
    assert forall|j: int| 0 <= j < ct.len() implies ct[j] == max_at(w, n, ct.len() as int, j) by {
        assert(ct[j] == c[p + 1 + j]);
    }
    lemma_comb_rank_max(w, n, step(w, x), ct);
    // The rest of `d` after `p` is the smallest combination that may follow `x + 1`.
    let dt = ds.drop_first();
    assert forall|j: int| 0 < j < dt.len() implies #[trigger] comb_tight(w, dt, j) by {
        assert(comb_tight(w, d, p + 1 + j));
        assert(dt[j] == d[p + 1 + j]);
        assert(dt[j - 1] == d[p + j]);
    }
    if dt.len() > 0 {
        assert(comb_tight(w, d, p + 1));
        assert(dt[0] == d[p + 1]);
    }
    lemma_comb_rank_min(w, n, (m - 1) as nat, step(w, x + 1), dt);
    // The prefix bounds `x` from below.
    if p > 0 {
        assert(comb_link(w, c, p));
        assert(pre.last() == c[p - 1]);
    }
    assert(lo <= x);
    lemma_comb_count_split(w, (n - x) as nat, m);
    assert(pool_after(w, (n - x) as nat) == n - step(w, x));
    assert(cs[0] == x);
    assert(ds[0] == x + 1);
}

/// Positions filled upwards from `p` stay within their largest elements.
proof fn lemma_d_within(w: bool, n: int, k: nat, d: Seq<usize>, p: int, j: int)
    requires
        0 <= p <= j < k,
        d.len() == k,
        d[p] <= max_at(w, n, k as int, p),
        forall|i: int| p < i < k ==> #[trigger] comb_tight(w, d, i),
    ensures
        d[j] <= max_at(w, n, k as int, j),
    decreases j - p,
{
    if j > p {
        lemma_d_within(w, n, k, d, p, j - 1);
        assert(comb_tight(w, d, j));
    }
}

/// A tail of a combination is a combination of what may follow its predecessor.
pub proof fn lemma_comb_valid_skip(w: bool, n: int, c: Seq<usize>, i: int)
    requires
        comb_valid_from(w, n, 0, c),
        0 < i <= c.len(),
    ensures
        comb_valid_from(w, n, step(w, c[i - 1] as int), c.skip(i)),
{
    let t = c.skip(i);
    assert forall|j: int| 0 <= j < t.len() implies #[trigger] t[j] < n by {
        assert(t[j] == c[i + j]);
    }
    assert forall|j: int| 0 < j < t.len() implies #[trigger] comb_link(w, t, j) by {
        assert(comb_link(w, c, i + j));
    }
    if t.len() > 0 {
        assert(comb_link(w, c, i));
    }
}

/// Stepping past the last combination: incrementing the first position when
/// every position holds its largest element.
pub proof fn lemma_comb_last(w: bool, n: int, k: nat, c: Seq<usize>, d: Seq<usize>)
    requires
        comb_valid(w, n, k, c),
        k >= 1,
        d.len() == k,
        c[0] == max_at(w, n, k as int, 0),
        d[0] == c[0] + 1,
        forall|j: int| 0 < j < k ==> #[trigger] comb_tight(w, d, j),
        forall|j: int| 0 < j < k ==> c[j] == max_at(w, n, k as int, j),
        n <= usize::MAX,
    ensures
        comb_rank(w, n, c) == comb_count(w, n as nat, k) - 1,
        d == comb_past_end(w, n, k),
{
    lemma_comb_rank_max(w, n, 0, c);
    assert forall|j: int| 0 <= j < k implies d[j] == (if w { n } else { n - k + 1 + j }) by {
        lemma_past_end_at(w, n, k, d, j);
    }
    assert(d =~= comb_past_end(w, n, k));
}

proof fn lemma_past_end_at(w: bool, n: int, k: nat, d: Seq<usize>, j: int)
    requires
        0 <= j < k,
        d.len() == k,
        d[0] == max_at(w, n, k as int, 0) + 1,
        forall|i: int| 0 < i < k ==> #[trigger] comb_tight(w, d, i),
    ensures
        d[j] == (if w { n } else { n - k + 1 + j }),
    decreases j,
{
    if j > 0 {
        lemma_past_end_at(w, n, k, d, j - 1);
        assert(comb_tight(w, d, j));
    }
}

/// Decrementing position `p` and refilling the positions after it with the
/// largest elements allowed, when every position after `p` held its smallest
/// element, yields the previous combination.
pub proof fn lemma_comb_predecessor(
    w: bool,
    n: int,
    k: nat,
    c: Seq<usize>,
    d: Seq<usize>,
    p: int,
)
    requires
        comb_valid(w, n, k, c),
        0 <= p < k,
        d.len() == k,
        forall|j: int| 0 <= j < p ==> d[j] == c[j],
        d[p] + 1 == c[p],
        min_at(w, c, p) <= d[p],
        forall|j: int| p < j < k ==> d[j] == max_at(w, n, k as int, j),
        forall|j: int| p < j < k ==> #[trigger] comb_tight(w, c, j),
    ensures
        comb_valid(w, n, k, d),
        comb_rank(w, n, c) == comb_rank(w, n, d) + 1,
{
    lemma_comb_valid_max(w, n, c, p);
    assert forall|i: int| 0 <= i < d.len() implies #[trigger] d[i] < n by {
        if i < p {
            assert(d[i] == c[i]);
        }
    }
    assert forall|i: int| 0 < i < d.len() implies #[trigger] comb_link(w, d, i) by {
        if i < p {
            assert(comb_link(w, c, i));
        }
    }
    lemma_comb_successor(w, n, k, d, c, p);
}

/// When every position holds its smallest element, the rank is zero.
pub proof fn lemma_comb_first(w: bool, n: int, k: nat, c: Seq<usize>)
    requires
        c.len() == k,
        forall|j: int| 0 <= j < k ==> c[j] == min_at(w, c, j),
    ensures
        comb_rank(w, n, c) == 0,
{
    if k > 0 {
        assert(c[0] == min_at(w, c, 0));
    }
    assert forall|j: int| 0 < j < c.len() implies #[trigger] comb_tight(w, c, j) by {
        assert(c[j] == min_at(w, c, j));
    }
    lemma_comb_rank_min(w, n, k, 0, c);
}

/// When `comb_len` can compute the count, the count fits in a `usize`.
pub proof fn lemma_comb_count_fits(w: bool, n: int, k: int)
    requires
        comb_len_fits(w, n, k),
        n >= 0,
        k >= 0,
    ensures
        comb_count(w, n as nat, k as nat) <= usize::MAX,
{
    if k > 0 {
        let m: nat = if w {
            (n + k - 1) as nat
        } else {
            n as nat
        };
        lemma_falling_binomial(m, k as nat);
        lemma_factorial_positive(k as nat);
        let b = binomial(m, k as nat) as int;
        let f = factorial(k as nat);
        assert(b <= b * f) by (nonlinear_arith)
            requires
                b >= 0,
                f >= 1,
        ;
    }
}

/// The combination of length `k` of `0..n` with index `idx` in
/// lexicographic order.
pub open spec fn comb_at(w: bool, n: int, k: nat, idx: int) -> Seq<usize> {
    comb_unrank(w, n, k, 0, idx)
}

/// Two combinations with the same rank are the same combination.
pub proof fn lemma_comb_rank_injective(w: bool, n: int, k: nat, a: Seq<usize>, b: Seq<usize>)
    requires
        comb_valid(w, n, k, a),
        comb_valid(w, n, k, b),
        comb_rank(w, n, a) == comb_rank(w, n, b),
        n >= 0,
    ensures
        a == b,
{
    if a != b {
        lemma_lex_total(a, b);
        if lex_less(a, b) {
            lemma_comb_rank_lex(w, n, 0, a, b);
        } else {
            lemma_comb_rank_lex(w, n, 0, b, a);
        }
    }
}

/// The combination with index `idx` is the one whose rank is `idx`.
pub proof fn lemma_comb_at(w: bool, n: int, k: nat, idx: int, c: Seq<usize>)
    requires
        0 <= n <= usize::MAX,
        0 <= idx < comb_count(w, n as nat, k),
        comb_valid(w, n, k, c),
        comb_rank(w, n, c) == idx,
    ensures
        c == comb_at(w, n, k, idx),
{
    lemma_comb_unrank(w, n, k, 0, idx);
    lemma_comb_rank_injective(w, n, k, c, comb_at(w, n, k, idx));
}

/// The combination holding the largest element at every position is
/// the last one.
pub proof fn lemma_comb_all_max(w: bool, n: int, k: nat, d: Seq<usize>)
    requires
        d.len() == k,
        k >= 1,
        if w {
            n >= 1
        } else {
            n >= k
        },
        forall|j: int| 0 <= j < k ==> d[j] == max_at(w, n, k as int, j),
    ensures
        comb_valid(w, n, k, d),
        comb_rank(w, n, d) == comb_count(w, n as nat, k) - 1,
{
    assert forall|j: int| 0 < j < d.len() implies #[trigger] comb_link(w, d, j) by {
        assert(d[j] == max_at(w, n, k as int, j));
        assert(d[j - 1] == max_at(w, n, k as int, j - 1));
    }
    assert(d[0] == max_at(w, n, k as int, 0));
    lemma_comb_rank_max(w, n, 0, d);
}

} // verus!
