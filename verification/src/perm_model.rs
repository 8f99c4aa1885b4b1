//! The mathematical model of permutations (arrangements of positions):
//! validity, how many there are, and the rank of each in lexicographic
//! order, as a mixed-radix number of "how many smaller choices were left".
use vstd::prelude::*;
use crate::counting::{
    falling, power, lemma_falling_head, lemma_power_positive,
    lemma_falling_positive,
};
use vstd::arithmetic::div_mod::{
    lemma_mod_mod, lemma_fundamental_div_mod, lemma_multiply_divide_lt, lemma_mod_pos_bound,
    lemma_div_pos_is_pos, lemma_small_mod, lemma_fundamental_div_mod_converse_mod,
};
use crate::sequences::{lex_less, lemma_lex_first_difference, lemma_lex_total};

verus! {

/// Number of arrangements of length `k` drawn from `n` elements:
/// `n^k` with replacement, `n * (n - 1) * ... * (n - k + 1)` without.
pub open spec fn perm_count(w: bool, n: nat, k: nat) -> int {
    if w {
        power(n as int, k)
    } else {
        falling(n as int, k)
    }
}

/// What `perm_len` needs to compute its result without overflowing: the
/// elements suffice (without replacement) and the product fits in a `usize`.
pub open spec fn perm_len_fits(w: bool, n: int, k: int) -> bool {
    k == 0 || (if w {
        power(n, k as nat) <= usize::MAX
    } else {
        n >= k && falling(n, k as nat) <= usize::MAX
    })
}

/// The number of choices left for position `i`.
pub open spec fn perm_pool(w: bool, n: int, i: int) -> int {
    if w {
        n
    } else {
        n - i
    }
}

/// The number of ways to fill positions `i..k` once the positions before
/// `i` are chosen.
pub open spec fn perm_tail(w: bool, n: int, k: int, i: int) -> int {
    if w {
        power(n, (k - i) as nat)
    } else {
        falling(n - i, (k - i) as nat)
    }
}

/// The number of elements below `x` that do not occur in `used`.
pub open spec fn free_below(used: Seq<usize>, x: int) -> int
    decreases x,
{
    if x <= 0 {
        0
    } else {
        free_below(used, x - 1) + (if used.contains((x - 1) as usize) {
            0int
        } else {
            1int
        })
    }
}

/// The choice made at position `i` of `c`, counted among the choices that
/// were left: the element itself with replacement, otherwise how many
/// unused elements lie below it.
pub open spec fn perm_digit(w: bool, c: Seq<usize>, i: int) -> int {
    if w {
        c[i] as int
    } else {
        free_below(c.take(i), c[i] as int)
    }
}

/// The mixed-radix value of the choices of `c` at positions `i..k`.
pub open spec fn perm_rank_from(w: bool, n: int, k: int, c: Seq<usize>, i: int) -> int
    decreases k - i,
{
    if i >= k {
        0
    } else {
        perm_digit(w, c, i) * perm_tail(w, n, k, i + 1) + perm_rank_from(w, n, k, c, i + 1)
    }
}

/// The index of the arrangement `c` of `0..n` in lexicographic order.
pub open spec fn perm_rank(w: bool, n: int, c: Seq<usize>) -> int {
    perm_rank_from(w, n, c.len() as int, c, 0)
}

/// `c` is an arrangement of length `k` of elements of `0..n`; without
/// replacement no element occurs twice.
pub open spec fn perm_valid(w: bool, n: int, k: nat, c: Seq<usize>) -> bool {
    &&& c.len() == k
    &&& forall|i: int| 0 <= i < c.len() ==> #[trigger] c[i] < n
    &&& !w ==> forall|i: int, j: int|
        #![trigger c[i], c[j]]
        0 <= i < c.len() && 0 <= j < c.len() && i != j ==> c[i] != c[j]
}

pub proof fn lemma_falling_zero_above(m: int, k: nat)
    requires
        0 <= m < k,
    ensures
        falling(m, k) == 0,
    decreases k,
{
    if k == m + 1 {
        let f = falling(m, (k - 1) as nat);
        assert(f * 0 == 0) by (nonlinear_arith);
    } else {
        lemma_falling_zero_above(m, (k - 1) as nat);
        let d = m - (k - 1);
        assert(0 * d == 0) by (nonlinear_arith);
    }
}

pub proof fn lemma_perm_tail_last(w: bool, n: int, k: int)
    ensures
        perm_tail(w, n, k, k) == 1,
{
}

/// Choosing position `i` multiplies the ways to fill the rest by the choices
/// left there.
pub proof fn lemma_perm_tail_step(w: bool, n: int, k: int, i: int)
    requires
        i < k,
    ensures
        perm_tail(w, n, k, i) == perm_pool(w, n, i) * perm_tail(w, n, k, i + 1),
{
    if w {
        let e = (k - i) as nat;
        assert(power(n, e) == power(n, (e - 1) as nat) * n);
        let p = power(n, (e - 1) as nat);
        assert(p * n == n * p) by (nonlinear_arith);
        assert((k - (i + 1)) as nat == (e - 1) as nat);
    } else {
        lemma_falling_head(n - i, (k - i) as nat);
        assert((k - (i + 1)) as nat == ((k - i) as nat - 1) as nat);
    }
}

pub proof fn lemma_free_below_monotone(used: Seq<usize>, x: int, y: int)
    requires
        x <= y,
    ensures
        free_below(used, x) <= free_below(used, y),
    decreases y,
{
    if x < y && y > 0 {
        lemma_free_below_monotone(used, x, y - 1);
    }
}

pub proof fn lemma_free_below_nonneg(used: Seq<usize>, x: int)
    ensures
        0 <= free_below(used, x) <= if x < 0 {
            0
        } else {
            x
        },
    decreases x,
{
    if x > 0 {
        lemma_free_below_nonneg(used, x - 1);
    }
}

pub proof fn lemma_free_below_empty(x: int)
    requires
        x >= 0,
    ensures
        free_below(Seq::<usize>::empty(), x) == x,
    decreases x,
{
    if x > 0 {
        lemma_free_below_empty(x - 1);
    }
}

/// Using one more element `a` removes it from the free elements above it.
pub proof fn lemma_free_below_push(used: Seq<usize>, a: usize, x: int)
    requires
        !used.contains(a),
        x <= usize::MAX + 1,
    ensures
        free_below(used.push(a), x) == free_below(used, x) - (if a < x {
            1int
        } else {
            0int
        }),
    decreases x,
{
    if x > 0 {
        lemma_free_below_push(used, a, x - 1);
        let y = (x - 1) as usize;
        assert(used.push(a).contains(y) <==> (used.contains(y) || y == a)) by {
            if used.contains(y) {
                let j = choose|j: int| 0 <= j < used.len() && used[j] == y;
                assert(used.push(a)[j] == y);
            }
            if y == a {
                assert(used.push(a)[used.len() as int] == y);
            }
            if used.push(a).contains(y) {
                let j = choose|j: int| 0 <= j < used.push(a).len() && used.push(a)[j] == y;
                if j < used.len() {
                    assert(used[j] == y);
                }
            }
        }
    }
}

/// The prefix of length `i` of an arrangement without replacement leaves
/// `n - i` elements free.
pub proof fn lemma_free_below_prefix(n: int, c: Seq<usize>, i: int)
    requires
        perm_valid(false, n, c.len(), c),
        0 <= i <= c.len(),
        0 <= n <= usize::MAX,
    ensures
        free_below(c.take(i), n) == n - i,
    decreases i,
{
    if i == 0 {
        assert(c.take(0) =~= Seq::<usize>::empty());
        lemma_free_below_empty(n);
    } else {
        lemma_free_below_prefix(n, c, i - 1);
        let p = c.take(i - 1);
        let a = c[i - 1];
        assert(c.take(i) =~= p.push(a));
        assert(!p.contains(a)) by {
            if p.contains(a) {
                let j = choose|j: int| 0 <= j < p.len() && p[j] == a;
                assert(c[j] == c[i - 1]);
            }
        }
        lemma_free_below_push(p, a, n);
    }
}

/// The choice at each position is among the choices left there.
pub proof fn lemma_perm_digit_bound(w: bool, n: int, c: Seq<usize>, i: int)
    requires
        perm_valid(w, n, c.len(), c),
        0 <= i < c.len(),
        0 <= n <= usize::MAX,
    ensures
        0 <= perm_digit(w, c, i) < perm_pool(w, n, i),
{
    if !w {
        let p = c.take(i);
        let x = c[i] as int;
        lemma_free_below_nonneg(p, x);
        lemma_free_below_prefix(n, c, i);
        assert(!p.contains(c[i])) by {
            if p.contains(c[i]) {
                let j = choose|j: int| 0 <= j < p.len() && p[j] == c[i];
                assert(c[j] == c[i]);
            }
        }
        lemma_free_below_monotone(p, x + 1, n);
    }
}

/// The rank of an arrangement lies below the number of ways to fill the
/// positions it covers.
pub proof fn lemma_perm_rank_bound(w: bool, n: int, c: Seq<usize>, i: int)
    requires
        perm_valid(w, n, c.len(), c),
        0 <= i <= c.len(),
        0 <= n <= usize::MAX,
    ensures
        0 <= perm_rank_from(w, n, c.len() as int, c, i) < perm_tail(w, n, c.len() as int, i),
    decreases c.len() - i,
{
    let k = c.len() as int;
    if i < k {
        lemma_perm_rank_bound(w, n, c, i + 1);
        lemma_perm_digit_bound(w, n, c, i);
        lemma_perm_tail_step(w, n, k, i);
        let d = perm_digit(w, c, i);
        let t1 = perm_tail(w, n, k, i + 1);
        let r1 = perm_rank_from(w, n, k, c, i + 1);
        let pl = perm_pool(w, n, i);
        assert(0 <= d * t1 + r1 < pl * t1) by (nonlinear_arith)
            requires
                0 <= d < pl,
                0 <= r1 < t1,
        ;
    }
}

/// Arrangements that agree before position `j` have the same choices there.
proof fn lemma_perm_rank_common_prefix(
    w: bool,
    n: int,
    a: Seq<usize>,
    b: Seq<usize>,
    i: int,
    j: int,
)
    requires
        a.len() == b.len(),
        0 <= i <= j < a.len(),
        forall|t: int| 0 <= t < j ==> a[t] == b[t],
    ensures
        perm_rank_from(w, n, a.len() as int, a, i) - perm_rank_from(w, n, b.len() as int, b, i)
            == perm_rank_from(w, n, a.len() as int, a, j) - perm_rank_from(
            w,
            n,
            b.len() as int,
            b,
            j,
        ),
    decreases j - i,
{
    if i < j {
        lemma_perm_rank_common_prefix(w, n, a, b, i + 1, j);
        assert(a.take(i) =~= b.take(i));
    }
}

/// Lexicographic order of arrangements is the order of their ranks.
pub proof fn lemma_perm_rank_lex(w: bool, n: int, a: Seq<usize>, b: Seq<usize>)
    requires
        perm_valid(w, n, a.len(), a),
        perm_valid(w, n, b.len(), b),
        a.len() == b.len(),
        lex_less(a, b),
        0 <= n <= usize::MAX,
    ensures
        perm_rank(w, n, a) < perm_rank(w, n, b),
{
    let k = a.len() as int;
    let j = lemma_lex_first_difference(a, b);
    lemma_perm_rank_common_prefix(w, n, a, b, 0, j);
    lemma_perm_rank_bound(w, n, a, j + 1);
    lemma_perm_rank_bound(w, n, b, j + 1);
    let da = perm_digit(w, a, j);
    let db = perm_digit(w, b, j);
    assert(da < db) by {
        if !w {
            assert(a.take(j) =~= b.take(j));
            let p = a.take(j);
            assert(!p.contains(a[j])) by {
                if p.contains(a[j]) {
                    let t = choose|t: int| 0 <= t < p.len() && p[t] == a[j];
                    assert(a[t] == a[j]);
                }
            }
            lemma_free_below_monotone(p, a[j] as int + 1, b[j] as int);
        }
    }
    let t1 = perm_tail(w, n, k, j + 1);
    let ra = perm_rank_from(w, n, k, a, j + 1);
    let rb = perm_rank_from(w, n, k, b, j + 1);
    assert(da * t1 + ra < db * t1 + rb) by (nonlinear_arith)
        requires
            da < db,
            0 <= ra < t1,
            0 <= rb,
    ;
}

/// Two arrangements with the same rank are the same arrangement.
pub proof fn lemma_perm_rank_injective(w: bool, n: int, k: nat, a: Seq<usize>, b: Seq<usize>)
    requires
        perm_valid(w, n, k, a),
        perm_valid(w, n, k, b),
        perm_rank(w, n, a) == perm_rank(w, n, b),
        0 <= n <= usize::MAX,
    ensures
        a == b,
{
    if a != b {
        lemma_lex_total(a, b);
        if lex_less(a, b) {
            lemma_perm_rank_lex(w, n, a, b);
        } else {
            lemma_perm_rank_lex(w, n, b, a);
        }
    }
}

/// The ways to fill any tail of the positions are positive when the
/// elements suffice.
pub proof fn lemma_perm_tail_positive(w: bool, n: int, k: int, i: int)
    requires
        0 <= i <= k,
        if w {
            n >= 1
        } else {
            n >= k
        },
    ensures
        perm_tail(w, n, k, i) >= 1,
{
    if w {
        lemma_power_positive(n, (k - i) as nat);
    } else {
        lemma_falling_positive(n - i, (k - i) as nat);
    }
}

/// The choice left at position `t` by the arrangement with index `idx`:
/// its digit in the mixed radix of the ways to fill the later positions.
pub open spec fn index_digit(w: bool, n: int, k: int, idx: int, t: int) -> int {
    (idx % perm_tail(w, n, k, t)) / perm_tail(w, n, k, t + 1)
}

/// The `d`-th element (counting from zero) of `x..n` that is not in `used`.
pub open spec fn nth_free_from(used: Seq<usize>, d: int, x: int, n: int) -> int
    decreases n - x,
{
    if x >= n {
        n
    } else if !used.contains(x as usize) && free_below(used, x) == d {
        x
    } else {
        nth_free_from(used, d, x + 1, n)
    }
}

/// The first `i` positions of the arrangement with index `idx`.
pub open spec fn perm_build(w: bool, n: int, k: int, idx: int, i: nat) -> Seq<usize>
    decreases i,
{
    if i == 0 {
        Seq::empty()
    } else {
        let p = perm_build(w, n, k, idx, (i - 1) as nat);
        let d = index_digit(w, n, k, idx, i - 1);
        p.push(
            (if w {
                d
            } else {
                nth_free_from(p, d, 0, n)
            }) as usize,
        )
    }
}

/// The arrangement of length `k` of `0..n` with index `idx` in
/// lexicographic order.
pub open spec fn perm_at(w: bool, n: int, k: nat, idx: int) -> Seq<usize> {
    perm_build(w, n, k as int, idx, k)
}

pub proof fn lemma_nth_free(used: Seq<usize>, d: int, x: int, n: int)
    requires
        0 <= x <= n <= usize::MAX,
        free_below(used, x) <= d < free_below(used, n),
    ensures
        x <= nth_free_from(used, d, x, n) < n,
        !used.contains(nth_free_from(used, d, x, n) as usize),
        free_below(used, nth_free_from(used, d, x, n)) == d,
    decreases n - x,
{
    if x >= n {
    } else if !used.contains(x as usize) && free_below(used, x) == d {
    } else {
        assert(free_below(used, x + 1) == free_below(used, x) + (if used.contains(x as usize) {
            0int
        } else {
            1int
        }));
        lemma_nth_free(used, d, x + 1, n);
    }
}

/// The digits of an index are within the choices left.
pub proof fn lemma_index_digit_bound(w: bool, n: int, k: int, idx: int, t: int)
    requires
        0 <= t < k,
        idx >= 0,
        if w {
            n >= 1
        } else {
            n >= k
        },
    ensures
        0 <= index_digit(w, n, k, idx, t) < perm_pool(w, n, t),
{
    lemma_perm_tail_positive(w, n, k, t);
    lemma_perm_tail_positive(w, n, k, t + 1);
    lemma_perm_tail_step(w, n, k, t);
    let q = perm_tail(w, n, k, t + 1);
    let r = idx % perm_tail(w, n, k, t);
    lemma_mod_pos_bound(idx, perm_tail(w, n, k, t));
    lemma_div_pos_is_pos(r, q);
    assert(r < q * perm_pool(w, n, t)) by (nonlinear_arith)
        requires
            r < perm_pool(w, n, t) * q,
    ;
    lemma_multiply_divide_lt(r, q, perm_pool(w, n, t));
}

/// The arrangement with index `idx` is built position by position, each
/// position taking the choice given by the index's digit.
pub proof fn lemma_perm_build(w: bool, n: int, k: int, idx: int, i: nat)
    requires
        i <= k,
        0 <= idx,
        n <= usize::MAX,
        if w {
            n >= 1
        } else {
            n >= k
        },
    ensures
        perm_valid(w, n, i, perm_build(w, n, k, idx, i)),
        forall|t: int|
            0 <= t < i ==> #[trigger] perm_digit(w, perm_build(w, n, k, idx, i), t)
                == index_digit(w, n, k, idx, t),
    decreases i,
{
    if i > 0 {
        let p = perm_build(w, n, k, idx, (i - 1) as nat);
        let c = perm_build(w, n, k, idx, i);
        let d = index_digit(w, n, k, idx, i - 1);
        lemma_perm_build(w, n, k, idx, (i - 1) as nat);
        lemma_index_digit_bound(w, n, k, idx, i - 1);
        let x = if w {
            d
        } else {
            nth_free_from(p, d, 0, n)
        };
        if !w {
            assert(p.take(p.len() as int) =~= p);
            lemma_free_below_prefix(n, p, p.len() as int);
            lemma_nth_free(p, d, 0, n);
        }
        assert(c == p.push(x as usize));
        assert(c.take(i - 1) =~= p);
        assert forall|t: int| 0 <= t < i - 1 implies #[trigger] perm_digit(w, c, t)
            == index_digit(w, n, k, idx, t) by {
            assert(perm_digit(w, p, t) == index_digit(w, n, k, idx, t));
            assert(c.take(t) =~= p.take(t));
            assert(c[t] == p[t]);
        }
        assert(perm_digit(w, c, i - 1) == d);
        assert forall|a: int| 0 <= a < c.len() implies #[trigger] c[a] < n by {
            if a < i - 1 {
                assert(c[a] == p[a]);
            }
        }
        if !w {
            assert forall|a: int, b: int|
                0 <= a < c.len() && 0 <= b < c.len() && a != b implies #[trigger] c[a]
                != #[trigger] c[b] by {
                if a < i - 1 && b < i - 1 {
                    assert(c[a] == p[a] && c[b] == p[b]);
                } else if a < i - 1 {
                    assert(c[a] == p[a]);
                    assert(p.contains(p[a]));
                } else if b < i - 1 {
                    assert(c[b] == p[b]);
                    assert(p.contains(p[b]));
                }
            }
        }
    }
}

/// When every choice of `c` from position `i` on is the digit of `idx`,
/// the rank of those positions is `idx` modulo the ways to fill them.
pub proof fn lemma_perm_rank_digits(w: bool, n: int, k: int, idx: int, c: Seq<usize>, i: int)
    requires
        c.len() == k,
        0 <= i <= k,
        0 <= idx,
        if w {
            n >= 1
        } else {
            n >= k
        },
        forall|t: int| i <= t < k ==> #[trigger] perm_digit(w, c, t) == index_digit(w, n, k, idx, t),
    ensures
        perm_rank_from(w, n, k, c, i) == idx % perm_tail(w, n, k, i),
    decreases k - i,
{
    if i == k {
        lemma_perm_tail_last(w, n, k);
    } else {
        lemma_perm_rank_digits(w, n, k, idx, c, i + 1);
        assert(perm_digit(w, c, i) == index_digit(w, n, k, idx, i));
        lemma_perm_tail_positive(w, n, k, i + 1);
        lemma_perm_tail_step(w, n, k, i);
        let q = perm_tail(w, n, k, i + 1);
        let pl = perm_pool(w, n, i);
        assert(perm_pool(w, n, i) >= 1) by {
            lemma_perm_tail_positive(w, n, k, i);
            assert(pl * q >= 1);
            if pl < 1 {
                assert(pl * q <= 0) by (nonlinear_arith)
                    requires
                        pl < 1,
                        q >= 1,
                ;
            }
        }
        let r = idx % perm_tail(w, n, k, i);
        assert(perm_tail(w, n, k, i) == q * pl) by (nonlinear_arith)
            requires
                perm_tail(w, n, k, i) == pl * q,
        ;
        lemma_mod_mod(idx, q, pl);
        lemma_fundamental_div_mod(r, q);
        assert(r == q * (r / q) + idx % q);
        assert(q * (r / q) == (r / q) * q) by (nonlinear_arith);
    }
}

/// The arrangement with index `idx` is the one whose rank is `idx`.
pub proof fn lemma_perm_at(w: bool, n: int, k: nat, idx: int)
    requires
        0 <= n <= usize::MAX,
        0 <= idx < perm_count(w, n as nat, k),
    ensures
        perm_valid(w, n, k, perm_at(w, n, k, idx)),
        perm_rank(w, n, perm_at(w, n, k, idx)) == idx,
{
    let ki = k as int;
    assert(perm_count(w, n as nat, k) == perm_tail(w, n, ki, 0));
    assert(if w {
        n >= 1 || k == 0
    } else {
        n >= k
    }) by {
        if w && k > 0 && n == 0 {
            crate::counting::lemma_power_head(0, k);
            assert(0 * power(0, (k - 1) as nat) == 0) by (nonlinear_arith);
        }
        if !w && n < k {
            lemma_falling_zero_above(n, k);
        }
    }
    if k == 0 {
        assert(perm_at(w, n, k, idx) =~= Seq::<usize>::empty());
        assert(perm_tail(w, n, 0, 0) == 1);
    } else {
        lemma_perm_build(w, n, ki, idx, k);
        let c = perm_at(w, n, k, idx);
        lemma_perm_rank_digits(w, n, ki, idx, c, 0);
        lemma_small_mod(idx as nat, perm_tail(w, n, ki, 0) as nat);
    }
}

/// How many times `x` occurs in `c`.
pub open spec fn occurrences(c: Seq<usize>, x: usize) -> nat
    decreases c.len(),
{
    if c.len() == 0 {
        0
    } else {
        occurrences(c.drop_last(), x) + (if c.last() == x {
            1nat
        } else {
            0nat
        })
    }
}

/// `used` records, for each element of `0..n`, how often it occurs in `c`.
pub open spec fn tracks_usage(used: Seq<usize>, c: Seq<usize>, n: int) -> bool {
    &&& used.len() == n
    &&& forall|x: int| 0 <= x < n ==> #[trigger] used[x] == occurrences(c, x as usize)
}

pub proof fn lemma_occurrences_bound(c: Seq<usize>, x: usize)
    ensures
        occurrences(c, x) <= c.len(),
    decreases c.len(),
{
    if c.len() > 0 {
        lemma_occurrences_bound(c.drop_last(), x);
    }
}

/// Replacing the element at `j` moves one occurrence from the old element to
/// the new one.
pub proof fn lemma_occurrences_update(c: Seq<usize>, j: int, v: usize, x: usize)
    requires
        0 <= j < c.len(),
    ensures
        occurrences(c.update(j, v), x) + (if c[j] == x {
            1int
        } else {
            0int
        }) == occurrences(c, x) + (if v == x {
            1int
        } else {
            0int
        }),
    decreases c.len(),
{
    let d = c.update(j, v);
    if j == c.len() - 1 {
        assert(d.drop_last() =~= c.drop_last());
    } else {
        assert(d.drop_last() =~= c.drop_last().update(j, v));
        lemma_occurrences_update(c.drop_last(), j, v, x);
    }
}

/// An element at some position occurs at least once; at two positions, at
/// least twice.
pub proof fn lemma_occurrences_positions(c: Seq<usize>, i: int, j: int)
    requires
        0 <= i < c.len(),
        0 <= j < c.len(),
        c[i] == c[j],
    ensures
        occurrences(c, c[i]) >= 1,
        i != j ==> occurrences(c, c[i]) >= 2,
    decreases c.len(),
{
    let k = c.len() - 1;
    if i == k && j == k {
    } else if i == k {
        assert(c.drop_last()[j] == c[j]);
        lemma_occurrences_positions(c.drop_last(), j, j);
    } else if j == k {
        assert(c.drop_last()[i] == c[i]);
        lemma_occurrences_positions(c.drop_last(), i, i);
    } else {
        assert(c.drop_last()[i] == c[i]);
        assert(c.drop_last()[j] == c[j]);
        lemma_occurrences_positions(c.drop_last(), i, j);
    }
}

/// In a sequence without repeats, each of its elements occurs once.
pub proof fn lemma_occurrences_distinct(c: Seq<usize>, i: int)
    requires
        0 <= i < c.len(),
        forall|a: int, b: int|
            #![trigger c[a], c[b]]
            0 <= a < c.len() && 0 <= b < c.len() && a != b ==> c[a] != c[b],
    ensures
        occurrences(c, c[i]) == 1,
    decreases c.len(),
{
    let k = c.len() - 1;
    let p = c.drop_last();
    if i == k {
        lemma_occurrences_absent(p, c[i]);
        assert forall|a: int| 0 <= a < p.len() implies p[a] != c[i] by {
            assert(p[a] == c[a]);
        }
    } else {
        assert(p[i] == c[i]);
        assert(c.last() != c[i]);
        lemma_occurrences_distinct(p, i);
    }
}

pub proof fn lemma_occurrences_absent(c: Seq<usize>, x: usize)
    requires
        forall|a: int| 0 <= a < c.len() ==> c[a] != x,
    ensures
        occurrences(c, x) == 0,
    decreases c.len(),
{
    if c.len() > 0 {
        assert forall|a: int| 0 <= a < c.drop_last().len() implies c.drop_last()[a] != x by {
            assert(c.drop_last()[a] == c[a]);
        }
        lemma_occurrences_absent(c.drop_last(), x);
    }
}

/// Changing a position before `i` leaves the value of the positions from
/// `i` on unchanged, with replacement, where each choice is the element.
pub proof fn lemma_odometer_suffix_update(n: int, k: int, c: Seq<usize>, q: int, v: usize, i: int)
    requires
        0 <= q < i,
        q < c.len(),
        k <= c.len(),
    ensures
        perm_rank_from(true, n, k, c.update(q, v), i) == perm_rank_from(true, n, k, c, i),
    decreases k - i,
{
    if i < k {
        lemma_odometer_suffix_update(n, k, c, q, v, i + 1);
    }
}

/// Among arrangements without repeats, a smaller value with replacement
/// (the order of the positions read as digits) means a smaller rank.
pub proof fn lemma_odometer_orders_rank(n: int, k: nat, a: Seq<usize>, b: Seq<usize>)
    requires
        0 <= n <= usize::MAX,
        perm_valid(false, n, k, a),
        perm_valid(false, n, k, b),
        perm_rank(true, n, a) < perm_rank(true, n, b),
    ensures
        perm_rank(false, n, a) < perm_rank(false, n, b),
{
    if a == b {
    } else {
        lemma_lex_total(a, b);
        if lex_less(b, a) {
            lemma_perm_rank_lex(true, n, b, a);
        } else {
            lemma_perm_rank_lex(false, n, a, b);
        }
    }
}

proof fn lemma_mod_window(x: int, m: int, q: int)
    requires
        m > 0,
        0 <= x - q * m < m,
    ensures
        x % m == x - q * m,
{
    lemma_fundamental_div_mod_converse_mod(x, m, q, x - q * m);
}

/// Stepping the odometer forwards from the arrangement `s` reaches no
/// arrangement without repeats before the next one, `t`: any `x` reached
/// after `j` steps with `1 <= j` short of the distance to `t` has repeats.
pub proof fn lemma_next_gap(n: int, k: nat, s: Seq<usize>, t: Seq<usize>, x: Seq<usize>, j: int)
    requires
        0 <= n <= usize::MAX,
        perm_valid(false, n, k, s),
        perm_valid(false, n, k, t),
        perm_valid(true, n, k, x),
        perm_rank(false, n, t) == (perm_rank(false, n, s) + 1) % perm_count(false, n as nat, k),
        perm_rank(true, n, x) == (perm_rank(true, n, s) + j) % perm_count(true, n as nat, k),
        1 <= j < ((perm_rank(true, n, t) - perm_rank(true, n, s) - 1) % perm_count(
            true,
            n as nat,
            k,
        )) + 1,
    ensures
        !perm_valid(false, n, k, x),
{
    if perm_valid(false, n, k, x) {
        let tt = perm_count(false, n as nat, k);
        let nn = perm_count(true, n as nat, k);
        let v0 = perm_rank(true, n, s);
        let vt = perm_rank(true, n, t);
        let vx = perm_rank(true, n, x);
        let r0 = perm_rank(false, n, s);
        let rt = perm_rank(false, n, t);
        let rx = perm_rank(false, n, x);
        assert(perm_tail(false, n, k as int, 0) == tt);
        assert(perm_tail(true, n, k as int, 0) == nn);
        lemma_perm_rank_bound(false, n, s, 0);
        lemma_perm_rank_bound(false, n, t, 0);
        lemma_perm_rank_bound(false, n, x, 0);
        lemma_perm_rank_bound(true, n, s, 0);
        lemma_perm_rank_bound(true, n, t, 0);
        lemma_perm_rank_bound(true, n, x, 0);
        if r0 + 1 < tt {
            lemma_mod_window(r0 + 1, tt, 0);
            if vt < v0 {
                lemma_odometer_orders_rank(n, k, t, s);
            } else if vt == v0 {
                lemma_perm_rank_injective(true, n, k, t, s);
            }
            lemma_mod_window(vt - v0 - 1, nn, 0);
            lemma_mod_window(v0 + j, nn, 0);
            lemma_odometer_orders_rank(n, k, s, x);
            lemma_odometer_orders_rank(n, k, x, t);
        } else {
            lemma_mod_window(r0 + 1, tt, 1);
            if rt == r0 {
                lemma_perm_rank_injective(false, n, k, t, s);
                lemma_mod_window(vt - v0 - 1, nn, -1);
                if v0 + j < nn {
                    lemma_mod_window(v0 + j, nn, 0);
                } else {
                    lemma_mod_window(v0 + j, nn, 1);
                }
                lemma_perm_rank_injective(false, n, k, x, s);
            } else {
                if vt > v0 {
                    lemma_odometer_orders_rank(n, k, s, t);
                } else if vt == v0 {
                    lemma_perm_rank_injective(true, n, k, t, s);
                }
                lemma_mod_window(vt - v0 - 1, nn, -1);
                if v0 + j < nn {
                    lemma_mod_window(v0 + j, nn, 0);
                    lemma_odometer_orders_rank(n, k, s, x);
                } else {
                    lemma_mod_window(v0 + j, nn, 1);
                    lemma_odometer_orders_rank(n, k, x, t);
                }
            }
        }
    }
}

/// Stepping the odometer backwards from the arrangement `s` reaches no
/// arrangement without repeats before the previous one, `t`.
pub proof fn lemma_prev_gap(n: int, k: nat, s: Seq<usize>, t: Seq<usize>, x: Seq<usize>, j: int)
    requires
        0 <= n <= usize::MAX,
        perm_valid(false, n, k, s),
        perm_valid(false, n, k, t),
        perm_valid(true, n, k, x),
        perm_rank(false, n, t) == (perm_rank(false, n, s) - 1 + perm_count(false, n as nat, k))
            % perm_count(false, n as nat, k),
        perm_rank(true, n, x) == (perm_rank(true, n, s) - j) % perm_count(true, n as nat, k),
        1 <= j < ((perm_rank(true, n, s) - perm_rank(true, n, t) - 1) % perm_count(
            true,
            n as nat,
            k,
        )) + 1,
    ensures
        !perm_valid(false, n, k, x),
{
    if perm_valid(false, n, k, x) {
        let tt = perm_count(false, n as nat, k);
        let nn = perm_count(true, n as nat, k);
        let v0 = perm_rank(true, n, s);
        let vt = perm_rank(true, n, t);
        let vx = perm_rank(true, n, x);
        let r0 = perm_rank(false, n, s);
        let rt = perm_rank(false, n, t);
        let rx = perm_rank(false, n, x);
        assert(perm_tail(false, n, k as int, 0) == tt);
        assert(perm_tail(true, n, k as int, 0) == nn);
        lemma_perm_rank_bound(false, n, s, 0);
        lemma_perm_rank_bound(false, n, t, 0);
        lemma_perm_rank_bound(false, n, x, 0);
        lemma_perm_rank_bound(true, n, s, 0);
        lemma_perm_rank_bound(true, n, t, 0);
        lemma_perm_rank_bound(true, n, x, 0);
        if r0 >= 1 {
            lemma_mod_window(r0 - 1 + tt, tt, 1);
            if vt > v0 {
                lemma_odometer_orders_rank(n, k, s, t);
            } else if vt == v0 {
                lemma_perm_rank_injective(true, n, k, t, s);
            }
            lemma_mod_window(v0 - vt - 1, nn, 0);
            lemma_mod_window(v0 - j, nn, 0);
            lemma_odometer_orders_rank(n, k, t, x);
            lemma_odometer_orders_rank(n, k, x, s);
        } else {
            lemma_mod_window(r0 - 1 + tt, tt, 0);
            if rt == r0 {
                lemma_perm_rank_injective(false, n, k, t, s);
                lemma_mod_window(v0 - vt - 1, nn, -1);
                if v0 - j >= 0 {
                    lemma_mod_window(v0 - j, nn, 0);
                } else {
                    lemma_mod_window(v0 - j, nn, -1);
                }
                lemma_perm_rank_injective(false, n, k, x, s);
            } else {
                if vt < v0 {
                    lemma_odometer_orders_rank(n, k, t, s);
                } else if vt == v0 {
                    lemma_perm_rank_injective(true, n, k, t, s);
                }
                lemma_mod_window(v0 - vt - 1, nn, -1);
                if v0 - j >= 0 {
                    lemma_mod_window(v0 - j, nn, 0);
                    lemma_odometer_orders_rank(n, k, x, s);
                } else {
                    lemma_mod_window(v0 - j, nn, -1);
                    lemma_odometer_orders_rank(n, k, t, x);
                }
            }
        }
    }
}

/// The forward distance from `a` to `b` modulo `m`, taken in `1..=m`.
pub proof fn lemma_mod_distance_next(a: int, b: int, m: int)
    requires
        0 <= a < m,
        0 <= b < m,
    ensures
        1 <= ((b - a - 1) % m) + 1 <= m,
        (a + ((b - a - 1) % m) + 1) % m == b,
        b == (a + 1) % m ==> ((b - a - 1) % m) + 1 == 1,
{
    if b - a - 1 >= 0 {
        lemma_mod_window(b - a - 1, m, 0);
        lemma_mod_window(b, m, 0);
        if b == (a + 1) % m {
            lemma_mod_window(a + 1, m, 0);
        }
    } else {
        lemma_mod_window(b - a - 1, m, -1);
        lemma_mod_window(a + (b - a - 1 + m) + 1, m, 1);
        if b == (a + 1) % m {
            if a + 1 < m {
                lemma_mod_window(a + 1, m, 0);
            } else {
                lemma_mod_window(a + 1, m, 1);
                lemma_mod_window(b - a - 1, m, -1);
            }
        }
    }
}

/// The backward distance from `a` to `b` modulo `m`, taken in `1..=m`.
pub proof fn lemma_mod_distance_prev(a: int, b: int, m: int)
    requires
        0 <= a < m,
        0 <= b < m,
    ensures
        1 <= ((a - b - 1) % m) + 1 <= m,
        (a - (((a - b - 1) % m) + 1)) % m == b,
        b == (a - 1 + m) % m ==> ((a - b - 1) % m) + 1 == 1,
{
    if a - b - 1 >= 0 {
        lemma_mod_window(a - b - 1, m, 0);
        lemma_mod_window(b, m, 0);
        if b == (a - 1 + m) % m {
            lemma_mod_window(a - 1 + m, m, 1);
        }
    } else {
        lemma_mod_window(a - b - 1, m, -1);
        lemma_mod_window(a - (a - b - 1 + m + 1), m, -1);
        if b == (a - 1 + m) % m {
            if a - 1 >= 0 {
                lemma_mod_window(a - 1 + m, m, 1);
            } else {
                lemma_mod_window(a - 1 + m, m, 0);
            }
        }
    }
}

/// One more step of a counter that wraps at `m`.
pub proof fn lemma_mod_step(x: int, m: int, y: int, d: int, carry: bool)
    requires
        m > 0,
        0 <= y < m,
        d == 1 || d == -1,
        y + (if carry {
            d * m
        } else {
            0
        }) == x % m + d,
    ensures
        y == (x + d) % m,
{
    vstd::arithmetic::div_mod::lemma_fundamental_div_mod(x, m);
    let q = x / m;
    let q2 = if carry {
        q + d
    } else {
        q
    };
    assert(x + d == q2 * m + y) by (nonlinear_arith)
        requires
            x == m * q + x % m,
            y + (if carry {
                d * m
            } else {
                0
            }) == x % m + d,
            q2 == if carry {
                q + d
            } else {
                q
            },
    ;
    lemma_fundamental_div_mod_converse_mod(x + d, m, q2, y);
}

pub proof fn lemma_mod_window_plus(a: int, m: int)
    requires
        0 <= a < m,
    ensures
        (a + 1 + m) % m == (a + 1) % m,
{
    if a + 1 < m {
        lemma_mod_window(a + 1 + m, m, 1);
        lemma_mod_window(a + 1, m, 0);
    } else {
        lemma_mod_window(a + 1 + m, m, 2);
        lemma_mod_window(a + 1, m, 1);
    }
}

/// Taking the remainder before adding a step gives the same remainder.
pub proof fn lemma_mod_shift(x: int, d: int, m: int)
    requires
        m > 0,
    ensures
        ((x % m) + d) % m == (x + d) % m,
{
    vstd::arithmetic::div_mod::lemma_fundamental_div_mod(x, m);
    let q = x / m;
    let r = (x % m + d) % m;
    vstd::arithmetic::div_mod::lemma_fundamental_div_mod(x % m + d, m);
    let q2 = (x % m + d) / m;
    assert(x + d == (q + q2) * m + r) by (nonlinear_arith)
        requires
            x == m * q + x % m,
            x % m + d == m * q2 + r,
    ;
    vstd::arithmetic::div_mod::lemma_mod_bound(x % m + d, m);
    lemma_fundamental_div_mod_converse_mod(x + d, m, q + q2, r);
}

/// Adding the modulus does not change the remainder.
pub proof fn lemma_mod_add_period(x: int, m: int)
    requires
        m > 0,
    ensures
        (x + m) % m == x % m,
{
    vstd::arithmetic::div_mod::lemma_fundamental_div_mod(x, m);
    vstd::arithmetic::div_mod::lemma_mod_bound(x, m);
    let q = x / m;
    assert(x + m == (q + 1) * m + x % m) by (nonlinear_arith)
        requires
            x == m * q + x % m,
    ;
    lemma_fundamental_div_mod_converse_mod(x + m, m, q + 1, x % m);
}

/// When `perm_len` can compute the count, the count fits in a `usize`.
pub proof fn lemma_perm_count_fits(w: bool, n: int, k: int)
    requires
        perm_len_fits(w, n, k),
        n >= 0,
        k >= 0,
    ensures
        perm_count(w, n as nat, k as nat) <= usize::MAX,
{
    if k == 0 {
        assert(power(n, 0) == 1);
        assert(falling(n, 0) == 1);
    }
}

/// The arrangement whose rank is `idx` is the arrangement with index `idx`.
pub proof fn lemma_perm_at_unique(w: bool, n: int, k: nat, idx: int, c: Seq<usize>)
    requires
        0 <= n <= usize::MAX,
        0 <= idx < perm_count(w, n as nat, k),
        perm_valid(w, n, k, c),
        perm_rank(w, n, c) == idx,
    ensures
        c == perm_at(w, n, k, idx),
{
    lemma_perm_at(w, n, k, idx);
    lemma_perm_rank_injective(w, n, k, c, perm_at(w, n, k, idx));
}

} // verus!
