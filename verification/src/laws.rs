//! What holds of the enumerations as a whole: each one lists every
//! combination (or arrangement) exactly once, in lexicographic order, and
//! stepping back undoes stepping forward.
use vstd::prelude::*;
use crate::counting::{binomial, falling, power};
use crate::sequences::{lex_less, lemma_lex_total};
use crate::comb_model::{
    comb_len_fits, comb_count, comb_valid, comb_rank, comb_at, lemma_comb_rank_bound, lemma_comb_rank_lex,
    lemma_comb_rank_injective, lemma_comb_unrank,
};
use crate::perm_model::{
    perm_len_fits, perm_count, perm_valid, perm_rank, perm_at, lemma_perm_rank_bound, lemma_perm_rank_lex,
    lemma_perm_rank_injective, lemma_perm_at, lemma_mod_add_period,
};

verus! {

/// Without replacement there are `C(n, k)` combinations; with replacement
/// `C(n + k - 1, k)` (one, when `k` is zero).
pub proof fn law_comb_count(w: bool, n: nat, k: nat)
    ensures
        !w ==> comb_count(w, n, k) == binomial(n, k),
        w && k > 0 ==> comb_count(w, n, k) == binomial((n + k - 1) as nat, k),
        w && k == 0 ==> comb_count(w, n, k) == 1,
{
}

/// Without replacement there are `n * (n - 1) * ... * (n - k + 1)`
/// arrangements; with replacement `n^k`.
pub proof fn law_perm_count(w: bool, n: nat, k: nat)
    ensures
        !w ==> perm_count(w, n, k) == falling(n as int, k),
        w ==> perm_count(w, n, k) == power(n as int, k),
{
}

/// Every combination has an index within the enumeration.
pub proof fn law_comb_rank_in_range(w: bool, n: int, k: nat, c: Seq<usize>)
    requires
        n >= 0,
        comb_valid(w, n, k, c),
    ensures
        0 <= comb_rank(w, n, c) < comb_count(w, n as nat, k),
{
    lemma_comb_rank_bound(w, n, 0, c);
}

/// Every index within the enumeration names a combination, which has that
/// index.
pub proof fn law_comb_at(w: bool, n: int, k: nat, idx: int)
    requires
        0 <= n <= usize::MAX,
        0 <= idx < comb_count(w, n as nat, k),
    ensures
        comb_valid(w, n, k, comb_at(w, n, k, idx)),
        comb_rank(w, n, comb_at(w, n, k, idx)) == idx,
{
    lemma_comb_unrank(w, n, k, 0, idx);
}

/// Every combination is listed, at the index given by its rank.
pub proof fn law_every_comb_listed(w: bool, n: int, k: nat, c: Seq<usize>)
    requires
        0 <= n <= usize::MAX,
        comb_valid(w, n, k, c),
    ensures
        0 <= comb_rank(w, n, c) < comb_count(w, n as nat, k),
        comb_at(w, n, k, comb_rank(w, n, c)) == c,
{
    lemma_comb_rank_bound(w, n, 0, c);
    lemma_comb_unrank(w, n, k, 0, comb_rank(w, n, c));
    lemma_comb_rank_injective(w, n, k, c, comb_at(w, n, k, comb_rank(w, n, c)));
}

/// No combination is listed twice: different combinations have different
/// indices.
pub proof fn law_comb_rank_injective(w: bool, n: int, k: nat, a: Seq<usize>, b: Seq<usize>)
    requires
        n >= 0,
        comb_valid(w, n, k, a),
        comb_valid(w, n, k, b),
        comb_rank(w, n, a) == comb_rank(w, n, b),
    ensures
        a == b,
{
    lemma_comb_rank_injective(w, n, k, a, b);
}

/// Combinations are listed in lexicographic order of their positions.
pub proof fn law_comb_rank_orders_lex(w: bool, n: int, k: nat, a: Seq<usize>, b: Seq<usize>)
    requires
        n >= 0,
        comb_valid(w, n, k, a),
        comb_valid(w, n, k, b),
    ensures
        lex_less(a, b) <==> comb_rank(w, n, a) < comb_rank(w, n, b),
{
    if lex_less(a, b) {
        lemma_comb_rank_lex(w, n, 0, a, b);
    } else if comb_rank(w, n, a) < comb_rank(w, n, b) {
        if a == b {
        } else {
            lemma_lex_total(a, b);
            lemma_comb_rank_lex(w, n, 0, b, a);
        }
    }
}

/// The combination at a smaller index comes first in lexicographic order.
pub proof fn law_comb_at_increasing(w: bool, n: int, k: nat, i: int, j: int)
    requires
        0 <= n <= usize::MAX,
        0 <= i < j < comb_count(w, n as nat, k),
    ensures
        lex_less(comb_at(w, n, k, i), comb_at(w, n, k, j)),
{
    law_comb_at(w, n, k, i);
    law_comb_at(w, n, k, j);
    law_comb_rank_orders_lex(w, n, k, comb_at(w, n, k, i), comb_at(w, n, k, j));
}

/// Stepping back from the successor of a combination returns to it.
pub proof fn law_comb_step_back_restores(
    w: bool,
    n: int,
    k: nat,
    a: Seq<usize>,
    b: Seq<usize>,
    c: Seq<usize>,
)
    requires
        n >= 0,
        comb_valid(w, n, k, a),
        comb_valid(w, n, k, b),
        comb_valid(w, n, k, c),
        comb_rank(w, n, b) == comb_rank(w, n, a) + 1,
        comb_rank(w, n, c) + 1 == comb_rank(w, n, b),
    ensures
        c == a,
{
    lemma_comb_rank_injective(w, n, k, a, c);
}

/// Every arrangement has an index within the enumeration.
pub proof fn law_perm_rank_in_range(w: bool, n: int, k: nat, c: Seq<usize>)
    requires
        0 <= n <= usize::MAX,
        perm_valid(w, n, k, c),
    ensures
        0 <= perm_rank(w, n, c) < perm_count(w, n as nat, k),
{
    lemma_perm_rank_bound(w, n, c, 0);
}

/// Every index within the enumeration names an arrangement, which has that
/// index.
pub proof fn law_perm_at(w: bool, n: int, k: nat, idx: int)
    requires
        0 <= n <= usize::MAX,
        0 <= idx < perm_count(w, n as nat, k),
    ensures
        perm_valid(w, n, k, perm_at(w, n, k, idx)),
        perm_rank(w, n, perm_at(w, n, k, idx)) == idx,
{
    lemma_perm_at(w, n, k, idx);
}

/// Every arrangement is listed, at the index given by its rank.
pub proof fn law_every_perm_listed(w: bool, n: int, k: nat, c: Seq<usize>)
    requires
        0 <= n <= usize::MAX,
        perm_valid(w, n, k, c),
    ensures
        0 <= perm_rank(w, n, c) < perm_count(w, n as nat, k),
        perm_at(w, n, k, perm_rank(w, n, c)) == c,
{
    lemma_perm_rank_bound(w, n, c, 0);
    assert(crate::perm_model::perm_tail(w, n, k as int, 0) == perm_count(w, n as nat, k));
    lemma_perm_at(w, n, k, perm_rank(w, n, c));
    lemma_perm_rank_injective(w, n, k, c, perm_at(w, n, k, perm_rank(w, n, c)));
}

/// No arrangement is listed twice: different arrangements have different
/// indices.
pub proof fn law_perm_rank_injective(w: bool, n: int, k: nat, a: Seq<usize>, b: Seq<usize>)
    requires
        0 <= n <= usize::MAX,
        perm_valid(w, n, k, a),
        perm_valid(w, n, k, b),
        perm_rank(w, n, a) == perm_rank(w, n, b),
    ensures
        a == b,
{
    lemma_perm_rank_injective(w, n, k, a, b);
}

/// Arrangements are listed in lexicographic order of their positions.
pub proof fn law_perm_rank_orders_lex(w: bool, n: int, k: nat, a: Seq<usize>, b: Seq<usize>)
    requires
        0 <= n <= usize::MAX,
        perm_valid(w, n, k, a),
        perm_valid(w, n, k, b),
    ensures
        lex_less(a, b) <==> perm_rank(w, n, a) < perm_rank(w, n, b),
{
    if lex_less(a, b) {
        lemma_perm_rank_lex(w, n, a, b);
    } else if perm_rank(w, n, a) < perm_rank(w, n, b) {
        if a == b {
        } else {
            lemma_lex_total(a, b);
            lemma_perm_rank_lex(w, n, b, a);
        }
    }
}

/// The arrangement at a smaller index comes first in lexicographic order.
pub proof fn law_perm_at_increasing(w: bool, n: int, k: nat, i: int, j: int)
    requires
        0 <= n <= usize::MAX,
        0 <= i < j < perm_count(w, n as nat, k),
    ensures
        lex_less(perm_at(w, n, k, i), perm_at(w, n, k, j)),
{
    law_perm_at(w, n, k, i);
    law_perm_at(w, n, k, j);
    law_perm_rank_orders_lex(w, n, k, perm_at(w, n, k, i), perm_at(w, n, k, j));
}

/// Stepping back (cyclically) from the successor (cyclically) of an
/// arrangement returns to it.
pub proof fn law_perm_step_back_restores(
    w: bool,
    n: int,
    k: nat,
    a: Seq<usize>,
    b: Seq<usize>,
    c: Seq<usize>,
)
    requires
        0 <= n <= usize::MAX,
        perm_valid(w, n, k, a),
        perm_valid(w, n, k, b),
        perm_valid(w, n, k, c),
        perm_rank(w, n, b) == (perm_rank(w, n, a) + 1) % perm_count(w, n as nat, k),
        perm_rank(w, n, c) == (perm_rank(w, n, b) - 1 + perm_count(w, n as nat, k)) % perm_count(
            w,
            n as nat,
            k,
        ),
    ensures
        c == a,
{
    let t = perm_count(w, n as nat, k);
    let r = perm_rank(w, n, a);
    lemma_perm_rank_bound(w, n, a, 0);
    assert(crate::perm_model::perm_tail(w, n, k as int, 0) == t);
    if r + 1 < t {
        vstd::arithmetic::div_mod::lemma_small_mod((r + 1) as nat, t as nat);
        lemma_mod_add_period(r, t);
        vstd::arithmetic::div_mod::lemma_small_mod(r as nat, t as nat);
    } else {
        vstd::arithmetic::div_mod::lemma_mod_self_0(t);
        vstd::arithmetic::div_mod::lemma_small_mod((t - 1) as nat, t as nat);
    }
    lemma_perm_rank_injective(w, n, k, a, c);
}

/// The combinations can be counted exactly when the falling factorial that
/// the count is built from fits in a `usize`: `n (n - 1) ... (n - k + 1)`
/// without replacement (and `k <= n`), `(n + k - 1) ... n` with replacement
/// (and `n >= 1`); a length of zero can always be counted.
pub proof fn law_comb_computable_exactly(w: bool, n: int, k: int)
    requires
        n >= 0,
        k >= 0,
    ensures
        k == 0 ==> comb_len_fits(w, n, k),
        !w && n >= k && falling(n, k as nat) <= usize::MAX ==> comb_len_fits(w, n, k),
        w && k > 0 && n >= 1 && falling(n + k - 1, k as nat) <= usize::MAX ==> comb_len_fits(
            w,
            n,
            k,
        ),
        !w && k > 0 && comb_len_fits(w, n, k) ==> n >= k && falling(n, k as nat) <= usize::MAX,
        w && k > 0 && comb_len_fits(w, n, k) ==> n >= 1 && falling(n + k - 1, k as nat)
            <= usize::MAX,
        comb_len_fits(w, n, k) ==> comb_count(w, n as nat, k as nat) <= usize::MAX,
{
    if comb_len_fits(w, n, k) {
        crate::comb_model::lemma_comb_count_fits(w, n, k);
    }
}

/// The arrangements can be counted exactly when their number fits in a
/// `usize` (and, without replacement, `k <= n`): `n^k` with replacement,
/// `n (n - 1) ... (n - k + 1)` without.
pub proof fn law_perm_computable_exactly(w: bool, n: int, k: int)
    requires
        n >= 0,
        k >= 0,
    ensures
        w ==> (perm_len_fits(w, n, k) <==> power(n, k as nat) <= usize::MAX),
        !w ==> (perm_len_fits(w, n, k) <==> n >= k && falling(n, k as nat) <= usize::MAX),
        w ==> (perm_len_fits(w, n, k) <==> perm_count(w, n as nat, k as nat) <= usize::MAX),
        !w ==> (perm_len_fits(w, n, k) <==> n >= k && perm_count(w, n as nat, k as nat)
            <= usize::MAX),
{
}

} // verus!
