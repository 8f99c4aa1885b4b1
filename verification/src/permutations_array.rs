//! Arrangements (permutations of a chosen length) of a slice, enumerated in
//! lexicographic order of the chosen positions.
use vstd::prelude::*;
use crate::counting::{
    falling, power, lemma_falling_grows_in_k, lemma_falling_grows_in_m, lemma_power_grows,
    lemma_power_nonneg,
};
use crate::perm_model::{
    perm_count, perm_len_fits, perm_valid, perm_rank, perm_tail, perm_pool, index_digit,
    nth_free_from, perm_build, free_below, lemma_perm_tail_step,
    lemma_perm_tail_positive, lemma_index_digit_bound, lemma_perm_build, lemma_perm_rank_digits,
    lemma_free_below_prefix, lemma_nth_free, lemma_falling_zero_above, occurrences, tracks_usage,
    lemma_occurrences_absent, lemma_occurrences_positions, perm_at, perm_rank_from,
    lemma_occurrences_update, lemma_occurrences_distinct, lemma_occurrences_bound,
    lemma_odometer_suffix_update, lemma_perm_at, lemma_perm_rank_bound, lemma_perm_rank_injective,
    lemma_next_gap, lemma_prev_gap, lemma_mod_distance_next, lemma_mod_distance_prev,
    lemma_mod_step, lemma_mod_add_period, lemma_mod_shift,
    lemma_perm_at_unique, lemma_perm_count_fits,
};
use crate::sequences::{select, pick};
use vstd::arithmetic::div_mod::{lemma_mod_mod, lemma_fundamental_div_mod, lemma_mod_pos_bound};

verus! {

/// How many arrangements of length `length` can be drawn from
/// `num_elements` elements.
pub fn perm_len<const WITH_REPLACEMENT: bool>(num_elements: usize, length: usize) -> (r: usize)
    requires
        perm_len_fits(WITH_REPLACEMENT, num_elements as int, length as int),
    ensures
        r == perm_count(WITH_REPLACEMENT, num_elements as nat, length as nat),
{
    if length == 0 {
        return 1;
    }
    let ghost n = num_elements as int;
    let ghost k = length as int;
    let mut num_elements: usize = num_elements;
    let mut remaining: usize = length;
    let mut size: usize = num_elements;
    proof {
        assert(power(n, 0) == 1);
        assert(power(n, 1) == n);
        assert(falling(n, 0) == 1);
        assert(falling(n, 1) == n);
    }
    if !WITH_REPLACEMENT {
        num_elements -= 1;
    }
    remaining -= 1;
    while remaining > 0
        invariant
            1 <= k,
            perm_len_fits(WITH_REPLACEMENT, n, k),
            remaining < k,
            size == perm_count(WITH_REPLACEMENT, n as nat, (k - remaining) as nat),
            num_elements == if WITH_REPLACEMENT {
                n
            } else {
                n - (k - remaining)
            },
        decreases remaining,
    {
        let ghost j: nat = (k - remaining) as nat;
        proof {
            if WITH_REPLACEMENT {
                if n >= 1 {
                    lemma_power_grows(n, j + 1, k as nat);
                } else {
                    lemma_power_nonneg(n, j);
                    assert(power(n, j + 1) == power(n, j) * n);
                    assert(power(n, j) * 0 == 0) by (nonlinear_arith);
                }
                assert(power(n, j + 1) == power(n, j) * n);
            } else {
                lemma_falling_grows_in_k(n, j + 1, k as nat);
                crate::counting::lemma_falling_nonneg(n, j + 1);
                assert(falling(n, j + 1) == falling(n, j) * (n - j));
            }
        }
        size *= num_elements;
        remaining -= 1;
        if !WITH_REPLACEMENT {
            num_elements -= 1;
        }
    }
    size
}

/// Whether `perm_len` can count the arrangements of length `length` from
/// `num_elements` elements without overflowing.
pub fn perm_len_computable<const WITH_REPLACEMENT: bool>(num_elements: usize, length: usize) -> (r:
    bool)
    ensures
        r == perm_len_fits(WITH_REPLACEMENT, num_elements as int, length as int),
        WITH_REPLACEMENT ==> (r <==> power(num_elements as int, length as nat) <= usize::MAX),
        !WITH_REPLACEMENT ==> (r <==> num_elements >= length && falling(
            num_elements as int,
            length as nat,
        ) <= usize::MAX),
{
    if length == 0 {
        return true;
    }
    if !WITH_REPLACEMENT && num_elements < length {
        return false;
    }
    let ghost n = num_elements as int;
    if WITH_REPLACEMENT && num_elements == 0 {
        proof {
            crate::counting::lemma_power_head(0, length as nat);
            assert(0 * power(0, (length - 1) as nat) == 0) by (nonlinear_arith);
        }
        return true;
    }
    let mut size: usize = 1;
    let mut j: usize = 0;
    proof {
        assert(power(n, 0) == 1);
        assert(falling(n, 0) == 1);
    }
    while j < length
        invariant
            n == num_elements,
            WITH_REPLACEMENT ==> n >= 1,
            !WITH_REPLACEMENT ==> length <= n,
            j <= length,
            size == perm_count(WITH_REPLACEMENT, n as nat, j as nat),
        decreases length - j,
    {
        let factor = if WITH_REPLACEMENT {
            num_elements
        } else {
            num_elements - j
        };
        match size.checked_mul(factor) {
            Some(v) => {
                size = v;
            },
            None => {
                proof {
                    if WITH_REPLACEMENT {
                        lemma_power_grows(n, (j + 1) as nat, length as nat);
                    } else {
                        lemma_falling_grows_in_k(n, (j + 1) as nat, length as nat);
                    }
                }
                return false;
            },
        }
        j += 1;
    }
    true
}

/// `len` zeros.
fn zeros(len: usize) -> (v: Vec<usize>)
    ensures
        v@ == Seq::new(len as nat, |i: int| 0usize),
{
    let mut v: Vec<usize> = Vec::new();
    let mut i: usize = 0;
    while i < len
        invariant
            i <= len,
            v@ == Seq::new(i as nat, |j: int| 0usize),
        decreases len - i,
    {
        v.push(0);
        i += 1;
    }
    v
}

/// An element occurs in `c` exactly when it is counted there.
proof fn lemma_occurs_iff_contains(c: Seq<usize>, x: usize)
    ensures
        occurrences(c, x) == 0 <==> !c.contains(x),
{
    if c.contains(x) {
        let j = choose|j: int| 0 <= j < c.len() && c[j] == x;
        lemma_occurrences_positions(c, j, j);
    } else {
        lemma_occurrences_absent(c, x);
    }
}

/// A cursor over the arrangements of `LEN` positions out of `num_elements`,
/// standing at the arrangement with a given index.
pub struct ParallelPermutationArrayState<const LEN: usize, const WITH_REPLACEMENT: bool> {
    state: [usize; LEN],
    used: Vec<usize>,
    index: usize,
    num_elements: usize,
}

impl<const LEN: usize, const WITH_REPLACEMENT: bool> ParallelPermutationArrayState<
    LEN,
    WITH_REPLACEMENT,
> {
    /// The positions of the arrangement the cursor stands at.
    pub closed spec fn positions(&self) -> Seq<usize> {
        self.state@
    }

    /// The index of the cursor in the enumeration.
    pub closed spec fn position_index(&self) -> int {
        self.index as int
    }

    /// How many elements the arrangements are drawn from.
    pub closed spec fn pool_size(&self) -> int {
        self.num_elements as int
    }

    /// The cursor's record of how often each element is used.
    pub closed spec fn usage_record(&self) -> Seq<usize> {
        self.used@
    }

    /// Without replacement, the usage record counts, for each element, its
    /// occurrences among the positions; with replacement it is empty.
    pub open spec fn usage_tracked(&self) -> bool {
        if WITH_REPLACEMENT {
            self.usage_record().len() == 0
        } else {
            tracks_usage(self.usage_record(), self.positions(), self.pool_size())
        }
    }

    /// Without replacement the usage record is all zeros; with replacement
    /// it is empty.
    pub open spec fn usage_cleared(&self) -> bool {
        if WITH_REPLACEMENT {
            self.usage_record().len() == 0
        } else {
            self.usage_record() == Seq::new(self.pool_size() as nat, |i: int| 0usize)
        }
    }

    /// Number of arrangements in the enumeration.
    pub open spec fn total(&self) -> int {
        perm_count(WITH_REPLACEMENT, self.pool_size() as nat, LEN as nat)
    }

    /// The cursor holds an arrangement and its usage record is right.
    pub open spec fn holds_arrangement(&self) -> bool {
        &&& perm_valid(WITH_REPLACEMENT, self.pool_size(), LEN as nat, self.positions())
        &&& self.usage_tracked()
    }

    /// Within the enumeration the cursor holds the arrangement with its
    /// index; at the end it holds the first arrangement, where stepping past
    /// the last one wraps around, or all zeros when there is no arrangement.
    pub open spec fn wf(&self) -> bool {
        &&& self.positions().len() == LEN
        &&& perm_len_fits(WITH_REPLACEMENT, self.pool_size(), LEN as int)
        &&& 0 <= self.pool_size() <= usize::MAX
        &&& 0 <= self.position_index() <= self.total()
        &&& self.position_index() < self.total() ==> {
            &&& self.holds_arrangement()
            &&& perm_rank(WITH_REPLACEMENT, self.pool_size(), self.positions())
                == self.position_index()
        }
        &&& self.position_index() == self.total() ==> {
            ||| self.holds_arrangement() && perm_rank(
                WITH_REPLACEMENT,
                self.pool_size(),
                self.positions(),
            ) == 0
            ||| self.total() == 0 && self.positions() == Seq::new(LEN as nat, |i: int| 0usize)
                && self.usage_cleared()
        }
    }

    /// The positions of the current arrangement.
    pub fn state(&self) -> (r: [usize; LEN])
        ensures
            r@ == self.positions(),
    {
        self.state
    }

    /// The index of the cursor.
    pub fn index(&self) -> (r: usize)
        ensures
            r == self.position_index(),
    {
        self.index
    }

    /// The elements at the current positions.
    pub fn get_perm<T: Copy>(&self, elements: &[T]) -> (r: [T; LEN])
        requires
            forall|i: int| 0 <= i < self.positions().len() ==> #[trigger] self.positions()[i] < elements@.len(),
        ensures
            r@ == select(elements@, self.positions()),
    {
        assert forall|i: int| 0 <= i < self.state@.len() implies #[trigger] self.state@[i]
            < elements@.len() by {
            assert(self.positions()[i] == self.state@[i]);
        }
        pick(elements, &self.state)
    }

    /// A cursor at `index`: the arrangement with that index; at the end of
    /// the enumeration, the first arrangement, where stepping past the last
    /// one wraps around to (all positions zero when there is none).
    pub fn with_index(num_elements: usize, index: usize) -> (s: Self)
        requires
            perm_len_fits(WITH_REPLACEMENT, num_elements as int, LEN as int),
            index <= perm_count(WITH_REPLACEMENT, num_elements as nat, LEN as nat),
        ensures
            s.wf(),
            s.position_index() == index,
            s.pool_size() == num_elements,
            index < s.total() ==> s.positions() == perm_at(
                WITH_REPLACEMENT,
                num_elements as int,
                LEN as nat,
                index as int,
            ),
            index == s.total() && s.total() > 0 ==> s.positions() == perm_at(
                WITH_REPLACEMENT,
                num_elements as int,
                LEN as nat,
                0,
            ),
            index == s.total() && s.total() == 0 ==> s.positions() == Seq::new(
                LEN as nat,
                |i: int| 0usize,
            ),
            s.holds_arrangement() <==> s.total() > 0,
    {
        let ghost w = WITH_REPLACEMENT;
        let ghost n = num_elements as int;
        let ghost k = LEN as int;
        let total = perm_len::<WITH_REPLACEMENT>(num_elements, LEN);
        let mut state = [0usize; LEN];
        assert(state@ =~= Seq::new(LEN as nat, |i: int| 0usize));
        let mut used: Vec<usize> = if !WITH_REPLACEMENT {
            zeros(num_elements)
        } else {
            Vec::new()
        };
        let start: usize = if index < total {
            index
        } else {
            0
        };
        if start < total {
            proof {
                if w && k > 0 && n == 0 {
                    crate::counting::lemma_power_head(0, LEN as nat);
                    assert(0 * power(0, (LEN - 1) as nat) == 0) by (nonlinear_arith);
                }
                if !w && n < k {
                    lemma_falling_zero_above(n, LEN as nat);
                }
                assert(perm_count(w, n as nat, LEN as nat) == perm_tail(w, n, k, 0));
                lemma_mod_pos_bound(start as int, perm_tail(w, n, k, 0));
                if k > 0 {
                    crate::perm_model::lemma_perm_tail_positive(w, n, k, 0);
                } else {
                    assert(perm_tail(w, n, k, 0) == 1);
                }
                vstd::arithmetic::div_mod::lemma_small_mod(
                    start as nat,
                    perm_tail(w, n, k, 0) as nat,
                );
            }
            let mut counter: Vec<usize> = Vec::new();
            let mut perm_index: usize = start;
            let mut i: usize = 0;
            while i < LEN
                invariant
                    w == WITH_REPLACEMENT,
                    n == num_elements,
                    k == LEN,
                    perm_len_fits(w, n, k),
                    if w {
                        n >= 1 || k == 0
                    } else {
                        n >= k
                    },
                    i <= LEN,
                    counter.len() == i,
                    forall|t: int| 0 <= t < i ==> #[trigger] counter@[t] == index_digit(w, n, k, start as int, t),
                    perm_index == (start as int) % perm_tail(w, n, k, i as int),
                decreases LEN - i,
            {
                let ghost q = perm_tail(w, n, k, i + 1);
                let ghost r = perm_index as int;
                proof {
                    lemma_perm_tail_positive(w, n, k, i + 1);
                    lemma_perm_tail_positive(w, n, k, i as int);
                    lemma_perm_tail_step(w, n, k, i as int);
                    if w {
                        lemma_power_grows(n, (k - i - 1) as nat, k as nat);
                        assert(perm_tail(w, n, k, i + 1) == power(n, (k - i - 1) as nat));
                    } else {
                        lemma_falling_grows_in_m(n - i - 1, n, (k - i - 1) as nat);
                        lemma_falling_grows_in_k(n, (k - i - 1) as nat, k as nat);
                        assert(perm_tail(w, n, k, i + 1) == falling(n - i - 1, (k - i - 1) as nat));
                    }
                }
                let n_i = if WITH_REPLACEMENT {
                    num_elements
                } else {
                    num_elements - i - 1
                };
                let divisor = perm_len::<WITH_REPLACEMENT>(n_i, LEN - i - 1);
                assert(divisor == q);
                let c = perm_index / divisor;
                proof {
                    lemma_fundamental_div_mod(r, q);
                    assert(q * (r / q) == (r / q) * q) by (nonlinear_arith);
                    lemma_mod_pos_bound(r, q);
                    let pl = perm_pool(w, n, i as int);
                    assert(perm_tail(w, n, k, i as int) == q * pl) by (nonlinear_arith)
                        requires
                            perm_tail(w, n, k, i as int) == pl * q,
                    ;
                    assert(pl >= 1) by {
                        if pl < 1 {
                            assert(q * pl <= 0) by (nonlinear_arith)
                                requires
                                    pl < 1,
                                    q >= 1,
                            ;
                        }
                    }
                    lemma_mod_mod(start as int, q, pl);
                }
                perm_index -= c * divisor;
                counter.push(c);
                i += 1;
            }
            let mut i: usize = 0;
            while i < LEN
                invariant
                    w == WITH_REPLACEMENT,
                    n == num_elements,
                    k == LEN,
                    n <= usize::MAX,
                    if w {
                        n >= 1 || k == 0
                    } else {
                        n >= k
                    },
                    i <= LEN,
                    counter.len() == LEN,
                    forall|t: int| 0 <= t < LEN ==> #[trigger] counter@[t] == index_digit(w, n, k, start as int, t),
                    state@.len() == LEN,
                    state@.take(i as int) == perm_build(w, n, k, start as int, i as nat),
                    !w ==> tracks_usage(used@, state@.take(i as int), n),
                    w ==> used@.len() == 0,
                decreases LEN - i,
            {
                let c = counter[i];
                let ghost p = state@.take(i as int);
                let ghost target = if w {
                    c as int
                } else {
                    nth_free_from(p, c as int, 0, n)
                };
                proof {
                    lemma_index_digit_bound(w, n, k, start as int, i as int);
                    lemma_perm_build(w, n, k, start as int, i as nat);
                    if !w {
                        assert(p.take(p.len() as int) =~= p);
                        lemma_free_below_prefix(n, p, p.len() as int);
                        lemma_nth_free(p, c as int, 0, n);
                    }
                }
                let mut x: usize = 0;
                let mut seen: usize = 0;
                loop
                    invariant
                        w == WITH_REPLACEMENT,
                        n == num_elements,
                        p == state@.take(i as int),
                        !w ==> tracks_usage(used@, p, n),
                        x <= target < n,
                        seen <= c,
                        w ==> seen == x,
                        !w ==> seen == free_below(p, x as int),
                        !w ==> nth_free_from(p, c as int, x as int, n) == target,
                        !w ==> !p.contains(target as usize),
                        !w ==> free_below(p, target) == c,
                        w ==> target == c,
                    ensures
                        x == target,
                    decreases target - x,
                {
                    let free = if WITH_REPLACEMENT {
                        true
                    } else {
                        proof {
                            lemma_occurs_iff_contains(p, x);
                        }
                        used[x] == 0
                    };
                    assert(!w ==> (free <==> !p.contains(x)));
                    if free {
                        if seen == c {
                            break ;
                        }
                        seen += 1;
                    }
                    assert(x != target);
                    assert(!w ==> nth_free_from(p, c as int, x as int + 1, n) == target);
                    assert(!w ==> free_below(p, x as int + 1) == free_below(p, x as int) + (
                    if p.contains(x) {
                        0int
                    } else {
                        1int
                    }));
                    x += 1;
                }
                proof {
                    assert(p.push(x) == perm_build(w, n, k, start as int, (i + 1) as nat));
                }
                if !WITH_REPLACEMENT {
                    proof {
                        lemma_occurs_iff_contains(p, x);
                    }
                    used.set(x, 1);
                }
                let ghost before = state@;
                state[i] = x;
                proof {
                    assert(state@.take(i + 1) =~= p.push(x)) by {
                        assert(before.take(i as int) == p);
                    }
                    if !w {
                        let q = p.push(x);
                        assert(q.drop_last() =~= p);
                        assert forall|y: int| 0 <= y < n implies #[trigger] used@[y] == occurrences(
                            q,
                            y as usize,
                        ) by {
                            assert(occurrences(q, y as usize) == occurrences(p, y as usize) + (
                            if x == y as usize {
                                1nat
                            } else {
                                0nat
                            }));
                        }
                    }
                }
                i += 1;
            }
            proof {
                assert(state@.take(LEN as int) =~= state@);
                if k > 0 {
                    lemma_perm_build(w, n, k, start as int, LEN as nat);
                    lemma_perm_rank_digits(w, n, k, start as int, state@, 0);
                } else {
                    assert(state@ =~= Seq::<usize>::empty());
                }
            }
        } else {
            proof {
                if perm_valid(w, n, LEN as nat, state@) {
                    lemma_perm_rank_bound(w, n, state@, 0);
                }
            }
        }
        ParallelPermutationArrayState { state, used, index, num_elements }
    }

    /// Replaces position `pos` by `v`, keeping the usage record right.
    fn set_position(&mut self, pos: usize, v: usize)
        requires
            pos < LEN,
            v < old(self).num_elements,
            !WITH_REPLACEMENT ==> tracks_usage(
                old(self).used@,
                old(self).state@,
                old(self).num_elements as int,
            ),
            forall|t: int| 0 <= t < old(self).state@.len() ==> #[trigger] old(self).state@[t] < old(self).num_elements,
        ensures
            final(self).state@ == old(self).state@.update(pos as int, v),
            final(self).num_elements == old(self).num_elements,
            final(self).index == old(self).index,
            !WITH_REPLACEMENT ==> tracks_usage(
                final(self).used@,
                final(self).state@,
                final(self).num_elements as int,
            ),
            WITH_REPLACEMENT ==> final(self).used@ == old(self).used@,
    {
        let ghost c = self.state@;
        let ghost n = self.num_elements as int;
        let e = self.state[pos];
        if !WITH_REPLACEMENT {
            proof {
                lemma_occurrences_positions(c, pos as int, pos as int);
                assert(self.used@[e as int] == occurrences(c, e));
            }
            let u = self.used[e];
            self.used.set(e, u - 1);
        }
        self.state[pos] = v;
        if !WITH_REPLACEMENT {
            proof {
                lemma_occurrences_update(c, pos as int, v, v);
                lemma_occurrences_bound(self.state@, v);
                if e != v {
                    assert(self.used@[v as int] == occurrences(c, v));
                }
            }
            let u = self.used[v];
            self.used.set(v, u + 1);
            proof {
                assert forall|x: int| 0 <= x < n implies #[trigger] self.used@[x] == occurrences(
                    self.state@,
                    x as usize,
                ) by {
                    lemma_occurrences_update(c, pos as int, v, x as usize);
                }
            }
        }
    }

    /// Whether the positions hold no repeated element (always, with
    /// replacement).
    fn no_repeats(&self) -> (r: bool)
        requires
            self.state@.len() == LEN,
            !WITH_REPLACEMENT ==> tracks_usage(self.used@, self.state@, self.num_elements as int),
            forall|t: int| 0 <= t < self.state@.len() ==> #[trigger] self.state@[t] < self.num_elements,
        ensures
            r == perm_valid(WITH_REPLACEMENT, self.num_elements as int, LEN as nat, self.state@),
    {
        if WITH_REPLACEMENT {
            return true;
        }
        let ghost c = self.state@;
        let mut valid = true;
        let mut t: usize = 0;
        while t < LEN
            invariant
                !WITH_REPLACEMENT,
                c == self.state@,
                self.state@.len() == LEN,
                tracks_usage(self.used@, self.state@, self.num_elements as int),
                forall|u: int| 0 <= u < self.state@.len() ==> #[trigger] self.state@[u] < self.num_elements,
                t <= LEN,
                valid <==> forall|u: int| 0 <= u < t ==> occurrences(c, #[trigger] c[u]) <= 1,
            decreases LEN - t,
        {
            let e = self.state[t];
            assert(self.used@[e as int] == occurrences(c, e));
            if self.used[e] > 1 {
                valid = false;
            }
            t += 1;
        }
        proof {
            if valid {
                assert forall|a: int, b: int|
                    0 <= a < c.len() && 0 <= b < c.len() && a != b implies #[trigger] c[a]
                    != #[trigger] c[b] by {
                    if c[a] == c[b] {
                        lemma_occurrences_positions(c, a, b);
                    }
                }
            } else {
                if perm_valid(false, self.num_elements as int, LEN as nat, c) {
                    let u = choose|u: int| 0 <= u < LEN && occurrences(c, #[trigger] c[u]) > 1;
                    lemma_occurrences_distinct(c, u);
                }
            }
        }
        valid
    }

    /// Steps the positions, read as digits base `num_elements`, once
    /// forwards (`up`) or backwards, wrapping around at the ends.
    fn odometer_step(&mut self, up: bool)
        requires
            old(self).state@.len() == LEN,
            !WITH_REPLACEMENT ==> tracks_usage(
                old(self).used@,
                old(self).state@,
                old(self).num_elements as int,
            ),
            forall|t: int| 0 <= t < old(self).state@.len() ==> #[trigger] old(self).state@[t] < old(self).num_elements,
        ensures
            final(self).state@.len() == LEN,
            final(self).num_elements == old(self).num_elements,
            final(self).index == old(self).index,
            !WITH_REPLACEMENT ==> tracks_usage(
                final(self).used@,
                final(self).state@,
                final(self).num_elements as int,
            ),
            forall|t: int| 0 <= t < final(self).state@.len() ==> #[trigger] final(self).state@[t] < final(self).num_elements,
            WITH_REPLACEMENT ==> final(self).used@ == old(self).used@,
            perm_rank(true, final(self).num_elements as int, final(self).state@) == (perm_rank(
                true,
                old(self).num_elements as int,
                old(self).state@,
            ) + if up {
                1int
            } else {
                -1int
            }) % crate::counting::power(old(self).num_elements as int, LEN as nat),
    {
        let ghost c = self.state@;
        let ghost n = self.num_elements as int;
        let ghost k = LEN as int;
        let ghost d: int = if up {
            1
        } else {
            -1
        };
        let num_elements = self.num_elements;
        let mut remainder = true;
        let mut pos: usize = LEN;
        while pos > 0
            invariant
                pos <= LEN,
                k == LEN,
                d == if up {
                    1int
                } else {
                    -1int
                },
                n == num_elements,
                self.num_elements == num_elements,
                self.index == old(self).index,
                self.state@.len() == LEN,
                c == old(self).state@,
                forall|t: int| 0 <= t < pos ==> self.state@[t] == c[t],
                forall|t: int| 0 <= t < c.len() ==> #[trigger] c[t] < n,
                forall|t: int| 0 <= t < self.state@.len() ==> #[trigger] self.state@[t] < n,
                !WITH_REPLACEMENT ==> tracks_usage(self.used@, self.state@, n),
                WITH_REPLACEMENT ==> self.used@ == old(self).used@,
                perm_rank_from(true, n, k, self.state@, pos as int) + (if remainder {
                    d * perm_tail(true, n, k, pos as int)
                } else {
                    0
                }) == perm_rank_from(true, n, k, c, pos as int) + d,
            decreases pos,
        {
            pos -= 1;
            let ghost before = self.state@;
            let ghost t1 = perm_tail(true, n, k, pos + 1);
            proof {
                lemma_perm_tail_step(true, n, k, pos as int);
                assert(self.state@[pos as int] == c[pos as int]);
            }
            if remainder {
                let e = self.state[pos];
                let v: usize;
                if up {
                    if e + 1 == num_elements {
                        v = 0;
                    } else {
                        v = e + 1;
                        remainder = false;
                    }
                } else {
                    if e == 0 {
                        v = num_elements - 1;
                    } else {
                        v = e - 1;
                        remainder = false;
                    }
                }
                self.set_position(pos, v);
                proof {
                    lemma_odometer_suffix_update(n, k, before, pos as int, v, pos + 1);
                    let rs = perm_rank_from(true, n, k, before, pos + 1);
                    let rc = perm_rank_from(true, n, k, c, pos + 1);
                    let ei = e as int;
                    let vi = v as int;
                    assert(perm_rank_from(true, n, k, self.state@, pos as int) == vi * t1 + rs);
                    assert(perm_rank_from(true, n, k, c, pos as int) == ei * t1 + rc);
                    assert(perm_tail(true, n, k, pos as int) == n * t1);
                    assert(rs + d * t1 == rc + d);
                    if up {
                        if remainder {
                            assert(vi * t1 + rs + n * t1 == ei * t1 + rc + 1) by (nonlinear_arith)
                                requires
                                    vi == 0,
                                    ei + 1 == n,
                                    rs + t1 == rc + 1,
                            ;
                        } else {
                            assert(vi * t1 + rs == ei * t1 + rc + 1) by (nonlinear_arith)
                                requires
                                    vi == ei + 1,
                                    rs + t1 == rc + 1,
                            ;
                        }
                    } else {
                        if remainder {
                            assert(vi * t1 + rs - n * t1 == ei * t1 + rc - 1) by (nonlinear_arith)
                                requires
                                    vi == n - 1,
                                    ei == 0,
                                    rs - t1 == rc - 1,
                            ;
                        } else {
                            assert(vi * t1 + rs == ei * t1 + rc - 1) by (nonlinear_arith)
                                requires
                                    vi == ei - 1,
                                    rs - t1 == rc - 1,
                            ;
                        }
                    }
                }
            } else {
                proof {
                    let rs = perm_rank_from(true, n, k, before, pos + 1);
                    let rc = perm_rank_from(true, n, k, c, pos + 1);
                    assert(perm_rank_from(true, n, k, before, pos as int) == (before[pos as int] as int) * t1 + rs);
                    assert(perm_rank_from(true, n, k, c, pos as int) == (c[pos as int] as int) * t1 + rc);
                }
            }
        }
        proof {
            let vc = perm_rank(true, n, c);
            let vs = perm_rank(true, n, self.state@);
            let nn = perm_tail(true, n, k, 0);
            assert(perm_valid(true, n, LEN as nat, c));
            assert(perm_valid(true, n, LEN as nat, self.state@));
            lemma_perm_rank_bound(true, n, c, 0);
            lemma_perm_rank_bound(true, n, self.state@, 0);
            vstd::arithmetic::div_mod::lemma_small_mod(vc as nat, nn as nat);
            lemma_mod_step(vc, nn, vs, d, remainder);
        }
    }

    /// Moves the cursor to the next arrangement in lexicographic order; from
    /// the last one it wraps around to the first.
    pub fn advance(&mut self)
        requires
            old(self).wf(),
            old(self).holds_arrangement(),
            old(self).position_index() < usize::MAX,
        ensures
            old(self).position_index() < old(self).total() ==> final(self).wf(),
            final(self).holds_arrangement(),
            final(self).pool_size() == old(self).pool_size(),
            final(self).position_index() == old(self).position_index() + 1,
            perm_rank(WITH_REPLACEMENT, final(self).pool_size(), final(self).positions()) == (
            perm_rank(WITH_REPLACEMENT, old(self).pool_size(), old(self).positions()) + 1)
                % old(self).total(),
            final(self).positions() == perm_at(
                WITH_REPLACEMENT,
                final(self).pool_size(),
                LEN as nat,
                (perm_rank(WITH_REPLACEMENT, old(self).pool_size(), old(self).positions()) + 1)
                    % old(self).total(),
            ),
    {
        let ghost r0 = perm_rank(WITH_REPLACEMENT, self.pool_size(), self.positions());
        let ghost tt = self.total();
        proof {
            lemma_perm_rank_bound(WITH_REPLACEMENT, self.num_elements as int, self.state@, 0);
        }
        self.step(true);
        proof {
            lemma_mod_add_period(r0 + 1, tt);
            if r0 + 1 < tt {
                vstd::arithmetic::div_mod::lemma_small_mod((r0 + 1) as nat, tt as nat);
            } else {
                vstd::arithmetic::div_mod::lemma_mod_self_0(tt);
            }
            crate::perm_model::lemma_perm_count_fits(
                WITH_REPLACEMENT,
                self.num_elements as int,
                LEN as int,
            );
            lemma_perm_rank_bound(WITH_REPLACEMENT, self.num_elements as int, self.state@, 0);
            assert(crate::perm_model::perm_tail(WITH_REPLACEMENT, self.num_elements as int, LEN as int, 0) == tt);
            lemma_perm_at_unique(
                WITH_REPLACEMENT,
                self.num_elements as int,
                LEN as nat,
                (r0 + 1) % tt,
                self.state@,
            );
        }
        self.index += 1;
    }

    /// Moves the cursor to the previous arrangement in lexicographic order;
    /// from the first one it wraps around to the last.
    pub fn go_back(&mut self)
        requires
            old(self).wf(),
            old(self).position_index() >= 1,
        ensures
            final(self).wf(),
            final(self).holds_arrangement(),
            final(self).pool_size() == old(self).pool_size(),
            final(self).position_index() == old(self).position_index() - 1,
            perm_rank(WITH_REPLACEMENT, final(self).pool_size(), final(self).positions()) == (
            perm_rank(WITH_REPLACEMENT, old(self).pool_size(), old(self).positions()) - 1
                + old(self).total()) % old(self).total(),
            final(self).positions() == perm_at(
                WITH_REPLACEMENT,
                final(self).pool_size(),
                LEN as nat,
                final(self).position_index(),
            ),
    {
        let ghost r0 = perm_rank(WITH_REPLACEMENT, self.pool_size(), self.positions());
        let ghost tt = self.total();
        self.step(false);
        proof {
            if r0 >= 1 {
                lemma_mod_add_period(r0 - 1, tt);
                vstd::arithmetic::div_mod::lemma_small_mod((r0 - 1) as nat, tt as nat);
            } else {
                vstd::arithmetic::div_mod::lemma_small_mod((tt - 1) as nat, tt as nat);
            }
            lemma_perm_rank_bound(WITH_REPLACEMENT, self.num_elements as int, self.state@, 0);
            assert(crate::perm_model::perm_tail(WITH_REPLACEMENT, self.num_elements as int, LEN as int, 0) == tt);
            lemma_perm_at_unique(
                WITH_REPLACEMENT,
                self.num_elements as int,
                LEN as nat,
                (r0 - 1 + tt) % tt,
                self.state@,
            );
        }
        self.index -= 1;
    }

    /// Steps the odometer until the positions hold an arrangement again:
    /// the next one (`up`) or the previous one, cyclically.
    fn step(&mut self, up: bool)
        requires
            old(self).positions().len() == LEN,
            perm_len_fits(WITH_REPLACEMENT, old(self).pool_size(), LEN as int),
            0 <= old(self).pool_size() <= usize::MAX,
            old(self).holds_arrangement(),
        ensures
            final(self).holds_arrangement(),
            final(self).positions().len() == LEN,
            final(self).pool_size() == old(self).pool_size(),
            final(self).position_index() == old(self).position_index(),
            perm_rank(WITH_REPLACEMENT, final(self).pool_size(), final(self).positions()) == (
            perm_rank(WITH_REPLACEMENT, old(self).pool_size(), old(self).positions()) + (if up {
                1int
            } else {
                -1int
            }) + old(self).total()) % old(self).total(),
    {
        let ghost w = WITH_REPLACEMENT;
        let ghost n = self.num_elements as int;
        let ghost kk = LEN as nat;
        let ghost s0 = self.state@;
        let ghost tt = perm_count(w, n as nat, kk);
        let ghost nn = crate::counting::power(n, kk);
        let ghost r0 = perm_rank(w, n, s0);
        let ghost v0 = perm_rank(true, n, s0);
        let ghost d: int = if up {
            1
        } else {
            -1
        };
        let ghost rt = (r0 + d + tt) % tt;
        let ghost target = perm_at(w, n, kk, rt);
        proof {
            assert(perm_valid(true, n, kk, s0));
            lemma_perm_rank_bound(w, n, s0, 0);
            lemma_perm_rank_bound(true, n, s0, 0);
            assert(perm_tail(w, n, LEN as int, 0) == tt);
            assert(perm_tail(true, n, LEN as int, 0) == nn);
            vstd::arithmetic::div_mod::lemma_mod_pos_bound(r0 + d + tt, tt);
            lemma_perm_at(w, n, kk, rt);
            assert(perm_valid(true, n, kk, target));
            lemma_perm_rank_bound(true, n, target, 0);
        }
        let ghost vt = perm_rank(true, n, target);
        let ghost dist = if up {
            ((vt - v0 - 1) % nn) + 1
        } else {
            ((v0 - vt - 1) % nn) + 1
        };
        proof {
            if up {
                lemma_mod_distance_next(v0, vt, nn);
            } else {
                lemma_mod_distance_prev(v0, vt, nn);
            }
            if w {
                if up {
                    assert(rt == (v0 + 1) % nn) by {
                        crate::perm_model::lemma_mod_window_plus(v0, nn);
                    }
                } else {
                    assert(rt == (v0 - 1 + nn) % nn);
                }
            }
        }
        proof {
            vstd::arithmetic::div_mod::lemma_small_mod(v0 as nat, nn as nat);
            assert(v0 + d * 0 == v0);
            if up {
                lemma_mod_add_period(r0 + 1, tt);
            }
        }
        let mut valid = false;
        let ghost mut j: int = 0;
        while !valid
            invariant
                w == WITH_REPLACEMENT,
                valid ==> j == dist,
                up ==> dist == ((vt - v0 - 1) % nn) + 1,
                !up ==> dist == ((v0 - vt - 1) % nn) + 1,
                perm_rank(w, n, target) == rt,
                up ==> rt == (r0 + 1) % tt,
                !up ==> rt == (r0 - 1 + tt) % tt,
                perm_rank(w, n, s0) == r0,
                perm_rank(true, n, s0) == v0,
                tt == perm_count(w, n as nat, kk),
                tt >= 1,
                n == self.num_elements,
                kk == LEN,
                self.state@.len() == LEN,
                self.index == old(self).index,
                self.num_elements == old(self).num_elements,
                nn == crate::counting::power(n, kk),
                nn >= 1,
                0 <= n <= usize::MAX,
                !WITH_REPLACEMENT ==> tracks_usage(self.used@, self.state@, n),
                WITH_REPLACEMENT ==> self.used@.len() == 0,
                forall|t: int| 0 <= t < self.state@.len() ==> #[trigger] self.state@[t] < n,
                perm_rank(true, n, self.state@) == (v0 + d * j) % nn,
                0 <= j <= dist,
                1 <= dist <= nn,
                valid ==> j >= 1 && perm_valid(w, n, kk, self.state@),
                !valid ==> j < dist,
                perm_valid(w, n, kk, target),
                perm_valid(w, n, kk, s0),
                perm_rank(true, n, target) == vt,
                if up {
                    (v0 + dist) % nn == vt
                } else {
                    (v0 - dist) % nn == vt
                },
                w ==> dist == 1,
                d == if up {
                    1int
                } else {
                    -1int
                },
            decreases dist - j,
        {
            let ghost before = self.state@;
            self.odometer_step(up);
            proof {
                j = j + 1;
                assert(perm_rank(true, n, self.state@) == ((v0 + d * (j - 1)) % nn + d) % nn);
                lemma_mod_shift(v0 + d * (j - 1), d, nn);
                assert(v0 + d * (j - 1) + d == v0 + d * j) by (nonlinear_arith)
                    requires
                        d == 1 || d == -1,
                ;
            }
            valid = self.no_repeats();
            proof {
                assert(perm_valid(true, n, kk, self.state@));
                if up {
                    assert(v0 + d * j == v0 + j) by (nonlinear_arith)
                        requires
                            d == 1,
                    ;
                } else {
                    assert(v0 + d * j == v0 - j) by (nonlinear_arith)
                        requires
                            d == -1,
                    ;
                }
                if !w {
                    if valid && j < dist {
                        if up {
                            assert(perm_rank(true, n, self.state@) == (v0 + j) % nn);
                            lemma_next_gap(n, kk, s0, target, self.state@, j);
                        } else {
                            assert(perm_rank(true, n, self.state@) == (v0 - j) % nn);
                            lemma_prev_gap(n, kk, s0, target, self.state@, j);
                        }
                    }
                    if !valid && j == dist {
                        lemma_perm_rank_bound(true, n, self.state@, 0);
                        lemma_perm_rank_injective(true, n, kk, self.state@, target);
                    }
                }
            }
        }
        proof {
            assert(j == dist);
            lemma_perm_rank_injective(true, n, kk, self.state@, target);
        }
    }
}

/// The usage record of a cursor that holds an arrangement is determined by
/// its positions: two such cursors over the same pool, at the same
/// positions, have the same record. So a step back after a step forward
/// restores the record along with the positions.
pub proof fn law_perm_usage_follows_positions<const LEN: usize, const WITH_REPLACEMENT: bool>(
    a: ParallelPermutationArrayState<LEN, WITH_REPLACEMENT>,
    b: ParallelPermutationArrayState<LEN, WITH_REPLACEMENT>,
)
    requires
        a.holds_arrangement(),
        b.holds_arrangement(),
        a.pool_size() == b.pool_size(),
        a.positions() == b.positions(),
    ensures
        a.usage_record() == b.usage_record(),
{
    assert(a.usage_record() =~= b.usage_record());
}

/// A contiguous range `start..end` of the enumeration of arrangements of
/// `elements`, which can be split in two.
pub struct ParallelPermutationArrayProducer<'a, T, const LEN: usize, const WITH_REPLACEMENT: bool> {
    elements: &'a [T],
    start_index: usize,
    end_index: usize,
}

impl<'a, T, const LEN: usize, const WITH_REPLACEMENT: bool> ParallelPermutationArrayProducer<
    'a,
    T,
    LEN,
    WITH_REPLACEMENT,
> {
    /// The elements the arrangements are drawn from.
    pub closed spec fn items(&self) -> Seq<T> {
        self.elements@
    }

    /// First index of the range.
    pub closed spec fn start(&self) -> int {
        self.start_index as int
    }

    /// One past the last index of the range.
    pub closed spec fn end(&self) -> int {
        self.end_index as int
    }

    /// Number of arrangements of the elements.
    pub open spec fn total(&self) -> int {
        perm_count(WITH_REPLACEMENT, self.items().len(), LEN as nat)
    }

    /// The range lies within the enumeration, whose count is computable.
    pub open spec fn wf(&self) -> bool {
        &&& perm_len_fits(WITH_REPLACEMENT, self.items().len() as int, LEN as int)
        &&& 0 <= self.start() <= self.end() <= self.total()
    }

    /// The whole enumeration.
    pub fn new(elements: &'a [T]) -> (r: Self)
        requires
            perm_len_fits(WITH_REPLACEMENT, elements@.len() as int, LEN as int),
        ensures
            r.wf(),
            r.items() == elements@,
            r.start() == 0,
            r.end() == r.total(),
    {
        ParallelPermutationArrayProducer {
            elements,
            start_index: 0,
            end_index: perm_len::<WITH_REPLACEMENT>(elements.len(), LEN),
        }
    }

    /// Number of arrangements in the range.
    pub fn len(&self) -> (r: usize)
        requires
            self.wf(),
        ensures
            r == self.end() - self.start(),
    {
        self.end_index - self.start_index
    }

    /// An iterator over the range.
    pub fn into_iter(self) -> (r: ParallelPermutationArrayIter<'a, T, LEN, WITH_REPLACEMENT>)
        requires
            self.wf(),
        ensures
            r.wf(),
            r.items() == self.items(),
            r.front() == self.start(),
            r.back() == self.end(),
    {
        ParallelPermutationArrayIter::new(self.elements, self.start_index, self.end_index)
    }

    /// Splits the range `index` items after its start.
    pub fn split_at(self, index: usize) -> (r: (Self, Self))
        requires
            self.wf(),
            index <= self.end() - self.start(),
        ensures
            r.0.wf(),
            r.1.wf(),
            r.0.items() == self.items(),
            r.1.items() == self.items(),
            r.0.start() == self.start(),
            r.0.end() == self.start() + index,
            r.1.start() == self.start() + index,
            r.1.end() == self.end(),
    {
        let mut this = self;
        let index = this.start_index + index;
        let other = ParallelPermutationArrayProducer {
            elements: this.elements,
            end_index: this.end_index,
            start_index: index,
        };
        this.end_index = index;
        (this, other)
    }
}

/// Iterates over the arrangements of a range of the enumeration, from either
/// end.
pub struct ParallelPermutationArrayIter<'a, T, const LEN: usize, const WITH_REPLACEMENT: bool> {
    elements: &'a [T],
    state: ParallelPermutationArrayState<LEN, WITH_REPLACEMENT>,
    end_state: ParallelPermutationArrayState<LEN, WITH_REPLACEMENT>,
}

impl<'a, T, const LEN: usize, const WITH_REPLACEMENT: bool> ParallelPermutationArrayIter<
    'a,
    T,
    LEN,
    WITH_REPLACEMENT,
> {
    /// The elements the arrangements are drawn from.
    pub closed spec fn items(&self) -> Seq<T> {
        self.elements@
    }

    /// Index of the next arrangement from the front.
    pub closed spec fn front(&self) -> int {
        self.state.position_index()
    }

    /// One past the index of the next arrangement from the back.
    pub closed spec fn back(&self) -> int {
        self.end_state.position_index()
    }

    /// How many items are left between the two ends.
    pub open spec fn remaining(&self) -> int {
        if self.front() <= self.back() {
            self.back() - self.front()
        } else {
            0
        }
    }

    /// Number of arrangements of the elements.
    pub open spec fn total(&self) -> int {
        perm_count(WITH_REPLACEMENT, self.items().len(), LEN as nat)
    }

    /// Both cursors are well formed over the elements.
    pub open spec fn wf(&self) -> bool {
        &&& self.cursors_wf()
        &&& perm_len_fits(WITH_REPLACEMENT, self.items().len() as int, LEN as int)
        &&& 0 <= self.front()
        &&& self.back() <= self.total()
    }

    /// The two cursors are well formed and range over the elements.
    pub closed spec fn cursors_wf(&self) -> bool {
        &&& self.state.wf()
        &&& self.end_state.wf()
        &&& self.state.pool_size() == self.elements@.len()
        &&& self.end_state.pool_size() == self.elements@.len()
    }

    /// An iterator over the indices `start_index..end_index`.
    pub fn new(elements: &'a [T], start_index: usize, end_index: usize) -> (r: Self)
        requires
            perm_len_fits(WITH_REPLACEMENT, elements@.len() as int, LEN as int),
            start_index <= end_index <= perm_count(WITH_REPLACEMENT, elements@.len(), LEN as nat),
        ensures
            r.wf(),
            r.items() == elements@,
            r.front() == start_index,
            r.back() == end_index,
    {
        ParallelPermutationArrayIter {
            elements,
            state: ParallelPermutationArrayState::with_index(elements.len(), start_index),
            end_state: ParallelPermutationArrayState::with_index(elements.len(), end_index),
        }
    }

    /// How many items are left between the two ends.
    pub fn len(&self) -> (r: usize)
        requires
            self.wf(),
        ensures
            r == self.remaining(),
    {
        if self.state.index <= self.end_state.index {
            self.end_state.index - self.state.index
        } else {
            0
        }
    }

    /// Whether the back cursor can step back: it stands after the first
    /// arrangement.
    pub fn can_step_back(&self) -> (r: bool)
        requires
            self.wf(),
        ensures
            r == (1 <= self.back()),
    {
        1 <= self.end_state.index
    }
}

impl<'a, T: Copy, const LEN: usize, const WITH_REPLACEMENT: bool> ParallelPermutationArrayIter<
    'a,
    T,
    LEN,
    WITH_REPLACEMENT,
> {
    /// The next arrangement from the front, if the range is not exhausted.
    pub fn next(&mut self) -> (r: Option<[T; LEN]>)
        requires
            old(self).wf(),
        ensures
            final(self).wf(),
            final(self).items() == old(self).items(),
            final(self).back() == old(self).back(),
            old(self).front() < old(self).back() ==> {
                &&& final(self).front() == old(self).front() + 1
                &&& r matches Some(v) && v@ == select(
                    old(self).items(),
                    perm_at(
                        WITH_REPLACEMENT,
                        old(self).items().len() as int,
                        LEN as nat,
                        old(self).front(),
                    ),
                )
            },
            old(self).front() >= old(self).back() ==> r is None && final(self).front()
                == old(self).front(),
    {
        if self.state.index < self.end_state.index {
            let ghost n = self.elements@.len() as int;
            proof {
                lemma_perm_at_unique(
                    WITH_REPLACEMENT,
                    n,
                    LEN as nat,
                    self.state.position_index(),
                    self.state.positions(),
                );
            }
            let new_perm = self.state.get_perm(self.elements);
            self.state.advance();
            Some(new_perm)
        } else {
            None
        }
    }

    /// The next arrangement from the back, if the range is not exhausted.
    pub fn next_back(&mut self) -> (r: Option<[T; LEN]>)
        requires
            old(self).wf(),
            old(self).back() >= 1,
        ensures
            final(self).wf(),
            final(self).items() == old(self).items(),
            final(self).front() == old(self).front(),
            final(self).back() == old(self).back() - 1,
            old(self).front() < old(self).back() ==> (r matches Some(v) && v@ == select(
                old(self).items(),
                perm_at(
                    WITH_REPLACEMENT,
                    old(self).items().len() as int,
                    LEN as nat,
                    old(self).back() - 1,
                ),
            )),
            old(self).front() >= old(self).back() ==> r is None,
    {
        self.end_state.go_back();
        if self.state.index <= self.end_state.index {
            let ghost n = self.elements@.len() as int;
            proof {
                lemma_perm_at_unique(
                    WITH_REPLACEMENT,
                    n,
                    LEN as nat,
                    self.end_state.position_index(),
                    self.end_state.positions(),
                );
            }
            let new_perm = self.end_state.get_perm(self.elements);
            Some(new_perm)
        } else {
            None
        }
    }
    /// Takes the items left from the front, one `next` at a time: those with
    /// the indices `front()..back()`, in order.
    pub fn collect_remaining(&mut self) -> (r: Vec<[T; LEN]>)
        requires
            old(self).wf(),
        ensures
            final(self).wf(),
            final(self).items() == old(self).items(),
            final(self).back() == old(self).back(),
            final(self).remaining() == 0,
            r.len() == old(self).remaining(),
            forall|i: int|
                0 <= i < r.len() ==> #[trigger] r[i]@ == select(
                    old(self).items(),
                    perm_at(
                        WITH_REPLACEMENT,
                        old(self).items().len() as int,
                        LEN as nat,
                        old(self).front() + i,
                    ),
                ),
    {
        let ghost f0 = self.front();
        let ghost r0 = self.remaining();
        let ghost e = self.items();
        let ghost b0 = self.back();
        let mut out: Vec<[T; LEN]> = Vec::new();
        while self.len() > 0
            invariant
                self.wf(),
                self.items() == e,
                self.back() == b0,
                self.front() == f0 + out.len(),
                r0 == out.len() + self.remaining(),
                forall|i: int|
                    0 <= i < out.len() ==> #[trigger] out[i]@ == select(
                        e,
                        perm_at(WITH_REPLACEMENT, e.len() as int, LEN as nat, f0 + i),
                    ),
            decreases self.remaining(),
        {
            if let Some(v) = self.next() {
                out.push(v);
            }
        }
        out
    }
}

/// The arrangements of length `LEN` of `elements`, as arrays of elements,
/// in lexicographic order of the chosen positions; with `WITH_REPLACEMENT`
/// a position may be chosen more than once.
pub struct ParallelPermutationArray<T, const LEN: usize, const WITH_REPLACEMENT: bool> {
    elements: Vec<T>,
    len: usize,
}

impl<T: Copy> ParallelPermutationArray<T, 0, false> {
    /// The arrangements of `elements` of length `LEN`. `LEN` must be
    /// positive and, without replacement, at most the number of elements.
    pub fn new<const LEN: usize, const WITH_REPLACEMENT: bool>(elements: Vec<T>) -> (r:
        ParallelPermutationArray<T, LEN, WITH_REPLACEMENT>)
        requires
            LEN > 0,
            WITH_REPLACEMENT || LEN <= elements.len(),
            perm_len_fits(WITH_REPLACEMENT, elements.len() as int, LEN as int),
        ensures
            r.wf(),
            r.items() == elements@,
    {
        let len = perm_len::<WITH_REPLACEMENT>(elements.len(), LEN);
        ParallelPermutationArray { len, elements }
    }
}

impl<T: Copy, const LEN: usize, const WITH_REPLACEMENT: bool> ParallelPermutationArray<
    T,
    LEN,
    WITH_REPLACEMENT,
> {
    /// The elements the arrangements are drawn from.
    pub closed spec fn items(&self) -> Seq<T> {
        self.elements@
    }

    /// Number of arrangements of the elements.
    pub open spec fn total(&self) -> int {
        perm_count(WITH_REPLACEMENT, self.items().len(), LEN as nat)
    }

    /// The length is positive, the count computable, and the stored count
    /// right.
    pub open spec fn wf(&self) -> bool {
        &&& LEN > 0
        &&& perm_len_fits(WITH_REPLACEMENT, self.items().len() as int, LEN as int)
        &&& self.count_stored()
    }

    /// The stored count is the number of arrangements.
    pub closed spec fn count_stored(&self) -> bool {
        self.len == self.total()
    }

    /// Number of arrangements.
    pub fn len(&self) -> (r: usize)
        requires
            self.wf(),
        ensures
            r == self.total(),
    {
        self.len
    }

    /// A producer for the whole enumeration.
    pub fn producer(&self) -> (r: ParallelPermutationArrayProducer<'_, T, LEN, WITH_REPLACEMENT>)
        requires
            self.wf(),
        ensures
            r.wf(),
            r.items() == self.items(),
            r.start() == 0,
            r.end() == self.total(),
    {
        ParallelPermutationArrayProducer::new(self.elements.as_slice())
    }

    /// All the arrangements, in order.
    pub fn collect_vec(&self) -> (r: Vec<[T; LEN]>)
        requires
            self.wf(),
        ensures
            r.len() == self.total(),
            forall|i: int|
                0 <= i < r.len() ==> #[trigger] r[i]@ == select(
                    self.items(),
                    perm_at(WITH_REPLACEMENT, self.items().len() as int, LEN as nat, i),
                ),
    {
        let mut it = self.producer().into_iter();
        it.collect_remaining()
    }
}

} // verus!
