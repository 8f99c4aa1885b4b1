//! Combinations of a slice, enumerated in lexicographic order of the chosen
//! positions.
use vstd::prelude::*;
use crate::counting::{
    falling, factorial, binomial, lemma_falling_grows_in_k, lemma_falling_binomial,
    lemma_binomial_positive, lemma_factorial_positive,
};
use crate::comb_model::{
    comb_valid_from,
    comb_count, comb_len_fits, comb_valid, comb_rank, comb_unrank, step, lemma_comb_count_split,
    lemma_comb_count_needs_pool, lemma_comb_fits_shrink, lemma_comb_unrank, pool_after, max_at,
    min_at, comb_past_end, comb_tight, lemma_comb_valid_max, lemma_comb_valid_chain,
    lemma_comb_successor, lemma_comb_last, lemma_comb_predecessor, lemma_comb_first,
    lemma_comb_count_fits, lemma_comb_rank_bound, comb_link, comb_at, lemma_comb_at,
    lemma_comb_all_max,
};
use crate::sequences::{select, pick};

verus! {

/// How many combinations of length `length` can be drawn from
/// `num_elements` elements.
pub fn comb_len<const WITH_REPLACEMENT: bool>(num_elements: usize, length: usize) -> (r: usize)
    requires
        comb_len_fits(WITH_REPLACEMENT, num_elements as int, length as int),
    ensures
        r == comb_count(WITH_REPLACEMENT, num_elements as nat, length as nat),
{
    if length == 0 {
        return 1;
    }
    let k: usize = length;
    let ghost m: int = if WITH_REPLACEMENT {
        num_elements + k - 1
    } else {
        num_elements as int
    };
    proof {
        lemma_falling_grows_in_k(m, 1, k as nat);
        assert(falling(m, 0) == 1);
        assert(falling(m, 1) == m);
    }
    let mut remaining: usize = k;
    let mut num_elements: usize = if WITH_REPLACEMENT {
        num_elements + (remaining - 1)
    } else {
        num_elements
    };
    let mut size: usize = num_elements;
    let mut i: usize = 1;
    let mut num_combinations: usize = i;

    num_elements -= 1;
    remaining -= 1;
    i += 1;
    proof {
        assert(falling(m, 1) == m);
        assert(factorial(0) == 1);
        assert(factorial(1) == 1);
        if k >= 2 {
            lemma_falling_grows_in_k(m, 2, k as nat);
            assert(falling(m, 2) == m * (m - 1));
            assert(m * (m - 1) >= 2 * m - 2) by (nonlinear_arith)
                requires m >= 2;
        }
    }
    while remaining > 0
        invariant
            1 <= k,
            k <= m,
            falling(m, k as nat) <= usize::MAX,
            k >= 2 ==> 2 * m - 2 <= usize::MAX,
            remaining < k,
            size == falling(m, (k - remaining) as nat),
            num_combinations == factorial((k - remaining) as nat),
            i == k - remaining + 1,
            num_elements == m - (k - remaining),
        decreases remaining,
    {
        let ghost j: nat = (k - remaining) as nat;
        proof {
            lemma_falling_grows_in_k(m, j + 1, k as nat);
            lemma_falling_binomial(m as nat, j + 1);
            lemma_binomial_positive(m as nat, j + 1);
            let b = binomial(m as nat, j + 1) as int;
            let f = factorial(j + 1);
            lemma_factorial_positive(j + 1);
            assert(f <= b * f) by (nonlinear_arith)
                requires b >= 1, f >= 1;
        }
        size *= num_elements;
        num_combinations *= i;
        remaining -= 1;
        i += 1;
        num_elements -= 1;
    }
    proof {
        lemma_falling_binomial(m as nat, k as nat);
        lemma_factorial_positive(k as nat);
        let b = binomial(m as nat, k as nat) as int;
        let f = factorial(k as nat);
        assert((b * f) / f == b) by (nonlinear_arith)
            requires f >= 1;
    }
    size / num_combinations
}

/// Whether `comb_len` can count the combinations of length `length` from
/// `num_elements` elements without overflowing.
pub fn comb_len_computable<const WITH_REPLACEMENT: bool>(num_elements: usize, length: usize) -> (r:
    bool)
    ensures
        r == comb_len_fits(WITH_REPLACEMENT, num_elements as int, length as int),
        length == 0 ==> r,
        !WITH_REPLACEMENT && length > 0 ==> (r <==> num_elements >= length && falling(
            num_elements as int,
            length as nat,
        ) <= usize::MAX),
        WITH_REPLACEMENT && length > 0 ==> (r <==> num_elements >= 1 && falling(
            num_elements + length - 1,
            length as nat,
        ) <= usize::MAX),
{
    if length == 0 {
        return true;
    }
    if WITH_REPLACEMENT && num_elements == 0 {
        return false;
    }
    if !WITH_REPLACEMENT && num_elements < length {
        return false;
    }
    let ghost m: int = if WITH_REPLACEMENT {
        num_elements + length - 1
    } else {
        num_elements as int
    };
    let top = if WITH_REPLACEMENT {
        num_elements.checked_add(length - 1)
    } else {
        Some(num_elements)
    };
    let top = match top {
        Some(t) => t,
        None => {
            proof {
                lemma_falling_grows_in_k(m, 1, length as nat);
                assert(falling(m, 0) == 1);
                assert(falling(m, 1) == m);
            }
            return false;
        },
    };
    let mut size: usize = 1;
    let mut j: usize = 0;
    proof {
        assert(falling(m, 0) == 1);
    }
    while j < length
        invariant
            top == m,
            m == if WITH_REPLACEMENT {
                num_elements + length - 1
            } else {
                num_elements as int
            },
            length <= m,
            j <= length,
            size == falling(m, j as nat),
        decreases length - j,
    {
        match size.checked_mul(top - j) {
            Some(v) => {
                size = v;
            },
            None => {
                proof {
                    lemma_falling_grows_in_k(m, (j + 1) as nat, length as nat);
                    assert(falling(m, (j + 1) as nat) == falling(m, j as nat) * (m - j));
                }
                return false;
            },
        }
        j += 1;
    }
    true
}

/// A cursor over the combinations of `LEN` positions out of `num_elements`,
/// standing at the combination with a given index.
pub struct ParallelCombinationArrayState<const LEN: usize, const WITH_REPLACEMENT: bool> {
    state: [usize; LEN],
    index: usize,
    depth: usize,
    num_elements: usize,
}

impl<const LEN: usize, const WITH_REPLACEMENT: bool> ParallelCombinationArrayState<
    LEN,
    WITH_REPLACEMENT,
> {
    /// The positions of the combination the cursor stands at.
    pub closed spec fn positions(&self) -> Seq<usize> {
        self.state@
    }

    /// The index of the cursor in the enumeration.
    pub closed spec fn position_index(&self) -> int {
        self.index as int
    }

    /// How many elements the combinations are drawn from.
    pub closed spec fn pool_size(&self) -> int {
        self.num_elements as int
    }

    /// No step is under way: the cursor is at rest between moves.
    pub closed spec fn at_rest(&self) -> bool {
        self.depth == LEN
    }

    /// Number of combinations in the enumeration.
    pub open spec fn total(&self) -> int {
        comb_count(WITH_REPLACEMENT, self.pool_size() as nat, LEN as nat) as int
    }

    /// The cursor holds `LEN` positions: while its index is within the
    /// enumeration, the combination with that index; at the end, the
    /// positions one past the last combination.
    pub open spec fn wf(&self) -> bool {
        &&& self.at_rest()
        &&& self.positions().len() == LEN
        &&& comb_len_fits(WITH_REPLACEMENT, self.pool_size(), LEN as int)
        &&& 0 <= self.position_index() <= self.total()
        &&& self.position_index() < self.total() ==> {
            &&& comb_valid(WITH_REPLACEMENT, self.pool_size(), LEN as nat, self.positions())
            &&& comb_rank(WITH_REPLACEMENT, self.pool_size(), self.positions())
                == self.position_index()
        }
        &&& self.position_index() == self.total() ==> self.positions() == comb_past_end(
            WITH_REPLACEMENT,
            self.pool_size(),
            LEN as nat,
        )
    }

    /// A cursor at `index`: the combination with that index, or, at the end
    /// of the enumeration, the positions one past the last combination.
    pub fn with_index(num_elements: usize, index: usize) -> (s: Self)
        requires
            comb_len_fits(WITH_REPLACEMENT, num_elements as int, LEN as int),
            index <= comb_count(WITH_REPLACEMENT, num_elements as nat, LEN as nat),
        ensures
            s.wf(),
            s.position_index() == index,
            s.pool_size() == num_elements,
            index < s.total() ==> s.positions() == comb_at(
                WITH_REPLACEMENT,
                num_elements as int,
                LEN as nat,
                index as int,
            ),
            index == s.total() ==> s.positions() == comb_past_end(
                WITH_REPLACEMENT,
                num_elements as int,
                LEN as nat,
            ),
    {
        let ghost w = WITH_REPLACEMENT;
        let ghost n = num_elements as int;
        let total = comb_len::<WITH_REPLACEMENT>(num_elements, LEN);
        let mut state = [0usize; LEN];
        if index < total {
            let mut comb_index: usize = index;
            let mut current_index: usize = 0;
            let mut i: usize = 0;
            let ghost target = comb_unrank(w, n, LEN as nat, 0, index as int);
            assert(target == state@.take(0) + comb_unrank(w, n, LEN as nat, 0, index as int));
            while i < LEN
                invariant
                    w == WITH_REPLACEMENT,
                    n == num_elements,
                    comb_len_fits(w, n, LEN as int),
                    i <= LEN,
                    state@.len() == LEN,
                    current_index <= n,
                    comb_index < comb_count(w, (n - current_index) as nat, (LEN - i) as nat),
                    target == state@.take(i as int) + comb_unrank(
                        w,
                        n,
                        (LEN - i) as nat,
                        current_index as int,
                        comb_index as int,
                    ),
                decreases LEN - i,
            {
                let ghost k: nat = (LEN - i) as nat;
                let ghost whole = comb_unrank(w, n, k, current_index as int, comb_index as int);
                let mut num_combinations: usize = 0;
                loop
                    invariant
                        w == WITH_REPLACEMENT,
                        n == num_elements,
                        comb_len_fits(w, n, LEN as int),
                        k == LEN - i,
                        i < LEN,
                        current_index <= n,
                        comb_index < comb_count(w, (n - current_index) as nat, k),
                        whole == comb_unrank(w, n, k, current_index as int, comb_index as int),
                    ensures
                        current_index < n,
                        comb_index < num_combinations,
                        num_combinations == comb_count(
                            w,
                            (n - step(w, current_index as int)) as nat,
                            (k - 1) as nat,
                        ),
                        whole == comb_unrank(w, n, k, current_index as int, comb_index as int),
                    decreases n - current_index,
                {
                    proof {
                        lemma_comb_count_needs_pool(w, (n - current_index) as nat, k);
                        lemma_comb_fits_shrink(
                            w,
                            n,
                            LEN as int,
                            n - step(w, current_index as int),
                            k - 1,
                        );
                        lemma_comb_count_split(w, (n - current_index) as nat, k);
                        assert(pool_after(w, (n - current_index) as nat) == n - step(
                            w,
                            current_index as int,
                        ));
                    }
                    num_combinations =
                        comb_len::<WITH_REPLACEMENT>(
                            num_elements - current_index - if WITH_REPLACEMENT {
                                0
                            } else {
                                1
                            },
                            LEN - i - 1,
                        );
                    if num_combinations > comb_index {
                        break ;
                    }
                    current_index += 1;
                    comb_index -= num_combinations;
                }
                let ghost rest = comb_unrank(
                    w,
                    n,
                    (k - 1) as nat,
                    step(w, current_index as int),
                    comb_index as int,
                );
                assert(whole == seq![current_index] + rest);
                let ghost before = state@;
                state[i] = current_index;
                assert(state@.take(i + 1) =~= before.take(i as int).push(current_index));
                assert(before.take(i as int).push(current_index) + rest =~= before.take(i as int) + (
                seq![current_index] + rest));
                current_index += if WITH_REPLACEMENT {
                    0
                } else {
                    1
                };
                i += 1;
            }
            assert(state@.take(LEN as int) + comb_unrank(w, n, 0, current_index as int, comb_index as int)
                =~= state@);
            proof {
                lemma_comb_unrank(w, n, LEN as nat, 0, index as int);
            }
        } else {
            let mut i: usize = 0;
            while i < LEN
                invariant
                    w == WITH_REPLACEMENT,
                    n == num_elements,
                    comb_len_fits(w, n, LEN as int),
                    i <= LEN,
                    state@.len() == LEN,
                    forall|j: int| 0 <= j < i ==> state@[j] == comb_past_end(w, n, LEN as nat)[j],
                decreases LEN - i,
            {
                state[i] = if WITH_REPLACEMENT {
                    num_elements
                } else {
                    num_elements - LEN + 1 + i
                };
                i += 1;
            }
            assert(state@ =~= comb_past_end(w, n, LEN as nat));
        }
        ParallelCombinationArrayState { state, index, depth: LEN, num_elements }
    }

    /// The positions of the current combination.
    pub fn state(&self) -> (r: [usize; LEN])
        ensures
            r@ == self.positions(),
    {
        self.state
    }

    /// The index of the cursor.
    pub fn index(&self) -> (r: usize)
        ensures
            r == self.position_index(),
    {
        self.index
    }

    /// The elements at the current positions.
    pub fn get_comb<T: Copy>(&self, elements: &[T]) -> (r: [T; LEN])
        requires
            forall|i: int| 0 <= i < self.positions().len() ==> #[trigger] self.positions()[i] < elements@.len(),
        ensures
            r@ == select(elements@, self.positions()),
    {
        assert forall|i: int| 0 <= i < self.state@.len() implies #[trigger] self.state@[i]
            < elements@.len() by {
            assert(self.positions()[i] == self.state@[i]);
        }
        pick(elements, &self.state)
    }

    /// Moves the cursor to the next combination in lexicographic order. From
    /// the last combination it moves past the end, to `comb_past_end`.
    pub fn advance(&mut self)
        requires
            old(self).wf(),
            LEN >= 1,
            old(self).position_index() < old(self).total(),
        ensures
            final(self).wf(),
            final(self).pool_size() == old(self).pool_size(),
            final(self).position_index() == old(self).position_index() + 1,
            final(self).position_index() < final(self).total() ==> comb_rank(
                WITH_REPLACEMENT,
                final(self).pool_size(),
                final(self).positions(),
            ) == comb_rank(WITH_REPLACEMENT, old(self).pool_size(), old(self).positions()) + 1,
            final(self).position_index() < final(self).total() ==> final(self).positions()
                == comb_at(
                WITH_REPLACEMENT,
                final(self).pool_size(),
                LEN as nat,
                final(self).position_index(),
            ),
            final(self).position_index() == final(self).total() ==> final(self).positions()
                == comb_past_end(WITH_REPLACEMENT, final(self).pool_size(), LEN as nat),
    {
        let ghost w = WITH_REPLACEMENT;
        let ghost n = self.num_elements as int;
        let ghost c = self.state@;
        let ghost k = LEN as int;
        proof {
            assert forall|j: int| 0 <= j < k implies c[j] <= max_at(w, n, k, j) by {
                lemma_comb_valid_max(w, n, c, j);
            }
        }
        self.depth -= 1;
        let mut remainder = true;
        let ghost mut pivot: int = 0;
        while self.depth < LEN
            invariant
                w == WITH_REPLACEMENT,
                k == LEN,
                n == self.num_elements,
                self.index == old(self).index,
                self.num_elements == old(self).num_elements,
                c == old(self).state@,
                comb_valid(w, n, LEN as nat, c),
                comb_len_fits(w, n, k),
                forall|j: int| 0 <= j < k ==> c[j] <= max_at(w, n, k, j),
                self.state@.len() == LEN,
                self.depth <= LEN,
                remainder ==> self.depth < LEN,
                remainder ==> forall|j: int| 0 <= j <= self.depth ==> self.state@[j] == c[j],
                remainder ==> forall|j: int|
                    self.depth < j < k ==> c[j] == max_at(w, n, k, j),
                !remainder ==> 0 <= pivot < self.depth,
                !remainder ==> forall|j: int| 0 <= j < pivot ==> self.state@[j] == c[j],
                !remainder ==> self.state@[pivot] == c[pivot] + 1,
                !remainder ==> (pivot == 0 || c[pivot] + 1 <= max_at(w, n, k, pivot)),
                !remainder ==> forall|j: int|
                    pivot < j < self.depth ==> #[trigger] comb_tight(w, self.state@, j),
                !remainder ==> forall|j: int|
                    pivot <= j < self.depth ==> self.state@[j] <= max_at(w, n, k, j) + 1,
                !remainder ==> forall|j: int| pivot < j < k ==> c[j] == max_at(w, n, k, j),
            decreases
                if remainder {
                    LEN + self.depth + 1
                } else {
                    LEN - self.depth
                },
        {
            let d = self.depth;
            let previous_state: usize;
            let last: bool;
            if d == 0 {
                previous_state = 0;
                last = true;
            } else {
                previous_state = self.state[d - 1];
                last = false;
            }
            if d > 0 && !remainder {
                assert(self.state@[d - 1] <= max_at(w, n, k, d - 1) + 1);
            }
            if remainder {
                assert(self.state@[d as int] == c[d as int]);
                assert(c[d as int] < n);
                let current = self.state[d] + 1;
                self.state[d] = current;
                let invalid = if WITH_REPLACEMENT {
                    current >= self.num_elements
                } else {
                    current >= self.num_elements - (LEN - d - 1)
                } && !last;
                if invalid {
                    self.depth = d - 1;
                } else {
                    self.depth = d + 1;
                    remainder = false;
                    proof {
                        pivot = d as int;
                    }
                }
            } else {
                let ghost before = self.state@;
                self.state[d] = previous_state + if WITH_REPLACEMENT {
                    0
                } else {
                    1
                };
                self.depth = d + 1;
                assert forall|j: int| pivot < j < self.depth implies #[trigger] comb_tight(
                    w,
                    self.state@,
                    j,
                ) by {
                    if j < d {
                        assert(comb_tight(w, before, j));
                    }
                }
            }
        }
        proof {
            let e = self.state@;
            lemma_comb_count_fits(w, n, k);
            if c[pivot] + 1 <= max_at(w, n, k, pivot) {
                lemma_comb_successor(w, n, LEN as nat, c, e, pivot);
                lemma_comb_rank_bound(w, n, 0, e);
                lemma_comb_at(w, n, LEN as nat, comb_rank(w, n, e), e);
            } else {
                lemma_comb_last(w, n, LEN as nat, c, e);
            }
        }
        self.index += 1;
    }

    /// Moves the cursor to the previous combination in lexicographic order;
    /// from past the end it moves back to the last combination.
    pub fn go_back(&mut self)
        requires
            old(self).wf(),
            LEN >= 1,
            1 <= old(self).position_index(),
        ensures
            final(self).wf(),
            final(self).pool_size() == old(self).pool_size(),
            final(self).position_index() == old(self).position_index() - 1,
            final(self).positions() == comb_at(
                WITH_REPLACEMENT,
                final(self).pool_size(),
                LEN as nat,
                final(self).position_index(),
            ),
    {
        let ghost w = WITH_REPLACEMENT;
        let ghost n = self.num_elements as int;
        let ghost c = self.state@;
        let ghost k = LEN as int;
        let ghost from_end = self.index == self.total();
        proof {
            if from_end {
                assert forall|j: int| 0 < j < k implies #[trigger] comb_tight(w, c, j) by {
                    assert(c[j] == comb_past_end(w, n, LEN as nat)[j]);
                    assert(c[j - 1] == comb_past_end(w, n, LEN as nat)[j - 1]);
                }
                assert forall|j: int| 0 <= j < k implies 1 <= #[trigger] c[j] <= n && c[j] == (
                if w {
                    n
                } else {
                    n - k + 1 + j
                }) by {
                    assert(c[j] == comb_past_end(w, n, LEN as nat)[j]);
                }
                if w && k >= 2 {
                    lemma_falling_grows_in_k(n + k - 1, 1, k as nat);
                    assert(falling(n + k - 1, 0) == 1);
                    assert(falling(n + k - 1, 1) == n + k - 1);
                }
            }
        }
        self.depth -= 1;
        let mut remainder = true;
        let ghost mut pivot: int = 0;
        while self.depth < LEN
            invariant
                w == WITH_REPLACEMENT,
                k == LEN,
                n == self.num_elements,
                self.index == old(self).index,
                self.num_elements == old(self).num_elements,
                c == old(self).state@,
                c.len() == LEN,
                from_end ==> forall|j: int| 0 < j < k ==> #[trigger] comb_tight(w, c, j),
                from_end ==> forall|j: int|
                    0 <= j < k ==> 1 <= #[trigger] c[j] <= n && c[j] == (if w {
                        n
                    } else {
                        n - k + 1 + j
                    }),
                from_end && w && k >= 2 ==> n + 1 <= usize::MAX,
                !from_end ==> comb_valid(w, n, LEN as nat, c) && comb_rank(w, n, c) >= 1,
                comb_len_fits(w, n, k),
                self.state@.len() == LEN,
                self.depth <= LEN,
                remainder ==> self.depth < LEN,
                remainder ==> forall|j: int| 0 <= j <= self.depth ==> self.state@[j] == c[j],
                remainder ==> forall|j: int|
                    self.depth < j < k ==> #[trigger] comb_tight(w, c, j),
                !remainder ==> 0 <= pivot < self.depth,
                !remainder ==> forall|j: int| 0 <= j < pivot ==> self.state@[j] == c[j],
                !remainder ==> self.state@[pivot] + 1 == c[pivot],
                !remainder ==> min_at(w, c, pivot) <= self.state@[pivot],
                !remainder ==> forall|j: int|
                    pivot < j < self.depth ==> self.state@[j] == max_at(w, n, k, j),
                !remainder ==> forall|j: int| pivot < j < k ==> #[trigger] comb_tight(w, c, j),
            decreases
                if remainder {
                    LEN + self.depth + 1
                } else {
                    LEN - self.depth
                },
        {
            let d = self.depth;
            let previous_state: usize;
            if d == 0 {
                previous_state = 0;
            } else {
                assert(remainder ==> self.state@[d - 1] == c[d - 1]);
                assert(!from_end ==> c[d - 1] < n);
                assert(!remainder ==> self.state@[d - 1] <= n - 1) by {
                    if !remainder && d - 1 > pivot {
                        assert(self.state@[d - 1] == max_at(w, n, k, d - 1));
                    } else if !remainder && !from_end {
                        assert(c[pivot] < n);
                    } else if !remainder {
                        assert(c[pivot] <= n);
                    }
                }
                assert(self.state@[d - 1] + 1 <= usize::MAX) by {
                    if remainder && from_end {
                        assert(c[d - 1] == (if w {
                            n
                        } else {
                            n - k + 1 + (d - 1)
                        }));
                    }
                }
                previous_state = self.state[d - 1] + 1;
            }
            if remainder {
                if self.state[d] == 0 {
                    proof {
                        if from_end {
                            assert(c[d as int] >= 1);
                        } else {
                            lemma_first_if_zero(w, n, c, d as int);
                        }
                    }
                    self.state[d] = self.num_elements - 1;
                }
                let current = self.state[d] - 1;
                self.state[d] = current;
                let invalid = if WITH_REPLACEMENT {
                    current + 1 < previous_state
                } else {
                    current < previous_state
                };
                if invalid {
                    proof {
                        if !from_end {
                            assert(comb_link(w, c, d as int));
                        }
                    }
                    self.depth = d - 1;
                } else {
                    remainder = false;
                    self.depth = d + 1;
                    proof {
                        pivot = d as int;
                    }
                }
            } else {
                if WITH_REPLACEMENT {
                    self.state[d] = self.num_elements - 1;
                } else {
                    self.state[d] = self.num_elements - (LEN - d);
                }
                self.depth = d + 1;
            }
        }
        proof {
            if from_end {
                if pivot > 0 {
                    assert(comb_tight(w, c, pivot));
                }
                assert(self.state@[0] == max_at(w, n, k, 0));
                lemma_comb_all_max(w, n, LEN as nat, self.state@);
                lemma_comb_rank_bound(w, n, 0, self.state@);
            } else {
                lemma_comb_predecessor(w, n, LEN as nat, c, self.state@, pivot);
            }
            lemma_comb_at(w, n, LEN as nat, comb_rank(w, n, self.state@), self.state@);
        }
        self.index -= 1;
    }
}

/// A combination whose position `d` holds zero, with every later position at
/// its smallest element, is the first one.
proof fn lemma_first_if_zero(w: bool, n: int, c: Seq<usize>, d: int)
    requires
        comb_valid_from(w, n, 0, c),
        0 <= d < c.len(),
        c[d] == 0,
        forall|j: int| d < j < c.len() ==> #[trigger] comb_tight(w, c, j),
    ensures
        comb_rank(w, n, c) == 0,
{
    assert forall|j: int| 0 <= j < c.len() implies c[j] == min_at(w, c, j) by {
        if j < d {
            lemma_comb_valid_chain(w, n, 0, c, j, d);
            if j > 0 {
                lemma_comb_valid_chain(w, n, 0, c, j - 1, j);
            }
        } else if j == d {
            if j > 0 {
                lemma_comb_valid_chain(w, n, 0, c, 0, j);
                lemma_comb_valid_chain(w, n, 0, c, j - 1, j);
            }
        } else {
            assert(comb_tight(w, c, j));
        }
    }
    lemma_comb_first(w, n, c.len(), c);
}

/// A contiguous range `start..end` of the enumeration of combinations of
/// `elements`, which can be split in two.
pub struct ParallelCombinationArrayProducer<'a, T, const LEN: usize, const WITH_REPLACEMENT: bool> {
    elements: &'a [T],
    start_index: usize,
    end_index: usize,
}

impl<'a, T, const LEN: usize, const WITH_REPLACEMENT: bool> ParallelCombinationArrayProducer<
    'a,
    T,
    LEN,
    WITH_REPLACEMENT,
> {
    /// The elements the combinations are drawn from.
    pub closed spec fn items(&self) -> Seq<T> {
        self.elements@
    }

    /// First index of the range.
    pub closed spec fn start(&self) -> int {
        self.start_index as int
    }

    /// One past the last index of the range.
    pub closed spec fn end(&self) -> int {
        self.end_index as int
    }

    /// Number of combinations of the elements.
    pub open spec fn total(&self) -> int {
        comb_count(WITH_REPLACEMENT, self.items().len(), LEN as nat) as int
    }

    /// The range lies within the enumeration, whose count is computable.
    pub open spec fn wf(&self) -> bool {
        &&& comb_len_fits(WITH_REPLACEMENT, self.items().len() as int, LEN as int)
        &&& 0 <= self.start() <= self.end() <= self.total()
    }

    /// The whole enumeration.
    pub fn new(elements: &'a [T]) -> (r: Self)
        requires
            comb_len_fits(WITH_REPLACEMENT, elements@.len() as int, LEN as int),
        ensures
            r.wf(),
            r.items() == elements@,
            r.start() == 0,
            r.end() == r.total(),
    {
        ParallelCombinationArrayProducer {
            elements,
            start_index: 0,
            end_index: comb_len::<WITH_REPLACEMENT>(elements.len(), LEN),
        }
    }

    /// Number of combinations in the range.
    pub fn len(&self) -> (r: usize)
        requires
            self.wf(),
        ensures
            r == self.end() - self.start(),
    {
        self.end_index - self.start_index
    }

    /// An iterator over the range.
    pub fn into_iter(self) -> (r: ParallelCombinationArrayIter<'a, T, LEN, WITH_REPLACEMENT>)
        requires
            self.wf(),
        ensures
            r.wf(),
            r.items() == self.items(),
            r.front() == self.start(),
            r.back() == self.end(),
    {
        ParallelCombinationArrayIter::new(self.elements, self.start_index, self.end_index)
    }

    /// Splits the range `index` items after its start.
    pub fn split_at(self, index: usize) -> (r: (Self, Self))
        requires
            self.wf(),
            index <= self.end() - self.start(),
        ensures
            r.0.wf(),
            r.1.wf(),
            r.0.items() == self.items(),
            r.1.items() == self.items(),
            r.0.start() == self.start(),
            r.0.end() == self.start() + index,
            r.1.start() == self.start() + index,
            r.1.end() == self.end(),
    {
        let mut this = self;
        let index = this.start_index + index;
        let other = ParallelCombinationArrayProducer {
            elements: this.elements,
            end_index: this.end_index,
            start_index: index,
        };
        this.end_index = index;
        (this, other)
    }
}

/// Iterates over the combinations of a range of the enumeration, from either
/// end.
pub struct ParallelCombinationArrayIter<'a, T, const LEN: usize, const WITH_REPLACEMENT: bool> {
    elements: &'a [T],
    state: ParallelCombinationArrayState<LEN, WITH_REPLACEMENT>,
    end_state: ParallelCombinationArrayState<LEN, WITH_REPLACEMENT>,
}

impl<'a, T, const LEN: usize, const WITH_REPLACEMENT: bool> ParallelCombinationArrayIter<
    'a,
    T,
    LEN,
    WITH_REPLACEMENT,
> {
    /// The elements the combinations are drawn from.
    pub closed spec fn items(&self) -> Seq<T> {
        self.elements@
    }

    /// Index of the next combination from the front.
    pub closed spec fn front(&self) -> int {
        self.state.position_index()
    }

    /// One past the index of the next combination from the back.
    pub closed spec fn back(&self) -> int {
        self.end_state.position_index()
    }

    /// How many items are left between the two ends.
    pub open spec fn remaining(&self) -> int {
        if self.front() <= self.back() {
            self.back() - self.front()
        } else {
            0
        }
    }

    /// Number of combinations of the elements.
    pub open spec fn total(&self) -> int {
        comb_count(WITH_REPLACEMENT, self.items().len(), LEN as nat) as int
    }

    /// Both cursors are well formed over the elements.
    pub open spec fn wf(&self) -> bool {
        &&& self.cursors_wf()
        &&& comb_len_fits(WITH_REPLACEMENT, self.items().len() as int, LEN as int)
        &&& 0 <= self.front()
        &&& self.back() <= self.total()
    }

    /// The two cursors are well formed and range over the elements.
    pub closed spec fn cursors_wf(&self) -> bool {
        &&& self.state.wf()
        &&& self.end_state.wf()
        &&& self.state.pool_size() == self.elements@.len()
        &&& self.end_state.pool_size() == self.elements@.len()
    }

    /// An iterator over the indices `start_index..end_index`.
    pub fn new(elements: &'a [T], start_index: usize, end_index: usize) -> (r: Self)
        requires
            comb_len_fits(WITH_REPLACEMENT, elements@.len() as int, LEN as int),
            start_index <= end_index <= comb_count(WITH_REPLACEMENT, elements@.len(), LEN as nat),
        ensures
            r.wf(),
            r.items() == elements@,
            r.front() == start_index,
            r.back() == end_index,
    {
        ParallelCombinationArrayIter {
            elements,
            state: ParallelCombinationArrayState::with_index(elements.len(), start_index),
            end_state: ParallelCombinationArrayState::with_index(elements.len(), end_index),
        }
    }

    /// How many items are left between the two ends.
    pub fn len(&self) -> (r: usize)
        requires
            self.wf(),
        ensures
            r == self.remaining(),
    {
        if self.state.index <= self.end_state.index {
            self.end_state.index - self.state.index
        } else {
            0
        }
    }

    /// Whether the back cursor stands after the first combination, so that
    /// `next_back` may be called.
    pub fn can_step_back(&self) -> (r: bool)
        ensures
            r == (1 <= self.back()),
    {
        1 <= self.end_state.index
    }
}

impl<'a, T: Copy, const LEN: usize, const WITH_REPLACEMENT: bool> ParallelCombinationArrayIter<
    'a,
    T,
    LEN,
    WITH_REPLACEMENT,
> {
    /// The next combination from the front, if the range is not exhausted.
    pub fn next(&mut self) -> (r: Option<[T; LEN]>)
        requires
            old(self).wf(),
            LEN >= 1,
        ensures
            final(self).wf(),
            final(self).items() == old(self).items(),
            final(self).back() == old(self).back(),
            old(self).front() < old(self).back() ==> {
                &&& final(self).front() == old(self).front() + 1
                &&& r matches Some(v) && v@ == select(
                    old(self).items(),
                    comb_at(
                        WITH_REPLACEMENT,
                        old(self).items().len() as int,
                        LEN as nat,
                        old(self).front(),
                    ),
                )
            },
            old(self).front() >= old(self).back() ==> r is None && final(self).front()
                == old(self).front(),
    {
        if self.state.index < self.end_state.index {
            let ghost n = self.elements@.len() as int;
            proof {
                lemma_comb_at(
                    WITH_REPLACEMENT,
                    n,
                    LEN as nat,
                    self.state.position_index(),
                    self.state.positions(),
                );
            }
            let new_perm = self.state.get_comb(self.elements);
            self.state.advance();
            Some(new_perm)
        } else {
            None
        }
    }

    /// The next combination from the back, if the range is not exhausted.
    pub fn next_back(&mut self) -> (r: Option<[T; LEN]>)
        requires
            old(self).wf(),
            LEN >= 1,
            1 <= old(self).back(),
        ensures
            final(self).wf(),
            final(self).items() == old(self).items(),
            final(self).front() == old(self).front(),
            final(self).back() == old(self).back() - 1,
            old(self).front() < old(self).back() ==> (r matches Some(v) && v@ == select(
                old(self).items(),
                comb_at(
                    WITH_REPLACEMENT,
                    old(self).items().len() as int,
                    LEN as nat,
                    old(self).back() - 1,
                ),
            )),
            old(self).front() >= old(self).back() ==> r is None,
    {
        self.end_state.go_back();
        if self.state.index <= self.end_state.index {
            let ghost n = self.elements@.len() as int;
            proof {
                lemma_comb_at(
                    WITH_REPLACEMENT,
                    n,
                    LEN as nat,
                    self.end_state.position_index(),
                    self.end_state.positions(),
                );
            }
            let new_perm = self.end_state.get_comb(self.elements);
            Some(new_perm)
        } else {
            None
        }
    }
    /// Takes the items left from the front, one `next` at a time: those with
    /// the indices `front()..back()`, in order.
    pub fn collect_remaining(&mut self) -> (r: Vec<[T; LEN]>)
        requires
            old(self).wf(),
            LEN >= 1,
        ensures
            final(self).wf(),
            final(self).items() == old(self).items(),
            final(self).back() == old(self).back(),
            final(self).remaining() == 0,
            r.len() == old(self).remaining(),
            forall|i: int|
                0 <= i < r.len() ==> #[trigger] r[i]@ == select(
                    old(self).items(),
                    comb_at(
                        WITH_REPLACEMENT,
                        old(self).items().len() as int,
                        LEN as nat,
                        old(self).front() + i,
                    ),
                ),
    {
        let ghost f0 = self.front();
        let ghost r0 = self.remaining();
        let ghost e = self.items();
        let ghost b0 = self.back();
        let mut out: Vec<[T; LEN]> = Vec::new();
        while self.len() > 0
            invariant
                self.wf(),
                LEN >= 1,
                self.items() == e,
                self.back() == b0,
                self.front() == f0 + out.len(),
                r0 == out.len() + self.remaining(),
                forall|i: int|
                    0 <= i < out.len() ==> #[trigger] out[i]@ == select(
                        e,
                        comb_at(WITH_REPLACEMENT, e.len() as int, LEN as nat, f0 + i),
                    ),
            decreases self.remaining(),
        {
            if let Some(v) = self.next() {
                out.push(v);
            }
        }
        out
    }
}

/// The combinations of length `LEN` of `elements`, as arrays of elements,
/// in lexicographic order of the chosen positions; with `WITH_REPLACEMENT`
/// a position may be chosen more than once.
pub struct ParallelCombinationArray<T, const LEN: usize, const WITH_REPLACEMENT: bool> {
    elements: Vec<T>,
    len: usize,
}

impl<T: Copy> ParallelCombinationArray<T, 0, false> {
    /// The combinations of `elements` of length `LEN`. `LEN` must be
    /// positive and, without replacement, at most the number of elements.
    pub fn new<const LEN: usize, const WITH_REPLACEMENT: bool>(elements: Vec<T>) -> (r:
        ParallelCombinationArray<T, LEN, WITH_REPLACEMENT>)
        requires
            LEN > 0,
            WITH_REPLACEMENT || LEN <= elements.len(),
            comb_len_fits(WITH_REPLACEMENT, elements.len() as int, LEN as int),
        ensures
            r.wf(),
            r.items() == elements@,
    {
        let len = comb_len::<WITH_REPLACEMENT>(elements.len(), LEN);
        ParallelCombinationArray { len, elements }
    }
}

impl<T: Copy, const LEN: usize, const WITH_REPLACEMENT: bool> ParallelCombinationArray<
    T,
    LEN,
    WITH_REPLACEMENT,
> {
    /// The elements the combinations are drawn from.
    pub closed spec fn items(&self) -> Seq<T> {
        self.elements@
    }

    /// Number of combinations of the elements.
    pub open spec fn total(&self) -> int {
        comb_count(WITH_REPLACEMENT, self.items().len(), LEN as nat) as int
    }

    /// The length is positive, the count computable, and the stored count
    /// right.
    pub open spec fn wf(&self) -> bool {
        &&& LEN > 0
        &&& comb_len_fits(WITH_REPLACEMENT, self.items().len() as int, LEN as int)
        &&& self.count_stored()
    }

    /// The stored count is the number of combinations.
    pub closed spec fn count_stored(&self) -> bool {
        self.len == self.total()
    }

    /// Number of combinations.
    pub fn len(&self) -> (r: usize)
        requires
            self.wf(),
        ensures
            r == self.total(),
    {
        self.len
    }

    /// A producer for the whole enumeration.
    pub fn producer(&self) -> (r: ParallelCombinationArrayProducer<'_, T, LEN, WITH_REPLACEMENT>)
        requires
            self.wf(),
        ensures
            r.wf(),
            r.items() == self.items(),
            r.start() == 0,
            r.end() == self.total(),
    {
        ParallelCombinationArrayProducer::new(self.elements.as_slice())
    }

    /// All the combinations, in order.
    pub fn collect_vec(&self) -> (r: Vec<[T; LEN]>)
        requires
            self.wf(),
        ensures
            r.len() == self.total(),
            forall|i: int|
                0 <= i < r.len() ==> #[trigger] r[i]@ == select(
                    self.items(),
                    comb_at(WITH_REPLACEMENT, self.items().len() as int, LEN as nat, i),
                ),
    {
        let mut it = self.producer().into_iter();
        it.collect_remaining()
    }
}

} // verus!
