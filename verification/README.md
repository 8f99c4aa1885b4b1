# par_itertools

Indexed enumeration of the fixed-length combinations and arrangements
(permutations of a chosen length) of a list of elements, with and without
replacement, verified with Verus.

Every enumeration lists its items in lexicographic order of the chosen
positions. The item at any index can be built directly, a cursor can step
forwards and backwards, and a range of indices can be split in two, which is
what a work-splitting parallel iterator needs.

## Layout

- `src/counting.rs`: falling factorials, factorials, powers and binomial
  coefficients, with the identities used below.
- `src/sequences.rs`: lexicographic order on position sequences, and the
  elements a sequence of positions picks out.
- `src/comb_model.rs`, `src/perm_model.rs`: what a combination or an
  arrangement is, how many there are, and the rank of each (its index in
  lexicographic order), with the proofs that ranking is an order-preserving
  bijection onto `0..count`.
- `src/combinations_array.rs`, `src/permutations_array.rs`: the executable
  counts, cursors (`with_index`, `advance`, `go_back`), splittable producers,
  double-ended iterators and the top-level enumerations, each with its
  contract.
- `src/laws.rs`: the properties of the enumerations as a whole, as proof
  functions.
- `src/traits.rs`: marker types for how elements are supplied.
- `app/lib.rs`: the rayon `ParallelIterator` / `IndexedParallelIterator` /
  `Producer` glue and the `ParItertools` extension trait.
- `tests/`: the test suites.
