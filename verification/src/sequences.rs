//! Sequences of positions: their lexicographic order, and the elements
//! they pick out of a slice.
use vstd::prelude::*;

verus! {

/// `a` comes strictly before `b` in lexicographic order.
pub open spec fn lex_less(a: Seq<usize>, b: Seq<usize>) -> bool
    decreases a.len(),
{
    a.len() > 0 && b.len() > 0 && (a[0] < b[0] || (a[0] == b[0] && lex_less(
        a.drop_first(),
        b.drop_first(),
    )))
}

/// Two different sequences of one length are ordered one way or the other.
pub proof fn lemma_lex_total(a: Seq<usize>, b: Seq<usize>)
    requires
        a.len() == b.len(),
        a != b,
    ensures
        lex_less(a, b) || lex_less(b, a),
    decreases a.len(),
{
    if a.len() == 0 {
        assert(a =~= b);
    } else if a[0] == b[0] {
        if a.drop_first() == b.drop_first() {
            assert(a =~= seq![a[0]] + a.drop_first());
            assert(b =~= seq![b[0]] + b.drop_first());
        }
        lemma_lex_total(a.drop_first(), b.drop_first());
    }
}

/// The elements of `elements` at `positions`, in order.
pub open spec fn select<T>(elements: Seq<T>, positions: Seq<usize>) -> Seq<T> {
    positions.map_values(|i: usize| elements[i as int])
}

/// The elements of `elements` at `positions`, in order.
pub fn pick<T: Copy, const N: usize>(elements: &[T], positions: &[usize; N]) -> (r: [T; N])
    requires
        forall|i: int| 0 <= i < positions@.len() ==> #[trigger] positions@[i] < elements@.len(),
    ensures
        r@ == select(elements@, positions@),
{
    let mut v: Vec<T> = Vec::new();
    let mut i: usize = 0;
    while i < N
        invariant
            i <= N,
            positions@.len() == N,
            forall|j: int| 0 <= j < positions@.len() ==> #[trigger] positions@[j] < elements@.len(),
            v@.len() == i,
            forall|j: int| 0 <= j < i ==> #[trigger] v@[j] == elements@[positions@[j] as int],
        decreases N - i,
    {
        let p = positions[i];
        v.push(elements[p]);
        i += 1;
    }
    let r = vec_into_array::<T, N>(v).unwrap();
    assert(r@ =~= select(elements@, positions@));
    r
}

/// std's `<[T; N]>::try_from(Vec<T>)`: per its documentation it hands back
/// the vector's whole contents, in order, as an array when the length is
/// exactly `N`, and fails otherwise (the vector it then returns is dropped
/// here).
#[verifier::external_body]
fn vec_into_array<T, const N: usize>(v: Vec<T>) -> (r: Option<[T; N]>)
    ensures
        r.is_some() == (v@.len() == N),
        r.is_some() ==> r.unwrap()@ == v@,
{
    match <[T; N]>::try_from(v) {
        Ok(a) => Some(a),
        Err(_) => None,
    }
}

/// The first position where `a` and `b` differ, with `a` smaller there.
pub proof fn lemma_lex_first_difference(a: Seq<usize>, b: Seq<usize>) -> (j: int)
    requires
        lex_less(a, b),
    ensures
        0 <= j < a.len(),
        j < b.len(),
        forall|i: int| 0 <= i < j ==> a[i] == b[i],
        a[j] < b[j],
    decreases a.len(),
{
    if a[0] < b[0] {
        0
    } else {
        let j = lemma_lex_first_difference(a.drop_first(), b.drop_first());
        assert forall|i: int| 0 <= i < j + 1 implies a[i] == b[i] by {
            if i > 0 {
                assert(a[i] == a.drop_first()[i - 1]);
                assert(b[i] == b.drop_first()[i - 1]);
            }
        }
        j + 1
    }
}

} // verus!
