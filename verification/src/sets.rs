//! Facts about the size of sets.
use vstd::prelude::*;
use vstd::relations::injective_on;
use vstd::set_lib::{lemma_int_range, lemma_len_subset, lemma_map_size, set_int_range};

verus! {

/// A set that maps one-to-one into the first `n` natural numbers has at most `n` elements.
pub proof fn lemma_numbered_len<A>(s: Set<A>, number: spec_fn(A) -> int, n: nat)
    requires
        s.finite(),
        injective_on(number, s),
        forall|a: A| #[trigger] s.contains(a) ==> 0 <= number(a) < n,
    ensures
        s.len() <= n,
{
    let image = s.map(number);
    lemma_map_size(s, image, number);
    lemma_int_range(0, n as int);
    assert(image.subset_of(set_int_range(0, n as int)));
    lemma_len_subset(image, set_int_range(0, n as int));
}

/// Pairs of two different elements, the first out of `firsts` and the second out of `all`, are at
/// most as many as the product says.
pub proof fn lemma_pairs_len<A>(pairs: Set<(A, A)>, firsts: Set<A>, all: Set<A>)
    requires
        pairs.finite(),
        firsts.finite(),
        all.finite(),
        firsts.subset_of(all),
        forall|p: (A, A)| #[trigger]
            pairs.contains(p) ==> firsts.contains(p.0) && all.contains(p.1) && p.0 != p.1,
    ensures
        firsts.len() == 0 ==> pairs.len() == 0,
        pairs.len() <= firsts.len() * (all.len() - 1),
    decreases firsts.len(),
{
    if firsts.len() == 0 {
        assert(pairs =~= Set::empty()) by {
            assert forall|p: (A, A)| !pairs.contains(p) by {
                if pairs.contains(p) {
                    assert(firsts.contains(p.0));
                }
            }
        }
    } else {
        let a = firsts.choose();
        let with_a = pairs.filter(|p: (A, A)| p.0 == a);
        let others = pairs.filter(|p: (A, A)| p.0 != a);
        let fewer = firsts.remove(a);
        pairs.lemma_len_filter(|p: (A, A)| p.0 == a);
        pairs.lemma_len_filter(|p: (A, A)| p.0 != a);
        lemma_pairs_len(others, fewer, all);
        let second = |p: (A, A)| p.1;
        let image = with_a.map(second);
        lemma_map_size(with_a, image, second);
        assert(image.subset_of(all.remove(a)));
        lemma_len_subset(image, all.remove(a));
        assert(pairs =~= with_a.union(others));
        vstd::set_lib::lemma_len_union(with_a, others);
        assert(fewer.len() * (all.len() - 1) + (all.len() - 1) == firsts.len() * (all.len() - 1))
            by (nonlinear_arith)
            requires
                firsts.len() == fewer.len() + 1,
        ;
    }
}

} // verus!
