//! How many r-permutations a set of `n` distinct elements has:
//! `n! / (n - r)!`, counted by their first element.
use vstd::prelude::*;
use vstd::multiset::Multiset;
use crate::math::count::{falling, range_product};
use crate::permute::is_r_permutation_of;

verus! {

broadcast use vstd::seq_lib::group_to_multiset_ensures;

/// The r-permutations of the multiset `e`.
pub open spec fn r_permutations<T>(e: Seq<T>, r: nat) -> Set<Seq<T>> {
    Set::new(|q: Seq<T>| is_r_permutation_of(q, e, r))
}

/// `x` followed by `p`.
pub open spec fn cons<T>(x: T, p: Seq<T>) -> Seq<T> {
    seq![x] + p
}

/// The function that puts `x` in front.
pub open spec fn prepend<T>(x: T) -> spec_fn(Seq<T>) -> Seq<T> {
    |p: Seq<T>| cons(x, p)
}

/// The r-permutations, of length `r + 1`, that start with `e[i]`.
pub open spec fn starting_with<T>(e: Seq<T>, i: int, r: nat) -> Set<Seq<T>> {
    r_permutations(e.remove(i), r).map(prepend(e[i]))
}

/// The r-permutations, of length `r + 1`, that start with one of `e[0..k]`.
pub open spec fn starting_before<T>(e: Seq<T>, k: nat, r: nat) -> Set<Seq<T>>
    decreases k,
{
    if k == 0 {
        Set::empty()
    } else {
        starting_before(e, (k - 1) as nat, r) + starting_with(e, k - 1, r)
    }
}

/// An (r + 1)-permutation of `e` is a first element of `e` followed by an
/// r-permutation of the rest.
proof fn lemma_cons_r_permutation<T>(e: Seq<T>, i: int, p: Seq<T>, r: nat)
    requires
        0 <= i < e.len(),
    ensures
        is_r_permutation_of(cons(e[i], p), e, r + 1) <==> is_r_permutation_of(p, e.remove(i), r),
{
    broadcast use vstd::multiset::group_multiset_axioms;

    let x = e[i];
    let q = cons(x, p);
    vstd::seq_lib::lemma_multiset_commutative(seq![x], p);
    assert(seq![x].to_multiset() =~= Multiset::singleton(x)) by {
        assert(seq![x] =~= Seq::<T>::empty().push(x));
    }
    let mq = q.to_multiset();
    let mp = p.to_multiset();
    let me = e.to_multiset();
    let mr = e.remove(i).to_multiset();
    assert(mr == me.remove(x));
    assert(me.count(x) >= 1) by {
        assert(e.contains(x));
    }
    if mp.subset_of(mr) {
        assert forall|y: T| mq.count(y) <= me.count(y) by {
            assert(mq.count(y) == mp.count(y) + if y == x { 1nat } else { 0nat });
        }
    }
    if mq.subset_of(me) {
        assert forall|y: T| mp.count(y) <= mr.count(y) by {
            assert(mq.count(y) == mp.count(y) + if y == x { 1nat } else { 0nat });
        }
    }
}

/// An (r + 1)-permutation starts with some element of `e`.
proof fn lemma_r_permutation_head<T>(e: Seq<T>, q: Seq<T>, r: nat)
    requires
        is_r_permutation_of(q, e, r + 1),
    ensures
        exists|i: int| 0 <= i < e.len() && e[i] == q[0],
        q == cons(q[0], q.drop_first()),
{
    broadcast use vstd::multiset::group_multiset_axioms;

    assert(q =~= cons(q[0], q.drop_first()));
    assert(q.to_multiset().count(q[0]) >= 1) by {
        assert(q.contains(q[0]));
    }
    assert(e.to_multiset().count(q[0]) >= 1);
    assert(e.contains(q[0]));
}

/// Membership in `starting_before`.
proof fn lemma_starting_before_contains<T>(e: Seq<T>, k: nat, r: nat, q: Seq<T>)
    ensures
        starting_before(e, k, r).contains(q) <==> exists|i: int|
            0 <= i < k && #[trigger] starting_with(e, i, r).contains(q),
    decreases k,
{
    if k > 0 {
        lemma_starting_before_contains(e, (k - 1) as nat, r, q);
        if starting_with(e, k - 1, r).contains(q) {
            assert(starting_before(e, k, r).contains(q));
        }
    }
}

/// Putting a fixed element in front is injective.
proof fn lemma_cons_injective<T>(x: T)
    ensures
        vstd::relations::injective(prepend(x)),
{
    assert forall|a: Seq<T>, b: Seq<T>| #[trigger] prepend(x)(a) == #[trigger] prepend(x)(b) implies a
        == b by {
        assert(cons(x, a).drop_first() =~= a);
        assert(cons(x, b).drop_first() =~= b);
    }
}

/// For distinct elements, the parts starting before `k` are finite, and
/// number `k` times the r-permutations of `n - 1` elements.
proof fn lemma_starting_before_len<T>(e: Seq<T>, k: nat, r: nat)
    requires
        e.no_duplicates(),
        k <= e.len(),
        e.len() >= 1,
        forall|i: int|
            0 <= i < e.len() ==> #[trigger] r_permutations(e.remove(i), r).finite() && r_permutations(
                e.remove(i),
                r,
            ).len() == falling((e.len() - 1) as nat, r),
    ensures
        starting_before(e, k, r).finite(),
        starting_before(e, k, r).len() == k * falling((e.len() - 1) as nat, r),
    decreases k,
{
    if k > 0 {
        let i = k - 1;
        lemma_starting_before_len(e, (k - 1) as nat, r);
        let a = starting_before(e, (k - 1) as nat, r);
        let part = starting_with(e, i, r);
        let src = r_permutations(e.remove(i), r);
        let f = prepend(e[i]);
        assert(0 <= i < e.len());
        assert(r_permutations(e.remove(i), r).finite());
        assert(src.finite() && src.len() == falling((e.len() - 1) as nat, r));
        lemma_cons_injective(e[i]);
        assert(vstd::relations::injective_on(f, src));
        vstd::set_lib::lemma_map_size(src, part, f);
        assert(a.disjoint(part)) by {
            assert forall|q: Seq<T>| a.contains(q) implies !part.contains(q) by {
                lemma_starting_before_contains(e, (k - 1) as nat, r, q);
                let i2 = choose|i2: int| 0 <= i2 < k - 1 && #[trigger] starting_with(e, i2, r).contains(q);
                let p2 = choose|p2: Seq<T>| r_permutations(e.remove(i2), r).contains(p2) && prepend(e[i2])(p2) == q;
                assert(q[0] == e[i2]);
                if part.contains(q) {
                    let p1 = choose|p1: Seq<T>| src.contains(p1) && prepend(e[i])(p1) == q;
                    assert(q[0] == e[i]);
                }
            }
        }
        vstd::set_lib::lemma_set_disjoint_lens(a, part);
        let fl = falling((e.len() - 1) as nat, r);
        assert(starting_before(e, k, r) == a + part);
        assert(src.len() == fl);
        assert(part.len() == fl);
        assert((a + part).len() == a.len() + part.len());
        assert(a.len() == (k - 1) * fl);
        assert((k - 1) * fl + fl == k * fl) by (nonlinear_arith);
    } else {
        assert(starting_before(e, 0, r) == Set::<Seq<T>>::empty());
        assert(0 * falling((e.len() - 1) as nat, r) == 0);
    }
}

/// A multiset of `n` distinct elements has `n! / (n - r)!` r-permutations.
pub proof fn lemma_r_permutations_count<T>(e: Seq<T>, r: nat)
    requires
        e.no_duplicates(),
    ensures
        r_permutations(e, r).finite(),
        r_permutations(e, r).len() == falling(e.len(), r),
    decreases r,
{
    broadcast use vstd::multiset::group_multiset_axioms;

    let n = e.len();
    if r == 0 {
        assert(r_permutations(e, 0) =~= set![Seq::<T>::empty()]) by {
            assert forall|q: Seq<T>| r_permutations(e, 0).contains(q) <==> q == Seq::<T>::empty() by {
                if q == Seq::<T>::empty() {
                    assert(q.to_multiset() =~= Multiset::empty());
                }
                if q.len() == 0 {
                    assert(q =~= Seq::<T>::empty());
                }
            }
        }
        assert(falling(n, 0) == range_product((n + 1) as int, n as int));
    } else {
        let r1 = (r - 1) as nat;
        assert forall|i: int| 0 <= i < n implies #[trigger] r_permutations(e.remove(i), r1).finite()
            && r_permutations(e.remove(i), r1).len() == falling((n - 1) as nat, r1) by {
            assert(e.remove(i).no_duplicates()) by {
                assert forall|a: int, b: int| 0 <= a < b < e.remove(i).len() implies e.remove(i)[a]
                    != e.remove(i)[b] by {
                    let a0 = if a < i { a } else { a + 1 };
                    let b0 = if b < i { b } else { b + 1 };
                    assert(e.remove(i)[a] == e[a0]);
                    assert(e.remove(i)[b] == e[b0]);
                }
            }
            lemma_r_permutations_count(e.remove(i), r1);
        }
        if n == 0 {
            assert(r_permutations(e, r) =~= Set::<Seq<T>>::empty()) by {
                assert forall|q: Seq<T>| !r_permutations(e, r).contains(q) by {
                    if r_permutations(e, r).contains(q) {
                        lemma_r_permutation_head(e, q, r1);
                    }
                }
            }
            assert(falling(0, r) == 0) by {
                lemma_range_product_has_zero(-r1, 0);
            }
        } else {
            lemma_starting_before_len(e, n, r1);
            assert(r_permutations(e, r) =~= starting_before(e, n, r1)) by {
                assert forall|q: Seq<T>| r_permutations(e, r).contains(q) <==> starting_before(
                    e,
                    n,
                    r1,
                ).contains(q) by {
                    lemma_starting_before_contains(e, n, r1, q);
                    if r_permutations(e, r).contains(q) {
                        lemma_r_permutation_head(e, q, r1);
                        let i = choose|i: int| 0 <= i < e.len() && e[i] == q[0];
                        lemma_cons_r_permutation(e, i, q.drop_first(), r1);
                        assert(r_permutations(e.remove(i), r1).contains(q.drop_first()));
                        assert(prepend(e[i])(q.drop_first()) == q);
                        assert(starting_with(e, i, r1).contains(q));
                    }
                    if starting_before(e, n, r1).contains(q) {
                        let i = choose|i: int| 0 <= i < n && #[trigger] starting_with(e, i, r1).contains(q);
                        let p = choose|p: Seq<T>| r_permutations(e.remove(i), r1).contains(p) && prepend(e[i])(p) == q;
                        lemma_cons_r_permutation(e, i, p, r1);
                    }
                }
            }
            assert(falling(n, r) == falling((n - 1) as nat, r1) * n);
        }
    }
}

/// A product over a range through zero is zero.
proof fn lemma_range_product_has_zero(lo: int, hi: int)
    requires
        lo <= 0 <= hi,
    ensures
        range_product(lo, hi) == 0,
    decreases hi - lo,
{
    if hi > 0 {
        lemma_range_product_has_zero(lo, hi - 1);
    }
}

} // verus!
