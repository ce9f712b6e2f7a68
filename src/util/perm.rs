//! Permutation object: a set stepped through its arrangements in
//! lexicographic order, forwards and backwards.
use vstd::prelude::*;
use crate::math::count::{checked_range_product, falling};
use crate::order::{
    Ordered, copy_of, dedup_adjacent, dedup_spec, lex_less, non_increasing, reverse_range,
    same_elements, sort_in_place, sorted, swap_at,
};
use crate::permute::complete::{
    dominant_from, lemma_greatest, lemma_least, lemma_step_pivot, lex_le, sorted_from,
};
use crate::permute::{
    generate_all, is_r_permutation_of, lemma_lex_less_transitive, lex_enumeration, views,
};

verus! {

broadcast use vstd::seq_lib::group_to_multiset_ensures;

/// `b` is the next arrangement of the elements of `a` in lexicographic
/// order: it comes after `a`, and no arrangement comes between them.
pub open spec fn is_next_arrangement<T: Ordered>(a: Seq<T>, b: Seq<T>) -> bool {
    &&& same_elements(b, a)
    &&& lex_less(a, b)
    &&& forall|q: Seq<T>| same_elements(q, a) && lex_less(a, q) ==> #[trigger] lex_le(b, q)
}

/// No arrangement of the elements of `a` comes after it.
pub open spec fn is_last_arrangement<T: Ordered>(a: Seq<T>) -> bool {
    forall|q: Seq<T>| same_elements(q, a) ==> !#[trigger] lex_less(a, q)
}

/// No arrangement of the elements of `a` comes before it.
pub open spec fn is_first_arrangement<T: Ordered>(a: Seq<T>) -> bool {
    forall|q: Seq<T>| same_elements(q, a) ==> !#[trigger] lex_less(q, a)
}

proof fn lemma_arrangement_is_r_permutation<T>(q: Seq<T>, a: Seq<T>)
    requires
        same_elements(q, a),
    ensures
        is_r_permutation_of(q, a, a.len()),
{
    broadcast use vstd::multiset::group_multiset_axioms;

    assert(q.len() == q.to_multiset().len());
}

/// Elements in non-increasing order form the last arrangement.
proof fn lemma_last_when_non_increasing<T: Ordered>(a: Seq<T>)
    requires
        a.len() < 2 || non_increasing(a),
    ensures
        is_last_arrangement(a),
{
    assert forall|q: Seq<T>| same_elements(q, a) implies !#[trigger] lex_less(a, q) by {
        lemma_arrangement_is_r_permutation(q, a);
        assert(dominant_from(a, 0, a.len() as int));
        lemma_greatest(a, q, a.len(), 0);
        assert(a.subrange(0, a.len() as int) =~= a);
    }
}

/// Elements in sorted order form the first arrangement.
proof fn lemma_first_when_sorted<T: Ordered>(a: Seq<T>)
    requires
        a.len() < 2 || sorted(a),
    ensures
        is_first_arrangement(a),
{
    assert forall|q: Seq<T>| same_elements(q, a) implies !#[trigger] lex_less(q, a) by {
        lemma_arrangement_is_r_permutation(q, a);
        assert(sorted_from(a, 0));
        lemma_least(a, q, a.len(), 0);
        assert(a.subrange(0, a.len() as int) =~= a);
        if lex_less(q, a) && lex_less(a, q) {
            lemma_lex_less_transitive(a, q, a);
        }
    }
}

/// What a pivot step over a whole arrangement gives is its next arrangement.
proof fn lemma_next_from_pivot<T: Ordered>(a: Seq<T>, b: Seq<T>)
    requires
        same_elements(b, a),
        lex_less(a, b),
        forall|q: Seq<T>|
            is_r_permutation_of(q, a, a.len()) && lex_less(a.subrange(0, a.len() as int), q)
                ==> #[trigger] lex_le(b.subrange(0, a.len() as int), q),
        b.len() == a.len(),
    ensures
        is_next_arrangement(a, b),
{
    assert(a.subrange(0, a.len() as int) =~= a);
    assert(b.subrange(0, a.len() as int) =~= b);
    assert forall|q: Seq<T>| same_elements(q, a) && lex_less(a, q) implies #[trigger] lex_le(b, q) by {
        lemma_arrangement_is_r_permutation(q, a);
        assert(lex_le(b.subrange(0, a.len() as int), q));
    }
}

/// An arrangement of a set of elements.
pub struct Permutation<T>(pub Vec<T>);

impl<T: Ordered> Permutation<T> {
    /// The sorted set of the elements of `v`, each kept once.
    pub fn new(v: &[T]) -> (p: Permutation<T>)
        ensures
            exists|s: Seq<T>| sorted(s) && same_elements(s, v@) && p.0@ == dedup_spec(s),
    {
        let mut w = copy_of(v);
        sort_in_place(&mut w);
        let d = dedup_adjacent(&w);
        Permutation(d)
    }

    /// Steps to the next arrangement in lexicographic order and returns it;
    /// `None`, with nothing changed, for fewer than two elements or at the
    /// last arrangement (non-increasing order).
    pub fn next_arrangement(&mut self) -> (res: Option<Vec<T>>)
        ensures
            same_elements(final(self).0@, old(self).0@),
            res is None <==> (old(self).0@.len() < 2 || non_increasing(old(self).0@)),
            res is None <==> is_last_arrangement(old(self).0@),
            res is None ==> *final(self) == *old(self),
            res matches Some(w) ==> w@ == final(self).0@ && is_next_arrangement(
                old(self).0@,
                final(self).0@,
            ),
    {
        let n = self.0.len();
        let ghost start = self.0@;
        if n < 2 {
            proof {
                lemma_last_when_non_increasing(start);
            }
            return None;
        }
        let mut i: usize = n - 1;
        while i > 0 && !self.0[i - 1].less(&self.0[i])
            invariant
                n == self.0@.len(),
                i < n,
                self.0@ == start,
                forall|x: int, y: int| i <= x < y < n ==> self.0@[y].rank() <= self.0@[x].rank(),
            decreases i,
        {
            i = i - 1;
        }
        if i == 0 {
            proof {
                assert(non_increasing(start));
                lemma_last_when_non_increasing(start);
            }
            return None;
        }
        proof {
            if non_increasing(self.0@) {
                assert(self.0@[i as int].rank() <= self.0@[i - 1].rank());
            }
        }
        let mut j: usize = n - 1;
        while j >= i && self.0[j].less_eq(&self.0[i - 1])
            invariant
                n == self.0@.len(),
                0 < i <= j < n,
                self.0@ == start,
                start[i - 1].rank() < start[i as int].rank(),
                forall|m: int| j < m < n ==> #[trigger] start[m].rank() <= start[i - 1].rank(),
            decreases j,
        {
            j = j - 1;
        }
        swap_at(&mut self.0, j, i - 1);
        let ghost a2 = self.0@;
        reverse_range(&mut self.0, i, n);
        proof {
            let k = i - 1;
            assert(forall|x: int| 0 <= x < k ==> start[x] == self.0@[x]);
            assert(start[k].rank() < self.0@[k].rank());
            assert(a2 =~= start.update(i - 1, start[j as int]).update(j as int, start[i - 1]));
            assert(dominant_from(start, i as int, n as int));
            lemma_step_pivot(start, self.0@, n as int, i as int, j as int);
            assert(start.subrange(0, n as int) =~= start);
            assert(self.0@.subrange(0, n as int) =~= self.0@);
            lemma_next_from_pivot(start, self.0@);
        }
        Some(copy_of(self.0.as_slice()))
    }

    /// Steps to the previous arrangement in lexicographic order and returns
    /// it; `None`, with nothing changed, for fewer than two elements or at the
    /// first arrangement (sorted order).
    pub fn prev_arrangement(&mut self) -> (res: Option<Vec<T>>)
        ensures
            same_elements(final(self).0@, old(self).0@),
            res is None <==> (old(self).0@.len() < 2 || sorted(old(self).0@)),
            res is None <==> is_first_arrangement(old(self).0@),
            res is None ==> *final(self) == *old(self),
            res matches Some(w) ==> w@ == final(self).0@ && is_next_arrangement(
                final(self).0@,
                old(self).0@,
            ),
    {
        let n = self.0.len();
        let ghost start = self.0@;
        if n < 2 {
            proof {
                lemma_first_when_sorted(start);
            }
            return None;
        }
        let mut i: usize = n - 1;
        while i > 0 && self.0[i - 1].less_eq(&self.0[i])
            invariant
                n == self.0@.len(),
                i < n,
                self.0@ == start,
                forall|x: int, y: int| i <= x < y < n ==> self.0@[x].rank() <= self.0@[y].rank(),
            decreases i,
        {
            i = i - 1;
        }
        if i == 0 {
            proof {
                assert(sorted(start));
                lemma_first_when_sorted(start);
            }
            return None;
        }
        proof {
            if sorted(self.0@) {
                assert(self.0@[i - 1].rank() <= self.0@[i as int].rank());
            }
        }
        reverse_range(&mut self.0, i, n);
        let ghost mid = self.0@;
        let mut j: usize = n - 1;
        while j >= i && self.0[j - 1].less(&self.0[i - 1])
            invariant
                n == self.0@.len(),
                0 < i <= j < n,
                self.0@ == mid,
                mid[j as int].rank() < mid[i - 1].rank(),
                mid[i - 1] == start[i - 1],
                forall|m: int| j <= m < n ==> #[trigger] mid[m].rank() < mid[i - 1].rank(),
            decreases j,
        {
            j = j - 1;
        }
        swap_at(&mut self.0, i - 1, j);
        proof {
            let b = self.0@;
            let k = i - 1;
            assert(forall|x: int| 0 <= x < k ==> start[x] == b[x]);
            assert(b[k].rank() < start[k].rank());
            assert forall|x: int, y: int| i <= x < y < n implies mid[y].rank() <= mid[x].rank() by {
                assert(mid[x] == start[i + n - 1 - x]);
                assert(mid[y] == start[i + n - 1 - y]);
            }
            assert forall|x: int, m: int| i <= x < n && x <= m < n implies b[m].rank() <= b[x].rank() by {
                if m == j && x < j {
                    if j > i {
                        assert(mid[j - 1].rank() >= mid[i - 1].rank());
                        assert(mid[x].rank() >= mid[j - 1].rank());
                    }
                } else if x == j && m > j {
                    assert(mid[m].rank() <= mid[j as int].rank());
                }
            }
            assert(dominant_from(b, i as int, n as int));
            assert forall|m: int| j < m < n implies #[trigger] b[m].rank() <= b[i - 1].rank() by {
                assert(mid[m].rank() <= mid[j as int].rank());
            }
            assert(b.update(i - 1, b[j as int]).update(j as int, b[i - 1]) =~= mid);
            assert forall|x: int| i <= x < n implies start[x] == b.update(i - 1, b[j as int]).update(
                j as int,
                b[i - 1],
            )[i + n - 1 - x] by {
                assert(mid[i + n - 1 - x] == start[x]);
            }
            lemma_step_pivot(b, start, n as int, i as int, j as int);
            assert(start.subrange(0, n as int) =~= start);
            assert(b.subrange(0, n as int) =~= b);
            lemma_next_from_pivot(b, start);
        }
        Some(copy_of(self.0.as_slice()))
    }

    /// The r-permutations of the set in lexicographic order, from the sorted
    /// arrangement on (Knuth, TAOCP 7.2.1.2). `None` when `r > n`, `r == 0`,
    /// `n < 2`, or `r == n` with more than 16 elements.
    pub fn generate_r(&self, r: usize) -> (res: Option<Vec<Vec<T>>>)
        ensures
            res is None <==> (r > self.0@.len() || r == 0 || (r == self.0@.len() && r > 16)
                || self.0@.len() < 2),
            res matches Some(out) ==> lex_enumeration(views(out@), self.0@, r as nat),
    {
        let n = self.0.len();
        if r > n || r == 0 || (r == n && n > 16) || n < 2 {
            return None;
        }
        let mut v = copy_of(self.0.as_slice());
        Some(generate_all(&mut v, r))
    }

    /// `n! / (n - r)!`; `None` when `n < 2`, `r == 0`, `r > n` or the count
    /// exceeds `usize::MAX`.
    pub fn count_r(&self, r: usize) -> (c: Option<usize>)
        ensures
            c is Some <==> (2 <= self.0@.len() && 0 < r <= self.0@.len() && falling(
                self.0@.len(),
                r as nat,
            ) <= usize::MAX),
            c matches Some(k) ==> k == falling(self.0@.len(), r as nat),
    {
        let n = self.0.len();
        if n < 2 || r == 0 || r > n {
            None
        } else {
            checked_range_product(n - r + 1, n)
        }
    }
}

/// Sequential lexicographic permutations.
pub trait PermIter: Sized {
    type Item;

    /// No arrangement comes before this one.
    spec fn is_first(&self) -> bool;

    /// No arrangement comes after this one.
    spec fn is_last(&self) -> bool;

    /// `self` holds the next arrangement after that of `before`.
    spec fn follows(&self, before: &Self) -> bool;

    /// `item` is the arrangement that `self` holds.
    spec fn shows(&self, item: Self::Item) -> bool;

    /// Steps back to the previous arrangement and returns it.
    fn prev(&mut self) -> (r: Option<Self::Item>)
        ensures
            r is None <==> old(self).is_first(),
            r is None ==> *final(self) == *old(self),
            r matches Some(x) ==> old(self).follows(final(self)) && final(self).shows(x),
    ;

    /// Steps on to the next arrangement and returns it.
    fn next(&mut self) -> (r: Option<Self::Item>)
        ensures
            r is None <==> old(self).is_last(),
            r is None ==> *final(self) == *old(self),
            r matches Some(x) ==> final(self).follows(old(self)) && final(self).shows(x),
    ;
}

impl<T: Ordered> PermIter for Permutation<T> {
    type Item = Vec<T>;

    open spec fn is_first(&self) -> bool {
        is_first_arrangement(self.0@)
    }

    open spec fn is_last(&self) -> bool {
        is_last_arrangement(self.0@)
    }

    open spec fn follows(&self, before: &Self) -> bool {
        is_next_arrangement(before.0@, self.0@)
    }

    open spec fn shows(&self, item: Vec<T>) -> bool {
        item@ == self.0@
    }

    fn prev(&mut self) -> Option<Vec<T>> {
        self.prev_arrangement()
    }

    fn next(&mut self) -> Option<Vec<T>> {
        self.next_arrangement()
    }
}

/// Lexicographic r-permutation generation.
pub trait GenerateR<T> {
    type Perm;

    fn generate(&self, r: usize) -> Option<Self::Perm>;

    fn count_perms(&self, r: usize) -> Option<usize>;
}

impl<T: Ordered> GenerateR<T> for Permutation<T> {
    type Perm = Vec<Vec<T>>;

    fn generate(&self, r: usize) -> Option<Vec<Vec<T>>> {
        self.generate_r(r)
    }

    fn count_perms(&self, r: usize) -> Option<usize> {
        self.count_r(r)
    }
}

} // verus!
