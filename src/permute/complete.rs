//! Why the lexicographic generator misses no r-permutation: which elements
//! an r-permutation can hold at each place, and the least and greatest
//! r-permutations of an arrangement.
use vstd::prelude::*;
use crate::order::{Ordered, lex_less, same_elements};
use crate::permute::is_r_permutation_of;

verus! {

broadcast use vstd::seq_lib::group_to_multiset_ensures;

/// `a` equals `b` or comes before it in lexicographic order.
pub open spec fn lex_le<T: Ordered>(a: Seq<T>, b: Seq<T>) -> bool {
    a == b || lex_less(a, b)
}

/// The elements at positions `from..` are in non-decreasing order.
pub open spec fn sorted_from<T: Ordered>(a: Seq<T>, from: int) -> bool {
    forall|i: int, j: int| from <= i < j < a.len() ==> a[i].rank() <= a[j].rank()
}

/// Each element at a position in `from..r` is at least every element after it.
pub open spec fn dominant_from<T: Ordered>(a: Seq<T>, from: int, r: int) -> bool {
    forall|k: int, m: int| from <= k < r && k <= m < a.len() ==> a[m].rank() <= a[k].rank()
}

/// An r-permutation of `a` that agrees with `a` before place `k` holds at
/// place `k` one of the elements of `a` from position `k` on.
pub proof fn lemma_available<T>(a: Seq<T>, q: Seq<T>, r: nat, k: int)
    requires
        is_r_permutation_of(q, a, r),
        r <= a.len(),
        0 <= k < r,
        forall|i: int| 0 <= i < k ==> q[i] == a[i],
    ensures
        exists|m: int| k <= m < a.len() && a[m] == q[k],
{
    broadcast use vstd::multiset::group_multiset_axioms;

    let head = a.subrange(0, k);
    let tail = a.subrange(k, a.len() as int);
    assert(a =~= head + tail);
    vstd::seq_lib::lemma_multiset_commutative(head, tail);
    let qk = q.subrange(0, k + 1);
    let qr = q.subrange(k + 1, r as int);
    assert(q =~= qk + qr);
    vstd::seq_lib::lemma_multiset_commutative(qk, qr);
    assert(qk =~= head.push(q[k]));
    let x = q[k];
    assert(qk.to_multiset().count(x) == head.to_multiset().count(x) + 1);
    assert(q.to_multiset().count(x) >= qk.to_multiset().count(x));
    assert(a.to_multiset().count(x) >= q.to_multiset().count(x));
    assert(tail.to_multiset().count(x) > 0);
    assert(tail.contains(x));
    let m = choose|m: int| 0 <= m < tail.len() && tail[m] == x;
    assert(a[k + m] == x);
}

/// Two distinct sequences of the same length differ at a first place.
pub proof fn lemma_first_difference<T>(a: Seq<T>, b: Seq<T>) -> (k: int)
    requires
        a.len() == b.len(),
        a != b,
    ensures
        0 <= k < a.len(),
        forall|i: int| 0 <= i < k ==> a[i] == b[i],
        a[k] != b[k],
{
    if forall|i: int| 0 <= i < a.len() ==> a[i] == b[i] {
        assert(a =~= b);
    }
    let k0 = choose|i: int| 0 <= i < a.len() && a[i] != b[i];
    lemma_least_difference(a, b, k0)
}

proof fn lemma_least_difference<T>(a: Seq<T>, b: Seq<T>, k0: int) -> (k: int)
    requires
        a.len() == b.len(),
        0 <= k0 < a.len(),
        a[k0] != b[k0],
    ensures
        0 <= k <= k0,
        forall|i: int| 0 <= i < k ==> a[i] == b[i],
        a[k] != b[k],
    decreases k0,
{
    if exists|i: int| 0 <= i < k0 && a[i] != b[i] {
        let i = choose|i: int| 0 <= i < k0 && a[i] != b[i];
        lemma_least_difference(a, b, i)
    } else {
        k0
    }
}

/// With the elements from position `from` on in non-decreasing order, the
/// first `r` elements of `a` come first among the r-permutations of `a`
/// that agree with it before `from`.
pub proof fn lemma_least<T: Ordered>(a: Seq<T>, q: Seq<T>, r: nat, from: int)
    requires
        is_r_permutation_of(q, a, r),
        r <= a.len(),
        0 <= from,
        sorted_from(a, from),
        forall|i: int| 0 <= i < from && i < r ==> q[i] == a[i],
    ensures
        lex_le(a.subrange(0, r as int), q),
{
    let p = a.subrange(0, r as int);
    if p != q {
        let k = lemma_first_difference(p, q);
        lemma_available(a, q, r, k);
        let m = choose|m: int| k <= m < a.len() && a[m] == q[k];
        assert(k >= from);
        assert(a[k].rank() <= a[m].rank());
        T::rank_injective(a[k], q[k]);
        assert(p[k].rank() < q[k].rank());
        assert(forall|i: int| 0 <= i < k ==> p[i] == q[i]);
    }
}

/// With every element at a position in `from..r` at least every element
/// after it, no r-permutation of `a` that agrees with it before `from`
/// comes after its first `r` elements.
pub proof fn lemma_greatest<T: Ordered>(a: Seq<T>, q: Seq<T>, r: nat, from: int)
    requires
        is_r_permutation_of(q, a, r),
        r <= a.len(),
        0 <= from,
        dominant_from(a, from, r as int),
        forall|i: int| 0 <= i < from && i < r ==> q[i] == a[i],
    ensures
        !lex_less(a.subrange(0, r as int), q),
{
    let p = a.subrange(0, r as int);
    if lex_less(p, q) {
        let k = choose|k: int|
            0 <= k < p.len() && (forall|i: int| 0 <= i < k ==> p[i] == q[i]) && #[trigger] p[k].rank()
                < q[k].rank();
        if k < from {
            assert(q[k] == a[k]);
        } else {
            lemma_available(a, q, r, k);
            let m = choose|m: int| k <= m < a.len() && a[m] == q[k];
            assert(a[m].rank() <= a[k].rank());
        }
    }
}

/// Being an r-permutation depends only on the multiset.
pub proof fn lemma_r_permutation_same_elements<T>(q: Seq<T>, a: Seq<T>, b: Seq<T>, r: nat)
    requires
        same_elements(a, b),
    ensures
        is_r_permutation_of(q, a, r) == is_r_permutation_of(q, b, r),
{
}

/// The first branch of a step: the last of the first `r` elements is raised
/// to the least larger element after it. The result is the next
/// r-permutation, and the elements from `r` on stay in order.
pub proof fn lemma_step_raise<T: Ordered>(a: Seq<T>, b: Seq<T>, r: int, j: int)
    requires
        0 < r <= j < a.len(),
        b == a.update(r - 1, a[j]).update(j, a[r - 1]),
        a[r - 1].rank() < a[j].rank(),
        forall|m: int| r <= m < j ==> #[trigger] a[m].rank() <= a[r - 1].rank(),
        sorted_from(a, r),
    ensures
        sorted_from(b, r),
        forall|q: Seq<T>|
            is_r_permutation_of(q, a, r as nat) && lex_less(a.subrange(0, r), q) ==> #[trigger] lex_le(
                b.subrange(0, r),
                q,
            ),
{
    let n = a.len() as int;
    let p = a.subrange(0, r);
    let pb = b.subrange(0, r);
    assert forall|x: int, y: int| r <= x < y < n implies b[x].rank() <= b[y].rank() by {
        if y == j {
            assert(a[x].rank() <= a[r - 1].rank());
        } else if x == j {
            assert(a[j].rank() <= a[y].rank());
        }
    }
    assert forall|q: Seq<T>| is_r_permutation_of(q, a, r as nat) && lex_less(p, q) implies #[trigger] lex_le(
        pb,
        q,
    ) by {
        let kq = choose|kq: int|
            0 <= kq < p.len() && (forall|i: int| 0 <= i < kq ==> p[i] == q[i]) && #[trigger] p[kq].rank()
                < q[kq].rank();
        if kq < r - 1 {
            assert(forall|i: int| 0 <= i < kq ==> pb[i] == q[i]);
            assert(pb[kq].rank() < q[kq].rank());
        } else {
            lemma_available(a, q, r as nat, kq);
            let m = choose|m: int| kq <= m < a.len() && a[m] == q[kq];
            assert(m >= r);
            if m < j {
                assert(a[m].rank() <= a[r - 1].rank());
            }
            assert(a[j].rank() <= a[m].rank());
            assert(forall|i: int| 0 <= i < kq ==> pb[i] == q[i]);
            if pb[kq].rank() == q[kq].rank() {
                T::rank_injective(pb[kq], q[kq]);
                assert(pb =~= q);
            } else {
                assert(pb[kq].rank() < q[kq].rank());
            }
        }
    }
}

/// In the second branch of a step, once the elements from `r` on are
/// reversed, every element from position `j` on is at least every element
/// after it.
pub proof fn lemma_step_reversed<T: Ordered>(a: Seq<T>, a1: Seq<T>, r: int, j: int)
    requires
        0 <= j < r <= a.len(),
        a1.len() == a.len(),
        forall|k: int| 0 <= k < r ==> a1[k] == a[k],
        forall|k: int| r <= k < a.len() ==> a1[k] == a[r + a.len() - 1 - k],
        a[a.len() - 1].rank() <= a[r - 1].rank(),
        sorted_from(a, r),
        forall|x: int, y: int| j <= x < y < r ==> a1[y].rank() <= a1[x].rank(),
    ensures
        dominant_from(a1, j, a1.len() as int),
{
    let n = a.len() as int;
    assert forall|k: int, m: int| j <= k < n && k <= m < n implies a1[m].rank() <= a1[k].rank() by {
        if k < r && m >= r {
            assert(a1[r - 1].rank() <= a1[k].rank());
            assert(a[r + n - 1 - m].rank() <= a[n - 1].rank());
        } else if k >= r && m > k {
            assert(a[r + n - 1 - m].rank() <= a[r + n - 1 - k].rank());
        }
    }
}

/// The second branch of a step: the pivot at `j - 1` is raised to the least
/// larger element after it, found at `l`, and the elements from `j` on are
/// put in order. The result is the next r-permutation.
pub proof fn lemma_step_pivot<T: Ordered>(a1: Seq<T>, a3: Seq<T>, r: int, j: int, l: int)
    requires
        0 < j < r <= a1.len(),
        j <= l < a1.len(),
        dominant_from(a1, j, a1.len() as int),
        a1[j - 1].rank() < a1[l].rank(),
        forall|m: int| l < m < a1.len() ==> #[trigger] a1[m].rank() <= a1[j - 1].rank(),
        a3.len() == a1.len(),
        same_elements(a3, a1),
        forall|x: int| 0 <= x < j - 1 ==> a3[x] == a1[x],
        a3[j - 1] == a1[l],
        forall|x: int| j <= x < a1.len() ==> a3[x] == a1.update(j - 1, a1[l]).update(l, a1[j - 1])[j
            + a1.len() - 1 - x],
    ensures
        sorted_from(a3, j),
        forall|q: Seq<T>|
            is_r_permutation_of(q, a1, r as nat) && lex_less(a1.subrange(0, r), q) ==> #[trigger] lex_le(
                a3.subrange(0, r),
                q,
            ),
{
    let n = a1.len() as int;
    let a2 = a1.update(j - 1, a1[l]).update(l, a1[j - 1]);
    let p = a1.subrange(0, r);
    let b = a3.subrange(0, r);
    assert forall|x: int, y: int| j <= x < y < n implies a2[y].rank() <= a2[x].rank() by {
        if y == l {
            assert(a1[l].rank() <= a1[x].rank());
        } else if x == l {
            assert(a1[y].rank() <= a1[j - 1].rank());
        } else {
            assert(a1[y].rank() <= a1[x].rank());
        }
    }
    assert forall|x: int, y: int| j <= x < y < n implies a3[x].rank() <= a3[y].rank() by {
        assert(a3[x] == a2[j + n - 1 - x]);
        assert(a3[y] == a2[j + n - 1 - y]);
    }
    assert forall|q: Seq<T>| is_r_permutation_of(q, a1, r as nat) && lex_less(p, q) implies #[trigger] lex_le(
        b,
        q,
    ) by {
        let kq = choose|kq: int|
            0 <= kq < p.len() && (forall|i: int| 0 <= i < kq ==> p[i] == q[i]) && #[trigger] p[kq].rank()
                < q[kq].rank();
        if kq < j - 1 {
            assert(forall|i: int| 0 <= i < kq ==> b[i] == q[i]);
            assert(b[kq].rank() < q[kq].rank());
        } else if kq >= j {
            assert(forall|i: int| 0 <= i < j ==> q[i] == a1[i]);
            lemma_greatest(a1, q, r as nat, j);
        } else {
            lemma_available(a1, q, r as nat, kq);
            let m = choose|m: int| kq <= m < a1.len() && a1[m] == q[kq];
            assert(m >= j);
            if m > l {
                assert(a1[m].rank() <= a1[j - 1].rank());
            }
            assert(a1[m].rank() >= a1[l].rank());
            assert(forall|i: int| 0 <= i < kq ==> b[i] == q[i]);
            if b[kq].rank() == q[kq].rank() {
                T::rank_injective(b[kq], q[kq]);
                assert(forall|i: int| 0 <= i < j ==> q[i] == a3[i]);
                lemma_least(a3, q, r as nat, j);
            } else {
                assert(b[kq].rank() < q[kq].rank());
            }
        }
    }
}

} // verus!
