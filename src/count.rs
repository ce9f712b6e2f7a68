//! Counting rules for multisets (Brualdi, Introductory Combinatorics, 2.4).
use vstd::prelude::*;
use crate::math::count::{
    checked_range_product, fac, fact, partition_count, partitions, partitions_fit,
    pow_usize, power, range_product,
};
use crate::order::{Ordered, dedup_adjacent, dedup_spec, same, sort_in_place, sorted};

verus! {

broadcast use vstd::seq_lib::group_to_multiset_ensures;

/// An element of a multiset with its repetition number.
pub struct Elem<T> {
    freq: usize,
    item: T,
}

impl<T> Elem<T> {
    /// The repetition number.
    pub closed spec fn frequency(&self) -> nat {
        self.freq as nat
    }

    /// The element.
    pub closed spec fn value(&self) -> T {
        self.item
    }

    pub fn new(freq: usize, item: T) -> (e: Self)
        ensures
            e.frequency() == freq,
            e.value() == item,
    {
        Elem { freq, item }
    }

    pub fn freq(&self) -> (f: usize)
        ensures
            f == self.frequency(),
    {
        self.freq
    }
}

/// A plain list of elements, to be read as a multiset.
pub struct Vector<T>(pub Vec<T>);

/// How often `x` occurs in `s`.
pub open spec fn occurrences<T>(s: Seq<T>, x: T) -> int
    decreases s.len(),
{
    if s.len() == 0 {
        0
    } else {
        occurrences(s.drop_last(), x) + if s.last() == x { 1int } else { 0int }
    }
}

/// The product, over the distinct elements of `s`, of the factorial of their
/// repetition numbers: the `k`-th occurrence of each element contributes `k`.
pub open spec fn repeat_product<T>(s: Seq<T>) -> int
    decreases s.len(),
{
    if s.len() == 0 {
        1
    } else {
        repeat_product(s.drop_last()) * occurrences(s, s.last())
    }
}

/// The number of distinct arrangements of the multiset `s`:
/// `n! / (n_1! * n_2! * ... * n_k!)`.
pub open spec fn mset_permutations<T>(s: Seq<T>) -> int {
    fact(s.len()) / repeat_product(s)
}

/// An element occurs at most as often as the sequence is long.
pub proof fn lemma_occurrences_le_len<T>(s: Seq<T>, x: T)
    ensures
        0 <= occurrences(s, x) <= s.len(),
{
    lemma_occurrences_bounds(s, x);
}

proof fn lemma_occurrences_bounds<T>(s: Seq<T>, x: T)
    ensures
        0 <= occurrences(s, x) <= s.len(),
        s.len() > 0 && s.last() == x ==> occurrences(s, x) >= 1,
    decreases s.len(),
{
    if s.len() > 0 {
        lemma_occurrences_bounds(s.drop_last(), x);
    }
}

/// `1 <= repeat_product(s) <= n!`
pub proof fn lemma_repeat_product_bounds<T>(s: Seq<T>)
    ensures
        1 <= repeat_product(s) <= fact(s.len()),
    decreases s.len(),
{
    if s.len() > 0 {
        let t = s.drop_last();
        lemma_repeat_product_bounds(t);
        lemma_occurrences_bounds(s, s.last());
        let a = repeat_product(t);
        let o = occurrences(s, s.last());
        let f = fact(t.len());
        let n = s.len() as int;
        assert(fact(s.len()) == range_product(1, n - 1) * n);
        assert(1 <= a * o <= f * n) by (nonlinear_arith)
            requires
                1 <= a <= f,
                1 <= o <= n,
        ;
    }
}

/// How often `v[i]` occurs in `v[0..=i]`.
fn occurrences_upto<T: Ordered>(v: &Vec<T>, i: usize) -> (c: usize)
    requires
        i < v@.len(),
    ensures
        c == occurrences(v@.subrange(0, i + 1), v@[i as int]),
{
    let mut c: usize = 0;
    let mut j: usize = 0;
    while j <= i
        invariant
            j <= i + 1,
            i < v.len(),
            c == occurrences(v@.subrange(0, j as int), v@[i as int]),
            c <= j,
        decreases i + 1 - j,
    {
        assert(v@.subrange(0, j + 1).drop_last() =~= v@.subrange(0, j as int));
        if same(&v[j], &v[i]) {
            c = c + 1;
        }
        j = j + 1;
    }
    c
}

/// `n!`
pub fn factorial(n: usize) -> (r: usize)
    requires
        fact(n as nat) <= usize::MAX,
    ensures
        r == fact(n as nat),
{
    fac(n)
}

/// The number of distinct arrangements of the multiset `v`; `None` when
/// `n!` exceeds `usize::MAX`.
pub fn checked_permute_mset<T: Ordered>(v: &Vec<T>) -> (r: Option<usize>)
    ensures
        r is Some <==> fact(v@.len()) <= usize::MAX,
        r matches Some(c) ==> c == mset_permutations(v@),
{
    let num = match checked_range_product(1, v.len()) {
        Some(p) => p,
        None => {
            return None;
        },
    };
    let mut dom: usize = 1;
    let mut i: usize = 0;
    let n = v.len();
    while i < n
        invariant
            n == v@.len(),
            i <= n,
            num == fact(n as nat),
            num <= usize::MAX,
            dom == repeat_product(v@.subrange(0, i as int)),
        decreases n - i,
    {
        let ghost t = v@.subrange(0, i + 1);
        assert(t.drop_last() =~= v@.subrange(0, i as int));
        let o = occurrences_upto(v, i);
        proof {
            lemma_repeat_product_bounds(t);
            lemma_range_product_monotone_upto(i + 1, n as int);
        }
        dom = dom * o;
        i = i + 1;
    }
    assert(v@.subrange(0, n as int) =~= v@);
    proof {
        lemma_repeat_product_bounds(v@);
    }
    Some(num / dom)
}

proof fn lemma_range_product_monotone_upto(a: int, b: int)
    requires
        0 <= a <= b,
    ensures
        range_product(1, a) <= range_product(1, b),
{
    crate::math::count::lemma_range_product_monotone(1, a, b);
}

/// Theorem 2.4.2: the number of permutations of a multiset with repetition
/// numbers `n_1, ..., n_k` is `n! / (n_1! * ... * n_k!)`.
pub fn num_permute_mset<T: Ordered>(v: &[T]) -> (c: usize)
    requires
        fact(v@.len()) <= usize::MAX,
    ensures
        c == mset_permutations(v@),
{
    let w = crate::order::copy_of(v);
    match checked_permute_mset(&w) {
        Some(c) => c,
        None => 0,
    }
}

/// Deduplicating adjacent repeats keeps exactly the elements that occur,
/// and ends on the last element.
proof fn lemma_dedup_elements<T>(s: Seq<T>)
    ensures
        forall|x: T| #[trigger] dedup_spec(s).contains(x) <==> s.contains(x),
        s.len() > 0 ==> dedup_spec(s).len() > 0 && dedup_spec(s).last() == s.last(),
    decreases s.len(),
{
    if s.len() > 1 {
        let t = s.drop_last();
        lemma_dedup_elements(t);
        let d = dedup_spec(t);
        let l = s.last();
        assert(t.last() == s[s.len() - 2]);
        assert forall|x: T| #[trigger] dedup_spec(s).contains(x) <==> s.contains(x) by {
            assert(s.contains(x) <==> (t.contains(x) || x == l)) by {
                if s.contains(x) {
                    let i = choose|i: int| 0 <= i < s.len() && s[i] == x;
                    if i < s.len() - 1 {
                        assert(t[i] == x);
                    }
                }
                if t.contains(x) {
                    let i = choose|i: int| 0 <= i < t.len() && t[i] == x;
                    assert(s[i] == x);
                }
                assert(s[s.len() - 1] == l);
            }
            if l == s[s.len() - 2] {
                assert(dedup_spec(s) == d);
                assert(d.contains(t.last()));
            } else {
                assert(dedup_spec(s) == d.push(l));
                assert(d.push(l).contains(x) <==> (d.contains(x) || x == l)) by {
                    if d.push(l).contains(x) {
                        let i = choose|i: int| 0 <= i < d.len() + 1 && d.push(l)[i] == x;
                        if i < d.len() {
                            assert(d[i] == x);
                        }
                    }
                    if d.contains(x) {
                        let i = choose|i: int| 0 <= i < d.len() && d[i] == x;
                        assert(d.push(l)[i] == x);
                    }
                    assert(d.push(l)[d.len() as int] == l);
                }
            }
        }
        if l == s[s.len() - 2] {
            assert(dedup_spec(s) == d);
        } else {
            assert(dedup_spec(s) == d.push(l));
        }
    } else if s.len() == 1 {
        assert(dedup_spec(s) == s);
    }
}

/// In a sorted sequence, deduplicating adjacent repeats leaves every
/// element once, in strictly increasing order.
proof fn lemma_dedup_sorted<T: Ordered>(s: Seq<T>)
    requires
        sorted(s),
    ensures
        forall|i: int, j: int|
            0 <= i < j < dedup_spec(s).len() ==> dedup_spec(s)[i].rank() < dedup_spec(s)[j].rank(),
    decreases s.len(),
{
    if s.len() > 1 {
        let t = s.drop_last();
        assert(sorted(t));
        lemma_dedup_sorted(t);
        lemma_dedup_elements(t);
        if s.last() != s[s.len() - 2] {
            let d = dedup_spec(t);
            T::rank_injective(s.last(), s[s.len() - 2]);
            assert(s[s.len() - 2].rank() < s.last().rank());
            assert forall|i: int| 0 <= i < d.len() implies d[i].rank() < s.last().rank() by {
                if i < d.len() - 1 {
                    assert(d[i].rank() < d[d.len() - 1].rank());
                }
            }
            let e = d.push(s.last());
            assert(dedup_spec(s) == e);
            assert forall|i: int, j: int| 0 <= i < j < e.len() implies e[i].rank() < e[j].rank() by {
                if j == e.len() - 1 {
                    assert(e[i] == d[i]);
                }
            }
        }
    }
}

/// The number of distinct elements of `s`.
pub open spec fn distinct_count<T>(s: Seq<T>) -> nat {
    s.to_set().len()
}

/// Theorem 2.4.1: with `k` types, each with infinite repetition, there are
/// `k^r` r-permutations; the types are the distinct elements of `v`.
pub fn num_r_perm_inf_rep<T: Ordered>(r: u32, v: &[T]) -> (c: usize)
    requires
        power(distinct_count(v@) as int, r as nat) <= usize::MAX,
    ensures
        c == power(distinct_count(v@) as int, r as nat),
{
    let mut w = crate::order::copy_of(v);
    sort_in_place(&mut w);
    let d = dedup_adjacent(&w);
    proof {
        lemma_dedup_sorted(w@);
        lemma_dedup_elements(w@);
        assert(d@.no_duplicates()) by {
            assert forall|i: int, j: int| 0 <= i < d@.len() && 0 <= j < d@.len() && i != j implies d@[i]
                != d@[j] by {
                if i < j {
                    assert(d@[i].rank() < d@[j].rank());
                } else {
                    assert(d@[j].rank() < d@[i].rank());
                }
            }
        }
        d@.unique_seq_to_set();
        assert(d@.to_set() =~= v@.to_set()) by {
            assert forall|x: T| d@.to_set().contains(x) <==> v@.to_set().contains(x) by {
                assert(w@.contains(x) <==> w@.to_multiset().count(x) > 0);
                assert(v@.contains(x) <==> v@.to_multiset().count(x) > 0);
            }
        }
    }
    pow_usize(d.len(), r as u64)
}

/// Theorem 2.4.3: the number of ways to partition the `n` objects of `v`
/// into boxes holding `n_1, ..., n_k` objects is `n! / (n_1! * ... * n_k!)`
/// for labeled boxes, and that divided by `k!` for unlabeled ones.
pub fn num_into_boxes<T>(v: &[T], boxes: &[usize], labeled: bool) -> (c: usize)
    requires
        partitions_fit(v@.len(), boxes@, labeled),
    ensures
        c == partitions(v@.len(), boxes@, labeled),
{
    partition_count(v, boxes, labeled)
}

/// Some entry of `m` has the key `c`.
pub open spec fn has_key<K, V>(m: Seq<(K, V)>, c: K) -> bool {
    exists|i: int| 0 <= i < m.len() && #[trigger] m[i].0 == c
}

/// No two entries of `m` have the same key.
pub open spec fn keys_unique<K, V>(m: Seq<(K, V)>) -> bool {
    forall|i: int, j: int| 0 <= i < m.len() && 0 <= j < m.len() && i != j ==> m[i].0 != m[j].0
}

/// The sum of the counts of `m`.
pub open spec fn count_sum<K>(m: Seq<(K, usize)>) -> int
    decreases m.len(),
{
    if m.len() == 0 {
        0
    } else {
        count_sum(m.drop_last()) + m.last().1
    }
}

proof fn lemma_count_sum_update<K>(m: Seq<(K, usize)>, k: int, e: (K, usize))
    requires
        0 <= k < m.len(),
    ensures
        count_sum(m.update(k, e)) == count_sum(m) - m[k].1 + e.1,
    decreases m.len(),
{
    if k < m.len() - 1 {
        lemma_count_sum_update(m.drop_last(), k, e);
        assert(m.update(k, e).drop_last() =~= m.drop_last().update(k, e));
    } else {
        assert(m.update(k, e).drop_last() =~= m.drop_last());
    }
}

proof fn lemma_occurrences_contains<T>(s: Seq<T>, c: T)
    requires
        occurrences(s, c) > 0,
    ensures
        s.contains(c),
    decreases s.len(),
{
    if s.last() != c {
        lemma_occurrences_contains(s.drop_last(), c);
        let i = choose|i: int| 0 <= i < s.drop_last().len() && s.drop_last()[i] == c;
        assert(s[i] == c);
    } else {
        assert(s[s.len() - 1] == c);
    }
}

/// How often each element occurs in `v`, one entry per distinct element, in
/// the order of first occurrence.
pub fn tally<T: Ordered>(v: &Vec<T>) -> (m: Vec<(T, usize)>)
    ensures
        keys_unique(m@),
        forall|i: int| 0 <= i < m@.len() ==> m@[i].1 == occurrences(v@, #[trigger] m@[i].0),
        forall|c: T| v@.contains(c) ==> has_key(m@, c),
        count_sum(m@) == v@.len(),
        v@.len() <= usize::MAX,
{
    let mut out: Vec<(T, usize)> = Vec::new();
    let mut i: usize = 0;
    while i < v.len()
        invariant
            i <= v@.len(),
            keys_unique(out@),
            forall|k: int|
                0 <= k < out@.len() ==> out@[k].1 == occurrences(
                    v@.subrange(0, i as int),
                    #[trigger] out@[k].0,
                ),
            forall|c: T| v@.subrange(0, i as int).contains(c) ==> has_key(out@, c),
            count_sum(out@) == i,
        decreases v@.len() - i,
    {
        let c = v[i];
        let ghost p = v@.subrange(0, i as int);
        let ghost q = v@.subrange(0, i + 1);
        assert(q.drop_last() =~= p);
        assert(q.last() == c);
        let mut k: usize = 0;
        while k < out.len() && !same(&out[k].0, &c)
            invariant
                k <= out@.len(),
                forall|j: int| 0 <= j < k ==> out@[j].0 != c,
            decreases out@.len() - k,
        {
            k = k + 1;
        }
        let ghost before = out@;
        if k < out.len() {
            let (key, cnt) = out[k];
            proof {
                lemma_count_sum_update(before, k as int, (key, (cnt + 1) as usize));
                assert(cnt == occurrences(p, c));
                assert(cnt <= i) by {
                    lemma_occurrences_le_len(p, c);
                }
            }
            out.set(k, (key, cnt + 1));
            assert(key == before[k as int].0);
            assert(forall|j: int| 0 <= j < before.len() ==> #[trigger] out@[j].0 == before[j].0);
        } else {
            proof {
                if occurrences(p, c) > 0 {
                    lemma_occurrences_contains(p, c);
                }
            }
            out.push((c, 1));
            assert(out@.drop_last() =~= before);
            assert(forall|j: int| 0 <= j < before.len() ==> #[trigger] out@[j].0 == before[j].0);
        }
        proof {
            assert forall|j: int| 0 <= j < out@.len() implies out@[j].1 == occurrences(
                q,
                #[trigger] out@[j].0,
            ) by {
                assert(occurrences(q, out@[j].0) == occurrences(p, out@[j].0) + if c == out@[j].0 {
                    1int
                } else {
                    0int
                });
                if j < before.len() && j != k {
                    assert(out@[j] == before[j]);
                    if k < before.len() {
                        assert(before[j].0 != before[k as int].0);
                    }
                    assert(before[j].0 != c);
                    assert(out@[j].1 == occurrences(q, out@[j].0));
                } else if j == k && k < before.len() {
                    assert(out@[j].0 == c);
                    assert(out@[j].1 == occurrences(p, c) + 1);
                    assert(out@[j].1 == occurrences(q, out@[j].0));
                } else {
                    assert(j == before.len());
                    assert(out@[j] == (c, 1usize));
                    lemma_occurrences_le_len(p, c);
                    if occurrences(p, c) > 0 {
                        assert(has_key(before, c));
                        let m = choose|m: int| 0 <= m < before.len() && #[trigger] before[m].0 == c;
                        assert(before[m].0 != c);
                    }
                    assert(out@[j].1 == occurrences(q, out@[j].0));
                }
            }
            assert forall|x: T| q.contains(x) implies has_key(out@, x) by {
                if x != c {
                    let j = choose|j: int| 0 <= j < q.len() && q[j] == x;
                    assert(p[j] == x);
                    assert(p.contains(x));
                    assert(has_key(before, x));
                    let m = choose|m: int| 0 <= m < before.len() && #[trigger] before[m].0 == x;
                    assert(out@[m].0 == x);
                } else {
                    assert(out@[k as int].0 == c);
                }
            }
        }
        i = i + 1;
    }
    assert(v@.subrange(0, i as int) =~= v@);
    out
}

impl<T: Ordered> Vector<T> {
    /// The multiset read from the list: one entry per distinct element, in
    /// the order of first occurrence, with the number of times it occurs.
    pub fn into_multiset(self) -> (m: Vec<Elem<T>>)
        ensures
            forall|i: int, j: int|
                0 <= i < m@.len() && 0 <= j < m@.len() && i != j ==> m@[i].value() != m@[j].value(),
            forall|i: int|
                0 <= i < m@.len() ==> #[trigger] m@[i].frequency() == occurrences(self.0@, m@[i].value()),
            forall|x: T| self.0@.contains(x) ==> exists|i: int| 0 <= i < m@.len() && #[trigger] m@[i].value() == x,
    {
        let counts = tally(&self.0);
        let mut m: Vec<Elem<T>> = Vec::new();
        let mut i: usize = 0;
        while i < counts.len()
            invariant
                i <= counts@.len(),
                m@.len() == i,
                forall|k: int| 0 <= k < i ==> #[trigger] m@[k].value() == counts@[k].0 && m@[k].frequency() == counts@[k].1,
            decreases counts@.len() - i,
        {
            let (x, f) = counts[i];
            m.push(Elem::new(f, x));
            i = i + 1;
        }
        proof {
            assert forall|x: T| self.0@.contains(x) implies exists|i: int| 0 <= i < m@.len() && #[trigger] m@[i].value() == x by {
                let k = choose|k: int| 0 <= k < counts@.len() && #[trigger] counts@[k].0 == x;
                assert(m@[k].value() == x);
            }
        }
        m
    }
}

} // verus!
