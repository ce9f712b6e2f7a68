//! Lexicographic generation of r-permutations (Knuth, TAOCP 7.2.1.2,
//! Algorithm L adapted to r-subsets), shared by the generators of the crate.
use vstd::prelude::*;
use crate::math::count::{falling, power};
use crate::permute::tally::{lemma_r_permutations_count, r_permutations};
use crate::permute::complete::{
    lemma_greatest, lemma_least, lemma_r_permutation_same_elements, lemma_step_pivot, lemma_step_raise,
    lemma_step_reversed, lex_le, sorted_from,
};
use crate::order::{
    Ordered, lex_less, non_increasing, prefix, same_elements, sort_in_place, sorted, swap_at,
    reverse_range,
};

pub mod complete;
pub mod lex;
pub mod tally;

verus! {

broadcast use vstd::seq_lib::group_to_multiset_ensures;

/// Moves `v` to the next arrangement whose first `r` elements come later in
/// lexicographic order. Returns `false`, having only reordered positions `r..`,
/// when the first `r` elements are already in non-increasing order.
///
/// When the elements from position `r` on are in non-decreasing order, as
/// the generator keeps them, the step is exact: the new first `r` elements
/// are the next r-permutation of the multiset in lexicographic order, and
/// `false` means that there is none.
pub fn lex_step<T: Ordered>(v: &mut Vec<T>, r: usize) -> (advanced: bool)
    requires
        0 < r <= old(v)@.len(),
    ensures
        final(v)@.len() == old(v)@.len(),
        same_elements(final(v)@, old(v)@),
        advanced ==> lex_less(old(v)@.subrange(0, r as int), final(v)@.subrange(0, r as int)),
        !advanced ==> final(v)@.subrange(0, r as int) == old(v)@.subrange(0, r as int),
        !advanced ==> non_increasing(final(v)@.subrange(0, r as int)),
        sorted_from(old(v)@, r as int) && advanced ==> sorted_from(final(v)@, r as int),
        sorted_from(old(v)@, r as int) && advanced ==> forall|q: Seq<T>|
            is_r_permutation_of(q, old(v)@, r as nat) && lex_less(
                old(v)@.subrange(0, r as int),
                q,
            ) ==> #[trigger] lex_le(final(v)@.subrange(0, r as int), q),
        sorted_from(old(v)@, r as int) && !advanced ==> forall|q: Seq<T>|
            is_r_permutation_of(q, old(v)@, r as nat) ==> !#[trigger] lex_less(
                old(v)@.subrange(0, r as int),
                q,
            ),
{
    let ghost a = v@;
    let n = v.len();
    let ghost p = a.subrange(0, r as int);
    if v[r - 1].less(&v[n - 1]) {
        let mut j: usize = r;
        while v[j].less_eq(&v[r - 1])
            invariant
                0 < r <= j < n,
                n == v@.len(),
                v@ == a,
                v@[r - 1].rank() < v@[n - 1].rank(),
                forall|m: int| r <= m < j ==> #[trigger] a[m].rank() <= a[r - 1].rank(),
            decreases n - j,
        {
            j = j + 1;
        }
        swap_at(v, r - 1, j);
        proof {
            let b = v@.subrange(0, r as int);
            let k = r - 1;
            assert(forall|i: int| 0 <= i < k ==> p[i] == b[i]);
            assert(p[k].rank() < b[k].rank());
            if sorted_from(a, r as int) {
                lemma_step_raise(a, v@, r as int, j as int);
            }
        }
        true
    } else {
        reverse_range(v, r, n);
        let ghost a1 = v@;
        assert(a1.subrange(0, r as int) =~= p);
        let mut j: usize = r - 1;
        while j > 0 && !v[j - 1].less(&v[j])
            invariant
                j < r <= n,
                v@ == a1,
                a1.len() == n,
                forall|x: int, y: int| j <= x < y < r ==> v@[y].rank() <= v@[x].rank(),
            decreases j,
        {
            j = j - 1;
        }
        proof {
            if sorted_from(a, r as int) {
                lemma_step_reversed(a, a1, r as int, j as int);
            }
        }
        if j == 0 {
            proof {
                if sorted_from(a, r as int) {
                    assert forall|q: Seq<T>| is_r_permutation_of(q, a, r as nat) implies !#[trigger] lex_less(
                        p,
                        q,
                    ) by {
                        lemma_r_permutation_same_elements(q, a, a1, r as nat);
                        lemma_greatest(a1, q, r as nat, 0);
                    }
                }
            }
            return false;
        }
        let mut l: usize = n - 1;
        while !v[j - 1].less(&v[l])
            invariant
                0 < j < r <= n,
                j <= l < n,
                v@ == a1,
                a1.len() == n,
                v@[j - 1].rank() < v@[j as int].rank(),
                forall|m: int| l < m < n ==> #[trigger] a1[m].rank() <= a1[j - 1].rank(),
            decreases l,
        {
            l = l - 1;
        }
        swap_at(v, j - 1, l);
        let ghost a2 = v@;
        reverse_range(v, j, n);
        proof {
            let b = v@.subrange(0, r as int);
            let k = j - 1;
            assert(forall|i: int| 0 <= i < k ==> p[i] == b[i]);
            assert(p[k].rank() < b[k].rank());
            if sorted_from(a, r as int) {
                lemma_step_pivot(a1, v@, r as int, j as int, l as int);
                assert(sorted_from(v@, r as int));
            }
        }
        true
    }
}

/// One pull from a lexicographic r-permutation generator whose working array
/// goes from `m0` to `m1`, whose flags go from `(started0, done0)` to
/// `(started1, done1)`, and which returns `res`:
/// - with `r == 0`, `r > n` or `n == 0`, or once done, nothing changes and
///   the result is `None`;
/// - the first pull sorts the array and returns its first `r` elements, the
///   least r-permutation of the multiset;
/// - each later pull either returns the first `r` elements of a reordering
///   of the array that come strictly later in lexicographic order, or, when
///   the first `r` elements are already in non-increasing order, returns
///   `None` and marks the generator done.
/// While the elements from position `r` on are in non-decreasing order, as
/// the generator leaves them, each pull returns the very next r-permutation,
/// and `None` only when no r-permutation comes later. The array always keeps
/// its elements.
pub open spec fn lex_next_spec<T: Ordered>(
    r: nat,
    m0: Seq<T>,
    started0: bool,
    done0: bool,
    m1: Seq<T>,
    started1: bool,
    done1: bool,
    res: Option<Vec<T>>,
) -> bool {
    &&& same_elements(m1, m0)
    &&& m1.len() == m0.len()
    &&& (!(0 < r <= m0.len()) || done0) ==> res is None && m1 == m0 && started1 == started0
        && done1 == done0
    &&& (0 < r <= m0.len() && !done0 && !started0) ==> {
        &&& sorted(m1)
        &&& started1 && !done1
        &&& res matches Some(p) && p@ == m1.subrange(0, r as int)
        &&& forall|q: Seq<T>| is_r_permutation_of(q, m0, r) ==> #[trigger] lex_le(
            m1.subrange(0, r as int),
            q,
        )
    }
    &&& (0 < r <= m0.len() && !done0 && started0) ==> {
        &&& started1
        &&& (res matches Some(p) ==> {
            &&& p@ == m1.subrange(0, r as int)
            &&& lex_less(m0.subrange(0, r as int), m1.subrange(0, r as int))
            &&& !done1
        })
        &&& (res is None ==> done1 && non_increasing(m0.subrange(0, r as int)))
        &&& sorted_from(m0, r as int) && res is Some ==> sorted_from(m1, r as int)
        &&& sorted_from(m0, r as int) && res is Some ==> forall|q: Seq<T>|
            is_r_permutation_of(q, m0, r) && lex_less(m0.subrange(0, r as int), q)
                ==> #[trigger] lex_le(m1.subrange(0, r as int), q)
        &&& sorted_from(m0, r as int) && res is None ==> forall|q: Seq<T>|
            is_r_permutation_of(q, m0, r) ==> !#[trigger] lex_less(m0.subrange(0, r as int), q)
    }
    &&& (0 < r <= m0.len() && !done0 && (!started0 || sorted_from(m0, r as int))) ==> {
        &&& (res matches Some(p) ==> {
            &&& pulls_left(r, m0, started0, done0).contains(p@)
            &&& pulls_left(r, m1, started1, done1) == pulls_left(r, m0, started0, done0).remove(p@)
            &&& sorted_from(m1, r as int)
        })
        &&& (res is None ==> pulls_left(r, m0, started0, done0) == Set::<Seq<T>>::empty())
    }
}

/// The r-permutations that a lexicographic generator in state
/// `(m, started, done)` has yet to return: none once done or when `r` is
/// out of range, all of them before the first pull, and afterwards those
/// after the first `r` elements of the working array.
pub open spec fn pulls_left<T: Ordered>(r: nat, m: Seq<T>, started: bool, done: bool) -> Set<
    Seq<T>,
> {
    if !(0 < r <= m.len()) || done {
        Set::empty()
    } else if !started {
        r_permutations(m, r)
    } else {
        r_permutations(m, r).filter(|q: Seq<T>| lex_less(m.subrange(0, r as int), q))
    }
}

/// Over `n` pairwise distinct elements, what a generator has yet to return
/// is finite, and a fresh generator for `1 <= r <= n` has `n! / (n - r)!`
/// r-permutations to return. Each pull that returns a result takes exactly
/// that result out of it, and a pull returns `None` only once it is empty
/// (see [`lex_next_spec`]), so a fresh generator returns exactly
/// `n! / (n - r)!` results before its first `None`.
pub proof fn lemma_pulls_left_count<T: Ordered>(
    r: nat,
    m: Seq<T>,
    started: bool,
    done: bool,
    elems: Seq<T>,
)
    requires
        same_elements(m, elems),
        elems.no_duplicates(),
    ensures
        pulls_left(r, m, started, done).finite(),
        0 < r <= m.len() && !started && !done ==> pulls_left(r, m, started, done).len() == falling(
            elems.len(),
            r,
        ),
{
    lemma_r_permutations_count(elems, r);
    assert(r_permutations(m, r) =~= r_permutations(elems, r));
    assert(m.len() == elems.len()) by {
        assert(m.to_multiset().len() == elems.to_multiset().len());
    }
    assert(pulls_left(r, m, started, done).subset_of(r_permutations(elems, r)));
    vstd::set_lib::lemma_set_subset_finite(r_permutations(elems, r), pulls_left(r, m, started, done));
}

/// One pull from a lexicographic r-permutation generator; see [`lex_next_spec`].
pub fn lex_next<T: Ordered>(
    mset: &mut Vec<T>,
    r: usize,
    started: &mut bool,
    done: &mut bool,
) -> (res: Option<Vec<T>>)
    ensures
        lex_next_spec(
            r as nat,
            old(mset)@,
            *old(started),
            *old(done),
            final(mset)@,
            *final(started),
            *final(done),
            res,
        ),
{
    let n = mset.len();
    if n == 0 || r == 0 || r > n || *done {
        return None;
    }
    if !*started {
        let ghost m0 = mset@;
        sort_in_place(mset);
        *started = true;
        proof {
            let m1 = mset@;
            let p = m1.subrange(0, r as int);
            assert(sorted_from(m1, 0));
            assert(sorted_from(m1, r as int));
            assert forall|q: Seq<T>| is_r_permutation_of(q, m0, r as nat) implies #[trigger] lex_le(
                p,
                q,
            ) by {
                lemma_least(m1, q, r as nat, 0);
            }
            lemma_prefix_is_r_permutation(m1, m0, r as nat);
            assert(pulls_left(r as nat, m1, true, false) =~= pulls_left(
                r as nat,
                m0,
                false,
                false,
            ).remove(p)) by {
                assert forall|q: Seq<T>| #[trigger] pulls_left(r as nat, m1, true, false).contains(q)
                    <==> pulls_left(r as nat, m0, false, false).remove(p).contains(q) by {
                    if is_r_permutation_of(q, m0, r as nat) {
                        assert(lex_le(p, q));
                    }
                }
            }
        }
        return Some(prefix(mset, r));
    }
    let ghost m0 = mset@;
    if lex_step(mset, r) {
        proof {
            let m1 = mset@;
            let p0 = m0.subrange(0, r as int);
            let p = m1.subrange(0, r as int);
            if sorted_from(m0, r as int) {
                lemma_prefix_is_r_permutation(m1, m0, r as nat);
                assert(pulls_left(r as nat, m1, true, false) =~= pulls_left(
                    r as nat,
                    m0,
                    true,
                    false,
                ).remove(p)) by {
                    assert forall|q: Seq<T>| #[trigger] pulls_left(r as nat, m1, true, false).contains(
                        q,
                    ) <==> pulls_left(r as nat, m0, true, false).remove(p).contains(q) by {
                        if is_r_permutation_of(q, m0, r as nat) {
                            if lex_less(p, q) {
                                lemma_lex_less_transitive(p0, p, q);
                            }
                            if lex_less(p0, q) && q != p {
                                assert(lex_le(p, q));
                            }
                        }
                    }
                }
            }
        }
        Some(prefix(mset, r))
    } else {
        *done = true;
        proof {
            if sorted_from(m0, r as int) {
                assert(pulls_left(r as nat, m0, true, false) =~= Set::<Seq<T>>::empty());
            }
        }
        None
    }
}

/// `p` is an r-permutation of the multiset `elems`: `r` of its elements,
/// each taken at most as often as it occurs there, in some order.
pub open spec fn is_r_permutation_of<T>(p: Seq<T>, elems: Seq<T>, r: nat) -> bool {
    p.len() == r && p.to_multiset().subset_of(elems.to_multiset())
}

/// The first `r` elements of a reordering of `elems` form an r-permutation of it.
pub proof fn lemma_prefix_is_r_permutation<T>(s: Seq<T>, elems: Seq<T>, r: nat)
    requires
        same_elements(s, elems),
        r <= s.len(),
    ensures
        is_r_permutation_of(s.subrange(0, r as int), elems, r),
{
    broadcast use vstd::multiset::group_multiset_axioms;

    let a = s.subrange(0, r as int);
    let b = s.subrange(r as int, s.len() as int);
    assert(a + b =~= s);
    vstd::seq_lib::lemma_multiset_commutative(a, b);
}

/// The ranks of `s`, less `lo`, read as the digits of a number in base
/// `base`, the first digit the most significant.
pub open spec fn encode<T: Ordered>(s: Seq<T>, lo: int, base: int) -> int
    decreases s.len(),
{
    if s.len() == 0 {
        0
    } else {
        (s[0].rank() - lo) * power(base, (s.len() - 1) as nat) + encode(s.drop_first(), lo, base)
    }
}

/// Every rank in `s` lies in `lo..lo + base`.
pub open spec fn ranks_within<T: Ordered>(s: Seq<T>, lo: int, base: int) -> bool {
    forall|i: int| 0 <= i < s.len() ==> lo <= #[trigger] s[i].rank() < lo + base
}

proof fn lemma_power_positive(b: int, e: nat)
    requires
        b >= 1,
    ensures
        power(b, e) >= 1,
    decreases e,
{
    if e > 0 {
        lemma_power_positive(b, (e - 1) as nat);
        assert(power(b, (e - 1) as nat) * b >= 1) by (nonlinear_arith)
            requires
                power(b, (e - 1) as nat) >= 1,
                b >= 1,
        ;
    }
}

/// An encoding has as many digits as the sequence has elements.
pub proof fn lemma_encode_bounds<T: Ordered>(s: Seq<T>, lo: int, base: int)
    requires
        base >= 1,
        ranks_within(s, lo, base),
    ensures
        0 <= encode(s, lo, base) < power(base, s.len()),
    decreases s.len(),
{
    if s.len() > 0 {
        let t = s.drop_first();
        assert(ranks_within(t, lo, base)) by {
            assert forall|i: int| 0 <= i < t.len() implies lo <= #[trigger] t[i].rank() < lo
                + base by {
                assert(t[i] == s[i + 1]);
            }
        }
        lemma_encode_bounds(t, lo, base);
        lemma_power_positive(base, t.len());
        let d = s[0].rank() - lo;
        let p = power(base, t.len());
        let e = encode(t, lo, base);
        assert(s.len() - 1 == t.len());
        assert(power(base, s.len()) == p * base);
        assert(0 <= d * p + e < p * base) by (nonlinear_arith)
            requires
                0 <= d < base,
                0 <= e < p,
                p >= 1,
        ;
    }
}

/// A sequence that comes later in lexicographic order has a larger encoding.
pub proof fn lemma_encode_lex<T: Ordered>(a: Seq<T>, b: Seq<T>, lo: int, base: int)
    requires
        base >= 1,
        ranks_within(a, lo, base),
        ranks_within(b, lo, base),
        lex_less(a, b),
    ensures
        encode(a, lo, base) < encode(b, lo, base),
    decreases a.len(),
{
    let k = choose|k: int|
        0 <= k < a.len() && (forall|i: int| 0 <= i < k ==> a[i] == b[i]) && #[trigger] a[k].rank()
            < b[k].rank();
    let ta = a.drop_first();
    let tb = b.drop_first();
    assert(ranks_within(ta, lo, base)) by {
        assert forall|i: int| 0 <= i < ta.len() implies lo <= #[trigger] ta[i].rank() < lo
            + base by {
            assert(ta[i] == a[i + 1]);
        }
    }
    assert(ranks_within(tb, lo, base)) by {
        assert forall|i: int| 0 <= i < tb.len() implies lo <= #[trigger] tb[i].rank() < lo
            + base by {
            assert(tb[i] == b[i + 1]);
        }
    }
    let p = power(base, ta.len());
    if k == 0 {
        lemma_encode_bounds(ta, lo, base);
        lemma_encode_bounds(tb, lo, base);
        let da = a[0].rank() - lo;
        let db = b[0].rank() - lo;
        let ea = encode(ta, lo, base);
        let eb = encode(tb, lo, base);
        assert(da * p + ea < db * p + eb) by (nonlinear_arith)
            requires
                da < db,
                0 <= ea < p,
                0 <= eb,
        ;
    } else {
        assert(a[0] == b[0]);
        assert(lex_less(ta, tb)) by {
            assert(forall|i: int| 0 <= i < k - 1 ==> ta[i] == tb[i]);
            assert(ta[k - 1].rank() < tb[k - 1].rank());
        }
        lemma_encode_lex(ta, tb, lo, base);
    }
}

/// The largest absolute rank in `s`.
pub open spec fn rank_bound<T: Ordered>(s: Seq<T>) -> int
    decreases s.len(),
{
    if s.len() == 0 {
        0
    } else {
        let m = rank_bound(s.drop_last());
        let x = if s.last().rank() < 0 { -s.last().rank() } else { s.last().rank() };
        if x > m { x } else { m }
    }
}

/// Every rank of `s` lies in `-b..=b` for `b = rank_bound(s)`.
pub proof fn lemma_rank_bound<T: Ordered>(s: Seq<T>)
    ensures
        rank_bound(s) >= 0,
        ranks_within(s, -rank_bound(s), 2 * rank_bound(s) + 1),
    decreases s.len(),
{
    if s.len() > 0 {
        lemma_rank_bound(s.drop_last());
        assert forall|i: int| 0 <= i < s.len() implies -rank_bound(s) <= #[trigger] s[i].rank()
            < -rank_bound(s) + 2 * rank_bound(s) + 1 by {
            if i < s.len() - 1 {
                assert(s[i] == s.drop_last()[i]);
            }
        }
    }
}

/// A reordering keeps the ranks within the same bounds.
pub proof fn lemma_same_elements_within<T: Ordered>(a: Seq<T>, b: Seq<T>, lo: int, base: int)
    requires
        same_elements(a, b),
        ranks_within(b, lo, base),
    ensures
        ranks_within(a, lo, base),
{
    assert forall|i: int| 0 <= i < a.len() implies lo <= #[trigger] a[i].rank() < lo + base by {
        assert(a.contains(a[i]));
        assert(a.to_multiset().count(a[i]) > 0);
        assert(b.contains(a[i]));
        let j = choose|j: int| 0 <= j < b.len() && b[j] == a[i];
        assert(lo <= b[j].rank() < lo + base);
    }
}

/// The views of a vector of vectors.
pub open spec fn views<T>(out: Seq<Vec<T>>) -> Seq<Seq<T>> {
    out.map_values(|p: Vec<T>| p@)
}

/// The first `r` elements of `elems` in sorted order.
pub open spec fn is_least_r_permutation<T: Ordered>(p: Seq<T>, elems: Seq<T>, r: nat) -> bool {
    exists|s: Seq<T>| #[trigger] sorted(s) && same_elements(s, elems) && p == s.subrange(0, r as int)
}

/// `out` is what the lexicographic generator lists for `r` and the multiset
/// `elems`: r-permutations of `elems`, starting from the first `r` elements
/// in sorted order, which come first of all, each next one strictly after
/// the one before in lexicographic order with no r-permutation between
/// them, and ending on one in non-increasing order that none comes after.
pub open spec fn lex_enumeration<T: Ordered>(out: Seq<Seq<T>>, elems: Seq<T>, r: nat) -> bool {
    &&& out.len() >= 1
    &&& is_least_r_permutation(out[0], elems, r)
    &&& forall|q: Seq<T>| is_r_permutation_of(q, elems, r) ==> #[trigger] lex_le(out[0], q)
    &&& forall|i: int, q: Seq<T>|
        0 <= i < out.len() - 1 && is_r_permutation_of(q, elems, r) && #[trigger] lex_less(out[i], q)
            ==> lex_le(out[i + 1], q)
    &&& forall|q: Seq<T>| is_r_permutation_of(q, elems, r) ==> !#[trigger] lex_less(out.last(), q)
    &&& forall|i: int| 0 <= i < out.len() ==> is_r_permutation_of(#[trigger] out[i], elems, r)
    &&& forall|i: int| 0 <= i < out.len() - 1 ==> lex_less(#[trigger] out[i], out[i + 1])
    &&& non_increasing(out.last())
}

/// Lists every r-permutation that the lexicographic generator reaches from
/// `v`, sorting `v` first.
pub fn generate_all<T: Ordered>(v: &mut Vec<T>, r: usize) -> (out: Vec<Vec<T>>)
    requires
        0 < r <= old(v)@.len(),
    ensures
        same_elements(final(v)@, old(v)@),
        lex_enumeration(views(out@), old(v)@, r as nat),
{
    let ghost start = v@;
    let ghost bound = rank_bound(start);
    let ghost lo = -bound;
    let ghost base = 2 * bound + 1;
    proof {
        lemma_rank_bound(start);
    }
    sort_in_place(v);
    let mut out: Vec<Vec<T>> = Vec::new();
    let first = prefix(v, r);
    proof {
        lemma_prefix_is_r_permutation(v@, start, r as nat);
        assert(sorted(v@) && same_elements(v@, start) && first@ == v@.subrange(0, r as int));
        assert(sorted_from(v@, 0));
        assert forall|q: Seq<T>| is_r_permutation_of(q, start, r as nat) implies #[trigger] lex_le(
            first@,
            q,
        ) by {
            lemma_least(v@, q, r as nat, 0);
        }
    }
    out.push(first);
    loop
        invariant
            start == old(v)@,
            0 < r <= v@.len(),
            v@.len() == start.len(),
            same_elements(v@, start),
            base >= 1,
            ranks_within(start, lo, base),
            out@.len() >= 1,
            is_least_r_permutation(out@[0]@, start, r as nat),
            forall|q: Seq<T>| is_r_permutation_of(q, start, r as nat) ==> #[trigger] lex_le(out@[0]@, q),
            sorted_from(v@, r as int),
            forall|i: int, q: Seq<T>|
                0 <= i < out@.len() - 1 && is_r_permutation_of(q, start, r as nat) && #[trigger] lex_less(
                    out@[i]@,
                    q,
                ) ==> lex_le(out@[i + 1]@, q),
            out@.last()@ == v@.subrange(0, r as int),
            forall|i: int| 0 <= i < out@.len() ==> is_r_permutation_of(#[trigger] out@[i]@, start, r as nat),
            forall|i: int| 0 <= i < out@.len() - 1 ==> lex_less(#[trigger] out@[i]@, out@[i + 1]@),
        decreases power(base, r as nat) - encode(v@.subrange(0, r as int), lo, base),
    {
        let ghost before = v@;
        proof {
            lemma_same_elements_within(v@, start, lo, base);
        }
        if !lex_step(v, r) {
            proof {
                assert(views(out@).last() == out@.last()@);
                assert forall|i: int| 0 <= i < views(out@).len() implies is_r_permutation_of(
                    #[trigger] views(out@)[i],
                    start,
                    r as nat,
                ) by {
                    assert(views(out@)[i] == out@[i]@);
                }
                assert forall|i: int| 0 <= i < views(out@).len() - 1 implies lex_less(
                    #[trigger] views(out@)[i],
                    views(out@)[i + 1],
                ) by {
                    assert(views(out@)[i] == out@[i]@);
                    assert(views(out@)[i + 1] == out@[i + 1]@);
                }
                assert(views(out@)[0] == out@[0]@);
                assert forall|i: int, q: Seq<T>|
                    0 <= i < views(out@).len() - 1 && is_r_permutation_of(q, start, r as nat)
                        && #[trigger] lex_less(views(out@)[i], q) implies lex_le(
                    views(out@)[i + 1],
                    q,
                ) by {
                    assert(views(out@)[i] == out@[i]@);
                    assert(views(out@)[i + 1] == out@[i + 1]@);
                }
            }
            return out;
        }
        let next = prefix(v, r);
        let ghost old_out = out@;
        proof {
            lemma_prefix_is_r_permutation(v@, start, r as nat);
            lemma_same_elements_within(v@, start, lo, base);
            let a = before.subrange(0, r as int);
            let b = v@.subrange(0, r as int);
            assert(ranks_within(a, lo, base)) by {
                assert forall|i: int| 0 <= i < a.len() implies lo <= #[trigger] a[i].rank() < lo
                    + base by {
                    assert(a[i] == before[i]);
                }
            }
            assert(ranks_within(b, lo, base)) by {
                assert forall|i: int| 0 <= i < b.len() implies lo <= #[trigger] b[i].rank() < lo
                    + base by {
                    assert(b[i] == v@[i]);
                }
            }
            lemma_encode_lex(a, b, lo, base);
            lemma_encode_bounds(b, lo, base);
        }
        out.push(next);
        proof {
            assert forall|i: int, q: Seq<T>|
                0 <= i < out@.len() - 1 && is_r_permutation_of(q, start, r as nat) && #[trigger] lex_less(
                    out@[i]@,
                    q,
                ) implies lex_le(out@[i + 1]@, q) by {
                if i < old_out.len() - 1 {
                    assert(out@[i] == old_out[i]);
                    assert(out@[i + 1] == old_out[i + 1]);
                } else {
                    assert(out@[i] == old_out.last());
                }
            }
        }
    }
}

/// What the lexicographic generator lists for `r` and a multiset is exactly
/// the set of its r-permutations, each listed once.
pub proof fn lemma_enumeration_exact<T: Ordered>(out: Seq<Seq<T>>, elems: Seq<T>, r: nat)
    requires
        lex_enumeration(out, elems, r),
    ensures
        forall|q: Seq<T>| #[trigger] out.contains(q) <==> is_r_permutation_of(q, elems, r),
        forall|i: int, j: int| 0 <= i < j < out.len() ==> #[trigger] out[i] != #[trigger] out[j],
{
    lemma_enumeration_distinct(out, elems, r);
    assert forall|q: Seq<T>| #[trigger] out.contains(q) <==> is_r_permutation_of(q, elems, r) by {
        if is_r_permutation_of(q, elems, r) {
            lemma_enumeration_complete(out, elems, r, q);
        }
        if out.contains(q) {
            let i = choose|i: int| 0 <= i < out.len() && out[i] == q;
            assert(is_r_permutation_of(out[i], elems, r));
        }
    }
}

/// For `n` pairwise distinct elements, the lexicographic generator lists
/// exactly `n! / (n - r)!` r-permutations.
pub proof fn lemma_enumeration_count<T: Ordered>(out: Seq<Seq<T>>, elems: Seq<T>, r: nat)
    requires
        lex_enumeration(out, elems, r),
        elems.no_duplicates(),
    ensures
        out.len() == falling(elems.len(), r),
{
    lemma_enumeration_exact(out, elems, r);
    lemma_r_permutations_count(elems, r);
    assert(out.no_duplicates()) by {
        assert forall|i: int, j: int| 0 <= i < out.len() && 0 <= j < out.len() && i != j implies out[i]
            != out[j] by {
            if i < j {
                assert(out[i] != out[j]);
            } else {
                assert(out[j] != out[i]);
            }
        }
    }
    out.unique_seq_to_set();
    assert(out.to_set() =~= r_permutations(elems, r)) by {
        assert forall|q: Seq<T>| out.to_set().contains(q) <==> r_permutations(elems, r).contains(q) by {
            assert(out.to_set().contains(q) <==> out.contains(q));
        }
    }
}

/// What the lexicographic generator lists for `r` and a multiset misses
/// none of its r-permutations.
pub proof fn lemma_enumeration_complete<T: Ordered>(out: Seq<Seq<T>>, elems: Seq<T>, r: nat, q: Seq<T>)
    requires
        lex_enumeration(out, elems, r),
        is_r_permutation_of(q, elems, r),
    ensures
        out.contains(q),
{
    lemma_enumeration_reaches(out, elems, r, q, 0);
}

proof fn lemma_enumeration_reaches<T: Ordered>(
    out: Seq<Seq<T>>,
    elems: Seq<T>,
    r: nat,
    q: Seq<T>,
    i: int,
)
    requires
        lex_enumeration(out, elems, r),
        is_r_permutation_of(q, elems, r),
        0 <= i < out.len(),
        lex_le(out[i], q),
    ensures
        out.contains(q),
    decreases out.len() - i,
{
    if out[i] == q {
    } else if i == out.len() - 1 {
        assert(lex_less(out.last(), q));
    } else {
        assert(lex_less(out[i], q));
        assert(lex_le(out[i + 1], q));
        lemma_enumeration_reaches(out, elems, r, q, i + 1);
    }
}

/// Lexicographic order is transitive.
pub proof fn lemma_lex_less_transitive<T: Ordered>(a: Seq<T>, b: Seq<T>, c: Seq<T>)
    requires
        lex_less(a, b),
        lex_less(b, c),
    ensures
        lex_less(a, c),
{
    let k1 = choose|k: int|
        0 <= k < a.len() && (forall|i: int| 0 <= i < k ==> a[i] == b[i]) && #[trigger] a[k].rank()
            < b[k].rank();
    let k2 = choose|k: int|
        0 <= k < b.len() && (forall|i: int| 0 <= i < k ==> b[i] == c[i]) && #[trigger] b[k].rank()
            < c[k].rank();
    let k = if k1 < k2 { k1 } else { k2 };
    assert(forall|i: int| 0 <= i < k ==> a[i] == c[i]);
    if k1 > k2 {
        assert(a[k] == b[k]);
    } else if k1 < k2 {
        assert(b[k] == c[k]);
    }
    assert(a[k].rank() < c[k].rank());
}

/// What the lexicographic generator lists for `r` and a multiset has no
/// repeats: every result is an r-permutation of the multiset, and any two
/// results at different places differ, the later one coming after the
/// earlier in lexicographic order.
pub proof fn lemma_enumeration_distinct<T: Ordered>(out: Seq<Seq<T>>, elems: Seq<T>, r: nat)
    requires
        lex_enumeration(out, elems, r),
    ensures
        forall|i: int| 0 <= i < out.len() ==> is_r_permutation_of(#[trigger] out[i], elems, r),
        forall|i: int, j: int|
            0 <= i < j < out.len() ==> lex_less(out[i], out[j]) && #[trigger] out[i] != #[trigger] out[j],
{
    assert forall|i: int, j: int| 0 <= i < j < out.len() implies lex_less(out[i], out[j]) && #[trigger] out[i] != #[trigger] out[j] by {
        lemma_enumeration_chain(out, elems, r, i, j);
        let k = choose|k: int|
            0 <= k < out[i].len() && (forall|x: int| 0 <= x < k ==> out[i][x] == out[j][x]) && #[trigger] out[i][k].rank()
                < out[j][k].rank();
        assert(out[i][k] != out[j][k]);
    }
}

proof fn lemma_enumeration_chain<T: Ordered>(out: Seq<Seq<T>>, elems: Seq<T>, r: nat, i: int, j: int)
    requires
        lex_enumeration(out, elems, r),
        0 <= i < j < out.len(),
    ensures
        lex_less(out[i], out[j]),
    decreases j - i,
{
    if j == i + 1 {
        assert(lex_less(out[i], out[i + 1]));
    } else {
        lemma_enumeration_chain(out, elems, r, i, j - 1);
        assert(lex_less(out[j - 1], out[j]));
        lemma_lex_less_transitive(out[i], out[j - 1], out[j]);
    }
}

} // verus!
