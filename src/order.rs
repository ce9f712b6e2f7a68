//! Totally ordered element types, and the in-place operations on vectors of
//! them that the generators share: swapping, reversing a range, sorting.
use vstd::prelude::*;

verus! {

broadcast use vstd::seq_lib::group_to_multiset_ensures;

/// An element type whose order is given by an integer rank.
///
/// Distinct values have distinct ranks, so comparing ranks is a total order
/// on the values themselves.
pub trait Ordered: Copy + Sized {
    /// The position of the value in the order of the type.
    spec fn rank(&self) -> int;

    /// Values of equal rank are equal.
    proof fn rank_injective(a: Self, b: Self)
        ensures
            a.rank() == b.rank() ==> a == b,
    ;

    fn less_eq(&self, other: &Self) -> (r: bool)
        ensures
            r == (self.rank() <= other.rank()),
    ;

    fn less(&self, other: &Self) -> (r: bool)
        ensures
            r == (self.rank() < other.rank()),
    ;
}

impl Ordered for i32 {
    open spec fn rank(&self) -> int {
        *self as int
    }

    proof fn rank_injective(a: Self, b: Self) {
    }

    fn less_eq(&self, other: &Self) -> (r: bool) {
        *self <= *other
    }

    fn less(&self, other: &Self) -> (r: bool) {
        *self < *other
    }
}

impl Ordered for i64 {
    open spec fn rank(&self) -> int {
        *self as int
    }

    proof fn rank_injective(a: Self, b: Self) {
    }

    fn less_eq(&self, other: &Self) -> (r: bool) {
        *self <= *other
    }

    fn less(&self, other: &Self) -> (r: bool) {
        *self < *other
    }
}

impl Ordered for u8 {
    open spec fn rank(&self) -> int {
        *self as int
    }

    proof fn rank_injective(a: Self, b: Self) {
    }

    fn less_eq(&self, other: &Self) -> (r: bool) {
        *self <= *other
    }

    fn less(&self, other: &Self) -> (r: bool) {
        *self < *other
    }
}

impl Ordered for u32 {
    open spec fn rank(&self) -> int {
        *self as int
    }

    proof fn rank_injective(a: Self, b: Self) {
    }

    fn less_eq(&self, other: &Self) -> (r: bool) {
        *self <= *other
    }

    fn less(&self, other: &Self) -> (r: bool) {
        *self < *other
    }
}

impl Ordered for u64 {
    open spec fn rank(&self) -> int {
        *self as int
    }

    proof fn rank_injective(a: Self, b: Self) {
    }

    fn less_eq(&self, other: &Self) -> (r: bool) {
        *self <= *other
    }

    fn less(&self, other: &Self) -> (r: bool) {
        *self < *other
    }
}

impl Ordered for usize {
    open spec fn rank(&self) -> int {
        *self as int
    }

    proof fn rank_injective(a: Self, b: Self) {
    }

    fn less_eq(&self, other: &Self) -> (r: bool) {
        *self <= *other
    }

    fn less(&self, other: &Self) -> (r: bool) {
        *self < *other
    }
}

impl Ordered for char {
    open spec fn rank(&self) -> int {
        (*self as u32) as int
    }

    proof fn rank_injective(a: Self, b: Self) {
        vstd::utf8::char_u32_cast(a, a as u32);
        vstd::utf8::char_u32_cast(b, b as u32);
    }

    fn less_eq(&self, other: &Self) -> (r: bool) {
        (*self as u32) <= (*other as u32)
    }

    fn less(&self, other: &Self) -> (r: bool) {
        (*self as u32) < (*other as u32)
    }
}

/// `s` is in non-decreasing order.
pub open spec fn sorted<T: Ordered>(s: Seq<T>) -> bool {
    forall|i: int, j: int| 0 <= i < j < s.len() ==> s[i].rank() <= s[j].rank()
}

/// `s` is in non-increasing order.
pub open spec fn non_increasing<T: Ordered>(s: Seq<T>) -> bool {
    forall|i: int, j: int| 0 <= i < j < s.len() ==> s[j].rank() <= s[i].rank()
}

/// `a` comes strictly before `b` in lexicographic order; both have the same length.
pub open spec fn lex_less<T: Ordered>(a: Seq<T>, b: Seq<T>) -> bool {
    &&& a.len() == b.len()
    &&& exists|k: int|
        0 <= k < a.len() && (forall|i: int| 0 <= i < k ==> a[i] == b[i]) && #[trigger] a[k].rank()
            < b[k].rank()
}

/// `a` and `b` hold the same elements, each as often.
pub open spec fn same_elements<T>(a: Seq<T>, b: Seq<T>) -> bool {
    a.to_multiset() == b.to_multiset()
}

/// Swapping two positions keeps the elements.
pub proof fn lemma_swap_same_elements<T>(s: Seq<T>, i: int, j: int)
    requires
        0 <= i < s.len(),
        0 <= j < s.len(),
    ensures
        same_elements(s.update(i, s[j]).update(j, s[i]), s),
{
    broadcast use vstd::multiset::group_multiset_axioms;

    let t = s.update(i, s[j]);
    assert(t.to_multiset() == s.to_multiset().insert(s[j]).remove(s[i]));
    assert(t[j] == s[j] || i == j);
    if i == j {
        assert(s.update(i, s[j]).update(j, s[i]) =~= s);
    } else {
        assert(t.update(j, s[i]).to_multiset() == t.to_multiset().insert(s[i]).remove(t[j]));
        assert(t.update(j, s[i]).to_multiset() =~= s.to_multiset());
    }
}

/// Exchanges the elements at positions `i` and `j`.
pub fn swap_at<T: Copy>(v: &mut Vec<T>, i: usize, j: usize)
    requires
        i < old(v).len(),
        j < old(v).len(),
    ensures
        final(v)@ == old(v)@.update(i as int, old(v)@[j as int]).update(j as int, old(v)@[i as int]),
        same_elements(final(v)@, old(v)@),
{
    proof {
        lemma_swap_same_elements(v@, i as int, j as int);
    }
    let a = v[i];
    let b = v[j];
    v[i] = b;
    v[j] = a;
}

/// Reverses the elements at positions `lo..hi`, leaving the others in place.
pub fn reverse_range<T: Copy>(v: &mut Vec<T>, lo: usize, hi: usize)
    requires
        lo <= hi <= old(v).len(),
    ensures
        final(v)@.len() == old(v)@.len(),
        forall|k: int| 0 <= k < lo ==> final(v)@[k] == old(v)@[k],
        forall|k: int| hi <= k < old(v)@.len() ==> final(v)@[k] == old(v)@[k],
        forall|k: int| lo <= k < hi ==> final(v)@[k] == old(v)@[lo + hi - 1 - k],
        same_elements(final(v)@, old(v)@),
{
    let ghost start = v@;
    let mut i: usize = lo;
    let mut j: usize = hi;
    while i < j && j - i > 1
        invariant
            lo <= i <= j <= hi,
            i - lo == hi - j,
            hi <= start.len(),
            v@.len() == start.len(),
            forall|k: int| 0 <= k < i ==> k < lo ==> v@[k] == start[k],
            forall|k: int| j <= k < start.len() ==> k >= hi ==> v@[k] == start[k],
            forall|k: int| lo <= k < i ==> v@[k] == start[lo + hi - 1 - k],
            forall|k: int| j <= k < hi ==> v@[k] == start[lo + hi - 1 - k],
            forall|k: int| i <= k < j ==> v@[k] == start[k],
            forall|k: int| 0 <= k < lo ==> v@[k] == start[k],
            same_elements(v@, start),
        decreases j - i,
    {
        swap_at(v, i, j - 1);
        i = i + 1;
        j = j - 1;
    }
}

/// Sorts `v` in non-decreasing order, in place (insertion sort).
pub fn sort_in_place<T: Ordered>(v: &mut Vec<T>)
    ensures
        final(v)@.len() == old(v)@.len(),
        sorted(final(v)@),
        same_elements(final(v)@, old(v)@),
{
    let ghost start = v@;
    let n = v.len();
    let mut i: usize = 1;
    if n == 0 {
        return;
    }
    while i < n
        invariant
            1 <= i <= n,
            n == v@.len(),
            sorted(v@.subrange(0, i as int)),
            same_elements(v@, start),
        decreases n - i,
    {
        let mut j: usize = i;
        assert forall|a: int, b: int| 0 <= a < b < i implies v@[a].rank() <= v@[b].rank() by {
            assert(v@.subrange(0, i as int)[a] == v@[a]);
            assert(v@.subrange(0, i as int)[b] == v@[b]);
        }
        while j > 0 && v[j].less(&v[j - 1])
            invariant
                0 <= j <= i < n,
                n == v@.len(),
                same_elements(v@, start),
                // the block 0..=i without position j is sorted
                forall|a: int, b: int|
                    0 <= a < b <= i && a != j && b != j ==> v@[a].rank() <= v@[b].rank(),
                // the element at j is below everything after it in the block
                forall|b: int| j < b <= i ==> v@[j as int].rank() < v@[b].rank(),
            decreases j,
        {
            swap_at(v, j - 1, j);
            j = j - 1;
        }
        proof {
            assert forall|a: int, b: int| 0 <= a < b <= i implies v@[a].rank() <= v@[b].rank() by {
                if b == j && a < j - 1 {
                    assert(v@[a].rank() <= v@[j - 1].rank());
                }
            }
            assert(sorted(v@.subrange(0, i + 1)));
        }
        i = i + 1;
    }
    assert(v@.subrange(0, n as int) =~= v@);
}

/// Whether `a` and `b` are the same value.
pub fn same<T: Ordered>(a: &T, b: &T) -> (r: bool)
    ensures
        r == (*a == *b),
{
    proof {
        T::rank_injective(*a, *b);
    }
    !a.less(b) && !b.less(a)
}

/// A copy of the first `r` elements of `v`.
pub fn prefix<T: Copy>(v: &Vec<T>, r: usize) -> (p: Vec<T>)
    requires
        r <= v@.len(),
    ensures
        p@ == v@.subrange(0, r as int),
{
    let mut p: Vec<T> = Vec::new();
    let mut i: usize = 0;
    while i < r
        invariant
            i <= r <= v@.len(),
            p@ == v@.subrange(0, i as int),
        decreases r - i,
    {
        p.push(v[i]);
        i = i + 1;
        assert(p@ =~= v@.subrange(0, i as int));
    }
    p
}

/// `s` with each run of equal adjacent elements kept once.
pub open spec fn dedup_spec<T>(s: Seq<T>) -> Seq<T>
    decreases s.len(),
{
    if s.len() <= 1 {
        s
    } else if s.last() == s[s.len() - 2] {
        dedup_spec(s.drop_last())
    } else {
        dedup_spec(s.drop_last()).push(s.last())
    }
}

/// `v` with each run of equal adjacent elements kept once.
pub fn dedup_adjacent<T: Ordered>(v: &Vec<T>) -> (r: Vec<T>)
    ensures
        r@ == dedup_spec(v@),
{
    let mut r: Vec<T> = Vec::new();
    let n = v.len();
    let mut i: usize = 0;
    while i < n
        invariant
            i <= n == v@.len(),
            r@ == dedup_spec(v@.subrange(0, i as int)),
        decreases n - i,
    {
        let ghost before = v@.subrange(0, i as int);
        let ghost after = v@.subrange(0, i + 1);
        assert(after.drop_last() =~= before);
        if i == 0 || !same(&v[i], &v[i - 1]) {
            r.push(v[i]);
        }
        i = i + 1;
        proof {
            if i == 1 {
                assert(r@ =~= after);
            }
        }
    }
    assert(v@.subrange(0, n as int) =~= v@);
    r
}

/// A copy of the slice `s` in a new vector.
pub fn copy_of<T: Copy>(s: &[T]) -> (v: Vec<T>)
    ensures
        v@ == s@,
{
    let mut v: Vec<T> = Vec::new();
    let n = s.len();
    let mut i: usize = 0;
    while i < n
        invariant
            i <= n == s@.len(),
            v@ == s@.subrange(0, i as int),
        decreases n - i,
    {
        v.push(s[i]);
        i = i + 1;
        assert(v@ =~= s@.subrange(0, i as int));
    }
    assert(s@.subrange(0, n as int) =~= s@);
    v
}

} // verus!
