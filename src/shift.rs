//! Index transforms: a permutation of the positions `0..n`, applied to any
//! data of length `n`.
use vstd::prelude::*;
use crate::order::swap_at;
use crate::random::random_below;
use crate::cycles::{
    lemma_identity_cycles, lemma_last_cycle, lemma_no_fixed_point_on_cycle, lemma_sattolo_step,
    sattolo_cycles, single_cycle,
};

verus! {

/// Every entry of `t` is below its length, and no entry occurs twice.
pub open spec fn is_index_permutation(t: Seq<usize>) -> bool {
    &&& forall|i: int| 0 <= i < t.len() ==> t[i] < t.len()
    &&& forall|i: int, j: int| 0 <= i < t.len() && 0 <= j < t.len() && i != j ==> t[i] != t[j]
}

/// The sequence whose position `i` holds `d[t[i]]`.
pub open spec fn apply_spec<T>(d: Seq<T>, t: Seq<usize>) -> Seq<T> {
    Seq::new(t.len(), |i: int| d[t[i] as int])
}

/// The identity transform of length `n`.
pub open spec fn identity_spec(n: nat) -> Seq<usize> {
    Seq::new(n, |i: int| i as usize)
}

/// `u` undoes `t`: it sends each `t[i]` back to `i`.
pub open spec fn is_inverse(t: Seq<usize>, u: Seq<usize>) -> bool {
    &&& u.len() == t.len()
    &&& forall|i: int| 0 <= i < t.len() ==> u[t[i] as int] == i
}

/// An index permutation reaches every position.
pub proof fn lemma_index_permutation_onto(t: Seq<usize>, k: int)
    requires
        is_index_permutation(t),
        0 <= k < t.len(),
    ensures
        exists|i: int| 0 <= i < t.len() && t[i] == k,
{
    let n = t.len() as int;
    let ti = Seq::new(t.len(), |i: int| t[i] as int);
    assert(ti.no_duplicates());
    ti.unique_seq_to_set();
    vstd::set_lib::lemma_int_range(0, n);
    let range = vstd::set_lib::set_int_range(0, n);
    assert(ti.to_set().subset_of(range));
    vstd::set_lib::lemma_subset_equality(ti.to_set(), range);
    assert(range.contains(k));
    assert(ti.to_set().contains(k));
    let i = choose|i: int| 0 <= i < ti.len() && ti[i] == k;
    assert(t[i] == k);
}

/// Swapping two entries of an index permutation gives an index permutation.
pub proof fn lemma_swap_index_permutation(t: Seq<usize>, i: int, j: int)
    requires
        is_index_permutation(t),
        0 <= i < t.len(),
        0 <= j < t.len(),
    ensures
        is_index_permutation(t.update(i, t[j]).update(j, t[i])),
{
    let s = t.update(i, t[j]).update(j, t[i]);
    assert forall|a: int, b: int|
        0 <= a < s.len() && 0 <= b < s.len() && a != b implies s[a] != s[b] by {
        let pa = if a == j { i } else if a == i { j } else { a };
        let pb = if b == j { i } else if b == i { j } else { b };
        assert(s[a] == t[pa]);
        assert(s[b] == t[pb]);
    }
}

/// Round trip: for a valid transform `t`, data `d` of the same length and the
/// inverse `u` of `t`, applying `t` and then `u` gives back `d`.
pub proof fn lemma_apply_then_inverse<T>(d: Seq<T>, t: Seq<usize>, u: Seq<usize>)
    requires
        is_index_permutation(t),
        d.len() == t.len(),
        is_inverse(t, u),
    ensures
        apply_spec(apply_spec(d, t), u) == d,
{
    let e = apply_spec(d, t);
    assert forall|k: int| 0 <= k < d.len() implies apply_spec(e, u)[k] == d[k] by {
        lemma_index_permutation_onto(t, k);
        let i = choose|i: int| 0 <= i < t.len() && t[i] == k;
        assert(u[k] == i);
    }
    assert(apply_spec(e, u) =~= d);
}

/// An explicit permutation of the positions `0..n`.
pub struct Transform(pub Vec<usize>);

impl View for Transform {
    type V = Seq<usize>;

    open spec fn view(&self) -> Seq<usize> {
        self.0@
    }
}

impl Transform {
    /// The identity transform `[0, 1, ..., len - 1]`.
    pub fn new(len: usize) -> (r: Self)
        ensures
            r@ == identity_spec(len as nat),
    {
        Transform(identity(len))
    }

    /// Whether every entry is below the length and no entry occurs twice.
    pub fn is_valid(&self) -> (r: bool)
        ensures
            r == is_index_permutation(self@),
    {
        is_permutation_of_indices(&self.0)
    }

    /// The transform that undoes this one.
    pub fn inverse(&self) -> (r: Self)
        requires
            is_index_permutation(self@),
        ensures
            is_inverse(self@, r@),
            is_index_permutation(r@),
    {
        let n = self.0.len();
        let mut u: Vec<usize> = identity(n);
        let mut i: usize = 0;
        while i < n
            invariant
                n == self@.len(),
                is_index_permutation(self@),
                u@.len() == n,
                i <= n,
                forall|a: int| 0 <= a < i ==> u@[self@[a] as int] == a,
            decreases n - i,
        {
            let k = self.0[i];
            u[k] = i;
            i = i + 1;
        }
        proof {
            assert forall|k: int| 0 <= k < n implies u@[k] < n by {
                lemma_index_permutation_onto(self@, k);
            }
            assert forall|a: int, b: int|
                0 <= a < n && 0 <= b < n && a != b implies u@[a] != u@[b] by {
                lemma_index_permutation_onto(self@, a);
                lemma_index_permutation_onto(self@, b);
            }
        }
        Transform(u)
    }
}

/// The vector `[0, 1, ..., len - 1]`.
pub fn identity(len: usize) -> (r: Vec<usize>)
    ensures
        r@ == identity_spec(len as nat),
        is_index_permutation(r@),
{
    let mut r: Vec<usize> = Vec::new();
    let mut i: usize = 0;
    while i < len
        invariant
            i <= len,
            r@ == identity_spec(i as nat),
        decreases len - i,
    {
        r.push(i);
        i = i + 1;
        assert(r@ =~= identity_spec(i as nat));
    }
    r
}

/// Whether `t` is a permutation of `0..t.len()`.
pub fn is_permutation_of_indices(t: &Vec<usize>) -> (r: bool)
    ensures
        r == is_index_permutation(t@),
{
    let n = t.len();
    let mut i: usize = 0;
    while i < n
        invariant
            n == t@.len(),
            i <= n,
            forall|a: int| 0 <= a < i ==> t@[a] < n,
            forall|a: int, b: int| 0 <= a < i && 0 <= b < n && a != b ==> t@[a] != t@[b],
        decreases n - i,
    {
        if t[i] >= n {
            return false;
        }
        let mut j: usize = 0;
        while j < n
            invariant
                n == t@.len(),
                i < n,
                j <= n,
                forall|b: int| 0 <= b < j && b != i ==> t@[i as int] != t@[b],
            decreases n - j,
        {
            if j != i && t[j] == t[i] {
                return false;
            }
            j = j + 1;
        }
        i = i + 1;
    }
    true
}

/// Applies the index permutation `t` to `v`: position `i` of the result holds
/// `v[t[i]]`. `None` when the lengths differ or `t` is not a valid transform.
pub fn shift<T: Copy>(v: Vec<T>, t: Transform) -> (r: Option<Vec<T>>)
    ensures
        r is Some <==> (v@.len() == t@.len() && is_index_permutation(t@)),
        r matches Some(w) ==> w@ == apply_spec(v@, t@),
{
    if v.len() != t.0.len() || !t.is_valid() {
        None
    } else {
        Some(apply_transform(&v, &t.0))
    }
}

/// The data `v` reordered by the valid transform `t`.
pub fn apply_transform<T: Copy>(v: &Vec<T>, t: &Vec<usize>) -> (r: Vec<T>)
    requires
        v@.len() == t@.len(),
        is_index_permutation(t@),
    ensures
        r@ == apply_spec(v@, t@),
{
    let mut r: Vec<T> = Vec::new();
    let n = t.len();
    let mut i: usize = 0;
    while i < n
        invariant
            n == t@.len(),
            v@.len() == n,
            is_index_permutation(t@),
            i <= n,
            r@ == apply_spec(v@, t@.subrange(0, i as int)),
        decreases n - i,
    {
        r.push(v[t[i]]);
        i = i + 1;
        assert(r@ =~= apply_spec(v@, t@.subrange(0, i as int)));
    }
    assert(t@.subrange(0, n as int) =~= t@);
    r
}

/// A random permutation of `0..len` by the in-place shuffle of the index
/// vector: each position from the last down to 1 is swapped with a position
/// drawn strictly below it (Sattolo's variant of Fisher–Yates), so that for
/// two or more positions no index stays in place.
pub fn algo_p(len: usize) -> (r: Vec<usize>)
    ensures
        r@.len() == len,
        is_index_permutation(r@),
        len >= 1 ==> single_cycle(r@),
        len >= 2 ==> forall|i: int| 0 <= i < len ==> #[trigger] r@[i] != i,
{
    let mut state = identity(len);
    if len == 0 {
        return state;
    }
    proof {
        lemma_identity_cycles(state@);
    }
    let mut counter: usize = len - 1;
    while counter > 0
        invariant
            state@.len() == len,
            counter < len,
            is_index_permutation(state@),
            sattolo_cycles(state@, counter + 1),
        decreases counter,
    {
        let j = random_below(counter);
        proof {
            lemma_swap_index_permutation(state@, counter as int, j as int);
            lemma_sattolo_step(state@, counter + 1, j as int);
        }
        swap_at(&mut state, counter, j);
        counter = counter - 1;
    }
    proof {
        lemma_last_cycle(state@);
        if len >= 2 {
            assert forall|i: int| 0 <= i < len implies #[trigger] state@[i] != i by {
                lemma_no_fixed_point_on_cycle(state@, i);
            }
        }
    }
    state
}

} // verus!
