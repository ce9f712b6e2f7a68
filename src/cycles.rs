//! Cycles of index permutations, and why Sattolo's shuffle leaves one cycle.
use vstd::prelude::*;
use crate::shift::is_index_permutation;

verus! {

/// Where `k` steps of `s` lead from `x`.
pub open spec fn follow(s: Seq<usize>, x: int, k: nat) -> int
    decreases k,
{
    if k == 0 {
        x
    } else {
        s[follow(s, x, (k - 1) as nat)] as int
    }
}

/// Following `s` from `x` comes back to `x` after `len` steps, passing only
/// positions at or above `c` on the way.
pub open spec fn closes_above(s: Seq<usize>, x: int, c: int, len: nat) -> bool {
    &&& len >= 1
    &&& follow(s, x, len) == x
    &&& forall|k: nat| 0 < k < len ==> #[trigger] follow(s, x, k) >= c
}

/// `x` lies on a cycle as in `closes_above`.
pub open spec fn has_cycle_above(s: Seq<usize>, x: int, c: int) -> bool {
    exists|len: nat| #[trigger] closes_above(s, x, c, len)
}

/// `y` lies on the cycle of some `x` below `c`, as in `closes_above`.
pub open spec fn on_low_cycle(s: Seq<usize>, y: int, c: int) -> bool {
    exists|x: int, len: nat, k: nat|
        #![trigger closes_above(s, x, c, len), follow(s, x, k)]
        0 <= x < c && closes_above(s, x, c, len) && 0 < k < len && follow(s, x, k) == y
}

/// The cycle structure that Sattolo's shuffle keeps at counter `c`: each
/// position below `c` lies on its own cycle, which passes otherwise only
/// through positions at or above `c`, and every position at or above `c`
/// lies on one of those cycles. So the permutation has exactly `c` cycles:
/// after `k` steps over `n` positions, `n - k`.
pub open spec fn sattolo_cycles(s: Seq<usize>, c: int) -> bool {
    &&& forall|x: int| 0 <= x < c ==> #[trigger] has_cycle_above(s, x, c)
    &&& forall|y: int| c <= y < s.len() ==> #[trigger] on_low_cycle(s, y, c)
}

/// `s` is one cycle through all positions: following it from `0` reaches
/// every position.
pub open spec fn single_cycle(s: Seq<usize>) -> bool {
    forall|y: int| 0 <= y < s.len() ==> #[trigger] reaches(s, 0, y)
}

/// Following `s` from `x` leads to `y` after some number of steps.
pub open spec fn reaches(s: Seq<usize>, x: int, y: int) -> bool {
    exists|k: nat| #[trigger] follow(s, x, k) == y
}

/// Following `a + b` steps is following `a` steps, then `b`.
pub proof fn lemma_follow_add(s: Seq<usize>, x: int, a: nat, b: nat)
    ensures
        follow(s, x, a + b) == follow(s, follow(s, x, a), b),
    decreases b,
{
    if b > 0 {
        lemma_follow_add(s, x, a, (b - 1) as nat);
        assert((a + b - 1) as nat == a + (b - 1) as nat);
    }
}

/// Following stays among the positions of an index permutation.
pub proof fn lemma_follow_in_range(s: Seq<usize>, x: int, k: nat)
    requires
        is_index_permutation(s),
        0 <= x < s.len(),
    ensures
        0 <= follow(s, x, k) < s.len(),
    decreases k,
{
    if k > 0 {
        lemma_follow_in_range(s, x, (k - 1) as nat);
    }
}

/// The identity leaves every position on its own cycle.
pub proof fn lemma_identity_cycles(s: Seq<usize>)
    requires
        forall|i: int| 0 <= i < s.len() ==> s[i] == i,
    ensures
        sattolo_cycles(s, s.len() as int),
{
    assert forall|x: int| 0 <= x < s.len() implies #[trigger] has_cycle_above(
        s,
        x,
        s.len() as int,
    ) by {
        assert(follow(s, x, 0) == x);
        assert(follow(s, x, 1) == s[x] as int);
        assert(closes_above(s, x, s.len() as int, 1));
    }
}

/// Two permutations that agree on the positions visited give the same walk.
proof fn lemma_follow_agree(s: Seq<usize>, t: Seq<usize>, x: int, k: nat)
    requires
        s.len() == t.len(),
        forall|i: nat| i < k ==> s[#[trigger] follow(s, x, i)] == t[follow(s, x, i)],
    ensures
        follow(s, x, k) == follow(t, x, k),
    decreases k,
{
    if k > 0 {
        lemma_follow_agree(s, t, x, (k - 1) as nat);
        assert(s[follow(s, x, (k - 1) as nat)] == t[follow(s, x, (k - 1) as nat)]);
    }
}

/// At counter `c` with one cycle per position below `c`, only position `0`
/// is left: its cycle holds every position.
pub proof fn lemma_last_cycle(s: Seq<usize>)
    requires
        s.len() >= 1,
        sattolo_cycles(s, 1),
    ensures
        single_cycle(s),
{
    assert forall|y: int| 0 <= y < s.len() implies #[trigger] reaches(s, 0, y) by {
        if y == 0 {
            assert(follow(s, 0, 0) == 0);
        } else {
            assert(on_low_cycle(s, y, 1));
            let (x, len, k) = choose|x: int, len: nat, k: nat|
                #![trigger closes_above(s, x, 1, len), follow(s, x, k)]
                0 <= x < 1 && closes_above(s, x, 1, len) && 0 < k < len && follow(s, x, k) == y;
            assert(x == 0);
            assert(follow(s, 0, k) == y);
        }
    }
}

/// A cycle as in `closes_above`, from a position below `c`, has one length:
/// the first return.
proof fn lemma_cycle_length_unique(s: Seq<usize>, x: int, c: int, l1: nat, l2: nat)
    requires
        x < c,
        closes_above(s, x, c, l1),
        closes_above(s, x, c, l2),
    ensures
        l1 == l2,
{
    if l1 < l2 {
        assert(follow(s, x, l1) >= c);
    } else if l2 < l1 {
        assert(follow(s, x, l2) >= c);
    }
}

/// A walk that avoids positions `d` and `j` is the same under `s` and under
/// `t`, which differ from `s` only there.
proof fn lemma_walk_avoiding(s: Seq<usize>, t: Seq<usize>, d: int, j: int, x: int, m: nat)
    requires
        is_index_permutation(s),
        t.len() == s.len(),
        0 <= x < s.len(),
        forall|p: int| 0 <= p < s.len() && p != d && p != j ==> t[p] == s[p],
        forall|i: nat| i < m ==> #[trigger] follow(s, x, i) != d && follow(s, x, i) != j,
    ensures
        follow(t, x, m) == follow(s, x, m),
{
    assert forall|i: nat| i < m implies s[#[trigger] follow(s, x, i)] == t[follow(s, x, i)] by {
        lemma_follow_in_range(s, x, i);
    }
    lemma_follow_agree(s, t, x, m);
}

/// One step of Sattolo's shuffle at counter `c`: the positions `c - 1` and
/// `j < c - 1` exchange their entries. The cycles of `c - 1` and `j` merge,
/// and the structure holds at counter `c - 1`.
pub proof fn lemma_sattolo_step(s: Seq<usize>, c: int, j: int)
    requires
        is_index_permutation(s),
        2 <= c <= s.len(),
        0 <= j < c - 1,
        sattolo_cycles(s, c),
    ensures
        sattolo_cycles(s.update(c - 1, s[j]).update(j, s[c - 1]), c - 1),
{
    let d = c - 1;
    let t = s.update(d, s[j]).update(j, s[d]);
    let n = s.len() as int;
    assert(forall|p: int| 0 <= p < n && p != d && p != j ==> t[p] == s[p]);
    assert(has_cycle_above(s, d, c));
    assert(has_cycle_above(s, j, c));
    let ld = choose|len: nat| #[trigger] closes_above(s, d, c, len);
    let lj = choose|len: nat| #[trigger] closes_above(s, j, c, len);
    // the walk from j under t: first the old cycle of d, then the old cycle of j
    assert forall|k: nat| 1 <= k <= ld implies #[trigger] follow(t, j, k) == follow(s, d, k) by {
        let m = (k - 1) as nat;
        lemma_follow_add(t, j, 1, m);
        lemma_follow_add(s, d, 1, m);
        assert(follow(t, j, 0) == j);
        assert(follow(s, d, 0) == d);
        assert(follow(t, j, 1) == t[j] as int);
        assert(follow(s, d, 1) == s[d] as int);
        let start = s[d] as int;
        assert forall|i: nat| i < m implies #[trigger] follow(s, start, i) != d && follow(s, start, i)
            != j by {
            lemma_follow_add(s, d, 1, i);
            assert(follow(s, d, 1 + i) >= c);
        }
        lemma_walk_avoiding(s, t, d, j, start, m);
    }
    assert forall|k: nat| 1 <= k <= lj implies #[trigger] follow(t, j, ld + k) == follow(s, j, k) by {
        let m = (k - 1) as nat;
        lemma_follow_add(t, j, ld + 1, m);
        lemma_follow_add(s, j, 1, m);
        assert(follow(t, j, ld) == d);
        assert(follow(t, j, ld + 1) == t[d] as int);
        assert(follow(s, j, 0) == j);
        assert(follow(s, j, 1) == s[j] as int);
        let start = s[j] as int;
        assert forall|i: nat| i < m implies #[trigger] follow(s, start, i) != d && follow(s, start, i)
            != j by {
            lemma_follow_add(s, j, 1, i);
            assert(follow(s, j, 1 + i) >= c);
        }
        lemma_walk_avoiding(s, t, d, j, start, m);
    }
    let lt = ld + lj;
    assert(closes_above(t, j, d, lt)) by {
        assert(follow(t, j, ld + lj) == follow(s, j, lj));
        assert forall|k: nat| 0 < k < lt implies #[trigger] follow(t, j, k) >= d by {
            if k < ld {
                assert(follow(s, d, k) >= c);
            } else if k == ld {
            } else {
                let m = (k - ld) as nat;
                assert(follow(t, j, ld + m) == follow(s, j, m));
                assert(follow(s, j, m) >= c);
            }
        }
    }
    // the other cycles below d are untouched
    assert forall|x: int, len: nat|
        0 <= x < d && x != j && closes_above(s, x, c, len) implies forall|k: nat|
        k <= len ==> #[trigger] follow(t, x, k) == follow(s, x, k) by {
        assert forall|k: nat| k <= len implies #[trigger] follow(t, x, k) == follow(s, x, k) by {
            assert forall|i: nat| i < k implies #[trigger] follow(s, x, i) != d && follow(s, x, i)
                != j by {
                if i > 0 {
                    assert(follow(s, x, i) >= c);
                }
            }
            lemma_walk_avoiding(s, t, d, j, x, k);
        }
    }
    assert forall|x: int| 0 <= x < d implies #[trigger] has_cycle_above(t, x, d) by {
        if x == j {
            assert(closes_above(t, j, d, lt));
        } else {
            assert(has_cycle_above(s, x, c));
            let len = choose|len: nat| #[trigger] closes_above(s, x, c, len);
            assert(follow(t, x, len) == follow(s, x, len));
            assert forall|k: nat| 0 < k < len implies #[trigger] follow(t, x, k) >= d by {
                assert(follow(t, x, k) == follow(s, x, k));
            }
            assert(closes_above(t, x, d, len));
        }
    }
    assert forall|y: int| d <= y < n implies #[trigger] on_low_cycle(t, y, d) by {
        if y == d {
            assert(follow(t, j, ld) == d);
            assert(closes_above(t, j, d, lt) && 0 < ld < lt && follow(t, j, ld) == y);
        } else {
            assert(on_low_cycle(s, y, c));
            let (x, len, k) = choose|x: int, len: nat, k: nat|
                #![trigger closes_above(s, x, c, len), follow(s, x, k)]
                0 <= x < c && closes_above(s, x, c, len) && 0 < k < len && follow(s, x, k) == y;
            if x == d {
                lemma_cycle_length_unique(s, d, c, len, ld);
                assert(follow(t, j, k) == y);
                assert(closes_above(t, j, d, lt) && 0 < k < lt && follow(t, j, k) == y);
            } else if x == j {
                lemma_cycle_length_unique(s, j, c, len, lj);
                assert(follow(t, j, ld + k) == y);
                assert(closes_above(t, j, d, lt) && 0 < ld + k < lt && follow(t, j, (ld + k) as nat) == y);
            } else {
                assert(follow(t, x, k) == follow(s, x, k));
                assert(follow(t, x, len) == follow(s, x, len));
                assert forall|i: nat| 0 < i < len implies #[trigger] follow(t, x, i) >= d by {
                    assert(follow(t, x, i) == follow(s, x, i));
                }
                assert(closes_above(t, x, d, len) && 0 < k < len && follow(t, x, k) == y);
            }
        }
    }
}

/// A single cycle through two or more positions has no fixed point.
pub proof fn lemma_no_fixed_point_on_cycle(s: Seq<usize>, y: int)
    requires
        is_index_permutation(s),
        s.len() >= 2,
        single_cycle(s),
        0 <= y < s.len(),
    ensures
        s[y] != y,
{
    if s[y] != y {
    } else if y == 0 {
        assert(reaches(s, 0, 1));
        let k = choose|k: nat| #[trigger] follow(s, 0, k) == 1;
        lemma_follow_fixed(s, 0, k);
    } else {
        assert(reaches(s, 0, y));
        let k = choose|k: nat| #[trigger] follow(s, 0, k) == y;
        lemma_back_to_fixed(s, y, k);
    }
}

proof fn lemma_follow_fixed(s: Seq<usize>, y: int, k: nat)
    requires
        0 <= y < s.len(),
        s[y] == y,
    ensures
        follow(s, y, k) == y,
    decreases k,
{
    if k > 0 {
        lemma_follow_fixed(s, y, (k - 1) as nat);
    }
}

/// A walk from `0` never reaches a fixed point `y != 0`: it would have had
/// to be at `y` a step earlier.
proof fn lemma_back_to_fixed(s: Seq<usize>, y: int, k: nat)
    requires
        is_index_permutation(s),
        0 < y < s.len(),
        s[y] == y,
    ensures
        follow(s, 0, k) != y,
    decreases k,
{
    if k > 0 {
        let p = follow(s, 0, (k - 1) as nat);
        lemma_follow_in_range(s, 0, (k - 1) as nat);
        lemma_back_to_fixed(s, y, (k - 1) as nat);
        assert(p != y);
    }
}

} // verus!
