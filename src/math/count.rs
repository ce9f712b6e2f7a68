//! Combinatorics: factorials, falling factorials, binomial coefficients and
//! partitions into boxes.
use vstd::prelude::*;

verus! {

/// The product `lo * (lo + 1) * ... * hi`; 1 when the range is empty.
pub open spec fn range_product(lo: int, hi: int) -> int
    decreases hi + 1 - lo,
{
    if hi < lo {
        1
    } else {
        range_product(lo, hi - 1) * hi
    }
}

/// `n!`
pub open spec fn fact(n: nat) -> int {
    range_product(1, n as int)
}

/// `n! / (n - r)!`, the number of r-permutations of `n` distinct objects.
pub open spec fn falling(n: nat, r: nat) -> int {
    range_product(n - r + 1, n as int)
}

/// `b^e`
pub open spec fn power(b: int, e: nat) -> int
    decreases e,
{
    if e == 0 {
        1
    } else {
        power(b, (e - 1) as nat) * b
    }
}

/// A product of positive factors is positive.
pub proof fn lemma_range_product_positive(lo: int, hi: int)
    requires
        lo >= 1,
    ensures
        range_product(lo, hi) >= 1,
    decreases hi + 1 - lo,
{
    if hi >= lo {
        lemma_range_product_positive(lo, hi - 1);
        assert(range_product(lo, hi - 1) * hi >= 1) by (nonlinear_arith)
            requires
                range_product(lo, hi - 1) >= 1,
                hi >= 1,
        ;
    }
}

/// A product of positive factors grows with its upper end.
pub proof fn lemma_range_product_monotone(lo: int, hi: int, hi2: int)
    requires
        lo >= 1,
        hi <= hi2,
    ensures
        range_product(lo, hi) <= range_product(lo, hi2),
    decreases hi2 - hi,
{
    if hi < hi2 {
        lemma_range_product_monotone(lo, hi, hi2 - 1);
        if hi2 >= lo {
            lemma_range_product_positive(lo, hi2 - 1);
            assert(range_product(lo, hi2 - 1) <= range_product(lo, hi2 - 1) * hi2)
                by (nonlinear_arith)
                requires
                    range_product(lo, hi2 - 1) >= 1,
                    hi2 >= 1,
            ;
        }
    }
}

/// `lo * ... * hi`, or `None` when it exceeds `usize::MAX`.
pub fn checked_range_product(lo: usize, hi: usize) -> (r: Option<usize>)
    requires
        lo >= 1,
    ensures
        r is Some <==> range_product(lo as int, hi as int) <= usize::MAX,
        r matches Some(p) ==> p == range_product(lo as int, hi as int),
{
    if hi < lo {
        return Some(1);
    }
    let mut acc: usize = 1;
    let mut i: usize = lo;
    while i <= hi
        invariant
            lo >= 1,
            lo <= i,
            i <= hi + 1,
            lo <= hi,
            acc == range_product(lo as int, i - 1),
        decreases hi + 1 - i,
    {
        match acc.checked_mul(i) {
            Some(p) => {
                acc = p;
            },
            None => {
                proof {
                    lemma_range_product_monotone(lo as int, i as int, hi as int);
                }
                return None;
            },
        }
        if i == hi {
            return Some(acc);
        }
        i = i + 1;
    }
    Some(acc)
}

/// `lo * ... * hi`, which the caller knows to fit.
pub fn range_product_exec(lo: usize, hi: usize) -> (r: usize)
    requires
        lo >= 1,
        range_product(lo as int, hi as int) <= usize::MAX,
    ensures
        r == range_product(lo as int, hi as int),
{
    match checked_range_product(lo, hi) {
        Some(p) => p,
        None => 0,
    }
}

/// `n!`
pub fn fac(n: usize) -> (r: usize)
    requires
        fact(n as nat) <= usize::MAX,
    ensures
        r == fact(n as nat),
{
    range_product_exec(1, n)
}

/// `n! / (n - r)! = n * (n - 1) * ... * (n - r + 1)`: order matters.
pub fn permute(n: usize, r: usize) -> (p: usize)
    requires
        r <= n,
        falling(n as nat, r as nat) <= usize::MAX,
    ensures
        p == falling(n as nat, r as nat),
{
    if r == 0 {
        return 1;
    }
    range_product_exec(n - r + 1, n)
}

/// `n! / (r! (n - r)!)`, written as `(n! / (n - r)!) / r!`.
pub open spec fn binomial(n: nat, r: nat) -> int {
    falling(n, r) / fact(r)
}

/// The intermediate values of `binomial` fit in a `usize`.
pub open spec fn binomial_fits(n: nat, r: nat) -> bool {
    falling(n, r) <= usize::MAX && fact(r) <= usize::MAX
}

/// `n choose r`: order does not matter.
pub fn binomial_co(n: usize, r: usize) -> (c: usize)
    requires
        r <= n,
        binomial_fits(n as nat, r as nat),
    ensures
        c == binomial(n as nat, r as nat),
{
    let if_order_mattered = permute(n, r);
    proof {
        lemma_range_product_positive(1, r as int);
    }
    if_order_mattered / fac(r)
}

/// `b^e`, which the caller knows to fit.
pub fn pow_usize(b: usize, e: u64) -> (p: usize)
    requires
        power(b as int, e as nat) <= usize::MAX,
    ensures
        p == power(b as int, e as nat),
{
    let mut p: usize = 1;
    let mut i: u64 = 0;
    while i < e
        invariant
            i <= e,
            p == power(b as int, i as nat),
            power(b as int, e as nat) <= usize::MAX,
        decreases e - i,
    {
        proof {
            lemma_power_monotone(b as int, (i + 1) as nat, e as nat);
        }
        p = p * b;
        i = i + 1;
    }
    p
}

/// Powers of a natural number grow with the exponent, but for a zero base.
pub proof fn lemma_power_monotone(b: int, i: nat, e: nat)
    requires
        b >= 0,
        1 <= i <= e,
    ensures
        power(b, i) <= power(b, e) || b == 0,
        b == 0 ==> power(b, e) == 0,
    decreases e,
{
    if e > 1 {
        lemma_power_monotone(b, 1, (e - 1) as nat);
        if i < e {
            lemma_power_monotone(b, i, (e - 1) as nat);
        }
        lemma_power_nonneg(b, (e - 1) as nat);
        let q = power(b, (e - 1) as nat);
        if b >= 1 {
            assert(q <= q * b) by (nonlinear_arith)
                requires
                    q >= 0,
                    b >= 1,
            ;
        }
    } else {
        assert(power(b, 0) == 1);
    }
}

/// Powers of a natural number are natural numbers.
pub proof fn lemma_power_nonneg(b: int, e: nat)
    requires
        b >= 0,
    ensures
        power(b, e) >= 0,
    decreases e,
{
    if e > 0 {
        lemma_power_nonneg(b, (e - 1) as nat);
        let q = power(b, (e - 1) as nat);
        assert(q * b >= 0) by (nonlinear_arith)
            requires
                q >= 0,
                b >= 0,
        ;
    }
}

/// The term `k` of the binomial expansion of `(x + y)^n`.
pub open spec fn binomial_term(x: nat, y: nat, n: nat, k: nat) -> int {
    binomial(n, k) * power(x as int, (n - k) as nat) * power(y as int, k)
}

/// The sum of the terms `0..m` of the binomial expansion of `(x + y)^n`.
pub open spec fn binomial_sum(x: nat, y: nat, n: nat, m: nat) -> int
    decreases m,
{
    if m == 0 {
        0
    } else {
        binomial_sum(x, y, n, (m - 1) as nat) + binomial_term(x, y, n, (m - 1) as nat)
    }
}

/// Every value that the expansion of `(x + y)^n` over its terms `0..=n`
/// passes through fits in a `usize`.
pub open spec fn binomial_thm_fits(x: nat, y: nat, n: nat) -> bool {
    &&& forall|k: nat|
        k <= n ==> {
            &&& binomial_fits(n, k)
            &&& power(x as int, (n - k) as nat) <= usize::MAX
            &&& power(y as int, k) <= usize::MAX
            &&& binomial(n, k) * power(x as int, (n - k) as nat) <= usize::MAX
            &&& #[trigger] binomial_term(x, y, n, k) <= usize::MAX
        }
    &&& binomial_sum(x, y, n, n + 1) <= usize::MAX
}

proof fn lemma_binomial_sum_grows(x: nat, y: nat, n: nat, m: nat, m2: nat)
    requires
        m <= m2 <= n + 1,
    ensures
        binomial_sum(x, y, n, m) <= binomial_sum(x, y, n, m2),
    decreases m2,
{
    if m < m2 {
        lemma_binomial_sum_grows(x, y, n, m, (m2 - 1) as nat);
        let k = (m2 - 1) as nat;
        lemma_power_nonneg(x as int, (n - k) as nat);
        lemma_power_nonneg(y as int, k);
        lemma_range_product_positive(1, k as int);
        let c = binomial(n, k);
        assert(c >= 0) by {
            lemma_range_product_positive(n - k + 1, n as int);
        }
        let a = power(x as int, (n - k) as nat);
        let b = power(y as int, k);
        assert(c * a * b >= 0) by (nonlinear_arith)
            requires
                c >= 0,
                a >= 0,
                b >= 0,
        ;
    }
}

/// A product of natural numbers is a natural number.
pub proof fn lemma_range_product_nonneg(lo: int, hi: int)
    requires
        lo >= 0,
    ensures
        range_product(lo, hi) >= 0,
    decreases hi + 1 - lo,
{
    if hi >= lo {
        lemma_range_product_nonneg(lo, hi - 1);
        let q = range_product(lo, hi - 1);
        assert(q * hi >= 0) by (nonlinear_arith)
            requires
                q >= 0,
                hi >= 0,
        ;
    }
}

/// The binomial theorem, `(x + y)^n` as the sum of the terms
/// `(n choose k) x^(n - k) y^k`, summed over `k` in `0..=n`.
pub fn binomial_thm(x: usize, y: usize, n: usize) -> (s: usize)
    requires
        binomial_thm_fits(x as nat, y as nat, n as nat),
    ensures
        s == binomial_sum(x as nat, y as nat, n as nat, (n + 1) as nat),
{
    let mut ret: usize = 0;
    let mut k: usize = 0;
    loop
        invariant
            k <= n,
            binomial_thm_fits(x as nat, y as nat, n as nat),
            ret == binomial_sum(x as nat, y as nat, n as nat, k as nat),
        decreases n - k,
    {
        assert(binomial_term(x as nat, y as nat, n as nat, k as nat) <= usize::MAX);
        let c = binomial_co(n, k);
        let xp = pow_usize(x, (n - k) as u64);
        let yp = pow_usize(y, k as u64);
        let val = c * xp * yp;
        proof {
            lemma_binomial_sum_grows(x as nat, y as nat, n as nat, (k + 1) as nat, (n + 1) as nat);
        }
        ret = ret + val;
        if k == n {
            return ret;
        }
        k = k + 1;
    }
}

/// Permutations of `r` out of `n`: with repetition `n^r`, else `n! / (n - r)!`.
pub fn perm(n: usize, r: usize, repetition: bool) -> (p: usize)
    requires
        repetition ==> power(n as int, r as nat) <= usize::MAX,
        !repetition ==> r <= n && falling(n as nat, r as nat) <= usize::MAX,
    ensures
        repetition ==> p == power(n as int, r as nat),
        !repetition ==> p == falling(n as nat, r as nat),
{
    if repetition {
        pow_usize(n, r as u64)
    } else {
        permute(n, r)
    }
}

/// Combinations of `r` out of `n`, order not mattering: with repetition
/// `(r + n - 1)! / (r! (n - 1)!)`, else `n! / (r! (n - r)!)`.
pub fn comb(n: usize, r: usize, repetition: bool) -> (c: usize)
    requires
        repetition ==> {
            &&& n >= 1
            &&& r + n - 1 <= usize::MAX
            &&& fact((r + n - 1) as nat) <= usize::MAX
            &&& fact((n - 1) as nat) * fact(r as nat) <= usize::MAX
        },
        !repetition ==> r <= n && binomial_fits(n as nat, r as nat),
    ensures
        repetition ==> c == fact((r + n - 1) as nat) / (fact((n - 1) as nat)
            * fact(r as nat)),
        !repetition ==> c == binomial(n as nat, r as nat),
{
    if repetition {
        proof {
            lemma_range_product_positive(1, n - 1);
            lemma_range_product_positive(1, r as int);
            lemma_range_product_monotone(1, n - 1, (r + n - 1) as int);
            lemma_range_product_monotone(1, r as int, (r + n - 1) as int);
            let a = fact((n - 1) as nat);
            let b = fact(r as nat);
            assert(a * b >= 1) by (nonlinear_arith)
                requires
                    a >= 1,
                    b >= 1,
            ;
        }
        let num = fac(r + (n - 1));
        let mut dom = fac(n - 1);
        dom = dom * fac(r);
        num / dom
    } else {
        binomial_co(n, r)
    }
}

/// The product of the factorials of the entries of `boxes`.
pub open spec fn box_product(boxes: Seq<usize>) -> int
    decreases boxes.len(),
{
    if boxes.len() == 0 {
        1
    } else {
        box_product(boxes.drop_last()) * fact(boxes.last() as nat)
    }
}

/// The number of ways to put `n` objects into boxes of the given sizes:
/// `n! / (n_1! * ... * n_k!)` for labeled boxes, and that divided by `k!`
/// for unlabeled ones.
pub open spec fn partitions(n: nat, boxes: Seq<usize>, labeled: bool) -> int {
    fact(n) / (box_product(boxes) * if labeled { 1 } else { fact(boxes.len()) })
}

/// `box_product` is at least one, and grows along the list.
pub proof fn lemma_box_product_grows(boxes: Seq<usize>, i: int)
    requires
        0 <= i <= boxes.len(),
    ensures
        1 <= box_product(boxes.subrange(0, i)) <= box_product(boxes),
    decreases boxes.len(),
{
    if boxes.len() > 0 {
        let t = boxes.drop_last();
        lemma_range_product_positive(1, boxes.last() as int);
        if i == boxes.len() {
            assert(boxes.subrange(0, i) =~= boxes);
            lemma_box_product_grows(t, t.len() as int);
            assert(t.subrange(0, t.len() as int) =~= t);
        } else {
            lemma_box_product_grows(t, i);
            assert(t.subrange(0, i) =~= boxes.subrange(0, i));
        }
        let a = box_product(t);
        let f = fact(boxes.last() as nat);
        assert(a <= a * f && 1 <= a * f) by (nonlinear_arith)
            requires
                a >= 1,
                f >= 1,
        ;
    }
}

/// The intermediate values of `partitions` fit in a `usize`.
pub open spec fn partitions_fit(n: nat, boxes: Seq<usize>, labeled: bool) -> bool {
    &&& fact(n) <= usize::MAX
    &&& fact(boxes.len()) <= usize::MAX
    &&& forall|i: int| 0 <= i < boxes.len() ==> fact(#[trigger] boxes[i] as nat) <= usize::MAX
    &&& box_product(boxes) * (if labeled { 1 } else { fact(boxes.len()) }) <= usize::MAX
}

/// Theorem 2.4.3: the number of partitions of the `n` objects of `v` into
/// boxes of the sizes in `boxes`, labeled or not.
pub fn partition_count<T>(v: &[T], boxes: &[usize], labeled: bool) -> (c: usize)
    requires
        partitions_fit(v@.len(), boxes@, labeled),
    ensures
        c == partitions(v@.len(), boxes@, labeled),
{
    let num = fac(v.len());
    let k = boxes.len();
    let mut dom: usize = 1;
    let mut i: usize = 0;
    proof {
        lemma_range_product_positive(1, k as int);
        lemma_box_product_grows(boxes@, boxes@.len() as int);
        let b = box_product(boxes@);
        let f = fact(k as nat);
        assert(b <= b * f) by (nonlinear_arith)
            requires
                b >= 1,
                f >= 1,
        ;
    }
    while i < k
        invariant
            i <= k == boxes@.len(),
            partitions_fit(v@.len(), boxes@, labeled),
            dom == box_product(boxes@.subrange(0, i as int)),
            box_product(boxes@) <= usize::MAX,
        decreases k - i,
    {
        proof {
            lemma_box_product_grows(boxes@, i + 1);
            assert(boxes@.subrange(0, i + 1).drop_last() =~= boxes@.subrange(0, i as int));
        }
        dom = dom * fac(boxes[i]);
        i = i + 1;
    }
    assert(boxes@.subrange(0, k as int) =~= boxes@);
    if !labeled {
        dom = dom * fac(k);
    }
    proof {
        lemma_range_product_positive(1, k as int);
        let b = box_product(boxes@);
        let f = if labeled { 1 } else { fact(k as nat) };
        assert(b * f >= 1) by (nonlinear_arith)
            requires
                b >= 1,
                f >= 1,
        ;
    }
    num / dom
}

} // verus!
