use vstd::prelude::*;
use vstd::arithmetic::div_mod::lemma_div_multiples_vanish;
use vstd::arithmetic::mul::lemma_mul_inequality;
use vstd::arithmetic::mul::lemma_mul_is_commutative;
use vstd::arithmetic::power::pow;

verus! {

/// n factorial, extended with 1 below 1.
pub open spec fn fact(n: int) -> int
    decreases n,
{
    if n <= 1 {
        1
    } else {
        n * fact(n - 1)
    }
}

/// The product of the integers a+1, a+2, ..., b (1 when b <= a), so that
/// range_prod(a, b) * fact(a) == fact(b) whenever 0 <= a <= b.
pub open spec fn range_prod(a: int, b: int) -> int
    decreases b - a,
{
    if b <= a {
        1
    } else {
        b * range_prod(a, b - 1)
    }
}

/// The binomial coefficient by Pascal's rule.
pub open spec fn binom(n: int, r: int) -> int
    decreases n,
{
    if r < 0 {
        0
    } else if r == 0 {
        1
    } else if n <= 0 {
        0
    } else {
        binom(n - 1, r - 1) + binom(n - 1, r)
    }
}

/// What `ncr` returns: the binomial coefficient, except that an argument of
/// zero gives 0 (this library's convention, not the usual 1), as does r > n.
pub open spec fn spec_ncr(n: int, r: int) -> int {
    if n <= 0 || r <= 0 {
        0
    } else if r > n {
        0
    } else {
        binom(n, r)
    }
}

pub proof fn lemma_fact_pos(n: int)
    ensures
        fact(n) >= 1,
    decreases n,
{
    if n > 1 {
        lemma_fact_pos(n - 1);
        assert(fact(n) >= 1) by (nonlinear_arith)
        requires
            fact(n) == n * fact(n - 1),
            fact(n - 1) >= 1,
            n >= 2,
        ;
    }
}

pub proof fn lemma_range_prod_fact(a: int, b: int)
    requires
        0 <= a <= b,
    ensures
        range_prod(a, b) * fact(a) == fact(b),
    decreases b - a,
{
    if b <= a {
    } else {
        lemma_range_prod_fact(a, b - 1);
        assert(range_prod(a, b) * fact(a) == b * (range_prod(a, b - 1) * fact(a)))
            by (nonlinear_arith)
        requires
            range_prod(a, b) == b * range_prod(a, b - 1),
        ;
        if b <= 1 {
        } else {
            assert(fact(b) == b * fact(b - 1));
        }
    }
}

pub proof fn lemma_range_prod_pos(a: int, b: int)
    requires
        0 <= a,
    ensures
        range_prod(a, b) >= 1,
    decreases b - a,
{
    if b > a {
        lemma_range_prod_pos(a, b - 1);
        assert(range_prod(a, b) >= 1) by (nonlinear_arith)
        requires
            range_prod(a, b) == b * range_prod(a, b - 1),
            range_prod(a, b - 1) >= 1,
            b >= 1,
        ;
    }
}

/// Extending the upper end of the product range cannot shrink it.
pub proof fn lemma_range_prod_mono(a: int, b1: int, b2: int)
    requires
        0 <= a,
        b1 <= b2,
    ensures
        range_prod(a, b1) <= range_prod(a, b2),
    decreases b2 - b1,
{
    if b1 < b2 {
        lemma_range_prod_mono(a, b1, b2 - 1);
        lemma_range_prod_pos(a, b2 - 1);
        if b2 > a {
            assert(range_prod(a, b2 - 1) <= range_prod(a, b2)) by (nonlinear_arith)
            requires
                range_prod(a, b2) == b2 * range_prod(a, b2 - 1),
                range_prod(a, b2 - 1) >= 1,
                b2 >= 1,
            ;
        }
    }
}

/// fact(k) is at most the product of the k integers ending at s + k.
pub proof fn lemma_fact_le_range_prod(s: int, k: int)
    requires
        0 <= s,
        0 <= k,
    ensures
        fact(k) <= range_prod(s, s + k),
    decreases k,
{
    if k == 0 {
    } else {
        lemma_fact_le_range_prod(s, k - 1);
        lemma_fact_pos(k - 1);
        lemma_range_prod_pos(s, s + k - 1);
        assert(fact(k) <= range_prod(s, s + k)) by (nonlinear_arith)
        requires
            fact(k) == if k <= 1 { 1int } else { k * fact(k - 1) },
            range_prod(s, s + k) == (s + k) * range_prod(s, s + k - 1),
            fact(k - 1) <= range_prod(s, s + k - 1),
            fact(k - 1) >= 1,
            range_prod(s, s + k - 1) >= 1,
            1 <= k <= s + k,
        ;
    }
}

pub proof fn lemma_binom_nonneg(n: int, r: int)
    ensures
        binom(n, r) >= 0,
    decreases n,
{
    if r > 0 && n > 0 {
        lemma_binom_nonneg(n - 1, r - 1);
        lemma_binom_nonneg(n - 1, r);
    }
}

pub proof fn lemma_binom_above(n: int, r: int)
    requires
        r > n,
        n >= 0,
    ensures
        binom(n, r) == 0,
    decreases n,
{
    if r > 0 && n > 0 {
        lemma_binom_above(n - 1, r - 1);
        lemma_binom_above(n - 1, r);
    }
}

pub proof fn lemma_binom_n_n(n: int)
    requires
        n >= 0,
    ensures
        binom(n, n) == 1,
    decreases n,
{
    if n > 0 {
        lemma_binom_n_n(n - 1);
        lemma_binom_above(n - 1, n);
    }
}

/// The factorial formula for the binomial coefficient.
pub proof fn lemma_binom_fact(n: int, r: int)
    requires
        0 <= r <= n,
    ensures
        binom(n, r) * (fact(r) * fact(n - r)) == fact(n),
    decreases n,
{
    if r == 0 {
        lemma_fact_pos(n);
    } else if r == n {
        lemma_binom_n_n(n);
    } else {
        lemma_binom_fact(n - 1, r - 1);
        lemma_binom_fact(n - 1, r);
        let a = binom(n - 1, r - 1);
        let b = binom(n - 1, r);
        assert(a * (fact(r) * fact(n - r)) == r * fact(n - 1)) by (nonlinear_arith)
        requires
            a * (fact(r - 1) * fact(n - r)) == fact(n - 1),
            fact(r) == r * fact(r - 1),
        ;
        assert(b * (fact(r) * fact(n - r)) == (n - r) * fact(n - 1)) by (nonlinear_arith)
        requires
            b * (fact(r) * fact(n - 1 - r)) == fact(n - 1),
            fact(n - r) == (n - r) * fact(n - r - 1),
        ;
        assert(binom(n, r) * (fact(r) * fact(n - r)) == fact(n)) by (nonlinear_arith)
        requires
            binom(n, r) == a + b,
            a * (fact(r) * fact(n - r)) == r * fact(n - 1),
            b * (fact(r) * fact(n - r)) == (n - r) * fact(n - 1),
            fact(n) == n * fact(n - 1),
        ;
    }
}

pub proof fn lemma_binom_pos(n: int, r: int)
    requires
        0 <= r <= n,
    ensures
        binom(n, r) >= 1,
{
    lemma_binom_fact(n, r);
    lemma_binom_nonneg(n, r);
    lemma_fact_pos(n);
    if binom(n, r) == 0 {
        assert(fact(n) == 0) by (nonlinear_arith)
        requires
            binom(n, r) * (fact(r) * fact(n - r)) == fact(n),
            binom(n, r) == 0,
        ;
    }
}

pub proof fn lemma_binom_sym(n: int, r: int)
    requires
        0 <= r <= n,
    ensures
        binom(n, r) == binom(n, n - r),
{
    lemma_binom_fact(n, r);
    lemma_binom_fact(n, n - r);
    lemma_fact_pos(r);
    lemma_fact_pos(n - r);
    assert(binom(n, r) == binom(n, n - r)) by (nonlinear_arith)
    requires
        binom(n, r) * (fact(r) * fact(n - r)) == fact(n),
        binom(n, n - r) * (fact(n - r) * fact(r)) == fact(n),
        fact(r) >= 1,
        fact(n - r) >= 1,
    ;
}

/// The partial product num == range_prod(big, n) factors as binom times the
/// small factorial, which is what the division in `ncr` removes.
pub proof fn lemma_binom_range_prod(n: int, small: int)
    requires
        0 <= small <= n,
    ensures
        range_prod(n - small, n) == binom(n, small) * fact(small),
    decreases 0int,
{
    lemma_binom_fact(n, small);
    lemma_range_prod_fact(n - small, n);
    lemma_fact_pos(n - small);
    assert(range_prod(n - small, n) == binom(n, small) * fact(small)) by (nonlinear_arith)
    requires
        binom(n, small) * (fact(small) * fact(n - small)) == fact(n),
        range_prod(n - small, n) * fact(n - small) == fact(n),
        fact(n - small) >= 1,
    ;
}

pub fn max(a: usize, b: usize) -> (r: usize)
    ensures
        r == if a > b { a } else { b },
{
    if a > b {
        a
    } else {
        b
    }
}

pub fn min(a: usize, b: usize) -> (r: usize)
    ensures
        r == if a > b { b } else { a },
{
    if a > b {
        b
    } else {
        a
    }
}

/// n factorial, by the recursion n * fac(n - 1).
pub fn fac(n: usize) -> (r: usize)
    requires
        1 <= n,
        fact(n as int) <= usize::MAX,
    ensures
        r as int == fact(n as int),
    decreases n,
{
    if n == 1 {
        return 1;
    }
    proof {
        lemma_fact_pos(n - 1);
        lemma_mul_inequality(1, n as int, fact(n - 1));
        lemma_mul_is_commutative(n as int, fact(n - 1));
    }
    let sub = fac(n - 1);
    n * sub
}

/// The number of ways to pick r items out of n, computed through the
/// factorial ratio with the smaller of r and n - r in the denominator.
/// By this library's convention an argument of zero yields 0, as does r > n.
pub fn ncr(n: usize, r: usize) -> (res: usize)
    requires
        0 < r < n ==> range_prod(
            if r > n - r {
                r as int
            } else {
                n - r
            },
            n as int,
        ) <= usize::MAX,
    ensures
        res as int == spec_ncr(n as int, r as int),
{
    if n == 0 || r == 0 {
        return 0;
    }
    if r > n {
        return 0;
    }
    if n == r {
        proof {
            lemma_binom_n_n(n as int);
        }
        return 1;
    }
    let big = max(r, n - r);
    let small = n - big;
    let ghost gb = big as int;
    let mut num: usize = 1;
    let mut i: usize = big;
    while i < n
        invariant
            1 <= gb <= i <= n,
            num as int == range_prod(gb, i as int),
            range_prod(gb, n as int) <= usize::MAX,
        decreases n - i,
    {
        proof {
            lemma_range_prod_mono(gb, i + 1, n as int);
            assert(num as int * (i + 1) == range_prod(gb, i + 1)) by (nonlinear_arith)
            requires
                num as int == range_prod(gb, i as int),
                range_prod(gb, i + 1) == (i + 1) * range_prod(gb, i as int),
            ;
        }
        num = num * (i + 1);
        i = i + 1;
    }
    proof {
        lemma_fact_le_range_prod(gb, small as int);
        lemma_range_prod_mono(gb, gb + small, n as int);
        lemma_binom_range_prod(n as int, small as int);
        lemma_fact_pos(small as int);
        lemma_binom_pos(n as int, small as int);
        lemma_div_multiples_vanish(binom(n as int, small as int), fact(small as int));
        lemma_mul_is_commutative(binom(n as int, small as int), fact(small as int));
        if small != r {
            lemma_binom_sym(n as int, r as int);
        }
    }
    let den = fac(small);
    num / den
}


pub proof fn lemma_pow_nonneg(b: int, e: nat)
    requires
        0 <= b,
    ensures
        0 <= pow(b, e),
    decreases e,
{
    reveal(pow);
    if e > 0 {
        lemma_pow_nonneg(b, (e - 1) as nat);
        assert(0 <= b * pow(b, (e - 1) as nat)) by (nonlinear_arith)
        requires
            0 <= b,
            0 <= pow(b, (e - 1) as nat),
        ;
    }
}

pub proof fn lemma_pow_base_mono(a: int, b: int, e: nat)
    requires
        0 <= a <= b,
    ensures
        pow(a, e) <= pow(b, e),
    decreases e,
{
    reveal(pow);
    if e > 0 {
        lemma_pow_base_mono(a, b, (e - 1) as nat);
        lemma_pow_nonneg(a, (e - 1) as nat);
        assert(a * pow(a, (e - 1) as nat) <= b * pow(b, (e - 1) as nat)) by (nonlinear_arith)
        requires
            0 <= a <= b,
            0 <= pow(a, (e - 1) as nat),
            pow(a, (e - 1) as nat) <= pow(b, (e - 1) as nat),
        ;
    }
}

/// The product of the b - a integers ending at b is at most b to that power.
pub proof fn lemma_range_prod_le_pow(a: int, b: int)
    requires
        0 <= a <= b,
    ensures
        range_prod(a, b) <= pow(b, (b - a) as nat),
    decreases b - a,
{
    reveal(pow);
    if b <= a {
    } else {
        lemma_range_prod_le_pow(a, b - 1);
        lemma_pow_base_mono(b - 1, b, (b - 1 - a) as nat);
        lemma_range_prod_pos(a, b - 1);
        assert(b * range_prod(a, b - 1) <= b * pow(b, (b - 1 - a) as nat)) by (nonlinear_arith)
        requires
            1 <= b,
            range_prod(a, b - 1) <= pow(b - 1, (b - 1 - a) as nat),
            pow(b - 1, (b - 1 - a) as nat) <= pow(b, (b - 1 - a) as nat),
        ;
        assert(pow(b, (b - a) as nat) == b * pow(b, (b - 1 - a) as nat));
    }
}

/// A binomial coefficient never exceeds the corresponding power.
pub proof fn lemma_binom_le_pow(m: int, n: int)
    requires
        0 <= m,
        0 <= n,
    ensures
        binom(m, n) <= pow(m, n as nat),
{
    if n > m {
        lemma_binom_above(m, n);
        lemma_pow_nonneg(m, n as nat);
    } else {
        lemma_binom_range_prod(m, n);
        lemma_fact_pos(n);
        lemma_binom_nonneg(m, n);
        assert(binom(m, n) <= binom(m, n) * fact(n)) by (nonlinear_arith)
        requires
            0 <= binom(m, n),
            1 <= fact(n),
        ;
        lemma_range_prod_le_pow(m - n, m);
    }
}

} // verus!
