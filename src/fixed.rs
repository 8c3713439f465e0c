//! Fixed-point arithmetic for the UCB1 tree policy.
//!
//! Statistics are integers, so the UCB1 value of a node is computed on a
//! fixed-point scale where `ONE` stands for 1.0. The natural logarithm is
//! approximated piecewise linearly between powers of two, and the square
//! root is the exact integer square root.
use vstd::prelude::*;

verus! {

/// The fixed-point unit: a value `x` stands for `x / ONE`.
pub const ONE: u64 = 65536;

/// `ln 2` on the fixed-point scale, rounded down.
pub const LN2: u64 = 45426;

/// The number of halvings that bring `x` below 2, i.e. `floor(log2 x)` for `x >= 1`.
pub open spec fn log2_floor(x: nat) -> nat
    decreases x,
{
    if x < 2 {
        0
    } else {
        1 + log2_floor(x / 2)
    }
}

/// The largest power of two not above `x`, for `x >= 1`.
pub open spec fn pow2_floor(x: nat) -> nat
    decreases x,
{
    if x < 2 {
        1
    } else {
        2 * pow2_floor(x / 2)
    }
}

/// `log2 x` on the fixed-point scale: exact at powers of two, linear between them.
pub open spec fn log2_fp(x: nat) -> nat {
    log2_floor(x) * (ONE as nat) + ((x - pow2_floor(x)) as nat) * (ONE as nat) / pow2_floor(x)
}

/// `ln x` on the fixed-point scale; counts of zero or one give zero.
pub open spec fn ln_fp(x: nat) -> nat {
    if x <= 1 {
        0
    } else {
        log2_fp(x) * (LN2 as nat) / (ONE as nat)
    }
}

/// `r` is the integer square root of `x`.
pub open spec fn is_isqrt(x: nat, r: nat) -> bool {
    r * r <= x < (r + 1) * (r + 1)
}

/// The integer square root of `x`: the largest `r` with `r * r <= x`.
pub open spec fn isqrt(x: nat) -> nat {
    choose|r: nat| is_isqrt(x, r)
}

proof fn lemma_pow2_floor_bounds(x: nat)
    requires
        x >= 1,
    ensures
        1 <= pow2_floor(x) <= x,
        x < 2 * pow2_floor(x),
    decreases x,
{
    if x >= 2 {
        lemma_pow2_floor_bounds(x / 2);
    }
}

proof fn lemma_log2_floor_small(x: nat)
    requires
        1 <= x < 0x1_0000_0000,
    ensures
        log2_floor(x) < 32,
{
    reveal_with_fuel(pow2_nat, 33);
    assert(pow2_nat(32) == 0x1_0000_0000);
    lemma_log2_floor_below(x, 32);
}

proof fn lemma_log2_floor_below(x: nat, k: nat)
    requires
        1 <= x,
        x < pow2_nat(k),
    ensures
        log2_floor(x) < k,
    decreases x,
{
    if x >= 2 {
        assert(k >= 1) by {
            if k == 0 {
                assert(pow2_nat(0) == 1);
            }
        }
        assert(pow2_nat(k) == 2 * pow2_nat((k - 1) as nat));
        lemma_log2_floor_below(x / 2, (k - 1) as nat);
    }
}

/// `2` raised to `k`.
pub open spec fn pow2_nat(k: nat) -> nat
    decreases k,
{
    if k == 0 {
        1
    } else {
        2 * pow2_nat((k - 1) as nat)
    }
}

/// Any two integer square roots of `x` are equal.
proof fn lemma_isqrt_unique(x: nat, a: nat, b: nat)
    requires
        is_isqrt(x, a),
        is_isqrt(x, b),
    ensures
        a == b,
{
    if a < b {
        assert((a + 1) * (a + 1) <= b * b) by (nonlinear_arith)
            requires a + 1 <= b;
    }
    if b < a {
        assert((b + 1) * (b + 1) <= a * a) by (nonlinear_arith)
            requires b + 1 <= a;
    }
}

/// Computes `log2 x` on the fixed-point scale.
pub fn log2_fixed(x: u32) -> (r: u64)
    requires
        x >= 1,
    ensures
        r == log2_fp(x as nat),
        r < 32 * ONE,
{
    let mut y: u32 = x;
    let mut k: u64 = 0;
    let mut p: u64 = 1;
    proof {
        lemma_pow2_floor_bounds(x as nat);
        lemma_log2_floor_small(x as nat);
    }
    while y >= 2
        invariant
            y >= 1,
            1 <= p,
            log2_floor(x as nat) == k + log2_floor(y as nat),
            pow2_floor(x as nat) == p * pow2_floor(y as nat),
            p * y <= x,
            k <= 32,
            k + log2_floor(y as nat) < 32,
        decreases y,
    {
        proof {
            lemma_log2_floor_small(x as nat);
            assert(p * 2 <= p * y) by (nonlinear_arith)
                requires y >= 2, p >= 1;
            assert(p * 2 * (y / 2) <= p * y) by (nonlinear_arith)
                requires p >= 1, y >= 2;
            assert(p * 2 * pow2_floor((y / 2) as nat) == p * (2 * pow2_floor((y / 2) as nat))) by (nonlinear_arith);
        }
        y = y / 2;
        k = k + 1;
        p = p * 2;
    }
    proof {
        lemma_pow2_floor_bounds(x as nat);
        assert(p == pow2_floor(x as nat));
        assert((x - p) * ONE <= 0x1_0000_0000 * 65536) by (nonlinear_arith)
            requires x - p < 0x1_0000_0000, p <= x;
    }
    let frac: u64 = ((x as u64 - p) * ONE) / p;
    proof {
        assert(frac < ONE) by (nonlinear_arith)
            requires frac == (x - p) * 65536 / (p as int), x - p < p, p >= 1;
    }
    k * ONE + frac
}

/// Computes `ln x` on the fixed-point scale.
pub fn ln_fixed(x: u32) -> (r: u64)
    ensures
        r == ln_fp(x as nat),
        r < 32 * ONE,
{
    if x <= 1 {
        0
    } else {
        let l = log2_fixed(x);
        proof {
            assert((l as int) * 45426 / 65536 <= l as int) by (nonlinear_arith)
                requires l >= 0;
        }
        l * LN2 / ONE
    }
}

/// Computes the integer square root of `x` by bisection.
pub fn isqrt_fixed(x: u64) -> (r: u64)
    requires
        x < 0x4000_0000_0000_0000,
    ensures
        r == isqrt(x as nat),
        r < 0x8000_0000,
{
    let mut lo: u64 = 0;
    let mut hi: u64 = 0x8000_0000;
    while lo + 1 < hi
        invariant
            lo < hi <= 0x8000_0000,
            lo * lo <= x,
            x < hi * hi,
        decreases hi - lo,
    {
        let mid: u64 = lo + (hi - lo) / 2;
        proof {
            assert(mid * mid < 0x4000_0000_0000_0000) by (nonlinear_arith)
                requires mid < 0x8000_0000;
        }
        if mid * mid <= x {
            lo = mid;
        } else {
            hi = mid;
        }
    }
    proof {
        assert(is_isqrt(x as nat, lo as nat));
        lemma_isqrt_unique(x as nat, lo as nat, isqrt(x as nat));
    }
    lo
}

/// The average reward `score / visits` on the fixed-point scale, rounded toward zero.
pub open spec fn exploitation_fp(score: int, visits: nat) -> int {
    if score >= 0 {
        score * (ONE as int) / (visits as int)
    } else {
        -((-score) * (ONE as int) / (visits as int))
    }
}

/// The exploration bonus `2 * sqrt(ln(parent_visits) / visits)` on the fixed-point scale.
pub open spec fn exploration_fp(parent_visits: nat, visits: nat) -> nat {
    isqrt(((4 * (ONE as nat) * ln_fp(parent_visits)) as int / (visits as int)) as nat)
}

/// The UCB1 value of a visited node on the fixed-point scale.
pub open spec fn ucb1_fp(score: int, visits: nat, parent_visits: nat) -> int {
    exploitation_fp(score, visits) + exploration_fp(parent_visits, visits)
}

/// Computes the exploitation term of UCB1.
pub fn exploitation_fixed(score: i64, visits: u32) -> (r: i128)
    requires
        visits > 0,
    ensures
        r == exploitation_fp(score as int, visits as nat),
        -0x8000_0000_0000_0000 * 0x10000 <= r <= 0x8000_0000_0000_0000 * 0x10000,
{
    if score >= 0 {
        let a: u128 = score as u128 * ONE as u128;
        proof {
            assert(a / (visits as u128) <= a) by (nonlinear_arith)
                requires visits >= 1, a >= 0;
        }
        (a / visits as u128) as i128
    } else {
        let m: i128 = -(score as i128);
        assert(0 < m <= 0x8000_0000_0000_0000);
        assert(m * 65536 <= 0x8000_0000_0000_0000 * 65536) by (nonlinear_arith)
            requires 0 < m <= 0x8000_0000_0000_0000;
        let a: u128 = (m as u128) * (ONE as u128);
        proof {
            assert(a / (visits as u128) <= a) by (nonlinear_arith)
                requires visits >= 1, a >= 0;
        }
        -((a / visits as u128) as i128)
    }
}

/// Computes the exploration term of UCB1.
pub fn exploration_fixed(parent_visits: u32, visits: u32) -> (r: u64)
    requires
        visits > 0,
    ensures
        r == exploration_fp(parent_visits as nat, visits as nat),
        r < 0x8000_0000,
{
    let l = ln_fixed(parent_visits);
    let q: u64 = 4 * ONE * l / visits as u64;
    proof {
        assert(q <= 4 * ONE * l) by (nonlinear_arith)
            requires visits >= 1, q == 4 * 65536 * l / (visits as int);
    }
    isqrt_fixed(q)
}

/// Computes the UCB1 value of a visited node from its statistics and its parent's visits.
pub fn ucb1_fixed(score: i64, visits: u32, parent_visits: u32) -> (r: i128)
    requires
        visits > 0,
    ensures
        r == ucb1_fp(score as int, visits as nat, parent_visits as nat),
{
    exploitation_fixed(score, visits) + exploration_fixed(parent_visits, visits) as i128
}

} // verus!
