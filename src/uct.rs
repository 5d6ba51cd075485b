//! The UCT selection weight in fixed point: `mean + sqrt(2 ln(parent) / visits)`
//! scaled by `SCALE`, with rewards stored as multiples of 1/46 and the natural
//! logarithm taken as `floor(log2(parent)) * ln 2`.
use vstd::prelude::*;
use vstd::arithmetic::power2::{pow2, lemma2_to64};

verus! {

/// Fixed-point unit of a weight.
pub const SCALE: u64 = 65536;

/// The denominator of a reward: a reward `k` stands for `k / 46`.
pub const REWARD_UNIT: u64 = 46;

/// `ln 2` in units of 1/1024.
pub const LN2_Q10: u64 = 710;

/// The most visits a node may count.
pub const VISIT_CAP: u64 = 1_099_511_627_776;

pub open spec fn floor_log2(n: nat) -> nat
    decreases n,
{
    if n <= 1 {
        0
    } else {
        1 + floor_log2(n / 2)
    }
}

/// The binary logarithm of `n` in units of 1/16, linear between powers of two.
pub open spec fn log2_q4(n: nat) -> nat {
    if n == 0 {
        0
    } else {
        16 * floor_log2(n) + ((16 * (n - pow2(floor_log2(n)))) / (pow2(floor_log2(n)) as int)) as nat
    }
}

/// `ln(n)` in units of 1/1024, as `log2(n) * ln 2`.
pub open spec fn ln_q10(n: nat) -> nat {
    (log2_q4(n) * (LN2_Q10 as nat)) / 16
}

/// The power of two at the binary logarithm bounds `n`.
pub proof fn lemma_floor_log2_pow(n: nat)
    requires
        n >= 1,
    ensures
        pow2(floor_log2(n)) <= n < 2 * pow2(floor_log2(n)),
    decreases n,
{
    lemma2_to64();
    if n > 1 {
        lemma_floor_log2_pow(n / 2);
        vstd::arithmetic::power2::lemma_pow2_unfold(floor_log2(n));
    }
}

/// `2^l`, for `l` below 64.
pub fn pow2_of(l: u64) -> (r: u64)
    requires
        l < 64,
    ensures
        r == pow2(l as nat),
{
    proof {
        lemma2_to64();
    }
    let mut r: u64 = 1;
    let mut k: u64 = 0;
    while k < l
        invariant
            k <= l < 64,
            r == pow2(k as nat),
        decreases l - k,
    {
        proof {
            vstd::arithmetic::power2::lemma_pow2_unfold((k + 1) as nat);
            if k + 1 < 64 {
                vstd::arithmetic::power2::lemma_pow2_strictly_increases((k + 1) as nat, 64);
            }
            assert(r * 2 == pow2((k + 1) as nat));
            vstd::arithmetic::power2::lemma2_to64_rest();
            assert(pow2((k + 1) as nat) < 0x1_0000_0000_0000_0000);
        }
        r = r * 2;
        k = k + 1;
    }
    r
}

/// Whether `r` is the integer square root of `x`.
pub open spec fn is_isqrt(x: nat, r: nat) -> bool {
    r * r <= x < (r + 1) * (r + 1)
}

pub open spec fn isqrt_of(x: nat) -> nat {
    choose|r: nat| is_isqrt(x, r)
}

/// The mean reward of a node in weight units.
pub open spec fn mean_q(value: nat, visits: nat) -> nat {
    ((SCALE * value) / (REWARD_UNIT * visits)) as nat
}

/// The exploration term in weight units.
pub open spec fn explore_q(parent: nat, visits: nat) -> nat {
    isqrt_of(((2 * SCALE * SCALE * ln_q10(parent)) as int / (1024 * visits as int)) as nat)
}

/// The UCT weight of a child with `visits` visits and total reward `value`
/// under a parent with `parent` visits; an unvisited child weighs 0.
pub open spec fn uct_weight(value: nat, visits: nat, parent: nat) -> nat {
    if visits == 0 {
        0
    } else {
        mean_q(value, visits) + explore_q(parent, visits)
    }
}

pub proof fn lemma_floor_log2_below(n: nat, b: nat)
    requires
        n < pow2(b),
    ensures
        floor_log2(n) <= b,
        b > 0 ==> floor_log2(n) < b,
    decreases b,
{
    lemma2_to64();
    if b > 0 {
        vstd::arithmetic::power2::lemma_pow2_unfold(b);
        if n > 1 {
            lemma_floor_log2_below(n / 2, (b - 1) as nat);
        }
    }
}

pub fn log2_floor(n: u64) -> (r: u64)
    ensures
        r == floor_log2(n as nat),
        r < 64,
{
    proof {
        lemma2_to64();
        lemma_floor_log2_below(n as nat, 64);
    }
    let mut x: u64 = n;
    let mut k: u64 = 0;
    while x > 1
        invariant
            k + floor_log2(x as nat) == floor_log2(n as nat),
            floor_log2(n as nat) < 64,
        decreases x,
    {
        x = x / 2;
        k = k + 1;
    }
    k
}

pub proof fn lemma_isqrt_unique(x: nat, r: nat, s: nat)
    requires
        is_isqrt(x, r),
        is_isqrt(x, s),
    ensures
        r == s,
{
    if r < s {
        assert((r + 1) * (r + 1) <= s * s) by (nonlinear_arith)
            requires
                r + 1 <= s,
        ;
    } else if s < r {
        assert((s + 1) * (s + 1) <= r * r) by (nonlinear_arith)
            requires
                s + 1 <= r,
        ;
    }
}

/// The integer square root, for `x` below 2^42.
pub fn isqrt(x: u64) -> (r: u64)
    requires
        x < 4_398_046_511_104,
    ensures
        r == isqrt_of(x as nat),
        is_isqrt(x as nat, r as nat),
{
    let mut lo: u64 = 0;
    let mut hi: u64 = 2_097_152;
    assert(2_097_152 * 2_097_152 == 4_398_046_511_104) by (nonlinear_arith);
    while hi - lo > 1
        invariant
            lo < hi <= 2_097_152,
            lo * lo <= x,
            x < hi * hi,
        decreases hi - lo,
    {
        let mid = lo + (hi - lo) / 2;
        assert(mid * mid <= 2_097_152 * 2_097_152) by (nonlinear_arith)
            requires
                mid <= 2_097_152,
        ;
        if mid * mid <= x {
            lo = mid;
        } else {
            hi = mid;
        }
    }
    proof {
        assert(is_isqrt(x as nat, lo as nat));
        let s = isqrt_of(x as nat);
        assert(is_isqrt(x as nat, s));
        lemma_isqrt_unique(x as nat, lo as nat, s);
    }
    lo
}

/// The UCT weight of a child, as `uct_weight` states it.
pub fn uct_weight_of(value: u64, visits: u64, parent: u64) -> (r: u64)
    requires
        value <= REWARD_UNIT * visits,
        visits <= VISIT_CAP,
        parent <= VISIT_CAP,
    ensures
        r == uct_weight(value as nat, visits as nat, parent as nat),
{
    if visits == 0 {
        return 0;
    }
    let ln = if parent == 0 {
        0
    } else {
        let l = log2_floor(parent);
        let p = pow2_of(l);
        proof {
            lemma_floor_log2_pow(parent as nat);
        }
        assert(parent - p < p);
        let frac = (16 * (parent - p)) / p;
        assert(frac < 16) by (nonlinear_arith)
            requires
                p >= 1,
                parent < 2 * p,
                parent >= p,
                frac == (16 * (parent as int - p as int)) / (p as int),
        ;
        assert(l <= 40) by {
            lemma2_to64();
            vstd::arithmetic::power2::lemma2_to64_rest();
            lemma_floor_log2_below(parent as nat, 41);
        }
        ((16 * l + frac) * LN2_Q10) / 16
    };
    assert(SCALE * value <= 65536 * 46 * VISIT_CAP) by (nonlinear_arith)
        requires
            value <= 46 * visits,
            visits <= VISIT_CAP,
    ;
    let mean = (SCALE * value) / (REWARD_UNIT * visits);
    assert(mean <= SCALE) by (nonlinear_arith)
        requires
            value <= 46 * visits,
            visits >= 1,
            mean == (65536 * value as int) / (46 * visits as int),
    ;
    assert(ln <= 46000);
    assert(2 * SCALE * SCALE * ln <= 8589934592 * 46000) by (nonlinear_arith)
        requires
            ln <= 46000,
    ;
    let num = 2 * SCALE * SCALE * ln;
    assert(num / 1024 < 4_398_046_511_104) by (nonlinear_arith)
        requires
            num <= 8589934592 * 46000,
    ;
    let q = num / (1024 * visits);
    assert(q <= num / 1024) by (nonlinear_arith)
        requires
            visits >= 1,
            q == num as int / (1024 * visits as int),
    ;
    let e = isqrt(q);
    assert(e * e <= q);
    assert(e <= 4_398_046_511_104) by (nonlinear_arith)
        requires
            e * e <= q,
            q < 4_398_046_511_104,
    ;
    mean + e
}

} // verus!
