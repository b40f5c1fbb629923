//! The integer square root, and bounds on products.
use vstd::prelude::*;

verus! {

/// `root` is the integer square root of `n`: the largest number whose
/// square does not exceed `n`.
pub open spec fn is_floor_sqrt(n: int, root: int) -> bool {
    &&& 0 <= root
    &&& root * root <= n
    &&& n < (root + 1) * (root + 1)
}

/// The integer square root of `n`.
pub open spec fn floor_sqrt(n: int) -> int {
    choose|root: int| is_floor_sqrt(n, root)
}

/// Squaring keeps the order of numbers that are not negative.
pub proof fn lemma_square_monotonic(a: int, b: int)
    requires
        0 <= a <= b,
    ensures
        a * a <= b * b,
{
    assert(a * a <= b * b) by (nonlinear_arith)
        requires
            0 <= a <= b,
    ;
}

/// The product of two bounded numbers is bounded by the product of the
/// bounds.
pub proof fn lemma_product_bound(a: int, b: int, limit_a: int, limit_b: int)
    requires
        -limit_a <= a <= limit_a,
        -limit_b <= b <= limit_b,
    ensures
        -(limit_a * limit_b) <= a * b <= limit_a * limit_b,
{
    assert(-(limit_a * limit_b) <= a * b <= limit_a * limit_b) by (nonlinear_arith)
        requires
            -limit_a <= a <= limit_a,
            -limit_b <= b <= limit_b,
    ;
}

/// A number has at most one integer square root.
pub proof fn lemma_floor_sqrt_unique(n: int, r1: int, r2: int)
    requires
        is_floor_sqrt(n, r1),
        is_floor_sqrt(n, r2),
    ensures
        r1 == r2,
{
    if r1 < r2 {
        lemma_square_monotonic(r1 + 1, r2);
    } else if r2 < r1 {
        lemma_square_monotonic(r2 + 1, r1);
    }
}

/// Whatever passes for the integer square root of `n` is the one.
pub proof fn lemma_floor_sqrt_is(n: int, root: int)
    requires
        is_floor_sqrt(n, root),
    ensures
        floor_sqrt(n) == root,
{
    lemma_floor_sqrt_unique(n, root, floor_sqrt(n));
}

/// Every number that is not negative has an integer square root.
pub proof fn lemma_floor_sqrt_exists(n: int)
    requires
        0 <= n,
    ensures
        is_floor_sqrt(n, floor_sqrt(n)),
    decreases n,
{
    if n == 0 {
        assert(is_floor_sqrt(0, 0));
    } else {
        lemma_floor_sqrt_exists(n - 1);
        let r = floor_sqrt(n - 1);
        if n < (r + 1) * (r + 1) {
            assert(is_floor_sqrt(n, r));
        } else {
            assert((r + 1) * (r + 1) < (r + 2) * (r + 2)) by (nonlinear_arith)
                requires
                    0 <= r,
            ;
            assert(is_floor_sqrt(n, r + 1));
        }
    }
}

/// The square root of a square is the number that was squared.
pub proof fn lemma_floor_sqrt_of_square(v: int)
    requires
        0 <= v,
    ensures
        floor_sqrt(v * v) == v,
{
    assert(v * v < (v + 1) * (v + 1)) by (nonlinear_arith)
        requires
            0 <= v,
    ;
    lemma_floor_sqrt_is(v * v, v);
}

/// The integer square root of `n`.
pub fn isqrt(n: u128) -> (root: u64)
    ensures
        is_floor_sqrt(n as int, root as int),
        root == floor_sqrt(n as int),
{
    let mut low: u128 = 0;
    let mut high: u128 = 0x1_0000_0000_0000_0000;
    assert(n < high * high) by (nonlinear_arith)
        requires
            high == 0x1_0000_0000_0000_0000,
            n <= u128::MAX,
    ;
    while high - low > 1
        invariant
            low < high <= 0x1_0000_0000_0000_0000,
            low * low <= n < high * high,
        decreases high - low,
    {
        let mid: u128 = low + (high - low) / 2;
        assert(mid * mid <= 0xFFFF_FFFF_FFFF_FFFF * 0xFFFF_FFFF_FFFF_FFFF) by (nonlinear_arith)
            requires
                0 <= mid <= 0xFFFF_FFFF_FFFF_FFFF,
        ;
        if mid * mid <= n {
            low = mid;
        } else {
            high = mid;
        }
    }
    proof {
        lemma_floor_sqrt_is(n as int, low as int);
    }
    low as u64
}

} // verus!
