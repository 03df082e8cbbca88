//! Fixed-point arithmetic on integers: six decimal places, truncating
//! division, and floor roots.

use vstd::prelude::*;

verus! {

/// The fixed-point representation of 1: values carry six decimal places.
pub const ONE: i128 = 1_000_000;

/// Largest magnitude that the fixed-point operations accept.
pub const LIMIT: i128 = 1_000_000_000_000_000_000;

/// Division that rounds toward zero, for a positive divisor.
pub open spec fn tdiv(a: int, b: int) -> int {
    if a >= 0 {
        a / b
    } else {
        -((-a) / b)
    }
}

/// Fixed-point product, rounded toward zero.
pub open spec fn fmul(a: int, b: int) -> int {
    tdiv(a * b, ONE as int)
}

/// `-bound <= x <= bound`.
pub open spec fn within(x: int, bound: int) -> bool {
    -bound <= x <= bound
}

/// `b` raised to the power `k`.
pub open spec fn ipow(b: int, k: nat) -> int
    decreases k,
{
    if k == 0 {
        1
    } else {
        b * ipow(b, (k - 1) as nat)
    }
}

/// `r` is the largest natural number whose `k`-th power does not exceed `n`.
pub open spec fn is_floor_root(n: int, k: nat, r: int) -> bool {
    0 <= r && ipow(r, k) <= n < ipow(r + 1, k)
}

/// The floor of the `k`-th root of `n`.
pub open spec fn floor_root(n: int, k: nat) -> int {
    choose|r: int| is_floor_root(n, k, r)
}

/// Truncating division is odd in its dividend.
pub proof fn lemma_tdiv_odd(a: int, b: int)
    requires
        b > 0,
    ensures
        tdiv(-a, b) == -tdiv(a, b),
{
    if a == 0 {
        assert(0int / b == 0) by (nonlinear_arith)
            requires
                b > 0,
        ;
    }
}

/// A truncated quotient is no larger than its dividend and has its sign.
pub proof fn lemma_tdiv_bound(a: int, b: int, bound: int)
    requires
        b > 0,
        within(a, bound),
    ensures
        within(tdiv(a, b), bound),
        a >= 0 ==> tdiv(a, b) >= 0,
        a <= 0 ==> tdiv(a, b) <= 0,
{
    if a >= 0 {
        assert(0 <= a / b <= a) by (nonlinear_arith)
            requires
                a >= 0,
                b > 0,
        ;
    } else {
        assert(0 <= (-a) / b <= -a) by (nonlinear_arith)
            requires
                a < 0,
                b > 0,
        ;
    }
}

/// A quotient of a bounded value by a divisor of known size.
pub proof fn lemma_tdiv_scaled(a: int, b: int, bound: int)
    requires
        b > 0,
        bound >= 0,
        within(a, bound * b),
    ensures
        within(tdiv(a, b), bound),
{
    if a >= 0 {
        assert(a / b <= bound) by (nonlinear_arith)
            requires
                0 <= a <= bound * b,
                b > 0,
        ;
        assert(0 <= a / b) by (nonlinear_arith)
            requires
                0 <= a,
                b > 0,
        ;
    } else {
        assert((-a) / b <= bound) by (nonlinear_arith)
            requires
                0 <= -a <= bound * b,
                b > 0,
        ;
        assert(0 <= (-a) / b) by (nonlinear_arith)
            requires
                0 <= -a,
                b > 0,
        ;
    }
}

/// The product of two bounded values is bounded by the product of the
/// bounds.
pub proof fn lemma_mul_within(a: int, b: int, ba: int, bb: int)
    requires
        within(a, ba),
        within(b, bb),
    ensures
        within(a * b, ba * bb),
        (a >= 0 && b >= 0) ==> a * b >= 0,
{
    assert(-(ba * bb) <= a * b <= ba * bb) by (nonlinear_arith)
        requires
            -ba <= a <= ba,
            -bb <= b <= bb,
    ;
    assert((a >= 0 && b >= 0) ==> a * b >= 0) by (nonlinear_arith);
}

/// The fixed-point product of two bounded values is bounded.
pub proof fn lemma_fmul_within(a: int, b: int, ba: int, bb: int)
    requires
        within(a, ba),
        within(b, bb),
    ensures
        within(fmul(a, b), (ba * bb) / (ONE as int)),
        (a >= 0 && b >= 0) ==> fmul(a, b) >= 0,
{
    lemma_mul_within(a, b, ba, bb);
    let p = a * b;
    let m = ba * bb;
    if p >= 0 {
        assert(0 <= p / 1_000_000 <= m / 1_000_000);
    } else {
        assert(0 <= (-p) / 1_000_000 <= m / 1_000_000);
    }
}

/// The fixed-point product is odd in each factor, commutes, and is 0 where
/// a factor is 0.
pub proof fn lemma_fmul_odd(a: int, b: int)
    ensures
        fmul(-a, b) == -fmul(a, b),
        fmul(a, -b) == -fmul(a, b),
        fmul(a, b) == fmul(b, a),
        fmul(0, b) == 0,
        fmul(a, 0) == 0,
{
    assert((-a) * b == -(a * b)) by (nonlinear_arith);
    assert(a * (-b) == -(a * b)) by (nonlinear_arith);
    assert(a * b == b * a) by (nonlinear_arith);
    assert(0 * b == 0) by (nonlinear_arith);
    assert(a * 0 == 0) by (nonlinear_arith);
    lemma_tdiv_odd(a * b, ONE as int);
}

/// Powers of natural numbers rise with the base.
pub proof fn lemma_ipow_monotonic(a: int, b: int, k: nat)
    requires
        0 <= a <= b,
    ensures
        0 <= ipow(a, k) <= ipow(b, k),
    decreases k,
{
    if k > 0 {
        lemma_ipow_monotonic(a, b, (k - 1) as nat);
        let pa = ipow(a, (k - 1) as nat);
        let pb = ipow(b, (k - 1) as nat);
        assert(0 <= a * pa <= b * pb) by (nonlinear_arith)
            requires
                0 <= a <= b,
                0 <= pa <= pb,
        ;
    }
}

/// Powers of a base from 1 on rise with the exponent.
pub proof fn lemma_ipow_grows(b: int, j: nat, k: nat)
    requires
        1 <= b,
        j <= k,
    ensures
        1 <= ipow(b, j) <= ipow(b, k),
    decreases k,
{
    if k == 0 {
    } else if j == k {
        lemma_ipow_grows(b, (k - 1) as nat, (k - 1) as nat);
        let p = ipow(b, (k - 1) as nat);
        assert(1 <= b * p) by (nonlinear_arith)
            requires
                1 <= b,
                1 <= p,
        ;
    } else {
        lemma_ipow_grows(b, j, (k - 1) as nat);
        let p = ipow(b, (k - 1) as nat);
        assert(p <= b * p) by (nonlinear_arith)
            requires
                1 <= b,
                1 <= p,
        ;
    }
}

/// Powers of natural numbers rise strictly with the base, for an exponent
/// from 1 on.
pub proof fn lemma_ipow_strict(a: int, b: int, k: nat)
    requires
        0 <= a < b,
        k >= 1,
    ensures
        0 <= ipow(a, k) < ipow(b, k),
    decreases k,
{
    let pa = ipow(a, (k - 1) as nat);
    let pb = ipow(b, (k - 1) as nat);
    lemma_ipow_monotonic(a, b, (k - 1) as nat);
    lemma_ipow_grows(b, 0, (k - 1) as nat);
    assert(0 <= a * pa < b * pb) by (nonlinear_arith)
        requires
            0 <= a < b,
            0 <= pa <= pb,
            1 <= pb,
    ;
}

/// Every natural number has a floor root of every degree from 1 on.
pub proof fn lemma_floor_root_exists(n: int, k: nat)
    requires
        0 <= n,
        k >= 1,
    ensures
        is_floor_root(n, k, floor_root(n, k)),
    decreases n,
{
    if n == 0 {
        lemma_ipow_strict(0, 1, k);
        assert(ipow(0, k) == 0) by (nonlinear_arith)
            requires
                ipow(0, k) == 0 * ipow(0, (k - 1) as nat),
        ;
        assert(is_floor_root(0, k, 0));
    } else {
        lemma_floor_root_exists(n - 1, k);
        let r = floor_root(n - 1, k);
        if n < ipow(r + 1, k) {
            assert(is_floor_root(n, k, r));
        } else {
            lemma_ipow_strict(r + 1, r + 2, k);
            assert(is_floor_root(n, k, r + 1));
        }
    }
}

/// A floor root is unique, so whoever finds one has found `floor_root`.
pub proof fn lemma_floor_root_unique(n: int, k: nat, r: int)
    requires
        is_floor_root(n, k, r),
    ensures
        floor_root(n, k) == r,
{
    let s = floor_root(n, k);
    assert(is_floor_root(n, k, s));
    if s < r {
        lemma_ipow_monotonic(s + 1, r, k);
    } else if r < s {
        lemma_ipow_monotonic(r + 1, s, k);
    }
}

/// A floor root lies below any bound whose power exceeds the argument.
pub proof fn lemma_floor_root_below(n: int, k: nat, r: int, bound: int)
    requires
        is_floor_root(n, k, r),
        0 <= bound,
        n < ipow(bound, k),
    ensures
        r < bound,
{
    if r >= bound {
        lemma_ipow_monotonic(bound, r, k);
    }
}

/// The floor square root of a number below `bound * bound` is below `bound`.
pub proof fn lemma_sqrt_below(n: int, r: int, bound: int)
    requires
        is_floor_root(n, 2, r),
        0 <= bound,
        n < bound * bound,
    ensures
        0 <= r < bound,
        r * r <= n,
{
    reveal_with_fuel(ipow, 3);
    assert(ipow(bound, 2) == bound * bound) by (nonlinear_arith)
        requires
            ipow(bound, 2) == bound * (bound * 1),
    ;
    assert(ipow(r, 2) == r * r) by (nonlinear_arith)
        requires
            ipow(r, 2) == r * (r * 1),
    ;
    lemma_floor_root_below(n, 2, r, bound);
}

/// The floor square root of 0 is 0.
pub proof fn lemma_sqrt_zero()
    ensures
        floor_root(0, 2) == 0,
{
    reveal_with_fuel(ipow, 3);
    assert(is_floor_root(0, 2, 0));
    lemma_floor_root_unique(0, 2, 0);
}

/// A quotient lies below any bound whose multiple exceeds the dividend.
pub proof fn lemma_div_below(x: int, d: int, bound: int)
    requires
        0 <= x < d * bound,
        d > 0,
    ensures
        0 <= x / d < bound,
{
    assert(0 <= x / d < bound) by (nonlinear_arith)
        requires
            0 <= x < d * bound,
            d > 0,
    ;
}

/// Truncating division of machine integers.
pub(crate) fn div_trunc(a: i128, b: i128) -> (q: i128)
    requires
        b > 0,
    ensures
        q == tdiv(a as int, b as int),
{
    a / b
}

/// Fixed-point product of two values within `LIMIT`.
pub(crate) fn mul_fixed(a: i128, b: i128) -> (r: i128)
    requires
        within(a as int, LIMIT as int),
        within(b as int, LIMIT as int),
    ensures
        r == fmul(a as int, b as int),
{
    proof {
        lemma_mul_within(a as int, b as int, LIMIT as int, LIMIT as int);
    }
    (a * b) / ONE
}

/// `b` to the power `k` for a base whose power is known to fit.
fn pow_exec(b: u128, k: u32, top: Ghost<int>) -> (p: u128)
    requires
        b <= top@,
        ipow(top@, k as nat) <= u128::MAX,
    ensures
        p == ipow(b as int, k as nat),
{
    let mut acc: u128 = 1;
    let mut i: u32 = 0;
    while i < k
        invariant
            i <= k,
            acc == ipow(b as int, i as nat),
            b <= top@,
            ipow(top@, k as nat) <= u128::MAX,
        decreases k - i,
    {
        proof {
            lemma_ipow_monotonic(b as int, top@, (i + 1) as nat);
            if top@ >= 1 {
                lemma_ipow_grows(top@, (i + 1) as nat, k as nat);
            } else {
                assert(b == 0);
                assert(ipow(0, (i + 1) as nat) == 0) by (nonlinear_arith)
                    requires
                        ipow(0, (i + 1) as nat) == 0 * ipow(0, i as nat),
                ;
            }
            assert(ipow(b as int, (i + 1) as nat) == b * ipow(b as int, i as nat));
            assert(b * acc == acc * b) by (nonlinear_arith);
        }
        acc = acc * b;
        i = i + 1;
    }
    acc
}

/// Bisection for the floor of the `k`-th root of `n`, starting from an upper
/// bound `hi` whose `k`-th power exceeds `n`.
fn bisect_root(n: u128, k: u32, hi: u128) -> (r: u128)
    requires
        k >= 1,
        n < ipow(hi as int, k as nat) <= u128::MAX,
    ensures
        is_floor_root(n as int, k as nat, r as int),
        r == floor_root(n as int, k as nat),
        r < hi,
{
    let mut lo: u128 = 0;
    let mut up: u128 = hi;
    proof {
        assert(ipow(0, k as nat) == 0) by (nonlinear_arith)
            requires
                ipow(0, k as nat) == 0 * ipow(0, (k - 1) as nat),
        ;
    }
    while up - lo > 1
        invariant
            k >= 1,
            lo < up <= hi,
            ipow(lo as int, k as nat) <= n < ipow(up as int, k as nat),
            ipow(hi as int, k as nat) <= u128::MAX,
        decreases up - lo,
    {
        let mid = lo + (up - lo) / 2;
        let p = pow_exec(mid, k, Ghost(hi as int));
        if p <= n {
            lo = mid;
        } else {
            up = mid;
        }
    }
    proof {
        lemma_floor_root_unique(n as int, k as nat, lo as int);
    }
    lo
}

/// Floor of the square root.
pub(crate) fn sqrt_floor(n: u128) -> (r: u128)
    requires
        n < 0x1_0000_0000_0000_0000_0000_0000,
    ensures
        is_floor_root(n as int, 2, r as int),
        r == floor_root(n as int, 2),
        r < 0x1_0000_0000_0000,
{
    proof {
        reveal_with_fuel(ipow, 3);
        assert(ipow(0x1_0000_0000_0000, 2) == 0x1_0000_0000_0000_0000_0000_0000)
            by (nonlinear_arith)
            requires
                ipow(0x1_0000_0000_0000, 2) == 0x1_0000_0000_0000 * (0x1_0000_0000_0000 * 1),
        ;
    }
    bisect_root(n, 2, 0x1_0000_0000_0000)
}

/// Floor of the cube root.
pub(crate) fn cbrt_floor(n: u128) -> (r: u128)
    requires
        n < 0x4000_0000_0000_0000_0000,
    ensures
        is_floor_root(n as int, 3, r as int),
        r == floor_root(n as int, 3),
        r < 0x400_0000,
{
    proof {
        reveal_with_fuel(ipow, 4);
        assert(ipow(0x400_0000, 3) == 0x4000_0000_0000_0000_0000) by (nonlinear_arith)
            requires
                ipow(0x400_0000, 3) == 0x400_0000 * (0x400_0000 * (0x400_0000 * 1)),
        ;
    }
    bisect_root(n, 3, 0x400_0000)
}

/// Floor of the fifth root.
pub(crate) fn root5_floor(n: u128) -> (r: u128)
    requires
        n < 0x4000_0000_0000_0000_0000_0000_0000,
    ensures
        is_floor_root(n as int, 5, r as int),
        r == floor_root(n as int, 5),
        r < 0x40_0000,
{
    proof {
        reveal_with_fuel(ipow, 6);
        assert(ipow(0x40_0000, 5) == 0x4000_0000_0000_0000_0000_0000_0000)
            by (nonlinear_arith)
            requires
                ipow(0x40_0000, 5) == 0x40_0000 * (0x40_0000 * (0x40_0000 * (0x40_0000 * (
                0x40_0000 * 1)))),
        ;
    }
    bisect_root(n, 5, 0x40_0000)
}

} // verus!
