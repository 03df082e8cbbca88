//! Sine, cosine, arctangent and the decaying exponential in fixed point.
//!
//! Angles are integers in millionths of a degree; results carry six decimal
//! places. Each function is a short polynomial after a range reduction, so
//! its value is an exact integer function of its argument.

use vstd::prelude::*;
use crate::fixed::{ONE, LIMIT, fmul, within, mul_fixed, lemma_fmul_within, lemma_fmul_odd, lemma_mul_within};

verus! {

/// One degree, in the unit of angles.
pub const DEG: i128 = 1_000_000;

/// `1 - z * t / d`: one step of a nested polynomial.
pub open spec fn poly_step(z: int, t: int, d: int) -> int {
    ONE - fmul(z, t) / d
}

/// Radians (six decimal places) of an angle in millionths of a degree.
pub open spec fn radians(y: int) -> int {
    y * 17453293 / 1_000_000_000
}

/// Sine of an angle between 0 and 45 degrees.
pub open spec fn sin_small(y: int) -> int {
    let r = radians(y);
    let z = r * r / (ONE as int);
    let t0 = ONE - z / 72;
    let t1 = poly_step(z, t0, 42);
    let t2 = poly_step(z, t1, 20);
    let t3 = poly_step(z, t2, 6);
    fmul(r, t3)
}

/// Cosine of an angle between 0 and 45 degrees.
pub open spec fn cos_small(y: int) -> int {
    let r = radians(y);
    let z = r * r / (ONE as int);
    let t0 = ONE - z / 90;
    let t1 = poly_step(z, t0, 56);
    let t2 = poly_step(z, t1, 30);
    let t3 = poly_step(z, t2, 12);
    poly_step(z, t3, 2)
}

/// Sine of an angle between 0 and 90 degrees.
pub open spec fn sin_quarter(y: int) -> int {
    if y <= 45 * DEG {
        sin_small(y)
    } else {
        cos_small(90 * DEG - y)
    }
}

/// Sine of any angle.
pub open spec fn sin_deg(x: int) -> int {
    let m = x % (360 * DEG as int);
    if m <= 90 * DEG {
        sin_quarter(m)
    } else if m <= 180 * DEG {
        sin_quarter(180 * DEG - m)
    } else if m <= 270 * DEG {
        -sin_quarter(m - 180 * DEG)
    } else {
        -sin_quarter(360 * DEG - m)
    }
}

/// Sine as an odd function: the sign of the angle is the sign of the result.
pub open spec fn sin_signed(x: int) -> int {
    if x >= 0 {
        sin_deg(x)
    } else {
        -sin_deg(-x)
    }
}

/// Cosine of any angle.
pub open spec fn cos_deg(x: int) -> int {
    sin_deg(x + 90 * DEG)
}

/// Arctangent, in millionths of a degree, of a ratio up to the tangent of
/// 22.5 degrees.
pub open spec fn atan_small(t: int) -> int {
    let z = t * t / (ONE as int);
    let q6 = 76923;
    let q5 = 90909 - fmul(z, q6);
    let q4 = 111111 - fmul(z, q5);
    let q3 = 142857 - fmul(z, q4);
    let q2 = 200000 - fmul(z, q3);
    let q1 = 333333 - fmul(z, q2);
    let q0 = ONE - fmul(z, q1);
    fmul(t, q0) * 57295780 / (ONE as int)
}

/// Arctangent of a ratio between 0 and 1.
pub open spec fn atan_unit(t: int) -> int {
    if t <= 414214 {
        atan_small(t)
    } else {
        45 * DEG - atan_small((ONE - t) * ONE / (ONE + t))
    }
}

/// Arctangent of `ay / ax` for non-negative coordinates, not both zero.
pub open spec fn atan_first(ay: int, ax: int) -> int {
    if ay <= ax {
        atan_unit(ay * ONE / ax)
    } else {
        90 * DEG - atan_unit(ax * ONE / ay)
    }
}

/// The absolute value.
pub open spec fn abs(x: int) -> int {
    if x >= 0 {
        x
    } else {
        -x
    }
}

/// The angle of the point `(x, y)`, from 0 up to but not including 360
/// degrees; 0 for the origin.
pub open spec fn atan2_deg(y: int, x: int) -> int {
    if x == 0 && y == 0 {
        0
    } else {
        let base = atan_first(abs(y), abs(x));
        if x >= 0 && y >= 0 {
            base
        } else if x < 0 && y >= 0 {
            180 * DEG - base
        } else if x < 0 && y < 0 {
            180 * DEG + base
        } else if base == 0 {
            0
        } else {
            360 * DEG - base
        }
    }
}

/// `e` to the power `-k`, to six decimal places.
pub open spec fn exp_neg_whole(k: int) -> int {
    if k <= 0 {
        1000000
    } else if k == 1 {
        367879
    } else if k == 2 {
        135335
    } else if k == 3 {
        49787
    } else if k == 4 {
        18316
    } else if k == 5 {
        6738
    } else if k == 6 {
        2479
    } else if k == 7 {
        912
    } else if k == 8 {
        335
    } else if k == 9 {
        123
    } else if k == 10 {
        45
    } else if k == 11 {
        17
    } else if k == 12 {
        6
    } else if k == 13 {
        2
    } else if k == 14 {
        1
    } else {
        0
    }
}

/// `e` to the power `-f` for a fraction `f` below 1.
pub open spec fn exp_neg_fraction(f: int) -> int {
    let t0 = ONE - f / 9;
    let t1 = poly_step(f, t0, 8);
    let t2 = poly_step(f, t1, 7);
    let t3 = poly_step(f, t2, 6);
    let t4 = poly_step(f, t3, 5);
    let t5 = poly_step(f, t4, 4);
    let t6 = poly_step(f, t5, 3);
    let t7 = poly_step(f, t6, 2);
    poly_step(f, t7, 1)
}

/// `e` to the power `-u` for `u >= 0`.
pub open spec fn exp_neg(u: int) -> int {
    fmul(exp_neg_whole(u / (ONE as int)), exp_neg_fraction(u % (ONE as int)))
}

/// A step of a nested polynomial stays between 0 and 1.
pub proof fn lemma_poly_step_range(z: int, t: int, d: int)
    requires
        0 <= z <= ONE,
        0 <= t <= ONE,
        d >= 1,
    ensures
        0 <= poly_step(z, t, d) <= ONE,
        0 <= fmul(z, t) <= ONE,
{
    lemma_fmul_within(z, t, ONE as int, ONE as int);
    let m = fmul(z, t);
    assert(0 <= m / d <= m) by (nonlinear_arith)
        requires
            m >= 0,
            d >= 1,
    ;
}

/// Up to 45 degrees the radians stay below 0.7854 and their square below 1.
pub proof fn lemma_radians_range(y: int)
    requires
        0 <= y <= 45 * DEG,
    ensures
        0 <= radians(y) <= 785399,
        0 <= radians(y) * radians(y) <= 785399 * 785399,
        0 <= radians(y) * radians(y) / (ONE as int) <= ONE,
{
    lemma_mul_within(radians(y), radians(y), 785399, 785399);
}

/// Up to 45 degrees the sine lies between 0 and 1.
pub proof fn lemma_sin_small_range(y: int)
    requires
        0 <= y <= 45 * DEG,
    ensures
        0 <= sin_small(y) <= ONE,
{
    lemma_radians_range(y);
    let r = radians(y);
    let z = r * r / (ONE as int);
    let t0 = ONE - z / 72;
    let t1 = poly_step(z, t0, 42);
    let t2 = poly_step(z, t1, 20);
    let t3 = poly_step(z, t2, 6);
    lemma_poly_step_range(z, t0, 42);
    lemma_poly_step_range(z, t1, 20);
    lemma_poly_step_range(z, t2, 6);
    lemma_poly_step_range(r, t3, 1);
}

/// Up to 45 degrees the cosine lies between 0 and 1.
pub proof fn lemma_cos_small_range(y: int)
    requires
        0 <= y <= 45 * DEG,
    ensures
        0 <= cos_small(y) <= ONE,
{
    lemma_radians_range(y);
    let r = radians(y);
    let z = r * r / (ONE as int);
    let t0 = ONE - z / 90;
    let t1 = poly_step(z, t0, 56);
    let t2 = poly_step(z, t1, 30);
    let t3 = poly_step(z, t2, 12);
    lemma_poly_step_range(z, t0, 56);
    lemma_poly_step_range(z, t1, 30);
    lemma_poly_step_range(z, t2, 12);
    lemma_poly_step_range(z, t3, 2);
}

/// Up to 90 degrees the sine lies between 0 and 1.
pub proof fn lemma_sin_quarter_range(y: int)
    requires
        0 <= y <= 90 * DEG,
    ensures
        0 <= sin_quarter(y) <= ONE,
{
    if y <= 45 * DEG {
        lemma_sin_small_range(y);
    } else {
        lemma_cos_small_range(90 * DEG - y);
    }
}

/// The sine never leaves the interval from -1 to 1, and is 0 at 0.
pub proof fn lemma_sin_deg_range(x: int)
    ensures
        within(sin_deg(x), ONE as int),
        within(sin_signed(x), ONE as int),
        sin_deg(0) == 0,
        sin_signed(0) == 0,
        sin_signed(-x) == -sin_signed(x),
{
    let m = x % (360 * DEG as int);
    if m <= 90 * DEG {
        lemma_sin_quarter_range(m);
    } else if m <= 180 * DEG {
        lemma_sin_quarter_range(180 * DEG - m);
    } else if m <= 270 * DEG {
        lemma_sin_quarter_range(m - 180 * DEG);
    } else {
        lemma_sin_quarter_range(360 * DEG - m);
    }
    let n = (-x) % (360 * DEG as int);
    if n <= 90 * DEG {
        lemma_sin_quarter_range(n);
    } else if n <= 180 * DEG {
        lemma_sin_quarter_range(180 * DEG - n);
    } else if n <= 270 * DEG {
        lemma_sin_quarter_range(n - 180 * DEG);
    } else {
        lemma_sin_quarter_range(360 * DEG - n);
    }
    assert(radians(0) == 0);
    assert(fmul(0, poly_step(0, poly_step(0, poly_step(0, ONE - 0int / 72, 42), 20), 6)) == 0) by {
        lemma_fmul_odd(0, poly_step(0, poly_step(0, poly_step(0, ONE - 0int / 72, 42), 20), 6));
    }
    assert(sin_small(0) == 0);
}

/// The arctangent of a small ratio lies between 0 and 45 degrees.
pub proof fn lemma_atan_small_range(t: int)
    requires
        0 <= t <= 414214,
    ensures
        0 <= atan_small(t) <= 45 * DEG,
{
    let z = t * t / (ONE as int);
    lemma_mul_within(t, t, 414214, 414214);
    assert(0 <= z <= 171574);
    let q6 = 76923;
    let q5 = 90909 - fmul(z, q6);
    let q4 = 111111 - fmul(z, q5);
    let q3 = 142857 - fmul(z, q4);
    let q2 = 200000 - fmul(z, q3);
    let q1 = 333333 - fmul(z, q2);
    let q0 = ONE - fmul(z, q1);
    lemma_fmul_within(z, q6, 171574, 76923);
    lemma_fmul_within(z, q5, 171574, 90909);
    lemma_fmul_within(z, q4, 171574, 111111);
    lemma_fmul_within(z, q3, 171574, 142857);
    lemma_fmul_within(z, q2, 171574, 200000);
    lemma_fmul_within(z, q1, 171574, 333333);
    lemma_fmul_within(t, q0, 414214, ONE as int);
}

/// The arctangent of a ratio up to 1 lies between 0 and 45 degrees.
pub proof fn lemma_atan_unit_range(t: int)
    requires
        0 <= t <= ONE,
    ensures
        0 <= atan_unit(t) <= 45 * DEG,
{
    if t <= 414214 {
        lemma_atan_small_range(t);
    } else {
        let a = (ONE - t) * ONE;
        let b = ONE + t;
        assert(0 <= a / b <= 414214) by (nonlinear_arith)
            requires
                0 <= a,
                b > 0,
                a <= 414214 * b,
        ;
        lemma_atan_small_range(a / b);
    }
}

/// The ratio of a value to one that is no smaller lies between 0 and 1.
pub proof fn lemma_ratio_unit(a: int, b: int)
    requires
        0 <= a <= b,
        b > 0,
    ensures
        0 <= a * ONE / b <= ONE,
{
    assert(0 <= a * ONE / b <= ONE) by (nonlinear_arith)
        requires
            0 <= a <= b,
            b > 0,
    ;
}

/// The decaying exponential lies between 0 and 1.
pub proof fn lemma_exp_neg_range(u: int)
    requires
        u >= 0,
    ensures
        0 <= exp_neg(u) <= ONE,
{
    let f = u % (ONE as int);
    let t0 = ONE - f / 9;
    let t1 = poly_step(f, t0, 8);
    let t2 = poly_step(f, t1, 7);
    let t3 = poly_step(f, t2, 6);
    let t4 = poly_step(f, t3, 5);
    let t5 = poly_step(f, t4, 4);
    let t6 = poly_step(f, t5, 3);
    let t7 = poly_step(f, t6, 2);
    lemma_poly_step_range(f, t0, 8);
    lemma_poly_step_range(f, t1, 7);
    lemma_poly_step_range(f, t2, 6);
    lemma_poly_step_range(f, t3, 5);
    lemma_poly_step_range(f, t4, 4);
    lemma_poly_step_range(f, t5, 3);
    lemma_poly_step_range(f, t6, 2);
    lemma_poly_step_range(f, t7, 1);
    lemma_poly_step_range(exp_neg_whole(u / (ONE as int)), exp_neg_fraction(f), 1);
}

/// One step of a nested polynomial.
fn poly_step_exec(z: i128, t: i128, d: i128) -> (r: i128)
    requires
        0 <= z <= ONE,
        0 <= t <= ONE,
        d >= 1,
    ensures
        r == poly_step(z as int, t as int, d as int),
        0 <= r <= ONE,
{
    proof {
        lemma_poly_step_range(z as int, t as int, d as int);
    }
    ONE - mul_fixed(z, t) / d
}

/// Sine up to 45 degrees.
fn sin_small_exec(y: i128) -> (s: i128)
    requires
        0 <= y <= 45 * DEG,
    ensures
        s == sin_small(y as int),
        0 <= s <= ONE,
{
    proof {
        lemma_radians_range(y as int);
        lemma_sin_small_range(y as int);
    }
    let r = y * 17453293 / 1_000_000_000;
    let z = r * r / ONE;
    let t0 = ONE - z / 72;
    let t1 = poly_step_exec(z, t0, 42);
    let t2 = poly_step_exec(z, t1, 20);
    let t3 = poly_step_exec(z, t2, 6);
    mul_fixed(r, t3)
}

/// Cosine up to 45 degrees.
fn cos_small_exec(y: i128) -> (s: i128)
    requires
        0 <= y <= 45 * DEG,
    ensures
        s == cos_small(y as int),
        0 <= s <= ONE,
{
    proof {
        lemma_radians_range(y as int);
    }
    let r = y * 17453293 / 1_000_000_000;
    let z = r * r / ONE;
    let t0 = ONE - z / 90;
    let t1 = poly_step_exec(z, t0, 56);
    let t2 = poly_step_exec(z, t1, 30);
    let t3 = poly_step_exec(z, t2, 12);
    poly_step_exec(z, t3, 2)
}

/// Sine up to 90 degrees.
fn sin_quarter_exec(y: i128) -> (s: i128)
    requires
        0 <= y <= 90 * DEG,
    ensures
        s == sin_quarter(y as int),
        0 <= s <= ONE,
{
    if y <= 45 * DEG {
        sin_small_exec(y)
    } else {
        cos_small_exec(90 * DEG - y)
    }
}

/// Sine of a non-negative angle.
pub(crate) fn sin_exec(x: i128) -> (s: i128)
    requires
        0 <= x <= LIMIT,
    ensures
        s == sin_deg(x as int),
        within(s as int, ONE as int),
{
    let m = x % (360 * DEG);
    if m <= 90 * DEG {
        sin_quarter_exec(m)
    } else if m <= 180 * DEG {
        sin_quarter_exec(180 * DEG - m)
    } else if m <= 270 * DEG {
        -sin_quarter_exec(m - 180 * DEG)
    } else {
        -sin_quarter_exec(360 * DEG - m)
    }
}

/// Sine of an angle of either sign.
pub(crate) fn sin_signed_exec(x: i128) -> (s: i128)
    requires
        within(x as int, LIMIT as int),
    ensures
        s == sin_signed(x as int),
        within(s as int, ONE as int),
{
    if x >= 0 {
        sin_exec(x)
    } else {
        -sin_exec(-x)
    }
}

/// Cosine of a non-negative angle.
pub(crate) fn cos_exec(x: i128) -> (s: i128)
    requires
        0 <= x <= LIMIT - 90 * DEG,
    ensures
        s == cos_deg(x as int),
        within(s as int, ONE as int),
{
    sin_exec(x + 90 * DEG)
}

/// Arctangent of a small ratio.
fn atan_small_exec(t: i128) -> (a: i128)
    requires
        0 <= t <= 414214,
    ensures
        a == atan_small(t as int),
        0 <= a <= 45 * DEG,
{
    proof {
        lemma_atan_small_range(t as int);
        lemma_mul_within(t as int, t as int, 414214, 414214);
    }
    let z = t * t / ONE;
    let q6: i128 = 76923;
    proof {
        lemma_fmul_within(z as int, q6 as int, 171574, 76923);
    }
    let q5 = 90909 - mul_fixed(z, q6);
    proof {
        lemma_fmul_within(z as int, q5 as int, 171574, 90909);
    }
    let q4 = 111111 - mul_fixed(z, q5);
    proof {
        lemma_fmul_within(z as int, q4 as int, 171574, 111111);
    }
    let q3 = 142857 - mul_fixed(z, q4);
    proof {
        lemma_fmul_within(z as int, q3 as int, 171574, 142857);
    }
    let q2 = 200000 - mul_fixed(z, q3);
    proof {
        lemma_fmul_within(z as int, q2 as int, 171574, 200000);
    }
    let q1 = 333333 - mul_fixed(z, q2);
    proof {
        lemma_fmul_within(z as int, q1 as int, 171574, 333333);
    }
    let q0 = ONE - mul_fixed(z, q1);
    proof {
        lemma_fmul_within(t as int, q0 as int, 414214, ONE as int);
    }
    mul_fixed(t, q0) * 57295780 / ONE
}

/// Arctangent of a ratio up to 1.
fn atan_unit_exec(t: i128) -> (a: i128)
    requires
        0 <= t <= ONE,
    ensures
        a == atan_unit(t as int),
        0 <= a <= 45 * DEG,
{
    proof {
        lemma_atan_unit_range(t as int);
    }
    if t <= 414214 {
        atan_small_exec(t)
    } else {
        let a = (ONE - t) * ONE;
        let b = ONE + t;
        proof {
            assert(0 <= a / b <= 414214) by (nonlinear_arith)
                requires
                    0 <= a,
                    b > 0,
                    a <= 414214 * b,
            ;
        }
        45 * DEG - atan_small_exec(a / b)
    }
}

/// Arctangent in the first quadrant.
fn atan_first_exec(ay: i128, ax: i128) -> (a: i128)
    requires
        0 <= ay <= 1_000_000_000_000,
        0 <= ax <= 1_000_000_000_000,
        ay > 0 || ax > 0,
    ensures
        a == atan_first(ay as int, ax as int),
        0 <= a <= 90 * DEG,
{
    if ay <= ax {
        proof {
            lemma_ratio_unit(ay as int, ax as int);
            lemma_mul_within(ay as int, ONE as int, 1_000_000_000_000, ONE as int);
        }
        atan_unit_exec(ay * ONE / ax)
    } else {
        proof {
            lemma_ratio_unit(ax as int, ay as int);
            lemma_mul_within(ax as int, ONE as int, 1_000_000_000_000, ONE as int);
        }
        90 * DEG - atan_unit_exec(ax * ONE / ay)
    }
}

/// The angle of the point `(x, y)`.
pub(crate) fn atan2_exec(y: i128, x: i128) -> (a: i128)
    requires
        within(y as int, 1_000_000_000_000),
        within(x as int, 1_000_000_000_000),
    ensures
        a == atan2_deg(y as int, x as int),
        0 <= a < 360 * DEG,
{
    if x == 0 && y == 0 {
        return 0;
    }
    let ay = if y >= 0 { y } else { -y };
    let ax = if x >= 0 { x } else { -x };
    let base = atan_first_exec(ay, ax);
    if x >= 0 && y >= 0 {
        base
    } else if x < 0 && y >= 0 {
        180 * DEG - base
    } else if x < 0 && y < 0 {
        180 * DEG + base
    } else if base == 0 {
        0
    } else {
        360 * DEG - base
    }
}

/// `e` to the power `-k`.
fn exp_neg_whole_exec(k: i128) -> (e: i128)
    ensures
        e == exp_neg_whole(k as int),
        0 <= e <= ONE,
{
    if k <= 0 {
        1000000
    } else if k == 1 {
        367879
    } else if k == 2 {
        135335
    } else if k == 3 {
        49787
    } else if k == 4 {
        18316
    } else if k == 5 {
        6738
    } else if k == 6 {
        2479
    } else if k == 7 {
        912
    } else if k == 8 {
        335
    } else if k == 9 {
        123
    } else if k == 10 {
        45
    } else if k == 11 {
        17
    } else if k == 12 {
        6
    } else if k == 13 {
        2
    } else if k == 14 {
        1
    } else {
        0
    }
}

/// `e` to the power `-u`.
pub(crate) fn exp_neg_exec(u: i128) -> (e: i128)
    requires
        0 <= u,
    ensures
        e == exp_neg(u as int),
        0 <= e <= ONE,
{
    proof {
        lemma_exp_neg_range(u as int);
    }
    let whole = exp_neg_whole_exec(u / ONE);
    let f = u % ONE;
    let t0 = ONE - f / 9;
    let t1 = poly_step_exec(f, t0, 8);
    let t2 = poly_step_exec(f, t1, 7);
    let t3 = poly_step_exec(f, t2, 6);
    let t4 = poly_step_exec(f, t3, 5);
    let t5 = poly_step_exec(f, t4, 4);
    let t6 = poly_step_exec(f, t5, 3);
    let t7 = poly_step_exec(f, t6, 2);
    let t8 = poly_step_exec(f, t7, 1);
    mul_fixed(whole, t8)
}

} // verus!
