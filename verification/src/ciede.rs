//! The CIEDE2000 color difference with adjustable component weights, in
//! fixed point.

use vstd::prelude::*;
use crate::fixed::{
    ONE, fmul, tdiv, within, floor_root, is_floor_root, mul_fixed, div_trunc, sqrt_floor,
    lemma_sqrt_below, lemma_sqrt_zero, lemma_div_below, lemma_floor_root_exists,
    lemma_fmul_odd, lemma_fmul_within, lemma_mul_within, lemma_tdiv_bound, lemma_tdiv_odd,
    lemma_tdiv_scaled,
};
use crate::trig::{
    DEG, abs, atan2_deg, cos_deg, exp_neg, sin_deg, sin_signed, atan2_exec, cos_exec,
    exp_neg_exec, sin_exec, sin_signed_exec, lemma_exp_neg_range, lemma_sin_deg_range,
};
use crate::lab::{Lab, lab_in_range};

verus! {

/// Largest weight that the difference accepts, in ten-thousandths.
pub const MAX_WEIGHT: i128 = 100_000_000_000;

/// Chroma: the length of the `(a, b)` vector.
pub open spec fn chroma(a: int, b: int) -> int {
    floor_root(a * a + b * b, 2)
}

/// `sqrt(c^7 / (c^7 + 25^7))` for a mean chroma `c`.
pub open spec fn chroma_gain(xc: int) -> int {
    let q = xc / 25;
    let q2 = q * q / (ONE as int);
    let q4 = q2 * q2 / (ONE as int);
    let q6 = q4 * q2 / (ONE as int);
    let q7 = q6 * q / (ONE as int);
    floor_root(q7 * ONE / (q7 + ONE) * ONE, 2)
}

/// The `a` coordinate stretched by `1 + (1 - gain) / 2`.
pub open spec fn stretch(a: int, gain: int) -> int {
    a + fmul(tdiv(a, 2), ONE - gain)
}

/// The signed difference of two hue angles, between -180 and 180 degrees.
pub open spec fn hue_delta(h1: int, h2: int) -> int {
    if abs(h1 - h2) <= 180 * DEG {
        h2 - h1
    } else if h2 <= h1 {
        h2 - h1 + 360 * DEG
    } else {
        h2 - h1 - 360 * DEG
    }
}

/// The mean of two hue angles; their sum where either color has no chroma.
pub open spec fn hue_mean(h1: int, h2: int, c1: int, c2: int) -> int {
    if c1 == 0 || c2 == 0 {
        h1 + h2
    } else if abs(h1 - h2) <= 180 * DEG {
        (h1 + h2) / 2
    } else if h1 + h2 < 360 * DEG {
        (h1 + h2 + 360 * DEG) / 2
    } else {
        (h1 + h2 - 360 * DEG) / 2
    }
}

/// `T = 1 - 0.17 cos(h - 30) + 0.24 cos(2h) + 0.32 cos(3h + 6) - 0.20 cos(4h - 63)`.
pub open spec fn hue_factor(xh: int) -> int {
    ONE - fmul(170000, cos_deg(xh + 330 * DEG)) + fmul(240000, cos_deg(2 * xh)) + fmul(
        320000,
        cos_deg(3 * xh + 6 * DEG),
    ) - fmul(200000, cos_deg(4 * xh + 297 * DEG))
}

/// `S_L = 1 + 0.015 (L - 50)^2 / sqrt(20 + (L - 50)^2)`.
pub open spec fn light_scale(xl: int) -> int {
    let d = xl - 50 * ONE;
    let d2 = d * d / (ONE as int);
    ONE + 15 * d2 * ONE / (1000 * floor_root((20 * ONE + d2) * ONE, 2))
}

/// `R_T = -2 sqrt(c^7 / (c^7 + 25^7)) sin(60 exp(-((h - 275) / 25)^2))`.
pub open spec fn rotation(xc: int, xh: int) -> int {
    let w = tdiv(xh - 275 * DEG, 25);
    -2 * fmul(chroma_gain(xc), sin_deg(60 * exp_neg(w * w / (ONE as int))))
}

/// What the difference of two colors is computed from: the differences of
/// lightness, chroma and hue, and the mean lightness, chroma and hue.
pub struct Terms {
    pub dl: i128,
    pub dc: i128,
    pub dh: i128,
    pub xl: i128,
    pub xc: i128,
    pub xh: i128,
}

impl View for Terms {
    type V = (int, int, int, int, int, int);

    open spec fn view(&self) -> (int, int, int, int, int, int) {
        (
            self.dl as int,
            self.dc as int,
            self.dh as int,
            self.xl as int,
            self.xc as int,
            self.xh as int,
        )
    }
}

/// The terms `(dl, dc, dh, xl, xc, xh)` of two L*a*b* colors.
pub open spec fn terms_of(lab1: (int, int, int), lab2: (int, int, int)) -> (
    int,
    int,
    int,
    int,
    int,
    int,
) {
    let gain = chroma_gain((chroma(lab1.1, lab1.2) + chroma(lab2.1, lab2.2)) / 2);
    let a1 = stretch(lab1.1, gain);
    let a2 = stretch(lab2.1, gain);
    let c1 = chroma(a1, lab1.2);
    let c2 = chroma(a2, lab2.2);
    let h1 = atan2_deg(lab1.2, a1);
    let h2 = atan2_deg(lab2.2, a2);
    (
        lab2.0 - lab1.0,
        c2 - c1,
        2 * fmul(floor_root(c1 * c2, 2), sin_signed(tdiv(hue_delta(h1, h2), 2))),
        tdiv(lab1.0 + lab2.0, 2),
        (c1 + c2) / 2,
        hue_mean(h1, h2, c1, c2),
    )
}

/// One component of the difference: `delta / (scale * weight)`, the weight
/// in ten-thousandths.
pub open spec fn weighted(delta: int, scale: int, weight: int) -> int {
    tdiv(delta * ONE * 10000, scale * weight)
}

/// The difference computed from its terms: the three weighted components in
/// quadrature, plus the rotation term.
pub open spec fn combine(t: (int, int, int, int, int, int), kh: int, kc: int, kl: int) -> int {
    let lp = weighted(t.0, light_scale(t.3), kl);
    let cp = weighted(t.1, ONE + 45 * t.4 / 1000, kc);
    let hp = weighted(t.2, ONE + fmul(15 * t.4 / 1000, hue_factor(t.5)), kh);
    let total = fmul(lp, lp) + fmul(cp, cp) + fmul(hp, hp) + fmul(
        fmul(rotation(t.4, t.5), cp),
        hp,
    );
    floor_root(
        if total < 0 {
            0
        } else {
            total * ONE
        },
        2,
    )
}

/// The weighted CIEDE2000 difference of two L*a*b* colors, with six decimal
/// places; the weights in ten-thousandths.
pub open spec fn delta_e(
    lab1: (int, int, int),
    lab2: (int, int, int),
    kh: int,
    kc: int,
    kl: int,
) -> int {
    combine(terms_of(lab1, lab2), kh, kc, kl)
}

/// The bounds that the terms of two colors keep.
pub open spec fn terms_in_range(t: (int, int, int, int, int, int)) -> bool {
    &&& within(t.0, 220_000_000)
    &&& within(t.1, 1_500_000_000)
    &&& within(t.2, 3_000_000_000)
    &&& within(t.3, 110_000_000)
    &&& 0 <= t.4 <= 1_500_000_000
    &&& 0 <= t.5 < 720 * DEG
}

/// Chroma.
pub(crate) fn chroma_exec(a: i128, b: i128) -> (c: i128)
    requires
        within(a as int, 1_000_000_000),
        within(b as int, 1_000_000_000),
    ensures
        c == chroma(a as int, b as int),
        0 <= c < 1_500_000_000,
        is_floor_root(a * a + b * b, 2, c as int),
{
    proof {
        lemma_mul_within(a as int, a as int, 1_000_000_000, 1_000_000_000);
        lemma_mul_within(b as int, b as int, 1_000_000_000, 1_000_000_000);
        assert(a * a >= 0) by (nonlinear_arith);
        assert(b * b >= 0) by (nonlinear_arith);
    }
    let n = a * a + b * b;
    let r = sqrt_floor(n as u128);
    proof {
        lemma_sqrt_below(n as int, r as int, 1_500_000_000);
    }
    r as i128
}

/// `sqrt(c^7 / (c^7 + 25^7))`.
pub(crate) fn chroma_gain_exec(xc: i128) -> (g: i128)
    requires
        0 <= xc <= 1_500_000_000,
    ensures
        g == chroma_gain(xc as int),
        0 <= g < ONE,
{
    let q = xc / 25;
    proof {
        lemma_mul_within(q as int, q as int, 60_000_000, 60_000_000);
    }
    let q2 = q * q / ONE;
    proof {
        lemma_mul_within(q2 as int, q2 as int, 3_600_000_000, 3_600_000_000);
    }
    let q4 = q2 * q2 / ONE;
    proof {
        lemma_mul_within(q4 as int, q2 as int, 12_960_000_000_000, 3_600_000_000);
    }
    let q6 = q4 * q2 / ONE;
    proof {
        lemma_mul_within(q6 as int, q as int, 46_656_000_000_000_000, 60_000_000);
    }
    let q7 = q6 * q / ONE;
    proof {
        lemma_mul_within(q7 as int, ONE as int, 2_799_360_000_000_000_000, ONE as int);
        assert(q7 * ONE < (q7 + ONE) * ONE) by (nonlinear_arith)
            requires
                q7 >= 0,
        ;
        lemma_div_below(q7 * ONE, q7 + ONE, ONE as int);
    }
    let ratio = q7 * ONE / (q7 + ONE);
    let r = sqrt_floor((ratio * ONE) as u128);
    proof {
        lemma_sqrt_below(ratio * ONE, r as int, ONE as int);
    }
    r as i128
}

/// The stretched `a` coordinate.
fn stretch_exec(a: i128, gain: i128) -> (s: i128)
    requires
        within(a as int, 600_000_000),
        0 <= gain <= ONE,
    ensures
        s == stretch(a as int, gain as int),
        within(s as int, 900_000_000),
{
    proof {
        lemma_tdiv_bound(a as int, 2, 600_000_000);
        lemma_fmul_within(tdiv(a as int, 2), ONE - gain, 300_000_000, ONE as int);
    }
    a + mul_fixed(div_trunc(a, 2), ONE - gain)
}

/// The signed difference of two hue angles.
fn hue_delta_exec(h1: i128, h2: i128) -> (d: i128)
    requires
        0 <= h1 < 360 * DEG,
        0 <= h2 < 360 * DEG,
    ensures
        d == hue_delta(h1 as int, h2 as int),
        within(d as int, 180 * DEG),
{
    let diff = if h1 >= h2 {
        h1 - h2
    } else {
        h2 - h1
    };
    if diff <= 180 * DEG {
        h2 - h1
    } else if h2 <= h1 {
        h2 - h1 + 360 * DEG
    } else {
        h2 - h1 - 360 * DEG
    }
}

/// The mean of two hue angles.
fn hue_mean_exec(h1: i128, h2: i128, c1: i128, c2: i128) -> (m: i128)
    requires
        0 <= h1 < 360 * DEG,
        0 <= h2 < 360 * DEG,
    ensures
        m == hue_mean(h1 as int, h2 as int, c1 as int, c2 as int),
        0 <= m < 720 * DEG,
{
    let diff = if h1 >= h2 {
        h1 - h2
    } else {
        h2 - h1
    };
    if c1 == 0 || c2 == 0 {
        h1 + h2
    } else if diff <= 180 * DEG {
        (h1 + h2) / 2
    } else if h1 + h2 < 360 * DEG {
        (h1 + h2 + 360 * DEG) / 2
    } else {
        (h1 + h2 - 360 * DEG) / 2
    }
}

/// `T` lies between 0.07 and 1.93.
pub proof fn lemma_hue_factor_range(xh: int)
    ensures
        70_000 <= hue_factor(xh) <= 1_930_000,
{
    lemma_sin_deg_range(xh + 330 * DEG + 90 * DEG);
    lemma_sin_deg_range(2 * xh + 90 * DEG);
    lemma_sin_deg_range(3 * xh + 6 * DEG + 90 * DEG);
    lemma_sin_deg_range(4 * xh + 297 * DEG + 90 * DEG);
    lemma_fmul_within(170000, cos_deg(xh + 330 * DEG), 170000, ONE as int);
    lemma_fmul_within(240000, cos_deg(2 * xh), 240000, ONE as int);
    lemma_fmul_within(320000, cos_deg(3 * xh + 6 * DEG), 320000, ONE as int);
    lemma_fmul_within(200000, cos_deg(4 * xh + 297 * DEG), 200000, ONE as int);
}

/// `T`.
fn hue_factor_exec(xh: i128) -> (t: i128)
    requires
        0 <= xh < 720 * DEG,
    ensures
        t == hue_factor(xh as int),
        70_000 <= t <= 1_930_000,
{
    proof {
        lemma_hue_factor_range(xh as int);
    }
    let c1 = cos_exec(xh + 330 * DEG);
    let c2 = cos_exec(2 * xh);
    let c3 = cos_exec(3 * xh + 6 * DEG);
    let c4 = cos_exec(4 * xh + 297 * DEG);
    ONE - mul_fixed(170000, c1) + mul_fixed(240000, c2) + mul_fixed(320000, c3) - mul_fixed(
        200000,
        c4,
    )
}

/// `S_L` is at least 1 for a mean lightness in range.
pub proof fn lemma_light_scale_range(xl: int)
    requires
        within(xl, 110_000_000),
    ensures
        ONE <= light_scale(xl) <= 500_000_000_000_000,
{
    let d = xl - 50 * ONE;
    lemma_mul_within(d, d, 160_000_000, 160_000_000);
    assert(d * d >= 0) by (nonlinear_arith);
    let d2 = d * d / (ONE as int);
    let n = (20 * ONE + d2) * ONE;
    let r = floor_root(n, 2);
    lemma_floor_root_exists(n, 2);
    lemma_sqrt_below(n, r, 1_000_000_000_000);
    assert(r >= 1) by {
        if r < 1 {
            crate::fixed::lemma_ipow_monotonic(r + 1, 1, 2);
            reveal_with_fuel(crate::fixed::ipow, 3);
        }
    }
    let x = 15 * d2 * ONE;
    let divisor = 1000 * r;
    assert(x < divisor * 400_000_000_000_000) by (nonlinear_arith)
        requires
            x < 400_000_000_000_000_000,
            divisor >= 1000,
    ;
    lemma_div_below(x, divisor, 400_000_000_000_000);
}

/// `S_L`.
fn light_scale_exec(xl: i128) -> (s: i128)
    requires
        within(xl as int, 110_000_000),
    ensures
        s == light_scale(xl as int),
        ONE <= s <= 500_000_000_000_000,
{
    proof {
        lemma_light_scale_range(xl as int);
    }
    let d = xl - 50 * ONE;
    proof {
        lemma_mul_within(d as int, d as int, 160_000_000, 160_000_000);
        assert(d * d >= 0) by (nonlinear_arith);
    }
    let d2 = d * d / ONE;
    let n = (20 * ONE + d2) * ONE;
    let r = sqrt_floor(n as u128) as i128;
    proof {
        assert(r >= 1) by {
            if r < 1 {
                crate::fixed::lemma_ipow_monotonic(r + 1, 1, 2);
                reveal_with_fuel(crate::fixed::ipow, 3);
            }
        }
    }
    ONE + 15 * d2 * ONE / (1000 * r)
}

/// `R_T` lies between -2 and 2.
pub proof fn lemma_rotation_range(xc: int, xh: int)
    requires
        0 <= chroma_gain(xc) <= ONE,
    ensures
        within(rotation(xc, xh), 2 * ONE),
{
    let w = tdiv(xh - 275 * DEG, 25);
    assert(w * w >= 0) by (nonlinear_arith);
    let u = w * w / (ONE as int);
    lemma_exp_neg_range(u);
    lemma_sin_deg_range(60 * exp_neg(u));
    lemma_fmul_within(chroma_gain(xc), sin_deg(60 * exp_neg(u)), ONE as int, ONE as int);
}

/// `R_T`.
fn rotation_exec(xc: i128, xh: i128) -> (r: i128)
    requires
        0 <= xc <= 1_500_000_000,
        0 <= xh < 720 * DEG,
    ensures
        r == rotation(xc as int, xh as int),
        within(r as int, 2 * ONE),
{
    let gain = chroma_gain_exec(xc);
    proof {
        lemma_rotation_range(xc as int, xh as int);
        lemma_tdiv_bound(xh - 275 * DEG, 25, 445 * DEG);
    }
    let w = div_trunc(xh - 275 * DEG, 25);
    proof {
        lemma_mul_within(w as int, w as int, 445 * DEG, 445 * DEG);
        assert(w * w >= 0) by (nonlinear_arith);
    }
    let u = w * w / ONE;
    let e = exp_neg_exec(u);
    let s = sin_exec(60 * e);
    -2 * mul_fixed(gain, s)
}

/// The terms of two L*a*b* colors.
pub(crate) fn terms_exec(lab1: &Lab, lab2: &Lab) -> (t: Terms)
    requires
        lab_in_range(lab1@),
        lab_in_range(lab2@),
    ensures
        t@ == terms_of(lab1@, lab2@),
        terms_in_range(t@),
{
    let l1 = lab1.l as i128;
    let l2 = lab2.l as i128;
    let b1 = lab1.b as i128;
    let b2 = lab2.b as i128;
    let c1 = chroma_exec(lab1.a as i128, b1);
    let c2 = chroma_exec(lab2.a as i128, b2);
    let gain = chroma_gain_exec((c1 + c2) / 2);
    let a1 = stretch_exec(lab1.a as i128, gain);
    let a2 = stretch_exec(lab2.a as i128, gain);
    let c1 = chroma_exec(a1, b1);
    let c2 = chroma_exec(a2, b2);
    let h1 = atan2_exec(b1, a1);
    let h2 = atan2_exec(b2, a2);
    proof {
        lemma_mul_within(c1 as int, c2 as int, 1_500_000_000, 1_500_000_000);
        assert(c1 * c2 >= 0) by (nonlinear_arith)
            requires
                c1 >= 0,
                c2 >= 0,
        ;
    }
    let root = sqrt_floor((c1 * c2) as u128);
    proof {
        lemma_sqrt_below(c1 * c2, root as int, 1_500_000_001);
        lemma_tdiv_bound(hue_delta(h1 as int, h2 as int), 2, 180 * DEG);
    }
    let half = div_trunc(hue_delta_exec(h1, h2), 2);
    let sine = sin_signed_exec(half);
    proof {
        lemma_fmul_within(root as int, sine as int, 1_500_000_000, ONE as int);
        lemma_tdiv_bound(l1 + l2, 2, 220_000_000);
    }
    Terms {
        dl: l2 - l1,
        dc: c2 - c1,
        dh: 2 * mul_fixed(root as i128, sine),
        xl: div_trunc(l1 + l2, 2),
        xc: (c1 + c2) / 2,
        xh: hue_mean_exec(h1, h2, c1, c2),
    }
}

/// One component of the difference.
fn weighted_exec(delta: i128, scale: i128, weight: i128) -> (p: i128)
    requires
        within(delta as int, 3_000_000_000),
        ONE <= scale <= 500_000_000_000_000,
        1 <= weight <= MAX_WEIGHT,
    ensures
        p == weighted(delta as int, scale as int, weight as int),
        within(p as int, 30_000_000_000_000),
{
    proof {
        lemma_mul_within(scale as int, weight as int, 500_000_000_000_000, MAX_WEIGHT as int);
        assert(scale * weight >= ONE) by (nonlinear_arith)
            requires
                scale >= ONE,
                weight >= 1,
        ;
        let a = delta * ONE * 10000;
        let b = scale * weight;
        assert(within(a, 30_000_000_000_000int * b)) by (nonlinear_arith)
            requires
                within(a, 30_000_000_000_000_000_000),
                b >= 1_000_000,
        ;
        lemma_tdiv_scaled(a, b, 30_000_000_000_000);
    }
    div_trunc(delta * ONE * 10000, scale * weight)
}

/// The difference computed from its terms.
pub(crate) fn combine_exec(t: &Terms, kh: i128, kc: i128, kl: i128) -> (e: i128)
    requires
        terms_in_range(t@),
        1 <= kh <= MAX_WEIGHT,
        1 <= kc <= MAX_WEIGHT,
        1 <= kl <= MAX_WEIGHT,
    ensures
        e == combine(t@, kh as int, kc as int, kl as int),
        0 <= e <= 100_000_000_000_000,
{
    let sl = light_scale_exec(t.xl);
    let factor = hue_factor_exec(t.xh);
    proof {
        lemma_fmul_within(15 * t.xc / 1000, factor as int, 22_500_000, 1_930_000);
    }
    let sc = ONE + 45 * t.xc / 1000;
    let sh = ONE + mul_fixed(15 * t.xc / 1000, factor);
    let lp = weighted_exec(t.dl, sl, kl);
    let cp = weighted_exec(t.dc, sc, kc);
    let hp = weighted_exec(t.dh, sh, kh);
    let rt = rotation_exec(t.xc, t.xh);
    proof {
        lemma_fmul_within(lp as int, lp as int, 30_000_000_000_000, 30_000_000_000_000);
        lemma_fmul_within(cp as int, cp as int, 30_000_000_000_000, 30_000_000_000_000);
        lemma_fmul_within(hp as int, hp as int, 30_000_000_000_000, 30_000_000_000_000);
        lemma_fmul_within(rt as int, cp as int, 2 * ONE, 30_000_000_000_000);
        lemma_fmul_within(
            fmul(rt as int, cp as int),
            hp as int,
            60_000_000_000_000,
            30_000_000_000_000,
        );
    }
    let total = mul_fixed(lp, lp) + mul_fixed(cp, cp) + mul_fixed(hp, hp) + mul_fixed(
        mul_fixed(rt, cp),
        hp,
    );
    let n: i128 = if total < 0 {
        0
    } else {
        total * ONE
    };
    let r = sqrt_floor(n as u128);
    proof {
        lemma_sqrt_below(n as int, r as int, 100_000_000_000_000);
    }
    r as i128
}

/// The terms with the three differences negated: the terms of the same two
/// colors in the other order.
pub open spec fn mirrored(t: (int, int, int, int, int, int)) -> (int, int, int, int, int, int) {
    (-t.0, -t.1, -t.2, t.3, t.4, t.5)
}

/// Chroma is never negative.
pub proof fn lemma_chroma_nonnegative(a: int, b: int)
    ensures
        chroma(a, b) >= 0,
{
    assert(a * a >= 0) by (nonlinear_arith);
    assert(b * b >= 0) by (nonlinear_arith);
    lemma_floor_root_exists(a * a + b * b, 2);
}

/// The three scales by which the components are divided are at least 1.
pub proof fn lemma_scales(t: (int, int, int, int, int, int))
    requires
        within(t.3, 110_000_000),
        t.4 >= 0,
    ensures
        light_scale(t.3) >= ONE,
        ONE + 45 * t.4 / 1000 >= ONE,
        ONE + fmul(15 * t.4 / 1000, hue_factor(t.5)) >= ONE,
{
    lemma_light_scale_range(t.3);
    lemma_hue_factor_range(t.5);
    let x = 15 * t.4 / 1000;
    let f = hue_factor(t.5);
    assert(x * f >= 0) by (nonlinear_arith)
        requires
            x >= 0,
            f >= 0,
    ;
}

/// A component changes its sign with the difference that it is made from.
pub proof fn lemma_weighted_odd(delta: int, scale: int, weight: int)
    requires
        scale >= ONE,
        weight >= 1,
    ensures
        weighted(-delta, scale, weight) == -weighted(delta, scale, weight),
        weighted(0, scale, weight) == 0,
{
    assert(scale * weight > 0) by (nonlinear_arith)
        requires
            scale >= 1,
            weight >= 1,
    ;
    lemma_tdiv_odd(delta * ONE * 10000, scale * weight);
    lemma_tdiv_bound(0, scale * weight, 0);
}

/// The difference does not depend on the signs of the three differences
/// where they change together, and is 0 where they are 0.
pub proof fn lemma_combine(t: (int, int, int, int, int, int), kh: int, kc: int, kl: int)
    requires
        within(t.3, 110_000_000),
        t.4 >= 0,
        kh >= 1,
        kc >= 1,
        kl >= 1,
    ensures
        combine(mirrored(t), kh, kc, kl) == combine(t, kh, kc, kl),
        t.0 == 0 && t.1 == 0 && t.2 == 0 ==> combine(t, kh, kc, kl) == 0,
{
    lemma_scales(t);
    let sl = light_scale(t.3);
    let sc = ONE + 45 * t.4 / 1000;
    let sh = ONE + fmul(15 * t.4 / 1000, hue_factor(t.5));
    lemma_weighted_odd(t.0, sl, kl);
    lemma_weighted_odd(t.1, sc, kc);
    lemma_weighted_odd(t.2, sh, kh);
    let lp = weighted(t.0, sl, kl);
    let cp = weighted(t.1, sc, kc);
    let hp = weighted(t.2, sh, kh);
    let rt = rotation(t.4, t.5);
    lemma_fmul_odd(lp, lp);
    lemma_fmul_odd(-lp, lp);
    lemma_fmul_odd(cp, cp);
    lemma_fmul_odd(-cp, cp);
    lemma_fmul_odd(hp, hp);
    lemma_fmul_odd(-hp, hp);
    lemma_fmul_odd(rt, cp);
    lemma_fmul_odd(fmul(rt, cp), hp);
    lemma_fmul_odd(-fmul(rt, cp), hp);
    assert(fmul(-lp, -lp) == fmul(lp, lp));
    assert(fmul(-cp, -cp) == fmul(cp, cp));
    assert(fmul(-hp, -hp) == fmul(hp, hp));
    assert(fmul(fmul(rt, -cp), -hp) == fmul(fmul(rt, cp), hp));
    if t.0 == 0 && t.1 == 0 && t.2 == 0 {
        lemma_fmul_odd(0, 0);
        lemma_fmul_odd(rt, 0);
        lemma_sqrt_zero();
    }
}

/// The hue difference changes its sign with the order of the two hues, and
/// the mean hue does not change.
pub proof fn lemma_hue_swap(h1: int, h2: int, c1: int, c2: int)
    ensures
        hue_delta(h2, h1) == -hue_delta(h1, h2),
        hue_delta(h1, h1) == 0,
        hue_mean(h2, h1, c2, c1) == hue_mean(h1, h2, c1, c2),
{
}

/// The terms of two colors in the other order are the mirrored terms.
pub proof fn lemma_terms_swap(lab1: (int, int, int), lab2: (int, int, int))
    ensures
        terms_of(lab2, lab1) == mirrored(terms_of(lab1, lab2)),
{
    let gain = chroma_gain((chroma(lab1.1, lab1.2) + chroma(lab2.1, lab2.2)) / 2);
    let a1 = stretch(lab1.1, gain);
    let a2 = stretch(lab2.1, gain);
    let c1 = chroma(a1, lab1.2);
    let c2 = chroma(a2, lab2.2);
    let h1 = atan2_deg(lab1.2, a1);
    let h2 = atan2_deg(lab2.2, a2);
    lemma_hue_swap(h1, h2, c1, c2);
    let half = tdiv(hue_delta(h1, h2), 2);
    lemma_tdiv_odd(hue_delta(h1, h2), 2);
    lemma_sin_deg_range(half);
    assert(c2 * c1 == c1 * c2) by (nonlinear_arith);
    let root = floor_root(c1 * c2, 2);
    lemma_fmul_odd(root, sin_signed(half));
}

/// A color has no difference of lightness, chroma or hue from itself.
pub proof fn lemma_terms_self(lab: (int, int, int))
    ensures
        terms_of(lab, lab).0 == 0,
        terms_of(lab, lab).1 == 0,
        terms_of(lab, lab).2 == 0,
{
    let gain = chroma_gain((chroma(lab.1, lab.2) + chroma(lab.1, lab.2)) / 2);
    let a = stretch(lab.1, gain);
    let c = chroma(a, lab.2);
    let h = atan2_deg(lab.2, a);
    lemma_hue_swap(h, h, c, c);
    lemma_tdiv_bound(0, 2, 0);
    lemma_sin_deg_range(0);
    lemma_fmul_odd(floor_root(c * c, 2), 0);
}

/// The mean lightness and the mean chroma of two colors in range are within
/// the bounds that the scales need.
pub proof fn lemma_means(lab1: (int, int, int), lab2: (int, int, int))
    requires
        lab_in_range(lab1),
        lab_in_range(lab2),
    ensures
        within(terms_of(lab1, lab2).3, 110_000_000),
        terms_of(lab1, lab2).4 >= 0,
{
    lemma_tdiv_bound(lab1.0 + lab2.0, 2, 220_000_000);
    let t = lab1.0 + lab2.0;
    assert(within(tdiv(t, 2), 110_000_000));
    let gain = chroma_gain((chroma(lab1.1, lab1.2) + chroma(lab2.1, lab2.2)) / 2);
    lemma_chroma_nonnegative(stretch(lab1.1, gain), lab1.2);
    lemma_chroma_nonnegative(stretch(lab2.1, gain), lab2.2);
}

/// Doubling a weight halves its component, rounded toward zero.
pub proof fn lemma_weighted_doubled(delta: int, scale: int, weight: int)
    requires
        scale >= 1,
        weight >= 1,
    ensures
        weighted(delta, scale, 2 * weight) == tdiv(weighted(delta, scale, weight), 2),
{
    let n = delta * ONE * 10000;
    let d = scale * weight;
    assert(d >= 1) by (nonlinear_arith)
        requires
            d == scale * weight,
            scale >= 1,
            weight >= 1,
    ;
    assert(scale * (2 * weight) == d * 2) by (nonlinear_arith)
        requires
            d == scale * weight,
    ;
    if n >= 0 {
        vstd::arithmetic::div_mod::lemma_div_denominator(n, d, 2);
        lemma_tdiv_bound(n, d, n);
    } else {
        vstd::arithmetic::div_mod::lemma_div_denominator(-n, d, 2);
        lemma_tdiv_bound(n, d, -n);
        let q = (-n) / d;
        assert(tdiv(n, d) == -q);
        if q == 0 {
            assert(tdiv(0, 2) == 0);
        }
    }
}

/// The difference is never negative.
pub proof fn lemma_delta_e_nonnegative(
    lab1: (int, int, int),
    lab2: (int, int, int),
    kh: int,
    kc: int,
    kl: int,
)
    ensures
        delta_e(lab1, lab2, kh, kc, kl) >= 0,
{
    let t = terms_of(lab1, lab2);
    let lp = weighted(t.0, light_scale(t.3), kl);
    let cp = weighted(t.1, ONE + 45 * t.4 / 1000, kc);
    let hp = weighted(t.2, ONE + fmul(15 * t.4 / 1000, hue_factor(t.5)), kh);
    let total = fmul(lp, lp) + fmul(cp, cp) + fmul(hp, hp) + fmul(
        fmul(rotation(t.4, t.5), cp),
        hp,
    );
    let n = if total < 0 {
        0
    } else {
        total * ONE
    };
    lemma_floor_root_exists(n, 2);
}

/// The difference of a color from itself is 0, and the difference of two
/// colors is the same in either order.
pub proof fn lemma_delta_e(
    lab1: (int, int, int),
    lab2: (int, int, int),
    kh: int,
    kc: int,
    kl: int,
)
    requires
        lab_in_range(lab1),
        lab_in_range(lab2),
        kh >= 1,
        kc >= 1,
        kl >= 1,
    ensures
        delta_e(lab1, lab1, kh, kc, kl) == 0,
        delta_e(lab2, lab1, kh, kc, kl) == delta_e(lab1, lab2, kh, kc, kl),
{
    lemma_means(lab1, lab1);
    lemma_terms_self(lab1);
    lemma_combine(terms_of(lab1, lab1), kh, kc, kl);
    lemma_means(lab1, lab2);
    lemma_terms_swap(lab1, lab2);
    lemma_combine(terms_of(lab1, lab2), kh, kc, kl);
}

} // verus!
