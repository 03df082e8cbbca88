//! Classification, distance and synthesis of RGB colors.

use vstd::prelude::*;
use crate::fixed::{
    ONE, floor_root, sqrt_floor, lemma_mul_within, lemma_sqrt_below, lemma_sqrt_zero,
};
use crate::Rgb;
use crate::lab::{lab_of, rgb_to_lab, lemma_lab_of_range};
use crate::ciede::{
    MAX_WEIGHT, delta_e, terms_exec, combine_exec, lemma_delta_e, lemma_delta_e_nonnegative,
};
use crate::hsl::{
    Frac, HslValue, Hsl, hsl_of, rgb_of, mix_frac, tweak_frac, rgb_to_hsl, hsl_to_rgb, mix_ratio,
    tweak_ratio, lemma_hsl_of_small,
};
use crate::roundtrip::{expanded, lemma_rgb_of_expanded};

verus! {

/// The saturation `s` reaches the parabola of `threshold` percent at
/// lightness `l`.
///
/// With `t = threshold / 100`, the parabola is
/// `(1 - 0.8 t) / (0.8 t - 0.5)^2 * (l - 0.5)^2 + t`: it is `t` at half
/// lightness and rises toward black and white. The comparison is exact: both
/// sides are multiplied by the denominators, which are positive (no whole
/// threshold makes `0.8 t - 0.5` zero).
pub open spec fn saturation_reached(s: Frac, l: Frac, threshold: int) -> bool {
    let u = 2 * threshold - 125;
    let x = 2 * l.num - l.den;
    (100 * s.num - threshold * s.den) * (l.den * l.den) * (u * u) >= 12500 * (125 - threshold) * (x
        * x) * s.den
}

/// The last threshold before the pole of the parabola at 62.5 percent.
pub const LAST_OPEN: u8 = 62;

/// The saturation `s` reaches the least saturation that counts as colorful
/// at lightness `l` for a threshold of `threshold` percent.
///
/// Up to 62 percent the least saturation is the parabola of
/// `saturation_reached`. The parabola narrows as the threshold grows and
/// closes at its pole, 62.5 percent. From 63 percent on it stays closed:
/// only half lightness counts, with a saturation of at least the
/// threshold. (The formula of the parabola would open again behind its
/// pole, and a higher threshold would then admit colors that a lower one
/// refuses.)
pub open spec fn saturation_met(s: Frac, l: Frac, threshold: int) -> bool {
    if threshold <= LAST_OPEN {
        saturation_reached(s, l, threshold)
    } else {
        2 * l.num == l.den && 100 * s.num >= threshold * s.den
    }
}

/// The color is colorful at the threshold.
#[verifier::opaque]
pub open spec fn colorful(rgb: Rgb, threshold: int) -> bool {
    saturation_met(hsl_of(rgb).s, hsl_of(rgb).l, threshold)
}

/// The distance of two colors for weights in ten-thousandths: the weighted
/// CIEDE2000 difference as `delta_e` computes it in fixed point, rounded to
/// the nearest integer and kept within 16 bits.
#[verifier::opaque]
pub open spec fn distance_fine(rgb1: Rgb, rgb2: Rgb, kh: int, kc: int, kl: int) -> int {
    let e = delta_e(lab_of(rgb1), lab_of(rgb2), kh, kc, kl);
    let rounded = (e + 500_000) / (ONE as int);
    if rounded > 65535 {
        65535
    } else {
        rounded
    }
}

/// The distance of two colors for weights in thousandths.
pub open spec fn distance(rgb1: Rgb, rgb2: Rgb, hue: int, chroma: int, light: int) -> int {
    distance_fine(rgb1, rgb2, 10 * hue, 10 * chroma, 10 * light)
}

/// The plain distance of two colors: the length of the straight line
/// between them in L*a*b*, rounded to the nearest integer. It is cheaper
/// than the weighted distance and less true to the eye.
#[verifier::opaque]
pub open spec fn plain_distance(rgb1: Rgb, rgb2: Rgb) -> int {
    let a = lab_of(rgb1);
    let b = lab_of(rgb2);
    let e = floor_root(
        (b.0 - a.0) * (b.0 - a.0) + (b.1 - a.1) * (b.1 - a.1) + (b.2 - a.2) * (b.2 - a.2),
        2,
    );
    (e + 500_000) / (ONE as int)
}

/// `main` moved toward `accent` in hue, saturation and lightness.
#[verifier::opaque]
pub open spec fn mixed(main: Rgb, accent: Rgb, hue: int, sat: int, light: int) -> Rgb {
    let m = hsl_of(main);
    let a = hsl_of(accent);
    rgb_of(
        HslValue {
            h: mix_frac(m.h, a.h, hue),
            s: mix_frac(m.s, a.s, sat),
            l: mix_frac(m.l, a.l, light),
        },
    )
}

/// The color with each of hue, saturation and lightness changed by a share
/// of itself.
#[verifier::opaque]
pub open spec fn tweaked(rgb: Rgb, hue: int, sat: int, light: int) -> Rgb {
    let m = hsl_of(rgb);
    rgb_of(
        HslValue {
            h: tweak_frac(m.h, hue),
            s: tweak_frac(m.s, sat),
            l: tweak_frac(m.l, light),
        },
    )
}

/// Tells a chromatic color from a gray one: whether the saturation of `rgb`
/// reaches the least saturation for its lightness at `threshold` percent.
/// A higher threshold never admits a color that a lower one refuses.
pub fn is_colorful(rgb: &Rgb, threshold: u8) -> (r: bool)
    ensures
        r == colorful(*rgb, threshold as int),
{
    proof {
        reveal(colorful);
    }
    let hsl = rgb_to_hsl(rgb);
    let t = threshold as i128;
    if threshold > LAST_OPEN {
        proof {
            lemma_mul_within(t as int, hsl.s.den as int, 255, 510);
        }
        return 2 * hsl.l.num == hsl.l.den && 100 * hsl.s.num >= t * hsl.s.den;
    }
    let u = 2 * t - 125;
    let x = 2 * hsl.l.num - hsl.l.den;
    proof {
        lemma_mul_within(hsl.l.den as int, hsl.l.den as int, 510, 510);
        lemma_mul_within(u as int, u as int, 385, 385);
        lemma_mul_within(x as int, x as int, 1530, 1530);
        lemma_mul_within(t as int, hsl.s.den as int, 255, 510);
        lemma_mul_within(100 * hsl.s.num - t * hsl.s.den, hsl.l.den * hsl.l.den, 181_050, 260_100);
        lemma_mul_within(
            (100 * hsl.s.num - t * hsl.s.den) * (hsl.l.den * hsl.l.den),
            u * u,
            47_091_105_000,
            148_225,
        );
        lemma_mul_within(12500 * (125 - t), x * x, 1_625_000, 2_340_900);
        lemma_mul_within(
            12500 * (125 - t) * (x * x),
            hsl.s.den as int,
            3_803_962_500_000,
            510,
        );
    }
    (100 * hsl.s.num - t * hsl.s.den) * (hsl.l.den * hsl.l.den) * (u * u) >= 12500 * (125 - t) * (x
        * x) * hsl.s.den
}

/// The distance of two colors for weights in ten-thousandths.
pub(crate) fn compare_fine(rgb1: &Rgb, rgb2: &Rgb, kh: u64, kc: u64, kl: u64) -> (d: u16)
    requires
        1 <= kh <= MAX_WEIGHT,
        1 <= kc <= MAX_WEIGHT,
        1 <= kl <= MAX_WEIGHT,
    ensures
        d == distance_fine(*rgb1, *rgb2, kh as int, kc as int, kl as int),
{
    proof {
        reveal(distance_fine);
    }
    let lab1 = rgb_to_lab(rgb1);
    let lab2 = rgb_to_lab(rgb2);
    let terms = terms_exec(&lab1, &lab2);
    let e = combine_exec(&terms, kh as i128, kc as i128, kl as i128);
    let rounded = (e + 500_000) / ONE;
    if rounded > 65535 {
        65535
    } else {
        rounded as u16
    }
}

/// The perceptual distance of two colors: their CIEDE2000 difference, with
/// the hue, chroma and lightness components each divided by its weight,
/// rounded to the nearest integer and kept within 16 bits. The weights are
/// in thousandths: 1000 leaves a component as it is.
///
/// The difference is computed in fixed point, with six decimal places,
/// floor roots and short polynomials for the sine, the arctangent and the
/// exponential: the result is what `distance` says, an exact function of
/// the arguments. It follows the formula over the real numbers closely but
/// is not proved to: where the real difference lies within a few
/// thousandths of a half, the rounding may go the other way, and the
/// result then differs by one from the rounded real difference.
pub fn compare_colors(
    rgb1: &Rgb,
    rgb2: &Rgb,
    hue_weight: u32,
    chroma_weight: u32,
    light_weight: u32,
) -> (d: u16)
    requires
        hue_weight > 0,
        chroma_weight > 0,
        light_weight > 0,
    ensures
        d == distance(*rgb1, *rgb2, hue_weight as int, chroma_weight as int, light_weight as int),
{
    compare_fine(
        rgb1,
        rgb2,
        10 * (hue_weight as u64),
        10 * (chroma_weight as u64),
        10 * (light_weight as u64),
    )
}

/// The plain distance of two colors: the length of the straight line
/// between them in L*a*b*, rounded to the nearest integer. No weights
/// apply. The palette is built with `compare_colors` throughout; this
/// cheaper measure is there for callers that ask for it by name.
pub fn compare_colors_plain(rgb1: &Rgb, rgb2: &Rgb) -> (d: u16)
    ensures
        d == plain_distance(*rgb1, *rgb2),
{
    proof {
        reveal(plain_distance);
    }
    let a = rgb_to_lab(rgb1);
    let b = rgb_to_lab(rgb2);
    let dl = b.l as i128 - a.l as i128;
    let da = b.a as i128 - a.a as i128;
    let db = b.b as i128 - a.b as i128;
    proof {
        lemma_mul_within(dl as int, dl as int, 220_000_000, 220_000_000);
        lemma_mul_within(da as int, da as int, 1_200_000_000, 1_200_000_000);
        lemma_mul_within(db as int, db as int, 600_000_000, 600_000_000);
        assert(dl * dl >= 0) by (nonlinear_arith);
        assert(da * da >= 0) by (nonlinear_arith);
        assert(db * db >= 0) by (nonlinear_arith);
    }
    let n = dl * dl + da * da + db * db;
    let e = sqrt_floor(n as u128);
    proof {
        lemma_sqrt_below(n as int, e as int, 2_000_000_000);
    }
    ((e + 500_000) / 1_000_000) as u16
}

/// Moves `main` toward `accent`: each of hue, saturation and lightness by
/// its factor, in percent of the difference, and kept between 0 and 1.
pub fn mix_colors(
    main: &Rgb,
    accent: &Rgb,
    hue_factor: i8,
    sat_factor: i8,
    light_factor: i8,
) -> (rgb: Rgb)
    ensures
        rgb == mixed(*main, *accent, hue_factor as int, sat_factor as int, light_factor as int),
{
    proof {
        reveal(mixed);
    }
    let m = rgb_to_hsl(main);
    let a = rgb_to_hsl(accent);
    let moved = Hsl {
        h: mix_ratio(&m.h, &a.h, hue_factor),
        s: mix_ratio(&m.s, &a.s, sat_factor),
        l: mix_ratio(&m.l, &a.l, light_factor),
    };
    hsl_to_rgb(&moved)
}

/// Changes a color in place: each of hue, saturation and lightness by its
/// factor, in percent of its own value, and kept between 0 and 1.
pub fn tweak_color(rgb: &mut Rgb, hue_factor: i8, sat_factor: i8, light_factor: i8)
    ensures
        *final(rgb) == tweaked(
            *old(rgb),
            hue_factor as int,
            sat_factor as int,
            light_factor as int,
        ),
{
    proof {
        reveal(tweaked);
    }
    let m = rgb_to_hsl(rgb);
    let moved = Hsl {
        h: tweak_ratio(&m.h, hue_factor),
        s: tweak_ratio(&m.s, sat_factor),
        l: tweak_ratio(&m.l, light_factor),
    };
    *rgb = hsl_to_rgb(&moved);
}

/// A fraction mixed toward itself is the same fraction, expanded by 100
/// times its denominator.
pub proof fn lemma_mix_frac_of_self(m: Frac, factor: int)
    requires
        0 <= m.num <= m.den,
        m.den > 0,
    ensures
        mix_frac(m, m, factor) == expanded(m, m.den * 100),
        m.den * 100 > 0,
{
    let x = m.num * m.den;
    assert((x - x) * factor == 0) by (nonlinear_arith);
    assert(x * 100 == m.num * (m.den * 100)) by (nonlinear_arith)
        requires
            x == m.num * m.den,
    ;
    assert(m.den * m.den * 100 == m.den * (m.den * 100)) by (nonlinear_arith);
    assert(0 <= x <= m.den * m.den) by (nonlinear_arith)
        requires
            x == m.num * m.den,
            0 <= m.num <= m.den,
    ;
}

/// A color mixed toward itself stays as it is, whatever the factors.
pub proof fn lemma_mix_of_self(rgb: Rgb, hue: int, sat: int, light: int)
    ensures
        mixed(rgb, rgb, hue, sat, light) == rgb,
{
    reveal(mixed);
    let v = hsl_of(rgb);
    lemma_hsl_of_small(rgb);
    lemma_mix_frac_of_self(v.h, hue);
    lemma_mix_frac_of_self(v.s, sat);
    lemma_mix_frac_of_self(v.l, light);
    lemma_rgb_of_expanded(rgb, v.h.den * 100, v.s.den * 100, v.l.den * 100);
}

/// One step of the way down: what is colorful at a threshold is colorful at
/// the threshold before it, up to 62.
proof fn lemma_saturation_step(s: Frac, l: Frac, threshold: int)
    requires
        0 <= threshold < 62,
        s.den > 0,
        l.den > 0,
        saturation_reached(s, l, threshold + 1),
    ensures
        saturation_reached(s, l, threshold),
{
    let t = threshold;
    let u1 = 2 * t - 125;
    let u2 = 2 * (t + 1) - 125;
    let sq1 = u1 * u1;
    let sq2 = u2 * u2;
    let x = 2 * l.num - l.den;
    let area = l.den * l.den;
    let slack_high = 100 * s.num - (t + 1) * s.den;
    let y = 12500 * ((x * x) * s.den);
    let a1 = 125 - t;
    let a2 = 124 - t;
    assert(sq2 > 0 && sq1 > 0) by (nonlinear_arith)
        requires
            sq1 == u1 * u1,
            sq2 == u2 * u2,
            u1 < u2 < 0,
    ;
    assert(a2 * sq1 >= a1 * sq2) by (nonlinear_arith)
        requires
            sq1 == (2 * t - 125) * (2 * t - 125),
            sq2 == (2 * t - 123) * (2 * t - 123),
            a1 == 125 - t,
            a2 == 124 - t,
            0 <= t < 62,
    ;
    assert(area > 0) by (nonlinear_arith)
        requires
            area == l.den * l.den,
            l.den > 0,
    ;
    assert(y >= 0) by (nonlinear_arith)
        requires
            y == 12500 * ((x * x) * s.den),
            s.den > 0,
    ;
    // the hypothesis, in these names
    assert(12500 * (125 - (t + 1)) * (x * x) * s.den == a2 * y) by (nonlinear_arith)
        requires
            y == 12500 * ((x * x) * s.den),
            a2 == 124 - t,
    ;
    let g = slack_high * area;
    assert(g * sq2 >= a2 * y);
    assert(g >= 0) by (nonlinear_arith)
        requires
            g * sq2 >= a2 * y,
            a2 > 0,
            y >= 0,
            sq2 > 0,
    ;
    assert(g * sq1 >= a1 * y) by (nonlinear_arith)
        requires
            g * sq2 >= a2 * y,
            a2 * sq1 >= a1 * sq2,
            sq1 > 0,
            sq2 > 0,
            y >= 0,
            g >= 0,
            a1 > 0,
            a2 > 0,
    ;
    let slack_low = 100 * s.num - t * s.den;
    assert((t + 1) * s.den == t * s.den + s.den) by (nonlinear_arith);
    assert(slack_low * area >= g) by (nonlinear_arith)
        requires
            g == slack_high * area,
            slack_low == slack_high + s.den,
            s.den > 0,
            area > 0,
    ;
    assert(slack_low * area * sq1 >= g * sq1) by (nonlinear_arith)
        requires
            slack_low * area >= g,
            sq1 > 0,
    ;
    assert(12500 * (125 - t) * (x * x) * s.den == a1 * y) by (nonlinear_arith)
        requires
            y == 12500 * ((x * x) * s.den),
            a1 == 125 - t,
    ;
}

/// The steps of the way down, one after the other.
proof fn lemma_saturation_down(s: Frac, l: Frac, low: int, high: int)
    requires
        0 <= low <= high <= 62,
        s.den > 0,
        l.den > 0,
        saturation_reached(s, l, high),
    ensures
        saturation_reached(s, l, low),
    decreases high - low,
{
    if low < high {
        lemma_saturation_step(s, l, high - 1);
        lemma_saturation_down(s, l, low, high - 1);
    }
}

/// Raising the threshold never makes a color colorful: what is colorful at
/// a threshold is colorful at every lower one.
pub proof fn lemma_colorful_monotonic(rgb: Rgb, low: int, high: int)
    requires
        0 <= low <= high,
        colorful(rgb, high),
    ensures
        colorful(rgb, low),
{
    reveal(colorful);
    lemma_hsl_of_small(rgb);
    let s = hsl_of(rgb).s;
    let l = hsl_of(rgb).l;
    if high <= LAST_OPEN {
        lemma_saturation_down(s, l, low, high);
    } else if low <= LAST_OPEN {
        // at half lightness the parabola of 62 percent asks for 62 percent
        let x = 2 * l.num - l.den;
        let gap = 100 * s.num - 62 * s.den;
        let area = l.den * l.den;
        assert(gap >= 0) by (nonlinear_arith)
            requires
                gap == 100 * s.num - 62 * s.den,
                100 * s.num >= high * s.den,
                high >= 63,
                s.den > 0,
        ;
        assert(gap * area * ((2 * 62 - 125) * (2 * 62 - 125)) >= 0) by (nonlinear_arith)
            requires
                gap >= 0,
                area == l.den * l.den,
        ;
        assert(12500 * (125 - 62) * (x * x) * s.den == 0) by (nonlinear_arith)
            requires
                x == 0,
        ;
        assert(saturation_reached(s, l, 62));
        lemma_saturation_down(s, l, low, 62);
    } else {
        assert(100 * s.num >= low * s.den) by (nonlinear_arith)
            requires
                100 * s.num >= high * s.den,
                low <= high,
                s.den > 0,
        ;
    }
}

/// A gray is not colorful at any threshold.
pub proof fn lemma_gray_not_colorful(level: u8, threshold: int)
    requires
        0 <= threshold,
    ensures
        !colorful((level, level, level), threshold),
{
    reveal(colorful);
    if threshold > LAST_OPEN {
        return ;
    }
    let v = hsl_of((level, level, level));
    let u = 2 * threshold - 125;
    let x = 2 * v.l.num - v.l.den;
    assert(v.s.num == 0 && v.s.den == 1 && v.l.den == 510 && v.l.num == 2 * level);
    assert(u * u >= 1) by (nonlinear_arith)
        requires
            u <= -1 || u >= 1,
    ;
    assert(x * x >= 4) by (nonlinear_arith)
        requires
            x <= -2 || x >= 2,
    ;
    let left = (100 * v.s.num - threshold * v.s.den) * (v.l.den * v.l.den) * (u * u);
    let right = 12500 * (125 - threshold) * (x * x) * v.s.den;
    assert(left == -threshold * 260100 * (u * u));
    assert(left <= 0) by (nonlinear_arith)
        requires
            left == -threshold * 260100 * (u * u),
            threshold >= 0,
            u * u >= 1,
    ;
    assert(right >= 0) by (nonlinear_arith)
        requires
            right == 12500 * (125 - threshold) * (x * x) * 1,
            threshold <= 125,
            x * x >= 4,
    ;
    if threshold > 0 {
        assert(left < 0) by (nonlinear_arith)
            requires
                left == -threshold * 260100 * (u * u),
                threshold > 0,
                u * u >= 1,
        ;
    } else {
        assert(right > 0) by (nonlinear_arith)
            requires
                right == 12500 * (125 - threshold) * (x * x) * 1,
                threshold == 0,
                x * x >= 4,
        ;
    }
}

/// A color is at plain distance 0 from itself, and the plain distance of
/// two colors is the same in either order.
pub proof fn lemma_plain_distance(a: Rgb, b: Rgb)
    ensures
        plain_distance(a, a) == 0,
        plain_distance(a, b) == plain_distance(b, a),
{
    reveal(plain_distance);
    let x = lab_of(a);
    let y = lab_of(b);
    lemma_sqrt_zero();
    assert((x.0 - x.0) * (x.0 - x.0) == 0) by (nonlinear_arith);
    assert((x.1 - x.1) * (x.1 - x.1) == 0) by (nonlinear_arith);
    assert((x.2 - x.2) * (x.2 - x.2) == 0) by (nonlinear_arith);
    assert((y.0 - x.0) * (y.0 - x.0) == (x.0 - y.0) * (x.0 - y.0)) by (nonlinear_arith);
    assert((y.1 - x.1) * (y.1 - x.1) == (x.1 - y.1) * (x.1 - y.1)) by (nonlinear_arith);
    assert((y.2 - x.2) * (y.2 - x.2) == (x.2 - y.2) * (x.2 - y.2)) by (nonlinear_arith);
}

/// A distance is never negative and fits in 16 bits, whatever the weights.
pub proof fn lemma_distance_range(a: Rgb, b: Rgb, hue: int, chroma: int, light: int)
    ensures
        0 <= distance(a, b, hue, chroma, light) <= 65535,
{
    reveal(distance_fine);
    lemma_delta_e_nonnegative(lab_of(a), lab_of(b), 10 * hue, 10 * chroma, 10 * light);
}

/// Every color is at distance 0 from itself, whatever the positive
/// weights.
pub proof fn lemma_distance_of_self(rgb: Rgb, hue: int, chroma: int, light: int)
    requires
        hue > 0,
        chroma > 0,
        light > 0,
    ensures
        distance(rgb, rgb, hue, chroma, light) == 0,
{
    reveal(distance_fine);
    lemma_lab_of_range(rgb);
    lemma_delta_e(lab_of(rgb), lab_of(rgb), 10 * hue, 10 * chroma, 10 * light);
}

/// The distance of two colors is the same in either order, whatever the
/// positive weights.
pub proof fn lemma_distance_symmetric(a: Rgb, b: Rgb, hue: int, chroma: int, light: int)
    requires
        hue > 0,
        chroma > 0,
        light > 0,
    ensures
        distance(a, b, hue, chroma, light) == distance(b, a, hue, chroma, light),
{
    reveal(distance_fine);
    lemma_lab_of_range(a);
    lemma_lab_of_range(b);
    lemma_delta_e(lab_of(a), lab_of(b), 10 * hue, 10 * chroma, 10 * light);
}

} // verus!
