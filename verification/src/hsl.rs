//! Hue, saturation and lightness as exact fractions, and the way back to
//! RGB.

use vstd::prelude::*;
use crate::fixed::{within, lemma_mul_within};
use crate::Rgb;

verus! {

/// A fraction `num / den` of integers; `den` is positive wherever a value is
/// meant.
pub struct Frac {
    pub num: int,
    pub den: int,
}

/// Hue, saturation and lightness, each a fraction between 0 and 1.
pub struct HslValue {
    pub h: Frac,
    pub s: Frac,
    pub l: Frac,
}

/// A fraction of machine integers.
#[derive(Clone, Copy, Debug)]
pub struct Ratio {
    pub num: i128,
    pub den: i128,
}

impl View for Ratio {
    type V = Frac;

    open spec fn view(&self) -> Frac {
        Frac { num: self.num as int, den: self.den as int }
    }
}

/// Hue, saturation and lightness of machine fractions.
#[derive(Clone, Copy, Debug)]
pub struct Hsl {
    pub h: Ratio,
    pub s: Ratio,
    pub l: Ratio,
}

impl View for Hsl {
    type V = HslValue;

    open spec fn view(&self) -> HslValue {
        HslValue { h: self.h@, s: self.s@, l: self.l@ }
    }
}

/// Largest denominator that the conversion back to RGB accepts.
pub const DEN_MAX: i128 = 250_000_000;

/// The largest of three.
pub open spec fn max3(a: int, b: int, c: int) -> int {
    if a >= b && a >= c {
        a
    } else if b >= c {
        b
    } else {
        c
    }
}

/// The smallest of three.
pub open spec fn min3(a: int, b: int, c: int) -> int {
    if a <= b && a <= c {
        a
    } else if b <= c {
        b
    } else {
        c
    }
}

/// The hue of a color that is not gray, as a numerator over `6 * (max - min)`:
/// the position on the color circle, counted from red.
pub open spec fn hue_num(rgb: Rgb) -> int {
    let high = max3(rgb.0 as int, rgb.1 as int, rgb.2 as int);
    let d = high - min3(rgb.0 as int, rgb.1 as int, rgb.2 as int);
    if rgb.0 == high {
        if rgb.1 >= rgb.2 {
            rgb.1 - rgb.2
        } else {
            6 * d + rgb.1 - rgb.2
        }
    } else if rgb.1 == high {
        2 * d + rgb.2 - rgb.0
    } else {
        4 * d + rgb.0 - rgb.1
    }
}

/// Hue, saturation and lightness of an RGB color. With `high` and `low` the
/// largest and smallest channel: lightness is `(high + low) / 510`;
/// saturation is `(high - low) / (high + low)` below half lightness and
/// `(high - low) / (510 - high - low)` from there on; a gray has hue and
/// saturation 0.
pub open spec fn hsl_of(rgb: Rgb) -> HslValue {
    let high = max3(rgb.0 as int, rgb.1 as int, rgb.2 as int);
    let low = min3(rgb.0 as int, rgb.1 as int, rgb.2 as int);
    let d = high - low;
    let sum = high + low;
    if d == 0 {
        HslValue {
            h: Frac { num: 0, den: 1 },
            s: Frac { num: 0, den: 1 },
            l: Frac { num: sum, den: 510 },
        }
    } else {
        HslValue {
            h: Frac { num: hue_num(rgb), den: 6 * d },
            s: Frac {
                num: d,
                den: if sum < 255 {
                    sum
                } else {
                    510 - sum
                },
            },
            l: Frac { num: sum, den: 510 },
        }
    }
}

/// The fraction is a value between 0 and 1 with a denominator in bounds.
pub open spec fn unit_frac(f: Frac) -> bool {
    0 <= f.num <= f.den && 1 <= f.den <= DEN_MAX
}

/// Each of the three is a value between 0 and 1 with a denominator in
/// bounds.
pub open spec fn unit_hsl(v: HslValue) -> bool {
    unit_frac(v.h) && unit_frac(v.s) && unit_frac(v.l)
}

/// `255 * f` rounded down, kept between 0 and 255.
pub open spec fn scale255(f: Frac) -> int {
    if f.num <= 0 {
        0
    } else if 255 * f.num / f.den >= 255 {
        255
    } else {
        255 * f.num / f.den
    }
}

/// The position `t / w` on the color circle brought back into 0 to 1.
pub open spec fn wrap(t: int, w: int) -> int {
    if t < 0 {
        t + w
    } else if t > w {
        t - w
    } else {
        t
    }
}

/// One channel from the two extremes `v1 / d` and `v2 / d` and the position
/// `t / w` on the color circle: rising over the first sixth, `v2` up to
/// the half, falling up to two thirds, `v1` after that.
pub open spec fn hue_to_channel(v1: int, v2: int, d: int, t: int, w: int) -> Frac {
    let p = wrap(t, w);
    if 6 * p < w {
        Frac { num: v1 * w + (v2 - v1) * (6 * p), den: d * w }
    } else if 2 * p < w {
        Frac { num: v2, den: d }
    } else if 3 * p < 2 * w {
        Frac { num: v1 * w + (v2 - v1) * (4 * w - 6 * p), den: d * w }
    } else {
        Frac { num: v1, den: d }
    }
}

/// The upper extreme, over `l.den * s.den`: `l (1 + s)` below half
/// lightness, `l + s - s l` from there on.
pub open spec fn upper(s: Frac, l: Frac) -> int {
    if 2 * l.num < l.den {
        l.num * (s.den + s.num)
    } else {
        l.num * s.den + s.num * l.den - s.num * l.num
    }
}

/// The lower extreme, over `l.den * s.den`: `2 l` less the upper one.
pub open spec fn lower(s: Frac, l: Frac) -> int {
    2 * l.num * s.den - upper(s, l)
}

/// The RGB color of a hue, a saturation and a lightness.
pub open spec fn rgb_of(v: HslValue) -> Rgb {
    if v.s.num == 0 {
        let g = scale255(v.l) as u8;
        (g, g, g)
    } else {
        let d = v.l.den * v.s.den;
        let v2 = upper(v.s, v.l);
        let v1 = lower(v.s, v.l);
        let w = 3 * v.h.den;
        (
            scale255(hue_to_channel(v1, v2, d, 3 * v.h.num + v.h.den, w)) as u8,
            scale255(hue_to_channel(v1, v2, d, 3 * v.h.num, w)) as u8,
            scale255(hue_to_channel(v1, v2, d, 3 * v.h.num - v.h.den, w)) as u8,
        )
    }
}

/// Keeps a fraction between 0 and 1.
pub open spec fn clamp_unit(f: Frac) -> Frac {
    if f.num < 0 {
        Frac { num: 0, den: f.den }
    } else if f.num > f.den {
        Frac { num: f.den, den: f.den }
    } else {
        f
    }
}

/// `m` moved toward `a` by `factor` percent of their difference, kept
/// between 0 and 1.
pub open spec fn mix_frac(m: Frac, a: Frac, factor: int) -> Frac {
    clamp_unit(
        Frac {
            num: m.num * a.den * 100 - (m.num * a.den - a.num * m.den) * factor,
            den: m.den * a.den * 100,
        },
    )
}

/// `m` changed by `factor` percent of itself, kept between 0 and 1.
pub open spec fn tweak_frac(m: Frac, factor: int) -> Frac {
    clamp_unit(Frac { num: m.num * (100 + factor), den: m.den * 100 })
}

/// What `hsl_of` gives: values between 0 and 1 over small denominators.
pub open spec fn small_hsl(v: HslValue) -> bool {
    &&& 0 <= v.h.num <= v.h.den && 1 <= v.h.den <= 1530
    &&& 0 <= v.s.num <= v.s.den && 1 <= v.s.den <= 510
    &&& 0 <= v.l.num <= v.l.den && 1 <= v.l.den <= 510
}

/// What `hsl_of` gives is small.
pub proof fn lemma_hsl_of_small(rgb: Rgb)
    ensures
        small_hsl(hsl_of(rgb)),
{
}

/// Converts an RGB color to hue, saturation and lightness.
pub fn rgb_to_hsl(rgb: &Rgb) -> (hsl: Hsl)
    ensures
        hsl@ == hsl_of(*rgb),
        small_hsl(hsl@),
{
    let r = rgb.0 as i128;
    let g = rgb.1 as i128;
    let b = rgb.2 as i128;
    let high = if r >= g && r >= b {
        r
    } else if g >= b {
        g
    } else {
        b
    };
    let low = if r <= g && r <= b {
        r
    } else if g <= b {
        g
    } else {
        b
    };
    let d = high - low;
    let sum = high + low;
    if d == 0 {
        Hsl {
            h: Ratio { num: 0, den: 1 },
            s: Ratio { num: 0, den: 1 },
            l: Ratio { num: sum, den: 510 },
        }
    } else {
        let num = if r == high {
            if g >= b {
                g - b
            } else {
                6 * d + g - b
            }
        } else if g == high {
            2 * d + b - r
        } else {
            4 * d + r - g
        };
        Hsl {
            h: Ratio { num, den: 6 * d },
            s: Ratio {
                num: d,
                den: if sum < 255 {
                    sum
                } else {
                    510 - sum
                },
            },
            l: Ratio { num: sum, den: 510 },
        }
    }
}

/// `255 * num / den` rounded down, kept between 0 and 255.
fn scale255_exec(num: i128, den: i128) -> (c: u8)
    requires
        den > 0,
        within(num as int, 1_000_000_000_000_000_000_000_000_000_000),
    ensures
        c == scale255(Frac { num: num as int, den: den as int }),
{
    if num <= 0 {
        0
    } else {
        let q = 255 * num / den;
        proof {
            let x = 255 * num;
            assert(x / (den as int) >= 0) by (nonlinear_arith)
                requires
                    x >= 0,
                    den > 0,
            ;
        }
        if q >= 255 {
            255
        } else {
            q as u8
        }
    }
}

/// The bounds within which a channel is computed without overflow.
pub open spec fn extremes_in_range(v1: int, v2: int, d: int, t: int, w: int) -> bool {
    &&& within(v1, 312_500_000_000_000_000)
    &&& within(v2, 312_500_000_000_000_000)
    &&& 1 <= d <= 62_500_000_000_000_000
    &&& 1 <= w <= 750_000_000
    &&& within(t, 1_000_000_000)
}

/// One channel from the two extremes and the position on the color circle.
fn hue_to_rgb(v1: i128, v2: i128, d: i128, t: i128, w: i128) -> (c: u8)
    requires
        extremes_in_range(v1 as int, v2 as int, d as int, t as int, w as int),
    ensures
        c == scale255(hue_to_channel(v1 as int, v2 as int, d as int, t as int, w as int)),
{
    let p = if t < 0 {
        t + w
    } else if t > w {
        t - w
    } else {
        t
    };
    proof {
        lemma_mul_within(v1 as int, w as int, 312_500_000_000_000_000, 750_000_000);
        lemma_mul_within(v2 - v1, 6 * p, 625_000_000_000_000_000, 10_500_000_000);
        lemma_mul_within(v2 - v1, 4 * w - 6 * p, 625_000_000_000_000_000, 13_500_000_000);
        lemma_mul_within(d as int, w as int, 62_500_000_000_000_000, 750_000_000);
        assert(d * w >= 1) by (nonlinear_arith)
            requires
                d >= 1,
                w >= 1,
        ;
    }
    if 6 * p < w {
        scale255_exec(v1 * w + (v2 - v1) * (6 * p), d * w)
    } else if 2 * p < w {
        scale255_exec(v2, d)
    } else if 3 * p < 2 * w {
        scale255_exec(v1 * w + (v2 - v1) * (4 * w - 6 * p), d * w)
    } else {
        scale255_exec(v1, d)
    }
}

/// Converts a hue, a saturation and a lightness to an RGB color.
pub fn hsl_to_rgb(hsl: &Hsl) -> (rgb: Rgb)
    requires
        unit_hsl(hsl@),
    ensures
        rgb == rgb_of(hsl@),
{
    let h = hsl.h;
    let s = hsl.s;
    let l = hsl.l;
    if s.num == 0 {
        let g = scale255_exec(l.num, l.den);
        (g, g, g)
    } else {
        proof {
            lemma_mul_within(l.den as int, s.den as int, 250_000_000, 250_000_000);
            lemma_mul_within(l.num as int, s.den + s.num, 250_000_000, 500_000_000);
            lemma_mul_within(l.num as int, s.den as int, 250_000_000, 250_000_000);
            lemma_mul_within(2 * l.num, s.den as int, 500_000_000, 250_000_000);
            lemma_mul_within(s.num as int, l.den as int, 250_000_000, 250_000_000);
            lemma_mul_within(s.num as int, l.num as int, 250_000_000, 250_000_000);
            assert(l.den * s.den >= 1) by (nonlinear_arith)
                requires
                    l.den >= 1,
                    s.den >= 1,
            ;
        }
        let d = l.den * s.den;
        let v2 = if 2 * l.num < l.den {
            l.num * (s.den + s.num)
        } else {
            l.num * s.den + s.num * l.den - s.num * l.num
        };
        let v1 = 2 * l.num * s.den - v2;
        let w = 3 * h.den;
        (
            hue_to_rgb(v1, v2, d, 3 * h.num + h.den, w),
            hue_to_rgb(v1, v2, d, 3 * h.num, w),
            hue_to_rgb(v1, v2, d, 3 * h.num - h.den, w),
        )
    }
}

/// Keeps a fraction between 0 and 1.
fn clamp_unit_exec(num: i128, den: i128) -> (r: Ratio)
    ensures
        r@ == clamp_unit(Frac { num: num as int, den: den as int }),
{
    if num < 0 {
        Ratio { num: 0, den }
    } else if num > den {
        Ratio { num: den, den }
    } else {
        Ratio { num, den }
    }
}

/// What mixing and tweaking accept: fractions over small denominators.
pub open spec fn small_frac(f: Frac) -> bool {
    0 <= f.num <= f.den && 1 <= f.den <= 1530
}

/// Mixed fractions are values between 0 and 1 with denominators in bounds.
pub proof fn lemma_mix_frac_unit(m: Frac, a: Frac, factor: int)
    requires
        small_frac(m),
        small_frac(a),
        -128 <= factor <= 127,
    ensures
        unit_frac(mix_frac(m, a, factor)),
{
    lemma_mul_within(m.den, a.den, 1530, 1530);
    assert(m.den * a.den >= 1) by (nonlinear_arith)
        requires
            m.den >= 1,
            a.den >= 1,
    ;
}

/// Tweaked fractions are values between 0 and 1 with denominators in
/// bounds.
pub proof fn lemma_tweak_frac_unit(m: Frac, factor: int)
    requires
        small_frac(m),
        -128 <= factor <= 127,
    ensures
        unit_frac(tweak_frac(m, factor)),
{
}

/// Moves one channel toward another.
pub(crate) fn mix_ratio(m: &Ratio, a: &Ratio, factor: i8) -> (r: Ratio)
    requires
        small_frac(m@),
        small_frac(a@),
    ensures
        r@ == mix_frac(m@, a@, factor as int),
        unit_frac(r@),
{
    proof {
        lemma_mix_frac_unit(m@, a@, factor as int);
        lemma_mul_within(m.num as int, a.den as int, 1530, 1530);
        lemma_mul_within(a.num as int, m.den as int, 1530, 1530);
        lemma_mul_within(m.den as int, a.den as int, 1530, 1530);
        lemma_mul_within(m.num * a.den - a.num * m.den, factor as int, 4_681_800, 128);
    }
    clamp_unit_exec(
        m.num * a.den * 100 - (m.num * a.den - a.num * m.den) * (factor as i128),
        m.den * a.den * 100,
    )
}

/// Changes one channel by a share of itself.
pub(crate) fn tweak_ratio(m: &Ratio, factor: i8) -> (r: Ratio)
    requires
        small_frac(m@),
    ensures
        r@ == tweak_frac(m@, factor as int),
        unit_frac(r@),
{
    proof {
        lemma_tweak_frac_unit(m@, factor as int);
        lemma_mul_within(m.num as int, 100 + factor, 1530, 228);
    }
    clamp_unit_exec(m.num * (100 + factor as i128), m.den * 100)
}

} // verus!
