//! Conversion from sRGB to CIE L*a*b* (D65 white), in fixed point.

use vstd::prelude::*;
use crate::Rgb;
use crate::fixed::{
    ONE, ipow, floor_root, is_floor_root, within, lemma_floor_root_below,
    lemma_floor_root_exists, lemma_floor_root_unique, lemma_ipow_monotonic, lemma_mul_within,
    cbrt_floor, root5_floor,
};

verus! {

/// A color in CIE L*a*b*, each coordinate with six decimal places.
#[derive(Clone, Copy, Debug)]
pub struct Lab {
    pub l: i64,
    pub a: i64,
    pub b: i64,
}

impl View for Lab {
    type V = (int, int, int);

    open spec fn view(&self) -> (int, int, int) {
        (self.l as int, self.a as int, self.b as int)
    }
}

/// The bounds that every L*a*b* value of an RGB color keeps.
pub open spec fn lab_in_range(lab: (int, int, int)) -> bool {
    &&& within(lab.0, 110_000_000)
    &&& within(lab.1, 600_000_000)
    &&& within(lab.2, 300_000_000)
}

/// Linear light of an sRGB channel value: `c / 255 / 12.92` up to the 0.04045
/// breakpoint (channel values 0 to 10), `((c / 255 + 0.055) / 1.055) ^ 2.4`
/// above it. The power is the square times the fifth root of the square.
pub open spec fn linearize(c: int) -> int {
    if c <= 10 {
        10 * c * ONE / 32946
    } else {
        let u = (1000 * c + 14025) * ONE / 269025;
        let u2 = u * u / (ONE as int);
        u2 * floor_root(u2 * 1_000_000_000_000_000_000_000_000, 5) / (ONE as int)
    }
}

/// The L*a*b* companding function: the cube root above 0.008856, the line
/// `7.787 t + 16 / 116` below.
pub open spec fn lab_curve(t: int) -> int {
    if t > 8856 {
        floor_root(t * 1_000_000_000_000, 3)
    } else {
        7787 * t / 1000 + 137931
    }
}

/// Lightness from the relative luminance `t`: `116 f(t) - 16` with the
/// companding function `f`. Below the breakpoint, where `f` is a line, the
/// 16 of the line and the 16 taken off cancel, and what is left is
/// `116 * 7.787 t`: black has lightness 0 exactly.
pub open spec fn lightness(t: int) -> int {
    if t > 8856 {
        116 * lab_curve(t) - 16 * ONE
    } else {
        903292 * t / 1000
    }
}

/// X, Y and Z of linear light, each relative to the D65 white point.
pub open spec fn xyz(r: int, g: int, b: int) -> (int, int, int) {
    (
        (4124 * r + 3576 * g + 1805 * b) * 10 / 95047,
        (2126 * r + 7152 * g + 722 * b) / 10000,
        (193 * r + 1192 * g + 9505 * b) * 10 / 108883,
    )
}

/// The L*a*b* coordinates of an RGB color.
pub open spec fn lab_of(rgb: Rgb) -> (int, int, int) {
    let t = xyz(linearize(rgb.0 as int), linearize(rgb.1 as int), linearize(rgb.2 as int));
    let fx = lab_curve(t.0);
    let fy = lab_curve(t.1);
    let fz = lab_curve(t.2);
    (lightness(t.1), 500 * (fx - fy), 200 * (fy - fz))
}

/// Two powers that bound the roots.
proof fn lemma_power_values()
    ensures
        ipow(1_000_001, 5) > 1_000_000_000_000_000_000_000_000_000_000,
        ipow(1_000_101, 3) > 1_000_200_000_000_000_000,
{
    reveal_with_fuel(ipow, 6);
    assert(ipow(1_000_001, 5) > 1_000_000_000_000_000_000_000_000_000_000) by (nonlinear_arith)
        requires
            ipow(1_000_001, 5) == 1_000_001 * (1_000_001 * (1_000_001 * (1_000_001 * (1_000_001
                * 1)))),
    ;
    assert(ipow(1_000_101, 3) > 1_000_200_000_000_000_000) by (nonlinear_arith)
        requires
            ipow(1_000_101, 3) == 1_000_101 * (1_000_101 * (1_000_101 * 1)),
    ;
}

/// Linear light lies between 0 and 1.
pub proof fn lemma_linearize_range(c: int)
    requires
        0 <= c <= 255,
    ensures
        0 <= linearize(c) <= ONE,
{
    if c > 10 {
        let u = (1000 * c + 14025) * ONE / 269025;
        assert(0 <= u <= ONE);
        lemma_mul_within(u, u, ONE as int, ONE as int);
        let u2 = u * u / (ONE as int);
        assert(0 <= u2 <= ONE);
        let n = u2 * 1_000_000_000_000_000_000_000_000;
        lemma_floor_root_exists(n, 5);
        let root = floor_root(n, 5);
        lemma_power_values();
        lemma_floor_root_below(n, 5, root, 1_000_001);
        lemma_mul_within(u2, root, ONE as int, ONE as int);
    }
}

/// The companding function keeps values up to the white point between 0
/// and a little over 1.
pub proof fn lemma_lab_curve_range(t: int)
    requires
        0 <= t <= 1_000_200,
    ensures
        0 <= lab_curve(t) <= 1_000_100,
{
    if t > 8856 {
        let n = t * 1_000_000_000_000;
        lemma_floor_root_exists(n, 3);
        lemma_power_values();
        lemma_floor_root_below(n, 3, floor_root(n, 3), 1_000_101);
    }
}

/// A floor root is at least any bound whose power does not exceed the
/// argument.
pub proof fn lemma_floor_root_at_least(n: int, k: nat, r: int, bound: int)
    requires
        is_floor_root(n, k, r),
        0 <= bound,
        ipow(bound, k) <= n,
    ensures
        r >= bound,
{
    if r < bound {
        lemma_ipow_monotonic(r + 1, bound, k);
    }
}

/// Lightness lies between 0 and 100.
pub proof fn lemma_lightness_range(t: int)
    requires
        0 <= t <= ONE,
    ensures
        0 <= lightness(t) <= 100 * ONE,
{
    if t > 8856 {
        let n = t * 1_000_000_000_000;
        lemma_floor_root_exists(n, 3);
        let r = floor_root(n, 3);
        reveal_with_fuel(ipow, 4);
        assert(ipow(137932, 3) <= 8_857_000_000_000_000) by (nonlinear_arith)
            requires
                ipow(137932, 3) == 137932 * (137932 * (137932 * 1)),
        ;
        assert(ipow(1_000_001, 3) > 1_000_000_000_000_000_000) by (nonlinear_arith)
            requires
                ipow(1_000_001, 3) == 1_000_001 * (1_000_001 * (1_000_001 * 1)),
        ;
        lemma_floor_root_at_least(n, 3, r, 137932);
        lemma_floor_root_below(n, 3, r, 1_000_001);
    }
}

/// The L*a*b* coordinates of every RGB color are in range, and its
/// lightness lies between 0 and 100.
pub proof fn lemma_lab_of_range(rgb: Rgb)
    ensures
        lab_in_range(lab_of(rgb)),
        0 <= lab_of(rgb).0 <= 100 * ONE,
{
    lemma_linearize_range(rgb.0 as int);
    lemma_linearize_range(rgb.1 as int);
    lemma_linearize_range(rgb.2 as int);
    let t = xyz(linearize(rgb.0 as int), linearize(rgb.1 as int), linearize(rgb.2 as int));
    lemma_lab_curve_range(t.0);
    lemma_lab_curve_range(t.1);
    lemma_lab_curve_range(t.2);
    lemma_lightness_range(t.1);
}

/// Black is the origin: lightness 0, and neither `a` nor `b`.
pub proof fn lemma_lab_of_black()
    ensures
        lab_of((0, 0, 0)) == (0int, 0int, 0int),
{
}

/// White has lightness 100.
pub proof fn lemma_lab_of_white()
    ensures
        lab_of((255, 255, 255)).0 == 100 * ONE,
{
    reveal_with_fuel(ipow, 6);
    let big = 1_000_000_000_000_000_000_000_000_000_000int;
    assert(ipow(1_000_000, 5) == big) by (nonlinear_arith)
        requires
            ipow(1_000_000, 5) == 1_000_000 * (1_000_000 * (1_000_000 * (1_000_000 * (1_000_000
                * 1)))),
            big == 1_000_000_000_000_000_000_000_000_000_000,
    ;
    lemma_power_values();
    assert(is_floor_root(big, 5, 1_000_000));
    lemma_floor_root_unique(big, 5, 1_000_000);
    assert(linearize(255) == ONE);
    let cube = 1_000_000_000_000_000_000int;
    assert(ipow(1_000_000, 3) == cube) by (nonlinear_arith)
        requires
            ipow(1_000_000, 3) == 1_000_000 * (1_000_000 * (1_000_000 * 1)),
            cube == 1_000_000_000_000_000_000,
    ;
    assert(ipow(1_000_001, 3) > cube) by (nonlinear_arith)
        requires
            ipow(1_000_001, 3) == 1_000_001 * (1_000_001 * (1_000_001 * 1)),
            cube == 1_000_000_000_000_000_000,
    ;
    assert(is_floor_root(cube, 3, 1_000_000));
    lemma_floor_root_unique(cube, 3, 1_000_000);
}

/// Linear light of a channel value.
fn linearize_exec(c: u8) -> (v: i128)
    ensures
        v == linearize(c as int),
        0 <= v <= ONE,
{
    if c <= 10 {
        10 * (c as i128) * ONE / 32946
    } else {
        let u: i128 = (1000 * (c as i128) + 14025) * ONE / 269025;
        assert(0 <= u <= ONE);
        proof {
            lemma_mul_within(u as int, u as int, ONE as int, ONE as int);
        }
        let u2: i128 = u * u / ONE;
        assert(0 <= u2 <= ONE);
        let n: u128 = (u2 as u128) * 1_000_000_000_000_000_000_000_000;
        let root = root5_floor(n);
        proof {
            lemma_power_values();
            lemma_floor_root_below(n as int, 5, root as int, 1_000_001);
            lemma_mul_within(u2 as int, root as int, ONE as int, ONE as int);
        }
        u2 * (root as i128) / ONE
    }
}

/// The companding function.
fn lab_curve_exec(t: i128) -> (v: i128)
    requires
        0 <= t <= 1_000_200,
    ensures
        v == lab_curve(t as int),
        0 <= v <= 1_000_100,
{
    if t > 8856 {
        let n: u128 = (t as u128) * 1_000_000_000_000;
        let root = cbrt_floor(n);
        proof {
            lemma_power_values();
            lemma_floor_root_below(n as int, 3, root as int, 1_000_101);
        }
        root as i128
    } else {
        7787 * t / 1000 + 137931
    }
}

/// Converts an RGB color to L*a*b*.
pub fn rgb_to_lab(rgb: &Rgb) -> (lab: Lab)
    ensures
        lab@ == lab_of(*rgb),
        lab_in_range(lab@),
        0 <= lab.l <= 100 * ONE,
{
    let r = linearize_exec(rgb.0);
    let g = linearize_exec(rgb.1);
    let b = linearize_exec(rgb.2);
    let x = (4124 * r + 3576 * g + 1805 * b) * 10 / 95047;
    let y = (2126 * r + 7152 * g + 722 * b) / 10000;
    let z = (193 * r + 1192 * g + 9505 * b) * 10 / 108883;
    let fx = lab_curve_exec(x);
    let fy = lab_curve_exec(y);
    let fz = lab_curve_exec(z);
    proof {
        lemma_lightness_range(y as int);
    }
    let l = if y > 8856 {
        116 * fy - 16 * ONE
    } else {
        903292 * y / 1000
    };
    Lab {
        l: l as i64,
        a: (500 * (fx - fy)) as i64,
        b: (200 * (fy - fz)) as i64,
    }
}

} // verus!
