//! From RGB to hue, saturation and lightness and back: the way back is
//! exact.

use vstd::prelude::*;
use crate::Rgb;
use crate::hsl::{
    Frac, HslValue, hsl_of, rgb_of, hue_num, hue_to_channel, lower, upper, max3, min3, scale255,
    wrap,
};

verus! {

/// The fraction with numerator and denominator multiplied by `k`: the same
/// value for a positive `k`.
pub open spec fn expanded(f: Frac, k: int) -> Frac {
    Frac { num: f.num * k, den: f.den * k }
}

/// Hue, saturation and lightness, each expanded by its own factor.
pub open spec fn expanded_hsl(v: HslValue, kh: int, ks: int, kl: int) -> HslValue {
    HslValue { h: expanded(v.h, kh), s: expanded(v.s, ks), l: expanded(v.l, kl) }
}

/// The channel at the place `x` of the color circle, counted in units of
/// which `6 * d` make the circle, for a color whose smallest channel is `m`
/// and whose largest exceeds it by `d`.
pub open spec fn channel_at(m: int, d: int, x: int) -> int {
    let y = wrap(x, 6 * d);
    if y < d {
        m + y
    } else if y < 3 * d {
        m + d
    } else if y < 4 * d {
        m + 4 * d - y
    } else {
        m
    }
}

/// `255 * (c * k) / (255 * k)` is `c`.
pub proof fn lemma_scale255_exact(c: int, k: int)
    requires
        0 <= c <= 255,
        k > 0,
    ensures
        scale255(Frac { num: c * k, den: 255 * k }) == c,
{
    let num = c * k;
    let den = 255 * k;
    if c == 0 {
        assert(0 * k == 0) by (nonlinear_arith);
    } else {
        assert(num > 0) by (nonlinear_arith)
            requires
                num == c * k,
                c > 0,
                k > 0,
        ;
        assert(255 * num == c * den) by (nonlinear_arith)
            requires
                num == c * k,
                den == 255 * k,
        ;
        assert((c * den) / den == c) by (nonlinear_arith)
            requires
                den > 0,
        ;
    }
}

/// `(a q) (b e) = (a b) (q e)`.
pub proof fn lemma_cross(a: int, q: int, b: int, e: int)
    ensures
        (a * q) * (b * e) == (a * b) * (q * e),
{
    assert((a * q) * (b * e) == (a * b) * (q * e)) by (nonlinear_arith);
}

/// `x z + y z = (x + y) z` and `x z - y z = (x - y) z`.
pub proof fn lemma_gather(x: int, y: int, z: int)
    ensures
        x * z + y * z == (x + y) * z,
        x * z - y * z == (x - y) * z,
{
    assert(x * z + y * z == (x + y) * z) by (nonlinear_arith);
    assert(x * z - y * z == (x - y) * z) by (nonlinear_arith);
}

/// `c (a z) = (a c) z`.
pub proof fn lemma_regroup(c: int, a: int, z: int)
    ensures
        c * (a * z) == (a * c) * z,
{
    assert(c * (a * z) == (a * c) * z) by (nonlinear_arith);
}

/// One channel of the way back, for extremes `2 m q / (510 q)` and
/// `2 (m + d) q / (510 q)` and a hue position `3 x e / (18 d e)`.
pub proof fn lemma_channel(m: int, d: int, q: int, e: int, x: int)
    requires
        0 <= m,
        0 < d,
        m + d <= 255,
        q > 0,
        e > 0,
        -2 * d <= x <= 8 * d,
    ensures
        scale255(
            hue_to_channel(
                (2 * m) * q,
                (2 * (m + d)) * q,
                510 * q,
                (3 * x) * e,
                (18 * d) * e,
            ),
        ) == channel_at(m, d, x),
{
    let v1 = (2 * m) * q;
    let v2 = (2 * (m + d)) * q;
    let big = 510 * q;
    let t = (3 * x) * e;
    let w = (18 * d) * e;
    let y = wrap(x, 6 * d);
    let p = wrap(t, w);
    let z = q * e;
    assert(z > 0) by (nonlinear_arith)
        requires
            z == q * e,
            q > 0,
            e > 0,
    ;
    assert(w > 0) by (nonlinear_arith)
        requires
            w == (18 * d) * e,
            e > 0,
            d > 0,
    ;
    assert(t < 0 <==> x < 0) by (nonlinear_arith)
        requires
            t == (3 * x) * e,
            e > 0,
    ;
    lemma_gather(3 * x, 18 * d, e);
    assert(t > w <==> x > 6 * d) by (nonlinear_arith)
        requires
            t - w == (3 * x - 18 * d) * e,
            e > 0,
    ;
    assert(p == (3 * y) * e) by {
        if t < 0 {
            assert(3 * y == 3 * x + 18 * d);
        } else if t > w {
            assert(3 * y == 3 * x - 18 * d);
        }
    }
    lemma_gather(18 * y, 18 * d, e);
    assert(6 * p == (18 * y) * e) by (nonlinear_arith)
        requires
            p == (3 * y) * e,
    ;
    assert(6 * p < w <==> y < d) by (nonlinear_arith)
        requires
            6 * p - w == (18 * y - 18 * d) * e,
            e > 0,
    ;
    lemma_gather(6 * y, 18 * d, e);
    assert(2 * p == (6 * y) * e) by (nonlinear_arith)
        requires
            p == (3 * y) * e,
    ;
    assert(2 * p < w <==> y < 3 * d) by (nonlinear_arith)
        requires
            2 * p - w == (6 * y - 18 * d) * e,
            e > 0,
    ;
    lemma_gather(9 * y, 36 * d, e);
    assert(3 * p == (9 * y) * e) by (nonlinear_arith)
        requires
            p == (3 * y) * e,
    ;
    assert(2 * w == (36 * d) * e) by (nonlinear_arith)
        requires
            w == (18 * d) * e,
    ;
    assert(3 * p < 2 * w <==> y < 4 * d) by (nonlinear_arith)
        requires
            3 * p - 2 * w == (9 * y - 36 * d) * e,
            e > 0,
    ;
    let k = (36 * d) * z;
    assert(k > 0) by (nonlinear_arith)
        requires
            k == (36 * d) * z,
            z > 0,
            d > 0,
    ;
    lemma_cross(510, q, 18 * d, e);
    assert(big * w == 255 * k) by (nonlinear_arith)
        requires
            big * w == (510 * (18 * d)) * z,
            k == (36 * d) * z,
    ;
    lemma_gather((2 * (m + d)), 2 * m, q);
    assert(v2 - v1 == (2 * d) * q);
    lemma_cross(2 * m, q, 18 * d, e);
    let first = (2 * m) * (18 * d);
    assert(v1 * w == first * z);
    if y < d {
        lemma_cross(2 * d, q, 18 * y, e);
        let second = (2 * d) * (18 * y);
        assert((v2 - v1) * (6 * p) == second * z);
        lemma_gather(first, second, z);
        assert(first + second == (36 * d) * (m + y)) by (nonlinear_arith)
            requires
                first == (2 * m) * (18 * d),
                second == (2 * d) * (18 * y),
        ;
        lemma_regroup(m + y, 36 * d, z);
        lemma_scale255_exact(m + y, k);
    } else if y < 3 * d {
        lemma_regroup(m + d, 2, q);
        lemma_scale255_exact(m + d, 2 * q);
    } else if y < 4 * d {
        lemma_gather(72 * d, 18 * y, e);
        assert(4 * w == (72 * d) * e) by (nonlinear_arith)
            requires
                w == (18 * d) * e,
        ;
        assert(4 * w - 6 * p == (72 * d - 18 * y) * e);
        lemma_cross(2 * d, q, 72 * d - 18 * y, e);
        let second = (2 * d) * (72 * d - 18 * y);
        assert((v2 - v1) * (4 * w - 6 * p) == second * z);
        lemma_gather(first, second, z);
        assert(first + second == (36 * d) * (m + 4 * d - y)) by (nonlinear_arith)
            requires
                first == (2 * m) * (18 * d),
                second == (2 * d) * (72 * d - 18 * y),
        ;
        lemma_regroup(m + 4 * d - y, 36 * d, z);
        lemma_scale255_exact(m + 4 * d - y, k);
    } else {
        lemma_regroup(m, 2, q);
        lemma_scale255_exact(m, 2 * q);
    }
}

/// The two extremes of a color that is not gray, for saturation and
/// lightness expanded by `ks` and `kl`: `2 m q` and `2 (m + d) q` over
/// `510 q`, with `q` the product of the two factors and the denominator of
/// the saturation.
pub proof fn lemma_extremes(m: int, d: int, ks: int, kl: int)
    requires
        0 <= m,
        0 < d,
        m + d <= 255,
        ks > 0,
        kl > 0,
    ensures
        ({
            let sum = 2 * m + d;
            let den = if sum < 255 {
                sum
            } else {
                510 - sum
            };
            let s = Frac { num: d * ks, den: den * ks };
            let l = Frac { num: sum * kl, den: 510 * kl };
            let q = den * (kl * ks);
            &&& q > 0
            &&& upper(s, l) == (2 * (m + d)) * q
            &&& lower(s, l) == (2 * m) * q
            &&& l.den * s.den == 510 * q
            &&& s.num != 0
        }),
{
    let sum = 2 * m + d;
    let den = if sum < 255 {
        sum
    } else {
        510 - sum
    };
    let s = Frac { num: d * ks, den: den * ks };
    let l = Frac { num: sum * kl, den: 510 * kl };
    let z = kl * ks;
    let q = den * z;
    assert(den > 0);
    assert(z > 0) by (nonlinear_arith)
        requires
            z == kl * ks,
            ks > 0,
            kl > 0,
    ;
    assert(q > 0) by (nonlinear_arith)
        requires
            q == den * z,
            den > 0,
            z > 0,
    ;
    assert(s.num != 0) by (nonlinear_arith)
        requires
            s.num == d * ks,
            d > 0,
            ks > 0,
    ;
    lemma_gather(2 * sum, 510, kl);
    assert(2 * l.num == (2 * sum) * kl) by (nonlinear_arith)
        requires
            l.num == sum * kl,
    ;
    assert(2 * l.num < l.den <==> sum < 255) by (nonlinear_arith)
        requires
            2 * l.num - l.den == (2 * sum - 510) * kl,
            kl > 0,
    ;
    // l.den * s.den
    lemma_cross(510, kl, den, ks);
    lemma_regroup(510, den, z);
    assert(l.den * s.den == 510 * q) by (nonlinear_arith)
        requires
            l.den * s.den == (510 * den) * z,
            510 * (den * z) == (den * 510) * z,
            q == den * z,
    ;
    // the three products of the numerators
    lemma_cross(sum, kl, den, ks);
    lemma_cross(sum, kl, d, ks);
    lemma_cross(510, kl, d, ks);
    let a = sum * den;
    let b = sum * d;
    let c = 510 * d;
    assert(l.num * s.den == a * z);
    assert(l.num * s.num == b * z);
    assert(l.den * s.num == c * z);
    assert(s.num * l.den == c * z) by (nonlinear_arith)
        requires
            l.den * s.num == c * z,
    ;
    assert(s.num * l.num == b * z) by (nonlinear_arith)
        requires
            l.num * s.num == b * z,
    ;
    lemma_gather(a, b, z);
    lemma_gather(a + c, b, z);
    lemma_gather(a, c, z);
    lemma_gather(2 * a, a + b, z);
    lemma_gather(2 * a, a + c - b, z);
    lemma_regroup(2 * (m + d), den, z);
    lemma_regroup(2 * m, den, z);
    assert((2 * l.num) * s.den == (2 * a) * z) by (nonlinear_arith)
        requires
            l.num * s.den == a * z,
    ;
    assert(2 * l.num * s.den == (2 * l.num) * s.den);
    assert(l.num * (s.den + s.num) == (a + b) * z) by (nonlinear_arith)
        requires
            l.num * s.den == a * z,
            l.num * s.num == b * z,
            a * z + b * z == (a + b) * z,
    ;
    if sum < 255 {
        assert(a + b == den * (2 * (m + d))) by (nonlinear_arith)
            requires
                a == sum * den,
                b == sum * d,
                den == sum,
                sum == 2 * m + d,
        ;
        assert(2 * a - (a + b) == den * (2 * m)) by (nonlinear_arith)
            requires
                a == sum * den,
                b == sum * d,
                den == sum,
                sum == 2 * m + d,
        ;
    } else {
        assert(a + c - b == den * (2 * (m + d))) by (nonlinear_arith)
            requires
                a == sum * den,
                b == sum * d,
                c == 510 * d,
                den == 510 - sum,
                sum == 2 * m + d,
        ;
        assert(2 * a - (a + c - b) == den * (2 * m)) by (nonlinear_arith)
            requires
                a == sum * den,
                b == sum * d,
                c == 510 * d,
                den == 510 - sum,
                sum == 2 * m + d,
        ;
    }
}

/// The color of an expanded hue, saturation and lightness of an RGB color
/// is that RGB color.
pub proof fn lemma_rgb_of_expanded(rgb: Rgb, kh: int, ks: int, kl: int)
    requires
        kh > 0,
        ks > 0,
        kl > 0,
    ensures
        rgb_of(expanded_hsl(hsl_of(rgb), kh, ks, kl)) == rgb,
{
    let high = max3(rgb.0 as int, rgb.1 as int, rgb.2 as int);
    let m = min3(rgb.0 as int, rgb.1 as int, rgb.2 as int);
    let d = high - m;
    let sum = high + m;
    let v = expanded_hsl(hsl_of(rgb), kh, ks, kl);
    if d == 0 {
        assert(v.s.num == 0) by (nonlinear_arith)
            requires
                v.s.num == 0 * ks,
        ;
        assert(v.l.num == high * (2 * kl)) by (nonlinear_arith)
            requires
                v.l.num == sum * kl,
                sum == 2 * high,
        ;
        assert(v.l.den == 255 * (2 * kl)) by (nonlinear_arith)
            requires
                v.l.den == 510 * kl,
        ;
        lemma_scale255_exact(high, 2 * kl);
    } else {
        lemma_extremes(m, d, ks, kl);
        let den = if sum < 255 {
            sum
        } else {
            510 - sum
        };
        let q = den * (kl * ks);
        let x = hue_num(rgb);
        assert(0 <= x <= 6 * d);
        assert(v.h.den == (6 * d) * kh);
        assert(3 * v.h.den == (18 * d) * kh) by (nonlinear_arith)
            requires
                v.h.den == (6 * d) * kh,
        ;
        assert(3 * v.h.num + v.h.den == (3 * (x + 2 * d)) * kh) by (nonlinear_arith)
            requires
                v.h.num == x * kh,
                v.h.den == (6 * d) * kh,
        ;
        assert(3 * v.h.num == (3 * x) * kh) by (nonlinear_arith)
            requires
                v.h.num == x * kh,
        ;
        assert(3 * v.h.num - v.h.den == (3 * (x - 2 * d)) * kh) by (nonlinear_arith)
            requires
                v.h.num == x * kh,
                v.h.den == (6 * d) * kh,
        ;
        lemma_channel(m, d, q, kh, x + 2 * d);
        lemma_channel(m, d, q, kh, x);
        lemma_channel(m, d, q, kh, x - 2 * d);
        assert(channel_at(m, d, x + 2 * d) == rgb.0);
        assert(channel_at(m, d, x) == rgb.1);
        assert(channel_at(m, d, x - 2 * d) == rgb.2);
    }
}

/// A fraction expanded by 1 is itself.
pub proof fn lemma_expanded_by_one(f: Frac)
    ensures
        expanded(f, 1) == f,
{
    assert(f.num * 1 == f.num) by (nonlinear_arith);
    assert(f.den * 1 == f.den) by (nonlinear_arith);
}

/// Converting an RGB color to hue, saturation and lightness and back gives
/// the color again, exactly.
pub proof fn lemma_round_trip(rgb: Rgb)
    ensures
        rgb_of(hsl_of(rgb)) == rgb,
{
    let v = hsl_of(rgb);
    lemma_expanded_by_one(v.h);
    lemma_expanded_by_one(v.s);
    lemma_expanded_by_one(v.l);
    lemma_rgb_of_expanded(rgb, 1, 1, 1);
    assert(expanded_hsl(v, 1, 1, 1) == v);
}

} // verus!
