use reewal::color::{compare_colors, is_colorful, mix_colors, tweak_color};
use reewal::hsl::{hsl_to_rgb, rgb_to_hsl};
use reewal::lab::rgb_to_lab;

fn sample_colors() -> Vec<(u8, u8, u8)> {
    let levels = [0u8, 1, 2, 10, 11, 63, 64, 127, 128, 129, 200, 254, 255];
    let mut out = Vec::new();
    for &r in &levels {
        for &g in &levels {
            for &b in &levels {
                out.push((r, g, b));
            }
        }
    }
    out
}

#[test]
fn hsl_round_trip_is_exact() {
    for c in sample_colors() {
        assert_eq!(hsl_to_rgb(&rgb_to_hsl(&c)), c);
    }
    for r in 0..=255u8 {
        let c = (r, r.wrapping_mul(7), r.wrapping_mul(13).wrapping_add(5));
        assert_eq!(hsl_to_rgb(&rgb_to_hsl(&c)), c);
    }
}

#[test]
fn hsl_of_sample_colors() {
    // hue 391/396, saturation 11/16, lightness 53/85
    let v = rgb_to_hsl(&(225, 93, 103));
    assert_eq!(v.h.num * 396, 391 * v.h.den);
    assert_eq!(v.s.num * 16, 11 * v.s.den);
    assert_eq!(v.l.num * 85, 53 * v.l.den);
    // a gray has hue 0 and saturation 0
    let g = rgb_to_hsl(&(90, 90, 90));
    assert_eq!((g.h.num, g.s.num), (0, 0));
    assert_eq!(g.l.num * 255, 90 * g.l.den);
    // green sits at a third of the circle
    let v = rgb_to_hsl(&(10, 200, 10));
    assert_eq!(v.h.num * 3, v.h.den);
    assert_eq!(v.s.num * 21, 19 * v.s.den);
    // fully saturated
    let v = rgb_to_hsl(&(0, 163, 242));
    assert_eq!(v.s.num, v.s.den);
    assert_eq!(v.h.num * 1452, 805 * v.h.den);
}

#[test]
fn lab_of_sample_colors() {
    let lab = rgb_to_lab(&(225, 93, 103));
    assert_eq!((lab.l, lab.a, lab.b), (56_894_980, 52_235_500, 20_917_000));
    let lab = rgb_to_lab(&(0, 163, 242));
    assert_eq!((lab.l, lab.a, lab.b), (63_839_784, -7_050_500, -49_178_000));
    let white = rgb_to_lab(&(255, 255, 255));
    assert_eq!((white.l, white.a, white.b), (100_000_000, 5000, -10200));
    let black = rgb_to_lab(&(0, 0, 0));
    assert_eq!((black.l, black.a, black.b), (0, 0, 0));
    let dark = rgb_to_lab(&(10, 10, 10));
    assert_eq!((dark.l, dark.a, dark.b), (2_741_491, 0, 0));
    let darkest = rgb_to_lab(&(1, 1, 1));
    assert_eq!((darkest.l, darkest.a, darkest.b), (273_697, 0, 0));
}

#[test]
fn lightness_stays_between_0_and_100() {
    for c in sample_colors() {
        let lab = rgb_to_lab(&c);
        assert!(0 <= lab.l && lab.l <= 100_000_000, "{c:?}");
    }
    for v in 0..=255u8 {
        let gray = rgb_to_lab(&(v, v, v));
        assert!(0 <= gray.l && gray.l <= 100_000_000);
        assert!(gray.a.abs() < 50_000 && gray.b.abs() < 50_000);
    }
}

#[test]
fn lab_is_close_to_the_real_conversion() {
    fn real(rgb: (u8, u8, u8)) -> (f64, f64, f64) {
        let lin = |c: u8| {
            let c = c as f64 / 255.0;
            if c > 0.04045 {
                ((c + 0.055) / 1.055).powf(2.4)
            } else {
                c / 12.92
            }
        };
        let (r, g, b) = (lin(rgb.0), lin(rgb.1), lin(rgb.2));
        let f = |t: f64| if t > 0.008856 { t.cbrt() } else { 7.787 * t + 16.0 / 116.0 };
        let x = f((r * 0.4124 + g * 0.3576 + b * 0.1805) / 0.95047);
        let y = f(r * 0.2126 + g * 0.7152 + b * 0.0722);
        let z = f((r * 0.0193 + g * 0.1192 + b * 0.9505) / 1.08883);
        (116.0 * y - 16.0, 500.0 * (x - y), 200.0 * (y - z))
    }
    for c in sample_colors() {
        let lab = rgb_to_lab(&c);
        let want = real(c);
        assert!((lab.l as f64 / 1e6 - want.0).abs() < 0.01, "{c:?}");
        assert!((lab.a as f64 / 1e6 - want.1).abs() < 0.01, "{c:?}");
        assert!((lab.b as f64 / 1e6 - want.2).abs() < 0.01, "{c:?}");
    }
}

#[test]
fn distance_to_itself_is_zero() {
    for c in sample_colors() {
        assert_eq!(compare_colors(&c, &c, 1000, 1000, 1000), 0);
        assert_eq!(compare_colors(&c, &c, 1, 4_000_000_000, 750), 0);
    }
}

#[test]
fn distance_is_symmetric() {
    let colors = sample_colors();
    let weights = [(1000u32, 1000u32, 1000u32), (750, 1000, 1000), (1, 1, 1), (2000, 300, 5000)];
    for (i, a) in colors.iter().enumerate().step_by(37) {
        for (j, b) in colors.iter().enumerate().step_by(41) {
            let w = weights[(i + j) % weights.len()];
            assert_eq!(
                compare_colors(a, b, w.0, w.1, w.2),
                compare_colors(b, a, w.0, w.1, w.2),
                "{a:?} {b:?} {w:?}"
            );
        }
    }
}

#[test]
fn distance_is_kept_within_sixteen_bits() {
    // with the smallest weights every component is a thousand times as large
    assert_eq!(compare_colors(&(0, 0, 0), &(255, 255, 255), 1, 1, 1), 65535);
    assert_eq!(compare_colors(&(0, 0, 0), &(255, 255, 255), 1000, 1000, 1000), 100);
    assert_eq!(compare_colors(&(0, 0, 0), &(255, 255, 255), 1000, 1000, 2000), 50);
    assert_eq!(compare_colors(&(0, 0, 0), &(1, 1, 1), 1000, 1000, 1), 157);
}

#[test]
fn a_larger_weight_makes_its_component_count_less() {
    let a = (225, 93, 103);
    let b = (93, 177, 41);
    let base = compare_colors(&a, &b, 1000, 1000, 1000);
    assert!(compare_colors(&a, &b, 4000, 1000, 1000) < base);
    assert!(compare_colors(&a, &b, 1000, 4000, 1000) <= base);
    assert!(compare_colors(&a, &b, 1000, 1000, 4000) < base);
    assert!(compare_colors(&a, &b, 250, 1000, 1000) > base);
}

#[test]
fn doubled_weights_halve_the_distance() {
    let colors = sample_colors();
    for (i, a) in colors.iter().enumerate().step_by(53) {
        for b in colors.iter().skip(i % 7).step_by(61) {
            let whole = compare_colors(a, b, 750, 1000, 1000) as i32;
            let half = compare_colors(a, b, 1500, 2000, 2000) as i32;
            // each is rounded to a whole number, so twice the half is within
            // one and a half of the whole
            assert!((2 * half - whole).abs() <= 1, "{a:?} {b:?}: {whole} and {half}");
        }
    }
}

#[test]
fn mixing_a_color_with_itself_changes_nothing() {
    let factors = [-128i8, -100, -37, -1, 0, 1, 50, 100, 127];
    for c in sample_colors().into_iter().step_by(7) {
        for &f in &factors {
            assert_eq!(mix_colors(&c, &c, f, f, f), c);
        }
        assert_eq!(mix_colors(&c, &c, -100, 10, 127), c);
    }
}

#[test]
fn mixing_moves_toward_the_reference() {
    let main = (225, 93, 103);
    let reference = (0, 163, 242);
    // no movement at factor 0, all the way at factor 100
    assert_eq!(mix_colors(&main, &reference, 0, 0, 0), main);
    assert_eq!(mix_colors(&main, &reference, 100, 100, 100), reference);
    assert_eq!(mix_colors(&main, &reference, 10, 100, 100), (242, 0, 81));
    // a gray reference at full saturation factor takes the color out
    assert_eq!(mix_colors(&main, &(90, 90, 90), 0, 100, 0), (159, 159, 159));
    // the channels are kept between 0 and 1
    assert_eq!(mix_colors(&(250, 250, 250), &(0, 0, 0), 0, 0, -100), (255, 255, 255));
    assert_eq!(mix_colors(&(5, 5, 5), &(255, 255, 255), 0, 0, -100), (0, 0, 0));
}

#[test]
fn tweaking_changes_each_channel_by_a_share_of_itself() {
    let mut c = (225, 93, 103);
    tweak_color(&mut c, 0, 0, 0);
    assert_eq!(c, (225, 93, 103));
    tweak_color(&mut c, 0, -1, 1);
    assert_eq!(c, (224, 96, 106));
    let mut c = (200, 100, 50);
    tweak_color(&mut c, 5, -10, 10);
    assert_eq!(c, (200, 118, 74));
    // all saturation taken away leaves a gray of the same lightness
    let mut c = (200, 100, 50);
    tweak_color(&mut c, 0, -100, 0);
    assert_eq!(c, (125, 125, 125));
    // lightness cannot leave the range
    let mut c = (200, 220, 240);
    tweak_color(&mut c, 0, 0, 127);
    assert_eq!(c, (255, 255, 255));
    let mut c = (200, 220, 240);
    tweak_color(&mut c, 0, 0, -128);
    assert_eq!(c, (0, 0, 0));
}

#[test]
fn colorful_never_gains_from_a_higher_threshold() {
    let mut colors = sample_colors();
    // colors of half lightness, the only ones that count from 63 on
    for low in 0..=127u8 {
        colors.push((255 - low, low, low));
        colors.push((low, 255 - low, 128));
    }
    for c in colors {
        let mut before = true;
        for threshold in 0..=255u8 {
            let now = is_colorful(&c, threshold);
            assert!(before || !now, "{c:?} at {threshold}");
            before = now;
        }
    }
}

#[test]
fn colorful_beyond_the_pole() {
    // from 63 on only half lightness counts, with a saturation of at least
    // the threshold: (230, 25, 25) has saturation 41/51
    assert!(is_colorful(&(230, 25, 25), 62));
    assert!(is_colorful(&(230, 25, 25), 63));
    assert!(is_colorful(&(230, 25, 25), 80));
    assert!(!is_colorful(&(230, 25, 25), 81));
    assert!(!is_colorful(&(231, 25, 25), 63));
    assert!(!is_colorful(&(210, 44, 44), 63));
    assert!(!is_colorful(&(210, 44, 44), 64));
    assert!(is_colorful(&(255, 0, 0), 63));
    assert!(is_colorful(&(255, 0, 0), 100));
    assert!(!is_colorful(&(255, 0, 0), 101));
    assert!(!is_colorful(&(255, 0, 0), 255));
}

#[test]
fn colorful_edges() {
    // grays never are, whatever their lightness
    for v in [0u8, 1, 20, 127, 128, 230, 255] {
        for threshold in [1u8, 15, 50, 62, 100] {
            assert!(!is_colorful(&(v, v, v), threshold));
        }
    }
    // at threshold 0 a gray of half lightness reaches the curve, others do not
    assert!(!is_colorful(&(127, 127, 127), 0));
    assert!(!is_colorful(&(20, 20, 20), 0));
    // full saturation at half lightness reaches every curve up to 100
    assert!(is_colorful(&(255, 0, 0), 100));
    assert!(is_colorful(&(255, 0, 0), 1));
    assert!(!is_colorful(&(254, 0, 0), 100));
    // dark and light colors need more saturation than those in between
    assert!(is_colorful(&(150, 100, 100), 15));
    assert!(!is_colorful(&(50, 33, 33), 15));
    assert!(!is_colorful(&(250, 240, 240), 15));
}
