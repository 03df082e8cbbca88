use reewal::color::{compare_colors, compare_colors_plain, is_colorful, mix_colors, tweak_color};

#[test]
fn distance_of_sample_pairs() {
    assert_eq!(compare_colors(&(34, 34, 34), &(20, 20, 20), 1000, 1000, 1000), 4);
    assert_eq!(compare_colors(&(225, 93, 103), &(220, 50, 50), 1000, 1000, 1000), 11);
    assert_eq!(compare_colors(&(225, 93, 103), &(220, 50, 50), 750, 1000, 1000), 13);
    assert_eq!(compare_colors(&(0, 163, 242), &(60, 180, 75), 1000, 1000, 1000), 53);
    assert_eq!(compare_colors(&(0, 163, 242), &(60, 180, 75), 750, 1000, 1000), 70);
    assert_eq!(compare_colors(&(255, 255, 255), &(0, 0, 0), 1000, 1000, 1000), 100);
    assert_eq!(compare_colors(&(255, 0, 0), &(0, 255, 0), 1000, 1000, 1000), 87);
    assert_eq!(compare_colors(&(255, 0, 0), &(0, 255, 0), 750, 1000, 1000), 113);
    assert_eq!(compare_colors(&(12, 200, 99), &(13, 198, 101), 1000, 1000, 1000), 1);
}

#[test]
fn mix_and_tweak_sample_values() {
    assert_eq!(mix_colors(&(225, 93, 103), &(0, 163, 242), 10, 100, 100), (242, 0, 81));
    let mut c = (225, 93, 103);
    tweak_color(&mut c, 0, -1, 1);
    assert_eq!(c, (224, 96, 106));
    let mut c = (200, 100, 50);
    tweak_color(&mut c, 5, -10, 10);
    assert_eq!(c, (200, 118, 74));
}

#[test]
fn colorful_sample_values() {
    assert!(is_colorful(&(220, 50, 50), 15));
    assert!(is_colorful(&(220, 50, 50), 50));
    assert!(!is_colorful(&(220, 50, 50), 62));
    assert!(!is_colorful(&(20, 20, 20), 15));
    assert!(!is_colorful(&(210, 44, 44), 63));
    assert!(!is_colorful(&(210, 44, 44), 64));
}

#[test]
fn plain_distance_of_sample_pairs() {
    assert_eq!(compare_colors_plain(&(0, 0, 0), &(255, 255, 255)), 100);
    assert_eq!(compare_colors_plain(&(225, 93, 103), &(220, 50, 50)), 25);
    assert_eq!(compare_colors_plain(&(0, 163, 242), &(60, 180, 75)), 104);
    assert_eq!(compare_colors_plain(&(255, 0, 0), &(0, 255, 0)), 171);
    assert_eq!(compare_colors_plain(&(12, 200, 99), &(13, 198, 101)), 2);
    assert_eq!(compare_colors_plain(&(0, 0, 255), &(255, 255, 0)), 235);
    assert_eq!(compare_colors_plain(&(7, 8, 9), &(7, 8, 9)), 0);
    assert_eq!(
        compare_colors_plain(&(0, 163, 242), &(60, 180, 75)),
        compare_colors_plain(&(60, 180, 75), &(0, 163, 242))
    );
}
