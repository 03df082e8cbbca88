use reewal::color::compare_colors;
use reewal::config::Config;
use reewal::conflict::check_and_replace;
use reewal::data::{build_palette, create_palette, get_accent, map_colors, PaletteError};
use reewal::fallback::gen_color;
use reewal::gray::assign_grayscale_colors;
use reewal::quantize::{CandidateQueue, ColorCount};

type Rgb = (u8, u8, u8);

fn candidates(raw: &[(usize, Rgb)]) -> Vec<ColorCount> {
    raw.iter().map(|&(count, rgb)| ColorCount { count, rgb }).collect()
}

fn few() -> Vec<ColorCount> {
    candidates(&[
        (50, (225, 95, 105)),
        (40, (224, 94, 104)),
        (30, (226, 92, 102)),
        (10, (30, 30, 30)),
    ])
}

fn run(raw: &[ColorCount], config: &Config) -> Vec<Option<Rgb>> {
    let mut queue = CandidateQueue::from_vec(&raw.to_vec());
    let accent = get_accent(&mut queue, config.vibrancy).unwrap();
    let mut index = map_colors(queue, config);
    create_palette(&mut index, accent, config)
}

#[test]
fn the_accent_is_the_heaviest_colorful_candidate() {
    let mut queue = CandidateQueue::from_vec(&candidates(&[
        (900, (40, 40, 40)),
        (500, (220, 50, 50)),
        (500, (60, 180, 75)),
        (100, (220, 50, 50)),
        (20, (60, 180, 75)),
    ]));
    // equal counts: the color that comes later in the order of colors wins
    assert_eq!(get_accent(&mut queue, 15), Ok((220, 50, 50)));
    // every candidate of that color has left, the others stay in their order
    assert_eq!(
        queue.to_vec(),
        candidates(&[(20, (60, 180, 75)), (500, (60, 180, 75)), (900, (40, 40, 40))])
    );
    assert_eq!(get_accent(&mut queue, 15), Ok((60, 180, 75)));
    assert_eq!(queue.to_vec(), candidates(&[(900, (40, 40, 40))]));
    assert_eq!(get_accent(&mut queue, 15), Err(PaletteError::NoAccentCandidate));
    assert_eq!(queue.len(), 1);
}

#[test]
fn queues_hold_what_qualifies() {
    let config = Config::new();
    let mut queue = CandidateQueue::from_vec(&few());
    let accent = get_accent(&mut queue, config.vibrancy).unwrap();
    assert_eq!(accent, (225, 95, 105));
    let index = map_colors(queue, &config);
    assert_eq!(index.len(), 16);
    let sizes: Vec<usize> = index.iter().map(|q| q.len()).collect();
    assert_eq!(sizes, vec![1, 1, 1, 0, 0, 0, 0, 0, 2, 0, 0, 0, 0, 0, 0, 0]);
    // the dark gray is within reach of the three darkest reference grays
    assert_eq!(index[0].get(0).rgb, (30, 30, 30));
    // the two reds qualify for the red slot only, the heavier one on top
    assert_eq!(
        index[8].to_vec(),
        candidates(&[(30, (226, 92, 102)), (40, (224, 94, 104))])
    );
    for entry in index[8].to_vec() {
        assert!(
            compare_colors(&config.template_colors[8], &entry.rgb, 750, 1000, 1000)
                <= config.likeness
        );
    }
}

#[test]
fn empty_queues_leave_gray_slots_empty_and_chromatic_slots_generated() {
    let config = Config::new();
    let palette = run(&few(), &config);
    assert_eq!(
        palette,
        vec![
            Some((30, 30, 30)),
            Some((30, 30, 30)),
            Some((30, 30, 30)),
            None,
            None,
            None,
            None,
            None,
            Some((222, 176, 177)),
            Some((225, 205, 95)),
            Some((188, 225, 95)),
            Some((170, 222, 172)),
            Some((95, 225, 224)),
            Some((225, 95, 105)),
            Some((191, 95, 225)),
            Some((208, 225, 95)),
        ]
    );
}

#[test]
fn without_mixing_or_tweaking_the_reference_colors_fill_in() {
    let mut config = Config::new();
    config.hue_mix = 0;
    config.saturation_mix = 0;
    config.light_mix = 0;
    config.hue_tweak = 0;
    config.saturation_tweak = 0;
    config.light_tweak = 0;
    let palette = run(&few(), &config);
    for slot in [8, 9, 10, 11, 12, 14, 15] {
        assert_eq!(palette[slot], Some(config.template_colors[slot]));
    }
    assert_eq!(palette[13], Some((225, 95, 105)));
}

#[test]
fn the_search_keeps_the_point_farthest_out() {
    let mut config = Config::new();
    config.hue_mix = 0;
    config.saturation_mix = 0;
    config.light_mix = 0;
    config.hue_tweak = 3;
    config.saturation_tweak = 0;
    config.light_tweak = -2;
    config.similarity = 40;
    let palette = run(&few(), &config);
    assert_eq!(
        &palette[8..],
        &[
            Some((56, 0, 0)),
            Some((135, 105, 0)),
            Some((84, 160, 0)),
            Some((20, 107, 107)),
            Some((31, 192, 166)),
            Some((225, 95, 105)),
            Some((180, 110, 224)),
            Some((69, 96, 13)),
        ]
    );
}

#[test]
fn a_generated_color_with_nothing_placed_is_the_mix() {
    let config = Config::new();
    let palette: Vec<Option<Rgb>> = vec![None; 16];
    let accent = (0, 163, 242);
    // nothing is placed, so no point is farther out than the first
    assert_eq!(gen_color(&palette, &accent, &config, 8), (242, 0, 81));
}

#[test]
fn a_start_beyond_the_threshold_is_the_result() {
    let config = Config::new();
    // with a dark green accent the mix for slot 8 is (40, 20, 28), 43 away
    // from the reference color of the slot: it is the result as it is, even
    // where a slot holds that very color
    let accent = (20, 40, 30);
    let mut palette: Vec<Option<Rgb>> = vec![None; 16];
    palette[9] = Some((40, 20, 28));
    palette[13] = Some(accent);
    assert!(compare_colors(&(40, 20, 28), &config.template_colors[8], 750, 1000, 1000) > 20);
    assert_eq!(gen_color(&palette, &accent, &config, 8), (40, 20, 28));
}

#[test]
fn a_start_within_the_threshold_is_tweaked() {
    let config = Config::new();
    // with a blue accent the mix for slot 8 is (242, 0, 81), 9 away from the
    // reference color: the search goes on and finds a point farther from
    // the color that slot 9 holds
    let accent = (0, 163, 242);
    let mut palette: Vec<Option<Rgb>> = vec![None; 16];
    palette[9] = Some((242, 0, 81));
    palette[13] = Some(accent);
    assert_eq!(compare_colors(&(242, 0, 81), &config.template_colors[8], 750, 1000, 1000), 9);
    assert_eq!(gen_color(&palette, &accent, &config, 8), (215, 151, 177));
    // a mix that stays at the reference color is tweaked away from it
    let mut stay = Config::new();
    stay.hue_mix = 0;
    stay.saturation_mix = 0;
    stay.light_mix = 0;
    stay.hue_tweak = 0;
    stay.saturation_tweak = -10;
    stay.light_tweak = 0;
    let mut palette: Vec<Option<Rgb>> = vec![None; 16];
    palette[9] = Some(stay.template_colors[8]);
    assert_eq!(gen_color(&palette, &(20, 40, 30), &stay, 8), (159, 141, 142));
}

#[test]
fn conflicts_are_settled() {
    let config = Config::new();
    let mut queue = CandidateQueue::from_vec(&candidates(&[
        (500, (220, 50, 50)),
        (450, (60, 180, 75)),
        (400, (230, 100, 110)),
        (350, (250, 130, 80)),
        (300, (240, 200, 50)),
        (250, (30, 200, 150)),
        (200, (10, 160, 240)),
        (150, (180, 110, 220)),
        (100, (190, 130, 45)),
        (90, (95, 175, 45)),
        (80, (228, 95, 100)),
    ]));
    let accent = get_accent(&mut queue, config.vibrancy).unwrap();
    let mut index = map_colors(queue, &config);
    let mut palette = assign_grayscale_colors(&index, &config);
    assert!(palette.iter().all(|slot| slot.is_none()));
    palette[13] = Some(accent);
    for slot in [8, 9, 10, 11, 12, 14, 15] {
        palette[slot] = index[slot].pop().map(|c| c.rgb);
    }
    // both green slots drew the same green
    assert_eq!(palette[11], palette[12]);
    check_and_replace(&mut index, &mut palette, &config);
    assert_eq!(palette[13], Some(accent));
    for i in 8..16 {
        for j in (i + 1)..16 {
            if let (Some(a), Some(b)) = (palette[i], palette[j]) {
                assert!(
                    compare_colors(&a, &b, 1000, 1000, 1000) >= config.similarity,
                    "slots {i} and {j}"
                );
            }
        }
    }
    assert_eq!(
        &palette[8..],
        &[
            None,
            Some((250, 130, 80)),
            Some((240, 200, 50)),
            Some((95, 175, 45)),
            None,
            Some((220, 50, 50)),
            Some((180, 110, 220)),
            None,
        ]
    );
}

#[test]
fn the_nearest_gray_wins_and_the_heavier_one_on_a_tie() {
    let mut config = Config::new();
    config.likeness = 30;
    let mut queue = CandidateQueue::from_vec(&candidates(&[
        (5, (40, 40, 40)),
        (9, (28, 28, 28)),
        (7, (40, 40, 40)),
        (3, (35, 35, 35)),
        (1, (240, 10, 10)),
    ]));
    get_accent(&mut queue, config.vibrancy).unwrap();
    let index = map_colors(queue, &config);
    let palette = assign_grayscale_colors(&index, &config);
    // slot 0 is (34, 34, 34): (35, 35, 35) is nearest
    assert_eq!(palette[0], Some((35, 35, 35)));
    // slot 1 is (48, 48, 48): (40, 40, 40) is nearest
    assert_eq!(palette[1], Some((40, 40, 40)));
    assert!(palette[8..].iter().all(|slot| slot.is_none()));
    // no queue has changed
    assert_eq!(index[0].len(), 4);
}

#[test]
fn the_same_candidates_give_the_same_palette() {
    let config = Config::new();
    let raw = candidates(&[
        (1000, (20, 20, 20)),
        (900, (230, 230, 230)),
        (500, (220, 50, 50)),
        (450, (60, 180, 75)),
        (400, (230, 100, 110)),
        (350, (250, 130, 80)),
        (300, (240, 200, 50)),
        (250, (30, 200, 150)),
        (200, (10, 160, 240)),
    ]);
    let first = build_palette(&raw, &config).unwrap();
    let second = build_palette(&raw.clone(), &config).unwrap();
    assert_eq!(first, second);
    let mut shuffled = raw.clone();
    shuffled.reverse();
    shuffled.swap(1, 5);
    assert_eq!(build_palette(&shuffled, &config).unwrap(), first);
    assert_eq!(first, run(&raw, &config));
    assert_eq!(first.len(), 16);
    assert_eq!(first[13], Some((220, 50, 50)));
    assert!(first[8..].iter().all(|slot| slot.is_some()));
}

#[test]
fn no_candidates_no_palette() {
    let config = Config::new();
    assert_eq!(build_palette(&Vec::new(), &config), Err(PaletteError::NoAccentCandidate));
    let grays = candidates(&[(10, (20, 20, 20)), (5, (200, 200, 200))]);
    assert_eq!(build_palette(&grays, &config), Err(PaletteError::NoAccentCandidate));
}
