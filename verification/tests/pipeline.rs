use reewal::config::Config;
use reewal::data::{create_palette, get_accent, map_colors, PaletteError};
use reewal::quantize::{CandidateQueue, ColorCount};

fn sample_candidates() -> Vec<ColorCount> {
    let raw: [(usize, (u8, u8, u8)); 16] = [
        (1000, (20, 20, 20)),
        (900, (230, 230, 230)),
        (800, (90, 90, 90)),
        (700, (140, 140, 140)),
        (500, (220, 50, 50)),
        (450, (60, 180, 75)),
        (400, (230, 100, 110)),
        (350, (250, 130, 80)),
        (300, (240, 200, 50)),
        (250, (30, 200, 150)),
        (200, (10, 160, 240)),
        (150, (180, 110, 220)),
        (100, (190, 130, 45)),
        (90, (95, 175, 45)),
        (80, (228, 95, 100)),
        (70, (200, 200, 200)),
    ];
    raw.iter().map(|&(count, rgb)| ColorCount { count, rgb }).collect()
}

#[test]
fn palette_of_sample_candidates() {
    let config = Config::new();
    let mut queue = CandidateQueue::from_vec(&sample_candidates());
    let accent = get_accent(&mut queue, config.vibrancy).unwrap();
    assert_eq!(accent, (220, 50, 50));
    assert_eq!(queue.len(), 15);
    let mut index = map_colors(queue, &config);
    let sizes: Vec<usize> = index.iter().map(|q| q.len()).collect();
    assert_eq!(sizes, vec![2, 2, 1, 3, 3, 2, 2, 3, 2, 1, 1, 2, 2, 1, 1, 1]);
    let palette = create_palette(&mut index, accent, &config);
    assert_eq!(
        palette,
        vec![
            Some((20, 20, 20)),
            Some((20, 20, 20)),
            Some((90, 90, 90)),
            Some((140, 140, 140)),
            Some((200, 200, 200)),
            Some((230, 230, 230)),
            Some((230, 230, 230)),
            Some((200, 200, 200)),
            Some((220, 50, 163)),
            Some((250, 130, 80)),
            Some((240, 200, 50)),
            Some((95, 175, 45)),
            Some((198, 226, 214)),
            Some((220, 50, 50)),
            Some((180, 110, 220)),
            Some((209, 151, 80)),
        ]
    );
}

#[test]
fn no_colorful_candidate_is_an_error() {
    let grays = vec![
        ColorCount { count: 10, rgb: (20, 20, 20) },
        ColorCount { count: 5, rgb: (200, 200, 200) },
    ];
    let mut queue = CandidateQueue::from_vec(&grays);
    assert_eq!(get_accent(&mut queue, 15), Err(PaletteError::NoAccentCandidate));
    assert_eq!(queue.len(), 2);
    let mut empty = CandidateQueue::new();
    assert_eq!(get_accent(&mut empty, 15), Err(PaletteError::NoAccentCandidate));
}
