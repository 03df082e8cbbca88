use reewal::histogram::{get_pixel_hash, quantize};
use reewal::quantize::{ranks_le, CandidateQueue, ColorCount};

#[test]
fn pixel_hash_reads_the_leading_bits() {
    // one octal digit per bit place: red is worth 4, green 2, blue 1
    assert_eq!(get_pixel_hash(&(0, 0, 0), 2), 0);
    assert_eq!(get_pixel_hash(&(255, 255, 255), 1), 7);
    assert_eq!(get_pixel_hash(&(255, 255, 255), 2), 0o77);
    assert_eq!(get_pixel_hash(&(255, 0, 0), 2), 0o44);
    assert_eq!(get_pixel_hash(&(0, 255, 0), 2), 0o22);
    assert_eq!(get_pixel_hash(&(0, 0, 255), 2), 0o11);
    assert_eq!(get_pixel_hash(&(128, 64, 0), 2), 0o42);
    assert_eq!(get_pixel_hash(&(0b1010_1010, 0b0101_0101, 0b1111_0000), 8), 0o53534242);
    assert_eq!(get_pixel_hash(&(200, 100, 50), 0), 0);
    assert_eq!(get_pixel_hash(&(255, 255, 255), 8), 0o77777777);
}

#[test]
fn pixel_hash_agrees_with_bit_operations() {
    for &(r, g, b) in &[(1u8, 2u8, 3u8), (200, 100, 50), (17, 250, 129), (255, 0, 128)] {
        for depth in 0u8..=8 {
            let mut expected: u32 = 0;
            for i in 0..depth {
                let digit = (((r >> (7 - i)) & 1) << 2) | (((g >> (7 - i)) & 1) << 1) | ((b >> (7 - i)) & 1);
                expected = expected * 8 + digit as u32;
            }
            assert_eq!(get_pixel_hash(&(r, g, b), depth), expected);
        }
    }
}

#[test]
fn quantize_buckets_and_averages() {
    let pixels = vec![
        (10, 10, 10),
        (250, 0, 0),
        (20, 30, 40),
        (200, 10, 20),
        (0, 0, 63),
        (255, 60, 63),
        (70, 70, 70),
    ];
    let mut queue = quantize(&pixels, 2);
    // bucket 000: (10,10,10) (20,30,40) (0,0,63); bucket 300: the three reds;
    // bucket 111: (70,70,70)
    assert_eq!(queue.len(), 3);
    assert_eq!(queue.pop(), Some(ColorCount { count: 3, rgb: (235, 23, 27) }));
    assert_eq!(queue.pop(), Some(ColorCount { count: 3, rgb: (10, 13, 37) }));
    assert_eq!(queue.pop(), Some(ColorCount { count: 1, rgb: (70, 70, 70) }));
    assert_eq!(queue.pop(), None);
}

#[test]
fn quantize_of_nothing_is_empty() {
    assert!(quantize(&Vec::new(), 2).is_empty());
    let one = quantize(&vec![(1, 2, 3); 5], 8);
    assert_eq!(one.to_vec(), vec![ColorCount { count: 5, rgb: (1, 2, 3) }]);
    let all = quantize(&vec![(1, 2, 3), (250, 250, 250)], 0);
    assert_eq!(all.to_vec(), vec![ColorCount { count: 2, rgb: (125, 126, 126) }]);
}

#[test]
fn queue_hands_out_by_count_then_color() {
    let items = vec![
        ColorCount { count: 5, rgb: (1, 2, 3) },
        ColorCount { count: 9, rgb: (0, 0, 0) },
        ColorCount { count: 5, rgb: (1, 2, 4) },
        ColorCount { count: 5, rgb: (0, 200, 200) },
        ColorCount { count: 1, rgb: (255, 255, 255) },
        ColorCount { count: 5, rgb: (1, 2, 3) },
    ];
    let mut queue = CandidateQueue::from_vec(&items);
    assert_eq!(queue.len(), 6);
    assert_eq!(queue.get(0), ColorCount { count: 1, rgb: (255, 255, 255) });
    let mut out = Vec::new();
    while let Some(top) = queue.pop() {
        out.push(top);
    }
    assert_eq!(
        out,
        vec![
            ColorCount { count: 9, rgb: (0, 0, 0) },
            ColorCount { count: 5, rgb: (1, 2, 4) },
            ColorCount { count: 5, rgb: (1, 2, 3) },
            ColorCount { count: 5, rgb: (1, 2, 3) },
            ColorCount { count: 5, rgb: (0, 200, 200) },
            ColorCount { count: 1, rgb: (255, 255, 255) },
        ]
    );
    assert!(queue.is_empty());
}

#[test]
fn queue_order_is_the_derived_order() {
    let items = [
        ColorCount { count: 5, rgb: (1, 2, 3) },
        ColorCount { count: 5, rgb: (1, 2, 4) },
        ColorCount { count: 5, rgb: (0, 255, 255) },
        ColorCount { count: 4, rgb: (255, 255, 255) },
        ColorCount { count: 6, rgb: (0, 0, 0) },
        ColorCount { count: 5, rgb: (1, 3, 0) },
    ];
    for a in &items {
        for b in &items {
            assert_eq!(ranks_le(a, b), a <= b);
        }
    }
}

#[test]
fn the_order_of_arrival_does_not_show() {
    let a = vec![
        ColorCount { count: 5, rgb: (1, 2, 3) },
        ColorCount { count: 9, rgb: (0, 0, 0) },
        ColorCount { count: 5, rgb: (1, 2, 4) },
        ColorCount { count: 5, rgb: (1, 2, 3) },
    ];
    let mut b = a.clone();
    b.reverse();
    b.swap(0, 2);
    assert_eq!(CandidateQueue::from_vec(&a).to_vec(), CandidateQueue::from_vec(&b).to_vec());
    let mut pushed = CandidateQueue::new();
    for item in &b {
        pushed.push(*item);
    }
    assert_eq!(pushed.to_vec(), CandidateQueue::from_vec(&a).to_vec());
}
