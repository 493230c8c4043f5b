use image_grouper::perceptual::{
    ahash, ahash_of_luma, dhash, dhash_of_luma, hamming_distance, popcount, similarity_score,
    Raster,
};

fn grey(width: u32, height: u32, value: impl Fn(u32, u32) -> u8) -> Raster {
    let mut bytes = Vec::new();
    for y in 0..height {
        for x in 0..width {
            let v = value(x, y);
            bytes.extend_from_slice(&[v, v, v, 255]);
        }
    }
    Raster::new(width, height, bytes).unwrap()
}

#[test]
fn popcount_counts_set_bits() {
    assert_eq!(popcount(0), 0);
    assert_eq!(popcount(1), 1);
    assert_eq!(popcount(0xFF), 8);
    assert_eq!(popcount(0x8000_0000_0000_0000), 1);
    assert_eq!(popcount(u64::MAX), 64);
    assert_eq!(popcount(0xAAAA_AAAA_AAAA_AAAA), 32);
    for x in [3u64, 0x1234_5678_9ABC_DEF0, 0xDEAD_BEEF, u64::MAX - 1] {
        assert_eq!(popcount(x), x.count_ones() as u64);
    }
}

#[test]
fn hamming_distance_of_the_four_items() {
    let (a, b, c, d) = (0x00u64, 0x01, 0x03, 0xFF);
    assert_eq!(hamming_distance(a, b), 1);
    assert_eq!(hamming_distance(a, c), 2);
    assert_eq!(hamming_distance(a, d), 8);
    assert_eq!(hamming_distance(b, c), 1);
    assert_eq!(hamming_distance(b, d), 7);
    assert_eq!(hamming_distance(c, d), 6);
}

#[test]
fn hamming_distance_is_a_metric_on_samples() {
    let samples = [0u64, 1, 0xFF, 0xF0F0, u64::MAX, 0x8000_0000_0000_0001, 0x1234_5678_9ABC_DEF0];
    for &a in &samples {
        assert_eq!(hamming_distance(a, a), 0);
        for &b in &samples {
            assert_eq!(hamming_distance(a, b), hamming_distance(b, a));
            assert_eq!(hamming_distance(a, b) == 0, a == b);
            assert!(hamming_distance(a, b) <= 64);
            for &c in &samples {
                assert!(hamming_distance(a, c) <= hamming_distance(a, b) + hamming_distance(b, c));
            }
        }
    }
}

#[test]
fn hamming_distance_of_opposite_codes_is_the_width() {
    assert_eq!(hamming_distance(0, u64::MAX), 64);
    assert_eq!(hamming_distance(0x5555_5555_5555_5555, 0xAAAA_AAAA_AAAA_AAAA), 64);
}

#[test]
fn similarity_score_is_the_share_of_equal_bits() {
    assert_eq!(similarity_score(0, 0), 100);
    assert_eq!(similarity_score(0, u64::MAX), 0);
    // 63 equal bits: 6300 / 64 = 98
    assert_eq!(similarity_score(0, 1), 98);
    // 32 equal bits
    assert_eq!(similarity_score(0, 0xFFFF_FFFF), 50);
    // 56 equal bits: 5600 / 64 = 87
    assert_eq!(similarity_score(0, 0xFF), 87);
    assert_eq!(similarity_score(0xFF, 0), 87);
}

#[test]
fn average_hash_marks_values_above_the_average() {
    // values 0, 3, 6, ..: their sum is 6048, the average 94, and value t is
    // above it from t = 32 on
    let luma: Vec<u8> = (0..64u32).map(|t| (t * 3) as u8).collect();
    assert_eq!(ahash_of_luma(&luma), 0xFFFF_FFFF_0000_0000);
}

#[test]
fn average_hash_of_equal_values_is_zero() {
    assert_eq!(ahash_of_luma(&vec![200u8; 64]), 0);
    assert_eq!(ahash_of_luma(&vec![0u8; 64]), 0);
}

#[test]
fn average_hash_of_one_bright_value() {
    let mut luma = vec![10u8; 64];
    luma[9] = 11;
    assert_eq!(ahash_of_luma(&luma), 1 << 9);
    luma[63] = 255;
    // the average is now 13: only value 63 is above it
    assert_eq!(ahash_of_luma(&luma), 1 << 63);
}

#[test]
fn gradient_hash_compares_with_the_right_neighbour() {
    let rising: Vec<u8> = (0..72u32).map(|i| (i % 9) as u8).collect();
    assert_eq!(dhash_of_luma(&rising), u64::MAX);
    let falling: Vec<u8> = (0..72u32).map(|i| 9 - (i % 9) as u8).collect();
    assert_eq!(dhash_of_luma(&falling), 0);
    assert_eq!(dhash_of_luma(&vec![7u8; 72]), 0);
}

#[test]
fn gradient_hash_of_one_step() {
    // a step up between the columns 2 and 3 of row 1 only
    let mut luma = vec![5u8; 72];
    luma[9 + 3] = 6;
    // bit col + 8 * row with col 2, row 1; the step down after it sets nothing
    assert_eq!(dhash_of_luma(&luma), 1 << 10);
    // the last column of a row is compared with nothing
    let mut luma = vec![5u8; 72];
    luma[8] = 9;
    assert_eq!(dhash_of_luma(&luma), 1 << 7);
}

#[test]
fn raster_needs_pixels_and_all_their_bytes() {
    assert!(Raster::new(0, 4, vec![]).is_none());
    assert!(Raster::new(4, 0, vec![]).is_none());
    assert!(Raster::new(2, 2, vec![0; 15]).is_none());
    assert!(Raster::new(2, 2, vec![0; 17]).is_none());
    assert!(Raster::new(2, 2, vec![0; 16]).is_some());
    assert!(Raster::new(1, 1, vec![1, 2, 3, 4]).is_some());
}

#[test]
fn average_hash_of_an_image_that_has_the_size_of_the_grid() {
    let image = grey(8, 8, |x, y| ((x + 8 * y) * 3) as u8);
    assert_eq!(ahash(&image), 0xFFFF_FFFF_0000_0000);
}

#[test]
fn gradient_hash_of_an_image_that_has_the_size_of_the_grid() {
    let image = grey(9, 8, |x, _| (x * 20) as u8);
    assert_eq!(dhash(&image), u64::MAX);
    let image = grey(9, 8, |x, _| 200 - (x * 20) as u8);
    assert_eq!(dhash(&image), 0);
}

#[test]
fn hashes_of_a_plain_image_are_zero() {
    let image = grey(40, 24, |_, _| 100);
    assert_eq!(ahash(&image), 0);
    assert_eq!(dhash(&image), 0);
}

#[test]
fn average_hash_of_a_dark_and_a_bright_half() {
    let image = grey(64, 64, |x, _| if x < 32 { 0 } else { 255 });
    assert_eq!(ahash(&image), 0xF0F0_F0F0_F0F0_F0F0);
}

#[test]
fn similar_images_have_close_hashes() {
    let a = grey(64, 64, |x, y| if (x / 16 + y / 16) % 2 == 0 { 30 } else { 220 });
    let b = grey(64, 64, |x, y| if (x / 16 + y / 16) % 2 == 0 { 40 } else { 210 });
    let c = grey(64, 64, |x, y| if (x / 16 + y / 16) % 2 == 0 { 220 } else { 30 });
    assert_eq!(hamming_distance(ahash(&a), ahash(&b)), 0);
    assert_eq!(hamming_distance(ahash(&a), ahash(&c)), 64);
    assert_eq!(similarity_score(ahash(&a), ahash(&b)), 100);
}

#[test]
fn ahash_sanity() {
    // a picture and a copy of it with a few pixels changed
    let i1 = grey(48, 48, |x, y| if (x / 12 + y / 24) % 2 == 0 { 50 } else { 180 });
    let i2 = grey(48, 48, |x, y| {
        if x == y {
            90
        } else if (x / 12 + y / 24) % 2 == 0 {
            50
        } else {
            180
        }
    });
    let a = ahash(&i1);
    let b = ahash(&i2);
    let score = similarity_score(a, b);
    println!("a = {:08x}", a);
    println!("b = {:08x}", b);
    println!("score = {}", score);
    assert!(score >= 90);
}

#[test]
fn the_same_pixels_give_the_same_hash() {
    let make = || grey(37, 53, |x, y| ((x * 7 + y * 13) % 251) as u8);
    assert_eq!(ahash(&make()), ahash(&make()));
    assert_eq!(dhash(&make()), dhash(&make()));
    let image = make();
    assert_eq!(ahash(&image), ahash(&image));
    assert_eq!(dhash(&image), dhash(&image));
}
