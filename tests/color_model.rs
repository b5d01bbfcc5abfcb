use imgconv::color::{extract_colors, find_similar_color, isqrt, oklab_delta_e, ColorFrequency, Oklab, OklabDistance};
use imgconv::order::stable_order;
use imgconv::palette::{color_features, hue_key, hue_sorted, palette_feature_vector};
use imgconv::tilemap::tile_color_features;
use imgconv::quantize::{apply_sierra_dithering, nearest_color_index, pack_indices, unpack_index};

#[test]
fn integer_square_root() {
    assert_eq!(isqrt(0), 0);
    assert_eq!(isqrt(15), 3);
    assert_eq!(isqrt(16), 4);
    assert_eq!(isqrt(1 << 40), 1 << 20);
}

#[test]
fn color_difference_values() {
    let black = Oklab::black();
    assert_eq!(oklab_delta_e(black, Oklab::new(65536, 0, 0)), 65536);
    assert_eq!(Oklab::new(0, 3000, 4000).chroma(), 5000);
    // same chroma, opposite hue: the hue term carries the whole difference
    assert_eq!(oklab_delta_e(Oklab::new(0, 3000, 4000), Oklab::new(0, -3000, -4000)), 10000);
    assert_eq!(oklab_delta_e(Oklab::new(100, 30, 40), Oklab::new(100, 30, 40)), 0);
}

#[test]
fn componentwise_helpers() {
    let a = Oklab::new(1000, -200, 50);
    let b = Oklab::new(40, 100, -50);
    assert_eq!(a.add(&b), Oklab::new(1040, -100, 0));
    assert_eq!(Oklab::new(1_048_000, 0, 0).add(&Oklab::new(1000, 0, 0)).l, 1_048_576);
    // (1000 - 40) * 256 / (32 * 256) = 30
    assert_eq!(a.dither_error_term(&b, 256, 32), Oklab::new(30, -9, 3));
    let mut c = Oklab::new(10, 10, 10);
    c.weighted_add(&Oklab::new(2, -3, 0), 5);
    assert_eq!(c, Oklab::new(20, -5, 10));
}

#[test]
fn similar_colors_merge_into_first_candidate() {
    let palette = vec![
        ColorFrequency::new(Oklab::new(0, 0, 0), 1),
        ColorFrequency::new(Oklab::new(300, 0, 0), 1),
    ];
    assert_eq!(find_similar_color(Oklab::new(200, 0, 0), &palette, 250), Some(0));
    assert_eq!(find_similar_color(Oklab::new(200, 0, 0), &palette, 150), Some(1));
    assert_eq!(find_similar_color(Oklab::new(900, 0, 0), &palette, 150), None);
    let mut colors = Vec::new();
    let tile = vec![Oklab::new(0, 0, 0), Oklab::new(100, 0, 0), Oklab::new(400, 0, 0), Oklab::new(250, 0, 0)];
    extract_colors(&tile, 200, &mut colors);
    assert_eq!(
        colors,
        vec![ColorFrequency::new(Oklab::new(0, 0, 0), 2), ColorFrequency::new(Oklab::new(400, 0, 0), 2)]
    );
}

#[test]
fn nearest_color_prefers_lowest_index_on_ties() {
    let palette = vec![
        ColorFrequency::new(Oklab::new(0, 0, 0), 1),
        ColorFrequency::new(Oklab::new(200, 0, 0), 1),
        ColorFrequency::new(Oklab::new(200, 0, 0), 1),
    ];
    assert_eq!(nearest_color_index(Oklab::new(100, 0, 0), &palette), 0);
    assert_eq!(nearest_color_index(Oklab::new(150, 0, 0), &palette), 1);
}

#[test]
fn stable_order_keeps_equal_keys_in_place() {
    assert_eq!(stable_order(&vec![5, 1, 5, 0, 1]), vec![3, 1, 4, 0, 2]);
    assert_eq!(stable_order(&vec![]), Vec::<usize>::new());
}

#[test]
fn hue_keys_follow_the_angle() {
    let south_west = Oklab::new(0, -100, -100);
    let south = Oklab::new(0, 0, -100);
    let east = Oklab::new(0, 100, 0);
    let north = Oklab::new(0, 0, 100);
    let west = Oklab::new(0, -100, 0);
    let keys: Vec<i64> = [south_west, south, east, north, west].iter().map(hue_key).collect();
    assert!(keys.windows(2).all(|w| w[0] < w[1]));
    assert_eq!(hue_key(&east), 2 << 32);
    let sorted = hue_sorted(&vec![west, east, south, north]);
    assert_eq!(sorted, vec![south, east, north, west]);
}

#[test]
fn rotation_features_of_two_pixels() {
    let tile = vec![Oklab::new(1, 10, 0), Oklab::new(2, 0, -10)];
    // sorted by hue: (2, 0, -10) at -90 degrees, then (1, 10, 0) at 0
    let f = palette_feature_vector(&tile);
    assert_eq!(f, vec![2, 1, 1, 2, 0, 10, 10, 0, -10, 0, 0, -10]);
}

#[test]
fn planar_distance_sums_per_color() {
    let a = vec![0, 100, 0, 0, 0, 0];
    let b = vec![30, 100, 0, 0, 40, 0];
    assert_eq!(OklabDistance.distance(&a, &b), 50);
}

#[test]
fn packing_puts_first_pixel_lowest() {
    let words = pack_indices(&vec![1, 2, 3, 4, 5]);
    assert_eq!(words, vec![0x4321, 0x0005]);
    assert_eq!(unpack_index(&words, 4), 5);
    assert_eq!(unpack_index(&words, 2), 3);
}

#[test]
fn sierra_kernel_weights() {
    let mut error = vec![Oklab::black(); 25];
    apply_sierra_dithering(&mut error, &Oklab::new(1, 0, 0), 2, 0, 5, 5);
    let row = |y: usize| -> Vec<i32> { (0..5).map(|x| error[y * 5 + x].l).collect() };
    assert_eq!(row(0), vec![0, 0, 0, 5, 3]);
    assert_eq!(row(1), vec![2, 4, 5, 4, 2]);
    assert_eq!(row(2), vec![0, 2, 3, 2, 0]);
    assert_eq!(row(3), vec![0, 0, 0, 0, 0]);
    let mut edge = vec![Oklab::black(); 4];
    apply_sierra_dithering(&mut edge, &Oklab::new(1, 0, 0), 1, 0, 2, 2);
    assert_eq!(edge.iter().map(|c| c.l).collect::<Vec<i32>>(), vec![0, 0, 4, 5]);
}

#[test]
fn feature_layouts() {
    let colors = vec![ColorFrequency::new(Oklab::new(1, 2, 3), 1), ColorFrequency::new(Oklab::new(4, 5, 6), 9)];
    assert_eq!(color_features(&colors), vec![1, 2, 3, 4, 5, 6]);
    // pixels use indices 1, 0, 7 (outside the palette, so black)
    assert_eq!(tile_color_features(&vec![0x0701], &colors, 3), vec![4, 1, 0, 5, 2, 0, 6, 3, 0]);
}
