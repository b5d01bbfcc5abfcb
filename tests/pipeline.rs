use imgconv::color::{ColorFrequency, Oklab};
use imgconv::metrics::{delta_statistics, pixel_deltas, quality_report};
use imgconv::palette::Palette;
use imgconv::quantize::unpack_index;
use imgconv::tilemap::{TileAssignment, TilemapEntry};
use imgconv::tiling::{Config, ConvertError, ImageConverter};

fn config(tw: u32, th: u32, mw: u32, mh: u32, palettes: usize, colors: usize, unique: usize) -> Config {
    Config {
        tile_width: tw,
        tile_height: th,
        tilemap_width: mw,
        tilemap_height: mh,
        num_palettes: palettes,
        colors_per_palette: colors,
        max_unique_tiles: unique,
        dithering: true,
        dither_factor: 192,
        color_similarity_threshold: 328,
    }
}

fn gray(l: i32) -> Oklab {
    Oklab::new(l, 0, 0)
}

#[test]
fn solid_black_tile_round_trip() {
    let cfg = config(8, 8, 1, 1, 1, 16, 1);
    assert!(cfg.is_valid());
    let conv = ImageConverter::new(cfg);
    let pixels = vec![Oklab::black(); 64];
    let tiles = conv.extract_tiles(&pixels, 8, 8).unwrap();
    assert_eq!(tiles.len(), 1);
    let candidates = conv.collect_palette_colors(&tiles, &vec![0]).unwrap();
    assert_eq!(candidates[0], vec![ColorFrequency::new(Oklab::black(), 64)]);
    let palettes = conv.generate_palettes(&candidates, &vec![vec![]]).unwrap();
    assert_eq!(palettes[0].colors, vec![ColorFrequency::new(Oklab::black(), 64)]);
    let choice = conv.assign_palettes(&tiles, &palettes);
    assert_eq!(choice, vec![0]);
    let quantized = conv.quantize_tiles(&tiles, &palettes, &choice);
    assert_eq!(quantized, vec![vec![0u16; 16]]);
    let (unique, mapping) = conv.deduplicate_tiles(&quantized, &vec![]).unwrap();
    assert_eq!(mapping, vec![0]);
    let assignments = conv.optimize_assignments(&tiles, &unique, &palettes);
    assert_eq!(assignments, vec![TileAssignment { unique_tile_index: 0, palette_index: 0 }]);
    let rendered = conv.render(&unique, &palettes, &assignments);
    let deltas = pixel_deltas(&pixels, &rendered);
    assert!(deltas.iter().all(|&d| d == 0));
    let stats = delta_statistics(&deltas);
    assert_eq!(stats.max, 0);
    let rgb = vec![0u8; 64 * 3];
    let report = quality_report(&rgb, &rgb);
    assert!(report.is_lossless());
    assert_eq!(report.pixel_count, 64);
}

#[test]
fn tilemap_entry_word_for_palette_three_tile_forty_two() {
    let e = TilemapEntry::new(3, 42);
    assert_eq!(e.raw_value, 0x0C2A);
    assert_eq!(e.palette_index, 3);
    assert_eq!(e.tile_index, 42);
    assert_eq!(TilemapEntry::from_raw(0x0C2A), e);
}

fn twenty_colors() -> Vec<Oklab> {
    (0..20).map(|i| gray(i * 3000)).collect()
}

#[test]
fn twenty_colors_reduce_to_sixteen_keeping_frequency() {
    let cfg = config(8, 16, 2, 1, 1, 16, 2);
    let conv = ImageConverter::new(cfg);
    let colors = twenty_colors();
    let mut pixels = Vec::new();
    for y in 0..16 {
        for x in 0..16 {
            pixels.push(colors[(y * 16 + x) % 20]);
        }
    }
    let tiles = conv.extract_tiles(&pixels, 16, 16).unwrap();
    let candidates = conv.collect_palette_colors(&tiles, &vec![0, 0]).unwrap();
    assert_eq!(candidates[0].len(), 20);
    let total: usize = candidates[0].iter().map(|c| c.frequency).sum();
    assert_eq!(total, 256);
    let clusters: Vec<usize> = (0..20).map(|i| if i < 16 { i } else { i - 16 }).collect();
    let reduced = conv.resolve_palette_colors(&candidates[0], &clusters).unwrap();
    assert_eq!(reduced.len(), 16);
    let reduced_total: usize = reduced.iter().map(|c| c.frequency).sum();
    assert_eq!(reduced_total, 256);
    let palettes = conv.generate_palettes(&candidates, &vec![clusters]).unwrap();
    assert_eq!(palettes[0].colors.len(), 16);
    let palette_total: usize = palettes[0].colors.iter().map(|c| c.frequency).sum();
    assert_eq!(palette_total, 256);
}

#[test]
fn reduction_takes_weighted_means() {
    let conv = ImageConverter::new(config(8, 8, 1, 1, 1, 2, 1));
    let colors = vec![
        ColorFrequency::new(gray(100), 1),
        ColorFrequency::new(gray(400), 3),
        ColorFrequency::new(Oklab::new(0, -90, 30), 2),
    ];
    let reduced = conv.reduce_colors(&colors, &vec![1, 1, 0]).unwrap();
    assert_eq!(reduced[1], ColorFrequency::new(gray(325), 4));
    assert_eq!(reduced[0], ColorFrequency::new(Oklab::new(0, -90, 30), 2));
    let empty = conv.reduce_colors(&colors, &vec![1, 1, 1]).unwrap();
    assert_eq!(empty[0], ColorFrequency::default());
}

#[test]
fn palettes_never_exceed_their_size() {
    let conv = ImageConverter::new(config(8, 8, 1, 1, 2, 4, 1));
    let list: Vec<ColorFrequency> = (0..9).map(|i| ColorFrequency::new(gray(i * 5000), 1)).collect();
    let clusters: Vec<usize> = (0..9).map(|i| i % 4).collect();
    let palettes = conv.generate_palettes(&vec![list.clone(), list[..3].to_vec()], &vec![clusters, vec![]]).unwrap();
    assert_eq!(palettes.len(), 2);
    assert!(palettes.iter().all(|p| p.colors.len() <= 4));
}

#[test]
fn small_candidate_lists_survive_unchanged() {
    let conv = ImageConverter::new(config(8, 8, 1, 1, 1, 4, 1));
    let list = vec![ColorFrequency::new(gray(500), 2), ColorFrequency::new(gray(100), 7)];
    let out = conv.resolve_palette_colors(&list, &vec![99]).unwrap();
    assert_eq!(out, list);
}

#[test]
fn palettes_are_sorted_and_anchored_black() {
    let conv = ImageConverter::new(config(8, 8, 1, 1, 2, 4, 1));
    let bright = vec![ColorFrequency::new(gray(60000), 1), ColorFrequency::new(gray(50000), 2)];
    let dark = vec![ColorFrequency::new(gray(9000), 5), ColorFrequency::new(gray(3000), 4)];
    let palettes = conv.finish_palettes(&vec![bright, dark]);
    assert_eq!(
        palettes[0].colors,
        vec![ColorFrequency::new(Oklab::black(), 4), ColorFrequency::new(gray(9000), 5)]
    );
    assert_eq!(
        palettes[1].colors,
        vec![ColorFrequency::new(gray(50000), 2), ColorFrequency::new(gray(60000), 1)]
    );
}

fn gradient_image(w: usize, h: usize) -> Vec<Oklab> {
    let mut pixels = Vec::new();
    for y in 0..h {
        for x in 0..w {
            pixels.push(gray(((x * 7 + y * 3) * 1000) as i32));
        }
    }
    pixels
}

fn two_palettes() -> Vec<Palette> {
    vec![
        Palette { colors: vec![ColorFrequency::new(Oklab::black(), 1), ColorFrequency::new(gray(20000), 1)] },
        Palette { colors: vec![ColorFrequency::new(gray(40000), 1), ColorFrequency::new(gray(60000), 1)] },
    ]
}

#[test]
fn quantized_indices_stay_within_palette() {
    let cfg = config(4, 4, 2, 2, 2, 2, 4);
    let conv = ImageConverter::new(cfg);
    let pixels = gradient_image(8, 8);
    let tiles = conv.extract_tiles(&pixels, 8, 8).unwrap();
    let palettes = two_palettes();
    let choice = conv.assign_palettes(&tiles, &palettes);
    let quantized = conv.quantize_tiles(&tiles, &palettes, &choice);
    for words in &quantized {
        assert_eq!(words.len(), 4);
        for p in 0..16 {
            assert!((unpack_index(words, p) as usize) < 2);
        }
    }
}

#[test]
fn zero_dither_factor_matches_plain_quantization() {
    let mut cfg = config(4, 4, 2, 2, 2, 2, 4);
    cfg.dither_factor = 0;
    let pixels = gradient_image(8, 8);
    let dithered = ImageConverter::new(cfg);
    cfg.dithering = false;
    let plain = ImageConverter::new(cfg);
    let tiles = plain.extract_tiles(&pixels, 8, 8).unwrap();
    let palettes = two_palettes();
    let choice = plain.assign_palettes(&tiles, &palettes);
    assert_eq!(
        dithered.quantize_tiles(&tiles, &palettes, &choice),
        plain.quantize_tiles(&tiles, &palettes, &choice)
    );
}

#[test]
fn dithering_changes_the_result() {
    let cfg = config(4, 1, 1, 1, 1, 2, 1);
    let conv = ImageConverter::new(cfg);
    let pixels = vec![gray(10500); 4];
    let tiles = conv.extract_tiles(&pixels, 4, 1).unwrap();
    let palettes = vec![Palette { colors: vec![ColorFrequency::new(Oklab::black(), 1), ColorFrequency::new(gray(20000), 1)] }];
    let q = conv.quantize_tiles(&tiles, &palettes, &vec![0]);
    // the first pixel goes to 20000 and pushes -1110 onto the second, which
    // then lies nearer to black
    assert_eq!(q, vec![vec![0x1101]]);
    let mut plain_cfg = cfg;
    plain_cfg.dithering = false;
    let plain = ImageConverter::new(plain_cfg).quantize_tiles(&tiles, &palettes, &vec![0]);
    assert_eq!(plain, vec![vec![0x1111]]);
}

#[test]
fn palette_assignment_picks_least_error() {
    let conv = ImageConverter::new(config(4, 4, 2, 2, 2, 2, 4));
    let pixels = gradient_image(8, 8);
    let tiles = conv.extract_tiles(&pixels, 8, 8).unwrap();
    let choice = conv.assign_palettes(&tiles, &two_palettes());
    assert_eq!(choice, vec![0, 1, 0, 1]);
}

#[test]
fn deduplication_is_identity_when_tiles_fit() {
    let conv = ImageConverter::new(config(4, 4, 2, 1, 1, 2, 4));
    let quantized = vec![vec![1u16, 2, 3, 4], vec![1u16, 2, 3, 4]];
    let (unique, mapping) = conv.deduplicate_tiles(&quantized, &vec![7, 7]).unwrap();
    assert_eq!(unique.len(), 2);
    assert_eq!(unique[0].source_tile, 0);
    assert_eq!(unique[1].source_tile, 1);
    assert_eq!(unique[1].quantized, vec![1u16, 2, 3, 4]);
    assert_eq!(mapping, vec![0, 1]);
}

#[test]
fn deduplication_keeps_first_tile_of_each_cluster() {
    let conv = ImageConverter::new(config(4, 4, 4, 1, 1, 2, 3));
    let quantized = vec![vec![0u16], vec![1u16], vec![2u16], vec![3u16]];
    let (unique, mapping) = conv.deduplicate_tiles(&quantized, &vec![2, 0, 2, 0]).unwrap();
    assert_eq!(unique.len(), 2);
    assert_eq!(unique[0].source_tile, 1);
    assert_eq!(unique[1].source_tile, 0);
    assert_eq!(mapping, vec![1, 0, 1, 0]);
}

#[test]
fn optimizer_prefers_first_cheapest_pair() {
    let conv = ImageConverter::new(config(4, 1, 1, 1, 2, 2, 2));
    let pixels = vec![gray(40000), gray(40000), gray(60000), gray(60000)];
    let tiles = conv.extract_tiles(&pixels, 4, 1).unwrap();
    let (unique, _) = conv.deduplicate_tiles(&vec![vec![0x0000u16], vec![0x1100u16]], &vec![]).unwrap();
    let assignments = conv.optimize_assignments(&tiles, &unique, &two_palettes());
    assert_eq!(assignments, vec![TileAssignment { unique_tile_index: 1, palette_index: 1 }]);
    let entries = conv.generate_tilemap(&assignments);
    assert_eq!(entries[0].raw_value, (1 << 10) | 1);
    let rendered = conv.render(&unique, &two_palettes(), &assignments);
    assert_eq!(rendered, pixels);
}

#[test]
fn dimension_errors() {
    let conv = ImageConverter::new(config(8, 8, 2, 2, 1, 16, 4));
    assert_eq!(
        conv.check_dimensions(12, 16),
        Err(ConvertError::InvalidDimensions { width: 12, height: 16 })
    );
    assert_eq!(
        conv.check_dimensions(24, 16),
        Err(ConvertError::DimensionMismatch { width: 24, height: 16, expected_width: 16, expected_height: 16 })
    );
    assert_eq!(conv.check_dimensions(16, 16), Ok(()));
    let pixels = vec![Oklab::black(); 12 * 16];
    assert!(conv.extract_tiles(&pixels, 12, 16).is_err());
}

#[test]
fn clustering_errors() {
    let conv = ImageConverter::new(config(2, 2, 2, 1, 2, 16, 4));
    let pixels = vec![Oklab::black(); 8];
    let tiles = conv.extract_tiles(&pixels, 4, 2).unwrap();
    assert_eq!(
        conv.collect_palette_colors(&tiles, &vec![0]).unwrap_err(),
        ConvertError::AssignmentCountMismatch { expected: 2, found: 1 }
    );
    assert_eq!(
        conv.collect_palette_colors(&tiles, &vec![1, 2]).unwrap_err(),
        ConvertError::ClusterOutOfRange { item: 1, cluster: 2 }
    );
}

#[test]
fn tiles_follow_raster_layout() {
    let conv = ImageConverter::new(config(2, 2, 2, 2, 1, 16, 4));
    let pixels: Vec<Oklab> = (0..16).map(|i| gray(i)).collect();
    let tiles = conv.extract_tiles(&pixels, 4, 4).unwrap();
    assert_eq!(tiles[0], vec![gray(0), gray(1), gray(4), gray(5)]);
    assert_eq!(tiles[1], vec![gray(2), gray(3), gray(6), gray(7)]);
    assert_eq!(tiles[3], vec![gray(10), gray(11), gray(14), gray(15)]);
}

#[test]
fn identical_images_are_lossless() {
    let a: Vec<u8> = (0..30).map(|i| (i * 7) as u8).collect();
    assert!(quality_report(&a, &a).is_lossless());
    let mut b = a.clone();
    b[4] = b[4].wrapping_add(3);
    let r = quality_report(&a, &b);
    assert!(!r.is_lossless());
    assert_eq!(r.green_squared_error, 9);
    assert_eq!(r.red_squared_error, 0);
}

#[test]
fn delta_statistics_read_sorted_values() {
    let values: Vec<u32> = (1..=100).rev().collect();
    let s = delta_statistics(&values);
    assert_eq!(s.min, 1);
    assert_eq!(s.max, 100);
    assert_eq!(s.median, 51);
    assert_eq!(s.p75, 76);
    assert_eq!(s.p90, 91);
    assert_eq!(s.p99, 100);
    assert_eq!(s.mean, 50);
}

#[test]
fn default_config_is_valid() {
    let cfg = Config::default();
    assert!(cfg.is_valid());
    assert_eq!(cfg.tile_width, 8);
    assert_eq!(cfg.num_palettes, 32);
    let mut bad = cfg;
    bad.colors_per_palette = 17;
    assert!(!bad.is_valid());
}

#[test]
fn reduction_and_deduplication_errors() {
    let conv = ImageConverter::new(config(4, 4, 4, 1, 1, 2, 3));
    let colors = vec![ColorFrequency::new(gray(1), 1), ColorFrequency::new(gray(2), 1), ColorFrequency::new(gray(3), 1)];
    assert_eq!(
        conv.reduce_colors(&colors, &vec![0, 1]).unwrap_err(),
        ConvertError::AssignmentCountMismatch { expected: 3, found: 2 }
    );
    assert_eq!(
        conv.resolve_palette_colors(&colors, &vec![0, 5, 1]).unwrap_err(),
        ConvertError::ClusterOutOfRange { item: 1, cluster: 5 }
    );
    let quantized = vec![vec![0u16], vec![1u16], vec![2u16], vec![3u16]];
    assert_eq!(
        conv.deduplicate_tiles(&quantized, &vec![0, 1, 3, 0]).unwrap_err(),
        ConvertError::ClusterOutOfRange { item: 2, cluster: 3 }
    );
}
