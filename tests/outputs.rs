use imgconv::gamma::{correct_gamma22, find_shift_add, ShiftAdd, Term};
use imgconv::output::{palette_file, tilemap_file};
use imgconv::tilemap::{TilemapEntry, UniqueTile};
use imgconv::tiling::{Config, ImageConverter};
use imgconv::vdp::{TilemapMetadata, VdpState};

#[test]
fn gamma_correction_pieces() {
    assert_eq!(correct_gamma22(0), 0);
    assert_eq!(correct_gamma22(1), 24);
    assert_eq!(correct_gamma22(11), 64);
    assert_eq!(correct_gamma22(12), 59);
    assert_eq!(correct_gamma22(40), 115);
    assert_eq!(correct_gamma22(41), 111);
    assert_eq!(correct_gamma22(113), 183);
    assert_eq!(correct_gamma22(114), 182);
    assert_eq!(correct_gamma22(255), 252);
    assert_eq!(correct_gamma22(300), 19);
    assert_eq!(correct_gamma22(-1), 16);
}

#[test]
fn shift_add_terms() {
    assert_eq!(Term { lsh: 2, rsh: 0, add: true }.calc(5), 20);
    assert_eq!(Term { lsh: 0, rsh: 3, add: false }.calc(100), -12);
    let s = ShiftAdd {
        br: 0,
        terms: [
            Term { lsh: 1, rsh: 0, add: true },
            Term { lsh: 0, rsh: 1, add: true },
            Term { lsh: 0, rsh: 3, add: false },
        ],
        add: 7,
    };
    assert_eq!(s.calc(40), 102);
}

#[test]
fn shift_add_search_reproduces_an_exact_curve() {
    let mut lut = [0u8; 512];
    for i in 0..=16usize {
        lut[i] = ((i << 1) + (i >> 1) - (i >> 3)) as u8;
    }
    let best = find_shift_add(1, 16, &lut);
    assert_eq!(best.br, 16);
    assert_eq!(best.add, 0);
    for i in 1..=16i64 {
        assert_eq!(best.calc(i), lut[i as usize] as i64);
    }
}

#[test]
fn tilemap_file_wraps_lines() {
    let entries = vec![TilemapEntry::new(3, 42), TilemapEntry::new(1, 1), TilemapEntry::new(0, 5)];
    let text = tilemap_file(&entries, 2);
    assert_eq!(String::from_utf8(text).unwrap(), "0c2a 0401 \n0005 ");
}

#[test]
fn palette_file_pads_with_black() {
    let text = palette_file(&vec![vec![(255, 0, 16)], vec![]], 2);
    assert_eq!(String::from_utf8(text).unwrap(), "ff0010 000000 \n000000 000000 \n");
}

#[test]
fn tiles_file_lists_rows_of_each_slot() {
    let cfg = Config {
        tile_width: 4,
        tile_height: 2,
        tilemap_width: 1,
        tilemap_height: 1,
        num_palettes: 1,
        colors_per_palette: 16,
        max_unique_tiles: 2,
        dithering: false,
        dither_factor: 0,
        color_similarity_threshold: 0,
    };
    let conv = ImageConverter::new(cfg);
    let unique = vec![UniqueTile { quantized: vec![0x1234, 0xabcd], source_tile: 0 }];
    let text = conv.tiles_file(&unique);
    assert_eq!(String::from_utf8(text).unwrap(), "1234 0000 \nabcd 0000 \n");
}

#[test]
fn test_pattern_moves_with_frames() {
    let mut vdp = VdpState::new(4, 2);
    assert_eq!(vdp.frame_buffer, vec![0u8; 32]);
    vdp.update_frame_buffer_data();
    assert_eq!(vdp.frame_count, 1);
    assert_eq!(&vdp.frame_buffer[4..8], &[1, 0, 2, 255]);
    vdp.update_frame_buffer_data();
    assert_eq!(&vdp.frame_buffer[0..4], &[1, 0, 2, 255]);
    assert_eq!(&vdp.frame_buffer[28..32], &[2, 0, 6, 255]);
}

#[test]
fn tilemap_metadata_fields() {
    let m = TilemapMetadata(5 | (0x123 << 3) | (2 << 16) | (0x45 << 19));
    assert_eq!(m.width(), 5);
    assert_eq!(m.tilemap_address(), 0x123);
    assert_eq!(m.extra_stride(), 2);
    assert_eq!(m.texture_address(), 0x45);
    let mut n = m;
    n.set_tilemap_address(0x2001);
    assert_eq!(n.tilemap_address(), 1);
    assert_eq!(n.width(), 5);
    assert_eq!(n.extra_stride(), 2);
    n.set_width(6);
    n.set_extra_stride(9);
    n.set_texture_address(0x1fff);
    assert_eq!((n.width(), n.extra_stride(), n.texture_address(), n.tilemap_address()), (6, 1, 0x1fff, 1));
}
