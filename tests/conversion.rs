use xbin_art::{
    break_into_chunks, chunks_to_bytes, find_closest, palette_to_bytes, xbin_bytes, BlockError,
    Chunk, Color, DistanceTable, MatchError, Palettes,
};

fn color(r: u8, g: u8, b: u8) -> Color {
    Color { r, g, b, a: 255 }
}

/// Distance between palette indices `i` and `j` taken as `|i - j|`.
fn linear_table() -> DistanceTable {
    let mut keys = Vec::new();
    for i in 0..16i32 {
        for j in 0..16i32 {
            keys.push((i - j).unsigned_abs());
        }
    }
    DistanceTable { keys }
}

#[test]
fn palettes_are_padded_to_sixteen() {
    let p = Palettes::new(&[]);
    assert_eq!(p.vga.len(), 16);
    assert_eq!(p.rgba.len(), 16);
    for c in p.vga.iter().chain(p.rgba.iter()) {
        assert_eq!(*c, color(0, 0, 0));
    }
}

#[test]
fn palette_channels_scale_to_six_bits() {
    let p = Palettes::new(&[color(255, 128, 0), color(2, 3, 253)]);
    assert_eq!(p.vga[0], color(63, 32, 0));
    assert_eq!(p.rgba[0], color(252, 128, 0));
    // 2 * 63 / 255 = 0.49, 3 * 63 / 255 = 0.74, 253 * 63 / 255 = 62.5058
    assert_eq!(p.vga[1], color(0, 1, 63));
    assert_eq!(p.rgba[1], color(0, 4, 252));
    assert_eq!(p.vga[2], color(0, 0, 0));
}

#[test]
fn hardware_palette_in_range_and_render_is_four_times() {
    let src: Vec<Color> = (0..16u32)
        .map(|i| color((i * 17) as u8, (255 - i * 16) as u8, (i * 7) as u8))
        .collect();
    let p = Palettes::new(&src);
    assert_eq!(p.vga.len(), 16);
    for i in 0..16 {
        let v = p.vga[i];
        assert!(v.r <= 63 && v.g <= 63 && v.b <= 63);
        assert_eq!(p.rgba[i], color(v.r * 4, v.g * 4, v.b * 4));
    }
}

#[test]
fn closest_of_empty_list_fails() {
    assert_eq!(find_closest(&[]), Err(MatchError::EmptyPalette));
}

#[test]
fn closest_prefers_first_of_equals() {
    assert_eq!(find_closest(&[5, 3, 3, 9]), Ok(1));
    assert_eq!(find_closest(&[7]), Ok(0));
    assert_eq!(find_closest(&[4, 4]), Ok(0));
}

#[test]
fn closest_is_deterministic() {
    let d = [9, 2, 8, 2, 2];
    assert_eq!(find_closest(&d), find_closest(&d));
    assert_eq!(find_closest(&d), Ok(1));
}

#[test]
fn single_color_block_falls_back_to_index_zero() {
    let (chunks, reduced) = break_into_chunks(&linear_table(), vec![3; 8]).unwrap();
    assert_eq!(chunks, vec![Chunk { fg: 0, bg: 3, codepoint: 0x00 }]);
    assert_eq!(reduced, vec![3; 8]);
}

#[test]
fn all_zero_block_has_equal_pair() {
    let (chunks, _) = break_into_chunks(&linear_table(), vec![0; 8]).unwrap();
    assert_eq!(chunks, vec![Chunk { fg: 0, bg: 0, codepoint: 0x00 }]);
}

#[test]
fn half_and_half_block() {
    let (chunks, reduced) =
        break_into_chunks(&linear_table(), vec![0, 0, 0, 0, 1, 1, 1, 1]).unwrap();
    assert_eq!(chunks, vec![Chunk { fg: 1, bg: 0, codepoint: 0x0F }]);
    assert_eq!(reduced, vec![0, 0, 0, 0, 1, 1, 1, 1]);
}

#[test]
fn distinct_indices_reduce_to_two() {
    let (chunks, reduced) =
        break_into_chunks(&linear_table(), vec![0, 1, 2, 3, 4, 5, 6, 7]).unwrap();
    assert_eq!(chunks[0].bg, 0);
    assert_eq!(chunks[0].fg, 1);
    assert_eq!(reduced, vec![0, 1, 1, 1, 1, 1, 1, 1]);
    assert_eq!(chunks[0].codepoint, 0x7F);
    assert!(reduced.iter().all(|&p| p == chunks[0].bg || p == chunks[0].fg));
}

#[test]
fn remapping_uses_the_table() {
    // 9 is nearer to 5 than to 2, and 3 is nearer to 2 than to 5.
    let (chunks, reduced) =
        break_into_chunks(&linear_table(), vec![2, 5, 2, 5, 2, 9, 3, 5]).unwrap();
    // 2 and 5 both occur three times: the lower index ranks first.
    assert_eq!(chunks[0].bg, 2);
    assert_eq!(chunks[0].fg, 5);
    assert_eq!(reduced, vec![2, 5, 2, 5, 2, 5, 2, 5]);
    assert_eq!(chunks[0].codepoint, 0b0101_0101);
}

#[test]
fn equidistant_pixel_goes_to_bg() {
    let (chunks, reduced) =
        break_into_chunks(&linear_table(), vec![4, 6, 4, 6, 4, 6, 5, 4]).unwrap();
    assert_eq!((chunks[0].bg, chunks[0].fg), (4, 6));
    assert_eq!(reduced, vec![4, 6, 4, 6, 4, 6, 4, 4]);
    assert_eq!(chunks[0].codepoint, 0b0101_0100);
}

#[test]
fn more_frequent_index_is_bg() {
    let (chunks, _) = break_into_chunks(&linear_table(), vec![7, 7, 7, 2, 2, 7, 7, 7]).unwrap();
    assert_eq!(chunks[0], Chunk { fg: 2, bg: 7, codepoint: 0b0001_1000 });
}

#[test]
fn blocks_are_cut_in_order() {
    let mut indexes = vec![1; 8];
    indexes.extend([0, 0, 0, 0, 1, 1, 1, 1]);
    let (chunks, reduced) = break_into_chunks(&linear_table(), indexes.clone()).unwrap();
    assert_eq!(chunks.len(), 2);
    assert_eq!(chunks[0], Chunk { fg: 0, bg: 1, codepoint: 0 });
    assert_eq!(chunks[1], Chunk { fg: 1, bg: 0, codepoint: 0x0F });
    assert_eq!(reduced, indexes);
}

#[test]
fn buffer_not_multiple_of_eight_is_refused() {
    assert_eq!(
        break_into_chunks(&linear_table(), vec![0; 12]).err(),
        Some(BlockError::InvalidBlockLength)
    );
}

#[test]
fn empty_buffer_gives_no_chunks() {
    let (chunks, reduced) = break_into_chunks(&linear_table(), vec![]).unwrap();
    assert!(chunks.is_empty() && reduced.is_empty());
}

#[test]
fn palette_bytes_are_rgb_triples() {
    assert_eq!(
        palette_to_bytes(&[color(1, 2, 3), Color { r: 4, g: 5, b: 6, a: 0 }]),
        vec![1, 2, 3, 4, 5, 6]
    );
}

#[test]
fn chunk_bytes_hold_codepoint_and_pair() {
    let chunks = [
        Chunk { fg: 2, bg: 10, codepoint: 0x5A },
        Chunk { fg: 15, bg: 15, codepoint: 0xFF },
    ];
    assert_eq!(chunks_to_bytes(&chunks), vec![0x5A, 0xA2, 0xFF, 0xFF]);
}

#[test]
fn file_layout_for_one_block() {
    let p = Palettes::new(&[color(255, 0, 0), color(0, 255, 0)]);
    let chunks = [Chunk { fg: 1, bg: 0, codepoint: 0x0F }];
    let bytes = xbin_bytes(8, 1, &p.vga, &chunks).unwrap();
    assert_eq!(&bytes[0..11], &[b'X', b'B', b'I', b'N', 0x1a, 1, 0, 1, 0, 0x01, 0x0b]);
    assert_eq!(&bytes[11..17], &[63, 0, 0, 0, 63, 0]);
    assert!(bytes[17..59].iter().all(|&b| b == 0));
    for i in 0..256 {
        assert_eq!(bytes[59 + i] as usize, i);
    }
    assert_eq!(&bytes[315..], &[0x0F, 0x01]);
    assert_eq!(bytes.len(), 317);
}

#[test]
fn header_holds_columns_and_rows() {
    let p = Palettes::new(&[]);
    let chunks = vec![Chunk { fg: 0, bg: 0, codepoint: 0 }; 40 * 300];
    let bytes = xbin_bytes(320, 300, &p.vga, &chunks).unwrap();
    assert_eq!(u16::from_le_bytes([bytes[5], bytes[6]]), 40);
    assert_eq!(u16::from_le_bytes([bytes[7], bytes[8]]), 300);
    assert_eq!(bytes.len() - 315, 2 * 40 * 300);
}

#[test]
fn width_not_multiple_of_eight_is_refused() {
    let p = Palettes::new(&[]);
    assert_eq!(
        xbin_bytes(12, 1, &p.vga, &[]),
        Err(BlockError::InvalidBlockLength)
    );
}
