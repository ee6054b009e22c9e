use image_to_ansi::palette::{
    cell_average, cell_color, glyph_for, luminance, palette_index, palette_index_to_rgb, pick_colors,
};

#[test]
fn palette_index_of_cube_corners() {
    assert_eq!(palette_index((0, 0, 0)), 16);
    assert_eq!(palette_index((255, 255, 255)), 231);
    assert_eq!(palette_index((255, 0, 0)), 196);
    assert_eq!(palette_index((0, 255, 0)), 46);
    assert_eq!(palette_index((0, 0, 255)), 21);
}

#[test]
fn palette_index_rounds_channels_down() {
    // 102 / 51 = 2, 100 / 51 = 1, 50 / 51 = 0
    assert_eq!(palette_index((102, 100, 50)), 16 + 2 * 36 + 6);
    assert_eq!(palette_index((50, 50, 50)), 16);
    assert_eq!(palette_index((51, 51, 51)), 16 + 36 + 6 + 1);
}

#[test]
fn palette_index_to_rgb_of_cube() {
    assert_eq!(palette_index_to_rgb(16), (0, 0, 0));
    assert_eq!(palette_index_to_rgb(231), (255, 255, 255));
    assert_eq!(palette_index_to_rgb(196), (255, 0, 0));
    assert_eq!(palette_index_to_rgb(94), (102, 51, 0));
}

#[test]
fn palette_index_to_rgb_past_the_cube_wraps() {
    // code 239: red step 6 gives 306, which wraps to 50 in a u8
    assert_eq!(palette_index_to_rgb(255), (50, 153, 255));
    assert_eq!(palette_index_to_rgb(232), (50, 0, 0));
}

#[test]
fn palette_round_trip_over_the_cube() {
    for index in 16u8..=231 {
        assert_eq!(palette_index(palette_index_to_rgb(index)), index);
    }
}

#[test]
fn quantized_color_rounds_down_to_cube_level() {
    let c = (200u8, 120u8, 30u8);
    assert_eq!(palette_index_to_rgb(palette_index(c)), (153, 102, 0));
}

#[test]
fn luminance_is_channel_mean() {
    assert_eq!(luminance((0, 0, 0)), 0);
    assert_eq!(luminance((255, 255, 255)), 255);
    assert_eq!(luminance((10, 20, 31)), 20);
}

#[test]
fn glyph_by_brightness() {
    assert_eq!(glyph_for((0, 0, 0)), ' ');
    assert_eq!(glyph_for((22, 22, 22)), ' ');
    assert_eq!(glyph_for((23, 23, 23)), '`');
    assert_eq!(glyph_for((46, 46, 46)), '.');
    assert_eq!(glyph_for((229, 229, 229)), '$');
    assert_eq!(glyph_for((230, 230, 230)), '#');
    assert_eq!(glyph_for((252, 252, 252)), '#');
}

#[test]
fn brightest_glyph_is_clamped_to_ramp() {
    // 255 / 23 = 11, one past the last glyph: clamped onto '#'
    assert_eq!(glyph_for((255, 255, 255)), '#');
    assert_eq!(glyph_for((253, 253, 253)), '#');
}

#[test]
fn glyphs_never_get_sparser_as_brightness_grows() {
    let ramp: Vec<char> = " `.,-:+*%$#".chars().collect();
    let mut last = 0usize;
    for v in 0u8..=255 {
        let g = glyph_for((v, v, v));
        let pos = ramp.iter().position(|&c| c == g).unwrap();
        assert!(pos >= last);
        last = pos;
    }
}

#[test]
fn cell_average_rounds_down() {
    let cell = vec![(10, 20, 30), (20, 30, 41)];
    assert_eq!(cell_average(&cell), (15, 25, 35));
    let single = vec![(7, 8, 9)];
    assert_eq!(cell_average(&single), (7, 8, 9));
    let bright = vec![(255, 255, 255), (255, 255, 254)];
    assert_eq!(cell_average(&bright), (255, 255, 254));
}

#[test]
fn cell_color_of_a_cell() {
    let cell = vec![(255, 255, 255), (255, 255, 255)];
    assert_eq!(cell_color(&cell), (231, '#'));
    let dark = vec![(0, 0, 0), (40, 40, 40)];
    assert_eq!(cell_color(&dark), (16, ' '));
}

#[test]
fn pick_colors_gives_every_cell_its_color() {
    let boxes = vec![
        vec![vec![(0, 0, 0)], vec![(255, 0, 0), (255, 0, 0)]],
        vec![vec![(255, 255, 255)], vec![(0, 0, 255)]],
    ];
    let colors = pick_colors(&boxes);
    assert_eq!(colors, vec![vec![(16, ' '), (196, ',')], vec![(231, '#'), (21, ',')]]);
}

#[test]
fn pick_colors_fills_short_rows_with_blank() {
    let boxes = vec![vec![vec![(0, 0, 0)], vec![(0, 0, 0)]], vec![vec![(0, 0, 0)]]];
    let colors = pick_colors(&boxes);
    assert_eq!(colors, vec![vec![(16, ' '), (16, ' ')], vec![(16, ' '), (0, ' ')]]);
}

#[test]
fn cell_color_ignores_order_and_repetition() {
    let cell = vec![(10, 200, 30), (20, 31, 41), (250, 0, 7)];
    let mut other = Vec::new();
    for _ in 0..3 {
        for &p in cell.iter().rev() {
            other.push(p);
        }
    }
    other.swap(0, 5);
    assert_eq!(cell_average(&other), cell_average(&cell));
    assert_eq!(cell_color(&other), cell_color(&cell));
    let boxes = vec![vec![cell.clone(), vec![(1, 2, 3)]]];
    let boxes2 = vec![vec![other, vec![(1, 2, 3), (1, 2, 3)]]];
    assert_eq!(pick_colors(&boxes), pick_colors(&boxes2));
}
