use cam_granular::ascii::{
    bayer, build_ascii_frame, luma, overlay_bbox_color, ramp_char, ramp_index, resize_nearest,
    rgb_to_gray, sharpen_3x3, RAMP_LEN,
};

const RAMP: &[u8] = b" .'`^\",:;Il!i><~+_-?][}{1)(|/tfjrxnuvczXYUJCLQ0OZmwqpdbkhao*#MW&8%B@$";

fn identity_gamma() -> Vec<u8> {
    (0..=255u8).collect()
}

#[test]
fn luma_weights() {
    assert_eq!(luma(0, 0, 0), 0);
    assert_eq!(luma(255, 255, 255), 255);
    assert_eq!(luma(255, 0, 0), 76);
    assert_eq!(luma(0, 255, 0), 149);
    assert_eq!(luma(0, 0, 255), 28);
    assert_eq!(luma(10, 20, 30), ((10 * 77 + 20 * 150 + 30 * 29) >> 8) as u8);
}

#[test]
fn gray_goes_through_the_tone_table() {
    let mut table = identity_gamma();
    table[149] = 7;
    assert_eq!(rgb_to_gray(0, 255, 0, &table), 7);
    assert_eq!(rgb_to_gray(255, 0, 0, &table), 76);
}

#[test]
fn sharpen_changes_only_the_interior() {
    let src = vec![
        10, 10, 10, //
        10, 50, 10, //
        10, 10, 10,
    ];
    let dst = sharpen_3x3(&src, 3, 3);
    assert_eq!(dst, vec![10, 10, 10, 10, 210, 10, 10, 10, 10]);
}

#[test]
fn sharpen_clamps() {
    let src = vec![
        255, 255, 255, //
        255, 0, 255, //
        255, 255, 255, //
        0, 0, 0,
    ];
    let dst = sharpen_3x3(&src, 3, 4);
    assert_eq!(dst[4], 0);
    let src2 = vec![0, 0, 0, 0, 100, 0, 0, 0, 0];
    assert_eq!(sharpen_3x3(&src2, 3, 3)[4], 255);
}

#[test]
fn sharpen_leaves_small_images_alone() {
    let src = vec![1, 2, 3, 4];
    assert_eq!(sharpen_3x3(&src, 2, 2), src);
}

#[test]
fn sharpen_keeps_flat_images() {
    let src = vec![77u8; 20];
    assert_eq!(sharpen_3x3(&src, 5, 4), src);
}

#[test]
fn resize_same_size_is_identity() {
    let src: Vec<u8> = (0..12).collect();
    assert_eq!(resize_nearest(&src, 4, 3, 4, 3), src);
}

#[test]
fn resize_down_and_up() {
    let src: Vec<u8> = (0..16).collect();
    assert_eq!(resize_nearest(&src, 4, 4, 2, 2), vec![0, 2, 8, 10]);
    assert_eq!(resize_nearest(&[1, 2], 2, 1, 4, 1), vec![1, 1, 2, 2]);
    assert!(resize_nearest(&src, 4, 4, 0, 2).is_empty());
}

#[test]
fn ramp_matches_the_float_formula_everywhere() {
    for g in 0..=255u8 {
        for y in 0..4 {
            for x in 0..4 {
                let k = bayer(y, x);
                let table: [[f32; 4]; 4] = [
                    [0.0, 8.0, 2.0, 10.0],
                    [12.0, 4.0, 14.0, 6.0],
                    [3.0, 11.0, 1.0, 9.0],
                    [15.0, 7.0, 13.0, 5.0],
                ];
                assert_eq!(k as f32, table[y][x]);
                let bayer_val = table[y][x] / 16.0;
                let float_idx = ((g as f32 / 255.0 * RAMP.len() as f32) + bayer_val)
                    .clamp(0.0, (RAMP.len() - 1) as f32) as usize;
                assert_eq!(ramp_index(g, k), float_idx, "g={} k={}", g, k);
            }
        }
    }
}

#[test]
fn ramp_characters() {
    assert_eq!(RAMP_LEN, RAMP.len());
    for i in 0..RAMP_LEN {
        assert_eq!(ramp_char(i), RAMP[i] as char);
    }
    assert_eq!(ramp_char(0), ' ');
    assert_eq!(ramp_char(RAMP_LEN - 1), '$');
}

#[test]
fn ascii_frame_of_black_and_white() {
    // 4x2 frame: left half black, right half white
    let mut rgb = vec![0u8; 4 * 2 * 3];
    for y in 0..2 {
        for x in 2..4 {
            let i = (y * 4 + x) * 3;
            rgb[i] = 255;
            rgb[i + 1] = 255;
            rgb[i + 2] = 255;
        }
    }
    let (text, colors) = build_ascii_frame(&rgb, 4, 2, 2, 2, true, &identity_gamma());
    assert_eq!(text, vec![vec![' ', '$'], vec![' ', '$']]);
    assert_eq!(colors, vec![vec![(0, 0, 0), (255, 255, 255)], vec![(0, 0, 0), (255, 255, 255)]]);
    let (text2, colors2) = build_ascii_frame(&rgb, 4, 2, 2, 2, false, &identity_gamma());
    assert_eq!(text2, text);
    assert!(colors2.is_empty());
}

#[test]
fn ascii_frame_dithers_mid_grey() {
    let rgb = vec![128u8; 4 * 4 * 3];
    let (text, _) = build_ascii_frame(&rgb, 4, 4, 4, 4, false, &identity_gamma());
    // 128/255*69 = 34.6; offsets of 6/16 or more reach the next character
    assert_eq!(text[0][0], RAMP[34] as char);
    assert_eq!(text[0][1], RAMP[35] as char);
    assert_eq!(text[3][0], RAMP[35] as char);
    assert_eq!(text[2][2], RAMP[34] as char);
}

#[test]
fn bbox_outline_is_drawn() {
    let mut text = vec![vec!['.'; 6]; 5];
    let mut colors = vec![vec![(0u8, 0u8, 0u8); 6]; 5];
    let red = (255, 0, 0);
    overlay_bbox_color(&mut text, &mut colors, 60, 50, (10, 10, 40, 40), 6, 5, red, "hand");
    let rows: Vec<String> = text.iter().map(|r| r.iter().collect()).collect();
    assert_eq!(
        rows,
        vec![
            "......".to_string(),
            ".\u{250c}\u{2500}\u{2500}\u{2510}.".to_string(),
            ".\u{2502}..\u{2502}.".to_string(),
            ".\u{2502}..\u{2502}.".to_string(),
            ".\u{2514}\u{2500}\u{2500}\u{2518}.".to_string(),
        ]
    );
    assert_eq!(colors[1][1], red);
    assert_eq!(colors[2][2], (0, 0, 0));
    assert_eq!(colors[4][4], red);
}

#[test]
fn bbox_outline_is_clamped_to_the_grid() {
    let mut text = vec![vec!['.'; 4]; 4];
    let mut colors = vec![vec![(0u8, 0u8, 0u8); 4]; 4];
    overlay_bbox_color(&mut text, &mut colors, 40, 40, (0, 0, 40, 40), 4, 4, (1, 2, 3), "body");
    assert_eq!(text[0][0], '\u{250c}');
    assert_eq!(text[0][3], '\u{2510}');
    assert_eq!(text[3][3], '\u{2518}');
    assert_eq!(text[1][1], '.');
}

#[test]
fn small_or_empty_boxes_are_skipped() {
    let mut text = vec![vec!['.'; 6]; 5];
    let mut colors = vec![vec![(0u8, 0u8, 0u8); 6]; 5];
    let before = text.clone();
    overlay_bbox_color(&mut text, &mut colors, 60, 50, (10, 10, 25, 40), 6, 5, (9, 9, 9), "finger");
    assert_eq!(text, before);
    overlay_bbox_color(&mut text, &mut colors, 60, 50, (40, 10, 10, 40), 6, 5, (9, 9, 9), "obj");
    assert_eq!(text, before);
    // an empty box is skipped before any division, even with an empty frame
    overlay_bbox_color(&mut text, &mut colors, 0, 0, (5, 5, 5, 9), 6, 5, (9, 9, 9), "obj");
    assert_eq!(text, before);
}
