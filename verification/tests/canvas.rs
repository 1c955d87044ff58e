use jofi::canvas::{blend_pixel, draw_glyph, fill_background, Color, GlyphDraw};

#[test]
fn background_is_premultiplied_transparent_black() {
    let mut canvas = vec![255; 8];
    fill_background(&mut canvas, 123);
    assert_eq!(canvas, vec![0, 0, 0, 123, 0, 0, 0, 123]);
}

#[test]
fn background_leaves_half_pixels_alone() {
    let mut canvas = vec![9; 7];
    fill_background(&mut canvas, 1);
    assert_eq!(canvas, vec![0, 0, 0, 1, 9, 9, 9]);
}

#[test]
fn blending() {
    let mut canvas = vec![10, 20, 30, 40, 100, 100, 100, 200];
    blend_pixel(&mut canvas, 4, Color::rgb(255, 99, 71), 128);
    assert_eq!(canvas, vec![10, 20, 30, 40, 35 + 49, 49 + 49, 128 + 49, 128 + 99]);
    blend_pixel(&mut canvas, 0, Color::rgb(1, 2, 3), 255);
    assert_eq!(canvas[..4], [3, 2, 1, 255]);
    let before = canvas.clone();
    blend_pixel(&mut canvas, 0, Color::rgb(200, 200, 200), 0);
    assert_eq!(canvas, before);
}

#[test]
fn blending_keeps_pixels_premultiplied() {
    for alpha in 0..=255u8 {
        for under in [0u8, 1, 127, 254, 255] {
            let mut canvas = vec![under, under / 2, 0, under];
            blend_pixel(&mut canvas, 0, Color::rgb(255, 128, 7), alpha);
            assert!(canvas[0] <= canvas[3] && canvas[1] <= canvas[3] && canvas[2] <= canvas[3]);
        }
    }
}

fn glyph(x: i32, y: i32, bitmap: &[u8]) -> GlyphDraw<'_> {
    GlyphDraw { x, y, width: 2, height: 2, bitmap, color: Color::rgb(1, 2, 3) }
}

#[test]
fn glyphs_are_drawn_where_they_belong() {
    let mut canvas = vec![0u8; 3 * 3 * 4];
    draw_glyph(&mut canvas, 3, glyph(1, 1, &[255, 0, 0, 255]));
    let mut expected = vec![0u8; 36];
    expected[16..20].copy_from_slice(&[3, 2, 1, 255]);
    expected[32..36].copy_from_slice(&[3, 2, 1, 255]);
    assert_eq!(canvas, expected);
}

#[test]
fn glyphs_are_cut_off_at_the_edges() {
    let full = [255u8; 4];
    let mut canvas = vec![0u8; 2 * 2 * 4];
    draw_glyph(&mut canvas, 2, glyph(-1, -1, &full));
    assert_eq!(canvas[..4], [3, 2, 1, 255]);
    assert_eq!(canvas[4..], [0; 12]);
    let mut canvas = vec![0u8; 2 * 2 * 4 + 3];
    draw_glyph(&mut canvas, 2, glyph(1, 1, &full));
    assert_eq!(canvas[..12], [0; 12]);
    assert_eq!(canvas[12..16], [3, 2, 1, 255]);
    assert_eq!(canvas[16..], [0; 3]);
    let mut canvas = vec![7u8; 16];
    draw_glyph(&mut canvas, 2, glyph(2, 0, &full));
    draw_glyph(&mut canvas, 2, glyph(0, -2, &full));
    draw_glyph(&mut canvas, 2, glyph(i32::MAX, i32::MAX, &full));
    assert_eq!(canvas, vec![7u8; 16]);
}

#[test]
fn nothing_is_drawn_on_too_wide_a_canvas() {
    let mut canvas = vec![7u8; 16];
    draw_glyph(&mut canvas, i32::MAX as u32 + 1, glyph(0, 0, &[255; 4]));
    draw_glyph(&mut canvas, u32::MAX, glyph(0, 0, &[]));
    assert_eq!(canvas, vec![7u8; 16]);
}
