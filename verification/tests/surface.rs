use framebuf::color::Rgba;
use framebuf::surface::Surface;

fn black() -> Rgba {
    Rgba { r: 0, g: 0, b: 0, a: 255 }
}

fn red() -> Rgba {
    Rgba { r: 255, g: 0, b: 0, a: 255 }
}

fn blue() -> Rgba {
    Rgba { r: 0, g: 0, b: 255, a: 255 }
}

fn pixel(s: &Surface, x: u32, y: u32) -> Rgba {
    s.get_draw_buffer()[(y * s.buffer_width() + x) as usize]
}

#[test]
fn fresh_surface_is_filled_with_clear_color() {
    let s = Surface::new(4, 3, blue());
    assert_eq!(s.buffer_width(), 4);
    assert_eq!(s.buffer_height(), 3);
    assert_eq!(s.get_draw_buffer().len(), 12);
    assert!(s.get_draw_buffer().iter().all(|p| *p == blue()));
}

#[test]
fn fill_rect_clips_negative_origin() {
    let mut s = Surface::new(20, 20, black());
    s.draw_rect(-5, 0, 10, 10, red());
    for y in 0..20 {
        for x in 0..20 {
            let expected = if x < 5 && y < 10 { red() } else { black() };
            assert_eq!(pixel(&s, x, y), expected, "pixel ({x}, {y})");
        }
    }
}

#[test]
fn fill_rect_clips_past_right_and_bottom() {
    let mut s = Surface::new(8, 8, black());
    s.draw_rect(6, 7, 10, 10, red());
    for y in 0..8 {
        for x in 0..8 {
            let expected = if x >= 6 && y >= 7 { red() } else { black() };
            assert_eq!(pixel(&s, x, y), expected, "pixel ({x}, {y})");
        }
    }
}

#[test]
fn fill_rect_fully_off_screen_is_a_no_op() {
    let mut s = Surface::new(8, 8, black());
    s.draw_rect(-20, -20, 10, 10, red());
    s.draw_rect(8, 0, 3, 3, red());
    s.draw_rect(0, 8, 3, 3, red());
    assert!(s.get_draw_buffer().iter().all(|p| *p == black()));
}

#[test]
fn fill_rect_with_zero_extent_is_a_no_op() {
    let mut s = Surface::new(8, 8, black());
    s.draw_rect(2, 2, 0, 5, red());
    s.draw_rect(2, 2, 5, 0, red());
    assert!(s.get_draw_buffer().iter().all(|p| *p == black()));
}

#[test]
fn blit_clips_to_bottom_right_corner() {
    let mut s = Surface::new(20, 20, black());
    let src: Vec<Rgba> = (0..16)
        .map(|i| Rgba { r: i as u8, g: 0, b: 0, a: 255 })
        .collect();
    s.draw_pixels(18, 18, 4, 4, &src);
    for y in 0..20u32 {
        for x in 0..20u32 {
            let expected = if x >= 18 && y >= 18 {
                // only the top-left 2×2 sub-block of the source is copied
                src[((y - 18) * 4 + (x - 18)) as usize]
            } else {
                black()
            };
            assert_eq!(pixel(&s, x, y), expected, "pixel ({x}, {y})");
        }
    }
}

#[test]
fn blit_clips_negative_origin_with_source_stride() {
    let mut s = Surface::new(6, 6, black());
    let src: Vec<Rgba> = (0..9)
        .map(|i| Rgba { r: 100 + i as u8, g: 0, b: 0, a: 255 })
        .collect();
    s.draw_pixels(-1, -2, 3, 3, &src);
    // only the bottom-right 2×1 sub-block of the 3×3 source is visible
    assert_eq!(pixel(&s, 0, 0), src[7]);
    assert_eq!(pixel(&s, 1, 0), src[8]);
    for y in 0..6u32 {
        for x in 0..6u32 {
            if !(y == 0 && x < 2) {
                assert_eq!(pixel(&s, x, y), black(), "pixel ({x}, {y})");
            }
        }
    }
}

#[test]
fn blit_with_wrong_source_length_is_a_no_op() {
    let mut s = Surface::new(8, 8, black());
    let short = vec![red(); 15];
    s.draw_pixels(0, 0, 4, 4, &short);
    assert!(s.get_draw_buffer().iter().all(|p| *p == black()));
    let long = vec![red(); 17];
    s.draw_pixels(0, 0, 4, 4, &long);
    assert!(s.get_draw_buffer().iter().all(|p| *p == black()));
}

#[test]
fn blit_with_zero_area_is_a_no_op() {
    let mut s = Surface::new(8, 8, black());
    let empty: Vec<Rgba> = Vec::new();
    s.draw_pixels(2, 2, 0, 0, &empty);
    assert!(s.get_draw_buffer().iter().all(|p| *p == black()));
}

#[test]
fn draw_screen_replaces_everything_on_exact_length() {
    let mut s = Surface::new(3, 2, black());
    let src: Vec<Rgba> = (0..6)
        .map(|i| Rgba { r: i as u8, g: i as u8, b: 0, a: 255 })
        .collect();
    s.draw_screen(&src);
    assert_eq!(s.get_draw_buffer().as_slice(), src.as_slice());
}

#[test]
fn draw_screen_with_wrong_length_is_a_no_op() {
    let mut s = Surface::new(3, 2, black());
    let src = vec![red(); 5];
    s.draw_screen(&src);
    assert!(s.get_draw_buffer().iter().all(|p| *p == black()));
}

#[test]
fn draw_pixel_writes_only_in_bounds() {
    let mut s = Surface::new(20, 20, black());
    s.draw_pixel(3, 4, red());
    assert_eq!(pixel(&s, 3, 4), red());
    // out of range on every side, including an x past the row's end,
    // which must not wrap into the next row
    s.draw_pixel(-1, 0, blue());
    s.draw_pixel(0, -1, blue());
    s.draw_pixel(25, 0, blue());
    s.draw_pixel(0, 25, blue());
    for y in 0..20 {
        for x in 0..20 {
            let expected = if x == 3 && y == 4 { red() } else { black() };
            assert_eq!(pixel(&s, x, y), expected, "pixel ({x}, {y})");
        }
    }
}

#[test]
fn clear_uses_the_current_clear_color() {
    let mut s = Surface::new(4, 4, black());
    s.draw_rect(0, 0, 4, 4, red());
    s.clear_color(blue());
    // setting the clear color does not touch the buffer
    assert!(s.get_draw_buffer().iter().all(|p| *p == red()));
    s.clear();
    assert!(s.get_draw_buffer().iter().all(|p| *p == blue()));
}

#[test]
fn resize_then_clear_matches_fresh_surface() {
    let mut s = Surface::new(4, 4, blue());
    s.draw_rect(0, 0, 4, 4, red());
    s.set_framebuffer_size(7, 5);
    s.clear();
    let fresh = Surface::new(7, 5, blue());
    assert_eq!(s.buffer_width(), fresh.buffer_width());
    assert_eq!(s.buffer_height(), fresh.buffer_height());
    assert_eq!(s.get_draw_buffer(), fresh.get_draw_buffer());
}

#[test]
fn resize_discards_contents_and_fills_with_clear_color() {
    let mut s = Surface::new(2, 2, blue());
    s.draw_rect(0, 0, 2, 2, red());
    s.set_framebuffer_size(3, 3);
    assert_eq!(s.buffer_width(), 3);
    assert_eq!(s.buffer_height(), 3);
    assert_eq!(s.get_draw_buffer().len(), 9);
    assert!(s.get_draw_buffer().iter().all(|p| *p == blue()));
}

#[test]
fn resize_to_zero_leaves_an_empty_buffer() {
    let mut s = Surface::new(4, 4, black());
    s.set_framebuffer_size(0, 7);
    assert_eq!(s.get_draw_buffer().len(), 0);
    let bytes = s.as_bytes();
    assert!(bytes.is_empty());
}

#[test]
fn bytes_round_trip_with_distinct_colors() {
    let mut s = Surface::new(16, 16, black());
    for y in 0..16i32 {
        for x in 0..16i32 {
            let i = (y * 16 + x) as u8;
            s.draw_pixel(x, y, Rgba { r: i, g: i.wrapping_add(1), b: i.wrapping_add(2), a: i.wrapping_add(3) });
        }
    }
    let bytes = s.as_bytes();
    assert_eq!(bytes.len(), 4 * 16 * 16);
    let decoded: Vec<Rgba> = bytes
        .chunks(4)
        .map(|c| Rgba { r: c[0], g: c[1], b: c[2], a: c[3] })
        .collect();
    assert_eq!(decoded.as_slice(), s.get_draw_buffer().as_slice());
}

#[test]
fn bytes_are_rgba_in_row_major_order() {
    let mut s = Surface::new(2, 1, black());
    s.draw_pixel(0, 0, Rgba { r: 1, g: 2, b: 3, a: 4 });
    s.draw_pixel(1, 0, Rgba { r: 5, g: 6, b: 7, a: 8 });
    assert_eq!(s.as_bytes(), vec![1, 2, 3, 4, 5, 6, 7, 8]);
}
