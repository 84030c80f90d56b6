use hypr_notch::module::Rect;
use hypr_notch::draw::{
    draw_antialiased_rounded_corner, fill_canvas_with_opaque_color,
    fill_canvas_with_rounded_corners, Canvas, Glyph, TextRenderer,
};

const RED: [u8; 4] = [0, 0, 255, 255];
const WHITE: [u8; 4] = [255, 255, 255, 255];

fn pixel(buf: &[u8], w: usize, x: usize, y: usize) -> [u8; 4] {
    let i = (y * w + x) * 4;
    [buf[i], buf[i + 1], buf[i + 2], buf[i + 3]]
}

#[test]
fn fill_rect_clips_negative_origin() {
    let mut buf = vec![0u8; 4 * 4 * 3];
    {
        let mut canvas = Canvas::new(&mut buf, 4, 3);
        canvas.fill_rect(-2, -1, 4, 3, [1, 2, 3, 4]);
    }
    for y in 0..3 {
        for x in 0..4 {
            let expected = if x < 2 && y < 2 { [1, 2, 3, 4] } else { [0, 0, 0, 0] };
            assert_eq!(pixel(&buf, 4, x, y), expected, "pixel ({}, {})", x, y);
        }
    }
}

#[test]
fn fill_rect_clips_past_the_edge() {
    let mut buf = vec![9u8; 5 * 2 * 4 + 3];
    {
        let mut canvas = Canvas::new(&mut buf, 5, 2);
        canvas.fill_rect(3, 1, 100, 100, [7, 7, 7, 7]);
    }
    assert_eq!(pixel(&buf, 5, 3, 1), [7, 7, 7, 7]);
    assert_eq!(pixel(&buf, 5, 4, 1), [7, 7, 7, 7]);
    assert_eq!(pixel(&buf, 5, 2, 1), [9, 9, 9, 9]);
    assert_eq!(pixel(&buf, 5, 4, 0), [9, 9, 9, 9]);
    // the bytes after the last whole row stay as they were
    assert_eq!(&buf[40..], &[9, 9, 9]);
}

#[test]
fn fill_rect_empty_rectangle_is_a_no_op() {
    let mut buf = vec![5u8; 3 * 3 * 4];
    {
        let mut canvas = Canvas::new(&mut buf, 3, 3);
        canvas.fill_rect(1, 1, 0, 2, [1, 1, 1, 1]);
        canvas.fill_rect(-5, 0, 3, 2, [1, 1, 1, 1]);
        canvas.fill_rect(3, 0, 3, 2, [1, 1, 1, 1]);
    }
    assert!(buf.iter().all(|&b| b == 5));
}

#[test]
fn canvas_reports_its_size() {
    let mut buf = vec![0u8; 6 * 2 * 4];
    let canvas = Canvas::new(&mut buf, 6, 2);
    assert_eq!(canvas.width(), 6);
    assert_eq!(canvas.height(), 2);
}

#[test]
fn opaque_fill_covers_whole_pixels_only() {
    let mut buf = vec![0u8; 10];
    fill_canvas_with_opaque_color(&mut buf, [1, 2, 3, 4]);
    assert_eq!(buf, vec![1, 2, 3, 4, 1, 2, 3, 4, 0, 0]);
}

#[test]
fn collapsed_background_is_flat() {
    let mut buf = vec![0u8; 20 * 10 * 4];
    fill_canvas_with_rounded_corners(&mut buf, 20, 10, false, 5, RED);
    assert!(buf.chunks(4).all(|p| p == RED));
}

#[test]
fn zero_radius_background_is_flat() {
    let mut buf = vec![0u8; 20 * 10 * 4];
    fill_canvas_with_rounded_corners(&mut buf, 20, 10, true, 0, RED);
    assert!(buf.chunks(4).all(|p| p == RED));
}

#[test]
fn expanded_background_rounds_bottom_corners() {
    let (w, h) = (20usize, 10usize);
    let mut buf = vec![9u8; w * h * 4];
    fill_canvas_with_rounded_corners(&mut buf, w as u32, h as u32, true, 5, RED);
    // left corner centred on (5, 5): (2, 9) is at squared distance 9 + 16 = 25
    assert_eq!(pixel(&buf, w, 2, 9), RED);
    assert_eq!(pixel(&buf, w, 1, 9), [0, 0, 0, 0]);
    assert_eq!(pixel(&buf, w, 0, 9), [0, 0, 0, 0]);
    // right corner centred on (15, 5)
    assert_eq!(pixel(&buf, w, 18, 9), RED);
    assert_eq!(pixel(&buf, w, 19, 9), [0, 0, 0, 0]);
    // top corners stay square, the middle is filled
    assert_eq!(pixel(&buf, w, 0, 0), RED);
    assert_eq!(pixel(&buf, w, 19, 0), RED);
    assert_eq!(pixel(&buf, w, 10, 9), RED);
    // the row at the corner centre is outside the band
    assert_eq!(pixel(&buf, w, 0, 5), RED);
}

#[test]
fn antialiased_corner_leaves_canvas() {
    let mut buf = vec![3u8; 16];
    draw_antialiased_rounded_corner(&mut buf, 2, 2, 1, RED);
    assert_eq!(buf, vec![3u8; 16]);
}

fn glyph(xmin: i32, ymin: i32, width: usize, height: usize, advance: i32, coverage: Vec<u8>) -> Glyph {
    Glyph { xmin, ymin, width, height, advance, coverage }
}

#[test]
fn glyphs_blend_over_opaque_red() {
    let (w, h) = (8usize, 4usize);
    let mut buf = vec![0u8; w * h * 4];
    fill_canvas_with_opaque_color(&mut buf, RED);
    let glyphs = vec![
        glyph(0, 0, 2, 2, 3, vec![255, 128, 0, 64]),
        glyph(0, 1, 1, 1, 2, vec![200]),
    ];
    {
        let mut canvas = Canvas::new(&mut buf, w as u32, h as u32);
        canvas.draw_glyphs(Rect { x: 0, y: 0, width: 8, height: 4 }, 1, 0, &glyphs, WHITE);
    }
    // full coverage gives the text color
    assert_eq!(pixel(&buf, w, 1, 0), [255, 255, 255, 255]);
    // coverage 128: (0 * 127 + 255 * 128) / 255 = 128 on blue and green
    assert_eq!(pixel(&buf, w, 2, 0), [128, 128, 255, 255]);
    // no coverage leaves the background
    assert_eq!(pixel(&buf, w, 1, 1), RED);
    assert_eq!(pixel(&buf, w, 2, 1), [64, 64, 255, 255]);
    // the second glyph starts 3 pixels on, one row down
    assert_eq!(pixel(&buf, w, 4, 1), [200, 200, 255, 255]);
    for p in buf.chunks(4) {
        assert_eq!(p[3], 255);
        assert_eq!(p[2], 255);
        assert_eq!(p[0], p[1]);
    }
}

#[test]
fn glyph_blend_alpha_over_transparent() {
    let mut buf = vec![0u8; 4];
    {
        let mut canvas = Canvas::new(&mut buf, 1, 1);
        canvas.draw_glyphs(
            Rect { x: 0, y: 0, width: 1, height: 1 },
            0,
            0,
            &vec![glyph(0, 0, 1, 1, 1, vec![255])],
            [10, 20, 30, 128],
        );
    }
    // alpha: 0 + 128 * 255 * 255 / 65025 = 128
    assert_eq!(buf, vec![10, 20, 30, 128]);
}

#[test]
fn glyphs_are_clipped_to_the_canvas() {
    let mut buf = vec![0u8; 2 * 2 * 4];
    {
        let mut canvas = Canvas::new(&mut buf, 2, 2);
        canvas.draw_glyphs(
            Rect { x: -5, y: -5, width: 50, height: 50 },
            -1,
            -1,
            &vec![glyph(0, 0, 3, 3, 0, vec![255; 9])],
            WHITE,
        );
    }
    assert!(buf.chunks(4).all(|p| p == WHITE));
}

#[test]
fn text_without_renderer_draws_nothing() {
    let mut buf = vec![1u8; 4 * 4 * 4];
    {
        let mut canvas = Canvas::new(&mut buf, 4, 4);
        canvas.draw_text(0, 0, "12:30:05", WHITE, 16);
    }
    assert!(buf.iter().all(|&b| b == 1));
}

#[test]
fn invalid_font_bytes_are_rejected() {
    assert!(TextRenderer::from_font_bytes(vec![1, 2, 3]).is_err());
}

#[test]
fn glyphs_are_clipped_to_the_clip_rect() {
    let mut buf = vec![0u8; 4 * 1 * 4];
    {
        let mut canvas = Canvas::new(&mut buf, 4, 1);
        let clip = Rect { x: 1, y: 0, width: 2, height: 1 };
        canvas.draw_glyphs(clip, 0, 0, &vec![glyph(0, 0, 4, 1, 4, vec![255; 4])], WHITE);
    }
    assert_eq!(pixel(&buf, 4, 0, 0), [0, 0, 0, 0]);
    assert_eq!(pixel(&buf, 4, 1, 0), WHITE);
    assert_eq!(pixel(&buf, 4, 2, 0), WHITE);
    assert_eq!(pixel(&buf, 4, 3, 0), [0, 0, 0, 0]);
}

#[test]
fn clipped_text_without_renderer_draws_nothing() {
    let mut buf = vec![2u8; 4 * 4 * 4];
    {
        let mut canvas = Canvas::new(&mut buf, 4, 4);
        canvas.draw_text_clipped(Rect { x: 0, y: 0, width: 4, height: 4 }, 0, 0, "ab", WHITE, 12);
    }
    assert!(buf.iter().all(|&b| b == 2));
}
