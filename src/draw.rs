//! Software rendering onto a BGRA/ARGB8888 pixel buffer.
//!
//! The buffer is row-major with four bytes per pixel and a stride of
//! `width * 4`. Byte `b` belongs to pixel `b / 4`, whose column is
//! `(b / 4) % width` and whose row is `(b / 4) / width`.
use vstd::arithmetic::div_mod::{
    lemma_div_pos_is_pos,
    lemma_fundamental_div_mod,
    lemma_fundamental_div_mod_converse,
};
use vstd::arithmetic::div_mod::lemma_mod_bound;
use vstd::arithmetic::mul::lemma_mul_is_commutative;
use crate::module::interface::Rect;
use vstd::prelude::*;

verus! {

/// Pixel index of byte `b`.
pub open spec fn pixel_of(b: int) -> int {
    b / 4
}

/// Channel (0..4) of byte `b` within its pixel.
pub open spec fn channel_of(b: int) -> int {
    b % 4
}

/// Column of pixel `p` on a canvas `w` pixels wide.
pub open spec fn col_of(p: int, w: int) -> int {
    p % w
}

/// Row of pixel `p` on a canvas `w` pixels wide.
pub open spec fn row_of(p: int, w: int) -> int {
    p / w
}

/// Whether all four bytes of the pixel holding byte `b` lie in a buffer of `len` bytes.
pub open spec fn pixel_fits(b: int, len: int) -> bool {
    pixel_of(b) * 4 + 4 <= len
}

/// Byte `b` of a pixel of the given color.
pub open spec fn color_byte(color: [u8; 4], b: int) -> u8 {
    color@[channel_of(b)]
}

/// Pixel `row * w + col` sits at column `col` and row `row`.
pub proof fn lemma_pixel_position(w: int, row: int, col: int)
    requires
        w > 0,
        row >= 0,
        0 <= col < w,
    ensures
        col_of(row * w + col, w) == col,
        row_of(row * w + col, w) == row,
{
    lemma_fundamental_div_mod_converse(row * w + col, w, row, col);
}

/// Every byte lies in the four bytes of its pixel.
pub proof fn lemma_byte_cell(b: int)
    requires
        b >= 0,
    ensures
        pixel_of(b) >= 0,
        4 * pixel_of(b) <= b < 4 * pixel_of(b) + 4,
        channel_of(b) == b - 4 * pixel_of(b),
{
    lemma_fundamental_div_mod(b, 4);
}

/// Every pixel sits at one column and one row.
pub proof fn lemma_pixel_cell(p: int, w: int)
    requires
        p >= 0,
        w > 0,
    ensures
        0 <= col_of(p, w) < w,
        row_of(p, w) >= 0,
        p == row_of(p, w) * w + col_of(p, w),
{
    lemma_fundamental_div_mod(p, w);
    lemma_mod_bound(p, w);
    lemma_div_pos_is_pos(p, w);
    lemma_mul_is_commutative(w, p / w);
}

/// Whether pixel `p` of a canvas `w` pixels wide lies in `area`.
pub open spec fn in_rect(p: int, w: int, area: Rect) -> bool {
    w > 0 && area.contains_spec(col_of(p, w), row_of(p, w))
}

/// Whether `after` differs from `before` only in pixels of `area`.
pub open spec fn unchanged_outside(before: Seq<u8>, after: Seq<u8>, w: int, area: Rect) -> bool {
    &&& after.len() == before.len()
    &&& forall|b: int|
        0 <= b < before.len() && !in_rect(pixel_of(b), w, area) ==> #[trigger] after[b]
            == before[b]
}

/// The larger of two integers.
pub open spec fn max_int(a: int, b: int) -> int {
    if a >= b {
        a
    } else {
        b
    }
}

/// The smaller of two integers.
pub open spec fn min_int(a: int, b: int) -> int {
    if a <= b {
        a
    } else {
        b
    }
}

/// Whether pixel `p` of a canvas `w` pixels wide lies in the half-open box
/// `[x0, x1) x [y0, y1)`.
pub open spec fn pixel_in_box(p: int, w: int, x0: int, y0: int, x1: int, y1: int) -> bool {
    w > 0 && x0 <= col_of(p, w) < x1 && y0 <= row_of(p, w) < y1
}

/// What `fill_rect` leaves in byte `b`: the rectangle is clipped to the
/// canvas `[0, w) x [0, h)`, and every whole pixel inside it takes `color`.
pub open spec fn rect_fill_byte(
    old: Seq<u8>,
    w: int,
    h: int,
    x: int,
    y: int,
    width: int,
    height: int,
    color: [u8; 4],
    b: int,
) -> u8 {
    if pixel_in_box(
        pixel_of(b),
        w,
        max_int(x, 0),
        max_int(y, 0),
        min_int(x + width, w),
        min_int(y + height, h),
    ) && pixel_fits(b, old.len() as int) {
        color_byte(color, b)
    } else {
        old[b]
    }
}

/// Byte `b` once `fill_rect` has reached column `col` of row `row`: the
/// pixels before that point, in row-major order, are filled.
pub open spec fn rect_fill_upto(
    old: Seq<u8>,
    w: int,
    h: int,
    x: int,
    y: int,
    width: int,
    height: int,
    color: [u8; 4],
    row: int,
    col: int,
    b: int,
) -> u8 {
    if row_of(pixel_of(b), w) < row || (row_of(pixel_of(b), w) == row && col_of(pixel_of(b), w)
        < col) {
        rect_fill_byte(old, w, h, x, y, width, height, color, b)
    } else {
        old[b]
    }
}

/// Writes one pixel of `buf` with `color`.
fn put_pixel(buf: &mut [u8], p: usize, color: [u8; 4])
    requires
        4 * p + 4 <= old(buf)@.len(),
    ensures
        final(buf)@.len() == old(buf)@.len(),
        forall|b: int|
            0 <= b < old(buf)@.len() ==> #[trigger] final(buf)@[b] == if 4 * p <= b < 4 * p + 4 {
                color@[b - 4 * p]
            } else {
                old(buf)@[b]
            },
{
    let i = 4 * p;
    buf[i] = color[0];
    buf[i + 1] = color[1];
    buf[i + 2] = color[2];
    buf[i + 3] = color[3];
}

/// Squared distance test of the rounded bottom corners: whether the pixel at
/// column `x`, row `y` of a `w` x `h` canvas is cut away by a corner of
/// radius `r`. The left corner is centred on `(r, h - r)`, the right one on
/// `(w - r, h - r)`; a pixel at squared distance exactly `r * r` is kept.
pub open spec fn in_rounded_corner(x: int, y: int, w: int, h: int, r: int) -> bool {
    if y > h - r {
        if x < r {
            (r - x) * (r - x) + (y - (h - r)) * (y - (h - r)) > r * r
        } else if x >= w - r {
            (x - (w - r)) * (x - (w - r)) + (y - (h - r)) * (y - (h - r)) > r * r
        } else {
            false
        }
    } else {
        false
    }
}

/// What `fill_canvas_with_opaque_color` leaves in byte `b`.
pub open spec fn opaque_fill_byte(old: Seq<u8>, color: [u8; 4], b: int) -> u8 {
    if pixel_fits(b, old.len() as int) {
        color_byte(color, b)
    } else {
        old[b]
    }
}

/// What `fill_canvas_with_rounded_corners` leaves in byte `b`: a flat fill
/// when collapsed or when the radius is 0; otherwise the `w` x `h` pixels
/// take `color`, except those cut away by a bottom corner, which become
/// fully transparent (all four bytes 0).
pub open spec fn background_byte(
    old: Seq<u8>,
    w: int,
    h: int,
    expanded: bool,
    radius: int,
    color: [u8; 4],
    b: int,
) -> u8 {
    if !expanded || radius == 0 {
        opaque_fill_byte(old, color, b)
    } else if pixel_fits(b, old.len() as int) && pixel_of(b) < w * h {
        if in_rounded_corner(
            col_of(pixel_of(b), w),
            row_of(pixel_of(b), w),
            w,
            h,
            radius,
        ) {
            0
        } else {
            color_byte(color, b)
        }
    } else {
        old[b]
    }
}

/// Fill a canvas with a solid color: every whole pixel of the buffer takes `color`.
pub fn fill_canvas_with_opaque_color(canvas: &mut [u8], color: [u8; 4])
    ensures
        final(canvas)@.len() == old(canvas)@.len(),
        forall|b: int|
            0 <= b < old(canvas)@.len() ==> #[trigger] final(canvas)@[b] == opaque_fill_byte(
                old(canvas)@,
                color,
                b,
            ),
{
    let ghost old_px = canvas@;
    let npix: usize = canvas.len() / 4;
    let mut p: usize = 0;
    while p < npix
        invariant
            0 <= p <= npix,
            npix == old_px.len() / 4,
            canvas@.len() == old_px.len(),
            old_px == old(canvas)@,
            forall|b: int|
                0 <= b < old_px.len() ==> #[trigger] canvas@[b] == if pixel_of(b) < p {
                    opaque_fill_byte(old_px, color, b)
                } else {
                    old_px[b]
                },
        decreases npix - p,
    {
        let ghost before = canvas@;
        put_pixel(canvas, p, color);
        assert forall|b: int| 0 <= b < old_px.len() implies #[trigger] canvas@[b] == if pixel_of(b)
            < p + 1 {
            opaque_fill_byte(old_px, color, b)
        } else {
            old_px[b]
        } by {
            lemma_byte_cell(b);
            if pixel_of(b) == p {
                assert(canvas@[b] == color@[b - 4 * p]);
            } else {
                assert(canvas@[b] == before[b]);
            }
        }
        p = p + 1;
    }
    assert forall|b: int| 0 <= b < old_px.len() implies #[trigger] canvas@[b] == opaque_fill_byte(
        old_px,
        color,
        b,
    ) by {
        lemma_byte_cell(b);
    }
}

/// Whether the pixel at column `x`, row `y` is cut away by a rounded bottom
/// corner; computed without overflow.
fn corner_cut(x: u64, y: u64, w: u64, h: u64, r: u64) -> (cut: bool)
    requires
        x < w,
        y < h,
        w <= u32::MAX,
        h <= u32::MAX,
        r <= u32::MAX,
    ensures
        cut == in_rounded_corner(x as int, y as int, w as int, h as int, r as int),
{
    let (xi, yi, wi, hi, ri) = (x as i128, y as i128, w as i128, h as i128, r as i128);
    if yi > hi - ri {
        let dy = yi - (hi - ri);
        if xi < ri {
            let dx = ri - xi;
            assert(0 <= dx * dx <= 0x1_0000_0000i128 * 0x1_0000_0000i128) by (nonlinear_arith)
                requires
                    0 <= dx <= 0x1_0000_0000i128,
            ;
            assert(0 <= dy * dy <= 0x1_0000_0000i128 * 0x1_0000_0000i128) by (nonlinear_arith)
                requires
                    0 <= dy <= 0x1_0000_0000i128,
            ;
            assert(0 <= ri * ri <= 0x1_0000_0000i128 * 0x1_0000_0000i128) by (nonlinear_arith)
                requires
                    0 <= ri <= 0x1_0000_0000i128,
            ;
            dx * dx + dy * dy > ri * ri
        } else if xi >= wi - ri {
            let dx = xi - (wi - ri);
            assert(0 <= dx * dx <= 0x1_0000_0000i128 * 0x1_0000_0000i128) by (nonlinear_arith)
                requires
                    0 <= dx <= 0x1_0000_0000i128,
            ;
            assert(0 <= dy * dy <= 0x1_0000_0000i128 * 0x1_0000_0000i128) by (nonlinear_arith)
                requires
                    0 <= dy <= 0x1_0000_0000i128,
            ;
            assert(0 <= ri * ri <= 0x1_0000_0000i128 * 0x1_0000_0000i128) by (nonlinear_arith)
                requires
                    0 <= ri <= 0x1_0000_0000i128,
            ;
            dx * dx + dy * dy > ri * ri
        } else {
            false
        }
    } else {
        false
    }
}

/// Fill a canvas with `color`, rounding the two bottom corners with
/// `corner_radius` when expanded.
pub fn fill_canvas_with_rounded_corners(
    canvas: &mut [u8],
    width: u32,
    height: u32,
    expanded: bool,
    corner_radius: u32,
    color: [u8; 4],
)
    ensures
        final(canvas)@.len() == old(canvas)@.len(),
        forall|b: int|
            0 <= b < old(canvas)@.len() ==> #[trigger] final(canvas)@[b] == background_byte(
                old(canvas)@,
                width as int,
                height as int,
                expanded,
                corner_radius as int,
                color,
                b,
            ),
{
    if !expanded || corner_radius == 0 {
        fill_canvas_with_opaque_color(canvas, color);
        return ;
    }
    let ghost old_px = canvas@;
    let ghost w = width as int;
    let ghost h = height as int;
    let npix: u64 = (canvas.len() / 4) as u64;
    proof {
        assert(width * height <= 0xffff_ffffint * 0xffff_ffffint) by (nonlinear_arith)
            requires
                0 <= width <= 0xffff_ffffint,
                0 <= height <= 0xffff_ffffint,
        ;
    }
    let area: u64 = width as u64 * height as u64;
    let last: u64 = if npix < area {
        npix
    } else {
        area
    };
    let mut p: u64 = 0;
    while p < last
        invariant
            0 <= p <= last,
            last <= npix,
            last <= area,
            area == w * h,
            w == width,
            h == height,
            expanded,
            corner_radius != 0,
            npix == old_px.len() / 4,
            old_px.len() <= usize::MAX,
            canvas@.len() == old_px.len(),
            old_px == old(canvas)@,
            forall|b: int|
                0 <= b < old_px.len() ==> #[trigger] canvas@[b] == if pixel_of(b) < p {
                    background_byte(old_px, w, h, expanded, corner_radius as int, color, b)
                } else {
                    old_px[b]
                },
        decreases last - p,
    {
        proof {
            if w == 0 {
                assert(area == 0);
            }
        }
        let x: u64 = p % (width as u64);
        let y: u64 = p / (width as u64);
        proof {
            lemma_pixel_cell(p as int, w);
            if y >= h {
                assert(y * w >= h * w) by (nonlinear_arith)
                    requires
                        y >= h,
                        w > 0,
                ;
                assert(p >= w * h) by (nonlinear_arith)
                    requires
                        p == y * w + x,
                        y * w >= h * w,
                        x >= 0,
                ;
            }
        }
        let cut = corner_cut(x, y, width as u64, height as u64, corner_radius as u64);
        let px: [u8; 4] = if cut {
            [0, 0, 0, 0]
        } else {
            color
        };
        let ghost before = canvas@;
        put_pixel(canvas, p as usize, px);
        assert forall|b: int| 0 <= b < old_px.len() implies #[trigger] canvas@[b] == if pixel_of(b)
            < p + 1 {
            background_byte(old_px, w, h, expanded, corner_radius as int, color, b)
        } else {
            old_px[b]
        } by {
            lemma_byte_cell(b);
            if pixel_of(b) == p {
                assert(canvas@[b] == px@[b - 4 * p]);
                if cut {
                    assert(px@[b - 4 * p] == 0);
                }
            } else {
                assert(canvas@[b] == before[b]);
            }
        }
        p = p + 1;
    }
    assert forall|b: int| 0 <= b < old_px.len() implies #[trigger] canvas@[b] == background_byte(
        old_px,
        w,
        h,
        expanded,
        corner_radius as int,
        color,
        b,
    ) by {
        lemma_byte_cell(b);
    }
}

/// Placeholder for anti-aliased corners: leaves the canvas as it is.
pub fn draw_antialiased_rounded_corner(
    canvas: &mut [u8],
    width: u32,
    height: u32,
    corner_radius: u32,
    color: [u8; 4],
)
    ensures
        final(canvas)@ == old(canvas)@,
{
}

/// A rasterized glyph: a `width` x `height` grid of coverage values
/// (0 = none, 255 = full), row-major from the top-left corner, placed at
/// `(xmin, ymin)` from the pen position, which then moves by `advance`.
pub struct Glyph {
    pub xmin: i32,
    pub ymin: i32,
    pub width: usize,
    pub height: usize,
    pub advance: i32,
    pub coverage: Vec<u8>,
}

impl View for Glyph {
    type V = (i32, i32, usize, usize, i32, Seq<u8>);

    open spec fn view(&self) -> (i32, i32, usize, usize, i32, Seq<u8>) {
        (self.xmin, self.ymin, self.width, self.height, self.advance, self.coverage@)
    }
}

impl Glyph {
    /// The coverage grid holds exactly `width * height` values.
    pub open spec fn wf(&self) -> bool {
        self.coverage@.len() == self.width * self.height
    }
}

/// A color channel after blending `new` over `existing` with weight
/// `cov / 255`: `existing * (1 - a) + new * a`, rounded down.
pub open spec fn blend_channel(existing: int, new: int, cov: int) -> int {
    (existing * (255 - cov) + new * cov) / 255
}

/// The alpha channel after blending: `existing + new * a * (1 - existing)`
/// on the 0..1 scale with `a = cov / 255`, rounded down and clamped to 255.
pub open spec fn blend_alpha(existing: int, new: int, cov: int) -> int {
    min_int(255, existing + (new * cov * (255 - existing)) / 65025)
}

/// Byte `k` (0..4) of a pixel whose old byte is `old` after blending `color`
/// with coverage `cov`.
pub open spec fn blend_byte(old: u8, color: [u8; 4], cov: u8, k: int) -> u8 {
    if k < 3 {
        blend_channel(old as int, color@[k] as int, cov as int) as u8
    } else {
        blend_alpha(old as int, color@[3] as int, cov as int) as u8
    }
}

/// Coverage that glyph `g`, with its top-left corner at `(gx, gy)`, gives
/// pixel `p` of a canvas `w` pixels wide; 0 outside the glyph.
pub open spec fn glyph_coverage(g: Glyph, gx: int, gy: int, p: int, w: int) -> u8 {
    let i = col_of(p, w) - gx;
    let j = row_of(p, w) - gy;
    if 0 <= i < g.width && 0 <= j < g.height {
        g.coverage@[j * g.width + i]
    } else {
        0
    }
}

/// Byte `b` after blending glyph `g` at `(gx, gy)` onto a `w` x `h` canvas:
/// pixels on the canvas with nonzero coverage are blended, others kept.
pub open spec fn glyph_byte(
    old: Seq<u8>,
    w: int,
    h: int,
    clip: Rect,
    g: Glyph,
    gx: int,
    gy: int,
    color: [u8; 4],
    b: int,
) -> u8 {
    let cov = glyph_coverage(g, gx, gy, pixel_of(b), w);
    if w > 0 && row_of(pixel_of(b), w) < h && in_rect(pixel_of(b), w, clip) && pixel_fits(
        b,
        old.len() as int,
    ) && cov > 0 {
        blend_byte(old[b], color, cov, channel_of(b))
    } else {
        old[b]
    }
}

/// The whole buffer after blending one glyph.
pub open spec fn glyph_pixels(
    old: Seq<u8>,
    w: int,
    h: int,
    clip: Rect,
    g: Glyph,
    gx: int,
    gy: int,
    color: [u8; 4],
) -> Seq<u8> {
    Seq::new(old.len(), |b: int| glyph_byte(old, w, h, clip, g, gx, gy, color, b))
}

/// `v` clamped to the range of `i32`.
pub open spec fn clamp_i32(v: int) -> int {
    if v < i32::MIN {
        i32::MIN as int
    } else if v > i32::MAX {
        i32::MAX as int
    } else {
        v
    }
}

/// The buffer after drawing the glyphs `gs` left to right, the pen starting
/// at `(pen, y)`: each glyph goes at `(pen + xmin, y + ymin)`, then the pen
/// moves by its advance (held within `i32`).
pub open spec fn text_pixels(
    old: Seq<u8>,
    w: int,
    h: int,
    clip: Rect,
    gs: Seq<Glyph>,
    pen: int,
    y: int,
    color: [u8; 4],
) -> Seq<u8>
    decreases gs.len(),
{
    if gs.len() == 0 {
        old
    } else {
        let g = gs[0];
        text_pixels(
            glyph_pixels(old, w, h, clip, g, pen + g.xmin, y + g.ymin, color),
            w,
            h,
            clip,
            gs.drop_first(),
            clamp_i32(pen + g.advance),
            y,
            color,
        )
    }
}

/// Drawing glyphs clipped to `clip` changes no pixel outside it.
pub proof fn lemma_text_stays_in_clip(
    old: Seq<u8>,
    w: int,
    h: int,
    clip: Rect,
    gs: Seq<Glyph>,
    pen: int,
    y: int,
    color: [u8; 4],
)
    ensures
        unchanged_outside(old, text_pixels(old, w, h, clip, gs, pen, y, color), w, clip),
    decreases gs.len(),
{
    if gs.len() > 0 {
        let g = gs[0];
        let next = glyph_pixels(old, w, h, clip, g, pen + g.xmin, y + g.ymin, color);
        lemma_text_stays_in_clip(
            next,
            w,
            h,
            clip,
            gs.drop_first(),
            clamp_i32(pen + g.advance),
            y,
            color,
        );
    }
}

/// Whether every whole pixel of `s` is fully opaque.
pub open spec fn all_opaque(s: Seq<u8>) -> bool {
    forall|b: int|
        0 <= b < s.len() && pixel_fits(b, s.len() as int) && channel_of(b) == 3 ==> #[trigger] s[b]
            == 255
}

/// Text drawn over a fully opaque canvas leaves every pixel fully opaque.
pub proof fn lemma_text_keeps_opaque(
    old: Seq<u8>,
    w: int,
    h: int,
    clip: Rect,
    gs: Seq<Glyph>,
    pen: int,
    y: int,
    color: [u8; 4],
)
    requires
        all_opaque(old),
    ensures
        all_opaque(text_pixels(old, w, h, clip, gs, pen, y, color)),
    decreases gs.len(),
{
    if gs.len() > 0 {
        let g = gs[0];
        let next = glyph_pixels(old, w, h, clip, g, pen + g.xmin, y + g.ymin, color);
        assert forall|b: int|
            0 <= b < next.len() && pixel_fits(b, next.len() as int) && channel_of(b) == 3 implies #[trigger] next[b]
            == 255 by {
            let cov = glyph_coverage(g, pen + g.xmin, y + g.ymin, pixel_of(b), w);
            lemma_blend_over_opaque(old[b], color, cov, 0);
        }
        lemma_text_keeps_opaque(
            next,
            w,
            h,
            clip,
            gs.drop_first(),
            clamp_i32(pen + g.advance),
            y,
            color,
        );
    }
}

/// Blends `color` with coverage `cov` into pixel `p` of `buf`.
fn blend_pixel(buf: &mut [u8], p: usize, color: [u8; 4], cov: u8)
    requires
        4 * p + 4 <= old(buf)@.len(),
    ensures
        final(buf)@.len() == old(buf)@.len(),
        forall|b: int|
            0 <= b < old(buf)@.len() ==> #[trigger] final(buf)@[b] == if 4 * p <= b < 4 * p + 4 {
                blend_byte(old(buf)@[b], color, cov, b - 4 * p)
            } else {
                old(buf)@[b]
            },
{
    let len = buf.len();
    assert(4 * p + 4 <= len);
    let i = 4 * p;
    let a = cov as u32;
    let mut k: usize = 0;
    while k < 3
        invariant
            0 <= k <= 3,
            i == 4 * p,
            a == cov,
            4 * p + 4 <= old(buf)@.len(),
            buf@.len() == old(buf)@.len(),
            forall|b: int|
                0 <= b < old(buf)@.len() ==> #[trigger] buf@[b] == if 4 * p <= b < 4 * p + k {
                    blend_byte(old(buf)@[b], color, cov, b - 4 * p)
                } else {
                    old(buf)@[b]
                },
        decreases 3 - k,
    {
        let e = buf[i + k] as u32;
        let n = color[k] as u32;
        assert(e * (255 - a) + n * a <= 255 * 255) by (nonlinear_arith)
            requires
                e <= 255,
                n <= 255,
                a <= 255,
        ;
        let v = (e * (255 - a) + n * a) / 255;
        buf[i + k] = v as u8;
        k = k + 1;
    }
    let e = buf[i + 3] as u32;
    let n = color[3] as u32;
    assert(n * a <= 255 * 255 && n * a * (255 - e) <= 255 * 255 * 255) by (nonlinear_arith)
        requires
            e <= 255,
            n <= 255,
            a <= 255,
    ;
    let t = n * a * (255 - e);
    let q = t / 65025;
    assert(q <= 255);
    let sum = e + q;
    let v = if sum < 255 {
        sum
    } else {
        255
    };
    buf[i + 3] = v as u8;
}

/// Blends glyph `g`, top-left corner at `(gx, gy)`, onto a `w` x `h` buffer.
fn blend_glyph(
    buf: &mut [u8],
    w: u32,
    h: u32,
    clip: Rect,
    g: &Glyph,
    gx: i64,
    gy: i64,
    color: [u8; 4],
)
    requires
        g.wf(),
    ensures
        final(buf)@ == glyph_pixels(
            old(buf)@,
            w as int,
            h as int,
            clip,
            *g,
            gx as int,
            gy as int,
            color,
        ),
{
    let ghost old_px = buf@;
    let ghost len = old_px.len() as int;
    let npix: u64 = (buf.len() / 4) as u64;
    let mut j: usize = 0;
    while j < g.height
        invariant
            0 <= j <= g.height,
            g.wf(),
            npix == len / 4,
            len <= usize::MAX,
            len == old_px.len(),
            buf@.len() == len,
            old_px == old(buf)@,
            forall|b: int|
                0 <= b < len ==> #[trigger] buf@[b] == if w > 0 && row_of(pixel_of(b), w as int)
                    - gy < j {
                    glyph_byte(old_px, w as int, h as int, clip, *g, gx as int, gy as int, color, b)
                } else {
                    old_px[b]
                },
        decreases g.height - j,
    {
        let mut i: usize = 0;
        while i < g.width
            invariant
                0 <= j < g.height,
                0 <= i <= g.width,
                g.wf(),
                npix == len / 4,
                len <= usize::MAX,
                len == old_px.len(),
                buf@.len() == len,
                old_px == old(buf)@,
                forall|b: int|
                    0 <= b < len ==> #[trigger] buf@[b] == if w > 0 && (row_of(
                        pixel_of(b),
                        w as int,
                    ) - gy < j || (row_of(pixel_of(b), w as int) - gy == j && col_of(
                        pixel_of(b),
                        w as int,
                    ) - gx < i)) {
                        glyph_byte(old_px, w as int, h as int, clip, *g, gx as int, gy as int, color, b)
                    } else {
                        old_px[b]
                    },
            decreases g.width - i,
        {
            let ghost before = buf@;
            let cy: i128 = gy as i128 + j as i128;
            let cx: i128 = gx as i128 + i as i128;
            proof {
                assert(j * g.width + i < g.width * g.height) by (nonlinear_arith)
                    requires
                        0 <= j < g.height,
                        0 <= i < g.width,
                ;
            }
            let mut wrote = false;
            let cl = g.coverage.len();
            if 0 <= cy && cy < h as i128 && 0 <= cx && cx < w as i128 && clip.x as i128 <= cx && cx
                < clip.x as i128 + clip.width as i128 && clip.y as i128 <= cy && cy < clip.y as i128
                + clip.height as i128 {
                let cov = g.coverage[j * g.width + i];
                if cov > 0 {
                    proof {
                        assert(cy * w <= 0xffff_ffffint * 0xffff_ffffint) by (nonlinear_arith)
                            requires
                                0 <= cy < 0x1_0000_0000int,
                                0 <= w < 0x1_0000_0000int,
                        ;
                        lemma_pixel_position(w as int, cy as int, cx as int);
                    }
                    let p: u64 = cy as u64 * w as u64 + cx as u64;
                    if p < npix {
                        let pu: usize = p as usize;
                        blend_pixel(buf, pu, color, cov);
                        wrote = true;
                        assert forall|b: int| 0 <= b < len implies #[trigger] buf@[b] == if w > 0
                            && (row_of(pixel_of(b), w as int) - gy < j || (row_of(
                            pixel_of(b),
                            w as int,
                        ) - gy == j && col_of(pixel_of(b), w as int) - gx < i + 1)) {
                            glyph_byte(
                                old_px,
                                w as int,
                                h as int,
                                clip,
                                *g,
                                gx as int,
                                gy as int,
                                color,
                                b,
                            )
                        } else {
                            old_px[b]
                        } by {
                            lemma_byte_cell(b);
                            lemma_pixel_cell(pixel_of(b), w as int);
                            if pixel_of(b) == p {
                                assert(before[b] == old_px[b]);
                                assert(glyph_coverage(*g, gx as int, gy as int, p as int, w as int)
                                    == cov);
                            } else {
                                assert(buf@[b] == before[b]);
                            }
                        }
                    }
                }
            }
            if !wrote {
                assert forall|b: int| 0 <= b < len implies #[trigger] buf@[b] == if w > 0 && (row_of(
                    pixel_of(b),
                    w as int,
                ) - gy < j || (row_of(pixel_of(b), w as int) - gy == j && col_of(
                    pixel_of(b),
                    w as int,
                ) - gx < i + 1)) {
                    glyph_byte(old_px, w as int, h as int, clip, *g, gx as int, gy as int, color, b)
                } else {
                    old_px[b]
                } by {
                    if w > 0 {
                        lemma_byte_cell(b);
                        lemma_pixel_cell(pixel_of(b), w as int);
                    }
                }
            }
            i = i + 1;
        }
        assert forall|b: int| 0 <= b < len implies #[trigger] buf@[b] == if w > 0 && row_of(
            pixel_of(b),
            w as int,
        ) - gy < j + 1 {
            glyph_byte(old_px, w as int, h as int, clip, *g, gx as int, gy as int, color, b)
        } else {
            old_px[b]
        } by {
            if w > 0 {
                lemma_byte_cell(b);
                lemma_pixel_cell(pixel_of(b), w as int);
            }
        }
        j = j + 1;
    }
    assert forall|b: int| 0 <= b < len implies #[trigger] buf@[b] == glyph_byte(
        old_px,
        w as int,
        h as int,
        clip,
        *g,
        gx as int,
        gy as int,
        color,
        b,
    ) by {
        if w > 0 {
            lemma_byte_cell(b);
            lemma_pixel_cell(pixel_of(b), w as int);
        }
    }
    assert(buf@ =~= glyph_pixels(
        old_px,
        w as int,
        h as int,
        clip,
        *g,
        gx as int,
        gy as int,
        color,
    ));
}

/// `fill_rect` changes no byte outside the canvas `[0, w) x [0, h)`, nor
/// outside the rectangle, whatever the rectangle's origin and extent.
pub proof fn lemma_fill_rect_stays_inside(
    old: Seq<u8>,
    w: int,
    h: int,
    x: int,
    y: int,
    width: int,
    height: int,
    color: [u8; 4],
    b: int,
)
    requires
        0 <= b < old.len(),
        w >= 0,
        h >= 0,
    ensures
        rect_fill_byte(old, w, h, x, y, width, height, color, b) != old[b] ==> {
            &&& w > 0
            &&& 0 <= col_of(pixel_of(b), w) < w
            &&& 0 <= row_of(pixel_of(b), w) < h
            &&& x <= col_of(pixel_of(b), w) < x + width
            &&& y <= row_of(pixel_of(b), w) < y + height
        },
{
    if w > 0 {
        lemma_byte_cell(b);
        lemma_pixel_cell(pixel_of(b), w);
    }
}

/// The squared distance from the pixel at `(x, y)` to the centre of the
/// rounded bottom corner whose band it lies in, if it lies in one.
pub open spec fn corner_distance_sq(x: int, y: int, w: int, h: int, r: int) -> Option<int> {
    if y > h - r {
        if x < r {
            Some((r - x) * (r - x) + (y - (h - r)) * (y - (h - r)))
        } else if x >= w - r {
            Some((x - (w - r)) * (x - (w - r)) + (y - (h - r)) * (y - (h - r)))
        } else {
            None
        }
    } else {
        None
    }
}

/// Expanded with a radius `r > 0`, a pixel at squared distance exactly
/// `r * r` from its corner's centre keeps `color` and one farther away
/// becomes fully transparent; collapsed, or with radius 0, every whole pixel
/// takes `color`.
pub proof fn lemma_corner_boundary(
    old: Seq<u8>,
    w: int,
    h: int,
    expanded: bool,
    r: int,
    color: [u8; 4],
    b: int,
)
    requires
        0 <= b < old.len(),
        pixel_fits(b, old.len() as int),
        0 <= pixel_of(b) < w * h,
    ensures
        !expanded || r == 0 ==> background_byte(old, w, h, expanded, r, color, b) == color_byte(
            color,
            b,
        ),
        expanded && r > 0 && corner_distance_sq(
            col_of(pixel_of(b), w),
            row_of(pixel_of(b), w),
            w,
            h,
            r,
        ) == Some(r * r) ==> background_byte(old, w, h, expanded, r, color, b) == color_byte(
            color,
            b,
        ),
        expanded && r > 0 && (match corner_distance_sq(
            col_of(pixel_of(b), w),
            row_of(pixel_of(b), w),
            w,
            h,
            r,
        ) {
            Some(d) => d > r * r,
            None => false,
        }) ==> background_byte(old, w, h, expanded, r, color, b) == 0,
{
}

/// Blending any glyph coverage onto a fully opaque pixel leaves it fully
/// opaque, and each color channel lands between the old value and the
/// glyph color.
pub proof fn lemma_blend_over_opaque(existing: u8, color: [u8; 4], cov: u8, k: int)
    requires
        0 <= k < 3,
    ensures
        blend_alpha(255, color@[3] as int, cov as int) == 255,
        min_int(existing as int, color@[k] as int) <= blend_channel(
            existing as int,
            color@[k] as int,
            cov as int,
        ) <= max_int(existing as int, color@[k] as int),
{
    let e = existing as int;
    let n = color@[k] as int;
    let a = cov as int;
    let lo = min_int(e, n);
    let hi = max_int(e, n);
    assert(lo * 255 <= e * (255 - a) + n * a <= hi * 255) by (nonlinear_arith)
        requires
            0 <= a <= 255,
            lo <= e <= hi,
            lo <= n <= hi,
    ;
    assert(lo <= (e * (255 - a) + n * a) / 255 <= hi) by (nonlinear_arith)
        requires
            lo * 255 <= e * (255 - a) + n * a <= hi * 255,
    ;
}


#[verifier::external_type_specification]
#[verifier::external_body]
pub struct ExFont(fontdue::Font);

/// Whether fontdue parses `data` as a font with the default settings.
pub uninterp spec fn font_parses(data: Seq<u8>) -> bool;

/// The glyph that fontdue rasterizes for `c` at `px` pixels per em from the
/// font parsed out of `data` with the default settings: `xmin`, `ymin`,
/// `width`, `height`, advance in whole pixels, coverage.
pub uninterp spec fn glyph_of(data: Seq<u8>, c: char, px: u16) -> (
    i32,
    i32,
    usize,
    usize,
    i32,
    Seq<u8>,
);

/// Relies on `fontdue::Font::from_bytes`: parses font data with the default
/// settings, or says why it cannot.
#[verifier::external_body]
fn parse_font(data: &Vec<u8>) -> (r: Result<fontdue::Font, &'static str>)
    ensures
        r is Ok == font_parses(data@),
{
    fontdue::Font::from_bytes(data.as_slice(), fontdue::FontSettings::default())
}

/// Relies on `fontdue::Font::rasterize` on the renderer's font, which was
/// parsed from the renderer's data: the result depends on that data, the
/// character and the size alone, and its bitmap holds `width * height`
/// coverage values, row-major from the top-left corner. The advance width
/// is taken in whole pixels, rounded toward zero.
#[verifier::external_body]
fn rasterize(renderer: &TextRenderer, c: char, px: u16) -> (g: Glyph)
    ensures
        g.wf(),
        g@ == glyph_of(renderer.data@, c, px),
{
    let (m, bitmap) = renderer.font.rasterize(c, px.into());
    Glyph {
        xmin: m.xmin,
        ymin: m.ymin,
        width: m.width,
        height: m.height,
        advance: m.advance_width as i32,
        coverage: bitmap,
    }
}

/// Why font data could not be used.
pub struct FontError {
    pub message: String,
}

/// The font used to draw text, loaded once and handed to each text call:
/// the font data and the font parsed from it.
pub struct TextRenderer {
    font: fontdue::Font,
    data: Vec<u8>,
}

impl TextRenderer {
    /// The font data the renderer was made from.
    pub closed spec fn font_data(&self) -> Seq<u8> {
        self.data@
    }

    /// A renderer for the font held in `data` (TrueType or OpenType bytes).
    pub fn from_font_bytes(data: Vec<u8>) -> (r: Result<TextRenderer, FontError>)
        ensures
            r is Ok == font_parses(data@),
            r is Ok ==> r->Ok_0.font_data() == data@,
    {
        match parse_font(&data) {
            Ok(font) => Ok(TextRenderer { font, data }),
            Err(e) => Err(FontError { message: e.to_owned() }),
        }
    }

    /// Rasterizes `c` at `size` pixels per em.
    pub fn glyph(&self, c: char, size: u16) -> (g: Glyph)
        ensures
            g.wf(),
            g@ == glyph_of(self.font_data(), c, size),
    {
        rasterize(self, c, size)
    }
}

/// A canvas over a pixel buffer borrowed from the caller for one draw.
pub struct Canvas<'a> {
    buffer: &'a mut [u8],
    width: u32,
    height: u32,
    text: Option<&'a TextRenderer>,
}

impl<'a> Canvas<'a> {
    /// The bytes of the buffer.
    pub closed spec fn pixels(&self) -> Seq<u8> {
        self.buffer@
    }

    /// Width in pixels.
    pub closed spec fn spec_width(&self) -> nat {
        self.width as nat
    }

    /// Height in pixels.
    pub closed spec fn spec_height(&self) -> nat {
        self.height as nat
    }

    /// The rectangle covering the whole canvas.
    pub closed spec fn bounds(&self) -> Rect {
        Rect { x: 0, y: 0, width: self.width, height: self.height }
    }

    /// The font data of the canvas's text renderer, if it has one.
    pub closed spec fn text_source(&self) -> Option<Seq<u8>> {
        match self.text {
            Some(r) => Some(r.font_data()),
            None => None,
        }
    }

    /// The font data of the canvas's text renderer.
    pub open spec fn text_font(&self) -> Seq<u8> {
        self.text_source()->Some_0
    }

    /// Whether text can be drawn on this canvas.
    pub open spec fn has_text(&self) -> bool {
        self.text_source() is Some
    }

    /// Create a new canvas from a raw buffer; it draws no text.
    pub fn new(buffer: &'a mut [u8], width: u32, height: u32) -> (r: Self)
        ensures
            r.pixels() == old(buffer)@,
            r.spec_width() == width,
            r.spec_height() == height,
            !r.has_text(),
    {
        Canvas { buffer, width, height, text: None }
    }

    /// Create a new canvas from a raw buffer that draws text with `renderer`.
    pub fn with_text(buffer: &'a mut [u8], width: u32, height: u32, renderer: &'a TextRenderer) -> (r:
        Self)
        ensures
            r.pixels() == old(buffer)@,
            r.spec_width() == width,
            r.spec_height() == height,
            r.has_text(),
    {
        Canvas { buffer, width, height, text: Some(renderer) }
    }

    /// Width of the canvas in pixels.
    pub fn width(&self) -> (r: u32)
        ensures
            r == self.spec_width(),
    {
        self.width
    }

    /// Height of the canvas in pixels.
    pub fn height(&self) -> (r: u32)
        ensures
            r == self.spec_height(),
    {
        self.height
    }

    /// Fill a rectangle with `color`, clipped to the canvas; no blending.
    pub fn fill_rect(&mut self, x: i32, y: i32, width: u32, height: u32, color: [u8; 4])
        ensures
            final(self).spec_width() == old(self).spec_width(),
            final(self).spec_height() == old(self).spec_height(),
            final(self).text_source() == old(self).text_source(),
            final(self).pixels().len() == old(self).pixels().len(),
            forall|b: int|
                0 <= b < old(self).pixels().len() ==> #[trigger] final(self).pixels()[b]
                    == rect_fill_byte(
                    old(self).pixels(),
                    old(self).spec_width() as int,
                    old(self).spec_height() as int,
                    x as int,
                    y as int,
                    width as int,
                    height as int,
                    color,
                    b,
                ),
    {
        let ghost old_px = self.buffer@;
        let ghost len = old_px.len() as int;
        let ghost w = self.width as int;
        let ghost h = self.height as int;
        let x0: i64 = if x > 0 {
            x as i64
        } else {
            0
        };
        let y0: i64 = if y > 0 {
            y as i64
        } else {
            0
        };
        let xe: i64 = x as i64 + width as i64;
        let ye: i64 = y as i64 + height as i64;
        let x1: i64 = if xe < self.width as i64 {
            xe
        } else {
            self.width as i64
        };
        let y1: i64 = if ye < self.height as i64 {
            ye
        } else {
            self.height as i64
        };
        if x1 <= x0 || y1 <= y0 {
            assert forall|b: int| 0 <= b < len implies #[trigger] self.buffer@[b] == rect_fill_byte(
                old_px,
                w,
                h,
                x as int,
                y as int,
                width as int,
                height as int,
                color,
                b,
            ) by {}
            return ;
        }
        let npix: u64 = (self.buffer.len() / 4) as u64;
        let mut row: i64 = y0;
        while row < y1
            invariant
                0 <= y0 <= row <= y1 <= h,
                0 <= x0 < x1 <= w,
                w == self.width,
                h == self.height,
                w > 0,
                npix == len / 4,
                len <= usize::MAX,
                len == old_px.len(),
                self.buffer@.len() == len,
                self.width == old(self).width,
                self.height == old(self).height,
                self.text == old(self).text,
                old_px == old(self).buffer@,
                x0 == max_int(x as int, 0),
                y0 == max_int(y as int, 0),
                x1 == min_int(x + width, w),
                y1 == min_int(y + height, h),
                forall|b: int|
                    0 <= b < len ==> #[trigger] self.buffer@[b] == if row_of(pixel_of(b), w)
                        < row {
                        rect_fill_byte(
                            old_px,
                            w,
                            h,
                            x as int,
                            y as int,
                            width as int,
                            height as int,
                            color,
                            b,
                        )
                    } else {
                        old_px[b]
                    },
            decreases y1 - row,
        {
            let mut col: i64 = x0;
            while col < x1
                invariant
                    0 <= y0 <= row < y1 <= h,
                    0 <= x0 <= col <= x1 <= w,
                    w == self.width,
                    h == self.height,
                    w > 0,
                    npix == len / 4,
                    len <= usize::MAX,
                    len == old_px.len(),
                len == old_px.len(),
                len <= usize::MAX,
                len == old_px.len(),
                    self.buffer@.len() == len,
                    self.width == old(self).width,
                    self.height == old(self).height,
                    self.text == old(self).text,
                    old_px == old(self).buffer@,
                    x0 == max_int(x as int, 0),
                    y0 == max_int(y as int, 0),
                    x1 == min_int(x + width, w),
                    y1 == min_int(y + height, h),
                    forall|b: int|
                        0 <= b < len ==> #[trigger] self.buffer@[b] == rect_fill_upto(
                            old_px,
                            w,
                            h,
                            x as int,
                            y as int,
                            width as int,
                            height as int,
                            color,
                            row as int,
                            col as int,
                            b,
                        ),
                decreases x1 - col,
            {
                proof {
                    assert(row * w <= 0xffff_ffffint * 0xffff_ffffint) by (nonlinear_arith)
                        requires
                            0 <= row < 0x1_0000_0000int,
                            0 <= w < 0x1_0000_0000int,
                    ;
                }
                let p: u64 = row as u64 * self.width as u64 + col as u64;
                proof {
                    lemma_pixel_position(w, row as int, col as int);
                }
                if p < npix {
                    let ghost before = self.buffer@;
                    put_pixel(self.buffer, p as usize, color);
                    assert forall|b: int| 0 <= b < len implies #[trigger] self.buffer@[b] == rect_fill_upto(
                        old_px,
                        w,
                        h,
                        x as int,
                        y as int,
                        width as int,
                        height as int,
                        color,
                        row as int,
                        col + 1,
                        b,
                    ) by {
                        lemma_byte_cell(b);
                        lemma_pixel_cell(pixel_of(b), w);
                        if pixel_of(b) != p {
                            assert(self.buffer@[b] == before[b]);
                        }
                    }
                } else {
                    assert forall|b: int| 0 <= b < len implies #[trigger] self.buffer@[b] == rect_fill_upto(
                        old_px,
                        w,
                        h,
                        x as int,
                        y as int,
                        width as int,
                        height as int,
                        color,
                        row as int,
                        col + 1,
                        b,
                    ) by {
                        lemma_byte_cell(b);
                        lemma_pixel_cell(pixel_of(b), w);
                    }
                }
                col = col + 1;
            }
            row = row + 1;
        }
    }

    /// Draw rasterized glyphs left to right, the pen starting at `(x, y)`,
    /// blending `color` by each glyph's coverage; clipped to the canvas and
    /// to `clip`.
    pub fn draw_glyphs(&mut self, clip: Rect, x: i32, y: i32, glyphs: &Vec<Glyph>, color: [u8; 4])
        requires
            forall|i: int| 0 <= i < glyphs@.len() ==> (#[trigger] glyphs@[i]).wf(),
        ensures
            final(self).spec_width() == old(self).spec_width(),
            final(self).spec_height() == old(self).spec_height(),
            final(self).text_source() == old(self).text_source(),
            final(self).pixels() == text_pixels(
                old(self).pixels(),
                old(self).spec_width() as int,
                old(self).spec_height() as int,
                clip,
                glyphs@,
                x as int,
                y as int,
                color,
            ),
            unchanged_outside(
                old(self).pixels(),
                final(self).pixels(),
                old(self).spec_width() as int,
                clip,
            ),
    {
        let ghost w = self.width as int;
        let ghost h = self.height as int;
        let ghost goal = text_pixels(self.buffer@, w, h, clip, glyphs@, x as int, y as int, color);
        proof {
            lemma_text_stays_in_clip(self.buffer@, w, h, clip, glyphs@, x as int, y as int, color);
        }
        let mut pen: i64 = x as i64;
        let mut k: usize = 0;
        assert(glyphs@.skip(0) =~= glyphs@);
        while k < glyphs.len()
            invariant
                0 <= k <= glyphs@.len(),
                i32::MIN <= pen <= i32::MAX,
                w == self.width,
                h == self.height,
                self.width == old(self).width,
                self.height == old(self).height,
                self.text == old(self).text,
                forall|i: int| 0 <= i < glyphs@.len() ==> (#[trigger] glyphs@[i]).wf(),
                goal == text_pixels(
                    self.buffer@,
                    w,
                    h,
                    clip,
                    glyphs@.skip(k as int),
                    pen as int,
                    y as int,
                    color,
                ),
                goal == text_pixels(
                    old(self).buffer@,
                    w,
                    h,
                    clip,
                    glyphs@,
                    x as int,
                    y as int,
                    color,
                ),
            decreases glyphs@.len() - k,
        {
            let g = &glyphs[k];
            proof {
                assert(glyphs@.skip(k as int).drop_first() =~= glyphs@.skip(k as int + 1));
                assert(glyphs@.skip(k as int)[0] == *g);
            }
            let gx: i64 = pen + g.xmin as i64;
            let gy: i64 = y as i64 + g.ymin as i64;
            blend_glyph(self.buffer, self.width, self.height, clip, g, gx, gy, color);
            let next: i64 = pen + g.advance as i64;
            pen = if next < i32::MIN as i64 {
                i32::MIN as i64
            } else if next > i32::MAX as i64 {
                i32::MAX as i64
            } else {
                next
            };
            k = k + 1;
        }
        assert(glyphs@.skip(k as int).len() == 0);
    }

    /// Draw `text` with `color` at `size` pixels per em, the pen starting at
    /// `(x, y)`, clipped to `clip`: each character is rasterized by the
    /// canvas's text renderer and blended as in `draw_glyphs`. Without a
    /// renderer nothing is drawn.
    pub fn draw_text_clipped(
        &mut self,
        clip: Rect,
        x: i32,
        y: i32,
        text: &str,
        color: [u8; 4],
        size: u16,
    )
        ensures
            final(self).spec_width() == old(self).spec_width(),
            final(self).spec_height() == old(self).spec_height(),
            final(self).text_source() == old(self).text_source(),
            unchanged_outside(
                old(self).pixels(),
                final(self).pixels(),
                old(self).spec_width() as int,
                clip,
            ),
            !old(self).has_text() ==> final(self).pixels() == old(self).pixels(),
            old(self).has_text() ==> exists|gs: Seq<Glyph>|
                {
                    &&& gs.len() == text@.len()
                    &&& forall|i: int|
                        0 <= i < gs.len() ==> (#[trigger] gs[i]).wf() && gs[i]@ == glyph_of(
                            old(self).text_font(),
                            text@[i],
                            size,
                        )
                    &&& final(self).pixels() == text_pixels(
                        old(self).pixels(),
                        old(self).spec_width() as int,
                        old(self).spec_height() as int,
                        clip,
                        gs,
                        x as int,
                        y as int,
                        color,
                    )
                },
    {
        let renderer = match self.text {
            Some(r) => r,
            None => {
                return ;
            },
        };
        let n = text.unicode_len();
        let mut glyphs: Vec<Glyph> = Vec::new();
        let mut i: usize = 0;
        while i < n
            invariant
                0 <= i <= n,
                n == text@.len(),
                glyphs@.len() == i,
                self.text == Some(renderer),
                forall|j: int|
                    0 <= j < glyphs@.len() ==> (#[trigger] glyphs@[j]).wf() && glyphs@[j]@
                        == glyph_of(renderer.font_data(), text@[j], size),
            decreases n - i,
        {
            let c = text.get_char(i);
            glyphs.push(renderer.glyph(c, size));
            i = i + 1;
        }
        self.draw_glyphs(clip, x, y, &glyphs, color);
    }

    /// Draw `text` with `color` at `size` pixels per em, the pen starting at
    /// `(x, y)`, clipped to the canvas only.
    pub fn draw_text(&mut self, x: i32, y: i32, text: &str, color: [u8; 4], size: u16)
        ensures
            final(self).spec_width() == old(self).spec_width(),
            final(self).spec_height() == old(self).spec_height(),
            final(self).text_source() == old(self).text_source(),
            !old(self).has_text() ==> final(self).pixels() == old(self).pixels(),
            old(self).has_text() ==> exists|gs: Seq<Glyph>|
                {
                    &&& gs.len() == text@.len()
                    &&& forall|i: int|
                        0 <= i < gs.len() ==> (#[trigger] gs[i]).wf() && gs[i]@ == glyph_of(
                            old(self).text_font(),
                            text@[i],
                            size,
                        )
                    &&& final(self).pixels() == text_pixels(
                        old(self).pixels(),
                        old(self).spec_width() as int,
                        old(self).spec_height() as int,
                        old(self).bounds(),
                        gs,
                        x as int,
                        y as int,
                        color,
                    )
                },
    {
        let clip = Rect { x: 0, y: 0, width: self.width, height: self.height };
        assert(clip == self.bounds());
        self.draw_text_clipped(clip, x, y, text, color, size);
    }
}

} // verus!
