//! The CPU-side pixel framebuffer.
//!
//! A surface owns a row-major array of [`Rgba`] pixels with explicit
//! width and height (`length == width * height` always), plus the clear
//! color used by [`Surface::clear`]. All drawing operations clip against
//! the surface bounds and never fail: drawing partially or wholly
//! off-screen is an expected, silent no-op for the off-screen part.

use crate::color::{bytes_of, channel, Rgba};
use vstd::prelude::*;

verus! {

/// The abstract state of a [`Surface`].
pub ghost struct SurfaceView {
    /// The pixels, row-major: `(x, y)` lives at `y * width + x`.
    pub pixels: Seq<Rgba>,
    /// Width in pixels.
    pub width: int,
    /// Height in pixels.
    pub height: int,
    /// The color that [`Surface::clear`] fills with.
    pub clear_color: Rgba,
}

/// The pixel of `v` at column `px`, row `py`.
pub open spec fn pixel_at(v: SurfaceView, px: int, py: int) -> Rgba {
    v.pixels[py * v.width + px]
}

/// Is `(px, py)` inside the `w × h` rectangle anchored at `(x, y)`?
pub open spec fn in_rect(x: int, y: int, w: int, h: int, px: int, py: int) -> bool {
    x <= px < x + w && y <= py < y + h
}

/// A buffer of `n` pixels, all holding `c`.
pub open spec fn filled(n: int, c: Rgba) -> Seq<Rgba> {
    Seq::new(n as nat, |i: int| c)
}

proof fn lemma_row_index(w: int, h: int, px: int, py: int)
    requires
        0 <= px < w,
        0 <= py < h,
    ensures
        0 <= py * w + px,
        py * w + px < w * h,
{
    assert(0 <= py * w + px && py * w + px < w * h) by (nonlinear_arith)
        requires
            0 <= px < w,
            0 <= py < h,
    ;
}

proof fn lemma_index_unique(w: int, px1: int, py1: int, px2: int, py2: int)
    requires
        0 <= px1 < w,
        0 <= px2 < w,
        0 <= py1,
        0 <= py2,
        py1 * w + px1 == py2 * w + px2,
    ensures
        px1 == px2,
        py1 == py2,
{
    assert(py1 == py2) by (nonlinear_arith)
        requires
            0 <= px1 < w,
            0 <= px2 < w,
            0 <= py1,
            0 <= py2,
            py1 * w + px1 == py2 * w + px2,
    ;
}

fn filled_vec(n: usize, c: Rgba) -> (v: Vec<Rgba>)
    ensures
        v@ == filled(n as int, c),
{
    let mut v: Vec<Rgba> = Vec::new();
    let mut i: usize = 0;
    while i < n
        invariant
            0 <= i <= n,
            v@.len() == i,
            forall|j: int| 0 <= j < i ==> v@[j] == c,
        decreases n - i,
    {
        v.push(c);
        i += 1;
    }
    proof {
        assert(v@ =~= filled(n as int, c));
    }
    v
}

/// A CPU-resident framebuffer: row-major RGBA pixels with bounds-clipped
/// write operations.
pub struct Surface {
    pixels: Vec<Rgba>,
    width: u32,
    height: u32,
    clear_color: Rgba,
}

impl View for Surface {
    type V = SurfaceView;

    closed spec fn view(&self) -> SurfaceView {
        SurfaceView {
            pixels: self.pixels@,
            width: self.width as int,
            height: self.height as int,
            clear_color: self.clear_color,
        }
    }
}

impl Surface {
    /// The backing array holds exactly `width * height` pixels, and that
    /// count fits the machine's addressable size.
    pub open spec fn wf(&self) -> bool {
        &&& 0 <= self@.width <= u32::MAX
        &&& 0 <= self@.height <= u32::MAX
        &&& self@.pixels.len() == self@.width * self@.height
        &&& self@.width * self@.height <= usize::MAX
    }

    /// A fresh surface of `width × height`, filled with `clear_color`.
    pub fn new(width: u32, height: u32, clear_color: Rgba) -> (s: Surface)
        requires
            width as int * height as int <= usize::MAX,
        ensures
            s.wf(),
            s@.width == width as int,
            s@.height == height as int,
            s@.clear_color == clear_color,
            s@.pixels == filled(width as int * height as int, clear_color),
    {
        let n: usize = (width as usize) * (height as usize);
        Surface { pixels: filled_vec(n, clear_color), width, height, clear_color }
    }

    /// Width of the drawing buffer (in pixels).
    pub fn buffer_width(&self) -> (r: u32)
        ensures
            r as int == self@.width,
    {
        self.width
    }

    /// Height of the drawing buffer (in pixels).
    pub fn buffer_height(&self) -> (r: u32)
        ensures
            r as int == self@.height,
    {
        self.height
    }

    /// Set the clear color. The buffer itself is untouched: clearing only
    /// happens when [`Surface::clear`] is called.
    pub fn clear_color(&mut self, color: Rgba)
        requires
            old(self).wf(),
        ensures
            final(self).wf(),
            final(self)@.clear_color == color,
            final(self)@.pixels == old(self)@.pixels,
            final(self)@.width == old(self)@.width,
            final(self)@.height == old(self)@.height,
    {
        self.clear_color = color;
    }

    /// Overwrite every pixel with the current clear color.
    #[verifier::loop_isolation(false)]
    pub fn clear(&mut self)
        requires
            old(self).wf(),
        ensures
            final(self).wf(),
            final(self)@.width == old(self)@.width,
            final(self)@.height == old(self)@.height,
            final(self)@.clear_color == old(self)@.clear_color,
            final(self)@.pixels == filled(
                old(self)@.width * old(self)@.height,
                old(self)@.clear_color,
            ),
    {
        let n: usize = self.pixels.len();
        let mut i: usize = 0;
        while i < n
            invariant
                self.width == old(self).width,
                self.height == old(self).height,
                self.clear_color == old(self).clear_color,
                self.pixels@.len() == n,
                0 <= i <= n,
                forall|j: int| 0 <= j < i ==> self.pixels@[j] == self.clear_color,
            decreases n - i,
        {
            let c: Rgba = self.clear_color;
            self.pixels.set(i, c);
            i += 1;
        }
        proof {
            assert(self.pixels@ =~= filled(old(self)@.width * old(self)@.height,
                old(self)@.clear_color));
        }
    }

    /// Reallocate the buffer to `new_width × new_height` and fill it with
    /// the current clear color. Previous contents are discarded.
    pub fn set_framebuffer_size(&mut self, new_width: u32, new_height: u32)
        requires
            old(self).wf(),
            new_width as int * new_height as int <= usize::MAX,
        ensures
            final(self).wf(),
            final(self)@.width == new_width as int,
            final(self)@.height == new_height as int,
            final(self)@.clear_color == old(self)@.clear_color,
            final(self)@.pixels == filled(
                new_width as int * new_height as int,
                old(self)@.clear_color,
            ),
    {
        let n: usize = (new_width as usize) * (new_height as usize);
        let c: Rgba = self.clear_color;
        self.pixels = filled_vec(n, c);
        self.width = new_width;
        self.height = new_height;
    }

    /// Write one pixel. Out-of-range coordinates are a silent no-op.
    pub fn draw_pixel(&mut self, x: i32, y: i32, color: Rgba)
        requires
            old(self).wf(),
        ensures
            final(self).wf(),
            final(self)@.width == old(self)@.width,
            final(self)@.height == old(self)@.height,
            final(self)@.clear_color == old(self)@.clear_color,
            (0 <= x as int && (x as int) < old(self)@.width && 0 <= y as int && (y as int)
                < old(self)@.height) ==> final(self)@.pixels == old(self)@.pixels.update(
                y as int * old(self)@.width + x as int,
                color,
            ),
            !(0 <= x as int && (x as int) < old(self)@.width && 0 <= y as int && (y as int)
                < old(self)@.height) ==> final(self)@.pixels == old(self)@.pixels,
    {
        if x >= 0 && y >= 0 {
            let xu: u32 = x as u32;
            let yu: u32 = y as u32;
            if xu < self.width && yu < self.height {
                proof {
                    lemma_row_index(self@.width, self@.height, x as int, y as int);
                }
                let idx: usize = (yu as usize) * (self.width as usize) + (xu as usize);
                self.pixels.set(idx, color);
            }
        }
    }

    /// Fill the rectangle `[x, x+w) × [y, y+h)` with `color`, clipped to
    /// the surface bounds. The off-screen part, if any, is silently
    /// skipped; a fully off-screen or empty rectangle changes nothing.
    #[verifier::loop_isolation(false)]
    pub fn draw_rect(&mut self, x: i32, y: i32, w: u32, h: u32, color: Rgba)
        requires
            old(self).wf(),
        ensures
            final(self).wf(),
            final(self)@.width == old(self)@.width,
            final(self)@.height == old(self)@.height,
            final(self)@.clear_color == old(self)@.clear_color,
            final(self)@.pixels.len() == old(self)@.pixels.len(),
            forall|px: int, py: int|
                0 <= px < old(self)@.width && 0 <= py < old(self)@.height
                    ==> #[trigger] pixel_at(final(self)@, px, py) == (if in_rect(
                    x as int,
                    y as int,
                    w as int,
                    h as int,
                    px,
                    py,
                ) {
                    color
                } else {
                    pixel_at(old(self)@, px, py)
                }),
    {
        let wd64: i64 = self.width as i64;
        let ht64: i64 = self.height as i64;
        let xl64: i64 = if x < 0 {
            0
        } else {
            x as i64
        };
        let yl64: i64 = if y < 0 {
            0
        } else {
            y as i64
        };
        let xr0: i64 = x as i64 + w as i64;
        let xr64: i64 = if xr0 > wd64 {
            wd64
        } else {
            xr0
        };
        let yr0: i64 = y as i64 + h as i64;
        let yr64: i64 = if yr0 > ht64 {
            ht64
        } else {
            yr0
        };
        if xl64 >= xr64 || yl64 >= yr64 {
            return;
        }
        let xs: usize = xl64 as usize;
        let xe: usize = xr64 as usize;
        let ye: usize = yr64 as usize;
        let wd: usize = self.width as usize;
        let mut py: usize = yl64 as usize;
        while py < ye
            invariant
                self.width == old(self).width,
                self.height == old(self).height,
                self.clear_color == old(self).clear_color,
                self.pixels@.len() == old(self).pixels@.len(),
                yl64 as int <= py as int <= ye as int,
                forall|qx: int, qy: int|
                    0 <= qx < old(self)@.width && 0 <= qy < old(self)@.height
                        ==> #[trigger] pixel_at(self@, qx, qy) == (if in_rect(
                        x as int,
                        y as int,
                        w as int,
                        h as int,
                        qx,
                        qy,
                    ) && qy < py as int {
                        color
                    } else {
                        pixel_at(old(self)@, qx, qy)
                    }),
            decreases ye - py,
        {
            let mut px: usize = xs;
            while px < xe
                invariant
                    self.width == old(self).width,
                    self.height == old(self).height,
                    self.clear_color == old(self).clear_color,
                    self.pixels@.len() == old(self).pixels@.len(),
                    xs as int <= px as int <= xe as int,
                    forall|qx: int, qy: int|
                        0 <= qx < old(self)@.width && 0 <= qy < old(self)@.height
                            ==> #[trigger] pixel_at(self@, qx, qy) == (if in_rect(
                            x as int,
                            y as int,
                            w as int,
                            h as int,
                            qx,
                            qy,
                        ) && (qy < py as int || (qy == py as int && qx < px as int)) {
                            color
                        } else {
                            pixel_at(old(self)@, qx, qy)
                        }),
                decreases xe - px,
            {
                proof {
                    lemma_row_index(old(self)@.width, old(self)@.height, px as int, py as int);
                }
                let ghost view0 = self@;
                let idx: usize = py * wd + px;
                self.pixels.set(idx, color);
                proof {
                    assert forall|qx: int, qy: int|
                        0 <= qx < old(self)@.width && 0 <= qy < old(self)@.height
                            implies #[trigger] pixel_at(self@, qx, qy) == (if in_rect(
                            x as int,
                            y as int,
                            w as int,
                            h as int,
                            qx,
                            qy,
                        ) && (qy < py as int || (qy == py as int && qx < px as int + 1)) {
                            color
                        } else {
                            pixel_at(old(self)@, qx, qy)
                        }) by {
                        lemma_row_index(old(self)@.width, old(self)@.height, qx, qy);
                        assert(pixel_at(view0, qx, qy) == (if in_rect(
                            x as int,
                            y as int,
                            w as int,
                            h as int,
                            qx,
                            qy,
                        ) && (qy < py as int || (qy == py as int && qx < px as int)) {
                            color
                        } else {
                            pixel_at(old(self)@, qx, qy)
                        }));
                        if qy * old(self)@.width + qx == py as int * old(self)@.width
                            + px as int {
                            lemma_index_unique(
                                old(self)@.width,
                                qx,
                                qy,
                                px as int,
                                py as int,
                            );
                        }
                    }
                }
                px += 1;
            }
            py += 1;
        }
    }

    /// Copy a caller-supplied `w × h` row-major pixel block to `(x, y)`,
    /// clipped to the surface bounds; partially off-screen blits copy
    /// only the visible sub-rectangle, row by row, keeping the source's
    /// row stride. A source of any other length than `w * h` pixels is a
    /// silent no-op, as is a fully clipped destination.
    #[verifier::loop_isolation(false)]
    pub fn draw_pixels(&mut self, x: i32, y: i32, w: u32, h: u32, pixels: &[Rgba])
        requires
            old(self).wf(),
        ensures
            final(self).wf(),
            final(self)@.width == old(self)@.width,
            final(self)@.height == old(self)@.height,
            final(self)@.clear_color == old(self)@.clear_color,
            final(self)@.pixels.len() == old(self)@.pixels.len(),
            pixels@.len() == w as int * h as int ==> forall|px: int, py: int|
                0 <= px < old(self)@.width && 0 <= py < old(self)@.height
                    ==> #[trigger] pixel_at(final(self)@, px, py) == (if in_rect(
                    x as int,
                    y as int,
                    w as int,
                    h as int,
                    px,
                    py,
                ) {
                    pixels@[(py - y as int) * w as int + (px - x as int)]
                } else {
                    pixel_at(old(self)@, px, py)
                }),
            pixels@.len() != w as int * h as int ==> final(self)@.pixels == old(self)@.pixels,
    {
        proof {
            lemma_mul_bounds(w as int, h as int, u32::MAX as int, u32::MAX as int);
        }
        let need: u64 = (w as u64) * (h as u64);
        if pixels.len() as u64 != need {
            return;
        }
        let wd64: i64 = self.width as i64;
        let ht64: i64 = self.height as i64;
        let xl64: i64 = if x < 0 {
            0
        } else {
            x as i64
        };
        let yl64: i64 = if y < 0 {
            0
        } else {
            y as i64
        };
        let xr0: i64 = x as i64 + w as i64;
        let xr64: i64 = if xr0 > wd64 {
            wd64
        } else {
            xr0
        };
        let yr0: i64 = y as i64 + h as i64;
        let yr64: i64 = if yr0 > ht64 {
            ht64
        } else {
            yr0
        };
        if xl64 >= xr64 || yl64 >= yr64 {
            return;
        }
        let xs: usize = xl64 as usize;
        let xe: usize = xr64 as usize;
        let ye: usize = yr64 as usize;
        let wd: usize = self.width as usize;
        let ws: usize = w as usize;
        let mut py: usize = yl64 as usize;
        while py < ye
            invariant
                self.width == old(self).width,
                self.height == old(self).height,
                self.clear_color == old(self).clear_color,
                self.pixels@.len() == old(self).pixels@.len(),
                yl64 as int <= py as int <= ye as int,
                forall|qx: int, qy: int|
                    0 <= qx < old(self)@.width && 0 <= qy < old(self)@.height
                        ==> #[trigger] pixel_at(self@, qx, qy) == (if in_rect(
                        x as int,
                        y as int,
                        w as int,
                        h as int,
                        qx,
                        qy,
                    ) && qy < py as int {
                        pixels@[(qy - y as int) * w as int + (qx - x as int)]
                    } else {
                        pixel_at(old(self)@, qx, qy)
                    }),
            decreases ye - py,
        {
            let mut px: usize = xs;
            while px < xe
                invariant
                    self.width == old(self).width,
                    self.height == old(self).height,
                    self.clear_color == old(self).clear_color,
                    self.pixels@.len() == old(self).pixels@.len(),
                    xs as int <= px as int <= xe as int,
                    forall|qx: int, qy: int|
                        0 <= qx < old(self)@.width && 0 <= qy < old(self)@.height
                            ==> #[trigger] pixel_at(self@, qx, qy) == (if in_rect(
                            x as int,
                            y as int,
                            w as int,
                            h as int,
                            qx,
                            qy,
                        ) && (qy < py as int || (qy == py as int && qx < px as int)) {
                            pixels@[(qy - y as int) * w as int + (qx - x as int)]
                        } else {
                            pixel_at(old(self)@, qx, qy)
                        }),
                decreases xe - px,
            {
                proof {
                    lemma_row_index(old(self)@.width, old(self)@.height, px as int, py as int);
                    lemma_row_index(
                        w as int,
                        h as int,
                        px as int - x as int,
                        py as int - y as int,
                    );
                }
                let sy: usize = (py as i64 - y as i64) as usize;
                let sx: usize = (px as i64 - x as i64) as usize;
                let sidx: usize = sy * ws + sx;
                let c: Rgba = pixels[sidx];
                let ghost view0 = self@;
                let idx: usize = py * wd + px;
                self.pixels.set(idx, c);
                proof {
                    assert forall|qx: int, qy: int|
                        0 <= qx < old(self)@.width && 0 <= qy < old(self)@.height
                            implies #[trigger] pixel_at(self@, qx, qy) == (if in_rect(
                            x as int,
                            y as int,
                            w as int,
                            h as int,
                            qx,
                            qy,
                        ) && (qy < py as int || (qy == py as int && qx < px as int + 1)) {
                            pixels@[(qy - y as int) * w as int + (qx - x as int)]
                        } else {
                            pixel_at(old(self)@, qx, qy)
                        }) by {
                        lemma_row_index(old(self)@.width, old(self)@.height, qx, qy);
                        assert(pixel_at(view0, qx, qy) == (if in_rect(
                            x as int,
                            y as int,
                            w as int,
                            h as int,
                            qx,
                            qy,
                        ) && (qy < py as int || (qy == py as int && qx < px as int)) {
                            pixels@[(qy - y as int) * w as int + (qx - x as int)]
                        } else {
                            pixel_at(old(self)@, qx, qy)
                        }));
                        if qy * old(self)@.width + qx == py as int * old(self)@.width
                            + px as int {
                            lemma_index_unique(
                                old(self)@.width,
                                qx,
                                qy,
                                px as int,
                                py as int,
                            );
                        }
                    }
                }
                px += 1;
            }
            py += 1;
        }
    }

    /// Replace the whole buffer with `pixels` when its length is exactly
    /// `width * height`; any other length is a silent no-op, so the
    /// buffer is never left partially overwritten.
    #[verifier::loop_isolation(false)]
    pub fn draw_screen(&mut self, pixels: &[Rgba])
        requires
            old(self).wf(),
        ensures
            final(self).wf(),
            final(self)@.width == old(self)@.width,
            final(self)@.height == old(self)@.height,
            final(self)@.clear_color == old(self)@.clear_color,
            pixels@.len() == old(self)@.width * old(self)@.height ==> final(self)@.pixels
                == pixels@,
            pixels@.len() != old(self)@.width * old(self)@.height ==> final(self)@.pixels
                == old(self)@.pixels,
    {
        if pixels.len() != self.pixels.len() {
            return;
        }
        let n: usize = self.pixels.len();
        let mut i: usize = 0;
        while i < n
            invariant
                self.width == old(self).width,
                self.height == old(self).height,
                self.clear_color == old(self).clear_color,
                self.pixels@.len() == n,
                0 <= i <= n,
                forall|j: int| 0 <= j < i ==> self.pixels@[j] == pixels@[j],
            decreases n - i,
        {
            let c: Rgba = pixels[i];
            self.pixels.set(i, c);
            i += 1;
        }
        proof {
            assert(self.pixels@ =~= pixels@);
        }
    }

    /// The buffer as a flat byte vector for upload: four bytes per pixel
    /// in `r`, `g`, `b`, `a` order, rows in order.
    pub fn as_bytes(&self) -> (r: Vec<u8>)
        requires
            self.wf(),
        ensures
            r@ == bytes_of(self@.pixels),
    {
        let n: usize = self.pixels.len();
        let mut bs: Vec<u8> = Vec::new();
        let mut i: usize = 0;
        while i < n
            invariant
                0 <= i <= n,
                n == self.pixels@.len(),
                bs@.len() == 4 * i,
                forall|j: int| 0 <= j < i ==> #[trigger] pix_encoded(bs@, self.pixels@, j),
            decreases n - i,
        {
            let p: Rgba = self.pixels[i];
            let ghost bs0 = bs@;
            bs.push(p.r);
            bs.push(p.g);
            bs.push(p.b);
            bs.push(p.a);
            proof {
                assert forall|j: int|
                    0 <= j < i + 1 implies #[trigger] pix_encoded(bs@, self.pixels@, j) by {
                    if j < i as int {
                        assert(pix_encoded(bs0, self.pixels@, j));
                        assert(bs@[4 * j] == bs0[4 * j]);
                        assert(bs@[4 * j + 1] == bs0[4 * j + 1]);
                        assert(bs@[4 * j + 2] == bs0[4 * j + 2]);
                        assert(bs@[4 * j + 3] == bs0[4 * j + 3]);
                    } else {
                        assert(bs@[4 * (i as int)] == p.r);
                        assert(bs@[4 * (i as int) + 1] == p.g);
                        assert(bs@[4 * (i as int) + 2] == p.b);
                        assert(bs@[4 * (i as int) + 3] == p.a);
                    }
                }
            }
            i += 1;
        }
        proof {
            let ps = self.pixels@;
            let m: int = ps.len() as int;
            assert forall|idx: int| 0 <= idx < 4 * m implies bs@[idx] == bytes_of(ps)[idx] by {
                let j: int = idx / 4;
                let c: int = idx % 4;
                assert(idx == 4 * j + c && 0 <= c < 4);
                assert(0 <= j < m);
                assert(pix_encoded(bs@, ps, j));
                assert(bytes_of(ps)[idx] == channel(ps[j], c));
            }
            assert(bs@ =~= bytes_of(ps));
        }
        bs
    }

    /// The framebuffer's contents, row-major.
    pub fn get_draw_buffer(&self) -> (r: &Vec<Rgba>)
        ensures
            r@ == self@.pixels,
    {
        &self.pixels
    }
}

/// Are the four bytes of pixel `j` of `ps` laid out at `4j .. 4j+4` of
/// `bs`?
spec fn pix_encoded(bs: Seq<u8>, ps: Seq<Rgba>, j: int) -> bool {
    bs[4 * j] == ps[j].r && bs[4 * j + 1] == ps[j].g && bs[4 * j + 2] == ps[j].b && bs[4 * j
        + 3] == ps[j].a
}

proof fn lemma_mul_bounds(a: int, b: int, am: int, bm: int)
    requires
        0 <= a <= am,
        0 <= b <= bm,
    ensures
        0 <= a * b,
        a * b <= am * bm,
{
    assert(0 <= a * b && a * b <= am * bm) by (nonlinear_arith)
        requires
            0 <= a <= am,
            0 <= b <= bm,
    ;
}

/// Law: resizing a surface and then clearing it gives, pixel for pixel,
/// the buffer of a freshly constructed surface of the same size and clear
/// color — both are `filled(width * height, clear_color)`.
pub proof fn lemma_resize_then_clear_matches_fresh(a: SurfaceView, b: SurfaceView)
    requires
        a.width == b.width,
        a.height == b.height,
        a.clear_color == b.clear_color,
        a.pixels == filled(a.width * a.height, a.clear_color),
        b.pixels == filled(b.width * b.height, b.clear_color),
    ensures
        a.pixels == b.pixels,
{
}

} // verus!
