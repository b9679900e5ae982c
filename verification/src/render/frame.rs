//! An in-memory canvas: a frame of RGBA pixels, four bytes each, stored row
//! by row from the top.

use vstd::prelude::*;
use crate::render::canvas::{Canvas, Color};
use crate::render::circle::{
    circle_state, distance, is_octant_image, lemma_circle_bounds, lemma_circle_cover,
    lemma_circle_done, lemma_circle_reach, lemma_circle_start, lemma_circle_step, on_circle,
    smaller,
};
use crate::render::line::{
    lemma_line_bounds, lemma_line_paint, lemma_line_start, lemma_line_step, line_state,
    on_segment, span, steps_to,
};

verus! {

/// A cell of a `w` by `h` grid has its place within the grid's row-major
/// order.
proof fn lemma_cell_index(w: int, h: int, x: int, y: int)
    requires
        0 <= x < w,
        0 <= y < h,
    ensures
        0 <= y * w + x < w * h,
        y * w + x <= (h - 1) * w + (w - 1),
{
    assert(y * w <= (h - 1) * w) by (nonlinear_arith)
        requires
            0 <= y <= h - 1,
            0 <= w,
    ;
    assert((h - 1) * w + w == w * h) by (nonlinear_arith);
    assert(0 <= y * w) by (nonlinear_arith)
        requires
            0 <= y,
            0 <= w,
    ;
}

/// Two cells of a grid with the same place in row-major order are the same
/// cell.
proof fn lemma_cell_index_injective(w: int, x1: int, y1: int, x2: int, y2: int)
    requires
        0 <= x1 < w,
        0 <= x2 < w,
        0 <= y1,
        0 <= y2,
        y1 * w + x1 == y2 * w + x2,
    ensures
        x1 == x2,
        y1 == y2,
{
    if y1 < y2 {
        assert((y1 + 1) * w <= y2 * w) by (nonlinear_arith)
            requires
                y1 + 1 <= y2,
                0 <= w,
        ;
        assert((y1 + 1) * w == y1 * w + w) by (nonlinear_arith);
    } else if y2 < y1 {
        assert((y2 + 1) * w <= y1 * w) by (nonlinear_arith)
            requires
                y2 + 1 <= y1,
                0 <= w,
        ;
        assert((y2 + 1) * w == y2 * w + w) by (nonlinear_arith);
    }
}

/// The colour stored in `bytes` for the pixel with row-major index `k`.
pub open spec fn color_at(bytes: Seq<u8>, k: int) -> Color {
    Color(bytes[4 * k], bytes[4 * k + 1], bytes[4 * k + 2], bytes[4 * k + 3])
}

/// A frame of `width` by `height` RGBA pixels held in memory.
pub struct FrameBuffer {
    width: u32,
    height: u32,
    data: Vec<u8>,
}

impl FrameBuffer {
    #[verifier::type_invariant]
    spec fn well_formed(&self) -> bool {
        self.data.len() == 4 * self.width * self.height
    }

    /// Width in pixels.
    pub closed spec fn spec_width(&self) -> int {
        self.width as int
    }

    /// Height in pixels.
    pub closed spec fn spec_height(&self) -> int {
        self.height as int
    }

    /// The frame's bytes: four per pixel (red, green, blue, alpha), row by
    /// row from the top, each row from the left.
    pub closed spec fn bytes(&self) -> Seq<u8> {
        self.data@
    }

    /// Whether `(x, y)` is a pixel of the frame.
    pub open spec fn contains(&self, x: int, y: int) -> bool {
        0 <= x < self.spec_width() && 0 <= y < self.spec_height()
    }

    /// The colour of the pixel in column `x` of row `y`.
    pub open spec fn pixel(&self, x: int, y: int) -> Color {
        color_at(self.bytes(), y * self.spec_width() + x)
    }

    /// The four bytes of a pixel of the frame lie within the frame's bytes.
    proof fn lemma_pixel_bytes(&self, x: int, y: int)
        requires
            self.well_formed(),
            self.contains(x, y),
        ensures
            0 <= y * self.width <= y * self.width + x,
            4 * (y * self.width + x) + 3 < self.data.len(),
    {
        let w = self.width as int;
        let h = self.height as int;
        lemma_cell_index(w, h, x, y);
        assert(0 <= y * w) by (nonlinear_arith)
            requires
                0 <= y,
                0 <= w,
        ;
        assert(4 * w * h == 4 * (w * h)) by (nonlinear_arith);
    }

    /// A frame of `width` by `height` pixels, every byte zero. `None` when
    /// its bytes would not fit in memory.
    pub fn new(width: u32, height: u32) -> (made: Option<FrameBuffer>)
        ensures
            made is Some <==> 4 * width * height <= isize::MAX,
            made matches Some(frame) ==> {
                &&& frame.spec_width() == width
                &&& frame.spec_height() == height
                &&& frame.bytes().len() == 4 * width * height
                &&& forall|i: int| 0 <= i < frame.bytes().len() ==> frame.bytes()[i] == 0
            },
    {
        assert(width as u64 * height as u64 <= 0xffff_ffff * 0xffff_ffff) by (nonlinear_arith)
            requires
                0 <= width as u64 <= 0xffff_ffff,
                0 <= height as u64 <= 0xffff_ffff,
        ;
        let cells: u64 = width as u64 * height as u64;
        assert(4 * width * height == 4 * cells) by (nonlinear_arith)
            requires
                cells == width * height,
        ;
        if cells > (isize::MAX as u64) / 4 {
            return None;
        }
        let len: usize = 4 * (cells as usize);
        let mut data: Vec<u8> = Vec::new();
        let mut i: usize = 0;
        while i < len
            invariant
                i <= len,
                data@.len() == i,
                forall|k: int| 0 <= k < i ==> data@[k] == 0,
            decreases len - i,
        {
            data.push(0);
            i += 1;
        }
        Some(FrameBuffer { width, height, data })
    }

    /// The frame's bytes, as they are handed to a display.
    pub fn as_bytes(&self) -> (bytes: &[u8])
        ensures
            bytes@ == self.bytes(),
            bytes@.len() == 4 * self.spec_width() * self.spec_height(),
    {
        proof {
            use_type_invariant(self);
        }
        self.data.as_slice()
    }

    /// The colour of the pixel in column `x` of row `y`; `None` outside the
    /// frame.
    pub fn pixel_at(&self, x: u32, y: u32) -> (found: Option<Color>)
        ensures
            found == if self.contains(x as int, y as int) {
                Some(self.pixel(x as int, y as int))
            } else {
                None
            },
    {
        proof {
            use_type_invariant(self);
        }
        if x >= self.width || y >= self.height {
            return None;
        }
        proof {
            self.lemma_pixel_bytes(x as int, y as int);
        }
        let k: usize = y as usize * self.width as usize + x as usize;
        let base: usize = 4 * k;
        Some(Color(self.data[base], self.data[base + 1], self.data[base + 2], self.data[base + 3]))
    }

    /// Paints the pixel in column `x` of row `y`.
    fn plot(&mut self, x: u32, y: u32, color: Color)
        requires
            old(self).contains(x as int, y as int),
        ensures
            final(self).spec_width() == old(self).spec_width(),
            final(self).spec_height() == old(self).spec_height(),
            final(self).pixel(x as int, y as int) == color,
            forall|a: int, b: int|
                old(self).contains(a, b) && !(a == x && b == y) ==> #[trigger] final(self).pixel(
                    a,
                    b,
                ) == old(self).pixel(a, b),
    {
        proof {
            use_type_invariant(&*self);
            self.lemma_pixel_bytes(x as int, y as int);
        }
        let k: usize = y as usize * self.width as usize + x as usize;
        let base: usize = 4 * k;
        self.data[base] = color.0;
        self.data[base + 1] = color.1;
        self.data[base + 2] = color.2;
        self.data[base + 3] = color.3;
        proof {
            assert forall|a: int, b: int| old(self).contains(a, b) && !(a == x && b == y) implies
                #[trigger] self.pixel(a, b) == old(self).pixel(a, b) by {
                if b * self.width + a == y * self.width + x {
                    lemma_cell_index_injective(self.width as int, a, b, x as int, y as int);
                }
                old(self).lemma_pixel_bytes(a, b);
            }
        }
    }
}

/// Whether `(a, b)` lies in the rectangle with top-left corner `(x, y)`,
/// width `w` and height `h`.
pub open spec fn in_rect(x: int, y: int, w: int, h: int, a: int, b: int) -> bool {
    x <= a < x + w && y <= b < y + h
}

impl FrameBuffer {
    /// Paints the pixel `(x, y)` if the frame has it.
    fn plot_clipped(&mut self, x: i64, y: i64, color: Color)
        ensures
            final(self).spec_width() == old(self).spec_width(),
            final(self).spec_height() == old(self).spec_height(),
            forall|a: int, b: int|
                old(self).contains(a, b) ==> #[trigger] final(self).pixel(a, b) == if a == x && b
                    == y {
                    color
                } else {
                    old(self).pixel(a, b)
                },
    {
        if 0 <= x && x < self.width as i64 && 0 <= y && y < self.height as i64 {
            self.plot(x as u32, y as u32, color);
        }
    }
    /// Paints the mirror images of the point at offsets `(x, y)` from
    /// `(cx, cy)` in all eight octants.
    fn plot_octants(&mut self, cx: i64, cy: i64, x: i64, y: i64, color: Color)
        requires
            -0x8000_0000 <= cx <= 0x7fff_ffff,
            -0x8000_0000 <= cy <= 0x7fff_ffff,
            0 <= x <= 0x8000_0000,
            0 <= y <= 0x8000_0000,
        ensures
            final(self).spec_width() == old(self).spec_width(),
            final(self).spec_height() == old(self).spec_height(),
            forall|p: int, q: int|
                old(self).contains(p, q) ==> #[trigger] final(self).pixel(p, q)
                    == if is_octant_image(cx as int, cy as int, x as int, y as int, p, q) {
                    color
                } else {
                    old(self).pixel(p, q)
                },
    {
        self.plot_clipped(cx + x, cy + y, color);
        self.plot_clipped(cx - x, cy + y, color);
        self.plot_clipped(cx + x, cy - y, color);
        self.plot_clipped(cx - x, cy - y, color);
        self.plot_clipped(cx + y, cy + x, color);
        self.plot_clipped(cx - y, cy + x, color);
        self.plot_clipped(cx + y, cy - x, color);
        self.plot_clipped(cx - y, cy - x, color);
    }

    /// Paints the four points at distance `r` from `(cx, cy)` along the
    /// axes.
    fn plot_cardinals(&mut self, cx: i64, cy: i64, r: i64, color: Color)
        requires
            -0x8000_0000 <= cx <= 0x7fff_ffff,
            -0x8000_0000 <= cy <= 0x7fff_ffff,
            0 < r <= 0x8000_0000,
        ensures
            final(self).spec_width() == old(self).spec_width(),
            final(self).spec_height() == old(self).spec_height(),
            forall|p: int, q: int|
                old(self).contains(p, q) ==> #[trigger] final(self).pixel(p, q)
                    == if is_octant_image(cx as int, cy as int, 0, r as int, p, q) {
                    color
                } else {
                    old(self).pixel(p, q)
                },
    {
        self.plot_clipped(cx, cy + r, color);
        self.plot_clipped(cx, cy - r, color);
        self.plot_clipped(cx + r, cy, color);
        self.plot_clipped(cx - r, cy, color);
    }
}

impl Canvas for FrameBuffer {
    fn size(&self) -> (size: (u32, u32))
        ensures
            size.0 == self.spec_width(),
            size.1 == self.spec_height(),
    {
        (self.width, self.height)
    }

    /// Paints every pixel of the frame with `color`.
    fn clear(&mut self, color: Color)
        ensures
            final(self).spec_width() == old(self).spec_width(),
            final(self).spec_height() == old(self).spec_height(),
            forall|a: int, b: int|
                old(self).contains(a, b) ==> #[trigger] final(self).pixel(a, b) == color,
    {
        proof {
            use_type_invariant(&*self);
        }
        let len: usize = self.data.len();
        let mut base: usize = 0;
        while len - base >= 4
            invariant
                len == self.data.len(),
                self.width == old(self).width,
                self.height == old(self).height,
                base % 4 == 0,
                base <= len,
                forall|k: int| 0 <= k && 4 * k < base ==> #[trigger] color_at(self.data@, k) == color,
            decreases len - base,
        {
            proof {
                use_type_invariant(&*self);
            }
            let ghost before = self.data@;
            self.data[base] = color.0;
            self.data[base + 1] = color.1;
            self.data[base + 2] = color.2;
            self.data[base + 3] = color.3;
            proof {
                assert forall|k: int| 0 <= k && 4 * k < base + 4 implies #[trigger] color_at(
                    self.data@,
                    k,
                ) == color by {
                    if 4 * k < base {
                        assert(color_at(before, k) == color);
                    }
                }
            }
            base += 4;
        }
        proof {
            assert forall|a: int, b: int| old(self).contains(a, b) implies #[trigger] self.pixel(
                a,
                b,
            ) == color by {
                self.lemma_pixel_bytes(a, b);
            }
        }
    }

    /// Paints the part of the rectangle that lies within the frame. A
    /// rectangle without width or height paints nothing.
    fn fill_rect(&mut self, x: i32, y: i32, w: i32, h: i32, color: Color)
        ensures
            final(self).spec_width() == old(self).spec_width(),
            final(self).spec_height() == old(self).spec_height(),
            forall|a: int, b: int|
                old(self).contains(a, b) ==> #[trigger] final(self).pixel(a, b) == if in_rect(
                    x as int,
                    y as int,
                    w as int,
                    h as int,
                    a,
                    b,
                ) {
                    color
                } else {
                    old(self).pixel(a, b)
                },
    {
        let fw: i64 = self.width as i64;
        let fh: i64 = self.height as i64;
        let x0: i64 = if x < 0 {
            0
        } else {
            x as i64
        };
        let y0: i64 = if y < 0 {
            0
        } else {
            y as i64
        };
        let x1: i64 = if x as i64 + w as i64 > fw {
            fw
        } else {
            x as i64 + w as i64
        };
        let y1: i64 = if y as i64 + h as i64 > fh {
            fh
        } else {
            y as i64 + h as i64
        };
        let mut yy: i64 = y0;
        while yy < y1
            invariant
                self.spec_width() == old(self).spec_width(),
                self.spec_height() == old(self).spec_height(),
                fw == self.spec_width(),
                fh == self.spec_height(),
                x0 == if x < 0 { 0 } else { x as int },
                y0 == if y < 0 { 0 } else { y as int },
                x1 == if x + w > fw { fw as int } else { x + w },
                y1 == if y + h > fh { fh as int } else { y + h },
                y0 <= yy,
                yy <= y1 || yy == y0,
                forall|a: int, b: int|
                    old(self).contains(a, b) ==> #[trigger] self.pixel(a, b) == if x0 <= a < x1
                        && y0 <= b < yy {
                        color
                    } else {
                        old(self).pixel(a, b)
                    },
            decreases y1 - yy,
        {
            let mut xx: i64 = x0;
            while xx < x1
                invariant
                    self.spec_width() == old(self).spec_width(),
                    self.spec_height() == old(self).spec_height(),
                    fw == self.spec_width(),
                    fh == self.spec_height(),
                    x0 == if x < 0 { 0 } else { x as int },
                    y0 == if y < 0 { 0 } else { y as int },
                    x1 == if x + w > fw { fw as int } else { x + w },
                    y1 == if y + h > fh { fh as int } else { y + h },
                    y0 <= yy < y1,
                    x0 <= xx,
                    xx <= x1 || xx == x0,
                    forall|a: int, b: int|
                        old(self).contains(a, b) ==> #[trigger] self.pixel(a, b) == if (x0 <= a
                            < x1 && y0 <= b < yy) || (x0 <= a < xx && b == yy) {
                            color
                        } else {
                            old(self).pixel(a, b)
                        },
                decreases x1 - xx,
            {
                self.plot(xx as u32, yy as u32, color);
                xx += 1;
            }
            yy += 1;
        }
    }

    /// Paints the pixels of the segment from `(x1, y1)` to `(x2, y2)` that
    /// lie within the frame, both ends included.
    fn draw_line(&mut self, x1: i32, y1: i32, x2: i32, y2: i32, color: Color)
        ensures
            final(self).spec_width() == old(self).spec_width(),
            final(self).spec_height() == old(self).spec_height(),
            forall|p: int, q: int|
                old(self).contains(p, q) ==> #[trigger] final(self).pixel(p, q) == if on_segment(
                    x1 as int,
                    y1 as int,
                    x2 as int,
                    y2 as int,
                    p,
                    q,
                ) {
                    color
                } else {
                    old(self).pixel(p, q)
                },
    {
        let mut x: i64 = x1 as i64;
        let mut y: i64 = y1 as i64;
        let dx: i64 = if x1 < x2 {
            x2 as i64 - x1 as i64
        } else {
            x1 as i64 - x2 as i64
        };
        let sx: i64 = if x1 < x2 {
            1
        } else {
            -1
        };
        let dy: i64 = if y1 < y2 {
            y1 as i64 - y2 as i64
        } else {
            y2 as i64 - y1 as i64
        };
        let sy: i64 = if y1 < y2 {
            1
        } else {
            -1
        };
        let mut err: i64 = dx + dy;
        let ghost mut i: int = 0;
        let ghost mut j: int = 0;
        let ghost mut ib: int = 0;
        let ghost mut ja: int = 0;
        proof {
            lemma_line_start(x1 as int, y1 as int, x2 as int, y2 as int);
        }
        self.plot_clipped(x, y, color);
        proof {
            assert forall|p: int, q: int| old(self).contains(p, q) implies #[trigger] self.pixel(
                p,
                q,
            ) == if on_segment(x1 as int, y1 as int, x2 as int, y2 as int, p, q) && steps_to(
                x1 as int,
                y1 as int,
                x2 as int,
                y2 as int,
                p,
                q,
            ) <= 0 {
                color
            } else {
                old(self).pixel(p, q)
            } by {
                lemma_line_paint(
                    x1 as int,
                    y1 as int,
                    x2 as int,
                    y2 as int,
                    x as int,
                    y as int,
                    i,
                    j,
                    ib,
                    ja,
                    err as int,
                    p,
                    q,
                );
            }
        }
        loop
            invariant
                self.spec_width() == old(self).spec_width(),
                self.spec_height() == old(self).spec_height(),
                dx == span(x1 as int, x2 as int),
                dy == -span(y1 as int, y2 as int),
                sx == if x1 < x2 { 1int } else { -1int },
                sy == if y1 < y2 { 1int } else { -1int },
                line_state(
                    x1 as int,
                    y1 as int,
                    x2 as int,
                    y2 as int,
                    x as int,
                    y as int,
                    i,
                    j,
                    ib,
                    ja,
                    err as int,
                ),
                forall|p: int, q: int|
                    old(self).contains(p, q) ==> #[trigger] self.pixel(p, q) == if on_segment(
                        x1 as int,
                        y1 as int,
                        x2 as int,
                        y2 as int,
                        p,
                        q,
                    ) && steps_to(x1 as int, y1 as int, x2 as int, y2 as int, p, q) <= steps_to(
                        x1 as int,
                        y1 as int,
                        x2 as int,
                        y2 as int,
                        x as int,
                        y as int,
                    ) {
                        color
                    } else {
                        old(self).pixel(p, q)
                    },
            ensures
                x == x2 && y == y2,
            decreases dx - dy - i - j,
        {
            proof {
                lemma_line_bounds(
                    x1 as int,
                    y1 as int,
                    x2 as int,
                    y2 as int,
                    x as int,
                    y as int,
                    i,
                    j,
                    ib,
                    ja,
                    err as int,
                );
                lemma_line_paint(
                    x1 as int,
                    y1 as int,
                    x2 as int,
                    y2 as int,
                    x as int,
                    y as int,
                    i,
                    j,
                    ib,
                    ja,
                    err as int,
                    x as int,
                    y as int,
                );
            }
            if x == x2 as i64 && y == y2 as i64 {
                break ;
            }
            proof {
                lemma_line_step(
                    x1 as int,
                    y1 as int,
                    x2 as int,
                    y2 as int,
                    x as int,
                    y as int,
                    i,
                    j,
                    ib,
                    ja,
                    err as int,
                );
            }
            let ghost steps = steps_to(
                x1 as int,
                y1 as int,
                x2 as int,
                y2 as int,
                x as int,
                y as int,
            );
            let e2: i64 = 2 * err;
            if e2 >= dy {
                err += dy;
                x += sx;
                proof {
                    i = i + 1;
                    ib = ib - dy;
                }
            }
            if e2 <= dx {
                err += dx;
                y += sy;
                proof {
                    j = j + 1;
                    ja = ja + dx;
                }
            }
            let ghost before = *self;
            self.plot_clipped(x, y, color);
            proof {
                lemma_line_bounds(
                    x1 as int,
                    y1 as int,
                    x2 as int,
                    y2 as int,
                    x as int,
                    y as int,
                    i,
                    j,
                    ib,
                    ja,
                    err as int,
                );
                lemma_line_paint(
                    x1 as int,
                    y1 as int,
                    x2 as int,
                    y2 as int,
                    x as int,
                    y as int,
                    i,
                    j,
                    ib,
                    ja,
                    err as int,
                    x as int,
                    y as int,
                );
                assert(steps_to(x1 as int, y1 as int, x2 as int, y2 as int, x as int, y as int)
                    == steps + 1);
                assert forall|p: int, q: int| old(self).contains(p, q) implies #[trigger] self.pixel(
                    p,
                    q,
                ) == if on_segment(x1 as int, y1 as int, x2 as int, y2 as int, p, q) && steps_to(
                    x1 as int,
                    y1 as int,
                    x2 as int,
                    y2 as int,
                    p,
                    q,
                ) <= steps + 1 {
                    color
                } else {
                    old(self).pixel(p, q)
                } by {
                    lemma_line_paint(
                        x1 as int,
                        y1 as int,
                        x2 as int,
                        y2 as int,
                        x as int,
                        y as int,
                        i,
                        j,
                        ib,
                        ja,
                        err as int,
                        p,
                        q,
                    );
                    assert(self.pixel(p, q) == if p == x && q == y {
                        color
                    } else {
                        before.pixel(p, q)
                    });
                }
            }
        }
        proof {
            assert forall|p: int, q: int| old(self).contains(p, q) implies #[trigger] self.pixel(
                p,
                q,
            ) == if on_segment(x1 as int, y1 as int, x2 as int, y2 as int, p, q) {
                color
            } else {
                old(self).pixel(p, q)
            } by {
                lemma_line_bounds(
                    x1 as int,
                    y1 as int,
                    x2 as int,
                    y2 as int,
                    x as int,
                    y as int,
                    i,
                    j,
                    ib,
                    ja,
                    err as int,
                );
                lemma_line_paint(
                    x1 as int,
                    y1 as int,
                    x2 as int,
                    y2 as int,
                    x as int,
                    y as int,
                    i,
                    j,
                    ib,
                    ja,
                    err as int,
                    x as int,
                    y as int,
                );
            }
        }
    }

    /// Paints the pixels of the outline of the circle of radius `radius`
    /// around `(cx, cy)` that lie within the frame. A circle without a
    /// positive radius paints nothing.
    fn draw_circle(&mut self, cx: i32, cy: i32, radius: i32, color: Color)
        ensures
            final(self).spec_width() == old(self).spec_width(),
            final(self).spec_height() == old(self).spec_height(),
            forall|p: int, q: int|
                old(self).contains(p, q) ==> #[trigger] final(self).pixel(p, q) == if on_circle(
                    cx as int,
                    cy as int,
                    radius as int,
                    p,
                    q,
                ) {
                    color
                } else {
                    old(self).pixel(p, q)
                },
    {
        if radius <= 0 {
            return ;
        }
        let ox: i64 = cx as i64;
        let oy: i64 = cy as i64;
        let r: i64 = radius as i64;
        let mut x: i64 = 0;
        let mut y: i64 = r;
        let mut d: i64 = 1 - r;
        self.plot_cardinals(ox, oy, r, color);
        proof {
            lemma_circle_start(r as int);
            assert forall|p: int, q: int| old(self).contains(p, q) implies #[trigger] self.pixel(
                p,
                q,
            ) == if on_circle(ox as int, oy as int, r as int, p, q) && smaller(
                distance(p, ox as int),
                distance(q, oy as int),
            ) <= 0 {
                color
            } else {
                old(self).pixel(p, q)
            } by {
                lemma_circle_cover(
                    r as int,
                    0,
                    r as int,
                    1 - r,
                    distance(p, ox as int),
                    distance(q, oy as int),
                );
            }
        }
        while x < y
            invariant
                self.spec_width() == old(self).spec_width(),
                self.spec_height() == old(self).spec_height(),
                ox == cx,
                oy == cy,
                r == radius,
                circle_state(r as int, x as int, y as int, d as int),
                forall|p: int, q: int|
                    old(self).contains(p, q) ==> #[trigger] self.pixel(p, q) == if on_circle(
                        ox as int,
                        oy as int,
                        r as int,
                        p,
                        q,
                    ) && smaller(distance(p, ox as int), distance(q, oy as int)) <= smaller(
                        x as int,
                        y as int,
                    ) {
                        color
                    } else {
                        old(self).pixel(p, q)
                    },
            decreases y - x + 1,
        {
            proof {
                lemma_circle_bounds(r as int, x as int, y as int, d as int);
                lemma_circle_step(r as int, x as int, y as int, d as int);
                lemma_circle_reach(r as int, x as int, y as int, d as int);
            }
            if d < 0 {
                d += 2 * x + 3;
            } else {
                d += 2 * (x - y) + 5;
                y -= 1;
            }
            x += 1;
            let ghost before = *self;
            self.plot_octants(ox, oy, x, y, color);
            proof {
                assert forall|p: int, q: int| old(self).contains(p, q) implies #[trigger] self.pixel(
                    p,
                    q,
                ) == if on_circle(ox as int, oy as int, r as int, p, q) && smaller(
                    distance(p, ox as int),
                    distance(q, oy as int),
                ) <= smaller(x as int, y as int) {
                    color
                } else {
                    old(self).pixel(p, q)
                } by {
                    lemma_circle_cover(
                        r as int,
                        x as int,
                        y as int,
                        d as int,
                        distance(p, ox as int),
                        distance(q, oy as int),
                    );
                    assert(self.pixel(p, q) == if is_octant_image(
                        ox as int,
                        oy as int,
                        x as int,
                        y as int,
                        p,
                        q,
                    ) {
                        color
                    } else {
                        before.pixel(p, q)
                    });
                }
            }
        }
        proof {
            assert forall|p: int, q: int| old(self).contains(p, q) implies #[trigger] self.pixel(
                p,
                q,
            ) == if on_circle(ox as int, oy as int, r as int, p, q) {
                color
            } else {
                old(self).pixel(p, q)
            } by {
                if on_circle(ox as int, oy as int, r as int, p, q) {
                    lemma_circle_done(
                        r as int,
                        x as int,
                        y as int,
                        d as int,
                        distance(p, ox as int),
                        distance(q, oy as int),
                    );
                }
            }
        }
    }

    /// A frame in memory has nothing to show: always `Ok`.
    fn present(&mut self) -> (shown: Result<(), String>)
        ensures
            shown is Ok,
            final(self).spec_width() == old(self).spec_width(),
            final(self).spec_height() == old(self).spec_height(),
            final(self).bytes() == old(self).bytes(),
    {
        Ok(())
    }
}

} // verus!
