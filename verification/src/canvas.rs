//! The canvas: a row-major buffer of packed 32-bit colors with a fixed
//! width and height, mutated in place by the fill operations and read out
//! as a snapshot copy.

use vstd::prelude::*;

use crate::geometry::lemma_row_major_in_range;
use crate::geometry::lemma_row_major_injective;
use crate::geometry::pixel_at;
use crate::geometry::abs;
use crate::geometry::lemma_disk_bounds;
use crate::geometry::lemma_interp_bounds;
use crate::geometry::lemma_mul_le;
use crate::shapes::Circle;
use crate::shapes::Line;
use crate::shapes::Rect;
use crate::shapes::Triangle;

verus! {

/// A color as one packed 32-bit value: red, green, blue and alpha, each
/// eight bits, most significant byte first. Alpha is stored but never
/// blended: every fill overwrites opaquely.
#[derive(Clone, Copy, PartialEq, Eq, Structural, Debug)]
pub enum Color {
    Hex(u32),
}

impl Color {
    /// The packed 32-bit value this color wraps.
    pub open spec fn packed(self) -> u32 {
        match self {
            Color::Hex(v) => v,
        }
    }

    /// Unwraps the packed 32-bit value.
    pub fn hex(self) -> (v: u32)
        ensures
            v == self.packed(),
    {
        match self {
            Color::Hex(v) => v,
        }
    }
}

/// How a fill relates the buffer after the call to the buffer before it:
/// every in-bounds pixel selected by `sel` holds `hex`, and every other
/// in-bounds pixel keeps its old value.
pub open spec fn painted(
    oldb: Seq<u32>,
    newb: Seq<u32>,
    w: int,
    h: int,
    sel: spec_fn(int, int) -> bool,
    hex: u32,
) -> bool {
    &&& newb.len() == oldb.len()
    &&& forall|x: int, y: int|
        0 <= x < w && 0 <= y < h ==> #[trigger] pixel_at(newb, w, x, y) == (if sel(x, y) {
            hex
        } else {
            pixel_at(oldb, w, x, y)
        })
}

/// The smaller of a + b and cap, computed without overflow.
fn clip_add(a: usize, b: usize, cap: usize) -> (r: usize)
    ensures
        r == if a + b <= cap {
            a + b
        } else {
            cap as int
        },
{
    if a >= cap {
        cap
    } else if b >= cap - a {
        cap
    } else {
        a + b
    }
}

/// The value after step t of a walk from s to e in d equal steps: the
/// exact rational s + (e - s) * t / d rounded down, computed in 128-bit
/// arithmetic so that nothing wraps.
fn interp(s: usize, e: usize, d: usize, t: usize) -> (r: usize)
    requires
        0 < d,
        t <= d,
    ensures
        r == (s * d + (e - s) * t) / (d as int),
{
    proof {
        lemma_interp_bounds(s as int, e as int, d as int, t as int);
        lemma_mul_le(s as int, d as int, usize::MAX as int);
        lemma_mul_le(e as int, d as int, usize::MAX as int);
        lemma_mul_le(usize::MAX as int, usize::MAX as int, u64::MAX as int);
        assert((u64::MAX as int) * (u64::MAX as int) <= u128::MAX as int) by (nonlinear_arith);
    }
    if e >= s {
        let diff = e - s;
        proof {
            lemma_mul_le(diff as int, t as int, usize::MAX as int);
        }
        let num = (s as u128) * (d as u128) + (diff as u128) * (t as u128);
        let q = num / (d as u128);
        q as usize
    } else {
        let diff = s - e;
        proof {
            lemma_mul_le(diff as int, t as int, usize::MAX as int);
        }
        let num = (s as u128) * (d as u128) - (diff as u128) * (t as u128);
        let q = num / (d as u128);
        q as usize
    }
}

/// A pixel buffer in row-major order: pixel (x, y) lives at index
/// y * width + x. The buffer always holds exactly width * height cells.
pub struct Canvas {
    pixels: Vec<u32>,
    width: usize,
    height: usize,
}

impl View for Canvas {
    type V = Seq<u32>;

    closed spec fn view(&self) -> Seq<u32> {
        self.pixels@
    }
}

impl Canvas {
    /// The canvas width, as a mathematical integer.
    pub closed spec fn spec_width(&self) -> int {
        self.width as int
    }

    /// The canvas height, as a mathematical integer.
    pub closed spec fn spec_height(&self) -> int {
        self.height as int
    }

    /// The buffer invariant: one cell for each of the width * height
    /// pixel coordinates.
    pub open spec fn wf(&self) -> bool {
        self@.len() == self.spec_width() * self.spec_height()
    }

    /// Allocates a canvas of dims.0 columns and dims.1 rows, every pixel
    /// zero (fully transparent black).
    #[verifier::loop_isolation(false)]
    pub fn new(dims: (usize, usize)) -> (canvas: Canvas)
        requires
            dims.0 * dims.1 <= usize::MAX,
        ensures
            canvas.wf(),
            canvas.spec_width() == dims.0,
            canvas.spec_height() == dims.1,
            canvas@.len() == dims.0 * dims.1,
            forall|i: int| 0 <= i < canvas@.len() ==> canvas@[i] == 0u32,
    {
        let (width, height) = dims;
        let n = width * height;
        let mut pixels: Vec<u32> = Vec::new();
        while pixels.len() < n
            invariant
                pixels@.len() <= n,
                forall|i: int| 0 <= i < pixels@.len() ==> pixels@[i] == 0u32,
            decreases n - pixels@.len(),
        {
            pixels.push(0u32);
        }
        Canvas { pixels, width, height }
    }

    /// Overwrites every pixel with the given color; the one fill that is
    /// never clipped, because it targets exactly the whole buffer.
    #[verifier::loop_isolation(false)]
    pub fn clear(&mut self, color: Color)
        requires
            old(self).wf(),
        ensures
            final(self).wf(),
            final(self).spec_width() == old(self).spec_width(),
            final(self).spec_height() == old(self).spec_height(),
            final(self)@.len() == old(self)@.len(),
            forall|i: int| 0 <= i < final(self)@.len() ==> final(self)@[i] == color.packed(),
    {
        let hex = color.hex();
        let n = self.pixels.len();
        let mut i: usize = 0;
        while i < n
            invariant
                i <= n,
                n == self@.len(),
                self.spec_width() == old(self).spec_width(),
                self.spec_height() == old(self).spec_height(),
                forall|j: int| 0 <= j < i ==> self@[j] == hex,
            decreases n - i,
        {
            self.pixels[i] = hex;
            i = i + 1;
        }
    }

    /// Writes one in-bounds pixel.
    fn put_pixel(&mut self, x: usize, y: usize, hex: u32)
        requires
            old(self).wf(),
            x < old(self).spec_width(),
            y < old(self).spec_height(),
        ensures
            final(self).wf(),
            final(self).spec_width() == old(self).spec_width(),
            final(self).spec_height() == old(self).spec_height(),
            final(self)@ == old(self)@.update(y * old(self).spec_width() + x, hex),
    {
        let n = self.pixels.len();
        proof {
            lemma_row_major_in_range(
                self.spec_width(),
                self.spec_height(),
                x as int,
                y as int,
            );
            assert(y * self.spec_width() + x < n);
        }
        let idx = y * self.width + x;
        self.pixels[idx] = hex;
    }

    /// Fills the rectangle, clipped to the canvas: exactly the in-bounds
    /// pixels inside it take the color, all others keep their value.
    #[verifier::loop_isolation(false)]
    pub fn fill_rect(&mut self, rect: Rect, color: Color)
        requires
            old(self).wf(),
        ensures
            final(self).wf(),
            final(self).spec_width() == old(self).spec_width(),
            final(self).spec_height() == old(self).spec_height(),
            painted(
                old(self)@,
                final(self)@,
                old(self).spec_width(),
                old(self).spec_height(),
                (|x: int, y: int| rect.covers(x, y)),
                color.packed(),
            ),
    {
        let hex = color.hex();
        let w = self.width;
        let h = self.height;
        let x0 = rect.top_left.0;
        let y0 = rect.top_left.1;
        let end_x = clip_add(x0, rect.width, w);
        let end_y = clip_add(y0, rect.height, h);
        let mut y = y0;
        while y < end_y
            invariant
                y0 <= y,
                y <= end_y || y == y0,
                self.wf(),
                self.spec_width() == w,
                self.spec_height() == h,
                forall|a: int, b: int|
                    0 <= a < w && 0 <= b < h ==> #[trigger] pixel_at(self@, w as int, a, b) == (
                    if rect.covers(a, b) && b < y {
                        hex
                    } else {
                        pixel_at(old(self)@, w as int, a, b)
                    }),
            decreases end_y - y,
        {
            let mut x = x0;
            while x < end_x
                invariant
                    x0 <= x,
                    x <= end_x || x == x0,
                    y < end_y,
                    self.wf(),
                    self.spec_width() == w,
                    self.spec_height() == h,
                    forall|a: int, b: int|
                        0 <= a < w && 0 <= b < h ==> #[trigger] pixel_at(self@, w as int, a, b)
                            == (if rect.covers(a, b) && (b < y || (b == y && a < x)) {
                            hex
                        } else {
                            pixel_at(old(self)@, w as int, a, b)
                        }),
                decreases end_x - x,
            {
                let ghost prev = self@;
                self.put_pixel(x, y, hex);
                proof {
                    assert forall|a: int, b: int| 0 <= a < w && 0 <= b < h implies #[trigger] pixel_at(
                        self@,
                        w as int,
                        a,
                        b,
                    ) == (if rect.covers(a, b) && (b < y || (b == y && a < x + 1)) {
                        hex
                    } else {
                        pixel_at(old(self)@, w as int, a, b)
                    }) by {
                        lemma_row_major_in_range(w as int, h as int, a, b);
                        lemma_row_major_in_range(w as int, h as int, x as int, y as int);
                        assert(self@ == prev.update(y * (w as int) + (x as int), hex));
                        assert(pixel_at(prev, w as int, a, b) == (if rect.covers(a, b) && (b < y
                            || (b == y && a < x)) {
                            hex
                        } else {
                            pixel_at(old(self)@, w as int, a, b)
                        }));
                        if b * (w as int) + a == y * (w as int) + (x as int) {
                            lemma_row_major_injective(w as int, a, b, x as int, y as int);
                        } else {
                            assert(prev.update(y * (w as int) + (x as int), hex)[b * (w as int)
                                + a] == prev[b * (w as int) + a]);
                        }
                    }
                }
                x = x + 1;
            }
            y = y + 1;
        }
    }

    /// Fills the discrete disk, clipped to the canvas: exactly the
    /// in-bounds pixels within the radius (boundary inclusive) take the
    /// color, all others keep their value. A zero radius paints the
    /// center pixel alone.
    #[verifier::loop_isolation(false)]
    pub fn fill_circle(&mut self, circle: Circle, color: Color)
        requires
            old(self).wf(),
        ensures
            final(self).wf(),
            final(self).spec_width() == old(self).spec_width(),
            final(self).spec_height() == old(self).spec_height(),
            painted(
                old(self)@,
                final(self)@,
                old(self).spec_width(),
                old(self).spec_height(),
                (|x: int, y: int| circle.covers(x, y)),
                color.packed(),
            ),
    {
        let hex = color.hex();
        let w = self.width;
        let h = self.height;
        let cx = circle.center.0;
        let cy = circle.center.1;
        let r = circle.radius;
        let x0 = if cx > r {
            cx - r
        } else {
            0
        };
        let y0 = if cy > r {
            cy - r
        } else {
            0
        };
        let end_x = clip_add(clip_add(clip_add(x0, r, w), r, w), 1, w);
        let end_y = clip_add(clip_add(clip_add(y0, r, h), r, h), 1, h);
        let mut y = y0;
        while y < end_y
            invariant
                y0 <= y,
                y <= end_y || y == y0,
                self.wf(),
                self.spec_width() == w,
                self.spec_height() == h,
                forall|a: int, b: int|
                    0 <= a < w && 0 <= b < h ==> #[trigger] pixel_at(self@, w as int, a, b) == (
                    if circle.covers(a, b) && y0 <= b < y {
                        hex
                    } else {
                        pixel_at(old(self)@, w as int, a, b)
                    }),
            decreases end_y - y,
        {
            let mut x = x0;
            while x < end_x
                invariant
                    x0 <= x,
                    x <= end_x || x == x0,
                    y0 <= y < end_y,
                    self.wf(),
                    self.spec_width() == w,
                    self.spec_height() == h,
                    forall|a: int, b: int|
                        0 <= a < w && 0 <= b < h ==> #[trigger] pixel_at(self@, w as int, a, b)
                            == (if circle.covers(a, b) && (y0 <= b < y || (b == y && x0 <= a < x)) {
                            hex
                        } else {
                            pixel_at(old(self)@, w as int, a, b)
                        }),
                decreases end_x - x,
            {
                let ghost prev = self@;
                let inside = circle.contains(x, y);
                if inside {
                    self.put_pixel(x, y, hex);
                }
                proof {
                    assert forall|a: int, b: int| 0 <= a < w && 0 <= b < h implies #[trigger] pixel_at(
                        self@,
                        w as int,
                        a,
                        b,
                    ) == (if circle.covers(a, b) && (y0 <= b < y || (b == y && x0 <= a < x + 1)) {
                        hex
                    } else {
                        pixel_at(old(self)@, w as int, a, b)
                    }) by {
                        lemma_row_major_in_range(w as int, h as int, a, b);
                        lemma_row_major_in_range(w as int, h as int, x as int, y as int);
                        assert(pixel_at(prev, w as int, a, b) == (if circle.covers(a, b) && (y0
                            <= b < y || (b == y && x0 <= a < x)) {
                            hex
                        } else {
                            pixel_at(old(self)@, w as int, a, b)
                        }));
                        if inside {
                            assert(self@ == prev.update(y * (w as int) + (x as int), hex));
                            if b * (w as int) + a == y * (w as int) + (x as int) {
                                lemma_row_major_injective(w as int, a, b, x as int, y as int);
                            } else {
                                assert(prev.update(y * (w as int) + (x as int), hex)[b * (w as int)
                                    + a] == prev[b * (w as int) + a]);
                            }
                        }
                    }
                }
                x = x + 1;
            }
            proof {
                assert forall|a: int, b: int| 0 <= a < w && 0 <= b < h implies #[trigger] pixel_at(
                    self@,
                    w as int,
                    a,
                    b,
                ) == (if circle.covers(a, b) && y0 <= b < y + 1 {
                    hex
                } else {
                    pixel_at(old(self)@, w as int, a, b)
                }) by {
                    assert(pixel_at(self@, w as int, a, b) == (if circle.covers(a, b) && (y0 <= b
                        < y || (b == y && x0 <= a < x)) {
                        hex
                    } else {
                        pixel_at(old(self)@, w as int, a, b)
                    }));
                    if b == y && circle.covers(a, b) {
                        lemma_disk_bounds(cx as int, cy as int, r as int, a, b);
                    }
                }
            }
            y = y + 1;
        }
        proof {
            assert forall|a: int, b: int| 0 <= a < w && 0 <= b < h implies #[trigger] pixel_at(
                self@,
                w as int,
                a,
                b,
            ) == (if circle.covers(a, b) {
                hex
            } else {
                pixel_at(old(self)@, w as int, a, b)
            }) by {
                assert(pixel_at(self@, w as int, a, b) == (if circle.covers(a, b) && y0 <= b < y {
                    hex
                } else {
                    pixel_at(old(self)@, w as int, a, b)
                }));
                if circle.covers(a, b) {
                    lemma_disk_bounds(cx as int, cy as int, r as int, a, b);
                }
            }
        }
    }

    /// Rasterizes the line, clipped to the canvas: one pixel per column
    /// between the endpoints when the line is more horizontal than
    /// vertical, one pixel per row between them otherwise, each at the
    /// exact interpolated position rounded down.
    #[verifier::loop_isolation(false)]
    pub fn line(&mut self, line: Line, color: Color)
        requires
            old(self).wf(),
        ensures
            final(self).wf(),
            final(self).spec_width() == old(self).spec_width(),
            final(self).spec_height() == old(self).spec_height(),
            painted(
                old(self)@,
                final(self)@,
                old(self).spec_width(),
                old(self).spec_height(),
                (|x: int, y: int| line.covers(x, y)),
                color.packed(),
            ),
    {
        let hex = color.hex();
        let w = self.width;
        let h = self.height;
        let (sx, sy) = if line.p1.0 > line.p2.0 {
            line.p2
        } else {
            line.p1
        };
        let (ex, ey) = if line.p1.0 > line.p2.0 {
            line.p1
        } else {
            line.p2
        };
        let dx = ex - sx;
        let ady = if ey >= sy {
            ey - sy
        } else {
            sy - ey
        };
        proof {
            assert(line.start() == (sx, sy));
            assert(line.end() == (ex, ey));
            assert(line.dx() == dx as int);
            assert(abs(line.dy()) == ady as int);
        }
        if dx > ady {
            let mut x = sx;
            while x <= ex && x < w
                invariant
                    sx <= x,
                    x <= ex + 1,
                    self.wf(),
                    self.spec_width() == w,
                    self.spec_height() == h,
                    forall|a: int, b: int|
                        0 <= a < w && 0 <= b < h ==> #[trigger] pixel_at(self@, w as int, a, b)
                            == (if line.covers(a, b) && a < x {
                            hex
                        } else {
                            pixel_at(old(self)@, w as int, a, b)
                        }),
                decreases ex + 1 - x,
            {
                let ghost prev = self@;
                let yv = interp(sy, ey, dx, x - sx);
                proof {
                    assert(yv == line.row_at(x as int));
                    lemma_interp_bounds(sy as int, ey as int, dx as int, (x - sx) as int);
                }
                if yv < h {
                    self.put_pixel(x, yv, hex);
                }
                proof {
                    assert forall|a: int, b: int| 0 <= a < w && 0 <= b < h implies #[trigger] pixel_at(
                        self@,
                        w as int,
                        a,
                        b,
                    ) == (if line.covers(a, b) && a < x + 1 {
                        hex
                    } else {
                        pixel_at(old(self)@, w as int, a, b)
                    }) by {
                        lemma_row_major_in_range(w as int, h as int, a, b);
                        assert(pixel_at(prev, w as int, a, b) == (if line.covers(a, b) && a < x {
                            hex
                        } else {
                            pixel_at(old(self)@, w as int, a, b)
                        }));
                        if yv < h {
                            lemma_row_major_in_range(w as int, h as int, x as int, yv as int);
                            assert(self@ == prev.update(yv * (w as int) + (x as int), hex));
                            if b * (w as int) + a == yv * (w as int) + (x as int) {
                                lemma_row_major_injective(w as int, a, b, x as int, yv as int);
                            } else {
                                assert(prev.update(yv * (w as int) + (x as int), hex)[b * (w as int)
                                    + a] == prev[b * (w as int) + a]);
                            }
                        }
                    }
                }
                x = x + 1;
            }
        } else {
            let lo = if sy <= ey {
                sy
            } else {
                ey
            };
            let hi = if sy <= ey {
                ey
            } else {
                sy
            };
            proof {
                assert(line.row_lo() == lo as int);
                assert(line.row_hi() == hi as int);
            }
            let mut yy = lo;
            while yy <= hi && yy < h
                invariant
                    lo <= yy,
                    yy <= hi + 1,
                    self.wf(),
                    self.spec_width() == w,
                    self.spec_height() == h,
                    forall|a: int, b: int|
                        0 <= a < w && 0 <= b < h ==> #[trigger] pixel_at(self@, w as int, a, b)
                            == (if line.covers(a, b) && b < yy {
                            hex
                        } else {
                            pixel_at(old(self)@, w as int, a, b)
                        }),
                decreases hi + 1 - yy,
            {
                let ghost prev = self@;
                let t = if yy >= sy {
                    yy - sy
                } else {
                    sy - yy
                };
                let xv = if ady == 0 {
                    sx
                } else {
                    interp(sx, ex, ady, t)
                };
                proof {
                    if ady > 0 {
                        lemma_interp_bounds(sx as int, ex as int, ady as int, t as int);
                    }
                    assert(xv == line.col_at(yy as int));
                }
                if xv < w {
                    self.put_pixel(xv, yy, hex);
                }
                proof {
                    assert forall|a: int, b: int| 0 <= a < w && 0 <= b < h implies #[trigger] pixel_at(
                        self@,
                        w as int,
                        a,
                        b,
                    ) == (if line.covers(a, b) && b < yy + 1 {
                        hex
                    } else {
                        pixel_at(old(self)@, w as int, a, b)
                    }) by {
                        lemma_row_major_in_range(w as int, h as int, a, b);
                        assert(pixel_at(prev, w as int, a, b) == (if line.covers(a, b) && b < yy {
                            hex
                        } else {
                            pixel_at(old(self)@, w as int, a, b)
                        }));
                        if xv < w {
                            lemma_row_major_in_range(w as int, h as int, xv as int, yy as int);
                            assert(self@ == prev.update(yy * (w as int) + (xv as int), hex));
                            if b * (w as int) + a == yy * (w as int) + (xv as int) {
                                lemma_row_major_injective(w as int, a, b, xv as int, yy as int);
                            } else {
                                assert(prev.update(yy * (w as int) + (xv as int), hex)[b * (w
                                    as int) + a] == prev[b * (w as int) + a]);
                            }
                        }
                    }
                }
                yy = yy + 1;
            }
        }
    }

    /// Fills the triangle, clipped to the canvas: exactly the in-bounds
    /// pixels of its bounding box that pass the area-based coverage test
    /// take the color, all others keep their value.
    #[verifier::loop_isolation(false)]
    pub fn fill_triangle(&mut self, triangle: Triangle, color: Color)
        requires
            old(self).wf(),
            triangle.fits(),
        ensures
            final(self).wf(),
            final(self).spec_width() == old(self).spec_width(),
            final(self).spec_height() == old(self).spec_height(),
            painted(
                old(self)@,
                final(self)@,
                old(self).spec_width(),
                old(self).spec_height(),
                (|x: int, y: int| triangle.in_bbox(x, y) && triangle.covers(x, y)),
                color.packed(),
            ),
    {
        let hex = color.hex();
        let w = self.width;
        let h = self.height;
        let ax = if triangle.p1.0 <= triangle.p2.0 {
            triangle.p1.0
        } else {
            triangle.p2.0
        };
        let x0 = if ax <= triangle.p3.0 {
            ax
        } else {
            triangle.p3.0
        };
        let bx = if triangle.p1.0 >= triangle.p2.0 {
            triangle.p1.0
        } else {
            triangle.p2.0
        };
        let x1 = if bx >= triangle.p3.0 {
            bx
        } else {
            triangle.p3.0
        };
        let ay = if triangle.p1.1 <= triangle.p2.1 {
            triangle.p1.1
        } else {
            triangle.p2.1
        };
        let y0 = if ay <= triangle.p3.1 {
            ay
        } else {
            triangle.p3.1
        };
        let by = if triangle.p1.1 >= triangle.p2.1 {
            triangle.p1.1
        } else {
            triangle.p2.1
        };
        let y1 = if by >= triangle.p3.1 {
            by
        } else {
            triangle.p3.1
        };
        let end_x = clip_add(x1, 1, w);
        let end_y = clip_add(y1, 1, h);
        let mut y = y0;
        while y < end_y
            invariant
                y0 <= y,
                y <= end_y || y == y0,
                self.wf(),
                self.spec_width() == w,
                self.spec_height() == h,
                forall|a: int, b: int|
                    0 <= a < w && 0 <= b < h ==> #[trigger] pixel_at(self@, w as int, a, b) == (
                    if triangle.in_bbox(a, b) && triangle.covers(a, b) && y0 <= b < y {
                        hex
                    } else {
                        pixel_at(old(self)@, w as int, a, b)
                    }),
            decreases end_y - y,
        {
            let mut x = x0;
            while x < end_x
                invariant
                    x0 <= x,
                    x <= end_x || x == x0,
                    y0 <= y < end_y,
                    self.wf(),
                    self.spec_width() == w,
                    self.spec_height() == h,
                    forall|a: int, b: int|
                        0 <= a < w && 0 <= b < h ==> #[trigger] pixel_at(self@, w as int, a, b)
                            == (if triangle.in_bbox(a, b) && triangle.covers(a, b) && (y0 <= b < y
                            || (b == y && x0 <= a < x)) {
                            hex
                        } else {
                            pixel_at(old(self)@, w as int, a, b)
                        }),
                decreases end_x - x,
            {
                let ghost prev = self@;
                let inside = triangle.contains(x, y);
                if inside {
                    self.put_pixel(x, y, hex);
                }
                proof {
                    assert forall|a: int, b: int| 0 <= a < w && 0 <= b < h implies #[trigger] pixel_at(
                        self@,
                        w as int,
                        a,
                        b,
                    ) == (if triangle.in_bbox(a, b) && triangle.covers(a, b) && (y0 <= b < y || (b
                        == y && x0 <= a < x + 1)) {
                        hex
                    } else {
                        pixel_at(old(self)@, w as int, a, b)
                    }) by {
                        lemma_row_major_in_range(w as int, h as int, a, b);
                        lemma_row_major_in_range(w as int, h as int, x as int, y as int);
                        assert(pixel_at(prev, w as int, a, b) == (if triangle.in_bbox(a, b)
                            && triangle.covers(a, b) && (y0 <= b < y || (b == y && x0 <= a < x)) {
                            hex
                        } else {
                            pixel_at(old(self)@, w as int, a, b)
                        }));
                        if inside {
                            assert(self@ == prev.update(y * (w as int) + (x as int), hex));
                            if b * (w as int) + a == y * (w as int) + (x as int) {
                                lemma_row_major_injective(w as int, a, b, x as int, y as int);
                            } else {
                                assert(prev.update(y * (w as int) + (x as int), hex)[b * (w as int)
                                    + a] == prev[b * (w as int) + a]);
                            }
                        }
                    }
                }
                x = x + 1;
            }
            y = y + 1;
        }
    }

    /// A snapshot copy of the raw packed-integer buffer.
    #[verifier::loop_isolation(false)]
    pub fn pixels_raw(&self) -> (r: Vec<u32>)
        ensures
            r@ == self@,
    {
        let mut out: Vec<u32> = Vec::new();
        let n = self.pixels.len();
        let mut i: usize = 0;
        while i < n
            invariant
                i <= n,
                n == self@.len(),
                out@ == self@.take(i as int),
            decreases n - i,
        {
            out.push(self.pixels[i]);
            proof {
                assert(out@ =~= self@.take(i + 1));
            }
            i = i + 1;
        }
        proof {
            assert(out@ =~= self@);
        }
        out
    }

    /// The same snapshot with each element wrapped as a Color value.
    #[verifier::loop_isolation(false)]
    pub fn pixels_colors(&self) -> (r: Vec<Color>)
        ensures
            r@.len() == self@.len(),
            forall|i: int| 0 <= i < r@.len() ==> r@[i] == Color::Hex(self@[i]),
    {
        let mut out: Vec<Color> = Vec::new();
        let n = self.pixels.len();
        let mut i: usize = 0;
        while i < n
            invariant
                i <= n,
                n == self@.len(),
                out@.len() == i,
                forall|j: int| 0 <= j < i ==> out@[j] == Color::Hex(self@[j]),
            decreases n - i,
        {
            out.push(Color::Hex(self.pixels[i]));
            i = i + 1;
        }
        out
    }
}

} // verus!
