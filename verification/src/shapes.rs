//! The immutable shape descriptors: rectangle, circle, line and triangle.
//! Each carries a spec-level `covers` predicate that says exactly which
//! pixel coordinates the corresponding fill operation selects; the canvas
//! contracts are stated over these predicates.

use vstd::prelude::*;

use crate::geometry::abs;
use crate::geometry::lemma_mul_bound;
use crate::geometry::lemma_mul_le;
use crate::geometry::lemma_square_diff;
use vstd::arithmetic::div_mod::lemma_div_multiples_vanish;

verus! {

/// A point with usize coordinates, lifted to mathematical integers.
pub open spec fn pt(p: (usize, usize)) -> (int, int) {
    (p.0 as int, p.1 as int)
}

/// Twice the signed area of the triangle (a, b, c): the 2D cross product
/// of the edge vectors b - a and c - a.
pub open spec fn cross(a: (int, int), b: (int, int), c: (int, int)) -> int {
    (b.0 - a.0) * (c.1 - a.1) - (b.1 - a.1) * (c.0 - a.0)
}

/// An axis-aligned rectangle: top-left corner plus width and height,
/// describing the pixel range [x, x+width) x [y, y+height).
pub struct Rect {
    pub top_left: (usize, usize),
    pub width: usize,
    pub height: usize,
}

impl Rect {
    pub fn new(top_left: (usize, usize), width: usize, height: usize) -> (r: Rect)
        ensures
            r.top_left == top_left,
            r.width == width,
            r.height == height,
    {
        Rect { top_left, width, height }
    }

    /// The pixels a rectangle fill selects, before clipping.
    pub open spec fn covers(&self, x: int, y: int) -> bool {
        &&& self.top_left.0 <= x < self.top_left.0 + self.width
        &&& self.top_left.1 <= y < self.top_left.1 + self.height
    }
}

/// A circle: center plus radius, describing the discrete disk of all
/// integer points within distance radius of the center.
pub struct Circle {
    pub center: (usize, usize),
    pub radius: usize,
}

impl Circle {
    pub fn new(center: (usize, usize), radius: usize) -> (c: Circle)
        ensures
            c.center == center,
            c.radius == radius,
    {
        Circle { center, radius }
    }

    /// The pixels a circle fill selects, before clipping: squared distance
    /// to the center at most radius squared (boundary inclusive).
    pub open spec fn covers(&self, x: int, y: int) -> bool {
        (x - self.center.0) * (x - self.center.0) + (y - self.center.1) * (y - self.center.1)
            <= self.radius * self.radius
    }

    /// The disk membership test, computed exactly: 128-bit squares cannot
    /// wrap, and a sum that would exceed the 128-bit range is already
    /// larger than any representable radius squared.
    pub fn contains(&self, x: usize, y: usize) -> (b: bool)
        ensures
            b == self.covers(x as int, y as int),
    {
        let cx = self.center.0;
        let cy = self.center.1;
        let dx = if cx > x {
            cx - x
        } else {
            x - cx
        };
        let dy = if cy > y {
            cy - y
        } else {
            y - cy
        };
        proof {
            lemma_mul_le(dx as int, dx as int, usize::MAX as int);
            lemma_mul_le(dy as int, dy as int, usize::MAX as int);
            lemma_mul_le(self.radius as int, self.radius as int, usize::MAX as int);
            lemma_mul_le(usize::MAX as int, usize::MAX as int, u64::MAX as int);
            assert((u64::MAX as int) * (u64::MAX as int) <= u128::MAX as int) by (nonlinear_arith);
            lemma_square_diff(cx as int, x as int);
            lemma_square_diff(cy as int, y as int);
        }
        let dx2 = (dx as u128) * (dx as u128);
        let dy2 = (dy as u128) * (dy as u128);
        let r2 = (self.radius as u128) * (self.radius as u128);
        if dy2 > u128::MAX - dx2 {
            false
        } else {
            dx2 + dy2 <= r2
        }
    }
}

/// A line segment between two integer endpoints. No ordering is required
/// of the caller; the rasterizer normalizes by x-coordinate.
pub struct Line {
    pub p1: (usize, usize),
    pub p2: (usize, usize),
}

impl Line {
    pub fn new(p1: (usize, usize), p2: (usize, usize)) -> (l: Line)
        ensures
            l.p1 == p1,
            l.p2 == p2,
    {
        Line { p1, p2 }
    }

    /// The endpoint with the smaller x-coordinate.
    pub open spec fn start(&self) -> (usize, usize) {
        if self.p1.0 > self.p2.0 {
            self.p2
        } else {
            self.p1
        }
    }

    /// The endpoint with the larger x-coordinate.
    pub open spec fn end(&self) -> (usize, usize) {
        if self.p1.0 > self.p2.0 {
            self.p1
        } else {
            self.p2
        }
    }

    /// Horizontal extent after normalization; never negative.
    pub open spec fn dx(&self) -> int {
        self.end().0 - self.start().0
    }

    /// Signed vertical extent after normalization.
    pub open spec fn dy(&self) -> int {
        self.end().1 - self.start().1
    }

    /// More horizontal than vertical: the rasterizer steps columns.
    /// Otherwise (including vertical lines) it steps rows.
    pub open spec fn is_shallow(&self) -> bool {
        self.dx() > abs(self.dy())
    }

    /// The row selected in column x when stepping columns: the line's
    /// exact rational y at x, rounded down. For x between the endpoint
    /// columns the dividend is never negative, so this is also truncation.
    pub open spec fn row_at(&self, x: int) -> int {
        (self.start().1 * self.dx() + self.dy() * (x - self.start().0)) / self.dx()
    }

    /// The column selected in row y when stepping rows: the line's exact
    /// rational x at y, rounded down; the start column for vertical lines
    /// and single points.
    pub open spec fn col_at(&self, y: int) -> int {
        if self.dy() == 0 {
            self.start().0 as int
        } else {
            (self.start().0 * abs(self.dy()) + self.dx() * abs(y - self.start().1)) / abs(
                self.dy(),
            )
        }
    }

    /// The smaller of the two endpoint rows.
    pub open spec fn row_lo(&self) -> int {
        if self.p1.1 <= self.p2.1 {
            self.p1.1 as int
        } else {
            self.p2.1 as int
        }
    }

    /// The larger of the two endpoint rows.
    pub open spec fn row_hi(&self) -> int {
        if self.p1.1 <= self.p2.1 {
            self.p2.1 as int
        } else {
            self.p1.1 as int
        }
    }

    /// The pixels a line fill selects, before clipping: one per column
    /// between the endpoints when the line is shallow, one per row
    /// between the endpoints otherwise.
    pub open spec fn covers(&self, x: int, y: int) -> bool {
        if self.is_shallow() {
            self.start().0 <= x <= self.end().0 && y == self.row_at(x)
        } else {
            self.row_lo() <= y <= self.row_hi() && x == self.col_at(y)
        }
    }
}

/// Largest coordinate value the triangle operations accept; keeps every
/// doubled-area computation exactly representable in 128-bit arithmetic.
pub const MAX_TRIANGLE_COORD: u64 = 0x4000_0000_0000_0000;

/// A triangle given by three integer vertices.
pub struct Triangle {
    pub p1: (usize, usize),
    pub p2: (usize, usize),
    pub p3: (usize, usize),
}

impl Triangle {
    pub fn new(p1: (usize, usize), p2: (usize, usize), p3: (usize, usize)) -> (t: Triangle)
        ensures
            t.p1 == p1,
            t.p2 == p2,
            t.p3 == p3,
    {
        Triangle { p1, p2, p3 }
    }

    /// All six vertex coordinates are small enough for exact 128-bit
    /// doubled-area arithmetic.
    pub open spec fn fits(&self) -> bool {
        &&& self.p1.0 <= MAX_TRIANGLE_COORD as int
        &&& self.p1.1 <= MAX_TRIANGLE_COORD as int
        &&& self.p2.0 <= MAX_TRIANGLE_COORD as int
        &&& self.p2.1 <= MAX_TRIANGLE_COORD as int
        &&& self.p3.0 <= MAX_TRIANGLE_COORD as int
        &&& self.p3.1 <= MAX_TRIANGLE_COORD as int
    }

    /// Twice the triangle's area: the absolute cross product of two edge
    /// vectors. Kept doubled so that it stays an integer.
    pub open spec fn spec_area2(&self) -> int {
        abs(cross(pt(self.p1), pt(self.p2), pt(self.p3)))
    }

    /// The smallest vertex column.
    pub open spec fn x_min(&self) -> int {
        let a = if self.p1.0 <= self.p2.0 {
            self.p1.0
        } else {
            self.p2.0
        };
        if a <= self.p3.0 {
            a as int
        } else {
            self.p3.0 as int
        }
    }

    /// The largest vertex column.
    pub open spec fn x_max(&self) -> int {
        let a = if self.p1.0 >= self.p2.0 {
            self.p1.0
        } else {
            self.p2.0
        };
        if a >= self.p3.0 {
            a as int
        } else {
            self.p3.0 as int
        }
    }

    /// The smallest vertex row.
    pub open spec fn y_min(&self) -> int {
        let a = if self.p1.1 <= self.p2.1 {
            self.p1.1
        } else {
            self.p2.1
        };
        if a <= self.p3.1 {
            a as int
        } else {
            self.p3.1 as int
        }
    }

    /// The largest vertex row.
    pub open spec fn y_max(&self) -> int {
        let a = if self.p1.1 >= self.p2.1 {
            self.p1.1
        } else {
            self.p2.1
        };
        if a >= self.p3.1 {
            a as int
        } else {
            self.p3.1 as int
        }
    }

    /// The axis-aligned bounding box of the three vertices, both ends
    /// inclusive; a triangle fill only ever touches pixels inside it.
    pub open spec fn in_bbox(&self, x: int, y: int) -> bool {
        self.x_min() <= x <= self.x_max() && self.y_min() <= y <= self.y_max()
    }

    /// The area-based coverage test of the triangle fill: a point is
    /// selected when the areas of the three sub-triangles it forms with
    /// the vertices sum to no more than the whole triangle's area.
    pub open spec fn covers(&self, x: int, y: int) -> bool {
        abs(cross(pt(self.p1), pt(self.p2), (x, y))) + abs(cross(pt(self.p2), pt(self.p3), (x, y)))
            + abs(cross(pt(self.p1), pt(self.p3), (x, y))) <= self.spec_area2()
    }

    /// The closed convex hull of the three vertices: the point is on the
    /// weak same side of all three edges, taken in a consistent
    /// orientation.
    pub open spec fn in_hull(&self, x: int, y: int) -> bool {
        let s1 = cross(pt(self.p1), pt(self.p2), (x, y));
        let s2 = cross(pt(self.p2), pt(self.p3), (x, y));
        let s3 = cross(pt(self.p3), pt(self.p1), (x, y));
        (s1 >= 0 && s2 >= 0 && s3 >= 0) || (s1 <= 0 && s2 <= 0 && s3 <= 0)
    }

    /// The strict interior of the triangle: the point is on the strict
    /// same side of all three edges.
    pub open spec fn strictly_inside(&self, x: int, y: int) -> bool {
        let s1 = cross(pt(self.p1), pt(self.p2), (x, y));
        let s2 = cross(pt(self.p2), pt(self.p3), (x, y));
        let s3 = cross(pt(self.p3), pt(self.p1), (x, y));
        (s1 > 0 && s2 > 0 && s3 > 0) || (s1 < 0 && s2 < 0 && s3 < 0)
    }

    /// Twice the triangle's area, computed exactly in 128-bit integers.
    pub fn area2(&self) -> (r: u128)
        requires
            self.fits(),
        ensures
            r == self.spec_area2(),
    {
        let c = cross_exec(self.p1, self.p2, self.p3);
        if c >= 0 {
            c as u128
        } else {
            (-c) as u128
        }
    }

    /// The area-based coverage test, computed exactly in 128-bit
    /// integers: the three sub-triangle areas against the whole area.
    pub fn contains(&self, x: usize, y: usize) -> (b: bool)
        requires
            self.fits(),
            x <= MAX_TRIANGLE_COORD as int,
            y <= MAX_TRIANGLE_COORD as int,
        ensures
            b == self.covers(x as int, y as int),
    {
        let p = (x, y);
        let s1 = cross_exec(self.p1, self.p2, p);
        let s2 = cross_exec(self.p2, self.p3, p);
        let s3 = cross_exec(self.p1, self.p3, p);
        let t = cross_exec(self.p1, self.p2, self.p3);
        let a1 = if s1 >= 0 {
            s1
        } else {
            -s1
        };
        let a2 = if s2 >= 0 {
            s2
        } else {
            -s2
        };
        let a3 = if s3 >= 0 {
            s3
        } else {
            -s3
        };
        let at = if t >= 0 {
            t
        } else {
            -t
        };
        a1 + a2 + a3 <= at
    }
}

/// The center pixel of every disk, of radius zero included, passes the
/// disk membership test.
pub proof fn lemma_circle_center_covered(c: Circle)
    ensures
        c.covers(c.center.0 as int, c.center.1 as int),
{
    assert(0 <= (c.radius as int) * (c.radius as int)) by (nonlinear_arith);
}

/// A line's rasterization reaches both of its endpoints: each passes the
/// line coverage test.
pub proof fn lemma_line_endpoints_covered(l: Line)
    ensures
        l.covers(l.start().0 as int, l.start().1 as int),
        l.covers(l.end().0 as int, l.end().1 as int),
{
    let sx = l.start().0 as int;
    let sy = l.start().1 as int;
    let ex = l.end().0 as int;
    let ey = l.end().1 as int;
    let dx = l.dx();
    let dy = l.dy();
    if l.is_shallow() {
        assert(sy * dx == dx * sy) by (nonlinear_arith);
        lemma_div_multiples_vanish(sy, dx);
        assert(l.row_at(sx) == sy);
        assert(sy * dx + dy * (ex - sx) == dx * (sy + dy)) by (nonlinear_arith)
            requires
                dx == ex - sx,
        ;
        lemma_div_multiples_vanish(sy + dy, dx);
        assert(l.row_at(ex) == ey);
    } else {
        let ady = abs(dy);
        if dy != 0 {
            assert(abs(sy - sy) == 0);
            assert(dx * abs(sy - sy) == 0) by (nonlinear_arith)
                requires
                    abs(sy - sy) == 0,
            ;
            assert(sx * ady == ady * sx) by (nonlinear_arith);
            lemma_div_multiples_vanish(sx, ady);
            assert(l.col_at(sy) == sx);
            assert(sx * ady + dx * ady == ady * (sx + dx)) by (nonlinear_arith);
            lemma_div_multiples_vanish(sx + dx, ady);
            assert(l.col_at(ey) == ex);
        }
    }
}

/// In a shallow line's column range, exactly one row passes the coverage
/// test: the interpolated one.
pub proof fn lemma_line_one_per_column(l: Line, x: int)
    requires
        l.is_shallow(),
        l.start().0 <= x <= l.end().0,
    ensures
        l.covers(x, l.row_at(x)),
        forall|y: int| l.covers(x, y) ==> y == l.row_at(x),
{
}

/// In a steep line's row range, exactly one column passes the coverage
/// test: the interpolated one.
pub proof fn lemma_line_one_per_row(l: Line, y: int)
    requires
        !l.is_shallow(),
        l.row_lo() <= y <= l.row_hi(),
    ensures
        l.covers(l.col_at(y), y),
        forall|x: int| l.covers(x, y) ==> x == l.col_at(y),
{
}

/// The area-based coverage test selects exactly the closed convex hull
/// of the three vertices: the sub-triangle areas around a point sum to
/// the whole area precisely when the point is on the weak same side of
/// every edge.
pub proof fn lemma_covers_iff_hull(t: Triangle, x: int, y: int)
    ensures
        t.covers(x, y) <==> t.in_hull(x, y),
{
    let x1 = t.p1.0 as int;
    let y1 = t.p1.1 as int;
    let x2 = t.p2.0 as int;
    let y2 = t.p2.1 as int;
    let x3 = t.p3.0 as int;
    let y3 = t.p3.1 as int;
    let s1 = cross(pt(t.p1), pt(t.p2), (x, y));
    let s2 = cross(pt(t.p2), pt(t.p3), (x, y));
    let s3 = cross(pt(t.p3), pt(t.p1), (x, y));
    let tot = cross(pt(t.p1), pt(t.p2), pt(t.p3));
    let a2 = x2 - x1;
    let b2 = y2 - y1;
    let a3 = x3 - x1;
    let b3 = y3 - y1;
    let u = x - x1;
    let v = y - y1;
    assert(s1 == a2 * v - b2 * u);
    assert(s2 == (a3 - a2) * (v - b2) - (b3 - b2) * (u - a2));
    assert(s3 == (-a3) * (v - b3) - (-b3) * (u - a3));
    assert((-a3) * (v - b3) - (-b3) * (u - a3) == b3 * u - a3 * v) by (nonlinear_arith);
    assert(tot == a2 * b3 - b2 * a3);
    assert(a2 * v - b2 * u + ((a3 - a2) * (v - b2) - (b3 - b2) * (u - a2)) + (b3 * u - a3 * v)
        == a2 * b3 - b2 * a3) by (nonlinear_arith);
    assert(s1 + s2 + s3 == tot);
    assert(cross(pt(t.p1), pt(t.p3), (x, y)) == a3 * v - b3 * u);
    assert(cross(pt(t.p1), pt(t.p3), (x, y)) == -s3);
    assert(abs(cross(pt(t.p1), pt(t.p3), (x, y))) == abs(s3));
    assert((abs(s1) + abs(s2) + abs(s3) <= abs(s1 + s2 + s3)) <==> ((s1 >= 0 && s2 >= 0 && s3
        >= 0) || (s1 <= 0 && s2 <= 0 && s3 <= 0)));
}

/// A point strictly outside the convex hull of the vertices never passes
/// the coverage test.
pub proof fn lemma_outside_hull_not_covered(t: Triangle, x: int, y: int)
    requires
        !t.in_hull(x, y),
    ensures
        !t.covers(x, y),
{
    lemma_covers_iff_hull(t, x, y);
}

/// A point strictly inside the triangle always passes the coverage test,
/// and lies inside the vertex bounding box, so the triangle fill reaches
/// it whenever it is on the canvas.
pub proof fn lemma_strictly_inside_covered(t: Triangle, x: int, y: int)
    requires
        t.strictly_inside(x, y),
    ensures
        t.covers(x, y),
        t.in_bbox(x, y),
{
    lemma_covers_iff_hull(t, x, y);
    let x1 = t.p1.0 as int;
    let y1 = t.p1.1 as int;
    let x2 = t.p2.0 as int;
    let y2 = t.p2.1 as int;
    let x3 = t.p3.0 as int;
    let y3 = t.p3.1 as int;
    let s1 = cross(pt(t.p1), pt(t.p2), (x, y));
    let s2 = cross(pt(t.p2), pt(t.p3), (x, y));
    let s3 = cross(pt(t.p3), pt(t.p1), (x, y));
    let tot = cross(pt(t.p1), pt(t.p2), pt(t.p3));
    let a2 = x2 - x1;
    let b2 = y2 - y1;
    let a3 = x3 - x1;
    let b3 = y3 - y1;
    let u = x - x1;
    let v = y - y1;
    assert(s1 == a2 * v - b2 * u);
    assert(s2 == (a3 - a2) * (v - b2) - (b3 - b2) * (u - a2));
    assert(s3 == (-a3) * (v - b3) - (-b3) * (u - a3));
    assert((-a3) * (v - b3) - (-b3) * (u - a3) == b3 * u - a3 * v) by (nonlinear_arith);
    assert(tot == a2 * b3 - b2 * a3);
    assert(a2 * v - b2 * u + ((a3 - a2) * (v - b2) - (b3 - b2) * (u - a2)) + (b3 * u - a3 * v)
        == a2 * b3 - b2 * a3) by (nonlinear_arith);
    assert(s1 + s2 + s3 == tot);
    assert(u * (a2 * b3 - b2 * a3) == a2 * (b3 * u - a3 * v) + a3 * (a2 * v - b2 * u))
        by (nonlinear_arith);
    assert(x * (s1 + s2 + s3) == x1 * (s1 + s2 + s3) + a2 * s3 + a3 * s1) by (nonlinear_arith)
        requires
            u * (s1 + s2 + s3) == a2 * s3 + a3 * s1,
            u == x - x1,
    ;
    assert(v * (a2 * b3 - b2 * a3) == b2 * (b3 * u - a3 * v) + b3 * (a2 * v - b2 * u))
        by (nonlinear_arith);
    assert(y * (s1 + s2 + s3) == y1 * (s1 + s2 + s3) + b2 * s3 + b3 * s1) by (nonlinear_arith)
        requires
            v * (s1 + s2 + s3) == b2 * s3 + b3 * s1,
            v == y - y1,
    ;
    assert(x * (s1 + s2 + s3) == x1 * s2 + x2 * s3 + x3 * s1) by (nonlinear_arith)
        requires
            x * (s1 + s2 + s3) == x1 * (s1 + s2 + s3) + a2 * s3 + a3 * s1,
            a2 == x2 - x1,
            a3 == x3 - x1,
    ;
    assert(y * (s1 + s2 + s3) == y1 * s2 + y2 * s3 + y3 * s1) by (nonlinear_arith)
        requires
            y * (s1 + s2 + s3) == y1 * (s1 + s2 + s3) + b2 * s3 + b3 * s1,
            b2 == y2 - y1,
            b3 == y3 - y1,
    ;
    lemma_weighted_average_bounded(x1, x2, x3, s1, s2, s3, x, t.x_min(), t.x_max());
    lemma_weighted_average_bounded(y1, y2, y3, s1, s2, s3, y, t.y_min(), t.y_max());
}

/// All three vertices pass the coverage test and lie in the bounding
/// box, so the triangle fill paints every on-canvas vertex.
pub proof fn lemma_triangle_vertices_covered(t: Triangle)
    ensures
        t.covers(t.p1.0 as int, t.p1.1 as int) && t.in_bbox(t.p1.0 as int, t.p1.1 as int),
        t.covers(t.p2.0 as int, t.p2.1 as int) && t.in_bbox(t.p2.0 as int, t.p2.1 as int),
        t.covers(t.p3.0 as int, t.p3.1 as int) && t.in_bbox(t.p3.0 as int, t.p3.1 as int),
{
    let x1 = t.p1.0 as int;
    let y1 = t.p1.1 as int;
    let x2 = t.p2.0 as int;
    let y2 = t.p2.1 as int;
    let x3 = t.p3.0 as int;
    let y3 = t.p3.1 as int;
    let tot = cross(pt(t.p1), pt(t.p2), pt(t.p3));
    assert(cross(pt(t.p2), pt(t.p3), pt(t.p1)) == tot) by (nonlinear_arith)
        requires
            cross(pt(t.p2), pt(t.p3), pt(t.p1)) == (x3 - x2) * (y1 - y2) - (y3 - y2) * (x1 - x2),
            tot == (x2 - x1) * (y3 - y1) - (y2 - y1) * (x3 - x1),
    ;
    assert(cross(pt(t.p1), pt(t.p2), pt(t.p1)) == 0) by (nonlinear_arith)
        requires
            cross(pt(t.p1), pt(t.p2), pt(t.p1)) == (x2 - x1) * (y1 - y1) - (y2 - y1) * (x1 - x1),
    ;
    assert(cross(pt(t.p1), pt(t.p3), pt(t.p1)) == 0) by (nonlinear_arith)
        requires
            cross(pt(t.p1), pt(t.p3), pt(t.p1)) == (x3 - x1) * (y1 - y1) - (y3 - y1) * (x1 - x1),
    ;
    assert(t.covers(x1, y1));
    assert(cross(pt(t.p1), pt(t.p2), pt(t.p2)) == 0) by (nonlinear_arith)
        requires
            cross(pt(t.p1), pt(t.p2), pt(t.p2)) == (x2 - x1) * (y2 - y1) - (y2 - y1) * (x2 - x1),
    ;
    assert(cross(pt(t.p2), pt(t.p3), pt(t.p2)) == 0) by (nonlinear_arith)
        requires
            cross(pt(t.p2), pt(t.p3), pt(t.p2)) == (x3 - x2) * (y2 - y2) - (y3 - y2) * (x2 - x2),
    ;
    assert(cross(pt(t.p1), pt(t.p3), pt(t.p2)) == -tot) by (nonlinear_arith)
        requires
            cross(pt(t.p1), pt(t.p3), pt(t.p2)) == (x3 - x1) * (y2 - y1) - (y3 - y1) * (x2 - x1),
            tot == (x2 - x1) * (y3 - y1) - (y2 - y1) * (x3 - x1),
    ;
    assert(t.covers(x2, y2));
    assert(cross(pt(t.p2), pt(t.p3), pt(t.p3)) == 0) by (nonlinear_arith)
        requires
            cross(pt(t.p2), pt(t.p3), pt(t.p3)) == (x3 - x2) * (y3 - y2) - (y3 - y2) * (x3 - x2),
    ;
    assert(cross(pt(t.p1), pt(t.p3), pt(t.p3)) == 0) by (nonlinear_arith)
        requires
            cross(pt(t.p1), pt(t.p3), pt(t.p3)) == (x3 - x1) * (y3 - y1) - (y3 - y1) * (x3 - x1),
    ;
    assert(t.covers(x3, y3));
}

/// A value whose product with a strictly one-signed weight sum equals
/// the correspondingly weighted sum of three bounded values is itself
/// bounded the same way.
proof fn lemma_weighted_average_bounded(
    v1: int,
    v2: int,
    v3: int,
    s1: int,
    s2: int,
    s3: int,
    v: int,
    lo: int,
    hi: int,
)
    requires
        v * (s1 + s2 + s3) == v1 * s2 + v2 * s3 + v3 * s1,
        lo <= v1 <= hi,
        lo <= v2 <= hi,
        lo <= v3 <= hi,
        (s1 > 0 && s2 > 0 && s3 > 0) || (s1 < 0 && s2 < 0 && s3 < 0),
    ensures
        lo <= v <= hi,
{
    assert(lo <= v <= hi) by (nonlinear_arith)
        requires
            v * (s1 + s2 + s3) == v1 * s2 + v2 * s3 + v3 * s1,
            lo <= v1 <= hi,
            lo <= v2 <= hi,
            lo <= v3 <= hi,
            (s1 > 0 && s2 > 0 && s3 > 0) || (s1 < 0 && s2 < 0 && s3 < 0),
    ;
}

/// The cross product of the edge vectors b - a and c - a, computed
/// exactly: with every coordinate at most MAX_TRIANGLE_COORD, each
/// product stays within 124 bits and their difference within 125.
fn cross_exec(a: (usize, usize), b: (usize, usize), c: (usize, usize)) -> (r: i128)
    requires
        a.0 <= MAX_TRIANGLE_COORD as int,
        a.1 <= MAX_TRIANGLE_COORD as int,
        b.0 <= MAX_TRIANGLE_COORD as int,
        b.1 <= MAX_TRIANGLE_COORD as int,
        c.0 <= MAX_TRIANGLE_COORD as int,
        c.1 <= MAX_TRIANGLE_COORD as int,
    ensures
        r == cross(pt(a), pt(b), pt(c)),
        -0x2000_0000_0000_0000_0000_0000_0000_0000i128 <= r
            <= 0x2000_0000_0000_0000_0000_0000_0000_0000i128,
{
    let v1x = b.0 as i128 - a.0 as i128;
    let v1y = b.1 as i128 - a.1 as i128;
    let v2x = c.0 as i128 - a.0 as i128;
    let v2y = c.1 as i128 - a.1 as i128;
    proof {
        lemma_mul_bound(v1x as int, v2y as int, MAX_TRIANGLE_COORD as int);
        lemma_mul_bound(v1y as int, v2x as int, MAX_TRIANGLE_COORD as int);
    }
    v1x * v2y - v1y * v2x
}

} // verus!
