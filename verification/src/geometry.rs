//! The row-major pixel-buffer model shared by every canvas operation, and
//! the arithmetic facts about it that the fill algorithms need.

use vstd::prelude::*;

use vstd::arithmetic::div_mod::lemma_div_is_ordered;
use vstd::arithmetic::div_mod::lemma_div_multiples_vanish;

verus! {

/// The packed value of pixel (x, y) in a row-major buffer of width `w`.
pub open spec fn pixel_at(buf: Seq<u32>, w: int, x: int, y: int) -> u32 {
    buf[y * w + x]
}

/// Absolute value of a mathematical integer.
pub open spec fn abs(a: int) -> int {
    if a >= 0 {
        a
    } else {
        -a
    }
}

/// The row-major position of an in-bounds coordinate pair lies inside a
/// buffer of `w * h` cells.
pub proof fn lemma_row_major_in_range(w: int, h: int, x: int, y: int)
    requires
        0 <= x < w,
        0 <= y < h,
    ensures
        0 <= y * w + x < w * h,
{
    assert(0 <= y * w + x < w * h) by (nonlinear_arith)
        requires
            0 <= x < w,
            0 <= y < h,
    ;
}

/// The product of two values bounded by m is bounded by m squared.
pub proof fn lemma_mul_le(a: int, b: int, m: int)
    requires
        0 <= a <= m,
        0 <= b <= m,
    ensures
        0 <= a * b <= m * m,
{
    assert(0 <= a * b <= m * m) by (nonlinear_arith)
        requires
            0 <= a <= m,
            0 <= b <= m,
    ;
}

/// The product of two values bounded by m in magnitude is bounded by m
/// squared in magnitude.
pub proof fn lemma_mul_bound(a: int, b: int, m: int)
    requires
        -m <= a <= m,
        -m <= b <= m,
        0 <= m,
    ensures
        -(m * m) <= a * b <= m * m,
{
    assert(-(m * m) <= a * b <= m * m) by (nonlinear_arith)
        requires
            -m <= a <= m,
            -m <= b <= m,
            0 <= m,
    ;
}

/// Squaring forgets the sign of a difference.
pub proof fn lemma_square_diff(a: int, b: int)
    ensures
        (a - b) * (a - b) == (b - a) * (b - a),
{
    assert((a - b) * (a - b) == (b - a) * (b - a)) by (nonlinear_arith);
}

/// Linear interpolation from s to e over d steps: after t of them the
/// dividend of the interpolation quotient is nonnegative, and the
/// quotient itself lies between the two endpoints.
pub proof fn lemma_interp_bounds(s: int, e: int, d: int, t: int)
    requires
        0 <= s,
        0 <= e,
        0 < d,
        0 <= t <= d,
    ensures
        s * d + (e - s) * t >= 0,
        (e - s) * t == -((s - e) * t),
        e >= s ==> s * d <= s * d + (e - s) * t <= e * d,
        e < s ==> e * d <= s * d + (e - s) * t <= s * d,
        e >= s ==> s <= (s * d + (e - s) * t) / d <= e,
        e < s ==> e <= (s * d + (e - s) * t) / d <= s,
{
    let num = s * d + (e - s) * t;
    assert((e - s) * t == -((s - e) * t)) by (nonlinear_arith);
    assert(e >= s ==> s * d <= num <= e * d) by (nonlinear_arith)
        requires
            num == s * d + (e - s) * t,
            0 <= t <= d,
    ;
    assert(e < s ==> e * d <= num <= s * d) by (nonlinear_arith)
        requires
            num == s * d + (e - s) * t,
            0 <= t <= d,
    ;
    assert(0 <= s * d && 0 <= e * d) by (nonlinear_arith)
        requires
            0 <= s,
            0 <= e,
            0 < d,
    ;
    assert(s * d == d * s) by (nonlinear_arith);
    assert(e * d == d * e) by (nonlinear_arith);
    lemma_div_multiples_vanish(s, d);
    lemma_div_multiples_vanish(e, d);
    if e >= s {
        lemma_div_is_ordered(s * d, num, d);
        lemma_div_is_ordered(num, e * d, d);
    } else {
        lemma_div_is_ordered(e * d, num, d);
        lemma_div_is_ordered(num, s * d, d);
    }
}

/// A point of the discrete disk lies inside the disk's bounding box.
pub proof fn lemma_disk_bounds(cx: int, cy: int, r: int, x: int, y: int)
    requires
        0 <= r,
        (x - cx) * (x - cx) + (y - cy) * (y - cy) <= r * r,
    ensures
        cx - r <= x <= cx + r,
        cy - r <= y <= cy + r,
{
    assert(cx - r <= x <= cx + r) by (nonlinear_arith)
        requires
            0 <= r,
            (x - cx) * (x - cx) + (y - cy) * (y - cy) <= r * r,
    ;
    assert(cy - r <= y <= cy + r) by (nonlinear_arith)
        requires
            0 <= r,
            (x - cx) * (x - cx) + (y - cy) * (y - cy) <= r * r,
    ;
}

/// Distinct in-bounds coordinate pairs occupy distinct row-major positions.
pub proof fn lemma_row_major_injective(w: int, x1: int, y1: int, x2: int, y2: int)
    requires
        0 <= x1 < w,
        0 <= x2 < w,
        0 <= y1,
        0 <= y2,
        y1 * w + x1 == y2 * w + x2,
    ensures
        x1 == x2,
        y1 == y2,
{
    assert(x1 == x2 && y1 == y2) by (nonlinear_arith)
        requires
            0 <= x1 < w,
            0 <= x2 < w,
            0 <= y1,
            0 <= y2,
            y1 * w + x1 == y2 * w + x2,
    ;
}

} // verus!
