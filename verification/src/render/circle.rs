//! The pixels of the outline of a circle.
//!
//! An outline is drawn by walking one octant, from the axis to the diagonal,
//! and mirroring every point into the other seven. The pixels that the walk
//! visits are stated here in closed form, and the walk is proved to visit
//! exactly those.

use vstd::prelude::*;

verus! {

/// The distance between two coordinates.
pub open spec fn distance(a: int, b: int) -> int {
    if a < b {
        b - a
    } else {
        a - b
    }
}

/// The smaller of two numbers.
pub open spec fn smaller(a: int, b: int) -> int {
    if a <= b {
        a
    } else {
        b
    }
}

/// Whether, in the octant where `0 <= lo <= hi`, the circle of radius `r`
/// has its pixel at offset `lo` on the one axis at offset `hi` on the other:
/// `hi` is the circle's height over `lo`, the square root of
/// `r * r - lo * lo`, rounded to the nearest integer.
pub open spec fn on_arc(r: int, lo: int, hi: int) -> bool {
    0 <= lo <= hi && hi * hi - hi < r * r - lo * lo <= hi * hi + hi
}

/// Whether offsets `u` and `v` from the centre, in either order, make a
/// pixel of the circle of radius `r`.
pub open spec fn arc_pixel(r: int, u: int, v: int) -> bool {
    if u <= v {
        on_arc(r, u, v)
    } else {
        on_arc(r, v, u)
    }
}

/// Whether `(p, q)` is a pixel of the outline of the circle of radius `r`
/// around `(cx, cy)`. A circle without a positive radius has no pixel.
pub open spec fn on_circle(cx: int, cy: int, r: int, p: int, q: int) -> bool {
    r > 0 && arc_pixel(r, distance(p, cx), distance(q, cy))
}

/// Whether `(p, q)` is one of the up to eight mirror images of the point at
/// offsets `(x, y)` from `(cx, cy)`.
pub open spec fn is_octant_image(cx: int, cy: int, x: int, y: int, p: int, q: int) -> bool {
    let u = distance(p, cx);
    let v = distance(q, cy);
    (u == x && v == y) || (u == y && v == x)
}

/// A circle has one height over each offset.
pub proof fn lemma_on_arc_unique(r: int, lo: int, h1: int, h2: int)
    requires
        on_arc(r, lo, h1),
        on_arc(r, lo, h2),
    ensures
        h1 == h2,
{
    if h1 < h2 {
        assert(h2 * h2 - h2 >= h1 * h1 + h1) by (nonlinear_arith)
            requires
                0 <= h1,
                h1 + 1 <= h2,
        ;
    } else if h2 < h1 {
        assert(h1 * h1 - h1 >= h2 * h2 + h2) by (nonlinear_arith)
            requires
                0 <= h2,
                h2 + 1 <= h1,
        ;
    }
}

/// The state of the circle walk at offsets `(x, y)` with decision term `d`:
/// within the first octant the walk stands on the circle; one step beyond
/// the diagonal it stands on the mirror image of where it stood before.
pub(crate) closed spec fn circle_state(r: int, x: int, y: int, d: int) -> bool {
    &&& r > 0
    &&& 0 <= x <= y + 1
    &&& 0 <= y <= r
    &&& d == x * x + 2 * x + 1 + y * y - y - r * r
    &&& if x <= y {
        on_arc(r, x, y)
    } else {
        on_arc(r, y, x) && r * r <= 2 * (x * x) - x
    }
}

/// The walk starts on the axis, at the radius.
pub(crate) proof fn lemma_circle_start(r: int)
    requires
        r > 0,
    ensures
        circle_state(r, 0, r, 1 - r),
{
    assert(0 * 0 == 0) by (nonlinear_arith);
}

/// The walk stays within reach of the radius.
pub(crate) proof fn lemma_circle_reach(r: int, x: int, y: int, d: int)
    requires
        circle_state(r, x, y, d),
    ensures
        0 <= x <= r + 1,
        0 <= y <= r,
{
}

/// Within the first octant the decision term is small.
pub(crate) proof fn lemma_circle_bounds(r: int, x: int, y: int, d: int)
    requires
        circle_state(r, x, y, d),
        x <= y,
    ensures
        2 * x + 1 - 2 * y <= d < 2 * x + 1,
{
}

/// One step of the walk: the offset along grows by one, and the offset
/// across stays or shrinks by one as the decision term says.
pub(crate) proof fn lemma_circle_step(r: int, x: int, y: int, d: int)
    requires
        circle_state(r, x, y, d),
        x < y,
    ensures
        d < 0 ==> circle_state(r, x + 1, y, d + 2 * x + 3),
        d >= 0 ==> circle_state(r, x + 1, y - 1, d + 2 * (x - y) + 5),
{
    assert((x + 1) * (x + 1) == x * x + 2 * x + 1) by (nonlinear_arith);
    assert((y - 1) * (y - 1) == y * y - 2 * y + 1) by (nonlinear_arith);
}

/// Where the walk stands, the pixels of the circle at the smaller of its two
/// offsets are the mirror images of that point.
pub(crate) proof fn lemma_circle_cover(r: int, x: int, y: int, d: int, u: int, v: int)
    requires
        circle_state(r, x, y, d),
        0 <= u,
        0 <= v,
    ensures
        ((u == x && v == y) || (u == y && v == x)) <==> (arc_pixel(r, u, v) && smaller(u, v)
            == smaller(x, y)),
{
    if arc_pixel(r, u, v) && smaller(u, v) == smaller(x, y) {
        if x <= y {
            if u <= v {
                lemma_on_arc_unique(r, x, y, v);
            } else {
                lemma_on_arc_unique(r, x, y, u);
            }
        } else {
            if u <= v {
                lemma_on_arc_unique(r, y, x, v);
            } else {
                lemma_on_arc_unique(r, y, x, u);
            }
        }
    }
}

/// Once the walk has reached the diagonal, the circle has no pixel at a
/// larger smaller offset.
pub(crate) proof fn lemma_circle_done(r: int, x: int, y: int, d: int, u: int, v: int)
    requires
        circle_state(r, x, y, d),
        x >= y,
        arc_pixel(r, u, v),
    ensures
        smaller(u, v) <= smaller(x, y),
{
    let lo = smaller(u, v);
    let hi = if u <= v { v } else { u };
    if lo > y {
        assert(lo * lo >= (y + 1) * (y + 1)) by (nonlinear_arith)
            requires
                lo >= y + 1,
                y >= 0,
        ;
        assert(hi * hi - hi >= (y + 1) * (y + 1) - (y + 1)) by (nonlinear_arith)
            requires
                hi >= y + 1,
                y >= 0,
        ;
        assert((y + 1) * (y + 1) == y * y + 2 * y + 1) by (nonlinear_arith);
    }
}

/// A circle has the four points at its radius along the axes.
pub proof fn lemma_circle_has_cardinals(cx: int, cy: int, r: int)
    requires
        r > 0,
    ensures
        on_circle(cx, cy, r, cx + r, cy),
        on_circle(cx, cy, r, cx - r, cy),
        on_circle(cx, cy, r, cx, cy + r),
        on_circle(cx, cy, r, cx, cy - r),
{
    assert(0 * 0 == 0) by (nonlinear_arith);
}

/// A circle is its own mirror image in both axes and in the diagonals
/// through its centre.
pub proof fn lemma_circle_symmetric(cx: int, cy: int, r: int, p: int, q: int)
    ensures
        on_circle(cx, cy, r, p, q) == on_circle(cx, cy, r, 2 * cx - p, q),
        on_circle(cx, cy, r, p, q) == on_circle(cx, cy, r, p, 2 * cy - q),
        on_circle(cx, cy, r, p, q) == on_circle(cx, cy, r, cx + (q - cy), cy + (p - cx)),
{
}

/// The pixels of a circle lie within its radius of the centre along each
/// axis.
pub proof fn lemma_circle_within_radius(cx: int, cy: int, r: int, p: int, q: int)
    requires
        on_circle(cx, cy, r, p, q),
    ensures
        distance(p, cx) <= r,
        distance(q, cy) <= r,
{
    let u = distance(p, cx);
    let v = distance(q, cy);
    let hi = if u <= v { v } else { u };
    let lo = if u <= v { u } else { v };
    if hi > r {
        assert(hi * hi - hi >= r * r) by (nonlinear_arith)
            requires
                hi >= r + 1,
                r > 0,
        ;
        assert(lo * lo >= 0) by (nonlinear_arith);
    }
}

} // verus!
