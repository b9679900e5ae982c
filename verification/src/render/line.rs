//! The pixels of a line segment.
//!
//! A segment is drawn by walking from its first end to its second, one
//! pixel per step along the longer axis. The pixels that the walk visits
//! are stated here in closed form, and the walk is proved to visit exactly
//! those.

use vstd::prelude::*;

verus! {

/// Whether `n / d` rounded to the nearest integer is `k`, a half rounded up.
pub open spec fn rounds_to(n: int, d: int, k: int) -> bool {
    2 * (k * d) - d <= 2 * n < 2 * (k * d) + d
}

/// A quotient rounds to one integer only.
pub proof fn lemma_rounds_to_unique(n: int, d: int, k1: int, k2: int)
    requires
        d > 0,
        rounds_to(n, d, k1),
        rounds_to(n, d, k2),
    ensures
        k1 == k2,
{
    if k1 < k2 {
        assert(k2 * d >= (k1 + 1) * d) by (nonlinear_arith)
            requires
                k2 >= k1 + 1,
                d > 0,
        ;
        assert((k1 + 1) * d == k1 * d + d) by (nonlinear_arith);
    } else if k2 < k1 {
        assert(k1 * d >= (k2 + 1) * d) by (nonlinear_arith)
            requires
                k1 >= k2 + 1,
                d > 0,
        ;
        assert((k2 + 1) * d == k2 * d + d) by (nonlinear_arith);
    }
}

/// Length of a segment along one axis, between the coordinates of its
/// ends.
pub open spec fn span(x1: int, x2: int) -> int {
    if x1 < x2 {
        x2 - x1
    } else {
        x1 - x2
    }
}

/// How far `p` lies from `x1` in the direction of `x2`.
pub open spec fn offset_along(x1: int, x2: int, p: int) -> int {
    if x1 < x2 {
        p - x1
    } else {
        x1 - p
    }
}

/// Whether `(p, q)` is a pixel of the segment from `(x1, y1)` to `(x2, y2)`.
/// The segment has one pixel for every step along its longer axis; across
/// it, the pixel is the one nearest to the ideal line, a tie going to the
/// far side from the start.
pub open spec fn on_segment(x1: int, y1: int, x2: int, y2: int, p: int, q: int) -> bool {
    let a = span(x1, x2);
    let b = span(y1, y2);
    let i = offset_along(x1, x2, p);
    let j = offset_along(y1, y2, q);
    if a == 0 && b == 0 {
        p == x1 && q == y1
    } else if a >= b {
        0 <= i <= a && rounds_to(i * b, a, j)
    } else {
        0 <= j <= b && rounds_to(j * a, b, i)
    }
}

/// How many steps along its longer axis the segment takes to reach the
/// pixel `(p, q)`.
pub open spec fn steps_to(x1: int, y1: int, x2: int, y2: int, p: int, q: int) -> int {
    if span(x1, x2) >= span(y1, y2) {
        offset_along(x1, x2, p)
    } else {
        offset_along(y1, y2, q)
    }
}

/// The state of the line walk after `i` steps along x and `j` steps along
/// y: where it stands, and how its error term stands for the two products
/// `ib == i * b` and `ja == j * a`.
pub(crate) closed spec fn line_state(
    x1: int,
    y1: int,
    x2: int,
    y2: int,
    x: int,
    y: int,
    i: int,
    j: int,
    ib: int,
    ja: int,
    err: int,
) -> bool {
    let a = span(x1, x2);
    let b = span(y1, y2);
    &&& 0 <= i <= a
    &&& 0 <= j <= b
    &&& i == offset_along(x1, x2, x)
    &&& j == offset_along(y1, y2, y)
    &&& ib == i * b
    &&& ja == j * a
    &&& err == ja + a - ib - b
    &&& (a >= b && a > 0 ==> 2 * ja - a <= 2 * ib < 2 * ja + a)
    &&& (b > a ==> 2 * ib - b <= 2 * ja < 2 * ib + b)
}

/// The walk starts at the segment's first end.
pub(crate) proof fn lemma_line_start(x1: int, y1: int, x2: int, y2: int)
    ensures
        line_state(x1, y1, x2, y2, x1, y1, 0, 0, 0, 0, span(x1, x2) - span(y1, y2)),
{
    let a = span(x1, x2);
    let b = span(y1, y2);
    assert(0 * b == 0) by (nonlinear_arith);
    assert(0 * a == 0) by (nonlinear_arith);
}

/// Where the walk stands, its error term is small, and at the segment's
/// far end it has taken every step.
pub(crate) proof fn lemma_line_bounds(
    x1: int,
    y1: int,
    x2: int,
    y2: int,
    x: int,
    y: int,
    i: int,
    j: int,
    ib: int,
    ja: int,
    err: int,
)
    requires
        line_state(x1, y1, x2, y2, x, y, i, j, ib, ja, err),
    ensures
        0 <= i <= span(x1, x2),
        0 <= j <= span(y1, y2),
        -2 * span(y1, y2) <= err <= 2 * span(x1, x2),
        x1 <= x <= x2 || x2 <= x <= x1,
        y1 <= y <= y2 || y2 <= y <= y1,
        x == x2 ==> i == span(x1, x2),
        y == y2 ==> j == span(y1, y2),
{
    let a = span(x1, x2);
    let b = span(y1, y2);
    if a == 0 && b == 0 {
        assert(0 * b == 0) by (nonlinear_arith);
        assert(0 * a == 0) by (nonlinear_arith);
    }
}

/// One step of the walk. Before the far end the walk always advances along
/// the segment's longer axis, stays within the segment's bounding box, and
/// keeps its offset across rounded to the nearest pixel.
pub(crate) proof fn lemma_line_step(
    x1: int,
    y1: int,
    x2: int,
    y2: int,
    x: int,
    y: int,
    i: int,
    j: int,
    ib: int,
    ja: int,
    err: int,
)
    requires
        line_state(x1, y1, x2, y2, x, y, i, j, ib, ja, err),
        !(x == x2 && y == y2),
    ensures
        ({
            let a = span(x1, x2);
            let b = span(y1, y2);
            let sx = if x1 < x2 { 1int } else { -1int };
            let sy = if y1 < y2 { 1int } else { -1int };
            let step_x = 2 * err >= -b;
            let step_y = 2 * err <= a;
            let i2 = if step_x { i + 1 } else { i };
            let j2 = if step_y { j + 1 } else { j };
            let x_next = if step_x { x + sx } else { x };
            let y_next = if step_y { y + sy } else { y };
            let ib2 = if step_x { ib + b } else { ib };
            let ja2 = if step_y { ja + a } else { ja };
            let err2 = err - (if step_x { b } else { 0 }) + (if step_y { a } else { 0 });
            &&& (a >= b ==> step_x)
            &&& (b > a ==> step_y)
            &&& line_state(x1, y1, x2, y2, x_next, y_next, i2, j2, ib2, ja2, err2)
        }),
{
    let a = span(x1, x2);
    let b = span(y1, y2);
    assert(a * b == b * a) by (nonlinear_arith);
    assert((i + 1) * b == i * b + b) by (nonlinear_arith);
    assert((j + 1) * a == j * a + a) by (nonlinear_arith);
    assert((b + 1) * a == b * a + a) by (nonlinear_arith);
    assert((a + 1) * b == a * b + b) by (nonlinear_arith);
    if a >= b {
        assert(a > 0);
        if i == a {
            assert(rounds_to(ib, a, j));
            assert(rounds_to(ib, a, b));
            lemma_rounds_to_unique(ib, a, j, b);
        }
        assert(i < a);
        assert((i + 1) * b <= a * b) by (nonlinear_arith)
            requires
                i + 1 <= a,
                0 <= b,
        ;
        if 2 * err <= a && j >= b {
            assert((j + 1) * a >= (b + 1) * a) by (nonlinear_arith)
                requires
                    j + 1 >= b + 1,
                    0 <= a,
            ;
        }
    } else {
        if j == b {
            assert(rounds_to(ja, b, i));
            assert(rounds_to(ja, b, a));
            lemma_rounds_to_unique(ja, b, i, a);
        }
        assert(j < b);
        assert((j + 1) * a <= b * a) by (nonlinear_arith)
            requires
                j + 1 <= b,
                0 <= a,
        ;
        if 2 * err >= -b && i >= a {
            assert((i + 1) * b >= (a + 1) * b) by (nonlinear_arith)
                requires
                    i + 1 >= a + 1,
                    0 <= b,
            ;
        }
    }
}

/// Where the walk stands is the one pixel that the segment has at that
/// many steps along its longer axis.
pub(crate) proof fn lemma_line_paint(
    x1: int,
    y1: int,
    x2: int,
    y2: int,
    x: int,
    y: int,
    i: int,
    j: int,
    ib: int,
    ja: int,
    err: int,
    p: int,
    q: int,
)
    requires
        line_state(x1, y1, x2, y2, x, y, i, j, ib, ja, err),
    ensures
        (p == x && q == y) <==> (on_segment(x1, y1, x2, y2, p, q) && steps_to(
            x1,
            y1,
            x2,
            y2,
            p,
            q,
        ) == steps_to(x1, y1, x2, y2, x, y)),
        steps_to(x1, y1, x2, y2, x, y) == if span(x1, x2) >= span(y1, y2) {
            i
        } else {
            j
        },
{
    let a = span(x1, x2);
    let b = span(y1, y2);
    let pi = offset_along(x1, x2, p);
    let qj = offset_along(y1, y2, q);
    if a == 0 && b == 0 {
    } else if a >= b {
        assert(rounds_to(ib, a, j));
        if on_segment(x1, y1, x2, y2, p, q) && pi == i {
            lemma_rounds_to_unique(ib, a, j, qj);
        }
    } else {
        assert(rounds_to(ja, b, i));
        if on_segment(x1, y1, x2, y2, p, q) && qj == j {
            lemma_rounds_to_unique(ja, b, i, pi);
        }
    }
}

/// A segment includes both of its ends.
pub proof fn lemma_segment_has_both_ends(x1: int, y1: int, x2: int, y2: int)
    ensures
        on_segment(x1, y1, x2, y2, x1, y1),
        on_segment(x1, y1, x2, y2, x2, y2),
{
    let a = span(x1, x2);
    let b = span(y1, y2);
    assert(0 * b == 0) by (nonlinear_arith);
    assert(0 * a == 0) by (nonlinear_arith);
    assert(a * b == b * a) by (nonlinear_arith);
}

/// A segment lies within the box that its ends span.
pub proof fn lemma_segment_within_box(x1: int, y1: int, x2: int, y2: int, p: int, q: int)
    requires
        on_segment(x1, y1, x2, y2, p, q),
    ensures
        x1 <= p <= x2 || x2 <= p <= x1,
        y1 <= q <= y2 || y2 <= q <= y1,
{
    let a = span(x1, x2);
    let b = span(y1, y2);
    let i = offset_along(x1, x2, p);
    let j = offset_along(y1, y2, q);
    if a == 0 && b == 0 {
    } else if a >= b {
        lemma_rounding_within(i, b, a, j);
    } else {
        lemma_rounding_within(j, a, b, i);
    }
}

/// Where `0 <= i <= d` and `0 <= n <= d`, the quotient `i * n / d` rounds to
/// a number from `0` to `n`.
proof fn lemma_rounding_within(i: int, n: int, d: int, k: int)
    requires
        0 <= i <= d,
        0 <= n <= d,
        d > 0,
        rounds_to(i * n, d, k),
    ensures
        0 <= k <= n,
{
    assert(0 <= i * n <= d * n) by (nonlinear_arith)
        requires
            0 <= i <= d,
            0 <= n,
    ;
    if k < 0 {
        assert(k * d <= -d) by (nonlinear_arith)
            requires
                k <= -1,
                d > 0,
        ;
    }
    if k > n {
        assert(k * d >= (n + 1) * d) by (nonlinear_arith)
            requires
                k >= n + 1,
                d > 0,
        ;
        assert((n + 1) * d == d * n + d) by (nonlinear_arith);
    }
}

} // verus!
