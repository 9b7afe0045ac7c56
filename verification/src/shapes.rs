//! The pixels of straight lines and circles.
//!
//! Both are strokes one pixel wide. A line takes, in every column (or, if
//! it is steeper than a diagonal, in every row) between its ends, the pixel
//! nearest to the ideal line. A circle takes, for every distance from one
//! axis up to the diagonal, the pixels nearest to the ideal circle, in all
//! eight octants.

use vstd::prelude::*;

verus! {

/// Whether `q` is `num / den` rounded to the nearest integer, a half
/// rounded up. `den` is positive.
pub open spec fn rounds_to(num: int, den: int, q: int) -> bool {
    -den <= 2 * (num - den * q) < den
}

/// Whether `(x, y)` is a pixel of the line from `(x0, y0)` to `(x1, y1)`,
/// which runs to the right and is no steeper than a diagonal.
pub open spec fn on_shallow(x0: int, y0: int, x1: int, y1: int, x: int, y: int) -> bool {
    x0 <= x <= x1 && rounds_to((y1 - y0) * (x - x0), x1 - x0, y - y0)
}

pub open spec fn dist(a: int, b: int) -> int {
    if a < b {
        b - a
    } else {
        a - b
    }
}

/// Whether `(x, y)` is a pixel of the line from `(x0, y0)` to `(x1, y1)`.
pub open spec fn on_line(x0: int, y0: int, x1: int, y1: int, x: int, y: int) -> bool {
    if x0 == x1 && y0 == y1 {
        x == x0 && y == y0
    } else if dist(x0, x1) >= dist(y0, y1) {
        if x0 < x1 {
            on_shallow(x0, y0, x1, y1, x, y)
        } else {
            on_shallow(x1, y1, x0, y0, x, y)
        }
    } else {
        if y0 < y1 {
            on_shallow(y0, x0, y1, x1, y, x)
        } else {
            on_shallow(y1, x1, y0, x0, y, x)
        }
    }
}

/// The pixels of a line that runs to the right and is no steeper than a
/// diagonal or, if `steep`, of its mirror image in the diagonal.
pub open spec fn shallow_points(x0: int, y0: int, x1: int, y1: int, steep: bool) -> Set<(int, int)> {
    Set::new(
        |p: (int, int)|
            if steep {
                on_shallow(x0, y0, x1, y1, p.1, p.0)
            } else {
                on_shallow(x0, y0, x1, y1, p.0, p.1)
            },
    )
}

/// The pixels of the line from `(x0, y0)` to `(x1, y1)`.
pub open spec fn line_points(x0: int, y0: int, x1: int, y1: int) -> Set<(int, int)> {
    Set::new(|p: (int, int)| on_line(x0, y0, x1, y1, p.0, p.1))
}

/// A quotient rounds to one integer only.
pub proof fn lemma_rounds_to_unique(num: int, den: int, q1: int, q2: int)
    requires
        den > 0,
        rounds_to(num, den, q1),
        rounds_to(num, den, q2),
    ensures
        q1 == q2,
{
    assert(q1 == q2) by (nonlinear_arith)
        requires
            den > 0,
            -den <= 2 * (num - den * q1) < den,
            -den <= 2 * (num - den * q2) < den,
    ;
}

/// Every quotient rounds to some integer.
pub proof fn lemma_rounds_to_some(num: int, den: int) -> (q: int)
    requires
        den > 0,
    ensures
        rounds_to(num, den, q),
{
    let n = 2 * num + den;
    let d = 2 * den;
    let q = n / d;
    assert(d * q <= n < d * q + d) by (nonlinear_arith)
        requires
            q == n / d,
            d > 0,
    ;
    assert(d * q == 2 * (den * q)) by (nonlinear_arith)
        requires
            d == 2 * den,
    ;
    q
}

/// From one column to the next, a line that is no steeper than a diagonal
/// stays in its row or moves to a neighbouring one: the stroke has no
/// gaps.
pub proof fn lemma_shallow_connected(x0: int, y0: int, x1: int, y1: int, x: int, ya: int, yb: int)
    requires
        x0 < x1,
        dist(y0, y1) <= x1 - x0,
        on_shallow(x0, y0, x1, y1, x, ya),
        on_shallow(x0, y0, x1, y1, x + 1, yb),
    ensures
        dist(ya, yb) <= 1,
{
    let dx = x1 - x0;
    let dy = y1 - y0;
    let na = dy * (x - x0);
    let nb = dy * (x + 1 - x0);
    assert(nb == na + dy) by (nonlinear_arith)
        requires
            na == dy * (x - x0),
            nb == dy * (x + 1 - x0),
    ;
    let qa = ya - y0;
    let qb = yb - y0;
    assert(-1 <= qb - qa <= 1) by (nonlinear_arith)
        requires
            dx > 0,
            -dx <= dy <= dx,
            nb == na + dy,
            -dx <= 2 * (na - dx * qa) < dx,
            -dx <= 2 * (nb - dx * qb) < dx,
    ;
}

/// A line that is no steeper than a diagonal has a pixel in every column
/// between its ends, and every pixel of it lies between the rows of its
/// ends.
pub proof fn lemma_shallow_covers(x0: int, y0: int, x1: int, y1: int, x: int) -> (y: int)
    requires
        x0 < x1,
        dist(y0, y1) <= x1 - x0,
        x0 <= x <= x1,
    ensures
        on_shallow(x0, y0, x1, y1, x, y),
        y0 <= y <= y1 || y1 <= y <= y0,
{
    let dx = x1 - x0;
    let dy = y1 - y0;
    let k = x - x0;
    let q = lemma_rounds_to_some(dy * k, dx);
    assert(0 <= q <= dy || dy <= q <= 0) by (nonlinear_arith)
        requires
            dx > 0,
            0 <= k <= dx,
            -dx <= dy <= dx,
            -dx <= 2 * (dy * k - dx * q) < dx,
    ;
    y0 + q
}

/// A line is the same set of pixels from either end.
pub proof fn lemma_line_symmetric(x0: int, y0: int, x1: int, y1: int)
    ensures
        line_points(x0, y0, x1, y1) == line_points(x1, y1, x0, y0),
{
    assert(line_points(x0, y0, x1, y1) =~= line_points(x1, y1, x0, y0));
}

proof fn lemma_shallow_ends(x0: int, y0: int, x1: int, y1: int)
    requires
        x0 < x1,
    ensures
        on_shallow(x0, y0, x1, y1, x0, y0),
        on_shallow(x0, y0, x1, y1, x1, y1),
{
    let dx = x1 - x0;
    let dy = y1 - y0;
    assert(dy * 0 == 0 && dx * 0 == 0) by (nonlinear_arith);
    assert(dy * dx - dx * dy == 0) by (nonlinear_arith);
}

/// Both ends of a line are pixels of it.
pub proof fn lemma_line_ends(x0: int, y0: int, x1: int, y1: int)
    ensures
        on_line(x0, y0, x1, y1, x0, y0),
        on_line(x0, y0, x1, y1, x1, y1),
{
    if x0 == x1 && y0 == y1 {
    } else if dist(x0, x1) >= dist(y0, y1) {
        if x0 < x1 {
            lemma_shallow_ends(x0, y0, x1, y1);
        } else {
            lemma_shallow_ends(x1, y1, x0, y0);
        }
    } else {
        if y0 < y1 {
            lemma_shallow_ends(y0, x0, y1, x1);
        } else {
            lemma_shallow_ends(y1, x1, y0, x0);
        }
    }
}

/// A line that is no steeper than a diagonal has one pixel in every
/// column that it crosses, and none elsewhere; a steeper line has one pixel
/// in every row.
pub proof fn lemma_line_one_pixel_wide(
    x0: int,
    y0: int,
    x1: int,
    y1: int,
    x: int,
    ya: int,
    yb: int,
    xa: int,
    xb: int,
    y: int,
)
    requires
        !(x0 == x1 && y0 == y1),
    ensures
        dist(x0, x1) >= dist(y0, y1) && on_line(x0, y0, x1, y1, x, ya) && on_line(x0, y0, x1, y1, x, yb)
            ==> ya == yb,
        dist(x0, x1) < dist(y0, y1) && on_line(x0, y0, x1, y1, xa, y) && on_line(x0, y0, x1, y1, xb, y)
            ==> xa == xb,
{
    if dist(x0, x1) >= dist(y0, y1) {
        if on_line(x0, y0, x1, y1, x, ya) && on_line(x0, y0, x1, y1, x, yb) {
            if x0 < x1 {
                lemma_rounds_to_unique((y1 - y0) * (x - x0), x1 - x0, ya - y0, yb - y0);
            } else {
                lemma_rounds_to_unique((y0 - y1) * (x - x1), x0 - x1, ya - y1, yb - y1);
            }
        }
    } else {
        if on_line(x0, y0, x1, y1, xa, y) && on_line(x0, y0, x1, y1, xb, y) {
            if y0 < y1 {
                lemma_rounds_to_unique((x1 - x0) * (y - y0), y1 - y0, xa - x0, xb - x0);
            } else {
                lemma_rounds_to_unique((x0 - x1) * (y - y1), y0 - y1, xa - x1, xb - x1);
            }
        }
    }
}

/// Whether `a` is the square root of `n` rounded to the nearest integer.
pub open spec fn nearest_root(n: int, a: int) -> bool {
    &&& a >= 0
    &&& 0 <= n <= a * a + a
    &&& a == 0 || a * a - a < n
}

/// The greater of the distances of `(x, y)` from the two axes through
/// `(cx, cy)`.
pub open spec fn major(cx: int, cy: int, x: int, y: int) -> int {
    if dist(x, cx) >= dist(y, cy) {
        dist(x, cx)
    } else {
        dist(y, cy)
    }
}

/// The lesser of the distances of `(x, y)` from the two axes through
/// `(cx, cy)`.
pub open spec fn minor(cx: int, cy: int, x: int, y: int) -> int {
    if dist(x, cx) >= dist(y, cy) {
        dist(y, cy)
    } else {
        dist(x, cx)
    }
}

/// Whether `(x, y)` is a pixel of the circle of radius `r` about
/// `(cx, cy)`: of the pixels at its distance from the nearer axis, it is
/// one of those nearest to the ideal circle.
pub open spec fn on_circle(cx: int, cy: int, r: int, x: int, y: int) -> bool {
    nearest_root(r * r - minor(cx, cy, x, y) * minor(cx, cy, x, y), major(cx, cy, x, y))
}

/// The pixels of the circle of radius `r` about `(cx, cy)`.
pub open spec fn circle_points(cx: int, cy: int, r: int) -> Set<(int, int)> {
    Set::new(|p: (int, int)| on_circle(cx, cy, r, p.0, p.1))
}

/// The pixels at the distances `a` and `b` from the two axes through
/// `(cx, cy)`, in all eight octants.
pub open spec fn octant_points(cx: int, cy: int, a: int, b: int) -> Set<(int, int)> {
    Set::new(
        |p: (int, int)|
            (dist(p.0, cx) == a && dist(p.1, cy) == b) || (dist(p.0, cx) == b && dist(p.1, cy) == a),
    )
}

/// A number has one nearest root only.
pub proof fn lemma_nearest_root_unique(n: int, a1: int, a2: int)
    requires
        nearest_root(n, a1),
        nearest_root(n, a2),
    ensures
        a1 == a2,
{
    if a1 < a2 {
        assert(a2 * a2 - a2 >= a1 * a1 + a1) by (nonlinear_arith)
            requires
                0 <= a1 < a2,
        ;
    } else if a2 < a1 {
        assert(a1 * a1 - a1 >= a2 * a2 + a2) by (nonlinear_arith)
            requires
                0 <= a2 < a1,
        ;
    }
}

/// The circle meets both axes at the distance of the radius.
pub proof fn lemma_circle_axes(cx: int, cy: int, r: int)
    requires
        r >= 0,
    ensures
        on_circle(cx, cy, r, cx + r, cy),
        on_circle(cx, cy, r, cx - r, cy),
        on_circle(cx, cy, r, cx, cy + r),
        on_circle(cx, cy, r, cx, cy - r),
{
    assert(r * r - 0 * 0 == r * r) by (nonlinear_arith);
    assert(r * r >= 0) by (nonlinear_arith);
}

/// A circle is the same in all eight octants: a pixel belongs to it or
/// not by its distances from the two axes alone, whichever is which.
pub proof fn lemma_circle_symmetric(cx: int, cy: int, r: int, x1: int, y1: int, x2: int, y2: int)
    requires
        (dist(x1, cx) == dist(x2, cx) && dist(y1, cy) == dist(y2, cy)) || (dist(x1, cx) == dist(y2, cy)
            && dist(y1, cy) == dist(x2, cx)),
    ensures
        on_circle(cx, cy, r, x1, y1) == on_circle(cx, cy, r, x2, y2),
{
}

/// Of the pixels of a circle, those at the distance `b` from the nearer
/// axis are the eight at the distances `a` and `b`, where `a` is the
/// nearest root that belongs to `b`.
pub proof fn lemma_circle_octants(cx: int, cy: int, r: int, a: int, b: int, p: (int, int))
    requires
        0 <= b <= a,
        nearest_root(r * r - b * b, a),
    ensures
        octant_points(cx, cy, a, b).contains(p) <==> on_circle(cx, cy, r, p.0, p.1) && minor(
            cx,
            cy,
            p.0,
            p.1,
        ) == b,
{
    if on_circle(cx, cy, r, p.0, p.1) && minor(cx, cy, p.0, p.1) == b {
        lemma_nearest_root_unique(r * r - b * b, a, major(cx, cy, p.0, p.1));
    }
}

/// Beyond the distance at which the nearest root falls below it, a circle
/// has no pixels.
pub proof fn lemma_circle_ends(cx: int, cy: int, r: int, a: int, b: int, p: (int, int))
    requires
        0 <= a < b,
        r * r - b * b <= a * a + a,
        on_circle(cx, cy, r, p.0, p.1),
    ensures
        minor(cx, cy, p.0, p.1) < b,
{
    let m = minor(cx, cy, p.0, p.1);
    let g = major(cx, cy, p.0, p.1);
    if m >= b {
        assert(m * m >= b * b) by (nonlinear_arith)
            requires
                m >= b >= 0,
        ;
        assert(g * g - g >= a * a + a) by (nonlinear_arith)
            requires
                g >= a + 1,
                a >= 0,
        ;
    }
}

/// The row in which a line that runs to the right and is no steeper than
/// a diagonal crosses column `x`.
pub(crate) fn shallow_row(x0: i32, y0: i32, x1: i32, y1: i32, x: i32) -> (y: i64)
    requires
        x0 < x1,
        dist(y0 as int, y1 as int) <= x1 - x0,
        x0 <= x <= x1,
    ensures
        on_shallow(x0 as int, y0 as int, x1 as int, y1 as int, x as int, y as int),
{
    let dx: u128 = (x1 as i64 - x0 as i64) as u128;
    let k: u128 = (x as i64 - x0 as i64) as u128;
    if y1 >= y0 {
        let dy: u128 = (y1 as i64 - y0 as i64) as u128;
        assert(0 <= dy * k <= 0xffff_ffff * 0xffff_ffff) by (nonlinear_arith)
            requires
                0 <= dy <= 0xffff_ffff,
                0 <= k <= 0xffff_ffff,
        ;
        let n: u128 = 2 * (dy * k) + dx;
        let d: u128 = 2 * dx;
        let q: u128 = n / d;
        assert(d * q <= n < d * q + d && q <= n) by (nonlinear_arith)
            requires
                q == n / d,
                d > 0,
                n >= 0,
        ;
        let ghost num = (y1 - y0) * (x - x0);
        assert(num == dy * k);
        assert(rounds_to(num, dx as int, q as int)) by (nonlinear_arith)
            requires
                d * q <= n < d * q + d,
                n == 2 * num + dx,
                d == 2 * dx,
        ;
        assert(q <= dx) by (nonlinear_arith)
            requires
                d * q <= n,
                n <= 2 * (dy * k) + dx,
                0 <= dy <= dx,
                0 <= k <= dx,
                d == 2 * dx,
                dx > 0,
        {
            assert(dy * k <= dx * dx);
        }
        y0 as i64 + q as i64
    } else {
        let dy: u128 = (y0 as i64 - y1 as i64) as u128;
        assert(0 <= dy * k <= 0xffff_ffff * 0xffff_ffff) by (nonlinear_arith)
            requires
                0 <= dy <= 0xffff_ffff,
                0 <= k <= 0xffff_ffff,
        ;
        let n: u128 = 2 * (dy * k) + dx - 1;
        let d: u128 = 2 * dx;
        let q: u128 = n / d;
        assert(d * q <= n < d * q + d && q <= n) by (nonlinear_arith)
            requires
                q == n / d,
                d > 0,
                n >= 0,
        ;
        let ghost num = (y1 - y0) * (x - x0);
        assert(num == -(dy * k)) by (nonlinear_arith)
            requires
                num == (y1 - y0) * (x - x0),
                dy == y0 - y1,
                k == x - x0,
        ;
        assert(rounds_to(num, dx as int, -(q as int))) by (nonlinear_arith)
            requires
                d * q <= n < d * q + d,
                n == 2 * (-num) + dx - 1,
                d == 2 * dx,
        ;
        assert(q <= dx) by (nonlinear_arith)
            requires
                d * q <= n,
                n <= 2 * (dy * k) + dx,
                0 <= dy <= dx,
                0 <= k <= dx,
                d == 2 * dx,
                dx > 0,
        {
            assert(dy * k <= dx * dx);
        }
        y0 as i64 - q as i64
    }
}

} // verus!
