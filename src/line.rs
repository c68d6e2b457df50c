use vstd::prelude::*;

use crate::raster::RasterPoint;

verus! {

/// Whether the line from `a` to `b` is short enough for Bresenham's error
/// term, which stays within twice the sum of the two spans, to be doubled
/// without overflowing an `isize`.
pub open spec fn line_fits(a: (int, int), b: (int, int)) -> bool {
    abs_diff(a.0, b.0) + abs_diff(a.1, b.1) <= isize::MAX / 4
}

pub open spec fn abs_diff(u: int, v: int) -> int {
    if u <= v {
        v - u
    } else {
        u - v
    }
}

/// Direction of a unit step from `from` toward `to` (`-1` when they are equal).
pub open spec fn step_toward(from: int, to: int) -> int {
    if from < to {
        1
    } else {
        -1
    }
}

/// Remaining distance from `x` to the end `b.0`, measured toward it.
pub open spec fn rem_x(a: (int, int), b: (int, int), x: int) -> int {
    step_toward(a.0, b.0) * (b.0 - x)
}

/// Remaining distance from `y` to the end `b.1`, measured toward it.
pub open spec fn rem_y(a: (int, int), b: (int, int), y: int) -> int {
    step_toward(a.1, b.1) * (b.1 - y)
}

/// One step of Bresenham's walk from `a` to `b`: the next cursor and error term.
pub open spec fn walk_next(a: (int, int), b: (int, int), x: int, y: int, err: int) -> (
    int,
    int,
    int,
) {
    let dx = abs_diff(a.0, b.0);
    let dy = abs_diff(a.1, b.1);
    let e2 = 2 * err;
    let err1 = if e2 > -dy { err - dy } else { err };
    let x1 = if e2 > -dy { x + step_toward(a.0, b.0) } else { x };
    let err2 = if e2 < dx { err1 + dx } else { err1 };
    let y1 = if e2 < dx { y + step_toward(a.1, b.1) } else { y };
    (x1, y1, err2)
}

/// Whether Bresenham's walk from the cursor `(x, y)` with error term `err`,
/// on the line from `a` to `b`, reaches `p` within `fuel` further steps.
pub open spec fn line_visits(
    a: (int, int),
    b: (int, int),
    x: int,
    y: int,
    err: int,
    fuel: nat,
    p: (int, int),
) -> bool
    decreases fuel,
{
    if p == (x, y) {
        true
    } else if (x == b.0 && y == b.1) || fuel == 0 {
        false
    } else {
        let n = walk_next(a, b, x, y, err);
        line_visits(a, b, n.0, n.1, n.2, (fuel - 1) as nat, p)
    }
}

/// Whether the pixel `(x, y)` lies on the Bresenham line from `a` to `b`,
/// both ends included.
pub open spec fn on_line(a: (int, int), b: (int, int), x: int, y: int) -> bool {
    let dx = abs_diff(a.0, b.0);
    let dy = abs_diff(a.1, b.1);
    line_visits(a, b, a.0, a.1, dx - dy, (dx + dy) as nat, (x, y))
}

/// The states that Bresenham's walk from `a` reaches: the cursor lies between
/// `a` and `b` on both axes, and the error term tracks the distance left.
pub open spec fn walk_inv(a: (int, int), b: (int, int), x: int, y: int, err: int) -> bool {
    let dx = abs_diff(a.0, b.0);
    let dy = abs_diff(a.1, b.1);
    let rx = rem_x(a, b, x);
    let ry = rem_y(a, b, y);
    &&& 0 <= rx <= dx
    &&& 0 <= ry <= dy
    &&& err == dx - dy + dy * rx - dx * ry
}

proof fn lemma_walk_start(a: (int, int), b: (int, int))
    ensures
        walk_inv(a, b, a.0, a.1, abs_diff(a.0, b.0) - abs_diff(a.1, b.1)),
        rem_x(a, b, a.0) == abs_diff(a.0, b.0),
        rem_y(a, b, a.1) == abs_diff(a.1, b.1),
{
    let dx = abs_diff(a.0, b.0);
    let dy = abs_diff(a.1, b.1);
    assert(step_toward(a.0, b.0) * (b.0 - a.0) == dx) by (nonlinear_arith)
        requires
            step_toward(a.0, b.0) == (if a.0 < b.0 { 1int } else { -1 }),
            dx == abs_diff(a.0, b.0),
    ;
    assert(step_toward(a.1, b.1) * (b.1 - a.1) == dy) by (nonlinear_arith)
        requires
            step_toward(a.1, b.1) == (if a.1 < b.1 { 1int } else { -1 }),
            dy == abs_diff(a.1, b.1),
    ;
    assert(dx - dy == dx - dy + dy * dx - dx * dy) by (nonlinear_arith);
}

/// A step of the walk short of `b` keeps the walk's invariant, moves each
/// coordinate by at most one toward `b`, and moves at least one of them.
proof fn lemma_walk_step(a: (int, int), b: (int, int), x: int, y: int, err: int)
    requires
        walk_inv(a, b, x, y, err),
        (x, y) != b,
    ensures
        ({
            let n = walk_next(a, b, x, y, err);
            let rx = rem_x(a, b, x);
            let ry = rem_y(a, b, y);
            let rx1 = rem_x(a, b, n.0);
            let ry1 = rem_y(a, b, n.1);
            &&& walk_inv(a, b, n.0, n.1, n.2)
            &&& rx1 == rx || rx1 == rx - 1
            &&& ry1 == ry || ry1 == ry - 1
            &&& rx1 + ry1 < rx + ry
            &&& (rx == 0 ==> n.0 == x)
            &&& (ry == 0 ==> n.1 == y)
            &&& (abs_diff(a.1, b.1) == 0 ==> rx1 == rx - 1)
            &&& (abs_diff(a.0, b.0) == 0 ==> ry1 == ry - 1)
            &&& (abs_diff(a.0, b.0) == abs_diff(a.1, b.1) && rx == ry ==> rx1 == rx - 1 && ry1
                == ry - 1)
        }),
{
    let dx = abs_diff(a.0, b.0);
    let dy = abs_diff(a.1, b.1);
    let sx = step_toward(a.0, b.0);
    let sy = step_toward(a.1, b.1);
    let rx = rem_x(a, b, x);
    let ry = rem_y(a, b, y);
    let e2 = 2 * err;
    assert(rx + ry > 0) by (nonlinear_arith)
        requires
            rx == sx * (b.0 - x),
            ry == sy * (b.1 - y),
            sx == 1 || sx == -1,
            sy == 1 || sy == -1,
            rx >= 0,
            ry >= 0,
            b != (x, y),
    ;
    if rx == 0 {
        assert(err <= -dy) by (nonlinear_arith)
            requires
                rx == 0,
                ry >= 1,
                dx >= 0,
                err == dx - dy + dy * rx - dx * ry,
        ;
    }
    if ry == 0 {
        assert(err >= dx) by (nonlinear_arith)
            requires
                ry == 0,
                rx >= 1,
                dy >= 0,
                err == dx - dy + dy * rx - dx * ry,
        ;
    }
    if dx == dy && rx == ry {
        assert(err == 0) by (nonlinear_arith)
            requires
                dx == dy,
                rx == ry,
                err == dx - dy + dy * rx - dx * ry,
        ;
    }
    let n = walk_next(a, b, x, y, err);
    let rx1 = rem_x(a, b, n.0);
    let ry1 = rem_y(a, b, n.1);
    assert(rx1 == rx - (if e2 > -dy { 1int } else { 0 })) by (nonlinear_arith)
        requires
            rx1 == sx * (b.0 - n.0),
            rx == sx * (b.0 - x),
            n.0 == x + (if e2 > -dy { sx } else { 0 }),
            sx == 1 || sx == -1,
    ;
    assert(ry1 == ry - (if e2 < dx { 1int } else { 0 })) by (nonlinear_arith)
        requires
            ry1 == sy * (b.1 - n.1),
            ry == sy * (b.1 - y),
            n.1 == y + (if e2 < dx { sy } else { 0 }),
            sy == 1 || sy == -1,
    ;
    assert(dy * rx1 == dy * rx - (if e2 > -dy { dy } else { 0 })) by (nonlinear_arith)
        requires
            rx1 == rx - (if e2 > -dy { 1int } else { 0 }),
    ;
    assert(dx * ry1 == dx * ry - (if e2 < dx { dx } else { 0 })) by (nonlinear_arith)
        requires
            ry1 == ry - (if e2 < dx { 1int } else { 0 }),
    ;
    assert(e2 > -dy || e2 < dx);
}

/// From any state of the walk, it arrives at `b` within `rem_x + rem_y` steps.
proof fn lemma_walk_reaches_end(
    a: (int, int),
    b: (int, int),
    x: int,
    y: int,
    err: int,
    fuel: nat,
)
    requires
        walk_inv(a, b, x, y, err),
        fuel >= rem_x(a, b, x) + rem_y(a, b, y),
    ensures
        line_visits(a, b, x, y, err, fuel, b),
    decreases fuel,
{
    if b != (x, y) {
        lemma_walk_step(a, b, x, y, err);
        let n = walk_next(a, b, x, y, err);
        lemma_walk_reaches_end(a, b, n.0, n.1, n.2, (fuel - 1) as nat);
    }
}

/// Every pixel that the walk visits lies between `a` and `b` on both axes.
proof fn lemma_walk_in_box(
    a: (int, int),
    b: (int, int),
    x: int,
    y: int,
    err: int,
    fuel: nat,
    p: (int, int),
)
    requires
        walk_inv(a, b, x, y, err),
        line_visits(a, b, x, y, err, fuel, p),
    ensures
        in_box(a, b, p.0, p.1),
    decreases fuel,
{
    if p == (x, y) {
        let sx = step_toward(a.0, b.0);
        let sy = step_toward(a.1, b.1);
        assert(in_box(a, b, x, y)) by (nonlinear_arith)
            requires
                sx == (if a.0 < b.0 { 1int } else { -1 }),
                sy == (if a.1 < b.1 { 1int } else { -1 }),
                0 <= sx * (b.0 - x) <= abs_diff(a.0, b.0),
                0 <= sy * (b.1 - y) <= abs_diff(a.1, b.1),
        ;
    } else {
        lemma_walk_step(a, b, x, y, err);
        let n = walk_next(a, b, x, y, err);
        lemma_walk_in_box(a, b, n.0, n.1, n.2, (fuel - 1) as nat, p);
    }
}

/// Whether `(x, y)` lies in the box spanned by `a` and `b`, edges included.
pub open spec fn in_box(a: (int, int), b: (int, int), x: int, y: int) -> bool {
    &&& (a.0 <= x <= b.0 || b.0 <= x <= a.0)
    &&& (a.1 <= y <= b.1 || b.1 <= y <= a.1)
}

/// A Bresenham line holds both of its end points.
pub proof fn lemma_line_ends(a: (int, int), b: (int, int))
    ensures
        on_line(a, b, a.0, a.1),
        on_line(a, b, b.0, b.1),
{
    lemma_walk_start(a, b);
    let dx = abs_diff(a.0, b.0);
    let dy = abs_diff(a.1, b.1);
    lemma_walk_reaches_end(a, b, a.0, a.1, dx - dy, (dx + dy) as nat);
}

/// A Bresenham line stays within the box spanned by its end points.
pub proof fn lemma_line_in_box(a: (int, int), b: (int, int), x: int, y: int)
    requires
        on_line(a, b, x, y),
    ensures
        in_box(a, b, x, y),
{
    lemma_walk_start(a, b);
    let dx = abs_diff(a.0, b.0);
    let dy = abs_diff(a.1, b.1);
    lemma_walk_in_box(a, b, a.0, a.1, dx - dy, (dx + dy) as nat, (x, y));
}

/// A walk along a horizontal line visits every pixel from its cursor to `b`.
proof fn lemma_walk_covers_row(
    a: (int, int),
    b: (int, int),
    x: int,
    y: int,
    err: int,
    fuel: nat,
    px: int,
)
    requires
        walk_inv(a, b, x, y, err),
        abs_diff(a.1, b.1) == 0,
        fuel >= rem_x(a, b, x),
        0 <= rem_x(a, b, px) <= rem_x(a, b, x),
    ensures
        line_visits(a, b, x, y, err, fuel, (px, y)),
    decreases fuel,
{
    let sx = step_toward(a.0, b.0);
    if px != x {
        assert(rem_x(a, b, px) != rem_x(a, b, x)) by (nonlinear_arith)
            requires
                sx == 1 || sx == -1,
                px != x,
                rem_x(a, b, px) == sx * (b.0 - px),
                rem_x(a, b, x) == sx * (b.0 - x),
        ;
        lemma_walk_step(a, b, x, y, err);
        let n = walk_next(a, b, x, y, err);
        lemma_walk_covers_row(a, b, n.0, n.1, n.2, (fuel - 1) as nat, px);
    }
}

/// A walk along a vertical line visits every pixel from its cursor to `b`.
proof fn lemma_walk_covers_column(
    a: (int, int),
    b: (int, int),
    x: int,
    y: int,
    err: int,
    fuel: nat,
    py: int,
)
    requires
        walk_inv(a, b, x, y, err),
        abs_diff(a.0, b.0) == 0,
        fuel >= rem_y(a, b, y),
        0 <= rem_y(a, b, py) <= rem_y(a, b, y),
    ensures
        line_visits(a, b, x, y, err, fuel, (x, py)),
    decreases fuel,
{
    let sy = step_toward(a.1, b.1);
    if py != y {
        assert(rem_y(a, b, py) != rem_y(a, b, y)) by (nonlinear_arith)
            requires
                sy == 1 || sy == -1,
                py != y,
                rem_y(a, b, py) == sy * (b.1 - py),
                rem_y(a, b, y) == sy * (b.1 - y),
        ;
        lemma_walk_step(a, b, x, y, err);
        let n = walk_next(a, b, x, y, err);
        lemma_walk_covers_column(a, b, n.0, n.1, n.2, (fuel - 1) as nat, py);
    }
}

/// A horizontal line is exactly the run of pixels between its end points,
/// both included.
pub proof fn lemma_horizontal_line(a: (int, int), b: (int, int), x: int, y: int)
    requires
        a.1 == b.1,
    ensures
        on_line(a, b, x, y) <==> (y == a.1 && (a.0 <= x <= b.0 || b.0 <= x <= a.0)),
{
    if on_line(a, b, x, y) {
        lemma_line_in_box(a, b, x, y);
    }
    if y == a.1 && (a.0 <= x <= b.0 || b.0 <= x <= a.0) {
        lemma_walk_start(a, b);
        let sx = step_toward(a.0, b.0);
        assert(0 <= rem_x(a, b, x) <= rem_x(a, b, a.0)) by (nonlinear_arith)
            requires
                sx == (if a.0 < b.0 { 1int } else { -1 }),
                a.0 <= x <= b.0 || b.0 <= x <= a.0,
                rem_x(a, b, x) == sx * (b.0 - x),
                rem_x(a, b, a.0) == sx * (b.0 - a.0),
        ;
        let dx = abs_diff(a.0, b.0);
        lemma_walk_covers_row(a, b, a.0, a.1, dx - 0, (dx + 0) as nat, x);
    }
}

/// A vertical line is exactly the run of pixels between its end points,
/// both included.
pub proof fn lemma_vertical_line(a: (int, int), b: (int, int), x: int, y: int)
    requires
        a.0 == b.0,
    ensures
        on_line(a, b, x, y) <==> (x == a.0 && (a.1 <= y <= b.1 || b.1 <= y <= a.1)),
{
    if on_line(a, b, x, y) {
        lemma_line_in_box(a, b, x, y);
    }
    if x == a.0 && (a.1 <= y <= b.1 || b.1 <= y <= a.1) {
        lemma_walk_start(a, b);
        let sy = step_toward(a.1, b.1);
        assert(0 <= rem_y(a, b, y) <= rem_y(a, b, a.1)) by (nonlinear_arith)
            requires
                sy == (if a.1 < b.1 { 1int } else { -1 }),
                a.1 <= y <= b.1 || b.1 <= y <= a.1,
                rem_y(a, b, y) == sy * (b.1 - y),
                rem_y(a, b, a.1) == sy * (b.1 - a.1),
        ;
        let dy = abs_diff(a.1, b.1);
        lemma_walk_covers_column(a, b, a.0, a.1, 0 - dy, (0 + dy) as nat, y);
    }
}

/// A walk along a 45-degree line visits every diagonal pixel from its cursor to `b`.
proof fn lemma_walk_covers_diagonal(
    a: (int, int),
    b: (int, int),
    x: int,
    y: int,
    err: int,
    fuel: nat,
    k: int,
)
    requires
        walk_inv(a, b, x, y, err),
        abs_diff(a.0, b.0) == abs_diff(a.1, b.1),
        rem_x(a, b, x) == rem_y(a, b, y),
        fuel >= rem_x(a, b, x),
        0 <= k <= rem_x(a, b, x),
    ensures
        line_visits(
            a,
            b,
            x,
            y,
            err,
            fuel,
            (x + k * step_toward(a.0, b.0), y + k * step_toward(a.1, b.1)),
        ),
    decreases fuel,
{
    let sx = step_toward(a.0, b.0);
    let sy = step_toward(a.1, b.1);
    if k == 0 {
        assert(x + k * sx == x && y + k * sy == y);
    } else {
        assert((x, y) != b) by (nonlinear_arith)
            requires
                rem_x(a, b, x) >= 1,
                rem_x(a, b, x) == sx * (b.0 - x),
        ;
        assert(k * sx != 0) by (nonlinear_arith)
            requires
                k >= 1,
                sx == 1 || sx == -1,
        ;
        lemma_walk_step(a, b, x, y, err);
        let n = walk_next(a, b, x, y, err);
        assert(n.0 == x + sx && n.1 == y + sy) by (nonlinear_arith)
            requires
                rem_x(a, b, n.0) == rem_x(a, b, x) - 1,
                rem_y(a, b, n.1) == rem_y(a, b, y) - 1,
                rem_x(a, b, n.0) == sx * (b.0 - n.0),
                rem_x(a, b, x) == sx * (b.0 - x),
                rem_y(a, b, n.1) == sy * (b.1 - n.1),
                rem_y(a, b, y) == sy * (b.1 - y),
                sx == 1 || sx == -1,
                sy == 1 || sy == -1,
        ;
        lemma_walk_covers_diagonal(a, b, n.0, n.1, n.2, (fuel - 1) as nat, k - 1);
        assert(n.0 + (k - 1) * sx == x + k * sx && n.1 + (k - 1) * sy == y + k * sy)
            by (nonlinear_arith)
            requires
                n.0 == x + sx,
                n.1 == y + sy,
        ;
    }
}

/// Every pixel that a walk along a 45-degree line visits is as far from `b`
/// on one axis as on the other.
proof fn lemma_walk_diagonal_only(
    a: (int, int),
    b: (int, int),
    x: int,
    y: int,
    err: int,
    fuel: nat,
    p: (int, int),
)
    requires
        walk_inv(a, b, x, y, err),
        abs_diff(a.0, b.0) == abs_diff(a.1, b.1),
        rem_x(a, b, x) == rem_y(a, b, y),
        line_visits(a, b, x, y, err, fuel, p),
    ensures
        rem_x(a, b, p.0) == rem_y(a, b, p.1),
        0 <= rem_x(a, b, p.0) <= abs_diff(a.0, b.0),
    decreases fuel,
{
    if p != (x, y) {
        lemma_walk_step(a, b, x, y, err);
        let n = walk_next(a, b, x, y, err);
        lemma_walk_diagonal_only(a, b, n.0, n.1, n.2, (fuel - 1) as nat, p);
    }
}

/// How far the cursor `(x, y)` lies from the ideal segment from `a` to `b`,
/// scaled by the major span: `dy * rem_x - dx * rem_y`.
pub open spec fn line_offset(a: (int, int), b: (int, int), x: int, y: int) -> int {
    abs_diff(a.1, b.1) * rem_x(a, b, x) - abs_diff(a.0, b.0) * rem_y(a, b, y)
}

pub open spec fn major_span(a: (int, int), b: (int, int)) -> int {
    if abs_diff(a.0, b.0) >= abs_diff(a.1, b.1) {
        abs_diff(a.0, b.0)
    } else {
        abs_diff(a.1, b.1)
    }
}

/// A step of the walk keeps the cursor within half a pixel of the ideal segment.
proof fn lemma_walk_step_near(a: (int, int), b: (int, int), x: int, y: int, err: int)
    requires
        walk_inv(a, b, x, y, err),
        (x, y) != b,
        -major_span(a, b) <= 2 * line_offset(a, b, x, y) <= major_span(a, b),
    ensures
        ({
            let n = walk_next(a, b, x, y, err);
            -major_span(a, b) <= 2 * line_offset(a, b, n.0, n.1) <= major_span(a, b)
        }),
{
    lemma_walk_step(a, b, x, y, err);
    let dx = abs_diff(a.0, b.0);
    let dy = abs_diff(a.1, b.1);
    let n = walk_next(a, b, x, y, err);
    let e2 = 2 * err;
    let rx = rem_x(a, b, x);
    let ry = rem_y(a, b, y);
    let rx1 = rem_x(a, b, n.0);
    let ry1 = rem_y(a, b, n.1);
    assert(n.0 != x ==> rx1 == rx - 1) by (nonlinear_arith)
        requires
            rx1 == rx || rx1 == rx - 1,
            rx == step_toward(a.0, b.0) * (b.0 - x),
            rx1 == step_toward(a.0, b.0) * (b.0 - n.0),
    ;
    assert(n.1 != y ==> ry1 == ry - 1) by (nonlinear_arith)
        requires
            ry1 == ry || ry1 == ry - 1,
            ry == step_toward(a.1, b.1) * (b.1 - y),
            ry1 == step_toward(a.1, b.1) * (b.1 - n.1),
    ;
    assert(rx1 == rx - (if e2 > -dy { 1int } else { 0 }));
    assert(ry1 == ry - (if e2 < dx { 1int } else { 0 }));
    assert(line_offset(a, b, n.0, n.1) == line_offset(a, b, x, y) - (if e2 > -dy { dy } else {
        0
    }) + (if e2 < dx { dx } else { 0 })) by (nonlinear_arith)
        requires
            rx1 == rx - (if e2 > -dy { 1int } else { 0 }),
            ry1 == ry - (if e2 < dx { 1int } else { 0 }),
            line_offset(a, b, n.0, n.1) == dy * rx1 - dx * ry1,
            line_offset(a, b, x, y) == dy * rx - dx * ry,
    ;
    assert(err == dx - dy + line_offset(a, b, x, y));
}

/// Every pixel that the walk visits stays within half a pixel of the ideal segment.
proof fn lemma_walk_near(
    a: (int, int),
    b: (int, int),
    x: int,
    y: int,
    err: int,
    fuel: nat,
    p: (int, int),
)
    requires
        walk_inv(a, b, x, y, err),
        -major_span(a, b) <= 2 * line_offset(a, b, x, y) <= major_span(a, b),
        line_visits(a, b, x, y, err, fuel, p),
    ensures
        -major_span(a, b) <= 2 * line_offset(a, b, p.0, p.1) <= major_span(a, b),
    decreases fuel,
{
    if p != (x, y) {
        lemma_walk_step(a, b, x, y, err);
        lemma_walk_step_near(a, b, x, y, err);
        let n = walk_next(a, b, x, y, err);
        lemma_walk_near(a, b, n.0, n.1, n.2, (fuel - 1) as nat, p);
    }
}

/// Every pixel of a Bresenham line lies within half a pixel of the ideal
/// segment from `a` to `b`, measured along the minor axis: its offset
/// `dy * rem_x - dx * rem_y`, divided by the major span, is at most one half.
pub proof fn lemma_line_near_ideal(a: (int, int), b: (int, int), x: int, y: int)
    requires
        on_line(a, b, x, y),
    ensures
        -major_span(a, b) <= 2 * line_offset(a, b, x, y) <= major_span(a, b),
{
    lemma_walk_start(a, b);
    let dx = abs_diff(a.0, b.0);
    let dy = abs_diff(a.1, b.1);
    assert(line_offset(a, b, a.0, a.1) == 0) by (nonlinear_arith)
        requires
            line_offset(a, b, a.0, a.1) == dy * rem_x(a, b, a.0) - dx * rem_y(a, b, a.1),
            rem_x(a, b, a.0) == dx,
            rem_y(a, b, a.1) == dy,
    ;
    lemma_walk_near(a, b, a.0, a.1, dx - dy, (dx + dy) as nat, (x, y));
}

/// On a line whose major axis is x, every step of the walk moves x by one.
proof fn lemma_walk_step_major_x(a: (int, int), b: (int, int), x: int, y: int, err: int)
    requires
        walk_inv(a, b, x, y, err),
        (x, y) != b,
        -major_span(a, b) <= 2 * line_offset(a, b, x, y) <= major_span(a, b),
        abs_diff(a.0, b.0) >= abs_diff(a.1, b.1),
    ensures
        rem_x(a, b, walk_next(a, b, x, y, err).0) == rem_x(a, b, x) - 1,
{
    lemma_walk_step(a, b, x, y, err);
    let dx = abs_diff(a.0, b.0);
    let dy = abs_diff(a.1, b.1);
    let d = line_offset(a, b, x, y);
    let rx = rem_x(a, b, x);
    let ry = rem_y(a, b, y);
    let n = walk_next(a, b, x, y, err);
    assert(2 * err > -dy) by (nonlinear_arith)
        requires
            err == dx - dy + d,
            d == dy * rx - dx * ry,
            -dx <= 2 * d,
            dx >= dy,
            dx > 0 || dy > 0,
    ;
    assert(rem_x(a, b, n.0) == rx - 1) by (nonlinear_arith)
        requires
            n.0 == x + step_toward(a.0, b.0),
            rx == step_toward(a.0, b.0) * (b.0 - x),
            rem_x(a, b, n.0) == step_toward(a.0, b.0) * (b.0 - n.0),
            step_toward(a.0, b.0) == 1 || step_toward(a.0, b.0) == -1,
    ;
}

/// On a line whose major axis is x, the walk visits some pixel in every
/// column from its cursor to `b`.
proof fn lemma_walk_meets_column(
    a: (int, int),
    b: (int, int),
    x: int,
    y: int,
    err: int,
    fuel: nat,
    px: int,
)
    requires
        walk_inv(a, b, x, y, err),
        -major_span(a, b) <= 2 * line_offset(a, b, x, y) <= major_span(a, b),
        abs_diff(a.0, b.0) >= abs_diff(a.1, b.1),
        fuel >= rem_x(a, b, x),
        0 <= rem_x(a, b, px) <= rem_x(a, b, x),
    ensures
        exists|py: int| #[trigger] line_visits(a, b, x, y, err, fuel, (px, py)),
    decreases fuel,
{
    let sx = step_toward(a.0, b.0);
    if px == x {
        assert(line_visits(a, b, x, y, err, fuel, (px, y)));
    } else {
        assert(rem_x(a, b, px) != rem_x(a, b, x)) by (nonlinear_arith)
            requires
                sx == 1 || sx == -1,
                px != x,
                rem_x(a, b, px) == sx * (b.0 - px),
                rem_x(a, b, x) == sx * (b.0 - x),
        ;
        lemma_walk_step(a, b, x, y, err);
        lemma_walk_step_near(a, b, x, y, err);
        lemma_walk_step_major_x(a, b, x, y, err);
        let n = walk_next(a, b, x, y, err);
        lemma_walk_meets_column(a, b, n.0, n.1, n.2, (fuel - 1) as nat, px);
        let py = choose|py: int| #[trigger] line_visits(a, b, n.0, n.1, n.2, (fuel - 1) as nat, (px, py));
        assert(line_visits(a, b, x, y, err, fuel, (px, py)));
    }
}

/// On a line whose major axis is x, the walk visits each column at most once.
proof fn lemma_walk_column_once(
    a: (int, int),
    b: (int, int),
    x: int,
    y: int,
    err: int,
    fuel: nat,
    p: (int, int),
    q: (int, int),
)
    requires
        walk_inv(a, b, x, y, err),
        -major_span(a, b) <= 2 * line_offset(a, b, x, y) <= major_span(a, b),
        abs_diff(a.0, b.0) >= abs_diff(a.1, b.1),
        line_visits(a, b, x, y, err, fuel, p),
        line_visits(a, b, x, y, err, fuel, q),
        p.0 == q.0,
    ensures
        p == q,
        0 <= rem_x(a, b, p.0) <= rem_x(a, b, x),
        p != (x, y) ==> rem_x(a, b, p.0) < rem_x(a, b, x),
    decreases fuel,
{
    if p == (x, y) && q == (x, y) {
    } else {
        lemma_walk_step(a, b, x, y, err);
        lemma_walk_step_near(a, b, x, y, err);
        lemma_walk_step_major_x(a, b, x, y, err);
        let n = walk_next(a, b, x, y, err);
        if p != (x, y) && q != (x, y) {
            lemma_walk_column_once(a, b, n.0, n.1, n.2, (fuel - 1) as nat, p, q);
        } else if p != (x, y) {
            lemma_walk_column_once(a, b, n.0, n.1, n.2, (fuel - 1) as nat, p, p);
        } else {
            lemma_walk_column_once(a, b, n.0, n.1, n.2, (fuel - 1) as nat, q, q);
        }
    }
}

/// On a line whose major axis is x, each column between the end points holds
/// exactly one pixel of the line.
pub proof fn lemma_line_one_per_column(a: (int, int), b: (int, int), x: int)
    requires
        abs_diff(a.0, b.0) >= abs_diff(a.1, b.1),
        a.0 <= x <= b.0 || b.0 <= x <= a.0,
    ensures
        exists|y: int| #[trigger] on_line(a, b, x, y),
        forall|y1: int, y2: int|
            #![trigger on_line(a, b, x, y1), on_line(a, b, x, y2)]
            on_line(a, b, x, y1) && on_line(a, b, x, y2) ==> y1 == y2,
{
    lemma_walk_start(a, b);
    let dx = abs_diff(a.0, b.0);
    let dy = abs_diff(a.1, b.1);
    let sx = step_toward(a.0, b.0);
    assert(line_offset(a, b, a.0, a.1) == 0) by (nonlinear_arith)
        requires
            line_offset(a, b, a.0, a.1) == dy * rem_x(a, b, a.0) - dx * rem_y(a, b, a.1),
            rem_x(a, b, a.0) == dx,
            rem_y(a, b, a.1) == dy,
    ;
    assert(0 <= rem_x(a, b, x) <= rem_x(a, b, a.0)) by (nonlinear_arith)
        requires
            sx == (if a.0 < b.0 { 1int } else { -1 }),
            a.0 <= x <= b.0 || b.0 <= x <= a.0,
            rem_x(a, b, x) == sx * (b.0 - x),
            rem_x(a, b, a.0) == sx * (b.0 - a.0),
    ;
    lemma_walk_meets_column(a, b, a.0, a.1, dx - dy, (dx + dy) as nat, x);
    let y = choose|y: int| #[trigger] line_visits(a, b, a.0, a.1, dx - dy, (dx + dy) as nat, (x, y));
    assert(on_line(a, b, x, y));
    assert forall|y1: int, y2: int|
        #![trigger on_line(a, b, x, y1), on_line(a, b, x, y2)]
        on_line(a, b, x, y1) && on_line(a, b, x, y2) implies y1 == y2 by {
        lemma_walk_column_once(a, b, a.0, a.1, dx - dy, (dx + dy) as nat, (x, y1), (x, y2));
    }
}

/// On a line whose major axis is y, every step of the walk moves y by one.
proof fn lemma_walk_step_major_y(a: (int, int), b: (int, int), x: int, y: int, err: int)
    requires
        walk_inv(a, b, x, y, err),
        (x, y) != b,
        -major_span(a, b) <= 2 * line_offset(a, b, x, y) <= major_span(a, b),
        abs_diff(a.1, b.1) >= abs_diff(a.0, b.0),
    ensures
        rem_y(a, b, walk_next(a, b, x, y, err).1) == rem_y(a, b, y) - 1,
{
    lemma_walk_step(a, b, x, y, err);
    let dx = abs_diff(a.0, b.0);
    let dy = abs_diff(a.1, b.1);
    let d = line_offset(a, b, x, y);
    let rx = rem_x(a, b, x);
    let ry = rem_y(a, b, y);
    let n = walk_next(a, b, x, y, err);
    assert(major_span(a, b) == dy);
    assert(dx > 0 || dy > 0);
    if dx == dy {
        assert(d == dx * (rx - ry)) by (nonlinear_arith)
            requires
                d == dy * rx - dx * ry,
                dx == dy,
        ;
        assert(rx - ry <= 0) by (nonlinear_arith)
            requires
                d == dx * (rx - ry),
                2 * d <= dx,
                dx > 0,
        ;
        assert(d <= 0) by (nonlinear_arith)
            requires
                d == dx * (rx - ry),
                rx - ry <= 0,
                dx >= 0,
        ;
    }
    assert(2 * err < dx);
    assert(rem_y(a, b, n.1) == ry - 1) by (nonlinear_arith)
        requires
            n.1 == y + step_toward(a.1, b.1),
            ry == step_toward(a.1, b.1) * (b.1 - y),
            rem_y(a, b, n.1) == step_toward(a.1, b.1) * (b.1 - n.1),
            step_toward(a.1, b.1) == 1 || step_toward(a.1, b.1) == -1,
    ;
}

/// On a line whose major axis is y, the walk visits some pixel in every
/// row from its cursor to `b`.
proof fn lemma_walk_meets_row(
    a: (int, int),
    b: (int, int),
    x: int,
    y: int,
    err: int,
    fuel: nat,
    py: int,
)
    requires
        walk_inv(a, b, x, y, err),
        -major_span(a, b) <= 2 * line_offset(a, b, x, y) <= major_span(a, b),
        abs_diff(a.1, b.1) >= abs_diff(a.0, b.0),
        fuel >= rem_y(a, b, y),
        0 <= rem_y(a, b, py) <= rem_y(a, b, y),
    ensures
        exists|px: int| #[trigger] line_visits(a, b, x, y, err, fuel, (px, py)),
    decreases fuel,
{
    let sy = step_toward(a.1, b.1);
    if py == y {
        assert(line_visits(a, b, x, y, err, fuel, (x, py)));
    } else {
        assert(rem_y(a, b, py) != rem_y(a, b, y)) by (nonlinear_arith)
            requires
                sy == 1 || sy == -1,
                py != y,
                rem_y(a, b, py) == sy * (b.1 - py),
                rem_y(a, b, y) == sy * (b.1 - y),
        ;
        lemma_walk_step(a, b, x, y, err);
        lemma_walk_step_near(a, b, x, y, err);
        lemma_walk_step_major_y(a, b, x, y, err);
        let n = walk_next(a, b, x, y, err);
        lemma_walk_meets_row(a, b, n.0, n.1, n.2, (fuel - 1) as nat, py);
        let px = choose|px: int| #[trigger] line_visits(a, b, n.0, n.1, n.2, (fuel - 1) as nat, (px, py));
        assert(line_visits(a, b, x, y, err, fuel, (px, py)));
    }
}

/// On a line whose major axis is y, the walk visits each row at most once.
proof fn lemma_walk_row_once(
    a: (int, int),
    b: (int, int),
    x: int,
    y: int,
    err: int,
    fuel: nat,
    p: (int, int),
    q: (int, int),
)
    requires
        walk_inv(a, b, x, y, err),
        -major_span(a, b) <= 2 * line_offset(a, b, x, y) <= major_span(a, b),
        abs_diff(a.1, b.1) >= abs_diff(a.0, b.0),
        line_visits(a, b, x, y, err, fuel, p),
        line_visits(a, b, x, y, err, fuel, q),
        p.1 == q.1,
    ensures
        p == q,
        0 <= rem_y(a, b, p.1) <= rem_y(a, b, y),
        p != (x, y) ==> rem_y(a, b, p.1) < rem_y(a, b, y),
    decreases fuel,
{
    if p == (x, y) && q == (x, y) {
    } else {
        lemma_walk_step(a, b, x, y, err);
        lemma_walk_step_near(a, b, x, y, err);
        lemma_walk_step_major_y(a, b, x, y, err);
        let n = walk_next(a, b, x, y, err);
        if p != (x, y) && q != (x, y) {
            lemma_walk_row_once(a, b, n.0, n.1, n.2, (fuel - 1) as nat, p, q);
        } else if p != (x, y) {
            lemma_walk_row_once(a, b, n.0, n.1, n.2, (fuel - 1) as nat, p, p);
        } else {
            lemma_walk_row_once(a, b, n.0, n.1, n.2, (fuel - 1) as nat, q, q);
        }
    }
}

/// On a line whose major axis is y, each row between the end points holds
/// exactly one pixel of the line.
pub proof fn lemma_line_one_per_row(a: (int, int), b: (int, int), y: int)
    requires
        abs_diff(a.1, b.1) >= abs_diff(a.0, b.0),
        a.1 <= y <= b.1 || b.1 <= y <= a.1,
    ensures
        exists|x: int| #[trigger] on_line(a, b, x, y),
        forall|x1: int, x2: int|
            #![trigger on_line(a, b, x1, y), on_line(a, b, x2, y)]
            on_line(a, b, x1, y) && on_line(a, b, x2, y) ==> x1 == x2,
{
    lemma_walk_start(a, b);
    let dx = abs_diff(a.0, b.0);
    let dy = abs_diff(a.1, b.1);
    let sy = step_toward(a.1, b.1);
    assert(line_offset(a, b, a.0, a.1) == 0) by (nonlinear_arith)
        requires
            line_offset(a, b, a.0, a.1) == dy * rem_x(a, b, a.0) - dx * rem_y(a, b, a.1),
            rem_x(a, b, a.0) == dx,
            rem_y(a, b, a.1) == dy,
    ;
    assert(0 <= rem_y(a, b, y) <= rem_y(a, b, a.1)) by (nonlinear_arith)
        requires
            sy == (if a.1 < b.1 { 1int } else { -1 }),
            a.1 <= y <= b.1 || b.1 <= y <= a.1,
            rem_y(a, b, y) == sy * (b.1 - y),
            rem_y(a, b, a.1) == sy * (b.1 - a.1),
    ;
    lemma_walk_meets_row(a, b, a.0, a.1, dx - dy, (dx + dy) as nat, y);
    let x = choose|x: int| #[trigger] line_visits(a, b, a.0, a.1, dx - dy, (dx + dy) as nat, (x, y));
    assert(on_line(a, b, x, y));
    assert forall|x1: int, x2: int|
        #![trigger on_line(a, b, x1, y), on_line(a, b, x2, y)]
        on_line(a, b, x1, y) && on_line(a, b, x2, y) implies x1 == x2 by {
        lemma_walk_row_once(a, b, a.0, a.1, dx - dy, (dx + dy) as nat, (x1, y), (x2, y));
    }
}

/// The pixel `k` unit diagonal steps from `a` toward `b`.
pub open spec fn diagonal_point(a: (int, int), b: (int, int), k: int) -> (int, int) {
    (a.0 + k * step_toward(a.0, b.0), a.1 + k * step_toward(a.1, b.1))
}

/// A 45-degree line is exactly its diagonal: the pixels `a + k * (sx, sy)`
/// for `k` from 0 to the span, with unit steps toward `b`.
pub proof fn lemma_diagonal_line(a: (int, int), b: (int, int), x: int, y: int)
    requires
        abs_diff(a.0, b.0) == abs_diff(a.1, b.1),
    ensures
        on_line(a, b, x, y) <==> exists|k: int|
            0 <= k <= abs_diff(a.0, b.0) && (x, y) == #[trigger] diagonal_point(a, b, k),
{
    let d = abs_diff(a.0, b.0);
    let sx = step_toward(a.0, b.0);
    let sy = step_toward(a.1, b.1);
    lemma_walk_start(a, b);
    if on_line(a, b, x, y) {
        lemma_walk_diagonal_only(a, b, a.0, a.1, d - d, (d + d) as nat, (x, y));
        let r = rem_x(a, b, x);
        let k = d - r;
        assert(x == a.0 + k * sx && y == a.1 + k * sy) by (nonlinear_arith)
            requires
                sx == 1 || sx == -1,
                sy == 1 || sy == -1,
                r == sx * (b.0 - x),
                r == sy * (b.1 - y),
                d == sx * (b.0 - a.0),
                d == sy * (b.1 - a.1),
                k == d - r,
        ;
        assert(0 <= k <= d);
        assert((x, y) == diagonal_point(a, b, k));
    }
    if exists|k: int| 0 <= k <= d && (x, y) == #[trigger] diagonal_point(a, b, k) {
        let k = choose|k: int| 0 <= k <= d && (x, y) == #[trigger] diagonal_point(a, b, k);
        lemma_walk_covers_diagonal(a, b, a.0, a.1, d - d, (d + d) as nat, k);
    }
}

/// Whether `(x, y)` lies on one of the lines that join consecutive points,
/// or, when `closed`, on the line from the first point to the last.
pub open spec fn on_polyline(points: Seq<RasterPoint>, closed: bool, x: int, y: int) -> bool {
    (exists|j: int|
        0 <= j < points.len() - 1 && #[trigger] on_line(points[j]@, points[j + 1]@, x, y)) || (
    closed && on_line(points[0]@, points[points.len() - 1]@, x, y))
}

/// A closed polyline covers what the open one covers, plus the line from the
/// first point to the last.
pub proof fn lemma_closed_polyline(points: Seq<RasterPoint>, x: int, y: int)
    ensures
        on_polyline(points, true, x, y) <==> (on_polyline(points, false, x, y) || on_line(
            points[0]@,
            points[points.len() - 1]@,
            x,
            y,
        )),
{
}

} // verus!
