use vstd::prelude::*;

use vstd::arithmetic::div_mod::lemma_fundamental_div_mod;

use crate::color::Color;
use crate::line::{abs_diff, line_fits, line_visits, on_line, on_polyline, step_toward};
use crate::polygon::{
    coord_ok, COORD_LIMIT,
    crossings_upto, in_polygon, isize_leq, lemma_filled_row, lemma_isize_leq_total,
    sort_ascending, sorted_crossings, trunc_div,
};

verus! {

/// An integer pixel coordinate, possibly outside any raster.
#[derive(Debug, Clone, Copy, PartialEq, Eq, Structural)]
pub struct RasterPoint {
    x: isize,
    y: isize,
}

impl View for RasterPoint {
    type V = (int, int);

    closed spec fn view(&self) -> (int, int) {
        (self.x as int, self.y as int)
    }
}

impl RasterPoint {
    pub fn new(x: isize, y: isize) -> (p: RasterPoint)
        ensures
            p@ == (x as int, y as int),
    {
        RasterPoint { x, y }
    }
}

/// What a raster holds: its size and its packed ARGB pixels, row by row.
pub struct RasterView {
    pub width: nat,
    pub height: nat,
    pub pixels: Seq<u32>,
}

impl RasterView {
    pub open spec fn wf(self) -> bool {
        self.pixels.len() == self.width * self.height
    }

    pub open spec fn in_bounds(self, x: int, y: int) -> bool {
        0 <= x < self.width && 0 <= y < self.height
    }

    pub open spec fn index(self, x: int, y: int) -> int {
        y * self.width + x
    }

    pub open spec fn pixel(self, x: int, y: int) -> u32 {
        self.pixels[self.index(x, y)]
    }

    /// `self` is `before` with every in-bounds pixel for which `covered` holds
    /// set to `word`, and every other pixel as it was.
    pub open spec fn painted(
        self,
        before: RasterView,
        covered: spec_fn(int, int) -> bool,
        word: u32,
    ) -> bool {
        &&& self.width == before.width
        &&& self.height == before.height
        &&& self.wf()
        &&& forall|x: int, y: int|
            #![trigger self.pixel(x, y)]
            before.in_bounds(x, y) ==> self.pixel(x, y) == if covered(x, y) {
                word
            } else {
                before.pixel(x, y)
            }
    }
}

/// Row-major offsets of in-bounds pixels are in range and distinct.
pub proof fn lemma_index(w: nat, h: nat, x: int, y: int, x2: int, y2: int)
    requires
        0 <= x < w,
        0 <= y < h,
        0 <= x2 < w,
        0 <= y2 < h,
    ensures
        0 <= y * w + x < w * h,
        y * w + x == y2 * w + x2 ==> x == x2 && y == y2,
{
    assert(0 <= y * w + x < w * h) by (nonlinear_arith)
        requires
            0 <= x < w,
            0 <= y < h,
    ;
    if y < y2 {
        assert(y * w + x < y2 * w + x2) by (nonlinear_arith)
            requires
                0 <= x < w,
                y < y2,
                0 <= x2,
        ;
    } else if y2 < y {
        assert(y2 * w + x2 < y * w + x) by (nonlinear_arith)
            requires
                0 <= x2 < w,
                y2 < y,
                0 <= x,
        ;
    }
}

/// Painting with no pixel covered leaves a well-formed raster as it is.
pub proof fn lemma_painted_none(v: RasterView, word: u32)
    requires
        v.wf(),
    ensures
        v.painted(v, |x: int, y: int| false, word),
{
}

/// A painting that covers none of the raster's pixels leaves it exactly as it was.
pub proof fn lemma_painted_nothing(
    before: RasterView,
    after: RasterView,
    covered: spec_fn(int, int) -> bool,
    word: u32,
)
    requires
        before.wf(),
        after.painted(before, covered, word),
        forall|x: int, y: int| before.in_bounds(x, y) ==> !covered(x, y),
    ensures
        after == before,
{
    let w = before.width;
    let h = before.height;
    assert forall|i: int| 0 <= i < before.pixels.len() implies after.pixels[i] == before.pixels[i] by {
        let x = i % (w as int);
        let y = i / (w as int);
        assert(w > 0) by (nonlinear_arith)
            requires
                0 <= i < w * h,
        ;
        lemma_fundamental_div_mod(i, w as int);
        assert(0 <= x < w);
        assert(0 <= y < h) by (nonlinear_arith)
            requires
                0 <= i < w * h,
                w > 0,
                y == i / (w as int),
        ;
        assert(before.in_bounds(x, y));
        assert(!covered(x, y));
        assert(after.pixel(x, y) == before.pixel(x, y));
        assert(y * (w as int) == (w as int) * y) by (nonlinear_arith);
        assert(before.index(x, y) == i);
    }
    assert(after.pixels =~= before.pixels);
}

/// Two paintings in the same colour make one, over the union of what they cover.
pub proof fn lemma_painted_trans(
    v0: RasterView,
    v1: RasterView,
    v2: RasterView,
    c1: spec_fn(int, int) -> bool,
    c2: spec_fn(int, int) -> bool,
    word: u32,
)
    requires
        v1.painted(v0, c1, word),
        v2.painted(v1, c2, word),
    ensures
        v2.painted(v0, |x: int, y: int| c1(x, y) || c2(x, y), word),
{
    assert forall|x: int, y: int| #[trigger] v0.in_bounds(x, y) implies v2.pixel(x, y) == if c1(
        x,
        y,
    ) || c2(x, y) {
        word
    } else {
        v0.pixel(x, y)
    } by {
        assert(v1.in_bounds(x, y));
        assert(v2.pixel(x, y) == if c2(x, y) { word } else { v1.pixel(x, y) });
        assert(v1.pixel(x, y) == if c1(x, y) { word } else { v0.pixel(x, y) });
    }
}

/// A painting may be restated with any cover that agrees on the raster's pixels.
pub proof fn lemma_painted_same_cover(
    v0: RasterView,
    v1: RasterView,
    c1: spec_fn(int, int) -> bool,
    c2: spec_fn(int, int) -> bool,
    word: u32,
)
    requires
        v1.painted(v0, c1, word),
        forall|x: int, y: int| v0.in_bounds(x, y) ==> (c1(x, y) <==> c2(x, y)),
    ensures
        v1.painted(v0, c2, word),
{
    assert forall|x: int, y: int| #[trigger] v0.in_bounds(x, y) implies v1.pixel(x, y) == if c2(
        x,
        y,
    ) {
        word
    } else {
        v0.pixel(x, y)
    } by {
        assert(v1.pixel(x, y) == if c1(x, y) { word } else { v0.pixel(x, y) });
    }
}

/// Division rounding toward zero never grows the magnitude.
proof fn lemma_trunc_div_bound(n: int, d: int)
    requires
        d != 0,
    ensures
        -abs_diff(n, 0) <= trunc_div(n, d) <= abs_diff(n, 0),
{
    let m = abs_diff(n, 0);
    assert(0 <= m / d <= m || -m <= m / d <= 0) by (nonlinear_arith)
        requires
            d != 0,
            m >= 0,
    ;
}

/// The crossings of scanline `y` by the polygon's edges, in edge order.
fn scanline_crossings(points: &Vec<RasterPoint>, y: isize) -> (xs: Vec<isize>)
    requires
        points.len() >= 1,
        forall|j: int| 0 <= j < points.len() ==> coord_ok(#[trigger] points[j]@),
        -COORD_LIMIT <= y <= COORD_LIMIT,
    ensures
        xs@ == crossings_upto(points@, y as int, points.len() as nat),
{
    let n = points.len();
    let mut xs: Vec<isize> = Vec::new();
    let mut i: usize = 0;
    while i < n
        invariant
            n == points.len(),
            n >= 1,
            i <= n,
            forall|j: int| 0 <= j < points.len() ==> coord_ok(#[trigger] points[j]@),
            -COORD_LIMIT <= y <= COORD_LIMIT,
            xs@ == crossings_upto(points@, y as int, i as nat),
        decreases n - i,
    {
        let j = (i + 1) % n;
        let x1 = points[i].x;
        let y1 = points[i].y;
        let x2 = points[j].x;
        let y2 = points[j].y;
        proof {
            assert(coord_ok(points[i as int]@));
            assert(coord_ok(points[j as int]@));
        }
        if (y1 <= y && y2 > y) || (y2 <= y && y1 > y) {
            let dy = y - y1;
            let dx = x2 - x1;
            assert(-0x4000_0000 <= dy * dx <= 0x4000_0000) by (nonlinear_arith)
                requires
                    -0x8000 <= dy <= 0x8000,
                    -0x8000 <= dx <= 0x8000,
            ;
            let num = dy * dx;
            proof {
                lemma_trunc_div_bound(num as int, (y2 - y1) as int);
            }
            let q = num / (y2 - y1);
            let ix = q + x1;
            xs.push(ix);
        }
        i = i + 1;
    }
    xs
}

/// A fixed-size buffer of packed ARGB pixels, stored row by row.
#[derive(Clone)]
pub struct Raster {
    width: usize,
    height: usize,
    color: Vec<u32>,
}

impl View for Raster {
    type V = RasterView;

    closed spec fn view(&self) -> RasterView {
        RasterView { width: self.width as nat, height: self.height as nat, pixels: self.color@ }
    }
}

impl Raster {
    /// A `width` by `height` raster with every pixel zero.
    pub fn new(width: usize, height: usize) -> (r: Raster)
        requires
            width * height <= usize::MAX,
        ensures
            r@.wf(),
            r@.width == width,
            r@.height == height,
            forall|x: int, y: int| r@.in_bounds(x, y) ==> #[trigger] r@.pixel(x, y) == 0,
    {
        let r = Raster { width, height, color: vec![0u32; width * height] };
        assert forall|x: int, y: int| r@.in_bounds(x, y) implies #[trigger] r@.pixel(x, y) == 0 by {
            lemma_index(width as nat, height as nat, x, y, x, y);
        }
        r
    }

    /// Sets every pixel to `color`.
    pub fn fill(&mut self, color: &Color)
        requires
            old(self)@.wf(),
        ensures
            final(self)@.painted(old(self)@, |x: int, y: int| true, color.word()),
    {
        let word = color.to_u32();
        let n = self.color.len();
        let mut i: usize = 0;
        while i < n
            invariant
                self@.width == old(self)@.width,
                self@.height == old(self)@.height,
                self@.pixels.len() == n,
                n == old(self)@.pixels.len(),
                n == self@.width * self@.height,
                forall|j: int| 0 <= j < i ==> self@.pixels[j] == word,
            decreases n - i,
        {
            self.color.set(i, word);
            i = i + 1;
        }
        proof {
            let v = self@;
            assert forall|x: int, y: int| #[trigger] old(self)@.in_bounds(x, y) implies v.pixel(x, y)
                == word by {
                lemma_index(v.width, v.height, x, y, x, y);
            }
        }
    }

    pub fn size(&self) -> (r: (usize, usize))
        ensures
            r.0 == self@.width,
            r.1 == self@.height,
    {
        (self.width, self.height)
    }

    pub fn dimensions(&self) -> (r: (usize, usize))
        ensures
            r.0 == self@.width,
            r.1 == self@.height,
    {
        (self.width, self.height)
    }

    /// Sets the pixel at `(x, y)`, which the caller guarantees to be in bounds.
    pub fn put_pixel_unsafe(&mut self, x: usize, y: usize, color: &Color)
        requires
            old(self)@.wf(),
            old(self)@.in_bounds(x as int, y as int),
        ensures
            final(self)@.pixels == old(self)@.pixels.update(old(self)@.index(x as int, y as int), color.word()),
            final(self)@.painted(
                old(self)@,
                |px: int, py: int| px == x && py == y,
                color.word(),
            ),
    {
        proof {
            lemma_index(self@.width, self@.height, x as int, y as int, x as int, y as int);
            assert(self.color.len() <= usize::MAX);
            assert(y * self.width + x < self.color.len());
        }
        let offset = y * self.width + x;
        let word = color.to_u32();
        self.color.set(offset, word);
        proof {
            let v = self@;
            let o = old(self)@;
            assert forall|px: int, py: int| #[trigger] o.in_bounds(px, py) implies v.pixel(px, py)
                == if px == x && py == y {
                word
            } else {
                o.pixel(px, py)
            } by {
                lemma_index(v.width, v.height, px, py, x as int, y as int);
            }
        }
    }

    /// Sets the pixel at `(x, y)` when it lies in the raster; does nothing otherwise.
    pub fn put_pixel(&mut self, x: isize, y: isize, color: &Color)
        requires
            old(self)@.wf(),
        ensures
            final(self)@.painted(
                old(self)@,
                |px: int, py: int| px == x && py == y,
                color.word(),
            ),
            !old(self)@.in_bounds(x as int, y as int) ==> final(self)@ == old(self)@,
    {
        if x >= 0 && y >= 0 && (x as usize) < self.width && (y as usize) < self.height {
            self.put_pixel_unsafe(x as usize, y as usize, color);
        }
    }

    /// Draws the one-pixel-wide Bresenham line from `a` to `b`, both ends
    /// included; pixels outside the raster are skipped.
    pub fn draw_line(&mut self, a: &RasterPoint, b: &RasterPoint, color: &Color)
        requires
            old(self)@.wf(),
            line_fits(a@, b@),
        ensures
            final(self)@.painted(
                old(self)@,
                |px: int, py: int| on_line(a@, b@, px, py),
                color.word(),
            ),
    {
        let dx: isize = if a.x <= b.x { b.x - a.x } else { a.x - b.x };
        let dy: isize = if a.y <= b.y { b.y - a.y } else { a.y - b.y };
        let sx: isize = if a.x < b.x { 1 } else { -1 };
        let sy: isize = if a.y < b.y { 1 } else { -1 };
        let mut err: isize = dx - dy;
        let mut x: isize = a.x;
        let mut y: isize = a.y;
        let ghost word = color.word();
        let ghost start = self@;
        let ghost mut fuel: nat = (dx + dy) as nat;
        let ghost mut done: spec_fn(int, int) -> bool = |px: int, py: int| false;
        proof {
            lemma_painted_none(start, word);
            assert(sx * (b.x - x) == dx) by (nonlinear_arith)
                requires
                    x == a.x,
                    sx == step_toward(a.x as int, b.x as int),
                    dx == abs_diff(a.x as int, b.x as int),
            ;
            assert(sy * (b.y - y) == dy) by (nonlinear_arith)
                requires
                    y == a.y,
                    sy == step_toward(a.y as int, b.y as int),
                    dy == abs_diff(a.y as int, b.y as int),
            ;
            assert(err == dx - dy + dy * (sx * (b.x - x)) - dx * (sy * (b.y - y))) by (nonlinear_arith)
                requires
                    sx * (b.x - x) == dx,
                    sy * (b.y - y) == dy,
                    err == dx - dy,
            ;
        }
        loop
            invariant
                self@.painted(start, done, word),
                start == old(self)@,
                word == color.word(),
                line_fits(a@, b@),
                dx == abs_diff(a.x as int, b.x as int),
                dy == abs_diff(a.y as int, b.y as int),
                sx == step_toward(a.x as int, b.x as int),
                sy == step_toward(a.y as int, b.y as int),
                sx == 1 ==> a.x <= x <= b.x,
                sx == -1 ==> b.x <= x <= a.x,
                sy == 1 ==> a.y <= y <= b.y,
                sy == -1 ==> b.y <= y <= a.y,
                0 <= sx * (b.x - x) <= dx,
                0 <= sy * (b.y - y) <= dy,
                err == dx - dy + dy * (sx * (b.x - x)) - dx * (sy * (b.y - y)),
                -2 * (dx + dy) <= err <= 2 * (dx + dy),
                fuel >= sx * (b.x - x) + sy * (b.y - y),
                forall|px: int, py: int|
                    on_line(a@, b@, px, py) <==> (done(px, py) || line_visits(
                        a@,
                        b@,
                        x as int,
                        y as int,
                        err as int,
                        fuel,
                        (px, py),
                    )),
            ensures
                self@.painted(start, done, word),
                forall|px: int, py: int| on_line(a@, b@, px, py) <==> done(px, py),
            decreases sx * (b.x - x) + sy * (b.y - y),
        {
            let ghost before = self@;
            self.put_pixel(x, y, color);
            proof {
                lemma_painted_trans(start, before, self@, done, |px: int, py: int| px == x && py == y, word);
                done = |px: int, py: int| done(px, py) || (px == x && py == y);
            }
            if x == b.x && y == b.y {
                break;
            }
            let ghost rx = sx * (b.x - x);
            let ghost ry = sy * (b.y - y);
            let e2 = 2 * err;
            proof {
                if rx == 0 {
                    assert(ry >= 1);
                    assert(err <= -dy) by (nonlinear_arith)
                        requires
                            rx == 0,
                            ry >= 1,
                            dx >= 0,
                            err == dx - dy + dy * rx - dx * ry,
                    ;
                    assert(!(e2 > -dy));
                }
                if ry == 0 {
                    assert(rx >= 1);
                    assert(err >= dx) by (nonlinear_arith)
                        requires
                            ry == 0,
                            rx >= 1,
                            dy >= 0,
                            err == dx - dy + dy * rx - dx * ry,
                    ;
                    assert(!(e2 < dx));
                }
                assert(fuel > 0);
            }
            if e2 > -dy {
                err = err - dy;
                x = x + sx;
            }
            if e2 < dx {
                err = err + dx;
                y = y + sy;
            }
            proof {
                let rx2 = sx * (b.x - x);
                let ry2 = sy * (b.y - y);
                if e2 > -dy {
                    assert(rx2 == rx - 1) by (nonlinear_arith)
                        requires rx2 == sx * (b.x - x), rx == sx * (b.x - (x - sx)), sx * sx == 1;
                } else {
                    assert(rx2 == rx);
                }
                if e2 < dx {
                    assert(ry2 == ry - 1) by (nonlinear_arith)
                        requires ry2 == sy * (b.y - y), ry == sy * (b.y - (y - sy)), sy * sy == 1;
                } else {
                    assert(ry2 == ry);
                }
                assert(dy * rx2 == dy * rx - (if e2 > -dy { dy } else { 0 })) by (nonlinear_arith)
                    requires rx2 == rx - (if e2 > -dy { 1int } else { 0 });
                assert(dx * ry2 == dx * ry - (if e2 < dx { dx } else { 0 })) by (nonlinear_arith)
                    requires ry2 == ry - (if e2 < dx { 1int } else { 0 });
                assert(e2 > -dy || e2 < dx);
                fuel = (fuel - 1) as nat;
            }
        }
    }

    /// Draws a line between each pair of consecutive points, and from the
    /// first point to the last when `closed`.
    pub fn draw_polyline(&mut self, points: &Vec<RasterPoint>, color: &Color, closed: bool)
        requires
            old(self)@.wf(),
            points.len() >= 2,
            forall|j: int|
                0 <= j < points.len() - 1 ==> line_fits(#[trigger] points[j]@, points[j + 1]@),
            closed ==> line_fits(points[0]@, points[points.len() - 1]@),
        ensures
            final(self)@.painted(
                old(self)@,
                |px: int, py: int| on_polyline(points@, closed, px, py),
                color.word(),
            ),
    {
        let ghost word = color.word();
        let ghost start = self@;
        let ghost pts = points@;
        proof {
            lemma_painted_none(start, word);
            lemma_painted_same_cover(
                start,
                start,
                |px: int, py: int| false,
                |px: int, py: int|
                    exists|j: int| 0 <= j < 0 && #[trigger] on_line(pts[j]@, pts[j + 1]@, px, py),
                word,
            );
        }
        let n = points.len() - 1;
        let mut i: usize = 0;
        while i < n
            invariant
                start == old(self)@,
                word == color.word(),
                pts == points@,
                n == points.len() - 1,
                i <= n,
                forall|j: int|
                    0 <= j < points.len() - 1 ==> line_fits(#[trigger] points[j]@, points[j + 1]@),
                closed ==> line_fits(points[0]@, points[points.len() - 1]@),
                self@.painted(
                    start,
                    |px: int, py: int|
                        exists|j: int|
                            0 <= j < i && #[trigger] on_line(pts[j]@, pts[j + 1]@, px, py),
                    word,
                ),
            decreases n - i,
        {
            let ghost before = self@;
            let ghost k = i as int;
            self.draw_line(&points[i], &points[i + 1], color);
            proof {
                lemma_painted_trans(
                    start,
                    before,
                    self@,
                    |px: int, py: int|
                        exists|j: int|
                            0 <= j < k && #[trigger] on_line(pts[j]@, pts[j + 1]@, px, py),
                    |px: int, py: int| on_line(pts[k]@, pts[k + 1]@, px, py),
                    word,
                );
                assert forall|px: int, py: int| start.in_bounds(px, py) implies ((exists|j: int|
                    0 <= j < k && #[trigger] on_line(pts[j]@, pts[j + 1]@, px, py)) || on_line(
                    pts[k]@,
                    pts[k + 1]@,
                    px,
                    py,
                )) <==> (exists|j: int|
                    0 <= j < k + 1 && #[trigger] on_line(pts[j]@, pts[j + 1]@, px, py)) by {
                    if on_line(pts[k]@, pts[k + 1]@, px, py) {
                        assert(0 <= k < k + 1);
                    }
                }
                lemma_painted_same_cover(
                    start,
                    self@,
                    |px: int, py: int|
                        (exists|j: int|
                            0 <= j < k && #[trigger] on_line(pts[j]@, pts[j + 1]@, px, py))
                            || on_line(pts[k]@, pts[k + 1]@, px, py),
                    |px: int, py: int|
                        exists|j: int|
                            0 <= j < k + 1 && #[trigger] on_line(pts[j]@, pts[j + 1]@, px, py),
                    word,
                );
            }
            i = i + 1;
        }
        if closed {
            let ghost before = self@;
            self.draw_line(&points[0], &points[n], color);
            proof {
                lemma_painted_trans(
                    start,
                    before,
                    self@,
                    |px: int, py: int|
                        exists|j: int|
                            0 <= j < n && #[trigger] on_line(pts[j]@, pts[j + 1]@, px, py),
                    |px: int, py: int| on_line(pts[0]@, pts[n as int]@, px, py),
                    word,
                );
                lemma_painted_same_cover(
                    start,
                    self@,
                    |px: int, py: int|
                        (exists|j: int|
                            0 <= j < n && #[trigger] on_line(pts[j]@, pts[j + 1]@, px, py))
                            || on_line(pts[0]@, pts[n as int]@, px, py),
                    |px: int, py: int| on_polyline(pts, closed, px, py),
                    word,
                );
            }
        } else {
            proof {
                lemma_painted_same_cover(
                    start,
                    self@,
                    |px: int, py: int|
                        exists|j: int|
                            0 <= j < n && #[trigger] on_line(pts[j]@, pts[j + 1]@, px, py),
                    |px: int, py: int| on_polyline(pts, closed, px, py),
                    word,
                );
            }
        }
    }

    /// Fills the half-open rectangle `[a.x, b.x) by [a.y, b.y)`; nothing is
    /// drawn when `b` does not lie beyond `a` on both axes.
    pub fn fill_rect(&mut self, a: RasterPoint, b: RasterPoint, color: &Color)
        requires
            old(self)@.wf(),
        ensures
            final(self)@.painted(
                old(self)@,
                |px: int, py: int| a@.0 <= px < b@.0 && a@.1 <= py < b@.1,
                color.word(),
            ),
            b@.0 <= a@.0 || b@.1 <= a@.1 ==> final(self)@ == old(self)@,
    {
        let ghost word = color.word();
        let ghost start = self@;
        proof {
            lemma_painted_none(start, word);
            lemma_painted_same_cover(
                start,
                start,
                |px: int, py: int| false,
                |px: int, py: int| a.x <= px < a.x && a.y <= py < b.y,
                word,
            );
        }
        let mut x: isize = a.x;
        while x < b.x
            invariant
                start == old(self)@,
                word == color.word(),
                a.x <= x,
                x <= b.x || x == a.x,
                self@.painted(start, |px: int, py: int| a.x <= px < x && a.y <= py < b.y, word),
            decreases b.x - x,
        {
            let mut y: isize = a.y;
            proof {
                lemma_painted_same_cover(
                    start,
                    self@,
                    |px: int, py: int| a.x <= px < x && a.y <= py < b.y,
                    |px: int, py: int| (a.x <= px < x && a.y <= py < b.y) || (px == x && a.y <= py < y),
                    word,
                );
            }
            while y < b.y
                invariant
                    start == old(self)@,
                    word == color.word(),
                    a.x <= x < b.x,
                    a.y <= y,
                    y <= b.y || y == a.y,
                    self@.painted(
                        start,
                        |px: int, py: int|
                            (a.x <= px < x && a.y <= py < b.y) || (px == x && a.y <= py < y),
                        word,
                    ),
                decreases b.y - y,
            {
                let ghost before = self@;
                self.put_pixel(x, y, color);
                proof {
                    lemma_painted_trans(
                        start,
                        before,
                        self@,
                        |px: int, py: int|
                            (a.x <= px < x && a.y <= py < b.y) || (px == x && a.y <= py < y),
                        |px: int, py: int| px == x && py == y,
                        word,
                    );
                    lemma_painted_same_cover(
                        start,
                        self@,
                        |px: int, py: int|
                            ((a.x <= px < x && a.y <= py < b.y) || (px == x && a.y <= py < y)) || (
                            px == x && py == y),
                        |px: int, py: int|
                            (a.x <= px < x && a.y <= py < b.y) || (px == x && a.y <= py < y + 1),
                        word,
                    );
                }
                y = y + 1;
            }
            proof {
                lemma_painted_same_cover(
                    start,
                    self@,
                    |px: int, py: int| (a.x <= px < x && a.y <= py < b.y) || (px == x && a.y <= py < y),
                    |px: int, py: int| a.x <= px < x + 1 && a.y <= py < b.y,
                    word,
                );
            }
            x = x + 1;
        }
        proof {
            lemma_painted_same_cover(
                start,
                self@,
                |px: int, py: int| a.x <= px < x && a.y <= py < b.y,
                |px: int, py: int| a.x <= px < b.x && a.y <= py < b.y,
                word,
            );
            if b.x <= a.x || b.y <= a.y {
                lemma_painted_nothing(
                    start,
                    self@,
                    |px: int, py: int| a.x <= px < b.x && a.y <= py < b.y,
                    word,
                );
            }
        }
    }

    /// Fills the polygon through `points` scanline by scanline: on each row
    /// between the lowest and the highest vertex, the crossings of the edges
    /// are sorted and the pixels from each even-numbered crossing up to (not
    /// including) the next one are set.
    pub fn fill_polygon(&mut self, points: Vec<RasterPoint>, color: &Color)
        requires
            old(self)@.wf(),
            points.len() >= 1,
            forall|j: int| 0 <= j < points.len() ==> coord_ok(#[trigger] points[j]@),
        ensures
            final(self)@.painted(
                old(self)@,
                |px: int, py: int| in_polygon(points@, px, py),
                color.word(),
            ),
    {
        let n = points.len();
        let mut min_y: isize = points[0].y;
        let mut max_y: isize = points[0].y;
        proof {
            assert(coord_ok(points[0]@));
        }
        let mut i: usize = 1;
        while i < n
            invariant
                n == points.len(),
                1 <= i <= n,
                forall|j: int| 0 <= j < points.len() ==> coord_ok(#[trigger] points[j]@),
                -COORD_LIMIT <= min_y <= max_y <= COORD_LIMIT,
                forall|j: int| 0 <= j < i ==> min_y <= (#[trigger] points[j]@).1 <= max_y,
            decreases n - i,
        {
            proof {
                assert(coord_ok(points[i as int]@));
            }
            if points[i].y < min_y {
                min_y = points[i].y;
            }
            if points[i].y > max_y {
                max_y = points[i].y;
            }
            i = i + 1;
        }
        let ghost word = color.word();
        let ghost start = self@;
        let ghost pts = points@;
        proof {
            lemma_painted_none(start, word);
            lemma_painted_same_cover(
                start,
                start,
                |px: int, py: int| false,
                |px: int, py: int| min_y <= py < min_y && in_polygon(pts, px, py),
                word,
            );
        }
        let mut y: isize = min_y;
        while y <= max_y
            invariant
                start == old(self)@,
                word == color.word(),
                pts == points@,
                n == points.len(),
                n >= 1,
                forall|j: int| 0 <= j < points.len() ==> coord_ok(#[trigger] points[j]@),
                -COORD_LIMIT <= min_y <= max_y <= COORD_LIMIT,
                forall|j: int| 0 <= j < n ==> min_y <= (#[trigger] points[j]@).1 <= max_y,
                min_y <= y <= max_y + 1,
                self@.painted(
                    start,
                    |px: int, py: int| min_y <= py < y && in_polygon(pts, px, py),
                    word,
                ),
            decreases max_y + 1 - y,
        {
            let mut xs = scanline_crossings(&points, y);
            sort_ascending(&mut xs);
            let ghost s = xs@;
            let ghost yy = y as int;
            proof {
                let c = crossings_upto(pts, yy, n as nat);
                lemma_isize_leq_total();
                c.lemma_sort_by_ensures(isize_leq());
                vstd::seq_lib::lemma_sorted_unique(xs@, c.sort_by(isize_leq()), isize_leq());
                assert(s == sorted_crossings(pts, yy));
                lemma_painted_same_cover(
                    start,
                    self@,
                    |px: int, py: int| min_y <= py < yy && in_polygon(pts, px, py),
                    |px: int, py: int|
                        (min_y <= py < yy && in_polygon(pts, px, py)) || (py == yy && exists|m: int|
                            0 <= m && 2 * m < 0 && 2 * m + 1 < s.len() && s[2 * m] <= px
                                < #[trigger] s[2 * m + 1]),
                    word,
                );
            }
            let mut k: usize = 0;
            while k + 1 < xs.len()
                invariant
                    start == old(self)@,
                    word == color.word(),
                    xs@ == s,
                    s == sorted_crossings(pts, yy),
                    yy == y,
                    -COORD_LIMIT <= y <= COORD_LIMIT,
                    k % 2 == 0,
                    k <= xs.len(),
                    self@.painted(
                        start,
                        |px: int, py: int|
                            (min_y <= py < yy && in_polygon(pts, px, py)) || (py == yy && exists|
                                m: int,
                            |
                                0 <= m && 2 * m < k && 2 * m + 1 < s.len() && s[2 * m] <= px
                                    < #[trigger] s[2 * m + 1]),
                        word,
                    ),
                decreases xs.len() - k,
            {
                let ghost before = self@;
                let ghost kk = k as int;
                self.fill_rect(RasterPoint::new(xs[k], y), RasterPoint::new(xs[k + 1], y + 1), color);
                proof {
                    lemma_painted_trans(
                        start,
                        before,
                        self@,
                        |px: int, py: int|
                            (min_y <= py < yy && in_polygon(pts, px, py)) || (py == yy && exists|
                                m: int,
                            |
                                0 <= m && 2 * m < kk && 2 * m + 1 < s.len() && s[2 * m] <= px
                                    < #[trigger] s[2 * m + 1]),
                        |px: int, py: int| s[kk] <= px < s[kk + 1] && yy <= py < yy + 1,
                        word,
                    );
                    assert forall|px: int, py: int| start.in_bounds(px, py) implies (((min_y <= py
                        < yy && in_polygon(pts, px, py)) || (py == yy && exists|m: int|
                        0 <= m && 2 * m < kk && 2 * m + 1 < s.len() && s[2 * m] <= px
                            < #[trigger] s[2 * m + 1])) || (s[kk] <= px < s[kk + 1] && yy <= py < yy
                        + 1)) <==> ((min_y <= py < yy && in_polygon(pts, px, py)) || (py == yy
                        && exists|m: int|
                        0 <= m && 2 * m < kk + 2 && 2 * m + 1 < s.len() && s[2 * m] <= px
                            < #[trigger] s[2 * m + 1])) by {
                        let m0 = kk / 2;
                        assert(2 * m0 == kk);
                        if s[kk] <= px < s[kk + 1] && py == yy {
                            assert(s[2 * m0] <= px < s[2 * m0 + 1]);
                        }
                    }
                    lemma_painted_same_cover(
                        start,
                        self@,
                        |px: int, py: int|
                            ((min_y <= py < yy && in_polygon(pts, px, py)) || (py == yy && exists|
                                m: int,
                            |
                                0 <= m && 2 * m < kk && 2 * m + 1 < s.len() && s[2 * m] <= px
                                    < #[trigger] s[2 * m + 1])) || (s[kk] <= px < s[kk + 1] && yy
                                <= py < yy + 1),
                        |px: int, py: int|
                            (min_y <= py < yy && in_polygon(pts, px, py)) || (py == yy && exists|
                                m: int,
                            |
                                0 <= m && 2 * m < kk + 2 && 2 * m + 1 < s.len() && s[2 * m] <= px
                                    < #[trigger] s[2 * m + 1]),
                        word,
                    );
                }
                k = k + 2;
            }
            proof {
                assert forall|px: int, py: int| start.in_bounds(px, py) implies ((min_y <= py < yy
                    && in_polygon(pts, px, py)) || (py == yy && exists|m: int|
                    0 <= m && 2 * m < k && 2 * m + 1 < s.len() && s[2 * m] <= px
                        < #[trigger] s[2 * m + 1])) <==> (min_y <= py < yy + 1 && in_polygon(
                    pts,
                    px,
                    py,
                )) by {
                    if py == yy && in_polygon(pts, px, py) {
                        let m = choose|m: int|
                            0 <= m && 2 * m + 1 < s.len() && s[2 * m] <= px
                                < #[trigger] s[2 * m + 1];
                        assert(2 * m < k);
                    }
                }
                lemma_painted_same_cover(
                    start,
                    self@,
                    |px: int, py: int|
                        (min_y <= py < yy && in_polygon(pts, px, py)) || (py == yy && exists|m: int|
                            0 <= m && 2 * m < k && 2 * m + 1 < s.len() && s[2 * m] <= px
                                < #[trigger] s[2 * m + 1]),
                    |px: int, py: int| min_y <= py < yy + 1 && in_polygon(pts, px, py),
                    word,
                );
            }
            y = y + 1;
        }
        proof {
            assert forall|px: int, py: int| start.in_bounds(px, py) implies (min_y <= py < y
                && in_polygon(pts, px, py)) <==> in_polygon(pts, px, py) by {
                if in_polygon(pts, px, py) {
                    lemma_filled_row(pts, px, py, min_y as int, max_y as int);
                }
            }
            lemma_painted_same_cover(
                start,
                self@,
                |px: int, py: int| min_y <= py < y && in_polygon(pts, px, py),
                |px: int, py: int| in_polygon(pts, px, py),
                word,
            );
        }
    }

    /// The packed pixels, row by row.
    pub fn borrow_buffer(&self) -> (r: &Vec<u32>)
        ensures
            r@ == self@.pixels,
    {
        &self.color
    }
}

} // verus!
