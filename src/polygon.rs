use vstd::prelude::*;
use vstd::relations::{sorted_by, total_ordering};

use crate::raster::RasterPoint;

verus! {

/// Largest magnitude of a polygon vertex coordinate. The crossing of an edge
/// with a scanline multiplies two coordinate differences, each up to twice
/// this bound, and the product must fit a 32-bit `isize`.
pub const COORD_LIMIT: isize = 0x4000;

pub open spec fn coord_ok(p: (int, int)) -> bool {
    -COORD_LIMIT <= p.0 <= COORD_LIMIT && -COORD_LIMIT <= p.1 <= COORD_LIMIT
}

/// Rust's integer division, which rounds toward zero.
pub open spec fn trunc_div(n: int, d: int) -> int {
    if n >= 0 {
        n / d
    } else {
        -((-n) / d)
    }
}

/// The ascending order on scanline crossings.
pub open spec fn isize_leq() -> spec_fn(isize, isize) -> bool {
    |u: isize, v: isize| u <= v
}

/// The two ends of edge `i` of a closed polygon: vertex `i` and the next one.
pub open spec fn edge(points: Seq<RasterPoint>, i: int) -> ((int, int), (int, int)) {
    (points[i]@, points[(i + 1) % (points.len() as int)]@)
}

/// Whether edge `i` crosses scanline `y`, counting its lower end and not its upper one.
pub open spec fn edge_crosses(points: Seq<RasterPoint>, i: int, y: int) -> bool {
    let (p1, p2) = edge(points, i);
    (p1.1 <= y && p2.1 > y) || (p2.1 <= y && p1.1 > y)
}

/// Where edge `i` meets scanline `y`, by linear interpolation rounded toward zero.
pub open spec fn edge_x(points: Seq<RasterPoint>, i: int, y: int) -> int {
    let (p1, p2) = edge(points, i);
    trunc_div((y - p1.1) * (p2.0 - p1.0), p2.1 - p1.1) + p1.0
}

/// Crossings of scanline `y` by the first `k` edges, in edge order.
pub open spec fn crossings_upto(points: Seq<RasterPoint>, y: int, k: nat) -> Seq<isize>
    decreases k,
{
    if k == 0 {
        Seq::empty()
    } else {
        let prev = crossings_upto(points, y, (k - 1) as nat);
        if edge_crosses(points, k - 1, y) {
            prev.push(edge_x(points, k - 1, y) as isize)
        } else {
            prev
        }
    }
}

/// Crossings of scanline `y` by the polygon's edges, in ascending order.
pub open spec fn sorted_crossings(points: Seq<RasterPoint>, y: int) -> Seq<isize> {
    crossings_upto(points, y, points.len()).sort_by(isize_leq())
}

/// Whether the pixel `(x, y)` is filled by the scanline rule: it lies in
/// `[s[2m], s[2m + 1])` for some pair of the sorted crossings `s` of its row
/// (a last crossing left without a partner fills nothing).
pub open spec fn in_polygon(points: Seq<RasterPoint>, x: int, y: int) -> bool {
    let s = sorted_crossings(points, y);
    exists|m: int| 0 <= m && 2 * m + 1 < s.len() && s[2 * m] <= x < #[trigger] s[2 * m + 1]
}

pub(crate) proof fn lemma_isize_leq_total()
    ensures
        total_ordering(isize_leq()),
{
}

/// A crossing of scanline `y` comes from an edge that spans it.
pub(crate) proof fn lemma_crossing_row(points: Seq<RasterPoint>, y: int, k: nat)
    requires
        k <= points.len(),
        crossings_upto(points, y, k).len() > 0,
    ensures
        exists|i: int| 0 <= i < k && #[trigger] edge_crosses(points, i, y),
    decreases k,
{
    if !edge_crosses(points, k - 1, y) {
        lemma_crossing_row(points, y, (k - 1) as nat);
    }
}

/// A filled pixel's row lies between the lowest and highest vertex.
pub(crate) proof fn lemma_filled_row(points: Seq<RasterPoint>, x: int, y: int, lo: int, hi: int)
    requires
        points.len() >= 1,
        forall|j: int| 0 <= j < points.len() ==> lo <= (#[trigger] points[j]@).1 <= hi,
        in_polygon(points, x, y),
    ensures
        lo <= y < hi,
{
    let c = crossings_upto(points, y, points.len());
    lemma_isize_leq_total();
    c.lemma_sort_by_ensures(isize_leq());
    let s = c.sort_by(isize_leq());
    assert(s.len() > 0);
    c.to_multiset_ensures();
    s.to_multiset_ensures();
    assert(c.len() > 0);
    lemma_crossing_row(points, y, points.len());
    let i = choose|i: int| 0 <= i < points.len() && #[trigger] edge_crosses(points, i, y);
    let j = (i + 1) % (points.len() as int);
    assert(0 <= j < points.len());
    assert(lo <= points[i]@.1 <= hi);
    assert(lo <= points[j]@.1 <= hi);
}

/// Relies on `slice::sort`: the result is in ascending order and holds the
/// same values, each as often, as before.
#[verifier::external_body]
pub(crate) fn sort_ascending(v: &mut Vec<isize>)
    ensures
        sorted_by(final(v)@, isize_leq()),
        final(v)@.to_multiset() == old(v)@.to_multiset(),
{
    v.sort();
}

} // verus!
